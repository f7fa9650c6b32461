//! Message tags. A line that holds a message carries its id in a comment that
//! starts with `<!-- msg:` and the id's digits.
use vstd::prelude::*;
use vstd::slice::slice_subrange;

use crate::decimal::{all_digits, parse_i32, signed_value};
use crate::text::{
    chomped, first_index, joined, lemma_first_index, lines, newline, occurs_at, str_stands_at,
};
use crate::unicode::{ascii_digit, digit, is_digit};

verus! {

/// What a tag starts with.
pub open spec fn opener() -> Seq<char> {
    "<!-- msg:"@
}

/// The number of digits that a text starts with.
pub open spec fn digit_run(s: Seq<char>) -> int
    decreases s.len(),
{
    if s.len() > 0 && digit(s[0]) {
        1 + digit_run(s.skip(1))
    } else {
        0
    }
}

/// A tag stands at the start of the text.
pub open spec fn tag_starts(s: Seq<char>) -> bool {
    occurs_at(s, 0, opener()) && digit_run(s.skip(9)) > 0
}

/// The digits of the tag at the start of the text.
pub open spec fn tag_digits(s: Seq<char>) -> Seq<char> {
    s.skip(9).take(digit_run(s.skip(9)))
}

/// The id that a tag's digits stand for. Digits that are no `i32` stand for none.
pub open spec fn id_value(digits: Seq<char>) -> Option<int> {
    signed_value(digits, i32::MIN as int, i32::MAX as int)
}

/// What follows the tag at the start of the text.
pub open spec fn after_tag(s: Seq<char>) -> Seq<char> {
    s.skip(9 + digit_run(s.skip(9)))
}

/// A tag stands somewhere in the text.
pub open spec fn has_tag(s: Seq<char>) -> bool
    decreases s.len(),
{
    s.len() > 0 && (tag_starts(s) || has_tag(s.skip(1)))
}

/// The id of the first tag in the text, where there is a tag and it has one.
pub open spec fn first_id(s: Seq<char>) -> Option<int>
    decreases s.len(),
{
    if s.len() == 0 {
        None
    } else if tag_starts(s) {
        id_value(tag_digits(s))
    } else {
        first_id(s.skip(1))
    }
}

/// The ids of all tags in the text, in order. Tags without an id are passed over.
pub open spec fn tag_ids(s: Seq<char>) -> Seq<int>
    decreases s.len(),
    via tag_ids_decreases
{
    if s.len() == 0 {
        Seq::empty()
    } else if tag_starts(s) {
        match id_value(tag_digits(s)) {
            Some(id) => seq![id] + tag_ids(after_tag(s)),
            None => tag_ids(after_tag(s)),
        }
    } else {
        tag_ids(s.skip(1))
    }
}

#[via_fn]
proof fn tag_ids_decreases(s: Seq<char>) {
    if tag_starts(s) {
        lemma_tag_len(s);
    }
}

proof fn lemma_tag_len(s: Seq<char>)
    requires
        tag_starts(s),
    ensures
        after_tag(s).len() < s.len(),
{
    reveal_strlit("<!-- msg:");
    lemma_digit_run(s.skip(9));
}

/// The ids grow from each to the next.
pub open spec fn increasing(ids: Seq<int>) -> bool {
    forall|i: int, j: int| 0 <= i < j < ids.len() ==> ids[i] < ids[j]
}

/// The largest of the ids that is above zero, or zero.
pub open spec fn max_id(ids: Seq<int>) -> int
    decreases ids.len(),
{
    if ids.len() == 0 {
        0
    } else {
        let rest = max_id(ids.drop_last());
        if ids.last() > rest {
            ids.last()
        } else {
            rest
        }
    }
}

/// The numbers held by a sequence of machine integers.
pub open spec fn ids(v: Seq<i32>) -> Seq<int> {
    v.map_values(|x: i32| x as int)
}

// ---------------------------------------------------------------------------
// Lemmas
// ---------------------------------------------------------------------------

pub proof fn lemma_digit_run(s: Seq<char>)
    ensures
        0 <= digit_run(s) <= s.len(),
        forall|i: int| 0 <= i < digit_run(s) ==> digit(#[trigger] s[i]),
        digit_run(s) < s.len() ==> !digit(s[digit_run(s)]),
    decreases s.len(),
{
    if s.len() > 0 && digit(s[0]) {
        let t = s.skip(1);
        lemma_digit_run(t);
        assert forall|i: int| 0 <= i < digit_run(s) implies digit(#[trigger] s[i]) by {
            if i > 0 {
                assert(s[i] == t[i - 1]);
            }
        }
    }
}

/// `digit_run` is the only length with its properties.
pub proof fn lemma_digit_run_is(s: Seq<char>, n: int)
    requires
        0 <= n <= s.len(),
        forall|i: int| 0 <= i < n ==> digit(#[trigger] s[i]),
        n < s.len() ==> !digit(s[n]),
    ensures
        digit_run(s) == n,
{
    lemma_digit_run(s);
    let k = digit_run(s);
    if k < n {
        assert(digit(s[k]));
    } else if n < k {
        assert(digit(s[n]));
    }
}

/// No tag reaches across the character `c` in front of the text `b`: no tag
/// holds `c`, or `c` is a space and `b` does not go on as a tag does after it.
pub open spec fn splits_tags(c: char, b: Seq<char>) -> bool {
    !digit(c) && (!opener().contains(c) || (c == ' ' && b.len() > 0 && b[0] != 'm'))
}

/// A tag at the start of a text does not reach across a character that splits tags.
proof fn lemma_tag_starts_before(a: Seq<char>, c: char, b: Seq<char>)
    requires
        splits_tags(c, b),
    ensures
        tag_starts(a + seq![c] + b) == tag_starts(a),
        tag_starts(a) ==> tag_digits(a + seq![c] + b) == tag_digits(a),
        tag_starts(a) ==> after_tag(a + seq![c] + b) == after_tag(a) + seq![c] + b,
{
    reveal_strlit("<!-- msg:");
    let s = a + seq![c] + b;
    let p = opener();
    if occurs_at(a, 0, p) {
        assert(s.subrange(0, 9) =~= a.subrange(0, 9));
        assert(s.skip(9) =~= a.skip(9) + seq![c] + b);
    }
    if occurs_at(s, 0, p) {
        if a.len() < 9 {
            assert(s[a.len() as int] == c);
            assert(s.subrange(0, 9)[a.len() as int] == p[a.len() as int]);
            assert(s[a.len() as int + 1] == b[0]);
            assert(s.subrange(0, 9)[5] == p[5]);
            assert(false);
        }
        assert(s.subrange(0, 9) =~= a.subrange(0, 9));
    }
    if occurs_at(a, 0, p) {
        let t = a.skip(9);
        let u = s.skip(9);
        lemma_digit_run(t);
        let n = digit_run(t);
        assert(u =~= t + seq![c] + b);
        assert forall|i: int| 0 <= i < n implies digit(#[trigger] u[i]) by {
            assert(u[i] == t[i]);
        }
        if n < t.len() {
            assert(u[n] == t[n]);
        } else {
            assert(u[n] == c);
        }
        lemma_digit_run_is(u, n);
        assert(u.take(n) =~= t.take(n));
        assert(s.skip(9 + n) =~= a.skip(9 + n) + seq![c] + b);
    }
}

/// The tags of two texts with a character between them that splits tags are those
/// of the one and then those of the other.
pub proof fn lemma_tag_ids_split(a: Seq<char>, c: char, b: Seq<char>)
    requires
        splits_tags(c, b),
    ensures
        tag_ids(a + seq![c] + b) == tag_ids(a) + tag_ids(b),
    decreases a.len(),
{
    let s = a + seq![c] + b;
    lemma_tag_starts_before(a, c, b);
    if a.len() == 0 {
        reveal_strlit("<!-- msg:");
        assert(!tag_starts(s)) by {
            if tag_starts(s) {
                assert(s.subrange(0, 9)[0] == opener()[0]);
            }
        }
        assert(s.skip(1) =~= b);
        assert(tag_ids(a) =~= Seq::empty());
        assert(Seq::<int>::empty() + tag_ids(b) =~= tag_ids(b));
    } else if tag_starts(a) {
        lemma_tag_len(a);
        lemma_tag_ids_split(after_tag(a), c, b);
        match id_value(tag_digits(a)) {
            Some(id) => {
                assert(seq![id] + (tag_ids(after_tag(a)) + tag_ids(b)) =~= seq![id] + tag_ids(
                    after_tag(a),
                ) + tag_ids(b));
            },
            None => {},
        }
    } else {
        lemma_tag_ids_split(a.skip(1), c, b);
        assert(s.skip(1) =~= a.skip(1) + seq![c] + b);
    }
}

/// A last character that is no digit and no colon is no part of a tag.
pub proof fn lemma_tag_ids_last(a: Seq<char>, c: char)
    requires
        !digit(c),
        c != ':',
    ensures
        tag_ids(a.push(c)) == tag_ids(a),
    decreases a.len(),
{
    reveal_strlit("<!-- msg:");
    let s = a.push(c);
    let p = opener();
    if a.len() == 0 {
        assert(!tag_starts(s));
        assert(s.skip(1) =~= a);
    } else {
        if occurs_at(s, 0, p) {
            if a.len() < 9 {
                assert(s.subrange(0, 9)[8] == c);
            }
            assert(s.subrange(0, 9) =~= a.subrange(0, 9));
        }
        if occurs_at(a, 0, p) {
            assert(s.subrange(0, 9) =~= a.subrange(0, 9));
            let t = a.skip(9);
            let u = s.skip(9);
            assert(u =~= t.push(c));
            lemma_digit_run(t);
            let n = digit_run(t);
            assert forall|i: int| 0 <= i < n implies digit(#[trigger] u[i]) by {
                assert(u[i] == t[i]);
            }
            if n < t.len() {
                assert(u[n] == t[n]);
            } else {
                assert(u[n] == c);
            }
            lemma_digit_run_is(u, n);
            assert(u.take(n) =~= t.take(n));
            assert(s.skip(9 + n) =~= a.skip(9 + n).push(c));
        }
        if tag_starts(a) {
            lemma_tag_len(a);
            lemma_tag_ids_last(after_tag(a), c);
        } else {
            lemma_tag_ids_last(a.skip(1), c);
            assert(s.skip(1) =~= a.skip(1).push(c));
        }
    }
}

/// A last character that is part of no tag makes none.
pub proof fn lemma_has_tag_last(a: Seq<char>, c: char)
    requires
        splits_tags(c, Seq::empty()),
    ensures
        has_tag(a.push(c)) == has_tag(a),
    decreases a.len(),
{
    let s = a.push(c);
    assert(s =~= a + seq![c] + Seq::empty());
    lemma_tag_starts_before(a, c, Seq::empty());
    if a.len() == 0 {
        reveal_strlit("<!-- msg:");
        assert(s.skip(1) =~= a);
    } else {
        lemma_has_tag_last(a.skip(1), c);
        assert(s.skip(1) =~= a.skip(1).push(c));
    }
}

/// The tags of two texts on lines of their own are those of the one and then
/// those of the other.
pub proof fn lemma_tag_ids_lines(a: Seq<char>, b: Seq<char>)
    ensures
        tag_ids(a + newline() + b) == tag_ids(a) + tag_ids(b),
{
    reveal_strlit("<!-- msg:");
    lemma_tag_ids_split(a, '\n', b);
}

/// The tags of a text are those of its lines, in order.
pub proof fn lemma_tag_ids_of_lines(s: Seq<char>)
    ensures
        tag_ids(s) == ids_of_lines(lines(s)),
    decreases s.len(),
{
    let e = first_index(s, '\n');
    lemma_first_index(s, '\n');
    if s.len() == 0 {
    } else if e == s.len() {
        lemma_ids_of_one(s);
    } else {
        let line = s.take(e);
        let rest = s.skip(e + 1);
        assert(s =~= line + newline() + rest);
        lemma_tag_ids_lines(line, rest);
        lemma_tag_ids_of_lines(rest);
        lemma_ids_of_one(chomped(line));
        lemma_ids_of_lines_concat(seq![chomped(line)], lines(rest));
        if line.len() > 0 && line.last() == '\r' {
            reveal_strlit("<!-- msg:");
            let bare = line.drop_last();
            lemma_tag_ids_split(bare, '\r', Seq::empty());
            assert(line =~= bare + seq!['\r'] + Seq::<char>::empty());
            assert(tag_ids(Seq::empty()) =~= Seq::<int>::empty());
            assert(tag_ids(bare) + Seq::<int>::empty() =~= tag_ids(bare));
        }
    }
}

pub proof fn lemma_ids_of_one(line: Seq<char>)
    ensures
        ids_of_lines(seq![line]) == tag_ids(line),
{
    assert(seq![line].drop_last() =~= Seq::empty());
    assert(ids_of_lines(seq![line].drop_last()) =~= Seq::empty());
    assert(Seq::<int>::empty() + tag_ids(line) =~= tag_ids(line));
}

/// The tag made of digits, and what comes behind it.
pub proof fn lemma_tag_of(digits: Seq<char>, rest: Seq<char>)
    requires
        digits.len() > 0,
        all_digits(digits),
        rest.len() > 0 ==> !digit(rest[0]),
    ensures
        tag_starts(opener() + digits + rest),
        tag_digits(opener() + digits + rest) == digits,
        after_tag(opener() + digits + rest) == rest,
{
    reveal_strlit("<!-- msg:");
    let s = opener() + digits + rest;
    assert(s.subrange(0, 9) =~= opener());
    assert(s.skip(9) =~= digits + rest);
    let t = s.skip(9);
    let n = digits.len() as int;
    assert forall|i: int| 0 <= i < n implies digit(#[trigger] t[i]) by {
        assert(t[i] == digits[i]);
        assert(ascii_digit(digits[i]));
    }
    if n < t.len() {
        assert(t[n] == rest[0]);
    }
    lemma_digit_run_is(t, n);
    assert(t.take(n) =~= digits);
    assert(s.skip(9 + n) =~= rest);
}

/// A text in which no tag stands has no ids.
pub proof fn lemma_untagged(s: Seq<char>)
    requires
        !has_tag(s),
    ensures
        tag_ids(s) == Seq::<int>::empty(),
    decreases s.len(),
{
    if s.len() > 0 {
        lemma_untagged(s.skip(1));
    }
}

/// The ids on all lines, one line after the other.
pub open spec fn ids_of_lines(lines: Seq<Seq<char>>) -> Seq<int>
    decreases lines.len(),
{
    if lines.len() == 0 {
        Seq::empty()
    } else {
        ids_of_lines(lines.drop_last()) + tag_ids(lines.last())
    }
}

/// The tags of a text are those of its lines, in order.
pub proof fn lemma_tag_ids_joined(lines: Seq<Seq<char>>)
    ensures
        tag_ids(joined(lines, newline())) == ids_of_lines(lines),
    decreases lines.len(),
{
    if lines.len() == 0 {
    } else if lines.len() == 1 {
        assert(ids_of_lines(lines.drop_last()) =~= Seq::empty());
        assert(Seq::<int>::empty() + tag_ids(lines[0]) =~= tag_ids(lines[0]));
    } else {
        lemma_tag_ids_joined(lines.drop_last());
        lemma_tag_ids_lines(joined(lines.drop_last(), newline()), lines.last());
    }
}

pub proof fn lemma_ids_of_lines_concat(a: Seq<Seq<char>>, b: Seq<Seq<char>>)
    ensures
        ids_of_lines(a + b) == ids_of_lines(a) + ids_of_lines(b),
    decreases b.len(),
{
    if b.len() == 0 {
        assert(a + b =~= a);
        assert(ids_of_lines(a) + Seq::<int>::empty() =~= ids_of_lines(a));
    } else {
        assert((a + b).drop_last() =~= a + b.drop_last());
        lemma_ids_of_lines_concat(a, b.drop_last());
        assert(ids_of_lines(a) + (ids_of_lines(b.drop_last()) + tag_ids(b.last())) =~= ids_of_lines(
            a,
        ) + ids_of_lines(b.drop_last()) + tag_ids(b.last()));
    }
}

/// A text without `<` holds no tags.
pub proof fn lemma_no_tags(s: Seq<char>)
    requires
        forall|i: int| 0 <= i < s.len() ==> #[trigger] s[i] != '<',
    ensures
        tag_ids(s) == Seq::<int>::empty(),
        !has_tag(s),
    decreases s.len(),
{
    if s.len() > 0 {
        reveal_strlit("<!-- msg:");
        if tag_starts(s) {
            assert(s.subrange(0, 9)[0] == s[0]);
        }
        let t = s.skip(1);
        assert forall|i: int| 0 <= i < t.len() implies #[trigger] t[i] != '<' by {
            assert(t[i] == s[i + 1]);
        }
        lemma_no_tags(t);
    }
}

// ---------------------------------------------------------------------------
// Reading
// ---------------------------------------------------------------------------

/// The end of the digits in `s` from `from` on.
pub fn digits_end(s: &[char], from: usize) -> (r: usize)
    requires
        from <= s.len(),
    ensures
        from <= r <= s.len(),
        r - from == digit_run(s@.skip(from as int)),
{
    let mut i: usize = from;
    while i < s.len() && is_digit(s[i])
        invariant
            from <= i <= s.len(),
            forall|j: int| from <= j < i ==> digit(#[trigger] s[j]),
        decreases s.len() - i,
    {
        i += 1;
    }
    proof {
        let t = s@.skip(from as int);
        assert forall|k: int| 0 <= k < i - from implies digit(#[trigger] t[k]) by {
            assert(t[k] == s@[from + k]);
        }
        lemma_digit_run_is(t, i - from);
    }
    i
}

/// The end of the tag in `s` at `i`, where there is one.
pub fn tag_end(s: &[char], i: usize) -> (r: Option<usize>)
    requires
        i <= s.len(),
    ensures
        r is Some == tag_starts(s@.skip(i as int)),
        match r {
            Some(e) => i + 9 < e <= s.len() && e - i == 9 + digit_run(s@.skip(i as int).skip(9))
                && s@.subrange(i + 9, e as int) == tag_digits(s@.skip(i as int)) && s@.skip(
                e as int,
            ) == after_tag(s@.skip(i as int)),
            None => true,
        },
{
    proof {
        reveal_strlit("<!-- msg:");
    }
    let ghost t = s@.skip(i as int);
    if !str_stands_at(s, i, "<!-- msg:") {
        assert(occurs_at(t, 0, opener()) ==> t.subrange(0, 9) =~= s@.subrange(i as int, i + 9));
        return None;
    }
    assert(t.subrange(0, 9) =~= s@.subrange(i as int, i + 9));
    let e = digits_end(s, i + 9);
    assert(t.skip(9) =~= s@.skip(i + 9));
    proof {
        lemma_digit_run(t.skip(9));
    }
    if e == i + 9 {
        return None;
    }
    assert(s@.subrange(i + 9, e as int) =~= tag_digits(t));
    assert(s@.skip(e as int) =~= after_tag(t));
    Some(e)
}

/// Whether a tag stands in the text.
pub fn holds_tag(s: &[char]) -> (r: bool)
    ensures
        r == has_tag(s@),
{
    let mut i: usize = 0;
    assert(s@.skip(0) =~= s@);
    while i < s.len()
        invariant
            i <= s.len(),
            has_tag(s@) == has_tag(s@.skip(i as int)),
        decreases s.len() - i,
    {
        if tag_end(s, i).is_some() {
            return true;
        }
        assert(s@.skip(i as int).skip(1) =~= s@.skip(i + 1));
        i += 1;
    }
    false
}

/// The id of the first tag in the text, where there is a tag and it has one.
pub fn read_first_id(s: &[char]) -> (r: Option<i32>)
    ensures
        match r {
            Some(id) => first_id(s@) == Some(id as int),
            None => first_id(s@) is None,
        },
{
    let mut i: usize = 0;
    assert(s@.skip(0) =~= s@);
    while i < s.len()
        invariant
            i <= s.len(),
            first_id(s@) == first_id(s@.skip(i as int)),
        decreases s.len() - i,
    {
        match tag_end(s, i) {
            Some(e) => {
                return parse_i32(slice_subrange(s, i + 9, e));
            },
            None => {},
        }
        assert(s@.skip(i as int).skip(1) =~= s@.skip(i + 1));
        i += 1;
    }
    None
}

/// The ids of all tags in the text.
pub fn read_ids(s: &[char]) -> (r: Vec<i32>)
    ensures
        ids(r@) == tag_ids(s@),
{
    let mut r: Vec<i32> = Vec::new();
    let mut i: usize = 0;
    assert(s@.skip(0) =~= s@);
    assert(ids(r@) + tag_ids(s@) =~= tag_ids(s@));
    while i < s.len()
        invariant
            i <= s.len(),
            ids(r@) + tag_ids(s@.skip(i as int)) == tag_ids(s@),
        decreases s.len() - i,
    {
        let ghost before = ids(r@);
        match tag_end(s, i) {
            Some(e) => {
                match parse_i32(slice_subrange(s, i + 9, e)) {
                    Some(id) => {
                        r.push(id);
                        assert(ids(r@) =~= before + seq![id as int]);
                        assert(before + (seq![id as int] + tag_ids(s@.skip(e as int))) =~= before
                            + seq![id as int] + tag_ids(s@.skip(e as int)));
                    },
                    None => {},
                }
                i = e;
            },
            None => {
                assert(s@.skip(i as int).skip(1) =~= s@.skip(i + 1));
                i += 1;
            },
        }
    }
    assert(tag_ids(s@.skip(i as int)) =~= Seq::empty());
    assert(ids(r@) + Seq::<int>::empty() =~= ids(r@));
    r
}

} // verus!
