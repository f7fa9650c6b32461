//! Texts as sequences of characters: searching, trimming, lines.
use vstd::prelude::*;
use vstd::slice::slice_subrange;

use crate::unicode::whitespace;

verus! {

/// `String::push` appends one character.
pub assume_specification[ String::push ](s: &mut String, c: char)
    ensures
        final(s)@ == old(s)@.push(c),
;

// ---------------------------------------------------------------------------
// Texts
// ---------------------------------------------------------------------------

/// The texts held by a sequence of character vectors.
pub open spec fn texts(v: Seq<Vec<char>>) -> Seq<Seq<char>> {
    v.map_values(|t: Vec<char>| t@)
}

/// The texts held by a sequence of strings.
pub open spec fn string_texts(v: Seq<String>) -> Seq<Seq<char>> {
    v.map_values(|t: String| t@)
}

/// The pattern `p` stands in `s` at position `i`.
pub open spec fn occurs_at(s: Seq<char>, i: int, p: Seq<char>) -> bool {
    0 <= i && i + p.len() <= s.len() && s.subrange(i, i + p.len()) == p
}

/// The pattern `p` stands somewhere in `s`.
pub open spec fn occurs(s: Seq<char>, p: Seq<char>) -> bool {
    exists|i: int| occurs_at(s, i, p)
}

/// The text starts with the pattern `p`.
pub open spec fn starts(s: Seq<char>, p: Seq<char>) -> bool {
    occurs_at(s, 0, p)
}

/// The position of the last occurrence of `p` in `s`.
pub open spec fn last_occurrence(s: Seq<char>, p: Seq<char>, i: int) -> bool {
    occurs_at(s, i, p) && forall|j: int| i < j ==> !occurs_at(s, j, p)
}

/// The position of the first `c` in `s`, or the length of `s` where it holds none.
pub open spec fn first_index(s: Seq<char>, c: char) -> int
    decreases s.len(),
{
    if s.len() == 0 || s[0] == c {
        0
    } else {
        1 + first_index(s.skip(1), c)
    }
}

/// What is left of a text without leading white space.
pub open spec fn trimmed_start(s: Seq<char>) -> Seq<char>
    decreases s.len(),
{
    if s.len() > 0 && whitespace(s[0]) {
        trimmed_start(s.skip(1))
    } else {
        s
    }
}

/// What is left of a text without trailing white space.
pub open spec fn trimmed_end(s: Seq<char>) -> Seq<char>
    decreases s.len(),
{
    if s.len() > 0 && whitespace(s.last()) {
        trimmed_end(s.drop_last())
    } else {
        s
    }
}

/// What is left of a text without white space at either end.
pub open spec fn trimmed(s: Seq<char>) -> Seq<char> {
    trimmed_end(trimmed_start(s))
}

/// A text of white space alone.
pub open spec fn blank(s: Seq<char>) -> bool {
    trimmed(s).len() == 0
}

/// A line without the carriage return before its line feed.
pub open spec fn chomped(s: Seq<char>) -> Seq<char> {
    if s.len() > 0 && s.last() == '\r' {
        s.drop_last()
    } else {
        s
    }
}

/// The lines of a text, without their line ends. A line ends in a line feed, or
/// in a carriage return and a line feed; the last one may end with the text.
pub open spec fn lines(s: Seq<char>) -> Seq<Seq<char>>
    decreases s.len(),
{
    let e = first_index(s, '\n');
    if s.len() == 0 {
        Seq::empty()
    } else if !(0 <= e < s.len()) {
        seq![s]
    } else {
        seq![chomped(s.take(e))] + lines(s.skip(e + 1))
    }
}

/// The parts one after the other, with `sep` between each two.
pub open spec fn joined(parts: Seq<Seq<char>>, sep: Seq<char>) -> Seq<char>
    decreases parts.len(),
{
    if parts.len() == 0 {
        Seq::empty()
    } else if parts.len() == 1 {
        parts[0]
    } else {
        joined(parts.drop_last(), sep) + sep + parts.last()
    }
}

/// The text of one line feed.
pub open spec fn newline() -> Seq<char> {
    seq!['\n']
}

/// The parts of a text between the characters `c`.
pub open spec fn split(s: Seq<char>, c: char) -> Seq<Seq<char>>
    decreases s.len(),
{
    let e = first_index(s, c);
    if !(0 <= e < s.len()) {
        seq![s]
    } else {
        seq![s.take(e)] + split(s.skip(e + 1), c)
    }
}

/// The text does not hold the character.
pub open spec fn lacks(s: Seq<char>, c: char) -> bool {
    forall|i: int| 0 <= i < s.len() ==> #[trigger] s[i] != c
}

/// The lines, each on a line of its own.
pub open spec fn entry_lines(entries: Seq<Seq<char>>) -> Seq<char>
    decreases entries.len(),
{
    if entries.len() == 0 {
        Seq::empty()
    } else {
        entry_lines(entries.drop_last()) + entries.last() + newline()
    }
}

/// The text is one that entries make: empty, or closed by a line feed.
pub open spec fn well_closed(text: Seq<char>) -> bool {
    text.len() == 0 || text.last() == '\n'
}

/// The entry is one line.
pub open spec fn is_entry(e: Seq<char>) -> bool {
    lacks(e, '\n') && chomped(e) == e
}

/// The number of bytes of a character in UTF-8.
pub open spec fn char_bytes(c: char) -> int {
    if (c as u32) < 0x80 {
        1
    } else if (c as u32) < 0x800 {
        2
    } else if (c as u32) < 0x10000 {
        3
    } else {
        4
    }
}

/// The number of bytes of a text in UTF-8.
pub open spec fn byte_len(s: Seq<char>) -> int
    decreases s.len(),
{
    if s.len() == 0 {
        0
    } else {
        byte_len(s.drop_last()) + char_bytes(s.last())
    }
}

// ---------------------------------------------------------------------------
// Lemmas
// ---------------------------------------------------------------------------

pub proof fn lemma_first_index(s: Seq<char>, c: char)
    ensures
        0 <= first_index(s, c) <= s.len(),
        forall|j: int| 0 <= j < first_index(s, c) ==> s[j] != c,
        first_index(s, c) < s.len() ==> s[first_index(s, c)] == c,
    decreases s.len(),
{
    if s.len() != 0 && s[0] != c {
        let t = s.skip(1);
        lemma_first_index(t, c);
        assert forall|j: int| 0 <= j < first_index(s, c) implies s[j] != c by {
            if j > 0 {
                assert(s[j] == t[j - 1]);
            }
        }
    }
}

/// `first_index` is the only position with its properties.
pub proof fn lemma_first_index_is(s: Seq<char>, c: char, i: int)
    requires
        0 <= i <= s.len(),
        forall|j: int| 0 <= j < i ==> s[j] != c,
        i < s.len() ==> s[i] == c,
    ensures
        first_index(s, c) == i,
{
    lemma_first_index(s, c);
    let k = first_index(s, c);
    if k < i {
        assert(s[k] != c);
    } else if i < k {
        assert(s[i] != c);
    }
}

pub proof fn lemma_trimmed_start(s: Seq<char>)
    ensures
        trimmed_start(s).len() <= s.len(),
        trimmed_start(s) == s.skip(s.len() - trimmed_start(s).len()),
        trimmed_start(s).len() > 0 ==> !whitespace(trimmed_start(s)[0]),
        forall|j: int|
            0 <= j < s.len() - trimmed_start(s).len() ==> whitespace(#[trigger] s[j]),
    decreases s.len(),
{
    if s.len() > 0 && whitespace(s[0]) {
        let t = s.skip(1);
        lemma_trimmed_start(t);
        assert(t.skip(t.len() - trimmed_start(t).len()) =~= s.skip(
            s.len() - trimmed_start(s).len(),
        ));
        assert forall|j: int| 0 <= j < s.len() - trimmed_start(s).len() implies whitespace(
            #[trigger] s[j],
        ) by {
            if j > 0 {
                assert(s[j] == t[j - 1]);
            }
        }
    }
}

pub proof fn lemma_trimmed_end(s: Seq<char>)
    ensures
        trimmed_end(s).len() <= s.len(),
        trimmed_end(s) == s.take(trimmed_end(s).len() as int),
        trimmed_end(s).len() > 0 ==> !whitespace(trimmed_end(s).last()),
        forall|j: int| trimmed_end(s).len() <= j < s.len() ==> whitespace(#[trigger] s[j]),
    decreases s.len(),
{
    if s.len() > 0 && whitespace(s.last()) {
        let t = s.drop_last();
        lemma_trimmed_end(t);
        assert(t.take(trimmed_end(t).len() as int) =~= s.take(trimmed_end(s).len() as int));
        assert forall|j: int| trimmed_end(s).len() <= j < s.len() implies whitespace(
            #[trigger] s[j],
        ) by {
            if j < s.len() - 1 {
                assert(s[j] == t[j]);
            }
        }
    }
}

/// A text with no white space at either end is left alone by trimming.
pub proof fn lemma_trimmed_same(s: Seq<char>)
    requires
        s.len() > 0 ==> !whitespace(s[0]) && !whitespace(s.last()),
    ensures
        trimmed(s) == s,
{
}

/// Each character of a text is white space or stands in the trimmed text.
pub proof fn lemma_trimmed_chars(s: Seq<char>, i: int)
    requires
        0 <= i < s.len(),
    ensures
        whitespace(s[i]) || trimmed(s).contains(s[i]),
{
    lemma_trimmed_start(s);
    let t = trimmed_start(s);
    let k = s.len() - t.len();
    lemma_trimmed_end(t);
    if i >= k {
        assert(t[i - k] == s[i]);
        if i - k < trimmed(s).len() {
            assert(trimmed(s)[i - k] == s[i]);
        }
    }
}

/// The lines of a text that goes on after a line feed.
pub proof fn lemma_lines_concat(a: Seq<char>, b: Seq<char>)
    requires
        a.len() == 0 || a.last() == '\n',
    ensures
        lines(a + b) == lines(a) + lines(b),
    decreases a.len(),
{
    if a.len() == 0 {
        assert(a + b =~= b);
        assert(lines(a) =~= Seq::empty());
        assert(Seq::<Seq<char>>::empty() + lines(b) =~= lines(b));
    } else {
        let s = a + b;
        let e = first_index(a, '\n');
        lemma_first_index(a, '\n');
        assert(a[a.len() - 1] == '\n');
        assert(forall|j: int| 0 <= j < e ==> s[j] == a[j]);
        assert(s[e] == a[e]);
        lemma_first_index_is(s, '\n', e);
        assert(s.take(e) =~= a.take(e));
        let rest = a.skip(e + 1);
        assert(s.skip(e + 1) =~= rest + b);
        lemma_lines_concat(rest, b);
        let first = seq![chomped(a.take(e))];
        assert(first + (lines(rest) + lines(b)) =~= first + lines(rest) + lines(b));
    }
}

/// A line with its line feed is one line.
pub proof fn lemma_one_line(line: Seq<char>)
    requires
        forall|i: int| 0 <= i < line.len() ==> #[trigger] line[i] != '\n',
    ensures
        lines(line + newline()) == seq![chomped(line)],
{
    let s = line + newline();
    assert(forall|j: int| 0 <= j < line.len() ==> s[j] == line[j]);
    lemma_first_index_is(s, '\n', line.len() as int);
    assert(s.take(line.len() as int) =~= line);
    assert(s.skip(line.len() as int + 1) =~= Seq::empty());
    assert(lines(Seq::empty()) =~= Seq::<Seq<char>>::empty());
    assert(seq![chomped(line)] + Seq::<Seq<char>>::empty() =~= seq![chomped(line)]);
}

/// Each line stands in the text.
pub proof fn lemma_line_occurs(s: Seq<char>, l: int)
    requires
        0 <= l < lines(s).len(),
    ensures
        occurs(s, lines(s)[l]),
    decreases s.len(),
{
    let e = first_index(s, '\n');
    lemma_first_index(s, '\n');
    let line = lines(s)[l];
    if e == s.len() {
        assert(s.subrange(0, s.len() as int) =~= s);
        assert(occurs_at(s, 0, line));
    } else if l == 0 {
        assert(s.subrange(0, line.len() as int) =~= line);
        assert(occurs_at(s, 0, line));
    } else {
        let rest = s.skip(e + 1);
        lemma_line_occurs(rest, l - 1);
        assert(line == lines(rest)[l - 1]);
        let i = choose|i: int| occurs_at(rest, i, line);
        assert(s.subrange(e + 1 + i, e + 1 + i + line.len()) =~= rest.subrange(i, i + line.len()));
        assert(occurs_at(s, e + 1 + i, line));
    }
}

// ---------------------------------------------------------------------------
// Conversions
// ---------------------------------------------------------------------------

/// The characters of a string, in order.
pub fn to_chars(s: &str) -> (r: Vec<char>)
    ensures
        r@ == s@,
{
    let mut r: Vec<char> = Vec::new();
    for c in it: s.chars()
        invariant
            r@ == it.seq().take(it.index() as int),
            it.seq() == s@,
    {
        r.push(c);
    }
    r
}

/// The string made of the given characters.
pub fn from_chars(v: &[char]) -> (r: String)
    ensures
        r@ == v@,
{
    let mut r = String::new();
    let mut i: usize = 0;
    while i < v.len()
        invariant
            i <= v.len(),
            r@ == v@.take(i as int),
        decreases v.len() - i,
    {
        r.push(v[i]);
        i += 1;
    }
    r
}

/// A copy of the given characters.
pub fn copied(v: &[char]) -> (r: Vec<char>)
    ensures
        r@ == v@,
{
    let mut r: Vec<char> = Vec::new();
    append(&mut r, v);
    r
}

/// Appends the characters of `v`.
pub fn append(out: &mut Vec<char>, v: &[char])
    ensures
        final(out)@ == old(out)@ + v@,
{
    let mut i: usize = 0;
    while i < v.len()
        invariant
            i <= v.len(),
            out@ == old(out)@ + v@.take(i as int),
        decreases v.len() - i,
    {
        out.push(v[i]);
        i += 1;
    }
}

/// Appends the characters of a string.
pub fn append_str(out: &mut Vec<char>, s: &str)
    ensures
        final(out)@ == old(out)@ + s@,
{
    let v = to_chars(s);
    append(out, v.as_slice());
}

/// The number of bytes of a character in UTF-8.
pub fn utf8_len(c: char) -> (r: usize)
    ensures
        r == char_bytes(c),
{
    let n: u32 = c as u32;
    if n < 0x80 {
        1
    } else if n < 0x800 {
        2
    } else if n < 0x10000 {
        3
    } else {
        4
    }
}

/// Whether a text has more than `n` bytes in UTF-8.
pub fn longer_than(s: &[char], n: usize) -> (r: bool)
    ensures
        r == (byte_len(s@) > n),
{
    let mut len: u128 = 0;
    let mut i: usize = 0;
    while i < s.len()
        invariant
            i <= s.len(),
            len == byte_len(s@.take(i as int)),
            len <= 4 * i,
        decreases s.len() - i,
    {
        assert(s@.take(i + 1).drop_last() =~= s@.take(i as int));
        len = len + utf8_len(s[i]) as u128;
        i += 1;
    }
    assert(s@.take(s@.len() as int) =~= s@);
    len > n as u128
}

// ---------------------------------------------------------------------------
// Searching
// ---------------------------------------------------------------------------

/// Whether two texts are the same.
pub fn same(a: &[char], b: &[char]) -> (r: bool)
    ensures
        r == (a@ == b@),
{
    if a.len() != b.len() {
        return false;
    }
    let mut i: usize = 0;
    while i < a.len()
        invariant
            i <= a.len(),
            a.len() == b.len(),
            forall|j: int| 0 <= j < i ==> a[j] == b[j],
        decreases a.len() - i,
    {
        if a[i] != b[i] {
            return false;
        }
        i += 1;
    }
    assert(a@ =~= b@);
    true
}

/// Whether the pattern `p` stands in `s` at position `i`.
pub fn stands_at(s: &[char], i: usize, p: &[char]) -> (r: bool)
    ensures
        r == occurs_at(s@, i as int, p@),
{
    if i > s.len() || p.len() > s.len() - i {
        return false;
    }
    same(slice_subrange(s, i, i + p.len()), p)
}

/// Whether the string `p` stands in `s` at position `i`.
pub fn str_stands_at(s: &[char], i: usize, p: &str) -> (r: bool)
    ensures
        r == occurs_at(s@, i as int, p@),
{
    let v = to_chars(p);
    stands_at(s, i, v.as_slice())
}

/// Whether `s` holds the pattern `p`.
pub fn contains(s: &[char], p: &[char]) -> (r: bool)
    ensures
        r == occurs(s@, p@),
{
    let mut i: usize = 0;
    while i <= s.len()
        invariant
            i <= s.len() + 1,
            forall|j: int| 0 <= j < i ==> !occurs_at(s@, j, p@),
        decreases s.len() + 1 - i,
    {
        if stands_at(s, i, p) {
            return true;
        }
        if i == s.len() {
            return false;
        }
        i += 1;
    }
    false
}

/// Whether `s` holds the string `p`.
pub fn contains_str(s: &[char], p: &str) -> (r: bool)
    ensures
        r == occurs(s@, p@),
{
    let v = to_chars(p);
    contains(s, v.as_slice())
}

/// The position of the last occurrence of `p` in `s`.
pub fn rfind(s: &[char], p: &[char]) -> (r: Option<usize>)
    ensures
        match r {
            Some(i) => last_occurrence(s@, p@, i as int),
            None => !occurs(s@, p@),
        },
{
    let mut i: usize = s.len();
    loop
        invariant
            i <= s.len(),
            forall|j: int| i < j ==> !occurs_at(s@, j, p@),
        decreases i,
    {
        if stands_at(s, i, p) {
            return Some(i);
        }
        if i == 0 {
            return None;
        }
        i -= 1;
    }
}

/// The position of the first `c` in `s` from `from` on, or the length of `s`.
pub fn find_char(s: &[char], from: usize, c: char) -> (r: usize)
    requires
        from <= s.len(),
    ensures
        from <= r <= s.len(),
        r - from == first_index(s@.skip(from as int), c),
{
    let mut i: usize = from;
    while i < s.len() && s[i] != c
        invariant
            from <= i <= s.len(),
            forall|j: int| from <= j < i ==> s[j] != c,
        decreases s.len() - i,
    {
        i += 1;
    }
    proof {
        lemma_first_index_is(s@.skip(from as int), c, i - from);
    }
    i
}

// ---------------------------------------------------------------------------
// Trimming
// ---------------------------------------------------------------------------

/// A text without leading white space.
pub fn trim_start(s: &[char]) -> (r: &[char])
    ensures
        r@ == trimmed_start(s@),
{
    let mut i: usize = 0;
    assert(s@.skip(0) =~= s@);
    while i < s.len() && s[i].is_whitespace()
        invariant
            i <= s.len(),
            trimmed_start(s@) == trimmed_start(s@.skip(i as int)),
        decreases s.len() - i,
    {
        assert(s@.skip(i as int).skip(1) =~= s@.skip(i + 1));
        i += 1;
    }
    slice_subrange(s, i, s.len())
}

/// A text without trailing white space.
pub fn trim_end(s: &[char]) -> (r: &[char])
    ensures
        r@ == trimmed_end(s@),
{
    let mut i: usize = s.len();
    assert(s@.take(i as int) =~= s@);
    while i > 0 && s[i - 1].is_whitespace()
        invariant
            i <= s.len(),
            trimmed_end(s@) == trimmed_end(s@.take(i as int)),
        decreases i,
    {
        assert(s@.take(i as int).drop_last() =~= s@.take(i - 1));
        i -= 1;
    }
    slice_subrange(s, 0, i)
}

/// A text without white space at either end.
pub fn trim(s: &[char]) -> (r: &[char])
    ensures
        r@ == trimmed(s@),
{
    trim_end(trim_start(s))
}

/// Whether a text is white space alone.
pub fn is_blank(s: &[char]) -> (r: bool)
    ensures
        r == blank(s@),
{
    trim(s).len() == 0
}

// ---------------------------------------------------------------------------
// Lines
// ---------------------------------------------------------------------------

/// The lines of a text.
pub fn split_lines(s: &[char]) -> (r: Vec<Vec<char>>)
    ensures
        texts(r@) == lines(s@),
{
    let mut r: Vec<Vec<char>> = Vec::new();
    let mut i: usize = 0;
    assert(s@.skip(0) =~= s@);
    assert(texts(r@) =~= Seq::empty());
    while i < s.len()
        invariant
            i <= s.len(),
            texts(r@) + lines(s@.skip(i as int)) == lines(s@),
        decreases s.len() - i,
    {
        let e = find_char(s, i, '\n');
        let ghost rest = s@.skip(i as int);
        let ghost before = texts(r@);
        if e == s.len() {
            let line = copied(slice_subrange(s, i, e));
            assert(line@ =~= rest);
            r.push(line);
            assert(texts(r@) =~= before + seq![rest]);
            assert(lines(s@.skip(s@.len() as int)) =~= Seq::<Seq<char>>::empty());
            assert(before + seq![rest] + Seq::<Seq<char>>::empty() =~= before + seq![rest]);
            i = e;
        } else {
            let mut stop: usize = e;
            if stop > i && s[stop - 1] == '\r' {
                stop -= 1;
            }
            let line = copied(slice_subrange(s, i, stop));
            proof {
                lemma_first_index(rest, '\n');
                assert(line@ =~= chomped(rest.take(e - i)));
                assert(rest.skip(e - i + 1) =~= s@.skip(e + 1));
            }
            r.push(line);
            assert(texts(r@) =~= before + seq![line@]);
            assert(before + (seq![line@] + lines(s@.skip(e + 1))) =~= before + seq![line@] + lines(
                s@.skip(e + 1),
            ));
            i = e + 1;
        }
    }
    assert(s@.skip(s@.len() as int) =~= Seq::<char>::empty());
    assert(texts(r@) + Seq::<Seq<char>>::empty() =~= texts(r@));
    r
}

/// The given lines with a line feed between each two.
pub fn join_lines(parts: &Vec<Vec<char>>) -> (r: Vec<char>)
    ensures
        r@ == joined(texts(parts@), newline()),
{
    let mut r: Vec<char> = Vec::new();
    let mut i: usize = 0;
    let ghost all = texts(parts@);
    while i < parts.len()
        invariant
            i <= parts.len(),
            all == texts(parts@),
            r@ == joined(all.take(i as int), newline()),
        decreases parts.len() - i,
    {
        if i > 0 {
            r.push('\n');
        }
        append(&mut r, parts[i].as_slice());
        proof {
            assert(all.take(i + 1).drop_last() =~= all.take(i as int));
            if i > 0 {
                assert(joined(all.take(i as int), newline()).push('\n') =~= joined(
                    all.take(i as int),
                    newline(),
                ) + newline());
            }
        }
        i += 1;
    }
    assert(all.take(all.len() as int) =~= all);
    r
}

/// The parts of a text between the characters `c`.
pub fn split_on(s: &[char], c: char) -> (r: Vec<Vec<char>>)
    ensures
        texts(r@) == split(s@, c),
{
    let mut r: Vec<Vec<char>> = Vec::new();
    let mut i: usize = 0;
    assert(s@.skip(0) =~= s@);
    assert(texts(r@) + split(s@, c) =~= split(s@, c));
    loop
        invariant
            i <= s.len(),
            texts(r@) + split(s@.skip(i as int), c) == split(s@, c),
        decreases s.len() - i,
    {
        let e = find_char(s, i, c);
        let ghost rest = s@.skip(i as int);
        let ghost before = texts(r@);
        let part = copied(slice_subrange(s, i, e));
        r.push(part);
        assert(texts(r@) =~= before.push(part@));
        proof {
            lemma_first_index(rest, c);
            if e == s.len() {
                assert(part@ =~= rest);
                assert(texts(r@) =~= before + seq![rest]);
            } else {
                assert(part@ =~= rest.take(e - i));
                assert(rest.skip(e - i + 1) =~= s@.skip(e + 1));
                assert(before + (seq![part@] + split(s@.skip(e + 1), c)) =~= texts(r@) + split(
                    s@.skip(e + 1),
                    c,
                ));
            }
        }
        if e == s.len() {
            return r;
        }
        i = e + 1;
    }
}

/// The text comes before the other, by its characters.
pub open spec fn text_before(a: Seq<char>, b: Seq<char>) -> bool
    decreases a.len(),
{
    if b.len() == 0 {
        false
    } else if a.len() == 0 {
        true
    } else if a[0] != b[0] {
        a[0] < b[0]
    } else {
        text_before(a.skip(1), b.skip(1))
    }
}

/// Whether the text comes before the other, by its characters.
pub fn comes_before(a: &[char], b: &[char]) -> (r: bool)
    ensures
        r == text_before(a@, b@),
{
    let mut i: usize = 0;
    assert(a@.skip(0) =~= a@);
    assert(b@.skip(0) =~= b@);
    loop
        invariant
            i <= a.len(),
            i <= b.len(),
            text_before(a@, b@) == text_before(a@.skip(i as int), b@.skip(i as int)),
        decreases a.len() - i,
    {
        if i == b.len() {
            return false;
        }
        if i == a.len() {
            return true;
        }
        if a[i] != b[i] {
            return a[i] < b[i];
        }
        proof {
            assert(a@.skip(i as int).skip(1) =~= a@.skip(i + 1));
            assert(b@.skip(i as int).skip(1) =~= b@.skip(i + 1));
        }
        i += 1;
    }
}

/// No text comes before itself, and of two texts at most one comes before the other.
pub proof fn lemma_text_before(a: Seq<char>, b: Seq<char>)
    ensures
        !text_before(a, a),
        text_before(a, b) ==> !text_before(b, a),
    decreases a.len(),
{
    if a.len() > 0 {
        lemma_text_before(a.skip(1), b.skip(1));
    }
}

/// Of two texts one comes before the other.
pub proof fn lemma_text_before_total(a: Seq<char>, b: Seq<char>)
    requires
        a != b,
    ensures
        text_before(a, b) || text_before(b, a),
    decreases a.len(),
{
    if a.len() == 0 || b.len() == 0 {
        if a.len() == b.len() {
            assert(a =~= b);
        }
    } else if a[0] == b[0] {
        if a.skip(1) == b.skip(1) {
            assert(a =~= seq![a[0]] + a.skip(1));
            assert(b =~= seq![b[0]] + b.skip(1));
        }
        lemma_text_before_total(a.skip(1), b.skip(1));
    }
}

/// Where neither of two neighbours is out of order, the outer ones are not either.
pub proof fn lemma_text_order(a: Seq<char>, b: Seq<char>, c: Seq<char>)
    requires
        !text_before(b, a),
        !text_before(c, b),
    ensures
        !text_before(c, a),
    decreases a.len(),
{
    if a.len() > 0 && b.len() > 0 && c.len() > 0 && a[0] == b[0] && b[0] == c[0] {
        lemma_text_order(a.skip(1), b.skip(1), c.skip(1));
    }
}

pub proof fn lemma_entry_lines(entries: Seq<Seq<char>>)
    requires
        forall|i: int| 0 <= i < entries.len() ==> is_entry(#[trigger] entries[i]),
    ensures
        well_closed(entry_lines(entries)),
        lines(entry_lines(entries)) == entries,
{
    lemma_chomped_lines(entries);
    assert forall|i: int| 0 <= i < entries.len() implies #[trigger] all_chomped(entries)[i]
        == entries[i] by {
        assert(is_entry(entries[i]));
    }
    assert(all_chomped(entries) =~= entries);
}

/// The lines, each without the carriage return at its end.
pub open spec fn all_chomped(ls: Seq<Seq<char>>) -> Seq<Seq<char>> {
    ls.map_values(|line: Seq<char>| chomped(line))
}

/// Lines that were put on lines of their own are read without the carriage returns
/// at their ends.
pub proof fn lemma_chomped_lines(ls: Seq<Seq<char>>)
    requires
        forall|i: int| 0 <= i < ls.len() ==> lacks(#[trigger] ls[i], '\n'),
    ensures
        well_closed(entry_lines(ls)),
        lines(entry_lines(ls)) == all_chomped(ls),
    decreases ls.len(),
{
    if ls.len() > 0 {
        let front = ls.drop_last();
        assert forall|i: int| 0 <= i < front.len() implies lacks(#[trigger] front[i], '\n') by {
            assert(ls[i] == front[i]);
        }
        lemma_chomped_lines(front);
        let last = ls.last();
        assert(lacks(ls[ls.len() - 1], '\n'));
        lemma_one_line(last);
        lemma_lines_concat(entry_lines(front), last + newline());
        assert(entry_lines(ls) =~= entry_lines(front) + (last + newline()));
        assert(all_chomped(ls) =~= all_chomped(front) + seq![chomped(last)]);
    } else {
        assert(lines(entry_lines(ls)) =~= all_chomped(ls));
    }
}

/// White space behind a text is trimmed.
proof fn lemma_trimmed_start_push(s: Seq<char>, c: char)
    requires
        whitespace(c),
    ensures
        trimmed_start(s.push(c)) == (if trimmed_start(s).len() == 0 {
            Seq::empty()
        } else {
            trimmed_start(s).push(c)
        }),
    decreases s.len(),
{
    if s.len() == 0 {
        assert(s.push(c)[0] == c);
        assert(s.push(c).skip(1) =~= Seq::empty());
        assert(trimmed_start(Seq::empty()) =~= Seq::<char>::empty());
    } else if whitespace(s[0]) {
        assert(s.push(c)[0] == s[0]);
        assert(s.push(c).skip(1) =~= s.skip(1).push(c));
        lemma_trimmed_start_push(s.skip(1), c);
    }
}

pub proof fn lemma_trimmed_push(s: Seq<char>, c: char)
    requires
        whitespace(c),
    ensures
        trimmed(s.push(c)) == trimmed(s),
{
    lemma_trimmed_start_push(s, c);
    let t = trimmed_start(s);
    if t.len() > 0 {
        assert(t.push(c).drop_last() =~= t);
    }
}

/// Joining lines and closing the text is putting each on a line of its own.
pub proof fn lemma_joined_lines(ls: Seq<Seq<char>>)
    requires
        ls.len() > 0,
    ensures
        joined(ls, newline()) + newline() == entry_lines(ls),
    decreases ls.len(),
{
    let front = ls.drop_last();
    if ls.len() == 1 {
        assert(entry_lines(front) =~= Seq::empty());
        assert(Seq::<char>::empty() + ls.last() =~= ls[0]);
    } else {
        lemma_joined_lines(front);
        assert(joined(ls, newline()) + newline() =~= (joined(front, newline()) + newline())
            + ls.last() + newline());
    }
}

pub proof fn lemma_lines_are_lines(text: Seq<char>, i: int)
    requires
        0 <= i < lines(text).len(),
    ensures
        lacks(lines(text)[i], '\n'),
    decreases text.len(),
{
    let e = first_index(text, '\n');
    lemma_first_index(text, '\n');
    if e < text.len() && i > 0 {
        let rest = text.skip(e + 1);
        lemma_lines_are_lines(rest, i - 1);
        assert(lines(text)[i] == lines(rest)[i - 1]);
    }
}

/// A text without the character is one part.
pub proof fn lemma_split_one(s: Seq<char>, c: char)
    requires
        lacks(s, c),
    ensures
        split(s, c) == seq![s],
{
    lemma_first_index_is(s, c, s.len() as int);
}

/// The first part of a text reaches to the first such character.
pub proof fn lemma_split_first(a: Seq<char>, c: char, b: Seq<char>)
    requires
        lacks(a, c),
    ensures
        split(a + seq![c] + b, c) == seq![a] + split(b, c),
{
    let s = a + seq![c] + b;
    assert forall|j: int| 0 <= j < a.len() implies #[trigger] s[j] != c by {
        assert(s[j] == a[j]);
    }
    lemma_first_index_is(s, c, a.len() as int);
    assert(s.take(a.len() as int) =~= a);
    assert(s.skip(a.len() as int + 1) =~= b);
}

} // verus!
