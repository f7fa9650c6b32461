//! Whole tags: `<!-- msg:ID ts:SECOND reply_to:ID sender -->`, where what follows the
//! first id may be left out.
use vstd::prelude::*;
use vstd::string::StrSliceExecFns;

use crate::tag::{after_tag, digit_run, digits_end, tag_digits, tag_end, tag_starts};
use crate::text::{occurs_at, starts, str_stands_at};
use crate::unicode::{is_word, word};

verus! {

/// The number of word characters that a text starts with.
pub open spec fn word_run(s: Seq<char>) -> int
    decreases s.len(),
{
    if s.len() > 0 && word(s[0]) {
        1 + word_run(s.skip(1))
    } else {
        0
    }
}

/// The number of characters of the whole number that a text starts with, with its
/// sign where it has one.
pub open spec fn number_run(s: Seq<char>) -> int {
    let sign: int = if s.len() > 0 && s[0] == '-' {
        1
    } else {
        0
    };
    let digits = digit_run(s.skip(sign));
    if digits > 0 {
        sign + digits
    } else {
        0
    }
}

/// The number of characters of the label and the number behind it that a text
/// starts with, or zero.
pub open spec fn field_len(s: Seq<char>, label: Seq<char>) -> int {
    let n = number_run(s.skip(label.len() as int));
    if starts(s, label) && n > 0 {
        label.len() + n
    } else {
        0
    }
}

/// What a tag ends with.
pub open spec fn closer() -> Seq<char> {
    " -->"@
}

/// A whole tag: its place in the text, its digits, those of its time and its sender.
pub struct Marker {
    pub start: int,
    pub end: int,
    pub digits: Seq<char>,
    pub ts: Option<Seq<char>>,
    pub sender: Option<Seq<char>>,
}

/// The whole tag at position `i`: the id, the time and the message it answers where
/// they are there, and one word for the sender where there is one.
pub open spec fn marker_at(s: Seq<char>, i: int) -> Option<Marker> {
    let t = s.skip(i);
    let digits = tag_digits(t);
    let behind_id = after_tag(t);
    let time = field_len(behind_id, " ts:"@);
    let behind_time = behind_id.skip(time);
    let answered = field_len(behind_time, " reply_to:"@);
    let rest = behind_time.skip(answered);
    let e = i + 9 + digits.len() + time + answered;
    let w = word_run(rest.skip(1));
    let ts = if time > 0 {
        Some(behind_id.subrange(4, time))
    } else {
        None
    };
    if !tag_starts(t) {
        None
    } else if starts(rest, closer()) {
        Some(Marker { start: i, end: e + 4, digits, ts, sender: None })
    } else if rest.len() > 0 && rest[0] == ' ' && w > 0 && starts(rest.skip(1 + w), closer()) {
        Some(
            Marker {
                start: i,
                end: e + 1 + w + 4,
                digits,
                ts,
                sender: Some(rest.subrange(1, 1 + w)),
            },
        )
    } else {
        None
    }
}

/// The first whole tag from position `i` on.
pub open spec fn marker_from(s: Seq<char>, i: int) -> Option<Marker>
    decreases s.len() - i,
{
    if i >= s.len() {
        None
    } else if marker_at(s, i) is Some {
        marker_at(s, i)
    } else {
        marker_from(s, i + 1)
    }
}

/// The text without the tag.
pub open spec fn without_marker(s: Seq<char>, m: Marker) -> Seq<char> {
    s.take(m.start) + s.skip(m.end)
}

pub proof fn lemma_word_run(s: Seq<char>)
    ensures
        0 <= word_run(s) <= s.len(),
        forall|i: int| 0 <= i < word_run(s) ==> word(#[trigger] s[i]),
        word_run(s) < s.len() ==> !word(s[word_run(s)]),
    decreases s.len(),
{
    if s.len() > 0 && word(s[0]) {
        let t = s.skip(1);
        lemma_word_run(t);
        assert forall|i: int| 0 <= i < word_run(s) implies word(#[trigger] s[i]) by {
            if i > 0 {
                assert(s[i] == t[i - 1]);
            }
        }
    }
}

/// `word_run` is the only length with its properties.
pub proof fn lemma_word_run_is(s: Seq<char>, n: int)
    requires
        0 <= n <= s.len(),
        forall|i: int| 0 <= i < n ==> word(#[trigger] s[i]),
        n < s.len() ==> !word(s[n]),
    ensures
        word_run(s) == n,
{
    lemma_word_run(s);
    let k = word_run(s);
    if k < n {
        assert(word(s[k]));
    } else if n < k {
        assert(word(s[n]));
    }
}

/// The end of the word characters in `s` from `from` on.
fn word_end(s: &[char], from: usize) -> (r: usize)
    requires
        from <= s.len(),
    ensures
        from <= r <= s.len(),
        r - from == word_run(s@.skip(from as int)),
{
    let mut i: usize = from;
    while i < s.len() && is_word(s[i])
        invariant
            from <= i <= s.len(),
            forall|j: int| from <= j < i ==> word(#[trigger] s[j]),
        decreases s.len() - i,
    {
        i += 1;
    }
    proof {
        let t = s@.skip(from as int);
        assert forall|k: int| 0 <= k < i - from implies word(#[trigger] t[k]) by {
            assert(t[k] == s@[from + k]);
        }
        lemma_word_run_is(t, i - from);
    }
    i
}

/// The end of the whole number in `s` at `from`.
fn number_end(s: &[char], from: usize) -> (r: usize)
    requires
        from <= s.len(),
    ensures
        from <= r <= s.len(),
        r - from == number_run(s@.skip(from as int)),
{
    let ghost t = s@.skip(from as int);
    if from < s.len() && s[from] == '-' {
        let e = digits_end(s, from + 1);
        assert(t.skip(1) =~= s@.skip(from + 1));
        if e > from + 1 {
            e
        } else {
            from
        }
    } else {
        assert(t.skip(0) =~= t);
        digits_end(s, from)
    }
}

/// The end of the label and the number behind it in `s` at `from`.
fn field_end(s: &[char], from: usize, label: &str) -> (r: usize)
    requires
        from <= s.len(),
    ensures
        from <= r <= s.len(),
        r - from == field_len(s@.skip(from as int), label@),
        r > from ==> from + label@.len() < r,
{
    let ghost t = s@.skip(from as int);
    let n = label.unicode_len();
    assert(starts(t, label@) == occurs_at(s@, from as int, label@)) by {
        if from + label@.len() <= s@.len() {
            assert(t.subrange(0, label@.len() as int) =~= s@.subrange(
                from as int,
                from + label@.len(),
            ));
        }
    }
    if !str_stands_at(s, from, label) {
        return from;
    }
    let e = number_end(s, from + n);
    assert(t.skip(n as int) =~= s@.skip(from + n));
    if e > from + n {
        e
    } else {
        from
    }
}

/// A whole tag in a text: where it starts, where its digits, its time and what its
/// sender follows end, whether it has a sender, and where it ends.
pub struct Found {
    pub start: usize,
    pub digits_end: usize,
    pub time_end: usize,
    pub fields_end: usize,
    pub has_sender: bool,
    pub end: usize,
}

impl Found {
    /// The tag in this text.
    pub open spec fn of(self, s: Seq<char>) -> Marker {
        Marker {
            start: self.start as int,
            end: self.end as int,
            digits: s.subrange(self.start + 9, self.digits_end as int),
            ts: if self.time_end > self.digits_end {
                Some(s.subrange(self.digits_end + 4, self.time_end as int))
            } else {
                None
            },
            sender: if self.has_sender {
                Some(s.subrange(self.fields_end + 1, self.end - 4))
            } else {
                None
            },
        }
    }

    pub open spec fn within(self, s: Seq<char>) -> bool {
        &&& self.start + 9 < self.digits_end
        &&& self.digits_end == self.time_end || self.digits_end + 4 < self.time_end
        &&& self.time_end <= self.fields_end
        &&& self.fields_end + 4 <= self.end <= s.len()
        &&& self.has_sender ==> self.fields_end + 1 < self.end - 4
    }
}

/// The whole tag at position `i`, where there is one.
fn read_marker_at(s: &[char], i: usize) -> (r: Option<Found>)
    requires
        i <= s.len(),
    ensures
        match r {
            Some(f) => f.within(s@) && f.start == i && marker_at(s@, i as int) == Some(
                f.of(s@),
            ),
            None => marker_at(s@, i as int) is None,
        },
{
    let ghost t = s@.skip(i as int);
    let d = match tag_end(s, i) {
        None => {
            return None;
        },
        Some(d) => d,
    };
    proof {
        reveal_strlit(" -->");
        reveal_strlit(" ts:");
        assert(tag_digits(t).len() == d - i - 9);
    }
    let ghost behind_id = s@.skip(d as int);
    assert(behind_id == after_tag(t));
    let te = field_end(s, d, " ts:");
    let ghost behind_time = behind_id.skip(te - d);
    assert(behind_time =~= s@.skip(te as int));
    let e = field_end(s, te, " reply_to:");
    let ghost rest = behind_time.skip(e - te);
    proof {
        assert(rest =~= s@.skip(e as int));
        if te > d {
            assert(s@.subrange(d + 4, te as int) =~= behind_id.subrange(4, te - d));
        }
    }
    assert(occurs_at(rest, 0, closer()) == occurs_at(s@, e as int, closer())) by {
        if e + 4 <= s@.len() {
            assert(rest.subrange(0, 4) =~= s@.subrange(e as int, e + 4));
        }
    }
    if str_stands_at(s, e, " -->") {
        let f = Found {
            start: i,
            digits_end: d,
            time_end: te,
            fields_end: e,
            has_sender: false,
            end: e + 4,
        };
        assert(f.of(s@).digits =~= tag_digits(t));
        return Some(f);
    }
    if e >= s.len() || s[e] != ' ' {
        return None;
    }
    let w = word_end(s, e + 1);
    proof {
        assert(rest.skip(1) =~= s@.skip(e + 1));
        let n = w - (e + 1);
        assert(rest.skip(1 + n) =~= s@.skip(w as int));
        assert(occurs_at(rest.skip(1 + n), 0, closer()) == occurs_at(s@, w as int, closer())) by {
            if w + 4 <= s@.len() {
                assert(rest.skip(1 + n).subrange(0, 4) =~= s@.subrange(w as int, w + 4));
            }
        }
    }
    if w == e + 1 || !str_stands_at(s, w, " -->") {
        return None;
    }
    let f = Found {
        start: i,
        digits_end: d,
        time_end: te,
        fields_end: e,
        has_sender: true,
        end: w + 4,
    };
    proof {
        assert(f.of(s@).digits =~= tag_digits(t));
        assert(s@.subrange(e + 1, w as int) =~= rest.subrange(1, w - e));
    }
    Some(f)
}

/// The first whole tag in the text.
pub fn read_marker(s: &[char]) -> (r: Option<Found>)
    ensures
        match r {
            Some(f) => f.within(s@) && marker_from(s@, 0) == Some(f.of(s@)),
            None => marker_from(s@, 0) is None,
        },
{
    let mut i: usize = 0;
    while i < s.len()
        invariant
            i <= s.len(),
            marker_from(s@, 0) == marker_from(s@, i as int),
        decreases s.len() - i,
    {
        let found = read_marker_at(s, i);
        if found.is_some() {
            return found;
        }
        i += 1;
    }
    None
}

} // verus!
