//! Date headers: lines such as `## Jan 03` and `## Jan 03, 2025` that stand
//! above the messages of a day.
use vstd::prelude::*;
use vstd::slice::slice_subrange;

use crate::calendar::{Date, current_year, date_text, month_text};
use crate::decimal::{
    all_digits, append_numeral, append_padded, decimal, digits_value, lemma_decimal,
    lemma_decimal_len, lemma_digits_value_nonneg, lemma_padded, numeral, padded, parse_i16,
    parse_i8, signed_value,
};
use crate::tag::{has_tag, lemma_no_tags, tag_ids};
use crate::text::{
    append_str, copied, from_chars, join_lines, joined, lemma_trimmed_chars, lemma_trimmed_same,
    lines, newline, same, split_lines, starts, str_stands_at, texts, to_chars, trim, trimmed,
};
use crate::unicode::{alphabetic, ascii_digit, ascii_letter, digit, is_ascii_letter, is_digit};

verus! {

/// What a date header says. A header may leave its year out.
#[derive(Clone, Copy, Debug, PartialEq, Eq, Structural)]
pub struct DateHeader {
    pub month: i8,
    pub day: i8,
    pub year: Option<i16>,
}

/// The month with that short name.
pub open spec fn month_number(name: Seq<char>) -> Option<int> {
    month_from(name, 1)
}

/// The first month from `m` on with that short name.
pub open spec fn month_from(name: Seq<char>, m: int) -> Option<int>
    decreases 13 - m,
{
    if m > 12 {
        None
    } else if month_text(m) == name {
        Some(m)
    } else {
        month_from(name, m + 1)
    }
}

/// The number of characters of the day in a header.
pub open spec fn day_width(s: Seq<char>) -> int {
    if s.len() == 8 || s.len() == 14 {
        1
    } else {
        2
    }
}

/// The header names a year.
pub open spec fn dated(s: Seq<char>) -> bool {
    s.len() >= 14
}

/// The line is a date header: `## `, three letters, a space, one or two digits,
/// and nothing more or a comma, a space and four digits.
pub open spec fn header_line(s: Seq<char>) -> bool {
    let w = day_width(s);
    &&& s.len() == 8 || s.len() == 9 || s.len() == 14 || s.len() == 15
    &&& s[0] == '#' && s[1] == '#' && s[2] == ' '
    &&& forall|i: int| 3 <= i < 6 ==> ascii_letter(#[trigger] s[i])
    &&& s[6] == ' '
    &&& forall|i: int| 7 <= i < 7 + w ==> digit(#[trigger] s[i])
    &&& dated(s) ==> s[7 + w] == ',' && s[8 + w] == ' ' && forall|i: int|
        9 + w <= i < 13 + w ==> digit(#[trigger] s[i])
}

/// The day of a header; one where its digits are not ASCII.
pub open spec fn day_value(s: Seq<char>) -> int {
    match signed_value(s.subrange(7, 7 + day_width(s)), i8::MIN as int, i8::MAX as int) {
        Some(v) => v,
        None => 1,
    }
}

/// The year of a header, where it names one in ASCII digits.
pub open spec fn year_value(s: Seq<char>) -> Option<int> {
    if dated(s) {
        let w = day_width(s);
        signed_value(s.subrange(9 + w, 13 + w), i16::MIN as int, i16::MAX as int)
    } else {
        None
    }
}

/// What a line says as a date header. White space around it counts for nothing.
pub open spec fn header_of(line: Seq<char>) -> Option<DateHeader> {
    let s = trimmed(line);
    if header_line(s) {
        match month_number(s.subrange(3, 6)) {
            Some(m) => Some(
                DateHeader {
                    month: m as i8,
                    day: day_value(s) as i8,
                    year: match year_value(s) {
                        Some(y) => Some(y as i16),
                        None => None,
                    },
                },
            ),
            None => None,
        }
    } else {
        None
    }
}

/// The date that a header with a year names, where there is such a date.
pub open spec fn header_date(line: Seq<char>) -> Option<Date> {
    if !dated(trimmed(line)) {
        None
    } else {
        match header_of(line) {
            Some(h) => {
                let year = match h.year {
                    Some(y) => y,
                    None => 0,
                };
                let d = Date { year, month: h.month, day: h.day };
                if d.valid() {
                    Some(d)
                } else {
                    None
                }
            },
            None => None,
        }
    }
}

/// The date of the last header that names one.
pub open spec fn last_date(lines: Seq<Seq<char>>) -> Option<Date>
    decreases lines.len(),
{
    if lines.len() == 0 {
        None
    } else if header_date(lines.last()) is Some {
        header_date(lines.last())
    } else {
        last_date(lines.drop_last())
    }
}

// ---------------------------------------------------------------------------
// Filling in years
// ---------------------------------------------------------------------------

/// The date headers among the lines, in order.
pub open spec fn headers(lines: Seq<Seq<char>>) -> Seq<DateHeader>
    decreases lines.len(),
{
    if lines.len() == 0 {
        Seq::empty()
    } else {
        match header_of(lines.last()) {
            Some(h) => headers(lines.drop_last()).push(h),
            None => headers(lines.drop_last()),
        }
    }
}

/// How often the month falls from one header to the next, from the header `i`
/// to the header `j`: the number of turns of the year between them.
pub open spec fn turns(h: Seq<DateHeader>, i: int, j: int) -> int
    decreases j - i,
{
    if i >= j {
        0
    } else {
        turns(h, i, j - 1) + (if h[j - 1].month > h[j].month {
            1int
        } else {
            0
        })
    }
}

/// The first header from `from` on that names a year, or the number of headers.
pub open spec fn anchor(h: Seq<DateHeader>, from: int) -> int
    decreases h.len() - from,
{
    if from >= h.len() || h[from].year is Some {
        from
    } else {
        anchor(h, from + 1)
    }
}

/// The year of the header `k`, counted from the first header that names its
/// year. Where none does it is the current year.
pub open spec fn inferred_year(h: Seq<DateHeader>, k: int, current: int) -> int {
    let a = anchor(h, 0);
    if a >= h.len() {
        current
    } else if k <= a {
        h[a].year->0 - turns(h, k, a)
    } else {
        h[a].year->0 + turns(h, a, k)
    }
}

/// A header with its year.
pub open spec fn dated_line(h: DateHeader, year: int) -> Seq<char> {
    seq!['#', '#', ' '] + month_text(h.month as int) + seq![' '] + padded(h.day as int, 2) + seq![
        ',',
        ' ',
    ] + numeral(year)
}

/// A line after years were filled in.
pub open spec fn backfilled_line(lines: Seq<Seq<char>>, l: int, current: int) -> Seq<char> {
    match header_of(lines[l]) {
        Some(h) => if h.year is None {
            dated_line(h, inferred_year(headers(lines), headers(lines.take(l)).len() as int, current))
        } else {
            lines[l]
        },
        None => lines[l],
    }
}

/// The lines after years were filled in.
pub open spec fn backfilled_lines(lines: Seq<Seq<char>>, current: int) -> Seq<Seq<char>> {
    Seq::new(lines.len(), |l: int| backfilled_line(lines, l, current))
}

/// A text after years were filled in. One without headers stays as it is.
pub open spec fn backfilled(content: Seq<char>, current: int) -> Seq<char> {
    if headers(lines(content)).len() == 0 {
        content
    } else {
        joined(backfilled_lines(lines(content), current), newline())
    }
}

/// The line looks like a header without a year: `## `, then letters in the next
/// three places as far as there are any, and no comma.
pub open spec fn undated_line(line: Seq<char>) -> bool {
    let s = trimmed(line);
    &&& starts(s, "## "@)
    &&& s.len() > 3
    &&& !s.contains(',')
    &&& forall|i: int| 3 <= i < 6 && i < s.len() ==> alphabetic(#[trigger] s[i])
}

/// Some line looks like a header without a year.
pub open spec fn has_undated(lines: Seq<Seq<char>>) -> bool {
    exists|l: int| 0 <= l < lines.len() && undated_line(#[trigger] lines[l])
}

// ---------------------------------------------------------------------------
// Lemmas
// ---------------------------------------------------------------------------

/// A number read from digits alone is not negative.
proof fn lemma_digits_nonneg(s: Seq<char>, min: int, max: int)
    requires
        0 < s.len(),
        forall|i: int| 0 <= i < s.len() ==> digit(#[trigger] s[i]),
    ensures
        signed_value(s, min, max) is Some ==> signed_value(s, min, max)->0 >= 0,
{
    assert(digit(s[0]));
    if all_digits(s) {
        lemma_digits_value_nonneg(s);
    }
}

pub proof fn lemma_header_of(line: Seq<char>)
    requires
        header_of(line) is Some,
    ensures
        1 <= header_of(line)->0.month <= 12,
        0 <= header_of(line)->0.day,
{
    let s = trimmed(line);
    let d = s.subrange(7, 7 + day_width(s));
    assert forall|i: int| 0 <= i < d.len() implies digit(#[trigger] d[i]) by {
        assert(d[i] == s[7 + i]);
    }
    lemma_digits_nonneg(d, i8::MIN as int, i8::MAX as int);
    lemma_month_from(s.subrange(3, 6), 1);
}

proof fn lemma_month_from(name: Seq<char>, m: int)
    requires
        1 <= m <= 13,
    ensures
        month_from(name, m) is Some ==> m <= month_from(name, m)->0 <= 12 && month_text(
            month_from(name, m)->0,
        ) == name,
    decreases 13 - m,
{
    if m <= 12 {
        lemma_month_from(name, m + 1);
    }
}

/// A date header holds no tags.
pub proof fn lemma_header_no_tags(line: Seq<char>)
    requires
        header_line(trimmed(line)),
    ensures
        tag_ids(line) == Seq::<int>::empty(),
        !has_tag(line),
{
    let s = trimmed(line);
    assert forall|i: int| 0 <= i < line.len() implies #[trigger] line[i] != '<' by {
        lemma_trimmed_chars(line, i);
        if line[i] == '<' {
            let j = choose|j: int| 0 <= j < s.len() && s[j] == '<';
            let w = day_width(s);
            if 3 <= j < 6 {
                assert(ascii_letter(s[j]));
            } else if 7 <= j < 7 + w {
                assert(digit(s[j]));
            } else if 9 + w <= j {
                assert(digit(s[j]));
            }
        }
    }
    lemma_no_tags(line);
}

pub proof fn lemma_turns(h: Seq<DateHeader>, i: int, j: int)
    requires
        i <= j,
    ensures
        0 <= turns(h, i, j) <= j - i,
    decreases j - i,
{
    if i < j {
        lemma_turns(h, i, j - 1);
    }
}

/// The turns from `i` on are one at `i`, if it is one, and those from `i + 1` on.
proof fn lemma_turns_front(h: Seq<DateHeader>, i: int, j: int)
    requires
        i < j,
    ensures
        turns(h, i, j) == turns(h, i + 1, j) + (if h[i].month > h[i + 1].month {
            1int
        } else {
            0
        }),
    decreases j - i,
{
    if i + 1 < j {
        lemma_turns_front(h, i, j - 1);
    } else {
        assert(turns(h, i, i) == 0);
    }
}

// ---------------------------------------------------------------------------
// Reading headers
// ---------------------------------------------------------------------------

/// The English name of a month, cut to three letters.
pub fn month_name(month: i8) -> (r: &'static str)
    ensures
        r@ == month_text(month as int),
{
    match month {
        1 => "Jan",
        2 => "Feb",
        3 => "Mar",
        4 => "Apr",
        5 => "May",
        6 => "Jun",
        7 => "Jul",
        8 => "Aug",
        9 => "Sep",
        10 => "Oct",
        11 => "Nov",
        12 => "Dec",
        _ => "???",
    }
}

/// The month with that short name.
pub fn parse_month(s: &str) -> (r: Option<i8>)
    ensures
        match r {
            Some(m) => 1 <= m <= 12 && month_number(s@) == Some(m as int),
            None => month_number(s@) is None,
        },
{
    find_month(to_chars(s).as_slice())
}

/// The month with that short name.
fn find_month(name: &[char]) -> (r: Option<i8>)
    ensures
        match r {
            Some(m) => 1 <= m <= 12 && month_number(name@) == Some(m as int),
            None => month_number(name@) is None,
        },
{
    let mut m: i8 = 1;
    while m <= 12
        invariant
            1 <= m <= 13,
            month_number(name@) == month_from(name@, m as int),
        decreases 13 - m,
    {
        if same(to_chars(month_name(m)).as_slice(), name) {
            return Some(m);
        }
        m += 1;
    }
    None
}

/// Whether all characters from `from` to `to` are digits.
fn digits_between(s: &[char], from: usize, to: usize) -> (r: bool)
    requires
        from <= to <= s.len(),
    ensures
        r == forall|i: int| from <= i < to ==> digit(#[trigger] s@[i]),
{
    let mut i: usize = from;
    while i < to
        invariant
            from <= i <= to <= s.len(),
            forall|j: int| from <= j < i ==> digit(#[trigger] s@[j]),
        decreases to - i,
    {
        if !is_digit(s[i]) {
            assert(!digit(s@[i as int]));
            return false;
        }
        i += 1;
    }
    true
}

/// Whether a line is a date header.
pub fn is_header_line(s: &[char]) -> (r: bool)
    ensures
        r == header_line(s@),
{
    let n = s.len();
    if n != 8 && n != 9 && n != 14 && n != 15 {
        return false;
    }
    let w: usize = if n == 8 || n == 14 {
        1
    } else {
        2
    };
    if s[0] != '#' || s[1] != '#' || s[2] != ' ' || s[6] != ' ' {
        return false;
    }
    if !is_ascii_letter(s[3]) || !is_ascii_letter(s[4]) || !is_ascii_letter(s[5]) {
        assert(!ascii_letter(s@[3]) || !ascii_letter(s@[4]) || !ascii_letter(s@[5]));
        return false;
    }
    if !digits_between(s, 7, 7 + w) {
        return false;
    }
    if n >= 14 {
        s[7 + w] == ',' && s[8 + w] == ' ' && digits_between(s, 9 + w, 13 + w)
    } else {
        true
    }
}

/// What a line says as a date header.
pub fn read_header(line: &[char]) -> (r: Option<DateHeader>)
    ensures
        r == header_of(line@),
{
    let s = trim(line);
    if !is_header_line(s) {
        return None;
    }
    let n = s.len();
    let w: usize = if n == 8 || n == 14 {
        1
    } else {
        2
    };
    let name = slice_subrange(s, 3, 6);
    let digits = slice_subrange(s, 7, 7 + w);
    match find_month(name) {
        None => None,
        Some(month) => {
            let day: i8 = match parse_i8(digits) {
                Some(d) => d,
                None => 1,
            };
            let year: Option<i16> = if n >= 14 {
                parse_i16(slice_subrange(s, 9 + w, 13 + w))
            } else {
                None
            };
            Some(DateHeader { month, day, year })
        },
    }
}

/// The date that a header with a year names, where there is such a date.
fn read_header_date(line: &[char]) -> (r: Option<Date>)
    ensures
        r == header_date(line@),
{
    if trim(line).len() < 14 {
        return None;
    }
    match read_header(line) {
        Some(h) => {
            let year: i16 = match h.year {
                Some(y) => y,
                None => 0,
            };
            Date::new(year, h.month, h.day)
        },
        None => None,
    }
}

/// The date of the last header that names one.
pub fn read_last_date(content: &[char]) -> (r: Option<Date>)
    ensures
        r == last_date(lines(content@)),
{
    let ls = split_lines(content);
    let ghost all = texts(ls@);
    let mut r: Option<Date> = None;
    let mut i: usize = 0;
    while i < ls.len()
        invariant
            i <= ls.len(),
            all == texts(ls@),
            r == last_date(all.take(i as int)),
        decreases ls.len() - i,
    {
        let d = read_header_date(ls[i].as_slice());
        if d.is_some() {
            r = d;
        }
        assert(all.take(i + 1).drop_last() =~= all.take(i as int));
        i += 1;
    }
    assert(all.take(all.len() as int) =~= all);
    r
}

/// The date of the last header that names one.
pub fn extract_last_date_from_content(content: &str) -> (r: Option<Date>)
    ensures
        r == last_date(lines(content@)),
{
    read_last_date(to_chars(content).as_slice())
}

/// The date headers among the lines.
fn read_headers(ls: &Vec<Vec<char>>) -> (r: Vec<DateHeader>)
    ensures
        r@ == headers(texts(ls@)),
        forall|i: int| 0 <= i < r.len() ==> 0 <= (#[trigger] r[i]).day,
{
    let ghost all = texts(ls@);
    let mut r: Vec<DateHeader> = Vec::new();
    let mut i: usize = 0;
    while i < ls.len()
        invariant
            i <= ls.len(),
            all == texts(ls@),
            r@ == headers(all.take(i as int)),
            forall|i: int| 0 <= i < r.len() ==> 0 <= (#[trigger] r[i]).day,
        decreases ls.len() - i,
    {
        match read_header(ls[i].as_slice()) {
            Some(h) => {
                proof {
                    lemma_header_of(all[i as int]);
                }
                r.push(h);
            },
            None => {},
        }
        assert(all.take(i + 1).drop_last() =~= all.take(i as int));
        i += 1;
    }
    assert(all.take(all.len() as int) =~= all);
    r
}

// ---------------------------------------------------------------------------
// Filling in years
// ---------------------------------------------------------------------------

/// The year of each header.
fn infer_years(h: &Vec<DateHeader>, current: i16) -> (r: Vec<i128>)
    ensures
        r.len() == h.len(),
        forall|k: int| 0 <= k < h.len() ==> #[trigger] r[k] == inferred_year(h@, k, current as int),
        forall|k: int| 0 <= k < h.len() ==> i128::MIN < #[trigger] r[k],
{
    let n = h.len();
    let mut a: usize = 0;
    while a < n && h[a].year.is_none()
        invariant
            a <= n == h.len(),
            anchor(h@, 0) == anchor(h@, a as int),
        decreases n - a,
    {
        a += 1;
    }
    let mut r: Vec<i128> = Vec::new();
    if a == n {
        let mut i: usize = 0;
        while i < n
            invariant
                i <= n == h.len(),
                r.len() == i,
                anchor(h@, 0) == n,
                forall|k: int|
                    0 <= k < i ==> #[trigger] r[k] == inferred_year(h@, k, current as int),
                forall|k: int| 0 <= k < i ==> i128::MIN < #[trigger] r[k],
            decreases n - i,
        {
            r.push(current as i128);
            i += 1;
        }
        return r;
    }
    let base: i128 = match h[a].year {
        Some(y) => y as i128,
        None => 0,
    };
    let mut back: Vec<i128> = Vec::new();
    back.push(base);
    let mut i: usize = a;
    assert(turns(h@, a as int, a as int) == 0);
    while i > 0
        invariant
            i <= a < n == h.len(),
            -32768 <= base <= 32767,
            back.len() == a - i + 1,
            forall|k: int| i <= k <= a ==> #[trigger] back[a - k] == base - turns(h@, k, a as int),
        decreases i,
    {
        proof {
            lemma_turns_front(h@, i - 1, a as int);
            lemma_turns(h@, i as int, a as int);
            assert(back[a - i] == base - turns(h@, i as int, a as int));
        }
        let next = back[a - i];
        let year: i128 = if h[i - 1].month > h[i].month {
            next - 1
        } else {
            next
        };
        let ghost old_back = back@;
        back.push(year);
        i -= 1;
        assert forall|k: int| i <= k <= a implies #[trigger] back[a - k] == base - turns(
            h@,
            k,
            a as int,
        ) by {
            if k > i {
                assert(back[a - k] == old_back[a - k]);
            }
        }
    }
    let mut j: usize = 0;
    while j < n
        invariant
            j <= n == h.len(),
            a < n,
            anchor(h@, 0) == a,
            h[a as int].year == Some(base as i16),
            -32768 <= base <= 32767,
            back.len() == a + 1,
            forall|k: int| 0 <= k <= a ==> #[trigger] back[a - k] == base - turns(h@, k, a as int),
            r.len() == j,
            forall|k: int| 0 <= k < j ==> #[trigger] r[k] == inferred_year(h@, k, current as int),
            forall|k: int| 0 <= k < j ==> i128::MIN < #[trigger] r[k],
        decreases n - j,
    {
        if j <= a {
            proof {
                lemma_turns(h@, j as int, a as int);
                assert(back[a - j] == base - turns(h@, j as int, a as int));
                assert(turns(h@, a as int, a as int) == 0);
            }
            r.push(back[a - j]);
        } else {
            proof {
                lemma_turns(h@, a as int, j as int);
                lemma_turns(h@, a as int, j - 1);
                assert(r[j - 1] == inferred_year(h@, j - 1, current as int));
                assert(turns(h@, a as int, a as int) == 0);
            }
            let prev = r[j - 1];
            let year: i128 = if h[j].month < h[j - 1].month {
                prev + 1
            } else {
                prev
            };
            r.push(year);
        }
        j += 1;
    }
    r
}

/// A header with its year.
fn write_dated_line(h: &DateHeader, year: i128) -> (r: Vec<char>)
    requires
        0 <= h.day,
        i128::MIN < year,
    ensures
        r@ == dated_line(*h, year as int),
{
    let mut r: Vec<char> = Vec::new();
    r.push('#');
    r.push('#');
    r.push(' ');
    append_str(&mut r, month_name(h.month));
    r.push(' ');
    append_padded(&mut r, h.day as u128, 2);
    r.push(',');
    r.push(' ');
    append_numeral(&mut r, year);
    assert(r@ =~= dated_line(*h, year as int));
    r
}

/// Fills in the years that headers leave out. The first header that names its
/// year is the anchor; each fall of the month is a turn of the year. Without an
/// anchor every header gets the current year.
pub fn backfill_chars(content: &[char], current: i16) -> (r: Vec<char>)
    ensures
        r@ == backfilled(content@, current as int),
{
    let ls = split_lines(content);
    let h = read_headers(&ls);
    if h.len() == 0 {
        return copied(content);
    }
    let years = infer_years(&h, current);
    let ghost all = texts(ls@);
    let mut out: Vec<Vec<char>> = Vec::new();
    let mut i: usize = 0;
    let mut k: usize = 0;
    while i < ls.len()
        invariant
            i <= ls.len(),
            all == texts(ls@),
            h@ == headers(all),
            k == headers(all.take(i as int)).len(),
            years.len() == h.len(),
            forall|j: int|
                0 <= j < h.len() ==> #[trigger] years[j] == inferred_year(h@, j, current as int),
            forall|j: int| 0 <= j < h.len() ==> i128::MIN < #[trigger] years[j],
            texts(out@) == backfilled_lines(all, current as int).take(i as int),
        decreases ls.len() - i,
    {
        proof {
            assert(all.take(i + 1).drop_last() =~= all.take(i as int));
            lemma_headers_prefix(all, i + 1);
        }
        let ghost before = texts(out@);
        let line = match read_header(ls[i].as_slice()) {
            Some(header) => {
                proof {
                    lemma_header_of(all[i as int]);
                }
                let year = years[k];
                k += 1;
                if header.year.is_none() {
                    write_dated_line(&header, year)
                } else {
                    copied(ls[i].as_slice())
                }
            },
            None => copied(ls[i].as_slice()),
        };
        out.push(line);
        assert(texts(out@) =~= before.push(line@));
        assert(backfilled_lines(all, current as int).take(i + 1) =~= backfilled_lines(
            all,
            current as int,
        ).take(i as int).push(backfilled_line(all, i as int, current as int)));
        i += 1;
    }
    assert(backfilled_lines(all, current as int).take(all.len() as int) =~= backfilled_lines(
        all,
        current as int,
    ));
    join_lines(&out)
}

/// The headers of the first lines are the first headers.
proof fn lemma_headers_prefix(ls: Seq<Seq<char>>, i: int)
    requires
        0 <= i <= ls.len(),
    ensures
        headers(ls.take(i)).len() <= headers(ls).len(),
        headers(ls.take(i)) == headers(ls).take(headers(ls.take(i)).len() as int),
    decreases ls.len() - i,
{
    if i < ls.len() {
        lemma_headers_prefix(ls, i + 1);
        assert(ls.take(i + 1).drop_last() =~= ls.take(i));
        let a = headers(ls.take(i));
        let b = headers(ls.take(i + 1));
        assert(a =~= b.take(a.len() as int));
        assert(headers(ls).take(b.len() as int).take(a.len() as int) =~= headers(ls).take(
            a.len() as int,
        ));
    } else {
        assert(ls.take(i) =~= ls);
        assert(headers(ls).take(headers(ls).len() as int) =~= headers(ls));
    }
}

/// Fills in the years that headers leave out, as `backfill_chars` does, with the
/// year that the clock shows for the current one.
pub fn backfill_date_header_years(content: &str) -> (r: String)
    ensures
        exists|current: int|
            -9999 <= current <= 9999 && r@ == #[trigger] backfilled(content@, current),
{
    let year = current_year();
    let out = backfill_chars(to_chars(content).as_slice(), year);
    let r = from_chars(out.as_slice());
    assert(r@ == backfilled(content@, year as int));
    r
}

/// Whether a line looks like a header without a year.
fn is_undated_line(line: &[char]) -> (r: bool)
    ensures
        r == undated_line(line@),
{
    let s = trim(line);
    if !str_stands_at(s, 0, "## ") || s.len() <= 3 {
        return false;
    }
    let mut i: usize = 0;
    while i < s.len()
        invariant
            i <= s.len(),
            s@ == trimmed(line@),
            forall|j: int| 0 <= j < i ==> s@[j] != ',',
            forall|j: int|
                3 <= j < 6 && j < i ==> alphabetic(#[trigger] s@[j]),
        decreases s.len() - i,
    {
        if s[i] == ',' {
            assert(s@.contains(s@[i as int]));
            return false;
        }
        if 3 <= i && i < 6 && !s[i].is_alphabetic() {
            assert(!alphabetic(s@[i as int]));
            return false;
        }
        i += 1;
    }
    true
}

/// Whether some line looks like a header without a year.
pub fn has_headers_without_years(content: &[char]) -> (r: bool)
    ensures
        r == has_undated(lines(content@)),
{
    let ls = split_lines(content);
    let ghost all = texts(ls@);
    let mut i: usize = 0;
    while i < ls.len()
        invariant
            i <= ls.len(),
            all == texts(ls@),
            all == lines(content@),
            forall|l: int| 0 <= l < i ==> !undated_line(#[trigger] all[l]),
        decreases ls.len() - i,
    {
        if is_undated_line(ls[i].as_slice()) {
            assert(undated_line(all[i as int]));
            return true;
        }
        i += 1;
    }
    false
}

/// What a file with this content is to hold once its headers have their years,
/// where that is another content. `current` is the current year.
pub fn backfill_file_date_headers(content: &str, current: i16) -> (r: Option<String>)
    ensures
        match r {
            Some(new) => has_undated(lines(content@)) && new@ == backfilled(
                content@,
                current as int,
            ) && new@ != content@,
            None => has_undated(lines(content@)) ==> backfilled(content@, current as int)
                == content@,
        },
{
    let chars = to_chars(content);
    if !has_headers_without_years(chars.as_slice()) {
        return None;
    }
    let out = backfill_chars(chars.as_slice(), current);
    if same(out.as_slice(), chars.as_slice()) {
        None
    } else {
        Some(from_chars(out.as_slice()))
    }
}

// ---------------------------------------------------------------------------
// Laws
// ---------------------------------------------------------------------------

/// The short name of a month stands for that month.
pub proof fn law_month_names(m: int)
    requires
        1 <= m <= 12,
    ensures
        month_number(month_text(m)) == Some(m),
        month_text(m).len() == 3,
        forall|i: int| 0 <= i < 3 ==> ascii_letter(#[trigger] month_text(m)[i]),
{
    reveal_strlit("Jan");
    reveal_strlit("Feb");
    reveal_strlit("Mar");
    reveal_strlit("Apr");
    reveal_strlit("May");
    reveal_strlit("Jun");
    reveal_strlit("Jul");
    reveal_strlit("Aug");
    reveal_strlit("Sep");
    reveal_strlit("Oct");
    reveal_strlit("Nov");
    reveal_strlit("Dec");
    assert forall|k: int| 1 <= k <= 12 && k != m implies month_text(k) != month_text(m) by {
        let (a, b) = (month_text(k), month_text(m));
        assert(a[0] != b[0] || a[1] != b[1] || a[2] != b[2]);
    }
    lemma_month_from_first(m, 1);
}

proof fn lemma_month_from_first(m: int, k: int)
    requires
        1 <= k <= m <= 12,
        forall|j: int| 1 <= j <= 12 && j != m ==> month_text(j) != month_text(m),
    ensures
        month_from(month_text(m), k) == Some(m),
    decreases m - k,
{
    if k < m {
        lemma_month_from_first(m, k + 1);
    }
}

/// What a line of the header shape with a year says.
proof fn lemma_read_back(s: Seq<char>, month: int, day: int, year_digits: Seq<char>)
    requires
        1 <= month <= 12,
        0 <= day <= 99,
        year_digits.len() == 4,
        all_digits(year_digits),
        digits_value(year_digits) <= 9999,
        s == seq!['#', '#', ' '] + month_text(month) + seq![' '] + padded(day, 2) + seq![',', ' ']
            + year_digits,
    ensures
        s.len() == 15,
        trimmed(s) == s,
        header_line(s),
        dated(s),
        header_of(s) == Some(
            (DateHeader {
                month: month as i8,
                day: day as i8,
                year: Some(digits_value(year_digits) as i16),
            }),
        ),
{
    law_month_names(month);
    lemma_decimal_len(day);
    lemma_padded(day, 2);
    let name = month_text(month);
    let d = padded(day, 2);
    assert(s.len() == 15);
    assert(s.subrange(3, 6) =~= name);
    assert(s.subrange(7, 9) =~= d);
    assert(s.subrange(11, 15) =~= year_digits);
    assert forall|i: int| 3 <= i < 6 implies ascii_letter(#[trigger] s[i]) by {
        assert(s[i] == name[i - 3]);
    }
    assert forall|i: int| 7 <= i < 9 implies digit(#[trigger] s[i]) by {
        assert(s[i] == d[i - 7]);
    }
    assert forall|i: int| 11 <= i < 15 implies digit(#[trigger] s[i]) by {
        assert(s[i] == year_digits[i - 11]);
    }
    assert(header_line(s));
    assert(digit(s[14]));
    assert(s.last() == year_digits[3]);
    lemma_trimmed_same(s);
    assert(ascii_digit(d[0]));
    assert(ascii_digit(year_digits[0]));
    lemma_digits_value_nonneg(year_digits);
}

/// A header written for a date is read as that date.
pub proof fn law_date_header_reads_back(d: Date)
    requires
        d.valid(),
        0 <= d.year,
    ensures
        header_date(seq!['#', '#', ' '] + date_text(d)) == Some(d),
{
    let s = seq!['#', '#', ' '] + date_text(d);
    lemma_decimal_len(d.year as int);
    lemma_padded(d.year as int, 4);
    assert(s =~= seq!['#', '#', ' '] + month_text(d.month as int) + seq![' '] + padded(
        d.day as int,
        2,
    ) + seq![',', ' '] + padded(d.year as int, 4));
    lemma_read_back(s, d.month as int, d.day as int, padded(d.year as int, 4));
}

/// A header with a year that was filled in is read with its month, its day and
/// that year, for years of four digits.
pub proof fn law_dated_line_reads_back(h: DateHeader, year: int)
    requires
        1 <= h.month <= 12,
        0 <= h.day <= 99,
        1000 <= year <= 9999,
    ensures
        header_of(dated_line(h, year)) == Some(
            (DateHeader { month: h.month, day: h.day, year: Some(year as i16) }),
        ),
{
    lemma_decimal_len(year);
    lemma_decimal(year);
    lemma_read_back(dated_line(h, year), h.month as int, h.day as int, decimal(year));
}

/// A header with a year that was filled in is no header without a year.
proof fn lemma_dated_line_names_year(h: DateHeader, year: int)
    requires
        1 <= h.month <= 12,
        0 <= h.day <= 99,
    ensures
        header_of(dated_line(h, year)) matches Some(read) ==> read.year is Some,
{
    let s = dated_line(h, year);
    let d = padded(h.day as int, 2);
    let y = numeral(year);
    law_month_names(h.month as int);
    lemma_decimal_len(h.day as int);
    lemma_padded(h.day as int, 2);
    if year < 0 {
        lemma_decimal(-year);
    } else {
        lemma_decimal(year);
    }
    assert(s.len() == 11 + y.len());
    assert(s[0] == '#');
    assert(s.last() == y.last());
    assert(ascii_digit(y.last()));
    lemma_trimmed_same(s);
    if header_line(s) {
        if s.len() == 14 {
            assert(s[8] == d[1]);
            assert(ascii_digit(d[1]));
        } else {
            assert(s.len() == 15);
            assert(digit(s[11]));
            assert(s[11] == y[0]);
            assert(y =~= seq![y[0], y[1], y[2], y[3]]);
            reveal_with_fuel(digits_value, 5);
            let a = y.drop_last();
            let b = a.drop_last();
            let c = b.drop_last();
            assert(ascii_digit(y[0]) && ascii_digit(y[1]) && ascii_digit(y[2]) && ascii_digit(y[3]));
            assert(digits_value(y) == digits_value(a) * 10 + (y[3] as u32 - '0' as u32));
            assert(digits_value(a) == digits_value(b) * 10 + (y[2] as u32 - '0' as u32));
            assert(digits_value(b) == digits_value(c) * 10 + (y[1] as u32 - '0' as u32));
            assert(digits_value(c) == y[0] as u32 - '0' as u32) by {
                assert(c.drop_last().len() == 0);
            }
            lemma_read_back(s, h.month as int, h.day as int, y);
        }
    }
}

/// Once years were filled in, filling in years changes nothing.
pub proof fn law_backfill_settles(lines: Seq<Seq<char>>, current: int, later: int)
    ensures
        backfilled_lines(backfilled_lines(lines, current), later) == backfilled_lines(
            lines,
            current,
        ),
{
    let new = backfilled_lines(lines, current);
    assert forall|l: int| 0 <= l < lines.len() implies backfilled_line(new, l, later)
        == #[trigger] new[l] by {
        match header_of(lines[l]) {
            Some(h) => {
                if h.year is None {
                    lemma_header_of(lines[l]);
                    lemma_header_day(lines[l]);
                    let k = headers(lines.take(l)).len() as int;
                    lemma_dated_line_names_year(h, inferred_year(headers(lines), k, current));
                }
            },
            None => {},
        }
    }
    assert(backfilled_lines(new, later) =~= new);
}

/// The day of a header has at most two digits.
proof fn lemma_header_day(line: Seq<char>)
    requires
        header_of(line) is Some,
    ensures
        header_of(line)->0.day <= 99,
{
    let s = trimmed(line);
    let d = s.subrange(7, 7 + day_width(s));
    if all_digits(d) {
        reveal_with_fuel(digits_value, 3);
        assert(ascii_digit(d[0]));
        assert(ascii_digit(d[d.len() - 1]));
        if d.len() == 2 {
            assert(d.drop_last().last() == d[0]);
        }
    }
}

/// The headers of a file go through the months, and the year turns exactly where the
/// month falls from one header to the next. The first header that names its year keeps
/// it. Where none does, all are of the current year.
pub proof fn law_years_turn_with_the_months(h: Seq<DateHeader>, k: int, current: int)
    requires
        0 <= k < h.len(),
    ensures
        (forall|i: int| 0 <= i < k ==> (#[trigger] h[i]).year is None) && h[k].year is Some
            ==> inferred_year(h, k, current) == h[k].year->0,
        (exists|i: int| 0 <= i < h.len() && (#[trigger] h[i]).year is Some) && k + 1 < h.len()
            && h[k].month <= h[k + 1].month ==> inferred_year(h, k + 1, current) == inferred_year(
            h,
            k,
            current,
        ),
        (exists|i: int| 0 <= i < h.len() && (#[trigger] h[i]).year is Some) && k + 1 < h.len()
            && h[k].month > h[k + 1].month ==> inferred_year(h, k + 1, current) == inferred_year(
            h,
            k,
            current,
        ) + 1,
        (forall|i: int| 0 <= i < h.len() ==> (#[trigger] h[i]).year is None) ==> inferred_year(
            h,
            k,
            current,
        ) == current,
{
    lemma_anchor(h, 0);
    let a = anchor(h, 0);
    if k < a && a < h.len() {
        lemma_turns_front(h, k, a);
    }
}

/// The anchor is the first header that names its year.
proof fn lemma_anchor(h: Seq<DateHeader>, from: int)
    requires
        0 <= from <= h.len(),
    ensures
        from <= anchor(h, from) <= h.len(),
        forall|i: int| from <= i < anchor(h, from) ==> (#[trigger] h[i]).year is None,
        anchor(h, from) < h.len() ==> h[anchor(h, from)].year is Some,
    decreases h.len() - from,
{
    if from < h.len() && h[from].year is None {
        lemma_anchor(h, from + 1);
    }
}

/// Filling in years changes no line but the headers that name none. Such a header says
/// the same month and day as before, and behind them the year.
pub proof fn law_filled_in_lines(ls: Seq<Seq<char>>, current: int, l: int)
    requires
        0 <= l < ls.len(),
    ensures
        backfilled_lines(ls, current).len() == ls.len(),
        header_of(ls[l]) is None ==> backfilled_lines(ls, current)[l] == ls[l],
        header_of(ls[l]) matches Some(h) ==> {
            let k = headers(ls.take(l)).len() as int;
            let year = inferred_year(headers(ls), k, current);
            &&& k < headers(ls).len()
            &&& headers(ls)[k] == h
            &&& h.year is Some ==> backfilled_lines(ls, current)[l] == ls[l]
            &&& h.year is None ==> backfilled_lines(ls, current)[l] == "## "@ + month_text(
                h.month as int,
            ) + " "@ + padded(h.day as int, 2) + ", "@ + numeral(year)
        },
{
    reveal_strlit("## ");
    reveal_strlit(" ");
    reveal_strlit(", ");
    assert("## "@ =~= seq!['#', '#', ' ']);
    assert(" "@ =~= seq![' ']);
    assert(", "@ =~= seq![',', ' ']);
    lemma_headers_prefix(ls, l + 1);
    assert(ls.take(l + 1).drop_last() =~= ls.take(l));
    assert(ls.take(l + 1).last() == ls[l]);
    if header_of(ls[l]) is Some {
        let before = headers(ls.take(l));
        let k = before.len() as int;
        let upto = headers(ls.take(l + 1));
        assert(upto == before.push(header_of(ls[l])->0));
        assert(upto[k] == headers(ls).take(upto.len() as int)[k]);
        assert(headers(ls)[k] == header_of(ls[l])->0);
    }
}

/// The headers of two pieces of a file are those of the one and then those of the other.
pub proof fn law_headers_in_order(a: Seq<Seq<char>>, b: Seq<Seq<char>>)
    ensures
        headers(a + b) == headers(a) + headers(b),
    decreases b.len(),
{
    if b.len() == 0 {
        assert(a + b =~= a);
        assert(headers(a) + headers(b) =~= headers(a));
    } else {
        law_headers_in_order(a, b.drop_last());
        assert((a + b).drop_last() =~= a + b.drop_last());
        assert((a + b).last() == b.last());
        assert(headers(a + b) =~= headers(a) + headers(b));
    }
}

/// A header that was written for a date is one, with its year, its month and its day.
pub proof fn lemma_written_header(d: Date)
    requires
        d.valid(),
        0 <= d.year,
    ensures
        ({
            let s = seq!['#', '#', ' '] + date_text(d);
            &&& trimmed(s) == s
            &&& header_line(s)
            &&& s.subrange(3, 6) == month_text(d.month as int)
            &&& day_value(s) == d.day
            &&& year_value(s) == Some(d.year as int)
        }),
{
    let s = seq!['#', '#', ' '] + date_text(d);
    let y = padded(d.year as int, 4);
    lemma_decimal_len(d.year as int);
    lemma_padded(d.year as int, 4);
    lemma_decimal_len(d.day as int);
    lemma_padded(d.day as int, 2);
    law_month_names(d.month as int);
    assert(s =~= seq!['#', '#', ' '] + month_text(d.month as int) + seq![' '] + padded(
        d.day as int,
        2,
    ) + seq![',', ' '] + y);
    lemma_read_back(s, d.month as int, d.day as int, y);
    assert(s.subrange(3, 6) =~= month_text(d.month as int));
    assert(s.subrange(7, 9) =~= padded(d.day as int, 2));
    assert(s.subrange(11, 15) =~= y);
    assert(ascii_digit(padded(d.day as int, 2)[0]));
    assert(ascii_digit(y[0]));
}

} // verus!
