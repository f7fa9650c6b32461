//! From which date on messages are shown.
use vstd::prelude::*;

use crate::calendar::{
    Date, MAX_SPAN, before, law_before_is_earlier, number_back, number_in_range, valid_date,
};
use crate::config::Timeframe;
use crate::decimal::{
    decimal, lemma_decimal, lemma_signed_round_trip, parse_i16, parse_i8, signed_value,
};
use crate::text::{lacks, lemma_split_first, lemma_split_one, split, split_on, texts, to_chars};
use crate::unicode::ascii_digit;

verus! {

/// Why there is no date to show messages from.
#[derive(Clone, Copy, Debug, Eq, PartialEq, Structural)]
pub enum SinceError {
    /// A date and a span of time were both given.
    Both,
    /// Neither a date nor a span of time was given.
    Neither,
    /// The span of time reaches back too far.
    TooFarBack,
    /// A part of the date is no number.
    NotANumber,
    /// There is no such date.
    NoSuchDate,
    /// The date has no parts, or too many.
    BadFormat,
}

/// The text with `-` for `/`.
pub open spec fn dashed(s: Seq<char>) -> Seq<char> {
    s.map_values(|c: char| if c == '/' { '-' } else { c })
}

/// The number of a month or of a day.
pub open spec fn as_month_or_day(s: Seq<char>) -> Option<int> {
    signed_value(s, i8::MIN as int, i8::MAX as int)
}

/// The number of a year.
pub open spec fn as_year(s: Seq<char>) -> Option<int> {
    signed_value(s, i16::MIN as int, i16::MAX as int)
}

/// The date of that year, month and day.
pub open spec fn dated(year: int, month: int, day: int) -> Result<Date, SinceError> {
    if valid_date(year, month, day) {
        Ok(Date { year: year as i16, month: month as i8, day: day as i8 })
    } else {
        Err(SinceError::NoSuchDate)
    }
}

/// The last day of that month and day that is not after today: this year's, or
/// last year's.
pub open spec fn last_such_day(month: int, day: int, today: Date) -> Result<Date, SinceError> {
    match dated(today.year as int, month, day) {
        Err(e) => Err(e),
        Ok(d) => if before(today, d) {
            dated(today.year - 1, month, day)
        } else {
            Ok(d)
        },
    }
}

/// The last such day of a month that is not after today: this month's, or last
/// month's.
pub open spec fn last_such_day_of_month(day: int, today: Date) -> Result<Date, SinceError> {
    match dated(today.year as int, today.month as int, day) {
        Err(e) => Err(e),
        Ok(d) => if !before(today, d) {
            Ok(d)
        } else if today.month > 1 {
            dated(today.year as int, today.month - 1, day)
        } else {
            dated(today.year - 1, 12, day)
        },
    }
}

/// The date that a text names: year, month and day, month and day, or a day. What
/// is missing is filled in so that the date is not after today.
pub open spec fn partial_date(s: Seq<char>, today: Date) -> Result<Date, SinceError> {
    let parts = split(dashed(s), '-');
    if parts.len() == 3 {
        match (as_year(parts[0]), as_month_or_day(parts[1]), as_month_or_day(parts[2])) {
            (Some(y), Some(m), Some(d)) => dated(y, m, d),
            _ => Err(SinceError::NotANumber),
        }
    } else if parts.len() == 2 {
        match (as_month_or_day(parts[0]), as_month_or_day(parts[1])) {
            (Some(m), Some(d)) => last_such_day(m, d, today),
            _ => Err(SinceError::NotANumber),
        }
    } else if parts.len() == 1 {
        match as_month_or_day(parts[0]) {
            Some(d) => last_such_day_of_month(d, today),
            None => Err(SinceError::NotANumber),
        }
    } else {
        Err(SinceError::BadFormat)
    }
}

/// The date of that year, month and day.
fn make_date(year: i16, month: i8, day: i8) -> (r: Result<Date, SinceError>)
    ensures
        r == dated(year as int, month as int, day as int),
{
    match Date::new(year, month, day) {
        Some(d) => Ok(d),
        None => Err(SinceError::NoSuchDate),
    }
}

/// The text with `-` for `/`.
fn with_dashes(s: &[char]) -> (r: Vec<char>)
    ensures
        r@ == dashed(s@),
{
    let mut r: Vec<char> = Vec::new();
    let mut i: usize = 0;
    while i < s.len()
        invariant
            i <= s.len(),
            r@ == dashed(s@).take(i as int),
        decreases s.len() - i,
    {
        if s[i] == '/' {
            r.push('-');
        } else {
            r.push(s[i]);
        }
        assert(dashed(s@).take(i + 1) =~= dashed(s@).take(i as int).push(dashed(s@)[i as int]));
        i += 1;
    }
    assert(r@ =~= dashed(s@));
    r
}

/// The date that a text names: `YYYY-MM-DD`, `MM-DD` or `DD`, with `-` or `/`
/// between the parts. What is missing is filled in from today.
pub fn parse_partial_date(s: &str, today: Date) -> (r: Result<Date, SinceError>)
    requires
        today.valid(),
    ensures
        r == partial_date(s@, today),
{
    let parts = split_on(with_dashes(to_chars(s).as_slice()).as_slice(), '-');
    let ghost all = texts(parts@);
    assert(all.len() == parts.len());
    if parts.len() == 3 {
        let year = parse_i16(parts[0].as_slice());
        let month = parse_i8(parts[1].as_slice());
        let day = parse_i8(parts[2].as_slice());
        match (year, month, day) {
            (Some(y), Some(m), Some(d)) => make_date(y, m, d),
            _ => Err(SinceError::NotANumber),
        }
    } else if parts.len() == 2 {
        let month = parse_i8(parts[0].as_slice());
        let day = parse_i8(parts[1].as_slice());
        match (month, day) {
            (Some(m), Some(d)) => match make_date(today.year, m, d) {
                Err(e) => Err(e),
                Ok(candidate) => if today.is_before(candidate) {
                    make_date(today.year - 1, m, d)
                } else {
                    Ok(candidate)
                },
            },
            _ => Err(SinceError::NotANumber),
        }
    } else if parts.len() == 1 {
        match parse_i8(parts[0].as_slice()) {
            Some(d) => match make_date(today.year, today.month, d) {
                Err(e) => Err(e),
                Ok(candidate) => if !today.is_before(candidate) {
                    Ok(candidate)
                } else if today.month > 1 {
                    make_date(today.year, today.month - 1, d)
                } else {
                    make_date(today.year - 1, 12, d)
                },
            },
            None => Err(SinceError::NotANumber),
        }
    } else {
        Err(SinceError::BadFormat)
    }
}

/// The date to show messages from: the one that a text names, or one that lies a
/// span of time back.
pub open spec fn is_start(
    r: Result<Date, SinceError>,
    text: Option<Seq<char>>,
    back: Option<Timeframe>,
    today: Date,
) -> bool {
    match (text, back) {
        (Some(_), Some(_)) => r == Err::<Date, SinceError>(SinceError::Both),
        (None, None) => r == Err::<Date, SinceError>(SinceError::Neither),
        (Some(s), None) => r == partial_date(s, today),
        (None, Some(t)) => match r {
            Ok(d) => t.seconds <= MAX_SPAN && d.valid() && d.number() == number_back(
                today,
                t.seconds,
            ) && t.seconds / 86400 <= 4371587,
            Err(e) => e == SinceError::TooFarBack && (t.seconds > MAX_SPAN || t.seconds / 86400
                > 4371587 || !number_in_range(number_back(today, t.seconds))),
        },
    }
}

/// The date to show messages from: the one that a text names, or one that lies a
/// span of time back.
pub fn cutoff(datetime: Option<&str>, back: Option<Timeframe>, today: Date) -> (r: Result<
    Date,
    SinceError,
>)
    requires
        today.valid(),
    ensures
        is_start(
            r,
            match datetime {
                Some(s) => Some(s@),
                None => None,
            },
            back,
            today,
        ),
{
    match (datetime, back) {
        (Some(_), Some(_)) => Err(SinceError::Both),
        (None, None) => Err(SinceError::Neither),
        (Some(s), None) => parse_partial_date(s, today),
        (None, Some(t)) => {
            if t.seconds > MAX_SPAN {
                return Err(SinceError::TooFarBack);
            }
            match today.back(t.seconds) {
                Some(d) => Ok(d),
                None => Err(SinceError::TooFarBack),
            }
        },
    }
}

// ---------------------------------------------------------------------------
// Laws
// ---------------------------------------------------------------------------

/// A date with parts filled in is not after today, and has the parts it was given.
pub proof fn law_filled_in_dates(month: int, day: int, today: Date)
    requires
        today.valid(),
        i8::MIN <= month <= i8::MAX,
        i8::MIN <= day <= i8::MAX,
    ensures
        last_such_day(month, day, today) matches Ok(d) ==> d.valid() && !before(today, d)
            && d.month == month && d.day == day && today.year - 1 <= d.year,
        last_such_day_of_month(day, today) matches Ok(d) ==> d.valid() && !before(today, d)
            && d.day == day,
{
}

proof fn lemma_digits_stay(n: int)
    requires
        0 <= n,
    ensures
        dashed(decimal(n)) == decimal(n),
        lacks(decimal(n), '-'),
{
    let d = decimal(n);
    lemma_decimal(n);
    assert forall|i: int| 0 <= i < d.len() implies #[trigger] d[i] != '-' && d[i] != '/' by {
        assert(ascii_digit(d[i]));
    }
    assert(dashed(d) =~= d);
}

proof fn lemma_dashed_concat(a: Seq<char>, sep: char, b: Seq<char>)
    requires
        sep == '-' || sep == '/',
    ensures
        dashed(a + seq![sep] + b) == dashed(a) + seq!['-'] + dashed(b),
{
    assert(dashed(a + seq![sep] + b) =~= dashed(a) + seq!['-'] + dashed(b));
}

/// Three numbers with dashes or slashes between them name that year, month and day.
pub proof fn law_full_dates(year: int, month: int, day: int, sep: char, today: Date)
    requires
        sep == '-' || sep == '/',
        0 <= year <= i16::MAX,
        0 <= month <= i8::MAX,
        0 <= day <= i8::MAX,
    ensures
        ({
            let s = decimal(year) + seq![sep] + decimal(month) + seq![sep] + decimal(day);
            &&& valid_date(year, month, day) ==> partial_date(s, today) == Ok::<Date, SinceError>(
                Date { year: year as i16, month: month as i8, day: day as i8 },
            )
            &&& !valid_date(year, month, day) ==> partial_date(s, today) == Err::<Date, SinceError>(
                SinceError::NoSuchDate,
            )
        }),
{
    let (y, m, d) = (decimal(year), decimal(month), decimal(day));
    let s = y + seq![sep] + m + seq![sep] + d;
    lemma_digits_stay(year);
    lemma_digits_stay(month);
    lemma_digits_stay(day);
    lemma_dashed_concat(y + seq![sep] + m, sep, d);
    lemma_dashed_concat(y, sep, m);
    let dash = seq!['-'];
    assert(dashed(s) =~= y + dash + (m + dash + d));
    lemma_split_first(y, '-', m + dash + d);
    lemma_split_first(m, '-', d);
    lemma_split_one(d, '-');
    assert(split(dashed(s), '-') =~= seq![y, m, d]);
    lemma_signed_round_trip(year, i16::MIN as int, i16::MAX as int);
    lemma_signed_round_trip(month, i8::MIN as int, i8::MAX as int);
    lemma_signed_round_trip(day, i8::MIN as int, i8::MAX as int);
}

/// Two numbers name a month and a day: this year's, where it is not after today, and
/// else last year's. No such day lies between it and today. Where this year has no such
/// day there is none.
pub proof fn law_months_and_days(month: int, day: int, sep: char, today: Date, other: Date)
    requires
        sep == '-' || sep == '/',
        0 <= month <= i8::MAX,
        0 <= day <= i8::MAX,
        today.valid(),
        other.valid(),
    ensures
        ({
            let r = partial_date(decimal(month) + seq![sep] + decimal(day), today);
            let now = today.month * 32 + today.day;
            let then = month * 32 + day;
            &&& valid_date(today.year as int, month, day) && then <= now ==> r == Ok::<
                Date,
                SinceError,
            >(Date { year: today.year, month: month as i8, day: day as i8 })
            &&& valid_date(today.year as int, month, day) && then > now && valid_date(
                today.year - 1,
                month,
                day,
            ) ==> r == Ok::<Date, SinceError>(
                Date { year: (today.year - 1) as i16, month: month as i8, day: day as i8 },
            )
            &&& valid_date(today.year as int, month, day) && then > now && !valid_date(
                today.year - 1,
                month,
                day,
            ) ==> r == Err::<Date, SinceError>(SinceError::NoSuchDate)
            &&& !valid_date(today.year as int, month, day) ==> r == Err::<Date, SinceError>(
                SinceError::NoSuchDate,
            )
            &&& r matches Ok(d) ==> d.valid() && d.number() <= today.number()
            &&& r matches Ok(d) ==> other.month == month && other.day == day && other.number()
                <= today.number() ==> other.number() <= d.number()
        }),
{
    let (m, d) = (decimal(month), decimal(day));
    let s = m + seq![sep] + d;
    lemma_digits_stay(month);
    lemma_digits_stay(day);
    lemma_dashed_concat(m, sep, d);
    lemma_split_first(m, '-', d);
    lemma_split_one(d, '-');
    assert(split(dashed(s), '-') =~= seq![m, d]);
    lemma_signed_round_trip(month, i8::MIN as int, i8::MAX as int);
    lemma_signed_round_trip(day, i8::MIN as int, i8::MAX as int);
    match partial_date(s, today) {
        Ok(r) => {
            law_before_is_earlier(today, r);
            law_before_is_earlier(r, other);
            law_before_is_earlier(today, other);
        },
        Err(_) => {},
    }
}

/// One number names a day: this month's, where it is not after today, and else last
/// month's. No such day lies between it and today. Where the month has no such day there
/// is none.
pub proof fn law_days_of_the_month(day: int, today: Date, other: Date)
    requires
        0 <= day <= i8::MAX,
        today.valid(),
        other.valid(),
    ensures
        ({
            let r = partial_date(decimal(day), today);
            let this_month = valid_date(today.year as int, today.month as int, day);
            let (year, month) = if today.month == 1 {
                (today.year - 1, 12)
            } else {
                (today.year as int, today.month - 1)
            };
            &&& this_month && day <= today.day ==> r == Ok::<Date, SinceError>(
                Date { year: today.year, month: today.month, day: day as i8 },
            )
            &&& this_month && day > today.day && valid_date(year, month, day) ==> r == Ok::<
                Date,
                SinceError,
            >(Date { year: year as i16, month: month as i8, day: day as i8 })
            &&& !this_month || (day > today.day && !valid_date(year, month, day)) ==> r == Err::<
                Date,
                SinceError,
            >(SinceError::NoSuchDate)
            &&& r matches Ok(d) ==> d.valid() && d.number() <= today.number()
            &&& r matches Ok(d) ==> other.day == day && other.number() <= today.number()
                ==> other.number() <= d.number()
        }),
{
    let d = decimal(day);
    lemma_digits_stay(day);
    lemma_split_one(d, '-');
    lemma_signed_round_trip(day, i8::MIN as int, i8::MAX as int);
    match partial_date(d, today) {
        Ok(r) => {
            law_before_is_earlier(today, r);
            law_before_is_earlier(r, other);
            law_before_is_earlier(today, other);
        },
        Err(_) => {},
    }
}

} // verus!
