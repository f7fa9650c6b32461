//! Dates of the proleptic Gregorian calendar and instants.
use vstd::prelude::*;

use crate::decimal::padded;

verus! {

/// A calendar date.
#[derive(Clone, Copy, Debug, PartialEq, Eq, Structural)]
pub struct Date {
    pub year: i16,
    pub month: i8,
    pub day: i8,
}

/// An instant, in nanoseconds since the start of 1970 in UTC.
#[derive(Clone, Copy, Debug, PartialEq, Eq, Structural)]
pub struct Timestamp {
    pub nanos: i128,
}

// ---------------------------------------------------------------------------
// The calendar
// ---------------------------------------------------------------------------

pub open spec fn leap(year: int) -> bool {
    year % 4 == 0 && (year % 100 != 0 || year % 400 == 0)
}

pub open spec fn days_in_month(year: int, month: int) -> int {
    if month == 2 {
        if leap(year) {
            29
        } else {
            28
        }
    } else if month == 4 || month == 6 || month == 9 || month == 11 {
        30
    } else {
        31
    }
}

/// The year, month and day make a date of the years -9999 to 9999.
pub open spec fn valid_date(year: int, month: int, day: int) -> bool {
    -9999 <= year <= 9999 && 1 <= month <= 12 && 1 <= day <= days_in_month(year, month)
}

/// The days of a year before its month `month`.
pub open spec fn days_before_month(year: int, month: int) -> int
    decreases month,
{
    if month <= 1 {
        0
    } else {
        days_before_month(year, month - 1) + days_in_month(year, month - 1)
    }
}

/// The days from the first day of the year 1 to the first day of `year`.
pub open spec fn days_before_year(year: int) -> int {
    365 * (year - 1) + (year - 1) / 4 - (year - 1) / 100 + (year - 1) / 400
}

/// The days from the first of January 1970 to a date.
pub open spec fn day_number(year: int, month: int, day: int) -> int {
    days_before_year(year) - days_before_year(1970) + days_before_month(year, month) + day - 1
}

/// Nanoseconds of a second.
pub const SECOND: i128 = 1_000_000_000;

/// Nanoseconds of a day.
pub const DAY: i128 = 86_400_000_000_000;

/// The day of an instant, counted from the first of January 1970.
pub open spec fn day_of(nanos: int) -> int {
    nanos / (DAY as int)
}

/// The seconds that an instant may have, with up to a second less a nanosecond on top.
pub open spec fn second_in_range(second: int) -> bool {
    -377705023201 <= second <= 253402207200
}

impl Date {
    pub open spec fn valid(self) -> bool {
        valid_date(self.year as int, self.month as int, self.day as int)
    }

    pub open spec fn number(self) -> int {
        day_number(self.year as int, self.month as int, self.day as int)
    }
}

impl Timestamp {
    /// The instant lies in the years that can be shown as a date.
    pub open spec fn valid(self) -> bool {
        second_in_range(self.nanos as int / SECOND as int)
    }

    /// The date of the instant in UTC.
    pub open spec fn date(self) -> Date {
        date_of(day_of(self.nanos as int))
    }

    /// The whole seconds since 1970, rounded toward zero.
    pub open spec fn second(self) -> int {
        if self.nanos >= 0 {
            self.nanos as int / SECOND as int
        } else {
            -((-self.nanos) as int / SECOND as int)
        }
    }
}

/// A day of a year, such as `Jan 03`.
pub open spec fn day_text(d: Date) -> Seq<char> {
    month_text(d.month as int) + seq![' '] + padded(d.day as int, 2)
}

/// A date as year, month and day in digits, such as `2025-01-03`.
pub open spec fn iso_text(d: Date) -> Seq<char> {
    year_text(d.year as int) + seq!['-'] + padded(d.month as int, 2) + seq!['-'] + padded(
        d.day as int,
        2,
    )
}

/// The hour and the minute of the day in UTC, such as `09:05`.
pub open spec fn clock_text(t: Timestamp) -> Seq<char> {
    let second = (t.nanos as int / SECOND as int) % 86400;
    padded(second / 3600, 2) + seq![':'] + padded(second / 60 % 60, 2)
}

/// The longest span of time, in seconds, that dates can be moved by.
pub const MAX_SPAN: u64 = 631_107_417_600;

/// A date that lies whole days of the given seconds before another.
pub open spec fn number_back(d: Date, seconds: u64) -> int {
    d.number() - (seconds / 86400) as int
}

/// The day is one of the years -9999 to 9999.
pub open spec fn number_in_range(number: int) -> bool {
    -4371587 <= number <= 2932896
}

/// The date `a` comes before the date `b`.
pub open spec fn before(a: Date, b: Date) -> bool {
    a.year < b.year || (a.year == b.year && (a.month < b.month || (a.month == b.month && a.day
        < b.day)))
}

/// The date of a day.
pub open spec fn date_of(number: int) -> Date {
    choose|d: Date| d.valid() && d.number() == number
}

/// The months' English names, cut to three letters.
pub open spec fn month_text(month: int) -> Seq<char> {
    if month == 1 {
        "Jan"@
    } else if month == 2 {
        "Feb"@
    } else if month == 3 {
        "Mar"@
    } else if month == 4 {
        "Apr"@
    } else if month == 5 {
        "May"@
    } else if month == 6 {
        "Jun"@
    } else if month == 7 {
        "Jul"@
    } else if month == 8 {
        "Aug"@
    } else if month == 9 {
        "Sep"@
    } else if month == 10 {
        "Oct"@
    } else if month == 11 {
        "Nov"@
    } else if month == 12 {
        "Dec"@
    } else {
        "???"@
    }
}

/// A year in at least four characters, the sign of a negative one included.
pub open spec fn year_text(year: int) -> Seq<char> {
    if year < 0 {
        seq!['-'] + padded(-year, 3)
    } else {
        padded(year, 4)
    }
}

/// A date as month, day and year, such as `Jan 03, 2025`.
pub open spec fn date_text(d: Date) -> Seq<char> {
    month_text(d.month as int) + seq![' '] + padded(d.day as int, 2) + seq![',', ' '] + year_text(
        d.year as int,
    )
}

/// The fraction of a second in as many groups of three digits as it needs.
pub open spec fn fraction_text(nano: int) -> Seq<char> {
    if nano == 0 {
        Seq::empty()
    } else if nano % 1_000_000 == 0 {
        seq!['.'] + padded(nano / 1_000_000, 3)
    } else if nano % 1_000 == 0 {
        seq!['.'] + padded(nano / 1_000, 6)
    } else {
        seq!['.'] + padded(nano, 9)
    }
}

/// An instant as date and time in UTC, such as `2025-01-03T09:05:00+00:00`. A
/// year below zero has a sign and four digits.
pub open spec fn rfc3339_text(second: int, nano: int) -> Seq<char> {
    let d = date_of(second / 86400);
    let s = second % 86400;
    let year = if d.year < 0 {
        seq!['-'] + padded(-d.year, 4)
    } else {
        padded(d.year as int, 4)
    };
    year + seq!['-'] + padded(d.month as int, 2) + seq!['-'] + padded(d.day as int, 2) + seq!['T']
        + padded(s / 3600, 2) + seq![':'] + padded(s / 60 % 60, 2) + seq![':'] + padded(s % 60, 2)
        + fraction_text(nano) + "+00:00"@
}

/// The first second of the year 0.
pub const YEAR_ZERO: i64 = -62_167_219_200;

/// The second since 1970 and the nanoseconds behind it that
/// `chrono::DateTime::parse_from_rfc3339` reads, where it reads any.
pub uninterp spec fn rfc3339_parts(s: Seq<char>) -> Option<(int, int)>;

/// The instant that a date and time stands for, where it is one that can be shown
/// as a date.
pub open spec fn rfc3339_instant(s: Seq<char>) -> Option<Timestamp> {
    match rfc3339_parts(s) {
        Some((second, nano)) => {
            let t = Timestamp { nanos: (second * SECOND + nano) as i128 };
            if t.valid() {
                Some(t)
            } else {
                None
            }
        },
        None => None,
    }
}

// ---------------------------------------------------------------------------
// Lemmas
// ---------------------------------------------------------------------------

/// A month ends before the next begins, and the last ends with the year.
proof fn lemma_days_before_month(year: int, m1: int, m2: int)
    requires
        1 <= m1 < m2 <= 13,
    ensures
        days_before_month(year, m1) + days_in_month(year, m1) <= days_before_month(year, m2),
        0 <= days_before_month(year, m1),
        days_before_month(year, 13) == 365 + (if leap(year) {
            1int
        } else {
            0
        }),
{
    reveal_with_fuel(days_before_month, 14);
}

/// Two dates of one day are the same date.
pub proof fn lemma_day_number_injective(a: Date, b: Date)
    requires
        a.valid(),
        b.valid(),
        a.number() == b.number(),
    ensures
        a == b,
{
    if before(a, b) {
        lemma_day_number_order(a, b);
    } else if before(b, a) {
        lemma_day_number_order(b, a);
    }
}

/// An earlier date has a smaller day number.
pub proof fn lemma_day_number_order(a: Date, b: Date)
    requires
        a.valid(),
        b.valid(),
        before(a, b),
    ensures
        a.number() < b.number(),
{
    let (y, m) = (a.year as int, a.month as int);
    if a.year < b.year {
        lemma_days_before_month(y, m, 13);
        if b.month > 1 {
            lemma_days_before_month(b.year as int, 1, b.month as int);
        }
        assert(days_before_year(y + 1) == days_before_year(y) + 365 + (if leap(y) {
            1int
        } else {
            0
        }));
        assert(days_before_year(y + 1) <= days_before_year(b.year as int));
        lemma_days_before_month(b.year as int, 1, 13);
        assert(days_before_month(b.year as int, b.month as int) >= 0) by {
            if b.month > 1 {
                lemma_days_before_month(b.year as int, 1, b.month as int);
            }
        }
    } else if a.month < b.month {
        lemma_days_before_month(y, m, b.month as int);
    }
}

/// The day of a date is in range.
pub proof fn lemma_number_in_range(d: Date)
    requires
        d.valid(),
    ensures
        number_in_range(d.number()),
{
    let first = Date { year: -9999i16, month: 1, day: 1 };
    let last = Date { year: 9999, month: 12, day: 31 };
    assert(first.number() == -4371587);
    lemma_days_before_month(9999, 12, 13);
    assert(days_before_month(9999, 13) == days_before_month(9999, 12) + 31);
    assert(last.number() == 2932896);
    if before(first, d) {
        lemma_day_number_order(first, d);
    }
    if before(d, last) {
        lemma_day_number_order(d, last);
    }
}

/// The day `number` is that of a date.
proof fn lemma_date_of(number: int) -> (d: Date)
    requires
        -4371587 <= number <= 2932896,
    ensures
        d.valid(),
        d.number() == number,
    decreases number + 4371587,
{
    if number == -4371587 {
        Date { year: -9999i16, month: 1, day: 1 }
    } else {
        let p = lemma_date_of(number - 1);
        let (y, m) = (p.year as int, p.month as int);
        if (p.day as int) < days_in_month(y, m) {
            Date { year: p.year, month: p.month, day: (p.day + 1) as i8 }
        } else if p.month < 12 {
            let d = Date { year: p.year, month: (p.month + 1) as i8, day: 1 };
            assert(days_before_month(y, m + 1) == days_before_month(y, m) + days_in_month(y, m));
            d
        } else {
            lemma_days_before_month(y, 12, 13);
            assert(days_before_year(y + 1) == days_before_year(y) + 365 + (if leap(y) {
                1int
            } else {
                0
            }));
            assert(days_before_month(y, 13) == days_before_month(y, 12) + 31);
            if p.year == 9999 {
                assert(days_before_year(10000) == 3652059);
                assert(p.number() == 2932896);
            }
            let d = Date { year: (p.year + 1) as i16, month: 1, day: 1 };
            assert(days_before_month(y + 1, 1) == 0);
            d
        }
    }
}

/// An instant has a date.
pub proof fn lemma_date_exists(t: Timestamp)
    requires
        t.valid(),
    ensures
        t.date().valid(),
        t.date().number() == day_of(t.nanos as int),
{
    let n = day_of(t.nanos as int);
    let d = lemma_date_of(n);
    assert(d.valid() && d.number() == n);
}

// ---------------------------------------------------------------------------
// Outside functions
// ---------------------------------------------------------------------------

/// `jiff::civil::Date::new` makes a date of a year from -9999 to 9999, a month
/// and a day of that month, and nothing else.
#[verifier::external_body]
fn civil_date(year: i16, month: i8, day: i8) -> (r: bool)
    ensures
        r == valid_date(year as int, month as int, day as int),
{
    jiff::civil::Date::new(year, month, day).is_ok()
}

/// `jiff::Timestamp::to_zoned` with `jiff::tz::TimeZone::UTC`, and
/// `jiff::Zoned::date` of the result: the date on which the instant falls in UTC.
#[verifier::external_body]
fn zoned_date(nanos: i128) -> (r: Date)
    requires
        second_in_range(nanos as int / SECOND as int),
    ensures
        r.valid(),
        r.number() == day_of(nanos as int),
{
    let t = jiff::Timestamp::from_nanosecond(nanos).unwrap();
    let d = t.to_zoned(jiff::tz::TimeZone::UTC).date();
    Date { year: d.year(), month: d.month(), day: d.day() }
}

/// `jiff::civil::DateTime::to_zoned` with `jiff::tz::TimeZone::UTC`: the second since
/// 1970 of a date and a time of day, where it is one an instant may have.
#[verifier::external_body]
fn zoned_second(date: Date, hour: i8, minute: i8, second_of: i8) -> (r: Option<i64>)
    requires
        date.valid(),
        0 <= hour < 24,
        0 <= minute < 60,
        0 <= second_of < 60,
    ensures
        ({
            let second = date.number() * 86400 + hour * 3600 + minute * 60 + second_of;
            match r {
                Some(s) => s == second && second_in_range(second),
                None => !second_in_range(second),
            }
        }),
{
    let at = jiff::civil::date(date.year, date.month, date.day).at(hour, minute, second_of, 0);
    at.to_zoned(jiff::tz::TimeZone::UTC).ok().map(|z| z.timestamp().as_second())
}

/// `jiff::civil::Date::strftime` with `%b %d, %Y`: the month's short name, the
/// day in two digits and the year in four characters or more.
#[verifier::external_body]
fn strftime_date(year: i16, month: i8, day: i8) -> (r: String)
    requires
        valid_date(year as int, month as int, day as int),
    ensures
        r@ == date_text((Date { year, month, day })),
{
    jiff::civil::date(year, month, day).strftime("%b %d, %Y").to_string()
}

/// `jiff::civil::Date::strftime` with `%b %d`: the month's short name and the day
/// in two digits.
#[verifier::external_body]
fn strftime_day(year: i16, month: i8, day: i8) -> (r: String)
    requires
        valid_date(year as int, month as int, day as int),
    ensures
        r@ == day_text((Date { year, month, day })),
{
    jiff::civil::date(year, month, day).strftime("%b %d").to_string()
}

/// `jiff::civil::Date::strftime` with `%Y-%m-%d`: the year in four characters or
/// more, and the month and the day in two digits each.
#[verifier::external_body]
fn strftime_iso(year: i16, month: i8, day: i8) -> (r: String)
    requires
        valid_date(year as int, month as int, day as int),
    ensures
        r@ == iso_text((Date { year, month, day })),
{
    jiff::civil::date(year, month, day).strftime("%Y-%m-%d").to_string()
}

/// `jiff::Zoned::strftime` with `%H:%M`, in UTC: the hour and the minute of the
/// day in two digits each.
#[verifier::external_body]
fn strftime_clock(nanos: i128) -> (r: String)
    requires
        second_in_range(nanos as int / SECOND as int),
    ensures
        ({
            let second = (nanos as int / SECOND as int) % 86400;
            r@ == padded(second / 3600, 2) + seq![':'] + padded(second / 60 % 60, 2)
        }),
{
    let t = jiff::Timestamp::from_nanosecond(nanos).unwrap();
    t.to_zoned(jiff::tz::TimeZone::UTC).strftime("%H:%M").to_string()
}

/// `jiff::civil::Date::checked_sub` with a `jiff::Span` of seconds: the date so
/// many whole days before, where it is one of the years -9999 to 9999. A span of
/// more days than there are from the first day of all to 1970 is refused.
#[verifier::external_body]
fn civil_back(year: i16, month: i8, day: i8, seconds: u64) -> (r: Option<Date>)
    requires
        valid_date(year as int, month as int, day as int),
        seconds <= MAX_SPAN,
    ensures
        ({
            let number = number_back((Date { year, month, day }), seconds);
            match r {
                Some(d) => d.valid() && d.number() == number && seconds / 86400 <= 4371587,
                None => !number_in_range(number) || seconds / 86400 > 4371587,
            }
        }),
{
    let span = jiff::Span::new().seconds(seconds as i64);
    let d = jiff::civil::date(year, month, day).checked_sub(span).ok()?;
    Some(Date { year: d.year(), month: d.month(), day: d.day() })
}

/// `chrono::DateTime::from_timestamp` and `chrono::DateTime::to_rfc3339` of the
/// result: the date and the time in UTC. From the year 0 on
/// `chrono::DateTime::parse_from_rfc3339` reads the same instant back.
#[verifier::external_body]
fn chrono_text(second: i64, nano: u32) -> (r: String)
    requires
        second_in_range(second as int),
        nano < 1_000_000_000,
    ensures
        r@ == rfc3339_text(second as int, nano as int),
        second >= YEAR_ZERO ==> rfc3339_parts(r@) == Some((second as int, nano as int)),
{
    chrono::DateTime::from_timestamp(second, nano).unwrap().to_rfc3339()
}

/// `chrono::DateTime::parse_from_rfc3339`: the second and the nanoseconds of the
/// instant that a text in RFC 3339 stands for. Which texts it reads is not stated.
#[verifier::external_body]
fn chrono_parse(s: &str) -> (r: Option<(i64, u32)>)
    ensures
        match r {
            Some((second, nano)) => rfc3339_parts(s@) == Some((second as int, nano as int)),
            None => rfc3339_parts(s@) is None,
        },
{
    let d = chrono::DateTime::parse_from_rfc3339(s).ok()?;
    Some((d.timestamp(), d.timestamp_subsec_nanos()))
}

/// `jiff::Zoned::now`: the year that the system's clock and time zone show. Only
/// the range of the years is stated.
#[verifier::external_body]
pub(crate) fn current_year() -> (r: i16)
    ensures
        -9999 <= r <= 9999,
{
    jiff::Zoned::now().year()
}

// ---------------------------------------------------------------------------
// Dates and instants
// ---------------------------------------------------------------------------

impl Date {
    /// The date of that year, month and day, where there is one.
    pub fn new(year: i16, month: i8, day: i8) -> (r: Option<Date>)
        ensures
            match r {
                Some(d) => d == (Date { year, month, day }) && d.valid(),
                None => !valid_date(year as int, month as int, day as int),
            },
    {
        if civil_date(year, month, day) {
            Some(Date { year, month, day })
        } else {
            None
        }
    }

    /// The last second of the date in UTC, where an instant may have it.
    pub fn last_second(self) -> (r: Option<Timestamp>)
        requires
            self.valid(),
        ensures
            match r {
                Some(t) => t.nanos == (self.number() * 86400 + 86399) * SECOND && t.valid(),
                None => !second_in_range(self.number() * 86400 + 86399),
            },
    {
        match zoned_second(self, 23, 59, 59) {
            Some(s) => Some(Timestamp { nanos: s as i128 * SECOND }),
            None => None,
        }
    }

    /// The date so many whole days of the given seconds before, where there is one.
    pub fn back(self, seconds: u64) -> (r: Option<Date>)
        requires
            self.valid(),
            seconds <= MAX_SPAN,
        ensures
            match r {
                Some(d) => d.valid() && d.number() == number_back(self, seconds) && seconds / 86400
                    <= 4371587,
                None => !number_in_range(number_back(self, seconds)) || seconds / 86400 > 4371587,
            },
    {
        civil_back(self.year, self.month, self.day, seconds)
    }

    /// Whether the date comes before another.
    pub fn is_before(self, other: Date) -> (r: bool)
        ensures
            r == before(self, other),
    {
        self.year < other.year || (self.year == other.year && (self.month < other.month || (
        self.month == other.month && self.day < other.day)))
    }

    /// The day of the year, such as `Jan 03`.
    pub fn day_text(self) -> (r: String)
        requires
            self.valid(),
        ensures
            r@ == day_text(self),
    {
        strftime_day(self.year, self.month, self.day)
    }

    /// The date in digits, such as `2025-01-03`.
    pub fn iso_text(self) -> (r: String)
        requires
            self.valid(),
        ensures
            r@ == iso_text(self),
    {
        strftime_iso(self.year, self.month, self.day)
    }

    /// The date as month, day and year.
    pub fn text(self) -> (r: String)
        requires
            self.valid(),
        ensures
            r@ == date_text(self),
    {
        strftime_date(self.year, self.month, self.day)
    }
}

impl Timestamp {
    /// The instant at that second since 1970, where there is one.
    pub fn from_second(second: i64) -> (r: Option<Timestamp>)
        ensures
            match r {
                Some(t) => t.nanos == second * SECOND && t.valid() && second_in_range(
                    second as int,
                ),
                None => !second_in_range(second as int),
            },
    {
        if -377705023201 <= second && second <= 253402207200 {
            Some(Timestamp { nanos: second as i128 * SECOND })
        } else {
            None
        }
    }

    /// The date of the instant in UTC.
    pub fn utc_date(self) -> (r: Date)
        requires
            self.valid(),
        ensures
            r == self.date(),
            r.valid(),
            r.number() == day_of(self.nanos as int),
    {
        let r = zoned_date(self.nanos);
        proof {
            lemma_day_number_injective(r, self.date());
        }
        r
    }

    /// The hour and the minute of the day in UTC.
    pub fn clock_text(self) -> (r: String)
        requires
            self.valid(),
        ensures
            r@ == clock_text(self),
    {
        strftime_clock(self.nanos)
    }

    /// The whole seconds since 1970, rounded toward zero.
    pub fn as_second(self) -> (r: i64)
        requires
            self.valid(),
        ensures
            r == self.second(),
    {
        if self.nanos >= 0 {
            (self.nanos / SECOND) as i64
        } else {
            (-((-self.nanos) / SECOND)) as i64
        }
    }

    /// The instant as date and time in UTC. From the year 0 on it can be read back.
    pub fn to_rfc3339(self) -> (r: String)
        requires
            self.valid(),
        ensures
            r@ == rfc3339_text(
                self.nanos as int / SECOND as int,
                self.nanos as int % SECOND as int,
            ),
            self.nanos >= YEAR_ZERO * SECOND ==> rfc3339_instant(r@) == Some(self),
    {
        let mut second: i64 = (self.nanos / SECOND) as i64;
        let mut nano: i64 = (self.nanos % SECOND) as i64;
        if nano < 0 {
            second -= 1;
            nano += 1_000_000_000;
        }
        chrono_text(second, nano as u32)
    }

    /// The instant that a date and time stands for, where it is one that can be
    /// shown as a date.
    pub fn from_rfc3339(s: &str) -> (r: Option<Timestamp>)
        ensures
            r == rfc3339_instant(s@),
            r is Some ==> r->0.valid(),
    {
        match chrono_parse(s) {
            Some((second, nano)) => {
                let nanos = second as i128 * SECOND + nano as i128;
                if -377705023201 * SECOND <= nanos && nanos < 253402207201 * SECOND {
                    Some(Timestamp { nanos })
                } else {
                    None
                }
            },
            None => None,
        }
    }
}

// ---------------------------------------------------------------------------
// Laws
// ---------------------------------------------------------------------------

/// A date comes before another where its day has the smaller number.
pub proof fn law_before_is_earlier(a: Date, b: Date)
    requires
        a.valid(),
        b.valid(),
    ensures
        before(a, b) <==> a.number() < b.number(),
{
    if before(a, b) {
        lemma_day_number_order(a, b);
    } else if before(b, a) {
        lemma_day_number_order(b, a);
    } else {
        assert(a == b);
    }
}

} // verus!
