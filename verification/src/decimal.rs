//! Decimal numerals.
use vstd::prelude::*;
use vstd::slice::slice_subrange;

use crate::text::append;
use crate::unicode::{ascii_digit, is_ascii_digit};

verus! {

/// The ASCII digit of a number below ten.
pub open spec fn digit_char(d: int) -> char {
    (('0' as u32 + d) as u32) as char
}

/// The decimal digits of `n`, with no leading zeros.
pub open spec fn decimal(n: int) -> Seq<char>
    decreases n,
{
    if n < 10 {
        seq![digit_char(n)]
    } else {
        decimal(n / 10).push(digit_char(n % 10))
    }
}

/// The decimal numeral of an integer.
pub open spec fn numeral(n: int) -> Seq<char> {
    if n < 0 {
        seq!['-'] + decimal(-n)
    } else {
        decimal(n)
    }
}

/// The decimal digits of `n`, filled up with leading zeros to `width` characters.
pub open spec fn padded(n: int, width: int) -> Seq<char> {
    let d = decimal(n);
    if d.len() >= width {
        d
    } else {
        Seq::new((width - d.len()) as nat, |i: int| '0') + d
    }
}

pub open spec fn all_digits(s: Seq<char>) -> bool {
    forall|i: int| 0 <= i < s.len() ==> ascii_digit(#[trigger] s[i])
}

/// The number that a sequence of ASCII digits stands for.
pub open spec fn digits_value(s: Seq<char>) -> int
    decreases s.len(),
{
    if s.len() == 0 {
        0
    } else {
        digits_value(s.drop_last()) * 10 + (s.last() as u32 - '0' as u32)
    }
}

/// What `str::parse` reads as an unsigned integer of at most `max`: an optional
/// plus sign and at least one ASCII digit.
pub open spec fn unsigned_value(s: Seq<char>, max: int) -> Option<int> {
    let digits = if s.len() > 0 && s[0] == '+' {
        s.skip(1)
    } else {
        s
    };
    if digits.len() > 0 && all_digits(digits) && digits_value(digits) <= max {
        Some(digits_value(digits))
    } else {
        None
    }
}

/// What `str::parse` reads as a signed integer from `min` to `max`: an optional
/// sign and at least one ASCII digit.
pub open spec fn signed_value(s: Seq<char>, min: int, max: int) -> Option<int> {
    let negative = s.len() > 0 && s[0] == '-';
    let digits = if s.len() > 0 && (s[0] == '+' || s[0] == '-') {
        s.skip(1)
    } else {
        s
    };
    let value = if negative {
        -digits_value(digits)
    } else {
        digits_value(digits)
    };
    if digits.len() > 0 && all_digits(digits) && min <= value <= max {
        Some(value)
    } else {
        None
    }
}

// ---------------------------------------------------------------------------
// Lemmas
// ---------------------------------------------------------------------------

pub proof fn lemma_digits_value_nonneg(s: Seq<char>)
    requires
        all_digits(s),
    ensures
        digits_value(s) >= 0,
    decreases s.len(),
{
    if s.len() > 0 {
        lemma_digits_value_nonneg(s.drop_last());
        assert(ascii_digit(s[s.len() - 1]));
    }
}

/// More digits make no smaller number.
pub proof fn lemma_digits_value_grows(s: Seq<char>, i: int)
    requires
        all_digits(s),
        0 <= i <= s.len(),
    ensures
        digits_value(s.take(i)) <= digits_value(s),
    decreases s.len() - i,
{
    if i < s.len() {
        let t = s.take(i + 1);
        lemma_digits_value_grows(s, i + 1);
        assert(t.drop_last() =~= s.take(i));
        assert(ascii_digit(s[i]));
        assert(all_digits(s.take(i)));
        lemma_digits_value_nonneg(s.take(i));
        assert(t.last() == s[i]);
    } else {
        assert(s.take(i) =~= s);
    }
}

/// The digits of a number are ASCII digits and stand for that number.
pub proof fn lemma_decimal(n: int)
    requires
        0 <= n,
    ensures
        decimal(n).len() > 0,
        all_digits(decimal(n)),
        digits_value(decimal(n)) == n,
    decreases n,
{
    if n >= 10 {
        lemma_decimal(n / 10);
        let d = decimal(n / 10);
        assert(decimal(n).drop_last() =~= d);
        assert(decimal(n).last() == digit_char(n % 10));
    } else {
        let d = decimal(n);
        assert(d.drop_last() =~= Seq::<char>::empty());
        assert(digits_value(d.drop_last()) == 0);
        assert(d.last() == digit_char(n));
    }
}

/// The digits of a number below ten thousand.
pub proof fn lemma_decimal_len(n: int)
    requires
        0 <= n < 10000,
    ensures
        n < 10 ==> decimal(n).len() == 1,
        10 <= n < 100 ==> decimal(n).len() == 2,
        100 <= n < 1000 ==> decimal(n).len() == 3,
        1000 <= n ==> decimal(n).len() == 4,
{
    reveal_with_fuel(decimal, 5);
}

/// Leading zeros do not change a number.
proof fn lemma_leading_zeros(zeros: nat, d: Seq<char>)
    requires
        all_digits(d),
    ensures
        all_digits(Seq::new(zeros, |i: int| '0') + d),
        digits_value(Seq::new(zeros, |i: int| '0') + d) == digits_value(d),
    decreases zeros + d.len(),
{
    let z = Seq::new(zeros, |i: int| '0');
    let s = z + d;
    if d.len() > 0 {
        lemma_leading_zeros(zeros, d.drop_last());
        assert(s.drop_last() =~= z + d.drop_last());
        assert(ascii_digit(d[d.len() - 1]));
        assert forall|i: int| 0 <= i < s.len() implies ascii_digit(#[trigger] s[i]) by {
            if i >= zeros {
                assert(s[i] == d[i - zeros]);
            }
        }
    } else if zeros > 0 {
        lemma_leading_zeros((zeros - 1) as nat, d);
        assert(s.drop_last() =~= Seq::new((zeros - 1) as nat, |i: int| '0') + d);
    }
}

/// A number in `width` digits reads back as that number.
pub proof fn lemma_padded(n: int, width: int)
    requires
        0 <= n,
        decimal(n).len() <= width,
    ensures
        padded(n, width).len() == width,
        all_digits(padded(n, width)),
        digits_value(padded(n, width)) == n,
{
    lemma_decimal(n);
    lemma_leading_zeros((width - decimal(n).len()) as nat, decimal(n));
    if decimal(n).len() < width {
    } else {
        assert(padded(n, width) =~= decimal(n));
    }
}

/// Reading back what was written, for an unsigned integer.
pub proof fn lemma_unsigned_round_trip(n: int, max: int)
    requires
        0 <= n <= max,
    ensures
        unsigned_value(decimal(n), max) == Some(n),
{
    lemma_decimal(n);
    assert(ascii_digit(decimal(n)[0]));
}

/// Reading back what was written, for a signed integer.
pub proof fn lemma_signed_round_trip(n: int, min: int, max: int)
    requires
        min <= n <= max,
    ensures
        signed_value(numeral(n), min, max) == Some(n),
{
    if n < 0 {
        lemma_decimal(-n);
        assert(numeral(n).skip(1) =~= decimal(-n));
    } else {
        lemma_decimal(n);
        assert(ascii_digit(decimal(n)[0]));
    }
}

// ---------------------------------------------------------------------------
// Writing
// ---------------------------------------------------------------------------

/// Appends the decimal digits of `n`.
pub fn append_decimal(out: &mut Vec<char>, n: u128)
    ensures
        final(out)@ == old(out)@ + decimal(n as int),
    decreases n,
{
    if n >= 10 {
        append_decimal(out, n / 10);
    }
    let d: u8 = (n % 10) as u8;
    out.push((48u8 + d) as char);
    assert((48u8 + d) as char == digit_char(n as int % 10));
    assert(out@ =~= old(out)@ + decimal(n as int));
}

/// Appends the numeral of `n`.
pub fn append_numeral(out: &mut Vec<char>, n: i128)
    requires
        n > i128::MIN,
    ensures
        final(out)@ == old(out)@ + numeral(n as int),
{
    if n < 0 {
        out.push('-');
        append_decimal(out, (-n) as u128);
        assert(out@ =~= old(out)@ + numeral(n as int));
    } else {
        append_decimal(out, n as u128);
    }
}

/// Appends the decimal digits of `n`, filled up with zeros to `width` characters.
pub fn append_padded(out: &mut Vec<char>, n: u128, width: usize)
    ensures
        final(out)@ == old(out)@ + padded(n as int, width as int),
{
    let mut digits: Vec<char> = Vec::new();
    append_decimal(&mut digits, n);
    assert(digits@ =~= decimal(n as int));
    let len = digits.len();
    let mut i: usize = len;
    while i < width
        invariant
            digits@ == decimal(n as int),
            len == digits.len(),
            i <= width || i == len,
            len <= i,
            out@ == old(out)@ + Seq::new((i - len) as nat, |i: int| '0'),
        decreases width - i,
    {
        out.push('0');
        i += 1;
        assert(out@ =~= old(out)@ + Seq::new((i - len) as nat, |i: int| '0'));
    }
    append(out, digits.as_slice());
    assert(out@ =~= old(out)@ + padded(n as int, width as int));
}

// ---------------------------------------------------------------------------
// Reading
// ---------------------------------------------------------------------------

/// The number that a sequence of ASCII digits stands for, where it holds at
/// least one, no other character, and is at most `max`.
fn parse_digits(s: &[char], max: u64) -> (r: Option<u64>)
    ensures
        match r {
            Some(v) => s.len() > 0 && all_digits(s@) && v == digits_value(s@) && v <= max,
            None => !(s.len() > 0 && all_digits(s@) && digits_value(s@) <= max),
        },
{
    if s.len() == 0 {
        return None;
    }
    let mut v: u64 = 0;
    let mut i: usize = 0;
    while i < s.len()
        invariant
            i <= s.len(),
            all_digits(s@.take(i as int)),
            v == digits_value(s@.take(i as int)),
            v <= max,
        decreases s.len() - i,
    {
        let c = s[i];
        if !is_ascii_digit(c) {
            return None;
        }
        let d: u64 = (c as u32 - 48) as u64;
        proof {
            assert(s@.take(i + 1).drop_last() =~= s@.take(i as int));
            assert(s@.take(i + 1).last() == c);
            if all_digits(s@) {
                lemma_digits_value_grows(s@, i + 1);
            }
        }
        let wide: u128 = v as u128 * 10 + d as u128;
        if wide > max as u128 {
            return None;
        }
        v = wide as u64;
        i += 1;
    }
    assert(s@.take(s@.len() as int) =~= s@);
    Some(v)
}

/// What `str::parse::<u64>` reads.
pub fn parse_u64(s: &[char]) -> (r: Option<u64>)
    ensures
        match r {
            Some(v) => unsigned_value(s@, u64::MAX as int) == Some(v as int),
            None => unsigned_value(s@, u64::MAX as int) is None,
        },
{
    if s.len() > 0 && s[0] == '+' {
        let rest = slice_subrange(s, 1, s.len());
        assert(rest@ =~= s@.skip(1));
        parse_digits(rest, u64::MAX)
    } else {
        parse_digits(s, u64::MAX)
    }
}

/// What `str::parse` reads as a signed integer from `-max - 1` to `max`.
fn parse_signed(s: &[char], max: i64) -> (r: Option<i64>)
    requires
        0 <= max,
    ensures
        match r {
            Some(v) => signed_value(s@, -max - 1, max as int) == Some(v as int),
            None => signed_value(s@, -max - 1, max as int) is None,
        },
{
    let negative = s.len() > 0 && s[0] == '-';
    let signed = s.len() > 0 && (s[0] == '+' || s[0] == '-');
    let start: usize = if signed {
        1
    } else {
        0
    };
    let rest = slice_subrange(s, start, s.len());
    proof {
        if signed {
            assert(rest@ =~= s@.skip(1));
        } else {
            assert(rest@ =~= s@);
        }
        if all_digits(rest@) {
            lemma_digits_value_nonneg(rest@);
        }
    }
    let limit: u64 = if negative {
        max as u64 + 1
    } else {
        max as u64
    };
    match parse_digits(rest, limit) {
        None => None,
        Some(v) => if negative {
            Some((-(v as i128)) as i64)
        } else {
            Some(v as i64)
        },
    }
}

/// What `str::parse::<i64>` reads.
pub fn parse_i64(s: &[char]) -> (r: Option<i64>)
    ensures
        match r {
            Some(v) => signed_value(s@, i64::MIN as int, i64::MAX as int) == Some(v as int),
            None => signed_value(s@, i64::MIN as int, i64::MAX as int) is None,
        },
{
    parse_signed(s, i64::MAX)
}

/// What `str::parse::<i32>` reads.
pub fn parse_i32(s: &[char]) -> (r: Option<i32>)
    ensures
        match r {
            Some(v) => signed_value(s@, i32::MIN as int, i32::MAX as int) == Some(v as int),
            None => signed_value(s@, i32::MIN as int, i32::MAX as int) is None,
        },
{
    match parse_signed(s, i32::MAX as i64) {
        None => None,
        Some(v) => Some(v as i32),
    }
}

/// What `str::parse::<i16>` reads.
pub fn parse_i16(s: &[char]) -> (r: Option<i16>)
    ensures
        match r {
            Some(v) => signed_value(s@, i16::MIN as int, i16::MAX as int) == Some(v as int),
            None => signed_value(s@, i16::MIN as int, i16::MAX as int) is None,
        },
{
    match parse_signed(s, i16::MAX as i64) {
        None => None,
        Some(v) => Some(v as i16),
    }
}

/// What `str::parse::<i8>` reads.
pub fn parse_i8(s: &[char]) -> (r: Option<i8>)
    ensures
        match r {
            Some(v) => signed_value(s@, i8::MIN as int, i8::MAX as int) == Some(v as int),
            None => signed_value(s@, i8::MIN as int, i8::MAX as int) is None,
        },
{
    match parse_signed(s, i8::MAX as i64) {
        None => None,
        Some(v) => Some(v as i8),
    }
}

} // verus!
