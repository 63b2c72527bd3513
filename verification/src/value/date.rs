//! The `WARC-Date` value type.
//!
//! The standard gives the field a different grammar in each of its versions, so a value is parsed
//! and serialized against a [`WarcVersion`] rather than on its own.

use crate::octets::{
    append, ascii_string, ascii_text, decimal, decimal_octets, decimal_value, is_ascii, is_decimal,
    is_digit, is_visible, lemma_decimal, octets, parse_decimal,
};
use crate::version::WarcVersion;
use vstd::prelude::*;
use vstd::slice::slice_subrange;

verus! {

/// The days of a month of the proleptic Gregorian calendar.
pub open spec fn days_in_month(year: int, month: int) -> int {
    if month == 2 {
        if year % 4 == 0 && (year % 100 != 0 || year % 400 == 0) {
            29
        } else {
            28
        }
    } else if month == 4 || month == 6 || month == 9 || month == 11 {
        30
    } else {
        31
    }
}

/// Whether a date is one of the calendar, in a year that can be represented.
pub open spec fn is_calendar_date(year: int, month: int, day: int) -> bool {
    -262143 <= year <= 262142 && 1 <= month <= 12 && 1 <= day <= days_in_month(year, month)
}

/// Whether a date is one of the calendar.
///
/// Calls `chrono::NaiveDate::from_ymd_opt`, which refuses months and days that the proleptic
/// Gregorian calendar does not have, and years outside of the range it can represent.
#[verifier::external_body]
fn calendar_date(year: i32, month: u32, day: u32) -> (r: bool)
    ensures
        r == is_calendar_date(year as int, month as int, day as int),
{
    chrono::NaiveDate::from_ymd_opt(year, month, day).is_some()
}

/// An instant in UTC, by its calendar date and time of day.
#[derive(Clone, Copy, Debug, Hash, PartialEq, Eq, Structural)]
pub struct UtcDateTime {
    year: i32,
    month: u32,
    day: u32,
    hour: u32,
    minute: u32,
    second: u32,
    nanosecond: u32,
}

/// What a [`UtcDateTime`] says.
pub struct Civil {
    pub year: int,
    pub month: int,
    pub day: int,
    pub hour: int,
    pub minute: int,
    pub second: int,
    pub nanosecond: int,
}

/// Whether the parts are a date of the calendar and a time of a day.
///
/// The nanoseconds from 1,000,000,000 on are those of a leap second behind the second.
pub open spec fn is_civil(c: Civil) -> bool {
    is_calendar_date(c.year, c.month, c.day) && 0 <= c.hour <= 23 && 0 <= c.minute <= 59 && 0
        <= c.second <= 59 && 0 <= c.nanosecond < 2_000_000_000
}

/// Whether an instant lies in a leap second.
pub open spec fn in_leap_second(c: Civil) -> bool {
    c.nanosecond >= 1_000_000_000
}

impl View for UtcDateTime {
    type V = Civil;

    closed spec fn view(&self) -> Civil {
        Civil {
            year: self.year as int,
            month: self.month as int,
            day: self.day as int,
            hour: self.hour as int,
            minute: self.minute as int,
            second: self.second as int,
            nanosecond: self.nanosecond as int,
        }
    }
}

impl UtcDateTime {
    #[verifier::type_invariant]
    spec fn is_valid(&self) -> bool {
        is_civil(self@)
    }

    /// The instant with the given parts, or `None` where they are not a date of the calendar and
    /// a time of a day.
    ///
    /// An instant in a leap second has the second before it, and 1,000,000,000 nanoseconds or more.
    pub fn new(
        year: i32,
        month: u32,
        day: u32,
        hour: u32,
        minute: u32,
        second: u32,
        nanosecond: u32,
    ) -> (r: Option<Self>)
        ensures
            ({
                let parts = Civil {
                    year: year as int,
                    month: month as int,
                    day: day as int,
                    hour: hour as int,
                    minute: minute as int,
                    second: second as int,
                    nanosecond: nanosecond as int,
                };
                match r {
                    Some(instant) => is_civil(parts) && instant@ == parts,
                    None => !is_civil(parts),
                }
            }),
    {
        if calendar_date(year, month, day) && hour <= 23 && minute <= 59 && second <= 59
            && nanosecond < 2_000_000_000 {
            Some(UtcDateTime { year, month, day, hour, minute, second, nanosecond })
        } else {
            None
        }
    }

    /// The year.
    pub fn year(self) -> (r: i32)
        ensures
            r == self@.year,
    {
        self.year
    }

    /// The month, from 1.
    pub fn month(self) -> (r: u32)
        ensures
            r == self@.month,
    {
        self.month
    }

    /// The day of the month, from 1.
    pub fn day(self) -> (r: u32)
        ensures
            r == self@.day,
    {
        self.day
    }

    /// The hour of the day.
    pub fn hour(self) -> (r: u32)
        ensures
            r == self@.hour,
    {
        self.hour
    }

    /// The minute of the hour.
    pub fn minute(self) -> (r: u32)
        ensures
            r == self@.minute,
    {
        self.minute
    }

    /// The second of the minute.
    pub fn second(self) -> (r: u32)
        ensures
            r == self@.second,
    {
        self.second
    }

    /// The nanosecond of the second, 1,000,000,000 or more in a leap second.
    pub fn nanosecond(self) -> (r: u32)
        ensures
            r == self@.nanosecond,
    {
        self.nanosecond
    }
}

/// The precision carried by a [`WarcDate`].
#[derive(Clone, Copy, Debug, Hash, PartialEq, Eq, Structural)]
pub enum WarcDatePrecision {
    /// Year precision, serialized as `YYYY` in WARC 1.1.
    Year,
    /// Month precision, serialized as `YYYY-MM` in WARC 1.1.
    Month,
    /// Day precision, serialized as `YYYY-MM-DD` in WARC 1.1.
    Day,
    /// Minute precision, serialized as `YYYY-MM-DDThh:mmZ` in WARC 1.1.
    Minute,
    /// Second precision, serialized as `YYYY-MM-DDThh:mm:ssZ`.
    Second,
    /// Fractional-second precision with the given number of decimal digits, from one to nine.
    Fraction(u8),
}

/// A number in `width` digits, with zeros before it.
pub open spec fn padded(n: nat, width: nat) -> Seq<u8>
    decreases width,
{
    if width == 0 {
        Seq::empty()
    } else {
        padded(n / 10, (width - 1) as nat).push((0x30 + n % 10) as u8)
    }
}

/// So many zeros.
pub open spec fn zeros(n: int) -> Seq<u8> {
    Seq::new(n as nat, |i: int| 0x30u8)
}

/// The nanoseconds that the first digits of a fraction of a second stand for.
pub open spec fn fraction_value(digits: Seq<u8>) -> nat {
    decimal_value(digits + zeros(9 - digits.len()))
}

/// How many digits there are without the zeros that close them.
pub open spec fn significant(s: Seq<u8>) -> nat
    decreases s.len(),
{
    if s.len() > 0 && s.last() == 0x30 {
        significant(s.drop_last())
    } else {
        s.len()
    }
}

/// A precision with a number of digits that the grammar has.
pub open spec fn clamped(precision: WarcDatePrecision) -> WarcDatePrecision {
    match precision {
        WarcDatePrecision::Fraction(digits) => if digits < 1 {
            WarcDatePrecision::Fraction(1)
        } else if digits > 9 {
            WarcDatePrecision::Fraction(9)
        } else {
            precision
        },
        _ => precision,
    }
}

/// Ten to a power.
pub open spec fn ten_to(n: nat) -> nat
    decreases n,
{
    if n == 0 {
        1
    } else {
        10 * ten_to((n - 1) as nat)
    }
}

/// Nanoseconds rounded down to what so many digits of a fraction of a second can spell.
pub open spec fn rounded_down(nanosecond: int, digits: int) -> int {
    let unit = ten_to((9 - digits) as nat) as int;
    (nanosecond / unit) * unit
}

/// The earliest instant that is the same as another up to a precision.
pub open spec fn truncated(c: Civil, precision: WarcDatePrecision) -> Civil {
    match precision {
        WarcDatePrecision::Year => Civil {
            year: c.year,
            month: 1,
            day: 1,
            hour: 0,
            minute: 0,
            second: 0,
            nanosecond: 0,
        },
        WarcDatePrecision::Month => Civil {
            year: c.year,
            month: c.month,
            day: 1,
            hour: 0,
            minute: 0,
            second: 0,
            nanosecond: 0,
        },
        WarcDatePrecision::Day => Civil {
            year: c.year,
            month: c.month,
            day: c.day,
            hour: 0,
            minute: 0,
            second: 0,
            nanosecond: 0,
        },
        WarcDatePrecision::Minute => Civil { second: 0, nanosecond: 0, ..c },
        WarcDatePrecision::Second => Civil { nanosecond: 0, ..c },
        WarcDatePrecision::Fraction(digits) => Civil {
            nanosecond: rounded_down(c.nanosecond, digits as int),
            ..c
        },
    }
}

/// A WARC date and the precision of its serialized representation.
///
/// WARC 1.0 always serializes this value at second precision. WARC 1.1 preserves the
/// precision of parsed values. Converting from [`UtcDateTime`] uses the shortest fractional
/// representation that preserves the instant; [`new`](Self::new) accepts an explicit precision.
#[derive(Clone, Copy, Debug, Hash, PartialEq, Eq, Structural)]
pub struct WarcDate {
    date_time: UtcDateTime,
    precision: WarcDatePrecision,
}

/// What a [`WarcDate`] says.
pub struct Date {
    /// The earliest instant of the date.
    pub instant: Civil,
    /// The precision that it is written at.
    pub precision: WarcDatePrecision,
}

impl View for WarcDate {
    type V = Date;

    closed spec fn view(&self) -> Date {
        Date { instant: self.date_time@, precision: self.precision }
    }
}

/// Whether a date holds no more than its precision says, at a precision that the grammar has.
pub open spec fn is_date(d: Date) -> bool {
    is_civil(d.instant) && clamped(d.precision) == d.precision && truncated(d.instant, d.precision)
        == d.instant
}

proof fn lemma_padded(n: nat, width: nat)
    requires
        n < ten_to(width),
    ensures
        padded(n, width).len() == width,
        decimal_value(padded(n, width)) == n,
        forall|i: int| 0 <= i < width ==> is_digit(#[trigger] padded(n, width)[i]),
    decreases width,
{
    if width > 0 {
        let shorter = padded(n / 10, (width - 1) as nat);
        lemma_padded(n / 10, (width - 1) as nat);
        let s = padded(n, width);
        assert(s.drop_last() =~= shorter);
        assert forall|i: int| 0 <= i < width implies is_digit(#[trigger] s[i]) by {
            if i < width - 1 {
                assert(s[i] == shorter[i]);
            }
        }
    }
}

proof fn lemma_padded_digits(n: nat, width: nat)
    ensures
        padded(n, width).len() == width,
        forall|i: int| 0 <= i < width ==> is_digit(#[trigger] padded(n, width)[i]),
    decreases width,
{
    if width > 0 {
        let shorter = padded(n / 10, (width - 1) as nat);
        lemma_padded_digits(n / 10, (width - 1) as nat);
        let s = padded(n, width);
        assert forall|i: int| 0 <= i < width implies is_digit(#[trigger] s[i]) by {
            if i < width - 1 {
                assert(s[i] == shorter[i]);
            }
        }
    }
}

/// Digits are the number they spell, in as many digits.
proof fn lemma_padded_value(s: Seq<u8>)
    requires
        forall|i: int| 0 <= i < s.len() ==> is_digit(#[trigger] s[i]),
    ensures
        padded(decimal_value(s), s.len()) == s,
        decimal_value(s) < ten_to(s.len()),
    decreases s.len(),
{
    if s.len() > 0 {
        let shorter = s.drop_last();
        assert forall|i: int| 0 <= i < shorter.len() implies is_digit(#[trigger] shorter[i]) by {
            assert(shorter[i] == s[i]);
        }
        lemma_padded_value(shorter);
        assert(is_digit(s[s.len() - 1]));
        assert(padded(decimal_value(s), s.len()) =~= s);
    } else {
        assert(padded(decimal_value(s), s.len()) =~= s);
    }
}

proof fn lemma_ten_to()
    ensures
        ten_to(2) == 100,
        ten_to(4) == 10_000,
        ten_to(9) == 1_000_000_000,
{
    reveal_with_fuel(ten_to, 10);
}

proof fn lemma_fraction_value(digits: Seq<u8>)
    requires
        digits.len() <= 9,
        forall|i: int| 0 <= i < digits.len() ==> is_digit(#[trigger] digits[i]),
    ensures
        fraction_value(digits) < 1_000_000_000,
        padded(fraction_value(digits), 9) == digits + zeros(9 - digits.len()),
        padded(fraction_value(digits), 9).take(digits.len() as int) == digits,
        rounded_down(fraction_value(digits) as int, digits.len() as int) == fraction_value(digits),
{
    let all = digits + zeros(9 - digits.len());
    assert forall|i: int| 0 <= i < all.len() implies is_digit(#[trigger] all[i]) by {
        if i < digits.len() {
            assert(all[i] == digits[i]);
        }
    }
    lemma_padded_value(all);
    lemma_ten_to();
    assert(all.take(digits.len() as int) =~= digits);
    let rest = (9 - digits.len()) as nat;
    lemma_zeros(digits, rest);
    lemma_ten_to_is_positive(rest);
    let unit = ten_to(rest) as int;
    let value = decimal_value(digits) as int;
    vstd::arithmetic::div_mod::lemma_div_multiples_vanish(value, unit);
    assert(value * unit == unit * value) by (nonlinear_arith);
}

/// Rounding down leaves no more than there was, and rounding again changes nothing.
proof fn lemma_rounded_down(nanosecond: int, digits: int)
    requires
        0 <= nanosecond,
    ensures
        0 <= rounded_down(nanosecond, digits) <= nanosecond,
        rounded_down(rounded_down(nanosecond, digits), digits) == rounded_down(nanosecond, digits),
{
    lemma_ten_to_is_positive((9 - digits) as nat);
    let unit = ten_to((9 - digits) as nat) as int;
    let kept = nanosecond / unit;
    assert(0 <= kept * unit <= nanosecond) by (nonlinear_arith)
        requires
            0 <= nanosecond,
            unit > 0,
            kept == nanosecond / unit,
    ;
    vstd::arithmetic::div_mod::lemma_div_multiples_vanish(kept, unit);
    assert(kept * unit == unit * kept) by (nonlinear_arith);
}

/// Truncating leaves a valid instant, and truncating again changes nothing.
pub proof fn lemma_truncated(c: Civil, precision: WarcDatePrecision)
    requires
        is_civil(c),
        clamped(precision) == precision,
    ensures
        is_civil(truncated(c, precision)),
        truncated(truncated(c, precision), precision) == truncated(c, precision),
{
    match precision {
        WarcDatePrecision::Fraction(digits) => {
            lemma_rounded_down(c.nanosecond, digits as int);
        },
        _ => {},
    }
}

/// Whether an instant is the same as another, or before it.
pub open spec fn not_after(a: Civil, b: Civil) -> bool {
    if a.year != b.year {
        a.year < b.year
    } else if a.month != b.month {
        a.month < b.month
    } else if a.day != b.day {
        a.day < b.day
    } else if a.hour != b.hour {
        a.hour < b.hour
    } else if a.minute != b.minute {
        a.minute < b.minute
    } else if a.second != b.second {
        a.second < b.second
    } else {
        a.nanosecond <= b.nanosecond
    }
}

/// The first digits of a number are those of what is left of it without the last.
proof fn lemma_leading_digits(n: nat, width: nat, digits: nat)
    requires
        digits <= width,
    ensures
        padded(n, width).take(digits as int) == padded(n / ten_to((width - digits) as nat), digits),
    decreases width - digits,
{
    lemma_padded_digits(n, width);
    if digits == width {
        assert(padded(n, width).take(digits as int) =~= padded(n, width));
        assert(ten_to(0) == 1);
        assert(n / 1 == n);
    } else {
        lemma_leading_digits(n / 10, (width - 1) as nat, digits);
        lemma_padded_digits(n / 10, (width - 1) as nat);
        let rest = ten_to((width - 1 - digits) as nat);
        lemma_ten_to_is_positive((width - 1 - digits) as nat);
        assert(padded(n, width).take(digits as int) =~= padded(n / 10, (width - 1) as nat).take(
            digits as int,
        ));
        vstd::arithmetic::div_mod::lemma_div_denominator(n as int, 10, rest as int);
        assert(ten_to((width - digits) as nat) == 10 * rest);
    }
}

proof fn lemma_ten_to_is_positive(n: nat)
    ensures
        ten_to(n) > 0,
    decreases n,
{
    if n > 0 {
        lemma_ten_to_is_positive((n - 1) as nat);
    }
}

/// Zeros behind digits stand for so many powers of ten.
proof fn lemma_zeros(s: Seq<u8>, n: nat)
    ensures
        decimal_value(s + zeros(n as int)) == decimal_value(s) * ten_to(n),
    decreases n,
{
    if n == 0 {
        assert(s + zeros(0) =~= s);
        let value = decimal_value(s);
        assert(ten_to(0) == 1);
        assert(value * 1 == value);
    } else {
        lemma_zeros(s, (n - 1) as nat);
        let all = s + zeros(n as int);
        assert(all.drop_last() =~= s + zeros(n - 1));
        assert(all.last() == 0x30);
        let value = decimal_value(s);
        let less = ten_to((n - 1) as nat);
        assert(10 * (value * less) == value * (10 * less)) by (nonlinear_arith);
    }
}

/// Keeping digits of a fraction of a second rounds it down to a multiple of what they stand for.
proof fn lemma_kept_digits(n: nat, digits: nat)
    requires
        n < 1_000_000_000,
        digits <= 9,
    ensures
        fraction_value(padded(n, 9).take(digits as int)) == rounded_down(n as int, digits as int),
{
    let unit = ten_to((9 - digits) as nat);
    lemma_ten_to_is_positive((9 - digits) as nat);
    lemma_leading_digits(n, 9, digits);
    lemma_padded_digits(n, 9);
    let s = padded(n, 9).take(digits as int);
    lemma_zeros(s, (9 - digits) as nat);
    lemma_ten_to();
    lemma_ten_to_splits(digits, (9 - digits) as nat);
    let left = n / unit;
    assert(left < ten_to(digits)) by (nonlinear_arith)
        requires
            n < ten_to(digits) * unit,
            unit > 0,
            left == n / unit,
    ;
    lemma_padded(left, digits);
}

proof fn lemma_ten_to_splits(a: nat, b: nat)
    ensures
        ten_to(a + b) == ten_to(a) * ten_to(b),
    decreases a,
{
    if a > 0 {
        lemma_ten_to_splits((a - 1) as nat, b);
        let x = ten_to((a - 1) as nat);
        let y = ten_to(b);
        assert(10 * (x * y) == (10 * x) * y) by (nonlinear_arith);
    } else {
        let y = ten_to(b);
        assert(ten_to(0) == 1);
        assert(1 * y == y);
    }
}

/// Truncating gives the greatest instant that a precision can spell and that is not after the one
/// truncated.
pub proof fn lemma_truncated_is_greatest(c: Civil, precision: WarcDatePrecision, other: Civil)
    requires
        is_civil(c),
        is_civil(other),
        clamped(precision) == precision,
    ensures
        not_after(truncated(c, precision), c),
        truncated(other, precision) == other && not_after(other, c) ==> not_after(
            other,
            truncated(c, precision),
        ),
{
    match precision {
        WarcDatePrecision::Fraction(digits) => {
            lemma_rounded_down(c.nanosecond, digits as int);
            lemma_ten_to_is_positive((9 - digits) as nat);
            let unit = ten_to((9 - digits) as nat) as int;
            let x = other.nanosecond;
            let y = c.nanosecond;
            if x <= y {
                assert((x / unit) * unit <= (y / unit) * unit) by (nonlinear_arith)
                    requires
                        x <= y,
                        unit > 0,
                ;
            }
        },
        _ => {},
    }
}

/// The year as it is written before a day: four digits at least, or a sign and three.
pub open spec fn plain_year(year: int) -> Seq<u8> {
    if 0 <= year <= 9999 {
        padded(year as nat, 4)
    } else if year > 9999 {
        decimal(year as nat)
    } else if year >= -999 {
        seq![0x2du8] + padded((-year) as nat, 3)
    } else {
        seq![0x2du8] + decimal((-year) as nat)
    }
}

/// The year as it is written before a time: four digits, or a sign and four at least.
pub open spec fn signed_year(year: int) -> Seq<u8> {
    if 0 <= year <= 9999 {
        padded(year as nat, 4)
    } else if year > 9999 {
        seq![0x2bu8] + decimal(year as nat)
    } else if year >= -9999 {
        seq![0x2du8] + padded((-year) as nat, 4)
    } else {
        seq![0x2du8] + decimal((-year) as nat)
    }
}

/// The day and the minute of an instant, as they are written.
pub open spec fn minute_octets(c: Civil) -> Seq<u8> {
    signed_year(c.year) + seq![0x2du8] + padded(c.month as nat, 2) + seq![0x2du8] + padded(
        c.day as nat,
        2,
    ) + seq![0x54u8] + padded(c.hour as nat, 2) + seq![0x3au8] + padded(c.minute as nat, 2)
}

/// The second of an instant as it is written: a leap second is the one behind its second.
pub open spec fn written_second(c: Civil) -> nat {
    (c.second + c.nanosecond / 1_000_000_000) as nat
}

/// The nanoseconds of an instant as they are written: nine digits, or the ten of a leap second.
pub open spec fn written_nanosecond(c: Civil) -> Seq<u8> {
    if in_leap_second(c) {
        padded(c.nanosecond as nat, 10)
    } else {
        padded(c.nanosecond as nat, 9)
    }
}

/// The day and the second of an instant, as they are written.
pub open spec fn second_octets(c: Civil) -> Seq<u8> {
    minute_octets(c) + seq![0x3au8] + padded(written_second(c), 2)
}

/// A date as a version of the standard writes it.
pub open spec fn date_octets(d: Date, version: WarcVersion) -> Seq<u8> {
    let c = d.instant;
    if version == WarcVersion::V1_0 {
        second_octets(c) + seq![0x5au8]
    } else {
        match d.precision {
            WarcDatePrecision::Year => plain_year(c.year),
            WarcDatePrecision::Month => plain_year(c.year) + seq![0x2du8] + padded(
                c.month as nat,
                2,
            ),
            WarcDatePrecision::Day => plain_year(c.year) + seq![0x2du8] + padded(c.month as nat, 2)
                + seq![0x2du8] + padded(c.day as nat, 2),
            WarcDatePrecision::Minute => minute_octets(c) + seq![0x5au8],
            WarcDatePrecision::Second => second_octets(c) + seq![0x5au8],
            WarcDatePrecision::Fraction(digits) => second_octets(c) + seq![0x2eu8]
                + written_nanosecond(c).take(digits as int) + seq![0x5au8],
        }
    }
}

/// Whether the octets at `from..to` are digits.
pub open spec fn digits_at(s: Seq<u8>, from: int, to: int) -> bool {
    forall|i: int| from <= i < to ==> is_digit(#[trigger] s[i])
}

/// The number that the digits at `from..to` spell.
pub open spec fn number_at(s: Seq<u8>, from: int, to: int) -> int {
    decimal_value(s.subrange(from, to)) as int
}

/// Whether the octets open with a date: `YYYY-MM-DD`.
pub open spec fn has_date(s: Seq<u8>) -> bool {
    s.len() >= 10 && digits_at(s, 0, 4) && s[4] == 0x2d && digits_at(s, 5, 7) && s[7] == 0x2d
        && digits_at(s, 8, 10)
}

/// Whether the octets open with a date and a time: `YYYY-MM-DDThh:mm`.
pub open spec fn has_minute(s: Seq<u8>) -> bool {
    s.len() >= 16 && has_date(s) && s[10] == 0x54 && digits_at(s, 11, 13) && s[13] == 0x3a
        && digits_at(s, 14, 16)
}

/// Whether the octets open with a date and a time with seconds: `YYYY-MM-DDThh:mm:ss`.
pub open spec fn has_second(s: Seq<u8>) -> bool {
    s.len() >= 19 && has_minute(s) && s[16] == 0x3a && digits_at(s, 17, 19)
}

/// The instant that the octets open with, where they have a part.
pub open spec fn instant_at(
    s: Seq<u8>,
    month: bool,
    day: bool,
    minute: bool,
    second: bool,
) -> Civil {
    Civil {
        year: number_at(s, 0, 4),
        month: if month {
            number_at(s, 5, 7)
        } else {
            1
        },
        day: if day {
            number_at(s, 8, 10)
        } else {
            1
        },
        hour: if minute {
            number_at(s, 11, 13)
        } else {
            0
        },
        minute: if minute {
            number_at(s, 14, 16)
        } else {
            0
        },
        second: if second {
            number_at(s, 17, 19)
        } else {
            0
        },
        nanosecond: 0,
    }
}

/// The date with an instant, where it is one of the calendar.
pub open spec fn checked(instant: Civil, precision: WarcDatePrecision) -> Option<Date> {
    if is_civil(instant) {
        Some(Date { instant, precision })
    } else {
        None
    }
}

/// The date that octets spell in the grammar of a version.
pub open spec fn date_of(s: Seq<u8>, version: WarcVersion) -> Option<Date> {
    let n = s.len();
    if n == 20 && s[19] == 0x5a && has_second(s) {
        checked(instant_at(s, true, true, true, true), WarcDatePrecision::Second)
    } else if version == WarcVersion::V1_0 {
        None
    } else if n == 4 && digits_at(s, 0, 4) {
        checked(instant_at(s, false, false, false, false), WarcDatePrecision::Year)
    } else if n == 7 && digits_at(s, 0, 4) && s[4] == 0x2d && digits_at(s, 5, 7) {
        checked(instant_at(s, true, false, false, false), WarcDatePrecision::Month)
    } else if n == 10 && has_date(s) {
        checked(instant_at(s, true, true, false, false), WarcDatePrecision::Day)
    } else if n == 17 && s[16] == 0x5a && has_minute(s) {
        checked(instant_at(s, true, true, true, false), WarcDatePrecision::Minute)
    } else if 22 <= n <= 30 && s[n - 1] == 0x5a && has_second(s) && s[19] == 0x2e && digits_at(
        s,
        20,
        n - 1,
    ) {
        checked(
            Civil {
                nanosecond: fraction_value(s.subrange(20, n - 1)) as int,
                ..instant_at(s, true, true, true, true)
            },
            WarcDatePrecision::Fraction((n - 21) as u8),
        )
    } else {
        None
    }
}

proof fn lemma_four_digits(s: Seq<u8>)
    requires
        s.len() == 4,
        forall|i: int| 0 <= i < 4 ==> is_digit(#[trigger] s[i]),
    ensures
        decimal_value(s) <= 9999,
{
    lemma_padded_value(s);
    lemma_ten_to();
}

proof fn lemma_digits_in_range(s: Seq<u8>, from: int, to: int)
    requires
        0 <= from <= to <= s.len(),
        digits_at(s, from, to),
    ensures
        forall|i: int| 0 <= i < to - from ==> is_digit(#[trigger] s.subrange(from, to)[i]),
{
    assert forall|i: int| 0 <= i < to - from implies is_digit(
        #[trigger] s.subrange(from, to)[i],
    ) by {
        assert(is_digit(s[from + i]));
    }
}

/// A date that is read holds no more than its precision says, in a year of four digits and outside
/// of a leap second.
pub proof fn lemma_read_date(s: Seq<u8>, version: WarcVersion)
    ensures
        date_of(s, version) matches Some(d) ==> is_date(d) && 0 <= d.instant.year <= 9999
            && !in_leap_second(d.instant),
{
    if s.len() >= 4 && digits_at(s, 0, 4) {
        lemma_digits_in_range(s, 0, 4);
        lemma_four_digits(s.subrange(0, 4));
    }
    let n = s.len() as int;
    if 22 <= n <= 30 && digits_at(s, 20, n - 1) {
        lemma_digits_in_range(s, 20, n - 1);
        lemma_fraction_value(s.subrange(20, n - 1));
    }
}

/// A date is read back from what a version writes, where the version writes all of it, its year
/// has four digits and it lies in no leap second, which the grammar has no second for.
pub proof fn lemma_date_reads_back(d: Date, version: WarcVersion)
    requires
        is_date(d),
        0 <= d.instant.year <= 9999,
        !in_leap_second(d.instant),
        version == WarcVersion::V1_1 || d.precision == WarcDatePrecision::Second,
    ensures
        date_of(date_octets(d, version), version) == Some(d),
{
    let c = d.instant;
    let s = date_octets(d, version);
    lemma_ten_to();
    lemma_padded(c.year as nat, 4);
    lemma_padded(c.month as nat, 2);
    lemma_padded(c.day as nat, 2);
    lemma_padded(c.hour as nat, 2);
    lemma_padded(c.minute as nat, 2);
    lemma_padded(c.second as nat, 2);
    lemma_padded(c.nanosecond as nat, 9);
    match d.precision {
        WarcDatePrecision::Fraction(digits) => {
            lemma_kept_digits(c.nanosecond as nat, digits as nat);
        },
        _ => {},
    }
    lemma_date_parts(d, version);
}

/// Where the parts of a written date stand.
#[verifier::spinoff_prover]
#[verifier::rlimit(60)]
proof fn lemma_date_parts(d: Date, version: WarcVersion)
    requires
        is_date(d),
        0 <= d.instant.year <= 9999,
        !in_leap_second(d.instant),
        version == WarcVersion::V1_1 || d.precision == WarcDatePrecision::Second,
        padded(d.instant.year as nat, 4).len() == 4,
        decimal_value(padded(d.instant.year as nat, 4)) == d.instant.year,
        forall|i: int| 0 <= i < 4 ==> is_digit(#[trigger] padded(d.instant.year as nat, 4)[i]),
        padded(d.instant.month as nat, 2).len() == 2,
        decimal_value(padded(d.instant.month as nat, 2)) == d.instant.month,
        forall|i: int| 0 <= i < 2 ==> is_digit(#[trigger] padded(d.instant.month as nat, 2)[i]),
        padded(d.instant.day as nat, 2).len() == 2,
        decimal_value(padded(d.instant.day as nat, 2)) == d.instant.day,
        forall|i: int| 0 <= i < 2 ==> is_digit(#[trigger] padded(d.instant.day as nat, 2)[i]),
        padded(d.instant.hour as nat, 2).len() == 2,
        decimal_value(padded(d.instant.hour as nat, 2)) == d.instant.hour,
        forall|i: int| 0 <= i < 2 ==> is_digit(#[trigger] padded(d.instant.hour as nat, 2)[i]),
        padded(d.instant.minute as nat, 2).len() == 2,
        decimal_value(padded(d.instant.minute as nat, 2)) == d.instant.minute,
        forall|i: int| 0 <= i < 2 ==> is_digit(#[trigger] padded(d.instant.minute as nat, 2)[i]),
        padded(d.instant.second as nat, 2).len() == 2,
        decimal_value(padded(d.instant.second as nat, 2)) == d.instant.second,
        forall|i: int| 0 <= i < 2 ==> is_digit(#[trigger] padded(d.instant.second as nat, 2)[i]),
        padded(d.instant.nanosecond as nat, 9).len() == 9,
        decimal_value(padded(d.instant.nanosecond as nat, 9)) == d.instant.nanosecond,
        forall|i: int|
            0 <= i < 9 ==> is_digit(#[trigger] padded(d.instant.nanosecond as nat, 9)[i]),
        d.precision matches WarcDatePrecision::Fraction(digits) ==> fraction_value(
            padded(d.instant.nanosecond as nat, 9).take(digits as int),
        ) == d.instant.nanosecond,
    ensures
        date_of(date_octets(d, version), version) == Some(d),
{
    let c = d.instant;
    let s = date_octets(d, version);
    let year = padded(c.year as nat, 4);
    assert(s.subrange(0, 4) =~= year);
    assert(digits_at(s, 0, 4)) by {
        assert forall|i: int| 0 <= i < 4 implies is_digit(#[trigger] s[i]) by {
            assert(s[i] == year[i]);
        }
    }
    if d.precision != WarcDatePrecision::Year {
        let month = padded(c.month as nat, 2);
        assert(s.subrange(5, 7) =~= month);
        assert(digits_at(s, 5, 7)) by {
            assert forall|i: int| 5 <= i < 7 implies is_digit(#[trigger] s[i]) by {
                assert(s[i] == month[i - 5]);
            }
        }
        if d.precision != WarcDatePrecision::Month {
            let day = padded(c.day as nat, 2);
            assert(s.subrange(8, 10) =~= day);
            assert(digits_at(s, 8, 10)) by {
                assert forall|i: int| 8 <= i < 10 implies is_digit(#[trigger] s[i]) by {
                    assert(s[i] == day[i - 8]);
                }
            }
            if d.precision != WarcDatePrecision::Day {
                let hour = padded(c.hour as nat, 2);
                let minute = padded(c.minute as nat, 2);
                assert(s.subrange(11, 13) =~= hour);
                assert(s.subrange(14, 16) =~= minute);
                assert(digits_at(s, 11, 13)) by {
                    assert forall|i: int| 11 <= i < 13 implies is_digit(#[trigger] s[i]) by {
                        assert(s[i] == hour[i - 11]);
                    }
                }
                assert(digits_at(s, 14, 16)) by {
                    assert forall|i: int| 14 <= i < 16 implies is_digit(#[trigger] s[i]) by {
                        assert(s[i] == minute[i - 14]);
                    }
                }
                if d.precision != WarcDatePrecision::Minute {
                    let second = padded(c.second as nat, 2);
                    assert(s.subrange(17, 19) =~= second);
                    assert(digits_at(s, 17, 19)) by {
                        assert forall|i: int| 17 <= i < 19 implies is_digit(#[trigger] s[i]) by {
                            assert(s[i] == second[i - 17]);
                        }
                    }
                    match d.precision {
                        WarcDatePrecision::Fraction(digits) => {
                            let taken = padded(c.nanosecond as nat, 9).take(digits as int);
                            let n = s.len() as int;
                            assert(n == 21 + digits);
                            assert(s.subrange(20, n - 1) =~= taken);
                            assert(digits_at(s, 20, n - 1)) by {
                                assert forall|i: int| 20 <= i < n - 1 implies is_digit(
                                    #[trigger] s[i],
                                ) by {
                                    assert(s[i] == taken[i - 20]);
                                    assert(taken[i - 20] == padded(c.nanosecond as nat, 9)[i
                                        - 20]);
                                }
                            }
                        },
                        _ => {},
                    }
                }
            }
        }
    }
}

/// Digits of a date are the number they spell, in as many digits.
proof fn lemma_digits_as_read(s: Seq<u8>, from: int, to: int)
    requires
        0 <= from <= to <= s.len(),
        digits_at(s, from, to),
    ensures
        padded(number_at(s, from, to) as nat, (to - from) as nat) == s.subrange(from, to),
{
    lemma_digits_in_range(s, from, to);
    lemma_padded_value(s.subrange(from, to));
}

/// A date is written as it was read, by either version.
#[verifier::spinoff_prover]
pub proof fn lemma_date_is_written_as_read(s: Seq<u8>, version: WarcVersion)
    ensures
        date_of(s, version) matches Some(d) ==> date_octets(d, version) == s,
{
    lemma_read_date(s, version);
    let n = s.len() as int;
    if date_of(s, version) is Some {
        let d = date_of(s, version)->0;
        lemma_digits_as_read(s, 0, 4);
        if d.precision != WarcDatePrecision::Year {
            lemma_digits_as_read(s, 5, 7);
        }
        if d.precision != WarcDatePrecision::Year && d.precision != WarcDatePrecision::Month {
            lemma_digits_as_read(s, 8, 10);
        }
        match d.precision {
            WarcDatePrecision::Year => {
                assert(date_octets(d, version) =~= s);
            },
            WarcDatePrecision::Month => {
                assert(date_octets(d, version) =~= s);
            },
            WarcDatePrecision::Day => {
                assert(date_octets(d, version) =~= s);
            },
            WarcDatePrecision::Minute => {
                lemma_digits_as_read(s, 11, 13);
                lemma_digits_as_read(s, 14, 16);
                assert(date_octets(d, version) =~= s);
            },
            WarcDatePrecision::Second => {
                lemma_digits_as_read(s, 11, 13);
                lemma_digits_as_read(s, 14, 16);
                lemma_digits_as_read(s, 17, 19);
                assert(written_second(d.instant) == number_at(s, 17, 19));
                assert(date_octets(d, version) =~= s);
            },
            WarcDatePrecision::Fraction(digits) => {
                lemma_digits_as_read(s, 11, 13);
                lemma_digits_as_read(s, 14, 16);
                lemma_digits_as_read(s, 17, 19);
                lemma_digits_in_range(s, 20, n - 1);
                lemma_fraction_value(s.subrange(20, n - 1));
                assert(written_second(d.instant) == number_at(s, 17, 19));
                assert(date_octets(d, version) =~= s);
            },
        }
    }
}

/// WARC 1.0 reads exactly the dates of WARC 1.1 that are to the second, and as the same.
pub proof fn lemma_versions_agree_on_seconds(s: Seq<u8>)
    ensures
        date_of(s, WarcVersion::V1_0) == match date_of(s, WarcVersion::V1_1) {
            Some(d) => if d.precision == WarcDatePrecision::Second {
                Some(d)
            } else {
                None
            },
            None => None,
        },
{
}

/// A number in so many digits.
fn padded_octets(n: u32, width: usize) -> (r: Vec<u8>)
    ensures
        r@ == padded(n as nat, width as nat),
    decreases width,
{
    if width == 0 {
        let out: Vec<u8> = Vec::new();
        assert(out@ =~= Seq::empty());
        out
    } else {
        let mut out = padded_octets(n / 10, width - 1);
        out.push(0x30 + (n % 10) as u8);
        out
    }
}

/// The number that the digits at `from..to` spell, where they are digits.
fn read_number(s: &[u8], from: usize, to: usize) -> (r: Option<u64>)
    requires
        from < to <= s.len(),
        to - from <= 4,
    ensures
        match r {
            Some(n) => digits_at(s@, from as int, to as int) && n == number_at(
                s@,
                from as int,
                to as int,
            ) && n <= 9999,
            None => !digits_at(s@, from as int, to as int),
        },
{
    let part = slice_subrange(s, from, to);
    let ghost whole = part@;
    proof {
        assert forall|i: int| 0 <= i < whole.len() implies #[trigger] whole[i] == s@[from + i] by {}
        if digits_at(s@, from as int, to as int) {
            lemma_digits_in_range(s@, from as int, to as int);
            lemma_padded_value(whole);
            reveal_with_fuel(ten_to, 5);
            assert(ten_to(whole.len()) <= 10_000) by {
                assert(whole.len() == 1 || whole.len() == 2 || whole.len() == 3 || whole.len()
                    == 4);
            }
        }
    }
    match parse_decimal(part) {
        Some(n) => {
            assert(digits_at(s@, from as int, to as int)) by {
                assert forall|i: int| from <= i < to implies is_digit(#[trigger] s@[i]) by {
                    assert(is_digit(whole[i - from]));
                }
            }
            Some(n)
        },
        None => None,
    }
}

/// The nanoseconds that up to nine digits of a fraction stand for.
fn read_fraction(s: &[u8], from: usize, to: usize) -> (r: Option<u32>)
    requires
        from < to <= s.len(),
        to - from <= 9,
    ensures
        match r {
            Some(n) => digits_at(s@, from as int, to as int) && n == fraction_value(
                s@.subrange(from as int, to as int),
            ) && n < 1_000_000_000,
            None => !digits_at(s@, from as int, to as int),
        },
{
    let part = slice_subrange(s, from, to);
    let ghost whole = part@;
    let mut digits: Vec<u8> = Vec::new();
    append(&mut digits, part);
    while digits.len() < 9
        invariant
            whole.len() <= digits.len() <= 9,
            digits@ == whole + zeros(digits.len() - whole.len()),
        decreases 9 - digits.len(),
    {
        let ghost before = digits.len();
        digits.push(0x30);
        assert(digits@ =~= whole + zeros(digits.len() - whole.len()));
    }
    proof {
        assert forall|i: int| 0 <= i < whole.len() implies #[trigger] whole[i] == s@[from + i]
            && digits@[i] == whole[i] by {}
        if digits_at(s@, from as int, to as int) {
            lemma_digits_in_range(s@, from as int, to as int);
            lemma_fraction_value(whole);
            assert(is_decimal(digits@)) by {
                assert forall|i: int| 0 <= i < 9 implies is_digit(#[trigger] digits@[i]) by {
                    if i < whole.len() {
                        assert(is_digit(whole[i]));
                    }
                }
            }
        }
    }
    match parse_decimal(digits.as_slice()) {
        Some(n) => {
            assert(digits_at(s@, from as int, to as int)) by {
                assert forall|i: int| from <= i < to implies is_digit(#[trigger] s@[i]) by {
                    assert(whole[i - from] == s@[i]);
                    assert(is_digit(digits@[i - from]));
                }
            }
            proof {
                lemma_digits_in_range(s@, from as int, to as int);
                lemma_fraction_value(whole);
            }
            Some(n as u32)
        },
        None => None,
    }
}

/// The parts of an instant as they are read.
struct Parts {
    year: i32,
    month: u32,
    day: u32,
    hour: u32,
    minute: u32,
    second: u32,
}

/// Reads the parts that the octets open with, where they have them.
fn read_parts(s: &[u8], month: bool, day: bool, minute: bool, second: bool) -> (r: Option<Parts>)
    requires
        s.len() >= 4,
        month ==> s.len() >= 7,
        day ==> month && s.len() >= 10,
        minute ==> day && s.len() >= 16,
        second ==> minute && s.len() >= 19,
    ensures
        ({
            let laid_out = digits_at(s@, 0, 4) && (month ==> s@[4] == 0x2d && digits_at(s@, 5, 7))
                && (day ==> s@[7] == 0x2d && digits_at(s@, 8, 10)) && (minute ==> s@[10] == 0x54
                && digits_at(s@, 11, 13) && s@[13] == 0x3a && digits_at(s@, 14, 16)) && (second
                ==> s@[16] == 0x3a && digits_at(s@, 17, 19));
            match r {
                Some(p) => laid_out && instant_at(s@, month, day, minute, second) == (Civil {
                    year: p.year as int,
                    month: p.month as int,
                    day: p.day as int,
                    hour: p.hour as int,
                    minute: p.minute as int,
                    second: p.second as int,
                    nanosecond: 0,
                }),
                None => !laid_out,
            }
        }),
{
    let mut parts = Parts { year: 0, month: 1, day: 1, hour: 0, minute: 0, second: 0 };
    match read_number(s, 0, 4) {
        Some(n) => {
            parts.year = n as i32;
        },
        None => {
            return None;
        },
    }
    if month {
        if s[4] != 0x2d {
            return None;
        }
        match read_number(s, 5, 7) {
            Some(n) => {
                parts.month = n as u32;
            },
            None => {
                return None;
            },
        }
    }
    if day {
        if s[7] != 0x2d {
            return None;
        }
        match read_number(s, 8, 10) {
            Some(n) => {
                parts.day = n as u32;
            },
            None => {
                return None;
            },
        }
    }
    if minute {
        if s[10] != 0x54 || s[13] != 0x3a {
            return None;
        }
        match read_number(s, 11, 13) {
            Some(n) => {
                parts.hour = n as u32;
            },
            None => {
                return None;
            },
        }
        match read_number(s, 14, 16) {
            Some(n) => {
                parts.minute = n as u32;
            },
            None => {
                return None;
            },
        }
    }
    if second {
        if s[16] != 0x3a {
            return None;
        }
        match read_number(s, 17, 19) {
            Some(n) => {
                parts.second = n as u32;
            },
            None => {
                return None;
            },
        }
    }
    Some(parts)
}

impl WarcDate {
    #[verifier::type_invariant]
    spec fn is_valid(&self) -> bool {
        is_date(self@)
    }

    /// The date with the parts, where they are an instant.
    fn checked(parts: Parts, nanosecond: u32, precision: WarcDatePrecision) -> (r: Option<Self>)
        requires
            ({
                let c = Civil {
                    year: parts.year as int,
                    month: parts.month as int,
                    day: parts.day as int,
                    hour: parts.hour as int,
                    minute: parts.minute as int,
                    second: parts.second as int,
                    nanosecond: nanosecond as int,
                };
                is_civil(c) ==> is_date(Date { instant: c, precision })
            }),
        ensures
            ({
                let c = Civil {
                    year: parts.year as int,
                    month: parts.month as int,
                    day: parts.day as int,
                    hour: parts.hour as int,
                    minute: parts.minute as int,
                    second: parts.second as int,
                    nanosecond: nanosecond as int,
                };
                match r {
                    Some(date) => checked(c, precision) == Some(date@),
                    None => checked(c, precision) is None,
                }
            }),
    {
        match UtcDateTime::new(
            parts.year,
            parts.month,
            parts.day,
            parts.hour,
            parts.minute,
            parts.second,
            nanosecond,
        ) {
            Some(date_time) => Some(WarcDate { date_time, precision }),
            None => None,
        }
    }

    /// Parse a date using the grammar of the given WARC version.
    ///
    /// WARC 1.0 accepts only `YYYY-MM-DDThh:mm:ssZ`. WARC 1.1 accepts every W3C-DTF granularity
    /// from a year through a decimal fraction of a second. Both read `w3c-iso8601` as the UTC
    /// timestamp the field definition calls for, so a value carrying a zone offset is refused
    /// rather than converted.
    ///
    /// Returns `None` when `value` does not match the grammar of `version`.
    pub fn parse(value: &str, version: WarcVersion) -> (r: Option<Self>)
        ensures
            match r {
                Some(date) => date_of(octets(value@), version) == Some(date@),
                None => date_of(octets(value@), version) is None,
            },
    {
        WarcDate::parse_octets(value.as_bytes(), version)
    }

    /// Parse a date from the octets that spell it.
    pub fn parse_octets(s: &[u8], version: WarcVersion) -> (r: Option<Self>)
        ensures
            match r {
                Some(date) => date_of(s@, version) == Some(date@) && is_date(date@) && 0
                    <= date@.instant.year <= 9999,
                None => date_of(s@, version) is None,
            },
    {
        proof {
            lemma_read_date(s@, version);
        }
        let n = s.len();
        if n == 20 {
            if s[19] != 0x5a {
                return None;
            }
            return match read_parts(s, true, true, true, true) {
                Some(parts) => WarcDate::checked(parts, 0, WarcDatePrecision::Second),
                None => None,
            };
        }
        match version {
            WarcVersion::V1_0 => {
                return None;
            },
            WarcVersion::V1_1 => {},
        }
        if n == 4 {
            match read_parts(s, false, false, false, false) {
                Some(parts) => WarcDate::checked(parts, 0, WarcDatePrecision::Year),
                None => None,
            }
        } else if n == 7 {
            match read_parts(s, true, false, false, false) {
                Some(parts) => WarcDate::checked(parts, 0, WarcDatePrecision::Month),
                None => None,
            }
        } else if n == 10 {
            match read_parts(s, true, true, false, false) {
                Some(parts) => WarcDate::checked(parts, 0, WarcDatePrecision::Day),
                None => None,
            }
        } else if n == 17 {
            if s[16] != 0x5a {
                return None;
            }
            match read_parts(s, true, true, true, false) {
                Some(parts) => WarcDate::checked(parts, 0, WarcDatePrecision::Minute),
                None => None,
            }
        } else if 22 <= n && n <= 30 {
            if s[n - 1] != 0x5a || s[19] != 0x2e {
                return None;
            }
            let parts = match read_parts(s, true, true, true, true) {
                Some(parts) => parts,
                None => {
                    return None;
                },
            };
            match read_fraction(s, 20, n - 1) {
                Some(nanosecond) => {
                    proof {
                        lemma_digits_in_range(s@, 20, n - 1);
                        lemma_fraction_value(s@.subrange(20, n - 1));
                    }
                    WarcDate::checked(
                        parts,
                        nanosecond,
                        WarcDatePrecision::Fraction((n - 21) as u8),
                    )
                },
                None => None,
            }
        } else {
            None
        }
    }

    /// Create a date from an instant at the requested serialized precision.
    ///
    /// The instant is truncated to the requested precision. `Fraction` digit counts are clamped
    /// to the range one through nine.
    pub fn new(date_time: UtcDateTime, precision: WarcDatePrecision) -> (r: Self)
        ensures
            r@ == (Date {
                instant: truncated(date_time@, clamped(precision)),
                precision: clamped(precision),
            }),
    {
        let precision = match precision {
            WarcDatePrecision::Fraction(digits) => if digits < 1 {
                WarcDatePrecision::Fraction(1)
            } else if digits > 9 {
                WarcDatePrecision::Fraction(9)
            } else {
                precision
            },
            _ => precision,
        };
        proof {
            use_type_invariant(&date_time);
            lemma_truncated(date_time@, precision);
        }
        let whole = date_time;
        let date_time = match precision {
            WarcDatePrecision::Year => UtcDateTime {
                year: whole.year,
                month: 1,
                day: 1,
                hour: 0,
                minute: 0,
                second: 0,
                nanosecond: 0,
            },
            WarcDatePrecision::Month => UtcDateTime {
                year: whole.year,
                month: whole.month,
                day: 1,
                hour: 0,
                minute: 0,
                second: 0,
                nanosecond: 0,
            },
            WarcDatePrecision::Day => UtcDateTime {
                year: whole.year,
                month: whole.month,
                day: whole.day,
                hour: 0,
                minute: 0,
                second: 0,
                nanosecond: 0,
            },
            WarcDatePrecision::Minute => UtcDateTime {
                year: whole.year,
                month: whole.month,
                day: whole.day,
                hour: whole.hour,
                minute: whole.minute,
                second: 0,
                nanosecond: 0,
            },
            WarcDatePrecision::Second => UtcDateTime {
                year: whole.year,
                month: whole.month,
                day: whole.day,
                hour: whole.hour,
                minute: whole.minute,
                second: whole.second,
                nanosecond: 0,
            },
            WarcDatePrecision::Fraction(digits) => {
                let nanosecond = keep_digits(whole.nanosecond, digits);
                UtcDateTime {
                    year: whole.year,
                    month: whole.month,
                    day: whole.day,
                    hour: whole.hour,
                    minute: whole.minute,
                    second: whole.second,
                    nanosecond,
                }
            },
        };
        WarcDate { date_time, precision }
    }

    /// The date of an instant at the shortest precision that keeps it whole: seconds, or as many
    /// digits of a fraction as it takes, one at least.
    pub fn from(date_time: UtcDateTime) -> (r: Self)
        ensures
            r@.instant == date_time@,
            r@.precision == if date_time@.nanosecond == 0 {
                WarcDatePrecision::Second
            } else {
                clamped(
                    WarcDatePrecision::Fraction(
                        significant(padded(date_time@.nanosecond as nat, 9)) as u8,
                    ),
                )
            },
    {
        proof {
            use_type_invariant(&date_time);
        }
        let precision = if date_time.nanosecond == 0 {
            WarcDatePrecision::Second
        } else {
            WarcDatePrecision::Fraction(significant_digits(date_time.nanosecond))
        };
        proof {
            let n = date_time@.nanosecond as nat;
            match clamped(precision) {
                WarcDatePrecision::Fraction(digits) => {
                    let all = padded(n, 9);
                    lemma_padded_digits(n, 9);
                    lemma_significant_prefix(all, 9);
                    assert(all.take(9) =~= all);
                    lemma_closing_zeros(n, 9, (9 - digits) as nat);
                },
                _ => {},
            }
        }
        WarcDate::new(date_time, precision)
    }

    /// Return the UTC instant represented by this date.
    ///
    /// For a reduced-precision WARC 1.1 value, this is the earliest instant denoted by the
    /// serialized date.
    pub fn date_time(self) -> (r: UtcDateTime)
        ensures
            r@ == self@.instant,
            is_date(self@),
    {
        proof {
            use_type_invariant(&self);
        }
        self.date_time
    }

    /// Return the precision declared by this date.
    pub fn precision(self) -> (r: WarcDatePrecision)
        ensures
            r == self@.precision,
    {
        self.precision
    }

    /// Format this date using the grammar of the given WARC version.
    ///
    /// WARC 1.0 output always has second precision. WARC 1.1 output preserves this value's
    /// declared precision.
    pub fn to_string_for_version(self, version: WarcVersion) -> (r: String)
        ensures
            octets(r@) == date_octets(self@, version),
            r@ == ascii_text(date_octets(self@, version)),
    {
        let spelled = self.octets_for_version(version);
        proof {
            use_type_invariant(&self);
            lemma_date_octets_are_ascii(self@, version);
        }
        ascii_string(spelled.as_slice())
    }

    /// The date in the grammar of WARC 1.1, which can represent every supported precision.
    pub fn to_string(self) -> (r: String)
        ensures
            octets(r@) == date_octets(self@, WarcVersion::V1_1),
            r@ == ascii_text(date_octets(self@, WarcVersion::V1_1)),
    {
        self.to_string_for_version(WarcVersion::V1_1)
    }

    /// The octets that spell this date in the grammar of the given WARC version.
    pub fn octets_for_version(self, version: WarcVersion) -> (r: Vec<u8>)
        ensures
            r@ == date_octets(self@, version),
            0 <= self@.instant.year <= 9999 && !in_leap_second(self@.instant) && (version
                == WarcVersion::V1_1 || self@.precision == WarcDatePrecision::Second) ==> date_of(
                r@,
                version,
            ) == Some(self@),
    {
        proof {
            use_type_invariant(&self);
            if 0 <= self@.instant.year <= 9999 && !in_leap_second(self@.instant) && (version
                == WarcVersion::V1_1 || self@.precision == WarcDatePrecision::Second) {
                lemma_date_reads_back(self@, version);
            }
        }
        let whole = self.date_time;
        match version {
            WarcVersion::V1_0 => {
                let mut out = whole.seconds();
                out.push(0x5a);
                assert(out@ =~= date_octets(self@, version));
                out
            },
            WarcVersion::V1_1 => {
                let out = match self.precision {
                    WarcDatePrecision::Year => whole.plain_year(),
                    WarcDatePrecision::Month => {
                        let mut out = whole.plain_year();
                        out.push(0x2d);
                        append(&mut out, padded_octets(whole.month, 2).as_slice());
                        out
                    },
                    WarcDatePrecision::Day => {
                        let mut out = whole.plain_year();
                        out.push(0x2d);
                        append(&mut out, padded_octets(whole.month, 2).as_slice());
                        out.push(0x2d);
                        append(&mut out, padded_octets(whole.day, 2).as_slice());
                        out
                    },
                    WarcDatePrecision::Minute => {
                        let mut out = whole.minutes();
                        out.push(0x5a);
                        out
                    },
                    WarcDatePrecision::Second => {
                        let mut out = whole.seconds();
                        out.push(0x5a);
                        out
                    },
                    WarcDatePrecision::Fraction(digits) => {
                        let mut out = whole.seconds();
                        out.push(0x2e);
                        let width: usize = if whole.nanosecond < 1_000_000_000 {
                            9
                        } else {
                            10
                        };
                        let all = padded_octets(whole.nanosecond, width);
                        proof {
                            lemma_padded_digits(whole.nanosecond as nat, width as nat);
                        }
                        let kept = slice_subrange(all.as_slice(), 0, digits as usize);
                        assert(kept@ =~= all@.take(digits as int));
                        append(&mut out, kept);
                        out.push(0x5a);
                        out
                    },
                };
                assert(out@ =~= date_octets(self@, version));
                out
            },
        }
    }
}

/// The nanoseconds of a fraction, rounded down to so many digits.
fn keep_digits(nanosecond: u32, digits: u8) -> (r: u32)
    requires
        1 <= digits <= 9,
    ensures
        r == rounded_down(nanosecond as int, digits as int),
{
    let mut unit: u32 = 1;
    let mut left: u8 = digits;
    proof {
        lemma_ten_to();
        lemma_rounded_down(nanosecond as int, digits as int);
    }
    while left < 9
        invariant
            digits <= left <= 9,
            unit == ten_to((left - digits) as nat),
            unit <= 1_000_000_000,
            1 <= digits,
        decreases 9 - left,
    {
        proof {
            lemma_ten_to();
            lemma_ten_to_splits((left + 1 - digits) as nat, (9 - (left + 1 - digits)) as nat);
            lemma_ten_to_is_positive((9 - (left + 1 - digits)) as nat);
            let more = ten_to((left + 1 - digits) as nat);
            let rest = ten_to((9 - (left + 1 - digits)) as nat);
            assert(more <= more * rest) by (nonlinear_arith)
                requires
                    rest > 0,
            ;
        }
        unit = unit * 10;
        left = left + 1;
    }
    proof {
        lemma_ten_to_is_positive((9 - digits) as nat);
    }
    nanosecond / unit * unit
}

proof fn lemma_significant_prefix(s: Seq<u8>, n: int)
    requires
        0 <= n <= s.len(),
    ensures
        significant(s.take(n)) <= n,
        forall|i: int| significant(s.take(n)) <= i < n ==> #[trigger] s[i] == 0x30,
    decreases n,
{
    if n > 0 && s[n - 1] == 0x30 {
        assert(s.take(n).drop_last() =~= s.take(n - 1));
        lemma_significant_prefix(s, n - 1);
    }
}

/// A number with so many zeros at its end is a multiple of as many powers of ten.
proof fn lemma_closing_zeros(n: nat, width: nat, count: nat)
    requires
        count <= width,
        forall|i: int| width - count <= i < width ==> #[trigger] padded(n, width)[i] == 0x30,
    ensures
        (n / ten_to(count)) * ten_to(count) == n,
    decreases count,
{
    if count == 0 {
        assert(ten_to(0) == 1);
        assert((n / 1) * 1 == n);
    } else {
        let shorter = padded(n / 10, (width - 1) as nat);
        let s = padded(n, width);
        lemma_padded_digits(n, width);
        lemma_padded_digits(n / 10, (width - 1) as nat);
        assert(s[width - 1] == 0x30);
        assert forall|i: int| width - count <= i < width - 1 implies #[trigger] shorter[i]
            == 0x30 by {
            assert(s[i] == shorter[i]);
        }
        lemma_closing_zeros(n / 10, (width - 1) as nat, (count - 1) as nat);
        let less = ten_to((count - 1) as nat);
        lemma_ten_to_is_positive((count - 1) as nat);
        vstd::arithmetic::div_mod::lemma_div_denominator(n as int, 10, less as int);
        let q = n / 10 / less;
        assert(q * (10 * less) == 10 * (q * less)) by (nonlinear_arith);
    }
}

/// How many of the nine digits of a fraction there are without the zeros that close them.
fn significant_digits(nanosecond: u32) -> (r: u8)
    ensures
        r == significant(padded(nanosecond as nat, 9)),
        r <= 9,
{
    let all = padded_octets(nanosecond, 9);
    proof {
        lemma_padded_digits(nanosecond as nat, 9);
    }
    let mut n: usize = 9;
    assert(all@.take(9) =~= all@);
    while n > 0 && all[n - 1] == 0x30
        invariant
            n <= 9,
            all@.len() == 9,
            significant(all@) == significant(all@.take(n as int)),
        decreases n,
    {
        assert(all@.take(n as int).drop_last() =~= all@.take(n - 1));
        n = n - 1;
    }
    n as u8
}

/// A date is written in visible ASCII.
pub proof fn lemma_date_octets_are_ascii(d: Date, version: WarcVersion)
    requires
        is_date(d),
    ensures
        is_ascii(date_octets(d, version)),
        is_visible(date_octets(d, version)),
{
    let c = d.instant;
    lemma_years_are_visible(c.year);
    lemma_padded_is_visible(c.month as nat, 2);
    lemma_padded_is_visible(c.day as nat, 2);
    lemma_padded_is_visible(c.hour as nat, 2);
    lemma_padded_is_visible(c.minute as nat, 2);
    lemma_padded_is_visible(written_second(c), 2);
    lemma_padded_is_visible(c.nanosecond as nat, 9);
    lemma_padded_is_visible(c.nanosecond as nat, 10);
    lemma_padded_digits(c.nanosecond as nat, 9);
    lemma_padded_digits(c.nanosecond as nat, 10);
    match d.precision {
        WarcDatePrecision::Fraction(digits) => {
            let all = written_nanosecond(c);
            let taken = all.take(digits as int);
            assert forall|i: int| 0 <= i < taken.len() implies 0x20 < #[trigger] taken[i] < 0x7f by {
                assert(taken[i] == all[i]);
            }
        },
        _ => {},
    }
    let s = date_octets(d, version);
    assert(is_visible(s));
    assert forall|i: int| 0 <= i < s.len() implies #[trigger] s[i] < 0x80 by {
        assert(0x20 < s[i] < 0x7f);
    }
}

proof fn lemma_padded_is_visible(n: nat, width: nat)
    ensures
        is_visible(padded(n, width)),
{
    lemma_padded_digits(n, width);
    let s = padded(n, width);
    assert forall|i: int| 0 <= i < s.len() implies 0x20 < #[trigger] s[i] < 0x7f by {
        assert(is_digit(s[i]));
    }
}

proof fn lemma_years_are_visible(year: int)
    ensures
        is_visible(plain_year(year)),
        is_visible(signed_year(year)),
{
    let size = if year < 0 {
        -year
    } else {
        year
    };
    lemma_padded_is_visible(size as nat, 3);
    lemma_padded_is_visible(size as nat, 4);
    lemma_decimal(size as nat);
    let s = decimal(size as nat);
    assert forall|i: int| 0 <= i < s.len() implies 0x20 < #[trigger] s[i] < 0x7f by {
        assert(is_digit(s[i]));
    }
}

impl UtcDateTime {
    /// The year as it is written before a day.
    fn plain_year(self) -> (r: Vec<u8>)
        ensures
            r@ == plain_year(self@.year),
    {
        proof {
            use_type_invariant(&self);
        }
        if 0 <= self.year && self.year <= 9999 {
            padded_octets(self.year as u32, 4)
        } else if self.year > 9999 {
            decimal_octets(self.year as u64)
        } else {
            let size: i32 = -self.year;
            let mut out: Vec<u8> = Vec::new();
            out.push(0x2d);
            if self.year >= -999 {
                append(&mut out, padded_octets(size as u32, 3).as_slice());
            } else {
                append(&mut out, decimal_octets(size as u64).as_slice());
            }
            assert(out@ =~= plain_year(self@.year));
            out
        }
    }

    /// The year as it is written before a time.
    fn signed_year(self) -> (r: Vec<u8>)
        ensures
            r@ == signed_year(self@.year),
    {
        proof {
            use_type_invariant(&self);
        }
        if 0 <= self.year && self.year <= 9999 {
            padded_octets(self.year as u32, 4)
        } else if self.year > 9999 {
            let mut out: Vec<u8> = Vec::new();
            out.push(0x2b);
            append(&mut out, decimal_octets(self.year as u64).as_slice());
            assert(out@ =~= signed_year(self@.year));
            out
        } else {
            let size: i32 = -self.year;
            let mut out: Vec<u8> = Vec::new();
            out.push(0x2d);
            if self.year >= -9999 {
                append(&mut out, padded_octets(size as u32, 4).as_slice());
            } else {
                append(&mut out, decimal_octets(size as u64).as_slice());
            }
            assert(out@ =~= signed_year(self@.year));
            out
        }
    }

    /// The day and the minute.
    fn minutes(self) -> (r: Vec<u8>)
        ensures
            r@ == minute_octets(self@),
    {
        let mut out = self.signed_year();
        out.push(0x2d);
        append(&mut out, padded_octets(self.month, 2).as_slice());
        out.push(0x2d);
        append(&mut out, padded_octets(self.day, 2).as_slice());
        out.push(0x54);
        append(&mut out, padded_octets(self.hour, 2).as_slice());
        out.push(0x3a);
        append(&mut out, padded_octets(self.minute, 2).as_slice());
        assert(out@ =~= minute_octets(self@));
        out
    }

    /// The day and the second.
    fn seconds(self) -> (r: Vec<u8>)
        ensures
            r@ == second_octets(self@),
    {
        proof {
            use_type_invariant(&self);
        }
        let mut out = self.minutes();
        out.push(0x3a);
        let second: u32 = self.second + self.nanosecond / 1_000_000_000;
        append(&mut out, padded_octets(second, 2).as_slice());
        assert(out@ =~= second_octets(self@));
        out
    }
}

/// A multiple of so many powers of ten has as many zeros at its end.
proof fn lemma_multiple_closes_with_zeros(q: nat, width: nat, count: nat)
    requires
        count <= width,
    ensures
        forall|i: int|
            width - count <= i < width ==> #[trigger] padded(q * ten_to(count), width)[i] == 0x30,
    decreases count,
{
    if count > 0 {
        let n = q * ten_to(count);
        let less = q * ten_to((count - 1) as nat);
        let unit = ten_to((count - 1) as nat);
        assert(n == 10 * less) by {
            assert(q * (10 * unit) == 10 * (q * unit)) by (nonlinear_arith);
        }
        lemma_multiple_closes_with_zeros(q, (width - 1) as nat, (count - 1) as nat);
        lemma_padded_digits(n, width);
        lemma_padded_digits(less, (width - 1) as nat);
        let s = padded(n, width);
        let shorter = padded(less, (width - 1) as nat);
        assert(n / 10 == less && n % 10 == 0);
        assert(s == shorter.push(0x30));
        assert forall|i: int| width - count <= i < width implies #[trigger] s[i] == 0x30 by {
            if i < width - 1 {
                assert(s[i] == shorter[i]);
            }
        }
    }
}

proof fn lemma_significant_is_last(s: Seq<u8>)
    ensures
        significant(s) <= s.len(),
        significant(s) > 0 ==> s[significant(s) - 1] != 0x30,
        forall|i: int| significant(s) <= i < s.len() ==> #[trigger] s[i] == 0x30,
    decreases s.len(),
{
    if s.len() > 0 && s.last() == 0x30 {
        lemma_significant_is_last(s.drop_last());
        assert forall|i: int| significant(s) <= i < s.len() implies #[trigger] s[i] == 0x30 by {
            if i < s.len() - 1 {
                assert(s[i] == s.drop_last()[i]);
            }
        }
    }
}

/// The precision that an instant is given takes as few digits of a fraction as keep it whole: it
/// is the same to that many digits, and to no fewer.
pub proof fn lemma_fewest_digits(nanosecond: nat, fewer: int)
    requires
        0 < nanosecond < 1_000_000_000,
    ensures
        ({
            let digits = significant(padded(nanosecond, 9)) as int;
            1 <= digits <= 9 && rounded_down(nanosecond as int, digits) == nanosecond && (0 <= fewer
                < digits ==> rounded_down(nanosecond as int, fewer) != nanosecond)
        }),
{
    let s = padded(nanosecond, 9);
    let digits = significant(s) as int;
    lemma_padded_digits(nanosecond, 9);
    lemma_significant_is_last(s);
    lemma_closing_zeros(nanosecond, 9, (9 - digits) as nat);
    if digits == 0 {
        lemma_ten_to();
        assert((9 - digits) as nat == 9);
        let q = nanosecond / ten_to(9);
        assert(q == 0);
        assert(q * ten_to(9) == 0) by (nonlinear_arith)
            requires
                q == 0,
        ;
        assert(false);
    }
    if 0 <= fewer < digits && rounded_down(nanosecond as int, fewer) == nanosecond {
        let unit = ten_to((9 - fewer) as nat);
        lemma_ten_to_is_positive((9 - fewer) as nat);
        let q = (nanosecond as int / unit as int) as nat;
        assert(0 <= nanosecond as int / unit as int) by (nonlinear_arith)
            requires
                unit > 0,
        ;
        assert(q * unit == nanosecond);
        lemma_multiple_closes_with_zeros(q, 9, (9 - fewer) as nat);
        assert(s[digits - 1] == 0x30);
    }
}

/// WARC 1.0 writes a date as WARC 1.1 writes it to the second, whatever its precision.
pub proof fn lemma_seconds_are_written(d: Date)
    ensures
        date_octets(d, WarcVersion::V1_0) == date_octets(
            Date { precision: WarcDatePrecision::Second, ..d },
            WarcVersion::V1_1,
        ),
{
}

} // verus!
