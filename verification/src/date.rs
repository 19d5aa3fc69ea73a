//! Timestamps: a UTC instant to the millisecond, written
//! `YYYY-MM-DD/HH:MM:SS.mmm` in twenty-three characters.
//!
//! A stamp is read and written by chrono under the pattern
//! `%Y-%m-%d/%H:%M:%S.%3f`. This module fixes the shape of the text that is
//! handed to chrono, and holds what chrono reads as a date of its own.

use crate::lexis::{digit, is_digit, latin, COLON, MINUS, POINT, SLASH, ZERO};
use chrono::{Datelike, NaiveDate, NaiveDateTime, Timelike};
use vstd::prelude::*;

verus! {

/// The number of bytes of a stamp.
pub const STAMP_LENGTH: usize = 23;

/// The pattern under which chrono reads and writes a stamp.
pub open spec fn stamp_pattern() -> Seq<char> {
    "%Y-%m-%d/%H:%M:%S.%3f"@
}

/// Whether `year` is a leap year of the proleptic Gregorian calendar.
pub open spec fn leap_year(year: int) -> bool {
    year % 4 == 0 && (year % 100 != 0 || year % 400 == 0)
}

/// The number of days of `month` in `year`.
pub open spec fn days_in_month(year: int, month: int) -> int {
    if month == 2 {
        if leap_year(year) {
            29
        } else {
            28
        }
    } else if month == 4 || month == 6 || month == 9 || month == 11 {
        30
    } else {
        31
    }
}

/// The fields of a stamp. A second of 60 is a leap second.
pub struct Fields {
    pub year: int,
    pub month: int,
    pub day: int,
    pub hour: int,
    pub minute: int,
    pub second: int,
    pub millisecond: int,
}

impl Fields {
    /// Whether the fields name a day of the calendar in the years 0 to 9999
    /// and a time of day.
    pub open spec fn valid(self) -> bool {
        &&& 0 <= self.year <= 9999
        &&& 1 <= self.month <= 12
        &&& 1 <= self.day <= days_in_month(self.year, self.month)
        &&& 0 <= self.hour <= 23
        &&& 0 <= self.minute <= 59
        &&& 0 <= self.second <= 60
        &&& 0 <= self.millisecond <= 999
    }

    /// The second as chrono holds it: a leap second is the second 59 with a
    /// thousand million nanoseconds more.
    pub open spec fn chrono_second(self) -> int {
        if self.second == 60 {
            59
        } else {
            self.second
        }
    }

    /// The nanoseconds as chrono holds them.
    pub open spec fn chrono_nanosecond(self) -> int {
        if self.second == 60 {
            1_000_000_000 + self.millisecond * 1_000_000
        } else {
            self.millisecond * 1_000_000
        }
    }
}

/// The digit at `at` of `s`, as a number.
pub open spec fn digit_at(s: Seq<u8>, at: int) -> int {
    s[at] - ZERO
}

/// Whether `s` has the shape of a stamp: digits where the fields stand, and
/// `-`, `-`, `/`, `:`, `:`, `.` between them.
pub open spec fn well_shaped(s: Seq<u8>) -> bool {
    &&& s.len() == STAMP_LENGTH
    &&& digit(s[0]) && digit(s[1]) && digit(s[2]) && digit(s[3])
    &&& s[4] == MINUS
    &&& digit(s[5]) && digit(s[6])
    &&& s[7] == MINUS
    &&& digit(s[8]) && digit(s[9])
    &&& s[10] == SLASH
    &&& digit(s[11]) && digit(s[12])
    &&& s[13] == COLON
    &&& digit(s[14]) && digit(s[15])
    &&& s[16] == COLON
    &&& digit(s[17]) && digit(s[18])
    &&& s[19] == POINT
    &&& digit(s[20]) && digit(s[21]) && digit(s[22])
}

/// The fields that the digits of a well-shaped `s` write.
pub open spec fn fields_of(s: Seq<u8>) -> Fields {
    Fields {
        year: digit_at(s, 0) * 1000 + digit_at(s, 1) * 100 + digit_at(s, 2) * 10 + digit_at(s, 3),
        month: digit_at(s, 5) * 10 + digit_at(s, 6),
        day: digit_at(s, 8) * 10 + digit_at(s, 9),
        hour: digit_at(s, 11) * 10 + digit_at(s, 12),
        minute: digit_at(s, 14) * 10 + digit_at(s, 15),
        second: digit_at(s, 17) * 10 + digit_at(s, 18),
        millisecond: digit_at(s, 20) * 100 + digit_at(s, 21) * 10 + digit_at(s, 22),
    }
}

/// The byte of the digit `d`.
pub open spec fn digit_byte(d: int) -> u8 {
    (ZERO + d) as u8
}

/// The stamp that writes the fields `f`.
pub open spec fn stamp_bytes(f: Fields) -> Seq<u8> {
    seq![
        digit_byte(f.year / 1000),
        digit_byte(f.year / 100 % 10),
        digit_byte(f.year / 10 % 10),
        digit_byte(f.year % 10),
        MINUS,
        digit_byte(f.month / 10),
        digit_byte(f.month % 10),
        MINUS,
        digit_byte(f.day / 10),
        digit_byte(f.day % 10),
        SLASH,
        digit_byte(f.hour / 10),
        digit_byte(f.hour % 10),
        COLON,
        digit_byte(f.minute / 10),
        digit_byte(f.minute % 10),
        COLON,
        digit_byte(f.second / 10),
        digit_byte(f.second % 10),
        POINT,
        digit_byte(f.millisecond / 100),
        digit_byte(f.millisecond / 10 % 10),
        digit_byte(f.millisecond % 10),
    ]
}

/// What chrono's accessors give of a time with the fields `f`: year, month,
/// day, hour, minute, second and nanosecond.
pub open spec fn chrono_fields(f: Fields) -> (i32, u32, u32, u32, u32, u32, u32) {
    (
        f.year as i32,
        f.month as u32,
        f.day as u32,
        f.hour as u32,
        f.minute as u32,
        f.chrono_second() as u32,
        f.chrono_nanosecond() as u32,
    )
}

/// What chrono reads in a well-shaped stamp: its fields, where they are valid.
pub open spec fn chrono_reading(stamp: Seq<u8>) -> Option<(i32, u32, u32, u32, u32, u32, u32)> {
    if fields_of(stamp).valid() {
        Some(chrono_fields(fields_of(stamp)))
    } else {
        None
    }
}

/// Reads `stamp` with chrono's `NaiveDateTime::parse_from_str` and hands out
/// what `year`, `month`, `day`, `hour`, `minute`, `second` and `nanosecond`
/// give of the result, or `None` where chrono refuses the text.
///
/// Taken on trust, for a well-shaped stamp under the pattern
/// `%Y-%m-%d/%H:%M:%S.%3f`: chrono reads each run of digits as the field at
/// its place, accepts the text exactly when the month is 1 to 12, the day
/// exists in that month of that year, the hour is at most 23, the minute at
/// most 59 and the second at most 60, and holds a second of 60 as second 59
/// with 1 000 000 000 nanoseconds added.
#[verifier::external_body]
fn read_stamp(stamp: &[u8], pattern: &str) -> (r: Option<(i32, u32, u32, u32, u32, u32, u32)>)
    requires
        well_shaped(stamp@),
        pattern@ == stamp_pattern(),
    ensures
        r == chrono_reading(stamp@),
{
    match std::str::from_utf8(stamp) {
        Ok(text) => match NaiveDateTime::parse_from_str(text, pattern) {
            Ok(t) => Some(
                (t.year(), t.month(), t.day(), t.hour(), t.minute(), t.second(), t.nanosecond()),
            ),
            Err(_) => None,
        },
        Err(_) => None,
    }
}

/// Whether chrono has a time with these fields: a day of the calendar in the
/// years 0 to 9999, and a time of day whose nanoseconds pass 1 000 000 000
/// only in second 59.
pub open spec fn chrono_valid(
    year: i32,
    month: u32,
    day: u32,
    hour: u32,
    minute: u32,
    second: u32,
    nanosecond: u32,
) -> bool {
    &&& 0 <= year <= 9999
    &&& 1 <= month <= 12
    &&& 1 <= day <= days_in_month(year as int, month as int)
    &&& hour <= 23
    &&& minute <= 59
    &&& second <= 59
    &&& nanosecond < 2_000_000_000
    &&& nanosecond >= 1_000_000_000 ==> second == 59
}

/// The fields that chrono writes of a time that it holds with these values.
pub open spec fn chrono_written(
    year: i32,
    month: u32,
    day: u32,
    hour: u32,
    minute: u32,
    second: u32,
    nanosecond: u32,
) -> Fields {
    Fields {
        year: year as int,
        month: month as int,
        day: day as int,
        hour: hour as int,
        minute: minute as int,
        second: second + (nanosecond as int) / 1_000_000_000,
        millisecond: (nanosecond as int) / 1_000_000 % 1000,
    }
}

/// Builds the time with these fields by chrono's `NaiveDate::from_ymd_opt`
/// and `NaiveDate::and_hms_nano_opt`, and writes it, as a UTC time, with
/// chrono's `DateTime::format`; `None` where chrono has no such time.
///
/// Taken on trust, under the pattern `%Y-%m-%d/%H:%M:%S.%3f` and for the
/// years 0 to 9999: chrono has every time whose fields are valid, and writes
/// the year in four digits, month, day, hour and minute in two, the second,
/// which is 60 in a leap second, in two, and the milliseconds in three, each
/// filled with zeros from the left, with `-`, `-`, `/`, `:`, `:`, `.` between.
#[verifier::external_body]
fn write_stamp(
    year: i32,
    month: u32,
    day: u32,
    hour: u32,
    minute: u32,
    second: u32,
    nanosecond: u32,
    pattern: &str,
) -> (r: Option<String>)
    requires
        pattern@ == stamp_pattern(),
    ensures
        chrono_valid(year, month, day, hour, minute, second, nanosecond) ==> r is Some && r->0@
            == latin(
            stamp_bytes(chrono_written(year, month, day, hour, minute, second, nanosecond)),
        ),
{
    match NaiveDate::from_ymd_opt(year, month, day) {
        Some(date) => match date.and_hms_nano_opt(hour, minute, second, nanosecond) {
            Some(time) => Some(time.and_utc().format(pattern).to_string()),
            None => None,
        },
        None => None,
    }
}

/// A UTC instant to the millisecond, between the years 0 and 9999.
#[derive(Clone, Copy, Debug, PartialEq, Eq)]
pub struct Date {
    year: i32,
    month: u32,
    day: u32,
    hour: u32,
    minute: u32,
    second: u32,
    millisecond: u32,
}

impl Date {
    /// The fields of the date.
    pub closed spec fn fields(&self) -> Fields {
        Fields {
            year: self.year as int,
            month: self.month as int,
            day: self.day as int,
            hour: self.hour as int,
            minute: self.minute as int,
            second: self.second as int,
            millisecond: self.millisecond as int,
        }
    }

    /// The date with the fields `f`.
    pub closed spec fn of(f: Fields) -> Date {
        Date {
            year: f.year as i32,
            month: f.month as u32,
            day: f.day as u32,
            hour: f.hour as u32,
            minute: f.minute as u32,
            second: f.second as u32,
            millisecond: f.millisecond as u32,
        }
    }

    /// Every date has valid fields.
    #[verifier::type_invariant]
    pub closed spec fn valid(&self) -> bool {
        self.fields().valid()
    }

    /// The stamp of the date.
    pub open spec fn stamp(&self) -> Seq<u8> {
        stamp_bytes(self.fields())
    }

    /// A date is the date of its fields, and has the fields it was made of.
    pub proof fn lemma_of_fields(f: Fields)
        requires
            f.valid(),
        ensures
            Date::of(f).fields() == f,
            Date::of(f).valid(),
    {
    }

    pub proof fn lemma_fields_of(self)
        requires
            self.valid(),
        ensures
            Date::of(self.fields()) == self,
    {
    }

    /// The date with the given fields, if there is one.
    pub fn new(
        year: i32,
        month: u32,
        day: u32,
        hour: u32,
        minute: u32,
        second: u32,
        millisecond: u32,
    ) -> (r: Option<Date>)
        ensures
            ({
                let f = Fields {
                    year: year as int,
                    month: month as int,
                    day: day as int,
                    hour: hour as int,
                    minute: minute as int,
                    second: second as int,
                    millisecond: millisecond as int,
                };
                match r {
                    Some(d) => f.valid() && d == Date::of(f),
                    None => !f.valid(),
                }
            }),
    {
        if year < 0 || year > 9999 || month < 1 || month > 12 || day < 1 {
            return None;
        }
        let leap = year % 4 == 0 && (year % 100 != 0 || year % 400 == 0);
        let days: u32 = if month == 2 {
            if leap {
                29
            } else {
                28
            }
        } else if month == 4 || month == 6 || month == 9 || month == 11 {
            30
        } else {
            31
        };
        if day > days || hour > 23 || minute > 59 || second > 60 || millisecond > 999 {
            return None;
        }
        Some(Date { year, month, day, hour, minute, second, millisecond })
    }

    pub fn year(&self) -> (r: i32)
        ensures
            r == self.fields().year,
    {
        self.year
    }

    pub fn month(&self) -> (r: u32)
        ensures
            r == self.fields().month,
    {
        self.month
    }

    pub fn day(&self) -> (r: u32)
        ensures
            r == self.fields().day,
    {
        self.day
    }

    pub fn hour(&self) -> (r: u32)
        ensures
            r == self.fields().hour,
    {
        self.hour
    }

    pub fn minute(&self) -> (r: u32)
        ensures
            r == self.fields().minute,
    {
        self.minute
    }

    pub fn second(&self) -> (r: u32)
        ensures
            r == self.fields().second,
    {
        self.second
    }

    pub fn millisecond(&self) -> (r: u32)
        ensures
            r == self.fields().millisecond,
    {
        self.millisecond
    }

    /// The date that `stamp` writes, if it has the shape of a stamp and
    /// chrono accepts it.
    pub fn read(stamp: &[u8]) -> (r: Option<Date>)
        ensures
            r == stamp_reading(stamp@),
    {
        if !is_well_shaped(stamp) {
            return None;
        }
        match read_stamp(stamp, "%Y-%m-%d/%H:%M:%S.%3f") {
            None => None,
            Some((year, month, day, hour, minute, second, nanosecond)) => {
                let leap = nanosecond >= 1_000_000_000;
                let date = Date {
                    year,
                    month,
                    day,
                    hour,
                    minute,
                    second: if leap {
                        second + 1
                    } else {
                        second
                    },
                    millisecond: nanosecond % 1_000_000_000 / 1_000_000,
                };
                Some(date)
            },
        }
    }

    /// The stamp of the date, as text.
    pub fn to_text(&self) -> (r: String)
        ensures
            r@ == latin(self.stamp()),
            self.valid(),
    {
        proof {
            use_type_invariant(self);
        }
        let leap = self.second == 60;
        let second = if leap {
            59
        } else {
            self.second
        };
        let nanosecond = if leap {
            1_000_000_000 + self.millisecond * 1_000_000
        } else {
            self.millisecond * 1_000_000
        };
        let written = write_stamp(
            self.year,
            self.month,
            self.day,
            self.hour,
            self.minute,
            second,
            nanosecond,
            "%Y-%m-%d/%H:%M:%S.%3f",
        );
        proof {
            assert(chrono_written(
                self.year,
                self.month,
                self.day,
                self.hour,
                self.minute,
                second,
                nanosecond,
            ) == self.fields());
        }
        match written {
            Some(text) => text,
            // chrono has every valid date, so it wrote one
            None => String::new(),
        }
    }
}

/// The date that the stamp `s` writes: the date of its fields, where it is
/// well shaped and they are valid.
pub open spec fn stamp_reading(s: Seq<u8>) -> Option<Date> {
    if well_shaped(s) && fields_of(s).valid() {
        Some(Date::of(fields_of(s)))
    } else {
        None
    }
}

/// Whether `stamp` has the shape of a stamp.
pub fn is_well_shaped(stamp: &[u8]) -> (r: bool)
    ensures
        r == well_shaped(stamp@),
{
    stamp.len() == STAMP_LENGTH && is_digit(stamp[0]) && is_digit(stamp[1]) && is_digit(stamp[2])
        && is_digit(stamp[3]) && stamp[4] == MINUS && is_digit(stamp[5]) && is_digit(stamp[6])
        && stamp[7] == MINUS && is_digit(stamp[8]) && is_digit(stamp[9]) && stamp[10] == SLASH
        && is_digit(stamp[11]) && is_digit(stamp[12]) && stamp[13] == COLON && is_digit(stamp[14])
        && is_digit(stamp[15]) && stamp[16] == COLON && is_digit(stamp[17]) && is_digit(stamp[18])
        && stamp[19] == POINT && is_digit(stamp[20]) && is_digit(stamp[21]) && is_digit(
        stamp[22],
    )
}

/// The stamp of a date is well shaped and writes the date's fields, so that
/// it reads as the date.
pub proof fn lemma_stamp_rereads(d: Date)
    requires
        d.valid(),
    ensures
        d.stamp().len() == STAMP_LENGTH,
        well_shaped(d.stamp()),
        stamp_reading(d.stamp()) == Some(d),
{
    let f = d.fields();
    let s = stamp_bytes(f);
    lemma_literal(
        digit_byte(f.year / 1000),
        digit_byte(f.year / 100 % 10),
        digit_byte(f.year / 10 % 10),
        digit_byte(f.year % 10),
        MINUS,
        digit_byte(f.month / 10),
        digit_byte(f.month % 10),
        MINUS,
        digit_byte(f.day / 10),
        digit_byte(f.day % 10),
        SLASH,
        digit_byte(f.hour / 10),
        digit_byte(f.hour % 10),
        COLON,
        digit_byte(f.minute / 10),
        digit_byte(f.minute % 10),
        COLON,
        digit_byte(f.second / 10),
        digit_byte(f.second % 10),
        POINT,
        digit_byte(f.millisecond / 100),
        digit_byte(f.millisecond / 10 % 10),
        digit_byte(f.millisecond % 10),
    );
    lemma_digits_of(f.year);
    lemma_digits_of(f.month);
    lemma_digits_of(f.day);
    lemma_digits_of(f.hour);
    lemma_digits_of(f.minute);
    lemma_digits_of(f.second);
    lemma_digits_of(f.millisecond);
    assert(fields_of(s) == f);
    assert(well_shaped(s));
    d.lemma_fields_of();
}

/// A sequence written out item by item holds the items at their places.
proof fn lemma_literal(
    b0: u8,
    b1: u8,
    b2: u8,
    b3: u8,
    b4: u8,
    b5: u8,
    b6: u8,
    b7: u8,
    b8: u8,
    b9: u8,
    b10: u8,
    b11: u8,
    b12: u8,
    b13: u8,
    b14: u8,
    b15: u8,
    b16: u8,
    b17: u8,
    b18: u8,
    b19: u8,
    b20: u8,
    b21: u8,
    b22: u8,
)
    ensures
        ({
            let s = seq![
                b0,
                b1,
                b2,
                b3,
                b4,
                b5,
                b6,
                b7,
                b8,
                b9,
                b10,
                b11,
                b12,
                b13,
                b14,
                b15,
                b16,
                b17,
                b18,
                b19,
                b20,
                b21,
                b22,
            ];
            &&& s.len() == 23
            &&& s[0] == b0
            &&& s[1] == b1
            &&& s[2] == b2
            &&& s[3] == b3
            &&& s[4] == b4
            &&& s[5] == b5
            &&& s[6] == b6
            &&& s[7] == b7
            &&& s[8] == b8
            &&& s[9] == b9
            &&& s[10] == b10
            &&& s[11] == b11
            &&& s[12] == b12
            &&& s[13] == b13
            &&& s[14] == b14
            &&& s[15] == b15
            &&& s[16] == b16
            &&& s[17] == b17
            &&& s[18] == b18
            &&& s[19] == b19
            &&& s[20] == b20
            &&& s[21] == b21
            &&& s[22] == b22
        }),
{
}

/// The digits of a number below ten thousand are digits, and write it.
proof fn lemma_digits_of(n: int)
    requires
        0 <= n <= 9999,
    ensures
        digit(digit_byte(n / 1000)) && digit_byte(n / 1000) - ZERO == n / 1000,
        digit(digit_byte(n / 100 % 10)) && digit_byte(n / 100 % 10) - ZERO == n / 100 % 10,
        digit(digit_byte(n / 10 % 10)) && digit_byte(n / 10 % 10) - ZERO == n / 10 % 10,
        digit(digit_byte(n % 10)) && digit_byte(n % 10) - ZERO == n % 10,
        n / 1000 * 1000 + n / 100 % 10 * 100 + n / 10 % 10 * 10 + n % 10 == n,
        n <= 999 ==> digit(digit_byte(n / 100)) && digit_byte(n / 100) - ZERO == n / 100 && n / 100
            * 100 + n / 10 % 10 * 10 + n % 10 == n,
        n <= 99 ==> digit(digit_byte(n / 10)) && digit_byte(n / 10) - ZERO == n / 10 && n / 10 * 10
            + n % 10 == n,
{
    let tens = n / 10;
    let hundreds = tens / 10;
    let thousands = hundreds / 10;
    assert(n / 100 == hundreds) by {
        vstd::arithmetic::div_mod::lemma_div_denominator(n, 10, 10);
    }
    assert(n / 1000 == thousands) by {
        vstd::arithmetic::div_mod::lemma_div_denominator(n, 100, 10);
    }
    assert(n == tens * 10 + n % 10);
    assert(tens == hundreds * 10 + tens % 10);
    assert(hundreds == thousands * 10 + hundreds % 10);
    assert(0 <= thousands <= 9);
    lemma_digit_byte(thousands);
    lemma_digit_byte(hundreds % 10);
    lemma_digit_byte(tens % 10);
    lemma_digit_byte(n % 10);
    if n <= 999 {
        lemma_digit_byte(hundreds);
    }
    if n <= 99 {
        lemma_digit_byte(tens);
    }
}

/// The byte of a digit is a digit, and stands for it.
proof fn lemma_digit_byte(d: int)
    requires
        0 <= d <= 9,
    ensures
        digit(digit_byte(d)),
        digit_byte(d) - ZERO == d,
{
}

} // verus!
