//! Dates and the serial numbers of days.
//!
//! Days are numbered from the start of 1900 or of 1904. In the numbering from
//! 1900, day 60 is the 29th of February 1900, a day that the calendar does not
//! have, and day 0 stands before the first day.

use crate::model::{DateSystem, ValueModel};
use crate::number::{clamp_i64, one};
use crate::value::{ErrorKind, Val, Value};
use vstd::prelude::*;

verus! {

/// A day of the calendar: its year, its month from 1 to 12, and its day of the
/// month from 1.
#[derive(Clone, Copy, Debug, PartialEq, Eq, Structural)]
pub struct Date {
    pub year: u32,
    pub month: u32,
    pub day: u32,
}

/// Why a serial number stands for no date.
#[derive(Clone, Copy, Debug, PartialEq, Eq, Structural)]
pub enum DateError {
    /// Day 0 of the numbering from 1900.
    JanuaryZero,
    /// The number is negative or past the end of the year 9999.
    OutOfRange,
}

/// A leap year of the calendar.
pub open spec fn leap(year: int) -> bool {
    year % 4 == 0 && (year % 100 != 0 || year % 400 == 0)
}

/// The number of days of a year.
pub open spec fn year_length(year: int) -> int {
    if leap(year) {
        366
    } else {
        365
    }
}

/// The number of days of a month.
pub open spec fn month_length(year: int, month: int) -> int {
    if month == 2 {
        if leap(year) {
            29
        } else {
            28
        }
    } else if month == 4 || month == 6 || month == 9 || month == 11 {
        30
    } else {
        31
    }
}

/// The number of days from the start of year `from` to the start of year `to`.
pub open spec fn days_between(from: int, to: int) -> int
    decreases to - from,
{
    if to <= from {
        0
    } else {
        days_between(from, to - 1) + year_length(to - 1)
    }
}

/// The number of days of a year before a month.
pub open spec fn days_before_month(year: int, month: int) -> int
    decreases month,
{
    if month <= 1 {
        0
    } else {
        days_before_month(year, month - 1) + month_length(year, month - 1)
    }
}

/// The date is one of the calendar.
pub open spec fn real_date(d: Date) -> bool {
    1 <= d.month <= 12 && 1 <= d.day <= month_length(d.year as int, d.month as int)
}

/// The number of days from the start of year `epoch` to the end of a date.
pub open spec fn days_since(epoch: int, d: Date) -> int {
    days_between(epoch, d.year as int) + days_before_month(d.year as int, d.month as int) + d.day
}

/// The day that the numbering from 1900 has and the calendar does not.
pub open spec fn phantom() -> Date {
    Date { year: 1900, month: 2, day: 29 }
}

/// The date `d` has the serial number `serial`.
pub open spec fn dated(system: DateSystem, serial: int, d: Date) -> bool {
    match system {
        DateSystem::From1904 => real_date(d) && d.year >= 1904 && serial == days_since(1904, d) - 1,
        DateSystem::From1900 => if serial == 60 {
            d == phantom()
        } else {
            real_date(d) && d.year >= 1900 && serial == days_since(1900, d) + if serial > 60 {
                1int
            } else {
                0int
            }
        },
    }
}

/// The serial number of the last day of the year 9999.
pub open spec fn last_serial(system: DateSystem) -> int {
    match system {
        DateSystem::From1900 => 2958465,
        DateSystem::From1904 => 2957003,
    }
}

/// Why a serial number stands for no date, if it does not.
pub open spec fn fault(system: DateSystem, serial: int) -> Option<DateError> {
    if serial < 0 || serial > last_serial(system) {
        Some(DateError::OutOfRange)
    } else if serial == 0 && system == DateSystem::From1900 {
        Some(DateError::JanuaryZero)
    } else {
        None
    }
}

/// The error value for a serial number that stands for no date.
pub open spec fn date_error(e: DateError) -> ErrorKind {
    match e {
        DateError::JanuaryZero => ErrorKind::Unsupported,
        DateError::OutOfRange => ErrorKind::Num,
    }
}

/// The serial number that a value stands for: its number, rounded down.
pub open spec fn serial_of(m: &ValueModel, v: Val) -> Result<int, ErrorKind> {
    match m.numeric(v) {
        Ok(n) => Ok(clamp_i64(n.units() / one())),
        Err(k) => Err(k),
    }
}

/// The serial number that a value stands for: its number, rounded down.
pub fn coerce_serial(m: &ValueModel, v: &Value) -> (r: Result<i64, ErrorKind>)
    ensures
        match r {
            Ok(s) => serial_of(m, v@) == Ok::<int, ErrorKind>(s as int),
            Err(k) => serial_of(m, v@) == Err::<int, ErrorKind>(k),
        },
{
    match m.to_number(v) {
        Ok(n) => Ok(n.floored()),
        Err(k) => Err(k),
    }
}

/// The error value for a serial number that stands for no date.
pub fn map_date_error(e: DateError) -> (k: ErrorKind)
    ensures
        k == date_error(e),
{
    match e {
        DateError::JanuaryZero => ErrorKind::Unsupported,
        DateError::OutOfRange => ErrorKind::Num,
    }
}

fn is_leap(year: u32) -> (b: bool)
    ensures
        b == leap(year as int),
{
    year % 4 == 0 && (year % 100 != 0 || year % 400 == 0)
}

fn days_in_month(year: u32, month: u32) -> (n: u32)
    ensures
        n == month_length(year as int, month as int),
        28 <= n <= 31,
{
    if month == 2 {
        if is_leap(year) {
            29
        } else {
            28
        }
    } else if month == 4 || month == 6 || month == 9 || month == 11 {
        30
    } else {
        31
    }
}

/// The months make up the year.
proof fn lemma_year_is_months(year: int)
    ensures
        days_before_month(year, 13) == year_length(year),
{
    reveal_with_fuel(days_before_month, 14);
}

/// The last day of the year 9999, counted from both starts.
proof fn lemma_last_days()
    ensures
        days_between(1900, 10000) == 2958464,
        days_between(1904, 10000) == 2957004,
{
    assert(days_between(1900, 10000) == 2958464) by {
        lemma_days_formula(1900, 10000);
    }
    assert(days_between(1904, 10000) == 2957004) by {
        lemma_days_formula(1904, 10000);
    }
}

/// The number of leap years before a year, counted from the year 1.
spec fn leaps_before(year: int) -> int {
    (year - 1) / 4 - (year - 1) / 100 + (year - 1) / 400
}

proof fn lemma_days_formula(from: int, to: int)
    requires
        1 <= from <= to,
    ensures
        days_between(from, to) == (to - from) * 365 + leaps_before(to) - leaps_before(from),
    decreases to - from,
{
    if from < to {
        lemma_days_formula(from, to - 1);
        assert(leaps_before(to) - leaps_before(to - 1) == if leap(to - 1) {
            1int
        } else {
            0int
        });
    }
}

/// The date that is `day` days after the end of the year before `epoch`.
fn date_from(epoch: u32, day: u32) -> (d: Date)
    requires
        1 <= epoch <= 9999,
        1 <= day <= days_between(epoch as int, 10000),
    ensures
        real_date(d),
        epoch <= d.year <= 9999,
        days_since(epoch as int, d) == day,
{
    let mut year: u32 = epoch;
    let mut left: u32 = day;
    let mut length: u32 = if is_leap(year) {
        366
    } else {
        365
    };
    while left > length
        invariant
            epoch <= year <= 9999,
            1 <= left,
            length == year_length(year as int),
            days_between(epoch as int, year as int) + left == day,
            day <= days_between(epoch as int, 10000),
        decreases left,
    {
        proof {
            if year == 9999 {
                assert(days_between(epoch as int, 10000) == days_between(epoch as int, 9999)
                    + year_length(9999));
            }
        }
        left = left - length;
        year = year + 1;
        length = if is_leap(year) {
            366
        } else {
            365
        };
    }
    let mut month: u32 = 1;
    let mut days = days_in_month(year, month);
    while left > days
        invariant
            1 <= month <= 12,
            1 <= left,
            days == month_length(year as int, month as int),
            28 <= days,
            days_between(epoch as int, year as int) + days_before_month(year as int, month as int) + left
                == day,
            days_before_month(year as int, month as int) + left <= year_length(year as int),
        decreases left,
    {
        proof {
            lemma_year_is_months(year as int);
            if month == 12 {
                assert(days_before_month(year as int, 13) == days_before_month(year as int, 12)
                    + month_length(year as int, 12));
            }
        }
        left = left - days;
        month = month + 1;
        days = days_in_month(year, month);
    }
    Date { year, month, day: left }
}

/// The date that a serial number stands for, or why it stands for none.
pub fn serial_to_ymd(serial: i64, system: DateSystem) -> (r: Result<Date, DateError>)
    ensures
        match r {
            Ok(d) => fault(system, serial as int) is None && dated(system, serial as int, d),
            Err(e) => fault(system, serial as int) == Some(e),
        },
{
    proof {
        lemma_last_days();
    }
    match system {
        DateSystem::From1900 => {
            if serial < 0 || serial > 2958465 {
                return Err(DateError::OutOfRange);
            }
            if serial == 0 {
                return Err(DateError::JanuaryZero);
            }
            if serial == 60 {
                return Ok(Date { year: 1900, month: 2, day: 29 });
            }
            let day = if serial > 60 {
                serial as u32 - 1
            } else {
                serial as u32
            };
            Ok(date_from(1900, day))
        },
        DateSystem::From1904 => {
            if serial < 0 || serial > 2957003 {
                return Err(DateError::OutOfRange);
            }
            Ok(date_from(1904, serial as u32 + 1))
        },
    }
}

proof fn lemma_months_increase(year: int, a: int, b: int)
    requires
        1 <= a < b,
    ensures
        days_before_month(year, a) + month_length(year, a) <= days_before_month(year, b),
    decreases b - a,
{
    if a < b - 1 {
        lemma_months_increase(year, a, b - 1);
    }
}

proof fn lemma_years_increase(epoch: int, a: int, b: int)
    requires
        epoch <= a < b,
    ensures
        days_between(epoch, a) + year_length(a) <= days_between(epoch, b),
    decreases b - a,
{
    if a < b - 1 {
        lemma_years_increase(epoch, a, b - 1);
    }
}

proof fn lemma_within_year(d: Date)
    requires
        real_date(d),
    ensures
        1 <= days_before_month(d.year as int, d.month as int) + d.day <= year_length(d.year as int),
{
    let (y, m) = (d.year as int, d.month as int);
    lemma_year_is_months(y);
    if m < 13 {
        lemma_months_increase(y, m, 13);
    }
    if m > 1 {
        lemma_months_increase(y, 1, m);
    }
}

proof fn lemma_days_determine(epoch: int, a: Date, b: Date)
    requires
        real_date(a),
        real_date(b),
        epoch <= a.year,
        epoch <= b.year,
        days_since(epoch, a) == days_since(epoch, b),
    ensures
        a == b,
{
    lemma_within_year(a);
    lemma_within_year(b);
    if a.year < b.year {
        lemma_years_increase(epoch, a.year as int, b.year as int);
    }
    if b.year < a.year {
        lemma_years_increase(epoch, b.year as int, a.year as int);
    }
    if a.month < b.month {
        lemma_months_increase(a.year as int, a.month as int, b.month as int);
    }
    if b.month < a.month {
        lemma_months_increase(a.year as int, b.month as int, a.month as int);
    }
}

/// The law of dates: a serial number stands for one date at most.
pub proof fn law_serial_determines_date(system: DateSystem, serial: int, a: Date, b: Date)
    requires
        dated(system, serial, a),
        dated(system, serial, b),
    ensures
        a == b,
{
    match system {
        DateSystem::From1904 => {
            lemma_days_determine(1904, a, b);
        },
        DateSystem::From1900 => {
            if serial != 60 {
                lemma_days_determine(1900, a, b);
            }
        },
    }
}

/// The law of the two numberings: the number of a day in the numbering from 1900
/// is 1462 above its number in the numbering from 1904.
pub proof fn law_numberings_differ_by_four_years(serial: int, d: Date)
    requires
        dated(DateSystem::From1904, serial, d),
        serial >= 0,
    ensures
        dated(DateSystem::From1900, serial + 1462, d),
{
    lemma_days_formula(1900, d.year as int);
    lemma_days_formula(1904, d.year as int);
    assert(leaps_before(1904) == leaps_before(1900));
}

/// A year with a 29th of February: every fourth, but of the hundreds only every fourth.
pub open spec fn has_leap_day(year: int) -> bool {
    if year % 100 == 0 {
        year % 400 == 0
    } else {
        year % 4 == 0
    }
}

/// The day is the last of its month. February of 1900 has the day that the numbering from
/// 1900 adds where `added` holds.
pub open spec fn ends_month(d: Date, added: bool) -> bool {
    match d.month {
        1 | 3 | 5 | 7 | 8 | 10 | 12 => d.day == 31,
        2 => d.day == if has_leap_day(d.year as int) || (added && d.year == 1900) {
            29int
        } else {
            28int
        },
        _ => d.day == 30,
    }
}

/// The day `e` is the one after the day `d`.
pub open spec fn next_day(d: Date, e: Date, added: bool) -> bool {
    if !ends_month(d, added) {
        e.year == d.year && e.month == d.month && e.day == d.day + 1
    } else if d.month == 12 {
        e.year == d.year + 1 && e.month == 1 && e.day == 1
    } else {
        e.year == d.year && e.month == d.month + 1 && e.day == 1
    }
}

/// The law of the first day: day 1 of the numbering from 1900 is the first of January 1900,
/// and day 0 of that from 1904 the first of January 1904.
pub proof fn law_numberings_start(d: Date)
    ensures
        dated(DateSystem::From1900, 1, d) <==> d.year == 1900 && d.month == 1 && d.day == 1,
        dated(DateSystem::From1904, 0, d) <==> d.year == 1904 && d.month == 1 && d.day == 1,
{
    let a = Date { year: 1900, month: 1, day: 1 };
    let b = Date { year: 1904, month: 1, day: 1 };
    assert(dated(DateSystem::From1900, 1, a));
    assert(dated(DateSystem::From1904, 0, b));
    if dated(DateSystem::From1900, 1, d) {
        law_serial_determines_date(DateSystem::From1900, 1, a, d);
    }
    if dated(DateSystem::From1904, 0, d) {
        law_serial_determines_date(DateSystem::From1904, 0, b, d);
    }
}

/// The law of the next day: the next serial number stands for the next day, with the 29th of
/// February 1900 among the days of the numbering from 1900.
pub proof fn law_next_number_is_next_day(system: DateSystem, serial: int, d: Date, e: Date)
    requires
        dated(system, serial, d),
        dated(system, serial + 1, e),
        d.year < 10000,
    ensures
        next_day(d, e, system == DateSystem::From1900),
{
    let added = system == DateSystem::From1900;
    let y = d.year as int;
    let m = d.month as int;
    assert(leap(y) == has_leap_day(y));
    let f = if !ends_month(d, added) {
        Date { year: d.year, month: d.month, day: (d.day + 1) as u32 }
    } else if d.month == 12 {
        Date { year: (d.year + 1) as u32, month: 1, day: 1 }
    } else {
        Date { year: d.year, month: (d.month + 1) as u32, day: 1 }
    };
    assert(days_before_month(y, 1) == 0);
    if d.month < 12 {
        assert(days_before_month(y, m + 1) == days_before_month(y, m) + month_length(y, m));
    } else {
        lemma_year_is_months(y);
        assert(days_before_month(y, 13) == days_before_month(y, 12) + month_length(y, 12));
        assert(days_before_month(y + 1, 1) == 0);
        let epoch: int = if added {
            1900
        } else {
            1904
        };
        if y >= epoch {
            assert(days_between(epoch, y + 1) == days_between(epoch, y) + year_length(y));
        }
    }
    if added {
        lemma_february(serial, d);
        lemma_february(serial + 1, e);
    }
    assert(dated(system, serial + 1, f));
    law_serial_determines_date(system, serial + 1, e, f);
}

/// The numbers of the last days of February 1900, and the number after them.
proof fn lemma_february(serial: int, d: Date)
    requires
        dated(DateSystem::From1900, serial, d),
    ensures
        serial == 59 <==> d == (Date { year: 1900, month: 2, day: 28 }),
        serial == 60 <==> d == phantom(),
        serial == 61 <==> d == (Date { year: 1900, month: 3, day: 1 }),
{
    let a = Date { year: 1900, month: 2, day: 28 };
    let b = Date { year: 1900, month: 3, day: 1 };
    reveal_with_fuel(days_before_month, 4);
    assert(dated(DateSystem::From1900, 59, a));
    assert(dated(DateSystem::From1900, 61, b));
    if serial == 59 {
        law_serial_determines_date(DateSystem::From1900, 59, a, d);
    }
    if serial == 61 {
        law_serial_determines_date(DateSystem::From1900, 61, b, d);
    }
}

} // verus!
