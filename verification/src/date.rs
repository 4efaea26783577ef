//! A plain Gregorian calendar date, stored as a day number, together
//! with the day-number arithmetic the rest of the crate is specified
//! against.
//!
//! Day 1 is 1 January of year 1; the supported range runs to
//! 31 December 9999. Weekdays are numbered 0 = Sunday .. 6 = Saturday.

use vstd::arithmetic::div_mod::{
    lemma_div_is_ordered, lemma_fundamental_div_mod, lemma_mod_bound,
};
use vstd::prelude::*;

verus! {

/// Smallest supported day number: 1 January of year 1.
pub const MIN_DAY_NUMBER: i64 = 1;

/// Largest supported day number: 31 December of year 9999.
pub const MAX_DAY_NUMBER: i64 = 3652059;

/// Gregorian leap-year rule.
pub open spec fn is_leap_year(y: int) -> bool {
    (y % 4 == 0 && y % 100 != 0) || y % 400 == 0
}

/// Length in days of month `m` (1 = January .. 12 = December) of year `y`.
pub open spec fn days_in_month(y: int, m: int) -> int {
    if m == 2 {
        if is_leap_year(y) {
            29
        } else {
            28
        }
    } else if m == 4 || m == 6 || m == 9 || m == 11 {
        30
    } else {
        31
    }
}

/// Days of year `y` that lie before the first day of month `m`.
pub open spec fn days_before_month(y: int, m: int) -> int
    decreases m,
{
    if m <= 1 {
        0
    } else {
        days_before_month(y, m - 1) + days_in_month(y, m - 1)
    }
}

/// Days that lie before the first day of year `y`, counting from
/// 1 January of year 1.
pub open spec fn days_before_year(y: int) -> int {
    365 * (y - 1) + (y - 1) / 4 - (y - 1) / 100 + (y - 1) / 400
}

/// The day number of a calendar date: 1 January of year 1 is day 1.
pub open spec fn day_number(y: int, m: int, d: int) -> int {
    days_before_year(y) + days_before_month(y, m) + d
}

/// A year/month/day triple that names a real day of the supported range.
pub open spec fn valid_ymd(y: int, m: int, d: int) -> bool {
    &&& 1 <= y <= 9999
    &&& 1 <= m <= 12
    &&& 1 <= d <= days_in_month(y, m)
}

/// Weekday of a day number; 0 = Sunday .. 6 = Saturday.
pub open spec fn day_of_week(dn: int) -> int {
    dn % 7
}

/// A day of the week.
#[derive(Debug, PartialEq, Eq, Structural, Clone, Copy)]
pub enum Weekday {
    Sunday,
    Monday,
    Tuesday,
    Wednesday,
    Thursday,
    Friday,
    Saturday,
}

impl Weekday {
    /// Position of the weekday in the Sunday-first week, as an integer.
    pub open spec fn index(self) -> int {
        match self {
            Weekday::Sunday => 0,
            Weekday::Monday => 1,
            Weekday::Tuesday => 2,
            Weekday::Wednesday => 3,
            Weekday::Thursday => 4,
            Weekday::Friday => 5,
            Weekday::Saturday => 6,
        }
    }

    /// Days counted forward from Sunday to reach this weekday.
    pub fn num_days_from_sunday(self) -> (r: u8)
        ensures
            r as int == self.index(),
    {
        match self {
            Weekday::Sunday => 0,
            Weekday::Monday => 1,
            Weekday::Tuesday => 2,
            Weekday::Wednesday => 3,
            Weekday::Thursday => 4,
            Weekday::Friday => 5,
            Weekday::Saturday => 6,
        }
    }

    /// The weekday at position `i` of the Sunday-first week.
    pub fn from_index(i: u8) -> (r: Weekday)
        requires
            i < 7,
        ensures
            r.index() == i as int,
    {
        if i == 0 {
            Weekday::Sunday
        } else if i == 1 {
            Weekday::Monday
        } else if i == 2 {
            Weekday::Tuesday
        } else if i == 3 {
            Weekday::Wednesday
        } else if i == 4 {
            Weekday::Thursday
        } else if i == 5 {
            Weekday::Friday
        } else {
            Weekday::Saturday
        }
    }
}

/// A concrete calendar date, held as its day number.
#[derive(Debug, PartialEq, Eq, Structural, Clone, Copy, Hash)]
pub struct Date {
    days: i64,
}

impl View for Date {
    type V = int;

    closed spec fn view(&self) -> int {
        self.days as int
    }
}

impl Date {
    /// The date lies in the supported range.
    pub open spec fn wf(self) -> bool {
        MIN_DAY_NUMBER <= self@ <= MAX_DAY_NUMBER
    }

    /// The date of the given year, month and day.
    pub fn from_ymd(year: i32, month: u8, day: u8) -> (r: Date)
        requires
            valid_ymd(year as int, month as int, day as int),
        ensures
            r@ == day_number(year as int, month as int, day as int),
            r.wf(),
    {
        proof {
            lemma_day_number_in_range(year as int, month as int, day as int);
        }
        let before_year: u64 = days_before_year_exec(year);
        let before_month: u64 = month_offset(year, month);
        let dn: u64 = before_year + before_month + day as u64;
        Date { days: dn as i64 }
    }

    /// The year, month and day this date names: the inverse of
    /// `from_ymd`.
    pub fn to_ymd(self) -> (r: (i32, u8, u8))
        requires
            self.wf(),
        ensures
            valid_ymd(r.0 as int, r.1 as int, r.2 as int),
            day_number(r.0 as int, r.1 as int, r.2 as int) == self@,
    {
        let dn: u64 = self.days as u64;
        let mut year: i32 = 1;
        proof {
            lemma_days_before_year_nonneg(1);
            assert(days_before_year(10001int) == 365 * 10000int + 10000int / 4 - 10000int / 100
                + 10000int / 400);
            lemma_days_before_year_monotone(1, 2);
        }
        while !(dn <= days_before_year_exec(year + 1))
            invariant
                1 <= year <= 9999,
                MIN_DAY_NUMBER <= dn <= MAX_DAY_NUMBER,
                dn == self@,
                days_before_year(year as int) < dn,
            decreases 9999 - year,
        {
            proof {
                if year == 9999 {
                    assert(days_before_year(10000int) == 365 * 9999int + 9999int / 4 - 9999int
                        / 100 + 9999int / 400);
                    assert(false);
                }
                lemma_days_before_year_monotone(year as int + 1, year as int + 2);
            }
            year = year + 1;
        }
        let doy: u64 = dn - days_before_year_exec(year);
        proof {
            lemma_year_length(year as int);
            assert(days_before_month(year as int, 13) == 365 + if is_leap_year(
                year as int,
            ) {
                1int
            } else {
                0int
            }) by {
                reveal_with_fuel(days_before_month, 14);
            }
            assert(doy <= days_before_month(year as int, 13));
        }
        let mut month: u8 = 1;
        while month < 12 && doy > (month_offset(year, month) + days_in_month_exec(
            year,
            month,
        ) as u64)
            invariant
                1 <= month <= 12,
                1 <= year <= 9999,
                doy <= days_before_month(year as int, 13),
                days_before_month(year as int, month as int) < doy,
                days_before_month(year as int, month as int) <= 31 * (month as int - 1),
            decreases 12 - month,
        {
            proof {
                crate::date::lemma_days_before_month_plus_length(year as int, month as int);
                lemma_days_before_month_bounds(year as int, month as int + 1);
            }
            month = month + 1;
        }
        proof {
            crate::date::lemma_days_before_month_plus_length(year as int, month as int);
            lemma_days_before_month_bounds(year as int, month as int);
        }
        let day: u8 = (doy - month_offset(year, month)) as u8;
        (year, month, day)
    }

    /// The date with the given day number.
    pub fn from_day_number(days: i64) -> (r: Date)
        requires
            MIN_DAY_NUMBER <= days <= MAX_DAY_NUMBER,
        ensures
            r@ == days as int,
            r.wf(),
    {
        Date { days }
    }

    /// The day number of this date.
    pub fn day_number(self) -> (r: i64)
        ensures
            r as int == self@,
    {
        self.days
    }

    /// The date `n` days after this one (before it, for negative `n`).
    pub fn add_days(self, n: i64) -> (r: Date)
        requires
            self.wf(),
            MIN_DAY_NUMBER <= self@ + n <= MAX_DAY_NUMBER,
        ensures
            r@ == self@ + n,
            r.wf(),
    {
        Date { days: self.days + n }
    }

    /// The weekday this date falls on.
    pub fn weekday(self) -> (w: Weekday)
        requires
            self.wf(),
        ensures
            w.index() == day_of_week(self@),
    {
        let i: u8 = ((self.days as u64) % 7) as u8;
        Weekday::from_index(i)
    }
}

impl PartialOrd for Date {
    fn partial_cmp(&self, other: &Self) -> (r: Option<core::cmp::Ordering>) {
        if self.days < other.days {
            Some(core::cmp::Ordering::Less)
        } else if self.days == other.days {
            Some(core::cmp::Ordering::Equal)
        } else {
            Some(core::cmp::Ordering::Greater)
        }
    }
}

impl vstd::std_specs::cmp::PartialOrdSpecImpl for Date {
    open spec fn obeys_partial_cmp_spec() -> bool {
        true
    }

    open spec fn partial_cmp_spec(&self, other: &Self) -> Option<core::cmp::Ordering> {
        if self@ < other@ {
            Some(core::cmp::Ordering::Less)
        } else if self@ == other@ {
            Some(core::cmp::Ordering::Equal)
        } else {
            Some(core::cmp::Ordering::Greater)
        }
    }
}

/// The date value holding the given day number; the spec-level
/// counterpart of [`Date::from_day_number`].
pub closed spec fn date_with(dn: int) -> Date {
    Date { days: dn as i64 }
}

/// `date_with` holds the day number it is given, within the i64 range.
pub proof fn lemma_date_with(dn: int)
    requires
        MIN_DAY_NUMBER <= dn <= MAX_DAY_NUMBER,
    ensures
        date_with(dn)@ == dn,
{
}

/// Dates with the same day number are the same date.
pub proof fn lemma_date_injective(a: Date, b: Date)
    requires
        a@ == b@,
    ensures
        a == b,
{
}

/// Days before the first day of `year`, as an executable value.
pub fn days_before_year_exec(year: i32) -> (r: u64)
    requires
        1 <= year <= 10000,
    ensures
        r as int == days_before_year(year as int),
{
    let k: u64 = (year - 1) as u64;
    proof {
        lemma_div_is_ordered(k as int, 9999, 100);
    }
    365 * k + k / 4 - k / 100 + k / 400
}

/// The quotient by `d` grows by one exactly at the multiples of `d`.
proof fn lemma_div_step(y: int, d: int)
    requires
        d > 0,
    ensures
        y / d - (y - 1) / d == if y % d == 0 {
            1int
        } else {
            0int
        },
{
    lemma_fundamental_div_mod(y, d);
    lemma_mod_bound(y, d);
    let q = y / d;
    let r = y % d;
    if r == 0 {
        assert(y - 1 == (q - 1) * d + (d - 1)) by (nonlinear_arith)
            requires
                y == d * q + r,
                r == 0,
        ;
        vstd::arithmetic::div_mod::lemma_fundamental_div_mod_converse(y - 1, d, q - 1, d - 1);
    } else {
        assert(y - 1 == q * d + (r - 1)) by (nonlinear_arith)
            requires
                y == d * q + r,
        ;
        vstd::arithmetic::div_mod::lemma_fundamental_div_mod_converse(y - 1, d, q, r - 1);
    }
}

/// A year holds 365 days, or 366 in a leap year.
pub proof fn lemma_year_length(y: int)
    requires
        1 <= y,
    ensures
        days_before_year(y + 1) - days_before_year(y) == if is_leap_year(y) {
            366int
        } else {
            365int
        },
{
    lemma_div_step(y, 4);
    lemma_div_step(y, 100);
    lemma_div_step(y, 400);
    if y % 400 == 0 {
        vstd::arithmetic::div_mod::lemma_mod_mod(y, 100, 4);
        vstd::arithmetic::div_mod::lemma_mod_mod(y, 4, 25);
    } else if y % 100 == 0 {
        vstd::arithmetic::div_mod::lemma_mod_mod(y, 4, 25);
    } else if y % 4 == 0 {
    }
}

/// Whether `year` is a Gregorian leap year.
pub fn is_leap(year: i32) -> (r: bool)
    requires
        1 <= year,
    ensures
        r == is_leap_year(year as int),
{
    let y: u32 = year as u32;
    (y % 4 == 0 && y % 100 != 0) || y % 400 == 0
}

/// The length in days of the given month of the given year.
pub fn days_in_month_exec(year: i32, month: u8) -> (r: u8)
    requires
        1 <= year,
        1 <= month <= 12,
    ensures
        r as int == days_in_month(year as int, month as int),
{
    if month == 2 {
        if is_leap(year) {
            29
        } else {
            28
        }
    } else if month == 4 || month == 6 || month == 9 || month == 11 {
        30
    } else {
        31
    }
}

/// Days of year `year` that lie before the first day of `month`.
fn month_offset(year: i32, month: u8) -> (r: u64)
    requires
        1 <= year <= 9999,
        1 <= month <= 12,
    ensures
        r as int == days_before_month(year as int, month as int),
{
    let base: u64 = match month {
        1 => 0,
        2 => 31,
        3 => 59,
        4 => 90,
        5 => 120,
        6 => 151,
        7 => 181,
        8 => 212,
        9 => 243,
        10 => 273,
        11 => 304,
        _ => 334,
    };
    let r: u64 = if month > 2 && is_leap(year) {
        base + 1
    } else {
        base
    };
    proof {
        reveal_with_fuel(days_before_month, 13);
        assert(r as int == days_before_month(year as int, month as int));
    }
    r
}

/// Days before the start of a month never exceed a full year.
pub proof fn lemma_days_before_month_bounds(y: int, m: int)
    requires
        1 <= m <= 13,
    ensures
        0 <= days_before_month(y, m) <= 31 * (m - 1),
    decreases m,
{
    if m > 1 {
        lemma_days_before_month_bounds(y, m - 1);
    }
}

/// `days_before_year` does not decrease as the year grows.
pub proof fn lemma_days_before_year_monotone(y1: int, y2: int)
    requires
        1 <= y1 <= y2,
    ensures
        days_before_year(y1) <= days_before_year(y2),
        days_before_year(y2) - days_before_year(y1) >= 364 * (y2 - y1),
{
    let k1 = y1 - 1;
    let k2 = y2 - 1;
    lemma_fundamental_div_mod(k1, 100);
    lemma_fundamental_div_mod(k2, 100);
    lemma_mod_bound(k1, 100);
    lemma_mod_bound(k2, 100);
    lemma_div_is_ordered(k1, k2, 4);
    lemma_div_is_ordered(k1, k2, 400);
}

/// Every valid year/month/day triple has a day number in the supported range.
pub proof fn lemma_day_number_in_range(y: int, m: int, d: int)
    requires
        valid_ymd(y, m, d),
    ensures
        MIN_DAY_NUMBER <= day_number(y, m, d) <= MAX_DAY_NUMBER,
{
    lemma_days_before_month_bounds(y, m);
    lemma_days_before_year_nonneg(y);
    assert(day_number(y, m, d) >= 1);
    lemma_days_before_year_monotone(y, 9999);
    assert(days_before_year(9999) == 365 * 9998int + 9998int / 4 - 9998int / 100 + 9998int
        / 400);
    if y <= 9998 {
        lemma_days_before_year_monotone(y, 9998);
        assert(days_before_year(9998) == 365 * 9997int + 9997int / 4 - 9997int / 100 + 9997int
            / 400);
        assert(day_number(y, m, d) <= days_before_year(9998) + 31 * 11 + 31);
    } else {
        assert(!is_leap_year(9999));
        assert(days_before_month(y, m) + d <= days_before_month(y, m) + days_in_month(y, m));
        lemma_days_before_month_plus_length(9999, m);
        lemma_days_before_month_bounds(9999, m + 1);
        assert(days_before_month(9999, 13) == 365) by {
            reveal_with_fuel(days_before_month, 14);
        }
        assert(day_number(y, m, d) <= days_before_year(9999) + 365);
    }
}

/// Days before a month plus the month's length are the days before the
/// next month.
pub proof fn lemma_days_before_month_plus_length(y: int, m: int)
    requires
        1 <= m <= 12,
    ensures
        days_before_month(y, m) + days_in_month(y, m) == days_before_month(y, m + 1),
{
    reveal_with_fuel(days_before_month, 14);
}

/// `days_before_year` is never negative for supported years.
pub proof fn lemma_days_before_year_nonneg(y: int)
    requires
        1 <= y,
    ensures
        days_before_year(y) >= 0,
{
    let k = y - 1;
    lemma_fundamental_div_mod(k, 100);
    lemma_mod_bound(k, 100);
    lemma_div_is_ordered(0, k, 4);
    lemma_div_is_ordered(0, k, 400);
}

} // verus!
