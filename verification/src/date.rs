//! Proleptic-Gregorian calendar dates and their day numbering.
//!
//! A [`Date`] is a plain (year, month, day) triple. Every date is mapped
//! to a day number: the count of calendar days since 1970-01-01 (day 0),
//! negative for earlier dates. Weekdays are read off the day number.

use vstd::prelude::*;

verus! {

/// Years are kept in a range wide enough for any realistic market date
/// while keeping all day arithmetic comfortably inside `i64`/`i32`.
pub const MIN_YEAR: i32 = -400000;

pub const MAX_YEAR: i32 = 400000;

/// A proleptic-Gregorian calendar date with no time-of-day component.
#[derive(Clone, Copy, Debug, PartialEq, Eq, Structural)]
pub struct Date {
    pub year: i32,
    pub month: u8,
    pub day: u8,
}

/// Gregorian leap-year rule, valid for all integers (years before 0
/// included) thanks to Euclidean remainders.
pub open spec fn is_leap_year(y: int) -> bool {
    y % 4 == 0 && (y % 100 != 0 || y % 400 == 0)
}

/// Length of month `m` (1-12) in year `y`.
pub open spec fn days_in_month(y: int, m: int) -> int {
    if m == 2 {
        if is_leap_year(y) {
            29
        } else {
            28
        }
    } else if m == 4 || m == 6 || m == 9 || m == 11 {
        30
    } else {
        31
    }
}

/// Number of leap years in `[0, y)` for `y >= 0`; for `y < 0`, minus the
/// number of leap years in `[y, 0)`. Year 0 itself is a leap year.
pub open spec fn leap_years_before(y: int) -> int {
    (y - 1) / 4 - (y - 1) / 100 + (y - 1) / 400 + 1
}

/// Calendar days from 0000-01-01 up to (not including) year `y`'s
/// January 1st; negative for years before 0.
pub open spec fn days_before_year(y: int) -> int {
    365 * y + leap_years_before(y)
}

/// Calendar days in the months before month `m` of a common year.
pub open spec fn month_offset(m: int) -> int {
    if m == 1 {
        0
    } else if m == 2 {
        31
    } else if m == 3 {
        59
    } else if m == 4 {
        90
    } else if m == 5 {
        120
    } else if m == 6 {
        151
    } else if m == 7 {
        181
    } else if m == 8 {
        212
    } else if m == 9 {
        243
    } else if m == 10 {
        273
    } else if m == 11 {
        304
    } else {
        334
    }
}

/// Calendar days in the months of year `y` before month `m`.
pub open spec fn days_before_month(y: int, m: int) -> int {
    month_offset(m) + if m > 2 && is_leap_year(y) {
        1int
    } else {
        0int
    }
}

/// Day number of 1970-01-01 counted from 0000-01-01.
pub open spec fn epoch_day_offset() -> int {
    719528
}

/// Weekday of day number `n` as an index 0 = Monday .. 6 = Sunday.
/// Day 0 (1970-01-01) was a Thursday, index 3.
pub open spec fn weekday_index(n: int) -> int {
    (n + 3) % 7
}

/// Whether day number `n` falls on a weekday (Monday-Friday).
pub open spec fn is_business_day_num(n: int) -> bool {
    weekday_index(n) <= 4
}

impl Date {
    /// A well-formed date: month and day in range for the year.
    pub open spec fn valid(self) -> bool {
        &&& MIN_YEAR <= self.year <= MAX_YEAR
        &&& 1 <= self.month <= 12
        &&& 1 <= self.day <= days_in_month(self.year as int, self.month as int)
    }

    /// Builds a date, or `None` when the triple is not a well-formed
    /// calendar date (month out of range, day past the month's end, or
    /// year outside the supported range).
    pub fn new(year: i32, month: u8, day: u8) -> (r: Option<Date>)
        ensures
            r is Some <==> (Date { year, month, day }).valid(),
            r is Some ==> r->Some_0 == (Date { year, month, day }),
    {
        if year < MIN_YEAR || year > MAX_YEAR {
            return None;
        }
        if month < 1 || month > 12 {
            return None;
        }
        if day < 1 || day > days_in_month_exec(year, month) {
            return None;
        }
        Some(Date { year, month, day })
    }

    /// Day number of this date: calendar days since 1970-01-01 (day 0),
    /// negative for earlier dates.
    pub open spec fn day_number(self) -> int {
        days_before_year(self.year as int) + days_before_month(
            self.year as int,
            self.month as int,
        ) + self.day - 1 - epoch_day_offset()
    }

    /// Computes the day number of this date.
    pub fn to_day_number(&self) -> (n: i64)
        requires
            self.valid(),
        ensures
            n == self.day_number(),
            -147000000 <= n <= 147000000,
    {
        let y: i64 = self.year as i64;
        // g = (y - 1) + 400400, shifted by a multiple of 4, 100 and 400
        // so the three quotients below are taken of a non-negative number.
        let g: u64 = (y + 400399) as u64;
        let q4: u64 = g / 4;
        let q100: u64 = g / 100;
        let q400: u64 = g / 400;
        proof {
            vstd::arithmetic::div_mod::lemma_div_is_ordered(g as int, 800399, 4);
            vstd::arithmetic::div_mod::lemma_div_is_ordered(g as int, 800399, 100);
            vstd::arithmetic::div_mod::lemma_div_is_ordered(g as int, 800399, 400);
            vstd::arithmetic::div_mod::lemma_div_pos_is_pos(g as int, 4);
            vstd::arithmetic::div_mod::lemma_div_pos_is_pos(g as int, 100);
            vstd::arithmetic::div_mod::lemma_div_pos_is_pos(g as int, 400);
            vstd::arithmetic::div_mod::lemma_hoist_over_denominator(y - 1, 100100, 4);
            vstd::arithmetic::div_mod::lemma_hoist_over_denominator(y - 1, 4004, 100);
            vstd::arithmetic::div_mod::lemma_hoist_over_denominator(y - 1, 1001, 400);
        }
        let leaps: i64 = q4 as i64 - q100 as i64 + q400 as i64 - 97096;
        let before_year: i64 = 365 * y + leaps;
        let before_month: i64 = month_offset_exec(self.month) as i64 + if self.month > 2
            && is_leap_year_exec(self.year) {
            1
        } else {
            0
        };
        before_year + before_month + self.day as i64 - 1 - 719528
    }

    /// Weekday of this date as an index 0 = Monday .. 6 = Sunday.
    pub fn weekday(&self) -> (w: u8)
        requires
            self.valid(),
        ensures
            w == weekday_index(self.day_number()),
    {
        let n: i64 = self.to_day_number();
        let shifted: u64 = (n + 3 + 210000000) as u64;
        proof {
            vstd::arithmetic::div_mod::lemma_mod_multiples_vanish(30000000, n + 3, 7);
            vstd::arithmetic::div_mod::lemma_mod_division_less_than_divisor(shifted as int, 7);
        }
        (shifted % 7) as u8
    }

    /// Whether this date falls on a weekday (Monday-Friday).
    pub fn is_business_day(&self) -> (r: bool)
        requires
            self.valid(),
        ensures
            r == is_business_day_num(self.day_number()),
    {
        self.weekday() <= 4
    }

    /// Strict calendar order: this date lies before `other`.
    pub open spec fn before(self, other: Date) -> bool {
        ||| self.year < other.year
        ||| (self.year == other.year && self.month < other.month)
        ||| (self.year == other.year && self.month == other.month && self.day < other.day)
    }
}

/// Quotients by a positive divisor step up by one exactly at multiples.
proof fn lemma_div_step(x: int, d: int)
    requires
        0 < d,
    ensures
        x / d - (x - 1) / d == if x % d == 0 {
            1int
        } else {
            0int
        },
{
    let q = x / d;
    let r = x % d;
    vstd::arithmetic::div_mod::lemma_fundamental_div_mod(x, d);
    vstd::arithmetic::div_mod::lemma_mod_division_less_than_divisor(x, d);
    if r == 0 {
        assert(x - 1 == (q - 1) * d + (d - 1)) by (nonlinear_arith)
            requires
                x == d * q + r,
                r == 0,
        ;
        vstd::arithmetic::div_mod::lemma_fundamental_div_mod_converse(x - 1, d, q - 1, d - 1);
    } else {
        assert(x - 1 == q * d + (r - 1)) by (nonlinear_arith)
            requires
                x == d * q + r,
        ;
        vstd::arithmetic::div_mod::lemma_fundamental_div_mod_converse(x - 1, d, q, r - 1);
    }
}

/// A year divisible by 100 is divisible by 4, and one divisible by 400
/// is divisible by 100.
proof fn lemma_year_mod_chain(y: int)
    ensures
        y % 100 == 0 ==> y % 4 == 0,
        y % 400 == 0 ==> y % 100 == 0,
{
    if y % 100 == 0 {
        vstd::arithmetic::div_mod::lemma_fundamental_div_mod(y, 100);
        let k = y / 100;
        assert(y == (25 * k) * 4) by (nonlinear_arith)
            requires
                y == 100 * k,
        ;
        vstd::arithmetic::div_mod::lemma_mod_multiples_basic(25 * k, 4);
    }
    if y % 400 == 0 {
        vstd::arithmetic::div_mod::lemma_fundamental_div_mod(y, 400);
        let k = y / 400;
        assert(y == (4 * k) * 100) by (nonlinear_arith)
            requires
                y == 400 * k,
        ;
        vstd::arithmetic::div_mod::lemma_mod_multiples_basic(4 * k, 100);
    }
}

/// Passing from year `y` to year `y + 1` adds exactly the length of
/// year `y`: 365 days, or 366 in a leap year.
proof fn lemma_days_before_year_step(y: int)
    ensures
        days_before_year(y + 1) == days_before_year(y) + 365 + if is_leap_year(y) {
            1int
        } else {
            0int
        },
{
    lemma_div_step(y, 4);
    lemma_div_step(y, 100);
    lemma_div_step(y, 400);
    lemma_year_mod_chain(y);
}

/// Later years begin at strictly larger day counts: each intervening
/// year contributes at least 365 and at most 366 days.
proof fn lemma_days_before_year_monotone(y1: int, y2: int)
    requires
        y1 <= y2,
    ensures
        days_before_year(y1) + 365 * (y2 - y1) <= days_before_year(y2),
        days_before_year(y2) <= days_before_year(y1) + 366 * (y2 - y1),
    decreases y2 - y1,
{
    if y1 < y2 {
        lemma_days_before_year_step(y2 - 1);
        lemma_days_before_year_monotone(y1, y2 - 1);
    }
}

/// The day-of-year offset of a valid date lies inside its year.
proof fn lemma_day_of_year_bounds(d: Date)
    requires
        d.valid(),
    ensures
        0 <= days_before_month(d.year as int, d.month as int) + d.day - 1,
        days_before_month(d.year as int, d.month as int) + d.day - 1 <= 364 + if is_leap_year(
            d.year as int,
        ) {
            1int
        } else {
            0int
        },
{
}

/// A strictly earlier calendar date has a strictly smaller day number.
proof fn lemma_day_number_increases(a: Date, b: Date)
    requires
        a.valid(),
        b.valid(),
        a.before(b),
    ensures
        a.day_number() < b.day_number(),
{
    let ya = a.year as int;
    let yb = b.year as int;
    lemma_day_of_year_bounds(a);
    lemma_day_of_year_bounds(b);
    if ya == yb {
        if a.month < b.month {
            assert(days_before_month(ya, a.month as int) + days_in_month(ya, a.month as int)
                <= days_before_month(ya, b.month as int));
        }
    } else {
        lemma_days_before_year_step(ya);
        lemma_days_before_year_monotone(ya + 1, yb);
        assert(365 * (yb - (ya + 1)) >= 0);
    }
}

/// Calendar order agrees with day-number order: a valid date lies
/// strictly before another exactly when its day number is smaller, and
/// two valid dates are equal exactly when their day numbers coincide.
pub proof fn lemma_calendar_order_matches_day_number(a: Date, b: Date)
    requires
        a.valid(),
        b.valid(),
    ensures
        a.before(b) <==> a.day_number() < b.day_number(),
        a == b <==> a.day_number() == b.day_number(),
{
    if a.before(b) {
        lemma_day_number_increases(a, b);
    }
    if b.before(a) {
        lemma_day_number_increases(b, a);
    }
    if !a.before(b) && !b.before(a) {
        assert(a.year == b.year && a.month == b.month && a.day == b.day);
    }
}

/// Calendar days in the months before month `m` of a common year.
pub fn month_offset_exec(m: u8) -> (r: u16)
    requires
        1 <= m <= 12,
    ensures
        r == month_offset(m as int),
{
    if m == 1 {
        0
    } else if m == 2 {
        31
    } else if m == 3 {
        59
    } else if m == 4 {
        90
    } else if m == 5 {
        120
    } else if m == 6 {
        151
    } else if m == 7 {
        181
    } else if m == 8 {
        212
    } else if m == 9 {
        243
    } else if m == 10 {
        273
    } else if m == 11 {
        304
    } else {
        334
    }
}

/// Whether year `y` is a Gregorian leap year.
pub fn is_leap_year_exec(y: i32) -> (r: bool)
    requires
        MIN_YEAR <= y <= MAX_YEAR,
    ensures
        r == is_leap_year(y as int),
{
    // Shift by a multiple of 400 so the remainders are taken of a
    // non-negative number; this leaves all three remainders unchanged.
    let g: u64 = (y + 400400) as u64;
    proof {
        vstd::arithmetic::div_mod::lemma_mod_multiples_vanish(100100, y as int, 4);
        vstd::arithmetic::div_mod::lemma_mod_multiples_vanish(4004, y as int, 100);
        vstd::arithmetic::div_mod::lemma_mod_multiples_vanish(1001, y as int, 400);
    }
    g % 4 == 0 && (g % 100 != 0 || g % 400 == 0)
}

/// Length of month `m` (1-12) in year `y`.
pub fn days_in_month_exec(y: i32, m: u8) -> (r: u8)
    requires
        MIN_YEAR <= y <= MAX_YEAR,
        1 <= m <= 12,
    ensures
        r == days_in_month(y as int, m as int),
{
    if m == 2 {
        if is_leap_year_exec(y) {
            29
        } else {
            28
        }
    } else if m == 4 || m == 6 || m == 9 || m == 11 {
        30
    } else {
        31
    }
}

} // verus!
