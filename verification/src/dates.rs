//! Proleptic Gregorian calendar arithmetic over epoch day numbers.
//!
//! A timestamp is a count of milliseconds since 1970-01-01T00:00:00Z. The
//! supported range runs from the epoch up to (excluding) the year 10000, so
//! every date fits the four-digit year of the record format.

use vstd::prelude::*;

verus! {

/// A calendar date in the supported range.
#[derive(Clone, Copy, PartialEq, Eq, Structural, Debug)]
pub struct CivilDate {
    pub year: u32,
    pub month: u32,
    pub day: u32,
}

pub open spec fn is_leap_year(y: int) -> bool {
    (y % 4 == 0 && y % 100 != 0) || y % 400 == 0
}

pub open spec fn days_in_year(y: int) -> int {
    if is_leap_year(y) {
        366
    } else {
        365
    }
}

pub open spec fn days_in_month(y: int, m: int) -> int {
    if m == 2 {
        if is_leap_year(y) {
            29
        } else {
            28
        }
    } else if m == 4 || m == 6 || m == 9 || m == 11 {
        30
    } else {
        31
    }
}

/// Days from the epoch to the start of year `y`.
pub open spec fn days_before_year(y: int) -> int
    decreases y - 1970,
{
    if y <= 1970 {
        0
    } else {
        days_before_year(y - 1) + days_in_year(y - 1)
    }
}

/// Days from the start of year `y` to the start of month `m` of that year.
pub open spec fn days_before_month(y: int, m: int) -> int
    decreases m,
{
    if m <= 1 {
        0
    } else {
        days_before_month(y, m - 1) + days_in_month(y, m - 1)
    }
}

pub open spec fn valid_date(y: int, m: int, d: int) -> bool {
    &&& 1970 <= y <= 9999
    &&& 1 <= m <= 12
    &&& 1 <= d <= days_in_month(y, m)
}

pub open spec fn date_valid(date: CivilDate) -> bool {
    valid_date(date.year as int, date.month as int, date.day as int)
}

/// Epoch day number of a calendar date.
pub open spec fn day_number(y: int, m: int, d: int) -> int {
    days_before_year(y) + days_before_month(y, m) + (d - 1)
}

/// Milliseconds in the supported timestamp range.
pub open spec fn ts_in_range(t: int) -> bool {
    0 <= t && t < days_before_year(10000) * 86_400_000
}

pub proof fn lemma_days_before_year_bounds(y1: int, y2: int)
    requires
        1970 <= y1 <= y2,
    ensures
        days_before_year(y1) + 365 * (y2 - y1) <= days_before_year(y2),
        days_before_year(y2) <= days_before_year(y1) + 366 * (y2 - y1),
    decreases y2 - y1,
{
    if y1 < y2 {
        lemma_days_before_year_bounds(y1, y2 - 1);
    }
}

/// The twelve months of a year cover exactly the days of that year.
pub proof fn lemma_months_cover_year(y: int)
    ensures
        days_before_month(y, 13) == days_in_year(y),
{
    reveal_with_fuel(days_before_month, 14);
}

pub fn days_in_year_exec(y: u32) -> (r: u32)
    ensures
        r == days_in_year(y as int),
{
    if (y % 4 == 0 && y % 100 != 0) || y % 400 == 0 {
        366
    } else {
        365
    }
}

pub fn days_in_month_exec(y: u32, m: u32) -> (r: u32)
    ensures
        r == days_in_month(y as int, m as int),
{
    if m == 2 {
        if (y % 4 == 0 && y % 100 != 0) || y % 400 == 0 {
            29
        } else {
            28
        }
    } else if m == 4 || m == 6 || m == 9 || m == 11 {
        30
    } else {
        31
    }
}

/// Number of days from the epoch to the start of the year 10000: the
/// exclusive upper bound of the supported day numbers.
pub fn max_epoch_days() -> (r: u32)
    ensures
        r == days_before_year(10000),
{
    let mut y: u32 = 1970;
    let mut acc: u32 = 0;
    while y < 10000
        invariant
            1970 <= y <= 10000,
            acc == days_before_year(y as int),
        decreases 10000 - y,
    {
        proof {
            lemma_days_before_year_bounds(1970, y as int);
            lemma_days_before_year_bounds(1970, y as int + 1);
        }
        acc = acc + days_in_year_exec(y);
        y = y + 1;
    }
    acc
}

/// True when `t` lies in the supported timestamp range.
pub fn ts_in_range_exec(t: i64) -> (r: bool)
    ensures
        r == ts_in_range(t as int),
{
    if t < 0 {
        return false;
    }
    let md = max_epoch_days();
    proof {
        lemma_days_before_year_bounds(1970, 10000);
    }
    t < (md as i64) * 86_400_000
}

/// Splits a supported timestamp into its epoch day and millisecond of day.
pub fn split_millis(t: i64) -> (r: (u32, u32))
    requires
        ts_in_range(t as int),
    ensures
        r.0 as int * 86_400_000 + r.1 as int == t as int,
        r.0 < days_before_year(10000),
        r.1 < 86_400_000,
{
    proof {
        lemma_days_before_year_bounds(1970, 10000);
        vstd::arithmetic::div_mod::lemma_fundamental_div_mod(t as int, 86_400_000);
        vstd::arithmetic::div_mod::lemma_div_is_ordered(
            t as int,
            days_before_year(10000) * 86_400_000 - 1,
            86_400_000,
        );
        assert((days_before_year(10000) * 86_400_000 - 1) / 86_400_000 == days_before_year(10000)
            - 1) by (nonlinear_arith);
    }
    let day = t / 86_400_000;
    let msod = t % 86_400_000;
    (day as u32, msod as u32)
}

/// Calendar date of a supported epoch day number.
pub fn civil_from_day(day: u32) -> (r: CivilDate)
    requires
        day < days_before_year(10000),
    ensures
        date_valid(r),
        day_number(r.year as int, r.month as int, r.day as int) == day,
{
    proof {
        lemma_days_before_year_bounds(1970, 10000);
    }
    let mut y: u32 = 1970;
    let mut rem: u32 = day;
    let mut dy = days_in_year_exec(y);
    while rem >= dy
        invariant
            1970 <= y <= 9999,
            days_before_year(y as int) + rem == day,
            dy == days_in_year(y as int),
            day < days_before_year(10000),
        decreases rem,
    {
        rem = rem - dy;
        y = y + 1;
        proof {
            if y as int > 9999 {
                lemma_days_before_year_bounds(10000, y as int);
                assert(false);
            }
        }
        dy = days_in_year_exec(y);
    }
    // rem is now the day of the year
    let mut m: u32 = 1;
    let mut dm = days_in_month_exec(y, m);
    proof {
        lemma_months_cover_year(y as int);
    }
    while rem >= dm
        invariant
            1 <= m <= 12,
            days_before_month(y as int, m as int) + rem < days_in_year(y as int),
            days_before_year(y as int) + days_before_month(y as int, m as int) + rem == day,
            dm == days_in_month(y as int, m as int),
            days_before_month(y as int, 13) == days_in_year(y as int),
            1970 <= y <= 9999,
        decreases rem,
    {
        rem = rem - dm;
        m = m + 1;
        proof {
            if m as int > 12 {
                assert(days_before_month(y as int, 13) <= days_before_month(y as int, m as int)
                    + rem);
                assert(false);
            }
        }
        dm = days_in_month_exec(y, m);
    }
    CivilDate { year: y, month: m, day: rem + 1 }
}

/// Epoch day number of a valid calendar date.
pub fn day_from_civil(date: CivilDate) -> (r: u32)
    requires
        date_valid(date),
    ensures
        r == day_number(date.year as int, date.month as int, date.day as int),
        r < days_before_year(10000),
{
    let mut y: u32 = 1970;
    let mut acc: u32 = 0;
    while y < date.year
        invariant
            1970 <= y <= date.year,
            acc == days_before_year(y as int),
            date_valid(date),
        decreases date.year - y,
    {
        proof {
            lemma_days_before_year_bounds(1970, y as int);
            lemma_days_before_year_bounds(1970, y as int + 1);
        }
        acc = acc + days_in_year_exec(y);
        y = y + 1;
    }
    let mut m: u32 = 1;
    while m < date.month
        invariant
            1 <= m <= date.month,
            acc == days_before_year(date.year as int) + days_before_month(
                date.year as int,
                m as int,
            ),
            date_valid(date),
        decreases date.month - m,
    {
        proof {
            lemma_days_before_year_bounds(1970, date.year as int);
            lemma_month_prefix_bound(date.year as int, m as int + 1);
        }
        acc = acc + days_in_month_exec(date.year, m);
        m = m + 1;
    }
    proof {
        lemma_days_before_year_bounds(1970, date.year as int);
        lemma_days_before_year_bounds(date.year as int, 10000);
        lemma_month_prefix_bound(date.year as int, m as int);
        lemma_months_cover_year(date.year as int);
        lemma_month_prefix_mono(date.year as int, m as int, 13);
    }
    acc + (date.day - 1)
}

/// A prefix of the months of a year spans at most 366 days.
pub proof fn lemma_month_prefix_bound(y: int, m: int)
    requires
        1 <= m <= 13,
    ensures
        0 <= days_before_month(y, m) <= 366,
{
    reveal_with_fuel(days_before_month, 14);
}

/// More months span at least as many days, plus the days of each month added.
pub proof fn lemma_month_prefix_mono(y: int, m1: int, m2: int)
    requires
        1 <= m1 <= m2 <= 13,
    ensures
        days_before_month(y, m1) + (if m1 < m2 {
            days_in_month(y, m1)
        } else {
            0
        }) <= days_before_month(y, m2),
    decreases m2 - m1,
{
    if m1 < m2 {
        lemma_month_prefix_mono(y, m1 + 1, m2);
    }
}

} // verus!
