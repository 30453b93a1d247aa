//! Dates of the proleptic Gregorian calendar, counted as fixed day numbers: day 1 is 0001-01-01.
use vstd::prelude::*;

verus! {

pub open spec fn is_leap(year: int) -> bool {
    year % 4 == 0 && (year % 100 != 0 || year % 400 == 0)
}

pub open spec fn days_in_year(year: int) -> int {
    if is_leap(year) {
        366
    } else {
        365
    }
}

pub open spec fn days_in_month(year: int, month: int) -> int {
    if month == 2 {
        if is_leap(year) {
            29
        } else {
            28
        }
    } else if month == 4 || month == 6 || month == 9 || month == 11 {
        30
    } else {
        31
    }
}

/// The days of the years before `year`.
pub open spec fn days_before_year(year: int) -> int {
    365 * (year - 1) + (year - 1) / 4 - (year - 1) / 100 + (year - 1) / 400
}

/// The days of the months before `month` in `year`.
pub open spec fn days_before_month(year: int, month: int) -> int {
    let correction: int = if month <= 2 {
        0
    } else if is_leap(year) {
        1
    } else {
        2
    };
    (367 * month - 362) / 12 - correction
}

/// The fixed day number of a date.
pub open spec fn fixed_date(year: int, month: int, day: int) -> int {
    days_before_year(year) + days_before_month(year, month) + day
}

/// A year, month and day that name a real date.
pub open spec fn is_valid_date(year: int, month: int, day: int) -> bool {
    year >= 1 && 1 <= month <= 12 && 1 <= day <= days_in_month(year, month)
}

/// The largest year whose dates the conversions here handle.
pub const MAX_YEAR: u64 = 0xFFFF_FFFF;

pub proof fn lemma_days_in_year(year: int)
    requires
        year >= 1,
    ensures
        days_before_year(year + 1) == days_before_year(year) + days_in_year(year),
{
}

pub proof fn lemma_four_centuries(year: int)
    requires
        year >= 1,
    ensures
        days_before_year(year + 400) == days_before_year(year) + 146097,
{
    let x = year - 1;
    assert((x + 400) / 4 == x / 4 + 100);
    assert((x + 400) / 100 == x / 100 + 4);
    assert((x + 400) / 400 == x / 400 + 1);
}

pub proof fn lemma_days_in_month(year: int, month: int)
    requires
        1 <= month < 12,
    ensures
        days_before_month(year, month + 1) == days_before_month(year, month) + days_in_month(
            year,
            month,
        ),
{
}

pub fn is_gregorian_leap_year(year: u64) -> (r: bool)
    ensures
        r == is_leap(year as int),
{
    year % 4 == 0 && (year % 100 != 0 || year % 400 == 0)
}

/// The fixed day number of a date of the proleptic Gregorian calendar.
pub fn fixed_from_gregorian(year: u64, month: u64, day: u64) -> (r: u64)
    requires
        1 <= year <= MAX_YEAR,
        1 <= month <= 12,
        1 <= day <= 31,
    ensures
        r == fixed_date(year as int, month as int, day as int),
{
    let correction: u64 = if month <= 2 {
        0
    } else if is_gregorian_leap_year(year) {
        1
    } else {
        2
    };
    365 * (year - 1) + (year - 1) / 4 - (year - 1) / 100 + (year - 1) / 400 + ((367 * month - 362)
        / 12 + day - correction)
}

/// The largest fixed day number that `date_from_fixed` takes.
pub const MAX_DAY: u64 = 1_000_000_000_000;

proof fn lemma_cycles(n: nat)
    ensures
        days_before_year(400 * n as int + 1) == 146097 * n,
    decreases n,
{
    if n > 0 {
        lemma_cycles((n - 1) as nat);
        lemma_four_centuries(400 * (n - 1) + 1);
    }
}

proof fn lemma_year_lower_bound(year: int)
    requires
        year >= 1,
    ensures
        days_before_year(year) >= 365 * (year - 1),
{
    let x = year - 1;
    assert(x / 4 >= x / 100) by (nonlinear_arith)
        requires
            x >= 0,
    ;
}

fn year_length(year: u64) -> (r: u64)
    ensures
        r == days_in_year(year as int),
{
    if is_gregorian_leap_year(year) {
        366
    } else {
        365
    }
}

fn month_length(year: u64, month: u64) -> (r: u64)
    ensures
        r == days_in_month(year as int, month as int),
{
    if month == 2 {
        if is_gregorian_leap_year(year) {
            29
        } else {
            28
        }
    } else if month == 4 || month == 6 || month == 9 || month == 11 {
        30
    } else {
        31
    }
}

/// The date, as year, month and day, of a fixed day number.
pub fn date_from_fixed(date: u64) -> (r: (u64, u64, u64))
    requires
        1 <= date <= MAX_DAY,
    ensures
        is_valid_date(r.0 as int, r.1 as int, r.2 as int),
        fixed_date(r.0 as int, r.1 as int, r.2 as int) == date,
        r.0 <= MAX_YEAR,
{
    let d0 = date - 1;
    let cycles = d0 / 146097;
    let mut year = 400 * cycles + 1;
    let mut rem = d0 - 146097 * cycles;
    let ghost base = year as int;
    proof {
        lemma_cycles(cycles as nat);
        lemma_four_centuries(base);
    }
    while rem >= year_length(year)
        invariant
            base >= 1,
            base <= year <= base + 400,
            days_before_year(base + 400) == days_before_year(base) + 146097,
            d0 < days_before_year(base) + 146097,
            days_before_year(year as int) + rem == d0,
            d0 == date - 1,
            date <= MAX_DAY,
        decreases base + 400 - year,
    {
        proof {
            lemma_days_in_year(year as int);
        }
        rem = rem - year_length(year);
        year = year + 1;
    }
    proof {
        lemma_year_lower_bound(year as int);
    }
    let mut month: u64 = 1;
    let ghost in_year = rem;
    while month < 12 && rem >= month_length(year, month)
        invariant
            1 <= month <= 12,
            rem + days_before_month(year as int, month as int) == in_year,
            in_year < days_in_year(year as int),
        decreases 12 - month,
    {
        proof {
            lemma_days_in_month(year as int, month as int);
        }
        rem = rem - month_length(year, month);
        month = month + 1;
    }
    (year, month, rem + 1)
}

proof fn lemma_years_ordered(a: int, b: int)
    requires
        1 <= a <= b,
    ensures
        days_before_year(a) <= days_before_year(b),
    decreases b - a,
{
    if a < b {
        lemma_years_ordered(a, b - 1);
        lemma_days_in_year(b - 1);
    }
}

proof fn lemma_date_within_year(year: int, month: int, day: int)
    requires
        is_valid_date(year, month, day),
    ensures
        days_before_year(year) < fixed_date(year, month, day) <= days_before_year(year) + days_in_year(
            year,
        ),
        days_before_month(year, month) < fixed_date(year, month, day) - days_before_year(year),
        month < 12 ==> fixed_date(year, month, day) - days_before_year(year) <= days_before_month(
            year,
            month + 1,
        ),
{
}

/// A fixed day number names exactly one date.
pub proof fn lemma_date_unique(y1: int, m1: int, d1: int, y2: int, m2: int, d2: int)
    requires
        is_valid_date(y1, m1, d1),
        is_valid_date(y2, m2, d2),
        fixed_date(y1, m1, d1) == fixed_date(y2, m2, d2),
    ensures
        y1 == y2 && m1 == m2 && d1 == d2,
{
    lemma_date_within_year(y1, m1, d1);
    lemma_date_within_year(y2, m2, d2);
    if y1 < y2 {
        lemma_days_in_year(y1);
        lemma_years_ordered(y1 + 1, y2);
    } else if y2 < y1 {
        lemma_days_in_year(y2);
        lemma_years_ordered(y2 + 1, y1);
    }
    assert(y1 == y2);
}

} // verus!
