//! Proleptic Gregorian calendar arithmetic on day numbers.
//!
//! A date `y-m-d` (year 1 to 9999) is mapped to the number of days since
//! 0001-01-01, which was a Monday; week arithmetic elsewhere leans on that
//! anchor.  The reverse direction is computed by search and is proved to be
//! the exact inverse.

use vstd::arithmetic::div_mod::lemma_div_is_ordered;
use vstd::prelude::*;

verus! {

/// Largest representable day number: 9999-12-31.
pub const MAX_DAY_CE: u64 = 3652058;

pub open spec fn spec_is_leap(y: int) -> bool {
    (y % 4 == 0 && y % 100 != 0) || y % 400 == 0
}

pub open spec fn spec_days_in_month(y: int, m: int) -> int {
    if m == 2 {
        if spec_is_leap(y) {
            29
        } else {
            28
        }
    } else if m == 4 || m == 6 || m == 9 || m == 11 {
        30
    } else {
        31
    }
}

pub open spec fn valid_ymd(y: int, m: int, d: int) -> bool {
    &&& 1 <= y <= 9999
    &&& 1 <= m <= 12
    &&& 1 <= d <= spec_days_in_month(y, m)
}

/// Complete days contained in years `1..=yp`: the classic leap-count form.
pub open spec fn spec_year_days(yp: int) -> int {
    365 * yp + yp / 4 - yp / 100 + yp / 400
}

/// Day of year of `m-d`, counted from March 1st as day 0 (so January and
/// February count into the preceding March-based year).
pub open spec fn spec_doy_mar(m: int, d: int) -> int {
    if m > 2 {
        (153 * (m - 3) + 2) / 5 + d - 1
    } else {
        (153 * (m + 9) + 2) / 5 + d - 1
    }
}

/// Days from 0001-01-01 to `y-m-d`.
pub open spec fn spec_days_ce(y: int, m: int, d: int) -> int {
    let yp = if m <= 2 {
        y - 1
    } else {
        y
    };
    spec_year_days(yp) + spec_doy_mar(m, d) - 306
}

pub fn is_leap(y: u64) -> (r: bool)
    ensures
        r == spec_is_leap(y as int),
{
    (y % 4 == 0 && y % 100 != 0) || y % 400 == 0
}

pub fn days_in_month(y: u64, m: u64) -> (r: u64)
    requires
        1 <= m <= 12,
    ensures
        r == spec_days_in_month(y as int, m as int),
{
    if m == 2 {
        if is_leap(y) {
            29
        } else {
            28
        }
    } else if m == 4 || m == 6 || m == 9 || m == 11 {
        30
    } else {
        31
    }
}

/// `x / d` never exceeds `x` for nonnegative `x` and positive `d`.
proof fn lemma_div_le_self(x: int, d: int)
    requires
        x >= 0,
        d >= 1,
    ensures
        0 <= x / d <= x,
{
    lemma_div_is_ordered(0, x, d);
    if x / d > x {
        vstd::arithmetic::div_mod::lemma_fundamental_div_mod(x, d);
        vstd::arithmetic::mul::lemma_mul_inequality(x + 1, x / d, d);
        vstd::arithmetic::mul::lemma_mul_is_commutative(x / d, d);
        assert((x + 1) * d >= x + 1) by (nonlinear_arith)
            requires
                d >= 1,
                x >= 0,
        ;
    }
}

/// Bounds of the year-days form needed by the searches below.
proof fn lemma_year_days_bounds(yp: int)
    requires
        0 <= yp,
    ensures
        364 * yp <= spec_year_days(yp) <= 366 * yp,
        spec_year_days(yp) >= 0,
{
    lemma_div_le_self(yp, 4);
    lemma_div_le_self(yp, 100);
    lemma_div_le_self(yp, 400);
    vstd::arithmetic::div_mod::lemma_div_is_ordered_by_denominator(yp, 100, 400);
    assert(yp / 400 <= yp / 100);
}

/// The year-days form is monotone.
proof fn lemma_year_days_ordered(a: int, b: int)
    requires
        0 <= a <= b,
    ensures
        spec_year_days(a) <= spec_year_days(b),
{
    lemma_div_is_ordered(a, b, 4);
    lemma_div_is_ordered(a, b, 400);
    vstd::arithmetic::div_mod::lemma_div_is_ordered_by_denominator(a, 100, 400);
    lemma_div_le_self(b - a, 100);
    // a/100 >= b/100 - (b - a): from (b-a)/100 <= b - a and ordering
    assert(b / 100 - a / 100 <= b - a) by {
        vstd::arithmetic::div_mod::lemma_sub_mod_noop(b, a, 100);
        vstd::arithmetic::div_mod::lemma_fundamental_div_mod(a, 100);
        vstd::arithmetic::div_mod::lemma_fundamental_div_mod(b, 100);
        assert(100 * (b / 100) - 100 * (a / 100) == (b - a) - b % 100 + a % 100);
        assert(100 * (b / 100 - a / 100) == 100 * (b / 100) - 100 * (a / 100))
            by (nonlinear_arith);
        if b / 100 - a / 100 > b - a {
            assert(100 * (b / 100 - a / 100) >= 100 * (b - a + 1)) by (nonlinear_arith)
                requires
                    b / 100 - a / 100 >= b - a + 1,
            ;
        }
    };
    assert(365 * b - 365 * a >= 365 * (b - a)) by (nonlinear_arith);
}

/// One more year adds 365 days, or 366 when the new year is a leap year.
proof fn lemma_year_days_step(yp: int)
    requires
        yp >= 0,
    ensures
        spec_year_days(yp + 1) == spec_year_days(yp) + 365 + if spec_is_leap(yp + 1) {
            1int
        } else {
            0int
        },
{
    lemma_div_step(yp, 4);
    lemma_div_step(yp, 100);
    lemma_div_step(yp, 400);
}

/// Stepping the numerator by one moves the quotient exactly at multiples.
proof fn lemma_div_step(x: int, n: int)
    requires
        x >= 0,
        n > 0,
    ensures
        (x + 1) / n == x / n + if (x + 1) % n == 0 {
            1int
        } else {
            0int
        },
{
    vstd::arithmetic::div_mod::lemma_fundamental_div_mod(x, n);
    vstd::arithmetic::div_mod::lemma_mod_division_less_than_divisor(x, n);
    let q = x / n;
    let r = x % n;
    assert(x == q * n + r) by (nonlinear_arith)
        requires
            x == n * q + r,
    ;
    if r + 1 < n {
        vstd::arithmetic::div_mod::lemma_fundamental_div_mod_converse(x + 1, n, q, r + 1);
    } else {
        assert(x + 1 == (q + 1) * n + 0) by (nonlinear_arith)
            requires
                x == q * n + r,
                r == n - 1,
        ;
        vstd::arithmetic::div_mod::lemma_fundamental_div_mod_converse(x + 1, n, q + 1, 0);
    }
}

/// Days from 0001-01-01 to `y-m-d`.
pub fn days_from_ymd(y: u64, m: u64, d: u64) -> (r: u64)
    requires
        valid_ymd(y as int, m as int, d as int),
    ensures
        r == spec_days_ce(y as int, m as int, d as int),
        r <= MAX_DAY_CE,
{
    let yp: u64 = if m <= 2 {
        y - 1
    } else {
        y
    };
    let mp: u64 = if m > 2 {
        m - 3
    } else {
        m + 9
    };
    let doy: u64 = (153 * mp + 2) / 5 + d - 1;
    let positive: u64 = 365 * yp + yp / 4 + yp / 400 + doy;
    let negative: u64 = yp / 100 + 306;
    proof {
        lemma_year_days_bounds(yp as int);
        lemma_div_le_self(yp as int, 4);
        lemma_div_le_self(yp as int, 100);
        lemma_div_le_self(yp as int, 400);
        lemma_year_days_ordered(yp as int, 9999);
        if m <= 2 {
            assert(doy >= 306);
        } else {
            assert(spec_year_days(yp as int) >= 364);
        }
    }
    positive - negative
}

/// `y-m-d` is the calendar date of day number `days`.
pub open spec fn day_has_ymd(days: int, y: int, m: int, d: int) -> bool {
    valid_ymd(y, m, d) && spec_days_ce(y, m, d) == days
}

/// The calendar date of a day number, as a `(year, month, day)` triple.
pub open spec fn spec_ymd_of_days(days: int) -> (int, int, int) {
    choose|t: (int, int, int)| day_has_ymd(days, t.0, t.1, t.2)
}

/// The first day of the next month comes exactly `days_in_month` later,
/// rolling into the next year after December.
pub proof fn lemma_month_step(y: int, m: int)
    requires
        1 <= y <= 9999,
        1 <= m <= 12,
    ensures
        m < 12 ==> spec_days_ce(y, m + 1, 1) == spec_days_ce(y, m, 1) + spec_days_in_month(y, m),
        m == 12 ==> spec_days_ce(y + 1, 1, 1) == spec_days_ce(y, m, 1) + spec_days_in_month(y, m),
{
    if m == 2 {
        lemma_year_days_step(y - 1);
        assert(spec_is_leap(y) == spec_is_leap((y - 1) + 1));
    } else if m == 12 {
        lemma_year_days_step(y - 1);
    }
}

/// Day numbers grow strictly along the ordering of valid dates.
pub proof fn lemma_month_start_lt(y: int, m: int, y2: int, m2: int)
    requires
        1 <= y <= 9999,
        1 <= m <= 12,
        1 <= y2 <= 9999,
        1 <= m2 <= 12,
        y < y2 || (y == y2 && m < m2),
    ensures
        spec_days_ce(y, m, 1) + spec_days_in_month(y, m) <= spec_days_ce(y2, m2, 1),
    decreases (y2 - y) * 12 + m2 - m,
{
    lemma_month_step(y, m);
    if m < 12 {
        if y == y2 && m + 1 == m2 {
        } else {
            lemma_month_start_lt(y, m + 1, y2, m2);
            assert(spec_days_in_month(y, m + 1) >= 28);
        }
    } else {
        if y + 1 == y2 && m2 == 1 {
        } else {
            lemma_month_start_lt(y + 1, 1, y2, m2);
            assert(spec_days_in_month(y + 1, 1) >= 28);
        }
    }
}

/// A valid date is pinned down by its day number.
pub proof fn lemma_ymd_unique(days: int, y: int, m: int, d: int, y2: int, m2: int, d2: int)
    requires
        day_has_ymd(days, y, m, d),
        day_has_ymd(days, y2, m2, d2),
    ensures
        y == y2 && m == m2 && d == d2,
{
    if y < y2 || (y == y2 && m < m2) {
        lemma_month_start_lt(y, m, y2, m2);
    } else if y2 < y || (y == y2 && m2 < m) {
        lemma_month_start_lt(y2, m2, y, m);
    }
}

/// The chosen date of a day number agrees with any witness.
pub proof fn lemma_ymd_of_days(days: int, y: int, m: int, d: int)
    requires
        day_has_ymd(days, y, m, d),
    ensures
        spec_ymd_of_days(days) == (y, m, d),
{
    let w = (y, m, d);
    assert(day_has_ymd(days, w.0, w.1, w.2));
    let t = choose|t: (int, int, int)| day_has_ymd(days, t.0, t.1, t.2);
    assert(day_has_ymd(days, t.0, t.1, t.2));
    lemma_ymd_unique(days, y, m, d, t.0, t.1, t.2);
}

/// Every representable day number is the day number of some valid date, so
/// the chosen date of a day number is sound to speak about.
pub proof fn lemma_date_exists(days: int)
    requires
        0 <= days <= MAX_DAY_CE,
    ensures
        exists|t: (int, int, int)| day_has_ymd(days, t.0, t.1, t.2),
        day_has_ymd(
            days,
            spec_ymd_of_days(days).0,
            spec_ymd_of_days(days).1,
            spec_ymd_of_days(days).2,
        ),
        valid_ymd(spec_ymd_of_days(days).0, spec_ymd_of_days(days).1, spec_ymd_of_days(days).2),
        spec_days_ce(spec_ymd_of_days(days).0, spec_ymd_of_days(days).1, spec_ymd_of_days(days).2)
            == days,
    decreases days,
{
    if days == 0 {
        let w = (1int, 1int, 1int);
        assert(day_has_ymd(days, w.0, w.1, w.2));
    } else {
        lemma_date_exists(days - 1);
        let p = choose|t: (int, int, int)| day_has_ymd(days - 1, t.0, t.1, t.2);
        let (y, m, d) = p;
        assert(day_has_ymd(days - 1, y, m, d));
        if d < spec_days_in_month(y, m) {
            let w = (y, m, d + 1);
            assert(day_has_ymd(days, w.0, w.1, w.2));
        } else if m < 12 {
            lemma_month_step(y, m);
            let w = (y, m + 1, 1int);
            assert(spec_days_ce(y, m, d) == spec_days_ce(y, m, 1) + d - 1);
            assert(day_has_ymd(days, w.0, w.1, w.2));
        } else {
            lemma_month_step(y, 12);
            if y == 9999 {
                assert(spec_days_ce(9999, 12, 31) == MAX_DAY_CE);
                assert(false);
            }
            let w = (y + 1, 1int, 1int);
            assert(day_has_ymd(days, w.0, w.1, w.2));
        }
    }
    let t = choose|t: (int, int, int)| day_has_ymd(days, t.0, t.1, t.2);
    lemma_ymd_of_days(days, t.0, t.1, t.2);
}

/// The calendar date of day number `days`, by searching the year and month
/// starts; exact inverse of `days_from_ymd`.
pub fn ymd_from_days(days: u64) -> (r: (u64, u64, u64))
    requires
        days <= MAX_DAY_CE,
    ensures
        day_has_ymd(days as int, r.0 as int, r.1 as int, r.2 as int),
        spec_ymd_of_days(days as int) == (r.0 as int, r.1 as int, r.2 as int),
{
    let mut y: u64 = days / 366 + 1;
    proof {
        lemma_year_days_bounds((days / 366) as int);
        lemma_div_le_self(days as int, 366);
        assert(366 * ((days as int) / 366) <= days) by {
            vstd::arithmetic::div_mod::lemma_fundamental_div_mod(days as int, 366);
            vstd::arithmetic::div_mod::lemma_mod_division_less_than_divisor(days as int, 366);
        };
        assert(spec_days_ce(y as int, 1, 1) == spec_year_days(y as int - 1));
        assert(days / 366 <= 3652058int / 366) by {
            lemma_div_is_ordered(days as int, 3652058, 366);
        };
    }
    while y < 9999 && days_from_ymd(y + 1, 1, 1) <= days
        invariant
            1 <= y <= 9999,
            days <= MAX_DAY_CE,
            spec_days_ce(y as int, 1, 1) <= days,
        decreases 9999 - y,
    {
        y = y + 1;
    }
    proof {
        if y == 9999 {
            assert(spec_days_ce(9999, 12, 31) == MAX_DAY_CE);
        }
    }
    let mut m: u64 = 1;
    while m < 12 && days_from_ymd(y, m + 1, 1) <= days
        invariant
            1 <= y <= 9999,
            1 <= m <= 12,
            days <= MAX_DAY_CE,
            spec_days_ce(y as int, m as int, 1) <= days,
            y < 9999 ==> days < spec_days_ce(y as int + 1, 1, 1),
            y == 9999 ==> days <= spec_days_ce(9999, 12, 31),
        decreases 12 - m,
    {
        m = m + 1;
    }
    proof {
        lemma_month_step(y as int, m as int);
        if m == 12 && y < 9999 {
            assert(spec_days_ce(y as int + 1, 1, 1) == spec_days_ce(y as int, 12, 1)
                + spec_days_in_month(y as int, 12));
        }
        if m == 12 && y == 9999 {
            assert(spec_days_ce(9999, 12, 31) == spec_days_ce(9999, 12, 1) + 30);
        }
    }
    let start = days_from_ymd(y, m, 1);
    let d = days - start + 1;
    proof {
        lemma_ymd_of_days(days as int, y as int, m as int, d as int);
    }
    (y, m, d)
}

} // verus!
