//! Calendar arithmetic for forecast rows: month lengths, weekdays (Sakamoto's method, with
//! day-of-month overflow rolled into the following months) and ISO date fields.

use vstd::prelude::*;
use vstd::arithmetic::div_mod::lemma_fundamental_div_mod_converse;
use crate::text::{
    all_digits, chars_of, digit_char, digit_value, digits_value, four_digits, is_digit, parse_i64,
    parse_i64_spec, two_digits,
};

verus! {

/// The Gregorian leap-year rule.
pub open spec fn is_leap_year(y: int) -> bool {
    (y % 4 == 0 && y % 100 != 0) || y % 400 == 0
}

/// Days in month `m` of year `y`; a month number outside `1..=12` counts as 30 days.
pub open spec fn month_days(y: int, m: int) -> int {
    if m == 1 || m == 3 || m == 5 || m == 7 || m == 8 || m == 10 || m == 12 {
        31
    } else if m == 4 || m == 6 || m == 9 || m == 11 {
        30
    } else if m == 2 {
        if is_leap_year(y) {
            29
        } else {
            28
        }
    } else {
        30
    }
}

/// The month after `(y, m)`.
pub open spec fn next_month(y: int, m: int) -> (int, int) {
    if m + 1 > 12 {
        (y + 1, 1)
    } else {
        (y, m + 1)
    }
}

/// The date that day `d` of month `m` names once days past the month's end are carried into
/// the following months.
pub open spec fn roll_over(y: int, m: int, d: int) -> (int, int, int)
    decreases d,
{
    if d <= month_days(y, m) {
        (y, m, d)
    } else {
        let (y2, m2) = next_month(y, m);
        roll_over(y2, m2, d - month_days(y, m))
    }
}

/// Integer division rounding toward zero, as `/` does on machine integers.
pub open spec fn div_toward_zero(x: int, k: int) -> int {
    if x >= 0 {
        x / k
    } else {
        -((-x) / k)
    }
}

/// Sakamoto's per-month table.
pub open spec fn month_offset(m: int) -> int {
    if m == 1 {
        0
    } else if m == 2 {
        3
    } else if m == 3 {
        2
    } else if m == 4 {
        5
    } else if m == 5 {
        0
    } else if m == 6 {
        3
    } else if m == 7 {
        5
    } else if m == 8 {
        1
    } else if m == 9 {
        4
    } else if m == 10 {
        6
    } else if m == 11 {
        2
    } else {
        4
    }
}

/// Sakamoto's weekday formula (`0` = Sunday), with machine division.
pub open spec fn sakamoto(y: int, m: int, d: int) -> int {
    let yy = if m < 3 {
        y - 1
    } else {
        y
    };
    (yy + div_toward_zero(yy, 4) - div_toward_zero(yy, 100) + div_toward_zero(yy, 400)
        + month_offset(m) + d) % 7
}

/// The weekday index (`0` = Sunday … `6` = Saturday) of day `d` of month `m` in year `y`, days
/// past the month's end being carried into the following months.
pub open spec fn weekday_spec(y: int, m: int, d: int) -> int {
    let (y2, m2, d2) = roll_over(y, m, d);
    sakamoto(y2, m2, d2)
}

/// A remainder rounded toward zero is zero exactly when the floored one is.
proof fn lemma_rem_zero(x: int, k: int)
    requires
        k > 0,
    ensures
        (if x >= 0 {
            x % k
        } else {
            -((-x) % k)
        }) == 0 <==> x % k == 0,
{
    if x < 0 {
        vstd::arithmetic::div_mod::lemma_fundamental_div_mod(-x, k);
        vstd::arithmetic::div_mod::lemma_fundamental_div_mod(x, k);
        vstd::arithmetic::div_mod::lemma_mod_pos_bound(-x, k);
        let q = (-x) / k;
        let p = x / k;
        if (-x) % k == 0 {
            assert(x == (-q) * k) by (nonlinear_arith)
                requires
                    -x == k * q,
            ;
            lemma_fundamental_div_mod_converse(x, k, -q, 0);
        }
        if x % k == 0 {
            assert(-x == (-p) * k) by (nonlinear_arith)
                requires
                    x == k * p + 0,
            ;
            lemma_fundamental_div_mod_converse(-x, k, -p, 0);
        }
    }
}

/// Whether `y` is a leap year, with machine remainders.
fn leap_year(y: i64) -> (r: bool)
    ensures
        r == is_leap_year(y as int),
{
    let r4 = y % 4;
    let r100 = y % 100;
    let r400 = y % 400;
    proof {
        lemma_rem_zero(y as int, 4);
        lemma_rem_zero(y as int, 100);
        lemma_rem_zero(y as int, 400);
    }
    (r4 == 0 && r100 != 0) || r400 == 0
}

pub fn days_in_month(y: i64, m: i64) -> (r: i64)
    ensures
        r == month_days(y as int, m as int),
{
    match m {
        1 | 3 | 5 | 7 | 8 | 10 | 12 => 31,
        4 | 6 | 9 | 11 => 30,
        2 => {
            if leap_year(y) {
                29
            } else {
                28
            }
        },
        _ => 30,
    }
}

fn sakamoto_offset(m: i64) -> (r: i64)
    requires
        1 <= m <= 12,
    ensures
        r == month_offset(m as int),
{
    match m {
        1 => 0,
        2 => 3,
        3 => 2,
        4 => 5,
        5 => 0,
        6 => 3,
        7 => 5,
        8 => 1,
        9 => 4,
        10 => 6,
        11 => 2,
        _ => 4,
    }
}

/// Whether `x` fits in an `i64`.
pub open spec fn fits_i64(x: int) -> bool {
    i64::MIN <= x <= i64::MAX
}

/// Whether the weekday computation is defined for `(y, m, d)`: carrying days past the
/// month's end lands in a month `1..=12`, and no step of the carrying and of Sakamoto's
/// formula (summed left to right, as the code does) leaves the `i64` range.
pub open spec fn weekday_defined(y: int, m: int, d: int) -> bool {
    let (y2, m2, d2) = roll_over(y, m, d);
    let yy = if m2 < 3 {
        y2 - 1
    } else {
        y2
    };
    let s1 = yy + div_toward_zero(yy, 4);
    let s2 = s1 - div_toward_zero(yy, 100);
    let s3 = s2 + div_toward_zero(yy, 400);
    let s4 = s3 + month_offset(m2);
    let s5 = s4 + d2;
    &&& m < i64::MAX
    &&& 1 <= m2 <= 12
    &&& y2 <= i64::MAX
    &&& fits_i64(yy)
    &&& fits_i64(s1)
    &&& fits_i64(s2)
    &&& fits_i64(s3)
    &&& fits_i64(s4)
    &&& fits_i64(s5)
}

/// Carrying never moves the year back, and leaves a day that is the given one or positive
/// and smaller.
proof fn lemma_roll_over_bounds(y: int, m: int, d: int)
    ensures
        roll_over(y, m, d).0 >= y,
        roll_over(y, m, d).2 <= d,
        roll_over(y, m, d).2 == d || roll_over(y, m, d).2 > 0,
    decreases d,
{
    if d > month_days(y, m) {
        let (y2, m2) = next_month(y, m);
        lemma_roll_over_bounds(y2, m2, d - month_days(y, m));
    }
}

/// Carries a day-of-month past the month's end into the following months; `None` where
/// the year would pass `i64::MAX`.
fn carry_over(y: i64, m: i64, d: i64) -> (r: Option<(i64, i64, i64)>)
    requires
        m < i64::MAX,
    ensures
        r matches Some(t) ==> (t.0 as int, t.1 as int, t.2 as int) == roll_over(
            y as int,
            m as int,
            d as int,
        ),
        r is None ==> roll_over(y as int, m as int, d as int).0 > i64::MAX,
{
    let ghost (y0, m0, d0) = (y as int, m as int, d as int);
    let mut cy = y;
    let mut cm = m;
    let mut cd = d;
    loop
        invariant
            roll_over(y0, m0, d0) == roll_over(cy as int, cm as int, cd as int),
            y0 == y as int && m0 == m as int && d0 == d as int,
            cm < i64::MAX,
        ensures
            roll_over(y0, m0, d0) == (cy as int, cm as int, cd as int),
        decreases cd,
    {
        let dim = days_in_month(cy, cm);
        if cd <= dim {
            break;
        }
        let ghost (yp, mp, dp) = (cy as int, cm as int, cd as int);
        cd = cd - dim;
        cm = cm + 1;
        if cm > 12 {
            if cy == i64::MAX {
                proof {
                    assert(roll_over(yp, mp, dp) == roll_over(yp + 1, 1, cd as int));
                    lemma_roll_over_bounds(cy + 1, 1, cd as int);
                }
                return None;
            }
            cm = 1;
            cy = cy + 1;
        }
    }
    Some((cy, cm, cd))
}

/// Whether `weekday_index` accepts `(y, m, d)`.
pub fn weekday_supported(y: i64, m: i64, d: i64) -> (r: bool)
    ensures
        r == weekday_defined(y as int, m as int, d as int),
{
    if m == i64::MAX {
        return false;
    }
    let (y2, m2, d2) = match carry_over(y, m, d) {
        Some(t) => t,
        None => {
            return false;
        },
    };
    if !(1 <= m2 && m2 <= 12) {
        return false;
    }
    let lo: i128 = -0x8000_0000_0000_0000;
    let hi: i128 = 0x7fff_ffff_ffff_ffff;
    let yy: i128 = if m2 < 3 {
        y2 as i128 - 1
    } else {
        y2 as i128
    };
    let s1 = yy + yy / 4;
    let s2 = s1 - yy / 100;
    let s3 = s2 + yy / 400;
    let s4 = s3 + sakamoto_offset(m2) as i128;
    let s5 = s4 + d2 as i128;
    lo <= yy && yy <= hi && lo <= s1 && s1 <= hi && lo <= s2 && s2 <= hi && lo <= s3 && s3
        <= hi && lo <= s4 && s4 <= hi && lo <= s5 && s5 <= hi
}

/// Sakamoto's algorithm: the weekday index (`0` = Sunday … `6` = Saturday). A day-of-month
/// past the month's end is first carried into the following months.
pub fn weekday_index(y: i64, m: i64, d: i64) -> (w: u8)
    requires
        weekday_defined(y as int, m as int, d as int),
    ensures
        w as int == weekday_spec(y as int, m as int, d as int),
        w < 7,
        y >= 1 && 1 <= m <= 12 && d >= 1 ==> w as int == (gregorian_weekday(y as int, m as int, 1)
            + d - 1) % 7,
{
    proof {
        if y >= 1 && 1 <= m <= 12 && d >= 1 {
            lemma_weekday_is_gregorian(y as int, m as int, d as int);
        }
    }
    let (y, m, d) = match carry_over(y, m, d) {
        Some(t) => t,
        None => {
            proof {
                assert(false);
            }
            (y, 1, d)
        },
    };
    let yy = if m < 3 {
        y - 1
    } else {
        y
    };
    let s1 = yy + yy / 4;
    let s2 = s1 - yy / 100;
    let s3 = s2 + yy / 400;
    let s4 = s3 + sakamoto_offset(m);
    let s5 = s4 + d;
    let r = s5 % 7;
    let w = if r < 0 {
        r + 7
    } else {
        r
    };
    proof {
        assert(s5 as int % 7 == w);
    }
    w as u8
}

/// Weekday index for a base date advanced by `offset` days.
pub fn weekday_index_offset(y: i64, m: i64, d: i64, offset: i64) -> (w: u8)
    requires
        i64::MIN <= d + offset <= i64::MAX,
        weekday_defined(y as int, m as int, d + offset),
    ensures
        w as int == weekday_spec(y as int, m as int, d + offset),
        w < 7,
{
    weekday_index(y, m, d + offset)
}


/// Stepping `x` up by one raises `x / k` exactly when `x` becomes a multiple of `k`.
proof fn lemma_div_step(x: int, k: int)
    requires
        x >= 1,
        k > 0,
    ensures
        x / k - (x - 1) / k == (if x % k == 0 {
            1int
        } else {
            0int
        }),
{
    let q = (x - 1) / k;
    let r = (x - 1) % k;
    vstd::arithmetic::div_mod::lemma_mod_pos_bound(x - 1, k);
    vstd::arithmetic::div_mod::lemma_fundamental_div_mod(x - 1, k);
    assert(x - 1 == k * q + r);
    vstd::arithmetic::mul::lemma_mul_is_commutative(k, q);
    if r + 1 < k {
        lemma_fundamental_div_mod_converse(x, k, q, r + 1);
    } else {
        assert(x == (q + 1) * k) by {
            vstd::arithmetic::mul::lemma_mul_is_distributive_add_other_way(k, q, 1);
        }
        lemma_fundamental_div_mod_converse(x, k, q + 1, 0);
    }
}

/// The year-dependent part of Sakamoto's formula.
spec fn year_part(yy: int) -> int {
    yy + div_toward_zero(yy, 4) - div_toward_zero(yy, 100) + div_toward_zero(yy, 400)
}

/// From one year to the next the year part grows by one, or by two into a leap year.
proof fn lemma_year_part_step(y: int)
    requires
        y >= 1,
    ensures
        year_part(y) - year_part(y - 1) == (if is_leap_year(y) {
            2int
        } else {
            1int
        }),
{
    lemma_div_step(y, 4);
    lemma_div_step(y, 100);
    lemma_div_step(y, 400);
    assert(y % 400 == 0 ==> y % 100 == 0) by {
        vstd::arithmetic::div_mod::lemma_fundamental_div_mod(y, 400);
        vstd::arithmetic::div_mod::lemma_fundamental_div_mod(y, 100);
        if y % 400 == 0 {
            lemma_fundamental_div_mod_converse(y, 100, (y / 400) * 4, 0);
        }
    }
    assert(y % 100 == 0 ==> y % 4 == 0) by {
        if y % 100 == 0 {
            vstd::arithmetic::div_mod::lemma_fundamental_div_mod(y, 100);
            lemma_fundamental_div_mod_converse(y, 4, (y / 100) * 25, 0);
        }
    }
}

/// Sakamoto's formula moves on by one weekday from the last day of a month to the first day
/// of the next.
proof fn lemma_month_end(y: int, m: int)
    requires
        y >= 1,
        1 <= m <= 12,
    ensures
        ({
            let (y2, m2) = next_month(y, m);
            sakamoto(y2, m2, 1) == (sakamoto(y, m, month_days(y, m)) + 1) % 7
        }),
{
    let yy = if m < 3 {
        y - 1
    } else {
        y
    };
    let a = year_part(yy) + month_offset(m) + month_days(y, m);
    assert(sakamoto(y, m, month_days(y, m)) == a % 7);
    vstd::arithmetic::div_mod::lemma_add_mod_noop(a, 1, 7);
    assert((a % 7 + 1) % 7 == (a + 1) % 7) by {
        vstd::arithmetic::div_mod::lemma_add_mod_noop(a, 1, 7);
        vstd::arithmetic::div_mod::lemma_mod_twice(a, 7);
        vstd::arithmetic::div_mod::lemma_add_mod_noop(a % 7, 1, 7);
    }
    if m == 2 {
        lemma_year_part_step(y);
        let b = year_part(y) + month_offset(3) + 1;
        assert(b == a + 1 - 28);
        vstd::arithmetic::div_mod::lemma_mod_multiples_vanish(-4, a + 1, 7);
        assert(b % 7 == (a + 1) % 7) by {
            vstd::arithmetic::div_mod::lemma_mod_multiples_vanish(-4, b + 28, 7);
            assert(b == 7 * -4 + (a + 1));
        }
    } else {
        let (y2, m2) = next_month(y, m);
        let yy2 = if m2 < 3 {
            y2 - 1
        } else {
            y2
        };
        assert(yy2 == yy);
        let b = year_part(yy) + month_offset(m2) + 1;
        let k = (b - (a + 1)) / 7;
        assert(b - (a + 1) == 7 * k);
        vstd::arithmetic::div_mod::lemma_mod_multiples_vanish(k, a + 1, 7);
    }
}

/// Consecutive days have consecutive weekdays: advancing the day of the month by one
/// advances the weekday by one, also where the day runs past the end of the month.
pub proof fn lemma_next_day_next_weekday(y: int, m: int, d: int)
    requires
        y >= 1,
        1 <= m <= 12,
    ensures
        weekday_spec(y, m, d + 1) == (weekday_spec(y, m, d) + 1) % 7,
    decreases d,
{
    let dim = month_days(y, m);
    if d + 1 <= dim {
        let yy = if m < 3 {
            y - 1
        } else {
            y
        };
        let a = year_part(yy) + month_offset(m) + d;
        assert((a % 7 + 1) % 7 == (a + 1) % 7) by {
            vstd::arithmetic::div_mod::lemma_add_mod_noop(a, 1, 7);
            vstd::arithmetic::div_mod::lemma_mod_twice(a, 7);
        }
    } else if d == dim {
        let (y2, m2) = next_month(y, m);
        assert(roll_over(y2, m2, 1) == (y2, m2, 1int));
        lemma_month_end(y, m);
    } else {
        let (y2, m2) = next_month(y, m);
        assert(roll_over(y, m, d) == roll_over(y2, m2, d - dim));
        assert(roll_over(y, m, d + 1) == roll_over(y2, m2, d + 1 - dim));
        lemma_next_day_next_weekday(y2, m2, d - dim);
    }
}



/// Days in year `y`.
pub open spec fn year_days(y: int) -> int {
    if is_leap_year(y) {
        366
    } else {
        365
    }
}

/// Days from 1 January of year 1 to 1 January of year `y`, counted year by year.
pub open spec fn days_before_year(y: int) -> int
    decreases y,
{
    if y <= 1 {
        0
    } else {
        days_before_year(y - 1) + year_days(y - 1)
    }
}

/// Days from 1 January to the first of month `m` of year `y`, counted month by month.
pub open spec fn days_before_month(y: int, m: int) -> int
    decreases m,
{
    if m <= 1 {
        0
    } else {
        days_before_month(y, m - 1) + month_days(y, m - 1)
    }
}

/// The number of day `d` of month `m` of year `y` in the proleptic Gregorian calendar,
/// counting 1 January of year 1 as day 0.
pub open spec fn day_number(y: int, m: int, d: int) -> int {
    days_before_year(y) + days_before_month(y, m) + d - 1
}

/// The proleptic Gregorian weekday (`0` = Sunday): 1 January of year 1 was a Monday.
pub open spec fn gregorian_weekday(y: int, m: int, d: int) -> int {
    (day_number(y, m, d) + 1) % 7
}

proof fn lemma_mod_add(a: int, k: int)
    ensures
        (a % 7 + k) % 7 == (a + k) % 7,
{
    vstd::arithmetic::div_mod::lemma_add_mod_noop_right(k, a, 7);
}

/// Advancing the day by `k` advances the weekday by `k`.
pub proof fn lemma_weekday_advance(y: int, m: int, d: int, k: int)
    requires
        y >= 1,
        1 <= m <= 12,
        k >= 0,
    ensures
        weekday_spec(y, m, d + k) == (weekday_spec(y, m, d) + k) % 7,
    decreases k,
{
    if k == 0 {
        vstd::arithmetic::div_mod::lemma_mod_twice(sakamoto_sum(y, m, d), 7);
        lemma_weekday_in_range(y, m, d);
        vstd::arithmetic::div_mod::lemma_small_mod(weekday_spec(y, m, d) as nat, 7);
    } else {
        lemma_weekday_advance(y, m, d, k - 1);
        lemma_next_day_next_weekday(y, m, d + k - 1);
        lemma_mod_add(weekday_spec(y, m, d) + k - 1, 1);
    }
}

spec fn sakamoto_sum(y: int, m: int, d: int) -> int {
    let (y2, m2, d2) = roll_over(y, m, d);
    let yy = if m2 < 3 {
        y2 - 1
    } else {
        y2
    };
    year_part(yy) + month_offset(m2) + d2
}

proof fn lemma_weekday_in_range(y: int, m: int, d: int)
    ensures
        0 <= weekday_spec(y, m, d) < 7,
        weekday_spec(y, m, d) == sakamoto_sum(y, m, d) % 7,
{
}

/// A week later is the same weekday.
pub proof fn lemma_weekday_period(y: int, m: int, d: int)
    requires
        y >= 1,
        1 <= m <= 12,
    ensures
        weekday_spec(y, m, d + 7) == weekday_spec(y, m, d),
{
    lemma_weekday_advance(y, m, d, 7);
    lemma_weekday_in_range(y, m, d);
    let w = weekday_spec(y, m, d);
    vstd::arithmetic::div_mod::lemma_mod_add_multiples_vanish(w, 7);
    vstd::arithmetic::div_mod::lemma_small_mod(w as nat, 7);
}

proof fn lemma_first_of_month(y: int, m: int)
    requires
        y >= 1,
        1 <= m <= 12,
    ensures
        weekday_spec(y, m, 1) == gregorian_weekday(y, m, 1),
    decreases y, m,
{
    if m > 1 {
        let dim = month_days(y, m - 1);
        lemma_first_of_month(y, m - 1);
        assert(roll_over(y, m - 1, 1 + dim) == roll_over(y, m, 1));
        lemma_weekday_advance(y, m - 1, 1, dim);
        lemma_mod_add(day_number(y, m - 1, 1) + 1, dim);
        assert(day_number(y, m, 1) == day_number(y, m - 1, 1) + dim);
    } else if y > 1 {
        lemma_first_of_month(y - 1, 12);
        assert(roll_over(y - 1, 12, 32) == roll_over(y, 1, 1));
        lemma_weekday_advance(y - 1, 12, 1, 31);
        lemma_mod_add(day_number(y - 1, 12, 1) + 1, 31);
        assert(days_before_month(y - 1, 12) + 31 == year_days(y - 1)) by {
            reveal_with_fuel(days_before_month, 12);
        }
        assert(day_number(y, 1, 1) == day_number(y - 1, 12, 1) + 31);
    } else {
        assert(roll_over(1, 1, 1) == (1int, 1int, 1int));
        assert(div_toward_zero(0, 4) == 0);
        assert(div_toward_zero(0, 100) == 0);
        assert(div_toward_zero(0, 400) == 0);
        assert(day_number(1, 1, 1) == 0);
    }
}

/// The weekday computation agrees with the proleptic Gregorian calendar counted day by day
/// from 1 January of year 1: day `d` of a month (also past its end) falls `d - 1` days after
/// the first of the month.
pub proof fn lemma_weekday_is_gregorian(y: int, m: int, d: int)
    requires
        y >= 1,
        1 <= m <= 12,
        d >= 1,
    ensures
        weekday_spec(y, m, d) == (gregorian_weekday(y, m, 1) + d - 1) % 7,
        d <= month_days(y, m) ==> weekday_spec(y, m, d) == gregorian_weekday(y, m, d),
{
    lemma_first_of_month(y, m);
    lemma_weekday_advance(y, m, 1, d - 1);
    lemma_mod_add(day_number(y, m, 1) + 1, d - 1);
}

/// The characters that separate the fields of an ISO date or timestamp.
pub open spec fn is_date_sep(c: char) -> bool {
    c == '-' || c == 'T'
}

/// The fields of `s` between separators, as `str::split` yields them (at least one, possibly
/// empty).
pub open spec fn date_fields(s: Seq<char>) -> Seq<Seq<char>>
    decreases s.len(),
{
    if s.len() == 0 {
        seq![Seq::<char>::empty()]
    } else {
        let f = date_fields(s.drop_last());
        if is_date_sep(s.last()) {
            f.push(Seq::<char>::empty())
        } else {
            f.update(f.len() - 1, f.last().push(s.last()))
        }
    }
}

/// Field `k` of `s` read as an integer, or `default` where the field is missing or is not
/// an `i64`.
pub open spec fn date_field_or(s: Seq<char>, k: int, default: i64) -> i64 {
    let f = date_fields(s);
    if k < f.len() {
        match parse_i64_spec(f[k]) {
            Some(v) => v,
            None => default,
        }
    } else {
        default
    }
}

/// The `(year, month, day)` that `parse_ymd` reads from `s`: each of the first three fields
/// that parses, else 2026, 1 and 1.
pub open spec fn ymd_spec(s: Seq<char>) -> (i64, i64, i64) {
    (date_field_or(s, 0, 2026), date_field_or(s, 1, 1), date_field_or(s, 2, 1))
}

proof fn lemma_date_fields_nonempty(s: Seq<char>)
    ensures
        date_fields(s).len() >= 1,
    decreases s.len(),
{
    if s.len() > 0 {
        lemma_date_fields_nonempty(s.drop_last());
    }
}

spec fn views(v: Seq<Vec<char>>) -> Seq<Seq<char>> {
    v.map_values(|x: Vec<char>| x@)
}

fn field_or(done: &Vec<Vec<char>>, cur: &Vec<char>, k: usize, default: i64) -> (r: i64)
    ensures
        ({
            let f = views(done@).push(cur@);
            r == (if k < f.len() {
                match parse_i64_spec(f[k as int]) {
                    Some(v) => v,
                    None => default,
                }
            } else {
                default
            })
        }),
{
    let parsed = if k < done.len() {
        parse_i64(&done[k])
    } else if k == done.len() {
        parse_i64(cur)
    } else {
        return default;
    };
    match parsed {
        Some(v) => v,
        None => default,
    }
}

/// Splits an ISO date such as `2026-07-15` (or a timestamp `2026-07-15T06:12`) into
/// year, month and day, falling back to 2026, 1 and 1 for fields that do not parse.
pub fn parse_ymd(date: &str) -> (r: (i64, i64, i64))
    ensures
        r == ymd_spec(date@),
{
    let chars = chars_of(date);
    let mut done: Vec<Vec<char>> = Vec::new();
    let mut cur: Vec<char> = Vec::new();
    let mut i: usize = 0;
    proof {
        assert(chars@.take(0) =~= Seq::<char>::empty());
        assert(views(done@).push(cur@) =~= seq![Seq::<char>::empty()]);
    }
    while i < chars.len()
        invariant
            i <= chars@.len(),
            chars@ == date@,
            views(done@).push(cur@) == date_fields(chars@.take(i as int)),
        decreases chars@.len() - i,
    {
        let c = chars[i];
        let ghost d0 = done@;
        let ghost c0 = cur@;
        proof {
            let p = chars@.take(i + 1);
            assert(p.drop_last() =~= chars@.take(i as int));
            assert(p.last() == c);
        }
        if c == '-' || c == 'T' {
            let finished = cur;
            done.push(finished);
            cur = Vec::new();
            proof {
                assert(views(done@) =~= views(d0).push(c0));
                assert(views(done@).push(cur@) =~= views(d0).push(c0).push(Seq::<char>::empty()));
            }
        } else {
            cur.push(c);
            proof {
                assert(views(done@).push(cur@) =~= views(d0).push(c0).update(
                    views(d0).len() as int,
                    c0.push(c),
                ));
            }
        }
        i = i + 1;
    }
    assert(chars@.take(i as int) =~= date@);
    let y = field_or(&done, &cur, 0, 2026);
    let m = field_or(&done, &cur, 1, 1);
    let d = field_or(&done, &cur, 2, 1);
    (y, m, d)
}


/// The text of an ISO date: the year zero-padded to four digits, month and day to two,
/// joined by `-`.
pub open spec fn iso_date(y: int, m: int, d: int) -> Seq<char> {
    four_digits(y) + seq!['-'] + two_digits(m) + seq!['-'] + two_digits(d)
}

proof fn lemma_fields_of_one(w: Seq<char>)
    requires
        forall|i: int| 0 <= i < w.len() ==> !is_date_sep(#[trigger] w[i]),
    ensures
        date_fields(w) == seq![w],
    decreases w.len(),
{
    if w.len() > 0 {
        lemma_fields_of_one(w.drop_last());
        assert(!is_date_sep(w[w.len() - 1]));
        assert(w.drop_last().push(w.last()) =~= w);
        assert(seq![w.drop_last()].update(0, w.drop_last().push(w.last())) =~= seq![w]);
    } else {
        assert(w =~= Seq::<char>::empty());
    }
}

proof fn lemma_fields_split(a: Seq<char>, x: char, b: Seq<char>)
    requires
        is_date_sep(x),
    ensures
        date_fields(a.push(x) + b) == date_fields(a) + date_fields(b),
    decreases b.len(),
{
    let s = a.push(x) + b;
    if b.len() == 0 {
        assert(s =~= a.push(x));
        assert(s.drop_last() =~= a);
        assert(date_fields(a).push(Seq::<char>::empty()) =~= date_fields(a) + seq![Seq::<char>::empty()]);
    } else {
        let b1 = b.drop_last();
        lemma_fields_split(a, x, b1);
        assert(s.drop_last() =~= a.push(x) + b1);
        assert(s.last() == b.last());
        lemma_date_fields_nonempty(b1);
        let fa = date_fields(a);
        let fb = date_fields(b1);
        if is_date_sep(b.last()) {
            assert((fa + fb).push(Seq::<char>::empty()) =~= fa + fb.push(Seq::<char>::empty()));
        } else {
            let f = fa + fb;
            assert(f.update(f.len() - 1, f.last().push(b.last())) =~= fa + fb.update(
                fb.len() - 1,
                fb.last().push(b.last()),
            ));
        }
    }
}

proof fn lemma_padded_digits(n: int, w: Seq<char>)
    requires
        0 <= n <= 9999,
        w == four_digits(n) || (n <= 99 && w == two_digits(n)),
    ensures
        forall|i: int| 0 <= i < w.len() ==> !is_date_sep(#[trigger] w[i]),
        parse_i64_spec(w) == Some(n as i64),
{
    assert forall|i: int| 0 <= i < w.len() implies is_digit(#[trigger] w[i]) && !is_date_sep(
        w[i],
    ) by {
    }
    assert(all_digits(w));
    assert(w[0] != '+' && w[0] != '-');
    if w.len() == 4 {
        let w3 = w.drop_last();
        let w2 = w3.drop_last();
        let w1 = w2.drop_last();
        let w0 = w1.drop_last();
        assert(w0 =~= Seq::<char>::empty());
        assert(digits_value(Seq::<char>::empty()) == 0);
        assert(w1.last() == w[0]);
        assert(digits_value(w1) == digit_value(w[0]));
        assert(digits_value(w2) == digits_value(w1) * 10 + digit_value(w[1]));
        assert(digits_value(w3) == digits_value(w2) * 10 + digit_value(w[2]));
        assert(digits_value(w) == digits_value(w3) * 10 + digit_value(w[3]));
        assert(digits_value(w) == n) by (nonlinear_arith)
            requires
                0 <= n <= 9999,
                digits_value(w) == ((digit_value(w[0]) * 10 + digit_value(w[1])) * 10
                    + digit_value(w[2])) * 10 + digit_value(w[3]),
                digit_value(w[0]) == n / 1000,
                digit_value(w[1]) == (n / 100) % 10,
                digit_value(w[2]) == (n / 10) % 10,
                digit_value(w[3]) == n % 10,
        ;
    } else {
        let w1 = w.drop_last();
        let w0 = w1.drop_last();
        assert(w0 =~= Seq::<char>::empty());
        assert(digits_value(Seq::<char>::empty()) == 0);
        assert(w1.last() == w[0]);
        assert(digits_value(w1) == digit_value(w[0]));
        assert(digits_value(w) == digits_value(w1) * 10 + digit_value(w[1]));
    }
}

/// `parse_ymd` reads back the year, month and day of an ISO date (year zero-padded to four
/// digits, month and day to two), alone or followed by a time part starting with `T`.
pub proof fn lemma_parse_ymd_reads_iso_date(y: int, m: int, d: int, tail: Seq<char>)
    requires
        0 <= y <= 9999,
        0 <= m <= 99,
        0 <= d <= 99,
        tail.len() == 0 || tail[0] == 'T',
    ensures
        ymd_spec(iso_date(y, m, d) + tail) == (y as i64, m as i64, d as i64),
{
    let ys = four_digits(y);
    let ms = two_digits(m);
    let ds = two_digits(d);
    lemma_padded_digits(y, ys);
    lemma_padded_digits(m, ms);
    lemma_padded_digits(d, ds);
    lemma_fields_of_one(ys);
    lemma_fields_of_one(ms);
    lemma_fields_of_one(ds);
    let iso = iso_date(y, m, d);
    lemma_fields_split(ms, '-', ds);
    assert(iso =~= ys.push('-') + (ms.push('-') + ds));
    lemma_fields_split(ys, '-', ms.push('-') + ds);
    assert(date_fields(iso) =~= seq![ys, ms, ds]);
    let s = iso + tail;
    if tail.len() == 0 {
        assert(s =~= iso);
    } else {
        let r = tail.drop_first();
        assert(s =~= iso.push('T') + r);
        lemma_fields_split(iso, 'T', r);
        lemma_date_fields_nonempty(r);
        assert(date_fields(s)[0] == ys);
        assert(date_fields(s)[1] == ms);
        assert(date_fields(s)[2] == ds);
    }
}

} // verus!
