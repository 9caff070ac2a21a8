//! Calendar tables and integer calendar math.
use vstd::prelude::*;

verus! {

/// Gregorian leap-year rule.
pub open spec fn is_leap_year(year: int) -> bool {
    year % 4 == 0 && (year % 100 != 0 || year % 400 == 0)
}

/// Number of days in `year`.
pub open spec fn year_length(year: int) -> int {
    if is_leap_year(year) {
        366
    } else {
        365
    }
}

/// The correction polynomial `y + y/4 - y/100 + y/400`, with floor division.
pub open spec fn poly(year: int) -> int {
    year + year / 4 - year / 100 + year / 400
}

/// Floor division of an exec integer by a positive constant.
pub(crate) fn floor_div(a: i64, b: i64) -> (r: i64)
    requires
        b > 0,
    ensures
        r == a as int / b as int,
{
    if a >= 0 {
        a / b
    } else {
        let n: i64 = -(a + 1);
        let q: i64 = n / b;
        proof {
            assert(n == -a - 1);
            assert(-(q as int) - 1 == a as int / b as int) by (nonlinear_arith)
                requires
                    q == n as int / b as int,
                    n == -(a as int) - 1,
                    n >= 0,
                    b > 0,
            {
                vstd::arithmetic::div_mod::lemma_fundamental_div_mod(n as int, b as int);
                vstd::arithmetic::div_mod::lemma_fundamental_div_mod(a as int, b as int);
            }
        }
        -q - 1
    }
}

/// Floor remainder (always in `0..b`) of an exec integer by a positive constant.
pub(crate) fn floor_mod(a: i64, b: i64) -> (r: i64)
    requires
        0 < b <= 0x100_0000_0000,
        -0x4000_0000_0000_0000 <= a <= 0x4000_0000_0000_0000,
    ensures
        r == a as int % b as int,
        0 <= r < b,
{
    let q: i64 = floor_div(a, b);
    proof {
        vstd::arithmetic::div_mod::lemma_fundamental_div_mod(a as int, b as int);
    }
    a - b * q
}

/// The correction polynomial of `year`.
fn p(year: i64) -> (r: i64)
    requires
        i32::MIN - 1 <= year <= i32::MAX,
    ensures
        r == poly(year as int),
{
    year + floor_div(year, 4) - floor_div(year, 100) + floor_div(year, 400)
}

/// Whether `year` is a leap year.
#[verifier::rlimit(40)]
pub fn is_leap(year: i32) -> (r: bool)
    ensures
        r == (year % 4 == 0 && (year % 100 != 0 || year % 400 == 0)),
        r == is_leap_year(year as int),
{
    // Divisibility does not depend on the sign.
    let a: i64 = if year < 0 {
        -(year as i64)
    } else {
        year as i64
    };
    assert(a % 4 == 0 <==> year % 4 == 0);
    assert(a % 100 == 0 <==> year % 100 == 0);
    assert(a % 400 == 0 <==> year % 400 == 0);
    a % 4 == 0 && (a % 100 != 0 || a % 400 == 0)
}

/// Whether the ISO week-numbering `year` has 53 weeks.
pub open spec fn is_long_iso_year(year: int) -> bool {
    poly(year) % 7 == 4 || poly(year - 1) % 7 == 3
}

/// Length of the 1-based `month`; index 0 holds the sentinel -1.
pub open spec fn month_length(leap: bool, month: int) -> int {
    if month == 2 {
        if leap {
            29
        } else {
            28
        }
    } else if month == 4 || month == 6 || month == 9 || month == 11 {
        30
    } else if 1 <= month <= 12 {
        31
    } else {
        -1
    }
}

/// Days of the year before the 1-based `month` (index 13 is the year's
/// length, index 0 the sentinel -1).
pub open spec fn month_start(leap: bool, month: int) -> int {
    let l: int = if leap {
        1
    } else {
        0
    };
    if month == 1 {
        0
    } else if month == 2 {
        31
    } else if month == 3 {
        59 + l
    } else if month == 4 {
        90 + l
    } else if month == 5 {
        120 + l
    } else if month == 6 {
        151 + l
    } else if month == 7 {
        181 + l
    } else if month == 8 {
        212 + l
    } else if month == 9 {
        243 + l
    } else if month == 10 {
        273 + l
    } else if month == 11 {
        304 + l
    } else if month == 12 {
        334 + l
    } else if month == 13 {
        365 + l
    } else {
        -1
    }
}

/// A valid calendar date.
pub open spec fn valid_date(year: int, month: int, day: int) -> bool {
    1 <= month <= 12 && 1 <= day <= month_length(is_leap_year(year), month)
}

/// Month correction used by the weekday formula.
pub open spec fn week_day_shift(month: int) -> int {
    if month == 1 {
        0
    } else if month == 2 {
        3
    } else if month == 3 {
        2
    } else if month == 4 {
        5
    } else if month == 5 {
        0
    } else if month == 6 {
        3
    } else if month == 7 {
        5
    } else if month == 8 {
        1
    } else if month == 9 {
        4
    } else if month == 10 {
        6
    } else if month == 11 {
        2
    } else {
        4
    }
}

/// ISO weekday (1 = Monday .. 7 = Sunday) of a date.
pub open spec fn weekday_of(year: int, month: int, day: int) -> int {
    let y = if month < 3 {
        year - 1
    } else {
        year
    };
    let w = (poly(y) + week_day_shift(month) + day) % 7;
    if w == 0 {
        7
    } else {
        w
    }
}

/// Proleptic day count; March is the first month of the computational year.
pub open spec fn day_count(year: int, month: int, day: int) -> int {
    let m = (month + 9) % 12;
    let y = year - m / 10;
    365 * y + y / 4 - y / 100 + y / 400 + (m * 306 + 5) / 10 + (day - 1)
}

/// Whether `year` has 53 ISO weeks.
pub fn is_long_year(year: i32) -> (r: bool)
    ensures
        r == is_long_iso_year(year as int),
{
    floor_mod(p(year as i64), 7) == 4 || floor_mod(p(year as i64 - 1), 7) == 3
}

/// Number of days in `year`: 366 in a leap year, 365 otherwise.
pub fn days_in_year(year: i32) -> (r: u32)
    ensures
        r == year_length(year as int),
        (r == 366) == is_leap_year(year as int),
{
    if is_leap(year) {
        return 366;
    }
    365
}

/// Length of the 1-based `month`.
pub fn days_in_month(leap: bool, month: u32) -> (r: u32)
    requires
        1 <= month <= 12,
    ensures
        r == month_length(leap, month as int),
{
    if month == 2 {
        if leap {
            29
        } else {
            28
        }
    } else if month == 4 || month == 6 || month == 9 || month == 11 {
        30
    } else {
        31
    }
}

/// Days of the year before the 1-based `month`; `month == 13` gives the
/// length of the year.
pub fn month_offset(leap: bool, month: u32) -> (r: u32)
    requires
        1 <= month <= 13,
    ensures
        r == month_start(leap, month as int),
{
    let l: u32 = if leap {
        1
    } else {
        0
    };
    if month == 1 {
        0
    } else if month == 2 {
        31
    } else if month == 3 {
        59 + l
    } else if month == 4 {
        90 + l
    } else if month == 5 {
        120 + l
    } else if month == 6 {
        151 + l
    } else if month == 7 {
        181 + l
    } else if month == 8 {
        212 + l
    } else if month == 9 {
        243 + l
    } else if month == 10 {
        273 + l
    } else if month == 11 {
        304 + l
    } else if month == 12 {
        334 + l
    } else {
        365 + l
    }
}

fn week_day_correction(month: u32) -> (r: i64)
    requires
        1 <= month <= 12,
    ensures
        r == week_day_shift(month as int),
{
    if month == 1 {
        0
    } else if month == 2 {
        3
    } else if month == 3 {
        2
    } else if month == 4 {
        5
    } else if month == 5 {
        0
    } else if month == 6 {
        3
    } else if month == 7 {
        5
    } else if month == 8 {
        1
    } else if month == 9 {
        4
    } else if month == 10 {
        6
    } else if month == 11 {
        2
    } else {
        4
    }
}

/// ISO weekday of a date: 1 = Monday .. 7 = Sunday.
pub fn week_day(year: i32, month: u32, day: u32) -> (r: u32)
    requires
        1 <= month <= 12,
    ensures
        r == weekday_of(year as int, month as int, day as int),
        1 <= r <= 7,
{
    let y: i64 = if month < 3 {
        year as i64 - 1
    } else {
        year as i64
    };
    let w: i64 = floor_mod(p(y) + week_day_correction(month) + day as i64, 7);
    if w == 0 {
        return 7;
    }
    w as u32
}

/// Day counts of years `-1_000_000..=1_000_000` stay within `366_000_400`.
#[verifier::rlimit(40)]
pub proof fn lemma_day_count_bounds(year: int, month: int, day: int)
    requires
        -1_000_000 <= year <= 1_000_000,
        1 <= month <= 12,
        0 <= day <= 255,
    ensures
        -366_000_400 <= day_count(year, month, day) <= 366_000_400,
{
    let m = (month + 9) % 12;
    let y = year - m / 10;
    assert(0 <= m < 12);
    vstd::arithmetic::div_mod::lemma_fundamental_div_mod(y, 4);
    vstd::arithmetic::div_mod::lemma_fundamental_div_mod(y, 100);
    vstd::arithmetic::div_mod::lemma_fundamental_div_mod(y, 400);
    assert(0 <= (m * 306 + 5) / 10 <= 400);
}

/// Going from `x - 1` to `x` raises the quotient by `d` exactly when `d`
/// divides `x`.
proof fn lemma_div_step(x: int, d: int)
    requires
        d > 0,
    ensures
        x / d - (x - 1) / d == if x % d == 0 {
            1int
        } else {
            0int
        },
{
    vstd::arithmetic::div_mod::lemma_fundamental_div_mod(x, d);
    vstd::arithmetic::div_mod::lemma_fundamental_div_mod(x - 1, d);
    if x % d == 0 {
        assert((x - 1) == d * (x / d - 1) + (d - 1)) by (nonlinear_arith)
            requires
                x == d * (x / d) + x % d,
                x % d == 0,
        ;
        vstd::arithmetic::div_mod::lemma_div_multiples_vanish_fancy(x / d - 1, d - 1, d);
    } else {
        assert((x - 1) == d * (x / d) + (x % d - 1)) by (nonlinear_arith)
            requires
                x == d * (x / d) + x % d,
        ;
        vstd::arithmetic::div_mod::lemma_div_multiples_vanish_fancy(x / d, x % d - 1, d);
    }
}

/// The leap-day corrections of `year` and `year - 1` differ by one exactly
/// in a leap year.
proof fn lemma_leap_step(year: int)
    ensures
        year / 4 - (year - 1) / 4 - (year / 100 - (year - 1) / 100) + (year / 400 - (year - 1)
            / 400) == if is_leap_year(year) {
            1int
        } else {
            0int
        },
{
    lemma_div_step(year, 4);
    lemma_div_step(year, 100);
    lemma_div_step(year, 400);
}

/// Proleptic day number of a date; the difference of two day numbers is
/// the number of days between the dates.
pub fn day_number(year: i32, month: u8, day: u8) -> (r: i32)
    requires
        1 <= month <= 12,
        -5_000_000 <= year <= 5_000_000,
    ensures
        r == day_count(year as int, month as int, day as int),
{
    let m: i64 = ((month + 9) % 12) as i64;
    let y: i64 = year as i64 - m / 10;
    let r: i64 = 365 * y + floor_div(y, 4) - floor_div(y, 100) + floor_div(y, 400) + (m * 306 + 5)
        / 10        + (day as i64 - 1);
    r as i32
}


/// The 1-based month that holds day `ordinal` of the year: the greatest
/// month not after `month` whose start lies before `ordinal`.
pub open spec fn month_from(leap: bool, ordinal: int, month: int) -> int
    decreases month,
{
    if month <= 1 || ordinal > month_start(leap, month) {
        month
    } else {
        month_from(leap, ordinal, month - 1)
    }
}

/// The 1-based month that holds day `ordinal` (1-based) of the year.
pub open spec fn month_of_ordinal(leap: bool, ordinal: int) -> int {
    month_from(leap, ordinal, 12)
}

/// The first day of `year`, as a day count.
#[verifier::opaque]
pub open spec fn year_start(year: int) -> int {
    day_count(year, 1, 1)
}

/// Year starts of the years that anchor epoch conversions.
pub proof fn lemma_epoch_anchors()
    ensures
        year_start(2000) - year_start(1970) == 10957,
        year_start(1600) - year_start(1970) == 10957 - 146097,
        year_start(1970) == day_count(1970, 1, 1),
{
    reveal(year_start);
}

/// Consecutive year starts lie one year length apart.
#[verifier::rlimit(40)]
pub proof fn lemma_year_start_step(year: int)
    ensures
        year_start(year + 1) - year_start(year) == year_length(year),
{
    reveal(year_start);
    let y = year - 1;
    let l = if is_leap_year(year) {
        1int
    } else {
        0int
    };
    lemma_leap_step(year);
    assert(year_start(year) == 365 * y + y / 4 - y / 100 + y / 400 + 306);
    assert(year_start(year + 1) == 365 * year + year / 4 - year / 100 + year / 400 + 306);
}

/// Year starts grow with the year.
pub proof fn lemma_year_start_monotone(a: int, b: int)
    requires
        a <= b,
    ensures
        year_start(a) <= year_start(b),
    decreases b - a,
{
    if a < b {
        lemma_year_start_step(a);
        lemma_year_start_monotone(a + 1, b);
    }
}

/// Distinct valid dates have distinct day counts.
pub proof fn lemma_day_count_injective(y1: int, m1: int, d1: int, y2: int, m2: int, d2: int)
    requires
        valid_date(y1, m1, d1),
        valid_date(y2, m2, d2),
        day_count(y1, m1, d1) == day_count(y2, m2, d2),
    ensures
        y1 == y2,
        m1 == m2,
        d1 == d2,
{
    lemma_day_number_round_trip(y1, m1, d1);
    lemma_day_number_round_trip(y2, m2, d2);
    reveal(year_start);
    if y1 < y2 {
        lemma_year_start_monotone(y1 + 1, y2);
    } else if y2 < y1 {
        lemma_year_start_monotone(y2 + 1, y1);
    }
}

/// 400 Gregorian years always hold 146097 days.
pub proof fn lemma_year_start_cycles(year: int, cycles: int)
    ensures
        year_start(year + 400 * cycles) == year_start(year) + 146097 * cycles,
{
    reveal(year_start);
    let a = year - 1;
    vstd::arithmetic::div_mod::lemma_hoist_over_denominator(a, 100 * cycles, 4);
    vstd::arithmetic::div_mod::lemma_hoist_over_denominator(a, 4 * cycles, 100);
    vstd::arithmetic::div_mod::lemma_hoist_over_denominator(a, cycles, 400);
    assert(a + 100 * cycles * 4 == a + 400 * cycles);
    assert(a + 4 * cycles * 100 == a + 400 * cycles);
    assert(a + cycles * 400 == a + 400 * cycles);
}

/// A century holds 36525 days when it starts on a 400-year boundary and
/// 36524 otherwise.
#[verifier::rlimit(40)]
pub proof fn lemma_century_length(year: int)
    requires
        year % 100 == 0,
    ensures
        year_start(year + 100) - year_start(year) == if year % 400 == 0 {
            36525int
        } else {
            36524int
        },
{
    reveal(year_start);
    let y = year - 1;
    vstd::arithmetic::div_mod::lemma_hoist_over_denominator(y, 25, 4);
    vstd::arithmetic::div_mod::lemma_hoist_over_denominator(y, 1, 100);
    assert((y + 100) / 400 - y / 400 == if year % 400 == 0 {
        1int
    } else {
        0int
    });
    assert(year_start(year) == 365 * y + y / 4 - y / 100 + y / 400 + 306);
    assert(year_start(year + 100) == 365 * (y + 100) + (y + 100) / 4 - (y + 100) / 100 + (y + 100)
        / 400 + 306);
}

/// Four years starting on a multiple of four hold 1461 days when the first
/// of them is a leap year and 1460 otherwise.
pub proof fn lemma_quad_length(year: int)
    requires
        year % 4 == 0,
    ensures
        year_start(year + 4) - year_start(year) == if is_leap_year(year) {
            1461int
        } else {
            1460int
        },
{
    lemma_year_start_step(year);
    lemma_year_start_step(year + 1);
    lemma_year_start_step(year + 2);
    lemma_year_start_step(year + 3);
    assert((year + 1) % 4 != 0 && (year + 2) % 4 != 0 && (year + 3) % 4 != 0);
}

/// The day count of a date is the start of its year plus its day of the year.
#[verifier::rlimit(40)]
pub proof fn lemma_day_count_in_year(year: int, month: int, day: int)
    requires
        1 <= month <= 12,
    ensures
        day_count(year, month, day) == year_start(year) + month_start(is_leap_year(year), month)
            + day - 1,
{
    reveal(year_start);
    let y = year - 1;
    let l = if is_leap_year(year) {
        1int
    } else {
        0int
    };
    lemma_leap_step(year);
    assert(year_start(year) == 365 * y + y / 4 - y / 100 + y / 400 + 306);
    if month < 3 {
        let m = month + 9;
        assert((month + 9) % 12 == m);
        assert(day_count(year, month, day) == 365 * y + y / 4 - y / 100 + y / 400 + (m * 306 + 5)
            / 10 + day - 1);
    } else {
        let m = month - 3;
        assert((month + 9) % 12 == m);
        assert(day_count(year, month, day) == 365 * year + year / 4 - year / 100 + year / 400 + (m
            * 306 + 5) / 10 + day - 1);
        assert(month_start(is_leap_year(year), month) == 59 + l + (m * 306 + 5) / 10);
    }
}


/// The table walk finds the month whose span holds `ordinal`.
proof fn lemma_month_from(leap: bool, ordinal: int, month: int, upto: int)
    requires
        1 <= month <= upto <= 12,
        month_start(leap, month) < ordinal <= month_start(leap, month + 1),
    ensures
        month_from(leap, ordinal, upto) == month,
    decreases upto,
{
    if upto > month {
        assert(month_start(leap, month + 1) <= month_start(leap, upto));
        lemma_month_from(leap, ordinal, month, upto - 1);
    }
}

/// The month found for a day of the year holds that day.
proof fn lemma_month_from_bounds(leap: bool, ordinal: int, upto: int)
    requires
        1 <= upto <= 12,
        1 <= ordinal <= month_start(leap, upto + 1),
    ensures
        1 <= month_from(leap, ordinal, upto) <= upto,
        month_start(leap, month_from(leap, ordinal, upto)) < ordinal <= month_start(
            leap,
            month_from(leap, ordinal, upto) + 1,
        ),
    decreases upto,
{
    if upto > 1 && ordinal <= month_start(leap, upto) {
        lemma_month_from_bounds(leap, ordinal, upto - 1);
    }
}

/// Day `ordinal` of a year, found by walking the month-offset table, is a
/// valid date of that year.
pub proof fn lemma_month_of_ordinal_valid(year: int, ordinal: int)
    requires
        1 <= ordinal <= year_length(year),
    ensures
        ({
            let month = month_of_ordinal(is_leap_year(year), ordinal);
            valid_date(year, month, ordinal - month_start(is_leap_year(year), month))
        }),
{
    let leap = is_leap_year(year);
    lemma_month_from_bounds(leap, ordinal, 12);
    let month = month_of_ordinal(leap, ordinal);
    assert(month_start(leap, month + 1) == month_start(leap, month) + month_length(leap, month));
}

/// Splitting the day numbers of a valid date into the start of its year and
/// a day of the year, and walking the month-offset table with that day of
/// the year, gives back the date's month and day.
#[verifier::rlimit(40)]
pub proof fn lemma_day_number_round_trip(year: int, month: int, day: int)
    requires
        valid_date(year, month, day),
    ensures
        ({
            let ordinal = day_count(year, month, day) - day_count(year, 1, 1) + 1;
            let leap = is_leap_year(year);
            &&& 1 <= ordinal <= year_length(year)
            &&& month_of_ordinal(leap, ordinal) == month
            &&& ordinal - month_start(leap, month) == day
        }),
        day_count(year, 1, 1) <= day_count(year, month, day) < day_count(year + 1, 1, 1),
{
    reveal(year_start);
    lemma_day_count_in_year(year, month, day);
    lemma_year_start_step(year);
    let leap = is_leap_year(year);
    let ordinal = month_start(leap, month) + day;
    assert(month_start(leap, month + 1) == month_start(leap, month) + month_length(leap, month));
    assert(month_start(leap, month + 1) <= month_start(leap, 13));
    lemma_month_from(leap, ordinal, month, 12);
}

/// The weekday formula agrees with the day count: weekdays advance by one
/// with each day, and day count 0 falls on a Wednesday.
#[verifier::rlimit(40)]
pub proof fn lemma_weekday_of_day_count(year: int, month: int, day: int)
    requires
        1 <= month <= 12,
    ensures
        weekday_of(year, month, day) == if (day_count(year, month, day) + 3) % 7 == 0 {
            7
        } else {
            (day_count(year, month, day) + 3) % 7
        },
{
    let m = (month + 9) % 12;
    let y = year - m / 10;
    let c = (m * 306 + 5) / 10;
    let a = poly(y) + week_day_shift(month) + day;
    let q = (c + 2 - week_day_shift(month)) / 7;
    assert(m == if month < 3 {
        month + 9
    } else {
        month - 3
    });
    assert(c + 2 - week_day_shift(month) == 7 * q) by {
        if month == 1 {
        } else if month == 2 {
        } else if month == 3 {
        } else if month == 4 {
        } else if month == 5 {
        } else if month == 6 {
        } else if month == 7 {
        } else if month == 8 {
        } else if month == 9 {
        } else if month == 10 {
        } else if month == 11 {
        } else {
        }
    }
    assert(day_count(year, month, day) + 3 == 7 * (52 * y + q) + a);
    vstd::arithmetic::div_mod::lemma_mod_multiples_vanish(52 * y + q, a, 7);
}

/// Month and day of the 1-based day `ordinal` of a year, found by walking
/// the month-offset table from December down.
pub fn month_and_day(leap: bool, ordinal: u32) -> (r: (u32, u32))
    requires
        1 <= ordinal <= month_start(leap, 13),
    ensures
        r.0 == month_of_ordinal(leap, ordinal as int),
        r.1 == ordinal - month_start(leap, r.0 as int),
        1 <= r.0 <= 12,
        1 <= r.1 <= month_length(leap, r.0 as int),
{
    let mut month: u32 = 12;
    while month > 1 && ordinal <= month_offset(leap, month)
        invariant
            1 <= month <= 12,
            1 <= ordinal <= month_start(leap, 13),
            month_of_ordinal(leap, ordinal as int) == month_from(
                leap,
                ordinal as int,
                month as int,
            ),
            ordinal <= month_start(leap, month + 1),
        decreases month,
    {
        month = month - 1;
    }
    assert(month_start(leap, month + 1) == month_start(leap, month as int) + month_length(
        leap,
        month as int,
    ));
    (month, ordinal - month_offset(leap, month))
}

} // verus!
