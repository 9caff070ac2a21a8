//! Conversion of a Unix timestamp and a UTC offset into calendar fields.
use vstd::prelude::*;

use crate::calendar::{
    day_count, floor_div, floor_mod, is_leap_year, lemma_century_length, lemma_day_count_in_year,
    lemma_day_count_injective, lemma_epoch_anchors, lemma_quad_length, lemma_year_start_cycles,
    lemma_year_start_step, month_and_day, valid_date, year_length, year_start,
};

verus! {

pub const SECS_PER_MIN: i64 = 60;

pub const SECS_PER_HOUR: i64 = 3600;

pub const SECS_PER_DAY: i64 = 86400;

/// Seconds in 400 Gregorian years (146097 days).
pub const SECS_PER_400_YEARS: i64 = 12_622_780_800;

/// Days from 1970-01-01 to 2000-01-01.
pub const DAYS_1970_TO_2000: i64 = 10957;

/// Days since 1970-01-01 of a date.
pub open spec fn epoch_day(year: int, month: int, day: int) -> int {
    day_count(year, month, day) - day_count(1970, 1, 1)
}

/// Seconds since 1970-01-01T00:00:00 of a date and a time of day.
pub open spec fn epoch_seconds(
    year: int,
    month: int,
    day: int,
    hour: int,
    minute: int,
    second: int,
) -> int {
    epoch_day(year, month, day) * 86400 + hour * 3600 + minute * 60 + second
}

/// `fields` are the valid calendar date and time of day (year, month,
/// day, hour, minute, second) that lie `seconds` after the epoch.
pub open spec fn is_calendar_time(seconds: int, fields: (int, int, int, int, int, int)) -> bool {
    &&& valid_date(fields.0, fields.1, fields.2)
    &&& 0 <= fields.3 < 24
    &&& 0 <= fields.4 < 60
    &&& 0 <= fields.5 < 60
    &&& epoch_seconds(fields.0, fields.1, fields.2, fields.3, fields.4, fields.5) == seconds
}

/// The calendar fields of a `local_time` result.
pub open spec fn fields_of(r: (i64, u32, u32, u32, u32, u32, u32)) -> (
    int,
    int,
    int,
    int,
    int,
    int,
) {
    (r.0 as int, r.1 as int, r.2 as int, r.3 as int, r.4 as int, r.5 as int)
}

/// Seconds in the aligned century that starts with `leap` telling whether
/// its first year is a leap year.
fn secs_per_100_years(leap: bool) -> (r: i64)
    ensures
        r == if leap {
            36525 * 86400
        } else {
            36524 * 86400
        },
{
    if leap {
        36525 * SECS_PER_DAY
    } else {
        36524 * SECS_PER_DAY
    }
}

/// Seconds in an aligned 4-year span whose first year is or is not a leap
/// year.
fn secs_per_4_years(leap: bool) -> (r: i64)
    ensures
        r == if leap {
            1461 * 86400
        } else {
            1460 * 86400
        },
{
    if leap {
        1461 * SECS_PER_DAY
    } else {
        1460 * SECS_PER_DAY
    }
}

/// Seconds in a leap or a common year.
fn secs_per_year(leap: bool) -> (r: i64)
    ensures
        r == if leap {
            366 * 86400
        } else {
            365 * 86400
        },
{
    if leap {
        366 * SECS_PER_DAY
    } else {
        365 * SECS_PER_DAY
    }
}

/// Calendar fields (year, month, day, hour, minute, second, microsecond)
/// of the instant `unix_time` seconds after 1970-01-01T00:00:00 UTC, seen
/// at a UTC offset of `utc_offset` seconds; `microsecond` is passed
/// through.
#[verifier::rlimit(40)]
pub fn local_time(unix_time: i64, utc_offset: i64, microsecond: u32) -> (r: (
    i64,
    u32,
    u32,
    u32,
    u32,
    u32,
    u32,
))
    requires
        -1_000_000_000_000_000_000 <= unix_time <= 1_000_000_000_000_000_000,
        -1_000_000_000_000_000_000 <= utc_offset <= 1_000_000_000_000_000_000,
    ensures
        is_calendar_time(unix_time + utc_offset, fields_of(r)),
        r.6 == microsecond,
{
    let ghost total: int = unix_time + utc_offset;
    let ghost epoch: int = year_start(1970);
    let mut year: i64;
    proof {
        lemma_epoch_anchors();
    }
    let mut seconds: i64 = unix_time;
    // Shift to a base year that is 400-year aligned.
    if seconds >= 0 {
        seconds = seconds - DAYS_1970_TO_2000 * SECS_PER_DAY;
        year = 2000;
        assert(year_start(2000) - epoch == 10957);
    } else {
        seconds = seconds + (146_097 - DAYS_1970_TO_2000) * SECS_PER_DAY;
        year = 1600;
        assert(year_start(1600) - epoch == 10957 - 146097);
    }
    seconds = seconds + utc_offset;
    assert((year_start(year as int) - epoch) * 86400 + seconds == total);

    // Whole 400-year cycles.
    let cycles: i64 = floor_div(seconds, SECS_PER_400_YEARS);
    let rest: i64 = floor_mod(seconds, SECS_PER_400_YEARS);
    proof {
        vstd::arithmetic::div_mod::lemma_fundamental_div_mod(
            seconds as int,
            SECS_PER_400_YEARS as int,
        );
        assert(-200_000_000 <= cycles <= 200_000_000) by (nonlinear_arith)
            requires
                seconds == SECS_PER_400_YEARS * cycles + rest,
                0 <= rest < SECS_PER_400_YEARS,
                SECS_PER_400_YEARS == 12_622_780_800,
                -2_000_100_000_000_000_000 <= seconds <= 2_000_100_000_000_000_000,
        ;
        lemma_year_start_cycles(year as int, cycles as int);
    }
    year = year + 400 * cycles;
    seconds = rest;
    assert((year_start(year as int) - epoch) * 86400 + seconds == total) by (nonlinear_arith)
        requires
            year_start(year as int) == year_start(year - 400 * cycles) + 146097 * cycles,
            (year_start(year - 400 * cycles) - epoch) * 86400 + (SECS_PER_400_YEARS * cycles
                + rest) == total,
            seconds == rest,
            SECS_PER_400_YEARS == 12_622_780_800,
    ;

    // Whole centuries: the first one of a cycle starts with a leap year.
    let ghost base: int = year as int;
    proof {
        lemma_year_start_cycles(base, 1);
        lemma_century_length(base);
    }
    let mut leap_year: bool = true;
    let mut chunk: i64 = secs_per_100_years(leap_year);
    while seconds >= chunk
        invariant
            (year_start(year as int) - epoch) * 86400 + seconds == total,
            0 <= seconds < (year_start(base + 400) - year_start(year as int)) * 86400,
            base % 400 == 0,
            year % 100 == 0,
            base <= year <= base + 300,
            -100_000_000_000 <= base <= 100_000_000_000,
            leap_year == (year == base),
            chunk == (year_start(year + 100) - year_start(year as int)) * 86400,
            0 < chunk,
        decreases base + 400 - year,
    {
        proof {
            lemma_year_start_cycles(base, 1);
        }
        seconds = seconds - chunk;
        year = year + 100;
        leap_year = false;
        chunk = secs_per_100_years(leap_year);
        proof {
            lemma_century_length(year as int);
        }
    }
    assert(leap_year == is_leap_year(year as int));

    // Whole 4-year spans: the first one of a century starts with a leap year
    // only when the century is 400-year aligned.
    let ghost century: int = year as int;
    proof {
        lemma_quad_length(year as int);
    }
    chunk = secs_per_4_years(leap_year);
    while seconds >= chunk
        invariant
            (year_start(year as int) - epoch) * 86400 + seconds == total,
            0 <= seconds < (year_start(century + 100) - year_start(year as int)) * 86400,
            century % 100 == 0,
            year % 4 == 0,
            century <= year <= century + 96,
            -100_000_000_000 <= century <= 100_000_000_000,
            leap_year == is_leap_year(year as int),
            chunk == (year_start(year + 4) - year_start(year as int)) * 86400,
            0 < chunk,
        decreases century + 100 - year,
    {
        seconds = seconds - chunk;
        year = year + 4;
        leap_year = true;
        chunk = secs_per_4_years(leap_year);
        proof {
            lemma_quad_length(year as int);
        }
    }

    // Whole years: only the first year of a 4-year span can be a leap year.
    let ghost quad: int = year as int;
    proof {
        lemma_year_start_step(year as int);
    }
    chunk = secs_per_year(leap_year);
    while seconds >= chunk
        invariant
            (year_start(year as int) - epoch) * 86400 + seconds == total,
            0 <= seconds < (year_start(quad + 4) - year_start(year as int)) * 86400,
            quad % 4 == 0,
            quad <= year <= quad + 3,
            -100_000_000_000 <= quad <= 100_000_000_000,
            leap_year == is_leap_year(year as int),
            chunk == year_length(year as int) * 86400,
            0 < chunk,
        decreases quad + 4 - year,
    {
        proof {
            lemma_year_start_step(year as int);
        }
        seconds = seconds - chunk;
        year = year + 1;
        leap_year = false;
        chunk = secs_per_year(leap_year);
        proof {
            lemma_year_start_step(year as int);
        }
    }

    // Months and days.
    let day_index: i64 = seconds / SECS_PER_DAY;
    let in_day: i64 = seconds % SECS_PER_DAY;
    assert(day_index < year_length(year as int)) by (nonlinear_arith)
        requires
            0 <= seconds < year_length(year as int) * 86400,
            day_index == seconds / 86400,
    ;
    let (month, day) = month_and_day(leap_year, (day_index + 1) as u32);
    proof {
        lemma_day_count_in_year(year as int, month as int, day as int);
    }

    // Hours, minutes and seconds.
    let hour: i64 = in_day / SECS_PER_HOUR;
    let in_hour: i64 = in_day % SECS_PER_HOUR;
    let minute: i64 = in_hour / SECS_PER_MIN;
    let second: i64 = in_hour % SECS_PER_MIN;
    assert(epoch_seconds(
        year as int,
        month as int,
        day as int,
        hour as int,
        minute as int,
        second as int,
    ) == total);
    (year, month, day as u32, hour as u32, minute as u32, second as u32, microsecond)
}

/// Encoding valid calendar fields as seconds since the epoch and reading
/// them back with `local_time` at offset 0 gives the same fields: a result
/// of `local_time` is unique.
#[verifier::rlimit(40)]
pub proof fn lemma_local_time_left_inverse(
    year: int,
    month: int,
    day: int,
    hour: int,
    minute: int,
    second: int,
    r: (i64, u32, u32, u32, u32, u32, u32),
)
    requires
        valid_date(year, month, day),
        0 <= hour < 24,
        0 <= minute < 60,
        0 <= second < 60,
        is_calendar_time(epoch_seconds(year, month, day, hour, minute, second) + 0, fields_of(r)),
    ensures
        fields_of(r) == (year, month, day, hour, minute, second),
{
    let f = fields_of(r);
    let t1 = hour * 3600 + minute * 60 + second;
    let t2 = f.3 * 3600 + f.4 * 60 + f.5;
    let e1 = epoch_day(year, month, day);
    let e2 = epoch_day(f.0, f.1, f.2);
    assert(e1 == e2 && t1 == t2) by (nonlinear_arith)
        requires
            e1 * 86400 + t1 == e2 * 86400 + t2,
            0 <= t1 < 86400,
            0 <= t2 < 86400,
    ;
    lemma_day_count_injective(year, month, day, f.0, f.1, f.2);
    assert(hour == f.3 && minute == f.4 && second == f.5) by (nonlinear_arith)
        requires
            hour * 3600 + minute * 60 + second == f.3 * 3600 + f.4 * 60 + f.5,
            0 <= minute < 60,
            0 <= second < 60,
            0 <= f.4 < 60,
            0 <= f.5 < 60,
    ;
}

} // verus!
