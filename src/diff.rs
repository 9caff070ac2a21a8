//! Calendar-aware difference between two dates or date-times.
use vstd::prelude::*;

use crate::calendar::{
    day_count, day_number, days_in_month, is_leap, is_leap_year, lemma_day_count_bounds,
    month_length, valid_date,
};

verus! {

/// What the difference reads from each of its two operands: a date, an
/// optional time of day, the UTC offset in seconds and the name of the
/// time zone (empty when there is none).
pub struct DateTimeInfo {
    pub year: i32,
    pub month: i32,
    pub day: i32,
    pub hour: i32,
    pub minute: i32,
    pub second: i32,
    pub microsecond: i32,
    pub offset: i32,
    pub tz: String,
    /// Whether the operand carries a time of day; when it does not, its
    /// time fields are ignored.
    pub is_datetime: bool,
}

/// The difference between two operands, unit by unit; every field has the
/// sign of the difference.
#[derive(Clone, Copy, Debug, PartialEq, Eq, Structural)]
pub struct PreciseDiff {
    pub years: i32,
    pub months: i32,
    pub days: i32,
    pub hours: i32,
    pub minutes: i32,
    pub seconds: i32,
    pub microseconds: i32,
    pub total_days: i32,
}

/// A wall-clock date and time; after a shift to UTC its fields may lie
/// one unit outside their usual ranges.
#[derive(Clone, Copy, Debug, PartialEq, Eq, Structural)]
pub struct Moment {
    pub year: i32,
    pub month: i32,
    pub day: i32,
    pub hour: i32,
    pub minute: i32,
    pub second: i32,
    pub microsecond: i32,
}

impl DateTimeInfo {
    /// A date of years `-1_000_000..=1_000_000`, a time of day, and an
    /// offset of less than a day.
    pub open spec fn valid(&self) -> bool {
        &&& -1_000_000 <= self.year <= 1_000_000
        &&& 1 <= self.month <= 12
        &&& 1 <= self.day <= 31
        &&& 0 <= self.hour < 24
        &&& 0 <= self.minute < 60
        &&& 0 <= self.second < 60
        &&& 0 <= self.microsecond < 1_000_000
        &&& -86400 < self.offset < 86400
    }
}

impl PreciseDiff {
    pub fn new(
        years: i32,
        months: i32,
        days: i32,
        hours: i32,
        minutes: i32,
        seconds: i32,
        microseconds: i32,
        total_days: i32,
    ) -> (r: PreciseDiff)
        ensures
            r == (PreciseDiff {
                years,
                months,
                days,
                hours,
                minutes,
                seconds,
                microseconds,
                total_days,
            }),
    {
        PreciseDiff { years, months, days, hours, minutes, seconds, microseconds, total_days }
    }
}

/// Division rounding toward zero.
pub open spec fn tdiv(a: int, b: int) -> int {
    if a >= 0 {
        a / b
    } else {
        -((-a) / b)
    }
}

/// Remainder of the division rounding toward zero; it has the sign of `a`.
pub open spec fn trem(a: int, b: int) -> int {
    a - b * tdiv(a, b)
}

/// Both operands name the same, non-empty time zone.
pub open spec fn same_zone(a: DateTimeInfo, b: DateTimeInfo) -> bool {
    a.tz@ == b.tz@ && a.tz@.len() > 0
}

/// `m` with `offset` seconds taken off its time of day, each unit that
/// leaves its range borrowing from or carrying into the next one once.
pub open spec fn shift_to_utc(m: Moment, offset: int) -> Moment {
    let hour = m.hour - tdiv(offset, 3600);
    let rest = trem(offset, 3600);
    let minute = m.minute - tdiv(rest, 60);
    let second = m.second - trem(rest, 60);
    let (second, minute) = if second < 0 {
        (second + 60, minute - 1)
    } else if second >= 60 {
        (second - 60, minute + 1)
    } else {
        (second, minute)
    };
    let (minute, hour) = if minute < 0 {
        (minute + 60, hour - 1)
    } else if minute >= 60 {
        (minute - 60, hour + 1)
    } else {
        (minute, hour)
    };
    let (hour, day) = if hour < 0 {
        (hour + 24, m.day - 1)
    } else if hour >= 24 {
        (hour - 24, m.day + 1)
    } else {
        (hour, m.day as int)
    };
    Moment {
        year: m.year,
        month: m.month,
        day: day as i32,
        hour: hour as i32,
        minute: minute as i32,
        second: second as i32,
        microsecond: m.microsecond,
    }
}

/// The operand as compared: a date alone reads as midnight; a date-time is
/// shifted to UTC when the zones differ and its offset is not zero, or when
/// both operands fall on the same day.
pub open spec fn side_of(info: DateTimeInfo, same: bool, total_days: int) -> Moment {
    let m = Moment {
        year: info.year,
        month: info.month,
        day: info.day,
        hour: if info.is_datetime {
            info.hour
        } else {
            0
        },
        minute: if info.is_datetime {
            info.minute
        } else {
            0
        },
        second: if info.is_datetime {
            info.second
        } else {
            0
        },
        microsecond: if info.is_datetime {
            info.microsecond
        } else {
            0
        },
    };
    if info.is_datetime && ((!same && info.offset != 0) || total_days == 0) {
        shift_to_utc(m, info.offset as int)
    } else {
        m
    }
}

/// Lexicographic order on (year, month, day, hour, minute, second,
/// microsecond).
pub open spec fn is_after(a: Moment, b: Moment) -> bool {
    if a.year != b.year {
        a.year > b.year
    } else if a.month != b.month {
        a.month > b.month
    } else if a.day != b.day {
        a.day > b.day
    } else if a.hour != b.hour {
        a.hour > b.hour
    } else if a.minute != b.minute {
        a.minute > b.minute
    } else if a.second != b.second {
        a.second > b.second
    } else {
        a.microsecond > b.microsecond
    }
}

/// Unit differences from `a` to a later `b`, each negative unit borrowing
/// from the next coarser one, and days resolved against month lengths:
/// (years, months, days, hours, minutes, seconds, microseconds).
pub open spec fn ordered_diff(a: Moment, b: Moment) -> (int, int, int, int, int, int, int) {
    let us = b.microsecond - a.microsecond;
    let s = b.second - a.second;
    let (us, s) = if us < 0 {
        (us + 1_000_000, s - 1)
    } else {
        (us, s)
    };
    let mi = b.minute - a.minute;
    let (s, mi) = if s < 0 {
        (s + 60, mi - 1)
    } else {
        (s, mi)
    };
    let h = b.hour - a.hour;
    let (mi, h) = if mi < 0 {
        (mi + 60, h - 1)
    } else {
        (mi, h)
    };
    let d = b.day - a.day;
    let (h, d) = if h < 0 {
        (h + 24, d - 1)
    } else {
        (h, d)
    };
    let mo = b.month - a.month;
    let (d, mo) = if d < 0 {
        let (py, pm) = if b.month == 1 {
            (b.year - 1, 12int)
        } else {
            (b.year as int, b.month - 1)
        };
        let last = month_length(is_leap_year(py), pm);
        let this = month_length(is_leap_year(b.year as int), b.month as int);
        if d < this - last {
            // Not a full month: count the days.
            (d + if last < a.day {
                a.day as int
            } else {
                last
            }, mo - 1)
        } else if d == this - last {
            // Exactly a full month.
            (0, mo)
        } else {
            (d + last, mo - 1)
        }
    } else {
        (d, mo)
    };
    let y = b.year - a.year;
    let (mo, y) = if mo < 0 {
        (mo + 12, y - 1)
    } else {
        (mo, y)
    };
    (y, mo, d, h, mi, s, us)
}

/// `x`, negated when `negative` holds.
pub open spec fn signed(x: int, negative: bool) -> i32 {
    if negative {
        (-x) as i32
    } else {
        x as i32
    }
}

/// The precise difference from `a` to `b`.
pub open spec fn precise_diff_of(a: DateTimeInfo, b: DateTimeInfo) -> PreciseDiff {
    let same = same_zone(a, b);
    let total = day_count(b.year as int, b.month as int, b.day as int) - day_count(
        a.year as int,
        a.month as int,
        a.day as int,
    );
    let m1 = side_of(a, same, total);
    let m2 = side_of(b, same, total);
    let later = is_after(m1, m2);
    let r = if later {
        ordered_diff(m2, m1)
    } else {
        ordered_diff(m1, m2)
    };
    // The operands are swapped when `a` is later, and the day count with
    // them; the sign then restores the day count.
    PreciseDiff {
        years: signed(r.0, later),
        months: signed(r.1, later),
        days: signed(r.2, later),
        hours: signed(r.3, later),
        minutes: signed(r.4, later),
        seconds: signed(r.5, later),
        microseconds: signed(r.6, later),
        total_days: total as i32,
    }
}

/// Between two dates without a time of day, the difference from the earlier
/// date to the later one has no negative field, fewer than 12 months and no
/// time part; from the later date to the earlier one every field is the
/// same with the opposite sign.
#[verifier::rlimit(40)]
pub proof fn lemma_date_diff_sign(a: DateTimeInfo, b: DateTimeInfo)
    requires
        a.valid(),
        b.valid(),
        !a.is_datetime,
        !b.is_datetime,
        valid_date(a.year as int, a.month as int, a.day as int),
        valid_date(b.year as int, b.month as int, b.day as int),
    ensures
        ({
            let r = precise_diff_of(a, b);
            let s = precise_diff_of(b, a);
            let ma = side_of(a, same_zone(a, b), 0);
            let mb = side_of(b, same_zone(a, b), 0);
            &&& !is_after(ma, mb) ==> {
                &&& r.years >= 0
                &&& 0 <= r.months < 12
                &&& r.days >= 0
                &&& r.hours == 0 && r.minutes == 0 && r.seconds == 0 && r.microseconds == 0
            }
            &&& is_after(ma, mb) ==> {
                &&& r.years <= 0
                &&& -12 < r.months <= 0
                &&& r.days <= 0
                &&& r.hours == 0 && r.minutes == 0 && r.seconds == 0 && r.microseconds == 0
            }
            &&& ma != mb ==> s.years == -r.years && s.months == -r.months && s.days == -r.days
        }),
{
}

fn trunc_div(a: i32, b: i32) -> (r: i32)
    requires
        0 < b <= 3600,
        -100_000 < a < 100_000,
    ensures
        r == tdiv(a as int, b as int),
        -100_000 < r < 100_000,
{
    if a >= 0 {
        a / b
    } else {
        -((-a) / b)
    }
}

fn trunc_rem(a: i32, b: i32) -> (r: i32)
    requires
        0 < b <= 3600,
        -100_000 < a < 100_000,
    ensures
        r == trem(a as int, b as int),
        -b < r < b,
{
    let q = trunc_div(a, b);
    proof {
        if a >= 0 {
            vstd::arithmetic::div_mod::lemma_fundamental_div_mod(a as int, b as int);
            assert(b * q == a - (a as int % b as int));
        } else {
            vstd::arithmetic::div_mod::lemma_fundamental_div_mod(-a as int, b as int);
            assert(b * q == a + ((-a) as int % b as int)) by (nonlinear_arith)
                requires
                    q == -((-a) as int / b as int),
                    -a == b * ((-a) as int / b as int) + ((-a) as int % b as int),
            ;
        }
    }
    a - b * q
}

#[verifier::rlimit(40)]
fn shift_moment(m: Moment, offset: i32) -> (r: Moment)
    requires
        -86400 < offset < 86400,
        0 <= m.hour < 24,
        0 <= m.minute < 60,
        0 <= m.second < 60,
        1 <= m.day <= 31,
    ensures
        r == shift_to_utc(m, offset as int),
        0 <= r.day <= 32,
        -1 <= r.hour <= 47,
        -1 <= r.minute <= 60,
        0 <= r.second < 60,
        r.year == m.year,
        r.month == m.month,
        r.microsecond == m.microsecond,
{
    let mut hour: i32 = m.hour - trunc_div(offset, 3600);
    let rest: i32 = trunc_rem(offset, 3600);
    let mut minute: i32 = m.minute - trunc_div(rest, 60);
    let mut second: i32 = m.second - trunc_rem(rest, 60);
    let mut day: i32 = m.day;
    if second < 0 {
        second = second + 60;
        minute = minute - 1;
    } else if second >= 60 {
        second = second - 60;
        minute = minute + 1;
    }
    if minute < 0 {
        minute = minute + 60;
        hour = hour - 1;
    } else if minute >= 60 {
        minute = minute - 60;
        hour = hour + 1;
    }
    if hour < 0 {
        hour = hour + 24;
        day = day - 1;
    } else if hour >= 24 {
        hour = hour - 24;
        day = day + 1;
    }
    Moment {
        year: m.year,
        month: m.month,
        day,
        hour,
        minute,
        second,
        microsecond: m.microsecond,
    }
}

#[verifier::rlimit(40)]
fn moment_of(info: &DateTimeInfo, same: bool, total_days: i32) -> (r: Moment)
    requires
        info.valid(),
    ensures
        r == side_of(*info, same, total_days as int),
        0 <= r.day <= 32,
        -1 <= r.hour <= 47,
        -1 <= r.minute <= 60,
        0 <= r.second < 60,
        0 <= r.microsecond < 1_000_000,
        r.year == info.year,
        r.month == info.month,
{
    let m = if info.is_datetime {
        Moment {
            year: info.year,
            month: info.month,
            day: info.day,
            hour: info.hour,
            minute: info.minute,
            second: info.second,
            microsecond: info.microsecond,
        }
    } else {
        Moment {
            year: info.year,
            month: info.month,
            day: info.day,
            hour: 0,
            minute: 0,
            second: 0,
            microsecond: 0,
        }
    };
    if info.is_datetime && ((!same && info.offset != 0) || total_days == 0) {
        shift_moment(m, info.offset)
    } else {
        m
    }
}

fn moment_is_after(a: &Moment, b: &Moment) -> (r: bool)
    ensures
        r == is_after(*a, *b),
{
    if a.year != b.year {
        a.year > b.year
    } else if a.month != b.month {
        a.month > b.month
    } else if a.day != b.day {
        a.day > b.day
    } else if a.hour != b.hour {
        a.hour > b.hour
    } else if a.minute != b.minute {
        a.minute > b.minute
    } else if a.second != b.second {
        a.second > b.second
    } else {
        a.microsecond > b.microsecond
    }
}

/// Bounds that hold of both compared operands.
pub open spec fn moment_in_range(m: Moment) -> bool {
    &&& -5_000_000 <= m.year <= 5_000_000
    &&& 1 <= m.month <= 12
    &&& 0 <= m.day <= 32
    &&& -1 <= m.hour <= 47
    &&& -1 <= m.minute <= 60
    &&& 0 <= m.second < 60
    &&& 0 <= m.microsecond < 1_000_000
}

#[verifier::rlimit(40)]
fn diff_ordered(a: &Moment, b: &Moment) -> (r: (i32, i32, i32, i32, i32, i32, i32))
    requires
        moment_in_range(*a),
        moment_in_range(*b),
    ensures
        (r.0 as int, r.1 as int, r.2 as int, r.3 as int, r.4 as int, r.5 as int, r.6 as int)
            == ordered_diff(*a, *b),
        -20_000_000 <= r.0 <= 20_000_000,
        -100 <= r.1 <= 100,
        -100 <= r.2 <= 100,
        -100 <= r.3 <= 100,
        -100 <= r.4 <= 100,
        -100 <= r.5 <= 100,
        -2_000_000 <= r.6 <= 2_000_000,
{
    let mut year_diff: i32 = b.year - a.year;
    let mut month_diff: i32 = b.month - a.month;
    let mut day_diff: i32 = b.day - a.day;
    let mut hour_diff: i32 = b.hour - a.hour;
    let mut minute_diff: i32 = b.minute - a.minute;
    let mut second_diff: i32 = b.second - a.second;
    let mut microsecond_diff: i32 = b.microsecond - a.microsecond;
    if microsecond_diff < 0 {
        microsecond_diff = microsecond_diff + 1_000_000;
        second_diff = second_diff - 1;
    }
    if second_diff < 0 {
        second_diff = second_diff + 60;
        minute_diff = minute_diff - 1;
    }
    if minute_diff < 0 {
        minute_diff = minute_diff + 60;
        hour_diff = hour_diff - 1;
    }
    if hour_diff < 0 {
        hour_diff = hour_diff + 24;
        day_diff = day_diff - 1;
    }
    if day_diff < 0 {
        // A negative day difference may still span whole months.
        let mut year: i32 = b.year;
        let mut month: i32 = b.month;
        if month == 1 {
            month = 12;
            year = year - 1;
        } else {
            month = month - 1;
        }
        let days_in_last_month: i32 = days_in_month(is_leap(year), month as u32) as i32;
        let days_in_this_month: i32 = days_in_month(is_leap(b.year), b.month as u32) as i32;
        if day_diff < days_in_this_month - days_in_last_month {
            // Not a full month: count the days.
            if days_in_last_month < a.day {
                day_diff = day_diff + a.day;
            } else {
                day_diff = day_diff + days_in_last_month;
            }
        } else if day_diff == days_in_this_month - days_in_last_month {
            // Exactly a full month.
            day_diff = 0;
            month_diff = month_diff + 1;
        } else {
            day_diff = day_diff + days_in_last_month;
        }
        month_diff = month_diff - 1;
    }
    if month_diff < 0 {
        month_diff = month_diff + 12;
        year_diff = year_diff - 1;
    }
    (year_diff, month_diff, day_diff, hour_diff, minute_diff, second_diff, microsecond_diff)
}

/// The calendar-aware difference from `dt1` to `dt2`: years, months, days,
/// hours, minutes, seconds and microseconds, and the number of days between
/// the two dates, all with the sign of the difference.
#[verifier::rlimit(40)]
pub fn precise_diff(dt1: &DateTimeInfo, dt2: &DateTimeInfo) -> (r: PreciseDiff)
    requires
        dt1.valid(),
        dt2.valid(),
    ensures
        r == precise_diff_of(*dt1, *dt2),
{
    let in_same_tz: bool = dt1.tz == dt2.tz && !dt1.tz.as_str().is_empty();
    proof {
        lemma_day_count_bounds(dt1.year as int, dt1.month as int, dt1.day as int);
        lemma_day_count_bounds(dt2.year as int, dt2.month as int, dt2.day as int);
    }
    let total_days: i32 = day_number(dt2.year, dt2.month as u8, dt2.day as u8) - day_number(
        dt1.year,
        dt1.month as u8,
        dt1.day as u8,
    );
    let m1 = moment_of(dt1, in_same_tz, total_days);
    let m2 = moment_of(dt2, in_same_tz, total_days);
    let r = if moment_is_after(&m1, &m2) {
        let d = diff_ordered(&m2, &m1);
        (-d.0, -d.1, -d.2, -d.3, -d.4, -d.5, -d.6, total_days)
    } else {
        let d = diff_ordered(&m1, &m2);
        (d.0, d.1, d.2, d.3, d.4, d.5, d.6, total_days)
    };
    PreciseDiff::new(r.0, r.1, r.2, r.3, r.4, r.5, r.6, r.7)
}

} // verus!
