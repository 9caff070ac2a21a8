//! The ISO-8601 grammar read by the parser, as spec functions over the
//! input's bytes. Each one reads from a byte position and gives what it
//! read together with the position after it, or the error at which it
//! stopped.
use vstd::prelude::*;

use crate::calendar::{
    lemma_month_of_ordinal_valid, valid_date,
    is_leap_year, is_long_iso_year, month_length, month_of_ordinal, month_start, weekday_of,
    year_length,
};
use crate::parsing::{
    DateTimeModel, DurationState, Field, ParseError, ParseErrorKind, ParsedDuration, ParsedModel,
    empty_datetime, zero_duration,
};

verus! {

pub const DIGIT_0: u8 = 0x30;

pub const DIGIT_9: u8 = 0x39;

pub const SPACE: u8 = 0x20;

pub const PLUS: u8 = 0x2b;

pub const COMMA: u8 = 0x2c;

pub const DASH: u8 = 0x2d;

pub const DOT: u8 = 0x2e;

pub const SLASH: u8 = 0x2f;

pub const COLON: u8 = 0x3a;

pub const UNIT_D: u8 = 0x44;

pub const UNIT_H: u8 = 0x48;

pub const UNIT_M: u8 = 0x4d;

pub const DESIGNATOR_P: u8 = 0x50;

pub const UNIT_S: u8 = 0x53;

pub const DESIGNATOR_T: u8 = 0x54;

pub const DESIGNATOR_W: u8 = 0x57;

pub const UNIT_Y: u8 = 0x59;

pub const DESIGNATOR_Z: u8 = 0x5a;

/// The byte at `i`, or 0 past the end.
pub open spec fn byte_at(s: Seq<u8>, i: int) -> u8 {
    if 0 <= i < s.len() {
        s[i]
    } else {
        0
    }
}

pub open spec fn is_digit(c: u8) -> bool {
    DIGIT_0 <= c <= DIGIT_9
}

pub open spec fn digit_value(c: u8) -> nat {
    (c - DIGIT_0) as nat
}

pub open spec fn error(index: int, kind: ParseErrorKind) -> ParseError {
    ParseError { index: index as usize, kind }
}

/// The error for a byte at `i` that cannot stand in `field`: the end of
/// the text, `expected` characters short, or an invalid character.
pub open spec fn unexpected(s: Seq<u8>, i: int, field: Field, expected: int) -> ParseError {
    if i >= s.len() {
        error(i, ParseErrorKind::UnexpectedEnd { field, expected: expected as usize })
    } else {
        error(i, ParseErrorKind::InvalidCharacter { field })
    }
}

/// `n` decimal digits from `i`, read onto `acc`.
pub open spec fn digits(s: Seq<u8>, i: int, n: nat, field: Field, acc: nat) -> Result<
    (nat, int),
    ParseError,
>
    decreases n,
{
    if n == 0 {
        Ok((acc, i))
    } else if is_digit(byte_at(s, i)) {
        digits(s, i + 1, (n - 1) as nat, field, acc * 10 + digit_value(byte_at(s, i)))
    } else {
        Err(unexpected(s, i, field, n as int))
    }
}

/// A fixed-width decimal number of `n` digits.
pub open spec fn integer(s: Seq<u8>, i: int, n: nat, field: Field) -> Result<
    (nat, int),
    ParseError,
> {
    digits(s, i, n, field, 0)
}

/// A date ends at the end of the text, at a date-time separator, or at an
/// interval's `/`.
pub open spec fn date_end(s: Seq<u8>, i: int) -> bool {
    i >= s.len() || byte_at(s, i) == SPACE || byte_at(s, i) == DESIGNATOR_T || byte_at(s, i)
        == SLASH
}

/// The time of day ends at the end of the text, at a UTC offset, or at an
/// interval's `/`.
pub open spec fn time_end(s: Seq<u8>, i: int) -> bool {
    i >= s.len() || byte_at(s, i) == DESIGNATOR_Z || byte_at(s, i) == PLUS || byte_at(s, i) == DASH
        || byte_at(s, i) == SLASH
}

/// The calendar date of day `ordinal` of `year`.
pub open spec fn date_of_ordinal(year: int, ordinal: int) -> (int, int, int) {
    let month = month_of_ordinal(is_leap_year(year), ordinal);
    (year, month, ordinal - month_start(is_leap_year(year), month))
}

/// An ordinal date; the day of the year, read at `at`, must exist.
pub open spec fn ordinal_date(year: int, ordinal: int, at: int) -> Result<
    (int, int, int),
    ParseError,
> {
    if 1 <= ordinal <= year_length(year) {
        Ok(date_of_ordinal(year, ordinal))
    } else {
        Err(error(at, ParseErrorKind::InvalidValue { field: Field::OrdinalDay }))
    }
}

/// An ISO week date; the week (read at `week_at`) and the weekday (read at
/// `day_at`) must exist, and the date may fall in the previous or the next
/// calendar year.
pub open spec fn week_date(year: int, week: int, weekday: int, week_at: int, day_at: int) -> Result<
    (int, int, int),
    ParseError,
> {
    if week < 1 || week > 53 || (week == 53 && !is_long_iso_year(year)) {
        Err(error(week_at, ParseErrorKind::InvalidValue { field: Field::IsoWeek }))
    } else if weekday < 1 || weekday > 7 {
        Err(error(day_at, ParseErrorKind::InvalidValue { field: Field::IsoDay }))
    } else {
        let ordinal = week * 7 + weekday - (weekday_of(year, 1, 4) + 3);
        if ordinal < 1 {
            if year == 0 {
                Err(error(week_at, ParseErrorKind::InvalidValue { field: Field::IsoWeek }))
            } else {
                Ok(date_of_ordinal(year - 1, ordinal + year_length(year - 1)))
            }
        } else if ordinal > year_length(year) {
            Ok(date_of_ordinal(year + 1, ordinal - year_length(year)))
        } else {
            Ok(date_of_ordinal(year, ordinal))
        }
    }
}

/// A month, read at `at`, must be 1..=12.
pub open spec fn month_check(month: int, at: int) -> Result<(), ParseError> {
    if 1 <= month <= 12 {
        Ok(())
    } else {
        Err(error(at, ParseErrorKind::InvalidValue { field: Field::Month }))
    }
}

/// A calendar date; its month was checked, and its day, read at `at`,
/// must exist in that month.
pub open spec fn day_check(year: int, month: int, day: int, at: int) -> Result<(), ParseError> {
    if 1 <= day <= month_length(is_leap_year(year), month) {
        Ok(())
    } else {
        Err(error(at, ParseErrorKind::InvalidValue { field: Field::Day }))
    }
}

/// Extended week date after `YYYY-W`: `ww` or `ww-D`.
pub open spec fn extended_week_date(s: Seq<u8>, year: int, i: int) -> Result<
    ((int, int, int), int),
    ParseError,
> {
    match integer(s, i, 2, Field::IsoWeek) {
        Err(e) => Err(e),
        Ok((week, j)) => if date_end(s, j) {
            match week_date(year, week as int, 1, i, j) {
                Err(e) => Err(e),
                Ok(d) => Ok((d, j)),
            }
        } else if byte_at(s, j) != DASH {
            Err(error(j, ParseErrorKind::InvalidCharacter { field: Field::DateSeparator }))
        } else {
            match integer(s, j + 1, 1, Field::IsoDay) {
                Err(e) => Err(e),
                Ok((weekday, k)) => match week_date(year, week as int, weekday as int, i, j + 1) {
                    Err(e) => Err(e),
                    Ok(d) => Ok((d, k)),
                },
            }
        },
    }
}

/// Extended date after `YYYY-`: `MM`, `MM-DD` or an ordinal `DDD`.
pub open spec fn extended_month_date(s: Seq<u8>, year: int, i: int) -> Result<
    ((int, int, int), int),
    ParseError,
> {
    match integer(s, i, 2, Field::Month) {
        Err(e) => Err(e),
        Ok((month, j)) => if date_end(s, j) {
            match month_check(month as int, i) {
                Err(e) => Err(e),
                Ok(_) => Ok(((year, month as int, 1), j)),
            }
        } else if byte_at(s, j) == DASH {
            match month_check(month as int, i) {
                Err(e) => Err(e),
                Ok(_) => match integer(s, j + 1, 2, Field::Day) {
                    Err(e) => Err(e),
                    Ok((day, k)) => match day_check(year, month as int, day as int, j + 1) {
                        Err(e) => Err(e),
                        Ok(_) => Ok(((year, month as int, day as int), k)),
                    },
                },
            }
        } else {
            match integer(s, j, 1, Field::OrdinalDay) {
                Err(e) => Err(e),
                Ok((d, k)) => match ordinal_date(year, (month * 10 + d) as int, i) {
                    Err(e) => Err(e),
                    Ok(date) => Ok((date, k)),
                },
            }
        },
    }
}

/// Basic week date after `YYYYW`: `ww` or `wwD`.
pub open spec fn basic_week_date(s: Seq<u8>, year: int, i: int) -> Result<
    ((int, int, int), int),
    ParseError,
> {
    match integer(s, i, 2, Field::IsoWeek) {
        Err(e) => Err(e),
        Ok((week, j)) => if date_end(s, j) {
            match week_date(year, week as int, 1, i, j) {
                Err(e) => Err(e),
                Ok(d) => Ok((d, j)),
            }
        } else {
            match integer(s, j, 1, Field::IsoDay) {
                Err(e) => Err(e),
                Ok((weekday, k)) => match week_date(year, week as int, weekday as int, i, j) {
                    Err(e) => Err(e),
                    Ok(d) => Ok((d, k)),
                },
            }
        },
    }
}

/// Basic date after `YYYY`: `MMDD` or an ordinal `DDD`.
pub open spec fn basic_month_date(s: Seq<u8>, year: int, i: int) -> Result<
    ((int, int, int), int),
    ParseError,
> {
    match integer(s, i, 2, Field::Month) {
        Err(e) => Err(e),
        Ok((month, j)) => match integer(s, j, 1, Field::OrdinalDay) {
            Err(e) => Err(e),
            Ok((d, k)) => if date_end(s, k) {
                match ordinal_date(year, (month * 10 + d) as int, i) {
                    Err(e) => Err(e),
                    Ok(date) => Ok((date, k)),
                }
            } else {
                match integer(s, k, 1, Field::Day) {
                    Err(e) => Err(e),
                    Ok((d2, l)) => match month_check(month as int, i) {
                        Err(e) => Err(e),
                        Ok(_) => match day_check(year, month as int, (d * 10 + d2) as int, j) {
                            Err(e) => Err(e),
                            Ok(_) => Ok(((year, month as int, (d * 10 + d2) as int), l)),
                        },
                    },
                }
            },
        },
    }
}

/// The date after the first two digits of the year (`century`), at `i`:
/// the date read, whether it used separators, and the position after it.
pub open spec fn date_part(s: Seq<u8>, century: nat, i: int) -> Result<
    ((int, int, int), bool, int),
    ParseError,
> {
    match integer(s, i, 2, Field::Year) {
        Err(e) => Err(e),
        Ok((low, j)) => {
            let year = (century * 100 + low) as int;
            if byte_at(s, j) == DASH {
                let r = if byte_at(s, j + 1) == DESIGNATOR_W {
                    extended_week_date(s, year, j + 2)
                } else {
                    extended_month_date(s, year, j + 1)
                };
                match r {
                    Err(e) => Err(e),
                    Ok((d, k)) => Ok((d, true, k)),
                }
            } else {
                let r = if byte_at(s, j) == DESIGNATOR_W {
                    basic_week_date(s, year, j + 1)
                } else {
                    basic_month_date(s, year, j)
                };
                match r {
                    Err(e) => Err(e),
                    Ok((d, k)) => Ok((d, false, k)),
                }
            }
        },
    }
}

/// `10` to the power `count`, for `count` up to 6.
pub open spec fn micro_limit(count: nat) -> nat {
    if count == 0 {
        1
    } else if count == 1 {
        10
    } else if count == 2 {
        100
    } else if count == 3 {
        1000
    } else if count == 4 {
        10000
    } else if count == 5 {
        100000
    } else {
        1000000
    }
}

/// `acc` holding `count` digits, padded with zeros to six digits.
pub open spec fn pad_micros(acc: nat, count: nat) -> nat
    decreases 6 - count,
{
    if count < 6 {
        pad_micros(acc * 10, count + 1)
    } else {
        acc
    }
}

/// The position after the run of digits at `i`.
pub open spec fn skip_digits(s: Seq<u8>, i: int) -> int
    decreases s.len() - i,
{
    if 0 <= i < s.len() && is_digit(s[i]) {
        skip_digits(s, i + 1)
    } else {
        i
    }
}

/// Fraction digits from `i`: the first six give microseconds, the rest are
/// skipped.
pub open spec fn micro_digits(s: Seq<u8>, i: int, count: nat, acc: nat) -> (nat, int)
    decreases 6 - count,
{
    if count < 6 && is_digit(byte_at(s, i)) {
        micro_digits(s, i + 1, count + 1, acc * 10 + digit_value(byte_at(s, i)))
    } else {
        (pad_micros(acc, count), skip_digits(s, i))
    }
}

/// An optional fraction of a second at `i`: `.` or `,` and at least one
/// digit.
pub open spec fn subsecond(s: Seq<u8>, i: int) -> Result<(nat, int), ParseError> {
    if byte_at(s, i) == DOT || byte_at(s, i) == COMMA {
        if is_digit(byte_at(s, i + 1)) {
            Ok(micro_digits(s, i + 1, 0, 0))
        } else {
            Err(unexpected(s, i + 1, Field::Subsecond, 1))
        }
    } else {
        Ok((0, i))
    }
}

/// Seconds and their fraction at `i`, the second checked to be below 60.
pub open spec fn seconds_part(s: Seq<u8>, i: int) -> Result<(nat, nat, int), ParseError> {
    match integer(s, i, 2, Field::Second) {
        Err(e) => Err(e),
        Ok((second, j)) => if second > 59 {
            Err(error(i, ParseErrorKind::InvalidValue { field: Field::Second }))
        } else {
            match subsecond(s, j) {
                Err(e) => Err(e),
                Ok((micro, k)) => Ok((second, micro, k)),
            }
        },
    }
}

/// Minutes, and optionally seconds, at `i` (after a `:` when `extended`):
/// (minute, second, microsecond, position after).
pub open spec fn minutes_part(s: Seq<u8>, i: int, extended: bool) -> Result<
    (nat, nat, nat, int),
    ParseError,
> {
    match integer(s, i, 2, Field::Minute) {
        Err(e) => Err(e),
        Ok((minute, j)) => if minute > 59 {
            Err(error(i, ParseErrorKind::InvalidValue { field: Field::Minute }))
        } else if time_end(s, j) {
            Ok((minute, 0, 0, j))
        } else if extended {
            if byte_at(s, j) != COLON {
                Err(error(j, ParseErrorKind::InvalidCharacter { field: Field::TimeSeparator }))
            } else {
                match seconds_part(s, j + 1) {
                    Err(e) => Err(e),
                    Ok((second, micro, k)) => Ok((minute, second, micro, k)),
                }
            }
        } else {
            match seconds_part(s, j) {
                Err(e) => Err(e),
                Ok((second, micro, k)) => Ok((minute, second, micro, k)),
            }
        },
    }
}

/// An optional UTC designator or offset at `i`: (offset in seconds, whether
/// it was `Z`, position after).
pub open spec fn timezone_part(s: Seq<u8>, i: int) -> Result<(Option<i32>, bool, int), ParseError> {
    let c = byte_at(s, i);
    if c == DESIGNATOR_Z {
        Ok((Some(0i32), true, i + 1))
    } else if c == PLUS || c == DASH {
        match integer(s, i + 1, 2, Field::TimezoneHour) {
            Err(e) => Err(e),
            Ok((tzhour, j)) => {
                let minutes = if byte_at(s, j) == COLON {
                    integer(s, j + 1, 2, Field::TimezoneMinute)
                } else if is_digit(byte_at(s, j)) {
                    integer(s, j, 2, Field::TimezoneMinute)
                } else {
                    Ok((0nat, j))
                };
                match minutes {
                    Err(e) => Err(e),
                    Ok((tzminute, k)) => if tzminute > 59 || tzhour * 60 + tzminute > 1440 {
                        Err(error(k, ParseErrorKind::TimezoneOutOfRange))
                    } else {
                        let total: int = ((tzhour * 60 + tzminute) * 60) as int;
                        Ok((Some((if c == PLUS { total } else { -total }) as i32), false, k))
                    },
                }
            },
        }
    } else {
        Ok((None, false, i))
    }
}

/// The time of day after the hour, at `i`, with the hour read at
/// `hour_at`; it fills `dt`.
pub open spec fn time_after_hour(
    s: Seq<u8>,
    i: int,
    dt: DateTimeModel,
    hour: nat,
    hour_at: int,
) -> Result<
    (DateTimeModel, int),
    ParseError,
> {
    let rest = if time_end(s, i) {
        Ok((0nat, 0nat, 0nat, i))
    } else if byte_at(s, i) == COLON {
        match minutes_part(s, i + 1, true) {
            Err(e) => Err(e),
            Ok((mi, se, us, j)) => if dt.has_date && !dt.extended_date_format {
                Err(error(j, ParseErrorKind::MixedFormat))
            } else {
                Ok((mi, se, us, j))
            },
        }
    } else {
        match minutes_part(s, i, false) {
            Err(e) => Err(e),
            Ok((mi, se, us, j)) => if dt.has_date && dt.extended_date_format {
                Err(error(j, ParseErrorKind::MixedFormat))
            } else {
                Ok((mi, se, us, j))
            },
        }
    };
    match rest {
        Err(e) => Err(e),
        Ok((minute, second, micro, j)) => if hour == 24 && (minute != 0 || second != 0 || micro
            != 0) {
            Err(error(hour_at, ParseErrorKind::InvalidValue { field: Field::Hour }))
        } else {
            match timezone_part(s, j) {
                Err(e) => Err(e),
                Ok((offset, utc, k)) => Ok(
                    (
                        DateTimeModel {
                            hour: hour as u32,
                            minute: minute as u32,
                            second: second as u32,
                            microsecond: micro as u32,
                            has_time: true,
                            time_is_midnight: hour == 24,
                            offset: offset,
                            has_offset: offset is Some,
                            tzname: if utc {
                                Some(seq!['U', 'T', 'C'])
                            } else {
                                None
                            },
                            ..dt
                        },
                        k,
                    ),
                ),
            }
        },
    }
}

/// A time of day at `i`, introduced by `T` or a space; it fills `dt`.
pub open spec fn time_part(s: Seq<u8>, i: int, dt: DateTimeModel) -> Result<
    (DateTimeModel, int),
    ParseError,
> {
    if byte_at(s, i) != DESIGNATOR_T && byte_at(s, i) != SPACE {
        Err(unexpected(s, i, Field::DateTimeSeparator, 1))
    } else {
        match integer(s, i + 1, 2, Field::Hour) {
            Err(e) => Err(e),
            Ok((hour, j)) => if hour > 24 {
                Err(error(i + 1, ParseErrorKind::InvalidValue { field: Field::Hour }))
            } else {
                time_after_hour(s, j, dt, hour, i + 1)
            },
        }
    }
}

/// A value that must reach the end of the text.
pub open spec fn to_end(s: Seq<u8>, r: Result<(DateTimeModel, int), ParseError>) -> Result<
    (DateTimeModel, int),
    ParseError,
> {
    match r {
        Err(e) => Err(e),
        Ok((dt, j)) => if j < s.len() {
            Err(error(j, ParseErrorKind::TrailingData))
        } else {
            Ok((dt, j))
        },
    }
}

/// A date, a date and time, or a time at `i`. A value with a date may
/// stop at an interval's `/`; a time alone must reach the end.
pub open spec fn datetime_value(s: Seq<u8>, i: int) -> Result<(DateTimeModel, int), ParseError> {
    let dt = empty_datetime();
    if byte_at(s, i) == DESIGNATOR_T {
        to_end(s, time_part(s, i, dt))
    } else {
        match integer(s, i, 2, Field::Year) {
            Err(e) => Err(e),
            Ok((high, j)) => if byte_at(s, j) == COLON {
                // A time in extended format: the two digits were the hour.
                if high > 24 {
                    Err(error(i, ParseErrorKind::InvalidValue { field: Field::Hour }))
                } else {
                    let dt = DateTimeModel { extended_date_format: true, ..dt };
                    to_end(s, time_after_hour(s, j, dt, high, i))
                }
            } else {
                match date_part(s, high, j) {
                    Err(e) => Err(e),
                    Ok(((y, m, d), extended, k)) => {
                        let dt = DateTimeModel {
                            year: y as u32,
                            month: m as u32,
                            day: d as u32,
                            has_date: true,
                            extended_date_format: extended,
                            ..dt
                        };
                        if k < s.len() && byte_at(s, k) != SLASH {
                            match time_part(s, k, dt) {
                                Err(e) => Err(e),
                                Ok((dt, l)) => if l < s.len() && byte_at(s, l) != SLASH {
                                    Err(error(l, ParseErrorKind::TrailingData))
                                } else {
                                    Ok((dt, l))
                                },
                            }
                        } else {
                            Ok((dt, k))
                        }
                    },
                }
            },
        }
    }
}

/// The digits of a duration's number from `i`, read onto `acc`; the number
/// must fit in 32 bits.
pub open spec fn number_digits(s: Seq<u8>, i: int, acc: nat) -> Result<(nat, int), ParseError>
    decreases s.len() - i,
{
    if 0 <= i < s.len() && is_digit(s[i]) {
        let v = acc * 10 + digit_value(s[i]);
        if v > u32::MAX {
            Err(error(i, ParseErrorKind::NumberTooLarge))
        } else {
            number_digits(s, i + 1, v)
        }
    } else {
        Ok((acc, i))
    }
}

/// A duration's number at `i`: one digit or more.
pub open spec fn duration_number(s: Seq<u8>, i: int) -> Result<(nat, int), ParseError> {
    if is_digit(byte_at(s, i)) {
        number_digits(s, i, 0)
    } else {
        Err(unexpected(s, i, Field::DurationNumber, 1))
    }
}

/// Fraction digits from `i` as `num / den`: the first twelve count, the
/// rest are skipped.
pub open spec fn fraction_digits(s: Seq<u8>, i: int, count: nat, num: nat, den: nat) -> (
    nat,
    nat,
    int,
)
    decreases s.len() - i,
{
    if 0 <= i < s.len() && is_digit(s[i]) {
        if count < 12 {
            fraction_digits(s, i + 1, count + 1, num * 10 + digit_value(s[i]), den * 10)
        } else {
            fraction_digits(s, i + 1, count, num, den)
        }
    } else {
        (num, den, i)
    }
}

/// An optional fraction at `i`: `.` or `,` and at least one digit.
pub open spec fn duration_fraction(s: Seq<u8>, i: int) -> Result<
    (Option<(nat, nat)>, int),
    ParseError,
> {
    if byte_at(s, i) == DOT || byte_at(s, i) == COMMA {
        if is_digit(byte_at(s, i + 1)) {
            let (num, den, j) = fraction_digits(s, i + 1, 0, 0, 1);
            Ok((Some((num, den)), j))
        } else {
            Err(unexpected(s, i + 1, Field::DurationFraction, 1))
        }
    } else {
        Ok((None, i))
    }
}

/// `10` to the power `n`.
pub open spec fn ten_pow(n: nat) -> nat
    decreases n,
{
    if n == 0 {
        1
    } else {
        10 * ten_pow((n - 1) as nat)
    }
}

/// A fraction `num / den` read from at most twelve digits.
pub open spec fn valid_fraction(num: nat, den: nat) -> bool {
    0 <= num < den <= 1_000_000_000_000
}

/// `num / den` of a second in microseconds, rounded half up.
pub open spec fn round_micros(num: nat, den: nat) -> nat {
    (num * 2_000_000 + den) / (2 * den)
}

/// `num / den` of a minute: whole seconds and rounded microseconds.
pub open spec fn minute_fraction(num: nat, den: nat) -> (nat, nat) {
    (num * 60 / den, round_micros(num * 60 % den, den))
}

/// `num / den` of an hour: whole minutes, whole seconds and rounded
/// microseconds.
pub open spec fn hour_fraction(num: nat, den: nat) -> (nat, nat, nat) {
    let (s, us) = minute_fraction(num * 60 % den, den);
    (num * 60 / den, s, us)
}

/// `num / den` of a day, down to rounded microseconds.
pub open spec fn day_fraction(num: nat, den: nat) -> (nat, nat, nat, nat) {
    let (mi, s, us) = hour_fraction(num * 24 % den, den);
    (num * 24 / den, mi, s, us)
}

/// `num / den` of a week, down to rounded microseconds.
pub open spec fn week_fraction(num: nat, den: nat) -> (nat, nat, nat, nat, nat) {
    let (h, mi, s, us) = day_fraction(num * 7 % den, den);
    (num * 7 / den, h, mi, s, us)
}

/// The state of a duration before its first unit.
pub open spec fn duration_start() -> DurationState {
    DurationState {
        duration: zero_duration(),
        got_t: false,
        last_rank: 0,
        has_weeks: false,
        had_fraction: false,
    }
}

/// The unit letter at `i` applied to `value` and its optional fraction
/// `num / den`. Units rank Y, M, W, D before `T` and H, M, S after it,
/// and each must outrank the one before.
pub open spec fn apply_unit(
    s: Seq<u8>,
    i: int,
    st: DurationState,
    value: nat,
    frac: Option<(nat, nat)>,
) -> Result<DurationState, ParseError> {
    let c = byte_at(s, i);
    let d = st.duration;
    let v = value as u32;
    let has_frac = frac is Some;
    let (num, den) = match frac {
        Some(f) => f,
        None => (0nat, 1nat),
    };
    let out_of_order = Err(error(i, ParseErrorKind::UnitsOutOfOrder));
    if st.got_t {
        if c == UNIT_H {
            if st.last_rank >= 5 {
                out_of_order
            } else {
                let (mi, se, us) = hour_fraction(num, den);
                let d2 = if has_frac {
                    ParsedDuration {
                        hours: v,
                        minutes: mi as u32,
                        seconds: se as u32,
                        microseconds: us as u32,
                        ..d
                    }
                } else {
                    ParsedDuration { hours: v, ..d }
                };
                Ok(DurationState { duration: d2, last_rank: 5, had_fraction: has_frac, ..st })
            }
        } else if c == UNIT_M {
            if st.last_rank >= 6 {
                out_of_order
            } else {
                let (se, us) = minute_fraction(num, den);
                let d2 = if has_frac {
                    ParsedDuration {
                        minutes: v,
                        seconds: se as u32,
                        microseconds: us as u32,
                        ..d
                    }
                } else {
                    ParsedDuration { minutes: v, ..d }
                };
                Ok(DurationState { duration: d2, last_rank: 6, had_fraction: has_frac, ..st })
            }
        } else if c == UNIT_S {
            if st.last_rank >= 7 {
                out_of_order
            } else {
                let d2 = if has_frac {
                    ParsedDuration {
                        seconds: v,
                        microseconds: round_micros(num, den) as u32,
                        ..d
                    }
                } else {
                    ParsedDuration { seconds: v, ..d }
                };
                Ok(DurationState { duration: d2, last_rank: 7, had_fraction: has_frac, ..st })
            }
        } else {
            Err(unexpected(s, i, Field::DurationUnit, 1))
        }
    } else if c == UNIT_Y {
        if has_frac {
            Err(error(i, ParseErrorKind::FractionalYears))
        } else if st.last_rank >= 1 {
            out_of_order
        } else {
            Ok(
                DurationState {
                    duration: ParsedDuration { years: v, ..d },
                    last_rank: 1,
                    had_fraction: false,
                    ..st
                },
            )
        }
    } else if c == UNIT_M {
        if has_frac {
            Err(error(i, ParseErrorKind::FractionalMonths))
        } else if st.last_rank >= 2 {
            out_of_order
        } else {
            Ok(
                DurationState {
                    duration: ParsedDuration { months: v, ..d },
                    last_rank: 2,
                    had_fraction: false,
                    ..st
                },
            )
        }
    } else if c == DESIGNATOR_W {
        if st.last_rank >= 3 {
            out_of_order
        } else if st.last_rank >= 1 {
            Err(error(i, ParseErrorKind::MixedWeeks))
        } else {
            let (dd, h, mi, se, us) = week_fraction(num, den);
            let d2 = if has_frac {
                ParsedDuration {
                    weeks: v,
                    days: dd as u32,
                    hours: h as u32,
                    minutes: mi as u32,
                    seconds: se as u32,
                    microseconds: us as u32,
                    ..d
                }
            } else {
                ParsedDuration { weeks: v, ..d }
            };
            Ok(
                DurationState {
                    duration: d2,
                    last_rank: 3,
                    has_weeks: true,
                    had_fraction: has_frac,
                    ..st
                },
            )
        }
    } else if c == UNIT_D {
        if st.has_weeks {
            Err(error(i, ParseErrorKind::MixedWeeks))
        } else if st.last_rank >= 4 {
            out_of_order
        } else {
            let (h, mi, se, us) = day_fraction(num, den);
            let d2 = if has_frac {
                ParsedDuration {
                    days: v,
                    hours: h as u32,
                    minutes: mi as u32,
                    seconds: se as u32,
                    microseconds: us as u32,
                    ..d
                }
            } else {
                ParsedDuration { days: v, ..d }
            };
            Ok(DurationState { duration: d2, last_rank: 4, had_fraction: has_frac, ..st })
        }
    } else {
        Err(unexpected(s, i, Field::DurationUnit, 1))
    }
}

/// A duration stops at the end of the text or at an interval's `/`.
pub open spec fn duration_stop(s: Seq<u8>, i: int) -> bool {
    i >= s.len() || byte_at(s, i) == SLASH
}

/// The duration read when it stops at `i`; a `T` must be followed by a
/// unit.
pub open spec fn duration_finish(st: DurationState, i: int) -> Result<
    (ParsedDuration, int),
    ParseError,
> {
    if st.got_t && st.last_rank < 5 {
        Err(error(i, ParseErrorKind::EmptyTimePart))
    } else {
        Ok((st.duration, i))
    }
}

/// The rest of a duration from `i`, in state `st`.
pub open spec fn duration_loop(s: Seq<u8>, i: int, st: DurationState) -> Result<
    (ParsedDuration, int),
    ParseError,
>
    decreases s.len() - i,
    via duration_loop_decreases
{
    if byte_at(s, i) == DESIGNATOR_T {
        if st.got_t {
            Err(error(i, ParseErrorKind::RepeatedTimeMarker))
        } else {
            let st2 = DurationState { got_t: true, ..st };
            if duration_stop(s, i + 1) {
                duration_finish(st2, i + 1)
            } else {
                duration_loop(s, i + 1, st2)
            }
        }
    } else {
        match duration_number(s, i) {
            Err(e) => Err(e),
            Ok((value, j)) => match duration_fraction(s, j) {
                Err(e) => Err(e),
                Ok((frac, k)) => if st.had_fraction {
                    Err(error(k, ParseErrorKind::MisplacedFraction))
                } else {
                    match apply_unit(s, k, st, value, frac) {
                        Err(e) => Err(e),
                        Ok(st2) => if duration_stop(s, k + 1) {
                            duration_finish(st2, k + 1)
                        } else {
                            duration_loop(s, k + 1, st2)
                        },
                    }
                },
            },
        }
    }
}

/// A number's digits never move the position back.
pub proof fn lemma_number_digits_advance(s: Seq<u8>, i: int, acc: nat)
    ensures
        number_digits(s, i, acc) matches Ok((_, j)) ==> j >= i,
    decreases s.len() - i,
{
    if 0 <= i < s.len() && is_digit(s[i]) {
        let v = acc * 10 + digit_value(s[i]);
        if v <= u32::MAX {
            lemma_number_digits_advance(s, i + 1, v);
        }
    }
}

/// Fraction digits never move the position back.
pub proof fn lemma_fraction_digits_advance(s: Seq<u8>, i: int, count: nat, num: nat, den: nat)
    ensures
        fraction_digits(s, i, count, num, den).2 >= i,
    decreases s.len() - i,
{
    if 0 <= i < s.len() && is_digit(s[i]) {
        if count < 12 {
            let next = num * 10 + digit_value(s[i]);
            lemma_fraction_digits_advance(s, i + 1, count + 1, next, den * 10);
        } else {
            lemma_fraction_digits_advance(s, i + 1, count, num, den);
        }
    }
}

#[via_fn]
proof fn duration_loop_decreases(s: Seq<u8>, i: int, st: DurationState) {
    if byte_at(s, i) != DESIGNATOR_T && is_digit(byte_at(s, i)) {
        lemma_number_digits_advance(s, i, 0);
        if let Ok((value, j)) = duration_number(s, i) {
            if byte_at(s, j) == DOT || byte_at(s, j) == COMMA {
                lemma_fraction_digits_advance(s, j + 1, 0, 0, 1);
            }
        }
    }
}

/// A duration whose `P` is at `i`.
pub open spec fn duration_value(s: Seq<u8>, i: int) -> Result<(ParsedDuration, int), ParseError> {
    duration_loop(s, i + 1, duration_start())
}

/// The second side of an interval must reach the end of the text.
pub open spec fn ends_at(s: Seq<u8>, j: int) -> Result<(), ParseError> {
    if j < s.len() {
        Err(error(j, ParseErrorKind::TrailingData))
    } else {
        Ok(())
    }
}

/// The whole text: a date-time, a duration, or an interval of a date-time
/// and a date-time, a date-time and a duration, or a duration and a
/// date-time.
pub open spec fn parse_text(s: Seq<u8>) -> Result<ParsedModel, ParseError> {
    if byte_at(s, 0) == DESIGNATOR_P {
        match duration_value(s, 0) {
            Err(e) => Err(e),
            Ok((d, j)) => if j >= s.len() {
                Ok(ParsedModel { datetime: None, duration: Some(d), second_datetime: None })
            } else {
                match datetime_value(s, j + 1) {
                    Err(e) => Err(e),
                    Ok((dt, k)) => match ends_at(s, k) {
                        Err(e) => Err(e),
                        Ok(_) => Ok(
                            ParsedModel {
                                datetime: None,
                                duration: Some(d),
                                second_datetime: Some(dt),
                            },
                        ),
                    },
                }
            },
        }
    } else {
        match datetime_value(s, 0) {
            Err(e) => Err(e),
            Ok((dt, j)) => if j >= s.len() {
                Ok(ParsedModel { datetime: Some(dt), duration: None, second_datetime: None })
            } else if byte_at(s, j + 1) == DESIGNATOR_P {
                match duration_value(s, j + 1) {
                    Err(e) => Err(e),
                    Ok((d, k)) => match ends_at(s, k) {
                        Err(e) => Err(e),
                        Ok(_) => Ok(
                            ParsedModel {
                                datetime: Some(dt),
                                duration: Some(d),
                                second_datetime: None,
                            },
                        ),
                    },
                }
            } else {
                match datetime_value(s, j + 1) {
                    Err(e) => Err(e),
                    Ok((dt2, k)) => match ends_at(s, k) {
                        Err(e) => Err(e),
                        Ok(_) => Ok(
                            ParsedModel {
                                datetime: Some(dt),
                                duration: None,
                                second_datetime: Some(dt2),
                            },
                        ),
                    },
                }
            },
        }
    }
}

/// A parsed date-time keeps the ranges of a calendar date, a time of day
/// (hour 24 only as midnight at the end of the day) and an offset of at
/// most a day.
pub open spec fn well_formed(dt: DateTimeModel) -> bool {
    &&& valid_date(dt.year as int, dt.month as int, dt.day as int)
    &&& dt.hour <= 24
    &&& dt.minute <= 59
    &&& dt.second <= 59
    &&& dt.microsecond <= 999_999
    &&& dt.hour == 24 ==> dt.minute == 0 && dt.second == 0 && dt.microsecond == 0
    &&& dt.time_is_midnight == (dt.hour == 24)
    &&& dt.offset matches Some(o) ==> -86400 <= o <= 86400
}

/// Fixed-width numbers of one or two digits stay below 100 (below 10 for
/// one digit).
proof fn lemma_integer_bound(s: Seq<u8>, i: int, n: nat, field: Field)
    requires
        1 <= n <= 2,
    ensures
        integer(s, i, n, field) matches Ok((v, _)) ==> v <= 99 && (n == 1 ==> v <= 9),
{
    reveal_with_fuel(digits, 3);
}

/// Padding digits to six places stays below a million.
proof fn lemma_pad_micros_bound(acc: nat, count: nat)
    requires
        count <= 6,
        acc < micro_limit(count),
    ensures
        pad_micros(acc, count) < 1_000_000,
    decreases 6 - count,
{
    if count < 6 {
        lemma_pad_micros_bound(acc * 10, count + 1);
    }
}

/// Fraction digits give less than a million microseconds.
proof fn lemma_micro_digits_bound(s: Seq<u8>, i: int, count: nat, acc: nat)
    requires
        count <= 6,
        acc < micro_limit(count),
    ensures
        micro_digits(s, i, count, acc).0 < 1_000_000,
    decreases 6 - count,
{
    if count < 6 && is_digit(byte_at(s, i)) {
        lemma_micro_digits_bound(s, i + 1, count + 1, acc * 10 + digit_value(byte_at(s, i)));
    } else {
        lemma_pad_micros_bound(acc, count);
    }
}

/// Minutes and seconds read keep their clock ranges.
#[verifier::rlimit(40)]
proof fn lemma_minutes_part_bound(s: Seq<u8>, i: int, extended: bool)
    ensures
        minutes_part(s, i, extended) matches Ok((mi, se, us, _)) ==> mi <= 59 && se <= 59 && us
            <= 999_999,
{
    let j = if extended {
        i + 4
    } else {
        i + 3
    };
    lemma_integer_bound(s, j - 1, 2, Field::Second);
    if let Ok((second, k)) = integer(s, j - 1, 2, Field::Second) {
        if byte_at(s, k) == DOT || byte_at(s, k) == COMMA {
            lemma_micro_digits_bound(s, k + 1, 0, 0);
        }
    }
    lemma_integer_bound(s, i, 2, Field::Minute);
    if let Ok((minute, k)) = integer(s, i, 2, Field::Minute) {
        let t = if extended {
            k + 1
        } else {
            k
        };
        lemma_integer_bound(s, t, 2, Field::Second);
        if let Ok((second, l)) = integer(s, t, 2, Field::Second) {
            if byte_at(s, l) == DOT || byte_at(s, l) == COMMA {
                lemma_micro_digits_bound(s, l + 1, 0, 0);
            }
        }
    }
}

/// The time after the hour keeps the ranges of a time of day and of an
/// offset.
#[verifier::rlimit(40)]
proof fn lemma_time_after_hour_well_formed(
    s: Seq<u8>,
    i: int,
    dt: DateTimeModel,
    hour: nat,
    hour_at: int,
)
    requires
        hour <= 24,
        valid_date(dt.year as int, dt.month as int, dt.day as int),
    ensures
        time_after_hour(s, i, dt, hour, hour_at) matches Ok((r, _)) ==> well_formed(r),
{
    lemma_minutes_part_bound(s, i + 1, true);
    lemma_minutes_part_bound(s, i, false);
}

/// A time of day keeps its ranges.
proof fn lemma_time_part_well_formed(s: Seq<u8>, i: int, dt: DateTimeModel)
    requires
        valid_date(dt.year as int, dt.month as int, dt.day as int),
    ensures
        time_part(s, i, dt) matches Ok((r, _)) ==> well_formed(r),
{
    if let Ok((hour, j)) = integer(s, i + 1, 2, Field::Hour) {
        if hour <= 24 {
            lemma_time_after_hour_well_formed(s, j, dt, hour, i + 1);
        }
    }
}

/// An ISO week date, when it exists, is a valid date of year 0..=10000.
#[verifier::rlimit(40)]
proof fn lemma_week_date_valid(year: int, week: int, weekday: int, week_at: int, day_at: int)
    requires
        0 <= year <= 9999,
    ensures
        week_date(year, week, weekday, week_at, day_at) matches Ok((y, m, d)) ==> valid_date(y, m, d)
            && 0 <= y <= 10000,
{
    if 1 <= week <= 53 && 1 <= weekday <= 7 {
        let ordinal = week * 7 + weekday - (weekday_of(year, 1, 4) + 3);
        if ordinal < 1 {
            if year > 0 {
                lemma_month_of_ordinal_valid(year - 1, ordinal + year_length(year - 1));
            }
        } else if ordinal > year_length(year) {
            lemma_month_of_ordinal_valid(year + 1, ordinal - year_length(year));
        } else {
            lemma_month_of_ordinal_valid(year, ordinal);
        }
    }
}

/// An ordinal date, when it exists, is a valid date of its year.
proof fn lemma_ordinal_date_valid(year: int, ordinal: int, at: int)
    ensures
        ordinal_date(year, ordinal, at) matches Ok((y, m, d)) ==> valid_date(y, m, d) && y == year,
{
    if 1 <= ordinal <= year_length(year) {
        lemma_month_of_ordinal_valid(year, ordinal);
    }
}

/// Every date read is a valid date of year 0..=10000.
#[verifier::rlimit(40)]
proof fn lemma_date_part_valid(s: Seq<u8>, century: nat, i: int)
    requires
        century <= 99,
    ensures
        date_part(s, century, i) matches Ok(((y, m, d), _, _)) ==> valid_date(y, m, d) && 0 <= y
            <= 10000,
{
    lemma_integer_bound(s, i, 2, Field::Year);
    if let Ok((low, j)) = integer(s, i, 2, Field::Year) {
        let year = (century * 100 + low) as int;
        // Extended week date.
        let w = j + 2;
        lemma_integer_bound(s, w, 2, Field::IsoWeek);
        if let Ok((week, k)) = integer(s, w, 2, Field::IsoWeek) {
            lemma_week_date_valid(year, week as int, 1, w, k);
            lemma_integer_bound(s, k + 1, 1, Field::IsoDay);
            if let Ok((weekday, _)) = integer(s, k + 1, 1, Field::IsoDay) {
                lemma_week_date_valid(year, week as int, weekday as int, w, k + 1);
            }
        }
        // Basic week date.
        let w = j + 1;
        lemma_integer_bound(s, w, 2, Field::IsoWeek);
        if let Ok((week, k)) = integer(s, w, 2, Field::IsoWeek) {
            lemma_week_date_valid(year, week as int, 1, w, k);
            lemma_integer_bound(s, k, 1, Field::IsoDay);
            if let Ok((weekday, _)) = integer(s, k, 1, Field::IsoDay) {
                lemma_week_date_valid(year, week as int, weekday as int, w, k);
            }
        }
        // Extended ordinal date.
        lemma_integer_bound(s, j + 1, 2, Field::Month);
        if let Ok((month, k)) = integer(s, j + 1, 2, Field::Month) {
            lemma_integer_bound(s, k, 1, Field::OrdinalDay);
            if let Ok((d, _)) = integer(s, k, 1, Field::OrdinalDay) {
                lemma_ordinal_date_valid(year, (month * 10 + d) as int, j + 1);
            }
        }
        // Basic ordinal date.
        lemma_integer_bound(s, j, 2, Field::Month);
        if let Ok((month, k)) = integer(s, j, 2, Field::Month) {
            lemma_integer_bound(s, k, 1, Field::OrdinalDay);
            if let Ok((d, _)) = integer(s, k, 1, Field::OrdinalDay) {
                lemma_ordinal_date_valid(year, (month * 10 + d) as int, j);
            }
        }
    }
}

/// Every date-time read keeps its ranges.
#[verifier::rlimit(40)]
proof fn lemma_datetime_value_well_formed(s: Seq<u8>, i: int)
    ensures
        datetime_value(s, i) matches Ok((dt, _)) ==> well_formed(dt),
{
    let dt = empty_datetime();
    lemma_time_part_well_formed(s, i, dt);
    lemma_integer_bound(s, i, 2, Field::Year);
    if let Ok((high, j)) = integer(s, i, 2, Field::Year) {
        if high <= 24 {
            lemma_time_after_hour_well_formed(
                s,
                j,
                DateTimeModel { extended_date_format: true, ..dt },
                high,
                i,
            );
        }
        lemma_date_part_valid(s, high, j);
        if let Ok(((y, m, d), extended, k)) = date_part(s, high, j) {
            let dt2 = DateTimeModel {
                year: y as u32,
                month: m as u32,
                day: d as u32,
                has_date: true,
                extended_date_format: extended,
                ..dt
            };
            lemma_time_part_well_formed(s, k, dt2);
        }
    }
}

/// Every date-time that a successful parse yields, on either side of an
/// interval, is a valid calendar date with a time of day in range (hour 24
/// only as end-of-day midnight, flagged) and an offset of at most a day.
#[verifier::rlimit(40)]
pub proof fn lemma_parse_well_formed(s: Seq<u8>)
    ensures
        parse_text(s) matches Ok(p) ==> {
            &&& p.datetime matches Some(dt) ==> well_formed(dt)
            &&& p.second_datetime matches Some(dt) ==> well_formed(dt)
        },
{
    lemma_datetime_value_well_formed(s, 0);
    if let Ok((d, j)) = duration_value(s, 0) {
        lemma_datetime_value_well_formed(s, j + 1);
    }
    if let Ok((dt, j)) = datetime_value(s, 0) {
        lemma_datetime_value_well_formed(s, j + 1);
    }
}

} // verus!
