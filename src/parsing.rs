//! ISO-8601 text parser: dates, times, offsets, durations and intervals.
use vstd::prelude::*;
use vstd::string::StringSliceAdditionalSpecFns;

use crate::calendar::{days_in_month, days_in_year, is_leap, is_long_year, month_and_day, week_day};
use crate::grammar::{
    COLON, COMMA, DASH, DESIGNATOR_P, DESIGNATOR_T, DESIGNATOR_W, DESIGNATOR_Z, DIGIT_0, DIGIT_9,
    DOT, PLUS, SLASH, SPACE, UNIT_D, UNIT_H, UNIT_M, UNIT_S, UNIT_Y, apply_unit, basic_month_date,
    basic_week_date, byte_at, date_end, date_part, datetime_value, day_check, day_fraction,
    digit_value, digits, duration_fraction, duration_loop, duration_number, duration_value, error,
    extended_month_date, extended_week_date, fraction_digits, hour_fraction, integer, is_digit,
    lemma_number_digits_advance, micro_digits, micro_limit, minute_fraction, minutes_part,
    month_check, number_digits, ordinal_date, pad_micros, parse_text, round_micros, seconds_part,
    skip_digits, subsecond, ten_pow, time_after_hour, time_end, time_part, timezone_part,
    unexpected, valid_fraction, week_date, week_fraction,
};

verus! {

/// The field that was being read when a parse failed.
#[derive(Clone, Copy, Debug, PartialEq, Eq, Structural)]
pub enum Field {
    Year,
    Month,
    Day,
    OrdinalDay,
    IsoWeek,
    IsoDay,
    DateSeparator,
    DateTimeSeparator,
    TimeSeparator,
    Hour,
    Minute,
    Second,
    Subsecond,
    TimezoneHour,
    TimezoneMinute,
    DurationNumber,
    DurationFraction,
    DurationUnit,
}

/// Why a parse failed.
#[derive(Clone, Copy, Debug, PartialEq, Eq, Structural)]
pub enum ParseErrorKind {
    /// The text ended inside `field`, `expected` characters short.
    UnexpectedEnd { field: Field, expected: usize },
    /// The character at the error's index cannot stand in `field`.
    InvalidCharacter { field: Field },
    /// `field` holds a value out of its calendar or clock range.
    InvalidValue { field: Field },
    /// Basic and extended formats are mixed between date and time.
    MixedFormat,
    /// The offset's minutes exceed 59 or the offset exceeds 24 hours.
    TimezoneOutOfRange,
    /// A duration holds a second `T`.
    RepeatedTimeMarker,
    /// A duration's units are not in decreasing size.
    UnitsOutOfOrder,
    /// A duration's fractional number is not its last one.
    MisplacedFraction,
    /// A duration has a fractional number of years.
    FractionalYears,
    /// A duration has a fractional number of months.
    FractionalMonths,
    /// A duration mixes weeks with years, months or days.
    MixedWeeks,
    /// A duration's `T` is not followed by any unit.
    EmptyTimePart,
    /// A duration's number does not fit in 32 bits.
    NumberTooLarge,
    /// Characters remain after a complete value.
    TrailingData,
}

/// A parse failure: the byte offset at which it was found, and why.
#[derive(Clone, Copy, Debug, PartialEq, Eq, Structural)]
pub struct ParseError {
    pub index: usize,
    pub kind: ParseErrorKind,
}

/// A parsed date, time, or date and time.
pub struct ParsedDateTime {
    pub year: u32,
    pub month: u32,
    pub day: u32,
    pub hour: u32,
    pub minute: u32,
    pub second: u32,
    pub microsecond: u32,
    /// Offset from UTC in seconds.
    pub offset: Option<i32>,
    pub has_offset: bool,
    /// `Some("UTC")` for the `Z` designator.
    pub tzname: Option<String>,
    pub has_date: bool,
    pub has_time: bool,
    /// Whether the date (or a time without date) used separators.
    pub extended_date_format: bool,
    /// The time read `24:00:00`: midnight at the end of the day, which the
    /// caller rolls over to the next day.
    pub time_is_midnight: bool,
}

/// What a `ParsedDateTime` holds, with the time zone name as characters.
pub struct DateTimeModel {
    pub year: u32,
    pub month: u32,
    pub day: u32,
    pub hour: u32,
    pub minute: u32,
    pub second: u32,
    pub microsecond: u32,
    pub offset: Option<i32>,
    pub has_offset: bool,
    pub tzname: Option<Seq<char>>,
    pub has_date: bool,
    pub has_time: bool,
    pub extended_date_format: bool,
    pub time_is_midnight: bool,
}

impl View for ParsedDateTime {
    type V = DateTimeModel;

    open spec fn view(&self) -> DateTimeModel {
        DateTimeModel {
            year: self.year,
            month: self.month,
            day: self.day,
            hour: self.hour,
            minute: self.minute,
            second: self.second,
            microsecond: self.microsecond,
            offset: self.offset,
            has_offset: self.has_offset,
            tzname: match self.tzname {
                Some(n) => Some(n@),
                None => None,
            },
            has_date: self.has_date,
            has_time: self.has_time,
            extended_date_format: self.extended_date_format,
            time_is_midnight: self.time_is_midnight,
        }
    }
}

/// The starting value of every parsed date-time: 0000-01-01T00:00:00.
pub open spec fn empty_datetime() -> DateTimeModel {
    DateTimeModel {
        year: 0,
        month: 1,
        day: 1,
        hour: 0,
        minute: 0,
        second: 0,
        microsecond: 0,
        offset: None,
        has_offset: false,
        tzname: None,
        has_date: false,
        has_time: false,
        extended_date_format: false,
        time_is_midnight: false,
    }
}

impl ParsedDateTime {
    pub fn new() -> (r: ParsedDateTime)
        ensures
            r@ == empty_datetime(),
    {
        ParsedDateTime {
            year: 0,
            month: 1,
            day: 1,
            hour: 0,
            minute: 0,
            second: 0,
            microsecond: 0,
            offset: None,
            has_offset: false,
            tzname: None,
            has_date: false,
            has_time: false,
            extended_date_format: false,
            time_is_midnight: false,
        }
    }
}

/// A parsed duration: non-negative magnitudes of each unit.
#[derive(Clone, Copy, Debug, PartialEq, Eq, Structural)]
pub struct ParsedDuration {
    pub years: u32,
    pub months: u32,
    pub weeks: u32,
    pub days: u32,
    pub hours: u32,
    pub minutes: u32,
    pub seconds: u32,
    pub microseconds: u32,
}

/// The zero duration.
pub open spec fn zero_duration() -> ParsedDuration {
    ParsedDuration {
        years: 0,
        months: 0,
        weeks: 0,
        days: 0,
        hours: 0,
        minutes: 0,
        seconds: 0,
        microseconds: 0,
    }
}

impl ParsedDuration {
    pub fn new() -> (r: ParsedDuration)
        ensures
            r == zero_duration(),
    {
        ParsedDuration {
            years: 0,
            months: 0,
            weeks: 0,
            days: 0,
            hours: 0,
            minutes: 0,
            seconds: 0,
            microseconds: 0,
        }
    }
}

/// Progress through a duration: what was read, whether `T` was seen, the
/// rank of the last unit (Y 1, M 2, W 3, D 4, H 5, M 6, S 7), whether weeks
/// were read, and whether the last number had a fraction.
#[derive(Clone, Copy)]
pub struct DurationState {
    pub duration: ParsedDuration,
    pub got_t: bool,
    pub last_rank: u8,
    pub has_weeks: bool,
    pub had_fraction: bool,
}

/// The result of a parse: a date-time, a duration, or an interval. An
/// interval holds two of them: `datetime` and `second_datetime`,
/// `datetime` and `duration`, or `duration` and `second_datetime`.
pub struct Parsed {
    pub datetime: Option<ParsedDateTime>,
    pub duration: Option<ParsedDuration>,
    pub second_datetime: Option<ParsedDateTime>,
}

/// What a `Parsed` holds.
pub struct ParsedModel {
    pub datetime: Option<DateTimeModel>,
    pub duration: Option<ParsedDuration>,
    pub second_datetime: Option<DateTimeModel>,
}

impl View for Parsed {
    type V = ParsedModel;

    open spec fn view(&self) -> ParsedModel {
        ParsedModel {
            datetime: match self.datetime {
                Some(d) => Some(d@),
                None => None,
            },
            duration: self.duration,
            second_datetime: match self.second_datetime {
                Some(d) => Some(d@),
                None => None,
            },
        }
    }
}

impl Parsed {
    pub fn new() -> (r: Parsed)
        ensures
            r.datetime is None,
            r.duration is None,
            r.second_datetime is None,
    {
        Parsed { datetime: None, duration: None, second_datetime: None }
    }
}

/// Parses ISO-8601 text: a date-time, a duration, or an interval.
pub fn parse_iso8601(input: &str) -> (r: Result<Parsed, ParseError>)
    ensures
        match parse_text(input.spec_bytes()) {
            Ok(p) => r matches Ok(x) && x@ == p,
            Err(e) => r == Err::<Parsed, ParseError>(e),
        },
{
    let mut parser = Parser::new(input);
    parser.parse()
}

/// An out-of-range value of `field`, read at `index`.
fn invalid_value(index: usize, field: Field) -> (r: ParseError)
    ensures
        r == error(index as int, ParseErrorKind::InvalidValue { field }),
{
    ParseError { index, kind: ParseErrorKind::InvalidValue { field } }
}

/// An optional fraction `num / den` as the grammar reads it.
pub open spec fn fraction_view(f: Option<(u64, u64)>) -> Option<(nat, nat)> {
    match f {
        Some((num, den)) => Some((num as nat, den as nat)),
        None => None,
    }
}

/// `10^a <= 10^b` for `a <= b`.
proof fn lemma_ten_pow_monotone(a: nat, b: nat)
    requires
        a <= b,
    ensures
        ten_pow(a) <= ten_pow(b),
    decreases b - a,
{
    if a < b {
        lemma_ten_pow_monotone(a, (b - 1) as nat);
    }
}

/// `num / den` of a second in microseconds, rounded half up.
fn micros_of_fraction(num: u64, den: u64) -> (r: u32)
    requires
        valid_fraction(num as nat, den as nat),
    ensures
        r == round_micros(num as nat, den as nat) as u32,
{
    ((num * 2_000_000 + den) / (2 * den)) as u32
}

/// `num / den` of a minute: (seconds, microseconds).
fn split_minute_fraction(num: u64, den: u64) -> (r: (u32, u32))
    requires
        valid_fraction(num as nat, den as nat),
    ensures
        r.0 == minute_fraction(num as nat, den as nat).0 as u32,
        r.1 == minute_fraction(num as nat, den as nat).1 as u32,
{
    let scaled = num * 60;
    ((scaled / den) as u32, micros_of_fraction(scaled % den, den))
}

/// `num / den` of an hour: (minutes, seconds, microseconds).
fn split_hour_fraction(num: u64, den: u64) -> (r: (u32, u32, u32))
    requires
        valid_fraction(num as nat, den as nat),
    ensures
        r.0 == hour_fraction(num as nat, den as nat).0 as u32,
        r.1 == hour_fraction(num as nat, den as nat).1 as u32,
        r.2 == hour_fraction(num as nat, den as nat).2 as u32,
{
    let scaled = num * 60;
    let (s, us) = split_minute_fraction(scaled % den, den);
    ((scaled / den) as u32, s, us)
}

/// `num / den` of a day: (hours, minutes, seconds, microseconds).
fn split_day_fraction(num: u64, den: u64) -> (r: (u32, u32, u32, u32))
    requires
        valid_fraction(num as nat, den as nat),
    ensures
        r.0 == day_fraction(num as nat, den as nat).0 as u32,
        r.1 == day_fraction(num as nat, den as nat).1 as u32,
        r.2 == day_fraction(num as nat, den as nat).2 as u32,
        r.3 == day_fraction(num as nat, den as nat).3 as u32,
{
    let scaled = num * 24;
    let (mi, s, us) = split_hour_fraction(scaled % den, den);
    ((scaled / den) as u32, mi, s, us)
}

/// `num / den` of a week: (days, hours, minutes, seconds, microseconds).
fn split_week_fraction(num: u64, den: u64) -> (r: (u32, u32, u32, u32, u32))
    requires
        valid_fraction(num as nat, den as nat),
    ensures
        r.0 == week_fraction(num as nat, den as nat).0 as u32,
        r.1 == week_fraction(num as nat, den as nat).1 as u32,
        r.2 == week_fraction(num as nat, den as nat).2 as u32,
        r.3 == week_fraction(num as nat, den as nat).3 as u32,
        r.4 == week_fraction(num as nat, den as nat).4 as u32,
{
    let scaled = num * 7;
    let (h, mi, s, us) = split_day_fraction(scaled % den, den);
    ((scaled / den) as u32, h, mi, s, us)
}

/// A cursor over the bytes of the text being parsed.
pub struct Parser<'a> {
    src: &'a [u8],
    idx: usize,
}

impl<'a> Parser<'a> {
    /// The bytes of the text.
    pub closed spec fn text(&self) -> Seq<u8> {
        self.src@
    }

    /// The byte offset of the cursor.
    pub closed spec fn pos(&self) -> int {
        self.idx as int
    }

    /// The cursor lies within the text or at its end.
    pub closed spec fn wf(&self) -> bool {
        self.idx <= self.src@.len()
    }

    /// A parser at the start of `input`.
    pub fn new(input: &'a str) -> (r: Parser<'a>)
        ensures
            r.text() == input.spec_bytes(),
            r.pos() == 0,
            r.wf(),
    {
        Parser { src: input.as_bytes(), idx: 0 }
    }

    /// The byte at the cursor, or 0 at the end.
    fn peek(&self) -> (c: u8)
        requires
            self.wf(),
        ensures
            c == byte_at(self.text(), self.pos()),
    {
        if self.idx < self.src.len() {
            self.src[self.idx]
        } else {
            0
        }
    }

    /// Whether the cursor is at the end of the text.
    fn at_end(&self) -> (r: bool)
        requires
            self.wf(),
        ensures
            r == (self.pos() >= self.text().len()),
    {
        self.idx >= self.src.len()
    }

    /// The byte offset of the cursor.
    pub fn position(&self) -> (r: usize)
        ensures
            r == self.pos(),
    {
        self.idx
    }

    /// Moves the cursor one byte on, unless it is at the end.
    fn inc(&mut self)
        requires
            old(self).wf(),
        ensures
            final(self).wf(),
            final(self).text() == old(self).text(),
            final(self).pos() == if old(self).pos() < old(self).text().len() {
                old(self).pos() + 1
            } else {
                old(self).pos()
            },
    {
        if self.idx < self.src.len() {
            self.idx = self.idx + 1;
        }
    }

    /// An error at the cursor.
    fn parse_error(&self, kind: ParseErrorKind) -> (r: ParseError)
        ensures
            r == error(self.pos(), kind),
    {
        ParseError { index: self.idx, kind }
    }

    /// The error for a byte at the cursor that cannot stand in `field`.
    fn unexpected_character_error(&self, field: Field, expected_character_count: usize) -> (r:
        ParseError)
        requires
            self.wf(),
        ensures
            r == unexpected(self.text(), self.pos(), field, expected_character_count as int),
    {
        if self.at_end() {
            return self.parse_error(
                ParseErrorKind::UnexpectedEnd { field, expected: expected_character_count },
            );
        }
        self.parse_error(ParseErrorKind::InvalidCharacter { field })
    }

    /// `length` (1 or 2) decimal digits.
    fn parse_integer(&mut self, length: usize, field: Field) -> (r: Result<u32, ParseError>)
        requires
            old(self).wf(),
            1 <= length <= 2,
        ensures
            final(self).wf(),
            final(self).text() == old(self).text(),
            match integer(old(self).text(), old(self).pos(), length as nat, field) {
                Ok((v, j)) => r == Ok::<u32, ParseError>(v as u32) && v <= 99 && (length == 1 ==> v
                    <= 9) && final(self).pos() == j,
                Err(e) => r == Err::<u32, ParseError>(e),
            },
    {
        let ghost s = self.text();
        let ghost start = self.pos();
        let mut value: u32 = 0;
        let mut i: usize = 0;
        while i < length
            invariant
                self.wf(),
                self.text() == s,
                s == old(self).text(),
                start == old(self).pos(),
                0 <= i <= length <= 2,
                self.pos() == start + i,
                i == 0 ==> value == 0,
                i <= 1 ==> value <= 9,
                value <= 99,
                integer(s, start, length as nat, field) == digits(
                    s,
                    self.pos(),
                    (length - i) as nat,
                    field,
                    value as nat,
                ),
            decreases length - i,
        {
            let c = self.peek();
            if c < DIGIT_0 || c > DIGIT_9 {
                return Err(self.unexpected_character_error(field, length - i));
            }
            value = 10 * value + (c - DIGIT_0) as u32;
            self.inc();
            i = i + 1;
        }
        Ok(value)
    }

    /// Day `ordinal` of `year`, read at `at`.
    fn ordinal_to_ymd(&self, year: u32, ordinal: u32, at: usize) -> (r: Result<
        (u32, u32, u32),
        ParseError,
    >)
        requires
            year <= 10000,
        ensures
            match ordinal_date(year as int, ordinal as int, at as int) {
                Ok((y, m, d)) => r == Ok::<(u32, u32, u32), ParseError>(
                    (y as u32, m as u32, d as u32),
                ),
                Err(e) => r == Err::<(u32, u32, u32), ParseError>(e),
            },
    {
        if ordinal < 1 || ordinal > days_in_year(year as i32) {
            return Err(invalid_value(at, Field::OrdinalDay));
        }
        let (month, day) = month_and_day(is_leap(year as i32), ordinal);
        Ok((year, month, day))
    }

    /// Whether a date ends at the cursor.
    fn at_date_end(&self) -> (r: bool)
        requires
            self.wf(),
        ensures
            r == date_end(self.text(), self.pos()),
    {
        let c = self.peek();
        self.at_end() || c == SPACE || c == DESIGNATOR_T || c == SLASH
    }

    /// A month, read at `at`, must be 1..=12.
    fn check_month(month: u32, at: usize) -> (r: Result<(), ParseError>)
        ensures
            r == month_check(month as int, at as int),
    {
        if month < 1 || month > 12 {
            return Err(invalid_value(at, Field::Month));
        }
        Ok(())
    }

    /// A day, read at `at`, must exist in its checked month.
    fn check_day(year: u32, month: u32, day: u32, at: usize) -> (r: Result<(), ParseError>)
        requires
            1 <= month <= 12,
            year <= 9999,
        ensures
            r == day_check(year as int, month as int, day as int, at as int),
    {
        if day < 1 || day > days_in_month(is_leap(year as i32), month) {
            return Err(invalid_value(at, Field::Day));
        }
        Ok(())
    }

    /// Extended week date after `YYYY-W`: `ww` or `ww-D`.
    fn parse_extended_week_date(&mut self, year: u32) -> (r: Result<(u32, u32, u32), ParseError>)
        requires
            old(self).wf(),
            year <= 9999,
        ensures
            final(self).wf(),
            final(self).text() == old(self).text(),
            match extended_week_date(old(self).text(), year as int, old(self).pos()) {
                Ok(((y, m, d), j)) => r == Ok::<(u32, u32, u32), ParseError>(
                    (y as u32, m as u32, d as u32),
                ) && final(self).pos() == j,
                Err(e) => r == Err::<(u32, u32, u32), ParseError>(e),
            },
    {
        let week_at = self.idx;
        let week = self.parse_integer(2, Field::IsoWeek)?;
        if self.at_date_end() {
            let at = self.idx;
            return self.iso_to_ymd(year, week, 1, week_at, at);
        }
        if self.peek() != DASH {
            let kind = ParseErrorKind::InvalidCharacter { field: Field::DateSeparator };
            return Err(self.parse_error(kind));
        }
        self.inc();
        let day_at = self.idx;
        let weekday = self.parse_integer(1, Field::IsoDay)?;
        self.iso_to_ymd(year, week, weekday, week_at, day_at)
    }

    /// Extended date after `YYYY-`: `MM`, `MM-DD` or an ordinal `DDD`.
    fn parse_extended_month_date(&mut self, year: u32) -> (r: Result<(u32, u32, u32), ParseError>)
        requires
            old(self).wf(),
            year <= 9999,
        ensures
            final(self).wf(),
            final(self).text() == old(self).text(),
            match extended_month_date(old(self).text(), year as int, old(self).pos()) {
                Ok(((y, m, d), j)) => r == Ok::<(u32, u32, u32), ParseError>(
                    (y as u32, m as u32, d as u32),
                ) && final(self).pos() == j,
                Err(e) => r == Err::<(u32, u32, u32), ParseError>(e),
            },
    {
        let month_at = self.idx;
        let month = self.parse_integer(2, Field::Month)?;
        if self.at_date_end() {
            Self::check_month(month, month_at)?;
            return Ok((year, month, 1));
        }
        if self.peek() == DASH {
            Self::check_month(month, month_at)?;
            self.inc();
            let day_at = self.idx;
            let day = self.parse_integer(2, Field::Day)?;
            Self::check_day(year, month, day, day_at)?;
            return Ok((year, month, day));
        }
        let d = self.parse_integer(1, Field::OrdinalDay)?;
        self.ordinal_to_ymd(year, month * 10 + d, month_at)
    }

    /// Basic week date after `YYYYW`: `ww` or `wwD`.
    fn parse_basic_week_date(&mut self, year: u32) -> (r: Result<(u32, u32, u32), ParseError>)
        requires
            old(self).wf(),
            year <= 9999,
        ensures
            final(self).wf(),
            final(self).text() == old(self).text(),
            match basic_week_date(old(self).text(), year as int, old(self).pos()) {
                Ok(((y, m, d), j)) => r == Ok::<(u32, u32, u32), ParseError>(
                    (y as u32, m as u32, d as u32),
                ) && final(self).pos() == j,
                Err(e) => r == Err::<(u32, u32, u32), ParseError>(e),
            },
    {
        let week_at = self.idx;
        let week = self.parse_integer(2, Field::IsoWeek)?;
        let day_at = self.idx;
        if self.at_date_end() {
            return self.iso_to_ymd(year, week, 1, week_at, day_at);
        }
        let weekday = self.parse_integer(1, Field::IsoDay)?;
        self.iso_to_ymd(year, week, weekday, week_at, day_at)
    }

    /// Basic date after `YYYY`: `MMDD` or an ordinal `DDD`.
    fn parse_basic_month_date(&mut self, year: u32) -> (r: Result<(u32, u32, u32), ParseError>)
        requires
            old(self).wf(),
            year <= 9999,
        ensures
            final(self).wf(),
            final(self).text() == old(self).text(),
            match basic_month_date(old(self).text(), year as int, old(self).pos()) {
                Ok(((y, m, d), j)) => r == Ok::<(u32, u32, u32), ParseError>(
                    (y as u32, m as u32, d as u32),
                ) && final(self).pos() == j,
                Err(e) => r == Err::<(u32, u32, u32), ParseError>(e),
            },
    {
        let month_at = self.idx;
        let month = self.parse_integer(2, Field::Month)?;
        let day_at = self.idx;
        let d = self.parse_integer(1, Field::OrdinalDay)?;
        if self.at_date_end() {
            return self.ordinal_to_ymd(year, month * 10 + d, month_at);
        }
        let d2 = self.parse_integer(1, Field::Day)?;
        Self::check_month(month, month_at)?;
        Self::check_day(year, month, d * 10 + d2, day_at)?;
        Ok((year, month, d * 10 + d2))
    }

    /// The date after the first two digits of the year: the date, whether
    /// it used separators.
    #[verifier::rlimit(40)]
    fn parse_date(&mut self, century: u32) -> (r: Result<((u32, u32, u32), bool), ParseError>)
        requires
            old(self).wf(),
            century <= 99,
        ensures
            final(self).wf(),
            final(self).text() == old(self).text(),
            match date_part(old(self).text(), century as nat, old(self).pos()) {
                Ok(((y, m, d), ext, j)) => r == Ok::<((u32, u32, u32), bool), ParseError>(
                    ((y as u32, m as u32, d as u32), ext),
                ) && final(self).pos() == j && y <= 10000,
                Err(e) => r == Err::<((u32, u32, u32), bool), ParseError>(e),
            },
    {
        let low = self.parse_integer(2, Field::Year)?;
        let year = century * 100 + low;
        if self.peek() == DASH {
            self.inc();
            let date = if self.peek() == DESIGNATOR_W {
                self.inc();
                self.parse_extended_week_date(year)?
            } else {
                self.parse_extended_month_date(year)?
            };
            Ok((date, true))
        } else {
            let date = if self.peek() == DESIGNATOR_W {
                self.inc();
                self.parse_basic_week_date(year)?
            } else {
                self.parse_basic_month_date(year)?
            };
            Ok((date, false))
        }
    }

    /// Whether the time of day ends at the cursor.
    fn at_time_end(&self) -> (r: bool)
        requires
            self.wf(),
        ensures
            r == time_end(self.text(), self.pos()),
    {
        let c = self.peek();
        self.at_end() || c == DESIGNATOR_Z || c == PLUS || c == DASH || c == SLASH
    }

    /// An optional fraction of a second, in microseconds: up to six digits
    /// count, further digits are skipped.
    #[verifier::rlimit(40)]
    fn parse_subsecond(&mut self) -> (r: Result<u32, ParseError>)
        requires
            old(self).wf(),
        ensures
            final(self).wf(),
            final(self).text() == old(self).text(),
            match subsecond(old(self).text(), old(self).pos()) {
                Ok((us, j)) => r == Ok::<u32, ParseError>(us as u32) && us < 1_000_000
                    && final(self).pos() == j,
                Err(e) => r == Err::<u32, ParseError>(e),
            },
    {
        let ghost s = self.text();
        let c = self.peek();
        if c != DOT && c != COMMA {
            return Ok(0);
        }
        self.inc();
        let first = self.peek();
        if first < DIGIT_0 || first > DIGIT_9 {
            // One digit at least is required.
            return Err(self.unexpected_character_error(Field::Subsecond, 1));
        }
        let ghost start = self.pos();
        let mut value: u32 = 0;
        let mut count: u32 = 0;
        loop
            invariant
                self.wf(),
                self.text() == s,
                s == old(self).text(),
                start == old(self).pos() + 1,
                subsecond(s, old(self).pos()) == Ok::<(nat, int), ParseError>(
                    micro_digits(s, start, 0, 0),
                ),
                count <= 6,
                value < micro_limit(count as nat),
                micro_digits(s, start, 0, 0) == micro_digits(
                    s,
                    self.pos(),
                    count as nat,
                    value as nat,
                ),
            ensures
                micro_digits(s, start, 0, 0) == (
                    pad_micros(value as nat, count as nat),
                    skip_digits(s, self.pos()),
                ),
            decreases 6 - count,
        {
            let c = self.peek();
            if count >= 6 || c < DIGIT_0 || c > DIGIT_9 {
                assert(micro_digits(s, self.pos(), count as nat, value as nat) == (
                    pad_micros(value as nat, count as nat),
                    skip_digits(s, self.pos()),
                ));
                break;
            }
            value = value * 10 + (c - DIGIT_0) as u32;
            count = count + 1;
            self.inc();
        }
        // Drop extraneous digits.
        let ghost stop = self.pos();
        loop
            invariant
                self.wf(),
                self.text() == s,
                s == old(self).text(),
                skip_digits(s, stop) == skip_digits(s, self.pos()),
                subsecond(s, old(self).pos()) == Ok::<(nat, int), ParseError>(
                    (pad_micros(value as nat, count as nat), skip_digits(s, stop)),
                ),
                count <= 6,
                value < micro_limit(count as nat),
            ensures
                skip_digits(s, self.pos()) == self.pos(),
            decreases s.len() - self.pos(),
        {
            let c = self.peek();
            if c < DIGIT_0 || c > DIGIT_9 {
                assert(skip_digits(s, self.pos()) == self.pos());
                break;
            }
            self.inc();
        }
        // Expand missing microseconds.
        let ghost digits_value = value as nat;
        let ghost digits_count = count as nat;
        while count < 6
            invariant
                count <= 6,
                value < micro_limit(count as nat),
                pad_micros(digits_value, digits_count) == pad_micros(value as nat, count as nat),
                subsecond(old(self).text(), old(self).pos()) == Ok::<(nat, int), ParseError>(
                    (pad_micros(digits_value, digits_count), self.pos()),
                ),
            decreases 6 - count,
        {
            value = value * 10;
            count = count + 1;
        }
        assert(pad_micros(value as nat, count as nat) == value);
        Ok(value)
    }

    /// Seconds and their fraction; the second must be below 60.
    fn parse_seconds(&mut self) -> (r: Result<(u32, u32), ParseError>)
        requires
            old(self).wf(),
        ensures
            final(self).wf(),
            final(self).text() == old(self).text(),
            match seconds_part(old(self).text(), old(self).pos()) {
                Ok((se, us, j)) => r == Ok::<(u32, u32), ParseError>((se as u32, us as u32))
                    && se <= 59 && us < 1_000_000 && final(self).pos() == j,
                Err(e) => r == Err::<(u32, u32), ParseError>(e),
            },
    {
        let second_at = self.idx;
        let second = self.parse_integer(2, Field::Second)?;
        if second > 59 {
            return Err(invalid_value(second_at, Field::Second));
        }
        let micro = self.parse_subsecond()?;
        Ok((second, micro))
    }

    /// Minutes and optional seconds, with `:` before the seconds when
    /// `extended`.
    fn parse_minutes(&mut self, extended: bool) -> (r: Result<(u32, u32, u32), ParseError>)
        requires
            old(self).wf(),
        ensures
            final(self).wf(),
            final(self).text() == old(self).text(),
            match minutes_part(old(self).text(), old(self).pos(), extended) {
                Ok((mi, se, us, j)) => r == Ok::<(u32, u32, u32), ParseError>(
                    (mi as u32, se as u32, us as u32),
                ) && mi <= 59 && se <= 59 && us < 1_000_000 && final(self).pos() == j,
                Err(e) => r == Err::<(u32, u32, u32), ParseError>(e),
            },
    {
        let minute_at = self.idx;
        let minute = self.parse_integer(2, Field::Minute)?;
        if minute > 59 {
            return Err(invalid_value(minute_at, Field::Minute));
        }
        if self.at_time_end() {
            return Ok((minute, 0, 0));
        }
        if extended {
            if self.peek() != COLON {
                let kind = ParseErrorKind::InvalidCharacter { field: Field::TimeSeparator };
                return Err(self.parse_error(kind));
            }
            self.inc();
        }
        let (second, micro) = self.parse_seconds()?;
        Ok((minute, second, micro))
    }

    /// An optional `Z` or offset `+hh`, `+hhmm` or `+hh:mm` (or with `-`):
    /// the offset in seconds and whether it was `Z`.
    fn parse_timezone(&mut self) -> (r: Result<(Option<i32>, bool), ParseError>)
        requires
            old(self).wf(),
        ensures
            final(self).wf(),
            final(self).text() == old(self).text(),
            match timezone_part(old(self).text(), old(self).pos()) {
                Ok((offset, utc, j)) => r == Ok::<(Option<i32>, bool), ParseError>((offset, utc))
                    && final(self).pos() == j,
                Err(e) => r == Err::<(Option<i32>, bool), ParseError>(e),
            },
    {
        let c = self.peek();
        if c == DESIGNATOR_Z {
            self.inc();
            return Ok((Some(0), true));
        }
        if c != PLUS && c != DASH {
            return Ok((None, false));
        }
        self.inc();
        let tzhour = self.parse_integer(2, Field::TimezoneHour)?;
        let next = self.peek();
        let tzminute = if next == COLON {
            self.inc();
            self.parse_integer(2, Field::TimezoneMinute)?
        } else if DIGIT_0 <= next && next <= DIGIT_9 {
            self.parse_integer(2, Field::TimezoneMinute)?
        } else {
            0
        };
        if tzminute > 59 || tzhour * 60 + tzminute > 24 * 60 {
            return Err(self.parse_error(ParseErrorKind::TimezoneOutOfRange));
        }
        let total: i32 = ((tzhour * 60 + tzminute) * 60) as i32;
        if c == PLUS {
            Ok((Some(total), false))
        } else {
            Ok((Some(-total), false))
        }
    }

    /// The time of day after the hour, which was read at `hour_at`; it
    /// fills `datetime`.
    #[verifier::rlimit(40)]
    fn parse_time_after_hour(&mut self, datetime: ParsedDateTime, hour: u32, hour_at: usize) -> (r:
        Result<ParsedDateTime, ParseError>)
        requires
            old(self).wf(),
            hour <= 24,
        ensures
            final(self).wf(),
            final(self).text() == old(self).text(),
            match time_after_hour(
                old(self).text(),
                old(self).pos(),
                datetime@,
                hour as nat,
                hour_at as int,
            ) {
                Ok((dt, j)) => r matches Ok(x) && x@ == dt && final(self).pos() == j,
                Err(e) => r == Err::<ParsedDateTime, ParseError>(e),
            },
    {
        let (minute, second, microsecond) = if self.at_time_end() {
            (0, 0, 0)
        } else if self.peek() == COLON {
            // Minutes and seconds in extended format (mm:ss).
            self.inc();
            let fields = self.parse_minutes(true)?;
            if datetime.has_date && !datetime.extended_date_format {
                return Err(self.parse_error(ParseErrorKind::MixedFormat));
            }
            fields
        } else {
            // Minutes and seconds in basic format (mmss).
            let fields = self.parse_minutes(false)?;
            if datetime.has_date && datetime.extended_date_format {
                return Err(self.parse_error(ParseErrorKind::MixedFormat));
            }
            fields
        };
        if hour == 24 && (minute != 0 || second != 0 || microsecond != 0) {
            // 24:00:00 is the only time with hour 24.
            return Err(invalid_value(hour_at, Field::Hour));
        }
        let (offset, utc) = self.parse_timezone()?;
        let tzname = if utc {
            let name = String::from_str("UTC");
            proof {
                reveal_strlit("UTC");
                assert(name@ =~= seq!['U', 'T', 'C']);
            }
            Some(name)
        } else {
            None
        };
        Ok(
            ParsedDateTime {
                year: datetime.year,
                month: datetime.month,
                day: datetime.day,
                hour,
                minute,
                second,
                microsecond,
                offset,
                has_offset: offset.is_some(),
                tzname,
                has_date: datetime.has_date,
                has_time: true,
                extended_date_format: datetime.extended_date_format,
                time_is_midnight: hour == 24,
            },
        )
    }

    /// A time of day introduced by `T` or a space; it fills `datetime`.
    fn parse_time(&mut self, datetime: ParsedDateTime) -> (r: Result<ParsedDateTime, ParseError>)
        requires
            old(self).wf(),
        ensures
            final(self).wf(),
            final(self).text() == old(self).text(),
            match time_part(old(self).text(), old(self).pos(), datetime@) {
                Ok((dt, j)) => r matches Ok(x) && x@ == dt && final(self).pos() == j,
                Err(e) => r == Err::<ParsedDateTime, ParseError>(e),
            },
    {
        let c = self.peek();
        if c != DESIGNATOR_T && c != SPACE {
            return Err(self.unexpected_character_error(Field::DateTimeSeparator, 1));
        }
        self.inc();
        let hour_at = self.idx;
        let hour = self.parse_integer(2, Field::Hour)?;
        if hour > 24 {
            return Err(invalid_value(hour_at, Field::Hour));
        }
        self.parse_time_after_hour(datetime, hour, hour_at)
    }

    /// A date, a date and time, or a time alone. A value with a date may
    /// stop at an interval's `/`; a time alone must reach the end.
    #[verifier::rlimit(40)]
    fn parse_datetime(&mut self) -> (r: Result<ParsedDateTime, ParseError>)
        requires
            old(self).wf(),
        ensures
            final(self).wf(),
            final(self).text() == old(self).text(),
            match datetime_value(old(self).text(), old(self).pos()) {
                Ok((dt, j)) => r matches Ok(x) && x@ == dt && final(self).pos() == j,
                Err(e) => r == Err::<ParsedDateTime, ParseError>(e),
            },
    {
        if self.peek() == DESIGNATOR_T {
            let datetime = self.parse_time(ParsedDateTime::new())?;
            if !self.at_end() {
                return Err(self.parse_error(ParseErrorKind::TrailingData));
            }
            return Ok(datetime);
        }
        let start = self.idx;
        let high = self.parse_integer(2, Field::Year)?;
        if self.peek() == COLON {
            // A time in extended format: the two digits were the hour.
            if high > 24 {
                return Err(invalid_value(start, Field::Hour));
            }
            let mut datetime = ParsedDateTime::new();
            datetime.extended_date_format = true;
            let datetime = self.parse_time_after_hour(datetime, high, start)?;
            if !self.at_end() {
                return Err(self.parse_error(ParseErrorKind::TrailingData));
            }
            return Ok(datetime);
        }
        let ((year, month, day), extended) = self.parse_date(high)?;
        let mut datetime = ParsedDateTime::new();
        datetime.year = year;
        datetime.month = month;
        datetime.day = day;
        datetime.has_date = true;
        datetime.extended_date_format = extended;
        if !self.at_end() && self.peek() != SLASH {
            let datetime = self.parse_time(datetime)?;
            if !self.at_end() && self.peek() != SLASH {
                return Err(self.parse_error(ParseErrorKind::TrailingData));
            }
            return Ok(datetime);
        }
        Ok(datetime)
    }

    /// A duration's number: one digit or more, fitting in 32 bits.
    #[verifier::rlimit(40)]
    fn parse_duration_number(&mut self) -> (r: Result<u32, ParseError>)
        requires
            old(self).wf(),
        ensures
            final(self).wf(),
            final(self).text() == old(self).text(),
            match duration_number(old(self).text(), old(self).pos()) {
                Ok((v, j)) => r == Ok::<u32, ParseError>(v as u32) && v <= u32::MAX
                    && final(self).pos() == j && j > old(self).pos(),
                Err(e) => r == Err::<u32, ParseError>(e),
            },
    {
        let ghost s = self.text();
        let first = self.peek();
        if first < DIGIT_0 || first > DIGIT_9 {
            return Err(self.unexpected_character_error(Field::DurationNumber, 1));
        }
        proof {
            lemma_number_digits_advance(s, self.pos() + 1, digit_value(first));
        }
        let mut value: u32 = 0;
        loop
            invariant
                self.wf(),
                self.text() == s,
                s == old(self).text(),
                duration_number(s, old(self).pos()) == number_digits(s, self.pos(), value as nat),
                self.pos() == old(self).pos() ==> value == 0,
                self.pos() >= old(self).pos(),
                is_digit(byte_at(s, old(self).pos())),
                number_digits(s, old(self).pos() + 1, digit_value(byte_at(s, old(self).pos())))
                    matches Ok((_, j)) ==> j >= old(self).pos() + 1,
            ensures
                match duration_number(s, old(self).pos()) {
                    Ok((v, j)) => v == value && j == self.pos() && j > old(self).pos(),
                    Err(e) => false,
                },
            decreases s.len() - self.pos(),
        {
            let c = self.peek();
            if c < DIGIT_0 || c > DIGIT_9 {
                break;
            }
            let v: u64 = value as u64 * 10 + (c - DIGIT_0) as u64;
            if v > u32::MAX as u64 {
                return Err(self.parse_error(ParseErrorKind::NumberTooLarge));
            }
            value = v as u32;
            self.inc();
        }
        Ok(value)
    }

    /// An optional fraction after a duration's number, as `num / den`: up
    /// to twelve digits count, further digits are skipped.
    #[verifier::rlimit(40)]
    fn parse_duration_fraction(&mut self) -> (r: Result<Option<(u64, u64)>, ParseError>)
        requires
            old(self).wf(),
        ensures
            final(self).wf(),
            final(self).text() == old(self).text(),
            final(self).pos() >= old(self).pos(),
            match duration_fraction(old(self).text(), old(self).pos()) {
                Ok((f, j)) => r matches Ok(x) && fraction_view(x) == f && final(self).pos() == j
                    && (x matches Some((num, den)) ==> valid_fraction(num as nat, den as nat)),
                Err(e) => r == Err::<Option<(u64, u64)>, ParseError>(e),
            },
    {
        let ghost s = self.text();
        let c = self.peek();
        if c != DOT && c != COMMA {
            return Ok(None);
        }
        self.inc();
        let first = self.peek();
        if first < DIGIT_0 || first > DIGIT_9 {
            return Err(self.unexpected_character_error(Field::DurationFraction, 1));
        }
        let ghost start = self.pos();
        let mut num: u64 = 0;
        let mut den: u64 = 1;
        let mut count: u32 = 0;
        loop
            invariant
                self.wf(),
                self.text() == s,
                s == old(self).text(),
                start == old(self).pos() + 1,
                self.pos() >= start,
                duration_fraction(s, old(self).pos()) == Ok::<
                    (Option<(nat, nat)>, int),
                    ParseError,
                >(
                    {
                        let fd = fraction_digits(s, start, 0, 0, 1);
                        (Some((fd.0, fd.1)), fd.2)
                    },
                ),
                fraction_digits(s, start, 0, 0, 1) == fraction_digits(
                    s,
                    self.pos(),
                    count as nat,
                    num as nat,
                    den as nat,
                ),
                count <= 12,
                den == ten_pow(count as nat),
                num < den,
            ensures
                fraction_digits(s, start, 0, 0, 1) == (num as nat, den as nat, self.pos()),
                valid_fraction(num as nat, den as nat),
                self.pos() >= start,
            decreases s.len() - self.pos(),
        {
            proof {
                lemma_ten_pow_monotone(count as nat, 12);
                reveal_with_fuel(ten_pow, 13);
            }
            let c = self.peek();
            if c < DIGIT_0 || c > DIGIT_9 {
                break;
            }
            if count < 12 {
                proof {
                    lemma_ten_pow_monotone(count as nat, 11);
                }
                num = num * 10 + (c - DIGIT_0) as u64;
                den = den * 10;
                count = count + 1;
            }
            self.inc();
        }
        Ok(Some((num, den)))
    }

    /// The unit letter at the cursor applied to `value` and its optional
    /// fraction.
    #[verifier::rlimit(40)]
    fn apply_duration_unit(
        &self,
        st: DurationState,
        value: u32,
        fraction: Option<(u64, u64)>,
    ) -> (r: Result<DurationState, ParseError>)
        requires
            self.wf(),
            fraction matches Some((num, den)) ==> valid_fraction(num as nat, den as nat),
        ensures
            match apply_unit(self.text(), self.pos(), st, value as nat, fraction_view(fraction)) {
                Ok(st2) => r == Ok::<DurationState, ParseError>(st2),
                Err(e) => r == Err::<DurationState, ParseError>(e),
            },
    {
        let c = self.peek();
        let mut d = st.duration;
        let has_fraction = fraction.is_some();
        let (num, den): (u64, u64) = match fraction {
            Some(f) => f,
            None => (0, 1),
        };
        if st.got_t {
            if c == UNIT_H {
                if st.last_rank >= 5 {
                    return Err(self.parse_error(ParseErrorKind::UnitsOutOfOrder));
                }
                d.hours = value;
                if has_fraction {
                    let (mi, se, us) = split_hour_fraction(num, den);
                    d.minutes = mi;
                    d.seconds = se;
                    d.microseconds = us;
                }
                Ok(DurationState { duration: d, last_rank: 5, had_fraction: has_fraction, ..st })
            } else if c == UNIT_M {
                if st.last_rank >= 6 {
                    return Err(self.parse_error(ParseErrorKind::UnitsOutOfOrder));
                }
                d.minutes = value;
                if has_fraction {
                    let (se, us) = split_minute_fraction(num, den);
                    d.seconds = se;
                    d.microseconds = us;
                }
                Ok(DurationState { duration: d, last_rank: 6, had_fraction: has_fraction, ..st })
            } else if c == UNIT_S {
                if st.last_rank >= 7 {
                    return Err(self.parse_error(ParseErrorKind::UnitsOutOfOrder));
                }
                d.seconds = value;
                if has_fraction {
                    d.microseconds = micros_of_fraction(num, den);
                }
                Ok(DurationState { duration: d, last_rank: 7, had_fraction: has_fraction, ..st })
            } else {
                Err(self.unexpected_character_error(Field::DurationUnit, 1))
            }
        } else if c == UNIT_Y {
            if has_fraction {
                return Err(self.parse_error(ParseErrorKind::FractionalYears));
            }
            if st.last_rank >= 1 {
                return Err(self.parse_error(ParseErrorKind::UnitsOutOfOrder));
            }
            d.years = value;
            Ok(DurationState { duration: d, last_rank: 1, had_fraction: false, ..st })
        } else if c == UNIT_M {
            if has_fraction {
                return Err(self.parse_error(ParseErrorKind::FractionalMonths));
            }
            if st.last_rank >= 2 {
                return Err(self.parse_error(ParseErrorKind::UnitsOutOfOrder));
            }
            d.months = value;
            Ok(DurationState { duration: d, last_rank: 2, had_fraction: false, ..st })
        } else if c == DESIGNATOR_W {
            if st.last_rank >= 3 {
                return Err(self.parse_error(ParseErrorKind::UnitsOutOfOrder));
            }
            if st.last_rank >= 1 {
                return Err(self.parse_error(ParseErrorKind::MixedWeeks));
            }
            d.weeks = value;
            if has_fraction {
                let (dd, h, mi, se, us) = split_week_fraction(num, den);
                d.days = dd;
                d.hours = h;
                d.minutes = mi;
                d.seconds = se;
                d.microseconds = us;
            }
            Ok(
                DurationState {
                    duration: d,
                    last_rank: 3,
                    has_weeks: true,
                    had_fraction: has_fraction,
                    ..st
                },
            )
        } else if c == UNIT_D {
            if st.has_weeks {
                return Err(self.parse_error(ParseErrorKind::MixedWeeks));
            }
            if st.last_rank >= 4 {
                return Err(self.parse_error(ParseErrorKind::UnitsOutOfOrder));
            }
            d.days = value;
            if has_fraction {
                let (h, mi, se, us) = split_day_fraction(num, den);
                d.hours = h;
                d.minutes = mi;
                d.seconds = se;
                d.microseconds = us;
            }
            Ok(DurationState { duration: d, last_rank: 4, had_fraction: has_fraction, ..st })
        } else {
            Err(self.unexpected_character_error(Field::DurationUnit, 1))
        }
    }

    /// A duration whose `P` is at the cursor; it stops at the end of the
    /// text or at an interval's `/`.
    #[verifier::rlimit(40)]
    fn parse_duration(&mut self) -> (r: Result<ParsedDuration, ParseError>)
        requires
            old(self).wf(),
            byte_at(old(self).text(), old(self).pos()) == DESIGNATOR_P,
        ensures
            final(self).wf(),
            final(self).text() == old(self).text(),
            match duration_value(old(self).text(), old(self).pos()) {
                Ok((d, j)) => r == Ok::<ParsedDuration, ParseError>(d) && final(self).pos() == j,
                Err(e) => r == Err::<ParsedDuration, ParseError>(e),
            },
    {
        let ghost s = self.text();
        // Skip the `P`.
        self.inc();
        let mut st = DurationState {
            duration: ParsedDuration::new(),
            got_t: false,
            last_rank: 0,
            has_weeks: false,
            had_fraction: false,
        };
        loop
            invariant
                self.wf(),
                self.text() == s,
                s == old(self).text(),
                duration_value(s, old(self).pos()) == duration_loop(s, self.pos(), st),
            decreases s.len() - self.pos(),
        {
            if self.peek() == DESIGNATOR_T {
                if st.got_t {
                    return Err(self.parse_error(ParseErrorKind::RepeatedTimeMarker));
                }
                st.got_t = true;
                self.inc();
            } else {
                let value = self.parse_duration_number()?;
                let fraction = self.parse_duration_fraction()?;
                if st.had_fraction {
                    // Only the last number may have a fraction.
                    return Err(self.parse_error(ParseErrorKind::MisplacedFraction));
                }
                st = self.apply_duration_unit(st, value, fraction)?;
                self.inc();
            }
            if self.at_end() || self.peek() == SLASH {
                if st.got_t && st.last_rank < 5 {
                    return Err(self.parse_error(ParseErrorKind::EmptyTimePart));
                }
                return Ok(st.duration);
            }
        }
    }

    /// Parses the whole text: a date-time, a duration, or an interval of
    /// two date-times, of a date-time and a duration, or of a duration and
    /// a date-time.
    #[verifier::rlimit(40)]
    pub fn parse(&mut self) -> (r: Result<Parsed, ParseError>)
        requires
            old(self).wf(),
            old(self).pos() == 0,
        ensures
            match parse_text(old(self).text()) {
                Ok(p) => r matches Ok(x) && x@ == p,
                Err(e) => r == Err::<Parsed, ParseError>(e),
            },
    {
        let ghost s = self.text();
        let mut parsed = Parsed::new();
        if self.peek() == DESIGNATOR_P {
            let duration = self.parse_duration()?;
            parsed.duration = Some(duration);
            if !self.at_end() {
                // Interval: the second side is a date-time.
                self.inc();
                let datetime = self.parse_datetime()?;
                if !self.at_end() {
                    return Err(self.parse_error(ParseErrorKind::TrailingData));
                }
                parsed.second_datetime = Some(datetime);
            }
        } else {
            let datetime = self.parse_datetime()?;
            parsed.datetime = Some(datetime);
            if !self.at_end() {
                // Interval: the second side is a duration or a date-time.
                self.inc();
                if self.peek() == DESIGNATOR_P {
                    let duration = self.parse_duration()?;
                    parsed.duration = Some(duration);
                } else {
                    let datetime = self.parse_datetime()?;
                    parsed.second_datetime = Some(datetime);
                }
                if !self.at_end() {
                    return Err(self.parse_error(ParseErrorKind::TrailingData));
                }
            }
        }
        Ok(parsed)
    }

    /// ISO week `week`, day `weekday` of `year`, read at `week_at` and
    /// `day_at`.
    #[verifier::rlimit(40)]
    fn iso_to_ymd(&self, year: u32, week: u32, weekday: u32, week_at: usize, day_at: usize) -> (r:
        Result<(u32, u32, u32), ParseError>)
        requires
            year <= 9999,
            week <= 99,
            weekday <= 9,
        ensures
            match week_date(
                year as int,
                week as int,
                weekday as int,
                week_at as int,
                day_at as int,
            ) {
                Ok((y, m, d)) => r == Ok::<(u32, u32, u32), ParseError>(
                    (y as u32, m as u32, d as u32),
                ),
                Err(e) => r == Err::<(u32, u32, u32), ParseError>(e),
            },
    {
        if week < 1 || week > 53 || (week == 53 && !is_long_year(year as i32)) {
            return Err(invalid_value(week_at, Field::IsoWeek));
        }
        if weekday < 1 || weekday > 7 {
            return Err(invalid_value(day_at, Field::IsoDay));
        }
        let ordinal: i32 = (week * 7 + weekday) as i32 - (week_day(year as i32, 1, 4) as i32 + 3);
        if ordinal < 1 {
            if year == 0 {
                return Err(invalid_value(week_at, Field::IsoWeek));
            }
            let y: u32 = year - 1;
            let o: u32 = (ordinal + days_in_year(y as i32) as i32) as u32;
            let (month, day) = month_and_day(is_leap(y as i32), o);
            Ok((y, month, day))
        } else if ordinal > days_in_year(year as i32) as i32 {
            let y: u32 = year + 1;
            let o: u32 = (ordinal - days_in_year(year as i32) as i32) as u32;
            let (month, day) = month_and_day(is_leap(y as i32), o);
            Ok((y, month, day))
        } else {
            let (month, day) = month_and_day(is_leap(year as i32), ordinal as u32);
            Ok((year, month, day))
        }
    }
}

} // verus!
