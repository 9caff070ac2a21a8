//! Calendar arithmetic, epoch conversion, ISO-8601 parsing and precise
//! date differences over the proleptic Gregorian calendar.

pub mod calendar;
pub mod epoch;
pub mod diff;
pub mod parsing;
pub mod grammar;
pub mod timezone;

pub use calendar::{day_number, days_in_year, is_leap, is_long_year, week_day};
pub use diff::{precise_diff, DateTimeInfo, PreciseDiff};
pub use epoch::local_time;
pub use timezone::FixedTimezone;
pub use parsing::{
    parse_iso8601, Field, ParseError, ParseErrorKind, Parsed, ParsedDateTime, ParsedDuration,
    Parser,
};
