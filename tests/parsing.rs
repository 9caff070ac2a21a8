use pendulum::{
    parse_iso8601, Field, ParseError, ParseErrorKind, Parsed, ParsedDateTime, ParsedDuration,
    Parser,
};

fn parse(text: &str) -> Result<Parsed, ParseError> {
    Parser::new(text).parse()
}

fn single(text: &str) -> ParsedDateTime {
    let parsed = parse(text).unwrap();
    assert!(parsed.duration.is_none());
    assert!(parsed.second_datetime.is_none());
    parsed.datetime.unwrap()
}

fn duration(text: &str) -> ParsedDuration {
    let parsed = parse(text).unwrap();
    assert!(parsed.datetime.is_none());
    assert!(parsed.second_datetime.is_none());
    parsed.duration.unwrap()
}

fn error(text: &str) -> (usize, ParseErrorKind) {
    let e = parse(text).err().unwrap();
    (e.index, e.kind)
}

fn ymd(dt: &ParsedDateTime) -> (u32, u32, u32) {
    (dt.year, dt.month, dt.day)
}

fn hms(dt: &ParsedDateTime) -> (u32, u32, u32, u32) {
    (dt.hour, dt.minute, dt.second, dt.microsecond)
}

fn dur(years: u32, months: u32, weeks: u32, days: u32, hours: u32, minutes: u32, seconds: u32, microseconds: u32) -> ParsedDuration {
    ParsedDuration { years, months, weeks, days, hours, minutes, seconds, microseconds }
}

#[test]
fn extended_datetime_with_offset() {
    let dt = single("2023-06-15T13:30:00+02:00");
    assert_eq!(ymd(&dt), (2023, 6, 15));
    assert_eq!(hms(&dt), (13, 30, 0, 0));
    assert_eq!(dt.offset, Some(7200));
    assert!(dt.has_offset);
    assert!(dt.has_date && dt.has_time && dt.extended_date_format);
    assert_eq!(dt.tzname, None);
}

#[test]
fn week_date_matches_calendar_date() {
    assert_eq!(ymd(&single("2023-W24-4")), ymd(&single("2023-06-15")));
    assert_eq!(ymd(&single("2023W244")), (2023, 6, 15));
    assert_eq!(ymd(&single("2023-W24")), (2023, 6, 12));
}

#[test]
fn week_dates_across_years() {
    assert_eq!(ymd(&single("2020-W53-5")), (2021, 1, 1));
    assert_eq!(ymd(&single("2021-W01-1")), (2021, 1, 4));
    assert_eq!(ymd(&single("2020-W01-1")), (2019, 12, 30));
}

#[test]
fn duration_with_date_and_time_units() {
    assert_eq!(duration("P1Y2M10DT2H30M"), dur(1, 2, 0, 10, 2, 30, 0, 0));
}

#[test]
fn interval_of_date_and_duration() {
    let parsed = parse("2023-01-01/P1M").unwrap();
    assert_eq!(ymd(parsed.datetime.as_ref().unwrap()), (2023, 1, 1));
    assert_eq!(parsed.duration, Some(dur(0, 1, 0, 0, 0, 0, 0, 0)));
    assert!(parsed.second_datetime.is_none());
}

#[test]
fn invalid_month_is_reported_at_the_month() {
    assert_eq!(error("2023-13-01"), (5, ParseErrorKind::InvalidValue { field: Field::Month }));
    assert_eq!(error("20231301"), (4, ParseErrorKind::InvalidValue { field: Field::Month }));
}

#[test]
fn basic_datetime_in_utc() {
    let dt = single("20230615T133000Z");
    assert_eq!(ymd(&dt), (2023, 6, 15));
    assert_eq!(hms(&dt), (13, 30, 0, 0));
    assert_eq!(dt.offset, Some(0));
    assert_eq!(dt.tzname, Some("UTC".to_string()));
    assert!(!dt.extended_date_format);
}

#[test]
fn ordinal_dates() {
    assert_eq!(ymd(&single("2023-166")), (2023, 6, 15));
    assert_eq!(ymd(&single("2023166")), (2023, 6, 15));
    assert_eq!(ymd(&single("2024-366")), (2024, 12, 31));
    assert_eq!(error("2023-366"), (5, ParseErrorKind::InvalidValue { field: Field::OrdinalDay }));
    assert_eq!(error("2023-000"), (5, ParseErrorKind::InvalidValue { field: Field::OrdinalDay }));
}

#[test]
fn year_and_month_only() {
    let dt = single("2023-06");
    assert_eq!(ymd(&dt), (2023, 6, 1));
    assert!(!dt.has_time);
}

#[test]
fn times_without_date() {
    let dt = single("13:30:45.123");
    assert!(!dt.has_date && dt.has_time);
    assert_eq!(hms(&dt), (13, 30, 45, 123000));
    let dt = single("T1330");
    assert_eq!(hms(&dt), (13, 30, 0, 0));
    let dt = single("T13:30:45,5-05:30");
    assert_eq!(hms(&dt), (13, 30, 45, 500000));
    assert_eq!(dt.offset, Some(-19800));
}

#[test]
fn fraction_keeps_six_digits() {
    assert_eq!(hms(&single("2023-06-15T13:30:45.1234567")), (13, 30, 45, 123456));
    assert_eq!(hms(&single("2023-06-15 13:30:45.1")), (13, 30, 45, 100000));
    assert_eq!(error("2023-06-15T13:30:45."), (20, ParseErrorKind::UnexpectedEnd { field: Field::Subsecond, expected: 1 }));
}

#[test]
fn midnight_at_end_of_day() {
    let dt = single("2023-06-15T24:00:00");
    assert!(dt.time_is_midnight);
    assert_eq!(dt.hour, 24);
    assert_eq!(error("2023-06-15T24:00:01"), (11, ParseErrorKind::InvalidValue { field: Field::Hour }));
    assert_eq!(error("2023-06-15T25:00"), (11, ParseErrorKind::InvalidValue { field: Field::Hour }));
}

#[test]
fn clock_ranges() {
    assert_eq!(error("2023-06-15T12:60"), (14, ParseErrorKind::InvalidValue { field: Field::Minute }));
    assert_eq!(error("2023-06-15T12:00:60"), (17, ParseErrorKind::InvalidValue { field: Field::Second }));
}

#[test]
fn calendar_ranges() {
    assert_eq!(error("2023-02-29"), (8, ParseErrorKind::InvalidValue { field: Field::Day }));
    assert_eq!(ymd(&single("2024-02-29")), (2024, 2, 29));
    assert_eq!(error("2023-W54"), (6, ParseErrorKind::InvalidValue { field: Field::IsoWeek }));
    assert_eq!(error("2023-W53"), (6, ParseErrorKind::InvalidValue { field: Field::IsoWeek }));
    assert_eq!(error("2023-W24-8"), (9, ParseErrorKind::InvalidValue { field: Field::IsoDay }));
    assert_eq!(error("2023-W24-0"), (9, ParseErrorKind::InvalidValue { field: Field::IsoDay }));
}

#[test]
fn mixed_formats_are_rejected() {
    assert_eq!(error("20230615T13:30").1, ParseErrorKind::MixedFormat);
    assert_eq!(error("2023-06-15T1330").1, ParseErrorKind::MixedFormat);
    assert_eq!(error("2023-06-15T13:3000").1, ParseErrorKind::InvalidCharacter { field: Field::TimeSeparator });
}

#[test]
fn timezone_offsets() {
    assert_eq!(single("2023-06-15T13:30+0530").offset, Some(19800));
    assert_eq!(single("2023-06-15T13:30-02").offset, Some(-7200));
    assert_eq!(single("2023-06-15T13:30-24:00").offset, Some(-86400));
    assert_eq!(error("2023-06-15T13:30+24:01"), (22, ParseErrorKind::TimezoneOutOfRange));
    assert_eq!(error("2023-06-15T13:30-02:60"), (22, ParseErrorKind::TimezoneOutOfRange));
}

#[test]
fn truncated_and_invalid_characters() {
    assert_eq!(error(""), (0, ParseErrorKind::UnexpectedEnd { field: Field::Year, expected: 2 }));
    assert_eq!(error("2023-0"), (6, ParseErrorKind::UnexpectedEnd { field: Field::Month, expected: 1 }));
    assert_eq!(error("2023-0x"), (6, ParseErrorKind::InvalidCharacter { field: Field::Month }));
    assert_eq!(error("2023-01-01X"), (10, ParseErrorKind::InvalidCharacter { field: Field::DateTimeSeparator }));
    assert_eq!(error("2023-W24x"), (8, ParseErrorKind::InvalidCharacter { field: Field::DateSeparator }));
    assert_eq!(error("2023-06-15T13:30:00Zx"), (20, ParseErrorKind::TrailingData));
    assert_eq!(error("T13:30/P1D"), (6, ParseErrorKind::TrailingData));
    assert_eq!(error("13:30:00/P1D"), (8, ParseErrorKind::TrailingData));
}

#[test]
fn fractional_durations() {
    assert_eq!(duration("P12.5D"), dur(0, 0, 0, 12, 12, 0, 0, 0));
    assert_eq!(duration("PT1.5H"), dur(0, 0, 0, 0, 1, 30, 0, 0));
    assert_eq!(duration("PT1H1.5M"), dur(0, 0, 0, 0, 1, 1, 30, 0));
    assert_eq!(duration("PT0.5S"), dur(0, 0, 0, 0, 0, 0, 0, 500000));
    assert_eq!(duration("P0,5W"), dur(0, 0, 0, 3, 12, 0, 0, 0));
    assert_eq!(duration("PT0.0000005S"), dur(0, 0, 0, 0, 0, 0, 0, 1));
    assert_eq!(duration("P13.01D"), dur(0, 0, 0, 13, 0, 14, 24, 0));
}

#[test]
fn duration_structure_errors() {
    assert_eq!(error("P12.5Y"), (5, ParseErrorKind::FractionalYears));
    assert_eq!(error("P12.5M"), (5, ParseErrorKind::FractionalMonths));
    assert_eq!(error("P1W2D"), (4, ParseErrorKind::MixedWeeks));
    assert_eq!(error("P1Y2W"), (4, ParseErrorKind::MixedWeeks));
    assert_eq!(error("P1D1Y"), (4, ParseErrorKind::UnitsOutOfOrder));
    assert_eq!(error("PT1S1H"), (5, ParseErrorKind::UnitsOutOfOrder));
    assert_eq!(error("P12.5DT1H"), (8, ParseErrorKind::MisplacedFraction));
    assert_eq!(error("P1DT1HT"), (6, ParseErrorKind::RepeatedTimeMarker));
    assert_eq!(error("PT"), (2, ParseErrorKind::EmptyTimePart));
    assert_eq!(error("P1DT"), (4, ParseErrorKind::EmptyTimePart));
    assert_eq!(error("P"), (1, ParseErrorKind::UnexpectedEnd { field: Field::DurationNumber, expected: 1 }));
    assert_eq!(error("P25"), (3, ParseErrorKind::UnexpectedEnd { field: Field::DurationUnit, expected: 1 }));
    assert_eq!(error("P1X"), (2, ParseErrorKind::InvalidCharacter { field: Field::DurationUnit }));
    assert_eq!(error("P1H"), (2, ParseErrorKind::InvalidCharacter { field: Field::DurationUnit }));
    assert_eq!(error("P99999999999D"), (10, ParseErrorKind::NumberTooLarge));
}

#[test]
fn intervals() {
    let parsed = parse("2023-01-01/2023-02-01T10:00").unwrap();
    assert_eq!(ymd(parsed.datetime.as_ref().unwrap()), (2023, 1, 1));
    let second = parsed.second_datetime.unwrap();
    assert_eq!(ymd(&second), (2023, 2, 1));
    assert_eq!(second.hour, 10);
    assert!(parsed.duration.is_none());

    let parsed = parse("P1D/2023-01-01").unwrap();
    assert!(parsed.datetime.is_none());
    assert_eq!(parsed.duration, Some(dur(0, 0, 0, 1, 0, 0, 0, 0)));
    assert_eq!(ymd(parsed.second_datetime.as_ref().unwrap()), (2023, 1, 1));

    let parsed = parse("2023-01-01T10:00/P1D").unwrap();
    assert_eq!(hms(parsed.datetime.as_ref().unwrap()), (10, 0, 0, 0));
    assert_eq!(parsed.duration, Some(dur(0, 0, 0, 1, 0, 0, 0, 0)));

    let parsed = parse("2023-01-01T00:00Z/PT1H").unwrap();
    assert_eq!(parsed.datetime.unwrap().offset, Some(0));
    assert_eq!(parsed.duration, Some(dur(0, 0, 0, 0, 1, 0, 0, 0)));

    assert_eq!(error("2023-01-01/2023-02-01/2023-03-01"), (21, ParseErrorKind::TrailingData));
    assert_eq!(error("P1D/P2D"), (4, ParseErrorKind::InvalidCharacter { field: Field::Year }));
}

#[test]
fn entry_point_parses_the_same() {
    let dt = parse_iso8601("2023-06-15").unwrap().datetime.unwrap();
    assert_eq!(ymd(&dt), (2023, 6, 15));
    assert_eq!(parse_iso8601("2023-13-01").err().unwrap(), ParseError { index: 5, kind: ParseErrorKind::InvalidValue { field: Field::Month } });
}

#[test]
fn new_values_are_empty() {
    let dt = ParsedDateTime::new();
    assert_eq!((dt.year, dt.month, dt.day), (0, 1, 1));
    assert!(!dt.has_date && !dt.has_time);
    assert_eq!(ParsedDuration::new(), dur(0, 0, 0, 0, 0, 0, 0, 0));
    let p = Parsed::new();
    assert!(p.datetime.is_none() && p.duration.is_none() && p.second_datetime.is_none());
    let parser = Parser::new("2023");
    assert_eq!(parser.position(), 0);
}

#[test]
fn parsed_values_stay_in_range() {
    for text in [
        "2020-W53-7",
        "2024-366",
        "0000-W01-1",
        "9999-W52-7",
        "2023-06-15T24:00Z",
        "2023-06-15T23:59:59.999999-24:00",
        "2023-01-01/2023-12-31T12:00+14:00",
    ] {
        let parsed = parse(text).unwrap();
        for dt in [parsed.datetime, parsed.second_datetime].into_iter().flatten() {
            assert!((1..=12).contains(&dt.month), "{}", text);
            assert!(dt.day >= 1 && dt.day <= 31, "{}", text);
            assert!(dt.hour <= 24 && dt.minute <= 59 && dt.second <= 59);
            assert!(dt.microsecond <= 999_999);
            assert_eq!(dt.time_is_midnight, dt.hour == 24);
            if let Some(o) = dt.offset {
                assert!((-86400..=86400).contains(&o));
            }
        }
    }
    assert_eq!(ymd(&single("9999-W52-7")), (10000, 1, 2));
    assert_eq!(ymd(&single("0000-W01-1")), (0, 1, 3));
}
