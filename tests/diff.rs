use pendulum::{precise_diff, DateTimeInfo, PreciseDiff};

fn date(year: i32, month: i32, day: i32) -> DateTimeInfo {
    DateTimeInfo {
        year,
        month,
        day,
        hour: 0,
        minute: 0,
        second: 0,
        microsecond: 0,
        offset: 0,
        tz: String::new(),
        is_datetime: false,
    }
}

#[allow(clippy::too_many_arguments)]
fn datetime(
    year: i32,
    month: i32,
    day: i32,
    hour: i32,
    minute: i32,
    second: i32,
    microsecond: i32,
    offset: i32,
    tz: &str,
) -> DateTimeInfo {
    DateTimeInfo {
        year,
        month,
        day,
        hour,
        minute,
        second,
        microsecond,
        offset,
        tz: tz.to_string(),
        is_datetime: true,
    }
}

#[test]
fn end_of_month_resolution() {
    let d = precise_diff(&date(2023, 1, 31), &date(2023, 3, 1));
    assert_eq!(d, PreciseDiff::new(0, 1, 1, 0, 0, 0, 0, 29));
}

#[test]
fn reversed_operands_negate_every_field() {
    let d = precise_diff(&date(2023, 3, 1), &date(2023, 1, 31));
    assert_eq!(d, PreciseDiff::new(0, -1, -1, 0, 0, 0, 0, -29));
}

#[test]
fn equal_dates_give_zero() {
    let d = precise_diff(&date(2023, 1, 15), &date(2023, 1, 15));
    assert_eq!(d, PreciseDiff::new(0, 0, 0, 0, 0, 0, 0, 0));
}

#[test]
fn exactly_one_month_to_a_shorter_month() {
    let d = precise_diff(&date(2023, 1, 31), &date(2023, 2, 28));
    assert_eq!(d, PreciseDiff::new(0, 1, 0, 0, 0, 0, 0, 28));
    let d = precise_diff(&date(2024, 1, 31), &date(2024, 3, 31));
    assert_eq!(d, PreciseDiff::new(0, 2, 0, 0, 0, 0, 0, 60));
}

#[test]
fn every_unit_borrows() {
    let a = datetime(2020, 2, 29, 10, 30, 15, 500000, 0, "");
    let b = datetime(2023, 8, 15, 8, 15, 10, 250000, 0, "");
    let d = precise_diff(&a, &b);
    assert_eq!(d, PreciseDiff::new(3, 5, 16, 21, 44, 54, 750000, 1263));
}

#[test]
fn same_day_offsets_are_normalized() {
    let a = datetime(2023, 1, 1, 0, 0, 0, 0, 3600, "");
    let b = datetime(2023, 1, 1, 0, 0, 0, 0, 0, "");
    assert_eq!(precise_diff(&a, &b), PreciseDiff::new(0, 0, 0, 1, 0, 0, 0, 0));
}

#[test]
fn same_named_zone_keeps_civil_time() {
    let a = datetime(2023, 1, 1, 12, 0, 0, 0, 3600, "Europe/Paris");
    let b = datetime(2023, 1, 5, 12, 0, 0, 0, 7200, "Europe/Paris");
    assert_eq!(precise_diff(&a, &b), PreciseDiff::new(0, 0, 4, 0, 0, 0, 0, 4));
}

#[test]
fn different_zones_compare_in_utc() {
    let a = datetime(2023, 1, 1, 12, 0, 0, 0, 3600, "");
    let b = datetime(2023, 1, 5, 12, 0, 0, 0, 7200, "");
    assert_eq!(precise_diff(&a, &b), PreciseDiff::new(0, 0, 3, 23, 0, 0, 0, 4));
}

#[test]
fn date_differences_have_one_sign() {
    let dates = [
        (2020, 1, 31),
        (2020, 2, 29),
        (2020, 3, 1),
        (2021, 2, 28),
        (2021, 12, 31),
        (2023, 1, 31),
        (2023, 3, 1),
        (2024, 5, 15),
    ];
    for (i, a) in dates.iter().enumerate() {
        for b in dates.iter().skip(i + 1) {
            let forward = precise_diff(&date(a.0, a.1, a.2), &date(b.0, b.1, b.2));
            let backward = precise_diff(&date(b.0, b.1, b.2), &date(a.0, a.1, a.2));
            assert!(forward.years >= 0 && forward.months >= 0 && forward.days >= 0);
            assert!(forward.months < 12);
            assert!(forward.total_days > 0);
            assert_eq!(backward.years, -forward.years);
            assert_eq!(backward.months, -forward.months);
            assert_eq!(backward.days, -forward.days);
            assert_eq!(backward.total_days, -forward.total_days);
        }
    }
}
