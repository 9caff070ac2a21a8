use pendulum::local_time;

#[test]
fn epoch_start() {
    assert_eq!(local_time(0, 0, 0), (1970, 1, 1, 0, 0, 0, 0));
}

#[test]
fn pre_1970_date() {
    assert_eq!(local_time(-2203891200, 0, 0), (1900, 3, 1, 0, 0, 0, 0));
}

#[test]
fn post_2000_leap_day() {
    assert_eq!(local_time(951825600, 0, 0), (2000, 2, 29, 12, 0, 0, 0));
}

#[test]
fn second_before_epoch() {
    assert_eq!(local_time(-1, 0, 123456), (1969, 12, 31, 23, 59, 59, 123456));
}

#[test]
fn offset_crosses_day_and_year() {
    assert_eq!(local_time(0, -3600, 0), (1969, 12, 31, 23, 0, 0, 0));
    assert_eq!(local_time(1686835800, 7200, 5), (2023, 6, 15, 15, 30, 0, 5));
}

#[test]
fn cycle_boundaries() {
    assert_eq!(local_time(-11676096000, 0, 0), (1600, 1, 1, 0, 0, 0, 0));
    assert_eq!(local_time(13601087999, 0, 0), (2400, 12, 31, 23, 59, 59, 0));
    assert_eq!(local_time(4102444800, 0, 0), (2100, 1, 1, 0, 0, 0, 0));
    assert_eq!(local_time(4107542400, 0, 0), (2100, 3, 1, 0, 0, 0, 0));
}
