use pendulum::calendar::{days_in_month, month_and_day, month_offset};
use pendulum::{day_number, days_in_year, is_leap, is_long_year, week_day};

#[test]
fn leap_years_follow_gregorian_rule() {
    assert!(is_leap(2000));
    assert!(is_leap(2024));
    assert!(is_leap(1600));
    assert!(is_leap(0));
    assert!(is_leap(-4));
    assert!(!is_leap(1900));
    assert!(!is_leap(2100));
    assert!(!is_leap(2023));
    assert!(!is_leap(-1));
    for y in -1000..3000 {
        assert_eq!(is_leap(y), y % 4 == 0 && (y % 100 != 0 || y % 400 == 0));
    }
}

#[test]
fn days_in_year_is_366_exactly_in_leap_years() {
    assert_eq!(days_in_year(2000), 366);
    assert_eq!(days_in_year(1900), 365);
    assert_eq!(days_in_year(2023), 365);
    assert_eq!(days_in_year(2024), 366);
    for y in -500..2500 {
        assert_eq!(days_in_year(y) == 366, is_leap(y));
    }
}

#[test]
fn epoch_day_is_thursday() {
    assert_eq!(week_day(1970, 1, 1), 4);
}

#[test]
fn week_days_of_known_dates() {
    assert_eq!(week_day(2023, 6, 15), 4);
    assert_eq!(week_day(2000, 1, 1), 6);
    assert_eq!(week_day(2024, 2, 29), 4);
    assert_eq!(week_day(2023, 1, 1), 7);
    assert_eq!(week_day(1600, 3, 1), 3);
}

#[test]
fn long_years_have_53_weeks() {
    assert!(is_long_year(2015));
    assert!(is_long_year(2020));
    assert!(is_long_year(2026));
    assert!(!is_long_year(2019));
    assert!(!is_long_year(2023));
}

#[test]
fn day_number_differences_count_days() {
    assert_eq!(day_number(2023, 1, 1) - day_number(1970, 1, 1), 19358);
    assert_eq!(day_number(2000, 3, 1) - day_number(2000, 2, 28), 2);
    assert_eq!(day_number(1900, 3, 1) - day_number(1900, 2, 28), 1);
    assert_eq!(day_number(2001, 1, 1) - day_number(2000, 1, 1), 366);
    assert_eq!(day_number(1, 1, 1) - day_number(0, 1, 1), 366);
    assert_eq!(day_number(0, 3, 1) - day_number(-1, 3, 1), 366);
}

#[test]
fn day_number_round_trips_through_month_offsets() {
    for year in [1900, 1970, 2000, 2023, 2024] {
        let leap = is_leap(year);
        for month in 1u8..=12 {
            for day in 1..=days_in_month(leap, month as u32) as u8 {
                let ordinal = day_number(year, month, day) - day_number(year, 1, 1) + 1;
                assert_eq!(month_and_day(leap, ordinal as u32), (month as u32, day as u32));
            }
        }
    }
}

#[test]
fn month_tables() {
    assert_eq!(days_in_month(false, 2), 28);
    assert_eq!(days_in_month(true, 2), 29);
    assert_eq!(days_in_month(false, 4), 30);
    assert_eq!(days_in_month(false, 12), 31);
    assert_eq!(month_offset(false, 12), 334);
    assert_eq!(month_offset(true, 12), 335);
    assert_eq!(month_offset(true, 13), 366);
    assert_eq!(month_and_day(false, 60), (3, 1));
    assert_eq!(month_and_day(true, 60), (2, 29));
    assert_eq!(month_and_day(true, 366), (12, 31));
}

#[test]
fn week_day_follows_day_number() {
    for year in [1600, 1899, 1900, 1970, 2000, 2023, 2024] {
        for month in 1u8..=12 {
            for day in 1u8..=28 {
                let n = day_number(year, month, day);
                let expected = match (n + 3).rem_euclid(7) {
                    0 => 7,
                    w => w as u32,
                };
                assert_eq!(week_day(year, month as u32, day as u32), expected);
            }
        }
    }
}
