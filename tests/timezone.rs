use pendulum::FixedTimezone;

#[test]
fn named_zone_keeps_its_name() {
    let tz = FixedTimezone::new(3600, Some("Europe/Paris".to_string()));
    assert_eq!(tz.offset, 3600);
    assert_eq!(tz.tzname(), "Europe/Paris");
}

#[test]
fn unnamed_zone_shows_its_offset() {
    assert_eq!(FixedTimezone::new(3600, None).tzname(), "+01:00");
    assert_eq!(FixedTimezone::new(-19800, None).tzname(), "-05:30");
    assert_eq!(FixedTimezone::new(0, None).tzname(), "+00:00");
    assert_eq!(FixedTimezone::new(-86400, None).tzname(), "-24:00");
    assert_eq!(FixedTimezone::new(360000 + 120, None).tzname(), "+100:02");
}
