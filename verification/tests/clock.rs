use chrono::TimeZone;
use tradingsim::clock::Clock;
use tradingsim::time::Timestamp;

fn at(y: i32, mo: u32, day: u32, h: u32, m: u32) -> Timestamp {
    Timestamp::from_secs(chrono::Utc.with_ymd_and_hms(y, mo, day, h, m, 0).unwrap().timestamp())
}

/// The local time in hours.
fn hour(clock: &Clock, utc: Timestamp) -> f64 {
    clock.local_hour(utc) as f64 / 3600.0
}

#[test]
fn local_hour_applies_summer_dst_offset() {
    // 2026-05-14 12:00 UTC = 14:00 CEST (UTC+2)
    let utc = at(2026, 5, 14, 12, 0);
    let clock = Clock::default();
    assert!((hour(&clock, utc) - 14.0).abs() < 1e-9);
}

#[test]
fn local_hour_applies_winter_standard_offset() {
    // 2026-01-15 12:00 UTC = 13:00 CET (UTC+1)
    let utc = at(2026, 1, 15, 12, 0);
    let clock = Clock::default();
    assert!((hour(&clock, utc) - 13.0).abs() < 1e-9);
}

#[test]
fn local_date_can_differ_from_utc_date() {
    // 2026-05-15 00:30 CEST = 22:30 UTC on the previous day.
    let utc = at(2026, 5, 14, 22, 30);
    let clock = Clock::default();
    assert_eq!(clock.local_date(utc).day, 15);
    assert_eq!(clock.local_date(utc).month, 5);
    assert_eq!(clock.local_date(utc).year, 2026);
}

#[test]
fn alternate_tz_parses() {
    let clock = Clock::new("America/New_York").unwrap();
    // 2026-05-14 16:00 UTC = 12:00 EDT
    let utc = at(2026, 5, 14, 16, 0);
    assert!((hour(&clock, utc) - 12.0).abs() < 1e-9);
}

#[test]
fn unknown_zones_are_refused() {
    assert!(Clock::new("Mars/Olympus_Mons").is_none());
    assert_eq!(Clock::default().tz_name(), "Europe/Berlin");
}

#[test]
fn day_of_year_is_local_too() {
    let clock = Clock::default();
    // 2026-01-01 00:30 CET.
    assert_eq!(clock.local_day_of_year(at(2025, 12, 31, 23, 30)), 1);
    // 2024 is a leap year.
    assert_eq!(clock.local_day_of_year(at(2024, 12, 31, 12, 0)), 366);
    assert_eq!(clock.local_day_of_year(at(2026, 5, 14, 12, 0)), 134);
}
