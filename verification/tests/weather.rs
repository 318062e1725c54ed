use tradingsim::weather::{
    forecast_hours, noise_seed, ForecastHistory, LocationKey, WeatherRegistry, FORECAST_HISTORY,
};

#[derive(Clone, Debug)]
struct Location {
    cloud_cover: f64,
    baseline_cloud_cover: f64,
}

/// The grid point of a place.
fn key(lat: f64, lon: f64) -> LocationKey {
    LocationKey {
        lat_tenths: (lat * 10.0).round() as i32,
        lon_tenths: (lon * 10.0).round() as i32,
    }
}

fn typical() -> Location {
    Location { cloud_cover: 0.30, baseline_cloud_cover: 0.30 }
}

fn registry() -> WeatherRegistry<Location> {
    WeatherRegistry::new(key(50.1, 8.7), typical())
}

#[test]
fn location_key_snaps_to_tenths() {
    let k = key(51.523, 9.832);
    assert_eq!(k.lat_tenths, 515);
    assert_eq!(k.lon_tenths, 98);
    assert!((k.lat_tenths as f64 / 10.0 - 51.5).abs() < 1e-9);
    assert!((k.lon_tenths as f64 / 10.0 - 9.8).abs() < 1e-9);
}

#[test]
fn registry_default_has_de_lu_typical() {
    let r = registry();
    assert_eq!(r.locations().len(), 1);
    assert_eq!(r.default_location().cloud_cover, 0.30);
}

#[test]
fn upsert_replaces_same_grid_point() {
    let mut r = registry();
    let i1 = r.upsert(key(50.1, 8.7), Location { cloud_cover: 0.9, ..typical() });
    // Same grid point as the default: the same slot.
    assert_eq!(i1, 0);
    assert_eq!(r.default_location().cloud_cover, 0.9);
}

#[test]
fn upsert_adds_distinct_grid_points() {
    let mut r = registry();
    let i = r.upsert(key(52.5, 13.4), typical());
    assert_eq!(i, 1);
    assert_eq!(r.locations().len(), 2);
}

#[test]
fn area_link_returns_associated_location() {
    let mut r = registry();
    let i = r.upsert(key(52.5, 13.4), Location { cloud_cover: 0.9, ..typical() });
    r.link_area("10YDE-VE-------2", i);
    assert_eq!(r.for_area("10YDE-VE-------2").cloud_cover, 0.9);
    // Unlinked area falls back to the default.
    assert_eq!(r.for_area("10YFR-RTE------C").cloud_cover, 0.30);
    assert_eq!(r.area_for_location(i), Some("10YDE-VE-------2"));
    assert_eq!(r.area_for_location(0), None);
}

#[test]
fn at_latlon_returns_exact_grid_match() {
    let mut r = registry();
    r.upsert(key(48.1, 11.6), Location { cloud_cover: 0.55, ..typical() });
    // 48.137 / 11.575 round to 48.1 / 11.6: the registered slot.
    assert_eq!(r.at_key(key(48.137, 11.575)).unwrap().cloud_cover, 0.55);
    assert!(r.at_key(key(40.0, 11.575)).is_none());
}

#[test]
fn stage_weather_overrides_apply_then_restore() {
    let mut r = registry();
    let idx = r.upsert(key(50.4, 11.6), Location { cloud_cover: 0.35, baseline_cloud_cover: 0.35 });
    r.link_area("10YDE-EON------1", idx);

    // A stage with an override.
    for slot in 0..r.locations().len() {
        r.location_mut(slot).cloud_cover = 0.95;
    }
    // Both default and TN now reflect the override.
    assert_eq!(r.default_location().cloud_cover, 0.95);
    assert_eq!(r.for_area("10YDE-EON------1").cloud_cover, 0.95);
    // Baselines untouched.
    assert_eq!(r.default_location().baseline_cloud_cover, 0.30);
    assert_eq!(r.for_area("10YDE-EON------1").baseline_cloud_cover, 0.35);

    // No active stage: only the reset runs.
    for slot in 0..r.locations().len() {
        let loc = r.location_mut(slot);
        loc.cloud_cover = loc.baseline_cloud_cover;
    }
    assert_eq!(r.default_location().cloud_cover, 0.30);
    assert_eq!(r.for_area("10YDE-EON------1").cloud_cover, 0.35);
}

#[test]
fn the_default_and_the_day_can_be_set() {
    let mut r = registry();
    r.default_mut().cloud_cover = 0.1;
    assert_eq!(r.default_location().cloud_cover, 0.1);
    assert_eq!(r.active_day_of_year(), None);
    r.set_day_of_year(Some(172));
    assert_eq!(r.active_day_of_year(), Some(172));
}

#[test]
fn forecasts_are_hourly_from_the_next_full_hour() {
    // 2026-05-13T08:07:00Z; the next full hour is 09:00.
    let hours = forecast_hours(1778659620);
    assert_eq!(hours.len(), 24);
    assert_eq!(hours[0], 1778662800);
    assert_eq!(hours[23], 1778662800 + 23 * 3600);
}

#[test]
fn the_history_keeps_the_newest_forecasts() {
    let mut h: ForecastHistory<u32> = ForecastHistory::new();
    for i in 0..(FORECAST_HISTORY as u32 + 5) {
        h.push(i as i64 * 60, i);
    }
    let all = h.between(None, None);
    assert_eq!(all.len(), FORECAST_HISTORY);
    assert_eq!(*h.at(all[0]), 5);
    let some: Vec<u32> = h.between(Some(600), Some(720)).iter().map(|i| *h.at(*i)).collect();
    assert_eq!(some, vec![10, 11, 12]);
}

#[test]
fn noise_seeds_tell_forecasts_apart() {
    let a = noise_seed(1, 2, 3);
    assert_eq!(a, noise_seed(1, 2, 3));
    assert_ne!(a, noise_seed(1, 2, 4));
    assert_ne!(a, noise_seed(1, 3, 3));
}

#[test]
fn forecasts_before_the_epoch() {
    assert_eq!(tradingsim::weather::forecast_hours(-1)[0], 0);
    assert_eq!(tradingsim::weather::forecast_hours(-3601)[0], -3600);
    assert_eq!(tradingsim::weather::forecast_hours(0)[0], 3600);
}
