use tradingsim::curve::{DayAnchors, ANCHORS};

fn base_prices() -> DayAnchors<f64> {
    let hours = vec![
        55.0, 50.0, 48.0, 45.0, 50.0, 60.0, 85.0, 100.0, 110.0, 90.0, 60.0, 40.0, 25.0, 25.0,
        25.0, 40.0, 65.0, 95.0, 150.0, 140.0, 110.0, 95.0, 75.0, 65.0,
    ];
    DayAnchors::new(hours).unwrap()
}

#[test]
fn set_base_overrides_one_anchor() {
    let mut c = base_prices();
    c.set(12, -50.0);
    assert_eq!(c.at(12), Some(-50.0));
    // Other hours untouched.
    assert_eq!(c.at(18), Some(150.0));
}

#[test]
fn set_base_at_zero_syncs_with_twentyfour() {
    let mut c = base_prices();
    c.set(0, 200.0);
    assert_eq!(c.at(0), Some(200.0));
    assert_eq!(c.at(24), Some(200.0));
    c.set(24, 100.0);
    assert_eq!(c.at(0), Some(100.0));
}

#[test]
fn hours_out_of_range_change_nothing() {
    let mut c = base_prices();
    c.set(ANCHORS, 1.0);
    assert_eq!(c.at(ANCHORS), None);
    assert_eq!(c.at(24), Some(55.0));
}

#[test]
fn neighbouring_anchors_for_interpolation() {
    let c = base_prices();
    assert_eq!(c.around(6), (85.0, 100.0));
    assert_eq!(c.around(23), (65.0, 55.0));
    assert_eq!(c.around(24), (65.0, 55.0));
}

#[test]
fn a_day_has_twenty_four_hours() {
    assert!(DayAnchors::new(vec![1.0; 23]).is_none());
    assert!(DayAnchors::new(vec![1.0; 25]).is_none());
}
