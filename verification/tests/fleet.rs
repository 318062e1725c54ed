use std::collections::BTreeSet;
use tradingsim::decimal::Decimal;
use tradingsim::fleet::{
    aggressor_seed, maker_seed, mean_reference, next_quarter_boundary, offset_to_gate,
    quarter_period, FleetWindow,
};
use tradingsim::market::DeliveryDuration;
use tradingsim::time::Timestamp;

fn d(text: &str) -> Decimal {
    Decimal::parse(text).unwrap()
}

// 2026-05-13T08:07:00Z
const NOW: i64 = 1778659620;

/// Lifecycle plumbing: rolling a fresh window starts one maker per contract
/// in the window.
#[test]
fn add_mm_fleet_publishes_window_views() {
    let mut window = FleetWindow::new(4);
    let roll = window.roll_forward(Timestamp::from_secs(NOW), 1);
    assert_eq!(roll.started.len(), 4);
    assert!(roll.retired.is_empty());
    assert_eq!(window.active().len(), 4);
    // Each view sits on a distinct contract.
    let starts: BTreeSet<i64> = window.active().iter().map(|s| s.start.secs).collect();
    assert_eq!(starts.len(), 4);
}

#[test]
fn roll_forward_retires_gated_and_tops_up() {
    let mut window = FleetWindow::new(2);
    window.roll_forward(Timestamp::from_secs(NOW), 1);
    // Pretend 15 minutes have passed: the front contract just gated. The roll
    // should retire one and start one fresh at the far edge, keeping the
    // window at 2.
    let roll = window.roll_forward(Timestamp::from_secs(NOW + 15 * 60), 1);
    assert_eq!(roll.retired.len(), 1);
    assert_eq!(roll.started.len(), 1);
    assert_eq!(roll.started[0].1, 1);
    assert_eq!(window.active().len(), 2, "window should stay full at 2");
}

#[test]
fn every_contract_gets_every_profile() {
    let mut window = FleetWindow::new(3);
    let roll = window.roll_forward(Timestamp::from_secs(NOW), 2);
    assert_eq!(roll.started.len(), 6);
    let again = window.roll_forward(Timestamp::from_secs(NOW), 2);
    assert!(again.started.is_empty());
    assert!(again.retired.is_empty());
}

#[test]
fn boundaries_lie_strictly_ahead() {
    let quarter = 1778659200; // 08:00:00
    let next = next_quarter_boundary(Timestamp::from_secs(quarter));
    assert_eq!(next, Timestamp::from_secs(quarter + 900));
    assert_eq!(next_quarter_boundary(Timestamp::from_secs(NOW)), next);
    assert!(quarter_period(next).is_aligned());
    assert_eq!(quarter_period(next).duration, DeliveryDuration::QuarterHour);
}

#[test]
fn offsets_count_quarters_to_the_gate() {
    let now = Timestamp::from_secs(NOW);
    let first = next_quarter_boundary(now);
    assert_eq!(offset_to_gate(first, now), 0);
    let third = Timestamp::from_secs(first.secs + 1800);
    assert_eq!(offset_to_gate(third, now), 2);
}

#[test]
fn seeds_spread_by_offset_and_profile() {
    assert_eq!(maker_seed(10, 3), 13);
    assert_eq!(maker_seed(u64::MAX, 3), 2);
    assert_eq!(aggressor_seed(10, 3, 2), 312);
}

#[test]
fn references_average_over_areas() {
    assert_eq!(mean_reference(&vec![d("80"), d("91")]), Some(d("85.5")));
    assert_eq!(mean_reference(&vec![d("80.123")]), Some(d("80.123")));
    assert_eq!(mean_reference(&vec![]), None);
}

#[test]
fn boundaries_before_the_epoch() {
    for (now, next) in [(-1, 0), (-900, 0), (-901, -900), (0, 900), (899, 900), (900, 1800)] {
        assert_eq!(next_quarter_boundary(Timestamp::from_secs(now)).secs, next);
    }
}
