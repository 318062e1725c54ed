use tradingsim::decimal::{
    checked_snap, default_price_tick, default_qty_step, is_multiple_of, snap_to_tick, Decimal,
};

fn d(text: &str) -> Decimal {
    Decimal::parse(text).unwrap()
}

#[test]
fn snap_rounds_to_nearest_tick() {
    let tick = d("0.01");
    assert_eq!(snap_to_tick(d("85.504"), tick), d("85.50"));
    assert_eq!(snap_to_tick(d("85.505"), tick), d("85.51"));
    assert_eq!(snap_to_tick(d("-85.505"), tick), d("-85.51"));
}

#[test]
fn snap_is_identity_on_grid() {
    let tick = d("0.01");
    for v in [d("0"), d("0.01"), d("85.50"), d("-12.34")] {
        assert_eq!(snap_to_tick(v, tick), v);
    }
}

#[test]
fn snap_with_coarse_tick() {
    let tick = d("0.5");
    assert_eq!(snap_to_tick(d("1.24"), tick), d("1.0"));
    assert_eq!(snap_to_tick(d("1.26"), tick), d("1.5"));
}

#[test]
fn is_multiple_of_grid_alignment() {
    let step = d("0.1");
    assert!(is_multiple_of(d("0.1"), step));
    assert!(is_multiple_of(d("2.5"), step));
    assert!(is_multiple_of(d("0"), step));
    assert!(!is_multiple_of(d("0.15"), step));
    assert!(!is_multiple_of(d("2.55"), step));
}

#[test]
fn is_multiple_of_handles_negatives() {
    let step = d("0.01");
    assert!(is_multiple_of(d("-12.34"), step));
    assert!(!is_multiple_of(d("-12.345"), step));
}

#[test]
fn defaults_are_a_cent_and_a_tenth() {
    assert_eq!(default_price_tick(), d("0.01"));
    assert_eq!(default_qty_step(), d("0.1"));
}

#[test]
fn arithmetic_is_exact_on_ordinary_numbers() {
    assert_eq!(d("1.25").plus(d("0.05")), d("1.3"));
    assert_eq!(d("1.25").minus(d("2")), d("-0.75"));
    assert_eq!(d("1.25").checked_plus(d("0.05")), Some(d("1.30")));
    assert_eq!(d("1.25").checked_minus(d("0.05")), Some(d("1.20")));
    assert_eq!(d("0.02").checked_times(d("4.9")), Some(d("0.098")));
    assert_eq!(d("85.5").checked_over(d("3")), Some(d("28.5")));
    assert_eq!(d("1").checked_over(d("0")), None);
}

#[test]
fn arithmetic_past_the_largest_mantissa_gives_nothing() {
    let most = d("79228162514264337593543950335");
    assert_eq!(most.checked_plus(d("1")), None);
    assert_eq!(d("-79228162514264337593543950335").checked_minus(d("1")), None);
    assert_eq!(most.checked_times(d("2")), None);
    assert_eq!(most.checked_plus(d("0")), Some(most));
}

#[test]
fn order_is_by_value_not_by_scale() {
    assert!(d("1.10") == d("1.1"));
    assert!(d("1.10").same(d("1.1")));
    assert!(d("-2").less(d("1.5")));
    assert!(!d("1.50").less(d("1.5")));
    assert_eq!(d("3").min(d("2.9")), d("2.9"));
    assert_eq!(d("3").max(d("2.9")), d("3"));
}

#[test]
fn text_is_normalised() {
    assert_eq!(d("85.00").to_text(), "85");
    assert_eq!(d("-12.340").to_text(), "-12.34");
    assert_eq!(Decimal::zero().to_text(), "0");
    assert_eq!(Decimal::new(12345, 3).to_text(), "12.345");
}

#[test]
fn what_is_no_decimal_is_refused_with_a_reason() {
    assert!(Decimal::parse("not-a-number").is_none());
    let why = Decimal::read("not-a-number").unwrap_err();
    assert!(!why.is_empty());
    assert_eq!(Decimal::read("1.5"), Ok(d("1.5")));
}

#[test]
fn parts_and_steps() {
    let (mantissa, scale) = d("12.5").parts();
    assert_eq!(Decimal::from_parts(mantissa, scale), Some(d("12.5")));
    assert_eq!(Decimal::from_parts(1, 29), None);
    assert_eq!(d("12.50").steps(1), Some(125));
    assert_eq!(d("12.55").steps(1), None);
    assert!(Decimal::zero().is_zero());
    assert!(!d("0.01").is_zero());
}

#[test]
fn snapping_to_no_tick_gives_nothing() {
    assert_eq!(checked_snap(d("1.26"), d("0.5")), Some(d("1.5")));
    assert_eq!(checked_snap(d("1.26"), d("0")), None);
}

#[test]
fn floors_and_ceilings_lie_on_either_side() {
    let d = |t: &str| tradingsim::decimal::Decimal::parse(t).unwrap();
    for (v, floor, ceiling) in [
        ("1.234", "1.23", "1.24"),
        ("-1.234", "-1.24", "-1.23"),
        ("0.001", "0", "0.01"),
        ("-0.001", "-0.01", "0"),
        ("5", "5", "5"),
        ("-45.00", "-45", "-45"),
        ("79228162514264337593543950335", "79228162514264337593543950335", "79228162514264337593543950335"),
    ] {
        assert_eq!(d(v).floor(2), d(floor));
        assert_eq!(d(v).ceiling(2), d(ceiling));
    }
}
