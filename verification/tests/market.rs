use chrono::TimeZone;
use tradingsim::decimal::Decimal;
use tradingsim::market::{
    Area, CodeType, Currency, DeliveryDuration, DeliveryPeriod, MarketRegistry, MarketRules,
};
use tradingsim::time::Timestamp;

fn d(text: &str) -> Decimal {
    Decimal::parse(text).unwrap()
}

fn at(h: u32, m: u32, s: u32) -> Timestamp {
    Timestamp::from_secs(
        chrono::Utc.with_ymd_and_hms(2026, 5, 13, h, m, s).unwrap().timestamp(),
    )
}

#[test]
fn duration_minutes_roundtrip() {
    for d in [
        DeliveryDuration::FiveMin,
        DeliveryDuration::QuarterHour,
        DeliveryDuration::HalfHour,
        DeliveryDuration::Hour,
    ] {
        assert_eq!(DeliveryDuration::from_minutes(d.as_minutes()), Some(d));
    }
    assert_eq!(DeliveryDuration::from_minutes(7), None);
}

#[test]
fn period_alignment_for_each_duration() {
    let on_hour = at(12, 0, 0);
    let on_quarter = at(12, 15, 0);
    let off_grid = at(12, 7, 0);

    assert!(DeliveryPeriod { start: on_hour, duration: DeliveryDuration::Hour }.is_aligned());
    assert!(DeliveryPeriod { start: on_hour, duration: DeliveryDuration::QuarterHour }.is_aligned());
    assert!(DeliveryPeriod { start: on_quarter, duration: DeliveryDuration::QuarterHour }.is_aligned());
    assert!(!DeliveryPeriod { start: on_quarter, duration: DeliveryDuration::Hour }.is_aligned());
    assert!(!DeliveryPeriod { start: off_grid, duration: DeliveryDuration::QuarterHour }.is_aligned());
}

#[test]
fn period_end_adds_duration() {
    let p = DeliveryPeriod { start: at(12, 0, 0), duration: DeliveryDuration::QuarterHour };
    assert_eq!(p.end(), at(12, 15, 0));
}

#[test]
fn registry_round_trips_rules() {
    let mut reg = MarketRegistry::new();
    let rules = MarketRules::de_lu();
    let area = rules.area.clone();
    reg.insert(rules);
    let got = reg.get(&area).unwrap();
    assert_eq!(got.currency, Currency::Eur);
    assert_eq!(got.price_tick, d("0.01"));
    assert!(got.allows(DeliveryDuration::Hour));
    assert!(!got.allows(DeliveryDuration::QuarterHour));
}

#[test]
fn alignment_is_to_the_second() {
    let p = DeliveryPeriod { start: at(12, 0, 1), duration: DeliveryDuration::Hour };
    assert!(!p.is_aligned());
    // 1969-12-31T23:59:00Z.
    let before = DeliveryPeriod {
        start: Timestamp::from_secs(-60),
        duration: DeliveryDuration::FiveMin,
    };
    assert!(!before.is_aligned());
}

#[test]
fn registering_again_replaces() {
    let mut reg = MarketRegistry::new();
    assert!(reg.is_empty());
    reg.insert(MarketRules::default_for_tests());
    let mut finer = MarketRules::default_for_tests();
    finer.price_tick = d("0.001");
    reg.insert(finer);
    assert_eq!(reg.len(), 1);
    let got = reg.get(&Area::eic("10YDE-EON------1")).unwrap();
    assert_eq!(got.price_tick, d("0.001"));
    assert_eq!(got.qty_step, d("0.1"));
}

#[test]
fn areas_differ_by_code_and_by_scheme() {
    let de = Area::eic("10YDE-EON------1");
    assert!(de == Area::eic("10YDE-EON------1"));
    assert!(de != Area::eic("10YFR-RTE------C"));
    assert!(de != Area { code: "10YDE-EON------1".to_string(), code_type: CodeType::UsNerc });
}
