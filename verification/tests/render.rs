use tradingsim::market::DeliveryDuration;
use tradingsim::render::{
    command_path, decimal_proto, duration_proto, fmt_short_time, join, parse_period_start,
    render_book_line, render_order_line, render_public_trade_line, render_scenario_brief,
    render_trade_line, side_name, state_name, ScenarioBrief,
};
use tradingsim::scenarios::Command;
use tradingsim::text::{sorted_distinct, text_not_after, write_int, write_nat};
use tradingsim::time::Timestamp;
use tradingsim::wire;

// 2026-05-13T08:00:00Z
const EIGHT: i64 = 1778659200;

fn area(code: &str) -> Option<wire::DeliveryArea> {
    Some(wire::DeliveryArea { code: code.to_string(), code_type: 1 })
}

fn price(text: &str) -> Option<wire::Price> {
    Some(wire::Price { amount: Some(wire::Decimal { value: text.to_string() }), currency: 3 })
}

fn power(text: &str) -> Option<wire::Power> {
    Some(wire::Power { mw: Some(wire::Decimal { value: text.to_string() }) })
}

fn period() -> Option<wire::DeliveryPeriod> {
    Some(wire::DeliveryPeriod {
        start: Some(wire::Timestamp { seconds: EIGHT, nanos: 0 }),
        duration: 2,
    })
}

#[test]
fn numbers_as_text() {
    assert_eq!(write_nat(0), "0");
    assert_eq!(write_nat(u64::MAX), "18446744073709551615");
    assert_eq!(write_int(-42), "-42");
    assert_eq!(write_int(i64::MIN), "-9223372036854775808");
}

#[test]
fn texts_are_ordered_and_joined() {
    assert_eq!(join(&vec!["a", "", "bc"]), "abc");
    assert!(text_not_after("abc", "abd"));
    assert!(text_not_after("ab", "abc"));
    assert!(!text_not_after("b", "abc"));
    let list = vec!["b".to_string(), "a".to_string(), "b".to_string()];
    assert_eq!(sorted_distinct(&list), vec!["a".to_string(), "b".to_string()]);
}

#[test]
fn times_of_day() {
    let at = |seconds: i64, nanos: i32| fmt_short_time(Some(wire::Timestamp { seconds, nanos }));
    assert_eq!(at(EIGHT + 3723, 0), "09:02:03");
    assert_eq!(at(-1, 0), "23:59:59");
    assert_eq!(at(i64::MAX, 0), "?");
    assert_eq!(at(EIGHT, -1), "?");
    assert_eq!(fmt_short_time(None), "?");
}

#[test]
fn names_of_sides_and_states() {
    assert_eq!(side_name(1), "Buy");
    assert_eq!(side_name(9), "?");
    assert_eq!(state_name(2), "Active");
    assert_eq!(state_name(99), "?");
}

#[test]
fn lines_hold_what_they_are_about() {
    let trade = wire::Trade {
        id: 3,
        order_id: 7,
        side: 1,
        delivery_area: area("TN"),
        delivery_period: period(),
        execution_time: None,
        price: price("85"),
        quantity: power("0.5"),
        state: 1,
    };
    let line = render_trade_line(&trade);
    for part in ["trade#3", "order#7", "Buy", "0.5", "85", "08:00:00", "TN"] {
        assert!(line.contains(part), "{line}");
    }
    let public = wire::PublicTrade {
        id: 4,
        buy_delivery_area: area("TN"),
        sell_delivery_area: area("FR"),
        delivery_period: period(),
        execution_time: None,
        price: price("85"),
        quantity: power("0.5"),
        state: 1,
    };
    assert_eq!(
        render_public_trade_line(&public),
        "public#4 0.5 MW @ 85 EUR (delivery 08:00:00, TN -> FR)"
    );
    let same = wire::PublicTrade { sell_delivery_area: area("TN"), ..public };
    assert_eq!(
        render_public_trade_line(&same),
        "public#4 0.5 MW @ 85 EUR (delivery 08:00:00, TN)"
    );
    let order = wire::OrderDetail {
        order_id: 9,
        order: None,
        state_detail: None,
        open_quantity: power("1"),
        filled_quantity: None,
        create_time: None,
        modification_time: None,
    };
    assert!(render_order_line(&order).contains("9"));
    let book = wire::PublicOrderBookRecord {
        id: 5,
        delivery_area: area("TN"),
        delivery_period: period(),
        order_type: None,
        side: 2,
        price: price("85"),
        quantity: power("0"),
        execution_option: None,
        create_time: None,
        update_time: None,
    };
    let line = render_book_line(&book);
    assert!(line.starts_with("book#5 Sell 0 MW @ 85"), "{line}");
}

#[test]
fn scenario_lines_and_paths() {
    let brief = ScenarioBrief {
        name: Some("alpha".to_string()),
        current: Some(1),
        stages: vec![Some("overnight".to_string()), Some("morning".to_string())],
        manual: true,
        wall: Some(0),
        description: "test".to_string(),
    };
    let line = render_scenario_brief(&brief);
    assert!(line.starts_with("alpha                    "), "{line}");
    for part in ["morning", "[manual]", "now=overnight", "test"] {
        assert!(line.contains(part), "{line}");
    }
    assert_eq!(command_path("alpha", Command::Jump(2)), "/api/scenarios/alpha/jump/2");
    assert_eq!(command_path("alpha", Command::Stop), "/api/scenarios/alpha/stop");
}

#[test]
fn arguments_of_the_client() {
    assert_eq!(duration_proto(15), Ok(DeliveryDuration::QuarterHour));
    assert_eq!(
        duration_proto(7),
        Err("invalid duration 7 (allowed: 5, 15, 30, 60)".to_string())
    );
    assert_eq!(decimal_proto("85.50").unwrap().value, "85.50");
    assert!(decimal_proto("x").unwrap_err().starts_with("bad decimal \"x\": "));
}

#[test]
fn period_starts_are_instants_or_offsets() {
    let now = Timestamp::from_secs(EIGHT + 420);
    let given = parse_period_start("2026-05-13T12:00:00Z", now).unwrap().unwrap();
    assert_eq!(given, Timestamp::from_secs(EIGHT + 4 * 3600));
    let next = parse_period_start("next", now).unwrap().unwrap();
    assert_eq!(next, Timestamp::from_secs(EIGHT + 900));
    let third = parse_period_start("+2", now).unwrap().unwrap();
    assert_eq!(third, Timestamp::from_secs(EIGHT + 3 * 900));
    assert!(parse_period_start("+9000000000000000", now).is_none());
    // A sign may follow the plus, and zeros may lead.
    assert_eq!(parse_period_start("++0002", now).unwrap().unwrap(), third);
    assert_eq!(parse_period_start("+-1", now).unwrap().unwrap(), plus_quarters(next, -1));
    for bad in ["+", "+-", "+ 1", "+1_0", "+9223372036854775808"] {
        assert!(parse_period_start(bad, now).unwrap().is_err());
    }
    let err = parse_period_start("+x", now).unwrap().unwrap_err();
    assert!(err.starts_with("bad quarter offset \"x\": "), "{err}");
    let err = parse_period_start("yesterday", now).unwrap().unwrap_err();
    assert!(err.starts_with("bad timestamp \"yesterday\": "), "{err}");
}

fn plus_quarters(t: Timestamp, n: i64) -> Timestamp {
    Timestamp { secs: t.secs + 900 * n, ..t }
}
