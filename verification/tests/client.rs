use tradingsim::client::{
    book_filter, order_selection, place_request, tape_filter, trade_selection, update_request,
    PlaceArgs,
};
use tradingsim::decimal::Decimal;
use tradingsim::market::{Area, CodeType, Currency, DeliveryDuration};
use tradingsim::order::{ExecutionOption, OrderState, OrderType, Side};
use tradingsim::proto_conv::{order_from_proto, WireEnum};
use tradingsim::service::{read_update, wants_record, BookFilter};
use tradingsim::time::Timestamp;
use tradingsim::trade::TradeState;
use tradingsim::wire;

// 2026-05-13T08:07:00Z
const NOW: i64 = 1778659620;

fn now() -> Timestamp {
    Timestamp::from_secs(NOW)
}

fn args() -> PlaceArgs {
    PlaceArgs {
        side: Side::Buy,
        price: "-5.00".to_string(),
        qty: "1.0".to_string(),
        start: "next".to_string(),
        duration: 15,
        tag: Some("strategy=arb".to_string()),
        area: "10YDE-EON------1".to_string(),
        restriction: Some(ExecutionOption::Ioc),
    }
}

#[test]
fn what_is_sent_is_understood() {
    let sent = place_request(args(), now()).unwrap().unwrap();
    let read = order_from_proto(&sent).unwrap();
    assert_eq!(read.area, Area::eic("10YDE-EON------1"));
    // 08:15:00
    assert_eq!(read.period.start, Timestamp::from_secs(1778660100));
    assert_eq!(read.period.duration, DeliveryDuration::QuarterHour);
    assert_eq!(read.order_type, OrderType::Limit);
    assert_eq!(read.side, Side::Buy);
    assert_eq!(Some(read.price), Decimal::parse("-5"));
    assert_eq!(read.currency, Currency::Eur);
    assert_eq!(Some(read.quantity), Decimal::parse("1"));
    assert_eq!(read.execution_option, Some(ExecutionOption::Ioc));
    assert_eq!(read.tag.as_deref(), Some("strategy=arb"));
}

#[test]
fn the_first_word_that_does_not_read_is_complained_of() {
    let complaint = |a: PlaceArgs| place_request(a, now()).unwrap().unwrap_err();
    let bad = PlaceArgs { start: "+x".to_string(), duration: 7, ..args() };
    assert!(complaint(bad).starts_with("bad quarter offset \"x\": "));
    let bad = PlaceArgs { duration: 7, price: "x".to_string(), ..args() };
    assert_eq!(complaint(bad), "invalid duration 7 (allowed: 5, 15, 30, 60)");
    let bad = PlaceArgs { price: "x".to_string(), qty: "y".to_string(), ..args() };
    assert!(complaint(bad).starts_with("bad decimal \"x\": "));
    let bad = PlaceArgs { qty: "y".to_string(), ..args() };
    assert!(complaint(bad).starts_with("bad decimal \"y\": "));
    let far = PlaceArgs { start: "+9000000000000000".to_string(), ..args() };
    assert!(place_request(far, now()).is_none());
}

#[test]
fn updates_name_what_they_change() {
    let f = update_request(Some("86.00".to_string()), None, None).unwrap();
    let u = read_update(&f).unwrap();
    assert_eq!(u.price, Decimal::parse("86"));
    assert_eq!(u.quantity, None);
    assert!(u.tag.is_none());
    let err = update_request(None, Some("much".to_string()), None).unwrap_err();
    assert!(err.starts_with("bad decimal \"much\": "));
}

#[test]
fn selections_and_filters() {
    let s = order_selection(&vec![OrderState::Active, OrderState::Filled], Some(Side::Sell));
    assert_eq!(s.states, vec![OrderState::Active.to_wire(), OrderState::Filled.to_wire()]);
    assert_eq!(s.side, Some(Side::Sell.to_wire()));
    let s = trade_selection(None);
    assert_eq!(s.states, vec![TradeState::Active.to_wire()]);
    assert_eq!(s.side, None);
    let t = tape_filter(Some("10YFR-RTE------C"), None);
    assert_eq!(t.buy_area, Some(Area::eic("10YFR-RTE------C")));
    assert_eq!(t.sell_area, None);
    assert_eq!(t.states, vec![TradeState::Active.to_wire()]);
    let b = book_filter(Some("10YFR-RTE------C"), Some(Side::Buy));
    assert_eq!(b.area.unwrap().code_type, CodeType::EuropeEic.to_wire());
    assert_eq!(b.side, Some(Side::Buy.to_wire()));
}

#[test]
fn book_changes_are_filtered() {
    let record = wire::PublicOrderBookRecord {
        id: 5,
        delivery_area: Some(wire::DeliveryArea { code: "TN".to_string(), code_type: 1 }),
        delivery_period: None,
        order_type: None,
        side: 2,
        price: None,
        quantity: None,
        execution_option: None,
        create_time: None,
        update_time: None,
    };
    assert!(wants_record(&BookFilter { period: None, area: None, side: None }, &record));
    assert!(wants_record(&book_filter(Some("TN"), Some(Side::Sell)), &record));
    assert!(!wants_record(&book_filter(Some("FR"), None), &record));
    assert!(!wants_record(&book_filter(None, Some(Side::Buy)), &record));
    let period = wire::DeliveryPeriod { start: None, duration: 2 };
    assert!(!wants_record(&BookFilter { period: Some(period), area: None, side: None }, &record));
}
