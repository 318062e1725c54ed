use chrono::TimeZone;
use tradingsim::decimal::Decimal;
use tradingsim::market::{Area, CodeType, Currency, DeliveryDuration, DeliveryPeriod};
use tradingsim::order::{
    ExecutionOption, MarketActor, Order, OrderDetail, OrderId, OrderState, OrderType, Side,
    StateDetail, StateReason,
};
use tradingsim::proto_conv::{
    area_from_proto, area_to_proto, decimal_from_proto, decimal_to_proto, decode_enum,
    decode_enum_no_unspecified, detail_from_proto, detail_to_proto, order_from_proto,
    order_to_proto, period_from_proto, period_to_proto, price_to_proto, public_trade_from_proto,
    public_trade_to_proto, timestamp_from_proto, timestamp_to_proto, trade_from_proto,
    trade_to_proto, ConvError, WireEnum,
};
use tradingsim::time::Timestamp;
use tradingsim::trade::{PublicTrade, Trade, TradeId, TradeState};
use tradingsim::wire;

fn d(text: &str) -> Decimal {
    Decimal::parse(text).unwrap()
}

fn at(h: u32, m: u32, s: u32) -> Timestamp {
    Timestamp::from_secs(
        chrono::Utc.with_ymd_and_hms(2026, 5, 13, h, m, s).unwrap().timestamp(),
    )
}

#[test]
fn decimal_round_trip() {
    for raw in ["0", "1", "-12.345", "85.50", "0.00001"] {
        let proto = wire::Decimal { value: raw.to_string() };
        let sim = decimal_from_proto(&proto).unwrap();
        let back = decimal_to_proto(sim);
        assert_eq!(Decimal::parse(&back.value).unwrap(), sim);
    }
}

#[test]
fn timestamp_round_trip() {
    let dt = Timestamp { nanos: 789, ..at(12, 34, 56) };
    let proto = timestamp_to_proto(dt);
    assert_eq!(proto.nanos, 789);
    assert_eq!(timestamp_from_proto(&proto).unwrap(), dt);
}

#[test]
fn timestamp_rejects_invalid_nanos() {
    let bad = wire::Timestamp { seconds: 0, nanos: -1 };
    assert_eq!(timestamp_from_proto(&bad).unwrap_err(), ConvError::InvalidTimestamp);
}

#[test]
fn area_round_trip() {
    let sim = Area::eic("10YDE-EON------1");
    let p = area_to_proto(&sim);
    assert_eq!(p.code, sim.code);
    assert_eq!(p.code_type, CodeType::EuropeEic.to_wire());
    let back = area_from_proto(&p).unwrap();
    assert_eq!(back, sim);
}

#[test]
fn area_rejects_unspecified() {
    let bad = wire::DeliveryArea { code: "X".into(), code_type: 0 };
    let err = area_from_proto(&bad).unwrap_err();
    assert!(matches!(err, ConvError::UnknownEnum { field: "EnergyMarketCodeType", .. }));
}

#[test]
fn delivery_period_round_trip() {
    let sim = DeliveryPeriod { start: at(12, 0, 0), duration: DeliveryDuration::QuarterHour };
    let p = period_to_proto(sim);
    assert_eq!(period_from_proto(&p).unwrap(), sim);
}

fn sample_order() -> Order {
    Order {
        area: Area::eic("10YDE-EON------1"),
        period: DeliveryPeriod { start: at(12, 0, 0), duration: DeliveryDuration::Hour },
        order_type: OrderType::Limit,
        side: Side::Buy,
        price: d("85.50"),
        currency: Currency::Eur,
        quantity: d("1.5"),
        stop_price: None,
        peak_price_delta: None,
        display_quantity: None,
        execution_option: None,
        valid_until: None,
        payload: None,
        tag: Some("strategy=arb".into()),
    }
}

#[test]
fn order_round_trip_minimal() {
    let sim = sample_order();
    let proto = order_to_proto(&sim);
    let back = order_from_proto(&proto).unwrap();
    assert_eq!(back, sim);
}

#[test]
fn order_currency_mismatch_on_stop_price() {
    let proto = wire::Order {
        stop_price: Some(price_to_proto(d("80.0"), Currency::Usd)),
        ..order_to_proto(&sample_order())
    };
    assert!(matches!(
        order_from_proto(&proto).unwrap_err(),
        ConvError::UnknownEnum { field: "Order.stop_price.currency", .. }
    ));
}

#[test]
fn full_orders_round_trip() {
    let sim = Order {
        stop_price: Some(d("80")),
        peak_price_delta: Some(d("0.5")),
        display_quantity: Some(d("0.1")),
        execution_option: Some(ExecutionOption::Fok),
        valid_until: Some(at(11, 0, 0)),
        payload: Some("{\"plan\":1}".to_string()),
        ..sample_order()
    };
    let back = order_from_proto(&order_to_proto(&sim)).unwrap();
    assert_eq!(back, sim);
}

#[test]
fn missing_fields_are_named() {
    let proto = wire::Order { price: None, ..order_to_proto(&sample_order()) };
    let err = order_from_proto(&proto).unwrap_err();
    assert!(matches!(err, ConvError::MissingField(_)));
    assert!(err.to_text().contains("price"));
}

#[test]
fn bad_decimals_are_quoted() {
    let err = decimal_from_proto(&wire::Decimal { value: "12,5".into() }).unwrap_err();
    assert_eq!(err, ConvError::InvalidDecimal("12,5".into()));
    assert!(err.to_text().contains("12,5"));
}

#[test]
fn instants_reach_as_far_as_the_calendar() {
    // The largest and the smallest second that the calendar knows.
    let last = chrono::DateTime::<chrono::Utc>::MAX_UTC.timestamp();
    let first = chrono::DateTime::<chrono::Utc>::MIN_UTC.timestamp();
    for seconds in [first, last] {
        assert!(timestamp_from_proto(&wire::Timestamp { seconds, nanos: 0 }).is_ok());
    }
    for seconds in [first - 1, last + 1, i64::MAX, i64::MIN] {
        let far = wire::Timestamp { seconds, nanos: 0 };
        assert_eq!(timestamp_from_proto(&far), Err(ConvError::InvalidTimestamp));
    }
    // Leap seconds do not travel.
    let over = wire::Timestamp { seconds: 59, nanos: 1_000_000_000 };
    assert_eq!(timestamp_from_proto(&over), Err(ConvError::InvalidTimestamp));
}

#[test]
fn enumerations_decode_or_name_their_field() {
    assert_eq!(decode_enum::<Side>(1, "side"), Ok(Side::Buy));
    assert_eq!(decode_enum::<Side>(0, "side"), Ok(Side::Unspecified));
    assert_eq!(
        decode_enum_no_unspecified::<Side>(0, "side"),
        Err(ConvError::UnknownEnum { field: "side", value: 0 })
    );
    assert_eq!(
        decode_enum::<Side>(17, "side"),
        Err(ConvError::UnknownEnum { field: "side", value: 17 })
    );
}

#[test]
fn details_and_trades_round_trip() {
    let detail = OrderDetail {
        id: OrderId(7),
        order: sample_order(),
        state: StateDetail {
            state: OrderState::Active,
            reason: StateReason::PartialExecution,
            actor: MarketActor::User,
        },
        open_quantity: d("1"),
        filled_quantity: d("0.5"),
        create_time: at(8, 0, 0),
        modification_time: at(9, 0, 0),
    };
    let back = detail_from_proto(&detail_to_proto(&detail)).unwrap();
    assert_eq!(back.id, detail.id);
    assert_eq!(back.order, detail.order);
    assert_eq!(back.state, detail.state);
    assert_eq!(back.open_quantity, detail.open_quantity);
    assert_eq!(back.filled_quantity, detail.filled_quantity);
    assert_eq!(back.modification_time, detail.modification_time);

    let trade = Trade {
        id: TradeId(3),
        order_id: OrderId(7),
        side: Side::Sell,
        area: Area::eic("10YDE-EON------1"),
        period: sample_order().period,
        execution_time: at(9, 0, 0),
        price: d("85.5"),
        currency: Currency::Eur,
        quantity: d("0.5"),
        state: TradeState::Active,
    };
    let back = trade_from_proto(&trade_to_proto(&trade)).unwrap();
    assert_eq!(back.id, trade.id);
    assert_eq!(back.side, trade.side);
    assert_eq!(back.price, trade.price);

    let public = PublicTrade {
        id: TradeId(3),
        buy_area: Area::eic("10YDE-EON------1"),
        sell_area: Area::eic("10YFR-RTE------C"),
        period: sample_order().period,
        execution_time: at(9, 0, 0),
        price: d("85.5"),
        currency: Currency::Eur,
        quantity: d("0.5"),
        state: TradeState::Active,
    };
    let back = public_trade_from_proto(&public_trade_to_proto(&public)).unwrap();
    assert_eq!(back.buy_area, public.buy_area);
    assert_eq!(back.sell_area, public.sell_area);
    assert_eq!(back.quantity, public.quantity);
}
