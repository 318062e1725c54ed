use chrono::TimeZone;
use tradingsim::decimal::Decimal;
use tradingsim::gridpool::{Gridpool, GridpoolRegistry, SelfTradePolicy};
use tradingsim::market::{Area, Currency, DeliveryDuration, DeliveryPeriod};
use tradingsim::order::{
    GridpoolId, MarketActor, Order, OrderDetail, OrderId, OrderState, OrderType, Side,
    StateDetail, StateReason,
};
use tradingsim::time::Timestamp;

fn d(text: &str) -> Decimal {
    Decimal::parse(text).unwrap()
}

fn at(h: u32) -> Timestamp {
    Timestamp::from_secs(
        chrono::Utc.with_ymd_and_hms(2026, 5, 13, h, 0, 0).unwrap().timestamp(),
    )
}

fn sample_detail(id: u64, state: OrderState) -> OrderDetail {
    OrderDetail {
        id: OrderId(id),
        order: Order {
            area: Area::eic("10YDE-EON------1"),
            period: DeliveryPeriod { start: at(12), duration: DeliveryDuration::QuarterHour },
            order_type: OrderType::Limit,
            side: Side::Buy,
            price: d("85.0"),
            currency: Currency::Eur,
            quantity: d("1.0"),
            stop_price: None,
            peak_price_delta: None,
            display_quantity: None,
            execution_option: None,
            valid_until: None,
            payload: None,
            tag: None,
        },
        state: StateDetail { state, reason: StateReason::Add, actor: MarketActor::User },
        open_quantity: d("1.0"),
        filled_quantity: d("0"),
        create_time: at(8),
        modification_time: at(8),
    }
}

#[test]
fn record_then_get() {
    let mut gp = Gridpool::new(GridpoolId(1), "test", vec![Area::eic("10YDE-EON------1")]);
    assert!(gp.record_order(sample_detail(7, OrderState::Active)));
    assert!(gp.get_order(OrderId(7)).is_some());
    assert!(gp.get_order(OrderId(99)).is_none());
}

#[test]
fn duplicate_admit_rejected() {
    let mut gp = Gridpool::new(GridpoolId(1), "test", vec![]);
    assert!(gp.record_order(sample_detail(7, OrderState::Active)));
    assert!(!gp.record_order(sample_detail(7, OrderState::Filled)));
    assert_eq!(gp.get_order(OrderId(7)).unwrap().state.state, OrderState::Active);
}

#[test]
fn update_in_place() {
    let mut gp = Gridpool::new(GridpoolId(1), "test", vec![]);
    gp.record_order(sample_detail(7, OrderState::Active));
    let updated = gp.update_order(OrderId(7), |mut d: OrderDetail| {
        d.state.state = OrderState::Canceled;
        d.state.reason = StateReason::Delete;
        d
    });
    assert!(updated);
    assert_eq!(gp.get_order(OrderId(7)).unwrap().state.state, OrderState::Canceled);
}

#[test]
fn update_missing_returns_false() {
    let mut gp = Gridpool::new(GridpoolId(1), "test", vec![]);
    assert!(!gp.update_order(OrderId(7), |d: OrderDetail| d));
}

#[test]
fn allows_area_membership() {
    let de = Area::eic("10YDE-EON------1");
    let fr = Area::eic("10YFR-RTE------C");
    let gp = Gridpool::new(GridpoolId(1), "test", vec![de.clone()]);
    assert!(gp.allows_area(&de));
    assert!(!gp.allows_area(&fr));
}

#[test]
fn registry_round_trip() {
    let mut reg = GridpoolRegistry::new();
    reg.insert(Gridpool::new(GridpoolId(1), "a", vec![]));
    reg.insert(Gridpool::new(GridpoolId(2), "b", vec![]));
    assert_eq!(reg.len(), 2);
    assert_eq!(reg.get(GridpoolId(1)).unwrap().label(), "a");
    assert!(reg.get(GridpoolId(99)).is_none());
}

#[test]
fn pools_reject_self_trades_unless_told_otherwise() {
    let gp = Gridpool::new(GridpoolId(1), "test", vec![]);
    assert_eq!(gp.self_trade_policy(), SelfTradePolicy::Reject);
    let gp = gp.with_self_trade_policy(SelfTradePolicy::Allow);
    assert_eq!(gp.self_trade_policy(), SelfTradePolicy::Allow);
    assert_eq!(gp.number(), GridpoolId(1));
}

#[test]
fn orders_come_in_the_order_of_recording() {
    let mut gp = Gridpool::new(GridpoolId(1), "test", vec![]);
    for id in [9, 3, 5] {
        gp.record_order(sample_detail(id, OrderState::Active));
    }
    let ids: Vec<u64> = gp.orders().iter().map(|d| d.id.0).collect();
    assert_eq!(ids, vec![9, 3, 5]);
    assert_eq!(gp.order_count(), 3);
    assert_eq!(gp.order_at(1).id, OrderId(3));
    assert!(gp.trades().is_empty());
}
