use tradingsim::decimal::Decimal;
use tradingsim::gridpool::{Gridpool, SelfTradePolicy};
use tradingsim::market::{Area, CodeType, Currency, DeliveryDuration, MarketRegistry, MarketRules};
use tradingsim::model::SubmitError;
use tradingsim::order::{ExecutionOption, GridpoolId, OrderState, OrderType, Side};
use tradingsim::proto_conv::{public_trade_to_proto, ConvError, WireEnum};
use tradingsim::service::{
    cancel_all_gridpool_orders, cancel_gridpool_order, conv_err_to_status,
    create_gridpool_order, get_gridpool_order, list_gridpool_orders, list_gridpool_trades,
    pinned_tape_closes, submit_err_to_status, update_gridpool_order, wants_order,
    wants_public_trade, wants_trade, Code, Selection, TapeFilter, UpdateFields,
};
use tradingsim::time::Timestamp;
use tradingsim::wire;
use tradingsim::world::World;

// 2026-05-13T08:07:00Z
const NOW: i64 = 1778659620;

fn now() -> Timestamp {
    Timestamp::from_secs(NOW)
}

fn exchange() -> World {
    let mut markets = MarketRegistry::new();
    markets.insert(MarketRules::for_area(Area::eic("10Y1001A1001A82H"), Currency::Eur));
    let mut world = World::new(markets);
    // Several tests cross a buy and a sell from the same pool to exercise the
    // matcher and the trade streams.
    world.register_gridpool(
        Gridpool::new(GridpoolId(1), "test", vec![Area::eic("10Y1001A1001A82H")])
            .with_self_trade_policy(SelfTradePolicy::Allow),
    );
    world
}

fn price(amount: &str) -> wire::Price {
    wire::Price {
        amount: Some(wire::Decimal { value: amount.to_string() }),
        currency: Currency::Eur.to_wire(),
    }
}

fn power(amount: &str) -> wire::Power {
    wire::Power { mw: Some(wire::Decimal { value: amount.to_string() }) }
}

fn limit_order(side: Side, p: &str, qty: &str) -> wire::Order {
    wire::Order {
        delivery_area: Some(wire::DeliveryArea {
            code: "10Y1001A1001A82H".into(),
            code_type: CodeType::EuropeEic.to_wire(),
        }),
        // Far-future timestamp.
        delivery_period: Some(wire::DeliveryPeriod {
            start: Some(wire::Timestamp { seconds: 4070908800, nanos: 0 }),
            duration: DeliveryDuration::QuarterHour.to_wire(),
        }),
        order_type: OrderType::Limit.to_wire(),
        side: side.to_wire(),
        price: Some(price(p)),
        quantity: Some(power(qty)),
        stop_price: None,
        peak_price_delta: None,
        display_quantity: None,
        execution_option: None,
        valid_until: None,
        payload: None,
        tag: None,
    }
}

fn place(world: &mut World, order: wire::Order) -> wire::OrderDetail {
    create_gridpool_order(world, 1, &Some(order), now()).unwrap().unwrap()
}

fn state_of(d: &wire::OrderDetail) -> i32 {
    d.state_detail.as_ref().unwrap().state
}

#[test]
fn place_then_list_then_cancel() {
    let mut world = exchange();
    // Place a resting buy.
    let order_id = place(&mut world, limit_order(Side::Buy, "85.00", "1.0")).order_id;

    // List shows the active order.
    let listed = list_gridpool_orders(&world, 1, &Selection::all()).unwrap();
    assert_eq!(listed.len(), 1);
    assert_eq!(listed[0].order_id, order_id);
    assert_eq!(state_of(&listed[0]), OrderState::Active.to_wire());

    // Cancel; state flips to Canceled.
    let cancelled = cancel_gridpool_order(&mut world, 1, order_id, now()).unwrap();
    assert_eq!(state_of(&cancelled), OrderState::Canceled.to_wire());

    // Get still finds it (terminal but queryable).
    let got = get_gridpool_order(&world, 1, order_id).unwrap();
    assert_eq!(state_of(&got), OrderState::Canceled.to_wire());
}

#[test]
fn place_crossing_orders_produces_fill() {
    let mut world = exchange();
    place(&mut world, limit_order(Side::Buy, "85.00", "1.0"));
    let sell = place(&mut world, limit_order(Side::Sell, "85.00", "1.0"));
    // Taker fully filled.
    assert_eq!(state_of(&sell), OrderState::Filled.to_wire());

    // Both orders now visible; both terminal.
    let listed = list_gridpool_orders(&world, 1, &Selection::all()).unwrap();
    assert_eq!(listed.len(), 2);
    for d in &listed {
        assert_eq!(state_of(d), OrderState::Filled.to_wire());
    }
}

#[test]
fn stream_receives_live_updates() {
    let mut world = exchange();
    let placed = place(&mut world, limit_order(Side::Buy, "85.00", "1.0"));
    let out = world.take_outbox();
    let evt = out
        .orders
        .iter()
        .find(|e| wants_order(e, 1, &Selection::all()))
        .expect("expected at least one stream item");
    assert_eq!(evt.detail.id.0, placed.order_id);
    assert!(!wants_order(evt, 2, &Selection::all()));
}

#[test]
fn validation_rejection_returns_invalid_argument() {
    let mut world = exchange();
    let bad = wire::Order {
        price: Some(price("85.005")),
        ..limit_order(Side::Buy, "85.00", "1.0")
    };
    let err = create_gridpool_order(&mut world, 1, &Some(bad), now()).unwrap().unwrap_err();
    assert_eq!(err.code, Code::InvalidArgument);
}

#[test]
fn modify_crosses_spread_after_price_bump() {
    let mut world = exchange();
    // Resting sell @ 85.
    place(&mut world, limit_order(Side::Sell, "85.00", "1.0"));
    // Buy @ 84 (below the ask): should rest, not fill.
    let buy_id = place(&mut world, limit_order(Side::Buy, "84.00", "1.0")).order_id;
    // Modify to 86: now crosses the resting sell.
    let fields = UpdateFields {
        price: Some(price("86.00")),
        quantity: None,
        valid_until: None,
        tag: None,
    };
    let after = update_gridpool_order(&mut world, 1, buy_id, &fields, now()).unwrap().unwrap();
    assert_eq!(state_of(&after), OrderState::Filled.to_wire());
}

#[test]
fn updates_in_another_currency_are_refused() {
    let mut world = exchange();
    let id = place(&mut world, limit_order(Side::Buy, "84.00", "1.0")).order_id;
    let in_dollars = wire::Price { currency: Currency::Usd.to_wire(), ..price("83.00") };
    let fields = UpdateFields {
        price: Some(in_dollars),
        quantity: None,
        valid_until: None,
        tag: None,
    };
    let err = update_gridpool_order(&mut world, 1, id, &fields, now()).unwrap().unwrap_err();
    assert_eq!(err.code, Code::InvalidArgument);
    assert_eq!(err.message, "validation: CurrencyMismatch");
    let fields = UpdateFields { price: Some(price("83.00")), ..fields };
    assert!(update_gridpool_order(&mut world, 1, id, &fields, now()).unwrap().is_ok());
}

#[test]
fn fok_insufficient_depth_cancels_no_fills() {
    let mut world = exchange();
    // Resting sell @ 85, 0.5 MW.
    place(&mut world, limit_order(Side::Sell, "85.00", "0.5"));
    // FOK buy @ 85 for 1.0 MW: needs full depth, has 0.5: kill.
    let fok_order = wire::Order {
        execution_option: Some(ExecutionOption::Fok.to_wire()),
        ..limit_order(Side::Buy, "85.00", "1.0")
    };
    let detail = place(&mut world, fok_order);
    assert_eq!(state_of(&detail), OrderState::Canceled.to_wire());
    // 0 filled: FOK never partials.
    let filled = detail
        .filled_quantity
        .as_ref()
        .and_then(|p| p.mw.as_ref())
        .map(|d| d.value.clone());
    assert_eq!(filled.unwrap(), "0");
}

#[test]
fn cancel_all_terminates_every_active_order_for_the_pool() {
    let mut world = exchange();
    // Three resting buys at non-crossing prices so they all sit on the book.
    for price_str in ["80.00", "81.00", "82.00"] {
        place(&mut world, limit_order(Side::Buy, price_str, "1.0"));
    }
    assert_eq!(cancel_all_gridpool_orders(&mut world, 1, now()).unwrap(), 1);
    let listed = list_gridpool_orders(&world, 1, &Selection::all()).unwrap();
    assert_eq!(listed.len(), 3);
    for d in &listed {
        assert_eq!(state_of(d), OrderState::Canceled.to_wire());
    }
}

#[test]
fn cancel_all_unknown_gridpool_returns_not_found() {
    let mut world = exchange();
    let err = cancel_all_gridpool_orders(&mut world, 9999, now()).unwrap_err();
    assert_eq!(err.code, Code::NotFound);
}

#[test]
fn list_gridpool_trades_returns_completed_fills() {
    let mut world = exchange();
    // Cross two orders so a trade lands on the pool's trade index.
    place(&mut world, limit_order(Side::Buy, "85.00", "1.0"));
    place(&mut world, limit_order(Side::Sell, "85.00", "1.0"));
    let listed = list_gridpool_trades(&world, 1, &Selection::all()).unwrap();
    assert!(!listed.is_empty(), "expected at least one trade after crossing fills");
}

#[test]
fn receive_public_trades_stream_emits_each_fill() {
    let mut world = exchange();
    place(&mut world, limit_order(Side::Buy, "85.00", "1.0"));
    place(&mut world, limit_order(Side::Sell, "85.00", "1.0"));
    let out = world.take_outbox();
    let everything = TapeFilter { states: vec![], period: None, buy_area: None, sell_area: None };
    assert!(wants_public_trade(&everything, &out.public_trades[0]));
    let t = public_trade_to_proto(&out.public_trades[0]);
    // The price is normalised: "85.00" comes back as "85".
    assert_eq!(t.price.as_ref().unwrap().amount.as_ref().unwrap().value, "85");
    let elsewhere = TapeFilter { buy_area: Some(Area::eic("10YFR-RTE------C")), ..everything };
    assert!(!wants_public_trade(&elsewhere, &out.public_trades[0]));
}

#[test]
fn receive_gridpool_trades_stream_emits_local_fill() {
    let mut world = exchange();
    place(&mut world, limit_order(Side::Buy, "85.00", "1.0"));
    place(&mut world, limit_order(Side::Sell, "85.00", "1.0"));
    let out = world.take_outbox();
    assert!(out.trades.iter().any(|e| wants_trade(e, 1, &Selection::all())));
    assert!(!out.trades.iter().any(|e| wants_trade(e, 2, &Selection::all())));
}

#[test]
fn unknown_gridpool_returns_not_found() {
    let mut world = exchange();
    let order = Some(limit_order(Side::Buy, "85.00", "1.0"));
    let err = create_gridpool_order(&mut world, 9999, &order, now()).unwrap().unwrap_err();
    assert_eq!(err.code, Code::NotFound);
}

#[test]
fn every_rejection_has_its_code() {
    for (e, code) in [
        (SubmitError::UnknownGridpool, Code::NotFound),
        (SubmitError::OrderNotFound, Code::NotFound),
        (SubmitError::OrderAlreadyTerminal, Code::FailedPrecondition),
        (SubmitError::SelfTradeRejected, Code::FailedPrecondition),
        (SubmitError::SuspendedMarket, Code::FailedPrecondition),
        (SubmitError::UnknownArea, Code::InvalidArgument),
        (SubmitError::GateClosed, Code::InvalidArgument),
        (SubmitError::UnspecifiedSide, Code::InvalidArgument),
        (SubmitError::ValidityElapsed, Code::InvalidArgument),
        (SubmitError::PriceOffGrid, Code::InvalidArgument),
    ] {
        assert_eq!(submit_err_to_status(e).code, code, "{e:?}");
    }
    let status = conv_err_to_status(&ConvError::MissingField("Order.price"));
    assert_eq!(status.code, Code::InvalidArgument);
    assert!(status.message.contains("Order.price"));
}

#[test]
fn requests_without_an_order_are_refused() {
    let mut world = exchange();
    let err = create_gridpool_order(&mut world, 1, &None, now()).unwrap().unwrap_err();
    assert_eq!(err.code, Code::InvalidArgument);
    assert_eq!(get_gridpool_order(&world, 1, 77).unwrap_err().code, Code::NotFound);
    assert_eq!(cancel_gridpool_order(&mut world, 1, 77, now()).unwrap_err().code, Code::NotFound);
}

#[test]
fn lists_can_be_narrowed() {
    let mut world = exchange();
    place(&mut world, limit_order(Side::Buy, "80.00", "1.0"));
    place(&mut world, limit_order(Side::Sell, "90.00", "1.0"));
    let sells = Selection { states: vec![], side: Some(Side::Sell.to_wire()), tag: None };
    assert_eq!(list_gridpool_orders(&world, 1, &sells).unwrap().len(), 1);
    let filled = Selection { states: vec![OrderState::Filled.to_wire()], side: None, tag: None };
    assert!(list_gridpool_orders(&world, 1, &filled).unwrap().is_empty());
    assert!(list_gridpool_orders(&world, 9, &filled).is_err());
}

#[test]
fn huge_orders_find_no_room() {
    let mut world = exchange();
    place(&mut world, limit_order(Side::Buy, "85.00", "0.1"));
    // It would have to trade the tenth and keep the rest.
    let huge = limit_order(Side::Sell, "85.00", "79228162514264337593543950335");
    assert!(create_gridpool_order(&mut world, 1, &Some(huge), now()).is_none());
    assert_eq!(list_gridpool_orders(&world, 1, &Selection::all()).unwrap().len(), 1);
    // On the bid's own side it only rests.
    let rests = limit_order(Side::Buy, "85.00", "79228162514264337593543950335");
    assert!(create_gridpool_order(&mut world, 1, &Some(rests), now()).unwrap().is_ok());
}

#[test]
fn pinned_tapes_close_with_their_delivery() {
    let start = Timestamp::from_secs(1778659200);
    assert!(!pinned_tape_closes(start, Timestamp::from_secs(start.secs - 3600)));
    assert!(pinned_tape_closes(start, Timestamp::from_secs(start.secs + 3600)));
}

#[test]
fn decimals_reach_the_book_unchanged() {
    let mut world = exchange();
    let placed = place(&mut world, limit_order(Side::Buy, "85.10", "1.0"));
    let got = get_gridpool_order(&world, 1, placed.order_id).unwrap();
    let text = got.order.unwrap().price.unwrap().amount.unwrap().value;
    assert_eq!(Decimal::parse(&text), Decimal::parse("85.1"));
}

#[test]
fn lists_can_be_narrowed_by_tag() {
    let mut world = exchange();
    let tagged = wire::Order { tag: Some("a".into()), ..limit_order(Side::Buy, "80.00", "1.0") };
    let id = place(&mut world, tagged).order_id;
    place(&mut world, limit_order(Side::Buy, "81.00", "1.0"));
    let select = Selection { tag: Some("a".into()), ..Selection::all() };
    let listed = list_gridpool_orders(&world, 1, &select).unwrap();
    assert_eq!(listed.len(), 1);
    assert_eq!(listed[0].order_id, id);
    let out = world.take_outbox();
    assert_eq!(out.orders.iter().filter(|e| wants_order(e, 1, &select)).count(), 1);
}

#[test]
fn payloads_come_back_as_they_were() {
    let mut world = exchange();
    let text = "{\"plan\":[1,2]}";
    let order =
        wire::Order { payload: Some(text.into()), ..limit_order(Side::Buy, "80.00", "1.0") };
    let id = place(&mut world, order).order_id;
    let got = get_gridpool_order(&world, 1, id).unwrap();
    assert_eq!(got.order.unwrap().payload.as_deref(), Some(text));
}

#[test]
fn elapsed_orders_are_invalid_arguments() {
    let mut world = exchange();
    let order = wire::Order {
        valid_until: Some(wire::Timestamp { seconds: now().secs, nanos: 0 }),
        ..limit_order(Side::Buy, "80.00", "1.0")
    };
    let err = create_gridpool_order(&mut world, 1, &Some(order), now()).unwrap().unwrap_err();
    assert_eq!(err.code, Code::InvalidArgument);
    assert_eq!(err.message, "validation: ValidityElapsed");
}
