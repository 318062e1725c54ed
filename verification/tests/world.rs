use chrono::TimeZone;
use tradingsim::book::Resting;
use tradingsim::decimal::Decimal;
use tradingsim::gridpool::{Gridpool, SelfTradePolicy};
use tradingsim::market::{
    Area, Currency, DeliveryDuration, DeliveryPeriod, MarketRegistry, MarketRules,
};
use tradingsim::matching::IncomingLimit;
use tradingsim::model::SubmitError;
use tradingsim::order::{
    ExecutionOption, GridpoolId, MarketActor, Order, OrderId, OrderState, OrderType, Side,
    StateReason,
};
use tradingsim::time::{Offset, Timestamp};
use tradingsim::world::{ContractKey, World};

fn d(text: &str) -> Decimal {
    Decimal::parse(text).unwrap()
}

fn at(h: u32, m: u32, s: u32) -> Timestamp {
    Timestamp::from_secs(
        chrono::Utc.with_ymd_and_hms(2026, 5, 13, h, m, s).unwrap().timestamp(),
    )
}

/// This many seconds later.
fn plus(t: Timestamp, secs: i64) -> Timestamp {
    Timestamp { secs: t.secs + secs, ..t }
}

fn test_hour() -> ContractKey {
    ContractKey {
        area: Area::eic("10YDE-EON------1"),
        period: DeliveryPeriod {
            start: at(12, 0, 0),
            duration: DeliveryDuration::QuarterHour,
        },
    }
}

#[test]
fn next_id_is_monotonic() {
    let mut w = World::new(MarketRegistry::new());
    assert_eq!(w.next_id(), OrderId(1));
    assert_eq!(w.next_id(), OrderId(2));
    assert_eq!(w.next_id(), OrderId(3));
}

#[test]
fn book_mut_auto_creates_then_persists() {
    let mut w = World::new(MarketRegistry::new());
    let k = test_hour();
    assert!(w.book(&k).is_none());
    w.book_mut(k.clone()).insert(
        Side::Buy,
        d("85.0"),
        Resting {
            id: OrderId(1),
            open_qty: d("1.0"),
        },
    );
    assert!(w.book(&k).is_some());
    assert_eq!(w.book(&k).unwrap().best_bid(), Some(d("85.0")));
}

#[test]
fn register_and_lookup_gridpool() {
    let mut w = World::new(MarketRegistry::new());
    let area = Area::eic("10YDE-EON------1");
    w.register_gridpool(Gridpool::new(
        GridpoolId(1),
        "battery-arb",
        vec![area.clone()],
    ));
    assert_eq!(w.gridpools().len(), 1);
    let gp = w.gridpools().get(GridpoolId(1)).unwrap();
    assert!(gp.allows_area(&area));
}

#[test]
fn bind_and_unbind_resting_order() {
    let mut w = World::new(MarketRegistry::new());
    w.bind_resting_order(OrderId(7), GridpoolId(2));
    assert_eq!(w.owner_of(OrderId(7)), Some(GridpoolId(2)));
    assert_eq!(w.unbind_resting_order(OrderId(7)), Some(GridpoolId(2)));
    assert_eq!(w.owner_of(OrderId(7)), None);
}

fn setup_world_with_pool() -> (World, GridpoolId) {
    // Tests built on this fixture exercise self-crossing within
    // a single pool (buy + sell from gp #1 filling each other).
    // The runtime default flipped to Reject, so opt back into
    // Allow here to keep those tests exercising the matcher
    // mechanics they were written for.
    let mut markets = MarketRegistry::new();
    markets.insert(MarketRules::default_for_tests());
    let mut w = World::new(markets);
    let area = Area::eic("10YDE-EON------1");
    w.register_gridpool(
        Gridpool::new(GridpoolId(1), "test", vec![area])
            .with_self_trade_policy(SelfTradePolicy::Allow),
    );
    (w, GridpoolId(1))
}

fn sample_buy(qty: Decimal, price: Decimal) -> Order {
    Order::limit(
        Area::eic("10YDE-EON------1"),
        DeliveryPeriod {
            start: at(12, 0, 0),
            duration: DeliveryDuration::QuarterHour,
        },
        Side::Buy,
        price,
        qty,
        Currency::Eur,
    )
}

fn sample_sell(qty: Decimal, price: Decimal) -> Order {
    Order {
        side: Side::Sell,
        ..sample_buy(qty, price)
    }
}

fn t0() -> Timestamp {
    at(8, 0, 0)
}

#[test]
fn submit_admits_resting_order() {
    let (mut w, gp) = setup_world_with_pool();
    let detail = w
        .submit_order(gp, sample_buy(d("1.0"), d("85.0")), t0())
        .unwrap();
    assert_eq!(detail.state.state, OrderState::Active);
    assert_eq!(detail.state.reason, StateReason::Add);
    assert_eq!(detail.open_quantity, d("1.0"));
    assert_eq!(detail.filled_quantity, d("0"));
    assert_eq!(w.owner_of(detail.id), Some(gp));
    assert_eq!(w.book(&test_hour()).unwrap().best_bid(), Some(d("85.0")));
}

#[test]
fn submit_cross_match_fills_both_sides() {
    let (mut w, gp) = setup_world_with_pool();
    let buy = w
        .submit_order(gp, sample_buy(d("1.0"), d("85.0")), t0())
        .unwrap();
    let sell = w
        .submit_order(gp, sample_sell(d("1.0"), d("85.0")), t0())
        .unwrap();

    // Taker (sell) fully filled.
    assert_eq!(sell.state.state, OrderState::Filled);
    assert_eq!(sell.filled_quantity, d("1.0"));
    assert_eq!(sell.open_quantity, d("0"));

    // Maker (buy) updated in-place to Filled.
    let buy_after = w.gridpools().get(gp).unwrap().get_order(buy.id).unwrap();
    assert_eq!(buy_after.state.state, OrderState::Filled);
    assert_eq!(buy_after.state.reason, StateReason::FullExecution);
    assert_eq!(buy_after.filled_quantity, d("1.0"));

    // Two private trades (one per side); shared trade id.
    let trades = w.gridpools().get(gp).unwrap().trades();
    assert_eq!(trades.len(), 2);
    assert_eq!(trades[0].id, trades[1].id);

    // Book empty + binding cleared.
    assert!(w.book(&test_hour()).unwrap().is_empty());
    assert!(w.owner_of(buy.id).is_none());
}

#[test]
fn submit_partial_cross_leaves_taker_active() {
    let (mut w, gp) = setup_world_with_pool();
    w.submit_order(gp, sample_sell(d("0.5"), d("85.0")), t0())
        .unwrap();
    let buy = w
        .submit_order(gp, sample_buy(d("2.0"), d("85.0")), t0())
        .unwrap();
    assert_eq!(buy.state.state, OrderState::Active);
    assert_eq!(buy.state.reason, StateReason::PartialExecution);
    assert_eq!(buy.filled_quantity, d("0.5"));
    assert_eq!(buy.open_quantity, d("1.5"));
    assert_eq!(w.owner_of(buy.id), Some(gp));
}

#[test]
fn submit_validation_errors() {
    let (mut w, gp) = setup_world_with_pool();

    let cases: Vec<(Order, SubmitError)> = vec![
        (
            Order {
                area: Area::eic("XXXX"),
                ..sample_buy(d("1.0"), d("85.0"))
            },
            SubmitError::AreaNotAllowedForGridpool,
        ),
        (
            sample_buy(d("1.0"), d("85.005")),
            SubmitError::PriceOffGrid,
        ),
        (
            sample_buy(d("1.05"), d("85.0")),
            SubmitError::QuantityOffGrid,
        ),
        (
            sample_buy(d("0"), d("85.0")),
            SubmitError::NonPositiveQuantity,
        ),
        (
            Order {
                currency: Currency::Usd,
                ..sample_buy(d("1.0"), d("85.0"))
            },
            SubmitError::CurrencyMismatch,
        ),
        (
            Order {
                period: DeliveryPeriod {
                    // 12:07 isn't on a 15-min grid.
                    start: at(12, 7, 0),
                    duration: DeliveryDuration::QuarterHour,
                },
                ..sample_buy(d("1.0"), d("85.0"))
            },
            SubmitError::UnalignedDeliveryPeriod,
        ),
        (
            Order {
                order_type: OrderType::Iceberg,
                ..sample_buy(d("1.0"), d("85.0"))
            },
            SubmitError::UnsupportedOrderType(OrderType::Iceberg),
        ),
        (
            Order {
                execution_option: Some(ExecutionOption::Aon),
                ..sample_buy(d("1.0"), d("85.0"))
            },
            SubmitError::UnsupportedExecutionOption(ExecutionOption::Aon),
        ),
    ];
    for (order, want) in cases {
        let err = w.submit_order(gp, order, t0()).unwrap_err();
        assert_eq!(err, want);
    }

    let err = w
        .submit_order(GridpoolId(99), sample_buy(d("1.0"), d("85.0")), t0())
        .unwrap_err();
    assert_eq!(err, SubmitError::UnknownGridpool);
}

#[test]
fn submit_rejects_orders_at_or_after_delivery_start() {
    let (mut w, gp) = setup_world_with_pool();
    let order = sample_buy(d("1.0"), d("85.0"));
    let delivery_start = order.period.start;

    // Exactly at gate: rejected.
    let err = w
        .submit_order(gp, order.clone(), delivery_start)
        .unwrap_err();
    assert_eq!(err, SubmitError::GateClosed);

    // After gate: still rejected.
    let later = plus(delivery_start, 1);
    let err = w.submit_order(gp, order.clone(), later).unwrap_err();
    assert_eq!(err, SubmitError::GateClosed);

    // One second before gate: accepted.
    let just_in_time = plus(delivery_start, -1);
    let detail = w.submit_order(gp, order, just_in_time).unwrap();
    assert_eq!(detail.state.state, OrderState::Active);
}

#[test]
fn cross_match_emits_public_trade_and_per_gridpool_trades() {
    let (mut w, gp) = setup_world_with_pool();
    w.take_outbox();
    let _buy = w
        .submit_order(gp, sample_buy(d("1.0"), d("85.0")), t0())
        .unwrap();
    let _sell = w
        .submit_order(gp, sample_sell(d("1.0"), d("85.0")), t0())
        .unwrap();

    // Public tape: one event per fill, here one fill.
    let out = w.take_outbox();
    assert_eq!(out.public_trades.len(), 1);
    let pt = &out.public_trades[0];
    assert_eq!(pt.price, d("85.0"));
    assert_eq!(pt.quantity, d("1.0"));

    // Private tape on the (self-traded) gridpool: two events per
    // fill (one per side of the match).
    let t1 = &out.trades[0];
    let t2 = &out.trades[1];
    assert_eq!(t1.gridpool_id, gp);
    assert_eq!(t2.gridpool_id, gp);
    assert_eq!(t1.trade.id, t2.trade.id);
    assert_ne!(t1.trade.side, t2.trade.side);
}

#[test]
fn counterparty_order_rests_then_fills_gridpool_taker() {
    let (mut w, gp) = setup_world_with_pool();

    // Counterparty posts a sell at 85.0.
    let cp_id = w
        .submit_counterparty_order(sample_sell(d("1.0"), d("85.0")), t0())
        .unwrap();
    // Counterparty resting orders have no gridpool binding.
    assert!(w.owner_of(cp_id).is_none());
    // No fills yet.
    let out = w.take_outbox();
    assert!(out.public_trades.is_empty());
    assert!(out.trades.is_empty());

    // Gridpool takes against it.
    let taker = w
        .submit_order(gp, sample_buy(d("0.5"), d("85.0")), t0())
        .unwrap();
    assert_eq!(taker.state.state, OrderState::Filled);
    assert_eq!(taker.filled_quantity, d("0.5"));

    // Public tape: one event for the fill.
    let out = w.take_outbox();
    assert_eq!(out.public_trades[0].quantity, d("0.5"));
    // Gridpool tape: one event (taker side only — no maker
    // gridpool to credit).
    assert_eq!(out.trades.len(), 1);
    assert_eq!(out.trades[0].gridpool_id, gp);
    assert_eq!(out.trades[0].trade.order_id, taker.id);

    // Counterparty's resting half-MW is still on the book.
    let mut counterparty_cancel = w.cancel_counterparty_order(cp_id, t0());
    assert!(counterparty_cancel);
    // Double-cancel returns false (idempotent).
    counterparty_cancel = w.cancel_counterparty_order(cp_id, t0());
    assert!(!counterparty_cancel);
}

#[test]
fn suspended_market_rejects_submissions() {
    let (mut w, gp) = setup_world_with_pool();
    w.suspend_market();
    let err = w
        .submit_order(gp, sample_buy(d("1.0"), d("85.0")), t0())
        .unwrap_err();
    assert_eq!(err, SubmitError::SuspendedMarket);
    // Resume and confirm submissions go through again.
    w.resume_market();
    let detail = w
        .submit_order(gp, sample_buy(d("1.0"), d("85.0")), t0())
        .unwrap();
    assert_eq!(detail.state.state, OrderState::Active);
}

#[test]
fn recall_order_cancels_with_system_actor() {
    let (mut w, gp) = setup_world_with_pool();
    let placed = w
        .submit_order(gp, sample_buy(d("1.0"), d("85.0")), t0())
        .unwrap();
    // Order is resting; recall it.
    let recalled = w.recall_order(placed.id, t0()).unwrap();
    assert_eq!(recalled.state.state, OrderState::Canceled);
    assert_eq!(recalled.state.reason, StateReason::Delete);
    assert_eq!(recalled.state.actor, MarketActor::System);
    // Double-recall should hit OrderAlreadyTerminal.
    let err = w.recall_order(placed.id, t0()).unwrap_err();
    assert_eq!(err, SubmitError::OrderAlreadyTerminal);
    // Recall for an unknown id is OrderNotFound.
    let err = w
        .recall_order(OrderId(9999), t0())
        .unwrap_err();
    assert_eq!(err, SubmitError::OrderNotFound);
}

#[test]
fn counterparty_taker_against_resting_gridpool_maker() {
    let (mut w, gp) = setup_world_with_pool();

    // Gridpool posts a resting buy.
    let maker = w
        .submit_order(gp, sample_buy(d("1.0"), d("85.0")), t0())
        .unwrap();
    // Discard the order-update publication.
    w.take_outbox();

    // Counterparty crosses with a sell.
    let _cp_id = w
        .submit_counterparty_order(sample_sell(d("0.4"), d("85.0")), t0())
        .unwrap();

    // Public tape gets the fill.
    let out = w.take_outbox();
    assert_eq!(out.public_trades[0].quantity, d("0.4"));
    // Gridpool tape gets exactly one event (maker side).
    assert_eq!(out.trades.len(), 1);
    assert_eq!(out.trades[0].trade.order_id, maker.id);
    // Order update fan-out for the maker.
    let upd = &out.orders[0].detail;
    assert_eq!(upd.id, maker.id);
    assert_eq!(upd.filled_quantity, d("0.4"));
    assert_eq!(upd.state.state, OrderState::Active);
}

#[test]
fn submit_publishes_order_update() {
    let (mut w, gp) = setup_world_with_pool();
    let detail = w
        .submit_order(gp, sample_buy(d("1.0"), d("85.0")), t0())
        .unwrap();
    let out = w.take_outbox();
    assert_eq!(out.orders[0].gridpool_id, gp);
    let received = &out.orders[0].detail;
    assert_eq!(received.id, detail.id);
    assert_eq!(received.state.state, OrderState::Active);
}

#[test]
fn cancel_publishes_order_update() {
    let (mut w, gp) = setup_world_with_pool();
    let detail = w
        .submit_order(gp, sample_buy(d("1.0"), d("85.0")), t0())
        .unwrap();
    w.take_outbox();
    w.cancel_order(gp, detail.id, t0()).unwrap();
    let out = w.take_outbox();
    let received = &out.orders[0].detail;
    assert_eq!(received.state.state, OrderState::Canceled);
}

#[test]
fn expire_lapsed_orders_transitions_active_to_expired() {
    let (mut w, gp) = setup_world_with_pool();
    let earlier = plus(t0(), 30);
    let order = Order {
        valid_until: Some(plus(t0(), 60)),
        ..sample_buy(d("1.0"), d("85.0"))
    };
    let detail = w.submit_order(gp, order, t0()).unwrap();
    assert_eq!(detail.state.state, OrderState::Active);

    // Before lapse: no-op.
    let n = w.expire_lapsed_orders(earlier);
    assert_eq!(n, 0);
    assert_eq!(
        w.gridpools()
            .get(gp)
            .unwrap()
            .get_order(detail.id)
            .unwrap()
            .state
            .state,
        OrderState::Active
    );

    // After lapse: expired + removed from the book.
    let later = plus(t0(), 120);
    let n = w.expire_lapsed_orders(later);
    assert_eq!(n, 1);
    let post = w.gridpools().get(gp).unwrap().get_order(detail.id).unwrap();
    assert_eq!(post.state.state, OrderState::Expired);
    assert_eq!(post.state.actor, MarketActor::System);
    assert!(w.book(&test_hour()).unwrap().is_empty());
}

#[test]
fn expire_lapsed_orders_sweeps_gate_closed_rests() {
    let (mut w, gp) = setup_world_with_pool();
    // Gridpool rest + counterparty rest on the same contract.
    let gp_rest = w
        .submit_order(gp, sample_buy(d("1.0"), d("85.0")), t0())
        .unwrap();
    let cp_rest = w
        .submit_counterparty_order(sample_sell(d("0.5"), d("86.0")), t0())
        .unwrap();
    // Drain the ADD events.
    w.take_outbox();
    assert_eq!(w.book(&test_hour()).unwrap().len(), 2);

    // Cross past the delivery start — gate is closed.
    let after_gate =
        plus(sample_buy(d("1.0"), d("85.0")).period.start, 1);
    let n = w.expire_lapsed_orders(after_gate);
    assert_eq!(n, 2);

    // Both rests gone; gridpool order flipped to Expired.
    assert!(w.book(&test_hour()).unwrap().is_empty());
    let post = w
        .gridpools()
        .get(gp)
        .unwrap()
        .get_order(gp_rest.id)
        .unwrap();
    assert_eq!(post.state.state, OrderState::Expired);
    // Counterparty book sweep emits qty=0 — a subsequent
    // explicit cancel is a no-op.
    assert!(!w.cancel_counterparty_order(cp_rest, t0()));

    // Two qty=0 events on the public-book stream (one per rest).
    let mut zero_events = 0;
    for rec in w.take_outbox().book_records {
        let qty = rec
            .quantity
            .as_ref()
            .and_then(|q| q.mw.as_ref())
            .map(|m| m.value.as_str())
            .unwrap_or("");
        if qty == "0" {
            zero_events += 1;
        }
    }
    assert_eq!(zero_events, 2);
}

#[test]
fn cross_area_match_emits_split_public_trade() {
    let mut markets = MarketRegistry::new();
    markets.insert(MarketRules::default_for_tests());
    markets.insert(MarketRules::for_area(
        Area::eic("10YFR-RTE------C"),
        Currency::Eur,
    ));
    let mut w = World::new(markets);
    let de = Area::eic("10YDE-EON------1");
    let fr = Area::eic("10YFR-RTE------C");
    w.add_coupling(de.clone(), fr.clone(), Offset::zero(), None);
    w.register_gridpool(Gridpool::new(GridpoolId(1), "de", vec![de.clone()]));
    w.register_gridpool(Gridpool::new(GridpoolId(2), "fr", vec![fr.clone()]));

    // FR gridpool rests a sell at 84.0 — cheaper than DE side.
    let fr_sell = Order {
        area: fr.clone(),
        ..sample_sell(d("1.0"), d("84.0"))
    };
    w.submit_order(GridpoolId(2), fr_sell, t0()).unwrap();
    // DE gridpool's buy at 85.0 should match the FR side.
    let de_buy = sample_buy(d("1.0"), d("85.0"));
    let detail = w.submit_order(GridpoolId(1), de_buy, t0()).unwrap();

    assert_eq!(detail.state.state, OrderState::Filled);
    assert_eq!(detail.filled_quantity, d("1.0"));

    let out = w.take_outbox();
    let pt = &out.public_trades[0];
    assert_eq!(pt.buy_area, de);
    assert_eq!(pt.sell_area, fr);
    assert_eq!(pt.price, d("84.0"));
}

#[test]
fn cross_border_gate_blocks_late_cross_match_but_not_early() {
    // Same setup as cross_area_match_emits_split_public_trade
    // but the coupling carries a 60-minute gate offset.
    let mut markets = MarketRegistry::new();
    markets.insert(MarketRules::default_for_tests());
    markets.insert(MarketRules::for_area(
        Area::eic("10YFR-RTE------C"),
        Currency::Eur,
    ));
    let mut w = World::new(markets);
    let de = Area::eic("10YDE-EON------1");
    let fr = Area::eic("10YFR-RTE------C");
    w.add_coupling(
        de.clone(),
        fr.clone(),
        Offset::from_secs(3600),
        None,
    );
    w.register_gridpool(Gridpool::new(GridpoolId(1), "de", vec![de.clone()]));
    w.register_gridpool(Gridpool::new(GridpoolId(2), "fr", vec![fr.clone()]));

    let de_buy = sample_buy(d("1.0"), d("85.0"));
    let period_start = de_buy.period.start;

    // FR gridpool rests a sell at 84.0 (cheap; should be the
    // best price the German bid can hit if cross-border is open).
    let fr_sell = Order {
        area: fr.clone(),
        ..sample_sell(d("1.0"), d("84.0"))
    };
    w.submit_order(GridpoolId(2), fr_sell, t0()).unwrap();

    // Late submission: now is 30 min before delivery — INSIDE
    // the 60-min cross-border gate. The matcher should skip the
    // FR book and the German bid should rest.
    let late = plus(period_start, -30 * 60);
    let de_buy_late = de_buy.clone();
    let late_detail = w.submit_order(GridpoolId(1), de_buy_late, late).unwrap();
    assert_eq!(late_detail.state.state, OrderState::Active);
    assert_eq!(late_detail.filled_quantity, d("0"));

    // Early submission: now is 90 min before delivery, well
    // before that. The buyer should now cross to the FR sell.
    let early = plus(period_start, -90 * 60);
    let early_detail = w.submit_order(GridpoolId(1), de_buy, early).unwrap();
    assert_eq!(early_detail.state.state, OrderState::Filled);
    assert_eq!(early_detail.filled_quantity, d("1.0"));
}

#[test]
fn cross_border_capacity_caps_cross_match_volume() {
    // DE+FR with the coupling capped at 0.5 MW per contract.
    // After ~0.5 MW has crossed, further DE buys can't reach
    // the FR sell and rest in DE instead.
    let mut markets = MarketRegistry::new();
    markets.insert(MarketRules::default_for_tests());
    markets.insert(MarketRules::for_area(
        Area::eic("10YFR-RTE------C"),
        Currency::Eur,
    ));
    let mut w = World::new(markets);
    let de = Area::eic("10YDE-EON------1");
    let fr = Area::eic("10YFR-RTE------C");
    w.add_coupling(
        de.clone(),
        fr.clone(),
        Offset::zero(),
        Some(d("0.5")),
    );
    w.register_gridpool(Gridpool::new(GridpoolId(1), "de", vec![de.clone()]));
    w.register_gridpool(Gridpool::new(GridpoolId(2), "fr", vec![fr.clone()]));

    // FR posts a fat 2 MW resting sell @ 84.
    let fr_sell = Order {
        area: fr.clone(),
        quantity: d("2.0"),
        ..sample_sell(d("1.0"), d("84.0"))
    };
    w.submit_order(GridpoolId(2), fr_sell, t0()).unwrap();

    // First DE buy of 0.4 MW @ 85 crosses to FR (within cap).
    let buy1 = Order {
        quantity: d("0.4"),
        ..sample_buy(d("1.0"), d("85.0"))
    };
    assert_eq!(
        w.submit_order(GridpoolId(1), buy1, t0())
            .unwrap()
            .filled_quantity,
        d("0.4")
    );

    // Second DE buy. Edge is at 0.4/0.5 — one more soft-cap
    // fill is allowed; capacity ends overshot at 0.8 MW used.
    let buy2 = Order {
        quantity: d("0.4"),
        ..sample_buy(d("1.0"), d("85.0"))
    };
    assert_eq!(
        w.submit_order(GridpoolId(1), buy2, t0())
            .unwrap()
            .filled_quantity,
        d("0.4")
    );

    // Third DE buy: edge exhausted (0.8 > 0.5). With no DE-side
    // ask on the book, the buy rests.
    let buy3 = Order {
        quantity: d("0.4"),
        ..sample_buy(d("1.0"), d("85.0"))
    };
    let d3 = w.submit_order(GridpoolId(1), buy3, t0()).unwrap();
    assert_eq!(d3.state.state, OrderState::Active);
    assert_eq!(d3.filled_quantity, d("0"));
}

#[test]
fn fok_with_insufficient_depth_cancels_without_fills() {
    let (mut w, gp) = setup_world_with_pool();
    // Resting sell of 0.5; FOK buy of 1.0 needs full match.
    w.submit_order(gp, sample_sell(d("0.5"), d("85.0")), t0())
        .unwrap();
    let fok = Order {
        execution_option: Some(ExecutionOption::Fok),
        ..sample_buy(d("1.0"), d("85.0"))
    };
    let detail = w.submit_order(gp, fok, t0()).unwrap();
    assert_eq!(detail.state.state, OrderState::Canceled);
    assert_eq!(detail.state.reason, StateReason::Reject);
    assert_eq!(detail.filled_quantity, d("0"));
    // Resting 0.5 sell is untouched.
    assert_eq!(w.book(&test_hour()).unwrap().best_ask(), Some(d("85.0")));
}

#[test]
fn fok_with_sufficient_depth_fully_fills() {
    let (mut w, gp) = setup_world_with_pool();
    w.submit_order(gp, sample_sell(d("1.0"), d("85.0")), t0())
        .unwrap();
    let fok = Order {
        execution_option: Some(ExecutionOption::Fok),
        ..sample_buy(d("1.0"), d("85.0"))
    };
    let detail = w.submit_order(gp, fok, t0()).unwrap();
    assert_eq!(detail.state.state, OrderState::Filled);
    assert_eq!(detail.filled_quantity, d("1.0"));
}

#[test]
fn ioc_takes_what_it_can_then_cancels_rest() {
    let (mut w, gp) = setup_world_with_pool();
    w.submit_order(gp, sample_sell(d("0.4"), d("85.0")), t0())
        .unwrap();
    let ioc = Order {
        execution_option: Some(ExecutionOption::Ioc),
        ..sample_buy(d("1.0"), d("85.0"))
    };
    let detail = w.submit_order(gp, ioc, t0()).unwrap();
    assert_eq!(detail.state.state, OrderState::Canceled);
    assert_eq!(detail.state.reason, StateReason::PartialExecution);
    assert_eq!(detail.filled_quantity, d("0.4"));
    // No leftover on the book.
    assert_eq!(w.book(&test_hour()).unwrap().best_bid(), None);
}

#[test]
fn cancel_active_order_removes_from_book() {
    let (mut w, gp) = setup_world_with_pool();
    let detail = w
        .submit_order(gp, sample_buy(d("1.0"), d("85.0")), t0())
        .unwrap();
    let cancelled = w.cancel_order(gp, detail.id, t0()).unwrap();
    assert_eq!(cancelled.state.state, OrderState::Canceled);
    assert_eq!(cancelled.state.reason, StateReason::Delete);
    assert!(w.owner_of(detail.id).is_none());
    assert!(w.book(&test_hour()).unwrap().is_empty());
}

#[test]
fn cancel_errors() {
    let (mut w, gp) = setup_world_with_pool();
    let detail = w
        .submit_order(gp, sample_buy(d("1.0"), d("85.0")), t0())
        .unwrap();

    assert_eq!(
        w.cancel_order(GridpoolId(99), detail.id, t0()).unwrap_err(),
        SubmitError::UnknownGridpool
    );
    assert_eq!(
        w.cancel_order(gp, OrderId(9999), t0()).unwrap_err(),
        SubmitError::OrderNotFound
    );

    // First cancel succeeds; second errors out as already-terminal.
    w.cancel_order(gp, detail.id, t0()).unwrap();
    assert_eq!(
        w.cancel_order(gp, detail.id, t0()).unwrap_err(),
        SubmitError::OrderAlreadyTerminal
    );
}

#[test]
fn match_limit_in_routes_to_right_contract() {
    let mut markets = MarketRegistry::new();
    markets.insert(MarketRules::default_for_tests());
    let mut w = World::new(markets);

    let k = test_hour();
    let id1 = w.next_id();
    w.match_limit_in(
        k.clone(),
        IncomingLimit {
            id: id1,
            side: Side::Sell,
            price: d("85.0"),
            quantity: d("1.0"),
        },
    );

    let id2 = w.next_id();
    let out = w.match_limit_in(
        k.clone(),
        IncomingLimit {
            id: id2,
            side: Side::Buy,
            price: d("85.0"),
            quantity: d("1.0"),
        },
    );

    assert_eq!(out.fills.len(), 1);
    assert_eq!(out.fills[0].maker_id, id1);
    assert_eq!(out.fills[0].taker_id, id2);
    assert!(w.book(&k).unwrap().is_empty());
}

fn setup_world_with_reject_pool() -> (World, GridpoolId) {
    let mut markets = MarketRegistry::new();
    markets.insert(MarketRules::default_for_tests());
    let mut w = World::new(markets);
    let area = Area::eic("10YDE-EON------1");
    w.register_gridpool(
        Gridpool::new(GridpoolId(1), "reject-pool", vec![area])
            .with_self_trade_policy(SelfTradePolicy::Reject),
    );
    (w, GridpoolId(1))
}

#[test]
fn self_trade_rejected_when_policy_says_so() {
    let (mut w, gp) = setup_world_with_reject_pool();
    // Rest a sell from the pool first.
    w.submit_order(gp, sample_sell(d("1.0"), d("85.0")), t0())
        .unwrap();
    // Same pool tries to buy through it — must reject.
    let err = w
        .submit_order(gp, sample_buy(d("1.0"), d("86.0")), t0())
        .unwrap_err();
    assert_eq!(err, SubmitError::SelfTradeRejected);
    // Resting sell still on the book; no trades recorded.
    assert_eq!(w.book(&test_hour()).unwrap().best_ask(), Some(d("85.0")));
    assert!(w.gridpools().get(gp).unwrap().trades().is_empty());
}

#[test]
fn allow_policy_still_self_trades() {
    // The default Allow policy keeps prior behaviour: a pool can
    // cross its own order. This is what setup_world_with_pool
    // builds; the test mirrors submit_cross_match_fills_both_sides
    // but is explicit about the policy.
    let (mut w, gp) = setup_world_with_pool();
    w.submit_order(gp, sample_sell(d("1.0"), d("85.0")), t0())
        .unwrap();
    let buy = w
        .submit_order(gp, sample_buy(d("1.0"), d("85.0")), t0())
        .unwrap();
    assert_eq!(buy.state.state, OrderState::Filled);
}

#[test]
fn reject_only_fires_when_same_pool_is_in_the_marketable_path() {
    // Pool A is the reject pool; pool B is an unrelated pool
    // also tradeable in the same area. A's deep ask at 88 sits
    // behind B's tighter ask at 85 — A's 1 MW buy at 86 should
    // consume only B's level, never touch A's, and therefore
    // not trigger the self-trade reject.
    let (mut w, _gp_a) = setup_world_with_reject_pool();
    let area = Area::eic("10YDE-EON------1");
    w.register_gridpool(Gridpool::new(GridpoolId(2), "other", vec![area]));
    let gp_a = GridpoolId(1);
    let gp_b = GridpoolId(2);

    // B's tight ask: at 85, 1 MW.
    w.submit_order(gp_b, sample_sell(d("1.0"), d("85.0")), t0())
        .unwrap();
    // A's deeper ask: at 88, 1 MW. Above A's prospective bid
    // (86), so not marketable to A's buyer.
    w.submit_order(gp_a, sample_sell(d("1.0"), d("88.0")), t0())
        .unwrap();

    let buy = w
        .submit_order(gp_a, sample_buy(d("1.0"), d("86.0")), t0())
        .unwrap();
    assert_eq!(buy.state.state, OrderState::Filled);
    assert_eq!(buy.filled_quantity, d("1.0"));
}

fn two_areas(gate_offset: Offset, capacity_mw: Option<Decimal>) -> (World, Area, Area) {
    let de = Area::eic("10YDE-EON------1");
    let fr = Area::eic("10YFR-RTE------C");
    let mut markets = MarketRegistry::new();
    markets.insert(MarketRules::default_for_tests());
    markets.insert(MarketRules::for_area(fr.clone(), Currency::Eur));
    let mut w = World::new(markets);
    w.add_coupling(de.clone(), fr.clone(), gate_offset, capacity_mw);
    w.register_gridpool(Gridpool::new(GridpoolId(1), "de", vec![de.clone()]));
    w.register_gridpool(Gridpool::new(GridpoolId(2), "fr", vec![fr.clone()]));
    (w, de, fr)
}

#[test]
fn edges_read_the_same_from_both_ends() {
    let (mut w, de, fr) = two_areas(Offset::from_secs(3600), Some(d("0.5")));
    assert_eq!(w.coupling_count(), 1);
    let from_de = w.coupled_areas(&de);
    let from_fr = w.coupled_areas(&fr);
    assert_eq!(from_de.len(), 1);
    assert_eq!(from_de[0].0, fr);
    assert_eq!(from_fr[0].0, de);
    assert_eq!(from_de[0].1.gate_offset, Offset::from_secs(3600));

    let period = sample_buy(d("1.0"), d("85.0")).period;
    assert_eq!(w.remaining_capacity(&de, &fr, period), Some(d("0.5")));
    let fr_sell = Order { area: fr.clone(), ..sample_sell(d("1.0"), d("84.0")) };
    w.submit_order(GridpoolId(2), fr_sell, t0()).unwrap();
    w.submit_order(GridpoolId(1), sample_buy(d("0.2"), d("85.0")), t0()).unwrap();
    assert_eq!(w.remaining_capacity(&de, &fr, period), Some(d("0.3")));
    assert_eq!(w.remaining_capacity(&fr, &de, period), Some(d("0.3")));
}

#[test]
fn the_taker_goes_to_the_best_price_of_either_area() {
    let (mut w, de, fr) = two_areas(Offset::zero(), None);
    w.register_gridpool(Gridpool::new(GridpoolId(3), "de2", vec![de.clone()]));
    let fr_sell = Order { area: fr.clone(), ..sample_sell(d("0.5"), d("84.0")) };
    w.submit_order(GridpoolId(2), fr_sell, t0()).unwrap();
    w.submit_order(GridpoolId(3), sample_sell(d("0.5"), d("83.0")), t0()).unwrap();
    w.take_outbox();
    let got = w.submit_order(GridpoolId(1), sample_buy(d("0.8"), d("85.0")), t0()).unwrap();
    assert_eq!(got.state.state, OrderState::Filled);
    let out = w.take_outbox();
    let prices: Vec<Decimal> = out.public_trades.iter().map(|t| t.price).collect();
    assert_eq!(prices, vec![d("83.0"), d("84.0")]);
    assert_eq!(out.public_trades[1].sell_area, fr);
    assert_eq!(w.public_trade_history().len(), 2);
}

#[test]
fn negative_prices_trade() {
    let (mut w, gp) = setup_world_with_pool();
    w.submit_order(gp, sample_sell(d("1.0"), d("-5.0")), t0()).unwrap();
    let buy = w.submit_order(gp, sample_buy(d("1.0"), d("-4.0")), t0()).unwrap();
    assert_eq!(buy.state.state, OrderState::Filled);
    assert_eq!(w.public_trade_history()[0].price, d("-5.0"));
}

#[test]
fn smaller_updates_keep_the_place_in_the_queue() {
    let (mut w, gp) = setup_world_with_pool();
    let first = w.submit_order(gp, sample_sell(d("1.0"), d("85.0")), t0()).unwrap();
    let second = w.submit_order(gp, sample_sell(d("1.0"), d("85.0")), t0()).unwrap();
    let upd = tradingsim::world::OrderUpdate {
        quantity: Some(d("0.6")),
        ..Default::default()
    };
    let after = w.modify_order(gp, first.id, upd, t0()).unwrap();
    assert_eq!(after.open_quantity, d("0.6"));
    assert_eq!(after.state.reason, StateReason::Modify);
    w.submit_order(gp, sample_buy(d("0.6"), d("85.0")), t0()).unwrap();
    let pool = w.gridpools().get(gp).unwrap();
    assert_eq!(pool.get_order(first.id).unwrap().state.state, OrderState::Filled);
    assert_eq!(pool.get_order(second.id).unwrap().open_quantity, d("1.0"));
}

#[test]
fn larger_updates_go_to_the_back() {
    let (mut w, gp) = setup_world_with_pool();
    let first = w.submit_order(gp, sample_sell(d("1.0"), d("85.0")), t0()).unwrap();
    let second = w.submit_order(gp, sample_sell(d("1.0"), d("85.0")), t0()).unwrap();
    let upd = tradingsim::world::OrderUpdate {
        quantity: Some(d("2.0")),
        ..Default::default()
    };
    w.modify_order(gp, first.id, upd, t0()).unwrap();
    w.submit_order(gp, sample_buy(d("1.0"), d("85.0")), t0()).unwrap();
    let pool = w.gridpools().get(gp).unwrap();
    assert_eq!(pool.get_order(second.id).unwrap().state.state, OrderState::Filled);
    assert_eq!(pool.get_order(first.id).unwrap().open_quantity, d("2.0"));
}

#[test]
fn updates_below_what_is_filled_are_refused() {
    let (mut w, gp) = setup_world_with_pool();
    let sell = w.submit_order(gp, sample_sell(d("1.0"), d("85.0")), t0()).unwrap();
    w.submit_order(gp, sample_buy(d("0.5"), d("85.0")), t0()).unwrap();
    let upd = tradingsim::world::OrderUpdate {
        quantity: Some(d("0.4")),
        ..Default::default()
    };
    let err = w.modify_order(gp, sell.id, upd, t0()).unwrap_err();
    assert_eq!(err, SubmitError::ModifyQuantityBelowFilled);
}

#[test]
fn the_remaining_rejections() {
    let (mut w, gp) = setup_world_with_pool();
    // A market without rules, allowed for the pool.
    let far = Area::eic("XXXX");
    w.register_gridpool(Gridpool::new(GridpoolId(2), "far", vec![far.clone()]));
    let order = Order { area: far, ..sample_buy(d("1.0"), d("85.0")) };
    assert_eq!(w.submit_order(GridpoolId(2), order, t0()).unwrap_err(), SubmitError::UnknownArea);
    let hourly = Order {
        period: DeliveryPeriod { start: at(12, 0, 0), duration: DeliveryDuration::Hour },
        ..sample_buy(d("1.0"), d("85.0"))
    };
    assert_eq!(
        w.submit_order(gp, hourly, t0()).unwrap_err(),
        SubmitError::UnsupportedDurationForMarket
    );
}

#[test]
fn expiring_twice_changes_nothing_more() {
    let (mut w, gp) = setup_world_with_pool();
    w.submit_order(gp, sample_buy(d("1.0"), d("85.0")), t0()).unwrap();
    w.submit_counterparty_order(sample_sell(d("0.5"), d("86.0")), t0()).unwrap();
    let after_gate = at(12, 0, 1);
    assert_eq!(w.expire_lapsed_orders(after_gate), 2);
    assert_eq!(w.expire_lapsed_orders(after_gate), 0);
}

#[test]
fn placing_says_when_there_is_no_room() {
    let (mut w, gp) = setup_world_with_pool();
    let placed = w.place_order(gp, sample_buy(d("1.0"), d("85.0")), t0()).unwrap().unwrap();
    assert_eq!(placed.state.state, OrderState::Active);
    // What it would have left after one tenth is beyond a decimal.
    let huge = d("79228162514264337593543950335");
    w.place_order(gp, sample_buy(d("0.1"), d("84.0")), t0()).unwrap().unwrap();
    assert!(!w.can_carry(&sample_sell(huge, d("84.0")), t0()));
    assert!(w.place_order(gp, sample_sell(huge, d("84.0")), t0()).is_none());
    assert_eq!(w.gridpools().get(gp).unwrap().order_count(), 2);
    // Out of reach of the bids it only rests.
    assert!(w.can_carry(&sample_sell(huge, d("90.0")), t0()));
    let rests = w.place_order(gp, sample_sell(huge, d("95.0")), t0()).unwrap().unwrap();
    assert_eq!(rests.open_quantity, huge);
    assert!(w.place_counterparty_order(sample_sell(d("0.1"), d("90.0")), t0()).unwrap().is_ok());
    let upd = tradingsim::world::OrderUpdate {
        price: Some(d("84.0")),
        ..Default::default()
    };
    let amended = w.amend_order(gp, placed.id, upd, t0()).unwrap().unwrap();
    assert_eq!(amended.order.price, d("84.0"));
    // Nor can the huge one come down to the bids.
    let down = tradingsim::world::OrderUpdate { price: Some(d("84.0")), ..Default::default() };
    assert!(w.amend_order(gp, rests.id, down, t0()).is_none());
    assert_eq!(w.gridpools().get(gp).unwrap().get_order(rests.id).unwrap().order.price, d("95.0"));
    assert!(w.has_ids(Side::Buy));
}

#[test]
fn snapshots_show_the_resting_orders() {
    let (mut w, gp) = setup_world_with_pool();
    let sell = w.submit_order(gp, sample_sell(d("1.0"), d("85.0")), t0()).unwrap();
    let shot = w.snapshot_books(t0());
    assert_eq!(shot.len(), 1);
    assert_eq!(shot[0].id, sell.id.0);
    assert_eq!(w.contracts().len(), 1);
    assert!(!w.is_market_suspended());
    assert!(w.markets().get(&Area::eic("10YDE-EON------1")).is_some());
}

#[test]
fn orders_past_their_validity_are_refused() {
    let (mut w, gp) = setup_world_with_pool();
    for until in [t0(), plus(t0(), -1)] {
        let order = Order { valid_until: Some(until), ..sample_buy(d("1.0"), d("85.0")) };
        let err = w.submit_order(gp, order.clone(), t0()).unwrap_err();
        assert_eq!(err, SubmitError::ValidityElapsed);
        let err = w.submit_counterparty_order(order, t0()).unwrap_err();
        assert_eq!(err, SubmitError::ValidityElapsed);
    }
    assert!(w.book(&test_hour()).is_none());
    // No id was used up.
    let next = w.submit_order(gp, sample_buy(d("1.0"), d("85.0")), t0()).unwrap();
    assert_eq!(next.id, OrderId(1));
    let soon = Timestamp { nanos: 1, ..t0() };
    let order = Order { valid_until: Some(soon), ..sample_buy(d("1.0"), d("85.0")) };
    assert!(w.submit_order(gp, order, t0()).is_ok());
}

#[test]
fn orders_without_a_side_are_refused() {
    let (mut w, gp) = setup_world_with_pool();
    let order = Order { side: Side::Unspecified, ..sample_buy(d("1.0"), d("85.0")) };
    assert_eq!(
        w.submit_order(gp, order.clone(), t0()).unwrap_err(),
        SubmitError::UnspecifiedSide
    );
    assert_eq!(
        w.submit_counterparty_order(order, t0()).unwrap_err(),
        SubmitError::UnspecifiedSide
    );
    assert_eq!(w.next_id(), OrderId(1));
}

#[test]
fn deliveries_start_on_the_minute() {
    let (mut w, gp) = setup_world_with_pool();
    let period = DeliveryPeriod {
        start: Timestamp { nanos: 500_000_000, ..at(12, 0, 0) },
        duration: DeliveryDuration::QuarterHour,
    };
    let order = Order { period, ..sample_buy(d("1.0"), d("85.0")) };
    assert_eq!(
        w.submit_order(gp, order, t0()).unwrap_err(),
        SubmitError::UnalignedDeliveryPeriod
    );
}

#[test]
fn updates_end_with_the_delivery_start() {
    let (mut w, gp) = setup_world_with_pool();
    let sell = w.submit_order(gp, sample_sell(d("1.0"), d("85.0")), t0()).unwrap();
    let upd =
        || tradingsim::world::OrderUpdate { price: Some(d("84.0")), ..Default::default() };
    let err = w.modify_order(gp, sell.id, upd(), at(12, 0, 0)).unwrap_err();
    assert_eq!(err, SubmitError::GateClosed);
    assert_eq!(w.book(&test_hour()).unwrap().best_ask(), Some(d("85.0")));
    assert!(w.modify_order(gp, sell.id, upd(), at(11, 59, 59)).is_ok());
    assert_eq!(w.book(&test_hour()).unwrap().best_ask(), Some(d("84.0")));
}

#[test]
fn updates_do_not_trade_with_their_own_gridpool() {
    let (mut w, gp) = setup_world_with_reject_pool();
    w.submit_order(gp, sample_sell(d("1.0"), d("85.0")), t0()).unwrap();
    let buy = w.submit_order(gp, sample_buy(d("1.0"), d("84.0")), t0()).unwrap();
    let upd =
        || tradingsim::world::OrderUpdate { price: Some(d("85.0")), ..Default::default() };
    let err = w.modify_order(gp, buy.id, upd(), t0()).unwrap_err();
    assert_eq!(err, SubmitError::SelfTradeRejected);
    assert_eq!(w.book(&test_hour()).unwrap().best_bid(), Some(d("84.0")));
    assert!(w.gridpools().get(gp).unwrap().trades().is_empty());
    // Where somebody else is better, nothing of its own is taken.
    w.submit_counterparty_order(sample_sell(d("1.0"), d("84.5")), t0()).unwrap();
    let after = w.modify_order(gp, buy.id, upd(), t0()).unwrap();
    assert_eq!(after.state.state, OrderState::Filled);
    // A pool that allows it trades with itself.
    let (mut w, gp) = setup_world_with_pool();
    w.submit_order(gp, sample_sell(d("1.0"), d("85.0")), t0()).unwrap();
    let buy = w.submit_order(gp, sample_buy(d("1.0"), d("84.0")), t0()).unwrap();
    let after = w.modify_order(gp, buy.id, upd(), t0()).unwrap();
    assert_eq!(after.state.state, OrderState::Filled);
}

#[test]
fn updates_go_onto_the_book_stream() {
    let (mut w, gp) = setup_world_with_pool();
    let amount = |r: &tradingsim::wire::PublicOrderBookRecord| {
        d(&r.quantity.as_ref().unwrap().mw.as_ref().unwrap().value)
    };
    let sell = w.submit_order(gp, sample_sell(d("1.0"), d("85.0")), t0()).unwrap();
    let first = w.take_outbox().book_records;
    assert_eq!(first.len(), 1);
    // In its place on the book.
    let later = plus(t0(), 5);
    let upd = tradingsim::world::OrderUpdate { quantity: Some(d("0.6")), ..Default::default() };
    w.modify_order(gp, sell.id, upd, later).unwrap();
    let records = w.take_outbox().book_records;
    assert_eq!(records.len(), 1);
    assert_eq!(records[0].id, sell.id.0);
    assert_eq!(amount(&records[0]), d("0.6"));
    assert_eq!(records[0].create_time, first[0].create_time);
    // Matched again: the maker's record, then its own.
    let bid = w.submit_counterparty_order(sample_buy(d("1.0"), d("80.0")), t0()).unwrap();
    w.take_outbox();
    let upd = tradingsim::world::OrderUpdate { price: Some(d("80.0")), ..Default::default() };
    let after = w.modify_order(gp, sell.id, upd, later).unwrap();
    assert_eq!(after.state.state, OrderState::Filled);
    let records = w.take_outbox().book_records;
    assert_eq!(records.len(), 2);
    assert_eq!((records[0].id, amount(&records[0])), (bid.0, d("0.4")));
    assert_eq!((records[1].id, amount(&records[1])), (sell.id.0, d("0")));
    assert_eq!(w.public_book_history().last().unwrap().id, sell.id.0);
}

/// A market whose quantities are as fine as a decimal can be.
fn fine_area(markets: &mut MarketRegistry) -> Area {
    let fine = Area::eic("10YFR-RTE------C");
    let rules = MarketRules::for_area(fine.clone(), Currency::Eur);
    markets.insert(MarketRules { qty_step: d("0.0000000000000000000000000001"), ..rules });
    fine
}

#[test]
fn fine_quantities_elsewhere_do_not_matter() {
    let mut markets = MarketRegistry::new();
    markets.insert(MarketRules::default_for_tests());
    let fine = fine_area(&mut markets);
    let mut w = World::new(markets);
    let home = Area::eic("10YDE-EON------1");
    let gp = GridpoolId(1);
    w.register_gridpool(Gridpool::new(gp, "both", vec![home.clone(), fine.clone()]));
    let tiny = Order {
        area: fine.clone(),
        ..sample_sell(d("0.0000000000000000000000000001"), d("85.0"))
    };
    w.submit_order(gp, tiny, t0()).unwrap();
    // 10 MW and that do not go onto one grid, but they never meet.
    let ten = w.place_order(gp, sample_sell(d("10.0"), d("85.0")), t0()).unwrap().unwrap();
    assert_eq!(ten.open_quantity, d("10.0"));
    let buy = sample_buy(d("4.0"), d("85.0"));
    w.place_counterparty_order(buy, t0()).unwrap().unwrap();
    assert_eq!(w.gridpools().get(gp).unwrap().get_order(ten.id).unwrap().open_quantity, d("6.0"));
    let upd = tradingsim::world::OrderUpdate { quantity: Some(d("30.0")), ..Default::default() };
    let more = w.amend_order(gp, ten.id, upd, t0()).unwrap().unwrap();
    assert_eq!(more.open_quantity, d("26.0"));
    // On the same book they do, where the limit reaches it.
    let there = |price| Order { area: fine.clone(), ..sample_buy(d("10.0"), d(price)) };
    assert!(w.place_counterparty_order(there("85.0"), t0()).is_none());
    assert!(w.place_counterparty_order(there("84.0"), t0()).unwrap().is_ok());
}

/// The ids on the ask side, in the order a taker meets them.
fn ask_ids(w: &World) -> Vec<u64> {
    w.book(&test_hour())
        .unwrap()
        .marketable_orders(Side::Buy, d("1000.0"))
        .iter()
        .map(|e| e.0.0)
        .collect()
}

#[test]
fn only_smaller_and_tag_updates_keep_the_place() {
    type Upd = tradingsim::world::OrderUpdate;
    let cases: Vec<(Upd, bool)> = vec![
        (Upd { tag: Some("x".to_string()), ..Default::default() }, true),
        (Upd { quantity: Some(d("0.9")), ..Default::default() }, true),
        (
            Upd { quantity: Some(d("0.9")), tag: Some("x".to_string()), ..Default::default() },
            true,
        ),
        (Upd::default(), false),
        (Upd { quantity: Some(d("1.0")), ..Default::default() }, false),
        (Upd { price: Some(d("85.0")), ..Default::default() }, false),
        (Upd { valid_until: Some(at(11, 0, 0)), ..Default::default() }, false),
        (
            Upd { quantity: Some(d("0.9")), price: Some(d("85.0")), ..Default::default() },
            false,
        ),
        (
            Upd {
                tag: Some("x".to_string()),
                valid_until: Some(at(11, 0, 0)),
                ..Default::default()
            },
            false,
        ),
    ];
    for (upd, keeps) in cases {
        let (mut w, gp) = setup_world_with_pool();
        let first = Order { valid_until: Some(at(11, 0, 0)), ..sample_sell(d("1.0"), d("85.0")) };
        let first = w.submit_order(gp, first, t0()).unwrap().id;
        let second = w.submit_order(gp, sample_sell(d("1.0"), d("85.0")), t0()).unwrap().id;
        w.modify_order(gp, first, upd, t0()).unwrap();
        let order = if keeps { vec![first.0, second.0] } else { vec![second.0, first.0] };
        assert_eq!(ask_ids(&w), order);
    }
}

#[test]
fn updates_keep_the_currency() {
    let (mut w, gp) = setup_world_with_pool();
    let sell = w.submit_order(gp, sample_sell(d("1.0"), d("85.0")), t0()).unwrap();
    let upd = |currency| tradingsim::world::OrderUpdate {
        price: Some(d("84.0")),
        currency: Some(currency),
        ..Default::default()
    };
    let err = w.modify_order(gp, sell.id, upd(Currency::Usd), t0()).unwrap_err();
    assert_eq!(err, SubmitError::CurrencyMismatch);
    assert_eq!(w.book(&test_hour()).unwrap().best_ask(), Some(d("85.0")));
    let after = w.modify_order(gp, sell.id, upd(Currency::Eur), t0()).unwrap();
    assert_eq!(after.order.price, d("84.0"));
    assert_eq!(after.order.currency, Currency::Eur);
}

#[test]
fn canceled_orders_are_off_the_books() {
    let (mut w, gp) = setup_world_with_pool();
    let first = w.submit_order(gp, sample_sell(d("1.0"), d("85.0")), t0()).unwrap().id;
    let second = w.submit_order(gp, sample_sell(d("1.0"), d("86.0")), t0()).unwrap().id;
    w.submit_order(gp, sample_buy(d("0.4"), d("85.0")), t0()).unwrap();
    let later = plus(t0(), 7);
    let gone = w.cancel_order(gp, first, later).unwrap();
    assert_eq!(gone.state.state, OrderState::Canceled);
    assert_eq!(gone.state.reason, StateReason::Delete);
    assert_eq!(gone.state.actor, MarketActor::User);
    assert_eq!((gone.filled_quantity, gone.open_quantity), (d("0.4"), d("0.6")));
    assert_eq!(gone.modification_time, later);
    assert_eq!(w.owner_of(first), None);
    assert_eq!(w.owner_of(second), Some(gp));
    assert_eq!(ask_ids(&w), vec![second.0]);
    let err = w.cancel_order(gp, first, later).unwrap_err();
    assert_eq!(err, SubmitError::OrderAlreadyTerminal);
}

#[test]
fn expiry_clears_what_is_past_its_time() {
    let (mut w, gp) = setup_world_with_pool();
    let later_period = DeliveryPeriod {
        start: at(12, 15, 0),
        duration: DeliveryDuration::QuarterHour,
    };
    let later_key = ContractKey { area: test_hour().area, period: later_period };
    w.submit_order(gp, sample_sell(d("1.0"), d("85.0")), t0()).unwrap();
    w.submit_counterparty_order(sample_buy(d("1.0"), d("80.0")), t0()).unwrap();
    let later = |o: Order| Order { period: later_period, ..o };
    let kept = w.submit_order(gp, later(sample_sell(d("1.0"), d("85.0"))), t0()).unwrap().id;
    let lapses = Order {
        valid_until: Some(at(11, 0, 0)),
        ..later(sample_sell(d("1.0"), d("85.0")))
    };
    let lapses = w.submit_order(gp, lapses, t0()).unwrap().id;
    let stranger =
        w.submit_counterparty_order(later(sample_buy(d("1.0"), d("80.0"))), t0()).unwrap();
    assert_eq!(w.expire_lapsed_orders(at(12, 0, 0)), 3);
    assert!(w.book(&test_hour()).unwrap().is_empty());
    let book = w.book(&later_key).unwrap();
    assert!(book.contains(kept) && book.contains(stranger) && !book.contains(lapses));
    let pool = w.gridpools().get(gp).unwrap();
    assert_eq!(pool.get_order(lapses).unwrap().state.state, OrderState::Expired);
    assert_eq!(pool.get_order(kept).unwrap().state.state, OrderState::Active);
    assert_eq!(w.expire_lapsed_orders(at(12, 0, 0)), 0);
}
