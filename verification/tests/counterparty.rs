use chrono::TimeZone;
use tradingsim::counterparty::{Aggressor, AggressorConfig, MarketMaker, MarketMakerConfig};
use tradingsim::decimal::Decimal;
use tradingsim::market::{
    Area, Currency, DeliveryDuration, DeliveryPeriod, MarketRegistry, MarketRules,
};
use tradingsim::order::{Order, Side};
use tradingsim::time::Timestamp;
use tradingsim::world::{ContractKey, World};

fn d(text: &str) -> Decimal {
    Decimal::parse(text).unwrap()
}

fn at(h: u32, m: u32, s: u32) -> Timestamp {
    Timestamp::from_secs(
        chrono::Utc.with_ymd_and_hms(2026, 5, 13, h, m, s).unwrap().timestamp(),
    )
}

/// This many seconds later.
fn plus(t: Timestamp, secs: i64) -> Timestamp {
    Timestamp { secs: t.secs + secs, ..t }
}

fn setup_world() -> (World, MarketMakerConfig) {
    let mut markets = MarketRegistry::new();
    markets.insert(MarketRules::default_for_tests());
    let world = World::new(markets);
    let cfg = MarketMakerConfig {
        price_noise: d("0"), // deterministic
        ..MarketMakerConfig::default_for(
            Area::eic("10YDE-EON------1"),
            DeliveryPeriod {
                start: at(12, 0, 0),
                duration: DeliveryDuration::QuarterHour,
            },
        )
    };
    (world, cfg)
}

/// Deterministic "now" four hours before the test period — sits
/// well inside the trading window so that submissions before gate
/// closure are accepted.
fn t0() -> Timestamp {
    at(8, 0, 0)
}

#[test]
fn refresh_posts_bid_and_ask_around_reference() {
    let (mut world, cfg) = setup_world();
    let key = ContractKey {
        area: cfg.area.clone(),
        period: cfg.period,
    };
    let mut mm = MarketMaker::new(cfg.clone(), 42);
    mm.refresh(&mut world, t0(), d("1"));
    let book = world.book(&key).unwrap();
    assert_eq!(book.best_bid(), Some(d("84.60")));
    assert_eq!(book.best_ask(), Some(d("85.40")));
    assert_eq!(book.len(), 2);
}

#[test]
fn refresh_cancels_previous_quotes() {
    let (mut world, cfg) = setup_world();
    let key = ContractKey {
        area: cfg.area.clone(),
        period: cfg.period,
    };
    let mut mm = MarketMaker::new(cfg, 42);
    mm.refresh(&mut world, t0(), d("1"));
    mm.refresh(&mut world, t0(), d("1"));
    let book = world.book(&key).unwrap();
    // After two refreshes the book still holds exactly one bid
    // + one ask — the old ones were cancelled, not stacked.
    assert_eq!(book.len(), 2);
}

#[test]
fn demand_tilts_bid_up() {
    let (mut world, mut cfg) = setup_world();
    cfg.demand = d("0.20");
    let key = ContractKey {
        area: cfg.area.clone(),
        period: cfg.period,
    };
    let mut mm = MarketMaker::new(cfg, 42);
    mm.refresh(&mut world, t0(), d("1"));
    let book = world.book(&key).unwrap();
    assert_eq!(book.best_bid(), Some(d("84.80")));
    assert_eq!(book.best_ask(), Some(d("85.40")));
}

#[test]
fn surplus_tilts_ask_down() {
    let (mut world, mut cfg) = setup_world();
    cfg.surplus = d("0.20");
    let key = ContractKey {
        area: cfg.area.clone(),
        period: cfg.period,
    };
    let mut mm = MarketMaker::new(cfg, 42);
    mm.refresh(&mut world, t0(), d("1"));
    let book = world.book(&key).unwrap();
    assert_eq!(book.best_ask(), Some(d("85.20")));
}

#[test]
fn shared_config_mutation_takes_effect_on_next_refresh() {
    let (mut world, cfg) = setup_world();
    let key = ContractKey {
        area: cfg.area.clone(),
        period: cfg.period,
    };
    let mut mm = MarketMaker::new(cfg, 42);
    mm.refresh(&mut world, t0(), d("1"));
    let pre_bid = world.book(&key).unwrap().best_bid().unwrap();

    // External writer raises demand by 0.20 EUR/MWh.
    mm.shared_config().demand = d("0.20");
    mm.refresh(&mut world, t0(), d("1"));
    let post_bid = world.book(&key).unwrap().best_bid().unwrap();
    assert_eq!(post_bid.minus(pre_bid), d("0.20"));
}

#[test]
fn aggressor_buys_against_best_ask() {
    let (mut world, mm_cfg) = setup_world();
    let mut mm = MarketMaker::new(mm_cfg.clone(), 42);
    mm.refresh(&mut world, t0(), d("1"));
    // After MM refresh: best ask should be reference + spread = 85.4.
    let ask_before = world
        .book(&ContractKey {
            area: mm_cfg.area.clone(),
            period: mm_cfg.period,
        })
        .unwrap()
        .best_ask()
        .unwrap();
    let ag_cfg = AggressorConfig {
        size: d("0.5"),
        ..AggressorConfig::default_for(mm_cfg.area.clone(), mm_cfg.period)
    };
    let ag = Aggressor::new(ag_cfg);
    ag.fire(&mut world, t0(), Side::Buy, d("1"));
    // The MM's ask depth at that price drops by 0.5; if it
    // started at 1.0 it's now 0.5.
    let depth = world
        .book(&ContractKey {
            area: mm_cfg.area.clone(),
            period: mm_cfg.period,
        })
        .unwrap()
        .depth_at(Side::Sell, ask_before);
    assert_eq!(depth, d("0.5"));
}

#[test]
fn aggressor_skips_when_best_opposite_exceeds_slippage() {
    // Regression for: user places a sell at 173 EUR while the
    // MM reference (and aggressor fair value) is ~80 EUR.
    // With size > MM depth, an aggressor previously depleted
    // the MM ask and then lifted the user's 173 sell on its
    // next fire because target_price tracked best_ask
    // blindly. The slippage clamp now stops that.
    let (mut world, mm_cfg) = setup_world();
    let key = ContractKey {
        area: mm_cfg.area.clone(),
        period: mm_cfg.period,
    };
    // Seed a far-off-market sell. Two crossing counterparty
    // orders place it without anyone immediately taking it.
    let stale_sell = Order::limit(
        mm_cfg.area.clone(),
        mm_cfg.period,
        Side::Sell,
        d("173.00"),
        d("10.0"),
        Currency::Eur,
    );
    world
        .submit_counterparty_order(stale_sell, t0())
        .expect("place stale sell");
    let trades_before = world.public_trade_history().len();

    // Aggressor with reference 80 + slippage 5 sees a 173 ask
    // and refuses to fire — the crossing check fails.
    let ag_cfg = AggressorConfig {
        size: d("0.5"),
        reference_price: d("80.00"),
        max_slippage: d("5.00"),
        ..AggressorConfig::default_for(mm_cfg.area.clone(), mm_cfg.period)
    };
    let ag = Aggressor::new(ag_cfg);
    for _ in 0..10 {
        ag.fire(&mut world, t0(), Side::Buy, d("1"));
    }
    // No trades happened; the 173 sell still sits untouched.
    assert_eq!(world.public_trade_history().len(), trades_before);
    let book = world.book(&key).unwrap();
    assert_eq!(book.depth_at(Side::Sell, d("173.00")), d("10.0"));
}

#[test]
fn aggressor_skips_empty_book() {
    let (mut world, mm_cfg) = setup_world();
    // No MM refresh — book is empty for this contract.
    let ag_cfg = AggressorConfig::default_for(mm_cfg.area.clone(), mm_cfg.period);
    let ag = Aggressor::new(ag_cfg);
    ag.fire(&mut world, t0(), Side::Buy, d("1"));
    ag.fire(&mut world, t0(), Side::Sell, d("1"));
    // No panic, no trades — graceful no-op.
    let key = ContractKey {
        area: mm_cfg.area.clone(),
        period: mm_cfg.period,
    };
    assert!(world.book(&key).map(|b| b.is_empty()).unwrap_or(true));
}

#[test]
fn mm_drift_pulls_reference_toward_last_trade() {
    let (mut world, mut cfg) = setup_world();
    cfg.follow_last_trade = d("0.5"); // pull halfway each refresh

    // Pre-seed a public trade at 90 on this contract — two
    // crossing counterparty orders on an empty book (no MM
    // resting yet to interfere with the match).
    let mk = |side, price| {
        Order::limit(cfg.area.clone(), cfg.period, side, price, d("0.1"), Currency::Eur)
    };
    world
        .submit_counterparty_order(mk(Side::Sell, d("90.0")), t0())
        .unwrap();
    world
        .submit_counterparty_order(mk(Side::Buy, d("90.0")), t0())
        .unwrap();

    // Now spawn the MM with drift enabled. First refresh sees
    // the seeded trade at 90 → ref pulls 85 → 87.50.
    let mut mm = MarketMaker::new(cfg.clone(), 0);
    mm.refresh(&mut world, t0(), d("1"));
    assert_eq!(mm.config().reference_price, d("87.50"));
}

#[test]
fn collapsed_spread_skips_posting() {
    let (mut world, mut cfg) = setup_world();
    cfg.demand = d("10");
    cfg.surplus = d("10");
    let key = ContractKey {
        area: cfg.area.clone(),
        period: cfg.period,
    };
    let mut mm = MarketMaker::new(cfg, 42);
    mm.refresh(&mut world, t0(), d("1"));
    let book = world.book(&key);
    // Book may not even exist yet; if it does, it should be empty.
    if let Some(b) = book {
        assert!(b.is_empty());
    }
}

#[test]
fn mm_step_reference_mean_reverts_toward_baseline() {
    let (mut world, mut cfg) = setup_world();
    cfg.price_noise = d("0"); // disable the walk
    cfg.follow_last_trade = d("0"); // disable follow
    cfg.reference_baseline = d("90.00"); // target 5 EUR above price
    cfg.reference_price = d("85.00");
    let mut mm = MarketMaker::new(cfg, 0);
    mm.refresh(&mut world, t0(), d("1"));
    // MEAN_REVERT_RATE = 0.02. 85 + 0.02 * 5 = 85.10
    let r1 = mm.config().reference_price;
    assert_eq!(r1, d("85.10"));
    mm.refresh(&mut world, t0(), d("1"));
    // 85.10 + 0.02 * (90 - 85.10) = 85.198
    let r2 = mm.config().reference_price;
    assert_eq!(r2, d("85.198"));
}

#[test]
fn mm_step_reference_baseline_equal_to_price_is_a_no_op() {
    let (mut world, mut cfg) = setup_world();
    cfg.price_noise = d("0");
    cfg.follow_last_trade = d("0");
    cfg.reference_baseline = d("85.00");
    cfg.reference_price = d("85.00");
    let mut mm = MarketMaker::new(cfg, 0);
    mm.refresh(&mut world, t0(), d("1"));
    assert_eq!(mm.config().reference_price, d("85.00"));
}

/// Helper for the aggressor tests: post a resting MM bid at
/// `bid_price` so a sell-side aggressor has someone to cross.
/// Returns (world, mm_cfg) for further setup.
fn world_with_resting_bid(now: Timestamp, bid_price: Decimal) -> World {
    let mut markets = MarketRegistry::new();
    markets.insert(MarketRules::default_for_tests());
    let mut world = World::new(markets);
    // Spawn a chubby MM whose bid sits where we want it. Push
    // reference well above bid_price so the ask is also far
    // above — guarantees the aggressor's sell crosses the bid.
    let mm_cfg = MarketMakerConfig {
        reference_baseline: bid_price.plus(d("0.40")),
        reference_price: bid_price.plus(d("0.40")),
        spread: d("0.40"),
        size: d("50.0"), // huge so it absorbs many fires
        price_noise: d("0"),
        ..MarketMakerConfig::default_for(
            Area::eic("10YDE-EON------1"),
            DeliveryPeriod {
                start: at(12, 0, 0),
                duration: DeliveryDuration::QuarterHour,
            },
        )
    };
    let mut mm = MarketMaker::new(mm_cfg, 99);
    mm.refresh(&mut world, now, d("1"));
    world
}

#[test]
fn aggressor_fire_size_ramps_at_gate() {
    let gate = at(12, 0, 0);
    let bid_price = d("80.00");

    // Fire 2 h from gate — size should land at base (no ramp).
    let mut world_far = world_with_resting_bid(plus(gate, -2 * 3600), bid_price);
    let ag_cfg = AggressorConfig {
        size: d("0.5"),
        ..AggressorConfig::default_for(
            Area::eic("10YDE-EON------1"),
            DeliveryPeriod {
                start: gate,
                duration: DeliveryDuration::QuarterHour,
            },
        )
    };
    let ag_far = Aggressor::new(ag_cfg.clone());
    ag_far.fire(&mut world_far, plus(gate, -2 * 3600), Side::Sell, d("1"));
    let trade_far = world_far.public_trade_history().last().cloned().unwrap();

    // Fire 1 min before gate — submit_order rejects at/after
    // delivery start, so step right up to the edge instead of
    // landing on it. The scale at 1 min out is ~2.99 → size
    // mult ≈ 1.99 → snaps to 1.0 on the 0.1 grid.
    let just_before_gate = plus(gate, -1 * 60);
    let mut world_close = world_with_resting_bid(just_before_gate, bid_price);
    let ag_close = Aggressor::new(ag_cfg);
    ag_close.fire(&mut world_close, just_before_gate, Side::Sell, d("1.9916666666666667"));
    let trade_close = world_close.public_trade_history().last().cloned().unwrap();

    // Base 0.5 × 1.0 = 0.5 (snapped to 0.5 on 0.1 grid).
    // Gate  0.5 × 1.99 ≈ 1.0 (snap-up).
    assert_eq!(trade_far.quantity, d("0.5"));
    assert_eq!(trade_close.quantity, d("1.0"));
}

#[test]
fn aggressor_ioc_residual_does_not_rest() {
    // Regression: pre-fix, submit_counterparty_order hardcoded
    // ExecMode::Resting so an aggressor's IOC flag was ignored.
    // A 1 MW aggressor buy at limit 55 with only 0.4 MW of
    // crossable ask depth would rest 0.6 MW on the bid side at
    // 55, and the next opposite-side fire would trade against
    // it — producing a stream of trades at the slippage cap
    // (e.g. repeated 55 EUR prints on night-curve contracts).
    let (mut world, mm_cfg) = setup_world();
    let key = ContractKey {
        area: mm_cfg.area.clone(),
        period: mm_cfg.period,
    };
    // Seed a thin MM ask at 50 with only 0.4 MW of depth.
    let thin_ask = Order::limit(
        mm_cfg.area.clone(),
        mm_cfg.period,
        Side::Sell,
        d("50.00"),
        d("0.4"),
        Currency::Eur,
    );
    world
        .submit_counterparty_order(thin_ask, t0())
        .expect("seed thin ask");

    // Aggressor with reference 50 + slippage 5 wants 1 MW.
    // Eats the 0.4 MW thin ask; remainder (0.6 MW) must NOT
    // rest at the slippage-cap (55) — IOC should kill it.
    let ag_cfg = AggressorConfig {
        size: d("1.0"),
        reference_price: d("50.00"),
        max_slippage: d("5.00"),
        ..AggressorConfig::default_for(mm_cfg.area.clone(), mm_cfg.period)
    };
    let ag = Aggressor::new(ag_cfg);
    ag.fire(&mut world, t0(), Side::Buy, d("1"));

    // One fill happened (the 0.4 MW thin ask), and nothing
    // rests on the bid side — IOC dropped the leftover.
    let trades = world.public_trade_history();
    assert_eq!(trades.len(), 1);
    assert_eq!(trades[0].price, d("50.00"));
    let book = world.book(&key).unwrap();
    assert_eq!(book.best_bid(), None);
}

#[test]
fn draws_move_the_reference_by_the_noise() {
    let (mut world, mut cfg) = setup_world();
    cfg.price_noise = d("0.50");
    let mut mm = MarketMaker::new(cfg, 0);
    // Sixty percent of the noise, twice as much near gate closure.
    assert!(mm.refresh_with(&mut world, t0(), d("2"), 60));
    assert_eq!(mm.config().reference_price, d("85.60"));
}

#[test]
fn refreshes_stay_within_the_noise() {
    let (mut world, mut cfg) = setup_world();
    cfg.price_noise = d("0.50");
    let mut mm = MarketMaker::new(cfg, 42);
    let mut moved = false;
    let mut last = d("85");
    for _ in 0..20 {
        assert!(mm.refresh(&mut world, t0(), d("1")));
        let next = mm.config().reference_price;
        let gap = last.max(next).minus(last.min(next));
        assert!(!d("0.6").less(gap));
        moved = moved || next != last;
        last = next;
    }
    assert!(moved);
}

#[test]
fn retired_makers_leave_nothing_behind() {
    let (mut world, cfg) = setup_world();
    let key = ContractKey { area: cfg.area.clone(), period: cfg.period };
    let mut mm = MarketMaker::new(cfg, 42);
    mm.refresh(&mut world, t0(), d("1"));
    mm.cancel_resting(&mut world, t0());
    assert!(world.book(&key).unwrap().is_empty());
}

#[test]
fn overflowing_quotes_leave_everything_as_it_was() {
    let (mut world, mut cfg) = setup_world();
    let key = ContractKey { area: cfg.area.clone(), period: cfg.period };
    cfg.spread = d("79228162514264337593543950335");
    let mut mm = MarketMaker::new(cfg, 42);
    assert!(!mm.refresh(&mut world, t0(), d("1")));
    assert!(world.book(&key).is_none());
    assert_eq!(mm.config().reference_price, d("85"));
}

#[test]
fn bands_below_zero_hold() {
    let (mut world, cfg) = setup_world();
    let key = ContractKey { area: cfg.area.clone(), period: cfg.period };
    let order = |side: Side, price: &str| {
        Order::limit(cfg.area.clone(), cfg.period, side, d(price), d("1.0"), Currency::Eur)
    };
    world.submit_counterparty_order(order(Side::Sell, "-10.00"), t0()).unwrap();
    let ag = Aggressor::new(AggressorConfig {
        size: d("0.5"),
        reference_price: d("-50.00"),
        max_slippage: d("5.00"),
        ..AggressorConfig::default_for(cfg.area.clone(), cfg.period)
    });
    assert!(ag.fire(&mut world, t0(), Side::Buy, d("1")));
    assert!(world.public_trade_history().is_empty());
    assert_eq!(world.book(&key).unwrap().depth_at(Side::Sell, d("-10.00")), d("1.0"));
    // At the edge of the band it trades.
    world.submit_counterparty_order(order(Side::Sell, "-45.00"), t0()).unwrap();
    assert!(ag.fire(&mut world, t0(), Side::Buy, d("1")));
    let history = world.public_trade_history();
    assert_eq!(history.len(), 1);
    assert_eq!(history[0].price, d("-45.00"));
    // Below it a seller does not.
    let (mut world, _) = setup_world();
    world.submit_counterparty_order(order(Side::Buy, "-55.01"), t0()).unwrap();
    assert!(ag.fire(&mut world, t0(), Side::Sell, d("1")));
    assert!(world.public_trade_history().is_empty());
    world.submit_counterparty_order(order(Side::Buy, "-55.00"), t0()).unwrap();
    assert!(ag.fire(&mut world, t0(), Side::Sell, d("1")));
    assert_eq!(world.public_trade_history().len(), 1);
}

#[test]
fn edges_off_the_grid_are_not_overstepped() {
    let (mut world, cfg) = setup_world();
    let order = Order::limit(
        cfg.area.clone(),
        cfg.period,
        Side::Sell,
        d("90.01"),
        d("1.0"),
        Currency::Eur,
    );
    world.submit_counterparty_order(order, t0()).unwrap();
    let ag = Aggressor::new(AggressorConfig {
        size: d("0.5"),
        reference_price: d("85.006"),
        max_slippage: d("5.00"),
        ..AggressorConfig::default_for(cfg.area.clone(), cfg.period)
    });
    assert!(ag.fire(&mut world, t0(), Side::Buy, d("1")));
    assert!(world.public_trade_history().is_empty());
}

#[test]
fn shots_keep_a_distance() {
    let (_, cfg) = setup_world();
    let mut config = AggressorConfig::default_for(cfg.area.clone(), cfg.period);
    config.set_rate_ms(1);
    assert_eq!(config.rate_ms, 50);
    config.set_rate_ms(51);
    assert_eq!(config.rate_ms, 51);
}
