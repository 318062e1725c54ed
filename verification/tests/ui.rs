use tradingsim::clock::Clock;
use tradingsim::decimal::Decimal;
use tradingsim::gridpool::Gridpool;
use tradingsim::market::{
    Area, Currency, DeliveryDuration, DeliveryPeriod, MarketRegistry, MarketRules,
};
use tradingsim::order::GridpoolId;
use tradingsim::scenarios::{
    Command, Refusal, ScenarioDef, ScenarioRegistry, Stage, WallClock,
};
use tradingsim::time::Timestamp;
use tradingsim::trade::{PublicTrade, TradeId, TradeState};
use tradingsim::ui::{
    book_record_to_json, clock_info, gridpool_list, info, scenario_to_json, trade_to_json,
    write_instant,
};
use tradingsim::wire;
use tradingsim::world::World;

const DE_TN: &str = "10YDE-EON------1";

// 2026-05-13T08:07:00Z
const NOW: i64 = 1778659620;

fn now() -> Timestamp {
    Timestamp::from_secs(NOW)
}

fn empty_world() -> World {
    let mut markets = MarketRegistry::new();
    markets.insert(MarketRules::for_area(Area::eic(DE_TN), Currency::Eur));
    let mut world = World::new(markets);
    world.register_gridpool(Gridpool::new(GridpoolId(1), "test", vec![Area::eic(DE_TN)]));
    world
}

fn stage(name: &str, hour_from: u32, hour_to: u32) -> Stage {
    Stage { name: name.to_string(), from_sec: hour_from * 3600, to_sec: hour_to * 3600 }
}

fn three_stage_scenario() -> Vec<Stage> {
    vec![stage("overnight", 0, 6), stage("morning", 6, 12), stage("afternoon", 12, 24)]
}

fn registry_with(name: &str) -> ScenarioRegistry {
    let mut reg = ScenarioRegistry::new();
    reg.define(ScenarioDef {
        name: name.to_string(),
        description: "test".to_string(),
        stages: three_stage_scenario(),
    });
    reg
}

const MORNING: u32 = 10 * 3600;

#[test]
fn api_info_returns_version_and_counts() {
    let j = info(&empty_world(), "0.1.0");
    assert_eq!(j.version, "0.1.0");
    assert_eq!(j.gridpools, 1);
    assert_eq!(j.markets, 1);
    assert_eq!(j.couplings, 0);
}

#[test]
fn api_clock_returns_default_berlin() {
    assert_eq!(clock_info(&Clock::default()).tz, "Europe/Berlin");
}

#[test]
fn api_gridpools_lists_registered_pool() {
    let arr = gridpool_list(&empty_world());
    assert_eq!(arr.len(), 1);
    assert_eq!(arr[0].id, 1);
    assert_eq!(arr[0].name, "test");
    assert_eq!(arr[0].areas, vec![DE_TN.to_string()]);
    assert_eq!(arr[0].orders, 0);
}

#[test]
fn api_scenarios_empty_by_default() {
    assert_eq!(ScenarioRegistry::new().entries().len(), 0);
}

#[test]
fn api_scenarios_lists_registered_with_stages() {
    let reg = registry_with("alpha");
    assert_eq!(reg.entries().len(), 1);
    let j = scenario_to_json(&reg.entries()[0], MORNING);
    assert_eq!(j.name, "alpha");
    assert_eq!(j.stages.len(), 3);
    assert_eq!(j.current_stage, None);
    // The three stages cover the full day with no gaps.
    assert_eq!(j.wallclock_stage, Some(1));
}

#[test]
fn scenario_start_sets_current_stage_and_clears_manual() {
    let mut reg = registry_with("alpha");
    let at = reg.command("alpha", Command::Start, MORNING, now()).unwrap();
    let j = scenario_to_json(&reg.entries()[at], MORNING);
    assert_eq!(j.current_stage, Some(1));
    assert_eq!(j.manual_override, false);
    assert!(j.started_at.is_some());
}

#[test]
fn scenario_jump_sets_manual_when_target_is_not_wallclock() {
    // First stage spans 0 to 6: jumping there from outside that window flips
    // the override on.
    let mut reg = registry_with("alpha");
    reg.command("alpha", Command::Start, MORNING, now()).unwrap();
    let at = reg.command("alpha", Command::Jump(0), MORNING, now()).unwrap();
    let j = scenario_to_json(&reg.entries()[at], MORNING);
    assert_eq!(j.current_stage, Some(0));
    assert_eq!(j.manual_override, true);
    // Inside it, off.
    let at = reg.command("alpha", Command::Jump(1), MORNING, now()).unwrap();
    assert_eq!(reg.entries()[at].runtime.manual_override, false);
}

#[test]
fn scenario_jump_out_of_range_returns_400() {
    let mut reg = registry_with("alpha");
    let res = reg.command("alpha", Command::Jump(9), MORNING, now());
    assert_eq!(res, Err(Refusal::BadRequest));
}

#[test]
fn scenario_next_prev_walk_stage_indices() {
    let mut reg = registry_with("alpha");
    reg.command("alpha", Command::Start, MORNING, now()).unwrap();
    // Jump to 0 so we have a known starting point.
    reg.command("alpha", Command::Jump(0), MORNING, now()).unwrap();
    let at = reg.command("alpha", Command::Next, MORNING, now()).unwrap();
    assert_eq!(reg.entries()[at].runtime.current_stage, Some(1));
    let at = reg.command("alpha", Command::Next, MORNING, now()).unwrap();
    assert_eq!(reg.entries()[at].runtime.current_stage, Some(2));
    // Next at the last stage is refused.
    assert_eq!(reg.command("alpha", Command::Next, MORNING, now()), Err(Refusal::BadRequest));
    let at = reg.command("alpha", Command::Prev, MORNING, now()).unwrap();
    assert_eq!(reg.entries()[at].runtime.current_stage, Some(1));
}

#[test]
fn scenario_stop_clears_runtime() {
    let mut reg = registry_with("alpha");
    reg.command("alpha", Command::Start, MORNING, now()).unwrap();
    let at = reg.command("alpha", Command::Stop, MORNING, now()).unwrap();
    let j = scenario_to_json(&reg.entries()[at], MORNING);
    assert_eq!(j.current_stage, None);
    assert_eq!(j.manual_override, false);
    assert_eq!(j.started_at, None);
}

#[test]
fn scenario_endpoints_return_404_for_unknown_name() {
    let mut reg = registry_with("alpha");
    for c in [Command::Start, Command::Next, Command::Prev, Command::Jump(0), Command::Stop] {
        assert_eq!(reg.command("ghost", c, MORNING, now()), Err(Refusal::NotFound));
    }
}

#[test]
fn api_clock_reflects_runtime_tz_changes() {
    let mut clock = Clock::default();
    assert_eq!(clock_info(&clock).tz, "Europe/Berlin");
    clock = Clock::new("America/New_York").unwrap();
    assert_eq!(clock_info(&clock).tz, "America/New_York");
}

#[test]
fn running_scenarios_follow_the_wall_clock_until_taken_over() {
    let mut reg = registry_with("alpha");
    reg.command("alpha", Command::Start, MORNING, now()).unwrap();
    let noon: u32 = 12 * 3600 + 60;
    let later = Timestamp::from_secs(NOW + 2 * 3600);
    assert_eq!(reg.pick_active_stage(noon, later), Some((0, 2)));
    let entered = reg.entries()[0].runtime.stage_entered_at.unwrap();
    // The stage began a minute ago.
    assert_eq!(entered, Timestamp::from_secs(later.secs - 60));
    // The operator's choice stands.
    reg.command("alpha", Command::Jump(0), noon, later).unwrap();
    assert_eq!(reg.pick_active_stage(noon, later), Some((0, 0)));
    reg.command("alpha", Command::Stop, noon, later).unwrap();
    assert_eq!(reg.pick_active_stage(noon, later), None);
}

#[test]
fn wall_clock_stages_are_half_open() {
    let def = ScenarioDef {
        name: "gap".to_string(),
        description: String::new(),
        stages: vec![stage("one", 6, 8), stage("two", 8, 9)],
    };
    assert_eq!(def.wallclock_stage(6 * 3600 - 1), None);
    assert_eq!(def.wallclock_stage(6 * 3600), Some(0));
    assert_eq!(def.wallclock_stage(8 * 3600), Some(1));
    assert_eq!(def.wallclock_stage(9 * 3600), None);
    let wall = def.wall(8 * 3600 + 10, now());
    assert_eq!(wall, WallClock { stage: Some(1), entered_at: Timestamp::from_secs(NOW - 10) });
}

#[test]
fn defining_again_replaces_and_stops() {
    let mut reg = registry_with("alpha");
    reg.command("alpha", Command::Start, MORNING, now()).unwrap();
    reg.define(ScenarioDef {
        name: "alpha".to_string(),
        description: "new".to_string(),
        stages: vec![],
    });
    assert_eq!(reg.entries().len(), 1);
    assert_eq!(reg.entries()[0].runtime.current_stage, None);
    // A scenario without stages does not start.
    assert_eq!(reg.command("alpha", Command::Start, MORNING, now()), Err(Refusal::BadRequest));
}

#[test]
fn instants_are_written_with_their_offset() {
    assert_eq!(write_instant(NOW, 0), "2026-05-13T08:07:00+00:00");
    assert_eq!(write_instant(NOW, 500_000_000), "2026-05-13T08:07:00.500+00:00");
}

#[test]
fn trades_and_book_records_as_text() {
    let t = PublicTrade {
        id: TradeId(3),
        buy_area: Area::eic(DE_TN),
        sell_area: Area::eic("10YFR-RTE------C"),
        period: DeliveryPeriod {
            start: Timestamp::from_secs(1778659200),
            duration: DeliveryDuration::QuarterHour,
        },
        execution_time: now(),
        price: Decimal::parse("85.00").unwrap(),
        currency: Currency::Eur,
        quantity: Decimal::parse("0.5").unwrap(),
        state: TradeState::Active,
    };
    let j = trade_to_json(&t);
    assert_eq!(j.id, 3);
    assert_eq!(j.buy_area, DE_TN);
    assert_eq!(j.sell_area, "10YFR-RTE------C");
    assert_eq!(j.price, "85");
    assert_eq!(j.quantity, "0.5");
    assert_eq!(j.period, "2026-05-13T08:00:00+00:00");
    assert_eq!(j.execution_time, "2026-05-13T08:07:00+00:00");

    let b = wire::PublicOrderBookRecord {
        id: 9,
        delivery_area: None,
        delivery_period: None,
        order_type: None,
        side: 2,
        price: None,
        quantity: Some(wire::Power { mw: Some(wire::Decimal { value: "0".to_string() }) }),
        execution_option: None,
        create_time: None,
        update_time: None,
    };
    let j = book_record_to_json(&b);
    assert_eq!(j.id, 9);
    assert_eq!(j.side, 2);
    assert_eq!(j.quantity, "0");
}
