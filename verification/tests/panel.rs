use tradingsim::areas::{
    all_areas, area_tag, short_order_state, short_side, short_trade_state, AreaGroup,
};
use tradingsim::panel::{
    busiest, chosen_period, empty_tape_text, format_back, info_line, pick_x_step, stage_mark,
    toggle_focus, trades_line, tz_line, FilterState, SparkState, StageMark, TradeTape,
};
use tradingsim::ui::{GridpoolResp, InfoResp, PublicTradeJson};

const TN: &str = "10YDE-EON------1";
const FR: &str = "10YFR-RTE------C";

fn print(id: u64, area: &str, period: &str) -> PublicTradeJson {
    PublicTradeJson {
        id,
        buy_area: area.to_string(),
        sell_area: area.to_string(),
        period: period.to_string(),
        price: "85".to_string(),
        quantity: "0.5".to_string(),
        execution_time: "2026-05-13T08:07:00+00:00".to_string(),
    }
}

#[test]
fn areas_have_tags() {
    assert_eq!(all_areas().len(), 8);
    assert_eq!(all_areas().iter().filter(|a| a.group == AreaGroup::Home).count(), 4);
    assert_eq!(area_tag(TN), "TN");
    assert_eq!(area_tag(FR), "FR");
    assert_eq!(area_tag("XXXX"), "?");
}

#[test]
fn names_are_shortened_or_kept() {
    assert_eq!(short_side("MARKET_SIDE_BUY"), "buy");
    assert_eq!(short_order_state("ORDER_STATE_FILLED"), "filled");
    assert_eq!(short_trade_state("TRADE_STATE_RECALLED"), "recalled");
    assert_eq!(short_side("something else"), "something else");
}

#[test]
fn sparks_count_prints_and_fade() {
    let mut s = SparkState::default();
    s.record(TN);
    s.record(TN);
    s.record("XXXX");
    let total = |s: &SparkState| -> u32 {
        s.sparks().iter().map(|k| k.bars.iter().sum::<u32>()).sum()
    };
    assert_eq!(total(&s), 2);
    let bars = s.sparks()[0].bars.len();
    for _ in 0..bars {
        s.rotate();
    }
    assert_eq!(total(&s), 0);
}

#[test]
fn chips_toggle_and_survive_a_reload() {
    let mut f = FilterState::default();
    let before = f.is_active(TN);
    f.toggle(TN);
    assert_eq!(f.is_active(TN), !before);
    f.toggle_neighbours();
    let (active, neighbours) = f.save();
    let g = FilterState::restore(Some(active.as_str()), Some(neighbours));
    for a in all_areas() {
        assert_eq!(g.is_active(a.code), f.is_active(a.code));
    }
    assert_eq!(g.neighbours_shown(), f.neighbours_shown());
    f.toggle(TN);
    assert_eq!(f.is_active(TN), before);
}

#[test]
fn the_tape_shows_what_the_chips_let_through() {
    let mut tape = TradeTape::new();
    tape.push(print(1, TN, "b"));
    tape.push(print(2, TN, "a"));
    tape.push(print(3, FR, "a"));
    assert_eq!(tape.trades()[0].id, 3);
    assert_eq!(tape.periods(), vec!["a".to_string(), "b".to_string()]);
    assert!(tape.has_period("b"));
    assert!(!tape.has_period("c"));
    let home = FilterState::restore(Some(TN), Some("false"));
    let shown = |p: Option<&str>, q: Option<&str>| -> Vec<u64> {
        tape.visible(&home, p, q).iter().map(|i| tape.trades()[*i].id).collect()
    };
    assert_eq!(shown(None, None), vec![2, 1]);
    assert_eq!(shown(Some("a"), None), vec![2]);
    assert_eq!(shown(None, Some("b")), vec![1]);
    assert!(shown(Some("a"), Some("b")).is_empty());
}

#[test]
fn choices_and_focus() {
    assert_eq!(chosen_period("all"), None);
    assert_eq!(chosen_period(""), None);
    assert_eq!(chosen_period("p"), Some("p".to_string()));
    assert_eq!(toggle_focus(None, "p"), Some("p".to_string()));
    assert_eq!(toggle_focus(Some("p"), "p"), None);
    assert_eq!(toggle_focus(Some("q"), "p"), Some("p".to_string()));
    assert_eq!(empty_tape_text(true, false), "no prints for this delivery");
    assert_eq!(empty_tape_text(false, false), "no prints for the active areas");
}

#[test]
fn chart_marks() {
    assert_eq!(format_back(0), "now");
    assert_eq!(format_back(45), "-45m");
    assert_eq!(format_back(120), "-2h");
    assert_eq!(format_back(150), "-2h30m");
    assert_eq!(pick_x_step(8), 1);
    assert_eq!(pick_x_step(60), 10);
}

#[test]
fn lines_of_the_header() {
    let i = InfoResp { version: "0.1.0".to_string(), gridpools: 1, markets: 2, couplings: 3 };
    assert!(info_line(&i).contains("0.1.0"));
    assert!(tz_line("Europe/Berlin").contains("Europe/Berlin"));
    let tape = TradeTape::new();
    assert!(trades_line(7, &tape).contains('7'));
}

#[test]
fn the_busiest_pool_trades_most() {
    let pool = |id: u64, trades: usize| GridpoolResp {
        id,
        name: String::new(),
        areas: vec![],
        orders: 0,
        trades,
    };
    assert_eq!(busiest(&vec![]), None);
    assert_eq!(busiest(&vec![pool(1, 2), pool(2, 5), pool(3, 5)]), Some(2));
    let at = busiest(&vec![pool(1, 2), pool(2, 5), pool(3, 4)]).unwrap();
    assert_eq!(at, 1);
}

#[test]
fn stages_before_and_after_the_current_one() {
    assert_eq!(stage_mark(0, 1), StageMark::Done);
    assert_eq!(stage_mark(1, 1), StageMark::Current);
    assert_eq!(stage_mark(2, 1), StageMark::Ahead);
}
