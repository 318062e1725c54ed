use tradingsim::areas::all_areas;
use tradingsim::dashboard::{
    active_scenario, boundary_ms, can_step, chart_rows, chips, freshest, is_home, keep_order,
    keep_period, neighbours_label, orders_note, rows_of, trades_note, weather_rows,
};
use tradingsim::panel::{FilterState, TradeTape};
use tradingsim::ui::PublicTradeJson;

const TN: &str = "10YDE-EON------1";
const FR: &str = "10YFR-RTE------C";
const AT: &str = "10YAT-APG------L";

fn print(id: u64, buy: &str, sell: &str) -> PublicTradeJson {
    PublicTradeJson {
        id,
        buy_area: buy.to_string(),
        sell_area: sell.to_string(),
        period: String::new(),
        price: "85".to_string(),
        quantity: "0.5".to_string(),
        execution_time: String::new(),
    }
}

fn texts(list: &[&str]) -> Vec<String> {
    list.iter().map(|t| t.to_string()).collect()
}

#[test]
fn stale_choices_are_dropped() {
    let periods = texts(&["a", "b"]);
    assert_eq!(keep_period(&periods, Some("b".to_string())), Some("b".to_string()));
    assert_eq!(keep_period(&periods, Some("c".to_string())), None);
    assert_eq!(keep_period(&periods, None), None);
    assert_eq!(keep_order(&vec![4, 7], Some(7)), Some(7));
    assert_eq!(keep_order(&vec![4, 7], Some(9)), None);
    assert_eq!(keep_order(&vec![4, 7], None), None);
}

#[test]
fn rows_of_one_delivery_or_all() {
    let periods = texts(&["a", "b", "a"]);
    assert_eq!(rows_of(&periods, Some("a")), vec![0, 2]);
    assert_eq!(rows_of(&periods, Some("c")), Vec::<usize>::new());
    assert_eq!(rows_of(&periods, None), vec![0, 1, 2]);
}

#[test]
fn empty_panes_say_why() {
    assert_eq!(orders_note(false, true), "select a gridpool");
    assert_eq!(orders_note(true, true), "no orders for this delivery");
    assert_eq!(orders_note(true, false), "no orders for this gridpool");
    assert_eq!(trades_note(false, false), "select a gridpool");
    assert_eq!(trades_note(true, false), "select an order");
    assert_eq!(trades_note(true, true), "no trades yet for this order");
}

#[test]
fn chips_at_home_and_abroad() {
    let mut f = FilterState::default();
    assert_eq!(chips(&f), vec![0, 1, 2, 3]);
    f.toggle_neighbours();
    assert_eq!(chips(&f).len(), all_areas().len());
    assert_ne!(neighbours_label(true), neighbours_label(false));
}

#[test]
fn weather_of_the_active_areas() {
    let f = FilterState::default();
    let codes = vec![None, Some(TN.to_string()), Some(FR.to_string())];
    assert_eq!(weather_rows(&f, &codes), vec![1]);
}

#[test]
fn scenario_controls() {
    assert_eq!(active_scenario(&vec![None, Some(2), Some(0)]), Some(1));
    assert_eq!(active_scenario(&vec![None, None]), None);
    assert_eq!(can_step(0, 3), (false, true));
    assert_eq!(can_step(2, 3), (true, false));
    assert_eq!(can_step(0, 0), (false, false));
}

#[test]
fn the_chart_follows_the_freshest_print_at_home() {
    assert!(is_home(TN));
    assert!(!is_home(FR));
    let mut tape = TradeTape::new();
    tape.push(print(1, TN, TN));
    tape.push(print(2, FR, TN));
    tape.push(print(3, FR, AT));
    tape.push(print(4, TN, FR));
    // Newest first: 4, 3, 2, 1.
    let times = vec![Some(50), Some(90), Some(70), None];
    let starts = vec![Some(900_000), Some(0), Some(900_000), Some(900_000)];
    assert_eq!(freshest(&tape, &times, 10), Some(2));
    assert_eq!(freshest(&tape, &times, 80), None);
    assert_eq!(chart_rows(&tape, &times, &starts, 10, 900_000), vec![0, 2]);
    assert_eq!(chart_rows(&tape, &times, &starts, 60, 900_000), vec![2]);
}

#[test]
fn boundaries_in_milliseconds() {
    assert_eq!(boundary_ms(900_000), 900_000);
    assert_eq!(boundary_ms(900_001), 1_800_000);
    assert_eq!(boundary_ms(0), 0);
}
