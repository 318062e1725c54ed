use tradingsim::book::{price_better, price_crosses, OrderBook, Resting};
use tradingsim::decimal::Decimal;
use tradingsim::order::{OrderId, Side};

fn d(text: &str) -> Decimal {
    Decimal::parse(text).unwrap()
}

fn r(id: u64, qty: Decimal) -> Resting {
    Resting { id: OrderId(id), open_qty: qty }
}

#[test]
fn insert_then_best_levels() {
    let mut b = OrderBook::new();
    b.insert(Side::Buy, d("85.40"), r(1, d("1.0")));
    b.insert(Side::Buy, d("85.50"), r(2, d("0.5")));
    b.insert(Side::Sell, d("85.60"), r(3, d("2.0")));
    b.insert(Side::Sell, d("85.55"), r(4, d("0.3")));

    assert_eq!(b.best_bid(), Some(d("85.50")));
    assert_eq!(b.best_ask(), Some(d("85.55")));
    assert_eq!(b.len(), 4);
}

#[test]
fn fifo_at_same_price() {
    let mut b = OrderBook::new();
    b.insert(Side::Buy, d("85.0"), r(1, d("1.0")));
    b.insert(Side::Buy, d("85.0"), r(2, d("1.0")));
    b.insert(Side::Buy, d("85.0"), r(3, d("1.0")));
    let (_, id, _, _, fully) = b.consume_front(Side::Sell, d("1.0")).unwrap();
    assert_eq!(id, OrderId(1));
    assert!(fully);
    let (_, id, _, _, _) = b.consume_front(Side::Sell, d("1.0")).unwrap();
    assert_eq!(id, OrderId(2));
}

#[test]
fn cancel_removes_and_compacts_level() {
    let mut b = OrderBook::new();
    b.insert(Side::Sell, d("90.0"), r(1, d("1.0")));
    b.insert(Side::Sell, d("90.0"), r(2, d("2.0")));
    assert_eq!(b.depth_at(Side::Sell, d("90.0")), d("3.0"));

    let removed = b.cancel(OrderId(1)).unwrap();
    assert_eq!(removed.id, OrderId(1));
    assert_eq!(b.depth_at(Side::Sell, d("90.0")), d("2.0"));
    assert!(!b.contains(OrderId(1)));

    b.cancel(OrderId(2)).unwrap();
    assert!(b.is_empty());
    assert_eq!(b.best_ask(), None);
}

#[test]
fn cancel_missing_id_is_noop() {
    let mut b = OrderBook::new();
    assert!(b.cancel(OrderId(99)).is_none());
}

#[test]
fn insert_duplicate_id_is_rejected() {
    let mut b = OrderBook::new();
    assert!(b.insert(Side::Buy, d("85.0"), r(1, d("1.0"))));
    assert!(!b.insert(Side::Buy, d("86.0"), r(1, d("1.0"))));
    assert_eq!(b.len(), 1);
    assert_eq!(b.best_bid(), Some(d("85.0")));
}

#[test]
fn consume_front_partial_then_full() {
    let mut b = OrderBook::new();
    b.insert(Side::Sell, d("90.0"), r(1, d("2.0")));

    let (price, id, _, taken, fully) = b.consume_front(Side::Buy, d("0.5")).unwrap();
    assert_eq!(price, d("90.0"));
    assert_eq!(id, OrderId(1));
    assert_eq!(taken, d("0.5"));
    assert!(!fully);
    assert!(b.contains(OrderId(1)));
    assert_eq!(b.depth_at(Side::Sell, d("90.0")), d("1.5"));

    let (_, _, _, taken, fully) = b.consume_front(Side::Buy, d("5.0")).unwrap();
    assert_eq!(taken, d("1.5"));
    assert!(fully);
    assert!(b.is_empty());
    assert_eq!(b.best_ask(), None);
}

#[test]
fn peek_opposite_picks_best() {
    let mut b = OrderBook::new();
    b.insert(Side::Sell, d("90.0"), r(1, d("1.0")));
    b.insert(Side::Sell, d("91.0"), r(2, d("1.0")));
    b.insert(Side::Buy, d("89.0"), r(3, d("1.0")));
    b.insert(Side::Buy, d("88.5"), r(4, d("1.0")));
    assert_eq!(b.peek_opposite(Side::Buy), Some(d("90.0")));
    assert_eq!(b.peek_opposite(Side::Sell), Some(d("89.0")));
}

#[test]
fn consume_front_on_empty_side_returns_none() {
    let mut b = OrderBook::new();
    assert!(b.consume_front(Side::Buy, d("1.0")).is_none());
}

#[test]
fn an_order_without_a_side_does_not_rest() {
    let mut b = OrderBook::new();
    assert!(!b.insert(Side::Unspecified, d("85.0"), r(1, d("1.0"))));
    assert!(b.is_empty());
    assert_eq!(b.peek_opposite(Side::Unspecified), None);
}

#[test]
fn newcomer_goes_behind_its_own_level_only() {
    let mut b = OrderBook::new();
    b.insert(Side::Sell, d("90.0"), r(1, d("1.0")));
    b.insert(Side::Sell, d("91.0"), r(2, d("1.0")));
    b.insert(Side::Sell, d("90.0"), r(3, d("1.0")));
    let ids: Vec<u64> = b
        .marketable_orders(Side::Buy, d("91.0"))
        .iter()
        .map(|(id, _, _)| id.0)
        .collect();
    assert_eq!(ids, vec![1, 3, 2]);
}

#[test]
fn canceling_a_newcomer_restores_the_book() {
    let mut b = OrderBook::new();
    b.insert(Side::Buy, d("85.0"), r(1, d("1.0")));
    b.insert(Side::Buy, d("84.0"), r(2, d("2.0")));
    let before = b.iter_with_quantity();
    b.insert(Side::Buy, d("86.0"), r(3, d("3.0")));
    assert_eq!(b.cancel_with_meta(OrderId(3)), Some((Side::Buy, d("86.0"))));
    assert_eq!(b.iter_with_quantity(), before);
    assert_eq!(b.cancel_with_meta(OrderId(3)), None);
}

#[test]
fn resize_keeps_the_place_in_the_queue() {
    let mut b = OrderBook::new();
    b.insert(Side::Buy, d("85.0"), r(1, d("1.0")));
    b.insert(Side::Buy, d("85.0"), r(2, d("1.0")));
    assert!(b.resize(OrderId(1), d("0.4")));
    assert!(!b.resize(OrderId(9), d("0.4")));
    let (_, id, _, taken, fully) = b.consume_front(Side::Sell, d("1.0")).unwrap();
    assert_eq!(id, OrderId(1));
    assert_eq!(taken, d("0.4"));
    assert!(fully);
}

#[test]
fn marketable_depth_stops_at_the_limit() {
    let mut b = OrderBook::new();
    b.insert(Side::Sell, d("90.0"), r(1, d("1.0")));
    b.insert(Side::Sell, d("91.0"), r(2, d("0.5")));
    b.insert(Side::Sell, d("92.0"), r(3, d("4.0")));
    assert_eq!(b.marketable_depth(Side::Buy, d("91.0")), d("1.5"));
    assert_eq!(b.marketable_depth(Side::Buy, d("89.9")), d("0"));
    assert_eq!(b.total_open_qty(), d("5.5"));
    assert_eq!(b.len_of(Side::Sell), 3);
    assert_eq!(b.len_of(Side::Buy), 0);
}

#[test]
fn meta_lists_every_resting_order_once() {
    let mut b = OrderBook::new();
    b.insert(Side::Sell, d("90.0"), r(1, d("1.0")));
    b.insert(Side::Buy, d("89.0"), r(2, d("0.5")));
    let meta = b.iter_with_meta();
    assert_eq!(meta.len(), 2);
    assert!(meta.contains(&(OrderId(1), Side::Sell, d("90.0"))));
    assert!(meta.contains(&(OrderId(2), Side::Buy, d("89.0"))));
}

#[test]
fn crossing_and_better_prices() {
    assert!(price_crosses(Side::Buy, d("85.0"), d("85.0")));
    assert!(!price_crosses(Side::Buy, d("85.0"), d("85.01")));
    assert!(price_crosses(Side::Sell, d("85.0"), d("85.01")));
    assert!(!price_crosses(Side::Sell, d("85.0"), d("84.99")));
    assert!(price_better(Side::Sell, d("84.0"), d("85.0")));
    assert!(price_better(Side::Buy, d("86.0"), d("85.0")));
    assert!(!price_better(Side::Buy, d("85.0"), d("85.0")));
}

#[test]
fn shortfalls_count_what_is_in_reach() {
    let mut b = OrderBook::new();
    b.insert(Side::Sell, d("90.0"), r(1, d("1.25")));
    b.insert(Side::Sell, d("91.0"), r(2, d("0.5")));
    assert_eq!(b.short_of(Side::Buy, d("90.0"), d("2.0")), d("0.75"));
    assert_eq!(b.short_of(Side::Buy, d("91.0"), d("2.0")), d("0.25"));
    assert_eq!(b.short_of(Side::Buy, d("91.0"), d("1.75")), d("0"));
    assert_eq!(b.short_of(Side::Buy, d("89.0"), d("2.0")), d("2.0"));
    assert_eq!(b.short_of(Side::Sell, d("80.0"), d("2.0")), d("2.0"));
    assert_eq!(b.short_of(Side::Unspecified, d("90.0"), d("2.0")), d("2.0"));
}

#[test]
fn a_listing_shows_the_whole_book() {
    let mut b = OrderBook::new();
    b.insert(Side::Buy, d("85.0"), r(1, d("1.0")));
    b.insert(Side::Buy, d("84.0"), r(2, d("2.0")));
    b.insert(Side::Buy, d("85.0"), r(3, d("0.5")));
    b.insert(Side::Sell, d("86.0"), r(4, d("0.25")));
    b.insert(Side::Sell, d("86.0"), r(5, d("0.75")));
    let list = b.iter_with_quantity();
    let ids: Vec<u64> = list.iter().map(|e| e.0.0).collect();
    assert_eq!(ids, vec![2, 1, 3, 4, 5]);
    assert_eq!(list.len(), b.len());
    let sum = |side: Side, price: Decimal| {
        list.iter()
            .filter(|e| e.1 == side && e.2 == price)
            .fold(Decimal::zero(), |sum, e| sum.plus(e.3))
    };
    assert_eq!(sum(Side::Buy, d("85.0")), b.depth_at(Side::Buy, d("85.0")));
    assert_eq!(sum(Side::Buy, d("85.0")), d("1.5"));
    assert_eq!(sum(Side::Sell, d("86.0")), b.depth_at(Side::Sell, d("86.0")));
    let all = list.iter().fold(Decimal::zero(), |sum, e| sum.plus(e.3));
    assert_eq!(all, b.total_open_qty());
    assert_eq!(all, d("4.5"));
}

#[test]
fn better_limits_reach_no_less() {
    let mut b = OrderBook::new();
    b.insert(Side::Sell, d("90.0"), r(1, d("1.0")));
    b.insert(Side::Sell, d("91.0"), r(2, d("0.5")));
    b.insert(Side::Buy, d("89.0"), r(3, d("2.0")));
    b.insert(Side::Buy, d("88.0"), r(4, d("4.0")));
    let up = ["89.9", "90.0", "90.5", "91.0", "99.0"];
    let depths: Vec<Decimal> =
        up.iter().map(|p| b.marketable_depth(Side::Buy, d(p))).collect();
    assert_eq!(depths, vec![d("0"), d("1.0"), d("1.0"), d("1.5"), d("1.5")]);
    let down = ["89.1", "89.0", "88.5", "88.0", "-1.0"];
    let depths: Vec<Decimal> =
        down.iter().map(|p| b.marketable_depth(Side::Sell, d(p))).collect();
    assert_eq!(depths, vec![d("0"), d("2.0"), d("2.0"), d("6.0"), d("6.0")]);
    assert_eq!(b.marketable_depth(Side::Unspecified, d("90.0")), d("0"));
}
