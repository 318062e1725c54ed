use tradingsim::book::OrderBook;
use tradingsim::decimal::Decimal;
use tradingsim::matching::{match_limit, ExecMode, Fill, IncomingLimit};
use tradingsim::order::{OrderId, Side};

fn d(text: &str) -> Decimal {
    Decimal::parse(text).unwrap()
}

fn lim(id: u64, side: Side, price: Decimal, qty: Decimal) -> IncomingLimit {
    IncomingLimit { id: OrderId(id), side, price, quantity: qty }
}

#[test]
fn no_cross_just_rests() {
    let mut b = OrderBook::new();
    let out = match_limit(&mut b, lim(1, Side::Buy, d("85.0"), d("1.0")), ExecMode::Resting);
    assert!(out.fills.is_empty());
    assert_eq!(out.rested.unwrap().id, OrderId(1));
    assert_eq!(b.best_bid(), Some(d("85.0")));
}

#[test]
fn full_match_against_single_resting() {
    let mut b = OrderBook::new();
    match_limit(&mut b, lim(1, Side::Sell, d("85.0"), d("1.0")), ExecMode::Resting);
    let out = match_limit(&mut b, lim(2, Side::Buy, d("85.0"), d("1.0")), ExecMode::Resting);

    assert_eq!(out.fills.len(), 1);
    assert_eq!(
        out.fills[0],
        Fill {
            taker_id: OrderId(2),
            maker_id: OrderId(1),
            price: d("85.0"),
            quantity: d("1.0")
        }
    );
    assert!(out.rested.is_none());
    assert!(b.is_empty());
}

#[test]
fn taker_larger_than_resting_partial_rest() {
    let mut b = OrderBook::new();
    match_limit(&mut b, lim(1, Side::Sell, d("85.0"), d("0.5")), ExecMode::Resting);
    let out = match_limit(&mut b, lim(2, Side::Buy, d("86.0"), d("2.0")), ExecMode::Resting);

    assert_eq!(out.fills.len(), 1);
    assert_eq!(out.fills[0].quantity, d("0.5"));
    // Leftover 1.5 rests at the taker's limit price.
    let rested = out.rested.unwrap();
    assert_eq!(rested.id, OrderId(2));
    assert_eq!(rested.open_qty, d("1.5"));
    assert_eq!(b.best_bid(), Some(d("86.0")));
    assert_eq!(b.best_ask(), None);
}

#[test]
fn sweeps_multiple_levels_in_price_order() {
    let mut b = OrderBook::new();
    match_limit(&mut b, lim(1, Side::Sell, d("85.0"), d("0.5")), ExecMode::Resting);
    match_limit(&mut b, lim(2, Side::Sell, d("85.5"), d("0.5")), ExecMode::Resting);
    match_limit(&mut b, lim(3, Side::Sell, d("86.0"), d("0.5")), ExecMode::Resting);

    let out = match_limit(&mut b, lim(4, Side::Buy, d("86.0"), d("1.2")), ExecMode::Resting);
    assert_eq!(out.fills.len(), 3);
    // Best ask first.
    assert_eq!(out.fills[0].price, d("85.0"));
    assert_eq!(out.fills[1].price, d("85.5"));
    assert_eq!(out.fills[2].price, d("86.0"));
    // Third fill partial: only 0.2 left.
    assert_eq!(out.fills[2].quantity, d("0.2"));
    // Remaining 0.3 of order 3 rests.
    assert_eq!(b.depth_at(Side::Sell, d("86.0")), d("0.3"));
    assert!(out.rested.is_none());
}

#[test]
fn time_priority_at_same_level() {
    let mut b = OrderBook::new();
    // Three sells at 85.0, inserted in id order.
    match_limit(&mut b, lim(1, Side::Sell, d("85.0"), d("1.0")), ExecMode::Resting);
    match_limit(&mut b, lim(2, Side::Sell, d("85.0"), d("1.0")), ExecMode::Resting);
    match_limit(&mut b, lim(3, Side::Sell, d("85.0"), d("1.0")), ExecMode::Resting);

    // Buy 2.5 sweeps id 1 in full, id 2 in full, id 3 partially.
    let out = match_limit(&mut b, lim(4, Side::Buy, d("85.0"), d("2.5")), ExecMode::Resting);
    let maker_ids: Vec<_> = out.fills.iter().map(|f| f.maker_id).collect();
    assert_eq!(maker_ids, vec![OrderId(1), OrderId(2), OrderId(3)]);
    let taken: Vec<_> = out.fills.iter().map(|f| f.quantity).collect();
    assert_eq!(taken, vec![d("1.0"), d("1.0"), d("0.5")]);
    assert_eq!(b.depth_at(Side::Sell, d("85.0")), d("0.5"));
}

#[test]
fn taker_stops_at_non_crossing_level() {
    let mut b = OrderBook::new();
    match_limit(&mut b, lim(1, Side::Sell, d("85.0"), d("0.3")), ExecMode::Resting);
    match_limit(&mut b, lim(2, Side::Sell, d("86.0"), d("1.0")), ExecMode::Resting); // too expensive

    // Buyer limit at 85.0: only the 85.0 level is takeable.
    let out = match_limit(&mut b, lim(3, Side::Buy, d("85.0"), d("2.0")), ExecMode::Resting);
    assert_eq!(out.fills.len(), 1);
    assert_eq!(out.fills[0].quantity, d("0.3"));
    // Leftover (1.7) rests at the buyer's 85.0.
    assert_eq!(out.rested.unwrap().open_qty, d("1.7"));
    assert_eq!(b.best_bid(), Some(d("85.0")));
    assert_eq!(b.best_ask(), Some(d("86.0")));
}

#[test]
fn match_price_is_maker_price_not_taker() {
    let mut b = OrderBook::new();
    match_limit(&mut b, lim(1, Side::Sell, d("85.0"), d("1.0")), ExecMode::Resting);
    // Buyer willing to pay 90, but matches at 85.
    let out = match_limit(&mut b, lim(2, Side::Buy, d("90.0"), d("1.0")), ExecMode::Resting);
    assert_eq!(out.fills[0].price, d("85.0"));
}

/// Forty orders on the price and quantity grid, from a small generator.
fn assorted_orders() -> Vec<(Side, Decimal, Decimal)> {
    let mut seed: u64 = 42;
    let mut out = Vec::new();
    for _ in 0..40 {
        seed = seed.wrapping_mul(6364136223846793005).wrapping_add(1442695040888963407);
        let bits = seed >> 33;
        let side = if bits % 2 == 0 { Side::Buy } else { Side::Sell };
        let price = Decimal::new(8000 + ((bits / 2) % 1000) as i64, 2);
        let qty = Decimal::new(1 + ((bits / 2000) % 29) as i64, 1);
        out.push((side, price, qty));
    }
    out
}

#[test]
fn book_never_crossed() {
    let mut book = OrderBook::new();
    for (i, (side, price, qty)) in assorted_orders().iter().enumerate() {
        match_limit(&mut book, lim(i as u64, *side, *price, *qty), ExecMode::Resting);
        if let (Some(bb), Some(ba)) = (book.best_bid(), book.best_ask()) {
            assert!(bb.less(ba), "crossed book after op {i}");
        }
    }
}

#[test]
fn quantity_conserved() {
    let mut book = OrderBook::new();
    let mut total_in = Decimal::zero();
    let mut total_fills = Decimal::zero();
    for (i, (side, price, qty)) in assorted_orders().iter().enumerate() {
        total_in = total_in.plus(*qty);
        let out = match_limit(&mut book, lim(i as u64, *side, *price, *qty), ExecMode::Resting);
        for f in &out.fills {
            total_fills = total_fills.plus(f.quantity);
        }
    }
    assert_eq!(total_in, total_fills.plus(total_fills).plus(book.total_open_qty()));
}

#[test]
fn fill_prices_obey_limits() {
    let mut book = OrderBook::new();
    for (i, (side, price, qty)) in assorted_orders().iter().enumerate() {
        let out = match_limit(&mut book, lim(i as u64, *side, *price, *qty), ExecMode::Resting);
        for f in &out.fills {
            match side {
                Side::Buy => assert!(!price.less(f.price)),
                Side::Sell => assert!(!f.price.less(*price)),
                Side::Unspecified => unreachable!(),
            }
        }
    }
}

#[test]
fn fill_or_kill_is_all_or_nothing() {
    let mut b = OrderBook::new();
    match_limit(&mut b, lim(1, Side::Sell, d("85.0"), d("1.0")), ExecMode::Resting);
    let out = match_limit(&mut b, lim(2, Side::Buy, d("85.0"), d("1.5")), ExecMode::FillOrKill);
    assert!(out.fills.is_empty());
    assert!(out.rested.is_none());
    assert_eq!(b.depth_at(Side::Sell, d("85.0")), d("1.0"));
    let out = match_limit(&mut b, lim(3, Side::Buy, d("85.0"), d("1.0")), ExecMode::FillOrKill);
    assert_eq!(out.fills.len(), 1);
    assert!(b.is_empty());
}

#[test]
fn immediate_or_cancel_does_not_rest() {
    let mut b = OrderBook::new();
    match_limit(&mut b, lim(1, Side::Sell, d("85.0"), d("1.0")), ExecMode::Resting);
    let out = match_limit(&mut b, lim(2, Side::Buy, d("85.0"), d("1.5")), ExecMode::ImmediateOrCancel);
    assert_eq!(out.fills.len(), 1);
    assert!(out.rested.is_none());
    assert!(b.is_empty());
}

#[test]
fn a_run_of_all_kinds_keeps_its_books() {
    let modes = [ExecMode::Resting, ExecMode::ImmediateOrCancel, ExecMode::FillOrKill];
    let mut b = OrderBook::new();
    let (mut arrived, mut traded, mut dropped) = (d("0"), d("0"), d("0"));
    let mut seen: Vec<IncomingLimit> = Vec::new();
    for (i, (side, price, qty)) in assorted_orders().into_iter().enumerate() {
        let mode = modes[i % 3];
        let order = lim(i as u64 + 1, side, price, qty);
        let out = match_limit(&mut b, order, mode);
        let filled = out.fills.iter().fold(d("0"), |sum, f| sum.plus(f.quantity));
        for f in &out.fills {
            let maker = seen.iter().find(|o| o.id == f.maker_id).unwrap();
            assert_eq!(maker.price, f.price);
            assert_eq!(maker.side, side.opposite());
        }
        arrived = arrived.plus(qty);
        traded = traded.plus(filled);
        if mode != ExecMode::Resting {
            dropped = dropped.plus(qty.minus(filled));
        }
        seen.push(order);
        if let (Some(bid), Some(ask)) = (b.best_bid(), b.best_ask()) {
            assert!(bid.less(ask));
        }
        assert_eq!(
            arrived,
            traded.plus(traded).plus(b.total_open_qty()).plus(dropped)
        );
    }
}
