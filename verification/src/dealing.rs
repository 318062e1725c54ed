//! What the simulated counterparties do.

use crate::book::{queue_of, EntryV};
use crate::counterparty::{
    ask_price, bid_price, fired, next_reference, posted, quote_order, refreshed, requoted, shot,
    shot_limit, shot_size, taken_up, withdrawn, AggressorV, MakerConfigV, MakerV,
};
use crate::ledger::lemma_book_at_wf;
use crate::lifecycle::lemma_candidates_same;
use crate::linkage::{in_order, lemma_contains_has_id, lemma_side_rests, touches};
use crate::model::{admitted, book_at, candidates, market_objection, take_total, KeyV, WorldV};
use crate::order::{ExecutionOption, OrderType, OrderV, Side};
use crate::quoting::{lemma_posted, lemma_withdrawn, quotes_rest_at_their_price, quotes_unbound};
use crate::sweeping::lemma_swept;
use crate::time::Timestamp;
use crate::trading::the_books_lose_what_is_traded;
use crate::world::placing::has_room_for;
use vstd::prelude::*;

verus! {

/// A quote is a limit order for the maker's contract and size, at its price,
/// with no restriction; a shot is one that is immediate or canceled.
pub proof fn quotes_and_shots_are_limit_orders(
    c: MakerConfigV,
    a: AggressorV,
    side: Side,
    price: int,
    size: int,
)
    ensures
        ({
            let q = quote_order(c, side, price);
            &&& q.area == c.area && q.period == c.period && q.currency == c.currency
            &&& q.side == side && q.price == price && q.quantity == c.size
            &&& q.order_type == OrderType::Limit
            &&& q.execution_option is None && q.valid_until is None && q.tag is None
            &&& q.stop_price is None && q.peak_price_delta is None && q.display_quantity is None
                && q.payload is None
        }),
        ({
            let s = shot(a, side, price, size);
            &&& s.area == a.area && s.period == a.period && s.currency == a.currency
            &&& s.side == side && s.price == price && s.quantity == size
            &&& s.order_type == OrderType::Limit
            &&& s.execution_option == Some(ExecutionOption::Ioc) && s.valid_until is None
                && s.tag is None
            &&& s.stop_price is None && s.peak_price_delta is None && s.display_quantity is None
                && s.payload is None
        }),
{
}

/// A maker that quotes anew buys at its bid and sells at its ask: under the
/// next two ids, what of its size does not trade at once rests on its
/// contract's book, the one among the bids and the other among the asks. It
/// keeps its configuration.
pub proof fn makers_quote_both_sides(m: MakerV, w: WorldV, bid: int, ask: int, now: Timestamp)
    requires
        in_order(w),
        quotes_unbound(m, w),
        bid < ask,
        ({
            let w1 = withdrawn(withdrawn(w, m.bid_id, now), m.ask_id, now);
            let b = quote_order(m.config, Side::Buy, bid);
            &&& taken_up(w1, b, now)
            &&& taken_up(posted(w1, b, now).1, quote_order(m.config, Side::Sell, ask), now)
        }),
    ensures
        ({
            let w1 = withdrawn(withdrawn(w, m.bid_id, now), m.ask_id, now);
            let bought = take_total(
                admitted(w1, quote_order(m.config, Side::Buy, bid), None, now).takes,
            );
            let w2 = posted(w1, quote_order(m.config, Side::Buy, bid), now).1;
            let sold = take_total(
                admitted(w2, quote_order(m.config, Side::Sell, ask), None, now).takes,
            );
            let (after, end) = requoted(m, w, bid, ask, now);
            let home = book_at(
                end.books,
                KeyV { area: m.config.area, period: m.config.period },
            );
            &&& after.config == m.config
            &&& after.bid_id == Some(w1.next_order_id)
            &&& after.ask_id == Some(w2.next_order_id)
            &&& bought < m.config.size ==> home.bids.contains(
                EntryV { id: w1.next_order_id, price: bid, open: m.config.size - bought },
            )
            &&& sold < m.config.size ==> home.asks.contains(
                EntryV { id: w2.next_order_id, price: ask, open: m.config.size - sold },
            )
        }),
{
    let c = m.config;
    let key = KeyV { area: c.area, period: c.period };
    let w0 = withdrawn(w, m.bid_id, now);
    lemma_withdrawn(w, m.bid_id, now);
    let w1 = withdrawn(w0, m.ask_id, now);
    lemma_withdrawn(w0, m.ask_id, now);
    let b = quote_order(c, Side::Buy, bid);
    let s = quote_order(c, Side::Sell, ask);
    lemma_posted(w1, b, now);
    quotes_rest_at_their_price(c, w1, Side::Buy, bid, now);
    let w2 = posted(w1, b, now).1;
    quotes_rest_at_their_price(c, w2, Side::Sell, ask, now);
    let a = admitted(w2, s, None, now);
    let bought = take_total(admitted(w1, b, None, now).takes);
    let e = EntryV { id: w1.next_order_id, price: bid, open: c.size - bought };
    if bought < c.size {
        the_books_lose_what_is_traded(w2, s, None, now);
        let q = queue_of(book_at(w2.books, key), Side::Buy);
        assert(q.contains(e));
        lemma_contains_has_id(q, e);
        lemma_side_rests(book_at(w2.books, key), Side::Buy, e.id);
        if touches(a.takes, e.id) {
            let i = choose|i: int| 0 <= i < a.takes.len() && (#[trigger] a.takes[i]).entry.id == e.id;
            let t = a.takes[i];
            let keys = candidates(w2, key, now);
            lemma_candidates_same(
                w2,
                WorldV { next_order_id: (w2.next_order_id + 1) as u64, ..w2 },
                key,
                now,
            );
            lemma_swept(w2.books, keys, Side::Sell, ask, c.size);
            assert(t.entry.price >= ask);
            let p = queue_of(book_at(w2.books, t.key), Side::Buy);
            assert(p.contains(t.entry));
            lemma_contains_has_id(p, t.entry);
            lemma_side_rests(book_at(w2.books, t.key), Side::Buy, e.id);
            assert(t.key == key);
            lemma_book_at_wf(w2.books, key);
            let x = choose|x: int| 0 <= x < q.len() && q[x] == e;
            let y = choose|y: int| 0 <= y < q.len() && q[y] == t.entry;
            assert(q[x].id == q[y].id);
            assert(x == y);
        }
        assert(book_at(a.world.books, key).bids.contains(e));
    }
}

/// A maker moves its reference first. Where its prices then cross it leaves
/// its quotes as they are; else it replaces both.
pub proof fn makers_refresh_on_the_new_reference(
    m: MakerV,
    w: WorldV,
    draw: int,
    scale: int,
    now: Timestamp,
)
    ensures
        refreshed(m, w, draw, scale, now) matches Some((after, end)) ==> {
            let c = after.config;
            &&& next_reference(m.config, w.trade_history, draw, scale) == Some(c.reference_price)
            &&& c == (MakerConfigV { reference_price: c.reference_price, ..m.config })
            &&& bid_price(c) is Some && ask_price(c) is Some
            &&& bid_price(c)->0 >= ask_price(c)->0 ==> end == w && after.bid_id == m.bid_id
                && after.ask_id == m.ask_id
            &&& bid_price(c)->0 < ask_price(c)->0 ==> (after, end) == requoted(
                MakerV { config: c, bid_id: m.bid_id, ask_id: m.ask_id },
                w,
                bid_price(c)->0,
                ask_price(c)->0,
                now,
            )
        },
{
}

/// An aggressor fires only where the best order on the other side of its own
/// contract is within its limit; then it sends one shot, and else nothing
/// happens.
pub proof fn aggressors_fire_at_what_they_see(
    c: AggressorV,
    w: WorldV,
    side: Side,
    multiplier: int,
    now: Timestamp,
)
    requires
        side == Side::Buy || side == Side::Sell,
        shot_limit(c, side) is Some,
    ensures
        ({
            let b = book_at(w.books, KeyV { area: c.area, period: c.period });
            let limit = shot_limit(c, side)->0;
            let seen = if side == Side::Buy {
                b.asks.len() > 0 && b.asks[0].price <= limit
            } else {
                b.bids.len() > 0 && b.bids[0].price >= limit
            };
            &&& !seen ==> fired(c, w, side, multiplier, now) == Some(w)
            &&& seen && shot_size(c, multiplier) is Some ==> fired(c, w, side, multiplier, now)
                == Some(posted(w, shot(c, side, limit, shot_size(c, multiplier)->0), now).1)
            &&& seen && shot_size(c, multiplier) is None ==> fired(
                c,
                w,
                side,
                multiplier,
                now,
            ) is None
        }),
{
}

/// An order of a counterparty that the market takes is admitted for nobody,
/// under the next id; one that it does not take changes nothing.
pub proof fn counterparties_trade_for_nobody(w: WorldV, o: OrderV, now: Timestamp)
    ensures
        market_objection(w, o, now) is None && has_room_for(w, o, now) ==> posted(w, o, now) == (
            Some(w.next_order_id),
            admitted(w, o, None, now).world,
        ),
        market_objection(w, o, now) is Some ==> posted(w, o, now) == (None::<u64>, w),
{
}

} // verus!
