//! What one order takes from one book, and what an updated order trades.

use crate::answers::{
    lemma_applied_detail, lemma_rematched_detail, lemma_same_pools_put, lemma_thin_open,
};
use crate::book::{
    book_wf, canceled, crosses, has_id, ids_distinct, queue_of, resized, BookV, EntryV,
};
use crate::filing::{lemma_put_trades, lemma_run_filed};
use crate::ledger::{lemma_book_at_wf, lemma_detail_id, lemma_put, lemma_traced_keeps};
use crate::lifecycle::lemma_recorded_keeps;
use crate::linkage::{
    in_order, in_place, lemma_contains_has_id, lemma_filled_of_takes, lemma_fills_are_takes,
    lemma_recorded_details, lemma_rematched_links, lemma_stored_lose,
    smaller_updates_keep_their_place, takes_distinct, takes_on,
};
use crate::matching::{
    all_open, filled, fills_of, lemma_filled_is_taken, lemma_reachable_suffices, lemma_sweep,
    lemma_taken_nonnegative, matched, sweep, ExecMode, FillV,
};
use crate::model::{
    book_at, books_wf, bound_to, detail_at, detail_put, detail_updated, fill_of, fills_recorded,
    fills_traced, key_of, maker_filled, modified, modify_rejection, on_pool, owners_known,
    public_trade_of_fill, rematch_of, rematched, stays_put, take_total, taker_filled,
    takes_recorded, update_applied, world_wf, KeyV, Take, Taker, UpdateV, WorldV,
};
use crate::order::{other_side, DetailV, MarketActor, OrderState, OrderV, Side, StateReason};
use crate::table::{holds, lemma_stored, stored, value_at};
use crate::time::Timestamp;
use crate::trade::{PublicTradeV, TradeState, TradeV};
use crate::upkeep::other_updates_go_to_the_tail;
use vstd::prelude::*;

verus! {

/// The side of a book that an order on this side trades with.
pub open spec fn far_side(b: BookV, side: Side) -> Seq<EntryV> {
    if side == Side::Buy {
        b.asks
    } else {
        b.bids
    }
}

/// The fills of an order on one book come off the front of the other side, one
/// after the other: each is with the next order there, at that order's price
/// and within the limit, for all that order has open, but for the last, which
/// may be for less. They stop only where the quantity is used up or nothing is
/// left within the limit. What is left of the other side is the rest of it.
pub proof fn fills_come_off_the_front(
    b: BookV,
    id: u64,
    side: Side,
    price: int,
    qty: int,
    mode: ExecMode,
)
    requires
        book_wf(b),
        all_open(b.bids),
        all_open(b.asks),
        side == Side::Buy || side == Side::Sell,
        qty > 0,
    ensures
        ({
            let m = matched(b, id, side, price, qty, mode);
            let far = far_side(b, side);
            let rest = far_side(m.book, side);
            let n = m.fills.len() as int;
            &&& n <= far.len()
            &&& forall|i: int|
                0 <= i < n ==> {
                    let f = #[trigger] m.fills[i];
                    &&& f.taker_id == id
                    &&& f.maker_id == far[i].id
                    &&& f.price == far[i].price
                    &&& 0 < f.quantity <= far[i].open
                    &&& i < n - 1 ==> f.quantity == far[i].open
                    &&& side == Side::Buy ==> f.price <= price
                    &&& side == Side::Sell ==> f.price >= price
                }
            &&& filled(m.fills) <= qty
            &&& mode != ExecMode::FillOrKill && filled(m.fills) < qty && n < far.len() ==> if side
                == Side::Buy {
                far[n].price > price
            } else {
                far[n].price < price
            }
            &&& mode == ExecMode::FillOrKill ==> n == 0 || filled(m.fills) == qty
            &&& rest.len() == far.len() - n + if n > 0 && m.fills[n - 1].quantity < far[n
                - 1].open {
                1int
            } else {
                0
            }
            &&& forall|j: int|
                0 <= j < far.len() - n ==> rest[rest.len() - far.len() + n + j] == #[trigger] far[n
                    + j]
            &&& n > 0 && m.fills[n - 1].quantity < far[n - 1].open ==> rest[0] == (EntryV {
                id: far[n - 1].id,
                price: far[n - 1].price,
                open: far[n - 1].open - m.fills[n - 1].quantity,
            })
        }),
{
    let q = queue_of(b, other_side(side));
    let s = sweep(side, price, qty, q);
    let m = matched(b, id, side, price, qty, mode);
    lemma_sweep(side, price, qty, q);
    lemma_sweep_rest(side, price, qty, q);
    lemma_filled_is_taken(id, s.taken);
    lemma_reachable_suffices(side, price, qty, q);
    let n = m.fills.len() as int;
    if n > 0 {
        assert forall|i: int| 0 <= i < n implies (#[trigger] m.fills[i]).maker_id == q[i].id
            && m.fills[i].price == q[i].price && m.fills[i].quantity == s.taken[i].1 by {
            assert(s.taken[i].0 == q[i]);
        }
    }
    if n == s.taken.len() && s.left > 0 && s.queue.len() > 0 {
        assert(s.queue[0] == q[n]);
    }
}

/// What a sweep leaves of a queue.
proof fn lemma_sweep_rest(taker: Side, limit: int, qty: int, q: Seq<EntryV>)
    requires
        all_open(q),
        qty >= 0,
    ensures
        ({
            let s = sweep(taker, limit, qty, q);
            let n = s.taken.len() as int;
            let part = n > 0 && s.taken[n - 1].1 < q[n - 1].open;
            &&& n <= q.len()
            &&& s.queue == if part {
                seq![EntryV { open: q[n - 1].open - s.taken[n - 1].1, ..q[n - 1] }] + q.skip(n)
            } else {
                q.skip(n)
            }
        }),
    decreases q.len(),
{
    let s = sweep(taker, limit, qty, q);
    if qty <= 0 || q.len() == 0 || !crosses(taker, limit, q[0].price) {
        assert(q.skip(0) =~= q);
    } else if q[0].open <= qty {
        let rest_q = q.drop_first();
        assert forall|i: int| 0 <= i < rest_q.len() implies (#[trigger] rest_q[i]).open > 0 by {
            assert(rest_q[i] == q[i + 1]);
        }
        lemma_sweep_rest(taker, limit, qty - q[0].open, rest_q);
        let rest = sweep(taker, limit, qty - q[0].open, rest_q);
        let n = s.taken.len() as int;
        assert(n == rest.taken.len() + 1);
        assert(rest_q.skip(n - 1) =~= q.skip(n));
        if n > 1 {
            assert(s.taken[n - 1] == rest.taken[n - 2]);
            assert(rest_q[n - 2] == q[n - 1]);
        }
    } else {
        assert(s.queue =~= seq![EntryV { open: q[0].open - qty, ..q[0] }] + q.skip(1));
    }
}

/// The sum of the quantities of trades.
pub open spec fn traded_total(trades: Seq<PublicTradeV>) -> int
    decreases trades.len(),
{
    if trades.len() == 0 {
        0
    } else {
        traded_total(trades.drop_last()) + trades.last().quantity
    }
}

proof fn lemma_traded_total(trades: Seq<PublicTradeV>, takes: Seq<Take>)
    requires
        trades.len() == takes.len(),
        forall|i: int|
            0 <= i < trades.len() ==> (#[trigger] trades[i]).quantity == takes[i].quantity,
    ensures
        traded_total(trades) == take_total(takes),
    decreases trades.len(),
{
    if trades.len() > 0 {
        let n = trades.len() - 1;
        assert forall|i: int| 0 <= i < n implies (#[trigger] trades.drop_last()[i]).quantity
            == takes.drop_last()[i].quantity by {
            assert(trades[i].quantity == takes[i].quantity);
        }
        lemma_traded_total(trades.drop_last(), takes.drop_last());
        assert(trades[n].quantity == takes[n].quantity);
    }
}

/// The other side of the contract that an order is for.
pub open spec fn facing(w: WorldV, o: OrderV) -> Seq<EntryV> {
    far_side(book_at(w.books, KeyV { area: o.area, period: o.period }), o.side)
}

proof fn lemma_fills_tape(
    w: WorldV,
    taker: Taker,
    fills: Seq<FillV>,
    book: BookV,
    now: Timestamp,
)
    ensures
        ({
            let after = fills_traced(w, taker, fills, book, now);
            &&& after.outbox.public_trades == w.outbox.public_trades
            &&& after.outbox.trades == w.outbox.trades
            &&& after.gridpools == w.gridpools
            &&& after.owners == w.owners
            &&& after.next_trade_id == w.next_trade_id
            &&& after.books == w.books
        }),
    decreases fills.len(),
{
    if fills.len() > 0 {
        lemma_fills_tape(w, taker, fills.drop_last(), book, now);
    }
}

/// The order as it stands once it is updated, before it is matched again.
pub open spec fn renewed(w: WorldV, pool: u64, id: u64, u: UpdateV, now: Timestamp) -> DetailV {
    detail_updated(detail_at(w, pool, id), u, now)
}

/// Who takes when an updated order is matched again.
pub open spec fn retaker(w: WorldV, pool: u64, id: u64) -> Taker {
    let o = detail_at(w, pool, id).order;
    Taker { id, side: o.side, currency: o.currency, key: key_of(o) }
}

/// What an updated order takes.
pub open spec fn retaken(w: WorldV, pool: u64, id: u64, u: UpdateV, now: Timestamp) -> Seq<(EntryV, int)> {
    let d = renewed(w, pool, id, u, now);
    if stays_put(w, pool, id, u) || d.open_quantity <= 0 {
        Seq::empty()
    } else {
        sweep(d.order.side, d.order.price, d.open_quantity, facing(w, d.order)).taken
    }
}

/// The updated order is one that is matched again.
pub open spec fn goes_again(w: WorldV, pool: u64, id: u64, u: UpdateV, now: Timestamp) -> bool {
    !stays_put(w, pool, id, u) && renewed(w, pool, id, u, now).open_quantity > 0
}

/// The state before the fills of an updated order are recorded.
pub open spec fn prepared(w: WorldV, pool: u64, id: u64, u: UpdateV, now: Timestamp) -> WorldV {
    let v = update_applied(w, pool, id, u, now);
    let m = rematch_of(v, pool, id);
    let tk = retaker(w, pool, id);
    fills_traced(
        WorldV { books: stored(v.books, tk.key, m.book), ..v },
        tk,
        m.fills,
        m.book,
        now,
    )
}

pub open spec fn updatable(w: WorldV, pool: u64, id: u64, u: UpdateV, now: Timestamp) -> bool {
    let o = detail_at(w, pool, id).order;
    &&& in_order(w)
    &&& modify_rejection(w, pool, id, u, now) is None
    &&& o.side == Side::Buy || o.side == Side::Sell
}

/// What an updated order meets.
pub proof fn lemma_met(w: WorldV, pool: u64, id: u64, u: UpdateV, now: Timestamp)
    requires
        updatable(w, pool, id, u, now),
        goes_again(w, pool, id, u, now),
    ensures
        ({
            let d = renewed(w, pool, id, u, now);
            let far = facing(w, d.order);
            let v = update_applied(w, pool, id, u, now);
            let m = rematch_of(v, pool, id);
            let taken = retaken(w, pool, id, u, now);
            &&& m.fills == fills_of(id, taken)
            &&& !has_id(far, id)
            &&& ids_distinct(far)
            &&& all_open(far)
            &&& taken.len() <= far.len()
            &&& forall|i: int| 0 <= i < taken.len() ==> (#[trigger] taken[i]).0 == far[i]
            &&& books_wf(stored(v.books, key_of(d.order), m.book))
            &&& bound_to(w, id, pool)
        }),
{
    let was = detail_at(w, pool, id);
    let d = renewed(w, pool, id, u, now);
    let key = key_of(was.order);
    let side = was.order.side;
    let far = facing(w, d.order);
    let v = update_applied(w, pool, id, u, now);
    lemma_rematched_links(w, pool, id, u, now);
    lemma_applied_detail(w, pool, id, u, now);
    lemma_thin_open(w, pool, id, u, now);
    lemma_book_at_wf(w.books, key);
    lemma_stored_lose(w.books, key, id);
    lemma_stored(w.books, key, canceled(value_at(w.books, key), id));
    let b = book_at(v.books, key);
    assert(b == canceled(book_at(w.books, key), id));
    assert(bound_to(w, id, pool)) by {
        assert(on_pool(w, pool, id));
    }
    assert(in_place(w, pool, id));
    let own = EntryV { id, price: was.order.price, open: was.open_quantity };
    lemma_contains_has_id(queue_of(book_at(w.books, key), side), own);
    assert(!has_id(far, id));
    assert(queue_of(b, other_side(side)) == far);
    lemma_sweep(side, d.order.price, d.open_quantity, far);
    lemma_book_at_wf(v.books, key);
    let m = rematch_of(v, pool, id);
    assert(rematched(v, pool, id, now).books == stored(v.books, key, m.book));
}

/// The state before the fills of an updated order are recorded.
pub proof fn lemma_prepared(w: WorldV, pool: u64, id: u64, u: UpdateV, now: Timestamp)
    requires
        updatable(w, pool, id, u, now),
        goes_again(w, pool, id, u, now),
    ensures
        ({
            let d = renewed(w, pool, id, u, now);
            let w1 = prepared(w, pool, id, u, now);
            &&& world_wf(w1)
            &&& owners_known(w1)
            &&& w1.gridpools == detail_put(w, pool, d).gridpools
            &&& w1.owners == w.owners.remove(id)
            &&& w1.next_trade_id == w.next_trade_id
            &&& w1.outbox.public_trades == w.outbox.public_trades
            &&& takes_distinct(takes_on(key_of(d.order), retaken(w, pool, id, u, now)))
            &&& on_pool(w1, pool, id)
            &&& detail_at(w1, pool, id) == d
            &&& forall|p: u64, i: u64|
                i != id && on_pool(w, p, i) ==> on_pool(w1, p, i) && #[trigger] detail_at(w1, p, i)
                    == detail_at(w, p, i)
            &&& forall|p: u64|
                holds(w.gridpools, p) ==> holds(w1.gridpools, p) && (#[trigger] value_at(
                    w1.gridpools,
                    p,
                )).trades == value_at(w.gridpools, p).trades
        }),
{
    let d = renewed(w, pool, id, u, now);
    let key = key_of(d.order);
    let v = update_applied(w, pool, id, u, now);
    let w1 = prepared(w, pool, id, u, now);
    lemma_met(w, pool, id, u, now);
    lemma_detail_id(w, pool, id);
    lemma_applied_detail(w, pool, id, u, now);
    lemma_put(w, pool, d);
    lemma_put_trades(w, pool, d);
    let m = rematch_of(v, pool, id);
    let tk = retaker(w, pool, id);
    let w0 = WorldV { books: stored(v.books, tk.key, m.book), ..v };
    lemma_fills_tape(w0, tk, m.fills, m.book, now);
    lemma_traced_keeps(w0, tk, m.fills, m.book, now);
    assert(v.gridpools == detail_put(w, pool, d).gridpools);
    let far = facing(w, d.order);
    let takes = takes_on(key, retaken(w, pool, id, u, now));
    assert forall|i: int, j: int| 0 <= i < j < takes.len() implies (#[trigger] takes[i]).entry.id
        != (#[trigger] takes[j]).entry.id by {
        assert(takes[i].entry == far[i] && takes[j].entry == far[j]);
    }
    assert forall|p: u64, i: u64| i != id && on_pool(w, p, i) implies on_pool(w1, p, i)
        && #[trigger] detail_at(w1, p, i) == detail_at(w, p, i) by {
        assert(on_pool(detail_put(w, pool, d), p, i));
        assert(detail_at(detail_put(w, pool, d), p, i) == detail_at(w, p, i));
    }
    assert forall|p: u64| holds(w.gridpools, p) implies holds(w1.gridpools, p) && (
    #[trigger] value_at(w1.gridpools, p)).trades == value_at(w.gridpools, p).trades by {
        assert(holds(detail_put(w, pool, d).gridpools, p));
        assert(value_at(detail_put(w, pool, d).gridpools, p).trades == value_at(
            w.gridpools,
            p,
        ).trades);
    }
}

/// What matching an updated order again adds to the state that its recorded
/// fills leave.
pub proof fn lemma_concluded(w: WorldV, pool: u64, id: u64, u: UpdateV, now: Timestamp)
    requires
        updatable(w, pool, id, u, now),
        goes_again(w, pool, id, u, now),
    ensures
        ({
            let d = renewed(w, pool, id, u, now);
            let tk = retaker(w, pool, id);
            let takes = takes_on(tk.key, retaken(w, pool, id, u, now));
            let w2 = takes_recorded(prepared(w, pool, id, u, now), tk, Some(pool), takes, now);
            let after = modified(w, pool, id, u, now);
            &&& after.outbox.public_trades == w2.outbox.public_trades
            &&& forall|p: u64, i: u64|
                i != id && on_pool(w, p, i) ==> #[trigger] detail_at(after, p, i) == detail_at(
                    w2,
                    p,
                    i,
                )
            &&& forall|p: u64|
                holds(w.gridpools, p) ==> (#[trigger] value_at(after.gridpools, p)).trades
                    == value_at(w2.gridpools, p).trades
            &&& detail_at(after, pool, id).filled_quantity == d.filled_quantity + take_total(takes)
            &&& detail_at(after, pool, id).open_quantity == d.open_quantity - take_total(takes)
        }),
{
    let d = renewed(w, pool, id, u, now);
    let tk = retaker(w, pool, id);
    let taken = retaken(w, pool, id, u, now);
    let takes = takes_on(tk.key, taken);
    let v = update_applied(w, pool, id, u, now);
    let m = rematch_of(v, pool, id);
    let w1 = prepared(w, pool, id, u, now);
    let after = modified(w, pool, id, u, now);
    lemma_met(w, pool, id, u, now);
    lemma_prepared(w, pool, id, u, now);
    lemma_applied_detail(w, pool, id, u, now);
    lemma_fills_are_takes(w1, tk, Some(pool), taken, now);
    lemma_filled_of_takes(id, tk.key, taken);
    lemma_recorded_keeps(w1, tk, Some(pool), takes, now);
    lemma_recorded_details(w1, tk, Some(pool), takes, now);
    lemma_rematched_links(w, pool, id, u, now);
    lemma_rematched_detail(v, pool, id, now);
    let w2 = takes_recorded(w1, tk, Some(pool), takes, now);
    assert(w2 == fills_recorded(w1, tk, Some(pool), m.fills, now));
    assert(on_pool(w2, pool, id));
    lemma_detail_id(w2, pool, id);
    let r = rematched(v, pool, id, now);
    assert(after.gridpools == r.gridpools);
    lemma_sweep(d.order.side, d.order.price, d.open_quantity, facing(w, d.order));
    lemma_filled_is_taken(id, taken);
    lemma_taken_nonnegative(taken);
    let done = taker_filled(detail_at(w2, pool, id), filled(m.fills), now);
    if filled(m.fills) > 0 {
        lemma_put(w2, pool, done);
        lemma_put_trades(w2, pool, done);
        assert(r.gridpools == detail_put(w2, pool, done).gridpools);
        assert forall|p: u64, i: u64| i != id && on_pool(w, p, i) implies #[trigger] detail_at(
            after,
            p,
            i,
        ) == detail_at(w2, p, i) by {
            assert(on_pool(w1, p, i));
            assert(on_pool(w2, p, i));
            assert(detail_at(detail_put(w2, pool, done), p, i) == detail_at(w2, p, i));
        }
        assert forall|p: u64| holds(w.gridpools, p) implies (#[trigger] value_at(
            after.gridpools,
            p,
        )).trades == value_at(w2.gridpools, p).trades by {
            assert(value_at(w1.gridpools, p).trades == value_at(w.gridpools, p).trades);
            assert(holds(w2.gridpools, p));
            assert(value_at(detail_put(w2, pool, done).gridpools, p).trades == value_at(
                w2.gridpools,
                p,
            ).trades);
        }
    } else {
        assert(r.gridpools == w2.gridpools);
    }
    assert(detail_at(after, pool, id) == detail_at(r, pool, id));
}

/// An update after which the order is not matched again trades nothing.
pub proof fn lemma_quiet_update(w: WorldV, pool: u64, id: u64, u: UpdateV, now: Timestamp)
    requires
        updatable(w, pool, id, u, now),
        !goes_again(w, pool, id, u, now),
    ensures
        modified(w, pool, id, u, now).outbox.public_trades == w.outbox.public_trades,
        detail_at(modified(w, pool, id, u, now), pool, id).filled_quantity == detail_at(
            w,
            pool,
            id,
        ).filled_quantity,
{
    let was = detail_at(w, pool, id);
    let d1 = renewed(w, pool, id, u, now);
    let key = key_of(was.order);
    lemma_detail_id(w, pool, id);
    if stays_put(w, pool, id, u) {
        let w1 = WorldV {
            books: stored(w.books, key, resized(value_at(w.books, key), id, d1.open_quantity)),
            owners: if d1.open_quantity == 0 {
                w.owners.remove(id)
            } else {
                w.owners
            },
            ..w
        };
        lemma_same_pools_put(w, w1, pool, d1);
    } else {
        lemma_applied_detail(w, pool, id, u, now);
    }
}

/// What an updated order trades, it trades with the orders at the front of the
/// other side of its contract, one after the other, each at its own price,
/// within the limit as it now is, and for no more than it has open. The public
/// tape shows every such trade once, in order. What is traded in all is what
/// is added to what the order has filled; what stays open after it traded
/// finds nothing there within its limit.
pub proof fn updates_trade_at_the_resting_price(
    w: WorldV,
    pool: u64,
    id: u64,
    u: UpdateV,
    now: Timestamp,
)
    requires
        in_order(w),
        modify_rejection(w, pool, id, u, now) is None,
        ({
            let o = detail_at(w, pool, id).order;
            &&& o.side == Side::Buy || o.side == Side::Sell
            &&& w.next_trade_id + facing(w, o).len() <= u64::MAX
        }),
    ensures
        ({
            let was = detail_at(w, pool, id);
            let after = modified(w, pool, id, u, now);
            let d = detail_at(after, pool, id);
            let far = facing(w, was.order);
            let base = w.outbox.public_trades.len() as int;
            let tape = after.outbox.public_trades;
            let n = tape.len() - base;
            let limit = if u.price is Some {
                u.price->0
            } else {
                was.order.price
            };
            &&& 0 <= n <= far.len()
            &&& tape.take(base) == w.outbox.public_trades
            &&& d.filled_quantity == was.filled_quantity + traded_total(tape.skip(base))
            &&& forall|i: int|
                #![trigger far[i]]
                #![trigger tape[base + i]]
                0 <= i < n ==> {
                    let met = far[i];
                    let t = tape[base + i];
                    &&& t.id == w.next_trade_id + i
                    &&& t.price == met.price
                    &&& t.buy_area == was.order.area
                    &&& t.sell_area == was.order.area
                    &&& t.period == was.order.period
                    &&& t.execution_time == now
                    &&& t.currency == was.order.currency
                    &&& t.state == TradeState::Active
                    &&& 0 < t.quantity <= met.open
                    &&& i < n - 1 ==> t.quantity == met.open
                    &&& was.order.side == Side::Buy ==> met.price <= limit
                    &&& was.order.side == Side::Sell ==> met.price >= limit
                }
            &&& n > 0 && d.open_quantity > 0 && n < far.len() ==> if was.order.side == Side::Buy {
                far[n].price > limit
            } else {
                far[n].price < limit
            }
        }),
{
    let was = detail_at(w, pool, id);
    let after = modified(w, pool, id, u, now);
    let base = w.outbox.public_trades.len() as int;
    let tape = after.outbox.public_trades;
    if !goes_again(w, pool, id, u, now) {
        lemma_quiet_update(w, pool, id, u, now);
        assert(tape.take(base) =~= tape);
        assert(tape.skip(base) =~= Seq::<PublicTradeV>::empty());
    } else {
        let d1 = renewed(w, pool, id, u, now);
        let tk = retaker(w, pool, id);
        let taken = retaken(w, pool, id, u, now);
        let takes = takes_on(tk.key, taken);
        let far = facing(w, was.order);
        lemma_met(w, pool, id, u, now);
        lemma_prepared(w, pool, id, u, now);
        lemma_concluded(w, pool, id, u, now);
        lemma_run_filed(prepared(w, pool, id, u, now), tk, Some(pool), takes, now);
        lemma_sweep(d1.order.side, d1.order.price, d1.open_quantity, far);
        lemma_filled_is_taken(id, taken);
        lemma_filled_of_takes(id, tk.key, taken);
        let fresh = tape.skip(base);
        assert forall|i: int| 0 <= i < fresh.len() implies (#[trigger] fresh[i]).quantity
            == takes[i].quantity by {
            assert(fresh[i] == tape[base + i]);
        }
        lemma_traded_total(fresh, takes);
        assert forall|i: int| 0 <= i < takes.len() implies (#[trigger] tape[base + i])
            == public_trade_of_fill(
            (w.next_trade_id + i) as u64,
            was.order.area,
            fill_of(id, takes[i]),
            tk,
            now,
        ) && takes[i].entry == far[i] && takes[i].quantity == taken[i].1 by {
            assert(taken[i].0 == far[i]);
        }
        let s = sweep(d1.order.side, d1.order.price, d1.open_quantity, far);
        if s.left > 0 && s.queue.len() > 0 {
            assert(s.queue[0] == far[takes.len() as int]);
        }
    }
}

/// Both gridpools file what an updated order trades, under the id it has on
/// the tape, each for its own order and side; and the orders met are filled by
/// it, Filled once nothing of them is open.
pub proof fn updates_are_filed_on_both_sides(
    w: WorldV,
    pool: u64,
    id: u64,
    u: UpdateV,
    now: Timestamp,
    i: int,
)
    requires
        in_order(w),
        modify_rejection(w, pool, id, u, now) is None,
        ({
            let o = detail_at(w, pool, id).order;
            &&& o.side == Side::Buy || o.side == Side::Sell
            &&& w.next_trade_id + facing(w, o).len() <= u64::MAX
        }),
        0 <= i < modified(w, pool, id, u, now).outbox.public_trades.len()
            - w.outbox.public_trades.len(),
    ensures
        ({
            let o = detail_at(w, pool, id).order;
            let after = modified(w, pool, id, u, now);
            let met = facing(w, o)[i];
            let t = after.outbox.public_trades[w.outbox.public_trades.len() + i];
            let p = w.owners[met.id];
            let was = detail_at(w, p, met.id);
            let is = detail_at(after, p, met.id);
            &&& value_at(after.gridpools, pool).trades.contains(
                TradeV {
                    id: t.id,
                    order_id: id,
                    side: o.side,
                    area: o.area,
                    period: o.period,
                    execution_time: now,
                    price: met.price,
                    currency: o.currency,
                    quantity: t.quantity,
                    state: TradeState::Active,
                },
            )
            &&& w.owners.contains_key(met.id) ==> {
                &&& value_at(after.gridpools, p).trades.contains(
                    TradeV {
                        id: t.id,
                        order_id: met.id,
                        side: if o.side == Side::Buy {
                            Side::Sell
                        } else {
                            Side::Buy
                        },
                        area: o.area,
                        period: o.period,
                        execution_time: now,
                        price: met.price,
                        currency: o.currency,
                        quantity: t.quantity,
                        state: TradeState::Active,
                    },
                )
                &&& is.order == was.order
                &&& is.filled_quantity == was.filled_quantity + t.quantity
                &&& is.open_quantity == was.open_quantity - t.quantity
                &&& is.modification_time == now
                &&& is.state.actor == MarketActor::System
                &&& is.open_quantity == 0 ==> is.state.state == OrderState::Filled
                    && is.state.reason == StateReason::FullExecution
                &&& is.open_quantity != 0 ==> is.state.state == was.state.state
                    && is.state.reason == StateReason::PartialExecution
            }
        }),
{
    let o = detail_at(w, pool, id).order;
    let after = modified(w, pool, id, u, now);
    let base = w.outbox.public_trades.len() as int;
    if !goes_again(w, pool, id, u, now) {
        lemma_quiet_update(w, pool, id, u, now);
    } else {
        let tk = retaker(w, pool, id);
        let taken = retaken(w, pool, id, u, now);
        let takes = takes_on(tk.key, taken);
        let far = facing(w, o);
        let w1 = prepared(w, pool, id, u, now);
        let w2 = takes_recorded(w1, tk, Some(pool), takes, now);
        lemma_met(w, pool, id, u, now);
        lemma_prepared(w, pool, id, u, now);
        lemma_concluded(w, pool, id, u, now);
        lemma_run_filed(w1, tk, Some(pool), takes, now);
        let met = far[i];
        assert(taken[i].0 == met);
        assert(takes[i].entry == met);
        assert(w2.outbox.public_trades[base + i] == public_trade_of_fill(
            (w.next_trade_id + i) as u64,
            o.area,
            fill_of(id, takes[i]),
            tk,
            now,
        ));
        assert(value_at(after.gridpools, pool).trades == value_at(w2.gridpools, pool).trades);
        if w.owners.contains_key(met.id) {
            let p = w.owners[met.id];
            lemma_recorded_details(w1, tk, Some(pool), takes, now);
            assert(on_pool(w, p, met.id));
            assert(met.id != id) by {
                if met.id == id {
                    assert(has_id(far, id));
                }
            }
            assert(on_pool(w1, p, met.id) && detail_at(w1, p, met.id) == detail_at(w, p, met.id));
            assert(bound_to(w1, takes[i].entry.id, p));
            assert(holds(w.gridpools, p));
            assert(value_at(after.gridpools, p).trades == value_at(w2.gridpools, p).trades);
            assert(detail_at(w2, p, takes[i].entry.id) == maker_filled(
                detail_at(w1, p, met.id),
                takes[i].quantity,
                now,
            ));
            assert(detail_at(after, p, met.id) == detail_at(w2, p, met.id));
        }
    }
}

/// An update that names no price and no validity, and less quantity or only
/// another tag, leaves everybody where they stand, the order itself as well.
pub proof fn small_updates_leave_the_queue_alone(
    w: WorldV,
    pool: u64,
    id: u64,
    u: UpdateV,
    now: Timestamp,
    i: int,
)
    requires
        in_order(w),
        modify_rejection(w, pool, id, u, now) is None,
        u.price is None,
        u.valid_until is None,
        ({
            let d = detail_at(w, pool, id);
            if u.quantity is Some {
                d.filled_quantity < u.quantity->0 < d.filled_quantity + d.open_quantity
            } else {
                u.tag is Some && d.open_quantity > 0
            }
        }),
        0 <= i,
    ensures
        ({
            let o = detail_at(w, pool, id).order;
            let key = KeyV { area: o.area, period: o.period };
            let was = book_at(w.books, key);
            let is = book_at(modified(w, pool, id, u, now).books, key);
            &&& is.bids.len() == was.bids.len() && is.asks.len() == was.asks.len()
            &&& i < was.bids.len() ==> is.bids[i].id == was.bids[i].id && is.bids[i].price
                == was.bids[i].price
            &&& i < was.asks.len() ==> is.asks[i].id == was.asks[i].id && is.asks[i].price
                == was.asks[i].price
        }),
{
    smaller_updates_keep_their_place(w, pool, id, u, now, Side::Buy, i);
    smaller_updates_keep_their_place(w, pool, id, u, now, Side::Sell, i);
}

/// Any other update sends the order to the tail of its price: whoever stands
/// behind it afterwards is at a worse price.
pub proof fn other_updates_lose_their_place(
    w: WorldV,
    pool: u64,
    id: u64,
    u: UpdateV,
    now: Timestamp,
    i: int,
    j: int,
)
    requires
        in_order(w),
        modify_rejection(w, pool, id, u, now) is None,
        ({
            let d = detail_at(w, pool, id);
            let b = book_at(
                modified(w, pool, id, u, now).books,
                KeyV { area: d.order.area, period: d.order.period },
            );
            let q = if d.order.side == Side::Buy {
                b.bids
            } else {
                b.asks
            };
            &&& d.order.side == Side::Buy || d.order.side == Side::Sell
            &&& u.price is Some || u.valid_until is Some || (u.quantity is Some && u.quantity->0
                >= d.filled_quantity + d.open_quantity) || (u.quantity is None && u.tag is None)
            &&& 0 <= i < j < q.len()
            &&& q[i].id == id
        }),
    ensures
        ({
            let d = detail_at(w, pool, id);
            let b = book_at(
                modified(w, pool, id, u, now).books,
                KeyV { area: d.order.area, period: d.order.period },
            );
            &&& d.order.side == Side::Buy ==> b.bids[i].price > b.bids[j].price
            &&& d.order.side == Side::Sell ==> b.asks[i].price < b.asks[j].price
        }),
{
    other_updates_go_to_the_tail(w, pool, id, u, now, i, j);
}

} // verus!
