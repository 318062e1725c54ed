//! What runs out of time, and where an exchange begins.

use crate::admission::before;
use crate::book::{book_wf, canceled, has_id, place_of, queue_of, rests, BookV, EntryV};
use crate::gridpool::PoolV;
use crate::lifecycle::lemma_book_with;
use crate::linkage::{lemma_without_lose, linked};
use crate::market::{AreaV, Currency, RulesV};
use crate::model::{
    all_expired, book_at, book_with, books_swept, books_without, counterparty_canceled, coupled,
    detail_at, entries_of, entries_swept, expired, expired_count, expiries, on_pool, pool_of,
    pool_with, swept_count, unowned, world_wf, Expiry, KeyV, WorldV,
};
use crate::order::{DetailV, MarketActor, OrderState, Side, StateReason};
use crate::outcomes::{expiry_clears_the_books, overdue};
use crate::showing::{known_since, shown};
use crate::table::{distinct, holds, lemma_slot, lemma_stored, slot, stored};
use crate::time::Timestamp;
use crate::world::fresh_world;
use vstd::prelude::*;

verus! {

/// The order is open and past its time: its validity has run out, or its
/// delivery has begun.
pub open spec fn out_of_time(d: DetailV, now: Timestamp) -> bool {
    &&& d.state.state != OrderState::Filled && d.state.state != OrderState::Canceled
        && d.state.state != OrderState::Expired && d.state.state != OrderState::Failed
    &&& !before(now, d.order.period.start) || (d.order.valid_until is Some && !before(
        now,
        d.order.valid_until->0,
    ))
}

/// Letting orders expire ends exactly the open orders that are past their
/// time: they are expired, by the system, as of now, with what they had filled
/// and open and as they were handed in. Every other order of every gridpool
/// stays as it was.
pub proof fn orders_expire_when_they_are_out_of_time(w: WorldV, now: Timestamp, p: u64, id: u64)
    requires
        world_wf(w),
        linked(w),
        on_pool(w, p, id),
    ensures
        ({
            let was = detail_at(w, p, id);
            let is = detail_at(expired(w, now), p, id);
            &&& on_pool(expired(w, now), p, id)
            &&& !out_of_time(was, now) ==> is == was
            &&& out_of_time(was, now) ==> {
                &&& is.state.state == OrderState::Expired
                &&& is.state.reason == StateReason::Delete
                &&& is.state.actor == MarketActor::System
                &&& is.modification_time == now
                &&& is.id == was.id
                &&& is.order == was.order
                &&& is.open_quantity == was.open_quantity
                &&& is.filled_quantity == was.filled_quantity
                &&& is.create_time == was.create_time
            }
        }),
{
    expiry_clears_the_books(w, now);
    assert(on_pool(expired(w, now), p, id) <==> on_pool(w, p, id));
}

/// Letting orders expire empties the books of deliveries that have begun, and
/// takes from the others exactly the gridpools' orders that are past their
/// time; counterparties' orders stay there until their delivery begins.
pub proof fn books_lose_what_is_out_of_time(w: WorldV, now: Timestamp, k: KeyV, e: EntryV)
    requires
        world_wf(w),
        linked(w),
    ensures
        ({
            let b = book_at(expired(w, now).books, k);
            let was = book_at(w.books, k);
            let over = w.owners.contains_key(e.id) && out_of_time(
                detail_at(w, w.owners[e.id], e.id),
                now,
            );
            &&& !before(now, k.period.start) ==> b.bids.len() == 0 && b.asks.len() == 0
            &&& before(now, k.period.start) ==> (b.bids.contains(e) <==> was.bids.contains(e)
                && !over)
            &&& before(now, k.period.start) ==> (b.asks.contains(e) <==> was.asks.contains(e)
                && !over)
        }),
{
    expiry_clears_the_books(w, now);
    let end = expired(w, now);
    assert(overdue(w, e.id, now) <==> w.owners.contains_key(e.id) && out_of_time(
        detail_at(w, w.owners[e.id], e.id),
        now,
    ));
    assert(!k.period.start.at_or_earlier(now) ==> (queue_of(
        book_at(end.books, k),
        Side::Buy,
    ).contains(e) <==> queue_of(book_at(w.books, k), Side::Buy).contains(e) && !overdue(
        w,
        e.id,
        now,
    )));
    assert(!k.period.start.at_or_earlier(now) ==> (queue_of(
        book_at(end.books, k),
        Side::Sell,
    ).contains(e) <==> queue_of(book_at(w.books, k), Side::Sell).contains(e) && !overdue(
        w,
        e.id,
        now,
    )));
}

/// A counterparty's order that is withdrawn is off every book, and nothing
/// else changes there: the stream shows it leaving, on its contract and side
/// and at its price, with nothing open.
pub proof fn withdrawn_orders_are_gone(w: WorldV, id: u64, now: Timestamp, k: KeyV)
    requires
        world_wf(w),
        linked(w),
        rests(book_at(w.books, k), id),
    ensures
        ({
            let after = counterparty_canceled(w, id, now);
            let b = book_at(w.books, k);
            let side = if has_id(b.bids, id) {
                Side::Buy
            } else {
                Side::Sell
            };
            let e = queue_of(b, side)[place_of(queue_of(b, side), id)];
            &&& e.id == id
            &&& forall|x: KeyV| !rests(#[trigger] book_at(after.books, x), id)
            &&& forall|x: KeyV, s: Side, y: EntryV|
                y.id != id ==> (#[trigger] queue_of(book_at(after.books, x), s).contains(y)
                    <==> queue_of(book_at(w.books, x), s).contains(y))
            &&& after.owners == w.owners.remove(id)
            &&& after.gridpools == w.gridpools
            &&& after.outbox.orders == w.outbox.orders
            &&& after.outbox.trades == w.outbox.trades
            &&& after.outbox.public_trades == w.outbox.public_trades
            &&& after.outbox.book_records == w.outbox.book_records.push(
                shown(
                    id,
                    k,
                    if side == Side::Buy {
                        1
                    } else {
                        2
                    },
                    e.price,
                    Currency::Eur,
                    0,
                    known_since(w, id, now),
                    now,
                ),
            )
        }),
{
    let after = counterparty_canceled(w, id, now);
    let b = book_at(w.books, k);
    lemma_book_with(w.books, id, 0);
    assert(holds(w.books, k));
    let i0 = slot(w.books, k);
    assert(rests(w.books[i0].1, id));
    let at = book_with(w.books, id, 0);
    let j = at->0;
    assert(at is Some);
    assert(rests(book_at(w.books, w.books[j].0), id)) by {
        lemma_slot(w.books, w.books[j].0, j);
    }
    assert(w.books[j].0 == k);
    lemma_slot(w.books, k, j);
    assert(book_wf(w.books[j].1));
    lemma_without_lose(w.books, j, id);
    assert(after.books == books_without(w.books, j, id));
    assert forall|x: KeyV| !rests(#[trigger] book_at(after.books, x), id) by {
        if rests(book_at(after.books, x), id) {
            assert(rests(book_at(w.books, x), id));
        }
    }
    let left = canceled(b, id);
    assert forall|x: KeyV| #[trigger] book_at(after.books, x) == if x == k {
        left
    } else {
        book_at(w.books, x)
    } by {
        lemma_replaced(w.books, j, left, x);
    }
    assert forall|x: KeyV, s: Side, y: EntryV| y.id != id implies (#[trigger] queue_of(
        book_at(after.books, x),
        s,
    ).contains(y) <==> queue_of(book_at(w.books, x), s).contains(y)) by {
        if x == k {
            let q = queue_of(b, s);
            let r = queue_of(left, s);
            if r.contains(y) {
                let n = choose|n: int| 0 <= n < r.len() && r[n] == y;
                if has_id(q, id) {
                    let m = place_of(q, id);
                    assert(q[if n < m { n } else { n + 1 }] == y);
                }
            }
        }
    }
}

/// What replacing the book of one contract does to the others.
proof fn lemma_replaced(books: Seq<(KeyV, BookV)>, j: int, b: BookV, x: KeyV)
    requires
        distinct(books),
        0 <= j < books.len(),
    ensures
        book_at(books.update(j, (books[j].0, b)), x) == if x == books[j].0 {
            b
        } else {
            book_at(books, x)
        },
{
    let k = books[j].0;
    lemma_slot(books, k, j);
    lemma_stored(books, k, b);
    assert(books.update(j, (k, b)) =~= stored(books, k, b));
}

/// A fresh exchange has its markets and nothing else: nobody trades on it, no
/// area is coupled, nothing rests, nothing has crossed or been printed; it is
/// not suspended, and its ids begin with one.
pub proof fn a_fresh_exchange_is_empty(markets: Seq<(AreaV, RulesV)>, k: KeyV, a: AreaV, p: u64)
    ensures
        ({
            let w = fresh_world(markets);
            &&& w.markets == markets
            &&& !holds(w.gridpools, p)
            &&& coupled(w, a).len() == 0
            &&& w.flows.len() == 0
            &&& book_at(w.books, k).bids.len() == 0 && book_at(w.books, k).asks.len() == 0
            &&& !w.owners.contains_key(p)
            &&& w.trade_history.len() == 0
            &&& w.book_history.len() == 0
            &&& !w.suspended
            &&& w.next_order_id == 1
            &&& w.next_trade_id == 1
            &&& w.outbox.orders.len() == 0 && w.outbox.trades.len() == 0
                && w.outbox.public_trades.len() == 0 && w.outbox.book_records.len() == 0
        }),
{
}

proof fn lemma_pool_found(pools: Seq<(u64, PoolV)>, id: u64, from: int)
    requires
        0 <= from <= pools.len(),
    ensures
        match pool_with(pools, id, from) {
            Some(p) => exists|i: int|
                from <= i < pools.len() && (#[trigger] pools[i]).0 == p && holds(
                    pools[i].1.orders,
                    id,
                ),
            None => forall|i: int|
                from <= i < pools.len() ==> !holds((#[trigger] pools[i]).1.orders, id),
        },
    decreases pools.len() - from,
{
    if from < pools.len() {
        lemma_pool_found(pools, id, from + 1);
        if pool_with(pools, id, from + 1) is Some && !holds(pools[from].1.orders, id) {
            let p = pool_with(pools, id, from + 1)->0;
            let i = choose|i: int|
                from + 1 <= i < pools.len() && (#[trigger] pools[i]).0 == p && holds(
                    pools[i].1.orders,
                    id,
                );
            assert(pools[i].0 == p);
        }
    }
}

/// Whoever an order is said to belong to has it, and an order that nobody is
/// said to have, nobody has.
pub proof fn recalls_find_the_gridpool(w: WorldV, id: u64, p: u64)
    requires
        world_wf(w),
        linked(w),
    ensures
        pool_of(w, id) matches Some(q) ==> on_pool(w, q, id),
        pool_of(w, id) is None ==> !on_pool(w, p, id),
        w.owners.contains_key(id) ==> pool_of(w, id) == Some(w.owners[id]),
{
    lemma_pool_found(w.gridpools, id, 0);
    if w.owners.contains_key(id) {
        assert(on_pool(w, w.owners[id], id));
    } else if pool_of(w, id) is Some {
        let q = pool_of(w, id)->0;
        let i = choose|i: int|
            0 <= i < w.gridpools.len() && (#[trigger] w.gridpools[i]).0 == q && holds(
                w.gridpools[i].1.orders,
                id,
            );
        lemma_slot(w.gridpools, q, i);
    } else if on_pool(w, p, id) {
        let i = slot(w.gridpools, p);
        assert(holds(w.gridpools[i].1.orders, id));
    }
}

proof fn lemma_expiries_told(w: WorldV, list: Seq<Expiry>, now: Timestamp)
    ensures
        ({
            let after = all_expired(w, list, now);
            &&& after.outbox.orders.len() == w.outbox.orders.len() + list.len()
            &&& after.outbox.trades == w.outbox.trades
            &&& after.outbox.public_trades == w.outbox.public_trades
        }),
    decreases list.len(),
{
    if list.len() > 0 {
        lemma_expiries_told(w, list.drop_last(), now);
    }
}

proof fn lemma_swept_shown(
    w: WorldV,
    key: KeyV,
    entries: Seq<(EntryV, Side)>,
    now: Timestamp,
    n: nat,
)
    requires
        n <= entries.len(),
    ensures
        ({
            let after = entries_swept(w, key, entries, now, n);
            &&& after.outbox.book_records.len() == w.outbox.book_records.len() + unowned(
                w,
                entries,
                n,
            )
            &&& after.owners == w.owners
            &&& after.outbox.orders == w.outbox.orders
            &&& after.outbox.trades == w.outbox.trades
            &&& after.outbox.public_trades == w.outbox.public_trades
        }),
    decreases n,
{
    if n > 0 {
        lemma_swept_shown(w, key, entries, now, (n - 1) as nat);
    }
}

proof fn lemma_unowned_same(a: WorldV, b: WorldV, entries: Seq<(EntryV, Side)>, n: nat)
    requires
        a.owners == b.owners,
    ensures
        unowned(a, entries, n) == unowned(b, entries, n),
    decreases n,
{
    if n > 0 {
        lemma_unowned_same(a, b, entries, (n - 1) as nat);
    }
}

proof fn lemma_books_swept_shown(w: WorldV, now: Timestamp, n: nat)
    requires
        n <= w.books.len(),
    ensures
        ({
            let after = books_swept(w, now, n);
            &&& after.outbox.book_records.len() == w.outbox.book_records.len() + swept_count(
                w,
                now,
                n,
            )
            &&& after.owners == w.owners
            &&& after.outbox.orders == w.outbox.orders
            &&& after.outbox.trades == w.outbox.trades
            &&& after.outbox.public_trades == w.outbox.public_trades
        }),
    decreases n,
{
    if n > 0 {
        let before = books_swept(w, now, (n - 1) as nat);
        let (key, b) = w.books[n - 1];
        let entries = entries_of(b);
        lemma_books_swept_shown(w, now, (n - 1) as nat);
        lemma_swept_shown(before, key, entries, now, entries.len());
        lemma_unowned_same(before, w, entries, entries.len());
    }
}

/// The count of what expired is the number of gridpools' orders that were told
/// to their owners and of counterparties' orders that were shown leaving a
/// book whose delivery has begun. Nothing is traded meanwhile.
pub proof fn expiries_are_counted(w: WorldV, now: Timestamp)
    ensures
        ({
            let list = expiries(w.gridpools, now, w.gridpools.len());
            let mid = all_expired(w, list, now);
            let end = expired(w, now);
            let told = end.outbox.orders.len() - w.outbox.orders.len();
            let swept_away = end.outbox.book_records.len() - mid.outbox.book_records.len();
            &&& expired_count(w, now) == told + swept_away
            &&& end.outbox.trades == w.outbox.trades
            &&& end.outbox.public_trades == w.outbox.public_trades
        }),
{
    let list = expiries(w.gridpools, now, w.gridpools.len());
    lemma_expiries_told(w, list, now);
    let mid = all_expired(w, list, now);
    lemma_books_swept_shown(mid, now, mid.books.len());
}

} // verus!
