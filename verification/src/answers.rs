//! What a gridpool is answered, and what is on record for it afterwards.

use crate::book::{book_wf, canceled, has_id, queue_of, resized, rests, BookV, EntryV};
use crate::ledger::{
    lemma_book_at_wf, lemma_detail_id, lemma_fill_keeps, lemma_put, lemma_traced_keeps,
};
use crate::lifecycle::{lemma_crossed_keeps, lemma_recorded_keeps};
use crate::linkage::{
    in_order, lemma_admitted_links, lemma_contains_has_id, lemma_lose_open, lemma_rematched_links,
    lemma_stored_lose, lemma_swept_entries, linked,
};
use crate::matching::{
    all_open, filled, lemma_filled_is_taken, lemma_sweep, lemma_taken_nonnegative, matched, sweep,
    ExecMode, FillV,
};
use crate::model::{
    admitted, book_at, bound_to, candidates, crossed, detail_at, detail_put, detail_updated,
    fills_recorded, fills_traced, fresh_detail, key_of, maker_filled, mode_of, modified,
    modify_objection, modify_rejection, on_pool, owners_known, rejection, rematch_of, rematched,
    stays_put, submitted, take_total, update_applied, world_wf, KeyV, Take, Taker, UpdateV, WorldV,
};
use crate::order::{
    other_side, DetailV, ExecutionOption, MarketActor, OrderState, OrderV, Side, StateReason,
};
use crate::quoting::lemma_owners_known;
use crate::table::{holds, lemma_stored, slot, stored, value_at};
use crate::time::Timestamp;
use vstd::prelude::*;

verus! {

/// A submitted order is on record as it was handed in, under the next id, with
/// what it filled and what it has open. It is Filled exactly when it filled
/// its whole quantity, and Active exactly when it rests, on its own contract's
/// book, on its side, at its limit, with what it has open; one without a
/// restriction is always one of the two. Otherwise an immediate-or-cancel or
/// fill-or-kill order is Canceled, as rejected where it filled nothing and as
/// partially executed where it filled something, which fill-or-kill never
/// does. The gridpool is told just that.
pub proof fn submitted_orders_end_as_they_should(w: WorldV, pool: u64, o: OrderV, now: Timestamp)
    requires
        in_order(w),
        rejection(w, pool, o, now) is None,
        w.next_order_id < u64::MAX,
    ensures
        ({
            let after = submitted(w, pool, o, now);
            let id = w.next_order_id;
            let d = detail_at(after, pool, id);
            let home = book_at(after.books, KeyV { area: o.area, period: o.period });
            let as_it_stands = EntryV { id, price: o.price, open: d.open_quantity };
            &&& on_pool(after, pool, id)
            &&& !on_pool(w, pool, id)
            &&& d.id == id
            &&& d.order == o
            &&& d.create_time == now
            &&& d.modification_time == now
            &&& d.state.actor == MarketActor::User
            &&& 0 <= d.filled_quantity <= o.quantity
            &&& d.open_quantity == o.quantity - d.filled_quantity
            &&& d.state.state == OrderState::Filled <==> d.filled_quantity == o.quantity
            &&& d.state.state == OrderState::Filled ==> d.state.reason
                == StateReason::FullExecution
            &&& d.state.state == OrderState::Active <==> has_id(home.bids, id) || has_id(
                home.asks,
                id,
            )
            &&& d.state.state == OrderState::Active ==> (o.side == Side::Buy
                ==> home.bids.contains(as_it_stands)) && (o.side == Side::Sell
                ==> home.asks.contains(as_it_stands)) && d.state.reason == (
            if d.filled_quantity == 0 {
                StateReason::Add
            } else {
                StateReason::PartialExecution
            })
            &&& d.state.state == OrderState::Active <==> after.owners.contains_key(id)
            &&& d.state.state == OrderState::Active ==> after.owners[id] == pool
            &&& o.execution_option is None ==> d.state.state == OrderState::Filled || d.state.state
                == OrderState::Active
            &&& o.execution_option == Some(ExecutionOption::Ioc) || o.execution_option == Some(
                ExecutionOption::Fok,
            ) ==> {
                &&& d.state.state == OrderState::Filled || d.state.state == OrderState::Canceled
                &&& d.state.state == OrderState::Canceled ==> d.state.reason == (
                if d.filled_quantity == 0 {
                    StateReason::Reject
                } else {
                    StateReason::PartialExecution
                })
            }
            &&& o.execution_option == Some(ExecutionOption::Fok) ==> d.filled_quantity == 0
                || d.filled_quantity == o.quantity
            &&& after.outbox.orders.last() == (pool, d)
            &&& d == fresh_detail(admitted(w, o, Some(pool), now), o, now)
        }),
{
    let after = submitted(w, pool, o, now);
    let a = admitted(w, o, Some(pool), now);
    let id = w.next_order_id;
    let mode = mode_of(o.execution_option);
    let numbered = WorldV { next_order_id: (w.next_order_id + 1) as u64, ..w };
    lemma_admitted_links(w, o, Some(pool), now);
    lemma_crossed_keeps(numbered, a.taker, o.price, o.quantity, mode, now);
    lemma_put(a.world, pool, fresh_detail(a, o, now));
    let home = book_at(after.books, key_of(o));
    assert(!on_pool(w, pool, id));
    if a.rested is Some {
        let e = EntryV { id, price: o.price, open: o.quantity - take_total(a.takes) };
        lemma_contains_has_id(queue_of(home, o.side), e);
    } else {
        lemma_unrested_is_nowhere(w, o, Some(pool), now);
    }
    if after.owners.contains_key(id) && a.rested is None {
        assert(a.world.owners.contains_key(id));
        assert(on_pool(a.world, a.world.owners[id], id));
        assert(on_pool(w, a.world.owners[id], id));
    }
    if mode == ExecMode::ImmediateOrCancel {
        lemma_total_of_none(a.takes);
    }
}

proof fn lemma_total_of_none(takes: Seq<Take>)
    ensures
        takes.len() == 0 ==> take_total(takes) == 0,
{
}

/// An order that was not put to rest is on no book.
pub proof fn lemma_unrested_is_nowhere(w: WorldV, o: OrderV, pool: Option<u64>, now: Timestamp)
    requires
        in_order(w),
        pool matches Some(p) ==> holds(w.gridpools, p),
        o.quantity > 0,
        o.side != Side::Unspecified,
        w.next_order_id < u64::MAX,
        admitted(w, o, pool, now).rested is None,
    ensures
        forall|k: KeyV|
            !rests(#[trigger] book_at(admitted(w, o, pool, now).world.books, k), w.next_order_id),
{
    let a = admitted(w, o, pool, now);
    let tk = a.taker;
    let mode = mode_of(o.execution_option);
    let numbered = WorldV { next_order_id: (w.next_order_id + 1) as u64, ..w };
    let c = crossed(numbered, tk, o.price, o.quantity, mode, now);
    let keys = candidates(numbered, tk.key, now);
    lemma_crossed_keeps(numbered, tk, o.price, o.quantity, mode, now);
    lemma_owners_known(w);
    lemma_recorded_keeps(c.world, tk, pool, c.takes, now);
    lemma_swept_entries(w.books, keys, o.side, o.price, o.quantity);
    assert forall|k: KeyV| !rests(#[trigger] book_at(a.world.books, k), w.next_order_id) by {
        if rests(book_at(a.world.books, k), w.next_order_id) {
            assert(rests(book_at(w.books, k), w.next_order_id));
        }
    }
}

/// An update writes the fields it names and no others: the order has the
/// price, the quantity, the validity and the tag that were named, and each
/// that was not is as it was. What was filled stays filled; what fills on
/// matching again is added to it, and what is open is the rest of the
/// quantity. The order is Filled when nothing of it is open, and Active
/// otherwise. The gridpool is told just that.
pub proof fn updates_write_what_they_name(
    w: WorldV,
    pool: u64,
    id: u64,
    u: UpdateV,
    now: Timestamp,
)
    requires
        in_order(w),
        modify_rejection(w, pool, id, u, now) is None,
    ensures
        ({
            let before = detail_at(w, pool, id);
            let after = modified(w, pool, id, u, now);
            let d = detail_at(after, pool, id);
            &&& on_pool(after, pool, id)
            &&& u.price matches Some(p) ==> d.order.price == p
            &&& u.price is None ==> d.order.price == before.order.price
            &&& u.quantity matches Some(q) ==> d.order.quantity == q
            &&& u.quantity is None ==> d.order.quantity == before.filled_quantity
                + before.open_quantity
            &&& u.quantity is None && before.filled_quantity + before.open_quantity
                == before.order.quantity ==> d.order.quantity == before.order.quantity
            &&& u.valid_until matches Some(t) ==> d.order.valid_until == Some(t)
            &&& u.valid_until is None ==> d.order.valid_until == before.order.valid_until
            &&& u.tag matches Some(t) ==> d.order.tag == Some(t)
            &&& u.tag is None ==> d.order.tag == before.order.tag
            &&& d.order == (OrderV {
                price: d.order.price,
                quantity: d.order.quantity,
                valid_until: d.order.valid_until,
                tag: d.order.tag,
                ..before.order
            })
            &&& d.id == id
            &&& d.create_time == before.create_time
            &&& d.modification_time == now
            &&& d.filled_quantity >= before.filled_quantity
            &&& d.filled_quantity + d.open_quantity == d.order.quantity
            &&& d.open_quantity >= 0
            &&& d.state.state == (if d.open_quantity == 0 {
                OrderState::Filled
            } else {
                OrderState::Active
            })
            &&& d.filled_quantity == before.filled_quantity ==> d.state.reason
                == StateReason::Modify && d.state.actor == MarketActor::User
            &&& d.filled_quantity > before.filled_quantity ==> d.state.actor
                == MarketActor::System && d.state.reason == (if d.open_quantity == 0 {
                StateReason::FullExecution
            } else {
                StateReason::PartialExecution
            })
            &&& after.outbox.orders.last() == (pool, d)
        }),
{
    let before = detail_at(w, pool, id);
    let d1 = detail_updated(before, u, now);
    let after = modified(w, pool, id, u, now);
    lemma_detail_id(w, pool, id);
    if stays_put(w, pool, id, u) {
        let key = key_of(before.order);
        let w1 = WorldV {
            books: stored(w.books, key, resized(value_at(w.books, key), id, d1.open_quantity)),
            owners: if d1.open_quantity == 0 {
                w.owners.remove(id)
            } else {
                w.owners
            },
            ..w
        };
        lemma_same_pools_put(w, w1, pool, d1);
    } else {
        lemma_rematched_links(w, pool, id, u, now);
        let v = update_applied(w, pool, id, u, now);
        lemma_applied_detail(w, pool, id, u, now);
        lemma_rematched_detail(v, pool, id, now);
        if d1.open_quantity > 0 {
            let m = rematch_of(v, pool, id);
            lemma_book_at_wf(v.books, key_of(before.order));
            lemma_thin_open(w, pool, id, u, now);
            lemma_rematch_bounds(
                book_at(v.books, key_of(before.order)),
                id,
                d1.order.side,
                d1.order.price,
                d1.open_quantity,
            );
        }
    }
}

/// Two states with the same gridpools have the same orders once the same
/// detail was put.
pub proof fn lemma_same_pools_put(w: WorldV, v: WorldV, pool: u64, d: DetailV)
    requires
        world_wf(w),
        holds(w.gridpools, pool),
        v.gridpools == w.gridpools,
    ensures
        on_pool(detail_put(v, pool, d), pool, d.id),
        detail_at(detail_put(v, pool, d), pool, d.id) == d,
{
    lemma_put(w, pool, d);
    assert(detail_put(v, pool, d).gridpools == detail_put(w, pool, d).gridpools);
    assert(on_pool(detail_put(w, pool, d), pool, d.id));
    assert(detail_at(detail_put(w, pool, d), pool, d.id) == d);
}

pub proof fn lemma_applied_detail(w: WorldV, pool: u64, id: u64, u: UpdateV, now: Timestamp)
    requires
        world_wf(w),
        linked(w),
        on_pool(w, pool, id),
    ensures
        ({
            let v = update_applied(w, pool, id, u, now);
            &&& on_pool(v, pool, id)
            &&& detail_at(v, pool, id) == detail_updated(detail_at(w, pool, id), u, now)
            &&& !bound_to(v, id, pool)
            &&& world_wf(v)
            &&& owners_known(v)
        }),
{
    let d = detail_at(w, pool, id);
    let key = key_of(d.order);
    lemma_detail_id(w, pool, id);
    let d1 = detail_updated(d, u, now);
    let v = update_applied(w, pool, id, u, now);
    lemma_owners_known(w);
    let w1 = if bound_to(w, id, pool) {
        WorldV {
            owners: w.owners.remove(id),
            books: if holds(w.books, key) {
                stored(w.books, key, canceled(value_at(w.books, key), id))
            } else {
                w.books
            },
            ..w
        }
    } else {
        w
    };
    if holds(w.books, key) {
        lemma_stored_lose(w.books, key, id);
    }
    lemma_same_pools_put(w, w1, pool, d1);
    lemma_put(w1, pool, d1);
}

/// The order itself after it was matched again: what filled is added.
pub proof fn lemma_rematched_detail(v: WorldV, pool: u64, id: u64, now: Timestamp)
    requires
        world_wf(v),
        owners_known(v),
        on_pool(v, pool, id),
        !bound_to(v, id, pool),
        world_wf(rematched(v, pool, id, now)),
        ({
            let d = detail_at(v, pool, id);
            d.open_quantity > 0 ==> world_wf(
                WorldV {
                    books: stored(v.books, key_of(d.order), rematch_of(v, pool, id).book),
                    ..v
                },
            )
        }),
    ensures
        ({
            let d = detail_at(v, pool, id);
            let n = filled(rematch_of(v, pool, id).fills);
            detail_at(rematched(v, pool, id, now), pool, id) == if d.open_quantity > 0 && n > 0 {
                maker_filled(d, n, now)
            } else {
                d
            }
        }),
{
    let d = detail_at(v, pool, id);
    if d.open_quantity > 0 {
        let tk = Taker {
            id,
            side: d.order.side,
            currency: d.order.currency,
            key: key_of(d.order),
        };
        let m = rematch_of(v, pool, id);
        let w0 = WorldV { books: stored(v.books, tk.key, m.book), ..v };
        lemma_traced_keeps(w0, tk, m.fills, m.book, now);
        let w1 = fills_traced(w0, tk, m.fills, m.book, now);
        assert(w1.gridpools == v.gridpools && w1.owners == v.owners);
        assert(on_pool(w1, pool, id) && detail_at(w1, pool, id) == d);
        lemma_fills_spare(w1, tk, pool, m.fills, now, id);
        let w2 = fills_recorded(w1, tk, Some(pool), m.fills, now);
        lemma_detail_id(v, pool, id);
        if filled(m.fills) > 0 {
            lemma_put(w2, pool, maker_filled(d, filled(m.fills), now));
        }
    }
}

/// Recording fills leaves an order that is not bound as it is.
proof fn lemma_fills_spare(
    w: WorldV,
    taker: Taker,
    pool: u64,
    fills: Seq<FillV>,
    now: Timestamp,
    id: u64,
)
    requires
        world_wf(w),
        owners_known(w),
        on_pool(w, pool, id),
        !bound_to(w, id, pool),
    ensures
        ({
            let after = fills_recorded(w, taker, Some(pool), fills, now);
            &&& world_wf(after)
            &&& owners_known(after)
            &&& on_pool(after, pool, id)
            &&& !bound_to(after, id, pool)
            &&& detail_at(after, pool, id) == detail_at(w, pool, id)
        }),
    decreases fills.len(),
{
    if fills.len() > 0 {
        lemma_fills_spare(w, taker, pool, fills.drop_last(), now, id);
        let before = fills_recorded(w, taker, Some(pool), fills.drop_last(), now);
        lemma_fill_keeps(before, fills.last(), taker.key.area, taker, Some(pool), now);
        assert(on_pool(before, pool, id));
    }
}

pub proof fn lemma_thin_open(w: WorldV, pool: u64, id: u64, u: UpdateV, now: Timestamp)
    requires
        in_order(w),
        modify_objection(w, pool, id, u, now) is None,
    ensures
        ({
            let key = key_of(detail_at(w, pool, id).order);
            let b = book_at(update_applied(w, pool, id, u, now).books, key);
            all_open(b.bids) && all_open(b.asks)
        }),
{
    lemma_rematched_links(w, pool, id, u, now);
    let key = key_of(detail_at(w, pool, id).order);
    let v = update_applied(w, pool, id, u, now);
    lemma_lose_open(w.books, key, id);
    lemma_stored(w.books, key, canceled(value_at(w.books, key), id));
    assert(all_open(v.books[slot(v.books, key)].1.bids));
}

proof fn lemma_rematch_bounds(b: BookV, id: u64, side: Side, price: int, qty: int)
    requires
        book_wf(b),
        all_open(b.bids),
        all_open(b.asks),
        qty > 0,
    ensures
        0 <= filled(matched(b, id, side, price, qty, ExecMode::Resting).fills) <= qty,
{
    let q = queue_of(b, other_side(side));
    let s = sweep(side, price, qty, q);
    lemma_sweep(side, price, qty, q);
    lemma_filled_is_taken(id, s.taken);
    lemma_taken_nonnegative(s.taken);
}

} // verus!
