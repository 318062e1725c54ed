//! What recording trades and orders keeps in order.

use crate::book::{amount_fits, book_wf, lemma_canceled_wf, BookV, EntryV};
use crate::decimal::{lemma_grid_closed, on_grid, representable};
use crate::gridpool::{
    lemma_stored_pools_wf, lemma_with_detail_wf, pool_wf, pools_wf, with_detail, with_trade, PoolV,
};
use crate::market::AreaV;
use crate::matching::{ExecMode, FillV};
use crate::model::{
    book_at, books_wf, books_without, bound_to, candidates, crossed, detail_at, detail_put,
    fill_recorded, fill_traded, fills_traced, maker_filled, on_pool, owners_known, pool_traded,
    resting_count, swept, trade_of_fill, world_wf, KeyV, Taker, WorldV,
};
use crate::order::{other_side, DetailV};
use crate::table::{holds, lemma_stored, slot, stored, value_at};
use crate::time::Timestamp;
use crate::trade::TradeV;
use crate::volume::{
    detail_fits, entry_fits, in_reach, lemma_reach_far, lemma_swept_fits, lemma_swept_makers,
    lemma_takes_bounded, lemma_traced_frame, maker_fits, reach_fits, takes_fit,
};
use vstd::prelude::*;

verus! {

/// Every contract's book is well-formed.
pub proof fn lemma_book_at_wf(books: Seq<(KeyV, BookV)>, key: KeyV)
    requires
        books_wf(books),
    ensures
        book_wf(book_at(books, key)),
{
    if holds(books, key) {
        assert(book_wf(books[slot(books, key)].1));
    }
}

/// Storing a well-formed book keeps the books well-formed.
pub proof fn lemma_stored_books_wf(books: Seq<(KeyV, BookV)>, key: KeyV, b: BookV)
    requires
        books_wf(books),
        book_wf(b),
    ensures
        books_wf(stored(books, key, b)),
{
    lemma_stored(books, key, b);
    let after = stored(books, key, b);
    assert forall|i: int| 0 <= i < after.len() implies book_wf((#[trigger] after[i]).1) by {
        if i < books.len() && after[i] == books[i] {
            assert(book_wf(books[i].1));
        }
    }
}

/// The exchange can record fills of up to `room` for this taker's gridpool.
pub open spec fn recordable(w: WorldV, pool: Option<u64>, room: int, g: nat) -> bool {
    &&& world_wf(w)
    &&& owners_known(w)
    &&& pool matches Some(p) ==> holds(w.gridpools, p)
    &&& amount_fits(room, g)
}

/// Filing a changed gridpool under its own id keeps the registry in order.
pub proof fn lemma_pool_stored(pools: Seq<(u64, PoolV)>, p: PoolV)
    requires
        pools_wf(pools),
        pool_wf(p),
        holds(pools, p.id),
    ensures
        pools_wf(stored(pools, p.id, p)),
        forall|q: u64| #[trigger] holds(stored(pools, p.id, p), q) <==> holds(pools, q),
        value_at(stored(pools, p.id, p), p.id) == p,
        stored(pools, p.id, p).len() == pools.len(),
        stored(pools, p.id, p) == pools.update(slot(pools, p.id), (p.id, p)),
{
    lemma_stored_pools_wf(pools, p);
    lemma_stored(pools, p.id, p);
}

/// The gridpool of an id is well-formed and has that id.
pub proof fn lemma_pool_at(pools: Seq<(u64, PoolV)>, pool: u64)
    requires
        pools_wf(pools),
        holds(pools, pool),
    ensures
        pool_wf(value_at(pools, pool)),
        value_at(pools, pool).id == pool,
{
    let i = slot(pools, pool);
    assert(pools[i].0 == pool);
}

/// One more trade leaves the orders of a gridpool alone.
pub proof fn lemma_traded(w: WorldV, pool: u64, t: TradeV)
    requires
        world_wf(w),
        holds(w.gridpools, pool),
    ensures
        world_wf(pool_traded(w, pool, t)),
        forall|q: u64| #[trigger]
            holds(pool_traded(w, pool, t).gridpools, q) <==> holds(w.gridpools, q),
        forall|p: u64, id: u64| #[trigger]
            on_pool(pool_traded(w, pool, t), p, id) <==> on_pool(w, p, id),
        forall|p: u64, id: u64|
            on_pool(w, p, id) ==> #[trigger] detail_at(pool_traded(w, pool, t), p, id)
                == detail_at(w, p, id),
{
    let pools = w.gridpools;
    lemma_pool_at(pools, pool);
    let p = with_trade(value_at(pools, pool), t);
    lemma_pool_stored(pools, p);
    lemma_stored(pools, pool, p);
    let after = pool_traded(w, pool, t).gridpools;
    assert(after == stored(pools, pool, p));
    assert forall|q: u64| holds(pools, q) implies value_at(after, q).orders == value_at(
        pools,
        q,
    ).orders by {
        if q != pool {
            assert(value_at(after, q) == value_at(pools, q));
        }
    }
}

/// Putting one detail keeps the gridpools in order.
pub proof fn lemma_put(w: WorldV, pool: u64, d: DetailV)
    requires
        world_wf(w),
        holds(w.gridpools, pool),
    ensures
        world_wf(detail_put(w, pool, d)),
        forall|q: u64| #[trigger]
            holds(detail_put(w, pool, d).gridpools, q) <==> holds(w.gridpools, q),
        on_pool(detail_put(w, pool, d), pool, d.id),
        detail_at(detail_put(w, pool, d), pool, d.id) == d,
        forall|p: u64, id: u64|
            p != pool || id != d.id ==> (#[trigger] on_pool(detail_put(w, pool, d), p, id)
                <==> on_pool(w, p, id)),
        forall|p: u64, id: u64|
            (p != pool || id != d.id) && on_pool(w, p, id) ==> #[trigger] detail_at(
                detail_put(w, pool, d),
                p,
                id,
            ) == detail_at(w, p, id),
{
    let pools = w.gridpools;
    lemma_pool_at(pools, pool);
    let before = value_at(pools, pool);
    let p = with_detail(before, d);
    lemma_with_detail_wf(before, d);
    lemma_pool_stored(pools, p);
    lemma_stored(pools, pool, p);
    lemma_stored(before.orders, d.id, d);
    let after = detail_put(w, pool, d).gridpools;
    assert(after == stored(pools, pool, p));
    assert(value_at(after, pool) == p);
    assert forall|q: u64| q != pool && holds(pools, q) implies value_at(after, q) == value_at(
        pools,
        q,
    ) by {}
}

/// An order filed under an id has that id.
pub proof fn lemma_detail_id(w: WorldV, pool: u64, id: u64)
    requires
        world_wf(w),
        on_pool(w, pool, id),
    ensures
        detail_at(w, pool, id).id == id,
{
    lemma_pool_at(w.gridpools, pool);
    let orders = value_at(w.gridpools, pool).orders;
    assert(orders[slot(orders, id)].0 == id);
}

/// After one fill was recorded the exchange can record the rest.
pub proof fn lemma_fill_recorded(
    w: WorldV,
    f: FillV,
    maker_area: AreaV,
    taker: Taker,
    pool: Option<u64>,
    now: Timestamp,
    room: int,
    g: nat,
)
    requires
        recordable(w, pool, room, g),
        maker_fits(w, f.maker_id, room, g),
        on_grid(f.quantity, g),
        0 <= f.quantity <= room,
    ensures
        recordable(
            fill_recorded(w, f, maker_area, taker, pool, now),
            pool,
            room - f.quantity,
            g,
        ),
        forall|id: u64|
            maker_fits(w, id, room, g) ==> #[trigger] maker_fits(
                fill_recorded(w, f, maker_area, taker, pool, now),
                id,
                room - f.quantity,
                g,
            ),
        fill_recorded(w, f, maker_area, taker, pool, now).next_trade_id == (w.next_trade_id
            + 1) as u64,
        forall|p: u64, id: u64| #[trigger]
            on_pool(fill_recorded(w, f, maker_area, taker, pool, now), p, id) <==> on_pool(
                w,
                p,
                id,
            ),
        forall|p: u64, id: u64|
            on_pool(w, p, id) && !bound_to(w, id, p) ==> #[trigger] detail_at(
                fill_recorded(w, f, maker_area, taker, pool, now),
                p,
                id,
            ) == detail_at(w, p, id),
        forall|p: u64, id: u64|
            !bound_to(w, id, p) ==> !(#[trigger] bound_to(
                fill_recorded(w, f, maker_area, taker, pool, now),
                id,
                p,
            )),
{
    let id = w.next_trade_id;
    let w1 = WorldV { next_trade_id: (id + 1) as u64, ..w };
    let t1 = trade_of_fill(id, taker.id, taker.side, taker.key.area, f, taker, now);
    let w2 = match pool {
        Some(p) => pool_traded(w1, p, t1),
        None => w1,
    };
    if pool is Some {
        lemma_traded(w1, pool->0, t1);
    }
    let t2 = trade_of_fill(id, f.maker_id, other_side(taker.side), maker_area, f, taker, now);
    let w3 = if w.owners.contains_key(f.maker_id) {
        pool_traded(w2, w.owners[f.maker_id], t2)
    } else {
        w2
    };
    if w.owners.contains_key(f.maker_id) {
        lemma_traded(w2, w.owners[f.maker_id], t2);
    }
    let w4 = fill_traded(w, f, maker_area, taker, pool, now);
    assert(w4.gridpools == w3.gridpools);
    assert(world_wf(w4));
    assert forall|p: u64, i: u64| on_pool(w4, p, i) <==> on_pool(w, p, i) by {
        assert(on_pool(w4, p, i) == on_pool(w3, p, i));
        assert(on_pool(w1, p, i) == on_pool(w, p, i));
    }
    assert forall|p: u64, i: u64| on_pool(w, p, i) implies detail_at(w4, p, i) == detail_at(
        w,
        p,
        i,
    ) by {
        assert(on_pool(w1, p, i) && on_pool(w2, p, i));
        assert(detail_at(w4, p, i) == detail_at(w3, p, i));
        assert(detail_at(w1, p, i) == detail_at(w, p, i));
    }
    lemma_grid_closed(room, f.quantity, g);
    let last = fill_recorded(w, f, maker_area, taker, pool, now);
    if w4.owners.contains_key(f.maker_id) && on_pool(w4, w4.owners[f.maker_id], f.maker_id) {
        let mp = w4.owners[f.maker_id];
        let before = detail_at(w4, mp, f.maker_id);
        let d = maker_filled(before, f.quantity, now);
        lemma_detail_id(w4, mp, f.maker_id);
        assert(on_pool(w, mp, f.maker_id));
        assert(detail_fits(before, room, g));
        lemma_grid_closed(before.open_quantity, f.quantity, g);
        lemma_grid_closed(before.filled_quantity, f.quantity, g);
        assert(detail_fits(d, room - f.quantity, g));
        lemma_put(w4, mp, d);
        let w5 = fill_recorded(w, f, maker_area, taker, pool, now);
        assert(w5.gridpools == detail_put(w4, mp, d).gridpools);
        assert forall|p: u64, i: u64| #[trigger] on_pool(w5, p, i) <==> on_pool(w, p, i) by {
            assert(on_pool(w5, p, i) == on_pool(detail_put(w4, mp, d), p, i));
            assert(on_pool(w4, p, i) == on_pool(w, p, i));
        }
        assert forall|p: u64, i: u64|
            on_pool(w, p, i) && !bound_to(w, i, p) implies #[trigger] detail_at(w5, p, i)
            == detail_at(w, p, i) by {
            assert(p != mp || i != f.maker_id);
            assert(on_pool(w4, p, i));
            assert(detail_at(w5, p, i) == detail_at(detail_put(w4, mp, d), p, i));
        }
        assert forall|i: u64| maker_fits(w, i, room, g) implies #[trigger] maker_fits(
            last,
            i,
            room - f.quantity,
            g,
        ) by {
            if last.owners.contains_key(i) && on_pool(last, last.owners[i], i) {
                let p = w.owners[i];
                assert(last.owners[i] == p && on_pool(w, p, i));
                assert(on_pool(w4, p, i) && detail_at(w4, p, i) == detail_at(w, p, i));
                assert(detail_at(last, p, i) == detail_at(detail_put(w4, mp, d), p, i));
                if i == f.maker_id {
                    assert(detail_at(last, p, i) == d);
                } else {
                    assert(detail_at(last, p, i) == detail_at(w4, p, i));
                }
            }
        }
    } else {
        let w5 = fill_recorded(w, f, maker_area, taker, pool, now);
        assert(w5 == w4);
        assert forall|i: u64| maker_fits(w, i, room, g) implies #[trigger] maker_fits(
            last,
            i,
            room - f.quantity,
            g,
        ) by {
            if last.owners.contains_key(i) && on_pool(last, last.owners[i], i) {
                assert(on_pool(w, w.owners[i], i));
                assert(detail_at(w4, w.owners[i], i) == detail_at(w, w.owners[i], i));
            }
        }
    }
}

/// Matching an order leaves the exchange able to record its fills.
pub proof fn lemma_crossed_recordable(
    w: WorldV,
    taker: Taker,
    price: int,
    qty: int,
    mode: ExecMode,
    now: Timestamp,
    pool: Option<u64>,
    g: nat,
)
    requires
        world_wf(w),
        owners_known(w),
        pool matches Some(p) ==> holds(w.gridpools, p),
        amount_fits(qty, g),
        reach_fits(w, taker.key, candidates(w, taker.key, now), taker.side, price, qty, g),
        world_wf(crossed(w, taker, price, qty, mode, now).world),
    ensures
        ({
            let c = crossed(w, taker, price, qty, mode, now);
            &&& recordable(c.world, pool, qty, g)
            &&& forall|i: int|
                0 <= i < c.takes.len() ==> maker_fits(
                    c.world,
                    (#[trigger] c.takes[i]).entry.id,
                    qty,
                    g,
                )
            &&& takes_fit(c.takes, qty, g)
            &&& c.takes.len() <= resting_count(w.books, other_side(taker.side))
            &&& c.world.next_trade_id == w.next_trade_id
            &&& c.world.gridpools == w.gridpools
            &&& c.world.owners == w.owners
        }),
{
    let keys = candidates(w, taker.key, now);
    let s = swept(w.books, keys, taker.side, price, qty);
    lemma_reach_far(w, taker.key, keys, taker.side, price, qty, g);
    lemma_swept_fits(w.books, keys, taker.side, price, qty, g);
    lemma_takes_bounded(w.books, keys, taker.side, price, qty);
    lemma_traced_frame(w, taker, s.takes, now);
    let c = crossed(w, taker, price, qty, mode, now);
    assert forall|k: KeyV, e: EntryV| #[trigger]
        in_reach(w.books, keys, taker.side, price, k, e) implies maker_fits(w, e.id, qty, g) by {
        assert(entry_fits(w, taker.key, k, e, qty, g));
    }
    lemma_swept_makers(w, w.books, keys, taker.side, price, qty, qty, g);
    assert forall|i: int| 0 <= i < c.takes.len() implies maker_fits(
        c.world,
        (#[trigger] c.takes[i]).entry.id,
        qty,
        g,
    ) by {
        let id = c.takes[i].entry.id;
        assert(c.takes[i] == s.takes[i]);
        assert(maker_fits(w, s.takes[i].entry.id, qty, g));
        assert(on_pool(c.world, w.owners[id], id) == on_pool(w, w.owners[id], id));
        assert(detail_at(c.world, w.owners[id], id) == detail_at(w, w.owners[id], id));
    }
}

/// What a fill does to its maker's order can be held.
pub proof fn lemma_maker_fits(w: WorldV, f: FillV, room: int, g: nat)
    requires
        maker_fits(w, f.maker_id, room, g),
        on_grid(f.quantity, g),
        0 <= f.quantity <= room,
    ensures
        w.owners.contains_key(f.maker_id) && on_pool(w, w.owners[f.maker_id], f.maker_id) ==> {
            let d = detail_at(w, w.owners[f.maker_id], f.maker_id);
            &&& representable(d.open_quantity - f.quantity)
            &&& representable(d.filled_quantity + f.quantity)
        },
{
    if w.owners.contains_key(f.maker_id) && on_pool(w, w.owners[f.maker_id], f.maker_id) {
        let d = detail_at(w, w.owners[f.maker_id], f.maker_id);
        lemma_grid_closed(d.open_quantity, f.quantity, g);
        lemma_grid_closed(d.filled_quantity, f.quantity, g);
        assert(crate::decimal::fits(d.open_quantity - f.quantity, g));
        assert(crate::decimal::fits(d.filled_quantity + f.quantity, g));
    }
}

/// Storing a row's own value changes nothing.
pub proof fn lemma_stored_same<A, B>(rows: Seq<(A, B)>, k: A)
    requires
        holds(rows, k),
    ensures
        stored(rows, k, value_at(rows, k)) == rows,
{
    let i = slot(rows, k);
    assert(rows[i].0 == k);
    assert(rows.update(i, (k, rows[i].1)) =~= rows);
}

/// The books stay well-formed when an order leaves one of them.
pub proof fn lemma_without_wf(books: Seq<(KeyV, BookV)>, i: int, id: u64)
    requires
        books_wf(books),
        0 <= i < books.len(),
    ensures
        books_wf(books_without(books, i, id)),
{
    let after = books_without(books, i, id);
    assert(book_wf(books[i].1));
    lemma_canceled_wf(books[i].1, id);
    assert forall|j: int| 0 <= j < after.len() implies book_wf((#[trigger] after[j]).1) by {
        assert(book_wf(books[j].1));
    }
    assert forall|a: int, b: int| 0 <= a < b < after.len() implies (#[trigger] after[a]).0 != (
    #[trigger] after[b]).0 by {
        assert(books[a].0 != books[b].0);
    }
}

/// What recording one fill keeps and changes: the maker's order is filled,
/// if it is bound to a gridpool that has it, and no longer bound once nothing
/// of it is open; no other order changes.
pub proof fn lemma_fill_keeps(
    w: WorldV,
    f: FillV,
    maker_area: AreaV,
    taker: Taker,
    pool: Option<u64>,
    now: Timestamp,
)
    requires
        world_wf(w),
        owners_known(w),
        pool matches Some(p) ==> holds(w.gridpools, p),
    ensures
        ({
            let after = fill_recorded(w, f, maker_area, taker, pool, now);
            &&& world_wf(after)
            &&& owners_known(after)
            &&& forall|q: u64| #[trigger] holds(after.gridpools, q) <==> holds(w.gridpools, q)
            &&& forall|p: u64, id: u64| #[trigger] on_pool(after, p, id) <==> on_pool(w, p, id)
            &&& forall|p: u64, id: u64|
                on_pool(w, p, id) ==> #[trigger] detail_at(after, p, id) == if id == f.maker_id
                    && bound_to(w, id, p) {
                    maker_filled(detail_at(w, p, id), f.quantity, now)
                } else {
                    detail_at(w, p, id)
                }
            &&& after.owners == if w.owners.contains_key(f.maker_id) && on_pool(
                w,
                w.owners[f.maker_id],
                f.maker_id,
            ) && detail_at(w, w.owners[f.maker_id], f.maker_id).open_quantity == f.quantity {
                w.owners.remove(f.maker_id)
            } else {
                w.owners
            }
            &&& after == (WorldV {
                gridpools: after.gridpools,
                owners: after.owners,
                next_trade_id: (w.next_trade_id + 1) as u64,
                trade_history: after.trade_history,
                outbox: after.outbox,
                ..w
            })
        }),
{
    let id = w.next_trade_id;
    let w1 = WorldV { next_trade_id: (id + 1) as u64, ..w };
    let t1 = trade_of_fill(id, taker.id, taker.side, taker.key.area, f, taker, now);
    let w2 = match pool {
        Some(p) => pool_traded(w1, p, t1),
        None => w1,
    };
    if pool is Some {
        lemma_traded(w1, pool->0, t1);
    }
    let t2 = trade_of_fill(id, f.maker_id, other_side(taker.side), maker_area, f, taker, now);
    let w3 = if w.owners.contains_key(f.maker_id) {
        pool_traded(w2, w.owners[f.maker_id], t2)
    } else {
        w2
    };
    if w.owners.contains_key(f.maker_id) {
        lemma_traded(w2, w.owners[f.maker_id], t2);
    }
    let w4 = fill_traded(w, f, maker_area, taker, pool, now);
    assert(w4.gridpools == w3.gridpools);
    assert(world_wf(w4));
    assert forall|p: u64, i: u64| on_pool(w4, p, i) <==> on_pool(w, p, i) by {
        assert(on_pool(w4, p, i) == on_pool(w3, p, i));
        assert(on_pool(w1, p, i) == on_pool(w, p, i));
    }
    assert forall|p: u64, i: u64| on_pool(w, p, i) implies detail_at(w4, p, i) == detail_at(
        w,
        p,
        i,
    ) by {
        assert(on_pool(w1, p, i) && on_pool(w2, p, i));
        assert(detail_at(w4, p, i) == detail_at(w3, p, i));
        assert(detail_at(w1, p, i) == detail_at(w, p, i));
    }
    let after = fill_recorded(w, f, maker_area, taker, pool, now);
    if w4.owners.contains_key(f.maker_id) && on_pool(w4, w4.owners[f.maker_id], f.maker_id) {
        let mp = w4.owners[f.maker_id];
        let before = detail_at(w4, mp, f.maker_id);
        let d = maker_filled(before, f.quantity, now);
        lemma_detail_id(w4, mp, f.maker_id);
        lemma_put(w4, mp, d);
        let put = detail_put(w4, mp, d);
        assert(after.gridpools == put.gridpools);
        assert forall|p: u64, i: u64| #[trigger] on_pool(after, p, i) <==> on_pool(w, p, i) by {
            assert(on_pool(after, p, i) == on_pool(put, p, i));
            assert(on_pool(w4, p, i) == on_pool(w, p, i));
        }
        assert forall|p: u64, i: u64| on_pool(w, p, i) implies #[trigger] detail_at(after, p, i)
            == if i == f.maker_id && bound_to(w, i, p) {
            maker_filled(detail_at(w, p, i), f.quantity, now)
        } else {
            detail_at(w, p, i)
        } by {
            assert(on_pool(w4, p, i));
            assert(detail_at(after, p, i) == detail_at(put, p, i));
        }
    } else {
        assert(after == w4);
    }
}

/// Tracing fills touches the book stream alone.
pub proof fn lemma_traced_keeps(
    w: WorldV,
    taker: Taker,
    fills: Seq<FillV>,
    book: BookV,
    now: Timestamp,
)
    ensures
        ({
            let after = fills_traced(w, taker, fills, book, now);
            after == (WorldV {
                book_history: after.book_history,
                first_seen: after.first_seen,
                outbox: after.outbox,
                ..w
            })
        }),
    decreases fills.len(),
{
    if fills.len() > 0 {
        lemma_traced_keeps(w, taker, fills.drop_last(), book, now);
    }
}

} // verus!
