//! What holds of orders from their submission to their end.

use crate::book::{inserted, lemma_inserted_wf, rests, BookV, EntryV};
use crate::gridpool::SelfTradePolicy;
use crate::ledger::{
    lemma_book_at_wf, lemma_detail_id, lemma_fill_keeps, lemma_put, lemma_stored_books_wf,
    lemma_without_wf,
};
use crate::matching::ExecMode;
use crate::model::{
    admitted, book_at, book_with, books_without, bound_to, cancel_objection, candidates, canonical,
    coupled, crossed, detail_at, detail_canceled, detail_put, fill_of, flow, fresh_detail, key_of,
    mode_of, modify_objection, on_pool, open_neighbours, order_canceled, owners_known, rejection,
    submitted, swept, take_total, takes_from_pool, takes_recorded, takes_traced, world_wf, KeyV,
    SubmitError, Take, Taker, UpdateV, WorldV,
};
use crate::order::{DetailV, MarketActor, OrderV};
use crate::sweeping::{books_open, lemma_inserted_open, lemma_swept};
use crate::table::{distinct, holds, lemma_stored, value_at};
use crate::time::Timestamp;
use crate::volume::lemma_traced_frame;
use vstd::prelude::*;

verus! {

// ---------------------------------------------------------------------------
// Frames
// ---------------------------------------------------------------------------

/// The candidates of an order depend on the couplings and flows alone.
pub proof fn lemma_candidates_same(a: WorldV, b: WorldV, key: KeyV, now: Timestamp)
    requires
        a.couplings == b.couplings,
        a.flows == b.flows,
    ensures
        candidates(a, key, now) == candidates(b, key, now),
{
    lemma_neighbours_same(a, b, key, now, coupled(a, key.area).len());
}

proof fn lemma_neighbours_same(a: WorldV, b: WorldV, key: KeyV, now: Timestamp, n: nat)
    requires
        a.couplings == b.couplings,
        a.flows == b.flows,
    ensures
        open_neighbours(a, key, now, n) == open_neighbours(b, key, now, n),
    decreases n,
{
    if n > 0 {
        lemma_neighbours_same(a, b, key, now, (n - 1) as nat);
    }
}

proof fn lemma_traced_flows(w: WorldV, taker: Taker, takes: Seq<Take>, now: Timestamp)
    requires
        distinct(w.flows),
    ensures
        distinct(takes_traced(w, taker, takes, now).flows),
    decreases takes.len(),
{
    if takes.len() > 0 {
        let before = takes_traced(w, taker, takes.drop_last(), now);
        let t = takes.last();
        lemma_traced_flows(w, taker, takes.drop_last(), now);
        let (lo, hi) = canonical(taker.key.area, t.key.area);
        lemma_stored(
            before.flows,
            (lo, hi, taker.key.period),
            flow(before, taker.key.area, t.key.area, taker.key.period) + t.quantity,
        );
    }
}

/// Matching an order touches the books, the flows and the book stream, and
/// keeps them in order.
pub proof fn lemma_crossed_keeps(
    w: WorldV,
    taker: Taker,
    price: int,
    qty: int,
    mode: ExecMode,
    now: Timestamp,
)
    requires
        world_wf(w),
        books_open(w.books),
        qty > 0,
    ensures
        ({
            let c = crossed(w, taker, price, qty, mode, now);
            &&& world_wf(c.world)
            &&& books_open(c.world.books)
            &&& c.world == (WorldV {
                books: c.world.books,
                flows: c.world.flows,
                first_seen: c.world.first_seen,
                book_history: c.world.book_history,
                outbox: c.world.outbox,
                ..w
            })
            &&& 0 <= take_total(c.takes) <= qty
            &&& c.rested matches Some(left) ==> left > 0 && take_total(c.takes) + left == qty
                && mode == ExecMode::Resting
            &&& c.rested is None && mode == ExecMode::Resting ==> take_total(c.takes) == qty
        }),
{
    let keys = candidates(w, taker.key, now);
    let side = taker.side;
    let s = swept(w.books, keys, side, price, qty);
    lemma_swept(w.books, keys, side, price, qty);
    lemma_traced_frame(w, taker, s.takes, now);
    lemma_traced_flows(w, taker, s.takes, now);
    lemma_takes_positive(s.takes);
    if mode == ExecMode::Resting && s.left > 0 {
        let home = book_at(s.books, taker.key);
        let e = EntryV { id: taker.id, price, open: s.left };
        lemma_book_at_wf(s.books, taker.key);
        lemma_inserted_wf(home, side, e);
        lemma_stored_books_wf(s.books, taker.key, inserted(home, side, e));
        lemma_inserted_open(s.books, taker.key, side, e);
    }
}

pub proof fn lemma_takes_positive(takes: Seq<Take>)
    requires
        forall|i: int| 0 <= i < takes.len() ==> (#[trigger] takes[i]).quantity > 0,
    ensures
        take_total(takes) >= 0,
        takes.len() > 0 ==> take_total(takes) > 0,
    decreases takes.len(),
{
    if takes.len() > 0 {
        lemma_takes_positive(takes.drop_last());
        assert(takes[takes.len() - 1].quantity > 0);
    }
}

/// Recording fills touches the gridpools, their bindings, the trade ids and
/// the trade tape, and keeps them in order.
pub proof fn lemma_recorded_keeps(
    w: WorldV,
    taker: Taker,
    pool: Option<u64>,
    takes: Seq<Take>,
    now: Timestamp,
)
    requires
        world_wf(w),
        owners_known(w),
        pool matches Some(p) ==> holds(w.gridpools, p),
    ensures
        ({
            let after = takes_recorded(w, taker, pool, takes, now);
            &&& world_wf(after)
            &&& owners_known(after)
            &&& forall|q: u64| #[trigger] holds(after.gridpools, q) <==> holds(w.gridpools, q)
            &&& forall|p: u64, id: u64| #[trigger] on_pool(after, p, id) <==> on_pool(w, p, id)
            &&& after == (WorldV {
                gridpools: after.gridpools,
                owners: after.owners,
                next_trade_id: after.next_trade_id,
                trade_history: after.trade_history,
                outbox: after.outbox,
                ..w
            })
        }),
    decreases takes.len(),
{
    if takes.len() > 0 {
        let t = takes.last();
        let before = takes_recorded(w, taker, pool, takes.drop_last(), now);
        lemma_recorded_keeps(w, taker, pool, takes.drop_last(), now);
        lemma_fill_keeps(before, fill_of(taker.id, t), t.key.area, taker, pool, now);
        let after = takes_recorded(w, taker, pool, takes, now);
        assert forall|p: u64, id: u64| #[trigger] on_pool(after, p, id) <==> on_pool(w, p, id) by {
            assert(on_pool(before, p, id) <==> on_pool(w, p, id));
        }
        assert forall|q: u64| #[trigger] holds(after.gridpools, q) <==> holds(w.gridpools, q) by {
            assert(holds(before.gridpools, q) <==> holds(w.gridpools, q));
        }
    }
}

// ---------------------------------------------------------------------------
// Submitting
// ---------------------------------------------------------------------------

/// Under the rejecting policy, an admitted order never trades with an order
/// of its own gridpool.
pub proof fn gridpools_do_not_trade_with_themselves(
    w: WorldV,
    pool: u64,
    o: OrderV,
    now: Timestamp,
    i: int,
)
    requires
        rejection(w, pool, o, now) is None,
        value_at(w.gridpools, pool).self_trade_policy == SelfTradePolicy::Reject,
        0 <= i < admitted(w, o, Some(pool), now).takes.len(),
    ensures
        !bound_to(w, admitted(w, o, Some(pool), now).takes[i].entry.id, pool),
{
    let numbered = WorldV { next_order_id: (w.next_order_id + 1) as u64, ..w };
    lemma_candidates_same(w, numbered, key_of(o), now);
    let takes = admitted(w, o, Some(pool), now).takes;
    let probe = swept(w.books, candidates(w, key_of(o), now), o.side, o.price, o.quantity).takes;
    assert(takes == probe);
    assert(!takes_from_pool(w, probe, pool));
    if bound_to(w, takes[i].entry.id, pool) {
        assert(w.owners.contains_key(probe[i].entry.id) && w.owners[probe[i].entry.id] == pool);
    }
}

/// Ids are handed out in order: an admitted order gets the next one, and the
/// one after it is next.
pub proof fn order_ids_are_handed_out_in_order(
    w: WorldV,
    o: OrderV,
    pool: Option<u64>,
    now: Timestamp,
)
    requires
        world_wf(w),
        owners_known(w),
        books_open(w.books),
        pool matches Some(p) ==> holds(w.gridpools, p),
        o.quantity > 0,
        w.next_order_id < u64::MAX,
    ensures
        admitted(w, o, pool, now).taker.id == w.next_order_id,
        admitted(w, o, pool, now).world.next_order_id == w.next_order_id + 1,
{
    let a = admitted(w, o, pool, now);
    let numbered = WorldV { next_order_id: (w.next_order_id + 1) as u64, ..w };
    lemma_crossed_keeps(
        numbered,
        a.taker,
        o.price,
        o.quantity,
        mode_of(o.execution_option),
        now,
    );
    let c = crossed(numbered, a.taker, o.price, o.quantity, mode_of(o.execution_option), now);
    lemma_recorded_keeps(c.world, a.taker, pool, c.takes, now);
}

// ---------------------------------------------------------------------------
// What is filled and what is open
// ---------------------------------------------------------------------------

/// Of every order, what is filled and what is open make up its quantity.
pub open spec fn accounted(w: WorldV) -> bool {
    forall|p: u64, id: u64| #[trigger] on_pool(w, p, id) ==> adds_up(detail_at(w, p, id))
}

/// What is filled and what is open make up the quantity.
pub open spec fn adds_up(d: DetailV) -> bool {
    d.filled_quantity + d.open_quantity == d.order.quantity
}

pub proof fn lemma_recorded_accounted(
    w: WorldV,
    taker: Taker,
    pool: Option<u64>,
    takes: Seq<Take>,
    now: Timestamp,
)
    requires
        world_wf(w),
        owners_known(w),
        pool matches Some(p) ==> holds(w.gridpools, p),
        accounted(w),
    ensures
        accounted(takes_recorded(w, taker, pool, takes, now)),
    decreases takes.len(),
{
    if takes.len() > 0 {
        let t = takes.last();
        let before = takes_recorded(w, taker, pool, takes.drop_last(), now);
        lemma_recorded_keeps(w, taker, pool, takes.drop_last(), now);
        lemma_recorded_accounted(w, taker, pool, takes.drop_last(), now);
        lemma_fill_keeps(before, fill_of(taker.id, t), t.key.area, taker, pool, now);
        let after = takes_recorded(w, taker, pool, takes, now);
        assert forall|p: u64, id: u64| #[trigger] on_pool(after, p, id) implies adds_up(
            detail_at(after, p, id),
        ) by {
            assert(on_pool(before, p, id));
        }
    }
}

pub proof fn lemma_same_pools_accounted(a: WorldV, b: WorldV)
    requires
        a.gridpools == b.gridpools,
        accounted(a),
    ensures
        accounted(b),
{
    assert forall|p: u64, id: u64| #[trigger] on_pool(b, p, id) implies adds_up(
        detail_at(b, p, id),
    ) by {
        assert(on_pool(a, p, id));
    }
}

pub proof fn lemma_put_accounted(w: WorldV, pool: u64, d: DetailV)
    requires
        world_wf(w),
        holds(w.gridpools, pool),
        accounted(w),
        adds_up(d),
    ensures
        accounted(detail_put(w, pool, d)),
{
    lemma_put(w, pool, d);
    let after = detail_put(w, pool, d);
    assert forall|p: u64, id: u64| #[trigger] on_pool(after, p, id) implies adds_up(
        detail_at(after, p, id),
    ) by {
        if p != pool || id != d.id {
            assert(on_pool(w, p, id));
        }
    }
}

/// What is filled and what is open of every order keep making up its
/// quantity, through every submission of a gridpool.
pub proof fn submitting_keeps_accounts(w: WorldV, pool: u64, o: OrderV, now: Timestamp)
    requires
        world_wf(w),
        owners_known(w),
        books_open(w.books),
        accounted(w),
        holds(w.gridpools, pool),
        o.quantity > 0,
    ensures
        accounted(submitted(w, pool, o, now)),
        adds_up(fresh_detail(admitted(w, o, Some(pool), now), o, now)),
        0 <= fresh_detail(admitted(w, o, Some(pool), now), o, now).filled_quantity <= o.quantity,
{
    let a = admitted(w, o, Some(pool), now);
    let numbered = WorldV { next_order_id: (w.next_order_id + 1) as u64, ..w };
    let mode = mode_of(o.execution_option);
    let c = crossed(numbered, a.taker, o.price, o.quantity, mode, now);
    lemma_crossed_keeps(numbered, a.taker, o.price, o.quantity, mode, now);
    lemma_same_pools_accounted(w, c.world);
    lemma_recorded_keeps(c.world, a.taker, Some(pool), c.takes, now);
    lemma_recorded_accounted(c.world, a.taker, Some(pool), c.takes, now);
    let d = fresh_detail(a, o, now);
    let filed = if on_pool(a.world, pool, d.id) {
        a.world
    } else {
        detail_put(a.world, pool, d)
    };
    assert(holds(a.world.gridpools, pool));
    lemma_put_accounted(a.world, pool, d);
    lemma_same_pools_accounted(filed, submitted(w, pool, o, now));
}

/// The same goes for every order of a counterparty.
pub proof fn counterparties_keep_accounts(w: WorldV, o: OrderV, now: Timestamp)
    requires
        world_wf(w),
        owners_known(w),
        books_open(w.books),
        accounted(w),
        o.quantity > 0,
    ensures
        accounted(admitted(w, o, None, now).world),
{
    let a = admitted(w, o, None, now);
    let numbered = WorldV { next_order_id: (w.next_order_id + 1) as u64, ..w };
    let mode = mode_of(o.execution_option);
    let c = crossed(numbered, a.taker, o.price, o.quantity, mode, now);
    lemma_crossed_keeps(numbered, a.taker, o.price, o.quantity, mode, now);
    lemma_same_pools_accounted(w, c.world);
    lemma_recorded_accounted(c.world, a.taker, None, c.takes, now);
}

// ---------------------------------------------------------------------------
// Canceling
// ---------------------------------------------------------------------------

/// What canceling an order does to the orders: the one is canceled, the
/// others stay as they are.
pub proof fn lemma_canceled_details(
    w: WorldV,
    pool: u64,
    id: u64,
    actor: MarketActor,
    now: Timestamp,
)
    requires
        world_wf(w),
        on_pool(w, pool, id),
    ensures
        ({
            let after = order_canceled(w, pool, id, actor, now);
            &&& world_wf(after)
            &&& on_pool(after, pool, id)
            &&& detail_at(after, pool, id) == detail_canceled(detail_at(w, pool, id), actor, now)
            &&& forall|p: u64, i: u64|
                p != pool || i != id ==> (#[trigger] on_pool(after, p, i) <==> on_pool(w, p, i))
            &&& forall|p: u64, i: u64|
                (p != pool || i != id) && on_pool(w, p, i) ==> #[trigger] detail_at(after, p, i)
                    == detail_at(w, p, i)
            &&& forall|q: u64| #[trigger] holds(after.gridpools, q) <==> holds(w.gridpools, q)
        }),
{
    let d = detail_at(w, pool, id);
    lemma_detail_id(w, pool, id);
    let after = detail_canceled(d, actor, now);
    let at = if bound_to(w, id, pool) {
        book_with(w.books, id, 0)
    } else {
        None
    };
    lemma_book_with(w.books, id, 0);
    let w1 = if bound_to(w, id, pool) {
        WorldV { owners: w.owners.remove(id), ..w }
    } else {
        w
    };
    let w2 = match at {
        Some(i) => WorldV { books: books_without(w1.books, i, id), ..w1 },
        None => w1,
    };
    if at is Some {
        lemma_without_wf(w.books, at->0, id);
    }
    lemma_put(w2, pool, after);
    let put = detail_put(w2, pool, after);
    let end = order_canceled(w, pool, id, actor, now);
    assert(end.gridpools == put.gridpools);
    assert forall|p: u64, i: u64| p != pool || i != id implies (#[trigger] on_pool(end, p, i)
        <==> on_pool(w, p, i)) by {
        assert(on_pool(end, p, i) == on_pool(put, p, i));
        assert(on_pool(w2, p, i) == on_pool(w, p, i));
    }
    assert forall|p: u64, i: u64|
        (p != pool || i != id) && on_pool(w, p, i) implies #[trigger] detail_at(end, p, i)
        == detail_at(w, p, i) by {
        assert(on_pool(w2, p, i));
        assert(detail_at(end, p, i) == detail_at(put, p, i));
        assert(detail_at(w2, p, i) == detail_at(w, p, i));
    }
    assert(detail_at(end, pool, id) == detail_at(put, pool, id));
    assert(on_pool(put, pool, id));
}

/// The book found is one the order rests on, and the first.
pub proof fn lemma_book_with(books: Seq<(KeyV, BookV)>, id: u64, from: int)
    requires
        0 <= from,
    ensures
        match book_with(books, id, from) {
            Some(i) => from <= i < books.len() && rests(books[i].1, id),
            None => forall|i: int|
                from <= i < books.len() ==> !rests((#[trigger] books[i]).1, id),
        },
    decreases books.len() - from,
{
    if from < books.len() && !rests(books[from].1, id) {
        lemma_book_with(books, id, from + 1);
    }
}

/// A canceled order stays canceled: it cannot be canceled, recalled or
/// modified again, and canceling it touched no other order.
pub proof fn cancel_is_final(
    w: WorldV,
    pool: u64,
    id: u64,
    actor: MarketActor,
    now: Timestamp,
    u: UpdateV,
)
    requires
        world_wf(w),
        cancel_objection(w, pool, id) is None,
    ensures
        ({
            let after = order_canceled(w, pool, id, actor, now);
            &&& cancel_objection(after, pool, id) == Some(SubmitError::OrderAlreadyTerminal)
            &&& modify_objection(after, pool, id, u, now) == Some(SubmitError::OrderAlreadyTerminal)
            &&& detail_at(after, pool, id).state.actor == actor
            &&& forall|p: u64, i: u64|
                (p != pool || i != id) && on_pool(w, p, i) ==> #[trigger] detail_at(after, p, i)
                    == detail_at(w, p, i)
        }),
{
    lemma_canceled_details(w, pool, id, actor, now);
}

/// Canceling keeps what is filled and what is open making up each quantity.
pub proof fn canceling_keeps_accounts(
    w: WorldV,
    pool: u64,
    id: u64,
    actor: MarketActor,
    now: Timestamp,
)
    requires
        world_wf(w),
        accounted(w),
        cancel_objection(w, pool, id) is None,
    ensures
        accounted(order_canceled(w, pool, id, actor, now)),
{
    lemma_canceled_details(w, pool, id, actor, now);
    let after = order_canceled(w, pool, id, actor, now);
    assert forall|p: u64, i: u64| #[trigger] on_pool(after, p, i) implies adds_up(
        detail_at(after, p, i),
    ) by {
        assert(on_pool(w, p, i));
    }
}

} // verus!
