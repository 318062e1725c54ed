//! Who is told what.

use crate::book::{book_wf, entry_of, place_of, queue_of, rests, side_of, BookV, EntryV};
use crate::ledger::lemma_traded;
use crate::lifecycle::{
    lemma_book_with, lemma_candidates_same, lemma_crossed_keeps, lemma_recorded_keeps,
};
use crate::linkage::{
    in_order, in_place, lemma_contains_has_id, lemma_queue_distinct, lemma_recorded_details,
    lemma_side_rests, lemma_swept_entries, takes_distinct, touches,
};
use crate::market::AreaV;
use crate::matching::FillV;
use crate::model::{
    admitted, book_at, book_record, book_with, bound_to, cancel_objection, candidates, crossed,
    detail_at, emitted, fill_of, fill_traded, key_of, maker_filled, mode_of, on_pool, opposite,
    order_canceled, owners_known, pool_traded, ring_with, swept, take_total, takes_recorded,
    takes_traced, trade_of_fill, world_wf, BookEvent, KeyV, Take, Taker, WorldV,
};
use crate::order::{other_side, DetailV, MarketActor, OrderState, OrderV, Side, StateReason};
use crate::outcomes::canceled_orders_are_off_the_books;
use crate::showing::{known_since, shown};
use crate::sweeping::lemma_swept;
use crate::table::{holds, lemma_slot, slot};
use crate::time::Timestamp;
use vstd::prelude::*;

verus! {

/// The number the book stream shows for a side.
pub open spec fn side_shown(side: Side) -> i32 {
    match side {
        Side::Buy => 1,
        Side::Sell => 2,
        Side::Unspecified => 0,
    }
}

/// The last so many of the events.
pub open spec fn latest<T>(events: Seq<T>, cap: int) -> Seq<T> {
    if events.len() <= cap {
        events
    } else {
        events.skip(events.len() - cap)
    }
}

proof fn lemma_latest<T>(events: Seq<T>, event: T)
    ensures
        ring_with(latest(events, 10_000), event) == latest(events.push(event), 10_000),
{
    assert(ring_with(latest(events, 10_000), event) =~= latest(events.push(event), 10_000));
}

/// What the takes put onto the book stream.
proof fn lemma_traced_shown(w: WorldV, taker: Taker, takes: Seq<Take>, now: Timestamp)
    requires
        takes_distinct(takes),
        taker.side == Side::Buy || taker.side == Side::Sell,
        w.book_history.len() <= 10_000,
    ensures
        ({
            let after = takes_traced(w, taker, takes, now);
            let n = w.outbox.book_records.len() as int;
            let all = after.outbox.book_records;
            &&& all.len() == n + takes.len()
            &&& all.take(n) == w.outbox.book_records
            &&& forall|i: int|
                0 <= i < takes.len() ==> (#[trigger] all[n + i]) == shown(
                    takes[i].entry.id,
                    takes[i].key,
                    if taker.side == Side::Buy {
                        2
                    } else {
                        1
                    },
                    takes[i].entry.price,
                    taker.currency,
                    takes[i].entry.open - takes[i].quantity,
                    known_since(w, takes[i].entry.id, now),
                    now,
                )
            &&& after.book_history == latest(w.book_history + all.skip(n), 10_000)
            &&& forall|id: u64|
                !touches(takes, id) ==> (#[trigger] after.first_seen.contains_key(id)
                    <==> w.first_seen.contains_key(id)) && known_since(after, id, now)
                    == known_since(w, id, now)
        }),
    decreases takes.len(),
{
    let n = w.outbox.book_records.len() as int;
    let after = takes_traced(w, taker, takes, now);
    let all = after.outbox.book_records;
    if takes.len() == 0 {
        assert(all.take(n) =~= w.outbox.book_records);
        assert(w.book_history + all.skip(n) =~= w.book_history);
    } else {
        let some = takes.drop_last();
        let t = takes.last();
        let mid = takes_traced(w, taker, some, now);
        let before = mid.outbox.book_records;
        lemma_traced_shown(w, taker, some, now);
        assert(all.drop_last() =~= before);
        assert(all.take(n) =~= before.take(n));
        if touches(some, t.entry.id) {
            let i = choose|i: int| 0 <= i < some.len() && (#[trigger] some[i]).entry.id == t.entry.id;
            assert(takes[i].entry.id != takes[takes.len() - 1].entry.id);
        }
        assert(known_since(mid, t.entry.id, now) == known_since(w, t.entry.id, now)) by {
            assert(mid.first_seen.contains_key(t.entry.id) <==> w.first_seen.contains_key(
                t.entry.id,
            ));
        }
        let record = all.last();
        lemma_latest(w.book_history + before.skip(n), record);
        assert((w.book_history + before.skip(n)).push(record) =~= w.book_history + all.skip(n));
        assert forall|i: int| 0 <= i < takes.len() implies (#[trigger] all[n + i]) == shown(
            takes[i].entry.id,
            takes[i].key,
            if taker.side == Side::Buy {
                2
            } else {
                1
            },
            takes[i].entry.price,
            taker.currency,
            takes[i].entry.open - takes[i].quantity,
            known_since(w, takes[i].entry.id, now),
            now,
        ) by {
            if i < some.len() {
                assert(all[n + i] == before[n + i]);
                assert(some[i] == takes[i]);
            }
        }
        assert forall|id: u64| !touches(takes, id) implies (#[trigger] after.first_seen.contains_key(
            id,
        ) <==> w.first_seen.contains_key(id)) && known_since(after, id, now) == known_since(
            w,
            id,
            now,
        ) by {
            if touches(some, id) {
                let i = choose|i: int| 0 <= i < some.len() && (#[trigger] some[i]).entry.id == id;
                assert(takes[i].entry.id == id);
            }
            assert(takes[takes.len() - 1].entry.id == t.entry.id);
            assert(id != t.entry.id);
            assert(mid.first_seen.contains_key(id) <==> w.first_seen.contains_key(id));
        }
    }
}

pub proof fn lemma_recorded_shows_nothing(
    w: WorldV,
    taker: Taker,
    pool: Option<u64>,
    takes: Seq<Take>,
    now: Timestamp,
)
    ensures
        takes_recorded(w, taker, pool, takes, now).first_seen == w.first_seen,
        takes_recorded(w, taker, pool, takes, now).outbox.book_records == w.outbox.book_records,
        takes_recorded(w, taker, pool, takes, now).book_history == w.book_history,
    decreases takes.len(),
{
    if takes.len() > 0 {
        lemma_recorded_shows_nothing(w, taker, pool, takes.drop_last(), now);
    }
}

/// The book stream shows what an order does to the books, in order: for every
/// order it takes from, that order on its own side, at its price, with what is
/// left of it; then, where the order rests, the order itself, with what is
/// left of it. The stream's history ends with the same records, and holds the
/// latest ten thousand.
pub proof fn the_book_stream_shows_every_change(
    w: WorldV,
    o: OrderV,
    pool: Option<u64>,
    now: Timestamp,
)
    requires
        in_order(w),
        pool matches Some(p) ==> holds(w.gridpools, p),
        o.quantity > 0,
        o.side == Side::Buy || o.side == Side::Sell,
        w.next_order_id < u64::MAX,
        w.book_history.len() <= 10_000,
    ensures
        ({
            let a = admitted(w, o, pool, now);
            let n = w.outbox.book_records.len() as int;
            let all = a.world.outbox.book_records;
            &&& all.take(n) == w.outbox.book_records
            &&& all.len() == n + a.takes.len() + if a.rested is Some {
                1int
            } else {
                0
            }
            &&& forall|i: int|
                0 <= i < a.takes.len() ==> (#[trigger] all[n + i]) == shown(
                    a.takes[i].entry.id,
                    a.takes[i].key,
                    if o.side == Side::Buy {
                        2
                    } else {
                        1
                    },
                    a.takes[i].entry.price,
                    o.currency,
                    a.takes[i].entry.open - a.takes[i].quantity,
                    known_since(w, a.takes[i].entry.id, now),
                    now,
                )
            &&& a.rested is Some ==> all.last() == shown(
                w.next_order_id,
                KeyV { area: o.area, period: o.period },
                if o.side == Side::Buy {
                    1
                } else {
                    2
                },
                o.price,
                o.currency,
                o.quantity - take_total(a.takes),
                known_since(w, w.next_order_id, now),
                now,
            )
            &&& a.world.book_history == latest(w.book_history + all.skip(n), 10_000)
        }),
{
    let a = admitted(w, o, pool, now);
    let numbered = WorldV { next_order_id: (w.next_order_id + 1) as u64, ..w };
    let mode = mode_of(o.execution_option);
    let key = key_of(o);
    let c = crossed(numbered, a.taker, o.price, o.quantity, mode, now);
    let n = w.outbox.book_records.len() as int;
    lemma_recorded_shows_nothing(c.world, a.taker, pool, c.takes, now);
    lemma_candidates_same(w, numbered, key, now);
    let keys = candidates(w, key, now);
    lemma_swept_entries(w.books, keys, o.side, o.price, o.quantity);
    lemma_swept(w.books, keys, o.side, o.price, o.quantity);
    let s = swept(w.books, keys, o.side, o.price, o.quantity);
    let traced = takes_traced(numbered, a.taker, c.takes, now);
    assert(takes_distinct(c.takes));
    lemma_traced_shown(numbered, a.taker, c.takes, now);
    let all = a.world.outbox.book_records;
    let before = traced.outbox.book_records;
    if a.rested is Some {
        assert(c.takes == s.takes);
        if touches(c.takes, w.next_order_id) {
            let i = choose|i: int|
                0 <= i < c.takes.len() && (#[trigger] c.takes[i]).entry.id == w.next_order_id;
            assert(opposite(w.books, c.takes[i].key, o.side).contains(c.takes[i].entry));
            lemma_contains_has_id(opposite(w.books, c.takes[i].key, o.side), c.takes[i].entry);
            lemma_side_rests(
                book_at(w.books, c.takes[i].key),
                other_side(o.side),
                w.next_order_id,
            );
        }
        assert(known_since(traced, w.next_order_id, now) == known_since(w, w.next_order_id, now))
            by {
            assert(traced.first_seen.contains_key(w.next_order_id)
                <==> numbered.first_seen.contains_key(w.next_order_id));
        }
        let record = all.last();
        assert(all.drop_last() =~= before);
        assert(all.take(n) =~= before.take(n));
        lemma_latest(w.book_history + before.skip(n), record);
        assert((w.book_history + before.skip(n)).push(record) =~= w.book_history + all.skip(n));
        assert forall|i: int| 0 <= i < a.takes.len() implies (#[trigger] all[n + i]) == before[n
            + i] by {}
    } else {
        assert(all == before);
    }
    assert forall|i: int| 0 <= i < a.takes.len() implies known_since(
        numbered,
        (#[trigger] a.takes[i]).entry.id,
        now,
    ) == known_since(w, a.takes[i].entry.id, now) by {}
}

/// One of the messages, past the first `n`, tells the gridpool this of its
/// order.
pub open spec fn told_since(list: Seq<(u64, DetailV)>, n: int, p: u64, d: DetailV) -> bool {
    exists|j: int| n <= j < list.len() && #[trigger] list[j] == (p, d)
}

/// The message is about one of the orders taken from, as it then stands.
pub open spec fn about_one_of(w: WorldV, after: WorldV, takes: Seq<Take>, m: (u64, DetailV)) -> bool {
    exists|i: int|
        0 <= i < takes.len() && w.owners.contains_key((#[trigger] takes[i]).entry.id) && m == (
            w.owners[takes[i].entry.id],
            detail_at(after, w.owners[takes[i].entry.id], takes[i].entry.id),
        )
}

spec fn about_one(w: WorldV, takes: Seq<Take>, now: Timestamp, m: (u64, DetailV)) -> bool {
    exists|i: int|
        0 <= i < takes.len() && w.owners.contains_key((#[trigger] takes[i]).entry.id) && m == (
            w.owners[takes[i].entry.id],
            maker_filled(
                detail_at(w, w.owners[takes[i].entry.id], takes[i].entry.id),
                takes[i].quantity,
                now,
            ),
        )
}

/// Whatever is bound to a gridpool is one of its orders.
spec fn linked_owners(w: WorldV) -> bool {
    forall|id: u64| #[trigger] w.owners.contains_key(id) ==> on_pool(w, w.owners[id], id)
}

proof fn lemma_owners_known_of(w: WorldV)
    requires
        linked_owners(w),
    ensures
        owners_known(w),
{
    assert forall|i: u64| #[trigger] w.owners.contains_key(i) implies holds(
        w.gridpools,
        w.owners[i],
    ) by {
        assert(on_pool(w, w.owners[i], i));
    }
}

/// Filing the trades of a fill leaves the orders alone.
proof fn lemma_traded_details(
    w: WorldV,
    f: FillV,
    area: AreaV,
    taker: Taker,
    pool: Option<u64>,
    now: Timestamp,
)
    requires
        world_wf(w),
        owners_known(w),
        pool matches Some(p) ==> holds(w.gridpools, p),
    ensures
        ({
            let after = fill_traded(w, f, area, taker, pool, now);
            &&& after.owners == w.owners
            &&& after.outbox.orders == w.outbox.orders
            &&& forall|p: u64, id: u64| #[trigger] on_pool(after, p, id) <==> on_pool(w, p, id)
            &&& forall|p: u64, id: u64|
                on_pool(w, p, id) ==> #[trigger] detail_at(after, p, id) == detail_at(w, p, id)
        }),
{
    let id = w.next_trade_id;
    let w1 = WorldV { next_trade_id: (id + 1) as u64, ..w };
    let t1 = trade_of_fill(id, taker.id, taker.side, taker.key.area, f, taker, now);
    let w2 = match pool {
        Some(p) => pool_traded(w1, p, t1),
        None => w1,
    };
    if pool is Some {
        lemma_traded(w1, pool->0, t1);
    }
    let t2 = trade_of_fill(id, f.maker_id, other_side(taker.side), area, f, taker, now);
    let w3 = if w.owners.contains_key(f.maker_id) {
        pool_traded(w2, w.owners[f.maker_id], t2)
    } else {
        w2
    };
    if w.owners.contains_key(f.maker_id) {
        lemma_traded(w2, w.owners[f.maker_id], t2);
    }
    let w4 = fill_traded(w, f, area, taker, pool, now);
    assert(w4.gridpools == w3.gridpools);
    assert forall|p: u64, i: u64| #[trigger] on_pool(w4, p, i) <==> on_pool(w, p, i) by {
        assert(on_pool(w4, p, i) == on_pool(w3, p, i));
        assert(on_pool(w3, p, i) == on_pool(w2, p, i));
        assert(on_pool(w2, p, i) == on_pool(w1, p, i));
    }
    assert forall|p: u64, i: u64| on_pool(w, p, i) implies #[trigger] detail_at(w4, p, i)
        == detail_at(w, p, i) by {
        assert(on_pool(w1, p, i) && on_pool(w2, p, i));
        assert(detail_at(w4, p, i) == detail_at(w3, p, i));
        assert(detail_at(w1, p, i) == detail_at(w, p, i));
    }
}

proof fn lemma_recorded_told(
    w: WorldV,
    taker: Taker,
    pool: Option<u64>,
    takes: Seq<Take>,
    now: Timestamp,
)
    requires
        world_wf(w),
        linked_owners(w),
        pool matches Some(p) ==> holds(w.gridpools, p),
        takes_distinct(takes),
    ensures
        ({
            let after = takes_recorded(w, taker, pool, takes, now);
            let n = w.outbox.orders.len() as int;
            &&& n <= after.outbox.orders.len()
            &&& after.outbox.orders.take(n) == w.outbox.orders
            &&& forall|j: int|
                n <= j < after.outbox.orders.len() ==> about_one(
                    w,
                    takes,
                    now,
                    #[trigger] after.outbox.orders[j],
                )
            &&& forall|i: int|
                0 <= i < takes.len() && w.owners.contains_key((#[trigger] takes[i]).entry.id)
                    ==> told_since(
                    after.outbox.orders,
                    n,
                    w.owners[takes[i].entry.id],
                    maker_filled(
                        detail_at(w, w.owners[takes[i].entry.id], takes[i].entry.id),
                        takes[i].quantity,
                        now,
                    ),
                )
        }),
    decreases takes.len(),
{
    let n = w.outbox.orders.len() as int;
    let after = takes_recorded(w, taker, pool, takes, now);
    if takes.len() == 0 {
        assert(after.outbox.orders.take(n) =~= w.outbox.orders);
    } else {
        let some = takes.drop_last();
        let t = takes.last();
        let id = t.entry.id;
        let mid = takes_recorded(w, taker, pool, some, now);
        let f = fill_of(taker.id, t);
        lemma_recorded_told(w, taker, pool, some, now);
        lemma_owners_known_of(w);
        lemma_recorded_keeps(w, taker, pool, some, now);
        lemma_recorded_details(w, taker, pool, some, now);
        if touches(some, id) {
            let i = choose|i: int| 0 <= i < some.len() && (#[trigger] some[i]).entry.id == id;
            assert(takes[i].entry.id != takes[takes.len() - 1].entry.id);
        }
        assert(mid.owners.contains_key(id) <==> w.owners.contains_key(id));
        let traded = fill_traded(mid, f, t.key.area, taker, pool, now);
        lemma_traded_details(mid, f, t.key.area, taker, pool, now);
        let before = mid.outbox.orders;
        let all = after.outbox.orders;
        if w.owners.contains_key(id) {
            let p = w.owners[id];
            let d = maker_filled(detail_at(w, p, id), t.quantity, now);
            assert(on_pool(w, p, id));
            assert(on_pool(mid, p, id));
            assert(detail_at(mid, p, id) == detail_at(w, p, id));
            assert(on_pool(traded, p, id));
            assert(detail_at(traded, p, id) == detail_at(mid, p, id));
            assert(all == before.push((p, d)));
            assert(all[all.len() - 1] == (p, d));
        } else {
            assert(all == before);
        }
        assert(all.take(n) =~= before.take(n));
        assert forall|j: int| n <= j < all.len() implies about_one(
            w,
            takes,
            now,
            #[trigger] all[j],
        ) by {
            if j < before.len() {
                assert(all[j] == before[j]);
                assert(about_one(w, some, now, before[j]));
                let i = choose|i: int|
                    0 <= i < some.len() && w.owners.contains_key((#[trigger] some[i]).entry.id)
                        && before[j] == (
                        w.owners[some[i].entry.id],
                        maker_filled(
                            detail_at(w, w.owners[some[i].entry.id], some[i].entry.id),
                            some[i].quantity,
                            now,
                        ),
                    );
                assert(takes[i] == some[i]);
            } else {
                assert(takes[takes.len() - 1] == t);
            }
        }
        assert forall|i: int|
            0 <= i < takes.len() && w.owners.contains_key(
                (#[trigger] takes[i]).entry.id,
            ) implies told_since(
            all,
            n,
            w.owners[takes[i].entry.id],
            maker_filled(
                detail_at(w, w.owners[takes[i].entry.id], takes[i].entry.id),
                takes[i].quantity,
                now,
            ),
        ) by {
            if i < some.len() {
                assert(some[i] == takes[i]);
                let m = (
                    w.owners[takes[i].entry.id],
                    maker_filled(
                        detail_at(w, w.owners[takes[i].entry.id], takes[i].entry.id),
                        takes[i].quantity,
                        now,
                    ),
                );
                let j = choose|j: int| n <= j < before.len() && #[trigger] before[j] == m;
                assert(all[j] == m);
            }
        }
    }
}

/// Whoever owns an order that is traded with is told how it then stands, and
/// while an order is matched nobody is told anything else.
pub proof fn the_owners_met_are_told(w: WorldV, o: OrderV, pool: Option<u64>, now: Timestamp)
    requires
        in_order(w),
        pool matches Some(p) ==> holds(w.gridpools, p),
        o.quantity > 0,
        o.side == Side::Buy || o.side == Side::Sell,
        w.next_order_id < u64::MAX,
    ensures
        ({
            let a = admitted(w, o, pool, now);
            let n = w.outbox.orders.len() as int;
            let all = a.world.outbox.orders;
            &&& n <= all.len()
            &&& all.take(n) == w.outbox.orders
            &&& forall|j: int|
                n <= j < all.len() ==> about_one_of(w, a.world, a.takes, #[trigger] all[j])
            &&& forall|i: int|
                0 <= i < a.takes.len() && w.owners.contains_key((#[trigger] a.takes[i]).entry.id)
                    ==> told_since(
                    all,
                    n,
                    w.owners[a.takes[i].entry.id],
                    detail_at(a.world, w.owners[a.takes[i].entry.id], a.takes[i].entry.id),
                )
        }),
{
    let a = admitted(w, o, pool, now);
    let numbered = WorldV { next_order_id: (w.next_order_id + 1) as u64, ..w };
    let mode = mode_of(o.execution_option);
    let key = key_of(o);
    let c = crossed(numbered, a.taker, o.price, o.quantity, mode, now);
    lemma_candidates_same(w, numbered, key, now);
    lemma_crossed_keeps(numbered, a.taker, o.price, o.quantity, mode, now);
    lemma_swept_entries(w.books, candidates(w, key, now), o.side, o.price, o.quantity);
    assert(takes_distinct(c.takes));
    lemma_traced_tells_nothing(numbered, a.taker, c.takes, now);
    assert(c.world.outbox.orders == w.outbox.orders);
    assert forall|id: u64| #[trigger] c.world.owners.contains_key(id) implies on_pool(
        c.world,
        c.world.owners[id],
        id,
    ) by {
        assert(w.owners.contains_key(id));
        assert(on_pool(w, w.owners[id], id));
    }
    lemma_owners_known_of(c.world);
    lemma_recorded_told(c.world, a.taker, pool, c.takes, now);
    lemma_recorded_details(c.world, a.taker, pool, c.takes, now);
    let n = w.outbox.orders.len() as int;
    let all = a.world.outbox.orders;
    assert forall|i: int|
        0 <= i < a.takes.len() && w.owners.contains_key(
            (#[trigger] a.takes[i]).entry.id,
        ) implies detail_at(a.world, w.owners[a.takes[i].entry.id], a.takes[i].entry.id)
        == maker_filled(
        detail_at(c.world, w.owners[a.takes[i].entry.id], a.takes[i].entry.id),
        a.takes[i].quantity,
        now,
    ) by {
        assert(c.world.owners.contains_key(a.takes[i].entry.id));
    }
    assert forall|j: int| n <= j < all.len() implies about_one_of(
        w,
        a.world,
        a.takes,
        #[trigger] all[j],
    ) by {
        assert(about_one(c.world, c.takes, now, all[j]));
        let i = choose|i: int|
            0 <= i < c.takes.len() && c.world.owners.contains_key((#[trigger] c.takes[i]).entry.id)
                && all[j] == (
                c.world.owners[c.takes[i].entry.id],
                maker_filled(
                    detail_at(c.world, c.world.owners[c.takes[i].entry.id], c.takes[i].entry.id),
                    c.takes[i].quantity,
                    now,
                ),
            );
        assert(w.owners.contains_key(a.takes[i].entry.id));
    }
}

proof fn lemma_traced_tells_nothing(w: WorldV, taker: Taker, takes: Seq<Take>, now: Timestamp)
    ensures
        takes_traced(w, taker, takes, now).outbox.orders == w.outbox.orders,
    decreases takes.len(),
{
    if takes.len() > 0 {
        lemma_traced_tells_nothing(w, taker, takes.drop_last(), now);
    }
}

/// A gridpool that cancels an order is told so, once, and the book stream
/// shows the order leaving: on its contract and side, at its price, with
/// nothing open.
pub proof fn cancels_are_told_and_shown(
    w: WorldV,
    pool: u64,
    id: u64,
    actor: MarketActor,
    now: Timestamp,
)
    requires
        in_order(w),
        cancel_objection(w, pool, id) is None,
    ensures
        ({
            let after = order_canceled(w, pool, id, actor, now);
            let was = detail_at(w, pool, id);
            let o = was.order;
            &&& after.outbox.orders == w.outbox.orders.push((pool, detail_at(after, pool, id)))
            &&& detail_at(after, pool, id).state.state == OrderState::Canceled
            &&& detail_at(after, pool, id).state.reason == StateReason::Delete
            &&& detail_at(after, pool, id).state.actor == actor
            &&& detail_at(after, pool, id).open_quantity == was.open_quantity
            &&& detail_at(after, pool, id).filled_quantity == was.filled_quantity
            &&& detail_at(after, pool, id).order == o
            &&& o.side != Side::Unspecified ==> after.outbox.book_records
                == w.outbox.book_records.push(
                shown(
                    id,
                    KeyV { area: o.area, period: o.period },
                    side_shown(o.side),
                    o.price,
                    o.currency,
                    0,
                    known_since(w, id, now),
                    now,
                ),
            )
            &&& !after.first_seen.contains_key(id)
            &&& after.outbox.trades == w.outbox.trades
            &&& after.outbox.public_trades == w.outbox.public_trades
        }),
{
    let d = detail_at(w, pool, id);
    let key = key_of(d.order);
    canceled_orders_are_off_the_books(w, pool, id, actor, now);
    assert(on_pool(w, pool, id));
    assert(bound_to(w, id, pool));
    assert(in_place(w, pool, id));
    let q = queue_of(book_at(w.books, key), d.order.side);
    let e = EntryV { id, price: d.order.price, open: d.open_quantity };
    assert(q.contains(e));
    lemma_contains_has_id(q, e);
    lemma_side_rests(book_at(w.books, key), d.order.side, id);
    assert(holds(w.books, key));
    lemma_book_with(w.books, id, 0);
    let i = slot(w.books, key);
    assert(rests(w.books[i].1, id));
    let at = book_with(w.books, id, 0);
    assert(at is Some);
    let j = at->0;
    assert(rests(book_at(w.books, w.books[j].0), id)) by {
        lemma_slot(w.books, w.books[j].0, j);
    }
    assert(w.books[j].0 == key);
    lemma_slot(w.books, key, j);
    assert(book_wf(w.books[j].1));
    lemma_entry_found(w.books[j].1, d.order.side, e);
}

/// Where an order stands on a book.
proof fn lemma_entry_found(b: BookV, side: Side, e: EntryV)
    requires
        book_wf(b),
        side == Side::Buy || side == Side::Sell,
        queue_of(b, side).contains(e),
    ensures
        side_of(b, e.id) == side,
        entry_of(b, e.id) == e,
{
    let q = queue_of(b, side);
    lemma_queue_distinct(b, side);
    lemma_contains_has_id(q, e);
    let i = choose|i: int| 0 <= i < q.len() && q[i] == e;
    let p = place_of(q, e.id);
    assert(q[p].id == e.id);
}

/// A change of a resting order goes onto the book stream as one record: the
/// order with its side and contract, at its price, with what is open, since
/// when the stream knows it, and as of now. The stream knows it from then on,
/// and forgets it once nothing of it is open. Nothing else changes.
pub proof fn changes_are_put_on_the_stream(w: WorldV, e: BookEvent, now: Timestamp)
    requires
        w.book_history.len() <= 10_000,
    ensures
        ({
            let after = emitted(w, e, now);
            let record = shown(
                e.id,
                e.key,
                side_shown(e.side),
                e.price,
                e.currency,
                e.open,
                known_since(w, e.id, now),
                now,
            );
            &&& after.outbox.book_records == w.outbox.book_records.push(record)
            &&& after.book_history == latest(w.book_history.push(record), 10_000)
            &&& e.open == 0 ==> after.first_seen == w.first_seen.remove(e.id)
            &&& e.open != 0 ==> after.first_seen == w.first_seen.insert(
                e.id,
                known_since(w, e.id, now),
            )
            &&& after.outbox.orders == w.outbox.orders
            &&& after.outbox.trades == w.outbox.trades
            &&& after.outbox.public_trades == w.outbox.public_trades
            &&& after.books == w.books
            &&& after.gridpools == w.gridpools
            &&& after.owners == w.owners
            &&& after.flows == w.flows
            &&& after.trade_history == w.trade_history
        }),
{
    lemma_latest(w.book_history, book_record(e, known_since(w, e.id, now), now));
}

proof fn lemma_recorded_history(
    w: WorldV,
    taker: Taker,
    pool: Option<u64>,
    takes: Seq<Take>,
    now: Timestamp,
)
    requires
        w.trade_history.len() <= 10_000,
    ensures
        ({
            let after = takes_recorded(w, taker, pool, takes, now);
            let n = w.outbox.public_trades.len() as int;
            &&& after.outbox.public_trades.len() == n + takes.len()
            &&& after.outbox.public_trades.take(n) == w.outbox.public_trades
            &&& after.trade_history == latest(
                w.trade_history + after.outbox.public_trades.skip(n),
                10_000,
            )
        }),
    decreases takes.len(),
{
    let after = takes_recorded(w, taker, pool, takes, now);
    let n = w.outbox.public_trades.len() as int;
    let all = after.outbox.public_trades;
    if takes.len() == 0 {
        assert(all.take(n) =~= w.outbox.public_trades);
        assert(w.trade_history + all.skip(n) =~= w.trade_history);
    } else {
        let mid = takes_recorded(w, taker, pool, takes.drop_last(), now);
        lemma_recorded_history(w, taker, pool, takes.drop_last(), now);
        let before = mid.outbox.public_trades;
        let last = all.last();
        assert(all.drop_last() =~= before);
        assert(all.take(n) =~= before.take(n));
        lemma_latest(w.trade_history + before.skip(n), last);
        assert((w.trade_history + before.skip(n)).push(last) =~= w.trade_history + all.skip(n));
    }
}

proof fn lemma_traced_history(w: WorldV, taker: Taker, takes: Seq<Take>, now: Timestamp)
    ensures
        takes_traced(w, taker, takes, now).trade_history == w.trade_history,
        takes_traced(w, taker, takes, now).outbox.public_trades == w.outbox.public_trades,
    decreases takes.len(),
{
    if takes.len() > 0 {
        lemma_traced_history(w, taker, takes.drop_last(), now);
    }
}

/// The history of prints ends with whatever an order traded, in order, and
/// holds the latest ten thousand.
pub proof fn the_history_ends_with_the_latest_prints(
    w: WorldV,
    o: OrderV,
    pool: Option<u64>,
    now: Timestamp,
)
    requires
        w.trade_history.len() <= 10_000,
    ensures
        ({
            let a = admitted(w, o, pool, now);
            let n = w.outbox.public_trades.len() as int;
            let tape = a.world.outbox.public_trades;
            &&& tape.len() == n + a.takes.len()
            &&& tape.take(n) == w.outbox.public_trades
            &&& a.world.trade_history == latest(w.trade_history + tape.skip(n), 10_000)
        }),
{
    let a = admitted(w, o, pool, now);
    let numbered = WorldV { next_order_id: (w.next_order_id + 1) as u64, ..w };
    let c = crossed(numbered, a.taker, o.price, o.quantity, mode_of(o.execution_option), now);
    lemma_traced_history(numbered, a.taker, c.takes, now);
    assert(c.world.trade_history == w.trade_history);
    assert(c.world.outbox.public_trades == w.outbox.public_trades);
    lemma_recorded_history(c.world, a.taker, pool, c.takes, now);
}

} // verus!
