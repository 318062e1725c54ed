//! The books and the orders of the gridpools agree.

use crate::book::{
    book_wf, cancel_touches_one_order, canceled, front_taken, has_id, ids_distinct, inserted,
    lemma_canceled_wf, lemma_inserted_wf, lemma_rank_bounds, lemma_resized_wf, lesser, place_of,
    queue_of, rank, resized, rests, side_of, with_queue, without, BookV, EntryV,
};
use crate::expiring::{
    all_on_pools, gated_books_hold_no_counterparty, lemma_all_expired, lemma_books_swept,
    lemma_entries_swept, lemma_expiries_lapsed, lemma_one_expired, nothing_lapsed_stays_open,
};
use crate::gridpool::SelfTradePolicy;
use crate::ledger::{
    lemma_book_at_wf, lemma_detail_id, lemma_fill_keeps, lemma_put, lemma_stored_books_wf,
    lemma_stored_same, lemma_traced_keeps,
};
use crate::lifecycle::{
    accounted, adds_up, lemma_book_with, lemma_crossed_keeps, lemma_put_accounted,
    lemma_recorded_accounted, lemma_recorded_keeps, lemma_same_pools_accounted,
    lemma_takes_positive,
};
use crate::matching::{all_open, filled, fills_of, matched, sweep, ExecMode};
use crate::model::{
    admitted, all_expired, best_offer, book_at, book_with, books_swept, books_taken, books_wf,
    books_without, bound_to, cancel_objection, candidates, counterparty_canceled, crossed,
    detail_at, detail_canceled, detail_expired, detail_put, detail_updated, entries_of,
    entries_swept, expired, expiries, fill_of, fills_recorded, fills_traced, fresh_detail,
    keeps_priority, key_of, maker_filled, mode_of, modified, modify_objection, modify_rejection,
    offers, on_pool, one_expired, opposite, order_canceled, owners_known, reachable_across,
    rematch_of, rematched, resting_count, rests_at_home, reworked, stays_put, submitted, swept,
    take_total, taker_filled, takes_from_pool, takes_recorded, update_applied, updated_in_place,
    updated_total, world_wf, Expiry, KeyV, Take, Taker, UpdateV, WorldV,
};
use crate::order::{other_side, terminal, DetailV, MarketActor, OrderV, Side};
use crate::sweeping::{books_open, fill_or_kill_across, lemma_swept, lemma_taken};
use crate::table::{distinct, holds, lemma_slot, lemma_stored, slot, stored, value_at};
use crate::time::Timestamp;
use crate::upkeep::{
    lemma_cancel_thins, lemma_counterparty_cancel_thins, lemma_expiry_thins, lemma_reworked_open,
    lemma_thinned,
};
use crate::volume::{
    lemma_best_offer_valid, lemma_filled_is_take_total, lemma_swept_nothing, lemma_swept_step,
};
use vstd::prelude::*;

verus! {

/// The order is on its contract's book, on its side, as its detail says.
pub open spec fn in_place(w: WorldV, pool: u64, id: u64) -> bool {
    let d = detail_at(w, pool, id);
    queue_of(book_at(w.books, key_of(d.order)), d.order.side).contains(
        EntryV { id, price: d.order.price, open: d.open_quantity },
    )
}

/// No id rests on two books.
pub open spec fn ids_unique(books: Seq<(KeyV, BookV)>) -> bool {
    forall|a: KeyV, b: KeyV, id: u64|
        #![trigger rests(book_at(books, a), id), rests(book_at(books, b), id)]
        rests(book_at(books, a), id) && rests(book_at(books, b), id) ==> a == b
}

/// Every id that rests on a book was handed out before.
pub open spec fn ids_known(books: Seq<(KeyV, BookV)>, next: u64) -> bool {
    forall|k: KeyV, id: u64| #[trigger] rests(book_at(books, k), id) ==> id < next
}

/// The books and the orders agree, but for the one order that is left aside.
pub open spec fn linked_but(w: WorldV, aside: Option<(u64, u64)>) -> bool {
    &&& forall|id: u64| #[trigger]
        w.owners.contains_key(id) ==> on_pool(w, w.owners[id], id) && !terminal(
            detail_at(w, w.owners[id], id).state.state,
        ) && in_place(w, w.owners[id], id)
    &&& forall|p: u64, id: u64| #[trigger]
        on_pool(w, p, id) ==> id < w.next_order_id && (aside != Some((p, id)) && !terminal(
            detail_at(w, p, id).state.state,
        ) ==> bound_to(w, id, p))
    &&& ids_unique(w.books)
    &&& ids_known(w.books, w.next_order_id)
}

/// The books and the orders agree: an order that is bound to a gridpool is
/// an open order of that gridpool and stands on its contract's book, at its
/// price, with what it has open; every open order of a gridpool is so bound;
/// and no id is used twice.
pub open spec fn linked(w: WorldV) -> bool {
    linked_but(w, None)
}

/// The exchange is in order: well formed, nothing empty rests, and the books
/// and the gridpools' orders agree.
pub open spec fn in_order(w: WorldV) -> bool {
    world_wf(w) && books_open(w.books) && linked(w)
}

/// One of the takes is from the order with this id.
pub open spec fn touches(takes: Seq<Take>, id: u64) -> bool {
    exists|i: int| 0 <= i < takes.len() && (#[trigger] takes[i]).entry.id == id
}

/// No two takes are from the same order.
pub open spec fn takes_distinct(takes: Seq<Take>) -> bool {
    forall|i: int, j: int|
        0 <= i < j < takes.len() ==> (#[trigger] takes[i]).entry.id != (#[trigger] takes[j]).entry.id
}

/// What one take does to the entries.
proof fn lemma_front_entries(q: Seq<EntryV>, qty: int)
    requires
        q.len() > 0,
        ids_distinct(q),
        all_open(q),
        qty > 0,
    ensures
        ({
            let after = front_taken(q, qty);
            let e = q[0];
            let t = lesser(qty, e.open);
            &&& forall|x: EntryV|
                x.id != e.id ==> (#[trigger] after.contains(x) <==> q.contains(x))
            &&& t == e.open ==> !has_id(after, e.id)
            &&& t != e.open ==> after.contains(EntryV { open: e.open - t, ..e })
            &&& forall|id: u64| #[trigger] has_id(after, id) ==> has_id(q, id)
        }),
{
    let after = front_taken(q, qty);
    let e = q[0];
    let t = lesser(qty, e.open);
    assert(q[0].open > 0);
    if t == e.open {
        assert forall|i: int| 0 <= i < after.len() implies #[trigger] after[i] == q[i + 1] by {}
        if has_id(after, e.id) {
            let i = place_of(after, e.id);
            assert(q[0].id != q[i + 1].id);
        }
        assert forall|x: EntryV| x.id != e.id implies (#[trigger] after.contains(x)
            <==> q.contains(x)) by {
            if q.contains(x) {
                let i = choose|i: int| 0 <= i < q.len() && q[i] == x;
                assert(after[i - 1] == x);
            }
            if after.contains(x) {
                let i = choose|i: int| 0 <= i < after.len() && after[i] == x;
                assert(q[i + 1] == x);
            }
        }
        assert forall|id: u64| #[trigger] has_id(after, id) implies has_id(q, id) by {
            let i = place_of(after, id);
            assert(q[i + 1].id == id);
        }
    } else {
        assert(after[0] == EntryV { open: e.open - t, ..e });
        assert forall|x: EntryV| x.id != e.id implies (#[trigger] after.contains(x)
            <==> q.contains(x)) by {
            if q.contains(x) {
                let i = choose|i: int| 0 <= i < q.len() && q[i] == x;
                assert(after[i] == x);
            }
            if after.contains(x) {
                let i = choose|i: int| 0 <= i < after.len() && after[i] == x;
                assert(q[i] == x);
            }
        }
        assert forall|id: u64| #[trigger] has_id(after, id) implies has_id(q, id) by {
            let i = place_of(after, id);
            assert(q[i].id == id);
        }
    }
}

/// What a sweep does to the entries: it takes from orders on the far side,
/// from each at most once; one it takes whole is gone, one it takes part of
/// stays with the rest; all others stay as they are.
pub open spec fn sweep_entries(
    books: Seq<(KeyV, BookV)>,
    after: Seq<(KeyV, BookV)>,
    takes: Seq<Take>,
    side: Side,
) -> bool {
    &&& takes_distinct(takes)
    &&& forall|i: int|
        0 <= i < takes.len() ==> opposite(books, (#[trigger] takes[i]).key, side).contains(
            takes[i].entry,
        )
    &&& forall|i: int|
        0 <= i < takes.len() && (#[trigger] takes[i]).quantity == takes[i].entry.open ==> !rests(
            book_at(after, takes[i].key),
            takes[i].entry.id,
        )
    &&& forall|i: int|
        0 <= i < takes.len() && (#[trigger] takes[i]).quantity != takes[i].entry.open ==> opposite(
            after,
            takes[i].key,
            side,
        ).contains(EntryV { open: takes[i].entry.open - takes[i].quantity, ..takes[i].entry })
    &&& forall|k: KeyV, id: u64| #[trigger]
        rests(book_at(after, k), id) ==> rests(book_at(books, k), id)
    &&& forall|k: KeyV, x: EntryV|
        opposite(books, k, side).contains(x) && !touches(takes, x.id) ==> #[trigger] opposite(
            after,
            k,
            side,
        ).contains(x)
    &&& forall|k: KeyV|
        queue_of(#[trigger] book_at(after, k), side) == queue_of(book_at(books, k), side)
}

pub proof fn lemma_contains_has_id(q: Seq<EntryV>, e: EntryV)
    requires
        q.contains(e),
    ensures
        has_id(q, e.id),
{
    let i = choose|i: int| 0 <= i < q.len() && q[i] == e;
    assert(q[i].id == e.id);
}

/// One take, seen as a sweep of one.
pub proof fn lemma_take_entries(
    books: Seq<(KeyV, BookV)>,
    key: KeyV,
    side: Side,
    limit: int,
    qty: int,
)
    requires
        books_wf(books),
        books_open(books),
        ids_unique(books),
        offers(books, key, side, limit),
        qty > 0,
    ensures
        ({
            let e = opposite(books, key, side)[0];
            let after = books_taken(books, key, side, qty);
            let take = Take { key, entry: e, quantity: lesser(qty, e.open) };
            &&& sweep_entries(books, after, seq![take], side)
            &&& ids_unique(after)
            &&& take.quantity == e.open ==> forall|k: KeyV| !rests(#[trigger] book_at(after, k), e.id)
        }),
{
    let far = other_side(side);
    let q = opposite(books, key, side);
    let e = q[0];
    let t = lesser(qty, e.open);
    let take = Take { key, entry: e, quantity: t };
    let takes = seq![take];
    let after = books_taken(books, key, side, qty);
    lemma_taken(books, key, side, limit, qty);
    lemma_book_at_wf(books, key);
    let s = slot(books, key);
    assert(all_open(books[s].1.bids) && all_open(books[s].1.asks));
    assert(ids_distinct(q) && all_open(q));
    lemma_front_entries(q, qty);
    assert(q.contains(e)) by {
        assert(q[0] == e);
    }
    lemma_contains_has_id(q, e);
    assert forall|k: KeyV, id: u64| #[trigger] rests(book_at(after, k), id) implies rests(
        book_at(books, k),
        id,
    ) by {
        if k == key {
            assert(queue_of(book_at(after, k), side) == queue_of(book_at(books, k), side));
            assert(opposite(after, key, side) == front_taken(q, qty));
        } else {
            assert(book_at(after, k) == book_at(books, k));
        }
    }
    assert forall|k: KeyV, x: EntryV|
        opposite(books, k, side).contains(x) && !touches(takes, x.id) implies #[trigger] opposite(
        after,
        k,
        side,
    ).contains(x) by {
        assert(takes[0].entry.id == e.id);
        assert(x.id != e.id);
        if k != key {
            assert(book_at(after, k) == book_at(books, k));
        }
    }
    if t == e.open {
        assert forall|k: KeyV| !rests(#[trigger] book_at(after, k), e.id) by {
            if k == key {
                assert(queue_of(book_at(after, k), side) == queue_of(book_at(books, k), side));
                lemma_not_on_both_sides(book_at(books, key), far, e.id);
                assert(opposite(after, key, side) == front_taken(q, qty));
            } else {
                assert(book_at(after, k) == book_at(books, k));
                if rests(book_at(books, k), e.id) {
                    assert(rests(book_at(books, key), e.id));
                }
            }
        }
        assert(!rests(book_at(after, takes[0].key), takes[0].entry.id));
    }
}

/// An id on one side of a book is not on the other.
proof fn lemma_not_on_both_sides(b: BookV, side: Side, id: u64)
    requires
        book_wf(b),
        has_id(queue_of(b, side), id),
    ensures
        !has_id(queue_of(b, other_side(side)), id),
        rests(b, id),
{
    let i = place_of(queue_of(b, side), id);
    if has_id(queue_of(b, other_side(side)), id) {
        let j = place_of(queue_of(b, other_side(side)), id);
        if side == Side::Buy {
            assert(b.bids[i].id != b.asks[j].id);
        } else {
            assert(b.bids[j].id != b.asks[i].id);
        }
    }
}

/// What a sweep does to the entries.
pub proof fn lemma_swept_entries(
    books: Seq<(KeyV, BookV)>,
    keys: Seq<KeyV>,
    side: Side,
    limit: int,
    qty: int,
)
    requires
        books_wf(books),
        books_open(books),
        ids_unique(books),
        qty >= 0,
    ensures
        sweep_entries(
            books,
            swept(books, keys, side, limit, qty).books,
            swept(books, keys, side, limit, qty).takes,
            side,
        ),
        ids_unique(swept(books, keys, side, limit, qty).books),
    decreases resting_count(books, other_side(side)), qty,
{
    let s = swept(books, keys, side, limit, qty);
    lemma_best_offer_valid(books, keys, side, limit);
    if qty > 0 && best_offer(books, keys, side, limit) is Some {
        let at = best_offer(books, keys, side, limit)->0;
        let key = keys[at];
        let q = opposite(books, key, side);
        let e = q[0];
        let t = lesser(qty, e.open);
        let take = Take { key, entry: e, quantity: t };
        let after = books_taken(books, key, side, qty);
        lemma_taken(books, key, side, limit, qty);
        lemma_take_entries(books, key, side, limit, qty);
        lemma_swept_step(books, keys, side, limit, qty);
        lemma_swept_entries(after, keys, side, limit, qty - t);
        let next = swept(after, keys, side, limit, qty - t);
        let one = seq![take];
        assert(one[0] == take);
        assert forall|j: int| 0 <= j < next.takes.len() implies (#[trigger]
        next.takes[j]).entry.id != e.id by {
            if t == e.open {
                let k = next.takes[j].key;
                lemma_contains_has_id(opposite(after, k, side), next.takes[j].entry);
                lemma_side_rests(book_at(after, k), other_side(side), next.takes[j].entry.id);
                assert(rests(book_at(after, k), next.takes[j].entry.id));
                assert(!rests(book_at(after, k), e.id));
            } else {
                lemma_swept_nothing(after, keys, side, limit);
            }
        }
        assert forall|i: int, j: int| 0 <= i < j < s.takes.len() implies (#[trigger]
        s.takes[i]).entry.id != (#[trigger] s.takes[j]).entry.id by {
            assert(s.takes[j] == next.takes[j - 1]);
            if i > 0 {
                assert(s.takes[i] == next.takes[i - 1]);
            }
        }
        assert forall|i: int| 0 <= i < s.takes.len() implies opposite(
            books,
            (#[trigger] s.takes[i]).key,
            side,
        ).contains(s.takes[i].entry) by {
            if i > 0 {
                let x = next.takes[i - 1];
                assert(s.takes[i] == x);
                assert(x.entry.id != e.id);
                lemma_taken_contains(books, key, side, limit, qty, x.key, x.entry);
            } else {
                assert(opposite(books, one[0].key, side).contains(one[0].entry));
            }
        }
        assert forall|k: KeyV, id: u64| #[trigger] rests(book_at(s.books, k), id) implies rests(
            book_at(books, k),
            id,
        ) by {
            assert(rests(book_at(after, k), id));
        }
        assert forall|i: int|
            0 <= i < s.takes.len() && (#[trigger] s.takes[i]).quantity
                == s.takes[i].entry.open implies !rests(
            book_at(s.books, s.takes[i].key),
            s.takes[i].entry.id,
        ) by {
            if i > 0 {
                assert(s.takes[i] == next.takes[i - 1]);
            } else {
                assert(!rests(book_at(after, key), e.id));
            }
        }
        assert forall|i: int|
            0 <= i < s.takes.len() && (#[trigger] s.takes[i]).quantity
                != s.takes[i].entry.open implies opposite(
            s.books,
            s.takes[i].key,
            side,
        ).contains(
            EntryV { open: s.takes[i].entry.open - s.takes[i].quantity, ..s.takes[i].entry },
        ) by {
            if i > 0 {
                assert(s.takes[i] == next.takes[i - 1]);
            } else {
                assert(one[0].quantity != one[0].entry.open);
                lemma_swept_nothing(after, keys, side, limit);
            }
        }
        assert forall|k: KeyV, x: EntryV|
            opposite(books, k, side).contains(x) && !touches(s.takes, x.id) implies #[trigger] opposite(
            s.books,
            k,
            side,
        ).contains(x) by {
            assert(s.takes[0] == take);
            assert(!touches(one, x.id));
            assert(opposite(after, k, side).contains(x));
            if touches(next.takes, x.id) {
                let j = choose|j: int|
                    0 <= j < next.takes.len() && (#[trigger] next.takes[j]).entry.id == x.id;
                assert(s.takes[j + 1] == next.takes[j]);
            }
        }
        assert forall|k: KeyV|
            queue_of(#[trigger] book_at(s.books, k), side) == queue_of(
                book_at(books, k),
                side,
            ) by {
            assert(queue_of(book_at(after, k), side) == queue_of(book_at(books, k), side));
        }
    } else {
        assert(s.takes.len() == 0);
    }
}

pub proof fn lemma_side_rests(b: BookV, side: Side, id: u64)
    requires
        has_id(queue_of(b, side), id),
    ensures
        rests(b, id),
{
    let i = place_of(queue_of(b, side), id);
    assert(queue_of(b, side)[i].id == id);
}

/// What is on the far side after a take, but for the order taken from, was
/// there before.
proof fn lemma_taken_contains(
    books: Seq<(KeyV, BookV)>,
    key: KeyV,
    side: Side,
    limit: int,
    qty: int,
    k: KeyV,
    x: EntryV,
)
    requires
        books_wf(books),
        books_open(books),
        offers(books, key, side, limit),
        qty > 0,
        x.id != opposite(books, key, side)[0].id,
        opposite(books_taken(books, key, side, qty), k, side).contains(x),
    ensures
        opposite(books, k, side).contains(x),
{
    lemma_taken(books, key, side, limit, qty);
    let after = books_taken(books, key, side, qty);
    if k == key {
        lemma_book_at_wf(books, key);
        let s = slot(books, key);
        assert(all_open(books[s].1.bids) && all_open(books[s].1.asks));
        lemma_front_entries(opposite(books, key, side), qty);
    } else {
        assert(book_at(after, k) == book_at(books, k));
    }
}

/// What recording takes from different orders does to the orders of the
/// gridpools.
pub open spec fn recorded_details(w: WorldV, after: WorldV, takes: Seq<Take>, now: Timestamp) -> bool {
    &&& forall|p: u64, id: u64|
        on_pool(w, p, id) && (!touches(takes, id) || !bound_to(w, id, p)) ==> #[trigger] detail_at(
            after,
            p,
            id,
        ) == detail_at(w, p, id)
    &&& forall|p: u64, i: int|
        #![trigger detail_at(after, p, takes[i].entry.id)]
        0 <= i < takes.len() && on_pool(w, p, takes[i].entry.id) && bound_to(
            w,
            takes[i].entry.id,
            p,
        ) ==> detail_at(after, p, takes[i].entry.id) == maker_filled(
            detail_at(w, p, takes[i].entry.id),
            takes[i].quantity,
            now,
        )
    &&& forall|id: u64| #[trigger]
        after.owners.contains_key(id) ==> w.owners.contains_key(id) && after.owners[id]
            == w.owners[id]
    &&& forall|id: u64|
        w.owners.contains_key(id) && !touches(takes, id) ==> #[trigger] after.owners.contains_key(
            id,
        )
    &&& forall|i: int|
        0 <= i < takes.len() && w.owners.contains_key((#[trigger] takes[i]).entry.id) && on_pool(
            w,
            w.owners[takes[i].entry.id],
            takes[i].entry.id,
        ) ==> (after.owners.contains_key(takes[i].entry.id) <==> detail_at(
            w,
            w.owners[takes[i].entry.id],
            takes[i].entry.id,
        ).open_quantity != takes[i].quantity)
}

pub proof fn lemma_recorded_details(
    w: WorldV,
    taker: Taker,
    pool: Option<u64>,
    takes: Seq<Take>,
    now: Timestamp,
)
    requires
        world_wf(w),
        owners_known(w),
        pool matches Some(p) ==> holds(w.gridpools, p),
        takes_distinct(takes),
    ensures
        recorded_details(w, takes_recorded(w, taker, pool, takes, now), takes, now),
    decreases takes.len(),
{
    if takes.len() > 0 {
        let some = takes.drop_last();
        let t = takes.last();
        let before = takes_recorded(w, taker, pool, some, now);
        let after = takes_recorded(w, taker, pool, takes, now);
        let n = takes.len() - 1;
        assert forall|i: int, j: int| 0 <= i < j < some.len() implies (#[trigger]
        some[i]).entry.id != (#[trigger] some[j]).entry.id by {
            assert(takes[i].entry.id != takes[j].entry.id);
        }
        lemma_recorded_details(w, taker, pool, some, now);
        lemma_recorded_keeps(w, taker, pool, some, now);
        lemma_fill_keeps(before, fill_of(taker.id, t), t.key.area, taker, pool, now);
        assert forall|i: int| 0 <= i < n implies (#[trigger] some[i]).entry.id != t.entry.id
            && some[i] == takes[i] by {
            assert(takes[i].entry.id != takes[n].entry.id);
        }
        assert(!touches(some, t.entry.id));
        assert(touches(takes, t.entry.id)) by {
            assert(takes[n].entry.id == t.entry.id);
        }
        assert forall|id: u64| touches(some, id) implies touches(takes, id) by {
            let i = choose|i: int| 0 <= i < some.len() && (#[trigger] some[i]).entry.id == id;
            assert(takes[i].entry.id == id);
        }
        assert forall|p: u64, id: u64|
            on_pool(w, p, id) && (!touches(takes, id) || !bound_to(w, id, p)) implies #[trigger] detail_at(
            after,
            p,
            id,
        ) == detail_at(w, p, id) by {
            assert(on_pool(before, p, id));
            assert(detail_at(before, p, id) == detail_at(w, p, id));
        }
        assert forall|p: u64, i: int|
            #![trigger detail_at(after, p, takes[i].entry.id)]
            0 <= i < takes.len() && on_pool(w, p, takes[i].entry.id) && bound_to(
                w,
                takes[i].entry.id,
                p,
            ) implies detail_at(after, p, takes[i].entry.id) == maker_filled(
            detail_at(w, p, takes[i].entry.id),
            takes[i].quantity,
            now,
        ) by {
            let id = takes[i].entry.id;
            assert(on_pool(before, p, id));
            if i < n {
                assert(some[i].entry.id == id);
                assert(detail_at(before, p, some[i].entry.id) == maker_filled(
                    detail_at(w, p, id),
                    some[i].quantity,
                    now,
                ));
            } else {
                assert(detail_at(before, p, id) == detail_at(w, p, id));
                assert(before.owners.contains_key(id));
                assert(bound_to(before, id, p));
            }
        }
        assert forall|id: u64| #[trigger] after.owners.contains_key(id) implies w.owners.contains_key(
            id,
        ) && after.owners[id] == w.owners[id] by {
            assert(before.owners.contains_key(id));
        }
        assert forall|id: u64|
            w.owners.contains_key(id) && !touches(takes, id) implies #[trigger] after.owners.contains_key(
            id,
        ) by {
            assert(before.owners.contains_key(id));
            assert(id != t.entry.id);
        }
        assert forall|i: int|
            0 <= i < takes.len() && w.owners.contains_key((#[trigger] takes[i]).entry.id)
                && on_pool(w, w.owners[takes[i].entry.id], takes[i].entry.id) implies (
        after.owners.contains_key(takes[i].entry.id) <==> detail_at(
            w,
            w.owners[takes[i].entry.id],
            takes[i].entry.id,
        ).open_quantity != takes[i].quantity) by {
            let id = takes[i].entry.id;
            if i < n {
                assert(some[i].entry.id == id);
                assert(id != t.entry.id);
            } else {
                assert(before.owners.contains_key(id));
                assert(on_pool(before, w.owners[id], id));
                assert(detail_at(before, w.owners[id], id) == detail_at(w, w.owners[id], id));
            }
        }
    }
}

/// In a queue an id tells which entry it is.
proof fn lemma_same_entry(q: Seq<EntryV>, a: EntryV, b: EntryV)
    requires
        ids_distinct(q),
        q.contains(a),
        q.contains(b),
        a.id == b.id,
    ensures
        a == b,
{
    let i = choose|i: int| 0 <= i < q.len() && q[i] == a;
    let j = choose|j: int| 0 <= j < q.len() && q[j] == b;
    if i < j {
        assert(q[i].id != q[j].id);
    } else if j < i {
        assert(q[j].id != q[i].id);
    }
}

pub proof fn lemma_queue_distinct(b: BookV, side: Side)
    requires
        book_wf(b),
    ensures
        ids_distinct(queue_of(b, side)),
{
}

/// The take of a bound order is from that order's entry.
pub proof fn lemma_take_of_bound(w: WorldV, aside: Option<(u64, u64)>, take: Take, side: Side)
    requires
        world_wf(w),
        linked_but(w, aside),
        w.owners.contains_key(take.entry.id),
        opposite(w.books, take.key, side).contains(take.entry),
    ensures
        ({
            let id = take.entry.id;
            let d = detail_at(w, w.owners[id], id);
            &&& key_of(d.order) == take.key
            &&& d.order.side == other_side(side)
            &&& take.entry == EntryV { id, price: d.order.price, open: d.open_quantity }
        }),
{
    let id = take.entry.id;
    let pool = w.owners[id];
    let d = detail_at(w, pool, id);
    let home = key_of(d.order);
    let x = EntryV { id, price: d.order.price, open: d.open_quantity };
    assert(in_place(w, pool, id));
    lemma_contains_has_id(queue_of(book_at(w.books, home), d.order.side), x);
    lemma_side_rests(book_at(w.books, home), d.order.side, id);
    lemma_contains_has_id(opposite(w.books, take.key, side), take.entry);
    lemma_side_rests(book_at(w.books, take.key), other_side(side), id);
    assert(rests(book_at(w.books, home), id) && rests(book_at(w.books, take.key), id));
    let b = book_at(w.books, home);
    lemma_book_at_wf(w.books, home);
    lemma_not_on_both_sides(b, d.order.side, id);
    lemma_not_on_both_sides(b, other_side(side), id);
    assert(d.order.side == other_side(side));
    lemma_queue_distinct(b, d.order.side);
    lemma_same_entry(queue_of(b, d.order.side), x, take.entry);
}

/// Sweeping the books and recording the takes keeps books and orders in
/// agreement.
proof fn lemma_links_after_sweep(
    w: WorldV,
    r: WorldV,
    aside: Option<(u64, u64)>,
    takes: Seq<Take>,
    side: Side,
    now: Timestamp,
)
    requires
        world_wf(w),
        linked_but(w, aside),
        side != Side::Unspecified,
        sweep_entries(w.books, r.books, takes, side),
        ids_unique(r.books),
        recorded_details(w, r, takes, now),
        r.next_order_id == w.next_order_id,
        forall|p: u64, id: u64| #[trigger] on_pool(r, p, id) <==> on_pool(w, p, id),
    ensures
        linked_but(r, aside),
{
    assert forall|id: u64| #[trigger] r.owners.contains_key(id) implies on_pool(
        r,
        r.owners[id],
        id,
    ) && !terminal(detail_at(r, r.owners[id], id).state.state) && in_place(
        r,
        r.owners[id],
        id,
    ) by {
        assert(w.owners.contains_key(id));
        let pool = w.owners[id];
        assert(on_pool(w, pool, id) && in_place(w, pool, id));
        assert(on_pool(r, pool, id));
        let d = detail_at(w, pool, id);
        let home = key_of(d.order);
        let x = EntryV { id, price: d.order.price, open: d.open_quantity };
        if touches(takes, id) {
            let i = choose|i: int| 0 <= i < takes.len() && (#[trigger] takes[i]).entry.id == id;
            assert(opposite(w.books, takes[i].key, side).contains(takes[i].entry));
            lemma_take_of_bound(w, aside, takes[i], side);
            assert(detail_at(r, pool, takes[i].entry.id) == maker_filled(
                d,
                takes[i].quantity,
                now,
            ));
            assert(r.owners.contains_key(takes[i].entry.id));
            assert(takes[i].quantity != takes[i].entry.open);
            assert(opposite(r.books, takes[i].key, side).contains(
                EntryV { open: takes[i].entry.open - takes[i].quantity, ..takes[i].entry },
            ));
        } else {
            assert(detail_at(r, pool, id) == d);
            if d.order.side == side {
                assert(queue_of(book_at(r.books, home), side) == queue_of(
                    book_at(w.books, home),
                    side,
                ));
            } else {
                assert(d.order.side == other_side(side)) by {
                    let q = queue_of(book_at(w.books, home), d.order.side);
                    let k = choose|k: int| 0 <= k < q.len() && q[k] == x;
                }
                assert(opposite(w.books, home, side).contains(x));
                assert(opposite(r.books, home, side).contains(x));
            }
        }
    }
    assert forall|p: u64, id: u64| #[trigger] on_pool(r, p, id) implies id < r.next_order_id && (
    aside != Some((p, id)) && !terminal(detail_at(r, p, id).state.state) ==> bound_to(r, id, p)) by {
        assert(on_pool(w, p, id));
        if bound_to(w, id, p) && touches(takes, id) {
            let i = choose|i: int| 0 <= i < takes.len() && (#[trigger] takes[i]).entry.id == id;
            assert(opposite(w.books, takes[i].key, side).contains(takes[i].entry));
            assert(detail_at(r, p, takes[i].entry.id) == maker_filled(
                detail_at(w, p, id),
                takes[i].quantity,
                now,
            ));
            if r.owners.contains_key(takes[i].entry.id) {
                assert(r.owners[id] == w.owners[id]);
            }
        } else {
            assert(detail_at(r, p, id) == detail_at(w, p, id));
            if bound_to(w, id, p) {
                assert(r.owners.contains_key(id));
            }
        }
    }
    assert forall|k: KeyV, id: u64| #[trigger] rests(book_at(r.books, k), id) implies id
        < r.next_order_id by {
        assert(rests(book_at(w.books, k), id));
    }
}

/// An order that joins its book under an id that rests nowhere keeps books
/// and orders in agreement.
proof fn lemma_links_after_join(
    v: WorldV,
    aside: Option<(u64, u64)>,
    key: KeyV,
    side: Side,
    e: EntryV,
)
    requires
        books_wf(v.books),
        linked_but(v, aside),
        e.id < v.next_order_id,
        forall|k: KeyV| !rests(#[trigger] book_at(v.books, k), e.id),
        side != Side::Unspecified,
    ensures
        linked_but(
            WorldV {
                books: stored(v.books, key, inserted(book_at(v.books, key), side, e)),
                ..v
            },
            aside,
        ),
        queue_of(
            book_at(stored(v.books, key, inserted(book_at(v.books, key), side, e)), key),
            side,
        ).contains(e),
{
    let home = book_at(v.books, key);
    assert(!rests(book_at(v.books, key), e.id));
    let own = queue_of(home, side);
    lemma_book_at_wf(v.books, key);
    lemma_rank_bounds(side, own, e.price);
    let at = rank(side, own, e.price);
    let longer = own.insert(at, e);
    let joined = inserted(home, side, e);
    let after = stored(v.books, key, joined);
    lemma_stored(v.books, key, joined);
    assert(longer[at] == e);
    assert forall|x: EntryV| own.contains(x) implies longer.contains(x) by {
        let i = choose|i: int| 0 <= i < own.len() && own[i] == x;
        if i < at {
            assert(longer[i] == x);
        } else {
            assert(longer[i + 1] == x);
        }
    }
    assert forall|id: u64| #[trigger] rests(joined, id) implies id == e.id || rests(home, id) by {
        if has_id(longer, id) {
            let i = place_of(longer, id);
            if i < at {
                assert(own[i].id == id);
            } else if i > at {
                assert(own[i - 1].id == id);
            }
        }
    }
    assert forall|k: KeyV| #[trigger] book_at(after, k) == if k == key {
        joined
    } else {
        book_at(v.books, k)
    } by {
        assert(holds(after, k) <==> holds(v.books, k) || k == key);
        if k != key && holds(v.books, k) {
            assert(value_at(after, k) == value_at(v.books, k));
        }
    }
    let r = WorldV { books: after, ..v };
    assert forall|id: u64| #[trigger] r.owners.contains_key(id) implies on_pool(
        r,
        r.owners[id],
        id,
    ) && !terminal(detail_at(r, r.owners[id], id).state.state) && in_place(
        r,
        r.owners[id],
        id,
    ) by {
        let pool = v.owners[id];
        assert(v.owners.contains_key(id));
        assert(on_pool(v, pool, id) && in_place(v, pool, id));
        let d = detail_at(v, pool, id);
        assert(detail_at(r, pool, id) == d);
        let k = key_of(d.order);
        assert(book_at(after, k) == if k == key {
            joined
        } else {
            book_at(v.books, k)
        });
    }
    assert forall|p: u64, id: u64| #[trigger] on_pool(r, p, id) implies id < r.next_order_id && (
    aside != Some((p, id)) && !terminal(detail_at(r, p, id).state.state) ==> bound_to(r, id, p)) by {
        assert(on_pool(v, p, id));
    }
    assert forall|k: KeyV, id: u64| #[trigger] rests(book_at(after, k), id) implies id
        < r.next_order_id && (rests(book_at(v.books, k), id) || (k == key && id == e.id)) by {
        assert(book_at(after, k) == if k == key {
            joined
        } else {
            book_at(v.books, k)
        });
        if k == key && id != e.id {
            assert(rests(book_at(v.books, k), id));
        }
    }
    assert forall|a: KeyV, b: KeyV, id: u64|
        #![trigger rests(book_at(after, a), id), rests(book_at(after, b), id)]
        rests(book_at(after, a), id) && rests(book_at(after, b), id) implies a == b by {
        if id == e.id {
            if a != key {
                assert(!rests(book_at(v.books, a), id));
            }
            if b != key {
                assert(!rests(book_at(v.books, b), id));
            }
        }
    }
}

/// Handing out an id keeps books and orders in agreement.
proof fn lemma_links_after_number(v: WorldV)
    requires
        linked(v),
        v.next_order_id < u64::MAX,
    ensures
        linked(WorldV { next_order_id: (v.next_order_id + 1) as u64, ..v }),
{
    let aside: Option<(u64, u64)> = None;
    let r = WorldV { next_order_id: (v.next_order_id + 1) as u64, ..v };
    assert forall|id: u64| #[trigger] r.owners.contains_key(id) implies on_pool(
        r,
        r.owners[id],
        id,
    ) && !terminal(detail_at(r, r.owners[id], id).state.state) && in_place(
        r,
        r.owners[id],
        id,
    ) by {
        assert(v.owners.contains_key(id));
        assert(on_pool(v, v.owners[id], id) && in_place(v, v.owners[id], id));
    }
    assert forall|p: u64, id: u64| #[trigger] on_pool(r, p, id) implies id < r.next_order_id && (
    aside != Some((p, id)) && !terminal(detail_at(r, p, id).state.state) ==> bound_to(r, id, p)) by {
        assert(on_pool(v, p, id));
    }
}

/// Two states with the same gridpools, bindings, books and next id agree on
/// what is linked.
proof fn lemma_links_same(a: WorldV, b: WorldV, aside: Option<(u64, u64)>)
    requires
        linked_but(a, aside),
        a.gridpools == b.gridpools,
        a.owners == b.owners,
        a.books == b.books,
        a.next_order_id == b.next_order_id,
    ensures
        linked_but(b, aside),
{
    assert forall|id: u64| #[trigger] b.owners.contains_key(id) implies on_pool(
        b,
        b.owners[id],
        id,
    ) && !terminal(detail_at(b, b.owners[id], id).state.state) && in_place(
        b,
        b.owners[id],
        id,
    ) by {
        assert(a.owners.contains_key(id));
        assert(on_pool(a, a.owners[id], id) && in_place(a, a.owners[id], id));
    }
    assert forall|p: u64, id: u64| #[trigger] on_pool(b, p, id) implies id < b.next_order_id && (
    aside != Some((p, id)) && !terminal(detail_at(b, p, id).state.state) ==> bound_to(b, id, p)) by {
        assert(on_pool(a, p, id));
    }
}

proof fn lemma_linked_owners_known(w: WorldV, aside: Option<(u64, u64)>)
    requires
        linked_but(w, aside),
    ensures
        owners_known(w),
{
    assert forall|id: u64| #[trigger] w.owners.contains_key(id) implies holds(
        w.gridpools,
        w.owners[id],
    ) by {
        assert(on_pool(w, w.owners[id], id));
    }
}

/// Books and orders agree after an order was admitted, whoever submitted it;
/// what rests of it stands on its contract's book.
#[verifier::rlimit(40)]
pub proof fn lemma_admitted_links(w: WorldV, o: OrderV, pool: Option<u64>, now: Timestamp)
    requires
        world_wf(w),
        books_open(w.books),
        linked(w),
        pool matches Some(p) ==> holds(w.gridpools, p),
        o.quantity > 0,
        o.side != Side::Unspecified,
        w.next_order_id < u64::MAX,
    ensures
        ({
            let a = admitted(w, o, pool, now);
            &&& world_wf(a.world)
            &&& books_open(a.world.books)
            &&& linked(a.world)
            &&& a.world.next_order_id == w.next_order_id + 1
            &&& forall|q: u64| #[trigger] holds(a.world.gridpools, q) <==> holds(w.gridpools, q)
            &&& forall|p: u64, id: u64| #[trigger] on_pool(a.world, p, id) <==> on_pool(w, p, id)
            &&& a.rested matches Some(left) ==> left == o.quantity - take_total(a.takes)
                && queue_of(book_at(a.world.books, key_of(o)), o.side).contains(
                EntryV { id: a.taker.id, price: o.price, open: left },
            )
            &&& a.rested is None && mode_of(o.execution_option) == ExecMode::Resting
                ==> take_total(a.takes) == o.quantity
            &&& take_total(a.takes) >= 0
            &&& mode_of(o.execution_option) == ExecMode::FillOrKill ==> take_total(a.takes)
                == o.quantity || take_total(a.takes) == 0
        }),
{
    let a = admitted(w, o, pool, now);
    let tk = a.taker;
    let mode = mode_of(o.execution_option);
    let numbered = WorldV { next_order_id: (w.next_order_id + 1) as u64, ..w };
    let c = crossed(numbered, tk, o.price, o.quantity, mode, now);
    let keys = candidates(numbered, tk.key, now);
    lemma_linked_owners_known(w, None);
    lemma_crossed_keeps(numbered, tk, o.price, o.quantity, mode, now);
    if mode == ExecMode::FillOrKill {
        fill_or_kill_across(numbered, tk, o.price, o.quantity, now);
    }
    lemma_recorded_keeps(c.world, tk, pool, c.takes, now);
    let s = swept(w.books, keys, o.side, o.price, o.quantity);
    lemma_swept_entries(w.books, keys, o.side, o.price, o.quantity);
    lemma_swept(w.books, keys, o.side, o.price, o.quantity);
    let killed = mode == ExecMode::FillOrKill && reachable_across(
        w.books,
        keys,
        o.side,
        o.price,
    ) < o.quantity;
    let none = Seq::<Take>::empty();
    let base = if killed {
        w.books
    } else {
        s.books
    };
    assert(sweep_entries(w.books, base, c.takes, o.side));
    assert(takes_distinct(c.takes));
    lemma_recorded_details(c.world, tk, pool, c.takes, now);
    let r = a.world;
    assert forall|p: u64, id: u64| on_pool(c.world, p, id) == on_pool(w, p, id) && detail_at(
        c.world,
        p,
        id,
    ) == detail_at(w, p, id) by {}
    lemma_recorded_details_same(c.world, w, r, c.takes, now);
    let v = WorldV { books: base, next_order_id: w.next_order_id, ..r };
    lemma_recorded_details_result(w, r, v, c.takes, now);
    assert forall|p: u64, id: u64| #[trigger] on_pool(v, p, id) <==> on_pool(w, p, id) by {
        assert(on_pool(v, p, id) == on_pool(r, p, id));
        assert(on_pool(c.world, p, id) == on_pool(w, p, id));
    }
    assert forall|p: u64, id: u64| #[trigger] on_pool(r, p, id) <==> on_pool(w, p, id) by {
        assert(on_pool(v, p, id) == on_pool(r, p, id));
    }
    assert(ids_unique(base));
    lemma_links_after_sweep(w, v, None, c.takes, o.side, now);
    lemma_links_after_number(v);
    let v1 = WorldV { next_order_id: (v.next_order_id + 1) as u64, ..v };
    if c.rested is Some {
        let e = EntryV { id: tk.id, price: o.price, open: s.left };
        assert forall|k: KeyV| !rests(#[trigger] book_at(v1.books, k), e.id) by {
            if rests(book_at(v1.books, k), e.id) {
                assert(rests(book_at(w.books, k), e.id));
            }
        }
        lemma_links_after_join(v1, None, tk.key, o.side, e);
        lemma_links_same(
            WorldV {
                books: stored(v1.books, tk.key, inserted(book_at(v1.books, tk.key), o.side, e)),
                ..v1
            },
            r,
            None,
        );
    } else {
        lemma_links_same(v1, r, None);
    }
}

pub proof fn lemma_recorded_details_same(
    a: WorldV,
    b: WorldV,
    after: WorldV,
    takes: Seq<Take>,
    now: Timestamp,
)
    requires
        recorded_details(a, after, takes, now),
        a.gridpools == b.gridpools,
        a.owners == b.owners,
    ensures
        recorded_details(b, after, takes, now),
{
    assert forall|p: u64, id: u64|
        on_pool(b, p, id) && (!touches(takes, id) || !bound_to(b, id, p)) implies #[trigger] detail_at(
        after,
        p,
        id,
    ) == detail_at(b, p, id) by {
        assert(on_pool(a, p, id));
        assert(detail_at(a, p, id) == detail_at(b, p, id));
    }
    assert forall|p: u64, i: int|
        #![trigger detail_at(after, p, takes[i].entry.id)]
        0 <= i < takes.len() && on_pool(b, p, takes[i].entry.id) && bound_to(
            b,
            takes[i].entry.id,
            p,
        ) implies detail_at(after, p, takes[i].entry.id) == maker_filled(
        detail_at(b, p, takes[i].entry.id),
        takes[i].quantity,
        now,
    ) by {
        assert(on_pool(a, p, takes[i].entry.id) && bound_to(a, takes[i].entry.id, p));
        assert(detail_at(a, p, takes[i].entry.id) == detail_at(b, p, takes[i].entry.id));
    }
    assert forall|i: int|
        0 <= i < takes.len() && b.owners.contains_key((#[trigger] takes[i]).entry.id) && on_pool(
            b,
            b.owners[takes[i].entry.id],
            takes[i].entry.id,
        ) implies (after.owners.contains_key(takes[i].entry.id) <==> detail_at(
        b,
        b.owners[takes[i].entry.id],
        takes[i].entry.id,
    ).open_quantity != takes[i].quantity) by {
        let id = takes[i].entry.id;
        assert(on_pool(a, a.owners[id], id));
        assert(detail_at(a, a.owners[id], id) == detail_at(b, b.owners[id], id));
    }
}

proof fn lemma_recorded_details_result(
    w: WorldV,
    a: WorldV,
    b: WorldV,
    takes: Seq<Take>,
    now: Timestamp,
)
    requires
        recorded_details(w, a, takes, now),
        a.gridpools == b.gridpools,
        a.owners == b.owners,
    ensures
        recorded_details(w, b, takes, now),
{
    assert forall|p: u64, id: u64|
        on_pool(w, p, id) && (!touches(takes, id) || !bound_to(w, id, p)) implies #[trigger] detail_at(
        b,
        p,
        id,
    ) == detail_at(w, p, id) by {
        assert(detail_at(a, p, id) == detail_at(b, p, id));
    }
    assert forall|p: u64, i: int|
        #![trigger detail_at(b, p, takes[i].entry.id)]
        0 <= i < takes.len() && on_pool(w, p, takes[i].entry.id) && bound_to(
            w,
            takes[i].entry.id,
            p,
        ) implies detail_at(b, p, takes[i].entry.id) == maker_filled(
        detail_at(w, p, takes[i].entry.id),
        takes[i].quantity,
        now,
    ) by {
        assert(detail_at(a, p, takes[i].entry.id) == detail_at(b, p, takes[i].entry.id));
    }
}

/// A gridpool's submission keeps books and orders in agreement.
pub proof fn submitting_keeps_links(w: WorldV, pool: u64, o: OrderV, now: Timestamp)
    requires
        world_wf(w),
        books_open(w.books),
        linked(w),
        holds(w.gridpools, pool),
        o.quantity > 0,
        o.side != Side::Unspecified,
        w.next_order_id < u64::MAX,
    ensures
        linked(submitted(w, pool, o, now)),
        books_open(submitted(w, pool, o, now).books),
        world_wf(submitted(w, pool, o, now)),
{
    let a = admitted(w, o, Some(pool), now);
    lemma_admitted_links(w, o, Some(pool), now);
    let d = fresh_detail(a, o, now);
    let id = d.id;
    assert(!on_pool(a.world, pool, id)) by {
        if on_pool(w, pool, id) {
            assert(id < w.next_order_id);
        }
    }
    lemma_put(a.world, pool, d);
    let filed = detail_put(a.world, pool, d);
    let r = submitted(w, pool, o, now);
    assert(r.gridpools == filed.gridpools && r.books == a.world.books);
    assert forall|p: u64, i: u64| on_pool(r, p, i) == on_pool(filed, p, i) && detail_at(r, p, i)
        == detail_at(filed, p, i) by {}
    assert(!a.world.owners.contains_key(id)) by {
        if a.world.owners.contains_key(id) {
            let p = a.world.owners[id];
            assert(on_pool(a.world, p, id));
            assert(on_pool(w, p, id));
        }
    }
    assert forall|i: u64| #[trigger] r.owners.contains_key(i) implies on_pool(r, r.owners[i], i)
        && !terminal(detail_at(r, r.owners[i], i).state.state) && in_place(r, r.owners[i], i) by {
        if i == id {
            assert(detail_at(r, pool, id) == d);
            assert(on_pool(r, pool, id) == on_pool(filed, pool, id));
        } else {
            assert(a.world.owners.contains_key(i));
            let p = a.world.owners[i];
            assert(on_pool(a.world, p, i) && in_place(a.world, p, i));
            assert(on_pool(filed, p, i));
            assert(detail_at(filed, p, i) == detail_at(a.world, p, i));
            assert(on_pool(r, p, i) == on_pool(filed, p, i));
            assert(detail_at(r, p, i) == detail_at(filed, p, i));
        }
    }
    assert forall|p: u64, i: u64| #[trigger] on_pool(r, p, i) implies i < r.next_order_id && (
    !terminal(detail_at(r, p, i).state.state) ==> bound_to(r, i, p)) by {
        assert(on_pool(filed, p, i));
        if p == pool && i == id {
            assert(detail_at(r, p, i) == d);
        } else {
            assert(on_pool(a.world, p, i));
            assert(detail_at(filed, p, i) == detail_at(a.world, p, i));
            assert(detail_at(r, p, i) == detail_at(filed, p, i));
            if bound_to(a.world, i, p) {
                assert(i != id);
            }
            if i == id {
                assert(on_pool(w, p, i));
            }
        }
    }
}

/// So does a counterparty's.
pub proof fn counterparties_keep_links(w: WorldV, o: OrderV, now: Timestamp)
    requires
        world_wf(w),
        books_open(w.books),
        linked(w),
        o.quantity > 0,
        o.side != Side::Unspecified,
        w.next_order_id < u64::MAX,
    ensures
        linked(admitted(w, o, None, now).world),
        books_open(admitted(w, o, None, now).world.books),
        world_wf(admitted(w, o, None, now).world),
{
    lemma_admitted_links(w, o, None, now);
}

// ---------------------------------------------------------------------------
// Leaving
// ---------------------------------------------------------------------------

/// The books lose at most this id: nothing new rests on any of them, and all
/// other entries stay.
pub open spec fn books_lose(
    before: Seq<(KeyV, BookV)>,
    after: Seq<(KeyV, BookV)>,
    id: u64,
) -> bool {
    &&& forall|k: KeyV, i: u64| #[trigger]
        rests(book_at(after, k), i) ==> rests(book_at(before, k), i)
    &&& forall|k: KeyV, side: Side, x: EntryV|
        x.id != id && queue_of(book_at(before, k), side).contains(x) ==> #[trigger] queue_of(
            book_at(after, k),
            side,
        ).contains(x)
}

proof fn lemma_without_contains(q: Seq<EntryV>, id: u64, x: EntryV)
    requires
        q.contains(x),
        x.id != id,
    ensures
        without(q, id).contains(x),
{
    if has_id(q, id) {
        let k = place_of(q, id);
        let i = choose|i: int| 0 <= i < q.len() && q[i] == x;
        let after = q.remove(k);
        if i < k {
            assert(after[i] == x);
        } else {
            assert(after[i - 1] == x);
        }
    }
}

/// A book that an order left, stored back.
pub proof fn lemma_stored_lose(books: Seq<(KeyV, BookV)>, key: KeyV, id: u64)
    requires
        books_wf(books),
        holds(books, key),
    ensures
        books_lose(books, stored(books, key, canceled(value_at(books, key), id)), id),
        books_wf(stored(books, key, canceled(value_at(books, key), id))),
        !rests(book_at(stored(books, key, canceled(value_at(books, key), id)), key), id),
        forall|k: KeyV| #[trigger]
            holds(stored(books, key, canceled(value_at(books, key), id)), k) <==> holds(books, k),
{
    let b = value_at(books, key);
    let left = canceled(b, id);
    let after = stored(books, key, left);
    assert(book_wf(books[slot(books, key)].1));
    lemma_canceled_wf(b, id);
    lemma_stored_books_wf(books, key, left);
    lemma_stored(books, key, left);
    cancel_touches_one_order(b, id, id);
    assert forall|k: KeyV| #[trigger] book_at(after, k) == if k == key {
        left
    } else {
        book_at(books, k)
    } by {
        assert(holds(after, k) <==> holds(books, k) || k == key);
        if k != key && holds(books, k) {
            assert(value_at(after, k) == value_at(books, k));
        }
    }
    assert forall|k: KeyV, i: u64| #[trigger] rests(book_at(after, k), i) implies rests(
        book_at(books, k),
        i,
    ) by {
        if k == key {
            cancel_touches_one_order(b, id, i);
        }
    }
    assert forall|k: KeyV, side: Side, x: EntryV|
        x.id != id && queue_of(book_at(books, k), side).contains(x) implies #[trigger] queue_of(
        book_at(after, k),
        side,
    ).contains(x) by {
        if k == key {
            match side {
                Side::Buy => lemma_without_contains(b.bids, id, x),
                Side::Sell => lemma_without_contains(b.asks, id, x),
                Side::Unspecified => {},
            }
        }
    }
}

/// The same, by the book's place.
pub proof fn lemma_without_lose(books: Seq<(KeyV, BookV)>, i: int, id: u64)
    requires
        books_wf(books),
        0 <= i < books.len(),
    ensures
        books_lose(books, books_without(books, i, id), id),
        books_wf(books_without(books, i, id)),
{
    let key = books[i].0;
    lemma_slot(books, key, i);
    lemma_stored_lose(books, key, id);
    assert(books_without(books, i, id) == stored(books, key, canceled(value_at(books, key), id)));
}

proof fn lemma_lose_unique(before: Seq<(KeyV, BookV)>, after: Seq<(KeyV, BookV)>, id: u64, next: u64)
    requires
        books_lose(before, after, id),
        ids_unique(before),
        ids_known(before, next),
    ensures
        ids_unique(after),
        ids_known(after, next),
{
    assert forall|a: KeyV, b: KeyV, i: u64|
        #![trigger rests(book_at(after, a), i), rests(book_at(after, b), i)]
        rests(book_at(after, a), i) && rests(book_at(after, b), i) implies a == b by {
        assert(rests(book_at(before, a), i) && rests(book_at(before, b), i));
    }
    assert forall|k: KeyV, i: u64| #[trigger] rests(book_at(after, k), i) implies i < next by {
        assert(rests(book_at(before, k), i));
    }
}

/// An order of a gridpool that ends, and leaves its book and its binding if
/// it had one, keeps books and orders in agreement. So does one that is set
/// aside.
proof fn lemma_links_after_end(
    w: WorldV,
    r: WorldV,
    aside: Option<(u64, u64)>,
    pool: u64,
    d: DetailV,
)
    requires
        world_wf(w),
        linked(w),
        on_pool(w, pool, d.id),
        terminal(d.state.state) || aside == Some((pool, d.id)),
        aside is None || aside == Some((pool, d.id)),
        r.gridpools == detail_put(w, pool, d).gridpools,
        r.next_order_id == w.next_order_id,
        bound_to(w, d.id, pool) ==> r.owners == w.owners.remove(d.id) && books_lose(
            w.books,
            r.books,
            d.id,
        ),
        !bound_to(w, d.id, pool) ==> r.owners == w.owners && r.books == w.books,
    ensures
        linked_but(r, aside),
{
    let id = d.id;
    lemma_put(w, pool, d);
    let put = detail_put(w, pool, d);
    assert forall|p: u64, i: u64| on_pool(r, p, i) == on_pool(put, p, i) && detail_at(r, p, i)
        == detail_at(put, p, i) by {}
    assert forall|i: u64| #[trigger] r.owners.contains_key(i) implies on_pool(r, r.owners[i], i)
        && !terminal(detail_at(r, r.owners[i], i).state.state) && in_place(r, r.owners[i], i) by {
        assert(w.owners.contains_key(i));
        let p = w.owners[i];
        assert(on_pool(w, p, i) && in_place(w, p, i));
        assert(p != pool || i != id);
        assert(on_pool(put, p, i));
        assert(detail_at(put, p, i) == detail_at(w, p, i));
        assert(on_pool(r, p, i) == on_pool(put, p, i));
        assert(detail_at(r, p, i) == detail_at(put, p, i));
        let x = detail_at(w, p, i);
        if bound_to(w, id, pool) {
            assert(i != id);
            assert(queue_of(book_at(w.books, key_of(x.order)), x.order.side).contains(
                EntryV { id: i, price: x.order.price, open: x.open_quantity },
            ));
            assert(queue_of(book_at(r.books, key_of(x.order)), x.order.side).contains(
                EntryV { id: i, price: x.order.price, open: x.open_quantity },
            ));
        }
    }
    assert forall|p: u64, i: u64| #[trigger] on_pool(r, p, i) implies i < r.next_order_id && (
    aside != Some((p, i)) && !terminal(detail_at(r, p, i).state.state) ==> bound_to(r, i, p)) by {
        assert(on_pool(put, p, i));
        if p == pool && i == id {
            assert(detail_at(r, p, i) == d);
            assert(on_pool(w, pool, id));
        } else {
            assert(on_pool(w, p, i));
            assert(detail_at(put, p, i) == detail_at(w, p, i));
            assert(detail_at(r, p, i) == detail_at(put, p, i));
        }
    }
    if bound_to(w, id, pool) {
        lemma_lose_unique(w.books, r.books, id, w.next_order_id);
    }
}

/// An order that belongs to no gridpool and leaves its book keeps books and
/// orders in agreement.
proof fn lemma_links_after_departure(w: WorldV, r: WorldV, id: u64)
    requires
        linked(w),
        !w.owners.contains_key(id),
        r.gridpools == w.gridpools,
        r.owners == w.owners,
        r.next_order_id == w.next_order_id,
        books_lose(w.books, r.books, id),
    ensures
        linked(r),
{
    assert forall|i: u64| #[trigger] r.owners.contains_key(i) implies on_pool(r, r.owners[i], i)
        && !terminal(detail_at(r, r.owners[i], i).state.state) && in_place(r, r.owners[i], i) by {
        assert(w.owners.contains_key(i));
        let p = w.owners[i];
        assert(on_pool(w, p, i) && in_place(w, p, i));
        let x = detail_at(w, p, i);
        assert(detail_at(r, p, i) == x);
        assert(queue_of(book_at(r.books, key_of(x.order)), x.order.side).contains(
            EntryV { id: i, price: x.order.price, open: x.open_quantity },
        ));
    }
    assert forall|p: u64, i: u64| #[trigger] on_pool(r, p, i) implies i < r.next_order_id && (
    !terminal(detail_at(r, p, i).state.state) ==> bound_to(r, i, p)) by {
        assert(on_pool(w, p, i));
    }
    lemma_lose_unique(w.books, r.books, id, w.next_order_id);
}

/// Canceling an order, by whoever, keeps books and orders in agreement.
pub proof fn canceling_keeps_links(
    w: WorldV,
    pool: u64,
    id: u64,
    actor: MarketActor,
    now: Timestamp,
)
    requires
        world_wf(w),
        linked(w),
        cancel_objection(w, pool, id) is None,
    ensures
        linked(order_canceled(w, pool, id, actor, now)),
        in_order(w) ==> in_order(order_canceled(w, pool, id, actor, now)),
        !rests(
            book_at(
                order_canceled(w, pool, id, actor, now).books,
                key_of(detail_at(w, pool, id).order),
            ),
            id,
        ),
{
    let d = detail_at(w, pool, id);
    lemma_detail_id(w, pool, id);
    let after = detail_canceled(d, actor, now);
    let r = order_canceled(w, pool, id, actor, now);
    assert(bound_to(w, id, pool));
    assert(in_place(w, pool, id));
    let home = key_of(d.order);
    let x = EntryV { id, price: d.order.price, open: d.open_quantity };
    lemma_contains_has_id(queue_of(book_at(w.books, home), d.order.side), x);
    lemma_side_rests(book_at(w.books, home), d.order.side, id);
    assert(holds(w.books, home));
    lemma_book_with(w.books, id, 0);
    assert(rests(w.books[slot(w.books, home)].1, id));
    let i = book_with(w.books, id, 0)->0;
    lemma_slot(w.books, w.books[i].0, i);
    assert(rests(book_at(w.books, w.books[i].0), id));
    assert(w.books[i].0 == home);
    lemma_without_lose(w.books, i, id);
    lemma_stored_lose(w.books, home, id);
    assert(r.books == books_without(w.books, i, id));
    let w2 = WorldV {
        owners: w.owners.remove(id),
        books: books_without(w.books, i, id),
        ..w
    };
    assert(r.gridpools == detail_put(w2, pool, after).gridpools);
    assert(detail_put(w2, pool, after).gridpools == detail_put(w, pool, after).gridpools);
    lemma_links_after_end(w, r, None, pool, after);
    lemma_cancel_thins(w, pool, id, actor, now);
    lemma_thinned(w.books, r.books);
}

/// Taking a counterparty's order off its book keeps books and orders in
/// agreement.
pub proof fn counterparty_cancels_keep_links(w: WorldV, id: u64, now: Timestamp)
    requires
        world_wf(w),
        linked(w),
        !w.owners.contains_key(id),
    ensures
        linked(counterparty_canceled(w, id, now)),
        in_order(w) ==> in_order(counterparty_canceled(w, id, now)),
{
    let r = counterparty_canceled(w, id, now);
    lemma_counterparty_cancel_thins(w, id, now);
    lemma_thinned(w.books, r.books);
    lemma_book_with(w.books, id, 0);
    assert(w.owners.remove(id) =~= w.owners);
    if book_with(w.books, id, 0) is Some {
        lemma_without_lose(w.books, book_with(w.books, id, 0)->0, id);
        lemma_links_after_departure(w, r, id);
    } else {
        lemma_links_same(w, r, None);
    }
}

proof fn lemma_one_expired_links(w: WorldV, e: Expiry, now: Timestamp)
    requires
        world_wf(w),
        linked(w),
        on_pool(w, e.pool, e.id),
        e.key == key_of(detail_at(w, e.pool, e.id).order),
    ensures
        linked(one_expired(w, e, now)),
{
    let d = detail_at(w, e.pool, e.id);
    lemma_detail_id(w, e.pool, e.id);
    let after = detail_expired(d, now);
    let r = one_expired(w, e, now);
    if bound_to(w, e.id, e.pool) {
        assert(in_place(w, e.pool, e.id));
        let x = EntryV { id: e.id, price: d.order.price, open: d.open_quantity };
        lemma_contains_has_id(queue_of(book_at(w.books, e.key), d.order.side), x);
        lemma_side_rests(book_at(w.books, e.key), d.order.side, e.id);
        assert(rests_at_home(w, e.pool, e.id, e.key));
        lemma_stored_lose(w.books, e.key, e.id);
    }
    assert(r.gridpools == detail_put(w, e.pool, after).gridpools);
    lemma_links_after_end(w, r, None, e.pool, after);
}

pub proof fn lemma_all_expired_links(w: WorldV, list: Seq<Expiry>, now: Timestamp)
    requires
        world_wf(w),
        linked(w),
        forall|k: int|
            0 <= k < list.len() ==> on_pool(w, (#[trigger] list[k]).pool, list[k].id)
                && list[k].key == key_of(detail_at(w, list[k].pool, list[k].id).order),
    ensures
        linked(all_expired(w, list, now)),
        world_wf(all_expired(w, list, now)),
    decreases list.len(),
{
    if list.len() > 0 {
        let some = list.drop_last();
        let e = list.last();
        assert(e == list[list.len() - 1]);
        assert forall|k: int| 0 <= k < some.len() implies on_pool(
            w,
            (#[trigger] some[k]).pool,
            some[k].id,
        ) && some[k].key == key_of(detail_at(w, some[k].pool, some[k].id).order) by {
            assert(some[k] == list[k]);
        }
        assert(all_on_pools(w, some));
        lemma_all_expired_links(w, some, now);
        lemma_all_expired(w, some, now);
        let before = all_expired(w, some, now);
        assert(on_pool(before, e.pool, e.id));
        assert(detail_at(before, e.pool, e.id).order == detail_at(w, e.pool, e.id).order);
        lemma_one_expired_links(before, e, now);
        lemma_one_expired(before, e, now);
    }
}

proof fn lemma_entries_swept_links(
    w: WorldV,
    i: int,
    entries: Seq<(EntryV, Side)>,
    now: Timestamp,
    n: nat,
)
    requires
        world_wf(w),
        linked(w),
        0 <= i < w.books.len(),
        n <= entries.len(),
    ensures
        linked(entries_swept(w, w.books[i].0, entries, now, n)),
    decreases n,
{
    if n > 0 {
        let key = w.books[i].0;
        lemma_entries_swept_links(w, i, entries, now, (n - 1) as nat);
        lemma_entries_swept(w, i, entries, now, (n - 1) as nat);
        let before = entries_swept(w, key, entries, now, (n - 1) as nat);
        let after = entries_swept(w, key, entries, now, n);
        let id = entries[n - 1].0.id;
        if !before.owners.contains_key(id) {
            lemma_slot(before.books, key, i);
            lemma_stored_lose(before.books, key, id);
            lemma_links_after_departure(before, after, id);
        }
    }
}

proof fn lemma_books_swept_links(w: WorldV, now: Timestamp, n: nat)
    requires
        world_wf(w),
        linked(w),
        n <= w.books.len(),
    ensures
        linked(books_swept(w, now, n)),
    decreases n,
{
    if n > 0 {
        lemma_books_swept_links(w, now, (n - 1) as nat);
        lemma_books_swept(w, now, (n - 1) as nat);
        let before = books_swept(w, now, (n - 1) as nat);
        let (key, b) = w.books[n - 1];
        if key.period.start.at_or_earlier(now) {
            assert(before.books[n - 1].0 == key);
            lemma_entries_swept_links(before, n - 1, entries_of(b), now, entries_of(b).len());
        }
    }
}

/// Letting orders expire keeps books and orders in agreement; no contract
/// past its gate has anything left on its book.
pub proof fn expiry_keeps_links(w: WorldV, now: Timestamp)
    requires
        world_wf(w),
        linked(w),
    ensures
        linked(expired(w, now)),
        in_order(w) ==> in_order(expired(w, now)),
        forall|i: int, id: u64|
            0 <= i < expired(w, now).books.len() && expired(
                w,
                now,
            ).books[i].0.period.start.at_or_earlier(now) ==> !(#[trigger] rests(
                expired(w, now).books[i].1,
                id,
            )),
{
    let list = expiries(w.gridpools, now, w.gridpools.len());
    assert forall|k: int| 0 <= k < list.len() implies on_pool(
        w,
        (#[trigger] list[k]).pool,
        list[k].id,
    ) && list[k].key == key_of(detail_at(w, list[k].pool, list[k].id).order) by {
        lemma_expiries_lapsed(w, now, w.gridpools.len(), k);
    }
    lemma_all_expired_links(w, list, now);
    let w1 = all_expired(w, list, now);
    lemma_books_swept_links(w1, now, w1.books.len());
    lemma_books_swept(w1, now, w1.books.len());
    let end = expired(w, now);
    lemma_expiry_thins(w, now);
    lemma_thinned(w.books, end.books);
    assert forall|i: int, id: u64|
        0 <= i < end.books.len() && end.books[i].0.period.start.at_or_earlier(
            now,
        ) implies !(#[trigger] rests(end.books[i].1, id)) by {
        if rests(end.books[i].1, id) {
            gated_books_hold_no_counterparty(w, now, i, id);
            let p = end.owners[id];
            assert(on_pool(end, p, id) && in_place(end, p, id));
            let d = detail_at(end, p, id);
            nothing_lapsed_stays_open(w, now, p, id);
            let home = key_of(d.order);
            let x = EntryV { id, price: d.order.price, open: d.open_quantity };
            lemma_contains_has_id(queue_of(book_at(end.books, home), d.order.side), x);
            lemma_side_rests(book_at(end.books, home), d.order.side, id);
            lemma_slot(end.books, end.books[i].0, i);
            assert(rests(book_at(end.books, end.books[i].0), id));
            assert(rests(book_at(end.books, home), id));
            assert(end.books[i].0 == home);
        }
    }
}

/// An exchange without orders is in agreement.
pub proof fn fresh_exchange_is_linked(w: WorldV)
    requires
        w.books.len() == 0,
        w.gridpools.len() == 0 || forall|i: int|
            0 <= i < w.gridpools.len() ==> (#[trigger] w.gridpools[i]).1.orders.len() == 0,
        w.owners == Map::<u64, u64>::empty(),
    ensures
        linked(w),
{
    assert forall|p: u64, id: u64| #[trigger] on_pool(w, p, id) implies false by {
        let i = slot(w.gridpools, p);
        assert(w.gridpools[i].1.orders.len() == 0);
    }
}

// ---------------------------------------------------------------------------
// Modifying
// ---------------------------------------------------------------------------

/// Storing twice under one key is storing the second value.
proof fn lemma_stored_twice<A, B>(rows: Seq<(A, B)>, k: A, x: B, y: B)
    requires
        distinct(rows),
        holds(rows, k),
    ensures
        stored(stored(rows, k, x), k, y) == stored(rows, k, y),
        slot(stored(rows, k, x), k) == slot(rows, k),
{
    let i = slot(rows, k);
    let one = stored(rows, k, x);
    lemma_stored(rows, k, x);
    assert(one[i].0 == k);
    lemma_slot(one, k, i);
    assert(stored(one, k, y) =~= stored(rows, k, y));
}

/// The takes of a sweep of one queue.
pub open spec fn takes_on(key: KeyV, taken: Seq<(EntryV, int)>) -> Seq<Take> {
    Seq::new(taken.len(), |i: int| Take { key, entry: taken[i].0, quantity: taken[i].1 })
}

/// Sweeping one contract across books is sweeping its queue.
proof fn lemma_swept_single(
    books: Seq<(KeyV, BookV)>,
    key: KeyV,
    side: Side,
    limit: int,
    qty: int,
)
    requires
        distinct(books),
        holds(books, key),
    ensures
        ({
            let s = swept(books, seq![key], side, limit, qty);
            let w = sweep(side, limit, qty, opposite(books, key, side));
            &&& s.left == w.left
            &&& s.takes == takes_on(key, w.taken)
            &&& s.books == stored(
                books,
                key,
                with_queue(value_at(books, key), other_side(side), w.queue),
            )
        }),
    decreases opposite(books, key, side).len(),
{
    let keys = seq![key];
    let far = other_side(side);
    let b = value_at(books, key);
    let q = opposite(books, key, side);
    let s = swept(books, keys, side, limit, qty);
    let w = sweep(side, limit, qty, q);
    assert(keys.drop_last() =~= Seq::<KeyV>::empty());
    assert(best_offer(books, keys.drop_last(), side, limit) is None);
    assert(best_offer(books, keys, side, limit) == if offers(books, key, side, limit) {
        Some(0int)
    } else {
        None
    });
    if qty <= 0 || !offers(books, key, side, limit) {
        assert(w.taken.len() == 0 && w.queue == q);
        assert(with_queue(b, far, q) == b);
        lemma_stored_same(books, key);
        assert(s.takes =~= takes_on(key, w.taken));
    } else {
        let e = q[0];
        let next = with_queue(b, far, front_taken(q, qty));
        let after = books_taken(books, key, side, qty);
        let i = slot(books, key);
        lemma_stored(books, key, next);
        assert(after == stored(books, key, next));
        if e.open <= qty {
            assert(front_taken(q, qty) =~= q.drop_first());
            lemma_swept_single(after, key, side, limit, qty - e.open);
            let rest = sweep(side, limit, qty - e.open, q.drop_first());
            assert(opposite(after, key, side) == q.drop_first());
            lemma_stored_twice(books, key, next, with_queue(next, far, rest.queue));
            assert(with_queue(next, far, rest.queue) == with_queue(b, far, rest.queue));
            assert(s.takes =~= takes_on(key, w.taken));
        } else {
            assert(s.takes =~= takes_on(key, w.taken));
        }
    }
}

/// The fills of one contract's takes, recorded.
pub proof fn lemma_fills_are_takes(
    w: WorldV,
    taker: Taker,
    pool: Option<u64>,
    taken: Seq<(EntryV, int)>,
    now: Timestamp,
)
    ensures
        fills_recorded(w, taker, pool, fills_of(taker.id, taken), now) == takes_recorded(
            w,
            taker,
            pool,
            takes_on(taker.key, taken),
            now,
        ),
    decreases taken.len(),
{
    let fills = fills_of(taker.id, taken);
    let takes = takes_on(taker.key, taken);
    if taken.len() > 0 {
        let some = taken.drop_last();
        lemma_fills_are_takes(w, taker, pool, some, now);
        assert(fills.drop_last() =~= fills_of(taker.id, some));
        assert(takes.drop_last() =~= takes_on(taker.key, some));
        assert(fills.last() == fill_of(taker.id, takes.last()));
    }
}

pub proof fn lemma_filled_of_takes(id: u64, key: KeyV, taken: Seq<(EntryV, int)>)
    ensures
        filled(fills_of(id, taken)) == take_total(takes_on(key, taken)),
{
    let fills = fills_of(id, taken);
    let takes = takes_on(key, taken);
    assert forall|i: int| 0 <= i < fills.len() implies (#[trigger] fills[i]) == fill_of(
        id,
        takes[i],
    ) by {}
    lemma_filled_is_take_total(fills, id, takes);
}

/// Rewriting an open order in its place keeps books and orders in agreement.
proof fn lemma_in_place_links(w: WorldV, pool: u64, id: u64, u: UpdateV, now: Timestamp)
    requires
        world_wf(w),
        linked(w),
        modify_objection(w, pool, id, u, now) is None,
        stays_put(w, pool, id, u),
    ensures
        linked(updated_in_place(w, pool, id, u, now)),
        world_wf(updated_in_place(w, pool, id, u, now)),
        on_pool(updated_in_place(w, pool, id, u, now), pool, id),
{
    let d = detail_at(w, pool, id);
    lemma_detail_id(w, pool, id);
    let after = detail_updated(d, u, now);
    let key = key_of(d.order);
    let b = value_at(w.books, key);
    let r = updated_in_place(w, pool, id, u, now);
    let open = after.open_quantity;
    let placed = WorldV { books: r.books, owners: r.owners, ..w };
    assert(book_wf(w.books[slot(w.books, key)].1));
    lemma_resized_wf(b, id, open);
    lemma_stored_books_wf(w.books, key, resized(b, id, open));
    assert(world_wf(placed));
    lemma_put(placed, pool, after);
    assert(r == detail_put(placed, pool, after));
    if open == 0 {
        lemma_stored_lose(w.books, key, id);
        assert(r.gridpools == detail_put(w, pool, after).gridpools);
        lemma_links_after_end(w, r, None, pool, after);
    } else {
        let side = d.order.side;
        let x = EntryV { id, price: d.order.price, open: d.open_quantity };
        assert(in_place(w, pool, id));
        let q = queue_of(b, side);
        assert(queue_of(book_at(w.books, key), side) == q);
        lemma_contains_has_id(q, x);
        lemma_book_at_wf(w.books, key);
        lemma_not_on_both_sides(b, side, id);
        assert(side_of(b, id) == side);
        let at = place_of(q, id);
        assert(q[at].id == id);
        lemma_queue_distinct(b, side);
        assert(q.contains(q[at]));
        lemma_same_entry(q, x, q[at]);
        let y = EntryV { open, ..q[at] };
        let changed = q.update(at, y);
        let nb = resized(b, id, open);
        assert(nb == with_queue(b, side, changed));
        let books = stored(w.books, key, nb);
        lemma_stored(w.books, key, nb);
        assert(changed[at] == y);
        assert forall|k: KeyV| #[trigger] book_at(books, k) == if k == key {
            nb
        } else {
            book_at(w.books, k)
        } by {
            assert(holds(books, k) <==> holds(w.books, k) || k == key);
            if k != key && holds(w.books, k) {
                assert(value_at(books, k) == value_at(w.books, k));
            }
        }
        assert forall|i: u64| #[trigger] has_id(changed, i) implies has_id(q, i) by {
            let j = place_of(changed, i);
            assert(q[j].id == i);
        }
        assert forall|k: KeyV, i: u64| #[trigger] rests(book_at(books, k), i) implies rests(
            book_at(w.books, k),
            i,
        ) by {
            if k == key {
                assert(book_at(books, k) == nb);
            }
        }
        assert forall|k: KeyV, s: Side, z: EntryV|
            z.id != id && queue_of(book_at(w.books, k), s).contains(z) implies #[trigger] queue_of(
            book_at(books, k),
            s,
        ).contains(z) by {
            if k == key && s == side {
                let j = choose|j: int| 0 <= j < q.len() && q[j] == z;
                assert(changed[j] == z);
            }
        }
        assert(books_lose(w.books, books, id));
        lemma_lose_unique(w.books, books, id, w.next_order_id);
        lemma_put(w, pool, after);
        let put = detail_put(w, pool, after);
        assert(r.gridpools == put.gridpools && r.books == books && r.owners == w.owners);
        assert forall|p: u64, i: u64| on_pool(r, p, i) == on_pool(put, p, i) && detail_at(r, p, i)
            == detail_at(put, p, i) by {}
        assert forall|i: u64| #[trigger] r.owners.contains_key(i) implies on_pool(
            r,
            r.owners[i],
            i,
        ) && !terminal(detail_at(r, r.owners[i], i).state.state) && in_place(
            r,
            r.owners[i],
            i,
        ) by {
            let p = w.owners[i];
            assert(w.owners.contains_key(i));
            assert(on_pool(w, p, i) && in_place(w, p, i));
            if i == id {
                assert(p == pool);
                assert(detail_at(r, p, i) == after);
                assert(on_pool(r, p, i) == on_pool(put, p, i));
                assert(queue_of(book_at(books, key), side) == changed);
                assert(changed.contains(y));
            } else {
                assert(on_pool(put, p, i));
                assert(on_pool(r, p, i) == on_pool(put, p, i));
                assert(detail_at(put, p, i) == detail_at(w, p, i));
                assert(detail_at(r, p, i) == detail_at(put, p, i));
                let z = detail_at(w, p, i);
                assert(queue_of(book_at(books, key_of(z.order)), z.order.side).contains(
                    EntryV { id: i, price: z.order.price, open: z.open_quantity },
                ));
            }
        }
        assert forall|p: u64, i: u64| #[trigger] on_pool(r, p, i) implies i < r.next_order_id && (
        !terminal(detail_at(r, p, i).state.state) ==> bound_to(r, i, p)) by {
            assert(on_pool(put, p, i));
            if p == pool && i == id {
                assert(bound_to(w, id, pool));
                assert(on_pool(w, pool, id));
            } else {
                assert(on_pool(w, p, i));
                assert(detail_at(put, p, i) == detail_at(w, p, i));
                assert(detail_at(r, p, i) == detail_at(put, p, i));
            }
        }
    }
}

/// Putting the last word on an order set aside: it has ended, or it is bound
/// again and stands on its book.
proof fn lemma_links_after_return(
    v: WorldV,
    r: WorldV,
    pool: u64,
    d: DetailV,
)
    requires
        world_wf(v),
        linked_but(v, Some((pool, d.id))),
        on_pool(v, pool, d.id),
        !v.owners.contains_key(d.id),
        r.gridpools == detail_put(v, pool, d).gridpools,
        r.books == v.books,
        r.next_order_id == v.next_order_id,
        terminal(d.state.state) ==> r.owners == v.owners,
        !terminal(d.state.state) ==> r.owners == v.owners.insert(d.id, pool) && queue_of(
            book_at(v.books, key_of(d.order)),
            d.order.side,
        ).contains(EntryV { id: d.id, price: d.order.price, open: d.open_quantity }),
    ensures
        linked(r),
{
    let id = d.id;
    lemma_put(v, pool, d);
    let put = detail_put(v, pool, d);
    assert forall|p: u64, i: u64| on_pool(r, p, i) == on_pool(put, p, i) && detail_at(r, p, i)
        == detail_at(put, p, i) by {}
    assert forall|i: u64| #[trigger] r.owners.contains_key(i) implies on_pool(r, r.owners[i], i)
        && !terminal(detail_at(r, r.owners[i], i).state.state) && in_place(r, r.owners[i], i) by {
        if i == id {
            assert(detail_at(r, pool, id) == d);
            assert(on_pool(r, pool, id) == on_pool(put, pool, id));
        } else {
            assert(v.owners.contains_key(i));
            let p = v.owners[i];
            assert(on_pool(v, p, i) && in_place(v, p, i));
            assert(on_pool(put, p, i));
            assert(on_pool(r, p, i) == on_pool(put, p, i));
            assert(detail_at(put, p, i) == detail_at(v, p, i));
            assert(detail_at(r, p, i) == detail_at(put, p, i));
        }
    }
    assert forall|p: u64, i: u64| #[trigger] on_pool(r, p, i) implies i < r.next_order_id && (
    !terminal(detail_at(r, p, i).state.state) ==> bound_to(r, i, p)) by {
        assert(on_pool(put, p, i));
        if p == pool && i == id {
            assert(detail_at(r, p, i) == d);
            assert(on_pool(v, pool, id));
        } else {
            assert(on_pool(v, p, i));
            assert(detail_at(put, p, i) == detail_at(v, p, i));
            assert(detail_at(r, p, i) == detail_at(put, p, i));
            if i == id && !terminal(detail_at(r, p, i).state.state) {
                assert(bound_to(v, i, p));
            }
        }
    }
}

/// Taking an order off its book, rewriting it and matching it again keeps
/// books and orders in agreement.
#[verifier::rlimit(40)]
pub proof fn lemma_rematched_links(w: WorldV, pool: u64, id: u64, u: UpdateV, now: Timestamp)
    requires
        world_wf(w),
        books_open(w.books),
        linked(w),
        modify_objection(w, pool, id, u, now) is None,
    ensures
        linked(rematched(update_applied(w, pool, id, u, now), pool, id, now)),
        on_pool(rematched(update_applied(w, pool, id, u, now), pool, id, now), pool, id),
        world_wf(rematched(update_applied(w, pool, id, u, now), pool, id, now)),
        ({
            let d = detail_updated(detail_at(w, pool, id), u, now);
            let v = update_applied(w, pool, id, u, now);
            let key = key_of(d.order);
            &&& v.books == stored(w.books, key, canceled(value_at(w.books, key), id))
            &&& holds(w.books, key)
            &&& d.open_quantity >= 0
            &&& rematched(v, pool, id, now).books == if d.open_quantity > 0 {
                stored(
                    v.books,
                    key,
                    matched(
                        book_at(v.books, key),
                        id,
                        d.order.side,
                        d.order.price,
                        d.open_quantity,
                        ExecMode::Resting,
                    ).book,
                )
            } else {
                v.books
            }
        }),
        accounted(w) ==> accounted(
            rematched(update_applied(w, pool, id, u, now), pool, id, now),
        ),
{
    let aside = Some((pool, id));
    let d0 = detail_at(w, pool, id);
    lemma_detail_id(w, pool, id);
    let key = key_of(d0.order);
    let side = d0.order.side;
    let d = detail_updated(d0, u, now);
    let open = d.open_quantity;
    let v = update_applied(w, pool, id, u, now);
    assert(bound_to(w, id, pool) && in_place(w, pool, id));
    let x = EntryV { id, price: d0.order.price, open: d0.open_quantity };
    lemma_contains_has_id(queue_of(book_at(w.books, key), side), x);
    lemma_side_rests(book_at(w.books, key), side, id);
    assert(holds(w.books, key));
    lemma_stored_lose(w.books, key, id);
    let off = WorldV {
        owners: w.owners.remove(id),
        books: stored(w.books, key, canceled(value_at(w.books, key), id)),
        ..w
    };
    lemma_put(off, pool, d);
    lemma_lose_open(w.books, key, id);
    assert(v == detail_put(off, pool, d));
    if accounted(w) {
        lemma_same_pools_accounted(w, off);
        lemma_put_accounted(off, pool, d);
    }
    assert(v.gridpools == detail_put(w, pool, d).gridpools);
    assert forall|k: KeyV| !rests(#[trigger] book_at(v.books, k), id) by {
        if rests(book_at(v.books, k), id) {
            assert(rests(book_at(w.books, k), id));
            assert(rests(book_at(w.books, key), id));
        }
    }
    if open <= 0 {
        assert(open == 0);
        lemma_links_after_end(w, v, None, pool, d);
        lemma_links_same(v, rematched(v, pool, id, now), None);
    } else {
        lemma_links_after_end(w, v, aside, pool, d);
        assert(detail_at(v, pool, id) == d);
        let tk = Taker { id, side, currency: d.order.currency, key };
        let b = book_at(v.books, key);
        assert(holds(v.books, key));
        let q = opposite(v.books, key, side);
        let sw = sweep(side, d.order.price, open, q);
        let keys = seq![key];
        let s = swept(v.books, keys, side, d.order.price, open);
        lemma_swept_single(v.books, key, side, d.order.price, open);
        lemma_swept(v.books, keys, side, d.order.price, open);
        lemma_swept_entries(v.books, keys, side, d.order.price, open);
        let takes = s.takes;
        let m = matched(b, id, side, d.order.price, open, ExecMode::Resting);
        let stocked = WorldV { books: stored(v.books, key, m.book), ..v };
        let w1 = fills_traced(stocked, tk, m.fills, m.book, now);
        lemma_traced_keeps(stocked, tk, m.fills, m.book, now);
        lemma_linked_owners_known(v, aside);
        let swept_book = with_queue(b, other_side(side), sw.queue);
        lemma_book_at_wf(s.books, key);
        assert(s.books == stored(v.books, key, swept_book));
        lemma_stored(v.books, key, swept_book);
        assert(book_at(s.books, key) == swept_book);
        let e = EntryV { id, price: d.order.price, open: sw.left };
        if sw.left > 0 {
            lemma_inserted_wf(swept_book, side, e);
            lemma_stored_twice(v.books, key, swept_book, m.book);
        }
        lemma_stored_books_wf(v.books, key, m.book);
        assert(world_wf(w1));
        lemma_fills_are_takes(w1, tk, Some(pool), sw.taken, now);
        lemma_recorded_keeps(w1, tk, Some(pool), takes, now);
        lemma_recorded_details(w1, tk, Some(pool), takes, now);
        lemma_filled_of_takes(id, key, sw.taken);
        let w2 = fills_recorded(w1, tk, Some(pool), m.fills, now);
        assert(w2 == takes_recorded(w1, tk, Some(pool), takes, now));
        lemma_recorded_details_same(w1, v, w2, takes, now);
        let z = WorldV { books: s.books, ..w2 };
        lemma_recorded_details_result(v, w2, z, takes, now);
        assert forall|p: u64, i: u64| #[trigger] on_pool(z, p, i) <==> on_pool(v, p, i) by {
            assert(on_pool(z, p, i) == on_pool(w2, p, i));
            assert(on_pool(w1, p, i) == on_pool(v, p, i));
        }
        lemma_links_after_sweep(v, z, aside, takes, side, now);
        assert(!bound_to(v, id, pool));
        assert(on_pool(v, pool, id));
        assert(detail_at(z, pool, id) == d);
        assert(detail_at(w2, pool, id) == detail_at(z, pool, id));
        assert(!v.owners.contains_key(id));
        assert(!w2.owners.contains_key(id)) by {
            if w2.owners.contains_key(id) {
                assert(v.owners.contains_key(id));
            }
        }
        let t = filled(m.fills);
        assert(t == take_total(takes));
        lemma_takes_positive(takes);
        let last = if t > 0 {
            taker_filled(d, t, now)
        } else {
            d
        };
        let y = if sw.left > 0 {
            WorldV { books: stored(z.books, key, inserted(book_at(z.books, key), side, e)), ..z }
        } else {
            z
        };
        if sw.left > 0 {
            assert forall|k: KeyV| !rests(#[trigger] book_at(z.books, k), id) by {
                if rests(book_at(z.books, k), id) {
                    assert(rests(book_at(v.books, k), id));
                }
            }
            lemma_links_after_join(z, aside, key, side, e);
        }
        assert(y.books == w2.books);
        assert(y == w2);
        let r = rematched(v, pool, id, now);
        lemma_detail_id(w2, pool, id);
        lemma_put(w2, pool, last);
        lemma_put_same(w2, pool, id);
        assert(r.gridpools == detail_put(w2, pool, last).gridpools);
        lemma_links_after_return(w2, r, pool, last);
        assert(on_pool(detail_put(w2, pool, last), pool, id));
        if accounted(w) {
            lemma_same_pools_accounted(v, w1);
            lemma_recorded_accounted(w1, tk, Some(pool), takes, now);
            lemma_put_accounted(w2, pool, last);
            lemma_same_pools_accounted(detail_put(w2, pool, last), r);
        }
    }
}

/// Putting an order's own detail back changes nothing.
proof fn lemma_put_same(w: WorldV, pool: u64, id: u64)
    requires
        world_wf(w),
        on_pool(w, pool, id),
    ensures
        detail_put(w, pool, detail_at(w, pool, id)) == w,
{
    lemma_detail_id(w, pool, id);
    let p = value_at(w.gridpools, pool);
    lemma_stored_same(p.orders, id);
    lemma_stored_same(w.gridpools, pool);
}

/// Books that an order left are still open.
pub proof fn lemma_lose_open(books: Seq<(KeyV, BookV)>, key: KeyV, id: u64)
    requires
        books_open(books),
        holds(books, key),
    ensures
        books_open(stored(books, key, canceled(value_at(books, key), id))),
{
    let b = value_at(books, key);
    let i = slot(books, key);
    assert(all_open(books[i].1.bids) && all_open(books[i].1.asks));
    lemma_without_open(b.bids, id);
    lemma_without_open(b.asks, id);
    let after = stored(books, key, canceled(b, id));
    assert forall|j: int| 0 <= j < after.len() implies all_open((#[trigger] after[j]).1.bids)
        && all_open(after[j].1.asks) by {
        if j != i {
            assert(after[j] == books[j]);
        }
    }
}

proof fn lemma_without_open(q: Seq<EntryV>, id: u64)
    requires
        all_open(q),
    ensures
        all_open(without(q, id)),
{
    if has_id(q, id) {
        let k = place_of(q, id);
        let after = q.remove(k);
        assert forall|i: int| 0 <= i < after.len() implies (#[trigger] after[i]).open > 0 by {
            if i < k {
                assert(after[i] == q[i]);
            } else {
                assert(after[i] == q[i + 1]);
            }
        }
    }
}

/// Under the rejecting policy, a modified order that is matched again never
/// trades with an order of its own gridpool.
pub proof fn modified_orders_do_not_trade_with_their_gridpool(
    w: WorldV,
    pool: u64,
    id: u64,
    u: UpdateV,
    now: Timestamp,
    i: int,
)
    requires
        in_order(w),
        modify_rejection(w, pool, id, u, now) is None,
        value_at(w.gridpools, pool).self_trade_policy == SelfTradePolicy::Reject,
        !stays_put(w, pool, id, u),
        0 <= i < rematch_of(update_applied(w, pool, id, u, now), pool, id).fills.len(),
    ensures
        !bound_to(
            w,
            rematch_of(update_applied(w, pool, id, u, now), pool, id).fills[i].maker_id,
            pool,
        ),
{
    let d0 = detail_at(w, pool, id);
    lemma_detail_id(w, pool, id);
    let d = detail_updated(d0, u, now);
    let key = key_of(d0.order);
    let side = d0.order.side;
    let v = update_applied(w, pool, id, u, now);
    lemma_rematched_links(w, pool, id, u, now);
    assert(bound_to(w, id, pool) && in_place(w, pool, id));
    let x = EntryV { id, price: d0.order.price, open: d0.open_quantity };
    let b = book_at(w.books, key);
    lemma_contains_has_id(queue_of(b, side), x);
    lemma_book_at_wf(w.books, key);
    lemma_not_on_both_sides(b, side, id);
    lemma_stored(w.books, key, canceled(b, id));
    let q = opposite(w.books, key, side);
    assert(book_at(v.books, key) == canceled(b, id));
    assert(opposite(v.books, key, side) == q);
    assert(detail_at(v, pool, id) == d) by {
        let off = WorldV {
            owners: w.owners.remove(id),
            books: stored(w.books, key, canceled(value_at(w.books, key), id)),
            ..w
        };
        lemma_stored_lose(w.books, key, id);
        lemma_put(off, pool, d);
        assert(v == detail_put(off, pool, d));
    }
    lemma_swept_single(w.books, key, side, d.order.price, d.open_quantity);
    let taken = sweep(side, d.order.price, d.open_quantity, q).taken;
    let takes = takes_on(key, taken);
    assert(!takes_from_pool(w, takes, pool));
    assert(takes[i].entry.id == taken[i].0.id);
}

/// Modifying an order keeps books and orders in agreement.
pub proof fn modifying_keeps_links(w: WorldV, pool: u64, id: u64, u: UpdateV, now: Timestamp)
    requires
        world_wf(w),
        books_open(w.books),
        linked(w),
        modify_objection(w, pool, id, u, now) is None,
    ensures
        in_order(modified(w, pool, id, u, now)),
{
    let r = modified(w, pool, id, u, now);
    let mid = reworked(w, pool, id, u, now);
    if stays_put(w, pool, id, u) {
        lemma_in_place_links(w, pool, id, u, now);
    } else {
        lemma_rematched_links(w, pool, id, u, now);
    }
    lemma_links_same(mid, r, None);
    lemma_reworked_open(w, pool, id, u, now);
}

/// Modifying an order keeps what is filled and what is open of every order
/// making up its quantity.
pub proof fn modifying_keeps_accounts(w: WorldV, pool: u64, id: u64, u: UpdateV, now: Timestamp)
    requires
        world_wf(w),
        books_open(w.books),
        linked(w),
        accounted(w),
        modify_objection(w, pool, id, u, now) is None,
    ensures
        accounted(modified(w, pool, id, u, now)),
{
    let r = modified(w, pool, id, u, now);
    if stays_put(w, pool, id, u) {
        let d = detail_at(w, pool, id);
        let after = detail_updated(d, u, now);
        lemma_detail_id(w, pool, id);
        lemma_put_accounted(w, pool, after);
        lemma_same_pools_accounted(detail_put(w, pool, after), r);
    } else {
        lemma_rematched_links(w, pool, id, u, now);
        lemma_same_pools_accounted(
            rematched(update_applied(w, pool, id, u, now), pool, id, now),
            r,
        );
    }
}

/// Letting orders expire keeps what is filled and what is open of every order
/// making up its quantity.
pub proof fn expiry_keeps_accounts(w: WorldV, now: Timestamp)
    requires
        world_wf(w),
        accounted(w),
    ensures
        accounted(expired(w, now)),
{
    let r = expired(w, now);
    assert forall|p: u64, id: u64| #[trigger] on_pool(r, p, id) implies adds_up(
        detail_at(r, p, id),
    ) by {
        nothing_lapsed_stays_open(w, now, p, id);
        assert(on_pool(w, p, id));
    }
}

/// An update that names less quantity, or only a tag, leaves an order, and
/// everybody else on its book, in its place in the queue.
pub proof fn smaller_updates_keep_their_place(
    w: WorldV,
    pool: u64,
    id: u64,
    u: UpdateV,
    now: Timestamp,
    side: Side,
    i: int,
)
    requires
        world_wf(w),
        linked(w),
        modify_objection(w, pool, id, u, now) is None,
        keeps_priority(detail_at(w, pool, id), u),
        updated_total(detail_at(w, pool, id), u) > detail_at(w, pool, id).filled_quantity,
    ensures
        ({
            let key = key_of(detail_at(w, pool, id).order);
            let before = queue_of(book_at(w.books, key), side);
            let after = queue_of(book_at(modified(w, pool, id, u, now).books, key), side);
            &&& after.len() == before.len()
            &&& 0 <= i < before.len() ==> after[i].id == before[i].id && after[i].price
                == before[i].price
        }),
{
    let d = detail_at(w, pool, id);
    let key = key_of(d.order);
    assert(bound_to(w, id, pool) && in_place(w, pool, id));
    let x = EntryV { id, price: d.order.price, open: d.open_quantity };
    lemma_contains_has_id(queue_of(book_at(w.books, key), d.order.side), x);
    lemma_side_rests(book_at(w.books, key), d.order.side, id);
    assert(stays_put(w, pool, id, u));
    let open = updated_total(d, u) - d.filled_quantity;
    lemma_stored(w.books, key, resized(value_at(w.books, key), id, open));
}

} // verus!
