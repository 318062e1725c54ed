//! What is left of orders that were canceled or ran out of time.

use crate::book::{canceled, empty_book, has_id, queue_of, rests, EntryV};
use crate::expiring::{
    all_on_pools, expiry_is_idempotent, lemma_all_expired, lemma_books_swept, lemma_expiries_lapsed,
    lemma_expiries_on, lemma_lapsed_listed, listed, nothing_lapsed_stays_open,
};
use crate::lifecycle::{lemma_book_with, lemma_canceled_details};
use crate::linkage::{
    expiry_keeps_links, in_order, in_place, lemma_all_expired_links, lemma_contains_has_id,
    lemma_side_rests, lemma_stored_lose, lemma_without_lose, linked,
};
use crate::model::{
    all_expired, book_at, book_with, books_swept, books_without, bound_to, cancel_objection,
    detail_at, detail_expired, expired, expired_count, expiries, key_of, lapsed, on_pool,
    order_canceled, rests_at_home, world_wf, Expiry, KeyV, SubmitError, WorldV,
};
use crate::order::{terminal, DetailV, MarketActor, OrderState, Side, StateDetail, StateReason};
use crate::table::{holds, lemma_slot, slot, stored, value_at};
use crate::time::Timestamp;
use crate::upkeep::{lemma_cancel_thins, lemma_expiry_thins};
use vstd::prelude::*;

verus! {

/// Canceling an order of an exchange in agreement takes it off every book and
/// out of its binding. It stays with its gridpool, with its quantities, as
/// canceled by this actor now, and cannot be canceled again. No other order
/// is touched, on the books, in the bindings or with the gridpools.
pub proof fn canceled_orders_are_off_the_books(
    w: WorldV,
    pool: u64,
    id: u64,
    actor: MarketActor,
    now: Timestamp,
)
    requires
        world_wf(w),
        linked(w),
        cancel_objection(w, pool, id) is None,
    ensures
        ({
            let after = order_canceled(w, pool, id, actor, now);
            let d = detail_at(w, pool, id);
            &&& forall|k: KeyV| !rests(#[trigger] book_at(after.books, k), id)
            &&& after.owners == w.owners.remove(id)
            &&& on_pool(after, pool, id)
            &&& detail_at(after, pool, id) == (DetailV {
                state: StateDetail {
                    state: OrderState::Canceled,
                    reason: StateReason::Delete,
                    actor,
                },
                modification_time: now,
                ..d
            })
            &&& cancel_objection(after, pool, id) == Some(SubmitError::OrderAlreadyTerminal)
            &&& forall|k: KeyV, side: Side, e: EntryV|
                e.id != id ==> (#[trigger] queue_of(book_at(after.books, k), side).contains(e)
                    <==> queue_of(book_at(w.books, k), side).contains(e))
            &&& forall|p: u64, i: u64|
                p != pool || i != id ==> (#[trigger] on_pool(after, p, i) <==> on_pool(w, p, i))
            &&& forall|p: u64, i: u64|
                (p != pool || i != id) && on_pool(w, p, i) ==> #[trigger] detail_at(after, p, i)
                    == detail_at(w, p, i)
        }),
{
    let after = order_canceled(w, pool, id, actor, now);
    let d = detail_at(w, pool, id);
    lemma_canceled_details(w, pool, id, actor, now);
    lemma_bound_is_home(w, pool, id);
    let home = key_of(d.order);
    lemma_book_with(w.books, id, 0);
    assert(rests(w.books[slot(w.books, home)].1, id));
    let i = book_with(w.books, id, 0)->0;
    lemma_slot(w.books, w.books[i].0, i);
    assert(rests(book_at(w.books, w.books[i].0), id));
    assert(w.books[i].0 == home);
    lemma_without_lose(w.books, i, id);
    lemma_stored_lose(w.books, home, id);
    assert(after.books == books_without(w.books, i, id));
    assert forall|k: KeyV| !rests(#[trigger] book_at(after.books, k), id) by {
        if rests(book_at(after.books, k), id) {
            assert(rests(book_at(w.books, k), id));
            assert(k == home);
        }
    }
    lemma_cancel_thins(w, pool, id, actor, now);
    assert forall|k: KeyV, side: Side, e: EntryV| e.id != id implies (#[trigger] queue_of(
        book_at(after.books, k),
        side,
    ).contains(e) <==> queue_of(book_at(w.books, k), side).contains(e)) by {}
}

/// An order that is bound, on an exchange in agreement, rests on its own
/// contract's book and on no other.
proof fn lemma_bound_is_home(w: WorldV, pool: u64, id: u64)
    requires
        world_wf(w),
        linked(w),
        on_pool(w, pool, id),
        !terminal(detail_at(w, pool, id).state.state),
    ensures
        ({
            let home = key_of(detail_at(w, pool, id).order);
            &&& bound_to(w, id, pool)
            &&& holds(w.books, home)
            &&& rests(value_at(w.books, home), id)
            &&& forall|k: KeyV| rests(#[trigger] book_at(w.books, k), id) ==> k == home
        }),
{
    let d = detail_at(w, pool, id);
    let home = key_of(d.order);
    assert(bound_to(w, id, pool));
    assert(in_place(w, pool, id));
    let x = EntryV { id, price: d.order.price, open: d.open_quantity };
    lemma_contains_has_id(queue_of(book_at(w.books, home), d.order.side), x);
    lemma_side_rests(book_at(w.books, home), d.order.side, id);
    assert(holds(w.books, home));
    assert forall|k: KeyV| rests(#[trigger] book_at(w.books, k), id) implies k == home by {
        assert(rests(book_at(w.books, home), id));
    }
}

/// One of the listed orders has this id.
spec fn id_listed(list: Seq<Expiry>, id: u64) -> bool {
    exists|j: int| 0 <= j < list.len() && (#[trigger] list[j]).id == id
}

/// What expiring a list of open orders does to the books: those orders leave
/// them, all others stay.
proof fn lemma_all_expired_books(w: WorldV, list: Seq<Expiry>, now: Timestamp)
    requires
        world_wf(w),
        linked(w),
        forall|k: int|
            0 <= k < list.len() ==> on_pool(w, (#[trigger] list[k]).pool, list[k].id)
                && !terminal(detail_at(w, list[k].pool, list[k].id).state.state) && list[k].key
                == key_of(detail_at(w, list[k].pool, list[k].id).order),
    ensures
        ({
            let after = all_expired(w, list, now);
            &&& forall|k: KeyV, side: Side, x: EntryV|
                !id_listed(list, x.id) && queue_of(book_at(w.books, k), side).contains(x)
                    ==> #[trigger] queue_of(book_at(after.books, k), side).contains(x)
            &&& forall|k: KeyV, id: u64|
                id_listed(list, id) ==> !(#[trigger] rests(book_at(after.books, k), id))
            &&& forall|k: KeyV, id: u64| #[trigger]
                rests(book_at(after.books, k), id) ==> rests(book_at(w.books, k), id)
        }),
    decreases list.len(),
{
    if list.len() > 0 {
        let some = list.drop_last();
        let e = list.last();
        assert(e == list[list.len() - 1]);
        assert forall|k: int| 0 <= k < some.len() implies on_pool(
            w,
            (#[trigger] some[k]).pool,
            some[k].id,
        ) && !terminal(detail_at(w, some[k].pool, some[k].id).state.state) && some[k].key
            == key_of(detail_at(w, some[k].pool, some[k].id).order) by {
            assert(some[k] == list[k]);
        }
        assert(all_on_pools(w, some));
        lemma_all_expired_books(w, some, now);
        lemma_all_expired_links(w, some, now);
        lemma_all_expired(w, some, now);
        let before = all_expired(w, some, now);
        let after = all_expired(w, list, now);
        assert(on_pool(before, e.pool, e.id));
        assert(detail_at(before, e.pool, e.id).order == detail_at(w, e.pool, e.id).order);
        if listed(some, e.pool, e.id) {
            let j = choose|j: int|
                0 <= j < some.len() && (#[trigger] some[j]).pool == e.pool && some[j].id == e.id;
            assert(id_listed(some, e.id));
            if rests_at_home(before, e.pool, e.id, e.key) {
                assert(rests(book_at(before.books, e.key), e.id));
            }
            assert(after.books == before.books);
        } else {
            assert(detail_at(before, e.pool, e.id) == detail_at(w, e.pool, e.id));
            lemma_bound_is_home(before, e.pool, e.id);
            assert(rests_at_home(before, e.pool, e.id, e.key));
            lemma_stored_lose(before.books, e.key, e.id);
            assert(after.books == stored(
                before.books,
                e.key,
                canceled(value_at(before.books, e.key), e.id),
            ));
        }
        assert forall|k: KeyV, id: u64| id_listed(list, id) implies !(#[trigger] rests(
            book_at(after.books, k),
            id,
        )) by {
            if rests(book_at(after.books, k), id) {
                assert(rests(book_at(before.books, k), id));
                let j = choose|j: int| 0 <= j < list.len() && (#[trigger] list[j]).id == id;
                if j < some.len() {
                    assert(some[j].id == id);
                    assert(id_listed(some, id));
                } else if !listed(some, e.pool, e.id) {
                    assert(k == e.key);
                } else {
                    assert(id_listed(some, id));
                }
            }
        }
        assert forall|k: KeyV, side: Side, x: EntryV|
            !id_listed(list, x.id) && queue_of(book_at(w.books, k), side).contains(
                x,
            ) implies #[trigger] queue_of(book_at(after.books, k), side).contains(x) by {
            if id_listed(some, x.id) {
                let j = choose|j: int| 0 <= j < some.len() && (#[trigger] some[j]).id == x.id;
                assert(list[j].id == x.id);
            }
            assert(queue_of(book_at(before.books, k), side).contains(x));
            assert(list[list.len() - 1].id == e.id);
            assert(x.id != e.id);
        }
        assert forall|k: KeyV, id: u64| #[trigger]
            rests(book_at(after.books, k), id) implies rests(book_at(w.books, k), id) by {
            assert(rests(book_at(before.books, k), id));
        }
    }
}

/// The order belongs to a gridpool and is past its time.
pub open spec fn overdue(w: WorldV, id: u64, now: Timestamp) -> bool {
    w.owners.contains_key(id) && lapsed(detail_at(w, w.owners[id], id), now)
}

/// Letting orders expire, on an exchange in agreement, clears the books of
/// what is past its time: the book of a contract that is past its gate is
/// empty; every other book loses exactly the gridpools' orders that are
/// overdue. With the gridpools those orders are expired, and all others are
/// as they were. Doing it again at the same time changes nothing and counts
/// nothing, and books and orders still agree.
pub proof fn expiry_clears_the_books(w: WorldV, now: Timestamp)
    requires
        world_wf(w),
        linked(w),
    ensures
        ({
            let end = expired(w, now);
            &&& forall|k: KeyV|
                k.period.start.at_or_earlier(now) ==> #[trigger] book_at(end.books, k)
                    == empty_book()
            &&& forall|k: KeyV, side: Side, e: EntryV|
                !k.period.start.at_or_earlier(now) ==> (#[trigger] queue_of(
                    book_at(end.books, k),
                    side,
                ).contains(e) <==> queue_of(book_at(w.books, k), side).contains(e) && !overdue(
                    w,
                    e.id,
                    now,
                ))
            &&& forall|p: u64, id: u64| #[trigger] on_pool(end, p, id) <==> on_pool(w, p, id)
            &&& forall|p: u64, id: u64|
                on_pool(w, p, id) ==> #[trigger] detail_at(end, p, id) == if lapsed(
                    detail_at(w, p, id),
                    now,
                ) {
                    detail_expired(detail_at(w, p, id), now)
                } else {
                    detail_at(w, p, id)
                }
            &&& expired(end, now) == end
            &&& expired_count(end, now) == 0
            &&& linked(end)
            &&& in_order(w) ==> in_order(end)
        }),
{
    let end = expired(w, now);
    let list = expiries(w.gridpools, now, w.gridpools.len());
    assert forall|k: int| 0 <= k < list.len() implies on_pool(
        w,
        (#[trigger] list[k]).pool,
        list[k].id,
    ) && !terminal(detail_at(w, list[k].pool, list[k].id).state.state) && list[k].key == key_of(
        detail_at(w, list[k].pool, list[k].id).order,
    ) by {
        lemma_expiries_lapsed(w, now, w.gridpools.len(), k);
    }
    lemma_all_expired_books(w, list, now);
    lemma_expiries_on(w, now, w.gridpools.len());
    lemma_all_expired(w, list, now);
    let w1 = all_expired(w, list, now);
    lemma_books_swept(w1, now, w1.books.len());
    expiry_keeps_links(w, now);
    expiry_is_idempotent(w, now);
    lemma_expiry_thins(w, now);
    assert forall|p: u64, id: u64| #[trigger] on_pool(end, p, id) <==> on_pool(w, p, id) by {
        assert(on_pool(w1, p, id) <==> on_pool(w, p, id));
        assert(on_pool(end, p, id) <==> on_pool(w1, p, id));
    }
    assert forall|p: u64, id: u64| on_pool(w, p, id) implies #[trigger] detail_at(end, p, id)
        == if lapsed(detail_at(w, p, id), now) {
        detail_expired(detail_at(w, p, id), now)
    } else {
        detail_at(w, p, id)
    } by {
        assert(on_pool(end, p, id));
        nothing_lapsed_stays_open(w, now, p, id);
    }
    assert forall|k: KeyV| k.period.start.at_or_earlier(now) implies #[trigger] book_at(
        end.books,
        k,
    ) == empty_book() by {
        if holds(end.books, k) {
            let i = slot(end.books, k);
            let b = end.books[i].1;
            assert(end.books[i].0 == k);
            if b.bids.len() > 0 {
                assert(has_id(b.bids, b.bids[0].id));
                assert(rests(end.books[i].1, b.bids[0].id));
            }
            if b.asks.len() > 0 {
                assert(has_id(b.asks, b.asks[0].id));
                assert(rests(end.books[i].1, b.asks[0].id));
            }
            assert(b.bids =~= Seq::<EntryV>::empty());
            assert(b.asks =~= Seq::<EntryV>::empty());
        }
    }
    assert forall|k: KeyV, side: Side, e: EntryV|
        !k.period.start.at_or_earlier(now) implies (#[trigger] queue_of(
        book_at(end.books, k),
        side,
    ).contains(e) <==> queue_of(book_at(w.books, k), side).contains(e) && !overdue(
        w,
        e.id,
        now,
    )) by {
        lemma_ungated_book(w1, end, k, now);
        if queue_of(book_at(end.books, k), side).contains(e) {
            assert(queue_of(book_at(w.books, k), side).contains(e));
            lemma_contains_has_id(queue_of(book_at(w1.books, k), side), e);
            lemma_side_rests(book_at(w1.books, k), side, e.id);
            if overdue(w, e.id, now) {
                let p = w.owners[e.id];
                assert(on_pool(w, p, e.id));
                lemma_lapsed_listed(w, now, p, e.id);
                let j = choose|j: int|
                    0 <= j < list.len() && (#[trigger] list[j]).pool == p && list[j].id == e.id;
                assert(id_listed(list, e.id));
            }
        }
        if queue_of(book_at(w.books, k), side).contains(e) && !overdue(w, e.id, now) {
            if id_listed(list, e.id) {
                let j = choose|j: int| 0 <= j < list.len() && (#[trigger] list[j]).id == e.id;
                lemma_expiries_lapsed(w, now, w.gridpools.len(), j);
                assert(bound_to(w, e.id, list[j].pool));
            }
            assert(queue_of(book_at(w1.books, k), side).contains(e));
        }
    }
}

/// The sweep of the gated books leaves the others as they are.
proof fn lemma_ungated_book(w: WorldV, end: WorldV, k: KeyV, now: Timestamp)
    requires
        world_wf(w),
        end == books_swept(w, now, w.books.len()),
        !k.period.start.at_or_earlier(now),
    ensures
        book_at(end.books, k) == book_at(w.books, k),
{
    lemma_books_swept(w, now, w.books.len());
    if holds(w.books, k) {
        let i = slot(w.books, k);
        assert(w.books[i].0 == k);
        assert(end.books[i].0 == k);
        lemma_slot(end.books, k, i);
        assert(end.books[i].1 == w.books[i].1);
    } else if holds(end.books, k) {
        let i = slot(end.books, k);
        assert(end.books[i].0 == k);
        assert(w.books[i].0 == k);
        lemma_slot(w.books, k, i);
    }
}

} // verus!
