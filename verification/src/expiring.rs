//! What letting orders expire does.

use crate::book::{
    book_wf, cancel_touches_one_order, canceled, has_id, lemma_canceled_wf, place_of, rests, BookV,
    EntryV,
};
use crate::gridpool::{pool_wf, PoolV};
use crate::ledger::{lemma_detail_id, lemma_put, lemma_stored_books_wf, lemma_without_wf};
use crate::model::{
    all_expired, books_swept, bound_to, detail_at, detail_expired, detail_put, entries_of,
    entries_swept, expired, expired_count, expiries, key_of, lapsed, on_pool, one_expired,
    owners_known, pool_expiries, rests_at_home, swept_count, unowned, world_wf, Expiry, KeyV,
    WorldV,
};
use crate::order::Side;
use crate::table::{holds, lemma_slot, slot, stored, value_at};
use crate::time::Timestamp;
use vstd::prelude::*;

verus! {

/// Every listed order is on its gridpool.
pub open spec fn all_on_pools(w: WorldV, list: Seq<Expiry>) -> bool {
    forall|i: int| 0 <= i < list.len() ==> on_pool(w, (#[trigger] list[i]).pool, list[i].id)
}

/// The lapsed orders of one gridpool are on it.
pub proof fn lemma_pool_expiries_on(w: WorldV, i: int, now: Timestamp, n: nat)
    requires
        world_wf(w),
        0 <= i < w.gridpools.len(),
        n <= w.gridpools[i].1.orders.len(),
    ensures
        all_on_pools(w, pool_expiries(w.gridpools[i].1, now, n)),
    decreases n,
{
    if n > 0 {
        lemma_pool_expiries_on(w, i, now, (n - 1) as nat);
        let p = w.gridpools[i].1;
        assert(w.gridpools[i].0 == p.id && pool_wf(p));
        lemma_slot(w.gridpools, p.id, i);
        assert(p.orders[n - 1].0 == p.orders[n - 1].1.id);
        lemma_slot(p.orders, p.orders[n - 1].1.id, n - 1);
        let before = pool_expiries(p, now, (n - 1) as nat);
        let all = pool_expiries(p, now, n);
        assert forall|k: int| 0 <= k < all.len() implies on_pool(
            w,
            (#[trigger] all[k]).pool,
            all[k].id,
        ) by {
            if k < before.len() {
                assert(all[k] == before[k]);
            }
        }
    }
}

/// The lapsed orders are on their gridpools.
pub proof fn lemma_expiries_on(w: WorldV, now: Timestamp, n: nat)
    requires
        world_wf(w),
        n <= w.gridpools.len(),
    ensures
        all_on_pools(w, expiries(w.gridpools, now, n)),
    decreases n,
{
    if n > 0 {
        lemma_expiries_on(w, now, (n - 1) as nat);
        lemma_pool_expiries_on(w, n - 1, now, w.gridpools[n - 1].1.orders.len());
        let before = expiries(w.gridpools, now, (n - 1) as nat);
        let own = pool_expiries(
            w.gridpools[n - 1].1,
            now,
            w.gridpools[n - 1].1.orders.len(),
        );
        let all = expiries(w.gridpools, now, n);
        assert forall|k: int| 0 <= k < all.len() implies on_pool(
            w,
            (#[trigger] all[k]).pool,
            all[k].id,
        ) by {
            if k < before.len() {
                assert(all[k] == before[k]);
            } else {
                assert(all[k] == own[k - before.len()]);
            }
        }
    }
}

/// What expiring one order keeps.
pub proof fn lemma_one_expired(w: WorldV, e: Expiry, now: Timestamp)
    requires
        world_wf(w),
        on_pool(w, e.pool, e.id),
    ensures
        world_wf(one_expired(w, e, now)),
        owners_known(w) ==> owners_known(one_expired(w, e, now)),
        forall|p: u64, id: u64| #[trigger]
            on_pool(one_expired(w, e, now), p, id) <==> on_pool(w, p, id),
        one_expired(w, e, now).books.len() == w.books.len(),
{
    let d = detail_at(w, e.pool, e.id);
    lemma_detail_id(w, e.pool, e.id);
    let after = detail_expired(d, now);
    let w1 = if bound_to(w, e.id, e.pool) {
        WorldV { owners: w.owners.remove(e.id), ..w }
    } else {
        w
    };
    let w2 = if rests_at_home(w, e.pool, e.id, e.key) {
        WorldV {
            books: stored(w1.books, e.key, canceled(value_at(w.books, e.key), e.id)),
            ..w1
        }
    } else {
        w1
    };
    if rests_at_home(w, e.pool, e.id, e.key) {
        let b = value_at(w.books, e.key);
        assert(book_wf(w.books[slot(w.books, e.key)].1));
        lemma_canceled_wf(b, e.id);
        lemma_stored_books_wf(w.books, e.key, canceled(b, e.id));
    }
    lemma_put(w2, e.pool, after);
    let put = detail_put(w2, e.pool, after);
    let end = one_expired(w, e, now);
    assert(end.gridpools == put.gridpools);
    assert forall|p: u64, id: u64| #[trigger] on_pool(end, p, id) <==> on_pool(w, p, id) by {
        assert(on_pool(end, p, id) == on_pool(put, p, id));
        assert(on_pool(w2, p, id) == on_pool(w, p, id));
    }
    if owners_known(w) {
        assert forall|id: u64| #[trigger] end.owners.contains_key(id) implies holds(
            end.gridpools,
            end.owners[id],
        ) by {
            assert(w.owners.contains_key(id));
            assert(holds(w2.gridpools, w.owners[id]));
        }
    }
}

/// What sweeping a gated book keeps.
pub proof fn lemma_entries_swept(
    w: WorldV,
    i: int,
    entries: Seq<(EntryV, Side)>,
    now: Timestamp,
    n: nat,
)
    requires
        world_wf(w),
        0 <= i < w.books.len(),
        n <= entries.len(),
    ensures
        ({
            let key = w.books[i].0;
            let end = entries_swept(w, key, entries, now, n);
            &&& world_wf(end)
            &&& end.owners == w.owners
            &&& end.gridpools == w.gridpools
            &&& end.books.len() == w.books.len()
            &&& forall|j: int|
                0 <= j < w.books.len() ==> (#[trigger] end.books[j]).0 == w.books[j].0
            &&& forall|j: int|
                0 <= j < w.books.len() && j != i ==> (#[trigger] end.books[j]) == w.books[j]
        }),
    decreases n,
{
    if n > 0 {
        lemma_entries_swept(w, i, entries, now, (n - 1) as nat);
        let key = w.books[i].0;
        let before = entries_swept(w, key, entries, now, (n - 1) as nat);
        let id = entries[n - 1].0.id;
        lemma_slot(before.books, key, i);
        lemma_without_wf(before.books, i, id);
    }
}

pub proof fn lemma_unowned_same(a: WorldV, b: WorldV, entries: Seq<(EntryV, Side)>, n: nat)
    requires
        a.owners == b.owners,
    ensures
        unowned(a, entries, n) == unowned(b, entries, n),
    decreases n,
{
    if n > 0 {
        lemma_unowned_same(a, b, entries, (n - 1) as nat);
    }
}

pub proof fn lemma_swept_count_grows(w: WorldV, now: Timestamp, i: nat, n: nat)
    requires
        i <= n,
    ensures
        swept_count(w, now, i) <= swept_count(w, now, n),
    decreases n - i,
{
    if i < n {
        lemma_swept_count_grows(w, now, i, (n - 1) as nat);
    }
}

/// What expiring one order does to the orders: the one is expired, the
/// others stay as they are.
proof fn lemma_one_expired_details(w: WorldV, e: Expiry, now: Timestamp)
    requires
        world_wf(w),
        on_pool(w, e.pool, e.id),
    ensures
        ({
            let after = one_expired(w, e, now);
            &&& detail_at(after, e.pool, e.id) == detail_expired(
                detail_at(w, e.pool, e.id),
                now,
            )
            &&& forall|p: u64, i: u64|
                (p != e.pool || i != e.id) && on_pool(w, p, i) ==> #[trigger] detail_at(
                    after,
                    p,
                    i,
                ) == detail_at(w, p, i)
        }),
{
    let d = detail_at(w, e.pool, e.id);
    lemma_detail_id(w, e.pool, e.id);
    let after = detail_expired(d, now);
    let w1 = if bound_to(w, e.id, e.pool) {
        WorldV { owners: w.owners.remove(e.id), ..w }
    } else {
        w
    };
    let w2 = if rests_at_home(w, e.pool, e.id, e.key) {
        WorldV {
            books: stored(w1.books, e.key, canceled(value_at(w.books, e.key), e.id)),
            ..w1
        }
    } else {
        w1
    };
    if rests_at_home(w, e.pool, e.id, e.key) {
        let b = value_at(w.books, e.key);
        assert(book_wf(w.books[slot(w.books, e.key)].1));
        lemma_canceled_wf(b, e.id);
        lemma_stored_books_wf(w.books, e.key, canceled(b, e.id));
    }
    lemma_put(w2, e.pool, after);
    let put = detail_put(w2, e.pool, after);
    let end = one_expired(w, e, now);
    assert(end.gridpools == put.gridpools);
    assert(detail_at(end, e.pool, e.id) == detail_at(put, e.pool, e.id));
    assert forall|p: u64, i: u64|
        (p != e.pool || i != e.id) && on_pool(w, p, i) implies #[trigger] detail_at(end, p, i)
        == detail_at(w, p, i) by {
        assert(on_pool(w2, p, i));
        assert(detail_at(end, p, i) == detail_at(put, p, i));
        assert(detail_at(w2, p, i) == detail_at(w, p, i));
    }
}

/// The order is on the list.
pub open spec fn listed(list: Seq<Expiry>, pool: u64, id: u64) -> bool {
    exists|i: int| 0 <= i < list.len() && (#[trigger] list[i]).pool == pool && list[i].id == id
}

/// What expiring a list of orders does: those on it are expired, all others
/// stay as they are.
pub proof fn lemma_all_expired(w: WorldV, list: Seq<Expiry>, now: Timestamp)
    requires
        world_wf(w),
        all_on_pools(w, list),
    ensures
        ({
            let after = all_expired(w, list, now);
            &&& world_wf(after)
            &&& owners_known(w) ==> owners_known(after)
            &&& forall|p: u64, i: u64| #[trigger] on_pool(after, p, i) <==> on_pool(w, p, i)
            &&& forall|p: u64, i: u64|
                on_pool(w, p, i) && !listed(list, p, i) ==> #[trigger] detail_at(after, p, i)
                    == detail_at(w, p, i)
            &&& forall|p: u64, i: u64|
                on_pool(w, p, i) && listed(list, p, i) ==> #[trigger] detail_at(after, p, i)
                    == detail_expired(detail_at(w, p, i), now)
        }),
    decreases list.len(),
{
    if list.len() > 0 {
        let some = list.drop_last();
        let e = list.last();
        assert(e == list[list.len() - 1]);
        assert forall|i: int| 0 <= i < some.len() implies on_pool(
            w,
            (#[trigger] some[i]).pool,
            some[i].id,
        ) by {
            assert(some[i] == list[i]);
        }
        lemma_all_expired(w, some, now);
        let before = all_expired(w, some, now);
        assert(on_pool(before, e.pool, e.id));
        lemma_one_expired(before, e, now);
        lemma_one_expired_details(before, e, now);
        let after = all_expired(w, list, now);
        assert forall|p: u64, i: u64| #[trigger] on_pool(after, p, i) <==> on_pool(w, p, i) by {
            assert(on_pool(before, p, i) <==> on_pool(w, p, i));
        }
        assert forall|p: u64, i: u64| on_pool(w, p, i) implies (!listed(list, p, i)
            ==> #[trigger] detail_at(after, p, i) == detail_at(w, p, i)) && (listed(list, p, i)
            ==> detail_at(after, p, i) == detail_expired(detail_at(w, p, i), now)) by {
            assert(on_pool(before, p, i));
            if listed(list, p, i) && !listed(some, p, i) {
                let k = choose|k: int|
                    0 <= k < list.len() && (#[trigger] list[k]).pool == p && list[k].id == i;
                if k < some.len() {
                    assert(some[k].pool == p && some[k].id == i);
                }
            }
            if listed(some, p, i) {
                let k = choose|k: int|
                    0 <= k < some.len() && (#[trigger] some[k]).pool == p && some[k].id == i;
                assert(list[k].pool == p && list[k].id == i);
            }
            if p == e.pool && i == e.id {
                assert(listed(list, p, i));
            }
        }
    }
}

/// Every lapsed order of a gridpool is found.
proof fn lemma_pool_expiries_found(p: PoolV, now: Timestamp, n: nat, j: int)
    requires
        0 <= j < n <= p.orders.len(),
        lapsed(p.orders[j].1, now),
    ensures
        listed(pool_expiries(p, now, n), p.id, p.orders[j].1.id),
    decreases n,
{
    let before = pool_expiries(p, now, (n - 1) as nat);
    let all = pool_expiries(p, now, n);
    if j == n - 1 {
        assert(all[before.len() as int].id == p.orders[j].1.id);
    } else {
        lemma_pool_expiries_found(p, now, (n - 1) as nat, j);
        let k = choose|k: int|
            0 <= k < before.len() && (#[trigger] before[k]).pool == p.id && before[k].id
                == p.orders[j].1.id;
        assert(all[k] == before[k]);
    }
}

proof fn lemma_expiries_found(
    pools: Seq<(u64, PoolV)>,
    now: Timestamp,
    n: nat,
    i: int,
    j: int,
)
    requires
        0 <= i < n <= pools.len(),
        0 <= j < pools[i].1.orders.len(),
        lapsed(pools[i].1.orders[j].1, now),
    ensures
        listed(expiries(pools, now, n), pools[i].1.id, pools[i].1.orders[j].1.id),
    decreases n,
{
    let before = expiries(pools, now, (n - 1) as nat);
    let own = pool_expiries(pools[n - 1].1, now, pools[n - 1].1.orders.len());
    let all = expiries(pools, now, n);
    let id = pools[i].1.orders[j].1.id;
    if i == n - 1 {
        lemma_pool_expiries_found(pools[i].1, now, pools[i].1.orders.len(), j);
        let k = choose|k: int|
            0 <= k < own.len() && (#[trigger] own[k]).pool == pools[i].1.id && own[k].id == id;
        assert(all[before.len() + k] == own[k]);
    } else {
        lemma_expiries_found(pools, now, (n - 1) as nat, i, j);
        let k = choose|k: int|
            0 <= k < before.len() && (#[trigger] before[k]).pool == pools[i].1.id && before[k].id
                == id;
        assert(all[k] == before[k]);
    }
}

/// Only lapsed orders are listed.
pub proof fn lemma_expiries_lapsed(w: WorldV, now: Timestamp, n: nat, k: int)
    requires
        world_wf(w),
        n <= w.gridpools.len(),
        0 <= k < expiries(w.gridpools, now, n).len(),
    ensures
        ({
            let e = expiries(w.gridpools, now, n)[k];
            on_pool(w, e.pool, e.id) && lapsed(detail_at(w, e.pool, e.id), now) && e.key == key_of(
                detail_at(w, e.pool, e.id).order,
            )
        }),
    decreases n,
{
    let before = expiries(w.gridpools, now, (n - 1) as nat);
    if k < before.len() {
        lemma_expiries_lapsed(w, now, (n - 1) as nat, k);
    } else {
        lemma_pool_expiries_lapsed(
            w,
            now,
            n - 1,
            w.gridpools[n - 1].1.orders.len(),
            k - before.len(),
        );
    }
}

proof fn lemma_pool_expiries_lapsed(w: WorldV, now: Timestamp, i: int, n: nat, k: int)
    requires
        world_wf(w),
        0 <= i < w.gridpools.len(),
        n <= w.gridpools[i].1.orders.len(),
        0 <= k < pool_expiries(w.gridpools[i].1, now, n).len(),
    ensures
        ({
            let e = pool_expiries(w.gridpools[i].1, now, n)[k];
            on_pool(w, e.pool, e.id) && lapsed(detail_at(w, e.pool, e.id), now) && e.key == key_of(
                detail_at(w, e.pool, e.id).order,
            )
        }),
    decreases n,
{
    let p = w.gridpools[i].1;
    let before = pool_expiries(p, now, (n - 1) as nat);
    if k < before.len() {
        lemma_pool_expiries_lapsed(w, now, i, (n - 1) as nat, k);
    } else {
        assert(w.gridpools[i].0 == p.id && pool_wf(p));
        lemma_slot(w.gridpools, p.id, i);
        assert(p.orders[n - 1].0 == p.orders[n - 1].1.id);
        lemma_slot(p.orders, p.orders[n - 1].1.id, n - 1);
    }
}

/// What sweeping the gated books keeps.
pub proof fn lemma_books_swept(w: WorldV, now: Timestamp, n: nat)
    requires
        world_wf(w),
        n <= w.books.len(),
    ensures
        ({
            let after = books_swept(w, now, n);
            &&& world_wf(after)
            &&& after.owners == w.owners
            &&& after.gridpools == w.gridpools
            &&& after.books.len() == w.books.len()
            &&& forall|j: int|
                0 <= j < w.books.len() ==> (#[trigger] after.books[j]).0 == w.books[j].0
            &&& forall|j: int|
                n <= j < w.books.len() ==> (#[trigger] after.books[j]) == w.books[j]
            &&& forall|j: int|
                0 <= j < n ==> (#[trigger] after.books[j]).1 == if w.books[j].0.period.start.at_or_earlier(
                now) {
                    kept(w, w.books[j].1, entries_of(w.books[j].1).len())
                } else {
                    w.books[j].1
                }
        }),
    decreases n,
{
    if n > 0 {
        lemma_books_swept(w, now, (n - 1) as nat);
        let before = books_swept(w, now, (n - 1) as nat);
        let (key, b) = w.books[n - 1];
        if key.period.start.at_or_earlier(now) {
            let entries = entries_of(b);
            assert(before.books[n - 1] == w.books[n - 1]);
            lemma_entries_swept(before, n - 1, entries, now, entries.len());
            lemma_entries_kept(before, n - 1, now, entries.len());
            lemma_kept_same(before, w, b, entries.len());
        }
    }
}

/// A book without those of its first `n` orders that belong to no gridpool.
pub open spec fn kept(w: WorldV, b: BookV, n: nat) -> BookV
    decreases n,
{
    if n == 0 {
        b
    } else {
        let before = kept(w, b, (n - 1) as nat);
        if w.owners.contains_key(entries_of(b)[n - 1].0.id) {
            before
        } else {
            canceled(before, entries_of(b)[n - 1].0.id)
        }
    }
}

proof fn lemma_kept_same(a: WorldV, b: WorldV, book: BookV, n: nat)
    requires
        a.owners == b.owners,
    ensures
        kept(a, book, n) == kept(b, book, n),
    decreases n,
{
    if n > 0 {
        lemma_kept_same(a, b, book, (n - 1) as nat);
    }
}

proof fn lemma_entries_kept(w: WorldV, i: int, now: Timestamp, n: nat)
    requires
        world_wf(w),
        0 <= i < w.books.len(),
        n <= entries_of(w.books[i].1).len(),
    ensures
        entries_swept(w, w.books[i].0, entries_of(w.books[i].1), now, n).books[i].1 == kept(
            w,
            w.books[i].1,
            n,
        ),
    decreases n,
{
    if n > 0 {
        let entries = entries_of(w.books[i].1);
        lemma_entries_kept(w, i, now, (n - 1) as nat);
        lemma_entries_swept(w, i, entries, now, (n - 1) as nat);
        let before = entries_swept(w, w.books[i].0, entries, now, (n - 1) as nat);
        lemma_slot(before.books, w.books[i].0, i);
    }
}

/// What is kept of a book belongs to a gridpool, once all its orders were
/// looked at.
proof fn lemma_kept(w: WorldV, b: BookV, n: nat, id: u64)
    requires
        book_wf(b),
        n <= entries_of(b).len(),
    ensures
        book_wf(kept(w, b, n)),
        rests(kept(w, b, n), id) ==> rests(b, id),
        rests(kept(w, b, n), id) && !w.owners.contains_key(id) ==> forall|j: int|
            0 <= j < n ==> (#[trigger] entries_of(b)[j]).0.id != id,
        rests(b, id) && w.owners.contains_key(id) ==> rests(kept(w, b, n), id),
    decreases n,
{
    if n > 0 {
        lemma_kept(w, b, (n - 1) as nat, id);
        let before = kept(w, b, (n - 1) as nat);
        let gone = entries_of(b)[n - 1].0.id;
        if !w.owners.contains_key(gone) {
            lemma_canceled_wf(before, gone);
            cancel_touches_one_order(before, gone, id);
            cancel_touches_one_order(before, gone, gone);
        }
    }
}

/// Every id that rests on a book is among its entries.
proof fn lemma_entries_complete(b: BookV, id: u64)
    requires
        rests(b, id),
    ensures
        exists|j: int| 0 <= j < entries_of(b).len() && (#[trigger] entries_of(b)[j]).0.id == id,
{
    if has_id(b.bids, id) {
        let k = place_of(b.bids, id);
        assert(entries_of(b)[k].0.id == id);
    } else {
        let k = place_of(b.asks, id);
        assert(entries_of(b)[b.bids.len() + k].0.id == id);
    }
}

/// An order that is past its time is among those to expire.
pub proof fn lemma_lapsed_listed(w: WorldV, now: Timestamp, pool: u64, id: u64)
    requires
        world_wf(w),
        on_pool(w, pool, id),
        lapsed(detail_at(w, pool, id), now),
    ensures
        listed(expiries(w.gridpools, now, w.gridpools.len()), pool, id),
{
    let i = slot(w.gridpools, pool);
    let orders = w.gridpools[i].1.orders;
    let j = slot(orders, id);
    assert(w.gridpools[i].0 == w.gridpools[i].1.id && pool_wf(w.gridpools[i].1));
    assert(orders[j].0 == orders[j].1.id);
    lemma_expiries_found(w.gridpools, now, w.gridpools.len(), i, j);
}

/// After the sweep no open order of any gridpool is past its time.
pub proof fn nothing_lapsed_stays_open(w: WorldV, now: Timestamp, pool: u64, id: u64)
    requires
        world_wf(w),
        on_pool(expired(w, now), pool, id),
    ensures
        !lapsed(detail_at(expired(w, now), pool, id), now),
        on_pool(w, pool, id),
        lapsed(detail_at(w, pool, id), now) ==> detail_at(expired(w, now), pool, id)
            == detail_expired(detail_at(w, pool, id), now),
        !lapsed(detail_at(w, pool, id), now) ==> detail_at(expired(w, now), pool, id)
            == detail_at(w, pool, id),
{
    let list = expiries(w.gridpools, now, w.gridpools.len());
    lemma_expiries_on(w, now, w.gridpools.len());
    lemma_all_expired(w, list, now);
    let w1 = all_expired(w, list, now);
    lemma_books_swept(w1, now, w1.books.len());
    let end = expired(w, now);
    assert(on_pool(w1, pool, id));
    assert(detail_at(end, pool, id) == detail_at(w1, pool, id));
    assert(on_pool(w, pool, id));
    let d = detail_at(w, pool, id);
    if lapsed(d, now) {
        lemma_lapsed_listed(w, now, pool, id);
    } else if listed(list, pool, id) {
        let k = choose|k: int|
            0 <= k < list.len() && (#[trigger] list[k]).pool == pool && list[k].id == id;
        lemma_expiries_lapsed(w, now, w.gridpools.len(), k);
    }
}

/// After the sweep every order left on a contract past its gate belongs to a
/// gridpool.
pub proof fn gated_books_hold_no_counterparty(w: WorldV, now: Timestamp, i: int, id: u64)
    requires
        world_wf(w),
        0 <= i < expired(w, now).books.len(),
        expired(w, now).books[i].0.period.start.at_or_earlier(now),
        rests(expired(w, now).books[i].1, id),
    ensures
        expired(w, now).owners.contains_key(id),
{
    let list = expiries(w.gridpools, now, w.gridpools.len());
    lemma_expiries_on(w, now, w.gridpools.len());
    lemma_all_expired(w, list, now);
    let w1 = all_expired(w, list, now);
    lemma_books_swept(w1, now, w1.books.len());
    let end = expired(w, now);
    assert(end.books[i].0 == w1.books[i].0);
    let b = w1.books[i].1;
    assert(book_wf(w1.books[i].1));
    assert(end.books[i].1 == kept(w1, b, entries_of(b).len()));
    lemma_kept(w1, b, entries_of(b).len(), id);
    lemma_entries_complete(b, id);
    if !w1.owners.contains_key(id) {
        let j = choose|j: int|
            0 <= j < entries_of(b).len() && (#[trigger] entries_of(b)[j]).0.id == id;
        assert(entries_of(b)[j].0.id != id);
    }
}

/// Letting orders expire twice at the same time does nothing the second time.
pub proof fn expiry_is_idempotent(w: WorldV, now: Timestamp)
    requires
        world_wf(w),
    ensures
        expired(expired(w, now), now) == expired(w, now),
        expired_count(expired(w, now), now) == 0,
{
    let list = expiries(w.gridpools, now, w.gridpools.len());
    lemma_expiries_on(w, now, w.gridpools.len());
    lemma_all_expired(w, list, now);
    let w1 = all_expired(w, list, now);
    lemma_books_swept(w1, now, w1.books.len());
    let end = expired(w, now);
    let again = expiries(end.gridpools, now, end.gridpools.len());
    if again.len() > 0 {
        lemma_expiries_lapsed(end, now, end.gridpools.len(), 0);
        let e = again[0];
        nothing_lapsed_stays_open(w, now, e.pool, e.id);
    }
    assert(all_expired(end, again, now) == end);
    assert forall|i: int, id: u64|
        0 <= i < end.books.len() && end.books[i].0.period.start.at_or_earlier(now)
            && #[trigger] rests(end.books[i].1, id) implies end.owners.contains_key(id) by {
        gated_books_hold_no_counterparty(w, now, i, id);
    }
    lemma_nothing_to_sweep(end, now, end.books.len());
}

/// Where every order on a gated book belongs to a gridpool, there is nothing
/// to sweep.
proof fn lemma_nothing_to_sweep(w: WorldV, now: Timestamp, n: nat)
    requires
        n <= w.books.len(),
        forall|i: int, id: u64|
            0 <= i < w.books.len() && w.books[i].0.period.start.at_or_earlier(now)
                && #[trigger] rests(w.books[i].1, id) ==> w.owners.contains_key(id),
    ensures
        books_swept(w, now, n) == w,
        swept_count(w, now, n) == 0,
    decreases n,
{
    if n > 0 {
        lemma_nothing_to_sweep(w, now, (n - 1) as nat);
        let (key, b) = w.books[n - 1];
        if key.period.start.at_or_earlier(now) {
            let entries = entries_of(b);
            assert forall|j: int| 0 <= j < entries.len() implies w.owners.contains_key(
                (#[trigger] entries[j]).0.id,
            ) by {
                let id = entries[j].0.id;
                if j < b.bids.len() {
                    assert(b.bids[j].id == id);
                } else {
                    assert(b.asks[j - b.bids.len()].id == id);
                }
                assert(rests(w.books[n - 1].1, id));
            }
            lemma_nothing_to_take(w, key, entries, now, entries.len());
        }
    }
}

proof fn lemma_nothing_to_take(
    w: WorldV,
    key: KeyV,
    entries: Seq<(EntryV, Side)>,
    now: Timestamp,
    n: nat,
)
    requires
        n <= entries.len(),
        forall|j: int|
            0 <= j < entries.len() ==> w.owners.contains_key((#[trigger] entries[j]).0.id),
    ensures
        entries_swept(w, key, entries, now, n) == w,
        unowned(w, entries, n) == 0,
    decreases n,
{
    if n > 0 {
        lemma_nothing_to_take(w, key, entries, now, (n - 1) as nat);
        assert(w.owners.contains_key(entries[n - 1].0.id));
    }
}

} // verus!
