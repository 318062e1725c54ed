//! What every step keeps of the books: nothing empty rests on them, and nothing
//! on them crosses.

use crate::book::{
    better, book_wf, canceled, crosses, has_id, lemma_canceled_wf, lemma_rank_bounds, place_of,
    queue_of, rank, resized, rests, side_of, with_queue, without, BookV, EntryV,
};
use crate::expiring::{
    all_on_pools, lemma_all_expired, lemma_books_swept, lemma_entries_swept, lemma_expiries_lapsed,
};
use crate::ledger::{lemma_book_at_wf, lemma_stored_books_wf};
use crate::lifecycle::{
    lemma_book_with, lemma_canceled_details, lemma_crossed_keeps, lemma_recorded_keeps,
};
use crate::linkage::{in_order, lemma_rematched_links};
use crate::matching::{all_open, book_never_crossed, matched, sweep, uncrossed, ExecMode};
use crate::model::{
    admitted, all_expired, book_at, book_with, books_swept, books_wf, books_without, bound_to,
    cancel_objection, counterparty_canceled, crossed, detail_at, detail_updated, entries_of,
    entries_swept, expired, expiries, keeps_priority, key_of, mode_of, modified, modify_objection,
    modify_rejection, on_pool, order_canceled, owners_known, rests_at_home, reworked, stays_put,
    submitted, update_applied, world_wf, Expiry, KeyV, UpdateV, WorldV,
};
use crate::order::{other_side, MarketActor, OrderV, Side};
use crate::sweeping::{books_are_never_crossed, books_open};
use crate::table::{distinct, holds, lemma_slot, lemma_stored, slot, stored, value_at};
use crate::time::Timestamp;
use vstd::prelude::*;

verus! {

/// Every order on the books after was on them before, as it is.
pub open spec fn thinned(before: Seq<(KeyV, BookV)>, after: Seq<(KeyV, BookV)>) -> bool {
    forall|k: KeyV, side: Side, e: EntryV| #[trigger]
        queue_of(book_at(after, k), side).contains(e) ==> queue_of(
            book_at(before, k),
            side,
        ).contains(e)
}

/// On no book could a resting order trade with one on the other side.
pub open spec fn all_uncrossed(books: Seq<(KeyV, BookV)>) -> bool {
    forall|k: KeyV| uncrossed(#[trigger] book_at(books, k))
}

/// Books that only lost orders are still open.
proof fn lemma_thinned_open(before: Seq<(KeyV, BookV)>, after: Seq<(KeyV, BookV)>)
    requires
        distinct(before),
        distinct(after),
        books_open(before),
        thinned(before, after),
    ensures
        books_open(after),
{
    assert forall|i: int| 0 <= i < after.len() implies all_open((#[trigger] after[i]).1.bids)
        && all_open(after[i].1.asks) by {
        let k = after[i].0;
        lemma_slot(after, k, i);
        let b = after[i].1;
        assert(book_at(after, k) == b);
        let was = book_at(before, k);
        if holds(before, k) {
            let j = slot(before, k);
            assert(all_open(before[j].1.bids) && all_open(before[j].1.asks));
        }
        assert(all_open(was.bids) && all_open(was.asks));
        assert forall|n: int| 0 <= n < b.bids.len() implies (#[trigger] b.bids[n]).open > 0 by {
            assert(queue_of(b, Side::Buy).contains(b.bids[n]));
            assert(queue_of(was, Side::Buy).contains(b.bids[n]));
        }
        assert forall|n: int| 0 <= n < b.asks.len() implies (#[trigger] b.asks[n]).open > 0 by {
            assert(queue_of(b, Side::Sell).contains(b.asks[n]));
            assert(queue_of(was, Side::Sell).contains(b.asks[n]));
        }
    }
}

/// Books that only lost orders are still uncrossed.
proof fn lemma_thinned_uncrossed(before: Seq<(KeyV, BookV)>, after: Seq<(KeyV, BookV)>)
    requires
        books_wf(before),
        thinned(before, after),
        all_uncrossed(before),
    ensures
        all_uncrossed(after),
{
    assert forall|k: KeyV| uncrossed(#[trigger] book_at(after, k)) by {
        let b = book_at(after, k);
        let was = book_at(before, k);
        lemma_book_at_wf(before, k);
        assert(uncrossed(was));
        if b.bids.len() > 0 && b.asks.len() > 0 {
            assert(queue_of(b, Side::Buy).contains(b.bids[0]));
            assert(queue_of(b, Side::Sell).contains(b.asks[0]));
            assert(queue_of(was, Side::Buy).contains(b.bids[0]));
            assert(queue_of(was, Side::Sell).contains(b.asks[0]));
            let i = choose|i: int| 0 <= i < was.bids.len() && was.bids[i] == b.bids[0];
            let j = choose|j: int| 0 <= j < was.asks.len() && was.asks[j] == b.asks[0];
            assert(!better(Side::Buy, was.bids[i].price, was.bids[0].price));
            assert(!better(Side::Sell, was.asks[j].price, was.asks[0].price));
        }
    }
}

proof fn lemma_thinned_further(
    a: Seq<(KeyV, BookV)>,
    b: Seq<(KeyV, BookV)>,
    c: Seq<(KeyV, BookV)>,
)
    requires
        thinned(a, b),
        thinned(b, c),
    ensures
        thinned(a, c),
{
    assert forall|k: KeyV, side: Side, e: EntryV| #[trigger]
        queue_of(book_at(c, k), side).contains(e) implies queue_of(book_at(a, k), side).contains(
        e,
    ) by {
        assert(queue_of(book_at(b, k), side).contains(e));
    }
}

proof fn lemma_without_within(q: Seq<EntryV>, id: u64, e: EntryV)
    requires
        without(q, id).contains(e),
    ensures
        q.contains(e),
{
    if has_id(q, id) {
        let k = place_of(q, id);
        let after = q.remove(k);
        let i = choose|i: int| 0 <= i < after.len() && after[i] == e;
        if i < k {
            assert(q[i] == e);
        } else {
            assert(q[i + 1] == e);
        }
    }
}

/// An order leaves one of the books.
proof fn lemma_leaving_thins(books: Seq<(KeyV, BookV)>, key: KeyV, id: u64)
    requires
        books_wf(books),
        holds(books, key),
    ensures
        thinned(books, stored(books, key, canceled(value_at(books, key), id))),
        books_wf(stored(books, key, canceled(value_at(books, key), id))),
{
    let b = value_at(books, key);
    let left = canceled(b, id);
    let after = stored(books, key, left);
    assert(book_wf(books[slot(books, key)].1));
    lemma_canceled_wf(b, id);
    lemma_stored_books_wf(books, key, left);
    lemma_stored(books, key, left);
    assert forall|k: KeyV, side: Side, e: EntryV| #[trigger]
        queue_of(book_at(after, k), side).contains(e) implies queue_of(
        book_at(books, k),
        side,
    ).contains(e) by {
        assert(holds(after, k) <==> holds(books, k) || k == key);
        if k == key {
            match side {
                Side::Buy => lemma_without_within(b.bids, id, e),
                Side::Sell => lemma_without_within(b.asks, id, e),
                Side::Unspecified => {},
            }
        } else if holds(books, k) {
            assert(value_at(after, k) == value_at(books, k));
        }
    }
}

/// The same, by the book's place.
proof fn lemma_leaving_thins_at(books: Seq<(KeyV, BookV)>, i: int, id: u64)
    requires
        books_wf(books),
        0 <= i < books.len(),
    ensures
        thinned(books, books_without(books, i, id)),
        books_wf(books_without(books, i, id)),
{
    let key = books[i].0;
    lemma_slot(books, key, i);
    lemma_leaving_thins(books, key, id);
    assert(books_without(books, i, id) == stored(books, key, canceled(value_at(books, key), id)));
}

/// Canceling an order only takes from the books.
pub proof fn lemma_cancel_thins(w: WorldV, pool: u64, id: u64, actor: MarketActor, now: Timestamp)
    requires
        world_wf(w),
        on_pool(w, pool, id),
    ensures
        thinned(w.books, order_canceled(w, pool, id, actor, now).books),
        world_wf(order_canceled(w, pool, id, actor, now)),
{
    lemma_canceled_details(w, pool, id, actor, now);
    lemma_book_with(w.books, id, 0);
    if bound_to(w, id, pool) && book_with(w.books, id, 0) is Some {
        lemma_leaving_thins_at(w.books, book_with(w.books, id, 0)->0, id);
    }
}

/// So does canceling a counterparty's.
pub proof fn lemma_counterparty_cancel_thins(w: WorldV, id: u64, now: Timestamp)
    requires
        world_wf(w),
    ensures
        thinned(w.books, counterparty_canceled(w, id, now).books),
        world_wf(counterparty_canceled(w, id, now)),
{
    lemma_book_with(w.books, id, 0);
    if book_with(w.books, id, 0) is Some {
        lemma_leaving_thins_at(w.books, book_with(w.books, id, 0)->0, id);
    }
}

proof fn lemma_expiries_thin(w: WorldV, list: Seq<Expiry>, now: Timestamp)
    requires
        world_wf(w),
        all_on_pools(w, list),
    ensures
        thinned(w.books, all_expired(w, list, now).books),
    decreases list.len(),
{
    if list.len() > 0 {
        let some = list.drop_last();
        let e = list.last();
        assert(e == list[list.len() - 1]);
        assert forall|i: int| 0 <= i < some.len() implies on_pool(
            w,
            (#[trigger] some[i]).pool,
            some[i].id,
        ) by {
            assert(some[i] == list[i]);
        }
        lemma_expiries_thin(w, some, now);
        lemma_all_expired(w, some, now);
        let before = all_expired(w, some, now);
        let after = all_expired(w, list, now);
        if rests_at_home(before, e.pool, e.id, e.key) {
            lemma_leaving_thins(before.books, e.key, e.id);
        }
        assert(thinned(before.books, after.books));
        lemma_thinned_further(w.books, before.books, after.books);
    }
}

proof fn lemma_entries_thin(
    w: WorldV,
    i: int,
    entries: Seq<(EntryV, Side)>,
    now: Timestamp,
    n: nat,
)
    requires
        world_wf(w),
        0 <= i < w.books.len(),
        n <= entries.len(),
    ensures
        thinned(w.books, entries_swept(w, w.books[i].0, entries, now, n).books),
    decreases n,
{
    if n > 0 {
        let key = w.books[i].0;
        lemma_entries_thin(w, i, entries, now, (n - 1) as nat);
        lemma_entries_swept(w, i, entries, now, (n - 1) as nat);
        let before = entries_swept(w, key, entries, now, (n - 1) as nat);
        let after = entries_swept(w, key, entries, now, n);
        let id = entries[n - 1].0.id;
        if !before.owners.contains_key(id) {
            assert(before.books[i].0 == key);
            lemma_slot(before.books, key, i);
            lemma_leaving_thins(before.books, key, id);
            lemma_thinned_further(w.books, before.books, after.books);
        }
    }
}

proof fn lemma_sweeps_thin(w: WorldV, now: Timestamp, n: nat)
    requires
        world_wf(w),
        n <= w.books.len(),
    ensures
        thinned(w.books, books_swept(w, now, n).books),
    decreases n,
{
    if n > 0 {
        lemma_sweeps_thin(w, now, (n - 1) as nat);
        lemma_books_swept(w, now, (n - 1) as nat);
        let before = books_swept(w, now, (n - 1) as nat);
        let (key, b) = w.books[n - 1];
        if key.period.start.at_or_earlier(now) {
            assert(before.books[n - 1].0 == key);
            lemma_entries_thin(before, n - 1, entries_of(b), now, entries_of(b).len());
            lemma_thinned_further(w.books, before.books, books_swept(w, now, n).books);
        }
    }
}

/// Letting orders expire only takes from the books.
pub proof fn lemma_expiry_thins(w: WorldV, now: Timestamp)
    requires
        world_wf(w),
    ensures
        thinned(w.books, expired(w, now).books),
        world_wf(expired(w, now)),
{
    let list = expiries(w.gridpools, now, w.gridpools.len());
    assert forall|k: int| 0 <= k < list.len() implies on_pool(
        w,
        (#[trigger] list[k]).pool,
        list[k].id,
    ) by {
        lemma_expiries_lapsed(w, now, w.gridpools.len(), k);
    }
    lemma_expiries_thin(w, list, now);
    lemma_all_expired(w, list, now);
    let w1 = all_expired(w, list, now);
    lemma_sweeps_thin(w1, now, w1.books.len());
    lemma_books_swept(w1, now, w1.books.len());
    lemma_thinned_further(w.books, w1.books, expired(w, now).books);
}

/// Books that only lost orders are as open and as uncrossed as before.
pub proof fn lemma_thinned(before: Seq<(KeyV, BookV)>, after: Seq<(KeyV, BookV)>)
    requires
        books_wf(before),
        books_wf(after),
        thinned(before, after),
    ensures
        books_open(before) ==> books_open(after),
        all_uncrossed(before) ==> all_uncrossed(after),
{
    if books_open(before) {
        lemma_thinned_open(before, after);
    }
    if all_uncrossed(before) {
        lemma_thinned_uncrossed(before, after);
    }
}

/// An order leaves a book, or changes its quantity on it: what is open stays
/// open, and nothing crosses that did not.
proof fn lemma_resized_books(books: Seq<(KeyV, BookV)>, key: KeyV, id: u64, open: int)
    requires
        books_wf(books),
        holds(books, key),
        rests(value_at(books, key), id),
        open >= 0,
    ensures
        books_open(books) ==> books_open(
            stored(books, key, resized(value_at(books, key), id, open)),
        ),
        all_uncrossed(books) ==> all_uncrossed(
            stored(books, key, resized(value_at(books, key), id, open)),
        ),
{
    let b = value_at(books, key);
    let nb = resized(b, id, open);
    let after = stored(books, key, nb);
    let at = slot(books, key);
    if open == 0 {
        lemma_leaving_thins(books, key, id);
        lemma_thinned(books, after);
    } else {
        lemma_stored(books, key, nb);
        let side = side_of(b, id);
        let q = queue_of(b, side);
        let i = place_of(q, id);
        assert(0 <= i < q.len() && q[i].id == id);
        if books_open(books) {
            assert(all_open(books[at].1.bids) && all_open(books[at].1.asks));
            assert forall|j: int| 0 <= j < after.len() implies all_open((#[trigger] after[j]).1.bids)
                && all_open(after[j].1.asks) by {
                if j != at {
                    assert(after[j] == books[j]);
                }
            }
        }
        if all_uncrossed(books) {
            assert forall|k: KeyV| uncrossed(#[trigger] book_at(after, k)) by {
                assert(holds(after, k) <==> holds(books, k) || k == key);
                assert(uncrossed(book_at(books, k)));
                if k != key && holds(books, k) {
                    assert(value_at(after, k) == value_at(books, k));
                }
            }
        }
    }
}

/// A matched order leaves its book open and uncrossed.
proof fn lemma_matched_books(
    books: Seq<(KeyV, BookV)>,
    key: KeyV,
    id: u64,
    side: Side,
    price: int,
    qty: int,
)
    requires
        books_wf(books),
        books_open(books),
        holds(books, key),
        qty > 0,
    ensures
        ({
            let after = stored(
                books,
                key,
                matched(book_at(books, key), id, side, price, qty, ExecMode::Resting).book,
            );
            &&& books_open(after)
            &&& all_uncrossed(books) ==> all_uncrossed(after)
        }),
{
    let b = book_at(books, key);
    let m = matched(b, id, side, price, qty, ExecMode::Resting);
    let after = stored(books, key, m.book);
    let at = slot(books, key);
    assert(all_open(books[at].1.bids) && all_open(books[at].1.asks));
    assert(book_wf(books[at].1));
    lemma_matched_open(b, id, side, price, qty);
    lemma_stored(books, key, m.book);
    assert forall|j: int| 0 <= j < after.len() implies all_open((#[trigger] after[j]).1.bids)
        && all_open(after[j].1.asks) by {
        if j != at {
            assert(after[j] == books[j]);
        }
    }
    if all_uncrossed(books) {
        assert(uncrossed(b));
        book_never_crossed(b, id, side, price, qty, ExecMode::Resting);
        assert forall|k: KeyV| uncrossed(#[trigger] book_at(after, k)) by {
            assert(holds(after, k) <==> holds(books, k) || k == key);
            assert(uncrossed(book_at(books, k)));
            if k != key && holds(books, k) {
                assert(value_at(after, k) == value_at(books, k));
            }
        }
    }
}

/// Nothing empty is left on a book that an order was matched on.
proof fn lemma_matched_open(b: BookV, id: u64, side: Side, price: int, qty: int)
    requires
        book_wf(b),
        all_open(b.bids),
        all_open(b.asks),
        qty > 0,
    ensures
        all_open(matched(b, id, side, price, qty, ExecMode::Resting).book.bids),
        all_open(matched(b, id, side, price, qty, ExecMode::Resting).book.asks),
{
    let q = queue_of(b, other_side(side));
    let s = sweep(side, price, qty, q);
    lemma_sweep_leaves_open(side, price, qty, q);
    let swept = with_queue(b, other_side(side), s.queue);
    if s.left > 0 && side != Side::Unspecified && !rests(swept, id) {
        let own = queue_of(swept, side);
        let e = EntryV { id, price, open: s.left };
        lemma_rank_bounds(side, own, price);
        let k = rank(side, own, price);
        let after = own.insert(k, e);
        assert forall|i: int| 0 <= i < after.len() implies (#[trigger] after[i]).open > 0 by {
            if i < k {
                assert(after[i] == own[i]);
            } else if i > k {
                assert(after[i] == own[i - 1]);
            }
        }
    }
}

proof fn lemma_sweep_leaves_open(side: Side, limit: int, qty: int, q: Seq<EntryV>)
    requires
        all_open(q),
    ensures
        all_open(sweep(side, limit, qty, q).queue),
    decreases q.len(),
{
    if !(qty <= 0 || q.len() == 0 || !crosses(side, limit, q[0].price)) {
        if q[0].open <= qty {
            let rest = q.drop_first();
            assert forall|i: int| 0 <= i < rest.len() implies (#[trigger] rest[i]).open > 0 by {
                assert(rest[i] == q[i + 1]);
            }
            lemma_sweep_leaves_open(side, limit, qty - q[0].open, rest);
        }
    }
}

/// Modifying an order leaves the books open and uncrossed.
pub proof fn lemma_reworked_open(w: WorldV, pool: u64, id: u64, u: UpdateV, now: Timestamp)
    requires
        in_order(w),
        modify_objection(w, pool, id, u, now) is None,
    ensures
        books_open(reworked(w, pool, id, u, now).books),
        all_uncrossed(w.books) ==> all_uncrossed(reworked(w, pool, id, u, now).books),
{
    let d0 = detail_at(w, pool, id);
    let d = detail_updated(d0, u, now);
    let key = key_of(d0.order);
    if stays_put(w, pool, id, u) {
        lemma_resized_books(w.books, key, id, d.open_quantity);
    } else {
        lemma_rematched_links(w, pool, id, u, now);
        let v = update_applied(w, pool, id, u, now);
        lemma_leaving_thins(w.books, key, id);
        lemma_thinned(w.books, v.books);
        lemma_stored(w.books, key, canceled(value_at(w.books, key), id));
        if d.open_quantity > 0 {
            lemma_matched_books(
                v.books,
                key,
                id,
                d.order.side,
                d.order.price,
                d.open_quantity,
            );
        }
    }
}

// ---------------------------------------------------------------------------
// What does not cross stays so
// ---------------------------------------------------------------------------

/// Where nothing crosses, nothing does after an order was admitted, whoever
/// handed it in.
pub proof fn admitting_leaves_books_uncrossed(
    w: WorldV,
    o: OrderV,
    pool: Option<u64>,
    now: Timestamp,
)
    requires
        world_wf(w),
        owners_known(w),
        books_open(w.books),
        all_uncrossed(w.books),
        pool matches Some(p) ==> holds(w.gridpools, p),
        o.quantity > 0,
    ensures
        all_uncrossed(admitted(w, o, pool, now).world.books),
        pool matches Some(p) ==> all_uncrossed(submitted(w, p, o, now).books),
{
    let a = admitted(w, o, pool, now);
    let numbered = WorldV { next_order_id: (w.next_order_id + 1) as u64, ..w };
    let mode = mode_of(o.execution_option);
    let c = crossed(numbered, a.taker, o.price, o.quantity, mode, now);
    lemma_crossed_keeps(numbered, a.taker, o.price, o.quantity, mode, now);
    lemma_recorded_keeps(c.world, a.taker, pool, c.takes, now);
    assert forall|k: KeyV| uncrossed(#[trigger] book_at(a.world.books, k)) by {
        assert(uncrossed(book_at(w.books, k)));
        books_are_never_crossed(numbered, a.taker, o.price, o.quantity, mode, now, k);
    }
}

/// Nor after an order was canceled, by whoever.
pub proof fn canceling_leaves_books_uncrossed(
    w: WorldV,
    pool: u64,
    id: u64,
    actor: MarketActor,
    now: Timestamp,
)
    requires
        world_wf(w),
        all_uncrossed(w.books),
        cancel_objection(w, pool, id) is None,
    ensures
        all_uncrossed(order_canceled(w, pool, id, actor, now).books),
{
    lemma_cancel_thins(w, pool, id, actor, now);
    lemma_thinned(w.books, order_canceled(w, pool, id, actor, now).books);
}

/// Nor after a counterparty's order was.
pub proof fn counterparty_cancels_leave_books_uncrossed(w: WorldV, id: u64, now: Timestamp)
    requires
        world_wf(w),
        all_uncrossed(w.books),
    ensures
        all_uncrossed(counterparty_canceled(w, id, now).books),
{
    lemma_counterparty_cancel_thins(w, id, now);
    lemma_thinned(w.books, counterparty_canceled(w, id, now).books);
}

/// Nor after orders expired.
pub proof fn expiry_leaves_books_uncrossed(w: WorldV, now: Timestamp)
    requires
        world_wf(w),
        all_uncrossed(w.books),
    ensures
        all_uncrossed(expired(w, now).books),
{
    lemma_expiry_thins(w, now);
    lemma_thinned(w.books, expired(w, now).books);
}

/// Nor after an order was modified, whatever its new terms.
pub proof fn modifying_leaves_books_uncrossed(
    w: WorldV,
    pool: u64,
    id: u64,
    u: UpdateV,
    now: Timestamp,
)
    requires
        in_order(w),
        all_uncrossed(w.books),
        modify_rejection(w, pool, id, u, now) is None,
    ensures
        all_uncrossed(modified(w, pool, id, u, now).books),
{
    lemma_reworked_open(w, pool, id, u, now);
}

/// An update that names anything but less quantity or a tag costs an order its
/// place: if it rests afterwards, it stands behind every order at its price,
/// and only worse prices stand behind it.
#[verifier::rlimit(60)]
pub proof fn other_updates_go_to_the_tail(
    w: WorldV,
    pool: u64,
    id: u64,
    u: UpdateV,
    now: Timestamp,
    i: int,
    j: int,
)
    requires
        in_order(w),
        modify_rejection(w, pool, id, u, now) is None,
        !keeps_priority(detail_at(w, pool, id), u),
        ({
            let d = detail_at(w, pool, id);
            let after = queue_of(
                book_at(modified(w, pool, id, u, now).books, key_of(d.order)),
                d.order.side,
            );
            0 <= i < j < after.len() && after[i].id == id
        }),
    ensures
        ({
            let d = detail_at(w, pool, id);
            let after = queue_of(
                book_at(modified(w, pool, id, u, now).books, key_of(d.order)),
                d.order.side,
            );
            better(d.order.side, after[i].price, after[j].price)
        }),
{
    let d0 = detail_at(w, pool, id);
    let d = detail_updated(d0, u, now);
    let key = key_of(d0.order);
    let side = d0.order.side;
    lemma_rematched_links(w, pool, id, u, now);
    let v = update_applied(w, pool, id, u, now);
    let r = reworked(w, pool, id, u, now);
    let after = queue_of(book_at(r.books, key), side);
    let b = book_at(v.books, key);
    lemma_book_at_wf(v.books, key);
    assert(!rests(b, id));
    if d.open_quantity > 0 {
        let m = matched(b, id, side, d.order.price, d.open_quantity, ExecMode::Resting);
        lemma_stored(v.books, key, m.book);
        assert(book_at(r.books, key) == m.book);
        let own = queue_of(b, side);
        let k = rank(side, own, d.order.price);
        lemma_rank_bounds(side, own, d.order.price);
        assert(after == own || after.len() == own.len() + 1);
        if after == own {
            assert(own[i].id != id);
        } else {
            if i < k {
                assert(after[i] == own[i]);
            } else if i > k {
                assert(after[i] == own[i - 1]);
            }
            assert(i == k);
            assert(after[j] == own[j - 1]);
        }
    } else {
        assert(after == queue_of(b, side));
        assert(after[i].id != id);
    }
}

} // verus!
