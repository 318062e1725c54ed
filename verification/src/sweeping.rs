//! What a sweep across the books of coupled areas does.

use crate::book::{
    better, book_wf, crosses, front_taken, inserted, lemma_front_taken_wf, lemma_inserted_wf,
    lemma_rank_bounds, lemma_unreachable, lesser, queue_of, rank, reachable, rests, sorted, total,
    with_queue, BookV, EntryV,
};
use crate::ledger::{lemma_book_at_wf, lemma_stored_books_wf};
use crate::matching::{all_open, lemma_total_insert, uncrossed, ExecMode};
use crate::model::{
    best_offer, book_at, books_taken, books_wf, candidates, coupled, crossed,
    lemma_resting_count_update, offers, open_neighbours, opposite, reachable_across, resting_count,
    swept, take_total, world_wf, KeyV, Take, Taker, WorldV,
};
use crate::order::{other_side, Side};
use crate::table::{distinct, holds, lemma_stored, slot, stored, value_at};
use crate::time::Timestamp;
use crate::volume::{
    best_offer_is_best, lemma_best_offer_valid, lemma_swept_step, lemma_take_total_first,
};
use vstd::prelude::*;

verus! {

/// Every resting quantity is positive.
pub open spec fn books_open(books: Seq<(KeyV, BookV)>) -> bool {
    forall|i: int|
        0 <= i < books.len() ==> all_open((#[trigger] books[i]).1.bids) && all_open(
            books[i].1.asks,
        )
}

/// What rests on one side of all the books.
pub open spec fn volume(books: Seq<(KeyV, BookV)>, side: Side) -> int
    decreases books.len(),
{
    if books.len() == 0 {
        0
    } else {
        volume(books.drop_last(), side) + total(queue_of(books.last().1, side))
    }
}

proof fn lemma_volume_update(books: Seq<(KeyV, BookV)>, i: int, row: (KeyV, BookV), side: Side)
    requires
        0 <= i < books.len(),
    ensures
        volume(books.update(i, row), side) == volume(books, side) - total(
            queue_of(books[i].1, side),
        ) + total(queue_of(row.1, side)),
    decreases books.len(),
{
    let after = books.update(i, row);
    if i == books.len() - 1 {
        assert(after.drop_last() =~= books.drop_last());
    } else {
        assert(after.drop_last() =~= books.drop_last().update(i, row));
        assert(after.last() == books.last());
        lemma_volume_update(books.drop_last(), i, row, side);
    }
}

/// The front of the far queue of a contract is no better than it was.
pub open spec fn front_no_better(
    before: Seq<(KeyV, BookV)>,
    after: Seq<(KeyV, BookV)>,
    key: KeyV,
    side: Side,
) -> bool {
    let p = opposite(before, key, side);
    let q = opposite(after, key, side);
    q.len() > 0 ==> p.len() > 0 && !better(other_side(side), q[0].price, p[0].price)
}

/// What one take does to the books.
pub proof fn lemma_taken(books: Seq<(KeyV, BookV)>, key: KeyV, side: Side, limit: int, qty: int)
    requires
        books_wf(books),
        books_open(books),
        offers(books, key, side, limit),
        qty > 0,
    ensures
        ({
            let after = books_taken(books, key, side, qty);
            let e = opposite(books, key, side)[0];
            let t = lesser(qty, e.open);
            &&& holds(books, key)
            &&& books_wf(after)
            &&& books_open(after)
            &&& 0 < t <= qty
            &&& t <= e.open
            &&& volume(after, other_side(side)) == volume(books, other_side(side)) - t
            &&& volume(after, side) == volume(books, side)
            &&& forall|k: KeyV| #[trigger]
                front_no_better(books, after, k, side)
            &&& forall|k: KeyV|
                queue_of(#[trigger] book_at(after, k), side) == queue_of(book_at(books, k), side)
            &&& forall|k: KeyV|
                k != key ==> #[trigger] book_at(after, k) == book_at(books, k)
            &&& opposite(after, key, side) == front_taken(opposite(books, key, side), qty)
            &&& resting_count(after, other_side(side)) <= resting_count(books, other_side(side))
            &&& t == e.open ==> resting_count(after, other_side(side)) < resting_count(
                books,
                other_side(side),
            )
        }),
{
    let s = slot(books, key);
    let b = books[s].1;
    let far = other_side(side);
    let q = queue_of(b, far);
    let e = q[0];
    let t = lesser(qty, e.open);
    let next = with_queue(b, far, front_taken(q, qty));
    let after = books_taken(books, key, side, qty);
    assert(book_wf(books[s].1));
    assert(all_open(books[s].1.bids) && all_open(books[s].1.asks));
    assert(q[0].open > 0);
    lemma_front_taken_wf(b, far, qty);
    lemma_stored(books, key, next);
    assert(after == books.update(s, (key, next)));
    lemma_volume_update(books, s, (key, next), far);
    lemma_volume_update(books, s, (key, next), side);
    lemma_resting_count_update(books, s, (key, next), far);
    let taken = front_taken(q, qty);
    assert forall|i: int| 0 <= i < taken.len() implies (#[trigger] taken[i]).open > 0 by {
        if t == e.open {
            assert(taken[i] == q[i + 1]);
        } else if i > 0 {
            assert(taken[i] == q[i]);
        }
    }
    if t != e.open {
        assert(taken.drop_first() =~= q.drop_first());
    }
    assert(total(taken) == total(q) - t);
    assert forall|i: int| 0 <= i < after.len() implies book_wf((#[trigger] after[i]).1)
        && all_open(after[i].1.bids) && all_open(after[i].1.asks) by {
        if i != s {
            assert(after[i] == books[i]);
            assert(book_wf(books[i].1));
        }
    }
    assert forall|k: KeyV|
        queue_of(#[trigger] book_at(after, k), side) == queue_of(book_at(books, k), side)
            && (k != key ==> book_at(after, k) == book_at(books, k)) by {
        assert(holds(after, k) <==> holds(books, k) || k == key);
        if k != key && holds(books, k) {
            assert(value_at(after, k) == value_at(books, k));
        }
    }
    assert forall|k: KeyV| #[trigger] front_no_better(books, after, k, side) by {
        if k != key {
            assert(book_at(after, k) == book_at(books, k));
        } else if taken.len() > 0 && t == e.open {
            assert(taken[0] == q[1]);
            assert(!better(far, q[1].price, q[0].price));
        }
    }
}

/// No better front, no better best offer.
proof fn lemma_best_no_better(
    before: Seq<(KeyV, BookV)>,
    after: Seq<(KeyV, BookV)>,
    keys: Seq<KeyV>,
    side: Side,
    limit: int,
)
    requires
        forall|k: KeyV| #[trigger] front_no_better(before, after, k, side),
        best_offer(after, keys, side, limit) is Some,
    ensures
        best_offer(before, keys, side, limit) is Some,
        ({
            let i = best_offer(before, keys, side, limit)->0;
            let j = best_offer(after, keys, side, limit)->0;
            &&& 0 <= i < keys.len()
            &&& 0 <= j < keys.len()
            &&& !better(
                other_side(side),
                opposite(after, keys[j], side)[0].price,
                opposite(before, keys[i], side)[0].price,
            )
        }),
{
    lemma_best_offer_valid(after, keys, side, limit);
    let j = best_offer(after, keys, side, limit)->0;
    assert(front_no_better(before, after, keys[j], side));
    assert(offers(before, keys[j], side, limit));
    best_offer_is_best(before, keys, side, limit, j);
}

/// What a sweep comes to, in one place.
pub proof fn lemma_swept(
    books: Seq<(KeyV, BookV)>,
    keys: Seq<KeyV>,
    side: Side,
    limit: int,
    qty: int,
)
    requires
        books_wf(books),
        books_open(books),
        qty >= 0,
    ensures
        ({
            let s = swept(books, keys, side, limit, qty);
            let far = other_side(side);
            &&& books_wf(s.books)
            &&& books_open(s.books)
            &&& s.left >= 0
            &&& take_total(s.takes) + s.left == qty
            &&& volume(books, far) == volume(s.books, far) + take_total(s.takes)
            &&& volume(books, side) == volume(s.books, side)
            &&& s.left > 0 ==> best_offer(s.books, keys, side, limit) is None
            &&& forall|i: int|
                0 <= i < s.takes.len() ==> crosses(
                    side,
                    limit,
                    (#[trigger] s.takes[i]).entry.price,
                ) && 0 < s.takes[i].quantity <= s.takes[i].entry.open && keys.contains(
                    s.takes[i].key,
                )
            &&& forall|i: int|
                0 <= i < s.takes.len() ==> best_offer(books, keys, side, limit) is Some && !better(
                    far,
                    (#[trigger] s.takes[i]).entry.price,
                    opposite(
                        books,
                        keys[best_offer(books, keys, side, limit)->0],
                        side,
                    )[0].price,
                )
            &&& forall|i: int, j: int|
                0 <= i < j < s.takes.len() ==> !better(
                    far,
                    (#[trigger] s.takes[j]).entry.price,
                    (#[trigger] s.takes[i]).entry.price,
                )
            &&& forall|k: KeyV| #[trigger] front_no_better(books, s.books, k, side)
            &&& forall|k: KeyV|
                queue_of(#[trigger] book_at(s.books, k), side) == queue_of(
                    book_at(books, k),
                    side,
                )
        }),
    decreases resting_count(books, other_side(side)), qty,
{
    let s = swept(books, keys, side, limit, qty);
    let far = other_side(side);
    lemma_best_offer_valid(books, keys, side, limit);
    if qty > 0 && best_offer(books, keys, side, limit) is Some {
        let at = best_offer(books, keys, side, limit)->0;
        let key = keys[at];
        let e = opposite(books, key, side)[0];
        let t = lesser(qty, e.open);
        let take = Take { key, entry: e, quantity: t };
        let after = books_taken(books, key, side, qty);
        lemma_taken(books, key, side, limit, qty);
        lemma_swept_step(books, keys, side, limit, qty);
        lemma_swept(after, keys, side, limit, qty - t);
        let next = swept(after, keys, side, limit, qty - t);
        lemma_take_total_first(take, next.takes);
        assert(keys.contains(key));
        if best_offer(after, keys, side, limit) is Some {
            lemma_best_no_better(books, after, keys, side, limit);
        }
        assert forall|i: int| 0 <= i < s.takes.len() implies crosses(
            side,
            limit,
            (#[trigger] s.takes[i]).entry.price,
        ) && 0 < s.takes[i].quantity <= s.takes[i].entry.open && keys.contains(s.takes[i].key)
            && !better(far, s.takes[i].entry.price, e.price) by {
            if i > 0 {
                assert(s.takes[i] == next.takes[i - 1]);
            }
        }
        assert forall|i: int, j: int| 0 <= i < j < s.takes.len() implies !better(
            far,
            (#[trigger] s.takes[j]).entry.price,
            (#[trigger] s.takes[i]).entry.price,
        ) by {
            assert(s.takes[j] == next.takes[j - 1]);
            if i > 0 {
                assert(s.takes[i] == next.takes[i - 1]);
            }
        }
        assert forall|k: KeyV| #[trigger] front_no_better(books, s.books, k, side) by {
            assert(front_no_better(after, s.books, k, side));
            assert(front_no_better(books, after, k, side));
        }
        assert forall|k: KeyV|
            queue_of(#[trigger] book_at(s.books, k), side) == queue_of(
                book_at(books, k),
                side,
            ) by {
            assert(queue_of(book_at(s.books, k), side) == queue_of(book_at(after, k), side));
            assert(queue_of(book_at(after, k), side) == queue_of(book_at(books, k), side));
        }
    } else {
        assert(s.takes.len() == 0);
        assert forall|k: KeyV| #[trigger] front_no_better(books, s.books, k, side) by {}
    }
}

/// Across all books, an order trades within its limit only, each time at the
/// price of the order it found, and never for more than that order had open.
pub proof fn takes_obey_limits(
    books: Seq<(KeyV, BookV)>,
    keys: Seq<KeyV>,
    side: Side,
    limit: int,
    qty: int,
    i: int,
)
    requires
        books_wf(books),
        books_open(books),
        qty >= 0,
        0 <= i < swept(books, keys, side, limit, qty).takes.len(),
    ensures
        ({
            let t = swept(books, keys, side, limit, qty).takes[i];
            &&& crosses(side, limit, t.entry.price)
            &&& 0 < t.quantity <= t.entry.open
        }),
{
    lemma_swept(books, keys, side, limit, qty);
}

/// Price priority across areas: a sweep never finds a better price later than
/// a worse one.
pub proof fn takes_go_from_best_to_worst(
    books: Seq<(KeyV, BookV)>,
    keys: Seq<KeyV>,
    side: Side,
    limit: int,
    qty: int,
    i: int,
    j: int,
)
    requires
        books_wf(books),
        books_open(books),
        qty >= 0,
        0 <= i < j < swept(books, keys, side, limit, qty).takes.len(),
    ensures
        ({
            let takes = swept(books, keys, side, limit, qty).takes;
            !better(other_side(side), takes[j].entry.price, takes[i].entry.price)
        }),
{
    lemma_swept(books, keys, side, limit, qty);
}

/// Nothing is lost or made up: what a sweep takes leaves the far side, what
/// it does not find is left over, and its own side is untouched.
pub proof fn sweep_conserves_volume(
    books: Seq<(KeyV, BookV)>,
    keys: Seq<KeyV>,
    side: Side,
    limit: int,
    qty: int,
)
    requires
        books_wf(books),
        books_open(books),
        qty >= 0,
    ensures
        ({
            let s = swept(books, keys, side, limit, qty);
            &&& take_total(s.takes) + s.left == qty
            &&& s.left >= 0
            &&& volume(s.books, other_side(side)) + take_total(s.takes) == volume(
                books,
                other_side(side),
            )
            &&& volume(s.books, side) == volume(books, side)
        }),
{
    lemma_swept(books, keys, side, limit, qty);
}

/// A sweep that leaves anything over leaves nothing within its limit on any
/// of its contracts.
pub proof fn leftover_finds_nothing_in_reach(
    books: Seq<(KeyV, BookV)>,
    keys: Seq<KeyV>,
    side: Side,
    limit: int,
    qty: int,
    i: int,
)
    requires
        books_wf(books),
        books_open(books),
        qty >= 0,
        swept(books, keys, side, limit, qty).left > 0,
        0 <= i < keys.len(),
    ensures
        !offers(swept(books, keys, side, limit, qty).books, keys[i], side, limit),
{
    lemma_swept(books, keys, side, limit, qty);
    best_offer_is_best(swept(books, keys, side, limit, qty).books, keys, side, limit, i);
}

/// No contract is listed twice.
pub open spec fn keys_distinct(keys: Seq<KeyV>) -> bool {
    forall|i: int, j: int| 0 <= i < j < keys.len() ==> (#[trigger] keys[i]) != (#[trigger] keys[j])
}

/// The candidates of an order are distinct contracts.
pub proof fn candidates_are_distinct(w: WorldV, key: KeyV, now: Timestamp)
    requires
        world_wf(w),
    ensures
        keys_distinct(candidates(w, key, now)),
{
    let row = coupled(w, key.area);
    let keys = candidates(w, key, now);
    if holds(w.couplings, key.area) {
        let s = slot(w.couplings, key.area);
        assert(distinct(w.couplings[s].1) && !holds(w.couplings[s].1, w.couplings[s].0));
    }
    lemma_neighbours_come_in_order(w, key, now, row.len());
    assert forall|i: int, j: int| 0 <= i < j < keys.len() implies (#[trigger] keys[i]) != (
    #[trigger] keys[j]) by {
        let near = open_neighbours(w, key, now, row.len());
        assert(keys[j] == near[j - 1]);
        if i > 0 {
            assert(keys[i] == near[i - 1]);
        }
    }
}

proof fn lemma_neighbours_come_in_order(w: WorldV, key: KeyV, now: Timestamp, n: nat)
    requires
        distinct(coupled(w, key.area)),
        !holds(coupled(w, key.area), key.area),
        n <= coupled(w, key.area).len(),
    ensures
        ({
            let near = open_neighbours(w, key, now, n);
            &&& forall|i: int|
                0 <= i < near.len() ==> (#[trigger] near[i]).area != key.area && exists|k: int|
                    0 <= k < n && (#[trigger] coupled(w, key.area)[k]).0 == near[i].area
            &&& forall|i: int, j: int|
                0 <= i < j < near.len() ==> (#[trigger] near[i]) != (#[trigger] near[j])
        }),
    decreases n,
{
    if n > 0 {
        lemma_neighbours_come_in_order(w, key, now, (n - 1) as nat);
        let row = coupled(w, key.area);
        let before = open_neighbours(w, key, now, (n - 1) as nat);
        let near = open_neighbours(w, key, now, n);
        assert(holds(row, row[n - 1].0));
        assert forall|i: int| 0 <= i < near.len() implies (#[trigger] near[i]).area != key.area
            && exists|k: int| 0 <= k < n && (#[trigger] row[k]).0 == near[i].area by {
            if i < before.len() {
                assert(near[i] == before[i]);
                let k = choose|k: int|
                    0 <= k < n - 1 && (#[trigger] row[k]).0 == before[i].area;
                assert(row[k].0 == near[i].area);
            } else {
                assert(row[n - 1].0 == near[i].area);
            }
        }
        assert forall|i: int, j: int| 0 <= i < j < near.len() implies (#[trigger] near[i]) != (
        #[trigger] near[j]) by {
            assert(near[i] == before[i]);
            if j < before.len() {
                assert(near[j] == before[j]);
            } else {
                let k = choose|k: int|
                    0 <= k < n - 1 && (#[trigger] row[k]).0 == before[i].area;
                assert(row[k].0 != row[n - 1].0);
            }
        }
    }
}

/// A take lessens what is in reach by what it takes.
proof fn lemma_reach_after_take(
    books: Seq<(KeyV, BookV)>,
    keys: Seq<KeyV>,
    side: Side,
    limit: int,
    qty: int,
    at: int,
)
    requires
        books_wf(books),
        books_open(books),
        keys_distinct(keys),
        0 <= at < keys.len(),
        offers(books, keys[at], side, limit),
        qty > 0,
    ensures
        reachable_across(books_taken(books, keys[at], side, qty), keys, side, limit)
            == reachable_across(books, keys, side, limit) - lesser(
            qty,
            opposite(books, keys[at], side)[0].open,
        ),
    decreases keys.len(),
{
    let key = keys[at];
    let after = books_taken(books, key, side, qty);
    lemma_taken(books, key, side, limit, qty);
    let last = keys.len() - 1;
    let before = keys.drop_last();
    if at == last {
        lemma_reach_untouched(books, after, before, side, limit, key);
        let q = opposite(books, key, side);
        let taken = front_taken(q, qty);
        let t = lesser(qty, q[0].open);
        if t == q[0].open {
            assert(taken =~= q.drop_first());
        } else {
            assert(taken.drop_first() =~= q.drop_first());
        }
    } else {
        assert(keys_distinct(before)) by {
            assert forall|i: int, j: int| 0 <= i < j < before.len() implies (#[trigger] before[i])
                != (#[trigger] before[j]) by {
                assert(keys[i] != keys[j]);
            }
        }
        assert(before[at] == key);
        lemma_reach_after_take(books, before, side, limit, qty, at);
        assert(keys[at] != keys[last]);
        assert(book_at(after, keys.last()) == book_at(books, keys.last()));
    }
}

proof fn lemma_reach_untouched(
    books: Seq<(KeyV, BookV)>,
    after: Seq<(KeyV, BookV)>,
    keys: Seq<KeyV>,
    side: Side,
    limit: int,
    key: KeyV,
)
    requires
        forall|k: KeyV| k != key ==> #[trigger] book_at(after, k) == book_at(books, k),
        forall|i: int| 0 <= i < keys.len() ==> (#[trigger] keys[i]) != key,
    ensures
        reachable_across(after, keys, side, limit) == reachable_across(books, keys, side, limit),
    decreases keys.len(),
{
    if keys.len() > 0 {
        let before = keys.drop_last();
        assert forall|i: int| 0 <= i < before.len() implies (#[trigger] before[i]) != key by {
            assert(before[i] == keys[i]);
        }
        lemma_reach_untouched(books, after, before, side, limit, key);
        assert(keys[keys.len() - 1] != key);
        assert(book_at(after, keys.last()) == book_at(books, keys.last()));
    }
}

/// A sweep finds all it asks for, if that much is within reach, and all that
/// is within reach, if it is less.
pub proof fn sweep_finds_what_is_in_reach(
    books: Seq<(KeyV, BookV)>,
    keys: Seq<KeyV>,
    side: Side,
    limit: int,
    qty: int,
)
    requires
        books_wf(books),
        books_open(books),
        keys_distinct(keys),
        qty >= 0,
    ensures
        take_total(swept(books, keys, side, limit, qty).takes) == lesser(
            qty,
            reachable_across(books, keys, side, limit),
        ),
    decreases resting_count(books, other_side(side)), qty,
{
    lemma_best_offer_valid(books, keys, side, limit);
    if qty > 0 && best_offer(books, keys, side, limit) is Some {
        let at = best_offer(books, keys, side, limit)->0;
        let key = keys[at];
        let e = opposite(books, key, side)[0];
        let t = lesser(qty, e.open);
        let after = books_taken(books, key, side, qty);
        lemma_taken(books, key, side, limit, qty);
        lemma_swept_step(books, keys, side, limit, qty);
        lemma_reach_after_take(books, keys, side, limit, qty, at);
        sweep_finds_what_is_in_reach(after, keys, side, limit, qty - t);
        lemma_take_total_first(
            Take { key, entry: e, quantity: t },
            swept(after, keys, side, limit, qty - t).takes,
        );
        lemma_reach_nonnegative(after, keys, side, limit);
    } else {
        lemma_reach_nonnegative(books, keys, side, limit);
        if qty > 0 {
            lemma_out_of_reach(books, keys, side, limit);
        }
    }
}

proof fn lemma_reach_nonnegative(
    books: Seq<(KeyV, BookV)>,
    keys: Seq<KeyV>,
    side: Side,
    limit: int,
)
    requires
        books_open(books),
    ensures
        reachable_across(books, keys, side, limit) >= 0,
    decreases keys.len(),
{
    if keys.len() > 0 {
        lemma_reach_nonnegative(books, keys.drop_last(), side, limit);
        let k = keys.last();
        if holds(books, k) {
            assert(all_open(books[slot(books, k)].1.bids) && all_open(
                books[slot(books, k)].1.asks,
            ));
        }
        lemma_queue_reach_nonnegative(side, limit, opposite(books, k, side));
    }
}

proof fn lemma_queue_reach_nonnegative(side: Side, limit: int, q: Seq<EntryV>)
    requires
        all_open(q),
    ensures
        reachable(side, limit, q) >= 0,
    decreases q.len(),
{
    if q.len() > 0 {
        let rest = q.drop_first();
        assert forall|i: int| 0 <= i < rest.len() implies (#[trigger] rest[i]).open > 0 by {
            assert(rest[i] == q[i + 1]);
        }
        assert(q[0].open > 0);
        lemma_queue_reach_nonnegative(side, limit, rest);
    }
}

/// Where nothing is offered, nothing is in reach.
proof fn lemma_out_of_reach(books: Seq<(KeyV, BookV)>, keys: Seq<KeyV>, side: Side, limit: int)
    requires
        books_wf(books),
        best_offer(books, keys, side, limit) is None,
    ensures
        reachable_across(books, keys, side, limit) == 0,
    decreases keys.len(),
{
    if keys.len() > 0 {
        let before = keys.drop_last();
        lemma_out_of_reach(books, before, side, limit);
        let k = keys.last();
        best_offer_is_best(books, keys, side, limit, keys.len() - 1);
        lemma_book_at_wf(books, k);
        let q = opposite(books, k, side);
        if q.len() > 0 {
            assert(sorted(other_side(side), q));
            lemma_unreachable(side, limit, q);
        }
    }
}

/// Fill-or-kill across areas: either the whole order trades or nothing does.
pub proof fn fill_or_kill_across(
    w: WorldV,
    taker: Taker,
    price: int,
    qty: int,
    now: Timestamp,
)
    requires
        world_wf(w),
        books_open(w.books),
        qty > 0,
    ensures
        ({
            let c = crossed(w, taker, price, qty, ExecMode::FillOrKill, now);
            &&& c.rested is None
            &&& take_total(c.takes) == qty || (c.takes.len() == 0 && c.world == w)
        }),
{
    let keys = candidates(w, taker.key, now);
    candidates_are_distinct(w, taker.key, now);
    sweep_finds_what_is_in_reach(w.books, keys, taker.side, price, qty);
}

/// Only a resting order ever joins a book: immediate-or-cancel and
/// fill-or-kill leave their own side of every book as it was.
pub proof fn only_resting_orders_rest(
    w: WorldV,
    taker: Taker,
    price: int,
    qty: int,
    mode: ExecMode,
    now: Timestamp,
    k: KeyV,
)
    requires
        world_wf(w),
        books_open(w.books),
        qty > 0,
        mode != ExecMode::Resting,
    ensures
        ({
            let c = crossed(w, taker, price, qty, mode, now);
            &&& c.rested is None
            &&& queue_of(book_at(c.world.books, k), taker.side) == queue_of(
                book_at(w.books, k),
                taker.side,
            )
        }),
{
    let keys = candidates(w, taker.key, now);
    lemma_swept(w.books, keys, taker.side, price, qty);
    let s = swept(w.books, keys, taker.side, price, qty);
    assert(queue_of(book_at(s.books, k), taker.side) == queue_of(
        book_at(w.books, k),
        taker.side,
    ));
}

/// A book on which nothing crosses stays that way when an order goes through
/// the books, whatever the order; the same goes for every positive quantity
/// and the order of the queues.
pub proof fn books_are_never_crossed(
    w: WorldV,
    taker: Taker,
    price: int,
    qty: int,
    mode: ExecMode,
    now: Timestamp,
    k: KeyV,
)
    requires
        world_wf(w),
        books_open(w.books),
        qty > 0,
        uncrossed(book_at(w.books, k)),
    ensures
        uncrossed(book_at(crossed(w, taker, price, qty, mode, now).world.books, k)),
        books_wf(crossed(w, taker, price, qty, mode, now).world.books),
        books_open(crossed(w, taker, price, qty, mode, now).world.books),
{
    let keys = candidates(w, taker.key, now);
    let side = taker.side;
    let s = swept(w.books, keys, side, price, qty);
    lemma_swept(w.books, keys, side, price, qty);
    let c = crossed(w, taker, price, qty, mode, now);
    let b0 = book_at(w.books, k);
    let b1 = book_at(s.books, k);
    assert(front_no_better(w.books, s.books, k, side));
    assert(queue_of(b1, side) == queue_of(b0, side));
    lemma_uncrossed_after_take(b0, b1, side);
    if mode == ExecMode::Resting && s.left > 0 {
        let home = book_at(s.books, taker.key);
        let e = EntryV { id: taker.id, price, open: s.left };
        let joined = inserted(home, side, e);
        lemma_book_at_wf(s.books, taker.key);
        lemma_inserted_wf(home, side, e);
        lemma_stored_books_wf(s.books, taker.key, joined);
        lemma_stored(s.books, taker.key, joined);
        let after = stored(s.books, taker.key, joined);
        lemma_inserted_open(s.books, taker.key, side, e);
        assert(c.world.books == after);
        assert(holds(after, k) <==> holds(s.books, k) || k == taker.key);
        if k == taker.key {
            assert(keys[0] == k);
            leftover_finds_nothing_in_reach(w.books, keys, side, price, qty, 0);
            lemma_insert_keeps_uncrossed(b1, side, e);
        } else if holds(s.books, k) {
            assert(value_at(after, k) == value_at(s.books, k));
        }
    } else if !(mode == ExecMode::FillOrKill && reachable_across(w.books, keys, side, price)
        < qty) {
        assert(c.world.books == s.books);
    }
}

proof fn lemma_uncrossed_after_take(b0: BookV, b1: BookV, side: Side)
    requires
        uncrossed(b0),
        queue_of(b1, side) == queue_of(b0, side),
        queue_of(b1, other_side(side)).len() > 0 ==> queue_of(b0, other_side(side)).len() > 0
            && !better(
            other_side(side),
            queue_of(b1, other_side(side))[0].price,
            queue_of(b0, other_side(side))[0].price,
        ),
        side == Side::Unspecified ==> b1 == b0,
    ensures
        uncrossed(b1),
{
}

proof fn lemma_insert_keeps_uncrossed(b: BookV, side: Side, e: EntryV)
    requires
        book_wf(b),
        uncrossed(b),
        queue_of(b, other_side(side)).len() > 0 ==> !crosses(
            side,
            e.price,
            queue_of(b, other_side(side))[0].price,
        ),
    ensures
        uncrossed(inserted(b, side, e)),
{
    if side != Side::Unspecified && !rests(b, e.id) {
        let own = queue_of(b, side);
        lemma_rank_bounds(side, own, e.price);
        let i = rank(side, own, e.price);
        let after = own.insert(i, e);
        if i == 0 {
            assert(after[0] == e);
        } else {
            assert(after[0] == own[0]);
        }
    }
}

pub proof fn lemma_inserted_open(books: Seq<(KeyV, BookV)>, key: KeyV, side: Side, e: EntryV)
    requires
        books_wf(books),
        books_open(books),
        e.open > 0,
    ensures
        books_open(stored(books, key, inserted(book_at(books, key), side, e))),
{
    let home = book_at(books, key);
    let joined = inserted(home, side, e);
    let after = stored(books, key, joined);
    lemma_book_at_wf(books, key);
    if holds(books, key) {
        let i = slot(books, key);
        assert(all_open(books[i].1.bids) && all_open(books[i].1.asks));
    }
    assert(all_open(home.bids) && all_open(home.asks));
    let own = queue_of(home, side);
    if side != Side::Unspecified && !rests(home, e.id) {
        lemma_rank_bounds(side, own, e.price);
        lemma_total_insert(own, rank(side, own, e.price), e);
    }
    assert(all_open(joined.bids) && all_open(joined.asks));
    assert forall|i: int| 0 <= i < after.len() implies all_open((#[trigger] after[i]).1.bids)
        && all_open(after[i].1.asks) by {
        if i < books.len() && after[i] == books[i] {
            assert(all_open(books[i].1.bids));
        }
    }
}

} // verus!
