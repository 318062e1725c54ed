//! What holds of one book over a whole run of orders.

use crate::book::{
    book_wf, crosses, empty_book, front_taken, has_id, lemma_front_taken_wf, lemma_inserted_wf,
    lemma_rank_bounds, place_of, queue_of, rank, reachable, rests, total, with_queue, BookV, EntryV,
};
use crate::matching::{
    all_open, book_never_crossed, filled, lemma_filled_is_taken, lemma_sweep,
    lemma_taken_nonnegative, lemma_total_insert, matched, quantity_conserved, sweep, uncrossed,
    ExecMode, Matched,
};
use crate::order::{other_side, Side};
use vstd::prelude::*;

verus! {

/// An order that arrives at the matcher.
pub ghost struct Arrival {
    pub id: u64,
    pub side: Side,
    pub price: int,
    pub qty: int,
    pub mode: ExecMode,
}

/// Every order has a side and a quantity, and no id comes twice.
pub open spec fn orderly(list: Seq<Arrival>) -> bool {
    &&& forall|i: int|
        0 <= i < list.len() ==> (#[trigger] list[i]).side != Side::Unspecified && list[i].qty > 0
    &&& forall|i: int, j: int|
        0 <= i < j < list.len() ==> (#[trigger] list[i]).id != (#[trigger] list[j]).id
}

/// The book after these orders were matched on an empty one, in order.
pub open spec fn book_after(list: Seq<Arrival>) -> BookV
    decreases list.len(),
{
    if list.len() == 0 {
        empty_book()
    } else {
        let a = list.last();
        matched(book_after(list.drop_last()), a.id, a.side, a.price, a.qty, a.mode).book
    }
}

/// What the last of these orders came to.
pub open spec fn last_match(list: Seq<Arrival>) -> Matched {
    let a = list.last();
    matched(book_after(list.drop_last()), a.id, a.side, a.price, a.qty, a.mode)
}

/// The quantity these orders were for.
pub open spec fn arrived(list: Seq<Arrival>) -> int
    decreases list.len(),
{
    if list.len() == 0 {
        0
    } else {
        arrived(list.drop_last()) + list.last().qty
    }
}

/// The quantity these orders traded, each trade counted once.
pub open spec fn traded(list: Seq<Arrival>) -> int
    decreases list.len(),
{
    if list.len() == 0 {
        0
    } else {
        traded(list.drop_last()) + filled(last_match(list).fills)
    }
}

/// What was neither traded on arrival nor left to rest.
pub open spec fn dropped(list: Seq<Arrival>) -> int
    decreases list.len(),
{
    if list.len() == 0 {
        0
    } else {
        dropped(list.drop_last()) + if list.last().mode == ExecMode::Resting {
            0
        } else {
            list.last().qty - filled(last_match(list).fills)
        }
    }
}

/// The `m`-th of these orders stands behind the entry.
pub open spec fn stands_behind(list: Seq<Arrival>, m: int, side: Side, id: u64, price: int) -> bool {
    0 <= m < list.len() && list[m].id == id && list[m].side == side && list[m].price == price
}

/// Every resting entry is one of the orders that arrived, on its side and at
/// its limit.
pub open spec fn all_arrived(b: BookV, list: Seq<Arrival>) -> bool {
    forall|side: Side, e: EntryV| #[trigger]
        queue_of(b, side).contains(e) ==> exists|m: int| #[trigger]
            stands_behind(list, m, side, e.id, e.price)
}

/// A sweep brings nothing new onto the queue.
proof fn lemma_sweep_keeps(taker: Side, limit: int, qty: int, q: Seq<EntryV>, e: EntryV)
    requires
        sweep(taker, limit, qty, q).queue.contains(e),
    ensures
        exists|x: EntryV| #[trigger] q.contains(x) && x.id == e.id && x.price == e.price,
    decreases q.len(),
{
    let t = sweep(taker, limit, qty, q).queue;
    if qty <= 0 || q.len() == 0 || !crosses(taker, limit, q[0].price) {
        assert(q.contains(e));
    } else if q[0].open <= qty {
        let rest = q.drop_first();
        lemma_sweep_keeps(taker, limit, qty - q[0].open, rest, e);
        let x = choose|x: EntryV| #[trigger]
            rest.contains(x) && x.id == e.id && x.price == e.price;
        let i = choose|i: int| 0 <= i < rest.len() && rest[i] == x;
        assert(q[i + 1] == x);
        assert(q.contains(x));
    } else {
        let i = choose|i: int| 0 <= i < t.len() && t[i] == e;
        assert(q.contains(q[i]));
    }
}

/// A sweep keeps the book in order.
proof fn lemma_swept_wf(b: BookV, taker: Side, limit: int, qty: int)
    requires
        book_wf(b),
        taker != Side::Unspecified,
    ensures
        book_wf(
            with_queue(
                b,
                other_side(taker),
                sweep(taker, limit, qty, queue_of(b, other_side(taker))).queue,
            ),
        ),
    decreases queue_of(b, other_side(taker)).len(),
{
    let far = other_side(taker);
    let q = queue_of(b, far);
    if qty <= 0 || q.len() == 0 || !crosses(taker, limit, q[0].price) {
        assert(with_queue(b, far, q) == b);
    } else {
        lemma_front_taken_wf(b, far, qty);
        if q[0].open <= qty {
            let next = with_queue(b, far, q.drop_first());
            assert(front_taken(q, qty) == q.drop_first());
            lemma_swept_wf(next, taker, limit, qty - q[0].open);
        }
    }
}

/// What every run of orders keeps.
proof fn lemma_run(list: Seq<Arrival>)
    requires
        orderly(list),
    ensures
        ({
            let b = book_after(list);
            &&& book_wf(b)
            &&& all_open(b.bids)
            &&& all_open(b.asks)
            &&& uncrossed(b)
            &&& all_arrived(b, list)
        }),
    decreases list.len(),
{
    let b = book_after(list);
    if list.len() > 0 {
        let before = list.drop_last();
        let a = list.last();
        let n = list.len() - 1;
        assert(a == list[n]);
        lemma_orderly_before(list);
        lemma_run(before);
        let old_b = book_after(before);
        lemma_newcomer_is_new(list);
        book_never_crossed(old_b, a.id, a.side, a.price, a.qty, a.mode);
        let far = other_side(a.side);
        let q = queue_of(old_b, far);
        let s = sweep(a.side, a.price, a.qty, q);
        lemma_sweep(a.side, a.price, a.qty, q);
        lemma_swept_wf(old_b, a.side, a.price, a.qty);
        let swept = with_queue(old_b, far, s.queue);
        let e = EntryV { id: a.id, price: a.price, open: s.left };
        lemma_swept_new(old_b, a);
        lemma_inserted_wf(swept, a.side, e);
        let own = queue_of(old_b, a.side);
        let k = rank(a.side, own, a.price);
        lemma_rank_bounds(a.side, own, a.price);
        lemma_total_insert(own, k, e);
        assert forall|side: Side, x: EntryV| #[trigger]
            queue_of(b, side).contains(x) implies exists|m: int| #[trigger]
            stands_behind(list, m, side, x.id, x.price) by {
            lemma_entry_arrived(list, side, x);
        }
    } else {
        assert forall|side: Side, x: EntryV| #[trigger]
            queue_of(b, side).contains(x) implies exists|m: int| #[trigger]
            stands_behind(list, m, side, x.id, x.price) by {
            assert(queue_of(b, side).len() == 0);
        }
    }
}

/// The orders before the last are orderly where all are.
proof fn lemma_orderly_before(list: Seq<Arrival>)
    requires
        orderly(list),
        list.len() > 0,
    ensures
        orderly(list.drop_last()),
{
    let before = list.drop_last();
    assert forall|i: int| 0 <= i < before.len() implies (#[trigger] before[i]).side
        != Side::Unspecified && before[i].qty > 0 by {
        assert(before[i] == list[i]);
    }
    assert forall|i: int, j: int| 0 <= i < j < before.len() implies (#[trigger] before[i]).id != (
    #[trigger] before[j]).id by {
        assert(before[i] == list[i] && before[j] == list[j]);
    }
}

/// The id of the last order does not rest before it arrives.
proof fn lemma_newcomer_is_new(list: Seq<Arrival>)
    requires
        orderly(list),
        list.len() > 0,
        all_arrived(book_after(list.drop_last()), list.drop_last()),
    ensures
        !rests(book_after(list.drop_last()), list.last().id),
{
    let before = list.drop_last();
    let b = book_after(before);
    let id = list.last().id;
    let n = list.len() - 1;
    if has_id(b.bids, id) {
        let e = b.bids[place_of(b.bids, id)];
        assert(queue_of(b, Side::Buy).contains(e));
        let m = choose|m: int| #[trigger] stands_behind(before, m, Side::Buy, e.id, e.price);
        assert(list[m].id != list[n].id);
    }
    if has_id(b.asks, id) {
        let e = b.asks[place_of(b.asks, id)];
        assert(queue_of(b, Side::Sell).contains(e));
        let m = choose|m: int| #[trigger] stands_behind(before, m, Side::Sell, e.id, e.price);
        assert(list[m].id != list[n].id);
    }
}

/// Nor does it after the sweep.
proof fn lemma_swept_new(b: BookV, a: Arrival)
    requires
        !rests(b, a.id),
        a.side != Side::Unspecified,
    ensures
        !rests(
            with_queue(
                b,
                other_side(a.side),
                sweep(a.side, a.price, a.qty, queue_of(b, other_side(a.side))).queue,
            ),
            a.id,
        ),
{
    let q = queue_of(b, other_side(a.side));
    let t = sweep(a.side, a.price, a.qty, q).queue;
    if has_id(t, a.id) {
        let e = t[place_of(t, a.id)];
        assert(t.contains(e));
        lemma_sweep_keeps(a.side, a.price, a.qty, q, e);
        let x = choose|x: EntryV| #[trigger] q.contains(x) && x.id == e.id && x.price == e.price;
        let i = choose|i: int| 0 <= i < q.len() && q[i] == x;
        assert(q[i].id == a.id);
        assert(has_id(q, a.id));
    }
}

/// What rests after the last order rested before it, or is it.
proof fn lemma_entry_arrived(list: Seq<Arrival>, side: Side, x: EntryV)
    requires
        list.len() > 0,
        list.last().side != Side::Unspecified,
        all_arrived(book_after(list.drop_last()), list.drop_last()),
        book_wf(book_after(list.drop_last())),
        queue_of(book_after(list), side).contains(x),
    ensures
        exists|m: int| #[trigger] stands_behind(list, m, side, x.id, x.price),
{
    let before = list.drop_last();
    let a = list.last();
    let b = book_after(before);
    let after = book_after(list);
    let far = other_side(a.side);
    let q = queue_of(b, far);
    let s = sweep(a.side, a.price, a.qty, q);
    let own = queue_of(b, a.side);
    let killed = a.mode == ExecMode::FillOrKill && reachable(a.side, a.price, q) < a.qty;
    if side == a.side && !killed && a.mode == ExecMode::Resting && s.left > 0 && !rests(
        with_queue(b, far, s.queue),
        a.id,
    ) {
        let k = rank(a.side, own, a.price);
        lemma_rank_bounds(a.side, own, a.price);
        let e = EntryV { id: a.id, price: a.price, open: s.left };
        let t = own.insert(k, e);
        assert(queue_of(after, side) == t);
        let i = choose|i: int| 0 <= i < t.len() && t[i] == x;
        if i == k {
            assert(stands_behind(list, list.len() - 1, side, x.id, x.price));
        } else {
            let y = if i < k {
                own[i]
            } else {
                own[i - 1]
            };
            assert(y == x);
            assert(own.contains(x));
            let m = choose|m: int| #[trigger] stands_behind(before, m, side, x.id, x.price);
            assert(stands_behind(list, m, side, x.id, x.price));
        }
    } else {
        if side == far && !killed {
            assert(queue_of(after, side) == s.queue);
            lemma_sweep_keeps(a.side, a.price, a.qty, q, x);
        } else {
            assert(queue_of(after, side) == queue_of(b, side));
            assert(queue_of(b, side).contains(x));
        }
        let y = choose|y: EntryV| #[trigger]
            queue_of(b, side).contains(y) && y.id == x.id && y.price == x.price;
        let m = choose|m: int| #[trigger] stands_behind(before, m, side, y.id, y.price);
        assert(stands_behind(list, m, side, x.id, x.price));
    }
}

/// After any run of orders the best bid is below the best ask: the book is
/// neither crossed nor locked. It is in price-time priority, nothing empty
/// rests on it, and what rests is one of the orders that arrived.
pub proof fn runs_never_cross(list: Seq<Arrival>)
    requires
        orderly(list),
    ensures
        uncrossed(book_after(list)),
        book_wf(book_after(list)),
        all_open(book_after(list).bids),
        all_open(book_after(list).asks),
        all_arrived(book_after(list), list),
{
    lemma_run(list);
}

/// Over any run of orders every unit of quantity that arrived was traded,
/// once on each side, or rests, or was dropped; a run in which every order
/// may rest drops nothing.
pub proof fn runs_conserve_quantity(list: Seq<Arrival>)
    requires
        orderly(list),
    ensures
        arrived(list) == 2 * traded(list) + total(book_after(list).bids) + total(
            book_after(list).asks,
        ) + dropped(list),
        dropped(list) >= 0,
        (forall|i: int| 0 <= i < list.len() ==> (#[trigger] list[i]).mode == ExecMode::Resting)
            ==> dropped(list) == 0,
    decreases list.len(),
{
    if list.len() > 0 {
        let before = list.drop_last();
        let a = list.last();
        assert(a == list[list.len() - 1]);
        lemma_orderly_before(list);
        runs_conserve_quantity(before);
        lemma_run(before);
        lemma_newcomer_is_new(list);
        let b = book_after(before);
        let far = other_side(a.side);
        let q = queue_of(b, far);
        let s = sweep(a.side, a.price, a.qty, q);
        lemma_sweep(a.side, a.price, a.qty, q);
        lemma_filled_is_taken(a.id, s.taken);
        lemma_taken_nonnegative(s.taken);
        if a.mode == ExecMode::Resting {
            quantity_conserved(b, a.id, a.side, a.price, a.qty);
        } else if last_match(list).fills.len() == 0 {
            assert(filled(last_match(list).fills) == 0);
        }
        if forall|i: int|
            0 <= i < list.len() ==> (#[trigger] list[i]).mode == ExecMode::Resting {
            assert forall|i: int| 0 <= i < before.len() implies (#[trigger] before[i]).mode
                == ExecMode::Resting by {
                assert(before[i] == list[i]);
            }
        }
    } else {
        assert(total(Seq::<EntryV>::empty()) == 0);
    }
}

/// Over any run of orders every trade is at the limit of an order that came
/// before and stands on the other side, within the limit of the order that
/// arrives, and for more than nothing.
pub proof fn runs_trade_within_limits(list: Seq<Arrival>, i: int)
    requires
        orderly(list),
        list.len() > 0,
        0 <= i < last_match(list).fills.len(),
    ensures
        ({
            let f = last_match(list).fills[i];
            let a = list.last();
            &&& f.taker_id == a.id
            &&& f.quantity > 0
            &&& crosses(a.side, a.price, f.price)
            &&& exists|m: int| #[trigger]
                stands_behind(list.drop_last(), m, other_side(a.side), f.maker_id, f.price)
        }),
{
    let before = list.drop_last();
    let a = list.last();
    assert(a == list[list.len() - 1]);
    lemma_orderly_before(list);
    lemma_run(before);
    let b = book_after(before);
    let q = queue_of(b, other_side(a.side));
    let s = sweep(a.side, a.price, a.qty, q);
    lemma_sweep(a.side, a.price, a.qty, q);
    assert(s.taken[i].0 == q[i]);
    assert(q.contains(q[i]));
    let f = last_match(list).fills[i];
    let m = choose|m: int| #[trigger]
        stands_behind(before, m, other_side(a.side), q[i].id, q[i].price);
    assert(stands_behind(before, m, other_side(a.side), f.maker_id, f.price));
}

} // verus!
