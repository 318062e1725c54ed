//! What a listing of a book shows, and how deep a book is.

use crate::book::{
    better, book_listing, book_wf, crosses, depth, has_id, ids_distinct, last_level,
    lemma_skip_sorted, lemma_unreachable, levels_reversed, marketable, place_of, queue_of,
    reachable, rests, sorted, total, BookV, EntryV,
};
use crate::order::{other_side, Side};
use vstd::prelude::*;

verus! {

/// The entries of one price level, in the order they stand in.
pub open spec fn level(q: Seq<EntryV>, price: int) -> Seq<EntryV>
    decreases q.len(),
{
    if q.len() == 0 {
        Seq::empty()
    } else {
        let rest = level(q.drop_first(), price);
        if q[0].price == price {
            seq![q[0]] + rest
        } else {
            rest
        }
    }
}

/// What a listing shows of one side.
pub open spec fn side_listed(list: Seq<(Side, EntryV)>, side: Side) -> Seq<EntryV>
    decreases list.len(),
{
    if list.len() == 0 {
        Seq::empty()
    } else {
        let rest = side_listed(list.drop_first(), side);
        if list[0].0 == side {
            seq![list[0].1] + rest
        } else {
            rest
        }
    }
}

/// The open quantity a listing shows at one price of one side.
pub open spec fn listed_depth(list: Seq<(Side, EntryV)>, side: Side, price: int) -> int {
    total(level(side_listed(list, side), price))
}

/// The open quantity a listing shows in all.
pub open spec fn listed_total(list: Seq<(Side, EntryV)>) -> int
    decreases list.len(),
{
    if list.len() == 0 {
        0
    } else {
        list[0].1.open + listed_total(list.drop_first())
    }
}

/// The listing shows an order with this id.
pub open spec fn is_listed(list: Seq<(Side, EntryV)>, id: u64) -> bool {
    exists|i: int| 0 <= i < list.len() && (#[trigger] list[i]).1.id == id
}

proof fn lemma_total_concat(a: Seq<EntryV>, b: Seq<EntryV>)
    ensures
        total(a + b) == total(a) + total(b),
    decreases a.len(),
{
    if a.len() == 0 {
        assert(a + b =~= b);
    } else {
        assert((a + b).drop_first() =~= a.drop_first() + b);
        lemma_total_concat(a.drop_first(), b);
    }
}

proof fn lemma_level_concat(a: Seq<EntryV>, b: Seq<EntryV>, price: int)
    ensures
        level(a + b, price) == level(a, price) + level(b, price),
    decreases a.len(),
{
    if a.len() == 0 {
        assert(a + b =~= b);
        assert(level(a, price) + level(b, price) =~= level(b, price));
    } else {
        assert((a + b).drop_first() =~= a.drop_first() + b);
        lemma_level_concat(a.drop_first(), b, price);
        assert(level(a + b, price) =~= level(a, price) + level(b, price));
    }
}

proof fn lemma_no_level(q: Seq<EntryV>, price: int)
    requires
        forall|i: int| 0 <= i < q.len() ==> (#[trigger] q[i]).price != price,
    ensures
        level(q, price) == Seq::<EntryV>::empty(),
    decreases q.len(),
{
    if q.len() > 0 {
        let rest = q.drop_first();
        assert forall|i: int| 0 <= i < rest.len() implies (#[trigger] rest[i]).price != price by {
            assert(rest[i] == q[i + 1]);
        }
        lemma_no_level(rest, price);
        assert(q[0].price != price);
    }
}

/// The depth at a price is what its level has open.
proof fn lemma_depth_is_level(q: Seq<EntryV>, price: int)
    ensures
        depth(q, price) == total(level(q, price)),
    decreases q.len(),
{
    if q.len() > 0 {
        let rest = level(q.drop_first(), price);
        lemma_depth_is_level(q.drop_first(), price);
        if q[0].price == price {
            assert((seq![q[0]] + rest).drop_first() =~= rest);
        }
    }
}

/// The last level of a queue in price priority: all of one price, and nothing
/// of that price before it.
pub proof fn lemma_last_level(side: Side, q: Seq<EntryV>)
    requires
        sorted(side, q),
        q.len() > 0,
        side != Side::Unspecified,
    ensures
        0 <= last_level(q) < q.len(),
        forall|i: int|
            last_level(q) <= i < q.len() ==> (#[trigger] q[i]).price == q.last().price,
        forall|i: int| 0 <= i < last_level(q) ==> (#[trigger] q[i]).price != q.last().price,
    decreases q.len(),
{
    if q.len() > 1 {
        let n = q.len() as int;
        let front = q.drop_last();
        if q[n - 2].price == q.last().price {
            assert forall|i: int, j: int| 0 <= i < j < front.len() implies !better(
                side,
                (#[trigger] front[j]).price,
                (#[trigger] front[i]).price,
            ) by {
                assert(front[i] == q[i] && front[j] == q[j]);
            }
            lemma_last_level(side, front);
            assert forall|i: int| last_level(q) <= i < q.len() implies (#[trigger] q[i]).price
                == q.last().price by {
                if i < n - 1 {
                    assert(front[i] == q[i]);
                }
            }
            assert forall|i: int| 0 <= i < last_level(q) implies (#[trigger] q[i]).price
                != q.last().price by {
                assert(front[i] == q[i]);
            }
        } else {
            assert forall|i: int| 0 <= i < n - 1 implies (#[trigger] q[i]).price
                != q.last().price by {
                if q[i].price == q[n - 1].price {
                    if i < n - 2 {
                        assert(!better(side, q[n - 2].price, q[i].price));
                        assert(!better(side, q[n - 1].price, q[n - 2].price));
                    }
                }
            }
        }
    }
}

/// A queue with its levels in reverse holds the same entries, and each level
/// as it stood.
pub proof fn lemma_reversed(side: Side, q: Seq<EntryV>)
    requires
        sorted(side, q),
        ids_distinct(q),
        side != Side::Unspecified,
    ensures
        ({
            let r = levels_reversed(q);
            &&& r.len() == q.len()
            &&& ids_distinct(r)
            &&& forall|e: EntryV| #[trigger] r.contains(e) <==> q.contains(e)
            &&& total(r) == total(q)
            &&& forall|p: int| #[trigger] level(r, p) == level(q, p)
        }),
    decreases q.len(),
{
    let r = levels_reversed(q);
    if q.len() > 0 {
        lemma_last_level(side, q);
        let k = last_level(q);
        let front = q.take(k);
        let back = q.skip(k);
        assert forall|i: int, j: int| 0 <= i < j < front.len() implies !better(
            side,
            (#[trigger] front[j]).price,
            (#[trigger] front[i]).price,
        ) by {
            assert(front[i] == q[i] && front[j] == q[j]);
        }
        assert forall|i: int, j: int| 0 <= i < j < front.len() implies (#[trigger] front[i]).id
            != (#[trigger] front[j]).id by {
            assert(front[i] == q[i] && front[j] == q[j]);
        }
        lemma_reversed(side, front);
        let up = levels_reversed(front);
        assert(r == back + up);
        assert(q =~= front + back);
        lemma_total_concat(front, back);
        lemma_total_concat(back, up);
        assert forall|e: EntryV| #[trigger] r.contains(e) <==> q.contains(e) by {
            if r.contains(e) {
                let i = choose|i: int| 0 <= i < r.len() && r[i] == e;
                if i < back.len() {
                    assert(q[k + i] == e);
                } else {
                    assert(up[i - back.len()] == e);
                    assert(up.contains(e));
                    assert(front.contains(e));
                    let j = choose|j: int| 0 <= j < front.len() && front[j] == e;
                    assert(q[j] == e);
                }
            }
            if q.contains(e) {
                let i = choose|i: int| 0 <= i < q.len() && q[i] == e;
                if i < k {
                    assert(front[i] == e);
                    assert(front.contains(e) && up.contains(e));
                    let j = choose|j: int| 0 <= j < up.len() && up[j] == e;
                    assert(r[back.len() + j] == e);
                } else {
                    assert(r[i - k] == e);
                }
            }
        }
        assert forall|i: int, j: int| 0 <= i < j < r.len() implies (#[trigger] r[i]).id != (
        #[trigger] r[j]).id by {
            if j < back.len() {
                assert(r[i] == q[k + i] && r[j] == q[k + j]);
            } else if i < back.len() {
                let e = up[j - back.len()];
                assert(up.contains(e));
                assert(front.contains(e));
                let m = choose|m: int| 0 <= m < front.len() && front[m] == e;
                assert(q[m].id != q[k + i].id);
            } else {
                assert(up[i - back.len()].id != up[j - back.len()].id);
            }
        }
        assert forall|p: int| #[trigger] level(r, p) == level(q, p) by {
            lemma_level_concat(front, back, p);
            lemma_level_concat(back, up, p);
            assert(level(up, p) == level(front, p));
            if p == q.last().price {
                assert forall|i: int| 0 <= i < front.len() implies (#[trigger] front[i]).price
                    != p by {
                    assert(front[i] == q[i]);
                }
                lemma_no_level(front, p);
            } else {
                assert forall|i: int| 0 <= i < back.len() implies (#[trigger] back[i]).price
                    != p by {
                    assert(back[i] == q[k + i]);
                }
                lemma_no_level(back, p);
            }
            assert(level(r, p) =~= level(q, p));
        }
    }
}

/// A run of entries of one side, listed.
proof fn lemma_side_run(list: Seq<(Side, EntryV)>, run: Seq<EntryV>, side: Side, other: Side)
    requires
        list.len() == run.len(),
        forall|i: int| 0 <= i < list.len() ==> #[trigger] list[i] == (side, run[i]),
        side != other,
    ensures
        side_listed(list, side) == run,
        side_listed(list, other) == Seq::<EntryV>::empty(),
        listed_total(list) == total(run),
    decreases list.len(),
{
    if list.len() > 0 {
        let rest = list.drop_first();
        let tail = run.drop_first();
        assert forall|i: int| 0 <= i < rest.len() implies #[trigger] rest[i] == (side, tail[i]) by {
            assert(rest[i] == list[i + 1]);
        }
        lemma_side_run(rest, tail, side, other);
        assert(list[0] == (side, run[0]));
        assert(seq![run[0]] + tail =~= run);
    } else {
        assert(run =~= Seq::<EntryV>::empty());
    }
}

proof fn lemma_listed_concat(a: Seq<(Side, EntryV)>, b: Seq<(Side, EntryV)>, side: Side)
    ensures
        side_listed(a + b, side) == side_listed(a, side) + side_listed(b, side),
        listed_total(a + b) == listed_total(a) + listed_total(b),
    decreases a.len(),
{
    if a.len() == 0 {
        assert(a + b =~= b);
        assert(side_listed(a, side) + side_listed(b, side) =~= side_listed(b, side));
    } else {
        assert((a + b).drop_first() =~= a.drop_first() + b);
        lemma_listed_concat(a.drop_first(), b, side);
        assert(side_listed(a + b, side) =~= side_listed(a, side) + side_listed(b, side));
    }
}

/// The listing of a book is the book: every resting order is listed once, on
/// its side, with its price and what it has open, and nothing else is; the
/// orders of a level are listed in the order they stand in; and the listed
/// quantities add up to the depth at each price and to the open quantity of
/// the whole book.
pub proof fn listing_is_the_book(b: BookV)
    requires
        book_wf(b),
    ensures
        ({
            let list = book_listing(b);
            &&& list.len() == b.bids.len() + b.asks.len()
            &&& forall|i: int, j: int|
                0 <= i < j < list.len() ==> (#[trigger] list[i]).1.id != (#[trigger] list[j]).1.id
            &&& forall|id: u64| #[trigger] is_listed(list, id) <==> rests(b, id)
            &&& forall|i: int|
                0 <= i < list.len() ==> queue_of(b, (#[trigger] list[i]).0).contains(list[i].1)
            &&& forall|side: Side, price: int|
                side != Side::Unspecified ==> #[trigger] level(side_listed(list, side), price)
                    == level(queue_of(b, side), price)
            &&& forall|side: Side, price: int|
                side != Side::Unspecified ==> #[trigger] listed_depth(list, side, price) == depth(
                    queue_of(b, side),
                    price,
                )
            &&& listed_total(list) == total(b.bids) + total(b.asks)
        }),
{
    let list = book_listing(b);
    let up = levels_reversed(b.bids);
    let n = up.len() as int;
    lemma_reversed(Side::Buy, b.bids);
    let buys = list.take(n);
    let sells = list.skip(n);
    assert(list =~= buys + sells);
    lemma_side_run(buys, up, Side::Buy, Side::Sell);
    lemma_side_run(sells, b.asks, Side::Sell, Side::Buy);
    lemma_listed_concat(buys, sells, Side::Buy);
    lemma_listed_concat(buys, sells, Side::Sell);
    assert(side_listed(list, Side::Buy) =~= up);
    assert(side_listed(list, Side::Sell) =~= b.asks);
    assert forall|i: int| 0 <= i < list.len() implies queue_of(b, (#[trigger] list[i]).0).contains(
        list[i].1,
    ) by {
        if i < n {
            assert(up.contains(up[i]));
        } else {
            assert(b.asks.contains(b.asks[i - n]));
        }
    }
    assert forall|i: int, j: int| 0 <= i < j < list.len() implies (#[trigger] list[i]).1.id != (
    #[trigger] list[j]).1.id by {
        if j < n {
            assert(up[i].id != up[j].id);
        } else if i < n {
            assert(up.contains(up[i]));
            let m = choose|m: int| 0 <= m < b.bids.len() && b.bids[m] == up[i];
            assert(b.bids[m].id != b.asks[j - n].id);
        } else {
            assert(b.asks[i - n].id != b.asks[j - n].id);
        }
    }
    assert forall|id: u64| #[trigger] is_listed(list, id) <==> rests(b, id) by {
        if is_listed(list, id) {
            let i = choose|i: int| 0 <= i < list.len() && (#[trigger] list[i]).1.id == id;
            let q = queue_of(b, list[i].0);
            let m = choose|m: int| 0 <= m < q.len() && q[m] == list[i].1;
            assert(q[m].id == id);
            assert(has_id(q, id));
        }
        if has_id(b.bids, id) {
            let m = place_of(b.bids, id);
            assert(b.bids.contains(b.bids[m]));
            assert(up.contains(b.bids[m]));
            let i = choose|i: int| 0 <= i < up.len() && up[i] == b.bids[m];
            assert(list[i].1.id == id);
        }
        if has_id(b.asks, id) {
            let m = place_of(b.asks, id);
            assert(list[n + m].1.id == id);
        }
    }
    assert forall|side: Side, price: int| side != Side::Unspecified implies #[trigger] level(
        side_listed(list, side),
        price,
    ) == level(queue_of(b, side), price) by {
        if side == Side::Buy {
            assert(level(up, price) == level(b.bids, price));
        }
    }
    assert forall|side: Side, price: int|
        side != Side::Unspecified implies #[trigger] listed_depth(list, side, price) == depth(
        queue_of(b, side),
        price,
    ) by {
        lemma_depth_is_level(queue_of(b, side), price);
        assert(level(side_listed(list, side), price) == level(queue_of(b, side), price));
    }
}

proof fn lemma_reach_bounds(taker: Side, tight: int, loose: int, q: Seq<EntryV>)
    requires
        forall|i: int| 0 <= i < q.len() ==> (#[trigger] q[i]).open >= 0,
        !better(taker, tight, loose),
    ensures
        0 <= reachable(taker, tight, q) <= reachable(taker, loose, q) <= total(q),
        taker == Side::Unspecified ==> reachable(taker, loose, q) == 0,
    decreases q.len(),
{
    if q.len() > 0 {
        let rest = q.drop_first();
        assert forall|i: int| 0 <= i < rest.len() implies (#[trigger] rest[i]).open >= 0 by {
            assert(rest[i] == q[i + 1]);
        }
        assert(q[0].open >= 0);
        lemma_reach_bounds(taker, tight, loose, rest);
    }
}

/// What can be reached of a queue in price priority leads it.
proof fn lemma_reach_is_lead(taker: Side, limit: int, q: Seq<EntryV>)
    requires
        sorted(other_side(taker), q),
    ensures
        reachable(taker, limit, q) == total(marketable(taker, limit, q)),
    decreases q.len(),
{
    if q.len() > 0 {
        if crosses(taker, limit, q[0].price) {
            let rest = q.drop_first();
            lemma_skip_sorted(other_side(taker), q, 1);
            assert(q.skip(1) =~= rest);
            lemma_reach_is_lead(taker, limit, rest);
            assert((seq![q[0]] + marketable(taker, limit, rest)).drop_first() =~= marketable(
                taker,
                limit,
                rest,
            ));
        } else {
            lemma_unreachable(taker, limit, q);
        }
    }
}

/// How deep a book is for a taker: the sum over the orders that the limit
/// accepts, which lead the far side; one at the limit counts. A better limit
/// reaches no less, and no limit more than the whole far side. A taker
/// without a side reaches nothing.
pub proof fn depth_grows_with_the_limit(b: BookV, taker: Side, tight: int, loose: int)
    requires
        book_wf(b),
        forall|i: int| 0 <= i < b.bids.len() ==> (#[trigger] b.bids[i]).open >= 0,
        forall|i: int| 0 <= i < b.asks.len() ==> (#[trigger] b.asks[i]).open >= 0,
        !better(taker, tight, loose),
    ensures
        ({
            let far = queue_of(b, other_side(taker));
            &&& 0 <= reachable(taker, tight, far) <= reachable(taker, loose, far) <= total(far)
            &&& reachable(taker, tight, far) == total(marketable(taker, tight, far))
            &&& taker != Side::Unspecified ==> crosses(taker, tight, tight)
            &&& taker == Side::Unspecified ==> reachable(taker, loose, far) == 0
        }),
{
    let far = queue_of(b, other_side(taker));
    lemma_reach_bounds(taker, tight, loose, far);
    if taker != Side::Unspecified {
        lemma_reach_is_lead(taker, tight, far);
    }
}

} // verus!
