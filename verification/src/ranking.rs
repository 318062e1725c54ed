//! Who stands where on a book.

use crate::book::{
    better, book_wf, canceled, crosses, depth, entry_of, has_id, inserted, lack, lemma_place,
    lemma_rank_bounds, lesser, marketable, place_of, queue_of, rank, reachable, resized, rests,
    side_of, total, BookV, EntryV,
};
use crate::order::{other_side, terminal, OrderState, Side};
use crate::trade::{settled, TradeState};
use vstd::prelude::*;

verus! {

/// Bids go from the highest price down, asks from the lowest up, and nobody
/// stands on a book twice.
pub proof fn books_go_from_best_to_worst(b: BookV, i: int, j: int)
    requires
        book_wf(b),
        0 <= i < j,
    ensures
        j < b.bids.len() ==> b.bids[i].price >= b.bids[j].price && b.bids[i].id != b.bids[j].id,
        j < b.asks.len() ==> b.asks[i].price <= b.asks[j].price && b.asks[i].id != b.asks[j].id,
        i < b.bids.len() && j < b.asks.len() ==> b.bids[i].id != b.asks[j].id,
        i < b.asks.len() && j < b.bids.len() ==> b.bids[j].id != b.asks[i].id,
{
}

/// A buyer takes what costs no more than the limit, a seller what pays no
/// less; a higher bid and a lower ask are better.
pub proof fn limits_bound_what_is_taken(limit: int, price: int)
    ensures
        crosses(Side::Buy, limit, price) <==> price <= limit,
        crosses(Side::Sell, limit, price) <==> price >= limit,
        !crosses(Side::Unspecified, limit, price),
        better(Side::Buy, limit, price) <==> limit > price,
        better(Side::Sell, limit, price) <==> limit < price,
        !better(Side::Unspecified, limit, price),
        other_side(Side::Buy) == Side::Sell,
        other_side(Side::Sell) == Side::Buy,
        other_side(Side::Unspecified) == Side::Unspecified,
{
}

/// An order that joins a book stands behind everybody at its price or better
/// and before everybody else on its side; nobody else moves. One that rests
/// already, or takes no side, changes nothing.
pub proof fn newcomers_stand_behind_their_equals(b: BookV, side: Side, e: EntryV)
    requires
        book_wf(b),
    ensures
        ({
            let after = inserted(b, side, e);
            &&& side == Side::Unspecified ==> after == b
            &&& has_id(b.bids, e.id) || has_id(b.asks, e.id) ==> after == b
            &&& side == Side::Buy && !has_id(b.bids, e.id) && !has_id(b.asks, e.id) ==> {
                &&& after.asks == b.asks
                &&& exists|k: int|
                    0 <= k <= b.bids.len() && after.bids == #[trigger] b.bids.insert(k, e)
                        && forall|i: int|
                        #![trigger b.bids[i]]
                        0 <= i < b.bids.len() ==> (i < k <==> b.bids[i].price >= e.price)
            }
            &&& side == Side::Sell && !has_id(b.bids, e.id) && !has_id(b.asks, e.id) ==> {
                &&& after.bids == b.bids
                &&& exists|k: int|
                    0 <= k <= b.asks.len() && after.asks == #[trigger] b.asks.insert(k, e)
                        && forall|i: int|
                        #![trigger b.asks[i]]
                        0 <= i < b.asks.len() ==> (i < k <==> b.asks[i].price <= e.price)
            }
        }),
{
    if side != Side::Unspecified && !rests(b, e.id) {
        let q = queue_of(b, side);
        lemma_rank_bounds(side, q, e.price);
        let k = rank(side, q, e.price);
        if side == Side::Buy {
            assert(inserted(b, side, e).bids == b.bids.insert(k, e));
            assert forall|i: int|
                #![trigger b.bids[i]]
                0 <= i < b.bids.len() implies (i < k <==> b.bids[i].price >= e.price) by {
                assert(q[i] == b.bids[i]);
            }
        } else {
            assert(inserted(b, side, e).asks == b.asks.insert(k, e));
            assert forall|i: int|
                #![trigger b.asks[i]]
                0 <= i < b.asks.len() implies (i < k <==> b.asks[i].price <= e.price) by {
                assert(q[i] == b.asks[i]);
            }
        }
    }
}

/// An order that leaves a book leaves its place to those behind it, and nobody
/// else moves.
pub proof fn leavers_leave_their_place(b: BookV, i: int)
    requires
        book_wf(b),
        0 <= i,
    ensures
        i < b.bids.len() ==> canceled(b, b.bids[i].id) == (BookV {
            bids: b.bids.remove(i),
            asks: b.asks,
        }) && side_of(b, b.bids[i].id) == Side::Buy && entry_of(b, b.bids[i].id) == b.bids[i],
        i < b.asks.len() ==> canceled(b, b.asks[i].id) == (BookV {
            bids: b.bids,
            asks: b.asks.remove(i),
        }) && side_of(b, b.asks[i].id) == Side::Sell && entry_of(b, b.asks[i].id) == b.asks[i],
{
    if i < b.bids.len() {
        let id = b.bids[i].id;
        lemma_place(b.bids, id, i);
        if has_id(b.asks, id) {
            let j = place_of(b.asks, id);
            assert(b.asks[j].id == id);
        }
    }
    if i < b.asks.len() {
        let id = b.asks[i].id;
        lemma_place(b.asks, id, i);
        if has_id(b.bids, id) {
            let j = place_of(b.bids, id);
            assert(b.bids[j].id == id);
        }
    }
}

/// What an order has open is rewritten in its place; with nothing open it
/// leaves.
pub proof fn resized_orders_keep_their_place(b: BookV, i: int, open: int)
    requires
        book_wf(b),
        0 <= i,
    ensures
        i < b.bids.len() ==> resized(b, b.bids[i].id, open) == (BookV {
            bids: if open == 0 {
                b.bids.remove(i)
            } else {
                b.bids.update(i, EntryV { id: b.bids[i].id, price: b.bids[i].price, open })
            },
            asks: b.asks,
        }),
        i < b.asks.len() ==> resized(b, b.asks[i].id, open) == (BookV {
            bids: b.bids,
            asks: if open == 0 {
                b.asks.remove(i)
            } else {
                b.asks.update(i, EntryV { id: b.asks[i].id, price: b.asks[i].price, open })
            },
        }),
{
    leavers_leave_their_place(b, i);
    if i < b.bids.len() {
        lemma_place(b.bids, b.bids[i].id, i);
    }
    if i < b.asks.len() {
        lemma_place(b.asks, b.asks[i].id, i);
    }
}

proof fn lemma_sums(q: Seq<EntryV>, e: EntryV, side: Side, limit: int)
    ensures
        total(q.push(e)) == total(q) + e.open,
        depth(q.push(e), limit) == depth(q, limit) + if e.price == limit {
            e.open
        } else {
            0
        },
        reachable(side, limit, q.push(e)) == reachable(side, limit, q) + if crosses(
            side,
            limit,
            e.price,
        ) {
            e.open
        } else {
            0
        },
    decreases q.len(),
{
    let after = q.push(e);
    if q.len() > 0 {
        lemma_sums(q.drop_first(), e, side, limit);
        assert(after.drop_first() =~= q.drop_first().push(e));
        assert(after[0] == q[0]);
    } else {
        assert(after.drop_first() =~= Seq::<EntryV>::empty());
        assert(after[0] == e);
        assert(total(after.drop_first()) == 0);
        assert(depth(after.drop_first(), limit) == 0);
        assert(reachable(side, limit, after.drop_first()) == 0);
    }
}

/// Depths and totals are sums: nothing where nobody stands; and whoever is
/// added adds what it has open, to a depth where it stands at that price, to
/// what a buyer or a seller can reach where it is within the limit.
pub proof fn depths_are_sums(q: Seq<EntryV>, e: EntryV, limit: int)
    ensures
        total(Seq::<EntryV>::empty()) == 0,
        total(q.push(e)) == total(q) + e.open,
        depth(Seq::<EntryV>::empty(), limit) == 0,
        e.price == limit ==> depth(q.push(e), limit) == depth(q, limit) + e.open,
        e.price != limit ==> depth(q.push(e), limit) == depth(q, limit),
        reachable(Side::Buy, limit, Seq::<EntryV>::empty()) == 0,
        reachable(Side::Sell, limit, Seq::<EntryV>::empty()) == 0,
        e.price <= limit ==> reachable(Side::Buy, limit, q.push(e)) == reachable(
            Side::Buy,
            limit,
            q,
        ) + e.open,
        e.price > limit ==> reachable(Side::Buy, limit, q.push(e)) == reachable(
            Side::Buy,
            limit,
            q,
        ),
        e.price >= limit ==> reachable(Side::Sell, limit, q.push(e)) == reachable(
            Side::Sell,
            limit,
            q,
        ) + e.open,
        e.price < limit ==> reachable(Side::Sell, limit, q.push(e)) == reachable(
            Side::Sell,
            limit,
            q,
        ),
{
    lemma_sums(q, e, Side::Buy, limit);
    lemma_sums(q, e, Side::Sell, limit);
}

/// What is missing is what the one falls short of the other, if it does.
pub proof fn what_is_missing_fills_the_gap(have: int, want: int)
    ensures
        lack(have, want) >= 0,
        have >= want ==> lack(have, want) == 0,
        have < want ==> have + lack(have, want) == want,
        lesser(have, want) <= have && lesser(have, want) <= want,
        lesser(have, want) == have || lesser(have, want) == want,
{
}

/// The orders a taker could trade with are those at the front, up to the
/// first that is beyond its limit.
pub proof fn marketable_orders_are_the_front(side: Side, limit: int, q: Seq<EntryV>)
    requires
        side == Side::Buy || side == Side::Sell,
    ensures
        ({
            let m = marketable(side, limit, q);
            let n = m.len() as int;
            &&& n <= q.len()
            &&& m == q.take(n)
            &&& forall|i: int|
                0 <= i < n ==> if side == Side::Buy {
                    (#[trigger] q[i]).price <= limit
                } else {
                    q[i].price >= limit
                }
            &&& n < q.len() ==> if side == Side::Buy {
                q[n].price > limit
            } else {
                q[n].price < limit
            }
        }),
    decreases q.len(),
{
    let m = marketable(side, limit, q);
    if q.len() > 0 && crosses(side, limit, q[0].price) {
        let rest = q.drop_first();
        marketable_orders_are_the_front(side, limit, rest);
        let r = marketable(side, limit, rest);
        let n = m.len() as int;
        assert(m == seq![q[0]] + r);
        assert(m =~= q.take(n)) by {
            assert forall|i: int| 0 <= i < n implies m[i] == q[i] by {
                if i > 0 {
                    assert(m[i] == r[i - 1]);
                    assert(rest.take(n - 1)[i - 1] == rest[i - 1]);
                }
            }
        }
        assert forall|i: int| 0 <= i < n implies if side == Side::Buy {
            (#[trigger] q[i]).price <= limit
        } else {
            q[i].price >= limit
        } by {
            if i > 0 {
                assert(rest[i - 1] == q[i]);
            }
        }
        if n < q.len() {
            assert(rest[n - 1] == q[n]);
        }
    } else {
        assert(m =~= q.take(0));
    }
}

/// An order has ended once it is filled, canceled, expired or failed; a trade
/// once it is canceled or recalled.
pub proof fn what_has_ended(state: OrderState, trade: TradeState)
    ensures
        terminal(state) <==> match state {
            OrderState::Filled => true,
            OrderState::Canceled => true,
            OrderState::Expired => true,
            OrderState::Failed => true,
            _ => false,
        },
        settled(trade) <==> match trade {
            TradeState::Canceled => true,
            TradeState::Recalled => true,
            _ => false,
        },
{
}

} // verus!
