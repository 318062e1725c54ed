//! How much volume the exchange can carry: the quantities an operation adds
//! and subtracts are on a common grid of decimals on which the results can be
//! held exactly.

use crate::book::{
    amount_fits, better, book_wf, canceled, crosses, empty_book, front_taken, has_id,
    lemma_front_taken_wf, lemma_reachable_on_grid, lemma_zero_on_grid, lesser, place_of, queue_of,
    reach_on_grid, reachable, with_queue, without, BookV, EntryV,
};
use crate::decimal::{fits, grid_limit, lemma_grid_closed, on_grid, representable};
use crate::market::{AreaV, DeliveryPeriod};
use crate::matching::{filled, lemma_step_fits, lemma_step_matchable, FillV};
use crate::model::{
    best_offer, book_at, books_taken, books_wf, canonical, detail_at, fill_of, flow, flows_with,
    key_of, lemma_resting_count_update, offers, on_pool, opposite, reachable_across, resting_count,
    swept, take_total, takes_traced, KeyV, Swept, Take, Taker, WorldV,
};
use crate::order::{other_side, DetailV, Side};
use crate::table::{distinct, holds, lemma_stored, slot, stored, value_at};
use crate::time::Timestamp;
use vstd::prelude::*;

verus! {

/// `v` is on the grid and can grow by `room`.
pub open spec fn rises(v: int, room: int, g: nat) -> bool {
    on_grid(v, g) && -grid_limit(g) < v && v + room < grid_limit(g)
}

/// `v` is on the grid and can shrink by `room`.
pub open spec fn falls(v: int, room: int, g: nat) -> bool {
    on_grid(v, g) && -grid_limit(g) < v - room && v < grid_limit(g)
}

/// Up to `room` more of the order can be filled.
pub open spec fn detail_fits(d: DetailV, room: int, g: nat) -> bool {
    falls(d.open_quantity, room, g) && rises(d.filled_quantity, room, g)
}

/// Up to `room` more of the order can be filled, if it is bound to a gridpool
/// that has it.
pub open spec fn maker_fits(w: WorldV, id: u64, room: int, g: nat) -> bool {
    w.owners.contains_key(id) && on_pool(w, w.owners[id], id) ==> detail_fits(
        detail_at(w, w.owners[id], id),
        room,
        g,
    )
}

/// The entry is on the far side of the contract's book, at a price that a
/// taker with this limit accepts.
pub open spec fn in_reach(
    books: Seq<(KeyV, BookV)>,
    keys: Seq<KeyV>,
    side: Side,
    limit: int,
    k: KeyV,
    e: EntryV,
) -> bool {
    keys.contains(k) && opposite(books, k, side).contains(e) && crosses(side, limit, e.price)
}

/// A taker at home at `key` can take up to `room` from the entry: what it has
/// open, the flow over the edge that lies between, and its order can be
/// written anew.
pub open spec fn entry_fits(
    w: WorldV,
    key: KeyV,
    k: KeyV,
    e: EntryV,
    room: int,
    g: nat,
) -> bool {
    &&& amount_fits(e.open, g)
    &&& k.area != key.area ==> rises(flow(w, key.area, k.area, key.period), room, g)
    &&& maker_fits(w, e.id, room, g)
}

/// Every open quantity within reach fits the grid.
pub open spec fn far_fits(
    books: Seq<(KeyV, BookV)>,
    keys: Seq<KeyV>,
    side: Side,
    limit: int,
    g: nat,
) -> bool {
    forall|k: KeyV, e: EntryV| #[trigger]
        in_reach(books, keys, side, limit, k, e) ==> amount_fits(e.open, g)
}

/// A taker at home at `key` can take up to `room` from every entry within
/// reach.
pub open spec fn reach_fits(
    w: WorldV,
    key: KeyV,
    keys: Seq<KeyV>,
    side: Side,
    limit: int,
    room: int,
    g: nat,
) -> bool {
    forall|k: KeyV, e: EntryV| #[trigger]
        in_reach(w.books, keys, side, limit, k, e) ==> entry_fits(w, key, k, e, room, g)
}

/// An order for `qty` more, of which `filled` is filled, can be matched over
/// these contracts on the grid.
pub open spec fn volume_fits(
    w: WorldV,
    key: KeyV,
    keys: Seq<KeyV>,
    side: Side,
    limit: int,
    filled: int,
    qty: int,
    g: nat,
) -> bool {
    &&& amount_fits(qty, g)
    &&& rises(filled, qty, g)
    &&& reach_fits(w, key, keys, side, limit, qty, g)
}

/// Some grid carries the order: every quantity that matching it over these
/// contracts can lead to can be held exactly. Only what is within its reach
/// counts.
pub open spec fn carries(
    w: WorldV,
    key: KeyV,
    keys: Seq<KeyV>,
    side: Side,
    limit: int,
    filled: int,
    qty: int,
) -> bool {
    exists|g: nat| volume_fits(w, key, keys, side, limit, filled, qty, g)
}

/// The three quantities can be held on one grid.
pub open spec fn on_one_grid(a: int, b: int, c: int) -> bool {
    exists|g: nat| #[trigger] fits(a, g) && fits(b, g) && fits(c, g)
}

/// What fits for a taker fits for its sweep.
pub proof fn lemma_reach_far(
    w: WorldV,
    key: KeyV,
    keys: Seq<KeyV>,
    side: Side,
    limit: int,
    room: int,
    g: nat,
)
    requires
        reach_fits(w, key, keys, side, limit, room, g),
    ensures
        far_fits(w.books, keys, side, limit, g),
{
    assert forall|k: KeyV, e: EntryV| #[trigger]
        in_reach(w.books, keys, side, limit, k, e) implies amount_fits(e.open, g) by {
        assert(entry_fits(w, key, k, e, room, g));
    }
}

/// The far queue of one contract fits where all of them do.
pub proof fn lemma_far_queue(
    books: Seq<(KeyV, BookV)>,
    keys: Seq<KeyV>,
    i: int,
    side: Side,
    limit: int,
    g: nat,
)
    requires
        far_fits(books, keys, side, limit, g),
        0 <= i < keys.len(),
    ensures
        reach_on_grid(side, limit, opposite(books, keys[i], side), g),
{
    let q = opposite(books, keys[i], side);
    assert forall|j: int|
        0 <= j < q.len() && crosses(side, limit, (#[trigger] q[j]).price) implies amount_fits(
        q[j].open,
        g,
    ) by {
        assert(in_reach(books, keys, side, limit, keys[i], q[j]));
    }
}

/// What is within reach after a take was within reach before it; only the
/// entry taken from may have less open.
pub proof fn lemma_taken_reach(
    books: Seq<(KeyV, BookV)>,
    keys: Seq<KeyV>,
    key: KeyV,
    side: Side,
    limit: int,
    qty: int,
    k: KeyV,
    e: EntryV,
)
    requires
        distinct(books),
        holds(books, key),
        opposite(books, key, side).len() > 0,
        in_reach(books_taken(books, key, side, qty), keys, side, limit, k, e),
    ensures
        ({
            let q0 = opposite(books, key, side)[0];
            in_reach(books, keys, side, limit, k, e) || (k == key && q0.open > qty && e == (EntryV {
                open: q0.open - qty,
                ..q0
            }) && in_reach(books, keys, side, limit, k, q0))
        }),
{
    let q = opposite(books, key, side);
    let b = book_at(books, key);
    let next = with_queue(b, other_side(side), front_taken(q, qty));
    let after = books_taken(books, key, side, qty);
    lemma_stored(books, key, next);
    assert(after == stored(books, key, next));
    if k == key {
        let t = opposite(after, key, side);
        assert(t == front_taken(q, qty));
        let i = choose|i: int| 0 <= i < t.len() && t[i] == e;
        if q[0].open > qty {
            if i > 0 {
                assert(q[i] == e);
                assert(q.contains(e));
            } else {
                assert(q.contains(q[0]));
            }
        } else {
            assert(q[i + 1] == e);
            assert(q.contains(e));
        }
    } else {
        assert(holds(after, k) <==> holds(books, k));
        if holds(books, k) {
            assert(value_at(after, k) == value_at(books, k));
        }
        assert(book_at(after, k) == book_at(books, k));
    }
}

/// The best offer is an offer of one of the contracts; none of them offers a
/// better price, and the earlier ones not even the same.
pub proof fn best_offer_is_best(
    books: Seq<(KeyV, BookV)>,
    keys: Seq<KeyV>,
    side: Side,
    limit: int,
    j: int,
)
    requires
        0 <= j < keys.len(),
    ensures
        match best_offer(books, keys, side, limit) {
            Some(i) => {
                &&& 0 <= i < keys.len()
                &&& offers(books, keys[i], side, limit)
                &&& offers(books, keys[j], side, limit) ==> {
                    let here = opposite(books, keys[i], side)[0].price;
                    let there = opposite(books, keys[j], side)[0].price;
                    &&& !better(other_side(side), there, here)
                    &&& j < i ==> better(other_side(side), here, there)
                }
            },
            None => !offers(books, keys[j], side, limit),
        },
    decreases keys.len(),
{
    let before = keys.drop_last();
    if before.len() > 0 {
        if j < before.len() {
            best_offer_is_best(books, before, side, limit, j);
        } else {
            best_offer_is_best(books, before, side, limit, 0);
        }
    } else {
        assert(best_offer(books, before, side, limit) is None);
    }
}

/// The best offer is an offer of one of the contracts.
pub proof fn lemma_best_offer_valid(
    books: Seq<(KeyV, BookV)>,
    keys: Seq<KeyV>,
    side: Side,
    limit: int,
)
    ensures
        best_offer(books, keys, side, limit) matches Some(i) ==> 0 <= i < keys.len() && offers(
            books,
            keys[i],
            side,
            limit,
        ) && holds(books, keys[i]),
{
    if keys.len() > 0 {
        best_offer_is_best(books, keys, side, limit, 0);
    }
}

/// What one take of a sweep leaves behind: still well-formed, still on the
/// grid.
pub proof fn lemma_take_fits(
    books: Seq<(KeyV, BookV)>,
    keys: Seq<KeyV>,
    at: int,
    side: Side,
    limit: int,
    qty: int,
    g: nat,
)
    requires
        books_wf(books),
        amount_fits(qty, g),
        qty > 0,
        far_fits(books, keys, side, limit, g),
        0 <= at < keys.len(),
        offers(books, keys[at], side, limit),
    ensures
        ({
            let key = keys[at];
            let e = opposite(books, key, side)[0];
            let t = lesser(qty, e.open);
            let after = books_taken(books, key, side, qty);
            &&& holds(books, key)
            &&& value_at(books, key) == book_at(books, key)
            &&& in_reach(books, keys, side, limit, key, e)
            &&& representable(e.open - t)
            &&& representable(qty - t)
            &&& e.open >= 0
            &&& 0 <= t <= qty
            &&& on_grid(t, g)
            &&& amount_fits(qty - t, g)
            &&& books_wf(after)
            &&& far_fits(after, keys, side, limit, g)
            &&& forall|k: KeyV| #[trigger] holds(after, k) <==> holds(books, k)
            &&& resting_count(after, other_side(side)) <= resting_count(books, other_side(side))
            &&& e.open <= qty ==> resting_count(after, other_side(side)) < resting_count(
                books,
                other_side(side),
            )
        }),
{
    let key = keys[at];
    let s = slot(books, key);
    let b = books[s].1;
    let far = other_side(side);
    let q = queue_of(b, far);
    let e = q[0];
    lemma_far_queue(books, keys, at, side, limit, g);
    assert(book_wf(books[s].1));
    assert(q.contains(q[0]));
    assert(in_reach(books, keys, side, limit, key, e));
    lemma_step_fits(side, limit, q, qty, g);
    lemma_step_matchable(side, limit, q, qty, g);
    lemma_front_taken_wf(b, far, qty);
    let next = with_queue(b, far, front_taken(q, qty));
    let after = books_taken(books, key, side, qty);
    lemma_stored(books, key, next);
    assert(after == books.update(s, (key, next)));
    assert forall|i: int| 0 <= i < after.len() implies book_wf((#[trigger] after[i]).1) by {
        if i != s {
            assert(after[i] == books[i]);
        }
    }
    assert forall|k: KeyV, x: EntryV| #[trigger]
        in_reach(after, keys, side, limit, k, x) implies amount_fits(x.open, g) by {
        lemma_taken_reach(books, keys, key, side, limit, qty, k, x);
        lemma_grid_closed(e.open, qty, g);
    }
    lemma_resting_count_update(books, s, (key, next), far);
}

/// The flow over one edge of an area grows; those over its others do not.
pub proof fn lemma_flow_moved(
    w: WorldV,
    a: AreaV,
    b: AreaV,
    c: AreaV,
    period: DeliveryPeriod,
    t: int,
)
    requires
        distinct(w.flows),
        a != b,
        a != c,
    ensures
        ({
            let after = WorldV { flows: flows_with(w, a, b, period, t), ..w };
            flow(after, a, c, period) == flow(w, a, c, period) + (if b == c {
                t
            } else {
                0
            })
        }),
        distinct(flows_with(w, a, b, period, t)),
{
    let (lo, hi) = canonical(a, b);
    lemma_stored(w.flows, (lo, hi, period), flow(w, a, b, period) + t);
    let (p, q) = canonical(a, c);
    let after = flows_with(w, a, b, period, t);
    if (p, q, period) == (lo, hi, period) {
        assert(b == c);
    } else {
        assert(b != c);
        assert(holds(after, (p, q, period)) <==> holds(w.flows, (p, q, period)));
    }
}

/// After a take, a taker can still take what is left of its order from every
/// entry within reach.
pub proof fn lemma_take_reach(
    w: WorldV,
    after: WorldV,
    key: KeyV,
    keys: Seq<KeyV>,
    at: int,
    side: Side,
    limit: int,
    qty: int,
    g: nat,
)
    requires
        books_wf(w.books),
        distinct(w.flows),
        amount_fits(qty, g),
        qty > 0,
        reach_fits(w, key, keys, side, limit, qty, g),
        0 <= at < keys.len(),
        offers(w.books, keys[at], side, limit),
        after.books == books_taken(w.books, keys[at], side, qty),
        after.owners == w.owners,
        after.gridpools == w.gridpools,
        after.flows == if keys[at].area != key.area {
            flows_with(
                w,
                key.area,
                keys[at].area,
                key.period,
                lesser(qty, opposite(w.books, keys[at], side)[0].open),
            )
        } else {
            w.flows
        },
    ensures
        ({
            let e = opposite(w.books, keys[at], side)[0];
            let t = lesser(qty, e.open);
            &&& keys[at].area != key.area ==> representable(
                flow(w, key.area, keys[at].area, key.period) + t,
            )
            &&& reach_fits(after, key, keys, side, limit, qty - t, g)
            &&& distinct(after.flows)
        }),
{
    let k0 = keys[at];
    let e0 = opposite(w.books, k0, side)[0];
    let t = lesser(qty, e0.open);
    lemma_reach_far(w, key, keys, side, limit, qty, g);
    lemma_take_fits(w.books, keys, at, side, limit, qty, g);
    assert(entry_fits(w, key, k0, e0, qty, g));
    let f0 = flow(w, key.area, k0.area, key.period);
    if k0.area != key.area {
        lemma_grid_closed(f0, t, g);
        assert(crate::decimal::fits(f0 + t, g));
        lemma_flow_moved(w, key.area, k0.area, k0.area, key.period, t);
    }
    assert forall|k: KeyV, e: EntryV| #[trigger]
        in_reach(after.books, keys, side, limit, k, e) implies entry_fits(
        after,
        key,
        k,
        e,
        qty - t,
        g,
    ) by {
        lemma_taken_reach(w.books, keys, k0, side, limit, qty, k, e);
        let before = if in_reach(w.books, keys, side, limit, k, e) {
            e
        } else {
            e0
        };
        assert(in_reach(w.books, keys, side, limit, k, before));
        assert(entry_fits(w, key, k, before, qty, g));
        lemma_grid_closed(e0.open, qty, g);
        assert(before.id == e.id);
        assert(on_pool(after, after.owners[e.id], e.id) == on_pool(w, w.owners[e.id], e.id));
        if k.area != key.area {
            if k0.area != key.area {
                lemma_flow_moved(w, key.area, k0.area, k.area, key.period, t);
                let f = flow(w, key.area, k.area, key.period);
                lemma_grid_closed(f, t, g);
                assert(flow(after, key.area, k.area, key.period) == flow(
                    WorldV { flows: after.flows, ..w },
                    key.area,
                    k.area,
                    key.period,
                ));
            } else {
                assert(flow(after, key.area, k.area, key.period) == flow(
                    w,
                    key.area,
                    k.area,
                    key.period,
                ));
            }
        }
    }
}

/// A sweep of nothing takes nothing.
pub proof fn lemma_swept_nothing(
    books: Seq<(KeyV, BookV)>,
    keys: Seq<KeyV>,
    side: Side,
    limit: int,
)
    ensures
        swept(books, keys, side, limit, 0) == (Swept { books, takes: Seq::empty(), left: 0 }),
{
}

/// One step of a sweep: take from the best front, then sweep what is left.
pub proof fn lemma_swept_step(
    books: Seq<(KeyV, BookV)>,
    keys: Seq<KeyV>,
    side: Side,
    limit: int,
    qty: int,
)
    requires
        qty > 0,
        best_offer(books, keys, side, limit) is Some,
    ensures
        ({
            let i = best_offer(books, keys, side, limit)->0;
            let key = keys[i];
            let e = opposite(books, key, side)[0];
            let t = lesser(qty, e.open);
            let s = swept(books, keys, side, limit, qty);
            let next = swept(books_taken(books, key, side, qty), keys, side, limit, qty - t);
            &&& s.takes == seq![Take { key, entry: e, quantity: t }] + next.takes
            &&& s.books == next.books
            &&& s.left == next.left
        }),
{
    lemma_best_offer_valid(books, keys, side, limit);
    let i = best_offer(books, keys, side, limit)->0;
    let key = keys[i];
    let e = opposite(books, key, side)[0];
    let s = swept(books, keys, side, limit, qty);
    if e.open > qty {
        lemma_swept_nothing(books_taken(books, key, side, qty), keys, side, limit);
        let next = swept(books_taken(books, key, side, qty), keys, side, limit, 0);
        assert(s.takes =~= seq![Take { key, entry: e, quantity: qty }] + next.takes);
    }
}

/// The contracts have the same books in both.
pub open spec fn agree(a: Seq<(KeyV, BookV)>, b: Seq<(KeyV, BookV)>, keys: Seq<KeyV>) -> bool {
    forall|i: int|
        0 <= i < keys.len() ==> book_at(a, #[trigger] keys[i]) == book_at(b, keys[i])
}

proof fn lemma_best_offer_agrees(
    a: Seq<(KeyV, BookV)>,
    b: Seq<(KeyV, BookV)>,
    keys: Seq<KeyV>,
    side: Side,
    limit: int,
)
    requires
        agree(a, b, keys),
    ensures
        best_offer(a, keys, side, limit) == best_offer(b, keys, side, limit),
    decreases keys.len(),
{
    if keys.len() > 0 {
        let before = keys.drop_last();
        assert forall|i: int| 0 <= i < before.len() implies book_at(a, #[trigger] before[i])
            == book_at(b, before[i]) by {
            assert(before[i] == keys[i]);
        }
        lemma_best_offer_agrees(a, b, before, side, limit);
        lemma_best_offer_valid(a, before, side, limit);
        if best_offer(a, before, side, limit) is Some {
            let i = best_offer(a, before, side, limit)->0;
            assert(before[i] == keys[i]);
        }
        assert(book_at(a, keys[keys.len() - 1]) == book_at(b, keys[keys.len() - 1]));
    }
}

proof fn lemma_taken_agrees(
    a: Seq<(KeyV, BookV)>,
    b: Seq<(KeyV, BookV)>,
    keys: Seq<KeyV>,
    key: KeyV,
    side: Side,
    qty: int,
)
    requires
        distinct(a),
        distinct(b),
        agree(a, b, keys),
        book_at(a, key) == book_at(b, key),
        holds(a, key),
        holds(b, key),
    ensures
        agree(books_taken(a, key, side, qty), books_taken(b, key, side, qty), keys),
        distinct(books_taken(a, key, side, qty)),
        distinct(books_taken(b, key, side, qty)),
{
    let v = book_at(a, key);
    let next = with_queue(v, other_side(side), front_taken(queue_of(v, other_side(side)), qty));
    lemma_stored(a, key, next);
    lemma_stored(b, key, next);
    let after_a = books_taken(a, key, side, qty);
    let after_b = books_taken(b, key, side, qty);
    assert(after_a == stored(a, key, next) && after_b == stored(b, key, next));
    assert forall|i: int| 0 <= i < keys.len() implies book_at(after_a, #[trigger] keys[i])
        == book_at(after_b, keys[i]) by {
        let k = keys[i];
        assert(holds(after_a, k) <==> holds(a, k) || k == key);
        assert(holds(after_b, k) <==> holds(b, k) || k == key);
        if k != key {
            if holds(a, k) {
                assert(value_at(after_a, k) == value_at(a, k));
            }
            if holds(b, k) {
                assert(value_at(after_b, k) == value_at(b, k));
            }
        }
    }
}

/// What a sweep takes depends on the books of its contracts alone.
pub proof fn lemma_swept_agrees(
    a: Seq<(KeyV, BookV)>,
    b: Seq<(KeyV, BookV)>,
    keys: Seq<KeyV>,
    side: Side,
    limit: int,
    qty: int,
)
    requires
        distinct(a),
        distinct(b),
        agree(a, b, keys),
    ensures
        swept(a, keys, side, limit, qty).takes == swept(b, keys, side, limit, qty).takes,
        swept(a, keys, side, limit, qty).left == swept(b, keys, side, limit, qty).left,
    decreases resting_count(a, other_side(side)),
{
    lemma_best_offer_agrees(a, b, keys, side, limit);
    lemma_best_offer_valid(a, keys, side, limit);
    lemma_best_offer_valid(b, keys, side, limit);
    if qty > 0 && best_offer(a, keys, side, limit) is Some {
        let i = best_offer(a, keys, side, limit)->0;
        let key = keys[i];
        let e = opposite(a, key, side)[0];
        assert(book_at(a, keys[i]) == book_at(b, keys[i]));
        if e.open <= qty {
            lemma_taken_agrees(a, b, keys, key, side, qty);
            let s = slot(a, key);
            lemma_resting_count_update(a, s, books_taken(a, key, side, qty)[s], other_side(side));
            lemma_swept_agrees(
                books_taken(a, key, side, qty),
                books_taken(b, key, side, qty),
                keys,
                side,
                limit,
                qty - e.open,
            );
        }
    }
}

/// A sweep takes from no more orders than rest on the far side.
pub proof fn lemma_takes_bounded(
    books: Seq<(KeyV, BookV)>,
    keys: Seq<KeyV>,
    side: Side,
    limit: int,
    qty: int,
)
    ensures
        swept(books, keys, side, limit, qty).takes.len() <= resting_count(books, other_side(side)),
    decreases resting_count(books, other_side(side)),
{
    lemma_best_offer_valid(books, keys, side, limit);
    if qty > 0 && best_offer(books, keys, side, limit) is Some {
        let i = best_offer(books, keys, side, limit)->0;
        let key = keys[i];
        let e = opposite(books, key, side)[0];
        let s = slot(books, key);
        let after = books_taken(books, key, side, qty);
        lemma_resting_count_update(books, s, after[s], other_side(side));
        lemma_resting_count_update(books, s, (key, empty_book()), other_side(side));
        if e.open <= qty {
            lemma_takes_bounded(after, keys, side, limit, qty - e.open);
        }
    }
}

/// Every amount taken is on the grid and not negative, and together they come
/// to no more than `qty`.
pub open spec fn takes_fit(takes: Seq<Take>, qty: int, g: nat) -> bool {
    &&& forall|i: int|
        0 <= i < takes.len() ==> on_grid((#[trigger] takes[i]).quantity, g) && takes[i].quantity
            >= 0
    &&& 0 <= take_total(takes) <= qty
}

/// The total grows by what comes first.
pub proof fn lemma_take_total_first(t: Take, rest: Seq<Take>)
    ensures
        take_total(seq![t] + rest) == t.quantity + take_total(rest),
    decreases rest.len(),
{
    let all = seq![t] + rest;
    if rest.len() == 0 {
        assert(all.drop_last() =~= Seq::<Take>::empty());
        assert(take_total(all.drop_last()) == 0);
    } else {
        assert(all.drop_last() =~= seq![t] + rest.drop_last());
        lemma_take_total_first(t, rest.drop_last());
    }
}

/// What a sweep takes and what it leaves come to what was asked for.
pub proof fn lemma_swept_fits(
    books: Seq<(KeyV, BookV)>,
    keys: Seq<KeyV>,
    side: Side,
    limit: int,
    qty: int,
    g: nat,
)
    requires
        books_wf(books),
        amount_fits(qty, g),
        far_fits(books, keys, side, limit, g),
    ensures
        takes_fit(swept(books, keys, side, limit, qty).takes, qty, g),
        take_total(swept(books, keys, side, limit, qty).takes) + swept(
            books,
            keys,
            side,
            limit,
            qty,
        ).left == qty,
        swept(books, keys, side, limit, qty).left >= 0,
    decreases resting_count(books, other_side(side)), qty,
{
    lemma_best_offer_valid(books, keys, side, limit);
    let s = swept(books, keys, side, limit, qty);
    if qty > 0 && best_offer(books, keys, side, limit) is Some {
        let i = best_offer(books, keys, side, limit)->0;
        let key = keys[i];
        let e = opposite(books, key, side)[0];
        let t = lesser(qty, e.open);
        lemma_take_fits(books, keys, i, side, limit, qty, g);
        lemma_swept_step(books, keys, side, limit, qty);
        let after = books_taken(books, key, side, qty);
        lemma_swept_fits(after, keys, side, limit, qty - t, g);
        let next = swept(after, keys, side, limit, qty - t);
        let take = Take { key, entry: e, quantity: t };
        lemma_take_total_first(take, next.takes);
        assert forall|j: int| 0 <= j < s.takes.len() implies on_grid(
            (#[trigger] s.takes[j]).quantity,
            g,
        ) && s.takes[j].quantity >= 0 by {
            if j > 0 {
                assert(s.takes[j] == next.takes[j - 1]);
            }
        }
    } else {
        assert(s.takes.len() == 0);
    }
}

/// Every order that a sweep takes from can be filled by as much as every
/// order within reach can.
pub proof fn lemma_swept_makers(
    w: WorldV,
    books: Seq<(KeyV, BookV)>,
    keys: Seq<KeyV>,
    side: Side,
    limit: int,
    qty: int,
    room: int,
    g: nat,
)
    requires
        distinct(books),
        forall|k: KeyV, e: EntryV| #[trigger]
            in_reach(books, keys, side, limit, k, e) ==> maker_fits(w, e.id, room, g),
    ensures
        ({
            let takes = swept(books, keys, side, limit, qty).takes;
            forall|i: int|
                0 <= i < takes.len() ==> maker_fits(w, (#[trigger] takes[i]).entry.id, room, g)
        }),
    decreases resting_count(books, other_side(side)),
{
    lemma_best_offer_valid(books, keys, side, limit);
    if qty > 0 && best_offer(books, keys, side, limit) is Some {
        let at = best_offer(books, keys, side, limit)->0;
        let key = keys[at];
        let e = opposite(books, key, side)[0];
        assert(opposite(books, key, side).contains(e));
        assert(in_reach(books, keys, side, limit, key, e));
        let takes = swept(books, keys, side, limit, qty).takes;
        if e.open <= qty {
            let s = slot(books, key);
            let after = books_taken(books, key, side, qty);
            lemma_stored(books, key, after[s].1);
            lemma_resting_count_update(books, s, after[s], other_side(side));
            assert forall|k: KeyV, x: EntryV| #[trigger]
                in_reach(after, keys, side, limit, k, x) implies maker_fits(w, x.id, room, g) by {
                lemma_taken_reach(books, keys, key, side, limit, qty, k, x);
            }
            lemma_swept_makers(w, after, keys, side, limit, qty - e.open, room, g);
            let rest = swept(after, keys, side, limit, qty - e.open).takes;
            assert forall|i: int| 0 <= i < takes.len() implies maker_fits(
                w,
                (#[trigger] takes[i]).entry.id,
                room,
                g,
            ) by {
                if i > 0 {
                    assert(takes[i] == rest[i - 1]);
                }
            }
        }
    }
}

/// The first takes come to no more than all of them.
pub proof fn lemma_take_total_prefix(takes: Seq<Take>, i: int, qty: int, g: nat)
    requires
        takes_fit(takes, qty, g),
        g <= 28,
        0 <= i <= takes.len(),
    ensures
        0 <= take_total(takes.take(i)) <= take_total(takes),
        on_grid(take_total(takes.take(i)), g),
        i < takes.len() ==> take_total(takes.take(i + 1)) == take_total(takes.take(i))
            + takes[i].quantity,
{
    lemma_prefix_low(takes, i, g);
    lemma_prefix_high(takes, i, g);
    if i < takes.len() {
        assert(takes.take(i + 1).drop_last() =~= takes.take(i));
    }
}

proof fn lemma_prefix_low(takes: Seq<Take>, i: int, g: nat)
    requires
        g <= 28,
        forall|j: int|
            0 <= j < takes.len() ==> on_grid((#[trigger] takes[j]).quantity, g)
                && takes[j].quantity >= 0,
        0 <= i <= takes.len(),
    ensures
        0 <= take_total(takes.take(i)),
        on_grid(take_total(takes.take(i)), g),
    decreases i,
{
    lemma_zero_on_grid(g);
    if i > 0 {
        lemma_prefix_low(takes, i - 1, g);
        assert(takes.take(i).drop_last() =~= takes.take(i - 1));
        assert(on_grid(takes[i - 1].quantity, g));
        lemma_grid_closed(take_total(takes.take(i - 1)), takes[i - 1].quantity, g);
    }
}

proof fn lemma_prefix_high(takes: Seq<Take>, i: int, g: nat)
    requires
        g <= 28,
        forall|j: int|
            0 <= j < takes.len() ==> on_grid((#[trigger] takes[j]).quantity, g)
                && takes[j].quantity >= 0,
        0 <= i <= takes.len(),
    ensures
        take_total(takes.take(i)) <= take_total(takes),
    decreases takes.len() - i,
{
    if i < takes.len() {
        lemma_prefix_high(takes, i + 1, g);
        assert(takes.take(i + 1).drop_last() =~= takes.take(i));
        assert(takes[i].quantity >= 0);
    } else {
        assert(takes.take(i) =~= takes);
    }
}

/// Tracing takes touches nothing but the flows, the first-seen times, the
/// book history and the outbox.
pub proof fn lemma_traced_frame(w: WorldV, taker: Taker, takes: Seq<Take>, now: Timestamp)
    ensures
        ({
            let t = takes_traced(w, taker, takes, now);
            t == (WorldV {
                flows: t.flows,
                first_seen: t.first_seen,
                book_history: t.book_history,
                outbox: t.outbox,
                ..w
            })
        }),
    decreases takes.len(),
{
    if takes.len() > 0 {
        lemma_traced_frame(w, taker, takes.drop_last(), now);
    }
}

/// More contracts offer no less.
pub proof fn lemma_reachable_grows(
    books: Seq<(KeyV, BookV)>,
    keys: Seq<KeyV>,
    side: Side,
    limit: int,
    i: int,
    g: nat,
)
    requires
        g <= 28,
        far_fits(books, keys, side, limit, g),
        0 <= i <= keys.len(),
    ensures
        0 <= reachable_across(books, keys.take(i), side, limit),
        on_grid(reachable_across(books, keys.take(i), side, limit), g),
        i < keys.len() ==> {
            &&& reachable_across(books, keys.take(i + 1), side, limit) == reachable_across(
                books,
                keys.take(i),
                side,
                limit,
            ) + reachable(side, limit, opposite(books, keys[i], side))
            &&& 0 <= reachable(side, limit, opposite(books, keys[i], side))
            &&& on_grid(reachable(side, limit, opposite(books, keys[i], side)), g)
        },
    decreases i,
{
    lemma_zero_on_grid(g);
    if i < keys.len() {
        assert(keys.take(i + 1).drop_last() =~= keys.take(i));
        lemma_far_queue(books, keys, i, side, limit, g);
        lemma_reachable_on_grid(side, limit, opposite(books, keys[i], side), g);
    }
    if i > 0 {
        lemma_reachable_grows(books, keys, side, limit, i - 1, g);
        lemma_grid_closed(
            reachable_across(books, keys.take(i - 1), side, limit),
            reachable(side, limit, opposite(books, keys[i - 1], side)),
            g,
        );
    }
}

/// The trade ids left are enough for an order that takes from every order on
/// the far side.
pub open spec fn trade_ids_left(w: WorldV, side: Side) -> bool {
    w.next_trade_id + resting_count(w.books, other_side(side)) <= u64::MAX
}

/// The ids left are enough for a new order that takes from every order on the
/// far side.
pub open spec fn ids_left(w: WorldV, side: Side) -> bool {
    w.next_order_id < u64::MAX && trade_ids_left(w, side)
}

/// What a run of takes comes to is what their fills come to.
pub proof fn lemma_filled_is_take_total(fills: Seq<FillV>, id: u64, takes: Seq<Take>)
    requires
        fills.len() == takes.len(),
        forall|i: int| 0 <= i < fills.len() ==> (#[trigger] fills[i]) == fill_of(id, takes[i]),
    ensures
        filled(fills) == take_total(takes),
    decreases fills.len(),
{
    if fills.len() > 0 {
        let rest = takes.drop_first();
        assert(takes =~= seq![takes[0]] + rest);
        lemma_take_total_first(takes[0], rest);
        lemma_filled_is_take_total(fills.drop_first(), id, rest);
    }
}

/// Every quantity is on the grid and not negative.
pub open spec fn quantities_fit(fills: Seq<FillV>, g: nat) -> bool {
    forall|i: int|
        0 <= i < fills.len() ==> on_grid((#[trigger] fills[i]).quantity, g) && fills[i].quantity
            >= 0
}

pub proof fn lemma_filled_nonnegative(tail: Seq<FillV>, all: Seq<FillV>, i: int, g: nat)
    requires
        quantities_fit(all, g),
        0 <= i <= all.len(),
        tail == all.skip(i),
    ensures
        filled(tail) >= 0,
    decreases tail.len(),
{
    if tail.len() > 0 {
        assert(tail.drop_first() =~= all.skip(i + 1));
        lemma_filled_nonnegative(tail.drop_first(), all, i + 1, g);
        assert(tail[0] == all[i]);
    }
}

/// An order with this limit and `open` open can be matched on its own
/// contract's book, and what that fills can be recorded.
pub open spec fn rematch_carried(w: WorldV, pool: u64, id: u64, limit: int, open: int) -> bool {
    let d = detail_at(w, pool, id);
    let key = key_of(d.order);
    open > 0 ==> trade_ids_left(w, d.order.side) && carries(
        w,
        key,
        seq![key],
        d.order.side,
        limit,
        d.filled_quantity,
        open,
    )
}

pub proof fn lemma_filled_push(fills: Seq<FillV>, f: FillV)
    ensures
        filled(fills.push(f)) == filled(fills) + f.quantity,
    decreases fills.len(),
{
    let all = fills.push(f);
    if fills.len() == 0 {
        assert(all.drop_first() =~= Seq::<FillV>::empty());
        assert(filled(all.drop_first()) == 0);
    } else {
        assert(all.drop_first() =~= fills.drop_first().push(f));
        lemma_filled_push(fills.drop_first(), f);
    }
}

/// The first fills come to no more than all of them.
pub proof fn lemma_filled_prefix(fills: Seq<FillV>, i: int, g: nat)
    requires
        g <= 28,
        quantities_fit(fills, g),
        0 <= i <= fills.len(),
    ensures
        0 <= filled(fills.take(i)) <= filled(fills),
        on_grid(filled(fills.take(i)), g),
        i < fills.len() ==> filled(fills.take(i + 1)) == filled(fills.take(i))
            + fills[i].quantity,
{
    lemma_filled_low(fills, i, g);
    lemma_filled_high(fills, i, g);
    if i < fills.len() {
        assert(fills.take(i + 1) =~= fills.take(i).push(fills[i]));
        lemma_filled_push(fills.take(i), fills[i]);
    }
}

pub proof fn lemma_filled_low(fills: Seq<FillV>, i: int, g: nat)
    requires
        g <= 28,
        quantities_fit(fills, g),
        0 <= i <= fills.len(),
    ensures
        0 <= filled(fills.take(i)),
        on_grid(filled(fills.take(i)), g),
    decreases i,
{
    lemma_zero_on_grid(g);
    if i > 0 {
        lemma_filled_low(fills, i - 1, g);
        assert(fills.take(i) =~= fills.take(i - 1).push(fills[i - 1]));
        lemma_filled_push(fills.take(i - 1), fills[i - 1]);
        assert(on_grid(fills[i - 1].quantity, g));
        lemma_grid_closed(filled(fills.take(i - 1)), fills[i - 1].quantity, g);
    }
}

pub proof fn lemma_filled_high(fills: Seq<FillV>, i: int, g: nat)
    requires
        g <= 28,
        quantities_fit(fills, g),
        0 <= i <= fills.len(),
    ensures
        filled(fills.take(i)) <= filled(fills),
    decreases fills.len() - i,
{
    if i < fills.len() {
        lemma_filled_high(fills, i + 1, g);
        assert(fills.take(i + 1) =~= fills.take(i).push(fills[i]));
        lemma_filled_push(fills.take(i), fills[i]);
        assert(fills[i].quantity >= 0);
    } else {
        assert(fills.take(i) =~= fills);
    }
}

/// The queue of one contract is no longer than all of them together.
pub proof fn lemma_queue_counted(books: Seq<(KeyV, BookV)>, i: int, side: Side)
    requires
        0 <= i < books.len(),
    ensures
        queue_of(books[i].1, side).len() <= resting_count(books, side),
{
    lemma_resting_count_update(books, i, (books[i].0, empty_book()), side);
}

/// What is within reach on a contract's book after an order left it was
/// within reach before.
pub proof fn lemma_left_reach(
    before: Seq<(KeyV, BookV)>,
    after: Seq<(KeyV, BookV)>,
    key: KeyV,
    id: u64,
    side: Side,
    limit: int,
    k: KeyV,
    e: EntryV,
)
    requires
        distinct(before),
        after == before || (holds(before, key) && after == stored(
            before,
            key,
            canceled(value_at(before, key), id),
        )),
        in_reach(after, seq![key], side, limit, k, e),
    ensures
        in_reach(before, seq![key], side, limit, k, e),
{
    assert(k == key);
    if after != before {
        let b = value_at(before, key);
        lemma_stored(before, key, canceled(b, id));
        let q = queue_of(b, other_side(side));
        let t = opposite(after, key, side);
        assert(t == without(q, id) || t.len() == 0);
        let i = choose|i: int| 0 <= i < t.len() && t[i] == e;
        if has_id(q, id) && i >= place_of(q, id) {
            assert(q[i + 1] == e);
        } else {
            assert(q[i] == e);
        }
        assert(q.contains(e));
    }
}

/// The far queue of a contract is no longer after an order left its book.
pub proof fn lemma_far_queue_counted(
    before: Seq<(KeyV, BookV)>,
    after: Seq<(KeyV, BookV)>,
    key: KeyV,
    id: u64,
    side: Side,
)
    requires
        distinct(before),
        after == before || (holds(before, key) && after == stored(
            before,
            key,
            canceled(value_at(before, key), id),
        )),
    ensures
        opposite(after, key, side).len() <= resting_count(before, other_side(side)),
{
    if holds(before, key) {
        let i = slot(before, key);
        let b = before[i].1;
        lemma_queue_counted(before, i, other_side(side));
        lemma_stored(before, key, canceled(b, id));
    }
}

} // verus!
