//! What an order that is admitted does to those it meets.

use crate::book::{
    better, crosses, front_taken, has_id, inserted, lemma_rank_bounds, lesser, queue_of, rank,
    rests, BookV, EntryV,
};
use crate::ledger::lemma_book_at_wf;
use crate::lifecycle::{lemma_candidates_same, lemma_crossed_keeps, lemma_recorded_keeps};
use crate::linkage::{
    ids_unique, in_order, lemma_queue_distinct, lemma_recorded_details, lemma_recorded_details_same,
    lemma_side_rests, lemma_swept_entries, lemma_take_entries, lemma_take_of_bound,
    recorded_details, sweep_entries, takes_distinct, touches,
};
use crate::matching::ExecMode;
use crate::model::{
    admitted, best_offer, book_at, books_taken, books_wf, candidates, crossed, detail_at,
    maker_filled, mode_of, on_pool, opposite, reachable_across, resting_count, swept, take_total,
    KeyV, WorldV,
};
use crate::order::{other_side, ExecutionOption, MarketActor, OrderState, OrderV, Side, StateReason};
use crate::quoting::lemma_owners_known;
use crate::sweeping::{
    books_open, candidates_are_distinct, front_no_better, keys_distinct,
    leftover_finds_nothing_in_reach, lemma_swept, lemma_taken, sweep_finds_what_is_in_reach,
};
use crate::table::{holds, lemma_stored, stored, value_at};
use crate::time::Timestamp;
use crate::volume::{
    best_offer_is_best, lemma_best_offer_valid, lemma_swept_nothing, lemma_swept_step,
};
use vstd::prelude::*;

verus! {

/// The contract of an order.
pub open spec fn home(o: OrderV) -> KeyV {
    KeyV { area: o.area, period: o.period }
}

/// What admitting an order is made of.
pub proof fn lemma_parts(w: WorldV, o: OrderV, pool: Option<u64>, now: Timestamp)
    requires
        in_order(w),
        pool matches Some(p) ==> holds(w.gridpools, p),
        o.quantity > 0,
        o.side != Side::Unspecified,
        w.next_order_id < u64::MAX,
    ensures
        ({
            let a = admitted(w, o, pool, now);
            let keys = candidates(w, home(o), now);
            let s = swept(w.books, keys, o.side, o.price, o.quantity);
            let mode = mode_of(o.execution_option);
            let killed = mode == ExecMode::FillOrKill && reachable_across(
                w.books,
                keys,
                o.side,
                o.price,
            ) < o.quantity;
            &&& a.takes == if killed {
                Seq::empty()
            } else {
                s.takes
            }
            &&& a.world.books == if killed {
                w.books
            } else if mode == ExecMode::Resting && s.left > 0 {
                stored(
                    s.books,
                    home(o),
                    inserted(
                        book_at(s.books, home(o)),
                        o.side,
                        EntryV { id: w.next_order_id, price: o.price, open: s.left },
                    ),
                )
            } else {
                s.books
            }
            &&& sweep_entries(w.books, s.books, s.takes, o.side)
            &&& takes_distinct(a.takes)
            &&& recorded_details(w, a.world, a.takes, now)
            &&& books_wf(s.books)
            &&& books_open(s.books)
            &&& keys_distinct(keys)
            &&& !rests(book_at(s.books, home(o)), w.next_order_id)
        }),
{
    let a = admitted(w, o, pool, now);
    let tk = a.taker;
    let mode = mode_of(o.execution_option);
    let numbered = WorldV { next_order_id: (w.next_order_id + 1) as u64, ..w };
    lemma_candidates_same(w, numbered, home(o), now);
    let c = crossed(numbered, tk, o.price, o.quantity, mode, now);
    let keys = candidates(w, home(o), now);
    lemma_crossed_keeps(numbered, tk, o.price, o.quantity, mode, now);
    lemma_owners_known(w);
    lemma_recorded_keeps(c.world, tk, pool, c.takes, now);
    lemma_swept_entries(w.books, keys, o.side, o.price, o.quantity);
    lemma_swept(w.books, keys, o.side, o.price, o.quantity);
    lemma_recorded_details(c.world, tk, pool, c.takes, now);
    lemma_recorded_details_same(c.world, w, a.world, c.takes, now);
    candidates_are_distinct(w, home(o), now);
    let s = swept(w.books, keys, o.side, o.price, o.quantity);
    if rests(book_at(s.books, home(o)), w.next_order_id) {
        assert(rests(book_at(w.books, home(o)), w.next_order_id));
    }
}

/// What is traded is taken off the orders that are met: each of them that is
/// a gridpool's has so much more filled and so much less open, is Filled once
/// nothing of it is open and else stays as it was, partially executed, and is
/// otherwise as it was handed in. No other order of any gridpool changes.
pub proof fn the_orders_met_are_filled(w: WorldV, o: OrderV, pool: Option<u64>, now: Timestamp)
    requires
        in_order(w),
        pool matches Some(p) ==> holds(w.gridpools, p),
        o.quantity > 0,
        o.side != Side::Unspecified,
        w.next_order_id < u64::MAX,
    ensures
        ({
            let a = admitted(w, o, pool, now);
            let after = a.world;
            &&& forall|i: int|
                0 <= i < a.takes.len() && w.owners.contains_key((#[trigger] a.takes[i]).entry.id)
                    ==> {
                    let t = a.takes[i];
                    let p = w.owners[t.entry.id];
                    let was = detail_at(w, p, t.entry.id);
                    let is = detail_at(after, p, t.entry.id);
                    &&& is.id == was.id
                    &&& is.order == was.order
                    &&& is.create_time == was.create_time
                    &&& is.modification_time == now
                    &&& is.filled_quantity == was.filled_quantity + t.quantity
                    &&& is.open_quantity == was.open_quantity - t.quantity
                    &&& is.open_quantity >= 0
                    &&& was.order.price == t.entry.price
                    &&& was.open_quantity == t.entry.open
                    &&& is.state.actor == MarketActor::System
                    &&& is.open_quantity == 0 ==> is.state.state == OrderState::Filled
                        && is.state.reason == StateReason::FullExecution
                    &&& is.open_quantity > 0 ==> is.state.state == was.state.state
                        && is.state.reason == StateReason::PartialExecution
                    &&& after.owners.contains_key(t.entry.id) <==> is.open_quantity > 0
                }
            &&& forall|p: u64, id: u64|
                on_pool(w, p, id) && !touches(a.takes, id) ==> #[trigger] detail_at(after, p, id)
                    == detail_at(w, p, id)
        }),
{
    lemma_parts(w, o, pool, now);
    let a = admitted(w, o, pool, now);
    let keys = candidates(w, home(o), now);
    let s = swept(w.books, keys, o.side, o.price, o.quantity);
    lemma_swept(w.books, keys, o.side, o.price, o.quantity);
    assert forall|i: int|
        0 <= i < a.takes.len() && w.owners.contains_key(
            (#[trigger] a.takes[i]).entry.id,
        ) implies detail_at(a.world, w.owners[a.takes[i].entry.id], a.takes[i].entry.id)
        == maker_filled(
        detail_at(w, w.owners[a.takes[i].entry.id], a.takes[i].entry.id),
        a.takes[i].quantity,
        now,
    ) && detail_at(w, w.owners[a.takes[i].entry.id], a.takes[i].entry.id).open_quantity
        == a.takes[i].entry.open && detail_at(
        w,
        w.owners[a.takes[i].entry.id],
        a.takes[i].entry.id,
    ).order.price == a.takes[i].entry.price && a.takes[i] == s.takes[i] by {
        lemma_take_of_bound(w, None, a.takes[i], o.side);
        assert(on_pool(w, w.owners[a.takes[i].entry.id], a.takes[i].entry.id));
    }
}

/// The books lose exactly what is traded: an order that was taken whole is
/// gone, one that was taken in part stays at its price with the rest, and
/// every other order on the far side stays as it is. On the taker's own side
/// nothing changes but that the order itself may join its contract's book.
pub proof fn the_books_lose_what_is_traded(w: WorldV, o: OrderV, pool: Option<u64>, now: Timestamp)
    requires
        in_order(w),
        pool matches Some(p) ==> holds(w.gridpools, p),
        o.quantity > 0,
        o.side == Side::Buy || o.side == Side::Sell,
        w.next_order_id < u64::MAX,
    ensures
        ({
            let a = admitted(w, o, pool, now);
            let far = if o.side == Side::Buy {
                Side::Sell
            } else {
                Side::Buy
            };
            &&& forall|i: int|
                0 <= i < a.takes.len() ==> {
                    let t = #[trigger] a.takes[i];
                    let q = queue_of(book_at(a.world.books, t.key), far);
                    &&& queue_of(book_at(w.books, t.key), far).contains(t.entry)
                    &&& t.quantity == t.entry.open ==> !has_id(q, t.entry.id)
                    &&& t.quantity != t.entry.open ==> q.contains(
                        EntryV {
                            id: t.entry.id,
                            price: t.entry.price,
                            open: t.entry.open - t.quantity,
                        },
                    )
                }
            &&& forall|k: KeyV, e: EntryV|
                o.side == Side::Buy && book_at(w.books, k).asks.contains(e) && !touches(
                    a.takes,
                    e.id,
                ) ==> #[trigger] book_at(a.world.books, k).asks.contains(e)
            &&& forall|k: KeyV, e: EntryV|
                o.side == Side::Sell && book_at(w.books, k).bids.contains(e) && !touches(
                    a.takes,
                    e.id,
                ) ==> #[trigger] book_at(a.world.books, k).bids.contains(e)
            &&& forall|k: KeyV, e: EntryV| #[trigger]
                queue_of(book_at(a.world.books, k), o.side).contains(e) <==> queue_of(
                    book_at(w.books, k),
                    o.side,
                ).contains(e) || (k == home(o) && a.rested is Some && e == EntryV {
                    id: w.next_order_id,
                    price: o.price,
                    open: o.quantity - take_total(a.takes),
                })
        }),
{
    lemma_parts(w, o, pool, now);
    let a = admitted(w, o, pool, now);
    let keys = candidates(w, home(o), now);
    let s = swept(w.books, keys, o.side, o.price, o.quantity);
    lemma_swept(w.books, keys, o.side, o.price, o.quantity);
    let far = other_side(o.side);
    let numbered = WorldV { next_order_id: (w.next_order_id + 1) as u64, ..w };
    lemma_crossed_keeps(
        numbered,
        a.taker,
        o.price,
        o.quantity,
        mode_of(o.execution_option),
        now,
    );
    if a.rested is Some {
        let b = book_at(s.books, home(o));
        let e = EntryV { id: w.next_order_id, price: o.price, open: s.left };
        lemma_joined(s.books, home(o), o.side, e);
    }
    assert forall|i: int| 0 <= i < a.takes.len() implies {
        let t = #[trigger] a.takes[i];
        let q = queue_of(book_at(a.world.books, t.key), far);
        &&& queue_of(book_at(w.books, t.key), far).contains(t.entry)
        &&& t.quantity == t.entry.open ==> !has_id(q, t.entry.id)
        &&& t.quantity != t.entry.open ==> q.contains(
            EntryV { id: t.entry.id, price: t.entry.price, open: t.entry.open - t.quantity },
        )
    } by {
        let t = a.takes[i];
        assert(t == s.takes[i]);
        assert(opposite(w.books, t.key, o.side).contains(t.entry));
        let q = queue_of(book_at(a.world.books, t.key), far);
        assert(q == opposite(s.books, t.key, o.side));
        if t.quantity == t.entry.open && has_id(q, t.entry.id) {
            lemma_side_rests(book_at(s.books, t.key), far, t.entry.id);
        }
    }
    assert forall|k: KeyV, e: EntryV|
        queue_of(book_at(w.books, k), far).contains(e) && !touches(
            a.takes,
            e.id,
        ) implies #[trigger] queue_of(book_at(a.world.books, k), far).contains(e) by {
        if a.takes == s.takes {
            assert(opposite(w.books, k, o.side).contains(e));
            assert(opposite(s.books, k, o.side).contains(e));
        }
    }
    assert forall|k: KeyV, e: EntryV|
        o.side == Side::Buy && book_at(w.books, k).asks.contains(e) && !touches(
            a.takes,
            e.id,
        ) implies #[trigger] book_at(a.world.books, k).asks.contains(e) by {
        assert(queue_of(book_at(a.world.books, k), far).contains(e));
    }
    assert forall|k: KeyV, e: EntryV|
        o.side == Side::Sell && book_at(w.books, k).bids.contains(e) && !touches(
            a.takes,
            e.id,
        ) implies #[trigger] book_at(a.world.books, k).bids.contains(e) by {
        assert(queue_of(book_at(a.world.books, k), far).contains(e));
    }
}

/// An order that joins one book: it is there, on its side, with everybody who
/// was; nothing else changes.
pub proof fn lemma_joined(books: Seq<(KeyV, BookV)>, key: KeyV, side: Side, e: EntryV)
    requires
        books_wf(books),
        side == Side::Buy || side == Side::Sell,
        !rests(book_at(books, key), e.id),
    ensures
        ({
            let after = stored(books, key, inserted(book_at(books, key), side, e));
            &&& forall|k: KeyV|
                queue_of(#[trigger] book_at(after, k), other_side(side)) == queue_of(
                    book_at(books, k),
                    other_side(side),
                )
            &&& forall|k: KeyV, x: EntryV| #[trigger]
                queue_of(book_at(after, k), side).contains(x) <==> queue_of(
                    book_at(books, k),
                    side,
                ).contains(x) || (k == key && x == e)
        }),
{
    let b = book_at(books, key);
    let next = inserted(b, side, e);
    let after = stored(books, key, next);
    lemma_book_at_wf(books, key);
    lemma_stored(books, key, next);
    let q = queue_of(b, side);
    let at = rank(side, q, e.price);
    lemma_rank_bounds(side, q, e.price);
    let r = q.insert(at, e);
    assert(queue_of(next, side) == r);
    assert forall|k: KeyV| #[trigger] book_at(after, k) == if k == key {
        next
    } else {
        book_at(books, k)
    } by {
        assert(holds(after, k) <==> holds(books, k) || k == key);
        if k != key && holds(books, k) {
            assert(value_at(after, k) == value_at(books, k));
        }
    }
    assert forall|x: EntryV| #[trigger] r.contains(x) <==> q.contains(x) || x == e by {
        if r.contains(x) {
            let i = choose|i: int| 0 <= i < r.len() && r[i] == x;
            if i < at {
                assert(q[i] == x);
            } else if i > at {
                assert(q[i - 1] == x);
            }
        }
        if q.contains(x) {
            let i = choose|i: int| 0 <= i < q.len() && q[i] == x;
            if i < at {
                assert(r[i] == x);
            } else {
                assert(r[i + 1] == x);
            }
        }
        if x == e {
            assert(r[at] == e);
        }
    }
}

/// What a sweep leaves is no better than anything it took.
proof fn lemma_left_no_better(
    books: Seq<(KeyV, BookV)>,
    keys: Seq<KeyV>,
    side: Side,
    limit: int,
    qty: int,
    i: int,
    m: int,
    e: EntryV,
)
    requires
        books_wf(books),
        books_open(books),
        side != Side::Unspecified,
        qty >= 0,
        0 <= i < swept(books, keys, side, limit, qty).takes.len(),
        0 <= m < keys.len(),
        opposite(swept(books, keys, side, limit, qty).books, keys[m], side).contains(e),
    ensures
        !better(
            other_side(side),
            e.price,
            swept(books, keys, side, limit, qty).takes[i].entry.price,
        ),
    decreases resting_count(books, other_side(side)), qty,
{
    let far = other_side(side);
    let s = swept(books, keys, side, limit, qty);
    lemma_swept(books, keys, side, limit, qty);
    best_offer_is_best(books, keys, side, limit, m);
    lemma_best_offer_valid(books, keys, side, limit);
    let at = best_offer(books, keys, side, limit)->0;
    let key = keys[at];
    let e0 = opposite(books, key, side)[0];
    let t = lesser(qty, e0.open);
    lemma_swept_step(books, keys, side, limit, qty);
    let after = books_taken(books, key, side, qty);
    lemma_taken(books, key, side, limit, qty);
    if i == 0 {
        let q = opposite(s.books, keys[m], side);
        let n = choose|n: int| 0 <= n < q.len() && q[n] == e;
        lemma_book_at_wf(s.books, keys[m]);
        if n > 0 {
            assert(!better(far, q[n].price, q[0].price));
        }
        assert(front_no_better(books, s.books, keys[m], side));
    } else {
        lemma_left_no_better(after, keys, side, limit, qty - t, i - 1, m, e);
    }
}

/// Whoever stood before an order in its queue is gone once the order was
/// taken from.
proof fn lemma_first_come(
    books: Seq<(KeyV, BookV)>,
    keys: Seq<KeyV>,
    side: Side,
    limit: int,
    qty: int,
    i: int,
    k: KeyV,
    m: int,
    n: int,
)
    requires
        books_wf(books),
        books_open(books),
        ids_unique(books),
        side != Side::Unspecified,
        qty >= 0,
        0 <= i < swept(books, keys, side, limit, qty).takes.len(),
        swept(books, keys, side, limit, qty).takes[i].key == k,
        0 <= m < n < opposite(books, k, side).len(),
        opposite(books, k, side)[n].id == swept(books, keys, side, limit, qty).takes[i].entry.id,
    ensures
        !rests(
            book_at(swept(books, keys, side, limit, qty).books, k),
            opposite(books, k, side)[m].id,
        ),
    decreases resting_count(books, other_side(side)), qty,
{
    let far = other_side(side);
    let s = swept(books, keys, side, limit, qty);
    lemma_best_offer_valid(books, keys, side, limit);
    let at = best_offer(books, keys, side, limit)->0;
    let key = keys[at];
    let q = opposite(books, k, side);
    let e0 = opposite(books, key, side)[0];
    let t = lesser(qty, e0.open);
    lemma_swept_step(books, keys, side, limit, qty);
    let after = books_taken(books, key, side, qty);
    lemma_taken(books, key, side, limit, qty);
    lemma_take_entries(books, key, side, limit, qty);
    lemma_book_at_wf(books, k);
    lemma_queue_distinct(book_at(books, k), far);
    let rest = swept(after, keys, side, limit, qty - t);
    if i == 0 {
        assert(q[0].id != q[n].id);
    } else if key != k {
        assert(opposite(after, k, side) == q);
        lemma_first_come(after, keys, side, limit, qty - t, i - 1, k, m, n);
    } else if e0.open <= qty {
        assert(opposite(after, k, side) == front_taken(q, qty));
        assert(front_taken(q, qty) =~= q.drop_first());
        if m == 0 {
            lemma_swept_entries(after, keys, side, limit, qty - t);
            if rests(book_at(rest.books, k), q[0].id) {
                assert(rests(book_at(after, k), q[0].id));
            }
        } else {
            lemma_first_come(after, keys, side, limit, qty - t, i - 1, k, m - 1, n - 1);
        }
    } else {
        lemma_swept_nothing(after, keys, side, limit);
    }
}

/// Trades go to the best price first, and at one price to who came first: what
/// rests in reach after an order was admitted is at no better a price than any
/// order it took from, and nobody who stood before such an order in its queue
/// rests any more.
pub proof fn best_price_and_first_come_trade_first(
    w: WorldV,
    o: OrderV,
    pool: Option<u64>,
    now: Timestamp,
    i: int,
)
    requires
        in_order(w),
        pool matches Some(p) ==> holds(w.gridpools, p),
        o.quantity > 0,
        o.side == Side::Buy || o.side == Side::Sell,
        w.next_order_id < u64::MAX,
        0 <= i < admitted(w, o, pool, now).takes.len(),
    ensures
        ({
            let a = admitted(w, o, pool, now);
            let t = a.takes[i];
            let keys = candidates(w, home(o), now);
            &&& forall|k: KeyV, e: EntryV|
                keys.contains(k) && o.side == Side::Buy && #[trigger] book_at(
                    a.world.books,
                    k,
                ).asks.contains(e) ==> e.price >= t.entry.price
            &&& forall|k: KeyV, e: EntryV|
                keys.contains(k) && o.side == Side::Sell && #[trigger] book_at(
                    a.world.books,
                    k,
                ).bids.contains(e) ==> e.price <= t.entry.price
            &&& forall|m: int, n: int|
                #![trigger book_at(w.books, t.key).asks[m], book_at(w.books, t.key).asks[n]]
                o.side == Side::Buy && 0 <= m < n < book_at(w.books, t.key).asks.len() && book_at(
                    w.books,
                    t.key,
                ).asks[n] == t.entry ==> !has_id(
                    book_at(a.world.books, t.key).asks,
                    book_at(w.books, t.key).asks[m].id,
                )
            &&& forall|m: int, n: int|
                #![trigger book_at(w.books, t.key).bids[m], book_at(w.books, t.key).bids[n]]
                o.side == Side::Sell && 0 <= m < n < book_at(w.books, t.key).bids.len() && book_at(
                    w.books,
                    t.key,
                ).bids[n] == t.entry ==> !has_id(
                    book_at(a.world.books, t.key).bids,
                    book_at(w.books, t.key).bids[m].id,
                )
        }),
{
    lemma_parts(w, o, pool, now);
    let a = admitted(w, o, pool, now);
    let t = a.takes[i];
    let keys = candidates(w, home(o), now);
    let s = swept(w.books, keys, o.side, o.price, o.quantity);
    if a.rested is Some {
        lemma_joined(
            s.books,
            home(o),
            o.side,
            EntryV { id: w.next_order_id, price: o.price, open: s.left },
        );
    }
    lemma_swept(w.books, keys, o.side, o.price, o.quantity);
    lemma_crossed_keeps(
        WorldV { next_order_id: (w.next_order_id + 1) as u64, ..w },
        a.taker,
        o.price,
        o.quantity,
        mode_of(o.execution_option),
        now,
    );
    assert(a.takes == s.takes);
    assert forall|k: KeyV| keys.contains(k) implies queue_of(
        #[trigger] book_at(a.world.books, k),
        other_side(o.side),
    ) == opposite(s.books, k, o.side) by {
        if a.rested is None {
            assert(a.world.books == s.books);
        }
    }
    assert forall|k: KeyV, e: EntryV|
        keys.contains(k) && o.side == Side::Buy && #[trigger] book_at(
            a.world.books,
            k,
        ).asks.contains(e) implies e.price >= t.entry.price by {
        let m = choose|m: int| 0 <= m < keys.len() && keys[m] == k;
        lemma_left_no_better(w.books, keys, o.side, o.price, o.quantity, i, m, e);
    }
    assert forall|k: KeyV, e: EntryV|
        keys.contains(k) && o.side == Side::Sell && #[trigger] book_at(
            a.world.books,
            k,
        ).bids.contains(e) implies e.price <= t.entry.price by {
        let m = choose|m: int| 0 <= m < keys.len() && keys[m] == k;
        lemma_left_no_better(w.books, keys, o.side, o.price, o.quantity, i, m, e);
    }
    assert forall|m: int, n: int|
        #![trigger book_at(w.books, t.key).asks[m], book_at(w.books, t.key).asks[n]]
        o.side == Side::Buy && 0 <= m < n < book_at(w.books, t.key).asks.len() && book_at(
            w.books,
            t.key,
        ).asks[n] == t.entry implies !has_id(
        book_at(a.world.books, t.key).asks,
        book_at(w.books, t.key).asks[m].id,
    ) by {
        lemma_first_come(w.books, keys, o.side, o.price, o.quantity, i, t.key, m, n);
    }
    assert forall|m: int, n: int|
        #![trigger book_at(w.books, t.key).bids[m], book_at(w.books, t.key).bids[n]]
        o.side == Side::Sell && 0 <= m < n < book_at(w.books, t.key).bids.len() && book_at(
            w.books,
            t.key,
        ).bids[n] == t.entry implies !has_id(
        book_at(a.world.books, t.key).bids,
        book_at(w.books, t.key).bids[m].id,
    ) by {
        lemma_first_come(w.books, keys, o.side, o.price, o.quantity, i, t.key, m, n);
    }
}

/// An order trades as much as it can: where it is not all or nothing and does
/// not trade its whole quantity, nothing is left that it could have traded
/// with, on its own contract or on one it may match across.
pub proof fn orders_trade_all_they_can(w: WorldV, o: OrderV, pool: Option<u64>, now: Timestamp)
    requires
        in_order(w),
        pool matches Some(p) ==> holds(w.gridpools, p),
        o.quantity > 0,
        o.side == Side::Buy || o.side == Side::Sell,
        w.next_order_id < u64::MAX,
        o.execution_option != Some(ExecutionOption::Fok),
        take_total(admitted(w, o, pool, now).takes) < o.quantity,
    ensures
        ({
            let after = admitted(w, o, pool, now).world;
            let keys = candidates(w, home(o), now);
            &&& forall|k: KeyV, e: EntryV|
                keys.contains(k) && o.side == Side::Buy && #[trigger] book_at(
                    after.books,
                    k,
                ).asks.contains(e) ==> e.price > o.price
            &&& forall|k: KeyV, e: EntryV|
                keys.contains(k) && o.side == Side::Sell && #[trigger] book_at(
                    after.books,
                    k,
                ).bids.contains(e) ==> e.price < o.price
        }),
{
    lemma_parts(w, o, pool, now);
    let a = admitted(w, o, pool, now);
    let keys = candidates(w, home(o), now);
    let s = swept(w.books, keys, o.side, o.price, o.quantity);
    lemma_swept(w.books, keys, o.side, o.price, o.quantity);
    if a.rested is Some {
        lemma_joined(
            s.books,
            home(o),
            o.side,
            EntryV { id: w.next_order_id, price: o.price, open: s.left },
        );
    }
    assert forall|k: KeyV, e: EntryV|
        keys.contains(k) && #[trigger] opposite(s.books, k, o.side).contains(e) implies !crosses(
        o.side,
        o.price,
        e.price,
    ) by {
        let m = choose|m: int| 0 <= m < keys.len() && keys[m] == k;
        leftover_finds_nothing_in_reach(w.books, keys, o.side, o.price, o.quantity, m);
        let q = opposite(s.books, k, o.side);
        let n = choose|n: int| 0 <= n < q.len() && q[n] == e;
        lemma_book_at_wf(s.books, k);
        if n > 0 {
            assert(!better(other_side(o.side), q[n].price, q[0].price));
        }
    }
    assert forall|k: KeyV, e: EntryV|
        keys.contains(k) && o.side == Side::Buy && #[trigger] book_at(
            a.world.books,
            k,
        ).asks.contains(e) implies e.price > o.price by {
        assert(queue_of(book_at(a.world.books, k), Side::Sell) == opposite(s.books, k, o.side));
        assert(opposite(s.books, k, o.side).contains(e));
    }
    assert forall|k: KeyV, e: EntryV|
        keys.contains(k) && o.side == Side::Sell && #[trigger] book_at(
            a.world.books,
            k,
        ).bids.contains(e) implies e.price < o.price by {
        assert(queue_of(book_at(a.world.books, k), Side::Buy) == opposite(s.books, k, o.side));
        assert(opposite(s.books, k, o.side).contains(e));
    }
}

/// A restriction does not change what an order meets, only what becomes of the
/// rest: immediate-or-cancel trades just what the same order without a
/// restriction would; fill-or-kill trades that where it is the whole quantity,
/// and nothing where it is not. Neither rests; the plain order rests with what
/// it does not trade.
pub proof fn restrictions_only_decide_on_the_rest(
    w: WorldV,
    o: OrderV,
    pool: Option<u64>,
    now: Timestamp,
)
    requires
        in_order(w),
        pool matches Some(p) ==> holds(w.gridpools, p),
        o.quantity > 0,
        o.side == Side::Buy || o.side == Side::Sell,
        w.next_order_id < u64::MAX,
    ensures
        ({
            let plain = admitted(w, OrderV { execution_option: None, ..o }, pool, now);
            let ioc = admitted(
                w,
                OrderV { execution_option: Some(ExecutionOption::Ioc), ..o },
                pool,
                now,
            );
            let fok = admitted(
                w,
                OrderV { execution_option: Some(ExecutionOption::Fok), ..o },
                pool,
                now,
            );
            let traded = take_total(plain.takes);
            &&& ioc.takes == plain.takes
            &&& traded == o.quantity ==> fok.takes == plain.takes
            &&& traded < o.quantity ==> fok.takes.len() == 0
            &&& traded <= o.quantity
            &&& ioc.rested is None
            &&& fok.rested is None
            &&& traded == o.quantity ==> plain.rested is None
            &&& traded < o.quantity ==> plain.rested == Some(o.quantity - traded)
        }),
{
    let plain = OrderV { execution_option: None, ..o };
    let ioc = OrderV { execution_option: Some(ExecutionOption::Ioc), ..o };
    let fok = OrderV { execution_option: Some(ExecutionOption::Fok), ..o };
    lemma_parts(w, plain, pool, now);
    lemma_parts(w, ioc, pool, now);
    lemma_parts(w, fok, pool, now);
    let keys = candidates(w, home(o), now);
    lemma_swept(w.books, keys, o.side, o.price, o.quantity);
    sweep_finds_what_is_in_reach(w.books, keys, o.side, o.price, o.quantity);
    let numbered = WorldV { next_order_id: (w.next_order_id + 1) as u64, ..w };
    lemma_candidates_same(w, numbered, home(o), now);
}

} // verus!
