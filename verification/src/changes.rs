//! What the book stream shows of updates, and who trades first at one price.

use crate::answers::{lemma_applied_detail, lemma_thin_open, updates_write_what_they_name};
use crate::book::{
    better, book_wf, cancel_touches_one_order, canceled, has_id, lemma_rank_bounds, lesser,
    place_of, queue_of, rank, rests, with_queue, BookV, EntryV,
};
use crate::filing::lemma_run_filed;
use crate::ledger::lemma_book_at_wf;
use crate::lifecycle::lemma_crossed_keeps;
use crate::linkage::{in_order, lemma_fills_are_takes, lemma_rematched_links, takes_on};
use crate::matching::{all_open, matched, sweep, ExecMode, FillV};
use crate::model::{
    admitted, best_offer, book_at, books_taken, books_wf, candidates, detail_at, fills_traced,
    key_of, mode_of, modified, modify_rejection, open_on, opposite, rematch_of, resting_count,
    reworked, stays_put, swept, update_applied, KeyV, Taker, UpdateV, WorldV,
};
use crate::order::{other_side, OrderV, Side};
use crate::rematching::{
    facing, far_side, fills_come_off_the_front, goes_again, lemma_concluded, lemma_met,
    lemma_prepared, lemma_quiet_update, prepared, renewed, retaken, retaker,
};
use crate::showing::{known_since, shown};
use crate::sweeping::{books_open, front_no_better, keys_distinct, lemma_swept, lemma_taken};
use crate::table::{holds, lemma_stored, stored, value_at};
use crate::tidings::lemma_recorded_shows_nothing;
use crate::time::Timestamp;
use crate::trading::{home, lemma_joined, lemma_parts};
use crate::volume::{best_offer_is_best, lemma_best_offer_valid, lemma_swept_step};
use vstd::prelude::*;

verus! {

/// One of the fills is with the order with this id.
spec fn meets(fills: Seq<FillV>, id: u64) -> bool {
    exists|i: int| 0 <= i < fills.len() && (#[trigger] fills[i]).maker_id == id
}

/// No two fills are with the same order.
spec fn makers_differ(fills: Seq<FillV>) -> bool {
    forall|i: int, j: int|
        0 <= i < j < fills.len() ==> (#[trigger] fills[i]).maker_id != (
        #[trigger] fills[j]).maker_id
}

/// What the fills on one contract put onto the book stream.
proof fn lemma_fills_shown(
    w: WorldV,
    taker: Taker,
    fills: Seq<FillV>,
    book: BookV,
    now: Timestamp,
)
    requires
        makers_differ(fills),
        taker.side == Side::Buy || taker.side == Side::Sell,
    ensures
        ({
            let after = fills_traced(w, taker, fills, book, now);
            let n = w.outbox.book_records.len() as int;
            let all = after.outbox.book_records;
            &&& all.len() == n + fills.len()
            &&& all.take(n) == w.outbox.book_records
            &&& forall|i: int|
                0 <= i < fills.len() ==> (#[trigger] all[n + i]) == shown(
                    fills[i].maker_id,
                    taker.key,
                    if taker.side == Side::Buy {
                        2
                    } else {
                        1
                    },
                    fills[i].price,
                    taker.currency,
                    open_on(book, fills[i].maker_id),
                    known_since(w, fills[i].maker_id, now),
                    now,
                )
            &&& forall|id: u64|
                !meets(fills, id) ==> (#[trigger] after.first_seen.contains_key(id)
                    <==> w.first_seen.contains_key(id)) && known_since(after, id, now)
                    == known_since(w, id, now)
        }),
    decreases fills.len(),
{
    let n = w.outbox.book_records.len() as int;
    let after = fills_traced(w, taker, fills, book, now);
    let all = after.outbox.book_records;
    if fills.len() == 0 {
        assert(all.take(n) =~= w.outbox.book_records);
    } else {
        let some = fills.drop_last();
        let f = fills.last();
        let last = fills.len() - 1;
        let mid = fills_traced(w, taker, some, book, now);
        let before = mid.outbox.book_records;
        assert forall|i: int, j: int| 0 <= i < j < some.len() implies (#[trigger] some[i]).maker_id
            != (#[trigger] some[j]).maker_id by {
            assert(fills[i].maker_id != fills[j].maker_id);
        }
        lemma_fills_shown(w, taker, some, book, now);
        assert(all.drop_last() =~= before);
        assert(all.take(n) =~= before.take(n));
        if meets(some, f.maker_id) {
            let i = choose|i: int| 0 <= i < some.len() && (#[trigger] some[i]).maker_id == f.maker_id;
            assert(fills[i].maker_id != fills[last].maker_id);
        }
        assert(known_since(mid, f.maker_id, now) == known_since(w, f.maker_id, now)) by {
            assert(mid.first_seen.contains_key(f.maker_id) <==> w.first_seen.contains_key(
                f.maker_id,
            ));
        }
        assert forall|i: int| 0 <= i < fills.len() implies (#[trigger] all[n + i]) == shown(
            fills[i].maker_id,
            taker.key,
            if taker.side == Side::Buy {
                2
            } else {
                1
            },
            fills[i].price,
            taker.currency,
            open_on(book, fills[i].maker_id),
            known_since(w, fills[i].maker_id, now),
            now,
        ) by {
            if i < some.len() {
                assert(all[n + i] == before[n + i]);
                assert(some[i] == fills[i]);
            }
        }
        assert forall|id: u64| !meets(fills, id) implies (#[trigger] after.first_seen.contains_key(
            id,
        ) <==> w.first_seen.contains_key(id)) && known_since(after, id, now) == known_since(
            w,
            id,
            now,
        ) by {
            if meets(some, id) {
                let i = choose|i: int| 0 <= i < some.len() && (#[trigger] some[i]).maker_id == id;
                assert(fills[i].maker_id == id);
            }
            assert(fills[last].maker_id == f.maker_id);
            assert(id != f.maker_id);
            assert(mid.first_seen.contains_key(id) <==> w.first_seen.contains_key(id));
        }
    }
}

/// What an order that was met has left on the book.
proof fn lemma_open_left(b: BookV, id: u64, side: Side, price: int, qty: int, i: int)
    requires
        book_wf(b),
        all_open(b.bids),
        all_open(b.asks),
        side == Side::Buy || side == Side::Sell,
        qty > 0,
        !rests(b, id),
        0 <= i < matched(b, id, side, price, qty, ExecMode::Resting).fills.len(),
    ensures
        ({
            let m = matched(b, id, side, price, qty, ExecMode::Resting);
            open_on(m.book, m.fills[i].maker_id) == far_side(b, side)[i].open
                - m.fills[i].quantity
        }),
{
    let m = matched(b, id, side, price, qty, ExecMode::Resting);
    let far = far_side(b, side);
    let rest = far_side(m.book, side);
    let n = m.fills.len() as int;
    fills_come_off_the_front(b, id, side, price, qty, ExecMode::Resting);
    let maker = far[i].id;
    assert(m.fills[i].maker_id == maker);
    let own = queue_of(b, side);
    let now_own = queue_of(m.book, side);
    let s = sweep(side, price, qty, queue_of(b, other_side(side)));
    let e = EntryV { id, price, open: s.left };
    lemma_rank_bounds(side, own, price);
    let k = rank(side, own, price);
    assert(now_own == own || now_own == own.insert(k, e)) by {
        let left = with_queue(b, other_side(side), s.queue);
        assert(queue_of(left, side) == own);
    }
    assert(maker != id) by {
        if maker == id {
            assert(has_id(far, id));
        }
    }
    assert(!has_id(now_own, maker)) by {
        if has_id(now_own, maker) {
            let j = place_of(now_own, maker);
            assert(now_own[j].id == maker);
            if now_own == own {
                assert(own[j].id == far[i].id);
            } else if j < k {
                assert(now_own[j] == own[j]);
                assert(own[j].id == far[i].id);
            } else if j > k {
                assert(now_own[j] == own[j - 1]);
                assert(own[j - 1].id == far[i].id);
            } else {
                assert(now_own[j] == e);
            }
        }
    }
    let part = m.fills[n - 1].quantity < far[n - 1].open;
    let d: int = if part {
        1
    } else {
        0
    };
    assert forall|j: int| 0 <= j < rest.len() implies (#[trigger] rest[j]).id == if part && j == 0 {
        far[n - 1].id
    } else {
        far[n + j - d].id
    } by {
        if !(part && j == 0) {
            assert(rest[rest.len() - far.len() + n + (j - d)] == far[n + (j - d)]);
        }
    }
    if i == n - 1 && part {
        assert(rest[0].id == maker);
        let j = place_of(rest, maker);
        assert(rest[j].id == maker);
        if j != 0 {
            assert(far[n + j - d].id == far[n - 1].id);
        }
    } else if has_id(rest, maker) {
        let j = place_of(rest, maker);
        assert(rest[j].id == maker);
        if part && j == 0 {
            assert(far[i].id == far[n - 1].id);
        } else {
            assert(far[i].id == far[n + j - d].id);
        }
    }
}

/// The book stream shows what an update does to the books, in order: every
/// order that the updated one trades with, at its price, with what is left of
/// it; then the updated order, as it now stands, with what of it is open.
pub proof fn updates_show_every_change(
    w: WorldV,
    pool: u64,
    id: u64,
    u: UpdateV,
    now: Timestamp,
)
    requires
        in_order(w),
        modify_rejection(w, pool, id, u, now) is None,
        ({
            let o = detail_at(w, pool, id).order;
            &&& o.side == Side::Buy || o.side == Side::Sell
            &&& w.next_trade_id + facing(w, o).len() <= u64::MAX
        }),
    ensures
        ({
            let o = detail_at(w, pool, id).order;
            let key = KeyV { area: o.area, period: o.period };
            let far = facing(w, o);
            let after = modified(w, pool, id, u, now);
            let d = detail_at(after, pool, id);
            let base = w.outbox.book_records.len() as int;
            let all = after.outbox.book_records;
            let first = w.outbox.public_trades.len() as int;
            let tape = after.outbox.public_trades;
            let n = tape.len() - first;
            &&& all.len() == base + n + 1
            &&& all.take(base) == w.outbox.book_records
            &&& forall|i: int|
                #![trigger all[base + i]]
                0 <= i < n ==> all[base + i] == shown(
                    far[i].id,
                    key,
                    if o.side == Side::Buy {
                        2
                    } else {
                        1
                    },
                    far[i].price,
                    o.currency,
                    far[i].open - tape[first + i].quantity,
                    known_since(w, far[i].id, now),
                    now,
                )
            &&& all.last() == shown(
                id,
                key,
                if o.side == Side::Buy {
                    1
                } else {
                    2
                },
                d.order.price,
                o.currency,
                d.open_quantity,
                known_since(w, id, now),
                now,
            )
        }),
{
    let o = detail_at(w, pool, id).order;
    let far = facing(w, o);
    let after = modified(w, pool, id, u, now);
    let base = w.outbox.book_records.len() as int;
    let all = after.outbox.book_records;
    let first = w.outbox.public_trades.len() as int;
    let tape = after.outbox.public_trades;
    let r = reworked(w, pool, id, u, now);
    updates_write_what_they_name(w, pool, id, u, now);
    assert(detail_at(after, pool, id) == detail_at(r, pool, id));
    lemma_before_the_last(w, pool, id, u, now);
    let before = r.outbox.book_records;
    assert(all.drop_last() =~= before);
    assert(all.take(base) =~= before.take(base));
    let n = tape.len() - first;
    assert forall|i: int|
        #![trigger all[base + i]]
        0 <= i < n implies all[base + i] == before[base + i] by {}
}

/// What an updated order puts onto the stream before it is shown itself.
proof fn lemma_before_the_last(w: WorldV, pool: u64, id: u64, u: UpdateV, now: Timestamp)
    requires
        in_order(w),
        modify_rejection(w, pool, id, u, now) is None,
        ({
            let o = detail_at(w, pool, id).order;
            &&& o.side == Side::Buy || o.side == Side::Sell
            &&& w.next_trade_id + facing(w, o).len() <= u64::MAX
        }),
    ensures
        ({
            let o = detail_at(w, pool, id).order;
            let far = facing(w, o);
            let r = reworked(w, pool, id, u, now);
            let base = w.outbox.book_records.len() as int;
            let all = r.outbox.book_records;
            let first = w.outbox.public_trades.len() as int;
            let tape = modified(w, pool, id, u, now).outbox.public_trades;
            let n = tape.len() - first;
            &&& n >= 0
            &&& all.len() == base + n
            &&& all.take(base) == w.outbox.book_records
            &&& forall|i: int|
                #![trigger all[base + i]]
                0 <= i < n ==> all[base + i] == shown(
                    far[i].id,
                    key_of(o),
                    if o.side == Side::Buy {
                        2
                    } else {
                        1
                    },
                    far[i].price,
                    o.currency,
                    far[i].open - tape[first + i].quantity,
                    known_since(w, far[i].id, now),
                    now,
                )
            &&& known_since(r, id, now) == known_since(w, id, now)
            &&& detail_at(r, pool, id).id == id
        }),
{
    let o = detail_at(w, pool, id).order;
    let far = facing(w, o);
    let r = reworked(w, pool, id, u, now);
    let after = modified(w, pool, id, u, now);
    let base = w.outbox.book_records.len() as int;
    let all = r.outbox.book_records;
    let first = w.outbox.public_trades.len() as int;
    updates_write_what_they_name(w, pool, id, u, now);
    assert(detail_at(after, pool, id) == detail_at(r, pool, id));
    if !goes_again(w, pool, id, u, now) {
        lemma_quiet_update(w, pool, id, u, now);
        if !stays_put(w, pool, id, u) {
            lemma_applied_detail(w, pool, id, u, now);
        }
        assert(all.take(base) =~= w.outbox.book_records);
    } else {
        let d = renewed(w, pool, id, u, now);
        let tk = retaker(w, pool, id);
        let taken = retaken(w, pool, id, u, now);
        let takes = takes_on(tk.key, taken);
        let v = update_applied(w, pool, id, u, now);
        let m = rematch_of(v, pool, id);
        let w0 = WorldV { books: stored(v.books, tk.key, m.book), ..v };
        let w1 = prepared(w, pool, id, u, now);
        lemma_met(w, pool, id, u, now);
        lemma_prepared(w, pool, id, u, now);
        lemma_concluded(w, pool, id, u, now);
        lemma_applied_detail(w, pool, id, u, now);
        lemma_thin_open(w, pool, id, u, now);
        lemma_rematched_links(w, pool, id, u, now);
        lemma_run_filed(w1, tk, Some(pool), takes, now);
        assert forall|i: int, j: int| 0 <= i < j < m.fills.len() implies (
        #[trigger] m.fills[i]).maker_id != (#[trigger] m.fills[j]).maker_id by {
            assert(taken[i].0 == far[i] && taken[j].0 == far[j]);
        }
        lemma_fills_shown(w0, tk, m.fills, m.book, now);
        lemma_fills_are_takes(w1, tk, Some(pool), taken, now);
        lemma_recorded_shows_nothing(w1, tk, Some(pool), takes, now);
        assert(all == w1.outbox.book_records);
        assert(r.first_seen == w1.first_seen);
        assert(w0.first_seen == w.first_seen && w0.outbox == w.outbox);
        if meets(m.fills, id) {
            let i = choose|i: int| 0 <= i < m.fills.len() && (#[trigger] m.fills[i]).maker_id == id;
            assert(taken[i].0 == far[i]);
            assert(has_id(far, id));
        }
        assert(known_since(r, id, now) == known_since(w, id, now)) by {
            assert(w1.first_seen.contains_key(id) <==> w0.first_seen.contains_key(id));
        }
        let tape = after.outbox.public_trades;
        let n = tape.len() - first;
        let b = book_at(v.books, tk.key);
        lemma_book_at_wf(v.books, tk.key);
        lemma_book_at_wf(w.books, tk.key);
        lemma_stored(w.books, tk.key, canceled(value_at(w.books, tk.key), id));
        cancel_touches_one_order(book_at(w.books, tk.key), id, id);
        assert(b == canceled(book_at(w.books, tk.key), id));
        assert(far_side(b, o.side) == far);
        assert forall|i: int|
            #![trigger all[base + i]]
            0 <= i < n implies all[base + i] == shown(
            far[i].id,
            key_of(o),
            if o.side == Side::Buy {
                2
            } else {
                1
            },
            far[i].price,
            o.currency,
            far[i].open - tape[first + i].quantity,
            known_since(w, far[i].id, now),
            now,
        ) by {
            assert(taken[i].0 == far[i]);
            lemma_open_left(b, id, o.side, d.order.price, d.open_quantity, i);
            assert(tape[first + i].quantity == takes[i].quantity);
            assert(m.fills[i].quantity == taken[i].1);
            assert(known_since(w0, far[i].id, now) == known_since(w, far[i].id, now));
        }
    }
}

/// Of two contracts, at the same price, an order takes from the one it may
/// trade on first: what is left on an earlier one is at a worse price than
/// anything taken from a later one. Its own contract is the first of all.
proof fn lemma_earlier_worse(
    books: Seq<(KeyV, BookV)>,
    keys: Seq<KeyV>,
    side: Side,
    limit: int,
    qty: int,
    i: int,
    x: int,
    y: int,
    e: EntryV,
)
    requires
        books_wf(books),
        books_open(books),
        keys_distinct(keys),
        side == Side::Buy || side == Side::Sell,
        qty >= 0,
        0 <= y < x < keys.len(),
        0 <= i < swept(books, keys, side, limit, qty).takes.len(),
        swept(books, keys, side, limit, qty).takes[i].key == keys[x],
        opposite(swept(books, keys, side, limit, qty).books, keys[y], side).contains(e),
    ensures
        better(
            other_side(side),
            swept(books, keys, side, limit, qty).takes[i].entry.price,
            e.price,
        ),
    decreases resting_count(books, other_side(side)), qty,
{
    let far = other_side(side);
    let s = swept(books, keys, side, limit, qty);
    lemma_swept(books, keys, side, limit, qty);
    lemma_best_offer_valid(books, keys, side, limit);
    let at = best_offer(books, keys, side, limit)->0;
    let key = keys[at];
    let e0 = opposite(books, key, side)[0];
    let t = lesser(qty, e0.open);
    lemma_swept_step(books, keys, side, limit, qty);
    let after = books_taken(books, key, side, qty);
    lemma_taken(books, key, side, limit, qty);
    if i == 0 {
        assert(keys[at] == keys[x]);
        assert(at == x);
        lemma_first_among_equals(books, keys, side, limit, y);
        let q = opposite(s.books, keys[y], side);
        let n = choose|n: int| 0 <= n < q.len() && q[n] == e;
        lemma_book_at_wf(s.books, keys[y]);
        if n > 0 {
            assert(!better(far, q[n].price, q[0].price));
        }
        assert(front_no_better(books, s.books, keys[y], side));
    } else {
        lemma_earlier_worse(after, keys, side, limit, qty - t, i - 1, x, y, e);
    }
}

/// Of those that offer the best price, the first is chosen.
proof fn lemma_first_among_equals(
    books: Seq<(KeyV, BookV)>,
    keys: Seq<KeyV>,
    side: Side,
    limit: int,
    y: int,
)
    requires
        side == Side::Buy || side == Side::Sell,
        best_offer(books, keys, side, limit) is Some,
        0 <= y < best_offer(books, keys, side, limit)->0 < keys.len(),
    ensures
        ({
            let at = best_offer(books, keys, side, limit)->0;
            let q = opposite(books, keys[y], side);
            q.len() > 0 ==> better(other_side(side), opposite(books, keys[at], side)[0].price, q[0].price)
        }),
    decreases keys.len(),
{
    let some = keys.drop_last();
    let last = keys.len() - 1;
    let at = best_offer(books, keys, side, limit)->0;
    lemma_best_offer_valid(books, keys, side, limit);
    let before = best_offer(books, some, side, limit);
    if at == last {
        if before is Some {
            lemma_best_offer_valid(books, some, side, limit);
        }
        best_offer_is_best(books, some, side, limit, y);
        assert(some[y] == keys[y]);
        if before is Some {
            assert(some[before->0] == keys[before->0]);
        }
    } else {
        assert(before == Some(at));
        assert(some[at] == keys[at] && some[y] == keys[y]);
        lemma_first_among_equals(books, some, side, limit, y);
    }
}

/// At the same price an order trades on its own contract before it trades
/// with a neighbour: what is left within reach at home is at a worse price
/// than anything it took from another area.
pub proof fn home_trades_first_at_one_price(
    w: WorldV,
    o: OrderV,
    pool: Option<u64>,
    now: Timestamp,
    i: int,
    e: EntryV,
)
    requires
        in_order(w),
        pool matches Some(p) ==> holds(w.gridpools, p),
        o.quantity > 0,
        o.side == Side::Buy || o.side == Side::Sell,
        w.next_order_id < u64::MAX,
        0 <= i < admitted(w, o, pool, now).takes.len(),
        admitted(w, o, pool, now).takes[i].key.area != o.area,
    ensures
        ({
            let a = admitted(w, o, pool, now);
            let t = a.takes[i];
            let b = book_at(a.world.books, KeyV { area: o.area, period: o.period });
            &&& o.side == Side::Buy && b.asks.contains(e) ==> e.price > t.entry.price
            &&& o.side == Side::Sell && b.bids.contains(e) ==> e.price < t.entry.price
        }),
{
    lemma_parts(w, o, pool, now);
    let a = admitted(w, o, pool, now);
    let t = a.takes[i];
    let key = home(o);
    let keys = candidates(w, key, now);
    let s = swept(w.books, keys, o.side, o.price, o.quantity);
    lemma_swept(w.books, keys, o.side, o.price, o.quantity);
    lemma_swept_keys(w.books, keys, o.side, o.price, o.quantity, i);
    let x = choose|x: int| 0 <= x < keys.len() && keys[x] == t.key;
    assert(keys[0] == key);
    assert(x > 0);
    if a.rested is Some {
        lemma_joined(
            s.books,
            key,
            o.side,
            EntryV { id: w.next_order_id, price: o.price, open: s.left },
        );
    }
    lemma_crossed_keeps(
        WorldV { next_order_id: (w.next_order_id + 1) as u64, ..w },
        a.taker,
        o.price,
        o.quantity,
        mode_of(o.execution_option),
        now,
    );
    assert(a.takes == s.takes);
    if a.rested is None {
        assert(a.world.books == s.books);
    }
    let b = book_at(a.world.books, key);
    assert(queue_of(b, other_side(o.side)) == opposite(s.books, key, o.side));
    if queue_of(b, other_side(o.side)).contains(e) {
        lemma_earlier_worse(w.books, keys, o.side, o.price, o.quantity, i, x, 0, e);
    }
}

/// A take is from one of the contracts that were swept.
proof fn lemma_swept_keys(
    books: Seq<(KeyV, BookV)>,
    keys: Seq<KeyV>,
    side: Side,
    limit: int,
    qty: int,
    i: int,
)
    requires
        books_wf(books),
        books_open(books),
        side != Side::Unspecified,
        qty >= 0,
        0 <= i < swept(books, keys, side, limit, qty).takes.len(),
    ensures
        exists|x: int|
            0 <= x < keys.len() && #[trigger] keys[x] == swept(
                books,
                keys,
                side,
                limit,
                qty,
            ).takes[i].key,
    decreases resting_count(books, other_side(side)), qty,
{
    lemma_best_offer_valid(books, keys, side, limit);
    let at = best_offer(books, keys, side, limit)->0;
    let key = keys[at];
    let e0 = opposite(books, key, side)[0];
    let t = lesser(qty, e0.open);
    lemma_swept_step(books, keys, side, limit, qty);
    lemma_taken(books, key, side, limit, qty);
    if i > 0 {
        lemma_swept_keys(
            books_taken(books, key, side, qty),
            keys,
            side,
            limit,
            qty - t,
            i - 1,
        );
    } else {
        assert(keys[at] == key);
    }
}

} // verus!
