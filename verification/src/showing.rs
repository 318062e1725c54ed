//! What everybody is shown of the books.

use crate::book::{book_wf, levels_reversed, BookV, EntryV};
use crate::decimal::decimal_text;
use crate::listing::lemma_reversed;
use crate::market::Currency;
use crate::model::{book_at, book_snapshot, snapshot, world_wf, KeyV, WorldV};
use crate::order::Side;
use crate::proto_conv::WireEnum;
use crate::table::{lemma_slot, slot};
use crate::time::Timestamp;
use crate::wire;
use vstd::prelude::*;

verus! {

/// What the public book stream shows of an order: who it is, where and for
/// when it stands, on which side, at which price, with how much open, since
/// when, and as of when.
pub open spec fn shown(
    id: u64,
    key: KeyV,
    side_number: i32,
    price: int,
    currency: Currency,
    open: int,
    since: Timestamp,
    now: Timestamp,
) -> wire::RecordV {
    wire::RecordV {
        id,
        delivery_area: Some(
            wire::DeliveryAreaV { code: key.area.code, code_type: key.area.code_type.number() },
        ),
        delivery_period: Some(
            wire::DeliveryPeriod {
                start: Some(
                    wire::Timestamp {
                        seconds: key.period.start.secs,
                        nanos: key.period.start.nanos,
                    },
                ),
                duration: key.period.duration.number(),
            },
        ),
        order_type: None,
        side: side_number,
        price: Some(
            wire::PriceV { amount: Some(decimal_text(price)), currency: currency.number() },
        ),
        quantity: Some(wire::PowerV { mw: Some(decimal_text(open)) }),
        execution_option: None,
        create_time: Some(wire::Timestamp { seconds: since.secs, nanos: since.nanos }),
        update_time: Some(wire::Timestamp { seconds: now.secs, nanos: now.nanos }),
    }
}

/// Since when the book stream knows the order: since now, if it does not.
pub open spec fn known_since(w: WorldV, id: u64, now: Timestamp) -> Timestamp {
    if w.first_seen.contains_key(id) {
        w.first_seen[id]
    } else {
        now
    }
}

/// The record is that of a bid, as an order to buy, or of an ask, as an order
/// to sell, of this book.
pub open spec fn shows_one_of(
    r: wire::RecordV,
    w: WorldV,
    key: KeyV,
    b: BookV,
    now: Timestamp,
) -> bool {
    ||| exists|e: EntryV| #[trigger]
        b.bids.contains(e) && r == shown(
            e.id,
            key,
            1,
            e.price,
            Currency::Eur,
            e.open,
            known_since(w, e.id, now),
            now,
        )
    ||| exists|e: EntryV| #[trigger]
        b.asks.contains(e) && r == shown(
            e.id,
            key,
            2,
            e.price,
            Currency::Eur,
            e.open,
            known_since(w, e.id, now),
            now,
        )
}

/// The record is that of an order resting on a contract whose delivery has
/// not begun.
pub open spec fn shows_one_resting(r: wire::RecordV, w: WorldV, now: Timestamp) -> bool {
    exists|k: KeyV|
        still_open(k, now) && shows_one_of(r, w, k, #[trigger] book_at(w.books, k), now)
}

/// The snapshot of one book is the book: one record for every bid, as an order
/// to buy, and one for every ask, as an order to sell, each with its id, price
/// and open quantity; no other record, and none twice.
pub proof fn a_snapshot_is_its_book(w: WorldV, key: KeyV, b: BookV, now: Timestamp)
    requires
        book_wf(b),
    ensures
        ({
            let s = book_snapshot(w, key, b, now, levels_reversed(b.bids).len() + b.asks.len());
            &&& s.len() == b.bids.len() + b.asks.len()
            &&& forall|e: EntryV| #[trigger]
                b.bids.contains(e) ==> s.contains(
                    shown(
                        e.id,
                        key,
                        1,
                        e.price,
                        Currency::Eur,
                        e.open,
                        known_since(w, e.id, now),
                        now,
                    ),
                )
            &&& forall|e: EntryV| #[trigger]
                b.asks.contains(e) ==> s.contains(
                    shown(
                        e.id,
                        key,
                        2,
                        e.price,
                        Currency::Eur,
                        e.open,
                        known_since(w, e.id, now),
                        now,
                    ),
                )
            &&& forall|i: int|
                0 <= i < s.len() ==> shows_one_of(#[trigger] s[i], w, key, b, now)
            &&& forall|i: int, j: int|
                0 <= i < j < s.len() ==> (#[trigger] s[i]).id != (#[trigger] s[j]).id
        }),
{
    let up = levels_reversed(b.bids);
    let n = up.len() as int;
    lemma_reversed(Side::Buy, b.bids);
    let s = book_snapshot(w, key, b, now, up.len() + b.asks.len());
    assert forall|i: int| 0 <= i < n + b.asks.len() implies i < s.len() && #[trigger] s[i]
        == row_shown(w, key, b, now, i) by {
        lemma_snapshot_row(w, key, b, now, up.len() + b.asks.len(), i);
    }
    lemma_snapshot_len(w, key, b, now, up.len() + b.asks.len());
    assert forall|e: EntryV| #[trigger] b.bids.contains(e) implies s.contains(
        shown(e.id, key, 1, e.price, Currency::Eur, e.open, known_since(w, e.id, now), now),
    ) by {
        assert(up.contains(e));
        let i = choose|i: int| 0 <= i < up.len() && up[i] == e;
        assert(s[i] == row_shown(w, key, b, now, i));
    }
    assert forall|e: EntryV| #[trigger] b.asks.contains(e) implies s.contains(
        shown(e.id, key, 2, e.price, Currency::Eur, e.open, known_since(w, e.id, now), now),
    ) by {
        let i = choose|i: int| 0 <= i < b.asks.len() && b.asks[i] == e;
        assert(s[n + i] == row_shown(w, key, b, now, n + i));
    }
    assert forall|i: int| 0 <= i < s.len() implies shows_one_of(
        #[trigger] s[i],
        w,
        key,
        b,
        now,
    ) by {
        assert(s[i] == row_shown(w, key, b, now, i));
        if i < n {
            assert(up.contains(up[i]));
            assert(b.bids.contains(up[i]));
        } else {
            assert(b.asks.contains(b.asks[i - n]));
        }
    }
    assert forall|i: int, j: int| 0 <= i < j < s.len() implies (#[trigger] s[i]).id != (
    #[trigger] s[j]).id by {
        assert(s[i] == row_shown(w, key, b, now, i) && s[j] == row_shown(w, key, b, now, j));
        if j < n {
            assert(up[i].id != up[j].id);
        } else if i < n {
            assert(up.contains(up[i]));
            let m = choose|m: int| 0 <= m < b.bids.len() && b.bids[m] == up[i];
            assert(b.bids[m].id != b.asks[j - n].id);
        } else {
            assert(b.asks[i - n].id != b.asks[j - n].id);
        }
    }
}

/// The record of the `i`-th order of a listing.
spec fn row_shown(w: WorldV, key: KeyV, b: BookV, now: Timestamp, i: int) -> wire::RecordV {
    let up = levels_reversed(b.bids);
    if i < up.len() {
        let e = up[i];
        shown(e.id, key, 1, e.price, Currency::Eur, e.open, known_since(w, e.id, now), now)
    } else {
        let e = b.asks[i - up.len()];
        shown(e.id, key, 2, e.price, Currency::Eur, e.open, known_since(w, e.id, now), now)
    }
}

proof fn lemma_snapshot_len(w: WorldV, key: KeyV, b: BookV, now: Timestamp, n: nat)
    ensures
        book_snapshot(w, key, b, now, n).len() == n,
    decreases n,
{
    if n > 0 {
        lemma_snapshot_len(w, key, b, now, (n - 1) as nat);
    }
}

proof fn lemma_snapshot_row(w: WorldV, key: KeyV, b: BookV, now: Timestamp, n: nat, i: int)
    requires
        0 <= i < n,
        n <= levels_reversed(b.bids).len() + b.asks.len(),
    ensures
        i < book_snapshot(w, key, b, now, n).len(),
        book_snapshot(w, key, b, now, n)[i] == row_shown(w, key, b, now, i),
    decreases n,
{
    lemma_snapshot_len(w, key, b, now, n);
    lemma_snapshot_len(w, key, b, now, (n - 1) as nat);
    if i < n - 1 {
        lemma_snapshot_row(w, key, b, now, (n - 1) as nat, i);
    }
}

/// The delivery has not begun.
pub open spec fn still_open(key: KeyV, now: Timestamp) -> bool {
    now.secs < key.period.start.secs || (now.secs == key.period.start.secs && now.nanos
        < key.period.start.nanos)
}

/// The snapshot of the exchange shows exactly the orders that rest on
/// contracts whose delivery has not begun: every bid as an order to buy, every
/// ask as an order to sell, with its contract, id, price and open quantity.
pub proof fn snapshots_show_the_resting_orders(w: WorldV, now: Timestamp)
    requires
        world_wf(w),
    ensures
        ({
            let s = snapshot(w, now, w.books.len());
            &&& forall|k: KeyV, e: EntryV| #[trigger]
                book_at(w.books, k).bids.contains(e) && still_open(k, now) ==> s.contains(
                    shown(
                        e.id,
                        k,
                        1,
                        e.price,
                        Currency::Eur,
                        e.open,
                        known_since(w, e.id, now),
                        now,
                    ),
                )
            &&& forall|k: KeyV, e: EntryV| #[trigger]
                book_at(w.books, k).asks.contains(e) && still_open(k, now) ==> s.contains(
                    shown(
                        e.id,
                        k,
                        2,
                        e.price,
                        Currency::Eur,
                        e.open,
                        known_since(w, e.id, now),
                        now,
                    ),
                )
            &&& forall|i: int|
                0 <= i < s.len() ==> shows_one_resting(#[trigger] s[i], w, now)
        }),
{
    let s = snapshot(w, now, w.books.len());
    assert forall|k: KeyV, e: EntryV| #[trigger]
        book_at(w.books, k).bids.contains(e) && still_open(k, now) implies s.contains(
        shown(e.id, k, 1, e.price, Currency::Eur, e.open, known_since(w, e.id, now), now),
    ) by {
        lemma_snapshot_has_book(w, now, w.books.len(), slot(w.books, k));
        a_snapshot_is_its_book(w, k, book_at(w.books, k), now);
    }
    assert forall|k: KeyV, e: EntryV| #[trigger]
        book_at(w.books, k).asks.contains(e) && still_open(k, now) implies s.contains(
        shown(e.id, k, 2, e.price, Currency::Eur, e.open, known_since(w, e.id, now), now),
    ) by {
        lemma_snapshot_has_book(w, now, w.books.len(), slot(w.books, k));
        a_snapshot_is_its_book(w, k, book_at(w.books, k), now);
    }
    assert forall|i: int| 0 <= i < s.len() implies shows_one_resting(#[trigger] s[i], w, now) by {
        lemma_snapshot_row_of(w, now, w.books.len(), i);
    }
}

/// The whole snapshot of an open book is in that of the exchange.
proof fn lemma_snapshot_has_book(w: WorldV, now: Timestamp, n: nat, m: int)
    requires
        0 <= m < n <= w.books.len(),
        still_open(w.books[m].0, now),
    ensures
        ({
            let (key, b) = w.books[m];
            let part = book_snapshot(w, key, b, now, levels_reversed(b.bids).len() + b.asks.len());
            forall|r: wire::RecordV| #[trigger]
                part.contains(r) ==> snapshot(w, now, n).contains(r)
        }),
    decreases n,
{
    let (key, b) = w.books[m];
    let part = book_snapshot(w, key, b, now, levels_reversed(b.bids).len() + b.asks.len());
    let before = snapshot(w, now, (n - 1) as nat);
    let s = snapshot(w, now, n);
    if m < n - 1 {
        lemma_snapshot_has_book(w, now, (n - 1) as nat, m);
        assert forall|r: wire::RecordV| #[trigger] part.contains(r) implies s.contains(r) by {
            assert(before.contains(r));
            let i = choose|i: int| 0 <= i < before.len() && before[i] == r;
            assert(s[i] == r);
        }
    } else {
        assert forall|r: wire::RecordV| #[trigger] part.contains(r) implies s.contains(r) by {
            let i = choose|i: int| 0 <= i < part.len() && part[i] == r;
            assert(s[before.len() + i] == r);
        }
    }
}

/// Every record of the snapshot is that of a resting order.
proof fn lemma_snapshot_row_of(w: WorldV, now: Timestamp, n: nat, i: int)
    requires
        world_wf(w),
        n <= w.books.len(),
        0 <= i < snapshot(w, now, n).len(),
    ensures
        shows_one_resting(snapshot(w, now, n)[i], w, now),
    decreases n,
{
    let before = snapshot(w, now, (n - 1) as nat);
    let s = snapshot(w, now, n);
    if i < before.len() {
        lemma_snapshot_row_of(w, now, (n - 1) as nat, i);
        assert(s[i] == before[i]);
    } else {
        let (key, b) = w.books[n - 1];
        lemma_slot(w.books, key, n - 1);
        assert(book_wf(w.books[n - 1].1));
        a_snapshot_is_its_book(w, key, b, now);
        let part = book_snapshot(w, key, b, now, levels_reversed(b.bids).len() + b.asks.len());
        let j = i - before.len();
        assert(s[i] == part[j]);
        assert(shows_one_of(part[j], w, key, b, now));
        assert(book_at(w.books, key) == b);
    }
}

} // verus!
