//! Which orders the exchange can carry.

use crate::book::{amount_fits, EntryV};
use crate::decimal::{fits, grid_step, lemma_grid_closed, MANTISSA_LIMIT};
use crate::market::{AreaV, DeliveryPeriod};
use crate::model::{
    book_at, cancel_objection, candidates, detail_at, flow, key_of, modify_objection, on_pool,
    set_or, updated_total, KeyV, UpdateV, WorldV,
};
use crate::order::{OrderV, Side};
use crate::time::Timestamp;
use crate::volume::{carries, entry_fits, falls, in_reach, rises, trade_ids_left, volume_fits};
use crate::world::placing::{has_room_for, has_room_to_modify};
use vstd::prelude::*;

verus! {

/// The amount is so many tenths, not negative, and so small that any two such
/// amounts add up within what a number with one decimal can hold.
pub open spec fn modest(v: int) -> bool {
    v % grid_step(1) == 0 && 0 <= v && 2 * v < MANTISSA_LIMIT * grid_step(1)
}

/// Whatever rests, has crossed a border or stands with a gridpool is modest.
pub open spec fn all_modest(w: WorldV) -> bool {
    &&& forall|k: KeyV, e: EntryV| #[trigger] book_at(w.books, k).bids.contains(e) ==> modest(e.open)
    &&& forall|k: KeyV, e: EntryV| #[trigger] book_at(w.books, k).asks.contains(e) ==> modest(e.open)
    &&& forall|a: AreaV, b: AreaV, period: DeliveryPeriod| modest(#[trigger] flow(w, a, b, period))
    &&& forall|p: u64, id: u64| #[trigger]
        on_pool(w, p, id) ==> modest(detail_at(w, p, id).open_quantity) && modest(
            detail_at(w, p, id).filled_quantity,
        )
}

proof fn lemma_modest(v: int, room: int)
    requires
        modest(v),
        modest(room),
    ensures
        amount_fits(v, 1),
        fits(v, 1),
        rises(v, room, 1),
        falls(v, room, 1),
{
}

proof fn lemma_carried(
    w: WorldV,
    key: KeyV,
    keys: Seq<KeyV>,
    side: Side,
    limit: int,
    filled: int,
    qty: int,
)
    requires
        all_modest(w),
        modest(filled),
        modest(qty),
        side == Side::Buy || side == Side::Sell,
    ensures
        carries(w, key, keys, side, limit, filled, qty),
{
    lemma_modest(qty, qty);
    lemma_modest(filled, qty);
    assert forall|k: KeyV, e: EntryV| #[trigger]
        in_reach(w.books, keys, side, limit, k, e) implies entry_fits(w, key, k, e, qty, 1) by {
        assert(modest(e.open)) by {
            if side == Side::Buy {
                assert(book_at(w.books, k).asks.contains(e));
            } else {
                assert(book_at(w.books, k).bids.contains(e));
            }
        }
        lemma_modest(e.open, qty);
        let crossed_mw = flow(w, key.area, k.area, key.period);
        assert(modest(crossed_mw));
        lemma_modest(crossed_mw, qty);
        if w.owners.contains_key(e.id) && on_pool(w, w.owners[e.id], e.id) {
            let d = detail_at(w, w.owners[e.id], e.id);
            lemma_modest(d.open_quantity, qty);
            lemma_modest(d.filled_quantity, qty);
        }
    }
    assert(volume_fits(w, key, keys, side, limit, filled, qty, 1));
}

/// An order for an ordinary quantity finds room on an exchange whose amounts
/// are ordinary, as long as there are ids left: what is not refused is placed.
pub proof fn ordinary_orders_find_room(w: WorldV, o: OrderV, now: Timestamp)
    requires
        all_modest(w),
        modest(o.quantity),
        o.side == Side::Buy || o.side == Side::Sell,
        w.next_order_id < u64::MAX,
        trade_ids_left(w, o.side),
    ensures
        has_room_for(w, o, now),
{
    let key = key_of(o);
    lemma_carried(w, key, candidates(w, key, now), o.side, o.price, 0, o.quantity);
}

/// So does an ordinary update.
pub proof fn ordinary_updates_find_room(
    w: WorldV,
    pool: u64,
    id: u64,
    u: UpdateV,
    now: Timestamp,
)
    requires
        all_modest(w),
        u.quantity matches Some(q) ==> modest(q),
        on_pool(w, pool, id) ==> ({
            let d = detail_at(w, pool, id);
            &&& modest(d.filled_quantity + d.open_quantity)
            &&& d.order.side == Side::Buy || d.order.side == Side::Sell
            &&& trade_ids_left(w, d.order.side)
        }),
    ensures
        has_room_to_modify(w, pool, id, u, now),
{
    if cancel_objection(w, pool, id) is None {
        let d = detail_at(w, pool, id);
        let all = d.filled_quantity + d.open_quantity;
        assert(on_pool(w, pool, id));
        lemma_modest(d.filled_quantity, d.filled_quantity);
        lemma_modest(d.open_quantity, d.open_quantity);
        lemma_modest(all, all);
        assert(fits(d.filled_quantity, 1) && fits(d.open_quantity, 1) && fits(all, 1));
        if modify_objection(w, pool, id, u, now) is None {
            let total = updated_total(d, u);
            let open = total - d.filled_quantity;
            lemma_modest(total, total);
            lemma_grid_closed(total, d.filled_quantity, 1);
            assert(modest(open));
            lemma_modest(open, open);
            assert(fits(total, 1) && fits(d.filled_quantity, 1) && fits(open, 1));
            let key = key_of(d.order);
            lemma_carried(
                w,
                key,
                seq![key],
                d.order.side,
                set_or(u.price, d.order.price),
                d.filled_quantity,
                open,
            );
        }
    }
}

} // verus!
