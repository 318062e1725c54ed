//! What holds of the exchange when synthetic counterparties step.

use crate::answers::lemma_unrested_is_nowhere;
use crate::book::{
    book_wf, canceled, crosses, has_id, inserted, lemma_canceled_wf, lemma_rank_bounds,
    lemma_zero_on_grid, place_of, queue_of, rank, rests, BookV, EntryV,
};
use crate::counterparty::{
    band_edge, last_print, lemma_step_part, mean_revert_rate, next_reference, posted, quote_order,
    requoted, shot, shot_edge, shot_limit, taken_up, withdrawn, AggressorV, MakerConfigV, MakerV,
};
use crate::decimal::{
    decimal_difference, decimal_product, decimal_sum, fits, grid_limit, grid_step, lemma_around,
    lemma_pow10_positive, on_grid, pow10, representable, unit, MANTISSA_LIMIT,
};
use crate::lifecycle::{
    lemma_book_with, lemma_crossed_keeps, lemma_recorded_keeps, order_ids_are_handed_out_in_order,
};
use crate::linkage::{
    counterparties_keep_links, counterparty_cancels_keep_links, in_order, lemma_admitted_links,
    lemma_lose_open, lemma_swept_entries, lemma_without_lose, linked,
};
use crate::market::{AreaV, DeliveryPeriod};
use crate::matching::ExecMode;
use crate::model::{
    admitted, book_at, book_with, books_wf, books_without, candidates, counterparty_canceled,
    crossed, key_of, mode_of, on_pool, owners_known, swept, take_total, KeyV, WorldV,
};
use crate::order::{OrderV, Side};
use crate::sweeping::{lemma_swept, takes_obey_limits};
use crate::table::{holds, lemma_slot, lemma_stored, slot, stored, value_at};
use crate::time::Timestamp;
use crate::trade::PublicTradeV;
use vstd::prelude::*;

verus! {

/// Nobody with this id rests on any book.
pub open spec fn gone_from(books: Seq<(KeyV, BookV)>, id: u64) -> bool {
    forall|k: KeyV| !rests(#[trigger] book_at(books, k), id)
}

/// The maker's quotes are its own: no gridpool is bound to them.
pub open spec fn quotes_unbound(m: MakerV, w: WorldV) -> bool {
    &&& m.bid_id matches Some(id) ==> !w.owners.contains_key(id) && id < w.next_order_id
    &&& m.ask_id matches Some(id) ==> !w.owners.contains_key(id) && id < w.next_order_id
}

pub proof fn lemma_withdrawn(w: WorldV, id: Option<u64>, now: Timestamp)
    requires
        in_order(w),
        id matches Some(i) ==> !w.owners.contains_key(i),
    ensures
        in_order(withdrawn(w, id, now)),
        withdrawn(w, id, now).owners == w.owners,
        withdrawn(w, id, now).next_order_id == w.next_order_id,
        id matches Some(i) ==> gone_from(withdrawn(w, id, now).books, i),
        forall|j: u64| #[trigger]
            gone_from(w.books, j) ==> gone_from(withdrawn(w, id, now).books, j),
{
    if id is Some {
        let i = id->0;
        let r = counterparty_canceled(w, i, now);
        counterparty_cancels_keep_links(w, i, now);
        lemma_book_with(w.books, i, 0);
        assert(w.owners.remove(i) =~= w.owners);
        if book_with(w.books, i, 0) is Some {
            let n = book_with(w.books, i, 0)->0;
            let key = w.books[n].0;
            let b = w.books[n].1;
            lemma_without_lose(w.books, n, i);
            lemma_slot(w.books, key, n);
            lemma_lose_open(w.books, key, i);
            assert(books_without(w.books, n, i) == stored(
                w.books,
                key,
                canceled(value_at(w.books, key), i),
            ));
            lemma_stored(w.books, key, canceled(b, i));
            assert(book_wf(w.books[n].1));
            lemma_canceled_wf(b, i);
            assert forall|k: KeyV| !rests(#[trigger] book_at(r.books, k), i) by {
                if k == key {
                    assert(!rests(canceled(b, i), i));
                } else if rests(book_at(r.books, k), i) {
                    assert(rests(book_at(w.books, k), i) && rests(book_at(w.books, key), i));
                }
            }
            assert forall|j: u64| #[trigger] gone_from(w.books, j) implies gone_from(r.books, j) by {
                assert forall|k: KeyV| !rests(#[trigger] book_at(r.books, k), j) by {
                    assert(!rests(book_at(w.books, k), j));
                }
            }
        } else {
            assert forall|k: KeyV| !rests(#[trigger] book_at(r.books, k), i) by {
                if holds(w.books, k) {
                    assert(!rests(w.books[slot(w.books, k)].1, i));
                }
            }
        }
    }
}

/// Who rests on the books after one order joined them.
proof fn lemma_joined_rests(
    books: Seq<(KeyV, BookV)>,
    key: KeyV,
    side: Side,
    e: EntryV,
    k: KeyV,
    id: u64,
)
    requires
        books_wf(books),
        rests(book_at(stored(books, key, inserted(book_at(books, key), side, e)), k), id),
        id != e.id,
    ensures
        rests(book_at(books, k), id),
{
    lemma_stored(books, key, inserted(book_at(books, key), side, e));
    let b = book_at(books, key);
    if k == key && side != Side::Unspecified && !rests(b, e.id) {
        let q = queue_of(b, side);
        let at = rank(side, q, e.price);
        lemma_rank_bounds(side, q, e.price);
        let after = q.insert(at, e);
        assert(queue_of(inserted(b, side, e), side) == after);
        if has_id(after, id) {
            let i = place_of(after, id);
            assert(after[at] == e);
            if i < at {
                assert(q[i].id == id);
            } else {
                assert(after[i] == q[i - 1]);
            }
        }
    }
}

/// Who rests on the books after an order was admitted.
proof fn lemma_admitted_rests(w: WorldV, o: OrderV, now: Timestamp, id: u64)
    requires
        in_order(w),
        o.quantity > 0,
        w.next_order_id < u64::MAX,
        gone_from(w.books, id),
    ensures
        id != w.next_order_id || mode_of(o.execution_option) != ExecMode::Resting ==> gone_from(
            admitted(w, o, None, now).world.books,
            id,
        ),
{
    let a = admitted(w, o, None, now);
    let tk = a.taker;
    let mode = mode_of(o.execution_option);
    let numbered = WorldV { next_order_id: (w.next_order_id + 1) as u64, ..w };
    let c = crossed(numbered, tk, o.price, o.quantity, mode, now);
    let keys = candidates(numbered, tk.key, now);
    lemma_crossed_keeps(numbered, tk, o.price, o.quantity, mode, now);
    lemma_owners_known(w);
    lemma_recorded_keeps(c.world, tk, None, c.takes, now);
    let s = swept(w.books, keys, o.side, o.price, o.quantity);
    lemma_swept_entries(w.books, keys, o.side, o.price, o.quantity);
    lemma_swept(w.books, keys, o.side, o.price, o.quantity);
    if id != w.next_order_id || mode != ExecMode::Resting {
        assert forall|k: KeyV| !rests(#[trigger] book_at(a.world.books, k), id) by {
            assert(!rests(book_at(w.books, k), id));
            if rests(book_at(a.world.books, k), id) && c.rested is Some {
                let e = EntryV { id: tk.id, price: o.price, open: s.left };
                lemma_joined_rests(s.books, tk.key, o.side, e, k, id);
            }
        }
    }
}

pub proof fn lemma_posted(w: WorldV, o: OrderV, now: Timestamp)
    requires
        in_order(w),
        o.side != Side::Unspecified,
    ensures
        in_order(posted(w, o, now).1),
        forall|j: u64|
            j < w.next_order_id && #[trigger] gone_from(w.books, j) ==> gone_from(
                posted(w, o, now).1.books,
                j,
            ),
        posted(w, o, now).1.next_order_id >= w.next_order_id,
{
    if taken_up(w, o, now) {
        counterparties_keep_links(w, o, now);
        assert forall|j: u64| j < w.next_order_id && #[trigger] gone_from(w.books, j) implies gone_from(
            posted(w, o, now).1.books,
            j,
        ) by {
            lemma_admitted_rests(w, o, now, j);
        }
        lemma_owners_known(w);
        order_ids_are_handed_out_in_order(w, o, None, now);
    }
}

/// The owners of an exchange in order are known to it.
pub proof fn lemma_owners_known(w: WorldV)
    requires
        linked(w),
    ensures
        owners_known(w),
{
    assert forall|i: u64| #[trigger] w.owners.contains_key(i) implies holds(
        w.gridpools,
        w.owners[i],
    ) by {
        assert(on_pool(w, w.owners[i], i));
    }
}

/// Quotes are replaced, not stacked: once a maker has quoted anew, neither of
/// its former quotes rests on any book, and the exchange is still in order.
pub proof fn quotes_do_not_stack(m: MakerV, w: WorldV, bid: int, ask: int, now: Timestamp)
    requires
        in_order(w),
        quotes_unbound(m, w),
    ensures
        ({
            let after = requoted(m, w, bid, ask, now).1;
            &&& in_order(after)
            &&& m.bid_id matches Some(id) ==> gone_from(after.books, id)
            &&& m.ask_id matches Some(id) ==> gone_from(after.books, id)
        }),
{
    let w0 = withdrawn(w, m.bid_id, now);
    lemma_withdrawn(w, m.bid_id, now);
    let w1 = withdrawn(w0, m.ask_id, now);
    lemma_withdrawn(w0, m.ask_id, now);
    let first = quote_order(m.config, Side::Buy, bid);
    let w2 = posted(w1, first, now).1;
    lemma_posted(w1, first, now);
    lemma_posted(w2, quote_order(m.config, Side::Sell, ask), now);
    if m.bid_id is Some {
        assert(gone_from(w1.books, m.bid_id->0));
        assert(gone_from(w2.books, m.bid_id->0));
    }
    if m.ask_id is Some {
        assert(gone_from(w2.books, m.ask_id->0));
    }
}

/// A maker that retires leaves no quote behind, and the exchange in order.
pub proof fn retired_makers_are_gone(m: MakerV, w: WorldV, now: Timestamp)
    requires
        in_order(w),
        quotes_unbound(m, w),
    ensures
        ({
            let after = withdrawn(withdrawn(w, m.bid_id, now), m.ask_id, now);
            &&& in_order(after)
            &&& m.bid_id matches Some(id) ==> gone_from(after.books, id)
            &&& m.ask_id matches Some(id) ==> gone_from(after.books, id)
        }),
{
    let w0 = withdrawn(w, m.bid_id, now);
    lemma_withdrawn(w, m.bid_id, now);
    lemma_withdrawn(w0, m.ask_id, now);
    if m.bid_id is Some {
        assert(gone_from(w0.books, m.bid_id->0));
    }
}

/// An aggressor never leaves an order behind: whatever of its shot does not
/// trade at once is gone, and the exchange is still in order.
pub proof fn shots_do_not_rest(
    c: AggressorV,
    w: WorldV,
    side: Side,
    limit: int,
    size: int,
    now: Timestamp,
)
    requires
        in_order(w),
        side != Side::Unspecified,
    ensures
        in_order(posted(w, shot(c, side, limit, size), now).1),
        gone_from(posted(w, shot(c, side, limit, size), now).1.books, w.next_order_id),
{
    let o = shot(c, side, limit, size);
    lemma_posted(w, o, now);
    assert(gone_from(w.books, w.next_order_id)) by {
        assert forall|k: KeyV| !rests(#[trigger] book_at(w.books, k), w.next_order_id) by {}
    }
    if taken_up(w, o, now) {
        lemma_admitted_rests(w, o, now, w.next_order_id);
    }
}

/// The limit of a shot lies within the aggressor's band: a buyer pays at most
/// the reference plus the slippage, a seller gets at least the reference less
/// the slippage, whatever the sign of the reference. It is the last such price
/// on the price grid.
pub proof fn limits_stay_in_the_band(c: AggressorV, side: Side)
    requires
        side != Side::Unspecified,
    ensures
        shot_edge(c, side) == Some(band_edge(c, side)) ==> {
            &&& shot_limit(c, side) is Some
            &&& on_grid(shot_limit(c, side)->0, 2)
            &&& side == Side::Buy ==> shot_limit(c, side)->0 <= c.reference_price + c.max_slippage
                < shot_limit(c, side)->0 + grid_step(2)
            &&& side == Side::Sell ==> shot_limit(c, side)->0 - grid_step(2) < c.reference_price
                - c.max_slippage <= shot_limit(c, side)->0
        },
{
    lemma_around(band_edge(c, side), 2);
}

/// An aggressor trades within its band only: every fill of a shot is at a
/// price no worse than its limit, and so no further from the reference than
/// the slippage.
pub proof fn shots_stay_in_the_band(
    c: AggressorV,
    w: WorldV,
    side: Side,
    size: int,
    now: Timestamp,
    i: int,
)
    requires
        in_order(w),
        size > 0,
        side != Side::Unspecified,
        0 <= i < admitted(w, shot(c, side, shot_limit(c, side)->0, size), None, now).takes.len(),
    ensures
        ({
            let limit = shot_limit(c, side)->0;
            let price = admitted(w, shot(c, side, limit, size), None, now).takes[i].entry.price;
            &&& crosses(side, limit, price)
            &&& shot_edge(c, side) == Some(band_edge(c, side)) ==> crosses(
                side,
                band_edge(c, side),
                price,
            )
        }),
{
    let limit = shot_limit(c, side)->0;
    let o = shot(c, side, limit, size);
    let numbered = WorldV { next_order_id: (w.next_order_id + 1) as u64, ..w };
    let keys = candidates(numbered, key_of(o), now);
    takes_obey_limits(w.books, keys, side, limit, size, i);
    limits_stay_in_the_band(c, side);
}

/// Sums, differences and products of decimals are exact wherever a decimal
/// can hold the exact result.
pub open spec fn exact_arithmetic() -> bool {
    &&& forall|a: int, b: int|
        representable(a + b) ==> #[trigger] decimal_sum(a, b) == Some(a + b)
    &&& forall|a: int, b: int|
        representable(a - b) ==> #[trigger] decimal_difference(a, b) == Some(a - b)
    &&& forall|a: int, b: int|
        (a * b) % unit() == 0 && representable((a * b) / unit()) ==> #[trigger] decimal_product(
            a,
            b,
        ) == Some((a * b) / unit())
}

/// The print a maker follows is the most recent one on its contract: none
/// after it is on that contract.
pub proof fn the_last_print_is_the_most_recent(
    history: Seq<PublicTradeV>,
    area: AreaV,
    period: DeliveryPeriod,
    i: int,
)
    requires
        0 <= i < history.len(),
        history[i].period == period,
        history[i].buy_area == area || history[i].sell_area == area,
        forall|j: int|
            i < j < history.len() ==> (#[trigger] history[j]).period != period || (
            history[j].buy_area != area && history[j].sell_area != area),
    ensures
        last_print(history, area, period) == Some(history[i]),
    decreases history.len(),
{
    if i < history.len() - 1 {
        let before = history.drop_last();
        assert(history[history.len() - 1] == history.last());
        assert forall|j: int| i < j < before.len() implies (#[trigger] before[j]).period != period
            || (before[j].buy_area != area && before[j].sell_area != area) by {
            assert(before[j] == history[j]);
        }
        the_last_print_is_the_most_recent(before, area, period, i);
    }
}

/// A contract on which nothing printed has no last print.
pub proof fn quiet_contracts_have_no_print(
    history: Seq<PublicTradeV>,
    area: AreaV,
    period: DeliveryPeriod,
)
    requires
        forall|j: int|
            0 <= j < history.len() ==> (#[trigger] history[j]).period != period || (
            history[j].buy_area != area && history[j].sell_area != area),
    ensures
        last_print(history, area, period) is None,
    decreases history.len(),
{
    if history.len() > 0 {
        let before = history.drop_last();
        assert(history[history.len() - 1] == history.last());
        assert forall|j: int| 0 <= j < before.len() implies (#[trigger] before[j]).period != period
            || (before[j].buy_area != area && before[j].sell_area != area) by {
            assert(before[j] == history[j]);
        }
        quiet_contracts_have_no_print(before, area, period);
    }
}

/// A reference that stands at its baseline and does not walk moves toward the
/// last trade on its contract, by the share it follows: it ends between where
/// it was and that trade's price, whichever of the two is larger.
pub proof fn references_move_toward_the_last_trade(
    c: MakerConfigV,
    history: Seq<PublicTradeV>,
    i: int,
    draw: int,
    scale: int,
)
    requires
        exact_arithmetic(),
        c.reference_baseline == c.reference_price,
        c.price_noise == 0,
        0 < c.follow_last_trade <= unit(),
        0 <= i < history.len(),
        history[i].period == c.period,
        history[i].buy_area == c.area || history[i].sell_area == c.area,
        forall|j: int|
            i < j < history.len() ==> (#[trigger] history[j]).period != c.period || (
            history[j].buy_area != c.area && history[j].sell_area != c.area),
        ({
            let gap = history[i].price - c.reference_price;
            let pull = gap * c.follow_last_trade;
            &&& representable(c.reference_price)
            &&& representable(gap)
            &&& pull % unit() == 0
            &&& representable(pull / unit())
            &&& representable(c.reference_price + pull / unit())
        }),
    ensures
        ({
            let last = history[i].price;
            let r = next_reference(c, history, draw, scale)->0;
            &&& next_reference(c, history, draw, scale) is Some
            &&& unit() * (r - c.reference_price) == c.follow_last_trade * (last
                - c.reference_price)
            &&& last <= c.reference_price ==> last <= r <= c.reference_price
            &&& last >= c.reference_price ==> c.reference_price <= r <= last
        }),
{
    the_last_print_is_the_most_recent(history, c.area, c.period, i);
    let gap = history[i].price - c.reference_price;
    let share = c.follow_last_trade;
    let pull = gap * share;
    lemma_zero_fits();
    lemma_pow10_positive(28);
    let u = unit();
    assert(0 * mean_revert_rate() == 0) by (nonlinear_arith);
    assert(0int % u == 0 && 0int / u == 0);
    assert(decimal_difference(c.reference_baseline, c.reference_price) == Some(0int));
    assert(decimal_product(0, mean_revert_rate()) == Some(0int));
    assert(decimal_sum(c.reference_price, 0) == Some(c.reference_price));
    assert(decimal_difference(history[i].price, c.reference_price) == Some(gap));
    assert(decimal_product(gap, share) == Some(pull / u));
    assert(decimal_sum(c.reference_price, pull / u) == Some(c.reference_price + pull / u));
    let m = pull / u;
    vstd::arithmetic::div_mod::lemma_fundamental_div_mod(pull, u);
    assert(u * m == share * gap) by (nonlinear_arith)
        requires
            pull == u * m + 0,
            pull == gap * share,
    ;
    if gap >= 0 {
        assert(0 <= m <= gap) by (nonlinear_arith)
            requires
                u * m == share * gap,
                0 < share <= u,
                gap >= 0,
        ;
    } else {
        assert(gap <= m <= 0) by (nonlinear_arith)
            requires
                u * m == share * gap,
                0 < share <= u,
                gap < 0,
        ;
    }
}

/// A reference that follows nothing and does not walk closes one part in fifty
/// of its gap to the baseline, and stays on the side of it that it was on.
pub proof fn references_revert_to_their_baseline(
    c: MakerConfigV,
    history: Seq<PublicTradeV>,
    draw: int,
    scale: int,
)
    requires
        exact_arithmetic(),
        c.price_noise == 0,
        c.follow_last_trade <= 0,
        ({
            let gap = c.reference_baseline - c.reference_price;
            &&& representable(gap)
            &&& gap % 50 == 0
            &&& representable(gap / 50)
            &&& representable(c.reference_price + gap / 50)
        }),
    ensures
        ({
            let r = next_reference(c, history, draw, scale)->0;
            &&& next_reference(c, history, draw, scale) is Some
            &&& 50 * (r - c.reference_price) == c.reference_baseline - c.reference_price
        }),
{
    let gap = c.reference_baseline - c.reference_price;
    lemma_step_part(gap);
    assert(decimal_difference(c.reference_baseline, c.reference_price) == Some(gap));
    assert(decimal_product(gap, mean_revert_rate()) == Some(gap / 50));
    assert(decimal_sum(c.reference_price, gap / 50) == Some(c.reference_price + gap / 50));
}

proof fn lemma_zero_fits()
    ensures
        representable(0),
{
    lemma_pow10_positive(28);
    lemma_zero_on_grid(0);
    assert(fits(0, 0)) by {
        assert(grid_limit(0) > 0) by (nonlinear_arith)
            requires
                pow10(28) > 0,
                grid_limit(0) == MANTISSA_LIMIT * pow10(28),
        ;
    }
}

/// A quote that is taken up gets the next id, belongs to no gridpool, and what
/// of its size does not trade at once rests on its contract's book, on its
/// side and at its price; one that trades whole rests nowhere.
pub proof fn quotes_rest_at_their_price(
    c: MakerConfigV,
    w: WorldV,
    side: Side,
    price: int,
    now: Timestamp,
)
    requires
        in_order(w),
        side != Side::Unspecified,
        taken_up(w, quote_order(c, side, price), now),
    ensures
        ({
            let o = quote_order(c, side, price);
            let (id, after) = posted(w, o, now);
            let left = c.size - take_total(admitted(w, o, None, now).takes);
            let home = book_at(after.books, KeyV { area: c.area, period: c.period });
            let e = EntryV { id: w.next_order_id, price, open: left };
            &&& id == Some(w.next_order_id)
            &&& !after.owners.contains_key(w.next_order_id)
            &&& 0 <= left <= c.size
            &&& left > 0 && side == Side::Buy ==> home.bids.contains(e)
            &&& left > 0 && side == Side::Sell ==> home.asks.contains(e)
            &&& left == 0 ==> !rests(home, w.next_order_id)
        }),
{
    let o = quote_order(c, side, price);
    let a = admitted(w, o, None, now);
    lemma_admitted_links(w, o, None, now);
    let numbered = WorldV { next_order_id: (w.next_order_id + 1) as u64, ..w };
    lemma_crossed_keeps(numbered, a.taker, o.price, o.quantity, ExecMode::Resting, now);
    if a.world.owners.contains_key(w.next_order_id) {
        let p = a.world.owners[w.next_order_id];
        assert(on_pool(a.world, p, w.next_order_id));
        assert(on_pool(w, p, w.next_order_id));
    }
    if a.rested is None {
        lemma_unrested_is_nowhere(w, o, None, now);
        assert(!rests(book_at(a.world.books, key_of(o)), w.next_order_id));
    }
}

} // verus!
