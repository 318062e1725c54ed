//! What holds of the exchange as a whole.

use crate::market::{aligned, AreaV, DeliveryPeriod};
use crate::matching::FillV;
use crate::model::{
    book_record, cancel_objection, candidates, canonical, capacity_left, coupled, couplings_with,
    created_at, detail_at, edge_open, fill_recorded, flow, gate_closed, half_coupled,
    market_objection, modified, modify_rejection, objection, open_neighbours, public_trade_of_fill,
    rejection, reworked, ring_with, standing, trade_of_fill, world_wf, CouplingV, HISTORY_CAP, KeyV,
    SubmitError, Taker, UpdateV, WorldV,
};
use crate::order::{other_side, ExecutionOption, OrderType, OrderV, Side};
use crate::table::{distinct, holds, lemma_slot, lemma_stored, slot, stored, value_at};
use crate::text::lemma_text_total;
use crate::time::Timestamp;
use vstd::prelude::*;

verus! {

// ---------------------------------------------------------------------------
// What is rejected
// ---------------------------------------------------------------------------

/// While the market is suspended, every submission of a gridpool on one of
/// its areas is rejected for that reason, whatever else is wrong with it; and
/// so is every counterparty's.
pub proof fn suspended_market_rejects(w: WorldV, pool: u64, o: OrderV, now: Timestamp)
    requires
        w.suspended,
    ensures
        market_objection(w, o, now) == Some(SubmitError::SuspendedMarket),
        rejection(w, pool, o, now) is Some,
        holds(w.gridpools, pool) && value_at(w.gridpools, pool).areas.contains(o.area)
            ==> rejection(w, pool, o, now) == Some(SubmitError::SuspendedMarket),
{
}

/// Once a delivery period has started, no order for it is admitted; on a
/// running market that knows the area, the closed gate is the reason given.
pub proof fn closed_gate_rejects(w: WorldV, pool: u64, o: OrderV, now: Timestamp)
    requires
        o.period.start.at_or_earlier(now),
    ensures
        rejection(w, pool, o, now) is Some,
        market_objection(w, o, now) is Some,
        !w.suspended && holds(w.markets, o.area) ==> market_objection(w, o, now) == Some(
            SubmitError::GateClosed,
        ),
{
}

/// Nor is an order for it modified; on a market that knows the area, the
/// closed gate is the reason given.
pub proof fn closed_gate_rejects_updates(
    w: WorldV,
    pool: u64,
    id: u64,
    u: UpdateV,
    now: Timestamp,
)
    requires
        detail_at(w, pool, id).order.period.start.at_or_earlier(now),
    ensures
        modify_rejection(w, pool, id, u, now) is Some,
        cancel_objection(w, pool, id) is None && holds(
            w.markets,
            detail_at(w, pool, id).order.area,
        ) ==> modify_rejection(w, pool, id, u, now) == Some(SubmitError::GateClosed),
{
}

/// A modified order is put onto the public book stream as it then stands:
/// with what it has open, which is nothing once it is filled.
pub proof fn updates_are_published(w: WorldV, pool: u64, id: u64, u: UpdateV, now: Timestamp)
    ensures
        ({
            let before = reworked(w, pool, id, u, now);
            let after = modified(w, pool, id, u, now);
            let d = detail_at(after, pool, id);
            let record = book_record(standing(d), created_at(before, d.id, now), now);
            &&& after.outbox.book_records == before.outbox.book_records.push(record)
            &&& after.book_history.last() == record
        }),
{
}

/// An order whose validity does not reach past the moment it is handed in is
/// never admitted, by a gridpool or a counterparty.
pub proof fn lapsed_orders_are_rejected(w: WorldV, pool: u64, o: OrderV, now: Timestamp)
    requires
        o.valid_until matches Some(t) && t.at_or_earlier(now),
    ensures
        market_objection(w, o, now) is Some,
        objection(w, pool, o, now) is Some,
        rejection(w, pool, o, now) is Some,
{
}

/// An order that neither buys nor sells is never admitted.
pub proof fn sideless_orders_are_rejected(w: WorldV, pool: u64, o: OrderV, now: Timestamp)
    requires
        o.side == Side::Unspecified,
    ensures
        market_objection(w, o, now) is Some,
        objection(w, pool, o, now) is Some,
        rejection(w, pool, o, now) is Some,
{
}

/// What is admitted is a limit order to buy or to sell, for its market's
/// currency and one of its durations, aligned, on the price tick and the
/// quantity step, for more than nothing, before gate closure, not all-or-none,
/// and valid past the moment it is admitted.
pub proof fn admitted_orders_are_sound(w: WorldV, pool: u64, o: OrderV, now: Timestamp)
    requires
        rejection(w, pool, o, now) is None,
    ensures
        !w.suspended,
        o.order_type == OrderType::Limit,
        o.side != Side::Unspecified,
        aligned(o.period),
        o.quantity > 0,
        o.valid_until matches Some(t) ==> now.earlier(t),
        now.earlier(o.period.start),
        o.execution_option != Some(ExecutionOption::Aon),
        o.execution_option is Some ==> o.valid_until is None,
        ({
            let rules = value_at(w.markets, o.area);
            &&& o.currency == rules.currency
            &&& rules.durations.contains(o.period.duration)
            &&& o.price % rules.price_tick == 0
            &&& o.quantity % rules.qty_step == 0
        }),
{
}

/// A price is never rejected for its sign: an order at a negative price fares
/// as the same order at any other price on the tick.
pub proof fn negative_prices_are_admitted(w: WorldV, pool: u64, o: OrderV, p: int, now: Timestamp)
    requires
        holds(w.markets, o.area) ==> (o.price % value_at(w.markets, o.area).price_tick == 0) == (p
            % value_at(w.markets, o.area).price_tick == 0),
    ensures
        objection(w, pool, OrderV { price: p, ..o }, now) == objection(w, pool, o, now),
        objection(w, pool, o, now) != Some(SubmitError::NonPositivePrice),
{
}

// ---------------------------------------------------------------------------
// Couplings
// ---------------------------------------------------------------------------

/// Whenever `a` is coupled with `b`, `b` is coupled with `a` in the same way.
pub open spec fn symmetric(couplings: Seq<(AreaV, Seq<(AreaV, CouplingV)>)>) -> bool {
    forall|a: AreaV, b: AreaV|
        #![trigger edge(couplings, a, b)]
        edge(couplings, a, b) == edge(couplings, b, a)
}

/// The coupling from `a` to `b`, if there is one.
pub open spec fn edge(
    couplings: Seq<(AreaV, Seq<(AreaV, CouplingV)>)>,
    a: AreaV,
    b: AreaV,
) -> Option<CouplingV> {
    if holds(couplings, a) && holds(value_at(couplings, a), b) {
        Some(value_at(value_at(couplings, a), b))
    } else {
        None
    }
}

/// Every row has a neighbour at most once.
pub open spec fn rows_distinct(couplings: Seq<(AreaV, Seq<(AreaV, CouplingV)>)>) -> bool {
    &&& distinct(couplings)
    &&& forall|i: int| 0 <= i < couplings.len() ==> distinct((#[trigger] couplings[i]).1)
}

pub proof fn lemma_half_coupled(
    couplings: Seq<(AreaV, Seq<(AreaV, CouplingV)>)>,
    a: AreaV,
    b: AreaV,
    c: CouplingV,
)
    requires
        rows_distinct(couplings),
    ensures
        rows_distinct(half_coupled(couplings, a, b, c)),
        edge(half_coupled(couplings, a, b, c), a, b) == Some(c),
        forall|x: AreaV, y: AreaV|
            #![trigger edge(half_coupled(couplings, a, b, c), x, y)]
            x != a || y != b ==> edge(half_coupled(couplings, a, b, c), x, y) == edge(
                couplings,
                x,
                y,
            ),
{
    let row = if holds(couplings, a) {
        value_at(couplings, a)
    } else {
        Seq::empty()
    };
    if holds(couplings, a) {
        assert(distinct(couplings[slot(couplings, a)].1));
    }
    lemma_stored(row, b, c);
    lemma_stored(couplings, a, stored(row, b, c));
    let after = half_coupled(couplings, a, b, c);
    assert forall|i: int| 0 <= i < after.len() implies distinct((#[trigger] after[i]).1) by {
        if i < couplings.len() && after[i] == couplings[i] {
            assert(distinct(couplings[i].1));
        }
    }
    assert forall|x: AreaV, y: AreaV|
        #![trigger edge(after, x, y)]
        x != a || y != b implies edge(after, x, y) == edge(couplings, x, y) by {
        assert(holds(after, x) <==> holds(couplings, x) || x == a);
        if x == a {
            assert(value_at(after, a) == stored(row, b, c));
            assert(holds(stored(row, b, c), y) <==> holds(row, y) || y == b);
            if holds(row, y) {
                assert(value_at(stored(row, b, c), y) == value_at(row, y));
            }
        } else if holds(couplings, x) {
            assert(value_at(after, x) == value_at(couplings, x));
        }
    }
}

/// Coupling two areas couples them both ways, with the same gate and
/// capacity, and touches no other pair; so couplings stay symmetric.
pub proof fn couplings_are_symmetric(
    couplings: Seq<(AreaV, Seq<(AreaV, CouplingV)>)>,
    a: AreaV,
    b: AreaV,
    c: CouplingV,
)
    requires
        rows_distinct(couplings),
        symmetric(couplings),
    ensures
        symmetric(couplings_with(couplings, a, b, c)),
        rows_distinct(couplings_with(couplings, a, b, c)),
        a != b ==> edge(couplings_with(couplings, a, b, c), a, b) == Some(c) && edge(
            couplings_with(couplings, a, b, c),
            b,
            a,
        ) == Some(c),
        a == b ==> couplings_with(couplings, a, b, c) == couplings,
{
    if a != b {
        let half = half_coupled(couplings, a, b, c);
        let full = couplings_with(couplings, a, b, c);
        lemma_half_coupled(couplings, a, b, c);
        lemma_half_coupled(half, b, a, c);
        assert(edge(full, a, b) == edge(half, a, b));
        assert forall|x: AreaV, y: AreaV|
            #![trigger edge(full, x, y)]
            edge(full, x, y) == edge(full, y, x) by {
            assert(edge(couplings, x, y) == edge(couplings, y, x));
            if !(x == a && y == b) && !(x == b && y == a) {
                assert(edge(full, x, y) == edge(half, x, y));
                assert(edge(half, x, y) == edge(couplings, x, y));
                assert(edge(full, y, x) == edge(half, y, x));
                assert(edge(half, y, x) == edge(couplings, y, x));
            }
        }
    }
}

/// Either way round, two areas name the same edge: what has crossed it and
/// what may still cross it are the same from both ends. Areas that share a
/// code and differ in nothing but the kind of code are left out.
pub proof fn edges_have_no_direction(w: WorldV, a: AreaV, b: AreaV, period: DeliveryPeriod)
    requires
        a == b || a.code != b.code,
        symmetric(w.couplings),
    ensures
        canonical(a, b) == canonical(b, a),
        flow(w, a, b, period) == flow(w, b, a, period),
        capacity_left(w, a, b, period) == capacity_left(w, b, a, period),
{
    lemma_text_total(a.code, b.code);
    assert(edge(w.couplings, a, b) == edge(w.couplings, b, a));
}

/// Every contract an order may match against beyond its own is that of a
/// coupled area, for the same delivery, with its gate open and capacity left.
pub proof fn candidates_are_open(w: WorldV, key: KeyV, now: Timestamp, i: int)
    requires
        0 < i < candidates(w, key, now).len(),
    ensures
        ({
            let k = candidates(w, key, now)[i];
            &&& k.period == key.period
            &&& exists|j: int|
                0 <= j < coupled(w, key.area).len() && (#[trigger] coupled(w, key.area)[j]).0
                    == k.area && edge_open(w, key, k.area, coupled(w, key.area)[j].1, now)
        }),
{
    lemma_neighbours_open(w, key, now, coupled(w, key.area).len(), i - 1);
}

proof fn lemma_neighbours_open(w: WorldV, key: KeyV, now: Timestamp, n: nat, i: int)
    requires
        0 <= i < open_neighbours(w, key, now, n).len(),
        n <= coupled(w, key.area).len(),
    ensures
        ({
            let k = open_neighbours(w, key, now, n)[i];
            &&& k.period == key.period
            &&& exists|j: int|
                0 <= j < coupled(w, key.area).len() && (#[trigger] coupled(w, key.area)[j]).0
                    == k.area && edge_open(w, key, k.area, coupled(w, key.area)[j].1, now)
        }),
    decreases n,
{
    if n > 0 {
        let before = open_neighbours(w, key, now, (n - 1) as nat);
        if i < before.len() {
            lemma_neighbours_open(w, key, now, (n - 1) as nat, i);
        } else {
            assert(coupled(w, key.area)[n - 1].0 == open_neighbours(w, key, now, n)[i].area);
        }
    }
}

/// Once the capacity of an edge is used up, no order matches across it; nor
/// does one whose delivery the edge's gate has closed for.
pub proof fn closed_edges_are_not_crossed(w: WorldV, key: KeyV, other: AreaV, now: Timestamp, i: int)
    requires
        world_wf(w),
        other != key.area,
        holds(coupled(w, key.area), other),
        capacity_left(w, key.area, other, key.period) == Some(0int) || gate_closed(
            value_at(coupled(w, key.area), other),
            key.period.start,
            now,
        ),
        0 <= i < candidates(w, key, now).len(),
    ensures
        candidates(w, key, now)[i].area != other,
{
    if i > 0 {
        candidates_are_open(w, key, now, i);
        let k = candidates(w, key, now)[i];
        let j = choose|j: int|
            0 <= j < coupled(w, key.area).len() && (#[trigger] coupled(w, key.area)[j]).0 == k.area
                && edge_open(w, key, k.area, coupled(w, key.area)[j].1, now);
        if k.area == other {
            assert(distinct(w.couplings[slot(w.couplings, key.area)].1));
            lemma_slot(coupled(w, key.area), other, j);
        }
    }
}

// ---------------------------------------------------------------------------
// Tapes
// ---------------------------------------------------------------------------

/// A history ring never holds more than its cap; the newest event is its
/// last, and only the oldest ever gives way.
pub proof fn history_is_bounded<T>(history: Seq<T>, event: T)
    requires
        history.len() <= HISTORY_CAP,
    ensures
        ring_with(history, event).len() <= HISTORY_CAP,
        ring_with(history, event).last() == event,
        history.len() < HISTORY_CAP ==> ring_with(history, event).drop_last() == history,
        history.len() == HISTORY_CAP ==> ring_with(history, event).drop_last()
            == history.drop_first(),
{
    let after = ring_with(history, event);
    if history.len() < HISTORY_CAP {
        assert(after.drop_last() =~= history);
    } else {
        assert(after.drop_last() =~= history.drop_first());
    }
}

/// Every fill puts exactly one event onto the public tape, under the next
/// trade id; the trades its two sides see carry the same id, price and
/// quantity, on opposite sides.
pub proof fn one_public_trade_per_fill(
    w: WorldV,
    f: FillV,
    maker_area: AreaV,
    taker: Taker,
    pool: Option<u64>,
    now: Timestamp,
)
    ensures
        ({
            let after = fill_recorded(w, f, maker_area, taker, pool, now);
            let public = public_trade_of_fill(w.next_trade_id, maker_area, f, taker, now);
            let taken = trade_of_fill(
                w.next_trade_id,
                taker.id,
                taker.side,
                taker.key.area,
                f,
                taker,
                now,
            );
            let made = trade_of_fill(
                w.next_trade_id,
                f.maker_id,
                other_side(taker.side),
                maker_area,
                f,
                taker,
                now,
            );
            &&& after.outbox.public_trades == w.outbox.public_trades.push(public)
            &&& after.trade_history == ring_with(w.trade_history, public)
            &&& public.id == w.next_trade_id && public.price == f.price && public.quantity
                == f.quantity
            &&& match (pool, w.owners.contains_key(f.maker_id)) {
                (Some(p), true) => after.outbox.trades == w.outbox.trades.push((p, taken)).push(
                    (w.owners[f.maker_id], made),
                ),
                (Some(p), false) => after.outbox.trades == w.outbox.trades.push((p, taken)),
                (None, true) => after.outbox.trades == w.outbox.trades.push(
                    (w.owners[f.maker_id], made),
                ),
                (None, false) => after.outbox.trades == w.outbox.trades,
            }
        }),
{
}

} // verus!
