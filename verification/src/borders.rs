//! What crosses the borders between areas.

use crate::laws::{candidates_are_open, edge};
use crate::market::{AreaV, DeliveryPeriod};
use crate::model::{
    admitted, candidates, canonical, capacity_left, coupled, crossed, edge_open, flow, flows_with,
    mode_of, open_neighbours, takes_recorded, takes_traced, world_wf, CouplingV, KeyV, Take, Taker,
    WorldV,
};
use crate::order::OrderV;
use crate::table::{distinct, holds, lemma_slot, lemma_stored, slot};
use crate::time::Timestamp;
use crate::volume::lemma_flow_moved;
use vstd::prelude::*;

verus! {

/// Trading across the coupling has not ended for a delivery that starts at
/// `start`: it has no gate, or one that closes after now. One too far ahead for
/// a signed count of milliseconds closes with the delivery.
pub open spec fn gate_is_open(c: CouplingV, start: Timestamp, now: Timestamp) -> bool {
    let ahead = c.gate_offset.secs * 1_000_000_000 + c.gate_offset.nanos;
    let counted = if ahead <= 9_223_372_036_854_775_807_000_000 {
        ahead
    } else {
        0
    };
    ahead == 0 || now.secs * 1_000_000_000 + now.nanos + counted < start.secs * 1_000_000_000
        + start.nanos
}

/// What has crossed for this delivery leaves room under the coupling's cap.
pub open spec fn has_room(c: CouplingV, crossed_mw: int) -> bool {
    c.capacity_mw matches Some(cap) ==> crossed_mw < cap
}

proof fn lemma_neighbour_listed(w: WorldV, key: KeyV, now: Timestamp, n: nat, j: int)
    requires
        0 <= j < n <= coupled(w, key.area).len(),
        edge_open(w, key, coupled(w, key.area)[j].0, coupled(w, key.area)[j].1, now),
    ensures
        open_neighbours(w, key, now, n).contains(
            KeyV { area: coupled(w, key.area)[j].0, period: key.period },
        ),
    decreases n,
{
    let k = KeyV { area: coupled(w, key.area)[j].0, period: key.period };
    let before = open_neighbours(w, key, now, (n - 1) as nat);
    let all = open_neighbours(w, key, now, n);
    if j == n - 1 {
        assert(all.last() == k);
    } else {
        lemma_neighbour_listed(w, key, now, (n - 1) as nat, j);
        let i = choose|i: int| 0 <= i < before.len() && before[i] == k;
        assert(all[i] == k);
    }
}

/// An order trades on its own contract, first of all, and for the same
/// delivery on exactly those coupled areas whose gate is open and whose
/// capacity is not used up.
pub proof fn orders_reach_their_open_neighbours(w: WorldV, key: KeyV, now: Timestamp, b: AreaV)
    requires
        world_wf(w),
        edge(w.couplings, key.area, b) matches Some(c) ==> c.gate_offset.nanos < 1_000_000_000,
    ensures
        candidates(w, key, now).len() > 0,
        candidates(w, key, now)[0] == key,
        forall|k: KeyV| #[trigger]
            candidates(w, key, now).contains(k) ==> k.period == key.period,
        b != key.area ==> (candidates(w, key, now).contains(KeyV { area: b, period: key.period })
            <==> match edge(w.couplings, key.area, b) {
            None => false,
            Some(c) => gate_is_open(c, key.period.start, now) && has_room(
                c,
                flow(w, key.area, b, key.period),
            ),
        }),
{
    let all = candidates(w, key, now);
    let row = coupled(w, key.area);
    assert forall|k: KeyV| #[trigger] all.contains(k) implies k.period == key.period by {
        let i = choose|i: int| 0 <= i < all.len() && all[i] == k;
        if i > 0 {
            candidates_are_open(w, key, now, i);
        }
    }
    if b != key.area {
        let k = KeyV { area: b, period: key.period };
        if holds(w.couplings, key.area) {
            assert(distinct(w.couplings[slot(w.couplings, key.area)].1));
        }
        if all.contains(k) {
            let i = choose|i: int| 0 <= i < all.len() && all[i] == k;
            candidates_are_open(w, key, now, i);
            let j = choose|j: int|
                0 <= j < row.len() && (#[trigger] row[j]).0 == b && edge_open(
                    w,
                    key,
                    b,
                    row[j].1,
                    now,
                );
            lemma_slot(row, b, j);
        }
        if edge(w.couplings, key.area, b) is Some {
            let c = edge(w.couplings, key.area, b)->0;
            let j = slot(row, b);
            assert(row[j] == (b, c));
            if gate_is_open(c, key.period.start, now) && has_room(
                c,
                flow(w, key.area, b, key.period),
            ) {
                assert(edge_open(w, key, b, c, now));
                lemma_neighbour_listed(w, key, now, row.len(), j);
                let rest = open_neighbours(w, key, now, row.len());
                let i = choose|i: int| 0 <= i < rest.len() && rest[i] == k;
                assert(all[i + 1] == k);
            }
        }
    }
}

/// How much of the takes is from this area.
pub open spec fn taken_from(takes: Seq<Take>, area: AreaV) -> int
    decreases takes.len(),
{
    if takes.len() == 0 {
        0
    } else {
        taken_from(takes.drop_last(), area) + if takes.last().key.area == area {
            takes.last().quantity
        } else {
            0
        }
    }
}

proof fn lemma_traced_flows(w: WorldV, taker: Taker, takes: Seq<Take>, now: Timestamp)
    requires
        distinct(w.flows),
    ensures
        ({
            let after = takes_traced(w, taker, takes, now);
            &&& distinct(after.flows)
            &&& forall|b: AreaV|
                b != taker.key.area ==> #[trigger] flow(after, taker.key.area, b, taker.key.period)
                    == flow(w, taker.key.area, b, taker.key.period) + taken_from(takes, b)
            &&& forall|a: AreaV, b: AreaV, period: DeliveryPeriod|
                period != taker.key.period || (a != taker.key.area && b != taker.key.area)
                    ==> #[trigger] flow(after, a, b, period) == flow(w, a, b, period)
        }),
    decreases takes.len(),
{
    if takes.len() > 0 {
        let t = takes.last();
        let home = taker.key.area;
        let mid = takes_traced(w, taker, takes.drop_last(), now);
        let after = takes_traced(w, taker, takes, now);
        lemma_traced_flows(w, taker, takes.drop_last(), now);
        if t.key.area != home {
            let moved = flows_with(mid, home, t.key.area, taker.key.period, t.quantity);
            let next = WorldV { flows: moved, ..mid };
            assert(after.flows == moved);
            let (lo, hi) = canonical(home, t.key.area);
            lemma_stored(
                mid.flows,
                (lo, hi, taker.key.period),
                flow(mid, home, t.key.area, taker.key.period) + t.quantity,
            );
            assert forall|b: AreaV| b != home implies #[trigger] flow(
                after,
                home,
                b,
                taker.key.period,
            ) == flow(w, home, b, taker.key.period) + taken_from(takes, b) by {
                lemma_flow_moved(mid, home, t.key.area, b, taker.key.period, t.quantity);
                assert(flow(after, home, b, taker.key.period) == flow(
                    next,
                    home,
                    b,
                    taker.key.period,
                ));
                assert(flow(mid, home, b, taker.key.period) == flow(w, home, b, taker.key.period)
                    + taken_from(takes.drop_last(), b));
            }
            assert forall|a: AreaV, b: AreaV, period: DeliveryPeriod|
                period != taker.key.period || (a != home && b != home) implies #[trigger] flow(
                after,
                a,
                b,
                period,
            ) == flow(w, a, b, period) by {
                let (p, q) = canonical(a, b);
                assert((p, q, period) != (lo, hi, taker.key.period));
                assert(holds(moved, (p, q, period)) <==> holds(mid.flows, (p, q, period)));
                assert(flow(mid, a, b, period) == flow(w, a, b, period));
            }
        } else {
            assert(after.flows == mid.flows);
            assert forall|b: AreaV| b != home implies #[trigger] flow(
                after,
                home,
                b,
                taker.key.period,
            ) == flow(w, home, b, taker.key.period) + taken_from(takes, b) by {
                assert(flow(mid, home, b, taker.key.period) == flow(w, home, b, taker.key.period)
                    + taken_from(takes.drop_last(), b));
            }
            assert forall|a: AreaV, b: AreaV, period: DeliveryPeriod|
                period != taker.key.period || (a != home && b != home) implies #[trigger] flow(
                after,
                a,
                b,
                period,
            ) == flow(w, a, b, period) by {
                assert(flow(mid, a, b, period) == flow(w, a, b, period));
            }
        }
    }
}

proof fn lemma_recorded_flows(
    w: WorldV,
    taker: Taker,
    pool: Option<u64>,
    takes: Seq<Take>,
    now: Timestamp,
)
    ensures
        takes_recorded(w, taker, pool, takes, now).flows == w.flows,
        takes_recorded(w, taker, pool, takes, now).couplings == w.couplings,
    decreases takes.len(),
{
    if takes.len() > 0 {
        lemma_recorded_flows(w, taker, pool, takes.drop_last(), now);
    }
}

proof fn lemma_traced_couplings(w: WorldV, taker: Taker, takes: Seq<Take>, now: Timestamp)
    ensures
        takes_traced(w, taker, takes, now).couplings == w.couplings,
    decreases takes.len(),
{
    if takes.len() > 0 {
        lemma_traced_couplings(w, taker, takes.drop_last(), now);
    }
}

/// What an order takes from a neighbouring area crosses the border between
/// them, for its delivery, and nothing else does: the flow there grows by just
/// that, and no other flow changes. What may still cross is the cap less what
/// has crossed, and no less than nothing.
pub proof fn flows_count_what_crosses(
    w: WorldV,
    o: OrderV,
    pool: Option<u64>,
    now: Timestamp,
    a: AreaV,
    b: AreaV,
    period: DeliveryPeriod,
)
    requires
        world_wf(w),
    ensures
        ({
            let m = admitted(w, o, pool, now);
            let crossed_mw = flow(m.world, a, b, period);
            &&& a == o.area && b != o.area && period == o.period ==> crossed_mw == flow(
                w,
                a,
                b,
                period,
            ) + taken_from(m.takes, b)
            &&& period != o.period || (a != o.area && b != o.area) ==> crossed_mw == flow(
                w,
                a,
                b,
                period,
            )
            &&& capacity_left(m.world, a, b, period) == match edge(w.couplings, a, b) {
                None => None,
                Some(c) => match c.capacity_mw {
                    None => None,
                    Some(cap) => Some(
                        if crossed_mw < cap {
                            cap - crossed_mw
                        } else {
                            0
                        },
                    ),
                },
            }
        }),
{
    let m = admitted(w, o, pool, now);
    let numbered = WorldV { next_order_id: (w.next_order_id + 1) as u64, ..w };
    let c = crossed(numbered, m.taker, o.price, o.quantity, mode_of(o.execution_option), now);
    lemma_recorded_flows(c.world, m.taker, pool, c.takes, now);
    lemma_traced_flows(numbered, m.taker, c.takes, now);
    lemma_traced_couplings(numbered, m.taker, c.takes, now);
    let traced = takes_traced(numbered, m.taker, c.takes, now);
    assert(c.world.flows == traced.flows && c.world.couplings == w.couplings);
    assert(flow(m.world, a, b, period) == flow(traced, a, b, period));
    assert(flow(numbered, a, b, period) == flow(w, a, b, period));
}

} // verus!
