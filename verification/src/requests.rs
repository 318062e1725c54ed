//! What those who ask are given.

use crate::ledger::lemma_detail_id;
use crate::lifecycle::lemma_canceled_details;
use crate::market::{AreaV, DeliveryPeriod};
use crate::model::{cancel_objection, detail_at, detail_canceled, on_pool, world_wf, WorldV};
use crate::order::{terminal, DetailV, MarketActor, OrderState, StateReason};
use crate::proto_conv::{detail_wire, trade_wire, WireEnum};
use crate::service::{
    area_fits, cancel_all_leaves_nothing_open, listed, many_canceled, open_ids, period_fits,
    selected, tag_fits, trades_listed,
};
use crate::table::value_at;
use crate::time::Timestamp;
use crate::trade::TradeV;
use vstd::prelude::*;

verus! {

/// The order is one of those asked for: in one of the states, where any are
/// named, on the side, where one is, and with the tag, where one is.
pub open spec fn asked_for(
    d: DetailV,
    states: Seq<i32>,
    side: Option<i32>,
    tag: Option<Seq<char>>,
) -> bool {
    &&& states.len() > 0 ==> exists|i: int|
        0 <= i < states.len() && #[trigger] states[i] == d.state.state.number()
    &&& side is Some ==> d.order.side.number() == side->0
    &&& tag is Some ==> d.order.tag is Some && d.order.tag->0 == tag->0
}

/// A list of orders is all the orders asked for and no others, each once, in
/// the order in which they were placed.
pub proof fn lists_hold_what_was_asked_for(
    orders: Seq<(u64, DetailV)>,
    states: Seq<i32>,
    side: Option<i32>,
    tag: Option<Seq<char>>,
)
    ensures
        listed(orders, states, side, tag, orders.len()) == orders.filter(
            |x: (u64, DetailV)| asked_for(x.1, states, side, tag),
        ).map_values(|x: (u64, DetailV)| detail_wire(x.1)),
{
    let keep = |x: (u64, DetailV)| asked_for(x.1, states, side, tag);
    lemma_listed(orders, states, side, tag, orders.len());
    assert(orders.take(orders.len() as int) =~= orders);
}

proof fn lemma_listed(
    orders: Seq<(u64, DetailV)>,
    states: Seq<i32>,
    side: Option<i32>,
    tag: Option<Seq<char>>,
    n: nat,
)
    requires
        n <= orders.len(),
    ensures
        listed(orders, states, side, tag, n) == orders.take(n as int).filter(
            |x: (u64, DetailV)| asked_for(x.1, states, side, tag),
        ).map_values(|x: (u64, DetailV)| detail_wire(x.1)),
    decreases n,
{
    reveal(Seq::filter);
    let keep = |x: (u64, DetailV)| asked_for(x.1, states, side, tag);
    let shape = |x: (u64, DetailV)| detail_wire(x.1);
    if n == 0 {
        assert(listed(orders, states, side, tag, n) =~= orders.take(0).filter(keep).map_values(
            shape,
        ));
    } else {
        let m = (n - 1) as nat;
        let some = orders.take(n as int);
        lemma_listed(orders, states, side, tag, m);
        assert(some.drop_last() =~= orders.take(m as int));
        assert(some.last() == orders[n - 1]);
        let d = orders[n - 1].1;
        assert(keep(orders[n - 1]) == (selected(
            states,
            side,
            d.state.state.number(),
            d.order.side.number(),
        ) && tag_fits(tag, d.order.tag)));
        if keep(orders[n - 1]) {
            let before = orders.take(m as int).filter(keep);
            assert(before.push(orders[n - 1]).map_values(shape) =~= before.map_values(shape).push(
                detail_wire(d),
            ));
        }
    }
}

/// The trade is one of those asked for.
pub open spec fn trade_asked_for(t: TradeV, states: Seq<i32>, side: Option<i32>) -> bool {
    &&& states.len() > 0 ==> exists|i: int|
        0 <= i < states.len() && #[trigger] states[i] == t.state.number()
    &&& side is Some ==> t.side.number() == side->0
}

/// A list of trades is all the trades asked for and no others, each once,
/// oldest first.
pub proof fn lists_hold_the_trades_asked_for(
    trades: Seq<TradeV>,
    states: Seq<i32>,
    side: Option<i32>,
)
    ensures
        trades_listed(trades, states, side, trades.len()) == trades.filter(
            |t: TradeV| trade_asked_for(t, states, side),
        ).map_values(|t: TradeV| trade_wire(t)),
{
    lemma_trades_listed(trades, states, side, trades.len());
    assert(trades.take(trades.len() as int) =~= trades);
}

proof fn lemma_trades_listed(trades: Seq<TradeV>, states: Seq<i32>, side: Option<i32>, n: nat)
    requires
        n <= trades.len(),
    ensures
        trades_listed(trades, states, side, n) == trades.take(n as int).filter(
            |t: TradeV| trade_asked_for(t, states, side),
        ).map_values(|t: TradeV| trade_wire(t)),
    decreases n,
{
    reveal(Seq::filter);
    let keep = |t: TradeV| trade_asked_for(t, states, side);
    let shape = |t: TradeV| trade_wire(t);
    if n == 0 {
        assert(trades_listed(trades, states, side, n) =~= trades.take(0).filter(keep).map_values(
            shape,
        ));
    } else {
        let m = (n - 1) as nat;
        let some = trades.take(n as int);
        lemma_trades_listed(trades, states, side, m);
        assert(some.drop_last() =~= trades.take(m as int));
        assert(some.last() == trades[n - 1]);
        let t = trades[n - 1];
        assert(keep(t) == selected(states, side, t.state.number(), t.side.number()));
        if keep(t) {
            let before = trades.take(m as int).filter(keep);
            assert(before.push(t).map_values(shape) =~= before.map_values(shape).push(
                trade_wire(t),
            ));
        }
    }
}

/// A filter lets through what it names, and everything where it names nothing.
pub proof fn filters_let_through_what_they_name(
    states: Seq<i32>,
    side: Option<i32>,
    state: i32,
    s: i32,
    wanted_tag: Option<Seq<char>>,
    tag: Option<Seq<char>>,
    wanted_area: Option<AreaV>,
    area: AreaV,
    wanted_period: Option<DeliveryPeriod>,
    period: DeliveryPeriod,
)
    ensures
        selected(states, side, state, s) <==> (states.len() == 0 || exists|i: int|
            0 <= i < states.len() && #[trigger] states[i] == state) && (side is None || side->0
            == s),
        tag_fits(wanted_tag, tag) <==> wanted_tag is None || (tag is Some && tag->0
            == wanted_tag->0),
        area_fits(wanted_area, area) <==> wanted_area is None || (wanted_area->0.code == area.code
            && wanted_area->0.code_type == area.code_type),
        period_fits(wanted_period, period) <==> wanted_period is None || (
        wanted_period->0.start.secs == period.start.secs && wanted_period->0.start.nanos
            == period.start.nanos && wanted_period->0.duration == period.duration),
{
}

proof fn lemma_canceled_once(w: WorldV, pool: u64, ids: Seq<u64>, id: u64, now: Timestamp)
    requires
        world_wf(w),
        on_pool(w, pool, id),
    ensures
        ({
            let after = many_canceled(w, pool, ids, now);
            let was = detail_at(w, pool, id);
            let is = detail_at(after, pool, id);
            &&& world_wf(after)
            &&& on_pool(after, pool, id)
            &&& is == was || (!terminal(was.state.state) && is == detail_canceled(
                was,
                MarketActor::User,
                now,
            ))
            &&& ids.contains(id) ==> terminal(is.state.state)
        }),
    decreases ids.len(),
{
    if ids.len() > 0 {
        let mid = many_canceled(w, pool, ids.drop_last(), now);
        lemma_canceled_once(w, pool, ids.drop_last(), id, now);
        let last = ids.last();
        if cancel_objection(mid, pool, last) is None {
            lemma_canceled_details(mid, pool, last, MarketActor::User, now);
            lemma_detail_id(mid, pool, last);
        }
        if ids.contains(id) && id != last {
            let k = choose|k: int| 0 <= k < ids.len() && ids[k] == id;
            assert(ids.drop_last()[k] == id);
        }
    }
}

/// Once a gridpool has canceled all its orders, those that were open are
/// canceled, by the user, as of now, with what they had filled and open and as
/// they were handed in; those that had ended before stay as they were.
pub proof fn cancel_all_cancels_what_is_open(w: WorldV, pool: u64, id: u64, now: Timestamp)
    requires
        world_wf(w),
        on_pool(w, pool, id),
    ensures
        ({
            let orders = value_at(w.gridpools, pool).orders;
            let after = many_canceled(w, pool, open_ids(orders, orders.len()), now);
            let was = detail_at(w, pool, id);
            let is = detail_at(after, pool, id);
            let ended = was.state.state == OrderState::Filled || was.state.state
                == OrderState::Canceled || was.state.state == OrderState::Expired
                || was.state.state == OrderState::Failed;
            &&& ended ==> is == was
            &&& !ended ==> {
                &&& is.state.state == OrderState::Canceled
                &&& is.state.reason == StateReason::Delete
                &&& is.state.actor == MarketActor::User
                &&& is.modification_time == now
                &&& is.id == was.id
                &&& is.order == was.order
                &&& is.open_quantity == was.open_quantity
                &&& is.filled_quantity == was.filled_quantity
                &&& is.create_time == was.create_time
            }
        }),
{
    let orders = value_at(w.gridpools, pool).orders;
    let ids = open_ids(orders, orders.len());
    lemma_canceled_once(w, pool, ids, id, now);
    cancel_all_leaves_nothing_open(w, pool, pool, id, now);
}

} // verus!
