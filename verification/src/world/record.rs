//! Admitting orders and recording what they fill.

use crate::book::{amount_fits, lemma_sum_fits, lemma_zero_on_grid, EntryV, Resting};
use crate::decimal::{
    grid_limit, is_multiple_of, lemma_grid_closed, on_grid, representable, Decimal,
};
use crate::ledger::{
    lemma_crossed_recordable, lemma_fill_recorded, lemma_maker_fits, lemma_pool_at, lemma_put,
    lemma_traded, recordable,
};
use crate::lifecycle::lemma_candidates_same;
use crate::market::{Area, Currency};
use crate::matching::{filled, fills_view, ExecMode, Fill, IncomingLimit};
use crate::model::{
    admitted, candidates, crossed, detail_at, detail_put, fill_of, fill_recorded, flow, key_of,
    maker_filled, market_objection, mode_of, on_pool, owners_known, pool_traded, take_total,
    takes_recorded, KeyV, SubmitError, Take, Taker,
};
use crate::order::{
    ExecutionOption, GridpoolId, MarketActor, Order, OrderDetail, OrderId, OrderState, OrderType,
    Side, StateDetail, StateReason,
};
use crate::table::{holds, slot};
use crate::time::Timestamp;
use crate::trade::{PublicTrade, Trade, TradeState};
use crate::volume::{
    entry_fits, in_reach, lemma_filled_is_take_total, lemma_filled_nonnegative,
    lemma_take_total_prefix, maker_fits, quantities_fit, reach_fits, takes_fit, volume_fits,
};
use crate::world::crossing::fills_match;
use crate::world::placing::has_room_for;
use crate::world::{pool_number, ContractKey, World};
use vstd::prelude::*;

verus! {

impl World {
    /// File a trade with a gridpool and put it into the outbox.
    pub(super) fn credit_trade(&mut self, gridpool_id: GridpoolId, trade: Trade)
        requires
            old(self).wf(),
            holds(old(self)@.gridpools, gridpool_id.0),
        ensures
            final(self)@ == pool_traded(old(self)@, gridpool_id.0, trade@),
            final(self).wf(),
    {
        proof {
            lemma_traded(self@, gridpool_id.0, trade@);
        }
        match self.gridpools.get_mut(gridpool_id) {
            Some(pool) => {
                pool.record_trade(trade.clone());
            },
            None => {},
        }
        self.publish_gridpool_trade(gridpool_id, trade);
    }

    /// Put a detail in place of the one of its id on a gridpool.
    pub(super) fn put_detail(&mut self, gridpool_id: GridpoolId, detail: OrderDetail)
        requires
            old(self).wf(),
            holds(old(self)@.gridpools, gridpool_id.0),
        ensures
            final(self)@ == detail_put(old(self)@, gridpool_id.0, detail@),
            final(self).wf(),
    {
        proof {
            lemma_put(self@, gridpool_id.0, detail@);
            lemma_pool_at(self@.gridpools, gridpool_id.0);
        }
        match self.gridpools.get_mut(gridpool_id) {
            Some(pool) => {
                pool.put_order(detail);
            },
            None => {},
        }
    }

    /// A copy of an order on a gridpool.
    pub(super) fn detail(&self, gridpool_id: GridpoolId, order_id: OrderId) -> (r: Option<OrderDetail>)
        requires
            self.wf(),
        ensures
            match r {
                Some(d) => on_pool(self@, gridpool_id.0, order_id.0) && d@ == detail_at(
                    self@,
                    gridpool_id.0,
                    order_id.0,
                ),
                None => !on_pool(self@, gridpool_id.0, order_id.0),
            },
    {
        match self.gridpools.get(gridpool_id) {
            Some(pool) => match pool.get_order(order_id) {
                Some(d) => Some(d.clone()),
                None => None,
            },
            None => None,
        }
    }

    /// The rules of its market, applied to an order.
    pub(super) fn validate_common(&self, order: &Order, now: Timestamp) -> (r: Result<(), SubmitError>)
        requires
            self.wf(),
        ensures
            match r {
                Ok(_) => market_objection(self@, order@, now) is None,
                Err(e) => market_objection(self@, order@, now) == Some(e),
            },
    {
        if self.market_suspended {
            return Err(SubmitError::SuspendedMarket);
        }
        let rules = match self.markets.get(&order.area) {
            Some(rules) => rules,
            None => {
                return Err(SubmitError::UnknownArea);
            },
        };
        proof {
            let i = slot(self@.markets, order@.area);
            assert(self@.markets[i].1.price_tick > 0 && self@.markets[i].1.qty_step > 0);
        }
        if order.period.start.is_at_or_earlier(&now) {
            return Err(SubmitError::GateClosed);
        }
        if order.order_type != OrderType::Limit {
            return Err(SubmitError::UnsupportedOrderType(order.order_type));
        }
        if order.currency != rules.currency {
            return Err(SubmitError::CurrencyMismatch);
        }
        if !rules.allows(order.period.duration) {
            return Err(SubmitError::UnsupportedDurationForMarket);
        }
        if !order.period.is_aligned() {
            return Err(SubmitError::UnalignedDeliveryPeriod);
        }
        if !is_multiple_of(order.price, rules.price_tick) {
            return Err(SubmitError::PriceOffGrid);
        }
        if !Decimal::zero().less(order.quantity) {
            return Err(SubmitError::NonPositiveQuantity);
        }
        if !is_multiple_of(order.quantity, rules.qty_step) {
            return Err(SubmitError::QuantityOffGrid);
        }
        if order.side == Side::Unspecified {
            return Err(SubmitError::UnspecifiedSide);
        }
        match &order.valid_until {
            Some(t) => {
                if t.is_at_or_earlier(&now) {
                    return Err(SubmitError::ValidityElapsed);
                }
            },
            None => {},
        }
        Ok(())
    }

    /// Apply one fill: record the trades of both sides, put the public trade
    /// onto the tape, and update the maker's order. `taker_gridpool` is None
    /// for counterparty takers.
    pub(super) fn record_fill(
        &mut self,
        fill: &Fill,
        taker_id: OrderId,
        taker_side: Side,
        taker_currency: Currency,
        taker_gridpool: Option<GridpoolId>,
        taker_key: &ContractKey,
        maker_area: &Area,
        now: Timestamp,
    )
        requires
            old(self).wf(),
            owners_known(old(self)@),
            taker_gridpool matches Some(p) ==> holds(old(self)@.gridpools, p.0),
            old(self)@.next_trade_id < u64::MAX,
            old(self)@.owners.contains_key(fill.maker_id.0) && on_pool(
                old(self)@,
                old(self)@.owners[fill.maker_id.0],
                fill.maker_id.0,
            ) ==> {
                let d = detail_at(
                    old(self)@,
                    old(self)@.owners[fill.maker_id.0],
                    fill.maker_id.0,
                );
                &&& representable(d.open_quantity - fill.quantity@)
                &&& representable(d.filled_quantity + fill.quantity@)
            },
        ensures
            final(self)@ == fill_recorded(
                old(self)@,
                fill@,
                maker_area@,
                (Taker {
                    id: taker_id.0,
                    side: taker_side,
                    currency: taker_currency,
                    key: taker_key@,
                }),
                pool_number(taker_gridpool),
                now,
            ),
            final(self).wf(),
    {
        let ghost w0 = self@;
        let trade_id = self.mint_trade_id();
        let maker_id = fill.maker_id;
        let maker_gridpool = self.owner_of(maker_id);
        let ghost w1 = self@;
        match taker_gridpool {
            Some(pool) => {
                let trade = Trade {
                    id: trade_id,
                    order_id: taker_id,
                    side: taker_side,
                    area: taker_key.area.clone(),
                    period: taker_key.period,
                    execution_time: now,
                    price: fill.price,
                    currency: taker_currency,
                    quantity: fill.quantity,
                    state: TradeState::Active,
                };
                proof {
                    lemma_traded(self@, pool.0, trade@);
                }
                self.credit_trade(pool, trade);
            },
            None => {},
        }
        let ghost w2 = self@;
        match maker_gridpool {
            Some(pool) => {
                let trade = Trade {
                    id: trade_id,
                    order_id: maker_id,
                    side: taker_side.opposite(),
                    area: maker_area.clone(),
                    period: taker_key.period,
                    execution_time: now,
                    price: fill.price,
                    currency: taker_currency,
                    quantity: fill.quantity,
                    state: TradeState::Active,
                };
                proof {
                    assert(holds(w1.gridpools, pool.0));
                    lemma_traded(self@, pool.0, trade@);
                }
                self.credit_trade(pool, trade);
            },
            None => {},
        }
        let ghost w3 = self@;
        let (buy_area, sell_area) = match taker_side {
            Side::Sell => (maker_area.clone(), taker_key.area.clone()),
            _ => (taker_key.area.clone(), maker_area.clone()),
        };
        self.publish_public_trade(
            PublicTrade {
                id: trade_id,
                buy_area,
                sell_area,
                period: taker_key.period,
                execution_time: now,
                price: fill.price,
                currency: taker_currency,
                quantity: fill.quantity,
                state: TradeState::Active,
            },
        );
        let ghost w4 = self@;
        proof {
            assert(w4.gridpools == w3.gridpools);
            assert forall|p: u64, i: u64| on_pool(w4, p, i) <==> on_pool(w0, p, i) by {
                assert(on_pool(w4, p, i) == on_pool(w3, p, i));
                assert(on_pool(w3, p, i) == on_pool(w2, p, i));
                assert(on_pool(w2, p, i) == on_pool(w1, p, i));
                assert(on_pool(w1, p, i) == on_pool(w0, p, i));
            }
            assert forall|p: u64, i: u64| on_pool(w0, p, i) implies detail_at(w4, p, i)
                == detail_at(w0, p, i) by {
                assert(on_pool(w1, p, i) && on_pool(w2, p, i));
                assert(detail_at(w4, p, i) == detail_at(w3, p, i));
                assert(detail_at(w3, p, i) == detail_at(w2, p, i));
                assert(detail_at(w2, p, i) == detail_at(w1, p, i));
                assert(detail_at(w1, p, i) == detail_at(w0, p, i));
            }
        }
        match maker_gridpool {
            Some(pool) => {
                match self.detail(pool, maker_id) {
                    Some(before) => {
                        let d = fill_detail(before, fill.quantity, now);
                        let full = d.open_quantity.is_zero();
                        self.put_detail(pool, d.clone());
                        if full {
                            let _ = self.unbind_resting_order(maker_id);
                        }
                        self.publish_order_update(pool, d);
                    },
                    None => {},
                }
            },
            None => {},
        }
    }
}

/// An order after part of it, or the rest of it, was filled.
pub(super) fn fill_detail(d: OrderDetail, quantity: Decimal, now: Timestamp) -> (r: OrderDetail)
    requires
        representable(d@.open_quantity - quantity@),
        representable(d@.filled_quantity + quantity@),
    ensures
        r@ == maker_filled(d@, quantity@, now),
{
    let open = d.open_quantity.minus(quantity);
    let state = if open.is_zero() {
        StateDetail {
            state: OrderState::Filled,
            reason: StateReason::FullExecution,
            actor: MarketActor::System,
        }
    } else {
        StateDetail {
            state: d.state.state,
            reason: StateReason::PartialExecution,
            actor: MarketActor::System,
        }
    };
    OrderDetail {
        filled_quantity: d.filled_quantity.plus(quantity),
        open_quantity: open,
        modification_time: now,
        state,
        id: d.id,
        order: d.order,
        create_time: d.create_time,
    }
}

impl World {
    /// The sum of the quantities of fills.
    pub(super) fn total_filled(fills: &Vec<Fill>) -> (r: Decimal)
        requires
            exists|g: nat|
                g <= 28 && filled(fills_view(fills@)) < grid_limit(g) && quantities_fit(
                    fills_view(fills@),
                    g,
                ),
        ensures
            r@ == filled(fills_view(fills@)),
    {
        let ghost all = fills_view(fills@);
        let ghost g = choose|g: nat|
            g <= 28 && filled(all) < grid_limit(g) && quantities_fit(all, g);
        let mut sum = Decimal::zero();
        let mut i: usize = 0;
        proof {
            lemma_zero_on_grid(g);
            assert(all.skip(0) =~= all);
        }
        while i < fills.len()
            invariant
                i <= fills@.len(),
                all == fills_view(fills@),
                g <= 28,
                filled(all) < grid_limit(g),
                quantities_fit(all, g),
                sum@ + filled(all.skip(i as int)) == filled(all),
                sum@ >= 0,
                on_grid(sum@, g),
            decreases fills@.len() - i,
        {
            let q = fills[i].quantity;
            proof {
                assert(all[i as int].quantity == q@);
                assert(all.skip(i as int).drop_first() =~= all.skip(i + 1));
                lemma_filled_nonnegative(all.skip(i + 1), all, i + 1, g);
                lemma_grid_closed(sum@, q@, g);
                lemma_sum_fits(sum@ + q@, g);
            }
            sum = sum.plus(q);
            i += 1;
        }
        assert(filled(all.skip(i as int)) == 0);
        sum
    }

    /// Common admit + match + record-fills core of both submit paths.
    pub(super) fn admit_and_match(
        &mut self,
        order: &Order,
        taker_gridpool: Option<GridpoolId>,
        now: Timestamp,
    ) -> (r: (OrderId, Vec<Fill>, Option<Resting>, ExecMode))
        requires
            old(self).wf(),
            owners_known(old(self)@),
            taker_gridpool matches Some(p) ==> holds(old(self)@.gridpools, p.0),
            order@.quantity > 0,
            has_room_for(old(self)@, order@, now),
        ensures
            final(self).wf(),
            owners_known(final(self)@),
            taker_gridpool matches Some(p) ==> holds(final(self)@.gridpools, p.0),
            ({
                let a = admitted(old(self)@, order@, pool_number(taker_gridpool), now);
                &&& final(self)@ == a.world
                &&& r.0.0 == a.taker.id
                &&& filled(fills_view(r.1@)) == take_total(a.takes)
                &&& match r.2 {
                    Some(e) => a.rested == Some(e.open_qty@),
                    None => a.rested is None,
                }
                &&& r.3 == mode_of(order@.execution_option)
                &&& exists|g: nat| #[trigger]
                    amount_fits(order@.quantity, g) && takes_fit(a.takes, order@.quantity, g)
                        && quantities_fit(fills_view(r.1@), g)
            }),
    {
        let ghost w0 = self@;
        let ghost home = key_of(order@);
        let ghost keys = candidates(w0, home, now);
        let ghost g = choose|g: nat|
            volume_fits(w0, home, keys, order@.side, order@.price, 0, order@.quantity, g);
        let ghost pool = pool_number(taker_gridpool);
        let ghost a = admitted(w0, order@, pool, now);
        let ghost tk = a.taker;
        let taker_id = self.next_id();
        let key = ContractKey { area: order.area.clone(), period: order.period };
        let mode = match order.execution_option {
            Some(ExecutionOption::Fok) => ExecMode::FillOrKill,
            Some(ExecutionOption::Ioc) => ExecMode::ImmediateOrCancel,
            _ => ExecMode::Resting,
        };
        let ghost w1 = self@;
        proof {
            lemma_candidates_same(w0, w1, home, now);
            assert forall|k: KeyV, e: EntryV| #[trigger]
                in_reach(w1.books, keys, order@.side, order@.price, k, e) implies entry_fits(
                w1,
                home,
                k,
                e,
                order@.quantity,
                g,
            ) by {
                assert(in_reach(w0.books, keys, order@.side, order@.price, k, e));
                assert(entry_fits(w0, home, k, e, order@.quantity, g));
                assert(on_pool(w1, w1.owners[e.id], e.id) == on_pool(w0, w0.owners[e.id], e.id));
                assert(detail_at(w1, w1.owners[e.id], e.id) == detail_at(
                    w0,
                    w0.owners[e.id],
                    e.id,
                ));
                assert(flow(w1, home.area, k.area, home.period) == flow(
                    w0,
                    home.area,
                    k.area,
                    home.period,
                ));
            }
            assert(amount_fits(order@.quantity, g) && reach_fits(
                w1,
                home,
                keys,
                order@.side,
                order@.price,
                order@.quantity,
                g,
            ));
        }
        let (fills, rested) = self.match_limit_across(
            &key,
            IncomingLimit {
                id: taker_id,
                side: order.side,
                price: order.price,
                quantity: order.quantity,
            },
            mode,
            order.currency,
            now,
        );
        let ghost c = crossed(w1, tk, order@.price, order@.quantity, mode, now);
        let ghost takes = c.takes;
        proof {
            assert(self@ == c.world);
            lemma_crossed_recordable(
                w1,
                tk,
                order@.price,
                order@.quantity,
                mode,
                now,
                pool,
                g,
            );
        }
        let mut plain: Vec<Fill> = Vec::new();
        let mut i: usize = 0;
        assert(takes.take(0) =~= Seq::<Take>::empty());
        while i < fills.len()
            invariant
                i <= fills@.len(),
                fills_match(fills@, taker_id.0, takes),
                tk == (Taker {
                    id: taker_id.0,
                    side: order.side,
                    currency: order.currency,
                    key: key@,
                }),
                pool == pool_number(taker_gridpool),
                amount_fits(order@.quantity, g),
                takes_fit(takes, order@.quantity, g),
                self@ == takes_recorded(c.world, tk, pool, takes.take(i as int), now),
                recordable(
                    self@,
                    pool,
                    order@.quantity - take_total(takes.take(i as int)),
                    g,
                ),
                forall|j: int|
                    0 <= j < takes.len() ==> maker_fits(
                        self@,
                        (#[trigger] takes[j]).entry.id,
                        order@.quantity - take_total(takes.take(i as int)),
                        g,
                    ),
                self@.next_trade_id + (takes.len() - i) <= u64::MAX,
                plain@.len() == i,
                forall|j: int| 0 <= j < i ==> (#[trigger] plain@[j])@ == fill_of(taker_id.0, takes[j]),
            decreases fills@.len() - i,
        {
            let ghost w = self@;
            let ghost room = order@.quantity - take_total(takes.take(i as int));
            let ghost t = takes[i as int];
            proof {
                lemma_take_total_prefix(takes, i as int, order@.quantity, g);
                lemma_take_total_prefix(takes, i + 1, order@.quantity, g);
                assert(fills@[i as int].0@ == fill_of(taker_id.0, t));
                assert(on_grid(takes[i as int].quantity, g));
                assert(takes.take(i + 1).drop_last() =~= takes.take(i as int));
                assert(maker_fits(w, takes[i as int].entry.id, room, g));
                lemma_fill_recorded(
                    w,
                    fill_of(taker_id.0, t),
                    t.key.area,
                    tk,
                    pool,
                    now,
                    room,
                    g,
                );
                lemma_maker_fits(w, fill_of(taker_id.0, t), room, g);
                let next = fill_recorded(w, fill_of(taker_id.0, t), t.key.area, tk, pool, now);
                assert forall|j: int| 0 <= j < takes.len() implies maker_fits(
                    next,
                    (#[trigger] takes[j]).entry.id,
                    room - t.quantity,
                    g,
                ) by {
                    assert(maker_fits(w, takes[j].entry.id, room, g));
                }
            }
            self.record_fill(
                &fills[i].0,
                taker_id,
                order.side,
                order.currency,
                taker_gridpool,
                &key,
                &fills[i].1,
                now,
            );
            plain.push(fills[i].0);
            i += 1;
        }
        proof {
            assert(takes.take(i as int) =~= takes);
            let v = fills_view(plain@);
            assert forall|j: int| 0 <= j < v.len() implies (#[trigger] v[j]) == fill_of(
                taker_id.0,
                takes[j],
            ) by {
                assert(v[j] == plain@[j]@);
            }
            lemma_filled_is_take_total(v, taker_id.0, takes);
            assert forall|j: int| 0 <= j < v.len() implies on_grid((#[trigger] v[j]).quantity, g)
                && v[j].quantity >= 0 by {
                assert(on_grid(takes[j].quantity, g));
            }
            assert(amount_fits(order@.quantity, g) && takes_fit(a.takes, order@.quantity, g)
                && quantities_fit(v, g));
        }
        (taker_id, plain, rested, mode)
    }
}

} // verus!
