//! Submitting orders.

use crate::book::{amount_fits, lemma_sum_fits};
use crate::decimal::{grid_limit, lemma_grid_closed, Decimal};
use crate::gridpool::SelfTradePolicy;
use crate::ledger::{lemma_pool_at, lemma_put, lemma_stored_same};
use crate::matching::{filled, fills_view, ExecMode};
use crate::model::{
    admitted, candidates, fresh_detail, key_of, market_objection, objection, owners_known,
    rejection, state_after, submitted, take_total, SubmitError,
};
use crate::order::{
    ExecutionOption, GridpoolId, MarketActor, Order, OrderDetail, OrderId, OrderState, StateDetail,
    StateReason,
};
use crate::table::{holds, value_at};
use crate::time::Timestamp;
use crate::volume::{
    far_fits, lemma_reach_far, lemma_take_total_prefix, quantities_fit, takes_fit, volume_fits,
};
use crate::world::placing::has_room_for;
use crate::world::{ContractKey, World};
use vstd::prelude::*;

verus! {

/// The state of an order right after it was matched.
pub(super) fn matched_state(mode: ExecMode, rested: bool, filled: Decimal, open: Decimal) -> (r: StateDetail)
    ensures
        r == state_after(mode, rested, filled@, open@),
{
    let (state, reason) = if rested {
        if filled.is_zero() {
            (OrderState::Active, StateReason::Add)
        } else {
            (OrderState::Active, StateReason::PartialExecution)
        }
    } else if !filled.is_zero() && open.is_zero() {
        (OrderState::Filled, StateReason::FullExecution)
    } else if mode != ExecMode::Resting && filled.is_zero() {
        (OrderState::Canceled, StateReason::Reject)
    } else if mode == ExecMode::ImmediateOrCancel {
        (OrderState::Canceled, StateReason::PartialExecution)
    } else {
        (OrderState::Failed, StateReason::Reject)
    };
    StateDetail { state, reason, actor: MarketActor::User }
}

impl World {
    /// The rules of the gridpool and of the market, applied to an order; the
    /// gridpool's self-trade policy where none objects.
    pub(super) fn vet(&self, gridpool_id: GridpoolId, order: &Order, now: Timestamp) -> (r: Result<
        SelfTradePolicy,
        SubmitError,
    >)
        requires
            self.wf(),
        ensures
            match objection(self@, gridpool_id.0, order@, now) {
                Some(e) => r == Err::<SelfTradePolicy, SubmitError>(e),
                None => r == Ok::<SelfTradePolicy, SubmitError>(
                    value_at(self@.gridpools, gridpool_id.0).self_trade_policy,
                ) && holds(self@.gridpools, gridpool_id.0),
            },
    {
        let policy = match self.gridpools.get(gridpool_id) {
            Some(pool) => {
                if !pool.allows_area(&order.area) {
                    return Err(SubmitError::AreaNotAllowedForGridpool);
                }
                pool.self_trade_policy()
            },
            None => {
                return Err(SubmitError::UnknownGridpool);
            },
        };
        match self.validate_common(order, now) {
            Ok(_) => {},
            Err(e) => {
                return Err(e);
            },
        }
        match &order.execution_option {
            Some(ExecutionOption::Aon) => {
                return Err(SubmitError::UnsupportedExecutionOption(ExecutionOption::Aon));
            },
            Some(option) => {
                if order.valid_until.is_some() {
                    return Err(SubmitError::UnsupportedExecutionOption(*option));
                }
            },
            None => {},
        }
        Ok(policy)
    }

    /// Validate-and-admit pipeline: rejects any pre-trade violation; else
    /// mints an id, runs the matcher, records the resulting trades and states
    /// on both sides, and returns the taker's order detail. A rejected order
    /// changes nothing.
    pub fn submit_order(&mut self, gridpool_id: GridpoolId, order: Order, now: Timestamp) -> (r:
        Result<OrderDetail, SubmitError>)
        requires
            old(self).wf(),
            owners_known(old(self)@),
            objection(old(self)@, gridpool_id.0, order@, now) is None ==> has_room_for(
                old(self)@,
                order@,
                now,
            ),
        ensures
            final(self).wf(),
            owners_known(final(self)@),
            match rejection(old(self)@, gridpool_id.0, order@, now) {
                Some(e) => r == Err::<OrderDetail, SubmitError>(e) && final(self)@ == old(self)@,
                None => r matches Ok(d) && d@ == fresh_detail(
                    admitted(old(self)@, order@, Some(gridpool_id.0), now),
                    order@,
                    now,
                ) && final(self)@ == submitted(old(self)@, gridpool_id.0, order@, now),
            },
    {
        let ghost w0 = self@;
        let policy = match self.vet(gridpool_id, &order, now) {
            Ok(policy) => policy,
            Err(e) => {
                return Err(e);
            },
        };
        if policy == SelfTradePolicy::Reject {
            let key = ContractKey { area: order.area.clone(), period: order.period };
            proof {
                let home = key_of(order@);
                let keys = candidates(w0, home, now);
                let qty = order@.quantity;
                let g = choose|g: nat|
                    volume_fits(w0, home, keys, order@.side, order@.price, 0, qty, g);
                lemma_reach_far(w0, home, keys, order@.side, order@.price, qty, g);
                assert(amount_fits(qty, g) && far_fits(
                    w0.books,
                    keys,
                    order@.side,
                    order@.price,
                    g,
                ));
            }
            if self.would_self_trade(
                &key,
                order.side,
                order.price,
                order.quantity,
                gridpool_id,
                now,
            ) {
                return Err(SubmitError::SelfTradeRejected);
            }
        }
        let total_qty = order.quantity;
        let (taker_id, fills, rested, mode) = self.admit_and_match(
            &order,
            Some(gridpool_id),
            now,
        );
        let ghost a = admitted(w0, order@, Some(gridpool_id.0), now);
        proof {
            let g = choose|g: nat| #[trigger]
                amount_fits(order@.quantity, g) && takes_fit(a.takes, order@.quantity, g)
                    && quantities_fit(fills_view(fills@), g);
            lemma_take_total_prefix(a.takes, a.takes.len() as int, order@.quantity, g);
            assert(a.takes.take(a.takes.len() as int) =~= a.takes);
            lemma_grid_closed(order@.quantity, take_total(a.takes), g);
            lemma_sum_fits(order@.quantity - take_total(a.takes), g);
            assert(filled(fills_view(fills@)) < grid_limit(g));
        }
        let filled_qty = World::total_filled(&fills);
        let open = total_qty.minus(filled_qty);
        let detail = OrderDetail {
            id: taker_id,
            state: matched_state(mode, rested.is_some(), filled_qty, open),
            order,
            open_quantity: open,
            filled_quantity: filled_qty,
            create_time: now,
            modification_time: now,
        };
        assert(detail@ == fresh_detail(a, order@, now));
        proof {
            lemma_put(self@, gridpool_id.0, detail@);
            lemma_pool_at(self@.gridpools, gridpool_id.0);
        }
        match self.gridpools.get_mut(gridpool_id) {
            Some(pool) => {
                let _ = pool.record_order(detail.clone());
            },
            None => {},
        }
        proof {
            lemma_stored_same(a.world.gridpools, gridpool_id.0);
        }
        if rested.is_some() {
            self.bind_resting_order(taker_id, gridpool_id);
        }
        self.publish_order_update(gridpool_id, detail.clone());
        Ok(detail)
    }

    /// Admit a counterparty (non-gridpool) order. Same validation as
    /// [`World::submit_order`] minus the gridpool gates. Returns the id of
    /// the admitted order; a leftover rests without a binding.
    pub fn submit_counterparty_order(&mut self, order: Order, now: Timestamp) -> (r: Result<
        OrderId,
        SubmitError,
    >)
        requires
            old(self).wf(),
            owners_known(old(self)@),
            market_objection(old(self)@, order@, now) is None ==> has_room_for(
                old(self)@,
                order@,
                now,
            ),
        ensures
            final(self).wf(),
            owners_known(final(self)@),
            match market_objection(old(self)@, order@, now) {
                Some(e) => r == Err::<OrderId, SubmitError>(e) && final(self)@ == old(self)@,
                None => {
                    &&& r == Ok::<OrderId, SubmitError>(OrderId(old(self)@.next_order_id))
                    &&& final(self)@ == admitted(old(self)@, order@, None, now).world
                },
            },
    {
        match self.validate_common(&order, now) {
            Ok(_) => {},
            Err(e) => {
                return Err(e);
            },
        }
        let (taker_id, fills, rested, mode) = self.admit_and_match(&order, None, now);
        Ok(taker_id)
    }
}

} // verus!
