//! Placing and changing orders on an exchange that may be full: what the
//! exchange cannot carry is turned down before anything changes.

use crate::decimal::Decimal;
use crate::model::{
    admitted, cancel_objection, candidates, detail_at, fresh_detail, key_of, market_objection,
    modified, modify_objection, modify_rejection, objection, owners_known, rejection, set_or,
    stays_put, submitted, updated_total, SubmitError, UpdateV, WorldV,
};
use crate::order::{GridpoolId, Order, OrderDetail, OrderId, OrderV};
use crate::time::Timestamp;
use crate::volume::{carries, ids_left, on_one_grid, rematch_carried};
use crate::world::room::{is_exact_difference, is_exact_sum};
use crate::world::{ContractKey, OrderUpdate, World};
use vstd::prelude::*;

verus! {

/// The exchange can take the order: there are ids left for it and its fills,
/// and every quantity that matching it can lead to can be held.
pub open spec fn has_room_for(w: WorldV, o: OrderV, now: Timestamp) -> bool {
    let key = key_of(o);
    ids_left(w, o.side) && carries(
        w,
        key,
        candidates(w, key, now),
        o.side,
        o.price,
        0,
        o.quantity,
    )
}

/// The exchange can apply the update: what the order stands for before and
/// after it can be held, and matched again unless it keeps its place.
pub open spec fn has_room_to_modify(
    w: WorldV,
    pool: u64,
    id: u64,
    u: UpdateV,
    now: Timestamp,
) -> bool {
    let d = detail_at(w, pool, id);
    let total = updated_total(d, u);
    cancel_objection(w, pool, id) is None ==> {
        &&& on_one_grid(
            d.filled_quantity,
            d.open_quantity,
            d.filled_quantity + d.open_quantity,
        )
        &&& modify_objection(w, pool, id, u, now) is None ==> {
            &&& on_one_grid(total, d.filled_quantity, total - d.filled_quantity)
            &&& stays_put(w, pool, id, u) || rematch_carried(
                w,
                pool,
                id,
                set_or(u.price, d.order.price),
                total - d.filled_quantity,
            )
        }
    }
}

impl World {
    /// [`World::submit_order`], on an exchange that may have no room for the
    /// order: `None`, and nothing changes, where nothing objects to it but
    /// it cannot be carried.
    pub fn place_order(&mut self, gridpool_id: GridpoolId, order: Order, now: Timestamp) -> (r:
        Option<Result<OrderDetail, SubmitError>>)
        requires
            old(self).wf(),
            owners_known(old(self)@),
        ensures
            final(self).wf(),
            owners_known(final(self)@),
            r is None <==> objection(old(self)@, gridpool_id.0, order@, now) is None
                && !has_room_for(old(self)@, order@, now),
            r is None ==> final(self)@ == old(self)@,
            r is Some ==> match rejection(old(self)@, gridpool_id.0, order@, now) {
                Some(e) => r == Some(Err::<OrderDetail, SubmitError>(e)) && final(self)@ == old(
                    self,
                )@,
                None => r->0 matches Ok(d) && d@ == fresh_detail(
                    admitted(old(self)@, order@, Some(gridpool_id.0), now),
                    order@,
                    now,
                ) && final(self)@ == submitted(old(self)@, gridpool_id.0, order@, now),
            },
    {
        match self.vet(gridpool_id, &order, now) {
            Ok(_) => {
                if !self.has_ids(order.side) || !self.can_carry(&order, now) {
                    return None;
                }
            },
            Err(_) => {},
        }
        Some(self.submit_order(gridpool_id, order, now))
    }

    /// [`World::submit_counterparty_order`], on an exchange that may have no
    /// room for the order: `None`, and nothing changes, where nothing objects
    /// to it but it cannot be carried.
    pub fn place_counterparty_order(&mut self, order: Order, now: Timestamp) -> (r: Option<
        Result<OrderId, SubmitError>,
    >)
        requires
            old(self).wf(),
            owners_known(old(self)@),
        ensures
            final(self).wf(),
            owners_known(final(self)@),
            match market_objection(old(self)@, order@, now) {
                Some(e) => r == Some(Err::<OrderId, SubmitError>(e)) && final(self)@ == old(self)@,
                None => if has_room_for(old(self)@, order@, now) {
                    &&& r == Some(Ok::<OrderId, SubmitError>(OrderId(old(self)@.next_order_id)))
                    &&& final(self)@ == admitted(old(self)@, order@, None, now).world
                } else {
                    r is None && final(self)@ == old(self)@
                },
            },
    {
        match self.validate_common(&order, now) {
            Ok(_) => {
                if !self.has_ids(order.side) || !self.can_carry(&order, now) {
                    return None;
                }
            },
            Err(e) => {
                return Some(Err(e));
            },
        }
        Some(self.submit_counterparty_order(order, now))
    }

    /// [`World::modify_order`], on an exchange that may have no room for the
    /// update: `None`, and nothing changes, where it has none.
    pub fn amend_order(
        &mut self,
        gridpool_id: GridpoolId,
        order_id: OrderId,
        upd: OrderUpdate,
        now: Timestamp,
    ) -> (r: Option<Result<OrderDetail, SubmitError>>)
        requires
            old(self).wf(),
            owners_known(old(self)@),
        ensures
            final(self).wf(),
            owners_known(final(self)@),
            r is None <==> !has_room_to_modify(
                old(self)@,
                gridpool_id.0,
                order_id.0,
                upd@,
                now,
            ),
            r is None ==> final(self)@ == old(self)@,
            r is Some ==> match modify_rejection(old(self)@, gridpool_id.0, order_id.0, upd@, now) {
                Some(e) => r == Some(Err::<OrderDetail, SubmitError>(e)) && final(self)@ == old(
                    self,
                )@,
                None => {
                    &&& final(self)@ == modified(
                        old(self)@,
                        gridpool_id.0,
                        order_id.0,
                        upd@,
                        now,
                    )
                    &&& r->0 matches Ok(d) && d@ == detail_at(
                        final(self)@,
                        gridpool_id.0,
                        order_id.0,
                    )
                },
            },
    {
        let ghost w = self@;
        let ghost pool = gridpool_id.0;
        let ghost id = order_id.0;
        match self.detail(gridpool_id, order_id) {
            Some(d) => {
                if !d.state.state.is_terminal() {
                    if !is_exact_sum(d.filled_quantity, d.open_quantity) {
                        return None;
                    }
                    match self.check_update(gridpool_id, order_id, &upd, now) {
                        Ok((_, price, prior, total)) => {
                            if !is_exact_difference(total, d.filled_quantity) {
                                return None;
                            }
                            let open = total.minus(d.filled_quantity);
                            let key = ContractKey {
                                area: d.order.area.clone(),
                                period: d.order.period,
                            };
                            let kept = self.place_kept(gridpool_id, order_id, &key, &upd, prior);
                            if kept.is_none() && Decimal::zero().less(open) && !self.can_rematch(
                                &d,
                                &key,
                                price,
                                open,
                            ) {
                                return None;
                            }
                        },
                        Err(_) => {},
                    }
                }
            },
            None => {},
        }
        Some(self.modify_order(gridpool_id, order_id, upd, now))
    }
}

} // verus!
