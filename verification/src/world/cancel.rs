//! Canceling orders.

use crate::book::{book_wf, entry_of, rests, side_of};
use crate::decimal::Decimal;
use crate::gridpool::pool_wf;
use crate::ledger::{lemma_put, lemma_stored_books_wf, lemma_without_wf};
use crate::market::Currency;
use crate::matching::{
    fills_view, match_limit, matchable, matched, ExecMode, IncomingLimit, LimitMatchOutcome,
};
use crate::model::{
    book_at, book_with, books_without, cancel_objection, counterparty_canceled, detail_at,
    detail_canceled, opposite, order_canceled, owners_known, pool_of, pool_with, SubmitError,
    WorldV,
};
use crate::order::{
    GridpoolId, MarketActor, OrderDetail, OrderId, OrderState, Side, StateDetail, StateReason,
};
use crate::proto_conv::WireEnum;
use crate::table::stored;
use crate::time::Timestamp;
use crate::world::{pool_number, ContractKey, World};
use vstd::prelude::*;

verus! {

impl World {
    /// The first book that the order rests on.
    pub(super) fn find_resting(&self, order_id: OrderId) -> (r: Option<usize>)
        requires
            self.wf(),
        ensures
            match r {
                Some(i) => i < self@.books.len() && book_with(self@.books, order_id.0, 0) == Some(
                    i as int,
                ) && rests(self@.books[i as int].1, order_id.0),
                None => book_with(self@.books, order_id.0, 0) is None,
            },
    {
        let mut i: usize = 0;
        while i < self.books.len()
            invariant
                self.wf(),
                self.books@ == self@.books,
                i <= self.books@.len(),
                book_with(self@.books, order_id.0, 0) == book_with(
                    self@.books,
                    order_id.0,
                    i as int,
                ),
            decreases self.books@.len() - i,
        {
            assert(book_wf(self@.books[i as int].1));
            if self.books.at(i).contains(order_id) {
                return Some(i);
            }
            i += 1;
        }
        None
    }

    /// Take an order off the `i`-th book. Returns where it stood.
    pub(super) fn cancel_on_book(&mut self, i: usize, order_id: OrderId) -> (r: (Side, Decimal, ContractKey))
        requires
            old(self).wf(),
            i < old(self)@.books.len(),
            rests(old(self)@.books[i as int].1, order_id.0),
        ensures
            final(self).wf(),
            final(self)@ == (WorldV {
                books: books_without(old(self)@.books, i as int, order_id.0),
                ..old(self)@
            }),
            r.0 == side_of(old(self)@.books[i as int].1, order_id.0),
            r.1@ == entry_of(old(self)@.books[i as int].1, order_id.0).price,
            r.2@ == old(self)@.books[i as int].0,
    {
        proof {
            lemma_without_wf(self@.books, i as int, order_id.0);
            assert(book_wf(self@.books[i as int].1));
        }
        let key = self.books.key_at(i).clone();
        let book = self.books.at_mut(i);
        match book.cancel_with_meta(order_id) {
            Some((side, price)) => (side, price, key),
            None => (Side::Unspecified, Decimal::zero(), key),
        }
    }

    /// Run the continuous matcher for `key` against `incoming` with the
    /// default Resting mode.
    pub fn match_limit_in(&mut self, key: ContractKey, incoming: IncomingLimit) -> (r:
        LimitMatchOutcome)
        requires
            old(self).wf(),
            exists|g: nat|
                matchable(
                    incoming.side,
                    incoming.price@,
                    opposite(old(self)@.books, key@, incoming.side),
                    incoming.quantity@,
                    g,
                ),
        ensures
            final(self).wf(),
            ({
                let m = matched(
                    book_at(old(self)@.books, key@),
                    incoming.id.0,
                    incoming.side,
                    incoming.price@,
                    incoming.quantity@,
                    ExecMode::Resting,
                );
                &&& final(self)@ == (WorldV {
                    books: stored(old(self)@.books, key@, m.book),
                    ..old(self)@
                })
                &&& fills_view(r.fills@) == m.fills
                &&& match r.rested {
                    Some(e) => e.id == incoming.id && m.rested == Some(e.open_qty@),
                    None => m.rested is None,
                }
            }),
    {
        self.match_limit_in_with_mode(key, incoming, ExecMode::Resting)
    }

    /// Variant of [`World::match_limit_in`] that lets the caller pick the
    /// execution mode.
    pub fn match_limit_in_with_mode(
        &mut self,
        key: ContractKey,
        incoming: IncomingLimit,
        mode: ExecMode,
    ) -> (r: LimitMatchOutcome)
        requires
            old(self).wf(),
            exists|g: nat|
                matchable(
                    incoming.side,
                    incoming.price@,
                    opposite(old(self)@.books, key@, incoming.side),
                    incoming.quantity@,
                    g,
                ),
        ensures
            final(self).wf(),
            ({
                let m = matched(
                    book_at(old(self)@.books, key@),
                    incoming.id.0,
                    incoming.side,
                    incoming.price@,
                    incoming.quantity@,
                    mode,
                );
                &&& final(self)@ == (WorldV {
                    books: stored(old(self)@.books, key@, m.book),
                    ..old(self)@
                })
                &&& fills_view(r.fills@) == m.fills
                &&& match r.rested {
                    Some(e) => e.id == incoming.id && m.rested == Some(e.open_qty@),
                    None => m.rested is None,
                }
            }),
    {
        let ghost w0 = self@;
        let ghost k = key@;
        let book = self.book_mut(key);
        let r = match_limit(book, incoming, mode);
        proof {
            let m = matched(
                book_at(w0.books, k),
                incoming.id.0,
                incoming.side,
                incoming.price@,
                incoming.quantity@,
                mode,
            );
            lemma_stored_books_wf(w0.books, k, m.book);
        }
        r
    }

    /// Remove a resting counterparty order from the book. Returns true if
    /// the id was on a book.
    pub fn cancel_counterparty_order(&mut self, order_id: OrderId, now: Timestamp) -> (r: bool)
        requires
            old(self).wf(),
        ensures
            final(self).wf(),
            owners_known(old(self)@) ==> owners_known(final(self)@),
            r == (book_with(old(self)@.books, order_id.0, 0) is Some),
            final(self)@ == counterparty_canceled(old(self)@, order_id.0, now),
    {
        match self.find_resting(order_id) {
            Some(i) => {
                let (side, price, key) = self.cancel_on_book(i, order_id);
                let _ = self.unbind_resting_order(order_id);
                self.emit_book_event(
                    order_id,
                    side,
                    &key,
                    price,
                    Decimal::zero(),
                    Currency::Eur,
                    now,
                );
                true
            },
            None => {
                let _ = self.unbind_resting_order(order_id);
                false
            },
        }
    }

    /// Cancel a non-terminal order. Returns the cancelled detail.
    pub fn cancel_order(&mut self, gridpool_id: GridpoolId, order_id: OrderId, now: Timestamp) -> (r:
        Result<OrderDetail, SubmitError>)
        requires
            old(self).wf(),
            owners_known(old(self)@),
        ensures
            final(self).wf(),
            owners_known(final(self)@),
            match cancel_objection(old(self)@, gridpool_id.0, order_id.0) {
                Some(e) => r == Err::<OrderDetail, SubmitError>(e) && final(self)@ == old(self)@,
                None => {
                    &&& final(self)@ == order_canceled(
                        old(self)@,
                        gridpool_id.0,
                        order_id.0,
                        MarketActor::User,
                        now,
                    )
                    &&& r matches Ok(d) && d@ == detail_canceled(
                        detail_at(old(self)@, gridpool_id.0, order_id.0),
                        MarketActor::User,
                        now,
                    )
                },
            },
    {
        self.cancel_order_with_actor(gridpool_id, order_id, now, MarketActor::User)
    }

    /// The gridpool an order belongs to: the one it is bound to, else the
    /// first that has it.
    pub(super) fn gridpool_of(&self, order_id: OrderId) -> (r: Option<GridpoolId>)
        requires
            self.wf(),
        ensures
            pool_number(r) == pool_of(self@, order_id.0),
    {
        match self.owner_of(order_id) {
            Some(pool) => {
                return Some(pool);
            },
            None => {},
        }
        let mut i: usize = 0;
        while i < self.gridpools.len()
            invariant
                self.wf(),
                self.gridpools@ == self@.gridpools,
                i <= self.gridpools@.len(),
                pool_with(self@.gridpools, order_id.0, 0) == pool_with(
                    self@.gridpools,
                    order_id.0,
                    i as int,
                ),
                pool_of(self@, order_id.0) == pool_with(self@.gridpools, order_id.0, 0),
            decreases self.gridpools@.len() - i,
        {
            let pool = self.gridpools.at(i);
            assert(pool_wf(self@.gridpools[i as int].1));
            if pool.get_order(order_id).is_some() {
                return Some(pool.number());
            }
            i += 1;
        }
        None
    }

    /// Force-cancel by id without needing to know the gridpool, with the
    /// system as the actor. `OrderNotFound` when the id isn't owned by any
    /// gridpool.
    pub fn recall_order(&mut self, order_id: OrderId, now: Timestamp) -> (r: Result<
        OrderDetail,
        SubmitError,
    >)
        requires
            old(self).wf(),
            owners_known(old(self)@),
        ensures
            final(self).wf(),
            owners_known(final(self)@),
            match pool_of(old(self)@, order_id.0) {
                None => r == Err::<OrderDetail, SubmitError>(SubmitError::OrderNotFound)
                    && final(self)@ == old(self)@,
                Some(pool) => match cancel_objection(old(self)@, pool, order_id.0) {
                    Some(e) => r == Err::<OrderDetail, SubmitError>(e) && final(self)@
                        == old(self)@,
                    None => {
                        &&& final(self)@ == order_canceled(
                            old(self)@,
                            pool,
                            order_id.0,
                            MarketActor::System,
                            now,
                        )
                        &&& r matches Ok(d) && d@ == detail_canceled(
                            detail_at(old(self)@, pool, order_id.0),
                            MarketActor::System,
                            now,
                        )
                    },
                },
            },
    {
        match self.gridpool_of(order_id) {
            Some(pool) => self.cancel_order_with_actor(pool, order_id, now, MarketActor::System),
            None => Err(SubmitError::OrderNotFound),
        }
    }

    /// Cancel a non-terminal order on behalf of `actor`.
    pub(super) fn cancel_order_with_actor(
        &mut self,
        gridpool_id: GridpoolId,
        order_id: OrderId,
        now: Timestamp,
        actor: MarketActor,
    ) -> (r: Result<OrderDetail, SubmitError>)
        requires
            old(self).wf(),
            owners_known(old(self)@),
        ensures
            final(self).wf(),
            owners_known(final(self)@),
            match cancel_objection(old(self)@, gridpool_id.0, order_id.0) {
                Some(e) => r == Err::<OrderDetail, SubmitError>(e) && final(self)@ == old(self)@,
                None => {
                    &&& final(self)@ == order_canceled(
                        old(self)@,
                        gridpool_id.0,
                        order_id.0,
                        actor,
                        now,
                    )
                    &&& r matches Ok(d) && d@ == detail_canceled(
                        detail_at(old(self)@, gridpool_id.0, order_id.0),
                        actor,
                        now,
                    )
                },
            },
    {
        let ghost w0 = self@;
        if self.gridpools.get(gridpool_id).is_none() {
            return Err(SubmitError::UnknownGridpool);
        }
        let before = match self.detail(gridpool_id, order_id) {
            Some(d) => d,
            None => {
                return Err(SubmitError::OrderNotFound);
            },
        };
        if before.state.state.is_terminal() {
            return Err(SubmitError::OrderAlreadyTerminal);
        }
        let bound = match self.owner_of(order_id) {
            Some(pool) => pool.0 == gridpool_id.0,
            None => false,
        };
        let mut left_book: Option<(Side, Decimal, ContractKey)> = None;
        if bound {
            let at = self.find_resting(order_id);
            let _ = self.unbind_resting_order(order_id);
            match at {
                Some(i) => {
                    left_book = Some(self.cancel_on_book(i, order_id));
                },
                None => {},
            }
        }
        let currency = before.order.currency;
        let after = OrderDetail {
            state: StateDetail {
                state: OrderState::Canceled,
                reason: StateReason::Delete,
                actor,
            },
            modification_time: now,
            id: before.id,
            order: before.order,
            open_quantity: before.open_quantity,
            filled_quantity: before.filled_quantity,
            create_time: before.create_time,
        };
        proof {
            lemma_put(self@, gridpool_id.0, after@);
        }
        self.put_detail(gridpool_id, after.clone());
        self.publish_order_update(gridpool_id, after.clone());
        match left_book {
            Some((side, price, key)) => {
                self.emit_book_event(
                    order_id,
                    side,
                    &key,
                    price,
                    Decimal::zero(),
                    currency,
                    now,
                );
            },
            None => {},
        }
        Ok(after)
    }
}

} // verus!
