//! Modifying orders.

use crate::book::{
    amount_fits, book_wf, canceled, lemma_canceled_wf, lemma_resized_wf, lemma_sum_fits, resized,
    rests, BookV, EntryV,
};
use crate::decimal::{is_multiple_of, lemma_grid_closed, on_grid, representable, Decimal};
use crate::gridpool::SelfTradePolicy;
use crate::ledger::{
    lemma_book_at_wf, lemma_detail_id, lemma_fill_recorded, lemma_maker_fits, lemma_put,
    lemma_stored_books_wf, lemma_traced_keeps, recordable,
};
use crate::market::Currency;
use crate::matching::{
    filled, fills_view, lemma_matched_fits, matchable, matched, ExecMode, Fill, FillV,
    IncomingLimit,
};
use crate::model::{
    book_at, bound_to, cancel_objection, detail_at, detail_put, detail_updated, fill_recorded,
    fills_recorded, fills_traced, keeps_priority, key_of, modified, modify_objection,
    modify_rejection, on_pool, opposite, owners_known, rematched, rests_at_home, set_or, stays_put,
    swept, takes_from_pool, update_applied, updated_in_place, updated_total, KeyV, SubmitError,
    Taker, UpdateV, WorldV,
};
use crate::order::{
    GridpoolId, MarketActor, OrderDetail, OrderId, OrderState, Side, StateDetail, StateReason,
};
use crate::table::{holds, lemma_slot, lemma_stored, slot, stored, value_at, views};
use crate::time::Timestamp;
use crate::volume::{
    carries, entry_fits, far_fits, in_reach, lemma_far_queue, lemma_far_queue_counted,
    lemma_filled_prefix, lemma_left_reach, lemma_reach_far, maker_fits, quantities_fit,
    rematch_carried, volume_fits,
};
use crate::world::record::fill_detail;
use crate::world::{ContractKey, OrderUpdate, World};
use vstd::prelude::*;

verus! {

/// An order with an update applied.
pub(super) fn update_detail(
    d: OrderDetail,
    upd: OrderUpdate,
    price: Decimal,
    total: Decimal,
    open: Decimal,
    now: Timestamp,
) -> (r: OrderDetail)
    requires
        price@ == set_or(upd@.price, d@.order.price),
        total@ == updated_total(d@, upd@),
        open@ == total@ - d@.filled_quantity,
    ensures
        r@ == detail_updated(d@, upd@, now),
{
    let mut order = d.order;
    order.price = price;
    order.quantity = total;
    if upd.valid_until.is_some() {
        order.valid_until = upd.valid_until;
    }
    if upd.tag.is_some() {
        order.tag = upd.tag;
    }
    let state = if open.is_zero() {
        OrderState::Filled
    } else {
        OrderState::Active
    };
    OrderDetail {
        id: d.id,
        order,
        state: StateDetail { state, reason: StateReason::Modify, actor: MarketActor::User },
        open_quantity: open,
        filled_quantity: d.filled_quantity,
        create_time: d.create_time,
        modification_time: now,
    }
}

/// Who takes does not matter to the traces, but for the side, the currency
/// and the contract.
proof fn lemma_traced_alike(
    w: WorldV,
    a: Taker,
    b: Taker,
    fills: Seq<FillV>,
    book: BookV,
    now: Timestamp,
)
    requires
        a.side == b.side,
        a.currency == b.currency,
        a.key == b.key,
    ensures
        fills_traced(w, a, fills, book, now) == fills_traced(w, b, fills, book, now),
    decreases fills.len(),
{
    if fills.len() > 0 {
        lemma_traced_alike(w, a, b, fills.drop_last(), book, now);
    }
}

impl World {
    /// Put the makers' orders of a run of fills on one contract onto the public
    /// book stream, each with what is left of it on the book.
    pub(super) fn trace_fills(
        &mut self,
        fills: &Vec<Fill>,
        key: &ContractKey,
        side: Side,
        currency: Currency,
        now: Timestamp,
    )
        requires
            old(self).wf(),
        ensures
            final(self).wf(),
            forall|tk: Taker|
                tk.side == side && tk.currency == currency && tk.key == key@ ==> final(self)@
                    == #[trigger] fills_traced(
                    old(self)@,
                    tk,
                    fills_view(fills@),
                    book_at(old(self)@.books, key@),
                    now,
                ),
    {
        let ghost w0 = self@;
        let ghost all = fills_view(fills@);
        let ghost b = book_at(w0.books, key@);
        let ghost tk0 = Taker { id: 0, side, currency, key: key@ };
        let mut i: usize = 0;
        assert(all.take(0) =~= Seq::<FillV>::empty());
        while i < fills.len()
            invariant
                self.wf(),
                i <= fills@.len(),
                all == fills_view(fills@),
                b == book_at(w0.books, key@),
                tk0 == (Taker { id: 0, side, currency, key: key@ }),
                self@.books == w0.books,
                self@ == fills_traced(w0, tk0, all.take(i as int), b, now),
            decreases fills@.len() - i,
        {
            let f = &fills[i];
            proof {
                assert(all.take(i + 1).drop_last() =~= all.take(i as int));
                assert(all[i as int] == fills@[i as int]@);
                lemma_book_at_wf(self@.books, key@);
            }
            let open = match self.book(key) {
                Some(book) => book.open_of(f.maker_id),
                None => Decimal::zero(),
            };
            self.emit_book_event(
                f.maker_id,
                side.opposite(),
                key,
                f.price,
                open,
                currency,
                now,
            );
            i += 1;
        }
        proof {
            assert(all.take(i as int) =~= all);
            assert forall|tk: Taker|
                tk.side == side && tk.currency == currency && tk.key == key@ implies self@
                == #[trigger] fills_traced(w0, tk, all, b, now) by {
                lemma_traced_alike(w0, tk0, tk, all, b, now);
            }
        }
    }

    /// Match a modified order on its own contract's book, trace and record its
    /// fills, update it, and bind it again if it rests.
    pub(super) fn rematch(&mut self, gridpool_id: GridpoolId, order_id: OrderId, now: Timestamp)
        requires
            old(self).wf(),
            owners_known(old(self)@),
            on_pool(old(self)@, gridpool_id.0, order_id.0),
            !bound_to(old(self)@, order_id.0, gridpool_id.0),
            ({
                let w = old(self)@;
                let d = detail_at(w, gridpool_id.0, order_id.0);
                let far = opposite(w.books, key_of(d.order), d.order.side);
                d.open_quantity > 0 ==> {
                    &&& w.next_trade_id + far.len() <= u64::MAX
                    &&& carries(
                        w,
                        key_of(d.order),
                        seq![key_of(d.order)],
                        d.order.side,
                        d.order.price,
                        d.filled_quantity,
                        d.open_quantity,
                    )
                }
            }),
        ensures
            final(self).wf(),
            owners_known(final(self)@),
            on_pool(final(self)@, gridpool_id.0, order_id.0),
            final(self)@ == rematched(old(self)@, gridpool_id.0, order_id.0, now),
    {
        let ghost w0 = self@;
        let ghost pool = gridpool_id.0;
        let ghost id = order_id.0;
        let d = match self.detail(gridpool_id, order_id) {
            Some(d) => d,
            None => {
                return;
            },
        };
        let open = d.open_quantity;
        if !Decimal::zero().less(open) {
            return;
        }
        let key = ContractKey { area: d.order.area.clone(), period: d.order.period };
        let ghost far = opposite(w0.books, key@, d@.order.side);
        let ghost side = d@.order.side;
        let ghost limit = d@.order.price;
        let ghost g = choose|g: nat|
            volume_fits(
                w0,
                key@,
                seq![key@],
                side,
                limit,
                d@.filled_quantity,
                d@.open_quantity,
                g,
            );
        let home = key.clone();
        let incoming = IncomingLimit {
            id: order_id,
            side: d.order.side,
            price: d.order.price,
            quantity: open,
        };
        proof {
            lemma_reach_far(w0, key@, seq![key@], side, limit, open@, g);
            lemma_far_queue(w0.books, seq![key@], 0, side, limit, g);
            assert(matchable(
                incoming.side,
                incoming.price@,
                opposite(self@.books, home@, incoming.side),
                incoming.quantity@,
                g,
            ));
        }
        let outcome = self.match_limit_in(home, incoming);
        let ghost tk = Taker {
            id,
            side: d@.order.side,
            currency: d@.order.currency,
            key: key@,
        };
        let ghost w1 = self@;
        let ghost m = matched(
            book_at(w0.books, key@),
            id,
            d@.order.side,
            d@.order.price,
            open@,
            ExecMode::Resting,
        );
        let ghost fills = m.fills;
        self.trace_fills(&outcome.fills, &key, d.order.side, d.order.currency, now);
        let ghost w2 = self@;
        proof {
            lemma_stored(w0.books, key@, m.book);
            lemma_traced_keeps(w1, tk, fills, m.book, now);
            assert(book_at(w1.books, key@) == m.book);
            assert(w2 == fills_traced(w1, tk, fills, m.book, now));
            assert(w2.gridpools == w0.gridpools && w2.owners == w0.owners);
            assert(on_pool(w2, pool, id) == on_pool(w0, pool, id));
            lemma_matched_fits(
                book_at(w0.books, key@),
                id,
                d@.order.side,
                d@.order.price,
                open@,
                g,
            );
            assert(fills.take(0) =~= Seq::<FillV>::empty());
            assert forall|j: int| 0 <= j < fills.len() implies maker_fits(
                w2,
                (#[trigger] fills[j]).maker_id,
                open@,
                g,
            ) by {
                let m_id = fills[j].maker_id;
                assert(far.contains(far[j]));
                assert(in_reach(w0.books, seq![key@], side, limit, key@, far[j])) by {
                    assert(seq![key@][0] == key@);
                }
                assert(entry_fits(w0, key@, key@, far[j], open@, g));
                assert(on_pool(w2, w2.owners[m_id], m_id) == on_pool(w0, w0.owners[m_id], m_id));
                assert(detail_at(w2, w2.owners[m_id], m_id) == detail_at(
                    w0,
                    w0.owners[m_id],
                    m_id,
                ));
            }
        }
        let mut i: usize = 0;
        while i < outcome.fills.len()
            invariant
                i <= outcome.fills@.len(),
                fills == fills_view(outcome.fills@),
                pool == gridpool_id.0,
                id == order_id.0,
                tk == (Taker {
                    id,
                    side: d@.order.side,
                    currency: d@.order.currency,
                    key: key@,
                }),
                amount_fits(open@, g),
                quantities_fit(fills, g),
                filled(fills) <= open@,
                self@ == fills_recorded(w2, tk, Some(pool), fills.take(i as int), now),
                recordable(self@, Some(pool), open@ - filled(fills.take(i as int)), g),
                forall|j: int|
                    0 <= j < fills.len() ==> maker_fits(
                        self@,
                        (#[trigger] fills[j]).maker_id,
                        open@ - filled(fills.take(i as int)),
                        g,
                    ),
                !bound_to(self@, id, pool),
                self@.next_trade_id + (fills.len() - i) <= u64::MAX,
                on_pool(self@, pool, id),
                detail_at(self@, pool, id) == d@,
            decreases outcome.fills@.len() - i,
        {
            let ghost w = self@;
            let ghost room = open@ - filled(fills.take(i as int));
            let ghost f = fills[i as int];
            proof {
                lemma_filled_prefix(fills, i as int, g);
                lemma_filled_prefix(fills, i + 1, g);
                assert(f == outcome.fills@[i as int]@);
                assert(on_grid(fills[i as int].quantity, g));
                assert(fills.take(i + 1).drop_last() =~= fills.take(i as int));
                assert(maker_fits(w, fills[i as int].maker_id, room, g));
                lemma_fill_recorded(w, f, key@.area, tk, Some(pool), now, room, g);
                lemma_maker_fits(w, f, room, g);
                let next = fill_recorded(w, f, key@.area, tk, Some(pool), now);
                assert forall|j: int| 0 <= j < fills.len() implies maker_fits(
                    next,
                    (#[trigger] fills[j]).maker_id,
                    room - f.quantity,
                    g,
                ) by {
                    assert(maker_fits(w, fills[j].maker_id, room, g));
                }
            }
            self.record_fill(
                &outcome.fills[i],
                order_id,
                d.order.side,
                d.order.currency,
                Some(gridpool_id),
                &key,
                &key.area,
                now,
            );
            i += 1;
        }
        proof {
            assert(fills.take(i as int) =~= fills);
            lemma_filled_prefix(fills, i as int, g);
        }
        let total = World::total_filled(&outcome.fills);
        if Decimal::zero().less(total) {
            proof {
                lemma_grid_closed(open@, total@, g);
                lemma_grid_closed(d@.filled_quantity, total@, g);
                lemma_sum_fits(open@ - total@, g);
                assert(crate::decimal::fits(d@.filled_quantity + total@, g));
                lemma_detail_id(self@, pool, id);
            }
            let after = fill_detail(d, total, now);
            proof {
                lemma_put(self@, pool, after@);
            }
            self.put_detail(gridpool_id, after);
        }
        if outcome.rested.is_some() {
            self.bind_resting_order(order_id, gridpool_id);
        }
    }

    /// Hold an update against the rules. Returns the order as it is, the new
    /// price, the quantity so far and the new quantity.
    pub(super) fn check_update(
        &self,
        gridpool_id: GridpoolId,
        order_id: OrderId,
        upd: &OrderUpdate,
        now: Timestamp,
    ) -> (r: Result<(OrderDetail, Decimal, Decimal, Decimal), SubmitError>)
        requires
            self.wf(),
            cancel_objection(self@, gridpool_id.0, order_id.0) is None ==> representable(
                detail_at(self@, gridpool_id.0, order_id.0).filled_quantity + detail_at(
                    self@,
                    gridpool_id.0,
                    order_id.0,
                ).open_quantity,
            ),
        ensures
            match r {
                Err(e) => modify_objection(self@, gridpool_id.0, order_id.0, upd@, now) == Some(e),
                Ok((d, price, prior, total)) => {
                    &&& modify_objection(self@, gridpool_id.0, order_id.0, upd@, now) is None
                    &&& d@ == detail_at(self@, gridpool_id.0, order_id.0)
                    &&& price@ == set_or(upd@.price, d@.order.price)
                    &&& prior@ == d@.filled_quantity + d@.open_quantity
                    &&& total@ == updated_total(d@, upd@)
                },
            },
    {
        if self.gridpools.get(gridpool_id).is_none() {
            return Err(SubmitError::UnknownGridpool);
        }
        let before = match self.detail(gridpool_id, order_id) {
            Some(d) => d,
            None => {
                return Err(SubmitError::OrderNotFound);
            },
        };
        if before.state.state.is_terminal() {
            return Err(SubmitError::OrderAlreadyTerminal);
        }
        let rules = match self.markets.get(&before.order.area) {
            Some(rules) => rules,
            None => {
                return Err(SubmitError::UnknownArea);
            },
        };
        proof {
            let i = slot(self@.markets, before@.order.area);
            assert(self@.markets[i].1.price_tick > 0 && self@.markets[i].1.qty_step > 0);
        }
        if before.order.period.start.is_at_or_earlier(&now) {
            return Err(SubmitError::GateClosed);
        }
        if let Some(currency) = upd.currency {
            if currency != before.order.currency {
                return Err(SubmitError::CurrencyMismatch);
            }
        }
        let price = match upd.price {
            Some(p) => p,
            None => before.order.price,
        };
        let prior = before.filled_quantity.plus(before.open_quantity);
        let total = match upd.quantity {
            Some(q) => q,
            None => prior,
        };
        if !is_multiple_of(price, rules.price_tick) {
            return Err(SubmitError::PriceOffGrid);
        }
        if !Decimal::zero().less(total) {
            return Err(SubmitError::NonPositiveQuantity);
        }
        if !is_multiple_of(total, rules.qty_step) {
            return Err(SubmitError::QuantityOffGrid);
        }
        if total.less(before.filled_quantity) {
            return Err(SubmitError::ModifyQuantityBelowFilled);
        }
        Ok((before, price, prior, total))
    }

    /// Where the book of a contract stands, if the order rests on it and is
    /// bound to the gridpool.
    pub(super) fn home_of(&self, gridpool_id: GridpoolId, order_id: OrderId, key: &ContractKey) -> (r: Option<
        usize,
    >)
        requires
            self.wf(),
        ensures
            match r {
                Some(i) => {
                    &&& rests_at_home(self@, gridpool_id.0, order_id.0, key@)
                    &&& i < self@.books.len()
                    &&& slot(self@.books, key@) == i
                    &&& self@.books[i as int].0 == key@
                },
                None => !rests_at_home(self@, gridpool_id.0, order_id.0, key@),
            },
    {
        let bound = match self.owner_of(order_id) {
            Some(p) => p.0 == gridpool_id.0,
            None => false,
        };
        if !bound {
            return None;
        }
        match self.books.find(key) {
            Some(i) => {
                assert(book_wf(self@.books[i as int].1));
                if self.books.at(i).contains(order_id) {
                    Some(i)
                } else {
                    None
                }
            },
            None => None,
        }
    }

    /// Where the book stands on which the update leaves the order in its
    /// place, if it does.
    pub(super) fn place_kept(
        &self,
        gridpool_id: GridpoolId,
        order_id: OrderId,
        key: &ContractKey,
        upd: &OrderUpdate,
        prior: Decimal,
    ) -> (r: Option<usize>)
        requires
            self.wf(),
            ({
                let d = detail_at(self@, gridpool_id.0, order_id.0);
                &&& key@ == key_of(d.order)
                &&& prior@ == d.filled_quantity + d.open_quantity
            }),
        ensures
            match r {
                Some(i) => {
                    &&& stays_put(self@, gridpool_id.0, order_id.0, upd@)
                    &&& rests_at_home(self@, gridpool_id.0, order_id.0, key@)
                    &&& i < self@.books.len()
                    &&& slot(self@.books, key@) == i
                    &&& self@.books[i as int].0 == key@
                },
                None => !stays_put(self@, gridpool_id.0, order_id.0, upd@),
            },
    {
        let smaller = match upd.quantity {
            Some(q) => q.less(prior),
            None => upd.tag.is_some(),
        };
        let keeps = smaller && upd.price.is_none() && upd.valid_until.is_none();
        assert(keeps == keeps_priority(detail_at(self@, gridpool_id.0, order_id.0), upd@));
        if keeps {
            self.home_of(gridpool_id, order_id, key)
        } else {
            None
        }
    }

    /// Rewrite an order in its place on the `i`-th book.
    pub(super) fn update_in_place(
        &mut self,
        gridpool_id: GridpoolId,
        order_id: OrderId,
        i: usize,
        after: OrderDetail,
    )
        requires
            old(self).wf(),
            owners_known(old(self)@),
            i < old(self)@.books.len(),
            rests(old(self)@.books[i as int].1, order_id.0),
            holds(old(self)@.gridpools, gridpool_id.0),
            after@.id == order_id.0,
        ensures
            final(self).wf(),
            owners_known(final(self)@),
            on_pool(final(self)@, gridpool_id.0, order_id.0),
            final(self)@ == detail_put(
                (WorldV {
                    books: old(self)@.books.update(
                        i as int,
                        (
                            old(self)@.books[i as int].0,
                            resized(
                                old(self)@.books[i as int].1,
                                order_id.0,
                                after@.open_quantity,
                            ),
                        ),
                    ),
                    owners: if after@.open_quantity == 0 {
                        old(self)@.owners.remove(order_id.0)
                    } else {
                        old(self)@.owners
                    },
                    ..old(self)@
                }),
                gridpool_id.0,
                after@,
            ),
    {
        let ghost books = self@.books;
        proof {
            assert(book_wf(books[i as int].1));
            lemma_resized_wf(books[i as int].1, order_id.0, after@.open_quantity);
            lemma_slot(books, books[i as int].0, i as int);
            lemma_stored_books_wf(
                books,
                books[i as int].0,
                resized(books[i as int].1, order_id.0, after@.open_quantity),
            );
        }
        let book = self.books.at_mut(i);
        let _ = book.resize(order_id, after.open_quantity);
        if after.open_quantity.is_zero() {
            let _ = self.unbind_resting_order(order_id);
        }
        proof {
            lemma_put(self@, gridpool_id.0, after@);
        }
        self.put_detail(gridpool_id, after);
    }

    /// Take an order that is bound to the gridpool off its contract's book.
    pub(super) fn take_off_book(&mut self, gridpool_id: GridpoolId, order_id: OrderId, key: &ContractKey)
        requires
            old(self).wf(),
            owners_known(old(self)@),
        ensures
            final(self).wf(),
            owners_known(final(self)@),
            !bound_to(final(self)@, order_id.0, gridpool_id.0),
            final(self)@ == if bound_to(old(self)@, order_id.0, gridpool_id.0) {
                (WorldV {
                    owners: old(self)@.owners.remove(order_id.0),
                    books: if holds(old(self)@.books, key@) {
                        stored(
                            old(self)@.books,
                            key@,
                            canceled(value_at(old(self)@.books, key@), order_id.0),
                        )
                    } else {
                        old(self)@.books
                    },
                    ..old(self)@
                })
            } else {
                old(self)@
            },
    {
        let bound = match self.owner_of(order_id) {
            Some(p) => p.0 == gridpool_id.0,
            None => false,
        };
        if !bound {
            return;
        }
        let _ = self.unbind_resting_order(order_id);
        match self.books.find(key) {
            Some(i) => {
                let ghost b = self@.books[i as int].1;
                proof {
                    assert(book_wf(self@.books[i as int].1));
                    lemma_canceled_wf(b, order_id.0);
                    lemma_stored_books_wf(self@.books, key@, canceled(b, order_id.0));
                }
                let book = self.books.at_mut(i);
                let _ = book.cancel(order_id);
            },
            None => {},
        }
    }

    /// Take an order off its book, rewrite it, and match it again.
    pub(super) fn update_and_rematch(
        &mut self,
        gridpool_id: GridpoolId,
        order_id: OrderId,
        key: &ContractKey,
        after: OrderDetail,
        now: Timestamp,
        Ghost(u): Ghost<UpdateV>,
    )
        requires
            old(self).wf(),
            owners_known(old(self)@),
            on_pool(old(self)@, gridpool_id.0, order_id.0),
            key@ == key_of(detail_at(old(self)@, gridpool_id.0, order_id.0).order),
            after@ == detail_updated(
                detail_at(old(self)@, gridpool_id.0, order_id.0),
                u,
                now,
            ),
            rematch_carried(
                old(self)@,
                gridpool_id.0,
                order_id.0,
                after@.order.price,
                after@.open_quantity,
            ),
        ensures
            final(self).wf(),
            owners_known(final(self)@),
            on_pool(final(self)@, gridpool_id.0, order_id.0),
            final(self)@ == rematched(
                update_applied(old(self)@, gridpool_id.0, order_id.0, u, now),
                gridpool_id.0,
                order_id.0,
                now,
            ),
    {
        let ghost w0 = self@;
        let ghost pool = gridpool_id.0;
        let ghost id = order_id.0;
        let ghost open = after@.open_quantity;
        let ghost side = after@.order.side;
        let ghost limit = after@.order.price;
        let ghost filled = after@.filled_quantity;
        proof {
            lemma_detail_id(w0, pool, id);
        }
        self.take_off_book(gridpool_id, order_id, key);
        let ghost off = self@;
        proof {
            lemma_put(off, pool, after@);
        }
        self.put_detail(gridpool_id, after);
        proof {
            assert(self@ == update_applied(w0, pool, id, u, now));
            if open > 0 {
                let g = choose|g: nat|
                    volume_fits(w0, key@, seq![key@], side, limit, filled, open, g);
                lemma_far_queue_counted(w0.books, off.books, key@, id, side);
                let w1 = self@;
                assert forall|k: KeyV, e: EntryV| #[trigger]
                    in_reach(w1.books, seq![key@], side, limit, k, e) implies entry_fits(
                    w1,
                    key@,
                    k,
                    e,
                    open,
                    g,
                ) by {
                    lemma_left_reach(w0.books, w1.books, key@, id, side, limit, k, e);
                    assert(entry_fits(w0, key@, k, e, open, g));
                    assert(k == key@);
                    if w1.owners.contains_key(e.id) && on_pool(w1, w1.owners[e.id], e.id) {
                        let p = w0.owners[e.id];
                        assert(p == w1.owners[e.id] && (p != pool || e.id != id));
                        assert(on_pool(off, p, e.id) == on_pool(w0, p, e.id));
                        assert(detail_at(off, p, e.id) == detail_at(w0, p, e.id));
                    }
                }
                assert(volume_fits(w1, key@, seq![key@], side, limit, filled, open, g));
            }
        }
        self.rematch(gridpool_id, order_id, now);
    }

    /// Whether the gridpool does not allow it to trade with itself, and an order
    /// matched on its own contract's book would.
    pub(super) fn matches_own(
        &self,
        gridpool_id: GridpoolId,
        key: &ContractKey,
        side: Side,
        price: Decimal,
        quantity: Decimal,
    ) -> (r: bool)
        requires
            self.wf(),
            holds(self@.gridpools, gridpool_id.0),
            quantity@ > 0 ==> exists|g: nat|
                amount_fits(quantity@, g) && far_fits(
                    self@.books,
                    seq![key@],
                    side,
                    price@,
                    g,
                ),
        ensures
            r == (value_at(self@.gridpools, gridpool_id.0).self_trade_policy
                == SelfTradePolicy::Reject && takes_from_pool(
                self@,
                swept(self@.books, seq![key@], side, price@, quantity@).takes,
                gridpool_id.0,
            )),
    {
        let rejects = match self.gridpools.get(gridpool_id) {
            Some(pool) => pool.self_trade_policy() == SelfTradePolicy::Reject,
            None => false,
        };
        if !rejects || !Decimal::zero().less(quantity) {
            return false;
        }
        let mut keys: Vec<ContractKey> = Vec::new();
        keys.push(key.clone());
        assert(views(keys@) =~= seq![key@]);
        self.would_take_own(&keys, side, price, quantity, gridpool_id)
    }

    /// Modify a resting order's price / quantity / valid_until / tag.
    /// Updates that name less quantity or only a tag preserve time priority;
    /// everything else takes the order off its book and matches it again under
    /// its new terms. Rejected past gate closure, where the new price is in
    /// another currency, and where it would fill the order against its own
    /// gridpool that does not allow it; a rejected update changes nothing.
    pub fn modify_order(
        &mut self,
        gridpool_id: GridpoolId,
        order_id: OrderId,
        upd: OrderUpdate,
        now: Timestamp,
    ) -> (r: Result<OrderDetail, SubmitError>)
        requires
            old(self).wf(),
            owners_known(old(self)@),
            cancel_objection(old(self)@, gridpool_id.0, order_id.0) is None ==> representable(
                detail_at(old(self)@, gridpool_id.0, order_id.0).filled_quantity + detail_at(
                    old(self)@,
                    gridpool_id.0,
                    order_id.0,
                ).open_quantity,
            ),
            modify_objection(old(self)@, gridpool_id.0, order_id.0, upd@, now) is None ==> ({
                let w = old(self)@;
                let d = detail_at(w, gridpool_id.0, order_id.0);
                let open = updated_total(d, upd@) - d.filled_quantity;
                &&& representable(open)
                &&& stays_put(w, gridpool_id.0, order_id.0, upd@) || rematch_carried(
                    w,
                    gridpool_id.0,
                    order_id.0,
                    set_or(upd@.price, d.order.price),
                    open,
                )
            }),
        ensures
            final(self).wf(),
            owners_known(final(self)@),
            match modify_rejection(old(self)@, gridpool_id.0, order_id.0, upd@, now) {
                Some(e) => r == Err::<OrderDetail, SubmitError>(e) && final(self)@ == old(self)@,
                None => {
                    &&& final(self)@ == modified(
                        old(self)@,
                        gridpool_id.0,
                        order_id.0,
                        upd@,
                        now,
                    )
                    &&& r matches Ok(d) && d@ == detail_at(
                        final(self)@,
                        gridpool_id.0,
                        order_id.0,
                    )
                },
            },
    {
        let ghost w0 = self@;
        let ghost pool = gridpool_id.0;
        let ghost id = order_id.0;
        let ghost u = upd@;
        let (before, price, prior, total) = match self.check_update(gridpool_id, order_id, &upd, now) {
            Ok(x) => x,
            Err(e) => {
                return Err(e);
            },
        };
        let open = total.minus(before.filled_quantity);
        let key = ContractKey { area: before.order.area.clone(), period: before.order.period };
        let home = self.place_kept(gridpool_id, order_id, &key, &upd, prior);
        let ghost d = before@;
        proof {
            lemma_detail_id(w0, pool, id);
            if home is None && open@ > 0 {
                let side = d.order.side;
                let g = choose|g: nat|
                    volume_fits(
                        w0,
                        key@,
                        seq![key@],
                        side,
                        price@,
                        d.filled_quantity,
                        open@,
                        g,
                    );
                lemma_reach_far(w0, key@, seq![key@], side, price@, open@, g);
                assert(amount_fits(open@, g) && far_fits(
                    w0.books,
                    seq![key@],
                    side,
                    price@,
                    g,
                ));
            }
        }
        if home.is_none() && self.matches_own(gridpool_id, &key, before.order.side, price, open) {
            return Err(SubmitError::SelfTradeRejected);
        }
        let after = update_detail(before, upd, price, total, open, now);
        match home {
            Some(i) => {
                self.update_in_place(gridpool_id, order_id, i, after);
                assert(self@ == updated_in_place(w0, pool, id, u, now));
            },
            None => {
                self.update_and_rematch(gridpool_id, order_id, &key, after, now, Ghost(u));
            },
        }
        match self.detail(gridpool_id, order_id) {
            Some(d) => {
                proof {
                    lemma_detail_id(self@, pool, id);
                }
                let key = ContractKey { area: d.order.area.clone(), period: d.order.period };
                self.emit_book_event(
                    d.id,
                    d.order.side,
                    &key,
                    d.order.price,
                    d.open_quantity,
                    d.order.currency,
                    now,
                );
                self.publish_order_update(gridpool_id, d.clone());
                Ok(d)
            },
            None => Err(SubmitError::OrderNotFound),
        }
    }
}

} // verus!
