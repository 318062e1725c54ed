//! Letting orders expire.

use crate::book::book_wf;
use crate::decimal::Decimal;
use crate::expiring::{
    all_on_pools, lemma_entries_swept, lemma_expiries_on, lemma_one_expired,
    lemma_swept_count_grows, lemma_unowned_same,
};
use crate::market::Currency;
use crate::model::{
    all_expired, books_swept, entries_of, entries_swept, expired, expired_count, expiries, on_pool,
    one_expired, owners_known, pool_expiries, swept_count, unowned, world_wf, Expiry,
};
use crate::order::{
    GridpoolId, MarketActor, OrderDetail, OrderId, OrderState, Side, StateDetail, StateReason,
};
use crate::proto_conv::WireEnum;
use crate::table::lemma_slot;
use crate::time::Timestamp;
use crate::world::{ContractKey, World};
use vstd::prelude::*;

verus! {

/// The list names these orders.
pub open spec fn expiries_match(
    list: Seq<(GridpoolId, OrderId, ContractKey)>,
    expiries: Seq<Expiry>,
) -> bool {
    &&& list.len() == expiries.len()
    &&& forall|i: int|
        0 <= i < list.len() ==> {
            &&& (#[trigger] list[i]).0.0 == expiries[i].pool
            &&& list[i].1.0 == expiries[i].id
            &&& list[i].2@ == expiries[i].key
        }
}

impl World {
    /// The lapsed orders of every gridpool.
    pub(super) fn lapsed_orders(&self, now: Timestamp) -> (r: Vec<(GridpoolId, OrderId, ContractKey)>)
        requires
            self.wf(),
        ensures
            expiries_match(r@, expiries(self@.gridpools, now, self@.gridpools.len())),
    {
        let mut out: Vec<(GridpoolId, OrderId, ContractKey)> = Vec::new();
        let mut i: usize = 0;
        while i < self.gridpools.len()
            invariant
                self.wf(),
                self.gridpools@ == self@.gridpools,
                i <= self.gridpools@.len(),
                expiries_match(out@, expiries(self@.gridpools, now, i as nat)),
            decreases self.gridpools@.len() - i,
        {
            let pool = self.gridpools.at(i);
            let ghost p = self@.gridpools[i as int].1;
            let ghost before = expiries(self@.gridpools, now, i as nat);
            let mut j: usize = 0;
            while j < pool.order_count()
                invariant
                    pool@ == p,
                    j <= p.orders.len(),
                    expiries_match(out@, before + pool_expiries(p, now, j as nat)),
                decreases p.orders.len() - j,
            {
                let d = pool.order_at(j);
                let until_lapsed = match d.order.valid_until {
                    Some(until) => until.is_at_or_earlier(&now),
                    None => false,
                };
                if !d.state.state.is_terminal() && (until_lapsed
                    || d.order.period.start.is_at_or_earlier(&now)) {
                    out.push(
                        (
                            pool.number(),
                            d.id,
                            ContractKey { area: d.order.area.clone(), period: d.order.period },
                        ),
                    );
                }
                j += 1;
            }
            i += 1;
        }
        out
    }

    /// Let one order expire.
    pub(super) fn expire_one(
        &mut self,
        gridpool_id: GridpoolId,
        order_id: OrderId,
        key: &ContractKey,
        now: Timestamp,
    )
        requires
            old(self).wf(),
            on_pool(old(self)@, gridpool_id.0, order_id.0),
        ensures
            final(self).wf(),
            final(self)@ == one_expired(
                old(self)@,
                (Expiry { pool: gridpool_id.0, id: order_id.0, key: key@ }),
                now,
            ),
    {
        let ghost w0 = self@;
        proof {
            lemma_one_expired(
                w0,
                Expiry { pool: gridpool_id.0, id: order_id.0, key: key@ },
                now,
            );
        }
        let before = match self.detail(gridpool_id, order_id) {
            Some(d) => d,
            None => {
                return;
            },
        };
        let bound = match self.owner_of(order_id) {
            Some(pool) => pool.0 == gridpool_id.0,
            None => false,
        };
        let mut left_book: Option<(Side, Decimal)> = None;
        if bound {
            match self.books.find(key) {
                Some(i) => {
                    assert(book_wf(w0.books[i as int].1));
                    let resting = self.books.at(i).contains(order_id);
                    if resting {
                        let (side, price, at) = self.cancel_on_book(i, order_id);
                        left_book = Some((side, price));
                    }
                },
                None => {},
            }
            let _ = self.unbind_resting_order(order_id);
        }
        let currency = before.order.currency;
        let after = OrderDetail {
            state: StateDetail {
                state: OrderState::Expired,
                reason: StateReason::Delete,
                actor: MarketActor::System,
            },
            modification_time: now,
            id: before.id,
            order: before.order,
            open_quantity: before.open_quantity,
            filled_quantity: before.filled_quantity,
            create_time: before.create_time,
        };
        self.put_detail(gridpool_id, after.clone());
        self.publish_order_update(gridpool_id, after);
        match left_book {
            Some((side, price)) => {
                self.emit_book_event(
                    order_id,
                    side,
                    key,
                    price,
                    Decimal::zero(),
                    currency,
                    now,
                );
            },
            None => {},
        }
    }

    /// Take every counterparty order off the `i`-th book.
    pub(super) fn sweep_gated_book(&mut self, i: usize, now: Timestamp) -> (r: usize)
        requires
            old(self).wf(),
            i < old(self)@.books.len(),
        ensures
            final(self).wf(),
            final(self)@ == entries_swept(
                old(self)@,
                old(self)@.books[i as int].0,
                entries_of(old(self)@.books[i as int].1),
                now,
                entries_of(old(self)@.books[i as int].1).len(),
            ),
            r == unowned(
                old(self)@,
                entries_of(old(self)@.books[i as int].1),
                entries_of(old(self)@.books[i as int].1).len(),
            ),
    {
        let ghost w0 = self@;
        let ghost all = entries_of(w0.books[i as int].1);
        let key = self.books.key_at(i).clone();
        let entries = self.books.at(i).iter_with_meta();
        let mut count: usize = 0;
        let mut j: usize = 0;
        while j < entries.len()
            invariant
                world_wf(w0),
                self.wf(),
                i < w0.books.len(),
                key@ == w0.books[i as int].0,
                all == entries_of(w0.books[i as int].1),
                j <= entries@.len(),
                entries@.len() == all.len(),
                forall|k: int|
                    0 <= k < all.len() ==> {
                        &&& (#[trigger] entries@[k]).0.0 == all[k].0.id
                        &&& entries@[k].1 == all[k].1
                        &&& entries@[k].2@ == all[k].0.price
                    },
                self@ == entries_swept(w0, key@, all, now, j as nat),
                count == unowned(w0, all, j as nat),
                count <= j,
            decreases entries@.len() - j,
        {
            proof {
                lemma_entries_swept(w0, i as int, all, now, j as nat);
                lemma_entries_swept(w0, i as int, all, now, (j + 1) as nat);
            }
            let (order_id, side, price) = entries[j];
            if self.owner_of(order_id).is_none() {
                proof {
                    lemma_slot(self@.books, key@, i as int);
                    assert(book_wf(self@.books[i as int].1));
                }
                let book = self.books.at_mut(i);
                let _ = book.cancel(order_id);
                self.emit_book_event(
                    order_id,
                    side,
                    &key,
                    price,
                    Decimal::zero(),
                    Currency::Eur,
                    now,
                );
                count += 1;
            }
            j += 1;
        }
        count
    }

    /// Let every lapsed order expire: its validity is over, or the delivery
    /// gate has closed. Counterparty orders resting on gate-closed contracts
    /// leave their books alongside. Returns the count of orders touched.
    pub fn expire_lapsed_orders(&mut self, now: Timestamp) -> (r: usize)
        requires
            old(self).wf(),
            owners_known(old(self)@),
            expired_count(old(self)@, now) <= usize::MAX,
        ensures
            final(self).wf(),
            owners_known(final(self)@),
            final(self)@ == expired(old(self)@, now),
            r == expired_count(old(self)@, now),
    {
        let ghost w0 = self@;
        let ghost due = expiries(w0.gridpools, now, w0.gridpools.len());
        let list = self.lapsed_orders(now);
        proof {
            lemma_expiries_on(w0, now, w0.gridpools.len());
            assert(due.take(0) =~= Seq::<Expiry>::empty());
        }
        let mut i: usize = 0;
        while i < list.len()
            invariant
                self.wf(),
                owners_known(self@),
                i <= list@.len(),
                expiries_match(list@, due),
                self@ == all_expired(w0, due.take(i as int), now),
                all_on_pools(self@, due),
            decreases list@.len() - i,
        {
            proof {
                assert(due.take(i + 1).drop_last() =~= due.take(i as int));
                assert(on_pool(self@, due[i as int].pool, due[i as int].id));
                lemma_one_expired(self@, due[i as int], now);
            }
            self.expire_one(list[i].0, list[i].1, &list[i].2, now);
            i += 1;
        }
        let ghost w1 = self@;
        assert(due.take(i as int) =~= due);
        let mut count = list.len();
        let mut k: usize = 0;
        while k < self.books.len()
            invariant
                self.wf(),
                owners_known(self@),
                world_wf(w1),
                self.books@ == self@.books,
                self@.books.len() == w1.books.len(),
                k <= w1.books.len(),
                self@ == books_swept(w1, now, k as nat),
                self@.owners == w1.owners,
                forall|j: int| k <= j < w1.books.len() ==> (#[trigger] self@.books[j])
                    == w1.books[j],
                forall|j: int| 0 <= j < w1.books.len() ==> (#[trigger] self@.books[j]).0
                    == w1.books[j].0,
                count == due.len() + swept_count(w1, now, k as nat),
                due.len() + swept_count(w1, now, w1.books.len()) <= usize::MAX,
            decreases w1.books.len() - k,
        {
            proof {
                lemma_swept_count_grows(w1, now, (k + 1) as nat, w1.books.len());
                lemma_entries_swept(
                    self@,
                    k as int,
                    entries_of(w1.books[k as int].1),
                    now,
                    entries_of(w1.books[k as int].1).len(),
                );
                lemma_unowned_same(
                    self@,
                    w1,
                    entries_of(w1.books[k as int].1),
                    entries_of(w1.books[k as int].1).len(),
                );
                assert(self@.books[k as int] == w1.books[k as int]);
            }
            if self.books.key_at(k).period.start.is_at_or_earlier(&now) {
                let n = self.sweep_gated_book(k, now);
                count += n;
            }
            k += 1;
        }
        count
    }
}

} // verus!
