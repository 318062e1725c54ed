//! Matching across the books of coupled areas.

use crate::book::{
    amount_fits, book_wf, inserted, lack, lemma_inserted_wf, lemma_zero_on_grid, lesser,
    price_better, price_crosses, queue_of, reach_on_grid, reachable, EntryV, OrderBook, Resting,
};
use crate::decimal::{lemma_grid_closed, representable, Decimal};
use crate::ledger::{lemma_book_at_wf, lemma_stored_books_wf};
use crate::market::{Area, Currency, DeliveryPeriod};
use crate::matching::{ExecMode, Fill, IncomingLimit};
use crate::model::{
    best_offer, book_at, books_taken, books_wf, candidates, capacity_left, coupled, crossed,
    fill_of, flow, flows_with, gate_closed, open_neighbours, opposite, reachable_across,
    resting_count, swept, take_traced, takes_from_pool, takes_traced, KeyV, Take, Taker, WorldV,
};
use crate::order::{other_side, GridpoolId, OrderId, Side};
use crate::table::{holds, lemma_stored, lemma_views_push, slot, value_at, views, Table};
use crate::time::Timestamp;
use crate::volume::{
    agree, far_fits, in_reach, lemma_best_offer_valid, lemma_far_queue, lemma_reach_far,
    lemma_reachable_grows, lemma_swept_agrees, lemma_swept_nothing, lemma_swept_step,
    lemma_take_fits, lemma_take_reach, reach_fits,
};
use crate::world::{views_of_pairs, ContractKey, Coupling, World};
use vstd::prelude::*;

verus! {

/// Whether a coupling's gate is closed for a delivery that starts at
/// `start`.
pub(super) fn is_gate_closed(c: &Coupling, start: Timestamp, now: Timestamp) -> (r: bool)
    ensures
        r == gate_closed(c@, start, now),
{
    let offset = c.gate_offset;
    let secs: u64 = offset.secs;
    let nanos: u32 = offset.nanos;
    if secs == 0 && nanos == 0 {
        return false;
    }
    let mut lead: i128 = 0;
    if !(secs > 9_223_372_036_854_775 || (secs == 9_223_372_036_854_775 && nanos > 807_000_000)) {
        lead = secs as i128 * 1_000_000_000 + nanos as i128;
    }
    let at: i128 = now.secs as i128 * 1_000_000_000 + now.nanos as i128;
    let opens: i128 = start.secs as i128 * 1_000_000_000 + start.nanos as i128;
    at + lead >= opens
}

/// The first of the contracts with the best offer within the limit.
pub(super) fn best_book(
    books: &Table<ContractKey, OrderBook>,
    keys: &Vec<ContractKey>,
    side: Side,
    limit: Decimal,
) -> (r: Option<usize>)
    requires
        books.wf(),
    ensures
        match r {
            Some(i) => best_offer(books@, views(keys@), side, limit@) == Some(i as int) && i
                < keys@.len(),
            None => best_offer(books@, views(keys@), side, limit@) is None,
        },
{
    let ghost all = views(keys@);
    let mut best: Option<(usize, Decimal)> = None;
    let mut i: usize = 0;
    while i < keys.len()
        invariant
            books.wf(),
            i <= keys@.len(),
            all == views(keys@),
            match best {
                Some((j, price)) => {
                    &&& j < i
                    &&& best_offer(books@, all.take(i as int), side, limit@) == Some(j as int)
                    &&& opposite(books@, all[j as int], side).len() > 0
                    &&& price@ == opposite(books@, all[j as int], side)[0].price
                },
                None => best_offer(books@, all.take(i as int), side, limit@) is None,
            },
        decreases keys@.len() - i,
    {
        proof {
            assert(all.take(i + 1).drop_last() =~= all.take(i as int));
            assert(all.take(i + 1)[i as int] == keys@[i as int]@);
        }
        let front = match books.get(&keys[i]) {
            Some(b) => b.peek_opposite(side),
            None => None,
        };
        match front {
            Some(price) => {
                if price_crosses(side, limit, price) {
                    let improves = match best {
                        Some((j, so_far)) => price_better(side.opposite(), price, so_far),
                        None => true,
                    };
                    if improves {
                        best = Some((i, price));
                    }
                }
            },
            None => {},
        }
        i += 1;
    }
    assert(all.take(i as int) =~= all);
    match best {
        Some((j, price)) => Some(j),
        None => None,
    }
}

/// Take up to `qty` from the front of a contract's opposite queue. Returns
/// the maker's price, its id, what it had open, and what was taken.
pub(super) fn take_front(
    books: &mut Table<ContractKey, OrderBook>,
    key: &ContractKey,
    side: Side,
    qty: Decimal,
) -> (r: (Decimal, OrderId, Decimal, Decimal))
    requires
        books_wf(old(books)@),
        opposite(old(books)@, key@, side).len() > 0,
        representable(
            opposite(old(books)@, key@, side)[0].open - lesser(
                qty@,
                opposite(old(books)@, key@, side)[0].open,
            ),
        ),
    ensures
        final(books)@ == books_taken(old(books)@, key@, side, qty@),
        ({
            let e = opposite(old(books)@, key@, side)[0];
            &&& r.0@ == e.price
            &&& r.1.0 == e.id
            &&& r.2@ == e.open
            &&& r.3@ == lesser(qty@, e.open)
        }),
{
    let ghost before = books@;
    let book = books.slot_mut(key.clone(), OrderBook::new());
    assert(holds(before, key@));
    assert(book_wf(before[slot(before, key@)].1));
    match book.consume_front(side, qty) {
        Some((price, id, open_before, taken, fully)) => (price, id, open_before, taken),
        None => (qty, OrderId(0), qty, qty),
    }
}

/// The fills, with the area of each maker, are those of the takes.
pub open spec fn fills_match(fills: Seq<(Fill, Area)>, taker_id: u64, takes: Seq<Take>) -> bool {
    &&& fills.len() == takes.len()
    &&& forall|i: int|
        0 <= i < fills.len() ==> (#[trigger] fills[i]).0@ == fill_of(taker_id, takes[i])
            && fills[i].1@ == takes[i].key.area
}

impl World {
    /// The contracts a taker order rooted at `taker_key` is allowed to match
    /// against: the home contract plus every coupled area whose cross-border
    /// gate is still open and whose capacity isn't already used up.
    pub(super) fn candidate_keys(&self, taker_key: &ContractKey, now: Timestamp) -> (r: Vec<ContractKey>)
        requires
            self.wf(),
        ensures
            views(r@) == candidates(self@, taker_key@, now),
    {
        let mut keys: Vec<ContractKey> = Vec::new();
        keys.push(taker_key.clone());
        let neighbours = self.coupled_areas(&taker_key.area);
        let ghost row = coupled(self@, taker_key@.area);
        assert(views(keys@) =~= seq![taker_key@] + open_neighbours(self@, taker_key@, now, 0));
        let mut i: usize = 0;
        while i < neighbours.len()
            invariant
                self.wf(),
                i <= neighbours@.len(),
                row == coupled(self@, taker_key@.area),
                views_of_pairs(neighbours@) == row,
                views(keys@) == seq![taker_key@] + open_neighbours(
                    self@,
                    taker_key@,
                    now,
                    i as nat,
                ),
            decreases neighbours@.len() - i,
        {
            let ghost edge = row[i as int];
            assert(edge == (neighbours@[i as int].0@, neighbours@[i as int].1@));
            let open = !is_gate_closed(&neighbours[i].1, taker_key.period.start, now)
                && self.has_capacity(&taker_key.area, &neighbours[i].0, taker_key.period);
            if open {
                let key = ContractKey {
                    area: neighbours[i].0.clone(),
                    period: taker_key.period,
                };
                proof {
                    lemma_views_push(keys@, key);
                }
                keys.push(key);
            }
            i += 1;
            assert(views(keys@) =~= seq![taker_key@] + open_neighbours(
                self@,
                taker_key@,
                now,
                i as nat,
            ));
        }
        keys
    }

    /// Whether anything may still cross the edge between `a` and `b`.
    pub(super) fn has_capacity(&self, a: &Area, b: &Area, period: DeliveryPeriod) -> (r: bool)
        requires
            self.wf(),
        ensures
            r == (capacity_left(self@, a@, b@, period) matches Some(left) ==> left > 0),
    {
        match self.coupling(a, b) {
            Some(c) => match c.capacity_mw {
                Some(cap) => self.crossed_so_far(a, b, period).less(cap),
                None => true,
            },
            None => true,
        }
    }

    /// Whether the candidates offer at least `qty` within the limit.
    pub(super) fn reaches(&self, keys: &Vec<ContractKey>, side: Side, limit: Decimal, qty: Decimal) -> (r:
        bool)
        requires
            self.wf(),
            exists|g: nat|
                amount_fits(qty@, g) && far_fits(self@.books, views(keys@), side, limit@, g),
        ensures
            r == (reachable_across(self@.books, views(keys@), side, limit@) >= qty@),
    {
        let ghost all = views(keys@);
        let ghost g = choose|g: nat|
            amount_fits(qty@, g) && far_fits(self@.books, all, side, limit@, g);
        let mut left = qty;
        let mut i: usize = 0;
        while i < keys.len()
            invariant
                self.wf(),
                self.books@ == self@.books,
                amount_fits(qty@, g),
                all == views(keys@),
                far_fits(self@.books, all, side, limit@, g),
                i <= keys@.len(),
                amount_fits(left@, g),
                left@ == lack(
                    reachable_across(self@.books, all.take(i as int), side, limit@),
                    qty@,
                ),
            decreases keys@.len() - i,
        {
            proof {
                assert(all[i as int] == keys@[i as int]@);
                lemma_reachable_grows(self@.books, all, side, limit@, i as int, g);
                lemma_far_queue(self@.books, all, i as int, side, limit@, g);
                lemma_zero_on_grid(g);
                lemma_grid_closed(
                    left@,
                    reachable(side, limit@, opposite(self@.books, all[i as int], side)),
                    g,
                );
            }
            match self.books.get(&keys[i]) {
                Some(b) => {
                    proof {
                        assert(book_wf(self@.books[slot(self@.books, keys@[i as int]@)].1));
                        assert(amount_fits(left@, g) && reach_on_grid(
                            side,
                            limit@,
                            queue_of(b@, other_side(side)),
                            g,
                        ));
                    }
                    left = b.short_of(side, limit, left);
                },
                None => {},
            }
            i += 1;
        }
        assert(all.take(i as int) =~= all);
        left.is_zero()
    }
}

impl World {
    /// Sweep the taker's own book plus all coupled-area books in global
    /// price-time priority. Each fill carries the maker's area. A resting
    /// leftover always lands on the taker's own area book.
    pub(super) fn match_limit_across(
        &mut self,
        taker_key: &ContractKey,
        taker: IncomingLimit,
        mode: ExecMode,
        currency: Currency,
        now: Timestamp,
    ) -> (r: (Vec<(Fill, Area)>, Option<Resting>))
        requires
            old(self).wf(),
            taker.quantity@ > 0,
            exists|g: nat|
                amount_fits(taker.quantity@, g) && reach_fits(
                    old(self)@,
                    taker_key@,
                    candidates(old(self)@, taker_key@, now),
                    taker.side,
                    taker.price@,
                    taker.quantity@,
                    g,
                ),
        ensures
            final(self).wf(),
            ({
                let c = crossed(
                    old(self)@,
                    (Taker { id: taker.id.0, side: taker.side, currency, key: taker_key@ }),
                    taker.price@,
                    taker.quantity@,
                    mode,
                    now,
                );
                &&& final(self)@ == c.world
                &&& fills_match(r.0@, taker.id.0, c.takes)
                &&& match r.1 {
                    Some(e) => e.id == taker.id && c.rested == Some(e.open_qty@),
                    None => c.rested is None,
                }
            }),
    {
        let ghost w0 = self@;
        let ghost tk = Taker { id: taker.id.0, side: taker.side, currency, key: taker_key@ };
        let ghost limit = taker.price@;
        let keys = self.candidate_keys(taker_key, now);
        let ghost ks = views(keys@);
        let ghost g = choose|g: nat|
            amount_fits(taker.quantity@, g) && reach_fits(
                w0,
                taker_key@,
                ks,
                taker.side,
                limit,
                taker.quantity@,
                g,
            );
        proof {
            lemma_reach_far(w0, taker_key@, ks, taker.side, limit, taker.quantity@, g);
        }
        if mode == ExecMode::FillOrKill {
            if !self.reaches(&keys, taker.side, taker.price, taker.quantity) {
                return (Vec::new(), None);
            }
        }
        let mut fills: Vec<(Fill, Area)> = Vec::new();
        let mut left = taker.quantity;
        let ghost s0 = swept(w0.books, ks, taker.side, limit, left@);
        let ghost mut done: Seq<Take> = Seq::empty();
        assert(s0.takes =~= done + s0.takes);
        while !left.is_zero()
            invariant
                self.wf(),
                ks == views(keys@),
                tk == (Taker { id: taker.id.0, side: taker.side, currency, key: taker_key@ }),
                limit == taker.price@,
                left@ >= 0,
                amount_fits(left@, g),
                reach_fits(self@, taker_key@, ks, taker.side, limit, left@, g),
                self@ == (WorldV {
                    books: self@.books,
                    ..takes_traced(w0, tk, done, now)
                }),
                fills_match(fills@, taker.id.0, done),
                ({
                    let s = swept(self@.books, ks, taker.side, limit, left@);
                    &&& s0.takes == done + s.takes
                    &&& s0.books == s.books
                    &&& s0.left == s.left
                }),
            ensures
                self.wf(),
                self@ == (WorldV {
                    books: s0.books,
                    ..takes_traced(w0, tk, s0.takes, now)
                }),
                fills_match(fills@, taker.id.0, s0.takes),
                left@ == s0.left,
                left@ >= 0,
            decreases resting_count(self@.books, other_side(taker.side)), left@,
        {
            let ghost before = self@;
            let ghost books = self@.books;
            let ghost qty = left@;
            let at = match best_book(&self.books, &keys, taker.side, taker.price) {
                Some(i) => i,
                None => {
                    proof {
                        assert(done + swept(books, ks, taker.side, limit, qty).takes =~= done);
                    }
                    break;
                },
            };
            proof {
                lemma_best_offer_valid(books, ks, taker.side, limit);
                lemma_reach_far(before, taker_key@, ks, taker.side, limit, qty, g);
                lemma_take_fits(books, ks, at as int, taker.side, limit, qty, g);
                lemma_swept_step(books, ks, taker.side, limit, qty);
            }
            let ghost taken_from = opposite(books, ks[at as int], taker.side)[0];
            let ghost t = lesser(qty, taken_from.open);
            proof {
                let next = WorldV {
                    books: books_taken(books, ks[at as int], taker.side, qty),
                    flows: if ks[at as int].area != taker_key@.area {
                        flows_with(
                            before,
                            taker_key@.area,
                            ks[at as int].area,
                            taker_key@.period,
                            t,
                        )
                    } else {
                        before.flows
                    },
                    ..before
                };
                lemma_take_reach(
                    before,
                    next,
                    taker_key@,
                    ks,
                    at as int,
                    taker.side,
                    limit,
                    qty,
                    g,
                );
            }
            let key = &keys[at];
            let (price, maker_id, open_before, taken) = take_front(
                &mut self.books,
                key,
                taker.side,
                left,
            );
            let ghost take = Take {
                key: key@,
                entry: opposite(books, key@, taker.side)[0],
                quantity: taken@,
            };
            let ghost traced = takes_traced(w0, tk, done, now);
            assert(self@ == (WorldV { books: self@.books, ..traced }));
            if key.area != taker_key.area {
                assert(flow(self@, taker_key@.area, key@.area, taker_key@.period) == flow(
                    before,
                    taker_key@.area,
                    key@.area,
                    taker_key@.period,
                ));
                self.debit_capacity(&taker_key.area, &key.area, taker_key.period, taken);
            }
            fills.push(
                (
                    Fill { taker_id: taker.id, maker_id, price, quantity: taken },
                    key.area.clone(),
                ),
            );
            let open_after = open_before.minus(taken);
            self.emit_book_event(
                maker_id,
                taker.side.opposite(),
                key,
                price,
                open_after,
                currency,
                now,
            );
            left = left.minus(taken);
            proof {
                lemma_take_reach(
                    before,
                    self@,
                    taker_key@,
                    ks,
                    at as int,
                    taker.side,
                    limit,
                    qty,
                    g,
                );
                let more = done.push(take);
                assert(more.drop_last() =~= done);
                assert(self@ == (WorldV {
                    books: self@.books,
                    ..take_traced(traced, tk, take, now)
                }));
                assert(done + (seq![take] + swept(
                    self@.books,
                    ks,
                    taker.side,
                    limit,
                    left@,
                ).takes) =~= more + swept(self@.books, ks, taker.side, limit, left@).takes);
                done = more;
                if left@ == 0 {
                    lemma_swept_nothing(self@.books, ks, taker.side, limit);
                    assert(done + Seq::<Take>::empty() =~= done);
                }
            }
        }
        if mode == ExecMode::Resting && Decimal::zero().less(left) {
            let resting = Resting { id: taker.id, open_qty: left };
            let ghost traced = self@;
            proof {
                lemma_book_at_wf(self@.books, taker_key@);
                let e = EntryV { id: taker.id.0, price: limit, open: left@ };
                lemma_inserted_wf(book_at(self@.books, taker_key@), taker.side, e);
                lemma_stored_books_wf(
                    self@.books,
                    taker_key@,
                    inserted(book_at(self@.books, taker_key@), taker.side, e),
                );
            }
            let book = self.book_mut(taker_key.clone());
            let put = book.insert(taker.side, taker.price, resting);
            self.emit_book_event(
                taker.id,
                taker.side,
                taker_key,
                taker.price,
                left,
                currency,
                now,
            );
            (fills, Some(resting))
        } else {
            (fills, None)
        }
    }
}

impl World {
    /// A copy of the books of these contracts.
    pub(super) fn copy_books(&self, keys: &Vec<ContractKey>) -> (r: Table<ContractKey, OrderBook>)
        requires
            self.wf(),
        ensures
            agree(r@, self@.books, views(keys@)),
            books_wf(r@),
            forall|i: int|
                0 <= i < r@.len() ==> holds(self@.books, (#[trigger] r@[i]).0) && r@[i].1
                    == value_at(self@.books, r@[i].0),
    {
        let ghost books = self@.books;
        let mut copy: Table<ContractKey, OrderBook> = Table::new();
        let mut i: usize = 0;
        while i < keys.len()
            invariant
                self.wf(),
                self.books@ == self@.books,
                books == self@.books,
                i <= keys@.len(),
                copy.wf(),
                agree(copy@, books, views(keys@).take(i as int)),
                forall|j: int|
                    0 <= j < copy@.len() ==> holds(books, (#[trigger] copy@[j]).0) && copy@[j].1
                        == value_at(books, copy@[j].0),
            decreases keys@.len() - i,
        {
            let ghost before = copy@;
            let ghost k = keys@[i as int]@;
            let ghost some = views(keys@).take(i as int);
            match self.books.get(&keys[i]) {
                Some(b) => {
                    proof {
                        lemma_stored(copy@, k, b@);
                    }
                    copy.put(keys[i].clone(), b.clone());
                },
                None => {},
            }
            proof {
                let more = views(keys@).take(i + 1);
                assert forall|j: int| 0 <= j < more.len() implies book_at(
                    copy@,
                    #[trigger] more[j],
                ) == book_at(books, more[j]) by {
                    if j < i {
                        assert(more[j] == some[j]);
                        assert(book_at(before, some[j]) == book_at(books, some[j]));
                        if some[j] != k {
                            assert(holds(copy@, some[j]) <==> holds(before, some[j]));
                            if holds(before, some[j]) {
                                assert(value_at(copy@, some[j]) == value_at(before, some[j]));
                            }
                        }
                    }
                    if more[j] == k && !holds(books, k) && holds(copy@, k) {
                        assert(holds(books, copy@[slot(copy@, k)].0));
                    }
                }
                assert forall|j: int| 0 <= j < copy@.len() implies holds(
                    books,
                    (#[trigger] copy@[j]).0,
                ) && copy@[j].1 == value_at(books, copy@[j].0) by {
                    if j < before.len() && copy@[j] == before[j] {
                        assert(holds(books, before[j].0));
                    }
                }
            }
            i += 1;
        }
        proof {
            assert(views(keys@).take(i as int) =~= views(keys@));
            assert forall|j: int| 0 <= j < copy@.len() implies book_wf((#[trigger] copy@[j]).1) by {
                assert(book_wf(books[slot(books, copy@[j].0)].1));
            }
        }
        copy
    }

    /// Run the matcher's sweep over a copy of the candidate books. Returns
    /// true if any resting order the matcher would consume to fill `quantity`
    /// belongs to `gridpool_id`; one that sits deeper than the sweep reaches
    /// does not count.
    pub(super) fn would_self_trade(
        &self,
        taker_key: &ContractKey,
        side: Side,
        taker_price: Decimal,
        quantity: Decimal,
        gridpool_id: GridpoolId,
        now: Timestamp,
    ) -> (r: bool)
        requires
            self.wf(),
            exists|g: nat|
                amount_fits(quantity@, g) && far_fits(
                    self@.books,
                    candidates(self@, taker_key@, now),
                    side,
                    taker_price@,
                    g,
                ),
        ensures
            r == takes_from_pool(
                self@,
                swept(
                    self@.books,
                    candidates(self@, taker_key@, now),
                    side,
                    taker_price@,
                    quantity@,
                ).takes,
                gridpool_id.0,
            ),
    {
        let keys = self.candidate_keys(taker_key, now);
        self.would_take_own(&keys, side, taker_price, quantity, gridpool_id)
    }

    /// The same over the books of given contracts.
    pub(super) fn would_take_own(
        &self,
        keys: &Vec<ContractKey>,
        side: Side,
        taker_price: Decimal,
        quantity: Decimal,
        gridpool_id: GridpoolId,
    ) -> (r: bool)
        requires
            self.wf(),
            exists|g: nat|
                amount_fits(quantity@, g) && far_fits(
                    self@.books,
                    views(keys@),
                    side,
                    taker_price@,
                    g,
                ),
        ensures
            r == takes_from_pool(
                self@,
                swept(self@.books, views(keys@), side, taker_price@, quantity@).takes,
                gridpool_id.0,
            ),
    {
        let ghost limit = taker_price@;
        let ghost pool = gridpool_id.0;
        let ghost ks = views(keys@);
        let ghost g = choose|g: nat|
            amount_fits(quantity@, g) && far_fits(self@.books, ks, side, limit, g);
        let mut books = self.copy_books(keys);
        let mut left = quantity;
        let ghost takes = swept(self@.books, ks, side, limit, left@).takes;
        proof {
            lemma_swept_agrees(books@, self@.books, ks, side, limit, left@);
            assert forall|k: KeyV, e: EntryV| #[trigger]
                in_reach(books@, ks, side, limit, k, e) implies amount_fits(e.open, g) by {
                let i = choose|i: int| 0 <= i < ks.len() && ks[i] == k;
                assert(book_at(books@, ks[i]) == book_at(self@.books, ks[i]));
                assert(in_reach(self@.books, ks, side, limit, k, e));
            }
        }
        while !left.is_zero()
            invariant
                ks == views(keys@),
                limit == taker_price@,
                pool == gridpool_id.0,
                takes == swept(self@.books, ks, side, limit, quantity@).takes,
                amount_fits(left@, g),
                books_wf(books@),
                far_fits(books@, ks, side, limit, g),
                takes_from_pool(self@, takes, pool) == takes_from_pool(
                    self@,
                    swept(books@, ks, side, limit, left@).takes,
                    pool,
                ),
            ensures
                !takes_from_pool(self@, takes, pool),
            decreases resting_count(books@, other_side(side)), left@,
        {
            let ghost before = books@;
            let ghost qty = left@;
            let at = match best_book(&books, keys, side, taker_price) {
                Some(i) => i,
                None => {
                    break;
                },
            };
            proof {
                lemma_best_offer_valid(before, ks, side, limit);
                lemma_take_fits(before, ks, at as int, side, limit, qty, g);
                lemma_swept_step(before, ks, side, limit, qty);
            }
            let (price, maker_id, open_before, taken) = take_front(
                &mut books,
                &keys[at],
                side,
                left,
            );
            let ghost all = swept(before, ks, side, limit, qty).takes;
            let ghost rest = swept(books@, ks, side, limit, qty - taken@).takes;
            assert(all[0].entry.id == maker_id.0);
            match self.owner_of(maker_id) {
                Some(owner) => {
                    if owner.0 == gridpool_id.0 {
                        return true;
                    }
                },
                None => {},
            }
            left = left.minus(taken);
            proof {
                if takes_from_pool(self@, all, pool) {
                    let i = choose|i: int|
                        0 <= i < all.len() && self@.owners.contains_key(
                            (#[trigger] all[i]).entry.id,
                        ) && self@.owners[all[i].entry.id] == pool;
                    assert(rest[i - 1] == all[i]);
                }
                if takes_from_pool(self@, rest, pool) {
                    let i = choose|i: int|
                        0 <= i < rest.len() && self@.owners.contains_key(
                            (#[trigger] rest[i]).entry.id,
                        ) && self@.owners[rest[i].entry.id] == pool;
                    assert(all[i + 1] == rest[i]);
                }
                if left@ == 0 {
                    lemma_swept_nothing(books@, ks, side, limit);
                }
            }
        }
        false
    }
}

} // verus!
