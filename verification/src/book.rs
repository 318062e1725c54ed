//! One [`OrderBook`] per contract = (delivery area, delivery period). Each
//! side is a queue in price-time priority: best price first, and in order of
//! arrival among equal prices. The matcher is in `matching`; the book offers
//! the primitives it needs.

use crate::decimal::{
    grid_limit, lemma_grid_closed, lemma_pow10_positive, on_grid, representable, Decimal,
};
use crate::order::{other_side, OrderId, Side};
use vstd::prelude::*;

verus! {

/// What sits on the book: the bare minimum the matcher reads.
#[derive(Clone, Copy, Debug, PartialEq, Eq)]
pub struct Resting {
    pub id: OrderId,
    pub open_qty: Decimal,
}

/// One entry of a queue.
#[derive(Clone, Copy, Debug)]
struct Entry {
    id: OrderId,
    price: Decimal,
    open_qty: Decimal,
}

/// An entry of a queue as contracts speak of it.
pub ghost struct EntryV {
    pub id: u64,
    pub price: int,
    pub open: int,
}

impl View for Entry {
    type V = EntryV;

    closed spec fn view(&self) -> EntryV {
        EntryV { id: self.id.0, price: self.price@, open: self.open_qty@ }
    }
}

/// Price `a` comes before price `b` on this side of the book.
pub open spec fn better(side: Side, a: int, b: int) -> bool {
    match side {
        Side::Buy => a > b,
        Side::Sell => a < b,
        Side::Unspecified => false,
    }
}

/// A taker on side `taker` with limit `limit` can trade at `price`: a buyer
/// takes an ask priced at most its bid, a seller a bid priced at least its
/// ask.
pub open spec fn crosses(taker: Side, limit: int, price: int) -> bool {
    match taker {
        Side::Buy => price <= limit,
        Side::Sell => price >= limit,
        Side::Unspecified => false,
    }
}

/// The queue is in price priority: no entry is better than an earlier one.
pub open spec fn sorted(side: Side, q: Seq<EntryV>) -> bool {
    forall|i: int, j: int|
        0 <= i < j < q.len() ==> !better(side, (#[trigger] q[j]).price, (#[trigger] q[i]).price)
}

/// The place behind every entry that is at least as good as `price`.
pub open spec fn rank(side: Side, q: Seq<EntryV>, price: int) -> int
    decreases q.len(),
{
    if q.len() == 0 || better(side, price, q[0].price) {
        0
    } else {
        1 + rank(side, q.drop_first(), price)
    }
}

/// The queue holds an entry with this id.
pub open spec fn has_id(q: Seq<EntryV>, id: u64) -> bool {
    exists|i: int| 0 <= i < q.len() && (#[trigger] q[i]).id == id
}

/// Where the entry with this id stands.
pub open spec fn place_of(q: Seq<EntryV>, id: u64) -> int {
    choose|i: int| 0 <= i < q.len() && (#[trigger] q[i]).id == id
}

/// No two entries share an id.
pub open spec fn ids_distinct(q: Seq<EntryV>) -> bool {
    forall|i: int, j: int| 0 <= i < j < q.len() ==> (#[trigger] q[i]).id != (#[trigger] q[j]).id
}

/// The sum of the open quantities.
pub open spec fn total(q: Seq<EntryV>) -> int
    decreases q.len(),
{
    if q.len() == 0 {
        0
    } else {
        q[0].open + total(q.drop_first())
    }
}

/// The open quantity resting at exactly this price.
pub open spec fn depth(q: Seq<EntryV>, price: int) -> int
    decreases q.len(),
{
    if q.len() == 0 {
        0
    } else {
        (if q[0].price == price {
            q[0].open
        } else {
            0
        }) + depth(q.drop_first(), price)
    }
}

/// The open quantity a taker with this limit can reach.
pub open spec fn reachable(taker: Side, limit: int, q: Seq<EntryV>) -> int
    decreases q.len(),
{
    if q.len() == 0 {
        0
    } else {
        (if crosses(taker, limit, q[0].price) {
            q[0].open
        } else {
            0
        }) + reachable(taker, limit, q.drop_first())
    }
}

/// The leading entries a taker with this limit can reach.
pub open spec fn marketable(taker: Side, limit: int, q: Seq<EntryV>) -> Seq<EntryV>
    decreases q.len(),
{
    if q.len() == 0 || !crosses(taker, limit, q[0].price) {
        Seq::empty()
    } else {
        seq![q[0]] + marketable(taker, limit, q.drop_first())
    }
}

/// Every open quantity is on the grid with `g` decimals and not negative,
/// and their sum stays below what a decimal can hold on that grid.
pub open spec fn summable(q: Seq<EntryV>, g: nat) -> bool {
    &&& g <= 28
    &&& forall|i: int| 0 <= i < q.len() ==> on_grid((#[trigger] q[i]).open, g) && q[i].open >= 0
    &&& total(q) < grid_limit(g)
}

/// A quantity on the grid with `g` decimals, not negative, that a decimal can
/// hold on that grid.
pub open spec fn amount_fits(qty: int, g: nat) -> bool {
    g <= 28 && on_grid(qty, g) && 0 <= qty < grid_limit(g)
}

/// What a taker with this limit can reach of the queue fits the grid.
pub open spec fn reach_on_grid(taker: Side, limit: int, q: Seq<EntryV>, g: nat) -> bool {
    forall|i: int|
        0 <= i < q.len() && crosses(taker, limit, (#[trigger] q[i]).price) ==> amount_fits(
            q[i].open,
            g,
        )
}

/// What of `want` is left when there is `have` of it.
pub open spec fn lack(have: int, want: int) -> int {
    if have >= want {
        0
    } else {
        want - have
    }
}

/// The two sides of a book.
pub ghost struct BookV {
    pub bids: Seq<EntryV>,
    pub asks: Seq<EntryV>,
}

/// A book without entries.
pub open spec fn empty_book() -> BookV {
    BookV { bids: Seq::empty(), asks: Seq::empty() }
}

/// The queue of one side; an unspecified side has none.
pub open spec fn queue_of(b: BookV, side: Side) -> Seq<EntryV> {
    match side {
        Side::Buy => b.bids,
        Side::Sell => b.asks,
        Side::Unspecified => Seq::empty(),
    }
}

/// The book with one side's queue replaced.
pub open spec fn with_queue(b: BookV, side: Side, q: Seq<EntryV>) -> BookV {
    match side {
        Side::Buy => BookV { bids: q, asks: b.asks },
        Side::Sell => BookV { bids: b.bids, asks: q },
        Side::Unspecified => b,
    }
}

/// The id rests on either side.
pub open spec fn rests(b: BookV, id: u64) -> bool {
    has_id(b.bids, id) || has_id(b.asks, id)
}

/// Both queues are in price priority and no id rests twice.
pub open spec fn book_wf(b: BookV) -> bool {
    &&& sorted(Side::Buy, b.bids)
    &&& sorted(Side::Sell, b.asks)
    &&& ids_distinct(b.bids)
    &&& ids_distinct(b.asks)
    &&& forall|i: int, j: int|
        0 <= i < b.bids.len() && 0 <= j < b.asks.len() ==> (#[trigger] b.bids[i]).id != (
        #[trigger] b.asks[j]).id
}

/// The book after an order joined the tail of its price level.
pub open spec fn inserted(b: BookV, side: Side, e: EntryV) -> BookV {
    if side == Side::Unspecified || rests(b, e.id) {
        b
    } else {
        let q = queue_of(b, side);
        with_queue(b, side, q.insert(rank(side, q, e.price), e))
    }
}

/// The queue without the entry of this id.
pub open spec fn without(q: Seq<EntryV>, id: u64) -> Seq<EntryV> {
    if has_id(q, id) {
        q.remove(place_of(q, id))
    } else {
        q
    }
}

/// The book after the order with this id left it.
pub open spec fn canceled(b: BookV, id: u64) -> BookV {
    BookV { bids: without(b.bids, id), asks: without(b.asks, id) }
}

/// The side the id rests on.
pub open spec fn side_of(b: BookV, id: u64) -> Side {
    if has_id(b.bids, id) {
        Side::Buy
    } else if has_id(b.asks, id) {
        Side::Sell
    } else {
        Side::Unspecified
    }
}

/// The entry of a resting id.
pub open spec fn entry_of(b: BookV, id: u64) -> EntryV {
    let q = queue_of(b, side_of(b, id));
    q[place_of(q, id)]
}

/// The book after the open quantity of a resting order was rewritten in
/// place. An order with nothing open leaves.
pub open spec fn resized(b: BookV, id: u64, open: int) -> BookV {
    if open == 0 {
        canceled(b, id)
    } else {
        let side = side_of(b, id);
        let q = queue_of(b, side);
        let i = place_of(q, id);
        with_queue(b, side, q.update(i, EntryV { open, ..q[i] }))
    }
}

/// The smaller of two quantities.
pub open spec fn lesser(a: int, b: int) -> int {
    if a > b {
        b
    } else {
        a
    }
}

/// The queue after up to `qty` was taken from its front entry, which leaves
/// once nothing of it is open.
pub open spec fn front_taken(q: Seq<EntryV>, qty: int) -> Seq<EntryV> {
    let left = q[0].open - lesser(qty, q[0].open);
    if left == 0 {
        q.drop_first()
    } else {
        q.update(0, EntryV { open: left, ..q[0] })
    }
}

/// One side of a book, in price-time priority.
#[derive(Debug)]
struct Queue {
    entries: Vec<Entry>,
}

impl View for Queue {
    type V = Seq<EntryV>;

    closed spec fn view(&self) -> Seq<EntryV> {
        Seq::new(self.entries@.len(), |i: int| self.entries@[i]@)
    }
}

/// Whether a taker on side `taker` with limit `limit` can trade at `price`.
pub fn price_crosses(taker: Side, limit: Decimal, price: Decimal) -> (r: bool)
    ensures
        r == crosses(taker, limit@, price@),
{
    match taker {
        Side::Buy => !limit.less(price),
        Side::Sell => !price.less(limit),
        Side::Unspecified => false,
    }
}

/// Whether price `a` comes before price `b` on this side.
pub fn price_better(side: Side, a: Decimal, b: Decimal) -> (r: bool)
    ensures
        r == better(side, a@, b@),
{
    match side {
        Side::Buy => b.less(a),
        Side::Sell => a.less(b),
        Side::Unspecified => false,
    }
}

impl Queue {
    fn new() -> (r: Self)
        ensures
            r@ == Seq::<EntryV>::empty(),
    {
        let r = Queue { entries: Vec::new() };
        assert(r@ =~= Seq::<EntryV>::empty());
        r
    }

    /// The place of the entry with this id.
    fn find(&self, id: OrderId) -> (r: Option<usize>)
        requires
            ids_distinct(self@),
        ensures
            match r {
                Some(i) => i < self@.len() && has_id(self@, id.0) && place_of(self@, id.0) == i,
                None => !has_id(self@, id.0),
            },
    {
        let mut i: usize = 0;
        while i < self.entries.len()
            invariant
                i <= self.entries@.len(),
                self@.len() == self.entries@.len(),
                ids_distinct(self@),
                forall|j: int| 0 <= j < i ==> (#[trigger] self@[j]).id != id.0,
            decreases self.entries@.len() - i,
        {
            assert(self@[i as int] == self.entries@[i as int]@);
            if self.entries[i].id == id {
                proof {
                    lemma_place(self@, id.0, i as int);
                }
                return Some(i);
            }
            i += 1;
        }
        None
    }

    /// Put `entry` behind every entry that is at least as good.
    fn enqueue(&mut self, side: Side, entry: Entry)
        ensures
            final(self)@ == old(self)@.insert(rank(side, old(self)@, entry@.price), entry@),
            0 <= rank(side, old(self)@, entry@.price) <= old(self)@.len(),
    {
        let mut i: usize = 0;
        let ghost q = self@;
        assert(q.skip(0) =~= q);
        while i < self.entries.len() && !price_better(side, entry.price, self.entries[i].price)
            invariant
                i <= self.entries@.len(),
                self@.len() == self.entries@.len(),
                self@ == q,
                rank(side, q, entry@.price) == i + rank(side, q.skip(i as int), entry@.price),
            decreases self.entries@.len() - i,
        {
            assert(q[i as int] == self.entries@[i as int]@);
            assert(q.skip(i as int)[0] == q[i as int]);
            assert(q.skip(i as int).drop_first() =~= q.skip(i + 1));
            i += 1;
        }
        assert(i < q.len() ==> q.skip(i as int)[0] == self.entries@[i as int]@);
        self.entries.insert(i, entry);
        assert(self@ =~= q.insert(i as int, entry@));
    }

    /// Take the entry at `i` out.
    fn take(&mut self, i: usize) -> (r: Entry)
        requires
            i < old(self)@.len(),
        ensures
            r@ == old(self)@[i as int],
            final(self)@ == old(self)@.remove(i as int),
    {
        let r = self.entries.remove(i);
        assert(self@ =~= old(self)@.remove(i as int));
        r
    }

    /// The best price.
    fn best(&self) -> (r: Option<Decimal>)
        ensures
            match r {
                Some(p) => self@.len() > 0 && p@ == self@[0].price,
                None => self@.len() == 0,
            },
    {
        if self.entries.len() == 0 {
            None
        } else {
            assert(self@[0] == self.entries@[0]@);
            Some(self.entries[0].price)
        }
    }

    /// The sum of the open quantities.
    fn total(&self) -> (r: Decimal)
        requires
            exists|g: nat| summable(self@, g),
        ensures
            r@ == total(self@),
    {
        let ghost q = self@;
        let ghost g = choose|g: nat| summable(q, g);
        let mut sum = Decimal::zero();
        let mut i: usize = 0;
        assert(q.skip(0) =~= q);
        proof {
            lemma_zero_on_grid(g);
        }
        while i < self.entries.len()
            invariant
                i <= self.entries@.len(),
                self@ == q,
                q.len() == self.entries@.len(),
                summable(q, g),
                sum@ + total(q.skip(i as int)) == total(q),
                on_grid(sum@, g),
                sum@ >= 0,
            decreases self.entries@.len() - i,
        {
            let ghost e = q[i as int];
            assert(e == self.entries@[i as int]@);
            assert(q.skip(i as int)[0] == e);
            assert(q.skip(i as int).drop_first() =~= q.skip(i + 1));
            proof {
                lemma_tail_nonnegative(q, i + 1);
                lemma_grid_closed(sum@, e.open, g);
                lemma_sum_fits(sum@ + e.open, g);
            }
            sum = sum.plus(self.entries[i].open_qty);
            i += 1;
        }
        assert(q.skip(i as int).len() == 0);
        sum
    }

    /// The open quantity at exactly this price.
    fn depth(&self, price: Decimal) -> (r: Decimal)
        requires
            exists|g: nat| summable(self@, g),
        ensures
            r@ == depth(self@, price@),
    {
        let ghost q = self@;
        let ghost g = choose|g: nat| summable(q, g);
        let mut sum = Decimal::zero();
        let mut i: usize = 0;
        assert(q.skip(0) =~= q);
        proof {
            lemma_zero_on_grid(g);
        }
        while i < self.entries.len()
            invariant
                i <= self.entries@.len(),
                self@ == q,
                q.len() == self.entries@.len(),
                summable(q, g),
                sum@ + depth(q.skip(i as int), price@) == depth(q, price@),
                sum@ + total(q.skip(i as int)) <= total(q),
                on_grid(sum@, g),
                sum@ >= 0,
            decreases self.entries@.len() - i,
        {
            let ghost e = q[i as int];
            assert(e == self.entries@[i as int]@);
            assert(q.skip(i as int)[0] == e);
            assert(q.skip(i as int).drop_first() =~= q.skip(i + 1));
            if self.entries[i].price.same(price) {
                proof {
                    lemma_tail_nonnegative(q, i + 1);
                    lemma_grid_closed(sum@, e.open, g);
                    lemma_sum_fits(sum@ + e.open, g);
                }
                sum = sum.plus(self.entries[i].open_qty);
            }
            i += 1;
        }
        assert(q.skip(i as int).len() == 0);
        sum
    }

    /// The open quantity a taker with this limit can reach.
    fn reachable(&self, taker: Side, limit: Decimal) -> (r: Decimal)
        requires
            sorted(other_side(taker), self@),
            exists|g: nat| summable(self@, g),
        ensures
            r@ == reachable(taker, limit@, self@),
    {
        let ghost q = self@;
        let ghost g = choose|g: nat| summable(q, g);
        let mut sum = Decimal::zero();
        let mut i: usize = 0;
        assert(q.skip(0) =~= q);
        proof {
            lemma_zero_on_grid(g);
        }
        while i < self.entries.len()
            invariant
                i <= self.entries@.len(),
                self@ == q,
                q.len() == self.entries@.len(),
                summable(q, g),
                sorted(other_side(taker), q),
                sum@ + reachable(taker, limit@, q.skip(i as int)) == reachable(taker, limit@, q),
                sum@ + total(q.skip(i as int)) <= total(q),
                on_grid(sum@, g),
                sum@ >= 0,
            decreases self.entries@.len() - i,
        {
            let ghost e = q[i as int];
            assert(e == self.entries@[i as int]@);
            assert(q.skip(i as int)[0] == e);
            assert(q.skip(i as int).drop_first() =~= q.skip(i + 1));
            if !price_crosses(taker, limit, self.entries[i].price) {
                proof {
                    lemma_skip_sorted(other_side(taker), q, i as int);
                    lemma_unreachable(taker, limit@, q.skip(i as int));
                }
                return sum;
            }
            proof {
                lemma_tail_nonnegative(q, i + 1);
                lemma_grid_closed(sum@, e.open, g);
                lemma_sum_fits(sum@ + e.open, g);
            }
            sum = sum.plus(self.entries[i].open_qty);
            i += 1;
        }
        assert(q.skip(i as int).len() == 0);
        sum
    }

    /// What of `qty` a taker with this limit cannot reach.
    fn short_of(&self, taker: Side, limit: Decimal, qty: Decimal) -> (r: Decimal)
        requires
            sorted(other_side(taker), self@),
            exists|g: nat|
                amount_fits(qty@, g) && reach_on_grid(taker, limit@, self@, g),
        ensures
            r@ == lack(reachable(taker, limit@, self@), qty@),
    {
        let ghost q = self@;
        let ghost g = choose|g: nat|
            amount_fits(qty@, g) && reach_on_grid(taker, limit@, q, g);
        let mut left = qty;
        let mut i: usize = 0;
        assert(q.skip(0) =~= q);
        while i < self.entries.len()
            invariant
                i <= self.entries@.len(),
                self@ == q,
                q.len() == self.entries@.len(),
                reach_on_grid(taker, limit@, q, g),
                sorted(other_side(taker), q),
                amount_fits(left@, g),
                lack(reachable(taker, limit@, q), qty@) == lack(
                    reachable(taker, limit@, q.skip(i as int)),
                    left@,
                ),
            decreases self.entries@.len() - i,
        {
            let ghost e = q[i as int];
            let ghost t = q.skip(i as int);
            proof {
                assert(e == self.entries@[i as int]@);
                assert(t[0] == e);
                assert(t.drop_first() =~= q.skip(i + 1));
                lemma_skip_sorted(other_side(taker), q, i as int);
                lemma_skip_on_grid(taker, limit@, q, i + 1, g);
                lemma_reachable_on_grid(taker, limit@, q.skip(i + 1), g);
            }
            if !price_crosses(taker, limit, self.entries[i].price) {
                proof {
                    lemma_unreachable(taker, limit@, t);
                }
                return left;
            }
            if !self.entries[i].open_qty.less(left) {
                return Decimal::zero();
            }
            proof {
                lemma_grid_closed(left@, e.open, g);
                lemma_sum_fits(left@ - e.open, g);
            }
            left = left.minus(self.entries[i].open_qty);
            i += 1;
        }
        assert(q.skip(i as int).len() == 0);
        left
    }
}

/// Continuous-trading order book for one contract.
#[derive(Debug)]
pub struct OrderBook {
    bids: Queue,
    asks: Queue,
}

impl View for OrderBook {
    type V = BookV;

    closed spec fn view(&self) -> BookV {
        BookV { bids: self.bids@, asks: self.asks@ }
    }
}

/// The sums over either side, and over both, stay within a decimal.
pub open spec fn book_summable(b: BookV, g: nat) -> bool {
    summable(b.bids, g) && summable(b.asks, g) && total(b.bids) + total(b.asks) < grid_limit(g)
}

/// Where the last price level of the queue begins.
pub open spec fn last_level(q: Seq<EntryV>) -> int
    decreases q.len(),
{
    if q.len() <= 1 {
        0
    } else if q[q.len() - 2].price == q.last().price {
        last_level(q.drop_last())
    } else {
        q.len() - 1
    }
}

/// The queue with its price levels in reverse, each level in order.
pub open spec fn levels_reversed(q: Seq<EntryV>) -> Seq<EntryV>
    decreases q.len(),
{
    if q.len() == 0 {
        Seq::empty()
    } else {
        let k = last_level(q);
        if 0 <= k < q.len() {
            q.skip(k) + levels_reversed(q.take(k))
        } else {
            q
        }
    }
}

/// The listing of a book: the bids from the lowest price up, then the asks
/// from the lowest price up, each price level in order of arrival.
pub open spec fn book_listing(b: BookV) -> Seq<(Side, EntryV)> {
    let up = levels_reversed(b.bids);
    Seq::new(
        up.len() + b.asks.len(),
        |i: int|
            if i < up.len() {
                (Side::Buy, up[i])
            } else {
                (Side::Sell, b.asks[i - up.len()])
            },
    )
}

impl OrderBook {
    /// Both queues are in priority order and no id rests twice.
    pub open spec fn wf(&self) -> bool {
        book_wf(self@)
    }

    /// A book without orders.
    pub fn new() -> (r: Self)
        ensures
            r@ == empty_book(),
            r.wf(),
    {
        OrderBook { bids: Queue::new(), asks: Queue::new() }
    }

    /// Push an order onto the tail of its (side, price) FIFO queue. Returns
    /// false, and changes nothing, if the id was already present or the side
    /// is unspecified.
    pub fn insert(&mut self, side: Side, price: Decimal, resting: Resting) -> (r: bool)
        requires
            old(self).wf(),
        ensures
            final(self)@ == inserted(
                old(self)@,
                side,
                EntryV { id: resting.id.0, price: price@, open: resting.open_qty@ },
            ),
            r == (side != Side::Unspecified && !rests(old(self)@, resting.id.0)),
            final(self).wf(),
    {
        let entry = Entry { id: resting.id, price, open_qty: resting.open_qty };
        proof {
            lemma_inserted_wf(self@, side, entry@);
        }
        if self.contains(resting.id) {
            return false;
        }
        match side {
            Side::Buy => {
                self.bids.enqueue(side, entry);
                true
            },
            Side::Sell => {
                self.asks.enqueue(side, entry);
                true
            },
            Side::Unspecified => false,
        }
    }

    /// Remove an order by id. Returns the cancelled entry if it was on the
    /// book, None otherwise.
    pub fn cancel(&mut self, id: OrderId) -> (r: Option<Resting>)
        requires
            old(self).wf(),
        ensures
            final(self)@ == canceled(old(self)@, id.0),
            final(self).wf(),
            match r {
                Some(e) => rests(old(self)@, id.0) && e.id == id && e.open_qty@ == entry_of(
                    old(self)@,
                    id.0,
                ).open,
                None => !rests(old(self)@, id.0),
            },
    {
        match self.take(id) {
            Some((_, e)) => Some(Resting { id: e.id, open_qty: e.open_qty }),
            None => None,
        }
    }

    fn take(&mut self, id: OrderId) -> (r: Option<(Side, Entry)>)
        requires
            old(self).wf(),
        ensures
            final(self)@ == canceled(old(self)@, id.0),
            final(self).wf(),
            match r {
                Some((side, e)) => {
                    &&& rests(old(self)@, id.0)
                    &&& side == side_of(old(self)@, id.0)
                    &&& e@ == entry_of(old(self)@, id.0)
                    &&& e@.id == id.0
                    &&& e.id == id
                },
                None => !rests(old(self)@, id.0),
            },
    {
        proof {
            lemma_canceled_wf(self@, id.0);
        }
        let ghost b = self@;
        match self.bids.find(id) {
            Some(i) => {
                let e = self.bids.take(i);
                assert(!has_id(b.asks, id.0)) by {
                    if has_id(b.asks, id.0) {
                        let j = place_of(b.asks, id.0);
                        assert(b.bids[i as int].id != b.asks[j].id);
                    }
                }
                Some((Side::Buy, e))
            },
            None => {
                match self.asks.find(id) {
                    Some(i) => {
                        let e = self.asks.take(i);
                        Some((Side::Sell, e))
                    },
                    None => None,
                }
            },
        }
    }

    /// Rewrite the open quantity of a resting order, which keeps its place in
    /// its queue. An order with nothing open leaves. Returns false, and
    /// changes nothing, if the id is not on the book.
    pub fn resize(&mut self, id: OrderId, open_qty: Decimal) -> (r: bool)
        requires
            old(self).wf(),
        ensures
            r == rests(old(self)@, id.0),
            final(self)@ == if r {
                resized(old(self)@, id.0, open_qty@)
            } else {
                old(self)@
            },
            final(self).wf(),
    {
        if open_qty.is_zero() {
            proof {
                if !rests(self@, id.0) {
                    cancel_touches_one_order(self@, id.0, id.0);
                }
            }
            return self.cancel(id).is_some();
        }
        match self.bids.find(id) {
            Some(i) => {
                proof {
                    lemma_resized_wf(self@, id.0, open_qty@);
                }
                self.bids.set_open(i, open_qty);
                true
            },
            None => {
                match self.asks.find(id) {
                    Some(i) => {
                        proof {
                            lemma_resized_wf(self@, id.0, open_qty@);
                        }
                        self.asks.set_open(i, open_qty);
                        true
                    },
                    None => false,
                }
            },
        }
    }

    /// Like `cancel`, but returns the (side, price) the order was resting at.
    pub fn cancel_with_meta(&mut self, id: OrderId) -> (r: Option<(Side, Decimal)>)
        requires
            old(self).wf(),
        ensures
            final(self)@ == canceled(old(self)@, id.0),
            final(self).wf(),
            match r {
                Some((side, price)) => {
                    &&& rests(old(self)@, id.0)
                    &&& side == side_of(old(self)@, id.0)
                    &&& price@ == entry_of(old(self)@, id.0).price
                },
                None => !rests(old(self)@, id.0),
            },
    {
        match self.take(id) {
            Some((side, e)) => Some((side, e.price)),
            None => None,
        }
    }

    /// Every resting entry as (id, side, price): the bids, then the asks,
    /// each in priority order.
    pub fn iter_with_meta(&self) -> (r: Vec<(OrderId, Side, Decimal)>)
        ensures
            r@.len() == self@.bids.len() + self@.asks.len(),
            forall|i: int|
                0 <= i < self@.bids.len() ==> {
                    &&& (#[trigger] r@[i]).0.0 == self@.bids[i].id
                    &&& r@[i].1 == Side::Buy
                    &&& r@[i].2@ == self@.bids[i].price
                },
            forall|i: int|
                self@.bids.len() <= i < r@.len() ==> {
                    &&& (#[trigger] r@[i]).0.0 == self@.asks[i - self@.bids.len()].id
                    &&& r@[i].1 == Side::Sell
                    &&& r@[i].2@ == self@.asks[i - self@.bids.len()].price
                },
    {
        let mut out: Vec<(OrderId, Side, Decimal)> = Vec::new();
        let mut i: usize = 0;
        while i < self.bids.entries.len()
            invariant
                i <= self.bids.entries@.len(),
                self@.bids.len() == self.bids.entries@.len(),
                out@.len() == i,
                forall|j: int|
                    0 <= j < i ==> {
                        &&& (#[trigger] out@[j]).0.0 == self@.bids[j].id
                        &&& out@[j].1 == Side::Buy
                        &&& out@[j].2@ == self@.bids[j].price
                    },
            decreases self.bids.entries@.len() - i,
        {
            let e = self.bids.entries[i];
            assert(self@.bids[i as int] == e@);
            out.push((e.id, Side::Buy, e.price));
            i += 1;
        }
        let mut k: usize = 0;
        while k < self.asks.entries.len()
            invariant
                k <= self.asks.entries@.len(),
                self@.asks.len() == self.asks.entries@.len(),
                out@.len() == self@.bids.len() + k,
                forall|j: int|
                    0 <= j < self@.bids.len() ==> {
                        &&& (#[trigger] out@[j]).0.0 == self@.bids[j].id
                        &&& out@[j].1 == Side::Buy
                        &&& out@[j].2@ == self@.bids[j].price
                    },
                forall|j: int|
                    self@.bids.len() <= j < out@.len() ==> {
                        &&& (#[trigger] out@[j]).0.0 == self@.asks[j - self@.bids.len()].id
                        &&& out@[j].1 == Side::Sell
                        &&& out@[j].2@ == self@.asks[j - self@.bids.len()].price
                    },
            decreases self.asks.entries@.len() - k,
        {
            let e = self.asks.entries[k];
            assert(self@.asks[k as int] == e@);
            out.push((e.id, Side::Sell, e.price));
            k += 1;
        }
        out
    }

    /// Highest resting buy price (best bid), if any.
    pub fn best_bid(&self) -> (r: Option<Decimal>)
        ensures
            match r {
                Some(p) => self@.bids.len() > 0 && p@ == self@.bids[0].price,
                None => self@.bids.len() == 0,
            },
    {
        self.bids.best()
    }

    /// Lowest resting sell price (best ask), if any.
    pub fn best_ask(&self) -> (r: Option<Decimal>)
        ensures
            match r {
                Some(p) => self@.asks.len() > 0 && p@ == self@.asks[0].price,
                None => self@.asks.len() == 0,
            },
    {
        self.asks.best()
    }

    /// Total open quantity at the (side, price) cell.
    pub fn depth_at(&self, side: Side, price: Decimal) -> (r: Decimal)
        requires
            side != Side::Unspecified ==> exists|g: nat| summable(queue_of(self@, side), g),
        ensures
            r@ == depth(queue_of(self@, side), price@),
    {
        match side {
            Side::Buy => self.bids.depth(price),
            Side::Sell => self.asks.depth(price),
            Side::Unspecified => Decimal::zero(),
        }
    }

    /// True iff `id` is on the book.
    pub fn contains(&self, id: OrderId) -> (r: bool)
        requires
            self.wf(),
        ensures
            r == rests(self@, id.0),
    {
        self.bids.find(id).is_some() || self.asks.find(id).is_some()
    }

    /// What an order has open on the book; nothing where it is not on it.
    pub fn open_of(&self, id: OrderId) -> (r: Decimal)
        requires
            self.wf(),
        ensures
            r@ == if has_id(self@.bids, id.0) {
                self@.bids[place_of(self@.bids, id.0)].open
            } else if has_id(self@.asks, id.0) {
                self@.asks[place_of(self@.asks, id.0)].open
            } else {
                0
            },
    {
        match self.bids.find(id) {
            Some(i) => self.bids.entries[i].open_qty,
            None => match self.asks.find(id) {
                Some(i) => self.asks.entries[i].open_qty,
                None => Decimal::zero(),
            },
        }
    }

    /// True iff nothing rests.
    pub fn is_empty(&self) -> (r: bool)
        ensures
            r == (self@ == empty_book()),
    {
        assert(self@.bids.len() == 0 ==> self@.bids =~= Seq::<EntryV>::empty());
        assert(self@.asks.len() == 0 ==> self@.asks =~= Seq::<EntryV>::empty());
        self.bids.entries.len() == 0 && self.asks.entries.len() == 0
    }

    /// The number of resting orders.
    pub fn len(&self) -> (r: usize)
        requires
            self@.bids.len() + self@.asks.len() <= usize::MAX,
        ensures
            r == self@.bids.len() + self@.asks.len(),
    {
        self.bids.entries.len() + self.asks.entries.len()
    }

    /// Total opposite-side depth at-or-better-than `taker_price`.
    pub fn marketable_depth(&self, taker: Side, taker_price: Decimal) -> (r: Decimal)
        requires
            self.wf(),
            taker != Side::Unspecified ==> exists|g: nat|
                summable(queue_of(self@, other_side(taker)), g),
        ensures
            r@ == reachable(taker, taker_price@, queue_of(self@, other_side(taker))),
    {
        match taker {
            Side::Buy => self.asks.reachable(taker, taker_price),
            Side::Sell => self.bids.reachable(taker, taker_price),
            Side::Unspecified => Decimal::zero(),
        }
    }

    /// What of `qty` a taker with this limit cannot reach on this book.
    pub fn short_of(&self, taker: Side, taker_price: Decimal, qty: Decimal) -> (r: Decimal)
        requires
            self.wf(),
            exists|g: nat|
                amount_fits(qty@, g) && reach_on_grid(
                    taker,
                    taker_price@,
                    queue_of(self@, other_side(taker)),
                    g,
                ),
        ensures
            r@ == lack(
                reachable(taker, taker_price@, queue_of(self@, other_side(taker))),
                qty@,
            ),
    {
        match taker {
            Side::Buy => self.asks.short_of(taker, taker_price, qty),
            Side::Sell => self.bids.short_of(taker, taker_price, qty),
            Side::Unspecified => qty,
        }
    }

    /// Sum of the open quantity across every resting entry on both sides.
    pub fn total_open_qty(&self) -> (r: Decimal)
        requires
            exists|g: nat| book_summable(self@, g),
        ensures
            r@ == total(self@.bids) + total(self@.asks),
    {
        let ghost g = choose|g: nat| book_summable(self@, g);
        let bid = self.bids.total();
        let ask = self.asks.total();
        proof {
            assert(summable(self@.bids, g) && summable(self@.asks, g));
            lemma_total_on_grid(self@.bids, g);
            lemma_total_on_grid(self@.asks, g);
            lemma_grid_closed(total(self@.bids), total(self@.asks), g);
            lemma_sum_fits(total(self@.bids) + total(self@.asks), g);
        }
        bid.plus(ask)
    }

    /// Best opposite-side price for a `taker` order. Buyer's best opposite is
    /// the lowest ask; seller's is the highest bid.
    pub fn peek_opposite(&self, taker: Side) -> (r: Option<Decimal>)
        ensures
            match r {
                Some(p) => queue_of(self@, other_side(taker)).len() > 0 && p@ == queue_of(
                    self@,
                    other_side(taker),
                )[0].price,
                None => queue_of(self@, other_side(taker)).len() == 0,
            },
    {
        match taker {
            Side::Buy => self.asks.best(),
            Side::Sell => self.bids.best(),
            Side::Unspecified => None,
        }
    }
}

impl Clone for OrderBook {
    fn clone(&self) -> (r: Self)
        ensures
            r@ == self@,
    {
        OrderBook { bids: self.bids.copy(), asks: self.asks.copy() }
    }
}

impl OrderBook {
    /// Consume up to `max_qty` from the front of the best opposite-side
    /// level. An entry with nothing left open leaves the book.
    ///
    /// Returns `(level_price, maker_id, open_before, taken, fully_consumed)`.
    /// `open_before` is the resting entry's quantity before this consume.
    /// None when the opposite side is empty.
    pub fn consume_front(&mut self, taker: Side, max_qty: Decimal) -> (r: Option<
        (Decimal, OrderId, Decimal, Decimal, bool),
    >)
        requires
            old(self).wf(),
            queue_of(old(self)@, other_side(taker)).len() > 0 ==> representable(
                queue_of(old(self)@, other_side(taker))[0].open - lesser(
                    max_qty@,
                    queue_of(old(self)@, other_side(taker))[0].open,
                ),
            ),
        ensures
            final(self).wf(),
            ({
                let side = other_side(taker);
                let q = queue_of(old(self)@, side);
                match r {
                    Some((price, id, open_before, taken, fully)) => {
                        &&& q.len() > 0
                        &&& price@ == q[0].price
                        &&& id.0 == q[0].id
                        &&& open_before@ == q[0].open
                        &&& taken@ == lesser(max_qty@, q[0].open)
                        &&& fully == (q[0].open <= max_qty@)
                        &&& final(self)@ == with_queue(
                            old(self)@,
                            side,
                            front_taken(q, max_qty@),
                        )
                    },
                    None => q.len() == 0 && final(self)@ == old(self)@,
                }
            }),
    {
        proof {
            if queue_of(self@, other_side(taker)).len() > 0 {
                lemma_front_taken_wf(self@, other_side(taker), max_qty@);
            }
        }
        match taker {
            Side::Buy => self.asks.consume(max_qty),
            Side::Sell => self.bids.consume(max_qty),
            Side::Unspecified => None,
        }
    }

    /// The opposite-side entries a taker with this limit can reach, in the
    /// order it would take them: (id, price, open quantity).
    pub fn marketable_orders(&self, taker: Side, taker_price: Decimal) -> (r: Vec<
        (OrderId, Decimal, Decimal),
    >)
        ensures
            ({
                let m = marketable(taker, taker_price@, queue_of(self@, other_side(taker)));
                &&& r@.len() == m.len()
                &&& forall|i: int|
                    0 <= i < m.len() ==> {
                        &&& (#[trigger] r@[i]).0.0 == m[i].id
                        &&& r@[i].1@ == m[i].price
                        &&& r@[i].2@ == m[i].open
                    }
            }),
    {
        match taker {
            Side::Buy => self.asks.marketable(taker, taker_price),
            Side::Sell => self.bids.marketable(taker, taker_price),
            Side::Unspecified => Vec::new(),
        }
    }

    /// Every resting entry as (id, side, price, open quantity): the bids from
    /// the lowest price up, then the asks from the lowest price up, each
    /// price level in order of arrival.
    pub fn iter_with_quantity(&self) -> (r: Vec<(OrderId, Side, Decimal, Decimal)>)
        ensures
            r@.len() == book_listing(self@).len(),
            forall|i: int|
                0 <= i < r@.len() ==> {
                    let (side, e) = book_listing(self@)[i];
                    &&& (#[trigger] r@[i]).0.0 == e.id
                    &&& r@[i].1 == side
                    &&& r@[i].2@ == e.price
                    &&& r@[i].3@ == e.open
                },
    {
        let mut out: Vec<(OrderId, Side, Decimal, Decimal)> = Vec::new();
        let ghost up = levels_reversed(self@.bids);
        let bids_up = self.bids.levels_up();
        let mut i: usize = 0;
        while i < bids_up.entries.len()
            invariant
                i <= bids_up.entries@.len(),
                bids_up@ == up,
                up.len() == bids_up.entries@.len(),
                out@.len() == i,
                forall|j: int|
                    0 <= j < i ==> {
                        &&& (#[trigger] out@[j]).0.0 == up[j].id
                        &&& out@[j].1 == Side::Buy
                        &&& out@[j].2@ == up[j].price
                        &&& out@[j].3@ == up[j].open
                    },
            decreases bids_up.entries@.len() - i,
        {
            let e = bids_up.entries[i];
            assert(up[i as int] == e@);
            out.push((e.id, Side::Buy, e.price, e.open_qty));
            i += 1;
        }
        let ghost n = up.len() as int;
        let mut k: usize = 0;
        while k < self.asks.entries.len()
            invariant
                k <= self.asks.entries@.len(),
                self@.asks.len() == self.asks.entries@.len(),
                n == up.len(),
                out@.len() == n + k,
                forall|i: int|
                    0 <= i < n ==> {
                        &&& (#[trigger] out@[i]).0.0 == up[i].id
                        &&& out@[i].1 == Side::Buy
                        &&& out@[i].2@ == up[i].price
                        &&& out@[i].3@ == up[i].open
                    },
                forall|i: int|
                    n <= i < out@.len() ==> {
                        &&& (#[trigger] out@[i]).0.0 == self@.asks[i - n].id
                        &&& out@[i].1 == Side::Sell
                        &&& out@[i].2@ == self@.asks[i - n].price
                        &&& out@[i].3@ == self@.asks[i - n].open
                    },
            decreases self.asks.entries@.len() - k,
        {
            let e = self.asks.entries[k];
            assert(self@.asks[k as int] == e@);
            out.push((e.id, Side::Sell, e.price, e.open_qty));
            k += 1;
        }
        out
    }
}

impl Queue {
    /// Rewrite the open quantity of the entry at `i`.
    fn set_open(&mut self, i: usize, open_qty: Decimal)
        requires
            i < old(self)@.len(),
        ensures
            final(self)@ == old(self)@.update(
                i as int,
                EntryV { open: open_qty@, ..old(self)@[i as int] },
            ),
    {
        let e = self.entries[i];
        self.entries[i] = Entry { id: e.id, price: e.price, open_qty };
        assert(self@ =~= old(self)@.update(
            i as int,
            EntryV { open: open_qty@, ..old(self)@[i as int] },
        ));
    }

    /// A copy of the queue.
    fn copy(&self) -> (r: Queue)
        ensures
            r@ == self@,
    {
        let mut out = Queue::new();
        let mut i: usize = 0;
        while i < self.entries.len()
            invariant
                i <= self.entries@.len(),
                self@.len() == self.entries@.len(),
                out@ == self@.take(i as int),
            decreases self.entries@.len() - i,
        {
            let e = self.entries[i];
            assert(self@[i as int] == e@);
            out.push(e);
            i += 1;
            assert(out@ =~= self@.take(i as int));
        }
        assert(out@ =~= self@);
        out
    }

    /// The queue with its price levels in reverse, each level in order.
    fn levels_up(&self) -> (r: Queue)
        ensures
            r@ == levels_reversed(self@),
    {
        let ghost q = self@;
        let mut out = Queue::new();
        let mut end: usize = self.entries.len();
        assert(q.take(end as int) =~= q);
        assert(out@ + levels_reversed(q.take(end as int)) =~= levels_reversed(q));
        while end > 0
            invariant
                end <= self.entries@.len(),
                q == self@,
                q.len() == self.entries@.len(),
                out@ + levels_reversed(q.take(end as int)) == levels_reversed(q),
            decreases end,
        {
            let start = self.level_start(end);
            let ghost part = q.take(end as int);
            let ghost before = out@;
            assert(part.take(start as int) =~= q.take(start as int));
            let mut i: usize = start;
            assert(before + part.subrange(start as int, start as int) =~= before);
            while i < end
                invariant
                    start <= i <= end <= self.entries@.len(),
                    q == self@,
                    q.len() == self.entries@.len(),
                    part == q.take(end as int),
                    out@ == before + part.subrange(start as int, i as int),
                decreases end - i,
            {
                let e = self.entries[i];
                assert(part[i as int] == e@);
                out.push(e);
                assert(part.subrange(start as int, i + 1) =~= part.subrange(
                    start as int,
                    i as int,
                ).push(e@));
                i += 1;
                assert(out@ =~= before + part.subrange(start as int, i as int));
            }
            assert(part.subrange(start as int, end as int) =~= part.skip(start as int));
            assert(out@ + levels_reversed(q.take(start as int)) =~= before + levels_reversed(part));
            end = start;
        }
        assert(levels_reversed(q.take(0)).len() == 0);
        assert(out@ + levels_reversed(q.take(0)) =~= out@);
        out
    }

    fn push(&mut self, entry: Entry)
        ensures
            final(self)@ == old(self)@.push(entry@),
    {
        self.entries.push(entry);
        assert(self@ =~= old(self)@.push(entry@));
    }

    /// Where the last price level of the first `end` entries begins.
    fn level_start(&self, end: usize) -> (r: usize)
        requires
            0 < end <= self@.len(),
        ensures
            r == last_level(self@.take(end as int)),
            r < end,
    {
        let ghost q = self@;
        let ghost part = q.take(end as int);
        let mut start: usize = end - 1;
        assert(part.take(start + 1) =~= part);
        while start > 0 && self.entries[start - 1].price.same(self.entries[start as usize].price)
            invariant
                start < end <= self.entries@.len(),
                q == self@,
                q.len() == self.entries@.len(),
                part == q.take(end as int),
                last_level(part) == last_level(part.take(start + 1)),
            decreases start,
        {
            let ghost sub = part.take(start + 1);
            assert(q[start - 1] == self.entries@[start - 1]@);
            assert(q[start as int] == self.entries@[start as int]@);
            assert(sub.drop_last() =~= part.take(start as int));
            start -= 1;
        }
        proof {
            let sub = part.take(start + 1);
            if start > 0 {
                assert(q[start - 1] == self.entries@[start - 1]@);
                assert(q[start as int] == self.entries@[start as int]@);
                assert(sub[sub.len() - 2] == q[start - 1]);
                assert(sub.last() == q[start as int]);
            }
        }
        start
    }

    fn consume(&mut self, max_qty: Decimal) -> (r: Option<(Decimal, OrderId, Decimal, Decimal, bool)>)
        requires
            old(self)@.len() > 0 ==> representable(
                old(self)@[0].open - lesser(max_qty@, old(self)@[0].open),
            ),
        ensures
            ({
                let q = old(self)@;
                match r {
                    Some((price, id, open_before, taken, fully)) => {
                        &&& q.len() > 0
                        &&& price@ == q[0].price
                        &&& id.0 == q[0].id
                        &&& open_before@ == q[0].open
                        &&& taken@ == lesser(max_qty@, q[0].open)
                        &&& fully == (q[0].open <= max_qty@)
                        &&& final(self)@ == front_taken(q, max_qty@)
                    },
                    None => q.len() == 0 && final(self)@ == q,
                }
            }),
    {
        if self.entries.len() == 0 {
            return None;
        }
        let ghost q = self@;
        let e = self.entries[0];
        assert(q[0] == e@);
        let taken = max_qty.min(e.open_qty);
        let left = e.open_qty.minus(taken);
        let fully = left.is_zero();
        if fully {
            let gone = self.entries.remove(0);
            assert(self@ =~= q.drop_first());
        } else {
            self.entries[0] = Entry { id: e.id, price: e.price, open_qty: left };
            assert(self@ =~= q.update(0, EntryV { open: left@, ..q[0] }));
        }
        Some((e.price, e.id, e.open_qty, taken, fully))
    }

    fn marketable(&self, taker: Side, limit: Decimal) -> (r: Vec<(OrderId, Decimal, Decimal)>)
        ensures
            ({
                let m = marketable(taker, limit@, self@);
                &&& r@.len() == m.len()
                &&& forall|i: int|
                    0 <= i < m.len() ==> {
                        &&& (#[trigger] r@[i]).0.0 == m[i].id
                        &&& r@[i].1@ == m[i].price
                        &&& r@[i].2@ == m[i].open
                    }
            }),
    {
        let ghost q = self@;
        let ghost m = marketable(taker, limit@, q);
        let mut out: Vec<(OrderId, Decimal, Decimal)> = Vec::new();
        let mut i: usize = 0;
        assert(q.skip(0) =~= q);
        assert(m =~= m.take(0) + marketable(taker, limit@, q.skip(0)));
        while i < self.entries.len() && price_crosses(taker, limit, self.entries[i].price)
            invariant
                i <= self.entries@.len(),
                q == self@,
                q.len() == self.entries@.len(),
                out@.len() == i,
                i <= m.len(),
                m == m.take(i as int) + marketable(taker, limit@, q.skip(i as int)),
                forall|k: int|
                    0 <= k < i ==> {
                        &&& (#[trigger] out@[k]).0.0 == m[k].id
                        &&& out@[k].1@ == m[k].price
                        &&& out@[k].2@ == m[k].open
                    },
            decreases self.entries@.len() - i,
        {
            let e = self.entries[i];
            let ghost t = q.skip(i as int);
            assert(q[i as int] == e@);
            assert(t[0] == e@);
            assert(t.drop_first() =~= q.skip(i + 1));
            assert(marketable(taker, limit@, t)[0] == e@);
            assert(m[i as int] == e@);
            out.push((e.id, e.price, e.open_qty));
            assert(m =~= m.take(i + 1) + marketable(taker, limit@, q.skip(i + 1)));
            i += 1;
        }
        proof {
            if i < q.len() {
                assert(q.skip(i as int)[0] == self.entries@[i as int]@);
            }
            assert(marketable(taker, limit@, q.skip(i as int)).len() == 0);
        }
        out
    }
}

/// An id found is the entry of that id.
pub proof fn lemma_place(q: Seq<EntryV>, id: u64, i: int)
    requires
        ids_distinct(q),
        0 <= i < q.len(),
        q[i].id == id,
    ensures
        has_id(q, id),
        place_of(q, id) == i,
{
    let j = place_of(q, id);
    assert(0 <= j < q.len() && q[j].id == id);
    if j < i {
        assert(q[j].id != q[i].id);
    } else if i < j {
        assert(q[i].id != q[j].id);
    }
}

pub proof fn lemma_total_nonnegative(q: Seq<EntryV>)
    requires
        forall|i: int| 0 <= i < q.len() ==> (#[trigger] q[i]).open >= 0,
    ensures
        total(q) >= 0,
    decreases q.len(),
{
    if q.len() > 0 {
        assert forall|i: int| 0 <= i < q.drop_first().len() implies (#[trigger]
        q.drop_first()[i]).open >= 0 by {
            assert(q.drop_first()[i] == q[i + 1]);
        }
        lemma_total_nonnegative(q.drop_first());
    }
}

proof fn lemma_tail_nonnegative(q: Seq<EntryV>, k: int)
    requires
        0 <= k <= q.len(),
        forall|i: int| 0 <= i < q.len() ==> (#[trigger] q[i]).open >= 0,
    ensures
        total(q.skip(k)) >= 0,
{
    assert forall|i: int| 0 <= i < q.skip(k).len() implies (#[trigger] q.skip(k)[i]).open >= 0 by {
        assert(q.skip(k)[i] == q[k + i]);
    }
    lemma_total_nonnegative(q.skip(k));
}

/// A non-negative value on a grid and below its limit is representable.
pub proof fn lemma_sum_fits(v: int, g: nat)
    requires
        on_grid(v, g),
        0 <= v < grid_limit(g),
    ensures
        representable(v),
{
    assert(crate::decimal::fits(v, g));
}

/// Zero is on every grid.
pub proof fn lemma_zero_on_grid(g: nat)
    requires
        g <= 28,
    ensures
        on_grid(0, g),
{
    lemma_pow10_positive((28 - g) as nat);
}

/// Past the first entry out of reach, nothing is in reach.
pub proof fn lemma_unreachable(taker: Side, limit: int, q: Seq<EntryV>)
    requires
        sorted(other_side(taker), q),
        q.len() > 0 ==> !crosses(taker, limit, q[0].price),
    ensures
        reachable(taker, limit, q) == 0,
    decreases q.len(),
{
    if q.len() > 0 {
        let rest = q.drop_first();
        if rest.len() > 0 {
            assert(rest[0] == q[1]);
            assert(!better(other_side(taker), q[1].price, q[0].price));
        }
        lemma_skip_sorted(other_side(taker), q, 1);
        assert(q.skip(1) =~= rest);
        lemma_unreachable(taker, limit, rest);
    }
}

/// The rest of a queue fits the grid where the queue does.
pub proof fn lemma_skip_on_grid(taker: Side, limit: int, q: Seq<EntryV>, k: int, g: nat)
    requires
        reach_on_grid(taker, limit, q, g),
        0 <= k <= q.len(),
    ensures
        reach_on_grid(taker, limit, q.skip(k), g),
{
    let t = q.skip(k);
    assert forall|i: int|
        0 <= i < t.len() && crosses(taker, limit, (#[trigger] t[i]).price) implies amount_fits(
        t[i].open,
        g,
    ) by {
        assert(t[i] == q[k + i]);
    }
}

/// What can be reached is on the grid and not negative.
pub proof fn lemma_reachable_on_grid(taker: Side, limit: int, q: Seq<EntryV>, g: nat)
    requires
        g <= 28,
        reach_on_grid(taker, limit, q, g),
    ensures
        on_grid(reachable(taker, limit, q), g),
        reachable(taker, limit, q) >= 0,
    decreases q.len(),
{
    lemma_zero_on_grid(g);
    if q.len() > 0 {
        let rest = q.drop_first();
        assert(q.skip(1) =~= rest);
        lemma_skip_on_grid(taker, limit, q, 1, g);
        lemma_reachable_on_grid(taker, limit, rest, g);
        if crosses(taker, limit, q[0].price) {
            assert(amount_fits(q[0].open, g));
            lemma_grid_closed(q[0].open, reachable(taker, limit, rest), g);
        }
    }
}

pub proof fn lemma_skip_sorted(side: Side, q: Seq<EntryV>, k: int)
    requires
        sorted(side, q),
        0 <= k <= q.len(),
    ensures
        sorted(side, q.skip(k)),
{
    let t = q.skip(k);
    assert forall|i: int, j: int| 0 <= i < j < t.len() implies !better(
        side,
        (#[trigger] t[j]).price,
        (#[trigger] t[i]).price,
    ) by {
        assert(t[i] == q[k + i] && t[j] == q[k + j]);
    }
}

pub proof fn lemma_total_on_grid(q: Seq<EntryV>, g: nat)
    requires
        g <= 28,
        forall|i: int| 0 <= i < q.len() ==> on_grid((#[trigger] q[i]).open, g) && q[i].open >= 0,
    ensures
        on_grid(total(q), g),
        total(q) >= 0,
    decreases q.len(),
{
    lemma_zero_on_grid(g);
    if q.len() > 0 {
        let rest = q.drop_first();
        assert forall|i: int| 0 <= i < rest.len() implies on_grid((#[trigger] rest[i]).open, g)
            && rest[i].open >= 0 by {
            assert(rest[i] == q[i + 1]);
        }
        lemma_total_on_grid(rest, g);
        assert(on_grid(q[0].open, g));
        lemma_grid_closed(q[0].open, total(rest), g);
    }
}

pub proof fn lemma_rank_bounds(side: Side, q: Seq<EntryV>, price: int)
    requires
        sorted(side, q),
    ensures
        0 <= rank(side, q, price) <= q.len(),
        forall|i: int|
            0 <= i < rank(side, q, price) ==> !better(side, price, (#[trigger] q[i]).price),
        side != Side::Unspecified ==> forall|i: int|
            rank(side, q, price) <= i < q.len() ==> better(side, price, (#[trigger] q[i]).price),
    decreases q.len(),
{
    if q.len() > 0 {
        let rest = q.drop_first();
        lemma_skip_sorted(side, q, 1);
        assert(q.skip(1) =~= rest);
        lemma_rank_bounds(side, rest, price);
        let k = rank(side, q, price);
        if better(side, price, q[0].price) {
            assert forall|i: int| 0 <= i < q.len() implies better(
                side,
                price,
                (#[trigger] q[i]).price,
            ) by {
                if i > 0 {
                    assert(!better(side, q[i].price, q[0].price));
                }
            }
        } else {
            assert forall|i: int| 0 <= i < k implies !better(
                side,
                price,
                (#[trigger] q[i]).price,
            ) by {
                if i > 0 {
                    assert(q[i] == rest[i - 1]);
                }
            }
            assert forall|i: int| k <= i < q.len() && side != Side::Unspecified implies better(
                side,
                price,
                (#[trigger] q[i]).price,
            ) by {
                assert(q[i] == rest[i - 1]);
            }
        }
    }
}

pub proof fn lemma_inserted_wf(b: BookV, side: Side, e: EntryV)
    requires
        book_wf(b),
    ensures
        book_wf(inserted(b, side, e)),
{
    if side != Side::Unspecified && !rests(b, e.id) {
        let q = queue_of(b, side);
        lemma_rank_bounds(side, q, e.price);
        let k = rank(side, q, e.price);
        let after = q.insert(k, e);
        assert forall|i: int, j: int| 0 <= i < j < after.len() implies !better(
            side,
            (#[trigger] after[j]).price,
            (#[trigger] after[i]).price,
        ) by {
            let pi = if i < k { i } else { i - 1 };
            let pj = if j < k { j } else { j - 1 };
            if i != k {
                assert(after[i] == q[pi]);
            }
            if j != k {
                assert(after[j] == q[pj]);
            }
            if i != k && j != k {
                assert(!better(side, q[pj].price, q[pi].price));
            }
        }
        assert forall|i: int| 0 <= i < after.len() && i != k implies #[trigger] after[i] == q[if i
            < k {
            i
        } else {
            i - 1
        }] by {}
        assert forall|i: int| 0 <= i < b.bids.len() implies (#[trigger] b.bids[i]).id != e.id by {}
        assert forall|i: int| 0 <= i < b.asks.len() implies (#[trigger] b.asks[i]).id != e.id by {}
        assert(ids_distinct(after));
    }
}

proof fn lemma_remove_keeps(side: Side, q: Seq<EntryV>, k: int)
    requires
        sorted(side, q),
        ids_distinct(q),
        0 <= k < q.len(),
    ensures
        sorted(side, q.remove(k)),
        ids_distinct(q.remove(k)),
        forall|i: int|
            0 <= i < q.len() - 1 ==> #[trigger] q.remove(k)[i] == q[if i < k {
                i
            } else {
                i + 1
            }],
{
    let after = q.remove(k);
    assert forall|i: int, j: int| 0 <= i < j < after.len() implies !better(
        side,
        (#[trigger] after[j]).price,
        (#[trigger] after[i]).price,
    ) && after[i].id != after[j].id by {
        let pi = if i < k { i } else { i + 1 };
        let pj = if j < k { j } else { j + 1 };
        assert(after[i] == q[pi] && after[j] == q[pj]);
    }
}

pub proof fn lemma_canceled_wf(b: BookV, id: u64)
    requires
        book_wf(b),
    ensures
        book_wf(canceled(b, id)),
        !rests(canceled(b, id), id),
{
    if has_id(b.bids, id) {
        lemma_remove_keeps(Side::Buy, b.bids, place_of(b.bids, id));
    }
    if has_id(b.asks, id) {
        lemma_remove_keeps(Side::Sell, b.asks, place_of(b.asks, id));
    }
    let after = canceled(b, id);
    if has_id(after.bids, id) {
        let j = place_of(after.bids, id);
        let k = place_of(b.bids, id);
        let pj = if j < k { j } else { j + 1 };
        assert(after.bids[j] == b.bids[pj]);
        lemma_place(b.bids, id, pj);
    }
    if has_id(after.asks, id) {
        let j = place_of(after.asks, id);
        let k = place_of(b.asks, id);
        let pj = if j < k { j } else { j + 1 };
        assert(after.asks[j] == b.asks[pj]);
        lemma_place(b.asks, id, pj);
    }
}

pub proof fn lemma_front_taken_wf(b: BookV, side: Side, qty: int)
    requires
        book_wf(b),
        queue_of(b, side).len() > 0,
    ensures
        book_wf(with_queue(b, side, front_taken(queue_of(b, side), qty))),
{
    let q = queue_of(b, side);
    let after = front_taken(q, qty);
    let d = q.len() - after.len();
    assert forall|i: int| 0 <= i < after.len() implies (#[trigger] after[i]).id == q[i + d].id
        && after[i].price == q[i + d].price by {}
    assert forall|i: int, j: int| 0 <= i < j < after.len() implies !better(
        side,
        (#[trigger] after[j]).price,
        (#[trigger] after[i]).price,
    ) && after[i].id != after[j].id by {
        assert(!better(side, q[j + d].price, q[i + d].price));
        assert(q[i + d].id != q[j + d].id);
    }
    assert(sorted(side, after));
    assert(ids_distinct(after));
}

/// Price-time priority: a new order stands behind every order at a price at
/// least as good as its own, and before every order at a worse price; the
/// others keep their order.
pub proof fn newcomer_joins_the_tail_of_its_level(b: BookV, side: Side, e: EntryV)
    requires
        book_wf(b),
        side != Side::Unspecified,
        !rests(b, e.id),
    ensures
        ({
            let q = queue_of(b, side);
            let after = queue_of(inserted(b, side, e), side);
            let k = rank(side, q, e.price);
            &&& 0 <= k <= q.len()
            &&& after == q.take(k) + seq![e] + q.skip(k)
            &&& forall|i: int| 0 <= i < k ==> !better(side, e.price, (#[trigger] q[i]).price)
            &&& forall|i: int|
                k <= i < q.len() ==> better(side, e.price, (#[trigger] q[i]).price)
        }),
{
    let q = queue_of(b, side);
    lemma_rank_bounds(side, q, e.price);
    let k = rank(side, q, e.price);
    assert(q.insert(k, e) =~= q.take(k) + seq![e] + q.skip(k));
}

/// Cancelling an order that was just inserted gives the book back.
pub proof fn cancel_undoes_insert(b: BookV, side: Side, e: EntryV)
    requires
        book_wf(b),
        side != Side::Unspecified,
        !rests(b, e.id),
    ensures
        rests(inserted(b, side, e), e.id),
        canceled(inserted(b, side, e), e.id) == b,
{
    let q = queue_of(b, side);
    lemma_rank_bounds(side, q, e.price);
    lemma_inserted_wf(b, side, e);
    let k = rank(side, q, e.price);
    let after = q.insert(k, e);
    assert(after[k] == e);
    lemma_place(after, e.id, k);
    assert(after.remove(k) =~= q);
}

/// Cancelling takes exactly the named order: it is gone, every other order
/// still rests, and a book without it is unchanged.
pub proof fn cancel_touches_one_order(b: BookV, id: u64, other: u64)
    requires
        book_wf(b),
    ensures
        !rests(canceled(b, id), id),
        other != id ==> (rests(canceled(b, id), other) <==> rests(b, other)),
        !rests(b, id) ==> canceled(b, id) == b,
{
    lemma_canceled_wf(b, id);
    lemma_without_keeps(b.bids, id, other);
    lemma_without_keeps(b.asks, id, other);
}

proof fn lemma_without_keeps(q: Seq<EntryV>, id: u64, other: u64)
    ensures
        other != id ==> (has_id(without(q, id), other) <==> has_id(q, other)),
{
    if has_id(q, id) && other != id {
        let k = place_of(q, id);
        let after = q.remove(k);
        assert forall|i: int| 0 <= i < after.len() implies #[trigger] after[i] == q[if i < k {
            i
        } else {
            i + 1
        }] by {}
        if has_id(after, other) {
            let j = place_of(after, other);
            assert(q[if j < k { j } else { j + 1 }].id == other);
        }
        if has_id(q, other) {
            let j = place_of(q, other);
            assert(after[if j < k { j } else { j - 1 }].id == other);
        }
    }
}

/// The first entry of a queue has its best price.
pub proof fn front_is_best(side: Side, q: Seq<EntryV>, i: int)
    requires
        sorted(side, q),
        0 <= i < q.len(),
    ensures
        !better(side, q[i].price, q[0].price),
{
}

pub proof fn lemma_resized_wf(b: BookV, id: u64, open: int)
    requires
        book_wf(b),
        rests(b, id),
    ensures
        book_wf(resized(b, id, open)),
{
    if open == 0 {
        lemma_canceled_wf(b, id);
    } else {
        let side = side_of(b, id);
        let q = queue_of(b, side);
        let i = place_of(q, id);
        let after = q.update(i, EntryV { open, ..q[i] });
        assert forall|k: int| 0 <= k < after.len() implies (#[trigger] after[k]).id == q[k].id
            && after[k].price == q[k].price by {}
        assert(sorted(side, after));
        assert(ids_distinct(after));
    }
}

/// Rewriting an open quantity keeps every order in its place.
pub proof fn resize_keeps_priority(b: BookV, id: u64, open: int, side: Side, k: int)
    requires
        book_wf(b),
        rests(b, id),
        open != 0,
        side != Side::Unspecified,
        0 <= k < queue_of(b, side).len(),
    ensures
        queue_of(resized(b, id, open), side).len() == queue_of(b, side).len(),
        queue_of(resized(b, id, open), side)[k].id == queue_of(b, side)[k].id,
        queue_of(resized(b, id, open), side)[k].price == queue_of(b, side)[k].price,
        queue_of(resized(b, id, open), side)[k].open == (if queue_of(b, side)[k].id == id {
            open
        } else {
            queue_of(b, side)[k].open
        }),
{
    let at = side_of(b, id);
    let q = queue_of(b, at);
    let i = place_of(q, id);
    assert(q[i].id == id);
    if side == at {
        if q[k].id == id {
            lemma_place(q, id, k);
        }
    } else if queue_of(b, side)[k].id == id {
        if at == Side::Buy {
            assert(b.bids[i].id != b.asks[k].id);
        } else {
            assert(has_id(b.bids, id));
        }
    }
}

impl OrderBook {
    /// The number of orders on one side.
    pub fn len_of(&self, side: Side) -> (r: usize)
        ensures
            r == queue_of(self@, side).len(),
    {
        match side {
            Side::Buy => self.bids.entries.len(),
            Side::Sell => self.asks.entries.len(),
            Side::Unspecified => 0,
        }
    }
}

} // verus!
