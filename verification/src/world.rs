//! The single owner of mutable exchange state: markets, gridpools, couplings,
//! one order book per contract, and the id sequences.

mod cancel;
mod crossing;
mod expiry;
mod modify;
pub mod placing;
mod record;
mod room;
mod submit;

use crate::book::{levels_reversed, OrderBook};
use crate::decimal::{representable, Decimal};
use crate::gridpool::{lemma_stored_pools_wf, Gridpool, GridpoolRegistry};
use crate::market::{Area, AreaV, Currency, DeliveryPeriod, MarketRegistry, RulesV};
use crate::model::{
    book_at, book_record, book_snapshot, bound_to, canonical, capacity, capacity_left, coupled,
    couplings_with, created_at, directions, emitted, flow, flows_with, half_coupled,
    order_published, public_traded, ring_with, snapshot, world_wf, BookEvent, CouplingV,
    HISTORY_CAP, KeyV, OutboxV, UpdateV, WorldV,
};
use crate::order::{view_option, DetailV, GridpoolId, OrderDetail, OrderId, Side};
use crate::proto_conv::{
    area_to_proto, period_to_proto, power_to_proto, price_to_proto, timestamp_to_proto, WireEnum,
};
use crate::table::{holds, lemma_stored, lemma_views_push, stored, value_at, views, Key, Table};
use crate::text::text_not_after;
use crate::time::{Offset, Timestamp};
use crate::trade::{PublicTrade, PublicTradeV, Trade, TradeId, TradeV};
use crate::wire::{PublicOrderBookRecord, RecordV};
use std::collections::{HashMap, VecDeque};
use vstd::prelude::*;

verus! {

broadcast use vstd::std_specs::hash::group_hash_axioms;

/// (delivery area, delivery period): the identity of a contract.
#[derive(Debug)]
pub struct ContractKey {
    pub area: Area,
    pub period: DeliveryPeriod,
}

impl View for ContractKey {
    type V = KeyV;

    open spec fn view(&self) -> KeyV {
        KeyV { area: self.area@, period: self.period }
    }
}

impl Clone for ContractKey {
    fn clone(&self) -> (r: Self)
        ensures
            r@ == self@,
    {
        ContractKey { area: self.area.clone(), period: self.period }
    }
}

impl PartialEq for ContractKey {
    fn eq(&self, other: &ContractKey) -> (r: bool) {
        self.area == other.area && self.period == other.period
    }
}

impl vstd::std_specs::cmp::PartialEqSpecImpl for ContractKey {
    open spec fn obeys_eq_spec() -> bool {
        true
    }

    open spec fn eq_spec(&self, other: &ContractKey) -> bool {
        self@ == other@
    }
}

impl Eq for ContractKey {

}

impl Key for ContractKey {
    fn same_key(&self, other: &Self) -> (r: bool) {
        *self == *other
    }
}

/// One symmetric coupling edge: the cross-border gate, and an optional
/// capacity per contract.
#[derive(Clone, Copy, Debug)]
pub struct Coupling {
    pub gate_offset: Offset,
    /// Max MWh that can flow across this edge for a single contract. `None`
    /// = unlimited.
    pub capacity_mw: Option<Decimal>,
}

impl View for Coupling {
    type V = CouplingV;

    open spec fn view(&self) -> CouplingV {
        CouplingV {
            gate_offset: self.gate_offset,
            capacity_mw: crate::order::view_option(self.capacity_mw),
        }
    }
}

/// An edge and a delivery period: what a flow is counted for.
#[derive(Debug)]
struct Edge {
    lo: Area,
    hi: Area,
    period: DeliveryPeriod,
}

impl View for Edge {
    type V = (AreaV, AreaV, DeliveryPeriod);

    closed spec fn view(&self) -> (AreaV, AreaV, DeliveryPeriod) {
        (self.lo@, self.hi@, self.period)
    }
}

impl Key for Edge {
    fn same_key(&self, other: &Self) -> (r: bool) {
        self.lo == other.lo && self.hi == other.hi && self.period == other.period
    }
}

/// An order update for a gridpool.
#[derive(Debug)]
pub struct OrderEvent {
    pub gridpool_id: GridpoolId,
    pub detail: OrderDetail,
}

impl View for OrderEvent {
    type V = (u64, DetailV);

    open spec fn view(&self) -> (u64, DetailV) {
        (self.gridpool_id.0, self.detail@)
    }
}

/// A trade for a gridpool.
#[derive(Debug)]
pub struct TradeEvent {
    pub gridpool_id: GridpoolId,
    pub trade: Trade,
}

impl View for TradeEvent {
    type V = (u64, TradeV);

    open spec fn view(&self) -> (u64, TradeV) {
        (self.gridpool_id.0, self.trade@)
    }
}

/// What is to be sent on to subscribers, in order.
#[derive(Debug)]
pub struct Outbox {
    /// Order updates, for the subscribers of their gridpool.
    pub orders: Vec<OrderEvent>,
    /// Private trades, for the subscribers of their gridpool.
    pub trades: Vec<TradeEvent>,
    /// The public trade tape.
    pub public_trades: Vec<PublicTrade>,
    /// The public book tape.
    pub book_records: Vec<PublicOrderBookRecord>,
}

impl View for Outbox {
    type V = OutboxV;

    open spec fn view(&self) -> OutboxV {
        OutboxV {
            orders: views(self.orders@),
            trades: views(self.trades@),
            public_trades: views(self.public_trades@),
            book_records: views(self.book_records@),
        }
    }
}

/// Nothing to send.
pub open spec fn empty_outbox() -> OutboxV {
    OutboxV {
        orders: Seq::empty(),
        trades: Seq::empty(),
        public_trades: Seq::empty(),
        book_records: Seq::empty(),
    }
}

impl Outbox {
    /// Nothing to send.
    pub fn new() -> (r: Self)
        ensures
            r@ == empty_outbox(),
    {
        let r = Outbox {
            orders: Vec::new(),
            trades: Vec::new(),
            public_trades: Vec::new(),
            book_records: Vec::new(),
        };
        assert(r@.orders =~= Seq::<(u64, DetailV)>::empty());
        assert(r@.trades =~= Seq::<(u64, TradeV)>::empty());
        assert(r@.public_trades =~= Seq::<PublicTradeV>::empty());
        assert(r@.book_records =~= Seq::<RecordV>::empty());
        r
    }
}

/// The state of the exchange.
pub struct World {
    pub(crate) markets: MarketRegistry,
    pub(crate) gridpools: GridpoolRegistry,
    /// Couplings between delivery areas. Symmetric: if A to B is here, B to A
    /// is too.
    pub(crate) couplings: Table<Area, Table<Area, Coupling>>,
    /// Total MWh that has crossed an edge for a delivery period.
    coupling_fills: Table<Edge, Decimal>,
    /// In-memory replay ring for public trades.
    public_trade_history: VecDeque<PublicTrade>,
    /// In-memory replay ring for public order book records.
    public_book_history: VecDeque<PublicOrderBookRecord>,
    /// First-seen timestamp per resting order id.
    book_first_seen: HashMap<u64, Timestamp>,
    pub(crate) books: Table<ContractKey, OrderBook>,
    /// The gridpool that owns a resting order.
    order_to_gridpool: HashMap<u64, u64>,
    /// Monotonic source of order ids.
    next_order_id: u64,
    /// Monotonic source of trade ids. Each fill produces one public trade and
    /// up to two private ones, all under one id.
    next_trade_id: u64,
    /// While set, every submission is rejected.
    market_suspended: bool,
    outbox: Outbox,
}

impl View for World {
    type V = WorldV;

    closed spec fn view(&self) -> WorldV {
        WorldV {
            markets: self.markets@,
            gridpools: self.gridpools@,
            couplings: self.couplings@,
            flows: self.coupling_fills@,
            books: self.books@,
            owners: self.order_to_gridpool@,
            first_seen: self.book_first_seen@,
            next_order_id: self.next_order_id,
            next_trade_id: self.next_trade_id,
            suspended: self.market_suspended,
            trade_history: views(self.public_trade_history@),
            book_history: views(self.public_book_history@),
            outbox: self.outbox@,
        }
    }
}

/// The exchange as it starts: these markets, and nothing else.
pub open spec fn fresh_world(markets: Seq<(AreaV, RulesV)>) -> WorldV {
    WorldV {
        markets,
        gridpools: Seq::empty(),
        couplings: Seq::empty(),
        flows: Seq::empty(),
        books: Seq::empty(),
        owners: Map::empty(),
        first_seen: Map::empty(),
        next_order_id: 1,
        next_trade_id: 1,
        suspended: false,
        trade_history: Seq::empty(),
        book_history: Seq::empty(),
        outbox: empty_outbox(),
    }
}

/// The two areas with the lexically smaller code first, so that either way
/// round they name the same edge.
pub fn canon_pair(a: &Area, b: &Area) -> (r: (Area, Area))
    ensures
        (r.0@, r.1@) == canonical(a@, b@),
{
    if text_not_after(a.code.as_str(), b.code.as_str()) {
        (a.clone(), b.clone())
    } else {
        (b.clone(), a.clone())
    }
}

impl World {
    /// Each table has a key at most once, no area is coupled with itself,
    /// every price tick and quantity step is positive, and every book and
    /// gridpool is well-formed.
    pub open spec fn wf(&self) -> bool {
        world_wf(self@)
    }

    /// An exchange with these markets, and nothing else.
    pub fn new(markets: MarketRegistry) -> (r: Self)
        requires
            markets.wf(),
            forall|i: int|
                0 <= i < markets@.len() ==> (#[trigger] markets@[i]).1.price_tick > 0
                    && markets@[i].1.qty_step > 0,
        ensures
            r@ == fresh_world(markets@),
            r.wf(),
    {
        let r = World {
            markets,
            gridpools: GridpoolRegistry::new(),
            couplings: Table::new(),
            coupling_fills: Table::new(),
            public_trade_history: VecDeque::new(),
            public_book_history: VecDeque::new(),
            book_first_seen: HashMap::new(),
            books: Table::new(),
            order_to_gridpool: HashMap::new(),
            next_order_id: 1,
            next_trade_id: 1,
            market_suspended: false,
            outbox: Outbox::new(),
        };
        assert(r@.trade_history =~= Seq::<PublicTradeV>::empty());
        assert(r@.book_history =~= Seq::<RecordV>::empty());
        r
    }

    /// Reject every submission from now on.
    pub fn suspend_market(&mut self)
        ensures
            final(self)@ == (WorldV { suspended: true, ..old(self)@ }),
    {
        self.market_suspended = true;
    }

    /// Accept submissions again.
    pub fn resume_market(&mut self)
        ensures
            final(self)@ == (WorldV { suspended: false, ..old(self)@ }),
    {
        self.market_suspended = false;
    }

    /// Whether every submission is rejected.
    pub fn is_market_suspended(&self) -> (r: bool)
        ensures
            r == self@.suspended,
    {
        self.market_suspended
    }

    /// Take what is to be sent on; the outbox is empty afterwards.
    pub fn take_outbox(&mut self) -> (r: Outbox)
        ensures
            r@ == old(self)@.outbox,
            final(self)@ == (WorldV { outbox: empty_outbox(), ..old(self)@ }),
    {
        let mut out = Outbox::new();
        std::mem::swap(&mut out, &mut self.outbox);
        out
    }

    /// The markets.
    pub fn markets(&self) -> (r: &MarketRegistry)
        ensures
            r@ == self@.markets,
    {
        &self.markets
    }

    /// The gridpools.
    pub fn gridpools(&self) -> (r: &GridpoolRegistry)
        ensures
            r@ == self@.gridpools,
    {
        &self.gridpools
    }

    /// The gridpools, to be changed in place.
    pub fn gridpools_mut(&mut self) -> (r: &mut GridpoolRegistry)
        ensures
            (*r)@ == old(self)@.gridpools,
            final(self)@ == (WorldV { gridpools: (*final(r))@, ..old(self)@ }),
    {
        &mut self.gridpools
    }

    /// Register a gridpool under its id.
    pub fn register_gridpool(&mut self, gp: Gridpool)
        requires
            old(self).wf(),
            gp.wf(),
        ensures
            final(self)@ == (WorldV {
                gridpools: stored(old(self)@.gridpools, gp@.id, gp@),
                ..old(self)@
            }),
            final(self).wf(),
    {
        proof {
            lemma_stored_pools_wf(self@.gridpools, gp@);
        }
        self.gridpools.insert(gp);
    }

    /// The public-trade history ring, oldest first.
    pub fn public_trade_history(&self) -> (r: Vec<PublicTrade>)
        ensures
            views(r@) == self@.trade_history,
    {
        let mut out: Vec<PublicTrade> = Vec::new();
        let mut i: usize = 0;
        while i < self.public_trade_history.len()
            invariant
                i <= self.public_trade_history@.len(),
                views(out@) == self@.trade_history.take(i as int),
            decreases self.public_trade_history@.len() - i,
        {
            let t = self.public_trade_history[i].clone();
            proof {
                lemma_views_push(out@, t);
            }
            out.push(t);
            i += 1;
            assert(views(out@) =~= self@.trade_history.take(i as int));
        }
        assert(views(out@) =~= self@.trade_history);
        out
    }

    /// The public-book history ring, oldest first.
    pub fn public_book_history(&self) -> (r: Vec<PublicOrderBookRecord>)
        ensures
            views(r@) == self@.book_history,
    {
        let mut out: Vec<PublicOrderBookRecord> = Vec::new();
        let mut i: usize = 0;
        while i < self.public_book_history.len()
            invariant
                i <= self.public_book_history@.len(),
                views(out@) == self@.book_history.take(i as int),
            decreases self.public_book_history@.len() - i,
        {
            let t = self.public_book_history[i].clone();
            proof {
                lemma_views_push(out@, t);
            }
            out.push(t);
            i += 1;
            assert(views(out@) =~= self@.book_history.take(i as int));
        }
        assert(views(out@) =~= self@.book_history);
        out
    }

    /// Register a symmetric coupling between two delivery areas.
    /// `gate_offset` is the lead time before delivery at which the coupling
    /// closes; zero for couplings within a zone. `capacity_mw` is an optional
    /// cap per contract. An area is not coupled with itself.
    pub fn add_coupling(
        &mut self,
        a: Area,
        b: Area,
        gate_offset: Offset,
        capacity_mw: Option<Decimal>,
    )
        requires
            old(self).wf(),
        ensures
            final(self)@ == (WorldV {
                couplings: couplings_with(
                    old(self)@.couplings,
                    a@,
                    b@,
                    (CouplingV {
                        gate_offset,
                        capacity_mw: crate::order::view_option(capacity_mw),
                    }),
                ),
                ..old(self)@
            }),
            final(self).wf(),
    {
        if a == b {
            return;
        }
        let coupling = Coupling { gate_offset, capacity_mw };
        self.couple(a.clone(), b.clone(), coupling);
        self.couple(b, a, coupling);
    }

    /// One direction of a coupling.
    fn couple(&mut self, a: Area, b: Area, c: Coupling)
        requires
            old(self).wf(),
            a@ != b@,
        ensures
            final(self)@ == (WorldV {
                couplings: half_coupled(old(self)@.couplings, a@, b@, c@),
                ..old(self)@
            }),
            final(self).wf(),
    {
        let ghost before = self.couplings@;
        proof {
            let row = if holds(before, a@) {
                value_at(before, a@)
            } else {
                Seq::empty()
            };
            lemma_stored(row, b@, c@);
            lemma_stored(before, a@, stored(row, b@, c@));
        }
        let row = self.couplings.slot_mut(a, Table::new());
        row.put(b, c);
    }

    /// Coupled areas with the full coupling record for each.
    pub fn coupled_areas(&self, area: &Area) -> (r: Vec<(Area, Coupling)>)
        requires
            self.wf(),
        ensures
            views_of_pairs(r@) == coupled(self@, area@),
    {
        let mut out: Vec<(Area, Coupling)> = Vec::new();
        match self.couplings.get(area) {
            Some(row) => {
                let mut i: usize = 0;
                while i < row.len()
                    invariant
                        i <= row@.len(),
                        out@.len() == i,
                        forall|j: int|
                            0 <= j < i ==> ((#[trigger] out@[j]).0@, out@[j].1@) == row@[j],
                    decreases row@.len() - i,
                {
                    out.push((row.key_at(i).clone(), *row.at(i)));
                    i += 1;
                }
                assert(views_of_pairs(out@) =~= row@);
            },
            None => {
                assert(views_of_pairs(out@) =~= coupled(self@, area@));
            },
        }
        out
    }

    /// Number of distinct undirected coupling edges. Each edge is stored in
    /// both directions.
    pub fn coupling_count(&self) -> (r: usize)
        requires
            directions(self@.couplings, self@.couplings.len()) <= usize::MAX,
        ensures
            r == directions(self@.couplings, self@.couplings.len()) / 2,
    {
        let mut n: usize = 0;
        let mut i: usize = 0;
        while i < self.couplings.len()
            invariant
                i <= self.couplings@.len(),
                self.couplings@ == self@.couplings,
                n == directions(self@.couplings, i as nat),
                directions(self@.couplings, self@.couplings.len()) <= usize::MAX,
            decreases self.couplings@.len() - i,
        {
            proof {
                lemma_directions_grow(self@.couplings, (i + 1) as nat, self@.couplings.len());
            }
            n += self.couplings.at(i).len();
            i += 1;
        }
        n / 2
    }

    /// The coupling from `a` to `b`, if there is one.
    fn coupling(&self, a: &Area, b: &Area) -> (r: Option<Coupling>)
        requires
            self.wf(),
        ensures
            match r {
                Some(c) => holds(coupled(self@, a@), b@) && c@ == value_at(coupled(self@, a@), b@),
                None => !holds(coupled(self@, a@), b@),
            },
    {
        match self.couplings.get(a) {
            Some(row) => match row.get(b) {
                Some(c) => Some(*c),
                None => None,
            },
            None => None,
        }
    }

    /// What has crossed the edge between `a` and `b` for a delivery period.
    fn crossed_so_far(&self, a: &Area, b: &Area, period: DeliveryPeriod) -> (r: Decimal)
        requires
            self.wf(),
        ensures
            r@ == flow(self@, a@, b@, period),
    {
        let (lo, hi) = canon_pair(a, b);
        match self.coupling_fills.get(&Edge { lo, hi, period }) {
            Some(used) => *used,
            None => Decimal::zero(),
        }
    }

    /// MWh remaining on the (a, b) edge for the given contract. `None` when
    /// the edge is uncapped.
    pub fn remaining_capacity(&self, a: &Area, b: &Area, period: DeliveryPeriod) -> (r: Option<
        Decimal,
    >)
        requires
            self.wf(),
            capacity(self@, a@, b@) matches Some(cap) ==> representable(
                cap - flow(self@, a@, b@, period),
            ),
        ensures
            crate::order::view_option(r) == capacity_left(self@, a@, b@, period),
    {
        match self.coupling(a, b) {
            Some(c) => match c.capacity_mw {
                Some(cap) => {
                    let used = self.crossed_so_far(a, b, period);
                    Some(cap.minus(used).max(Decimal::zero()))
                },
                None => None,
            },
            None => None,
        }
    }

    /// Count `mw` more on the edge between `a` and `b`.
    fn debit_capacity(&mut self, a: &Area, b: &Area, period: DeliveryPeriod, mw: Decimal)
        requires
            old(self).wf(),
            representable(flow(old(self)@, a@, b@, period) + mw@),
        ensures
            final(self)@ == (WorldV {
                flows: flows_with(old(self)@, a@, b@, period, mw@),
                ..old(self)@
            }),
            final(self).wf(),
    {
        let used = self.crossed_so_far(a, b, period);
        let (lo, hi) = canon_pair(a, b);
        self.coupling_fills.put(Edge { lo, hi, period }, used.plus(mw));
    }

    /// The public record of a resting order.
    fn record_of(
        order_id: OrderId,
        side: Side,
        key: &ContractKey,
        price: Decimal,
        open_qty: Decimal,
        currency: Currency,
        create_time: Timestamp,
        now: Timestamp,
    ) -> (r: PublicOrderBookRecord)
        ensures
            r@ == book_record(
                (BookEvent {
                    id: order_id.0,
                    side,
                    key: key@,
                    price: price@,
                    open: open_qty@,
                    currency,
                }),
                create_time,
                now,
            ),
    {
        PublicOrderBookRecord {
            id: order_id.0,
            delivery_area: Some(area_to_proto(&key.area)),
            delivery_period: Some(period_to_proto(key.period)),
            order_type: None,
            side: side.to_wire(),
            price: Some(price_to_proto(price, currency)),
            quantity: Some(power_to_proto(open_qty)),
            execution_option: None,
            create_time: Some(timestamp_to_proto(create_time)),
            update_time: Some(timestamp_to_proto(now)),
        }
    }

    /// When the order was first seen on a book: now, if it is new.
    fn first_seen(&self, order_id: OrderId, now: Timestamp) -> (r: Timestamp)
        ensures
            r == created_at(self@, order_id.0, now),
    {
        match self.book_first_seen.get(&order_id.0) {
            Some(t) => *t,
            None => now,
        }
    }

    /// Snapshot every resting order on every still-tradeable book. Books
    /// whose gate has already closed are skipped.
    pub fn snapshot_books(&self, now: Timestamp) -> (r: Vec<PublicOrderBookRecord>)
        ensures
            views(r@) == snapshot(self@, now, self@.books.len()),
    {
        let mut out: Vec<PublicOrderBookRecord> = Vec::new();
        assert(views(out@) =~= Seq::<RecordV>::empty());
        let mut i: usize = 0;
        while i < self.books.len()
            invariant
                i <= self.books@.len(),
                self.books@ == self@.books,
                views(out@) == snapshot(self@, now, i as nat),
            decreases self.books@.len() - i,
        {
            let key = self.books.key_at(i);
            if !key.period.start.is_at_or_earlier(&now) {
                self.snapshot_book(key, self.books.at(i), now, &mut out);
            }
            i += 1;
        }
        out
    }

    /// Snapshot one book.
    fn snapshot_book(
        &self,
        key: &ContractKey,
        book: &OrderBook,
        now: Timestamp,
        out: &mut Vec<PublicOrderBookRecord>,
    )
        ensures
            views(final(out)@) == views(old(out)@) + book_snapshot(
                self@,
                key@,
                book@,
                now,
                levels_reversed(book@.bids).len() + book@.asks.len(),
            ),
    {
        let entries = book.iter_with_quantity();
        let ghost before = views(out@);
        let mut j: usize = 0;
        assert(before =~= before + book_snapshot(self@, key@, book@, now, 0));
        while j < entries.len()
            invariant
                j <= entries@.len(),
                entries@.len() == levels_reversed(book@.bids).len() + book@.asks.len(),
                forall|i: int|
                    0 <= i < levels_reversed(book@.bids).len() ==> {
                        &&& (#[trigger] entries@[i]).0.0 == levels_reversed(book@.bids)[i].id
                        &&& entries@[i].1 == Side::Buy
                        &&& entries@[i].2@ == levels_reversed(book@.bids)[i].price
                        &&& entries@[i].3@ == levels_reversed(book@.bids)[i].open
                    },
                forall|i: int|
                    levels_reversed(book@.bids).len() <= i < entries@.len() ==> {
                        let k = i - levels_reversed(book@.bids).len();
                        &&& (#[trigger] entries@[i]).0.0 == book@.asks[k].id
                        &&& entries@[i].1 == Side::Sell
                        &&& entries@[i].2@ == book@.asks[k].price
                        &&& entries@[i].3@ == book@.asks[k].open
                    },
                views(out@) == before + book_snapshot(self@, key@, book@, now, j as nat),
            decreases entries@.len() - j,
        {
            let (id, side, price, qty) = entries[j];
            let created = self.first_seen(id, now);
            let record = World::record_of(
                id,
                side,
                key,
                price,
                qty,
                Currency::Eur,
                created,
                now,
            );
            proof {
                lemma_views_push(out@, record);
            }
            out.push(record);
            j += 1;
            assert(views(out@) =~= before + book_snapshot(self@, key@, book@, now, j as nat));
        }
    }

    /// Put an order update for `gridpool_id` into the outbox.
    fn publish_order_update(&mut self, gridpool_id: GridpoolId, detail: OrderDetail)
        ensures
            final(self)@ == order_published(old(self)@, gridpool_id.0, detail@),
    {
        let event = OrderEvent { gridpool_id, detail };
        proof {
            lemma_views_push(self.outbox.orders@, event);
        }
        self.outbox.orders.push(event);
    }

    /// Put a trade of `gridpool_id` into the outbox.
    fn publish_gridpool_trade(&mut self, gridpool_id: GridpoolId, trade: Trade)
        ensures
            final(self)@ == (WorldV {
                outbox: OutboxV {
                    trades: old(self)@.outbox.trades.push((gridpool_id.0, trade@)),
                    ..old(self)@.outbox
                },
                ..old(self)@
            }),
    {
        let event = TradeEvent { gridpool_id, trade };
        proof {
            lemma_views_push(self.outbox.trades@, event);
        }
        self.outbox.trades.push(event);
    }

    /// Put a trade onto the public tape.
    fn publish_public_trade(&mut self, trade: PublicTrade)
        ensures
            final(self)@ == public_traded(old(self)@, trade@),
    {
        proof {
            lemma_views_push(self.outbox.public_trades@, trade);
        }
        let ghost history = self.public_trade_history@;
        if self.public_trade_history.len() >= HISTORY_CAP {
            let _ = self.public_trade_history.pop_front();
            assert(views(self.public_trade_history@) =~= views(history).drop_first());
        }
        let copy = trade.clone();
        proof {
            lemma_views_push(self.public_trade_history@, copy);
        }
        self.public_trade_history.push_back(copy);
        self.outbox.public_trades.push(trade);
    }

    /// Put a record onto the public book stream.
    fn publish_public_book_record(&mut self, record: PublicOrderBookRecord)
        ensures
            final(self)@ == (WorldV {
                book_history: ring_with(old(self)@.book_history, record@),
                outbox: OutboxV {
                    book_records: old(self)@.outbox.book_records.push(record@),
                    ..old(self)@.outbox
                },
                ..old(self)@
            }),
    {
        proof {
            lemma_views_push(self.outbox.book_records@, record);
        }
        let ghost history = self.public_book_history@;
        if self.public_book_history.len() >= HISTORY_CAP {
            let _ = self.public_book_history.pop_front();
            assert(views(self.public_book_history@) =~= views(history).drop_first());
        }
        let copy = record.clone();
        proof {
            lemma_views_push(self.public_book_history@, copy);
        }
        self.public_book_history.push_back(copy);
        self.outbox.book_records.push(record);
    }

    /// Put a change of a resting order onto the public book stream. `now`
    /// becomes the record's update time; the create time is kept from the
    /// order's first record until nothing of it is open.
    fn emit_book_event(
        &mut self,
        order_id: OrderId,
        side: Side,
        key: &ContractKey,
        price: Decimal,
        open_qty: Decimal,
        currency: Currency,
        now: Timestamp,
    )
        ensures
            final(self)@ == emitted(
                old(self)@,
                (BookEvent {
                    id: order_id.0,
                    side,
                    key: key@,
                    price: price@,
                    open: open_qty@,
                    currency,
                }),
                now,
            ),
    {
        let created = self.first_seen(order_id, now);
        if open_qty.is_zero() {
            self.book_first_seen.remove(&order_id.0);
        } else {
            self.book_first_seen.insert(order_id.0, created);
        }
        let record = World::record_of(order_id, side, key, price, open_qty, currency, created, now);
        self.publish_public_book_record(record);
    }

    /// Record that `order_id` is now resting on the book and belongs to
    /// `gridpool_id`.
    pub fn bind_resting_order(&mut self, order_id: OrderId, gridpool_id: GridpoolId)
        ensures
            final(self)@ == (WorldV {
                owners: old(self)@.owners.insert(order_id.0, gridpool_id.0),
                ..old(self)@
            }),
    {
        self.order_to_gridpool.insert(order_id.0, gridpool_id.0);
    }

    /// The gridpool a resting order belongs to.
    pub fn owner_of(&self, order_id: OrderId) -> (r: Option<GridpoolId>)
        ensures
            match r {
                Some(pool) => bound_to(self@, order_id.0, pool.0),
                None => !self@.owners.contains_key(order_id.0),
            },
    {
        match self.order_to_gridpool.get(&order_id.0) {
            Some(pool) => Some(GridpoolId(*pool)),
            None => None,
        }
    }

    /// Remove the binding of a resting order. Returns the gridpool it was
    /// bound to, if any.
    pub fn unbind_resting_order(&mut self, order_id: OrderId) -> (r: Option<GridpoolId>)
        ensures
            final(self)@ == (WorldV {
                owners: old(self)@.owners.remove(order_id.0),
                ..old(self)@
            }),
            match r {
                Some(pool) => bound_to(old(self)@, order_id.0, pool.0),
                None => !old(self)@.owners.contains_key(order_id.0),
            },
    {
        match self.order_to_gridpool.remove(&order_id.0) {
            Some(pool) => Some(GridpoolId(pool)),
            None => None,
        }
    }

    /// Mint the next monotonic id.
    pub fn next_id(&mut self) -> (r: OrderId)
        requires
            old(self)@.next_order_id < u64::MAX,
        ensures
            r.0 == old(self)@.next_order_id,
            final(self)@ == (WorldV {
                next_order_id: (old(self)@.next_order_id + 1) as u64,
                ..old(self)@
            }),
    {
        let id = OrderId(self.next_order_id);
        self.next_order_id += 1;
        id
    }

    /// Mint the next trade id.
    fn mint_trade_id(&mut self) -> (r: TradeId)
        requires
            old(self)@.next_trade_id < u64::MAX,
        ensures
            r.0 == old(self)@.next_trade_id,
            final(self)@ == (WorldV {
                next_trade_id: (old(self)@.next_trade_id + 1) as u64,
                ..old(self)@
            }),
    {
        let id = TradeId(self.next_trade_id);
        self.next_trade_id += 1;
        id
    }

    /// Borrow a contract's book, creating an empty one on demand.
    pub fn book_mut(&mut self, key: ContractKey) -> (r: &mut OrderBook)
        requires
            old(self).wf(),
        ensures
            (*r)@ == book_at(old(self)@.books, key@),
            (*r).wf(),
            final(self)@ == (WorldV {
                books: stored(old(self)@.books, key@, (*final(r))@),
                ..old(self)@
            }),
    {
        self.books.slot_mut(key, OrderBook::new())
    }

    /// A contract's book, if there is one.
    pub fn book(&self, key: &ContractKey) -> (r: Option<&OrderBook>)
        requires
            self.wf(),
        ensures
            match r {
                Some(b) => holds(self@.books, key@) && b@ == value_at(self@.books, key@),
                None => !holds(self@.books, key@),
            },
    {
        self.books.get(key)
    }

    /// Every contract that has a book, in the order the books came up.
    pub fn contracts(&self) -> (r: Vec<ContractKey>)
        ensures
            r@.len() == self@.books.len(),
            forall|i: int| 0 <= i < r@.len() ==> (#[trigger] r@[i])@ == self@.books[i].0,
    {
        let mut out: Vec<ContractKey> = Vec::new();
        let mut i: usize = 0;
        while i < self.books.len()
            invariant
                i <= self.books@.len(),
                self.books@ == self@.books,
                out@.len() == i,
                forall|j: int| 0 <= j < i ==> (#[trigger] out@[j])@ == self@.books[j].0,
            decreases self.books@.len() - i,
        {
            out.push(self.books.key_at(i).clone());
            i += 1;
        }
        out
    }
}

/// The views of the pairs of a sequence.
pub open spec fn views_of_pairs(s: Seq<(Area, Coupling)>) -> Seq<(AreaV, CouplingV)> {
    Seq::new(s.len(), |i: int| (s[i].0@, s[i].1@))
}

proof fn lemma_directions_grow(
    couplings: Seq<(AreaV, Seq<(AreaV, CouplingV)>)>,
    i: nat,
    n: nat,
)
    requires
        i <= n,
    ensures
        directions(couplings, i) <= directions(couplings, n),
    decreases n - i,
{
    if i < n {
        lemma_directions_grow(couplings, i, (n - 1) as nat);
    }
}

/// The number of an optional gridpool id.
pub open spec fn pool_number(pool: Option<GridpoolId>) -> Option<u64> {
    match pool {
        Some(p) => Some(p.0),
        None => None,
    }
}

/// Field-set an update can write. None leaves a field alone. An order keeps
/// its currency: one that is named, as that of the new price, must be it.
#[derive(Debug)]
pub struct OrderUpdate {
    pub price: Option<Decimal>,
    pub currency: Option<Currency>,
    pub quantity: Option<Decimal>,
    pub valid_until: Option<Timestamp>,
    pub tag: Option<String>,
}

impl View for OrderUpdate {
    type V = UpdateV;

    open spec fn view(&self) -> UpdateV {
        UpdateV {
            price: view_option(self.price),
            currency: self.currency,
            quantity: view_option(self.quantity),
            valid_until: self.valid_until,
            tag: view_option(self.tag),
        }
    }
}

impl Default for OrderUpdate {
    fn default() -> (r: Self)
        ensures
            r@ == (UpdateV {
                price: None,
                currency: None,
                quantity: None,
                valid_until: None,
                tag: None,
            }),
    {
        OrderUpdate { price: None, currency: None, quantity: None, valid_until: None, tag: None }
    }
}

} // verus!
