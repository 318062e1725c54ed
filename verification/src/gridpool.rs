//! Gridpool registry: the per-portfolio order + trade index. A gridpool's
//! `areas` are what pre-trade validation checks against.
//!
//! An order detail stays in its gridpool after it was canceled or filled, so
//! it can still be queried.

use crate::market::{Area, AreaV};
use crate::order::{DetailV, GridpoolId, OrderDetail, OrderId};
use crate::table::{distinct, holds, lemma_stored, stored, value_at, views, Table};
use crate::trade::{Trade, TradeV};
use vstd::prelude::*;

verus! {

/// What the matcher does when an incoming aggressive order would cross a
/// resting order owned by the same gridpool.
///
/// - `Reject` (default): a pre-trade check rejects the incoming order before
///   any state mutates.
/// - `Allow`: the order matches normally; whoever's on the other side,
///   including yourself, is a counterparty.
#[derive(Clone, Copy, Debug, PartialEq, Eq, Structural)]
pub enum SelfTradePolicy {
    Reject,
    Allow,
}

impl Default for SelfTradePolicy {
    fn default() -> (r: Self)
        ensures
            r == SelfTradePolicy::Reject,
    {
        SelfTradePolicy::Reject
    }
}

/// A portfolio: its orders and its trades.
#[derive(Debug)]
pub struct Gridpool {
    pub id: GridpoolId,
    pub name: String,
    pub areas: Vec<Area>,
    pub self_trade_policy: SelfTradePolicy,
    orders: Table<OrderId, OrderDetail>,
    trades: Vec<Trade>,
}

/// A [`Gridpool`] as contracts speak of it.
pub ghost struct PoolV {
    pub id: u64,
    pub name: Seq<char>,
    pub areas: Seq<AreaV>,
    pub self_trade_policy: SelfTradePolicy,
    pub orders: Seq<(u64, DetailV)>,
    pub trades: Seq<TradeV>,
}

impl View for Gridpool {
    type V = PoolV;

    closed spec fn view(&self) -> PoolV {
        PoolV {
            id: self.id.0,
            name: self.name@,
            areas: views(self.areas@),
            self_trade_policy: self.self_trade_policy,
            orders: self.orders@,
            trades: views(self.trades@),
        }
    }
}

/// Every order is filed under its own id, once.
pub open spec fn pool_wf(p: PoolV) -> bool {
    &&& distinct(p.orders)
    &&& forall|i: int| 0 <= i < p.orders.len() ==> (#[trigger] p.orders[i]).0 == p.orders[i].1.id
}

/// The pool with this detail in place of the one of the same id.
pub open spec fn with_detail(p: PoolV, d: DetailV) -> PoolV {
    PoolV { orders: stored(p.orders, d.id, d), ..p }
}

/// The pool with one more trade.
pub open spec fn with_trade(p: PoolV, t: TradeV) -> PoolV {
    PoolV { trades: p.trades.push(t), ..p }
}

pub proof fn lemma_with_detail_wf(p: PoolV, d: DetailV)
    requires
        pool_wf(p),
    ensures
        pool_wf(with_detail(p, d)),
{
    lemma_stored(p.orders, d.id, d);
}

impl Gridpool {
    /// Every order is filed under its own id, once.
    pub open spec fn wf(&self) -> bool {
        pool_wf(self@)
    }

    /// A gridpool without orders that rejects self-trades.
    pub fn new(id: GridpoolId, name: &str, areas: Vec<Area>) -> (r: Self)
        ensures
            r@ == (PoolV {
                id: id.0,
                name: name@,
                areas: views(areas@),
                self_trade_policy: SelfTradePolicy::Reject,
                orders: Seq::empty(),
                trades: Seq::empty(),
            }),
            r.wf(),
    {
        let trades: Vec<Trade> = Vec::new();
        assert(views(trades@) =~= Seq::<TradeV>::empty());
        Gridpool {
            id,
            name: name.to_owned(),
            areas,
            self_trade_policy: SelfTradePolicy::Reject,
            orders: Table::new(),
            trades,
        }
    }

    /// The same gridpool under another self-trade policy.
    pub fn with_self_trade_policy(self, policy: SelfTradePolicy) -> (r: Self)
        ensures
            r@ == (PoolV { self_trade_policy: policy, ..self@ }),
    {
        let mut pool = self;
        pool.self_trade_policy = policy;
        pool
    }

    /// The gridpool's id.
    pub fn number(&self) -> (r: GridpoolId)
        ensures
            r.0 == self@.id,
    {
        self.id
    }

    /// The name the pool is shown under.
    pub fn label(&self) -> (r: &str)
        ensures
            r@ == self@.name,
    {
        self.name.as_str()
    }

    /// The areas the pool may deliver in.
    pub fn delivery_areas(&self) -> (r: &Vec<Area>)
        ensures
            views(r@) == self@.areas,
    {
        &self.areas
    }

    /// What happens when the gridpool would trade with itself.
    pub fn self_trade_policy(&self) -> (r: SelfTradePolicy)
        ensures
            r == self@.self_trade_policy,
    {
        self.self_trade_policy
    }

    /// True iff `area` is one of the gridpool's allowed delivery areas.
    pub fn allows_area(&self, area: &Area) -> (r: bool)
        ensures
            r == self@.areas.contains(area@),
    {
        let mut i: usize = 0;
        while i < self.areas.len()
            invariant
                i <= self.areas@.len(),
                forall|j: int| 0 <= j < i ==> (#[trigger] self.areas@[j])@ != area@,
            decreases self.areas@.len() - i,
        {
            if self.areas[i] == *area {
                assert(self@.areas[i as int] == area@);
                return true;
            }
            i += 1;
        }
        assert forall|j: int| 0 <= j < self@.areas.len() implies self@.areas[j] != area@ by {
            assert(self@.areas[j] == self.areas@[j]@);
        }
        false
    }

    /// Admit a freshly-built order detail. Returns false, and changes
    /// nothing, if the id is already present.
    pub fn record_order(&mut self, detail: OrderDetail) -> (r: bool)
        requires
            old(self).wf(),
        ensures
            r == !holds(old(self)@.orders, detail@.id),
            final(self)@ == if r {
                with_detail(old(self)@, detail@)
            } else {
                old(self)@
            },
            final(self).wf(),
    {
        if self.orders.find(&detail.id).is_some() {
            return false;
        }
        self.put_order(detail);
        true
    }

    /// Put `detail` in place of the one filed under its id, or add it.
    pub(crate) fn put_order(&mut self, detail: OrderDetail)
        requires
            old(self).wf(),
        ensures
            final(self)@ == with_detail(old(self)@, detail@),
            final(self).wf(),
    {
        proof {
            lemma_with_detail_wf(self@, detail@);
        }
        self.orders.put(detail.id, detail);
    }

    /// Put the order of this id through `f`. Returns false, and changes
    /// nothing, if the id isn't on the gridpool.
    pub fn update_order<F: FnOnce(OrderDetail) -> OrderDetail>(
        &mut self,
        id: OrderId,
        f: F,
    ) -> (r: bool)
        requires
            old(self).wf(),
            forall|d: OrderDetail| #[trigger] f.requires((d,)),
            forall|d: OrderDetail, e: OrderDetail| #[trigger] f.ensures((d,), e) ==> e@.id == d@.id,
        ensures
            final(self).wf(),
            r == holds(old(self)@.orders, id.0),
            !r ==> final(self)@ == old(self)@,
            r ==> exists|d: OrderDetail, e: OrderDetail| #[trigger]
                f.ensures((d,), e) && d@ == value_at(old(self)@.orders, id.0) && final(self)@
                    == with_detail(old(self)@, e@),
    {
        match self.orders.get(&id) {
            Some(d) => {
                let before = d.clone();
                let ghost d0 = before;
                let after = f(before);
                assert(f.ensures((d0,), after));
                self.put_order(after);
                true
            },
            None => false,
        }
    }

    /// The order of this id, if it is on the gridpool.
    pub fn get_order(&self, id: OrderId) -> (r: Option<&OrderDetail>)
        requires
            self.wf(),
        ensures
            match r {
                Some(d) => holds(self@.orders, id.0) && d@ == value_at(self@.orders, id.0),
                None => !holds(self@.orders, id.0),
            },
    {
        self.orders.get(&id)
    }

    /// The number of orders.
    pub fn order_count(&self) -> (r: usize)
        ensures
            r == self@.orders.len(),
    {
        self.orders.len()
    }

    /// The order at position `i`, in order of admission.
    pub fn order_at(&self, i: usize) -> (r: &OrderDetail)
        requires
            i < self@.orders.len(),
        ensures
            r@ == self@.orders[i as int].1,
    {
        self.orders.at(i)
    }

    /// Every order, in order of admission.
    pub fn orders(&self) -> (r: Vec<&OrderDetail>)
        ensures
            r@.len() == self@.orders.len(),
            forall|i: int| 0 <= i < r@.len() ==> (#[trigger] r@[i])@ == self@.orders[i].1,
    {
        let mut out: Vec<&OrderDetail> = Vec::new();
        let mut i: usize = 0;
        while i < self.orders.len()
            invariant
                i <= self.orders@.len(),
                self@.orders == self.orders@,
                out@.len() == i,
                forall|j: int| 0 <= j < i ==> (#[trigger] out@[j])@ == self@.orders[j].1,
            decreases self.orders@.len() - i,
        {
            out.push(self.orders.at(i));
            i += 1;
        }
        out
    }

    /// File a trade.
    pub fn record_trade(&mut self, trade: Trade)
        ensures
            final(self)@ == with_trade(old(self)@, trade@),
    {
        let ghost before = self.trades@;
        self.trades.push(trade);
        assert(views(self.trades@) =~= views(before).push(trade@));
    }

    /// Every trade, in order of execution.
    pub fn trades(&self) -> (r: &Vec<Trade>)
        ensures
            views(r@) == self@.trades,
    {
        &self.trades
    }
}

/// id -> Gridpool, in order of registration.
#[derive(Debug)]
pub struct GridpoolRegistry {
    by_id: Table<GridpoolId, Gridpool>,
}

impl View for GridpoolRegistry {
    type V = Seq<(u64, PoolV)>;

    closed spec fn view(&self) -> Seq<(u64, PoolV)> {
        self.by_id@
    }
}

/// Every pool is well-formed and filed under its own id, once.
pub open spec fn pools_wf(pools: Seq<(u64, PoolV)>) -> bool {
    &&& distinct(pools)
    &&& forall|i: int|
        0 <= i < pools.len() ==> (#[trigger] pools[i]).0 == pools[i].1.id && pool_wf(pools[i].1)
}

pub proof fn lemma_stored_pools_wf(pools: Seq<(u64, PoolV)>, p: PoolV)
    requires
        pools_wf(pools),
        pool_wf(p),
    ensures
        pools_wf(stored(pools, p.id, p)),
{
    lemma_stored(pools, p.id, p);
}

impl GridpoolRegistry {
    /// Every pool is well-formed and filed under its own id, once.
    pub open spec fn wf(&self) -> bool {
        pools_wf(self@)
    }

    /// A registry without gridpools.
    pub fn new() -> (r: Self)
        ensures
            r@ == Seq::<(u64, PoolV)>::empty(),
            r.wf(),
    {
        GridpoolRegistry { by_id: Table::new() }
    }

    /// Register `pool` under its id, in place of any that had it.
    pub fn insert(&mut self, pool: Gridpool)
        requires
            old(self).wf(),
            pool.wf(),
        ensures
            final(self)@ == stored(old(self)@, pool@.id, pool@),
            final(self).wf(),
    {
        proof {
            lemma_stored_pools_wf(self@, pool@);
        }
        self.by_id.put(pool.id, pool);
    }

    /// The gridpool of this id.
    pub fn get(&self, id: GridpoolId) -> (r: Option<&Gridpool>)
        requires
            self.wf(),
        ensures
            match r {
                Some(p) => holds(self@, id.0) && p@ == value_at(self@, id.0) && p.wf(),
                None => !holds(self@, id.0),
            },
    {
        self.by_id.get(&id)
    }

    /// The gridpool of this id, to be changed in place.
    pub fn get_mut(&mut self, id: GridpoolId) -> (r: Option<&mut Gridpool>)
        requires
            old(self).wf(),
        ensures
            match r {
                Some(p) => {
                    &&& holds(old(self)@, id.0)
                    &&& (*p)@ == value_at(old(self)@, id.0)
                    &&& final(self)@ == stored(old(self)@, id.0, (*final(p))@)
                },
                None => !holds(old(self)@, id.0) && final(self)@ == old(self)@,
            },
    {
        match self.by_id.find(&id) {
            Some(i) => Some(self.by_id.at_mut(i)),
            None => None,
        }
    }

    /// The gridpool at position `i`, in order of registration.
    pub fn at(&self, i: usize) -> (r: &Gridpool)
        requires
            i < self@.len(),
        ensures
            r@ == self@[i as int].1,
    {
        self.by_id.at(i)
    }

    /// Every gridpool, in order of registration.
    pub fn iter(&self) -> (r: Vec<&Gridpool>)
        ensures
            r@.len() == self@.len(),
            forall|i: int| 0 <= i < r@.len() ==> (#[trigger] r@[i])@ == self@[i].1,
    {
        let mut out: Vec<&Gridpool> = Vec::new();
        let mut i: usize = 0;
        while i < self.by_id.len()
            invariant
                i <= self.by_id@.len(),
                self@ == self.by_id@,
                out@.len() == i,
                forall|j: int| 0 <= j < i ==> (#[trigger] out@[j])@ == self@[j].1,
            decreases self.by_id@.len() - i,
        {
            out.push(self.by_id.at(i));
            i += 1;
        }
        out
    }

    /// The number of gridpools.
    pub fn len(&self) -> (r: usize)
        ensures
            r == self@.len(),
    {
        self.by_id.len()
    }

    /// Whether there is no gridpool.
    pub fn is_empty(&self) -> (r: bool)
        ensures
            r == (self@.len() == 0),
    {
        self.by_id.len() == 0
    }
}

/// A recorded order is found under its id, and no other order is touched; a
/// second record under that id is refused.
pub proof fn recorded_order_is_found(p: PoolV, d: DetailV, other: u64)
    requires
        pool_wf(p),
    ensures
        holds(with_detail(p, d).orders, d.id),
        value_at(with_detail(p, d).orders, d.id) == d,
        other != d.id ==> (holds(with_detail(p, d).orders, other) <==> holds(p.orders, other)),
        other != d.id && holds(p.orders, other) ==> value_at(with_detail(p, d).orders, other)
            == value_at(p.orders, other),
{
    lemma_stored(p.orders, d.id, d);
}

} // verus!
