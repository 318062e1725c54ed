//! Trade types. A [`Trade`] is the per-gridpool, one-side view (a fill
//! generates one per side, each visible only to its gridpool's owner). A
//! [`PublicTrade`] is the globally-visible match event: exactly one per fill,
//! even when the two sides are in different delivery areas.

use crate::decimal::Decimal;
use crate::market::{Area, AreaV, Currency, DeliveryPeriod};
use crate::order::{OrderId, Side};
use crate::time::Timestamp;
use vstd::prelude::*;

verus! {

/// Where a trade stands in its life.
#[derive(Clone, Copy, Debug, PartialEq, Eq, Hash, Structural)]
pub enum TradeState {
    Unspecified,
    Active,
    CancelRequested,
    CancelRejected,
    Canceled,
    RecallRequested,
    RecallRejected,
    Recalled,
    ApprovalRequested,
}

/// Monotonic server-assigned trade id. Independent of order ids so callers
/// can't infer order counts from trade counts.
#[derive(Clone, Copy, Debug, PartialEq, Eq, Hash, PartialOrd, Ord, Structural)]
pub struct TradeId(pub u64);

/// The states a trade never leaves.
pub open spec fn settled(state: TradeState) -> bool {
    state == TradeState::Canceled || state == TradeState::Recalled
}

impl TradeState {
    /// True iff the trade has settled into a terminal state.
    pub fn is_terminal(self) -> (r: bool)
        ensures
            r == settled(self),
    {
        matches!(self, TradeState::Canceled | TradeState::Recalled)
    }
}

/// Per-gridpool, one-side trade record.
#[derive(Debug)]
pub struct Trade {
    pub id: TradeId,
    pub order_id: OrderId,
    pub side: Side,
    pub area: Area,
    pub period: DeliveryPeriod,
    pub execution_time: Timestamp,
    pub price: Decimal,
    pub currency: Currency,
    pub quantity: Decimal,
    pub state: TradeState,
}

/// A [`Trade`] as contracts speak of it.
pub ghost struct TradeV {
    pub id: u64,
    pub order_id: u64,
    pub side: Side,
    pub area: AreaV,
    pub period: DeliveryPeriod,
    pub execution_time: Timestamp,
    pub price: int,
    pub currency: Currency,
    pub quantity: int,
    pub state: TradeState,
}

impl View for Trade {
    type V = TradeV;

    open spec fn view(&self) -> TradeV {
        TradeV {
            id: self.id.0,
            order_id: self.order_id.0,
            side: self.side,
            area: self.area@,
            period: self.period,
            execution_time: self.execution_time,
            price: self.price@,
            currency: self.currency,
            quantity: self.quantity@,
            state: self.state,
        }
    }
}

impl Clone for Trade {
    fn clone(&self) -> (r: Self)
        ensures
            r@ == self@,
    {
        Trade {
            id: self.id,
            order_id: self.order_id,
            side: self.side,
            area: self.area.clone(),
            period: self.period,
            execution_time: self.execution_time,
            price: self.price,
            currency: self.currency,
            quantity: self.quantity,
            state: self.state,
        }
    }
}

/// Globally-visible match event. The two area fields differ only on
/// cross-area matches; in the single-area case both equal the trade's
/// delivery area.
#[derive(Debug)]
pub struct PublicTrade {
    pub id: TradeId,
    pub buy_area: Area,
    pub sell_area: Area,
    pub period: DeliveryPeriod,
    pub execution_time: Timestamp,
    pub price: Decimal,
    pub currency: Currency,
    pub quantity: Decimal,
    pub state: TradeState,
}

/// A [`PublicTrade`] as contracts speak of it.
pub ghost struct PublicTradeV {
    pub id: u64,
    pub buy_area: AreaV,
    pub sell_area: AreaV,
    pub period: DeliveryPeriod,
    pub execution_time: Timestamp,
    pub price: int,
    pub currency: Currency,
    pub quantity: int,
    pub state: TradeState,
}

impl View for PublicTrade {
    type V = PublicTradeV;

    open spec fn view(&self) -> PublicTradeV {
        PublicTradeV {
            id: self.id.0,
            buy_area: self.buy_area@,
            sell_area: self.sell_area@,
            period: self.period,
            execution_time: self.execution_time,
            price: self.price@,
            currency: self.currency,
            quantity: self.quantity@,
            state: self.state,
        }
    }
}

impl Clone for PublicTrade {
    fn clone(&self) -> (r: Self)
        ensures
            r@ == self@,
    {
        PublicTrade {
            id: self.id,
            buy_area: self.buy_area.clone(),
            sell_area: self.sell_area.clone(),
            period: self.period,
            execution_time: self.execution_time,
            price: self.price,
            currency: self.currency,
            quantity: self.quantity,
            state: self.state,
        }
    }
}

} // verus!
