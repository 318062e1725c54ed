//! The message shapes of the trading API, as they travel: numbers as text,
//! enumerations as integers, submessages optional.

use vstd::prelude::*;

verus! {

/// A decimal number as text.
#[derive(Clone, Debug, PartialEq, Eq)]
pub struct Decimal {
    pub value: String,
}

impl View for Decimal {
    type V = Seq<char>;

    open spec fn view(&self) -> Seq<char> {
        self.value@
    }
}

/// Seconds since the Unix epoch, and nanoseconds into the second.
#[derive(Clone, Copy, Debug, PartialEq, Eq, Structural)]
pub struct Timestamp {
    pub seconds: i64,
    pub nanos: i32,
}

/// A delivery area.
#[derive(Clone, Debug, PartialEq, Eq)]
pub struct DeliveryArea {
    pub code: String,
    pub code_type: i32,
}

/// A [`DeliveryArea`] as contracts speak of it.
pub ghost struct DeliveryAreaV {
    pub code: Seq<char>,
    pub code_type: i32,
}

impl View for DeliveryArea {
    type V = DeliveryAreaV;

    open spec fn view(&self) -> DeliveryAreaV {
        DeliveryAreaV { code: self.code@, code_type: self.code_type }
    }
}

/// A delivery period.
#[derive(Clone, Copy, Debug, PartialEq, Eq, Structural)]
pub struct DeliveryPeriod {
    pub start: Option<Timestamp>,
    pub duration: i32,
}

/// An amount of money per MWh.
#[derive(Clone, Debug, PartialEq, Eq)]
pub struct Price {
    pub amount: Option<Decimal>,
    pub currency: i32,
}

/// A [`Price`] as contracts speak of it.
pub ghost struct PriceV {
    pub amount: Option<Seq<char>>,
    pub currency: i32,
}

impl View for Price {
    type V = PriceV;

    open spec fn view(&self) -> PriceV {
        PriceV { amount: crate::order::view_option(self.amount), currency: self.currency }
    }
}

/// An amount of power.
#[derive(Clone, Debug, PartialEq, Eq)]
pub struct Power {
    pub mw: Option<Decimal>,
}

/// A [`Power`] as contracts speak of it.
pub ghost struct PowerV {
    pub mw: Option<Seq<char>>,
}

impl View for Power {
    type V = PowerV;

    open spec fn view(&self) -> PowerV {
        PowerV { mw: crate::order::view_option(self.mw) }
    }
}

/// The user-supplied half of an order.
#[derive(Clone, Debug, PartialEq, Eq)]
pub struct Order {
    pub delivery_area: Option<DeliveryArea>,
    pub delivery_period: Option<DeliveryPeriod>,
    pub order_type: i32,
    pub side: i32,
    pub price: Option<Price>,
    pub quantity: Option<Power>,
    pub stop_price: Option<Price>,
    pub peak_price_delta: Option<Price>,
    pub display_quantity: Option<Power>,
    pub execution_option: Option<i32>,
    pub valid_until: Option<Timestamp>,
    pub payload: Option<String>,
    pub tag: Option<String>,
}

/// An [`Order`] as contracts speak of it.
pub ghost struct OrderV {
    pub delivery_area: Option<DeliveryAreaV>,
    pub delivery_period: Option<DeliveryPeriod>,
    pub order_type: i32,
    pub side: i32,
    pub price: Option<PriceV>,
    pub quantity: Option<PowerV>,
    pub stop_price: Option<PriceV>,
    pub peak_price_delta: Option<PriceV>,
    pub display_quantity: Option<PowerV>,
    pub execution_option: Option<i32>,
    pub valid_until: Option<Timestamp>,
    pub payload: Option<Seq<char>>,
    pub tag: Option<Seq<char>>,
}

impl View for Order {
    type V = OrderV;

    open spec fn view(&self) -> OrderV {
        OrderV {
            delivery_area: crate::order::view_option(self.delivery_area),
            delivery_period: self.delivery_period,
            order_type: self.order_type,
            side: self.side,
            price: crate::order::view_option(self.price),
            quantity: crate::order::view_option(self.quantity),
            stop_price: crate::order::view_option(self.stop_price),
            peak_price_delta: crate::order::view_option(self.peak_price_delta),
            display_quantity: crate::order::view_option(self.display_quantity),
            execution_option: self.execution_option,
            valid_until: self.valid_until,
            payload: crate::order::view_option(self.payload),
            tag: crate::order::view_option(self.tag),
        }
    }
}

/// State, reason and actor of an order.
#[derive(Clone, Copy, Debug, PartialEq, Eq, Structural)]
pub struct StateDetail {
    pub state: i32,
    pub state_reason: i32,
    pub market_actor: i32,
}

/// The server-augmented view of an order.
#[derive(Clone, Debug, PartialEq, Eq)]
pub struct OrderDetail {
    pub order_id: u64,
    pub order: Option<Order>,
    pub state_detail: Option<StateDetail>,
    pub open_quantity: Option<Power>,
    pub filled_quantity: Option<Power>,
    pub create_time: Option<Timestamp>,
    pub modification_time: Option<Timestamp>,
}

/// An [`OrderDetail`] as contracts speak of it.
pub ghost struct OrderDetailV {
    pub order_id: u64,
    pub order: Option<OrderV>,
    pub state_detail: Option<StateDetail>,
    pub open_quantity: Option<PowerV>,
    pub filled_quantity: Option<PowerV>,
    pub create_time: Option<Timestamp>,
    pub modification_time: Option<Timestamp>,
}

impl View for OrderDetail {
    type V = OrderDetailV;

    open spec fn view(&self) -> OrderDetailV {
        OrderDetailV {
            order_id: self.order_id,
            order: crate::order::view_option(self.order),
            state_detail: self.state_detail,
            open_quantity: crate::order::view_option(self.open_quantity),
            filled_quantity: crate::order::view_option(self.filled_quantity),
            create_time: self.create_time,
            modification_time: self.modification_time,
        }
    }
}

/// A trade as one of its sides sees it.
#[derive(Clone, Debug, PartialEq, Eq)]
pub struct Trade {
    pub id: u64,
    pub order_id: u64,
    pub side: i32,
    pub delivery_area: Option<DeliveryArea>,
    pub delivery_period: Option<DeliveryPeriod>,
    pub execution_time: Option<Timestamp>,
    pub price: Option<Price>,
    pub quantity: Option<Power>,
    pub state: i32,
}

/// A [`Trade`] as contracts speak of it.
pub ghost struct TradeV {
    pub id: u64,
    pub order_id: u64,
    pub side: i32,
    pub delivery_area: Option<DeliveryAreaV>,
    pub delivery_period: Option<DeliveryPeriod>,
    pub execution_time: Option<Timestamp>,
    pub price: Option<PriceV>,
    pub quantity: Option<PowerV>,
    pub state: i32,
}

impl View for Trade {
    type V = TradeV;

    open spec fn view(&self) -> TradeV {
        TradeV {
            id: self.id,
            order_id: self.order_id,
            side: self.side,
            delivery_area: crate::order::view_option(self.delivery_area),
            delivery_period: self.delivery_period,
            execution_time: self.execution_time,
            price: crate::order::view_option(self.price),
            quantity: crate::order::view_option(self.quantity),
            state: self.state,
        }
    }
}

/// A trade as the public tape shows it.
#[derive(Clone, Debug, PartialEq, Eq)]
pub struct PublicTrade {
    pub id: u64,
    pub buy_delivery_area: Option<DeliveryArea>,
    pub sell_delivery_area: Option<DeliveryArea>,
    pub delivery_period: Option<DeliveryPeriod>,
    pub execution_time: Option<Timestamp>,
    pub price: Option<Price>,
    pub quantity: Option<Power>,
    pub state: i32,
}

/// A [`PublicTrade`] as contracts speak of it.
pub ghost struct PublicTradeV {
    pub id: u64,
    pub buy_delivery_area: Option<DeliveryAreaV>,
    pub sell_delivery_area: Option<DeliveryAreaV>,
    pub delivery_period: Option<DeliveryPeriod>,
    pub execution_time: Option<Timestamp>,
    pub price: Option<PriceV>,
    pub quantity: Option<PowerV>,
    pub state: i32,
}

impl View for PublicTrade {
    type V = PublicTradeV;

    open spec fn view(&self) -> PublicTradeV {
        PublicTradeV {
            id: self.id,
            buy_delivery_area: crate::order::view_option(self.buy_delivery_area),
            sell_delivery_area: crate::order::view_option(self.sell_delivery_area),
            delivery_period: self.delivery_period,
            execution_time: self.execution_time,
            price: crate::order::view_option(self.price),
            quantity: crate::order::view_option(self.quantity),
            state: self.state,
        }
    }
}

/// A change of one resting order, as the public book stream shows it. An
/// order that left the book has quantity zero.
#[derive(Debug, PartialEq, Eq)]
pub struct PublicOrderBookRecord {
    pub id: u64,
    pub delivery_area: Option<DeliveryArea>,
    pub delivery_period: Option<DeliveryPeriod>,
    pub order_type: Option<i32>,
    pub side: i32,
    pub price: Option<Price>,
    pub quantity: Option<Power>,
    pub execution_option: Option<i32>,
    pub create_time: Option<Timestamp>,
    pub update_time: Option<Timestamp>,
}

/// A [`PublicOrderBookRecord`] as contracts speak of it.
pub ghost struct RecordV {
    pub id: u64,
    pub delivery_area: Option<DeliveryAreaV>,
    pub delivery_period: Option<DeliveryPeriod>,
    pub order_type: Option<i32>,
    pub side: i32,
    pub price: Option<PriceV>,
    pub quantity: Option<PowerV>,
    pub execution_option: Option<i32>,
    pub create_time: Option<Timestamp>,
    pub update_time: Option<Timestamp>,
}

impl View for PublicOrderBookRecord {
    type V = RecordV;

    open spec fn view(&self) -> RecordV {
        RecordV {
            id: self.id,
            delivery_area: crate::order::view_option(self.delivery_area),
            delivery_period: self.delivery_period,
            order_type: self.order_type,
            side: self.side,
            price: crate::order::view_option(self.price),
            quantity: crate::order::view_option(self.quantity),
            execution_option: self.execution_option,
            create_time: self.create_time,
            update_time: self.update_time,
        }
    }
}

fn clone_decimal(d: &Option<Decimal>) -> (r: Option<Decimal>)
    ensures
        crate::order::view_option(r) == crate::order::view_option(*d),
{
    match d {
        Some(d) => Some(Decimal { value: d.value.clone() }),
        None => None,
    }
}

impl Clone for PublicOrderBookRecord {
    fn clone(&self) -> (r: Self)
        ensures
            r@ == self@,
    {
        let delivery_area = match &self.delivery_area {
            Some(a) => Some(DeliveryArea { code: a.code.clone(), code_type: a.code_type }),
            None => None,
        };
        let price = match &self.price {
            Some(p) => Some(Price { amount: clone_decimal(&p.amount), currency: p.currency }),
            None => None,
        };
        let quantity = match &self.quantity {
            Some(p) => Some(Power { mw: clone_decimal(&p.mw) }),
            None => None,
        };
        PublicOrderBookRecord {
            id: self.id,
            delivery_area,
            delivery_period: self.delivery_period,
            order_type: self.order_type,
            side: self.side,
            price,
            quantity,
            execution_option: self.execution_option,
            create_time: self.create_time,
            update_time: self.update_time,
        }
    }
}

} // verus!
