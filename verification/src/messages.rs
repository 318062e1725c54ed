//! What travels.

use crate::decimal::{decimal_text, decimal_value};
use crate::market::{AreaV, CodeType, Currency, DeliveryDuration, DeliveryPeriod};
use crate::order::{
    DetailV, ExecutionOption, MarketActor, OrderState, OrderType, OrderV, Side, StateReason,
};
use crate::proto_conv::{detail_wire, order_of, order_wire, public_trade_wire, trade_wire, WireEnum};
use crate::service::update_of;
use crate::time::Timestamp;
use crate::trade::{PublicTradeV, TradeState, TradeV};
use crate::wire;
use vstd::prelude::*;

verus! {

/// Every value of an enumeration travels as its own number.
pub proof fn the_wire_numbers(
    side: Side,
    order_type: OrderType,
    option: ExecutionOption,
    state: OrderState,
    reason: StateReason,
    actor: MarketActor,
)
    ensures
        side.number() == match side {
            Side::Unspecified => 0,
            Side::Buy => 1,
            Side::Sell => 2int,
        },
        order_type.number() == match order_type {
            OrderType::Unspecified => 0,
            OrderType::Limit => 1,
            OrderType::StopLimit => 2,
            OrderType::Iceberg => 3,
            OrderType::Block => 4,
            OrderType::Balance => 5,
            OrderType::Prearranged => 6,
            OrderType::Private => 7int,
        },
        option.number() == match option {
            ExecutionOption::Unspecified => 0,
            ExecutionOption::Aon => 1,
            ExecutionOption::Fok => 2,
            ExecutionOption::Ioc => 3int,
        },
        state.number() == match state {
            OrderState::Unspecified => 0,
            OrderState::Pending => 1,
            OrderState::Active => 2,
            OrderState::Filled => 3,
            OrderState::Canceled => 4,
            OrderState::Expired => 5,
            OrderState::Failed => 6,
            OrderState::Hibernate => 7int,
        },
        reason.number() == match reason {
            StateReason::Unspecified => 0,
            StateReason::Add => 1,
            StateReason::Modify => 2,
            StateReason::Delete => 3,
            StateReason::Deactivate => 4,
            StateReason::Reject => 5,
            StateReason::FullExecution => 6,
            StateReason::PartialExecution => 7,
            StateReason::IcebergSliceAdd => 8,
            StateReason::ValidationFail => 9,
            StateReason::UnknownState => 10,
            StateReason::QuoteAdd => 11,
            StateReason::QuoteFullExecution => 12,
            StateReason::QuotePartialExecution => 13int,
        },
        actor.number() == match actor {
            MarketActor::Unspecified => 0,
            MarketActor::User => 1,
            MarketActor::MarketOperator => 2,
            MarketActor::System => 3int,
        },
{
}

/// So do the values that name a market: states of trades, kinds of area codes,
/// lengths of deliveries, and currencies.
pub proof fn the_market_numbers(
    state: TradeState,
    code: CodeType,
    duration: DeliveryDuration,
    currency: Currency,
)
    ensures
        state.number() == match state {
            TradeState::Unspecified => 0,
            TradeState::Active => 1,
            TradeState::CancelRequested => 2,
            TradeState::CancelRejected => 3,
            TradeState::Canceled => 4,
            TradeState::RecallRequested => 5,
            TradeState::RecallRejected => 6,
            TradeState::Recalled => 7,
            TradeState::ApprovalRequested => 8int,
        },
        code.number() == match code {
            CodeType::Unspecified => 0,
            CodeType::EuropeEic => 1,
            CodeType::UsNerc => 2int,
        },
        duration.number() == match duration {
            DeliveryDuration::FiveMin => 1,
            DeliveryDuration::QuarterHour => 2,
            DeliveryDuration::HalfHour => 3,
            DeliveryDuration::Hour => 4int,
        },
        currency.number() == match currency {
            Currency::Usd => 1,
            Currency::Eur => 3,
            Currency::Gbp => 4,
            Currency::Chf => 5int,
        },
{
}

/// An amount of money, with its text and its currency.
pub open spec fn says_price(p: Option<wire::PriceV>, amount: int, currency: Currency) -> bool {
    p matches Some(x) && x.amount == Some(decimal_text(amount)) && x.currency == currency.number()
}

/// An amount of power, with its text.
pub open spec fn says_power(p: Option<wire::PowerV>, mw: int) -> bool {
    p matches Some(x) && x.mw == Some(decimal_text(mw))
}

/// An instant, by its seconds and nanoseconds.
pub open spec fn says_instant(p: Option<wire::Timestamp>, t: Timestamp) -> bool {
    p matches Some(x) && x.seconds == t.secs && x.nanos == t.nanos
}

/// An area, by its code and the kind of code.
pub open spec fn says_area(p: Option<wire::DeliveryAreaV>, a: AreaV) -> bool {
    p matches Some(x) && x.code == a.code && x.code_type == a.code_type.number()
}

/// A delivery, by its start and its length.
pub open spec fn says_period(p: Option<wire::DeliveryPeriod>, d: DeliveryPeriod) -> bool {
    p matches Some(x) && says_instant(x.start, d.start) && x.duration == d.duration.number()
}

/// An order travels field by field: where and for when it is, its kind, its
/// side, its price and quantity, its restriction, validity, payload and tag.
/// What it does not have is not set.
pub proof fn orders_travel_field_by_field(o: OrderV)
    ensures
        ({
            let p = order_wire(o);
            &&& says_area(p.delivery_area, o.area)
            &&& says_period(p.delivery_period, o.period)
            &&& p.order_type == o.order_type.number()
            &&& p.side == o.side.number()
            &&& says_price(p.price, o.price, o.currency)
            &&& says_power(p.quantity, o.quantity)
            &&& p.stop_price is Some <==> o.stop_price is Some
            &&& o.stop_price matches Some(x) ==> says_price(p.stop_price, x, o.currency)
            &&& p.peak_price_delta is Some <==> o.peak_price_delta is Some
            &&& o.peak_price_delta matches Some(x) ==> says_price(
                p.peak_price_delta,
                x,
                o.currency,
            )
            &&& p.display_quantity is Some <==> o.display_quantity is Some
            &&& o.display_quantity matches Some(x) ==> says_power(p.display_quantity, x)
            &&& p.execution_option is Some <==> o.execution_option is Some
            &&& o.execution_option matches Some(x) ==> p.execution_option == Some(x.number())
            &&& p.valid_until is Some <==> o.valid_until is Some
            &&& o.valid_until matches Some(t) ==> says_instant(p.valid_until, t)
            &&& p.payload == o.payload
            &&& p.tag == o.tag
        }),
{
}

/// So do the details of an order: its id, the order, its state, why and by
/// whom, what of it is open and what filled, and since when.
pub proof fn details_travel_field_by_field(d: DetailV)
    ensures
        ({
            let p = detail_wire(d);
            &&& p.order_id == d.id
            &&& p.order == Some(order_wire(d.order))
            &&& p.state_detail matches Some(s) && s.state == d.state.state.number()
                && s.state_reason == d.state.reason.number() && s.market_actor
                == d.state.actor.number()
            &&& says_power(p.open_quantity, d.open_quantity)
            &&& says_power(p.filled_quantity, d.filled_quantity)
            &&& says_instant(p.create_time, d.create_time)
            &&& says_instant(p.modification_time, d.modification_time)
        }),
{
}

/// So do trades: those of a gridpool with the order and the side, those that
/// everybody sees with the two areas.
pub proof fn trades_travel_field_by_field(t: TradeV, shown: PublicTradeV)
    ensures
        ({
            let p = trade_wire(t);
            &&& p.id == t.id
            &&& p.order_id == t.order_id
            &&& p.side == t.side.number()
            &&& says_area(p.delivery_area, t.area)
            &&& says_period(p.delivery_period, t.period)
            &&& says_instant(p.execution_time, t.execution_time)
            &&& says_price(p.price, t.price, t.currency)
            &&& says_power(p.quantity, t.quantity)
            &&& p.state == t.state.number()
        }),
        ({
            let p = public_trade_wire(shown);
            &&& p.id == shown.id
            &&& says_area(p.buy_delivery_area, shown.buy_area)
            &&& says_area(p.sell_delivery_area, shown.sell_area)
            &&& says_period(p.delivery_period, shown.period)
            &&& says_instant(p.execution_time, shown.execution_time)
            &&& says_price(p.price, shown.price, shown.currency)
            &&& says_power(p.quantity, shown.quantity)
            &&& p.state == shown.state.number()
        }),
{
}

/// The instant is one that is read: its nanoseconds are those of one second,
/// and its year has at most six digits.
pub open spec fn readable_instant(t: wire::Timestamp) -> bool {
    0 <= t.nanos < 1_000_000_000 && -8_334_601_228_800 <= t.seconds <= 8_210_266_876_799
}

/// The text is there and reads as a number.
pub open spec fn readable_amount(text: Option<Seq<char>>) -> bool {
    text matches Some(t) && decimal_value(t) is Some
}

/// The price has an amount that reads, in a currency that is known.
pub open spec fn readable_price(p: wire::PriceV) -> bool {
    readable_amount(p.amount) && (p.currency == 1 || 3 <= p.currency <= 5)
}

/// What is read of an order is what was written: it reads where its area,
/// delivery, price and quantity are there and read, and its enumerations are
/// set to values that are known; and then every field is the one that was
/// written.
pub proof fn orders_read_as_written(p: wire::OrderV)
    ensures
        order_of(p) is Ok <==> {
            &&& p.delivery_area matches Some(a) && 1 <= a.code_type <= 2
            &&& p.delivery_period matches Some(d) && 1 <= d.duration <= 4 && (d.start matches Some(
                t,
            ) && readable_instant(t))
            &&& p.price matches Some(x) && readable_price(x)
            &&& p.quantity matches Some(x) && readable_amount(x.mw)
            &&& 1 <= p.order_type <= 7
            &&& 1 <= p.side <= 2
            &&& p.execution_option matches Some(x) ==> 1 <= x <= 3
            &&& p.stop_price matches Some(x) ==> readable_price(x) && x.currency
                == p.price->0.currency
            &&& p.peak_price_delta matches Some(x) ==> readable_price(x) && x.currency
                == p.price->0.currency
            &&& p.display_quantity matches Some(x) ==> readable_amount(x.mw)
            &&& p.valid_until matches Some(t) ==> readable_instant(t)
        },
        order_of(p) matches Ok(o) ==> {
            &&& o.area.code == p.delivery_area->0.code
            &&& o.area.code_type.number() == p.delivery_area->0.code_type
            &&& says_instant(p.delivery_period->0.start, o.period.start)
            &&& o.period.duration.number() == p.delivery_period->0.duration
            &&& o.order_type.number() == p.order_type
            &&& o.side.number() == p.side
            &&& Some(o.price) == decimal_value(p.price->0.amount->0)
            &&& o.currency.number() == p.price->0.currency
            &&& Some(o.quantity) == decimal_value(p.quantity->0.mw->0)
            &&& o.stop_price == (match p.stop_price {
                Some(x) => decimal_value(x.amount->0),
                None => None,
            })
            &&& o.peak_price_delta == (match p.peak_price_delta {
                Some(x) => decimal_value(x.amount->0),
                None => None,
            })
            &&& o.display_quantity == (match p.display_quantity {
                Some(x) => decimal_value(x.mw->0),
                None => None,
            })
            &&& o.execution_option is Some <==> p.execution_option is Some
            &&& p.execution_option matches Some(x) ==> o.execution_option->0.number() == x
            &&& o.valid_until is Some <==> p.valid_until is Some
            &&& p.valid_until is Some ==> says_instant(p.valid_until, o.valid_until->0)
            &&& o.payload == p.payload
            &&& o.tag == p.tag
        },
{
}

/// An update reads where the fields it has read, and asks for just those.
pub proof fn updates_read_as_written(
    price: Option<wire::PriceV>,
    quantity: Option<wire::PowerV>,
    valid_until: Option<wire::Timestamp>,
    tag: Option<Seq<char>>,
)
    ensures
        update_of(price, quantity, valid_until, tag) is Ok <==> {
            &&& price matches Some(x) ==> readable_price(x)
            &&& quantity matches Some(x) ==> readable_amount(x.mw)
            &&& valid_until matches Some(t) ==> readable_instant(t)
        },
        update_of(price, quantity, valid_until, tag) matches Ok(u) ==> {
            &&& u.price == (match price {
                Some(x) => decimal_value(x.amount->0),
                None => None,
            })
            &&& u.currency is Some <==> price is Some
            &&& price matches Some(x) ==> u.currency->0.number() == x.currency
            &&& u.quantity == (match quantity {
                Some(x) => decimal_value(x.mw->0),
                None => None,
            })
            &&& u.valid_until is Some <==> valid_until is Some
            &&& valid_until is Some ==> says_instant(valid_until, u.valid_until->0)
            &&& u.tag == tag
        },
{
}

} // verus!
