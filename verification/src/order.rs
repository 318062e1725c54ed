//! Order data types and state machines.

use crate::decimal::Decimal;
use crate::market::{Area, AreaV, Currency, DeliveryPeriod};
use crate::time::Timestamp;
use vstd::prelude::*;

verus! {

/// Which side of the market an order is on.
#[derive(Clone, Copy, Debug, PartialEq, Eq, Hash, Structural)]
pub enum Side {
    Unspecified,
    Buy,
    Sell,
}

/// How an order's price behaves.
#[derive(Clone, Copy, Debug, PartialEq, Eq, Hash, Structural)]
pub enum OrderType {
    Unspecified,
    Limit,
    StopLimit,
    Iceberg,
    Block,
    Balance,
    Prearranged,
    Private,
}

/// What may happen to quantity that does not match at once.
#[derive(Clone, Copy, Debug, PartialEq, Eq, Hash, Structural)]
pub enum ExecutionOption {
    Unspecified,
    Aon,
    Fok,
    Ioc,
}

/// Where an order stands in its life.
#[derive(Clone, Copy, Debug, PartialEq, Eq, Hash, Structural)]
pub enum OrderState {
    Unspecified,
    Pending,
    Active,
    Filled,
    Canceled,
    Expired,
    Failed,
    Hibernate,
}

/// Why an order is in its state.
#[derive(Clone, Copy, Debug, PartialEq, Eq, Hash, Structural)]
pub enum StateReason {
    Unspecified,
    Add,
    Modify,
    Delete,
    Deactivate,
    Reject,
    FullExecution,
    PartialExecution,
    IcebergSliceAdd,
    ValidationFail,
    UnknownState,
    QuoteAdd,
    QuoteFullExecution,
    QuotePartialExecution,
}

/// Who put an order into its state.
#[derive(Clone, Copy, Debug, PartialEq, Eq, Hash, Structural)]
pub enum MarketActor {
    Unspecified,
    User,
    MarketOperator,
    System,
}

/// Monotonic server-assigned id. Allocated at admit-time, not at
/// validation, so a rejected order never burns an id.
#[derive(Clone, Copy, Debug, PartialEq, Eq, Hash, PartialOrd, Ord, Structural)]
pub struct OrderId(pub u64);

/// The id of a gridpool.
#[derive(Clone, Copy, Debug, PartialEq, Eq, Hash, PartialOrd, Ord, Structural)]
pub struct GridpoolId(pub u64);

impl View for OrderId {
    type V = u64;

    open spec fn view(&self) -> u64 {
        self.0
    }
}

impl View for GridpoolId {
    type V = u64;

    open spec fn view(&self) -> u64 {
        self.0
    }
}

impl crate::table::Key for OrderId {
    fn same_key(&self, other: &Self) -> (r: bool) {
        self.0 == other.0
    }
}

impl crate::table::Key for GridpoolId {
    fn same_key(&self, other: &Self) -> (r: bool) {
        self.0 == other.0
    }
}

/// The other side; an unspecified side has no other.
pub open spec fn other_side(side: Side) -> Side {
    match side {
        Side::Buy => Side::Sell,
        Side::Sell => Side::Buy,
        Side::Unspecified => Side::Unspecified,
    }
}

/// The states an order never leaves.
pub open spec fn terminal(state: OrderState) -> bool {
    state == OrderState::Filled || state == OrderState::Canceled || state == OrderState::Expired
        || state == OrderState::Failed
}

impl Side {
    /// Buy and Sell swap; Unspecified passes through to itself.
    pub fn opposite(self) -> (r: Self)
        ensures
            r == other_side(self),
            other_side(r) == self,
    {
        match self {
            Side::Buy => Side::Sell,
            Side::Sell => Side::Buy,
            Side::Unspecified => Side::Unspecified,
        }
    }
}

impl OrderState {
    /// True iff no further matching, cancel, or modify can happen.
    pub fn is_terminal(self) -> (r: bool)
        ensures
            r == terminal(self),
    {
        matches!(self, OrderState::Filled | OrderState::Canceled | OrderState::Expired | OrderState::Failed)
    }
}

/// State, reason and actor of an order.
#[derive(Clone, Copy, Debug, PartialEq, Eq, Hash, Structural)]
pub struct StateDetail {
    pub state: OrderState,
    pub reason: StateReason,
    pub actor: MarketActor,
}

/// The user-supplied half of an order. Server fields (id, fills,
/// timestamps, state) live on [`OrderDetail`].
#[derive(Debug)]
pub struct Order {
    pub area: Area,
    pub period: DeliveryPeriod,
    pub order_type: OrderType,
    pub side: Side,
    pub price: Decimal,
    pub currency: Currency,
    pub quantity: Decimal,
    /// Trigger price of a stop-limit order, otherwise None.
    pub stop_price: Option<Decimal>,
    /// Iceberg: difference between peak slice price and limit price.
    pub peak_price_delta: Option<Decimal>,
    /// Iceberg: per-slice quantity exposed on the public book.
    pub display_quantity: Option<Decimal>,
    pub execution_option: Option<ExecutionOption>,
    /// Auto-cancel if not filled by this UTC time. Lies in the future when the
    /// order is admitted, and does not go with an execution restriction.
    pub valid_until: Option<Timestamp>,
    /// Opaque user payload, as JSON text.
    pub payload: Option<String>,
    /// User-defined tag for grouping; matched in filters.
    pub tag: Option<String>,
}

/// An [`Order`] as contracts speak of it.
pub ghost struct OrderV {
    pub area: AreaV,
    pub period: DeliveryPeriod,
    pub order_type: OrderType,
    pub side: Side,
    pub price: int,
    pub currency: Currency,
    pub quantity: int,
    pub stop_price: Option<int>,
    pub peak_price_delta: Option<int>,
    pub display_quantity: Option<int>,
    pub execution_option: Option<ExecutionOption>,
    pub valid_until: Option<Timestamp>,
    pub payload: Option<Seq<char>>,
    pub tag: Option<Seq<char>>,
}

/// The views inside an option.
pub open spec fn view_option<T: View>(o: Option<T>) -> Option<T::V> {
    match o {
        Some(x) => Some(x@),
        None => None,
    }
}

impl View for Order {
    type V = OrderV;

    open spec fn view(&self) -> OrderV {
        OrderV {
            area: self.area@,
            period: self.period,
            order_type: self.order_type,
            side: self.side,
            price: self.price@,
            currency: self.currency,
            quantity: self.quantity@,
            stop_price: view_option(self.stop_price),
            peak_price_delta: view_option(self.peak_price_delta),
            display_quantity: view_option(self.display_quantity),
            execution_option: self.execution_option,
            valid_until: self.valid_until,
            payload: view_option(self.payload),
            tag: view_option(self.tag),
        }
    }
}

/// A plain limit order: no restriction, no expiry, nothing optional.
pub open spec fn limit_order(
    area: AreaV,
    period: DeliveryPeriod,
    side: Side,
    price: int,
    quantity: int,
    currency: Currency,
) -> OrderV {
    OrderV {
        area,
        period,
        order_type: OrderType::Limit,
        side,
        price,
        currency,
        quantity,
        stop_price: None,
        peak_price_delta: None,
        display_quantity: None,
        execution_option: None,
        valid_until: None,
        payload: None,
        tag: None,
    }
}

/// A copy of an optional text.
pub fn clone_text(text: &Option<String>) -> (r: Option<String>)
    ensures
        view_option(r) == view_option(*text),
{
    match text {
        Some(s) => Some(s.clone()),
        None => None,
    }
}

/// Whether two optional texts are the same.
fn same_text(a: &Option<String>, b: &Option<String>) -> (r: bool)
    ensures
        r == (view_option(*a) == view_option(*b)),
{
    match (a, b) {
        (Some(x), Some(y)) => *x == *y,
        (None, None) => true,
        _ => false,
    }
}

/// Whether two optional decimals are the same number.
fn same_decimal(a: &Option<Decimal>, b: &Option<Decimal>) -> (r: bool)
    ensures
        r == (view_option(*a) == view_option(*b)),
{
    match (a, b) {
        (Some(x), Some(y)) => x.same(*y),
        (None, None) => true,
        _ => false,
    }
}

impl Order {
    /// A plain limit order.
    pub fn limit(
        area: Area,
        period: DeliveryPeriod,
        side: Side,
        price: Decimal,
        quantity: Decimal,
        currency: Currency,
    ) -> (r: Order)
        ensures
            r@ == limit_order(area@, period, side, price@, quantity@, currency),
    {
        Order {
            area,
            period,
            order_type: OrderType::Limit,
            side,
            price,
            currency,
            quantity,
            stop_price: None,
            peak_price_delta: None,
            display_quantity: None,
            execution_option: None,
            valid_until: None,
            payload: None,
            tag: None,
        }
    }
}

impl Clone for Order {
    fn clone(&self) -> (r: Self)
        ensures
            r@ == self@,
    {
        Order {
            area: self.area.clone(),
            period: self.period,
            order_type: self.order_type,
            side: self.side,
            price: self.price,
            currency: self.currency,
            quantity: self.quantity,
            stop_price: self.stop_price,
            peak_price_delta: self.peak_price_delta,
            display_quantity: self.display_quantity,
            execution_option: self.execution_option,
            valid_until: self.valid_until,
            payload: clone_text(&self.payload),
            tag: clone_text(&self.tag),
        }
    }
}

/// Whether two optional execution options are the same.
fn same_option(a: &Option<ExecutionOption>, b: &Option<ExecutionOption>) -> (r: bool)
    ensures
        r == (*a == *b),
{
    match (a, b) {
        (Some(x), Some(y)) => *x == *y,
        (None, None) => true,
        _ => false,
    }
}

/// Whether two optional instants are the same.
pub(crate) fn same_instant(a: &Option<Timestamp>, b: &Option<Timestamp>) -> (r: bool)
    ensures
        r == (*a == *b),
{
    match (a, b) {
        (Some(x), Some(y)) => *x == *y,
        (None, None) => true,
        _ => false,
    }
}

impl PartialEq for Order {
    fn eq(&self, other: &Order) -> (r: bool) {
        self.area == other.area && self.period == other.period && self.order_type
            == other.order_type && self.side == other.side && self.price.same(other.price)
            && self.currency == other.currency && self.quantity.same(other.quantity)
            && same_decimal(&self.stop_price, &other.stop_price) && same_decimal(
            &self.peak_price_delta,
            &other.peak_price_delta,
        ) && same_decimal(&self.display_quantity, &other.display_quantity) && same_option(
            &self.execution_option,
            &other.execution_option,
        ) && same_instant(&self.valid_until, &other.valid_until) && same_text(
            &self.payload,
            &other.payload,
        ) && same_text(&self.tag, &other.tag)
    }
}

impl vstd::std_specs::cmp::PartialEqSpecImpl for Order {
    open spec fn obeys_eq_spec() -> bool {
        true
    }

    open spec fn eq_spec(&self, other: &Order) -> bool {
        self@ == other@
    }
}

impl Eq for Order {

}

/// The server-augmented view of an order: the user-submitted [`Order`] with
/// id, fills, state, and timestamps.
#[derive(Debug)]
pub struct OrderDetail {
    pub id: OrderId,
    pub order: Order,
    pub state: StateDetail,
    pub open_quantity: Decimal,
    pub filled_quantity: Decimal,
    pub create_time: Timestamp,
    pub modification_time: Timestamp,
}

/// An [`OrderDetail`] as contracts speak of it.
pub ghost struct DetailV {
    pub id: u64,
    pub order: OrderV,
    pub state: StateDetail,
    pub open_quantity: int,
    pub filled_quantity: int,
    pub create_time: Timestamp,
    pub modification_time: Timestamp,
}

impl View for OrderDetail {
    type V = DetailV;

    open spec fn view(&self) -> DetailV {
        DetailV {
            id: self.id.0,
            order: self.order@,
            state: self.state,
            open_quantity: self.open_quantity@,
            filled_quantity: self.filled_quantity@,
            create_time: self.create_time,
            modification_time: self.modification_time,
        }
    }
}

impl Clone for OrderDetail {
    fn clone(&self) -> (r: Self)
        ensures
            r@ == self@,
    {
        OrderDetail {
            id: self.id,
            order: self.order.clone(),
            state: self.state,
            open_quantity: self.open_quantity,
            filled_quantity: self.filled_quantity,
            create_time: self.create_time,
            modification_time: self.modification_time,
        }
    }
}

/// Taking the other side twice gives the side back.
pub proof fn opposite_is_an_involution(side: Side)
    ensures
        other_side(other_side(side)) == side,
{
}

} // verus!
