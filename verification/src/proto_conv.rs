//! Bridges between the wire messages and the simulator's own types. A
//! conversion onto the wire always succeeds; one off the wire says what was
//! wrong with the message.

use crate::decimal::{decimal_text, decimal_value, Decimal};
use crate::market::{Area, AreaV, CodeType, Currency, DeliveryDuration, DeliveryPeriod};
use crate::order::{
    clone_text, view_option, DetailV, ExecutionOption, MarketActor, Order, OrderDetail, OrderId,
    OrderState, OrderType, OrderV, Side, StateDetail, StateReason,
};
use crate::time::Timestamp;
use crate::trade::{PublicTrade, PublicTradeV, Trade, TradeId, TradeState, TradeV};
use crate::wire;
use vstd::prelude::*;

verus! {

/// Errors that can occur converting from the wire.
#[derive(Clone, Debug, PartialEq, Eq)]
pub enum ConvError {
    /// A submessage field was None where a value is required.
    MissingField(&'static str),
    /// An enumeration value didn't map to a known variant: typically `0` (the
    /// unspecified sentinel) or a future variant.
    UnknownEnum { field: &'static str, value: i32 },
    /// A decimal text could not be parsed.
    InvalidDecimal(String),
    /// A timestamp had nanos or seconds out of range.
    InvalidTimestamp,
}

/// A [`ConvError`] as contracts speak of it.
pub ghost enum ConvErrorV {
    MissingField(Seq<char>),
    UnknownEnum { field: Seq<char>, value: i32 },
    InvalidDecimal(Seq<char>),
    InvalidTimestamp,
}

impl View for ConvError {
    type V = ConvErrorV;

    open spec fn view(&self) -> ConvErrorV {
        match self {
            ConvError::MissingField(name) => ConvErrorV::MissingField(name@),
            ConvError::UnknownEnum { field, value } => ConvErrorV::UnknownEnum {
                field: field@,
                value: *value,
            },
            ConvError::InvalidDecimal(text) => ConvErrorV::InvalidDecimal(text@),
            ConvError::InvalidTimestamp => ConvErrorV::InvalidTimestamp,
        }
    }
}

/// The views inside the result of a conversion.
pub open spec fn view_result<T: View>(r: Result<T, ConvError>) -> Result<T::V, ConvErrorV> {
    match r {
        Ok(x) => Ok(x@),
        Err(e) => Err(e@),
    }
}

/// An enumeration that travels as an integer.
pub trait WireEnum: Sized {
    /// The integer of a value.
    spec fn number(self) -> i32;

    /// The value of an integer.
    spec fn numbered(n: i32) -> Option<Self>;

    /// The value says that the field was not set.
    spec fn unset(self) -> bool;

    /// Every value has its own integer.
    proof fn numbers_round_trip(self)
        ensures
            Self::numbered(self.number()) == Some(self),
    ;

    /// The integer of the value.
    fn to_wire(self) -> (r: i32)
        ensures
            r == self.number(),
    ;

    /// The value of an integer, if it is known.
    fn from_wire(n: i32) -> (r: Option<Self>)
        ensures
            r == Self::numbered(n),
    ;

    /// Whether the value says that the field was not set.
    fn is_unset(&self) -> (r: bool)
        ensures
            r == self.unset(),
    ;
}

/// What decoding an enumeration field comes to.
pub open spec fn decoded<E: WireEnum>(value: i32, field: Seq<char>) -> Result<E, ConvErrorV> {
    match E::numbered(value) {
        Some(e) => Ok(e),
        None => Err(ConvErrorV::UnknownEnum { field, value }),
    }
}

/// What decoding an enumeration field that must be set comes to.
pub open spec fn decoded_set<E: WireEnum>(value: i32, field: Seq<char>) -> Result<E, ConvErrorV> {
    match E::numbered(value) {
        Some(e) => if e.unset() {
            Err(ConvErrorV::UnknownEnum { field, value })
        } else {
            Ok(e)
        },
        None => Err(ConvErrorV::UnknownEnum { field, value }),
    }
}

/// Decode a wire-level integer into its enumeration. The unspecified variant
/// survives the trip; unknown values become `UnknownEnum`.
pub fn decode_enum<E: WireEnum>(value: i32, field: &'static str) -> (r: Result<E, ConvError>)
    ensures
        match r {
            Ok(e) => decoded::<E>(value, field@) == Ok::<E, ConvErrorV>(e),
            Err(e) => decoded::<E>(value, field@) == Err::<E, ConvErrorV>(e@),
        },
{
    match E::from_wire(value) {
        Some(e) => Ok(e),
        None => Err(ConvError::UnknownEnum { field, value }),
    }
}

/// Like [`decode_enum`] but also rejects the unspecified variant: the wire's
/// "field not set" sentinel fails validation at the boundary.
pub fn decode_enum_no_unspecified<E: WireEnum>(value: i32, field: &'static str) -> (r: Result<
    E,
    ConvError,
>)
    ensures
        match r {
            Ok(e) => decoded_set::<E>(value, field@) == Ok::<E, ConvErrorV>(e),
            Err(e) => decoded_set::<E>(value, field@) == Err::<E, ConvErrorV>(e@),
        },
{
    match decode_enum::<E>(value, field) {
        Ok(e) => if e.is_unset() {
            Err(ConvError::UnknownEnum { field, value })
        } else {
            Ok(e)
        },
        Err(e) => Err(e),
    }
}

impl WireEnum for Side {
    open spec fn number(self) -> i32 {
        match self {
            Side::Unspecified => 0i32,
            Side::Buy => 1i32,
            Side::Sell => 2i32,
        }
    }

    open spec fn numbered(n: i32) -> Option<Self> {
        match n {
            0i32 => Some(Side::Unspecified),
            1i32 => Some(Side::Buy),
            2i32 => Some(Side::Sell),
            _ => None,
        }
    }

    open spec fn unset(self) -> bool {
        self == Side::Unspecified
    }

    proof fn numbers_round_trip(self) {
    }

    fn to_wire(self) -> (r: i32) {
        match self {
            Side::Unspecified => 0,
            Side::Buy => 1,
            Side::Sell => 2,
        }
    }

    fn from_wire(n: i32) -> (r: Option<Self>) {
        match n {
            0 => Some(Side::Unspecified),
            1 => Some(Side::Buy),
            2 => Some(Side::Sell),
            _ => None,
        }
    }

    fn is_unset(&self) -> (r: bool) {
        *self == Side::Unspecified
    }
}

impl WireEnum for OrderType {
    open spec fn number(self) -> i32 {
        match self {
            OrderType::Unspecified => 0i32,
            OrderType::Limit => 1i32,
            OrderType::StopLimit => 2i32,
            OrderType::Iceberg => 3i32,
            OrderType::Block => 4i32,
            OrderType::Balance => 5i32,
            OrderType::Prearranged => 6i32,
            OrderType::Private => 7i32,
        }
    }

    open spec fn numbered(n: i32) -> Option<Self> {
        match n {
            0i32 => Some(OrderType::Unspecified),
            1i32 => Some(OrderType::Limit),
            2i32 => Some(OrderType::StopLimit),
            3i32 => Some(OrderType::Iceberg),
            4i32 => Some(OrderType::Block),
            5i32 => Some(OrderType::Balance),
            6i32 => Some(OrderType::Prearranged),
            7i32 => Some(OrderType::Private),
            _ => None,
        }
    }

    open spec fn unset(self) -> bool {
        self == OrderType::Unspecified
    }

    proof fn numbers_round_trip(self) {
    }

    fn to_wire(self) -> (r: i32) {
        match self {
            OrderType::Unspecified => 0,
            OrderType::Limit => 1,
            OrderType::StopLimit => 2,
            OrderType::Iceberg => 3,
            OrderType::Block => 4,
            OrderType::Balance => 5,
            OrderType::Prearranged => 6,
            OrderType::Private => 7,
        }
    }

    fn from_wire(n: i32) -> (r: Option<Self>) {
        match n {
            0 => Some(OrderType::Unspecified),
            1 => Some(OrderType::Limit),
            2 => Some(OrderType::StopLimit),
            3 => Some(OrderType::Iceberg),
            4 => Some(OrderType::Block),
            5 => Some(OrderType::Balance),
            6 => Some(OrderType::Prearranged),
            7 => Some(OrderType::Private),
            _ => None,
        }
    }

    fn is_unset(&self) -> (r: bool) {
        *self == OrderType::Unspecified
    }
}

impl WireEnum for ExecutionOption {
    open spec fn number(self) -> i32 {
        match self {
            ExecutionOption::Unspecified => 0i32,
            ExecutionOption::Aon => 1i32,
            ExecutionOption::Fok => 2i32,
            ExecutionOption::Ioc => 3i32,
        }
    }

    open spec fn numbered(n: i32) -> Option<Self> {
        match n {
            0i32 => Some(ExecutionOption::Unspecified),
            1i32 => Some(ExecutionOption::Aon),
            2i32 => Some(ExecutionOption::Fok),
            3i32 => Some(ExecutionOption::Ioc),
            _ => None,
        }
    }

    open spec fn unset(self) -> bool {
        self == ExecutionOption::Unspecified
    }

    proof fn numbers_round_trip(self) {
    }

    fn to_wire(self) -> (r: i32) {
        match self {
            ExecutionOption::Unspecified => 0,
            ExecutionOption::Aon => 1,
            ExecutionOption::Fok => 2,
            ExecutionOption::Ioc => 3,
        }
    }

    fn from_wire(n: i32) -> (r: Option<Self>) {
        match n {
            0 => Some(ExecutionOption::Unspecified),
            1 => Some(ExecutionOption::Aon),
            2 => Some(ExecutionOption::Fok),
            3 => Some(ExecutionOption::Ioc),
            _ => None,
        }
    }

    fn is_unset(&self) -> (r: bool) {
        *self == ExecutionOption::Unspecified
    }
}

impl WireEnum for OrderState {
    open spec fn number(self) -> i32 {
        match self {
            OrderState::Unspecified => 0i32,
            OrderState::Pending => 1i32,
            OrderState::Active => 2i32,
            OrderState::Filled => 3i32,
            OrderState::Canceled => 4i32,
            OrderState::Expired => 5i32,
            OrderState::Failed => 6i32,
            OrderState::Hibernate => 7i32,
        }
    }

    open spec fn numbered(n: i32) -> Option<Self> {
        match n {
            0i32 => Some(OrderState::Unspecified),
            1i32 => Some(OrderState::Pending),
            2i32 => Some(OrderState::Active),
            3i32 => Some(OrderState::Filled),
            4i32 => Some(OrderState::Canceled),
            5i32 => Some(OrderState::Expired),
            6i32 => Some(OrderState::Failed),
            7i32 => Some(OrderState::Hibernate),
            _ => None,
        }
    }

    open spec fn unset(self) -> bool {
        self == OrderState::Unspecified
    }

    proof fn numbers_round_trip(self) {
    }

    fn to_wire(self) -> (r: i32) {
        match self {
            OrderState::Unspecified => 0,
            OrderState::Pending => 1,
            OrderState::Active => 2,
            OrderState::Filled => 3,
            OrderState::Canceled => 4,
            OrderState::Expired => 5,
            OrderState::Failed => 6,
            OrderState::Hibernate => 7,
        }
    }

    fn from_wire(n: i32) -> (r: Option<Self>) {
        match n {
            0 => Some(OrderState::Unspecified),
            1 => Some(OrderState::Pending),
            2 => Some(OrderState::Active),
            3 => Some(OrderState::Filled),
            4 => Some(OrderState::Canceled),
            5 => Some(OrderState::Expired),
            6 => Some(OrderState::Failed),
            7 => Some(OrderState::Hibernate),
            _ => None,
        }
    }

    fn is_unset(&self) -> (r: bool) {
        *self == OrderState::Unspecified
    }
}

impl WireEnum for StateReason {
    open spec fn number(self) -> i32 {
        match self {
            StateReason::Unspecified => 0i32,
            StateReason::Add => 1i32,
            StateReason::Modify => 2i32,
            StateReason::Delete => 3i32,
            StateReason::Deactivate => 4i32,
            StateReason::Reject => 5i32,
            StateReason::FullExecution => 6i32,
            StateReason::PartialExecution => 7i32,
            StateReason::IcebergSliceAdd => 8i32,
            StateReason::ValidationFail => 9i32,
            StateReason::UnknownState => 10i32,
            StateReason::QuoteAdd => 11i32,
            StateReason::QuoteFullExecution => 12i32,
            StateReason::QuotePartialExecution => 13i32,
        }
    }

    open spec fn numbered(n: i32) -> Option<Self> {
        match n {
            0i32 => Some(StateReason::Unspecified),
            1i32 => Some(StateReason::Add),
            2i32 => Some(StateReason::Modify),
            3i32 => Some(StateReason::Delete),
            4i32 => Some(StateReason::Deactivate),
            5i32 => Some(StateReason::Reject),
            6i32 => Some(StateReason::FullExecution),
            7i32 => Some(StateReason::PartialExecution),
            8i32 => Some(StateReason::IcebergSliceAdd),
            9i32 => Some(StateReason::ValidationFail),
            10i32 => Some(StateReason::UnknownState),
            11i32 => Some(StateReason::QuoteAdd),
            12i32 => Some(StateReason::QuoteFullExecution),
            13i32 => Some(StateReason::QuotePartialExecution),
            _ => None,
        }
    }

    open spec fn unset(self) -> bool {
        self == StateReason::Unspecified
    }

    proof fn numbers_round_trip(self) {
    }

    fn to_wire(self) -> (r: i32) {
        match self {
            StateReason::Unspecified => 0,
            StateReason::Add => 1,
            StateReason::Modify => 2,
            StateReason::Delete => 3,
            StateReason::Deactivate => 4,
            StateReason::Reject => 5,
            StateReason::FullExecution => 6,
            StateReason::PartialExecution => 7,
            StateReason::IcebergSliceAdd => 8,
            StateReason::ValidationFail => 9,
            StateReason::UnknownState => 10,
            StateReason::QuoteAdd => 11,
            StateReason::QuoteFullExecution => 12,
            StateReason::QuotePartialExecution => 13,
        }
    }

    fn from_wire(n: i32) -> (r: Option<Self>) {
        match n {
            0 => Some(StateReason::Unspecified),
            1 => Some(StateReason::Add),
            2 => Some(StateReason::Modify),
            3 => Some(StateReason::Delete),
            4 => Some(StateReason::Deactivate),
            5 => Some(StateReason::Reject),
            6 => Some(StateReason::FullExecution),
            7 => Some(StateReason::PartialExecution),
            8 => Some(StateReason::IcebergSliceAdd),
            9 => Some(StateReason::ValidationFail),
            10 => Some(StateReason::UnknownState),
            11 => Some(StateReason::QuoteAdd),
            12 => Some(StateReason::QuoteFullExecution),
            13 => Some(StateReason::QuotePartialExecution),
            _ => None,
        }
    }

    fn is_unset(&self) -> (r: bool) {
        *self == StateReason::Unspecified
    }
}

impl WireEnum for MarketActor {
    open spec fn number(self) -> i32 {
        match self {
            MarketActor::Unspecified => 0i32,
            MarketActor::User => 1i32,
            MarketActor::MarketOperator => 2i32,
            MarketActor::System => 3i32,
        }
    }

    open spec fn numbered(n: i32) -> Option<Self> {
        match n {
            0i32 => Some(MarketActor::Unspecified),
            1i32 => Some(MarketActor::User),
            2i32 => Some(MarketActor::MarketOperator),
            3i32 => Some(MarketActor::System),
            _ => None,
        }
    }

    open spec fn unset(self) -> bool {
        self == MarketActor::Unspecified
    }

    proof fn numbers_round_trip(self) {
    }

    fn to_wire(self) -> (r: i32) {
        match self {
            MarketActor::Unspecified => 0,
            MarketActor::User => 1,
            MarketActor::MarketOperator => 2,
            MarketActor::System => 3,
        }
    }

    fn from_wire(n: i32) -> (r: Option<Self>) {
        match n {
            0 => Some(MarketActor::Unspecified),
            1 => Some(MarketActor::User),
            2 => Some(MarketActor::MarketOperator),
            3 => Some(MarketActor::System),
            _ => None,
        }
    }

    fn is_unset(&self) -> (r: bool) {
        *self == MarketActor::Unspecified
    }
}

impl WireEnum for TradeState {
    open spec fn number(self) -> i32 {
        match self {
            TradeState::Unspecified => 0i32,
            TradeState::Active => 1i32,
            TradeState::CancelRequested => 2i32,
            TradeState::CancelRejected => 3i32,
            TradeState::Canceled => 4i32,
            TradeState::RecallRequested => 5i32,
            TradeState::RecallRejected => 6i32,
            TradeState::Recalled => 7i32,
            TradeState::ApprovalRequested => 8i32,
        }
    }

    open spec fn numbered(n: i32) -> Option<Self> {
        match n {
            0i32 => Some(TradeState::Unspecified),
            1i32 => Some(TradeState::Active),
            2i32 => Some(TradeState::CancelRequested),
            3i32 => Some(TradeState::CancelRejected),
            4i32 => Some(TradeState::Canceled),
            5i32 => Some(TradeState::RecallRequested),
            6i32 => Some(TradeState::RecallRejected),
            7i32 => Some(TradeState::Recalled),
            8i32 => Some(TradeState::ApprovalRequested),
            _ => None,
        }
    }

    open spec fn unset(self) -> bool {
        self == TradeState::Unspecified
    }

    proof fn numbers_round_trip(self) {
    }

    fn to_wire(self) -> (r: i32) {
        match self {
            TradeState::Unspecified => 0,
            TradeState::Active => 1,
            TradeState::CancelRequested => 2,
            TradeState::CancelRejected => 3,
            TradeState::Canceled => 4,
            TradeState::RecallRequested => 5,
            TradeState::RecallRejected => 6,
            TradeState::Recalled => 7,
            TradeState::ApprovalRequested => 8,
        }
    }

    fn from_wire(n: i32) -> (r: Option<Self>) {
        match n {
            0 => Some(TradeState::Unspecified),
            1 => Some(TradeState::Active),
            2 => Some(TradeState::CancelRequested),
            3 => Some(TradeState::CancelRejected),
            4 => Some(TradeState::Canceled),
            5 => Some(TradeState::RecallRequested),
            6 => Some(TradeState::RecallRejected),
            7 => Some(TradeState::Recalled),
            8 => Some(TradeState::ApprovalRequested),
            _ => None,
        }
    }

    fn is_unset(&self) -> (r: bool) {
        *self == TradeState::Unspecified
    }
}

impl WireEnum for CodeType {
    open spec fn number(self) -> i32 {
        match self {
            CodeType::Unspecified => 0i32,
            CodeType::EuropeEic => 1i32,
            CodeType::UsNerc => 2i32,
        }
    }

    open spec fn numbered(n: i32) -> Option<Self> {
        match n {
            0i32 => Some(CodeType::Unspecified),
            1i32 => Some(CodeType::EuropeEic),
            2i32 => Some(CodeType::UsNerc),
            _ => None,
        }
    }

    open spec fn unset(self) -> bool {
        self == CodeType::Unspecified
    }

    proof fn numbers_round_trip(self) {
    }

    fn to_wire(self) -> (r: i32) {
        match self {
            CodeType::Unspecified => 0,
            CodeType::EuropeEic => 1,
            CodeType::UsNerc => 2,
        }
    }

    fn from_wire(n: i32) -> (r: Option<Self>) {
        match n {
            0 => Some(CodeType::Unspecified),
            1 => Some(CodeType::EuropeEic),
            2 => Some(CodeType::UsNerc),
            _ => None,
        }
    }

    fn is_unset(&self) -> (r: bool) {
        *self == CodeType::Unspecified
    }
}

impl WireEnum for DeliveryDuration {
    open spec fn number(self) -> i32 {
        match self {
            DeliveryDuration::FiveMin => 1i32,
            DeliveryDuration::QuarterHour => 2i32,
            DeliveryDuration::HalfHour => 3i32,
            DeliveryDuration::Hour => 4i32,
        }
    }

    open spec fn numbered(n: i32) -> Option<Self> {
        match n {
            1i32 => Some(DeliveryDuration::FiveMin),
            2i32 => Some(DeliveryDuration::QuarterHour),
            3i32 => Some(DeliveryDuration::HalfHour),
            4i32 => Some(DeliveryDuration::Hour),
            _ => None,
        }
    }

    open spec fn unset(self) -> bool {
        false
    }

    proof fn numbers_round_trip(self) {
    }

    fn to_wire(self) -> (r: i32) {
        match self {
            DeliveryDuration::FiveMin => 1,
            DeliveryDuration::QuarterHour => 2,
            DeliveryDuration::HalfHour => 3,
            DeliveryDuration::Hour => 4,
        }
    }

    fn from_wire(n: i32) -> (r: Option<Self>) {
        match n {
            1 => Some(DeliveryDuration::FiveMin),
            2 => Some(DeliveryDuration::QuarterHour),
            3 => Some(DeliveryDuration::HalfHour),
            4 => Some(DeliveryDuration::Hour),
            _ => None,
        }
    }

    fn is_unset(&self) -> (r: bool) {
        false
    }
}

impl WireEnum for Currency {
    open spec fn number(self) -> i32 {
        match self {
            Currency::Usd => 1i32,
            Currency::Eur => 3i32,
            Currency::Gbp => 4i32,
            Currency::Chf => 5i32,
        }
    }

    open spec fn numbered(n: i32) -> Option<Self> {
        match n {
            1i32 => Some(Currency::Usd),
            3i32 => Some(Currency::Eur),
            4i32 => Some(Currency::Gbp),
            5i32 => Some(Currency::Chf),
            _ => None,
        }
    }

    open spec fn unset(self) -> bool {
        false
    }

    proof fn numbers_round_trip(self) {
    }

    fn to_wire(self) -> (r: i32) {
        match self {
            Currency::Usd => 1,
            Currency::Eur => 3,
            Currency::Gbp => 4,
            Currency::Chf => 5,
        }
    }

    fn from_wire(n: i32) -> (r: Option<Self>) {
        match n {
            1 => Some(Currency::Usd),
            3 => Some(Currency::Eur),
            4 => Some(Currency::Gbp),
            5 => Some(Currency::Chf),
            _ => None,
        }
    }

    fn is_unset(&self) -> (r: bool) {
        false
    }
}

/// The first second of the years an instant can be in.
pub const MIN_SECONDS: i64 = -8_334_601_228_800;

/// The last second of the years an instant can be in.
pub const MAX_SECONDS: i64 = 8_210_266_876_799;

/// `chrono`'s `Utc.timestamp_opt(..).single()`: whether it knows the instant.
/// With nanoseconds below a whole second, that depends on the seconds alone:
/// they lie within the years -262143 to 262142.
#[verifier::external_body]
fn chrono_knows(secs: i64, nanos: u32) -> (r: bool)
    requires
        nanos < 1_000_000_000,
    ensures
        r == (MIN_SECONDS <= secs <= MAX_SECONDS),
{
    chrono::TimeZone::timestamp_opt(&chrono::Utc, secs, nanos).single().is_some()
}

/// What a wire timestamp stands for, if it is in range.
pub open spec fn instant_of(ts: wire::Timestamp) -> Result<Timestamp, ConvErrorV> {
    if 0 <= ts.nanos < 1_000_000_000 && MIN_SECONDS <= ts.seconds <= MAX_SECONDS {
        Ok(Timestamp { secs: ts.seconds, nanos: ts.nanos })
    } else {
        Err(ConvErrorV::InvalidTimestamp)
    }
}

/// The wire timestamp of an instant.
pub open spec fn instant_wire(t: Timestamp) -> wire::Timestamp {
    wire::Timestamp { seconds: t.secs, nanos: t.nanos }
}

/// The instant is one that the wire can carry both ways.
pub open spec fn instant_valid(t: Timestamp) -> bool {
    0 <= t.nanos < 1_000_000_000 && MIN_SECONDS <= t.secs <= MAX_SECONDS
}

/// Wire timestamp to instant. Rejects out-of-range nanos rather than silently
/// clamping.
pub fn timestamp_from_proto(ts: &wire::Timestamp) -> (r: Result<Timestamp, ConvError>)
    ensures
        match r {
            Ok(t) => instant_of(*ts) == Ok::<Timestamp, ConvErrorV>(t),
            Err(e) => instant_of(*ts) == Err::<Timestamp, ConvErrorV>(e@),
        },
{
    if ts.nanos < 0 || ts.nanos >= 1_000_000_000 {
        return Err(ConvError::InvalidTimestamp);
    }
    if chrono_knows(ts.seconds, ts.nanos as u32) {
        Ok(Timestamp { secs: ts.seconds, nanos: ts.nanos })
    } else {
        Err(ConvError::InvalidTimestamp)
    }
}

/// Instant to wire timestamp.
pub fn timestamp_to_proto(t: Timestamp) -> (r: wire::Timestamp)
    ensures
        r == instant_wire(t),
{
    wire::Timestamp { seconds: t.secs, nanos: t.nanos }
}

/// What a decimal text on the wire stands for.
pub open spec fn amount_of(text: Seq<char>) -> Result<int, ConvErrorV> {
    match decimal_value(text) {
        Some(v) => Ok(v),
        None => Err(ConvErrorV::InvalidDecimal(text)),
    }
}

/// Wire decimal to number.
pub fn decimal_from_proto(d: &wire::Decimal) -> (r: Result<Decimal, ConvError>)
    ensures
        view_result(r) == amount_of(d@),
{
    match Decimal::parse(d.value.as_str()) {
        Some(v) => Ok(v),
        None => Err(ConvError::InvalidDecimal(d.value.clone())),
    }
}

/// Number to wire decimal.
pub fn decimal_to_proto(d: Decimal) -> (r: wire::Decimal)
    ensures
        r@ == decimal_text(d@),
        amount_of(r@) == Ok::<int, ConvErrorV>(d@),
{
    wire::Decimal { value: d.to_text() }
}

/// The wire shape of an area.
pub open spec fn area_wire(a: AreaV) -> wire::DeliveryAreaV {
    wire::DeliveryAreaV { code: a.code, code_type: a.code_type.number() }
}

/// What a wire area stands for.
pub open spec fn area_of(p: wire::DeliveryAreaV) -> Result<AreaV, ConvErrorV> {
    match decoded_set::<CodeType>(p.code_type, "EnergyMarketCodeType"@) {
        Ok(code_type) => Ok(AreaV { code: p.code, code_type }),
        Err(e) => Err(e),
    }
}

/// Area to wire area.
pub fn area_to_proto(a: &Area) -> (r: wire::DeliveryArea)
    ensures
        r@ == area_wire(a@),
{
    wire::DeliveryArea { code: a.code.clone(), code_type: a.code_type.to_wire() }
}

/// Wire area to area.
pub fn area_from_proto(p: &wire::DeliveryArea) -> (r: Result<Area, ConvError>)
    ensures
        view_result(r) == area_of(p@),
{
    match decode_enum_no_unspecified::<CodeType>(p.code_type, "EnergyMarketCodeType") {
        Ok(code_type) => Ok(Area { code: p.code.clone(), code_type }),
        Err(e) => Err(e),
    }
}

/// The wire shape of a delivery period.
pub open spec fn period_wire(p: DeliveryPeriod) -> wire::DeliveryPeriod {
    wire::DeliveryPeriod { start: Some(instant_wire(p.start)), duration: p.duration.number() }
}

/// What a wire delivery period stands for.
pub open spec fn period_of(p: wire::DeliveryPeriod) -> Result<DeliveryPeriod, ConvErrorV> {
    match p.start {
        None => Err(ConvErrorV::MissingField("DeliveryPeriod.start"@)),
        Some(start) => match decoded_set::<DeliveryDuration>(p.duration, "DeliveryDuration"@) {
            Err(e) => Err(e),
            Ok(duration) => match instant_of(start) {
                Err(e) => Err(e),
                Ok(start) => Ok(DeliveryPeriod { start, duration }),
            },
        },
    }
}

/// Delivery period to wire delivery period.
pub fn period_to_proto(p: DeliveryPeriod) -> (r: wire::DeliveryPeriod)
    ensures
        r == period_wire(p),
{
    wire::DeliveryPeriod {
        start: Some(timestamp_to_proto(p.start)),
        duration: p.duration.to_wire(),
    }
}

/// Wire delivery period to delivery period.
pub fn period_from_proto(p: &wire::DeliveryPeriod) -> (r: Result<DeliveryPeriod, ConvError>)
    ensures
        match r {
            Ok(x) => period_of(*p) == Ok::<DeliveryPeriod, ConvErrorV>(x),
            Err(e) => period_of(*p) == Err::<DeliveryPeriod, ConvErrorV>(e@),
        },
{
    let start = match p.start {
        Some(start) => start,
        None => {
            return Err(ConvError::MissingField("DeliveryPeriod.start"));
        },
    };
    let duration = match decode_enum_no_unspecified::<DeliveryDuration>(
        p.duration,
        "DeliveryDuration",
    ) {
        Ok(duration) => duration,
        Err(e) => {
            return Err(e);
        },
    };
    match timestamp_from_proto(&start) {
        Ok(start) => Ok(DeliveryPeriod { start, duration }),
        Err(e) => Err(e),
    }
}

/// The wire shape of a price.
pub open spec fn price_wire(amount: int, currency: Currency) -> wire::PriceV {
    wire::PriceV { amount: Some(decimal_text(amount)), currency: currency.number() }
}

/// What a wire price stands for.
pub open spec fn price_of(p: wire::PriceV) -> Result<(int, Currency), ConvErrorV> {
    match p.amount {
        None => Err(ConvErrorV::MissingField("Price.amount"@)),
        Some(text) => match decoded_set::<Currency>(p.currency, "Currency"@) {
            Err(e) => Err(e),
            Ok(currency) => match amount_of(text) {
                Err(e) => Err(e),
                Ok(amount) => Ok((amount, currency)),
            },
        },
    }
}

/// Wire price to (amount, currency).
pub fn price_from_proto(p: &wire::Price) -> (r: Result<(Decimal, Currency), ConvError>)
    ensures
        match r {
            Ok(x) => price_of(p@) == Ok::<(int, Currency), ConvErrorV>((x.0@, x.1)),
            Err(e) => price_of(p@) == Err::<(int, Currency), ConvErrorV>(e@),
        },
{
    let amount = match &p.amount {
        Some(amount) => amount,
        None => {
            return Err(ConvError::MissingField("Price.amount"));
        },
    };
    let currency = match decode_enum_no_unspecified::<Currency>(p.currency, "Currency") {
        Ok(currency) => currency,
        Err(e) => {
            return Err(e);
        },
    };
    match decimal_from_proto(amount) {
        Ok(amount) => Ok((amount, currency)),
        Err(e) => Err(e),
    }
}

/// (amount, currency) to wire price.
pub fn price_to_proto(amount: Decimal, currency: Currency) -> (r: wire::Price)
    ensures
        r@ == price_wire(amount@, currency),
        price_of(r@) == Ok::<(int, Currency), ConvErrorV>((amount@, currency)),
{
    wire::Price { amount: Some(decimal_to_proto(amount)), currency: currency.to_wire() }
}

/// The wire shape of a power.
pub open spec fn power_wire(mw: int) -> wire::PowerV {
    wire::PowerV { mw: Some(decimal_text(mw)) }
}

/// What a wire power stands for.
pub open spec fn power_of(p: wire::PowerV) -> Result<int, ConvErrorV> {
    match p.mw {
        None => Err(ConvErrorV::MissingField("Power.mw"@)),
        Some(text) => amount_of(text),
    }
}

/// Wire power to MW amount.
pub fn power_from_proto(p: &wire::Power) -> (r: Result<Decimal, ConvError>)
    ensures
        view_result(r) == power_of(p@),
{
    match &p.mw {
        Some(mw) => decimal_from_proto(mw),
        None => Err(ConvError::MissingField("Power.mw")),
    }
}

/// MW amount to wire power.
pub fn power_to_proto(mw: Decimal) -> (r: wire::Power)
    ensures
        r@ == power_wire(mw@),
        power_of(r@) == Ok::<int, ConvErrorV>(mw@),
{
    wire::Power { mw: Some(decimal_to_proto(mw)) }
}

/// The wire shape of an optional price.
pub open spec fn option_price_wire(p: Option<int>, currency: Currency) -> Option<wire::PriceV> {
    match p {
        Some(v) => Some(price_wire(v, currency)),
        None => None,
    }
}

/// The wire shape of an order.
pub open spec fn order_wire(o: OrderV) -> wire::OrderV {
    wire::OrderV {
        delivery_area: Some(area_wire(o.area)),
        delivery_period: Some(period_wire(o.period)),
        order_type: o.order_type.number(),
        side: o.side.number(),
        price: Some(price_wire(o.price, o.currency)),
        quantity: Some(power_wire(o.quantity)),
        stop_price: option_price_wire(o.stop_price, o.currency),
        peak_price_delta: option_price_wire(o.peak_price_delta, o.currency),
        display_quantity: match o.display_quantity {
            Some(v) => Some(power_wire(v)),
            None => None,
        },
        execution_option: match o.execution_option {
            Some(e) => Some(e.number()),
            None => None,
        },
        valid_until: match o.valid_until {
            Some(t) => Some(instant_wire(t)),
            None => None,
        },
        payload: o.payload,
        tag: o.tag,
    }
}

/// An optional price off the wire: it must share the order's currency.
pub open spec fn same_currency_price(
    p: Option<wire::PriceV>,
    currency: Currency,
    field: Seq<char>,
) -> Result<Option<int>, ConvErrorV> {
    match p {
        None => Ok(None),
        Some(p) => match price_of(p) {
            Err(e) => Err(e),
            Ok(x) => if x.1 != currency {
                Err(ConvErrorV::UnknownEnum { field, value: x.1.number() })
            } else {
                Ok(Some(x.0))
            },
        },
    }
}

/// The part of an order that is read first.
pub ghost struct OrderHead {
    pub area: AreaV,
    pub period: DeliveryPeriod,
    pub price: int,
    pub currency: Currency,
    pub quantity: wire::PowerV,
    pub order_type: OrderType,
    pub side: Side,
    pub execution_option: Option<ExecutionOption>,
}

/// Area, period, price, currency, type, side and execution option of a wire
/// order, in the order in which they are checked.
pub open spec fn order_head_of(p: wire::OrderV) -> Result<OrderHead, ConvErrorV> {
    match p.delivery_area {
        None => Err(ConvErrorV::MissingField("Order.delivery_area"@)),
        Some(area) => match area_of(area) {
            Err(e) => Err(e),
            Ok(area) => match p.delivery_period {
                None => Err(ConvErrorV::MissingField("Order.delivery_period"@)),
                Some(period) => match period_of(period) {
                    Err(e) => Err(e),
                    Ok(period) => match p.price {
                        None => Err(ConvErrorV::MissingField("Order.price"@)),
                        Some(price) => match p.quantity {
                            None => Err(ConvErrorV::MissingField("Order.quantity"@)),
                            Some(quantity) => match price_of(price) {
                                Err(e) => Err(e),
                                Ok(paid) => match decoded_set::<OrderType>(
                                    p.order_type,
                                    "OrderType"@,
                                ) {
                                    Err(e) => Err(e),
                                    Ok(order_type) => match decoded_set::<Side>(
                                        p.side,
                                        "MarketSide"@,
                                    ) {
                                        Err(e) => Err(e),
                                        Ok(side) => match execution_option_of(p.execution_option) {
                                            Err(e) => Err(e),
                                            Ok(execution_option) => Ok(
                                                OrderHead {
                                                    area,
                                                    period,
                                                    price: paid.0,
                                                    currency: paid.1,
                                                    quantity,
                                                    order_type,
                                                    side,
                                                    execution_option,
                                                },
                                            ),
                                        },
                                    },
                                },
                            },
                        },
                    },
                },
            },
        },
    }
}

/// An optional execution option off the wire.
pub open spec fn execution_option_of(raw: Option<i32>) -> Result<
    Option<ExecutionOption>,
    ConvErrorV,
> {
    match raw {
        None => Ok(None),
        Some(raw) => match decoded_set::<ExecutionOption>(raw, "OrderExecutionOption"@) {
            Err(e) => Err(e),
            Ok(e) => Ok(Some(e)),
        },
    }
}

/// What a wire order stands for.
pub open spec fn order_of(p: wire::OrderV) -> Result<OrderV, ConvErrorV> {
    match order_head_of(p) {
        Err(e) => Err(e),
        Ok(h) => match power_of(h.quantity) {
            Err(e) => Err(e),
            Ok(quantity) => match same_currency_price(
                p.stop_price,
                h.currency,
                "Order.stop_price.currency"@,
            ) {
                Err(e) => Err(e),
                Ok(stop_price) => match same_currency_price(
                    p.peak_price_delta,
                    h.currency,
                    "Order.peak_price_delta.currency"@,
                ) {
                    Err(e) => Err(e),
                    Ok(peak_price_delta) => match option_power_of(p.display_quantity) {
                        Err(e) => Err(e),
                        Ok(display_quantity) => match option_instant_of(p.valid_until) {
                            Err(e) => Err(e),
                            Ok(valid_until) => Ok(
                                OrderV {
                                    area: h.area,
                                    period: h.period,
                                    order_type: h.order_type,
                                    side: h.side,
                                    price: h.price,
                                    currency: h.currency,
                                    quantity,
                                    stop_price,
                                    peak_price_delta,
                                    display_quantity,
                                    execution_option: h.execution_option,
                                    valid_until,
                                    payload: p.payload,
                                    tag: p.tag,
                                },
                            ),
                        },
                    },
                },
            },
        },
    }
}

/// An optional power off the wire.
pub open spec fn option_power_of(p: Option<wire::PowerV>) -> Result<Option<int>, ConvErrorV> {
    match p {
        None => Ok(None),
        Some(p) => match power_of(p) {
            Err(e) => Err(e),
            Ok(v) => Ok(Some(v)),
        },
    }
}

/// An optional instant off the wire.
pub open spec fn option_instant_of(t: Option<wire::Timestamp>) -> Result<
    Option<Timestamp>,
    ConvErrorV,
> {
    match t {
        None => Ok(None),
        Some(t) => match instant_of(t) {
            Err(e) => Err(e),
            Ok(t) => Ok(Some(t)),
        },
    }
}

/// The order is one that the wire can carry both ways: its enumerations are
/// set and its instants in range.
pub open spec fn order_portable(o: OrderV) -> bool {
    &&& o.area.code_type != CodeType::Unspecified
    &&& instant_valid(o.period.start)
    &&& o.order_type != OrderType::Unspecified
    &&& o.side != Side::Unspecified
    &&& o.execution_option != Some(ExecutionOption::Unspecified)
    &&& (o.valid_until matches Some(t) ==> instant_valid(t))
}

fn option_price_to_proto(p: Option<Decimal>, currency: Currency) -> (r: Option<wire::Price>)
    ensures
        view_option(r) == option_price_wire(view_option(p), currency),
        forall|field: Seq<char>|
            #![trigger same_currency_price(view_option(r), currency, field)]
            same_currency_price(view_option(r), currency, field) == Ok::<Option<int>, ConvErrorV>(
                view_option(p),
            ),
{
    match p {
        Some(v) => Some(price_to_proto(v, currency)),
        None => None,
    }
}

/// Order to wire order. An order whose enumerations are set and whose
/// instants are in range reads back as it was.
pub fn order_to_proto(o: &Order) -> (r: wire::Order)
    ensures
        r@ == order_wire(o@),
        order_portable(o@) ==> order_of(r@) == Ok::<OrderV, ConvErrorV>(o@),
{
    let display_quantity = match o.display_quantity {
        Some(v) => Some(power_to_proto(v)),
        None => None,
    };
    let execution_option = match o.execution_option {
        Some(e) => Some(e.to_wire()),
        None => None,
    };
    let valid_until = match o.valid_until {
        Some(t) => Some(timestamp_to_proto(t)),
        None => None,
    };
    let r = wire::Order {
        delivery_area: Some(area_to_proto(&o.area)),
        delivery_period: Some(period_to_proto(o.period)),
        order_type: o.order_type.to_wire(),
        side: o.side.to_wire(),
        price: Some(price_to_proto(o.price, o.currency)),
        quantity: Some(power_to_proto(o.quantity)),
        stop_price: option_price_to_proto(o.stop_price, o.currency),
        peak_price_delta: option_price_to_proto(o.peak_price_delta, o.currency),
        display_quantity,
        execution_option,
        valid_until,
        payload: clone_text(&o.payload),
        tag: clone_text(&o.tag),
    };
    assert(r@.display_quantity == order_wire(o@).display_quantity);
    r
}

fn price_in_currency(
    p: &Option<wire::Price>,
    currency: Currency,
    field: &'static str,
) -> (r: Result<Option<Decimal>, ConvError>)
    ensures
        match r {
            Ok(x) => same_currency_price(view_option(*p), currency, field@) == Ok::<
                Option<int>,
                ConvErrorV,
            >(view_option(x)),
            Err(e) => same_currency_price(view_option(*p), currency, field@) == Err::<
                Option<int>,
                ConvErrorV,
            >(e@),
        },
{
    match p {
        None => Ok(None),
        Some(p) => match price_from_proto(p) {
            Err(e) => Err(e),
            Ok((amount, c)) => if c != currency {
                Err(ConvError::UnknownEnum { field, value: c.to_wire() })
            } else {
                Ok(Some(amount))
            },
        },
    }
}

/// Wire order to order.
pub fn order_from_proto(p: &wire::Order) -> (r: Result<Order, ConvError>)
    ensures
        view_result(r) == order_of(p@),
{
    let area = match &p.delivery_area {
        Some(area) => match area_from_proto(area) {
            Ok(area) => area,
            Err(e) => {
                return Err(e);
            },
        },
        None => {
            return Err(ConvError::MissingField("Order.delivery_area"));
        },
    };
    let period = match &p.delivery_period {
        Some(period) => match period_from_proto(period) {
            Ok(period) => period,
            Err(e) => {
                return Err(e);
            },
        },
        None => {
            return Err(ConvError::MissingField("Order.delivery_period"));
        },
    };
    let price_message = match &p.price {
        Some(price) => price,
        None => {
            return Err(ConvError::MissingField("Order.price"));
        },
    };
    let quantity_message = match &p.quantity {
        Some(quantity) => quantity,
        None => {
            return Err(ConvError::MissingField("Order.quantity"));
        },
    };
    let (price, currency) = match price_from_proto(price_message) {
        Ok(paid) => paid,
        Err(e) => {
            return Err(e);
        },
    };
    let order_type = match decode_enum_no_unspecified::<OrderType>(p.order_type, "OrderType") {
        Ok(order_type) => order_type,
        Err(e) => {
            return Err(e);
        },
    };
    let side = match decode_enum_no_unspecified::<Side>(p.side, "MarketSide") {
        Ok(side) => side,
        Err(e) => {
            return Err(e);
        },
    };
    let execution_option = match p.execution_option {
        Some(raw) => match decode_enum_no_unspecified::<ExecutionOption>(
            raw,
            "OrderExecutionOption",
        ) {
            Ok(option) => Some(option),
            Err(e) => {
                return Err(e);
            },
        },
        None => None,
    };
    let quantity = match power_from_proto(quantity_message) {
        Ok(quantity) => quantity,
        Err(e) => {
            return Err(e);
        },
    };
    let stop_price = match price_in_currency(
        &p.stop_price,
        currency,
        "Order.stop_price.currency",
    ) {
        Ok(price) => price,
        Err(e) => {
            return Err(e);
        },
    };
    let peak_price_delta = match price_in_currency(
        &p.peak_price_delta,
        currency,
        "Order.peak_price_delta.currency",
    ) {
        Ok(price) => price,
        Err(e) => {
            return Err(e);
        },
    };
    let display_quantity = match &p.display_quantity {
        Some(power) => match power_from_proto(power) {
            Ok(power) => Some(power),
            Err(e) => {
                return Err(e);
            },
        },
        None => None,
    };
    let valid_until = match &p.valid_until {
        Some(t) => match timestamp_from_proto(t) {
            Ok(t) => Some(t),
            Err(e) => {
                return Err(e);
            },
        },
        None => None,
    };
    Ok(
        Order {
            area,
            period,
            order_type,
            side,
            price,
            currency,
            quantity,
            stop_price,
            peak_price_delta,
            display_quantity,
            execution_option,
            valid_until,
            payload: clone_text(&p.payload),
            tag: clone_text(&p.tag),
        },
    )
}

/// The wire shape of an order's state.
pub open spec fn state_wire(s: StateDetail) -> wire::StateDetail {
    wire::StateDetail {
        state: s.state.number(),
        state_reason: s.reason.number(),
        market_actor: s.actor.number(),
    }
}

/// What a wire order state stands for.
pub open spec fn state_of(p: wire::StateDetail) -> Result<StateDetail, ConvErrorV> {
    match decoded_set::<OrderState>(p.state, "OrderState"@) {
        Err(e) => Err(e),
        Ok(state) => match decoded_set::<StateReason>(p.state_reason, "StateReason"@) {
            Err(e) => Err(e),
            Ok(reason) => match decoded_set::<MarketActor>(p.market_actor, "MarketActor"@) {
                Err(e) => Err(e),
                Ok(actor) => Ok(StateDetail { state, reason, actor }),
            },
        },
    }
}

/// The state's enumerations are set.
pub open spec fn state_portable(s: StateDetail) -> bool {
    s.state != OrderState::Unspecified && s.reason != StateReason::Unspecified && s.actor
        != MarketActor::Unspecified
}

/// Order state to wire order state.
pub fn state_to_proto(s: StateDetail) -> (r: wire::StateDetail)
    ensures
        r == state_wire(s),
        state_portable(s) ==> state_of(r) == Ok::<StateDetail, ConvErrorV>(s),
{
    wire::StateDetail {
        state: s.state.to_wire(),
        state_reason: s.reason.to_wire(),
        market_actor: s.actor.to_wire(),
    }
}

/// Wire order state to order state.
pub fn state_from_proto(p: &wire::StateDetail) -> (r: Result<StateDetail, ConvError>)
    ensures
        match r {
            Ok(s) => state_of(*p) == Ok::<StateDetail, ConvErrorV>(s),
            Err(e) => state_of(*p) == Err::<StateDetail, ConvErrorV>(e@),
        },
{
    let state = match decode_enum_no_unspecified::<OrderState>(p.state, "OrderState") {
        Ok(state) => state,
        Err(e) => {
            return Err(e);
        },
    };
    let reason = match decode_enum_no_unspecified::<StateReason>(p.state_reason, "StateReason") {
        Ok(reason) => reason,
        Err(e) => {
            return Err(e);
        },
    };
    match decode_enum_no_unspecified::<MarketActor>(p.market_actor, "MarketActor") {
        Ok(actor) => Ok(StateDetail { state, reason, actor }),
        Err(e) => Err(e),
    }
}

/// The wire shape of an order detail.
pub open spec fn detail_wire(d: DetailV) -> wire::OrderDetailV {
    wire::OrderDetailV {
        order_id: d.id,
        order: Some(order_wire(d.order)),
        state_detail: Some(state_wire(d.state)),
        open_quantity: Some(power_wire(d.open_quantity)),
        filled_quantity: Some(power_wire(d.filled_quantity)),
        create_time: Some(instant_wire(d.create_time)),
        modification_time: Some(instant_wire(d.modification_time)),
    }
}

/// What a wire order detail stands for. All fields must be there before any
/// of them is read.
pub open spec fn detail_of(p: wire::OrderDetailV) -> Result<DetailV, ConvErrorV> {
    if p.order is None {
        Err(ConvErrorV::MissingField("OrderDetail.order"@))
    } else if p.state_detail is None {
        Err(ConvErrorV::MissingField("OrderDetail.state_detail"@))
    } else if p.open_quantity is None {
        Err(ConvErrorV::MissingField("OrderDetail.open_quantity"@))
    } else if p.filled_quantity is None {
        Err(ConvErrorV::MissingField("OrderDetail.filled_quantity"@))
    } else if p.create_time is None {
        Err(ConvErrorV::MissingField("OrderDetail.create_time"@))
    } else if p.modification_time is None {
        Err(ConvErrorV::MissingField("OrderDetail.modification_time"@))
    } else {
        match order_of(p.order->0) {
            Err(e) => Err(e),
            Ok(order) => match state_of(p.state_detail->0) {
                Err(e) => Err(e),
                Ok(state) => match power_of(p.open_quantity->0) {
                    Err(e) => Err(e),
                    Ok(open_quantity) => match power_of(p.filled_quantity->0) {
                        Err(e) => Err(e),
                        Ok(filled_quantity) => match instant_of(p.create_time->0) {
                            Err(e) => Err(e),
                            Ok(create_time) => match instant_of(p.modification_time->0) {
                                Err(e) => Err(e),
                                Ok(modification_time) => Ok(
                                    DetailV {
                                        id: p.order_id,
                                        order,
                                        state,
                                        open_quantity,
                                        filled_quantity,
                                        create_time,
                                        modification_time,
                                    },
                                ),
                            },
                        },
                    },
                },
            },
        }
    }
}

/// Order detail to wire order detail. One whose enumerations are set and
/// whose instants are in range reads back as it was.
pub fn detail_to_proto(d: &OrderDetail) -> (r: wire::OrderDetail)
    ensures
        r@ == detail_wire(d@),
        order_portable(d@.order) && state_portable(d@.state) && instant_valid(d@.create_time)
            && instant_valid(d@.modification_time) ==> detail_of(r@) == Ok::<DetailV, ConvErrorV>(
            d@,
        ),
{
    wire::OrderDetail {
        order_id: d.id.0,
        order: Some(order_to_proto(&d.order)),
        state_detail: Some(state_to_proto(d.state)),
        open_quantity: Some(power_to_proto(d.open_quantity)),
        filled_quantity: Some(power_to_proto(d.filled_quantity)),
        create_time: Some(timestamp_to_proto(d.create_time)),
        modification_time: Some(timestamp_to_proto(d.modification_time)),
    }
}

/// Wire order detail to order detail.
pub fn detail_from_proto(p: &wire::OrderDetail) -> (r: Result<OrderDetail, ConvError>)
    ensures
        view_result(r) == detail_of(p@),
{
    let order_message = match &p.order {
        Some(order) => order,
        None => {
            return Err(ConvError::MissingField("OrderDetail.order"));
        },
    };
    let state_message = match &p.state_detail {
        Some(state) => state,
        None => {
            return Err(ConvError::MissingField("OrderDetail.state_detail"));
        },
    };
    let open_message = match &p.open_quantity {
        Some(power) => power,
        None => {
            return Err(ConvError::MissingField("OrderDetail.open_quantity"));
        },
    };
    let filled_message = match &p.filled_quantity {
        Some(power) => power,
        None => {
            return Err(ConvError::MissingField("OrderDetail.filled_quantity"));
        },
    };
    let create_message = match &p.create_time {
        Some(t) => t,
        None => {
            return Err(ConvError::MissingField("OrderDetail.create_time"));
        },
    };
    let modification_message = match &p.modification_time {
        Some(t) => t,
        None => {
            return Err(ConvError::MissingField("OrderDetail.modification_time"));
        },
    };
    let order = match order_from_proto(order_message) {
        Ok(order) => order,
        Err(e) => {
            return Err(e);
        },
    };
    let state = match state_from_proto(state_message) {
        Ok(state) => state,
        Err(e) => {
            return Err(e);
        },
    };
    let open_quantity = match power_from_proto(open_message) {
        Ok(power) => power,
        Err(e) => {
            return Err(e);
        },
    };
    let filled_quantity = match power_from_proto(filled_message) {
        Ok(power) => power,
        Err(e) => {
            return Err(e);
        },
    };
    let create_time = match timestamp_from_proto(create_message) {
        Ok(t) => t,
        Err(e) => {
            return Err(e);
        },
    };
    match timestamp_from_proto(modification_message) {
        Ok(modification_time) => Ok(
            OrderDetail {
                id: OrderId(p.order_id),
                order,
                state,
                open_quantity,
                filled_quantity,
                create_time,
                modification_time,
            },
        ),
        Err(e) => Err(e),
    }
}

/// The wire shape of a trade.
pub open spec fn trade_wire(t: TradeV) -> wire::TradeV {
    wire::TradeV {
        id: t.id,
        order_id: t.order_id,
        side: t.side.number(),
        delivery_area: Some(area_wire(t.area)),
        delivery_period: Some(period_wire(t.period)),
        execution_time: Some(instant_wire(t.execution_time)),
        price: Some(price_wire(t.price, t.currency)),
        quantity: Some(power_wire(t.quantity)),
        state: t.state.number(),
    }
}

/// What a wire trade stands for. All fields must be there before any of them
/// is read.
pub open spec fn trade_of(p: wire::TradeV) -> Result<TradeV, ConvErrorV> {
    if p.delivery_area is None {
        Err(ConvErrorV::MissingField("Trade.delivery_area"@))
    } else if p.delivery_period is None {
        Err(ConvErrorV::MissingField("Trade.delivery_period"@))
    } else if p.execution_time is None {
        Err(ConvErrorV::MissingField("Trade.execution_time"@))
    } else if p.price is None {
        Err(ConvErrorV::MissingField("Trade.price"@))
    } else if p.quantity is None {
        Err(ConvErrorV::MissingField("Trade.quantity"@))
    } else {
        match price_of(p.price->0) {
            Err(e) => Err(e),
            Ok(paid) => match decoded_set::<Side>(p.side, "MarketSide"@) {
                Err(e) => Err(e),
                Ok(side) => match area_of(p.delivery_area->0) {
                    Err(e) => Err(e),
                    Ok(area) => match period_of(p.delivery_period->0) {
                        Err(e) => Err(e),
                        Ok(period) => match instant_of(p.execution_time->0) {
                            Err(e) => Err(e),
                            Ok(execution_time) => match power_of(p.quantity->0) {
                                Err(e) => Err(e),
                                Ok(quantity) => match decoded_set::<TradeState>(
                                    p.state,
                                    "TradeState"@,
                                ) {
                                    Err(e) => Err(e),
                                    Ok(state) => Ok(
                                        TradeV {
                                            id: p.id,
                                            order_id: p.order_id,
                                            side,
                                            area,
                                            period,
                                            execution_time,
                                            price: paid.0,
                                            currency: paid.1,
                                            quantity,
                                            state,
                                        },
                                    ),
                                },
                            },
                        },
                    },
                },
            },
        }
    }
}

/// Trade to wire trade. One whose enumerations are set and whose instants
/// are in range reads back as it was.
pub fn trade_to_proto(t: &Trade) -> (r: wire::Trade)
    ensures
        r@ == trade_wire(t@),
        t@.side != Side::Unspecified && t@.area.code_type != CodeType::Unspecified && t@.state
            != TradeState::Unspecified && instant_valid(t@.period.start) && instant_valid(
            t@.execution_time,
        ) ==> trade_of(r@) == Ok::<TradeV, ConvErrorV>(t@),
{
    wire::Trade {
        id: t.id.0,
        order_id: t.order_id.0,
        side: t.side.to_wire(),
        delivery_area: Some(area_to_proto(&t.area)),
        delivery_period: Some(period_to_proto(t.period)),
        execution_time: Some(timestamp_to_proto(t.execution_time)),
        price: Some(price_to_proto(t.price, t.currency)),
        quantity: Some(power_to_proto(t.quantity)),
        state: t.state.to_wire(),
    }
}

/// Wire trade to trade.
pub fn trade_from_proto(p: &wire::Trade) -> (r: Result<Trade, ConvError>)
    ensures
        view_result(r) == trade_of(p@),
{
    let area_message = match &p.delivery_area {
        Some(area) => area,
        None => {
            return Err(ConvError::MissingField("Trade.delivery_area"));
        },
    };
    let period_message = match &p.delivery_period {
        Some(period) => period,
        None => {
            return Err(ConvError::MissingField("Trade.delivery_period"));
        },
    };
    let time_message = match &p.execution_time {
        Some(t) => t,
        None => {
            return Err(ConvError::MissingField("Trade.execution_time"));
        },
    };
    let price_message = match &p.price {
        Some(price) => price,
        None => {
            return Err(ConvError::MissingField("Trade.price"));
        },
    };
    let quantity_message = match &p.quantity {
        Some(power) => power,
        None => {
            return Err(ConvError::MissingField("Trade.quantity"));
        },
    };
    let (price, currency) = match price_from_proto(price_message) {
        Ok(paid) => paid,
        Err(e) => {
            return Err(e);
        },
    };
    let side = match decode_enum_no_unspecified::<Side>(p.side, "MarketSide") {
        Ok(side) => side,
        Err(e) => {
            return Err(e);
        },
    };
    let area = match area_from_proto(area_message) {
        Ok(area) => area,
        Err(e) => {
            return Err(e);
        },
    };
    let period = match period_from_proto(period_message) {
        Ok(period) => period,
        Err(e) => {
            return Err(e);
        },
    };
    let execution_time = match timestamp_from_proto(time_message) {
        Ok(t) => t,
        Err(e) => {
            return Err(e);
        },
    };
    let quantity = match power_from_proto(quantity_message) {
        Ok(power) => power,
        Err(e) => {
            return Err(e);
        },
    };
    match decode_enum_no_unspecified::<TradeState>(p.state, "TradeState") {
        Ok(state) => Ok(
            Trade {
                id: TradeId(p.id),
                order_id: OrderId(p.order_id),
                side,
                area,
                period,
                execution_time,
                price,
                currency,
                quantity,
                state,
            },
        ),
        Err(e) => Err(e),
    }
}

/// The wire shape of a public trade.
pub open spec fn public_trade_wire(t: PublicTradeV) -> wire::PublicTradeV {
    wire::PublicTradeV {
        id: t.id,
        buy_delivery_area: Some(area_wire(t.buy_area)),
        sell_delivery_area: Some(area_wire(t.sell_area)),
        delivery_period: Some(period_wire(t.period)),
        execution_time: Some(instant_wire(t.execution_time)),
        price: Some(price_wire(t.price, t.currency)),
        quantity: Some(power_wire(t.quantity)),
        state: t.state.number(),
    }
}

/// What a wire public trade stands for. All fields must be there before any
/// of them is read.
pub open spec fn public_trade_of(p: wire::PublicTradeV) -> Result<PublicTradeV, ConvErrorV> {
    if p.buy_delivery_area is None {
        Err(ConvErrorV::MissingField("PublicTrade.buy_delivery_area"@))
    } else if p.sell_delivery_area is None {
        Err(ConvErrorV::MissingField("PublicTrade.sell_delivery_area"@))
    } else if p.delivery_period is None {
        Err(ConvErrorV::MissingField("PublicTrade.delivery_period"@))
    } else if p.execution_time is None {
        Err(ConvErrorV::MissingField("PublicTrade.execution_time"@))
    } else if p.price is None {
        Err(ConvErrorV::MissingField("PublicTrade.price"@))
    } else if p.quantity is None {
        Err(ConvErrorV::MissingField("PublicTrade.quantity"@))
    } else {
        match price_of(p.price->0) {
            Err(e) => Err(e),
            Ok(paid) => match area_of(p.buy_delivery_area->0) {
                Err(e) => Err(e),
                Ok(buy_area) => match area_of(p.sell_delivery_area->0) {
                    Err(e) => Err(e),
                    Ok(sell_area) => match period_of(p.delivery_period->0) {
                        Err(e) => Err(e),
                        Ok(period) => match instant_of(p.execution_time->0) {
                            Err(e) => Err(e),
                            Ok(execution_time) => match power_of(p.quantity->0) {
                                Err(e) => Err(e),
                                Ok(quantity) => match decoded_set::<TradeState>(
                                    p.state,
                                    "TradeState"@,
                                ) {
                                    Err(e) => Err(e),
                                    Ok(state) => Ok(
                                        PublicTradeV {
                                            id: p.id,
                                            buy_area,
                                            sell_area,
                                            period,
                                            execution_time,
                                            price: paid.0,
                                            currency: paid.1,
                                            quantity,
                                            state,
                                        },
                                    ),
                                },
                            },
                        },
                    },
                },
            },
        }
    }
}

/// Public trade to wire public trade. One whose enumerations are set and
/// whose instants are in range reads back as it was.
pub fn public_trade_to_proto(t: &PublicTrade) -> (r: wire::PublicTrade)
    ensures
        r@ == public_trade_wire(t@),
        t@.buy_area.code_type != CodeType::Unspecified && t@.sell_area.code_type
            != CodeType::Unspecified && t@.state != TradeState::Unspecified && instant_valid(
            t@.period.start,
        ) && instant_valid(t@.execution_time) ==> public_trade_of(r@) == Ok::<
            PublicTradeV,
            ConvErrorV,
        >(t@),
{
    wire::PublicTrade {
        id: t.id.0,
        buy_delivery_area: Some(area_to_proto(&t.buy_area)),
        sell_delivery_area: Some(area_to_proto(&t.sell_area)),
        delivery_period: Some(period_to_proto(t.period)),
        execution_time: Some(timestamp_to_proto(t.execution_time)),
        price: Some(price_to_proto(t.price, t.currency)),
        quantity: Some(power_to_proto(t.quantity)),
        state: t.state.to_wire(),
    }
}

/// Wire public trade to public trade.
pub fn public_trade_from_proto(p: &wire::PublicTrade) -> (r: Result<PublicTrade, ConvError>)
    ensures
        view_result(r) == public_trade_of(p@),
{
    let buy_message = match &p.buy_delivery_area {
        Some(area) => area,
        None => {
            return Err(ConvError::MissingField("PublicTrade.buy_delivery_area"));
        },
    };
    let sell_message = match &p.sell_delivery_area {
        Some(area) => area,
        None => {
            return Err(ConvError::MissingField("PublicTrade.sell_delivery_area"));
        },
    };
    let period_message = match &p.delivery_period {
        Some(period) => period,
        None => {
            return Err(ConvError::MissingField("PublicTrade.delivery_period"));
        },
    };
    let time_message = match &p.execution_time {
        Some(t) => t,
        None => {
            return Err(ConvError::MissingField("PublicTrade.execution_time"));
        },
    };
    let price_message = match &p.price {
        Some(price) => price,
        None => {
            return Err(ConvError::MissingField("PublicTrade.price"));
        },
    };
    let quantity_message = match &p.quantity {
        Some(power) => power,
        None => {
            return Err(ConvError::MissingField("PublicTrade.quantity"));
        },
    };
    let (price, currency) = match price_from_proto(price_message) {
        Ok(paid) => paid,
        Err(e) => {
            return Err(e);
        },
    };
    let buy_area = match area_from_proto(buy_message) {
        Ok(area) => area,
        Err(e) => {
            return Err(e);
        },
    };
    let sell_area = match area_from_proto(sell_message) {
        Ok(area) => area,
        Err(e) => {
            return Err(e);
        },
    };
    let period = match period_from_proto(period_message) {
        Ok(period) => period,
        Err(e) => {
            return Err(e);
        },
    };
    let execution_time = match timestamp_from_proto(time_message) {
        Ok(t) => t,
        Err(e) => {
            return Err(e);
        },
    };
    let quantity = match power_from_proto(quantity_message) {
        Ok(power) => power,
        Err(e) => {
            return Err(e);
        },
    };
    match decode_enum_no_unspecified::<TradeState>(p.state, "TradeState") {
        Ok(state) => Ok(
            PublicTrade {
                id: TradeId(p.id),
                buy_area,
                sell_area,
                period,
                execution_time,
                price,
                currency,
                quantity,
                state,
            },
        ),
        Err(e) => Err(e),
    }
}

/// An area with a code type survives the wire.
pub proof fn area_round_trips(a: AreaV)
    requires
        a.code_type != CodeType::Unspecified,
    ensures
        area_of(area_wire(a)) == Ok::<AreaV, ConvErrorV>(a),
{
}

/// A delivery period with a start in range survives the wire.
pub proof fn period_round_trips(p: DeliveryPeriod)
    requires
        instant_valid(p.start),
    ensures
        period_of(period_wire(p)) == Ok::<DeliveryPeriod, ConvErrorV>(p),
{
}

/// An instant in range survives the wire; and what comes off the wire is in
/// range and goes back onto it as it was.
pub proof fn instants_round_trip(t: Timestamp, ts: wire::Timestamp)
    ensures
        instant_valid(t) ==> instant_of(instant_wire(t)) == Ok::<Timestamp, ConvErrorV>(t),
        instant_of(ts) matches Ok(x) ==> instant_valid(x) && instant_wire(x) == ts,
{
}

/// The text of an error.
pub open spec fn conv_error_text(e: ConvErrorV) -> Seq<char> {
    match e {
        ConvErrorV::MissingField(name) => "missing required field: "@ + name,
        ConvErrorV::UnknownEnum { field, value } => "unknown enum value "@ + crate::text::int_text(
            value as int,
        ) + " for "@ + field,
        ConvErrorV::InvalidDecimal(text) => "invalid decimal: "@ + crate::text::debug_text(text),
        ConvErrorV::InvalidTimestamp => "invalid timestamp"@,
    }
}

impl ConvError {
    /// The error as a message.
    pub fn to_text(&self) -> (r: String)
        ensures
            r@ == conv_error_text(self@),
    {
        match self {
            ConvError::MissingField(name) => {
                let mut out = "missing required field: ".to_owned();
                out.append(name);
                out
            },
            ConvError::UnknownEnum { field, value } => {
                let mut out = "unknown enum value ".to_owned();
                out.append(crate::text::write_int(*value as i64).as_str());
                out.append(" for ");
                out.append(field);
                out
            },
            ConvError::InvalidDecimal(text) => {
                let mut out = "invalid decimal: ".to_owned();
                out.append(crate::text::quote(text).as_str());
                out
            },
            ConvError::InvalidTimestamp => "invalid timestamp".to_owned(),
        }
    }
}

} // verus!
