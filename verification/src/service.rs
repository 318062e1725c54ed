//! The requests of the trading service: what each does to the exchange, and
//! what it answers.

use crate::fleet::QUARTER_SECS;
use crate::ledger::{lemma_detail_id, lemma_pool_at, lemma_put};
use crate::lifecycle::{lemma_canceled_details, lemma_crossed_keeps, lemma_recorded_keeps};
use crate::linkage::linked;
use crate::market::{Area, AreaV, DeliveryPeriod};
use crate::model::{
    admitted, cancel_objection, crossed, detail_at, detail_canceled, detail_put, fresh_detail,
    mode_of, modified, modify_rejection, objection, on_pool, order_canceled, owners_known,
    rejection, submitted, world_wf, SubmitError, UpdateV, WorldV,
};
use crate::order::{
    clone_text, terminal, view_option, DetailV, ExecutionOption, GridpoolId, MarketActor, Order,
    OrderId, OrderType, OrderV,
};
use crate::proto_conv::{
    conv_error_text, detail_to_proto, detail_wire, option_instant_of, option_power_of,
    order_from_proto, order_of, power_from_proto, price_from_proto, price_of, timestamp_from_proto,
    trade_to_proto, trade_wire, view_result, ConvError, ConvErrorV, WireEnum,
};
use crate::quoting::lemma_owners_known;
use crate::render::{join, joined, str_views};
use crate::sweeping::books_open;
use crate::table::{holds, lemma_views_push, slot, value_at, views};
use crate::text::same_text;
use crate::time::Timestamp;
use crate::trade::{PublicTrade, TradeV};
use crate::wire;
use crate::world::placing::{has_room_for, has_room_to_modify};
use crate::world::{OrderEvent, OrderUpdate, TradeEvent, World};
use vstd::prelude::*;

verus! {

/// The kinds of refusals a request can meet.
#[derive(Clone, Copy, Debug, PartialEq, Eq, Structural)]
pub enum Code {
    InvalidArgument,
    NotFound,
    FailedPrecondition,
}

/// A refusal, with what it says.
#[derive(Debug)]
pub struct Status {
    pub code: Code,
    pub message: String,
}

/// The view of a [`Status`].
pub ghost struct StatusV {
    pub code: Code,
    pub message: Seq<char>,
}

impl View for Status {
    type V = StatusV;

    open spec fn view(&self) -> StatusV {
        StatusV { code: self.code, message: self.message@ }
    }
}

/// The views inside an answer.
pub open spec fn view_answer<T: View>(r: Result<T, Status>) -> Result<T::V, StatusV> {
    match r {
        Ok(x) => Ok(x@),
        Err(e) => Err(e@),
    }
}

/// A gridpool that is not registered.
pub open spec fn unknown_gridpool() -> StatusV {
    StatusV { code: Code::NotFound, message: "unknown gridpool"@ }
}

/// An order that is not the gridpool's.
pub open spec fn order_not_found() -> StatusV {
    StatusV { code: Code::NotFound, message: "order not found"@ }
}

/// The name of an order type.
pub open spec fn order_type_word(t: OrderType) -> Seq<char> {
    match t {
        OrderType::Unspecified => "Unspecified"@,
        OrderType::Limit => "Limit"@,
        OrderType::StopLimit => "StopLimit"@,
        OrderType::Iceberg => "Iceberg"@,
        OrderType::Block => "Block"@,
        OrderType::Balance => "Balance"@,
        OrderType::Prearranged => "Prearranged"@,
        OrderType::Private => "Private"@,
    }
}

/// The name of an execution option.
pub open spec fn option_word(o: ExecutionOption) -> Seq<char> {
    match o {
        ExecutionOption::Unspecified => "Unspecified"@,
        ExecutionOption::Aon => "Aon"@,
        ExecutionOption::Fok => "Fok"@,
        ExecutionOption::Ioc => "Ioc"@,
    }
}

/// The name of a rejection.
pub open spec fn rejection_word(e: SubmitError) -> Seq<char> {
    match e {
        SubmitError::UnknownGridpool => "UnknownGridpool"@,
        SubmitError::UnknownArea => "UnknownArea"@,
        SubmitError::AreaNotAllowedForGridpool => "AreaNotAllowedForGridpool"@,
        SubmitError::UnsupportedDurationForMarket => "UnsupportedDurationForMarket"@,
        SubmitError::UnalignedDeliveryPeriod => "UnalignedDeliveryPeriod"@,
        SubmitError::GateClosed => "GateClosed"@,
        SubmitError::SuspendedMarket => "SuspendedMarket"@,
        SubmitError::PriceOffGrid => "PriceOffGrid"@,
        SubmitError::NonPositivePrice => "NonPositivePrice"@,
        SubmitError::QuantityOffGrid => "QuantityOffGrid"@,
        SubmitError::NonPositiveQuantity => "NonPositiveQuantity"@,
        SubmitError::CurrencyMismatch => "CurrencyMismatch"@,
        SubmitError::UnsupportedOrderType(t) => joined(
            seq!["UnsupportedOrderType("@, order_type_word(t), ")"@],
        ),
        SubmitError::UnsupportedExecutionOption(o) => joined(
            seq!["UnsupportedExecutionOption("@, option_word(o), ")"@],
        ),
        SubmitError::OrderNotFound => "OrderNotFound"@,
        SubmitError::OrderAlreadyTerminal => "OrderAlreadyTerminal"@,
        SubmitError::ModifyQuantityBelowFilled => "ModifyQuantityBelowFilled"@,
        SubmitError::SelfTradeRejected => "SelfTradeRejected"@,
        SubmitError::UnspecifiedSide => "UnspecifiedSide"@,
        SubmitError::ValidityElapsed => "ValidityElapsed"@,
    }
}

/// What a rejection is answered with: the gridpool or the order is not there;
/// the exchange or the order is not in a state for it; or the order breaks a
/// rule.
pub open spec fn rejection_status(e: SubmitError) -> StatusV {
    match e {
        SubmitError::UnknownGridpool => unknown_gridpool(),
        SubmitError::OrderNotFound => order_not_found(),
        SubmitError::OrderAlreadyTerminal => StatusV {
            code: Code::FailedPrecondition,
            message: "order already terminal"@,
        },
        SubmitError::SuspendedMarket => StatusV {
            code: Code::FailedPrecondition,
            message: "validation: "@ + rejection_word(e),
        },
        SubmitError::SelfTradeRejected => StatusV {
            code: Code::FailedPrecondition,
            message: "validation: "@ + rejection_word(e),
        },
        _ => StatusV {
            code: Code::InvalidArgument,
            message: "validation: "@ + rejection_word(e),
        },
    }
}

/// What a message that does not read is answered with.
pub open spec fn conversion_status(e: ConvErrorV) -> StatusV {
    StatusV { code: Code::InvalidArgument, message: "proto conversion: "@ + conv_error_text(e) }
}

fn order_type_name(t: OrderType) -> (r: &'static str)
    ensures
        r@ == order_type_word(t),
{
    match t {
        OrderType::Unspecified => "Unspecified",
        OrderType::Limit => "Limit",
        OrderType::StopLimit => "StopLimit",
        OrderType::Iceberg => "Iceberg",
        OrderType::Block => "Block",
        OrderType::Balance => "Balance",
        OrderType::Prearranged => "Prearranged",
        OrderType::Private => "Private",
    }
}

fn option_name(o: ExecutionOption) -> (r: &'static str)
    ensures
        r@ == option_word(o),
{
    match o {
        ExecutionOption::Unspecified => "Unspecified",
        ExecutionOption::Aon => "Aon",
        ExecutionOption::Fok => "Fok",
        ExecutionOption::Ioc => "Ioc",
    }
}

fn within(name: &str, inner: &str) -> (r: String)
    ensures
        r@ == joined(seq![name@, inner@, ")"@]),
{
    let parts: Vec<&str> = vec![name, inner, ")"];
    assert(str_views(parts@) =~= seq![name@, inner@, ")"@]);
    join(&parts)
}

fn rejection_name(e: SubmitError) -> (r: String)
    ensures
        r@ == rejection_word(e),
{
    match e {
        SubmitError::UnknownGridpool => "UnknownGridpool".to_owned(),
        SubmitError::UnknownArea => "UnknownArea".to_owned(),
        SubmitError::AreaNotAllowedForGridpool => "AreaNotAllowedForGridpool".to_owned(),
        SubmitError::UnsupportedDurationForMarket => "UnsupportedDurationForMarket".to_owned(),
        SubmitError::UnalignedDeliveryPeriod => "UnalignedDeliveryPeriod".to_owned(),
        SubmitError::GateClosed => "GateClosed".to_owned(),
        SubmitError::SuspendedMarket => "SuspendedMarket".to_owned(),
        SubmitError::PriceOffGrid => "PriceOffGrid".to_owned(),
        SubmitError::NonPositivePrice => "NonPositivePrice".to_owned(),
        SubmitError::QuantityOffGrid => "QuantityOffGrid".to_owned(),
        SubmitError::NonPositiveQuantity => "NonPositiveQuantity".to_owned(),
        SubmitError::CurrencyMismatch => "CurrencyMismatch".to_owned(),
        SubmitError::UnsupportedOrderType(t) => within(
            "UnsupportedOrderType(",
            order_type_name(t),
        ),
        SubmitError::UnsupportedExecutionOption(o) => within(
            "UnsupportedExecutionOption(",
            option_name(o),
        ),
        SubmitError::OrderNotFound => "OrderNotFound".to_owned(),
        SubmitError::OrderAlreadyTerminal => "OrderAlreadyTerminal".to_owned(),
        SubmitError::ModifyQuantityBelowFilled => "ModifyQuantityBelowFilled".to_owned(),
        SubmitError::SelfTradeRejected => "SelfTradeRejected".to_owned(),
        SubmitError::UnspecifiedSide => "UnspecifiedSide".to_owned(),
        SubmitError::ValidityElapsed => "ValidityElapsed".to_owned(),
    }
}

/// What a rejection is answered with.
pub fn submit_err_to_status(e: SubmitError) -> (r: Status)
    ensures
        r@ == rejection_status(e),
{
    let mut message = "validation: ".to_owned();
    let name = rejection_name(e);
    message.append(name.as_str());
    match e {
        SubmitError::UnknownGridpool => not_found("unknown gridpool"),
        SubmitError::OrderNotFound => not_found("order not found"),
        SubmitError::OrderAlreadyTerminal => Status {
            code: Code::FailedPrecondition,
            message: "order already terminal".to_owned(),
        },
        SubmitError::SuspendedMarket => Status { code: Code::FailedPrecondition, message },
        SubmitError::SelfTradeRejected => Status { code: Code::FailedPrecondition, message },
        _ => Status { code: Code::InvalidArgument, message },
    }
}

/// What a message that does not read is answered with.
pub fn conv_err_to_status(e: &ConvError) -> (r: Status)
    ensures
        r@ == conversion_status(e@),
{
    let mut message = "proto conversion: ".to_owned();
    let text = e.to_text();
    message.append(text.as_str());
    Status { code: Code::InvalidArgument, message }
}

fn not_found(message: &str) -> (r: Status)
    ensures
        r@ == (StatusV { code: Code::NotFound, message: message@ }),
{
    Status { code: Code::NotFound, message: message.to_owned() }
}

// ---------------------------------------------------------------------------
// Placing and changing orders
// ---------------------------------------------------------------------------

/// The order a request to place one carries.
pub open spec fn requested(order: Option<wire::OrderV>) -> Result<OrderV, StatusV> {
    match order {
        None => Err(StatusV { code: Code::InvalidArgument, message: "missing order"@ }),
        Some(o) => match order_of(o) {
            Ok(x) => Ok(x),
            Err(e) => Err(conversion_status(e)),
        },
    }
}

/// Read the order of a request to place one.
pub fn read_order(order: &Option<wire::Order>) -> (r: Result<Order, Status>)
    ensures
        view_answer(r) == requested(view_option(*order)),
{
    match order {
        None => Err(
            Status { code: Code::InvalidArgument, message: "missing order".to_owned() },
        ),
        Some(o) => match order_from_proto(o) {
            Ok(x) => Ok(x),
            Err(e) => Err(conv_err_to_status(&e)),
        },
    }
}

/// Place an order of a gridpool. `None`, and nothing changes, where nothing
/// objects to the order but the exchange cannot carry it.
pub fn create_gridpool_order(
    world: &mut World,
    gridpool_id: u64,
    order: &Option<wire::Order>,
    now: Timestamp,
) -> (r: Option<Result<wire::OrderDetail, Status>>)
    requires
        old(world).wf(),
        owners_known(old(world)@),
    ensures
        final(world).wf(),
        owners_known(final(world)@),
        match requested(view_option(*order)) {
            Err(s) => r is Some && view_answer(r->0) == Err::<wire::OrderDetailV, StatusV>(s)
                && final(world)@ == old(world)@,
            Ok(o) => {
                &&& r is None <==> objection(old(world)@, gridpool_id, o, now) is None
                    && !has_room_for(old(world)@, o, now)
                &&& r is None ==> final(world)@ == old(world)@
                &&& r is Some ==> match rejection(old(world)@, gridpool_id, o, now) {
                    Some(e) => view_answer(r->0) == Err::<wire::OrderDetailV, StatusV>(
                        rejection_status(e),
                    ) && final(world)@ == old(world)@,
                    None => view_answer(r->0) == Ok::<wire::OrderDetailV, StatusV>(
                        detail_wire(
                            fresh_detail(
                                admitted(old(world)@, o, Some(gridpool_id), now),
                                o,
                                now,
                            ),
                        ),
                    ) && final(world)@ == submitted(old(world)@, gridpool_id, o, now),
                }
            },
        },
{
    let o = match read_order(order) {
        Ok(o) => o,
        Err(s) => {
            return Some(Err(s));
        },
    };
    match world.place_order(GridpoolId(gridpool_id), o, now) {
        None => None,
        Some(Ok(d)) => Some(Ok(detail_to_proto(&d))),
        Some(Err(e)) => Some(Err(submit_err_to_status(e))),
    }
}

/// The fields of an update, each left alone where it is not given.
#[derive(Debug)]
pub struct UpdateFields {
    pub price: Option<wire::Price>,
    pub quantity: Option<wire::Power>,
    pub valid_until: Option<wire::Timestamp>,
    pub tag: Option<String>,
}

/// What the fields of an update ask for.
pub open spec fn update_of(
    price: Option<wire::PriceV>,
    quantity: Option<wire::PowerV>,
    valid_until: Option<wire::Timestamp>,
    tag: Option<Seq<char>>,
) -> Result<UpdateV, ConvErrorV> {
    let amount = match price {
        None => Ok(None),
        Some(p) => match price_of(p) {
            Ok(x) => Ok(Some(x)),
            Err(e) => Err(e),
        },
    };
    match amount {
        Err(e) => Err(e),
        Ok(amount) => match option_power_of(quantity) {
            Err(e) => Err(e),
            Ok(quantity) => match option_instant_of(valid_until) {
                Err(e) => Err(e),
                Ok(valid_until) => Ok(
                    UpdateV {
                        price: match amount {
                            Some(x) => Some(x.0),
                            None => None,
                        },
                        currency: match amount {
                            Some(x) => Some(x.1),
                            None => None,
                        },
                        quantity,
                        valid_until,
                        tag,
                    },
                ),
            },
        },
    }
}

/// Read the fields of an update.
pub fn read_update(f: &UpdateFields) -> (r: Result<OrderUpdate, ConvError>)
    ensures
        view_result(r) == update_of(
            view_option(f.price),
            view_option(f.quantity),
            f.valid_until,
            view_option(f.tag),
        ),
{
    let (price, currency) = match &f.price {
        None => (None, None),
        Some(p) => match price_from_proto(p) {
            Ok(x) => (Some(x.0), Some(x.1)),
            Err(e) => {
                return Err(e);
            },
        },
    };
    let quantity = match &f.quantity {
        None => None,
        Some(p) => match power_from_proto(p) {
            Ok(x) => Some(x),
            Err(e) => {
                return Err(e);
            },
        },
    };
    let valid_until = match &f.valid_until {
        None => None,
        Some(t) => match timestamp_from_proto(t) {
            Ok(x) => Some(x),
            Err(e) => {
                return Err(e);
            },
        },
    };
    Ok(OrderUpdate { price, currency, quantity, valid_until, tag: clone_text(&f.tag) })
}

/// Change an order of a gridpool. `None`, and nothing changes, where the
/// exchange has no room for the update.
pub fn update_gridpool_order(
    world: &mut World,
    gridpool_id: u64,
    order_id: u64,
    fields: &UpdateFields,
    now: Timestamp,
) -> (r: Option<Result<wire::OrderDetail, Status>>)
    requires
        old(world).wf(),
        owners_known(old(world)@),
    ensures
        final(world).wf(),
        owners_known(final(world)@),
        match update_of(
            view_option(fields.price),
            view_option(fields.quantity),
            fields.valid_until,
            view_option(fields.tag),
        ) {
            Err(e) => r is Some && view_answer(r->0) == Err::<wire::OrderDetailV, StatusV>(
                conversion_status(e),
            ) && final(world)@ == old(world)@,
            Ok(u) => {
                &&& r is None <==> !has_room_to_modify(
                    old(world)@,
                    gridpool_id,
                    order_id,
                    u,
                    now,
                )
                &&& r is None ==> final(world)@ == old(world)@
                &&& r is Some ==> match modify_rejection(old(world)@, gridpool_id, order_id, u, now) {
                    Some(e) => view_answer(r->0) == Err::<wire::OrderDetailV, StatusV>(
                        rejection_status(e),
                    ) && final(world)@ == old(world)@,
                    None => {
                        &&& final(world)@ == modified(
                            old(world)@,
                            gridpool_id,
                            order_id,
                            u,
                            now,
                        )
                        &&& view_answer(r->0) == Ok::<wire::OrderDetailV, StatusV>(
                            detail_wire(detail_at(final(world)@, gridpool_id, order_id)),
                        )
                    },
                }
            },
        },
{
    let update = match read_update(fields) {
        Ok(u) => u,
        Err(e) => {
            return Some(Err(conv_err_to_status(&e)));
        },
    };
    match world.amend_order(GridpoolId(gridpool_id), OrderId(order_id), update, now) {
        None => None,
        Some(Ok(d)) => Some(Ok(detail_to_proto(&d))),
        Some(Err(e)) => Some(Err(submit_err_to_status(e))),
    }
}

/// Cancel an order of a gridpool.
pub fn cancel_gridpool_order(world: &mut World, gridpool_id: u64, order_id: u64, now: Timestamp) -> (r:
    Result<wire::OrderDetail, Status>)
    requires
        old(world).wf(),
        owners_known(old(world)@),
    ensures
        final(world).wf(),
        owners_known(final(world)@),
        final(world)@ == one_canceled(old(world)@, gridpool_id, order_id, now),
        view_answer(r) == match cancel_objection(old(world)@, gridpool_id, order_id) {
            Some(e) => Err::<wire::OrderDetailV, StatusV>(rejection_status(e)),
            None => Ok(
                detail_wire(
                    detail_canceled(
                        detail_at(old(world)@, gridpool_id, order_id),
                        MarketActor::User,
                        now,
                    ),
                ),
            ),
        },
{
    match world.cancel_order(GridpoolId(gridpool_id), OrderId(order_id), now) {
        Ok(d) => Ok(detail_to_proto(&d)),
        Err(e) => Err(submit_err_to_status(e)),
    }
}

/// The exchange after a gridpool asked for one of its orders to be canceled.
pub open spec fn one_canceled(w: WorldV, pool: u64, id: u64, now: Timestamp) -> WorldV {
    match cancel_objection(w, pool, id) {
        Some(_) => w,
        None => order_canceled(w, pool, id, MarketActor::User, now),
    }
}

/// The exchange after a gridpool asked for these orders to be canceled.
pub open spec fn many_canceled(w: WorldV, pool: u64, ids: Seq<u64>, now: Timestamp) -> WorldV
    decreases ids.len(),
{
    if ids.len() == 0 {
        w
    } else {
        one_canceled(many_canceled(w, pool, ids.drop_last(), now), pool, ids.last(), now)
    }
}

/// The ids of the open ones among the first `n` orders.
pub open spec fn open_ids(orders: Seq<(u64, DetailV)>, n: nat) -> Seq<u64>
    decreases n,
{
    if n == 0 {
        Seq::empty()
    } else if terminal(orders[n - 1].1.state.state) {
        open_ids(orders, (n - 1) as nat)
    } else {
        open_ids(orders, (n - 1) as nat).push(orders[n - 1].1.id)
    }
}

/// Cancel every open order of a gridpool.
pub fn cancel_all_gridpool_orders(world: &mut World, gridpool_id: u64, now: Timestamp) -> (r:
    Result<u64, Status>)
    requires
        old(world).wf(),
        owners_known(old(world)@),
    ensures
        final(world).wf(),
        owners_known(final(world)@),
        if holds(old(world)@.gridpools, gridpool_id) {
            let orders = value_at(old(world)@.gridpools, gridpool_id).orders;
            &&& r matches Ok(id) && id == gridpool_id
            &&& final(world)@ == many_canceled(
                old(world)@,
                gridpool_id,
                open_ids(orders, orders.len()),
                now,
            )
        } else {
            &&& r matches Err(s) && s@ == unknown_gridpool()
            &&& final(world)@ == old(world)@
        },
{
    let ghost w0 = world@;
    let ghost orders = value_at(w0.gridpools, gridpool_id).orders;
    let mut ids: Vec<u64> = Vec::new();
    match world.gridpools().get(GridpoolId(gridpool_id)) {
        None => {
            return Err(not_found("unknown gridpool"));
        },
        Some(pool) => {
            let mut i: usize = 0;
            while i < pool.order_count()
                invariant
                    i <= pool@.orders.len(),
                    pool@.orders == orders,
                    ids@ == open_ids(orders, i as nat),
                decreases pool@.orders.len() - i,
            {
                let d = pool.order_at(i);
                if !d.state.state.is_terminal() {
                    ids.push(d.id.0);
                }
                i += 1;
            }
        },
    }
    let ghost all = ids@;
    let mut k: usize = 0;
    assert(all.take(0) =~= Seq::<u64>::empty());
    while k < ids.len()
        invariant
            world.wf(),
            owners_known(world@),
            ids@ == all,
            k <= all.len(),
            world@ == many_canceled(w0, gridpool_id, all.take(k as int), now),
        decreases all.len() - k,
    {
        assert(all.take(k + 1).drop_last() =~= all.take(k as int));
        assert(all.take(k + 1).last() == all[k as int]);
        let _ = world.cancel_order(GridpoolId(gridpool_id), OrderId(ids[k]), now);
        k += 1;
    }
    assert(all.take(k as int) =~= all);
    Ok(gridpool_id)
}

// ---------------------------------------------------------------------------
// Looking orders and trades up
// ---------------------------------------------------------------------------

/// One order of a gridpool.
pub fn get_gridpool_order(world: &World, gridpool_id: u64, order_id: u64) -> (r: Result<
    wire::OrderDetail,
    Status,
>)
    requires
        world.wf(),
    ensures
        view_answer(r) == if !holds(world@.gridpools, gridpool_id) {
            Err::<wire::OrderDetailV, StatusV>(unknown_gridpool())
        } else if !on_pool(world@, gridpool_id, order_id) {
            Err(order_not_found())
        } else {
            Ok(detail_wire(detail_at(world@, gridpool_id, order_id)))
        },
{
    match world.gridpools().get(GridpoolId(gridpool_id)) {
        None => Err(not_found("unknown gridpool")),
        Some(pool) => {
            proof {
                lemma_pool_at(world@.gridpools, gridpool_id);
            }
            match pool.get_order(OrderId(order_id)) {
                None => Err(not_found("order not found")),
                Some(d) => Ok(detail_to_proto(d)),
            }
        },
    }
}

/// Which states, which side and which tag a list is of; no state given means
/// all of them. Trades carry no tag, so it is asked of orders alone.
#[derive(Debug)]
pub struct Selection {
    pub states: Vec<i32>,
    pub side: Option<i32>,
    pub tag: Option<String>,
}

/// A tag is the one asked for, if one is.
pub open spec fn tag_fits(wanted: Option<Seq<char>>, tag: Option<Seq<char>>) -> bool {
    wanted matches Some(t) ==> tag == Some(t)
}

fn is_wanted_tag(wanted: &Option<String>, tag: &Option<String>) -> (r: bool)
    ensures
        r == tag_fits(view_option(*wanted), view_option(*tag)),
{
    match (wanted, tag) {
        (Some(a), Some(b)) => *a == *b,
        (Some(_), None) => false,
        (None, _) => true,
    }
}

/// The states and the side are among those asked for.
pub open spec fn selected(states: Seq<i32>, side: Option<i32>, state: i32, s: i32) -> bool {
    &&& states.len() == 0 || states.contains(state)
    &&& side matches Some(x) ==> x == s
}

impl Selection {
    /// Everything.
    pub fn all() -> (r: Self)
        ensures
            r.states@.len() == 0,
            r.side is None,
            r.tag is None,
    {
        Selection { states: Vec::new(), side: None, tag: None }
    }

    /// Whether the state and the side are among those asked for.
    pub fn admits(&self, state: i32, side: i32) -> (r: bool)
        ensures
            r == selected(self.states@, self.side, state, side),
    {
        let on_side = match self.side {
            Some(x) => x == side,
            None => true,
        };
        if !on_side {
            return false;
        }
        if self.states.len() == 0 {
            return true;
        }
        let mut i: usize = 0;
        while i < self.states.len()
            invariant
                i <= self.states@.len(),
                self.side matches Some(x) ==> x == side,
                forall|j: int| 0 <= j < i ==> self.states@[j] != state,
            decreases self.states@.len() - i,
        {
            if self.states[i] == state {
                return true;
            }
            i += 1;
        }
        false
    }
}

/// The first `n` orders, as far as they are selected, as they travel.
pub open spec fn listed(
    orders: Seq<(u64, DetailV)>,
    states: Seq<i32>,
    side: Option<i32>,
    tag: Option<Seq<char>>,
    n: nat,
) -> Seq<wire::OrderDetailV>
    decreases n,
{
    if n == 0 {
        Seq::empty()
    } else {
        let d = orders[n - 1].1;
        let before = listed(orders, states, side, tag, (n - 1) as nat);
        if selected(states, side, d.state.state.number(), d.order.side.number()) && tag_fits(
            tag,
            d.order.tag,
        ) {
            before.push(detail_wire(d))
        } else {
            before
        }
    }
}

/// The orders of a gridpool, as far as they are selected, oldest first.
pub fn list_gridpool_orders(world: &World, gridpool_id: u64, select: &Selection) -> (r: Result<
    Vec<wire::OrderDetail>,
    Status,
>)
    requires
        world.wf(),
    ensures
        if holds(world@.gridpools, gridpool_id) {
            let orders = value_at(world@.gridpools, gridpool_id).orders;
            r matches Ok(list) && views(list@) == listed(
                orders,
                select.states@,
                select.side,
                view_option(select.tag),
                orders.len(),
            )
        } else {
            r matches Err(s) && s@ == unknown_gridpool()
        },
{
    let pool = match world.gridpools().get(GridpoolId(gridpool_id)) {
        None => {
            return Err(not_found("unknown gridpool"));
        },
        Some(pool) => pool,
    };
    let ghost orders = pool@.orders;
    let mut out: Vec<wire::OrderDetail> = Vec::new();
    let mut i: usize = 0;
    assert(views(out@) =~= Seq::<wire::OrderDetailV>::empty());
    while i < pool.order_count()
        invariant
            i <= orders.len(),
            pool@.orders == orders,
            views(out@) == listed(
                orders,
                select.states@,
                select.side,
                view_option(select.tag),
                i as nat,
            ),
        decreases orders.len() - i,
    {
        let d = pool.order_at(i);
        if select.admits(d.state.state.to_wire(), d.order.side.to_wire()) && is_wanted_tag(
            &select.tag,
            &d.order.tag,
        ) {
            let w = detail_to_proto(d);
            proof {
                lemma_views_push(out@, w);
            }
            out.push(w);
        }
        i += 1;
    }
    Ok(out)
}

/// The first `n` trades, as far as they are selected, as they travel.
pub open spec fn trades_listed(
    trades: Seq<TradeV>,
    states: Seq<i32>,
    side: Option<i32>,
    n: nat,
) -> Seq<wire::TradeV>
    decreases n,
{
    if n == 0 {
        Seq::empty()
    } else {
        let t = trades[n - 1];
        let before = trades_listed(trades, states, side, (n - 1) as nat);
        if selected(states, side, t.state.number(), t.side.number()) {
            before.push(trade_wire(t))
        } else {
            before
        }
    }
}

/// The trades of a gridpool, as far as they are selected, oldest first.
pub fn list_gridpool_trades(world: &World, gridpool_id: u64, select: &Selection) -> (r: Result<
    Vec<wire::Trade>,
    Status,
>)
    requires
        world.wf(),
    ensures
        if holds(world@.gridpools, gridpool_id) {
            let trades = value_at(world@.gridpools, gridpool_id).trades;
            r matches Ok(list) && views(list@) == trades_listed(
                trades,
                select.states@,
                select.side,
                trades.len(),
            )
        } else {
            r matches Err(s) && s@ == unknown_gridpool()
        },
{
    let pool = match world.gridpools().get(GridpoolId(gridpool_id)) {
        None => {
            return Err(not_found("unknown gridpool"));
        },
        Some(pool) => pool,
    };
    let trades = pool.trades();
    let ghost all = views(trades@);
    let mut out: Vec<wire::Trade> = Vec::new();
    let mut i: usize = 0;
    assert(views(out@) =~= Seq::<wire::TradeV>::empty());
    while i < trades.len()
        invariant
            i <= trades@.len(),
            all == views(trades@),
            views(out@) == trades_listed(all, select.states@, select.side, i as nat),
        decreases trades@.len() - i,
    {
        let t = &trades[i];
        assert(all[i as int] == t@);
        if select.admits(t.state.to_wire(), t.side.to_wire()) {
            let w = trade_to_proto(t);
            proof {
                lemma_views_push(out@, w);
            }
            out.push(w);
        }
        i += 1;
    }
    Ok(out)
}

// ---------------------------------------------------------------------------
// Streams
// ---------------------------------------------------------------------------

/// An order update is for a subscriber of this gridpool and selection.
pub fn wants_order(event: &OrderEvent, gridpool_id: u64, select: &Selection) -> (r: bool)
    ensures
        r == (event@.0 == gridpool_id && selected(
            select.states@,
            select.side,
            event@.1.state.state.number(),
            event@.1.order.side.number(),
        ) && tag_fits(view_option(select.tag), event@.1.order.tag)),
{
    event.gridpool_id.0 == gridpool_id && select.admits(
        event.detail.state.state.to_wire(),
        event.detail.order.side.to_wire(),
    ) && is_wanted_tag(&select.tag, &event.detail.order.tag)
}

/// A trade is for a subscriber of this gridpool and selection.
pub fn wants_trade(event: &TradeEvent, gridpool_id: u64, select: &Selection) -> (r: bool)
    ensures
        r == (event@.0 == gridpool_id && selected(
            select.states@,
            select.side,
            event@.1.state.number(),
            event@.1.side.number(),
        )),
{
    event.gridpool_id.0 == gridpool_id && select.admits(
        event.trade.state.to_wire(),
        event.trade.side.to_wire(),
    )
}

/// Which public trades a subscriber wants; what is not given is not asked
/// for.
#[derive(Debug)]
pub struct TapeFilter {
    pub states: Vec<i32>,
    pub period: Option<DeliveryPeriod>,
    pub buy_area: Option<Area>,
    pub sell_area: Option<Area>,
}

/// An area is the one asked for, if one is.
pub open spec fn area_fits(wanted: Option<AreaV>, area: AreaV) -> bool {
    wanted matches Some(a) ==> a == area
}

/// A period is the one asked for, if one is.
pub open spec fn period_fits(wanted: Option<DeliveryPeriod>, period: DeliveryPeriod) -> bool {
    wanted matches Some(p) ==> p == period
}

fn is_wanted_area(wanted: &Option<Area>, area: &Area) -> (r: bool)
    ensures
        r == area_fits(view_option(*wanted), area@),
{
    match wanted {
        Some(a) => *a == *area,
        None => true,
    }
}

fn is_wanted_period(wanted: &Option<DeliveryPeriod>, period: DeliveryPeriod) -> (r: bool)
    ensures
        r == period_fits(*wanted, period),
{
    match wanted {
        Some(p) => *p == period,
        None => true,
    }
}

/// A public trade is one that the subscriber wants.
pub fn wants_public_trade(filter: &TapeFilter, t: &PublicTrade) -> (r: bool)
    ensures
        r == {
            &&& selected(filter.states@, None, t@.state.number(), 0)
            &&& period_fits(filter.period, t@.period)
            &&& area_fits(view_option(filter.buy_area), t@.buy_area)
            &&& area_fits(view_option(filter.sell_area), t@.sell_area)
        },
{
    let state = t.state.to_wire();
    let mut asked = filter.states.len() == 0;
    let mut i: usize = 0;
    while i < filter.states.len()
        invariant
            i <= filter.states@.len(),
            asked == (filter.states@.len() == 0 || exists|j: int|
                0 <= j < i && #[trigger] filter.states@[j] == state),
        decreases filter.states@.len() - i,
    {
        if filter.states[i] == state {
            asked = true;
        }
        i += 1;
    }
    asked && is_wanted_period(&filter.period, t.period) && is_wanted_area(
        &filter.buy_area,
        &t.buy_area,
    ) && is_wanted_area(&filter.sell_area, &t.sell_area)
}

/// Which changes of the public book a subscriber wants; what is not given is
/// not asked for.
#[derive(Debug)]
pub struct BookFilter {
    pub period: Option<wire::DeliveryPeriod>,
    pub area: Option<wire::DeliveryArea>,
    pub side: Option<i32>,
}

/// A change of the public book is one that the subscriber wants.
pub fn wants_record(filter: &BookFilter, record: &wire::PublicOrderBookRecord) -> (r: bool)
    ensures
        r == {
            &&& filter.period matches Some(p) ==> record@.delivery_period == Some(p)
            &&& filter.area matches Some(a) ==> record@.delivery_area == Some(a@)
            &&& filter.side matches Some(s) ==> record@.side == s
        },
{
    let in_period = match (filter.period, record.delivery_period) {
        (None, _) => true,
        (Some(p), Some(q)) => p == q,
        (Some(_), None) => false,
    };
    let in_area = match (&filter.area, &record.delivery_area) {
        (None, _) => true,
        (Some(a), Some(b)) => a.code_type == b.code_type && same_text(
            a.code.as_str(),
            b.code.as_str(),
        ),
        (Some(_), None) => false,
    };
    let on_side = match filter.side {
        Some(s) => record.side == s,
        None => true,
    };
    in_period && in_area && on_side
}

/// A subscription to the public tape that is pinned to a delivery closes a
/// quarter hour past its start.
pub fn pinned_tape_closes(start: Timestamp, now: Timestamp) -> (r: bool)
    requires
        start.secs <= i64::MAX - QUARTER_SECS,
    ensures
        r == (Timestamp { secs: (start.secs + 900) as i64, nanos: start.nanos }).at_or_earlier(now),
{
    let end = Timestamp { secs: start.secs + QUARTER_SECS, nanos: start.nanos };
    end.is_at_or_earlier(&now)
}

// ---------------------------------------------------------------------------
// What holds of requests
// ---------------------------------------------------------------------------

proof fn lemma_one_canceled(w: WorldV, pool: u64, id: u64, now: Timestamp)
    requires
        world_wf(w),
    ensures
        world_wf(one_canceled(w, pool, id, now)),
        forall|p: u64, i: u64| #[trigger]
            on_pool(one_canceled(w, pool, id, now), p, i) <==> on_pool(w, p, i),
        on_pool(w, pool, id) ==> terminal(
            detail_at(one_canceled(w, pool, id, now), pool, id).state.state,
        ),
        forall|p: u64, i: u64|
            on_pool(w, p, i) && terminal(detail_at(w, p, i).state.state) ==> #[trigger] detail_at(
                one_canceled(w, pool, id, now),
                p,
                i,
            ) == detail_at(w, p, i),
        forall|p: u64, i: u64|
            on_pool(w, p, i) && p != pool ==> #[trigger] detail_at(
                one_canceled(w, pool, id, now),
                p,
                i,
            ) == detail_at(w, p, i),
{
    if cancel_objection(w, pool, id) is None {
        lemma_canceled_details(w, pool, id, MarketActor::User, now);
    }
}

proof fn lemma_many_canceled(w: WorldV, pool: u64, ids: Seq<u64>, now: Timestamp)
    requires
        world_wf(w),
    ensures
        world_wf(many_canceled(w, pool, ids, now)),
        forall|p: u64, i: u64| #[trigger]
            on_pool(many_canceled(w, pool, ids, now), p, i) <==> on_pool(w, p, i),
        forall|k: int|
            0 <= k < ids.len() && on_pool(w, pool, #[trigger] ids[k]) ==> terminal(
                detail_at(many_canceled(w, pool, ids, now), pool, ids[k]).state.state,
            ),
        forall|p: u64, i: u64|
            on_pool(w, p, i) && terminal(detail_at(w, p, i).state.state) ==> #[trigger] detail_at(
                many_canceled(w, pool, ids, now),
                p,
                i,
            ) == detail_at(w, p, i),
        forall|p: u64, i: u64|
            on_pool(w, p, i) && p != pool ==> #[trigger] detail_at(
                many_canceled(w, pool, ids, now),
                p,
                i,
            ) == detail_at(w, p, i),
    decreases ids.len(),
{
    if ids.len() > 0 {
        let front = ids.drop_last();
        let mid = many_canceled(w, pool, front, now);
        let end = one_canceled(mid, pool, ids.last(), now);
        lemma_many_canceled(w, pool, front, now);
        lemma_one_canceled(mid, pool, ids.last(), now);
        assert forall|k: int| 0 <= k < ids.len() && on_pool(w, pool, #[trigger] ids[k]) implies terminal(
            detail_at(end, pool, ids[k]).state.state,
        ) by {
            if k < front.len() {
                assert(front[k] == ids[k]);
                assert(terminal(detail_at(mid, pool, front[k]).state.state));
            }
        }
    }
}

proof fn lemma_open_ids(orders: Seq<(u64, DetailV)>, n: nat, j: int)
    requires
        n <= orders.len(),
        0 <= j < n,
        !terminal(orders[j].1.state.state),
    ensures
        open_ids(orders, n).contains(orders[j].1.id),
    decreases n,
{
    let m = (n - 1) as nat;
    if j == m {
        let ids = open_ids(orders, m).push(orders[j].1.id);
        assert(ids[ids.len() - 1] == orders[j].1.id);
    } else {
        lemma_open_ids(orders, m, j);
        let before = open_ids(orders, m);
        let k = choose|k: int| 0 <= k < before.len() && before[k] == orders[j].1.id;
        assert(open_ids(orders, n)[k] == orders[j].1.id);
    }
}

/// Once a gridpool has canceled all its orders, none of them is open, and no
/// other gridpool's order was touched.
pub proof fn cancel_all_leaves_nothing_open(w: WorldV, pool: u64, p: u64, id: u64, now: Timestamp)
    requires
        world_wf(w),
        holds(w.gridpools, pool),
        on_pool(w, p, id),
    ensures
        ({
            let orders = value_at(w.gridpools, pool).orders;
            let after = many_canceled(w, pool, open_ids(orders, orders.len()), now);
            &&& on_pool(after, p, id)
            &&& p == pool ==> terminal(detail_at(after, p, id).state.state)
            &&& p != pool ==> detail_at(after, p, id) == detail_at(w, p, id)
        }),
{
    let orders = value_at(w.gridpools, pool).orders;
    let ids = open_ids(orders, orders.len());
    lemma_many_canceled(w, pool, ids, now);
    if p == pool && !terminal(detail_at(w, p, id).state.state) {
        lemma_pool_at(w.gridpools, pool);
        let j = slot(orders, id);
        lemma_detail_id(w, pool, id);
        lemma_open_ids(orders, orders.len(), j);
        let k = choose|k: int| 0 <= k < ids.len() && ids[k] == id;
        assert(on_pool(w, pool, ids[k]));
    }
}

/// An order that was placed is found again, as its request was answered.
pub proof fn placed_orders_are_found(w: WorldV, pool: u64, o: OrderV, now: Timestamp)
    requires
        world_wf(w),
        books_open(w.books),
        linked(w),
        rejection(w, pool, o, now) is None,
        w.next_order_id < u64::MAX,
    ensures
        ({
            let after = submitted(w, pool, o, now);
            &&& on_pool(after, pool, w.next_order_id)
            &&& detail_at(after, pool, w.next_order_id) == fresh_detail(
                admitted(w, o, Some(pool), now),
                o,
                now,
            )
        }),
{
    let a = admitted(w, o, Some(pool), now);
    let d = fresh_detail(a, o, now);
    let numbered = WorldV { next_order_id: (w.next_order_id + 1) as u64, ..w };
    let mode = mode_of(o.execution_option);
    let c = crossed(numbered, a.taker, o.price, o.quantity, mode, now);
    lemma_crossed_keeps(numbered, a.taker, o.price, o.quantity, mode, now);
    lemma_owners_known(w);
    lemma_recorded_keeps(c.world, a.taker, Some(pool), c.takes, now);
    assert(!on_pool(a.world, pool, d.id)) by {
        assert(on_pool(a.world, pool, d.id) == on_pool(c.world, pool, d.id));
        assert(on_pool(c.world, pool, d.id) == on_pool(w, pool, d.id));
    }
    lemma_put(a.world, pool, d);
    let after = submitted(w, pool, o, now);
    let filed = detail_put(a.world, pool, d);
    assert(on_pool(after, pool, d.id) == on_pool(filed, pool, d.id));
    assert(detail_at(after, pool, d.id) == detail_at(filed, pool, d.id));
}

/// A rejection is told apart by its kind: what is not there is not found,
/// what is not in a state for it fails its precondition, and everything else
/// is an invalid argument.
pub proof fn rejections_have_their_codes(e: SubmitError)
    ensures
        rejection_status(e).code == Code::NotFound <==> e == SubmitError::UnknownGridpool || e
            == SubmitError::OrderNotFound,
        rejection_status(e).code == Code::FailedPrecondition <==> e
            == SubmitError::OrderAlreadyTerminal || e == SubmitError::SuspendedMarket || e
            == SubmitError::SelfTradeRejected,
{
}

} // verus!
