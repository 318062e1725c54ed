//! What a command-line client sends: the requests it builds from the words it
//! was given, and what it says where it cannot.

use crate::decimal::{decimal_complaint, decimal_value};
use crate::fleet::QUARTER_SECS;
use crate::market::{eic_area, minutes_of, Area, AreaV, CodeType, Currency, DeliveryDuration};
use crate::order::{view_option, ExecutionOption, OrderState, OrderType, Side};
use crate::proto_conv::{
    area_of, area_to_proto, area_wire, order_head_of, order_of, period_of, power_of, price_of,
    ConvErrorV, MAX_SECONDS, MIN_SECONDS, WireEnum,
};
use crate::render::{
    complaint, decimal_proto, duration_proto, joined, parse_period_start, period_start,
};
use crate::service::{BookFilter, Selection, TapeFilter, UpdateFields};
use crate::text::digits;
use crate::time::Timestamp;
use crate::trade::TradeState;
use crate::wire;
use vstd::prelude::*;

verus! {

/// The duration of so many minutes, if there is one.
pub open spec fn duration_of(mins: u32) -> Option<DeliveryDuration> {
    match mins {
        5u32 => Some(DeliveryDuration::FiveMin),
        15u32 => Some(DeliveryDuration::QuarterHour),
        30u32 => Some(DeliveryDuration::HalfHour),
        60u32 => Some(DeliveryDuration::Hour),
        _ => None,
    }
}

/// An order as a client is asked to place it.
#[derive(Debug)]
pub struct PlaceArgs {
    pub side: Side,
    pub price: String,
    pub qty: String,
    pub start: String,
    pub duration: u32,
    pub tag: Option<String>,
    pub area: String,
    pub restriction: Option<ExecutionOption>,
}

/// The view of [`PlaceArgs`].
pub ghost struct PlaceArgsV {
    pub side: Side,
    pub price: Seq<char>,
    pub qty: Seq<char>,
    pub start: Seq<char>,
    pub duration: u32,
    pub tag: Option<Seq<char>>,
    pub area: Seq<char>,
    pub restriction: Option<ExecutionOption>,
}

impl View for PlaceArgs {
    type V = PlaceArgsV;

    open spec fn view(&self) -> PlaceArgsV {
        PlaceArgsV {
            side: self.side,
            price: self.price@,
            qty: self.qty@,
            start: self.start@,
            duration: self.duration,
            tag: view_option(self.tag),
            area: self.area@,
            restriction: self.restriction,
        }
    }
}

/// A price in euros as a client writes it.
pub open spec fn euros(text: Seq<char>) -> wire::PriceV {
    wire::PriceV { amount: Some(text), currency: Currency::Eur.number() }
}

/// The order that goes out once every word has been read.
pub open spec fn order_for(
    args: PlaceArgsV,
    start: wire::Timestamp,
    duration: DeliveryDuration,
) -> wire::OrderV {
    wire::OrderV {
        delivery_area: Some(area_wire(eic_area(args.area))),
        delivery_period: Some(
            wire::DeliveryPeriod { start: Some(start), duration: duration.number() },
        ),
        order_type: OrderType::Limit.number(),
        side: args.side.number(),
        price: Some(euros(args.price)),
        quantity: Some(wire::PowerV { mw: Some(args.qty) }),
        stop_price: None,
        peak_price_delta: None,
        display_quantity: None,
        execution_option: match args.restriction {
            Some(e) => Some(e.number()),
            None => None,
        },
        valid_until: None,
        payload: None,
        tag: args.tag,
    }
}

/// What a client says of a decimal that it cannot read.
pub open spec fn bad_decimal(text: Seq<char>) -> Seq<char> {
    complaint("bad decimal "@, text, decimal_complaint(text))
}

/// What a client says of a duration that there is not.
pub open spec fn bad_duration(mins: u32) -> Seq<char> {
    joined(seq!["invalid duration "@, digits(mins as nat), " (allowed: 5, 15, 30, 60)"@])
}

/// What a client makes of its words: the order, or what it says of the first
/// word it cannot read. The start of the delivery is read first, then its
/// duration, the price and the quantity.
pub open spec fn placing(args: PlaceArgsV, now: Timestamp) -> Result<wire::OrderV, Seq<char>> {
    match period_start(args.start, now) {
        Err(e) => Err(e),
        Ok(t) => match duration_of(args.duration) {
            None => Err(bad_duration(args.duration)),
            Some(d) => if decimal_value(args.price) is None {
                Err(bad_decimal(args.price))
            } else if decimal_value(args.qty) is None {
                Err(bad_decimal(args.qty))
            } else {
                Ok(order_for(args, wire::Timestamp { seconds: t.0 as i64, nanos: t.1 as i32 }, d))
            },
        },
    }
}

/// The order to send. `None` where the delivery would start out of the range
/// of instants.
pub fn place_request(args: PlaceArgs, now: Timestamp) -> (r: Option<Result<wire::Order, String>>)
    requires
        now.secs <= i64::MAX - QUARTER_SECS,
    ensures
        match r {
            Some(Ok(o)) => placing(args@, now) == Ok::<wire::OrderV, Seq<char>>(o@),
            Some(Err(e)) => placing(args@, now) == Err::<wire::OrderV, Seq<char>>(e@),
            None => period_start(args@.start, now) matches Ok(t) && args@.start.len() > 0
                && args@.start[0] == '+' && !(MIN_SECONDS <= t.0 <= MAX_SECONDS),
        },
{
    let start = match parse_period_start(args.start.as_str(), now) {
        None => {
            return None;
        },
        Some(Err(e)) => {
            return Some(Err(e));
        },
        Some(Ok(t)) => wire::Timestamp { seconds: t.secs, nanos: t.nanos },
    };
    let duration = match duration_proto(args.duration) {
        Ok(d) => d,
        Err(e) => {
            return Some(Err(e));
        },
    };
    let amount = match decimal_proto(args.price.as_str()) {
        Ok(d) => d,
        Err(e) => {
            return Some(Err(e));
        },
    };
    let mw = match decimal_proto(args.qty.as_str()) {
        Ok(d) => d,
        Err(e) => {
            return Some(Err(e));
        },
    };
    let execution_option = match args.restriction {
        Some(e) => Some(e.to_wire()),
        None => None,
    };
    assert(duration_of(args.duration) == Some(duration));
    Some(
        Ok(
            wire::Order {
                delivery_area: Some(
                    wire::DeliveryArea {
                        code: args.area,
                        code_type: CodeType::EuropeEic.to_wire(),
                    },
                ),
                delivery_period: Some(
                    wire::DeliveryPeriod { start: Some(start), duration: duration.to_wire() },
                ),
                order_type: OrderType::Limit.to_wire(),
                side: args.side.to_wire(),
                price: Some(wire::Price { amount: Some(amount), currency: Currency::Eur.to_wire() }),
                quantity: Some(wire::Power { mw: Some(mw) }),
                stop_price: None,
                peak_price_delta: None,
                display_quantity: None,
                execution_option,
                valid_until: None,
                payload: None,
                tag: args.tag,
            },
        ),
    )
}

/// The price and the quantity of an update as a client is asked for it, or
/// what it says of the first it cannot read.
pub open spec fn updating(price: Option<Seq<char>>, qty: Option<Seq<char>>) -> Result<
    (Option<wire::PriceV>, Option<wire::PowerV>),
    Seq<char>,
> {
    if price is Some && decimal_value(price->0) is None {
        Err(bad_decimal(price->0))
    } else if qty is Some && decimal_value(qty->0) is None {
        Err(bad_decimal(qty->0))
    } else {
        Ok(
            (
                match price {
                    Some(p) => Some(euros(p)),
                    None => None,
                },
                match qty {
                    Some(q) => Some(wire::PowerV { mw: Some(q) }),
                    None => None,
                },
            ),
        )
    }
}

/// The fields of an update as a client is asked for it; what it cannot read
/// it complains of, the price before the quantity.
pub fn update_request(price: Option<String>, qty: Option<String>, tag: Option<String>) -> (r: Result<
    UpdateFields,
    String,
>)
    ensures
        match updating(view_option(price), view_option(qty)) {
            Ok(u) => {
                &&& r is Ok
                &&& view_option(r->Ok_0.price) == u.0
                &&& view_option(r->Ok_0.quantity) == u.1
                &&& r->Ok_0.valid_until is None
                &&& view_option(r->Ok_0.tag) == view_option(tag)
            },
            Err(e) => r is Err && r->Err_0@ == e,
        },
{
    let price = match &price {
        Some(p) => match decimal_proto(p.as_str()) {
            Ok(d) => Some(wire::Price { amount: Some(d), currency: Currency::Eur.to_wire() }),
            Err(e) => {
                return Err(e);
            },
        },
        None => None,
    };
    let quantity = match &qty {
        Some(q) => match decimal_proto(q.as_str()) {
            Ok(d) => Some(wire::Power { mw: Some(d) }),
            Err(e) => {
                return Err(e);
            },
        },
        None => None,
    };
    Ok(UpdateFields { price, quantity, valid_until: None, tag })
}

/// The integer of a side, where one is asked for.
pub open spec fn side_number(side: Option<Side>) -> Option<i32> {
    match side {
        Some(s) => Some(s.number()),
        None => None,
    }
}

fn side_wire(side: Option<Side>) -> (r: Option<i32>)
    ensures
        r == side_number(side),
{
    match side {
        Some(s) => Some(s.to_wire()),
        None => None,
    }
}

/// Which orders a client asks for.
pub fn order_selection(states: &Vec<OrderState>, side: Option<Side>) -> (r: Selection)
    ensures
        r.states@ == Seq::new(states@.len(), |i: int| states@[i].number()),
        r.side == side_number(side),
        r.tag is None,
{
    let mut out: Vec<i32> = Vec::new();
    let mut i: usize = 0;
    while i < states.len()
        invariant
            i <= states@.len(),
            out@.len() == i,
            forall|j: int| 0 <= j < i ==> #[trigger] out@[j] == states@[j].number(),
        decreases states@.len() - i,
    {
        out.push(states[i].to_wire());
        i += 1;
    }
    assert(out@ =~= Seq::new(states@.len(), |i: int| states@[i].number()));
    Selection { states: out, side: side_wire(side), tag: None }
}

/// Which trades a client asks for: the active ones.
pub fn trade_selection(side: Option<Side>) -> (r: Selection)
    ensures
        r.states@ == seq![TradeState::Active.number()],
        r.side == side_number(side),
        r.tag is None,
{
    let states: Vec<i32> = vec![TradeState::Active.to_wire()];
    assert(states@ =~= seq![TradeState::Active.number()]);
    Selection { states, side: side_wire(side), tag: None }
}

fn eic_option(code: Option<&str>) -> (r: Option<Area>)
    ensures
        view_option(r) == match code {
            Some(c) => Some(eic_area(c@)),
            None => None,
        },
{
    match code {
        Some(c) => Some(Area::eic(c)),
        None => None,
    }
}

/// Which public trades a client asks for: the active ones, of the areas it
/// names.
pub fn tape_filter(buy_area: Option<&str>, sell_area: Option<&str>) -> (r: TapeFilter)
    ensures
        r.states@ == seq![TradeState::Active.number()],
        r.period is None,
        view_option(r.buy_area) == match buy_area {
            Some(c) => Some(eic_area(c@)),
            None => None,
        },
        view_option(r.sell_area) == match sell_area {
            Some(c) => Some(eic_area(c@)),
            None => None,
        },
{
    let states: Vec<i32> = vec![TradeState::Active.to_wire()];
    assert(states@ =~= seq![TradeState::Active.number()]);
    TapeFilter {
        states,
        period: None,
        buy_area: eic_option(buy_area),
        sell_area: eic_option(sell_area),
    }
}

/// Which changes of the public book a client asks for: of the area and the
/// side it names.
pub fn book_filter(area: Option<&str>, side: Option<Side>) -> (r: BookFilter)
    ensures
        r.period is None,
        view_option(r.area) == match area {
            Some(c) => Some(area_wire(eic_area(c@))),
            None => None,
        },
        r.side == side_number(side),
{
    let area = match area {
        Some(c) => Some(area_to_proto(&Area::eic(c))),
        None => None,
    };
    BookFilter { period: None, area, side: side_wire(side) }
}

/// What a client sends, the exchange reads as it was meant: a limit order in
/// euros for the area, the delivery, the side, the price and the quantity
/// that were asked for. Left out are sides and restrictions that are not set
/// and deliveries that start within a leap second, which do not travel.
pub proof fn sent_orders_are_understood(args: PlaceArgsV, now: Timestamp)
    requires
        args.side != Side::Unspecified,
        args.restriction != Some(ExecutionOption::Unspecified),
        placing(args, now) is Ok,
        period_start(args.start, now) matches Ok(t) && MIN_SECONDS <= t.0 <= MAX_SECONDS && 0 <= t.1
            < 1_000_000_000,
    ensures
        ({
            let t = period_start(args.start, now)->Ok_0;
            let o = order_of(placing(args, now)->Ok_0);
            &&& o is Ok
            &&& o->Ok_0.area == eic_area(args.area)
            &&& o->Ok_0.period.start == (Timestamp { secs: t.0 as i64, nanos: t.1 as i32 })
            &&& minutes_of(o->Ok_0.period.duration) == args.duration
            &&& o->Ok_0.order_type == OrderType::Limit
            &&& o->Ok_0.side == args.side
            &&& Some(o->Ok_0.price) == decimal_value(args.price)
            &&& o->Ok_0.currency == Currency::Eur
            &&& Some(o->Ok_0.quantity) == decimal_value(args.qty)
            &&& o->Ok_0.execution_option == args.restriction
            &&& o->Ok_0.tag == args.tag
        }),
{
    let p = placing(args, now)->Ok_0;
    let d = duration_of(args.duration)->0;
    d.numbers_round_trip();
    args.side.numbers_round_trip();
    CodeType::EuropeEic.numbers_round_trip();
    OrderType::Limit.numbers_round_trip();
    Currency::Eur.numbers_round_trip();
    if args.restriction is Some {
        args.restriction->0.numbers_round_trip();
    }
    assert(area_of(p.delivery_area->0) == Ok::<AreaV, ConvErrorV>(eic_area(args.area)));
    assert(period_of(p.delivery_period->0) is Ok);
    assert(price_of(p.price->0) is Ok);
    assert(power_of(p.quantity->0) is Ok);
    assert(order_head_of(p) is Ok);
}

} // verus!
