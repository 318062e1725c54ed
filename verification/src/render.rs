//! The lines of a command-line client, and the arguments it reads.

use crate::decimal::{decimal_complaint, decimal_value, Decimal};
use crate::fleet::{boundary_after, next_quarter_boundary, QUARTER_SECS};
use crate::market::{minutes_of, DeliveryDuration};
use crate::order::{view_option, OrderState, Side};
use crate::proto_conv::{MAX_SECONDS, MIN_SECONDS, WireEnum};
use crate::scenarios::Command;
use crate::text::{debug_text, digit, digits, int_text, push_char, quote, same_text, write_nat};
use crate::time::Timestamp;
use crate::wire;
use vstd::prelude::*;

verus! {

/// A text, or a question mark where there is none.
pub open spec fn or_mark(text: Option<Seq<char>>) -> Seq<char> {
    match text {
        Some(t) => t,
        None => "?"@,
    }
}

/// The texts one behind the other.
pub open spec fn joined(parts: Seq<Seq<char>>) -> Seq<char>
    decreases parts.len(),
{
    if parts.len() == 0 {
        Seq::empty()
    } else {
        joined(parts.drop_last()) + parts.last()
    }
}

/// The views of a list of texts.
pub open spec fn str_views(parts: Seq<&str>) -> Seq<Seq<char>> {
    Seq::new(parts.len(), |i: int| parts[i]@)
}

/// The texts one behind the other.
pub fn join(parts: &Vec<&str>) -> (r: String)
    ensures
        r@ == joined(str_views(parts@)),
{
    let ghost all = str_views(parts@);
    let mut out = String::new();
    let mut i: usize = 0;
    assert(all.take(0) =~= Seq::<Seq<char>>::empty());
    assert(out@ =~= joined(all.take(0)));
    while i < parts.len()
        invariant
            i <= parts@.len(),
            all == str_views(parts@),
            out@ == joined(all.take(i as int)),
        decreases parts@.len() - i,
    {
        assert(all.take(i + 1).drop_last() =~= all.take(i as int));
        assert(all.take(i + 1).last() == parts@[i as int]@);
        out.append(parts[i]);
        i += 1;
    }
    assert(all.take(i as int) =~= all);
    out
}

// ---------------------------------------------------------------------------
// The pieces of a line
// ---------------------------------------------------------------------------

/// Two digits, with a leading zero.
pub open spec fn two_digits(n: int) -> Seq<char> {
    seq![digit(n / 10), digit(n % 10)]
}

/// The time of day of an instant, as in `14:05:09`.
pub open spec fn hms(secs: int) -> Seq<char> {
    let day = secs % 86_400;
    two_digits(day / 3600) + seq![':'] + two_digits((day / 60) % 60) + seq![':'] + two_digits(
        day % 60,
    )
}

/// The time of day that `chrono` writes for an instant, if it knows it. The
/// nanoseconds of a leap second are counted past the end of the second.
pub uninterp spec fn clock_text(secs: int, nanos: int) -> Option<Seq<char>>;

/// `chrono`'s `Utc.timestamp_opt(..).single()` and its `%H:%M:%S`. An instant
/// within a second gives its time of day; one out of range gives nothing.
#[verifier::external_body]
fn outside_clock_text(secs: i64, nanos: u32) -> (r: Option<String>)
    ensures
        match r {
            Some(t) => clock_text(secs as int, nanos as int) == Some(t@),
            None => clock_text(secs as int, nanos as int) is None,
        },
        nanos < 1_000_000_000 ==> (r is Some <==> MIN_SECONDS <= secs <= MAX_SECONDS),
        nanos < 1_000_000_000 && r is Some ==> r->0@ == hms(secs as int),
        nanos >= 2_000_000_000 ==> r is None,
{
    match chrono::TimeZone::timestamp_opt(&chrono::Utc, secs, nanos).single() {
        Some(t) => Some(t.format("%H:%M:%S").to_string()),
        None => None,
    }
}

/// The time of day of a wire timestamp, a question mark where there is none.
pub open spec fn short_time(ts: Option<wire::Timestamp>) -> Seq<char> {
    match ts {
        Some(t) => or_mark(clock_text(t.seconds as int, (t.nanos as u32) as int)),
        None => "?"@,
    }
}

/// Format a wire timestamp as the time of day in UTC, for compact lines.
pub fn fmt_short_time(ts: Option<wire::Timestamp>) -> (r: String)
    ensures
        r@ == short_time(ts),
        ts matches Some(t) && 0 <= t.nanos < 1_000_000_000 && MIN_SECONDS <= t.seconds
            <= MAX_SECONDS ==> r@ == hms(ts->0.seconds as int),
        ts is None ==> r@ == "?"@,
{
    match ts {
        Some(t) => match outside_clock_text(t.seconds, t.nanos as u32) {
            Some(text) => text,
            None => "?".to_owned(),
        },
        None => "?".to_owned(),
    }
}

/// The name of a side on the wire.
pub open spec fn side_word(n: i32) -> Seq<char> {
    match n {
        0i32 => "Unspecified"@,
        1i32 => "Buy"@,
        2i32 => "Sell"@,
        _ => "?"@,
    }
}

/// The name of an order state on the wire.
pub open spec fn state_word(n: i32) -> Seq<char> {
    match n {
        0i32 => "Unspecified"@,
        1i32 => "Pending"@,
        2i32 => "Active"@,
        3i32 => "Filled"@,
        4i32 => "Canceled"@,
        5i32 => "Expired"@,
        6i32 => "Failed"@,
        7i32 => "Hibernate"@,
        _ => "?"@,
    }
}

/// The name of a side.
pub fn side_name(n: i32) -> (r: &'static str)
    ensures
        r@ == side_word(n),
{
    match Side::from_wire(n) {
        Some(Side::Unspecified) => "Unspecified",
        Some(Side::Buy) => "Buy",
        Some(Side::Sell) => "Sell",
        None => "?",
    }
}

/// The name of an order state.
pub fn state_name(n: i32) -> (r: &'static str)
    ensures
        r@ == state_word(n),
{
    match OrderState::from_wire(n) {
        Some(OrderState::Unspecified) => "Unspecified",
        Some(OrderState::Pending) => "Pending",
        Some(OrderState::Active) => "Active",
        Some(OrderState::Filled) => "Filled",
        Some(OrderState::Canceled) => "Canceled",
        Some(OrderState::Expired) => "Expired",
        Some(OrderState::Failed) => "Failed",
        Some(OrderState::Hibernate) => "Hibernate",
        None => "?",
    }
}

/// The code of an area, a question mark where there is none.
pub open spec fn area_word(area: Option<wire::DeliveryAreaV>) -> Seq<char> {
    match area {
        Some(a) => a.code,
        None => "?"@,
    }
}

/// The amount of a price, a question mark where there is none.
pub open spec fn price_word(price: Option<wire::PriceV>) -> Seq<char> {
    match price {
        Some(p) => or_mark(p.amount),
        None => "?"@,
    }
}

/// The amount of a power, a question mark where there is none.
pub open spec fn power_word(power: Option<wire::PowerV>) -> Seq<char> {
    match power {
        Some(p) => or_mark(p.mw),
        None => "?"@,
    }
}

/// When a delivery starts, if it is known.
pub open spec fn start_of(period: Option<wire::DeliveryPeriod>) -> Option<wire::Timestamp> {
    match period {
        Some(p) => p.start,
        None => None,
    }
}

fn area_text(area: &Option<wire::DeliveryArea>) -> (r: &str)
    ensures
        r@ == area_word(view_option(*area)),
{
    match area {
        Some(a) => a.code.as_str(),
        None => "?",
    }
}

fn price_text(price: &Option<wire::Price>) -> (r: &str)
    ensures
        r@ == price_word(view_option(*price)),
{
    match price {
        Some(p) => match &p.amount {
            Some(a) => a.value.as_str(),
            None => "?",
        },
        None => "?",
    }
}

fn power_text(power: &Option<wire::Power>) -> (r: &str)
    ensures
        r@ == power_word(view_option(*power)),
{
    match power {
        Some(p) => match &p.mw {
            Some(a) => a.value.as_str(),
            None => "?",
        },
        None => "?",
    }
}

fn delivery_text(period: &Option<wire::DeliveryPeriod>) -> (r: String)
    ensures
        r@ == short_time(start_of(*period)),
{
    match period {
        Some(p) => fmt_short_time(p.start),
        None => fmt_short_time(None),
    }
}

// ---------------------------------------------------------------------------
// Lines
// ---------------------------------------------------------------------------

/// One trade on one line.
pub open spec fn trade_line(t: wire::TradeV) -> Seq<char> {
    joined(
        seq![
            "trade#"@,
            digits(t.id as nat),
            " order#"@,
            digits(t.order_id as nat),
            " "@,
            side_word(t.side),
            " "@,
            power_word(t.quantity),
            " MW @ "@,
            price_word(t.price),
            " EUR (delivery "@,
            short_time(start_of(t.delivery_period)),
            ", "@,
            area_word(t.delivery_area),
            ")"@,
        ],
    )
}

/// One trade on one line.
pub fn render_trade_line(t: &wire::Trade) -> (r: String)
    ensures
        r@ == trade_line(t@),
{
    let id = write_nat(t.id);
    let order = write_nat(t.order_id);
    let period = delivery_text(&t.delivery_period);
    let parts: Vec<&str> = vec![
        "trade#",
        id.as_str(),
        " order#",
        order.as_str(),
        " ",
        side_name(t.side),
        " ",
        power_text(&t.quantity),
        " MW @ ",
        price_text(&t.price),
        " EUR (delivery ",
        period.as_str(),
        ", ",
        area_text(&t.delivery_area),
        ")",
    ];
    assert(str_views(parts@) =~= seq![
        "trade#"@,
        digits(t.id as nat),
        " order#"@,
        digits(t.order_id as nat),
        " "@,
        side_word(t.side),
        " "@,
        power_word(t@.quantity),
        " MW @ "@,
        price_word(t@.price),
        " EUR (delivery "@,
        short_time(start_of(t.delivery_period)),
        ", "@,
        area_word(t@.delivery_area),
        ")"@,
    ]);
    join(&parts)
}

/// Where a public trade delivers: one area, or the two it crosses between.
pub open spec fn crossing(buy: Seq<char>, sell: Seq<char>) -> Seq<char> {
    if buy == sell {
        buy
    } else {
        joined(seq![buy, " -> "@, sell])
    }
}

/// One public trade on one line.
pub open spec fn public_trade_line(t: wire::PublicTradeV) -> Seq<char> {
    joined(
        seq![
            "public#"@,
            digits(t.id as nat),
            " "@,
            power_word(t.quantity),
            " MW @ "@,
            price_word(t.price),
            " EUR (delivery "@,
            short_time(start_of(t.delivery_period)),
            ", "@,
            crossing(area_word(t.buy_delivery_area), area_word(t.sell_delivery_area)),
            ")"@,
        ],
    )
}

/// One public trade on one line.
pub fn render_public_trade_line(t: &wire::PublicTrade) -> (r: String)
    ensures
        r@ == public_trade_line(t@),
{
    let id = write_nat(t.id);
    let period = delivery_text(&t.delivery_period);
    let buy = area_text(&t.buy_delivery_area);
    let sell = area_text(&t.sell_delivery_area);
    let cross = if same_text(buy, sell) {
        buy.to_owned()
    } else {
        let both: Vec<&str> = vec![buy, " -> ", sell];
        assert(str_views(both@) =~= seq![buy@, " -> "@, sell@]);
        join(&both)
    };
    let parts: Vec<&str> = vec![
        "public#",
        id.as_str(),
        " ",
        power_text(&t.quantity),
        " MW @ ",
        price_text(&t.price),
        " EUR (delivery ",
        period.as_str(),
        ", ",
        cross.as_str(),
        ")",
    ];
    assert(str_views(parts@) =~= seq![
        "public#"@,
        digits(t.id as nat),
        " "@,
        power_word(t@.quantity),
        " MW @ "@,
        price_word(t@.price),
        " EUR (delivery "@,
        short_time(start_of(t.delivery_period)),
        ", "@,
        crossing(area_word(t@.buy_delivery_area), area_word(t@.sell_delivery_area)),
        ")"@,
    ]);
    join(&parts)
}

/// The fields of an order that a line shows.
pub open spec fn order_words(o: Option<wire::OrderV>) -> (
    Seq<char>,
    Seq<char>,
    Seq<char>,
    Seq<char>,
) {
    match o {
        Some(o) => (
            side_word(o.side),
            power_word(o.quantity),
            price_word(o.price),
            short_time(start_of(o.delivery_period)),
        ),
        None => ("?"@, "?"@, "?"@, "?"@),
    }
}

/// The name of an order's state, a question mark where there is none.
pub open spec fn order_state_word(state: Option<wire::StateDetail>) -> Seq<char> {
    match state {
        Some(s) => state_word(s.state),
        None => "?"@,
    }
}

/// One order on one line.
pub open spec fn order_line(d: wire::OrderDetailV) -> Seq<char> {
    let w = order_words(d.order);
    joined(
        seq![
            "#"@,
            digits(d.order_id as nat),
            " "@,
            w.0,
            " "@,
            w.1,
            " MW @ "@,
            w.2,
            " EUR (open "@,
            power_word(d.open_quantity),
            ", delivery "@,
            w.3,
            ") ["@,
            order_state_word(d.state_detail),
            "]"@,
        ],
    )
}

/// One order on one line.
pub fn render_order_line(d: &wire::OrderDetail) -> (r: String)
    ensures
        r@ == order_line(d@),
{
    let id = write_nat(d.order_id);
    let state = match &d.state_detail {
        Some(s) => state_name(s.state),
        None => "?",
    };
    let (side, qty, price, period) = match &d.order {
        Some(o) => (
            side_name(o.side),
            power_text(&o.quantity),
            price_text(&o.price),
            delivery_text(&o.delivery_period),
        ),
        None => ("?", "?", "?", "?".to_owned()),
    };
    let parts: Vec<&str> = vec![
        "#",
        id.as_str(),
        " ",
        side,
        " ",
        qty,
        " MW @ ",
        price,
        " EUR (open ",
        power_text(&d.open_quantity),
        ", delivery ",
        period.as_str(),
        ") [",
        state,
        "]",
    ];
    proof {
        let w = order_words(d@.order);
        assert(str_views(parts@) =~= seq![
            "#"@,
            digits(d.order_id as nat),
            " "@,
            w.0,
            " "@,
            w.1,
            " MW @ "@,
            w.2,
            " EUR (open "@,
            power_word(d@.open_quantity),
            ", delivery "@,
            w.3,
            ") ["@,
            order_state_word(d@.state_detail),
            "]"@,
        ]);
    }
    join(&parts)
}

/// One change of the public book on one line.
pub open spec fn book_line(r: wire::RecordV) -> Seq<char> {
    joined(
        seq![
            "book#"@,
            digits(r.id as nat),
            " "@,
            side_word(r.side),
            " "@,
            power_word(r.quantity),
            " MW @ "@,
            price_word(r.price),
            " EUR (delivery "@,
            short_time(start_of(r.delivery_period)),
            ", "@,
            area_word(r.delivery_area),
            ")"@,
        ],
    )
}

/// One change of the public book on one line.
pub fn render_book_line(b: &wire::PublicOrderBookRecord) -> (r: String)
    ensures
        r@ == book_line(b@),
{
    let id = write_nat(b.id);
    let period = delivery_text(&b.delivery_period);
    let parts: Vec<&str> = vec![
        "book#",
        id.as_str(),
        " ",
        side_name(b.side),
        " ",
        power_text(&b.quantity),
        " MW @ ",
        price_text(&b.price),
        " EUR (delivery ",
        period.as_str(),
        ", ",
        area_text(&b.delivery_area),
        ")",
    ];
    assert(str_views(parts@) =~= seq![
        "book#"@,
        digits(b.id as nat),
        " "@,
        side_word(b.side),
        " "@,
        power_word(b@.quantity),
        " MW @ "@,
        price_word(b@.price),
        " EUR (delivery "@,
        short_time(start_of(b.delivery_period)),
        ", "@,
        area_word(b@.delivery_area),
        ")"@,
    ]);
    join(&parts)
}

/// A scenario as a client shows it on one line; what the answer did not give
/// is not there.
#[derive(Debug)]
pub struct ScenarioBrief {
    pub name: Option<String>,
    pub current: Option<u64>,
    pub stages: Vec<Option<String>>,
    pub manual: bool,
    pub wall: Option<u64>,
    pub description: String,
}

/// The name of a stage, a question mark where there is none.
pub open spec fn stage_word(stages: Seq<Option<String>>, i: int) -> Seq<char> {
    if 0 <= i < stages.len() {
        or_mark(view_option(stages[i]))
    } else {
        "?"@
    }
}

/// A text filled up with blanks to at least `width` characters.
pub open spec fn padded(text: Seq<char>, width: nat) -> Seq<char> {
    if text.len() >= width {
        text
    } else {
        text + Seq::new((width - text.len()) as nat, |i: int| ' ')
    }
}

/// Fill a text up with blanks to at least `width` characters.
fn pad(text: &str, width: usize) -> (r: String)
    ensures
        r@ == padded(text@, width as nat),
{
    let mut out = text.to_owned();
    let mut n = text.unicode_len();
    let ghost start = text@.len();
    while n < width
        invariant
            start == text@.len(),
            n >= start,
            n == out@.len(),
            n <= width || n == start,
            out@ =~= text@ + Seq::new((n - start) as nat, |i: int| ' '),
        decreases width - n,
    {
        push_char(&mut out, ' ');
        n += 1;
        assert(out@ =~= text@ + Seq::new((n - start) as nat, |i: int| ' '));
    }
    assert(out@ =~= padded(text@, width as nat));
    out
}

/// Where a scenario stands: the number and the name of its stage.
pub open spec fn stage_text(current: Option<u64>, stages: Seq<Option<String>>) -> Seq<char> {
    match current {
        Some(c) => joined(
            seq![
                digits((c + 1) as nat),
                "/"@,
                digits(stages.len()),
                " "@,
                stage_word(stages, c as int),
            ],
        ),
        None => "idle"@,
    }
}

/// The stage of the wall clock, blank where there is none.
pub open spec fn wall_text(wall: Option<u64>, stages: Seq<Option<String>>) -> Seq<char> {
    match wall {
        Some(w) => "now="@ + stage_word(stages, w as int),
        None => ""@,
    }
}

fn stage_name(stages: &Vec<Option<String>>, i: u64) -> (r: &str)
    ensures
        r@ == stage_word(stages@, i as int),
{
    if i < stages.len() as u64 {
        match &stages[i as usize] {
            Some(name) => name.as_str(),
            None => "?",
        }
    } else {
        "?"
    }
}

/// One scenario on one line.
pub fn render_scenario_brief(s: &ScenarioBrief) -> (r: String)
    requires
        s.current matches Some(c) ==> c < u64::MAX,
    ensures
        r@ == joined(
            seq![
                padded(or_mark(view_option(s.name)), 24),
                " "@,
                stage_text(s.current, s.stages@),
                if s.manual {
                    " [manual]"@
                } else {
                    ""@
                },
                " "@,
                wall_text(s.wall, s.stages@),
                "  — "@,
                s.description@,
            ],
        ),
{
    let name = match &s.name {
        Some(n) => pad(n.as_str(), 24),
        None => pad("?", 24),
    };
    let stage = match s.current {
        Some(c) => {
            let number = write_nat(c + 1);
            let count = write_nat(s.stages.len() as u64);
            let parts: Vec<&str> = vec![
                number.as_str(),
                "/",
                count.as_str(),
                " ",
                stage_name(&s.stages, c),
            ];
            assert(str_views(parts@) =~= seq![
                digits((c + 1) as nat),
                "/"@,
                digits(s.stages@.len()),
                " "@,
                stage_word(s.stages@, c as int),
            ]);
            join(&parts)
        },
        None => "idle".to_owned(),
    };
    let wall = match s.wall {
        Some(w) => {
            let mut out = "now=".to_owned();
            out.append(stage_name(&s.stages, w));
            out
        },
        None => "".to_owned(),
    };
    let manual = if s.manual {
        " [manual]"
    } else {
        ""
    };
    let parts: Vec<&str> = vec![
        name.as_str(),
        " ",
        stage.as_str(),
        manual,
        " ",
        wall.as_str(),
        "  — ",
        s.description.as_str(),
    ];
    assert(str_views(parts@) =~= seq![
        padded(or_mark(view_option(s.name)), 24),
        " "@,
        stage_text(s.current, s.stages@),
        manual@,
        " "@,
        wall_text(s.wall, s.stages@),
        "  — "@,
        s.description@,
    ]);
    join(&parts)
}

/// Where a command on a scenario goes.
pub open spec fn scenario_path(name: Seq<char>, c: Command) -> Seq<char> {
    let verb = match c {
        Command::Start => "/start"@,
        Command::Next => "/next"@,
        Command::Prev => "/prev"@,
        Command::Jump(i) => "/jump/"@ + digits(i as nat),
        Command::Stop => "/stop"@,
    };
    "/api/scenarios/"@ + name + verb
}

/// Where a client's command on a scenario goes, below the address of the
/// interface.
pub fn command_path(name: &str, c: Command) -> (r: String)
    ensures
        r@ == scenario_path(name@, c),
{
    let mut out = "/api/scenarios/".to_owned();
    out.append(name);
    let verb = match c {
        Command::Start => "/start".to_owned(),
        Command::Next => "/next".to_owned(),
        Command::Prev => "/prev".to_owned(),
        Command::Jump(i) => {
            let mut v = "/jump/".to_owned();
            let n = write_nat(i as u64);
            v.append(n.as_str());
            v
        },
        Command::Stop => "/stop".to_owned(),
    };
    out.append(verb.as_str());
    out
}

// ---------------------------------------------------------------------------
// Arguments
// ---------------------------------------------------------------------------

/// The duration of a delivery in minutes, as a client gives it.
pub fn duration_proto(mins: u32) -> (r: Result<DeliveryDuration, String>)
    ensures
        match r {
            Ok(d) => minutes_of(d) == mins,
            Err(e) => {
                &&& mins != 5 && mins != 15 && mins != 30 && mins != 60
                &&& e@ == joined(
                    seq![
                        "invalid duration "@,
                        digits(mins as nat),
                        " (allowed: 5, 15, 30, 60)"@,
                    ],
                )
            },
        },
{
    match DeliveryDuration::from_minutes(mins as i64) {
        Some(d) => Ok(d),
        None => {
            assert(minutes_of(DeliveryDuration::FiveMin) != mins);
            assert(minutes_of(DeliveryDuration::QuarterHour) != mins);
            assert(minutes_of(DeliveryDuration::HalfHour) != mins);
            assert(minutes_of(DeliveryDuration::Hour) != mins);
            let number = write_nat(mins as u64);
            let parts: Vec<&str> = vec![
                "invalid duration ",
                number.as_str(),
                " (allowed: 5, 15, 30, 60)",
            ];
            assert(str_views(parts@) =~= seq![
                "invalid duration "@,
                digits(mins as nat),
                " (allowed: 5, 15, 30, 60)"@,
            ]);
            Err(join(&parts))
        },
    }
}

/// What a client says of an argument it cannot read.
pub open spec fn complaint(what: Seq<char>, text: Seq<char>, why: Seq<char>) -> Seq<char> {
    joined(seq![what, debug_text(text), ": "@, why])
}

fn complain(what: &str, text: &str, why: &str) -> (r: String)
    ensures
        r@ == complaint(what@, text@, why@),
{
    let quoted = quote(&text.to_owned());
    let parts: Vec<&str> = vec![what, quoted.as_str(), ": ", why];
    assert(str_views(parts@) =~= seq![what@, debug_text(text@), ": "@, why@]);
    join(&parts)
}

/// A decimal as a client gives it: handed on as it is written, if it reads as
/// one.
pub fn decimal_proto(text: &str) -> (r: Result<wire::Decimal, String>)
    ensures
        match r {
            Ok(d) => decimal_value(text@) is Some && d@ == text@,
            Err(e) => decimal_value(text@) is None && e@ == complaint(
                "bad decimal "@,
                text@,
                decimal_complaint(text@),
            ),
        },
{
    match Decimal::read(text) {
        Ok(_) => Ok(wire::Decimal { value: text.to_owned() }),
        Err(why) => Err(complain("bad decimal ", text, why.as_str())),
    }
}

/// The text is made of decimal digits, and of at least one.
pub open spec fn all_digits(text: Seq<char>) -> bool {
    text.len() > 0 && forall|i: int| 0 <= i < text.len() ==> '0' <= #[trigger] text[i] <= '9'
}

/// The number a run of decimal digits stands for.
pub open spec fn digits_value(text: Seq<char>) -> int
    decreases text.len(),
{
    if text.len() == 0 {
        0
    } else {
        10 * digits_value(text.drop_last()) + (text.last() as int - '0' as int)
    }
}

/// The 64-bit number that a text reads as: decimal digits, with a sign or
/// without, and nothing else.
pub open spec fn int_value(text: Seq<char>) -> Option<int> {
    let signed = text.len() > 0 && (text[0] == '-' || text[0] == '+');
    let run = if signed {
        text.drop_first()
    } else {
        text
    };
    let n = if signed && text[0] == '-' {
        -digits_value(run)
    } else {
        digits_value(run)
    };
    if all_digits(run) && i64::MIN <= n <= i64::MAX {
        Some(n)
    } else {
        None
    }
}

proof fn lemma_digits_read(n: nat)
    ensures
        all_digits(digits(n)),
        digits_value(digits(n)) == n,
    decreases n,
{
    if n < 10 {
        let run = digits(n);
        assert(run.drop_last() =~= Seq::<char>::empty());
        assert(digits_value(run.drop_last()) == 0);
    } else {
        lemma_digits_read(n / 10);
        let run = digits(n);
        assert(run.drop_last() =~= digits(n / 10));
        assert forall|i: int| 0 <= i < run.len() implies '0' <= #[trigger] run[i] <= '9' by {
            if i < run.len() - 1 {
                assert(run[i] == digits(n / 10)[i]);
            }
        }
    }
}

/// A number in decimal reads as that number.
pub proof fn numbers_read_back(n: int)
    requires
        i64::MIN <= n <= i64::MAX,
    ensures
        int_value(int_text(n)) == Some(n),
{
    let text = int_text(n);
    if n >= 0 {
        lemma_digits_read(n as nat);
        assert('0' <= text[0] <= '9');
    } else {
        lemma_digits_read((-n) as nat);
        assert(text.drop_first() =~= digits((-n) as nat));
    }
}

/// Why the standard library reads no number in a text.
pub uninterp spec fn int_complaint(text: Seq<char>) -> Seq<char>;

/// The standard library's `str::parse` to a 64-bit integer: an optional sign
/// followed by decimal digits alone, within the range of the type. Why a text
/// does not read is the named result.
#[verifier::external_body]
fn outside_int(text: &str) -> (r: Result<i64, String>)
    ensures
        match r {
            Ok(n) => int_value(text@) == Some(n as int),
            Err(e) => int_value(text@) is None && e@ == int_complaint(text@),
        },
{
    match text.parse::<i64>() {
        Ok(n) => Ok(n),
        Err(e) => Err(e.to_string()),
    }
}

/// The seconds and nanoseconds of the instant that `chrono` reads in a text,
/// if it reads one.
pub uninterp spec fn instant_value(text: Seq<char>) -> Option<(int, int)>;

/// Why `chrono` reads no instant in a text.
pub uninterp spec fn instant_complaint(text: Seq<char>) -> Seq<char>;

/// `chrono`'s `DateTime::parse_from_rfc3339`. The instant a text reads as,
/// and why it does not read, are the named results.
#[verifier::external_body]
fn outside_instant(text: &str) -> (r: Result<(i64, u32), String>)
    ensures
        match r {
            Ok(t) => instant_value(text@) == Some((t.0 as int, t.1 as int)) && t.1 < 2_000_000_000,
            Err(e) => instant_value(text@) is None && e@ == instant_complaint(text@),
        },
{
    match chrono::DateTime::parse_from_rfc3339(text) {
        Ok(t) => Ok((t.timestamp(), t.timestamp_subsec_nanos())),
        Err(e) => Err(e.to_string()),
    }
}

/// What the start of a delivery reads as, as a client gives it.
pub open spec fn period_start(text: Seq<char>, now: Timestamp) -> Result<(int, int), Seq<char>> {
    if text == "next"@ {
        Ok((boundary_after(now).secs as int, 0))
    } else if text.len() > 0 && text[0] == '+' {
        match int_value(text.drop_first()) {
            Some(n) => Ok((boundary_after(now).secs + 900 * n, 0)),
            None => Err(
                complaint(
                    "bad quarter offset "@,
                    text.drop_first(),
                    int_complaint(text.drop_first()),
                ),
            ),
        }
    } else {
        match instant_value(text) {
            Some(t) => Ok(t),
            None => Err(complaint("bad timestamp "@, text, instant_complaint(text))),
        }
    }
}

/// Read the start of a delivery: `next` is the next quarter boundary, `+N`
/// lies N quarters past it, and anything else is an instant written out.
/// `None` where the quarters lead out of the range of instants.
pub fn parse_period_start(text: &str, now: Timestamp) -> (r: Option<Result<Timestamp, String>>)
    requires
        now.secs <= i64::MAX - QUARTER_SECS,
    ensures
        match r {
            Some(Ok(t)) => period_start(text@, now) == Ok::<(int, int), Seq<char>>(
                (t.secs as int, t.nanos as int),
            ),
            Some(Err(e)) => period_start(text@, now) == Err::<(int, int), Seq<char>>(e@),
            None => period_start(text@, now) matches Ok(t) && text@.len() > 0 && text@[0] == '+'
                && !(MIN_SECONDS <= t.0 <= MAX_SECONDS),
        },
        text@ == "next"@ ==> r == Some(Ok::<Timestamp, String>(boundary_after(now))),
        forall|n: i64|
            text@ == seq!['+'] + #[trigger] int_text(n as int) ==> {
                let secs = boundary_after(now).secs + 900 * n;
                if MIN_SECONDS <= secs <= MAX_SECONDS {
                    r == Some(
                        Ok::<Timestamp, String>(Timestamp { secs: secs as i64, nanos: 0 }),
                    )
                } else {
                    r is None
                }
            },
{
    proof {
        reveal_strlit("next");
        assert("next"@[0] == 'n');
        assert forall|n: i64| text@ == seq!['+'] + #[trigger] int_text(n as int) implies text@[0]
            == '+' && text@.drop_first() == int_text(n as int) by {
            assert(text@.drop_first() =~= int_text(n as int));
        }
        assert forall|n: i64| text@ == seq!['+'] + #[trigger] int_text(n as int) implies int_value(
            text@.drop_first(),
        ) == Some(n as int) by {
            numbers_read_back(n as int);
            assert(text@.drop_first() =~= int_text(n as int));
        }
    }
    if same_text(text, "next") {
        return Some(Ok(next_quarter_boundary(now)));
    }
    let n = text.unicode_len();
    if n > 0 && text.get_char(0) == '+' {
        let rest = text.substring_char(1, n);
        assert(rest@ =~= text@.drop_first());
        return match outside_int(rest) {
            Ok(quarters) => {
                let base = next_quarter_boundary(now);
                let secs: i128 = base.secs as i128 + 900 * quarters as i128;
                if MIN_SECONDS as i128 <= secs && secs <= MAX_SECONDS as i128 {
                    Some(Ok(Timestamp { secs: secs as i64, nanos: 0 }))
                } else {
                    None
                }
            },
            Err(why) => Some(Err(complain("bad quarter offset ", rest, why.as_str()))),
        };
    }
    match outside_instant(text) {
        Ok((secs, nanos)) => Some(Ok(Timestamp { secs, nanos: nanos as i32 })),
        Err(why) => Some(Err(complain("bad timestamp ", text, why.as_str()))),
    }
}

} // verus!
