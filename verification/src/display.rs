//! What is put on screens and lines.

use crate::areas::{
    known_areas, order_state_names, short_for, side_names, tag_from, trade_state_names, AreaGroup,
};
use crate::dashboard::{at_home, charted, in_view, lemma_rows_where, of_period, offered, rows_where};
use crate::decimal::{decimal_text, unit};
use crate::gridpool::PoolV;
use crate::market::{default_rules, minutes_of, AreaV, Currency, DeliveryDuration};
use crate::model::{book_record, BookEvent};
use crate::order::{DetailV, OrderState, Side};
use crate::panel::{
    back_text, flipped, home_only, info_text, neighbours_flipped, on_show, printed, rows, shown,
    step_for, taped, tokens, trades_text, turned, FilterV,
};
use crate::proto_conv::{detail_wire, public_trade_wire, trade_wire, WireEnum};
use crate::render::{
    book_line, clock_text, hms, joined, order_line, public_trade_line, scenario_path, side_word,
    state_word, trade_line,
};
use crate::scenarios::{Command, ScenarioV};
use crate::table::views;
use crate::text::{digits, int_text, text_at_most};
use crate::time::Timestamp;
use crate::trade::{PublicTradeV, TradeV};
use crate::ui::{
    area_codes, book_text, instant_or_blank, shows_pool, shows_scenario, stage_names, GridpoolResp,
    ScenarioJson, TradeTextV,
};
use vstd::prelude::*;

verus! {

/// Every area has its tag, and whatever is no area has a question mark. Four of
/// the areas are at home.
pub proof fn areas_have_their_tags(code: Seq<char>)
    ensures
        tag_from(known_areas(), code, 0) == if code == "10YDE-EON------1"@ {
            "TN"@
        } else if code == "10YDE-RWENET---I"@ {
            "AM"@
        } else if code == "10YDE-VE-------2"@ {
            "HZ"@
        } else if code == "10YDE-ENBW-----N"@ {
            "BW"@
        } else if code == "10YFR-RTE------C"@ {
            "FR"@
        } else if code == "10YNL----------L"@ {
            "NL"@
        } else if code == "10YBE----------2"@ {
            "BE"@
        } else if code == "10YAT-APG------L"@ {
            "AT"@
        } else {
            "?"@
        },
        at_home(code) <==> code == "10YDE-EON------1"@ || code == "10YDE-RWENET---I"@ || code
            == "10YDE-VE-------2"@ || code == "10YDE-ENBW-----N"@,
{
    reveal_with_fuel(tag_from, 9);
    let k = known_areas();
    assert(k.len() == 8);
    assert(k[0].code == "10YDE-EON------1"@ && k[0].group == AreaGroup::Home);
    assert(k[1].code == "10YDE-RWENET---I"@ && k[1].group == AreaGroup::Home);
    assert(k[2].code == "10YDE-VE-------2"@ && k[2].group == AreaGroup::Home);
    assert(k[3].code == "10YDE-ENBW-----N"@ && k[3].group == AreaGroup::Home);
}

/// The names of sides and states have their short forms, and any other text
/// is left as it is.
pub proof fn names_have_their_short_forms(text: Seq<char>)
    ensures
        short_for(side_names(), text, 0) == if text == "MARKET_SIDE_BUY"@ {
            "buy"@
        } else if text == "MARKET_SIDE_SELL"@ {
            "sell"@
        } else {
            text
        },
        short_for(order_state_names(), text, 0) == if text == "ORDER_STATE_PENDING"@ {
            "pending"@
        } else if text == "ORDER_STATE_ACTIVE"@ {
            "active"@
        } else if text == "ORDER_STATE_HIBERNATE"@ {
            "hibernate"@
        } else if text == "ORDER_STATE_FILLED"@ {
            "filled"@
        } else if text == "ORDER_STATE_CANCELED"@ {
            "canceled"@
        } else if text == "ORDER_STATE_EXPIRED"@ {
            "expired"@
        } else if text == "ORDER_STATE_FAILED"@ {
            "failed"@
        } else {
            text
        },
        short_for(trade_state_names(), text, 0) == if text == "TRADE_STATE_ACTIVE"@ {
            "active"@
        } else if text == "TRADE_STATE_CANCEL_REQUESTED"@ {
            "cancel?"@
        } else if text == "TRADE_STATE_CANCEL_REJECTED"@ {
            "cancel✗"@
        } else if text == "TRADE_STATE_CANCELED"@ {
            "canceled"@
        } else if text == "TRADE_STATE_RECALL_REQUESTED"@ {
            "recall?"@
        } else if text == "TRADE_STATE_RECALL_REJECTED"@ {
            "recall✗"@
        } else if text == "TRADE_STATE_RECALLED"@ {
            "recalled"@
        } else if text == "TRADE_STATE_APPROVAL_REQUESTED"@ {
            "approval?"@
        } else {
            text
        },
{
    reveal_with_fuel(short_for, 9);
}

/// The tape has the newest print first, the others behind it as they were, and
/// five hundred at most.
pub proof fn the_tape_has_the_newest_first<T>(tape: Seq<T>, t: T, i: int)
    requires
        tape.len() <= 500,
        0 <= i < tape.len(),
        i < 499,
    ensures
        taped(tape, t)[0] == t,
        taped(tape, t)[i + 1] == tape[i],
        tape.len() < 500 ==> taped(tape, t).len() == tape.len() + 1,
        tape.len() == 500 ==> taped(tape, t).len() == 500,
{
}

/// The print is for the deliveries that were asked for and touches an area
/// that is shown.
pub open spec fn to_be_shown(
    t: TradeTextV,
    f: FilterV,
    pinned: Option<Seq<char>>,
    focused: Option<Seq<char>>,
) -> bool {
    &&& pinned is Some ==> t.period == pinned->0
    &&& focused is Some ==> t.period == focused->0
    &&& exists|i: int|
        0 <= i < known_areas().len() && f.active[i] && ((#[trigger] known_areas()[i]).code
            == t.buy_area || known_areas()[i].code == t.sell_area)
}

proof fn lemma_to_be_shown(
    t: TradeTextV,
    f: FilterV,
    pinned: Option<Seq<char>>,
    focused: Option<Seq<char>>,
)
    ensures
        on_show(t, f, pinned, focused) <==> to_be_shown(t, f, pinned, focused),
{
    if shown(f, t.buy_area) {
        let i = choose|i: int|
            0 <= i < known_areas().len() && (#[trigger] known_areas()[i]).code == t.buy_area
                && f.active[i];
        assert(known_areas()[i].code == t.buy_area);
    }
    if shown(f, t.sell_area) {
        let i = choose|i: int|
            0 <= i < known_areas().len() && (#[trigger] known_areas()[i]).code == t.sell_area
                && f.active[i];
        assert(known_areas()[i].code == t.sell_area);
    }
}

/// The rows that are shown are the first of the prints that are to be, in
/// order, up to the room there is: what is to be shown and is not comes after
/// the last that is, and only once the room is used up.
pub proof fn rows_are_the_first_to_be_shown(
    tape: Seq<TradeTextV>,
    f: FilterV,
    pinned: Option<Seq<char>>,
    focused: Option<Seq<char>>,
    from: int,
    room: nat,
)
    requires
        0 <= from <= tape.len(),
    ensures
        ({
            let r = rows(tape, f, pinned, focused, from, room);
            &&& r.len() <= room
            &&& forall|k: int|
                0 <= k < r.len() ==> from <= (#[trigger] r[k]) < tape.len() && to_be_shown(
                    tape[r[k]],
                    f,
                    pinned,
                    focused,
                )
            &&& forall|a: int, b: int|
                0 <= a < b < r.len() ==> (#[trigger] r[a]) < (#[trigger] r[b])
            &&& forall|i: int|
                from <= i < tape.len() && to_be_shown(#[trigger] tape[i], f, pinned, focused)
                    && !r.contains(i) ==> r.len() == room && forall|k: int|
                    0 <= k < r.len() ==> (#[trigger] r[k]) < i
        }),
    decreases tape.len() - from,
{
    let r = rows(tape, f, pinned, focused, from, room);
    if from < tape.len() && room > 0 {
        lemma_to_be_shown(tape[from], f, pinned, focused);
        let now = on_show(tape[from], f, pinned, focused);
        let left = if now {
            (room - 1) as nat
        } else {
            room
        };
        rows_are_the_first_to_be_shown(tape, f, pinned, focused, from + 1, left);
        let rest = rows(tape, f, pinned, focused, from + 1, left);
        let d: int = if now {
            1
        } else {
            0
        };
        assert forall|k: int| 0 <= k < rest.len() implies (#[trigger] r[k + d]) == rest[k] by {}
        assert forall|k: int| 0 <= k < r.len() implies from <= (#[trigger] r[k]) < tape.len()
            && to_be_shown(tape[r[k]], f, pinned, focused) by {
            if k >= d {
                assert(r[k] == rest[k - d]);
            }
        }
        assert forall|a: int, b: int| 0 <= a < b < r.len() implies (#[trigger] r[a]) < (
        #[trigger] r[b]) by {
            assert(r[b] == rest[b - d]);
            if a >= d {
                assert(r[a] == rest[a - d]);
            }
        }
        assert forall|i: int|
            from <= i < tape.len() && to_be_shown(#[trigger] tape[i], f, pinned, focused)
                && !r.contains(i) implies r.len() == room && forall|k: int|
            0 <= k < r.len() ==> (#[trigger] r[k]) < i by {
            if i == from {
                assert(r[0] == from);
                assert(r.contains(i));
            } else {
                if rest.contains(i) {
                    let k = choose|k: int| 0 <= k < rest.len() && rest[k] == i;
                    assert(r[k + d] == i);
                    assert(r.contains(i));
                }
                assert forall|k: int| 0 <= k < r.len() implies (#[trigger] r[k]) < i by {
                    if k >= d {
                        assert(r[k] == rest[k - d]);
                    }
                }
            }
        }
    }
}

/// A print adds one to the last bar of its area, short of the most a bar can
/// show, and changes no other bar; turning drops the first bar of every area,
/// moves the others up, and begins an empty one.
pub proof fn prints_raise_the_last_bar(
    sparks: Seq<(Seq<char>, Seq<u32>)>,
    area: Seq<char>,
    i: int,
    k: int,
)
    requires
        0 <= i < sparks.len(),
        0 <= k < sparks[i].1.len(),
    ensures
        ({
            let bars = sparks[i].1;
            let after = printed(sparks, area)[i];
            let next = turned(sparks)[i];
            &&& printed(sparks, area).len() == sparks.len()
            &&& after.0 == sparks[i].0
            &&& after.1.len() == bars.len()
            &&& sparks[i].0 != area ==> after.1 == bars
            &&& k < bars.len() - 1 ==> after.1[k] == bars[k]
            &&& sparks[i].0 == area && bars.last() < u32::MAX ==> after.1.last() == bars.last() + 1
            &&& sparks[i].0 == area && bars.last() == u32::MAX ==> after.1.last() == u32::MAX
            &&& turned(sparks).len() == sparks.len()
            &&& next.0 == sparks[i].0
            &&& next.1.len() == bars.len()
            &&& next.1.last() == 0
            &&& k < bars.len() - 1 ==> next.1[k] == bars[k + 1]
        }),
{
}

/// At first the areas at home are shown and no others. Clicking an area's chip
/// shows it where it was hidden and hides it where it was shown, and leaves
/// the others alone; clicking the neighbours' shows or hides them all.
pub proof fn chips_do_what_they_say(f: FilterV, code: Seq<char>, i: int)
    requires
        f.active.len() == 8,
        0 <= i < 8,
    ensures
        ({
            let area = known_areas()[i];
            &&& home_only().active[i] == (i < 4)
            &&& !home_only().show_neighbours
            &&& flipped(f, code).active[i] == if area.code == code {
                !f.active[i]
            } else {
                f.active[i]
            }
            &&& flipped(f, code).show_neighbours == f.show_neighbours
            &&& neighbours_flipped(f).show_neighbours == !f.show_neighbours
            &&& neighbours_flipped(f).active[i] == if i < 4 {
                f.active[i]
            } else {
                !f.show_neighbours
            }
        }),
{
    assert(known_areas().len() == 8);
}

/// An area is shown where its chip is on.
pub proof fn shown_areas_have_their_chip_on(f: FilterV, code: Seq<char>)
    ensures
        shown(f, code) <==> exists|i: int|
            0 <= i < 8 && (#[trigger] known_areas()[i]).code == code && f.active[i],
{
    assert(known_areas().len() == 8);
}

/// Whatever the window of a chart, its marks are at most eight steps apart, and
/// no smaller of the round steps would do.
pub proof fn steps_are_the_smallest_that_do(window: int, s: int)
    requires
        0 <= window,
    ensures
        window <= 8 * step_for(window),
        window <= 960 && window <= 8 * s && (s == 1 || s == 2 || s == 5 || s == 10 || s == 15 || s
            == 30 || s == 60 || s == 120) ==> step_for(window) <= s,
        window <= 960 ==> {
            let x = step_for(window);
            x == 1 || x == 2 || x == 5 || x == 10 || x == 15 || x == 30 || x == 60 || x == 120
        },
        window > 960 ==> step_for(window) == window,
{
}

/// Texts are joined in order, with nothing between them.
pub proof fn texts_join_in_order(parts: Seq<Seq<char>>, last: Seq<char>)
    ensures
        joined(Seq::empty()) == Seq::<char>::empty(),
        joined(parts.push(last)) == joined(parts) + last,
{
    assert(parts.push(last).drop_last() =~= parts);
}

/// A time of day is written as hours, minutes and seconds, two digits each,
/// with colons between them.
pub proof fn times_are_written_in_pairs(secs: int)
    ensures
        ({
            let text = hms(secs);
            let day = secs % 86_400;
            &&& text.len() == 8
            &&& text[2] == ':' && text[5] == ':'
            &&& 10 * (text[0] as int - 48) + (text[1] as int - 48) == day / 3600
            &&& 10 * (text[3] as int - 48) + (text[4] as int - 48) == (day / 60) % 60
            &&& 10 * (text[6] as int - 48) + (text[7] as int - 48) == day % 60
        }),
{
}

/// Sides and states are called by their names.
pub proof fn words_name_the_values(side: Side, state: OrderState)
    ensures
        side_word(side.number()) == match side {
            Side::Unspecified => "Unspecified"@,
            Side::Buy => "Buy"@,
            Side::Sell => "Sell"@,
        },
        state_word(state.number()) == match state {
            OrderState::Unspecified => "Unspecified"@,
            OrderState::Pending => "Pending"@,
            OrderState::Active => "Active"@,
            OrderState::Filled => "Filled"@,
            OrderState::Canceled => "Canceled"@,
            OrderState::Expired => "Expired"@,
            OrderState::Failed => "Failed"@,
            OrderState::Hibernate => "Hibernate"@,
        },
{
}

/// The time of day of an instant, as the clock writes it.
pub open spec fn time_of(t: Timestamp) -> Seq<char> {
    match clock_text(t.secs as int, (t.nanos as u32) as int) {
        Some(text) => text,
        None => "?"@,
    }
}

/// The name of a side.
pub open spec fn name_of(side: Side) -> Seq<char> {
    match side {
        Side::Unspecified => "Unspecified"@,
        Side::Buy => "Buy"@,
        Side::Sell => "Sell"@,
    }
}

/// A trade's line says its id and its order's, the side, the quantity, the
/// price, the delivery and the area, in that order.
pub proof fn trade_lines_say_it_all(t: TradeV)
    ensures
        trade_line(trade_wire(t)) == joined(
            seq![
                "trade#"@,
                digits(t.id as nat),
                " order#"@,
                digits(t.order_id as nat),
                " "@,
                name_of(t.side),
                " "@,
                decimal_text(t.quantity),
                " MW @ "@,
                decimal_text(t.price),
                " EUR (delivery "@,
                time_of(t.period.start),
                ", "@,
                t.area.code,
                ")"@,
            ],
        ),
{
}

/// A public trade's line says its id, the quantity, the price, the delivery,
/// and the area, or from which to which.
pub proof fn public_lines_say_it_all(t: PublicTradeV)
    ensures
        public_trade_line(public_trade_wire(t)) == joined(
            seq![
                "public#"@,
                digits(t.id as nat),
                " "@,
                decimal_text(t.quantity),
                " MW @ "@,
                decimal_text(t.price),
                " EUR (delivery "@,
                time_of(t.period.start),
                ", "@,
                if t.buy_area.code == t.sell_area.code {
                    t.buy_area.code
                } else {
                    joined(seq![t.buy_area.code, " -> "@, t.sell_area.code])
                },
                ")"@,
            ],
        ),
{
}

/// An order's line says its id, the side, the quantity, the price, what is
/// open, the delivery and the state.
pub proof fn order_lines_say_it_all(d: DetailV)
    ensures
        order_line(detail_wire(d)) == joined(
            seq![
                "#"@,
                digits(d.id as nat),
                " "@,
                name_of(d.order.side),
                " "@,
                decimal_text(d.order.quantity),
                " MW @ "@,
                decimal_text(d.order.price),
                " EUR (open "@,
                decimal_text(d.open_quantity),
                ", delivery "@,
                time_of(d.order.period.start),
                ") ["@,
                state_word(d.state.state.number()),
                "]"@,
            ],
        ),
{
}

/// The path of a command names the scenario and what is asked of it.
pub proof fn paths_name_the_command(name: Seq<char>, i: usize)
    ensures
        scenario_path(name, Command::Start) == "/api/scenarios/"@ + name + "/start"@,
        scenario_path(name, Command::Next) == "/api/scenarios/"@ + name + "/next"@,
        scenario_path(name, Command::Prev) == "/api/scenarios/"@ + name + "/prev"@,
        scenario_path(name, Command::Stop) == "/api/scenarios/"@ + name + "/stop"@,
        scenario_path(name, Command::Jump(i)) == "/api/scenarios/"@ + name + ("/jump/"@ + digits(
            i as nat,
        )),
{
}

/// The row of a resting order says its id, its side, where and for when it
/// stands, its price, and what of it is open.
pub proof fn book_rows_say_what_rests(e: BookEvent, since: Timestamp, now: Timestamp)
    ensures
        ({
            let r = book_text(book_record(e, since, now));
            &&& r.id == e.id
            &&& r.side == e.side.number()
            &&& r.area == e.key.area.code
            &&& r.period == instant_or_blank(e.key.period.start.secs, e.key.period.start.nanos)
            &&& r.price == decimal_text(e.price)
            &&& r.quantity == decimal_text(e.open)
        }),
{
}

/// By default prices go in cents and quantities in tenths, for one length of
/// delivery; the lengths are five minutes, a quarter, a half and a whole hour.
pub proof fn default_rules_go_in_cents_and_tenths(
    area: AreaV,
    currency: Currency,
    duration: DeliveryDuration,
)
    ensures
        ({
            let r = default_rules(area, currency, duration);
            &&& r.area == area
            &&& r.currency == currency
            &&& r.price_tick > 0 && 100 * r.price_tick == unit()
            &&& r.qty_step > 0 && 10 * r.qty_step == unit()
            &&& r.durations.len() == 1 && r.durations[0] == duration
        }),
        minutes_of(duration) == match duration {
            DeliveryDuration::FiveMin => 5,
            DeliveryDuration::QuarterHour => 15,
            DeliveryDuration::HalfHour => 30,
            DeliveryDuration::Hour => 60int,
        },
{
    reveal_with_fuel(crate::decimal::pow10, 30);
}

/// The rows of a table are those that were asked for: those of a delivery,
/// where one is named; the areas at home, and the neighbours where they are
/// shown; the locations of areas that are shown; and, on the chart, the recent
/// prints at home of the delivery that is charted.
pub proof fn tables_hold_the_rows_asked_for(
    periods: Seq<Seq<char>>,
    wanted: Option<Seq<char>>,
    neighbours: bool,
    f: FilterV,
    codes: Seq<Option<String>>,
    i: int,
)
    ensures
        rows_where(periods.len(), of_period(periods, wanted)).contains(i) <==> 0 <= i
            < periods.len() && (wanted is Some ==> periods[i] == wanted->0),
        rows_where(8, offered(neighbours)).contains(i) <==> (0 <= i < 4) || (4 <= i < 8
            && neighbours),
        rows_where(codes.len(), in_view(f, codes)).contains(i) <==> 0 <= i < codes.len()
            && codes[i] is Some && shown(f, codes[i]->0@),
{
    lemma_rows_where(periods.len(), of_period(periods, wanted));
    lemma_rows_where(8, offered(neighbours));
    lemma_rows_where(codes.len(), in_view(f, codes));
    let k = known_areas();
    assert(k.len() == 8);
    assert(k[0].group == AreaGroup::Home && k[1].group == AreaGroup::Home && k[2].group
        == AreaGroup::Home && k[3].group == AreaGroup::Home);
    assert(k[4].group == AreaGroup::Neighbour && k[5].group == AreaGroup::Neighbour && k[6].group
        == AreaGroup::Neighbour && k[7].group == AreaGroup::Neighbour);
}

/// The chart has the prints that touch an area at home, are no older than it
/// goes back, and are of its delivery.
pub proof fn charts_hold_the_prints_of_their_delivery(
    tape: Seq<TradeTextV>,
    times: Seq<Option<i64>>,
    starts: Seq<Option<i64>>,
    since: i64,
    start: i64,
    i: int,
)
    ensures
        rows_where(tape.len(), charted(tape, times, starts, since, start)).contains(i) <==> {
            &&& 0 <= i < tape.len()
            &&& at_home(tape[i].buy_area) || at_home(tape[i].sell_area)
            &&& times[i] is Some && times[i]->0 >= since
            &&& starts[i] is Some && starts[i]->0 == start
        },
{
    lemma_rows_where(tape.len(), charted(tape, times, starts, since, start));
}

/// A list is split at its commas, and nowhere else.
pub proof fn lists_are_split_at_commas(a: Seq<char>, b: Seq<char>)
    requires
        forall|i: int| 0 <= i < b.len() ==> #[trigger] b[i] != ',',
    ensures
        tokens(b) == seq![b],
        tokens(a + seq![','] + b) == tokens(a).push(b),
    decreases b.len(),
{
    let text = a + seq![','] + b;
    if b.len() == 0 {
        assert(b =~= Seq::<char>::empty());
        assert(text.drop_last() =~= a);
        assert(text.last() == ',');
    } else {
        let front = b.drop_last();
        assert forall|i: int| 0 <= i < front.len() implies #[trigger] front[i] != ',' by {
            assert(front[i] == b[i]);
        }
        lists_are_split_at_commas(a, front);
        assert(b[b.len() - 1] != ',');
        assert(front.push(b.last()) =~= b);
        assert(tokens(b) =~= seq![b]);
        assert(text.drop_last() =~= a + seq![','] + front);
        assert(text.last() == b.last());
        let before = tokens(a).push(front);
        assert(before.update(before.len() - 1, before.last().push(b.last())) =~= tokens(a).push(
            b,
        ));
    }
}

/// Texts go by the first character in which they differ, and one that the
/// other goes on from comes before it.
pub proof fn texts_go_by_their_first_difference(a: Seq<char>, b: Seq<char>, k: int)
    requires
        0 <= k <= a.len(),
        k <= b.len(),
        forall|i: int| 0 <= i < k ==> #[trigger] a[i] == b[i],
    ensures
        k < a.len() && k < b.len() && a[k] != b[k] ==> (text_at_most(a, b) <==> (a[k] as int) < (
        b[k] as int)),
        k == a.len() ==> text_at_most(a, b),
        k < a.len() && k == b.len() ==> !text_at_most(a, b),
    decreases k,
{
    if k > 0 {
        let x = a.drop_first();
        let y = b.drop_first();
        assert(a[0] == b[0]);
        assert forall|i: int| 0 <= i < k - 1 implies #[trigger] x[i] == y[i] by {
            assert(a[i + 1] == b[i + 1]);
        }
        texts_go_by_their_first_difference(x, y, k - 1);
    }
}

/// A book record's line says its id, the side, the quantity, the price, the
/// delivery and the area.
pub proof fn book_lines_say_it_all(e: BookEvent, since: Timestamp, now: Timestamp)
    ensures
        book_line(book_record(e, since, now)) == joined(
            seq![
                "book#"@,
                digits(e.id as nat),
                " "@,
                name_of(e.side),
                " "@,
                decimal_text(e.open),
                " MW @ "@,
                decimal_text(e.price),
                " EUR (delivery "@,
                time_of(e.key.period.start),
                ", "@,
                e.key.area.code,
                ")"@,
            ],
        ),
{
}

/// How far back is told in minutes short of an hour, in hours where they are
/// whole, and else in both.
pub proof fn times_back_are_told_in_hours_and_minutes(h: int, m: int)
    requires
        h >= 0,
        0 <= m < 60,
    ensures
        h == 0 && m == 0 ==> back_text(60 * h + m) == "now"@,
        h == 0 && m > 0 ==> back_text(60 * h + m) == joined(seq!["-"@, int_text(m), "m"@]),
        h > 0 && m == 0 ==> back_text(60 * h + m) == joined(seq!["-"@, int_text(h), "h"@]),
        h > 0 && m > 0 ==> back_text(60 * h + m) == joined(
            seq!["-"@, int_text(h), "h"@, int_text(m), "m"@],
        ),
{
    assert((60 * h + m) / 60 == h && (60 * h + m) % 60 == m);
}

/// The header names the version and counts gridpools, markets and couplings;
/// the tape's names the count and the last print.
pub proof fn headers_count_what_there_is(
    version: Seq<char>,
    gridpools: nat,
    markets: nat,
    couplings: nat,
    count: nat,
    t: TradeTextV,
)
    ensures
        info_text(version, gridpools, markets, couplings) == joined(
            seq![
                "v"@,
                version,
                " · "@,
                digits(gridpools),
                " gridpool"@,
                if gridpools == 1 {
                    ""@
                } else {
                    "s"@
                },
                " · "@,
                digits(markets),
                " markets · "@,
                digits(couplings),
                " couplings"@,
            ],
        ),
        trades_text(count, None) == "trades: "@ + digits(count),
        trades_text(count, Some(t)) == joined(
            seq![
                "trades: "@,
                digits(count),
                " (last #"@,
                digits(t.id as nat),
                " @ "@,
                t.price,
                ")"@,
            ],
        ),
{
}

/// A gridpool's row says its id, its name, its areas, and how many orders and
/// trades it has; a scenario's says where it stands.
pub proof fn rows_say_what_they_are_of(
    r: GridpoolResp,
    id: u64,
    p: PoolV,
    s: ScenarioJson,
    e: ScenarioV,
    wall: Option<usize>,
)
    requires
        shows_pool(r, id, p),
        shows_scenario(s, e, wall),
    ensures
        r.id == id,
        r.name@ == p.name,
        r.areas@.len() == p.areas.len(),
        forall|i: int| 0 <= i < p.areas.len() ==> (#[trigger] r.areas@[i])@ == p.areas[i].code,
        r.orders == p.orders.len(),
        r.trades == p.trades.len(),
        s.name@ == e.name,
        s.description@ == e.description,
        s.stages@.len() == e.stages.len(),
        forall|i: int| 0 <= i < e.stages.len() ==> (#[trigger] s.stages@[i])@ == e.stages[i].name,
        s.current_stage == e.runtime.current_stage,
        s.wallclock_stage == wall,
        s.manual_override == e.runtime.manual_override,
        s.started_at is Some <==> e.runtime.started_at is Some,
        s.stage_entered_at is Some <==> e.runtime.stage_entered_at is Some,
{
    assert(views(r.areas@).len() == area_codes(p.areas).len());
    assert(views(s.stages@).len() == stage_names(e.stages).len());
    assert forall|i: int| 0 <= i < p.areas.len() implies (#[trigger] r.areas@[i])@
        == p.areas[i].code by {
        assert(views(r.areas@)[i] == r.areas@[i]@);
        assert(area_codes(p.areas)[i] == p.areas[i].code);
    }
    assert forall|i: int| 0 <= i < e.stages.len() implies (#[trigger] s.stages@[i])@
        == e.stages[i].name by {
        assert(views(s.stages@)[i] == s.stages@[i]@);
        assert(stage_names(e.stages)[i] == e.stages[i].name);
    }
}

} // verus!
