//! What the panels of a screen show: which rows are left by a choice, which
//! choices have gone stale, and which delivery the chart is about.

use crate::areas::{all_areas, known_areas, AreaGroup};
use crate::order::view_option;
use crate::panel::{as_ints, has_text, shown, text_view, FilterState, FilterV, TradeTape};
use crate::scenarios::{commanded, Command, ScenarioRuntime};
use crate::table::views;
use crate::text::same_text;
use crate::time::Timestamp;
use crate::ui::TradeTextV;
use vstd::prelude::*;

verus! {

/// The numbers below `n` that are kept, in order.
pub open spec fn rows_where(n: nat, keep: spec_fn(int) -> bool) -> Seq<int>
    decreases n,
{
    if n == 0 {
        Seq::empty()
    } else {
        let before = rows_where((n - 1) as nat, keep);
        if keep(n - 1) {
            before.push(n - 1)
        } else {
            before
        }
    }
}

/// The rows are those that are kept, in order.
pub proof fn lemma_rows_where(n: nat, keep: spec_fn(int) -> bool)
    ensures
        forall|i: int| #[trigger]
            rows_where(n, keep).contains(i) <==> 0 <= i < n && keep(i),
        forall|a: int, b: int|
            0 <= a < b < rows_where(n, keep).len() ==> (#[trigger] rows_where(n, keep)[a]) < (
            #[trigger] rows_where(n, keep)[b]),
    decreases n,
{
    if n > 0 {
        let m = (n - 1) as nat;
        lemma_rows_where(m, keep);
        let before = rows_where(m, keep);
        let rows = rows_where(n, keep);
        assert forall|i: int| #[trigger] rows.contains(i) <==> 0 <= i < n && keep(i) by {
            if rows.contains(i) {
                let k = choose|k: int| 0 <= k < rows.len() && rows[k] == i;
                if k < before.len() {
                    assert(before[k] == i);
                    assert(before.contains(i));
                }
            }
            if 0 <= i < n && keep(i) {
                if i < m {
                    assert(before.contains(i));
                    let k = choose|k: int| 0 <= k < before.len() && before[k] == i;
                    assert(rows[k] == i);
                } else {
                    assert(rows[before.len() as int] == i);
                }
            }
        }
        assert forall|a: int, b: int| 0 <= a < b < rows.len() implies (#[trigger] rows[a]) < (
        #[trigger] rows[b]) by {
            assert(rows[a] == before[a]);
            assert(before.contains(before[a]));
        }
    }
}

// ---------------------------------------------------------------------------
// Gridpools
// ---------------------------------------------------------------------------

/// The delivery that stays chosen: none where no row is left of it.
pub fn keep_period(periods: &Vec<String>, wanted: Option<String>) -> (r: Option<String>)
    ensures
        view_option(r) == match wanted {
            Some(p) => if views(periods@).contains(p@) {
                Some(p@)
            } else {
                None
            },
            None => None,
        },
{
    match wanted {
        Some(p) => if has_text(periods, p.as_str()) {
            Some(p)
        } else {
            None
        },
        None => None,
    }
}

/// The order that stays selected: none where it has left the list.
pub fn keep_order(ids: &Vec<u64>, chosen: Option<u64>) -> (r: Option<u64>)
    ensures
        r == match chosen {
            Some(id) => if ids@.contains(id) {
                Some(id)
            } else {
                None
            },
            None => None,
        },
{
    match chosen {
        Some(id) => {
            let mut i: usize = 0;
            while i < ids.len()
                invariant
                    i <= ids@.len(),
                    chosen == Some(id),
                    forall|j: int| 0 <= j < i ==> ids@[j] != id,
                decreases ids@.len() - i,
            {
                if ids[i] == id {
                    return Some(id);
                }
                i += 1;
            }
            None
        },
        None => None,
    }
}

/// The row is of the delivery that is asked for, if one is.
pub open spec fn of_period(periods: Seq<Seq<char>>, wanted: Option<Seq<char>>) -> spec_fn(
    int,
) -> bool {
    |i: int| wanted is None || periods[i] == wanted->0
}

/// The rows of the delivery that is asked for; all of them where none is.
pub fn rows_of(periods: &Vec<String>, wanted: Option<&str>) -> (r: Vec<usize>)
    ensures
        as_ints(r@) == rows_where(periods@.len(), of_period(views(periods@), text_view(wanted))),
{
    let ghost keep = of_period(views(periods@), text_view(wanted));
    let mut out: Vec<usize> = Vec::new();
    let mut i: usize = 0;
    assert(as_ints(out@) =~= rows_where(0, keep));
    while i < periods.len()
        invariant
            i <= periods@.len(),
            keep == of_period(views(periods@), text_view(wanted)),
            as_ints(out@) == rows_where(i as nat, keep),
        decreases periods@.len() - i,
    {
        let kept = match wanted {
            Some(p) => same_text(periods[i].as_str(), p),
            None => true,
        };
        assert(views(periods@)[i as int] == periods@[i as int]@);
        assert(kept == keep(i as int));
        let ghost before = out@;
        if kept {
            out.push(i);
            assert(as_ints(out@) =~= as_ints(before).push(i as int));
        }
        i += 1;
    }
    out
}

/// What the pane of orders says when it shows none.
pub fn orders_note(pool_chosen: bool, filtered: bool) -> (r: &'static str)
    ensures
        r@ == if !pool_chosen {
            "select a gridpool"@
        } else if filtered {
            "no orders for this delivery"@
        } else {
            "no orders for this gridpool"@
        },
{
    if !pool_chosen {
        "select a gridpool"
    } else if filtered {
        "no orders for this delivery"
    } else {
        "no orders for this gridpool"
    }
}

/// What the pane of trades says when it shows none.
pub fn trades_note(pool_chosen: bool, order_chosen: bool) -> (r: &'static str)
    ensures
        r@ == if !pool_chosen {
            "select a gridpool"@
        } else if !order_chosen {
            "select an order"@
        } else {
            "no trades yet for this order"@
        },
{
    if !pool_chosen {
        "select a gridpool"
    } else if !order_chosen {
        "select an order"
    } else {
        "no trades yet for this order"
    }
}

// ---------------------------------------------------------------------------
// Chips and weather
// ---------------------------------------------------------------------------

/// The area has a chip: at home, and abroad where the neighbours are offered.
pub open spec fn offered(neighbours: bool) -> spec_fn(int) -> bool {
    |i: int| known_areas()[i].group == AreaGroup::Home || neighbours
}

/// The areas that have a chip, by their place among all areas.
pub fn chips(filter: &FilterState) -> (r: Vec<usize>)
    ensures
        as_ints(r@) == rows_where(known_areas().len(), offered(filter@.show_neighbours)),
{
    let areas = all_areas();
    let ghost keep = offered(filter@.show_neighbours);
    let mut out: Vec<usize> = Vec::new();
    let mut i: usize = 0;
    assert(as_ints(out@) =~= rows_where(0, keep));
    while i < areas.len()
        invariant
            i <= areas@.len(),
            views(areas@) == known_areas(),
            keep == offered(filter@.show_neighbours),
            as_ints(out@) == rows_where(i as nat, keep),
        decreases areas@.len() - i,
    {
        assert(known_areas()[i as int] == areas@[i as int]@);
        let kept = areas[i].group == AreaGroup::Home || filter.neighbours_shown();
        assert(kept == keep(i as int));
        let ghost before = out@;
        if kept {
            out.push(i);
            assert(as_ints(out@) =~= as_ints(before).push(i as int));
        }
        i += 1;
    }
    out
}

/// What the chip of the neighbours says.
pub fn neighbours_label(shown: bool) -> (r: &'static str)
    ensures
        r@ == if shown {
            "− neighbours"@
        } else {
            "+ neighbours"@
        },
{
    if shown {
        "− neighbours"
    } else {
        "+ neighbours"
    }
}

/// The location belongs to an area that is shown.
pub open spec fn in_view(filter: FilterV, codes: Seq<Option<String>>) -> spec_fn(int) -> bool {
    |i: int| codes[i] is Some && shown(filter, codes[i]->0@)
}

/// The weather locations that are shown; one without an area is not.
pub fn weather_rows(filter: &FilterState, codes: &Vec<Option<String>>) -> (r: Vec<usize>)
    requires
        filter.wf(),
    ensures
        as_ints(r@) == rows_where(codes@.len(), in_view(filter@, codes@)),
{
    let ghost keep = in_view(filter@, codes@);
    let mut out: Vec<usize> = Vec::new();
    let mut i: usize = 0;
    assert(as_ints(out@) =~= rows_where(0, keep));
    while i < codes.len()
        invariant
            i <= codes@.len(),
            filter.wf(),
            keep == in_view(filter@, codes@),
            as_ints(out@) == rows_where(i as nat, keep),
        decreases codes@.len() - i,
    {
        let kept = match &codes[i] {
            Some(c) => filter.is_active(c.as_str()),
            None => false,
        };
        assert(kept == keep(i as int));
        let ghost before = out@;
        if kept {
            out.push(i);
            assert(as_ints(out@) =~= as_ints(before).push(i as int));
        }
        i += 1;
    }
    out
}

// ---------------------------------------------------------------------------
// Scenarios
// ---------------------------------------------------------------------------

/// Which of the scenarios is running: the first of them.
pub fn active_scenario(stages: &Vec<Option<usize>>) -> (r: Option<usize>)
    ensures
        match r {
            Some(i) => {
                &&& i < stages@.len()
                &&& stages@[i as int] is Some
                &&& forall|j: int| 0 <= j < i ==> (#[trigger] stages@[j]) is None
            },
            None => forall|j: int| 0 <= j < stages@.len() ==> (#[trigger] stages@[j]) is None,
        },
{
    let mut i: usize = 0;
    while i < stages.len()
        invariant
            i <= stages@.len(),
            forall|j: int| 0 <= j < i ==> (#[trigger] stages@[j]) is None,
        decreases stages@.len() - i,
    {
        if stages[i].is_some() {
            return Some(i);
        }
        i += 1;
    }
    None
}

/// Whether there is a stage before the current one, and one behind it.
pub fn can_step(current: usize, stages: usize) -> (r: (bool, bool))
    ensures
        r.0 == (current > 0),
        r.1 == (current + 1 < stages),
{
    (current > 0, current < stages && current < stages - 1)
}

/// The buttons offer just what the scenario would do: a step back or forth
/// is on offer where the command would be carried out.
pub proof fn buttons_do_not_mislead(
    rt: ScenarioRuntime,
    current: usize,
    stages: nat,
    wall: Option<usize>,
    now: Timestamp,
)
    requires
        rt.current_stage == Some(current),
        current < stages <= usize::MAX,
    ensures
        commanded(rt, stages, wall, Command::Prev, now) is Some <==> current > 0,
        commanded(rt, stages, wall, Command::Next, now) is Some <==> current + 1 < stages,
{
}

// ---------------------------------------------------------------------------
// The chart
// ---------------------------------------------------------------------------

/// The code is that of an area of the home market.
pub open spec fn at_home(code: Seq<char>) -> bool {
    exists|i: int|
        0 <= i < known_areas().len() && (#[trigger] known_areas()[i]).group == AreaGroup::Home
            && known_areas()[i].code == code
}

/// Whether the code is that of an area of the home market.
pub fn is_home(code: &str) -> (r: bool)
    ensures
        r == at_home(code@),
{
    let areas = all_areas();
    let mut i: usize = 0;
    while i < areas.len()
        invariant
            i <= areas@.len(),
            views(areas@) == known_areas(),
            forall|j: int|
                0 <= j < i ==> !((#[trigger] known_areas()[j]).group == AreaGroup::Home
                    && known_areas()[j].code == code@),
        decreases areas@.len() - i,
    {
        assert(known_areas()[i as int] == areas@[i as int]@);
        if areas[i].group == AreaGroup::Home && same_text(areas[i].code, code) {
            return true;
        }
        i += 1;
    }
    false
}

/// The print has a side at home and was made at a known time, not before
/// `since`. Times are in milliseconds.
pub open spec fn recent(tape: Seq<TradeTextV>, times: Seq<Option<i64>>, since: i64, i: int) -> bool {
    &&& at_home(tape[i].buy_area) || at_home(tape[i].sell_area)
    &&& times[i] is Some
    &&& since <= times[i]->0
}

fn is_recent(tape: &TradeTape, times: &Vec<Option<i64>>, since: i64, i: usize) -> (r: bool)
    requires
        i < tape@.len(),
        times@.len() == tape@.len(),
    ensures
        r == recent(tape@, times@, since, i as int),
{
    let trades = tape.trades();
    assert(tape@[i as int] == trades@[i as int]@);
    let home = is_home(trades[i].buy_area.as_str()) || is_home(trades[i].sell_area.as_str());
    let on_time = match times[i] {
        Some(t) => since <= t,
        None => false,
    };
    home && on_time
}

/// The latest print that is recent, the first of them among equals: the chart
/// is about its delivery unless another was chosen.
pub fn freshest(tape: &TradeTape, times: &Vec<Option<i64>>, since: i64) -> (r: Option<usize>)
    requires
        times@.len() == tape@.len(),
    ensures
        match r {
            Some(k) => {
                &&& k < tape@.len()
                &&& recent(tape@, times@, since, k as int)
                &&& forall|i: int|
                    0 <= i < tape@.len() && #[trigger] recent(tape@, times@, since, i)
                        ==> times@[i]->0 <= times@[k as int]->0
                &&& forall|i: int|
                    0 <= i < k && #[trigger] recent(tape@, times@, since, i) ==> times@[i]->0
                        < times@[k as int]->0
            },
            None => forall|i: int|
                0 <= i < tape@.len() ==> !#[trigger] recent(tape@, times@, since, i),
        },
{
    let n = tape.trades().len();
    let mut best: Option<usize> = None;
    let mut i: usize = 0;
    while i < n
        invariant
            i <= n,
            n == tape@.len(),
            times@.len() == tape@.len(),
            match best {
                Some(k) => {
                    &&& k < i
                    &&& recent(tape@, times@, since, k as int)
                    &&& forall|j: int|
                        0 <= j < i && #[trigger] recent(tape@, times@, since, j)
                            ==> times@[j]->0 <= times@[k as int]->0
                    &&& forall|j: int|
                        0 <= j < k && #[trigger] recent(tape@, times@, since, j) ==> times@[j]->0
                            < times@[k as int]->0
                },
                None => forall|j: int|
                    0 <= j < i ==> !#[trigger] recent(tape@, times@, since, j),
            },
        decreases n - i,
    {
        if is_recent(tape, times, since, i) {
            let later = match best {
                Some(k) => match (times[k], times[i]) {
                    (Some(a), Some(b)) => a < b,
                    _ => false,
                },
                None => true,
            };
            if later {
                best = Some(i);
            }
        }
        i += 1;
    }
    best
}

/// The print is recent and of the delivery that starts at `start`.
pub open spec fn charted(
    tape: Seq<TradeTextV>,
    times: Seq<Option<i64>>,
    starts: Seq<Option<i64>>,
    since: i64,
    start: i64,
) -> spec_fn(int) -> bool {
    |i: int| recent(tape, times, since, i) && starts[i] == Some(start)
}

/// The prints that the chart draws: recent ones of one delivery. `times` are
/// those of the prints, `starts` those of their deliveries.
pub fn chart_rows(
    tape: &TradeTape,
    times: &Vec<Option<i64>>,
    starts: &Vec<Option<i64>>,
    since: i64,
    start: i64,
) -> (r: Vec<usize>)
    requires
        times@.len() == tape@.len(),
        starts@.len() == tape@.len(),
    ensures
        as_ints(r@) == rows_where(tape@.len(), charted(tape@, times@, starts@, since, start)),
{
    let ghost keep = charted(tape@, times@, starts@, since, start);
    let n = tape.trades().len();
    let mut out: Vec<usize> = Vec::new();
    let mut i: usize = 0;
    assert(as_ints(out@) =~= rows_where(0, keep));
    while i < n
        invariant
            i <= n,
            n == tape@.len(),
            times@.len() == tape@.len(),
            starts@.len() == tape@.len(),
            keep == charted(tape@, times@, starts@, since, start),
            as_ints(out@) == rows_where(i as nat, keep),
        decreases n - i,
    {
        let of_delivery = match starts[i] {
            Some(s) => s == start,
            None => false,
        };
        let kept = of_delivery && is_recent(tape, times, since, i);
        assert(kept == keep(i as int));
        let ghost before = out@;
        if kept {
            out.push(i);
            assert(as_ints(out@) =~= as_ints(before).push(i as int));
        }
        i += 1;
    }
    out
}

/// The milliseconds of a quarter hour.
pub const QUARTER_MS: i64 = 900_000;

/// The next quarter boundary, in milliseconds: the one the chart is about
/// when there is no print. An instant on the boundary is its own.
pub fn boundary_ms(now: i64) -> (r: i64)
    requires
        0 <= now <= i64::MAX - QUARTER_MS,
    ensures
        r % QUARTER_MS == 0,
        now <= r < now + QUARTER_MS,
{
    let past = now % QUARTER_MS;
    if past == 0 {
        now
    } else {
        now - past + QUARTER_MS
    }
}

/// The chart is never empty where there is something to show: the delivery of
/// the freshest print has at least that print.
pub proof fn the_charted_delivery_has_a_print(
    tape: Seq<TradeTextV>,
    times: Seq<Option<i64>>,
    starts: Seq<Option<i64>>,
    since: i64,
    k: int,
)
    requires
        0 <= k < tape.len(),
        recent(tape, times, since, k),
        starts[k] is Some,
    ensures
        rows_where(tape.len(), charted(tape, times, starts, since, starts[k]->0)).contains(k),
{
    lemma_rows_where(tape.len(), charted(tape, times, starts, since, starts[k]->0));
}

/// A choice that was kept shows something: where a delivery stays chosen,
/// some row is of it.
pub proof fn kept_choices_show_something(periods: Seq<Seq<char>>, p: Seq<char>)
    requires
        periods.contains(p),
    ensures
        rows_where(periods.len(), of_period(periods, Some(p))).len() > 0,
{
    let i = choose|i: int| 0 <= i < periods.len() && periods[i] == p;
    lemma_rows_where(periods.len(), of_period(periods, Some(p)));
    assert(rows_where(periods.len(), of_period(periods, Some(p))).contains(i));
}

} // verus!
