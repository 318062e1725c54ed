//! What the clock decides: windows, stages, forecasts and curves.

use crate::clock::second_of_day;
use crate::curve::anchored_at;
use crate::fleet::{
    boundary_after, gated, kept, lemma_kept_contains, lemma_missing_contains, lemma_sum_contains,
    lemma_wanted_contains, missing, offset_of, quarter, rolled, wanted, Slot,
};
use crate::scenarios::{
    advanced, commanded, picked, stage_at, wall_clock, Command, ScenarioRuntime, ScenarioV, StageV,
    WallClock,
};
use crate::settings::tick_for;
use crate::table::{holds, value_at};
use crate::time::Timestamp;
use crate::weather::{anchored, made_between, next_hour, registry_wf, remembered, RegistryV};
use vstd::prelude::*;

verus! {

/// The next quarter boundary is the first multiple of a quarter hour past the
/// second that the instant lies in.
pub proof fn the_next_boundary_is_the_first_ahead(now: Timestamp)
    requires
        now.secs <= i64::MAX - 900,
    ensures
        ({
            let b = boundary_after(now);
            &&& b.nanos == 0
            &&& (b.secs as int) % 900 == 0
            &&& now.secs < b.secs <= now.secs + 900
        }),
{
}

/// The slot is one of a window of `n` quarter hours from `first` on.
pub open spec fn in_window(s: Slot, first: int, n: nat, profiles: nat) -> bool {
    &&& s.profile < profiles
    &&& s.start.nanos == 0
    &&& (s.start.secs as int) % 900 == 0
    &&& first <= s.start.secs < first + 900 * n
}

proof fn lemma_wanted_window(base: Timestamp, n: nat, profiles: nat, s: Slot)
    requires
        profiles <= usize::MAX,
        base.nanos == 0,
        (base.secs as int) % 900 == 0,
        base.secs + 900 * n <= i64::MAX,
    ensures
        wanted(base, n, profiles).contains(s) <==> in_window(s, base.secs as int, n, profiles),
{
    lemma_wanted_contains(base, n, profiles, s);
    if in_window(s, base.secs as int, n, profiles) {
        let i = (s.start.secs - base.secs) / 900;
        assert(s.start.secs - base.secs == 900 * i);
        assert(s.start == quarter(base, i));
    }
    if wanted(base, n, profiles).contains(s) {
        let i = choose|i: int| 0 <= i < n && s.start == #[trigger] quarter(base, i);
        assert(s.start.secs == base.secs + 900 * i);
    }
}

/// Rolling a window on retires exactly those who run for a delivery that
/// starts before the next quarter boundary, and leaves running exactly the
/// others and the slots of the coming quarter hours, from that boundary on.
/// Those it starts are the slots nobody ran in.
pub proof fn windows_cover_the_coming_quarters(
    active: Seq<Slot>,
    now: Timestamp,
    n: nat,
    profiles: nat,
    s: Slot,
)
    requires
        profiles <= usize::MAX,
        now.secs + 900 * (n + 1) <= i64::MAX,
    ensures
        ({
            let base = boundary_after(now);
            let first = base.secs as int;
            let past = s.start.secs < first || (s.start.secs == first && s.start.nanos < 0);
            &&& now.secs < first <= now.secs + 900
            &&& first % 900 == 0
            &&& gated(active, base).contains(s) <==> active.contains(s) && past
            &&& rolled(active, base, n, profiles).contains(s) <==> (active.contains(s) && !past)
                || in_window(s, first, n, profiles)
            &&& missing(wanted(base, n, profiles), kept(active, base)).contains(s) <==> in_window(
                s,
                first,
                n,
                profiles,
            ) && !active.contains(s)
        }),
{
    let base = boundary_after(now);
    let stay = kept(active, base);
    let fresh = missing(wanted(base, n, profiles), stay);
    the_next_boundary_is_the_first_ahead(now);
    lemma_kept_contains(active, base, s);
    lemma_missing_contains(wanted(base, n, profiles), stay, s);
    lemma_wanted_window(base, n, profiles, s);
    lemma_sum_contains(stay, fresh, s);
}

/// A contract's offset counts the whole quarter hours between the next
/// boundary and its start.
pub proof fn offsets_count_quarters(start: Timestamp, now: Timestamp)
    requires
        now.secs <= i64::MAX - 900,
        0 <= start.nanos < 1_000_000_000,
    ensures
        ({
            let first = boundary_after(now).secs;
            &&& start.secs < first ==> offset_of(start, now) == 0
            &&& start.secs >= first ==> offset_of(start, now) * 900 <= start.secs - first < (
            offset_of(start, now) + 1) * 900
        }),
{
    the_next_boundary_is_the_first_ahead(now);
}

/// Starting a scenario puts it into the stage of the wall clock, or into its
/// first; stepping and jumping put it where they say, as long as there is such
/// a stage, and note whether that is the stage of the wall clock. A scenario
/// that runs keeps the time it was started at; every command notes when the
/// stage was entered.
pub proof fn commands_do_what_they_say(
    rt: ScenarioRuntime,
    stages: nat,
    wall: Option<usize>,
    to: usize,
    now: Timestamp,
)
    requires
        stages <= usize::MAX,
    ensures
        ({
            let start = commanded(rt, stages, wall, Command::Start, now);
            let next = commanded(rt, stages, wall, Command::Next, now);
            let prev = commanded(rt, stages, wall, Command::Prev, now);
            let jump = commanded(rt, stages, wall, Command::Jump(to), now);
            let stop = commanded(rt, stages, wall, Command::Stop, now);
            &&& start is Some <==> stages > 0
            &&& start matches Some(x) ==> {
                &&& x.current_stage == Some(
                    if wall is Some {
                        wall->0
                    } else {
                        0
                    },
                )
                &&& x.started_at == Some(now)
                &&& x.stage_entered_at == Some(now)
                &&& !x.manual_override
            }
            &&& next is Some <==> rt.current_stage is Some && rt.current_stage->0 + 1 < stages
            &&& next matches Some(x) ==> x.current_stage matches Some(i) && i
                == rt.current_stage->0 + 1
            &&& prev is Some <==> rt.current_stage is Some && 0 < rt.current_stage->0 <= stages
            &&& prev matches Some(x) ==> x.current_stage matches Some(i) && i
                == rt.current_stage->0 - 1
            &&& jump is Some <==> to < stages
            &&& jump matches Some(x) ==> x.current_stage == Some(to)
            &&& forall|x: ScenarioRuntime|
                #![trigger x.manual_override]
                next == Some(x) || prev == Some(x) || jump == Some(x) ==> {
                    &&& x.manual_override <==> x.current_stage != wall
                    &&& x.stage_entered_at == Some(now)
                    &&& rt.started_at is Some ==> x.started_at == rt.started_at
                    &&& rt.started_at is None ==> x.started_at == Some(now)
                }
            &&& stop matches Some(x) && x.current_stage is None && x.started_at is None
                && x.stage_entered_at is None && !x.manual_override
        }),
{
}

proof fn lemma_stage_first(stages: Seq<StageV>, second: u32, i: int)
    requires
        0 <= i <= stages.len() <= usize::MAX,
    ensures
        match stage_at(stages, second, i) {
            Some(k) => i <= k < stages.len() && stages[k as int].from_sec <= second
                < stages[k as int].to_sec && forall|j: int|
                i <= j < k ==> !((#[trigger] stages[j]).from_sec <= second < stages[j].to_sec),
            None => forall|j: int|
                i <= j < stages.len() ==> !((#[trigger] stages[j]).from_sec <= second
                    < stages[j].to_sec),
        },
    decreases stages.len() - i,
{
    if i < stages.len() {
        lemma_stage_first(stages, second, i + 1);
    }
}

/// The wall clock is in the first stage whose seconds of the day it lies
/// between, the first of them included and the last not; it entered that stage
/// on the same day, at the stage's first second.
pub proof fn the_wall_clock_is_in_its_first_stage(
    stages: Seq<StageV>,
    second: u32,
    now: Timestamp,
)
    requires
        stages.len() <= usize::MAX,
        -4_000_000_000_000_000_000 <= now.secs <= 4_000_000_000_000_000_000,
    ensures
        match wall_clock(stages, second, now).stage {
            Some(k) => {
                &&& k < stages.len()
                &&& stages[k as int].from_sec <= second < stages[k as int].to_sec
                &&& forall|j: int|
                    0 <= j < k ==> second < (#[trigger] stages[j]).from_sec || stages[j].to_sec
                        <= second
                &&& now.secs - wall_clock(stages, second, now).entered_at.secs == second
                    - stages[k as int].from_sec
                &&& wall_clock(stages, second, now).entered_at.nanos == 0
            },
            None => forall|j: int|
                0 <= j < stages.len() ==> second < (#[trigger] stages[j]).from_sec
                    || stages[j].to_sec <= second,
        },
{
    lemma_stage_first(stages, second, 0);
}

/// While it runs and nobody has stepped away from it, a scenario follows the
/// wall clock: it goes to the stage the clock shows, entered when the clock
/// entered it, and keeps the time it was started at. Otherwise, and where it
/// is there already, nothing changes.
pub proof fn scenarios_follow_the_wall_clock(rt: ScenarioRuntime, wall: WallClock)
    ensures
        ({
            let after = advanced(rt, wall);
            let follows = rt.current_stage is Some && !rt.manual_override && wall.stage is Some;
            &&& follows ==> after.current_stage == wall.stage
            &&& follows && rt.current_stage != wall.stage ==> after.stage_entered_at == Some(
                wall.entered_at,
            )
            &&& follows && rt.current_stage == wall.stage ==> after == rt
            &&& !follows ==> after == rt
            &&& after.started_at == rt.started_at
            &&& after.manual_override == rt.manual_override
        }),
{
}

/// The scenario runs, in a stage that it has.
pub open spec fn running(e: ScenarioV) -> bool {
    e.runtime.current_stage matches Some(k) && k < e.stages.len()
}

proof fn lemma_picked(entries: Seq<ScenarioV>, second: u32, now: Timestamp, i: int)
    requires
        0 <= i <= entries.len(),
    ensures
        ({
            let (after, found) = picked(entries, second, now, i);
            &&& after.len() == entries.len()
            &&& match found {
                Some((k, stage)) => {
                    &&& i <= k < entries.len()
                    &&& running(after[k])
                    &&& after[k].runtime.current_stage == Some(stage)
                    &&& forall|j: int| i <= j < k ==> !running(#[trigger] after[j])
                    &&& forall|j: int|
                        i <= j <= k ==> (#[trigger] after[j]) == (ScenarioV {
                            runtime: advanced(
                                entries[j].runtime,
                                wall_clock(entries[j].stages, second, now),
                            ),
                            ..entries[j]
                        })
                    &&& forall|j: int|
                        (0 <= j < i || k < j < entries.len()) ==> (#[trigger] after[j])
                            == entries[j]
                },
                None => {
                    &&& forall|j: int| i <= j < entries.len() ==> !running(#[trigger] after[j])
                    &&& forall|j: int|
                        i <= j < entries.len() ==> (#[trigger] after[j]) == (ScenarioV {
                            runtime: advanced(
                                entries[j].runtime,
                                wall_clock(entries[j].stages, second, now),
                            ),
                            ..entries[j]
                        })
                    &&& forall|j: int| 0 <= j < i ==> (#[trigger] after[j]) == entries[j]
                },
            }
        }),
    decreases entries.len() - i,
{
    if i < entries.len() {
        let e = ScenarioV {
            runtime: advanced(entries[i].runtime, wall_clock(entries[i].stages, second, now)),
            ..entries[i]
        };
        let next = entries.update(i, e);
        if !running(e) {
            lemma_picked(next, second, now, i + 1);
            let (after, found) = picked(next, second, now, i + 1);
            assert(after[i] == next[i]);
            assert(picked(entries, second, now, i) == (after, found));
        }
    }
}

/// The stage in force is that of the first scenario that runs, once the wall
/// clock has moved it and those before it on; those after it are left alone.
pub proof fn the_first_running_scenario_is_in_force(
    entries: Seq<ScenarioV>,
    second: u32,
    now: Timestamp,
)
    ensures
        ({
            let (after, found) = picked(entries, second, now, 0);
            &&& after.len() == entries.len()
            &&& found is None <==> forall|j: int|
                0 <= j < after.len() ==> !running(#[trigger] after[j])
            &&& found matches Some((k, stage)) ==> {
                &&& 0 <= k < after.len()
                &&& running(after[k]) && after[k].runtime.current_stage == Some(stage)
                &&& forall|j: int| 0 <= j < k ==> !running(#[trigger] after[j])
                &&& forall|j: int| k < j < after.len() ==> (#[trigger] after[j]) == entries[j]
            }
            &&& forall|j: int|
                0 <= j < after.len() && (found matches Some(x) ==> j <= x.0) ==> (
                #[trigger] after[j]).runtime == advanced(
                    entries[j].runtime,
                    wall_clock(entries[j].stages, second, now),
                )
            &&& forall|j: int|
                0 <= j < after.len() ==> (#[trigger] after[j]).name == entries[j].name
                    && after[j].stages == entries[j].stages && after[j].description
                    == entries[j].description
        }),
{
    lemma_picked(entries, second, now, 0);
}

/// Forecasts begin with the first whole hour ahead.
pub proof fn forecasts_begin_with_the_next_hour(now: int)
    ensures
        now < next_hour(now) <= now + 3600,
        next_hour(now) % 3600 == 0,
{
}

/// The latest hundred forecasts are remembered, in the order they were made.
pub proof fn the_latest_forecasts_are_remembered<F>(past: Seq<F>, forecast: F)
    requires
        past.len() <= 100,
    ensures
        remembered(past, forecast).len() <= 100,
        remembered(past, forecast).last() == forecast,
        past.len() < 100 ==> remembered(past, forecast).drop_last() == past,
        past.len() == 100 ==> remembered(past, forecast).drop_last() == past.drop_first(),
{
    assert(past.push(forecast).drop_last() =~= past);
    assert(past.drop_first().push(forecast).drop_last() =~= past.drop_first());
}

/// The forecasts made between two instants are all those made no earlier than
/// the one and no later than the other, in the order they were made.
pub proof fn forecasts_are_found_by_when_they_were_made<F>(
    past: Seq<(i64, F)>,
    start: i64,
    end: i64,
)
    ensures
        forall|i: int| #[trigger]
            made_between(past, start, end).contains(i) <==> 0 <= i < past.len() && start
                <= past[i].0 && past[i].0 <= end,
        forall|a: int, b: int|
            0 <= a < b < made_between(past, start, end).len() ==> (#[trigger] made_between(
                past,
                start,
                end,
            )[a]) < (#[trigger] made_between(past, start, end)[b]),
    decreases past.len(),
{
    if past.len() > 0 {
        let some = past.drop_last();
        let n = past.len() - 1;
        let before = made_between(some, start, end);
        let all = made_between(past, start, end);
        forecasts_are_found_by_when_they_were_made(some, start, end);
        assert forall|i: int| #[trigger] all.contains(i) <==> 0 <= i < past.len() && start
            <= past[i].0 && past[i].0 <= end by {
            if all.contains(i) {
                let k = choose|k: int| 0 <= k < all.len() && all[k] == i;
                if k < before.len() {
                    assert(before[k] == i);
                    assert(before.contains(i));
                }
            }
            if 0 <= i < past.len() && start <= past[i].0 && past[i].0 <= end {
                if i < n {
                    assert(before.contains(i));
                    let k = choose|k: int| 0 <= k < before.len() && before[k] == i;
                    assert(all[k] == i);
                } else {
                    assert(all[before.len() as int] == i);
                }
            }
        }
        assert forall|a: int, b: int| 0 <= a < b < all.len() implies (#[trigger] all[a]) < (
        #[trigger] all[b]) by {
            if b < before.len() {
                assert(before[a] < before[b]);
            } else {
                assert(before.contains(before[a]));
            }
        }
    }
}

/// Setting the anchor of an hour sets that one and no other, but that the
/// first and the last hour of the day are one.
pub proof fn anchors_meet_at_midnight<P>(anchors: Seq<P>, h: nat, p: P, k: int)
    requires
        anchors.len() == 25,
        anchors[0] == anchors[24],
        0 <= k <= 24,
    ensures
        ({
            let after = anchored_at(anchors, h, p);
            &&& after.len() == 25
            &&& after[0] == after[24]
            &&& h <= 24 ==> after[h as int] == p
            &&& k != h && !(h == 0 && k == 24) && !(h == 24 && k == 0) ==> after[k] == anchors[k]
        }),
{
}

/// A tick lasts as long as was asked for, and a millisecond at least.
pub proof fn ticks_last_a_millisecond_at_least(ms: int)
    ensures
        tick_for(ms) >= 1,
        ms >= 1 ==> tick_for(ms) == ms,
        ms < 1 ==> tick_for(ms) == 1,
{
}

/// The second of the day tells the hour, the minute and the second.
pub proof fn seconds_of_the_day_tell_the_time(h: int, m: int, s: int)
    requires
        0 <= h < 24,
        0 <= m < 60,
        0 <= s < 60,
    ensures
        ({
            let x = second_of_day((h, m, s));
            &&& 0 <= x < 86_400
            &&& x / 3600 == h
            &&& (x / 60) % 60 == m
            &&& x % 60 == s
        }),
{
    let x = second_of_day((h, m, s));
    assert(x / 60 == h * 60 + m);
}

/// A location that is put in is found again under its key, and under every
/// area linked to it; an area that is linked to none has the first location.
pub proof fn areas_have_their_location<L>(r: RegistryV<L>, area: Seq<char>)
    requires
        registry_wf(r),
    ensures
        holds(r.areas, area) && value_at(r.areas, area) < r.locations.len() ==> anchored(r, area)
            == r.locations[value_at(r.areas, area) as int],
        !holds(r.areas, area) ==> anchored(r, area) == r.locations[0],
{
}

} // verus!
