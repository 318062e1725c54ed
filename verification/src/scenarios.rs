//! Scenarios: named, staged perturbations of a day. The registry holds what
//! is defined and where each one stands; an operator starts, steps and stops
//! them, and a running one follows the wall clock unless the operator has
//! stepped away from it.
//!
//! What a stage does to prices and weather is the driver's to say.

use crate::table::views;
use crate::text::{ascending, lemma_text_total, lemma_text_transitive, text_at_most, text_not_after};
use crate::time::Timestamp;
use vstd::prelude::*;

verus! {

/// Where a scenario stands.
#[derive(Clone, Copy, Debug, PartialEq, Eq, Structural)]
pub struct ScenarioRuntime {
    /// `None` = not running; `Some(i)` = stage `i` is current.
    pub current_stage: Option<usize>,
    pub started_at: Option<Timestamp>,
    pub stage_entered_at: Option<Timestamp>,
    /// True when the operator stepped away from the stage of the wall clock.
    pub manual_override: bool,
}

/// A scenario that is not running.
pub open spec fn idle() -> ScenarioRuntime {
    ScenarioRuntime {
        current_stage: None,
        started_at: None,
        stage_entered_at: None,
        manual_override: false,
    }
}

impl Default for ScenarioRuntime {
    fn default() -> (r: Self)
        ensures
            r == idle(),
    {
        ScenarioRuntime {
            current_stage: None,
            started_at: None,
            stage_entered_at: None,
            manual_override: false,
        }
    }
}

/// What an operator asks of a scenario.
#[derive(Clone, Copy, Debug, PartialEq, Eq, Structural)]
pub enum Command {
    /// Run it from the stage of the wall clock on.
    Start,
    /// One stage forward.
    Next,
    /// One stage back.
    Prev,
    /// To this stage.
    Jump(usize),
    /// Stop running it.
    Stop,
}

/// Why an operator's command was not carried out.
#[derive(Clone, Copy, Debug, PartialEq, Eq, Structural)]
pub enum Refusal {
    /// There is no scenario of this name.
    NotFound,
    /// There is no stage to go to.
    BadRequest,
}

/// The scenario after the operator chose a stage. Choosing the stage of the
/// wall clock hands control back to it.
pub open spec fn at_stage(
    rt: ScenarioRuntime,
    stage: usize,
    wall: Option<usize>,
    now: Timestamp,
) -> ScenarioRuntime {
    ScenarioRuntime {
        current_stage: Some(stage),
        started_at: if rt.started_at is None {
            Some(now)
        } else {
            rt.started_at
        },
        stage_entered_at: Some(now),
        manual_override: wall != Some(stage),
    }
}

/// Where a scenario of `stages` stages stands after a command, if it can be
/// carried out. `wall` is the stage the wall clock is in.
pub open spec fn commanded(
    rt: ScenarioRuntime,
    stages: nat,
    wall: Option<usize>,
    c: Command,
    now: Timestamp,
) -> Option<ScenarioRuntime> {
    match c {
        Command::Start => if stages == 0 {
            None
        } else {
            Some(
                ScenarioRuntime {
                    current_stage: Some(
                        match wall {
                            Some(w) => w,
                            None => 0,
                        },
                    ),
                    started_at: Some(now),
                    stage_entered_at: Some(now),
                    manual_override: false,
                },
            )
        },
        Command::Next => match rt.current_stage {
            Some(i) => if i + 1 < stages {
                Some(at_stage(rt, (i + 1) as usize, wall, now))
            } else {
                None
            },
            None => None,
        },
        Command::Prev => match rt.current_stage {
            Some(i) => if 0 < i && i - 1 < stages {
                Some(at_stage(rt, (i - 1) as usize, wall, now))
            } else {
                None
            },
            None => None,
        },
        Command::Jump(i) => if i < stages {
            Some(at_stage(rt, i, wall, now))
        } else {
            None
        },
        Command::Stop => Some(idle()),
    }
}

/// The stage of the wall clock at one moment, and when that stage began.
#[derive(Clone, Copy, Debug, PartialEq, Eq, Structural)]
pub struct WallClock {
    pub stage: Option<usize>,
    pub entered_at: Timestamp,
}

/// Where a scenario stands after the wall clock moved on: a running scenario
/// that the operator left alone follows it.
pub open spec fn advanced(rt: ScenarioRuntime, wall: WallClock) -> ScenarioRuntime {
    if rt.current_stage is Some && !rt.manual_override && wall.stage is Some && rt.current_stage
        != wall.stage {
        ScenarioRuntime {
            current_stage: wall.stage,
            stage_entered_at: Some(wall.entered_at),
            ..rt
        }
    } else {
        rt
    }
}

impl ScenarioRuntime {
    /// The scenario after the operator chose a stage.
    fn at(&self, stage: usize, wall: Option<usize>, now: Timestamp) -> (r: Self)
        ensures
            r == at_stage(*self, stage, wall, now),
    {
        let started_at = if self.started_at.is_none() {
            Some(now)
        } else {
            self.started_at
        };
        let on_wall = match wall {
            Some(w) => w == stage,
            None => false,
        };
        ScenarioRuntime {
            current_stage: Some(stage),
            started_at,
            stage_entered_at: Some(now),
            manual_override: !on_wall,
        }
    }

    /// Where the scenario stands after a command; `None` where it cannot be
    /// carried out.
    pub fn command(&self, stages: usize, wall: Option<usize>, c: Command, now: Timestamp) -> (r:
        Option<Self>)
        ensures
            r == commanded(*self, stages as nat, wall, c, now),
    {
        match c {
            Command::Start => {
                if stages == 0 {
                    return None;
                }
                let stage: usize = match wall {
                    Some(w) => w,
                    None => 0,
                };
                Some(
                    ScenarioRuntime {
                        current_stage: Some(stage),
                        started_at: Some(now),
                        stage_entered_at: Some(now),
                        manual_override: false,
                    },
                )
            },
            Command::Next => match self.current_stage {
                Some(i) => if i < stages && i + 1 < stages {
                    Some(self.at(i + 1, wall, now))
                } else {
                    None
                },
                None => None,
            },
            Command::Prev => match self.current_stage {
                Some(i) => if 0 < i && i - 1 < stages {
                    Some(self.at(i - 1, wall, now))
                } else {
                    None
                },
                None => None,
            },
            Command::Jump(i) => if i < stages {
                Some(self.at(i, wall, now))
            } else {
                None
            },
            Command::Stop => Some(ScenarioRuntime::default()),
        }
    }

    /// Let the wall clock move the scenario on.
    pub fn advance(&mut self, wall: WallClock)
        ensures
            *final(self) == advanced(*old(self), wall),
    {
        match (self.current_stage, wall.stage) {
            (Some(current), Some(stage)) => {
                if !self.manual_override && current != stage {
                    self.current_stage = Some(stage);
                    self.stage_entered_at = Some(wall.entered_at);
                }
            },
            _ => {},
        }
    }
}

// ---------------------------------------------------------------------------
// The registry
// ---------------------------------------------------------------------------

/// One stage: its name, and the seconds of the day it lies between.
#[derive(Debug)]
pub struct Stage {
    pub name: String,
    pub from_sec: u32,
    pub to_sec: u32,
}

/// The view of a [`Stage`].
pub ghost struct StageV {
    pub name: Seq<char>,
    pub from_sec: u32,
    pub to_sec: u32,
}

impl View for Stage {
    type V = StageV;

    open spec fn view(&self) -> StageV {
        StageV { name: self.name@, from_sec: self.from_sec, to_sec: self.to_sec }
    }
}

/// What a scenario is: its name, a description, and its stages.
#[derive(Debug)]
pub struct ScenarioDef {
    pub name: String,
    pub description: String,
    pub stages: Vec<Stage>,
}

/// The first of the stages, from the `i`-th on, that a second of the day lies
/// in.
pub open spec fn stage_at(stages: Seq<StageV>, second: u32, i: int) -> Option<usize>
    decreases stages.len() - i,
{
    if !(0 <= i < stages.len()) {
        None
    } else if stages[i].from_sec <= second < stages[i].to_sec {
        Some(i as usize)
    } else {
        stage_at(stages, second, i + 1)
    }
}

/// The wall clock among these stages, at this second of the day.
pub open spec fn wall_clock(stages: Seq<StageV>, second: u32, now: Timestamp) -> WallClock {
    let stage = stage_at(stages, second, 0);
    WallClock {
        stage,
        entered_at: match stage {
            Some(i) => Timestamp {
                secs: (now.secs - second + stages[i as int].from_sec) as i64,
                nanos: 0,
            },
            None => now,
        },
    }
}

impl ScenarioDef {
    /// The stage that a second of the day lies in, if any: the first of them.
    pub fn wallclock_stage(&self, second: u32) -> (r: Option<usize>)
        ensures
            r == stage_at(views(self.stages@), second, 0),
            r matches Some(i) ==> i < self.stages@.len(),
    {
        let ghost all = views(self.stages@);
        let mut i: usize = 0;
        while i < self.stages.len()
            invariant
                i <= self.stages@.len(),
                all == views(self.stages@),
                stage_at(all, second, 0) == stage_at(all, second, i as int),
            decreases self.stages@.len() - i,
        {
            assert(all[i as int] == self.stages@[i as int]@);
            if self.stages[i].from_sec <= second && second < self.stages[i].to_sec {
                return Some(i);
            }
            i += 1;
        }
        None
    }

    /// The wall clock among the stages, at this second of the day; `now` is
    /// the instant.
    pub fn wall(&self, second: u32, now: Timestamp) -> (r: WallClock)
        requires
            -4_000_000_000_000_000_000 <= now.secs <= 4_000_000_000_000_000_000,
        ensures
            r == wall_clock(views(self.stages@), second, now),
            r.stage matches Some(i) ==> i < self.stages@.len(),
    {
        let stage = self.wallclock_stage(second);
        let entered_at = match stage {
            Some(i) => {
                assert(views(self.stages@)[i as int] == self.stages@[i as int]@);
                Timestamp {
                    secs: now.secs - second as i64 + self.stages[i].from_sec as i64,
                    nanos: 0,
                }
            },
            None => now,
        };
        WallClock { stage, entered_at }
    }
}

/// A scenario and where it stands.
#[derive(Debug)]
pub struct ScenarioEntry {
    pub def: ScenarioDef,
    pub runtime: ScenarioRuntime,
}

/// The view of a [`ScenarioEntry`].
pub ghost struct ScenarioV {
    pub name: Seq<char>,
    pub description: Seq<char>,
    pub stages: Seq<StageV>,
    pub runtime: ScenarioRuntime,
}

/// A definition that is not running.
pub open spec fn fresh_scenario(def: ScenarioDef) -> ScenarioV {
    ScenarioV {
        name: def.name@,
        description: def.description@,
        stages: views(def.stages@),
        runtime: idle(),
    }
}

impl View for ScenarioEntry {
    type V = ScenarioV;

    open spec fn view(&self) -> ScenarioV {
        ScenarioV {
            name: self.def.name@,
            description: self.def.description@,
            stages: views(self.def.stages@),
            runtime: self.runtime,
        }
    }
}

/// The names of the scenarios.
pub open spec fn names(entries: Seq<ScenarioV>) -> Seq<Seq<char>> {
    Seq::new(entries.len(), |i: int| entries[i].name)
}

/// The scenario of this name, if there is one.
pub open spec fn named(entries: Seq<ScenarioV>, name: Seq<char>) -> Option<int> {
    if exists|i: int| 0 <= i < entries.len() && (#[trigger] entries[i]).name == name {
        Some(choose|i: int| 0 <= i < entries.len() && (#[trigger] entries[i]).name == name)
    } else {
        None
    }
}

/// The scenarios after the wall clock moved them on, from the `i`-th on, up
/// to the first that has a current stage; which that is, and the stage.
pub open spec fn picked(entries: Seq<ScenarioV>, second: u32, now: Timestamp, i: int) -> (
    Seq<ScenarioV>,
    Option<(int, usize)>,
)
    decreases entries.len() - i,
{
    if !(0 <= i < entries.len()) {
        (entries, None)
    } else {
        let e = ScenarioV {
            runtime: advanced(
                entries[i].runtime,
                wall_clock(entries[i].stages, second, now),
            ),
            ..entries[i]
        };
        let after = entries.update(i, e);
        match e.runtime.current_stage {
            Some(stage) => if stage < e.stages.len() {
                (after, Some((i, stage)))
            } else {
                picked(after, second, now, i + 1)
            },
            None => picked(after, second, now, i + 1),
        }
    }
}

/// The scenarios, in the order of their names.
#[derive(Debug)]
pub struct ScenarioRegistry {
    entries: Vec<ScenarioEntry>,
}

impl View for ScenarioRegistry {
    type V = Seq<ScenarioV>;

    closed spec fn view(&self) -> Seq<ScenarioV> {
        views(self.entries@)
    }
}

impl ScenarioRegistry {
    /// The names ascend, so that each occurs once.
    pub open spec fn wf(&self) -> bool {
        ascending(names(self@))
    }

    /// A registry without scenarios.
    pub fn new() -> (r: Self)
        ensures
            r.wf(),
            r@ == Seq::<ScenarioV>::empty(),
    {
        let r = ScenarioRegistry { entries: Vec::new() };
        assert(r@ =~= Seq::<ScenarioV>::empty());
        r
    }

    /// The scenarios, in the order of their names.
    pub fn entries(&self) -> (r: &Vec<ScenarioEntry>)
        ensures
            views(r@) == self@,
    {
        &self.entries
    }

    /// Where the scenario of this name stands, or would stand.
    fn find(&self, name: &str) -> (r: (usize, bool))
        requires
            self.wf(),
        ensures
            r.0 <= self@.len(),
            r.1 ==> r.0 < self@.len() && self@[r.0 as int].name == name@ && named(self@, name@)
                == Some(r.0 as int),
            !r.1 ==> named(self@, name@) is None,
            forall|i: int|
                0 <= i < r.0 ==> !text_at_most(name@, (#[trigger] self@[i]).name),
            forall|i: int|
                r.0 <= i < self@.len() ==> text_at_most(name@, (#[trigger] self@[i]).name),
    {
        let mut i: usize = 0;
        while i < self.entries.len()
            invariant
                i <= self.entries@.len(),
                self@.len() == self.entries@.len(),
                self.wf(),
                forall|j: int| 0 <= j < i ==> !text_at_most(name@, (#[trigger] self@[j]).name),
            decreases self.entries@.len() - i,
        {
            assert(self@[i as int] == self.entries@[i as int]@);
            if text_not_after(name, self.entries[i].def.name.as_str()) {
                proof {
                    lemma_rest_not_before(self@, name@, i as int);
                }
                let here = text_not_after(self.entries[i].def.name.as_str(), name);
                proof {
                    lemma_text_total(self@[i as int].name, name@);
                    lemma_found(self@, name@, i as int);
                }
                return (i, here);
            }
            i += 1;
        }
        proof {
            lemma_found(self@, name@, i as int);
        }
        (i, false)
    }

    /// Define a scenario, in place of any of the same name. It does not run
    /// yet.
    pub fn define(&mut self, def: ScenarioDef)
        requires
            old(self).wf(),
        ensures
            final(self).wf(),
            match named(old(self)@, def.name@) {
                Some(i) => final(self)@ == old(self)@.update(i, fresh_scenario(def)),
                None => exists|at: int|
                    0 <= at <= old(self)@.len() && final(self)@ == #[trigger] old(self)@.insert(
                        at,
                        fresh_scenario(def),
                    ),
            },
            named(final(self)@, def.name@) matches Some(i) && final(self)@[i] == fresh_scenario(
                def,
            ),
    {
        let ghost before = self@;
        let ghost fresh = fresh_scenario(def);
        let (at, here) = self.find(def.name.as_str());
        let entry = ScenarioEntry { def, runtime: ScenarioRuntime::default() };
        assert(entry@ == fresh);
        if here {
            self.entries[at] = entry;
            assert(self@ =~= before.update(at as int, fresh));
            assert(names(self@) =~= names(before));
        } else {
            self.entries.insert(at, entry);
            assert(self@ =~= before.insert(at as int, fresh));
            proof {
                lemma_joined_ascending(before, at as int, fresh);
            }
        }
        proof {
            assert(self@[at as int] == fresh);
            lemma_named_at(self@, fresh.name, at as int);
        }
    }

    /// Carry out an operator's command, at this second of the day; the
    /// scenario it went to.
    pub fn command(&mut self, name: &str, c: Command, second: u32, now: Timestamp) -> (r: Result<
        usize,
        Refusal,
    >)
        requires
            old(self).wf(),
        ensures
            final(self).wf(),
            match named(old(self)@, name@) {
                None => r == Err::<usize, Refusal>(Refusal::NotFound) && final(self)@ == old(self)@,
                Some(i) => match commanded(
                    old(self)@[i].runtime,
                    old(self)@[i].stages.len(),
                    stage_at(old(self)@[i].stages, second, 0),
                    c,
                    now,
                ) {
                    None => r == Err::<usize, Refusal>(Refusal::BadRequest) && final(self)@ == old(
                        self,
                    )@,
                    Some(runtime) => r == Ok::<usize, Refusal>(i as usize) && final(self)@ == old(
                        self,
                    )@.update(i, (ScenarioV { runtime, ..old(self)@[i] })),
                },
            },
    {
        let (at, here) = self.find(name);
        if !here {
            return Err(Refusal::NotFound);
        }
        let stages = self.entries[at].def.stages.len();
        let wall = self.entries[at].def.wallclock_stage(second);
        assert(self@[at as int] == self.entries@[at as int]@);
        match self.entries[at].runtime.command(stages, wall, c, now) {
            None => Err(Refusal::BadRequest),
            Some(runtime) => {
                self.put_runtime(at, runtime);
                Ok(at)
            },
        }
    }

    /// Set where one scenario stands.
    fn put_runtime(&mut self, at: usize, runtime: ScenarioRuntime)
        requires
            old(self).wf(),
            at < old(self)@.len(),
        ensures
            final(self).wf(),
            final(self)@ == old(self)@.update(
                at as int,
                (ScenarioV { runtime, ..old(self)@[at as int] }),
            ),
    {
        let ghost before = self@;
        self.entries[at].runtime = runtime;
        proof {
            assert(self@ =~= before.update(
                at as int,
                ScenarioV { runtime, ..before[at as int] },
            ));
            assert(names(self@) =~= names(before));
        }
    }

    /// Let the wall clock move the running scenarios on, up to the first that
    /// has a current stage; which that is, and the stage.
    pub fn pick_active_stage(&mut self, second: u32, now: Timestamp) -> (r: Option<(usize, usize)>)
        requires
            old(self).wf(),
            -4_000_000_000_000_000_000 <= now.secs <= 4_000_000_000_000_000_000,
        ensures
            final(self).wf(),
            final(self)@ == picked(old(self)@, second, now, 0).0,
            match picked(old(self)@, second, now, 0).1 {
                Some((i, stage)) => r == Some((i as usize, stage)) && 0 <= i < old(self)@.len(),
                None => r is None,
            },
    {
        let ghost start = self@;
        let mut i: usize = 0;
        while i < self.entries.len()
            invariant
                self.wf(),
                -4_000_000_000_000_000_000 <= now.secs <= 4_000_000_000_000_000_000,
                self@.len() == self.entries@.len(),
                i <= self@.len(),
                start == old(self)@,
                start.len() == self@.len(),
                picked(start, second, now, 0) == picked(self@, second, now, i as int),
            decreases self@.len() - i,
        {
            let mut runtime = self.entries[i].runtime;
            let wall = self.entries[i].def.wall(second, now);
            runtime.advance(wall);
            assert(self@[i as int] == self.entries@[i as int]@);
            let stages = self.entries[i].def.stages.len();
            self.put_runtime(i, runtime);
            match runtime.current_stage {
                Some(stage) => {
                    if stage < stages {
                        return Some((i, stage));
                    }
                },
                None => {},
            }
            i += 1;
        }
        None
    }
}

proof fn lemma_rest_not_before(entries: Seq<ScenarioV>, name: Seq<char>, i: int)
    requires
        ascending(names(entries)),
        0 <= i < entries.len(),
        text_at_most(name, entries[i].name),
    ensures
        forall|j: int|
            i <= j < entries.len() ==> text_at_most(name, (#[trigger] entries[j]).name),
{
    let all = names(entries);
    assert forall|j: int| i <= j < entries.len() implies text_at_most(
        name,
        (#[trigger] entries[j]).name,
    ) by {
        if i < j {
            assert(text_at_most(all[i], all[j]));
            lemma_text_transitive(name, all[i], all[j]);
        }
    }
}

/// A name is at its place or nowhere.
proof fn lemma_found(entries: Seq<ScenarioV>, name: Seq<char>, at: int)
    requires
        ascending(names(entries)),
        0 <= at <= entries.len(),
        forall|j: int| 0 <= j < at ==> !text_at_most(name, (#[trigger] entries[j]).name),
        at < entries.len() ==> text_at_most(name, entries[at].name),
    ensures
        at < entries.len() && entries[at].name == name ==> named(entries, name) == Some(at),
        at == entries.len() || entries[at].name != name ==> named(entries, name) is None,
{
    let all = names(entries);
    if named(entries, name) is Some {
        let j = named(entries, name)->0;
        assert(0 <= j < entries.len() && entries[j].name == name);
        lemma_text_total(name, name);
        if j > at {
            assert(text_at_most(all[at], all[j]) && all[at] != all[j]);
            lemma_text_total(all[at], name);
        }
        assert(j == at);
    }
}

proof fn lemma_named_at(entries: Seq<ScenarioV>, name: Seq<char>, at: int)
    requires
        ascending(names(entries)),
        0 <= at < entries.len(),
        entries[at].name == name,
    ensures
        named(entries, name) == Some(at),
{
    let all = names(entries);
    let j = named(entries, name)->0;
    assert(0 <= j < entries.len() && entries[j].name == name);
    if j < at {
        assert(all[j] != all[at]);
    } else if at < j {
        assert(all[at] != all[j]);
    }
}

proof fn lemma_joined_ascending(entries: Seq<ScenarioV>, at: int, fresh: ScenarioV)
    requires
        ascending(names(entries)),
        0 <= at <= entries.len(),
        named(entries, fresh.name) is None,
        forall|i: int| 0 <= i < at ==> !text_at_most(fresh.name, (#[trigger] entries[i]).name),
        forall|i: int|
            at <= i < entries.len() ==> text_at_most(fresh.name, (#[trigger] entries[i]).name),
    ensures
        ascending(names(entries.insert(at, fresh))),
{
    let all = names(entries);
    let after = names(entries.insert(at, fresh));
    assert(after =~= all.insert(at, fresh.name));
    assert forall|i: int, j: int| 0 <= i < j < after.len() implies text_at_most(
        #[trigger] after[i],
        #[trigger] after[j],
    ) && after[i] != after[j] by {
        if i != at && j != at {
            let x = if i < at {
                i
            } else {
                i - 1
            };
            let y = if j < at {
                j
            } else {
                j - 1
            };
            assert(after[i] == all[x] && after[j] == all[y]);
        } else if j == at {
            assert(after[i] == entries[i].name);
            lemma_text_total(entries[i].name, fresh.name);
        } else {
            assert(after[j] == entries[j - 1].name);
            assert(entries[j - 1].name != fresh.name);
        }
    }
}

// ---------------------------------------------------------------------------
// What holds of scenarios
// ---------------------------------------------------------------------------

proof fn lemma_stage_in_range(stages: Seq<StageV>, second: u32, i: int)
    requires
        0 <= i,
        stages.len() <= usize::MAX,
    ensures
        stage_at(stages, second, i) matches Some(k) ==> i <= k < stages.len()
            && stages[k as int].from_sec <= second < stages[k as int].to_sec,
    decreases stages.len() - i,
{
    if i < stages.len() {
        lemma_stage_in_range(stages, second, i + 1);
    }
}

/// A scenario is never in a stage it does not have, whatever the operator
/// asks and the wall clock shows.
pub proof fn stages_stay_in_range(
    rt: ScenarioRuntime,
    stages: Seq<StageV>,
    second: u32,
    c: Command,
    now: Timestamp,
)
    requires
        stages.len() <= usize::MAX,
        rt.current_stage matches Some(i) ==> i < stages.len(),
    ensures
        commanded(rt, stages.len(), stage_at(stages, second, 0), c, now) matches Some(after) ==> (
        after.current_stage matches Some(i) ==> i < stages.len()),
        advanced(rt, wall_clock(stages, second, now)).current_stage matches Some(i) ==> i
            < stages.len(),
{
    lemma_stage_in_range(stages, second, 0);
}

/// What the operator chose stands until the operator chooses again: the wall
/// clock moves a scenario on only while nobody has stepped away from it.
pub proof fn the_operator_has_the_last_word(rt: ScenarioRuntime, wall: WallClock)
    ensures
        rt.manual_override ==> advanced(rt, wall) == rt,
        rt.current_stage is None ==> advanced(rt, wall) == rt,
        !rt.manual_override && rt.current_stage is Some && wall.stage is Some ==> advanced(
            rt,
            wall,
        ).current_stage == wall.stage,
{
}

/// One step forward and one step back lead to the same stage.
pub proof fn steps_undo_each_other(
    rt: ScenarioRuntime,
    stages: nat,
    wall: Option<usize>,
    now: Timestamp,
)
    requires
        stages <= usize::MAX,
        rt.current_stage is Some,
    ensures
        commanded(rt, stages, wall, Command::Next, now) matches Some(after) ==> (commanded(
            after,
            stages,
            wall,
            Command::Prev,
            now,
        ) matches Some(back) && back.current_stage == rt.current_stage),
        rt.current_stage->0 < stages && commanded(
            rt,
            stages,
            wall,
            Command::Prev,
            now,
        ) is Some ==> (commanded(
            commanded(rt, stages, wall, Command::Prev, now)->0,
            stages,
            wall,
            Command::Next,
            now,
        ) matches Some(back) && back.current_stage == rt.current_stage),
{
}

/// A scenario that was stopped is as one that never ran: stepping it is
/// refused, and the wall clock leaves it alone.
pub proof fn stopped_scenarios_stay_stopped(
    rt: ScenarioRuntime,
    stages: nat,
    wall: WallClock,
    now: Timestamp,
)
    ensures
        commanded(rt, stages, wall.stage, Command::Stop, now) == Some(idle()),
        commanded(idle(), stages, wall.stage, Command::Next, now) is None,
        commanded(idle(), stages, wall.stage, Command::Prev, now) is None,
        advanced(idle(), wall) == idle(),
{
}

} // verus!
