//! What the web interface answers: the state of the simulator in plain texts
//! and numbers.

use crate::clock::Clock;
use crate::decimal::decimal_text;
use crate::gridpool::PoolV;
use crate::market::{Area, AreaV};
use crate::model::{coupled, WorldV};
use crate::order::view_option;
use crate::proto_conv::{MAX_SECONDS, MIN_SECONDS, WireEnum};
use crate::scenarios::{stage_at, ScenarioEntry, ScenarioV, Stage, StageV};
use crate::table::{lemma_views_push, views};
use crate::time::Timestamp;
use crate::trade::PublicTrade;
use crate::wire;
use crate::world::World;
use vstd::prelude::*;

verus! {

/// The instant as `chrono` writes it in RFC 3339, if it knows it.
pub uninterp spec fn rfc3339_text(secs: int, nanos: int) -> Option<Seq<char>>;

/// `chrono`'s `DateTime::from_timestamp` and its `to_rfc3339`. An instant
/// within a second of the years it covers is always written; how, is the
/// named result.
#[verifier::external_body]
fn outside_rfc3339(secs: i64, nanos: u32) -> (r: Option<String>)
    ensures
        match r {
            Some(t) => rfc3339_text(secs as int, nanos as int) == Some(t@),
            None => rfc3339_text(secs as int, nanos as int) is None,
        },
        nanos < 1_000_000_000 ==> (r is Some <==> MIN_SECONDS <= secs <= MAX_SECONDS),
        nanos >= 2_000_000_000 ==> r is None,
{
    match chrono::DateTime::from_timestamp(secs, nanos) {
        Some(t) => Some(t.to_rfc3339()),
        None => None,
    }
}

/// An instant written out; blank where it cannot be.
pub open spec fn instant_or_blank(secs: i64, nanos: i32) -> Seq<char> {
    text_or_blank(rfc3339_text(secs as int, (nanos as u32) as int))
}

/// A text, or a blank where there is none.
pub open spec fn text_or_blank(text: Option<Seq<char>>) -> Seq<char> {
    match text {
        Some(t) => t,
        None => ""@,
    }
}

/// Write an instant out; blank where it cannot be.
pub fn write_instant(secs: i64, nanos: i32) -> (r: String)
    ensures
        r@ == instant_or_blank(secs, nanos),
{
    match outside_rfc3339(secs, nanos as u32) {
        Some(t) => t,
        None => "".to_owned(),
    }
}

// ---------------------------------------------------------------------------
// The exchange at a glance
// ---------------------------------------------------------------------------

/// How large the simulation is.
#[derive(Debug)]
pub struct InfoResp {
    pub version: String,
    pub gridpools: usize,
    pub markets: usize,
    pub couplings: usize,
}

/// The time zone the simulation runs in.
#[derive(Debug)]
pub struct ClockResp {
    pub tz: String,
}

/// The zone of a clock.
pub fn clock_info(clock: &Clock) -> (r: ClockResp)
    ensures
        r.tz@ == clock@,
{
    ClockResp { tz: clock.tz_name().to_owned() }
}

/// How many ends of couplings the first `n` of the areas have.
pub open spec fn ends_of(w: WorldV, areas: Seq<AreaV>, n: nat) -> nat
    decreases n,
{
    if n == 0 {
        0
    } else {
        ends_of(w, areas, (n - 1) as nat) + coupled(w, areas[n - 1]).len()
    }
}

/// How many ends of couplings the areas of the first `n` gridpools have.
pub open spec fn pool_ends(w: WorldV, n: nat) -> nat
    decreases n,
{
    if n == 0 {
        0
    } else {
        let areas = w.gridpools[n - 1].1.areas;
        pool_ends(w, (n - 1) as nat) + ends_of(w, areas, areas.len())
    }
}

proof fn lemma_ends_grow(w: WorldV, areas: Seq<AreaV>, i: nat, n: nat)
    requires
        i <= n,
    ensures
        ends_of(w, areas, i) <= ends_of(w, areas, n),
    decreases n,
{
    if i < n {
        lemma_ends_grow(w, areas, i, (n - 1) as nat);
    }
}

proof fn lemma_pool_ends_grow(w: WorldV, i: nat, n: nat)
    requires
        i <= n,
    ensures
        pool_ends(w, i) <= pool_ends(w, n),
    decreases n,
{
    if i < n {
        lemma_pool_ends_grow(w, i, (n - 1) as nat);
    }
}

/// How many gridpools and markets there are, and how many couplings the
/// areas of the gridpools have, each with its two ends counted as one.
pub fn info(world: &World, version: &str) -> (r: InfoResp)
    requires
        world.wf(),
        pool_ends(world@, world@.gridpools.len()) <= usize::MAX,
    ensures
        r.version@ == version@,
        r.gridpools == world@.gridpools.len(),
        r.markets == world@.markets.len(),
        r.couplings == pool_ends(world@, world@.gridpools.len()) / 2,
{
    let pools = world.gridpools();
    let mut ends: usize = 0;
    let mut i: usize = 0;
    while i < pools.len()
        invariant
            world.wf(),
            pools@ == world@.gridpools,
            i <= pools@.len(),
            ends == pool_ends(world@, i as nat),
            pool_ends(world@, pools@.len()) <= usize::MAX,
        decreases pools@.len() - i,
    {
        let list = pools.at(i).delivery_areas();
        let ghost areas = views(list@);
        let ghost before = ends as nat;
        let mut j: usize = 0;
        proof {
            lemma_pool_ends_grow(world@, (i + 1) as nat, pools@.len());
        }
        while j < list.len()
            invariant
                world.wf(),
                areas == views(list@),
                j <= areas.len(),
                ends == before + ends_of(world@, areas, j as nat),
                before + ends_of(world@, areas, areas.len()) <= usize::MAX,
            decreases areas.len() - j,
        {
            proof {
                lemma_ends_grow(world@, areas, (j + 1) as nat, areas.len());
                assert(areas[j as int] == list@[j as int]@);
            }
            let neighbours = world.coupled_areas(&list[j]);
            ends = ends + neighbours.len();
            j += 1;
        }
        i += 1;
    }
    InfoResp {
        version: version.to_owned(),
        gridpools: pools.len(),
        markets: world.markets().len(),
        couplings: ends / 2,
    }
}

/// One gridpool at a glance.
#[derive(Debug)]
pub struct GridpoolResp {
    pub id: u64,
    pub name: String,
    pub areas: Vec<String>,
    pub orders: usize,
    pub trades: usize,
}

/// The codes of areas.
pub open spec fn area_codes(areas: Seq<AreaV>) -> Seq<Seq<char>> {
    Seq::new(areas.len(), |i: int| areas[i].code)
}

/// The answer shows this gridpool.
pub open spec fn shows_pool(r: GridpoolResp, id: u64, p: PoolV) -> bool {
    &&& r.id == id
    &&& r.name@ == p.name
    &&& views(r.areas@) == area_codes(p.areas)
    &&& r.orders == p.orders.len()
    &&& r.trades == p.trades.len()
}

/// All gridpools at a glance.
pub fn gridpool_list(world: &World) -> (r: Vec<GridpoolResp>)
    requires
        world.wf(),
    ensures
        r@.len() == world@.gridpools.len(),
        forall|i: int|
            0 <= i < r@.len() ==> shows_pool(
                #[trigger] r@[i],
                world@.gridpools[i].0,
                world@.gridpools[i].1,
            ),
{
    let pools = world.gridpools();
    let mut out: Vec<GridpoolResp> = Vec::new();
    let mut i: usize = 0;
    while i < pools.len()
        invariant
            world.wf(),
            pools@ == world@.gridpools,
            i <= pools@.len(),
            out@.len() == i,
            forall|k: int|
                0 <= k < i ==> shows_pool(
                    #[trigger] out@[k],
                    world@.gridpools[k].0,
                    world@.gridpools[k].1,
                ),
        decreases pools@.len() - i,
    {
        let pool = pools.at(i);
        let areas = codes_of(pool.delivery_areas());
        assert(world@.gridpools[i as int].1.id == world@.gridpools[i as int].0);
        out.push(
            GridpoolResp {
                id: pool.number().0,
                name: pool.label().to_owned(),
                areas,
                orders: pool.order_count(),
                trades: pool.trades().len(),
            },
        );
        i += 1;
    }
    out
}

/// The codes of areas.
fn codes_of(areas: &Vec<Area>) -> (r: Vec<String>)
    ensures
        views(r@) == area_codes(views(areas@)),
{
    let ghost all = area_codes(views(areas@));
    let mut out: Vec<String> = Vec::new();
    let mut i: usize = 0;
    while i < areas.len()
        invariant
            i <= areas@.len(),
            all == area_codes(views(areas@)),
            views(out@) == all.take(i as int),
        decreases areas@.len() - i,
    {
        let code = areas[i].code.clone();
        proof {
            lemma_views_push(out@, code);
            assert(all.take(i + 1) =~= all.take(i as int).push(code@));
        }
        out.push(code);
        i += 1;
    }
    assert(all.take(i as int) =~= all);
    out
}

// ---------------------------------------------------------------------------
// Streams
// ---------------------------------------------------------------------------

/// One public trade, as it is streamed.
#[derive(Debug)]
pub struct PublicTradeJson {
    pub id: u64,
    pub buy_area: String,
    pub sell_area: String,
    /// The start of the delivery, so that a reader can tell the contracts
    /// apart.
    pub period: String,
    pub price: String,
    pub quantity: String,
    pub execution_time: String,
}

/// The view of a [`PublicTradeJson`].
pub ghost struct TradeTextV {
    pub id: u64,
    pub buy_area: Seq<char>,
    pub sell_area: Seq<char>,
    pub period: Seq<char>,
    pub price: Seq<char>,
    pub quantity: Seq<char>,
    pub execution_time: Seq<char>,
}

impl View for PublicTradeJson {
    type V = TradeTextV;

    open spec fn view(&self) -> TradeTextV {
        TradeTextV {
            id: self.id,
            buy_area: self.buy_area@,
            sell_area: self.sell_area@,
            period: self.period@,
            price: self.price@,
            quantity: self.quantity@,
            execution_time: self.execution_time@,
        }
    }
}

/// A public trade in texts: numbers without trailing zeros, instants in UTC.
pub fn trade_to_json(t: &PublicTrade) -> (r: PublicTradeJson)
    ensures
        r@ == (TradeTextV {
            id: t@.id,
            buy_area: t@.buy_area.code,
            sell_area: t@.sell_area.code,
            period: instant_or_blank(t@.period.start.secs, t@.period.start.nanos),
            price: decimal_text(t@.price),
            quantity: decimal_text(t@.quantity),
            execution_time: instant_or_blank(t@.execution_time.secs, t@.execution_time.nanos),
        }),
{
    PublicTradeJson {
        id: t.id.0,
        buy_area: t.buy_area.code.clone(),
        sell_area: t.sell_area.code.clone(),
        period: write_instant(t.period.start.secs, t.period.start.nanos),
        price: t.price.to_text(),
        quantity: t.quantity.to_text(),
        execution_time: write_instant(t.execution_time.secs, t.execution_time.nanos),
    }
}

/// One change of the public book, as it is streamed.
#[derive(Debug)]
pub struct PublicBookJson {
    pub id: u64,
    pub side: i32,
    pub area: String,
    /// The start of the delivery; with `area`, it tells the contracts apart.
    pub period: String,
    pub price: String,
    pub quantity: String,
}

/// The view of a [`PublicBookJson`].
pub ghost struct BookTextV {
    pub id: u64,
    pub side: i32,
    pub area: Seq<char>,
    pub period: Seq<char>,
    pub price: Seq<char>,
    pub quantity: Seq<char>,
}

impl View for PublicBookJson {
    type V = BookTextV;

    open spec fn view(&self) -> BookTextV {
        BookTextV {
            id: self.id,
            side: self.side,
            area: self.area@,
            period: self.period@,
            price: self.price@,
            quantity: self.quantity@,
        }
    }
}

/// A change of the public book in texts, each blank where it is not given.
pub open spec fn book_text(r: wire::RecordV) -> BookTextV {
    BookTextV {
        id: r.id,
        side: r.side,
        area: match r.delivery_area {
            Some(a) => a.code,
            None => ""@,
        },
        period: match r.delivery_period {
            Some(p) => match p.start {
                Some(t) => instant_or_blank(t.seconds, t.nanos),
                None => ""@,
            },
            None => ""@,
        },
        price: match r.price {
            Some(p) => text_or_blank(p.amount),
            None => ""@,
        },
        quantity: match r.quantity {
            Some(p) => text_or_blank(p.mw),
            None => ""@,
        },
    }
}

/// A change of the public book in texts.
pub fn book_record_to_json(b: &wire::PublicOrderBookRecord) -> (r: PublicBookJson)
    ensures
        r@ == book_text(b@),
{
    let area = match &b.delivery_area {
        Some(a) => a.code.clone(),
        None => "".to_owned(),
    };
    let period = match &b.delivery_period {
        Some(p) => match &p.start {
            Some(t) => write_instant(t.seconds, t.nanos),
            None => "".to_owned(),
        },
        None => "".to_owned(),
    };
    let price = match &b.price {
        Some(p) => match &p.amount {
            Some(a) => a.value.clone(),
            None => "".to_owned(),
        },
        None => "".to_owned(),
    };
    let quantity = match &b.quantity {
        Some(p) => match &p.mw {
            Some(a) => a.value.clone(),
            None => "".to_owned(),
        },
        None => "".to_owned(),
    };
    PublicBookJson { id: b.id, side: b.side, area, period, price, quantity }
}

// ---------------------------------------------------------------------------
// Scenarios
// ---------------------------------------------------------------------------

/// One scenario and where it stands.
#[derive(Debug)]
pub struct ScenarioJson {
    pub name: String,
    pub description: String,
    pub stages: Vec<String>,
    pub current_stage: Option<usize>,
    pub wallclock_stage: Option<usize>,
    pub manual_override: bool,
    pub started_at: Option<String>,
    pub stage_entered_at: Option<String>,
}

/// An optional instant written out.
pub open spec fn option_instant(t: Option<Timestamp>) -> Option<Seq<char>> {
    match t {
        Some(t) => Some(instant_or_blank(t.secs, t.nanos)),
        None => None,
    }
}

/// The names of stages.
pub open spec fn stage_names(stages: Seq<StageV>) -> Seq<Seq<char>> {
    Seq::new(stages.len(), |i: int| stages[i].name)
}

/// The answer shows this scenario.
pub open spec fn shows_scenario(r: ScenarioJson, s: ScenarioV, wall: Option<usize>) -> bool {
    &&& r.name@ == s.name
    &&& r.description@ == s.description
    &&& views(r.stages@) == stage_names(s.stages)
    &&& r.current_stage == s.runtime.current_stage
    &&& r.wallclock_stage == wall
    &&& r.manual_override == s.runtime.manual_override
    &&& view_option(r.started_at) == option_instant(s.runtime.started_at)
    &&& view_option(r.stage_entered_at) == option_instant(s.runtime.stage_entered_at)
}

fn write_option(t: Option<Timestamp>) -> (r: Option<String>)
    ensures
        view_option(r) == option_instant(t),
{
    match t {
        Some(t) => Some(write_instant(t.secs, t.nanos)),
        None => None,
    }
}

/// A scenario, at this second of the day.
pub fn scenario_to_json(e: &ScenarioEntry, second: u32) -> (r: ScenarioJson)
    ensures
        shows_scenario(r, e@, stage_at(e@.stages, second, 0)),
{
    ScenarioJson {
        name: e.def.name.clone(),
        description: e.def.description.clone(),
        stages: names_of(&e.def.stages),
        current_stage: e.runtime.current_stage,
        wallclock_stage: e.def.wallclock_stage(second),
        manual_override: e.runtime.manual_override,
        started_at: write_option(e.runtime.started_at),
        stage_entered_at: write_option(e.runtime.stage_entered_at),
    }
}

/// The names of stages.
fn names_of(stages: &Vec<Stage>) -> (r: Vec<String>)
    ensures
        views(r@) == stage_names(views(stages@)),
{
    let ghost all = stage_names(views(stages@));
    let mut out: Vec<String> = Vec::new();
    let mut i: usize = 0;
    while i < stages.len()
        invariant
            i <= stages@.len(),
            all == stage_names(views(stages@)),
            views(out@) == all.take(i as int),
        decreases stages@.len() - i,
    {
        let name = stages[i].name.clone();
        proof {
            lemma_views_push(out@, name);
            assert(all.take(i + 1) =~= all.take(i as int).push(name@));
        }
        out.push(name);
        i += 1;
    }
    assert(all.take(i as int) =~= all);
    out
}

} // verus!
