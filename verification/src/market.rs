//! Market identity and per-area rules.

use crate::decimal::{default_price_tick, default_qty_step, grid_step, Decimal};
use crate::table::{holds, stored, value_at, Key, Table};
use crate::time::Timestamp;
use vstd::prelude::*;

verus! {

/// Currencies a price can be in. Each area has a single currency; any order
/// whose price disagrees is rejected.
#[derive(Clone, Copy, Debug, PartialEq, Eq, Hash, Structural)]
pub enum Currency {
    Eur,
    Usd,
    Gbp,
    Chf,
}

/// Identification scheme for the area code string.
#[derive(Clone, Copy, Debug, PartialEq, Eq, Hash, Structural)]
pub enum CodeType {
    Unspecified,
    EuropeEic,
    UsNerc,
}

/// A delivery area, identified by its market code (e.g. EIC).
#[derive(Debug)]
pub struct Area {
    pub code: String,
    pub code_type: CodeType,
}

/// An [`Area`] as contracts speak of it.
pub ghost struct AreaV {
    pub code: Seq<char>,
    pub code_type: CodeType,
}

impl View for Area {
    type V = AreaV;

    open spec fn view(&self) -> AreaV {
        AreaV { code: self.code@, code_type: self.code_type }
    }
}

/// The European area with this code.
pub open spec fn eic_area(code: Seq<char>) -> AreaV {
    AreaV { code, code_type: CodeType::EuropeEic }
}

impl Area {
    /// The area of the European scheme with this code.
    pub fn eic(code: &str) -> (r: Self)
        ensures
            r@ == eic_area(code@),
    {
        Area { code: code.to_owned(), code_type: CodeType::EuropeEic }
    }
}

impl Clone for Area {
    fn clone(&self) -> (r: Self)
        ensures
            r@ == self@,
    {
        Area { code: self.code.clone(), code_type: self.code_type }
    }
}

impl PartialEq for Area {
    fn eq(&self, other: &Area) -> (r: bool) {
        self.code == other.code && self.code_type == other.code_type
    }
}

impl vstd::std_specs::cmp::PartialEqSpecImpl for Area {
    open spec fn obeys_eq_spec() -> bool {
        true
    }

    open spec fn eq_spec(&self, other: &Area) -> bool {
        self@ == other@
    }
}

impl Eq for Area {

}

impl Key for Area {
    fn same_key(&self, other: &Self) -> (r: bool) {
        *self == *other
    }
}

/// Delivery durations the market knows.
#[derive(Clone, Copy, Debug, PartialEq, Eq, Hash, Structural)]
pub enum DeliveryDuration {
    FiveMin,
    QuarterHour,
    HalfHour,
    Hour,
}

/// The length of a delivery in minutes.
pub open spec fn minutes_of(d: DeliveryDuration) -> int {
    match d {
        DeliveryDuration::FiveMin => 5,
        DeliveryDuration::QuarterHour => 15,
        DeliveryDuration::HalfHour => 30,
        DeliveryDuration::Hour => 60,
    }
}

impl DeliveryDuration {
    /// The length in minutes.
    pub fn as_minutes(self) -> (r: i64)
        ensures
            r == minutes_of(self),
    {
        match self {
            DeliveryDuration::FiveMin => 5,
            DeliveryDuration::QuarterHour => 15,
            DeliveryDuration::HalfHour => 30,
            DeliveryDuration::Hour => 60,
        }
    }

    /// The duration of this many minutes, if the market knows one.
    pub fn from_minutes(m: i64) -> (r: Option<Self>)
        ensures
            match r {
                Some(d) => minutes_of(d) == m,
                None => forall|d: DeliveryDuration| #[trigger] minutes_of(d) != m,
            },
    {
        match m {
            5 => Some(DeliveryDuration::FiveMin),
            15 => Some(DeliveryDuration::QuarterHour),
            30 => Some(DeliveryDuration::HalfHour),
            60 => Some(DeliveryDuration::Hour),
            _ => None,
        }
    }
}

/// (start, duration): what an order or trade is for. Start must align to
/// the duration grid.
#[derive(Clone, Copy, Debug, PartialEq, Eq, Structural)]
pub struct DeliveryPeriod {
    pub start: Timestamp,
    pub duration: DeliveryDuration,
}

/// `start` lies on a multiple of the duration, to the nanosecond.
pub open spec fn aligned(p: DeliveryPeriod) -> bool {
    p.start.nanos == 0 && (p.start.secs as int) % (60 * minutes_of(p.duration)) == 0
}

impl DeliveryPeriod {
    /// True iff `start` lies on a multiple-of-duration minute boundary.
    pub fn is_aligned(&self) -> (r: bool)
        ensures
            r == aligned(*self),
    {
        // A multiple of every duration, so the sum is not negative.
        let shifted: i128 = self.start.secs as i128 + 9_223_372_036_854_777_600;
        proof {
            let x = self.start.secs as int;
            let span = 60 * minutes_of(self.duration);
            assert(span == 300 ==> (x % span == 0 <==> shifted % 300 == 0));
            assert(span == 900 ==> (x % span == 0 <==> shifted % 900 == 0));
            assert(span == 1800 ==> (x % span == 0 <==> shifted % 1800 == 0));
            assert(span == 3600 ==> (x % span == 0 <==> shifted % 3600 == 0));
        }
        if self.start.nanos != 0 {
            return false;
        }
        match self.duration {
            DeliveryDuration::FiveMin => shifted % 300 == 0,
            DeliveryDuration::QuarterHour => shifted % 900 == 0,
            DeliveryDuration::HalfHour => shifted % 1800 == 0,
            DeliveryDuration::Hour => shifted % 3600 == 0,
        }
    }

    /// The instant the delivery ends.
    pub fn end(&self) -> (r: Timestamp)
        requires
            self.start.secs + 3600 <= i64::MAX,
        ensures
            r == (Timestamp {
                secs: (self.start.secs + 60 * minutes_of(self.duration)) as i64,
                nanos: self.start.nanos,
            }),
            r.instant() == self.start.instant() + 60_000_000_000 * minutes_of(self.duration),
    {
        let span: i64 = self.duration.as_minutes() * 60;
        Timestamp { secs: self.start.secs + span, nanos: self.start.nanos }
    }
}

/// Per-area knobs.
#[derive(Debug)]
pub struct MarketRules {
    pub area: Area,
    pub currency: Currency,
    pub price_tick: Decimal,
    pub qty_step: Decimal,
    pub durations: Vec<DeliveryDuration>,
}

/// [`MarketRules`] as contracts speak of them.
pub ghost struct RulesV {
    pub area: AreaV,
    pub currency: Currency,
    pub price_tick: int,
    pub qty_step: int,
    pub durations: Seq<DeliveryDuration>,
}

impl View for MarketRules {
    type V = RulesV;

    open spec fn view(&self) -> RulesV {
        RulesV {
            area: self.area@,
            currency: self.currency,
            price_tick: self.price_tick@,
            qty_step: self.qty_step@,
            durations: self.durations@,
        }
    }
}

/// Rules with the default tick and step and a single delivery duration.
pub open spec fn default_rules(
    area: AreaV,
    currency: Currency,
    duration: DeliveryDuration,
) -> RulesV {
    RulesV {
        area,
        currency,
        price_tick: grid_step(2),
        qty_step: grid_step(1),
        durations: seq![duration],
    }
}

impl MarketRules {
    /// The German-Luxembourg zone: hourly products.
    pub fn de_lu() -> (r: Self)
        ensures
            r@ == default_rules(
                eic_area("10Y1001A1001A82H"@),
                Currency::Eur,
                DeliveryDuration::Hour,
            ),
    {
        MarketRules::with_defaults(
            Area::eic("10Y1001A1001A82H"),
            Currency::Eur,
            DeliveryDuration::Hour,
        )
    }

    /// Quarter-hour products in the given area.
    pub fn for_area(area: Area, currency: Currency) -> (r: Self)
        ensures
            r@ == default_rules(area@, currency, DeliveryDuration::QuarterHour),
    {
        MarketRules::with_defaults(area, currency, DeliveryDuration::QuarterHour)
    }

    /// Quarter-hour products in the TenneT control area.
    pub fn default_for_tests() -> (r: Self)
        ensures
            r@ == default_rules(
                eic_area("10YDE-EON------1"@),
                Currency::Eur,
                DeliveryDuration::QuarterHour,
            ),
    {
        MarketRules::for_area(Area::eic("10YDE-EON------1"), Currency::Eur)
    }

    fn with_defaults(area: Area, currency: Currency, duration: DeliveryDuration) -> (r: Self)
        ensures
            r@ == default_rules(area@, currency, duration),
    {
        let mut durations: Vec<DeliveryDuration> = Vec::new();
        durations.push(duration);
        assert(durations@ =~= seq![duration]);
        MarketRules {
            area,
            currency,
            price_tick: default_price_tick(),
            qty_step: default_qty_step(),
            durations,
        }
    }

    /// Whether the market trades products of this duration.
    pub fn allows(&self, duration: DeliveryDuration) -> (r: bool)
        ensures
            r == self@.durations.contains(duration),
    {
        let mut i: usize = 0;
        while i < self.durations.len()
            invariant
                i <= self.durations@.len(),
                forall|j: int| 0 <= j < i ==> self.durations@[j] != duration,
            decreases self.durations@.len() - i,
        {
            if self.durations[i] == duration {
                assert(self.durations@[i as int] == duration);
                return true;
            }
            i += 1;
        }
        false
    }
}

impl Clone for MarketRules {
    fn clone(&self) -> (r: Self)
        ensures
            r@ == self@,
    {
        let mut durations: Vec<DeliveryDuration> = Vec::new();
        let mut i: usize = 0;
        while i < self.durations.len()
            invariant
                i <= self.durations@.len(),
                durations@ == self.durations@.take(i as int),
            decreases self.durations@.len() - i,
        {
            durations.push(self.durations[i]);
            i += 1;
            assert(durations@ =~= self.durations@.take(i as int));
        }
        assert(durations@ =~= self.durations@);
        MarketRules {
            area: self.area.clone(),
            currency: self.currency,
            price_tick: self.price_tick,
            qty_step: self.qty_step,
            durations,
        }
    }
}

/// Lookup table from area to its rules.
#[derive(Debug)]
pub struct MarketRegistry {
    by_area: Table<Area, MarketRules>,
}

impl View for MarketRegistry {
    type V = Seq<(AreaV, RulesV)>;

    closed spec fn view(&self) -> Seq<(AreaV, RulesV)> {
        self.by_area@
    }
}

impl MarketRegistry {
    /// Each area has at most one set of rules.
    pub open spec fn wf(&self) -> bool {
        crate::table::distinct(self@)
    }

    /// A registry without markets.
    pub fn new() -> (r: Self)
        ensures
            r@ == Seq::<(AreaV, RulesV)>::empty(),
            r.wf(),
    {
        MarketRegistry { by_area: Table::new() }
    }

    /// Register `rules` for their area, in place of any it had.
    pub fn insert(&mut self, rules: MarketRules)
        requires
            old(self).wf(),
        ensures
            final(self)@ == stored(old(self)@, rules@.area, rules@),
            final(self).wf(),
    {
        self.by_area.put(rules.area.clone(), rules);
    }

    /// The rules of `area`, if it is a market.
    pub fn get(&self, area: &Area) -> (r: Option<&MarketRules>)
        requires
            self.wf(),
        ensures
            match r {
                Some(rules) => holds(self@, area@) && rules@ == value_at(self@, area@),
                None => !holds(self@, area@),
            },
    {
        self.by_area.get(area)
    }

    /// The number of markets.
    pub fn len(&self) -> (r: usize)
        ensures
            r == self@.len(),
    {
        self.by_area.len()
    }

    /// Whether there is no market.
    pub fn is_empty(&self) -> (r: bool)
        ensures
            r == (self@.len() == 0),
    {
        self.by_area.len() == 0
    }
}

/// What was registered for an area last is what is found for it.
pub proof fn registered_rules_are_found(markets: Seq<(AreaV, RulesV)>, rules: RulesV, other: AreaV)
    requires
        crate::table::distinct(markets),
    ensures
        holds(stored(markets, rules.area, rules), rules.area),
        value_at(stored(markets, rules.area, rules), rules.area) == rules,
        other != rules.area && holds(markets, other) ==> value_at(
            stored(markets, rules.area, rules),
            other,
        ) == value_at(markets, other),
{
    crate::table::lemma_stored(markets, rules.area, rules);
}

/// Minutes and durations turn into each other without loss.
pub proof fn durations_differ_in_minutes(a: DeliveryDuration, b: DeliveryDuration)
    ensures
        minutes_of(a) == minutes_of(b) <==> a == b,
{
}

} // verus!
