//! The weather registry: which atmospheric model stands at which point of the
//! grid, and which delivery area is anchored to it; the hours a forecast is
//! for; and the ring of past forecasts.
//!
//! The models themselves are the driver's; the registry is over any type of
//! them.

use crate::table::{distinct, holds, lemma_stored, slot, stored, value_at, Key, Table};
use vstd::prelude::*;

verus! {

/// A point of the grid of tenths of a degree.
#[derive(Clone, Copy, Debug, PartialEq, Eq, Hash, Structural)]
pub struct LocationKey {
    pub lat_tenths: i32,
    pub lon_tenths: i32,
}

impl View for LocationKey {
    type V = LocationKey;

    open spec fn view(&self) -> LocationKey {
        *self
    }
}

impl Key for LocationKey {
    fn same_key(&self, other: &Self) -> (r: bool) {
        *self == *other
    }
}

/// The view of a [`WeatherRegistry`].
pub ghost struct RegistryV<L> {
    pub locations: Seq<L>,
    pub keys: Seq<(LocationKey, usize)>,
    pub areas: Seq<(Seq<char>, usize)>,
    pub day_of_year: Option<u32>,
}

/// There is a default location, every point of the grid has one location of
/// its own, and every area one anchor.
pub open spec fn registry_wf<L>(r: RegistryV<L>) -> bool {
    &&& r.locations.len() > 0
    &&& distinct(r.keys)
    &&& distinct(r.areas)
    &&& forall|i: int| 0 <= i < r.keys.len() ==> (#[trigger] r.keys[i]).1 < r.locations.len()
    &&& forall|i: int, j: int|
        0 <= i < j < r.keys.len() ==> (#[trigger] r.keys[i]).1 != (#[trigger] r.keys[j]).1
}

/// The registry after a location was registered at a point of the grid, in
/// place of any that was there.
pub open spec fn upserted<L>(r: RegistryV<L>, key: LocationKey, loc: L) -> RegistryV<L> {
    if holds(r.keys, key) {
        RegistryV { locations: r.locations.update(value_at(r.keys, key) as int, loc), ..r }
    } else {
        RegistryV {
            locations: r.locations.push(loc),
            keys: stored(r.keys, key, r.locations.len() as usize),
            ..r
        }
    }
}

/// The location an area is anchored to; the default where it is anchored to
/// none.
pub open spec fn anchored<L>(r: RegistryV<L>, area: Seq<char>) -> L {
    if holds(r.areas, area) && value_at(r.areas, area) < r.locations.len() {
        r.locations[value_at(r.areas, area) as int]
    } else {
        r.locations[0]
    }
}

/// The first area that was anchored to a location, if any is.
pub open spec fn first_anchored(areas: Seq<(Seq<char>, usize)>, slot: usize, from: int) -> Option<
    Seq<char>,
>
    decreases areas.len() - from,
{
    if !(0 <= from < areas.len()) {
        None
    } else if areas[from].1 == slot {
        Some(areas[from].0)
    } else {
        first_anchored(areas, slot, from + 1)
    }
}

/// Locations by their points on the grid, and by the areas anchored to them.
/// The first one is the default.
pub struct WeatherRegistry<L> {
    locations: Vec<L>,
    by_key: Table<LocationKey, usize>,
    by_area: Table<String, usize>,
    /// The day of the year that the sun is taken to stand at.
    active_day_of_year: Option<u32>,
}

impl<L> View for WeatherRegistry<L> {
    type V = RegistryV<L>;

    closed spec fn view(&self) -> RegistryV<L> {
        RegistryV {
            locations: self.locations@,
            keys: self.by_key@,
            areas: self.by_area@,
            day_of_year: self.active_day_of_year,
        }
    }
}

impl<L> WeatherRegistry<L> {
    /// See [`registry_wf`].
    pub open spec fn wf(&self) -> bool {
        registry_wf(self@)
    }

    /// A registry with its default location.
    pub fn new(key: LocationKey, default: L) -> (r: Self)
        ensures
            r.wf(),
            r@.locations == seq![default],
            r@.keys == seq![(key, 0usize)],
            r@.areas == Seq::<(Seq<char>, usize)>::empty(),
            r@.day_of_year is None,
    {
        let mut by_key: Table<LocationKey, usize> = Table::new();
        by_key.put(key, 0);
        let mut locations: Vec<L> = Vec::new();
        locations.push(default);
        let r = WeatherRegistry {
            locations,
            by_key,
            by_area: Table::new(),
            active_day_of_year: None,
        };
        assert(r@.keys =~= seq![(key, 0usize)]);
        assert(r@.locations =~= seq![default]);
        r
    }

    /// Register a location, or update the one at the same point of the grid.
    /// Returns its slot, for areas to be anchored to.
    pub fn upsert(&mut self, key: LocationKey, loc: L) -> (r: usize)
        requires
            old(self).wf(),
        ensures
            final(self).wf(),
            final(self)@ == upserted(old(self)@, key, loc),
            r == value_at(final(self)@.keys, key),
            r < final(self)@.locations.len(),
            final(self)@.locations[r as int] == loc,
    {
        let ghost before = self@;
        match self.by_key.get(&key) {
            Some(slot) => {
                let slot = *slot;
                assert(before.keys[row_of(before, key)].1 == slot);
                self.locations.set(slot, loc);
                slot
            },
            None => {
                let slot: usize = self.locations.len();
                proof {
                    lemma_stored(before.keys, key, slot);
                }
                self.locations.push(loc);
                self.by_key.put(key, slot);
                proof {
                    let after = self@.keys;
                    assert forall|i: int| 0 <= i < after.len() implies (#[trigger] after[i]).1
                        < self@.locations.len() by {
                        if i < before.keys.len() {
                            assert(after[i] == before.keys[i]);
                        }
                    }
                }
                slot
            },
        }
    }

    /// The day of the year that the sun is taken to stand at, if one is set.
    pub fn active_day_of_year(&self) -> (r: Option<u32>)
        ensures
            r == self@.day_of_year,
    {
        self.active_day_of_year
    }

    /// Set the day of the year that the sun is taken to stand at.
    pub fn set_day_of_year(&mut self, day: Option<u32>)
        ensures
            final(self)@ == (RegistryV { day_of_year: day, ..old(self)@ }),
    {
        self.active_day_of_year = day;
    }

    /// Anchor a delivery area to a slot.
    pub fn link_area(&mut self, area: &str, slot: usize)
        requires
            old(self).wf(),
        ensures
            final(self).wf(),
            final(self)@ == (RegistryV { areas: stored(old(self)@.areas, area@, slot), ..old(self)@ }),
    {
        self.by_area.put(area.to_owned(), slot);
    }

    /// All locations, the default first.
    pub fn locations(&self) -> (r: &Vec<L>)
        ensures
            r@ == self@.locations,
    {
        &self.locations
    }

    /// One location, to be changed in place.
    pub fn location_mut(&mut self, slot: usize) -> (r: &mut L)
        requires
            slot < old(self)@.locations.len(),
        ensures
            *r == old(self)@.locations[slot as int],
            final(self)@ == (RegistryV {
                locations: old(self)@.locations.update(slot as int, *final(r)),
                ..old(self)@
            }),
    {
        &mut self.locations[slot]
    }

    /// The area, if any, that was first anchored to a slot.
    pub fn area_for_location(&self, slot: usize) -> (r: Option<&str>)
        ensures
            match r {
                Some(area) => first_anchored(self@.areas, slot, 0) == Some(area@),
                None => first_anchored(self@.areas, slot, 0) is None,
            },
    {
        let mut i: usize = 0;
        while i < self.by_area.len()
            invariant
                self.by_area@ == self@.areas,
                i <= self@.areas.len(),
                first_anchored(self@.areas, slot, 0) == first_anchored(
                    self@.areas,
                    slot,
                    i as int,
                ),
            decreases self@.areas.len() - i,
        {
            if *self.by_area.at(i) == slot {
                return Some(self.by_area.key_at(i).as_str());
            }
            i += 1;
        }
        None
    }

    /// The default location, to be changed in place.
    pub fn default_mut(&mut self) -> (r: &mut L)
        requires
            old(self).wf(),
        ensures
            *r == old(self)@.locations[0],
            final(self)@ == (RegistryV {
                locations: old(self)@.locations.update(0, *final(r)),
                ..old(self)@
            }),
    {
        &mut self.locations[0]
    }

    /// The default location.
    pub fn default_location(&self) -> (r: &L)
        requires
            self.wf(),
        ensures
            *r == self@.locations[0],
    {
        &self.locations[0]
    }

    /// The location an area is anchored to, or the default.
    pub fn for_area(&self, area: &str) -> (r: &L)
        requires
            self.wf(),
        ensures
            *r == anchored(self@, area@),
    {
        let name = area.to_owned();
        match self.by_area.get(&name) {
            Some(slot) => if *slot < self.locations.len() {
                &self.locations[*slot]
            } else {
                &self.locations[0]
            },
            None => &self.locations[0],
        }
    }

    /// The location registered at a point of the grid, if there is one.
    pub fn at_key(&self, key: LocationKey) -> (r: Option<&L>)
        requires
            self.wf(),
        ensures
            match r {
                Some(l) => holds(self@.keys, key) && *l == self@.locations[value_at(
                    self@.keys,
                    key,
                ) as int],
                None => !holds(self@.keys, key),
            },
    {
        match self.by_key.get(&key) {
            Some(slot) => {
                assert(self@.keys[row_of(self@, key)].1 == *slot);
                Some(&self.locations[*slot])
            },
            None => None,
        }
    }
}

/// The row of a point of the grid.
spec fn row_of<L>(r: RegistryV<L>, key: LocationKey) -> int {
    slot(r.keys, key)
}

/// A location that was registered is found at its point of the grid, and for
/// the areas anchored to it; the other points keep theirs.
pub proof fn registered_locations_are_found<L>(
    r: RegistryV<L>,
    key: LocationKey,
    loc: L,
    area: Seq<char>,
    other: LocationKey,
)
    requires
        registry_wf(r),
        r.locations.len() < usize::MAX,
    ensures
        ({
            let after = upserted(r, key, loc);
            let linked = RegistryV {
                areas: stored(after.areas, area, value_at(after.keys, key)),
                ..after
            };
            &&& registry_wf(after)
            &&& holds(after.keys, key)
            &&& after.locations[value_at(after.keys, key) as int] == loc
            &&& anchored(linked, area) == loc
            &&& other != key && holds(r.keys, other) ==> holds(after.keys, other)
                && after.locations[value_at(after.keys, other) as int]
                == r.locations[value_at(r.keys, other) as int]
        }),
{
    let after = upserted(r, key, loc);
    let fresh = r.locations.len() as usize;
    lemma_stored(r.keys, key, fresh);
    if !holds(r.keys, key) {
        assert forall|i: int| 0 <= i < after.keys.len() implies (#[trigger] after.keys[i]).1
            < after.locations.len() by {
            if i < r.keys.len() {
                assert(after.keys[i] == r.keys[i]);
            }
        }
    }
    assert(after.keys[slot(after.keys, key)].1 < after.locations.len());
    lemma_stored(after.areas, area, value_at(after.keys, key));
    if other != key && holds(r.keys, other) {
        let i = slot(r.keys, other);
        assert(r.keys[i].1 < r.locations.len());
        if holds(r.keys, key) {
            let j = slot(r.keys, key);
            assert(r.keys[j].0 == key);
            if i < j {
                assert(r.keys[i].1 != r.keys[j].1);
            } else {
                assert(r.keys[j].1 != r.keys[i].1);
            }
        }
    }
}

// ---------------------------------------------------------------------------
// Forecasts
// ---------------------------------------------------------------------------

/// The number of hours a forecast covers.
pub const FORECAST_HOURS: usize = 24;

/// The number of past forecasts that are kept.
pub const FORECAST_HISTORY: usize = 100;

/// The next full hour, in seconds since the epoch.
pub open spec fn next_hour(now: int) -> int {
    (now / 3600 + 1) * 3600
}

/// The hours a forecast made at `now` is for: one a full hour from the next
/// on, a day's worth.
pub fn forecast_hours(now: i64) -> (r: Vec<i64>)
    requires
        now <= i64::MAX - 90_000,
    ensures
        r@.len() == FORECAST_HOURS,
        forall|h: int| 0 <= h < r@.len() ==> #[trigger] r@[h] == next_hour(now as int) + 3600 * h,
        now < r@[0] <= now + 3600,
{
    let whole: i64 = if now >= 0 {
        now / 3600
    } else {
        -((-(now + 1)) / 3600) - 1
    };
    let first: i64 = (whole + 1) * 3600;
    let mut out: Vec<i64> = Vec::new();
    let mut h: usize = 0;
    while h < FORECAST_HOURS
        invariant
            h <= FORECAST_HOURS,
            out@.len() == h,
            first == next_hour(now as int),
            first <= i64::MAX - 86_400,
            forall|k: int| 0 <= k < h ==> #[trigger] out@[k] == next_hour(now as int) + 3600 * k,
        decreases FORECAST_HOURS - h,
    {
        out.push(first + 3600 * h as i64);
        h += 1;
    }
    out
}

/// One more word mixed into a seed.
pub open spec fn mixed(seed: int, word: int) -> int {
    (seed * 0x100_0000_01B3 + word) % 0x1_0000_0000_0000_0000
}

/// The seed of the noise on one value of a forecast. It depends on when the
/// forecast was made, when it is for and which feature it is of, so that a
/// replay of the forecast shows the same value.
pub fn noise_seed(created: u64, valid: u64, feature: u64) -> (r: u64)
    ensures
        r == mixed(
            mixed(mixed(0xCBF2_9CE4_8422_2325, created as int), valid as int),
            feature as int,
        ),
{
    let s = mix(0xCBF2_9CE4_8422_2325, created);
    let s = mix(s, valid);
    mix(s, feature)
}

fn mix(seed: u64, word: u64) -> (r: u64)
    ensures
        r == mixed(seed as int, word as int),
{
    let ghost p = seed as int * 0x100_0000_01B3;
    let ghost m = 0x1_0000_0000_0000_0000int;
    let product = seed.wrapping_mul(0x100_0000_01B3);
    proof {
        assert(product as int == p % m);
        vstd::arithmetic::div_mod::lemma_add_mod_noop(p, word as int, m);
        vstd::arithmetic::div_mod::lemma_small_mod(word as nat, m as nat);
    }
    product.wrapping_add(word)
}

/// The past forecasts after one more was made: the oldest goes where there
/// are too many.
pub open spec fn remembered<F>(past: Seq<F>, forecast: F) -> Seq<F> {
    if past.len() == FORECAST_HISTORY {
        past.drop_first().push(forecast)
    } else {
        past.push(forecast)
    }
}

/// The forecasts that were made between two instants, both included.
pub open spec fn made_between<F>(past: Seq<(i64, F)>, start: i64, end: i64) -> Seq<int>
    decreases past.len(),
{
    if past.len() == 0 {
        Seq::empty()
    } else if start <= past.last().0 <= end {
        made_between(past.drop_last(), start, end).push(past.len() - 1)
    } else {
        made_between(past.drop_last(), start, end)
    }
}

/// The past forecasts, oldest first, each with the second it was made at.
pub struct ForecastHistory<F> {
    past: Vec<(i64, F)>,
}

impl<F> View for ForecastHistory<F> {
    type V = Seq<(i64, F)>;

    closed spec fn view(&self) -> Seq<(i64, F)> {
        self.past@
    }
}

impl<F> ForecastHistory<F> {
    /// No more forecasts are kept than there is room for.
    pub open spec fn wf(&self) -> bool {
        self@.len() <= FORECAST_HISTORY
    }

    /// No past forecasts.
    pub fn new() -> (r: Self)
        ensures
            r.wf(),
            r@ == Seq::<(i64, F)>::empty(),
    {
        ForecastHistory { past: Vec::new() }
    }

    /// Keep a forecast; the oldest goes where there are too many.
    pub fn push(&mut self, created: i64, forecast: F)
        requires
            old(self).wf(),
        ensures
            final(self).wf(),
            final(self)@ == remembered(old(self)@, (created, forecast)),
    {
        if self.past.len() == FORECAST_HISTORY {
            let _ = self.past.remove(0);
            assert(self@ =~= old(self)@.drop_first());
        }
        self.past.push((created, forecast));
    }

    /// One past forecast.
    pub fn at(&self, i: usize) -> (r: &F)
        requires
            i < self@.len(),
        ensures
            *r == self@[i as int].1,
    {
        &self.past[i].1
    }

    /// Which of the forecasts were made between two instants, oldest first;
    /// an end that is not given leaves its side open.
    pub fn between(&self, start: Option<i64>, end: Option<i64>) -> (r: Vec<usize>)
        ensures
            ({
                let from = match start {
                    Some(s) => s,
                    None => i64::MIN,
                };
                let to = match end {
                    Some(e) => e,
                    None => i64::MAX,
                };
                let found = made_between(self@, from, to);
                &&& r@.len() == found.len()
                &&& forall|k: int|
                    0 <= k < r@.len() ==> #[trigger] r@[k] == found[k] && r@[k] < self@.len()
            }),
    {
        let from: i64 = match start {
            Some(s) => s,
            None => i64::MIN,
        };
        let to: i64 = match end {
            Some(e) => e,
            None => i64::MAX,
        };
        let mut out: Vec<usize> = Vec::new();
        let mut i: usize = 0;
        assert(self@.take(0) =~= Seq::<(i64, F)>::empty());
        while i < self.past.len()
            invariant
                i <= self.past@.len(),
                self.past@ == self@,
                out@.len() == made_between(self@.take(i as int), from, to).len(),
                forall|k: int|
                    0 <= k < out@.len() ==> #[trigger] out@[k] == made_between(
                        self@.take(i as int),
                        from,
                        to,
                    )[k] && out@[k] < i,
            decreases self.past@.len() - i,
        {
            assert(self@.take(i + 1).drop_last() =~= self@.take(i as int));
            assert(self@.take(i + 1).last() == self@[i as int]);
            let made = self.past[i].0;
            if from <= made && made <= to {
                out.push(i);
            }
            i += 1;
        }
        assert(self@.take(i as int) =~= self@);
        out
    }
}

} // verus!
