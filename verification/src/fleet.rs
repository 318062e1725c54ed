//! The lifecycle of per-contract counterparties. A fleet covers a rolling
//! window of quarter-hour contracts. At each quarter boundary the contracts
//! that gated are retired and the window is topped up at its far edge.
//!
//! A [`FleetWindow`] decides who retires and who starts; the driver runs the
//! counterparties.

use crate::counterparty::sum_of;
use crate::decimal::{
    decimal_quotient, lemma_pow10_positive, representable, unit, value_of, Decimal,
};
use crate::market::{aligned, minutes_of, DeliveryDuration, DeliveryPeriod};
use crate::table::views;
use crate::time::Timestamp;
use vstd::prelude::*;

verus! {

/// The length of a quarter hour, in seconds.
pub const QUARTER_SECS: i64 = 900;

/// The quarter boundary that follows an instant.
pub open spec fn boundary_after(now: Timestamp) -> Timestamp {
    Timestamp { secs: (((now.secs as int) / 900 + 1) * 900) as i64, nanos: 0 }
}

/// The start of the `i`-th quarter hour from `base` on.
pub open spec fn quarter(base: Timestamp, i: int) -> Timestamp {
    Timestamp { secs: (base.secs + 900 * i) as i64, nanos: base.nanos }
}

/// The next quarter boundary. It is strictly ahead, by at most a quarter hour,
/// and a quarter hour that starts there is aligned.
pub fn next_quarter_boundary(now: Timestamp) -> (r: Timestamp)
    requires
        now.secs <= i64::MAX - QUARTER_SECS,
    ensures
        r == boundary_after(now),
        now.secs < r.secs <= now.secs + 900,
        aligned((DeliveryPeriod { start: r, duration: DeliveryDuration::QuarterHour })),
{
    let whole: i64 = if now.secs >= 0 {
        now.secs / QUARTER_SECS
    } else {
        -((-(now.secs + 1)) / QUARTER_SECS) - 1
    };
    let secs: i64 = (whole + 1) * QUARTER_SECS;
    assert(60 * minutes_of(DeliveryDuration::QuarterHour) == 900);
    assert((secs as int) % 900 == 0);
    Timestamp { secs, nanos: 0 }
}

/// How many whole quarter hours a contract's start lies past the next
/// boundary, none if it is not past it.
pub open spec fn offset_of(start: Timestamp, now: Timestamp) -> int {
    let ahead = start.instant() - boundary_after(now).instant();
    if ahead <= 0 {
        0
    } else {
        ahead / 900_000_000_000
    }
}

/// The contract's offset to the next boundary, in quarter hours. It shrinks
/// as the contract ages.
pub fn offset_to_gate(start: Timestamp, now: Timestamp) -> (r: i64)
    requires
        now.secs <= i64::MAX - QUARTER_SECS,
    ensures
        r == offset_of(start, now),
{
    let base = next_quarter_boundary(now);
    let ahead: i128 = (start.secs as i128 - base.secs as i128) * 1_000_000_000 + start.nanos as i128;
    if ahead <= 0 {
        0
    } else {
        (ahead / 900_000_000_000) as i64
    }
}

/// One counterparty's place in a fleet: the contract it is for, and which of
/// the fleet's profiles it follows.
#[derive(Clone, Copy, Debug, PartialEq, Eq, Structural)]
pub struct Slot {
    pub start: Timestamp,
    pub profile: usize,
}

/// The slots of one contract.
pub open spec fn contract_slots(start: Timestamp, profiles: nat) -> Seq<Slot> {
    Seq::new(profiles, |p: int| Slot { start, profile: p as usize })
}

/// The slots that a window of `n` contracts from `base` on should have.
pub open spec fn wanted(base: Timestamp, n: nat, profiles: nat) -> Seq<Slot>
    decreases n,
{
    if n == 0 {
        Seq::empty()
    } else {
        wanted(base, (n - 1) as nat, profiles) + contract_slots(quarter(base, n - 1), profiles)
    }
}

/// The slots whose contracts have not gated.
pub open spec fn kept(slots: Seq<Slot>, base: Timestamp) -> Seq<Slot>
    decreases slots.len(),
{
    if slots.len() == 0 {
        Seq::empty()
    } else if slots.last().start.earlier(base) {
        kept(slots.drop_last(), base)
    } else {
        kept(slots.drop_last(), base).push(slots.last())
    }
}

/// The slots whose contracts have gated.
pub open spec fn gated(slots: Seq<Slot>, base: Timestamp) -> Seq<Slot>
    decreases slots.len(),
{
    if slots.len() == 0 {
        Seq::empty()
    } else if slots.last().start.earlier(base) {
        gated(slots.drop_last(), base).push(slots.last())
    } else {
        gated(slots.drop_last(), base)
    }
}

/// The slots of `want` that are not among `have`.
pub open spec fn missing(want: Seq<Slot>, have: Seq<Slot>) -> Seq<Slot>
    decreases want.len(),
{
    if want.len() == 0 {
        Seq::empty()
    } else if have.contains(want.last()) {
        missing(want.drop_last(), have)
    } else {
        missing(want.drop_last(), have).push(want.last())
    }
}

/// Who runs after the window rolled to `base`.
pub open spec fn rolled(active: Seq<Slot>, base: Timestamp, n: nat, profiles: nat) -> Seq<Slot> {
    kept(active, base) + missing(wanted(base, n, profiles), kept(active, base))
}

/// What a roll asks of the driver: whom to retire, and whom to start, each
/// with its offset in the window.
#[derive(Debug)]
pub struct Roll {
    pub retired: Vec<Slot>,
    pub started: Vec<(Slot, i64)>,
}

/// The slots of a list of starts.
pub open spec fn slots_of(started: Seq<(Slot, i64)>) -> Seq<Slot> {
    Seq::new(started.len(), |i: int| started[i].0)
}

/// One fleet's window: who runs now.
#[derive(Debug)]
pub struct FleetWindow {
    quarters: u32,
    active: Vec<Slot>,
}

impl View for FleetWindow {
    type V = Seq<Slot>;

    closed spec fn view(&self) -> Seq<Slot> {
        self.active@
    }
}

impl FleetWindow {
    /// The number of contracts the window covers.
    pub closed spec fn span(&self) -> nat {
        self.quarters as nat
    }

    /// A window in which nobody runs yet.
    pub fn new(quarters: u32) -> (r: Self)
        ensures
            r@ == Seq::<Slot>::empty(),
            r.span() == quarters,
    {
        FleetWindow { quarters, active: Vec::new() }
    }

    /// Who runs now, in the order they started.
    pub fn active(&self) -> (r: &Vec<Slot>)
        ensures
            r@ == self@,
    {
        &self.active
    }

    /// Whether somebody runs in this slot.
    fn runs(slots: &Vec<Slot>, slot: Slot) -> (r: bool)
        ensures
            r == slots@.contains(slot),
    {
        let mut i: usize = 0;
        while i < slots.len()
            invariant
                i <= slots@.len(),
                forall|j: int| 0 <= j < i ==> slots@[j] != slot,
            decreases slots@.len() - i,
        {
            if slots[i] == slot {
                return true;
            }
            i += 1;
        }
        false
    }

    /// Retire whoever's contract has gated and start the slots that are
    /// missing from the window, which begins at the boundary after `now`.
    /// The first roll of a fresh window fills it.
    pub fn roll_forward(&mut self, now: Timestamp, profiles: usize) -> (r: Roll)
        requires
            now.secs + 900 * (old(self).span() + 1) <= i64::MAX,
        ensures
            final(self).span() == old(self).span(),
            final(self)@ == rolled(
                old(self)@,
                boundary_after(now),
                old(self).span(),
                profiles as nat,
            ),
            r.retired@ == gated(old(self)@, boundary_after(now)),
            slots_of(r.started@) == missing(
                wanted(boundary_after(now), old(self).span(), profiles as nat),
                kept(old(self)@, boundary_after(now)),
            ),
            forall|i: int|
                0 <= i < r.started@.len() ==> 0 <= (#[trigger] r.started@[i]).1 < old(self).span()
                    && r.started@[i].0.start == quarter(
                    boundary_after(now),
                    r.started@[i].1 as int,
                ),
    {
        let base = next_quarter_boundary(now);
        let ghost before = self.active@;
        let mut stay: Vec<Slot> = Vec::new();
        let mut retired: Vec<Slot> = Vec::new();
        let mut i: usize = 0;
        assert(before.take(0) =~= Seq::<Slot>::empty());
        while i < self.active.len()
            invariant
                before == self.active@,
                i <= before.len(),
                stay@ == kept(before.take(i as int), base),
                retired@ == gated(before.take(i as int), base),
            decreases before.len() - i,
        {
            let slot = self.active[i];
            assert(before.take(i + 1).drop_last() =~= before.take(i as int));
            assert(before.take(i + 1).last() == slot);
            if slot.start.is_earlier(&base) {
                retired.push(slot);
            } else {
                stay.push(slot);
            }
            i += 1;
        }
        assert(before.take(i as int) =~= before);
        let ghost have = stay@;
        let mut active = stay.clone();
        let mut started: Vec<(Slot, i64)> = Vec::new();
        let mut q: u32 = 0;
        assert(slots_of(started@) =~= Seq::<Slot>::empty());
        while q < self.quarters
            invariant
                q <= self.quarters,
                self.quarters as nat == old(self).span(),
                    now.secs + 900 * (self.quarters + 1) <= i64::MAX,
                base == boundary_after(now),
                now.secs < base.secs,
                now.secs >= 0 ==> base.secs - now.secs <= 900,
                now.secs < 0 ==> base.secs <= 900,
                stay@ == have,
                slots_of(started@) == missing(wanted(base, q as nat, profiles as nat), have),
                active@ == have + slots_of(started@),
                forall|i: int|
                    0 <= i < started@.len() ==> 0 <= (#[trigger] started@[i]).1 < q
                        && started@[i].0.start == quarter(base, started@[i].1 as int),
            decreases self.quarters - q,
        {
            let start = Timestamp { secs: base.secs + QUARTER_SECS * q as i64, nanos: base.nanos };
            let ghost row = contract_slots(start, profiles as nat);
            let ghost sofar = wanted(base, q as nat, profiles as nat);
            let mut p: usize = 0;
            assert(sofar + row.take(0) =~= sofar);
            while p < profiles
                invariant
                    p <= profiles,
                    q < self.quarters,
                    start == quarter(base, q as int),
                    row == contract_slots(start, profiles as nat),
                    stay@ == have,
                    slots_of(started@) == missing(sofar + row.take(p as int), have),
                    active@ == have + slots_of(started@),
                    forall|i: int|
                        0 <= i < started@.len() ==> 0 <= (#[trigger] started@[i]).1 <= q
                            && started@[i].0.start == quarter(base, started@[i].1 as int),
                decreases profiles - p,
            {
                let slot = Slot { start, profile: p };
                proof {
                    let next = sofar + row.take(p + 1);
                    assert(next.drop_last() =~= sofar + row.take(p as int));
                    assert(next.last() == slot);
                }
                if !FleetWindow::runs(&stay, slot) {
                    let ghost was = started@;
                    started.push((slot, q as i64));
                    active.push(slot);
                    assert(slots_of(started@) =~= slots_of(was).push(slot));
                    assert(active@ =~= have + slots_of(started@));
                }
                p += 1;
            }
            assert(row.take(p as int) =~= row);
            q += 1;
            assert(wanted(base, q as nat, profiles as nat) == sofar + row);
        }
        self.active = active;
        Roll { retired, started }
    }
}

/// The seed of the generator of a market maker: the fleet's, moved on by the
/// offset the maker starts at.
pub fn maker_seed(seed_base: u64, offset: u64) -> (r: u64)
    ensures
        r == (seed_base + offset) % 0x1_0000_0000_0000_0000,
{
    seed_base.wrapping_add(offset)
}

/// The seed of the generator of an aggressor: the fleet's, moved on by a
/// hundred times the offset, and by its profile.
pub fn aggressor_seed(seed_base: u64, offset: u64, profile: usize) -> (r: u64)
    requires
        offset * 100 <= u64::MAX,
    ensures
        r == (seed_base + offset * 100 + profile) % 0x1_0000_0000_0000_0000,
{
    seed_base.wrapping_add(offset * 100).wrapping_add(profile as u64)
}

/// The quarter-hour contract that starts at an instant.
pub fn quarter_period(start: Timestamp) -> (r: DeliveryPeriod)
    ensures
        r == (DeliveryPeriod { start, duration: DeliveryDuration::QuarterHour }),
{
    DeliveryPeriod { start, duration: DeliveryDuration::QuarterHour }
}

/// The sum of the references, if it does not overflow.
pub open spec fn summed(refs: Seq<int>) -> Option<int>
    decreases refs.len(),
{
    if refs.len() == 0 {
        Some(0)
    } else {
        sum_of(summed(refs.drop_last()), Some(refs.last()))
    }
}

/// The mean of the references, if it does not overflow and there is one.
pub open spec fn mean_of(refs: Seq<int>) -> Option<int> {
    match summed(refs) {
        Some(s) => decimal_quotient(s, refs.len() * unit()),
        None => None,
    }
}

/// The sum of the references.
pub open spec fn plain_sum(refs: Seq<int>) -> int
    decreases refs.len(),
{
    if refs.len() == 0 {
        0
    } else {
        plain_sum(refs.drop_last()) + refs.last()
    }
}

/// Adding the references up, one after the other, never loses anything.
pub open spec fn sums_fit(refs: Seq<int>) -> bool {
    forall|k: int| 0 <= k <= refs.len() ==> representable(plain_sum(#[trigger] refs.take(k)))
}

/// The reference of a fleet that spans several areas: the mean of theirs. A
/// fleet with one area has that area's.
pub fn mean_reference(refs: &Vec<Decimal>) -> (r: Option<Decimal>)
    requires
        refs@.len() <= i64::MAX,
    ensures
        value_of(r) == mean_of(views(refs@)),
        refs@.len() == 1 ==> value_of(r) == Some(refs@[0]@),
        ({
            let sum = plain_sum(views(refs@));
            let n = refs@.len() as int;
            n > 0 && sums_fit(views(refs@)) && sum % n == 0 && representable(sum / n) ==> value_of(r)
                == Some(sum / n)
        }),
{
    let ghost all = views(refs@);
    let mut total = Decimal::zero();
    let mut i: usize = 0;
    assert(all.take(0) =~= Seq::<int>::empty());
    while i < refs.len()
        invariant
            i <= refs@.len(),
            all == views(refs@),
            summed(all.take(i as int)) == Some(total@),
            sums_fit(all) ==> total@ == plain_sum(all.take(i as int)),
            i == 1 ==> total@ == refs@[0]@,
            i == 0 ==> total@ == 0,
        decreases refs@.len() - i,
    {
        assert(all.take(i + 1).drop_last() =~= all.take(i as int));
        assert(all.take(i + 1).last() == refs@[i as int]@);
        assert(sums_fit(all) ==> representable(plain_sum(all.take(i + 1))));
        match total.checked_plus(refs[i]) {
            Some(t) => {
                total = t;
            },
            None => {
                proof {
                    lemma_overflow_stays(all, i + 1);
                }
                return None;
            },
        }
        i += 1;
    }
    assert(all.take(i as int) =~= all);
    let count = Decimal::new(refs.len() as i64, 0);
    assert(count@ == refs@.len() * unit());
    proof {
        if refs@.len() > 0 && total@ % (refs@.len() as int) == 0 {
            lemma_even_shares(total@, refs@.len() as int);
        }
    }
    assert(refs@.len() == 1 ==> count@ == unit()) by (nonlinear_arith)
        requires
            count@ == refs@.len() * unit(),
    ;
    total.checked_over(count)
}

/// Shares of a sum that divides evenly.
proof fn lemma_even_shares(sum: int, n: int)
    requires
        n > 0,
        sum % n == 0,
    ensures
        n * unit() > 0,
        (sum * unit()) % (n * unit()) == 0,
        (sum * unit()) / (n * unit()) == sum / n,
{
    lemma_pow10_positive(28);
    let u = unit();
    let q = sum / n;
    let d = n * u;
    vstd::arithmetic::div_mod::lemma_fundamental_div_mod(sum, n);
    assert(sum == n * q);
    assert(d > 0) by (nonlinear_arith)
        requires
            n > 0,
            u > 0,
            d == n * u,
    ;
    assert(sum * u == q * d) by (nonlinear_arith)
        requires
            sum == n * q,
            d == n * u,
    ;
    vstd::arithmetic::div_mod::lemma_mod_multiples_basic(q, d);
    vstd::arithmetic::div_mod::lemma_div_multiples_vanish(q, d);
    vstd::arithmetic::mul::lemma_mul_is_commutative(q, d);
}

proof fn lemma_overflow_stays(refs: Seq<int>, n: int)
    requires
        0 <= n <= refs.len(),
        summed(refs.take(n)) is None,
    ensures
        summed(refs) is None,
    decreases refs.len() - n,
{
    if n < refs.len() {
        assert(refs.take(n + 1).drop_last() =~= refs.take(n));
        lemma_overflow_stays(refs, n + 1);
    } else {
        assert(refs.take(n) =~= refs);
    }
}

// ---------------------------------------------------------------------------
// What holds of windows
// ---------------------------------------------------------------------------

pub proof fn lemma_kept_contains(slots: Seq<Slot>, base: Timestamp, s: Slot)
    ensures
        kept(slots, base).contains(s) <==> slots.contains(s) && !s.start.earlier(base),
        gated(slots, base).contains(s) <==> slots.contains(s) && s.start.earlier(base),
    decreases slots.len(),
{
    if slots.len() > 0 {
        let front = slots.drop_last();
        lemma_kept_contains(front, base, s);
        assert(slots =~= front.push(slots.last()));
        lemma_push_contains(front, slots.last(), s);
        lemma_push_contains(kept(front, base), slots.last(), s);
        lemma_push_contains(gated(front, base), slots.last(), s);
    }
}

proof fn lemma_push_contains(q: Seq<Slot>, x: Slot, s: Slot)
    ensures
        q.push(x).contains(s) <==> q.contains(s) || s == x,
{
    let r = q.push(x);
    if q.contains(s) {
        let i = choose|i: int| 0 <= i < q.len() && q[i] == s;
        assert(r[i] == s);
    }
    if s == x {
        assert(r[q.len() as int] == s);
    }
}

pub proof fn lemma_missing_contains(want: Seq<Slot>, have: Seq<Slot>, s: Slot)
    ensures
        missing(want, have).contains(s) <==> want.contains(s) && !have.contains(s),
    decreases want.len(),
{
    if want.len() > 0 {
        let front = want.drop_last();
        lemma_missing_contains(front, have, s);
        assert(want =~= front.push(want.last()));
        lemma_push_contains(front, want.last(), s);
        lemma_push_contains(missing(front, have), want.last(), s);
    }
}

pub proof fn lemma_wanted_contains(base: Timestamp, n: nat, profiles: nat, s: Slot)
    requires
        profiles <= usize::MAX,
    ensures
        wanted(base, n, profiles).contains(s) <==> s.profile < profiles && exists|i: int|
            0 <= i < n && s.start == #[trigger] quarter(base, i),
    decreases n,
{
    if n > 0 {
        let m = (n - 1) as nat;
        lemma_wanted_contains(base, m, profiles, s);
        let a = wanted(base, m, profiles);
        let b = contract_slots(quarter(base, m as int), profiles);
        let w = a + b;
        if w.contains(s) {
            let k = choose|k: int| 0 <= k < w.len() && w[k] == s;
            if k < a.len() {
                assert(a[k] == s);
            } else {
                assert(b[k - a.len()] == s);
            }
        }
        if a.contains(s) {
            let k = choose|k: int| 0 <= k < a.len() && a[k] == s;
            assert(w[k] == s);
        }
        if s.profile < profiles && s.start == quarter(base, m as int) {
            assert(b[s.profile as int] == s);
            assert(w[a.len() + s.profile as int] == s);
        }
    }
}

/// A rolled window is full and nothing gated is left in it: every slot it
/// should have runs, and whoever runs is for a contract that is still open.
pub proof fn rolled_windows_are_full(
    active: Seq<Slot>,
    base: Timestamp,
    n: nat,
    profiles: nat,
    s: Slot,
)
    requires
        profiles <= usize::MAX,
        base.secs + 900 * n <= i64::MAX,
    ensures
        wanted(base, n, profiles).contains(s) ==> rolled(active, base, n, profiles).contains(s),
        rolled(active, base, n, profiles).contains(s) ==> !s.start.earlier(base),
        gated(active, base).contains(s) ==> !rolled(active, base, n, profiles).contains(s),
{
    let stay = kept(active, base);
    let fresh = missing(wanted(base, n, profiles), stay);
    lemma_kept_contains(active, base, s);
    lemma_missing_contains(wanted(base, n, profiles), stay, s);
    lemma_wanted_contains(base, n, profiles, s);
    lemma_sum_contains(stay, fresh, s);
}

pub proof fn lemma_sum_contains(a: Seq<Slot>, b: Seq<Slot>, s: Slot)
    ensures
        (a + b).contains(s) <==> a.contains(s) || b.contains(s),
{
    let w = a + b;
    if w.contains(s) {
        let k = choose|k: int| 0 <= k < w.len() && w[k] == s;
        if k < a.len() {
            assert(a[k] == s);
        } else {
            assert(b[k - a.len()] == s);
        }
    }
    if a.contains(s) {
        let k = choose|k: int| 0 <= k < a.len() && a[k] == s;
        assert(w[k] == s);
    }
    if b.contains(s) {
        let k = choose|k: int| 0 <= k < b.len() && b[k] == s;
        assert(w[a.len() + k] == s);
    }
}

/// A window that rolls on by whole quarter hours stays a window: exactly the
/// slots of the new window run.
pub proof fn windows_roll_into_windows(
    active: Seq<Slot>,
    base: Timestamp,
    steps: nat,
    n: nat,
    profiles: nat,
    s: Slot,
)
    requires
        profiles <= usize::MAX,
        base.secs + 900 * (n + steps) <= i64::MAX,
        forall|x: Slot|
            #[trigger] active.contains(x) <==> wanted(base, n, profiles).contains(x),
    ensures
        rolled(active, quarter(base, steps as int), n, profiles).contains(s) <==> wanted(
            quarter(base, steps as int),
            n,
            profiles,
        ).contains(s),
{
    let next = quarter(base, steps as int);
    let stay = kept(active, next);
    let fresh = missing(wanted(next, n, profiles), stay);
    lemma_kept_contains(active, next, s);
    lemma_missing_contains(wanted(next, n, profiles), stay, s);
    lemma_wanted_contains(base, n, profiles, s);
    lemma_wanted_contains(next, n, profiles, s);
    lemma_sum_contains(stay, fresh, s);
    if stay.contains(s) {
        let i = choose|i: int| 0 <= i < n && s.start == #[trigger] quarter(base, i);
        assert(s.start == quarter(next, i - steps));
    }
}

} // verus!
