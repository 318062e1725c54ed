//! Whether the exchange can carry an order: the quantities that matching it
//! can write anew, and whether a grid holds the results.

use crate::book::{
    amount_fits, better, crosses, lemma_skip_sorted, lemma_zero_on_grid, marketable, sorted, BookV,
    EntryV,
};
use crate::decimal::{
    fits, grid_limit, grid_step, lemma_finer_grid, lemma_grid_closed, lemma_pow10_positive, on_grid,
    representable, Decimal, MANTISSA_LIMIT,
};
use crate::ledger::lemma_book_at_wf;
use crate::model::{candidates, key_of, opposite, resting_count, KeyV, WorldV};
use crate::order::{other_side, Order, OrderDetail, OrderId, Side};
use crate::table::views;
use crate::time::Timestamp;
use crate::volume::{
    carries, entry_fits, falls, ids_left, in_reach, on_one_grid, reach_fits, rises, trade_ids_left,
    volume_fits,
};
use crate::world::{ContractKey, World};
use vstd::prelude::*;

verus! {

/// The quantities that matching an order can write anew: those that are only
/// taken from whole, those that grow and those that shrink.
struct Amounts {
    whole: Vec<Decimal>,
    rising: Vec<Decimal>,
    falling: Vec<Decimal>,
}

impl Amounts {
    /// Every quantity can move by `room` on the grid.
    spec fn fit(&self, room: int, g: nat) -> bool {
        all_fit(self.whole@, g) && all_rise(self.rising@, room, g) && all_fall(
            self.falling@,
            room,
            g,
        )
    }

    /// Every quantity is on the grid.
    spec fn on_grid(&self, g: nat) -> bool {
        &&& all_on_grid(self.whole@, g)
        &&& all_on_grid(self.rising@, g)
        &&& all_on_grid(self.falling@, g)
    }
}

/// Every quantity of the list fits the grid.
spec fn all_fit(list: Seq<Decimal>, g: nat) -> bool {
    forall|i: int| 0 <= i < list.len() ==> amount_fits((#[trigger] list[i])@, g)
}

/// Every quantity of the list can grow by `room`.
spec fn all_rise(list: Seq<Decimal>, room: int, g: nat) -> bool {
    forall|i: int| 0 <= i < list.len() ==> rises((#[trigger] list[i])@, room, g)
}

/// Every quantity of the list can shrink by `room`.
spec fn all_fall(list: Seq<Decimal>, room: int, g: nat) -> bool {
    forall|i: int| 0 <= i < list.len() ==> falls((#[trigger] list[i])@, room, g)
}

/// What holds of a longer list holds of the shorter one and of what came to
/// it.
proof fn lemma_one_more(list: Seq<Decimal>, v: Decimal, room: int, g: nat)
    ensures
        all_fit(list.push(v), g) == (all_fit(list, g) && amount_fits(v@, g)),
        all_rise(list.push(v), room, g) == (all_rise(list, room, g) && rises(v@, room, g)),
        all_fall(list.push(v), room, g) == (all_fall(list, room, g) && falls(v@, room, g)),
{
    let more = list.push(v);
    assert(more[list.len() as int] == v);
    assert forall|i: int| 0 <= i < list.len() implies more[i] == #[trigger] list[i] by {}
}

/// Every quantity of the list is on the grid.
spec fn all_on_grid(list: Seq<Decimal>, g: nat) -> bool {
    forall|i: int| 0 <= i < list.len() ==> on_grid((#[trigger] list[i])@, g)
}

/// What fits a grid fits a coarser one that still holds every quantity.
proof fn lemma_coarser_grid(all: &Amounts, room: int, g: nat, h: nat)
    requires
        all.fit(room, h),
        all.on_grid(g),
        g <= h <= 28,
    ensures
        all.fit(room, g),
{
    lemma_zero_on_grid(g);
    lemma_finer_grid(0, g, h);
    assert forall|i: int| 0 <= i < all.whole@.len() implies amount_fits(
        (#[trigger] all.whole@[i])@,
        g,
    ) by {
        assert(amount_fits(all.whole@[i]@, h));
        assert(on_grid(all.whole@[i]@, g));
    }
    assert forall|i: int| 0 <= i < all.rising@.len() implies rises(
        (#[trigger] all.rising@[i])@,
        room,
        g,
    ) by {
        assert(rises(all.rising@[i]@, room, h));
        assert(on_grid(all.rising@[i]@, g));
    }
    assert forall|i: int| 0 <= i < all.falling@.len() implies falls(
        (#[trigger] all.falling@[i])@,
        room,
        g,
    ) by {
        assert(falls(all.falling@[i]@, room, h));
        assert(on_grid(all.falling@[i]@, g));
    }
}

/// What fits a grid is on it.
proof fn lemma_fits_on_grid(all: &Amounts, room: int, g: nat)
    requires
        all.fit(room, g),
    ensures
        all.on_grid(g),
{
    assert forall|i: int| 0 <= i < all.whole@.len() implies on_grid(
        (#[trigger] all.whole@[i])@,
        g,
    ) by {
        assert(amount_fits(all.whole@[i]@, g));
    }
    assert forall|i: int| 0 <= i < all.rising@.len() implies on_grid(
        (#[trigger] all.rising@[i])@,
        g,
    ) by {
        assert(rises(all.rising@[i]@, room, g));
    }
    assert forall|i: int| 0 <= i < all.falling@.len() implies on_grid(
        (#[trigger] all.falling@[i])@,
        g,
    ) by {
        assert(falls(all.falling@[i]@, room, g));
    }
}

proof fn lemma_list_finer(list: Seq<Decimal>, g: nat, h: nat)
    requires
        all_on_grid(list, g),
        g <= h <= 28,
    ensures
        all_on_grid(list, h),
{
    assert forall|i: int| 0 <= i < list.len() implies on_grid((#[trigger] list[i])@, h) by {
        lemma_finer_grid(list[i]@, g, h);
    }
}

/// The number of decimals the quantities need, if it is more than `least`.
fn list_decimals(list: &Vec<Decimal>, least: u32) -> (r: u32)
    requires
        least <= 28,
    ensures
        least <= r <= 28,
        all_on_grid(list@, r as nat),
        forall|g: nat| g >= least && #[trigger] all_on_grid(list@, g) ==> g >= r,
{
    let mut r: u32 = least;
    let mut i: usize = 0;
    while i < list.len()
        invariant
            i <= list@.len(),
            least <= r <= 28,
            forall|k: int| 0 <= k < i ==> on_grid((#[trigger] list@[k])@, r as nat),
            forall|g: nat| g >= least && #[trigger] all_on_grid(list@, g) ==> g >= r,
        decreases list@.len() - i,
    {
        let d = list[i].decimals();
        let ghost before = r;
        if d > r {
            r = d;
        }
        proof {
            lemma_finer_grid(list@[i as int]@, d as nat, r as nat);
            assert forall|k: int| 0 <= k < i implies on_grid((#[trigger] list@[k])@, r as nat) by {
                lemma_finer_grid(list@[k]@, before as nat, r as nat);
            }
            assert forall|g: nat| g >= least && #[trigger] all_on_grid(list@, g) implies g
                >= r by {
                assert(on_grid(list@[i as int]@, g));
            }
        }
        i += 1;
    }
    r
}

proof fn lemma_steps_compare(k: int, step: int)
    requires
        step > 0,
    ensures
        k < MANTISSA_LIMIT <==> k * step < MANTISSA_LIMIT * step,
        -MANTISSA_LIMIT < k <==> -(MANTISSA_LIMIT * step) < k * step,
{
    assert(k < MANTISSA_LIMIT <==> k * step < MANTISSA_LIMIT * step) by (nonlinear_arith)
        requires
            step > 0,
    ;
    assert(-MANTISSA_LIMIT < k <==> -(MANTISSA_LIMIT * step) < k * step) by (nonlinear_arith)
        requires
            step > 0,
    ;
}

/// Whether the quantity can grow by `room` grid steps.
fn can_rise(v: Decimal, room: i128, g: u32) -> (r: bool)
    requires
        g <= 28,
        0 <= room < MANTISSA_LIMIT,
    ensures
        r == rises(v@, room * grid_step(g as nat), g as nat),
{
    let ghost step = grid_step(g as nat);
    proof {
        lemma_pow10_positive((28 - g) as nat);
        assert(room * step >= 0) by (nonlinear_arith)
            requires
                room >= 0,
                step > 0,
        ;
    }
    match v.steps(g) {
        Some(m) => {
            proof {
                lemma_steps_compare(m + room, step);
                assert((m + room) * step == m * step + room * step) by (nonlinear_arith);
            }
            m + room < MANTISSA_LIMIT
        },
        None => false,
    }
}

/// Whether the quantity can shrink by `room` grid steps.
fn can_fall(v: Decimal, room: i128, g: u32) -> (r: bool)
    requires
        g <= 28,
        0 <= room < MANTISSA_LIMIT,
    ensures
        r == falls(v@, room * grid_step(g as nat), g as nat),
{
    let ghost step = grid_step(g as nat);
    proof {
        lemma_pow10_positive((28 - g) as nat);
        assert(room * step >= 0) by (nonlinear_arith)
            requires
                room >= 0,
                step > 0,
        ;
    }
    match v.steps(g) {
        Some(m) => {
            proof {
                lemma_steps_compare(m - room, step);
                assert((m - room) * step == m * step - room * step) by (nonlinear_arith);
            }
            -MANTISSA_LIMIT < m - room
        },
        None => false,
    }
}

/// The quantity in grid steps, if it fits the grid and is not negative.
fn amount_steps(v: Decimal, g: u32) -> (r: Option<i128>)
    requires
        g <= 28,
    ensures
        match r {
            Some(m) => amount_fits(v@, g as nat) && v@ == m * grid_step(g as nat) && 0 <= m
                < MANTISSA_LIMIT,
            None => !amount_fits(v@, g as nat),
        },
{
    let ghost step = grid_step(g as nat);
    match v.steps(g) {
        Some(m) => {
            proof {
                lemma_pow10_positive((28 - g) as nat);
                assert(m < 0 ==> m * step < 0) by (nonlinear_arith)
                    requires
                        step > 0,
                ;
                assert(m >= 0 ==> m * step >= 0) by (nonlinear_arith)
                    requires
                        step > 0,
                ;
            }
            if m < 0 {
                None
            } else {
                Some(m)
            }
        },
        None => None,
    }
}

impl Amounts {
    /// Whether every quantity can move by `room` grid steps.
    fn fits_at(&self, room: i128, g: u32) -> (r: bool)
        requires
            g <= 28,
            0 <= room < MANTISSA_LIMIT,
        ensures
            r == self.fit(room * grid_step(g as nat), g as nat),
    {
        let ghost qty = room * grid_step(g as nat);
        let mut i: usize = 0;
        while i < self.whole.len()
            invariant
                g <= 28,
                i <= self.whole@.len(),
                forall|k: int|
                    0 <= k < i ==> amount_fits((#[trigger] self.whole@[k])@, g as nat),
            decreases self.whole@.len() - i,
        {
            if amount_steps(self.whole[i], g).is_none() {
                assert(!amount_fits(self.whole@[i as int]@, g as nat));
                return false;
            }
            i += 1;
        }
        let mut j: usize = 0;
        while j < self.rising.len()
            invariant
                g <= 28,
                0 <= room < MANTISSA_LIMIT,
                qty == room * grid_step(g as nat),
                j <= self.rising@.len(),
                forall|k: int|
                    0 <= k < j ==> rises((#[trigger] self.rising@[k])@, qty, g as nat),
            decreases self.rising@.len() - j,
        {
            if !can_rise(self.rising[j], room, g) {
                assert(!rises(self.rising@[j as int]@, qty, g as nat));
                return false;
            }
            j += 1;
        }
        let mut n: usize = 0;
        while n < self.falling.len()
            invariant
                g <= 28,
                0 <= room < MANTISSA_LIMIT,
                qty == room * grid_step(g as nat),
                n <= self.falling@.len(),
                forall|k: int|
                    0 <= k < n ==> falls((#[trigger] self.falling@[k])@, qty, g as nat),
            decreases self.falling@.len() - n,
        {
            if !can_fall(self.falling[n], room, g) {
                assert(!falls(self.falling@[n as int]@, qty, g as nat));
                return false;
            }
            n += 1;
        }
        true
    }

    /// Whether some grid holds `qty` and every quantity moved by it.
    fn some_grid(&self, qty: Decimal) -> (r: bool)
        ensures
            r == exists|g: nat| #[trigger] amount_fits(qty@, g) && self.fit(qty@, g),
    {
        let least = qty.decimals();
        let a = list_decimals(&self.whole, least);
        let b = list_decimals(&self.rising, a);
        let g = list_decimals(&self.falling, b);
        proof {
            lemma_finer_grid(qty@, least as nat, g as nat);
            lemma_list_finer(self.whole@, a as nat, g as nat);
            lemma_list_finer(self.rising@, b as nat, g as nat);
            if exists|h: nat| #[trigger] amount_fits(qty@, h) && self.fit(qty@, h) {
                let h = choose|h: nat| #[trigger] amount_fits(qty@, h) && self.fit(qty@, h);
                lemma_fits_on_grid(self, qty@, h);
                assert(h >= least);
                assert(all_on_grid(self.whole@, h) && all_on_grid(self.rising@, h)
                    && all_on_grid(self.falling@, h));
                lemma_finer_grid(qty@, g as nat, h);
                lemma_coarser_grid(self, qty@, g as nat, h);
                assert(amount_fits(qty@, g as nat) && self.fit(qty@, g as nat));
            }
        }
        match amount_steps(qty, g) {
            Some(room) => {
                let r = self.fits_at(room, g);
                assert(r ==> amount_fits(qty@, g as nat) && self.fit(qty@, g as nat));
                r
            },
            None => false,
        }
    }
}

/// The two quantities in steps of the coarsest grid that holds both, if there
/// is one.
fn common_steps(a: Decimal, b: Decimal) -> (r: Option<(i128, i128, u32)>)
    ensures
        match r {
            Some((m, n, g)) => {
                &&& g <= 28
                &&& fits(a@, g as nat) && fits(b@, g as nat)
                &&& a@ == m * grid_step(g as nat) && b@ == n * grid_step(g as nat)
                &&& -MANTISSA_LIMIT < m < MANTISSA_LIMIT
                &&& -MANTISSA_LIMIT < n < MANTISSA_LIMIT
                &&& forall|h: nat| #[trigger] fits(a@, h) && fits(b@, h) ==> g <= h
            },
            None => forall|h: nat| #[trigger] fits(a@, h) ==> !fits(b@, h),
        },
{
    let x = a.decimals();
    let y = b.decimals();
    let g = if x < y {
        y
    } else {
        x
    };
    proof {
        lemma_finer_grid(a@, x as nat, g as nat);
        lemma_finer_grid(b@, y as nat, g as nat);
        assert forall|h: nat| #[trigger] fits(a@, h) && fits(b@, h) implies g <= h && fits(
            a@,
            g as nat,
        ) && fits(b@, g as nat) by {
            assert(on_grid(a@, h) && on_grid(b@, h));
            lemma_finer_grid(a@, g as nat, h);
        }
    }
    match (a.steps(g), b.steps(g)) {
        (Some(m), Some(n)) => Some((m, n, g)),
        _ => None,
    }
}

/// A sum of two quantities of a grid is held on it where it is held on a
/// finer one.
proof fn lemma_exact(a: int, b: int, c: int, g: nat)
    requires
        fits(a, g),
        fits(b, g),
        c == a + b || c == a - b,
        forall|h: nat| #[trigger] fits(a, h) && fits(b, h) ==> g <= h,
    ensures
        on_one_grid(a, b, c) == (-grid_limit(g) < c < grid_limit(g)),
        on_one_grid(a, b, c) ==> representable(c),
{
    lemma_grid_closed(a, b, g);
    if on_one_grid(a, b, c) {
        let h = choose|h: nat| #[trigger] fits(a, h) && fits(b, h) && fits(c, h);
        lemma_finer_grid(a, g, h);
        assert(fits(c, g));
    }
    if -grid_limit(g) < c < grid_limit(g) {
        assert(fits(a, g) && fits(b, g) && fits(c, g));
    }
}

/// Whether the sum can be held exactly on a grid of both quantities.
pub(super) fn is_exact_sum(a: Decimal, b: Decimal) -> (r: bool)
    ensures
        r == on_one_grid(a@, b@, a@ + b@),
        r ==> representable(a@ + b@),
{
    match common_steps(a, b) {
        Some((m, n, g)) => {
            let ghost step = grid_step(g as nat);
            proof {
                lemma_exact(a@, b@, a@ + b@, g as nat);
                lemma_pow10_positive((28 - g) as nat);
                lemma_steps_compare(m + n, step);
                assert((m + n) * step == m * step + n * step) by (nonlinear_arith);
            }
            -MANTISSA_LIMIT < m + n && m + n < MANTISSA_LIMIT
        },
        None => false,
    }
}

/// Whether the difference can be held exactly on a grid of both quantities.
pub(super) fn is_exact_difference(a: Decimal, b: Decimal) -> (r: bool)
    ensures
        r == on_one_grid(a@, b@, a@ - b@),
        r ==> representable(a@ - b@),
{
    match common_steps(a, b) {
        Some((m, n, g)) => {
            let ghost step = grid_step(g as nat);
            proof {
                lemma_exact(a@, b@, a@ - b@, g as nat);
                lemma_pow10_positive((28 - g) as nat);
                lemma_steps_compare(m - n, step);
                assert((m - n) * step == m * step - n * step) by (nonlinear_arith);
            }
            -MANTISSA_LIMIT < m - n && m - n < MANTISSA_LIMIT
        },
        None => false,
    }
}

/// The leading entries within reach are all that are within reach.
proof fn lemma_marketable_is_reach(taker: Side, limit: int, q: Seq<EntryV>, e: EntryV)
    requires
        sorted(other_side(taker), q),
    ensures
        marketable(taker, limit, q).contains(e) <==> q.contains(e) && crosses(
            taker,
            limit,
            e.price,
        ),
    decreases q.len(),
{
    let m = marketable(taker, limit, q);
    if q.len() > 0 {
        let rest = q.drop_first();
        if crosses(taker, limit, q[0].price) {
            lemma_skip_sorted(other_side(taker), q, 1);
            assert(q.skip(1) =~= rest);
            lemma_marketable_is_reach(taker, limit, rest, e);
            let n = marketable(taker, limit, rest);
            assert(m =~= seq![q[0]] + n);
            if n.contains(e) {
                let i = choose|i: int| 0 <= i < n.len() && n[i] == e;
                assert(m[i + 1] == e);
            }
            if rest.contains(e) {
                let i = choose|i: int| 0 <= i < rest.len() && rest[i] == e;
                assert(q[i + 1] == e);
            }
            if q.contains(e) && e != q[0] {
                let i = choose|i: int| 0 <= i < q.len() && q[i] == e;
                assert(rest[i - 1] == e);
            }
            if m.contains(e) && e != q[0] {
                let i = choose|i: int| 0 <= i < m.len() && m[i] == e;
                assert(n[i - 1] == e);
            }
            if e == q[0] {
                assert(m[0] == e);
            }
        } else {
            assert(m.len() == 0);
            if q.contains(e) {
                let i = choose|i: int| 0 <= i < q.len() && q[i] == e;
                if i > 0 {
                    assert(!better(other_side(taker), q[i].price, q[0].price));
                }
            }
        }
    } else {
        assert(m.len() == 0);
    }
}

/// The entries of a run can each be taken from.
spec fn run_fits(
    w: WorldV,
    key: KeyV,
    k: KeyV,
    run: Seq<EntryV>,
    n: int,
    room: int,
    g: nat,
) -> bool {
    forall|i: int| 0 <= i < n ==> entry_fits(w, key, k, #[trigger] run[i], room, g)
}

/// One more contract is within reach: what fits is what fitted before, and
/// its leading entries.
proof fn lemma_one_more_key(
    w: WorldV,
    key: KeyV,
    keys: Seq<KeyV>,
    i: int,
    side: Side,
    limit: int,
    room: int,
    g: nat,
)
    requires
        0 <= i < keys.len(),
        sorted(other_side(side), opposite(w.books, keys[i], side)),
    ensures
        ({
            let run = marketable(side, limit, opposite(w.books, keys[i], side));
            reach_fits(w, key, keys.take(i + 1), side, limit, room, g) == (reach_fits(
                w,
                key,
                keys.take(i),
                side,
                limit,
                room,
                g,
            ) && run_fits(w, key, keys[i], run, run.len() as int, room, g))
        }),
{
    let q = opposite(w.books, keys[i], side);
    let run = marketable(side, limit, q);
    let less = keys.take(i);
    let more = keys.take(i + 1);
    assert(more[i] == keys[i]);
    if reach_fits(w, key, more, side, limit, room, g) {
        assert forall|k: KeyV, e: EntryV| #[trigger]
            in_reach(w.books, less, side, limit, k, e) implies entry_fits(w, key, k, e, room, g) by {
            let j = choose|j: int| 0 <= j < less.len() && less[j] == k;
            assert(more[j] == k);
            assert(in_reach(w.books, more, side, limit, k, e));
        }
        assert forall|j: int| 0 <= j < run.len() implies entry_fits(
            w,
            key,
            keys[i],
            #[trigger] run[j],
            room,
            g,
        ) by {
            lemma_marketable_is_reach(side, limit, q, run[j]);
            assert(run.contains(run[j]));
            assert(in_reach(w.books, more, side, limit, keys[i], run[j]));
        }
    }
    if reach_fits(w, key, less, side, limit, room, g) && run_fits(
        w,
        key,
        keys[i],
        run,
        run.len() as int,
        room,
        g,
    ) {
        assert forall|k: KeyV, e: EntryV| #[trigger]
            in_reach(w.books, more, side, limit, k, e) implies entry_fits(w, key, k, e, room, g) by {
            let j = choose|j: int| 0 <= j < more.len() && more[j] == k;
            if j < i {
                assert(less[j] == k);
                assert(in_reach(w.books, less, side, limit, k, e));
            } else {
                lemma_marketable_is_reach(side, limit, q, e);
                let n = choose|n: int| 0 <= n < run.len() && run[n] == e;
                assert(entry_fits(w, key, keys[i], run[n], room, g));
            }
        }
    }
}

impl World {
    /// Add what a taker at home at `key` would write anew on taking from this
    /// entry of the contract `at`.
    fn add_entry(
        &self,
        all: &mut Amounts,
        key: &ContractKey,
        at: &ContractKey,
        id: OrderId,
        open: Decimal,
        Ghost(e): Ghost<EntryV>,
    )
        requires
            self.wf(),
            e.id == id.0,
            e.open == open@,
        ensures
            forall|room: int, g: nat| #[trigger]
                final(all).fit(room, g) == (old(all).fit(room, g) && entry_fits(
                    self@,
                    key@,
                    at@,
                    e,
                    room,
                    g,
                )),
    {
        let ghost before = *all;
        let flown = if at.area != key.area {
            Some(self.crossed_so_far(&key.area, &at.area, key.period))
        } else {
            None
        };
        let order = match self.owner_of(id) {
            Some(pool) => self.detail(pool, id),
            None => None,
        };
        all.whole.push(open);
        if let Some(flown) = flown {
            all.rising.push(flown);
        }
        let ghost mid = *all;
        if let Some(d) = &order {
            all.falling.push(d.open_quantity);
            all.rising.push(d.filled_quantity);
        }
        proof {
            assert forall|room: int, g: nat| #[trigger] all.fit(room, g) == (before.fit(room, g)
                && entry_fits(self@, key@, at@, e, room, g)) by {
                lemma_one_more(before.whole@, open, room, g);
                if flown is Some {
                    lemma_one_more(before.rising@, flown->0, room, g);
                }
                if order is Some {
                    lemma_one_more(mid.rising@, order->0.filled_quantity, room, g);
                    lemma_one_more(mid.falling@, order->0.open_quantity, room, g);
                }
            }
        }
    }

    /// What matching an order over these contracts can write anew.
    fn within_reach(
        &self,
        key: &ContractKey,
        keys: &Vec<ContractKey>,
        side: Side,
        limit: Decimal,
    ) -> (r: Amounts)
        requires
            self.wf(),
        ensures
            forall|room: int, g: nat| #[trigger]
                r.fit(room, g) == reach_fits(
                    self@,
                    key@,
                    views(keys@),
                    side,
                    limit@,
                    room,
                    g,
                ),
    {
        let mut all = Amounts { whole: Vec::new(), rising: Vec::new(), falling: Vec::new() };
        let ghost ks = views(keys@);
        let mut i: usize = 0;
        while i < keys.len()
            invariant
                self.wf(),
                self.books@ == self@.books,
                ks == views(keys@),
                i <= keys@.len(),
                forall|room: int, g: nat| #[trigger]
                    all.fit(room, g) == reach_fits(
                        self@,
                        key@,
                        ks.take(i as int),
                        side,
                        limit@,
                        room,
                        g,
                    ),
            decreases keys@.len() - i,
        {
            let at = &keys[i];
            let ghost q = opposite(self@.books, at@, side);
            let ghost run = marketable(side, limit@, q);
            let ghost start = all;
            proof {
                assert(ks[i as int] == at@);
                lemma_book_at_wf(self@.books, at@);
                assert forall|room: int, g: nat|
                    #![trigger start.fit(room, g)]
                    (start.fit(room, g) && run_fits(
                        self@,
                        key@,
                        at@,
                        run,
                        run.len() as int,
                        room,
                        g,
                    )) == reach_fits(
                        self@,
                        key@,
                        ks.take(i + 1),
                        side,
                        limit@,
                        room,
                        g,
                    ) by {
                    lemma_one_more_key(self@, key@, ks, i as int, side, limit@, room, g);
                }
            }
            let makers = match self.books.get(at) {
                Some(b) => b.marketable_orders(side, limit),
                None => Vec::new(),
            };
            assert(makers@.len() == run.len());
            let mut j: usize = 0;
            while j < makers.len()
                invariant
                    self.wf(),
                    j <= makers@.len(),
                    makers@.len() == run.len(),
                    forall|n: int|
                        0 <= n < run.len() ==> (#[trigger] makers@[n]).0.0 == run[n].id
                            && makers@[n].2@ == run[n].open,
                    forall|room: int, g: nat| #[trigger]
                        all.fit(room, g) == (start.fit(room, g) && run_fits(
                            self@,
                            key@,
                            at@,
                            run,
                            j as int,
                            room,
                            g,
                        )),
                decreases makers@.len() - j,
            {
                let ghost mid = all;
                self.add_entry(
                    &mut all,
                    key,
                    at,
                    makers[j].0,
                    makers[j].2,
                    Ghost(run[j as int]),
                );
                proof {
                    assert forall|room: int, g: nat| #[trigger]
                        all.fit(room, g) == (start.fit(room, g) && run_fits(
                            self@,
                            key@,
                            at@,
                            run,
                            j + 1,
                            room,
                            g,
                        )) by {
                        assert(all.fit(room, g) == (mid.fit(room, g) && entry_fits(
                            self@,
                            key@,
                            at@,
                            run[j as int],
                            room,
                            g,
                        )));
                    }
                }
                j += 1;
            }
            proof {
                assert forall|room: int, g: nat| #[trigger] all.fit(room, g) == reach_fits(
                    self@,
                    key@,
                    ks.take(i + 1),
                    side,
                    limit@,
                    room,
                    g,
                ) by {
                    assert(all.fit(room, g) == (start.fit(room, g) && run_fits(
                        self@,
                        key@,
                        at@,
                        run,
                        run.len() as int,
                        room,
                        g,
                    )));
                }
            }
            i += 1;
        }
        assert(ks.take(i as int) =~= ks);
        all
    }

    /// Whether some grid carries the order over these contracts.
    fn carries_over(
        &self,
        key: &ContractKey,
        keys: &Vec<ContractKey>,
        side: Side,
        limit: Decimal,
        filled: Decimal,
        qty: Decimal,
    ) -> (r: bool)
        requires
            self.wf(),
        ensures
            r == carries(self@, key@, views(keys@), side, limit@, filled@, qty@),
    {
        let mut all = self.within_reach(key, keys, side, limit);
        let ghost before = all;
        all.rising.push(filled);
        let ghost ks = views(keys@);
        proof {
            assert forall|g: nat| #[trigger] all.fit(qty@, g) == (before.fit(qty@, g) && rises(
                filled@,
                qty@,
                g,
            )) by {
                lemma_one_more(before.rising@, filled, qty@, g);
            }
            assert forall|g: nat|
                #![trigger amount_fits(qty@, g)]
                #![trigger volume_fits(self@, key@, ks, side, limit@, filled@, qty@, g)]
                (amount_fits(qty@, g) && all.fit(qty@, g)) == volume_fits(
                    self@,
                    key@,
                    ks,
                    side,
                    limit@,
                    filled@,
                    qty@,
                    g,
                ) by {
                assert(all.fit(qty@, g) == (before.fit(qty@, g) && rises(filled@, qty@, g)));
                assert(before.fit(qty@, g) == reach_fits(
                    self@,
                    key@,
                    ks,
                    side,
                    limit@,
                    qty@,
                    g,
                ));
            }
        }
        all.some_grid(qty)
    }

    /// Whether the exchange can carry the order: every quantity that matching
    /// it can lead to can be held exactly.
    pub fn can_carry(&self, order: &Order, now: Timestamp) -> (r: bool)
        requires
            self.wf(),
        ensures
            r == carries(
                self@,
                key_of(order@),
                candidates(self@, key_of(order@), now),
                order@.side,
                order@.price,
                0,
                order@.quantity,
            ),
    {
        let key = ContractKey { area: order.area.clone(), period: order.period };
        let keys = self.candidate_keys(&key, now);
        self.carries_over(
            &key,
            &keys,
            order.side,
            order.price,
            Decimal::zero(),
            order.quantity,
        )
    }

    /// Whether an order with this limit and `open` open can be matched on its
    /// own contract's book.
    pub(super) fn can_rematch(
        &self,
        d: &OrderDetail,
        key: &ContractKey,
        limit: Decimal,
        open: Decimal,
    ) -> (r: bool)
        requires
            self.wf(),
        ensures
            r == (trade_ids_left(self@, d@.order.side) && carries(
                self@,
                key@,
                seq![key@],
                d@.order.side,
                limit@,
                d@.filled_quantity,
                open@,
            )),
    {
        let mut keys: Vec<ContractKey> = Vec::new();
        keys.push(key.clone());
        assert(views(keys@) =~= seq![key@]);
        self.has_trade_ids(d.order.side) && self.carries_over(
            key,
            &keys,
            d.order.side,
            limit,
            d.filled_quantity,
            open,
        )
    }

    /// Whether the ids left are enough for a new order that takes from every
    /// order on the far side.
    pub fn has_ids(&self, side: Side) -> (r: bool)
        ensures
            r == ids_left(self@, side),
    {
        self.next_order_id < u64::MAX && self.has_trade_ids(side)
    }

    /// Whether the trade ids left are enough for an order that takes from
    /// every order on the far side.
    fn has_trade_ids(&self, side: Side) -> (r: bool)
        ensures
            r == trade_ids_left(self@, side),
    {
        let far = side.opposite();
        let mut left: u64 = u64::MAX - self.next_trade_id;
        let mut i: usize = 0;
        assert(self@.books.take(0) =~= Seq::<(KeyV, BookV)>::empty());
        while i < self.books.len()
            invariant
                self.books@ == self@.books,
                far == other_side(side),
                i <= self@.books.len(),
                self@.next_trade_id + resting_count(self@.books.take(i as int), far) + left
                    == u64::MAX,
            decreases self@.books.len() - i,
        {
            proof {
                assert(self@.books.take(i + 1).drop_last() =~= self@.books.take(i as int));
                lemma_resting_count_grows(self@.books, i + 1, far);
            }
            let n = self.books.at(i).len_of(far);
            if n as u64 > left {
                return false;
            }
            left = left - n as u64;
            i += 1;
        }
        assert(self@.books.take(i as int) =~= self@.books);
        true
    }
}

proof fn lemma_resting_count_grows(books: Seq<(KeyV, BookV)>, i: int, side: Side)
    requires
        0 <= i <= books.len(),
    ensures
        resting_count(books.take(i), side) <= resting_count(books, side),
    decreases books.len() - i,
{
    if i < books.len() {
        lemma_resting_count_grows(books, i + 1, side);
        assert(books.take(i + 1).drop_last() =~= books.take(i));
    } else {
        assert(books.take(i) =~= books);
    }
}

} // verus!
