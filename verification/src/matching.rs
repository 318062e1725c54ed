//! Continuous matching engine with price-time priority: an incoming order
//! sweeps the opposite half-book in best-price-first order, FIFO within a
//! level, until its quantity is exhausted or the next level no longer crosses
//! the limit. What remains rests at the incoming price, or is dropped.

use crate::book::{
    amount_fits, better, book_wf, crosses, front_taken, has_id, inserted, lemma_skip_sorted,
    lemma_sum_fits, lemma_zero_on_grid, lesser, price_crosses, queue_of, rank, reach_on_grid,
    reachable, rests, sorted, total, with_queue, BookV, EntryV, OrderBook, Resting,
};
use crate::decimal::{lemma_grid_closed, on_grid, representable, Decimal};
use crate::order::{other_side, OrderId, Side};
use vstd::prelude::*;

verus! {

/// What the matcher takes in: an order that passed validation.
#[derive(Clone, Copy, Debug, PartialEq, Eq)]
pub struct IncomingLimit {
    pub id: OrderId,
    pub side: Side,
    pub price: Decimal,
    pub quantity: Decimal,
}

/// How the matcher treats unmatched quantity.
#[derive(Clone, Copy, Debug, PartialEq, Eq, Structural)]
pub enum ExecMode {
    /// LIMIT without restriction: rest any leftover on the book.
    Resting,
    /// IOC: take what crosses immediately, kill the rest.
    ImmediateOrCancel,
    /// FOK: must match the full quantity, or take none.
    FillOrKill,
}

/// One match event. The matcher is timeless: it produces only the trade
/// primitives.
#[derive(Clone, Copy, Debug, PartialEq, Eq)]
pub struct Fill {
    pub taker_id: OrderId,
    pub maker_id: OrderId,
    /// Match price = the resting (maker) order's limit price.
    pub price: Decimal,
    pub quantity: Decimal,
}

/// A [`Fill`] as contracts speak of it.
pub ghost struct FillV {
    pub taker_id: u64,
    pub maker_id: u64,
    pub price: int,
    pub quantity: int,
}

impl View for Fill {
    type V = FillV;

    open spec fn view(&self) -> FillV {
        FillV {
            taker_id: self.taker_id.0,
            maker_id: self.maker_id.0,
            price: self.price@,
            quantity: self.quantity@,
        }
    }
}

/// Outcome of a single [`match_limit`] call.
#[derive(Debug)]
pub struct LimitMatchOutcome {
    pub fills: Vec<Fill>,
    /// What was left to rest at the incoming limit price, if anything.
    pub rested: Option<Resting>,
}

/// The views of a sequence of fills.
pub open spec fn fills_view(fills: Seq<Fill>) -> Seq<FillV> {
    Seq::new(fills.len(), |i: int| fills[i]@)
}

/// What a sweep of one queue comes to.
pub ghost struct Sweep {
    /// The entries taken from, in order, and how much of each.
    pub taken: Seq<(EntryV, int)>,
    /// The queue afterwards.
    pub queue: Seq<EntryV>,
    /// The quantity that found no counterpart.
    pub left: int,
}

/// Sweep the queue from its front: while quantity is left and the front
/// entry crosses the limit, take the whole entry, or as much of it as is
/// still wanted.
pub open spec fn sweep(taker: Side, limit: int, qty: int, q: Seq<EntryV>) -> Sweep
    decreases q.len(),
{
    if qty <= 0 || q.len() == 0 || !crosses(taker, limit, q[0].price) {
        Sweep { taken: Seq::empty(), queue: q, left: qty }
    } else if q[0].open <= qty {
        let rest = sweep(taker, limit, qty - q[0].open, q.drop_first());
        Sweep { taken: seq![(q[0], q[0].open)] + rest.taken, queue: rest.queue, left: rest.left }
    } else {
        Sweep { taken: seq![(q[0], qty)], queue: front_taken(q, qty), left: 0 }
    }
}

/// The fills a taker gets from what it took.
pub open spec fn fills_of(taker_id: u64, taken: Seq<(EntryV, int)>) -> Seq<FillV> {
    Seq::new(
        taken.len(),
        |i: int|
            FillV {
                taker_id,
                maker_id: taken[i].0.id,
                price: taken[i].0.price,
                quantity: taken[i].1,
            },
    )
}

/// What a match of one order against one book comes to.
pub ghost struct Matched {
    pub book: BookV,
    pub fills: Seq<FillV>,
    pub rested: Option<int>,
}

/// A fill-or-kill order does nothing unless its whole quantity is within
/// reach. Any other order sweeps the opposite queue; a resting one then puts
/// what is left on its own side.
pub open spec fn matched(
    b: BookV,
    id: u64,
    side: Side,
    price: int,
    qty: int,
    mode: ExecMode,
) -> Matched {
    let q = queue_of(b, other_side(side));
    if mode == ExecMode::FillOrKill && reachable(side, price, q) < qty {
        Matched { book: b, fills: Seq::empty(), rested: None }
    } else {
        let s = sweep(side, price, qty, q);
        let swept = with_queue(b, other_side(side), s.queue);
        if mode == ExecMode::Resting && s.left > 0 {
            Matched {
                book: inserted(swept, side, EntryV { id, price, open: s.left }),
                fills: fills_of(id, s.taken),
                rested: Some(s.left),
            }
        } else {
            Matched { book: swept, fills: fills_of(id, s.taken), rested: None }
        }
    }
}

/// The quantity, and what a taker with this limit can reach of the opposite
/// queue, fit a common grid.
pub open spec fn matchable(taker: Side, limit: int, q: Seq<EntryV>, qty: int, g: nat) -> bool {
    amount_fits(qty, g) && qty > 0 && reach_on_grid(taker, limit, q, g)
}

/// Match a LIMIT order against the book.
///
/// - `Resting`: sweep, then rest any leftover at the incoming price.
/// - `ImmediateOrCancel`: sweep, drop any leftover (never rests).
/// - `FillOrKill`: pre-checks marketable depth; only sweeps if the entire
///   quantity is reachable. Otherwise no fills, no rest.
pub fn match_limit(book: &mut OrderBook, taker: IncomingLimit, mode: ExecMode) -> (r:
    LimitMatchOutcome)
    requires
        old(book).wf(),
        exists|g: nat|
            matchable(
                taker.side,
                taker.price@,
                queue_of(old(book)@, other_side(taker.side)),
                taker.quantity@,
                g,
            ),
    ensures
        final(book).wf(),
        ({
            let m = matched(
                old(book)@,
                taker.id.0,
                taker.side,
                taker.price@,
                taker.quantity@,
                mode,
            );
            &&& final(book)@ == m.book
            &&& fills_view(r.fills@) == m.fills
            &&& match r.rested {
                Some(e) => e.id == taker.id && m.rested == Some(e.open_qty@),
                None => m.rested is None,
            }
        }),
{
    let ghost b = book@;
    let ghost side = other_side(taker.side);
    let ghost q0 = queue_of(b, side);
    let ghost g = choose|g: nat|
        matchable(taker.side, taker.price@, q0, taker.quantity@, g);
    if mode == ExecMode::FillOrKill {
        assert(amount_fits(taker.quantity@, g) && reach_on_grid(
            taker.side,
            taker.price@,
            q0,
            g,
        ));
        let short = book.short_of(taker.side, taker.price, taker.quantity);
        if !short.is_zero() {
            let none: Vec<Fill> = Vec::new();
            assert(fills_view(none@) =~= Seq::<FillV>::empty());
            return LimitMatchOutcome { fills: none, rested: None };
        }
    }
    let mut fills: Vec<Fill> = Vec::new();
    let mut left = taker.quantity;
    let ghost s0 = sweep(taker.side, taker.price@, left@, q0);
    proof {
        assert(with_queue(b, side, q0) == b);
        assert(fills_of(taker.id.0, s0.taken) =~= fills_view(fills@) + fills_of(
            taker.id.0,
            s0.taken,
        ));
    }
    while !left.is_zero()
        invariant
            book.wf(),
            side == other_side(taker.side),
            book@ == with_queue(b, side, queue_of(book@, side)),
            amount_fits(left@, g),
            reach_on_grid(taker.side, taker.price@, queue_of(book@, side), g),
            s0 == sweep(taker.side, taker.price@, taker.quantity@, q0),
            fills_of(taker.id.0, s0.taken) == fills_view(fills@) + fills_of(
                taker.id.0,
                sweep(taker.side, taker.price@, left@, queue_of(book@, side)).taken,
            ),
            s0.queue == sweep(taker.side, taker.price@, left@, queue_of(book@, side)).queue,
            s0.left == sweep(taker.side, taker.price@, left@, queue_of(book@, side)).left,
        ensures
            book.wf(),
            book@ == with_queue(b, side, s0.queue),
            fills_view(fills@) == fills_of(taker.id.0, s0.taken),
            left@ == s0.left,
        decreases queue_of(book@, side).len(), left@,
    {
        let ghost q = queue_of(book@, side);
        let ghost l = left@;
        let ghost s = sweep(taker.side, taker.price@, l, q);
        let best = match book.peek_opposite(taker.side) {
            Some(p) => p,
            None => {
                proof {
                    assert(fills_view(fills@) + fills_of(taker.id.0, s.taken) =~= fills_view(
                        fills@,
                    ));
                }
                break;
            },
        };
        if !price_crosses(taker.side, taker.price, best) {
            proof {
                assert(fills_view(fills@) + fills_of(taker.id.0, s.taken) =~= fills_view(fills@));
            }
            break;
        }
        proof {
            lemma_step_fits(taker.side, taker.price@, q, l, g);
        }
        match book.consume_front(taker.side, left) {
            Some((price, maker_id, open_before, taken, fully)) => {
                let fill = Fill { taker_id: taker.id, maker_id, price, quantity: taken };
                let ghost before = fills_view(fills@);
                fills.push(fill);
                left = left.minus(taken);
                proof {
                    assert(fills_view(fills@) =~= before.push(fill@));
                    lemma_step_matchable(taker.side, taker.price@, q, l, g);
                    lemma_sweep_step(taker.side, taker.price@, l, q);
                    let next = sweep(
                        taker.side,
                        taker.price@,
                        left@,
                        queue_of(book@, side),
                    );
                    assert(s.taken =~= seq![(q[0], lesser(l, q[0].open))] + next.taken);
                    assert(before + fills_of(taker.id.0, s.taken) =~= fills_view(fills@)
                        + fills_of(taker.id.0, next.taken));
                }
            },
            None => {
                break;
            },
        }
        proof {
            if left@ == 0 {
                let next = sweep(taker.side, taker.price@, left@, queue_of(book@, side));
                assert(fills_view(fills@) + fills_of(taker.id.0, next.taken) =~= fills_view(
                    fills@,
                ));
            }
        }
    }
    if mode == ExecMode::Resting && Decimal::zero().less(left) {
        let resting = Resting { id: taker.id, open_qty: left };
        let put = book.insert(taker.side, taker.price, resting);
        LimitMatchOutcome { fills, rested: Some(resting) }
    } else {
        LimitMatchOutcome { fills, rested: None }
    }
}

/// One step of a sweep: take from the front, then sweep what is left.
pub proof fn lemma_sweep_step(taker: Side, limit: int, qty: int, q: Seq<EntryV>)
    requires
        qty > 0,
        q.len() > 0,
        q[0].open >= 0,
        crosses(taker, limit, q[0].price),
    ensures
        ({
            let s = sweep(taker, limit, qty, q);
            let t = lesser(qty, q[0].open);
            let next = sweep(taker, limit, qty - t, front_taken(q, qty));
            &&& s.taken == seq![(q[0], t)] + next.taken
            &&& s.queue == next.queue
            &&& s.left == next.left
        }),
{
    let s = sweep(taker, limit, qty, q);
    let t = lesser(qty, q[0].open);
    let next = sweep(taker, limit, qty - t, front_taken(q, qty));
    if q[0].open > qty {
        assert(next.taken.len() == 0);
    }
    assert(s.taken =~= seq![(q[0], t)] + next.taken);
}

pub proof fn lemma_step_fits(taker: Side, limit: int, q: Seq<EntryV>, qty: int, g: nat)
    requires
        matchable(taker, limit, q, qty, g),
        q.len() > 0,
        crosses(taker, limit, q[0].price),
    ensures
        representable(q[0].open - lesser(qty, q[0].open)),
        representable(qty - lesser(qty, q[0].open)),
        amount_fits(q[0].open, g),
{
    let e = q[0].open;
    assert(amount_fits(q[0].open, g));
    lemma_grid_closed(e, qty, g);
    lemma_grid_closed(qty, e, g);
    lemma_zero_on_grid(g);
    lemma_sum_fits(e - lesser(qty, e), g);
    lemma_sum_fits(qty - lesser(qty, e), g);
}

/// After a step the queue and the quantity still fit the grid.
pub proof fn lemma_step_matchable(taker: Side, limit: int, q: Seq<EntryV>, qty: int, g: nat)
    requires
        matchable(taker, limit, q, qty, g),
        q.len() > 0,
        crosses(taker, limit, q[0].price),
    ensures
        reach_on_grid(taker, limit, front_taken(q, qty), g),
        amount_fits(lesser(qty, q[0].open), g),
        amount_fits(qty - lesser(qty, q[0].open), g),
        front_taken(q, qty).len() < q.len() || qty - lesser(qty, q[0].open) == 0,
{
    let after = front_taken(q, qty);
    let e = q[0];
    assert(amount_fits(q[0].open, g));
    lemma_grid_closed(e.open, qty, g);
    lemma_grid_closed(qty, e.open, g);
    lemma_zero_on_grid(g);
    assert forall|i: int|
        0 <= i < after.len() && crosses(taker, limit, (#[trigger] after[i]).price) implies amount_fits(
        after[i].open,
        g,
    ) by {
        if e.open > qty {
            if i > 0 {
                assert(after[i] == q[i]);
            }
        } else {
            assert(after[i] == q[i + 1]);
        }
    }
}

/// The sum of what was taken.
pub open spec fn taken_total(taken: Seq<(EntryV, int)>) -> int
    decreases taken.len(),
{
    if taken.len() == 0 {
        0
    } else {
        taken[0].1 + taken_total(taken.drop_first())
    }
}

/// The sum of the filled quantities.
pub open spec fn filled(fills: Seq<FillV>) -> int
    decreases fills.len(),
{
    if fills.len() == 0 {
        0
    } else {
        fills[0].quantity + filled(fills.drop_first())
    }
}

/// No resting order could trade with one on the other side.
pub open spec fn uncrossed(b: BookV) -> bool {
    b.bids.len() > 0 && b.asks.len() > 0 ==> b.bids[0].price < b.asks[0].price
}

/// Every resting quantity is positive.
pub open spec fn all_open(q: Seq<EntryV>) -> bool {
    forall|i: int| 0 <= i < q.len() ==> (#[trigger] q[i]).open > 0
}

/// What a sweep does, in one place: it takes a leading run of the queue,
/// whole entries but for the last, each at a price within the limit; what is
/// taken and what is left make up the quantity; what is taken leaves the
/// queue; and if quantity is left, nothing that crosses is.
pub proof fn lemma_sweep(taker: Side, limit: int, qty: int, q: Seq<EntryV>)
    requires
        all_open(q),
        qty >= 0,
    ensures
        ({
            let s = sweep(taker, limit, qty, q);
            &&& s.taken.len() <= q.len()
            &&& forall|i: int| 0 <= i < s.taken.len() ==> (#[trigger] s.taken[i]).0 == q[i]
            &&& forall|i: int|
                0 <= i < s.taken.len() ==> 0 < (#[trigger] s.taken[i]).1 <= q[i].open
            &&& forall|i: int|
                0 <= i < s.taken.len() - 1 ==> (#[trigger] s.taken[i]).1 == q[i].open
            &&& forall|i: int|
                0 <= i < s.taken.len() ==> crosses(taker, limit, (#[trigger] s.taken[i]).0.price)
            &&& taken_total(s.taken) + s.left == qty
            &&& s.left >= 0
            &&& total(s.queue) + taken_total(s.taken) == total(q)
            &&& all_open(s.queue)
            &&& s.left > 0 && s.queue.len() > 0 ==> !crosses(taker, limit, s.queue[0].price)
            &&& s.left > 0 ==> s.queue == q.skip(s.taken.len() as int)
        }),
    decreases q.len(),
{
    let s = sweep(taker, limit, qty, q);
    if qty <= 0 || q.len() == 0 || !crosses(taker, limit, q[0].price) {
        assert(q.skip(0) =~= q);
    } else if q[0].open <= qty {
        let rest_q = q.drop_first();
        assert forall|i: int| 0 <= i < rest_q.len() implies (#[trigger] rest_q[i]).open > 0 by {
            assert(rest_q[i] == q[i + 1]);
        }
        lemma_sweep(taker, limit, qty - q[0].open, rest_q);
        let rest = sweep(taker, limit, qty - q[0].open, rest_q);
        assert(s.taken.drop_first() =~= rest.taken);
        assert forall|i: int| 0 <= i < s.taken.len() implies {
            &&& (#[trigger] s.taken[i]).0 == q[i]
            &&& 0 < s.taken[i].1 <= q[i].open
            &&& crosses(taker, limit, s.taken[i].0.price)
            &&& i < s.taken.len() - 1 ==> s.taken[i].1 == q[i].open
        } by {
            if i > 0 {
                assert(s.taken[i] == rest.taken[i - 1]);
                assert(rest_q[i - 1] == q[i]);
            }
        }
        if rest.left > 0 {
            assert(rest_q.skip(rest.taken.len() as int) =~= q.skip(s.taken.len() as int));
        }
    } else {
        assert(taken_total(s.taken.drop_first()) == 0);
        assert(s.taken[0].1 == qty);
        assert(taken_total(s.taken) == qty);
        assert(s.queue.drop_first() =~= q.drop_first());
        assert forall|i: int| 0 <= i < s.queue.len() implies (#[trigger] s.queue[i]).open > 0 by {
            if i > 0 {
                assert(s.queue[i] == q[i]);
            }
        }
    }
}

pub proof fn lemma_filled_is_taken(id: u64, taken: Seq<(EntryV, int)>)
    ensures
        filled(fills_of(id, taken)) == taken_total(taken),
    decreases taken.len(),
{
    if taken.len() > 0 {
        lemma_filled_is_taken(id, taken.drop_first());
        assert(fills_of(id, taken).drop_first() =~= fills_of(id, taken.drop_first()));
    }
}

/// With enough in reach, a sweep leaves nothing.
pub proof fn lemma_reachable_suffices(taker: Side, limit: int, qty: int, q: Seq<EntryV>)
    requires
        all_open(q),
        sorted(other_side(taker), q),
        qty >= 0,
    ensures
        reachable(taker, limit, q) >= qty ==> sweep(taker, limit, qty, q).left == 0,
        reachable(taker, limit, q) < qty ==> sweep(taker, limit, qty, q).left == qty - reachable(
            taker,
            limit,
            q,
        ),
        reachable(taker, limit, q) >= 0,
    decreases q.len(),
{
    if q.len() > 0 {
        let rest = q.drop_first();
        assert forall|i: int| 0 <= i < rest.len() implies (#[trigger] rest[i]).open > 0 by {
            assert(rest[i] == q[i + 1]);
        }
        lemma_skip_sorted(other_side(taker), q, 1);
        assert(q.skip(1) =~= rest);
        if crosses(taker, limit, q[0].price) && q[0].open <= qty {
            lemma_reachable_suffices(taker, limit, qty - q[0].open, rest);
        } else {
            lemma_reachable_suffices(taker, limit, 0, rest);
        }
        if !crosses(taker, limit, q[0].price) {
            lemma_nothing_behind(taker, limit, q);
        }
    }
}

proof fn lemma_nothing_behind(taker: Side, limit: int, q: Seq<EntryV>)
    requires
        sorted(other_side(taker), q),
        q.len() > 0 ==> !crosses(taker, limit, q[0].price),
    ensures
        reachable(taker, limit, q) == 0,
    decreases q.len(),
{
    if q.len() > 0 {
        let rest = q.drop_first();
        if rest.len() > 0 {
            assert(rest[0] == q[1]);
            assert(!better(other_side(taker), q[1].price, q[0].price));
        }
        lemma_skip_sorted(other_side(taker), q, 1);
        assert(q.skip(1) =~= rest);
        lemma_nothing_behind(taker, limit, rest);
    }
}

/// Every fill is at a price within the taker's limit, and the fills come in
/// price priority of the opposite side.
pub proof fn fill_prices_obey_limits(
    b: BookV,
    id: u64,
    side: Side,
    price: int,
    qty: int,
    mode: ExecMode,
)
    requires
        book_wf(b),
        all_open(queue_of(b, other_side(side))),
        qty > 0,
    ensures
        ({
            let fills = matched(b, id, side, price, qty, mode).fills;
            &&& forall|i: int|
                0 <= i < fills.len() ==> crosses(side, price, (#[trigger] fills[i]).price)
            &&& forall|i: int, j: int|
                0 <= i < j < fills.len() ==> !better(
                    other_side(side),
                    (#[trigger] fills[j]).price,
                    (#[trigger] fills[i]).price,
                )
        }),
{
    let q = queue_of(b, other_side(side));
    lemma_sweep(side, price, qty, q);
    let m = matched(b, id, side, price, qty, mode);
    let s = sweep(side, price, qty, q);
    if m.fills.len() > 0 {
        assert forall|i: int| 0 <= i < m.fills.len() implies (#[trigger] m.fills[i]).price
            == q[i].price && crosses(side, price, m.fills[i].price) by {
            assert(s.taken[i].0 == q[i]);
        }
    }
}

/// Every unit of quantity that arrives is either filled (once on the taker's
/// side, once on the maker's) or rests on the book.
pub proof fn quantity_conserved(b: BookV, id: u64, side: Side, price: int, qty: int)
    requires
        book_wf(b),
        all_open(b.bids),
        all_open(b.asks),
        !rests(b, id),
        side != Side::Unspecified,
        qty > 0,
    ensures
        ({
            let m = matched(b, id, side, price, qty, ExecMode::Resting);
            &&& total(b.bids) + total(b.asks) + qty == 2 * filled(m.fills) + total(m.book.bids)
                + total(m.book.asks)
            &&& m.rested == (if filled(m.fills) < qty {
                Some(qty - filled(m.fills))
            } else {
                None::<int>
            })
            &&& 0 <= filled(m.fills) <= qty
            &&& all_open(m.book.bids)
            &&& all_open(m.book.asks)
        }),
{
    let q = queue_of(b, other_side(side));
    let s = sweep(side, price, qty, q);
    lemma_sweep(side, price, qty, q);
    lemma_filled_is_taken(id, s.taken);
    if s.left > 0 {
        let own = queue_of(b, side);
        let swept = with_queue(b, other_side(side), s.queue);
        lemma_swept_free(b, side, id, price, qty);
        crate::book::lemma_rank_bounds(side, own, price);
        lemma_total_insert(own, rank(side, own, price), EntryV { id, price, open: s.left });
    } else {
        lemma_taken_nonnegative(s.taken);
    }
    lemma_taken_nonnegative(s.taken);
}

pub proof fn lemma_taken_nonnegative(taken: Seq<(EntryV, int)>)
    requires
        forall|i: int| 0 <= i < taken.len() ==> (#[trigger] taken[i]).1 > 0,
    ensures
        taken_total(taken) >= 0,
        taken.len() > 0 ==> taken_total(taken) > 0,
    decreases taken.len(),
{
    if taken.len() > 0 {
        let rest = taken.drop_first();
        assert forall|i: int| 0 <= i < rest.len() implies (#[trigger] rest[i]).1 > 0 by {
            assert(rest[i] == taken[i + 1]);
        }
        lemma_taken_nonnegative(rest);
    }
}

pub proof fn lemma_total_insert(q: Seq<EntryV>, k: int, e: EntryV)
    requires
        0 <= k <= q.len(),
    ensures
        total(q.insert(k, e)) == total(q) + e.open,
        all_open(q) && e.open > 0 ==> all_open(q.insert(k, e)),
    decreases q.len(),
{
    let after = q.insert(k, e);
    if k == 0 {
        assert(after.drop_first() =~= q);
    } else {
        lemma_total_insert(q.drop_first(), k - 1, e);
        assert(after.drop_first() =~= q.drop_first().insert(k - 1, e));
    }
    assert forall|i: int| all_open(q) && e.open > 0 && 0 <= i < after.len() implies (#[trigger]
    after[i]).open > 0 by {
        if i < k {
            assert(after[i] == q[i]);
        } else if i > k {
            assert(after[i] == q[i - 1]);
        }
    }
}

/// A sweep brings no new ids onto the book.
proof fn lemma_swept_free(b: BookV, side: Side, id: u64, price: int, qty: int)
    requires
        book_wf(b),
        all_open(queue_of(b, other_side(side))),
        side != Side::Unspecified,
        !rests(b, id),
        qty > 0,
        sweep(side, price, qty, queue_of(b, other_side(side))).left > 0,
    ensures
        !rests(
            with_queue(
                b,
                other_side(side),
                sweep(side, price, qty, queue_of(b, other_side(side))).queue,
            ),
            id,
        ),
{
    let q = queue_of(b, other_side(side));
    let s = sweep(side, price, qty, q);
    lemma_sweep(side, price, qty, q);
    if has_id(s.queue, id) {
        let j = crate::book::place_of(s.queue, id);
        assert(q[j + s.taken.len()].id == id);
        assert(has_id(q, id));
    }
}

/// A book on which nothing crosses stays that way: an order rests only once
/// nothing opposite is within its limit.
pub proof fn book_never_crossed(
    b: BookV,
    id: u64,
    side: Side,
    price: int,
    qty: int,
    mode: ExecMode,
)
    requires
        book_wf(b),
        all_open(b.bids),
        all_open(b.asks),
        uncrossed(b),
        qty > 0,
    ensures
        uncrossed(matched(b, id, side, price, qty, mode).book),
{
    let q = queue_of(b, other_side(side));
    let s = sweep(side, price, qty, q);
    lemma_sweep(side, price, qty, q);
    lemma_sweep_front(side, price, qty, q);
    let swept = with_queue(b, other_side(side), s.queue);
    assert(uncrossed(swept));
    if mode == ExecMode::Resting && s.left > 0 && side != Side::Unspecified {
        let own = queue_of(b, side);
        let e = EntryV { id, price, open: s.left };
        crate::book::lemma_rank_bounds(side, own, price);
        let k = rank(side, own, price);
        let after = own.insert(k, e);
        if k == 0 {
            assert(after[0] == e);
        } else {
            assert(after[0] == own[0]);
        }
    }
}

/// The front after a sweep is no better than before.
proof fn lemma_sweep_front(taker: Side, limit: int, qty: int, q: Seq<EntryV>)
    requires
        sorted(other_side(taker), q),
    ensures
        ({
            let s = sweep(taker, limit, qty, q);
            s.queue.len() > 0 ==> q.len() > 0 && !better(
                other_side(taker),
                s.queue[0].price,
                q[0].price,
            )
        }),
    decreases q.len(),
{
    if !(qty <= 0 || q.len() == 0 || !crosses(taker, limit, q[0].price)) && q[0].open <= qty {
        let rest = q.drop_first();
        lemma_skip_sorted(other_side(taker), q, 1);
        assert(q.skip(1) =~= rest);
        lemma_sweep_front(taker, limit, qty - q[0].open, rest);
        if rest.len() > 0 {
            assert(rest[0] == q[1]);
            assert(!better(other_side(taker), q[1].price, q[0].price));
        }
    }
}

/// Fill-or-kill is all or nothing: either the whole quantity fills, or
/// nothing does and the book is untouched. It never rests.
pub proof fn fill_or_kill_is_all_or_nothing(
    b: BookV,
    id: u64,
    side: Side,
    price: int,
    qty: int,
)
    requires
        book_wf(b),
        all_open(queue_of(b, other_side(side))),
        qty > 0,
    ensures
        ({
            let m = matched(b, id, side, price, qty, ExecMode::FillOrKill);
            let within_reach = reachable(side, price, queue_of(b, other_side(side))) >= qty;
            &&& within_reach ==> filled(m.fills) == qty
            &&& !within_reach ==> m.fills.len() == 0 && m.book == b
            &&& m.rested is None
        }),
{
    let q = queue_of(b, other_side(side));
    let s = sweep(side, price, qty, q);
    lemma_sweep(side, price, qty, q);
    lemma_filled_is_taken(id, s.taken);
    lemma_side_sorted(b, other_side(side));
    lemma_reachable_suffices(side, price, qty, q);
}

proof fn lemma_side_sorted(b: BookV, side: Side)
    requires
        book_wf(b),
    ensures
        sorted(side, queue_of(b, side)),
{
}

/// Immediate-or-cancel takes what is in reach, up to its quantity, and never
/// rests: its own side of the book is untouched.
pub proof fn immediate_or_cancel_never_rests(
    b: BookV,
    id: u64,
    side: Side,
    price: int,
    qty: int,
)
    requires
        book_wf(b),
        all_open(queue_of(b, other_side(side))),
        qty > 0,
    ensures
        ({
            let m = matched(b, id, side, price, qty, ExecMode::ImmediateOrCancel);
            &&& m.rested is None
            &&& side != Side::Unspecified ==> queue_of(m.book, side) == queue_of(b, side)
            &&& filled(m.fills) == lesser(
                qty,
                reachable(side, price, queue_of(b, other_side(side))),
            )
        }),
{
    let q = queue_of(b, other_side(side));
    let s = sweep(side, price, qty, q);
    lemma_sweep(side, price, qty, q);
    lemma_filled_is_taken(id, s.taken);
    lemma_side_sorted(b, other_side(side));
    lemma_reachable_suffices(side, price, qty, q);
}

/// The fills of a match on a common grid: each on the grid and not negative,
/// together no more than was asked for, each from the next order on the far
/// side that the limit accepts.
pub proof fn lemma_matched_fits(b: BookV, id: u64, side: Side, price: int, qty: int, g: nat)
    requires
        matchable(side, price, queue_of(b, other_side(side)), qty, g),
    ensures
        ({
            let m = matched(b, id, side, price, qty, ExecMode::Resting);
            &&& forall|i: int|
                0 <= i < m.fills.len() ==> on_grid((#[trigger] m.fills[i]).quantity, g)
                    && m.fills[i].quantity >= 0
            &&& filled(m.fills) <= qty
            &&& m.fills.len() <= queue_of(b, other_side(side)).len()
            &&& forall|i: int|
                0 <= i < m.fills.len() ==> (#[trigger] m.fills[i]).maker_id == queue_of(
                    b,
                    other_side(side),
                )[i].id && crosses(side, price, queue_of(b, other_side(side))[i].price)
        }),
{
    let q = queue_of(b, other_side(side));
    lemma_sweep_fits(side, price, qty, q, g);
    let s = sweep(side, price, qty, q);
    lemma_filled_is_taken(id, s.taken);
    let m = matched(b, id, side, price, qty, ExecMode::Resting);
    assert forall|i: int| 0 <= i < m.fills.len() implies (#[trigger] m.fills[i]).maker_id
        == q[i].id && crosses(side, price, q[i].price) by {
        assert(s.taken[i].0 == q[i]);
    }
}

proof fn lemma_sweep_fits(taker: Side, limit: int, qty: int, q: Seq<EntryV>, g: nat)
    requires
        reach_on_grid(taker, limit, q, g),
        amount_fits(qty, g),
    ensures
        ({
            let s = sweep(taker, limit, qty, q);
            &&& forall|i: int|
                0 <= i < s.taken.len() ==> on_grid((#[trigger] s.taken[i]).1, g) && s.taken[i].1
                    >= 0
            &&& taken_total(s.taken) + s.left == qty
            &&& s.left >= 0
            &&& s.taken.len() <= q.len()
            &&& forall|i: int|
                0 <= i < s.taken.len() ==> (#[trigger] s.taken[i]).0 == q[i] && crosses(
                    taker,
                    limit,
                    q[i].price,
                )
        }),
    decreases q.len(),
{
    let s = sweep(taker, limit, qty, q);
    if qty <= 0 || q.len() == 0 || !crosses(taker, limit, q[0].price) {
    } else if q[0].open <= qty {
        assert(matchable(taker, limit, q, qty, g));
        lemma_step_matchable(taker, limit, q, qty, g);
        let rest_q = q.drop_first();
        assert(front_taken(q, qty) =~= rest_q);
        lemma_sweep_fits(taker, limit, qty - q[0].open, rest_q, g);
        let rest = sweep(taker, limit, qty - q[0].open, rest_q);
        assert(s.taken.drop_first() =~= rest.taken);
        assert(amount_fits(q[0].open, g));
        assert forall|i: int| 0 <= i < s.taken.len() implies on_grid((#[trigger] s.taken[i]).1, g)
            && s.taken[i].1 >= 0 && s.taken[i].0 == q[i] && crosses(taker, limit, q[i].price) by {
            if i > 0 {
                assert(s.taken[i] == rest.taken[i - 1]);
                assert(rest_q[i - 1] == q[i]);
            }
        }
    } else {
        assert(taken_total(s.taken.drop_first()) == 0);
    }
}

} // verus!
