//! The state of the exchange as contracts speak of it, and what each
//! operation makes of it.

use crate::book::{
    better, book_wf, canceled, crosses, empty_book, entry_of, front_taken, has_id, inserted, lesser,
    levels_reversed, place_of, queue_of, reachable, resized, rests, side_of, with_queue, BookV,
    EntryV,
};
use crate::gridpool::{pools_wf, with_detail, with_trade, PoolV, SelfTradePolicy};
use crate::market::{aligned, AreaV, Currency, DeliveryPeriod, RulesV};
use crate::matching::{filled, matched, ExecMode, FillV, Matched};
use crate::order::{
    other_side, terminal, DetailV, ExecutionOption, MarketActor, OrderState, OrderType, OrderV,
    Side, StateDetail, StateReason,
};
use crate::proto_conv::{area_wire, instant_wire, period_wire, power_wire, price_wire, WireEnum};
use crate::table::{distinct, holds, slot, stored, value_at};
use crate::text::text_at_most;
use crate::time::{Offset, Timestamp};
use crate::trade::{PublicTradeV, TradeState, TradeV};
use crate::wire;
use vstd::prelude::*;

verus! {

/// Cap on the in-memory public-tape history rings. Older entries are evicted
/// first-in first-out once the cap is reached.
pub const HISTORY_CAP: usize = 10_000;

/// (delivery area, delivery period): the identity of a contract.
pub ghost struct KeyV {
    pub area: AreaV,
    pub period: DeliveryPeriod,
}

/// One coupling edge.
pub ghost struct CouplingV {
    pub gate_offset: Offset,
    pub capacity_mw: Option<int>,
}

/// What is to be sent on: order updates and trades to their gridpools,
/// public trades and book records to everybody.
pub ghost struct OutboxV {
    pub orders: Seq<(u64, DetailV)>,
    pub trades: Seq<(u64, TradeV)>,
    pub public_trades: Seq<PublicTradeV>,
    pub book_records: Seq<wire::RecordV>,
}

/// The state of the exchange.
pub ghost struct WorldV {
    pub markets: Seq<(AreaV, RulesV)>,
    pub gridpools: Seq<(u64, PoolV)>,
    pub couplings: Seq<(AreaV, Seq<(AreaV, CouplingV)>)>,
    pub flows: Seq<((AreaV, AreaV, DeliveryPeriod), int)>,
    pub books: Seq<(KeyV, BookV)>,
    pub owners: Map<u64, u64>,
    pub first_seen: Map<u64, Timestamp>,
    pub next_order_id: u64,
    pub next_trade_id: u64,
    pub suspended: bool,
    pub trade_history: Seq<PublicTradeV>,
    pub book_history: Seq<wire::RecordV>,
    pub outbox: OutboxV,
}

/// Each table has a key at most once, no area is coupled with itself, every
/// price tick and quantity step is positive, and every book and gridpool is
/// well-formed.
pub open spec fn world_wf(w: WorldV) -> bool {
    &&& distinct(w.markets)
    &&& forall|i: int|
        0 <= i < w.markets.len() ==> (#[trigger] w.markets[i]).1.price_tick > 0
            && w.markets[i].1.qty_step > 0
    &&& pools_wf(w.gridpools)
    &&& distinct(w.couplings)
    &&& forall|i: int|
        0 <= i < w.couplings.len() ==> distinct((#[trigger] w.couplings[i]).1) && !holds(
            w.couplings[i].1,
            w.couplings[i].0,
        )
    &&& distinct(w.flows)
    &&& books_wf(w.books)
}

/// Each contract has one book, and every book is well-formed.
pub open spec fn books_wf(books: Seq<(KeyV, BookV)>) -> bool {
    &&& distinct(books)
    &&& forall|i: int| 0 <= i < books.len() ==> book_wf((#[trigger] books[i]).1)
}

/// Whoever an order is bound to is a registered gridpool.
pub open spec fn owners_known(w: WorldV) -> bool {
    forall|id: u64| #[trigger]
        w.owners.contains_key(id) ==> holds(w.gridpools, w.owners[id])
}

/// Why an order can be rejected.
#[derive(Clone, Copy, Debug, PartialEq, Eq, Structural)]
pub enum SubmitError {
    UnknownGridpool,
    UnknownArea,
    AreaNotAllowedForGridpool,
    UnsupportedDurationForMarket,
    UnalignedDeliveryPeriod,
    /// Submitted at or after gate closure, the start of the delivery period.
    GateClosed,
    /// Market is suspended. All submissions reject until it is resumed.
    SuspendedMarket,
    PriceOffGrid,
    NonPositivePrice,
    QuantityOffGrid,
    NonPositiveQuantity,
    CurrencyMismatch,
    /// Only LIMIT orders trade.
    UnsupportedOrderType(OrderType),
    /// All-or-none does not trade, nor does a restriction with an expiry.
    UnsupportedExecutionOption(ExecutionOption),
    /// Cancel / modify: id isn't on the gridpool at all.
    OrderNotFound,
    /// Cancel / modify: id is on the gridpool but already in a terminal state.
    OrderAlreadyTerminal,
    /// Modify: the new quantity is below the already-filled amount.
    ModifyQuantityBelowFilled,
    /// Self-trade prevention: a resting order that the incoming order would
    /// consume belongs to the same gridpool.
    SelfTradeRejected,
    /// An order is to buy or to sell.
    UnspecifiedSide,
    /// The order's validity has run out before it is admitted.
    ValidityElapsed,
}

// ---------------------------------------------------------------------------
// Couplings
// ---------------------------------------------------------------------------

/// The two areas with the lexically smaller code first.
pub open spec fn canonical(a: AreaV, b: AreaV) -> (AreaV, AreaV) {
    if text_at_most(a.code, b.code) {
        (a, b)
    } else {
        (b, a)
    }
}

/// The areas coupled with `area`, in the order they were coupled.
pub open spec fn coupled(w: WorldV, area: AreaV) -> Seq<(AreaV, CouplingV)> {
    if holds(w.couplings, area) {
        value_at(w.couplings, area)
    } else {
        Seq::empty()
    }
}

/// One direction of a coupling added.
pub open spec fn half_coupled(
    couplings: Seq<(AreaV, Seq<(AreaV, CouplingV)>)>,
    a: AreaV,
    b: AreaV,
    c: CouplingV,
) -> Seq<(AreaV, Seq<(AreaV, CouplingV)>)> {
    let row = if holds(couplings, a) {
        value_at(couplings, a)
    } else {
        Seq::empty()
    };
    stored(couplings, a, stored(row, b, c))
}

/// The couplings after `a` and `b` were coupled; an area is not coupled with
/// itself.
pub open spec fn couplings_with(
    couplings: Seq<(AreaV, Seq<(AreaV, CouplingV)>)>,
    a: AreaV,
    b: AreaV,
    c: CouplingV,
) -> Seq<(AreaV, Seq<(AreaV, CouplingV)>)> {
    if a == b {
        couplings
    } else {
        half_coupled(half_coupled(couplings, a, b, c), b, a, c)
    }
}

/// The number of coupling directions of the first `n` areas.
pub open spec fn directions(
    couplings: Seq<(AreaV, Seq<(AreaV, CouplingV)>)>,
    n: nat,
) -> nat
    decreases n,
{
    if n == 0 {
        0
    } else {
        directions(couplings, (n - 1) as nat) + couplings[n - 1].1.len()
    }
}

/// What has crossed the edge between `a` and `b` for a delivery period.
pub open spec fn flow(w: WorldV, a: AreaV, b: AreaV, period: DeliveryPeriod) -> int {
    let (lo, hi) = canonical(a, b);
    if holds(w.flows, (lo, hi, period)) {
        value_at(w.flows, (lo, hi, period))
    } else {
        0
    }
}

/// The cap of the edge from `a` to `b`, if it is coupled and capped.
pub open spec fn capacity(w: WorldV, a: AreaV, b: AreaV) -> Option<int> {
    if holds(coupled(w, a), b) {
        value_at(coupled(w, a), b).capacity_mw
    } else {
        None
    }
}

/// What may still cross the edge, if it is capped: never less than nothing.
pub open spec fn capacity_left(w: WorldV, a: AreaV, b: AreaV, period: DeliveryPeriod) -> Option<
    int,
> {
    match capacity(w, a, b) {
        None => None,
        Some(cap) => {
            let left = cap - flow(w, a, b, period);
            Some(
                if left < 0 {
                    0
                } else {
                    left
                },
            )
        },
    }
}

/// The flows after `mw` more crossed the edge between `a` and `b`.
pub open spec fn flows_with(
    w: WorldV,
    a: AreaV,
    b: AreaV,
    period: DeliveryPeriod,
    mw: int,
) -> Seq<((AreaV, AreaV, DeliveryPeriod), int)> {
    let (lo, hi) = canonical(a, b);
    stored(w.flows, (lo, hi, period), flow(w, a, b, period) + mw)
}

/// An offset past what a signed count of milliseconds can hold is no offset.
pub open spec fn effective_offset(o: Offset) -> int {
    if o.secs > 9_223_372_036_854_775 || (o.secs == 9_223_372_036_854_775 && o.nanos
        > 807_000_000) {
        0
    } else {
        o.length()
    }
}

/// A coupling's gate is closed for a delivery that starts at `start`.
pub open spec fn gate_closed(c: CouplingV, start: Timestamp, now: Timestamp) -> bool {
    c.gate_offset.length() > 0 && now.instant() + effective_offset(c.gate_offset)
        >= start.instant()
}

/// An order on `key` may trade across this coupling: its gate is open and
/// its capacity not used up.
pub open spec fn edge_open(w: WorldV, key: KeyV, other: AreaV, c: CouplingV, now: Timestamp) -> bool {
    &&& !gate_closed(c, key.period.start, now)
    &&& (capacity_left(w, key.area, other, key.period) matches Some(left) ==> left > 0)
}

/// The contracts of the first `n` coupled areas that are open to `key`.
pub open spec fn open_neighbours(w: WorldV, key: KeyV, now: Timestamp, n: nat) -> Seq<KeyV>
    decreases n,
{
    if n == 0 {
        Seq::empty()
    } else {
        let before = open_neighbours(w, key, now, (n - 1) as nat);
        let edge = coupled(w, key.area)[n - 1];
        if edge_open(w, key, edge.0, edge.1, now) {
            before.push(KeyV { area: edge.0, period: key.period })
        } else {
            before
        }
    }
}

/// The contracts an order on `key` may match against: its own, and those of
/// every coupled area that is open to it.
pub open spec fn candidates(w: WorldV, key: KeyV, now: Timestamp) -> Seq<KeyV> {
    seq![key] + open_neighbours(w, key, now, coupled(w, key.area).len())
}

// ---------------------------------------------------------------------------
// Matching across books
// ---------------------------------------------------------------------------

/// The book of a contract; a contract nobody traded yet has an empty one.
pub open spec fn book_at(books: Seq<(KeyV, BookV)>, key: KeyV) -> BookV {
    if holds(books, key) {
        value_at(books, key)
    } else {
        empty_book()
    }
}

/// The queue a taker on `side` trades against on this contract.
pub open spec fn opposite(books: Seq<(KeyV, BookV)>, key: KeyV, side: Side) -> Seq<EntryV> {
    queue_of(book_at(books, key), other_side(side))
}

/// The contract's best opposite order is within the limit.
pub open spec fn offers(books: Seq<(KeyV, BookV)>, key: KeyV, side: Side, limit: int) -> bool {
    let q = opposite(books, key, side);
    q.len() > 0 && crosses(side, limit, q[0].price)
}

/// Of the contracts that offer anything within the limit, the one with the
/// best price, the first among equals.
pub open spec fn best_offer(
    books: Seq<(KeyV, BookV)>,
    keys: Seq<KeyV>,
    side: Side,
    limit: int,
) -> Option<int>
    decreases keys.len(),
{
    if keys.len() == 0 {
        None
    } else {
        let before = best_offer(books, keys.drop_last(), side, limit);
        let last = keys.len() - 1;
        if !offers(books, keys[last], side, limit) {
            before
        } else {
            match before {
                None => Some(last),
                Some(i) => if better(
                    other_side(side),
                    opposite(books, keys[last], side)[0].price,
                    opposite(books, keys[i], side)[0].price,
                ) {
                    Some(last)
                } else {
                    Some(i)
                },
            }
        }
    }
}

/// One take of a sweep across books.
pub ghost struct Take {
    pub key: KeyV,
    pub entry: EntryV,
    pub quantity: int,
}

/// What a sweep across books comes to.
pub ghost struct Swept {
    pub books: Seq<(KeyV, BookV)>,
    pub takes: Seq<Take>,
    pub left: int,
}

/// The number of orders on one side of all the books.
pub open spec fn resting_count(books: Seq<(KeyV, BookV)>, side: Side) -> nat
    decreases books.len(),
{
    if books.len() == 0 {
        0
    } else {
        queue_of(books.last().1, side).len() + resting_count(books.drop_last(), side)
    }
}

pub proof fn lemma_resting_count_update(
    books: Seq<(KeyV, BookV)>,
    i: int,
    row: (KeyV, BookV),
    side: Side,
)
    requires
        0 <= i < books.len(),
    ensures
        resting_count(books.update(i, row), side) + queue_of(books[i].1, side).len()
            == resting_count(books, side) + queue_of(row.1, side).len(),
    decreases books.len(),
{
    let after = books.update(i, row);
    if i == books.len() - 1 {
        assert(after.drop_last() =~= books.drop_last());
    } else {
        assert(after.drop_last() =~= books.drop_last().update(i, row));
        assert(after.last() == books.last());
        lemma_resting_count_update(books.drop_last(), i, row, side);
    }
}

/// The books after up to `qty` was taken from the front of one opposite
/// queue.
pub open spec fn books_taken(
    books: Seq<(KeyV, BookV)>,
    key: KeyV,
    side: Side,
    qty: int,
) -> Seq<(KeyV, BookV)> {
    let b = value_at(books, key);
    stored(
        books,
        key,
        with_queue(b, other_side(side), front_taken(queue_of(b, other_side(side)), qty)),
    )
}

/// Sweep the books: while quantity is left and some contract offers anything
/// within the limit, take from the front of the best one.
pub open spec fn swept(
    books: Seq<(KeyV, BookV)>,
    keys: Seq<KeyV>,
    side: Side,
    limit: int,
    qty: int,
) -> Swept
    decreases resting_count(books, other_side(side)),
{
    match best_offer(books, keys, side, limit) {
        None => Swept { books, takes: Seq::empty(), left: qty },
        Some(i) => if qty <= 0 || !(0 <= i < keys.len()) || !offers(books, keys[i], side, limit) {
            Swept { books, takes: Seq::empty(), left: qty }
        } else {
            let key = keys[i];
            let e = opposite(books, key, side)[0];
            let after = books_taken(books, key, side, qty);
            let take = Take { key, entry: e, quantity: lesser(qty, e.open) };
            if e.open <= qty {
                proof {
                    let s = slot(books, key);
                    lemma_resting_count_update(books, s, after[s], other_side(side));
                }
                let rest = swept(after, keys, side, limit, qty - e.open);
                Swept { books: rest.books, takes: seq![take] + rest.takes, left: rest.left }
            } else {
                Swept { books: after, takes: seq![take], left: 0 }
            }
        },
    }
}

/// The open quantity a taker with this limit can reach over all candidates.
pub open spec fn reachable_across(
    books: Seq<(KeyV, BookV)>,
    keys: Seq<KeyV>,
    side: Side,
    limit: int,
) -> int
    decreases keys.len(),
{
    if keys.len() == 0 {
        0
    } else {
        reachable_across(books, keys.drop_last(), side, limit) + reachable(
            side,
            limit,
            opposite(books, keys.last(), side),
        )
    }
}

// ---------------------------------------------------------------------------
// The public tapes
// ---------------------------------------------------------------------------

/// A history ring after one more event: the oldest gives way at the cap.
pub open spec fn ring_with<T>(history: Seq<T>, event: T) -> Seq<T> {
    if history.len() >= HISTORY_CAP {
        history.drop_first().push(event)
    } else {
        history.push(event)
    }
}

/// A change of one resting order.
pub ghost struct BookEvent {
    pub id: u64,
    pub side: Side,
    pub key: KeyV,
    pub price: int,
    pub open: int,
    pub currency: Currency,
}

/// The record that the public book stream shows for a change.
pub open spec fn book_record(e: BookEvent, created: Timestamp, now: Timestamp) -> wire::RecordV {
    wire::RecordV {
        id: e.id,
        delivery_area: Some(area_wire(e.key.area)),
        delivery_period: Some(period_wire(e.key.period)),
        order_type: None,
        side: e.side.number(),
        price: Some(price_wire(e.price, e.currency)),
        quantity: Some(power_wire(e.open)),
        execution_option: None,
        create_time: Some(instant_wire(created)),
        update_time: Some(instant_wire(now)),
    }
}

/// When the order was first seen on a book: now, if it is new.
pub open spec fn created_at(w: WorldV, id: u64, now: Timestamp) -> Timestamp {
    if w.first_seen.contains_key(id) {
        w.first_seen[id]
    } else {
        now
    }
}

/// The state after a change of a resting order went onto the public book
/// stream. An order with nothing open is forgotten.
pub open spec fn emitted(w: WorldV, e: BookEvent, now: Timestamp) -> WorldV {
    let created = created_at(w, e.id, now);
    let record = book_record(e, created, now);
    WorldV {
        first_seen: if e.open == 0 {
            w.first_seen.remove(e.id)
        } else {
            w.first_seen.insert(e.id, created)
        },
        book_history: ring_with(w.book_history, record),
        outbox: OutboxV { book_records: w.outbox.book_records.push(record), ..w.outbox },
        ..w
    }
}

/// The state after an order update was put into the outbox.
pub open spec fn order_published(w: WorldV, pool: u64, d: DetailV) -> WorldV {
    WorldV { outbox: OutboxV { orders: w.outbox.orders.push((pool, d)), ..w.outbox }, ..w }
}

/// The state after a trade was filed with a gridpool and put into the outbox.
pub open spec fn pool_traded(w: WorldV, pool: u64, t: TradeV) -> WorldV {
    WorldV {
        gridpools: stored(w.gridpools, pool, with_trade(value_at(w.gridpools, pool), t)),
        outbox: OutboxV { trades: w.outbox.trades.push((pool, t)), ..w.outbox },
        ..w
    }
}

/// The state after a trade went onto the public tape.
pub open spec fn public_traded(w: WorldV, t: PublicTradeV) -> WorldV {
    WorldV {
        trade_history: ring_with(w.trade_history, t),
        outbox: OutboxV { public_trades: w.outbox.public_trades.push(t), ..w.outbox },
        ..w
    }
}

/// The records of a book's orders: the bids from the lowest price up, then
/// the asks, the first `n` of them.
pub open spec fn book_snapshot(w: WorldV, key: KeyV, b: BookV, now: Timestamp, n: nat) -> Seq<
    wire::RecordV,
>
    decreases n,
{
    if n == 0 {
        Seq::empty()
    } else {
        let up = levels_reversed(b.bids);
        let i = n - 1;
        let (e, side) = if i < up.len() {
            (up[i], Side::Buy)
        } else {
            (b.asks[i - up.len()], Side::Sell)
        };
        book_snapshot(w, key, b, now, (n - 1) as nat).push(
            book_record(
                BookEvent {
                    id: e.id,
                    side,
                    key,
                    price: e.price,
                    open: e.open,
                    currency: Currency::Eur,
                },
                created_at(w, e.id, now),
                now,
            ),
        )
    }
}

/// The records of every order on those of the first `n` books whose gate is
/// still open.
pub open spec fn snapshot(w: WorldV, now: Timestamp, n: nat) -> Seq<wire::RecordV>
    decreases n,
{
    if n == 0 {
        Seq::empty()
    } else {
        let before = snapshot(w, now, (n - 1) as nat);
        let (key, b) = w.books[n - 1];
        if key.period.start.at_or_earlier(now) {
            before
        } else {
            before + book_snapshot(
                w,
                key,
                b,
                now,
                levels_reversed(b.bids).len() + b.asks.len(),
            )
        }
    }
}

// ---------------------------------------------------------------------------
// Matching with its traces
// ---------------------------------------------------------------------------

/// The order is on this gridpool.
pub open spec fn on_pool(w: WorldV, pool: u64, id: u64) -> bool {
    holds(w.gridpools, pool) && holds(value_at(w.gridpools, pool).orders, id)
}

/// The order on a gridpool.
pub open spec fn detail_at(w: WorldV, pool: u64, id: u64) -> DetailV {
    value_at(value_at(w.gridpools, pool).orders, id)
}

/// The state with this detail on a gridpool.
pub open spec fn detail_put(w: WorldV, pool: u64, d: DetailV) -> WorldV {
    WorldV {
        gridpools: stored(w.gridpools, pool, with_detail(value_at(w.gridpools, pool), d)),
        ..w
    }
}

/// Who takes.
pub ghost struct Taker {
    pub id: u64,
    pub side: Side,
    pub currency: Currency,
    pub key: KeyV,
}

/// The traces of one take on the book stream and on the edge it crossed: the
/// maker's order changed, and a take from another area uses up capacity.
pub open spec fn take_traced(w: WorldV, taker: Taker, t: Take, now: Timestamp) -> WorldV {
    let debited = if t.key.area != taker.key.area {
        WorldV {
            flows: flows_with(w, taker.key.area, t.key.area, taker.key.period, t.quantity),
            ..w
        }
    } else {
        w
    };
    emitted(
        debited,
        BookEvent {
            id: t.entry.id,
            side: other_side(taker.side),
            key: t.key,
            price: t.entry.price,
            open: t.entry.open - t.quantity,
            currency: taker.currency,
        },
        now,
    )
}

/// The traces of a run of takes, in order.
pub open spec fn takes_traced(w: WorldV, taker: Taker, takes: Seq<Take>, now: Timestamp) -> WorldV
    decreases takes.len(),
{
    if takes.len() == 0 {
        w
    } else {
        take_traced(takes_traced(w, taker, takes.drop_last(), now), taker, takes.last(), now)
    }
}

/// What matching an order across its candidate books comes to.
pub ghost struct Crossed {
    pub world: WorldV,
    pub takes: Seq<Take>,
    pub rested: Option<int>,
}

/// A fill-or-kill order does nothing unless its whole quantity is within
/// reach over all candidates. Any other order sweeps them; a resting one then
/// puts what is left on its own contract's book.
pub open spec fn crossed(
    w: WorldV,
    taker: Taker,
    price: int,
    qty: int,
    mode: ExecMode,
    now: Timestamp,
) -> Crossed {
    let keys = candidates(w, taker.key, now);
    if mode == ExecMode::FillOrKill && reachable_across(w.books, keys, taker.side, price) < qty {
        Crossed { world: w, takes: Seq::empty(), rested: None }
    } else {
        let s = swept(w.books, keys, taker.side, price, qty);
        let traced = WorldV { books: s.books, ..takes_traced(w, taker, s.takes, now) };
        if mode == ExecMode::Resting && s.left > 0 {
            let e = EntryV { id: taker.id, price, open: s.left };
            let rested = WorldV {
                books: stored(
                    s.books,
                    taker.key,
                    inserted(book_at(s.books, taker.key), taker.side, e),
                ),
                ..traced
            };
            Crossed {
                world: emitted(
                    rested,
                    BookEvent {
                        id: taker.id,
                        side: taker.side,
                        key: taker.key,
                        price,
                        open: s.left,
                        currency: taker.currency,
                    },
                    now,
                ),
                takes: s.takes,
                rested: Some(s.left),
            }
        } else {
            Crossed { world: traced, takes: s.takes, rested: None }
        }
    }
}

/// The trade one side sees of a fill.
pub open spec fn trade_of_fill(
    id: u64,
    order_id: u64,
    side: Side,
    area: AreaV,
    f: FillV,
    taker: Taker,
    now: Timestamp,
) -> TradeV {
    TradeV {
        id,
        order_id,
        side,
        area,
        period: taker.key.period,
        execution_time: now,
        price: f.price,
        currency: taker.currency,
        quantity: f.quantity,
        state: TradeState::Active,
    }
}

/// The trade everybody sees of a fill.
pub open spec fn public_trade_of_fill(
    id: u64,
    maker_area: AreaV,
    f: FillV,
    taker: Taker,
    now: Timestamp,
) -> PublicTradeV {
    PublicTradeV {
        id,
        buy_area: if taker.side == Side::Sell {
            maker_area
        } else {
            taker.key.area
        },
        sell_area: if taker.side == Side::Sell {
            taker.key.area
        } else {
            maker_area
        },
        period: taker.key.period,
        execution_time: now,
        price: f.price,
        currency: taker.currency,
        quantity: f.quantity,
        state: TradeState::Active,
    }
}

/// A maker's order after part of it, or the rest of it, was filled.
pub open spec fn maker_filled(d: DetailV, quantity: int, now: Timestamp) -> DetailV {
    let open = d.open_quantity - quantity;
    DetailV {
        filled_quantity: d.filled_quantity + quantity,
        open_quantity: open,
        modification_time: now,
        state: if open == 0 {
            StateDetail {
                state: OrderState::Filled,
                reason: StateReason::FullExecution,
                actor: MarketActor::System,
            }
        } else {
            StateDetail {
                reason: StateReason::PartialExecution,
                actor: MarketActor::System,
                ..d.state
            }
        },
        ..d
    }
}

/// The trades of one fill: each gridpool involved gets its side, the public
/// tape gets one event, all under one trade id.
pub open spec fn fill_traded(
    w: WorldV,
    f: FillV,
    maker_area: AreaV,
    taker: Taker,
    pool: Option<u64>,
    now: Timestamp,
) -> WorldV {
    let id = w.next_trade_id;
    let w1 = WorldV { next_trade_id: (id + 1) as u64, ..w };
    let w2 = match pool {
        Some(pool) => pool_traded(
            w1,
            pool,
            trade_of_fill(id, taker.id, taker.side, taker.key.area, f, taker, now),
        ),
        None => w1,
    };
    let w3 = if w.owners.contains_key(f.maker_id) {
        pool_traded(
            w2,
            w.owners[f.maker_id],
            trade_of_fill(id, f.maker_id, other_side(taker.side), maker_area, f, taker, now),
        )
    } else {
        w2
    };
    public_traded(w3, public_trade_of_fill(id, maker_area, f, taker, now))
}

/// The maker's order after one fill: it is updated and its owner told; once
/// nothing of it is open it is no longer bound to its owner.
pub open spec fn maker_updated(w: WorldV, f: FillV, now: Timestamp) -> WorldV {
    if w.owners.contains_key(f.maker_id) && on_pool(w, w.owners[f.maker_id], f.maker_id) {
        let pool = w.owners[f.maker_id];
        let d = maker_filled(detail_at(w, pool, f.maker_id), f.quantity, now);
        let put = detail_put(w, pool, d);
        let unbound = WorldV {
            owners: if d.open_quantity == 0 {
                put.owners.remove(f.maker_id)
            } else {
                put.owners
            },
            ..put
        };
        order_published(unbound, pool, d)
    } else {
        w
    }
}

/// The state after one fill was recorded.
pub open spec fn fill_recorded(
    w: WorldV,
    f: FillV,
    maker_area: AreaV,
    taker: Taker,
    pool: Option<u64>,
    now: Timestamp,
) -> WorldV {
    maker_updated(fill_traded(w, f, maker_area, taker, pool, now), f, now)
}

/// The fill of a take.
pub open spec fn fill_of(taker_id: u64, t: Take) -> FillV {
    FillV { taker_id, maker_id: t.entry.id, price: t.entry.price, quantity: t.quantity }
}

/// The state after the fills of a run of takes were recorded, in order.
pub open spec fn takes_recorded(
    w: WorldV,
    taker: Taker,
    pool: Option<u64>,
    takes: Seq<Take>,
    now: Timestamp,
) -> WorldV
    decreases takes.len(),
{
    if takes.len() == 0 {
        w
    } else {
        let t = takes.last();
        fill_recorded(
            takes_recorded(w, taker, pool, takes.drop_last(), now),
            fill_of(taker.id, t),
            t.key.area,
            taker,
            pool,
            now,
        )
    }
}

/// The sum of the quantities taken.
pub open spec fn take_total(takes: Seq<Take>) -> int
    decreases takes.len(),
{
    if takes.len() == 0 {
        0
    } else {
        take_total(takes.drop_last()) + takes.last().quantity
    }
}

// ---------------------------------------------------------------------------
// Submitting
// ---------------------------------------------------------------------------

/// The first rule of its market that an order breaks, if any.
pub open spec fn market_objection(w: WorldV, o: OrderV, now: Timestamp) -> Option<SubmitError> {
    if w.suspended {
        Some(SubmitError::SuspendedMarket)
    } else if !holds(w.markets, o.area) {
        Some(SubmitError::UnknownArea)
    } else {
        let rules = value_at(w.markets, o.area);
        if o.period.start.at_or_earlier(now) {
            Some(SubmitError::GateClosed)
        } else if o.order_type != OrderType::Limit {
            Some(SubmitError::UnsupportedOrderType(o.order_type))
        } else if o.currency != rules.currency {
            Some(SubmitError::CurrencyMismatch)
        } else if !rules.durations.contains(o.period.duration) {
            Some(SubmitError::UnsupportedDurationForMarket)
        } else if !aligned(o.period) {
            Some(SubmitError::UnalignedDeliveryPeriod)
        } else if o.price % rules.price_tick != 0 {
            Some(SubmitError::PriceOffGrid)
        } else if o.quantity <= 0 {
            Some(SubmitError::NonPositiveQuantity)
        } else if o.quantity % rules.qty_step != 0 {
            Some(SubmitError::QuantityOffGrid)
        } else if o.side == Side::Unspecified {
            Some(SubmitError::UnspecifiedSide)
        } else if lapsed_before(o.valid_until, now) {
            Some(SubmitError::ValidityElapsed)
        } else {
            None
        }
    }
}

/// A validity that does not reach past `now`.
pub open spec fn lapsed_before(valid_until: Option<Timestamp>, now: Timestamp) -> bool {
    valid_until matches Some(t) && t.at_or_earlier(now)
}

/// The contract an order is for.
pub open spec fn key_of(o: OrderV) -> KeyV {
    KeyV { area: o.area, period: o.period }
}

/// The first rule that an order of a gridpool breaks, self-trades aside.
pub open spec fn objection(w: WorldV, pool: u64, o: OrderV, now: Timestamp) -> Option<SubmitError> {
    if !holds(w.gridpools, pool) {
        Some(SubmitError::UnknownGridpool)
    } else if !value_at(w.gridpools, pool).areas.contains(o.area) {
        Some(SubmitError::AreaNotAllowedForGridpool)
    } else {
        match market_objection(w, o, now) {
            Some(e) => Some(e),
            None => match o.execution_option {
                Some(ExecutionOption::Aon) => Some(
                    SubmitError::UnsupportedExecutionOption(ExecutionOption::Aon),
                ),
                Some(option) => if o.valid_until is Some {
                    Some(SubmitError::UnsupportedExecutionOption(option))
                } else {
                    None
                },
                None => None,
            },
        }
    }
}

/// One of the orders that the matcher would take from belongs to the pool.
pub open spec fn takes_from_pool(w: WorldV, takes: Seq<Take>, pool: u64) -> bool {
    exists|i: int|
        0 <= i < takes.len() && w.owners.contains_key((#[trigger] takes[i]).entry.id)
            && w.owners[takes[i].entry.id] == pool
}

/// Matching this order would fill it against its own gridpool.
pub open spec fn self_trade(w: WorldV, pool: u64, o: OrderV, now: Timestamp) -> bool {
    takes_from_pool(
        w,
        swept(w.books, candidates(w, key_of(o), now), o.side, o.price, o.quantity).takes,
        pool,
    )
}

/// Why a gridpool's order is rejected, if it is.
pub open spec fn rejection(w: WorldV, pool: u64, o: OrderV, now: Timestamp) -> Option<SubmitError> {
    match objection(w, pool, o, now) {
        Some(e) => Some(e),
        None => if value_at(w.gridpools, pool).self_trade_policy == SelfTradePolicy::Reject
            && self_trade(w, pool, o, now) {
            Some(SubmitError::SelfTradeRejected)
        } else {
            None
        },
    }
}

/// How the matcher treats what does not match at once.
pub open spec fn mode_of(option: Option<ExecutionOption>) -> ExecMode {
    match option {
        Some(ExecutionOption::Fok) => ExecMode::FillOrKill,
        Some(ExecutionOption::Ioc) => ExecMode::ImmediateOrCancel,
        _ => ExecMode::Resting,
    }
}

/// What admitting an order comes to.
pub ghost struct Admitted {
    pub world: WorldV,
    pub taker: Taker,
    pub takes: Seq<Take>,
    pub rested: Option<int>,
}

/// An admitted order gets the next id, is matched, and its fills recorded.
pub open spec fn admitted(w: WorldV, o: OrderV, pool: Option<u64>, now: Timestamp) -> Admitted {
    let taker = Taker {
        id: w.next_order_id,
        side: o.side,
        currency: o.currency,
        key: key_of(o),
    };
    let numbered = WorldV { next_order_id: (w.next_order_id + 1) as u64, ..w };
    let c = crossed(numbered, taker, o.price, o.quantity, mode_of(o.execution_option), now);
    Admitted {
        world: takes_recorded(c.world, taker, pool, c.takes, now),
        taker,
        takes: c.takes,
        rested: c.rested,
    }
}

/// The state of an order right after it was matched.
pub open spec fn state_after(mode: ExecMode, rested: bool, filled: int, open: int) -> StateDetail {
    let (state, reason) = if rested {
        if filled == 0 {
            (OrderState::Active, StateReason::Add)
        } else {
            (OrderState::Active, StateReason::PartialExecution)
        }
    } else if filled != 0 && open == 0 {
        (OrderState::Filled, StateReason::FullExecution)
    } else if mode != ExecMode::Resting && filled == 0 {
        (OrderState::Canceled, StateReason::Reject)
    } else if mode == ExecMode::ImmediateOrCancel {
        (OrderState::Canceled, StateReason::PartialExecution)
    } else {
        (OrderState::Failed, StateReason::Reject)
    };
    StateDetail { state, reason, actor: MarketActor::User }
}

/// The order detail of a freshly matched order.
pub open spec fn fresh_detail(a: Admitted, o: OrderV, now: Timestamp) -> DetailV {
    let filled = take_total(a.takes);
    DetailV {
        id: a.taker.id,
        order: o,
        state: state_after(
            mode_of(o.execution_option),
            a.rested is Some,
            filled,
            o.quantity - filled,
        ),
        open_quantity: o.quantity - filled,
        filled_quantity: filled,
        create_time: now,
        modification_time: now,
    }
}

/// The state after an order of a gridpool was admitted: its detail is filed
/// unless the id was taken, it is bound to the pool if it rests, and the pool
/// is told.
pub open spec fn submitted(w: WorldV, pool: u64, o: OrderV, now: Timestamp) -> WorldV {
    let a = admitted(w, o, Some(pool), now);
    let d = fresh_detail(a, o, now);
    let filed = if on_pool(a.world, pool, d.id) {
        a.world
    } else {
        detail_put(a.world, pool, d)
    };
    let bound = if a.rested is Some {
        WorldV { owners: filed.owners.insert(d.id, pool), ..filed }
    } else {
        filed
    };
    order_published(bound, pool, d)
}

// ---------------------------------------------------------------------------
// Canceling
// ---------------------------------------------------------------------------

/// The first of the books, from `from` on, that the order rests on.
pub open spec fn book_with(books: Seq<(KeyV, BookV)>, id: u64, from: int) -> Option<int>
    decreases books.len() - from,
{
    if !(0 <= from < books.len()) {
        None
    } else if rests(books[from].1, id) {
        Some(from)
    } else {
        book_with(books, id, from + 1)
    }
}

/// The books after an order left the `i`-th of them.
pub open spec fn books_without(books: Seq<(KeyV, BookV)>, i: int, id: u64) -> Seq<(KeyV, BookV)> {
    books.update(i, (books[i].0, canceled(books[i].1, id)))
}

/// The event of an order that left a book.
pub open spec fn gone(key: KeyV, b: BookV, id: u64, currency: Currency) -> BookEvent {
    BookEvent {
        id,
        side: side_of(b, id),
        key,
        price: entry_of(b, id).price,
        open: 0,
        currency,
    }
}

/// Why an order cannot be canceled, if it cannot.
pub open spec fn cancel_objection(w: WorldV, pool: u64, id: u64) -> Option<SubmitError> {
    if !holds(w.gridpools, pool) {
        Some(SubmitError::UnknownGridpool)
    } else if !on_pool(w, pool, id) {
        Some(SubmitError::OrderNotFound)
    } else if terminal(detail_at(w, pool, id).state.state) {
        Some(SubmitError::OrderAlreadyTerminal)
    } else {
        None
    }
}

/// A canceled order.
pub open spec fn detail_canceled(d: DetailV, actor: MarketActor, now: Timestamp) -> DetailV {
    DetailV {
        state: StateDetail {
            state: OrderState::Canceled,
            reason: StateReason::Delete,
            actor,
        },
        modification_time: now,
        ..d
    }
}

/// The order is bound to this gridpool.
pub open spec fn bound_to(w: WorldV, id: u64, pool: u64) -> bool {
    w.owners.contains_key(id) && w.owners[id] == pool
}

/// The state after an order was canceled: if it was bound to its gridpool it
/// leaves its book and its binding; its owner is told, then the book stream.
pub open spec fn order_canceled(
    w: WorldV,
    pool: u64,
    id: u64,
    actor: MarketActor,
    now: Timestamp,
) -> WorldV {
    let d = detail_at(w, pool, id);
    let after = detail_canceled(d, actor, now);
    let at = if bound_to(w, id, pool) {
        book_with(w.books, id, 0)
    } else {
        None
    };
    let w1 = if bound_to(w, id, pool) {
        WorldV { owners: w.owners.remove(id), ..w }
    } else {
        w
    };
    let w2 = match at {
        Some(i) => WorldV { books: books_without(w1.books, i, id), ..w1 },
        None => w1,
    };
    let w3 = order_published(detail_put(w2, pool, after), pool, after);
    match at {
        Some(i) => emitted(w3, gone(w.books[i].0, w.books[i].1, id, d.order.currency), now),
        None => w3,
    }
}

/// The first gridpool, from `from` on, that the order is on.
pub open spec fn pool_with(pools: Seq<(u64, PoolV)>, id: u64, from: int) -> Option<u64>
    decreases pools.len() - from,
{
    if !(0 <= from < pools.len()) {
        None
    } else if holds(pools[from].1.orders, id) {
        Some(pools[from].0)
    } else {
        pool_with(pools, id, from + 1)
    }
}

/// The gridpool an order belongs to: the one it is bound to, else the first
/// that has it.
pub open spec fn pool_of(w: WorldV, id: u64) -> Option<u64> {
    if w.owners.contains_key(id) {
        Some(w.owners[id])
    } else {
        pool_with(w.gridpools, id, 0)
    }
}

/// The state after a counterparty's order was canceled: it leaves the first
/// book it rests on, and any binding it had.
pub open spec fn counterparty_canceled(w: WorldV, id: u64, now: Timestamp) -> WorldV {
    let unbound = WorldV { owners: w.owners.remove(id), ..w };
    match book_with(w.books, id, 0) {
        Some(i) => emitted(
            WorldV { books: books_without(w.books, i, id), ..unbound },
            gone(w.books[i].0, w.books[i].1, id, Currency::Eur),
            now,
        ),
        None => unbound,
    }
}

// ---------------------------------------------------------------------------
// Expiring
// ---------------------------------------------------------------------------

/// An open order whose time is up: its validity lapsed or its gate closed.
pub open spec fn lapsed(d: DetailV, now: Timestamp) -> bool {
    &&& !terminal(d.state.state)
    &&& (d.order.valid_until matches Some(until) && until.at_or_earlier(now))
        || d.order.period.start.at_or_earlier(now)
}

/// An order that is to expire: its gridpool, its id and its contract.
pub ghost struct Expiry {
    pub pool: u64,
    pub id: u64,
    pub key: KeyV,
}

/// The lapsed ones among the first `n` orders of a gridpool.
pub open spec fn pool_expiries(p: PoolV, now: Timestamp, n: nat) -> Seq<Expiry>
    decreases n,
{
    if n == 0 {
        Seq::empty()
    } else {
        let before = pool_expiries(p, now, (n - 1) as nat);
        let d = p.orders[n - 1].1;
        if lapsed(d, now) {
            before.push(Expiry { pool: p.id, id: d.id, key: key_of(d.order) })
        } else {
            before
        }
    }
}

/// The lapsed orders of the first `n` gridpools.
pub open spec fn expiries(pools: Seq<(u64, PoolV)>, now: Timestamp, n: nat) -> Seq<Expiry>
    decreases n,
{
    if n == 0 {
        Seq::empty()
    } else {
        expiries(pools, now, (n - 1) as nat) + pool_expiries(
            pools[n - 1].1,
            now,
            pools[n - 1].1.orders.len(),
        )
    }
}

/// An expired order.
pub open spec fn detail_expired(d: DetailV, now: Timestamp) -> DetailV {
    DetailV {
        state: StateDetail {
            state: OrderState::Expired,
            reason: StateReason::Delete,
            actor: MarketActor::System,
        },
        modification_time: now,
        ..d
    }
}

/// The order is bound to its gridpool and rests on its contract's book.
pub open spec fn rests_at_home(w: WorldV, pool: u64, id: u64, key: KeyV) -> bool {
    bound_to(w, id, pool) && holds(w.books, key) && rests(value_at(w.books, key), id)
}

/// The state after one order expired: if it was bound to its gridpool it
/// leaves its contract's book and its binding; its owner is told, then the
/// book stream.
pub open spec fn one_expired(w: WorldV, e: Expiry, now: Timestamp) -> WorldV {
    let d = detail_at(w, e.pool, e.id);
    let after = detail_expired(d, now);
    let w1 = if bound_to(w, e.id, e.pool) {
        WorldV { owners: w.owners.remove(e.id), ..w }
    } else {
        w
    };
    let w2 = if rests_at_home(w, e.pool, e.id, e.key) {
        WorldV {
            books: stored(w1.books, e.key, canceled(value_at(w.books, e.key), e.id)),
            ..w1
        }
    } else {
        w1
    };
    let w3 = order_published(detail_put(w2, e.pool, after), e.pool, after);
    if rests_at_home(w, e.pool, e.id, e.key) {
        emitted(w3, gone(e.key, value_at(w.books, e.key), e.id, d.order.currency), now)
    } else {
        w3
    }
}

/// The state after a list of orders expired, in order.
pub open spec fn all_expired(w: WorldV, list: Seq<Expiry>, now: Timestamp) -> WorldV
    decreases list.len(),
{
    if list.len() == 0 {
        w
    } else {
        one_expired(all_expired(w, list.drop_last(), now), list.last(), now)
    }
}

/// The entries of a book with their sides: the bids, then the asks.
pub open spec fn entries_of(b: BookV) -> Seq<(EntryV, Side)> {
    Seq::new(b.bids.len(), |i: int| (b.bids[i], Side::Buy)) + Seq::new(
        b.asks.len(),
        |i: int| (b.asks[i], Side::Sell),
    )
}

/// The state after the first `n` of the listed entries of a gated book left
/// it, but for those that belong to a gridpool.
pub open spec fn entries_swept(
    w: WorldV,
    key: KeyV,
    entries: Seq<(EntryV, Side)>,
    now: Timestamp,
    n: nat,
) -> WorldV
    decreases n,
{
    if n == 0 {
        w
    } else {
        let before = entries_swept(w, key, entries, now, (n - 1) as nat);
        let (e, side) = entries[n - 1];
        if before.owners.contains_key(e.id) {
            before
        } else {
            emitted(
                WorldV {
                    books: stored(before.books, key, canceled(value_at(before.books, key), e.id)),
                    ..before
                },
                BookEvent { id: e.id, side, key, price: e.price, open: 0, currency: Currency::Eur },
                now,
            )
        }
    }
}

/// The number of the first `n` listed entries that belong to no gridpool.
pub open spec fn unowned(w: WorldV, entries: Seq<(EntryV, Side)>, n: nat) -> nat
    decreases n,
{
    if n == 0 {
        0
    } else {
        unowned(w, entries, (n - 1) as nat) + if w.owners.contains_key(entries[n - 1].0.id) {
            0nat
        } else {
            1nat
        }
    }
}

/// The state after counterparties' orders left those of the first `n` books
/// whose gate has closed.
pub open spec fn books_swept(w: WorldV, now: Timestamp, n: nat) -> WorldV
    decreases n,
{
    if n == 0 {
        w
    } else {
        let before = books_swept(w, now, (n - 1) as nat);
        let (key, b) = w.books[n - 1];
        if key.period.start.at_or_earlier(now) {
            entries_swept(before, key, entries_of(b), now, entries_of(b).len())
        } else {
            before
        }
    }
}

/// How many orders leave the first `n` books in that sweep.
pub open spec fn swept_count(w: WorldV, now: Timestamp, n: nat) -> nat
    decreases n,
{
    if n == 0 {
        0
    } else {
        swept_count(w, now, (n - 1) as nat) + if w.books[n - 1].0.period.start.at_or_earlier(now) {
            unowned(w, entries_of(w.books[n - 1].1), entries_of(w.books[n - 1].1).len())
        } else {
            0nat
        }
    }
}

/// The state after every lapsed order expired and every gated book was swept.
pub open spec fn expired(w: WorldV, now: Timestamp) -> WorldV {
    let w1 = all_expired(w, expiries(w.gridpools, now, w.gridpools.len()), now);
    books_swept(w1, now, w1.books.len())
}

/// How many orders that touches.
pub open spec fn expired_count(w: WorldV, now: Timestamp) -> nat {
    let list = expiries(w.gridpools, now, w.gridpools.len());
    let w1 = all_expired(w, list, now);
    list.len() + swept_count(w1, now, w1.books.len())
}

// ---------------------------------------------------------------------------
// Modifying
// ---------------------------------------------------------------------------

/// The fields an update can write. None leaves a field alone.
pub ghost struct UpdateV {
    pub price: Option<int>,
    pub currency: Option<Currency>,
    pub quantity: Option<int>,
    pub valid_until: Option<Timestamp>,
    pub tag: Option<Seq<char>>,
}

/// The first value there is.
pub open spec fn or_else<T>(a: Option<T>, b: Option<T>) -> Option<T> {
    if a is Some {
        a
    } else {
        b
    }
}

/// The value an update sets, or the one there was.
pub open spec fn set_or<T>(a: Option<T>, b: T) -> T {
    match a {
        Some(x) => x,
        None => b,
    }
}

/// The total quantity an updated order is for.
pub open spec fn updated_total(d: DetailV, u: UpdateV) -> int {
    set_or(u.quantity, d.filled_quantity + d.open_quantity)
}

/// The first rule that an update of an order breaks, self-trades aside.
pub open spec fn modify_objection(
    w: WorldV,
    pool: u64,
    id: u64,
    u: UpdateV,
    now: Timestamp,
) -> Option<SubmitError> {
    match cancel_objection(w, pool, id) {
        Some(e) => Some(e),
        None => {
            let d = detail_at(w, pool, id);
            if !holds(w.markets, d.order.area) {
                Some(SubmitError::UnknownArea)
            } else {
                let rules = value_at(w.markets, d.order.area);
                let total = updated_total(d, u);
                if d.order.period.start.at_or_earlier(now) {
                    Some(SubmitError::GateClosed)
                } else if set_or(u.currency, d.order.currency) != d.order.currency {
                    Some(SubmitError::CurrencyMismatch)
                } else if set_or(u.price, d.order.price) % rules.price_tick != 0 {
                    Some(SubmitError::PriceOffGrid)
                } else if total <= 0 {
                    Some(SubmitError::NonPositiveQuantity)
                } else if total % rules.qty_step != 0 {
                    Some(SubmitError::QuantityOffGrid)
                } else if total < d.filled_quantity {
                    Some(SubmitError::ModifyQuantityBelowFilled)
                } else {
                    None
                }
            }
        },
    }
}

/// An order with an update applied.
pub open spec fn detail_updated(d: DetailV, u: UpdateV, now: Timestamp) -> DetailV {
    let total = updated_total(d, u);
    let open = total - d.filled_quantity;
    DetailV {
        order: OrderV {
            price: set_or(u.price, d.order.price),
            quantity: total,
            valid_until: or_else(u.valid_until, d.order.valid_until),
            tag: or_else(u.tag, d.order.tag),
            ..d.order
        },
        open_quantity: open,
        modification_time: now,
        state: StateDetail {
            state: if open == 0 {
                OrderState::Filled
            } else {
                OrderState::Active
            },
            reason: StateReason::Modify,
            actor: MarketActor::User,
        },
        ..d
    }
}

/// The state after an order was taken off its book and its fields rewritten.
pub open spec fn update_applied(w: WorldV, pool: u64, id: u64, u: UpdateV, now: Timestamp) -> WorldV {
    let d = detail_at(w, pool, id);
    let key = key_of(d.order);
    let w1 = if bound_to(w, id, pool) {
        WorldV {
            owners: w.owners.remove(id),
            books: if holds(w.books, key) {
                stored(w.books, key, canceled(value_at(w.books, key), id))
            } else {
                w.books
            },
            ..w
        }
    } else {
        w
    };
    detail_put(w1, pool, detail_updated(d, u, now))
}

/// The state after fills on one contract were recorded, in order.
pub open spec fn fills_recorded(
    w: WorldV,
    taker: Taker,
    pool: Option<u64>,
    fills: Seq<FillV>,
    now: Timestamp,
) -> WorldV
    decreases fills.len(),
{
    if fills.len() == 0 {
        w
    } else {
        fill_recorded(
            fills_recorded(w, taker, pool, fills.drop_last(), now),
            fills.last(),
            taker.key.area,
            taker,
            pool,
            now,
        )
    }
}

/// What an order on the book has open; nothing where it is not on it.
pub open spec fn open_on(b: BookV, id: u64) -> int {
    if has_id(b.bids, id) {
        b.bids[place_of(b.bids, id)].open
    } else if has_id(b.asks, id) {
        b.asks[place_of(b.asks, id)].open
    } else {
        0
    }
}

/// The traces of fills on one contract on the book stream: each maker's order
/// changed to what is left of it on the book.
pub open spec fn fills_traced(
    w: WorldV,
    taker: Taker,
    fills: Seq<FillV>,
    book: BookV,
    now: Timestamp,
) -> WorldV
    decreases fills.len(),
{
    if fills.len() == 0 {
        w
    } else {
        let f = fills.last();
        emitted(
            fills_traced(w, taker, fills.drop_last(), book, now),
            BookEvent {
                id: f.maker_id,
                side: other_side(taker.side),
                key: taker.key,
                price: f.price,
                open: open_on(book, f.maker_id),
                currency: taker.currency,
            },
            now,
        )
    }
}

/// A modified order after it was matched again.
pub open spec fn taker_filled(d: DetailV, quantity: int, now: Timestamp) -> DetailV {
    maker_filled(d, quantity, now)
}

/// What matching an order of a gridpool on its own contract's book comes to.
pub open spec fn rematch_of(w: WorldV, pool: u64, id: u64) -> Matched {
    let d = detail_at(w, pool, id);
    matched(
        book_at(w.books, key_of(d.order)),
        id,
        d.order.side,
        d.order.price,
        d.open_quantity,
        ExecMode::Resting,
    )
}

/// The state after a modified order went through its own contract's book
/// again: its fills are traced and recorded, it is updated, and bound again if
/// it rests.
pub open spec fn rematched(w: WorldV, pool: u64, id: u64, now: Timestamp) -> WorldV {
    let d = detail_at(w, pool, id);
    if d.open_quantity > 0 {
        let taker = Taker {
            id,
            side: d.order.side,
            currency: d.order.currency,
            key: key_of(d.order),
        };
        let m = rematch_of(w, pool, id);
        let w1 = fills_traced(
            WorldV { books: stored(w.books, taker.key, m.book), ..w },
            taker,
            m.fills,
            m.book,
            now,
        );
        let w2 = fills_recorded(w1, taker, Some(pool), m.fills, now);
        let w3 = if filled(m.fills) > 0 {
            detail_put(w2, pool, taker_filled(detail_at(w2, pool, id), filled(m.fills), now))
        } else {
            w2
        };
        if m.rested is Some {
            WorldV { owners: w3.owners.insert(id, pool), ..w3 }
        } else {
            w3
        }
    } else {
        w
    }
}

/// The update names no price and no validity, and names either less quantity
/// than the order is for, or no quantity but a tag: the order keeps its place
/// in its queue.
pub open spec fn keeps_priority(d: DetailV, u: UpdateV) -> bool {
    &&& u.price is None
    &&& u.valid_until is None
    &&& match u.quantity {
        Some(q) => q < d.filled_quantity + d.open_quantity,
        None => u.tag is Some,
    }
}

/// The update leaves the order in its place on its book.
pub open spec fn stays_put(w: WorldV, pool: u64, id: u64, u: UpdateV) -> bool {
    let d = detail_at(w, pool, id);
    keeps_priority(d, u) && rests_at_home(w, pool, id, key_of(d.order))
}

/// The state after a resting order was updated in its place on the book. An
/// order with nothing left open leaves its book and its binding.
pub open spec fn updated_in_place(
    w: WorldV,
    pool: u64,
    id: u64,
    u: UpdateV,
    now: Timestamp,
) -> WorldV {
    let d = detail_at(w, pool, id);
    let after = detail_updated(d, u, now);
    let key = key_of(d.order);
    let w1 = WorldV {
        books: stored(w.books, key, resized(value_at(w.books, key), id, after.open_quantity)),
        owners: if after.open_quantity == 0 {
            w.owners.remove(id)
        } else {
            w.owners
        },
        ..w
    };
    detail_put(w1, pool, after)
}

/// Matching the updated order again would fill it against its own gridpool.
pub open spec fn modify_self_trade(w: WorldV, pool: u64, id: u64, u: UpdateV) -> bool {
    let d = detail_at(w, pool, id);
    !stays_put(w, pool, id, u) && takes_from_pool(
        w,
        swept(
            w.books,
            seq![key_of(d.order)],
            d.order.side,
            set_or(u.price, d.order.price),
            updated_total(d, u) - d.filled_quantity,
        ).takes,
        pool,
    )
}

/// Why an order cannot be modified, if it cannot.
pub open spec fn modify_rejection(
    w: WorldV,
    pool: u64,
    id: u64,
    u: UpdateV,
    now: Timestamp,
) -> Option<SubmitError> {
    match modify_objection(w, pool, id, u, now) {
        Some(e) => Some(e),
        None => if value_at(w.gridpools, pool).self_trade_policy == SelfTradePolicy::Reject
            && modify_self_trade(w, pool, id, u) {
            Some(SubmitError::SelfTradeRejected)
        } else {
            None
        },
    }
}

/// How an order stands on its contract's book, by its detail.
pub open spec fn standing(d: DetailV) -> BookEvent {
    BookEvent {
        id: d.id,
        side: d.order.side,
        key: key_of(d.order),
        price: d.order.price,
        open: d.open_quantity,
        currency: d.order.currency,
    }
}

/// The orders after one was modified. A resting order that only shrinks or
/// only gets another tag is updated where it stands; any other is taken off
/// its book and matched again under its new terms.
pub open spec fn reworked(w: WorldV, pool: u64, id: u64, u: UpdateV, now: Timestamp) -> WorldV {
    if stays_put(w, pool, id, u) {
        updated_in_place(w, pool, id, u, now)
    } else {
        rematched(update_applied(w, pool, id, u, now), pool, id, now)
    }
}

/// The state after an order was modified: how it now stands goes onto the
/// public book stream, and its owner is told.
pub open spec fn modified(w: WorldV, pool: u64, id: u64, u: UpdateV, now: Timestamp) -> WorldV {
    let w1 = reworked(w, pool, id, u, now);
    let d = detail_at(w1, pool, id);
    order_published(emitted(w1, standing(d), now), pool, d)
}

} // verus!
