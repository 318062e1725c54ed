//! Which trades are filed, and with whom.

use crate::gridpool::{with_detail, with_trade};
use crate::laws::candidates_are_open;
use crate::ledger::{lemma_fill_keeps, lemma_pool_at, lemma_traded};
use crate::lifecycle::{lemma_crossed_keeps, lemma_recorded_keeps};
use crate::linkage::{in_order, lemma_swept_entries, takes_distinct, touches};
use crate::market::AreaV;
use crate::matching::{ExecMode, FillV};
use crate::model::{
    admitted, book_at, bound_to, candidates, crossed, detail_at, detail_put, fill_of, fill_recorded,
    fill_traded, maker_filled, mode_of, on_pool, owners_known, pool_traded, public_trade_of_fill,
    swept, takes_recorded, takes_traced, trade_of_fill, world_wf, Take, Taker, WorldV,
};
use crate::order::{other_side, DetailV, OrderV, Side};
use crate::quoting::lemma_owners_known;
use crate::sweeping::lemma_swept;
use crate::table::{holds, lemma_stored, value_at};
use crate::time::Timestamp;
use crate::trade::{TradeState, TradeV};
use crate::volume::{lemma_takes_bounded, trade_ids_left};
use vstd::prelude::*;

verus! {

/// One fill is filed under the next trade id. The public tape shows it once,
/// at the price and for the quantity of the fill, from the area of the seller
/// to that of the buyer. The taker's gridpool files a trade of the taker's
/// order, on its side and in its area, and the gridpool of the order that was
/// resting files one of that order, on the other side and in its area; both
/// are for the same delivery, at the same price and for the same quantity as
/// the public one. They are told what they file. Nobody else files anything.
pub proof fn fills_are_filed_on_both_sides(
    w: WorldV,
    f: FillV,
    maker_area: AreaV,
    taker: Taker,
    pool: Option<u64>,
    now: Timestamp,
)
    requires
        world_wf(w),
        owners_known(w),
        pool matches Some(p) ==> holds(w.gridpools, p),
        taker.side != Side::Unspecified,
    ensures
        ({
            let after = fill_recorded(w, f, maker_area, taker, pool, now);
            let tape = after.outbox.public_trades;
            let shown = tape.last();
            let told = after.outbox.trades;
            let n = w.outbox.trades.len() as int;
            let bound = w.owners.contains_key(f.maker_id);
            let q = w.owners[f.maker_id];
            let both = pool is Some && bound && pool == Some(q);
            &&& tape.len() == w.outbox.public_trades.len() + 1
            &&& tape.drop_last() == w.outbox.public_trades
            &&& after.trade_history.last() == shown
            &&& shown.id == w.next_trade_id
            &&& shown.price == f.price
            &&& shown.quantity == f.quantity
            &&& shown.period == taker.key.period
            &&& shown.execution_time == now
            &&& shown.currency == taker.currency
            &&& shown.state == TradeState::Active
            &&& taker.side == Side::Buy ==> shown.buy_area == taker.key.area && shown.sell_area
                == maker_area
            &&& taker.side == Side::Sell ==> shown.sell_area == taker.key.area && shown.buy_area
                == maker_area
            &&& told.len() == n + (if pool is Some {
                1int
            } else {
                0
            }) + (if bound {
                1int
            } else {
                0
            })
            &&& told.take(n) == w.outbox.trades
            &&& pool matches Some(p) ==> {
                let before = value_at(w.gridpools, p).trades;
                let mine = value_at(after.gridpools, p).trades;
                let t = mine[before.len() as int];
                &&& mine.len() == before.len() + (if both {
                    2int
                } else {
                    1
                })
                &&& mine.take(before.len() as int) == before
                &&& told[n] == (p, t)
                &&& t.id == shown.id
                &&& t.order_id == taker.id
                &&& t.side == taker.side
                &&& t.area == taker.key.area
                &&& t.period == taker.key.period
                &&& t.execution_time == now
                &&& t.price == f.price
                &&& t.price == shown.price
                &&& t.currency == taker.currency
                &&& t.quantity == f.quantity
                &&& t.quantity == shown.quantity
                &&& t.state == TradeState::Active
            }
            &&& bound ==> {
                let before = value_at(w.gridpools, q).trades;
                let theirs = value_at(after.gridpools, q).trades;
                let t = theirs.last();
                &&& theirs.len() == before.len() + (if both {
                    2int
                } else {
                    1
                })
                &&& theirs.take(before.len() as int) == before
                &&& told.last() == (q, t)
                &&& t.id == shown.id
                &&& t.order_id == f.maker_id
                &&& t.side != taker.side
                &&& t.side != Side::Unspecified
                &&& t.area == maker_area
                &&& t.period == taker.key.period
                &&& t.execution_time == now
                &&& t.price == f.price
                &&& t.price == shown.price
                &&& t.currency == taker.currency
                &&& t.quantity == f.quantity
                &&& t.quantity == shown.quantity
                &&& t.state == TradeState::Active
            }
            &&& forall|p: u64|
                pool != Some(p) && (bound ==> q != p) && holds(w.gridpools, p) ==> (
                #[trigger] value_at(after.gridpools, p)).trades == value_at(w.gridpools, p).trades
        }),
{
    let after = fill_recorded(w, f, maker_area, taker, pool, now);
    lemma_fill_filed(w, f, maker_area, taker, pool, now);
    assert(after.outbox.public_trades.drop_last() =~= w.outbox.public_trades);
    assert(after.outbox.trades.take(w.outbox.trades.len() as int) =~= w.outbox.trades);
    if pool is Some {
        let before = value_at(w.gridpools, pool->0).trades;
        assert(value_at(after.gridpools, pool->0).trades.take(before.len() as int) =~= before);
    }
    if w.owners.contains_key(f.maker_id) {
        let before = value_at(w.gridpools, w.owners[f.maker_id]).trades;
        assert(value_at(after.gridpools, w.owners[f.maker_id]).trades.take(before.len() as int)
            =~= before);
    }
}

/// The trade of the taker's side.
pub open spec fn taken_trade(id: u64, f: FillV, taker: Taker, now: Timestamp) -> TradeV {
    trade_of_fill(id, taker.id, taker.side, taker.key.area, f, taker, now)
}

/// The trade of the other side.
pub open spec fn made_trade(id: u64, f: FillV, area: AreaV, taker: Taker, now: Timestamp) -> TradeV {
    trade_of_fill(id, f.maker_id, other_side(taker.side), area, f, taker, now)
}

/// What one gridpool files of a fill.
spec fn filed_by(
    w: WorldV,
    f: FillV,
    area: AreaV,
    taker: Taker,
    pool: Option<u64>,
    now: Timestamp,
    p: u64,
) -> Seq<TradeV> {
    let mine = if pool == Some(p) {
        seq![taken_trade(w.next_trade_id, f, taker, now)]
    } else {
        Seq::empty()
    };
    if w.owners.contains_key(f.maker_id) && w.owners[f.maker_id] == p {
        mine.push(made_trade(w.next_trade_id, f, area, taker, now))
    } else {
        mine
    }
}

proof fn lemma_pool_trades(w: WorldV, pool: u64, t: TradeV)
    requires
        world_wf(w),
        holds(w.gridpools, pool),
    ensures
        ({
            let after = pool_traded(w, pool, t);
            &&& world_wf(after)
            &&& forall|p: u64| #[trigger] holds(after.gridpools, p) <==> holds(w.gridpools, p)
            &&& forall|p: u64|
                holds(w.gridpools, p) ==> (#[trigger] value_at(after.gridpools, p)).trades
                    == if p == pool {
                    value_at(w.gridpools, p).trades.push(t)
                } else {
                    value_at(w.gridpools, p).trades
                }
        }),
{
    lemma_traded(w, pool, t);
    let p = with_trade(value_at(w.gridpools, pool), t);
    lemma_pool_at(w.gridpools, pool);
    lemma_stored(w.gridpools, pool, p);
}

pub proof fn lemma_put_trades(w: WorldV, pool: u64, d: DetailV)
    requires
        world_wf(w),
        holds(w.gridpools, pool),
    ensures
        forall|p: u64|
            holds(w.gridpools, p) ==> (#[trigger] value_at(
                detail_put(w, pool, d).gridpools,
                p,
            )).trades == value_at(w.gridpools, p).trades,
{
    lemma_pool_at(w.gridpools, pool);
    lemma_stored(w.gridpools, pool, with_detail(value_at(w.gridpools, pool), d));
}

/// What every gridpool files of one fill.
proof fn lemma_fill_filed(
    w: WorldV,
    f: FillV,
    area: AreaV,
    taker: Taker,
    pool: Option<u64>,
    now: Timestamp,
)
    requires
        world_wf(w),
        owners_known(w),
        pool matches Some(p) ==> holds(w.gridpools, p),
    ensures
        forall|p: u64|
            holds(w.gridpools, p) ==> (#[trigger] value_at(
                fill_recorded(w, f, area, taker, pool, now).gridpools,
                p,
            )).trades == value_at(w.gridpools, p).trades + filed_by(
                w,
                f,
                area,
                taker,
                pool,
                now,
                p,
            ),
{
    let id = w.next_trade_id;
    let w1 = WorldV { next_trade_id: (id + 1) as u64, ..w };
    let t1 = taken_trade(id, f, taker, now);
    let t2 = made_trade(id, f, area, taker, now);
    let w2 = match pool {
        Some(p) => pool_traded(w1, p, t1),
        None => w1,
    };
    if pool is Some {
        lemma_pool_trades(w1, pool->0, t1);
    }
    let bound = w.owners.contains_key(f.maker_id);
    let w3 = if bound {
        pool_traded(w2, w.owners[f.maker_id], t2)
    } else {
        w2
    };
    if bound {
        lemma_pool_trades(w2, w.owners[f.maker_id], t2);
    }
    let w4 = fill_traded(w, f, area, taker, pool, now);
    let w5 = fill_recorded(w, f, area, taker, pool, now);
    assert(w4.gridpools == w3.gridpools && w4.owners == w.owners);
    if w4.owners.contains_key(f.maker_id) && on_pool(w4, w4.owners[f.maker_id], f.maker_id) {
        let q = w4.owners[f.maker_id];
        let d = maker_filled(detail_at(w4, q, f.maker_id), f.quantity, now);
        lemma_put_trades(w4, q, d);
        assert(w5.gridpools == detail_put(w4, q, d).gridpools);
    }
    assert forall|p: u64| holds(w.gridpools, p) implies (#[trigger] value_at(
        w5.gridpools,
        p,
    )).trades == value_at(w.gridpools, p).trades + filed_by(w, f, area, taker, pool, now, p) by {
        assert(holds(w2.gridpools, p) && holds(w3.gridpools, p) && holds(w4.gridpools, p));
        assert(value_at(w5.gridpools, p).trades == value_at(w4.gridpools, p).trades);
        assert(value_at(w5.gridpools, p).trades =~= value_at(w.gridpools, p).trades + filed_by(
            w,
            f,
            area,
            taker,
            pool,
            now,
            p,
        ));
    }
}

/// What recording a run of takes from different orders files.
#[verifier::rlimit(80)]
pub proof fn lemma_run_filed(
    w: WorldV,
    taker: Taker,
    pool: Option<u64>,
    takes: Seq<Take>,
    now: Timestamp,
)
    requires
        world_wf(w),
        owners_known(w),
        pool matches Some(p) ==> holds(w.gridpools, p),
        takes_distinct(takes),
        w.next_trade_id + takes.len() <= u64::MAX,
    ensures
        ({
            let after = takes_recorded(w, taker, pool, takes, now);
            let n = w.outbox.public_trades.len() as int;
            &&& after.next_trade_id == w.next_trade_id + takes.len()
            &&& after.outbox.public_trades.len() == n + takes.len()
            &&& after.outbox.public_trades.take(n) == w.outbox.public_trades
            &&& forall|i: int|
                0 <= i < takes.len() ==> (#[trigger] after.outbox.public_trades[n + i])
                    == public_trade_of_fill(
                    (w.next_trade_id + i) as u64,
                    takes[i].key.area,
                    fill_of(taker.id, takes[i]),
                    taker,
                    now,
                )
            &&& forall|id: u64|
                !touches(takes, id) ==> (#[trigger] after.owners.contains_key(id)
                    <==> w.owners.contains_key(id)) && (w.owners.contains_key(id)
                    ==> after.owners[id] == w.owners[id])
            &&& forall|p: u64, i: int|
                #![trigger value_at(after.gridpools, p), takes[i]]
                0 <= i < takes.len() && pool == Some(p) ==> value_at(
                    after.gridpools,
                    p,
                ).trades.contains(
                    taken_trade(
                        (w.next_trade_id + i) as u64,
                        fill_of(taker.id, takes[i]),
                        taker,
                        now,
                    ),
                )
            &&& forall|p: u64, i: int|
                #![trigger value_at(after.gridpools, p), takes[i]]
                0 <= i < takes.len() && bound_to(w, takes[i].entry.id, p) ==> value_at(
                    after.gridpools,
                    p,
                ).trades.contains(
                    made_trade(
                        (w.next_trade_id + i) as u64,
                        fill_of(taker.id, takes[i]),
                        takes[i].key.area,
                        taker,
                        now,
                    ),
                )
            &&& forall|p: u64, j: int|
                #![trigger value_at(after.gridpools, p).trades[j]]
                holds(w.gridpools, p) && value_at(w.gridpools, p).trades.len() <= j < value_at(
                    after.gridpools,
                    p,
                ).trades.len() ==> exists|i: int|
                    0 <= i < takes.len() && is_side_of(
                        value_at(after.gridpools, p).trades[j],
                        w,
                        #[trigger] takes[i],
                        i,
                        taker,
                        pool,
                        now,
                        p,
                    )
            &&& forall|p: u64|
                holds(w.gridpools, p) ==> (#[trigger] value_at(after.gridpools, p)).trades.len()
                    >= value_at(w.gridpools, p).trades.len() && value_at(
                    after.gridpools,
                    p,
                ).trades.take(value_at(w.gridpools, p).trades.len() as int) == value_at(
                    w.gridpools,
                    p,
                ).trades
        }),
    decreases takes.len(),
{
    let after = takes_recorded(w, taker, pool, takes, now);
    let n = w.outbox.public_trades.len() as int;
    if takes.len() == 0 {
        assert(after.outbox.public_trades.take(n) =~= w.outbox.public_trades);
        assert forall|p: u64| holds(w.gridpools, p) implies (#[trigger] value_at(
            after.gridpools,
            p,
        )).trades.take(value_at(w.gridpools, p).trades.len() as int) == value_at(
            w.gridpools,
            p,
        ).trades by {
            assert(value_at(w.gridpools, p).trades.take(
                value_at(w.gridpools, p).trades.len() as int,
            ) =~= value_at(w.gridpools, p).trades);
        }
    } else {
        let some = takes.drop_last();
        let m = some.len() as int;
        let t = takes.last();
        let before = takes_recorded(w, taker, pool, some, now);
        let f = fill_of(taker.id, t);
        assert forall|i: int, j: int| 0 <= i < j < some.len() implies (#[trigger] some[i]).entry.id
            != (#[trigger] some[j]).entry.id by {
            assert(some[i] == takes[i] && some[j] == takes[j]);
        }
        lemma_run_filed(w, taker, pool, some, now);
        lemma_recorded_keeps(w, taker, pool, some, now);
        lemma_fill_keeps(before, f, t.key.area, taker, pool, now);
        lemma_fill_filed(before, f, t.key.area, taker, pool, now);
        assert(after == fill_recorded(before, f, t.key.area, taker, pool, now));
        let shown = public_trade_of_fill(before.next_trade_id, t.key.area, f, taker, now);
        assert(after.outbox.public_trades == before.outbox.public_trades.push(shown));
        assert(after.outbox.public_trades.take(n) =~= before.outbox.public_trades.take(n));
        assert forall|i: int| 0 <= i < takes.len() implies (#[trigger] after.outbox.public_trades[n
            + i]) == public_trade_of_fill(
            (w.next_trade_id + i) as u64,
            takes[i].key.area,
            fill_of(taker.id, takes[i]),
            taker,
            now,
        ) by {
            if i < m {
                assert(after.outbox.public_trades[n + i] == before.outbox.public_trades[n + i]);
                assert(some[i] == takes[i]);
            }
        }
        if touches(some, t.entry.id) {
            let i = choose|i: int| 0 <= i < some.len() && (#[trigger] some[i]).entry.id == t.entry.id;
            assert(takes[i].entry.id == takes[m].entry.id);
        }
        assert(before.owners.contains_key(t.entry.id) <==> w.owners.contains_key(t.entry.id));
        assert forall|id: u64| !touches(takes, id) implies (#[trigger] after.owners.contains_key(id)
            <==> w.owners.contains_key(id)) && (w.owners.contains_key(id) ==> after.owners[id]
            == w.owners[id]) by {
            if touches(some, id) {
                let i = choose|i: int| 0 <= i < some.len() && (#[trigger] some[i]).entry.id == id;
                assert(takes[i].entry.id == id);
            }
            assert(takes[m] == t);
            assert(id != t.entry.id);
            assert(before.owners.contains_key(id) <==> w.owners.contains_key(id));
        }
        assert forall|p: u64| holds(w.gridpools, p) implies (#[trigger] value_at(
            after.gridpools,
            p,
        )).trades == value_at(before.gridpools, p).trades + filed_by(
            before,
            f,
            t.key.area,
            taker,
            pool,
            now,
            p,
        ) by {
            assert(holds(before.gridpools, p));
        }
        assert forall|p: u64, i: int|
            #![trigger value_at(after.gridpools, p), takes[i]]
            0 <= i < takes.len() && pool == Some(p) implies value_at(
            after.gridpools,
            p,
        ).trades.contains(
            taken_trade(
                (w.next_trade_id + i) as u64,
                fill_of(taker.id, takes[i]),
                taker,
                now,
            ),
        ) by {
            let x = taken_trade(
                (w.next_trade_id + i) as u64,
                fill_of(taker.id, takes[i]),
                taker,
                now,
            );
            let had = value_at(before.gridpools, p).trades;
            let has = value_at(after.gridpools, p).trades;
            if i < m {
                assert(some[i] == takes[i]);
                assert(had.contains(x));
                let j = choose|j: int| 0 <= j < had.len() && had[j] == x;
                assert(has[j] == x);
            } else {
                assert(has[had.len() as int] == x);
            }
        }
        assert forall|p: u64, i: int|
            #![trigger value_at(after.gridpools, p), takes[i]]
            0 <= i < takes.len() && bound_to(w, takes[i].entry.id, p) implies value_at(
            after.gridpools,
            p,
        ).trades.contains(
            made_trade(
                (w.next_trade_id + i) as u64,
                fill_of(taker.id, takes[i]),
                takes[i].key.area,
                taker,
                now,
            ),
        ) by {
            let x = made_trade(
                (w.next_trade_id + i) as u64,
                fill_of(taker.id, takes[i]),
                takes[i].key.area,
                taker,
                now,
            );
            assert(holds(w.gridpools, p));
            let had = value_at(before.gridpools, p).trades;
            let has = value_at(after.gridpools, p).trades;
            if i < m {
                assert(some[i] == takes[i]);
                assert(had.contains(x));
                let j = choose|j: int| 0 <= j < had.len() && had[j] == x;
                assert(has[j] == x);
            } else {
                assert(before.owners[t.entry.id] == p);
                assert(has[has.len() - 1] == x);
            }
        }
        assert forall|p: u64, j: int|
            #![trigger value_at(after.gridpools, p).trades[j]]
            holds(w.gridpools, p) && value_at(w.gridpools, p).trades.len() <= j < value_at(
                after.gridpools,
                p,
            ).trades.len() implies exists|i: int|
            0 <= i < takes.len() && is_side_of(
                value_at(after.gridpools, p).trades[j],
                w,
                #[trigger] takes[i],
                i,
                taker,
                pool,
                now,
                p,
            ) by {
            let had = value_at(before.gridpools, p).trades;
            let has = value_at(after.gridpools, p).trades;
            if j < had.len() {
                assert(has[j] == had[j]);
                let i = choose|i: int|
                    0 <= i < some.len() && is_side_of(
                        had[j],
                        w,
                        #[trigger] some[i],
                        i,
                        taker,
                        pool,
                        now,
                        p,
                    );
                assert(takes[i] == some[i]);
            } else {
                assert(takes[m] == t);
                assert(is_side_of(has[j], w, takes[m], m, taker, pool, now, p));
            }
        }
        assert forall|p: u64| holds(w.gridpools, p) implies (#[trigger] value_at(
            after.gridpools,
            p,
        )).trades.len() >= value_at(w.gridpools, p).trades.len() && value_at(
            after.gridpools,
            p,
        ).trades.take(value_at(w.gridpools, p).trades.len() as int) == value_at(
            w.gridpools,
            p,
        ).trades by {
            let k = value_at(w.gridpools, p).trades.len() as int;
            let had = value_at(before.gridpools, p).trades;
            assert(value_at(after.gridpools, p).trades.take(k) =~= had.take(k));
        }
    }
}

/// The trade is one of the two sides of the `i`-th take, filed with this
/// gridpool.
pub open spec fn is_side_of(
    x: TradeV,
    w: WorldV,
    t: Take,
    i: int,
    taker: Taker,
    pool: Option<u64>,
    now: Timestamp,
    p: u64,
) -> bool {
    let id = (w.next_trade_id + i) as u64;
    let f = fill_of(taker.id, t);
    ||| pool == Some(p) && x == taken_trade(id, f, taker, now)
    ||| bound_to(w, t.entry.id, p) && x == made_trade(id, f, t.key.area, taker, now)
}

/// Whatever an admitted order trades, it trades with orders that rest on the
/// other side, for the same delivery and within its limit, at their price and
/// for no more than they have open. The public tape shows each such trade
/// once, in order. The gridpool of the admitted order files it with the
/// order's own side and area, and the gridpool of the resting order with the
/// other side and the area it rests in: at the price of the resting order and
/// for the quantity taken, under the same trade id as on the tape. No gridpool
/// files anything else.
pub proof fn trades_carry_the_resting_price(w: WorldV, o: OrderV, pool: Option<u64>, now: Timestamp)
    requires
        in_order(w),
        pool matches Some(p) ==> holds(w.gridpools, p),
        o.quantity > 0,
        o.side != Side::Unspecified,
        w.next_order_id < u64::MAX,
        trade_ids_left(w, o.side),
    ensures
        ({
            let a = admitted(w, o, pool, now);
            let after = a.world;
            let base = w.outbox.public_trades.len() as int;
            let tape = after.outbox.public_trades;
            &&& tape.len() == base + a.takes.len()
            &&& tape.take(base) == w.outbox.public_trades
            &&& forall|i: int|
                0 <= i < a.takes.len() ==> {
                    let t = #[trigger] a.takes[i];
                    let shown = tape[base + i];
                    let b = book_at(w.books, t.key);
                    &&& t.key.period == o.period
                    &&& 0 < t.quantity <= t.entry.open
                    &&& o.side == Side::Buy ==> b.asks.contains(t.entry) && t.entry.price
                        <= o.price && shown.buy_area == o.area && shown.sell_area == t.key.area
                    &&& o.side == Side::Sell ==> b.bids.contains(t.entry) && t.entry.price
                        >= o.price && shown.sell_area == o.area && shown.buy_area == t.key.area
                    &&& shown.id == w.next_trade_id + i
                    &&& shown.price == t.entry.price
                    &&& shown.quantity == t.quantity
                    &&& shown.period == o.period
                    &&& shown.execution_time == now
                    &&& shown.currency == o.currency
                    &&& shown.state == TradeState::Active
                    &&& pool matches Some(p) ==> value_at(after.gridpools, p).trades.contains(
                        TradeV {
                            id: shown.id,
                            order_id: w.next_order_id,
                            side: o.side,
                            area: o.area,
                            period: o.period,
                            execution_time: now,
                            price: t.entry.price,
                            currency: o.currency,
                            quantity: t.quantity,
                            state: TradeState::Active,
                        },
                    )
                    &&& w.owners.contains_key(t.entry.id) ==> value_at(
                        after.gridpools,
                        w.owners[t.entry.id],
                    ).trades.contains(
                        TradeV {
                            id: shown.id,
                            order_id: t.entry.id,
                            side: if o.side == Side::Buy {
                                Side::Sell
                            } else {
                                Side::Buy
                            },
                            area: t.key.area,
                            period: o.period,
                            execution_time: now,
                            price: t.entry.price,
                            currency: o.currency,
                            quantity: t.quantity,
                            state: TradeState::Active,
                        },
                    )
                }
            &&& forall|p: u64, j: int|
                #![trigger value_at(after.gridpools, p).trades[j]]
                holds(w.gridpools, p) && value_at(w.gridpools, p).trades.len() <= j < value_at(
                    after.gridpools,
                    p,
                ).trades.len() ==> exists|i: int|
                    0 <= i < a.takes.len() && {
                        let x = value_at(after.gridpools, p).trades[j];
                        let t = #[trigger] a.takes[i];
                        &&& x.price == t.entry.price
                        &&& x.quantity == t.quantity
                        &&& x.id == w.next_trade_id + i
                        &&& x.period == o.period
                        &&& (x.order_id == w.next_order_id && x.side == o.side && x.area == o.area
                            && pool == Some(p)) || (x.order_id == t.entry.id && x.side != o.side
                            && x.area == t.key.area && bound_to(w, t.entry.id, p))
                    }
            &&& forall|p: u64|
                holds(w.gridpools, p) ==> (#[trigger] value_at(after.gridpools, p)).trades.len()
                    >= value_at(w.gridpools, p).trades.len() && value_at(
                    after.gridpools,
                    p,
                ).trades.take(value_at(w.gridpools, p).trades.len() as int) == value_at(
                    w.gridpools,
                    p,
                ).trades
        }),
{
    let a = admitted(w, o, pool, now);
    let tk = a.taker;
    let mode = mode_of(o.execution_option);
    let numbered = WorldV { next_order_id: (w.next_order_id + 1) as u64, ..w };
    let c = crossed(numbered, tk, o.price, o.quantity, mode, now);
    let keys = candidates(numbered, tk.key, now);
    let s = swept(w.books, keys, o.side, o.price, o.quantity);
    lemma_crossed_keeps(numbered, tk, o.price, o.quantity, mode, now);
    lemma_owners_known(w);
    lemma_swept_entries(w.books, keys, o.side, o.price, o.quantity);
    lemma_swept(w.books, keys, o.side, o.price, o.quantity);
    lemma_takes_bounded(w.books, keys, o.side, o.price, o.quantity);
    lemma_crossed_tape(numbered, tk, o.price, o.quantity, mode, now);
    assert(c.takes == s.takes || c.takes.len() == 0);
    assert(takes_distinct(c.takes));
    lemma_run_filed(c.world, tk, pool, c.takes, now);
    let after = a.world;
    assert(c.world.gridpools == w.gridpools && c.world.owners == w.owners);
    assert forall|i: int| 0 <= i < a.takes.len() implies (#[trigger] a.takes[i]).key.period
        == o.period && (a.takes[i] == s.takes[i]) by {
        let k = a.takes[i].key;
        assert(keys.contains(s.takes[i].key));
        let m = choose|m: int| 0 <= m < keys.len() && keys[m] == k;
        if m > 0 {
            candidates_are_open(numbered, tk.key, now, m);
        }
    }
    let base = w.outbox.public_trades.len() as int;
    assert forall|i: int| 0 <= i < a.takes.len() implies (#[trigger] a.takes[i]).quantity > 0
        && after.outbox.public_trades[base + i] == public_trade_of_fill(
        (w.next_trade_id + i) as u64,
        a.takes[i].key.area,
        fill_of(tk.id, a.takes[i]),
        tk,
        now,
    ) by {
        assert(a.takes[i] == s.takes[i]);
    }
    assert forall|p: u64, j: int|
        #![trigger value_at(after.gridpools, p).trades[j]]
        holds(w.gridpools, p) && value_at(w.gridpools, p).trades.len() <= j < value_at(
            after.gridpools,
            p,
        ).trades.len() implies exists|i: int|
        0 <= i < a.takes.len() && {
            let x = value_at(after.gridpools, p).trades[j];
            let t = #[trigger] a.takes[i];
            &&& x.price == t.entry.price
            &&& x.quantity == t.quantity
            &&& x.id == w.next_trade_id + i
            &&& x.period == o.period
            &&& (x.order_id == w.next_order_id && x.side == o.side && x.area == o.area && pool
                == Some(p)) || (x.order_id == t.entry.id && x.side != o.side && x.area == t.key.area
                && bound_to(w, t.entry.id, p))
        } by {
        let x = value_at(after.gridpools, p).trades[j];
        let i = choose|i: int|
            0 <= i < c.takes.len() && is_side_of(
                x,
                c.world,
                #[trigger] c.takes[i],
                i,
                tk,
                pool,
                now,
                p,
            );
        assert(a.takes[i] == c.takes[i]);
    }
}

/// Matching puts nothing onto the trade tape and files no trade.
proof fn lemma_crossed_tape(
    w: WorldV,
    taker: Taker,
    price: int,
    qty: int,
    mode: ExecMode,
    now: Timestamp,
)
    ensures
        ({
            let c = crossed(w, taker, price, qty, mode, now);
            &&& c.world.outbox.public_trades == w.outbox.public_trades
            &&& c.world.outbox.trades == w.outbox.trades
            &&& c.world.outbox.orders == w.outbox.orders
            &&& c.world.trade_history == w.trade_history
            &&& c.world.next_trade_id == w.next_trade_id
            &&& c.world.gridpools == w.gridpools
            &&& c.world.owners == w.owners
        }),
{
    let s = swept(w.books, candidates(w, taker.key, now), taker.side, price, qty);
    lemma_traced_tape(w, taker, s.takes, now);
}

proof fn lemma_traced_tape(w: WorldV, taker: Taker, takes: Seq<Take>, now: Timestamp)
    ensures
        ({
            let t = takes_traced(w, taker, takes, now);
            &&& t.outbox.public_trades == w.outbox.public_trades
            &&& t.outbox.trades == w.outbox.trades
            &&& t.outbox.orders == w.outbox.orders
            &&& t.trade_history == w.trade_history
            &&& t.next_trade_id == w.next_trade_id
            &&& t.gridpools == w.gridpools
            &&& t.owners == w.owners
        }),
    decreases takes.len(),
{
    if takes.len() > 0 {
        lemma_traced_tape(w, taker, takes.drop_last(), now);
    }
}

} // verus!
