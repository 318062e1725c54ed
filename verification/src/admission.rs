//! Which requests are admitted, and what the others are told.

use crate::book::EntryV;
use crate::gridpool::SelfTradePolicy;
use crate::linkage::{in_order, lemma_swept_entries};
use crate::market::DeliveryDuration;
use crate::model::{
    best_offer, book_at, bound_to, cancel_objection, candidates, detail_at, key_of,
    market_objection, modify_objection, modify_rejection, objection, offers, opposite, rejection,
    swept, KeyV, SubmitError, UpdateV, WorldV,
};
use crate::order::{ExecutionOption, OrderState, OrderType, OrderV, Side};
use crate::sweeping::lemma_swept;
use crate::table::{holds, value_at};
use crate::time::Timestamp;
use crate::volume::{best_offer_is_best, lemma_swept_step};
use vstd::prelude::*;

verus! {

/// The first instant comes before the second.
pub open spec fn before(a: Timestamp, b: Timestamp) -> bool {
    a.secs < b.secs || (a.secs == b.secs && a.nanos < b.nanos)
}

/// The length of a delivery in seconds.
pub open spec fn span(d: DeliveryDuration) -> int {
    match d {
        DeliveryDuration::FiveMin => 300,
        DeliveryDuration::QuarterHour => 900,
        DeliveryDuration::HalfHour => 1800,
        DeliveryDuration::Hour => 3600,
    }
}

/// The order is one that a running market takes: on an area it knows, before
/// the delivery begins, a limit order in the market's currency, for one of its
/// durations and on its grid, at a price on the tick and for a quantity on the
/// step, to buy or to sell, and not yet past its validity.
pub open spec fn meets_the_rules(w: WorldV, o: OrderV, now: Timestamp) -> bool {
    let rules = value_at(w.markets, o.area);
    &&& !w.suspended
    &&& holds(w.markets, o.area)
    &&& before(now, o.period.start)
    &&& o.order_type == OrderType::Limit
    &&& o.currency == rules.currency
    &&& rules.durations.contains(o.period.duration)
    &&& o.period.start.nanos == 0
    &&& (o.period.start.secs as int) % span(o.period.duration) == 0
    &&& o.price % rules.price_tick == 0
    &&& o.quantity > 0
    &&& o.quantity % rules.qty_step == 0
    &&& o.side == Side::Buy || o.side == Side::Sell
    &&& o.valid_until matches Some(t) ==> before(now, t)
}

/// A counterparty's order is admitted exactly when it meets the rules of its
/// market. A gridpool's is, self-trades aside, exactly when the gridpool is
/// known, may trade in the area, the order meets those rules, and it is not
/// all-or-none, nor both restricted and limited in time.
pub proof fn orders_are_admitted_by_the_rules(w: WorldV, pool: u64, o: OrderV, now: Timestamp)
    ensures
        market_objection(w, o, now) is None <==> meets_the_rules(w, o, now),
        objection(w, pool, o, now) is None <==> holds(w.gridpools, pool) && value_at(
            w.gridpools,
            pool,
        ).areas.contains(o.area) && meets_the_rules(w, o, now) && o.execution_option != Some(
            ExecutionOption::Aon,
        ) && (o.execution_option is Some ==> o.valid_until is None),
{
}

/// Every refusal names what is wrong with the order, and what is checked
/// earlier is in order.
pub proof fn refusals_name_their_cause(w: WorldV, pool: u64, o: OrderV, now: Timestamp)
    requires
        objection(w, pool, o, now) is Some,
    ensures
        ({
            let rules = value_at(w.markets, o.area);
            let known = holds(w.gridpools, pool);
            let allowed = known && value_at(w.gridpools, pool).areas.contains(o.area);
            let running = allowed && !w.suspended;
            let listed = running && holds(w.markets, o.area);
            match objection(w, pool, o, now)->0 {
                SubmitError::UnknownGridpool => !known,
                SubmitError::AreaNotAllowedForGridpool => known && !allowed,
                SubmitError::SuspendedMarket => allowed && w.suspended,
                SubmitError::UnknownArea => running && !holds(w.markets, o.area),
                SubmitError::GateClosed => listed && !before(now, o.period.start),
                SubmitError::UnsupportedOrderType(t) => listed && t == o.order_type && t
                    != OrderType::Limit,
                SubmitError::CurrencyMismatch => listed && o.currency != rules.currency,
                SubmitError::UnsupportedDurationForMarket => listed && !rules.durations.contains(
                    o.period.duration,
                ),
                SubmitError::UnalignedDeliveryPeriod => listed && (o.period.start.nanos != 0 || (
                o.period.start.secs as int) % span(o.period.duration) != 0),
                SubmitError::PriceOffGrid => listed && o.price % rules.price_tick != 0,
                SubmitError::NonPositiveQuantity => listed && o.quantity <= 0,
                SubmitError::QuantityOffGrid => listed && o.quantity > 0 && o.quantity
                    % rules.qty_step != 0,
                SubmitError::UnspecifiedSide => listed && o.side != Side::Buy && o.side
                    != Side::Sell,
                SubmitError::ValidityElapsed => listed && o.valid_until is Some && !before(
                    now,
                    o.valid_until->0,
                ),
                SubmitError::UnsupportedExecutionOption(x) => meets_the_rules(w, o, now)
                    && o.execution_option == Some(x) && (x == ExecutionOption::Aon
                    || o.valid_until is Some),
                _ => false,
            }
        }),
{
}

/// An order that rests on the far side of one of the contracts that the taker
/// may match against, at a price that the taker accepts, and is bound to the
/// gridpool.
pub open spec fn meets_its_own(w: WorldV, pool: u64, o: OrderV, now: Timestamp) -> bool {
    exists|k: KeyV, e: EntryV|
        candidates(w, KeyV { area: o.area, period: o.period }, now).contains(k)
            && #[trigger] own_in_reach(w, pool, o, k, e)
}

/// The entry rests on the far side of this contract, at a price that the
/// taker accepts, and is bound to the gridpool.
pub open spec fn own_in_reach(w: WorldV, pool: u64, o: OrderV, k: KeyV, e: EntryV) -> bool {
    &&& bound_to(w, e.id, pool)
    &&& o.side == Side::Buy ==> book_at(w.books, k).asks.contains(e) && e.price <= o.price
    &&& o.side == Side::Sell ==> book_at(w.books, k).bids.contains(e) && e.price >= o.price
}

/// Beyond the rules, an order is refused only for a self-trade: where the
/// gridpool does not allow it and one of its own orders is in reach.
pub proof fn self_trades_alone_are_refused_beyond_the_rules(
    w: WorldV,
    pool: u64,
    o: OrderV,
    now: Timestamp,
)
    requires
        in_order(w),
        objection(w, pool, o, now) is None,
        rejection(w, pool, o, now) is Some,
    ensures
        rejection(w, pool, o, now) == Some(SubmitError::SelfTradeRejected),
        value_at(w.gridpools, pool).self_trade_policy == SelfTradePolicy::Reject,
        meets_its_own(w, pool, o, now),
{
    let keys = candidates(w, key_of(o), now);
    let s = swept(w.books, keys, o.side, o.price, o.quantity);
    lemma_swept(w.books, keys, o.side, o.price, o.quantity);
    lemma_swept_entries(w.books, keys, o.side, o.price, o.quantity);
    let i = choose|i: int|
        0 <= i < s.takes.len() && w.owners.contains_key((#[trigger] s.takes[i]).entry.id)
            && w.owners[s.takes[i].entry.id] == pool;
    let k = s.takes[i].key;
    let e = s.takes[i].entry;
    assert(keys.contains(k));
    assert(opposite(w.books, k, o.side).contains(e));
    assert(own_in_reach(w, pool, o, k, e));
}

/// An order whose best counterpart is of its own gridpool, which does not
/// allow that, is refused: where the first order on the far side of its own
/// contract is its own and no coupled contract has a better one.
pub proof fn meeting_its_own_first_is_refused(w: WorldV, pool: u64, o: OrderV, now: Timestamp)
    requires
        objection(w, pool, o, now) is None,
        value_at(w.gridpools, pool).self_trade_policy == SelfTradePolicy::Reject,
        ({
            let home = book_at(w.books, KeyV { area: o.area, period: o.period });
            let q = if o.side == Side::Buy {
                home.asks
            } else {
                home.bids
            };
            &&& q.len() > 0
            &&& bound_to(w, q[0].id, pool)
            &&& o.side == Side::Buy ==> q[0].price <= o.price
            &&& o.side == Side::Sell ==> q[0].price >= o.price
            &&& forall|k: KeyV|
                candidates(w, KeyV { area: o.area, period: o.period }, now).contains(k) ==> {
                    let b = #[trigger] book_at(w.books, k);
                    &&& o.side == Side::Buy && b.asks.len() > 0 ==> b.asks[0].price >= q[0].price
                    &&& o.side == Side::Sell && b.bids.len() > 0 ==> b.bids[0].price <= q[0].price
                }
        }),
    ensures
        rejection(w, pool, o, now) == Some(SubmitError::SelfTradeRejected),
{
    let key = key_of(o);
    let keys = candidates(w, key, now);
    assert(keys[0] == key);
    let s = swept(w.books, keys, o.side, o.price, o.quantity);
    let home = opposite(w.books, key, o.side);
    assert(offers(w.books, keys[0], o.side, o.price));
    best_offer_is_best(w.books, keys, o.side, o.price, 0);
    let at = best_offer(w.books, keys, o.side, o.price)->0;
    if at != 0 {
        let there = opposite(w.books, keys[at], o.side);
        assert(keys.contains(keys[at]));
        assert(book_at(w.books, keys[at]) == book_at(w.books, keys[at]));
        if o.side == Side::Buy {
            assert(there[0].price >= home[0].price);
        } else {
            assert(there[0].price <= home[0].price);
        }
    }
    lemma_swept_step(w.books, keys, o.side, o.price, o.quantity);
    assert(s.takes[0].entry == home[0]);
    assert(w.owners.contains_key(s.takes[0].entry.id) && w.owners[s.takes[0].entry.id] == pool);
}

/// Why an order cannot be canceled: the gridpool is not known, has no such
/// order, or the order has come to its end. Otherwise it can.
pub proof fn only_open_orders_are_canceled(w: WorldV, pool: u64, id: u64)
    ensures
        ({
            let known = holds(w.gridpools, pool);
            let found = known && holds(value_at(w.gridpools, pool).orders, id);
            let state = value_at(value_at(w.gridpools, pool).orders, id).state.state;
            let ended = state == OrderState::Filled || state == OrderState::Canceled || state
                == OrderState::Expired || state == OrderState::Failed;
            &&& cancel_objection(w, pool, id) == Some(SubmitError::UnknownGridpool) <==> !known
            &&& cancel_objection(w, pool, id) == Some(SubmitError::OrderNotFound) <==> known
                && !found
            &&& cancel_objection(w, pool, id) == Some(SubmitError::OrderAlreadyTerminal) <==> found
                && ended
            &&& cancel_objection(w, pool, id) is None <==> found && !ended
        }),
{
}

/// An update of an open order is admitted, self-trades aside, exactly when the
/// market knows the area, the delivery has not begun, the price is in the
/// order's currency and on the tick, and the quantity is positive, on the step
/// and not below what is filled already.
pub proof fn updates_are_admitted_by_the_rules(
    w: WorldV,
    pool: u64,
    id: u64,
    u: UpdateV,
    now: Timestamp,
)
    requires
        cancel_objection(w, pool, id) is None,
    ensures
        ({
            let d = detail_at(w, pool, id);
            let rules = value_at(w.markets, d.order.area);
            let price = match u.price {
                Some(p) => p,
                None => d.order.price,
            };
            let total = match u.quantity {
                Some(q) => q,
                None => d.filled_quantity + d.open_quantity,
            };
            let listed = holds(w.markets, d.order.area);
            &&& modify_objection(w, pool, id, u, now) is None <==> listed && before(
                now,
                d.order.period.start,
            ) && (u.currency matches Some(c) ==> c == d.order.currency) && price % rules.price_tick
                == 0 && total > 0 && total % rules.qty_step == 0 && total >= d.filled_quantity
            &&& modify_objection(w, pool, id, u, now) matches Some(e) ==> match e {
                SubmitError::UnknownArea => !listed,
                SubmitError::GateClosed => listed && !before(now, d.order.period.start),
                SubmitError::CurrencyMismatch => listed && u.currency is Some && u.currency
                    != Some(d.order.currency),
                SubmitError::PriceOffGrid => listed && price % rules.price_tick != 0,
                SubmitError::NonPositiveQuantity => listed && total <= 0,
                SubmitError::QuantityOffGrid => listed && total % rules.qty_step != 0,
                SubmitError::ModifyQuantityBelowFilled => listed && total < d.filled_quantity,
                _ => false,
            }
        }),
{
}

/// An update of an order that cannot be canceled is refused for the same
/// reason.
pub proof fn ended_orders_are_not_updated(
    w: WorldV,
    pool: u64,
    id: u64,
    u: UpdateV,
    now: Timestamp,
)
    requires
        cancel_objection(w, pool, id) is Some,
    ensures
        modify_rejection(w, pool, id, u, now) == cancel_objection(w, pool, id),
{
}

} // verus!
