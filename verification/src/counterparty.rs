//! Synthetic counterparties. A [`MarketMaker`] keeps a bid and an ask around
//! a reference price, so that user orders have someone to trade against;
//! demand and surplus tilt the two quotes. An [`Aggressor`] is a taker that
//! crosses the best price of the other side, so that trades print.
//!
//! Both are plain data: they take a [`World`] and step once per call. The
//! driver decides when, and how strongly the time to gate closure scales a step.

use crate::book::{lemma_zero_on_grid, price_crosses};
use crate::decimal::{
    checked_snap, decimal_difference, decimal_product, decimal_sum, default_qty_step, fits,
    grid_ceiling, grid_floor, grid_limit, grid_step, lemma_pow10_positive, nearest_multiple, pow10,
    representable, snappable, snapped, unit, value_of, Decimal, MANTISSA_LIMIT,
};
use crate::market::{Area, AreaV, Currency, DeliveryPeriod};
use crate::model::{
    admitted, counterparty_canceled, market_objection, offers, owners_known, KeyV, WorldV,
};
use crate::order::{limit_order, view_option, ExecutionOption, Order, OrderId, OrderV, Side};
use crate::table::views;
use crate::time::Timestamp;
use crate::trade::{PublicTrade, PublicTradeV};
use crate::world::placing::has_room_for;
use crate::world::{ContractKey, World};
use vstd::prelude::*;

verus! {

// ---------------------------------------------------------------------------
// Sums that may overflow
// ---------------------------------------------------------------------------

/// The sum of two results, if both are there and it does not overflow.
pub open spec fn sum_of(a: Option<int>, b: Option<int>) -> Option<int> {
    match (a, b) {
        (Some(a), Some(b)) => decimal_sum(a, b),
        _ => None,
    }
}

/// The difference of two results, if both are there and it does not
/// overflow.
pub open spec fn difference_of(a: Option<int>, b: Option<int>) -> Option<int> {
    match (a, b) {
        (Some(a), Some(b)) => decimal_difference(a, b),
        _ => None,
    }
}

/// The product of two results, if both are there and it does not overflow.
pub open spec fn product_of(a: Option<int>, b: Option<int>) -> Option<int> {
    match (a, b) {
        (Some(a), Some(b)) => decimal_product(a, b),
        _ => None,
    }
}

// ---------------------------------------------------------------------------
// The market maker
// ---------------------------------------------------------------------------

/// What a market maker is set to.
#[derive(Debug)]
pub struct MarketMakerConfig {
    pub area: Area,
    pub period: DeliveryPeriod,
    pub currency: Currency,
    /// Fundamentals target, EUR/MWh. The reference reverts toward it.
    pub reference_baseline: Decimal,
    /// Live mid-price, EUR/MWh. It moves at each refresh.
    pub reference_price: Decimal,
    /// Half-spread; bid is reference - spread, ask is reference + spread.
    pub spread: Decimal,
    /// Quantity per quote, MW.
    pub size: Decimal,
    /// Demand tilt: shifts the bid upward.
    pub demand: Decimal,
    /// Surplus tilt: shifts the ask downward.
    pub surplus: Decimal,
    /// Magnitude of the random walk per refresh, EUR/MWh; 0 for none.
    pub price_noise: Decimal,
    /// Price tick to snap to. Should match the market's tick.
    pub tick: Decimal,
    /// If positive, pulls the reference toward the most recent public trade
    /// on this contract by this share of the gap.
    pub follow_last_trade: Decimal,
}

/// The view of a [`MarketMakerConfig`].
pub ghost struct MakerConfigV {
    pub area: AreaV,
    pub period: DeliveryPeriod,
    pub currency: Currency,
    pub reference_baseline: int,
    pub reference_price: int,
    pub spread: int,
    pub size: int,
    pub demand: int,
    pub surplus: int,
    pub price_noise: int,
    pub tick: int,
    pub follow_last_trade: int,
}

impl View for MarketMakerConfig {
    type V = MakerConfigV;

    open spec fn view(&self) -> MakerConfigV {
        MakerConfigV {
            area: self.area@,
            period: self.period,
            currency: self.currency,
            reference_baseline: self.reference_baseline@,
            reference_price: self.reference_price@,
            spread: self.spread@,
            size: self.size@,
            demand: self.demand@,
            surplus: self.surplus@,
            price_noise: self.price_noise@,
            tick: self.tick@,
            follow_last_trade: self.follow_last_trade@,
        }
    }
}

impl Clone for MarketMakerConfig {
    fn clone(&self) -> (r: Self)
        ensures
            r@ == self@,
    {
        MarketMakerConfig {
            area: self.area.clone(),
            period: self.period,
            currency: self.currency,
            reference_baseline: self.reference_baseline,
            reference_price: self.reference_price,
            spread: self.spread,
            size: self.size,
            demand: self.demand,
            surplus: self.surplus,
            price_noise: self.price_noise,
            tick: self.tick,
            follow_last_trade: self.follow_last_trade,
        }
    }
}

impl MarketMakerConfig {
    /// Quotes 1 MW at 85.00 plus or minus 0.40 EUR/MWh, with a walk of 0.10,
    /// a tick of 0.01 and no tilt.
    pub fn default_for(area: Area, period: DeliveryPeriod) -> (r: Self)
        ensures
            r@ == (MakerConfigV {
                area: area@,
                period,
                currency: Currency::Eur,
                reference_baseline: 8500 * grid_step(2),
                reference_price: 8500 * grid_step(2),
                spread: 40 * grid_step(2),
                size: 10 * grid_step(1),
                demand: 0,
                surplus: 0,
                price_noise: 10 * grid_step(2),
                tick: grid_step(2),
                follow_last_trade: 0,
            }),
    {
        MarketMakerConfig {
            area,
            period,
            currency: Currency::Eur,
            reference_baseline: Decimal::new(8500, 2),
            reference_price: Decimal::new(8500, 2),
            spread: Decimal::new(40, 2),
            size: Decimal::new(10, 1),
            demand: Decimal::zero(),
            surplus: Decimal::zero(),
            price_noise: Decimal::new(10, 2),
            tick: Decimal::new(1, 2),
            follow_last_trade: Decimal::zero(),
        }
    }
}

/// The share of the gap to the baseline that a refresh closes: 0.02, a
/// half-life of about 35 refreshes.
pub open spec fn mean_revert_rate() -> int {
    2 * grid_step(2)
}

/// The trade is on this contract, in this area or the other one it crosses.
pub open spec fn prints_on(t: PublicTradeV, area: AreaV, period: DeliveryPeriod) -> bool {
    t.period == period && (t.buy_area == area || t.sell_area == area)
}

/// The most recent public trade on this contract, if there is one.
pub open spec fn last_print(
    history: Seq<PublicTradeV>,
    area: AreaV,
    period: DeliveryPeriod,
) -> Option<PublicTradeV>
    decreases history.len(),
{
    if history.len() == 0 {
        None
    } else if prints_on(history.last(), area, period) {
        Some(history.last())
    } else {
        last_print(history.drop_last(), area, period)
    }
}

/// The reference after it reverted toward the baseline.
pub open spec fn reverted(c: MakerConfigV) -> Option<int> {
    sum_of(
        Some(c.reference_price),
        product_of(
            decimal_difference(c.reference_baseline, c.reference_price),
            Some(mean_revert_rate()),
        ),
    )
}

/// The reference after it was also pulled toward the last trade, if the maker
/// follows trades and there was one.
pub open spec fn followed(c: MakerConfigV, history: Seq<PublicTradeV>) -> Option<int> {
    if c.follow_last_trade <= 0 {
        reverted(c)
    } else {
        match last_print(history, c.area, c.period) {
            Some(t) => sum_of(
                reverted(c),
                product_of(
                    decimal_difference(t.price, c.reference_price),
                    Some(c.follow_last_trade),
                ),
            ),
            None => reverted(c),
        }
    }
}

/// The reference after one refresh: reverted, pulled toward the last trade,
/// and moved by `draw` hundredths of the walk, which `scale` widens.
pub open spec fn next_reference(
    c: MakerConfigV,
    history: Seq<PublicTradeV>,
    draw: int,
    scale: int,
) -> Option<int> {
    if c.price_noise == 0 {
        followed(c, history)
    } else {
        sum_of(
            followed(c, history),
            product_of(Some(draw * grid_step(2)), decimal_product(c.price_noise, scale)),
        )
    }
}

/// The bid that goes with a configuration.
pub open spec fn bid_price(c: MakerConfigV) -> Option<int> {
    match sum_of(decimal_difference(c.reference_price, c.spread), Some(c.demand)) {
        Some(p) => snapped(p, c.tick),
        None => None,
    }
}

/// The ask that goes with a configuration.
pub open spec fn ask_price(c: MakerConfigV) -> Option<int> {
    match difference_of(decimal_sum(c.reference_price, c.spread), Some(c.surplus)) {
        Some(p) => snapped(p, c.tick),
        None => None,
    }
}

/// The order behind a quote.
pub open spec fn quote_order(c: MakerConfigV, side: Side, price: int) -> OrderV {
    limit_order(c.area, c.period, side, price, c.size, c.currency)
}

/// The exchange after an order left it, if there is one to leave.
pub open spec fn withdrawn(w: WorldV, id: Option<u64>, now: Timestamp) -> WorldV {
    match id {
        Some(id) => counterparty_canceled(w, id, now),
        None => w,
    }
}

/// A counterparty's order is taken up by the exchange: no rule objects to it,
/// and there is room for it.
pub open spec fn taken_up(w: WorldV, o: OrderV, now: Timestamp) -> bool {
    market_objection(w, o, now) is None && has_room_for(w, o, now)
}

/// The id a counterparty's order got, and the exchange after it. An order
/// that is not taken up gets none and changes nothing.
pub open spec fn posted(w: WorldV, o: OrderV, now: Timestamp) -> (Option<u64>, WorldV) {
    if taken_up(w, o, now) {
        (Some(w.next_order_id), admitted(w, o, None, now).world)
    } else {
        (None, w)
    }
}

/// A market maker's state.
pub ghost struct MakerV {
    pub config: MakerConfigV,
    pub bid_id: Option<u64>,
    pub ask_id: Option<u64>,
}

/// The maker and the exchange after the old quotes were replaced by these.
pub open spec fn requoted(m: MakerV, w: WorldV, bid: int, ask: int, now: Timestamp) -> (
    MakerV,
    WorldV,
) {
    let w1 = withdrawn(withdrawn(w, m.bid_id, now), m.ask_id, now);
    let (bid_id, w2) = posted(w1, quote_order(m.config, Side::Buy, bid), now);
    let (ask_id, w3) = posted(w2, quote_order(m.config, Side::Sell, ask), now);
    (MakerV { config: m.config, bid_id, ask_id }, w3)
}

/// The maker and the exchange after one refresh with this draw: the reference
/// moves, and the quotes around it replace the old ones unless demand and
/// surplus collapsed the spread. `None` where a price overflows.
pub open spec fn refreshed(m: MakerV, w: WorldV, draw: int, scale: int, now: Timestamp) -> Option<
    (MakerV, WorldV),
> {
    match next_reference(m.config, w.trade_history, draw, scale) {
        None => None,
        Some(price) => {
            let moved = MakerV {
                config: MakerConfigV { reference_price: price, ..m.config },
                ..m
            };
            match (bid_price(moved.config), ask_price(moved.config)) {
                (Some(bid), Some(ask)) => if bid >= ask {
                    Some((moved, w))
                } else {
                    Some(requoted(moved, w, bid, ask, now))
                },
                _ => None,
            }
        },
    }
}

/// The sum of two results.
fn sum(a: Option<Decimal>, b: Option<Decimal>) -> (r: Option<Decimal>)
    ensures
        value_of(r) == sum_of(value_of(a), value_of(b)),
        a is Some && b is Some && representable(a->0@ + b->0@) ==> value_of(r) == Some(
            a->0@ + b->0@,
        ),
        a is Some && value_of(b) == Some(0int) ==> value_of(r) == value_of(a),
{
    match (a, b) {
        (Some(a), Some(b)) => a.checked_plus(b),
        _ => None,
    }
}

/// The difference of two results.
fn difference(a: Option<Decimal>, b: Option<Decimal>) -> (r: Option<Decimal>)
    ensures
        value_of(r) == difference_of(value_of(a), value_of(b)),
        a is Some && b is Some && representable(a->0@ - b->0@) ==> value_of(r) == Some(
            a->0@ - b->0@,
        ),
{
    match (a, b) {
        (Some(a), Some(b)) => a.checked_minus(b),
        _ => None,
    }
}

/// The product of two results.
fn product(a: Option<Decimal>, b: Option<Decimal>) -> (r: Option<Decimal>)
    ensures
        value_of(r) == product_of(value_of(a), value_of(b)),
        a is Some && b is Some && (a->0@ * b->0@) % unit() == 0 && representable(
            (a->0@ * b->0@) / unit(),
        ) ==> value_of(r) == Some((a->0@ * b->0@) / unit()),
{
    match (a, b) {
        (Some(a), Some(b)) => a.checked_times(b),
        _ => None,
    }
}

/// The price of the most recent public trade on a contract.
fn last_price(history: &Vec<PublicTrade>, area: &Area, period: DeliveryPeriod) -> (r: Option<
    Decimal,
>)
    ensures
        match last_print(views(history@), area@, period) {
            Some(t) => value_of(r) == Some(t.price),
            None => r is None,
        },
{
    let ghost h = views(history@);
    let mut i: usize = history.len();
    assert(h.take(i as int) =~= h);
    while i > 0
        invariant
            i <= history@.len(),
            h == views(history@),
            last_print(h.take(i as int), area@, period) == last_print(h, area@, period),
        decreases i,
    {
        let t = &history[i - 1];
        proof {
            assert(h.take(i as int).last() == t@);
            assert(h.take(i as int).drop_last() =~= h.take(i - 1));
        }
        if t.period == period && (t.buy_area == *area || t.sell_area == *area) {
            return Some(t.price);
        }
        i -= 1;
    }
    None
}

/// The declaration of `rand`'s small generator, which a market maker draws
/// its walk from.
#[verifier::external_type_specification]
#[verifier::external_body]
pub struct ExSmallRng(rand::rngs::SmallRng);

/// `rand`'s `SmallRng::seed_from_u64`: a generator seeded with this number.
/// What it will draw depends on the platform, and nothing is said of it.
#[verifier::external_body]
fn seeded(seed: u64) -> (r: rand::rngs::SmallRng) {
    <rand::rngs::SmallRng as rand::SeedableRng>::seed_from_u64(seed)
}

/// `rand`'s `Rng::gen_range` over the numbers from -100 to 100: one of them.
/// Which one is up to the generator.
#[verifier::external_body]
fn draw_step(rng: &mut rand::rngs::SmallRng) -> (r: i64)
    ensures
        -100 <= r <= 100,
{
    rand::Rng::gen_range(rng, -100..=100)
}

/// A market maker: its configuration, its two quotes, and its generator.
pub struct MarketMaker {
    config: MarketMakerConfig,
    bid_id: Option<OrderId>,
    ask_id: Option<OrderId>,
    rng: rand::rngs::SmallRng,
}

impl View for MarketMaker {
    type V = MakerV;

    closed spec fn view(&self) -> MakerV {
        MakerV {
            config: self.config@,
            bid_id: view_option(self.bid_id),
            ask_id: view_option(self.ask_id),
        }
    }
}

impl MarketMaker {
    /// A market maker without quotes.
    pub fn new(config: MarketMakerConfig, seed: u64) -> (r: Self)
        ensures
            r@ == (MakerV { config: config@, bid_id: None, ask_id: None }),
    {
        MarketMaker { config, bid_id: None, ask_id: None, rng: seeded(seed) }
    }

    /// What the maker is set to.
    pub fn config(&self) -> (r: &MarketMakerConfig)
        ensures
            r@ == self@.config,
    {
        &self.config
    }

    /// What the maker is set to, for others to change: a change takes effect
    /// on the next refresh.
    pub fn shared_config(&mut self) -> (r: &mut MarketMakerConfig)
        ensures
            (*r)@ == old(self)@.config,
            final(self)@ == (MakerV { config: (*final(r))@, ..old(self)@ }),
    {
        &mut self.config
    }

    /// Move the reference one refresh forward, on a given draw: revert toward
    /// the baseline, follow the last public trade, and take the walk's step.
    /// `None` where it overflows. A reference that stands at its baseline,
    /// follows nothing and does not walk stays; where the numbers can be held
    /// exactly, the gap closes by one part in fifty.
    pub fn step_reference(&self, world: &World, draw: i64, scale: Decimal) -> (r: Option<Decimal>)
        ensures
            value_of(r) == next_reference(
                self@.config,
                world@.trade_history,
                draw as int,
                scale@,
            ),
            ({
                let c = self@.config;
                let gap = c.reference_baseline - c.reference_price;
                &&& c.price_noise == 0 && c.follow_last_trade <= 0 && representable(gap) && gap % 50
                    == 0 && representable(gap / 50) && representable(c.reference_price + gap / 50)
                    ==> value_of(r) == Some(c.reference_price + gap / 50)
                &&& c.price_noise == 0 && c.follow_last_trade <= 0 && gap == 0 ==> value_of(r)
                    == Some(c.reference_price)
            }),
            ({
                let c = self@.config;
                let gap = c.reference_baseline - c.reference_price;
                let drifted = c.reference_price + gap / 50;
                match last_print(world@.trade_history, c.area, c.period) {
                    Some(t) => {
                        let pull = (t.price - c.reference_price) * c.follow_last_trade;
                        c.price_noise == 0 && c.follow_last_trade > 0 && representable(gap) && gap
                            % 50 == 0 && representable(gap / 50) && representable(drifted)
                            && representable(t.price - c.reference_price) && pull % unit() == 0
                            && representable(pull / unit()) && representable(
                            drifted + pull / unit(),
                        ) ==> value_of(r) == Some(drifted + pull / unit())
                    },
                    None => c.price_noise == 0 && representable(gap) && gap % 50 == 0
                        && representable(gap / 50) && representable(drifted) ==> value_of(r)
                        == Some(drifted),
                }
            }),
            ({
                let c = self@.config;
                let width = c.price_noise * scale@;
                let walk = draw * (width / unit());
                c.reference_baseline == c.reference_price && c.follow_last_trade <= 0 && width
                    % unit() == 0 && representable(width / unit()) && walk % 100 == 0
                    && representable(walk / 100) && representable(c.reference_price + walk / 100)
                    ==> value_of(r) == Some(c.reference_price + walk / 100)
            }),
    {
        let c = &self.config;
        let gap = c.reference_baseline.checked_minus(c.reference_price);
        let rate = Decimal::new(2, 2);
        let step = product(gap, Some(rate));
        let mut price = sum(Some(c.reference_price), step);
        proof {
            let g = c.reference_baseline@ - c.reference_price@;
            lemma_step_part(g);
            if g == 0 {
                lemma_zero_representable();
            }
        }
        if Decimal::zero().less(c.follow_last_trade) {
            let history = world.public_trade_history();
            match last_price(&history, &c.area, c.period) {
                Some(last) => {
                    let pull = product(
                        last.checked_minus(c.reference_price),
                        Some(c.follow_last_trade),
                    );
                    price = sum(price, pull);
                },
                None => {},
            }
        }
        if !c.price_noise.is_zero() {
            let amplitude = c.price_noise.checked_times(scale);
            let walk = product(Some(Decimal::new(draw, 2)), amplitude);
            price = sum(price, walk);
            proof {
                let width = c.price_noise@ * scale@;
                lemma_hundredths(draw as int, width / unit());
            }
        } else {
            proof {
                lemma_no_walk(draw as int, scale@);
            }
        }
        price
    }

    /// Step the reference on a given draw, then, once the new pair is known
    /// to be valid, cancel the old quotes and post the new ones. Returns
    /// whether it did: where a price overflows, nothing changes.
    pub fn refresh_with(&mut self, world: &mut World, now: Timestamp, scale: Decimal, draw: i64) -> (r:
        bool)
        requires
            old(world).wf(),
            owners_known(old(world)@),
        ensures
            final(world).wf(),
            owners_known(final(world)@),
            r == (refreshed(old(self)@, old(world)@, draw as int, scale@, now) is Some),
            match refreshed(old(self)@, old(world)@, draw as int, scale@, now) {
                Some((m, w)) => final(self)@ == m && final(world)@ == w,
                None => final(self)@ == old(self)@ && final(world)@ == old(world)@,
            },
            r ==> ({
                let c = final(self)@.config;
                let low = c.reference_price - c.spread;
                let high = c.reference_price + c.spread;
                &&& representable(low) && representable(low + c.demand) && snaps_exactly(
                    low + c.demand,
                    c.tick,
                ) ==> bid_price(c) == Some(nearest_multiple(low + c.demand, c.tick))
                &&& representable(high) && representable(high - c.surplus) && snaps_exactly(
                    high - c.surplus,
                    c.tick,
                ) ==> ask_price(c) == Some(nearest_multiple(high - c.surplus, c.tick))
            }),
            next_reference(
                old(self)@.config,
                old(world)@.trade_history,
                draw as int,
                scale@,
            ) matches Some(price) ==> ({
                let c = MakerConfigV { reference_price: price, ..old(self)@.config };
                let low = price - c.spread;
                let high = price + c.spread;
                &&& representable(low) && representable(low + c.demand) && snaps_exactly(
                    low + c.demand,
                    c.tick,
                ) ==> bid_price(c) == Some(nearest_multiple(low + c.demand, c.tick))
                &&& representable(high) && representable(high - c.surplus) && snaps_exactly(
                    high - c.surplus,
                    c.tick,
                ) ==> ask_price(c) == Some(nearest_multiple(high - c.surplus, c.tick))
            }),
    {
        let price = match self.step_reference(world, draw, scale) {
            Some(price) => price,
            None => {
                return false;
            },
        };
        let c = &self.config;
        let low = sum(price.checked_minus(c.spread), Some(c.demand));
        let high = difference(price.checked_plus(c.spread), Some(c.surplus));
        let (bid, ask) = match (snap(low, c.tick), snap(high, c.tick)) {
            (Some(bid), Some(ask)) => (bid, ask),
            _ => {
                return false;
            },
        };
        self.config.reference_price = price;
        if !bid.less(ask) {
            return true;
        }
        withdraw(world, self.bid_id, now);
        withdraw(world, self.ask_id, now);
        self.bid_id = post(world, build(&self.config, Side::Buy, bid), now);
        self.ask_id = post(world, build(&self.config, Side::Sell, ask), now);
        true
    }

    /// Take both quotes off the exchange, for good.
    pub fn cancel_resting(&mut self, world: &mut World, now: Timestamp)
        requires
            old(world).wf(),
            owners_known(old(world)@),
        ensures
            final(world).wf(),
            owners_known(final(world)@),
            final(self)@ == (MakerV { bid_id: None, ask_id: None, ..old(self)@ }),
            final(world)@ == withdrawn(
                withdrawn(old(world)@, old(self)@.bid_id, now),
                old(self)@.ask_id,
                now,
            ),
    {
        withdraw(world, self.bid_id, now);
        withdraw(world, self.ask_id, now);
        self.bid_id = None;
        self.ask_id = None;
    }

    /// One refresh on a fresh draw, if the maker walks at all.
    pub fn refresh(&mut self, world: &mut World, now: Timestamp, scale: Decimal) -> (r: bool)
        requires
            old(world).wf(),
            owners_known(old(world)@),
        ensures
            final(world).wf(),
            owners_known(final(world)@),
            exists|draw: int| -100 <= draw <= 100 && {
                let after = #[trigger] refreshed(old(self)@, old(world)@, draw, scale@, now);
                &&& r == (after is Some)
                &&& match after {
                    Some((m, w)) => final(self)@ == m && final(world)@ == w,
                    None => final(self)@ == old(self)@ && final(world)@ == old(world)@,
                }
            },
            old(self)@.config.price_noise == 0 ==> match refreshed(
                old(self)@,
                old(world)@,
                0,
                scale@,
                now,
            ) {
                Some((m, w)) => r && final(self)@ == m && final(world)@ == w,
                None => !r && final(self)@ == old(self)@ && final(world)@ == old(world)@,
            },
    {
        let draw: i64 = if self.config.price_noise.is_zero() {
            0
        } else {
            draw_step(&mut self.rng)
        };
        assert(self@ == old(self)@);
        self.refresh_with(world, now, scale, draw)
    }
}

/// The value can be snapped to the tick without loss on the way.
pub open spec fn snaps_exactly(value: int, tick: int) -> bool {
    &&& snappable(value, tick)
    &&& (value * unit()) % tick == 0
    &&& representable((value * unit()) / tick)
    &&& representable(nearest_multiple(value, tick))
}

/// Snap a result to a tick.
fn snap(value: Option<Decimal>, tick: Decimal) -> (r: Option<Decimal>)
    ensures
        value is Some && snaps_exactly(value->0@, tick@) ==> value_of(r) == Some(
            nearest_multiple(value->0@, tick@),
        ),
        value_of(r) == match value_of(value) {
            Some(v) => snapped(v, tick@),
            None => None,
        },
{
    match value {
        Some(v) => checked_snap(v, tick),
        None => None,
    }
}

/// The order behind a quote.
fn build(c: &MarketMakerConfig, side: Side, price: Decimal) -> (r: Order)
    ensures
        r@ == quote_order(c@, side, price@),
{
    Order::limit(c.area.clone(), c.period, side, price, c.size, c.currency)
}

/// Take a counterparty's order off the exchange, if there is one.
fn withdraw(world: &mut World, id: Option<OrderId>, now: Timestamp)
    requires
        old(world).wf(),
        owners_known(old(world)@),
    ensures
        final(world).wf(),
        owners_known(final(world)@),
        final(world)@ == withdrawn(old(world)@, view_option(id), now),
{
    match id {
        Some(id) => {
            let _ = world.cancel_counterparty_order(id, now);
        },
        None => {},
    }
}

/// Hand a counterparty's order to the exchange; its id, if it was taken up.
fn post(world: &mut World, order: Order, now: Timestamp) -> (r: Option<OrderId>)
    requires
        old(world).wf(),
        owners_known(old(world)@),
    ensures
        final(world).wf(),
        owners_known(final(world)@),
        (view_option(r), final(world)@) == posted(old(world)@, order@, now),
{
    match world.place_counterparty_order(order, now) {
        Some(Ok(id)) => Some(id),
        _ => None,
    }
}

// ---------------------------------------------------------------------------
// The aggressor
// ---------------------------------------------------------------------------

/// What an aggressor is set to. How often it fires, and which side it leans
/// to, is the driver's.
#[derive(Debug)]
pub struct AggressorConfig {
    pub area: Area,
    pub period: DeliveryPeriod,
    pub currency: Currency,
    /// Quantity per shot, MW. Must align with the market's step.
    pub size: Decimal,
    /// What the aggressor thinks the contract is worth.
    pub reference_price: Decimal,
    /// Wait between shots, milliseconds, far from gate closure. Set by
    /// [`AggressorConfig::set_rate_ms`], which keeps it from spinning.
    pub rate_ms: u64,
    /// How far from the reference the aggressor trades at most, EUR/MWh.
    pub max_slippage: Decimal,
}

/// The view of an [`AggressorConfig`].
pub ghost struct AggressorV {
    pub area: AreaV,
    pub period: DeliveryPeriod,
    pub currency: Currency,
    pub size: int,
    pub reference_price: int,
    pub rate_ms: u64,
    pub max_slippage: int,
}

impl View for AggressorConfig {
    type V = AggressorV;

    open spec fn view(&self) -> AggressorV {
        AggressorV {
            area: self.area@,
            period: self.period,
            currency: self.currency,
            size: self.size@,
            reference_price: self.reference_price@,
            rate_ms: self.rate_ms,
            max_slippage: self.max_slippage@,
        }
    }
}

impl Clone for AggressorConfig {
    fn clone(&self) -> (r: Self)
        ensures
            r@ == self@,
    {
        AggressorConfig {
            area: self.area.clone(),
            period: self.period,
            currency: self.currency,
            size: self.size,
            reference_price: self.reference_price,
            rate_ms: self.rate_ms,
            max_slippage: self.max_slippage,
        }
    }
}

/// The shortest wait between shots, milliseconds.
pub const MIN_RATE_MS: u64 = 50;

impl AggressorConfig {
    /// Shoot every `ms` milliseconds, but no faster than the shortest wait
    /// allows.
    pub fn set_rate_ms(&mut self, ms: u64)
        ensures
            final(self)@ == (AggressorV {
                rate_ms: if ms < MIN_RATE_MS {
                    MIN_RATE_MS
                } else {
                    ms
                },
                ..old(self)@
            }),
    {
        self.rate_ms = if ms < MIN_RATE_MS {
            MIN_RATE_MS
        } else {
            ms
        };
    }

    /// Shots of 0.2 MW each second around 85.00 EUR/MWh, within 5.00 of it.
    pub fn default_for(area: Area, period: DeliveryPeriod) -> (r: Self)
        ensures
            r@ == (AggressorV {
                area: area@,
                period,
                currency: Currency::Eur,
                size: 2 * grid_step(1),
                reference_price: 8500 * grid_step(2),
                rate_ms: 1000,
                max_slippage: 500 * grid_step(2),
            }),
    {
        AggressorConfig {
            area,
            period,
            currency: Currency::Eur,
            size: Decimal::new(2, 1),
            reference_price: Decimal::new(8500, 2),
            rate_ms: 1000,
            max_slippage: Decimal::new(500, 2),
        }
    }
}

/// The larger of two values.
pub open spec fn larger(a: int, b: int) -> int {
    if a < b {
        b
    } else {
        a
    }
}

/// The edge of an aggressor's band on this side: its reference and the
/// slippage.
pub open spec fn shot_edge(c: AggressorV, side: Side) -> Option<int> {
    match side {
        Side::Buy => decimal_sum(c.reference_price, c.max_slippage),
        Side::Sell => decimal_difference(c.reference_price, c.max_slippage),
        Side::Unspecified => None,
    }
}

/// The last price with two decimals that is no worse than `edge` for this
/// side.
pub open spec fn inside(side: Side, edge: int) -> int {
    if side == Side::Sell {
        grid_ceiling(edge, 2)
    } else {
        grid_floor(edge, 2)
    }
}

/// The worst price an aggressor trades at on this side: the last one on the
/// price grid within its band.
pub open spec fn shot_limit(c: AggressorV, side: Side) -> Option<int> {
    match shot_edge(c, side) {
        Some(p) => Some(inside(side, p)),
        None => None,
    }
}

/// The edge of the band as a number without rounding.
pub open spec fn band_edge(c: AggressorV, side: Side) -> int {
    if side == Side::Sell {
        c.reference_price - c.max_slippage
    } else {
        c.reference_price + c.max_slippage
    }
}

/// How much an aggressor shoots for: its size times the multiplier, on the
/// quantity grid, and at least one step.
pub open spec fn shot_size(c: AggressorV, multiplier: int) -> Option<int> {
    match decimal_product(c.size, multiplier) {
        Some(q) => match snapped(q, grid_step(1)) {
            Some(s) => Some(larger(s, grid_step(1))),
            None => None,
        },
        None => None,
    }
}

/// The contract's own book has something on the other side within the limit.
pub open spec fn in_sight(w: WorldV, c: AggressorV, side: Side, limit: int) -> bool {
    offers(w.books, KeyV { area: c.area, period: c.period }, side, limit)
}

/// The order of a shot: immediate or cancel, at the limit.
pub open spec fn shot(c: AggressorV, side: Side, limit: int, size: int) -> OrderV {
    OrderV {
        execution_option: Some(ExecutionOption::Ioc),
        ..limit_order(c.area, c.period, side, limit, size, c.currency)
    }
}

/// The exchange after an aggressor fired on a side: nothing happens where
/// nothing is within its limit. `None` where a number overflows.
pub open spec fn fired(
    c: AggressorV,
    w: WorldV,
    side: Side,
    multiplier: int,
    now: Timestamp,
) -> Option<WorldV> {
    if side == Side::Unspecified {
        Some(w)
    } else {
        match shot_limit(c, side) {
            None => None,
            Some(limit) => if !in_sight(w, c, side, limit) {
                Some(w)
            } else {
                match shot_size(c, multiplier) {
                    None => None,
                    Some(size) => Some(posted(w, shot(c, side, limit, size), now).1),
                }
            },
        }
    }
}

/// A taker that crosses the best price of the other side.
#[derive(Debug)]
pub struct Aggressor {
    config: AggressorConfig,
}

impl View for Aggressor {
    type V = AggressorV;

    closed spec fn view(&self) -> AggressorV {
        self.config@
    }
}

impl Aggressor {
    /// An aggressor with this configuration.
    pub fn new(config: AggressorConfig) -> (r: Self)
        ensures
            r@ == config@,
    {
        Aggressor { config }
    }

    /// What the aggressor is set to.
    pub fn config(&self) -> (r: &AggressorConfig)
        ensures
            r@ == self@,
    {
        &self.config
    }

    /// What the aggressor is set to, for others to change: a change takes
    /// effect on the next shot.
    pub fn shared_config(&mut self) -> (r: &mut AggressorConfig)
        ensures
            (*r)@ == old(self)@,
            final(self)@ == (*final(r))@,
    {
        &mut self.config
    }

    /// Check that the best opposite price is within the slippage band around
    /// the reference, and submit an immediate-or-cancel limit order at its
    /// edge. Does nothing when the other side is empty or only carries
    /// orders that are too far off. Returns whether the numbers held: where
    /// one overflows, nothing changes.
    pub fn fire(&self, world: &mut World, now: Timestamp, side: Side, multiplier: Decimal) -> (r:
        bool)
        requires
            old(world).wf(),
            owners_known(old(world)@),
        ensures
            final(world).wf(),
            owners_known(final(world)@),
            match fired(self@, old(world)@, side, multiplier@, now) {
                Some(w) => r && final(world)@ == w,
                None => !r && final(world)@ == old(world)@,
            },
            side != Side::Unspecified && representable(band_edge(self@, side)) ==> shot_limit(
                self@,
                side,
            ) == Some(inside(side, band_edge(self@, side))),
            final(world)@ != old(world)@ ==> ({
                let amount = self@.size * multiplier@;
                let step = grid_step(1);
                amount % unit() == 0 && representable(amount / unit()) && snaps_exactly(
                    amount / unit(),
                    step,
                ) ==> shot_size(self@, multiplier@) == Some(
                    if nearest_multiple(amount / unit(), step) < step {
                        step
                    } else {
                        nearest_multiple(amount / unit(), step)
                    },
                )
            }),
            side != Side::Unspecified && shot_limit(self@, side) is Some && in_sight(
                old(world)@,
                self@,
                side,
                shot_limit(self@, side)->0,
            ) ==> ({
                let amount = self@.size * multiplier@;
                let step = grid_step(1);
                amount % unit() == 0 && representable(amount / unit()) && snaps_exactly(
                    amount / unit(),
                    step,
                ) ==> shot_size(self@, multiplier@) == Some(
                    if nearest_multiple(amount / unit(), step) < step {
                        step
                    } else {
                        nearest_multiple(amount / unit(), step)
                    },
                )
            }),
    {
        let c = &self.config;
        let edge = match side {
            Side::Buy => c.reference_price.checked_plus(c.max_slippage),
            Side::Sell => c.reference_price.checked_minus(c.max_slippage),
            Side::Unspecified => {
                return true;
            },
        };
        let limit = match edge {
            Some(p) => if side == Side::Sell {
                p.ceiling(2)
            } else {
                p.floor(2)
            },
            None => {
                return false;
            },
        };
        let key = ContractKey { area: c.area.clone(), period: c.period };
        let crossing = match world.book(&key) {
            Some(book) => match book.peek_opposite(side) {
                Some(best) => price_crosses(side, limit, best),
                None => false,
            },
            None => false,
        };
        assert(crossing == in_sight(world@, c@, side, limit@));
        if !crossing {
            return true;
        }
        let size = match snap(c.size.checked_times(multiplier), default_qty_step()) {
            Some(q) => q.max(default_qty_step()),
            None => {
                return false;
            },
        };
        let mut order = Order::limit(c.area.clone(), c.period, side, limit, size, c.currency);
        order.execution_option = Some(ExecutionOption::Ioc);
        let _ = post(world, order, now);
        true
    }
}

/// A fiftieth, as a product with the rate comes to it.
pub proof fn lemma_step_part(gap: int)
    ensures
        gap % 50 == 0 ==> (gap * mean_revert_rate()) % unit() == 0 && (gap * mean_revert_rate())
            / unit() == gap / 50,
{
    lemma_pow10_positive(26);
    assert(unit() == 100 * pow10(26)) by {
        reveal_with_fuel(pow10, 3);
    }
    let p = pow10(26);
    if gap % 50 == 0 {
        let k = gap / 50;
        assert(gap == 50 * k);
        assert(gap * (2 * p) == k * (100 * p)) by (nonlinear_arith)
            requires
                gap == 50 * k,
        ;
        assert((k * (100 * p)) % (100 * p) == 0 && (k * (100 * p)) / (100 * p) == k) by {
            vstd::arithmetic::div_mod::lemma_div_multiples_vanish(k, 100 * p);
            vstd::arithmetic::mul::lemma_mul_is_commutative(k, 100 * p);
            vstd::arithmetic::div_mod::lemma_mod_multiples_basic(k, 100 * p);
        }
    }
}

/// So many hundredths of a width, as a product with them comes to it.
proof fn lemma_hundredths(draw: int, width: int)
    ensures
        (draw * width) % 100 == 0 ==> ((draw * grid_step(2)) * width) % unit() == 0 && ((draw
            * grid_step(2)) * width) / unit() == (draw * width) / 100,
{
    lemma_pow10_positive(26);
    assert(unit() == 100 * pow10(26)) by {
        reveal_with_fuel(pow10, 3);
    }
    let p = pow10(26);
    assert(grid_step(2) == p);
    if (draw * width) % 100 == 0 {
        let k = (draw * width) / 100;
        assert(draw * width == 100 * k);
        assert((draw * p) * width == k * (100 * p)) by (nonlinear_arith)
            requires
                draw * width == 100 * k,
        ;
        assert((k * (100 * p)) % (100 * p) == 0 && (k * (100 * p)) / (100 * p) == k) by {
            vstd::arithmetic::div_mod::lemma_div_multiples_vanish(k, 100 * p);
            vstd::arithmetic::mul::lemma_mul_is_commutative(k, 100 * p);
            vstd::arithmetic::div_mod::lemma_mod_multiples_basic(k, 100 * p);
        }
    }
}

/// A walk of no width goes nowhere.
proof fn lemma_no_walk(draw: int, scale: int)
    ensures
        0 * scale == 0,
        0int / unit() == 0,
        draw * 0 == 0,
{
    lemma_pow10_positive(28);
    assert(0 * scale == 0) by (nonlinear_arith);
    assert(draw * 0 == 0) by (nonlinear_arith);
}

proof fn lemma_zero_representable()
    ensures
        representable(0),
{
    lemma_pow10_positive(28);
    lemma_zero_on_grid(0);
    assert(fits(0, 0)) by {
        assert(grid_limit(0) > 0) by (nonlinear_arith)
            requires
                pow10(28) > 0,
                grid_limit(0) == MANTISSA_LIMIT * pow10(28),
        ;
    }
}

} // verus!
