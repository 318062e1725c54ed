//! Decimal numbers for prices and quantities, and the grid rules on them.
//!
//! A [`Decimal`] is a 96-bit mantissa over a power of ten, as in the
//! `rust_decimal` crate, which does the arithmetic. Contracts speak of a
//! decimal by its view: the integer number of 10^-28 units it stands for.
//! Two decimals with the same view are the same number, whatever their
//! scales.

use vstd::prelude::*;

verus! {

/// One past the largest mantissa a decimal can hold (2^96).
pub const MANTISSA_LIMIT: i128 = 79228162514264337593543950336;

/// The largest number of digits behind the decimal point.
pub const MAX_SCALE: u32 = 28;

/// Ten to the power `n`.
pub open spec fn pow10(n: nat) -> int
    decreases n,
{
    if n == 0 {
        1
    } else {
        10 * pow10((n - 1) as nat)
    }
}

/// The view of the number one.
pub open spec fn unit() -> int {
    pow10(28)
}

/// The view of 10^-s: the step of the grid with `s` decimals.
pub open spec fn grid_step(s: nat) -> int {
    pow10((28 - s) as nat)
}

/// `v` is a whole number of steps of the grid with `s` decimals.
pub open spec fn on_grid(v: int, s: nat) -> bool {
    s <= 28 && v % grid_step(s) == 0
}

/// The magnitude that a mantissa over `s` decimals stays below.
pub open spec fn grid_limit(s: nat) -> int {
    MANTISSA_LIMIT * grid_step(s)
}

/// `v` can be written exactly with `s` decimals.
pub open spec fn fits(v: int, s: nat) -> bool {
    on_grid(v, s) && -grid_limit(s) < v < grid_limit(s)
}

/// `v` is exactly the value of some decimal.
pub open spec fn representable(v: int) -> bool {
    exists|s: nat| fits(v, s)
}

/// `v` is within the magnitude that no decimal operation overflows at.
pub open spec fn in_magnitude(v: int) -> bool {
    -((MANTISSA_LIMIT - 1) * unit()) <= v <= (MANTISSA_LIMIT - 1) * unit()
}

/// The product of `a` and `b` is within that magnitude.
pub open spec fn in_product_magnitude(a: int, b: int) -> bool {
    -((MANTISSA_LIMIT - 1) * unit() * unit()) <= a * b <= (MANTISSA_LIMIT - 1) * unit() * unit()
}

/// The value of the sum that `rust_decimal` returns for addends of these
/// values: the exact sum where a decimal can hold it, else a rounded one, and
/// none where even that overflows.
pub uninterp spec fn decimal_sum(a: int, b: int) -> Option<int>;

/// The value of the difference that `rust_decimal` returns, if it returns
/// one.
pub uninterp spec fn decimal_difference(a: int, b: int) -> Option<int>;

/// The value of the product that `rust_decimal` returns, if it returns one.
pub uninterp spec fn decimal_product(a: int, b: int) -> Option<int>;

/// The value of the quotient that `rust_decimal` returns, if it returns one.
pub uninterp spec fn decimal_quotient(a: int, b: int) -> Option<int>;

/// The text of a decimal of this value without trailing zeros.
pub uninterp spec fn decimal_text(v: int) -> Seq<char>;

/// The value that a text stands for, if it reads as a decimal.
pub uninterp spec fn decimal_value(text: Seq<char>) -> Option<int>;

/// Why a text does not read as a decimal.
pub uninterp spec fn decimal_complaint(text: Seq<char>) -> Seq<char>;

/// The remainder that keeps the sign of the dividend.
pub open spec fn signed_rem(a: int, b: int) -> int {
    if a >= 0 {
        a % b
    } else {
        -((-a) % b)
    }
}

/// The integer nearest to `a / b`, halves away from zero (`b > 0`).
pub open spec fn round_half_away(a: int, b: int) -> int {
    if a >= 0 {
        (2 * a + b) / (2 * b)
    } else {
        -((2 * (-a) + b) / (2 * b))
    }
}

/// A decimal number: `mantissa` over ten to the power `scale`.
#[derive(Clone, Copy, Debug)]
pub struct Decimal {
    mantissa: i128,
    scale: u32,
}

impl Decimal {
    #[verifier::type_invariant]
    spec fn in_range(&self) -> bool {
        -MANTISSA_LIMIT < self.mantissa < MANTISSA_LIMIT && self.scale <= MAX_SCALE
    }
}

/// The value of an optional decimal.
pub open spec fn value_of(d: Option<Decimal>) -> Option<int> {
    match d {
        Some(d) => Some(d@),
        None => None,
    }
}

impl View for Decimal {
    type V = int;

    closed spec fn view(&self) -> int {
        self.mantissa * pow10((28 - self.scale) as nat)
    }
}

impl Decimal {
    /// `num` over ten to the power `scale`.
    pub fn new(num: i64, scale: u32) -> (r: Decimal)
        requires
            scale <= MAX_SCALE,
        ensures
            r@ == num * grid_step(scale as nat),
    {
        Decimal { mantissa: num as i128, scale }
    }

    /// `mantissa` over ten to the power `scale`; `None` where a decimal cannot
    /// be stored so.
    pub fn from_parts(mantissa: i128, scale: u32) -> (r: Option<Decimal>)
        ensures
            r is Some <==> -MANTISSA_LIMIT < mantissa < MANTISSA_LIMIT && scale <= MAX_SCALE,
            r matches Some(d) ==> d@ == mantissa * grid_step(scale as nat),
    {
        if -MANTISSA_LIMIT < mantissa && mantissa < MANTISSA_LIMIT && scale <= MAX_SCALE {
            Some(Decimal { mantissa, scale })
        } else {
            None
        }
    }

    /// The number zero.
    pub fn zero() -> (r: Decimal)
        ensures
            r@ == 0,
    {
        Decimal { mantissa: 0, scale: 0 }
    }

    /// Whether the number is zero.
    pub fn is_zero(&self) -> (r: bool)
        ensures
            r == (self@ == 0),
    {
        proof {
            use_type_invariant(self);
            lemma_pow10_positive((28 - self.scale) as nat);
            let m = self.mantissa as int;
            let p = pow10((28 - self.scale) as nat);
            assert(m * p == 0 <==> m == 0) by (nonlinear_arith)
                requires
                    p > 0,
            ;
        }
        self.mantissa == 0
    }

    /// The mantissa and the scale the number is stored with.
    pub fn parts(&self) -> (r: (i128, u32))
        ensures
            r.1 <= MAX_SCALE,
            self@ == r.0 * grid_step(r.1 as nat),
    {
        proof {
            use_type_invariant(self);
        }
        (self.mantissa, self.scale)
    }
}

/// `rust_decimal`'s `Decimal::checked_add`. The result is the named sum: it
/// is there unless the sum is past the largest mantissa, and exact whenever a
/// decimal can hold the exact sum.
#[verifier::external_body]
fn outside_add(a: Decimal, b: Decimal) -> (r: Option<Decimal>)
    ensures
        value_of(r) == decimal_sum(a@, b@),
        in_magnitude(a@ + b@) ==> r is Some,
        representable(a@ + b@) ==> value_of(r) == Some(a@ + b@),
{
    let x = rust_decimal::Decimal::from_i128_with_scale(a.mantissa, a.scale);
    let y = rust_decimal::Decimal::from_i128_with_scale(b.mantissa, b.scale);
    match x.checked_add(y) {
        Some(r) => Some(Decimal { mantissa: r.mantissa(), scale: r.scale() }),
        None => None,
    }
}

/// `rust_decimal`'s `Decimal::checked_sub`. The result is the named
/// difference: it is there unless the difference is past the largest
/// mantissa, and exact whenever a decimal can hold the exact difference.
#[verifier::external_body]
fn outside_sub(a: Decimal, b: Decimal) -> (r: Option<Decimal>)
    ensures
        value_of(r) == decimal_difference(a@, b@),
        in_magnitude(a@ - b@) ==> r is Some,
        representable(a@ - b@) ==> value_of(r) == Some(a@ - b@),
{
    let x = rust_decimal::Decimal::from_i128_with_scale(a.mantissa, a.scale);
    let y = rust_decimal::Decimal::from_i128_with_scale(b.mantissa, b.scale);
    match x.checked_sub(y) {
        Some(r) => Some(Decimal { mantissa: r.mantissa(), scale: r.scale() }),
        None => None,
    }
}

/// `rust_decimal`'s `Decimal::checked_mul`. The result is the named product:
/// it is there unless the product is past the largest mantissa, and exact
/// whenever a decimal can hold the exact product.
#[verifier::external_body]
fn outside_mul(a: Decimal, b: Decimal) -> (r: Option<Decimal>)
    ensures
        value_of(r) == decimal_product(a@, b@),
        in_product_magnitude(a@, b@) ==> r is Some,
        (a@ * b@) % unit() == 0 && representable((a@ * b@) / unit()) ==> value_of(r) == Some(
            (a@ * b@) / unit(),
        ),
{
    let x = rust_decimal::Decimal::from_i128_with_scale(a.mantissa, a.scale);
    let y = rust_decimal::Decimal::from_i128_with_scale(b.mantissa, b.scale);
    match x.checked_mul(y) {
        Some(r) => Some(Decimal { mantissa: r.mantissa(), scale: r.scale() }),
        None => None,
    }
}

/// `rust_decimal`'s `Decimal::checked_div`. The result is the named quotient:
/// by a positive divisor it is there unless the quotient is past the largest
/// mantissa, exact whenever a decimal can hold the exact quotient, and never
/// more than one half away from it.
#[verifier::external_body]
fn outside_div(a: Decimal, b: Decimal) -> (r: Option<Decimal>)
    ensures
        value_of(r) == decimal_quotient(a@, b@),
        b@ > 0 && -((MANTISSA_LIMIT - 1) * b@) <= a@ <= (MANTISSA_LIMIT - 1) * b@ ==> r is Some,
        b@ > 0 && (a@ * unit()) % b@ == 0 && representable((a@ * unit()) / b@) ==> value_of(r)
            == Some((a@ * unit()) / b@),
        b@ > 0 && r is Some ==> -(b@ * unit()) <= 2 * (value_of(r)->0 * b@ - a@ * unit()) <= b@
            * unit(),
{
    let x = rust_decimal::Decimal::from_i128_with_scale(a.mantissa, a.scale);
    let y = rust_decimal::Decimal::from_i128_with_scale(b.mantissa, b.scale);
    match x.checked_div(y) {
        Some(r) => Some(Decimal { mantissa: r.mantissa(), scale: r.scale() }),
        None => None,
    }
}

/// `rust_decimal`'s `Decimal % Decimal`: the exact remainder, with the sign
/// of the dividend. A zero divisor panics and is left out.
#[verifier::external_body]
fn outside_rem(a: Decimal, b: Decimal) -> (r: Decimal)
    requires
        b@ > 0,
    ensures
        r@ == signed_rem(a@, b@),
{
    let r = rust_decimal::Decimal::from_i128_with_scale(a.mantissa, a.scale)
        % rust_decimal::Decimal::from_i128_with_scale(b.mantissa, b.scale);
    Decimal { mantissa: r.mantissa(), scale: r.scale() }
}

/// `rust_decimal`'s `<`: it compares the numbers, whatever their scales.
#[verifier::external_body]
fn outside_less(a: Decimal, b: Decimal) -> (r: bool)
    ensures
        r == (a@ < b@),
{
    rust_decimal::Decimal::from_i128_with_scale(a.mantissa, a.scale)
        < rust_decimal::Decimal::from_i128_with_scale(b.mantissa, b.scale)
}

/// `rust_decimal`'s `round_dp_with_strategy` to no decimals, midpoints away
/// from zero: the nearest whole number.
#[verifier::external_body]
fn outside_round(a: Decimal) -> (r: Decimal)
    ensures
        r@ == round_half_away(a@, unit()) * unit(),
{
    let r = rust_decimal::Decimal::from_i128_with_scale(a.mantissa, a.scale)
        .round_dp_with_strategy(0, rust_decimal::RoundingStrategy::MidpointAwayFromZero);
    Decimal { mantissa: r.mantissa(), scale: r.scale() }
}

/// `rust_decimal`'s `normalize` and its `to_string`: the number written out
/// without trailing zeros. The text depends on the value alone, and reads
/// back as that value.
#[verifier::external_body]
fn outside_text(a: Decimal) -> (r: String)
    ensures
        r@ == decimal_text(a@),
        decimal_value(r@) == Some(a@),
{
    rust_decimal::Decimal::from_i128_with_scale(a.mantissa, a.scale).normalize().to_string()
}

/// `rust_decimal`'s `Decimal::from_str`. What a text reads as, and what the
/// error says of one that does not read, are the named results.
#[verifier::external_body]
fn outside_parse(text: &str) -> (r: Result<Decimal, String>)
    ensures
        match r {
            Ok(d) => decimal_value(text@) == Some(d@),
            Err(e) => decimal_value(text@) is None && e@ == decimal_complaint(text@),
        },
{
    match text.parse::<rust_decimal::Decimal>() {
        Ok(d) => Ok(Decimal { mantissa: d.mantissa(), scale: d.scale() }),
        Err(e) => Err(e.to_string()),
    }
}

impl Decimal {
    /// Whether `self` is the smaller number.
    pub fn less(self, other: Decimal) -> (r: bool)
        ensures
            r == (self@ < other@),
    {
        outside_less(self, other)
    }

    /// Whether the two are the same number.
    pub fn same(self, other: Decimal) -> (r: bool)
        ensures
            r == (self@ == other@),
    {
        !outside_less(self, other) && !outside_less(other, self)
    }

    /// The smaller of the two.
    pub fn min(self, other: Decimal) -> (r: Decimal)
        ensures
            r@ == if self@ > other@ { other@ } else { self@ },
    {
        if outside_less(other, self) {
            other
        } else {
            self
        }
    }

    /// The larger of the two.
    pub fn max(self, other: Decimal) -> (r: Decimal)
        ensures
            r@ == if self@ < other@ { other@ } else { self@ },
    {
        if outside_less(self, other) {
            other
        } else {
            self
        }
    }

    /// The sum, where a decimal can hold it exactly.
    pub fn plus(self, other: Decimal) -> (r: Decimal)
        requires
            representable(self@ + other@),
        ensures
            r@ == self@ + other@,
    {
        match outside_add(self, other) {
            Some(r) => r,
            None => self,
        }
    }

    /// The difference, where a decimal can hold it exactly.
    pub fn minus(self, other: Decimal) -> (r: Decimal)
        requires
            representable(self@ - other@),
        ensures
            r@ == self@ - other@,
    {
        match outside_sub(self, other) {
            Some(r) => r,
            None => self,
        }
    }

    /// The sum, rounded where a decimal cannot hold it exactly; `None` where
    /// it overflows.
    pub fn checked_plus(self, other: Decimal) -> (r: Option<Decimal>)
        ensures
            value_of(r) == decimal_sum(self@, other@),
            representable(self@ + other@) ==> value_of(r) == Some(self@ + other@),
            other@ == 0 ==> value_of(r) == Some(self@),
            self@ == 0 ==> value_of(r) == Some(other@),
    {
        proof {
            use_type_invariant(&self);
            use_type_invariant(&other);
            self.lemma_value_representable();
            other.lemma_value_representable();
        }
        outside_add(self, other)
    }

    /// The difference, rounded where a decimal cannot hold it exactly; `None`
    /// where it overflows.
    pub fn checked_minus(self, other: Decimal) -> (r: Option<Decimal>)
        ensures
            value_of(r) == decimal_difference(self@, other@),
            representable(self@ - other@) ==> value_of(r) == Some(self@ - other@),
    {
        outside_sub(self, other)
    }

    /// The product, rounded where a decimal cannot hold it exactly; `None`
    /// where it overflows.
    pub fn checked_times(self, other: Decimal) -> (r: Option<Decimal>)
        ensures
            value_of(r) == decimal_product(self@, other@),
            (self@ * other@) % unit() == 0 && representable((self@ * other@) / unit()) ==> value_of(
                r,
            ) == Some((self@ * other@) / unit()),
    {
        outside_mul(self, other)
    }

    /// The quotient, rounded where a decimal cannot hold it exactly; `None`
    /// where it overflows or the divisor is zero.
    pub fn checked_over(self, other: Decimal) -> (r: Option<Decimal>)
        ensures
            value_of(r) == decimal_quotient(self@, other@),
            other@ > 0 && (self@ * unit()) % other@ == 0 && representable((self@ * unit()) / other@)
                ==> value_of(r) == Some((self@ * unit()) / other@),
            other@ == unit() ==> value_of(r) == Some(self@),
    {
        proof {
            use_type_invariant(&self);
            self.lemma_value_representable();
            lemma_pow10_positive(28);
            vstd::arithmetic::div_mod::lemma_div_multiples_vanish(self@, unit());
            vstd::arithmetic::mul::lemma_mul_is_commutative(self@, unit());
            vstd::arithmetic::div_mod::lemma_mod_multiples_basic(self@, unit());
        }
        outside_div(self, other)
    }

    /// The number written out without trailing zeros.
    pub fn to_text(self) -> (r: String)
        ensures
            r@ == decimal_text(self@),
            decimal_value(r@) == Some(self@),
    {
        outside_text(self)
    }

    /// The number a text stands for; `None` where it does not read as one.
    pub fn parse(text: &str) -> (r: Option<Decimal>)
        ensures
            r is Some <==> decimal_value(text@) is Some,
            r matches Some(d) ==> decimal_value(text@) == Some(d@),
    {
        match outside_parse(text) {
            Ok(d) => Some(d),
            Err(_) => None,
        }
    }

    /// The number a text stands for, or why it does not read as one.
    pub fn read(text: &str) -> (r: Result<Decimal, String>)
        ensures
            match r {
                Ok(d) => decimal_value(text@) == Some(d@),
                Err(e) => decimal_value(text@) is None && e@ == decimal_complaint(text@),
            },
    {
        outside_parse(text)
    }
}

impl PartialEq for Decimal {
    fn eq(&self, other: &Decimal) -> (r: bool) {
        self.same(*other)
    }
}

impl vstd::std_specs::cmp::PartialEqSpecImpl for Decimal {
    open spec fn obeys_eq_spec() -> bool {
        true
    }

    open spec fn eq_spec(&self, other: &Decimal) -> bool {
        self@ == other@
    }
}

impl Eq for Decimal {

}

/// Default intraday price tick: 0.01 EUR/MWh.
pub fn default_price_tick() -> (r: Decimal)
    ensures
        r@ == grid_step(2),
{
    Decimal::new(1, 2)
}

/// Default intraday quantity step: 0.1 MW.
pub fn default_qty_step() -> (r: Decimal)
    ensures
        r@ == grid_step(1),
{
    Decimal::new(1, 1)
}

/// True iff `value` is an exact multiple of `step`, of either sign.
pub fn is_multiple_of(value: Decimal, step: Decimal) -> (r: bool)
    requires
        step@ > 0,
    ensures
        r == (value@ % step@ == 0),
{
    proof {
        lemma_signed_rem_zero(value@, step@);
    }
    outside_rem(value, step).is_zero()
}

/// The largest value with `s` decimals that is not above `v`.
pub open spec fn grid_floor(v: int, s: nat) -> int {
    v - v % grid_step(s)
}

/// The smallest value with `s` decimals that is not below `v`.
pub open spec fn grid_ceiling(v: int, s: nat) -> int {
    v + (-v) % grid_step(s)
}

impl Decimal {
    /// The largest number with `s` decimals that is not above this one.
    pub fn floor(self, s: u32) -> (r: Decimal)
        requires
            s <= MAX_SCALE,
        ensures
            r@ == grid_floor(self@, s as nat),
            on_grid(r@, s as nat),
            r@ <= self@ < r@ + grid_step(s as nat),
    {
        let step = Decimal::new(1, s);
        proof {
            use_type_invariant(&self);
            self.lemma_value_representable();
            lemma_to_grid(self@, s as nat);
        }
        let past = outside_rem(self, step);
        let whole = self.minus(past);
        if past.less(Decimal::zero()) {
            whole.minus(step)
        } else {
            whole
        }
    }

    /// The smallest number with `s` decimals that is not below this one.
    pub fn ceiling(self, s: u32) -> (r: Decimal)
        requires
            s <= MAX_SCALE,
        ensures
            r@ == grid_ceiling(self@, s as nat),
            on_grid(r@, s as nat),
            r@ - grid_step(s as nat) < self@ <= r@,
    {
        let step = Decimal::new(1, s);
        proof {
            use_type_invariant(&self);
            self.lemma_value_representable();
            lemma_to_grid(self@, s as nat);
        }
        let past = outside_rem(self, step);
        let whole = self.minus(past);
        if Decimal::zero().less(past) {
            whole.plus(step)
        } else {
            whole
        }
    }
}

/// A value lies between its floor and its ceiling, less than a step from
/// either.
pub proof fn lemma_around(v: int, s: nat)
    requires
        s <= 28,
    ensures
        grid_step(s) > 0,
        on_grid(grid_floor(v, s), s),
        on_grid(grid_ceiling(v, s), s),
        grid_floor(v, s) <= v < grid_floor(v, s) + grid_step(s),
        grid_ceiling(v, s) - grid_step(s) < v <= grid_ceiling(v, s),
        grid_ceiling(v, s) == grid_floor(v, s) || grid_ceiling(v, s) == grid_floor(v, s)
            + grid_step(s),
{
    let t = grid_step(s);
    lemma_pow10_positive((28 - s) as nat);
    let k = v / t;
    let n = (-v) / t;
    vstd::arithmetic::div_mod::lemma_fundamental_div_mod(v, t);
    vstd::arithmetic::div_mod::lemma_fundamental_div_mod(-v, t);
    vstd::arithmetic::div_mod::lemma_mod_bound(v, t);
    vstd::arithmetic::div_mod::lemma_mod_bound(-v, t);
    let floor = grid_floor(v, s);
    let ceiling = grid_ceiling(v, s);
    assert(floor == k * t) by (nonlinear_arith)
        requires
            v == t * k + v % t,
            floor == v - v % t,
    ;
    assert(ceiling == (-n) * t) by (nonlinear_arith)
        requires
            -v == t * n + (-v) % t,
            ceiling == v + (-v) % t,
    ;
    vstd::arithmetic::div_mod::lemma_mod_multiples_basic(k, t);
    vstd::arithmetic::div_mod::lemma_mod_multiples_basic(-n, t);
    let gap = -n - k;
    assert(ceiling - floor == gap * t) by (nonlinear_arith)
        requires
            floor == k * t,
            ceiling == (-n) * t,
            gap == -n - k,
    ;
    assert(0 <= gap < 2) by (nonlinear_arith)
        requires
            0 <= gap * t < 2 * t,
            t > 0,
    ;
    assert(gap * t == 0 || gap * t == t) by (nonlinear_arith)
        requires
            gap == 0 || gap == 1,
    ;
}

/// The steps from a value that a decimal holds to the grid on either side.
proof fn lemma_to_grid(v: int, s: nat)
    requires
        representable(v),
        s <= 28,
    ensures
        ({
            let t = grid_step(s);
            let past = signed_rem(v, t);
            let whole = v - past;
            &&& t > 0
            &&& representable(whole)
            &&& past > 0 ==> representable(whole + t)
            &&& past < 0 ==> representable(whole - t)
            &&& grid_floor(v, s) == if past < 0 {
                whole - t
            } else {
                whole
            }
            &&& grid_ceiling(v, s) == if past > 0 {
                whole + t
            } else {
                whole
            }
            &&& on_grid(grid_floor(v, s), s)
            &&& on_grid(grid_ceiling(v, s), s)
            &&& grid_floor(v, s) <= v < grid_floor(v, s) + t
            &&& grid_ceiling(v, s) - t < v <= grid_ceiling(v, s)
        }),
{
    let t = grid_step(s);
    lemma_around(v, s);
    let past = signed_rem(v, t);
    let whole = v - past;
    let floor = grid_floor(v, s);
    let ceiling = grid_ceiling(v, s);
    vstd::arithmetic::div_mod::lemma_mod_bound(v, t);
    vstd::arithmetic::div_mod::lemma_mod_bound(-v, t);
    let m = choose|m: nat| fits(v, m);
    if m <= s {
        lemma_finer_grid(v, m, s);
        lemma_signed_rem_zero(v, t);
        assert(v % t == 0);
        assert(floor == v && whole == v);
    } else {
        let fine = grid_step(m);
        lemma_pow10_le((28 - m) as nat, (27 - s) as nat);
        assert(t == 10 * pow10((27 - s) as nat));
        assert(MANTISSA_LIMIT * fine + t < MANTISSA_LIMIT * t) by (nonlinear_arith)
            requires
                0 < t,
                10 * fine <= t,
                MANTISSA_LIMIT > 10,
        ;
        assert(fits(floor, s));
        assert(fits(ceiling, s));
    }
}

/// What [`snap_to_tick`] comes to: the quotient by `tick`, rounded to a whole
/// number, times `tick`, where neither overflows.
pub open spec fn snapped(value: int, tick: int) -> Option<int> {
    match decimal_quotient(value, tick) {
        Some(q) => decimal_product(round_half_away(q, unit()) * unit(), tick),
        None => None,
    }
}

/// The multiple of `tick` nearest to `value`, halves away from zero.
pub open spec fn nearest_multiple(value: int, tick: int) -> int {
    round_half_away(value, tick) * tick
}

/// The nearest multiple is one, and none is nearer; a value half way between
/// two goes to the one further from zero.
pub proof fn snapping_goes_to_the_nearest(value: int, tick: int, k: int)
    requires
        tick > 0,
    ensures
        nearest_multiple(value, tick) % tick == 0,
        -tick <= 2 * (nearest_multiple(value, tick) - value) <= tick,
        value >= 0 ==> 2 * (nearest_multiple(value, tick) - value) > -tick,
        value < 0 ==> 2 * (nearest_multiple(value, tick) - value) < tick,
        value % tick == 0 ==> nearest_multiple(value, tick) == value,
        ({
            let here = nearest_multiple(value, tick) - value;
            let there = k * tick - value;
            (if here < 0 {
                -here
            } else {
                here
            }) <= (if there < 0 {
                -there
            } else {
                there
            })
        }),
{
    let a = if value >= 0 {
        value
    } else {
        -value
    };
    let q = (2 * a + tick) / (2 * tick);
    vstd::arithmetic::div_mod::lemma_fundamental_div_mod(2 * a + tick, 2 * tick);
    vstd::arithmetic::div_mod::lemma_mod_bound(2 * a + tick, 2 * tick);
    let r = (2 * a + tick) % (2 * tick);
    assert(2 * (q * tick) == 2 * a + tick - r) by (nonlinear_arith)
        requires
            2 * a + tick == (2 * tick) * q + r,
    ;
    let n = if value >= 0 {
        q
    } else {
        -q
    };
    assert(nearest_multiple(value, tick) == n * tick);
    assert((-q) * tick == -(q * tick)) by (nonlinear_arith);
    assert((n * tick) % tick == 0) by {
        vstd::arithmetic::div_mod::lemma_mod_multiples_basic(n, tick);
    }
    let d = n - k;
    assert(n * tick - k * tick == d * tick) by (nonlinear_arith)
        requires
            d == n - k,
    ;
    assert(d == 0 ==> d * tick == 0) by (nonlinear_arith);
    assert(d >= 1 ==> d * tick >= tick) by (nonlinear_arith)
        requires
            tick > 0,
    ;
    assert(d <= -1 ==> d * tick <= -tick) by (nonlinear_arith)
        requires
            tick > 0,
    ;
    if value % tick == 0 {
        vstd::arithmetic::div_mod::lemma_fundamental_div_mod(value, tick);
        let m = value / tick;
        let e = n - m;
        assert(value == m * tick) by (nonlinear_arith)
            requires
                value == tick * m + 0,
        ;
        assert(n * tick - m * tick == e * tick) by (nonlinear_arith)
            requires
                e == n - m,
        ;
        assert(e >= 1 ==> e * tick >= tick) by (nonlinear_arith)
            requires
                tick > 0,
        ;
        assert(e <= -1 ==> e * tick <= -tick) by (nonlinear_arith)
            requires
                tick > 0,
        ;
    }
}

/// `value` and `tick` are small enough to be divided and multiplied back.
pub open spec fn snappable(value: int, tick: int) -> bool {
    &&& tick > 0
    &&& -((MANTISSA_LIMIT - 1) * tick) <= value <= (MANTISSA_LIMIT - 1) * tick
    &&& in_magnitude(value + tick)
    &&& in_magnitude(value - tick)
}

/// Snap `value` to the nearest multiple of `tick`, half-away-from-zero. Used
/// when a price comes off a continuous curve: the book only accepts on-grid
/// prices. A value on the grid is kept.
pub fn snap_to_tick(value: Decimal, tick: Decimal) -> (r: Decimal)
    requires
        snappable(value@, tick@),
    ensures
        Some(r@) == snapped(value@, tick@),
        value@ % tick@ == 0 ==> r@ == value@,
        (value@ * unit()) % tick@ == 0 && representable((value@ * unit()) / tick@) && representable(
            nearest_multiple(value@, tick@),
        ) ==> r@ == nearest_multiple(value@, tick@),
{
    match checked_snap(value, tick) {
        Some(r) => r,
        None => value,
    }
}

/// [`snap_to_tick`] on any value and tick; `None` where the arithmetic
/// overflows or the tick is zero.
pub fn checked_snap(value: Decimal, tick: Decimal) -> (r: Option<Decimal>)
    ensures
        value_of(r) == snapped(value@, tick@),
        snappable(value@, tick@) ==> r is Some,
        snappable(value@, tick@) && value@ % tick@ == 0 ==> value_of(r) == Some(value@),
        snappable(value@, tick@) && (value@ * unit()) % tick@ == 0 && representable(
            (value@ * unit()) / tick@,
        ) && representable(nearest_multiple(value@, tick@)) ==> value_of(r) == Some(
            nearest_multiple(value@, tick@),
        ),
{
    let ghost a = value@;
    let ghost b = tick@;
    let quotient = match outside_div(value, tick) {
        Some(q) => q,
        None => {
            return None;
        },
    };
    let whole = outside_round(quotient);
    let ghost q = quotient@;
    let ghost k = round_half_away(q, unit());
    proof {
        if snappable(a, b) {
            lemma_snap_steps(a, b, q);
            if a % b == 0 {
                use_type_invariant(&value);
                value.lemma_value_representable();
            }
        }
    }
    outside_mul(whole, tick)
}

/// The steps of a snap that stays within bounds.
proof fn lemma_snap_steps(a: int, b: int, q: int)
    requires
        snappable(a, b),
        -(b * unit()) <= 2 * (q * b - a * unit()) <= b * unit(),
        (a * unit()) % b == 0 && representable((a * unit()) / b) ==> q == (a * unit()) / b,
    ensures
        ({
            let k = round_half_away(q, unit());
            &&& in_product_magnitude(k * unit(), b)
            &&& (k * unit() * b) % unit() == 0
            &&& (k * unit() * b) / unit() == k * b
            &&& a % b == 0 ==> k * b == a
            &&& (a * unit()) % b == 0 && representable((a * unit()) / b) ==> k == round_half_away(
                a,
                b,
            )
        }),
{
    let k = round_half_away(q, unit());
    lemma_pow10_positive(28);
    lemma_snap_bound(a, b, q, unit());
    assert(k * unit() * b == k * b * unit()) by (nonlinear_arith);
    let top = (MANTISSA_LIMIT - 1) * unit();
    assert(-(top * unit()) <= k * b * unit() <= top * unit()) by (nonlinear_arith)
        requires
            -top <= k * b <= top,
            unit() > 0,
    ;
    assert((k * b * unit()) % unit() == 0 && (k * b * unit()) / unit() == k * b) by {
        vstd::arithmetic::div_mod::lemma_div_multiples_vanish(k * b, unit());
        vstd::arithmetic::mul::lemma_mul_is_commutative(k * b, unit());
        vstd::arithmetic::div_mod::lemma_mod_multiples_basic(k * b, unit());
    }
    if (a * unit()) % b == 0 && representable((a * unit()) / b) {
        vstd::arithmetic::div_mod::lemma_fundamental_div_mod(a * unit(), b);
        assert(q * b == a * unit()) by (nonlinear_arith)
            requires
                a * unit() == b * q + 0,
        ;
        lemma_round_ratio(a, b, q, unit());
    }
    if a % b == 0 {
        lemma_snap_exact_multiple(a, b);
        lemma_round_multiple(a, b);
    }
}

pub proof fn lemma_pow10_positive(n: nat)
    ensures
        pow10(n) > 0,
    decreases n,
{
    if n > 0 {
        lemma_pow10_positive((n - 1) as nat);
    }
}

pub proof fn lemma_pow10_le(m: nat, n: nat)
    requires
        m <= n,
    ensures
        pow10(m) <= pow10(n),
    decreases n,
{
    if m < n {
        lemma_pow10_le(m, (n - 1) as nat);
        lemma_pow10_positive((n - 1) as nat);
    }
}

/// Two values on the grid with `s` decimals: so are their sum and difference.
pub proof fn lemma_grid_closed(a: int, b: int, s: nat)
    requires
        on_grid(a, s),
        on_grid(b, s),
    ensures
        on_grid(a + b, s),
        on_grid(a - b, s),
{
    let step = grid_step(s);
    lemma_pow10_positive((28 - s) as nat);
    vstd::arithmetic::div_mod::lemma_add_mod_noop(a, b, step);
    vstd::arithmetic::div_mod::lemma_sub_mod_noop(a, b, step);
    vstd::arithmetic::div_mod::lemma_small_mod(0, step as nat);
}

proof fn lemma_signed_rem_zero(a: int, b: int)
    requires
        b > 0,
    ensures
        signed_rem(a, b) == 0 <==> a % b == 0,
{
    if a < 0 {
        vstd::arithmetic::div_mod::lemma_fundamental_div_mod(a, b);
        vstd::arithmetic::div_mod::lemma_fundamental_div_mod(-a, b);
        if a % b == 0 {
            let q = a / b;
            assert(-a == b * (-q)) by (nonlinear_arith)
                requires
                    a == b * q,
            ;
            vstd::arithmetic::div_mod::lemma_mod_multiples_basic(-q, b);
            vstd::arithmetic::mul::lemma_mul_is_commutative(-q, b);
        }
        if (-a) % b == 0 {
            let q = (-a) / b;
            assert(a == b * (-q)) by (nonlinear_arith)
                requires
                    -a == b * q,
            ;
            vstd::arithmetic::div_mod::lemma_mod_multiples_basic(-q, b);
            vstd::arithmetic::mul::lemma_mul_is_commutative(-q, b);
        }
    }
}

/// Rounding moves a ratio by at most one half.
proof fn lemma_round_error(a: int, b: int)
    requires
        b > 0,
    ensures
        -b <= 2 * (round_half_away(a, b) * b - a) <= b,
{
    let m = if a >= 0 { a } else { -a };
    let t = (2 * m + b) / (2 * b);
    vstd::arithmetic::div_mod::lemma_fundamental_div_mod(2 * m + b, 2 * b);
    vstd::arithmetic::div_mod::lemma_mod_bound(2 * m + b, 2 * b);
    assert(2 * b * t == 2 * (t * b)) by (nonlinear_arith);
    assert(-b <= 2 * (t * b - m) <= b);
    assert((-t) * b == -(t * b)) by (nonlinear_arith);
}

proof fn lemma_snap_bound(a: int, b: int, q: int, u: int)
    requires
        b > 0,
        u > 0,
        -(b * u) <= 2 * (q * b - a * u) <= b * u,
    ensures
        -b <= round_half_away(q, u) * b - a <= b,
{
    lemma_round_error(q, u);
    let k = round_half_away(q, u);
    assert(-b <= k * b - a <= b) by (nonlinear_arith)
        requires
            b > 0,
            u > 0,
            -(b * u) <= 2 * (q * b - a * u) <= b * u,
            -u <= 2 * (k * u - q) <= u,
    {
        let x = k * b - a;
        assert(2 * (k * u - q) * b == 2 * (k * u * b - q * b));
        assert(-(u * b) <= 2 * (k * u * b - q * b) <= u * b);
        assert(k * u * b - a * u == x * u);
        assert(-(2 * (b * u)) <= 2 * (x * u) <= 2 * (b * u));
        assert(-(b * u) <= x * u <= b * u);
        assert(-b <= x <= b);
    }
}

/// Equal ratios round to the same integer.
proof fn lemma_round_ratio(a: int, b: int, q: int, u: int)
    requires
        b > 0,
        u > 0,
        q * b == a * u,
    ensures
        round_half_away(q, u) == round_half_away(a, b),
{
    assert((q >= 0) == (a >= 0)) by (nonlinear_arith)
        requires
            b > 0,
            u > 0,
            q * b == a * u,
    ;
    let m = if a >= 0 { a } else { -a };
    let n = if a >= 0 { q } else { -q };
    assert(n * b == m * u) by (nonlinear_arith)
        requires
            q * b == a * u,
            m == (if a >= 0 { a } else { -a }),
            n == (if a >= 0 { q } else { -q }),
    ;
    assert(b * (2 * n + u) == u * (2 * m + b)) by (nonlinear_arith)
        requires
            n * b == m * u,
    ;
    assert(b * (2 * u) == u * (2 * b)) by (nonlinear_arith);
    vstd::arithmetic::div_mod::lemma_div_multiples_vanish_quotient(b, 2 * n + u, 2 * u);
    vstd::arithmetic::div_mod::lemma_div_multiples_vanish_quotient(u, 2 * m + b, 2 * b);
}

/// A multiple rounds to itself.
proof fn lemma_round_multiple(a: int, b: int)
    requires
        b > 0,
        a % b == 0,
    ensures
        round_half_away(a, b) * b == a,
{
    lemma_round_error(a, b);
    vstd::arithmetic::div_mod::lemma_fundamental_div_mod(a, b);
    let k = round_half_away(a, b);
    let t = a / b;
    assert(k == t) by (nonlinear_arith)
        requires
            a == b * t,
            -b <= 2 * (k * b - a) <= b,
            b > 0,
    ;
    assert(k * b == b * k) by (nonlinear_arith);
}

/// The quotient of a multiple is a whole number, which a decimal can hold.
proof fn lemma_snap_exact_multiple(a: int, b: int)
    requires
        b > 0,
        a % b == 0,
        -((MANTISSA_LIMIT - 1) * b) <= a <= (MANTISSA_LIMIT - 1) * b,
    ensures
        (a * unit()) % b == 0,
        representable((a * unit()) / b),
{
    lemma_pow10_positive(28);
    vstd::arithmetic::div_mod::lemma_fundamental_div_mod(a, b);
    let t = a / b;
    assert(a * unit() == (t * unit()) * b) by (nonlinear_arith)
        requires
            a == b * t,
    ;
    vstd::arithmetic::div_mod::lemma_mod_multiples_basic(t * unit(), b);
    vstd::arithmetic::mul::lemma_mul_is_commutative(t * unit(), b);
    vstd::arithmetic::div_mod::lemma_div_multiples_vanish(t * unit(), b);
    vstd::arithmetic::div_mod::lemma_mod_multiples_basic(t, unit());
    let top = MANTISSA_LIMIT as int;
    assert(-top < t < top) by (nonlinear_arith)
        requires
            a == b * t,
            -((top - 1) * b) <= a <= (top - 1) * b,
            b > 0,
    ;
    assert(-(top * unit()) < t * unit() < top * unit()) by (nonlinear_arith)
        requires
            -top < t < top,
            unit() > 0,
    ;
    assert(fits(t * unit(), 0));
}

impl Decimal {
    /// The value of a decimal is representable.
    proof fn lemma_value_representable(self)
        requires
            self.in_range(),
        ensures
            representable(self@),
    {
        let s = self.scale as nat;
        let m = self.mantissa as int;
        let step = grid_step(s);
        lemma_pow10_positive((28 - s) as nat);
        vstd::arithmetic::div_mod::lemma_mod_multiples_basic(m, step);
        let top = MANTISSA_LIMIT as int;
        assert(-(top * step) < m * step < top * step) by (nonlinear_arith)
            requires
                -top < m < top,
                step > 0,
        ;
        assert(fits(self@, s));
    }
}

/// A finer grid holds what a coarser one does, up to a lower limit.
pub proof fn lemma_finer_grid(v: int, g: nat, h: nat)
    requires
        on_grid(v, g),
        g <= h <= 28,
    ensures
        on_grid(v, h),
        grid_limit(h) <= grid_limit(g),
{
    lemma_pow10_split((28 - h) as nat, (h - g) as nat);
    lemma_pow10_positive((28 - h) as nat);
    lemma_pow10_positive((h - g) as nat);
    lemma_pow10_le((28 - h) as nat, (28 - g) as nat);
    let fine = grid_step(h);
    let ratio = pow10((h - g) as nat);
    vstd::arithmetic::div_mod::lemma_fundamental_div_mod(v, grid_step(g));
    let m = v / grid_step(g);
    assert(v == (ratio * m) * fine) by (nonlinear_arith)
        requires
            v == grid_step(g) * m,
            grid_step(g) == fine * ratio,
    ;
    vstd::arithmetic::div_mod::lemma_mod_multiples_basic(ratio * m, fine);
    assert(MANTISSA_LIMIT * fine <= MANTISSA_LIMIT * grid_step(g)) by (nonlinear_arith)
        requires
            fine <= grid_step(g),
            MANTISSA_LIMIT > 0,
    ;
}

proof fn lemma_pow10_split(a: nat, b: nat)
    ensures
        pow10(a + b) == pow10(a) * pow10(b),
    decreases b,
{
    if b == 0 {
        assert(pow10(a) * 1 == pow10(a)) by (nonlinear_arith);
    } else {
        lemma_pow10_split(a, (b - 1) as nat);
        assert(10 * (pow10(a) * pow10((b - 1) as nat)) == pow10(a) * (10 * pow10(
            (b - 1) as nat,
        ))) by (nonlinear_arith);
    }
}

impl Decimal {
    /// The smallest number of decimals the number can be written with.
    pub fn decimals(&self) -> (r: u32)
        ensures
            r <= 28,
            on_grid(self@, r as nat),
            forall|g: nat| #[trigger] on_grid(self@, g) ==> g >= r,
    {
        proof {
            use_type_invariant(self);
        }
        let negative = self.mantissa < 0;
        let mut m: u128 = if negative {
            (-self.mantissa) as u128
        } else {
            self.mantissa as u128
        };
        let mut s: u32 = self.scale;
        let ghost v = if negative {
            -self@
        } else {
            self@
        };
        proof {
            let p = pow10((28 - s) as nat);
            assert((-self.mantissa) * p == -(self.mantissa * p)) by (nonlinear_arith);
        }
        while s > 0 && m % 10 == 0
            invariant
                s <= 28,
                v == m * grid_step(s as nat),
            decreases s,
        {
            proof {
                let p = pow10((28 - s) as nat);
                assert(pow10((28 - (s - 1)) as nat) == 10 * p);
                assert(m * p == (m / 10) * (10 * p)) by (nonlinear_arith)
                    requires
                        m % 10 == 0,
                        m >= 0,
                ;
            }
            m = m / 10;
            s = s - 1;
        }
        proof {
            let p = grid_step(s as nat);
            lemma_pow10_positive((28 - s) as nat);
            vstd::arithmetic::div_mod::lemma_mod_multiples_basic(m as int, p);
            lemma_grid_sign(v, s as nat);
            assert forall|g: nat| #[trigger] on_grid(self@, g) implies g >= s by {
                if g < s {
                    lemma_grid_sign(self@, g);
                    assert(on_grid(v, g));
                    lemma_finer_grid(v, g, (s - 1) as nat);
                    let q = grid_step((s - 1) as nat);
                    assert(q == 10 * p);
                    vstd::arithmetic::div_mod::lemma_fundamental_div_mod(v, q);
                    let k = v / q;
                    assert(m == 10 * k) by (nonlinear_arith)
                        requires
                            m * p == (10 * p) * k,
                            p > 0,
                    ;
                }
            }
        }
        s
    }

    /// The whole number of grid steps the number is, if it is one within the
    /// limit of the grid.
    pub fn steps(&self, g: u32) -> (r: Option<i128>)
        requires
            g <= 28,
        ensures
            match r {
                Some(m) => fits(self@, g as nat) && self@ == m * grid_step(g as nat)
                    && -MANTISSA_LIMIT < m < MANTISSA_LIMIT,
                None => !fits(self@, g as nat),
            },
    {
        proof {
            use_type_invariant(self);
        }
        let negative = self.mantissa < 0;
        let mut m: u128 = if negative {
            (-self.mantissa) as u128
        } else {
            self.mantissa as u128
        };
        let mut s: u32 = self.scale;
        let ghost v = if negative {
            -self@
        } else {
            self@
        };
        proof {
            let p = pow10((28 - s) as nat);
            assert((-self.mantissa) * p == -(self.mantissa * p)) by (nonlinear_arith);
            lemma_grid_sign(self@, g as nat);
            lemma_grid_sign(v, g as nat);
        }
        while s > g
            invariant
                s <= 28,
                m < MANTISSA_LIMIT,
                v == m * grid_step(s as nat),
                v == self@ || v == -self@,
                fits(self@, g as nat) == fits(v, g as nat),
            decreases s,
        {
            proof {
                let p = pow10((28 - s) as nat);
                lemma_pow10_positive((28 - s) as nat);
                let q = pow10((28 - (s - 1)) as nat);
                assert(q == 10 * p);
                if m % 10 != 0 && on_grid(v, g as nat) {
                    lemma_finer_grid(v, g as nat, (s - 1) as nat);
                    vstd::arithmetic::div_mod::lemma_fundamental_div_mod(v, q);
                    let k = v / q;
                    assert(m == 10 * k) by (nonlinear_arith)
                        requires
                            m * p == (10 * p) * k,
                            p > 0,
                    ;
                }
                if m % 10 == 0 {
                    assert(m * p == (m / 10) * (10 * p)) by (nonlinear_arith)
                        requires
                            m % 10 == 0,
                            m >= 0,
                    ;
                }
            }
            if m % 10 != 0 {
                return None;
            }
            m = m / 10;
            s = s - 1;
        }
        while s < g
            invariant
                s <= g <= 28,
                m < MANTISSA_LIMIT,
                v == m * grid_step(s as nat),
                fits(self@, g as nat) == fits(v, g as nat),
            decreases g - s,
        {
            proof {
                let p = pow10((28 - s) as nat);
                let q = pow10((28 - (s + 1)) as nat);
                assert(p == 10 * q);
                lemma_pow10_positive((28 - (s + 1)) as nat);
                assert(m * (10 * q) == (10 * m) * q) by (nonlinear_arith);
                if 10 * m >= MANTISSA_LIMIT {
                    lemma_pow10_positive((28 - g) as nat);
                    lemma_pow10_le((28 - g) as nat, (28 - (s + 1)) as nat);
                    let h = grid_step(g as nat);
                    let n = 10 * m;
                    assert(n * q >= MANTISSA_LIMIT * h) by (nonlinear_arith)
                        requires
                            n >= MANTISSA_LIMIT,
                            q >= h,
                            h >= 0,
                            MANTISSA_LIMIT > 0,
                    ;
                }
            }
            if m * 10 >= 79_228_162_514_264_337_593_543_950_336 {
                return None;
            }
            m = m * 10;
            s = s + 1;
        }
        proof {
            let p = grid_step(g as nat);
            lemma_pow10_positive((28 - g) as nat);
            vstd::arithmetic::div_mod::lemma_mod_multiples_basic(m as int, p);
            assert(-(MANTISSA_LIMIT * p) < m * p < MANTISSA_LIMIT * p) by (nonlinear_arith)
                requires
                    0 <= m < MANTISSA_LIMIT,
                    p > 0,
            ;
            assert((-m) * p == -(m * p)) by (nonlinear_arith);
        }
        if negative {
            Some(-(m as i128))
        } else {
            Some(m as i128)
        }
    }
}

/// A number is on a grid as its negative is.
proof fn lemma_grid_sign(v: int, g: nat)
    ensures
        on_grid(v, g) == on_grid(-v, g),
{
    if g <= 28 {
        let step = grid_step(g);
        lemma_pow10_positive((28 - g) as nat);
        if v % step == 0 {
            lemma_negated_multiple(v, step);
        }
        if (-v) % step == 0 {
            lemma_negated_multiple(-v, step);
        }
    }
}

proof fn lemma_negated_multiple(v: int, step: int)
    requires
        step > 0,
        v % step == 0,
    ensures
        (-v) % step == 0,
{
    vstd::arithmetic::div_mod::lemma_fundamental_div_mod(v, step);
    let k = v / step;
    assert(-v == (-k) * step) by (nonlinear_arith)
        requires
            v == step * k,
    ;
    vstd::arithmetic::div_mod::lemma_mod_multiples_basic(-k, step);
}

} // verus!
