//! The state of one arbitrage triangle and the profit it offers.

use vstd::prelude::*;
use vstd::arithmetic::div_mod::*;
use vstd::arithmetic::mul::*;
use crate::scaled_decimals::{
    FastMath, SCALE, fixed_mul, fixed_inverse, fixed_complement, lemma_mul_unit,
};
use crate::websocket::OrderTicker;

verus! {

/// Three symbols `a`, `b`, `c` whose prices close a loop: buy along `a`, buy along
/// `b`, sell along `c`. The bot earns `c / (a * b)` of its stake, less three fees.
pub struct Triangle {
    symbol_a: String,
    symbol_b: String,
    symbol_c: String,
    a_price: u128,
    b_price: u128,
    c_price: u128,
    fee_ratio: u128,
    ab_reciprocal: u128,
}

/// What a `Triangle` holds.
pub struct TriangleView {
    pub symbol_a: Seq<char>,
    pub symbol_b: Seq<char>,
    pub symbol_c: Seq<char>,
    pub a_price: u128,
    pub b_price: u128,
    pub c_price: u128,
    /// What is left of a trade after the fee, in fixed point.
    pub fee_ratio: u128,
    /// `1 / (a * b)` in fixed point, as last computed.
    pub ab_reciprocal: u128,
}

impl View for Triangle {
    type V = TriangleView;

    closed spec fn view(&self) -> TriangleView {
        TriangleView {
            symbol_a: self.symbol_a@,
            symbol_b: self.symbol_b@,
            symbol_c: self.symbol_c@,
            a_price: self.a_price,
            b_price: self.b_price,
            c_price: self.c_price,
            fee_ratio: self.fee_ratio,
            ab_reciprocal: self.ab_reciprocal,
        }
    }
}

/// The leg that a ticker of `symbol` prices: 0 for `a`, 1 for `b`, 2 for `c`
/// (the first that matches), 3 for none.
pub open spec fn leg_of(t: TriangleView, symbol: Seq<char>) -> int {
    if symbol == t.symbol_a {
        0
    } else if symbol == t.symbol_b {
        1
    } else if symbol == t.symbol_c {
        2
    } else {
        3
    }
}

/// The price that a ticker gives its leg: the ask for the two buying legs, the bid for the selling leg.
pub open spec fn leg_price(order: OrderTicker, leg: int) -> u128 {
    if leg == 2 { order.bid_price } else { order.ask_price }
}

/// The price that the triangle holds for a leg.
pub open spec fn held_price(t: TriangleView, leg: int) -> u128 {
    if leg == 0 {
        t.a_price
    } else if leg == 1 {
        t.b_price
    } else {
        t.c_price
    }
}

/// A ticker changes the triangle: its symbol is one of the three and it moves that leg's price.
pub open spec fn ticker_applies(t: TriangleView, order: OrderTicker) -> bool {
    let leg = leg_of(t, order.symbol@);
    leg < 3 && held_price(t, leg) != leg_price(order, leg)
}

/// The reciprocal after the buying prices became `a` and `b`: recomputed where
/// their fixed-point product is positive, kept otherwise.
pub open spec fn next_reciprocal(t: TriangleView, a: u128, b: u128) -> u128 {
    let product = fixed_mul(a as int, b as int);
    if product > 0 { fixed_inverse(product) as u128 } else { t.ab_reciprocal }
}

/// The triangle after a ticker.
pub open spec fn after_ticker(t: TriangleView, order: OrderTicker) -> TriangleView {
    if !ticker_applies(t, order) {
        t
    } else {
        let leg = leg_of(t, order.symbol@);
        let p = leg_price(order, leg);
        if leg == 0 {
            TriangleView { a_price: p, ab_reciprocal: next_reciprocal(t, p, t.b_price), ..t }
        } else if leg == 1 {
            TriangleView { b_price: p, ab_reciprocal: next_reciprocal(t, t.a_price, p), ..t }
        } else {
            TriangleView { c_price: p, ..t }
        }
    }
}

/// A ticker can be taken without overflow: the new product of the buying prices fits.
pub open spec fn ticker_fits(t: TriangleView, order: OrderTicker) -> bool {
    let leg = leg_of(t, order.symbol@);
    let p = leg_price(order, leg);
    ticker_applies(t, order) ==> (
        (leg == 0 ==> p * t.b_price <= u128::MAX)
        && (leg == 1 ==> t.a_price * p <= u128::MAX))
}

/// `(1 - fee)^3` in fixed point, as the triangle computes it.
pub open spec fn fee_cube(t: TriangleView) -> int {
    fixed_mul(fixed_mul(t.fee_ratio as int, t.fee_ratio as int), t.fee_ratio as int)
}

/// `c / (a * b)` in fixed point: the return of the loop before fees.
pub open spec fn gross_return(t: TriangleView) -> int {
    fixed_mul(t.c_price as int, t.ab_reciprocal as int)
}

/// What is left of `x` after the three fees.
pub open spec fn after_fees(t: TriangleView, x: int) -> int {
    fixed_mul(x, fee_cube(t))
}

/// The return of the loop after the three fees.
pub open spec fn net_return(t: TriangleView) -> int {
    after_fees(t, gross_return(t))
}

/// The return can be computed without overflow.
pub open spec fn opportunity_fits(t: TriangleView) -> bool {
    &&& t.c_price * t.ab_reciprocal <= u128::MAX
    &&& gross_return(t) * fee_cube(t) <= u128::MAX
}

impl TriangleView {
    /// The fee ratio is at most one unit, and the reciprocal matches the buying
    /// prices whenever their product is positive.
    pub open spec fn wf(self) -> bool {
        &&& self.fee_ratio <= SCALE
        &&& self.ab_reciprocal <= SCALE * SCALE
        &&& fixed_mul(self.a_price as int, self.b_price as int) > 0 ==> self.ab_reciprocal
            == fixed_inverse(fixed_mul(self.a_price as int, self.b_price as int))
    }
}

proof fn lemma_fixed_mul_bounds(a: int, b: int)
    requires
        0 <= a,
        0 <= b,
    ensures
        0 <= fixed_mul(a, b),
        fixed_mul(a, b) * (SCALE as int) <= a * b,
{
    lemma_mul_nonnegative(a, b);
    lemma_fundamental_div_mod(a * b, SCALE as int);
    lemma_mod_pos_bound(a * b, SCALE as int);
    lemma_div_pos_is_pos(a * b, SCALE as int);
    lemma_mul_is_commutative(fixed_mul(a, b), SCALE as int);
}

proof fn lemma_fixed_mul_by_fraction(a: int, f: int)
    requires
        0 <= a,
        0 <= f <= SCALE,
    ensures
        0 <= fixed_mul(a, f) <= a,
{
    lemma_fixed_mul_bounds(a, f);
    lemma_mul_inequality(f, SCALE as int, a);
    lemma_mul_is_commutative(f, a);
    lemma_mul_is_commutative(SCALE as int, a);
    lemma_mul_inequality_converse(fixed_mul(a, f), a, SCALE as int);
}

proof fn lemma_inverse_bound(v: int)
    requires
        v > 0,
    ensures
        0 <= fixed_inverse(v) <= SCALE * SCALE,
{
    lemma_div_is_ordered_by_denominator((SCALE as int) * (SCALE as int), 1, v);
    lemma_div_pos_is_pos((SCALE as int) * (SCALE as int), v);
}

proof fn lemma_fee_cube_bound(f: int)
    requires
        0 <= f <= SCALE,
    ensures
        0 <= fixed_mul(fixed_mul(f, f), f) <= f,
{
    lemma_fixed_mul_by_fraction(f, f);
    lemma_fixed_mul_by_fraction(fixed_mul(f, f), f);
}

proof fn lemma_fee_products_fit(f: int)
    requires
        0 <= f <= SCALE,
    ensures
        f * f <= SCALE * SCALE,
        0 <= fixed_mul(f, f) <= f,
        fixed_mul(f, f) * f <= SCALE * SCALE,
        0 <= fixed_mul(fixed_mul(f, f), f) <= f,
{
    lemma_fixed_mul_by_fraction(f, f);
    assert(f * f <= SCALE * SCALE) by (nonlinear_arith)
        requires
            0 <= f <= SCALE,
    ;
    assert(fixed_mul(f, f) * f <= SCALE * SCALE) by (nonlinear_arith)
        requires
            0 <= fixed_mul(f, f) <= f,
            0 <= f <= SCALE,
    ;
    lemma_fee_cube_bound(f);
}

impl Triangle {
    /// An empty triangle over three symbols, with no prices yet; the fee (in
    /// billionths of a trade) is kept as the ratio `1 - fee` that survives it.
    pub fn new(pairs: [String; 3], fee: u128) -> (t: Triangle)
        ensures
            t@.symbol_a == pairs@[0]@,
            t@.symbol_b == pairs@[1]@,
            t@.symbol_c == pairs@[2]@,
            t@.a_price == 0,
            t@.b_price == 0,
            t@.c_price == 0,
            t@.fee_ratio == fixed_complement(fee as int),
            t@.ab_reciprocal == 0,
            t@.wf(),
    {
        let t = Triangle {
            symbol_a: pairs[0].clone(),
            symbol_b: pairs[1].clone(),
            symbol_c: pairs[2].clone(),
            a_price: 0,
            b_price: 0,
            c_price: 0,
            fee_ratio: FastMath::saturate(fee),
            ab_reciprocal: 0,
        };
        assert(fixed_mul(0, 0) == 0);
        t
    }

    fn update_reciprocal(&mut self)
        requires
            old(self).a_price * old(self).b_price <= u128::MAX,
        ensures
            final(self)@ == (TriangleView {
                ab_reciprocal: next_reciprocal(old(self)@, old(self).a_price, old(self).b_price),
                ..old(self)@
            }),
    {
        let denominator = FastMath::mul(self.a_price, self.b_price);
        if denominator > 0 {
            self.ab_reciprocal = FastMath::inverse_div(denominator);
        }
    }

    /// Takes a ticker into the triangle. A ticker of none of the three symbols, or
    /// one that leaves its leg's price as it was, changes nothing and gives
    /// `Err(false)`; otherwise the leg's price is replaced (the ask for `a` and `b`,
    /// the bid for `c`), the reciprocal of `a * b` follows, and the answer is `Ok(true)`.
    pub fn process_ticker(&mut self, order: &OrderTicker) -> (r: Result<bool, bool>)
        requires
            old(self)@.wf(),
            ticker_fits(old(self)@, *order),
        ensures
            r == (if ticker_applies(old(self)@, *order) { Ok::<bool, bool>(true) } else { Err(false) }),
            final(self)@ == after_ticker(old(self)@, *order),
            final(self)@.wf(),
            // A ticker of symbol `a` moves the `a` price to its ask whenever that differs.
            order.symbol@ == old(self)@.symbol_a ==> if order.ask_price != old(self)@.a_price {
                &&& r == Ok::<bool, bool>(true)
                &&& final(self)@.a_price == order.ask_price
                &&& final(self)@.b_price == old(self)@.b_price
                &&& final(self)@.c_price == old(self)@.c_price
            } else {
                r == Err::<bool, bool>(false) && final(self)@ == old(self)@
            },
            // A ticker of symbol `b` moves the `b` price to its ask whenever that differs.
            order.symbol@ != old(self)@.symbol_a && order.symbol@ == old(self)@.symbol_b ==> if
            order.ask_price != old(self)@.b_price {
                &&& r == Ok::<bool, bool>(true)
                &&& final(self)@.a_price == old(self)@.a_price
                &&& final(self)@.b_price == order.ask_price
                &&& final(self)@.c_price == old(self)@.c_price
            } else {
                r == Err::<bool, bool>(false) && final(self)@ == old(self)@
            },
            // A ticker of symbol `c` moves the `c` price to its bid whenever that differs.
            order.symbol@ != old(self)@.symbol_a && order.symbol@ != old(self)@.symbol_b
                && order.symbol@ == old(self)@.symbol_c ==> if order.bid_price
                != old(self)@.c_price {
                &&& r == Ok::<bool, bool>(true)
                &&& final(self)@.a_price == old(self)@.a_price
                &&& final(self)@.b_price == old(self)@.b_price
                &&& final(self)@.c_price == order.bid_price
                &&& final(self)@.ab_reciprocal == old(self)@.ab_reciprocal
            } else {
                r == Err::<bool, bool>(false) && final(self)@ == old(self)@
            },
            // A ticker of any other symbol changes nothing.
            order.symbol@ != old(self)@.symbol_a && order.symbol@ != old(self)@.symbol_b
                && order.symbol@ != old(self)@.symbol_c ==> r == Err::<bool, bool>(false)
                && final(self)@ == old(self)@,
            // The reciprocal is `1 / (a * b)` whenever that product is positive.
            fixed_mul(final(self)@.a_price as int, final(self)@.b_price as int) > 0
                ==> final(self)@.ab_reciprocal == fixed_inverse(
                fixed_mul(final(self)@.a_price as int, final(self)@.b_price as int),
            ),
    {
        let index: u8;
        let price: u128;
        if order.symbol == self.symbol_a {
            index = 0;
            price = order.ask_price;
        } else if order.symbol == self.symbol_b {
            index = 1;
            price = order.ask_price;
        } else if order.symbol == self.symbol_c {
            index = 2;
            price = order.bid_price;
        } else {
            return Err(false);
        }
        if index == 0 {
            if self.a_price == price {
                return Err(false);
            }
            self.a_price = price;
        } else if index == 1 {
            if self.b_price == price {
                return Err(false);
            }
            self.b_price = price;
        } else {
            if self.c_price == price {
                return Err(false);
            }
            self.c_price = price;
        }
        if index == 0 || index == 1 {
            self.update_reciprocal();
            proof {
                let product = fixed_mul(self.a_price as int, self.b_price as int);
                if product > 0 {
                    lemma_inverse_bound(product);
                }
            }
        }
        Ok(true)
    }

    fn get_ratio_margin(&self) -> (r: u128)
        requires
            self.c_price * self.ab_reciprocal <= u128::MAX,
        ensures
            r == gross_return(self@),
            r == fixed_mul(self@.c_price as int, self@.ab_reciprocal as int),
    {
        FastMath::mul(self.c_price, self.ab_reciprocal)
    }

    fn get_net_profit(&self, brute_profit: u128) -> (r: u128)
        requires
            self@.wf(),
            brute_profit * fee_cube(self@) <= u128::MAX,
        ensures
            r == after_fees(self@, brute_profit as int),
    {
        proof {
            lemma_fee_products_fit(self.fee_ratio as int);
        }
        let fee_ratio_square = FastMath::mul(self.fee_ratio, self.fee_ratio);
        let fee_ratio_cube = FastMath::mul(fee_ratio_square, self.fee_ratio);
        FastMath::mul(brute_profit, fee_ratio_cube)
    }

    /// The net return of the loop when it beats one unit (a profit), or `Err(false)`.
    pub fn calculate_opportunity(&self) -> (r: Result<u128, bool>)
        requires
            self@.wf(),
            opportunity_fits(self@),
        ensures
            r == (if net_return(self@) > SCALE {
                Ok::<u128, bool>(net_return(self@) as u128)
            } else {
                Err(false)
            }),
            // The same, written out: `c * (1 / (a * b))`, then times `(1 - fee)^3`, each step
            // truncated to the scale; reported when it beats one unit.
            ({
                let f = self@.fee_ratio as int;
                let net = fixed_mul(
                    fixed_mul(self@.c_price as int, self@.ab_reciprocal as int),
                    fixed_mul(fixed_mul(f, f), f),
                );
                r == if net > SCALE { Ok::<u128, bool>(net as u128) } else { Err(false) }
            }),
    {
        let brute_profit = self.get_ratio_margin();
        let net_profit = self.get_net_profit(brute_profit);
        if FastMath::compare_scale(net_profit) {
            Ok(net_profit)
        } else {
            Err(false)
        }
    }
}

impl Triangle {
    /// Whether `process_ticker` can take `order` without overflow.
    pub(crate) fn fits_ticker(&self, order: &OrderTicker) -> (r: bool)
        ensures
            r == ticker_fits(self@, *order),
    {
        if order.symbol == self.symbol_a {
            order.ask_price == self.a_price || order.ask_price.checked_mul(self.b_price).is_some()
        } else if order.symbol == self.symbol_b {
            order.ask_price == self.b_price || self.a_price.checked_mul(order.ask_price).is_some()
        } else {
            true
        }
    }

    /// Whether `calculate_opportunity` can run without overflow.
    pub(crate) fn fits_opportunity(&self) -> (r: bool)
        requires
            self@.wf(),
        ensures
            r == opportunity_fits(self@),
    {
        proof {
            lemma_fee_products_fit(self.fee_ratio as int);
        }
        match self.c_price.checked_mul(self.ab_reciprocal) {
            None => false,
            Some(_) => {
                let gross = FastMath::mul(self.c_price, self.ab_reciprocal);
                let square = FastMath::mul(self.fee_ratio, self.fee_ratio);
                let cube = FastMath::mul(square, self.fee_ratio);
                gross.checked_mul(cube).is_some()
            },
        }
    }

    /// The symbol of leg `a`.
    pub fn symbol_a(&self) -> (r: &String)
        ensures
            r@ == self@.symbol_a,
    {
        &self.symbol_a
    }

    /// The symbol of leg `b`.
    pub fn symbol_b(&self) -> (r: &String)
        ensures
            r@ == self@.symbol_b,
    {
        &self.symbol_b
    }

    /// The symbol of leg `c`.
    pub fn symbol_c(&self) -> (r: &String)
        ensures
            r@ == self@.symbol_c,
    {
        &self.symbol_c
    }

    /// The held prices of legs `a`, `b` and `c`.
    pub fn prices(&self) -> (r: (u128, u128, u128))
        ensures
            r == (self@.a_price, self@.b_price, self@.c_price),
    {
        (self.a_price, self.b_price, self.c_price)
    }

    /// The share of a trade that survives the fee.
    pub fn fee_ratio(&self) -> (r: u128)
        ensures
            r == self@.fee_ratio,
    {
        self.fee_ratio
    }

    /// The held reciprocal of `a * b`.
    pub fn ab_reciprocal(&self) -> (r: u128)
        ensures
            r == self@.ab_reciprocal,
    {
        self.ab_reciprocal
    }
}

// ---------------------------------------------------------------------------
// Laws of the triangle
// ---------------------------------------------------------------------------

/// Taking the same ticker twice changes the triangle once: the second time it
/// applies no more and leaves everything as it was.
pub proof fn lemma_ticker_idempotent(t: TriangleView, order: OrderTicker)
    ensures
        !ticker_applies(after_ticker(t, order), order),
        after_ticker(after_ticker(t, order), order) == after_ticker(t, order),
{
}

/// A ticker of a symbol outside the triangle leaves it as it was.
pub proof fn lemma_foreign_ticker_changes_nothing(t: TriangleView, order: OrderTicker)
    requires
        order.symbol@ != t.symbol_a,
        order.symbol@ != t.symbol_b,
        order.symbol@ != t.symbol_c,
    ensures
        !ticker_applies(t, order),
        after_ticker(t, order) == t,
{
}

/// A ticker moves one leg's price at most; the symbols and the fee stay.
pub proof fn lemma_ticker_moves_one_leg(t: TriangleView, order: OrderTicker)
    ensures
        ({
            let n = after_ticker(t, order);
            &&& n.symbol_a == t.symbol_a
            &&& n.symbol_b == t.symbol_b
            &&& n.symbol_c == t.symbol_c
            &&& n.fee_ratio == t.fee_ratio
            &&& (n.a_price != t.a_price) as int + (n.b_price != t.b_price) as int + (n.c_price
                != t.c_price) as int <= 1
            &&& n.ab_reciprocal != t.ab_reciprocal ==> (n.a_price != t.a_price || n.b_price
                != t.b_price)
        }),
{
}

/// With a fee of a whole trade or more, no loop ever pays.
pub proof fn lemma_full_fee_never_pays(fee: int, t: TriangleView)
    requires
        fee >= SCALE,
        t.fee_ratio == fixed_complement(fee),
    ensures
        t.fee_ratio == 0,
        net_return(t) == 0,
        !(net_return(t) > SCALE),
{
    assert(fixed_mul(0, 0) == 0);
    assert(fee_cube(t) == 0);
    assert(gross_return(t) * 0 == 0);
}

/// A higher selling price never lowers the net return.
pub proof fn lemma_net_return_grows_with_sell_price(t: TriangleView, c: u128)
    requires
        t.wf(),
        c >= t.c_price,
    ensures
        net_return(TriangleView { c_price: c, ..t }) >= net_return(t),
{
    let u = TriangleView { c_price: c, ..t };
    let r = t.ab_reciprocal as int;
    let s = SCALE as int;
    lemma_mul_inequality(t.c_price as int, c as int, r);
    lemma_div_is_ordered(t.c_price * r, c * r, s);
    assert(gross_return(u) >= gross_return(t));
    let f = t.fee_ratio as int;
    lemma_fee_cube_bound(f);
    lemma_fixed_mul_bounds(t.c_price as int, r);
    lemma_mul_inequality(gross_return(t), gross_return(u), fee_cube(t));
    lemma_div_is_ordered(gross_return(t) * fee_cube(t), gross_return(u) * fee_cube(t), s);
}

/// `process_ticker` answers `Ok(true)` exactly when the ticker changes the triangle.
pub proof fn lemma_ticker_applies_iff_changes(t: TriangleView, order: OrderTicker)
    ensures
        ticker_applies(t, order) <==> after_ticker(t, order) != t,
{
    if ticker_applies(t, order) {
        let leg = leg_of(t, order.symbol@);
        let n = after_ticker(t, order);
        assert(held_price(n, leg) != held_price(t, leg));
    }
}

/// Without fees (a fee ratio of one unit) nothing is taken from a return, and more
/// before the fees is never less after them.
pub proof fn lemma_after_fees(t: TriangleView, x1: int, x2: int)
    requires
        t.wf(),
        0 <= x1 <= x2,
    ensures
        t.fee_ratio == SCALE ==> after_fees(t, x1) == x1,
        after_fees(t, x1) <= after_fees(t, x2),
{
    let f = t.fee_ratio as int;
    lemma_fee_products_fit(f);
    if f == SCALE {
        lemma_mul_unit(SCALE as int);
        lemma_mul_unit(x1);
    }
    lemma_mul_inequality(x1, x2, fee_cube(t));
    lemma_div_is_ordered(x1 * fee_cube(t), x2 * fee_cube(t), SCALE as int);
}

/// Every ticker keeps the triangle well formed, whether or not it applies, and never
/// changes its symbols or its fee.
pub proof fn lemma_ticker_keeps_wf(t: TriangleView, order: OrderTicker)
    requires
        t.wf(),
    ensures
        after_ticker(t, order).wf(),
        after_ticker(t, order).symbol_a == t.symbol_a,
        after_ticker(t, order).symbol_b == t.symbol_b,
        after_ticker(t, order).symbol_c == t.symbol_c,
        after_ticker(t, order).fee_ratio == t.fee_ratio,
{
    let n = after_ticker(t, order);
    let product = fixed_mul(n.a_price as int, n.b_price as int);
    if product > 0 {
        lemma_inverse_bound(product);
    }
}

/// Without a fee the net return is the selling price times the reciprocal of the
/// buying prices, in fixed point, for every price (a selling price of 0.6 and a
/// reciprocal of 2 give 1.2).
pub proof fn lemma_net_return_without_fee(t: TriangleView)
    requires
        t.fee_ratio == SCALE,
    ensures
        net_return(t) == (t.c_price as int * t.ab_reciprocal as int) / (SCALE as int),
{
    lemma_mul_unit(SCALE as int);
    lemma_mul_unit(fixed_mul(t.c_price as int, t.ab_reciprocal as int));
}

/// Without a fee, and with buying prices whose product is at most one unit, a higher
/// selling price gives a strictly higher net return.
pub proof fn lemma_net_return_strictly_grows_without_fee(t: TriangleView, c: u128)
    requires
        t.fee_ratio == SCALE,
        t.ab_reciprocal >= SCALE,
        c > t.c_price,
    ensures
        net_return(TriangleView { c_price: c, ..t }) > net_return(t),
{
    let u = TriangleView { c_price: c, ..t };
    let r = t.ab_reciprocal as int;
    let s = SCALE as int;
    lemma_net_return_without_fee(t);
    lemma_net_return_without_fee(u);
    assert(c * r >= t.c_price * r + r) by (nonlinear_arith)
        requires
            c > t.c_price,
            r >= 0,
    ;
    lemma_div_plus_one_bound(t.c_price * r, c * r, s);
}

proof fn lemma_div_plus_one_bound(x: int, y: int, d: int)
    requires
        d > 0,
        0 <= x,
        y >= x + d,
    ensures
        y / d > x / d,
{
    lemma_div_is_ordered(x + d, y, d);
    lemma_div_plus_one(x, d);
}

} // verus!
