//! What the analysing loop does with each ticker that reaches it.

use vstd::prelude::*;
use crate::scaled_decimals::{SCALE, fixed_mul};
use crate::triangle_calculator::{
    Triangle, TriangleView, after_ticker, net_return, opportunity_fits, ticker_applies,
    ticker_fits, lemma_ticker_applies_iff_changes,
};
use crate::websocket::OrderTicker;

verus! {

/// The result of one ticker for the analysing loop.
#[derive(Debug, Clone, Copy, PartialEq, Eq)]
pub enum TickerOutcome {
    /// The ticker does not concern the triangle or moves no price.
    Ignored,
    /// A price moved and the loop offers no profit.
    Updated,
    /// A price moved and the loop returns this much (more than one unit) after fees.
    Opportunity(u128),
    /// The fixed-point arithmetic would exceed a `u128`.
    Overflow,
}

/// The triangle and the outcome after one ticker.
pub open spec fn analysis(t: TriangleView, order: OrderTicker) -> (TriangleView, TickerOutcome) {
    if !ticker_fits(t, order) {
        (t, TickerOutcome::Overflow)
    } else if !ticker_applies(t, order) {
        (t, TickerOutcome::Ignored)
    } else {
        let next = after_ticker(t, order);
        if !opportunity_fits(next) {
            (next, TickerOutcome::Overflow)
        } else if net_return(next) > SCALE {
            (next, TickerOutcome::Opportunity(net_return(next) as u128))
        } else {
            (next, TickerOutcome::Updated)
        }
    }
}

/// Takes one ticker into the triangle and says whether the loop now pays.
pub fn analyze_ticker(triangle: &mut Triangle, order: &OrderTicker) -> (r: TickerOutcome)
    requires
        old(triangle)@.wf(),
    ensures
        (final(triangle)@, r) == analysis(old(triangle)@, *order),
        final(triangle)@.wf(),
        // Spelled out over the prices: a ticker that leaves the triangle as it was is
        // ignored (or refused as overflowing); every price move, on any of the three
        // legs, that can be computed is judged by the net return of the new triangle,
        // `c * (1 / (a * b)) * (1 - fee)^3`.
        ({
            let t = final(triangle)@;
            let f = t.fee_ratio as int;
            let gross = fixed_mul(t.c_price as int, t.ab_reciprocal as int);
            let net = fixed_mul(gross, fixed_mul(fixed_mul(f, f), f));
            let computable = t.c_price * t.ab_reciprocal <= u128::MAX && gross * fixed_mul(
                fixed_mul(f, f),
                f,
            ) <= u128::MAX;
            let o = old(triangle)@;
            let ticker_overflows = (order.symbol@ == o.symbol_a && order.ask_price != o.a_price
                && order.ask_price * o.b_price > u128::MAX) || (order.symbol@ != o.symbol_a
                && order.symbol@ == o.symbol_b && order.ask_price != o.b_price && o.a_price
                * order.ask_price > u128::MAX);
            &&& r == TickerOutcome::Ignored ==> t == o
            &&& t == o ==> r == (if ticker_overflows {
                TickerOutcome::Overflow
            } else {
                TickerOutcome::Ignored
            })
            &&& r == TickerOutcome::Overflow ==> (ticker_overflows || !computable)
            &&& (t != old(triangle)@ && computable) ==> r == (if net > SCALE {
                TickerOutcome::Opportunity(net as u128)
            } else {
                TickerOutcome::Updated
            })
            &&& r == TickerOutcome::Updated ==> t != old(triangle)@ && net <= SCALE
            &&& (r matches TickerOutcome::Opportunity(v) ==> t != old(triangle)@ && v == net && net
                > SCALE)
        }),
        // A ticker whose new price cannot be taken without overflow changes nothing.
        !ticker_fits(old(triangle)@, *order) ==> r == TickerOutcome::Overflow
            && final(triangle)@ == old(triangle)@,
{
    proof {
        lemma_ticker_applies_iff_changes(old(triangle)@, *order);
    }
    if !triangle.fits_ticker(order) {
        return TickerOutcome::Overflow;
    }
    if triangle.process_ticker(order).is_err() {
        return TickerOutcome::Ignored;
    }
    if !triangle.fits_opportunity() {
        return TickerOutcome::Overflow;
    }
    match triangle.calculate_opportunity() {
        Ok(net_profit) => TickerOutcome::Opportunity(net_profit),
        Err(_) => TickerOutcome::Updated,
    }
}

} // verus!
