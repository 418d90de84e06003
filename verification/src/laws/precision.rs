//! How far rounding moves what a block reports from the exact figures.
use vstd::arithmetic::power2::*;
use vstd::prelude::*;

use crate::block::{PayoutView, Sharing};
use crate::double::Double;
use crate::intent::IntentView;
use crate::laws::{amounts, payouts};
use crate::rounding::{HIDDEN_BIT, INFINITY};
use crate::{block, rounding, select};

verus! {

/// The larger of two integers.
pub open spec fn larger(a: int, b: int) -> int {
    if a < b {
        b
    } else {
        a
    }
}

/// Neighbouring numbers lie no further apart than a `2^52`th of the lower
/// one, or one unit.
proof fn lemma_gap(r: int)
    requires
        0 <= r,
    ensures
        HIDDEN_BIT * (rounding::units(r + 1) - rounding::units(r)) <= larger(
            HIDDEN_BIT as int,
            rounding::units(r),
        ),
{
    rounding::lemma_units_step(r);
    rounding::lemma_parts(r);
    let h = HIDDEN_BIT as int;
    let q = rounding::scale_of(r);
    let m = rounding::significand_of(r);
    let p = pow2(q as nat) as int;
    lemma_pow2_pos(q as nat);
    if q == 0 {
        lemma2_to64();
    } else {
        assert(h * p <= m * p) by (nonlinear_arith)
            requires
                h <= m,
                p > 0,
        ;
    }
}

/// A ratio is rounded by no more than a `2^53`th of it, or half a unit.
pub proof fn rounding_error(num: int, den: int)
    requires
        num >= 0,
        den > 0,
        rounding::rounded(num, den) < INFINITY,
    ensures
        ({
            let got = rounding::units(rounding::rounded(num, den)) * den;
            let bound = larger(num, HIDDEN_BIT * den);
            &&& 2 * HIDDEN_BIT * (got - num) <= bound
            &&& 2 * HIDDEN_BIT * (num - got) <= bound
        }),
{
    let h = HIDDEN_BIT as int;
    let r = rounding::rounded(num, den);
    rounding::lemma_nearest_exists(num, den);
    let u = rounding::units(r);
    let got = u * den;
    rounding::lemma_units_increase(0, r);
    if got < num {
        let above = rounding::units(r + 1);
        lemma_gap(r);
        let gap = above - u;
        assert(2 * num <= (u + above) * den);
        assert(2 * (num - got) <= gap * den) by (nonlinear_arith)
            requires
                2 * num <= (u + above) * den,
                got == u * den,
                gap == above - u,
        ;
        assert(2 * h * (num - got) <= larger(num, h * den)) by (nonlinear_arith)
            requires
                2 * (num - got) <= gap * den,
                h * gap <= h || h * gap <= u,
                got == u * den,
                got < num,
                den > 0,
                h > 0,
        ;
        assert(2 * h * (got - num) <= larger(num, h * den)) by (nonlinear_arith)
            requires
                got < num,
                num >= 0,
                h > 0,
        ;
    } else if got > num {
        assert(r > 0) by {
            if r == 0 {
                assert(rounding::units(0) == 0);
                assert(got == 0) by (nonlinear_arith)
                    requires
                        u == 0,
                        got == u * den,
                ;
            }
        }
        let below = rounding::units(r - 1);
        lemma_gap(r - 1);
        rounding::lemma_units_increase(0, r - 1);
        rounding::lemma_units_increase(r - 1, r);
        let gap = u - below;
        assert(2 * num >= (below + u) * den);
        assert(2 * (got - num) <= gap * den) by (nonlinear_arith)
            requires
                2 * num >= (below + u) * den,
                got == u * den,
                gap == u - below,
        ;
        assert(below * den <= num) by (nonlinear_arith)
            requires
                2 * num >= (below + u) * den,
                u >= below,
                den > 0,
        ;
        assert(2 * h * (got - num) <= larger(num, h * den)) by (nonlinear_arith)
            requires
                2 * (got - num) <= gap * den,
                h * gap <= h || h * gap <= below,
                below * den <= num,
                den > 0,
                h > 0,
        ;
        assert(2 * h * (num - got) <= larger(num, h * den)) by (nonlinear_arith)
            requires
                got > num,
                num >= 0,
                h > 0,
        ;
    } else {
        assert(h * den > 0) by (nonlinear_arith)
            requires
                h > 0,
                den > 0,
        ;
    }
}

/// What the intents gain together, exactly.
pub open spec fn gains(items: Seq<IntentView>) -> int
    decreases items.len(),
{
    if items.len() == 0 {
        0
    } else {
        gains(items.drop_last()) + items.last().profit.clamped().value()
    }
}

/// What the weights of the intents sum to, exactly.
spec fn weights(items: Seq<IntentView>, gross: Double) -> int
    decreases items.len(),
{
    if items.len() == 0 {
        0
    } else {
        weights(items.drop_last(), gross) + items.last().profit.clamped().quotient(gross).value()
    }
}

/// What the intents pay together, exactly.
spec fn shares(items: Seq<IntentView>, fee: Double, gross: Double) -> int
    decreases items.len(),
{
    if items.len() == 0 {
        0
    } else {
        shares(items.drop_last(), fee, gross) + fee.product(
            items.last().profit.clamped().quotient(gross),
        ).value()
    }
}

/// What the payouts of a block charge together, exactly.
pub open spec fn charged(list: Seq<PayoutView>) -> int
    decreases list.len(),
{
    if list.len() == 0 {
        0
    } else {
        charged(list.drop_last()) + list.last().fee_share.value()
    }
}

/// The total that a block reports differs from the exact sum of the gains by
/// no more than a `2^52`th of it for every intent.
pub proof fn total_is_near_the_sum(items: Seq<IntentView>)
    requires
        select::total(items).finite(),
    ensures
        ({
            let total = select::total(items).value();
            &&& HIDDEN_BIT * (total - gains(items)) <= items.len() * total
            &&& HIDDEN_BIT * (gains(items) - total) <= items.len() * total
            &&& gains(items) >= 0
            &&& total >= 0
        }),
    decreases items.len(),
{
    let h = HIDDEN_BIT as int;
    assert(rounding::units(0) == 0);
    payouts::total_covers_each_gain(items);
    if items.len() > 0 {
        let fewer = items.drop_last();
        let gain = items.last().profit.clamped();
        let before = select::total(fewer);
        payouts::total_covers_each_gain(fewer);
        amounts::sums_do_not_fall(before, gain);
        assert(before.finite() && gain.finite());
        total_is_near_the_sum(fewer);
        let t = select::total(items).value();
        let t0 = before.value();
        let g = gain.value();
        let g0 = gains(fewer);
        let n = items.len() as int;
        let exact = t0 + g;
        rounding::lemma_units_increase(0, before.magnitude());
        rounding::lemma_units_increase(0, gain.magnitude());
        amounts::order_is_that_of_values(before, select::total(items));
        assert(t0 <= t);
        lemma_sum_error(before, gain);
        assert(exact <= 2 * t) by (nonlinear_arith)
            requires
                2 * h * (exact - t) <= exact,
                h == 0x10_0000_0000_0000,
                exact >= 0,
        ;
        assert(h * (t - (g0 + g)) <= n * t) by (nonlinear_arith)
            requires
                h * (t0 - g0) <= (n - 1) * t0,
                2 * h * (t - exact) <= exact,
                exact <= 2 * t,
                exact == t0 + g,
                0 <= t0 <= t,
                n >= 1,
        ;
        assert(h * ((g0 + g) - t) <= n * t) by (nonlinear_arith)
            requires
                h * (g0 - t0) <= (n - 1) * t0,
                2 * h * (exact - t) <= exact,
                exact <= 2 * t,
                exact == t0 + g,
                0 <= t0 <= t,
                n >= 1,
        ;
    }
}

/// A sum of amounts is rounded by no more than a `2^53`th of it.
proof fn lemma_sum_error(a: Double, b: Double)
    requires
        amounts::amount(a),
        amounts::amount(b),
        !a.negative(),
        !b.negative(),
        a.finite(),
        b.finite(),
        a.sum(b).finite(),
    ensures
        ({
            let exact = a.value() + b.value();
            let got = a.sum(b).value();
            &&& 2 * HIDDEN_BIT * (got - exact) <= exact
            &&& 2 * HIDDEN_BIT * (exact - got) <= exact
            &&& exact >= 0
        }),
{
    let h = HIDDEN_BIT as int;
    assert(rounding::units(0) == 0);
    rounding::lemma_units_increase(0, a.magnitude());
    rounding::lemma_units_increase(0, b.magnitude());
    let exact = a.value() + b.value();
    if exact > 0 {
        rounding::lemma_rounded_ordered(0, 1, exact, 1);
        rounding_error(exact, 1);
        let got = a.sum(b).value();
        assert(got == rounding::units(rounding::rounded(exact, 1)));
        if exact < h {
            assert(got == exact) by (nonlinear_arith)
                requires
                    2 * h * (got - exact) <= h,
                    2 * h * (exact - got) <= h,
                    h > 0,
            ;
        }
    }
}

/// What the weights and the shares of some intents of a block sum to.
proof fn lemma_accumulated(items: Seq<IntentView>, fee: Double, gross: Double)
    requires
        amounts::amount(fee),
        fee.finite(),
        gross.positive(),
        gross.finite(),
        forall|i: int|
            0 <= i < items.len() ==> (#[trigger] items[i]).profit.clamped().at_most(gross),
    ensures
        ({
            let h = HIDDEN_BIT as int;
            let one = pow2(rounding::unit_exponent()) as int;
            let n = items.len() as int;
            let t = gross.value();
            let f = fee.value();
            let g = gains(items);
            let a = weights(items, gross);
            let s = shares(items, fee, gross);
            &&& 2 * h * (a * t - one * g) <= one * g + n * (h * t)
            &&& 2 * h * (one * g - a * t) <= one * g + n * (h * t)
            &&& 2 * h * (s * one - f * a) <= f * a + n * (h * one)
            &&& 2 * h * (f * a - s * one) <= f * a + n * (h * one)
            &&& g >= 0
            &&& a >= 0
            &&& s >= 0
        }),
    decreases items.len(),
{
    let h = HIDDEN_BIT as int;
    let one = pow2(rounding::unit_exponent()) as int;
    let n = items.len() as int;
    let t = gross.value();
    let f = fee.value();
    if n == 0 {
        assert(0int * t == 0) by (nonlinear_arith);
        assert(one * 0 == 0) by (nonlinear_arith);
        assert(0int * one == 0) by (nonlinear_arith);
        assert(f * 0 == 0) by (nonlinear_arith);
        assert(0int * (h * t) == 0) by (nonlinear_arith);
        assert(0int * (h * one) == 0) by (nonlinear_arith);
    } else {
        let fewer = items.drop_last();
        let gain = items.last().profit.clamped();
        assert forall|i: int| 0 <= i < fewer.len() implies (
        #[trigger] fewer[i]).profit.clamped().at_most(gross) by {
            assert(items[i] == fewer[i]);
        }
        lemma_accumulated(fewer, fee, gross);
        assert(items[n - 1].profit.clamped().at_most(gross));
        lemma_one_share(gain, fee, gross);
        let g0 = gains(fewer);
        let a0 = weights(fewer, gross);
        let s0 = shares(fewer, fee, gross);
        let g1 = gain.value();
        let a1 = gain.quotient(gross).value();
        let s1 = fee.product(gain.quotient(gross)).value();
        assert((a0 + a1) * t == a0 * t + a1 * t) by (nonlinear_arith);
        assert(one * (g0 + g1) == one * g0 + one * g1) by (nonlinear_arith);
        assert((s0 + s1) * one == s0 * one + s1 * one) by (nonlinear_arith);
        assert(f * (a0 + a1) == f * a0 + f * a1) by (nonlinear_arith);
        assert(n * (h * t) == (n - 1) * (h * t) + h * t) by (nonlinear_arith);
        assert(n * (h * one) == (n - 1) * (h * one) + h * one) by (nonlinear_arith);
    }
}

/// The weight and the share of one intent.
pub proof fn lemma_one_share(gain: Double, fee: Double, gross: Double)
    requires
        amounts::amount(fee),
        fee.finite(),
        gross.positive(),
        gross.finite(),
        amounts::amount(gain),
        !gain.negative(),
        gain.at_most(gross),
    ensures
        ({
            let h = HIDDEN_BIT as int;
            let one = pow2(rounding::unit_exponent()) as int;
            let t = gross.value();
            let f = fee.value();
            let g = gain.value();
            let a = gain.quotient(gross).value();
            let s = fee.product(gain.quotient(gross)).value();
            &&& 2 * h * (a * t - one * g) <= one * g + h * t
            &&& 2 * h * (one * g - a * t) <= one * g + h * t
            &&& 2 * h * (s * one - f * a) <= f * a + h * one
            &&& 2 * h * (f * a - s * one) <= f * a + h * one
            &&& g >= 0
            &&& a >= 0
            &&& s >= 0
        }),
{
    let h = HIDDEN_BIT as int;
    let one = pow2(rounding::unit_exponent()) as int;
    lemma_pow2_pos(rounding::unit_exponent());
    assert(rounding::units(0) == 0);
    rounding::lemma_units_increase(0, gain.magnitude());
    rounding::lemma_units_increase(0, gross.magnitude());
    rounding::lemma_units_increase(0, fee.magnitude());
    let t = gross.value();
    let f = fee.value();
    let g = gain.value();
    amounts::weights_lie_within_one(gain, gross);
    let weight = gain.quotient(gross);
    let over = rounding::units(gain.magnitude()) * one;
    assert(over == one * g) by (nonlinear_arith)
        requires
            over == rounding::units(gain.magnitude()) * one,
            g == rounding::units(gain.magnitude()),
    ;
    assert(over >= 0) by (nonlinear_arith)
        requires
            over == one * g,
            one > 0,
            g >= 0,
    ;
    rounding::lemma_nearest_exists(over, t);
    assert(weight.finite());
    assert(weight.magnitude() == rounding::rounded(over, t));
    rounding_error(over, t);
    assert(h * t > 0) by (nonlinear_arith)
        requires
            h > 0,
            t > 0,
    ;
    let a = weight.value();
    rounding::lemma_units_increase(0, weight.magnitude());
    amounts::parts_do_not_exceed(fee, weight);
    let paid = fee.product(weight);
    let exact = rounding::units(fee.magnitude()) * rounding::units(weight.magnitude());
    assert(exact >= 0) by (nonlinear_arith)
        requires
            exact == rounding::units(fee.magnitude()) * rounding::units(weight.magnitude()),
            rounding::units(fee.magnitude()) >= 0,
            rounding::units(weight.magnitude()) >= 0,
    ;
    rounding::lemma_nearest_exists(exact, one);
    assert(paid.magnitude() == rounding::rounded(exact, one));
    rounding_error(exact, one);
    assert(h * one > 0) by (nonlinear_arith)
        requires
            h > 0,
            one > 0,
    ;
    rounding::lemma_units_increase(0, paid.magnitude());
    assert(f == rounding::units(fee.magnitude()));
    assert(exact == f * a);
    assert(paid.value() == rounding::units(paid.magnitude()));
}

/// The figures of a block, brought together.
proof fn lemma_combined(n: int, t: int, f: int, one: int, g: int, a: int, s: int)
    requires
        0 <= n <= HIDDEN_BIT,
        t > 0,
        f >= 0,
        one >= 2 * HIDDEN_BIT,
        g >= 0,
        a >= 0,
        s >= 0,
        HIDDEN_BIT * (t - g) <= n * t,
        HIDDEN_BIT * (g - t) <= n * t,
        2 * HIDDEN_BIT * (a * t - one * g) <= one * g + n * (HIDDEN_BIT * t),
        2 * HIDDEN_BIT * (one * g - a * t) <= one * g + n * (HIDDEN_BIT * t),
        2 * HIDDEN_BIT * (s * one - f * a) <= f * a + n * (HIDDEN_BIT * one),
        2 * HIDDEN_BIT * (f * a - s * one) <= f * a + n * (HIDDEN_BIT * one),
    ensures
        2 * HIDDEN_BIT * (s - f) <= (3 * n + 5) * f + n * HIDDEN_BIT,
        2 * HIDDEN_BIT * (f - s) <= (3 * n + 5) * f + n * HIDDEN_BIT,
{
    let h = HIDDEN_BIT as int;
    // The exact sum is at most twice the total.
    assert(g <= 2 * t) by (nonlinear_arith)
        requires
            h * (g - t) <= n * t,
            0 <= n <= h,
            h > 0,
            t > 0,
    ;
    assert(one * g <= 2 * (one * t)) by (nonlinear_arith)
        requires
            g <= 2 * t,
            one > 0,
    ;
    let ot = one * t;
    let og = one * g;
    let at = a * t;
    let ht = h * t;
    assert(n * ht <= h * ot) by (nonlinear_arith)
        requires
            ht == h * t,
            ot == one * t,
            0 <= n <= h,
            one >= 2 * h,
            h > 0,
            t > 0,
    ;
    // The weights sum to at most three.
    assert(2 * (h * at) <= 2 * (h * og) + og + n * ht) by (nonlinear_arith)
        requires
            2 * h * (at - og) <= og + n * ht,
    ;
    assert(h * og <= 2 * (h * ot)) by (nonlinear_arith)
        requires
            og <= 2 * ot,
            h > 0,
    ;
    assert(ot > 0) by (nonlinear_arith)
        requires
            ot == one * t,
            one > 0,
            t > 0,
    ;
    assert(2 * ot <= h * ot) by (nonlinear_arith)
        requires
            ot > 0,
            h >= 2,
    ;
    assert(2 * (h * at) <= 6 * (h * ot));
    assert(at <= 3 * ot) by (nonlinear_arith)
        requires
            2 * (h * at) <= 6 * (h * ot),
            h > 0,
    ;
    assert(a <= 3 * one) by (nonlinear_arith)
        requires
            at <= 3 * ot,
            at == a * t,
            ot == one * t,
            t > 0,
    ;
    let fa = f * a;
    let fo = f * one;
    let so = s * one;
    assert(fa <= 3 * fo) by (nonlinear_arith)
        requires
            fa == f * a,
            fo == f * one,
            a <= 3 * one,
            f >= 0,
    ;
    // The three errors, times the total.
    let fot = f * ot;
    let fog = f * og;
    let fat = f * at;
    let sot = s * ot;
    let nho = n * (h * one);
    let nhot = nho * t;
    assert(fa * t == fat) by (nonlinear_arith)
        requires
            fa == f * a,
            at == a * t,
            fat == f * at,
    ;
    assert(so * t == sot) by (nonlinear_arith)
        requires
            so == s * one,
            ot == one * t,
            sot == s * ot,
    ;
    assert(fo * t == fot) by (nonlinear_arith)
        requires
            fo == f * one,
            ot == one * t,
            fot == f * ot,
    ;
    assert(2 * (h * (sot - fat)) <= 3 * fot + nhot) by (nonlinear_arith)
        requires
            2 * h * (so - fa) <= fa + nho,
            fa <= 3 * fo,
            so * t == sot,
            fa * t == fat,
            fo * t == fot,
            nhot == nho * t,
            t > 0,
    ;
    assert(2 * (h * (fat - sot)) <= 3 * fot + nhot) by (nonlinear_arith)
        requires
            2 * h * (fa - so) <= fa + nho,
            fa <= 3 * fo,
            so * t == sot,
            fa * t == fat,
            fo * t == fot,
            nhot == nho * t,
            t > 0,
    ;
    let nht = n * ht;
    let fnht = f * nht;
    assert(2 * (h * (fat - fog)) <= 2 * fot + fnht) by (nonlinear_arith)
        requires
            2 * h * (at - og) <= og + nht,
            og <= 2 * ot,
            fat == f * at,
            fog == f * og,
            fot == f * ot,
            fnht == f * nht,
            f >= 0,
    ;
    assert(2 * (h * (fog - fat)) <= 2 * fot + fnht) by (nonlinear_arith)
        requires
            2 * h * (og - at) <= og + nht,
            og <= 2 * ot,
            fat == f * at,
            fog == f * og,
            fot == f * ot,
            fnht == f * nht,
            f >= 0,
    ;
    assert(fnht <= n * fot) by (nonlinear_arith)
        requires
            fnht == f * nht,
            nht == n * ht,
            ht == h * t,
            fot == f * ot,
            ot == one * t,
            one >= 2 * h,
            f >= 0,
            n >= 0,
            t > 0,
            h > 0,
    ;
    assert(h * (fog - fot) <= n * fot) by (nonlinear_arith)
        requires
            h * (g - t) <= n * t,
            og == one * g,
            ot == one * t,
            fog == f * og,
            fot == f * ot,
            f >= 0,
            one > 0,
    ;
    assert(h * (fot - fog) <= n * fot) by (nonlinear_arith)
        requires
            h * (t - g) <= n * t,
            og == one * g,
            ot == one * t,
            fog == f * og,
            fot == f * ot,
            f >= 0,
            one > 0,
    ;
    assert(h * (sot - fot) == h * (sot - fat) + h * (fat - fog) + h * (fog - fot))
        by (nonlinear_arith);
    assert(h * (fot - sot) == h * (fat - sot) + h * (fog - fat) + h * (fot - fog))
        by (nonlinear_arith);
    assert(2 * (h * (sot - fot)) <= 5 * fot + 3 * (n * fot) + nhot);
    assert(2 * (h * (fot - sot)) <= 5 * fot + 3 * (n * fot) + nhot);
    let nh = n * h;
    assert(nhot == nh * ot) by (nonlinear_arith)
        requires
            nhot == nho * t,
            nho == n * (h * one),
            nh == n * h,
            ot == one * t,
    ;
    let bound = (3 * n + 5) * f + nh;
    assert(bound * ot == 5 * fot + 3 * (n * fot) + nh * ot) by (nonlinear_arith)
        requires
            bound == (3 * n + 5) * f + nh,
            fot == f * ot,
    ;
    let excess = 2 * h * (s - f);
    assert(excess * ot == 2 * (h * (sot - fot))) by (nonlinear_arith)
        requires
            excess == 2 * h * (s - f),
            sot == s * ot,
            fot == f * ot,
    ;
    let lack = 2 * h * (f - s);
    assert(lack * ot == 2 * (h * (fot - sot))) by (nonlinear_arith)
        requires
            lack == 2 * h * (f - s),
            sot == s * ot,
            fot == f * ot,
    ;
    assert(excess <= bound) by (nonlinear_arith)
        requires
            excess * ot <= bound * ot,
            ot > 0,
    ;
    assert(lack <= bound) by (nonlinear_arith)
        requires
            lack * ot <= bound * ot,
            ot > 0,
    ;
}

/// The payouts charge what the shares of the selected intents sum to.
proof fn lemma_charged(
    sharing: Sharing,
    chosen: Seq<IntentView>,
    fee: Double,
    gross: Double,
)
    requires
        gross.positive(),
    ensures
        charged(chosen.map_values(|it: IntentView| block::payout_of(sharing, it, fee, gross)))
            == shares(chosen, fee, gross),
    decreases chosen.len(),
{
    let f = |it: IntentView| block::payout_of(sharing, it, fee, gross);
    let list = chosen.map_values(f);
    if chosen.len() > 0 {
        lemma_charged(sharing, chosen.drop_last(), fee, gross);
        assert(list.drop_last() =~= chosen.drop_last().map_values(f));
    }
}

/// The shares of a block sum to its fee: for `n` intents, a finite total above
/// zero and a rate within 0 to 1, what they pay together is off by no more
/// than `3 n + 5` parts in `2^53` of the fee, and `n` halves of the smallest
/// unit.
pub proof fn shares_sum_to_the_fee(
    sharing: Sharing,
    items: Seq<IntentView>,
    algorithm: Seq<char>,
    rate: Double,
)
    requires
        payouts::fair_rate(rate),
        block::block_of(sharing, items, algorithm, rate).total_profit.finite(),
        block::block_of(sharing, items, algorithm, rate).total_profit.positive(),
        block::block_of(sharing, items, algorithm, rate).selected.len() <= HIDDEN_BIT,
    ensures
        ({
            let b = block::block_of(sharing, items, algorithm, rate);
            let n = b.selected.len() as int;
            let fee = b.sequencer_fee.value();
            let paid = charged(b.selected);
            &&& 2 * HIDDEN_BIT * (paid - fee) <= (3 * n + 5) * fee + n * HIDDEN_BIT
            &&& 2 * HIDDEN_BIT * (fee - paid) <= (3 * n + 5) * fee + n * HIDDEN_BIT
        }),
{
    let b = block::block_of(sharing, items, algorithm, rate);
    let chosen = block::selection(items, algorithm);
    let gross = select::total(chosen);
    let fee = b.sequencer_fee;
    let one = pow2(rounding::unit_exponent()) as int;
    payouts::fee_stays_within_surplus(sharing, items, algorithm, rate);
    payouts::total_covers_each_gain(chosen);
    total_is_near_the_sum(chosen);
    lemma_accumulated(chosen, fee, gross);
    lemma_charged(sharing, chosen, fee, gross);
    assert(rounding::units(0) == 0);
    rounding::lemma_units_increase(0, gross.magnitude());
    rounding::lemma_units_increase(0, fee.magnitude());
    assert(one >= 2 * HIDDEN_BIT) by {
        lemma_pow2_adds(53, 1021);
        lemma_pow2_pos(1021);
        lemma2_to64_rest();
        let p = pow2(1021) as int;
        assert(pow2(53) * p >= pow2(53)) by (nonlinear_arith)
            requires
                p >= 1,
                pow2(53) >= 0,
        ;
    }
    lemma_combined(
        chosen.len() as int,
        gross.value(),
        fee.value(),
        one,
        gains(chosen),
        weights(chosen, gross),
        shares(chosen, fee, gross),
    );
}

/// A difference of amounts is rounded by no more than a `2^53`th of it.
pub proof fn lemma_difference_error(a: Double, b: Double)
    requires
        amounts::amount(a),
        amounts::amount(b),
        a.finite(),
        b.finite(),
    ensures
        ({
            let exact = a.value() - b.value();
            let got = a.difference(b).value();
            let size = larger(exact, -exact);
            &&& 2 * HIDDEN_BIT * (got - exact) <= size
            &&& 2 * HIDDEN_BIT * (exact - got) <= size
        }),
{
    let h = HIDDEN_BIT as int;
    assert(rounding::units(0) == 0);
    rounding::lemma_units_increase(0, a.magnitude());
    rounding::lemma_units_increase(0, b.magnitude());
    let va = a.value();
    let vb = b.value();
    let exact = va - vb;
    assert(b.negated().value() == -vb);
    let size = larger(exact, -exact);
    let got = a.difference(b).value();
    if exact != 0 {
        rounding::lemma_rounded_exact(a.magnitude(), va, 1);
        rounding::lemma_rounded_exact(b.magnitude(), vb, 1);
        if exact > 0 {
            rounding::lemma_rounded_ordered(size, 1, va, 1);
        } else {
            rounding::lemma_rounded_ordered(size, 1, vb, 1);
        }
        rounding_error(size, 1);
        let near = rounding::units(rounding::rounded(size, 1));
        assert(got == (if exact > 0 {
            near
        } else {
            -near
        }));
        if size < h {
            assert(near == size) by (nonlinear_arith)
                requires
                    2 * h * (near - size) <= h,
                    2 * h * (size - near) <= h,
                    h > 0,
            ;
        }
    }
}

/// What a trader is left with differs from the gain less the share by no more
/// than a `2^53`th of it, in a block with a finite total and a rate within 0
/// to 1.
pub proof fn traders_keep_the_rest(
    sharing: Sharing,
    items: Seq<IntentView>,
    algorithm: Seq<char>,
    rate: Double,
    i: int,
)
    requires
        payouts::fair_rate(rate),
        block::block_of(sharing, items, algorithm, rate).total_profit.finite(),
        0 <= i < block::block_of(sharing, items, algorithm, rate).selected.len(),
    ensures
        ({
            let p = block::block_of(sharing, items, algorithm, rate).selected[i];
            let rest = p.intent.profit.clamped().value() - p.fee_share.value();
            let kept = p.trader_profit.value();
            &&& 2 * HIDDEN_BIT * (kept - rest) <= larger(rest, -rest)
            &&& 2 * HIDDEN_BIT * (rest - kept) <= larger(rest, -rest)
        }),
{
    let chosen = block::selection(items, algorithm);
    payouts::shares_stay_within_fee(sharing, items, algorithm, rate, i);
    payouts::fee_stays_within_surplus(sharing, items, algorithm, rate);
    payouts::total_covers_each_gain(chosen);
    let p = block::block_of(sharing, items, algorithm, rate).selected[i];
    assert(chosen[i].profit.clamped().at_most(select::total(chosen)));
    lemma_difference_error(p.intent.profit.clamped(), p.fee_share);
}

/// No trader loses while the fee is at most half of what the block earns: in
/// a block with a finite total and a rate within 0 to 1, every share is then
/// covered by the gain that it is charged on.
pub proof fn no_trader_loses_to_a_moderate_fee(
    sharing: Sharing,
    items: Seq<IntentView>,
    algorithm: Seq<char>,
    rate: Double,
    i: int,
)
    requires
        payouts::fair_rate(rate),
        block::block_of(sharing, items, algorithm, rate).total_profit.finite(),
        2 * block::block_of(sharing, items, algorithm, rate).sequencer_fee.value()
            <= block::block_of(sharing, items, algorithm, rate).total_profit.value(),
        0 <= i < block::block_of(sharing, items, algorithm, rate).selected.len(),
    ensures
        ({
            let p = block::block_of(sharing, items, algorithm, rate).selected[i];
            &&& p.fee_share.at_most(p.intent.profit.clamped())
            &&& amounts::amount(p.trader_profit)
        }),
{
    let b = block::block_of(sharing, items, algorithm, rate);
    let chosen = block::selection(items, algorithm);
    let gross = select::total(chosen);
    let fee = b.sequencer_fee;
    let gain = chosen[i].profit.clamped();
    let p = b.selected[i];
    payouts::shares_stay_within_fee(sharing, items, algorithm, rate, i);
    payouts::fee_stays_within_surplus(sharing, items, algorithm, rate);
    payouts::total_covers_each_gain(chosen);
    assert(gain.at_most(gross));
    if gross.positive() {
        lemma_share_is_covered(gain, fee, gross);
    } else {
        // Nothing was earned, so that there is no surplus and no fee.
        payouts::surplus_is_an_amount(items, algorithm);
        assert(fee.rank() == 0);
    }
    amounts::differences_do_not_rise(gain, p.fee_share);
}

/// A share of at most half of the gross is covered by its gain.
proof fn lemma_share_is_covered(gain: Double, fee: Double, gross: Double)
    requires
        amounts::amount(fee),
        fee.finite(),
        gross.positive(),
        gross.finite(),
        amounts::amount(gain),
        !gain.negative(),
        gain.at_most(gross),
        2 * fee.value() <= gross.value(),
    ensures
        fee.product(gain.quotient(gross)).at_most(gain),
{
    let one = pow2(rounding::unit_exponent()) as int;
    lemma_pow2_pos(rounding::unit_exponent());
    assert(rounding::units(0) == 0);
    rounding::lemma_units_increase(0, gain.magnitude());
    rounding::lemma_units_increase(0, gross.magnitude());
    rounding::lemma_units_increase(0, fee.magnitude());
    let t = gross.value();
    let f = fee.value();
    let g = gain.value();
    amounts::weights_lie_within_one(gain, gross);
    let weight = gain.quotient(gross);
    let over = rounding::units(gain.magnitude()) * one;
    assert(over >= 0) by (nonlinear_arith)
        requires
            over == rounding::units(gain.magnitude()) * one,
            rounding::units(gain.magnitude()) >= 0,
            one > 0,
    ;
    rounding::lemma_nearest_exists(over, t);
    let r = rounding::rounded(over, t);
    assert(weight.magnitude() == r);
    let a = rounding::units(r);
    rounding::lemma_units_increase(0, r);
    assert(a * t <= 2 * over) by {
        if r > 0 {
            rounding::lemma_units_increase(0, r - 1);
            let below = rounding::units(r - 1);
            assert(a * t <= 2 * over) by (nonlinear_arith)
                requires
                    2 * over >= (below + a) * t,
                    below >= 0,
                    t > 0,
            ;
        } else {
            assert(a * t == 0) by (nonlinear_arith)
                requires
                    a == 0,
            ;
        }
    }
    let exact = rounding::units(fee.magnitude()) * rounding::units(weight.magnitude());
    assert(exact == f * a);
    assert(exact <= g * one) by (nonlinear_arith)
        requires
            exact == f * a,
            a * t <= 2 * over,
            over == g * one,
            2 * f <= t,
            f >= 0,
            a >= 0,
            t > 0,
    ;
    assert(exact >= 0) by (nonlinear_arith)
        requires
            exact == f * a,
            f >= 0,
            a >= 0,
    ;
    assert(exact * one <= (g * one) * one) by (nonlinear_arith)
        requires
            exact <= g * one,
            one > 0,
    ;
    rounding::lemma_rounded_exact(gain.magnitude(), g * one, one);
    rounding::lemma_rounded_ordered(exact, one, g * one, one);
    amounts::parts_do_not_exceed(fee, weight);
}

} // verus!
