//! What a block earns and what its fee is, said of the figures that a block
//! reports.
use vstd::arithmetic::power2::*;
use vstd::prelude::*;

use crate::block::Sharing;
use crate::double::{Double, ONE_BITS};
use crate::intent::IntentView;
use crate::laws::{amounts, choice, payouts, precision};
use crate::rejection::Rejection;
use crate::rounding::HIDDEN_BIT;
use crate::{block, rounding, select};

verus! {

/// What an intent gains: its profit where that is above zero, else nothing.
pub open spec fn gain(profit: Double) -> Double {
    if (Double { bits: 0 }).below(profit) {
        profit
    } else {
        Double { bits: 0 }
    }
}

/// What some intents gain, added one by one.
pub open spec fn earned(items: Seq<IntentView>) -> Double
    decreases items.len(),
{
    if items.len() == 0 {
        Double { bits: 0 }
    } else {
        earned(items.drop_last()).sum(gain(items.last().profit))
    }
}

/// What some intents gain together, exactly.
pub open spec fn exact_gains(items: Seq<IntentView>) -> int
    decreases items.len(),
{
    if items.len() == 0 {
        0
    } else {
        exact_gains(items.drop_last()) + gain(items.last().profit).value()
    }
}

/// The two lie no further apart than a `2^53`th of `exact`.
pub open spec fn within_a_rounding(got: int, exact: int) -> bool {
    &&& 2 * HIDDEN_BIT * (got - exact) <= precision::larger(exact, -exact)
    &&& 2 * HIDDEN_BIT * (exact - got) <= precision::larger(exact, -exact)
}

/// The surplus is what a total exceeds a baseline by, and nothing where it
/// does not.
pub open spec fn is_surplus(surplus: Double, total: Double, baseline: Double) -> bool {
    &&& total.finite() && baseline.at_most(total) ==> {
        &&& surplus.finite()
        &&& !surplus.negative()
        &&& within_a_rounding(surplus.value(), total.value() - baseline.value())
        &&& surplus == total.difference(baseline)
    }
    &&& total.below(baseline) ==> surplus == (Double { bits: 0 })
    &&& total.infinite() && baseline.finite() ==> surplus == total
    &&& total.infinite() && baseline.infinite() ==> surplus == (Double { bits: 0 })
}

/// The larger of a number and zero.
pub proof fn clamping_takes_the_larger(d: Double)
    ensures
        d.clamped() == gain(d),
        !d.clamped().nan(),
        !d.clamped().negative(),
        !d.nan() ==> d.at_most(d.clamped()),
        amounts::amount(d.clamped()),
{
}

/// What intents earn is what they gain, added one by one in their order.
pub proof fn totals_add_the_gains(items: Seq<IntentView>)
    ensures
        select::total(items) == earned(items),
        precision::gains(items) == exact_gains(items),
    decreases items.len(),
{
    if items.len() > 0 {
        totals_add_the_gains(items.drop_last());
    }
}

/// What intents earn is an amount without a sign.
pub proof fn totals_are_amounts(items: Seq<IntentView>)
    ensures
        amounts::amount(select::total(items)),
        !select::total(items).negative(),
{
    payouts::total_covers_each_gain(items);
}

/// What a total exceeds a baseline by is the surplus.
pub proof fn surplus_is_the_difference(total: Double, baseline: Double)
    requires
        amounts::amount(total),
        !total.negative(),
        amounts::amount(baseline),
        !baseline.negative(),
    ensures
        is_surplus(block::surplus_over(total, baseline), total, baseline),
{
    let zero = Double { bits: 0 };
    let surplus = block::surplus_over(total, baseline);
    assert(rounding::units(0) == 0);
    if total.finite() {
        rounding::lemma_units_increase(0, total.magnitude());
        if baseline.finite() {
            rounding::lemma_units_increase(0, baseline.magnitude());
            amounts::order_is_that_of_values(baseline, total);
            amounts::order_is_that_of_values(total, baseline);
            precision::lemma_difference_error(total, baseline);
            let d = total.difference(baseline);
            let exact = total.value() - baseline.value();
            assert(baseline.negated().value() == -baseline.value());
            if exact > 0 {
                rounding::lemma_nearest_exists(exact, 1);
                rounding::lemma_rounded_exact(total.magnitude(), total.value(), 1);
                rounding::lemma_rounded_ordered(exact, 1, total.value(), 1);
                rounding::lemma_rounded_ordered(0, 1, exact, 1);
                rounding::lemma_rounded_exact(0, 0, 1);
                assert(d.finite() && !d.negative());
                if d.magnitude() == 0 {
                    // Nothing above zero rounds to zero here: a unit is kept.
                    assert(d.value() == 0);
                    assert(2 * HIDDEN_BIT * exact <= exact);
                    assert(false);
                }
                assert(surplus == d);
            } else if exact == 0 {
                assert(d == zero);
            } else {
                rounding::lemma_nearest_exists(-exact, 1);
            }
        }
    }
}

/// A built block reports as its surplus what its total exceeds the baseline
/// by, and nothing where it does not; both are amounts.
pub proof fn a_block_reports_its_surplus(
    sharing: Sharing,
    items: Seq<IntentView>,
    algorithm: Seq<char>,
    rate: Double,
)
    ensures
        ({
            let b = block::block_of(sharing, items, algorithm, rate);
            &&& is_surplus(b.surplus, b.total_profit, b.baseline_fifo_profit)
            &&& amounts::amount(b.total_profit)
            &&& amounts::amount(b.baseline_fifo_profit)
        }),
{
    payouts::total_covers_each_gain(block::selection(items, algorithm));
    payouts::total_covers_each_gain(select::kept(select::by_arrival(items)));
    let b = block::block_of(sharing, items, algorithm, rate);
    surplus_is_the_difference(b.total_profit, b.baseline_fifo_profit);
}

/// A built block reports as its total what its intents gain, and as its
/// baseline what those gain that first come, first served chooses.
pub proof fn a_block_reports_what_is_earned(
    sharing: Sharing,
    items: Seq<IntentView>,
    algorithm: Seq<char>,
    rate: Double,
) -> (r: (Seq<IntentView>, Seq<int>))
    ensures
        ({
            let b = block::block_of(sharing, items, algorithm, rate);
            &&& b.total_profit == earned(choice::intents_of(b))
            &&& choice::first_come_first_served(r.0, items, r.1)
            &&& b.baseline_fifo_profit == earned(r.0)
        }),
{
    let b = block::block_of(sharing, items, algorithm, rate);
    let first = select::kept(select::by_arrival(items));
    totals_add_the_gains(block::selection(items, algorithm));
    totals_add_the_gains(first);
    assert(choice::intents_of(b) =~= block::selection(items, algorithm));
    (first, choice::fifo_choice(items))
}

/// What is earned differs from the exact sum of the gains by no more than a
/// `2^52`th of it for every intent, where it is finite.
pub proof fn earnings_are_near_the_sum(items: Seq<IntentView>)
    requires
        earned(items).finite(),
    ensures
        HIDDEN_BIT * (earned(items).value() - exact_gains(items)) <= items.len() * earned(
            items,
        ).value(),
        HIDDEN_BIT * (exact_gains(items) - earned(items).value()) <= items.len() * earned(
            items,
        ).value(),
{
    totals_add_the_gains(items);
    precision::total_is_near_the_sum(items);
}

/// A built block bears the name and the rate that it was built with, and its
/// fee is the surplus times that rate.
pub proof fn a_block_bears_its_terms(
    sharing: Sharing,
    items: Seq<IntentView>,
    algorithm: Seq<char>,
    rate: Double,
)
    ensures
        ({
            let b = block::block_of(sharing, items, algorithm, rate);
            &&& b.algorithm == algorithm
            &&& b.fee_rate == rate
            &&& b.sequencer_fee == b.surplus.product(rate)
        }),
{
}

/// A product of amounts lies within a rounding of the exact one, where both
/// are finite and the second is at most one.
pub proof fn fees_are_near_the_product(surplus: Double, rate: Double)
    requires
        amounts::amount(surplus),
        surplus.finite(),
        payouts::fair_rate(rate),
    ensures
        ({
            let one = pow2(rounding::unit_exponent()) as int;
            let got = surplus.product(rate).value() * one;
            let exact = surplus.value() * rate.value();
            &&& 2 * HIDDEN_BIT * (got - exact) <= precision::larger(exact, HIDDEN_BIT * one)
            &&& 2 * HIDDEN_BIT * (exact - got) <= precision::larger(exact, HIDDEN_BIT * one)
        }),
{
    let one = pow2(rounding::unit_exponent()) as int;
    lemma_pow2_pos(rounding::unit_exponent());
    assert(rounding::units(0) == 0);
    rounding::lemma_units_increase(0, surplus.magnitude());
    rounding::lemma_units_increase(0, rate.magnitude());
    amounts::parts_do_not_exceed(surplus, rate);
    let s = rounding::units(surplus.magnitude());
    let r = rounding::units(rate.magnitude());
    assert(s * r >= 0) by (nonlinear_arith)
        requires
            s >= 0,
            r >= 0,
    ;
    rounding::lemma_nearest_exists(s * r, one);
    let fee = surplus.product(rate);
    assert(fee.magnitude() == rounding::rounded(s * r, one));
    precision::rounding_error(s * r, one);
    // A zero with a sign has the value of one without.
    assert(surplus.value() == s);
    assert(rate.value() == r);
    if fee.negative() {
        assert(s == 0 || r == 0);
        assert(s * r == 0) by (nonlinear_arith)
            requires
                s == 0 || r == 0,
        ;
        rounding::lemma_rounded_exact(0, 0, one);
        assert(fee.magnitude() == 0);
    }
}

/// Each payout of a block is for an intent of its own: its share is the fee
/// weighed by its gain over the total, and the trader keeps the gain less the
/// share.
pub proof fn shares_are_weighed_by_gain(
    sharing: Sharing,
    items: Seq<IntentView>,
    algorithm: Seq<char>,
    rate: Double,
    i: int,
)
    requires
        0 <= i < block::block_of(sharing, items, algorithm, rate).selected.len(),
    ensures
        ({
            let b = block::block_of(sharing, items, algorithm, rate);
            let p = b.selected[i];
            let g = gain(p.intent.profit);
            &&& p.trader_profit == g.difference(p.fee_share)
            &&& (Double { bits: 0 }).below(b.total_profit) ==> p.fee_share
                == b.sequencer_fee.product(g.quotient(b.total_profit))
            &&& !(Double { bits: 0 }).below(b.total_profit) ==> (match sharing {
                Sharing::AgainstOne => p.fee_share == b.sequencer_fee.product(
                    g.quotient(Double { bits: ONE_BITS }),
                ),
                Sharing::Nothing => p.fee_share == (Double { bits: 0 }),
            })
        }),
{
    payouts::total_covers_each_gain(block::selection(items, algorithm));
}

/// A share of the fee stands to the fee as the gain stands to the total, but
/// for rounding: in a block with a finite total and a rate within 0 to 1.
pub proof fn shares_are_proportional(
    sharing: Sharing,
    items: Seq<IntentView>,
    algorithm: Seq<char>,
    rate: Double,
    i: int,
)
    requires
        payouts::fair_rate(rate),
        block::block_of(sharing, items, algorithm, rate).total_profit.finite(),
        block::block_of(sharing, items, algorithm, rate).total_profit.positive(),
        0 <= i < block::block_of(sharing, items, algorithm, rate).selected.len(),
    ensures
        ({
            let b = block::block_of(sharing, items, algorithm, rate);
            let p = b.selected[i];
            let one = pow2(rounding::unit_exponent()) as int;
            let s = p.fee_share.value();
            let t = b.total_profit.value();
            let f = b.sequencer_fee.value();
            let g = gain(p.intent.profit).value();
            let slack = 2 * (one * (f * g)) + HIDDEN_BIT * (one * t) + HIDDEN_BIT * (f * t);
            &&& HIDDEN_BIT * (one * (s * t - f * g)) <= slack
            &&& HIDDEN_BIT * (one * (f * g - s * t)) <= slack
        }),
{
    let b = block::block_of(sharing, items, algorithm, rate);
    let p = b.selected[i];
    let chosen = block::selection(items, algorithm);
    payouts::fee_stays_within_surplus(sharing, items, algorithm, rate);
    payouts::total_covers_each_gain(chosen);
    assert(chosen[i].profit.clamped().at_most(b.total_profit));
    let gained = gain(p.intent.profit);
    precision::lemma_one_share(gained, b.sequencer_fee, b.total_profit);
    let one = pow2(rounding::unit_exponent()) as int;
    lemma_pow2_pos(rounding::unit_exponent());
    assert(rounding::units(0) == 0);
    rounding::lemma_units_increase(0, b.sequencer_fee.magnitude());
    rounding::lemma_units_increase(0, b.total_profit.magnitude());
    lemma_proportion(
        one,
        p.fee_share.value(),
        b.total_profit.value(),
        b.sequencer_fee.value(),
        gained.value(),
        gained.quotient(b.total_profit).value(),
    );
}

/// Two roundings, brought together.
proof fn lemma_proportion(one: int, s: int, t: int, f: int, g: int, a: int)
    requires
        one > 0,
        t > 0,
        f >= 0,
        g >= 0,
        a >= 0,
        s >= 0,
        2 * HIDDEN_BIT * (a * t - one * g) <= one * g + HIDDEN_BIT * t,
        2 * HIDDEN_BIT * (one * g - a * t) <= one * g + HIDDEN_BIT * t,
        2 * HIDDEN_BIT * (s * one - f * a) <= f * a + HIDDEN_BIT * one,
        2 * HIDDEN_BIT * (f * a - s * one) <= f * a + HIDDEN_BIT * one,
    ensures
        HIDDEN_BIT * (one * (s * t - f * g)) <= 2 * (one * (f * g)) + HIDDEN_BIT * (one * t)
            + HIDDEN_BIT * (f * t),
        HIDDEN_BIT * (one * (f * g - s * t)) <= 2 * (one * (f * g)) + HIDDEN_BIT * (one * t)
            + HIDDEN_BIT * (f * t),
{
    let h = HIDDEN_BIT as int;
    // Products, each under a name.
    let at = a * t;
    let og = one * g;
    let so = s * one;
    let fa = f * a;
    let fat = fa * t;
    let sot = so * t;
    let fog = f * og;
    let ft = f * t;
    let ot = one * t;
    assert(f * at == fat) by (nonlinear_arith)
        requires
            at == a * t,
            fat == fa * t,
            fa == f * a,
    ;
    assert(2 * h * (f * at - f * og) <= f * og + h * (f * t)) by (nonlinear_arith)
        requires
            2 * h * (at - og) <= og + h * t,
            f >= 0,
    ;
    assert(2 * h * (f * og - f * at) <= f * og + h * (f * t)) by (nonlinear_arith)
        requires
            2 * h * (og - at) <= og + h * t,
            f >= 0,
    ;
    assert(2 * h * (so * t - fa * t) <= fa * t + h * (one * t)) by (nonlinear_arith)
        requires
            2 * h * (so - fa) <= fa + h * one,
            t > 0,
    ;
    assert(2 * h * (fa * t - so * t) <= fa * t + h * (one * t)) by (nonlinear_arith)
        requires
            2 * h * (fa - so) <= fa + h * one,
            t > 0,
    ;
    assert(2 * h * (fat - fog) <= fog + h * ft);
    assert(2 * h * (fog - fat) <= fog + h * ft);
    assert(2 * h * (sot - fat) <= fat + h * ot);
    assert(2 * h * (fat - sot) <= fat + h * ot);
    assert(fog >= 0 && ft >= 0 && ot >= 0) by (nonlinear_arith)
        requires
            fog == f * og,
            og == one * g,
            ft == f * t,
            ot == one * t,
            f >= 0,
            g >= 0,
            one > 0,
            t > 0,
    ;
    assert(one * (s * t - f * g) == sot - fog) by (nonlinear_arith)
        requires
            sot == so * t,
            so == s * one,
            fog == f * og,
            og == one * g,
    ;
    assert(one * (f * g) == fog) by (nonlinear_arith)
        requires
            fog == f * og,
            og == one * g,
    ;
    assert(one * (f * g - s * t) == fog - sot) by (nonlinear_arith)
        requires
            sot == so * t,
            so == s * one,
            fog == f * og,
            og == one * g,
    ;
    lemma_summed(sot, fat, fog, ft, ot);
}

/// The two errors, added up.
proof fn lemma_summed(sot: int, fat: int, fog: int, ft: int, ot: int)
    requires
        2 * HIDDEN_BIT * (fat - fog) <= fog + HIDDEN_BIT * ft,
        2 * HIDDEN_BIT * (fog - fat) <= fog + HIDDEN_BIT * ft,
        2 * HIDDEN_BIT * (sot - fat) <= fat + HIDDEN_BIT * ot,
        2 * HIDDEN_BIT * (fat - sot) <= fat + HIDDEN_BIT * ot,
        fog >= 0,
        ft >= 0,
        ot >= 0,
    ensures
        HIDDEN_BIT * (sot - fog) <= 2 * fog + HIDDEN_BIT * ot + HIDDEN_BIT * ft,
        HIDDEN_BIT * (fog - sot) <= 2 * fog + HIDDEN_BIT * ot + HIDDEN_BIT * ft,
{
    let h = HIDDEN_BIT as int;
    assert(2 * h * (sot - fog) <= 4 * fog + 2 * (h * ot) + 2 * (h * ft) && 2 * h * (fog - sot) <= 4
        * fog + 2 * (h * ot) + 2 * (h * ft)) by (nonlinear_arith)
        requires
            h == 0x10_0000_0000_0000,
            2 * h * (fat - fog) <= fog + h * ft,
            2 * h * (fog - fat) <= fog + h * ft,
            2 * h * (sot - fat) <= fat + h * ot,
            2 * h * (fat - sot) <= fat + h * ot,
            fog >= 0,
            ft >= 0,
            ot >= 0,
    ;
    assert(2 * h * (sot - fog) == 2 * (h * (sot - fog))) by (nonlinear_arith);
    assert(2 * h * (fog - sot) == 2 * (h * (fog - sot))) by (nonlinear_arith);
}

/// Which blocks are built: those of a known algorithm with a rate within 0 to
/// 1; an unknown algorithm is told before the rate is looked at.
pub proof fn which_blocks_are_built(algorithm: Seq<char>, rate: Double)
    ensures
        ({
            let known = algorithm == "fifo"@ || algorithm == "greedy"@;
            let fair = (Double { bits: 0 }).at_most(rate) && rate.at_most(
                Double { bits: 0x3ff0_0000_0000_0000 },
            );
            let why = block::buildable(algorithm, rate);
            &&& why is None <==> known && fair
            &&& why == Some(Rejection::UnknownAlgorithm) <==> !known
            &&& why == Some(Rejection::FeeRateOutOfRange) <==> known && !fair
        }),
{
}

} // verus!
