//! Laws of the arithmetic on amounts.
use vstd::arithmetic::power2::*;
use vstd::prelude::*;

use crate::double::{Double, ONE_BITS};
use crate::rounding;
use crate::rounding::HIDDEN_BIT;

verus! {

/// A number that is zero or more, possibly infinite.
pub open spec fn amount(d: Double) -> bool {
    (Double { bits: 0 }).at_most(d)
}

/// Finite numbers are ordered as their values are.
pub proof fn order_is_that_of_values(a: Double, b: Double)
    requires
        a.finite(),
        b.finite(),
    ensures
        a.below(b) == (a.value() < b.value()),
        a.at_most(b) == (a.value() <= b.value()),
{
    let ra = a.magnitude();
    let rb = b.magnitude();
    rounding::lemma_units_increase(0, ra);
    rounding::lemma_units_increase(0, rb);
    assert(rounding::units(0) == 0);
    if ra <= rb {
        rounding::lemma_units_increase(ra, rb);
    } else {
        rounding::lemma_units_increase(rb, ra);
    }
}

/// Infinity stands above all finite numbers, and its negative below them.
pub proof fn infinities_stand_outside(a: Double, b: Double)
    requires
        a.finite(),
        b.infinite(),
    ensures
        a.below(b) <==> !b.negative(),
        b.below(a) <==> b.negative(),
        a.at_most(b) <==> !b.negative(),
        b.at_most(a) <==> b.negative(),
        b.at_most(b),
        !b.below(b),
{
}

/// A number is below another, or above it, or equal to it, unless one of them
/// is NaN.
pub proof fn numbers_compare(a: Double, b: Double)
    ensures
        a.nan() || b.nan() ==> !a.below(b) && !b.below(a) && !a.at_most(b),
        !a.nan() && !b.nan() ==> a.at_most(b) == !b.below(a),
        a.at_most(b) == (a.below(b) || (!a.nan() && !b.nan() && a.rank() == b.rank())),
{
}

/// The value of one is `2^1074` units.
proof fn lemma_one()
    ensures
        rounding::units(ONE_BITS as int) == pow2(rounding::unit_exponent()),
        pow2(rounding::unit_exponent()) > 0,
{
    lemma_pow2_pos(rounding::unit_exponent());
    lemma_pow2_adds(52, 1022);
    lemma2_to64();
    assert(pow2(52) == HIDDEN_BIT) by {
        lemma2_to64_rest();
    }
    assert(ONE_BITS as int / HIDDEN_BIT as int == 1023);
    assert(ONE_BITS as int % HIDDEN_BIT as int == 0);
}

/// A sum of amounts is an amount, and no less than either.
pub proof fn sums_do_not_fall(a: Double, b: Double)
    requires
        amount(a),
        amount(b),
    ensures
        amount(a.sum(b)),
        a.at_most(a.sum(b)),
        b.at_most(a.sum(b)),
{
    if a.finite() && b.finite() {
        let va = a.value();
        let vb = b.value();
        rounding::lemma_units_increase(0, a.magnitude());
        rounding::lemma_units_increase(0, b.magnitude());
        assert(rounding::units(0) == 0);
        let exact = va + vb;
        if exact > 0 {
            rounding::lemma_rounded_exact(a.magnitude(), va, 1);
            rounding::lemma_rounded_exact(b.magnitude(), vb, 1);
            rounding::lemma_rounded_ordered(va, 1, exact, 1);
            rounding::lemma_rounded_ordered(vb, 1, exact, 1);
        } else {
            if a.magnitude() > 0 {
                rounding::lemma_units_increase(0, a.magnitude());
            }
            if b.magnitude() > 0 {
                rounding::lemma_units_increase(0, b.magnitude());
            }
        }
    }
}

/// Nothing added to an amount above zero leaves it as it is.
pub proof fn nothing_added(a: Double)
    requires
        amount(a),
        !a.negative(),
    ensures
        (Double { bits: 0 }).sum(a) == a,
        a.sum(Double { bits: 0 }) == a,
{
    assert(rounding::units(0) == 0);
    if a.finite() {
        rounding::lemma_units_increase(0, a.magnitude());
        rounding::lemma_rounded_exact(a.magnitude(), a.value(), 1);
    }
}

/// A finite amount less another amount is no more than it was; it stays an
/// amount where no more is taken than there is.
pub proof fn differences_do_not_rise(a: Double, b: Double)
    requires
        amount(a),
        a.finite(),
        amount(b),
    ensures
        a.difference(b).at_most(a),
        b.at_most(a) ==> amount(a.difference(b)),
{
    let nb = b.negated();
    assert(rounding::units(0) == 0);
    rounding::lemma_units_increase(0, a.magnitude());
    if b.finite() {
        rounding::lemma_units_increase(0, b.magnitude());
        assert(nb.magnitude() == b.magnitude());
        let va = a.value();
        let exact = va + nb.value();
        assert(nb.value() == -b.value());
        order_is_that_of_values(b, a);
        if exact > 0 {
            rounding::lemma_rounded_exact(a.magnitude(), va, 1);
            rounding::lemma_rounded_ordered(exact, 1, va, 1);
        } else if exact < 0 {
            rounding::lemma_rounded_ordered(0, 1, -exact, 1);
        }
    }
}

/// A finite number less itself is nothing.
pub proof fn a_number_less_itself(a: Double)
    requires
        a.finite(),
    ensures
        a.difference(a) == (Double { bits: 0 }),
{
}

/// A part of a finite amount, of one at the most, is no more than the amount.
pub proof fn parts_do_not_exceed(a: Double, part: Double)
    requires
        amount(a),
        a.finite(),
        amount(part),
        part.at_most(Double { bits: ONE_BITS }),
    ensures
        amount(a.product(part)),
        a.product(part).at_most(a),
        a.product(part).finite(),
{
    lemma_one();
    let one = pow2(rounding::unit_exponent()) as int;
    let ua = rounding::units(a.magnitude());
    let up = rounding::units(part.magnitude());
    assert(rounding::units(0) == 0);
    rounding::lemma_units_increase(0, a.magnitude());
    rounding::lemma_units_increase(0, part.magnitude());
    rounding::lemma_units_increase(part.magnitude(), ONE_BITS as int);
    assert(0 <= ua * up <= ua * one) by (nonlinear_arith)
        requires
            0 <= ua,
            0 <= up <= one,
    ;
    assert((ua * up) * one <= (ua * one) * one) by (nonlinear_arith)
        requires
            ua * up <= ua * one,
            one > 0,
    ;
    rounding::lemma_rounded_exact(a.magnitude(), ua * one, one);
    rounding::lemma_rounded_ordered(ua * up, one, ua * one, one);
    if a.magnitude() == 0 || part.magnitude() == 0 {
        assert(ua * up == 0) by (nonlinear_arith)
            requires
                ua == 0 || up == 0,
        ;
        assert(0int == 0int * one) by (nonlinear_arith);
        rounding::lemma_rounded_exact(0, 0, one);
    }
}

/// Larger parts of an amount are larger.
pub proof fn larger_parts_are_larger(a: Double, small: Double, large: Double)
    requires
        amount(a),
        a.finite(),
        amount(small),
        amount(large),
        small.at_most(large),
        large.at_most(Double { bits: ONE_BITS }),
    ensures
        a.product(small).at_most(a.product(large)),
{
    lemma_one();
    parts_do_not_exceed(a, small);
    parts_do_not_exceed(a, large);
    let one = pow2(rounding::unit_exponent()) as int;
    let ua = rounding::units(a.magnitude());
    let us = rounding::units(small.magnitude());
    let ul = rounding::units(large.magnitude());
    assert(rounding::units(0) == 0);
    rounding::lemma_units_increase(0, a.magnitude());
    rounding::lemma_units_increase(0, small.magnitude());
    rounding::lemma_units_increase(small.magnitude(), large.magnitude());
    assert(0 <= ua * us <= ua * ul) by (nonlinear_arith)
        requires
            0 <= ua,
            0 <= us <= ul,
    ;
    assert((ua * us) * one <= (ua * ul) * one) by (nonlinear_arith)
        requires
            ua * us <= ua * ul,
            one > 0,
    ;
    rounding::lemma_rounded_ordered(ua * us, one, ua * ul, one);
}

/// The weight of an amount within a larger one lies between nothing and one.
pub proof fn weights_lie_within_one(gain: Double, gross: Double)
    requires
        amount(gain),
        gain.finite(),
        gross.positive(),
        gain.at_most(gross),
    ensures
        amount(gain.quotient(gross)),
        gain.quotient(gross).at_most(Double { bits: ONE_BITS }),
{
    lemma_one();
    let one = pow2(rounding::unit_exponent()) as int;
    assert(rounding::units(0) == 0);
    rounding::lemma_units_increase(0, gain.magnitude());
    if gross.finite() {
        let ux = rounding::units(gain.magnitude());
        let ug = rounding::units(gross.magnitude());
        rounding::lemma_units_increase(0, gross.magnitude());
        rounding::lemma_units_increase(gain.magnitude(), gross.magnitude());
        assert(0 <= ux * one <= one * ug) by (nonlinear_arith)
            requires
                0 <= ux <= ug,
                one > 0,
        ;
        assert((ux * one) * ug <= (one * ug) * ug) by (nonlinear_arith)
            requires
                ux * one <= one * ug,
                ug > 0,
        ;
        rounding::lemma_rounded_exact(ONE_BITS as int, one * ug, ug);
        rounding::lemma_rounded_ordered(ux * one, ug, one * ug, ug);
        if gain.magnitude() == 0 {
            assert(ux * one == 0) by (nonlinear_arith)
                requires
                    ux == 0,
            ;
            assert(0int == 0int * ug) by (nonlinear_arith);
            rounding::lemma_rounded_exact(0, 0, ug);
        }
    }
}

/// Of two amounts within a third, the larger weighs more.
pub proof fn larger_amounts_weigh_more(small: Double, large: Double, gross: Double)
    requires
        amount(small),
        small.at_most(large),
        large.finite(),
        gross.positive(),
        large.at_most(gross),
    ensures
        small.quotient(gross).at_most(large.quotient(gross)),
{
    lemma_one();
    weights_lie_within_one(small, gross);
    weights_lie_within_one(large, gross);
    let one = pow2(rounding::unit_exponent()) as int;
    assert(rounding::units(0) == 0);
    if gross.finite() {
        let us = rounding::units(small.magnitude());
        let ul = rounding::units(large.magnitude());
        let ug = rounding::units(gross.magnitude());
        rounding::lemma_units_increase(0, gross.magnitude());
        rounding::lemma_units_increase(0, small.magnitude());
        rounding::lemma_units_increase(small.magnitude(), large.magnitude());
        assert(0 <= us * one <= ul * one) by (nonlinear_arith)
            requires
                0 <= us <= ul,
                one > 0,
        ;
        assert((us * one) * ug <= (ul * one) * ug) by (nonlinear_arith)
            requires
                us * one <= ul * one,
                ug > 0,
        ;
        rounding::lemma_rounded_ordered(us * one, ug, ul * one, ug);
    }
}

/// No part of an amount, and every part of nothing, is nothing.
pub proof fn parts_with_nothing(a: Double, b: Double)
    requires
        amount(a),
        a.finite(),
        amount(b),
        b.finite(),
        a.magnitude() == 0 || b.magnitude() == 0,
    ensures
        a.product(b).magnitude() == 0,
        !a.negative() && !b.negative() ==> a.product(b) == (Double { bits: 0 }),
{
    lemma_one();
    let one = pow2(rounding::unit_exponent()) as int;
    assert(rounding::units(0) == 0);
    let ua = rounding::units(a.magnitude());
    let ub = rounding::units(b.magnitude());
    assert(ua * ub == 0) by (nonlinear_arith)
        requires
            ua == 0 || ub == 0,
    ;
    assert(0int == 0int * one) by (nonlinear_arith);
    rounding::lemma_rounded_exact(0, 0, one);
}

/// Of two amounts, the larger is the larger also when both are multiplied by
/// a third above zero.
pub proof fn products_keep_order(small: Double, large: Double, factor: Double)
    requires
        amount(small),
        small.at_most(large),
        factor.positive(),
        factor.finite(),
    ensures
        amount(small.product(factor)),
        small.product(factor).at_most(large.product(factor)),
{
    lemma_one();
    let one = pow2(rounding::unit_exponent()) as int;
    assert(rounding::units(0) == 0);
    let uf = rounding::units(factor.magnitude());
    rounding::lemma_units_increase(0, factor.magnitude());
    let us = rounding::units(small.magnitude());
    rounding::lemma_units_increase(0, small.magnitude());
    assert(0 <= us * uf) by (nonlinear_arith)
        requires
            0 <= us,
            0 <= uf,
    ;
    if small.finite() {
        rounding::lemma_nearest_exists(us * uf, one);
        if small.magnitude() == 0 {
            assert(us * uf == 0) by (nonlinear_arith)
                requires
                    us == 0,
            ;
            assert(0int == 0int * one) by (nonlinear_arith);
            rounding::lemma_rounded_exact(0, 0, one);
        }
        if large.finite() {
            let ul = rounding::units(large.magnitude());
            rounding::lemma_units_increase(small.magnitude(), large.magnitude());
            assert((us * uf) * one <= (ul * uf) * one) by (nonlinear_arith)
                requires
                    0 <= us <= ul,
                    0 <= uf,
                    one > 0,
            ;
            assert(0 <= ul * uf) by (nonlinear_arith)
                requires
                    0 <= ul,
                    0 <= uf,
            ;
            rounding::lemma_rounded_ordered(us * uf, one, ul * uf, one);
            if large.magnitude() == 0 {
                assert(small.magnitude() == 0);
            }
        }
    }
}

/// Of two amounts, the larger is the larger also when both are divided by a
/// third above zero.
pub proof fn quotients_keep_order(small: Double, large: Double, divisor: Double)
    requires
        amount(small),
        small.at_most(large),
        divisor.positive(),
        divisor.finite(),
    ensures
        amount(small.quotient(divisor)),
        small.quotient(divisor).at_most(large.quotient(divisor)),
{
    lemma_one();
    let one = pow2(rounding::unit_exponent()) as int;
    assert(rounding::units(0) == 0);
    let ud = rounding::units(divisor.magnitude());
    rounding::lemma_units_increase(0, divisor.magnitude());
    let us = rounding::units(small.magnitude());
    rounding::lemma_units_increase(0, small.magnitude());
    assert(0 <= us * one) by (nonlinear_arith)
        requires
            0 <= us,
            0 < one,
    ;
    if small.finite() {
        rounding::lemma_nearest_exists(us * one, ud);
        if small.magnitude() == 0 {
            assert(us * one == 0) by (nonlinear_arith)
                requires
                    us == 0,
            ;
            assert(0int == 0int * ud) by (nonlinear_arith);
            rounding::lemma_rounded_exact(0, 0, ud);
        }
        if large.finite() {
            let ul = rounding::units(large.magnitude());
            rounding::lemma_units_increase(small.magnitude(), large.magnitude());
            assert((us * one) * ud <= (ul * one) * ud) by (nonlinear_arith)
                requires
                    0 <= us <= ul,
                    0 <= ud,
                    one > 0,
            ;
            assert(0 <= ul * one) by (nonlinear_arith)
                requires
                    0 <= ul,
                    0 < one,
            ;
            rounding::lemma_rounded_ordered(us * one, ud, ul * one, ud);
        }
    }
}

/// Of two amounts, the larger is the larger also when both are made whole.
pub proof fn whole_numbers_keep_order(small: Double, large: Double)
    requires
        amount(small),
        small.at_most(large),
    ensures
        amount(small.whole()),
        small.whole().at_most(large.whole()),
{
    lemma_one();
    let one = pow2(rounding::unit_exponent()) as int;
    assert(rounding::units(0) == 0);
    let us = rounding::units(small.magnitude());
    rounding::lemma_units_increase(0, small.magnitude());
    if small.finite() {
        let cs = (2 * us + one) / (2 * one);
        lemma_count(us, one);
        assert(0 <= cs * one) by (nonlinear_arith)
            requires
                0 <= cs,
                0 < one,
        ;
        rounding::lemma_nearest_exists(cs * one, 1);
        if small.magnitude() == 0 {
            assert(cs == 0);
            assert(cs * one == 0) by (nonlinear_arith)
                requires
                    cs == 0,
            ;
            rounding::lemma_rounded_exact(0, 0, 1);
        }
        if large.finite() {
            let ul = rounding::units(large.magnitude());
            rounding::lemma_units_increase(small.magnitude(), large.magnitude());
            let cl = (2 * ul + one) / (2 * one);
            lemma_count(ul, one);
            vstd::arithmetic::div_mod::lemma_div_is_ordered(
                2 * us + one,
                2 * ul + one,
                2 * one,
            );
            assert(cs * one <= cl * one) by (nonlinear_arith)
                requires
                    cs <= cl,
                    0 < one,
            ;
            rounding::lemma_rounded_ordered(cs * one, 1, cl * one, 1);
        }
    }
}

/// Counting whole ones by halves.
proof fn lemma_count(units: int, one: int)
    requires
        units >= 0,
        one > 0,
    ensures
        0 <= (2 * units + one) / (2 * one),
        units == 0 ==> (2 * units + one) / (2 * one) == 0,
{
    vstd::arithmetic::div_mod::lemma_div_pos_is_pos(2 * units + one, 2 * one);
    if units == 0 {
        vstd::arithmetic::div_mod::lemma_basic_div(one, 2 * one);
    }
}

} // verus!
