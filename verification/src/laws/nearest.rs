//! Arithmetic gives the nearest number: no other lies closer to the exact
//! result, and of two that lie equally close the even one is given.
use vstd::arithmetic::power2::*;
use vstd::prelude::*;

use crate::double::Double;
use crate::rounding;
use crate::rounding::{HIDDEN_BIT, INFINITY};

verus! {

/// How far two lie apart.
pub open spec fn apart(a: int, b: int) -> int {
    if a < b {
        b - a
    } else {
        a - b
    }
}

/// What one is worth, in units.
pub open spec fn one() -> int {
    pow2(1074) as int
}

/// The number is no further from `num / den` units than another is; if that
/// one lies as close, and is not the same, the number is even.
pub open spec fn no_further(got: Double, other: Double, num: int, den: int) -> bool {
    &&& apart(got.value() * den, num) <= apart(other.value() * den, num)
    &&& apart(got.value() * den, num) == apart(other.value() * den, num) && other.value()
        != got.value() ==> got.bits % 2 == 0
}

/// `num / den` units are too large to be finite: they lie at the middle
/// between the largest finite number and the one that would follow it, or
/// beyond.
pub open spec fn too_large(num: int, den: int) -> bool {
    2 * apart(num, 0) >= (0x3f_ffff_ffff_ffff * pow2(2045)) * den
}

/// The value that bits spell: a significand of 53 bits at its exponent, or
/// one of 52 bits at the lowest.
pub proof fn bits_spell_a_value(d: Double)
    requires
        d.finite(),
    ensures
        ({
            let rest = if d.bits >= 0x8000_0000_0000_0000 {
                d.bits - 0x8000_0000_0000_0000
            } else {
                d.bits as int
            };
            let exponent = rest / 0x10_0000_0000_0000;
            let fraction = rest % 0x10_0000_0000_0000;
            let size = if exponent == 0 {
                fraction
            } else {
                (0x10_0000_0000_0000 + fraction) * pow2((exponent - 1) as nat)
            };
            d.value() == (if d.bits >= 0x8000_0000_0000_0000 {
                -size
            } else {
                size
            })
        }),
{
}

/// The nearest magnitude is no further than any other.
proof fn lemma_no_further(r: int, num: int, den: int, m: int)
    requires
        rounding::is_nearest(r, num, den),
        den > 0,
        0 <= m <= INFINITY,
    ensures
        ({
            let got = rounding::units(r) * den;
            let other = rounding::units(m) * den;
            &&& apart(got, num) <= apart(other, num)
            &&& apart(got, num) == apart(other, num) && m != r ==> r % 2 == 0
        }),
{
    let ur = rounding::units(r);
    let um = rounding::units(m);
    let got = ur * den;
    let other = um * den;
    if m < r {
        rounding::lemma_units_increase(m, r - 1);
        rounding::lemma_units_step(r - 1);
        let below = rounding::units(r - 1);
        let middle = (below + ur) * den;
        assert(middle == below * den + got) by (nonlinear_arith)
            requires
                middle == (below + ur) * den,
                got == ur * den,
        ;
        assert(other <= below * den) by (nonlinear_arith)
            requires
                other == um * den,
                um <= below,
                den > 0,
        ;
        assert(below * den < got) by (nonlinear_arith)
            requires
                got == ur * den,
                below < ur,
                den > 0,
        ;
    } else if m > r {
        rounding::lemma_units_increase(r + 1, m);
        rounding::lemma_units_step(r);
        let above = rounding::units(r + 1);
        let middle = (ur + above) * den;
        assert(middle == got + above * den) by (nonlinear_arith)
            requires
                middle == (ur + above) * den,
                got == ur * den,
        ;
        assert(above * den <= other) by (nonlinear_arith)
            requires
                other == um * den,
                above <= um,
                den > 0,
        ;
        assert(got < above * den) by (nonlinear_arith)
            requires
                got == ur * den,
                ur < above,
                den > 0,
        ;
    }
}

/// The same with signs.
proof fn lemma_signed(negative: bool, num: int, den: int, other: Double)
    requires
        num >= 0,
        den > 0,
        other.finite(),
        rounding::rounded(num, den) < INFINITY,
    ensures
        ({
            let got = Double::signed(negative, rounding::rounded(num, den));
            &&& got.finite()
            &&& negative ==> no_further(got, other, -num, den)
            &&& !negative ==> no_further(got, other, num, den)
        }),
{
    let r = rounding::rounded(num, den);
    rounding::lemma_nearest_exists(num, den);
    let got = Double::signed(negative, r);
    assert(got.magnitude() == r);
    let m = other.magnitude();
    assert(rounding::units(0) == 0);
    rounding::lemma_units_increase(0, m);
    rounding::lemma_units_increase(0, r);
    lemma_no_further(r, num, den, 0);
    lemma_no_further(r, num, den, m);
    let ur = rounding::units(r);
    let um = rounding::units(m);
    assert(0 * den == 0);
    assert((-ur) * den == -(ur * den)) by (nonlinear_arith);
    assert((-um) * den == -(um * den)) by (nonlinear_arith);
    assert(um * den >= 0) by (nonlinear_arith)
        requires
            um >= 0,
            den > 0,
    ;
    if um != 0 {
        assert(um * den > 0) by (nonlinear_arith)
            requires
                um > 0,
                den > 0,
        ;
    }
    if m > r {
        rounding::lemma_units_increase(r, m);
    } else if m < r {
        rounding::lemma_units_increase(m, r);
    }
    if r > 0 {
        rounding::lemma_units_increase(0, r);
    }
    assert(got.bits % 2 == 0 <==> r % 2 == 0);
}

/// What is rounded to infinity is too large to be finite, and nothing else.
proof fn lemma_overflow(num: int, den: int)
    requires
        num >= 0,
        den > 0,
    ensures
        0 <= rounding::rounded(num, den) <= INFINITY,
        rounding::rounded(num, den) == INFINITY <==> too_large(num, den),
{
    let r = rounding::rounded(num, den);
    rounding::lemma_nearest_exists(num, den);
    let top = INFINITY as int;
    let last = rounding::units(top - 1);
    let beyond = rounding::units(top);
    let p = pow2(2045) as int;
    assert(last == 0x1f_ffff_ffff_ffff * p && beyond == 0x20_0000_0000_0000 * p) by {
        assert((top - 1) / (HIDDEN_BIT as int) == 2046);
        assert((top - 1) % (HIDDEN_BIT as int) == 0xf_ffff_ffff_ffff);
        rounding::lemma_units_step(top - 1);
        assert(rounding::scale_of(top - 1) == 2045);
    }
    let middle = (last + beyond) * den;
    assert(middle == (0x3f_ffff_ffff_ffff * p) * den);
    if r < top {
        let above = rounding::units(r + 1);
        let here = rounding::units(r);
        rounding::lemma_units_increase(r, top - 1);
        rounding::lemma_units_increase(r + 1, top);
        assert((here + above) * den <= middle) by (nonlinear_arith)
            requires
                here <= last,
                above <= beyond,
                den > 0,
                middle == (last + beyond) * den,
        ;
        if 2 * num == middle {
            // Then `r` would be the last finite number, which is odd.
            if r < top - 1 {
                rounding::lemma_units_increase(r + 1, top - 1);
                rounding::lemma_units_step(r);
                rounding::lemma_units_step(top - 1);
                assert((here + above) * den < middle) by (nonlinear_arith)
                    requires
                        here < last,
                        above <= beyond,
                        den > 0,
                        middle == (last + beyond) * den,
                ;
            }
            assert((top - 1) % 2 == 1);
        }
    }
}

/// A sum of finite numbers is the nearest to the exact sum, or infinite with
/// its sign where that is too large.
pub proof fn sums_are_the_nearest(a: Double, b: Double, other: Double)
    requires
        a.finite(),
        b.finite(),
        other.finite(),
    ensures
        ({
            let exact = a.value() + b.value();
            let got = a.sum(b);
            &&& got.infinite() <==> too_large(exact, 1)
            &&& !too_large(exact, 1) ==> got.finite() && no_further(got, other, exact, 1)
            &&& exact != 0 ==> (got.negative() <==> exact < 0)
            &&& exact == 0 ==> got.magnitude() == 0 && (got.negative() <==> a.negative()
                && b.negative())
        }),
{
    let exact = a.value() + b.value();
    lemma_pow2_pos(2045);
    assert(0x3f_ffff_ffff_ffff * pow2(2045) > 0) by (nonlinear_arith)
        requires
            pow2(2045) > 0,
    ;
    if exact == 0 {
        assert(rounding::units(0) == 0);
        let v = other.value();
        assert(apart(v * 1, 0) >= 0);
        assert(a.sum(b).bits % 2 == 0);
    } else if exact < 0 {
        lemma_overflow(-exact, 1);
        if !too_large(exact, 1) {
            lemma_signed(true, -exact, 1, other);
        }
    } else {
        lemma_overflow(exact, 1);
        if !too_large(exact, 1) {
            lemma_signed(false, exact, 1, other);
        }
    }
}

/// A difference is the sum with the number of the other sign.
pub proof fn differences_are_sums(a: Double, b: Double)
    ensures
        a.difference(b) == a.sum(b.negated()),
        b.negated().magnitude() == b.magnitude(),
        b.negated().negative() == !b.negative(),
        b.finite() ==> b.negated().value() == -b.value(),
{
}

/// A product of finite numbers is the nearest to the exact product, or
/// infinite where that is too large; its sign is that of two numbers of
/// different signs.
pub proof fn products_are_the_nearest(a: Double, b: Double, other: Double)
    requires
        a.finite(),
        b.finite(),
        other.finite(),
    ensures
        ({
            let exact = a.value() * b.value();
            let got = a.product(b);
            &&& got.infinite() <==> too_large(exact, one())
            &&& !too_large(exact, one()) ==> got.finite() && no_further(got, other, exact, one())
            &&& got.negative() <==> a.negative() != b.negative()
        }),
{
    let x = rounding::units(a.magnitude());
    let y = rounding::units(b.magnitude());
    assert(rounding::units(0) == 0);
    rounding::lemma_units_increase(0, a.magnitude());
    rounding::lemma_units_increase(0, b.magnitude());
    lemma_pow2_pos(1074);
    assert(x * y >= 0) by (nonlinear_arith)
        requires
            x >= 0,
            y >= 0,
    ;
    assert((-x) * y == -(x * y) && x * (-y) == -(x * y) && (-x) * (-y) == x * y) by (nonlinear_arith);
    let negative = a.negative() != b.negative();
    lemma_overflow(x * y, one());
    if !too_large(x * y, one()) {
        lemma_signed(negative, x * y, one(), other);
    }
}

/// A quotient of finite numbers is the nearest to the exact quotient, or
/// infinite where that is too large; the divisor is not zero.
pub proof fn quotients_are_the_nearest(a: Double, b: Double, other: Double)
    requires
        a.finite(),
        b.finite(),
        b.value() != 0,
        other.finite(),
    ensures
        ({
            let size = apart(b.value(), 0);
            let exact = if b.value() < 0 {
                -(a.value() * one())
            } else {
                a.value() * one()
            };
            let got = a.quotient(b);
            &&& size > 0
            &&& got.infinite() <==> too_large(exact, size)
            &&& !too_large(exact, size) ==> got.finite() && no_further(got, other, exact, size)
            &&& got.negative() <==> a.negative() != b.negative()
        }),
{
    let x = rounding::units(a.magnitude());
    let y = rounding::units(b.magnitude());
    assert(rounding::units(0) == 0);
    rounding::lemma_units_increase(0, a.magnitude());
    rounding::lemma_units_increase(0, b.magnitude());
    lemma_pow2_pos(1074);
    let o = one();
    assert(x * o >= 0) by (nonlinear_arith)
        requires
            x >= 0,
            o > 0,
    ;
    assert((-x) * o == -(x * o)) by (nonlinear_arith);
    let negative = a.negative() != b.negative();
    lemma_overflow(x * o, y);
    if !too_large(x * o, y) {
        lemma_signed(negative, x * o, y, other);
    }
}

/// What comes of numbers that are not finite: NaN stays NaN; infinities stay
/// as they are in a sum and cancel to NaN; an infinite factor gives infinity,
/// and NaN with zero; an infinite divisor gives zero; and a division by zero
/// gives infinity, or NaN for zero.
pub proof fn numbers_that_are_not_finite(a: Double, b: Double)
    ensures
        a.nan() || b.nan() ==> a.sum(b).nan() && a.difference(b).nan() && a.product(b).nan()
            && a.quotient(b).nan(),
        a.infinite() && b.finite() ==> a.sum(b) == a && b.sum(a) == a,
        a.infinite() && b.infinite() ==> (if a.negative() == b.negative() {
            a.sum(b) == a
        } else {
            a.sum(b).nan()
        }),
        a.infinite() && !b.nan() ==> (if b.magnitude() == 0 {
            a.product(b).nan() && b.product(a).nan()
        } else {
            &&& a.product(b).infinite()
            &&& b.product(a).infinite()
            &&& a.product(b).negative() <==> a.negative() != b.negative()
            &&& b.product(a).negative() <==> a.negative() != b.negative()
        }),
        a.infinite() && b.finite() ==> a.quotient(b).infinite() && (a.quotient(b).negative()
            <==> a.negative() != b.negative()),
        a.finite() && b.infinite() ==> a.quotient(b).magnitude() == 0 && (a.quotient(b).negative()
            <==> a.negative() != b.negative()),
        a.infinite() && b.infinite() ==> a.quotient(b).nan(),
        a.finite() && b.magnitude() == 0 ==> (if a.magnitude() == 0 {
            a.quotient(b).nan()
        } else {
            a.quotient(b).infinite() && (a.quotient(b).negative() <==> a.negative()
                != b.negative())
        }),
{
}

/// A row of bits and a scale spell a magnitude: a short row is doubled until
/// it is long enough.
proof fn lemma_spelled_low(n: int, q: int, steps: int) -> (r: int)
    requires
        0 < n <= 2 * HIDDEN_BIT,
        0 <= steps,
        n * pow2(steps as nat) >= HIDDEN_BIT,
        steps < q <= 1100,
    ensures
        0 <= r <= INFINITY,
        rounding::units(r) == n * pow2(q as nat),
    decreases steps,
{
    lemma2_to64();
    if n >= HIDDEN_BIT {
        rounding::lemma_units_of_parts(n, q);
        q * HIDDEN_BIT + n
    } else {
        assert(steps > 0) by {
            if steps == 0 {
                assert(n * pow2(0) == n) by (nonlinear_arith)
                    requires
                        pow2(0) == 1,
                ;
            }
        }
        lemma_pow2_unfold(steps as nat);
        lemma_pow2_unfold(q as nat);
        let p = pow2((steps - 1) as nat) as int;
        let g = pow2((q - 1) as nat) as int;
        assert(n * (2 * p) == (2 * n) * p) by (nonlinear_arith);
        assert(n * (2 * g) == (2 * n) * g) by (nonlinear_arith);
        lemma_spelled_low(2 * n, q - 1, steps - 1)
    }
}

/// Rounding to a whole number gives the nearest one, the larger in size of
/// two that are equally near, and keeps the sign.
pub proof fn whole_numbers_are_the_nearest(d: Double)
    requires
        d.finite(),
    ensures
        ({
            let w = d.whole();
            &&& w.finite()
            &&& w.value() % one() == 0
            &&& 2 * apart(w.value(), d.value()) <= one()
            &&& 2 * apart(w.value(), d.value()) == one() ==> apart(w.value(), 0) > apart(
                d.value(),
                0,
            )
            &&& w.negative() == d.negative()
        }),
{
    let o = one();
    lemma_pow2_pos(1074);
    let u = rounding::units(d.magnitude());
    assert(rounding::units(0) == 0);
    rounding::lemma_units_increase(0, d.magnitude());
    let count = (2 * u + o) / (2 * o);
    // The count is within half of the value.
    let rest = (2 * u + o) % (2 * o);
    assert(2 * u + o == (2 * o) * count + rest && 0 <= rest < 2 * o) by {
        vstd::arithmetic::div_mod::lemma_fundamental_div_mod(2 * u + o, 2 * o);
        vstd::arithmetic::div_mod::lemma_mod_bound(2 * u + o, 2 * o);
    }
    assert((2 * o) * count == 2 * (count * o)) by (nonlinear_arith);
    let exact = count * o;
    assert(2 * (exact - u) == o - rest);
    assert(count >= 0) by {
        vstd::arithmetic::div_mod::lemma_div_pos_is_pos(2 * u + o, 2 * o);
    }
    let r = lemma_whole_spelled(d.magnitude(), count);
    rounding::lemma_rounded_exact(r, exact, 1);
    let w = d.whole();
    assert(w.magnitude() == r);
    assert(exact % o == 0) by {
        vstd::arithmetic::div_mod::lemma_mod_multiples_basic(count, o);
    }
    assert((-exact) % o == 0) by {
        assert(-exact == (-count) * o) by (nonlinear_arith)
            requires
                exact == count * o,
        ;
        vstd::arithmetic::div_mod::lemma_mod_multiples_basic(-count, o);
    }
}

/// The whole number nearest to a finite one can be spelled.
proof fn lemma_whole_spelled(magnitude: int, count: int) -> (r: int)
    requires
        0 <= magnitude < INFINITY,
        count >= 0,
        -one() < 2 * (count * one() - rounding::units(magnitude)) <= one(),
    ensures
        0 <= r < INFINITY,
        rounding::units(r) == count * one(),
{
    let o = one();
    let h = HIDDEN_BIT as int;
    lemma_pow2_pos(1074);
    assert(rounding::units(0) == 0);
    let u = rounding::units(magnitude);
    if count == 0 {
        assert(count * o == 0) by (nonlinear_arith)
            requires
                count == 0,
        ;
        0
    } else if count <= 2 * h {
        lemma2_to64();
        lemma2_to64_rest();
        assert(count * pow2(53) >= h) by (nonlinear_arith)
            requires
                count >= 1,
                pow2(53) == 2 * h,
                h > 0,
        ;
        let r = lemma_spelled_low(count, 1074, 53);
        // It is far below the largest finite number.
        rounding::lemma_units_of_parts(2 * h, 1074);
        let high = 1074 * h + 2 * h;
        assert(count * o <= (2 * h) * o) by (nonlinear_arith)
            requires
                count <= 2 * h,
                o > 0,
        ;
        if r >= INFINITY {
            assert(high < INFINITY);
            rounding::lemma_units_increase(high, r);
        }
        r
    } else {
        // So large a number is whole already.
        rounding::lemma_parts(magnitude);
        let q = rounding::scale_of(magnitude);
        let m = rounding::significand_of(magnitude);
        assert(2 * u >= (2 * h) * (2 * o)) by (nonlinear_arith)
            requires
                2 * (count * o - u) <= o,
                count >= 2 * h + 1,
                o > 0,
        ;
        if q < 1074 {
            lemma_pow2_strictly_increases(q as nat, 1074);
            let p = pow2(q as nat) as int;
            assert(m * p < (2 * h) * o) by (nonlinear_arith)
                requires
                    0 <= m < 2 * h,
                    0 <= p < o,
            ;
        }
        lemma_pow2_adds((q - 1074) as nat, 1074);
        let g = pow2((q - 1074) as nat) as int;
        assert(u == (m * g) * o) by (nonlinear_arith)
            requires
                u == m * (g * o),
        ;
        let whole = m * g;
        assert(whole == count) by (nonlinear_arith)
            requires
                u == whole * o,
                -o < 2 * (count * o - u) <= o,
                o > 0,
        ;
        magnitude
    }
}

} // verus!
