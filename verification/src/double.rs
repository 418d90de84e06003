//! Binary64 numbers, held as the bits that spell them.
use vstd::arithmetic::power2::*;
use vstd::prelude::*;

use crate::rounding;
use crate::rounding::{round_placed, HIDDEN_BIT, INFINITY};

verus! {

/// The weight of the sign bit.
pub const SIGN_BIT: u64 = 0x8000_0000_0000_0000;

/// A binary64 number by its bits: a sign, eleven bits of exponent and
/// fifty-two of fraction.
#[derive(Clone, Copy, Debug)]
pub struct Double {
    pub bits: u64,
}

/// The bits of 1.
pub const ONE_BITS: u64 = 0x3ff0_0000_0000_0000;

/// The bits of 100.
pub const HUNDRED_BITS: u64 = 0x4059_0000_0000_0000;

/// The bits of the quiet NaN that invalid operations return.
pub const NAN_BITS: u64 = 0x7ff8_0000_0000_0000;

impl Double {
    pub open spec fn negative(self) -> bool {
        self.bits >= SIGN_BIT
    }

    /// The bits below the sign.
    pub open spec fn magnitude(self) -> int {
        if self.negative() {
            self.bits - SIGN_BIT
        } else {
            self.bits as int
        }
    }

    pub open spec fn nan(self) -> bool {
        self.magnitude() > INFINITY
    }

    pub open spec fn infinite(self) -> bool {
        self.magnitude() == INFINITY
    }

    pub open spec fn finite(self) -> bool {
        self.magnitude() < INFINITY
    }

    /// The value of a finite number, in units of `2^-1074`.
    pub open spec fn value(self) -> int {
        if self.negative() {
            -rounding::units(self.magnitude())
        } else {
            rounding::units(self.magnitude())
        }
    }

    /// A number by its sign and magnitude.
    pub open spec fn signed(negative: bool, magnitude: int) -> Double {
        if negative {
            Double { bits: (magnitude + SIGN_BIT) as u64 }
        } else {
            Double { bits: magnitude as u64 }
        }
    }

    /// Where a number that is not NaN stands in the order of numbers; both
    /// zeros stand at 0.
    pub open spec fn rank(self) -> int {
        if self.negative() {
            -self.magnitude()
        } else {
            self.magnitude()
        }
    }

    /// `self < other`; false where either is NaN.
    pub open spec fn below(self, other: Double) -> bool {
        !self.nan() && !other.nan() && self.rank() < other.rank()
    }

    /// `self <= other`; false where either is NaN.
    pub open spec fn at_most(self, other: Double) -> bool {
        !self.nan() && !other.nan() && self.rank() <= other.rank()
    }

    /// `self > 0`; false for NaN.
    pub open spec fn positive(self) -> bool {
        (Double { bits: 0 }).below(self)
    }

    pub open spec fn negated(self) -> Double {
        Double::signed(!self.negative(), self.magnitude())
    }

    /// The sum, correctly rounded.
    pub open spec fn sum(self, other: Double) -> Double {
        if self.nan() || other.nan() {
            Double { bits: NAN_BITS }
        } else if self.infinite() && other.infinite() {
            if self.negative() == other.negative() {
                self
            } else {
                Double { bits: NAN_BITS }
            }
        } else if self.infinite() {
            self
        } else if other.infinite() {
            other
        } else {
            let exact = self.value() + other.value();
            if exact == 0 {
                if self.negative() && other.negative() {
                    Double::signed(true, 0)
                } else {
                    Double { bits: 0 }
                }
            } else if exact < 0 {
                Double::signed(true, rounding::rounded(-exact, 1))
            } else {
                Double::signed(false, rounding::rounded(exact, 1))
            }
        }
    }

    /// The difference, correctly rounded.
    pub open spec fn difference(self, other: Double) -> Double {
        self.sum(other.negated())
    }

    /// The product, correctly rounded.
    pub open spec fn product(self, other: Double) -> Double {
        let negative = self.negative() != other.negative();
        if self.nan() || other.nan() {
            Double { bits: NAN_BITS }
        } else if self.infinite() || other.infinite() {
            if self.magnitude() == 0 || other.magnitude() == 0 {
                Double { bits: NAN_BITS }
            } else {
                Double::signed(negative, INFINITY as int)
            }
        } else {
            let exact = rounding::units(self.magnitude()) * rounding::units(
                other.magnitude(),
            );
            Double::signed(
                negative,
                rounding::rounded(exact, pow2(rounding::unit_exponent()) as int),
            )
        }
    }

    /// The quotient, correctly rounded.
    pub open spec fn quotient(self, other: Double) -> Double {
        let negative = self.negative() != other.negative();
        if self.nan() || other.nan() {
            Double { bits: NAN_BITS }
        } else if self.infinite() {
            if other.infinite() {
                Double { bits: NAN_BITS }
            } else {
                Double::signed(negative, INFINITY as int)
            }
        } else if other.infinite() {
            Double::signed(negative, 0)
        } else if other.magnitude() == 0 {
            if self.magnitude() == 0 {
                Double { bits: NAN_BITS }
            } else {
                Double::signed(negative, INFINITY as int)
            }
        } else {
            let over = rounding::units(self.magnitude()) * pow2(
                rounding::unit_exponent(),
            );
            Double::signed(
                negative,
                rounding::rounded(over, rounding::units(other.magnitude())),
            )
        }
    }

    /// The larger of the number and zero; zero for NaN.
    pub open spec fn clamped(self) -> Double {
        if self.positive() {
            self
        } else {
            Double { bits: 0 }
        }
    }

    /// The nearest whole number, halves away from zero.
    pub open spec fn whole(self) -> Double {
        if self.nan() {
            Double { bits: NAN_BITS }
        } else if self.infinite() {
            self
        } else {
            let one = pow2(rounding::unit_exponent()) as int;
            let count = (2 * rounding::units(self.magnitude()) + one) / (2 * one);
            Double::signed(self.negative(), rounding::rounded(count * one, 1))
        }
    }
}

/// Splits a finite magnitude into its significand and scale.
fn parts(magnitude: u64) -> (p: (u64, i32))
    requires
        magnitude < INFINITY,
    ensures
        p.0 == rounding::significand_of(magnitude as int),
        p.1 == rounding::scale_of(magnitude as int),
        p.0 < 2 * HIDDEN_BIT,
        0 <= p.1 < 2046,
        p.0 >= HIDDEN_BIT || p.1 == 0,
        rounding::units(magnitude as int) == p.0 * pow2(p.1 as nat),
        magnitude == p.1 * HIDDEN_BIT + p.0,
{
    proof {
        rounding::lemma_parts(magnitude as int);
    }
    let exponent: u64 = magnitude / HIDDEN_BIT;
    if exponent == 0 {
        (magnitude, 0)
    } else {
        (magnitude - (exponent - 1) * HIDDEN_BIT, (exponent - 1) as i32)
    }
}

/// `m * 2^by`.
fn scaled_up(m: u64, by: i32) -> (r: u128)
    requires
        0 <= by <= 64,
    ensures
        r == m * pow2(by as nat),
        r < 0x1_0000_0000_0000_0000_0000_0000_0000_0000,
{
    let mut r: u128 = m as u128;
    let mut i: i32 = 0;
    proof {
        lemma2_to64();
        assert(m * pow2(0) == m);
    }
    while i < by
        invariant
            0 <= i <= by <= 64,
            r == m * pow2(i as nat),
        decreases by - i,
    {
        proof {
            lemma_pow2_unfold((i + 1) as nat);
            lemma2_to64();
            lemma2_to64_rest();
            if i < 63 {
                lemma_pow2_strictly_increases(i as nat, 63);
            }
            let p = pow2(i as nat) as int;
            assert(2 * (m * p) == m * (2 * p)) by (nonlinear_arith);
            assert(m * p <= 0xffff_ffff_ffff_ffff * 0x8000_0000_0000_0000) by (nonlinear_arith)
                requires
                    0 <= m <= 0xffff_ffff_ffff_ffff,
                    0 <= p <= 0x8000_0000_0000_0000,
            ;
        }
        r = r * 2;
        i = i + 1;
    }
    r
}

/// `n * 2^q` units are placed at the significand `n` and the scale `q`.
proof fn lemma_placed_exact(n: int, q: int, num: int, den: int)
    requires
        den > 0,
        q + rounding::slack() >= 0,
        num * pow2(rounding::slack()) == n * (pow2((q + rounding::slack()) as nat) * den),
    ensures
        rounding::placed(n, q, false, false, num, den),
{
    let p = pow2((q + rounding::slack()) as nat) as int;
    lemma_pow2_pos((q + rounding::slack()) as nat);
    assert(p * den > 0) by (nonlinear_arith)
        requires
            p > 0,
            den > 0,
    ;
}

/// The same where the scale is not negative and the value is whole.
proof fn lemma_placed_whole(n: int, q: int)
    requires
        q >= 0,
    ensures
        rounding::placed(n, q, false, false, n * pow2(q as nat), 1),
{
    let k = rounding::slack();
    lemma_pow2_adds(q as nat, k);
    let p = pow2(q as nat) as int;
    let g = pow2(k) as int;
    assert((n * p) * g == n * ((p * g) * 1)) by (nonlinear_arith);
    lemma_placed_exact(n, q, n * pow2(q as nat), 1);
}

/// What is far below a number's step does not move it.
proof fn lemma_absorbed(r: int, small: int, exact: int)
    requires
        0 < r < INFINITY,
        0 <= small,
        4 * small < pow2(rounding::scale_of(r) as nat),
        exact == rounding::units(r) + small || exact == rounding::units(r) - small,
    ensures
        rounding::rounded(exact, 1) == r,
{
    rounding::lemma_units_step(r);
    rounding::lemma_units_step(r - 1);
    let q = rounding::scale_of(r);
    let p = rounding::scale_of(r - 1);
    rounding::lemma_parts(r);
    rounding::lemma_parts(r - 1);
    assert(q == p || q == p + 1);
    if q == p + 1 {
        lemma_pow2_unfold(q as nat);
    }
    assert(rounding::is_nearest(r, exact, 1));
    rounding::lemma_nearest_unique(r, exact, 1);
}

/// The magnitude of the sum or the difference of two finite magnitudes, the
/// larger one first.
fn combined(large: u64, small: u64, opposed: bool) -> (r: u64)
    requires
        small <= large < INFINITY,
        large > 0,
    ensures
        ({
            let exact = if opposed {
                rounding::units(large as int) - rounding::units(small as int)
            } else {
                rounding::units(large as int) + rounding::units(small as int)
            };
            &&& exact >= 0
            &&& r == rounding::rounded(exact, 1)
            &&& r <= INFINITY
        }),
{
    let (m1, q1) = parts(large);
    let (m2, q2) = parts(small);
    let ghost exact = if opposed {
        rounding::units(large as int) - rounding::units(small as int)
    } else {
        rounding::units(large as int) + rounding::units(small as int)
    };
    proof {
        rounding::lemma_units_increase(small as int, large as int);
        rounding::lemma_units_increase(0, small as int);
        assert(q2 <= q1) by {
            if q2 > q1 {
                assert(q2 * HIDDEN_BIT >= q1 * HIDDEN_BIT + HIDDEN_BIT) by (nonlinear_arith)
                    requires
                        q2 >= q1 + 1,
                ;
            }
        }
        rounding::lemma_nearest_exists(exact, 1);
    }
    let gap: i32 = q1 - q2;
    if gap > 64 {
        proof {
            let p2 = pow2(q2 as nat) as int;
            lemma_pow2_pos(q2 as nat);
            lemma_pow2_adds(q2 as nat, 55);
            lemma2_to64_rest();
            lemma_pow2_strictly_increases((q2 + 55) as nat, q1 as nat);
            assert(m2 * p2 * 4 < p2 * 0x80_0000_0000_0000) by (nonlinear_arith)
                requires
                    0 <= m2 < 0x20_0000_0000_0000,
                    p2 > 0,
            {
                assert(m2 * p2 <= 0x1f_ffff_ffff_ffff * p2);
            }
            lemma_absorbed(large as int, rounding::units(small as int), exact);
        }
        large
    } else {
        let wide: u128 = scaled_up(m1, gap);
        let ghost n = if opposed {
            wide - m2
        } else {
            wide + m2
        };
        proof {
            lemma_pow2_adds(q2 as nat, gap as nat);
            let p = pow2(q2 as nat) as int;
            let g = pow2(gap as nat) as int;
            lemma_pow2_pos(q2 as nat);
            lemma_pow2_pos(gap as nat);
            assert(m1 * (p * g) == (m1 * g) * p) by (nonlinear_arith);
            assert(wide * p + m2 * p == (wide + m2) * p) by (nonlinear_arith);
            assert(wide * p - m2 * p == (wide - m2) * p) by (nonlinear_arith);
            assert(exact == n * p);
            assert(n >= 0) by (nonlinear_arith)
                requires
                    exact == n * p,
                    exact >= 0,
                    p > 0,
            ;
            lemma2_to64();
            lemma2_to64_rest();
            if gap < 64 {
                lemma_pow2_strictly_increases(gap as nat, 64);
            }
            assert(m1 * g <= 0x1f_ffff_ffff_ffff * 0x1_0000_0000_0000_0000) by (nonlinear_arith)
                requires
                    0 <= m1 <= 0x1f_ffff_ffff_ffff,
                    0 < g <= 0x1_0000_0000_0000_0000,
            ;
            lemma_placed_whole(n, q2 as int);
        }
        let total: u128 = if opposed {
            wide - m2 as u128
        } else {
            wide + m2 as u128
        };
        round_placed(total, q2, false, false, Ghost(exact), Ghost(1))
    }
}

/// The magnitude of the product of two finite magnitudes.
fn multiplied(a: u64, b: u64) -> (r: u64)
    requires
        a < INFINITY,
        b < INFINITY,
    ensures
        r <= INFINITY,
        r == rounding::rounded(
            rounding::units(a as int) * rounding::units(b as int),
            pow2(rounding::unit_exponent()) as int,
        ),
{
    let (m1, q1) = parts(a);
    let (m2, q2) = parts(b);
    let ghost num = rounding::units(a as int) * rounding::units(b as int);
    let ghost den = pow2(rounding::unit_exponent()) as int;
    assert(m1 * m2 <= 0x1f_ffff_ffff_ffff * 0x1f_ffff_ffff_ffff) by (nonlinear_arith)
        requires
            m1 <= 0x1f_ffff_ffff_ffff,
            m2 <= 0x1f_ffff_ffff_ffff,
    ;
    let n: u128 = m1 as u128 * m2 as u128;
    let q: i32 = q1 + q2 - 1074;
    proof {
        let k = rounding::slack();
        lemma_pow2_pos(rounding::unit_exponent());
        lemma_pow2_adds(q1 as nat, q2 as nat);
        lemma_pow2_adds((q1 + q2) as nat, k);
        lemma_pow2_adds((q + k) as nat, rounding::unit_exponent());
        let p1 = pow2(q1 as nat) as int;
        let p2 = pow2(q2 as nat) as int;
        let g = pow2(k) as int;
        let t = pow2((q + k) as nat) as int;
        assert(t * den == (p1 * p2) * g);
        assert(((m1 * p1) * (m2 * p2)) * g == (m1 * m2) * ((p1 * p2) * g)) by (nonlinear_arith);
        lemma_placed_exact(n as int, q as int, num, den);
    }
    round_placed(n, q, false, false, Ghost(num), Ghost(den))
}

/// The magnitude of the quotient of two finite magnitudes.
fn divided(a: u64, b: u64) -> (r: u64)
    requires
        0 < a < INFINITY,
        0 < b < INFINITY,
    ensures
        r <= INFINITY,
        r == rounding::rounded(
            rounding::units(a as int) * pow2(rounding::unit_exponent()),
            rounding::units(b as int),
        ),
{
    let (m1, q1) = parts(a);
    let (m2, q2) = parts(b);
    let ghost num = rounding::units(a as int) * pow2(rounding::unit_exponent());
    let ghost den = rounding::units(b as int);
    let ghost k = rounding::slack();
    let ghost e = rounding::unit_exponent();
    proof {
        rounding::lemma_units_increase(0, b as int);
        let p = pow2(q1 as nat) as int;
        lemma_pow2_adds(q1 as nat, e);
        lemma_pow2_adds((q1 + e) as nat, k);
        let d = pow2(e) as int;
        let g = pow2(k) as int;
        assert(((m1 * p) * d) * g == m1 * ((p * d) * g)) by (nonlinear_arith);
        lemma2_to64();
    }
    let mut m: u64 = m1;
    let mut q: i32 = q1;
    while m < HIDDEN_BIT
        invariant
            0 < m < 2 * HIDDEN_BIT,
            -60 <= q < 2046,
            k == rounding::slack(),
            e == rounding::unit_exponent(),
            num * pow2(k) == m * pow2((q + e + k) as nat),
            m >= HIDDEN_BIT || q <= 0,
            q <= 0 ==> m >= pow2(-q as nat),
        decreases 2 * HIDDEN_BIT - m,
    {
        proof {
            lemma_pow2_unfold((q + e + k) as nat);
            let p = pow2((q - 1 + e + k) as nat) as int;
            assert(m * (2 * p) == (2 * m) * p) by (nonlinear_arith);
            lemma2_to64_rest();
            if -q > 52 {
                lemma_pow2_strictly_increases(52, -q as nat);
            }
            lemma_pow2_unfold((1 - q) as nat);
        }
        m = m * 2;
        q = q - 1;
    }
    let wide: u128 = scaled_up(m, 64);
    let n: u128 = wide / m2 as u128;
    let over: u128 = wide % m2 as u128;
    let at: i32 = q - q2 + 1010;
    proof {
        lemma2_to64();
        lemma2_to64_rest();
        let t = pow2((q + 1010 + k) as nat) as int;
        lemma_pow2_pos((q + 1010 + k) as nat);
        lemma_pow2_adds((q + 1010 + k) as nat, 64);
        lemma_pow2_adds((at + k) as nat, q2 as nat);
        let step = pow2((at + k) as nat) * den;
        let p2 = pow2(q2 as nat) as int;
        let u = pow2((at + k) as nat) as int;
        assert(u * (m2 * p2) == m2 * (u * p2)) by (nonlinear_arith);
        assert(step == m2 * t);
        let big = pow2(64) as int;
        assert(m * (t * big) == (m * big) * t) by (nonlinear_arith);
        assert(num * pow2(k) == wide * t);
        assert(wide == n * m2 + over) by (nonlinear_arith)
            requires
                n == wide / (m2 as u128),
                over == wide % (m2 as u128),
                m2 > 0,
        ;
        let offset = num * pow2(k) - n * step;
        assert(offset == over * t) by (nonlinear_arith)
            requires
                offset == wide * t - n * (m2 * t),
                wide == n * m2 + over,
        ;
        assert(0 <= offset < step && (2 * offset >= step <==> 2 * over >= m2) && (offset == 0
            <==> over == 0) && (2 * offset == step <==> 2 * over == m2)) by (nonlinear_arith)
            requires
                offset == over * t,
                step == m2 * t,
                0 <= over < m2,
                t > 0,
        ;
        assert(wide >= 0x10_0000_0000_0000 * 0x1_0000_0000_0000_0000) by (nonlinear_arith)
            requires
                wide == m * big,
                m >= 0x10_0000_0000_0000,
                big == 0x1_0000_0000_0000_0000,
        ;
        assert(n >= HIDDEN_BIT) by (nonlinear_arith)
            requires
                wide == n * m2 + over,
                over < m2,
                0 < m2 < 0x20_0000_0000_0000,
                wide >= 0x10_0000_0000_0000 * 0x1_0000_0000_0000_0000,
                n >= 0,
        ;
    }
    round_placed(
        n,
        at,
        2 * over >= m2 as u128,
        over != 0 && 2 * over != m2 as u128,
        Ghost(num),
        Ghost(den),
    )
}

/// The magnitude of the whole number nearest to a finite magnitude, halves
/// up.
fn made_whole(a: u64) -> (r: u64)
    requires
        a < INFINITY,
    ensures
        r <= INFINITY,
        ({
            let one = pow2(rounding::unit_exponent()) as int;
            let count = (2 * rounding::units(a as int) + one) / (2 * one);
            r == rounding::rounded(count * one, 1)
        }),
{
    let (m, q) = parts(a);
    let ghost one = pow2(rounding::unit_exponent()) as int;
    let ghost u = rounding::units(a as int);
    let ghost count = (2 * u + one) / (2 * one);
    proof {
        lemma_pow2_pos(rounding::unit_exponent());
    }
    if q >= 1074 {
        proof {
            let e = rounding::unit_exponent();
            lemma_pow2_adds((q - e) as nat, e);
            let c = m * pow2((q - e) as nat);
            let t = pow2((q - e) as nat) as int;
            assert(m * (t * one) == (m * t) * one) by (nonlinear_arith);
            assert(2 * u + one == c * (2 * one) + one) by (nonlinear_arith)
                requires
                    u == c * one,
            ;
            vstd::arithmetic::div_mod::lemma_fundamental_div_mod_converse(
                2 * u + one,
                2 * one,
                c,
                one,
            );
            rounding::lemma_rounded_exact(a as int, u, 1);
        }
        a
    } else {
        let k: i32 = 1074 - q;
        let ghost g = pow2(k as nat) as int;
        let ghost h = pow2((k - 1) as nat) as int;
        let ghost p = pow2(q as nat) as int;
        proof {
            lemma_pow2_adds(q as nat, k as nat);
            lemma_pow2_unfold(k as nat);
            lemma_pow2_pos(q as nat);
            lemma_pow2_pos(k as nat);
            assert(count == (m + h) / g) by {
                let c = (m + h) / g;
                let over = (m + h) % g;
                vstd::arithmetic::div_mod::lemma_fundamental_div_mod(m + h, g);
                assert(2 * u + one == c * (2 * one) + over * (2 * p)) by (nonlinear_arith)
                    requires
                        u == m * p,
                        one == p * g,
                        g == 2 * h,
                        m + h == g * c + over,
                ;
                assert(0 <= over * (2 * p) < 2 * one) by (nonlinear_arith)
                    requires
                        0 <= over < g,
                        p > 0,
                        one == p * g,
                ;
                vstd::arithmetic::div_mod::lemma_fundamental_div_mod_converse(
                    2 * u + one,
                    2 * one,
                    c,
                    over * (2 * p),
                );
            }
            lemma2_to64();
            lemma2_to64_rest();
        }
        let c: u64 = if k > 54 {
            proof {
                lemma_pow2_strictly_increases(53, (k - 1) as nat);
                assert((m + h) / g == 0) by (nonlinear_arith)
                    requires
                        0 <= m < h,
                        g == 2 * h,
                ;
            }
            0
        } else {
            let half: u64 = scaled_up(1, k - 1) as u64;
            proof {
                if k - 1 < 53 {
                    lemma_pow2_strictly_increases((k - 1) as nat, 53);
                }
            }
            (m + half) / (2 * half)
        };
        proof {
            lemma_placed_whole(c as int, 1074);
            rounding::lemma_nearest_exists(c * one, 1);
        }
        round_placed(c as u128, 1074, false, false, Ghost(c * one), Ghost(1))
    }
}

impl Double {
    /// The number that `bits` spells.
    pub fn from_bits(bits: u64) -> (d: Double)
        ensures
            d.bits == bits,
    {
        Double { bits }
    }

    /// The sign and the magnitude.
    fn split(self) -> (p: (bool, u64))
        ensures
            p.0 == self.negative(),
            p.1 == self.magnitude(),
    {
        if self.bits >= SIGN_BIT {
            (true, self.bits - SIGN_BIT)
        } else {
            (false, self.bits)
        }
    }

    fn join(negative: bool, magnitude: u64) -> (d: Double)
        requires
            magnitude < SIGN_BIT,
        ensures
            d == Double::signed(negative, magnitude as int),
    {
        if negative {
            Double { bits: magnitude + SIGN_BIT }
        } else {
            Double { bits: magnitude }
        }
    }

    pub fn is_nan(self) -> (b: bool)
        ensures
            b == self.nan(),
    {
        let (_, magnitude) = self.split();
        magnitude > INFINITY
    }

    /// The rank of a number among numbers.
    pub fn order_rank(self) -> (r: i64)
        ensures
            r == self.rank(),
    {
        let (negative, magnitude) = self.split();
        if negative {
            -(magnitude as i64)
        } else {
            magnitude as i64
        }
    }

    /// `self < other`.
    pub fn is_below(self, other: Double) -> (b: bool)
        ensures
            b == self.below(other),
    {
        !self.is_nan() && !other.is_nan() && self.order_rank() < other.order_rank()
    }

    /// `self <= other`.
    pub fn is_at_most(self, other: Double) -> (b: bool)
        ensures
            b == self.at_most(other),
    {
        !self.is_nan() && !other.is_nan() && self.order_rank() <= other.order_rank()
    }

    /// `-self`.
    pub fn negate(self) -> (d: Double)
        ensures
            d == self.negated(),
    {
        let (negative, magnitude) = self.split();
        Double::join(!negative, magnitude)
    }

    /// `self + other`.
    pub fn plus(self, other: Double) -> (d: Double)
        ensures
            d == self.sum(other),
    {
        let (n1, m1) = self.split();
        let (n2, m2) = other.split();
        if m1 > INFINITY || m2 > INFINITY {
            Double { bits: NAN_BITS }
        } else if m1 == INFINITY && m2 == INFINITY {
            if n1 == n2 {
                self
            } else {
                Double { bits: NAN_BITS }
            }
        } else if m1 == INFINITY {
            self
        } else if m2 == INFINITY {
            other
        } else {
            proof {
                rounding::lemma_units_increase(0, m1 as int);
                rounding::lemma_units_increase(0, m2 as int);
                if m1 <= m2 {
                    rounding::lemma_units_increase(m1 as int, m2 as int);
                } else {
                    rounding::lemma_units_increase(m2 as int, m1 as int);
                }
            }
            if m1 == m2 && (n1 != n2 || m1 == 0) {
                Double::join(n1 && n2, 0)
            } else if m1 >= m2 {
                let r: u64 = combined(m1, m2, n1 != n2);
                Double::join(n1, r)
            } else {
                let r: u64 = combined(m2, m1, n1 != n2);
                Double::join(n2, r)
            }
        }
    }

    /// `self - other`.
    pub fn minus(self, other: Double) -> (d: Double)
        ensures
            d == self.difference(other),
    {
        self.plus(other.negate())
    }

    /// `self * other`.
    pub fn times(self, other: Double) -> (d: Double)
        ensures
            d == self.product(other),
    {
        let (n1, m1) = self.split();
        let (n2, m2) = other.split();
        if m1 > INFINITY || m2 > INFINITY {
            Double { bits: NAN_BITS }
        } else if m1 == INFINITY || m2 == INFINITY {
            if m1 == 0 || m2 == 0 {
                Double { bits: NAN_BITS }
            } else {
                Double::join(n1 != n2, INFINITY)
            }
        } else {
            let r: u64 = multiplied(m1, m2);
            Double::join(n1 != n2, r)
        }
    }

    /// `self / other`.
    pub fn divided_by(self, other: Double) -> (d: Double)
        ensures
            d == self.quotient(other),
    {
        let (n1, m1) = self.split();
        let (n2, m2) = other.split();
        if m1 > INFINITY || m2 > INFINITY {
            Double { bits: NAN_BITS }
        } else if m1 == INFINITY {
            if m2 == INFINITY {
                Double { bits: NAN_BITS }
            } else {
                Double::join(n1 != n2, INFINITY)
            }
        } else if m2 == INFINITY {
            Double::join(n1 != n2, 0)
        } else if m2 == 0 {
            if m1 == 0 {
                Double { bits: NAN_BITS }
            } else {
                Double::join(n1 != n2, INFINITY)
            }
        } else if m1 == 0 {
            proof {
                rounding::lemma_units_increase(0, m2 as int);
                assert(rounding::units(0) == 0);
                assert(0 * pow2(rounding::unit_exponent()) == 0);
                assert(0 * rounding::units(m2 as int) == 0);
                rounding::lemma_rounded_exact(0, 0, rounding::units(m2 as int));
            }
            Double::join(n1 != n2, 0)
        } else {
            let r: u64 = divided(m1, m2);
            Double::join(n1 != n2, r)
        }
    }

    /// The larger of the number and zero; zero for NaN.
    pub fn clamp(self) -> (d: Double)
        ensures
            d == self.clamped(),
    {
        if (Double { bits: 0 }).is_below(self) {
            self
        } else {
            Double { bits: 0 }
        }
    }

    /// The nearest whole number, halves away from zero.
    pub fn round(self) -> (d: Double)
        ensures
            d == self.whole(),
    {
        let (negative, magnitude) = self.split();
        if magnitude > INFINITY {
            Double { bits: NAN_BITS }
        } else if magnitude == INFINITY {
            self
        } else {
            let r: u64 = made_whole(magnitude);
            Double::join(negative, r)
        }
    }
}

} // verus!
