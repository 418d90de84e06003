//! Rounding to the binary64 grid.
//!
//! A nonnegative binary64 number is known by its *magnitude*: the integer
//! that its 63 bits below the sign spell.  Magnitudes are ordered as the
//! numbers are, magnitude 0 is zero, and `INFINITY` is the first magnitude
//! that is not finite.  Every finite number is a whole multiple of the
//! smallest one, `2^-1074`, so its value is kept as an integer count of that
//! unit.
use vstd::arithmetic::power2::*;
use vstd::prelude::*;

verus! {

/// The number of fractions between two powers of two, `2^52`.
pub const HIDDEN_BIT: u64 = 0x10_0000_0000_0000;

/// The magnitude of infinity: exponent field 2047, fraction 0.
pub const INFINITY: u64 = 0x7ff0_0000_0000_0000;

/// The binary exponent of the unit, negated: the unit is `2^-1074`.
pub open spec fn unit_exponent() -> nat {
    1074
}

/// The value of the magnitude `r` in units.  At `INFINITY` this is `2^1024`,
/// the number that would follow the largest finite one.
pub open spec fn units(r: int) -> int {
    let exponent = r / (HIDDEN_BIT as int);
    let fraction = r % (HIDDEN_BIT as int);
    if exponent == 0 {
        fraction
    } else {
        (HIDDEN_BIT + fraction) * pow2((exponent - 1) as nat)
    }
}

/// The magnitude `r` is the one nearest to `num / den` units; of two that
/// are equally near it is the even one.
pub open spec fn is_nearest(r: int, num: int, den: int) -> bool {
    &&& 0 <= r <= INFINITY
    &&& r > 0 ==> {
        let middle = (units(r - 1) + units(r)) * den;
        2 * num > middle || (2 * num == middle && r % 2 == 0)
    }
    &&& r < INFINITY ==> {
        let middle = (units(r) + units(r + 1)) * den;
        2 * num < middle || (2 * num == middle && r % 2 == 0)
    }
}

/// `num / den` units, rounded to the nearest magnitude, ties to even.
pub open spec fn rounded(num: int, den: int) -> int {
    choose|r: int| is_nearest(r, num, den)
}

/// A significand and a scale spell a magnitude by plain addition.
pub proof fn lemma_units_of_parts(significand: int, scale: int)
    requires
        0 <= significand <= 2 * HIDDEN_BIT,
        0 <= scale,
        significand >= HIDDEN_BIT || scale == 0,
    ensures
        units(scale * HIDDEN_BIT + significand) == significand * pow2(scale as nat),
{
    let h = HIDDEN_BIT as int;
    let r = scale * h + significand;
    if significand < h {
        assert(r / h == 0 && r % h == significand);
        lemma2_to64();
    } else if significand < 2 * h {
        assert(r / h == scale + 1 && r % h == significand - h) by (nonlinear_arith)
            requires
                h == 0x10_0000_0000_0000,
                r == scale * h + significand,
                h <= significand < 2 * h,
        ;
    } else {
        assert(r / h == scale + 2 && r % h == 0) by (nonlinear_arith)
            requires
                h == 0x10_0000_0000_0000,
                r == scale * h + significand,
                significand == 2 * h,
        ;
        lemma_pow2_unfold((scale + 1) as nat);
        let p = pow2(scale as nat) as int;
        assert(h * (2 * p) == (2 * h) * p) by (nonlinear_arith);
    }
}

/// The significand and the scale that spell a magnitude.
pub open spec fn scale_of(r: int) -> int {
    let exponent = r / (HIDDEN_BIT as int);
    if exponent == 0 {
        0
    } else {
        exponent - 1
    }
}

pub open spec fn significand_of(r: int) -> int {
    r - scale_of(r) * HIDDEN_BIT
}

pub proof fn lemma_parts(r: int)
    requires
        0 <= r,
    ensures
        0 <= scale_of(r),
        0 <= significand_of(r) < 2 * HIDDEN_BIT,
        significand_of(r) >= HIDDEN_BIT || scale_of(r) == 0,
        units(r) == significand_of(r) * pow2(scale_of(r) as nat),
        r == scale_of(r) * HIDDEN_BIT + significand_of(r),
{
    let h = HIDDEN_BIT as int;
    assert(r == (r / h) * h + r % h) by (nonlinear_arith)
        requires
            h == 0x10_0000_0000_0000,
    ;
    let q = scale_of(r);
    if r / h > 0 {
        assert(r - q * h == h + r % h) by (nonlinear_arith)
            requires
                q == r / h - 1,
                r == (r / h) * h + r % h,
        ;
    }
    lemma_units_of_parts(significand_of(r), q);
}

/// Neighbouring magnitudes are one step of their scale apart.
pub proof fn lemma_units_step(r: int)
    requires
        0 <= r,
    ensures
        units(r) >= 0,
        units(r + 1) == units(r) + pow2(scale_of(r) as nat),
        units(r) < units(r + 1),
{
    lemma_parts(r);
    let m = significand_of(r);
    let q = scale_of(r);
    let p = pow2(q as nat) as int;
    lemma_units_of_parts(m + 1, q);
    lemma_pow2_pos(q as nat);
    assert((m + 1) * p == m * p + p) by (nonlinear_arith);
    assert(m * p >= 0) by (nonlinear_arith)
        requires
            m >= 0,
            p > 0,
    ;
}

/// Larger magnitudes have larger values.
pub proof fn lemma_units_increase(r1: int, r2: int)
    requires
        0 <= r1 <= r2,
    ensures
        0 <= units(r1) <= units(r2),
        r1 < r2 ==> units(r1) < units(r2),
    decreases r2 - r1,
{
    lemma_units_step(r1);
    if r1 < r2 {
        lemma_units_increase(r1 + 1, r2);
    }
}

/// Rounding keeps the order of what is rounded.
pub proof fn lemma_nearest_ordered(r1: int, num1: int, den1: int, r2: int, num2: int, den2: int)
    requires
        is_nearest(r1, num1, den1),
        is_nearest(r2, num2, den2),
        den1 > 0,
        den2 > 0,
        num1 * den2 <= num2 * den1,
    ensures
        r1 <= r2,
{
    if r1 > r2 {
        let low = units(r2) + units(r2 + 1);
        let high = units(r1 - 1) + units(r1);
        lemma_units_increase(r2, r1 - 1);
        lemma_units_increase(r2 + 1, r1);
        assert(low <= high);
        assert(2 * num1 >= high * den1);
        assert(2 * num2 <= low * den2);
        assert(high <= low) by (nonlinear_arith)
            requires
                2 * num1 >= high * den1,
                2 * num2 <= low * den2,
                num1 * den2 <= num2 * den1,
                den1 > 0,
                den2 > 0,
        ;
        assert(r1 == r2 + 1) by {
            if r1 - 1 > r2 {
                lemma_units_increase(r2, r1 - 1);
            }
        }
        assert(2 * num1 == high * den1) by (nonlinear_arith)
            requires
                2 * num1 >= high * den1,
                2 * num2 <= low * den2,
                num1 * den2 <= num2 * den1,
                den1 > 0,
                den2 > 0,
                high == low,
        ;
        assert(2 * num2 == low * den2) by (nonlinear_arith)
            requires
                2 * num1 >= high * den1,
                2 * num2 <= low * den2,
                num1 * den2 <= num2 * den1,
                den1 > 0,
                den2 > 0,
                high == low,
        ;
    }
}

/// At most one magnitude is nearest.
pub proof fn lemma_nearest_unique(r: int, num: int, den: int)
    requires
        is_nearest(r, num, den),
        den > 0,
    ensures
        rounded(num, den) == r,
{
    let other = rounded(num, den);
    lemma_nearest_ordered(r, num, den, other, num, den);
    lemma_nearest_ordered(other, num, den, r, num, den);
}

/// The nearest of two neighbours that enclose a value.
proof fn lemma_nearest_of_two(r: int, num: int, den: int)
    requires
        0 <= r < INFINITY,
        den > 0,
        units(r) * den <= num,
        num < units(r + 1) * den,
    ensures
        ({
            let middle = (units(r) + units(r + 1)) * den;
            &&& 2 * num < middle || (2 * num == middle && r % 2 == 0) ==> is_nearest(r, num, den)
            &&& 2 * num > middle || (2 * num == middle && r % 2 != 0) ==> is_nearest(
                r + 1,
                num,
                den,
            )
        }),
{
    let below = units(r);
    let above = units(r + 1);
    lemma_units_step(r + 1);
    assert(2 * num < (above + units(r + 2)) * den) by (nonlinear_arith)
        requires
            num < above * den,
            above < units(r + 2),
            den > 0,
    ;
    if r > 0 {
        lemma_units_step(r - 1);
        assert(2 * num > (units(r - 1) + below) * den) by (nonlinear_arith)
            requires
                num >= below * den,
                units(r - 1) < below,
                den > 0,
        ;
    }
}

/// Every nonnegative ratio has a nearest magnitude.
pub proof fn lemma_nearest_exists(num: int, den: int)
    requires
        num >= 0,
        den > 0,
    ensures
        is_nearest(rounded(num, den), num, den),
{
    assert(units(0) == 0);
    lemma_nearest_exists_from(0, num, den);
}

proof fn lemma_nearest_exists_from(r: int, num: int, den: int)
    requires
        0 <= r <= INFINITY,
        den > 0,
        units(r) * den <= num,
    ensures
        is_nearest(rounded(num, den), num, den),
    decreases INFINITY - r,
{
    if r == INFINITY {
        lemma_units_step(r - 1);
        assert(2 * num > (units(r - 1) + units(r)) * den) by (nonlinear_arith)
            requires
                num >= units(r) * den,
                units(r - 1) < units(r),
                den > 0,
        ;
        assert(is_nearest(r, num, den));
    } else if num < units(r + 1) * den {
        lemma_nearest_of_two(r, num, den);
        assert(is_nearest(r, num, den) || is_nearest(r + 1, num, den));
    } else {
        lemma_nearest_exists_from(r + 1, num, den);
    }
}

/// A value on the grid rounds to itself.
pub proof fn lemma_rounded_exact(r: int, num: int, den: int)
    requires
        0 <= r <= INFINITY,
        den > 0,
        num == units(r) * den,
    ensures
        rounded(num, den) == r,
{
    lemma_units_step(r);
    if r > 0 {
        lemma_units_step(r - 1);
        assert(2 * num > (units(r - 1) + units(r)) * den) by (nonlinear_arith)
            requires
                num == units(r) * den,
                units(r - 1) < units(r),
                den > 0,
        ;
    }
    assert(2 * num < (units(r) + units(r + 1)) * den) by (nonlinear_arith)
        requires
            num == units(r) * den,
            units(r) < units(r + 1),
            den > 0,
    ;
    lemma_nearest_unique(r, num, den);
}

/// Rounding keeps order.
pub proof fn lemma_rounded_ordered(num1: int, den1: int, num2: int, den2: int)
    requires
        num1 >= 0,
        num2 >= 0,
        den1 > 0,
        den2 > 0,
        num1 * den2 <= num2 * den1,
    ensures
        0 <= rounded(num1, den1) <= rounded(num2, den2) <= INFINITY,
{
    lemma_nearest_exists(num1, den1);
    lemma_nearest_exists(num2, den2);
    lemma_nearest_ordered(
        rounded(num1, den1),
        num1,
        den1,
        rounded(num2, den2),
        num2,
        den2,
    );
}

/// The scales that `placed` can speak of start at `-slack()`.
pub open spec fn slack() -> nat {
    1200
}

/// The value `num / den` lies in the step that starts at `significand` times
/// `2^scale`: `half` tells that it is in the upper half of the step, the
/// middle included, and `rest` that it is neither at the start nor in the
/// middle.
pub open spec fn placed(
    significand: int,
    scale: int,
    half: bool,
    rest: bool,
    num: int,
    den: int,
) -> bool {
    let step = pow2((scale + slack()) as nat) * den;
    let offset = num * pow2(slack()) - significand * step;
    &&& 0 <= offset < step
    &&& half <==> 2 * offset >= step
    &&& rest <==> offset != 0 && 2 * offset != step
}

/// Halving the significand moves its lowest bit into the place marks.
proof fn lemma_placed_halved(
    significand: int,
    scale: int,
    half: bool,
    rest: bool,
    num: int,
    den: int,
)
    requires
        placed(significand, scale, half, rest, num, den),
        den > 0,
        scale + slack() >= 0,
    ensures
        placed(
            significand / 2,
            scale + 1,
            significand % 2 == 1,
            half || rest,
            num,
            den,
        ),
{
    let step = pow2((scale + slack()) as nat) * den;
    let wide = pow2((scale + 1 + slack()) as nat) * den;
    let p = pow2((scale + slack()) as nat) as int;
    lemma_pow2_unfold((scale + 1 + slack()) as nat);
    assert((2 * p) * den == 2 * (p * den)) by (nonlinear_arith);
    assert(wide == 2 * step);
    let low = significand / 2;
    let bit = significand % 2;
    assert(significand * step == low * wide + bit * step) by (nonlinear_arith)
        requires
            significand == 2 * low + bit,
            wide == 2 * step,
    ;
    assert(bit == 0 ==> bit * step == 0) by (nonlinear_arith);
    assert(bit == 1 ==> bit * step == step) by (nonlinear_arith);
}

/// Doubling the significand of a value at the start of its step.
proof fn lemma_placed_doubled(significand: int, scale: int, num: int, den: int)
    requires
        placed(significand, scale, false, false, num, den),
        den > 0,
        scale + slack() > 0,
    ensures
        placed(2 * significand, scale - 1, false, false, num, den),
{
    let step = pow2((scale + slack()) as nat) * den;
    let narrow = pow2((scale - 1 + slack()) as nat) * den;
    let p = pow2((scale - 1 + slack()) as nat) as int;
    lemma_pow2_unfold((scale + slack()) as nat);
    lemma_pow2_pos((scale - 1 + slack()) as nat);
    assert((2 * p) * den == 2 * (p * den)) by (nonlinear_arith);
    assert(step == 2 * narrow);
    assert(narrow > 0) by (nonlinear_arith)
        requires
            narrow == p * den,
            p > 0,
            den > 0,
    ;
    assert((2 * significand) * narrow == significand * step) by (nonlinear_arith)
        requires
            step == 2 * narrow,
    ;
}

/// The nearest magnitude of a value placed on the grid.
proof fn lemma_placed_nearest(
    significand: int,
    scale: int,
    half: bool,
    rest: bool,
    num: int,
    den: int,
)
    requires
        placed(significand, scale, half, rest, num, den),
        den > 0,
        0 <= significand < 2 * HIDDEN_BIT,
        0 <= scale < 2046,
        significand >= HIDDEN_BIT || scale == 0,
    ensures
        ({
            let r = scale * HIDDEN_BIT + significand;
            &&& 0 <= r < INFINITY
            &&& half && (rest || r % 2 != 0) ==> is_nearest(r + 1, num, den)
            &&& !(half && (rest || r % 2 != 0)) ==> is_nearest(r, num, den)
        }),
{
    let r = scale * HIDDEN_BIT + significand;
    let grain = pow2(slack()) as int;
    let p = pow2(scale as nat) as int;
    let step = pow2((scale + slack()) as nat) * den;
    let offset = num * grain - significand * step;
    lemma_pow2_pos(slack());
    lemma_pow2_pos(scale as nat);
    lemma_pow2_adds(scale as nat, slack());
    lemma_units_of_parts(significand, scale);
    lemma_units_of_parts(significand + 1, scale);
    assert(step == (p * den) * grain) by (nonlinear_arith)
        requires
            step == (p * grain) * den,
    ;
    let piece = p * den;
    assert(units(r) * den == significand * piece) by (nonlinear_arith)
        requires
            units(r) == significand * p,
            piece == p * den,
    ;
    assert(units(r + 1) * den == significand * piece + piece) by (nonlinear_arith)
        requires
            units(r + 1) == (significand + 1) * p,
            piece == p * den,
    ;
    assert(offset == (num - significand * piece) * grain) by (nonlinear_arith)
        requires
            offset == num * grain - significand * step,
            step == piece * grain,
    ;
    let over = num - significand * piece;
    assert(0 <= over < piece && (2 * over >= piece <==> 2 * offset >= step) && (2 * over == piece
        <==> 2 * offset == step)) by (nonlinear_arith)
        requires
            offset == over * grain,
            step == piece * grain,
            0 <= offset < step,
            grain > 0,
    ;
    assert((units(r) + units(r + 1)) * den == 2 * (significand * piece) + piece) by (nonlinear_arith)
        requires
            units(r) * den == significand * piece,
            units(r + 1) * den == significand * piece + piece,
    ;
    lemma_nearest_of_two(r, num, den);
}

/// A value beyond the grid rounds to infinity.
proof fn lemma_placed_overflow(
    significand: int,
    scale: int,
    half: bool,
    rest: bool,
    num: int,
    den: int,
)
    requires
        placed(significand, scale, half, rest, num, den),
        den > 0,
        significand >= HIDDEN_BIT,
        scale >= 2046,
    ensures
        is_nearest(INFINITY as int, num, den),
{
    let grain = pow2(slack()) as int;
    let p = pow2(scale as nat) as int;
    let step = pow2((scale + slack()) as nat) * den;
    lemma_pow2_pos(slack());
    lemma_pow2_pos(scale as nat);
    lemma_pow2_adds(scale as nat, slack());
    lemma_units_of_parts(HIDDEN_BIT as int, 2046);
    let top = units(INFINITY as int);
    assert(2046 * HIDDEN_BIT + HIDDEN_BIT == INFINITY);
    let q = pow2(2046) as int;
    if scale > 2046 {
        lemma_pow2_strictly_increases(2046, scale as nat);
    }
    assert(num >= top * den) by (nonlinear_arith)
        requires
            num * grain >= significand * step,
            step == (p * grain) * den,
            significand >= HIDDEN_BIT as int,
            top == HIDDEN_BIT as int * q,
            p >= q,
            q >= 0,
            grain > 0,
            den > 0,
    ;
    lemma_units_step(INFINITY - 1);
    assert(2 * num > (units(INFINITY - 1) + top) * den) by (nonlinear_arith)
        requires
            num >= top * den,
            units(INFINITY - 1) < top,
            den > 0,
    ;
}

/// Rounds a placed value to the nearest magnitude, ties to even.
pub(crate) fn round_placed(
    significand: u128,
    scale: i32,
    half: bool,
    rest: bool,
    Ghost(num): Ghost<int>,
    Ghost(den): Ghost<int>,
) -> (r: u64)
    requires
        den > 0,
        -1200 <= scale <= 6000,
        placed(significand as int, scale as int, half, rest, num, den),
        half || rest ==> significand >= HIDDEN_BIT,
    ensures
        is_nearest(r as int, num, den),
        r == rounded(num, den),
{
    let mut sig: u128 = significand;
    let mut at: i32 = scale;
    let mut upper: bool = half;
    let mut inner: bool = rest;
    while sig >= 0x20_0000_0000_0000 && at < 2046 || at < 0
        invariant
            den > 0,
            -1200 <= at <= 6000,
            placed(sig as int, at as int, upper, inner, num, den),
            upper || inner ==> sig >= HIDDEN_BIT || at <= 0,
        decreases (if at < 0 {
            -at as int
        } else {
            0
        }), sig,
    {
        proof {
            lemma_placed_halved(sig as int, at as int, upper, inner, num, den);
        }
        let bit: bool = sig % 2 == 1;
        inner = upper || inner;
        upper = bit;
        sig = sig / 2;
        at = at + 1;
    }
    while sig < 0x10_0000_0000_0000 && at > 0
        invariant
            den > 0,
            0 <= at <= 6000,
            placed(sig as int, at as int, upper, inner, num, den),
            upper || inner ==> sig >= HIDDEN_BIT || at <= 0,
            sig >= 0x20_0000_0000_0000 ==> at >= 2046,
        decreases at,
    {
        proof {
            lemma_placed_doubled(sig as int, at as int, num, den);
        }
        sig = sig * 2;
        at = at - 1;
    }
    let r: u64 = if at >= 2046 {
        proof {
            lemma_placed_overflow(sig as int, at as int, upper, inner, num, den);
        }
        INFINITY
    } else {
        proof {
            lemma_placed_nearest(sig as int, at as int, upper, inner, num, den);
        }
        let floor: u64 = at as u64 * HIDDEN_BIT + sig as u64;
        if upper && (inner || floor % 2 != 0) {
            floor + 1
        } else {
            floor
        }
    };
    proof {
        lemma_nearest_unique(r as int, num, den);
    }
    r
}

} // verus!
