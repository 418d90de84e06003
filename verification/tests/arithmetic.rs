//! The arithmetic against the machine's own.
use flashpoint::double::Double;

fn d(x: f64) -> Double {
    Double::from_bits(x.to_bits())
}

fn f(x: Double) -> f64 {
    f64::from_bits(x.bits)
}

/// Equal bits, except that every NaN equals every other.
fn same(a: f64, b: f64) -> bool {
    if a.is_nan() || b.is_nan() {
        a.is_nan() && b.is_nan()
    } else {
        a.to_bits() == b.to_bits()
    }
}

fn next(seed: &mut u64) -> u64 {
    *seed ^= *seed << 13;
    *seed ^= *seed >> 7;
    *seed ^= *seed << 17;
    *seed
}

fn corners() -> Vec<f64> {
    let mut all = vec![
        0.0,
        1.0,
        1.5,
        2.0,
        3.0,
        0.1,
        0.5,
        0.49999999999999994,
        2.5,
        100.0,
        1.0 / 3.0,
        4503599627370495.5,
        4503599627370496.0,
        9007199254740991.0,
        9007199254740992.0,
        f64::MIN_POSITIVE,
        f64::MIN_POSITIVE / 2.0,
        5e-324,
        1.7976931348623157e308,
        8.98846567431158e307,
        f64::INFINITY,
        f64::NAN,
    ];
    let negated: Vec<f64> = all.iter().map(|x| -*x).collect();
    all.extend(negated);
    all
}

fn check_pair(x: f64, y: f64) {
    assert!(same(f(d(x).plus(d(y))), x + y), "{x:e} + {y:e}");
    assert!(same(f(d(x).minus(d(y))), x - y), "{x:e} - {y:e}");
    assert!(same(f(d(x).times(d(y))), x * y), "{x:e} * {y:e}");
    assert!(same(f(d(x).divided_by(d(y))), x / y), "{x:e} / {y:e}");
    assert_eq!(d(x).is_below(d(y)), x < y, "{x:e} < {y:e}");
    assert_eq!(d(x).is_at_most(d(y)), x <= y, "{x:e} <= {y:e}");
}

fn check_one(x: f64) {
    assert!(same(f(d(x).round()), x.round()), "round {x:e}");
    assert!(same(f(d(x).negate()), -x), "-{x:e}");
    assert_eq!(d(x).is_nan(), x.is_nan());
    let gain: f64 = if x > 0.0 { x } else { 0.0 };
    assert!(same(f(d(x).clamp()), gain), "clamp {x:e}");
}

#[test]
fn corner_values_agree_with_the_machine() {
    for x in corners() {
        check_one(x);
        for y in corners() {
            check_pair(x, y);
        }
    }
}

#[test]
fn any_bits_agree_with_the_machine() {
    let mut seed: u64 = 0x9e37_79b9_7f4a_7c15;
    for _ in 0..60_000 {
        let x = f64::from_bits(next(&mut seed));
        let y = f64::from_bits(next(&mut seed));
        check_one(x);
        check_pair(x, y);
    }
}

#[test]
fn near_values_agree_with_the_machine() {
    // Exponents that lie close together exercise cancellation and ties.
    let mut seed: u64 = 0x1234_5678_9abc_def1;
    for _ in 0..60_000 {
        let a = next(&mut seed);
        let b = next(&mut seed);
        let exponent = 1023 + (next(&mut seed) % 120) - 60;
        let shift = next(&mut seed) % 8;
        let x = f64::from_bits((a & 0x800f_ffff_ffff_ffff) | (exponent << 52));
        let y = f64::from_bits((b & 0x800f_ffff_ffff_ffff) | ((exponent + shift) << 52));
        check_one(x);
        check_pair(x, y);
        check_pair(y, x);
    }
}

#[test]
fn short_fractions_agree_with_the_machine() {
    // Few significant bits make exact halves frequent.
    let mut seed: u64 = 0x0f0f_1e1e_2d2d_3c3c;
    for _ in 0..60_000 {
        let x = (next(&mut seed) % 4096) as f64 / 8.0 * if next(&mut seed) % 2 == 0 { 1.0 } else { -1.0 };
        let y = (next(&mut seed) % 4096) as f64 / 16.0;
        check_one(x);
        check_pair(x, y);
    }
}

#[test]
fn tiny_values_agree_with_the_machine() {
    let mut seed: u64 = 0xfeed_beef_dead_cafe;
    for _ in 0..60_000 {
        let x = f64::from_bits(next(&mut seed) & 0x803f_ffff_ffff_ffff);
        let y = f64::from_bits(next(&mut seed) & 0x803f_ffff_ffff_ffff);
        check_one(x);
        check_pair(x, y);
        check_pair(x, 1.5);
        check_pair(x, 3e-160);
    }
}

#[test]
fn sums_of_amounts_do_not_fall() {
    let a = d(0.1);
    let b = d(0.2);
    let s = a.plus(b);
    assert_eq!(f(s), 0.30000000000000004);
    assert!(a.is_at_most(s) && b.is_at_most(s));
}

#[test]
fn order_is_that_of_values_and_nan_has_none() {
    assert!(d(-1.0).is_below(d(0.0)));
    assert!(!d(-0.0).is_below(d(0.0)));
    assert!(d(-0.0).is_at_most(d(0.0)));
    assert!(!d(f64::NAN).is_at_most(d(f64::NAN)));
    assert!(d(-2.0).order_rank() < d(-1.0).order_rank());
    assert_eq!(d(-0.0).order_rank(), d(0.0).order_rank());
}
