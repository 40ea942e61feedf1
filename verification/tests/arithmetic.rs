use amitex_gui::double::Double;
use amitex_gui::formula::{number, signed_number};
use amitex_gui::single::Single;

fn d(x: f64) -> Double {
    Double { bits: x.to_bits() }
}

fn f(x: Double) -> f64 {
    f64::from_bits(x.bits)
}

fn same_bits(a: Double, b: f64) -> bool {
    if b.is_nan() {
        f(a).is_nan()
    } else {
        a.bits == b.to_bits()
    }
}

fn next(state: &mut u64) -> u64 {
    *state = state.wrapping_mul(6364136223846793005).wrapping_add(1442695040888963407);
    let x = *state;
    (x ^ (x >> 29)).wrapping_mul(0x9e37_79b9_7f4a_7c15) ^ (x >> 7)
}

/// Patterns of all kinds: any bits, near ones, short ones, subnormal ones and special ones.
fn sample(state: &mut u64) -> f64 {
    let special = [
        0.0,
        -0.0,
        1.0,
        -1.0,
        0.5,
        2.0,
        3.0,
        f64::INFINITY,
        f64::NEG_INFINITY,
        f64::NAN,
        f64::MIN_POSITIVE,
        f64::MAX,
        f64::MIN,
        5e-324,
        -5e-324,
        1e16,
        0.1,
    ];
    let r = next(state);
    match r % 6 {
        0 => f64::from_bits(next(state)),
        1 => special[(next(state) % special.len() as u64) as usize],
        2 => {
            let e = 1000 + next(state) % 46;
            f64::from_bits((next(state) & 0x800f_ffff_ffff_ffff) | (e << 52))
        }
        3 => (next(state) % 2000) as f64 - 1000.0,
        4 => f64::from_bits(next(state) & 0x800f_ffff_ffff_ffff),
        _ => f64::from_bits((next(state) & 0x800f_ffff_0000_0000) | ((900 + next(state) % 300) << 52)),
    }
}

#[test]
fn sums_are_those_of_the_machine() {
    let mut state = 1;
    for _ in 0..20000 {
        let (a, b) = (sample(&mut state), sample(&mut state));
        assert!(same_bits(d(a).plus(d(b)), a + b), "{a:e} + {b:e}");
        assert!(same_bits(d(a).minus(d(b)), a - b), "{a:e} - {b:e}");
    }
}

#[test]
fn products_are_those_of_the_machine() {
    let mut state = 2;
    for _ in 0..20000 {
        let (a, b) = (sample(&mut state), sample(&mut state));
        assert!(same_bits(d(a).times(d(b)), a * b), "{a:e} * {b:e}");
    }
}

#[test]
fn quotients_are_those_of_the_machine() {
    let mut state = 3;
    for _ in 0..20000 {
        let (a, b) = (sample(&mut state), sample(&mut state));
        assert!(same_bits(d(a).divided_by(d(b)), a / b), "{a:e} / {b:e}");
    }
}

#[test]
fn roots_are_those_of_the_machine() {
    let mut state = 4;
    for _ in 0..20000 {
        let a = sample(&mut state);
        assert!(same_bits(d(a).square_root(), a.sqrt()), "sqrt {a:e}");
    }
    assert_eq!(f(d(2.0).square_root()), std::f64::consts::SQRT_2);
    assert_eq!(d(-0.0).square_root().bits, (-0.0f64).to_bits());
}

#[test]
fn comparisons_are_those_of_the_machine() {
    let mut state = 5;
    for _ in 0..20000 {
        let (a, b) = (sample(&mut state), sample(&mut state));
        assert_eq!(d(a).below(d(b)), a < b);
        assert_eq!(d(a).same(d(b)), a == b);
        assert_eq!(d(a).nan(), a.is_nan());
        assert_eq!(d(a).is_integer(), a.is_finite() && a.fract() == 0.0);
        assert_eq!(d(a).absolute().bits, a.abs().to_bits());
    }
    assert!(d(0.0).same(d(-0.0)));
    assert!(!d(f64::NAN).same(d(f64::NAN)));
}

#[test]
fn conversions_to_integers_saturate() {
    let mut state = 6;
    for _ in 0..20000 {
        let a = sample(&mut state);
        assert_eq!(d(a).to_unsigned(u8::MAX as u64), a as u8 as u64);
        assert_eq!(d(a).to_unsigned(u64::MAX), a as u64);
        assert_eq!(d(a).to_signed(i16::MAX as i64), a as i16 as i64);
        assert_eq!(d(a).to_signed(i64::MAX), a as i64);
    }
    assert_eq!(d(300.7).to_unsigned(255), 255);
    assert_eq!(d(-3.9).to_signed(127), -3);
    assert_eq!(d(f64::NAN).to_unsigned(255), 0);
}

#[test]
fn conversions_from_integers_round() {
    let mut state = 7;
    for _ in 0..20000 {
        let n = next(&mut state) >> (next(&mut state) % 64);
        assert_eq!(number(n).bits, (n as f64).to_bits());
        let k = next(&mut state) as i64 >> (next(&mut state) % 64);
        assert_eq!(signed_number(k).bits, (k as f64).to_bits());
    }
    assert_eq!(signed_number(i64::MIN).bits, (i64::MIN as f64).to_bits());
    assert_eq!(number(u64::MAX).bits, (u64::MAX as f64).to_bits());
}

#[test]
fn narrowing_and_widening_are_those_of_the_machine() {
    let mut state = 8;
    for _ in 0..20000 {
        let a = sample(&mut state);
        let n = d(a).narrow();
        if a.is_nan() {
            assert!(f32::from_bits(n.bits).is_nan());
        } else {
            assert_eq!(n.bits, (a as f32).to_bits(), "{a:e}");
        }
        let s = next(&mut state) as u32;
        let x = f32::from_bits(s);
        let w = Single { bits: s }.widen();
        if x.is_nan() {
            assert!(f(w).is_nan());
        } else {
            assert_eq!(w.bits, (x as f64).to_bits());
            // What is widened and narrowed again is the same number.
            assert_eq!(w.narrow().bits, s);
        }
    }
}

#[test]
fn single_arithmetic_is_that_of_the_machine() {
    fn check(r: Single, x: f32) {
        if x.is_nan() {
            assert!(f32::from_bits(r.bits).is_nan());
        } else {
            assert_eq!(r.bits, x.to_bits());
        }
    }
    let mut state = 9;
    for _ in 0..20000 {
        let mut one = |state: &mut u64| {
            let r = next(state);
            if r % 2 == 0 {
                f32::from_bits(next(state) as u32)
            } else {
                sample(state) as f32
            }
        };
        let (a, b) = (one(&mut state), one(&mut state));
        let (s, t) = (Single { bits: a.to_bits() }, Single { bits: b.to_bits() });
        check(s.plus(t), a + b);
        check(s.minus(t), a - b);
        check(s.times(t), a * b);
        check(s.divided_by(t), a / b);
        check(s.square_root(), a.sqrt());
        check(s.negate(), -a);
        check(s.remainder(t), a % b);
        check(s.rem_euclid(t), a.rem_euclid(b));
    }
}

#[test]
fn results_are_off_by_a_rounding() {
    let part = 2f64.powi(-52);
    // The exact results are 1 + 2^-53, 1 - 2^-54, (1 + 2^-52)^2 and 1/3.
    assert_eq!(f(d(1.0).plus(d(2f64.powi(-53)))), 1.0);
    assert_eq!(f(d(1.0).minus(d(2f64.powi(-54)))), 1.0);
    assert_eq!(f(d(1.0 + part).times(d(1.0 + part))), 1.0 + 2.0 * part);
    assert_eq!(d(1.0).divided_by(d(3.0)).bits, 0x3fd5_5555_5555_5555);
    // Zeros of either sign change nothing.
    assert_eq!(d(0.0).times(d(-7.5)).bits, d(-0.0).bits);
    assert_eq!(d(-0.0).divided_by(d(3.0)).bits, d(-0.0).bits);
    assert_eq!(d(2.5).minus(d(-0.0)).bits, d(2.5).bits);
}

#[test]
fn counts_are_rounded_once() {
    // Rounding to the wider format first would give 2^60.
    let n = (1usize << 60) + (1 << 36) + 1;
    assert_eq!(f32::from_bits(Single::of_count(n).bits), 2f32.powi(60) + 2f32.powi(37));
    let mut state = 21;
    for shift in 0..64 {
        for _ in 0..200 {
            let n = (next(&mut state) >> shift) as usize;
            assert_eq!(Single::of_count(n).bits, (n as f32).to_bits(), "{n}");
        }
    }
    for n in [0, 1, 2, 3, (1 << 24) + 1, (1 << 24) + 3, usize::MAX, usize::MAX - (1 << 39)] {
        assert_eq!(Single::of_count(n).bits, (n as f32).to_bits(), "{n}");
    }
}
