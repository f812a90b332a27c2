//! Arithmetic on the bits of doubles, next to that of the machine.

use flow_ir::float::{difference, floor, negated, of_i64, of_u64, product, quotient, rank, sum};
use flow_ir::text::Rank;
use flow_ir::Float;

/// Doubles of all sizes: special ones, and ones with random bits.
fn samples() -> Vec<f64> {
    let mut r: Vec<f64> = vec![
        0.0,
        -0.0,
        1.0,
        -1.0,
        0.5,
        1.5,
        2.0,
        3.0,
        10.0,
        0.1,
        1e308,
        -1e308,
        f64::MAX,
        f64::MIN,
        f64::MIN_POSITIVE,
        -f64::MIN_POSITIVE,
        f64::from_bits(1),
        f64::from_bits(0x8000_0000_0000_0001),
        f64::from_bits(0x000f_ffff_ffff_ffff),
        9007199254740992.0,
        9007199254740993.0,
        4503599627370497.5,
        1e-308,
        1e-320,
    ];
    let mut state: u64 = 0x9e37_79b9_7f4a_7c15;
    while r.len() < 260 {
        state = state.wrapping_mul(6364136223846793005).wrapping_add(1442695040888963407);
        let mut bits = state ^ (state >> 29);
        if r.len() % 2 == 0 {
            let near = 1023 + (bits >> 58);
            bits = (bits & 0x800f_ffff_ffff_ffff) | (near << 52);
        }
        let x = f64::from_bits(bits);
        if x.is_finite() {
            r.push(x);
        }
    }
    r
}

#[test]
fn operations_agree_with_the_machine() {
    for a in samples() {
        assert_eq!(floor(a.to_bits()), a.floor().to_bits(), "floor {a:e}");
        assert_eq!(negated(a.to_bits()), (-a).to_bits(), "neg {a:e}");
        for b in samples() {
            let (x, y) = (a.to_bits(), b.to_bits());
            assert_eq!(sum(x, y), (a + b).to_bits(), "{a:e} + {b:e}");
            assert_eq!(difference(x, y), (a - b).to_bits(), "{a:e} - {b:e}");
            assert_eq!(product(x, y), (a * b).to_bits(), "{a:e} * {b:e}");
            if b != 0.0 {
                assert_eq!(quotient(x, y), (a / b).to_bits(), "{a:e} / {b:e}");
            }
            let order = if a < b {
                Rank::Less
            } else if a == b {
                Rank::Equal
            } else {
                Rank::Greater
            };
            assert_eq!(rank(x, y), order, "{a:e} {b:e}");
        }
    }
}

#[test]
fn infinities_pass_through() {
    let inf = f64::INFINITY.to_bits();
    assert_eq!(sum(inf, 1.0f64.to_bits()), inf);
    assert_eq!(difference(1.0f64.to_bits(), inf), f64::NEG_INFINITY.to_bits());
    assert_eq!(product(inf, (-2.0f64).to_bits()), f64::NEG_INFINITY.to_bits());
    assert_eq!(floor(inf), inf);
}

#[test]
fn integers_round_to_the_nearest_double() {
    for i in [
        0,
        1,
        5,
        u64::MAX,
        u64::MAX - 1023,
        u64::MAX - 1024,
        1 << 53,
        (1 << 53) + 1,
        (1 << 53) + 3,
        (1 << 54) + 2,
        (1 << 54) + 6,
        12345678901234567890,
    ] {
        let i: u64 = i;
        assert_eq!(of_u64(i), (i as f64).to_bits(), "{i}");
        let j = i as i64;
        assert_eq!(of_i64(j), (j as f64).to_bits(), "{j}");
    }
    assert_eq!(of_i64(i64::MIN), (i64::MIN as f64).to_bits());
}

#[test]
fn floats_are_finite_and_zeros_are_equal() {
    assert!(Float::from_bits(f64::NAN.to_bits()).is_none());
    assert!(Float::from_bits(f64::NEG_INFINITY.to_bits()).is_none());
    let zero = Float::from_bits(0.0f64.to_bits()).unwrap();
    let minus = Float::from_bits((-0.0f64).to_bits()).unwrap();
    assert!(zero == minus);
    assert!(zero.bits() != minus.bits());
    assert!(Float::from_bits(1).unwrap() != zero);
}

#[test]
fn small_integers_and_their_sums_are_exact() {
    for a in [-9007199254740992i64, -3, 0, 7, 9007199254740991] {
        for b in [-9007199254740992i64, -1, 0, 2, 9007199254740991] {
            if (a + b).abs() <= 9007199254740992 {
                let s = f64::from_bits(sum(of_i64(a), of_i64(b)));
                assert_eq!(s as i64, a + b);
            }
        }
    }
}
