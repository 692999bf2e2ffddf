//! The arithmetic agrees bit for bit with the machine's binary64.

use speck_server::double::{encoded, Double};

fn d(x: f64) -> Double {
    encoded(x.to_bits())
}

fn agrees(r: Double, x: f64) -> bool {
    r.bits == x.to_bits() || (r.is_nan() && x.is_nan())
}

/// A generator of test inputs.
struct Lcg(u64);

impl Lcg {
    fn word(&mut self) -> u64 {
        self.0 = self.0.wrapping_mul(6364136223846793005).wrapping_add(1442695040888963407);
        let x = self.0;
        (x ^ (x >> 29)).wrapping_mul(0x9E37_79B9_7F4A_7C15) ^ (x >> 32)
    }

    fn number(&mut self) -> f64 {
        let w = self.word();
        match self.word() % 6 {
            0 => f64::from_bits(w),
            1 => f64::from_bits(w & 0x800F_FFFF_FFFF_FFFF),
            2 => f64::from_bits((w & 0x801F_FFFF_FFFF_FFFF) + 0x3FE0_0000_0000_0000),
            3 => ((w % 4_000_000) as f64 - 2_000_000.0) / 1000.0,
            4 => f64::from_bits((w & 0x80FF_FFFF_FFFF_FFFF) + 0x3F80_0000_0000_0000),
            _ => {
                let edges = [
                    0.0,
                    -0.0,
                    1.0,
                    -1.0,
                    f64::INFINITY,
                    f64::NEG_INFINITY,
                    f64::NAN,
                    f64::MAX,
                    f64::MIN,
                    f64::MIN_POSITIVE,
                    5e-324,
                    -5e-324,
                    0.5,
                    1.5,
                    9007199254740991.0,
                    9007199254740992.0,
                ];
                edges[(w % 16) as usize]
            }
        }
    }
}

#[test]
fn sums_agree() {
    let mut g = Lcg(1);
    for _ in 0..300_000 {
        let (x, y) = (g.number(), g.number());
        assert!(agrees(d(x).plus(d(y)), x + y), "{x:e} + {y:e}");
        assert!(agrees(d(x).minus(d(y)), x - y), "{x:e} - {y:e}");
    }
}

#[test]
fn products_agree() {
    let mut g = Lcg(2);
    for _ in 0..300_000 {
        let (x, y) = (g.number(), g.number());
        assert!(agrees(d(x).times(d(y)), x * y), "{x:e} * {y:e}");
    }
}

#[test]
fn quotients_agree() {
    let mut g = Lcg(3);
    for _ in 0..300_000 {
        let (x, y) = (g.number(), g.number());
        assert!(agrees(d(x).over(d(y)), x / y), "{x:e} / {y:e}");
    }
}

#[test]
fn roots_agree() {
    let mut g = Lcg(4);
    for _ in 0..200_000 {
        let x = g.number();
        assert!(agrees(d(x).root(), x.sqrt()), "sqrt {x:e}");
    }
}

#[test]
fn comparisons_agree() {
    let mut g = Lcg(5);
    for _ in 0..200_000 {
        let (x, y) = (g.number(), g.number());
        assert_eq!(d(x).lt(d(y)), x < y);
        assert_eq!(d(x).le(d(y)), x <= y);
        assert_eq!(d(x).gt(d(y)), x > y);
        assert_eq!(d(x).ge(d(y)), x >= y);
        assert_eq!(d(x).equals(d(y)), x == y);
        assert_eq!(d(x).is_nan(), x.is_nan());
        assert_eq!(d(x).is_finite(), x.is_finite());
        if x != y {
            assert!(agrees(d(x).max(d(y)), x.max(y)), "max {x:e} {y:e}");
        }
    }
}

#[test]
fn integers_convert() {
    let mut g = Lcg(6);
    for _ in 0..100_000 {
        let n = g.word() >> (g.word() % 64);
        assert!(agrees(Double::from_u64(n), n as f64));
    }
}

#[test]
fn arguments_can_be_swapped() {
    let mut g = Lcg(11);
    for _ in 0..20000 {
        let (a, b) = (d(g.number()), d(g.number()));
        assert_eq!(a.plus(b).bits, b.plus(a).bits);
        assert_eq!(a.times(b).bits, b.times(a).bits);
    }
}

#[test]
fn small_factors_shrink() {
    let mut g = Lcg(12);
    for _ in 0..20000 {
        let x = g.number();
        let factor = (g.word() >> 11) as f64 / (1u64 << 53) as f64;
        if x.is_finite() {
            let product = f64::from_bits(d(x).times(d(factor)).bits);
            assert!(product.abs() <= x.abs());
            if x != 0.0 {
                let part = f64::from_bits(d(x * 0.5).over(d(x)).bits);
                assert!(part.abs() <= 1.0);
            }
        }
    }
    assert_eq!(d(3.0).over(d(3.0)).bits, d(1.0).bits);
}

#[test]
fn adding_keeps_order() {
    let mut g = Lcg(13);
    for _ in 0..20000 {
        let (a, b, c) = (g.number(), g.number(), g.number());
        if a.is_finite() && b.is_finite() && c.is_finite() && a <= b {
            assert!(d(a).plus(d(c)).le(d(b).plus(d(c))));
        }
    }
}

#[test]
fn computed_results_are_near() {
    // One third and the root of two are off by less than a millionth part.
    let third = f64::from_bits(d(1.0).over(d(3.0)).bits);
    assert!((third * 3.0 - 1.0).abs() < 1e-6);
    let root = f64::from_bits(d(2.0).root().bits);
    assert!((root * root - 2.0).abs() < 1e-6);
    assert_eq!(root, 1.4142135623730951);
}
