//! IEEE-754 binary64 numbers computed with integers.
//!
//! A [`Double`] holds the 64-bit encoding of a number. Every operation is carried out on
//! integers and rounds to nearest, ties to even, so a simulation that is built on it gives the
//! same bits on every machine.

use crate::rounding::{
    bit_length, floor_root, integer_root, lemma_bit_length, lemma_bit_length_is, lemma_cut,
    lemma_nearest_bound, lemma_nearest_ordered, lemma_one_shl, lemma_pow2_values,
    lemma_quotient_cut, lemma_rescale, lemma_root_cut, lemma_unit_above, nearest, normalise,
    round_to_nearest, rounded, unit_exponent, HIDDEN, INFINITE,
};
use vstd::arithmetic::div_mod::*;
use vstd::arithmetic::mul::*;
use vstd::arithmetic::power2::*;
use vstd::prelude::*;

verus! {

/// The sign bit.
pub const SIGN: u64 = 0x8000_0000_0000_0000;

/// The encoding that every operation without a numeric result returns.
pub const NAN: u64 = 0x7FF8_0000_0000_0000;

/// The encoding of one.
pub const UNIT: u64 = 0x3FF0_0000_0000_0000;

/// A binary64 number, held as its encoding.
#[derive(Clone, Copy, Debug)]
pub struct Double {
    pub bits: u64,
}

/// The number with the given encoding.
#[verifier::allow_in_spec]
pub fn encoded(bits: u64) -> Double
    returns
        (Double { bits }),
{
    Double { bits }
}

/// The number with the given sign and magnitude.
pub open spec fn compose(negative: bool, magnitude: int) -> Double {
    Double {
        bits: if negative {
            (magnitude + SIGN) as u64
        } else {
            magnitude as u64
        },
    }
}

impl Double {
    /// Whether the sign bit is set.
    pub open spec fn negative(self) -> bool {
        self.bits >= SIGN
    }

    /// The encoding without its sign bit. Magnitudes of numbers are ordered as their encodings.
    pub open spec fn magnitude(self) -> int {
        if self.negative() {
            self.bits - SIGN
        } else {
            self.bits as int
        }
    }

    pub open spec fn nan(self) -> bool {
        self.magnitude() > INFINITE
    }

    pub open spec fn infinite(self) -> bool {
        self.magnitude() == INFINITE
    }

    pub open spec fn finite(self) -> bool {
        self.magnitude() < INFINITE
    }

    pub open spec fn zero(self) -> bool {
        self.magnitude() == 0
    }

    /// A finite number is `significand * 2^exponent`, up to its sign.
    pub open spec fn significand(self) -> nat {
        let field = self.magnitude() / HIDDEN as int;
        let fraction = self.magnitude() % HIDDEN as int;
        if field == 0 {
            fraction as nat
        } else {
            (fraction + HIDDEN) as nat
        }
    }

    /// See [`Double::significand`].
    pub open spec fn exponent(self) -> int {
        let field = self.magnitude() / HIDDEN as int;
        if field == 0 {
            -1074
        } else {
            field - 1075
        }
    }

    /// The significand with the sign of the number.
    pub open spec fn signed(self) -> int {
        if self.negative() {
            -(self.significand() as int)
        } else {
            self.significand() as int
        }
    }

    /// An integer that orders numbers by value; both zeros have the same rank.
    pub open spec fn rank(self) -> int {
        if self.negative() {
            -self.magnitude()
        } else {
            self.magnitude()
        }
    }

    /// `self < other`; false when either is not a number.
    pub open spec fn less(self, other: Double) -> bool {
        !self.nan() && !other.nan() && self.rank() < other.rank()
    }

    /// `self <= other`; false when either is not a number.
    pub open spec fn at_most(self, other: Double) -> bool {
        !self.nan() && !other.nan() && self.rank() <= other.rank()
    }

    /// `self > other`; false when either is not a number.
    pub open spec fn greater(self, other: Double) -> bool {
        other.less(self)
    }

    /// `self >= other`; false when either is not a number.
    pub open spec fn at_least(self, other: Double) -> bool {
        other.at_most(self)
    }

    /// `self == other`; false when either is not a number, true for two zeros.
    pub open spec fn same(self, other: Double) -> bool {
        !self.nan() && !other.nan() && self.rank() == other.rank()
    }

    pub open spec fn negate_spec(self) -> Double {
        compose(!self.negative(), self.magnitude())
    }

    /// The exact sum of two finite numbers, in units of `2^sum_exponent`.
    pub open spec fn exact_sum(self, other: Double) -> int {
        let e = self.sum_exponent(other);
        self.signed() * pow2((self.exponent() - e) as nat) + other.signed() * pow2(
            (other.exponent() - e) as nat,
        )
    }

    pub open spec fn sum_exponent(self, other: Double) -> int {
        if self.exponent() <= other.exponent() {
            self.exponent()
        } else {
            other.exponent()
        }
    }

    #[verifier::opaque]
    pub open spec fn plus_spec(self, other: Double) -> Double {
        if self.nan() || other.nan() {
            encoded(NAN)
        } else if self.infinite() && other.infinite() {
            if self.negative() == other.negative() {
                self
            } else {
                encoded(NAN)
            }
        } else if self.infinite() {
            self
        } else if other.infinite() {
            other
        } else {
            let n = self.exact_sum(other);
            let e = self.sum_exponent(other);
            if n == 0 {
                compose(self.negative() && other.negative(), 0)
            } else if n < 0 {
                compose(true, nearest((-n) as nat, e, false))
            } else {
                compose(false, nearest(n as nat, e, false))
            }
        }
    }

    pub open spec fn minus_spec(self, other: Double) -> Double {
        self.plus_spec(other.negate_spec())
    }

    #[verifier::opaque]
    pub open spec fn times_spec(self, other: Double) -> Double {
        let negative = self.negative() != other.negative();
        if self.nan() || other.nan() {
            encoded(NAN)
        } else if self.infinite() || other.infinite() {
            if self.zero() || other.zero() {
                encoded(NAN)
            } else {
                compose(negative, INFINITE as int)
            }
        } else {
            compose(
                negative,
                nearest(
                    self.significand() * other.significand(),
                    self.exponent() + other.exponent(),
                    false,
                ),
            )
        }
    }

    #[verifier::opaque]
    pub open spec fn over_spec(self, other: Double) -> Double {
        let negative = self.negative() != other.negative();
        if self.nan() || other.nan() {
            encoded(NAN)
        } else if self.infinite() {
            if other.infinite() {
                encoded(NAN)
            } else {
                compose(negative, INFINITE as int)
            }
        } else if other.infinite() {
            compose(negative, 0)
        } else if other.zero() {
            if self.zero() {
                encoded(NAN)
            } else {
                compose(negative, INFINITE as int)
            }
        } else {
            let scaled = self.significand() * pow2(128);
            compose(
                negative,
                nearest(
                    scaled / other.significand(),
                    self.exponent() - other.exponent() - 128,
                    scaled % other.significand() != 0,
                ),
            )
        }
    }

    #[verifier::opaque]
    pub open spec fn root_spec(self) -> Double {
        if self.nan() {
            encoded(NAN)
        } else if self.zero() {
            self
        } else if self.negative() {
            encoded(NAN)
        } else if self.infinite() {
            self
        } else {
            let shift: int = if self.exponent() % 2 == 0 {
                128
            } else {
                129
            };
            let scaled = self.significand() * pow2(shift as nat);
            let root = floor_root(scaled);
            compose(
                false,
                nearest(root, (self.exponent() - shift) / 2, root * root != scaled),
            )
        }
    }

    /// The larger number; a number where only one of the two is.
    pub open spec fn max_spec(self, other: Double) -> Double {
        if self.nan() || self.less(other) {
            other
        } else {
            self
        }
    }

    /// Whether the sign bit is set.
    pub fn is_negative(self) -> (r: bool)
        ensures
            r == self.negative(),
    {
        self.bits >= SIGN
    }

    fn unsigned(self) -> (r: u64)
        ensures
            r == self.magnitude(),
            r < SIGN,
    {
        if self.bits >= SIGN {
            self.bits - SIGN
        } else {
            self.bits
        }
    }

    /// Whether this encodes no number.
    #[verifier::when_used_as_spec(nan)]
    pub fn is_nan(self) -> (r: bool)
        ensures
            r == self.nan(),
    {
        self.unsigned() > INFINITE
    }

    /// Whether this is a number other than an infinity.
    #[verifier::when_used_as_spec(finite)]
    pub fn is_finite(self) -> (r: bool)
        ensures
            r == self.finite(),
    {
        self.unsigned() < INFINITE
    }

    fn is_infinite(self) -> (r: bool)
        ensures
            r == self.infinite(),
    {
        self.unsigned() == INFINITE
    }

    fn is_zero(self) -> (r: bool)
        ensures
            r == self.zero(),
    {
        self.unsigned() == 0
    }

    /// Significand and exponent of a finite number.
    fn parts(self) -> (r: (u64, i32))
        requires
            self.finite(),
        ensures
            r.0 == self.significand(),
            r.1 == self.exponent(),
            r.0 < 2 * HIDDEN,
            -1074 <= r.1 <= 971,
            r.1 > -1074 ==> r.0 >= HIDDEN,
            r.0 == 0 <==> self.zero(),
    {
        proof {
            lemma_magnitude_parts(self);
            lemma_pow2_values();
        }
        let magnitude: u64 = self.unsigned();
        let field: u64 = magnitude / HIDDEN;
        let fraction: u64 = magnitude % HIDDEN;
        if field == 0 {
            (fraction, -1074)
        } else {
            (fraction + HIDDEN, field as i32 - 1075)
        }
    }

    /// `self < other`.
    #[verifier::when_used_as_spec(less)]
    pub fn lt(self, other: Double) -> (r: bool)
        ensures
            r == self.less(other),
    {
        if self.is_nan() || other.is_nan() {
            false
        } else {
            let a: u64 = self.unsigned();
            let b: u64 = other.unsigned();
            match (self.is_negative(), other.is_negative()) {
                (false, false) => a < b,
                (true, true) => b < a,
                (true, false) => a > 0 || b > 0,
                (false, true) => false,
            }
        }
    }

    /// `self > other`.
    #[verifier::when_used_as_spec(greater)]
    pub fn gt(self, other: Double) -> (r: bool)
        ensures
            r == self.greater(other),
    {
        other.lt(self)
    }

    /// `self <= other`.
    #[verifier::when_used_as_spec(at_most)]
    pub fn le(self, other: Double) -> (r: bool)
        ensures
            r == self.at_most(other),
    {
        !self.is_nan() && !other.is_nan() && !other.lt(self)
    }

    /// `self >= other`.
    #[verifier::when_used_as_spec(at_least)]
    pub fn ge(self, other: Double) -> (r: bool)
        ensures
            r == self.at_least(other),
    {
        other.le(self)
    }

    /// `self == other`, by value.
    #[verifier::when_used_as_spec(same)]
    pub fn equals(self, other: Double) -> (r: bool)
        ensures
            r == self.same(other),
    {
        self.le(other) && other.le(self)
    }

    /// The larger of two numbers; a number where only one of the two is.
    #[verifier::when_used_as_spec(max_spec)]
    pub fn max(self, other: Double) -> (r: Double)
        ensures
            r == self.max_spec(other),
    {
        if self.is_nan() || self.lt(other) {
            other
        } else {
            self
        }
    }

    /// `-self`.
    #[verifier::when_used_as_spec(negate_spec)]
    pub fn negate(self) -> (r: Double)
        ensures
            r == self.negate_spec(),
    {
        if self.bits >= SIGN {
            Double { bits: self.bits - SIGN }
        } else {
            Double { bits: self.bits + SIGN }
        }
    }

    /// `self + other`, rounded to nearest.
    #[verifier::when_used_as_spec(plus_spec)]
    pub fn plus(self, other: Double) -> (r: Double)
        ensures
            r == self.plus_spec(other),
    {
        reveal(Double::plus_spec);
        if self.is_nan() || other.is_nan() {
            return Double { bits: NAN };
        }
        if self.is_infinite() {
            if other.is_infinite() && self.is_negative() != other.is_negative() {
                return Double { bits: NAN };
            }
            return self;
        }
        if other.is_infinite() {
            return other;
        }
        if self.parts().1 < other.parts().1 {
            let r: Double = other.plus_ordered(self);
            r
        } else {
            self.plus_ordered(other)
        }
    }

    /// The sum of two finite numbers, the first with the larger exponent.
    fn plus_ordered(self, other: Double) -> (r: Double)
        requires
            self.finite(),
            other.finite(),
            self.exponent() >= other.exponent(),
        ensures
            r == self.plus_spec(other),
    {
        reveal(Double::plus_spec);
        let (m1, e1) = self.parts();
        let (m2, e2) = other.parts();
        let negative: bool = self.is_negative();
        let alike: bool = negative == other.is_negative();
        let distance: u32 = (e1 - e2) as u32;
        let ghost exact = self.exact_sum(other);
        proof {
            lemma_pow2_values();
            lemma_mul_unary_negation(m1 as int, pow2(distance as nat) as int);
            assert(exact == self.signed() * pow2(distance as nat) + other.signed() * 1);
        }
        if distance <= 64 {
            proof {
                lemma_one_shl(distance);
                if distance < 64 {
                    lemma_pow2_strictly_increases(distance as nat, 64);
                }
                lemma_mul_upper_bound(
                    m1 as int,
                    2 * HIDDEN,
                    pow2(distance as nat) as int,
                    pow2(64) as int,
                );
                lemma_mul_nonnegative(m1 as int, pow2(distance as nat) as int);
            }
            let n1: u128 = m1 as u128 * (1u128 << distance);
            let n2: u128 = m2 as u128;
            if alike {
                round(negative, n1 + n2, e2, false)
            } else if n1 > n2 {
                round(negative, n1 - n2, e2, false)
            } else if n2 > n1 {
                round(!negative, n2 - n1, e2, false)
            } else {
                Double { bits: 0 }
            }
        } else {
            let k: u32 = distance - 64;
            let cut: u64 = if k < 64 {
                m2 >> k
            } else {
                0
            };
            let base: u128 = m1 as u128 * 0x1_0000_0000_0000_0000;
            let ghost p = pow2(k as nat);
            let ghost rest = m2 as nat % p;
            proof {
                lemma_pow2_pos(k as nat);
                if k < 64 {
                    vstd::bits::lemma_u64_shr_is_div(m2, k as u64);
                    assert(m2 >> k == m2 >> (k as u64)) by (bit_vector);
                    lemma_one_shl(k);
                } else {
                    if k > 64 {
                        lemma_pow2_strictly_increases(64, k as nat);
                    }
                    lemma_basic_div(m2 as int, p as int);
                    lemma_small_mod(m2 as nat, p);
                }
                lemma_fundamental_div_mod(m2 as int, p as int);
                lemma_mul_is_commutative(p as int, cut as int);
                lemma_mul_nonnegative(cut as int, p as int);
                assert(m2 == cut * p + rest);
                lemma_pow2_adds(64, k as nat);
                lemma_mul_is_associative(m1 as int, pow2(64) as int, p as int);
                assert(m1 * pow2(distance as nat) == base * p);
            }
            let lost: bool = if k < 64 {
                (cut as u128) * (1u128 << k) != m2 as u128
            } else {
                m2 != 0
            };
            if alike {
                let n: u128 = base + cut as u128;
                proof {
                    let whole = (base * p + m2) as nat;
                    lemma_mul_is_distributive_add_other_way(p as int, base as int, cut as int);
                    lemma_fundamental_div_mod_converse(
                        whole as int,
                        p as int,
                        n as int,
                        rest as int,
                    );
                    lemma_unit_above(n as nat, e2 + k);
                    lemma_cut(whole, k as nat, e2 as int, false);
                }
                round(negative, n, e2 + k as i32, lost)
            } else {
                let n: u128 = if lost {
                    base - cut as u128 - 1
                } else {
                    base - cut as u128
                };
                proof {
                    let whole = (base * p - m2) as nat;
                    lemma_mul_is_distributive_sub_other_way(p as int, base as int, cut as int);
                    let left = if lost {
                        p - rest
                    } else {
                        0
                    };
                    if lost {
                        lemma_mul_is_distributive_sub_other_way(p as int, base - cut, 1);
                    }
                    lemma_mul_inequality(n as int, n as int, p as int);
                    assert(whole == n * p + left);
                    lemma_fundamental_div_mod_converse(whole as int, p as int, n as int, left);
                    lemma_unit_above(n as nat, e2 + k);
                    lemma_cut(whole, k as nat, e2 as int, false);
                }
                round(negative, n, e2 + k as i32, lost)
            }
        }
    }

    /// `self - other`, rounded to nearest.
    #[verifier::when_used_as_spec(minus_spec)]
    pub fn minus(self, other: Double) -> (r: Double)
        ensures
            r == self.minus_spec(other),
    {
        self.plus(other.negate())
    }

    /// `self * other`, rounded to nearest.
    #[verifier::when_used_as_spec(times_spec)]
    pub fn times(self, other: Double) -> (r: Double)
        ensures
            r == self.times_spec(other),
    {
        reveal(Double::times_spec);
        if self.is_nan() || other.is_nan() {
            return Double { bits: NAN };
        }
        let negative: bool = self.is_negative() != other.is_negative();
        if self.is_infinite() || other.is_infinite() {
            if self.is_zero() || other.is_zero() {
                return Double { bits: NAN };
            }
            return if negative {
                Double { bits: INFINITE + SIGN }
            } else {
                Double { bits: INFINITE }
            };
        }
        let (m1, e1) = self.parts();
        let (m2, e2) = other.parts();
        proof {
            lemma_mul_upper_bound(m1 as int, 2 * HIDDEN, m2 as int, 2 * HIDDEN);
            lemma_mul_nonnegative(m1 as int, m2 as int);
        }
        round(negative, m1 as u128 * m2 as u128, e1 + e2, false)
    }

    /// `self / other`, rounded to nearest.
    #[verifier::when_used_as_spec(over_spec)]
    pub fn over(self, other: Double) -> (r: Double)
        ensures
            r == self.over_spec(other),
    {
        reveal(Double::over_spec);
        if self.is_nan() || other.is_nan() {
            return Double { bits: NAN };
        }
        let negative: bool = self.is_negative() != other.is_negative();
        let sign: u64 = if negative {
            SIGN
        } else {
            0
        };
        if self.is_infinite() {
            return if other.is_infinite() {
                Double { bits: NAN }
            } else {
                Double { bits: INFINITE + sign }
            };
        }
        if other.is_infinite() {
            return Double { bits: sign };
        }
        if other.is_zero() {
            return if self.is_zero() {
                Double { bits: NAN }
            } else {
                Double { bits: INFINITE + sign }
            };
        }
        let (m1, e1) = self.parts();
        let (m2, e2) = other.parts();
        if m1 == 0 {
            proof {
                assert(0 * pow2(128) == 0) by (nonlinear_arith);
                lemma_div_basics_1(m2 as int);
            }
            return Double { bits: sign };
        }
        let (m, gap) = normalise(m1);
        let n: u128 = (m as u128 * 0x1_0000_0000_0000_0000) / (m2 as u128);
        let rest: u128 = (m as u128 * 0x1_0000_0000_0000_0000) % (m2 as u128);
        proof {
            lemma_pow2_values();
            let a = (m * 0x1_0000_0000_0000_0000) as nat;
            let j = (64 - gap) as nat;
            lemma_quotient_cut(a, m2 as nat, j);
            lemma_pow2_adds(gap as nat, 64);
            lemma_pow2_adds((gap + 64) as nat, j);
            lemma_mul_is_associative(m1 as int, pow2(gap as nat) as int, pow2(64) as int);
            lemma_mul_is_associative(m1 as int, pow2((gap + 64) as nat) as int, pow2(j) as int);
            assert(a * pow2(j) == m1 * pow2(128));
            lemma_div_is_ordered_by_denominator(a as int, m2 as int, 2 * HIDDEN);
            lemma_div_is_ordered(HIDDEN * 0x1_0000_0000_0000_0000, a as int, 2 * HIDDEN);
            assert(n >= pow2(53));
            lemma_div_nonincreasing(a as int, m2 as int);
            lemma_unit_above(n as nat, e1 - e2 - 64 - gap);
            lemma_cut((m1 * pow2(128)) as nat / m2 as nat, j, e1 - e2 - 128, (m1 * pow2(128)) as nat
                % m2 as nat != 0);
        }
        round(negative, n, e1 - e2 - 64 - gap as i32, rest != 0)
    }

    /// The square root, rounded to nearest.
    #[verifier::when_used_as_spec(root_spec)]
    pub fn root(self) -> (r: Double)
        ensures
            r == self.root_spec(),
    {
        reveal(Double::root_spec);
        if self.is_nan() {
            return Double { bits: NAN };
        }
        if self.is_zero() {
            return self;
        }
        if self.is_negative() {
            return Double { bits: NAN };
        }
        if self.is_infinite() {
            return self;
        }
        let (m1, e1) = self.parts();
        let (m, gap) = normalise(m1);
        let e: i32 = e1 - gap as i32;
        let even: bool = (e + 4000) % 2 == 0;
        let shift: i32 = if even {
            60
        } else {
            61
        };
        let scale: u128 = if even {
            0x1000_0000_0000_0000
        } else {
            0x2000_0000_0000_0000
        };
        let n: u128 = m as u128 * scale;
        let r: u64 = integer_root(n);
        let exact: bool = (r as u128) * (r as u128) == n;
        let half: i32 = (e + 4000 - shift + 400) / 2 - 2200;
        proof {
            lemma_pow2_values();
            lemma2_to64_rest();
            let full: int = if e1 % 2 == 0 {
                128
            } else {
                129
            };
            let k = gap + shift;
            let j = ((full - k) / 2) as nat;
            assert((full - k) % 2 == 0);
            assert(scale == pow2(shift as nat));
            lemma_root_cut(n as nat, r as nat, j);
            lemma_pow2_adds(j, j);
            lemma_pow2_adds(gap as nat, shift as nat);
            lemma_pow2_adds(k as nat, j + j);
            lemma_mul_is_associative(m1 as int, pow2(gap as nat) as int, scale as int);
            lemma_mul_is_associative(m1 as int, pow2(k as nat) as int, pow2(j + j) as int);
            assert(n * (pow2(j) * pow2(j)) == m1 * pow2(full as nat));
            assert(r >= 2 * HIDDEN) by (nonlinear_arith)
                requires
                    n < (r + 1) * (r + 1),
                    n >= HIDDEN * 0x1000_0000_0000_0000,
                    HIDDEN == 0x10_0000_0000_0000,
                    r >= 0,
            ;
            let root = floor_root((m1 * pow2(full as nat)) as nat);
            lemma_unit_above(r as nat, half as int);
            assert(half == (e1 - full) / 2 + j);
            lemma_cut(root, j, (e1 - full) / 2, root * root != m1 * pow2(full as nat));
        }
        round(false, r as u128, half, !exact)
    }

    /// The nearest whole number, halves away from zero.
    pub open spec fn whole(self) -> int {
        let m = self.significand() as int;
        let e = self.exponent();
        let size = if e >= 0 {
            m * pow2(e as nat)
        } else {
            (m + pow2((-e - 1) as nat)) / pow2((-e) as nat) as int
        };
        if self.negative() {
            -size
        } else {
            size
        }
    }

    /// The nearest whole number, halves away from zero, kept in the range of an `i32`. What is
    /// not a number gives zero.
    pub open spec fn units(self) -> int {
        if self.nan() {
            0
        } else if self.infinite() || self.whole() > i32::MAX || self.whole() < i32::MIN {
            if self.negative() {
                i32::MIN as int
            } else {
                i32::MAX as int
            }
        } else {
            self.whole()
        }
    }

    /// The nearest whole number; see [`Double::units`].
    pub fn to_units(self) -> (r: i32)
        ensures
            r == self.units(),
    {
        if self.is_nan() {
            return 0;
        }
        let negative: bool = self.is_negative();
        if self.is_infinite() {
            return if negative {
                i32::MIN
            } else {
                i32::MAX
            };
        }
        let (m, e) = self.parts();
        proof {
            lemma_pow2_values();
        }
        if e >= 0 {
            proof {
                lemma_pow2_pos(e as nat);
                lemma_mul_ordering(m as int, pow2(e as nat) as int);
            }
            return if negative {
                i32::MIN
            } else {
                i32::MAX
            };
        }
        let down: u32 = (0 - e) as u32;
        if down >= 64 {
            proof {
                if down > 64 {
                    lemma_pow2_strictly_increases(64, down as nat);
                }
                lemma_pow2_unfold(down as nat);
                lemma_basic_div(m + pow2((down - 1) as nat), pow2(down as nat) as int);
            }
            return 0;
        }
        let half: u128 = 1u128 << (down - 1);
        let unit: u128 = 1u128 << down;
        proof {
            lemma_one_shl((down - 1) as u32);
            lemma_one_shl(down);
            lemma_pow2_pos(down as nat);
            lemma_pow2_unfold(down as nat);
            if down < 64 {
                lemma_pow2_strictly_increases(down as nat, 64);
            }
        }
        let size: u128 = (m as u128 + half) / unit;
        if negative {
            if size > 0x8000_0000 {
                i32::MIN
            } else {
                (0 - size as i64) as i32
            }
        } else if size > 0x7FFF_FFFF {
            i32::MAX
        } else {
            size as i32
        }
    }

    /// An integer as a number, rounded to nearest.
    pub fn from_u64(n: u64) -> (r: Double)
        ensures
            r == compose(false, nearest(n as nat, 0, false)),
    {
        round(false, n as u128, 0, false)
    }
}

/// The number nearest to `n * 2^e`, with the given sign; with `more`, to a number strictly
/// between that and the next multiple of `2^e`.
fn round(negative: bool, n: u128, e: i32, more: bool) -> (r: Double)
    requires
        -4000 <= e <= 4000,
        n < 0x8000_0000_0000_0000_0000_0000_0000_0000,
        more ==> n > 0 && unit_exponent(n as nat, e as int) - e >= 1,
    ensures
        r == compose(negative, nearest(n as nat, e as int, more)),
{
    let code: u64 = round_to_nearest(n, e, more);
    if negative {
        Double { bits: code + SIGN }
    } else {
        Double { bits: code }
    }
}

// ---------------------------------------------------------------------------
// Laws
// ---------------------------------------------------------------------------

/// The exact value of a finite number in units of `2^e`.
pub open spec fn scaled_value(x: Double, e: int) -> int {
    x.signed() * pow2((x.exponent() - e) as nat)
}

/// The rank that rounding gives to `n * 2^e`.
pub open spec fn nearest_rank(n: int, e: int) -> int {
    if n < 0 {
        -nearest((-n) as nat, e, false)
    } else {
        nearest(n as nat, e, false)
    }
}

/// Addition keeps order: adding the same number to a larger one does not give less.
pub proof fn law_plus_ordered(a: Double, b: Double, c: Double)
    requires
        a.finite(),
        b.finite(),
        c.finite(),
        a.rank() <= b.rank(),
    ensures
        a.plus(c).at_most(b.plus(c)),
{
    let ac = a.sum_exponent(c);
    let bc = b.sum_exponent(c);
    let e = if ac <= bc {
        ac
    } else {
        bc
    };
    lemma_sum_rank(a, c, e);
    lemma_sum_rank(b, c, e);
    lemma_value_ordered(a, b, e);
    lemma_rank_ordered(
        scaled_value(a, e) + scaled_value(c, e),
        scaled_value(b, e) + scaled_value(c, e),
        e,
    );
}

/// Taking away a smaller number leaves something, however little.
pub proof fn law_minus_positive(a: Double, b: Double)
    requires
        a.finite(),
        b.finite(),
        !a.negative(),
        !b.negative(),
        b.magnitude() < a.magnitude(),
    ensures
        !a.minus(b).nan(),
        !a.minus(b).negative(),
        a.minus(b).magnitude() > 0,
{
    reveal(Double::plus_spec);
    let c = b.negate();
    let e = a.sum_exponent(c);
    let i = (a.exponent() - e) as nat;
    let j = (b.exponent() - e) as nat;
    lemma_magnitude_parts(a);
    lemma_magnitude_parts(b);
    lemma_magnitude_ordered(b, a, e);
    lemma_nearest_exact(a);
    lemma_nearest_exact(b);
    lemma_rescale(a.significand(), a.exponent(), i);
    lemma_rescale(b.significand(), b.exponent(), j);
    lemma_mul_unary_negation(b.significand() as int, pow2(j) as int);
    let n = a.exact_sum(c) as nat;
    assert(n > 0);
    lemma_nearest_bound(n, e);
    let shift = unit_exponent(n, e) - e;
    if shift <= 0 {
        lemma_pow2_pos((-shift) as nat);
        lemma_mul_strictly_positive(n as int, pow2((-shift) as nat) as int);
    }
}

/// Addition does not depend on the order of its arguments.
pub proof fn law_plus_commutes(a: Double, b: Double)
    ensures
        a.plus(b) == b.plus(a),
{
    reveal(Double::plus_spec);
}

/// Multiplication keeps the order of magnitudes.
pub proof fn law_times_ordered(a: Double, b: Double, c: Double)
    requires
        a.finite(),
        b.finite(),
        c.finite(),
        a.magnitude() <= b.magnitude(),
    ensures
        a.times(c).magnitude() <= b.times(c).magnitude() <= INFINITE,
        a.times(c).negative() == (a.negative() != c.negative()),
        b.times(c).negative() == (b.negative() != c.negative()),
{
    let e = if a.exponent() <= b.exponent() {
        a.exponent()
    } else {
        b.exponent()
    };
    lemma_product_magnitude(a, c, e);
    lemma_product_magnitude(b, c, e);
    lemma_magnitude_ordered(a, b, e);
    let x = a.significand() * pow2((a.exponent() - e) as nat);
    let y = b.significand() * pow2((b.exponent() - e) as nat);
    lemma_mul_inequality(x as int, y as int, c.significand() as int);
    lemma_mul_nonnegative(x as int, c.significand() as int);
    lemma_nearest_ordered(x * c.significand(), y * c.significand(), e + c.exponent());
}

/// Multiplication does not depend on the order of its arguments.
pub proof fn law_times_commutes(a: Double, b: Double)
    ensures
        a.times(b) == b.times(a),
{
    reveal(Double::times_spec);
    lemma_mul_is_commutative(a.significand() as int, b.significand() as int);
}

/// Multiplying by a number between -1 and 1 does not make a finite number larger.
pub proof fn law_times_shrinks(x: Double, factor: Double)
    requires
        x.finite(),
        factor.magnitude() <= UNIT,
    ensures
        x.times(factor).magnitude() <= x.magnitude(),
{
    let one = encoded(UNIT);
    law_times_ordered(factor, one, x);
    law_times_commutes(x, factor);
    lemma_product_magnitude(one, x, one.exponent());
    lemma_pow2_values();
    lemma_mul_is_commutative(x.significand() as int, HIDDEN as int);
    lemma_rescale(x.significand(), x.exponent(), 52);
    lemma_nearest_exact(x);
    assert(one.significand() == HIDDEN && pow2(0) == 1);
    lemma_mul_basics(HIDDEN as int);
}

/// Dividing by a number that is no smaller gives at most one.
pub proof fn law_over_shrinks(a: Double, b: Double)
    requires
        b.finite(),
        !b.zero(),
        a.magnitude() <= b.magnitude(),
    ensures
        a.over(b).magnitude() <= UNIT,
{
    reveal(Double::over_spec);
    lemma_pow2_values();
    lemma_magnitude_parts(a);
    lemma_magnitude_parts(b);
    if a.exponent() > b.exponent() {
        assert((a.exponent() - b.exponent() - 1) * HIDDEN >= 0) by (nonlinear_arith)
            requires
                a.exponent() - b.exponent() - 1 >= 0,
        ;
        assert((a.exponent() + 1074) * HIDDEN == (b.exponent() + 1074) * HIDDEN + (a.exponent()
            - b.exponent() - 1) * HIDDEN + HIDDEN) by (nonlinear_arith);
    }
    let drop = (b.exponent() - a.exponent()) as nat;
    let e = a.exponent() - b.exponent() - 128;
    let one = pow2(128 + drop);
    let wide = a.significand() * pow2(128);
    let den = b.significand();
    let n = wide / den;
    let more = wide % den != 0;
    lemma_pow2_adds(128, drop);
    lemma_pow2_pos(128);
    lemma_pow2_pos(drop);
    lemma_magnitude_ordered(a, b, a.exponent());
    assert(a.significand() * pow2(0) == a.significand());
    assert(wide <= one * den) by (nonlinear_arith)
        requires
            a.significand() <= den * pow2(drop),
            wide == a.significand() * pow2(128),
            one == pow2(128) * pow2(drop),
    ;
    lemma_fundamental_div_mod(wide as int, den as int);
    assert(n <= one && (more ==> n < one)) by (nonlinear_arith)
        requires
            wide == den * n + wide % den,
            0 <= wide % den < den,
            wide <= one * den,
            more == (wide % den != 0),
    ;
    assert(nearest(one, e, false) == UNIT) by {
        lemma_rescale(1, 0, 128 + drop);
        let u = encoded(UNIT);
        lemma_nearest_exact(u);
        lemma_rescale(1, 0, 52);
    }
    if a.significand() > 0 {
        assert(n >= pow2(53)) by {
            lemma_pow2_adds(53, 75);
            lemma_pow2_strictly_increases(53, 75);
            assert(wide >= pow2(53) * den) by (nonlinear_arith)
                requires
                    a.significand() >= 1,
                    wide == a.significand() * pow2(128),
                    pow2(128) == pow2(53) * pow2(75),
                    pow2(75) >= den,
            ;
            lemma_div_is_ordered((pow2(53) * den) as int, wide as int, den as int);
            lemma_div_multiples_vanish(pow2(53) as int, den as int);
            lemma_mul_is_commutative(pow2(53) as int, den as int);
        }
        lemma_unit_above(n, e);
        if more {
            let odd = 2 * n + 1;
            assert(odd / pow2(1) == n && odd % pow2(1) == 1);
            lemma_cut(odd, 1, e - 1, false);
            lemma_nearest_ordered(odd, one * pow2(1), e - 1);
            lemma_rescale(one, e, 1);
        } else {
            lemma_nearest_ordered(n, one, e);
        }
        assert(nearest(n, e, more) <= UNIT);
    } else {
        lemma_mul_basics(pow2(128) as int);
        assert(wide == 0 && n == 0);
    }
}

// ---------------------------------------------------------------------------
// Proofs
// ---------------------------------------------------------------------------

pub(crate) proof fn lemma_magnitude_parts(x: Double)
    requires
        x.finite(),
    ensures
        x.significand() < pow2(53),
        -1074 <= x.exponent() <= 971,
        x.exponent() > -1074 ==> x.significand() >= pow2(52),
        x.zero() <==> x.significand() == 0,
        x.magnitude() == (x.exponent() + 1074) * HIDDEN + x.significand(),
{
    lemma_pow2_values();
    lemma_fundamental_div_mod(x.magnitude(), HIDDEN as int);
}

/// A number that the format holds is not changed by rounding.
proof fn lemma_nearest_exact(x: Double)
    requires
        x.finite(),
    ensures
        nearest(x.significand(), x.exponent(), false) == x.magnitude(),
{
    lemma_magnitude_parts(x);
    lemma_pow2_values();
    let n = x.significand();
    if n > 0 {
        if x.exponent() > -1074 {
            lemma_bit_length_is(n, 53);
        } else {
            lemma_bit_length(n);
            if bit_length(n) > 53 {
                if bit_length(n) > 54 {
                    lemma_pow2_strictly_increases(53, (bit_length(n) - 1) as nat);
                }
            }
        }
        assert(unit_exponent(n, x.exponent()) == x.exponent());
        assert(n * pow2(0) == n);
        assert(rounded(n, x.exponent(), false) == n);
    }
}

/// Magnitudes are ordered as the numbers that they encode.
pub(crate) proof fn lemma_magnitude_ordered(x: Double, y: Double, e: int)
    requires
        x.finite(),
        y.finite(),
        x.magnitude() <= y.magnitude(),
        e <= x.exponent(),
        e <= y.exponent(),
    ensures
        x.significand() * pow2((x.exponent() - e) as nat) <= y.significand() * pow2(
            (y.exponent() - e) as nat,
        ),
{
    lemma_magnitude_parts(x);
    lemma_magnitude_parts(y);
    lemma_pow2_values();
    let a = (x.exponent() - e) as nat;
    let b = (y.exponent() - e) as nat;
    if x.exponent() > y.exponent() {
        lemma_mul_inequality(y.exponent() + 1, x.exponent(), HIDDEN as int);
        assert(false);
    } else if x.exponent() == y.exponent() {
        lemma_mul_inequality(x.significand() as int, y.significand() as int, pow2(a) as int);
    } else {
        let c = (y.exponent() - x.exponent()) as nat;
        lemma_pow2_adds(a, c);
        if c > 1 {
            lemma_pow2_strictly_increases(1, c);
        }
        lemma_pow2_pos(a);
        lemma_mul_inequality(2, pow2(c) as int, y.significand() as int);
        lemma_mul_is_commutative(pow2(c) as int, y.significand() as int);
        assert(x.significand() <= y.significand() * pow2(c));
        lemma_mul_inequality(
            x.significand() as int,
            (y.significand() * pow2(c)) as int,
            pow2(a) as int,
        );
        lemma_mul_is_associative(y.significand() as int, pow2(c) as int, pow2(a) as int);
        lemma_mul_is_commutative(pow2(c) as int, pow2(a) as int);
    }
}

proof fn lemma_value_ordered(a: Double, b: Double, e: int)
    requires
        a.finite(),
        b.finite(),
        a.rank() <= b.rank(),
        e <= a.exponent(),
        e <= b.exponent(),
    ensures
        scaled_value(a, e) <= scaled_value(b, e),
{
    lemma_magnitude_parts(a);
    lemma_magnitude_parts(b);
    let p = pow2((a.exponent() - e) as nat) as int;
    let q = pow2((b.exponent() - e) as nat) as int;
    lemma_pow2_pos((a.exponent() - e) as nat);
    lemma_pow2_pos((b.exponent() - e) as nat);
    lemma_mul_unary_negation(a.significand() as int, p);
    lemma_mul_unary_negation(b.significand() as int, q);
    lemma_mul_nonnegative(a.significand() as int, p);
    lemma_mul_nonnegative(b.significand() as int, q);
    if a.negative() && b.negative() {
        lemma_magnitude_ordered(b, a, e);
    } else if !a.negative() && !b.negative() {
        lemma_magnitude_ordered(a, b, e);
    } else if !a.negative() {
        assert(a.significand() == 0 && b.significand() == 0);
        lemma_mul_basics(p);
        lemma_mul_basics(q);
    }
}

proof fn lemma_rank_ordered(n1: int, n2: int, e: int)
    requires
        n1 <= n2,
    ensures
        nearest_rank(n1, e) <= nearest_rank(n2, e),
{
    if n2 < 0 {
        lemma_nearest_ordered((-n2) as nat, (-n1) as nat, e);
    } else if n1 >= 0 {
        lemma_nearest_ordered(n1 as nat, n2 as nat, e);
    } else {
        lemma_nearest_bound((-n1) as nat, e);
        lemma_nearest_bound(n2 as nat, e);
    }
}

/// The rank of a sum is that of its exact value, whatever exponent that is written with.
proof fn lemma_sum_rank(a: Double, c: Double, e: int)
    requires
        a.finite(),
        c.finite(),
        e <= a.exponent(),
        e <= c.exponent(),
    ensures
        !a.plus(c).nan(),
        a.plus(c).rank() == nearest_rank(scaled_value(a, e) + scaled_value(c, e), e),
{
    reveal(Double::plus_spec);
    let m = a.sum_exponent(c);
    let n = a.exact_sum(c);
    let j = (m - e) as nat;
    let p = pow2(j) as int;
    lemma_pow2_pos(j);
    lemma_pow2_adds((a.exponent() - m) as nat, j);
    lemma_pow2_adds((c.exponent() - m) as nat, j);
    lemma_mul_is_associative(a.signed(), pow2((a.exponent() - m) as nat) as int, p);
    lemma_mul_is_associative(c.signed(), pow2((c.exponent() - m) as nat) as int, p);
    lemma_mul_is_distributive_add_other_way(p, scaled_value(a, m), scaled_value(c, m));
    assert(scaled_value(a, e) + scaled_value(c, e) == n * p);
    lemma_mul_unary_negation(n, p);
    if n == 0 {
        lemma_mul_basics(p);
    } else if n < 0 {
        lemma_rescale((-n) as nat, m, j);
        lemma_mul_strictly_positive(-n, p);
        lemma_nearest_bound((-n) as nat, m);
    } else {
        lemma_rescale(n as nat, m, j);
        lemma_mul_strictly_positive(n, p);
        lemma_nearest_bound(n as nat, m);
    }
}

/// A sum that the format holds is not rounded.
pub(crate) proof fn lemma_plus_exact(a: Double, b: Double, r: Double, e: int)
    requires
        a.finite(),
        b.finite(),
        r.finite(),
        !r.zero(),
        e <= a.exponent(),
        e <= b.exponent(),
        e <= r.exponent(),
        scaled_value(a, e) + scaled_value(b, e) == scaled_value(r, e),
    ensures
        a.plus(b) == r,
{
    reveal(Double::plus_spec);
    lemma_sum_rank(a, b, e);
    lemma_magnitude_parts(r);
    let j = (r.exponent() - e) as nat;
    lemma_pow2_pos(j);
    lemma_rescale(r.significand(), r.exponent(), j);
    lemma_nearest_exact(r);
    lemma_mul_strictly_positive(r.significand() as int, pow2(j) as int);
    lemma_mul_unary_negation(r.significand() as int, pow2(j) as int);
    assert(a.plus(b).rank() == r.rank());
}

proof fn lemma_product_magnitude(a: Double, c: Double, e: int)
    requires
        a.finite(),
        c.finite(),
        e <= a.exponent(),
    ensures
        a.times(c).magnitude() == nearest(
            (a.significand() * pow2((a.exponent() - e) as nat)) * c.significand(),
            e + c.exponent(),
            false,
        ),
        a.times(c).magnitude() <= INFINITE,
        a.times(c).negative() == (a.negative() != c.negative()),
{
    reveal(Double::times_spec);
    let j = (a.exponent() - e) as nat;
    let n = a.significand() * c.significand();
    lemma_mul_nonnegative(a.significand() as int, c.significand() as int);
    lemma_nearest_bound(n, a.exponent() + c.exponent());
    lemma_rescale(n, a.exponent() + c.exponent(), j);
    assert((a.significand() * pow2(j)) * c.significand() == n * pow2(j)) by (nonlinear_arith)
        requires
            n == a.significand() * c.significand(),
    ;
}

/// Zero times a finite number is zero.
pub(crate) proof fn lemma_zero_times(x: Double)
    requires
        x.finite(),
    ensures
        encoded(0).times(x).zero(),
{
    reveal(Double::times_spec);
    lemma_mul_basics(x.significand() as int);
    assert(encoded(0).significand() * x.significand() == 0);
}

/// Adding a zero does not change the magnitude of a finite number.
pub(crate) proof fn lemma_plus_zero(x: Double, zero: Double)
    requires
        x.finite(),
        zero.zero(),
    ensures
        x.plus(zero).magnitude() == x.magnitude(),
{
    reveal(Double::plus_spec);
    lemma_magnitude_parts(x);
    let e = x.sum_exponent(zero);
    lemma_mul_basics(pow2((zero.exponent() - e) as nat) as int);
    assert(zero.signed() * pow2((zero.exponent() - e) as nat) == 0);
    if x.zero() {
        lemma_mul_basics(pow2((x.exponent() - e) as nat) as int);
        assert(x.exact_sum(zero) == 0);
    } else {
        lemma_plus_exact(x, zero, x, e);
    }
}

} // verus!
