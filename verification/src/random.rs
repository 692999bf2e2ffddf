//! Reproducible random numbers.

use crate::double::{
    encoded, law_plus_ordered, law_times_ordered, lemma_magnitude_parts, lemma_plus_exact,
    scaled_value, Double,
};
use crate::physics::ONE;
use crate::rounding::{lemma_bit_length_is, lemma_nearest_bound, lemma_pow2_values};
use rand::distributions::Standard;
use rand::rngs::StdRng;
use rand::{Rng, SeedableRng};
use vstd::arithmetic::div_mod::*;
use vstd::arithmetic::power2::*;
use vstd::prelude::*;

verus! {

/// The word that a `StdRng` seeded with `seed` gives at its draw number `n`, counted from zero.
pub uninterp spec fn std_rng_word(seed: u64, n: nat) -> u64;

/// The first `count` words of `rand`'s `StdRng`, seeded with `seed_from_u64` and drawn with its
/// standard distribution over `u64`. The generator is deterministic: each word depends on the
/// seed and on its place alone.
#[verifier::external_body]
pub(crate) fn draw_words(seed: u64, count: usize) -> (words: Vec<u64>)
    ensures
        words@.len() == count,
        forall|i: int| 0 <= i < count ==> #[trigger] words@[i] == std_rng_word(seed, i as nat),
{
    StdRng::seed_from_u64(seed).sample_iter(Standard).take(count).collect()
}

/// A number in `[0, 1)` made of the upper 52 digits of a word.
pub open spec fn unit_value(word: u64) -> Double {
    encoded((ONE + word / 4096) as u64).minus(encoded(ONE))
}

/// The number that a word stands for in the range from `low` to `high`.
pub open spec fn uniform_value(word: u64, low: Double, high: Double) -> Double {
    unit_value(word).times(high.minus(low)).plus(low)
}

/// The number that a word stands for in the range from `low` to `high`. In the ranges that levels
/// are laid out with it is never `high` itself, as [`law_uniform_in_range`] shows. In other ranges
/// the sum may round up to `high`; a generator of half-open ranges would draw again there.
pub fn uniform(word: u64, low: Double, high: Double) -> (r: Double)
    ensures
        r == uniform_value(word, low, high),
{
    let unit: Double = encoded(ONE + word / 4096).minus(encoded(ONE));
    unit.times(high.minus(low)).plus(low)
}

/// The largest number that [`unit_value`] gives: `1 - 2^-52`.
pub const LAST_UNIT: u64 = 0x3FEF_FFFF_FFFF_FFFE;

/// Whether a range is one of those that levels are laid out with: from -60 to 60, from 34 to 64,
/// from 90 to 1710 and from 90 to 1110.
pub open spec fn layout_range(low: Double, high: Double) -> bool {
    ||| low.bits == 0xC04E_0000_0000_0000 && high.bits == 0x404E_0000_0000_0000
    ||| low.bits == 0x4041_0000_0000_0000 && high.bits == 0x4050_0000_0000_0000
    ||| low.bits == 0x4056_8000_0000_0000 && high.bits == 0x409A_B800_0000_0000
    ||| low.bits == 0x4056_8000_0000_0000 && high.bits == 0x4091_5800_0000_0000
}

/// A draw from one of the layout ranges lies in it: not below its start and below its end.
pub proof fn law_uniform_in_range(word: u64, low: Double, high: Double)
    requires
        layout_range(low, high),
    ensures
        low.at_most(uniform_value(word, low, high)),
        uniform_value(word, low, high).less(high),
{
    lemma2_to64();
    lemma2_to64_rest();
    lemma_unit_value(word);
    if low.bits == 0xC04E_0000_0000_0000 {
        let scale = encoded(0x405E_0000_0000_0000);
        let top = encoded(0x405D_FFFF_FFFF_FFFE);
        let peak = encoded(0x404D_FFFF_FFFF_FFFC);
        lemma_scaled(low, 13, 0x2000);
        lemma_scaled(low.negate(), 13, 0x2000);
        lemma_scaled(high, 13, 0x2000);
        lemma_scaled(scale, 14, 0x4000);
        lemma_scaled(top, 14, 0x4000);
        lemma_scaled(peak, 13, 0x2000);
        lemma_plus_exact(high, low.negate(), scale, -60);
        lemma_last_product(scale, top);
        lemma_plus_exact(top, low, peak, -60);
        lemma_range(word, low, high, scale, top, peak);
    } else if low.bits == 0x4041_0000_0000_0000 {
        let scale = encoded(0x403E_0000_0000_0000);
        let top = encoded(0x403D_FFFF_FFFF_FFFE);
        let peak = encoded(0x404F_FFFF_FFFF_FFFF);
        lemma_scaled(low, 13, 0x2000);
        lemma_scaled(low.negate(), 13, 0x2000);
        lemma_scaled(high, 14, 0x4000);
        lemma_scaled(scale, 12, 0x1000);
        lemma_scaled(top, 12, 0x1000);
        lemma_scaled(peak, 13, 0x2000);
        lemma_plus_exact(high, low.negate(), scale, -60);
        lemma_last_product(scale, top);
        lemma_plus_exact(top, low, peak, -60);
        lemma_range(word, low, high, scale, top, peak);
    } else if high.bits == 0x409A_B800_0000_0000 {
        let scale = encoded(0x4099_5000_0000_0000);
        let top = encoded(0x4099_4FFF_FFFF_FFFE);
        let peak = encoded(0x409A_B7FF_FFFF_FFFE);
        lemma_scaled(low, 14, 0x4000);
        lemma_scaled(low.negate(), 14, 0x4000);
        lemma_scaled(high, 18, 0x40000);
        lemma_scaled(scale, 18, 0x40000);
        lemma_scaled(top, 18, 0x40000);
        lemma_scaled(peak, 18, 0x40000);
        lemma_plus_exact(high, low.negate(), scale, -60);
        lemma_last_product(scale, top);
        lemma_plus_exact(top, low, peak, -60);
        lemma_range(word, low, high, scale, top, peak);
    } else {
        let scale = encoded(0x408F_E000_0000_0000);
        let top = encoded(0x408F_DFFF_FFFF_FFFE);
        let peak = encoded(0x4091_57FF_FFFF_FFFF);
        lemma_scaled(low, 14, 0x4000);
        lemma_scaled(low.negate(), 14, 0x4000);
        lemma_scaled(high, 18, 0x40000);
        lemma_scaled(scale, 17, 0x20000);
        lemma_scaled(top, 17, 0x20000);
        lemma_scaled(peak, 18, 0x40000);
        lemma_plus_exact(high, low.negate(), scale, -60);
        lemma_last_product(scale, top);
        lemma_plus_exact(top, low, peak, -60);
        lemma_range(word, low, high, scale, top, peak);
    }
}

/// The value of a number in units of `2^-60`.
pub(crate) proof fn lemma_scaled(x: Double, k: nat, p: int)
    requires
        x.exponent() == k - 60,
        pow2(k) == p,
    ensures
        scaled_value(x, -60) == x.signed() * p,
{
}

proof fn lemma_unit_value(word: u64)
    ensures
        unit_value(word).bits <= LAST_UNIT,
{
    reveal(Double::plus_spec);
    lemma2_to64();
    let k = word / 4096;
    assert(k < 0x10_0000_0000_0000);
    let a = encoded((ONE + k) as u64);
    let b = encoded(0x3FFF_FFFF_FFFF_FFFF);
    let c = encoded(ONE).negate();
    assert(a.exponent() == -52 && b.exponent() == -52 && c.exponent() == -52);
    assert(a.signed() == 0x10_0000_0000_0000 + k && c.signed() == -0x10_0000_0000_0000);
    assert(pow2((a.exponent() - a.sum_exponent(c)) as nat) == 1);
    assert(pow2((c.exponent() - a.sum_exponent(c)) as nat) == 1);
    assert(a.exact_sum(c) == k);
    let last = encoded(LAST_UNIT);
    assert(pow2((b.exponent() + 53) as nat) == 2);
    assert(pow2((c.exponent() + 53) as nat) == 2);
    assert(pow2((last.exponent() + 53) as nat) == 1);
    assert(scaled_value(b, -53) == b.signed() * 2);
    assert(scaled_value(c, -53) == c.signed() * 2);
    assert(scaled_value(last, -53) == last.signed() * 1);
    law_plus_ordered(a, b, c);
    lemma_plus_exact(b, c, last, -53);
    lemma_nearest_bound(k as nat, -52);
}

/// The product of the largest unit value with a number whose significand is more than 3/2: two
/// units in the last place below that number.
proof fn lemma_last_product(scale: Double, top: Double)
    requires
        !scale.negative(),
        scale.finite(),
        0 > scale.exponent() > -100,
        2 * scale.significand() > 3 * 0x10_0000_0000_0000,
        top.bits == scale.bits - 2,
    ensures
        encoded(LAST_UNIT).times(scale) == top,
{
    reveal(Double::times_spec);
    lemma_pow2_values();
    lemma_magnitude_parts(scale);
    let s = scale.significand();
    let last = encoded(LAST_UNIT).significand();
    assert(last == 0x1F_FFFF_FFFF_FFFE);
    let n = last * s;
    let e = scale.exponent() - 53;
    lemma_pow2_adds(53, 53);
    lemma_pow2_adds(52, 53);
    assert(n == 0x1F_FFFF_FFFF_FFFE * s) by (nonlinear_arith)
        requires
            n == last * s,
            last == 0x1F_FFFF_FFFF_FFFE,
    ;
    assert(pow2(106) == 0x20_0000_0000_0000 * 0x20_0000_0000_0000) by (nonlinear_arith)
        requires
            pow2(106) == pow2(53) * pow2(53),
            pow2(53) == 0x20_0000_0000_0000,
    ;
    assert(pow2(105) == 0x10_0000_0000_0000 * 0x20_0000_0000_0000) by (nonlinear_arith)
        requires
            pow2(105) == pow2(52) * pow2(53),
            pow2(52) == 0x10_0000_0000_0000,
            pow2(53) == 0x20_0000_0000_0000,
    ;
    lemma_bit_length_is(n, 106);
    let rest = 2 * 0x20_0000_0000_0000 - 2 * s;
    assert((s - 2) * pow2(53) == (s - 2) * 0x20_0000_0000_0000);
    lemma_fundamental_div_mod_converse(n as int, pow2(53) as int, s - 2, rest);
}

proof fn lemma_range(
    word: u64,
    low: Double,
    high: Double,
    scale: Double,
    top: Double,
    peak: Double,
)
    requires
        unit_value(word).bits <= LAST_UNIT,
        low.finite(),
        !low.zero(),
        high.minus(low) == scale,
        scale.finite(),
        !scale.negative(),
        encoded(LAST_UNIT).times(scale) == top,
        top.finite(),
        top.plus(low) == peak,
        peak.less(high),
    ensures
        low.at_most(uniform_value(word, low, high)),
        uniform_value(word, low, high).less(high),
{
    let unit = unit_value(word);
    let product = unit.times(scale);
    law_times_ordered(unit, encoded(LAST_UNIT), scale);
    law_plus_ordered(product, top, low);
    law_plus_ordered(encoded(0), product, low);
    lemma_magnitude_parts(low);
    assert(encoded(0).signed() == 0);
    assert(encoded(0).exponent() == -1074);
    assert(scaled_value(encoded(0), -1074) == 0) by {
        vstd::arithmetic::mul::lemma_mul_basics(pow2(0) as int);
    }
    lemma_plus_exact(encoded(0), low, low, -1074);
}

} // verus!
