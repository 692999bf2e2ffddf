//! Rounding to the 53 significant digits of the binary64 format, on integers.

use vstd::arithmetic::div_mod::*;
use vstd::arithmetic::mul::*;
use vstd::arithmetic::power2::*;
use vstd::prelude::*;

verus! {

/// Encoding of positive infinity. Smaller magnitudes are finite, larger ones are not numbers.
pub const INFINITE: u64 = 0x7FF0_0000_0000_0000;

/// The implicit leading bit of a normal significand.
pub const HIDDEN: u64 = 0x0010_0000_0000_0000;

/// The number of binary digits of `n`.
pub open spec fn bit_length(n: nat) -> nat
    decreases n,
{
    if n == 0 {
        0
    } else {
        1 + bit_length(n / 2)
    }
}

/// The exponent of the unit in the last place of the binary64 numbers around `n * 2^e`.
pub open spec fn unit_exponent(n: nat, e: int) -> int {
    let top = e + bit_length(n) - 53;
    if top > -1074 {
        top
    } else {
        -1074
    }
}

/// `n * 2^e` in units of `2^unit_exponent(n, e)`, rounded to nearest, ties to even. With `more`
/// the number lies strictly between `n * 2^e` and `(n + 1) * 2^e` instead; this is meaningful
/// where the unit is at least `2^(e + 1)`.
pub open spec fn rounded(n: nat, e: int, more: bool) -> nat {
    let shift = unit_exponent(n, e) - e;
    if shift <= 0 {
        n * pow2((-shift) as nat)
    } else {
        let quotient = n / pow2(shift as nat);
        let rest = n % pow2(shift as nat);
        let half = pow2((shift - 1) as nat);
        if rest > half || (rest == half && (more || quotient % 2 == 1)) {
            quotient + 1
        } else {
            quotient
        }
    }
}

/// The magnitude of the binary64 number nearest to `n * 2^e` (with `more`: slightly above it),
/// infinity where the exponent range ends.
pub open spec fn nearest(n: nat, e: int, more: bool) -> int {
    if n == 0 {
        0
    } else {
        let code = (unit_exponent(n, e) + 1074) * HIDDEN + rounded(n, e, more);
        if code < INFINITE {
            code
        } else {
            INFINITE as int
        }
    }
}

/// The largest integer whose square is at most `n`.
pub open spec fn floor_root(n: nat) -> nat {
    choose|r: nat| #![trigger r * r] r * r <= n < (r + 1) * (r + 1)
}

// ---------------------------------------------------------------------------
// Operations
// ---------------------------------------------------------------------------

/// The number of binary digits of `n`.
pub(crate) fn digits(n: u128) -> (l: u32)
    ensures
        l == bit_length(n as nat),
        l <= 128,
{
    let high: u64 = (n >> 64) as u64;
    let low: u64 = (n & 0xFFFF_FFFF_FFFF_FFFF) as u64;
    proof {
        lemma_pow2_values();
        vstd::std_specs::bits::axiom_u64_leading_zeros(high);
        vstd::std_specs::bits::axiom_u64_leading_zeros(low);
        lemma_leading_zeros(high);
        lemma_leading_zeros(low);
        assert(n == ((n >> 64) as u64) * 0x1_0000_0000_0000_0000 + ((n
            & 0xFFFF_FFFF_FFFF_FFFF) as u64)) by (bit_vector);
        if high > 0 {
            lemma_bit_length_append(high as nat, 64, low as nat);
        }
    }
    if high > 0 {
        128 - high.leading_zeros()
    } else {
        64 - low.leading_zeros()
    }
}

/// The code of the number nearest to `n * 2^e`; with `more`, to a number strictly between that
/// and the next multiple of `2^e`.
pub(crate) fn round_to_nearest(n: u128, e: i32, more: bool) -> (code: u64)
    requires
        -4000 <= e <= 4000,
        n < 0x8000_0000_0000_0000_0000_0000_0000_0000,
        more ==> n > 0 && unit_exponent(n as nat, e as int) - e >= 1,
    ensures
        code == nearest(n as nat, e as int, more),
        code <= INFINITE,
{
    proof {
        lemma_pow2_values();
    }
    if n == 0 {
        return 0;
    }
    let l: i32 = digits(n) as i32;
    let top: i32 = e + l - 53;
    let unit: i32 = if top > -1074 {
        top
    } else {
        -1074
    };
    let shift: i32 = unit - e;
    proof {
        lemma_rounded_bound(n as nat, e as int, more);
    }
    let significand: u64 = if shift <= 0 {
        let up: u32 = (0 - shift) as u32;
        proof {
            lemma_one_shl(up);
            lemma_pow2_pos(up as nat);
            lemma_mul_ordering(n as int, pow2(up as nat) as int);
        }
        (n * (1u128 << up)) as u64
    } else if shift >= 128 {
        proof {
            lemma_one_shl(127);
            assert(1u128 << 127u32 == 0x8000_0000_0000_0000_0000_0000_0000_0000u128) by (bit_vector);
            if shift > 128 {
                lemma_pow2_strictly_increases(127, (shift - 1) as nat);
            }
            lemma_pow2_strictly_increases(127, shift as nat);
            lemma_basic_div(n as int, pow2(shift as nat) as int);
            lemma_small_mod(n as nat, pow2(shift as nat));
        }
        0
    } else {
        let down: u32 = shift as u32;
        let unit_value: u128 = 1u128 << down;
        let half: u128 = 1u128 << (down - 1);
        let quotient: u128 = n >> down;
        proof {
            lemma_one_shl(down);
            lemma_one_shl((down - 1) as u32);
            lemma_pow2_pos(down as nat);
            vstd::bits::lemma_u128_shr_is_div(n, down as u128);
            assert(n >> down == n >> (down as u128)) by (bit_vector);
            lemma_fundamental_div_mod(n as int, unit_value as int);
            lemma_mul_is_commutative(quotient as int, unit_value as int);
            lemma_mul_nonnegative(quotient as int, unit_value as int);
        }
        let rest: u128 = n - quotient * unit_value;
        if rest > half || (rest == half && (more || quotient % 2 == 1)) {
            (quotient + 1) as u64
        } else {
            quotient as u64
        }
    };
    if unit + 1074 >= 2047 {
        INFINITE
    } else {
        let code: u64 = (unit + 1074) as u64 * HIDDEN + significand;
        if code < INFINITE {
            code
        } else {
            INFINITE
        }
    }
}

/// Moves the leading digit of a significand up to its place.
pub(crate) fn normalise(m: u64) -> (r: (u64, u32))
    requires
        0 < m < 2 * HIDDEN,
    ensures
        HIDDEN <= r.0 < 2 * HIDDEN,
        r.1 <= 52,
        r.0 == m * pow2(r.1 as nat),
{
    let zeros: u32 = m.leading_zeros();
    proof {
        lemma_pow2_values();
        vstd::std_specs::bits::axiom_u64_leading_zeros(m);
        lemma_leading_zeros(m);
        lemma_bit_length(m as nat);
        let l = bit_length(m as nat);
        if l > 53 {
            if l > 54 {
                lemma_pow2_strictly_increases(53, (l - 1) as nat);
            }
        }
        lemma_pow2_adds((l - 1) as nat, (53 - l) as nat);
        lemma_pow2_adds(l, (53 - l) as nat);
        lemma_pow2_pos((53 - l) as nat);
        lemma_mul_inequality(pow2((l - 1) as nat) as int, m as int, pow2((53 - l) as nat) as int);
        lemma_mul_strict_inequality(m as int, pow2(l) as int, pow2((53 - l) as nat) as int);
    }
    let gap: u32 = zeros - 11;
    proof {
        vstd::bits::lemma_u64_shl_is_mul(m, gap as u64);
        assert(m << gap == m << (gap as u64)) by (bit_vector);
    }
    (m << gap, gap)
}

/// The largest integer whose square is at most `n`.
pub(crate) fn integer_root(n: u128) -> (r: u64)
    requires
        n < 0x4_0000_0000_0000_0000_0000_0000_0000,
    ensures
        r * r <= n < (r + 1) * (r + 1),
        r < 0x200_0000_0000_0000,
{
    let mut root: u64 = 0;
    let mut step: u64 = 0x100_0000_0000_0000;
    let ghost mut k: nat = 56;
    proof {
        lemma2_to64_rest();
    }
    assert(0x200_0000_0000_0000 * 0x200_0000_0000_0000 == 0x4_0000_0000_0000_0000_0000_0000_0000)
        by (nonlinear_arith);
    while step > 0
        invariant
            n < 0x4_0000_0000_0000_0000_0000_0000_0000,
            root * root <= n,
            step > 0 ==> n < (root + 2 * step) * (root + 2 * step),
            step == 0 ==> n < (root + 1) * (root + 1),
            step > 0 ==> root + 2 * step <= 0x200_0000_0000_0000,
            root < 0x200_0000_0000_0000,
            step > 0 ==> step == pow2(k),
        decreases step,
    {
        let candidate: u64 = root + step;
        proof {
            assert(candidate * candidate <= 0x4_0000_0000_0000_0000_0000_0000_0000)
                by (nonlinear_arith)
                requires
                    candidate <= 0x200_0000_0000_0000,
            ;
        }
        let ghost reach = root + 2 * step;
        if (candidate as u128) * (candidate as u128) <= n {
            root = candidate;
        }
        proof {
            assert(n < reach * reach);
            assert(n < (root + step) * (root + step)) by {
                if root == candidate {
                    assert(reach == root + step);
                } else {
                    assert(candidate == root + step);
                }
            }
            if k > 0 {
                lemma_pow2_unfold(k);
                k = (k - 1) as nat;
                assert(2 * (step / 2) == step);
            } else {
                lemma2_to64();
            }
        }
        step = step / 2;
    }
    root
}

// ---------------------------------------------------------------------------
// Proofs
// ---------------------------------------------------------------------------

/// The length of a positive number brackets it between powers of two.
pub(crate) proof fn lemma_bit_length(n: nat)
    requires
        n > 0,
    ensures
        bit_length(n) > 0,
        pow2((bit_length(n) - 1) as nat) <= n < pow2(bit_length(n)),
    decreases n,
{
    lemma2_to64();
    if n > 1 {
        lemma_bit_length(n / 2);
        let l = bit_length(n / 2);
        lemma_pow2_unfold(l);
        lemma_pow2_unfold(l + 1);
    } else {
        assert(bit_length(0) == 0);
        assert(n / 2 == 0);
    }
}

/// Only one length brackets a number.
pub(crate) proof fn lemma_bit_length_is(n: nat, l: nat)
    requires
        l > 0,
        pow2((l - 1) as nat) <= n < pow2(l),
    ensures
        bit_length(n) == l,
{
    lemma_pow2_pos((l - 1) as nat);
    lemma_bit_length(n);
    let k = bit_length(n);
    if k < l {
        if k < l - 1 {
            lemma_pow2_strictly_increases(k, (l - 1) as nat);
        }
    } else if l < k {
        if l < k - 1 {
            lemma_pow2_strictly_increases(l, (k - 1) as nat);
        }
    }
}

/// Appending `k` digits adds `k` to the length.
pub(crate) proof fn lemma_bit_length_append(n: nat, k: nat, t: nat)
    requires
        n > 0,
        t < pow2(k),
    ensures
        bit_length(n * pow2(k) + t) == bit_length(n) + k,
{
    lemma_bit_length(n);
    let l = bit_length(n);
    lemma_pow2_adds((l - 1) as nat, k);
    lemma_pow2_adds(l, k);
    lemma_mul_inequality(pow2((l - 1) as nat) as int, n as int, pow2(k) as int);
    lemma_mul_inequality((n + 1) as int, pow2(l) as int, pow2(k) as int);
    lemma_mul_is_distributive_add_other_way(pow2(k) as int, n as int, 1);
    lemma_bit_length_is(n * pow2(k) + t, l + k);
}

/// Digits below the rounding position matter only through whether any of them is set: cutting
/// `k` digits off and remembering that in `more` does not change the result.
pub(crate) proof fn lemma_cut(n: nat, k: nat, e: int, more: bool)
    requires
        n / pow2(k) > 0,
        unit_exponent(n / pow2(k), e + k) - (e + k) >= 1,
    ensures
        nearest(n, e, more) == nearest(n / pow2(k), e + k, more || n % pow2(k) != 0),
{
    lemma_pow2_pos(k);
    let p = pow2(k);
    let m = n / p;
    let t = n % p;
    lemma_fundamental_div_mod(n as int, p as int);
    lemma_mul_is_commutative(p as int, m as int);
    assert(n == m * p + t);
    lemma_bit_length_append(m, k, t);
    assert(n > 0) by {
        lemma_mul_strictly_positive(m as int, p as int);
    }
    assert(unit_exponent(n, e) == unit_exponent(m, e + k));
    let s = (unit_exponent(m, e + k) - (e + k)) as nat;
    let d = pow2(s);
    let half = pow2((s - 1) as nat);
    lemma_pow2_pos(s);
    lemma_pow2_pos((s - 1) as nat);
    lemma_pow2_adds(k, s);
    lemma_pow2_adds(k, (s - 1) as nat);
    lemma_div_denominator(n as int, p as int, d as int);
    assert(n / (p * d) == m / d);
    lemma_fundamental_div_mod(m as int, d as int);
    let q = m / d;
    let r = m % d;
    assert(m * p == (d * q + r) * p);
    lemma_mul_is_distributive_add_other_way(p as int, (d * q) as int, r as int);
    assert(d * q * p == q * (p * d)) by (nonlinear_arith);
    assert(n == q * (p * d) + (r * p + t));
    lemma_mul_inequality((r + 1) as int, d as int, p as int);
    lemma_mul_is_distributive_add_other_way(p as int, r as int, 1);
    lemma_mul_is_commutative(p as int, d as int);
    lemma_fundamental_div_mod_converse(n as int, (p * d) as int, q as int, (r * p + t) as int);
    let rest = r * p + t;
    assert(n % (p * d) == rest);
    assert(pow2((s + k - 1) as nat) == p * half);
    lemma_mul_is_commutative(p as int, half as int);
    if r > half {
        lemma_mul_strict_inequality(half as int, r as int, p as int);
    } else if r < half {
        lemma_mul_inequality((r + 1) as int, half as int, p as int);
    }
}

/// Enough digits put the rounding position above the last of them.
pub(crate) proof fn lemma_unit_above(n: nat, e: int)
    requires
        n >= pow2(53),
    ensures
        unit_exponent(n, e) - e >= 1,
{
    lemma_pow2_pos(53);
    lemma_bit_length(n);
    let l = bit_length(n);
    if l <= 53 {
        if l < 53 {
            lemma_pow2_strictly_increases(l, 53);
        }
    }
}

/// A rounded significand has at most 53 digits, or is the next power of two.
pub(crate) proof fn lemma_rounded_bound(n: nat, e: int, more: bool)
    requires
        n > 0,
    ensures
        rounded(n, e, more) <= pow2(53),
{
    lemma_bit_length(n);
    let l = bit_length(n);
    let shift = unit_exponent(n, e) - e;
    if shift <= 0 {
        let k = (-shift) as nat;
        lemma_pow2_pos(k);
        lemma_mul_inequality(n as int, pow2(l) as int, pow2(k) as int);
        lemma_pow2_adds(l, k);
        if l + k < 53 {
            lemma_pow2_strictly_increases(l + k, 53);
        }
    } else {
        let d = pow2(shift as nat);
        lemma_pow2_pos(shift as nat);
        lemma_pow2_adds(53, shift as nat);
        if l < 53 + shift {
            lemma_pow2_strictly_increases(l, (53 + shift) as nat);
        }
        assert(n < pow2(53) * d);
        assert(n / d < pow2(53)) by {
            lemma_mul_is_commutative(pow2(53) as int, d as int);
            lemma_multiply_divide_lt(n as int, d as int, pow2(53) as int);
        }
    }
}

/// Where the exponent range does not end the significand, it has all its digits.
pub(crate) proof fn lemma_rounded_full(n: nat, e: int)
    requires
        n > 0,
        unit_exponent(n, e) > -1074,
    ensures
        rounded(n, e, false) >= pow2(52),
{
    lemma_bit_length(n);
    let l = bit_length(n);
    let shift = l - 53;
    assert(unit_exponent(n, e) - e == shift);
    if shift <= 0 {
        let k = (-shift) as nat;
        lemma_pow2_adds((l - 1) as nat, k);
        lemma_mul_inequality(pow2((l - 1) as nat) as int, n as int, pow2(k) as int);
    } else {
        let d = pow2(shift as nat);
        lemma_pow2_pos(shift as nat);
        lemma_pow2_adds(52, shift as nat);
        lemma_div_is_ordered((pow2(52) * d) as int, n as int, d as int);
        lemma_div_multiples_vanish(pow2(52) as int, d as int);
        lemma_mul_is_commutative(pow2(52) as int, d as int);
    }
}

pub(crate) proof fn lemma_nearest_bound(n: nat, e: int)
    ensures
        0 <= nearest(n, e, false) <= INFINITE,
{
    if n > 0 {
        lemma_mul_nonnegative(unit_exponent(n, e) + 1074, HIDDEN as int);
    }
}

/// A number does not depend on the exponent that it is written with.
pub(crate) proof fn lemma_rescale(n: nat, e: int, j: nat)
    ensures
        nearest(n * pow2(j), e - j, false) == nearest(n, e, false),
{
    lemma_pow2_pos(j);
    if n > 0 {
        let p = pow2(j);
        let wide = n * p;
        lemma_bit_length_append(n, j, 0);
        lemma_mul_strictly_positive(n as int, p as int);
        assert(unit_exponent(wide, e - j) == unit_exponent(n, e));
        let shift = unit_exponent(n, e) - e;
        if shift >= 1 {
            lemma_div_multiples_vanish(n as int, p as int);
            lemma_mul_is_commutative(n as int, p as int);
            lemma_mod_multiples_basic(n as int, p as int);
            lemma_cut(wide, j, e - j, false);
        } else if shift + j <= 0 {
            lemma_pow2_adds(j, (-shift - j) as nat);
            lemma_mul_is_associative(n as int, p as int, pow2((-shift - j) as nat) as int);
        } else {
            let up = pow2((-shift) as nat);
            let down = pow2((shift + j) as nat);
            lemma_pow2_pos((shift + j) as nat);
            lemma_pow2_pos((shift + j - 1) as nat);
            lemma_pow2_adds((-shift) as nat, (shift + j) as nat);
            lemma_mul_is_associative(n as int, up as int, down as int);
            lemma_div_multiples_vanish((n * up) as int, down as int);
            lemma_mul_is_commutative((n * up) as int, down as int);
            lemma_mod_multiples_basic((n * up) as int, down as int);
            assert(wide / down == n * up);
            assert(wide % down == 0);
        }
    } else {
        assert(0 * pow2(j) == 0) by (nonlinear_arith);
    }
}

/// Rounding keeps the order of numbers.
pub(crate) proof fn lemma_nearest_ordered(n1: nat, n2: nat, e: int)
    requires
        n1 <= n2,
    ensures
        nearest(n1, e, false) <= nearest(n2, e, false),
{
    lemma_pow2_values();
    if n1 > 0 {
        lemma_bit_length(n1);
        lemma_bit_length(n2);
        let l1 = bit_length(n1);
        let l2 = bit_length(n2);
        if l2 < l1 {
            if l2 < l1 - 1 {
                lemma_pow2_strictly_increases(l2, (l1 - 1) as nat);
            }
        }
        let u1 = unit_exponent(n1, e);
        let u2 = unit_exponent(n2, e);
        assert(u1 <= u2);
        lemma_rounded_bound(n1, e, false);
        if u1 < u2 {
            lemma_rounded_full(n2, e);
            lemma_mul_inequality(u1 + 1, u2, HIDDEN as int);
        } else {
            let shift = u1 - e;
            if shift <= 0 {
                lemma_mul_inequality(n1 as int, n2 as int, pow2((-shift) as nat) as int);
            } else {
                let d = pow2(shift as nat);
                lemma_pow2_pos(shift as nat);
                lemma_div_is_ordered(n1 as int, n2 as int, d as int);
                lemma_fundamental_div_mod(n1 as int, d as int);
                lemma_fundamental_div_mod(n2 as int, d as int);
                if n1 / d == n2 / d {
                    assert(n1 % d <= n2 % d);
                }
            }
        }
    } else if n2 > 0 {
        lemma_mul_nonnegative(unit_exponent(n2, e) + 1074, HIDDEN as int);
    }
}

pub(crate) proof fn lemma_floor_root_is(n: nat, r: nat)
    requires
        r * r <= n < (r + 1) * (r + 1),
    ensures
        floor_root(n) == r,
{
    let q = floor_root(n);
    assert(q * q <= n < (q + 1) * (q + 1));
    if q < r {
        assert((q + 1) * (q + 1) <= r * r) by (nonlinear_arith)
            requires
                q + 1 <= r,
        ;
    } else if r < q {
        assert((r + 1) * (r + 1) <= q * q) by (nonlinear_arith)
            requires
                r + 1 <= q,
        ;
    }
}

pub(crate) proof fn lemma_root_exists(n: nat)
    ensures
        exists|r: nat| #![trigger r * r] r * r <= n < (r + 1) * (r + 1),
    decreases n,
{
    if n == 0 {
        let r: nat = 0;
        assert(r * r <= n < (r + 1) * (r + 1)) by (nonlinear_arith)
            requires
                r == 0,
                n == 0,
        ;
    } else {
        lemma_root_exists((n - 1) as nat);
        let r = choose|r: nat| #![trigger r * r] r * r <= n - 1 < (r + 1) * (r + 1);
        if n >= (r + 1) * (r + 1) {
            let q = r + 1;
            assert((q + 1) * (q + 1) > q * q) by (nonlinear_arith);
            assert(q * q <= n < (q + 1) * (q + 1));
        } else {
            assert(r * r <= n < (r + 1) * (r + 1));
        }
    }
}

/// Shifting a number by an even count of digits shifts its root by half of them.
pub(crate) proof fn lemma_root_cut(n: nat, r: nat, j: nat)
    requires
        r * r <= n < (r + 1) * (r + 1),
    ensures
        ({
            let wide = n * (pow2(j) * pow2(j));
            let root = floor_root(wide);
            &&& root / pow2(j) == r
            &&& (r * r != n) == (root * root != wide || root % pow2(j) != 0)
        }),
{
    let p = pow2(j);
    lemma_pow2_pos(j);
    let wide = n * (p * p);
    lemma_root_exists(wide);
    let root = floor_root(wide);
    assert(root * root <= wide < (root + 1) * (root + 1));
    assert((r * p) * (r * p) <= wide) by (nonlinear_arith)
        requires
            r * r <= n,
            wide == n * (p * p),
    ;
    assert(wide < ((r + 1) * p) * ((r + 1) * p)) by (nonlinear_arith)
        requires
            n < (r + 1) * (r + 1),
            wide == n * (p * p),
            p > 0,
    ;
    let low = r * p;
    let high = (r + 1) * p;
    assert(low <= root) by (nonlinear_arith)
        requires
            low * low <= wide,
            wide < (root + 1) * (root + 1),
            low >= 0,
            root >= 0,
    ;
    assert(root < high) by (nonlinear_arith)
        requires
            root * root <= wide,
            wide < high * high,
            high >= 0,
            root >= 0,
    ;
    lemma_mul_is_distributive_add_other_way(p as int, r as int, 1);
    let t = root - low;
    lemma_fundamental_div_mod_converse(root as int, p as int, r as int, t);
    if r * r == n {
        assert(low * low == wide) by (nonlinear_arith)
            requires
                low == r * p,
                wide == n * (p * p),
                r * r == n,
        ;
        assert(low * low < (low + 1) * (low + 1)) by (nonlinear_arith);
        lemma_floor_root_is(wide, low as nat);
    } else if root * root == wide && root % p == 0 {
        assert(root == low);
        assert(r * r == n) by (nonlinear_arith)
            requires
                (r * p) * (r * p) == n * (p * p),
                p > 0,
        ;
    }
}

/// A quotient with `j` more digits, cut back, is the shorter quotient.
pub(crate) proof fn lemma_quotient_cut(a: nat, d: nat, j: nat)
    requires
        d > 0,
    ensures
        ({
            let wide = a * pow2(j);
            &&& (wide / d) / pow2(j) == a / d
            &&& (a % d != 0) == (wide % d != 0 || (wide / d) % pow2(j) != 0)
        }),
{
    let p = pow2(j);
    lemma_pow2_pos(j);
    let wide = a * p;
    lemma_div_denominator(wide as int, d as int, p as int);
    lemma_mul_is_commutative(d as int, p as int);
    lemma_mul_is_commutative(a as int, p as int);
    lemma_div_denominator(wide as int, p as int, d as int);
    lemma_div_multiples_vanish(a as int, p as int);
    let n = wide / d;
    assert(n / p == a / d);
    lemma_fundamental_div_mod(a as int, d as int);
    lemma_fundamental_div_mod(wide as int, d as int);
    lemma_fundamental_div_mod(n as int, p as int);
    if a % d == 0 {
        let q = a / d;
        assert(wide == (q * p) * d) by (nonlinear_arith)
            requires
                wide == a * p,
                a == d * q,
        ;
        lemma_fundamental_div_mod_converse(wide as int, d as int, (q * p) as int, 0);
        lemma_fundamental_div_mod_converse(n as int, p as int, q as int, 0);
    } else if wide % d == 0 && n % p == 0 {
        let x = n / p;
        assert(a == x * d) by (nonlinear_arith)
            requires
                a * p == d * (p * x),
                p > 0,
        ;
        lemma_fundamental_div_mod_converse(a as int, d as int, x as int, 0);
    }
}

/// The powers of two that the format is made of.
pub(crate) proof fn lemma_pow2_values()
    ensures
        pow2(0) == 1,
        pow2(1) == 2,
        pow2(52) == HIDDEN,
        pow2(53) == 2 * HIDDEN,
        pow2(64) == 0x1_0000_0000_0000_0000,
{
    lemma2_to64();
    lemma2_to64_rest();
}

pub(crate) proof fn lemma_leading_zeros(i: u64)
    ensures
        bit_length(i as nat) == 64 - vstd::std_specs::bits::u64_leading_zeros(i),
    decreases i,
{
    reveal(vstd::std_specs::bits::u64_leading_zeros);
    if i > 0 {
        lemma_leading_zeros(i / 2);
    }
}

pub(crate) proof fn lemma_one_shl(k: u32)
    requires
        k < 128,
    ensures
        (1u128 << k) == pow2(k as nat),
    decreases k,
{
    if k == 0 {
        lemma2_to64();
        assert(1u128 << 0u32 == 1) by (bit_vector);
    } else {
        lemma_one_shl((k - 1) as u32);
        lemma_pow2_unfold(k as nat);
        let j = (k - 1) as u32;
        assert(1u128 << k == 2 * (1u128 << j)) by (bit_vector)
            requires
                0 < k < 128,
                j == k - 1,
        ;
    }
}

} // verus!
