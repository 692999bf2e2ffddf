//! The real numbers that doubles stand for, and how near the operations come to exact results.

use crate::double::{lemma_magnitude_ordered, lemma_magnitude_parts, Double};
use crate::rounding::{
    bit_length, floor_root, lemma_bit_length, lemma_bit_length_append, lemma_bit_length_is,
    lemma_nearest_bound, lemma_nearest_ordered, lemma_pow2_values, lemma_root_exists,
    lemma_rounded_bound, lemma_rounded_full, lemma_unit_above, nearest, rounded, unit_exponent,
    HIDDEN, INFINITE,
};
use vstd::arithmetic::div_mod::*;
use vstd::arithmetic::mul::*;
use vstd::arithmetic::power2::*;
use vstd::prelude::*;

verus! {

/// `2^e`
pub open spec fn power(e: int) -> real {
    if e >= 0 {
        pow2(e as nat) as real
    } else {
        1real / (pow2((-e) as nat) as real)
    }
}

/// The absolute value of a finite number.
pub open spec fn size(x: Double) -> real {
    (x.significand() as real) * power(x.exponent())
}

/// A trillionth part, about: a generous bound on the relative error of an operation.
pub open spec fn slack(x: real) -> real {
    x / 1099511627776real
}

/// Half the smallest number: the absolute error of an operation next to zero.
pub open spec fn least() -> real {
    power(-1075)
}

// ---------------------------------------------------------------------------
// Powers of two
// ---------------------------------------------------------------------------

pub(crate) proof fn lemma_power_positive(e: int)
    ensures
        power(e) > 0real,
{
    lemma_pow2_pos(if e >= 0 {
        e as nat
    } else {
        (-e) as nat
    });
    if e < 0 {
        let p = pow2((-e) as nat) as real;
        assert(1real / p > 0real) by (nonlinear_arith)
            requires
                p > 0real,
        ;
    }
}

proof fn lemma_power_doubles(e: int)
    ensures
        power(e + 1) == 2real * power(e),
{
    lemma_pow2_values();
    if e >= 0 {
        lemma_pow2_unfold((e + 1) as nat);
    } else {
        lemma_pow2_unfold((-e) as nat);
        lemma_pow2_pos((-e - 1) as nat);
        let p = pow2((-e - 1) as nat) as real;
        let q = pow2((-e) as nat) as real;
        assert(q == 2real * p);
        assert(1real / p == 2real * (1real / q)) by (nonlinear_arith)
            requires
                p > 0real,
                q == 2real * p,
        ;
        if e == -1 {
            assert(1real / p == 1real) by (nonlinear_arith)
                requires
                    p == 1real,
            ;
        }
    }
}

/// Multiplying both sides by a number that is not negative keeps their order.
pub(crate) proof fn lemma_scaled_ordered(a: real, b: real, c: real)
    requires
        a <= b,
        c >= 0real,
    ensures
        a * c <= b * c,
{
    assert(a * c <= b * c) by (nonlinear_arith)
        requires
            a <= b,
            c >= 0real,
    ;
}

pub(crate) proof fn lemma_positive_product(a: real, b: real)
    requires
        a > 0real,
        b > 0real,
    ensures
        a * b > 0real,
{
    assert(a * b > 0real) by (nonlinear_arith)
        requires
            a > 0real,
            b > 0real,
    ;
}

pub(crate) proof fn lemma_associates(a: real, b: real, c: real)
    ensures
        a * (b * c) == (a * b) * c,
{
    assert(a * (b * c) == (a * b) * c) by (nonlinear_arith);
}

pub(crate) proof fn lemma_commutes(a: real, b: real)
    ensures
        a * b == b * a,
{
    assert(a * b == b * a) by (nonlinear_arith);
}

pub(crate) proof fn lemma_moved(a: real, b: real, c: real)
    ensures
        a * (b * c) == (a * c) * b,
{
    lemma_commutes(b, c);
    lemma_associates(a, c, b);
}

/// Two products multiply factor by factor.
pub(crate) proof fn lemma_regrouped(a: real, b: real, c: real, d: real)
    ensures
        (a * b) * (c * d) == (a * c) * (b * d),
{
    lemma_moved(a * b, c, d);
    lemma_associates(a, b, d);
    lemma_associates(a, c, b * d);
    lemma_moved(a, c, b * d);
}

pub(crate) proof fn lemma_distributes(a: real, b: real, c: real)
    ensures
        (a + b) * c == a * c + b * c,
{
    assert((a + b) * c == a * c + b * c) by (nonlinear_arith);
}

/// Products of integers are products of real numbers.
pub(crate) proof fn lemma_product_as_real(a: int, b: int)
    ensures
        (a * b) as real == (a as real) * (b as real),
{
    assert((a * b) as real == (a as real) * (b as real)) by (nonlinear_arith);
}

pub(crate) proof fn lemma_power_shift(e: int, j: nat)
    ensures
        power(e + j) == power(e) * (pow2(j) as real),
    decreases j,
{
    lemma_pow2_values();
    let x = power(e);
    let one = pow2(0) as real;
    assert(x * one == x) by (nonlinear_arith)
        requires
            one == 1real,
    ;
    if j > 0 {
        lemma_power_shift(e, (j - 1) as nat);
        lemma_power_doubles(e + j - 1);
        lemma_pow2_unfold(j);
        let a = power(e);
        let p = pow2((j - 1) as nat) as real;
        let q = pow2(j) as real;
        assert(q == 2real * p);
        assert(2real * (a * p) == a * q) by (nonlinear_arith)
            requires
                q == 2real * p,
        ;
    }
}

pub(crate) proof fn lemma_power_adds(a: int, b: int)
    ensures
        power(a + b) == power(a) * power(b),
{
    if b >= 0 {
        lemma_power_shift(a, b as nat);
    } else {
        lemma_power_shift(a + b, (-b) as nat);
        lemma_pow2_pos((-b) as nat);
        let p = pow2((-b) as nat) as real;
        let s = power(a + b);
        assert(s == (s * p) * (1real / p)) by (nonlinear_arith)
            requires
                p > 0real,
        ;
    }
}

pub(crate) proof fn lemma_power_ordered(a: int, b: int)
    requires
        a <= b,
    ensures
        power(a) <= power(b),
    decreases b - a,
{
    if a < b {
        lemma_power_ordered(a, b - 1);
        lemma_power_doubles(b - 1);
        lemma_power_positive(b - 1);
    }
}

// ---------------------------------------------------------------------------
// Rounding
// ---------------------------------------------------------------------------

/// The size of a number whose encoding is built from a rounded significand.
proof fn lemma_size_of_code(x: Double, unit: int, m: nat)
    requires
        x.finite(),
        unit >= -1074,
        m <= pow2(53),
        unit > -1074 ==> m >= pow2(52),
        x.magnitude() == (unit + 1074) * HIDDEN + m,
    ensures
        size(x) == (m as real) * power(unit),
        x.exponent() == unit || x.exponent() == unit + 1,
{
    lemma_pow2_values();
    let field = x.magnitude() / HIDDEN as int;
    let fraction = x.magnitude() % HIDDEN as int;
    if m < HIDDEN {
        lemma_fundamental_div_mod_converse(x.magnitude(), HIDDEN as int, unit + 1074, m as int);
    } else if m < 2 * HIDDEN {
        lemma_fundamental_div_mod_converse(
            x.magnitude(),
            HIDDEN as int,
            unit + 1075,
            m - HIDDEN,
        );
    } else {
        lemma_fundamental_div_mod_converse(x.magnitude(), HIDDEN as int, unit + 1076, 0);
        lemma_power_doubles(unit);
        assert(m == 2 * HIDDEN);
        let h = HIDDEN as real;
        let p = power(unit);
        assert((m as real) == 2real * h);
        assert(h * (2real * p) == (2real * h) * p) by (nonlinear_arith);
    }
}

/// Rounding gives a multiple of its unit that is at most half a unit away.
proof fn lemma_rounded_near(n: nat, e: int, more: bool)
    requires
        n > 0,
        unit_exponent(n, e) - e >= 1,
    ensures
        ({
            let j = (unit_exponent(n, e) - e) as nat;
            let m = rounded(n, e, more);
            let half = pow2((j - 1) as nat);
            &&& m * pow2(j) - half <= n <= m * pow2(j) + half
            &&& more ==> n + 1 <= m * pow2(j) + half
        }),
{
    let j = (unit_exponent(n, e) - e) as nat;
    let d = pow2(j);
    let half = pow2((j - 1) as nat);
    lemma_pow2_unfold(j);
    lemma_pow2_pos((j - 1) as nat);
    let q = n / d;
    let rest = n % d;
    lemma_fundamental_div_mod(n as int, d as int);
    lemma_mul_is_commutative(d as int, q as int);
    assert(n == q * d + rest);
    assert((q + 1) * d == q * d + d) by (nonlinear_arith);
}

/// Half a unit in the last place around `n * 2^e`.
pub(crate) open spec fn half_unit(n: nat, e: int) -> real {
    power(unit_exponent(n, e) - 1)
}

/// A rounded number is at most half a unit away from what it was rounded from, and half a unit is
/// little against the number.
pub(crate) proof fn lemma_near(n: nat, e: int, more: bool, r: Double)
    requires
        n > 0,
        r.finite(),
        r.magnitude() == nearest(n, e, more),
        more ==> unit_exponent(n, e) - e >= 1,
    ensures
        0real < half_unit(n, e),
        size(r) - half_unit(n, e) <= (n as real) * power(e),
        (n as real) * power(e) <= size(r) + half_unit(n, e),
        more ==> ((n + 1) as real) * power(e) <= size(r) + half_unit(n, e),
        half_unit(n, e) <= slack(size(r)) + least(),
        unit_exponent(n, e) > -1074 ==> half_unit(n, e) <= slack(size(r)),
        r.exponent() == unit_exponent(n, e) || r.exponent() == unit_exponent(n, e) + 1,
{
    lemma_pow2_values();
    lemma_power_positive(-1075);
    let unit = unit_exponent(n, e);
    let m = rounded(n, e, more);
    lemma_rounded_bound(n, e, more);
    if unit > -1074 {
        lemma_rounded_full(n, e);
    }
    lemma_size_of_code(r, unit, m);
    lemma_power_positive(unit - 1);
    lemma_power_positive(unit);
    lemma_power_positive(e);
    lemma_power_doubles(unit - 1);
    let h = half_unit(n, e);
    let v = size(r);
    let p = power(e);
    if unit <= e {
        let j = (e - unit) as nat;
        lemma_power_shift(unit, j);
        let a = n as real;
        let b = pow2(j) as real;
        let u = power(unit);
        lemma_product_as_real(n as int, pow2(j) as int);
        assert((m as real) == a * b);
        assert(a * (u * b) == (a * b) * u) by (nonlinear_arith);
    } else {
        let j = (unit - e) as nat;
        lemma_rounded_near(n, e, more);
        lemma_power_shift(e, j);
        lemma_power_shift(e, (j - 1) as nat);
        let d = pow2(j) as real;
        let half = pow2((j - 1) as nat) as real;
        let a = n as real;
        let k = m as real;
        lemma_product_as_real(m as int, pow2(j) as int);
        assert(k * d - half <= a && a <= k * d + half);
        assert(v == k * (p * d));
        assert(h == p * half);
        assert(k * (p * d) - p * half <= a * p) by (nonlinear_arith)
            requires
                k * d - half <= a,
                p > 0real,
        ;
        assert(a * p <= k * (p * d) + p * half) by (nonlinear_arith)
            requires
                a <= k * d + half,
                p > 0real,
        ;
        if more {
            let b = (n + 1) as real;
            assert(b <= k * d + half);
            assert(b * p <= k * (p * d) + p * half) by (nonlinear_arith)
                requires
                    b <= k * d + half,
                    p > 0real,
            ;
        }
    }
    if unit > -1074 {
        let k = m as real;
        assert(k >= HIDDEN as real);
        lemma_scaled_ordered(4503599627370496real, k, 2real * h);
        assert(4503599627370496real * (2real * h) <= v);
    } else {
        assert(h == least());
        lemma_size_positive(r);
    }
}

// ---------------------------------------------------------------------------
// Operations
// ---------------------------------------------------------------------------

/// Sizes are not negative, and zero only for zeros.
pub(crate) proof fn lemma_size_positive(x: Double)
    requires
        x.finite(),
    ensures
        size(x) >= 0real,
        x.zero() ==> size(x) == 0real,
        !x.zero() ==> size(x) > 0real,
{
    lemma_magnitude_parts(x);
    lemma_power_positive(x.exponent());
    let m = x.significand() as real;
    let p = power(x.exponent());
    if x.zero() {
        assert(m == 0real);
        assert(0real * p == 0real);
    } else {
        assert(m >= 1real);
        lemma_positive_product(m, p);
    }
}

/// The size of a number that is known.
pub(crate) proof fn lemma_size_is(x: Double, k: nat, value: real)
    requires
        x.exponent() == -k,
        x.significand() as real == value * (pow2(k) as real),
    ensures
        size(x) == value,
{
    lemma_pow2_pos(k);
    let p = pow2(k) as real;
    assert(value == (value * p) * (1real / p)) by (nonlinear_arith)
        requires
            p > 0real,
    ;
    if k == 0 {
        lemma_pow2_values();
        assert(1real / 1real == 1real);
    }
}

/// A number with a positive exponent is large.
pub(crate) proof fn lemma_size_large(x: Double)
    requires
        x.finite(),
        x.exponent() > 0,
    ensures
        size(x) >= 1000000real,
{
    lemma_magnitude_parts(x);
    lemma_pow2_values();
    lemma_power_ordered(0, x.exponent());
    let m = x.significand() as real;
    let p = power(x.exponent());
    assert(p >= 1real);
    lemma_scaled_ordered(1real, p, m);
    lemma_commutes(m, p);
    assert(1real * m == m);
}

/// Sizes are ordered as magnitudes.
pub(crate) proof fn lemma_size_ordered(x: Double, y: Double)
    requires
        y.finite(),
        x.magnitude() <= y.magnitude(),
    ensures
        size(x) <= size(y),
{
    let e = if x.exponent() <= y.exponent() {
        x.exponent()
    } else {
        y.exponent()
    };
    lemma_magnitude_ordered(x, y, e);
    lemma_power_positive(e);
    let i = (x.exponent() - e) as nat;
    let j = (y.exponent() - e) as nat;
    lemma_power_shift(e, i);
    lemma_power_shift(e, j);
    lemma_product_as_real(x.significand() as int, pow2(i) as int);
    lemma_product_as_real(y.significand() as int, pow2(j) as int);
    let a = x.significand() as real;
    let b = y.significand() as real;
    let u = pow2(i) as real;
    let v = pow2(j) as real;
    let p = power(e);
    lemma_moved(a, p, u);
    lemma_moved(b, p, v);
    lemma_scaled_ordered(a * u, b * v, p);
}

/// Different magnitudes stand for different sizes.
pub(crate) proof fn lemma_size_strict(x: Double, y: Double)
    requires
        x.finite(),
        y.finite(),
        x.magnitude() < y.magnitude(),
    ensures
        size(x) < size(y),
{
    lemma_magnitude_parts(x);
    lemma_magnitude_parts(y);
    lemma_pow2_values();
    if x.exponent() > y.exponent() {
        lemma_mul_inequality(y.exponent() + 1075, x.exponent() + 1074, HIDDEN as int);
        lemma_mul_is_distributive_add_other_way(HIDDEN as int, y.exponent() + 1074, 1);
    }
    let c = (y.exponent() - x.exponent()) as nat;
    let p = power(x.exponent());
    lemma_power_positive(x.exponent());
    lemma_power_shift(x.exponent(), c);
    lemma_product_as_real(y.significand() as int, pow2(c) as int);
    lemma_pow2_pos(c);
    let m = x.significand() as real;
    let n = y.significand() as real;
    let u = pow2(c) as real;
    lemma_moved(n, p, u);
    assert(x.significand() < y.significand() * pow2(c)) by {
        if c > 0 {
            if c > 1 {
                lemma_pow2_strictly_increases(1, c);
            }
            lemma_mul_inequality(2, pow2(c) as int, y.significand() as int);
            lemma_mul_is_commutative(pow2(c) as int, y.significand() as int);
        } else {
            lemma_mul_basics(y.significand() as int);
        }
    }
    lemma_positive_product(n * u - m, p);
    lemma_distributes(n * u, -m, p);
    lemma_distributes(m, -m, p);
    assert(0real * p == 0real);
}

/// Whether a computed size differs little from the true one.
pub open spec fn near(computed: real, true_size: real) -> bool {
    &&& computed <= true_size + slack(computed) + least()
    &&& true_size <= computed + slack(computed) + least()
}

/// A product that does not overflow is near the exact product.
pub proof fn law_times_near(a: Double, b: Double)
    requires
        a.finite(),
        b.finite(),
        a.times(b).finite(),
    ensures
        near(size(a.times(b)), size(a) * size(b)),
{
    reveal(Double::times_spec);
    lemma_least();
    let r = a.times(b);
    let n = a.significand() * b.significand();
    let e = a.exponent() + b.exponent();
    lemma_nearest_bound(n, e);
    lemma_power_adds(a.exponent(), b.exponent());
    lemma_product_as_real(a.significand() as int, b.significand() as int);
    let x = a.significand() as real;
    let y = b.significand() as real;
    let p = power(a.exponent());
    let q = power(b.exponent());
    lemma_regrouped(x, y, p, q);
    assert(size(a) * size(b) == (n as real) * power(e));
    if n > 0 {
        lemma_near(n, e, false, r);
    } else {
        lemma_size_positive(r);
        assert(n as real == 0real);
        assert(0real * power(e) == 0real);
    }
}

/// A sum of numbers that are not negative is near the exact sum, if it does not overflow.
pub proof fn law_plus_near(a: Double, b: Double)
    requires
        a.finite(),
        b.finite(),
        !a.negative(),
        !b.negative(),
        a.plus(b).finite(),
    ensures
        near(size(a.plus(b)), size(a) + size(b)),
        !a.plus(b).negative(),
{
    reveal(Double::plus_spec);
    lemma_least();
    let r = a.plus(b);
    let e = a.sum_exponent(b);
    let i = (a.exponent() - e) as nat;
    let j = (b.exponent() - e) as nat;
    let x = a.significand() as real;
    let y = b.significand() as real;
    let u = pow2(i) as real;
    let v = pow2(j) as real;
    let p = power(e);
    lemma_pow2_pos(i);
    lemma_pow2_pos(j);
    lemma_mul_nonnegative(a.significand() as int, pow2(i) as int);
    lemma_mul_nonnegative(b.significand() as int, pow2(j) as int);
    let n = a.exact_sum(b) as nat;
    lemma_nearest_bound(n, e);
    lemma_power_shift(e, i);
    lemma_power_shift(e, j);
    lemma_product_as_real(a.significand() as int, pow2(i) as int);
    lemma_product_as_real(b.significand() as int, pow2(j) as int);
    assert((n as real) == x * u + y * v);
    lemma_distributes(x * u, y * v, p);
    lemma_moved(x, p, u);
    lemma_moved(y, p, v);
    assert(size(a) + size(b) == (n as real) * p);
    if n > 0 {
        lemma_near(n, e, false, r);
    } else {
        lemma_size_positive(r);
        assert(n as real == 0real);
        assert(0real * p == 0real);
    }
}

/// A quotient by a normal number is near the exact quotient, if it does not overflow.
pub proof fn law_over_near(a: Double, b: Double)
    requires
        a.finite(),
        b.finite(),
        b.exponent() > -1074,
        a.exponent() - b.exponent() <= 700,
    ensures
        a.over(b).finite(),
        (size(a.over(b)) - slack(size(a.over(b))) - least()) * size(b) <= size(a),
        size(a) <= (size(a.over(b)) + slack(size(a.over(b))) + least()) * size(b),
        !a.zero() && a.exponent() - b.exponent() >= -700 ==> (size(a.over(b)) - slack(
            size(a.over(b)),
        )) * size(b) <= size(a),
{
    reveal(Double::over_spec);
    lemma_over_range(a, b);
    lemma_least();
    lemma_pow2_values();
    lemma_magnitude_parts(a);
    lemma_magnitude_parts(b);
    lemma_size_positive(a);
    lemma_size_positive(b);
    let r = a.over(b);
    let den = b.significand();
    let wide = a.significand() * pow2(128);
    let n = wide / den;
    let e = a.exponent() - b.exponent() - 128;
    let more = wide % den != 0;
    lemma_fundamental_div_mod(wide as int, den as int);
    lemma_pow2_pos(128);
    if a.significand() == 0 {
        lemma_mul_basics(pow2(128) as int);
        assert(wide == 0 && n == 0);
        lemma_size_positive(r);
        lemma_scaled_ordered(0real - slack(0real) - least(), 0real, size(b));
        lemma_scaled_ordered(0real, 0real + slack(0real) + least(), size(b));
        assert(0real * size(b) == 0real);
    } else {
        lemma_pow2_adds(53, 75);
        lemma_pow2_strictly_increases(53, 75);
        lemma_mul_inequality(1, a.significand() as int, pow2(128) as int);
        lemma_mul_inequality(den as int, pow2(75) as int, pow2(53) as int);
        lemma_mul_is_commutative(pow2(53) as int, pow2(75) as int);
        lemma_div_is_ordered((den * pow2(53)) as int, wide as int, den as int);
        lemma_div_multiples_vanish(pow2(53) as int, den as int);
        assert(n >= pow2(53));
        lemma_unit_above(n, e);
        lemma_length_above(n, 53);
        assert(nearest(n, e, more) >= 0) by {
            lemma_mul_nonnegative(unit_exponent(n, e) + 1074, HIDDEN as int);
        }
        lemma_near(n, e, more, r);
        // The quotient before rounding is at most the exact one.
        lemma_power_adds(e, b.exponent());
        lemma_power_shift(e + b.exponent(), 128);
        lemma_power_positive(e);
        lemma_power_positive(b.exponent());
        lemma_product_as_real(den as int, n as int);
        lemma_product_as_real(a.significand() as int, pow2(128) as int);
        let d = den as real;
        let k = n as real;
        let x = a.significand() as real;
        let w = pow2(128) as real;
        let p = power(e);
        let q = power(b.exponent());
        assert(d * k <= x * w);
        assert(size(a) == x * ((p * q) * w));
        lemma_positive_product(p, q);
        lemma_scaled_ordered(d * k, x * w, p * q);
        lemma_commutes(d, k);
        lemma_regrouped(k, d, p, q);
        lemma_moved(x, p * q, w);
        assert((k * p) * (d * q) <= x * ((p * q) * w));
        lemma_scaled_ordered(size(r) - slack(size(r)) - least(), k * p, size(b));
        // It is less than one unit below.
        let above = if more {
            n + 1
        } else {
            n
        };
        let l = above as real;
        lemma_mul_is_distributive_add(den as int, n as int, 1);
        lemma_product_as_real(den as int, above as int);
        assert(x * w <= d * l);
        lemma_scaled_ordered(x * w, d * l, p * q);
        lemma_commutes(d, l);
        lemma_regrouped(l, d, p, q);
        lemma_scaled_ordered(l * p, size(r) + slack(size(r)) + least(), size(b));
        if a.exponent() - b.exponent() >= -700 {
            lemma_scaled_ordered(size(r) - slack(size(r)), k * p, size(b));
        }
    }
}

/// A square root is near the exact root.
pub proof fn law_root_near(x: Double)
    requires
        x.finite(),
        !x.negative(),
    ensures
        x.root().finite(),
        !x.root().negative(),
        x.root().exponent() <= 500,
        ({
            let above = size(x.root()) + slack(size(x.root()));
            size(x) <= above * above
        }),
        ({
            let below = size(x.root()) - slack(size(x.root()));
            0real <= below && below * below <= size(x)
        }),
{
    reveal(Double::root_spec);
    lemma_pow2_values();
    lemma_magnitude_parts(x);
    if x.zero() {
        lemma_size_positive(x);
        let z = 0real + slack(0real);
        assert(z == 0real);
        assert(0real * z == 0real);
    } else {
        let shift: int = if x.exponent() % 2 == 0 {
            128
        } else {
            129
        };
        let wide = x.significand() * pow2(shift as nat);
        let root = floor_root(wide);
        lemma_root_exists(wide);
        assert(root * root <= wide < (root + 1) * (root + 1));
        let e = (x.exponent() - shift) / 2;
        assert(2 * e == x.exponent() - shift);
        let more = root * root != wide;
        lemma_pow2_adds(128, 1);
        lemma_pow2_adds(53, 53);
        lemma_pow2_strictly_increases(106, 128);
        lemma_pow2_pos(shift as nat);
        lemma_pow2_pos(53);
        lemma_mul_inequality(1, x.significand() as int, pow2(shift as nat) as int);
        assert(wide >= pow2(128));
        if root < pow2(53) {
            let q = pow2(53) as int;
            lemma_mul_upper_bound(root as int + 1, q, root as int + 1, q);
        }
        lemma_pow2_adds(53, 129);
        lemma_pow2_adds(91, 91);
        lemma_mul_strict_inequality(
            x.significand() as int,
            pow2(53) as int,
            pow2(shift as nat) as int,
        );
        lemma_mul_inequality(pow2(shift as nat) as int, pow2(129) as int, pow2(53) as int);
        lemma_mul_is_commutative(pow2(53) as int, pow2(129) as int);
        lemma_mul_is_commutative(pow2(53) as int, pow2(shift as nat) as int);
        assert(wide < pow2(182));
        if root >= pow2(91) {
            let q = pow2(91) as int;
            lemma_mul_upper_bound(q, root as int, q, root as int);
        }
        lemma_bit_length(root);
        let l = bit_length(root);
        if l < 54 {
            if l < 53 {
                lemma_pow2_strictly_increases(l, 53);
            }
        }
        if l > 91 {
            if l > 92 {
                lemma_pow2_strictly_increases(91, (l - 1) as nat);
            }
        }
        let unit = unit_exponent(root, e);
        assert(-1074 < unit <= 460);
        lemma_rounded_bound(root, e, more);
        assert(nearest(root, e, more) < INFINITE) by {
            assert((unit + 1074) * HIDDEN <= 1534 * HIDDEN);
        }
        assert(nearest(root, e, more) >= 0) by {
            lemma_mul_nonnegative(unit + 1074, HIDDEN as int);
        }
        let r = x.root();
        assert(r.magnitude() == nearest(root, e, more));
        lemma_near(root, e, more, r);
        lemma_power_adds(e, e);
        lemma_power_shift(e + e, shift as nat);
        lemma_power_positive(e);
        lemma_product_as_real(x.significand() as int, pow2(shift as nat) as int);
        let p = power(e);
        let w = wide as real;
        let m = x.significand() as real;
        let s = pow2(shift as nat) as real;
        assert(size(x) == m * ((p * p) * s));
        lemma_moved(m, p * p, s);
        let b = size(r) + slack(size(r));
        let k = if more {
            lemma_product_as_real(root as int + 1, root as int + 1);
            (root + 1) as real
        } else {
            lemma_product_as_real(root as int, root as int);
            root as real
        };
        assert(w <= k * k);
        assert(k * p <= b);
        assert(k > 0real);
        lemma_positive_product(p, p);
        lemma_positive_product(k, p);
        lemma_scaled_ordered(w, k * k, p * p);
        lemma_regrouped(k, k, p, p);
        lemma_scaled_ordered(k * p, b, k * p);
        lemma_scaled_ordered(k * p, b, b);
        lemma_commutes(k * p, b);
        // The root before rounding is at most the exact one.
        let n = root as real;
        let c = size(r) - slack(size(r));
        lemma_size_positive(r);
        lemma_product_as_real(root as int, root as int);
        lemma_scaled_ordered(n * n, w, p * p);
        lemma_regrouped(n, n, p, p);
        assert(c <= n * p);
        lemma_square_ordered(c, n * p);
    }
}

/// The error next to zero is far below any other.
pub(crate) proof fn lemma_least()
    ensures
        0real < least() <= slack(1real),
{
    lemma_power_positive(-1075);
    lemma_power_ordered(-1075, -40);
    lemma2_to64_rest();
}

// ---------------------------------------------------------------------------
// Squares
// ---------------------------------------------------------------------------

pub(crate) proof fn lemma_slack_product(x: real, y: real)
    ensures
        slack(x) * y == slack(x * y),
{
    assert((x / 1099511627776real) * y == (x * y) / 1099511627776real) by (nonlinear_arith);
}

pub(crate) proof fn lemma_square_ordered(a: real, b: real)
    requires
        0real <= a <= b,
    ensures
        0real <= a * a <= b * b,
{
    lemma_scaled_ordered(a, b, a);
    lemma_scaled_ordered(a, b, b);
    lemma_commutes(a, b);
    lemma_scaled_ordered(0real, a, a);
    assert(0real * a == 0real);
}

/// The square of a slightly larger number is slightly larger.
proof fn lemma_square_grown(y: real)
    ensures
        ({
            let z = y + 2real * slack(y);
            z * z == y * y + 4real * slack(y * y) + 4real * slack(slack(y * y))
        }),
{
    let d = slack(y);
    let z = y + 2real * d;
    lemma_distributes(y, 2real * d, z);
    lemma_associates(2real, d, z);
    lemma_slack_product(y, z);
    lemma_commutes(y, z);
    lemma_distributes(y, 2real * d, y);
    lemma_associates(2real, d, y);
    lemma_slack_product(y, y);
}

/// The squares of two sides are hardly larger than the square of the computed length of their
/// hypotenuse.
pub(crate) proof fn lemma_hypotenuse(x: real, y: real, sx: real, sy: real, sum: real, length: real)
    requires
        0real <= x,
        0real <= y,
        0real <= length,
        near(sx, x * x),
        near(sy, y * y),
        near(sum, sx + sy),
        sum <= (length + slack(length)) * (length + slack(length)),
    ensures
        x * x + y * y <= length * length + 10real * slack(length * length) + 5real * least(),
{
    lemma_least();
    let w = length * length;
    let above = length + slack(length);
    lemma_square_ordered(0real, length);
    assert(0real * 0real == 0real);
    lemma_square_ordered(above, length + 2real * slack(length));
    lemma_square_grown(length);
    assert(sum <= w + 5real * slack(w));
}

/// A side after it was scaled by a computed factor.
pub(crate) proof fn lemma_side(side: real, factor: real, scaled: real)
    requires
        0real <= side,
        0real <= factor,
        0real <= scaled,
        scaled <= side * factor + slack(scaled) + slack(1real),
    ensures
        ({
            let w = (side * side) * (factor * factor);
            scaled * scaled <= w + 10real * slack(w) + 10real * slack(1real)
        }),
{
    let w = side * factor;
    let unit = slack(1real);
    let z = w + unit;
    let cut = scaled - slack(scaled);
    lemma_scaled_ordered(0real, side, factor);
    assert(0real * factor == 0real);
    assert(w >= 0real);
    assert(0real <= cut <= z);
    assert(scaled <= cut + 2real * slack(cut));
    lemma_square_ordered(scaled, cut + 2real * slack(cut));
    lemma_square_grown(cut);
    lemma_square_ordered(cut, z);
    // The square of the bound, by powers of the side.
    lemma_distributes(w, unit, z);
    lemma_slack_product(1real, z);
    assert(1real * z == z);
    lemma_commutes(w, z);
    lemma_distributes(w, unit, w);
    lemma_slack_product(1real, w);
    assert(1real * w == w);
    assert(z * z == w * w + slack(w) + slack(z));
    assert(2real * w <= w * w + 1real) by (nonlinear_arith);
    lemma_square_ordered(0real, w);
    assert(0real * 0real == 0real);
    lemma_regrouped(side, factor, side, factor);
}

/// Two sides that are scaled down by the limit over the length of their hypotenuse end up with a
/// hypotenuse that is hardly longer than the limit.
pub(crate) proof fn lemma_cut_down(
    x: real,
    y: real,
    length: real,
    limit: real,
    factor: real,
    x1: real,
    y1: real,
)
    requires
        0real <= x,
        0real <= y,
        1real <= limit <= length,
        0real <= factor,
        0real <= x1,
        0real <= y1,
        x * x + y * y <= length * length + 10real * slack(length * length) + 5real * slack(1real),
        (factor - slack(factor)) * length <= limit,
        x1 <= x * factor + slack(x1) + slack(1real),
        y1 <= y * factor + slack(y1) + slack(1real),
    ensures
        x1 * x1 + y1 * y1 <= limit * limit + 100real * slack(limit * limit),
{
    let w = length * length;
    let q = x * x + y * y;
    let goal = limit * limit;
    let cut = factor - slack(factor);
    let c2 = cut * cut;
    let f2 = factor * factor;
    lemma_square_ordered(1real, length);
    lemma_square_ordered(1real, limit);
    lemma_square_ordered(0real, x);
    lemma_square_ordered(0real, y);
    lemma_square_ordered(0real, cut);
    assert(1real * 1real == 1real);
    assert(0real * 0real == 0real);
    assert(q <= w + 15real * slack(w));

    // The square of the cut factor times the square of the length is at most the goal.
    lemma_scaled_ordered(0real, cut, length);
    assert(0real * length == 0real);
    lemma_square_ordered(cut * length, limit);
    lemma_regrouped(cut, length, cut, length);
    assert(c2 * w <= goal);

    // So the squares of the sides times it are hardly more.
    lemma_scaled_ordered(q, w + 15real * slack(w), c2);
    lemma_distributes(w, 15real * slack(w), c2);
    lemma_associates(15real, slack(w), c2);
    lemma_slack_product(w, c2);
    lemma_commutes(w, c2);
    assert(q * c2 <= goal + 15real * slack(goal));

    // And the factor itself is hardly larger than the cut one.
    assert(factor <= cut + 2real * slack(cut));
    lemma_square_ordered(factor, cut + 2real * slack(cut));
    lemma_square_grown(cut);
    assert(f2 <= c2 + 5real * slack(c2));
    lemma_scaled_ordered(f2, c2 + 5real * slack(c2), q);
    lemma_distributes(c2, 5real * slack(c2), q);
    lemma_associates(5real, slack(c2), q);
    lemma_slack_product(c2, q);
    lemma_commutes(c2, q);
    assert(f2 * q <= goal + 30real * slack(goal));

    lemma_side(x, factor, x1);
    lemma_side(y, factor, y1);
    lemma_distributes(x * x, y * y, f2);
    lemma_commutes(f2, q);
    let a = (x * x) * f2;
    let b = (y * y) * f2;
    assert(a + b == f2 * q);
    assert(x1 * x1 + y1 * y1 <= (a + b) + 10real * slack(a + b) + 20real * slack(1real));
}

// ---------------------------------------------------------------------------
// Overflow
// ---------------------------------------------------------------------------

/// A sum of numbers that are not negative is a number, and finite only if both are.
pub(crate) proof fn lemma_plus_overflow(a: Double, b: Double)
    requires
        !a.nan(),
        !b.nan(),
        !a.negative(),
        !b.negative(),
    ensures
        !a.plus(b).nan(),
        !a.plus(b).negative(),
        a.plus(b).finite() ==> a.finite() && b.finite(),
{
    reveal(Double::plus_spec);
    if a.finite() && b.finite() {
        let e = a.sum_exponent(b);
        lemma_mul_nonnegative(a.significand() as int, pow2((a.exponent() - e) as nat) as int);
        lemma_mul_nonnegative(b.significand() as int, pow2((b.exponent() - e) as nat) as int);
        lemma_nearest_bound(a.exact_sum(b) as nat, e);
    }
}

/// The root of infinity is infinity, anything over it is zero, and zero times a finite number is
/// zero.
pub(crate) proof fn lemma_infinite_length(length: Double, limit: Double, x: Double)
    requires
        length.infinite(),
        !length.negative(),
        limit.finite(),
        x.finite(),
    ensures
        length.root() == length,
        limit.over(length).zero(),
        x.times(limit.over(length)).zero(),
{
    reveal(Double::root_spec);
    reveal(Double::over_spec);
    reveal(Double::times_spec);
    let z = limit.over(length);
    assert(z.significand() == 0);
    lemma_mul_basics(x.significand() as int);
    lemma_mul_is_commutative(x.significand() as int, 0);
    assert(x.significand() * z.significand() == 0);
}

// ---------------------------------------------------------------------------
// Ranges
// ---------------------------------------------------------------------------

/// A number of at most `l` digits has at most that length.
pub(crate) proof fn lemma_length_bound(n: nat, l: nat)
    requires
        n > 0,
        n < pow2(l),
    ensures
        bit_length(n) <= l,
{
    lemma_bit_length(n);
    if bit_length(n) > l {
        if bit_length(n) - 1 > l {
            lemma_pow2_strictly_increases(l, (bit_length(n) - 1) as nat);
        }
    }
}

/// A number of at least `2^l` has more than `l` digits.
proof fn lemma_length_above(n: nat, l: nat)
    requires
        n >= pow2(l),
    ensures
        bit_length(n) > l,
{
    lemma_pow2_pos(l);
    lemma_bit_length(n);
    if bit_length(n) <= l {
        if bit_length(n) < l {
            lemma_pow2_strictly_increases(bit_length(n), l);
        }
    }
}

/// What rounding gives is finite where its unit is, and has an exponent next to that unit.
pub(crate) proof fn lemma_rounded_range(n: nat, e: int, more: bool, r: Double)
    requires
        n > 0,
        unit_exponent(n, e) <= 960,
        r.magnitude() == nearest(n, e, more),
        more ==> unit_exponent(n, e) - e >= 1,
    ensures
        r.finite(),
        unit_exponent(n, e) <= r.exponent() <= unit_exponent(n, e) + 1,
{
    lemma_pow2_values();
    lemma_rounded_bound(n, e, more);
    assert((unit_exponent(n, e) + 1074) * HIDDEN <= 2034 * HIDDEN);
    lemma_near(n, e, more, r);
}

/// The exponent of a product.
pub(crate) proof fn lemma_times_range(a: Double, b: Double)
    requires
        a.finite(),
        b.finite(),
        a.exponent() + b.exponent() <= 800,
    ensures
        a.times(b).finite(),
        a.times(b).exponent() <= a.exponent() + b.exponent() + 54 || a.times(b).exponent()
            <= -1073,
{
    reveal(Double::times_spec);
    lemma_pow2_values();
    lemma_magnitude_parts(a);
    lemma_magnitude_parts(b);
    let n = a.significand() * b.significand();
    let e = a.exponent() + b.exponent();
    lemma_nearest_bound(n, e);
    if n > 0 {
        lemma_pow2_adds(53, 53);
        lemma_mul_upper_bound(
            a.significand() as int,
            pow2(53) - 1,
            b.significand() as int,
            pow2(53) - 1,
        );
        lemma_mul_strict_inequality(pow2(53) - 1, pow2(53) as int, pow2(53) as int);
        lemma_mul_inequality(pow2(53) - 1, pow2(53) as int, pow2(53) - 1);
        lemma_mul_is_commutative(pow2(53) as int, pow2(53) - 1);
        lemma_length_bound(n, 106);
        lemma_rounded_range(n, e, false, a.times(b));
    }
}

/// The exponent of a product is not much below the sum of the exponents.
pub(crate) proof fn lemma_times_above(a: Double, b: Double)
    requires
        a.finite(),
        b.finite(),
        a.exponent() > -500,
        b.exponent() > -500,
        a.times(b).finite(),
    ensures
        a.times(b).exponent() >= a.exponent() + b.exponent() + 52,
{
    reveal(Double::times_spec);
    lemma_pow2_values();
    lemma_magnitude_parts(a);
    lemma_magnitude_parts(b);
    let n = a.significand() * b.significand();
    let e = a.exponent() + b.exponent();
    lemma_nearest_bound(n, e);
    lemma_pow2_adds(52, 52);
    lemma_mul_upper_bound(
        pow2(52) as int,
        a.significand() as int,
        pow2(52) as int,
        b.significand() as int,
    );
    lemma_length_above(n, 104);
    lemma_near(n, e, false, a.times(b));
}

/// The exponent of a sum.
pub(crate) proof fn lemma_plus_range(a: Double, b: Double)
    requires
        a.finite(),
        b.finite(),
        a.exponent() <= 900,
        b.exponent() <= 900,
    ensures
        a.plus(b).finite(),
        a.plus(b).exponent() <= a.exponent() + 3 || a.plus(b).exponent() <= b.exponent() + 3,
{
    reveal(Double::plus_spec);
    lemma_pow2_values();
    lemma_magnitude_parts(a);
    lemma_magnitude_parts(b);
    let e = a.sum_exponent(b);
    let i = (a.exponent() - e) as nat;
    let j = (b.exponent() - e) as nat;
    let top = i + j;
    lemma_pow2_pos(i);
    lemma_pow2_pos(j);
    // One of the two shifts is zero.
    assert(i == 0 || j == 0);
    lemma_pow2_adds(53, top);
    lemma_pow2_unfold(54 + top);
    lemma_scaled_bound(a, i, top);
    lemma_scaled_bound(b, j, top);
    let n = a.exact_sum(b);
    let m = if n < 0 {
        (-n) as nat
    } else {
        n as nat
    };
    assert(m < pow2(54 + top));
    lemma_nearest_bound(m, e);
    if m > 0 {
        lemma_length_bound(m, 54 + top);
        lemma_rounded_range(m, e, false, a.plus(b));
    }
}

/// A shifted significand is bounded by the shift.
proof fn lemma_scaled_bound(x: Double, i: nat, top: nat)
    requires
        x.finite(),
        i <= top,
    ensures
        -pow2(53 + top) < x.signed() * pow2(i) < pow2(53 + top),
{
    lemma_magnitude_parts(x);
    lemma_pow2_pos(i);
    lemma_pow2_adds(53, i);
    lemma_mul_strict_inequality(x.significand() as int, pow2(53) as int, pow2(i) as int);
    if i < top {
        lemma_pow2_strictly_increases(53 + i, 53 + top);
    }
    lemma_mul_nonnegative(x.significand() as int, pow2(i) as int);
    lemma_mul_unary_negation(x.significand() as int, pow2(i) as int);
}

/// The sum of two numbers of which one is not tiny is zero or not tiny either.
pub(crate) proof fn lemma_plus_above(a: Double, b: Double)
    requires
        a.finite(),
        b.finite(),
        a.exponent() >= -300,
        a.plus(b).finite(),
    ensures
        a.plus(b).zero() || a.plus(b).exponent() >= -370,
{
    reveal(Double::plus_spec);
    lemma_pow2_values();
    lemma_magnitude_parts(a);
    lemma_magnitude_parts(b);
    let e = a.sum_exponent(b);
    let n = a.exact_sum(b);
    let m = if n < 0 {
        (-n) as nat
    } else {
        n as nat
    };
    if m > 0 {
        lemma_nearest_bound(m, e);
        lemma_near(m, e, false, a.plus(b));
        if e < -310 {
            let i = (a.exponent() - e) as nat;
            let p = pow2(i);
            lemma_pow2_pos(i);
            assert(b.signed() * pow2(0) == b.signed());
            lemma_mul_unary_negation(a.significand() as int, p as int);
            lemma_mul_inequality(pow2(52) as int, a.significand() as int, p as int);
            lemma_pow2_adds(52, i);
            lemma_pow2_unfold(52 + i);
            lemma_pow2_strictly_increases(53, (51 + i) as nat);
            lemma_length_above(m, (51 + i) as nat);
        } else {
            lemma_length_above(m, 0);
        }
    }
}

/// Adding a number of moderate size does not take a finite number out of range.
pub(crate) proof fn lemma_plus_small(a: Double, b: Double)
    requires
        a.finite(),
        b.finite(),
        b.exponent() <= 800,
    ensures
        a.plus(b).finite(),
{
    if a.exponent() <= 900 {
        lemma_plus_range(a, b);
    } else {
        reveal(Double::plus_spec);
        lemma_pow2_values();
        lemma_magnitude_parts(a);
        lemma_magnitude_parts(b);
        let e = b.exponent();
        let j = (a.exponent() - e) as nat;
        let d = pow2(j);
        lemma_pow2_pos(j);
        assert(b.signed() * pow2(0) == b.signed());
        lemma_mul_unary_negation(a.significand() as int, d as int);
        let n = a.exact_sum(b);
        let m = if n < 0 {
            (-n) as nat
        } else {
            n as nat
        };
        let full = (pow2(53) - 1) as nat;
        let most = full * d + pow2(53);
        lemma_mul_inequality(a.significand() as int, full as int, d as int);
        lemma_mul_nonnegative(a.significand() as int, d as int);
        assert(m <= most);
        lemma_nearest_ordered(m, most, e);
        lemma_nearest_bound(m, e);
        // The largest sum rounds to the largest number with the exponent.
        lemma_pow2_unfold(j);
        lemma_pow2_strictly_increases(53, (j - 1) as nat);
        lemma_bit_length_append(full, j, pow2(53));
        lemma_bit_length_is(full, 53);
        assert(unit_exponent(most, e) == a.exponent());
        lemma_fundamental_div_mod_converse(most as int, d as int, full as int, pow2(53) as int);
        assert(rounded(most, e, false) == full);
    }
}

/// The exponent of a quotient by a normal number.
pub(crate) proof fn lemma_over_range(a: Double, b: Double)
    requires
        a.finite(),
        b.finite(),
        b.exponent() > -1074,
        a.exponent() - b.exponent() <= 700,
    ensures
        a.over(b).finite(),
        a.over(b).exponent() <= a.exponent() - b.exponent() - 50 || a.over(b).exponent() <= -1073,
{
    reveal(Double::over_spec);
    lemma_pow2_values();
    lemma_magnitude_parts(a);
    lemma_magnitude_parts(b);
    let den = b.significand();
    let wide = a.significand() * pow2(128);
    let n = wide / den;
    let e = a.exponent() - b.exponent() - 128;
    let more = wide % den != 0;
    lemma_pow2_pos(128);
    if a.significand() == 0 {
        lemma_mul_basics(pow2(128) as int);
        assert(wide == 0 && n == 0);
    } else {
        lemma_fundamental_div_mod(wide as int, den as int);
        lemma_pow2_adds(53, 75);
        lemma_pow2_strictly_increases(53, 75);
        // At least 2^53.
        lemma_mul_inequality(1, a.significand() as int, pow2(128) as int);
        lemma_mul_inequality(den as int, pow2(75) as int, pow2(53) as int);
        lemma_mul_is_commutative(pow2(53) as int, pow2(75) as int);
        lemma_div_is_ordered((den * pow2(53)) as int, wide as int, den as int);
        lemma_div_multiples_vanish(pow2(53) as int, den as int);
        assert(n >= pow2(53));
        lemma_unit_above(n, e);
        // Less than 2^129.
        lemma_pow2_adds(53, 128);
        lemma_pow2_adds(52, 129);
        lemma_mul_strict_inequality(a.significand() as int, pow2(53) as int, pow2(128) as int);
        assert(n < pow2(129)) by {
            if n >= pow2(129) {
                lemma_mul_upper_bound(pow2(52) as int, den as int, pow2(129) as int, n as int);
            }
        }
        lemma_length_bound(n, 129);
        assert(nearest(n, e, more) >= 0) by {
            lemma_mul_nonnegative(unit_exponent(n, e) + 1074, HIDDEN as int);
        }
        lemma_rounded_bound(n, e, more);
        assert((unit_exponent(n, e) + 1074) * HIDDEN <= 2034 * HIDDEN);
        lemma_rounded_range(n, e, more, a.over(b));
    }
}

/// The exponent of a root.
pub(crate) proof fn lemma_root_range(x: Double)
    requires
        x.finite(),
        !x.negative(),
        !x.zero(),
    ensures
        x.root().finite(),
        !x.root().zero(),
        !x.root().negative(),
        -590 <= x.root().exponent() <= 500,
        x.exponent() > -1074 ==> 2 * x.root().exponent() >= x.exponent() - 54,
{
    law_root_near(x);
    reveal(Double::root_spec);
    lemma_pow2_values();
    lemma_magnitude_parts(x);
    let shift: int = if x.exponent() % 2 == 0 {
        128
    } else {
        129
    };
    let wide = x.significand() * pow2(shift as nat);
    let root = floor_root(wide);
    lemma_root_exists(wide);
    assert(root * root <= wide < (root + 1) * (root + 1));
    let e = (x.exponent() - shift) / 2;
    let more = root * root != wide;
    lemma_pow2_adds(128, 1);
    lemma_pow2_pos(shift as nat);
    lemma_mul_inequality(1, x.significand() as int, pow2(shift as nat) as int);
    lemma_pow2_adds(64, 64);
    if root < pow2(64) {
        lemma_mul_upper_bound(
            root as int + 1,
            pow2(64) as int,
            root as int + 1,
            pow2(64) as int,
        );
    }
    // With a smaller root the number would be below the next square.
    assert(root >= pow2(64));
    lemma_length_above(root, 64);
    if x.exponent() > -1074 {
        lemma_pow2_adds(52, 128);
        lemma_pow2_adds(90, 90);
        lemma_mul_inequality(pow2(52) as int, x.significand() as int, pow2(shift as nat) as int);
        lemma_mul_inequality(pow2(128) as int, pow2(shift as nat) as int, pow2(52) as int);
        lemma_mul_is_commutative(pow2(52) as int, pow2(128) as int);
        lemma_mul_is_commutative(pow2(52) as int, pow2(shift as nat) as int);
        if root < pow2(90) {
            lemma_mul_upper_bound(
                root as int + 1,
                pow2(90) as int,
                root as int + 1,
                pow2(90) as int,
            );
        }
        lemma_length_above(root, 90);
    }
    assert(nearest(root, e, more) >= 0) by {
        lemma_mul_nonnegative(unit_exponent(root, e) + 1074, HIDDEN as int);
    }
    assert(x.root().magnitude() == nearest(root, e, more));
    lemma_pow2_strictly_increases(53, 64);
    lemma_unit_above(root, e);
    lemma_near(root, e, more, x.root());
    lemma_magnitude_parts(x.root());
}

} // verus!
