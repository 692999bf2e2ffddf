//! How fast a body is after it bounced off a fixed one: no faster than before, up to rounding.

use crate::double::{encoded, law_plus_commutes, lemma_magnitude_parts, lemma_plus_zero, Double};
use crate::exact::{
    law_over_near, law_plus_near, law_root_near, law_times_near, least, lemma_associates,
    lemma_commutes, lemma_distributes, lemma_hypotenuse, lemma_least, lemma_near, lemma_over_range,
    lemma_plus_above, lemma_plus_overflow, lemma_plus_range, lemma_positive_product,
    lemma_power_adds, lemma_power_ordered, lemma_power_positive, lemma_power_shift,
    lemma_product_as_real, lemma_regrouped, lemma_root_range, lemma_scaled_ordered, lemma_side,
    lemma_size_is, lemma_size_ordered, lemma_size_positive, lemma_slack_product,
    lemma_square_ordered, lemma_times_range, power, size, slack,
};
use crate::physics::{
    collided, has_place, law_collision_keeps_place, lemma_direction, lemma_pressed_place,
    lemma_slow_exponent, lemma_square, lemma_touching_finite, pressed, speed_squared, square_norm,
    touching, Body, ONE, RESTITUTION,
};
use crate::rounding::{lemma_nearest_bound, lemma_pow2_values};
use vstd::arithmetic::mul::*;
use vstd::arithmetic::power2::*;
use vstd::prelude::*;

verus! {

/// The real number that a finite number stands for.
pub open spec fn real_value(x: Double) -> real {
    if x.negative() {
        -size(x)
    } else {
        size(x)
    }
}

/// Whether a computed number is near a real one.
pub open spec fn close(x: Double, t: real) -> bool {
    let e = slack(size(x)) + least();
    t - e <= real_value(x) <= t + e
}

// ---------------------------------------------------------------------------
// Signed results
// ---------------------------------------------------------------------------

pub(crate) proof fn lemma_negated(a: real, b: real)
    ensures
        (-a) * b == -(a * b),
        a * (-b) == -(a * b),
        (-a) * (-b) == a * b,
{
    lemma_distributes(a, -a, b);
    assert(0real * b == 0real);
    lemma_distributes(b, -b, a);
    assert(0real * a == 0real);
    lemma_commutes(a, -b);
    lemma_commutes(a, b);
    lemma_distributes(a, -a, -b);
    assert(0real * (-b) == 0real);
}

/// A product that does not overflow is near the exact product.
pub proof fn law_times_close(a: Double, b: Double)
    requires
        a.finite(),
        b.finite(),
        a.times(b).finite(),
    ensures
        close(a.times(b), real_value(a) * real_value(b)),
{
    law_times_near(a, b);
    reveal(Double::times_spec);
    lemma_nearest_bound(
        a.significand() * b.significand(),
        a.exponent() + b.exponent(),
    );
    lemma_negated(size(a), size(b));
}

/// A sum that does not overflow is near the exact sum.
pub proof fn law_plus_close(a: Double, b: Double)
    requires
        a.finite(),
        b.finite(),
        a.plus(b).finite(),
    ensures
        close(a.plus(b), real_value(a) + real_value(b)),
{
    reveal(Double::plus_spec);
    lemma_least();
    let r = a.plus(b);
    let e = a.sum_exponent(b);
    let i = (a.exponent() - e) as nat;
    let j = (b.exponent() - e) as nat;
    let x = a.signed() as real;
    let y = b.signed() as real;
    let u = pow2(i) as real;
    let v = pow2(j) as real;
    let p = power(e);
    let n = a.exact_sum(b);
    lemma_power_shift(e, i);
    lemma_power_shift(e, j);
    lemma_product_as_real(a.signed(), pow2(i) as int);
    lemma_product_as_real(b.signed(), pow2(j) as int);
    assert((n as real) == x * u + y * v);
    lemma_distributes(x * u, y * v, p);
    lemma_signed(a, p, u);
    lemma_signed(b, p, v);
    assert(real_value(a) + real_value(b) == (n as real) * p);
    let m = if n < 0 {
        (-n) as nat
    } else {
        n as nat
    };
    lemma_nearest_bound(m, e);
    lemma_size_positive(r);
    lemma_negated(m as real, p);
    if m > 0 {
        lemma_near(m, e, false, r);
        if n < 0 {
            assert((n as real) == -(m as real));
        }
    } else {
        assert(0real * p == 0real);
    }
}

/// The real value of a number whose power of two is split.
proof fn lemma_signed(a: Double, p: real, u: real)
    requires
        power(a.exponent()) == p * u,
    ensures
        ((a.signed() as real) * u) * p == real_value(a),
{
    let x = a.signed() as real;
    let m = a.significand() as real;
    lemma_associates(x, u, p);
    lemma_commutes(u, p);
    lemma_negated(m, p * u);
}

// ---------------------------------------------------------------------------
// The bounce in real numbers
// ---------------------------------------------------------------------------

/// Whether a number lies between `-bound` and `bound`.
pub open spec fn within(x: real, bound: real) -> bool {
    -bound <= x <= bound
}

pub(crate) proof fn lemma_product_within(a: real, b: real, bound: real, scale: real)
    requires
        within(a, bound),
        within(b, scale),
    ensures
        within(a * b, bound * scale),
{
    let x = if a < 0real {
        -a
    } else {
        a
    };
    let y = if b < 0real {
        -b
    } else {
        b
    };
    lemma_scaled_ordered(x, bound, y);
    lemma_scaled_ordered(y, scale, bound);
    lemma_commutes(y, bound);
    lemma_commutes(scale, bound);
    lemma_scaled_ordered(0real, x, y);
    assert(0real * y == 0real);
    lemma_negated(a, b);
}

/// A number whose square is at most that of a bound lies within it.
pub(crate) proof fn lemma_root_within(x: real, bound: real)
    requires
        bound >= 0real,
        x * x <= bound * bound,
    ensures
        within(x, bound),
{
    let y = if x < 0real {
        -x
    } else {
        x
    };
    lemma_negated(x, x);
    if y > bound {
        lemma_strict_square(bound, y);
    }
}

proof fn lemma_strict_square(a: real, b: real)
    requires
        0real <= a < b,
    ensures
        a * a < b * b,
{
    lemma_scaled_ordered(a, b, a);
    lemma_commutes(a, b);
    let gap = b - a;
    lemma_positive_product(gap, b);
    lemma_distributes(b, -a, b);
    lemma_negated(a, b);
}

/// `(v - q n)^2`, multiplied out.
pub(crate) proof fn lemma_expanded(v: real, q: real, n: real)
    ensures
        (v - q * n) * (v - q * n) == v * v - 2real * (q * (v * n)) + (q * q) * (n * n),
{
    let t = q * n;
    let z = v - t;
    lemma_distributes(v, -t, z);
    lemma_negated(t, z);
    lemma_commutes(v, z);
    lemma_commutes(t, z);
    lemma_distributes(v, -t, v);
    lemma_negated(t, v);
    lemma_distributes(v, -t, t);
    lemma_negated(t, t);
    lemma_commutes(v, t);
    lemma_associates(q, n, v);
    lemma_commutes(n, v);
    lemma_regrouped(q, n, q, n);
}

/// A mirrored velocity is no faster: taking away up to twice the part along a direction of unit
/// length leaves no more than there was.
proof fn lemma_mirrored(vx: real, vy: real, nx: real, ny: real, k: real)
    requires
        0real <= k <= 19real / 10real,
        nx * nx + ny * ny <= 21real / 20real,
    ensures
        ({
            let q = k * (vx * nx + vy * ny);
            let wx = vx - q * nx;
            let wy = vy - q * ny;
            wx * wx + wy * wy <= vx * vx + vy * vy
        }),
{
    let p = vx * nx + vy * ny;
    let q = k * p;
    let n2 = nx * nx + ny * ny;
    lemma_expanded(vx, q, nx);
    lemma_expanded(vy, q, ny);
    // q (vx nx) + q (vy ny) == q p
    lemma_distributes(vx * nx, vy * ny, q);
    lemma_commutes(q, vx * nx);
    lemma_commutes(q, vy * ny);
    lemma_commutes(q, p);
    assert(q * (vx * nx) + q * (vy * ny) == q * p);
    // q^2 nx^2 + q^2 ny^2 == q^2 n^2
    lemma_distributes(nx * nx, ny * ny, q * q);
    lemma_commutes(q * q, nx * nx);
    lemma_commutes(q * q, ny * ny);
    lemma_commutes(q * q, n2);
    assert((q * q) * (nx * nx) + (q * q) * (ny * ny) == (q * q) * n2);
    // q^2 n^2 <= 2 q p
    lemma_square_positive(p);
    lemma_square_positive(nx);
    lemma_square_positive(ny);
    let s = p * p;
    lemma_scaled_ordered(0real, s, k);
    assert(0real * k == 0real);
    lemma_associates(k, p, p);
    lemma_commutes(k, s);
    assert(q * p == k * s);
    lemma_regrouped(k, p, k, p);
    lemma_associates(k, k, s);
    assert(q * q == k * (k * s));
    lemma_commutes(k, k * s);
    // k n^2 <= 2
    lemma_scaled_ordered(k, 19real / 10real, n2);
    assert((19real / 10real) * n2 <= 2real);
    lemma_associates(k * s, k, n2);
    lemma_scaled_ordered(k * n2, 2real, k * s);
    lemma_commutes(k * s, k * n2);
}

pub(crate) proof fn lemma_square_positive(x: real)
    ensures
        x * x >= 0real,
{
    let y = if x < 0real {
        -x
    } else {
        x
    };
    lemma_negated(x, x);
    lemma_scaled_ordered(0real, y, y);
    assert(0real * y == 0real);
}

/// The square of a number that is off by a little.
proof fn lemma_perturbed(w: real, g: real, small: real)
    requires
        within(w, 101real),
        within(g, small),
        small <= 1real,
    ensures
        (w + g) * (w + g) <= w * w + 203real * small,
{
    let z = w + g;
    lemma_distributes(w, g, z);
    lemma_commutes(w, z);
    lemma_commutes(g, z);
    lemma_distributes(w, g, w);
    lemma_distributes(w, g, g);
    lemma_commutes(w, g);
    lemma_product_within(g, w, small, 101real);
    lemma_product_within(g, g, small, 1real);
}

/// The numbers that a bounce computes from a velocity and a direction.
pub ghost struct Steps {
    pub away_x: real,
    pub away_y: real,
    pub part_x: real,
    pub part_y: real,
    pub approach: real,
    pub scaled: real,
    pub impulse: real,
    pub loss_x: real,
    pub loss_y: real,
    pub left_x: real,
    pub left_y: real,
}

impl Steps {
    /// Whether each number is off by at most `d` from what it is computed from.
    pub open spec fn follow(self, vx: real, vy: real, nx: real, ny: real, k: real, d: real) -> bool {
        &&& within(self.away_x + vx, d)
        &&& within(self.away_y + vy, d)
        &&& within(self.part_x - self.away_x * nx, d)
        &&& within(self.part_y - self.away_y * ny, d)
        &&& within(self.approach - (self.part_x + self.part_y), d)
        &&& within(self.scaled + k * self.approach, d)
        &&& within(self.impulse - self.scaled, d)
        &&& within(self.loss_x - self.impulse * nx, d)
        &&& within(self.loss_y - self.impulse * ny, d)
        &&& within(self.left_x - (vx - self.loss_x), d)
        &&& within(self.left_y - (vy - self.loss_y), d)
    }
}

/// One coordinate of what a bounce leaves is off by a little from the mirrored one.
proof fn lemma_coordinate(v: real, n: real, q: real, impulse: real, loss: real, left: real, d: real)
    requires
        0real <= d,
        within(n, 11real / 10real),
        within(impulse - q, 14real * d),
        within(loss - impulse * n, d),
        within(left - (v - loss), d),
    ensures
        within(left - (v - q * n), 18real * d),
{
    let f = impulse - q;
    lemma_distributes(q, f, n);
    lemma_product_within(f, n, 14real * d, 11real / 10real);
    assert((14real * d) * (11real / 10real) <= 16real * d);
}

/// A bounce that is computed with small errors leaves a velocity that is hardly faster.
proof fn lemma_bounced(
    steps: Steps,
    vx: real,
    vy: real,
    nx: real,
    ny: real,
    k: real,
    d: real,
)
    requires
        steps.follow(vx, vy, nx, ny, k, d),
        0real <= d <= 1real / 1000real,
        0real <= k <= 19real / 10real,
        nx * nx + ny * ny <= 21real / 20real,
        vx * vx + vy * vy <= 10000real,
    ensures
        steps.left_x * steps.left_x + steps.left_y * steps.left_y <= vx * vx + vy * vy + 8000real
            * d,
{
    lemma_square_positive(nx);
    lemma_square_positive(ny);
    lemma_square_positive(vx);
    lemma_square_positive(vy);
    let c = 11real / 10real;
    assert(c * c == 121real / 100real);
    lemma_root_within(nx, c);
    lemma_root_within(ny, c);

    let p = vx * nx + vy * ny;
    let q = k * p;
    let ex = steps.away_x + vx;
    let ey = steps.away_y + vy;
    // approach == -p, up to 6 d
    lemma_distributes(ex, -vx, nx);
    lemma_distributes(ey, -vy, ny);
    lemma_negated(vx, nx);
    lemma_negated(vy, ny);
    lemma_product_within(ex, nx, d, c);
    lemma_product_within(ey, ny, d, c);
    assert(d * c <= (12real / 10real) * d);
    let off = steps.approach + p;
    assert(within(off, 6real * d));

    // impulse == q, up to 14 d
    lemma_distributes(off, -p, k);
    lemma_negated(p, k);
    lemma_commutes(k, steps.approach);
    lemma_commutes(k, p);
    lemma_product_within(off, k, 6real * d, 19real / 10real);
    assert((6real * d) * (19real / 10real) <= 12real * d);
    assert(within(steps.impulse - q, 14real * d));

    lemma_coordinate(vx, nx, q, steps.impulse, steps.loss_x, steps.left_x, d);
    lemma_coordinate(vy, ny, q, steps.impulse, steps.loss_y, steps.left_y, d);
    let wx = vx - q * nx;
    let wy = vy - q * ny;
    lemma_mirrored(vx, vy, nx, ny, k);
    lemma_square_positive(wx);
    lemma_square_positive(wy);
    assert(100real * 100real == 10000real);
    lemma_root_within(wx, 100real);
    lemma_root_within(wy, 100real);
    lemma_perturbed(wx, steps.left_x - wx, 18real * d);
    lemma_perturbed(wy, steps.left_y - wy, 18real * d);
}

// ---------------------------------------------------------------------------
// The direction between two centres
// ---------------------------------------------------------------------------

proof fn lemma_cancelled(a: real, b: real, c: real)
    requires
        a * c <= b * c,
        c > 0real,
    ensures
        a <= b,
{
    if a > b {
        lemma_positive_product(a - b, c);
        lemma_distributes(a, -b, c);
        lemma_negated(b, c);
    }
}

/// One coordinate of a direction: how far its square is from the exact one.
proof fn lemma_share(n: real, side: real, length: real) -> (u: real)
    requires
        0real <= n,
        0real <= side,
        0real < length,
        (n - slack(n) - least()) * length <= side,
    ensures
        (u * u) * (length * length) <= side * side,
        n * n <= u * u + 10real * slack(u * u) + 10real * slack(1real),
        u * u >= 0real,
{
    lemma_least();
    let cut = n - slack(n) - least();
    let u = if cut < 0real {
        0real
    } else {
        cut
    };
    if cut < 0real {
        assert(0real * length == 0real);
    }
    lemma_scaled_ordered(0real, u, length);
    assert(0real * length == 0real);
    lemma_square_ordered(u * length, side);
    lemma_regrouped(u, length, u, length);
    assert(u * 1real == u);
    lemma_side(u, 1real, n);
    assert(1real * 1real == 1real);
    assert((u * u) * 1real == u * u);
    lemma_square_positive(u);
    u
}

/// The computed direction between two centres. It has unit length, up to rounding, unless the
/// centres are as good as the same.
pub(crate) proof fn lemma_unit_direction(dx: Double, dy: Double)
    requires
        dx.finite(),
        dy.finite(),
        dx.times(dx).finite(),
        dy.times(dy).finite(),
        dx.times(dx).plus(dy.times(dy)).finite(),
        !dx.times(dx).plus(dy.times(dy)).zero(),
    ensures
        ({
            let dist = dx.times(dx).plus(dy.times(dy)).root();
            let nx = dx.over(dist);
            let ny = dy.over(dist);
            &&& nx.finite() && ny.finite()
            &&& nx.exponent() <= 50 && ny.exponent() <= 50
            &&& dist.exponent() >= -500 ==> real_value(nx) * real_value(nx) + real_value(ny)
                * real_value(ny) <= 21real / 20real
        }),
{
    let sx = dx.times(dx);
    let sy = dy.times(dy);
    let sum = sx.plus(sy);
    let dist = sum.root();
    let nx = dx.over(dist);
    let ny = dy.over(dist);
    lemma_square(dx);
    lemma_square(dy);
    lemma_plus_overflow(sx, sy);
    lemma_direction(dx, sx, sy);
    law_plus_commutes(sx, sy);
    lemma_direction(dy, sy, sx);
    lemma_over_range(dx, dist);
    lemma_over_range(dy, dist);
    if dist.exponent() >= -500 {
        law_times_near(dx, dx);
        law_times_near(dy, dy);
        law_plus_near(sx, sy);
        law_root_near(sum);
        lemma_root_range(sum);
        law_over_near(dx, dist);
        law_over_near(dy, dist);
        lemma_size_positive(dx);
        lemma_size_positive(dy);
        lemma_size_positive(dist);
        lemma_size_positive(nx);
        lemma_size_positive(ny);
        let x = size(dx);
        let y = size(dy);
        let l = size(dist);
        let w = l * l;
        lemma_hypotenuse(x, y, size(sx), size(sy), size(sum), l);
        lemma_least_beside(dist);
        lemma_positive_product(l, l);
        assert(x * x + y * y <= w + 15real * slack(w));
        let ux = lemma_share(size(nx), x, l);
        let uy = lemma_share(size(ny), y, l);
        let a = ux * ux;
        let b = uy * uy;
        lemma_distributes(a, b, w);
        let limit = 1real + 15real * slack(1real);
        lemma_distributes(1real, 15real * slack(1real), w);
        lemma_associates(15real, slack(1real), w);
        lemma_slack_product(1real, w);
        assert(1real * w == w);
        lemma_cancelled(a + b, limit, w);
        lemma_negated(size(nx), size(nx));
        lemma_negated(size(ny), size(ny));
    }
}

/// Next to the square of a number that is not tiny, the error next to zero is nothing.
proof fn lemma_least_beside(x: Double)
    requires
        x.finite(),
        x.exponent() >= -500,
    ensures
        least() <= slack(size(x) * size(x)),
        size(x) > 0real,
{
    lemma_magnitude_parts(x);
    lemma_pow2_values();
    let m = x.significand() as real;
    let p = power(x.exponent());
    lemma_power_ordered(-500, x.exponent());
    lemma_power_positive(-500);
    lemma_scaled_ordered(1real, m, p);
    assert(1real * p == p);
    lemma_square_ordered(power(-500), size(x));
    lemma_power_adds(-500, -500);
    lemma_power_shift(-1040, 40);
    lemma2_to64_rest();
    lemma_power_ordered(-1075, -1040);
    assert(power(-1000) == power(-1040) * 1099511627776real);
}

// ---------------------------------------------------------------------------
// The bounce as it is computed
// ---------------------------------------------------------------------------

/// A number that is near one of moderate size is off by very little.
pub(crate) proof fn lemma_close_within(x: Double, t: real, top: real)
    requires
        x.finite(),
        close(x, t),
        within(t, top),
        800real <= top <= 1000000real,
    ensures
        within(real_value(x) - t, slack(top + top / 4real)),
        within(real_value(x), top + 1real),
{
    lemma_least();
    lemma_size_positive(x);
}

pub(crate) proof fn lemma_value_negated(x: Double)
    ensures
        x.finite() ==> x.negate().finite(),
        x.negate().exponent() == x.exponent(),
        size(x.negate()) == size(x),
        real_value(x.negate()) == -real_value(x) || size(x) == 0real,
{
}

pub(crate) proof fn lemma_difference_close(a: Double, b: Double, top: real)
    requires
        a.finite(),
        b.finite(),
        a.exponent() <= 900,
        b.exponent() <= 900,
        within(real_value(a) - real_value(b), top),
        800real <= top <= 1000000real,
    ensures
        a.minus(b).finite(),
        a.minus(b).exponent() <= a.exponent() + 3 || a.minus(b).exponent() <= b.exponent() + 3,
        within(real_value(a.minus(b)) - (real_value(a) - real_value(b)), slack(top + top / 4real)),
{
    lemma_value_negated(b);
    lemma_plus_range(a, b.negate());
    law_plus_close(a, b.negate());
    lemma_size_positive(b);
    lemma_close_within(a.minus(b), real_value(a) - real_value(b), top);
}

pub(crate) proof fn lemma_product_close(
    a: Double,
    b: Double,
    bound: real,
    scale: real,
    top: real,
)
    requires
        a.finite(),
        b.finite(),
        a.exponent() + b.exponent() <= 800,
        within(real_value(a), bound),
        within(real_value(b), scale),
        bound * scale <= top,
        800real <= top <= 1000000real,
    ensures
        a.times(b).finite(),
        a.times(b).exponent() <= a.exponent() + b.exponent() + 54 || a.times(b).exponent()
            <= -1073,
        within(real_value(a.times(b)) - real_value(a) * real_value(b), slack(top + top / 4real)),
        within(real_value(a.times(b)), top + 1real),
{
    lemma_times_range(a, b);
    law_times_close(a, b);
    lemma_product_within(real_value(a), real_value(b), bound, scale);
    lemma_close_within(a.times(b), real_value(a) * real_value(b), top);
}

/// The share of the approach that a bounce turns around: 1 and the restitution.
pub(crate) proof fn lemma_turn()
    ensures
        ({
            let c = encoded(ONE).plus(encoded(RESTITUTION)).negate();
            &&& c.finite()
            &&& c.exponent() <= 0
            &&& -19real / 10real <= real_value(c) <= 0real
        }),
{
    lemma2_to64();
    lemma2_to64_rest();
    lemma_least();
    let one = encoded(ONE);
    let rest = encoded(RESTITUTION);
    assert(one.exponent() == -52 && one.significand() == 0x10_0000_0000_0000);
    lemma_size_is(one, 52, 1real);
    let most = encoded(0x3FEB_0000_0000_0000);
    assert(most.exponent() == -53 && most.significand() == 0x1B_0000_0000_0000);
    lemma_size_is(most, 53, 27real / 32real);
    lemma_size_ordered(rest, most);
    assert(rest.exponent() == -53);
    lemma_plus_range(one, rest);
    law_plus_near(one, rest);
    lemma_size_positive(rest);
    lemma_size_positive(one.plus(rest));
    lemma_value_negated(one.plus(rest));
}

/// Whether a body stands firm: it is fixed, at rest, and has a place.
pub open spec fn stands(body: Body) -> bool {
    &&& has_place(body)
    &&& body.is_static
    &&& body.vel.x.zero()
    &&& body.vel.y.zero()
}

/// Whether the computed direction from one body to another that it touches is about one long. Only
/// squares that vanish, or nearly so, can make it longer.
pub open spec fn clear_direction(a: Body, b: Body) -> bool {
    touching(a, b) ==> {
        let dx = b.pos.x.minus(a.pos.x);
        let dy = b.pos.y.minus(a.pos.y);
        let dist = square_norm(dx, dy).root();
        let nx = real_value(dx.over(dist));
        let ny = real_value(dy.over(dist));
        nx * nx + ny * ny <= 21real / 20real
    }
}

/// Whether a body that meets a row of others, one after the other, always has a clear direction.
pub open spec fn row_clear(body: Body, row: Seq<Body>) -> bool {
    forall|j: int|
        0 <= j < row.len() ==> clear_direction(pressed(body, row, j as nat), #[trigger] row[j])
}

/// Whether one of two coordinates is not tiny: at least `2^-248`.
pub open spec fn not_tiny(x: Double, y: Double) -> bool {
    x.exponent() >= -300 || y.exponent() >= -300
}

/// The direction between two bodies is clear if their centres are at least `2^-448` apart, and also
/// if in neither coordinate both centres are next to zero.
pub proof fn law_direction_clear(a: Body, b: Body)
    requires
        has_place(a),
        has_place(b),
        ({
            let square = square_norm(b.pos.x.minus(a.pos.x), b.pos.y.minus(a.pos.y));
            ||| square.root().exponent() >= -500
            ||| not_tiny(a.pos.x, b.pos.x) && not_tiny(a.pos.y, b.pos.y)
        }),
    ensures
        clear_direction(a, b),
{
    if touching(a, b) {
        let dx = b.pos.x.minus(a.pos.x);
        let dy = b.pos.y.minus(a.pos.y);
        lemma_touching_finite(a, b);
        if not_tiny(a.pos.x, b.pos.x) && not_tiny(a.pos.y, b.pos.y) {
            lemma_apart(a, b);
        }
        lemma_unit_direction(dx, dy);
    }
}

/// Centres of which not both have a tiny coordinate are not too near to tell the direction.
proof fn lemma_apart(a: Body, b: Body)
    requires
        has_place(a),
        has_place(b),
        touching(a, b),
        not_tiny(a.pos.x, b.pos.x),
        not_tiny(a.pos.y, b.pos.y),
    ensures
        square_norm(b.pos.x.minus(a.pos.x), b.pos.y.minus(a.pos.y)).root().exponent() >= -500,
{
    let dx = b.pos.x.minus(a.pos.x);
    let dy = b.pos.y.minus(a.pos.y);
    let sx = dx.times(dx);
    let sy = dy.times(dy);
    lemma_touching_finite(a, b);
    lemma_difference_above(b.pos.x, a.pos.x);
    lemma_difference_above(b.pos.y, a.pos.y);
    lemma_square(dx);
    lemma_square(dy);
    lemma_plus_overflow(sx, sy);
    lemma_direction(dx, sx, sy);
    law_plus_commutes(sx, sy);
    lemma_direction(dy, sy, sx);
    if dx.zero() && dy.zero() {
        reveal(Double::times_spec);
        lemma_mul_basics(dx.significand() as int);
        lemma_mul_basics(dy.significand() as int);
        lemma_plus_zero(sx, sy);
    }
}

proof fn lemma_difference_above(x: Double, y: Double)
    requires
        x.finite(),
        y.finite(),
        not_tiny(x, y),
        x.minus(y).finite(),
    ensures
        x.minus(y).zero() || x.minus(y).exponent() >= -370,
{
    lemma_value_negated(y);
    law_plus_commutes(x, y.negate());
    if x.exponent() >= -300 {
        lemma_plus_above(x, y.negate());
    } else {
        lemma_plus_above(y.negate(), x);
    }
}

/// Whoever meets a row of bodies none of which has a tiny coordinate always has a clear direction.
pub proof fn law_row_clear(body: Body, row: Seq<Body>)
    requires
        has_place(body),
        forall|j: int|
            0 <= j < row.len() ==> {
                &&& has_place(#[trigger] row[j])
                &&& row[j].pos.x.exponent() >= -300
                &&& row[j].pos.y.exponent() >= -300
            },
    ensures
        row_clear(body, row),
{
    assert forall|j: int| 0 <= j < row.len() implies clear_direction(
        pressed(body, row, j as nat),
        #[trigger] row[j],
    ) by {
        lemma_pressed_place(body, row, j as nat);
        law_direction_clear(pressed(body, row, j as nat), row[j]);
    }
}

/// Bouncing off something that stands firm does not make a slow body faster, up to rounding: the
/// exact square of its speed grows by less than a hundred thousandth.
pub proof fn law_firm_bodies_slow(a: Body, b: Body)
    requires
        has_place(a),
        stands(b),
        clear_direction(a, b),
        a.vel.x.finite(),
        a.vel.y.finite(),
        speed_squared(a.vel) <= 10000real,
    ensures
        collided(a, b).a.vel.x.finite(),
        collided(a, b).a.vel.y.finite(),
        speed_squared(collided(a, b).a.vel) <= speed_squared(a.vel) + slack(8000000real),
{
    let dx = b.pos.x.minus(a.pos.x);
    let dy = b.pos.y.minus(a.pos.y);
    if touching(a, b) {
        lemma_touching_finite(a, b);
        lemma_unit_direction(dx, dy);
        let dist = square_norm(dx, dy).root();
        let nx = dx.over(dist);
        let ny = dy.over(dist);
        let rx = b.vel.x.minus(a.vel.x);
        let ry = b.vel.y.minus(a.vel.y);
        let px = rx.times(nx);
        let py = ry.times(ny);
        let approach = px.plus(py);
        if !approach.ge(encoded(0)) {
            let turn = encoded(ONE).plus(encoded(RESTITUTION)).negate();
            let scaled = turn.times(approach);
            let impulse = scaled.times(encoded(ONE));
            let lx = impulse.times(nx);
            let ly = impulse.times(ny);
            let ax = a.vel.x.minus(lx);
            let ay = a.vel.y.minus(ly);
            let vx = real_value(a.vel.x);
            let vy = real_value(a.vel.y);
            let mx = real_value(nx);
            let my = real_value(ny);
            let k = -real_value(turn);
            let c = 11real / 10real;
            let top = 800real;
            lemma_negated(size(a.vel.x), size(a.vel.x));
            lemma_negated(size(a.vel.y), size(a.vel.y));
            lemma_square_positive(vx);
            lemma_square_positive(vy);
            lemma_square_positive(mx);
            lemma_square_positive(my);
            assert(100real * 100real == 10000real);
            assert(c * c == 121real / 100real);
            lemma_root_within(vx, 100real);
            lemma_root_within(vy, 100real);
            lemma_root_within(mx, c);
            lemma_root_within(my, c);
            lemma_slow_exponent(a.vel.x);
            lemma_slow_exponent(a.vel.y);
            lemma_size_positive(b.vel.x);
            lemma_size_positive(b.vel.y);
            lemma_zero_exponent(b.vel.x);
            lemma_zero_exponent(b.vel.y);
            lemma_difference_close(b.vel.x, a.vel.x, top);
            lemma_difference_close(b.vel.y, a.vel.y, top);
            lemma_product_close(rx, nx, 101real, c, top);
            lemma_product_close(ry, ny, 101real, c, top);
            lemma_product_within(real_value(rx), mx, 101real, c);
            lemma_product_within(real_value(ry), my, 101real, c);
            lemma_plus_range(px, py);
            law_plus_close(px, py);
            lemma_close_within(approach, real_value(px) + real_value(py), top);
            lemma_turn();
            lemma_product_close(turn, approach, 19real / 10real, 225real, top);
            lemma_product_within(real_value(turn), real_value(approach), 19real / 10real, 225real);
            lemma2_to64_rest();
            let one = encoded(ONE);
            assert(one.exponent() == -52 && one.significand() == 0x10_0000_0000_0000);
            lemma_size_is(one, 52, 1real);
            lemma_product_close(scaled, one, 430real, 1real, top);
            assert(real_value(scaled) * 1real == real_value(scaled));
            lemma_product_close(impulse, nx, 431real, c, top);
            lemma_product_close(impulse, ny, 431real, c, top);
            lemma_product_within(real_value(impulse), mx, 431real, c);
            lemma_product_within(real_value(impulse), my, 431real, c);
            lemma_difference_close(a.vel.x, lx, top);
            lemma_difference_close(a.vel.y, ly, top);
            lemma_negated(k, real_value(approach));
            let steps = Steps {
                away_x: real_value(rx),
                away_y: real_value(ry),
                part_x: real_value(px),
                part_y: real_value(py),
                approach: real_value(approach),
                scaled: real_value(scaled),
                impulse: real_value(impulse),
                loss_x: real_value(lx),
                loss_y: real_value(ly),
                left_x: real_value(ax),
                left_y: real_value(ay),
            };
            assert(steps.follow(vx, vy, mx, my, k, slack(1000real)));
            lemma_bounced(steps, vx, vy, mx, my, k, slack(1000real));
            lemma_negated(size(ax), size(ax));
            lemma_negated(size(ay), size(ay));
        }
    }
}

proof fn lemma_zero_exponent(x: Double)
    requires
        x.zero(),
    ensures
        x.exponent() == -1074,
        x.finite(),
{
}

/// Meeting a row of bodies that stand firm hardly makes a slow body faster.
pub(crate) proof fn lemma_pressed_slow(body: Body, row: Seq<Body>, n: nat)
    requires
        has_place(body),
        body.vel.x.finite(),
        body.vel.y.finite(),
        speed_squared(body.vel) <= 9900real,
        n <= row.len() <= 10_000_000,
        forall|j: int| 0 <= j < row.len() ==> stands(#[trigger] row[j]),
        row_clear(body, row),
    ensures
        has_place(pressed(body, row, n)),
        pressed(body, row, n).vel.x.finite(),
        pressed(body, row, n).vel.y.finite(),
        speed_squared(pressed(body, row, n).vel) <= speed_squared(body.vel) + slack(
            8000000real * (n as real),
        ),
    decreases n,
{
    if n > 0 {
        let m = (n - 1) as nat;
        lemma_pressed_slow(body, row, m);
        assert(clear_direction(pressed(body, row, m), row[n - 1]));
        law_collision_keeps_place(pressed(body, row, m), row[n - 1]);
        law_firm_bodies_slow(pressed(body, row, m), row[n - 1]);
        assert(n as real == m as real + 1real);
    }
}

} // verus!
