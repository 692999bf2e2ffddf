//! One step of motion in real numbers: where a body goes, and how fast it is.

use crate::bounce::{
    law_plus_close, law_times_close, lemma_close_within, lemma_negated, lemma_product_close,
    lemma_product_within, lemma_root_within, lemma_square_positive, lemma_unit_direction,
    real_value, within,
};
use crate::double::{encoded, law_over_shrinks, lemma_magnitude_parts, Double, UNIT};
use crate::exact::{
    law_over_near, law_plus_near, law_root_near, law_times_near, least, lemma_associates,
    lemma_commutes, lemma_distributes, lemma_least, lemma_plus_range, lemma_power_adds,
    lemma_power_ordered, lemma_power_positive, lemma_regrouped, lemma_root_range,
    lemma_scaled_ordered, lemma_size_is, lemma_size_ordered, lemma_size_positive,
    lemma_slack_product, lemma_square_ordered, lemma_times_range, power, size, slack,
};
use crate::physics::{
    lemma_exponents_ordered, lemma_slow_exponent, lemma_square, square_norm, Body, Vec2, MAX_SPEED,
    STEP,
};
use crate::rounding::lemma_pow2_values;
use crate::space::{exact_square, law_distance_close, lemma_compared, lemma_side_close};
use vstd::arithmetic::power2::*;
use vstd::prelude::*;

verus! {

/// How a speed is cut down to a limit: by a factor that is 1 where the speed keeps the limit, and
/// that brings it to the limit where it does not, but for rounding. `square` is the exact square
/// of the speed.
pub open spec fn cuts(factor: real, square: real, limit: real, margin: real) -> bool {
    &&& 0real <= factor <= 1real
    &&& {
        ||| factor == 1real && square <= limit * limit + margin
        ||| square >= limit * limit - margin && within(
            (factor * factor) * square - limit * limit,
            margin,
        )
    }
}

/// The exponent of a number of moderate size.
pub(crate) proof fn lemma_moderate_exponent(x: Double, bound: real)
    requires
        x.finite(),
        within(real_value(x), bound),
        bound <= 100000real,
    ensures
        x.exponent() <= 0,
        size(x) <= bound,
{
    lemma_size_positive(x);
    lemma_square_ordered(size(x), 100000real);
    assert(100000real * 100000real == 10000000000real);
    lemma_slow_exponent(x);
}

/// The computed square of a length is near the exact one.
pub(crate) proof fn lemma_norm_close(x: Double, y: Double)
    requires
        x.finite(),
        y.finite(),
        within(real_value(x), 4000real),
        within(real_value(y), 4000real),
    ensures
        ({
            let sum = square_norm(x, y);
            let exact = real_value(x) * real_value(x) + real_value(y) * real_value(y);
            &&& sum.finite()
            &&& !sum.negative()
            &&& within(size(sum) - exact, 5real * slack(size(sum) + 1real))
            &&& exact <= 32000000real
        }),
{
    lemma_least();
    lemma_moderate_exponent(x, 4000real);
    lemma_moderate_exponent(y, 4000real);
    let sx = x.times(x);
    let sy = y.times(y);
    lemma_times_range(x, x);
    lemma_times_range(y, y);
    lemma_square(x);
    lemma_square(y);
    law_times_near(x, x);
    law_times_near(y, y);
    lemma_negated(size(x), size(x));
    lemma_negated(size(y), size(y));
    lemma_plus_range(sx, sy);
    law_plus_near(sx, sy);
    lemma_size_positive(sx);
    lemma_size_positive(sy);
    lemma_size_positive(sx.plus(sy));
    lemma_product_within(real_value(x), real_value(x), 4000real, 4000real);
    lemma_product_within(real_value(y), real_value(y), 4000real, 4000real);
}

/// The computed root of a number is near its exact root.
pub(crate) proof fn lemma_root_square(x: Double)
    requires
        x.finite(),
        !x.negative(),
        size(x) <= 33000000real,
    ensures
        x.root().finite(),
        !x.root().negative(),
        ({
            let l = size(x.root());
            &&& 0real <= l <= 6000real
            &&& within(size(x) - l * l, 3real * slack(l * l))
        }),
{
    law_root_near(x);
    let l = size(x.root());
    lemma_size_positive(x.root());
    let e = slack(l);
    // (l +- e)^2
    lemma_distributes(l, e, l + e);
    lemma_commutes(l, l + e);
    lemma_commutes(e, l + e);
    lemma_distributes(l, e, l);
    lemma_distributes(l, e, e);
    lemma_commutes(l, e);
    lemma_distributes(l, -e, l - e);
    lemma_commutes(l, l - e);
    lemma_commutes(-e, l - e);
    lemma_distributes(l, -e, l);
    lemma_distributes(l, -e, -e);
    lemma_negated(l, e);
    lemma_negated(e, l);
    lemma_negated(e, e);
    lemma_slack_product(l, l);
    lemma_slack_product(l, e);
    lemma_commutes(l, e);
    lemma_square_positive(l);
    assert(e * e == slack(slack(l * l)));
    if l > 6000real {
        lemma_square_ordered(6000real, l);
        assert(6000real * 6000real == 36000000real);
    }
}

/// Cutting a speed down to a limit multiplies both coordinates by the same factor.
pub proof fn law_cut_keeps_direction(vel: Vec2, limit: Double) -> (factor: real)
    requires
        vel.x.finite(),
        vel.y.finite(),
        within(real_value(vel.x), 4000real),
        within(real_value(vel.y), 4000real),
        limit.finite(),
        !limit.negative(),
        1real <= size(limit) <= 1000real,
        -60 <= limit.exponent() <= 0,
    ensures
        ({
            let c = Body::capped(vel, limit);
            let x = real_value(vel.x);
            let y = real_value(vel.y);
            &&& c.x.finite()
            &&& c.y.finite()
            &&& within(real_value(c.x) - factor * x, slack(5000real))
            &&& within(real_value(c.y) - factor * y, slack(5000real))
            &&& cuts(factor, x * x + y * y, size(limit), 1real / 500real)
        }),
{
    lemma_least();
    let x = real_value(vel.x);
    let y = real_value(vel.y);
    let n2 = x * x + y * y;
    let sum = square_norm(vel.x, vel.y);
    lemma_norm_close(vel.x, vel.y);
    let len = sum.root();
    lemma_root_square(sum);
    let l = size(len);
    let m = size(limit);
    let s = size(sum);
    lemma_size_positive(sum);
    lemma_compared(len, limit);
    lemma_square_positive(l);
    // The length is near the exact one.
    assert(within(n2 - l * l, 1real / 1000real));
    if len.gt(limit) {
        let q = limit.over(len);
        let f = size(q);
        lemma_exponents_ordered(limit, len);
        lemma_moderate_exponent(len, 6000real);
        law_over_near(limit, len);
        law_over_shrinks(limit, len);
        let one = encoded(UNIT);
        lemma2_to64_rest();
        assert(one.exponent() == -52 && one.significand() == 0x10_0000_0000_0000);
        lemma_size_is(one, 52, 1real);
        lemma_size_ordered(q, one);
        lemma_size_positive(q);
        assert(!q.negative()) by {
            reveal(Double::over_spec);
        }
        lemma_moderate_exponent(vel.x, 4000real);
        lemma_moderate_exponent(vel.y, 4000real);
        lemma_moderate_exponent(q, 1real);
        lemma_product_close(vel.x, q, 4000real, 1real, 4000real);
        lemma_product_close(vel.y, q, 4000real, 1real, 4000real);
        lemma_commutes(f, x);
        lemma_commutes(f, y);
        // f l is the limit.
        let fl = f * l;
        let e = slack(f) + least();
        lemma_distributes(f, -e, l);
        lemma_distributes(f, e, l);
        lemma_negated(e, l);
        lemma_distributes(slack(f), least(), l);
        lemma_slack_product(f, l);
        lemma_scaled_ordered(least(), slack(1real), l);
        lemma_slack_product(1real, l);
        assert(1real * l == l);
        lemma_scaled_ordered(0real, least(), l);
        assert(0real * l == 0real);
        lemma_scaled_ordered(f, 1real, l);
        lemma_scaled_ordered(0real, f, l);
        let g = fl - m;
        assert(within(g, slack(13000real)));
        // So are their squares.
        lemma_distributes(m, g, fl);
        lemma_commutes(m, fl);
        lemma_commutes(g, fl);
        lemma_distributes(m, g, m);
        lemma_distributes(m, g, g);
        lemma_commutes(m, g);
        lemma_product_within(g, m, slack(13000real), 1000real);
        lemma_product_within(g, g, slack(13000real), 1real);
        assert(within(fl * fl - m * m, 1real / 1000real));
        lemma_regrouped(f, l, f, l);
        let h = n2 - l * l;
        lemma_distributes(l * l, h, f * f);
        lemma_commutes(f * f, n2);
        lemma_commutes(f * f, l * l);
        lemma_square_ordered(f, 1real);
        assert(1real * 1real == 1real);
        lemma_product_within(h, f * f, 1real / 1000real, 1real);
        lemma_square_ordered(m, l);
        f
    } else {
        lemma_square_ordered(l, m);
        assert(1real * x == x && 1real * y == y);
        1real
    }
}

/// The square of the length of a vector that is off by a little.
proof fn lemma_length_off(x: real, y: real, p: real, q: real, e: real)
    requires
        within(x, 3500real),
        within(y, 3500real),
        within(p - x, e),
        within(q - y, e),
        0real <= e <= 1real / 10000000real,
    ensures
        within((p * p + q * q) - (x * x + y * y), 1real / 500real),
{
    lemma_coordinate_off(x, p, e);
    lemma_coordinate_off(y, q, e);
}

proof fn lemma_coordinate_off(x: real, p: real, e: real)
    requires
        within(x, 3500real),
        within(p - x, e),
        0real <= e <= 1real / 10000000real,
    ensures
        within(p * p - x * x, 1real / 1000real),
{
    let g = p - x;
    lemma_distributes(x, g, p);
    lemma_commutes(x, p);
    lemma_commutes(g, p);
    lemma_distributes(x, g, x);
    lemma_distributes(x, g, g);
    lemma_commutes(x, g);
    lemma_product_within(g, x, e, 3500real);
    lemma_product_within(g, g, e, e);
    lemma_scaled_ordered(e, 1real / 10000000real, e);
}

/// A factor that cuts a speed also cuts one that is nearly the same.
proof fn lemma_cuts_off(factor: real, square: real, exact: real, limit: real)
    requires
        cuts(factor, square, limit, 1real / 500real),
        within(square - exact, 1real / 500real),
    ensures
        cuts(factor, exact, limit, 1real / 100real),
{
    let g = square - exact;
    lemma_square_ordered(factor, 1real);
    assert(1real * 1real == 1real);
    lemma_distributes(exact, g, factor * factor);
    lemma_commutes(factor * factor, square);
    lemma_commutes(factor * factor, exact);
    lemma_product_within(g, factor * factor, 1real / 500real, 1real);
}

/// A factor that cuts a velocity also cuts one that is nearly the same.
pub(crate) proof fn lemma_cuts_moved(factor: real, x: real, y: real, p: real, q: real, limit: real)
    requires
        cuts(factor, x * x + y * y, limit, 1real / 100real),
        within(p, 3400real),
        within(q, 3400real),
        within(p - x, 1real / 10000000real),
        within(q - y, 1real / 10000000real),
    ensures
        cuts(factor, p * p + q * q, limit, 1real / 50real),
{
    lemma_length_off(x, y, p, q, 1real / 10000000real);
    let g = (x * x + y * y) - (p * p + q * q);
    lemma_square_ordered(factor, 1real);
    assert(1real * 1real == 1real);
    lemma_distributes(p * p + q * q, g, factor * factor);
    lemma_commutes(factor * factor, x * x + y * y);
    lemma_commutes(factor * factor, p * p + q * q);
    lemma_product_within(g, factor * factor, 1real / 500real, 1real);
}

/// What a step does, in real numbers. The push is added to the velocity, the speed is cut down to
/// 460, friction multiplies it, and the body moves on by the velocity that it then has, for the
/// length of the step.
pub proof fn law_step_in_numbers(body: Body, ax: Double, ay: Double, dt: Double, damp: Double) -> (
    factor: real)
    requires
        body.pos.x.finite(),
        body.pos.y.finite(),
        body.vel.x.finite(),
        body.vel.y.finite(),
        ax.finite(),
        ay.finite(),
        dt.finite(),
        damp.finite(),
        within(real_value(body.pos.x), 50000real),
        within(real_value(body.pos.y), 50000real),
        within(real_value(body.vel.x), 2000real),
        within(real_value(body.vel.y), 2000real),
        within(real_value(ax), 50000real),
        within(real_value(ay), 50000real),
        within(real_value(dt), 1real),
        within(real_value(damp), 1real),
        within(real_value(ax) * real_value(dt), 1000real),
        within(real_value(ay) * real_value(dt), 1000real),
    ensures
        ({
            let after = body.integrated(ax, ay, dt, damp);
            let t = real_value(dt);
            let d = real_value(damp);
            let ux = real_value(body.vel.x) + real_value(ax) * t;
            let uy = real_value(body.vel.y) + real_value(ay) * t;
            let tiny = 1real / 1000000real;
            &&& after.pos.x.finite() && after.pos.y.finite()
            &&& after.vel.x.finite() && after.vel.y.finite()
            &&& cuts(factor, ux * ux + uy * uy, 460real, 1real / 100real)
            &&& within(real_value(after.vel.x) - (factor * ux) * d, tiny)
            &&& within(real_value(after.vel.y) - (factor * uy) * d, tiny)
            &&& within(
                real_value(after.pos.x) - (real_value(body.pos.x) + real_value(after.vel.x) * t),
                tiny,
            )
            &&& within(
                real_value(after.pos.y) - (real_value(body.pos.y) + real_value(after.vel.y) * t),
                tiny,
            )
        }),
{
    lemma2_to64_rest();
    let limit = encoded(MAX_SPEED);
    assert(limit.exponent() == -44 && limit.significand() == 0x1C_C000_0000_0000);
    lemma_size_is(limit, 44, 460real);
    let t = real_value(dt);
    let ux = real_value(body.vel.x) + real_value(ax) * t;
    let uy = real_value(body.vel.y) + real_value(ay) * t;
    let e = 1real / 10000000real;
    lemma_pushed(body.vel.x, ax, dt);
    lemma_pushed(body.vel.y, ay, dt);
    let pushed = Vec2 {
        x: body.vel.x.plus(ax.times(dt)),
        y: body.vel.y.plus(ay.times(dt)),
    };
    let px = real_value(pushed.x);
    let py = real_value(pushed.y);
    let factor = law_cut_keeps_direction(pushed, limit);
    lemma_length_off(ux, uy, px, py, e);
    lemma_cuts_off(factor, px * px + py * py, ux * ux + uy * uy, 460real);
    let c = Body::capped(pushed, limit);
    lemma_slid(body.pos.x, c.x, px, ux, factor, dt, damp);
    lemma_slid(body.pos.y, c.y, py, uy, factor, dt, damp);
    factor
}

/// A coordinate of the velocity after the push.
proof fn lemma_pushed(v: Double, a: Double, dt: Double)
    requires
        v.finite(),
        a.finite(),
        dt.finite(),
        within(real_value(v), 2000real),
        within(real_value(a), 50000real),
        within(real_value(dt), 1real),
        within(real_value(a) * real_value(dt), 1000real),
    ensures
        v.plus(a.times(dt)).finite(),
        within(
            real_value(v.plus(a.times(dt))) - (real_value(v) + real_value(a) * real_value(dt)),
            1real / 10000000real,
        ),
        within(real_value(v.plus(a.times(dt))), 3001real),
{
    lemma_moderate_exponent(v, 2000real);
    lemma_moderate_exponent(a, 50000real);
    lemma_moderate_exponent(dt, 1real);
    let p = a.times(dt);
    lemma_times_range(a, dt);
    law_times_close(a, dt);
    lemma_close_within(p, real_value(a) * real_value(dt), 1000real);
    lemma_plus_range(v, p);
    law_plus_close(v, p);
    lemma_close_within(v.plus(p), real_value(v) + real_value(p), 4000real);
}

/// A coordinate of the velocity after friction, and where it leads.
proof fn lemma_slid(
    pos: Double,
    c: Double,
    p: real,
    u: real,
    factor: real,
    dt: Double,
    damp: Double,
)
    requires
        pos.finite(),
        c.finite(),
        dt.finite(),
        damp.finite(),
        within(real_value(pos), 50000real),
        within(p, 3001real),
        within(p - u, 1real / 10000000real),
        within(real_value(c) - factor * p, slack(5000real)),
        0real <= factor <= 1real,
        within(real_value(dt), 1real),
        within(real_value(damp), 1real),
    ensures
        ({
            let v = c.times(damp);
            let tiny = 1real / 1000000real;
            &&& v.finite()
            &&& within(real_value(v) - (factor * u) * real_value(damp), tiny)
            &&& pos.plus(v.times(dt)).finite()
            &&& within(
                real_value(pos.plus(v.times(dt))) - (real_value(pos) + real_value(v)
                    * real_value(dt)),
                tiny,
            )
        }),
{
    let d = real_value(damp);
    let e = 1real / 10000000real;
    // The velocity.
    lemma_product_within(factor, p, 1real, 3001real);
    lemma_distributes(p, -(p - u), factor);
    lemma_commutes(factor, p);
    lemma_commutes(factor, u);
    lemma_product_within(-(p - u), factor, e, 1real);
    let g = real_value(c) - factor * u;
    assert(within(g, 2real * e));
    lemma_distributes(factor * u, g, d);
    lemma_product_within(g, d, 2real * e, 1real);
    lemma_moderate_exponent(c, 3002real);
    lemma_moderate_exponent(damp, 1real);
    lemma_moderate_exponent(dt, 1real);
    lemma_product_close(c, damp, 3002real, 1real, 3002real);
    let v = c.times(damp);
    lemma_product_within(real_value(c), d, 3002real, 1real);
    // The way.
    lemma_moderate_exponent(v, 3003real);
    lemma_product_close(v, dt, 3003real, 1real, 3003real);
    lemma_product_within(real_value(v), real_value(dt), 3003real, 1real);
    let w = v.times(dt);
    lemma_moderate_exponent(pos, 50000real);
    lemma_plus_range(pos, w);
    law_plus_close(pos, w);
    lemma_close_within(pos.plus(w), real_value(pos) + real_value(w), 60000real);
}

/// The length of a step is a sixtieth, but for rounding.
pub(crate) proof fn lemma_step()
    ensures
        encoded(STEP).finite(),
        encoded(STEP).exponent() == -58,
        within(real_value(encoded(STEP)) - 1real / 60real, 1real / 1000000000000real),
{
    lemma2_to64_rest();
    let step = encoded(STEP);
    assert(step.exponent() == -58 && step.significand() == 0x11_1111_1111_1111);
    lemma_size_is(step, 58, 4803839602528529real / 288230376151711744real);
}

// ---------------------------------------------------------------------------
// Directions
// ---------------------------------------------------------------------------

/// The error next to zero is nothing even beside a thousandth of the smallest relative error.
proof fn lemma_least_tiny()
    ensures
        0real < least() <= slack(slack(1real)),
{
    lemma_least();
    lemma_power_ordered(-1075, -80);
    lemma_power_adds(-40, -40);
    lemma2_to64_rest();
    assert(power(-40) == slack(1real));
    lemma_slack_product(1real, slack(1real));
    assert(1real * slack(1real) == slack(1real));
}

/// The computed direction from one point to another, in real numbers: `share` is the inverse of
/// the distance `length`.
pub ghost struct Heading {
    pub share: real,
    pub length: real,
}

impl Heading {
    /// Whether this is the distance to a point with the given exact offset, and its inverse.
    pub open spec fn fits(self, x: real, y: real) -> bool {
        &&& self.share > 0real
        &&& self.length > 0real
        &&& self.share * self.length == 1real
        &&& within((self.share * self.share) * (x * x + y * y) - 1real, 1real / 1000000real)
        &&& within(self.length * self.length - (x * x + y * y), 1real / 100real)
    }
}

/// A computed direction has the exact offset as its direction, and length one.
pub proof fn law_direction_in_numbers(from: Vec2, to: Vec2) -> (h: Heading)
    requires
        from.x.finite(),
        from.y.finite(),
        to.x.finite(),
        to.y.finite(),
        within(real_value(from.x), 2000real),
        within(real_value(from.y), 2000real),
        within(real_value(to.x), 2000real),
        within(real_value(to.y), 2000real),
        exact_square(from, to) >= 9real / 10real,
    ensures
        ({
            let dx = to.x.minus(from.x);
            let dy = to.y.minus(from.y);
            let x = real_value(to.x) - real_value(from.x);
            let y = real_value(to.y) - real_value(from.y);
            let dist = square_norm(dx, dy).root();
            let nx = dx.over(dist);
            let ny = dy.over(dist);
            &&& h.fits(x, y)
            &&& h.length == size(dist)
            &&& dist.finite() && !dist.negative()
            &&& nx.finite() && ny.finite()
            &&& nx.exponent() <= 50 && ny.exponent() <= 50
            &&& within(real_value(nx), 11real / 10real)
            &&& within(real_value(ny), 11real / 10real)
            &&& within(real_value(nx) - h.share * x, slack(10real))
            &&& within(real_value(ny) - h.share * y, slack(10real))
        }),
{
    lemma_least_tiny();
    lemma_moderate_exponent(from.x, 2000real);
    lemma_moderate_exponent(from.y, 2000real);
    lemma_moderate_exponent(to.x, 2000real);
    lemma_moderate_exponent(to.y, 2000real);
    let dx = to.x.minus(from.x);
    let dy = to.y.minus(from.y);
    let x = real_value(to.x) - real_value(from.x);
    let y = real_value(to.y) - real_value(from.y);
    let d2 = x * x + y * y;
    let sum = square_norm(dx, dy);
    law_distance_close(from, to);
    lemma_side_close(from.x, to.x);
    lemma_side_close(from.y, to.y);
    lemma_product_within(x, x, 4000real, 4000real);
    lemma_product_within(y, y, 4000real, 4000real);
    lemma_size_positive(sum);
    lemma_root_square(sum);
    let dist = sum.root();
    let l = size(dist);
    lemma_square_positive(l);
    let w = l * l;
    assert(w >= 1real / 2real);
    if l <= 1real / 2real {
        lemma_square_ordered(l, 1real / 2real);
        assert((1real / 2real) * (1real / 2real) == 1real / 4real);
    }
    let g = 1real / l;
    assert(g * l == 1real) by (nonlinear_arith)
        requires
            l > 0real,
            g == 1real / l,
    ;
    assert(g > 0real) by (nonlinear_arith)
        requires
            l > 0real,
            g == 1real / l,
    ;
    if g > 2real {
        lemma_scaled_ordered(2real, g, l);
    }
    // The inverse of the square of the distance.
    lemma_regrouped(g, l, g, l);
    let g2 = g * g;
    assert(g2 * w == 1real);
    lemma_square_positive(g);
    lemma_square_ordered(g, 2real);
    assert(2real * 2real == 4real);
    let off = d2 - w;
    assert(within(off, 100real * slack(w) + 100real * slack(1real)));
    lemma_distributes(w, off, g2);
    lemma_commutes(g2, d2);
    lemma_commutes(g2, w);
    lemma_commutes(g2, slack(w));
    lemma_slack_product(w, g2);
    lemma_commutes(w, g2);
    lemma_scaled_ordered(off, 100real * slack(w) + 100real * slack(1real), g2);
    lemma_scaled_ordered(-(100real * slack(w) + 100real * slack(1real)), off, g2);
    lemma_distributes(100real * slack(w), 100real * slack(1real), g2);
    lemma_associates(100real, slack(w), g2);
    lemma_negated(100real * slack(w) + 100real * slack(1real), g2);
    lemma_scaled_ordered(g2, 4real, 100real * slack(1real));
    lemma_commutes(g2, 100real * slack(1real));
    // The coordinates.
    assert(dx.times(dx).plus(dy.times(dy)) == sum);
    assert(!sum.zero()) by {
        if sum.zero() {
            lemma_magnitude_parts(sum);
            assert(0real * power(sum.exponent()) == 0real);
        }
    }
    lemma_root_range(sum);
    lemma_normal_size(dist);
    lemma_unit_direction(dx, dy);
    let nx = dx.over(dist);
    let ny = dy.over(dist);
    let c = 11real / 10real;
    assert(c * c == 121real / 100real);
    lemma_square_positive(real_value(nx));
    lemma_square_positive(real_value(ny));
    lemma_root_within(real_value(nx), c);
    lemma_root_within(real_value(ny), c);
    lemma_direction_part(dx, dist, x, g);
    lemma_direction_part(dy, dist, y, g);
    Heading { share: g, length: l }
}

/// A number that is at least a half has an exponent next to that of one.
pub(crate) proof fn lemma_normal_size(x: Double)
    requires
        x.finite(),
        size(x) >= 1real / 2real,
    ensures
        x.exponent() >= -60,
{
    if x.exponent() < -60 {
        lemma_magnitude_parts(x);
        lemma_pow2_values();
        lemma_power_ordered(x.exponent(), -60);
        lemma_power_positive(x.exponent());
        lemma2_to64_rest();
        let m = x.significand() as real;
        let p = power(x.exponent());
        lemma_scaled_ordered(m, 9007199254740992real, p);
        assert(power(-60) == 1real / 1152921504606846976real);
    }
}

/// One coordinate of a direction.
pub(crate) proof fn lemma_direction_part(d: Double, dist: Double, x: real, g: real)
    requires
        d.finite(),
        dist.finite(),
        !dist.negative(),
        dist.exponent() >= -60,
        d.exponent() <= 303,
        g > 0real,
        g <= 2real,
        g * size(dist) == 1real,
        within(real_value(d) - x, slack(size(d)) + least()),
        d.over(dist).finite(),
        within(real_value(d.over(dist)), 11real / 10real),
    ensures
        within(real_value(d.over(dist)) - g * x, slack(10real)),
{
    lemma_least_tiny();
    let n = d.over(dist);
    let l = size(dist);
    let m = size(d);
    let q = size(n);
    law_over_near(d, dist);
    lemma_size_positive(d);
    lemma_size_positive(n);
    lemma_size_positive(dist);
    let e = slack(q) + least();
    lemma_scaled_ordered((q - e) * l, m, g);
    lemma_scaled_ordered(m, (q + e) * l, g);
    lemma_associates(q - e, l, g);
    lemma_associates(q + e, l, g);
    lemma_commutes(l, g);
    assert((q - e) * 1real == q - e && (q + e) * 1real == q + e);
    lemma_commutes(m, g);
    assert(within(q - g * m, e));
    let v = real_value(d);
    assert(within(real_value(n) - g * v, e)) by {
        assert(!n.zero() ==> n.negative() == (d.negative() != dist.negative())) by {
            reveal(Double::over_spec);
        }
        lemma_negated(g, m);
        if n.zero() {
            lemma_magnitude_parts(n);
            assert(0real * power(n.exponent()) == 0real);
        }
    }
    let off = v - x;
    lemma_distributes(x, off, g);
    lemma_commutes(g, x);
    lemma_commutes(g, v);
    let bound = slack(m) + least();
    lemma_product_within(off, g, bound, 2real);
    lemma_scaled_ordered(off, bound, g);
    lemma_scaled_ordered(-bound, off, g);
    lemma_negated(bound, g);
    lemma_distributes(slack(m), least(), g);
    lemma_slack_product(m, g);
    lemma_scaled_ordered(g, 2real, least());
    lemma_commutes(g, least());
}

} // verus!
