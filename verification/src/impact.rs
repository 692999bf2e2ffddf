//! Collisions in real numbers: circles are pushed apart along the line between their centres, and
//! exchange what they approach each other by; the walls of the rink push back.

use crate::bounce::{
    law_plus_close, law_times_close, lemma_close_within, lemma_difference_close, lemma_negated,
    lemma_product_close, lemma_product_within, lemma_root_within, lemma_square_positive, lemma_turn,
    lemma_value_negated, real_value, within,
};
use crate::double::{encoded, law_times_commutes, Double};
use crate::drive::ordinary;
use crate::exact::{
    law_plus_near, law_times_near, lemma_associates, lemma_commutes, lemma_distributes, lemma_least,
    lemma_plus_range, lemma_regrouped, lemma_scaled_ordered, lemma_size_is, lemma_size_positive,
    lemma_square_ordered, lemma_times_range, size, slack,
};
use crate::motion::{law_direction_in_numbers, lemma_moderate_exponent, lemma_root_square, Heading};
use crate::physics::{
    collided, law_player_bounds, lemma_square, rebound, square_norm, touching, Body, HALF, ONE,
    PLAYER_R, RESTITUTION,
};
use crate::space::{
    exact_square, law_distance_close, lemma_compared, lemma_number_order, lemma_rank_value,
};
use vstd::arithmetic::power2::*;
use vstd::prelude::*;

verus! {

/// A product of two numbers that are known up to small errors.
proof fn lemma_tracked(a: Double, b: Double, x: real, y: real, ea: real, eb: real, m: real, n: real)
    requires
        a.finite(),
        b.finite(),
        a.exponent() + b.exponent() <= 800,
        within(real_value(a) - x, ea),
        within(real_value(b) - y, eb),
        within(x, m),
        within(real_value(a), m + 1real),
        within(real_value(b), n),
        800real <= (m + 1real) * n <= 1000000real,
    ensures
        a.times(b).finite(),
        a.times(b).exponent() <= a.exponent() + b.exponent() + 54 || a.times(b).exponent()
            <= -1073,
        ({
            let top = (m + 1real) * n;
            within(
                real_value(a.times(b)) - x * y,
                ea * n + eb * m + slack(top + top / 4real),
            )
        }),
        within(real_value(a.times(b)), (m + 1real) * n + 1real),
{
    let u = real_value(a);
    let v = real_value(b);
    lemma_product_close(a, b, m + 1real, n, (m + 1real) * n);
    // u v - x y = (u - x) v + x (v - y)
    lemma_distributes(x, u - x, v);
    lemma_distributes(y, v - y, x);
    lemma_commutes(x, v);
    lemma_commutes(x, y);
    lemma_product_within(u - x, v, ea, n);
    lemma_product_within(v - y, x, eb, m);
}

/// The share of the approach that a bounce turns around is 1.82.
proof fn lemma_turn_is()
    ensures
        ({
            let turn = encoded(ONE).plus(encoded(RESTITUTION)).negate();
            &&& turn.finite()
            &&& turn.exponent() <= 0
            &&& within(real_value(turn) + 182real / 100real, slack(4real))
        }),
        within(real_value(encoded(RESTITUTION)) - 82real / 100real, slack(1real)),
        encoded(RESTITUTION).finite(),
        encoded(RESTITUTION).exponent() == -53,
{
    lemma2_to64_rest();
    lemma_least();
    lemma_turn();
    let one = encoded(ONE);
    let rest = encoded(RESTITUTION);
    assert(one.exponent() == -52 && one.significand() == 0x10_0000_0000_0000);
    lemma_size_is(one, 52, 1real);
    assert(rest.exponent() == -53 && rest.significand() == 0x1A_3D70_A3D7_0A3D);
    lemma_size_is(rest, 53, 7385903388887613real / 9007199254740992real);
    lemma_plus_range(one, rest);
    law_plus_near(one, rest);
    lemma_size_positive(one.plus(rest));
    lemma_value_negated(one.plus(rest));
}

/// The numbers of a collision: the direction, and how much of the push and the exchange falls to
/// the first body.
pub ghost struct Impact {
    pub heading: Heading,
}

impl Impact {
    /// How fast the bodies move away from each other, along the line between their centres.
    pub open spec fn parting(self, a: Body, b: Body) -> real {
        let x = real_value(b.pos.x) - real_value(a.pos.x);
        let y = real_value(b.pos.y) - real_value(a.pos.y);
        let g = self.heading.share;
        (real_value(b.vel.x) - real_value(a.vel.x)) * (g * x) + (real_value(b.vel.y) - real_value(
            a.vel.y,
        )) * (g * y)
    }

    /// What they exchange: 1.82 times what they approach each other by if the other body is fixed,
    /// and half of that otherwise; nothing if they part already.
    pub open spec fn exchange(self, a: Body, b: Body) -> real {
        let p = self.parting(a, b);
        if p >= 0real {
            0real
        } else if b.is_static {
            -(p * 182real / 100real)
        } else {
            -(p * 91real / 100real)
        }
    }

    /// How far they are pushed: by what they overlap if the other body is fixed, and by half of it
    /// each otherwise.
    pub open spec fn push(self, a: Body, b: Body) -> real {
        let overlap = size(a.r) + size(b.r) - self.heading.length;
        if b.is_static {
            overlap
        } else {
            overlap / 2real
        }
    }

    /// Whether two bodies collided like this, in real numbers.
    pub open spec fn happened(
        self,
        a: Body,
        b: Body,
        a2: Body,
        b2: Body,
        magnitude: Double,
    ) -> bool {
        let x = real_value(b.pos.x) - real_value(a.pos.x);
        let y = real_value(b.pos.y) - real_value(a.pos.y);
        let g = self.heading.share;
        let j = self.exchange(a, b);
        let push = self.push(a, b);
        let overlap = size(a.r) + size(b.r) - self.heading.length;
        let tiny = 1real / 100000real;
        &&& self.heading.fits(x, y)
        &&& a2.pos.x.finite() && a2.pos.y.finite() && a2.vel.x.finite() && a2.vel.y.finite()
        &&& within(real_value(a2.pos.x) - (real_value(a.pos.x) - (g * x) * push), tiny)
        &&& within(real_value(a2.pos.y) - (real_value(a.pos.y) - (g * y) * push), tiny)
        &&& within(real_value(a2.vel.x) - (real_value(a.vel.x) - j * (g * x)), tiny)
        &&& within(real_value(a2.vel.y) - (real_value(a.vel.y) - j * (g * y)), tiny)
        &&& b.is_static ==> b2 == b
        &&& !b.is_static ==> {
            &&& b2.pos.x.finite() && b2.pos.y.finite() && b2.vel.x.finite() && b2.vel.y.finite()
            &&& within(real_value(b2.pos.x) - (real_value(b.pos.x) + (g * x) * push), tiny)
            &&& within(real_value(b2.pos.y) - (real_value(b.pos.y) + (g * y) * push), tiny)
            &&& within(real_value(b2.vel.x) - (real_value(b.vel.x) + j * (g * x)), tiny)
            &&& within(real_value(b2.vel.y) - (real_value(b.vel.y) + j * (g * y)), tiny)
        }
        &&& magnitude.finite()
        &&& overlap >= j ==> within(real_value(magnitude) - overlap, tiny)
        &&& overlap < j ==> within(real_value(magnitude) - j, tiny)
    }
}

/// Whether a body takes part in collisions as they happen in a rink: ordinary, and of a radius of
/// at most 200.
pub open spec fn solid(b: Body) -> bool {
    &&& ordinary(b)
    &&& b.r.finite()
    &&& !b.r.negative()
    &&& size(b.r) <= 200real
}

/// What a collision does, in real numbers. Bodies that touch are pushed apart along the line
/// between their centres until they do not overlap any more, and along the same line they bounce:
/// of the speed at which they approach each other, 0.82 is left, the other way. A fixed body is not
/// moved. The strength is how far they overlapped, or what they exchanged, whichever is more.
pub proof fn law_collision_in_numbers(a: Body, b: Body) -> (impact: Impact)
    requires
        solid(a),
        solid(b),
        touching(a, b),
        exact_square(a.pos, b.pos) >= 9real / 10real,
    ensures
        ({
            let c = collided(a, b);
            impact.happened(a, b, c.a, c.b, c.magnitude)
        }),
{
    lemma2_to64_rest();
    let h = law_direction_in_numbers(a.pos, b.pos);
    let impact = Impact { heading: h };
    let x = real_value(b.pos.x) - real_value(a.pos.x);
    let y = real_value(b.pos.y) - real_value(a.pos.y);
    let gx = h.share * x;
    let gy = h.share * y;
    let dx = b.pos.x.minus(a.pos.x);
    let dy = b.pos.y.minus(a.pos.y);
    let dist = square_norm(dx, dy).root();
    let nx = dx.over(dist);
    let ny = dy.over(dist);
    let contact = collided(a, b);
    lemma_length_bound(h, x, y);

    // How far they are pushed.
    let half = encoded(HALF);
    assert(half.exponent() == -53 && half.significand() == 0x10_0000_0000_0000);
    lemma_size_is(half, 53, 1real / 2real);
    lemma_size_positive(a.r);
    lemma_size_positive(b.r);
    lemma_moderate_exponent(a.r, 200real);
    lemma_moderate_exponent(b.r, 200real);
    lemma_moderate_exponent(dist, 6000real);
    let reach = a.r.plus(b.r);
    lemma_plus_range(a.r, b.r);
    law_plus_close(a.r, b.r);
    lemma_close_within(reach, size(a.r) + size(b.r), 800real);
    let overlap = reach.minus(dist);
    lemma_difference_close(reach, dist, 6400real);
    lemma_product_close(overlap, half, 6402real, 1real / 2real, 3300real);
    assert(real_value(overlap) * (1real / 2real) == real_value(overlap) / 2real);
    if h.length <= 9real / 10real {
        lemma_square_ordered(h.length, 9real / 10real);
        assert((9real / 10real) * (9real / 10real) == 81real / 100real) by (nonlinear_arith);
    }
    law_plus_near(a.r, b.r);
    lemma_touch_overlaps(a, b, h, reach);
    let push = if b.is_static {
        overlap
    } else {
        overlap.times(half)
    };
    let push_real = impact.push(a, b);
    assert(within(real_value(push) - push_real, slack(30000real)));
    lemma_push_part(push, nx, push_real, gx);
    lemma_push_part(push, ny, push_real, gy);
    lemma_moderate_exponent(a.pos.x, 2000real);
    lemma_moderate_exponent(a.pos.y, 2000real);
    lemma_moderate_exponent(b.pos.x, 2000real);
    lemma_moderate_exponent(b.pos.y, 2000real);
    lemma_shifted(a.pos.x, nx.times(push));
    lemma_shifted(a.pos.y, ny.times(push));
    lemma_shifted(b.pos.x, nx.times(push));
    lemma_shifted(b.pos.y, ny.times(push));

    // What they approach each other by.
    lemma_moderate_exponent(a.vel.x, 2000real);
    lemma_moderate_exponent(a.vel.y, 2000real);
    lemma_moderate_exponent(b.vel.x, 2000real);
    lemma_moderate_exponent(b.vel.y, 2000real);
    let rx = b.vel.x.minus(a.vel.x);
    let ry = b.vel.y.minus(a.vel.y);
    let qx = real_value(b.vel.x) - real_value(a.vel.x);
    let qy = real_value(b.vel.y) - real_value(a.vel.y);
    lemma_difference_close(b.vel.x, a.vel.x, 4000real);
    lemma_difference_close(b.vel.y, a.vel.y, 4000real);
    lemma_tracked(rx, nx, qx, gx, slack(5000real), slack(10real), 4000real, 11real / 10real);
    lemma_tracked(ry, ny, qy, gy, slack(5000real), slack(10real), 4000real, 11real / 10real);
    let px = rx.times(nx);
    let py = ry.times(ny);
    let approach = px.plus(py);
    lemma_plus_range(px, py);
    law_plus_close(px, py);
    lemma_close_within(approach, real_value(px) + real_value(py), 8900real);
    let p = impact.parting(a, b);
    assert(p == qx * gx + qy * gy);
    assert(within(real_value(approach) - p, slack(130000real)));
    let zero = encoded(0);
    lemma_size_positive(zero);
    if approach.ge(zero) {
        assert(real_value(approach) >= 0real) by {
            lemma_size_positive(approach);
        }
        let j = impact.exchange(a, b);
        lemma_product_within(j, gx, 1real / 1000000real, 2real);
        lemma_product_within(j, gy, 1real / 1000000real, 2real);
    } else {
        lemma_size_positive(approach);
        lemma_turn_is();
        let turn = encoded(ONE).plus(encoded(RESTITUTION)).negate();
        let m = real_value(approach);
        lemma_tracked(
            approach,
            turn,
            p,
            -182real / 100real,
            slack(130000real),
            slack(4real),
            8900real,
            183real / 100real,
        );
        lemma_times_commute(turn, approach);
        let scaled = turn.times(approach);
        let one = encoded(ONE);
        assert(one.exponent() == -52 && one.significand() == 0x10_0000_0000_0000);
        lemma_size_is(one, 52, 1real);
        let share = if b.is_static {
            one
        } else {
            half
        };
        let s = real_value(share);
        lemma_product_close(scaled, share, 16300real, 1real, 16300real);
        let impulse = scaled.times(share);
        let j = impact.exchange(a, b);
        assert(real_value(scaled) * 1real == real_value(scaled));
        assert(real_value(scaled) * (1real / 2real) == real_value(scaled) / 2real);
        assert(p * (-182real / 100real) == -(p * 182real / 100real)) by (nonlinear_arith);
        assert(within(real_value(scaled) + p * 182real / 100real, 1real / 2000000real));
        assert(within(real_value(impulse) - j, 1real / 1000000real));
        lemma_part(impulse, nx, j, gx);
        lemma_part(impulse, ny, j, gy);
        lemma_sped(a.vel.x, impulse.times(nx));
        lemma_sped(a.vel.y, impulse.times(ny));
        lemma_sped(b.vel.x, impulse.times(nx));
        lemma_sped(b.vel.y, impulse.times(ny));
        lemma_max(overlap, impulse);
    }
    impact
}

/// Bodies that touch overlap, up to rounding.
proof fn lemma_touch_overlaps(a: Body, b: Body, h: Heading, reach: Double)
    requires
        solid(a),
        solid(b),
        touching(a, b),
        reach == a.r.plus(b.r),
        reach.finite(),
        reach.exponent() <= 100,
        !reach.negative(),
        size(reach) <= 801real,
        h.length == size(square_norm(
            b.pos.x.minus(a.pos.x),
            b.pos.y.minus(a.pos.y),
        ).root()),
        h.length > 9real / 10real,
    ensures
        h.length <= size(reach) + 1real / 1000000real,
{
    lemma_least();
    lemma_moderate_exponent(a.pos.x, 2000real);
    lemma_moderate_exponent(a.pos.y, 2000real);
    lemma_moderate_exponent(b.pos.x, 2000real);
    lemma_moderate_exponent(b.pos.y, 2000real);
    let square = square_norm(b.pos.x.minus(a.pos.x), b.pos.y.minus(a.pos.y));
    law_distance_close(a.pos, b.pos);
    let x = real_value(b.pos.x) - real_value(a.pos.x);
    let y = real_value(b.pos.y) - real_value(a.pos.y);
    lemma_product_within(x, x, 4000real, 4000real);
    lemma_product_within(y, y, 4000real, 4000real);
    lemma_size_positive(square);
    lemma_root_square(square);
    let limit = reach.times(reach);
    lemma_times_range(reach, reach);
    lemma_square(reach);
    law_times_near(reach, reach);
    lemma_compared(square, limit);
    lemma_size_positive(limit);
    lemma_size_positive(reach);
    let l = h.length;
    let r = size(reach);
    let gap = l - r;
    if gap > 1real / 1000000real {
        // l^2 = r^2 + gap (l + r), so the gap would show.
        lemma_distributes(r, gap, l);
        lemma_commutes(r, l);
        lemma_commutes(gap, l);
        lemma_distributes(r, gap, r);
        lemma_commutes(l, r);
        assert(l * l == r * r + gap * r + gap * l);
        lemma_scaled_ordered(0real, gap, r);
        assert(0real * r == 0real);
        lemma_scaled_ordered(1real / 1000000real, gap, l);
        lemma_scaled_ordered(l, 6000real, l);
        lemma_square_positive(r);
    }
}

proof fn lemma_times_commute(a: Double, b: Double)
    ensures
        a.times(b) == b.times(a),
{
    law_times_commutes(a, b);
}

/// The length of a direction is bounded by the rink.
proof fn lemma_length_bound(h: Heading, x: real, y: real)
    requires
        h.fits(x, y),
        within(x, 4000real),
        within(y, 4000real),
    ensures
        h.length <= 5700real,
        within(h.share * x, 1100001real / 1000000real),
        within(h.share * y, 1100001real / 1000000real),
{
    lemma_product_within(x, x, 4000real, 4000real);
    lemma_product_within(y, y, 4000real, 4000real);
    if h.length > 5700real {
        lemma_square_ordered(5700real, h.length);
        assert(5700real * 5700real == 32490000real);
    }
    let g = h.share;
    lemma_regrouped(g, x, g, x);
    lemma_regrouped(g, y, g, y);
    lemma_distributes(x * x, y * y, g * g);
    lemma_commutes(g * g, x * x + y * y);
    lemma_commutes(g * g, x * x);
    lemma_commutes(g * g, y * y);
    lemma_square_positive(g * x);
    lemma_square_positive(g * y);
    let c = 11real / 10real;
    assert(c * c == 121real / 100real);
    lemma_root_within(g * x, c);
    lemma_root_within(g * y, c);
}

/// One coordinate of the push.
proof fn lemma_push_part(push: Double, n: Double, exact: real, g: real)
    requires
        push.finite(),
        n.finite(),
        push.exponent() <= 500,
        n.exponent() <= 50,
        within(real_value(push) - exact, slack(30000real)),
        within(exact, 6100real),
        within(real_value(n) - g, slack(10real)),
        within(real_value(n), 11real / 10real),
    ensures
        n.times(push).finite(),
        n.times(push).exponent() <= 700,
        within(real_value(n.times(push)) - g * exact, 1real / 1000000real),
        within(real_value(n.times(push)), 6800real),
{
    lemma_tracked(
        push,
        n,
        exact,
        g,
        slack(30000real),
        slack(10real),
        6100real,
        11real / 10real,
    );
    lemma_times_commute(push, n);
    lemma_commutes(exact, g);
}

/// One coordinate of the exchange.
proof fn lemma_part(impulse: Double, n: Double, exact: real, g: real)
    requires
        impulse.finite(),
        n.finite(),
        impulse.exponent() <= 500,
        n.exponent() <= 50,
        within(real_value(impulse) - exact, 1real / 1000000real),
        within(exact, 16500real),
        within(real_value(n) - g, slack(10real)),
        within(real_value(n), 11real / 10real),
    ensures
        impulse.times(n).finite(),
        impulse.times(n).exponent() <= 700,
        within(real_value(impulse.times(n)) - exact * g, 1real / 400000real),
        within(real_value(impulse.times(n)), 18200real),
{
    lemma_tracked(
        impulse,
        n,
        exact,
        g,
        1real / 1000000real,
        slack(10real),
        16500real,
        11real / 10real,
    );
}

/// A coordinate that is shifted.
proof fn lemma_shifted(pos: Double, by: Double)
    requires
        pos.finite(),
        by.finite(),
        pos.exponent() <= 0,
        by.exponent() <= 700,
        within(real_value(pos), 2000real),
        within(real_value(by), 6800real),
    ensures
        pos.minus(by).finite(),
        pos.plus(by).finite(),
        within(real_value(pos.minus(by)) - (real_value(pos) - real_value(by)), 1real / 1000000real),
        within(real_value(pos.plus(by)) - (real_value(pos) + real_value(by)), 1real / 1000000real),
{
    lemma_difference_close(pos, by, 9000real);
    lemma_plus_range(pos, by);
    law_plus_close(pos, by);
    lemma_close_within(pos.plus(by), real_value(pos) + real_value(by), 9000real);
}

/// A velocity that is changed.
proof fn lemma_sped(vel: Double, by: Double)
    requires
        vel.finite(),
        by.finite(),
        vel.exponent() <= 0,
        by.exponent() <= 700,
        within(real_value(vel), 2000real),
        within(real_value(by), 18200real),
    ensures
        vel.minus(by).finite(),
        vel.plus(by).finite(),
        within(real_value(vel.minus(by)) - (real_value(vel) - real_value(by)), 1real / 1000000real),
        within(real_value(vel.plus(by)) - (real_value(vel) + real_value(by)), 1real / 1000000real),
{
    lemma_difference_close(vel, by, 21000real);
    lemma_plus_range(vel, by);
    law_plus_close(vel, by);
    lemma_close_within(vel.plus(by), real_value(vel) + real_value(by), 21000real);
}

/// The larger of two numbers.
pub(crate) proof fn lemma_max(x: Double, y: Double)
    requires
        x.finite(),
        y.finite(),
    ensures
        x.max(y).finite(),
        real_value(x.max(y)) == if real_value(x) >= real_value(y) {
            real_value(x)
        } else {
            real_value(y)
        },
{
    if real_value(x) >= real_value(y) {
        lemma_number_order(x, y);
    }
    if real_value(y) >= real_value(x) {
        lemma_number_order(y, x);
    }
}

/// After a collision the bodies do not overlap any more: their distance is the sum of their radii,
/// but for rounding, and they lie to each other in the same direction as before: `k` times their
/// offset.
pub proof fn law_collision_separates(a: Body, b: Body) -> (k: real)
    requires
        solid(a),
        solid(b),
        touching(a, b),
        exact_square(a.pos, b.pos) >= 9real / 10real,
    ensures
        ({
            let c = collided(a, b);
            let reach = size(a.r) + size(b.r);
            let x = real_value(b.pos.x) - real_value(a.pos.x);
            let y = real_value(b.pos.y) - real_value(a.pos.y);
            let x2 = real_value(c.b.pos.x) - real_value(c.a.pos.x);
            let y2 = real_value(c.b.pos.y) - real_value(c.a.pos.y);
            &&& within(exact_square(c.a.pos, c.b.pos) - reach * reach, 1real / 4real)
            &&& k >= 0real
            &&& within(k * x - x2, 1real / 10000real)
            &&& within(k * y - y2, 1real / 10000real)
        }),
{
    let impact = law_collision_in_numbers(a, b);
    let c = collided(a, b);
    let reach = size(a.r) + size(b.r);
    let x = real_value(b.pos.x) - real_value(a.pos.x);
    let y = real_value(b.pos.y) - real_value(a.pos.y);
    let g = impact.heading.share;
    let l = impact.heading.length;
    lemma_size_positive(a.r);
    lemma_size_positive(b.r);
    lemma_length_bound(impact.heading, x, y);
    lemma_reached_out(g, l, x, reach);
    lemma_reached_out(g, l, y, reach);
    let x2 = real_value(c.b.pos.x) - real_value(c.a.pos.x);
    let y2 = real_value(c.b.pos.y) - real_value(c.a.pos.y);
    let push = impact.push(a, b);
    lemma_halved(g * x, reach - l);
    lemma_halved(g * y, reach - l);
    let ux = (g * x) * reach;
    let uy = (g * y) * reach;
    assert(within(x2 - ux, 1real / 40000real));
    assert(within(y2 - uy, 1real / 40000real));
    // The squares.
    let n = (g * x) * (g * x) + (g * y) * (g * y);
    lemma_regrouped(g, x, g, x);
    lemma_regrouped(g, y, g, y);
    lemma_distributes(x * x, y * y, g * g);
    lemma_commutes(g * g, x * x + y * y);
    lemma_commutes(g * g, x * x);
    lemma_commutes(g * g, y * y);
    lemma_regrouped(g * x, reach, g * x, reach);
    lemma_regrouped(g * y, reach, g * y, reach);
    lemma_distributes((g * x) * (g * x), (g * y) * (g * y), reach * reach);
    lemma_square_ordered(reach, 400real);
    assert(400real * 400real == 160000real);
    let off = n - 1real;
    lemma_distributes(1real, off, reach * reach);
    assert(1real * (reach * reach) == reach * reach);
    lemma_product_within(off, reach * reach, 1real / 1000000real, 160000real);
    lemma_product_within(g * x, reach, 12real / 10real, 400real);
    lemma_product_within(g * y, reach, 12real / 10real, 400real);
    lemma_square_shift(ux, x2);
    lemma_square_shift(uy, y2);
    let k = g * reach;
    lemma_scaled_ordered(0real, g, reach);
    assert(0real * reach == 0real);
    lemma_commutes(g, x);
    lemma_commutes(g, y);
    lemma_associates(x, g, reach);
    lemma_associates(y, g, reach);
    lemma_commutes(k, x);
    lemma_commutes(k, y);
    k
}

/// An offset and the push along it reach out as far as the radii together.
proof fn lemma_reached_out(g: real, l: real, x: real, reach: real)
    requires
        g * l == 1real,
    ensures
        x + (g * x) * (reach - l) == (g * x) * reach,
{
    let n = g * x;
    lemma_distributes(reach, -l, n);
    lemma_commutes(n, reach - l);
    lemma_commutes(n, reach);
    lemma_negated(l, n);
    lemma_commutes(l, n);
    lemma_commutes(g, x);
    lemma_associates(x, g, l);
    assert(x * 1real == x);
}

proof fn lemma_halved(u: real, v: real)
    ensures
        u * v == 2real * (u * (v / 2real)),
{
    assert(u * v == 2real * (u * (v / 2real))) by (nonlinear_arith);
}

proof fn lemma_square_shift(u: real, v: real)
    requires
        within(u, 480real),
        within(v - u, 1real / 40000real),
    ensures
        within(v * v - u * u, 1real / 40real),
{
    let g = v - u;
    lemma_distributes(u, g, v);
    lemma_commutes(u, v);
    lemma_commutes(g, v);
    lemma_distributes(u, g, u);
    lemma_distributes(u, g, g);
    lemma_commutes(u, g);
    lemma_product_within(g, u, 1real / 40000real, 480real);
    lemma_product_within(g, g, 1real / 40000real, 1real);
}

// ---------------------------------------------------------------------------
// The walls of the rink
// ---------------------------------------------------------------------------

/// Whether a coordinate was kept between two walls, in real numbers: what is beyond a wall is put
/// at the wall, and a velocity that points into it is turned around and cut to 0.82 of it.
pub open spec fn kept_between(
    low: real,
    high: real,
    pos: Double,
    vel: Double,
    pos2: Double,
    vel2: Double,
) -> bool {
    let p = real_value(pos);
    let v = real_value(vel);
    let back = within(real_value(vel2) + v * 82real / 100real, 1real / 1000000real);
    &&& p < low ==> real_value(pos2) == low && (v < 0real ==> back) && (v >= 0real ==> vel2 == vel)
    &&& p > high ==> real_value(pos2) == high && (v > 0real ==> back) && (v <= 0real ==> vel2
        == vel)
    &&& low <= p <= high ==> pos2 == pos && vel2 == vel
}

/// How hard a coordinate hits a wall: by its velocity into the wall, if it is beyond one.
pub open spec fn wall_hit(low: real, high: real, pos: Double, vel: Double) -> real {
    let p = real_value(pos);
    let v = real_value(vel);
    if p < low && v < 0real {
        -v
    } else if p > high && v > 0real {
        v
    } else {
        0real
    }
}

/// The walls keep a player between 50 and 1750 across and between 50 and 1150 down. The impact is
/// the larger of the speeds at which the player hit a wall.
pub proof fn law_walls_in_numbers(body: Body)
    requires
        body.r == encoded(PLAYER_R),
        body.pos.x.finite(),
        body.pos.y.finite(),
        body.vel.x.finite(),
        body.vel.y.finite(),
        within(real_value(body.vel.x), 20000real),
        within(real_value(body.vel.y), 20000real),
    ensures
        ({
            let (after, impact) = body.walled();
            let hx = wall_hit(50real, 1750real, body.pos.x, body.vel.x);
            let hy = wall_hit(50real, 1150real, body.pos.y, body.vel.y);
            &&& kept_between(
                50real,
                1750real,
                body.pos.x,
                body.vel.x,
                after.pos.x,
                after.vel.x,
            )
            &&& kept_between(
                50real,
                1150real,
                body.pos.y,
                body.vel.y,
                after.pos.y,
                after.vel.y,
            )
            &&& impact.finite()
            &&& real_value(impact) == if hx >= hy {
                hx
            } else {
                hy
            }
            &&& after.r == body.r
            &&& after.is_static == body.is_static
        }),
{
    lemma2_to64_rest();
    law_player_bounds(body);
    let low = encoded(0x4049_0000_0000_0000);
    let right = encoded(0x409B_5800_0000_0000);
    let bottom = encoded(0x4091_F800_0000_0000);
    assert(low.exponent() == -47 && low.significand() == 0x19_0000_0000_0000);
    assert(right.exponent() == -42 && right.significand() == 0x1B_5800_0000_0000);
    assert(bottom.exponent() == -42 && bottom.significand() == 0x11_F800_0000_0000);
    lemma_size_is(low, 47, 50real);
    lemma_size_is(right, 42, 1750real);
    lemma_size_is(bottom, 42, 1150real);
    let zero = encoded(0);
    lemma_size_positive(zero);
    lemma_rebound(body.pos.x, body.vel.x, low, right, zero);
    let x = rebound(body.pos.x, body.vel.x, low, right, zero);
    lemma_rebound(body.pos.y, body.vel.y, low, bottom, x.impact);
}

/// One coordinate.
pub(crate) proof fn lemma_rebound(
    pos: Double,
    vel: Double,
    low: Double,
    high: Double,
    impact: Double,
)
    requires
        pos.finite(),
        vel.finite(),
        low.finite(),
        high.finite(),
        impact.finite(),
        real_value(low) < real_value(high),
        real_value(impact) >= 0real,
        within(real_value(vel), 20000real),
    ensures
        ({
            let r = rebound(pos, vel, low, high, impact);
            let hit = wall_hit(real_value(low), real_value(high), pos, vel);
            &&& kept_between(real_value(low), real_value(high), pos, vel, r.pos, r.vel)
            &&& r.impact.finite()
            &&& real_value(r.impact) == if real_value(impact) >= hit {
                real_value(impact)
            } else {
                hit
            }
        }),
{
    let zero = encoded(0);
    lemma_size_positive(zero);
    lemma_exact_order(pos, low);
    lemma_exact_order(high, pos);
    lemma_exact_order(vel, zero);
    lemma_exact_order(zero, vel);
    lemma_turn_is();
    lemma_value_negated(vel);
    lemma_size_positive(vel);
    lemma_moderate_exponent(vel, 20000real);
    let rest = encoded(RESTITUTION);
    let back = vel.negate();
    lemma_times_range(back, rest);
    law_times_close(back, rest);
    let v = real_value(back);
    let g = real_value(rest) - 82real / 100real;
    lemma_distributes(82real / 100real, g, v);
    lemma_commutes(v, real_value(rest));
    lemma_product_within(g, v, slack(1real), 20000real);
    lemma_close_within(back.times(rest), v * real_value(rest), 20000real);
    lemma_max(impact, back);
    lemma_max(impact, vel);
}

/// Numbers are compared as the real numbers that they stand for.
pub(crate) proof fn lemma_exact_order(x: Double, y: Double)
    requires
        x.finite(),
        y.finite(),
    ensures
        x.lt(y) <==> real_value(x) < real_value(y),
        y.gt(x) <==> real_value(x) < real_value(y),
{
    if real_value(x) >= real_value(y) {
        lemma_number_order(x, y);
    } else if x.rank() >= y.rank() {
        lemma_rank_value(y, x);
    }
}

} // verus!
