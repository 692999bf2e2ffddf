//! The spawn ring: players who join one after the other do not touch.

use crate::bounce::{
    law_plus_close, law_times_close, lemma_close_within, lemma_negated, lemma_value_negated,
    real_value, within,
};
use crate::double::{encoded, Double};
use crate::exact::{
    law_over_near, lemma_least, lemma_over_range, lemma_plus_overflow, lemma_plus_range,
    lemma_size_is, lemma_size_ordered, lemma_size_positive, lemma_square_ordered, lemma_times_range,
    size,
};
use crate::motion::lemma_moderate_exponent;
use crate::physics::{
    lemma_slow_exponent, lemma_square, square_norm, touching, Body, Vec2, ARENA_H, ARENA_W,
    PLAYER_R, TWO,
};
use crate::room::{ring_point, RING_R};
use vstd::arithmetic::power2::*;
use vstd::prelude::*;

verus! {

/// The cosine and the sine of the `k`-th of the ten spawn angles, to three digits.
pub open spec fn ring_direction(k: int) -> (real, real) {
    let a = 309real / 1000real;
    let b = 588real / 1000real;
    let c = 809real / 1000real;
    let d = 951real / 1000real;
    if k == 0 {
        (1real, 0real)
    } else if k == 1 {
        (c, b)
    } else if k == 2 {
        (a, d)
    } else if k == 3 {
        (-a, d)
    } else if k == 4 {
        (-c, b)
    } else if k == 5 {
        (-1real, 0real)
    } else if k == 6 {
        (-c, -b)
    } else if k == 7 {
        (-a, -d)
    } else if k == 8 {
        (a, -d)
    } else {
        (c, -b)
    }
}

/// Whether a heading is the direction of the `k`-th spawn angle, up to a thousandth.
pub open spec fn is_heading(heading: Vec2, k: int) -> bool {
    &&& heading.x.finite()
    &&& heading.y.finite()
    &&& within(real_value(heading.x) - ring_direction(k).0, 1real / 1000real)
    &&& within(real_value(heading.y) - ring_direction(k).1, 1real / 1000real)
}

/// Players spawn apart: the places that belong to two of the ten spawn angles are more than 44 away
/// from each other, so that whoever spawns there does not touch. It takes no more of the headings
/// than that they are correct to a thousandth.
pub proof fn law_spawn_apart(i: int, j: int, one: Vec2, other: Vec2)
    requires
        0 <= i < 10,
        0 <= j < 10,
        i != j,
        is_heading(one, i),
        is_heading(other, j),
    ensures
        ({
            let p = ring_point(one);
            let q = ring_point(other);
            // 44 squared.
            &&& square_norm(q.x.minus(p.x), q.y.minus(p.y)).gt(encoded(0x409E_4000_0000_0000))
            &&& !touching(Body::player_at(p.x, p.y), Body::player_at(q.x, q.y))
        }),
{
    lemma_least();
    let p = ring_point(one);
    let q = ring_point(other);
    let mid_x = encoded(ARENA_W).over(encoded(TWO));
    let mid_y = encoded(ARENA_H).over(encoded(TWO));
    lemma_middle();
    let (s, t) = ring_direction(i);
    let (u, v) = ring_direction(j);
    lemma_ring_coordinate(mid_x, one.x, s);
    lemma_ring_coordinate(mid_y, one.y, t);
    lemma_ring_coordinate(mid_x, other.x, u);
    lemma_ring_coordinate(mid_y, other.y, v);
    lemma_side_square(p.x, q.x, real_value(mid_x), s, u);
    lemma_side_square(p.y, q.y, real_value(mid_y), t, v);
    let dx = q.x.minus(p.x);
    let dy = q.y.minus(p.y);
    let sx = dx.times(dx);
    let sy = dy.times(dy);
    lemma_square(dx);
    lemma_square(dy);
    lemma_plus_range(sx, sy);
    lemma_plus_overflow(sx, sy);
    law_plus_close(sx, sy);
    lemma_size_positive(sx);
    lemma_size_positive(sy);
    lemma_size_positive(sx.plus(sy));
    lemma_reach();
    let reach = encoded(PLAYER_R).plus(encoded(PLAYER_R));
    lemma_larger(sx.plus(sy), reach.times(reach));
    lemma_larger(sx.plus(sy), encoded(0x409E_4000_0000_0000));
}

/// A number above 2000 is more than one below it.
proof fn lemma_larger(x: Double, y: Double)
    requires
        x.finite(),
        y.finite(),
        !x.negative(),
        !y.negative(),
        size(y) <= 2000real,
        size(x) > 2000real,
    ensures
        x.gt(y),
        x.ge(y),
{
    if x.magnitude() <= y.magnitude() {
        lemma_size_ordered(x, y);
    }
}

/// The reach of two players squared, and 44 squared.
proof fn lemma_reach()
    ensures
        ({
            let reach = encoded(PLAYER_R).plus(encoded(PLAYER_R));
            let square = encoded(0x409E_4000_0000_0000);
            &&& reach.times(reach).finite()
            &&& !reach.times(reach).negative()
            &&& size(reach.times(reach)) <= 2000real
            &&& square.finite()
            &&& !square.negative()
            &&& size(square) <= 2000real
        }),
{
    lemma_least();
    lemma2_to64();
    lemma2_to64_rest();
    let r = encoded(PLAYER_R);
    assert(r.exponent() == -48 && r.significand() == 0x16_0000_0000_0000);
    lemma_size_is(r, 48, 22real);
    let square = encoded(0x409E_4000_0000_0000);
    assert(square.exponent() == -42 && square.significand() == 0x1E_4000_0000_0000);
    lemma_size_is(square, 42, 1936real);
    let reach = r.plus(r);
    lemma_plus_range(r, r);
    law_plus_close(r, r);
    lemma_size_positive(reach);
    lemma_times_range(reach, reach);
    law_times_close(reach, reach);
    lemma_square(reach);
    lemma_negated(size(reach), size(reach));
    lemma_square_ordered(size(reach), 441real / 10real);
    assert((441real / 10real) * (441real / 10real) == 194481real / 100real) by (nonlinear_arith);
    lemma_size_positive(reach.times(reach));
}

/// The middle of the rink.
pub(crate) proof fn lemma_middle()
    ensures
        ({
            let x = encoded(ARENA_W).over(encoded(TWO));
            let y = encoded(ARENA_H).over(encoded(TWO));
            &&& x.finite()
            &&& y.finite()
            &&& x.exponent() <= 0
            &&& y.exponent() <= 0
            &&& within(real_value(x), 1000real)
            &&& within(real_value(y), 1000real)
        }),
{
    lemma_least();
    lemma2_to64();
    lemma2_to64_rest();
    let w = encoded(ARENA_W);
    let h = encoded(ARENA_H);
    let two = encoded(TWO);
    assert(w.exponent() == -42 && w.significand() == 0x1C_2000_0000_0000);
    assert(h.exponent() == -42 && h.significand() == 0x12_C000_0000_0000);
    assert(two.exponent() == -51 && two.significand() == 0x10_0000_0000_0000);
    lemma_size_is(w, 42, 1800real);
    lemma_size_is(h, 42, 1200real);
    lemma_size_is(two, 51, 2real);
    law_over_near(w, two);
    law_over_near(h, two);
    lemma_size_positive(w.over(two));
    lemma_size_positive(h.over(two));
    lemma_over_range(w, two);
    lemma_over_range(h, two);
}

/// A coordinate on the ring.
proof fn lemma_ring_coordinate(mid: Double, h: Double, t: real)
    requires
        mid.finite(),
        mid.exponent() <= 0,
        within(real_value(mid), 1000real),
        h.finite(),
        within(t, 1real),
        within(real_value(h) - t, 1real / 1000real),
    ensures
        ({
            let p = mid.plus(h.times(encoded(RING_R)));
            &&& p.finite()
            &&& p.exponent() <= 100
            &&& within(real_value(p) - (real_value(mid) + 200real * t), 1real / 4real)
        }),
{
    lemma_least();
    lemma2_to64();
    lemma2_to64_rest();
    let r = encoded(RING_R);
    assert(r.exponent() == -45 && r.significand() == 0x19_0000_0000_0000);
    lemma_size_is(r, 45, 200real);
    lemma_size_positive(h);
    lemma_square_ordered(size(h), 2real);
    assert(2real * 2real == 4real);
    lemma_slow_exponent(h);
    lemma_times_range(h, r);
    law_times_close(h, r);
    let s = h.times(r);
    assert(real_value(h) * 200real == 200real * real_value(h));
    lemma_size_positive(s);
    lemma_plus_range(mid, s);
    law_plus_close(mid, s);
    lemma_size_positive(mid.plus(s));
}

/// The squared difference of two coordinates on the ring. It is large if the directions are half a
/// unit apart.
proof fn lemma_side_square(p: Double, q: Double, mid: real, s: real, u: real)
    requires
        p.finite(),
        q.finite(),
        p.exponent() <= 100,
        q.exponent() <= 100,
        within(s, 1real),
        within(u, 1real),
        within(mid, 1000real),
        within(real_value(p) - (mid + 200real * s), 1real / 4real),
        within(real_value(q) - (mid + 200real * u), 1real / 4real),
    ensures
        ({
            let d = q.minus(p);
            &&& d.finite()
            &&& d.times(d).finite()
            &&& d.times(d).exponent() <= 800
            &&& size(d.times(d)) <= 170000real
            &&& u - s >= 1real / 2real || s - u >= 1real / 2real ==> size(d.times(d)) >= 9000real
        }),
{
    lemma_least();
    let d = q.minus(p);
    lemma_value_negated(p);
    lemma_size_positive(p);
    lemma_plus_range(q, p.negate());
    law_plus_close(q, p.negate());
    lemma_size_positive(d);
    lemma_times_range(d, d);
    law_times_close(d, d);
    lemma_negated(size(d), size(d));
    lemma_square_ordered(size(d), 402real);
    assert(402real * 402real == 161604real);
    lemma_square(d);
    lemma_size_positive(d.times(d));
    if u - s >= 1real / 2real || s - u >= 1real / 2real {
        lemma_square_ordered(99real, size(d));
        assert(99real * 99real == 9801real);
    }
}

/// Where the ring is, in real numbers: 200 around the middle of the rink.
pub(crate) proof fn lemma_ring_exact(heading: Vec2)
    requires
        heading.x.finite(),
        heading.y.finite(),
        within(real_value(heading.x), 1real),
        within(real_value(heading.y), 1real),
    ensures
        ({
            let p = ring_point(heading);
            let tiny = 1real / 1000000real;
            &&& p.x.finite()
            &&& p.y.finite()
            &&& within(real_value(p.x) - (900real + 200real * real_value(heading.x)), tiny)
            &&& within(real_value(p.y) - (600real + 200real * real_value(heading.y)), tiny)
        }),
{
    lemma2_to64_rest();
    lemma_middle();
    lemma_half_of(encoded(ARENA_W), 1800real);
    lemma_half_of(encoded(ARENA_H), 1200real);
    lemma_ring_part(encoded(ARENA_W).over(encoded(TWO)), heading.x);
    lemma_ring_part(encoded(ARENA_H).over(encoded(TWO)), heading.y);
}

pub(crate) proof fn lemma_half_of(x: Double, value: real)
    requires
        x.finite(),
        !x.negative(),
        x.exponent() == -42,
        x.significand() as real == value * 4398046511104real,
        1000real <= value <= 2000real,
    ensures
        within(real_value(x.over(encoded(TWO))) - value / 2real, 1real / 10000000real),
{
    lemma_least();
    lemma2_to64_rest();
    let two = encoded(TWO);
    assert(two.exponent() == -51 && two.significand() == 0x10_0000_0000_0000);
    lemma_size_is(two, 51, 2real);
    lemma_size_is(x, 42, value);
    law_over_near(x, two);
    lemma_size_positive(x.over(two));
    assert(!x.over(two).negative()) by {
        reveal(Double::over_spec);
    }
}

/// One coordinate of the ring.
proof fn lemma_ring_part(mid: Double, h: Double)
    requires
        mid.finite(),
        mid.exponent() <= 0,
        within(real_value(mid), 1000real),
        h.finite(),
        within(real_value(h), 1real),
    ensures
        ({
            let p = mid.plus(h.times(encoded(RING_R)));
            &&& p.finite()
            &&& within(
                real_value(p) - (real_value(mid) + 200real * real_value(h)),
                1real / 10000000real,
            )
        }),
{
    lemma2_to64_rest();
    let r = encoded(RING_R);
    assert(r.exponent() == -45 && r.significand() == 0x19_0000_0000_0000);
    lemma_size_is(r, 45, 200real);
    lemma_moderate_exponent(h, 1real);
    lemma_times_range(h, r);
    law_times_close(h, r);
    let s = h.times(r);
    assert(real_value(h) * 200real == 200real * real_value(h));
    lemma_close_within(s, real_value(h) * 200real, 800real);
    lemma_plus_range(mid, s);
    law_plus_close(mid, s);
    lemma_close_within(mid.plus(s), real_value(mid) + real_value(s), 2000real);
}

} // verus!
