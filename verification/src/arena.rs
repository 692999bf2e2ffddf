//! The rink and the levels in real numbers: where things stand, how large they are, and how far
//! apart.

use crate::bounce::{
    law_plus_close, law_times_close, lemma_close_within, lemma_difference_close, lemma_negated,
    lemma_product_within, lemma_value_negated, real_value, within,
};
use crate::double::{compose, encoded, Double};
use crate::exact::{
    law_over_near, law_plus_near, lemma_commutes, lemma_distributes, lemma_least,
    lemma_length_bound, lemma_near, lemma_plus_range, lemma_rounded_range, lemma_size_is,
    lemma_size_positive, lemma_times_range, power, size, slack,
};
use crate::level::{
    area_high, area_low, candidate, clear_of, enemy_count, exit_corner, exit_point, gap, item_count,
    keepouts, kind_at, laid_out, law_arena_contents, law_exit_at_corner, law_layout_clear, layout,
    lemma_area, lemma_corner, lemma_place_count, sampled, wall_count, Circle, Kind, LevelView,
    Placing, ENEMY_GAP, ENEMY_R, EXIT_CLEAR, EXIT_R, ITEM_GAP, ITEM_R, JITTER_HIGH, JITTER_LOW,
    SPAWN_CLEAR, WALL_GAP, WALL_R_HIGH, WALL_R_LOW,
};
use crate::motion::lemma_moderate_exponent;
use crate::physics::{rink_pillars, Body, Vec2, ARENA_H, ARENA_W, FRICTION, ONE, TWO};
use crate::random::uniform_value;
use crate::room::{ring_angle, PI, RING_PLACES};
use crate::rounding::{lemma_nearest_bound, nearest};
use crate::space::{exact_square, lemma_rank_value, lemma_reached, moderate_point};
use crate::spawn::{lemma_half_of, lemma_middle};
use vstd::arithmetic::power2::*;
use vstd::prelude::*;

verus! {

// ---------------------------------------------------------------------------
// The rink
// ---------------------------------------------------------------------------

/// Whether a body is a pillar of a radius, at rest at a point.
pub open spec fn pillar_in(b: Body, x: real, y: real, r: real) -> bool {
    &&& b.pos.x.finite() && real_value(b.pos.x) == x
    &&& b.pos.y.finite() && real_value(b.pos.y) == y
    &&& b.r.finite() && real_value(b.r) == r
    &&& real_value(b.vel.x) == 0real
    &&& real_value(b.vel.y) == 0real
    &&& b.is_static
}

/// Four pillars of radius 48 stand around the middle of the rink, and one of radius 36 in it.
pub proof fn law_pillars_in_numbers()
    ensures
        rink_pillars().len() == 5,
        pillar_in(rink_pillars()[0], 520real, 360real, 48real),
        pillar_in(rink_pillars()[1], 1280real, 360real, 48real),
        pillar_in(rink_pillars()[2], 520real, 840real, 48real),
        pillar_in(rink_pillars()[3], 1280real, 840real, 48real),
        pillar_in(rink_pillars()[4], 900real, 600real, 36real),
{
    lemma2_to64_rest();
    let left = encoded(0x4080_4000_0000_0000);
    assert(left.exponent() == -43 && left.significand() == 0x10_4000_0000_0000);
    lemma_size_is(left, 43, 520real);
    let right = encoded(0x4094_0000_0000_0000);
    assert(right.exponent() == -42 && right.significand() == 0x14_0000_0000_0000);
    lemma_size_is(right, 42, 1280real);
    let upper = encoded(0x4076_8000_0000_0000);
    assert(upper.exponent() == -44 && upper.significand() == 0x16_8000_0000_0000);
    lemma_size_is(upper, 44, 360real);
    let lower = encoded(0x408A_4000_0000_0000);
    assert(lower.exponent() == -43 && lower.significand() == 0x1A_4000_0000_0000);
    lemma_size_is(lower, 43, 840real);
    let wide = encoded(0x4048_0000_0000_0000);
    assert(wide.exponent() == -47 && wide.significand() == 0x18_0000_0000_0000);
    lemma_size_is(wide, 47, 48real);
    let mid_x = encoded(0x408C_2000_0000_0000);
    assert(mid_x.exponent() == -43 && mid_x.significand() == 0x1C_2000_0000_0000);
    lemma_size_is(mid_x, 43, 900real);
    let mid_y = encoded(0x4082_C000_0000_0000);
    assert(mid_y.exponent() == -43 && mid_y.significand() == 0x12_C000_0000_0000);
    lemma_size_is(mid_y, 43, 600real);
    let slim = encoded(0x4042_0000_0000_0000);
    assert(slim.exponent() == -47 && slim.significand() == 0x12_0000_0000_0000);
    lemma_size_is(slim, 47, 36real);
    lemma_zero();
}

proof fn lemma_zero()
    ensures
        real_value(encoded(0)) == 0real,
{
    assert(encoded(0).significand() == 0);
    assert(0real * power(encoded(0).exponent()) == 0real);
}

/// Velocity decays by a factor of about `exp(-2.35)` in a second.
pub(crate) proof fn lemma_friction(dt: Double)
    requires
        dt.finite(),
        0real <= real_value(dt) <= 1real,
    ensures
        ({
            let r = encoded(FRICTION).negate().times(dt);
            &&& r.finite()
            &&& within(real_value(r) + real_value(dt) * 235real / 100real, 1real / 100000000real)
        }),
{
    lemma2_to64_rest();
    let f = encoded(FRICTION);
    let g = f.negate();
    let d = real_value(dt);
    let value = 5291729562160333real / 2251799813685248real;
    assert(f.exponent() == -51 && f.significand() == 0x12_CCCC_CCCC_CCCD);
    lemma_size_is(f, 51, value);
    lemma_value_negated(f);
    lemma_moderate_exponent(dt, 1real);
    lemma_times_range(g, dt);
    law_times_close(g, dt);
    let off = value - 235real / 100real;
    lemma_product_within(off, d, 1real / 1000000000000real, 1real);
    lemma_product_within(-value, d, 3real, 1real);
    lemma_distributes(off, 235real / 100real, d);
    assert((235real / 100real) * d == d * 235real / 100real);
    lemma_negated(value, d);
    lemma_close_within(g.times(dt), (-value) * d, 800real);
}

/// The spawn ring has ten places: each player to join spawns a tenth of a turn further on.
pub proof fn law_spawn_angles(index: nat)
    requires
        index <= 1000,
    ensures
        ring_angle(index).finite(),
        within(
            real_value(ring_angle(index)) - index as real * 31415926535898real / 50000000000000real,
            1real / 1000000real,
        ),
{
    lemma2_to64_rest();
    lemma_least();
    let two = encoded(TWO);
    let pi = encoded(PI);
    let ten = encoded(RING_PLACES);
    assert(two.exponent() == -51 && two.significand() == 0x10_0000_0000_0000);
    lemma_size_is(two, 51, 2real);
    assert(pi.exponent() == -51 && pi.significand() == 0x19_21FB_5444_2D18);
    lemma_size_is(pi, 51, 7074237752028440real / 2251799813685248real);
    assert(ten.exponent() == -49 && ten.significand() == 0x14_0000_0000_0000);
    lemma_size_is(ten, 49, 10real);
    lemma_times_range(two, pi);
    law_times_close(two, pi);
    let turn = two.times(pi);
    lemma_close_within(turn, 2real * (7074237752028440real / 2251799813685248real), 800real);
    lemma_moderate_exponent(turn, 10real);
    law_over_near(turn, ten);
    let step = turn.over(ten);
    assert(!turn.negative() && !step.negative()) by {
        reveal(Double::times_spec);
        reveal(Double::over_spec);
    }
    lemma_size_positive(step);
    lemma_size_positive(turn);
    lemma_moderate_exponent(step, 1real);
    let s = 31415926535898real / 50000000000000real;
    let count = compose(false, nearest(index, 0, false));
    lemma_nearest_bound(index, 0);
    let n = index as real;
    if index > 0 {
        lemma2_to64();
        lemma_length_bound(index, 10);
        lemma_rounded_range(index, 0, false, count);
        lemma_near(index, 0, false, count);
        assert(power(0) == 1real);
    } else {
        assert(count.significand() == 0);
        assert(0real * power(count.exponent()) == 0real);
    }
    lemma_size_positive(count);
    lemma_moderate_exponent(count, 1001real);
    lemma_times_range(count, step);
    law_times_close(count, step);
    let off = size(count) - n;
    lemma_distributes(off, n, size(step));
    lemma_distributes(size(step) - s, s, n);
    lemma_commutes(size(step), n);
    lemma_product_within(off, size(step), 1real / 100000000real, 1real);
    lemma_product_within(size(step) - s, n, 1real / 10000000000real, 1000real);
    assert(s * n == n * 31415926535898real / 50000000000000real);
    lemma_close_within(count.times(step), size(count) * size(step), 2000real);
}

// ---------------------------------------------------------------------------
// Levels
// ---------------------------------------------------------------------------

/// A thing that a level is furnished with: where it stands, its radius, and the gap that it keeps
/// to what was there before it.
pub ghost struct Spot {
    pub at: Vec2,
    pub radius: real,
    pub gap: real,
}

/// The `k`-th thing in a level: the walls come first, enemies and items follow.
pub open spec fn spot(level: LevelView, k: int) -> Spot {
    let w = level.walls.len();
    let e = w + level.enemies.len();
    if k < w {
        Spot { at: level.walls[k].pos, radius: real_value(level.walls[k].r), gap: 30real }
    } else if k < e {
        Spot { at: level.enemies[k - w].body.pos, radius: 26real, gap: 24real }
    } else {
        Spot {
            at: Vec2 { x: level.items[k - e].x, y: level.items[k - e].y },
            radius: 16real,
            gap: 20real,
        }
    }
}

/// How many things are in a level.
pub open spec fn spots(level: LevelView) -> nat {
    level.walls.len() + level.enemies.len() + level.items.len()
}

/// Whether two points are a distance apart, but for rounding.
pub open spec fn apart(p: Vec2, q: Vec2, distance: real) -> bool {
    exact_square(p, q) >= distance * distance - 1real / 1000real
}

/// The circle of the `k`-th thing in a level.
proof fn lemma_spot(index: u8, words: Seq<u64>, k: int)
    requires
        0 <= k < spots(laid_out(index, words)),
    ensures
        spots(laid_out(index, words)) == layout(index, words).2.placed.len(),
        ({
            let c = layout(index, words).2.placed[k];
            let s = spot(laid_out(index, words), k);
            let kind = kind_at(index, words, k);
            &&& s.at == Vec2 { x: c.x, y: c.y }
            &&& moderate_point(s.at)
            &&& 90real <= real_value(c.x) <= 1710real
            &&& 90real <= real_value(c.y) <= 1110real
            &&& c.r.finite() && !c.r.negative() && c.r.exponent() <= 0
            &&& size(c.r) == s.radius
            &&& kind is Wall ==> 34real <= s.radius <= 64real
            &&& gap(kind).finite() && !gap(kind).negative() && gap(kind).exponent() <= 0
            &&& size(gap(kind)) == s.gap
        }),
{
    let (walls, enemies, items) = layout(index, words);
    let level = laid_out(index, words);
    let free = keepouts(level.exit);
    let none = Placing { at: 2, placed: Seq::empty() };
    lemma_place_count(none, words, Kind::Wall, free, wall_count(index));
    lemma_place_count(walls, words, Kind::Enemy, free, enemy_count(index));
    lemma_place_count(enemies, words, Kind::Item, free, item_count(index));
    let w = walls.placed.len() as int;
    let e = enemies.placed.len() as int;
    let c = items.placed[k];
    if k < e {
        assert(items.placed.take(e)[k] == enemies.placed[k]);
        if k < w {
            assert(enemies.placed.take(w)[k] == walls.placed[k]);
        }
    }
    law_layout_clear(index, words, k);
    lemma_area();
    lemma_sizes();
    lemma_rank_value(area_low(), c.x);
    lemma_rank_value(area_low(), c.y);
    lemma_rank_value(c.x, area_high(ARENA_W));
    lemma_rank_value(c.y, area_high(ARENA_H));
    lemma_moderate_exponent(c.x, 1710real);
    lemma_moderate_exponent(c.y, 1710real);
    if k < w {
        lemma_rank_value(encoded(WALL_R_LOW), c.r);
        lemma_rank_value(c.r, encoded(WALL_R_HIGH));
        lemma_size_positive(c.r);
        lemma_moderate_exponent(c.r, 64real);
    }
}

/// The numbers that levels are furnished by.
proof fn lemma_sizes()
    ensures
        size(encoded(WALL_R_LOW)) == 34real,
        size(encoded(WALL_R_HIGH)) == 64real,
        size(encoded(ENEMY_R)) == 26real,
        size(encoded(ITEM_R)) == 16real,
        size(encoded(WALL_GAP)) == 30real,
        size(encoded(ENEMY_GAP)) == 24real,
        size(encoded(ITEM_GAP)) == 20real,
        size(encoded(SPAWN_CLEAR)) == 260real,
        size(encoded(EXIT_R)) == 130real,
        size(encoded(EXIT_CLEAR)) == 80real,
        // 90, 1710 and 1110.
        size(encoded(0x4056_8000_0000_0000)) == 90real,
        size(encoded(0x409A_B800_0000_0000)) == 1710real,
        size(encoded(0x4091_5800_0000_0000)) == 1110real,
{
    lemma2_to64_rest();
    let x = encoded(WALL_R_LOW);
    assert(x.exponent() == -47 && x.significand() == 0x11_0000_0000_0000);
    lemma_size_is(x, 47, 34real);
    let x = encoded(WALL_R_HIGH);
    assert(x.exponent() == -46 && x.significand() == 0x10_0000_0000_0000);
    lemma_size_is(x, 46, 64real);
    let x = encoded(ENEMY_R);
    assert(x.exponent() == -48 && x.significand() == 0x1A_0000_0000_0000);
    lemma_size_is(x, 48, 26real);
    let x = encoded(ITEM_R);
    assert(x.exponent() == -48 && x.significand() == 0x10_0000_0000_0000);
    lemma_size_is(x, 48, 16real);
    let x = encoded(WALL_GAP);
    assert(x.exponent() == -48 && x.significand() == 0x1E_0000_0000_0000);
    lemma_size_is(x, 48, 30real);
    let x = encoded(ENEMY_GAP);
    assert(x.exponent() == -48 && x.significand() == 0x18_0000_0000_0000);
    lemma_size_is(x, 48, 24real);
    let x = encoded(ITEM_GAP);
    assert(x.exponent() == -48 && x.significand() == 0x14_0000_0000_0000);
    lemma_size_is(x, 48, 20real);
    let x = encoded(SPAWN_CLEAR);
    assert(x.exponent() == -44 && x.significand() == 0x10_4000_0000_0000);
    lemma_size_is(x, 44, 260real);
    let x = encoded(EXIT_R);
    assert(x.exponent() == -45 && x.significand() == 0x10_4000_0000_0000);
    lemma_size_is(x, 45, 130real);
    let x = encoded(EXIT_CLEAR);
    assert(x.exponent() == -46 && x.significand() == 0x14_0000_0000_0000);
    lemma_size_is(x, 46, 80real);
    let x = encoded(0x4056_8000_0000_0000);
    assert(x.exponent() == -46 && x.significand() == 0x16_8000_0000_0000);
    lemma_size_is(x, 46, 90real);
    let x = encoded(0x409A_B800_0000_0000);
    assert(x.exponent() == -42 && x.significand() == 0x1A_B800_0000_0000);
    lemma_size_is(x, 42, 1710real);
    let x = encoded(0x4091_5800_0000_0000);
    assert(x.exponent() == -42 && x.significand() == 0x11_5800_0000_0000);
    lemma_size_is(x, 42, 1110real);
}

/// A circle that is clear of another lies away from it.
proof fn lemma_clear(p: Circle, gap: Double, c: Circle)
    requires
        moderate_point(Vec2 { x: p.x, y: p.y }),
        moderate_point(Vec2 { x: c.x, y: c.y }),
        p.r.finite() && !p.r.negative() && p.r.exponent() <= 0 && size(p.r) <= 64real,
        c.r.finite() && !c.r.negative() && c.r.exponent() <= 0 && size(c.r) <= 300real,
        gap.finite() && !gap.negative() && gap.exponent() <= 0 && size(gap) <= 30real,
        clear_of(p.x, p.y, p.r.plus(gap), c),
    ensures
        exact_square(Vec2 { x: c.x, y: c.y }, Vec2 { x: p.x, y: p.y }) >= (size(p.r) + size(gap)
            + size(c.r)) * (size(p.r) + size(gap) + size(c.r)) - 1real / 10000real,
{
    lemma_least();
    lemma_size_positive(p.r);
    lemma_size_positive(c.r);
    lemma_size_positive(gap);
    let own = p.r.plus(gap);
    lemma_plus_range(p.r, gap);
    law_plus_near(p.r, gap);
    lemma_size_positive(own);
    let reach = c.r.plus(own);
    lemma_plus_range(c.r, own);
    law_plus_near(c.r, own);
    lemma_size_positive(reach);
    lemma_reached(Vec2 { x: c.x, y: c.y }, Vec2 { x: p.x, y: p.y }, reach);
    let t = size(p.r) + size(gap) + size(c.r);
    let r = size(reach);
    assert(within(r - t, 1real / 100000000real));
    lemma_distributes(r - t, t, r);
    lemma_distributes(r - t, t, t);
    lemma_commutes(r, t);
    lemma_product_within(r - t, r, 1real / 100000000real, 400real);
    lemma_product_within(r - t, t, 1real / 100000000real, 400real);
    lemma_product_within(t, t, 400real, 400real);
}

/// Everything in a new level lies inside the rink, 260 away from the middle, where players spawn,
/// and 210 away from the exit; each thing keeps its gap to those before it.
pub proof fn law_things_are_apart(index: u8, words: Seq<u64>, k: int)
    requires
        0 <= k < spots(laid_out(index, words)),
    ensures
        ({
            let level = laid_out(index, words);
            let s = spot(level, k);
            let own = s.radius + s.gap;
            &&& k < level.walls.len() ==> 34real <= s.radius <= 64real
            &&& 90real <= real_value(s.at.x) <= 1710real
            &&& 90real <= real_value(s.at.y) <= 1110real
            &&& apart(Vec2 { x: level.exit.x, y: level.exit.y }, s.at, own + 210real)
            &&& apart(rink_pillars()[4].pos, s.at, own + 260real)
            &&& forall|m: int|
                0 <= m < k ==> {
                    let t = #[trigger] spot(level, m);
                    apart(t.at, s.at, own + t.radius)
                }
        }),
{
    let level = laid_out(index, words);
    let placed = layout(index, words).2.placed;
    let s = spot(level, k);
    let kind = kind_at(index, words, k);
    let free = keepouts(level.exit);
    lemma_spot(index, words, k);
    law_layout_clear(index, words, k);
    let c = placed[k];
    assert forall|m: int| 0 <= m < k implies {
        let t = #[trigger] spot(level, m);
        apart(t.at, s.at, s.radius + s.gap + t.radius)
    } by {
        lemma_spot(index, words, m);
        assert(placed.take(k)[m] == placed[m]);
        lemma_clear(c, gap(kind), placed[m]);
    }
    law_exit_in_numbers(index, words);
    lemma_moderate_exponent(level.exit.x, 2000real);
    lemma_moderate_exponent(level.exit.y, 2000real);
    lemma_sizes();
    lemma_plus_range(encoded(EXIT_R), encoded(EXIT_CLEAR));
    law_plus_near(encoded(EXIT_R), encoded(EXIT_CLEAR));
    lemma_least();
    lemma_clear(c, gap(kind), free[1]);
    let own = s.radius + s.gap;
    lemma_moved_square(own + 210real, size(free[1].r) - 210real);
    assert(apart(Vec2 { x: level.exit.x, y: level.exit.y }, s.at, own + 210real));
    lemma2_to64_rest();
    lemma_middle();
    lemma_half_of(encoded(ARENA_W), 1800real);
    lemma_half_of(encoded(ARENA_H), 1200real);
    lemma_clear(c, gap(kind), free[0]);
    law_pillars_in_numbers();
    lemma_moved_square(real_value(c.x) - 900real, 900real - real_value(free[0].x));
    lemma_moved_square(real_value(c.y) - 600real, 600real - real_value(free[0].y));
    assert(apart(rink_pillars()[4].pos, s.at, own + 260real));
}

/// The square of a length that is slightly off.
proof fn lemma_moved_square(x: real, off: real)
    requires
        within(x, 1000real),
        within(off, 1real / 10000000real),
    ensures
        within((x + off) * (x + off) - x * x, 3real / 10000real),
{
    lemma_distributes(x, off, x + off);
    lemma_distributes(x, off, x);
    lemma_distributes(x, off, off);
    lemma_commutes(x, x + off);
    lemma_commutes(off, x + off);
    lemma_commutes(off, x);
    lemma_product_within(x, off, 1000real, 1real / 10000000real);
    lemma_product_within(off, off, 1real / 10000000real, 1real / 10000000real);
}

/// The first level has at most four walls, three enemies and five items; each further one has up
/// to two more walls, two more enemies, and one item less while there are more than two. An enemy
/// starts at rest and alive, with two hit points and one more for each level before.
pub proof fn law_levels_get_harder(index: u8, words: Seq<u64>)
    ensures
        ({
            let level = laid_out(index, words);
            &&& level.index == index
            &&& level.walls.len() <= 4 + 2 * index
            &&& level.enemies.len() <= 3 + 2 * index
            &&& level.items.len() <= 5
            &&& level.items.len() + index <= 5 || level.items.len() <= 2
            &&& forall|k: int|
                0 <= k < level.enemies.len() ==> {
                    let e = #[trigger] level.enemies[k];
                    &&& e.hp == 2 + index
                    &&& e.alive
                    &&& real_value(e.body.r) == 26real
                    &&& real_value(e.body.vel.x) == 0real
                    &&& real_value(e.body.vel.y) == 0real
                    &&& !e.body.is_static
                }
        }),
{
    law_arena_contents(index, words);
    lemma_sizes();
    lemma_zero();
}

/// The exit of a new level is of radius 130, and its centre at most 60 away from the corner of its
/// turn, in each coordinate.
pub proof fn law_exit_in_numbers(index: u8, words: Seq<u64>)
    ensures
        ({
            let exit = laid_out(index, words).exit;
            let x = if index % 4 == 0 || index % 4 == 2 {
                1580real
            } else {
                220real
            };
            let y = if index % 4 == 0 || index % 4 == 3 {
                980real
            } else {
                220real
            };
            &&& exit.x.finite() && exit.y.finite() && exit.r.finite()
            &&& within(real_value(exit.x) - x, 60real)
            &&& within(real_value(exit.y) - y, 60real)
            &&& real_value(exit.r) == 130real
        }),
{
    lemma2_to64_rest();
    let p = exit_point(index, words[0], words[1]);
    law_exit_at_corner(index, words[0], words[1]);
    lemma_sizes();
    let near = encoded(0x4064_0000_0000_0000);
    let far = encoded(0x4071_8000_0000_0000);
    assert(near.exponent() == -45 && near.significand() == 0x14_0000_0000_0000);
    lemma_size_is(near, 45, 160real);
    assert(far.exponent() == -44 && far.significand() == 0x11_8000_0000_0000);
    lemma_size_is(far, 44, 280real);
    let (left, right) = if index % 4 == 0 || index % 4 == 2 {
        let left = encoded(0x4097_C000_0000_0000);
        let right = encoded(0x4099_A000_0000_0000);
        assert(left.exponent() == -42 && left.significand() == 0x17_C000_0000_0000);
        lemma_size_is(left, 42, 1520real);
        assert(right.exponent() == -42 && right.significand() == 0x19_A000_0000_0000);
        lemma_size_is(right, 42, 1640real);
        (left, right)
    } else {
        (near, far)
    };
    let (upper, lower) = if index % 4 == 0 || index % 4 == 3 {
        let upper = encoded(0x408C_C000_0000_0000);
        let lower = encoded(0x4090_4000_0000_0000);
        assert(upper.exponent() == -43 && upper.significand() == 0x1C_C000_0000_0000);
        lemma_size_is(upper, 43, 920real);
        assert(lower.exponent() == -42 && lower.significand() == 0x10_4000_0000_0000);
        lemma_size_is(lower, 42, 1040real);
        (upper, lower)
    } else {
        (near, far)
    };
    lemma_rank_value(left, p.x);
    lemma_rank_value(p.x, right);
    lemma_rank_value(upper, p.y);
    lemma_rank_value(p.y, lower);
}

// ---------------------------------------------------------------------------
// Drawing from the stream
// ---------------------------------------------------------------------------

/// The part of a range that a word stands for: its upper 52 binary digits behind the point.
pub open spec fn part(word: u64) -> real {
    (word / 4096) as int as real / 4503599627370496real
}

/// A draw lies as far into its range as the word says.
pub proof fn law_draws_in_numbers(word: u64, low: Double, high: Double)
    requires
        low.finite(),
        high.finite(),
        within(real_value(low), 10000real),
        within(real_value(high), 10000real),
    ensures
        uniform_value(word, low, high).finite(),
        within(
            real_value(uniform_value(word, low, high)) - (real_value(low) + (real_value(high)
                - real_value(low)) * part(word)),
            1real / 1000000real,
        ),
{
    lemma2_to64_rest();
    lemma_least();
    let k = word / 4096;
    let one = encoded(ONE);
    let a = encoded((ONE + k) as u64);
    assert(k < 0x10_0000_0000_0000);
    assert(one.exponent() == -52 && one.significand() == 0x10_0000_0000_0000);
    lemma_size_is(one, 52, 1real);
    assert(a.exponent() == -52 && a.significand() == 0x10_0000_0000_0000 + k);
    let p = part(word);
    assert((0x10_0000_0000_0000 + k) as int as real == 4503599627370496real + k as int as real);
    lemma_size_is(a, 52, 1real + p);
    lemma_value_negated(one);
    lemma_plus_range(a, one.negate());
    law_plus_close(a, one.negate());
    let u = a.minus(one);
    lemma_size_positive(u);
    assert(within(real_value(u) - p, slack(4real)));
    lemma_moderate_exponent(u, 2real);
    lemma_moderate_exponent(low, 10000real);
    lemma_moderate_exponent(high, 10000real);
    lemma_difference_close(high, low, 20000real);
    let d = high.minus(low);
    lemma_moderate_exponent(d, 20001real);
    lemma_times_range(u, d);
    law_times_close(u, d);
    let t = real_value(high) - real_value(low);
    lemma_distributes(real_value(u) - p, p, real_value(d));
    lemma_product_within(real_value(u) - p, real_value(d), slack(4real), 20001real);
    lemma_distributes(real_value(d) - t, t, p);
    lemma_commutes(p, real_value(d));
    lemma_product_within(real_value(d) - t, p, slack(25000real), 1real);
    lemma_product_within(t, p, 20000real, 1real);
    lemma_close_within(u.times(d), real_value(u) * real_value(d), 30000real);
    lemma_plus_range(u.times(d), low);
    law_plus_close(u.times(d), low);
    lemma_close_within(u.times(d).plus(low), real_value(u.times(d)) + real_value(low), 50000real);
}

/// A candidate for a spot takes one word for each coordinate.
pub proof fn law_candidates_in_numbers(words: Seq<u64>, at: nat)
    ensures
        ({
            let p = candidate(words, at);
            let tiny = 1real / 1000000real;
            &&& within(real_value(p.x) - (90real + 1620real * part(words[at as int])), tiny)
            &&& within(real_value(p.y) - (90real + 1020real * part(words[at as int + 1])), tiny)
        }),
{
    lemma_area();
    lemma_sizes();
    law_draws_in_numbers(words[at as int], area_low(), area_high(ARENA_W));
    law_draws_in_numbers(words[at as int + 1], area_low(), area_high(ARENA_H));
}

/// A wall takes its radius from the stream.
pub proof fn law_wall_radii_in_numbers(placing: Placing, words: Seq<u64>)
    ensures
        within(
            real_value(placing.radius(words, Kind::Wall)) - (34real + 30real * part(
                words[placing.at as int],
            )),
            1real / 1000000real,
        ),
{
    lemma_sizes();
    law_draws_in_numbers(words[placing.at as int], encoded(WALL_R_LOW), encoded(WALL_R_HIGH));
}

/// The exit is moved off its corner by what the first two words say.
pub proof fn law_exit_is_drawn(index: u8, words: Seq<u64>)
    ensures
        ({
            let exit = laid_out(index, words).exit;
            let x = if index % 4 == 0 || index % 4 == 2 {
                1580real
            } else {
                220real
            };
            let y = if index % 4 == 0 || index % 4 == 3 {
                980real
            } else {
                220real
            };
            let tiny = 1real / 100000real;
            &&& within(real_value(exit.x) - (x - 60real + 120real * part(words[0])), tiny)
            &&& within(real_value(exit.y) - (y - 60real + 120real * part(words[1])), tiny)
        }),
{
    lemma2_to64_rest();
    lemma_corner(index);
    let corner = exit_corner(index);
    let low = encoded(JITTER_LOW);
    let high = encoded(JITTER_HIGH);
    assert(low.exponent() == -47 && low.significand() == 0x1E_0000_0000_0000);
    assert(high.exponent() == -47 && high.significand() == 0x1E_0000_0000_0000);
    lemma_size_is(low, 47, 60real);
    lemma_size_is(high, 47, 60real);
    law_draws_in_numbers(words[0], low, high);
    law_draws_in_numbers(words[1], low, high);
    if index % 4 == 0 || index % 4 == 2 {
        assert(corner.x.exponent() == -42 && corner.x.significand() == 0x18_B000_0000_0000);
        lemma_size_is(corner.x, 42, 1580real);
    } else {
        assert(corner.x.exponent() == -45 && corner.x.significand() == 0x1B_8000_0000_0000);
        lemma_size_is(corner.x, 45, 220real);
    }
    if index % 4 == 0 || index % 4 == 3 {
        assert(corner.y.exponent() == -43 && corner.y.significand() == 0x1E_A000_0000_0000);
        lemma_size_is(corner.y, 43, 980real);
    } else {
        assert(corner.y.exponent() == -45 && corner.y.significand() == 0x1B_8000_0000_0000);
        lemma_size_is(corner.y, 45, 220real);
    }
    lemma_moved(corner.x, uniform_value(words[0], low, high));
    lemma_moved(corner.y, uniform_value(words[1], low, high));
}

proof fn lemma_moved(x: Double, by: Double)
    requires
        x.finite(),
        by.finite(),
        within(real_value(x), 2000real),
        within(real_value(by), 100real),
    ensures
        within(real_value(x.plus(by)) - (real_value(x) + real_value(by)), 1real / 1000000real),
{
    lemma_moderate_exponent(x, 2000real);
    lemma_moderate_exponent(by, 100real);
    lemma_plus_range(x, by);
    law_plus_close(x, by);
    lemma_close_within(x.plus(by), real_value(x) + real_value(by), 2100real);
}

/// Whether a candidate is clear of everything.
pub open spec fn is_spot(
    p: Vec2,
    clearance: Double,
    free: Seq<Circle>,
    placed: Seq<Circle>,
) -> bool {
    &&& forall|i: int| 0 <= i < free.len() ==> clear_of(p.x, p.y, clearance, #[trigger] free[i])
    &&& forall|i: int|
        0 <= i < placed.len() ==> clear_of(p.x, p.y, clearance, #[trigger] placed[i])
}

/// Of the candidates the first that is clear is taken, and the stream goes on behind it; where
/// none is, nothing is placed, and the stream goes on behind all of them.
pub proof fn law_first_clear_spot_is_taken(
    words: Seq<u64>,
    at: nat,
    tries: nat,
    clearance: Double,
    free: Seq<Circle>,
    placed: Seq<Circle>,
) -> (j: nat)
    ensures
        j <= tries,
        forall|i: nat|
            i < j ==> !is_spot(#[trigger] candidate(words, at + 2 * i), clearance, free, placed),
        ({
            let (spot, end) = sampled(words, at, tries, clearance, free, placed);
            if j < tries {
                &&& spot == Some(candidate(words, at + 2 * j))
                &&& is_spot(candidate(words, at + 2 * j), clearance, free, placed)
                &&& end == at + 2 * j + 2
            } else {
                &&& spot is None
                &&& end == at + 2 * tries
            }
        }),
    decreases tries,
{
    if tries == 0 || is_spot(candidate(words, at), clearance, free, placed) {
        0
    } else {
        let rest = law_first_clear_spot_is_taken(
            words,
            at + 2,
            (tries - 1) as nat,
            clearance,
            free,
            placed,
        );
        assert forall|i: nat| i < rest + 1 implies !is_spot(
            #[trigger] candidate(words, at + 2 * i),
            clearance,
            free,
            placed,
        ) by {
            if i > 0 {
                let k = (i - 1) as nat;
                assert(at + 2 * i == at + 2 + 2 * k);
                assert(!is_spot(candidate(words, at + 2 + 2 * k), clearance, free, placed));
            }
        }
        rest + 1
    }
}

} // verus!
