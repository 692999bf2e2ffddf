//! How enemies move: they go after the nearest player, unless something is in their way.

use crate::bounce::{
    law_plus_close, law_times_close, lemma_close_within, lemma_difference_close, lemma_negated,
    lemma_product_within, lemma_root_within, lemma_square_positive, real_value, within,
};
use crate::chase::{clash_at, left_alone, lemma_alone, lemma_untouched_all};
use crate::double::{encoded, lemma_magnitude_parts, Double};
use crate::drive::{lemma_cut_bound, lemma_factored, lemma_passed, lemma_sixtieth, ordinary};
use crate::encounter::{law_one_of_row, law_two_of_crowd, only_each_other};
use crate::exact::{
    lemma_associates, lemma_commutes, lemma_distributes, lemma_least, lemma_plus_range,
    lemma_positive_product, lemma_regrouped, lemma_scaled_ordered, lemma_size_is,
    lemma_size_positive, lemma_square_ordered, lemma_times_range, power, slack,
};
use crate::impact::{
    kept_between, law_collision_in_numbers, lemma_exact_order, lemma_max, lemma_rebound, solid,
    Impact,
};
use crate::level::{
    enemies_alive, enemy_bodies, pursued, steered, target, Clash, LevelView, ENEMY_ACCEL, ENEMY_R,
    ENEMY_SPEED,
};
use crate::motion::{
    cuts, law_cut_keeps_direction, law_direction_in_numbers, law_step_in_numbers, lemma_cuts_moved,
    lemma_moderate_exponent, lemma_step, Heading,
};
use crate::physics::{
    collided, law_inside_untouched, rebound, touching, Body, ARENA_H, ARENA_W, ONE, STEP, WALL_PAD,
};
use crate::space::{
    exact_square, law_distance_close, law_target_is_nearest, lemma_compared, lemma_number_order,
    moderate_point,
};
use vstd::arithmetic::power2::*;
use vstd::prelude::*;

verus! {

/// How an enemy goes after a player: which one, in which direction, whether it is pulled at all,
/// and by how much its speed is cut.
pub ghost struct Hunt {
    pub target: int,
    pub heading: Heading,
    pub pulled: bool,
    pub first: real,
    pub second: real,
}

impl Hunt {
    /// The velocity after the pull, before any cut: 520 in a second, so a sixtieth of that in a
    /// step, towards the target.
    pub open spec fn pull(self, from: Body, to: Body) -> (real, real) {
        let x = real_value(to.pos.x) - real_value(from.pos.x);
        let y = real_value(to.pos.y) - real_value(from.pos.y);
        if self.pulled {
            (
                real_value(from.vel.x) + (self.heading.share * x) * 520real / 60real,
                real_value(from.vel.y) + (self.heading.share * y) * 520real / 60real,
            )
        } else {
            (real_value(from.vel.x), real_value(from.vel.y))
        }
    }

    /// Whether a body hunted the players for one step, in real numbers. The target is the nearest
    /// player. The pull goes straight towards the target, and is there exactly if the target is
    /// further than one away. The speed is cut to 460, slowed by friction, and after the move cut
    /// to 95.
    pub open spec fn hunted(self, from: Body, players: Seq<Body>, damp: real, after: Body) -> bool {
        let to = players[self.target];
        let x = real_value(to.pos.x) - real_value(from.pos.x);
        let y = real_value(to.pos.y) - real_value(from.pos.y);
        let (ux, uy) = self.pull(from, to);
        let wx = (self.first * ux) * damp;
        let wy = (self.first * uy) * damp;
        let tiny = 1real / 100000real;
        &&& 0 <= self.target < players.len()
        &&& forall|i: int|
            0 <= i < players.len() ==> {
                let other = exact_square(from.pos, (#[trigger] players[i]).pos);
                x * x + y * y <= other + 60real * slack(other + 1real)
            }
        &&& x * x + y * y >= 1001real / 1000real ==> self.pulled
        &&& x * x + y * y <= 999real / 1000real ==> !self.pulled
        &&& self.pulled ==> self.heading.fits(x, y)
        &&& cuts(self.first, ux * ux + uy * uy, 460real, 1real / 50real)
        &&& cuts(self.second, wx * wx + wy * wy, 95real, 1real / 50real)
        &&& after.pos.x.finite() && after.pos.y.finite()
        &&& after.vel.x.finite() && after.vel.y.finite()
        &&& within(real_value(after.vel.x) - self.second * wx, tiny)
        &&& within(real_value(after.vel.y) - self.second * wy, tiny)
        &&& within(real_value(after.pos.x) - (real_value(from.pos.x) + wx / 60real), tiny)
        &&& within(real_value(after.pos.y) - (real_value(from.pos.y) + wy / 60real), tiny)
    }
}

/// Steering leads an enemy towards the nearest player.
pub proof fn law_steering_hunts(body: Body, players: Seq<Body>, damp: Double) -> (hunt: Hunt)
    requires
        ordinary(body),
        players.len() > 0,
        forall|i: int| 0 <= i < players.len() ==> ordinary(#[trigger] players[i]),
        damp.finite(),
        within(real_value(damp), 1real),
    ensures
        hunt.hunted(body, players, real_value(damp), steered(body, players, damp)),
        steered(body, players, damp).r == body.r,
{
    lemma2_to64_rest();
    lemma_least();
    lemma_moderate_exponent(body.pos.x, 2000real);
    lemma_moderate_exponent(body.pos.y, 2000real);
    assert forall|i: int| 0 <= i < players.len() implies moderate_point(
        (#[trigger] players[i]).pos,
    ) by {
        lemma_moderate_exponent(players[i].pos.x, 2000real);
        lemma_moderate_exponent(players[i].pos.y, 2000real);
    }
    let j = law_target_is_nearest(body.pos, players);
    let t = target(body.pos, players, players.len());
    let to = players[j];
    assert(ordinary(to));
    law_distance_close(body.pos, to.pos);
    lemma_size_positive(t.square);
    let one = encoded(ONE);
    assert(one.exponent() == -52 && one.significand() == 0x10_0000_0000_0000);
    lemma_size_is(one, 52, 1real);
    lemma_compared(t.square, one);
    let pulled = t.square.gt(one);
    let step = encoded(STEP);
    let st = real_value(step);
    lemma_step();
    let d = real_value(damp);
    let vx = real_value(body.vel.x);
    let vy = real_value(body.vel.y);
    let x = real_value(to.pos.x) - real_value(body.pos.x);
    let y = real_value(to.pos.y) - real_value(body.pos.y);
    let heading = if pulled {
        law_direction_in_numbers(body.pos, to.pos)
    } else {
        Heading { share: 0real, length: 0real }
    };
    let pull = encoded(ENEMY_ACCEL);
    let (ax, ay) = if pulled {
        let dist = t.square.root();
        lemma_pull_push(t.dx.over(dist), heading.share * x);
        lemma_pull_push(t.dy.over(dist), heading.share * y);
        (t.dx.over(dist).times(pull), t.dy.over(dist).times(pull))
    } else {
        lemma_size_positive(encoded(0));
        assert(0real * st == 0real);
        (encoded(0), encoded(0))
    };
    let first = law_step_in_numbers(body, ax, ay, step, damp);
    let moved = pursued(body, players, damp);
    let (px, py) = if pulled {
        ((heading.share * x) * 520real / 60real, (heading.share * y) * 520real / 60real)
    } else {
        (0real, 0real)
    };
    let ux = vx + real_value(ax) * st;
    let uy = vy + real_value(ay) * st;
    lemma_cuts_moved(first, ux, uy, vx + px, vy + py, 460real);
    lemma_factored(first, ux, vx + px, d);
    lemma_factored(first, uy, vy + py, d);
    lemma_sixtieth(moved.vel.x, first, ux, d, st);
    lemma_sixtieth(moved.vel.y, first, uy, d, st);
    lemma_cut_bound(first, vx + px, vy + py, 460real);
    let wx = (first * (vx + px)) * d;
    let wy = (first * (vy + py)) * d;
    lemma_product_within(first * (vx + px), d, 461real, 1real);
    lemma_product_within(first * (vy + py), d, 461real, 1real);
    let limit = encoded(ENEMY_SPEED);
    assert(limit.exponent() == -46 && limit.significand() == 0x17_C000_0000_0000);
    lemma_size_is(limit, 46, 95real);
    let second = law_cut_keeps_direction(moved.vel, limit);
    lemma_second_cut(
        second,
        real_value(moved.vel.x),
        real_value(moved.vel.y),
        wx,
        wy,
    );
    Hunt { target: j, heading, pulled, first, second }
}

/// The push of one coordinate of a direction.
proof fn lemma_pull_push(n: Double, exact: real)
    requires
        n.finite(),
        within(real_value(n), 11real / 10real),
        within(real_value(n) - exact, slack(10real)),
    ensures
        ({
            let a = n.times(encoded(ENEMY_ACCEL));
            let t = real_value(encoded(STEP));
            &&& a.finite()
            &&& within(real_value(a), 50000real)
            &&& within(real_value(a) * t, 1000real)
            &&& within(real_value(a) * t - exact * 520real / 60real, 1real / 10000000real)
            &&& within(exact * 520real / 60real, 10real)
        }),
{
    lemma2_to64_rest();
    lemma_step();
    let pull = encoded(ENEMY_ACCEL);
    assert(pull.exponent() == -43 && pull.significand() == 0x10_4000_0000_0000);
    lemma_size_is(pull, 43, 520real);
    lemma_moderate_exponent(n, 2real);
    lemma_times_range(n, pull);
    law_times_close(n, pull);
    let a = n.times(pull);
    let v = real_value(n) * 520real;
    lemma_close_within(a, v, 800real);
    let t = real_value(encoded(STEP));
    let g = t - 1real / 60real;
    let w = real_value(a);
    lemma_distributes(1real / 60real, g, w);
    lemma_commutes(t, w);
    lemma_product_within(g, w, 1real / 1000000000000real, 801real);
    assert((1real / 60real) * w == w / 60real);
}

/// The cut to enemy speed.
proof fn lemma_second_cut(second: real, x: real, y: real, wx: real, wy: real)
    requires
        cuts(second, x * x + y * y, 95real, 1real / 500real),
        within(wx, 461real),
        within(wy, 461real),
        within(x - wx, 1real / 400000real),
        within(y - wy, 1real / 400000real),
    ensures
        cuts(second, wx * wx + wy * wy, 95real, 1real / 50real),
        within(second * x - second * wx, 1real / 400000real),
        within(second * y - second * wy, 1real / 400000real),
{
    lemma_square_moved(wx, x);
    lemma_square_moved(wy, y);
    let g = (x * x + y * y) - (wx * wx + wy * wy);
    lemma_square_ordered(second, 1real);
    assert(1real * 1real == 1real);
    lemma_distributes(wx * wx + wy * wy, g, second * second);
    lemma_commutes(second * second, x * x + y * y);
    lemma_commutes(second * second, wx * wx + wy * wy);
    lemma_product_within(g, second * second, 1real / 100real, 1real);
    lemma_scaled_ordered(g, 1real / 150real, second * second);
    lemma_scaled_ordered(-1real / 150real, g, second * second);
    lemma_distributes(wx, x - wx, second);
    lemma_distributes(wy, y - wy, second);
    lemma_commutes(second, x);
    lemma_commutes(second, y);
    lemma_commutes(second, wx);
    lemma_commutes(second, wy);
    lemma_product_within(x - wx, second, 1real / 400000real, 1real);
    lemma_product_within(y - wy, second, 1real / 400000real, 1real);
}

proof fn lemma_square_moved(w: real, x: real)
    requires
        within(w, 461real),
        within(x - w, 1real / 400000real),
    ensures
        within(x * x - w * w, 1real / 300real),
{
    let g = x - w;
    lemma_distributes(w, g, x);
    lemma_commutes(w, x);
    lemma_commutes(g, x);
    lemma_distributes(w, g, w);
    lemma_distributes(w, g, g);
    lemma_commutes(w, g);
    lemma_product_within(g, w, 1real / 400000real, 461real);
    lemma_product_within(g, g, 1real / 400000real, 1real);
}

// ---------------------------------------------------------------------------
// Hunting in a level
// ---------------------------------------------------------------------------

/// Whether nothing is in an enemy's way in a step: no wall, nobody whom it meets, and not the edge
/// of the rink.
pub open spec fn free_to_hunt(level: LevelView, players: Seq<Body>, damp: Double, k: int) -> bool {
    let body = steered(level.enemies[k].body, players, damp);
    &&& forall|j: int| 0 <= j < level.walls.len() ==> !touching(body, #[trigger] level.walls[j])
    &&& left_alone(level, players, damp, k)
    &&& 54001real / 1000real <= real_value(body.pos.x) <= 1745999real / 1000real
    &&& 54001real / 1000real <= real_value(body.pos.y) <= 1145999real / 1000real
}

/// Enemies go after the nearest player. Where nothing is in its way, a step pulls an enemy by 520
/// in a second straight towards the nearest player, moves it on, and keeps its speed at 95 or
/// below.
pub proof fn law_enemies_hunt(level: LevelView, players: Seq<Body>, damp: Double, k: int) -> (hunt:
    Hunt)
    requires
        0 <= k < level.enemies.len(),
        level.enemies[k].alive,
        level.enemies[k].body.r == encoded(ENEMY_R),
        ordinary(level.enemies[k].body),
        players.len() > 0,
        forall|i: int| 0 <= i < players.len() ==> ordinary(#[trigger] players[i]),
        damp.finite(),
        within(real_value(damp), 1real),
        free_to_hunt(level, players, damp, k),
    ensures
        hunt.hunted(
            level.enemies[k].body,
            players,
            real_value(damp),
            level.stepped(players, damp).enemies[k].body,
        ),
{
    let body = level.enemies[k].body;
    let hunt = law_steering_hunts(body, players, damp);
    let after = steered(body, players, damp);
    lemma_enemy_inside(after);
    law_inside_untouched(after);
    lemma_passed(after, level.walls, level.walls.len());
    let chasing = level.chasing(players, damp);
    assert(chasing[k].body == after);
    let start = level.before_clash(players, damp);
    lemma_untouched_all(
        enemy_bodies(chasing),
        enemies_alive(chasing),
        k,
        level.enemies.len() as int,
    );
    assert(start.enemies[k].body == after);
    lemma_alone(start, k, level.enemies.len() as int);
    hunt
}

/// An enemy whose place is between the edges of the rink is not pushed by them.
proof fn lemma_enemy_inside(body: Body)
    requires
        body.r == encoded(ENEMY_R),
        body.pos.x.finite(),
        body.pos.y.finite(),
        54001real / 1000real <= real_value(body.pos.x) <= 1745999real / 1000real,
        54001real / 1000real <= real_value(body.pos.y) <= 1145999real / 1000real,
    ensures
        !body.pos.x.lt(body.low_bound()),
        !body.pos.y.lt(body.low_bound()),
        !body.pos.x.gt(body.high_bound(encoded(ARENA_W))),
        !body.pos.y.gt(body.high_bound(encoded(ARENA_H))),
{
    lemma_enemy_bounds(body);
    lemma_number_order(body.pos.x, body.low_bound());
    lemma_number_order(body.pos.y, body.low_bound());
    lemma_number_order(body.high_bound(encoded(ARENA_W)), body.pos.x);
    lemma_number_order(body.high_bound(encoded(ARENA_H)), body.pos.y);
}

/// The centre of an enemy may be between 54 and 1746 across, and between 54 and 1146 down.
proof fn lemma_enemy_bounds(body: Body)
    requires
        body.r == encoded(ENEMY_R),
    ensures
        body.low_bound().finite(),
        body.high_bound(encoded(ARENA_W)).finite(),
        body.high_bound(encoded(ARENA_H)).finite(),
        within(real_value(body.low_bound()) - 54real, 1real / 1000000real),
        within(real_value(body.high_bound(encoded(ARENA_W))) - 1746real, 1real / 1000000real),
        within(real_value(body.high_bound(encoded(ARENA_H))) - 1146real, 1real / 1000000real),
{
    lemma2_to64_rest();
    let pad = encoded(WALL_PAD);
    let r = encoded(ENEMY_R);
    let w = encoded(ARENA_W);
    let h = encoded(ARENA_H);
    assert(pad.exponent() == -48 && pad.significand() == 0x1C_0000_0000_0000);
    assert(r.exponent() == -48 && r.significand() == 0x1A_0000_0000_0000);
    assert(w.exponent() == -42 && w.significand() == 0x1C_2000_0000_0000);
    assert(h.exponent() == -42 && h.significand() == 0x12_C000_0000_0000);
    lemma_size_is(pad, 48, 28real);
    lemma_size_is(r, 48, 26real);
    lemma_size_is(w, 42, 1800real);
    lemma_size_is(h, 42, 1200real);
    lemma_plus_range(pad, r);
    law_plus_close(pad, r);
    lemma_close_within(pad.plus(r), 54real, 800real);
    lemma_difference_close(w, pad, 2000real);
    lemma_difference_close(h, pad, 2000real);
    lemma_difference_close(w.minus(pad), r, 2000real);
    lemma_difference_close(h.minus(pad), r, 2000real);
}

/// An enemy at rest sets off straight towards the nearest player, each coordinate of its velocity
/// by the offset in that coordinate, and comes strictly nearer.
pub proof fn law_hunting_brings_nearer(
    hunt: Hunt,
    from: Body,
    players: Seq<Body>,
    damp: real,
    after: Body,
)
    requires
        hunt.hunted(from, players, damp, after),
        from.vel.x.zero(),
        from.vel.y.zero(),
        1real / 100real <= damp <= 1real,
        exact_square(from.pos, players[hunt.target].pos) >= 1001real / 1000real,
    ensures
        ({
            let to = players[hunt.target];
            let x = real_value(to.pos.x) - real_value(from.pos.x);
            let y = real_value(to.pos.y) - real_value(from.pos.y);
            let speed = (520real / 60real) * damp;
            let tiny = 1real / 100000real;
            &&& within(real_value(after.vel.x) - (hunt.heading.share * x) * speed, tiny)
            &&& within(real_value(after.vel.y) - (hunt.heading.share * y) * speed, tiny)
            &&& hunt.heading.fits(x, y)
            &&& exact_square(after.pos, to.pos) < exact_square(from.pos, to.pos)
        }),
{
    let to = players[hunt.target];
    let x = real_value(to.pos.x) - real_value(from.pos.x);
    let y = real_value(to.pos.y) - real_value(from.pos.y);
    let g = hunt.heading.share;
    let l = hunt.heading.length;
    let d2 = x * x + y * y;
    lemma_zero_size(from.vel.x);
    lemma_zero_size(from.vel.y);
    let c = 520real / 60real;
    let (ux, uy) = hunt.pull(from, to);
    assert(ux == (g * x) * c && uy == (g * y) * c);
    // Nothing is cut.
    let nx = g * x;
    let ny = g * y;
    lemma_regrouped(g, x, g, x);
    lemma_regrouped(g, y, g, y);
    lemma_distributes(x * x, y * y, g * g);
    lemma_commutes(g * g, d2);
    lemma_commutes(g * g, x * x);
    lemma_commutes(g * g, y * y);
    assert(within(nx * nx + ny * ny - 1real, 1real / 1000000real));
    lemma_regrouped(nx, c, nx, c);
    lemma_regrouped(ny, c, ny, c);
    assert(c * c == 270400real / 3600real);
    assert(ux * ux + uy * uy <= 80real);
    assert(460real * 460real == 211600real && 95real * 95real == 9025real);
    assert(hunt.first == 1real);
    lemma_whole(hunt.first, ux);
    lemma_whole(hunt.first, uy);
    let wx = ux * damp;
    let wy = uy * damp;
    lemma_regrouped(ux, damp, ux, damp);
    lemma_regrouped(uy, damp, uy, damp);
    lemma_square_ordered(damp, 1real);
    assert(1real * 1real == 1real);
    lemma_square_positive(ux);
    lemma_square_positive(uy);
    lemma_product_within(ux * ux, damp * damp, 80real, 1real);
    lemma_product_within(uy * uy, damp * damp, 80real, 1real);
    assert(hunt.second == 1real);
    lemma_whole(hunt.second, wx);
    lemma_whole(hunt.second, wy);
    lemma_associates(nx, c, damp);
    lemma_associates(ny, c, damp);
    // Nearer by the share of the offset that is covered.
    let h = damp * 520real / 3600real;
    let k = g * h;
    let ex = real_value(after.pos.x) - (real_value(from.pos.x) + wx / 60real);
    let ey = real_value(after.pos.y) - (real_value(from.pos.y) + wy / 60real);
    lemma_covered(g, x, damp, wx);
    lemma_covered(g, y, damp, wy);
    lemma_square_positive(l);
    lemma_associates(g, h, l);
    lemma_commutes(h, l);
    lemma_associates(g, l, h);
    assert(k * l == h) by {
        lemma_moved_factor(g, h, l);
    }
    lemma_nearer(x, y, l, k, h, ex, ey);
}

proof fn lemma_moved_factor(g: real, h: real, l: real)
    requires
        g * l == 1real,
    ensures
        (g * h) * l == h,
{
    lemma_commutes(g, h);
    lemma_associates(h, g, l);
    assert(h * 1real == h);
}

proof fn lemma_zero_size(x: Double)
    requires
        x.zero(),
    ensures
        real_value(x) == 0real,
{
    lemma_magnitude_parts(x);
    assert(0real * power(x.exponent()) == 0real);
}

/// The way that is covered is a share of the offset.
proof fn lemma_covered(g: real, x: real, damp: real, w: real)
    requires
        w == ((g * x) * (520real / 60real)) * damp,
    ensures
        w / 60real == x * (g * (damp * 520real / 3600real)),
{
    let h = damp * 520real / 3600real;
    let n = g * x;
    lemma_associates(n, 520real / 60real, damp);
    assert((520real / 60real) * damp == 60real * h);
    assert(n * (60real * h) == 60real * (n * h)) by {
        lemma_commutes(n, 60real * h);
        lemma_associates(60real, h, n);
        lemma_commutes(h, n);
    }
    lemma_commutes(g, x);
    lemma_associates(x, g, h);
}

/// Covering a share of an offset, with a small error, makes it shorter.
proof fn lemma_nearer(x: real, y: real, l: real, k: real, h: real, ex: real, ey: real)
    requires
        l > 0real,
        x * x + y * y >= 1001real / 1000real,
        within(l * l - (x * x + y * y), 1real / 100real),
        k * l == h,
        1real / 1000real <= h <= 1real / 6real,
        within(ex, 1real / 100000real),
        within(ey, 1real / 100000real),
    ensures
        ({
            let px = x - x * k - ex;
            let py = y - y * k - ey;
            px * px + py * py < x * x + y * y
        }),
{
    let d2 = x * x + y * y;
    let w = l * l;
    lemma_square_positive(x);
    lemma_square_positive(y);
    // l >= 99 / 100, so k <= 1 / 5.
    if l < 99real / 100real {
        lemma_square_ordered(l, 99real / 100real);
        assert((99real / 100real) * (99real / 100real) == 9801real / 10000real) by (
            nonlinear_arith);
    }
    if k > 1real / 5real {
        lemma_scaled_ordered(1real / 5real, k, l);
    }
    if k < 0real {
        lemma_positive_product(-k, l);
        lemma_negated(k, l);
    }
    // The offset is at most 1.02 l in each coordinate.
    let top = (102real / 100real) * l;
    lemma_regrouped(102real / 100real, l, 102real / 100real, l);
    assert((102real / 100real) * (102real / 100real) == 10404real / 10000real) by (nonlinear_arith);
    assert(top * top == (10404real / 10000real) * w);
    lemma_root_within(x, top);
    lemma_root_within(y, top);
    // The part that is left.
    let m = 1real - k;
    lemma_left(x, k, ex);
    lemma_left(y, k, ey);
    let ax = x * m;
    let ay = y * m;
    lemma_regrouped(x, m, x, m);
    lemma_regrouped(y, m, y, m);
    lemma_distributes(x * x, y * y, m * m);
    // m^2 = 1 - k (2 - k)
    let q = k * (2real - k);
    lemma_distributes(1real, -k, m);
    assert(1real * m == m);
    lemma_negated(k, m);
    lemma_distributes(1real, -k, k);
    lemma_commutes(k, m);
    lemma_commutes(m, k);
    lemma_negated(k, k);
    lemma_distributes(2real, -k, k);
    lemma_commutes(k, 2real - k);
    assert(1real * k == k);
    assert(m * m == 1real - q);
    lemma_distributes(1real, -q, d2);
    lemma_commutes(d2, m * m);
    lemma_negated(q, d2);
    assert(1real * d2 == d2);
    assert(ax * ax + ay * ay == d2 - q * d2);
    // q d2 >= 1.7 h l
    lemma_scaled_ordered(9real / 5real, 2real - k, k);
    lemma_commutes(k, 2real - k);
    assert(q >= (9real / 5real) * k);
    lemma_scaled_ordered((9real / 5real) * k, q, d2);
    lemma_scaled_ordered((97real / 100real) * w, d2, (9real / 5real) * k);
    lemma_commutes((9real / 5real) * k, d2);
    lemma_commutes((97real / 100real) * w, (9real / 5real) * k);
    lemma_regrouped(9real / 5real, k, 97real / 100real, w);
    lemma_associates(k, l, l);
    assert(k * w == h * l);
    assert((9real / 5real) * (97real / 100real) == 873real / 500real) by (nonlinear_arith);
    assert(q * d2 >= (873real / 500real) * (h * l));
    lemma_scaled_ordered(1real / 1000real, h, l);
    assert(q * d2 >= (1real / 1000real) * l);
    // The errors.
    lemma_product_within(x, m, top, 1real);
    lemma_product_within(y, m, top, 1real);
    let tiny = 1real / 100000real;
    lemma_product_within(ax, ex, top, tiny);
    lemma_product_within(ay, ey, top, tiny);
    lemma_product_within(ex, ex, tiny, tiny);
    lemma_product_within(ey, ey, tiny, tiny);
    assert(tiny * tiny <= 1real / 1000000000real) by (nonlinear_arith)
        requires
            tiny == 1real / 100000real,
    ;
    lemma_expanded_difference(ax, ex);
    lemma_expanded_difference(ay, ey);
}

proof fn lemma_left(x: real, k: real, e: real)
    ensures
        x - x * k - e == x * (1real - k) - e,
{
    lemma_distributes(1real, -k, x);
    lemma_commutes(x, 1real - k);
    lemma_negated(k, x);
    lemma_commutes(x, k);
    assert(1real * x == x);
}

proof fn lemma_expanded_difference(a: real, e: real)
    ensures
        (a - e) * (a - e) == a * a - 2real * (a * e) + e * e,
{
    let z = a - e;
    lemma_distributes(a, -e, z);
    lemma_negated(e, z);
    lemma_commutes(a, z);
    lemma_commutes(e, z);
    lemma_distributes(a, -e, a);
    lemma_distributes(a, -e, e);
    lemma_negated(e, a);
    lemma_negated(e, e);
    lemma_commutes(a, e);
}

// ---------------------------------------------------------------------------
// What is in an enemy's way
// ---------------------------------------------------------------------------

/// The edges of the rink hold an enemy back: its centre stays between 54 and 1746 across and
/// between 54 and 1146 down, and what hits an edge is turned around, where no wall and nobody else
/// is in its way.
pub proof fn law_enemies_stay_in_the_rink(
    level: LevelView,
    players: Seq<Body>,
    damp: Double,
    k: int,
) -> (bounds: (real, real, real))
    requires
        0 <= k < level.enemies.len(),
        level.enemies[k].alive,
        level.enemies[k].body.r == encoded(ENEMY_R),
        ordinary(level.enemies[k].body),
        players.len() > 0,
        forall|i: int| 0 <= i < players.len() ==> ordinary(#[trigger] players[i]),
        damp.finite(),
        within(real_value(damp), 1real),
        left_alone(level, players, damp, k),
        ({
            let body = steered(level.enemies[k].body, players, damp).walled().0;
            forall|j: int| 0 <= j < level.walls.len() ==> !touching(body, #[trigger] level.walls[j])
        }),
    ensures
        ({
            let body = steered(level.enemies[k].body, players, damp);
            let after = level.stepped(players, damp).enemies[k].body;
            let tiny = 1real / 1000000real;
            &&& within(bounds.0 - 54real, tiny)
            &&& within(bounds.1 - 1746real, tiny)
            &&& within(bounds.2 - 1146real, tiny)
            &&& bounds.0 <= real_value(after.pos.x) <= bounds.1
            &&& bounds.0 <= real_value(after.pos.y) <= bounds.2
            &&& kept_between(
                bounds.0,
                bounds.1,
                body.pos.x,
                body.vel.x,
                after.pos.x,
                after.vel.x,
            )
            &&& kept_between(
                bounds.0,
                bounds.2,
                body.pos.y,
                body.vel.y,
                after.pos.y,
                after.vel.y,
            )
        }),
{
    let from = level.enemies[k].body;
    let hunt = law_steering_hunts(from, players, damp);
    let body = steered(from, players, damp);
    lemma_hunted_speed(hunt, from, players, real_value(damp), body);
    lemma_enemy_bounds(body);
    let low = body.low_bound();
    let right = body.high_bound(encoded(ARENA_W));
    let bottom = body.high_bound(encoded(ARENA_H));
    let zero = encoded(0);
    lemma_size_positive(zero);
    lemma_rebound(body.pos.x, body.vel.x, low, right, zero);
    let x = rebound(body.pos.x, body.vel.x, low, right, zero);
    lemma_rebound(body.pos.y, body.vel.y, low, bottom, x.impact);
    let held = body.walled().0;
    lemma_passed(held, level.walls, level.walls.len());
    lemma_left_where_chased(level, players, damp, k);
    (real_value(low), real_value(right), real_value(bottom))
}

/// Whoever hunted is no faster than enemies get.
proof fn lemma_hunted_speed(hunt: Hunt, from: Body, players: Seq<Body>, damp: real, after: Body)
    requires
        hunt.hunted(from, players, damp, after),
    ensures
        within(real_value(after.vel.x), 97real),
        within(real_value(after.vel.y), 97real),
{
    let to = players[hunt.target];
    let (ux, uy) = hunt.pull(from, to);
    lemma_cut_bound(hunt.second, (hunt.first * ux) * damp, (hunt.first * uy) * damp, 95real);
}

/// An enemy that nobody bumps into ends a step where the chase brought it.
proof fn lemma_left_where_chased(level: LevelView, players: Seq<Body>, damp: Double, k: int)
    requires
        0 <= k < level.enemies.len(),
        left_alone(level, players, damp, k),
    ensures
        level.stepped(players, damp).enemies[k].body == level.chasing(players, damp)[k].body,
{
    let chasing = level.chasing(players, damp);
    let start = level.before_clash(players, damp);
    lemma_untouched_all(
        enemy_bodies(chasing),
        enemies_alive(chasing),
        k,
        level.enemies.len() as int,
    );
    assert(start.enemies[k].body == chasing[k].body);
    lemma_alone(start, k, level.enemies.len() as int);
}

/// An enemy that comes upon one wall bounces off it, where nobody else is in its way.
pub proof fn law_enemies_bounce_off_walls(
    level: LevelView,
    players: Seq<Body>,
    damp: Double,
    k: int,
    j: int,
) -> (impact: Impact)
    requires
        level.wf(),
        0 <= k < level.enemies.len(),
        0 <= j < level.walls.len(),
        level.enemies[k].alive,
        left_alone(level, players, damp, k),
        ({
            let body = steered(level.enemies[k].body, players, damp).walled().0;
            let wall = level.walls[j];
            &&& solid(body)
            &&& solid(wall)
            &&& touching(body, wall)
            &&& exact_square(body.pos, wall.pos) >= 9real / 10real
            &&& forall|m: int| 0 <= m < j ==> !touching(body, #[trigger] level.walls[m])
            &&& forall|m: int|
                j < m < level.walls.len() ==> !touching(
                    collided(body, wall).a,
                    #[trigger] level.walls[m],
                )
        }),
    ensures
        ({
            let body = steered(level.enemies[k].body, players, damp).walled().0;
            let wall = level.walls[j];
            let after = level.stepped(players, damp).enemies[k].body;
            impact.happened(body, wall, after, wall, collided(body, wall).magnitude)
        }),
{
    let body = steered(level.enemies[k].body, players, damp).walled().0;
    law_one_of_row(body, level.walls, j, level.walls.len());
    lemma_left_where_chased(level, players, damp, k);
    law_collision_in_numbers(body, level.walls[j])
}

/// Two enemies that come upon each other, and upon nobody else, bounce off each other as players
/// do.
pub proof fn law_enemies_bounce_off_each_other(
    level: LevelView,
    players: Seq<Body>,
    damp: Double,
    k: int,
    m: int,
) -> (impact: Impact)
    requires
        0 <= k < m < level.enemies.len(),
        level.enemies.len() <= usize::MAX,
        level.enemies[k].alive,
        level.enemies[m].alive,
        ({
            let chasing = level.chasing(players, damp);
            let start = level.before_clash(players, damp);
            &&& solid(chasing[k].body)
            &&& solid(chasing[m].body)
            &&& touching(chasing[k].body, chasing[m].body)
            &&& exact_square(chasing[k].body.pos, chasing[m].body.pos) >= 9real / 10real
            &&& only_each_other(enemy_bodies(chasing), enemies_alive(chasing), k, m)
            &&& forall|a: int, i: int|
                (a == k || a == m) && 0 <= i < players.len() ==> {
                    let c = #[trigger] clash_at(start, a, i);
                    !touching(c.players[i], c.enemies[a].body)
                }
        }),
    ensures
        ({
            let a = level.chasing(players, damp)[k].body;
            let b = level.chasing(players, damp)[m].body;
            let after = level.stepped(players, damp).enemies;
            impact.happened(a, b, after[k].body, after[m].body, collided(a, b).magnitude)
        }),
{
    let chasing = level.chasing(players, damp);
    let start = level.before_clash(players, damp);
    let bodies = enemy_bodies(chasing);
    law_two_of_crowd(bodies, enemies_alive(chasing), k, m);
    assert(bodies[k] == chasing[k].body && bodies[m] == chasing[m].body);
    lemma_alone(start, k, level.enemies.len() as int);
    lemma_alone(start, m, level.enemies.len() as int);
    law_collision_in_numbers(chasing[k].body, chasing[m].body)
}

/// Of several hits that a player takes, the hardest counts; nobody else's are touched.
pub proof fn law_hardest_hit_counts(start: Clash, k: int, i: int)
    requires
        0 <= k < start.enemies.len(),
        0 <= i < start.players.len(),
        start.impulses.len() == start.players.len(),
        start.impulses[i].finite(),
        real_value(start.impulses[i]) >= 0real,
        collided(start.players[i], start.enemies[k].body).magnitude.finite(),
    ensures
        ({
            let after = start.meet(k, i).impulses;
            let before = real_value(start.impulses[i]);
            let hit = real_value(collided(start.players[i], start.enemies[k].body).magnitude);
            &&& after.len() == start.impulses.len()
            &&& real_value(after[i]) == if hit > before {
                hit
            } else {
                before
            }
            &&& forall|j: int|
                0 <= j < after.len() && j != i ==> #[trigger] after[j] == start.impulses[j]
        }),
{
    let magnitude = collided(start.players[i], start.enemies[k].body).magnitude;
    lemma_max(start.impulses[i], magnitude);
    lemma_exact_order(encoded(0), magnitude);
    lemma_size_positive(encoded(0));
}

proof fn lemma_whole(one: real, x: real)
    requires
        one == 1real,
    ensures
        one * x == x,
{
}

} // verus!
