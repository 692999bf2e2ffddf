//! The motion of round bodies in a walled rink: a fixed-step integrator and the resolution of
//! collisions with walls and between circles.

use crate::arena::lemma_friction;
use crate::bounce::{real_value, within};
use crate::double::{
    encoded, law_minus_positive, law_over_shrinks, law_plus_commutes, law_plus_ordered,
    law_times_ordered, law_times_shrinks, lemma_plus_exact, lemma_plus_zero, lemma_zero_times,
    Double, UNIT,
};
use crate::exact::{
    law_over_near, law_plus_near, law_root_near, law_times_near, lemma_commutes, lemma_cut_down,
    lemma_distributes, lemma_hypotenuse, lemma_infinite_length, lemma_least, lemma_over_range,
    lemma_plus_overflow, lemma_plus_range, lemma_plus_small, lemma_root_range, lemma_scaled_ordered,
    lemma_side, lemma_size_is, lemma_size_large, lemma_size_ordered, lemma_size_positive,
    lemma_square_ordered, lemma_times_above, lemma_times_range, size, slack,
};
use crate::random::lemma_scaled;
use crate::rounding::{lemma_nearest_bound, HIDDEN};
use vstd::arithmetic::div_mod::lemma_div_is_ordered;
use vstd::arithmetic::power2::*;
use vstd::prelude::*;

verus! {

// Each constant is the binary64 encoding of the number beside it.

/// 1800: the width of the rink, in world units.
pub const ARENA_W: u64 = 0x409C_2000_0000_0000;

/// 1200: the height of the rink.
pub const ARENA_H: u64 = 0x4092_C000_0000_0000;

/// 22: the radius of a player.
pub const PLAYER_R: u64 = 0x4036_0000_0000_0000;

/// 460: the largest speed, in units per second.
pub const MAX_SPEED: u64 = 0x407C_C000_0000_0000;

/// 1650: the acceleration that full input gives.
pub const ACCEL: u64 = 0x4099_C800_0000_0000;

/// 2.35: the rate at which velocity decays.
pub const FRICTION: u64 = 0x4002_CCCC_CCCC_CCCD;

/// 0.82: the share of the normal velocity that a bounce keeps.
pub const RESTITUTION: u64 = 0x3FEA_3D70_A3D7_0A3D;

/// 1/60: the length of a step, in seconds.
pub const STEP: u64 = 0x3F91_1111_1111_1111;

/// 28: how far the playable area is inset from the edge of the rink.
pub const WALL_PAD: u64 = 0x403C_0000_0000_0000;

/// 0.5
pub const HALF: u64 = 0x3FE0_0000_0000_0000;

/// 1
pub const ONE: u64 = 0x3FF0_0000_0000_0000;

/// 2
pub const TWO: u64 = 0x4000_0000_0000_0000;

/// A point or a direction.
#[derive(Clone, Copy, Debug)]
pub struct Vec2 {
    pub x: Double,
    pub y: Double,
}

impl Default for Vec2 {
    /// The origin.
    fn default() -> (v: Vec2)
        ensures
            v == (Vec2 { x: encoded(0), y: encoded(0) }),
    {
        Vec2 { x: encoded(0), y: encoded(0) }
    }
}

/// A circle that moves. A static body is never moved by a collision.
#[derive(Clone, Copy, Debug)]
pub struct Body {
    pub pos: Vec2,
    pub vel: Vec2,
    pub r: Double,
    pub is_static: bool,
}

/// What a collision leaves: both bodies, and how hard they hit.
pub struct Contact {
    pub a: Body,
    pub b: Body,
    pub magnitude: Double,
}

/// One coordinate after a wall was resolved, and the hardest impact so far.
pub struct Rebound {
    pub pos: Double,
    pub vel: Double,
    pub impact: Double,
}

// ---------------------------------------------------------------------------
// Model
// ---------------------------------------------------------------------------

/// `x * x + y * y`
pub open spec fn square_norm(x: Double, y: Double) -> Double {
    x.times(x).plus(y.times(y))
}

impl Body {
    /// A dynamic body of player size at rest.
    pub open spec fn player_at(x: Double, y: Double) -> Body {
        Body {
            pos: Vec2 { x, y },
            vel: Vec2 { x: encoded(0), y: encoded(0) },
            r: encoded(PLAYER_R),
            is_static: false,
        }
    }

    /// A static body at rest.
    pub open spec fn pillar_at(x: Double, y: Double, r: Double) -> Body {
        Body {
            pos: Vec2 { x, y },
            vel: Vec2 { x: encoded(0), y: encoded(0) },
            r,
            is_static: true,
        }
    }

    /// The same body elsewhere, with another velocity.
    pub open spec fn moved(self, pos: Vec2, vel: Vec2) -> Body {
        Body { pos, vel, ..self }
    }

    /// The speed of a body whose velocity is `vel`, cut down to the limit.
    pub open spec fn capped(vel: Vec2, limit: Double) -> Vec2 {
        let speed = square_norm(vel.x, vel.y).root();
        if speed.gt(limit) {
            let s = limit.over(speed);
            Vec2 { x: vel.x.times(s), y: vel.y.times(s) }
        } else {
            vel
        }
    }

    /// One step: accelerate, cap the speed, damp it, then move.
    pub open spec fn integrated(
        self,
        ax: Double,
        ay: Double,
        dt: Double,
        damp: Double,
    ) -> Body {
        let pushed = Vec2 {
            x: self.vel.x.plus(ax.times(dt)),
            y: self.vel.y.plus(ay.times(dt)),
        };
        let capped = Body::capped(pushed, encoded(MAX_SPEED));
        let vel = Vec2 { x: capped.x.times(damp), y: capped.y.times(damp) };
        let pos = Vec2 {
            x: self.pos.x.plus(vel.x.times(dt)),
            y: self.pos.y.plus(vel.y.times(dt)),
        };
        self.moved(pos, vel)
    }

    /// The first coordinate that the centre may have next to a wall.
    pub open spec fn low_bound(self) -> Double {
        encoded(WALL_PAD).plus(self.r)
    }

    /// The last coordinate that the centre may have in a rink of the given size.
    pub open spec fn high_bound(self, size: Double) -> Double {
        size.minus(encoded(WALL_PAD)).minus(self.r)
    }

    /// The body after the walls pushed it back, and the impact.
    pub open spec fn walled(self) -> (Body, Double) {
        let x = rebound(
            self.pos.x,
            self.vel.x,
            self.low_bound(),
            self.high_bound(encoded(ARENA_W)),
            encoded(0),
        );
        let y = rebound(
            self.pos.y,
            self.vel.y,
            self.low_bound(),
            self.high_bound(encoded(ARENA_H)),
            x.impact,
        );
        (
            self.moved(Vec2 { x: x.pos, y: y.pos }, Vec2 { x: x.vel, y: y.vel }),
            y.impact,
        )
    }
}

/// Clamps a coordinate between two walls, and turns a velocity that points into the wall around.
pub open spec fn rebound(
    pos: Double,
    vel: Double,
    low: Double,
    high: Double,
    impact: Double,
) -> Rebound {
    let back = vel.negate().times(encoded(RESTITUTION));
    if pos.lt(low) {
        if vel.lt(encoded(0)) {
            Rebound { pos: low, vel: back, impact: impact.max(vel.negate()) }
        } else {
            Rebound { pos: low, vel, impact }
        }
    } else if pos.gt(high) {
        if vel.gt(encoded(0)) {
            Rebound { pos: high, vel: back, impact: impact.max(vel) }
        } else {
            Rebound { pos: high, vel, impact }
        }
    } else {
        Rebound { pos, vel, impact }
    }
}

/// Whether two circles overlap and do not share their centre.
pub open spec fn touching(a: Body, b: Body) -> bool {
    let square = square_norm(b.pos.x.minus(a.pos.x), b.pos.y.minus(a.pos.y));
    let reach = a.r.plus(b.r);
    !square.ge(reach.times(reach)) && !square.root().equals(encoded(0))
}

/// What becomes of two circles: nothing when they do not touch. Otherwise they are pushed apart
/// along the line between their centres, `a` alone when `b` is static and both by half else; and
/// when they approach each other, they exchange an impulse along that line.
pub open spec fn collided(a: Body, b: Body) -> Contact {
    if !touching(a, b) {
        Contact { a, b, magnitude: encoded(0) }
    } else {
        let dx = b.pos.x.minus(a.pos.x);
        let dy = b.pos.y.minus(a.pos.y);
        let dist = square_norm(dx, dy).root();
        let nx = dx.over(dist);
        let ny = dy.over(dist);
        let overlap = a.r.plus(b.r).minus(dist);
        let push = if b.is_static {
            overlap
        } else {
            overlap.times(encoded(HALF))
        };
        let a_pos = Vec2 {
            x: a.pos.x.minus(nx.times(push)),
            y: a.pos.y.minus(ny.times(push)),
        };
        let b_pos = if b.is_static {
            b.pos
        } else {
            Vec2 { x: b.pos.x.plus(nx.times(push)), y: b.pos.y.plus(ny.times(push)) }
        };
        let approach = b.vel.x.minus(a.vel.x).times(nx).plus(b.vel.y.minus(a.vel.y).times(ny));
        if approach.ge(encoded(0)) {
            Contact { a: a.moved(a_pos, a.vel), b: b.moved(b_pos, b.vel), magnitude: overlap }
        } else {
            let share = if b.is_static {
                encoded(ONE)
            } else {
                encoded(HALF)
            };
            let impulse = encoded(ONE).plus(encoded(RESTITUTION)).negate().times(approach).times(
                share,
            );
            let a_vel = Vec2 {
                x: a.vel.x.minus(impulse.times(nx)),
                y: a.vel.y.minus(impulse.times(ny)),
            };
            let b_vel = if b.is_static {
                b.vel
            } else {
                Vec2 {
                    x: b.vel.x.plus(impulse.times(nx)),
                    y: b.vel.y.plus(impulse.times(ny)),
                }
            };
            Contact {
                a: a.moved(a_pos, a_vel),
                b: b.moved(b_pos, b_vel),
                magnitude: overlap.max(impulse),
            }
        }
    }
}

/// The five fixed obstacles of the rink.
pub open spec fn rink_pillars() -> Seq<Body> {
    // 520 and 1280 across, 360 and 840 down, of radius 48; one in the middle, of radius 36.
    let left = encoded(0x4080_4000_0000_0000);
    let right = encoded(0x4094_0000_0000_0000);
    let upper = encoded(0x4076_8000_0000_0000);
    let lower = encoded(0x408A_4000_0000_0000);
    let wide = encoded(0x4048_0000_0000_0000);
    seq![
        Body::pillar_at(left, upper, wide),
        Body::pillar_at(right, upper, wide),
        Body::pillar_at(left, lower, wide),
        Body::pillar_at(right, lower, wide),
        Body::pillar_at(
            encoded(0x408C_2000_0000_0000),
            encoded(0x4082_C000_0000_0000),
            encoded(0x4042_0000_0000_0000),
        ),
    ]
}

/// A body after it met the first `n` of a row of static bodies, one after the other.
pub open spec fn pressed(body: Body, row: Seq<Body>, n: nat) -> Body
    decreases n,
{
    if n == 0 {
        body
    } else {
        collided(pressed(body, row, (n - 1) as nat), row[n - 1]).a
    }
}

/// How hard the body hit each of them.
pub open spec fn press_magnitudes(body: Body, row: Seq<Body>) -> Seq<Double> {
    Seq::new(row.len(), |j: int| collided(pressed(body, row, j as nat), row[j]).magnitude)
}

/// The collision of the bodies at two places.
pub struct Hit {
    pub first: usize,
    pub second: usize,
    pub magnitude: Double,
}

/// Bodies, and the collisions among them so far.
pub ghost struct Crowd {
    pub bodies: Seq<Body>,
    pub hits: Seq<Hit>,
}

impl Crowd {
    /// Lets the bodies at `i` and `j` collide, if both take part.
    pub open spec fn meet(self, active: Seq<bool>, i: int, j: int) -> Crowd {
        if active[i] && active[j] {
            let c = collided(self.bodies[i], self.bodies[j]);
            Crowd {
                bodies: self.bodies.update(i, c.a).update(j, c.b),
                hits: self.hits.push(
                    Hit { first: i as usize, second: j as usize, magnitude: c.magnitude },
                ),
            }
        } else {
            self
        }
    }

    /// Lets the body at `i` meet those after it and before `j`.
    pub open spec fn meet_row(self, active: Seq<bool>, i: int, j: int) -> Crowd
        decreases j - i,
    {
        if j <= i + 1 {
            self
        } else {
            self.meet_row(active, i, j - 1).meet(active, i, j - 1)
        }
    }

    /// Lets every body before `i` meet all that come after it.
    pub open spec fn meet_all(self, active: Seq<bool>, i: int) -> Crowd
        decreases i,
    {
        if i <= 0 {
            self
        } else {
            self.meet_all(active, i - 1).meet_row(active, i - 1, active.len() as int)
        }
    }
}

/// What becomes of bodies when each pair of those that take part collides once, in order.
pub open spec fn paired(bodies: Seq<Body>, active: Seq<bool>) -> Crowd {
    Crowd { bodies, hits: Seq::empty() }.meet_all(active, active.len() as int)
}

// ---------------------------------------------------------------------------
// Operations
// ---------------------------------------------------------------------------

impl Body {
    /// A player at rest.
    pub fn new_player(x: Double, y: Double) -> (body: Body)
        ensures
            body == Body::player_at(x, y),
    {
        Body {
            pos: Vec2 { x, y },
            vel: Vec2::default(),
            r: encoded(PLAYER_R),
            is_static: false,
        }
    }

    /// A fixed obstacle.
    pub fn new_pillar(x: Double, y: Double, r: Double) -> (body: Body)
        ensures
            body == Body::pillar_at(x, y, r),
    {
        Body {
            pos: Vec2 { x, y },
            vel: Vec2::default(),
            r,
            is_static: true,
        }
    }

    /// Scales the velocity down to a speed of `limit` where it is faster.
    pub fn cap_speed(&mut self, limit: Double)
        ensures
            *final(self) == old(self).moved(old(self).pos, Body::capped(old(self).vel, limit)),
    {
        let speed: Double = norm_squared(self.vel.x, self.vel.y).root();
        if speed.gt(limit) {
            let s: Double = limit.over(speed);
            self.vel.x = self.vel.x.times(s);
            self.vel.y = self.vel.y.times(s);
        }
    }
}

/// `x * x + y * y`
pub fn norm_squared(x: Double, y: Double) -> (r: Double)
    ensures
        r == square_norm(x, y),
{
    x.times(x).plus(y.times(y))
}

/// The argument of the exponential that gives the damping of a step: `damp` in [`integrate`] is
/// `exp(damping_exponent(dt))`. For steps of up to a second it is about `-2.35 * dt`.
pub fn damping_exponent(dt: Double) -> (r: Double)
    ensures
        r == encoded(FRICTION).negate().times(dt),
        dt.finite() && 0real <= real_value(dt) <= 1real ==> within(
            real_value(r) + real_value(dt) * 235real / 100real,
            1real / 100000000real,
        ),
{
    proof {
        if dt.finite() && 0real <= real_value(dt) <= 1real {
            lemma_friction(dt);
        }
    }
    encoded(FRICTION).negate().times(dt)
}

/// Advances a body by one step under the acceleration `(ax, ay)`. `damp` is the factor by which
/// friction slows it down over `dt`.
pub fn integrate(body: &mut Body, ax: Double, ay: Double, dt: Double, damp: Double)
    ensures
        *final(body) == old(body).integrated(ax, ay, dt, damp),
{
    body.vel.x = body.vel.x.plus(ax.times(dt));
    body.vel.y = body.vel.y.plus(ay.times(dt));

    body.cap_speed(encoded(MAX_SPEED));

    body.vel.x = body.vel.x.times(damp);
    body.vel.y = body.vel.y.times(damp);

    body.pos.x = body.pos.x.plus(body.vel.x.times(dt));
    body.pos.y = body.pos.y.plus(body.vel.y.times(dt));
}

/// Keeps a body inside the walls. Returns the impact.
pub fn resolve_walls(body: &mut Body) -> (impact: Double)
    ensures
        (*final(body), impact) == old(body).walled(),
{
    let min_x: Double = encoded(WALL_PAD).plus(body.r);
    let max_x: Double = encoded(ARENA_W).minus(encoded(WALL_PAD)).minus(body.r);
    let min_y: Double = encoded(WALL_PAD).plus(body.r);
    let max_y: Double = encoded(ARENA_H).minus(encoded(WALL_PAD)).minus(body.r);

    let mut impact: Double = encoded(0);

    if body.pos.x.lt(min_x) {
        body.pos.x = min_x;
        if body.vel.x.lt(encoded(0)) {
            impact = impact.max(body.vel.x.negate());
            body.vel.x = body.vel.x.negate().times(encoded(RESTITUTION));
        }
    } else if body.pos.x.gt(max_x) {
        body.pos.x = max_x;
        if body.vel.x.gt(encoded(0)) {
            impact = impact.max(body.vel.x);
            body.vel.x = body.vel.x.negate().times(encoded(RESTITUTION));
        }
    }

    if body.pos.y.lt(min_y) {
        body.pos.y = min_y;
        if body.vel.y.lt(encoded(0)) {
            impact = impact.max(body.vel.y.negate());
            body.vel.y = body.vel.y.negate().times(encoded(RESTITUTION));
        }
    } else if body.pos.y.gt(max_y) {
        body.pos.y = max_y;
        if body.vel.y.gt(encoded(0)) {
            impact = impact.max(body.vel.y);
            body.vel.y = body.vel.y.negate().times(encoded(RESTITUTION));
        }
    }
    impact
}

/// Resolves the collision of two circles, of which `b` may be static. Returns how hard they hit:
/// the overlap or the impulse, whichever is larger; zero when they do not touch.
pub fn resolve_circle_circle(a: &mut Body, b: &mut Body) -> (magnitude: Double)
    ensures
        (Contact { a: *final(a), b: *final(b), magnitude }) == collided(*old(a), *old(b)),
{
    let dx: Double = b.pos.x.minus(a.pos.x);
    let dy: Double = b.pos.y.minus(a.pos.y);
    let dist_sq: Double = norm_squared(dx, dy);
    let r_sum: Double = a.r.plus(b.r);

    if dist_sq.ge(r_sum.times(r_sum)) {
        return encoded(0);
    }
    let dist: Double = dist_sq.root();
    if dist.equals(encoded(0)) {
        // Coincident centres give no direction to push along.
        return encoded(0);
    }

    let nx: Double = dx.over(dist);
    let ny: Double = dy.over(dist);
    let overlap: Double = r_sum.minus(dist);

    if b.is_static {
        a.pos.x = a.pos.x.minus(nx.times(overlap));
        a.pos.y = a.pos.y.minus(ny.times(overlap));
    } else {
        let half: Double = overlap.times(encoded(HALF));
        a.pos.x = a.pos.x.minus(nx.times(half));
        a.pos.y = a.pos.y.minus(ny.times(half));
        b.pos.x = b.pos.x.plus(nx.times(half));
        b.pos.y = b.pos.y.plus(ny.times(half));
    }

    let rvx: Double = b.vel.x.minus(a.vel.x);
    let rvy: Double = b.vel.y.minus(a.vel.y);
    let rvn: Double = rvx.times(nx).plus(rvy.times(ny));

    if rvn.ge(encoded(0)) {
        // Separating already.
        return overlap;
    }

    let mass_factor: Double = if b.is_static {
        encoded(ONE)
    } else {
        encoded(HALF)
    };
    let impulse: Double = encoded(ONE).plus(encoded(RESTITUTION)).negate().times(rvn).times(
        mass_factor,
    );

    a.vel.x = a.vel.x.minus(impulse.times(nx));
    a.vel.y = a.vel.y.minus(impulse.times(ny));
    if !b.is_static {
        b.vel.x = b.vel.x.plus(impulse.times(nx));
        b.vel.y = b.vel.y.plus(impulse.times(ny));
    }

    overlap.max(impulse)
}

/// Lets a body collide with each of a row of static bodies. Returns how hard it hit each.
pub fn resolve_row(body: &mut Body, row: &Vec<Body>) -> (magnitudes: Vec<Double>)
    requires
        forall|j: int| 0 <= j < row@.len() ==> (#[trigger] row@[j]).is_static,
    ensures
        *final(body) == pressed(*old(body), row@, row@.len()),
        magnitudes@ == press_magnitudes(*old(body), row@),
{
    let mut magnitudes: Vec<Double> = Vec::new();
    let mut j: usize = 0;
    while j < row.len()
        invariant
            j <= row@.len(),
            *body == pressed(*old(body), row@, j as nat),
            magnitudes@ == press_magnitudes(*old(body), row@).take(j as int),
        decreases row@.len() - j,
    {
        let mut other: Body = row[j];
        let magnitude: Double = resolve_circle_circle(body, &mut other);
        magnitudes.push(magnitude);
        proof {
            assert(press_magnitudes(*old(body), row@).take(j + 1) =~= press_magnitudes(
                *old(body),
                row@,
            ).take(j as int).push(magnitude));
        }
        j = j + 1;
    }
    magnitudes
}

/// Lets each pair of the bodies that take part collide once, in order. Returns the collisions.
pub fn resolve_pairs(bodies: &mut Vec<Body>, active: &Vec<bool>) -> (hits: Vec<Hit>)
    requires
        old(bodies)@.len() == active@.len(),
    ensures
        (Crowd { bodies: final(bodies)@, hits: hits@ }) == paired(old(bodies)@, active@),
        final(bodies)@.len() == active@.len(),
{
    let n: usize = active.len();
    let mut hits: Vec<Hit> = Vec::new();
    let ghost start = Crowd { bodies: bodies@, hits: Seq::empty() };
    let mut i: usize = 0;
    while i < n
        invariant
            i <= n,
            n == active@.len(),
            bodies@.len() == n,
            (Crowd { bodies: bodies@, hits: hits@ }) == start.meet_all(active@, i as int),
        decreases n - i,
    {
        let ghost row = Crowd { bodies: bodies@, hits: hits@ };
        let mut j: usize = i + 1;
        while j < n
            invariant
                i < j <= n,
                n == active@.len(),
                bodies@.len() == n,
                (Crowd { bodies: bodies@, hits: hits@ }) == row.meet_row(
                    active@,
                    i as int,
                    j as int,
                ),
            decreases n - j,
        {
            if active[i] && active[j] {
                let mut a: Body = bodies[i];
                let mut b: Body = bodies[j];
                let magnitude: Double = resolve_circle_circle(&mut a, &mut b);
                bodies.set(i, a);
                bodies.set(j, b);
                hits.push(Hit { first: i, second: j, magnitude });
            }
            j = j + 1;
        }
        i = i + 1;
    }
    hits
}

/// The five fixed obstacles of the rink.
pub fn pillars() -> (bodies: Vec<Body>)
    ensures
        bodies@ == rink_pillars(),
{
    let left: Double = encoded(0x4080_4000_0000_0000);
    let right: Double = encoded(0x4094_0000_0000_0000);
    let upper: Double = encoded(0x4076_8000_0000_0000);
    let lower: Double = encoded(0x408A_4000_0000_0000);
    let wide: Double = encoded(0x4048_0000_0000_0000);
    vec![
        Body::new_pillar(left, upper, wide),
        Body::new_pillar(right, upper, wide),
        Body::new_pillar(left, lower, wide),
        Body::new_pillar(right, lower, wide),
        Body::new_pillar(
            encoded(0x408C_2000_0000_0000),
            encoded(0x4082_C000_0000_0000),
            encoded(0x4042_0000_0000_0000),
        ),
    ]
}

/// Whether one pair of places comes before another.
pub open spec fn before(a: (int, int), b: (int, int)) -> bool {
    a.0 < b.0 || (a.0 == b.0 && a.1 < b.1)
}

/// Where the two bodies of a collision are.
pub open spec fn places(hit: Hit) -> (int, int) {
    (hit.first as int, hit.second as int)
}

/// Whether collisions are between two of `n` bodies, the earlier first, in order and each pair
/// once.
pub open spec fn in_order(hits: Seq<Hit>, n: nat) -> bool {
    &&& forall|k: int|
        0 <= k < hits.len() ==> (#[trigger] hits[k]).first < hits[k].second < n
    &&& forall|k: int, l: int|
        0 <= k < l < hits.len() ==> before(places(#[trigger] hits[k]), places(#[trigger] hits[l]))
}

/// Bodies collide in order, and no two of them twice.
pub(crate) proof fn lemma_hits_in_order(bodies: Seq<Body>, active: Seq<bool>)
    requires
        bodies.len() == active.len(),
        active.len() <= usize::MAX,
    ensures
        in_order(paired(bodies, active).hits, bodies.len()),
{
    lemma_meet_all_in_order(
        Crowd { bodies, hits: Seq::empty() },
        active,
        active.len() as int,
    );
}

proof fn lemma_meet_row_in_order(start: Crowd, active: Seq<bool>, i: int, j: int)
    requires
        0 <= i < active.len(),
        j <= active.len() <= usize::MAX,
        in_order(start.hits, active.len()),
        forall|k: int| 0 <= k < start.hits.len() ==> (#[trigger] start.hits[k]).first < i,
    ensures
        in_order(start.meet_row(active, i, j).hits, active.len()),
        forall|k: int|
            0 <= k < start.meet_row(active, i, j).hits.len() ==> {
                let hit = #[trigger] start.meet_row(active, i, j).hits[k];
                hit.first < i || (hit.first == i && hit.second < j)
            },
    decreases j - i,
{
    if j > i + 1 {
        lemma_meet_row_in_order(start, active, i, j - 1);
        let earlier = start.meet_row(active, i, j - 1);
        let after = start.meet_row(active, i, j);
        if after.hits.len() > earlier.hits.len() {
            let last = earlier.hits.len() as int;
            assert(after.hits[last].first == i && after.hits[last].second == j - 1);
            assert forall|k: int| 0 <= k < last implies #[trigger] after.hits[k]
                == earlier.hits[k] by {}
        }
    }
}

proof fn lemma_meet_all_in_order(start: Crowd, active: Seq<bool>, i: int)
    requires
        i <= active.len() <= usize::MAX,
        start.hits.len() == 0,
    ensures
        in_order(start.meet_all(active, i).hits, active.len()),
        forall|k: int|
            0 <= k < start.meet_all(active, i).hits.len() ==> (#[trigger] start.meet_all(
                active,
                i,
            ).hits[k]).first < i,
    decreases i,
{
    if i > 0 {
        lemma_meet_all_in_order(start, active, i - 1);
        lemma_meet_row_in_order(
            start.meet_all(active, i - 1),
            active,
            i - 1,
            active.len() as int,
        );
    }
}

/// Meeting a row of static bodies does not resize a body.
pub(crate) proof fn lemma_pressed_keeps(body: Body, row: Seq<Body>, n: nat)
    ensures
        pressed(body, row, n).r == body.r,
    decreases n,
{
    if n > 0 {
        lemma_pressed_keeps(body, row, (n - 1) as nat);
    }
}

/// Bodies that bump into each other keep their sizes, and those that take no part keep still.
pub(crate) proof fn lemma_paired_keeps(bodies: Seq<Body>, active: Seq<bool>, k: int)
    requires
        bodies.len() == active.len(),
        0 <= k < bodies.len(),
    ensures
        paired(bodies, active).bodies.len() == bodies.len(),
        paired(bodies, active).bodies[k].r == bodies[k].r,
        !active[k] ==> paired(bodies, active).bodies[k] == bodies[k],
{
    lemma_meet_all_keeps(
        Crowd { bodies, hits: Seq::empty() },
        active,
        active.len() as int,
        k,
    );
}

proof fn lemma_meet_all_keeps(start: Crowd, active: Seq<bool>, i: int, k: int)
    requires
        start.bodies.len() == active.len(),
        i <= active.len(),
        0 <= k < active.len(),
    ensures
        ({
            let after = start.meet_all(active, i);
            &&& after.bodies.len() == active.len()
            &&& after.bodies[k].r == start.bodies[k].r
            &&& !active[k] ==> after.bodies[k] == start.bodies[k]
        }),
    decreases i,
{
    if i > 0 {
        lemma_meet_all_keeps(start, active, i - 1, k);
        lemma_meet_row_keeps(
            start.meet_all(active, i - 1),
            active,
            i - 1,
            active.len() as int,
            k,
        );
    }
}

proof fn lemma_meet_row_keeps(start: Crowd, active: Seq<bool>, i: int, j: int, k: int)
    requires
        start.bodies.len() == active.len(),
        0 <= i < active.len(),
        j <= active.len(),
        0 <= k < active.len(),
    ensures
        ({
            let after = start.meet_row(active, i, j);
            &&& after.bodies.len() == active.len()
            &&& after.bodies[k].r == start.bodies[k].r
            &&& !active[k] ==> after.bodies[k] == start.bodies[k]
        }),
    decreases j - i,
{
    if j > i + 1 {
        lemma_meet_row_keeps(start, active, i, j - 1, k);
    }
}

// ---------------------------------------------------------------------------
// Laws
// ---------------------------------------------------------------------------

/// A collision never changes a static second body, nor the size or the kind of either body.
pub proof fn law_static_stays(a: Body, b: Body)
    ensures
        b.is_static ==> collided(a, b).b == b,
        collided(a, b).a.r == a.r,
        collided(a, b).a.is_static == a.is_static,
        collided(a, b).b.r == b.r,
        collided(a, b).b.is_static == b.is_static,
{
}

/// After the walls were resolved, a centre with coordinates lies in the playable rectangle, where
/// the body fits into it at all.
pub proof fn law_walls_contain(body: Body)
    requires
        !body.pos.x.nan(),
        !body.pos.y.nan(),
        body.low_bound().at_most(body.high_bound(encoded(ARENA_W))),
        body.low_bound().at_most(body.high_bound(encoded(ARENA_H))),
    ensures
        body.low_bound().at_most(body.walled().0.pos.x),
        body.walled().0.pos.x.at_most(body.high_bound(encoded(ARENA_W))),
        body.low_bound().at_most(body.walled().0.pos.y),
        body.walled().0.pos.y.at_most(body.high_bound(encoded(ARENA_H))),
{
}

/// The impact on the walls is zero for a body inside them, and its velocity is kept.
pub proof fn law_inside_untouched(body: Body)
    requires
        !body.pos.x.lt(body.low_bound()),
        !body.pos.y.lt(body.low_bound()),
        !body.pos.x.gt(body.high_bound(encoded(ARENA_W))),
        !body.pos.y.gt(body.high_bound(encoded(ARENA_H))),
    ensures
        body.walled() == (body, encoded(0)),
{
}

/// The centre of a player stays between 50 and 1750 across, and between 50 and 1150 down.
pub proof fn law_player_bounds(body: Body)
    requires
        body.r == encoded(PLAYER_R),
    ensures
        body.low_bound() == encoded(0x4049_0000_0000_0000),
        body.high_bound(encoded(ARENA_W)) == encoded(0x409B_5800_0000_0000),
        body.high_bound(encoded(ARENA_H)) == encoded(0x4091_F800_0000_0000),
{
    lemma2_to64();
    let pad = encoded(WALL_PAD);
    let radius = encoded(PLAYER_R);
    let near = encoded(0x4049_0000_0000_0000);
    lemma_scaled(pad, 12, 0x1000);
    lemma_scaled(radius, 12, 0x1000);
    lemma_scaled(pad.negate(), 12, 0x1000);
    lemma_scaled(radius.negate(), 12, 0x1000);
    lemma_scaled(near, 13, 0x2000);
    lemma_plus_exact(pad, radius, near, -60);

    let width = encoded(ARENA_W);
    let w1 = encoded(0x409B_B000_0000_0000);
    let w2 = encoded(0x409B_5800_0000_0000);
    lemma_scaled(width, 18, 0x4_0000);
    lemma_scaled(w1, 18, 0x4_0000);
    lemma_scaled(w2, 18, 0x4_0000);
    lemma_plus_exact(width, pad.negate(), w1, -60);
    lemma_plus_exact(w1, radius.negate(), w2, -60);

    let height = encoded(ARENA_H);
    let h1 = encoded(0x4092_5000_0000_0000);
    let h2 = encoded(0x4091_F800_0000_0000);
    lemma_scaled(height, 18, 0x4_0000);
    lemma_scaled(h1, 18, 0x4_0000);
    lemma_scaled(h2, 18, 0x4_0000);
    lemma_plus_exact(height, pad.negate(), h1, -60);
    lemma_plus_exact(h1, radius.negate(), h2, -60);
}

/// The exact square of a speed.
pub open spec fn speed_squared(vel: Vec2) -> real {
    size(vel.x) * size(vel.x) + size(vel.y) * size(vel.y)
}

/// A speed that is cut down to a limit exceeds it by next to nothing: its exact square is at most
/// that of the limit and a hundred trillionth parts of it, about.
pub proof fn law_capped_speed(vel: Vec2, limit: Double)
    requires
        vel.x.finite(),
        vel.y.finite(),
        limit.finite(),
        !limit.negative(),
        !limit.zero(),
        1real <= size(limit),
        -60 <= limit.exponent() <= 0,
    ensures
        ({
            let square = size(limit) * size(limit);
            let c = Body::capped(vel, limit);
            &&& c.x.finite()
            &&& c.y.finite()
            &&& speed_squared(c) <= square + 100real * slack(square)
        }),
{
    lemma_least();
    let sx = vel.x.times(vel.x);
    let sy = vel.y.times(vel.y);
    let sum = sx.plus(sy);
    let length = sum.root();
    law_times_ordered(vel.x, vel.x, vel.x);
    law_times_ordered(vel.y, vel.y, vel.y);
    lemma_plus_overflow(sx, sy);
    lemma_square_ordered(1real, size(limit));
    assert(1real * 1real == 1real);
    if !sum.finite() {
        lemma_infinite_length(sum, limit, vel.x);
        lemma_infinite_length(sum, limit, vel.y);
        let c = Body::capped(vel, limit);
        lemma_size_positive(c.x);
        lemma_size_positive(c.y);
        assert(0real * 0real == 0real);
    } else {
        law_times_near(vel.x, vel.x);
        law_times_near(vel.y, vel.y);
        law_plus_near(sx, sy);
        law_root_near(sum);
        lemma_size_positive(vel.x);
        lemma_size_positive(vel.y);
        lemma_size_positive(length);
        lemma_hypotenuse(
            size(vel.x),
            size(vel.y),
            size(sx),
            size(sy),
            size(sum),
            size(length),
        );
        if length.gt(limit) {
            let s = limit.over(length);
            lemma_size_ordered(limit, length);
            lemma_exponents_ordered(limit, length);
            law_over_near(limit, length);
            law_over_shrinks(limit, length);
            law_times_shrinks(vel.x, s);
            law_times_shrinks(vel.y, s);
            law_times_near(vel.x, s);
            law_times_near(vel.y, s);
            lemma_size_positive(s);
            lemma_size_positive(vel.x.times(s));
            lemma_size_positive(vel.y.times(s));
            lemma_cut_down(
                size(vel.x),
                size(vel.y),
                size(length),
                size(limit),
                size(s),
                size(vel.x.times(s)),
                size(vel.y.times(s)),
            );
        } else {
            lemma_size_ordered(length, limit);
            lemma_square_ordered(size(length), size(limit));
        }
    }
}

pub(crate) proof fn lemma_exponents_ordered(a: Double, b: Double)
    requires
        b.finite(),
        a.magnitude() <= b.magnitude(),
    ensures
        a.exponent() <= b.exponent(),
{
    lemma_div_is_ordered(a.magnitude(), b.magnitude(), HIDDEN as int);
}

/// The speed limit holds: after a step a body moves at 460 times the friction factor or slower,
/// whatever pushed it, as long as its velocity stays a number and friction does not speed it up.
/// Rounding may add a thousandth to the square of the speed; where friction takes a sixty-fourth of
/// the speed or more, the limit of 460 holds exactly.
pub proof fn law_speed_limit(body: Body, ax: Double, ay: Double, dt: Double, damp: Double)
    requires
        body.vel.x.plus(ax.times(dt)).finite(),
        body.vel.y.plus(ay.times(dt)).finite(),
        damp.magnitude() <= UNIT,
    ensures
        ({
            let after = body.integrated(ax, ay, dt, damp).vel;
            &&& after.x.finite()
            &&& after.y.finite()
            &&& speed_squared(after) <= 211600real * (size(damp) * size(damp)) + 1real / 1000real
            // At most 63 / 64.
            &&& damp.magnitude() <= 0x3FEF_8000_0000_0000 ==> speed_squared(after) <= 460real
                * 460real
        }),
{
    lemma_least();
    lemma2_to64();
    lemma2_to64_rest();
    let pushed = Vec2 {
        x: body.vel.x.plus(ax.times(dt)),
        y: body.vel.y.plus(ay.times(dt)),
    };
    let limit = encoded(MAX_SPEED);
    assert(limit.exponent() == -44 && limit.significand() == 0x1C_C000_0000_0000);
    lemma_size_is(limit, 44, 460real);
    assert(460real * 460real == 211600real);
    law_capped_speed(pushed, limit);
    let c = Body::capped(pushed, limit);
    let one = encoded(UNIT);
    assert(one.exponent() == -52 && one.significand() == 0x10_0000_0000_0000);
    lemma_size_is(one, 52, 1real);
    lemma_size_ordered(damp, one);
    law_times_shrinks(c.x, damp);
    law_times_shrinks(c.y, damp);
    law_times_near(c.x, damp);
    law_times_near(c.y, damp);
    lemma_size_positive(damp);
    lemma_size_positive(c.x);
    lemma_size_positive(c.y);
    lemma_size_positive(c.x.times(damp));
    lemma_size_positive(c.y.times(damp));
    lemma_side(size(c.x), size(damp), size(c.x.times(damp)));
    lemma_side(size(c.y), size(damp), size(c.y.times(damp)));
    // Both coordinates together.
    let f = size(damp) * size(damp);
    let x = size(c.x) * size(c.x);
    let y = size(c.y) * size(c.y);
    let most = 211600real + 100real * slack(211600real);
    lemma_distributes(x, y, f);
    lemma_square_ordered(size(damp), 1real);
    assert(1real * 1real == 1real);
    lemma_square_ordered(0real, size(damp));
    assert(0real * 0real == 0real);
    lemma_scaled_ordered(x + y, most, f);
    lemma_distributes(211600real, 100real * slack(211600real), f);
    lemma_scaled_ordered(f, 1real, 100real * slack(211600real));
    lemma_commutes(f, 100real * slack(211600real));
    if damp.magnitude() <= 0x3FEF_8000_0000_0000 {
        let less = encoded(0x3FEF_8000_0000_0000);
        assert(less.exponent() == -53 && less.significand() == 0x1F_8000_0000_0000);
        lemma_size_is(less, 53, 63real / 64real);
        lemma_size_ordered(damp, less);
        lemma_square_ordered(size(damp), 63real / 64real);
        assert((63real / 64real) * (63real / 64real) == 3969real / 4096real) by (nonlinear_arith);
    }
}

/// A bounce off the walls never makes a body faster.
pub proof fn law_bounce_slows(body: Body)
    requires
        body.vel.x.finite(),
        body.vel.y.finite(),
    ensures
        body.walled().0.vel.x.magnitude() <= body.vel.x.magnitude(),
        body.walled().0.vel.y.magnitude() <= body.vel.y.magnitude(),
{
    law_times_shrinks(body.vel.x.negate(), encoded(RESTITUTION));
    law_times_shrinks(body.vel.y.negate(), encoded(RESTITUTION));
}

/// A body that nothing pushes does not get faster.
pub proof fn law_friction_slows(body: Body, dt: Double, damp: Double)
    requires
        body.vel.x.finite(),
        body.vel.y.finite(),
        dt.finite(),
        damp.magnitude() <= UNIT,
    ensures
        ({
            let after = body.integrated(encoded(0), encoded(0), dt, damp).vel;
            &&& after.x.magnitude() <= body.vel.x.magnitude()
            &&& after.y.magnitude() <= body.vel.y.magnitude()
        }),
{
    let nothing = encoded(0).times(dt);
    lemma_zero_times(dt);
    lemma_plus_zero(body.vel.x, nothing);
    lemma_plus_zero(body.vel.y, nothing);
    let pushed = Vec2 { x: body.vel.x.plus(nothing), y: body.vel.y.plus(nothing) };
    let limit = encoded(MAX_SPEED);
    let sx = pushed.x.times(pushed.x);
    let sy = pushed.y.times(pushed.y);
    law_times_ordered(pushed.x, pushed.x, pushed.x);
    law_times_ordered(pushed.y, pushed.y, pushed.y);
    lemma_plus_overflow(sx, sy);
    let sum = sx.plus(sy);
    let length = sum.root();
    if sum.finite() {
        law_root_near(sum);
        if length.gt(limit) {
            law_over_shrinks(limit, length);
            law_times_shrinks(pushed.x, limit.over(length));
            law_times_shrinks(pushed.y, limit.over(length));
        }
    } else {
        lemma_infinite_length(sum, limit, pushed.x);
        lemma_infinite_length(sum, limit, pushed.y);
    }
    let c = Body::capped(pushed, limit);
    law_times_shrinks(c.x, damp);
    law_times_shrinks(c.y, damp);
}

/// Whether a body has a place: its centre has finite coordinates, and its radius is of moderate
/// size, less than `2^153`.
pub open spec fn has_place(body: Body) -> bool {
    &&& body.pos.x.finite()
    &&& body.pos.y.finite()
    &&& body.r.finite()
    &&& body.r.exponent() <= 100
}

/// A collision leaves both bodies in a place, however near their centres are and however fast they
/// move.
pub proof fn law_collision_keeps_place(a: Body, b: Body)
    requires
        has_place(a),
        has_place(b),
    ensures
        has_place(collided(a, b).a),
        has_place(collided(a, b).b),
{
    if touching(a, b) {
        let dx = b.pos.x.minus(a.pos.x);
        let dy = b.pos.y.minus(a.pos.y);
        let sx = dx.times(dx);
        let sy = dy.times(dy);
        let square = sx.plus(sy);
        let dist = square.root();
        let reach = a.r.plus(b.r);
        lemma_plus_range(a.r, b.r);
        lemma_touching_finite(a, b);
        lemma_square(dx);
        lemma_square(dy);
        lemma_plus_overflow(sx, sy);
        lemma_root_range(square);
        lemma_direction(dx, sx, sy);
        law_plus_commutes(sx, sy);
        lemma_direction(dy, sy, sx);
        let nx = dx.over(dist);
        let ny = dy.over(dist);
        lemma_over_range(dx, dist);
        lemma_over_range(dy, dist);
        let overlap = reach.minus(dist);
        lemma_plus_range(reach, dist.negate());
        lemma_times_range(overlap, encoded(HALF));
        let push = if b.is_static {
            overlap
        } else {
            overlap.times(encoded(HALF))
        };
        lemma_times_range(nx, push);
        lemma_times_range(ny, push);
        lemma_plus_small(a.pos.x, nx.times(push).negate());
        lemma_plus_small(a.pos.y, ny.times(push).negate());
        lemma_plus_small(b.pos.x, nx.times(push));
        lemma_plus_small(b.pos.y, ny.times(push));
    }
}

/// A collision is felt where circles overlap: it has a positive strength only if they touch, and
/// always if moreover the computed distance is less than their radii together. Where they touch,
/// only rounding can keep it from being less.
pub proof fn law_overlap_is_felt(a: Body, b: Body)
    requires
        has_place(a),
        has_place(b),
    ensures
        ({
            let square = square_norm(b.pos.x.minus(a.pos.x), b.pos.y.minus(a.pos.y));
            let felt = collided(a, b).magnitude.gt(encoded(0));
            &&& felt ==> touching(a, b)
            &&& touching(a, b) && square.root().less(a.r.plus(b.r)) ==> felt
        }),
{
    if touching(a, b) {
        let dx = b.pos.x.minus(a.pos.x);
        let dy = b.pos.y.minus(a.pos.y);
        let square = square_norm(dx, dy);
        let reach = a.r.plus(b.r);
        lemma_touching_finite(a, b);
        lemma_square(dx);
        lemma_square(dy);
        lemma_plus_overflow(dx.times(dx), dy.times(dy));
        lemma_root_range(square);
        lemma_plus_range(a.r, b.r);
        if square.root().less(reach) {
            law_minus_positive(reach, square.root());
        }
    }
}

/// Bodies that touch have a finite distance other than zero: out of range is out of reach.
pub(crate) proof fn lemma_touching_finite(a: Body, b: Body)
    requires
        has_place(a),
        has_place(b),
        touching(a, b),
    ensures
        ({
            let dx = b.pos.x.minus(a.pos.x);
            let dy = b.pos.y.minus(a.pos.y);
            &&& dx.finite()
            &&& dy.finite()
            &&& dx.times(dx).finite()
            &&& dy.times(dy).finite()
            &&& dx.times(dx).plus(dy.times(dy)).finite()
            &&& !dx.times(dx).plus(dy.times(dy)).zero()
        }),
{
    let dx = b.pos.x.minus(a.pos.x);
    let dy = b.pos.y.minus(a.pos.y);
    let square = dx.times(dx).plus(dy.times(dy));
    let reach = a.r.plus(b.r);
    lemma_plus_range(a.r, b.r);
    lemma_times_range(reach, reach);
    lemma_difference(b.pos.x, a.pos.x);
    lemma_difference(b.pos.y, a.pos.y);
    lemma_square(dx);
    lemma_square(dy);
    lemma_plus_overflow(dx.times(dx), dy.times(dy));
    assert(square.finite());
    if square.zero() {
        reveal(Double::root_spec);
    }
}

/// A square is not negative, and infinite if the number is.
pub(crate) proof fn lemma_square(x: Double)
    requires
        !x.nan(),
    ensures
        !x.times(x).nan(),
        !x.times(x).negative(),
        x.infinite() ==> x.times(x).infinite(),
{
    if x.finite() {
        law_times_ordered(x, x, x);
    } else {
        reveal(Double::times_spec);
    }
}

/// The difference of finite numbers is a number.
proof fn lemma_difference(a: Double, b: Double)
    requires
        a.finite(),
        b.finite(),
    ensures
        !a.minus(b).nan(),
{
    reveal(Double::plus_spec);
    let c = b.negate();
    let n = a.exact_sum(c);
    lemma_nearest_bound(
        if n < 0 {
            (-n) as nat
        } else {
            n as nat
        },
        a.sum_exponent(c),
    );
}

/// A side is not much longer than the computed length of its hypotenuse.
pub(crate) proof fn lemma_direction(side: Double, square: Double, other: Double)
    requires
        side.finite(),
        square == side.times(side),
        square.finite(),
        other.finite(),
        !other.negative(),
        square.plus(other).finite(),
        !square.plus(other).negative(),
        !square.plus(other).zero(),
    ensures
        square.plus(other).root().finite(),
        square.plus(other).root().exponent() > -1074,
        side.exponent() - square.plus(other).root().exponent() <= 100,
        side.exponent() > -490 ==> side.exponent() - square.plus(other).root().exponent() <= 1,
{
    let sum = square.plus(other);
    lemma_root_range(sum);
    if side.exponent() > -490 {
        lemma_square(side);
        let zero = encoded(0);
        law_plus_ordered(zero, other, square);
        law_plus_commutes(zero, square);
        law_plus_commutes(other, square);
        lemma_plus_zero(square, zero);
        lemma_plus_overflow(square, zero);
        assert(square.magnitude() <= sum.magnitude());
        lemma_exponents_ordered(square, sum);
        lemma_times_above(side, side);
    }
}

/// A step leaves a body in a place, whatever finite velocity it has, if the push and the step are
/// of moderate size and friction does not speed it up.
pub proof fn law_step_keeps_place(body: Body, ax: Double, ay: Double, dt: Double, damp: Double)
    requires
        has_place(body),
        body.vel.x.finite(),
        body.vel.y.finite(),
        ax.times(dt).finite(),
        ay.times(dt).finite(),
        ax.times(dt).exponent() <= 800,
        ay.times(dt).exponent() <= 800,
        dt.magnitude() <= UNIT,
        damp.magnitude() <= UNIT,
    ensures
        has_place(body.integrated(ax, ay, dt, damp)),
        body.integrated(ax, ay, dt, damp).vel.x.finite(),
        body.integrated(ax, ay, dt, damp).vel.y.finite(),
{
    lemma2_to64();
    lemma2_to64_rest();
    let pushed = Vec2 {
        x: body.vel.x.plus(ax.times(dt)),
        y: body.vel.y.plus(ay.times(dt)),
    };
    lemma_plus_small(body.vel.x, ax.times(dt));
    lemma_plus_small(body.vel.y, ay.times(dt));
    let limit = encoded(MAX_SPEED);
    assert(limit.exponent() == -44 && limit.significand() == 0x1C_C000_0000_0000);
    lemma_size_is(limit, 44, 460real);
    law_capped_speed(pushed, limit);
    assert(460real * 460real == 211600real);
    let c = Body::capped(pushed, limit);
    lemma_size_positive(c.x);
    lemma_size_positive(c.y);
    lemma_square_ordered(0real, size(c.x));
    lemma_square_ordered(0real, size(c.y));
    assert(0real * 0real == 0real);
    lemma_slow_exponent(c.x);
    lemma_slow_exponent(c.y);
    lemma_slowed(body.pos.x, c.x, damp, dt);
    lemma_slowed(body.pos.y, c.y, damp, dt);
}

/// A number whose square is small has a small exponent.
pub(crate) proof fn lemma_slow_exponent(x: Double)
    requires
        x.finite(),
        size(x) * size(x) <= 100000000000real,
    ensures
        x.exponent() <= 0,
{
    if x.exponent() > 0 {
        lemma_size_large(x);
        lemma_square_ordered(1000000real, size(x));
        assert(1000000real * 1000000real == 1000000000000real);
    }
}

/// A coordinate stays finite when a slow body moves on.
proof fn lemma_slowed(pos: Double, vel: Double, damp: Double, dt: Double)
    requires
        pos.finite(),
        vel.finite(),
        vel.exponent() <= 0,
        damp.magnitude() <= UNIT,
        dt.magnitude() <= UNIT,
    ensures
        vel.times(damp).finite(),
        pos.plus(vel.times(damp).times(dt)).finite(),
{
    let v = vel.times(damp);
    law_times_shrinks(vel, damp);
    law_times_shrinks(v, dt);
    lemma_exponents_ordered(v, vel);
    lemma_exponents_ordered(v.times(dt), v);
    lemma_plus_small(pos, v.times(dt));
}

/// Meeting a row of bodies leaves a body in a place.
pub(crate) proof fn lemma_pressed_place(body: Body, row: Seq<Body>, n: nat)
    requires
        has_place(body),
        n <= row.len(),
        forall|j: int| 0 <= j < row.len() ==> has_place(#[trigger] row[j]),
    ensures
        has_place(pressed(body, row, n)),
    decreases n,
{
    if n > 0 {
        lemma_pressed_place(body, row, (n - 1) as nat);
        law_collision_keeps_place(pressed(body, row, (n - 1) as nat), row[n - 1]);
    }
}

spec fn all_placed(bodies: Seq<Body>) -> bool {
    forall|k: int| 0 <= k < bodies.len() ==> has_place(#[trigger] bodies[k])
}

/// Bodies that collide with each other stay in a place.
pub(crate) proof fn lemma_paired_place(bodies: Seq<Body>, active: Seq<bool>, k: int)
    requires
        bodies.len() == active.len(),
        forall|j: int| 0 <= j < bodies.len() ==> has_place(#[trigger] bodies[j]),
        0 <= k < bodies.len(),
    ensures
        paired(bodies, active).bodies.len() == bodies.len(),
        has_place(paired(bodies, active).bodies[k]),
{
    let start = Crowd { bodies, hits: Seq::empty() };
    lemma_meet_all_place(start, active, active.len() as int);
}

proof fn lemma_meet_all_place(start: Crowd, active: Seq<bool>, i: int)
    requires
        start.bodies.len() == active.len(),
        all_placed(start.bodies),
        i <= active.len(),
    ensures
        start.meet_all(active, i).bodies.len() == active.len(),
        all_placed(start.meet_all(active, i).bodies),
    decreases i,
{
    if i > 0 {
        lemma_meet_all_place(start, active, i - 1);
        lemma_meet_row_place(
            start.meet_all(active, i - 1),
            active,
            i - 1,
            active.len() as int,
        );
    }
}

proof fn lemma_meet_row_place(start: Crowd, active: Seq<bool>, i: int, j: int)
    requires
        start.bodies.len() == active.len(),
        all_placed(start.bodies),
        0 <= i < active.len(),
        j <= active.len(),
    ensures
        start.meet_row(active, i, j).bodies.len() == active.len(),
        all_placed(start.meet_row(active, i, j).bodies),
    decreases j - i,
{
    if j > i + 1 {
        lemma_meet_row_place(start, active, i, j - 1);
        let c = start.meet_row(active, i, j - 1);
        law_collision_keeps_place(c.bodies[i], c.bodies[j - 1]);
    }
}

/// Whether no two of the bodies that take part touch.
pub open spec fn all_apart(bodies: Seq<Body>, active: Seq<bool>) -> bool {
    forall|i: int, j: int|
        0 <= i < j < bodies.len() && active[i] && active[j] ==> !touching(
            #[trigger] bodies[i],
            #[trigger] bodies[j],
        )
}

/// Bodies that do not touch each other stay as they are.
pub proof fn law_apart_stays(bodies: Seq<Body>, active: Seq<bool>)
    requires
        bodies.len() == active.len(),
        all_apart(bodies, active),
    ensures
        paired(bodies, active).bodies == bodies,
{
    lemma_meet_all_apart(Crowd { bodies, hits: Seq::empty() }, active, active.len() as int);
}

pub(crate) proof fn lemma_meet_all_apart(start: Crowd, active: Seq<bool>, i: int)
    requires
        start.bodies.len() == active.len(),
        all_apart(start.bodies, active),
        i <= active.len(),
    ensures
        start.meet_all(active, i).bodies == start.bodies,
    decreases i,
{
    if i > 0 {
        lemma_meet_all_apart(start, active, i - 1);
        lemma_meet_row_apart(
            start.meet_all(active, i - 1),
            active,
            i - 1,
            active.len() as int,
        );
    }
}

pub(crate) proof fn lemma_meet_row_apart(start: Crowd, active: Seq<bool>, i: int, j: int)
    requires
        start.bodies.len() == active.len(),
        all_apart(start.bodies, active),
        0 <= i < active.len(),
        j <= active.len(),
    ensures
        start.meet_row(active, i, j).bodies == start.bodies,
    decreases j - i,
{
    if j > i + 1 {
        lemma_meet_row_apart(start, active, i, j - 1);
        let c = start.meet_row(active, i, j - 1);
        assert(c.meet(active, i, j - 1).bodies =~= c.bodies);
    }
}

/// The pillars of the rink have a place.
pub proof fn law_pillars_have_place(j: int)
    requires
        0 <= j < rink_pillars().len(),
    ensures
        has_place(rink_pillars()[j]),
{
}

} // verus!
