//! How fast bodies are after they bumped into each other: together no faster than before, up to
//! rounding.

use crate::bounce::{
    clear_direction, law_plus_close, lemma_close_within, lemma_difference_close, lemma_expanded,
    lemma_negated, lemma_product_close, lemma_product_within, lemma_root_within,
    lemma_square_positive, lemma_turn, lemma_unit_direction, real_value, within,
};
use crate::double::encoded;
use crate::exact::{
    lemma_associates, lemma_commutes, lemma_distributes, lemma_plus_range, lemma_regrouped,
    lemma_scaled_ordered, lemma_size_is, lemma_size_positive, size, slack,
};
use crate::physics::{
    collided, has_place, law_collision_keeps_place, lemma_slow_exponent, lemma_touching_finite,
    paired, speed_squared, square_norm, touching, Body, Crowd, HALF, ONE, RESTITUTION,
};
use vstd::arithmetic::mul::*;
use vstd::arithmetic::power2::*;
use vstd::prelude::*;

verus! {

// ---------------------------------------------------------------------------
// The exchange in real numbers
// ---------------------------------------------------------------------------

/// Two bodies that exchange up to half of what they approach each other by, along a direction of
/// unit length, are together no faster.
proof fn lemma_shared(ax: real, ay: real, bx: real, by: real, nx: real, ny: real, k: real)
    requires
        0real <= k <= 19real / 20real,
        nx * nx + ny * ny <= 21real / 20real,
    ensures
        ({
            let q = -(k * ((bx - ax) * nx + (by - ay) * ny));
            let ux = ax - q * nx;
            let uy = ay - q * ny;
            let wx = bx + q * nx;
            let wy = by + q * ny;
            ux * ux + uy * uy + wx * wx + wy * wy <= ax * ax + ay * ay + bx * bx + by * by
        }),
{
    let p = (bx - ax) * nx + (by - ay) * ny;
    let q = -(k * p);
    let n2 = nx * nx + ny * ny;
    let s = p * p;
    lemma_expanded(ax, q, nx);
    lemma_expanded(ay, q, ny);
    lemma_expanded(bx, -q, nx);
    lemma_expanded(by, -q, ny);
    lemma_negated(q, nx);
    lemma_negated(q, ny);
    lemma_negated(q, q);
    lemma_negated(q, bx * nx);
    lemma_negated(q, by * ny);
    // What the mixed terms add up to: q p.
    lemma_distributes(bx, -ax, nx);
    lemma_distributes(by, -ay, ny);
    lemma_negated(ax, nx);
    lemma_negated(ay, ny);
    let t1 = ax * nx;
    let t2 = ay * ny;
    let t3 = bx * nx;
    let t4 = by * ny;
    assert(p == t3 - t1 + t4 - t2);
    lemma_four(q, t1, t2, t3, t4);
    assert(q * t3 - q * t1 + q * t4 - q * t2 == q * p);
    // What the squares add up to: twice q^2 n^2.
    lemma_distributes(nx * nx, ny * ny, q * q);
    lemma_commutes(q * q, nx * nx);
    lemma_commutes(q * q, ny * ny);
    lemma_commutes(q * q, n2);
    assert((q * q) * (nx * nx) + (q * q) * (ny * ny) == (q * q) * n2);
    // q p == -k s and q^2 == k (k s)
    lemma_square_positive(p);
    lemma_square_positive(nx);
    lemma_square_positive(ny);
    lemma_negated(k * p, p);
    lemma_associates(k, p, p);
    assert(q * p == -(k * s));
    lemma_negated(k * p, k * p);
    lemma_regrouped(k, p, k, p);
    lemma_associates(k, k, s);
    assert(q * q == k * (k * s));
    lemma_commutes(k, k * s);
    lemma_scaled_ordered(0real, s, k);
    assert(0real * k == 0real);
    lemma_commutes(k, s);
    // k n^2 <= 1
    lemma_scaled_ordered(k, 19real / 20real, n2);
    assert((19real / 20real) * n2 <= 1real);
    lemma_associates(k * s, k, n2);
    lemma_scaled_ordered(k * n2, 1real, k * s);
    lemma_commutes(k * s, k * n2);
    assert(1real * (k * s) == k * s);
}

proof fn lemma_four(q: real, t1: real, t2: real, t3: real, t4: real)
    ensures
        q * (t3 - t1 + t4 - t2) == q * t3 - q * t1 + q * t4 - q * t2,
{
    lemma_distributes(t3 - t1, t4 - t2, q);
    lemma_distributes(t3, -t1, q);
    lemma_distributes(t4, -t2, q);
    lemma_negated(t1, q);
    lemma_negated(t2, q);
    lemma_commutes(q, t1);
    lemma_commutes(q, t2);
    lemma_commutes(q, t3);
    lemma_commutes(q, t4);
    lemma_commutes(q, t3 - t1 + t4 - t2);
}

/// The square of a number that is off by a little.
proof fn lemma_off(w: real, g: real, small: real)
    requires
        within(w, 4000real),
        within(g, small),
        small <= 1real,
    ensures
        (w + g) * (w + g) <= w * w + 8001real * small,
{
    let z = w + g;
    lemma_distributes(w, g, z);
    lemma_commutes(w, z);
    lemma_commutes(g, z);
    lemma_distributes(w, g, w);
    lemma_distributes(w, g, g);
    lemma_commutes(w, g);
    lemma_product_within(g, w, small, 4000real);
    lemma_product_within(g, g, small, 1real);
}

/// The numbers that an exchange computes from two velocities and a direction.
pub ghost struct Trade {
    pub away_x: real,
    pub away_y: real,
    pub part_x: real,
    pub part_y: real,
    pub approach: real,
    pub scaled: real,
    pub impulse: real,
    pub loss_x: real,
    pub loss_y: real,
}

/// The four coordinates of two velocities.
pub ghost struct Speeds {
    pub ax: real,
    pub ay: real,
    pub bx: real,
    pub by: real,
}

impl Speeds {
    pub open spec fn squares(self) -> real {
        self.ax * self.ax + self.ay * self.ay + self.bx * self.bx + self.by * self.by
    }
}

impl Trade {
    /// Whether each number is off by at most `d` from what it is computed from.
    pub open spec fn follow(self, v: Speeds, nx: real, ny: real, k: real, d: real) -> bool {
        &&& within(self.away_x - (v.bx - v.ax), d)
        &&& within(self.away_y - (v.by - v.ay), d)
        &&& within(self.part_x - self.away_x * nx, d)
        &&& within(self.part_y - self.away_y * ny, d)
        &&& within(self.approach - (self.part_x + self.part_y), d)
        &&& within(self.scaled + k * self.approach, d)
        &&& within(self.impulse - self.scaled / 2real, d)
        &&& within(self.loss_x - self.impulse * nx, d)
        &&& within(self.loss_y - self.impulse * ny, d)
    }
}

/// One coordinate of what is exchanged is off by a little.
proof fn lemma_loss(n: real, q: real, impulse: real, loss: real, d: real)
    requires
        0real <= d,
        within(n, 11real / 10real),
        within(impulse - q, 8real * d),
        within(loss - impulse * n, d),
    ensures
        within(loss - q * n, 10real * d),
{
    let f = impulse - q;
    lemma_distributes(q, f, n);
    lemma_product_within(f, n, 8real * d, 11real / 10real);
    assert((8real * d) * (11real / 10real) <= 9real * d);
}

/// An exchange that is computed with small errors leaves velocities that are hardly faster.
proof fn lemma_traded(
    trade: Trade,
    v: Speeds,
    after: Speeds,
    nx: real,
    ny: real,
    k: real,
    d: real,
)
    requires
        trade.follow(v, nx, ny, k, d),
        within(after.ax - (v.ax - trade.loss_x), d),
        within(after.ay - (v.ay - trade.loss_y), d),
        within(after.bx - (v.bx + trade.loss_x), d),
        within(after.by - (v.by + trade.loss_y), d),
        0real <= d <= 1real / 1000real,
        0real <= k <= 19real / 10real,
        nx * nx + ny * ny <= 21real / 20real,
        v.squares() <= 16000000real,
    ensures
        after.squares() <= v.squares() + 360000real * d,
{
    lemma_square_positive(nx);
    lemma_square_positive(ny);
    let c = 11real / 10real;
    assert(c * c == 121real / 100real);
    lemma_root_within(nx, c);
    lemma_root_within(ny, c);

    let rx = v.bx - v.ax;
    let ry = v.by - v.ay;
    let p = rx * nx + ry * ny;
    let half = k / 2real;
    let q = -(half * p);
    let ex = trade.away_x - rx;
    let ey = trade.away_y - ry;
    // approach == p, up to 6 d
    lemma_distributes(ex, rx, nx);
    lemma_distributes(ey, ry, ny);
    lemma_product_within(ex, nx, d, c);
    lemma_product_within(ey, ny, d, c);
    assert(d * c <= (12real / 10real) * d);
    let off = trade.approach - p;
    assert(within(off, 6real * d));

    // impulse == q, up to 8 d
    lemma_distributes(off, p, k);
    lemma_commutes(k, trade.approach);
    lemma_commutes(k, p);
    lemma_product_within(off, k, 6real * d, 19real / 10real);
    assert((6real * d) * (19real / 10real) <= 12real * d);
    lemma_distributes(half, half, p);
    assert(within(trade.impulse - q, 8real * d));

    lemma_loss(nx, q, trade.impulse, trade.loss_x, d);
    lemma_loss(ny, q, trade.impulse, trade.loss_y, d);
    let ux = v.ax - q * nx;
    let uy = v.ay - q * ny;
    let wx = v.bx + q * nx;
    let wy = v.by + q * ny;
    lemma_shared(v.ax, v.ay, v.bx, v.by, nx, ny, half);
    lemma_square_positive(ux);
    lemma_square_positive(uy);
    lemma_square_positive(wx);
    lemma_square_positive(wy);
    assert(4000real * 4000real == 16000000real);
    lemma_root_within(ux, 4000real);
    lemma_root_within(uy, 4000real);
    lemma_root_within(wx, 4000real);
    lemma_root_within(wy, 4000real);
    lemma_off(ux, after.ax - ux, 11real * d);
    lemma_off(uy, after.ay - uy, 11real * d);
    lemma_off(wx, after.bx - wx, 11real * d);
    lemma_off(wy, after.by - wy, 11real * d);
}

// ---------------------------------------------------------------------------
// The exchange as it is computed
// ---------------------------------------------------------------------------

/// Whether a body moves: it is not fixed, and has a place and a finite velocity.
pub open spec fn moves(body: Body) -> bool {
    &&& has_place(body)
    &&& !body.is_static
    &&& body.vel.x.finite()
    &&& body.vel.y.finite()
}

/// The most that rounding in one collision adds to the squares of two speeds: about a sixtieth.
pub open spec fn bump_margin() -> real {
    slack(18000000000real)
}

/// Two moving bodies that collide are together no faster than before, up to rounding: the sum of
/// the exact squares of their speeds hardly grows.
pub proof fn law_exchange_slows(a: Body, b: Body)
    requires
        moves(a),
        moves(b),
        clear_direction(a, b),
        speed_squared(a.vel) + speed_squared(b.vel) <= 16000000real,
    ensures
        moves(collided(a, b).a),
        moves(collided(a, b).b),
        ({
            let after = collided(a, b);
            speed_squared(after.a.vel) + speed_squared(after.b.vel) <= speed_squared(a.vel)
                + speed_squared(b.vel) + bump_margin()
        }),
{
    law_collision_keeps_place(a, b);
    if touching(a, b) {
        let dx = b.pos.x.minus(a.pos.x);
        let dy = b.pos.y.minus(a.pos.y);
        lemma_touching_finite(a, b);
        lemma_unit_direction(dx, dy);
        let dist = square_norm(dx, dy).root();
        let nx = dx.over(dist);
        let ny = dy.over(dist);
        let rx = b.vel.x.minus(a.vel.x);
        let ry = b.vel.y.minus(a.vel.y);
        let px = rx.times(nx);
        let py = ry.times(ny);
        let approach = px.plus(py);
        if !approach.ge(encoded(0)) {
            let turn = encoded(ONE).plus(encoded(RESTITUTION)).negate();
            let half = encoded(HALF);
            let scaled = turn.times(approach);
            let impulse = scaled.times(half);
            let lx = impulse.times(nx);
            let ly = impulse.times(ny);
            let after = collided(a, b);
            let mx = real_value(nx);
            let my = real_value(ny);
            let k = -real_value(turn);
            let c = 11real / 10real;
            let top = 40000real;
            let v = speeds(a, b);
            lemma_speed_bounds(a, b);
            lemma_square_positive(mx);
            lemma_square_positive(my);
            assert(c * c == 121real / 100real);
            lemma_root_within(mx, c);
            lemma_root_within(my, c);
            lemma_difference_close(b.vel.x, a.vel.x, top);
            lemma_difference_close(b.vel.y, a.vel.y, top);
            lemma_product_close(rx, nx, 8001real, c, top);
            lemma_product_close(ry, ny, 8001real, c, top);
            lemma_product_within(real_value(rx), mx, 8001real, c);
            lemma_product_within(real_value(ry), my, 8001real, c);
            lemma_plus_range(px, py);
            law_plus_close(px, py);
            lemma_close_within(approach, real_value(px) + real_value(py), top);
            lemma_turn();
            lemma_product_close(turn, approach, 19real / 10real, 17605real, top);
            lemma_product_within(
                real_value(turn),
                real_value(approach),
                19real / 10real,
                17605real,
            );
            lemma2_to64_rest();
            assert(half.exponent() == -53 && half.significand() == 0x10_0000_0000_0000);
            lemma_size_is(half, 53, 1real / 2real);
            lemma_product_close(scaled, half, 33451real, 1real / 2real, top);
            lemma_product_within(real_value(scaled), real_value(half), 33451real, 1real / 2real);
            assert(real_value(scaled) * (1real / 2real) == real_value(scaled) / 2real);
            lemma_product_close(impulse, nx, 16727real, c, top);
            lemma_product_close(impulse, ny, 16727real, c, top);
            lemma_product_within(real_value(impulse), mx, 16727real, c);
            lemma_product_within(real_value(impulse), my, 16727real, c);
            lemma_difference_close(a.vel.x, lx, top);
            lemma_difference_close(a.vel.y, ly, top);
            lemma_plus_range(b.vel.x, lx);
            lemma_plus_range(b.vel.y, ly);
            law_plus_close(b.vel.x, lx);
            law_plus_close(b.vel.y, ly);
            lemma_close_within(b.vel.x.plus(lx), v.bx + real_value(lx), top);
            lemma_close_within(b.vel.y.plus(ly), v.by + real_value(ly), top);
            lemma_negated(k, real_value(approach));
            let trade = Trade {
                away_x: real_value(rx),
                away_y: real_value(ry),
                part_x: real_value(px),
                part_y: real_value(py),
                approach: real_value(approach),
                scaled: real_value(scaled),
                impulse: real_value(impulse),
                loss_x: real_value(lx),
                loss_y: real_value(ly),
            };
            let d = slack(50000real);
            assert(trade.follow(v, mx, my, k, d));
            lemma_traded(trade, v, speeds(after.a, after.b), mx, my, k, d);
            lemma_speeds(after.a, after.b);
        }
    }
}

/// The velocities of two bodies in real numbers.
spec fn speeds(a: Body, b: Body) -> Speeds {
    Speeds {
        ax: real_value(a.vel.x),
        ay: real_value(a.vel.y),
        bx: real_value(b.vel.x),
        by: real_value(b.vel.y),
    }
}

proof fn lemma_speeds(a: Body, b: Body)
    ensures
        speeds(a, b).squares() == speed_squared(a.vel) + speed_squared(b.vel),
{
    lemma_negated(size(a.vel.x), size(a.vel.x));
    lemma_negated(size(a.vel.y), size(a.vel.y));
    lemma_negated(size(b.vel.x), size(b.vel.x));
    lemma_negated(size(b.vel.y), size(b.vel.y));
}

/// The coordinates of velocities of moderate size.
proof fn lemma_speed_bounds(a: Body, b: Body)
    requires
        moves(a),
        moves(b),
        speed_squared(a.vel) + speed_squared(b.vel) <= 16000000real,
    ensures
        ({
            let v = speeds(a, b);
            &&& v.squares() == speed_squared(a.vel) + speed_squared(b.vel)
            &&& within(v.ax, 4000real)
            &&& within(v.ay, 4000real)
            &&& within(v.bx, 4000real)
            &&& within(v.by, 4000real)
            &&& a.vel.x.exponent() <= 0
            &&& a.vel.y.exponent() <= 0
            &&& b.vel.x.exponent() <= 0
            &&& b.vel.y.exponent() <= 0
        }),
{
    let v = speeds(a, b);
    lemma_speeds(a, b);
    lemma_square_positive(v.ax);
    lemma_square_positive(v.ay);
    lemma_square_positive(v.bx);
    lemma_square_positive(v.by);
    lemma_square_positive(size(a.vel.x));
    lemma_square_positive(size(a.vel.y));
    lemma_square_positive(size(b.vel.x));
    lemma_square_positive(size(b.vel.y));
    assert(4000real * 4000real == 16000000real);
    lemma_root_within(v.ax, 4000real);
    lemma_root_within(v.ay, 4000real);
    lemma_root_within(v.bx, 4000real);
    lemma_root_within(v.by, 4000real);
    lemma_slow_exponent(a.vel.x);
    lemma_slow_exponent(a.vel.y);
    lemma_slow_exponent(b.vel.x);
    lemma_slow_exponent(b.vel.y);
}

// ---------------------------------------------------------------------------
// Crowds
// ---------------------------------------------------------------------------

/// The sum of the exact squares of the speeds of those bodies that take part.
pub open spec fn total(bodies: Seq<Body>, active: Seq<bool>, n: nat) -> real
    decreases n,
{
    if n == 0 {
        0real
    } else {
        total(bodies, active, (n - 1) as nat) + if active[n - 1] {
            speed_squared(bodies[n - 1].vel)
        } else {
            0real
        }
    }
}

proof fn lemma_speed_positive(body: Body)
    ensures
        speed_squared(body.vel) >= 0real,
{
    lemma_square_positive(size(body.vel.x));
    lemma_square_positive(size(body.vel.y));
}

proof fn lemma_total_positive(bodies: Seq<Body>, active: Seq<bool>, n: nat)
    ensures
        total(bodies, active, n) >= 0real,
    decreases n,
{
    if n > 0 {
        lemma_total_positive(bodies, active, (n - 1) as nat);
        lemma_speed_positive(bodies[n - 1]);
    }
}

/// What changing one body does to the sum.
pub(crate) proof fn lemma_total_update(
    bodies: Seq<Body>,
    active: Seq<bool>,
    n: nat,
    i: int,
    body: Body,
)
    requires
        0 <= i < bodies.len(),
        n <= bodies.len(),
        active[i],
    ensures
        total(bodies.update(i, body), active, n) == total(bodies, active, n) + if i < n {
            speed_squared(body.vel) - speed_squared(bodies[i].vel)
        } else {
            0real
        },
    decreases n,
{
    if n > 0 {
        lemma_total_update(bodies, active, (n - 1) as nat, i, body);
    }
}

/// Two different bodies have no more than the sum.
proof fn lemma_two_of_total(bodies: Seq<Body>, active: Seq<bool>, i: int, j: int)
    requires
        bodies.len() == active.len(),
        0 <= i < j < bodies.len(),
        active[i],
        active[j],
    ensures
        speed_squared(bodies[i].vel) + speed_squared(bodies[j].vel) <= total(
            bodies,
            active,
            bodies.len(),
        ),
{
    let still = Body::player_at(encoded(0), encoded(0));
    assert(speed_squared(still.vel) == 0real) by {
        lemma_size_positive(encoded(0));
        assert(0real * 0real == 0real);
    }
    let once = bodies.update(i, still);
    lemma_total_update(bodies, active, bodies.len(), i, still);
    lemma_total_update(once, active, bodies.len(), j, still);
    lemma_total_positive(once.update(j, still), active, bodies.len());
}

/// One body has no more than the sum.
pub(crate) proof fn lemma_one_of_total(bodies: Seq<Body>, active: Seq<bool>, i: int)
    requires
        bodies.len() == active.len(),
        0 <= i < bodies.len(),
        active[i],
    ensures
        speed_squared(bodies[i].vel) <= total(bodies, active, bodies.len()),
{
    let still = Body::player_at(encoded(0), encoded(0));
    assert(speed_squared(still.vel) == 0real) by {
        lemma_size_positive(encoded(0));
        assert(0real * 0real == 0real);
    }
    lemma_total_update(bodies, active, bodies.len(), i, still);
    lemma_total_positive(bodies.update(i, still), active, bodies.len());
}

/// The bodies as they are when those at `i` and `j` are about to meet.
pub open spec fn crowd_at(bodies: Seq<Body>, active: Seq<bool>, i: int, j: int) -> Crowd {
    Crowd { bodies, hits: Seq::empty() }.meet_all(active, i).meet_row(active, i, j)
}

/// Whether whoever meets has a clear direction to the other one.
pub open spec fn pairs_clear(bodies: Seq<Body>, active: Seq<bool>) -> bool {
    forall|i: int, j: int|
        0 <= i < j < bodies.len() && active[i] && active[j] ==> {
            let c = #[trigger] crowd_at(bodies, active, i, j);
            clear_direction(c.bodies[i], c.bodies[j])
        }
}

/// Whether all that take part move.
pub open spec fn all_move(bodies: Seq<Body>, active: Seq<bool>) -> bool {
    forall|k: int| 0 <= k < bodies.len() && active[k] ==> moves(#[trigger] bodies[k])
}

/// The most that rounding adds when each of `n` bodies meets every other one.
pub open spec fn crowd_margin(n: nat) -> real {
    bump_margin() * ((n * n) as real)
}

/// Bodies that bump into each other, each pair once, are together no faster than before, up to
/// rounding.
pub proof fn law_crowd_slows(bodies: Seq<Body>, active: Seq<bool>)
    requires
        bodies.len() == active.len(),
        all_move(bodies, active),
        pairs_clear(bodies, active),
        total(bodies, active, bodies.len()) + crowd_margin(bodies.len()) <= 16000000real,
    ensures
        ({
            let after = paired(bodies, active).bodies;
            &&& after.len() == bodies.len()
            &&& all_move(after, active)
            &&& total(after, active, bodies.len()) <= total(bodies, active, bodies.len())
                + crowd_margin(bodies.len())
        }),
{
    lemma_all_slow(bodies, active, bodies.len() as int);
}

/// Margins add up.
pub(crate) proof fn lemma_margins(x: real, y: real, z: real)
    requires
        x + y <= z,
    ensures
        bump_margin() * x + bump_margin() * y <= bump_margin() * z,
{
    let m = bump_margin();
    lemma_distributes(x, y, m);
    lemma_scaled_ordered(x + y, z, m);
    lemma_commutes(m, x);
    lemma_commutes(m, y);
    lemma_commutes(m, z);
}

proof fn lemma_all_slow(bodies: Seq<Body>, active: Seq<bool>, i: int)
    requires
        bodies.len() == active.len(),
        all_move(bodies, active),
        pairs_clear(bodies, active),
        total(bodies, active, bodies.len()) + crowd_margin(bodies.len()) <= 16000000real,
        0 <= i <= bodies.len(),
    ensures
        ({
            let n = bodies.len();
            let after = Crowd { bodies, hits: Seq::empty() }.meet_all(active, i).bodies;
            &&& after.len() == n
            &&& all_move(after, active)
            &&& total(after, active, n) <= total(bodies, active, n) + bump_margin() * ((i
                * n) as real)
        }),
    decreases i,
{
    let n = bodies.len() as int;
    if i > 0 {
        lemma_all_slow(bodies, active, i - 1);
        lemma_row_slow(bodies, active, i - 1, n);
        lemma_mul_is_distributive_sub_other_way(n, i, 1);
        lemma_margins(((i - 1) * n) as real, n as real, (i * n) as real);
    } else {
        assert(0 * n == 0);
        assert(bump_margin() * 0real == 0real);
    }
}

proof fn lemma_row_slow(bodies: Seq<Body>, active: Seq<bool>, i: int, j: int)
    requires
        bodies.len() == active.len(),
        pairs_clear(bodies, active),
        total(bodies, active, bodies.len()) + crowd_margin(bodies.len()) <= 16000000real,
        0 <= i < bodies.len(),
        0 <= j <= bodies.len(),
        ({
            let n = bodies.len();
            let start = Crowd { bodies, hits: Seq::empty() }.meet_all(active, i).bodies;
            &&& start.len() == n
            &&& all_move(start, active)
            &&& total(start, active, n) <= total(bodies, active, n) + bump_margin() * ((i
                * n) as real)
        }),
    ensures
        ({
            let n = bodies.len();
            let start = Crowd { bodies, hits: Seq::empty() }.meet_all(active, i).bodies;
            let after = crowd_at(bodies, active, i, j).bodies;
            &&& after.len() == n
            &&& all_move(after, active)
            &&& total(after, active, n) <= total(start, active, n) + bump_margin() * (j as real)
        }),
    decreases j,
{
    let n = bodies.len();
    if j > i + 1 {
        lemma_row_slow(bodies, active, i, j - 1);
        let c = crowd_at(bodies, active, i, j - 1).bodies;
        if active[i] && active[j - 1] {
            // Fewer meetings than pairs of places so far.
            lemma_mul_inequality(i + 1, n as int, n as int);
            lemma_mul_is_distributive_add_other_way(n as int, i, 1);
            assert((i * n) as real + (j - 1) as real <= (n * n) as real);
            lemma_margins((i * n) as real, (j - 1) as real, (n * n) as real);
            lemma_two_of_total(c, active, i, j - 1);
            law_exchange_slows(c[i], c[j - 1]);
            let x = collided(c[i], c[j - 1]);
            lemma_total_update(c, active, n, i, x.a);
            lemma_total_update(c.update(i, x.a), active, n, j - 1, x.b);
        }
        lemma_margins((j - 1) as real, 1real, j as real);
        assert(bump_margin() * 1real == bump_margin());
    }
}

} // verus!
