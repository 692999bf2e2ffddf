//! How fast enemies are: slow when nobody bumps into them, and together no faster than the chase
//! and the players make them when somebody does.

use crate::bounce::{clear_direction, law_row_clear, lemma_pressed_slow, row_clear, stands};
use crate::double::{encoded, law_plus_commutes, lemma_zero_times, Double};
use crate::exact::{
    lemma_distributes, lemma_over_range, lemma_plus_range, lemma_scaled_ordered, lemma_size_is,
    lemma_size_ordered, lemma_size_positive, lemma_square_ordered, lemma_times_range, size, slack,
};
use crate::exchange::{
    all_move, bump_margin, crowd_at, crowd_margin, law_crowd_slows, law_exchange_slows,
    lemma_margins, lemma_one_of_total, lemma_total_update, moves, pairs_clear, total,
};
use crate::level::{
    enemies_alive, enemy_bodies, jostled, lemma_target, pursued, steered, target, Clash, Enemy,
    LevelView, ENEMY_ACCEL, ENEMY_SPEED,
};
use crate::physics::{
    all_apart, collided, has_place, law_apart_stays, law_bounce_slows, law_capped_speed,
    law_step_keeps_place, lemma_direction, lemma_meet_all_apart, lemma_meet_row_apart, lemma_square,
    paired, pressed, speed_squared, square_norm, touching, Body, Crowd, ARENA_H, ARENA_W, ONE, STEP,
    WALL_PAD,
};
use vstd::arithmetic::mul::*;
use vstd::arithmetic::power2::*;
use vstd::prelude::*;

verus! {

// ---------------------------------------------------------------------------
// The chase
// ---------------------------------------------------------------------------

/// The most that rounding adds to the square of 95 in a chase: a hundred trillionth parts of it,
/// about, and less than a hundred thousandth for each wall.
pub open spec fn chase_margin(walls: nat) -> real {
    100real * slack(9025real) + slack(8000000real * (walls as real))
}

/// Whether the walls of a level stand firm, and an enemy that comes upon them always has a clear
/// direction.
pub open spec fn walls_hold(level: LevelView, players: Seq<Body>, damp: Double, k: int) -> bool {
    &&& forall|j: int| 0 <= j < level.walls.len() ==> stands(#[trigger] level.walls[j])
    &&& row_clear(steered(level.enemies[k].body, players, damp).walled().0, level.walls)
}

/// Walls that stand firm hold if none of their coordinates is next to zero, as in every new level.
pub proof fn law_walls_hold(level: LevelView, players: Seq<Body>, damp: Double, k: int)
    requires
        0 <= k < level.enemies.len(),
        moves(level.enemies[k].body),
        damp.magnitude() <= ONE,
        forall|j: int|
            0 <= j < level.walls.len() ==> {
                &&& stands(#[trigger] level.walls[j])
                &&& level.walls[j].pos.x.exponent() >= -300
                &&& level.walls[j].pos.y.exponent() >= -300
            },
    ensures
        walls_hold(level, players, damp, k),
{
    let start = level.enemies[k].body;
    lemma_steered(start, players, damp);
    lemma_walled(steered(start, players, damp));
    law_row_clear(steered(start, players, damp).walled().0, level.walls);
}

/// What a chase leaves of an enemy: it moves on, at 95 or slower but for rounding.
proof fn lemma_chased(level: LevelView, players: Seq<Body>, damp: Double, k: int)
    requires
        0 <= k < level.enemies.len(),
        level.enemies[k].alive,
        moves(level.enemies[k].body),
        damp.magnitude() <= ONE,
        level.walls.len() <= 10_000_000,
        walls_hold(level, players, damp, k),
    ensures
        level.chasing(players, damp)[k].alive,
        moves(level.chasing(players, damp)[k].body),
        speed_squared(level.chasing(players, damp)[k].body.vel) <= 9025real + chase_margin(
            level.walls.len(),
        ),
{
    let start = level.enemies[k].body;
    let steered = steered(start, players, damp);
    lemma_steered(start, players, damp);
    lemma_walled(steered);
    lemma_pressed_slow(steered.walled().0, level.walls, level.walls.len());
    lemma_pressed_free(steered.walled().0, level.walls, level.walls.len());
}

/// Meeting a row of bodies does not fix a body.
proof fn lemma_pressed_free(body: Body, row: Seq<Body>, n: nat)
    ensures
        pressed(body, row, n).is_static == body.is_static,
    decreases n,
{
    if n > 0 {
        lemma_pressed_free(body, row, (n - 1) as nat);
    }
}

/// The way to a target that is near enough to have a finite distance, at most about one long.
proof fn lemma_pull(dx: Double, dy: Double)
    requires
        square_norm(dx, dy).finite(),
        square_norm(dx, dy).gt(encoded(ONE)),
    ensures
        ({
            let pull = dx.over(square_norm(dx, dy).root()).times(encoded(ENEMY_ACCEL)).times(
                encoded(STEP),
            );
            &&& pull.finite()
            &&& pull.exponent() <= 800
        }),
{
    let sx = dx.times(dx);
    let sy = dy.times(dy);
    assert(dx.finite() && dy.finite() && sx.finite() && sy.finite()) by {
        reveal(Double::plus_spec);
        reveal(Double::times_spec);
    }
    lemma_square(dx);
    lemma_square(dy);
    lemma_direction(dx, sx, sy);
    let d = square_norm(dx, dy).root();
    lemma_over_range(dx, d);
    let n = dx.over(d);
    lemma_times_range(n, encoded(ENEMY_ACCEL));
    lemma_times_range(n.times(encoded(ENEMY_ACCEL)), encoded(STEP));
}

/// What chasing the players does to the place and the speed of an enemy.
proof fn lemma_steered(body: Body, players: Seq<Body>, damp: Double)
    requires
        has_place(body),
        body.vel.x.finite(),
        body.vel.y.finite(),
        damp.magnitude() <= ONE,
    ensures
        ({
            let after = steered(body, players, damp);
            &&& has_place(after)
            &&& after.vel.x.finite()
            &&& after.vel.y.finite()
            &&& speed_squared(after.vel) <= 9025real + 100real * slack(9025real)
        }),
{
    lemma2_to64();
    lemma2_to64_rest();
    let t = target(body.pos, players, players.len());
    lemma_target(body.pos, players, players.len());
    let dt = encoded(STEP);
    lemma_zero_times(dt);
    if t.square.finite() && t.square.gt(encoded(ONE)) {
        lemma_pull(t.dx, t.dy);
        law_plus_commutes(t.dx.times(t.dx), t.dy.times(t.dy));
        lemma_pull(t.dy, t.dx);
        let d = t.square.root();
        let pull = encoded(ENEMY_ACCEL);
        law_step_keeps_place(
            body,
            t.dx.over(d).times(pull),
            t.dy.over(d).times(pull),
            dt,
            damp,
        );
    } else {
        law_step_keeps_place(body, encoded(0), encoded(0), dt, damp);
    }
    let limit = encoded(ENEMY_SPEED);
    assert(limit.exponent() == -46 && limit.significand() == 0x17_C000_0000_0000);
    lemma_size_is(limit, 46, 95real);
    law_capped_speed(pursued(body, players, damp).vel, limit);
    assert(95real * 95real == 9025real);
}

/// The walls of the rink leave a body in a place, and do not make it faster.
proof fn lemma_walled(body: Body)
    requires
        has_place(body),
        body.vel.x.finite(),
        body.vel.y.finite(),
    ensures
        has_place(body.walled().0),
        body.walled().0.vel.x.finite(),
        body.walled().0.vel.y.finite(),
        speed_squared(body.walled().0.vel) <= speed_squared(body.vel),
{
    let after = body.walled().0;
    let pad = encoded(WALL_PAD);
    lemma_plus_range(pad, body.r);
    lemma_plus_range(encoded(ARENA_W), pad.negate());
    lemma_plus_range(encoded(ARENA_H), pad.negate());
    lemma_plus_range(encoded(ARENA_W).minus(pad), body.r.negate());
    lemma_plus_range(encoded(ARENA_H).minus(pad), body.r.negate());
    law_bounce_slows(body);
    lemma_size_ordered(after.vel.x, body.vel.x);
    lemma_size_ordered(after.vel.y, body.vel.y);
    lemma_size_positive(after.vel.x);
    lemma_size_positive(after.vel.y);
    lemma_square_ordered(size(after.vel.x), size(body.vel.x));
    lemma_square_ordered(size(after.vel.y), size(body.vel.y));
}

// ---------------------------------------------------------------------------
// Enemies that nobody bumps into
// ---------------------------------------------------------------------------

/// Enemies and players as they are when enemy `k` is about to meet player `i`.
pub open spec fn clash_at(start: Clash, k: int, i: int) -> Clash {
    start.meet_all(k).meet_players(k, i)
}

/// Whether body `k` touches none of those that it meets in a crowd.
pub open spec fn untouched(bodies: Seq<Body>, active: Seq<bool>, k: int) -> bool {
    forall|i: int, j: int|
        0 <= i < j < bodies.len() && active[i] && active[j] && (i == k || j == k) ==> {
            let c = #[trigger] crowd_at(bodies, active, i, j);
            !touching(c.bodies[i], c.bodies[j])
        }
}

/// Whether enemy `k` touches none of the enemies and players that it meets in a step, whatever
/// happens among the others.
pub open spec fn left_alone(level: LevelView, players: Seq<Body>, damp: Double, k: int) -> bool {
    let chasing = level.chasing(players, damp);
    &&& untouched(enemy_bodies(chasing), enemies_alive(chasing), k)
    &&& forall|i: int|
        0 <= i < players.len() ==> {
            let c = #[trigger] clash_at(level.before_clash(players, damp), k, i);
            !touching(c.players[i], c.enemies[k].body)
        }
}

/// Enemies are slow: after a step in which nobody bumped into it, an enemy moves at 95 or slower,
/// but for rounding. With up to a thousand walls its speed is at most 95.0001. Players reach
/// several times that speed.
pub proof fn law_enemies_are_slow(level: LevelView, players: Seq<Body>, damp: Double, k: int)
    requires
        0 <= k < level.enemies.len(),
        level.enemies[k].alive,
        moves(level.enemies[k].body),
        damp.magnitude() <= ONE,
        level.walls.len() <= 10_000_000,
        walls_hold(level, players, damp, k),
        left_alone(level, players, damp, k),
    ensures
        ({
            let body = level.stepped(players, damp).enemies[k].body;
            &&& moves(body)
            &&& speed_squared(body.vel) <= 95real * 95real + chase_margin(level.walls.len())
            &&& level.walls.len() <= 1000 ==> speed_squared(body.vel) <= (950001real / 10000real)
                * (950001real / 10000real)
        }),
{
    let chasing = level.chasing(players, damp);
    let start = level.before_clash(players, damp);
    lemma_chased(level, players, damp, k);
    lemma_untouched_all(
        enemy_bodies(chasing),
        enemies_alive(chasing),
        k,
        level.enemies.len() as int,
    );
    assert(start.enemies[k].body == chasing[k].body);
    lemma_alone(start, k, level.enemies.len() as int);
    assert(950001real * 950001real == 902501900001real);
    assert((950001real / 10000real) * (950001real / 10000real) == 902501900001real / 100000000real)
        by (nonlinear_arith);
    assert(95real * 95real == 9025real);
}

pub(crate) proof fn lemma_untouched_all(bodies: Seq<Body>, active: Seq<bool>, k: int, i: int)
    requires
        bodies.len() == active.len(),
        0 <= k < bodies.len(),
        untouched(bodies, active, k),
        0 <= i <= bodies.len(),
    ensures
        ({
            let after = Crowd { bodies, hits: Seq::empty() }.meet_all(active, i).bodies;
            after.len() == bodies.len() && after[k] == bodies[k]
        }),
    decreases i,
{
    if i > 0 {
        lemma_untouched_all(bodies, active, k, i - 1);
        lemma_untouched_row(bodies, active, k, i - 1, active.len() as int);
    }
}

proof fn lemma_untouched_row(bodies: Seq<Body>, active: Seq<bool>, k: int, i: int, j: int)
    requires
        bodies.len() == active.len(),
        0 <= k < bodies.len(),
        untouched(bodies, active, k),
        0 <= i < bodies.len(),
        0 <= j <= bodies.len(),
        ({
            let start = Crowd { bodies, hits: Seq::empty() }.meet_all(active, i).bodies;
            start.len() == bodies.len() && start[k] == bodies[k]
        }),
    ensures
        crowd_at(bodies, active, i, j).bodies.len() == bodies.len(),
        crowd_at(bodies, active, i, j).bodies[k] == bodies[k],
    decreases j,
{
    if j > i + 1 {
        lemma_untouched_row(bodies, active, k, i, j - 1);
        let c = crowd_at(bodies, active, i, j - 1);
        assert(crowd_at(bodies, active, i, j) == c.meet(active, i, j - 1));
    }
}

/// Enemy `k` stays as it is while others meet players, and while it meets some itself that it does
/// not touch.
pub(crate) proof fn lemma_alone(start: Clash, k: int, n: int)
    requires
        0 <= k < start.enemies.len(),
        n <= start.enemies.len(),
        forall|i: int|
            0 <= i < start.players.len() ==> {
                let c = #[trigger] clash_at(start, k, i);
                !touching(c.players[i], c.enemies[k].body)
            },
    ensures
        start.meet_all(n).enemies.len() == start.enemies.len(),
        start.meet_all(n).players.len() == start.players.len(),
        start.meet_all(n).enemies[k].body == start.enemies[k].body,
    decreases n,
{
    if n > 0 {
        lemma_alone(start, k, n - 1);
        let c = start.meet_all(n - 1);
        if c.enemies[n - 1].alive {
            lemma_alone_row(start, k, n - 1, c.players.len() as int);
        }
    }
}

proof fn lemma_alone_row(start: Clash, k: int, n: int, i: int)
    requires
        0 <= k < start.enemies.len(),
        0 <= n < start.enemies.len(),
        i <= start.players.len(),
        start.meet_all(n).enemies.len() == start.enemies.len(),
        start.meet_all(n).players.len() == start.players.len(),
        start.meet_all(n).enemies[k].body == start.enemies[k].body,
        forall|i: int|
            0 <= i < start.players.len() ==> {
                let c = #[trigger] clash_at(start, k, i);
                !touching(c.players[i], c.enemies[k].body)
            },
    ensures
        clash_at(start, n, i).enemies.len() == start.enemies.len(),
        clash_at(start, n, i).players.len() == start.players.len(),
        clash_at(start, n, i).enemies[k].body == start.enemies[k].body,
    decreases i,
{
    if i > 0 {
        lemma_alone_row(start, k, n, i - 1);
        let c = clash_at(start, n, i - 1);
        assert(clash_at(start, n, i) == c.meet(n, i - 1));
    }
}

/// Whether no enemy that is alive touches another one or a player.
pub open spec fn enemies_apart(enemies: Seq<Enemy>, players: Seq<Body>) -> bool {
    all_apart(enemy_bodies(enemies), enemies_alive(enemies)) && players_apart(enemies, players)
}

/// Whether no enemy that is alive touches a player.
pub open spec fn players_apart(enemies: Seq<Enemy>, players: Seq<Body>) -> bool {
    forall|k: int, i: int|
        0 <= k < enemies.len() && 0 <= i < players.len() && (#[trigger] enemies[k]).alive
            ==> !touching(#[trigger] players[i], enemies[k].body)
}

/// Where no enemy that is alive touches another one or a player after the chase, everybody is left
/// alone, and the step ends with everybody where the chase brought them.
pub proof fn law_apart_left_alone(level: LevelView, players: Seq<Body>, damp: Double, k: int)
    requires
        0 <= k < level.enemies.len(),
        level.enemies[k].alive,
        enemies_apart(level.chasing(players, damp), players),
    ensures
        left_alone(level, players, damp, k),
        level.stepped(players, damp).enemies == level.chasing(players, damp),
{
    let chasing = level.chasing(players, damp);
    let bodies = enemy_bodies(chasing);
    let active = enemies_alive(chasing);
    let start = level.before_clash(players, damp);
    law_apart_stays(bodies, active);
    assert(jostled(chasing) =~= chasing);
    assert forall|i: int, j: int|
        0 <= i < j < bodies.len() && active[i] && active[j] && (i == k || j == k) implies {
        let c = #[trigger] crowd_at(bodies, active, i, j);
        !touching(c.bodies[i], c.bodies[j])
    } by {
        lemma_meet_all_apart(Crowd { bodies, hits: Seq::empty() }, active, i);
        lemma_meet_row_apart(
            Crowd { bodies, hits: Seq::empty() }.meet_all(active, i),
            active,
            i,
            j,
        );
    }
    assert forall|i: int| 0 <= i < players.len() implies {
        let c = #[trigger] clash_at(start, k, i);
        !touching(c.players[i], c.enemies[k].body)
    } by {
        lemma_clash_apart(start, k);
        lemma_meeting_apart(start.meet_all(k), k, i);
    }
    lemma_clash_apart(start, level.enemies.len() as int);
}

/// Meeting players that no enemy touches leaves everybody as they are.
proof fn lemma_clash_apart(start: Clash, k: int)
    requires
        k <= start.enemies.len(),
        players_apart(start.enemies, start.players),
    ensures
        start.meet_all(k).enemies == start.enemies,
        start.meet_all(k).players == start.players,
    decreases k,
{
    if k > 0 {
        lemma_clash_apart(start, k - 1);
        let c = start.meet_all(k - 1);
        if c.enemies[k - 1].alive {
            lemma_meeting_apart(c, k - 1, c.players.len() as int);
        }
    }
}

proof fn lemma_meeting_apart(start: Clash, k: int, n: int)
    requires
        0 <= k < start.enemies.len(),
        start.enemies[k].alive,
        n <= start.players.len(),
        players_apart(start.enemies, start.players),
    ensures
        start.meet_players(k, n).enemies == start.enemies,
        start.meet_players(k, n).players == start.players,
    decreases n,
{
    if n > 0 {
        lemma_meeting_apart(start, k, n - 1);
        let c = start.meet_players(k, n - 1);
        assert(!touching(c.players[n - 1], c.enemies[k].body));
        assert(c.meet(k, n - 1).enemies =~= c.enemies);
        assert(c.meet(k, n - 1).players =~= c.players);
    }
}

// ---------------------------------------------------------------------------
// Enemies that bump into each other and into players
// ---------------------------------------------------------------------------

/// How many of the first `n` enemies are alive.
pub open spec fn living(enemies: Seq<Enemy>, n: nat) -> nat
    decreases n,
{
    if n == 0 {
        0
    } else {
        living(enemies, (n - 1) as nat) + if enemies[n - 1].alive {
            1nat
        } else {
            0nat
        }
    }
}

/// Whether all enemies that are alive move, and the chase gives each a clear direction wherever it
/// touches a wall or another enemy.
pub open spec fn chase_clear(level: LevelView, players: Seq<Body>, damp: Double) -> bool {
    let chasing = level.chasing(players, damp);
    &&& forall|k: int|
        0 <= k < level.enemies.len() && (#[trigger] level.enemies[k]).alive ==> {
            &&& moves(level.enemies[k].body)
            &&& walls_hold(level, players, damp, k)
        }
    &&& pairs_clear(enemy_bodies(chasing), enemies_alive(chasing))
}

/// The most that the squares of the speeds of all living enemies add up to after a chase in which
/// they bumped into each other: that of 95 for each, but for rounding.
pub open spec fn swarm_limit(level: LevelView) -> real {
    let n = level.enemies.len();
    (living(level.enemies, n) as real) * (9025real + chase_margin(level.walls.len()))
        + crowd_margin(n)
}

/// The sum of the exact squares of the speeds of those enemies that are alive in the level, at some
/// time of the step.
pub open spec fn swarm(level: LevelView, enemies: Seq<Enemy>) -> real {
    total(enemy_bodies(enemies), enemies_alive(level.enemies), level.enemies.len())
}

/// Enemies that bump into each other do not speed each other up as a whole: where no player touches
/// them, the squares of their speeds add up to 95 squared for each that is alive, but for rounding.
/// So none is faster than 95 times the square root of their number.
pub proof fn law_bumped_enemies_are_slow(level: LevelView, players: Seq<Body>, damp: Double, k: int)
    requires
        0 <= k < level.enemies.len(),
        level.enemies[k].alive,
        level.enemies.len() <= 1000,
        level.walls.len() <= 1000,
        damp.magnitude() <= ONE,
        chase_clear(level, players, damp),
        players_apart(jostled(level.chasing(players, damp)), players),
    ensures
        ({
            let after = level.stepped(players, damp).enemies;
            &&& moves(after[k].body)
            &&& speed_squared(after[k].body.vel) <= swarm(level, after)
            &&& swarm(level, after) <= swarm_limit(level)
        }),
{
    let start = level.before_clash(players, damp);
    lemma_swarm(level, players, damp);
    lemma_clash_apart(start, level.enemies.len() as int);
    assert(moves(enemy_bodies(start.enemies)[k]));
    lemma_one_of_total(enemy_bodies(start.enemies), enemies_alive(level.enemies), k);
}

/// The enemies after they bumped into each other.
proof fn lemma_swarm(level: LevelView, players: Seq<Body>, damp: Double)
    requires
        level.enemies.len() <= 1000,
        level.walls.len() <= 1000,
        damp.magnitude() <= ONE,
        chase_clear(level, players, damp),
    ensures
        ({
            let after = level.before_clash(players, damp).enemies;
            &&& after.len() == level.enemies.len()
            &&& enemies_alive(after) == enemies_alive(level.enemies)
            &&& all_move(enemy_bodies(after), enemies_alive(after))
            &&& swarm(level, after) <= swarm_limit(level)
            &&& swarm_limit(level) <= 10000000real
        }),
{
    let chasing = level.chasing(players, damp);
    let bodies = enemy_bodies(chasing);
    let active = enemies_alive(level.enemies);
    let n = level.enemies.len();
    assert(enemies_alive(chasing) =~= active);
    assert forall|k: int| 0 <= k < bodies.len() && active[k] implies moves(
        #[trigger] bodies[k],
    ) by {
        assert(level.enemies[k].alive);
        lemma_chased(level, players, damp, k);
    }
    lemma_chase_total(level, players, damp, n);
    lemma_limit(level);
    law_crowd_slows(bodies, active);
    let after = level.before_clash(players, damp).enemies;
    assert(enemy_bodies(after) =~= paired(bodies, active).bodies);
    assert(enemies_alive(after) =~= active);
}

proof fn lemma_limit(level: LevelView)
    requires
        level.enemies.len() <= 1000,
        level.walls.len() <= 1000,
    ensures
        swarm_limit(level) <= 10000000real,
{
    let n = level.enemies.len();
    let count = living(level.enemies, n) as real;
    let each = 9025real + chase_margin(level.walls.len());
    lemma_living(level.enemies, n);
    lemma_scaled_ordered(count, 1000real, each);
    assert(n * n <= 1000000) by (nonlinear_arith)
        requires
            n <= 1000,
    ;
}

proof fn lemma_living(enemies: Seq<Enemy>, n: nat)
    ensures
        living(enemies, n) <= n,
    decreases n,
{
    if n > 0 {
        lemma_living(enemies, (n - 1) as nat);
    }
}

/// The speeds of all enemies after the chase.
proof fn lemma_chase_total(level: LevelView, players: Seq<Body>, damp: Double, n: nat)
    requires
        n <= level.enemies.len(),
        level.walls.len() <= 1000,
        damp.magnitude() <= ONE,
        chase_clear(level, players, damp),
    ensures
        total(
            enemy_bodies(level.chasing(players, damp)),
            enemies_alive(level.enemies),
            n,
        ) <= (living(level.enemies, n) as real) * (9025real + chase_margin(level.walls.len())),
    decreases n,
{
    let each = 9025real + chase_margin(level.walls.len());
    if n > 0 {
        let m = (n - 1) as nat;
        lemma_chase_total(level, players, damp, m);
        if level.enemies[n - 1].alive {
            lemma_chased(level, players, damp, n - 1);
            lemma_distributes(living(level.enemies, m) as real, 1real, each);
            assert(1real * each == each);
        }
    } else {
        assert(0real * each == 0real);
    }
}

/// Whether an enemy that touches a player always has a clear direction to them.
pub open spec fn clash_clear(start: Clash) -> bool {
    forall|k: int, i: int|
        0 <= k < start.enemies.len() && 0 <= i < start.players.len() && start.enemies[k].alive ==> {
            let c = #[trigger] clash_at(start, k, i);
            clear_direction(c.players[i], c.enemies[k].body)
        }
}

/// Everybody takes part.
pub open spec fn everybody(n: nat) -> Seq<bool> {
    Seq::new(n, |i: int| true)
}

/// The sum of the exact squares of the speeds of players.
pub open spec fn party(players: Seq<Body>) -> real {
    total(players, everybody(players.len()), players.len())
}

/// A step makes enemies and players together no faster than the chase made the enemies and than the
/// players were, but for rounding, whoever bumps into whom. So an enemy that is rammed gets no more
/// speed than the players bring.
pub proof fn law_clash_slows(level: LevelView, players: Seq<Body>, damp: Double)
    requires
        level.enemies.len() <= 1000,
        level.walls.len() <= 1000,
        players.len() <= 1000,
        damp.magnitude() <= ONE,
        chase_clear(level, players, damp),
        all_move(players, everybody(players.len())),
        clash_clear(level.before_clash(players, damp)),
        party(players) <= 5000000real,
    ensures
        ({
            let after = level.clash(players, damp);
            let n = level.enemies.len();
            &&& after.players.len() == players.len()
            &&& all_move(enemy_bodies(after.enemies), enemies_alive(level.enemies))
            &&& all_move(after.players, everybody(players.len()))
            &&& swarm(level, after.enemies) + party(after.players) <= swarm_limit(level) + party(
                players,
            ) + bump_margin() * ((n * players.len()) as real)
        }),
{
    let start = level.before_clash(players, damp);
    let n = level.enemies.len();
    let m = players.len();
    lemma_swarm(level, players, damp);
    assert(n * m <= 1000000) by (nonlinear_arith)
        requires
            n <= 1000,
            m <= 1000,
    ;
    lemma_clash_all(start, n as int);
}

/// The speeds of enemies and players together.
spec fn together(start: Clash, c: Clash) -> real {
    total(enemy_bodies(c.enemies), enemies_alive(start.enemies), start.enemies.len()) + total(
        c.players,
        everybody(start.players.len()),
        start.players.len(),
    )
}

/// Whether everybody who takes part still moves, and the enemies from `k` on are as they were.
spec fn keeps_moving(start: Clash, c: Clash, k: int) -> bool {
    &&& c.enemies.len() == start.enemies.len()
    &&& c.players.len() == start.players.len()
    &&& all_move(enemy_bodies(c.enemies), enemies_alive(start.enemies))
    &&& all_move(c.players, everybody(start.players.len()))
    &&& forall|j: int| k <= j < start.enemies.len() ==> #[trigger] c.enemies[j] == start.enemies[j]
}

proof fn lemma_clash_all(start: Clash, k: int)
    requires
        0 <= k <= start.enemies.len(),
        keeps_moving(start, start, 0),
        clash_clear(start),
        together(start, start) + bump_margin() * ((start.enemies.len()
            * start.players.len()) as real) <= 16000000real,
    ensures
        keeps_moving(start, start.meet_all(k), k),
        together(start, start.meet_all(k)) <= together(start, start) + bump_margin() * ((k
            * start.players.len()) as real),
    decreases k,
{
    let m = start.players.len() as int;
    if k > 0 {
        lemma_clash_all(start, k - 1);
        lemma_mul_is_distributive_sub_other_way(m, k, 1);
        lemma_margins(((k - 1) * m) as real, m as real, (k * m) as real);
        if start.enemies[k - 1].alive {
            lemma_clash_row(start, k - 1, m);
        } else {
            lemma_margins(0real, 0real, m as real);
            assert(bump_margin() * 0real == 0real);
        }
    } else {
        assert(0 * m == 0);
        assert(bump_margin() * 0real == 0real);
    }
}

proof fn lemma_clash_row(start: Clash, k: int, i: int)
    requires
        0 <= k < start.enemies.len(),
        0 <= i <= start.players.len(),
        start.enemies[k].alive,
        keeps_moving(start, start.meet_all(k), k),
        clash_clear(start),
        together(start, start) + bump_margin() * ((start.enemies.len()
            * start.players.len()) as real) <= 16000000real,
        together(start, start.meet_all(k)) <= together(start, start) + bump_margin() * ((k
            * start.players.len()) as real),
    ensures
        keeps_moving(start, clash_at(start, k, i), k + 1),
        together(start, clash_at(start, k, i)) <= together(start, start.meet_all(k))
            + bump_margin() * (i as real),
    decreases i,
{
    let n = start.enemies.len();
    let m = start.players.len();
    if i > 0 {
        lemma_clash_row(start, k, i - 1);
        let c = clash_at(start, k, i - 1);
        let after = c.meet(k, i - 1);
        assert(clash_at(start, k, i) == after);
        let bodies = enemy_bodies(c.enemies);
        let alive = enemies_alive(start.enemies);
        let all = everybody(m);
        // Fewer meetings than pairs so far.
        lemma_mul_inequality(k + 1, n as int, m as int);
        lemma_mul_is_distributive_add_other_way(m as int, k, 1);
        lemma_margins((k * m) as real, (i - 1) as real, (n * m) as real);
        assert(moves(bodies[k]) && moves(c.players[i - 1]));
        lemma_one_of_total(bodies, alive, k);
        lemma_one_of_total(c.players, all, i - 1);
        law_exchange_slows(c.players[i - 1], bodies[k]);
        let x = collided(c.players[i - 1], bodies[k]);
        assert(enemy_bodies(after.enemies) =~= bodies.update(k, x.b));
        assert(after.players =~= c.players.update(i - 1, x.a));
        lemma_total_update(bodies, alive, n, k, x.b);
        lemma_total_update(c.players, all, m, i - 1, x.a);
        lemma_margins((i - 1) as real, 1real, i as real);
        assert(bump_margin() * 1real == bump_margin());
    } else {
        assert(bump_margin() * 0real == 0real);
    }
}

} // verus!
