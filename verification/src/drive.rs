//! How players move: they go where they steer, unless something is in their way.

use crate::bounce::{
    law_times_close, lemma_close_within, lemma_negated, lemma_product_within, lemma_root_within,
    lemma_square_positive, real_value, within,
};
use crate::chase::{lemma_untouched_all, untouched};
use crate::double::{encoded, law_plus_commutes, Double};
use crate::exact::{
    lemma_commutes, lemma_distributes, lemma_regrouped, lemma_scaled_ordered, lemma_size_is,
    lemma_size_positive, lemma_square_ordered, lemma_times_range, size,
};
use crate::level::{Clash, LevelView};
use crate::motion::{
    cuts, law_step_in_numbers, lemma_cuts_moved, lemma_moderate_exponent, lemma_step,
};
use crate::physics::{
    collided, law_inside_untouched, law_player_bounds, pressed, square_norm, touching, Body, ACCEL,
    ARENA_H, ARENA_W, PLAYER_R, STEP,
};
use crate::room::{bodies_of, Phase, Player, PlayerInput, RoomView};
use crate::space::{flipped, law_touching_is_overlap, lemma_number_order};
use vstd::arithmetic::power2::*;
use vstd::prelude::*;

verus! {

/// Whether a body went on for a sixtieth of a second under a push, in real numbers: the push is
/// added to its velocity, the speed is cut down to 460 by a factor, friction multiplies it, and
/// the body moves on with the velocity that it then has.
pub open spec fn went_on(
    before: Body,
    push_x: real,
    push_y: real,
    damp: real,
    after: Body,
    factor: real,
) -> bool {
    let ux = real_value(before.vel.x) + push_x;
    let uy = real_value(before.vel.y) + push_y;
    let tiny = 1real / 100000real;
    &&& after.pos.x.finite() && after.pos.y.finite()
    &&& after.vel.x.finite() && after.vel.y.finite()
    &&& cuts(factor, ux * ux + uy * uy, 460real, 1real / 50real)
    &&& within(real_value(after.vel.x) - (factor * ux) * damp, tiny)
    &&& within(real_value(after.vel.y) - (factor * uy) * damp, tiny)
    &&& within(
        real_value(after.pos.x) - (real_value(before.pos.x) + real_value(after.vel.x) / 60real),
        tiny,
    )
    &&& within(
        real_value(after.pos.y) - (real_value(before.pos.y) + real_value(after.vel.y) / 60real),
        tiny,
    )
}

/// Whether a body is where things happen, and not faster than anything there gets.
pub open spec fn ordinary(body: Body) -> bool {
    &&& body.pos.x.finite() && body.pos.y.finite()
    &&& body.vel.x.finite() && body.vel.y.finite()
    &&& within(real_value(body.pos.x), 2000real)
    &&& within(real_value(body.pos.y), 2000real)
    &&& within(real_value(body.vel.x), 2000real)
    &&& within(real_value(body.vel.y), 2000real)
}

/// Whether a player can be told where to go: an ordinary body of player size, and input of at most
/// 16 in each coordinate.
pub open spec fn steerable(p: Player) -> bool {
    &&& ordinary(p.body)
    &&& p.body.r == encoded(PLAYER_R)
    &&& p.input.x.finite() && p.input.y.finite()
    &&& within(real_value(p.input.x), 16real)
    &&& within(real_value(p.input.y), 16real)
}

/// What input does: it pushes by 27.5 times itself, each coordinate of the velocity by the same
/// coordinate of the input.
pub proof fn law_input_pushes(p: Player, damp: Double) -> (factor: real)
    requires
        steerable(p),
        damp.finite(),
        within(real_value(damp), 1real),
    ensures
        went_on(
            p.body,
            real_value(p.input.x) * 275real / 10real,
            real_value(p.input.y) * 275real / 10real,
            real_value(damp),
            p.driven(damp).body,
            factor,
        ),
        p.driven(damp).body.r == p.body.r,
        p.driven(damp).body.is_static == p.body.is_static,
{
    let pull = encoded(ACCEL);
    let ax = p.input.x.times(pull);
    let ay = p.input.y.times(pull);
    let step = encoded(STEP);
    let t = real_value(step);
    lemma_step();
    lemma_input_push(p.input.x);
    lemma_input_push(p.input.y);
    let factor = law_step_in_numbers(p.body, ax, ay, step, damp);
    let after = p.driven(damp).body;
    let d = real_value(damp);
    let vx = real_value(p.body.vel.x);
    let vy = real_value(p.body.vel.y);
    let ix = real_value(p.input.x) * 275real / 10real;
    let iy = real_value(p.input.y) * 275real / 10real;
    let ux = vx + real_value(ax) * t;
    let uy = vy + real_value(ay) * t;
    lemma_cuts_moved(factor, ux, uy, vx + ix, vy + iy, 460real);
    lemma_factored(factor, ux, vx + ix, d);
    lemma_factored(factor, uy, vy + iy, d);
    lemma_sixtieth(after.vel.x, factor, ux, d, t);
    lemma_sixtieth(after.vel.y, factor, uy, d, t);
    factor
}

/// The push of one coordinate of an input.
proof fn lemma_input_push(input: Double)
    requires
        input.finite(),
        within(real_value(input), 16real),
    ensures
        ({
            let a = input.times(encoded(ACCEL));
            let t = real_value(encoded(STEP));
            &&& a.finite()
            &&& within(real_value(a), 50000real)
            &&& within(real_value(a) * t, 1000real)
            &&& within(
                real_value(a) * t - real_value(input) * 275real / 10real,
                1real / 10000000real,
            )
        }),
{
    lemma2_to64_rest();
    lemma_step();
    let pull = encoded(ACCEL);
    assert(pull.exponent() == -42 && pull.significand() == 0x19_C800_0000_0000);
    lemma_size_is(pull, 42, 1650real);
    lemma_moderate_exponent(input, 16real);
    lemma_times_range(input, pull);
    law_times_close(input, pull);
    let a = input.times(pull);
    let v = real_value(input) * 1650real;
    lemma_close_within(a, v, 26400real);
    let t = real_value(encoded(STEP));
    let g = t - 1real / 60real;
    let w = real_value(a);
    lemma_distributes(1real / 60real, g, w);
    lemma_commutes(t, w);
    lemma_product_within(g, w, 1real / 1000000000000real, 26401real);
    assert((1real / 60real) * w == w / 60real);
}

/// A factor and friction keep a small difference small.
pub(crate) proof fn lemma_factored(factor: real, u: real, w: real, d: real)
    requires
        0real <= factor <= 1real,
        within(d, 1real),
        within(u - w, 1real / 1000000real),
    ensures
        within((factor * u) * d - (factor * w) * d, 1real / 1000000real),
{
    let g = u - w;
    lemma_distributes(w, g, factor);
    lemma_commutes(factor, u);
    lemma_commutes(factor, w);
    lemma_product_within(g, factor, 1real / 1000000real, 1real);
    lemma_distributes(factor * w, g * factor, d);
    lemma_product_within(g * factor, d, 1real / 1000000real, 1real);
}

/// A velocity for the length of a step is a sixtieth of it.
pub(crate) proof fn lemma_sixtieth(v: Double, factor: real, u: real, d: real, t: real)
    requires
        0real <= factor <= 1real,
        within(d, 1real),
        within(u, 3500real),
        within(real_value(v) - (factor * u) * d, 1real / 1000000real),
        within(t - 1real / 60real, 1real / 1000000000000real),
    ensures
        within(real_value(v), 3501real),
        within(real_value(v) * t - real_value(v) / 60real, 1real / 100000000real),
{
    lemma_product_within(factor, u, 1real, 3500real);
    lemma_product_within(factor * u, d, 3500real, 1real);
    let w = real_value(v);
    let g = t - 1real / 60real;
    lemma_distributes(1real / 60real, g, w);
    lemma_commutes(t, w);
    lemma_product_within(g, w, 1real / 1000000000000real, 3501real);
    assert((1real / 60real) * w == w / 60real);
}

// ---------------------------------------------------------------------------
// Steering in a room
// ---------------------------------------------------------------------------

/// Whether nothing is in a player's way in a tick: no pillar, nobody whom the player meets, and no
/// wall of the rink.
pub open spec fn unhindered(room: RoomView, damp: Double, i: int) -> bool {
    let driven = room.players.map_values(|p: Player| p.driven(damp));
    let past = driven.map_values(|p: Player| p.pressed(room.pillars));
    let body = driven[i].body;
    &&& forall|j: int| 0 <= j < room.pillars.len() ==> !touching(body, #[trigger] room.pillars[j])
    &&& untouched(bodies_of(past), Seq::new(room.players.len(), |k: int| true), i)
    &&& 50real <= real_value(body.pos.x) <= 1750real
    &&& 50real <= real_value(body.pos.y) <= 1150real
}

/// Whether no enemy is about: no campaign is being played, or all enemies of the level are cleared.
pub open spec fn peaceful(room: RoomView) -> bool {
    room.phase != Phase::Playing || forall|k: int|
        0 <= k < room.level->0.enemies.len() ==> !(#[trigger] room.level->0.enemies[k]).alive
}

/// Players go where they steer. Where nothing is in the way, a tick pushes a player by 27.5 times
/// the input, to the right for a positive first coordinate and down for a positive second one; it
/// cuts the speed to 460, slows it by friction and moves the player on by a sixtieth of it.
pub proof fn law_players_go_where_they_steer(room: RoomView, damp: Double, i: int) -> (factor: real)
    requires
        room.wf(),
        0 <= i < room.players.len(),
        steerable(room.players[i]),
        damp.finite(),
        within(real_value(damp), 1real),
        unhindered(room, damp, i),
        peaceful(room),
    ensures
        went_on(
            room.players[i].body,
            real_value(room.players[i].input.x) * 275real / 10real,
            real_value(room.players[i].input.y) * 275real / 10real,
            real_value(damp),
            room.ticked(damp).room.players[i].body,
            factor,
        ),
{
    reveal(RoomView::ticked);
    let p = room.players[i];
    let factor = law_input_pushes(p, damp);
    lemma_tick_unhindered(room, damp, i);
    factor
}

/// Before enemies move, a tick only drives a player whom nothing hinders.
pub(crate) proof fn lemma_moved_unhindered(room: RoomView, damp: Double, i: int)
    requires
        0 <= i < room.players.len(),
        steerable(room.players[i]),
        damp.finite(),
        within(real_value(damp), 1real),
        unhindered(room, damp, i),
    ensures
        ({
            let next = RoomView { tick: ((room.tick + 1) % 0x1_0000_0000) as u32, ..room };
            let moved = next.moved(damp).room.players;
            &&& moved.len() == room.players.len()
            &&& moved[i].body == room.players[i].driven(damp).body
        }),
{
    let count = room.players.len();
    let driven = room.players.map_values(|p: Player| p.driven(damp));
    let past = driven.map_values(|p: Player| p.pressed(room.pillars));
    let all = Seq::new(count, |k: int| true);
    let body = driven[i].body;
    lemma_passed(body, room.pillars, room.pillars.len());
    assert(bodies_of(past)[i] == body);
    lemma_untouched_all(bodies_of(past), all, i, count as int);
    let factor = law_input_pushes(room.players[i], damp);
    lemma_player_inside(body);
    law_inside_untouched(body);
}

/// A tick only drives a player whom nothing hinders.
proof fn lemma_tick_unhindered(room: RoomView, damp: Double, i: int)
    requires
        room.wf(),
        0 <= i < room.players.len(),
        steerable(room.players[i]),
        damp.finite(),
        within(real_value(damp), 1real),
        unhindered(room, damp, i),
        peaceful(room),
    ensures
        room.ticked(damp).room.players[i].body == room.players[i].driven(damp).body,
{
    reveal(RoomView::ticked);
    lemma_moved_unhindered(room, damp, i);
    if room.phase == Phase::Playing {
        let next = RoomView { tick: ((room.tick + 1) % 0x1_0000_0000) as u32, ..room };
        let moved = next.moved(damp).room;
        let level = room.level->0;
        lemma_peace(level, bodies_of(moved.players), damp);
    }
}

/// Cleared enemies leave players alone.
pub(crate) proof fn lemma_peace(level: LevelView, players: Seq<Body>, damp: Double)
    requires
        forall|k: int| 0 <= k < level.enemies.len() ==> !(#[trigger] level.enemies[k]).alive,
    ensures
        level.clash(players, damp).players == players,
{
    let start = level.before_clash(players, damp);
    assert forall|k: int| 0 <= k < start.enemies.len() implies !(
    #[trigger] start.enemies[k]).alive by {
        assert(!level.enemies[k].alive);
    }
    lemma_no_clash(start, level.enemies.len() as int);
}

proof fn lemma_no_clash(start: Clash, n: int)
    requires
        n <= start.enemies.len(),
        forall|k: int| 0 <= k < start.enemies.len() ==> !(#[trigger] start.enemies[k]).alive,
    ensures
        start.meet_all(n) == start,
    decreases n,
{
    if n > 0 {
        lemma_no_clash(start, n - 1);
        assert(!start.enemies[n - 1].alive);
    }
}

/// Who touches none of a row of bodies passes them all.
pub(crate) proof fn lemma_passed(body: Body, row: Seq<Body>, n: nat)
    requires
        n <= row.len(),
        forall|j: int| 0 <= j < row.len() ==> !touching(body, #[trigger] row[j]),
    ensures
        pressed(body, row, n) == body,
    decreases n,
{
    if n > 0 {
        lemma_passed(body, row, (n - 1) as nat);
        assert(!touching(body, row[n - 1]));
    }
}

/// A player whose place is between the walls is not pushed by them.
pub(crate) proof fn lemma_player_inside(body: Body)
    requires
        body.r == encoded(PLAYER_R),
        body.pos.x.finite(),
        body.pos.y.finite(),
        50real <= real_value(body.pos.x) <= 1750real,
        50real <= real_value(body.pos.y) <= 1150real,
    ensures
        !body.pos.x.lt(body.low_bound()),
        !body.pos.y.lt(body.low_bound()),
        !body.pos.x.gt(body.high_bound(encoded(ARENA_W))),
        !body.pos.y.gt(body.high_bound(encoded(ARENA_H))),
{
    lemma2_to64_rest();
    law_player_bounds(body);
    let low = encoded(0x4049_0000_0000_0000);
    let right = encoded(0x409B_5800_0000_0000);
    let bottom = encoded(0x4091_F800_0000_0000);
    assert(low.exponent() == -47 && low.significand() == 0x19_0000_0000_0000);
    assert(right.exponent() == -42 && right.significand() == 0x1B_5800_0000_0000);
    assert(bottom.exponent() == -42 && bottom.significand() == 0x11_F800_0000_0000);
    lemma_size_is(low, 47, 50real);
    lemma_size_is(right, 42, 1750real);
    lemma_size_is(bottom, 42, 1150real);
    lemma_number_order(body.pos.x, low);
    lemma_number_order(body.pos.y, low);
    lemma_number_order(right, body.pos.x);
    lemma_number_order(bottom, body.pos.y);
}

/// Whether a player is far from an obstacle: in one of the coordinates the centres are 20 further
/// apart than the radii together.
pub open spec fn far_from(p: Body, b: Body) -> bool {
    let reach = 42real + size(b.r);
    let dx = real_value(b.pos.x) - real_value(p.pos.x);
    let dy = real_value(b.pos.y) - real_value(p.pos.y);
    dx >= reach || dx <= -reach || dy >= reach || dy <= -reach
}

/// A player who is alone in a room, well away from pillars and walls, goes where the input says.
pub proof fn law_lone_player_goes(room: RoomView, damp: Double) -> (factor: real)
    requires
        room.wf(),
        peaceful(room),
        room.players.len() == 1,
        steerable(room.players[0]),
        damp.finite(),
        within(real_value(damp), 1real),
        70real <= real_value(room.players[0].body.pos.x) <= 1730real,
        70real <= real_value(room.players[0].body.pos.y) <= 1130real,
        forall|j: int|
            0 <= j < room.pillars.len() ==> {
                let b = #[trigger] room.pillars[j];
                &&& b.pos.x.finite() && b.pos.y.finite() && b.r.finite() && !b.r.negative()
                &&& within(real_value(b.pos.x), 10000real)
                &&& within(real_value(b.pos.y), 10000real)
                &&& size(b.r) <= 1000real
                &&& far_from(room.players[0].body, b)
            },
    ensures
        went_on(
            room.players[0].body,
            real_value(room.players[0].input.x) * 275real / 10real,
            real_value(room.players[0].input.y) * 275real / 10real,
            real_value(damp),
            room.ticked(damp).room.players[0].body,
            factor,
        ),
{
    let p = room.players[0];
    let f = law_input_pushes(p, damp);
    let body = p.driven(damp).body;
    lemma_short_way(
        p.body,
        real_value(p.input.x) * 275real / 10real,
        real_value(p.input.y) * 275real / 10real,
        real_value(damp),
        body,
        f,
    );
    let driven = room.players.map_values(|p: Player| p.driven(damp));
    assert(driven[0].body == body);
    assert forall|j: int| 0 <= j < room.pillars.len() implies !touching(
        body,
        #[trigger] room.pillars[j],
    ) by {
        let b = room.pillars[j];
        assert(far_from(p.body, b));
        lemma_still_apart(body, p.body, b);
    }
    law_players_go_where_they_steer(room, damp, 0)
}

/// In a sixtieth of a second nobody gets further than 8.
proof fn lemma_short_way(
    before: Body,
    push_x: real,
    push_y: real,
    damp: real,
    after: Body,
    factor: real,
)
    requires
        went_on(before, push_x, push_y, damp, after, factor),
        within(damp, 1real),
    ensures
        within(real_value(after.pos.x) - real_value(before.pos.x), 8real),
        within(real_value(after.pos.y) - real_value(before.pos.y), 8real),
        within(real_value(after.vel.x), 462real),
        within(real_value(after.vel.y), 462real),
{
    let ux = real_value(before.vel.x) + push_x;
    let uy = real_value(before.vel.y) + push_y;
    lemma_cut_bound(factor, ux, uy, 460real);
    lemma_product_within(factor * ux, damp, 461real, 1real);
    lemma_product_within(factor * uy, damp, 461real, 1real);
}

/// A speed that was cut is at most the limit and a little.
pub(crate) proof fn lemma_cut_bound(factor: real, x: real, y: real, limit: real)
    requires
        cuts(factor, x * x + y * y, limit, 1real / 50real),
        1real <= limit,
    ensures
        within(factor * x, limit + 1real),
        within(factor * y, limit + 1real),
{
    let f2 = factor * factor;
    let w = x * x + y * y;
    lemma_square_ordered(factor, 1real);
    assert(1real * 1real == 1real);
    lemma_square_positive(x);
    lemma_square_positive(y);
    lemma_regrouped(factor, x, factor, x);
    lemma_regrouped(factor, y, factor, y);
    lemma_distributes(x * x, y * y, f2);
    lemma_commutes(f2, w);
    lemma_commutes(f2, x * x);
    lemma_commutes(f2, y * y);
    lemma_scaled_ordered(0real, x * x, f2);
    lemma_scaled_ordered(0real, y * y, f2);
    assert(0real * f2 == 0real);
    if factor == 1real {
        assert(w * 1real == w);
    }
    let top = limit + 1real;
    lemma_distributes(limit, 1real, top);
    lemma_commutes(limit, top);
    lemma_distributes(limit, 1real, limit);
    assert(1real * top == top && 1real * limit == limit);
    lemma_root_within(factor * x, top);
    lemma_root_within(factor * y, top);
}

/// Who was far from an obstacle does not touch it after a step.
proof fn lemma_still_apart(body: Body, before: Body, b: Body)
    requires
        body.r == encoded(PLAYER_R),
        body.pos.x.finite(),
        body.pos.y.finite(),
        b.pos.x.finite(),
        b.pos.y.finite(),
        b.r.finite(),
        !b.r.negative(),
        within(real_value(b.pos.x), 10000real),
        within(real_value(b.pos.y), 10000real),
        within(real_value(before.pos.x), 2000real),
        within(real_value(before.pos.y), 2000real),
        size(b.r) <= 1000real,
        far_from(before, b),
        within(real_value(body.pos.x) - real_value(before.pos.x), 8real),
        within(real_value(body.pos.y) - real_value(before.pos.y), 8real),
    ensures
        !touching(body, b),
{
    lemma2_to64_rest();
    let r = encoded(PLAYER_R);
    assert(r.exponent() == -48 && r.significand() == 0x16_0000_0000_0000);
    lemma_size_is(r, 48, 22real);
    lemma_size_positive(b.r);
    lemma_moderate_exponent(body.pos.x, 2008real);
    lemma_moderate_exponent(body.pos.y, 2008real);
    lemma_moderate_exponent(b.pos.x, 10000real);
    lemma_moderate_exponent(b.pos.y, 10000real);
    lemma_moderate_exponent(b.r, 1000real);
    law_touching_is_overlap(body, b);
    let dx = real_value(b.pos.x) - real_value(body.pos.x);
    let dy = real_value(b.pos.y) - real_value(body.pos.y);
    let reach = 22real + size(b.r);
    let more = reach + 12real;
    lemma_square_positive(dx);
    lemma_square_positive(dy);
    lemma_negated(dx, dx);
    lemma_negated(dy, dy);
    lemma_square_ordered(reach, 1022real);
    assert(1022real * 1022real == 1044484real);
    lemma_distributes(reach, 12real, more);
    lemma_commutes(reach, more);
    lemma_distributes(reach, 12real, reach);
    if dx >= more {
        lemma_square_ordered(more, dx);
    } else if dx <= -more {
        lemma_square_ordered(more, -dx);
    } else if dy >= more {
        lemma_square_ordered(more, dy);
    } else {
        lemma_square_ordered(more, -dy);
    }
}

// ---------------------------------------------------------------------------
// Symmetry
// ---------------------------------------------------------------------------

/// A body mirrored at the diagonal.
pub open spec fn flipped_body(b: Body) -> Body {
    Body { pos: flipped(b.pos), vel: flipped(b.vel), ..b }
}

/// A step does not tell the coordinates apart: mirrored at the diagonal, it is the same step.
pub proof fn law_step_flips(body: Body, ax: Double, ay: Double, dt: Double, damp: Double)
    ensures
        flipped_body(body).integrated(ay, ax, dt, damp) == flipped_body(
            body.integrated(ax, ay, dt, damp),
        ),
{
    let x = body.vel.x.plus(ax.times(dt));
    let y = body.vel.y.plus(ay.times(dt));
    law_plus_commutes(x.times(x), y.times(y));
}

/// Nor does a collision.
pub proof fn law_collision_flips(a: Body, b: Body)
    ensures
        collided(flipped_body(a), flipped_body(b)).a == flipped_body(collided(a, b).a),
        collided(flipped_body(a), flipped_body(b)).b == flipped_body(collided(a, b).b),
        collided(flipped_body(a), flipped_body(b)).magnitude == collided(a, b).magnitude,
{
    let dx = b.pos.x.minus(a.pos.x);
    let dy = b.pos.y.minus(a.pos.y);
    law_plus_commutes(dx.times(dx), dy.times(dy));
    let dist = square_norm(dx, dy).root();
    law_plus_commutes(
        b.vel.x.minus(a.vel.x).times(dx.over(dist)),
        b.vel.y.minus(a.vel.y).times(dy.over(dist)),
    );
}

/// Swapping the coordinates of a player's place, velocity and input swaps those of what becomes of
/// the player.
pub proof fn law_input_flips(p: Player, damp: Double)
    ensures
        ({
            let q = Player {
                body: flipped_body(p.body),
                input: PlayerInput { x: p.input.y, y: p.input.x, ..p.input },
                ..p
            };
            q.driven(damp).body == flipped_body(p.driven(damp).body)
        }),
{
    law_step_flips(
        p.body,
        p.input.x.times(encoded(ACCEL)),
        p.input.y.times(encoded(ACCEL)),
        encoded(STEP),
        damp,
    );
}

} // verus!
