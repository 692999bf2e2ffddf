//! What happens when a player comes upon a pillar, another player, a wall of the rink or an enemy,
//! and that everybody is told.

use crate::bounce::{real_value, within};
use crate::chase::{clash_at, lemma_untouched_all, untouched};
use crate::double::{encoded, Double};
use crate::drive::{
    law_input_pushes, lemma_moved_unhindered, lemma_passed, lemma_peace, lemma_player_inside,
    peaceful, steerable, unhindered, went_on,
};
use crate::exact::{lemma_size_is, lemma_size_positive};
use crate::exchange::crowd_at;
use crate::impact::{
    kept_between, law_collision_in_numbers, law_walls_in_numbers, lemma_exact_order, solid,
    wall_hit, Impact,
};
use crate::level::{Clash, LevelView, ENEMY_HIT_IMPULSE};
use crate::physics::{
    all_apart, collided, law_apart_stays, law_inside_untouched, paired, press_magnitudes, pressed,
    touching, Body, Crowd, Hit, PLAYER_R,
};
use crate::protocol::ServerMsgView;
use crate::room::{
    bodies_of, bump_over, enemy_bumps, pair_bumps, pillar_bumps, pillar_row, wall_bumps,
    with_bodies, Phase, Player, RoomView, PILLAR_BUMP, PLAYER_BUMP, WALL_BUMP,
};
use crate::space::exact_square;
use vstd::arithmetic::power2::*;
use vstd::prelude::*;

verus! {

// ---------------------------------------------------------------------------
// One encounter among many bodies
// ---------------------------------------------------------------------------

/// Who touches only one of a row of bodies collides with that one.
pub proof fn law_one_of_row(body: Body, row: Seq<Body>, j: int, n: nat)
    requires
        0 <= j < row.len(),
        n <= row.len(),
        forall|k: int| 0 <= k < j ==> !touching(body, #[trigger] row[k]),
        forall|k: int|
            j < k < row.len() ==> !touching(collided(body, row[j]).a, #[trigger] row[k]),
    ensures
        pressed(body, row, n) == if n <= j {
            body
        } else {
            collided(body, row[j]).a
        },
    decreases n,
{
    if n > 0 {
        law_one_of_row(body, row, j, (n - 1) as nat);
        if n - 1 < j {
            assert(!touching(body, row[n - 1]));
        } else if n - 1 > j {
            assert(!touching(collided(body, row[j]).a, row[n - 1]));
        }
    }
}

/// Whether, of all that two bodies meet in a crowd, they touch at most each other.
pub open spec fn only_each_other(bodies: Seq<Body>, active: Seq<bool>, i: int, j: int) -> bool {
    forall|a: int, b: int|
        0 <= a < b < bodies.len() && active[a] && active[b] && !(a == i && b == j) && (a == i || a
            == j || b == i || b == j) ==> {
            let c = #[trigger] crowd_at(bodies, active, a, b);
            !touching(c.bodies[a], c.bodies[b])
        }
}

/// Two bodies of a crowd that touch nobody else collide with each other as if they were alone.
pub proof fn law_two_of_crowd(bodies: Seq<Body>, active: Seq<bool>, i: int, j: int)
    requires
        bodies.len() == active.len(),
        bodies.len() <= usize::MAX,
        0 <= i < j < bodies.len(),
        active[i],
        active[j],
        only_each_other(bodies, active, i, j),
    ensures
        ({
            let c = collided(bodies[i], bodies[j]);
            let after = paired(bodies, active);
            &&& after.bodies.len() == bodies.len()
            &&& after.bodies[i] == c.a
            &&& after.bodies[j] == c.b
            &&& after.hits.contains(
                Hit { first: i as usize, second: j as usize, magnitude: c.magnitude },
            )
        }),
{
    lemma_two_all(bodies, active, i, j, bodies.len() as int);
}

/// What is known of the two after some of the meetings.
spec fn as_if_alone(bodies: Seq<Body>, c: Crowd, i: int, j: int, met: bool) -> bool {
    let x = collided(bodies[i], bodies[j]);
    &&& c.bodies.len() == bodies.len()
    &&& !met ==> c.bodies[i] == bodies[i] && c.bodies[j] == bodies[j]
    &&& met ==> c.bodies[i] == x.a && c.bodies[j] == x.b && c.hits.contains(
        Hit { first: i as usize, second: j as usize, magnitude: x.magnitude },
    )
}

proof fn lemma_two_all(bodies: Seq<Body>, active: Seq<bool>, i: int, j: int, a: int)
    requires
        bodies.len() == active.len(),
        0 <= i < j < bodies.len(),
        active[i],
        active[j],
        only_each_other(bodies, active, i, j),
        0 <= a <= bodies.len(),
    ensures
        as_if_alone(
            bodies,
            Crowd { bodies, hits: Seq::empty() }.meet_all(active, a),
            i,
            j,
            a > i,
        ),
    decreases a,
{
    if a > 0 {
        lemma_two_all(bodies, active, i, j, a - 1);
        lemma_two_row(bodies, active, i, j, a - 1, active.len() as int);
    }
}

proof fn lemma_two_row(bodies: Seq<Body>, active: Seq<bool>, i: int, j: int, a: int, b: int)
    requires
        bodies.len() == active.len(),
        0 <= i < j < bodies.len(),
        active[i],
        active[j],
        only_each_other(bodies, active, i, j),
        0 <= a < bodies.len(),
        0 <= b <= bodies.len(),
        as_if_alone(
            bodies,
            Crowd { bodies, hits: Seq::empty() }.meet_all(active, a),
            i,
            j,
            a > i,
        ),
    ensures
        as_if_alone(
            bodies,
            crowd_at(bodies, active, a, b),
            i,
            j,
            a > i || (a == i && b > j),
        ),
    decreases b,
{
    if b > a + 1 {
        lemma_two_row(bodies, active, i, j, a, b - 1);
        let c = crowd_at(bodies, active, a, b - 1);
        let next = crowd_at(bodies, active, a, b);
        assert(next == c.meet(active, a, b - 1));
        let x = collided(bodies[i], bodies[j]);
        let hit = Hit { first: i as usize, second: j as usize, magnitude: x.magnitude };
        if active[a] && active[b - 1] {
            let pushed = Hit {
                first: a as usize,
                second: (b - 1) as usize,
                magnitude: collided(c.bodies[a], c.bodies[b - 1]).magnitude,
            };
            if a == i && b - 1 == j {
                assert(c.hits.push(hit).last() == hit);
                assert(next.hits.contains(hit));
            } else {
                lemma_push_contains(c.hits, pushed, hit);
            }
        }
    }
}

proof fn lemma_push_contains<T>(s: Seq<T>, last: T, x: T)
    ensures
        s.contains(x) ==> s.push(last).contains(x),
        s.push(x).contains(x),
{
    if s.contains(x) {
        let k = choose|k: int| 0 <= k < s.len() && s[k] == x;
        assert(s.push(last)[k] == x);
    }
    assert(s.push(x)[s.len() as int] == x);
}

// ---------------------------------------------------------------------------
// What is told
// ---------------------------------------------------------------------------

/// A bump as it is sent.
pub open spec fn bump(id: Seq<char>, other: Seq<char>, impulse: Double) -> ServerMsgView {
    ServerMsgView::Bump { id, other, impulse }
}

proof fn lemma_bump_over_keeps(
    sent: Seq<ServerMsgView>,
    limit: u64,
    id: Seq<char>,
    other: Seq<char>,
    impulse: Double,
    m: ServerMsgView,
)
    requires
        sent.contains(m),
    ensures
        bump_over(sent, limit, id, other, impulse).contains(m),
{
    lemma_push_contains(sent, bump(id, other, impulse), m);
}

proof fn lemma_pillar_row_keeps(
    sent: Seq<ServerMsgView>,
    id: Seq<char>,
    magnitudes: Seq<Double>,
    n: nat,
    m: ServerMsgView,
)
    requires
        sent.contains(m),
    ensures
        pillar_row(sent, id, magnitudes, n).contains(m),
    decreases n,
{
    if n > 0 {
        lemma_pillar_row_keeps(sent, id, magnitudes, (n - 1) as nat, m);
        lemma_bump_over_keeps(
            pillar_row(sent, id, magnitudes, (n - 1) as nat),
            PILLAR_BUMP,
            id,
            "pillar"@,
            magnitudes[n - 1],
            m,
        );
    }
}

proof fn lemma_pillar_row_tells(
    sent: Seq<ServerMsgView>,
    id: Seq<char>,
    magnitudes: Seq<Double>,
    n: nat,
    j: int,
)
    requires
        0 <= j < n,
        magnitudes[j].gt(encoded(PILLAR_BUMP)),
    ensures
        pillar_row(sent, id, magnitudes, n).contains(bump(id, "pillar"@, magnitudes[j])),
    decreases n,
{
    let before = pillar_row(sent, id, magnitudes, (n - 1) as nat);
    let m = bump(id, "pillar"@, magnitudes[j]);
    if j == n - 1 {
        lemma_push_contains(before, m, m);
    } else {
        lemma_pillar_row_tells(sent, id, magnitudes, (n - 1) as nat, j);
        lemma_bump_over_keeps(before, PILLAR_BUMP, id, "pillar"@, magnitudes[n - 1], m);
    }
}

proof fn lemma_pillars_tell(players: Seq<Player>, pillars: Seq<Body>, n: nat, i: int, j: int)
    requires
        0 <= i < n <= players.len(),
        0 <= j < pillars.len(),
        press_magnitudes(players[i].body, pillars)[j].gt(encoded(PILLAR_BUMP)),
    ensures
        pillar_bumps(players, pillars, n).contains(
            bump(players[i].id@, "pillar"@, press_magnitudes(players[i].body, pillars)[j]),
        ),
    decreases n,
{
    let before = pillar_bumps(players, pillars, (n - 1) as nat);
    let magnitudes = press_magnitudes(players[n - 1].body, pillars);
    if i == n - 1 {
        lemma_pillar_row_tells(before, players[n - 1].id@, magnitudes, pillars.len(), j);
    } else {
        lemma_pillars_tell(players, pillars, (n - 1) as nat, i, j);
        lemma_pillar_row_keeps(
            before,
            players[n - 1].id@,
            magnitudes,
            pillars.len(),
            bump(players[i].id@, "pillar"@, press_magnitudes(players[i].body, pillars)[j]),
        );
    }
}

proof fn lemma_pairs_keep(
    sent: Seq<ServerMsgView>,
    players: Seq<Player>,
    hits: Seq<Hit>,
    n: nat,
    m: ServerMsgView,
)
    requires
        sent.contains(m),
    ensures
        pair_bumps(sent, players, hits, n).contains(m),
    decreases n,
{
    if n > 0 {
        lemma_pairs_keep(sent, players, hits, (n - 1) as nat, m);
        let hit = hits[n - 1];
        lemma_bump_over_keeps(
            pair_bumps(sent, players, hits, (n - 1) as nat),
            PLAYER_BUMP,
            players[hit.first as int].id@,
            players[hit.second as int].id@,
            hit.magnitude,
            m,
        );
    }
}

proof fn lemma_pairs_tell(
    sent: Seq<ServerMsgView>,
    players: Seq<Player>,
    hits: Seq<Hit>,
    n: nat,
    k: int,
)
    requires
        0 <= k < n <= hits.len(),
        hits[k].magnitude.gt(encoded(PLAYER_BUMP)),
    ensures
        pair_bumps(sent, players, hits, n).contains(
            bump(
                players[hits[k].first as int].id@,
                players[hits[k].second as int].id@,
                hits[k].magnitude,
            ),
        ),
    decreases n,
{
    let before = pair_bumps(sent, players, hits, (n - 1) as nat);
    let m = bump(
        players[hits[k].first as int].id@,
        players[hits[k].second as int].id@,
        hits[k].magnitude,
    );
    if k == n - 1 {
        lemma_push_contains(before, m, m);
    } else {
        lemma_pairs_tell(sent, players, hits, (n - 1) as nat, k);
        let hit = hits[n - 1];
        lemma_bump_over_keeps(
            before,
            PLAYER_BUMP,
            players[hit.first as int].id@,
            players[hit.second as int].id@,
            hit.magnitude,
            m,
        );
    }
}

proof fn lemma_walls_keep(
    sent: Seq<ServerMsgView>,
    players: Seq<Player>,
    n: nat,
    m: ServerMsgView,
)
    requires
        sent.contains(m),
    ensures
        wall_bumps(sent, players, n).contains(m),
    decreases n,
{
    if n > 0 {
        lemma_walls_keep(sent, players, (n - 1) as nat, m);
        lemma_bump_over_keeps(
            wall_bumps(sent, players, (n - 1) as nat),
            WALL_BUMP,
            players[n - 1].id@,
            "wall"@,
            players[n - 1].body.walled().1,
            m,
        );
    }
}

proof fn lemma_walls_tell(sent: Seq<ServerMsgView>, players: Seq<Player>, n: nat, i: int)
    requires
        0 <= i < n <= players.len(),
        players[i].body.walled().1.gt(encoded(WALL_BUMP)),
    ensures
        wall_bumps(sent, players, n).contains(
            bump(players[i].id@, "wall"@, players[i].body.walled().1),
        ),
    decreases n,
{
    let before = wall_bumps(sent, players, (n - 1) as nat);
    let m = bump(players[i].id@, "wall"@, players[i].body.walled().1);
    if i == n - 1 {
        lemma_push_contains(before, m, m);
    } else {
        lemma_walls_tell(sent, players, (n - 1) as nat, i);
        lemma_bump_over_keeps(
            before,
            WALL_BUMP,
            players[n - 1].id@,
            "wall"@,
            players[n - 1].body.walled().1,
            m,
        );
    }
}

proof fn lemma_enemies_keep(
    sent: Seq<ServerMsgView>,
    players: Seq<Player>,
    impulses: Seq<Double>,
    n: nat,
    m: ServerMsgView,
)
    requires
        sent.contains(m),
    ensures
        enemy_bumps(sent, players, impulses, n).contains(m),
    decreases n,
{
    if n > 0 {
        lemma_enemies_keep(sent, players, impulses, (n - 1) as nat, m);
        lemma_bump_over_keeps(
            enemy_bumps(sent, players, impulses, (n - 1) as nat),
            PLAYER_BUMP,
            players[n - 1].id@,
            "enemy"@,
            impulses[n - 1],
            m,
        );
    }
}

proof fn lemma_enemies_tell(
    sent: Seq<ServerMsgView>,
    players: Seq<Player>,
    impulses: Seq<Double>,
    n: nat,
    i: int,
)
    requires
        0 <= i < n <= players.len(),
        impulses[i].gt(encoded(PLAYER_BUMP)),
    ensures
        enemy_bumps(sent, players, impulses, n).contains(
            bump(players[i].id@, "enemy"@, impulses[i]),
        ),
    decreases n,
{
    let before = enemy_bumps(sent, players, impulses, (n - 1) as nat);
    let m = bump(players[i].id@, "enemy"@, impulses[i]);
    if i == n - 1 {
        lemma_push_contains(before, m, m);
    } else {
        lemma_enemies_tell(sent, players, impulses, (n - 1) as nat, i);
        lemma_bump_over_keeps(
            before,
            PLAYER_BUMP,
            players[n - 1].id@,
            "enemy"@,
            impulses[n - 1],
            m,
        );
    }
}

/// What players bump into is sent whatever else happens in the tick.
proof fn lemma_moved_told(room: RoomView, damp: Double, m: ServerMsgView)
    requires
        room.wf(),
        ({
            let next = RoomView { tick: ((room.tick + 1) % 0x1_0000_0000) as u32, ..room };
            next.moved(damp).sent.contains(m)
        }),
    ensures
        room.ticked(damp).sent.contains(m),
{
    reveal(RoomView::ticked);
    let next = RoomView { tick: ((room.tick + 1) % 0x1_0000_0000) as u32, ..room };
    let moved = next.moved(damp);
    if room.phase == Phase::Playing {
        let level = moved.room.level->0;
        let clash = level.clash(bodies_of(moved.room.players), damp);
        lemma_enemies_keep(
            moved.sent,
            moved.room.players,
            clash.impulses,
            moved.room.players.len(),
            m,
        );
        lemma_fought_told(moved.room, moved.sent, damp, m);
    }
}

proof fn lemma_fought_told(
    room: RoomView,
    sent: Seq<ServerMsgView>,
    damp: Double,
    m: ServerMsgView,
)
    requires
        room.fought(sent, damp).sent.contains(m),
    ensures
        room.campaigned(sent, damp).sent.contains(m),
{
    let fought = room.fought(sent, damp);
    if fought.room.level_done() {
        let out = room.campaigned(sent, damp).sent;
        let k = choose|k: int| 0 <= k < fought.sent.len() && fought.sent[k] == m;
        assert(out[k] == m);
    }
}

// ---------------------------------------------------------------------------
// Encounters in a room
// ---------------------------------------------------------------------------

/// Everybody after input moved them.
pub open spec fn after_input(room: RoomView, damp: Double) -> Seq<Player> {
    room.players.map_values(|p: Player| p.driven(damp))
}

/// Everybody after the pillars pushed them.
pub open spec fn after_pillars(room: RoomView, damp: Double) -> Seq<Player> {
    after_input(room, damp).map_values(|p: Player| p.pressed(room.pillars))
}

/// Everybody takes part.
pub open spec fn everyone(room: RoomView) -> Seq<bool> {
    Seq::new(room.players.len(), |k: int| true)
}

/// Whether the centre of a player is between the walls of the rink.
pub open spec fn in_rink(body: Body) -> bool {
    &&& 50real <= real_value(body.pos.x) <= 1750real
    &&& 50real <= real_value(body.pos.y) <= 1150real
}

/// Bumps are told when they are harder than 30 for pillars, 20 for players and enemies, and 40 for
/// walls.
pub proof fn law_limits_in_numbers(impulse: Double)
    requires
        impulse.finite(),
    ensures
        impulse.gt(encoded(PILLAR_BUMP)) <==> real_value(impulse) > 30real,
        impulse.gt(encoded(PLAYER_BUMP)) <==> real_value(impulse) > 20real,
        impulse.gt(encoded(WALL_BUMP)) <==> real_value(impulse) > 40real,
        impulse.gt(encoded(ENEMY_HIT_IMPULSE)) <==> real_value(impulse) > 55real,
        impulse.gt(encoded(0)) <==> real_value(impulse) > 0real,
{
    lemma2_to64_rest();
    let pillar = encoded(PILLAR_BUMP);
    let player = encoded(PLAYER_BUMP);
    let wall = encoded(WALL_BUMP);
    let hurt = encoded(ENEMY_HIT_IMPULSE);
    assert(pillar.exponent() == -48 && pillar.significand() == 0x1E_0000_0000_0000);
    assert(player.exponent() == -48 && player.significand() == 0x14_0000_0000_0000);
    assert(wall.exponent() == -47 && wall.significand() == 0x14_0000_0000_0000);
    assert(hurt.exponent() == -47 && hurt.significand() == 0x1B_8000_0000_0000);
    lemma_size_is(pillar, 48, 30real);
    lemma_size_is(player, 48, 20real);
    lemma_size_is(wall, 47, 40real);
    lemma_size_is(hurt, 47, 55real);
    lemma_size_positive(encoded(0));
    lemma_exact_order(pillar, impulse);
    lemma_exact_order(player, impulse);
    lemma_exact_order(wall, impulse);
    lemma_exact_order(hurt, impulse);
    lemma_exact_order(encoded(0), impulse);
}

/// The rest of a tick leaves a player as the meetings with the others left them, if no wall and no
/// enemy is in the way.
proof fn lemma_after_meetings(room: RoomView, damp: Double, i: int)
    requires
        room.wf(),
        0 <= i < room.players.len(),
        peaceful(room),
        ({
            let body = paired(bodies_of(after_pillars(room, damp)), everyone(room)).bodies[i];
            body.r == encoded(PLAYER_R) && body.pos.x.finite() && body.pos.y.finite() && in_rink(
                body,
            )
        }),
    ensures
        room.ticked(damp).room.players[i].body == paired(
            bodies_of(after_pillars(room, damp)),
            everyone(room),
        ).bodies[i],
{
    lemma_after_walls(room, damp, i);
    let body = paired(bodies_of(after_pillars(room, damp)), everyone(room)).bodies[i];
    lemma_player_inside(body);
    law_inside_untouched(body);
}

/// The rest of a tick leaves a player as the walls left them, if no enemy is in the way.
proof fn lemma_after_walls(room: RoomView, damp: Double, i: int)
    requires
        room.wf(),
        0 <= i < room.players.len(),
        peaceful(room),
    ensures
        room.ticked(damp).room.players[i].body == paired(
            bodies_of(after_pillars(room, damp)),
            everyone(room),
        ).bodies[i].walled().0,
{
    reveal(RoomView::ticked);
    let next = RoomView { tick: ((room.tick + 1) % 0x1_0000_0000) as u32, ..room };
    lemma_stages(room, damp);
    if room.phase == Phase::Playing {
        let moved = next.moved(damp).room;
        lemma_peace(room.level->0, bodies_of(moved.players), damp);
    }
}

/// The stages of a tick by name.
proof fn lemma_stages(room: RoomView, damp: Double)
    ensures
        ({
            let next = RoomView { tick: ((room.tick + 1) % 0x1_0000_0000) as u32, ..room };
            let driven = after_input(room, damp);
            let past = after_pillars(room, damp);
            let crowd = paired(bodies_of(past), everyone(room));
            let apart = with_bodies(past, crowd.bodies);
            let count = room.players.len();
            let first = pillar_bumps(driven, room.pillars, count);
            let second = pair_bumps(first, past, crowd.hits, crowd.hits.len());
            &&& next.moved(damp).sent == wall_bumps(second, apart, count)
            &&& next.moved(damp).room.players == apart.map_values(|p: Player| p.walled())
            &&& driven.len() == count
            &&& past.len() == count
            &&& apart.len() == count
        }),
{
    let next = RoomView { tick: ((room.tick + 1) % 0x1_0000_0000) as u32, ..room };
    assert(next.players.map_values(|p: Player| p.driven(damp)) =~= after_input(room, damp));
    assert(after_input(room, damp).map_values(|p: Player| p.pressed(next.pillars))
        =~= after_pillars(room, damp));
    assert(Seq::new(next.players.len(), |i: int| true) =~= everyone(room));
}

/// A player who comes upon one pillar bounces off it, and this is told if it was harder than 30.
pub proof fn law_players_bounce_off_pillars(room: RoomView, damp: Double, i: int, j: int) -> (
    impact: Impact)
    requires
        room.wf(),
        peaceful(room),
        0 <= i < room.players.len(),
        0 <= j < room.pillars.len(),
        room.players[i].body.r == encoded(PLAYER_R),
        ({
            let body = after_input(room, damp)[i].body;
            let after = collided(body, room.pillars[j]).a;
            &&& solid(body)
            &&& solid(room.pillars[j])
            &&& touching(body, room.pillars[j])
            &&& exact_square(body.pos, room.pillars[j].pos) >= 9real / 10real
            &&& forall|k: int| 0 <= k < j ==> !touching(body, #[trigger] room.pillars[k])
            &&& forall|k: int|
                j < k < room.pillars.len() ==> !touching(after, #[trigger] room.pillars[k])
            &&& in_rink(after)
        }),
        untouched(bodies_of(after_pillars(room, damp)), everyone(room), i),
    ensures
        ({
            let body = after_input(room, damp)[i].body;
            let pillar = room.pillars[j];
            let after = room.ticked(damp).room.players[i].body;
            let magnitude = collided(body, pillar).magnitude;
            &&& impact.happened(body, pillar, after, pillar, magnitude)
            &&& real_value(magnitude) > 30real ==> room.ticked(damp).sent.contains(
                bump(room.players[i].id@, "pillar"@, magnitude),
            )
        }),
{
    let driven = after_input(room, damp);
    let past = after_pillars(room, damp);
    let body = driven[i].body;
    let pillar = room.pillars[j];
    let impact = law_collision_in_numbers(body, pillar);
    law_one_of_row(body, room.pillars, j, room.pillars.len());
    law_one_of_row(body, room.pillars, j, j as nat);
    let after = collided(body, pillar).a;
    assert(bodies_of(past)[i] == after);
    lemma_untouched_all(bodies_of(past), everyone(room), i, room.players.len() as int);
    lemma_after_meetings(room, damp, i);
    let magnitude = collided(body, pillar).magnitude;
    law_limits_in_numbers(magnitude);
    if real_value(magnitude) > 30real {
        let m = bump(room.players[i].id@, "pillar"@, magnitude);
        let count = room.players.len();
        lemma_pillars_tell(driven, room.pillars, count, i, j);
        let crowd = paired(bodies_of(past), everyone(room));
        let first = pillar_bumps(driven, room.pillars, count);
        lemma_pairs_keep(first, past, crowd.hits, crowd.hits.len(), m);
        let second = pair_bumps(first, past, crowd.hits, crowd.hits.len());
        lemma_walls_keep(second, with_bodies(past, crowd.bodies), count, m);
        lemma_stages(room, damp);
        lemma_moved_told(room, damp, m);
    }
    impact
}

/// Two players who come upon each other, and upon nothing else, bounce off each other, and this is
/// told if it was harder than 20.
pub proof fn law_players_bounce_off_each_other(room: RoomView, damp: Double, i: int, j: int) -> (
    impact: Impact)
    requires
        room.wf(),
        peaceful(room),
        0 <= i < j < room.players.len(),
        room.players[i].body.r == encoded(PLAYER_R),
        room.players[j].body.r == encoded(PLAYER_R),
        ({
            let a = after_input(room, damp)[i].body;
            let b = after_input(room, damp)[j].body;
            let c = collided(a, b);
            &&& solid(a)
            &&& solid(b)
            &&& !b.is_static
            &&& touching(a, b)
            &&& exact_square(a.pos, b.pos) >= 9real / 10real
            &&& forall|k: int|
                0 <= k < room.pillars.len() ==> !touching(a, #[trigger] room.pillars[k])
            &&& forall|k: int|
                0 <= k < room.pillars.len() ==> !touching(b, #[trigger] room.pillars[k])
            &&& in_rink(c.a)
            &&& in_rink(c.b)
        }),
        only_each_other(bodies_of(after_pillars(room, damp)), everyone(room), i, j),
    ensures
        ({
            let a = after_input(room, damp)[i].body;
            let b = after_input(room, damp)[j].body;
            let after = room.ticked(damp).room.players;
            let magnitude = collided(a, b).magnitude;
            &&& impact.happened(a, b, after[i].body, after[j].body, magnitude)
            &&& real_value(magnitude) > 20real ==> room.ticked(damp).sent.contains(
                bump(room.players[i].id@, room.players[j].id@, magnitude),
            )
        }),
{
    let driven = after_input(room, damp);
    let past = after_pillars(room, damp);
    let a = driven[i].body;
    let b = driven[j].body;
    let impact = law_collision_in_numbers(a, b);
    lemma_passed(a, room.pillars, room.pillars.len());
    lemma_passed(b, room.pillars, room.pillars.len());
    let bodies = bodies_of(past);
    assert(bodies[i] == a && bodies[j] == b);
    law_two_of_crowd(bodies, everyone(room), i, j);
    lemma_after_meetings(room, damp, i);
    lemma_after_meetings(room, damp, j);
    let magnitude = collided(a, b).magnitude;
    law_limits_in_numbers(magnitude);
    if real_value(magnitude) > 20real {
        let m = bump(room.players[i].id@, room.players[j].id@, magnitude);
        let count = room.players.len();
        let crowd = paired(bodies, everyone(room));
        let hit = Hit { first: i as usize, second: j as usize, magnitude };
        let k = choose|k: int| 0 <= k < crowd.hits.len() && crowd.hits[k] == hit;
        let first = pillar_bumps(driven, room.pillars, count);
        lemma_pairs_tell(first, past, crowd.hits, crowd.hits.len(), k);
        let second = pair_bumps(first, past, crowd.hits, crowd.hits.len());
        lemma_walls_keep(second, with_bodies(past, crowd.bodies), count, m);
        lemma_stages(room, damp);
        lemma_moved_told(room, damp, m);
    }
    impact
}

/// A player who comes upon nothing but the walls of the rink is kept inside them, and this is told
/// if the hit was harder than 40.
pub proof fn law_players_bounce_off_walls(room: RoomView, damp: Double, i: int)
    requires
        room.wf(),
        peaceful(room),
        0 <= i < room.players.len(),
        room.players[i].body.r == encoded(PLAYER_R),
        ({
            let body = after_input(room, damp)[i].body;
            &&& solid(body)
            &&& forall|k: int|
                0 <= k < room.pillars.len() ==> !touching(body, #[trigger] room.pillars[k])
        }),
        untouched(bodies_of(after_pillars(room, damp)), everyone(room), i),
    ensures
        ({
            let body = after_input(room, damp)[i].body;
            let after = room.ticked(damp).room.players[i].body;
            let hx = wall_hit(50real, 1750real, body.pos.x, body.vel.x);
            let hy = wall_hit(50real, 1150real, body.pos.y, body.vel.y);
            let hit = if hx >= hy {
                hx
            } else {
                hy
            };
            &&& kept_between(
                50real,
                1750real,
                body.pos.x,
                body.vel.x,
                after.pos.x,
                after.vel.x,
            )
            &&& kept_between(
                50real,
                1150real,
                body.pos.y,
                body.vel.y,
                after.pos.y,
                after.vel.y,
            )
            &&& hit > 40real ==> exists|impulse: Double|
                real_value(impulse) == hit && room.ticked(damp).sent.contains(
                    #[trigger] bump(room.players[i].id@, "wall"@, impulse),
                )
        }),
{
    let driven = after_input(room, damp);
    let past = after_pillars(room, damp);
    let body = driven[i].body;
    lemma_passed(body, room.pillars, room.pillars.len());
    let bodies = bodies_of(past);
    assert(bodies[i] == body);
    lemma_untouched_all(bodies, everyone(room), i, room.players.len() as int);
    lemma_after_walls(room, damp, i);
    law_walls_in_numbers(body);
    let impulse = body.walled().1;
    law_limits_in_numbers(impulse);
    if real_value(impulse) > 40real {
        let count = room.players.len();
        let crowd = paired(bodies, everyone(room));
        let apart = with_bodies(past, crowd.bodies);
        let first = pillar_bumps(driven, room.pillars, count);
        let second = pair_bumps(first, past, crowd.hits, crowd.hits.len());
        assert(apart[i].body == body);
        lemma_walls_tell(second, apart, count, i);
        lemma_stages(room, damp);
        lemma_moved_told(room, damp, bump(room.players[i].id@, "wall"@, impulse));
    }
}

/// Nothing is told of a tick in which nobody comes upon anything: outside a campaign nothing is
/// sent.
pub proof fn law_quiet_ticks_are_quiet(room: RoomView, damp: Double)
    requires
        room.wf(),
        room.phase != Phase::Playing,
        forall|i: int, j: int|
            0 <= i < room.players.len() && 0 <= j < room.pillars.len() ==> !touching(
                (#[trigger] after_input(room, damp)[i]).body,
                #[trigger] room.pillars[j],
            ),
        all_apart(bodies_of(after_input(room, damp)), everyone(room)),
        forall|i: int|
            0 <= i < room.players.len() ==> {
                let body = (#[trigger] after_input(room, damp)[i]).body;
                &&& body.r == encoded(PLAYER_R)
                &&& body.pos.x.finite() && body.pos.y.finite()
                &&& in_rink(body)
            },
    ensures
        room.ticked(damp).sent.len() == 0,
{
    reveal(RoomView::ticked);
    let driven = after_input(room, damp);
    let past = after_pillars(room, damp);
    let count = room.players.len();
    assert forall|i: int| 0 <= i < count implies #[trigger] past[i] == driven[i] by {
        lemma_passed(driven[i].body, room.pillars, room.pillars.len());
        assert(driven[i].pressed(room.pillars) == driven[i]);
    }
    assert(past =~= driven);
    let bodies = bodies_of(driven);
    law_apart_stays(bodies, everyone(room));
    let crowd = paired(bodies, everyone(room));
    lemma_soft_hits(bodies, everyone(room), count as int);
    let apart = with_bodies(past, crowd.bodies);
    assert(apart =~= driven);
    let first = pillar_bumps(driven, room.pillars, count);
    lemma_no_pillar_bumps(driven, room.pillars, count);
    lemma_no_pair_bumps(first, past, crowd.hits, crowd.hits.len());
    assert forall|i: int| 0 <= i < count implies (#[trigger] driven[i]).body.walled().1 == encoded(
        0,
    ) by {
        lemma_player_inside(driven[i].body);
        law_inside_untouched(driven[i].body);
    }
    lemma_no_wall_bumps(first, driven, count);
    lemma_stages(room, damp);
}

proof fn lemma_no_pillar_bumps(players: Seq<Player>, pillars: Seq<Body>, n: nat)
    requires
        n <= players.len(),
        forall|i: int, j: int|
            0 <= i < players.len() && 0 <= j < pillars.len() ==> !touching(
                (#[trigger] players[i]).body,
                #[trigger] pillars[j],
            ),
    ensures
        pillar_bumps(players, pillars, n).len() == 0,
    decreases n,
{
    if n > 0 {
        lemma_no_pillar_bumps(players, pillars, (n - 1) as nat);
        let before = pillar_bumps(players, pillars, (n - 1) as nat);
        let body = players[n - 1].body;
        let magnitudes = press_magnitudes(body, pillars);
        assert forall|j: int| 0 <= j < pillars.len() implies #[trigger] magnitudes[j] == encoded(
            0,
        ) by {
            assert forall|k: int| 0 <= k < pillars.len() implies !touching(
                body,
                #[trigger] pillars[k],
            ) by {
                assert(!touching(players[n - 1].body, pillars[k]));
            }
            lemma_passed(body, pillars, j as nat);
        }
        lemma_no_pillar_row(before, players[n - 1].id@, magnitudes, pillars.len());
    }
}

proof fn lemma_no_pillar_row(
    sent: Seq<ServerMsgView>,
    id: Seq<char>,
    magnitudes: Seq<Double>,
    n: nat,
)
    requires
        n <= magnitudes.len(),
        forall|j: int| 0 <= j < magnitudes.len() ==> #[trigger] magnitudes[j] == encoded(0),
    ensures
        pillar_row(sent, id, magnitudes, n) == sent,
    decreases n,
{
    if n > 0 {
        lemma_no_pillar_row(sent, id, magnitudes, (n - 1) as nat);
        assert(magnitudes[n - 1] == encoded(0));
    }
}

proof fn lemma_no_pair_bumps(
    sent: Seq<ServerMsgView>,
    players: Seq<Player>,
    hits: Seq<Hit>,
    n: nat,
)
    requires
        n <= hits.len(),
        forall|k: int| 0 <= k < hits.len() ==> (#[trigger] hits[k]).magnitude == encoded(0),
    ensures
        pair_bumps(sent, players, hits, n) == sent,
    decreases n,
{
    if n > 0 {
        lemma_no_pair_bumps(sent, players, hits, (n - 1) as nat);
        assert(hits[n - 1].magnitude == encoded(0));
    }
}

proof fn lemma_no_wall_bumps(sent: Seq<ServerMsgView>, players: Seq<Player>, n: nat)
    requires
        n <= players.len(),
        forall|i: int|
            0 <= i < players.len() ==> (#[trigger] players[i]).body.walled().1 == encoded(0),
    ensures
        wall_bumps(sent, players, n) == sent,
    decreases n,
{
    if n > 0 {
        lemma_no_wall_bumps(sent, players, (n - 1) as nat);
        assert(players[n - 1].body.walled().1 == encoded(0));
    }
}

/// Bodies that do not touch have hits of no strength.
proof fn lemma_soft_hits(bodies: Seq<Body>, active: Seq<bool>, i: int)
    requires
        bodies.len() == active.len(),
        all_apart(bodies, active),
        0 <= i <= bodies.len(),
    ensures
        ({
            let c = Crowd { bodies, hits: Seq::empty() }.meet_all(active, i);
            &&& c.bodies == bodies
            &&& forall|k: int|
                0 <= k < c.hits.len() ==> (#[trigger] c.hits[k]).magnitude == encoded(0)
        }),
    decreases i,
{
    if i > 0 {
        lemma_soft_hits(bodies, active, i - 1);
        lemma_soft_row(
            Crowd { bodies, hits: Seq::empty() }.meet_all(active, i - 1),
            active,
            i - 1,
            active.len() as int,
        );
    }
}

proof fn lemma_soft_row(start: Crowd, active: Seq<bool>, i: int, j: int)
    requires
        start.bodies.len() == active.len(),
        all_apart(start.bodies, active),
        0 <= i < active.len(),
        j <= active.len(),
        forall|k: int|
            0 <= k < start.hits.len() ==> (#[trigger] start.hits[k]).magnitude == encoded(0),
    ensures
        ({
            let c = start.meet_row(active, i, j);
            &&& c.bodies == start.bodies
            &&& forall|k: int|
                0 <= k < c.hits.len() ==> (#[trigger] c.hits[k]).magnitude == encoded(0)
        }),
    decreases j - i,
{
    if j > i + 1 {
        lemma_soft_row(start, active, i, j - 1);
        let c = start.meet_row(active, i, j - 1);
        assert(c.meet(active, i, j - 1).bodies =~= c.bodies);
    }
}

// ---------------------------------------------------------------------------
// Ramming an enemy
// ---------------------------------------------------------------------------

/// Whether, of all that an enemy and a player meet, they touch at most each other.
pub open spec fn only_this_ramming(start: Clash, k: int, i: int) -> bool {
    forall|a: int, b: int|
        0 <= a < start.enemies.len() && 0 <= b < start.players.len() && start.enemies[a].alive
            && !(a == k && b == i) && (a == k || b == i) ==> {
            let c = #[trigger] clash_at(start, a, b);
            !touching(c.players[b], c.enemies[a].body)
        }
}

/// A player who rams an enemy bounces off it as off another player. The hit is reported as hard as
/// it was; harder than 55 it costs the enemy one hit point, and the last one clears it.
pub proof fn law_ramming_in_numbers(
    level: LevelView,
    players: Seq<Body>,
    damp: Double,
    k: int,
    i: int,
) -> (impact: Impact)
    requires
        level.wf(),
        0 <= k < level.enemies.len(),
        0 <= i < players.len(),
        level.enemies[k].alive,
        ({
            let enemy = level.before_clash(players, damp).enemies[k].body;
            &&& solid(players[i])
            &&& solid(enemy)
            &&& !enemy.is_static
            &&& touching(players[i], enemy)
            &&& exact_square(players[i].pos, enemy.pos) >= 9real / 10real
        }),
        only_this_ramming(level.before_clash(players, damp), k, i),
    ensures
        ({
            let before = level.enemies[k];
            let enemy = level.before_clash(players, damp).enemies[k].body;
            let c = level.clash(players, damp);
            let magnitude = collided(players[i], enemy).magnitude;
            let hard = real_value(magnitude) > 55real;
            &&& impact.happened(players[i], enemy, c.players[i], c.enemies[k].body, magnitude)
            &&& c.enemies[k].hp == before.hp - if hard {
                1int
            } else {
                0int
            }
            &&& c.enemies[k].alive <==> c.enemies[k].hp > 0
            &&& real_value(magnitude) > 0real ==> c.impulses[i] == magnitude
        }),
{
    let start = level.before_clash(players, damp);
    let enemy = start.enemies[k].body;
    assert(start.enemies[k].alive && start.enemies[k].hp == level.enemies[k].hp);
    let impact = law_collision_in_numbers(players[i], enemy);
    lemma_ram_all(start, k, i, level.enemies.len() as int);
    law_limits_in_numbers(collided(players[i], enemy).magnitude);
    impact
}

/// What is known of the two after some of the meetings.
spec fn as_rammed(start: Clash, c: Clash, k: int, i: int, met: bool) -> bool {
    let e = start.enemies[k];
    let x = collided(start.players[i], e.body);
    let hard = x.magnitude.gt(encoded(0)) && x.magnitude.gt(encoded(ENEMY_HIT_IMPULSE));
    &&& c.enemies.len() == start.enemies.len()
    &&& c.players.len() == start.players.len()
    &&& c.impulses.len() == start.players.len()
    &&& !met ==> {
        &&& c.enemies[k] == e
        &&& c.players[i] == start.players[i]
        &&& c.impulses[i] == encoded(0)
    }
    &&& met ==> {
        &&& c.players[i] == x.a
        &&& c.enemies[k].body == x.b
        &&& hard ==> c.enemies[k].hp == (e.hp - 1) as i32 && c.enemies[k].alive == (e.alive && e.hp
            > 1)
        &&& !hard ==> c.enemies[k].hp == e.hp && c.enemies[k].alive == e.alive
        &&& x.magnitude.gt(encoded(0)) ==> c.impulses[i] == encoded(0).max(x.magnitude)
    }
}

proof fn lemma_ram_all(start: Clash, k: int, i: int, n: int)
    requires
        0 <= k < start.enemies.len(),
        0 <= i < start.players.len(),
        start.enemies[k].alive,
        start.impulses.len() == start.players.len(),
        start.impulses[i] == encoded(0),
        only_this_ramming(start, k, i),
        0 <= n <= start.enemies.len(),
    ensures
        as_rammed(start, start.meet_all(n), k, i, n > k),
        forall|m: int|
            n <= m < start.enemies.len() ==> #[trigger] start.meet_all(n).enemies[m]
                == start.enemies[m],
    decreases n,
{
    if n > 0 {
        lemma_ram_all(start, k, i, n - 1);
        let c = start.meet_all(n - 1);
        assert(c.enemies[n - 1] == start.enemies[n - 1]);
        if c.enemies[n - 1].alive {
            lemma_ram_row(start, k, i, n - 1, c.players.len() as int);
        }
    }
}

proof fn lemma_ram_row(start: Clash, k: int, i: int, a: int, b: int)
    requires
        0 <= k < start.enemies.len(),
        0 <= i < start.players.len(),
        start.enemies[k].alive,
        start.enemies[a].alive,
        only_this_ramming(start, k, i),
        0 <= a < start.enemies.len(),
        0 <= b <= start.players.len(),
        as_rammed(start, start.meet_all(a), k, i, a > k),
        forall|m: int|
            a <= m < start.enemies.len() ==> #[trigger] start.meet_all(a).enemies[m]
                == start.enemies[m],
    ensures
        as_rammed(start, clash_at(start, a, b), k, i, a > k || (a == k && b > i)),
        forall|m: int|
            a < m < start.enemies.len() ==> #[trigger] clash_at(start, a, b).enemies[m]
                == start.enemies[m],
    decreases b,
{
    if b > 0 {
        lemma_ram_row(start, k, i, a, b - 1);
        let c = clash_at(start, a, b - 1);
        let next = clash_at(start, a, b);
        assert(next == c.meet(a, b - 1));
        if (a == k || b - 1 == i) && !(a == k && b - 1 == i) {
            assert(!touching(c.players[b - 1], c.enemies[a].body));
        }
    }
}

/// Where everybody stands when the enemies of a level get at the players.
pub open spec fn standing(room: RoomView, damp: Double) -> Seq<Body> {
    let next = RoomView { tick: ((room.tick + 1) % 0x1_0000_0000) as u32, ..room };
    bodies_of(next.moved(damp).room.players)
}

/// In a campaign a tick ends with everybody where the enemies left them, and with the enemies as
/// the players left them while the level goes on. Whom an enemy hit harder than 20 is told so.
pub proof fn law_enemies_hit_players(room: RoomView, damp: Double, i: int)
    requires
        room.wf(),
        room.phase == Phase::Playing,
        0 <= i < room.players.len(),
    ensures
        ({
            let c = room.level->0.clash(standing(room, damp), damp);
            let out = room.ticked(damp);
            let impulse = c.impulses[i];
            &&& standing(room, damp).len() == room.players.len()
            &&& out.room.players[i].body == c.players[i]
            &&& out.room.phase == Phase::Playing && out.room.level->0.index == room.level->0.index
                ==> out.room.level->0.enemies == c.enemies
            &&& impulse.finite() && real_value(impulse) > 20real ==> out.sent.contains(
                bump(room.players[i].id@, "enemy"@, impulse),
            )
        }),
{
    reveal(RoomView::ticked);
    let next = RoomView { tick: ((room.tick + 1) % 0x1_0000_0000) as u32, ..room };
    let moved = next.moved(damp);
    let c = room.level->0.clash(standing(room, damp), damp);
    let count = room.players.len();
    if c.impulses[i].finite() && real_value(c.impulses[i]) > 20real {
        law_limits_in_numbers(c.impulses[i]);
        lemma_enemies_tell(moved.sent, moved.room.players, c.impulses, count, i);
        lemma_fought_told(
            moved.room,
            moved.sent,
            damp,
            bump(room.players[i].id@, "enemy"@, c.impulses[i]),
        );
    }
}

/// Whether no enemy touches a player when it is about to meet them.
pub open spec fn unrammed(start: Clash, i: int) -> bool {
    forall|k: int|
        0 <= k < start.enemies.len() ==> {
            let c = #[trigger] clash_at(start, k, i);
            !touching(c.players[i], c.enemies[k].body)
        }
}

/// Among living enemies, too, players go where they steer as long as none of them gets at them.
pub proof fn law_players_go_amid_enemies(room: RoomView, damp: Double, i: int) -> (factor: real)
    requires
        room.wf(),
        room.phase == Phase::Playing,
        0 <= i < room.players.len(),
        steerable(room.players[i]),
        damp.finite(),
        within(real_value(damp), 1real),
        unhindered(room, damp, i),
        unrammed(room.level->0.before_clash(standing(room, damp), damp), i),
    ensures
        went_on(
            room.players[i].body,
            real_value(room.players[i].input.x) * 275real / 10real,
            real_value(room.players[i].input.y) * 275real / 10real,
            real_value(damp),
            room.ticked(damp).room.players[i].body,
            factor,
        ),
{
    let level = room.level->0;
    let start = level.before_clash(standing(room, damp), damp);
    law_enemies_hit_players(room, damp, i);
    lemma_moved_unhindered(room, damp, i);
    lemma_unrammed(start, i, level.enemies.len() as int);
    law_input_pushes(room.players[i], damp)
}

proof fn lemma_unrammed(start: Clash, i: int, n: int)
    requires
        0 <= i < start.players.len(),
        n <= start.enemies.len(),
        unrammed(start, i),
    ensures
        start.meet_all(n).enemies.len() == start.enemies.len(),
        start.meet_all(n).players.len() == start.players.len(),
        start.meet_all(n).players[i] == start.players[i],
    decreases n,
{
    if n > 0 {
        lemma_unrammed(start, i, n - 1);
        let c = start.meet_all(n - 1);
        if c.enemies[n - 1].alive {
            lemma_unrammed_row(start, i, n - 1, c.players.len() as int);
        }
    }
}

proof fn lemma_unrammed_row(start: Clash, i: int, k: int, n: int)
    requires
        0 <= i < start.players.len(),
        0 <= k < start.enemies.len(),
        n <= start.players.len(),
        unrammed(start, i),
        start.meet_all(k).enemies.len() == start.enemies.len(),
        start.meet_all(k).players.len() == start.players.len(),
        start.meet_all(k).players[i] == start.players[i],
    ensures
        clash_at(start, k, n).enemies.len() == start.enemies.len(),
        clash_at(start, k, n).players.len() == start.players.len(),
        clash_at(start, k, n).players[i] == start.players[i],
    decreases n,
{
    if n > 0 {
        lemma_unrammed_row(start, i, k, n - 1);
        let c = clash_at(start, k, n - 1);
        assert(clash_at(start, k, n) == c.meet(k, n - 1));
    }
}

} // verus!
