//! What clients are shown of a room: everything in its own place.

use crate::bounce::{lemma_negated, real_value, within};
use crate::double::Double;
use crate::exact::{
    lemma_associates, lemma_commutes, lemma_distributes, lemma_power_positive,
    lemma_product_as_real, lemma_scaled_ordered, lemma_size_positive, power, size, slack,
};
use crate::level::{ExitZone, LevelView};
use crate::physics::Body;
use crate::protocol::{CampaignState, PlayerState, ServerMsg, ServerMsgView, WallState, ZoneState};
use crate::room::{arrived, lemma_arrived, level_msg, Phase, Player, RoomView};
use crate::space::{law_exit_is_a_disc, moderate};
use vstd::arithmetic::div_mod::*;
use vstd::arithmetic::mul::*;
use vstd::arithmetic::power2::*;
use vstd::prelude::*;

verus! {

// ---------------------------------------------------------------------------
// Whole units
// ---------------------------------------------------------------------------

/// Whether a whole number is nearest to a number, where that is of ordinary size.
pub open spec fn rounds(i: i32, x: Double) -> bool {
    x.finite() && within(real_value(x), 2000000000real) ==> within(
        i as real - real_value(x),
        1real / 2real,
    )
}

/// Whole units are nearest to the number that they stand for.
pub proof fn law_units_are_nearest(x: Double)
    ensures
        rounds(x.units() as i32, x),
{
    if x.finite() && within(real_value(x), 2000000000real) {
        let m = x.significand() as int;
        let e = x.exponent();
        lemma_size_positive(x);
        if e >= 0 {
            lemma_product_as_real(m, pow2(e as nat) as int);
        } else {
            let n = (-e) as nat;
            let half = pow2((n - 1) as nat) as int;
            let whole = pow2(n) as int;
            lemma_pow2_unfold(n);
            lemma_pow2_pos((n - 1) as nat);
            let k = (m + half) / whole;
            lemma_fundamental_div_mod(m + half, whole);
            assert(whole * k - half <= m < whole * k + half);
            let p = whole as real;
            let q = power(e);
            assert(p * q == 1real) by (nonlinear_arith)
                requires
                    p > 0real,
                    q == 1real / p,
            ;
            lemma_power_positive(e);
            lemma_product_as_real(whole, k);
            let r = k as real;
            let h = half as real;
            assert(p == 2real * h);
            lemma_scaled_ordered(p * r - h, m as real, q);
            lemma_scaled_ordered(m as real, p * r + h, q);
            lemma_commutes(p, r);
            lemma_associates(r, p, q);
            assert(r * 1real == r);
            lemma_distributes(r * p, h, q);
            lemma_distributes(r * p, -h, q);
            lemma_negated(h, q);
            assert(h * q == 1real / 2real) by {
                lemma_distributes(h, h, q);
            }
        }
        let w = x.whole();
        assert(within(w as real - real_value(x), 1real / 2real));
        assert(-2000000001 <= w <= 2000000001);
    }
}

// ---------------------------------------------------------------------------
// Messages as values
// ---------------------------------------------------------------------------

/// A player in a state message, as a value, has its own fields.
pub proof fn law_player_state_value(p: PlayerState)
    ensures
        p@.id == p.id@,
        p@.name == p.name@,
        p@.color == p.color@,
        p@.x == p.x,
        p@.y == p.y,
        p@.vx == p.vx,
        p@.vy == p.vy,
        p@.seq == p.seq,
        p@.ready == p.ready,
{
}

/// The campaign in a state message, as a value, has its own fields.
pub proof fn law_campaign_state_value(c: CampaignState)
    ensures
        c@.phase == c.phase@,
        c@.level == c.level,
        c@.levels == c.levels,
        c@.walls == c.walls@,
        c@.enemies == c.enemies@,
        c@.items == c.items@,
        c@.exit == c.exit,
        c@.in_zone == c.in_zone,
        c@.total == c.total,
{
}

/// A message, as a value, has its own fields.
pub proof fn law_message_value(m: ServerMsg)
    ensures
        match m {
            ServerMsg::Welcome { id, idx, tick } => m@ == (ServerMsgView::Welcome {
                id: id@,
                idx,
                tick,
            }),
            ServerMsg::State { tick, players, campaign } => {
                &&& m@ is State
                &&& m@->State_tick == tick
                &&& m@->State_players.len() == players@.len()
                &&& forall|i: int|
                    0 <= i < players@.len() ==> #[trigger] m@->State_players[i] == players@[i]@
                &&& m@->campaign is Some <==> campaign is Some
                &&& campaign is Some ==> m@->campaign->0 == campaign->0@
            },
            ServerMsg::Level { index, levels, walls, enemies, items, exit } => m@ == (
            ServerMsgView::Level {
                index,
                levels,
                walls: walls@,
                enemies: enemies@,
                items: items@,
                exit,
            }),
            ServerMsg::Campaign { phase, level } => m@ == (ServerMsgView::Campaign {
                phase: phase@,
                level,
            }),
            ServerMsg::PlayerJoin { id, idx, name, color } => m@ == (ServerMsgView::PlayerJoin {
                id: id@,
                idx,
                name: name@,
                color: color@,
            }),
            ServerMsg::PlayerLeave { id } => m@ == (ServerMsgView::PlayerLeave { id: id@ }),
            ServerMsg::Pong { ts } => m@ == (ServerMsgView::Pong { ts }),
            ServerMsg::Bump { id, other, impulse } => m@ == (ServerMsgView::Bump {
                id: id@,
                other: other@,
                impulse,
            }),
        },
{
}

// ---------------------------------------------------------------------------
// The state
// ---------------------------------------------------------------------------

/// The state of a room shows its tick and all players in order, each with their own id, name,
/// colour, place, velocity, acknowledged input and ready flag. The campaign is shown while
/// somebody is there.
pub proof fn law_state_shows_players(room: RoomView)
    ensures
        room.state_msg() matches ServerMsgView::State { tick, players, campaign } && {
            &&& tick == room.tick
            &&& players.len() == room.players.len()
            &&& forall|i: int|
                0 <= i < players.len() ==> {
                    let p = room.players[i];
                    &&& (#[trigger] players[i]).id == p.id@
                    &&& players[i].name == p.name@
                    &&& players[i].color == p.color@
                    &&& players[i].x == p.body.pos.x
                    &&& players[i].y == p.body.pos.y
                    &&& players[i].vx == p.body.vel.x
                    &&& players[i].vy == p.body.vel.y
                    &&& players[i].seq == p.last_seq
                    &&& players[i].ready == p.ready
                }
            &&& campaign is Some <==> room.players.len() > 0
            &&& campaign is Some ==> campaign->0 == room.campaign_state()
        },
{
}

/// Whether a wall is shown where it is, in whole units.
pub open spec fn wall_shown(w: WallState, body: Body) -> bool {
    rounds(w.x, body.pos.x) && rounds(w.y, body.pos.y) && rounds(w.r, body.r)
}

/// Whether the exit is shown where it is, in whole units.
pub open spec fn exit_shown(z: ZoneState, exit: ExitZone) -> bool {
    rounds(z.x, exit.x) && rounds(z.y, exit.y) && rounds(z.r, exit.r)
}

/// The campaign in the state shows the phase by its name, the level that is being played with its
/// walls and exit in whole units, and its enemies and items as they are, each in its own place.
/// Without a level nothing but the phase and the number of players is shown.
pub proof fn law_campaign_shows_level(room: RoomView)
    ensures
        ({
            let c = room.campaign_state();
            &&& room.phase == Phase::Lobby ==> c.phase == "lobby"@
            &&& room.phase == Phase::Playing ==> c.phase == "playing"@
            &&& room.phase == Phase::Victory ==> c.phase == "victory"@
            &&& c.levels == 3
            &&& room.players.len() < 256 ==> c.total == room.players.len()
            &&& room.level is None ==> {
                &&& c.level == 0
                &&& c.walls.len() == 0
                &&& c.enemies.len() == 0
                &&& c.items.len() == 0
                &&& c.exit.x == 0 && c.exit.y == 0 && c.exit.r == 0
                &&& c.in_zone == 0
            }
            &&& room.level matches Some(l) ==> {
                &&& c.level == l.index
                &&& c.walls.len() == l.walls.len()
                &&& forall|j: int|
                    0 <= j < l.walls.len() ==> wall_shown(#[trigger] c.walls[j], l.walls[j])
                &&& c.enemies.len() == l.enemies.len()
                &&& forall|k: int|
                    0 <= k < l.enemies.len() ==> {
                        let e = l.enemies[k];
                        &&& (#[trigger] c.enemies[k]).x == e.body.pos.x
                        &&& c.enemies[k].y == e.body.pos.y
                        &&& c.enemies[k].r == e.body.r
                        &&& c.enemies[k].hp == e.hp
                        &&& c.enemies[k].alive == e.alive
                    }
                &&& c.items.len() == l.items.len()
                &&& forall|t: int|
                    0 <= t < l.items.len() ==> {
                        &&& (#[trigger] c.items[t]).x == l.items[t].x
                        &&& c.items[t].y == l.items[t].y
                        &&& c.items[t].collected == l.items[t].collected
                    }
                &&& exit_shown(c.exit, l.exit)
            }
        }),
{
    if let Some(l) = room.level {
        let c = room.campaign_state();
        assert forall|j: int| 0 <= j < l.walls.len() implies wall_shown(
            #[trigger] c.walls[j],
            l.walls[j],
        ) by {
            law_units_are_nearest(l.walls[j].pos.x);
            law_units_are_nearest(l.walls[j].pos.y);
            law_units_are_nearest(l.walls[j].r);
        }
        law_units_are_nearest(l.exit.x);
        law_units_are_nearest(l.exit.y);
        law_units_are_nearest(l.exit.r);
    }
}

/// How many stand in the exit is counted one by one: with one more player it is one more if that
/// player stands clearly in the exit, and the same if clearly outside.
pub proof fn law_zone_counts_players(room: RoomView)
    requires
        room.level is Some,
        0 < room.players.len() < 256,
        ({
            let exit = room.level->0.exit;
            let pos = room.players.last().body.pos;
            moderate(exit.x) && moderate(exit.y) && moderate(exit.r) && moderate(pos.x) && moderate(
                pos.y,
            )
        }),
    ensures
        ({
            let fewer = RoomView { players: room.players.drop_last(), ..room };
            let exit = room.level->0.exit;
            let pos = room.players.last().body.pos;
            let dx = real_value(pos.x) - real_value(exit.x);
            let dy = real_value(pos.y) - real_value(exit.y);
            let square = dx * dx + dy * dy;
            let r = size(exit.r) * size(exit.r);
            let margin = 60real * slack(r + 1real);
            let grown = room.campaign_state().in_zone - fewer.campaign_state().in_zone;
            &&& square < r - margin ==> grown == 1
            &&& square > r + margin ==> grown == 0
            &&& fewer.players.len() == 0 ==> fewer.campaign_state().in_zone == 0
        }),
{
    let exit = room.level->0.exit;
    let pos = room.players.last().body.pos;
    law_exit_is_a_disc(exit, pos.x, pos.y);
    let n = (room.players.len() - 1) as nat;
    lemma_arrived_first(room.players, exit, n);
    lemma_arrived(room.players, exit, n);
}

proof fn lemma_arrived_first(players: Seq<Player>, exit: ExitZone, n: nat)
    requires
        n < players.len(),
    ensures
        arrived(players.drop_last(), exit, n) == arrived(
            players,
            exit,
            n,
        ),
    decreases n,
{
    if n > 0 {
        lemma_arrived_first(players, exit, (n - 1) as nat);
    }
}

// ---------------------------------------------------------------------------
// The level
// ---------------------------------------------------------------------------

/// The message that describes a level shows its index and that there are three, and its walls,
/// enemies, items and exit in whole units, each in its own place and with its own number.
pub proof fn law_level_message_shows(l: LevelView)
    ensures
        level_msg(l) matches ServerMsgView::Level { index, levels, walls, enemies, items, exit } && {
            &&& index == l.index
            &&& levels == 3
            &&& walls.len() == l.walls.len()
            &&& forall|j: int|
                0 <= j < l.walls.len() ==> wall_shown(#[trigger] walls[j], l.walls[j])
            &&& enemies.len() == l.enemies.len()
            &&& forall|k: int|
                0 <= k < l.enemies.len() ==> {
                    let e = l.enemies[k];
                    &&& k < 256 ==> (#[trigger] enemies[k]).i == k
                    &&& rounds(enemies[k].x, e.body.pos.x)
                    &&& rounds(enemies[k].y, e.body.pos.y)
                    &&& rounds(enemies[k].r, e.body.r)
                    &&& enemies[k].hp == e.hp
                }
            &&& items.len() == l.items.len()
            &&& forall|t: int|
                0 <= t < l.items.len() ==> {
                    &&& t < 256 ==> (#[trigger] items[t]).i == t
                    &&& rounds(items[t].x, l.items[t].x)
                    &&& rounds(items[t].y, l.items[t].y)
                }
            &&& exit_shown(exit, l.exit)
        },
{
    let m = level_msg(l);
    assert forall|j: int| 0 <= j < l.walls.len() implies wall_shown(
        #[trigger] m->walls[j],
        l.walls[j],
    ) by {
        law_units_are_nearest(l.walls[j].pos.x);
        law_units_are_nearest(l.walls[j].pos.y);
        law_units_are_nearest(l.walls[j].r);
    }
    assert forall|k: int| 0 <= k < l.enemies.len() implies {
        let e = l.enemies[k];
        &&& k < 256 ==> (#[trigger] m->enemies[k]).i == k
        &&& rounds(m->enemies[k].x, e.body.pos.x)
        &&& rounds(m->enemies[k].y, e.body.pos.y)
        &&& rounds(m->enemies[k].r, e.body.r)
        &&& m->enemies[k].hp == e.hp
    } by {
        law_units_are_nearest(l.enemies[k].body.pos.x);
        law_units_are_nearest(l.enemies[k].body.pos.y);
        law_units_are_nearest(l.enemies[k].body.r);
    }
    assert forall|t: int| 0 <= t < l.items.len() implies {
        &&& t < 256 ==> (#[trigger] m->items[t]).i == t
        &&& rounds(m->items[t].x, l.items[t].x)
        &&& rounds(m->items[t].y, l.items[t].y)
    } by {
        law_units_are_nearest(l.items[t].x);
        law_units_are_nearest(l.items[t].y);
    }
    law_units_are_nearest(l.exit.x);
    law_units_are_nearest(l.exit.y);
    law_units_are_nearest(l.exit.r);
}

} // verus!
