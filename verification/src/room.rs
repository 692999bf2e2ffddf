//! A room: its players, the campaign that they play, and what happens in one step.

use crate::arena::law_spawn_angles;
use crate::bounce::{real_value, within};
use crate::double::{
    encoded, law_plus_commutes, law_plus_ordered, lemma_magnitude_parts, lemma_plus_zero, Double,
};
use crate::exact::{
    lemma_infinite_length, lemma_over_range, lemma_plus_overflow, lemma_root_range,
    lemma_times_above, lemma_times_range,
};
use crate::level::{arena, Enemy, ExitZone, Item, Level, LevelView, CAMPAIGN_LEVELS};
use crate::physics::{
    before, has_place, in_order, integrate, law_player_bounds, law_step_keeps_place,
    law_walls_contain, lemma_direction, lemma_exponents_ordered, lemma_hits_in_order,
    lemma_paired_keeps, lemma_paired_place, lemma_pressed_keeps, lemma_pressed_place, lemma_square,
    norm_squared, paired, pillars, places, press_magnitudes, pressed, resolve_pairs, resolve_row,
    resolve_walls, rink_pillars, square_norm, Body, Hit, Vec2, ACCEL, ARENA_H, ARENA_W, ONE,
    PLAYER_R, STEP, TWO,
};
use crate::protocol::{
    messages, CampaignState, CampaignStateView, EnemyFull, EnemyState, ItemFull, ItemState,
    PlayerState, PlayerStateView, ServerMsg, ServerMsgView, WallState, ZoneState,
};
use crate::rounding::lemma_pow2_values;
use vstd::arithmetic::div_mod::{lemma_fundamental_div_mod_converse, lemma_mul_mod_noop_left};
use vstd::prelude::*;

verus! {

/// The number of players that a room has place for.
pub const MAX_PLAYERS: usize = 10;

/// Players have indices that fit into a byte, so no more than this many can be told apart.
pub const INDEX_LIMIT: usize = 256;

/// Spreads the tick over the bits of a campaign seed.
pub const SEED_MIX: u64 = 0x2545_F491_4F6C_DD1D;

// Each of the following is the binary64 encoding of the number beside it.

/// 10: the number of places on the spawn ring.
pub const RING_PLACES: u64 = 0x4024_0000_0000_0000;

/// 3.14159...: half the angle of a full turn.
pub const PI: u64 = 0x4009_21FB_5444_2D18;

/// 200: the radius of the spawn ring.
pub const RING_R: u64 = 0x4069_0000_0000_0000;

/// 16: no coordinate of an input is larger.
pub const INPUT_BOUND: u64 = 0x4030_0000_0000_0000;

/// 30: pillars are bumped by hits harder than this.
pub const PILLAR_BUMP: u64 = 0x403E_0000_0000_0000;

/// 20: players and enemies are bumped by hits harder than this.
pub const PLAYER_BUMP: u64 = 0x4034_0000_0000_0000;

/// 40: the walls of the rink are bumped by hits harder than this.
pub const WALL_BUMP: u64 = 0x4044_0000_0000_0000;

/// The phases of a campaign. It starts from the lobby when everybody is ready, runs through its
/// levels, and rests in victory until everybody is ready again.
#[derive(Clone, Copy, PartialEq, Eq, Structural, Debug)]
pub enum Phase {
    Lobby,
    Playing,
    Victory,
}

/// The direction that a player steers in, and the number of the input that it came with.
#[derive(Clone, Copy, Debug)]
pub struct PlayerInput {
    pub x: Double,
    pub y: Double,
    pub seq: u32,
}

impl Default for PlayerInput {
    /// No input yet.
    fn default() -> (input: PlayerInput)
        ensures
            input == (PlayerInput { x: encoded(0), y: encoded(0), seq: 0 }),
    {
        PlayerInput { x: encoded(0), y: encoded(0), seq: 0 }
    }
}

/// Somebody in a room.
#[derive(Debug)]
pub struct Player {
    pub id: String,
    /// Small number that tells the players of a room apart.
    pub idx: u8,
    pub name: String,
    pub color: String,
    pub body: Body,
    pub input: PlayerInput,
    /// The number of the last input that was applied.
    pub last_seq: u32,
    pub ready: bool,
}

/// A room. Players are kept in the order in which they joined.
#[derive(Debug)]
pub struct Room {
    pub id: String,
    pub players: Vec<Player>,
    pub pillars: Vec<Body>,
    pub tick: u32,
    pub phase: Phase,
    /// The current level while the campaign is being played.
    pub level: Option<Level>,
    /// What the levels of the current campaign are laid out from.
    pub campaign_seed: u64,
}

// ---------------------------------------------------------------------------
// Model
// ---------------------------------------------------------------------------

pub ghost struct RoomView {
    pub id: Seq<char>,
    pub players: Seq<Player>,
    pub pillars: Seq<Body>,
    pub tick: u32,
    pub phase: Phase,
    pub level: Option<LevelView>,
    pub campaign_seed: u64,
}

impl View for Room {
    type V = RoomView;

    open spec fn view(&self) -> RoomView {
        RoomView {
            id: self.id@,
            players: self.players@,
            pillars: self.pillars@,
            tick: self.tick,
            phase: self.phase,
            level: match self.level {
                Some(l) => Some(l@),
                None => None,
            },
            campaign_seed: self.campaign_seed,
        }
    }
}

/// Whether the player at `i` has the given id.
pub open spec fn sits(players: Seq<Player>, i: int, id: Seq<char>) -> bool {
    0 <= i < players.len() && players[i].id@ == id
}

/// Whether somebody has the given id.
pub open spec fn present(players: Seq<Player>, id: Seq<char>) -> bool {
    exists|i: int| sits(players, i, id)
}

/// Where the player with the given id is, where there is one.
pub open spec fn seat(players: Seq<Player>, id: Seq<char>) -> int {
    choose|i: int| sits(players, i, id)
}

/// Ids and indices tell players apart.
pub open spec fn distinct(players: Seq<Player>) -> bool {
    &&& forall|i: int, j: int|
        0 <= i < j < players.len() ==> #[trigger] players[i].id@ != #[trigger] players[j].id@
    &&& forall|i: int, j: int|
        0 <= i < j < players.len() ==> #[trigger] players[i].idx != #[trigger] players[j].idx
}

/// Whether somebody else than the player with the given id has the index.
pub open spec fn index_taken(players: Seq<Player>, id: Seq<char>, idx: int) -> bool {
    exists|i: int|
        0 <= i < players.len() && players[i].id@ != id && #[trigger] players[i].idx == idx
}

/// Whether the index is the smallest that nobody else has.
pub open spec fn is_free_index(players: Seq<Player>, id: Seq<char>, idx: int) -> bool {
    &&& 0 <= idx
    &&& !index_taken(players, id, idx)
    &&& forall|v: int| 0 <= v < idx ==> index_taken(players, id, v)
}

/// The smallest index that nobody else has.
pub open spec fn free_index(players: Seq<Player>, id: Seq<char>) -> u8 {
    (choose|idx: int| is_free_index(players, id, idx)) as u8
}

pub open spec fn all_ready(players: Seq<Player>) -> bool {
    &&& players.len() > 0
    &&& forall|i: int| 0 <= i < players.len() ==> (#[trigger] players[i]).ready
}

/// Players with their ready flags cleared.
pub open spec fn unready(players: Seq<Player>) -> Seq<Player> {
    players.map_values(|p: Player| Player { ready: false, ..p })
}

/// Whether everybody stands in the exit.
pub open spec fn all_in_exit(players: Seq<Player>, level: LevelView) -> bool {
    forall|i: int|
        0 <= i < players.len() ==> level.exit.holds(
            (#[trigger] players[i]).body.pos.x,
            players[i].body.pos.y,
        )
}

/// The angle at which the `index`-th player to join spawns.
pub open spec fn ring_angle(index: nat) -> Double {
    crate::double::compose(false, crate::rounding::nearest(index, 0, false)).times(
        encoded(TWO).times(encoded(PI)).over(encoded(RING_PLACES)),
    )
}

/// The place on the spawn ring in a direction.
pub open spec fn ring_point(heading: Vec2) -> Vec2 {
    Vec2 {
        x: encoded(ARENA_W).over(encoded(TWO)).plus(heading.x.times(encoded(RING_R))),
        y: encoded(ARENA_H).over(encoded(TWO)).plus(heading.y.times(encoded(RING_R))),
    }
}

/// Input of at most unit length: longer input is scaled down, shorter is kept.
pub open spec fn normalised(x: Double, y: Double) -> Vec2 {
    let length = square_norm(x, y).root();
    if length.gt(encoded(ONE)) {
        Vec2 { x: x.over(length), y: y.over(length) }
    } else {
        Vec2 { x, y }
    }
}

/// What the levels of a campaign are laid out from: the tick that it starts at and the number of
/// players.
pub open spec fn seed_at(tick: u32, count: nat) -> u64 {
    ((tick as int * SEED_MIX as int) % 0x1_0000_0000_0000_0000) as u64 ^ ((count + 1)
        % 0x1_0000_0000_0000_0000) as u64
}

/// Somebody who just joined.
pub open spec fn new_player(
    id: String,
    idx: u8,
    name: String,
    color: String,
    heading: Vec2,
) -> Player {
    let at = ring_point(heading);
    Player {
        id,
        idx,
        name,
        color,
        body: Body::player_at(at.x, at.y),
        input: PlayerInput { x: encoded(0), y: encoded(0), seq: 0 },
        last_seq: 0,
        ready: false,
    }
}

pub open spec fn wall_state(w: Body) -> WallState {
    WallState {
        x: w.pos.x.units() as i32,
        y: w.pos.y.units() as i32,
        r: w.r.units() as i32,
    }
}

pub open spec fn enemy_full(k: int, e: Enemy) -> EnemyFull {
    EnemyFull {
        i: (k % 256) as u8,
        x: e.body.pos.x.units() as i32,
        y: e.body.pos.y.units() as i32,
        r: e.body.r.units() as i32,
        hp: e.hp,
    }
}

pub open spec fn item_full(k: int, t: Item) -> ItemFull {
    ItemFull { i: (k % 256) as u8, x: t.x.units() as i32, y: t.y.units() as i32 }
}

pub open spec fn zone_state(z: ExitZone) -> ZoneState {
    ZoneState { x: z.x.units() as i32, y: z.y.units() as i32, r: z.r.units() as i32 }
}

/// The message that describes a level, in whole units.
pub open spec fn level_msg(l: LevelView) -> ServerMsgView {
    ServerMsgView::Level {
        index: l.index,
        levels: CAMPAIGN_LEVELS,
        walls: l.walls.map_values(|w: Body| wall_state(w)),
        enemies: Seq::new(l.enemies.len(), |k: int| enemy_full(k, l.enemies[k])),
        items: Seq::new(l.items.len(), |k: int| item_full(k, l.items[k])),
        exit: zone_state(l.exit),
    }
}

impl Player {
    /// Whether the player moves, or wants to.
    pub open spec fn moving(self) -> bool {
        ||| !self.input.x.equals(encoded(0))
        ||| !self.input.y.equals(encoded(0))
        ||| square_norm(self.body.vel.x, self.body.vel.y).gt(encoded(ONE))
    }
}

impl RoomView {
    pub open spec fn wf(self) -> bool {
        &&& distinct(self.players)
        &&& self.players.len() <= INDEX_LIMIT
        &&& forall|j: int| 0 <= j < self.pillars.len() ==> (#[trigger] self.pillars[j]).is_static
        &&& self.phase == Phase::Playing <==> self.level is Some
        &&& self.level matches Some(l) ==> l.wf() && l.index < CAMPAIGN_LEVELS
    }

    /// Whether anything moves: a player, or the enemies of a level.
    pub open spec fn in_motion(self) -> bool {
        self.phase == Phase::Playing || exists|i: int|
            0 <= i < self.players.len() && (#[trigger] self.players[i]).moving()
    }

    /// Back to the lobby.
    pub open spec fn reset(self) -> RoomView {
        RoomView { phase: Phase::Lobby, level: None, players: unready(self.players), ..self }
    }

    /// The room without a player. When the last one leaves, it goes back to the lobby.
    pub open spec fn without(self, id: Seq<char>) -> RoomView {
        let rest = if present(self.players, id) {
            RoomView { players: self.players.remove(seat(self.players, id)), ..self }
        } else {
            self
        };
        if rest.players.len() == 0 {
            rest.reset()
        } else {
            rest
        }
    }

    /// The room with a player in it, instead of the one with the same id if there is one.
    pub open spec fn with(self, p: Player) -> RoomView {
        let players = if present(self.players, p.id@) {
            self.players.update(seat(self.players, p.id@), p)
        } else {
            self.players.push(p)
        };
        RoomView { players, ..self }
    }

    /// The room with a changed player; unchanged when the player is not there.
    pub open spec fn changed(self, id: Seq<char>, change: spec_fn(Player) -> Player) -> RoomView {
        if present(self.players, id) {
            let i = seat(self.players, id);
            RoomView { players: self.players.update(i, change(self.players[i])), ..self }
        } else {
            self
        }
    }

    /// The room at the first level of a new campaign; unchanged while one is being played.
    pub open spec fn started(self) -> RoomView {
        if self.phase == Phase::Playing {
            self
        } else {
            let seed = seed_at(self.tick, self.players.len());
            RoomView {
                phase: Phase::Playing,
                level: Some(arena(0, seed)),
                campaign_seed: seed,
                ..self
            }
        }
    }
}

/// The bodies of players.
pub open spec fn bodies_of(players: Seq<Player>) -> Seq<Body> {
    players.map_values(|p: Player| p.body)
}

/// Players with other bodies.
pub open spec fn with_bodies(players: Seq<Player>, bodies: Seq<Body>) -> Seq<Player> {
    Seq::new(players.len(), |i: int| Player { body: bodies[i], ..players[i] })
}

/// Adds a bump to what is sent, if it is harder than the limit.
pub open spec fn bump_over(
    sent: Seq<ServerMsgView>,
    limit: u64,
    id: Seq<char>,
    other: Seq<char>,
    impulse: Double,
) -> Seq<ServerMsgView> {
    if impulse.gt(encoded(limit)) {
        sent.push(ServerMsgView::Bump { id, other, impulse })
    } else {
        sent
    }
}

/// What the first `n` hits of one body against pillars add.
pub open spec fn pillar_row(
    sent: Seq<ServerMsgView>,
    id: Seq<char>,
    magnitudes: Seq<Double>,
    n: nat,
) -> Seq<ServerMsgView>
    decreases n,
{
    if n == 0 {
        sent
    } else {
        bump_over(
            pillar_row(sent, id, magnitudes, (n - 1) as nat),
            PILLAR_BUMP,
            id,
            "pillar"@,
            magnitudes[n - 1],
        )
    }
}

/// The bumps of the first `n` players against pillars.
pub open spec fn pillar_bumps(
    players: Seq<Player>,
    pillars: Seq<Body>,
    n: nat,
) -> Seq<ServerMsgView>
    decreases n,
{
    if n == 0 {
        Seq::empty()
    } else {
        pillar_row(
            pillar_bumps(players, pillars, (n - 1) as nat),
            players[n - 1].id@,
            press_magnitudes(players[n - 1].body, pillars),
            pillars.len(),
        )
    }
}

/// What the first `n` collisions among players add.
pub open spec fn pair_bumps(
    sent: Seq<ServerMsgView>,
    players: Seq<Player>,
    hits: Seq<Hit>,
    n: nat,
) -> Seq<ServerMsgView>
    decreases n,
{
    if n == 0 {
        sent
    } else {
        let hit = hits[n - 1];
        bump_over(
            pair_bumps(sent, players, hits, (n - 1) as nat),
            PLAYER_BUMP,
            players[hit.first as int].id@,
            players[hit.second as int].id@,
            hit.magnitude,
        )
    }
}

/// What the collisions of the first `n` players with the walls of the rink add.
pub open spec fn wall_bumps(
    sent: Seq<ServerMsgView>,
    players: Seq<Player>,
    n: nat,
) -> Seq<ServerMsgView>
    decreases n,
{
    if n == 0 {
        sent
    } else {
        bump_over(
            wall_bumps(sent, players, (n - 1) as nat),
            WALL_BUMP,
            players[n - 1].id@,
            "wall"@,
            players[n - 1].body.walled().1,
        )
    }
}

/// What the hits that the first `n` players took from enemies add.
pub open spec fn enemy_bumps(
    sent: Seq<ServerMsgView>,
    players: Seq<Player>,
    impulses: Seq<Double>,
    n: nat,
) -> Seq<ServerMsgView>
    decreases n,
{
    if n == 0 {
        sent
    } else {
        bump_over(
            enemy_bumps(sent, players, impulses, (n - 1) as nat),
            PLAYER_BUMP,
            players[n - 1].id@,
            "enemy"@,
            impulses[n - 1],
        )
    }
}

impl Player {
    /// The player after a step under its input.
    pub open spec fn driven(self, damp: Double) -> Player {
        Player {
            body: self.body.integrated(
                self.input.x.times(encoded(ACCEL)),
                self.input.y.times(encoded(ACCEL)),
                encoded(STEP),
                damp,
            ),
            last_seq: self.input.seq,
            ..self
        }
    }

    /// The player after it met the pillars.
    pub open spec fn pressed(self, pillars: Seq<Body>) -> Player {
        Player { body: pressed(self.body, pillars, pillars.len()), ..self }
    }

    /// The player after the walls of the rink pushed it back.
    pub open spec fn walled(self) -> Player {
        Player { body: self.body.walled().0, ..self }
    }
}

/// A room after something happened in it, and what is sent because of it.
pub ghost struct Outcome {
    pub room: RoomView,
    pub sent: Seq<ServerMsgView>,
}

impl RoomView {
    /// The room with its players replaced.
    pub open spec fn peopled(self, players: Seq<Player>) -> RoomView {
        RoomView { players, ..self }
    }

    /// Everybody's motion in one step: input first, then pillars, then each other, then the walls
    /// of the rink.
    pub open spec fn moved(self, damp: Double) -> Outcome {
        let count = self.players.len();
        let driven = self.players.map_values(|p: Player| p.driven(damp));
        let pressed = driven.map_values(|p: Player| p.pressed(self.pillars));
        let crowd = paired(bodies_of(pressed), Seq::new(count, |i: int| true));
        let apart = with_bodies(pressed, crowd.bodies);
        let sent = pillar_bumps(driven, self.pillars, count);
        let sent = pair_bumps(sent, pressed, crowd.hits, crowd.hits.len());
        Outcome {
            room: self.peopled(apart.map_values(|p: Player| p.walled())),
            sent: wall_bumps(sent, apart, count),
        }
    }

    /// One step of the level: its enemies move and collide with the players, who then pick up
    /// items.
    pub open spec fn fought(self, sent: Seq<ServerMsgView>, damp: Double) -> Outcome {
        let level = self.level->0;
        let bodies = bodies_of(self.players);
        let clash = level.clash(bodies, damp);
        Outcome {
            room: RoomView {
                players: with_bodies(self.players, clash.players),
                level: Some(level.stepped(bodies, damp).offered(clash.players)),
                ..self
            },
            sent: enemy_bumps(sent, self.players, clash.impulses, self.players.len()),
        }
    }

    /// Whether the level is done: no enemy is left, and everybody stands in the exit.
    pub open spec fn level_done(self) -> bool {
        &&& self.level->0.cleared()
        &&& self.players.len() > 0
        &&& all_in_exit(self.players, self.level->0)
    }

    /// What a room whose level is done goes on to: the next level, or victory after the last.
    pub open spec fn advanced(self, sent: Seq<ServerMsgView>) -> Outcome {
        let next = (self.level->0.index + 1) as u8;
        if next >= CAMPAIGN_LEVELS {
            Outcome {
                room: RoomView {
                    phase: Phase::Victory,
                    level: None,
                    players: unready(self.players),
                    ..self
                },
                sent: sent.push(
                    ServerMsgView::Campaign { phase: "victory"@, level: CAMPAIGN_LEVELS },
                ),
            }
        } else {
            let level = arena(next, self.campaign_seed);
            Outcome {
                room: RoomView { level: Some(level), ..self },
                sent: sent.push(ServerMsgView::Campaign { phase: "playing"@, level: next }).push(
                    level_msg(level),
                ),
            }
        }
    }

    /// One step of the campaign.
    pub open spec fn campaigned(self, sent: Seq<ServerMsgView>, damp: Double) -> Outcome {
        let fought = self.fought(sent, damp);
        if fought.room.level_done() {
            fought.room.advanced(fought.sent)
        } else {
            fought
        }
    }

    /// One step of everything.
    #[verifier::opaque]
    pub open spec fn ticked(self, damp: Double) -> Outcome {
        let next = RoomView { tick: ((self.tick + 1) % 0x1_0000_0000) as u32, ..self };
        let moved = next.moved(damp);
        if self.phase == Phase::Playing {
            moved.room.campaigned(moved.sent, damp)
        } else {
            moved
        }
    }
}

/// How many of the first `n` players stand in the exit.
pub open spec fn arrived(players: Seq<Player>, exit: ExitZone, n: nat) -> nat
    decreases n,
{
    if n == 0 {
        0
    } else {
        arrived(players, exit, (n - 1) as nat) + if exit.holds(
            players[n - 1].body.pos.x,
            players[n - 1].body.pos.y,
        ) {
            1nat
        } else {
            0nat
        }
    }
}

pub open spec fn phase_name(phase: Phase) -> Seq<char> {
    match phase {
        Phase::Lobby => "lobby"@,
        Phase::Playing => "playing"@,
        Phase::Victory => "victory"@,
    }
}

pub open spec fn player_state(p: Player) -> PlayerStateView {
    PlayerStateView {
        id: p.id@,
        name: p.name@,
        color: p.color@,
        x: p.body.pos.x,
        y: p.body.pos.y,
        vx: p.body.vel.x,
        vy: p.body.vel.y,
        seq: p.last_seq,
        ready: p.ready,
    }
}

pub open spec fn enemy_state(e: Enemy) -> EnemyState {
    EnemyState { x: e.body.pos.x, y: e.body.pos.y, r: e.body.r, hp: e.hp, alive: e.alive }
}

pub open spec fn item_state(t: Item) -> ItemState {
    ItemState { x: t.x, y: t.y, collected: t.collected }
}

impl RoomView {
    /// The campaign as clients see it. Without a level there is nothing in it but the phase and
    /// the number of players.
    pub open spec fn campaign_state(self) -> CampaignStateView {
        let total = (self.players.len() % 256) as u8;
        match self.level {
            Some(l) => CampaignStateView {
                phase: phase_name(self.phase),
                level: l.index,
                levels: CAMPAIGN_LEVELS,
                walls: l.walls.map_values(|w: Body| wall_state(w)),
                enemies: l.enemies.map_values(|e: Enemy| enemy_state(e)),
                items: l.items.map_values(|t: Item| item_state(t)),
                exit: zone_state(l.exit),
                in_zone: (arrived(self.players, l.exit, self.players.len()) % 256) as u8,
                total,
            },
            None => CampaignStateView {
                phase: phase_name(self.phase),
                level: 0,
                levels: CAMPAIGN_LEVELS,
                walls: Seq::empty(),
                enemies: Seq::empty(),
                items: Seq::empty(),
                exit: ZoneState { x: 0, y: 0, r: 0 },
                in_zone: 0,
                total,
            },
        }
    }

    /// The state of the room as clients see it. An empty room has no campaign to show.
    pub open spec fn state_msg(self) -> ServerMsgView {
        ServerMsgView::State {
            tick: self.tick,
            players: self.players.map_values(|p: Player| player_state(p)),
            campaign: if self.players.len() == 0 {
                None
            } else {
                Some(self.campaign_state())
            },
        }
    }
}

// ---------------------------------------------------------------------------
// Players come and go
// ---------------------------------------------------------------------------

/// A seat is found by its id, and there is only one.
pub(crate) proof fn lemma_seat(players: Seq<Player>, i: int, id: Seq<char>)
    requires
        distinct(players),
        sits(players, i, id),
    ensures
        present(players, id),
        seat(players, id) == i,
{
    let k = seat(players, id);
    assert(sits(players, k, id));
    if k < i {
        assert(players[k].id@ != players[i].id@);
    } else if i < k {
        assert(players[i].id@ != players[k].id@);
    }
}

/// Players stay distinct while they keep their ids and indices.
proof fn lemma_distinct_kept(before: Seq<Player>, after: Seq<Player>)
    requires
        distinct(before),
        after.len() == before.len(),
        forall|i: int|
            0 <= i < before.len() ==> (#[trigger] after[i]).id == before[i].id && after[i].idx
                == before[i].idx,
    ensures
        distinct(after),
{
    assert forall|i: int, j: int| 0 <= i < j < after.len() implies #[trigger] after[i].id@
        != #[trigger] after[j].id@ by {
        assert(before[i].id@ != before[j].id@);
    }
    assert forall|i: int, j: int| 0 <= i < j < after.len() implies #[trigger] after[i].idx
        != #[trigger] after[j].idx by {
        assert(before[i].idx != before[j].idx);
    }
}

/// Players stay distinct when one of them leaves.
pub(crate) proof fn lemma_distinct_without(players: Seq<Player>, k: int)
    requires
        distinct(players),
        0 <= k < players.len(),
    ensures
        distinct(players.remove(k)),
{
    let after = players.remove(k);
    assert forall|i: int, j: int| 0 <= i < j < after.len() implies #[trigger] after[i].id@
        != #[trigger] after[j].id@ by {
        let a = if i < k {
            i
        } else {
            i + 1
        };
        let b = if j < k {
            j
        } else {
            j + 1
        };
        assert(players[a].id@ != players[b].id@);
    }
    assert forall|i: int, j: int| 0 <= i < j < after.len() implies #[trigger] after[i].idx
        != #[trigger] after[j].idx by {
        let a = if i < k {
            i
        } else {
            i + 1
        };
        let b = if j < k {
            j
        } else {
            j + 1
        };
        assert(players[a].idx != players[b].idx);
    }
}

/// As many different small numbers as there are cannot all be held by fewer players.
proof fn lemma_pigeonhole(held: Seq<int>, n: nat)
    requires
        forall|v: int| 0 <= v < n ==> held.contains(v),
    ensures
        n <= held.len(),
    decreases n,
{
    if n > 0 {
        let v = n - 1;
        assert(held.contains(v));
        let k = choose|k: int| 0 <= k < held.len() && held[k] == v;
        let rest = held.remove(k);
        assert forall|u: int| 0 <= u < n - 1 implies rest.contains(u) by {
            assert(held.contains(u));
            let m = choose|m: int| 0 <= m < held.len() && held[m] == u;
            if m < k {
                assert(rest[m] == u);
            } else {
                assert(rest[m - 1] == u);
            }
        }
        lemma_pigeonhole(rest, (n - 1) as nat);
    }
}

/// There is a smallest index that nobody else has, while there are fewer players than indices.
pub(crate) proof fn lemma_free_index(players: Seq<Player>, id: Seq<char>)
    requires
        players.len() < INDEX_LIMIT,
    ensures
        is_free_index(players, id, free_index(players, id) as int),
{
    let v = lemma_free_index_from(players, id, 0);
    let w = choose|w: int| is_free_index(players, id, w);
    assert(is_free_index(players, id, w));
    assert(w == v);
}

proof fn lemma_free_index_from(players: Seq<Player>, id: Seq<char>, from: int) -> (v: int)
    requires
        players.len() < INDEX_LIMIT,
        0 <= from < INDEX_LIMIT,
        forall|u: int| 0 <= u < from ==> index_taken(players, id, u),
    ensures
        from <= v < INDEX_LIMIT,
        is_free_index(players, id, v),
    decreases INDEX_LIMIT - from,
{
    if index_taken(players, id, from) {
        let held = players.map_values(|p: Player| p.idx as int);
        assert forall|u: int| 0 <= u < from + 1 implies held.contains(u) by {
            assert(index_taken(players, id, u));
            let k = choose|k: int|
                0 <= k < players.len() && players[k].id@ != id && #[trigger] players[k].idx == u;
            assert(held[k] == u);
        }
        lemma_pigeonhole(held, (from + 1) as nat);
        lemma_free_index_from(players, id, from + 1)
    } else {
        from
    }
}

/// The angle at which the `index`-th player to join spawns. The direction of that angle is the
/// `heading` in [`Room::add_player`]. Each is a tenth of a turn further on.
pub fn spawn_angle(index: usize) -> (angle: Double)
    ensures
        angle == ring_angle(index as nat),
        index <= 1000 ==> within(
            real_value(angle) - index as int as real * 31415926535898real / 50000000000000real,
            1real / 1000000real,
        ),
{
    proof {
        if index <= 1000 {
            law_spawn_angles(index as nat);
        }
    }
    Double::from_u64(index as u64).times(
        encoded(TWO).times(encoded(PI)).over(encoded(RING_PLACES)),
    )
}

/// Walls in whole units.
fn wall_states(bodies: &Vec<Body>) -> (walls: Vec<WallState>)
    ensures
        walls@ == bodies@.map_values(|w: Body| wall_state(w)),
{
    let mut walls: Vec<WallState> = Vec::new();
    let mut i: usize = 0;
    while i < bodies.len()
        invariant
            i <= bodies@.len(),
            walls@.len() == i,
            forall|k: int| 0 <= k < i ==> #[trigger] walls@[k] == wall_state(bodies@[k]),
        decreases bodies@.len() - i,
    {
        let w: Body = bodies[i];
        walls.push(WallState { x: w.pos.x.to_units(), y: w.pos.y.to_units(), r: w.r.to_units() });
        i = i + 1;
    }
    assert(walls@ =~= bodies@.map_values(|w: Body| wall_state(w)));
    walls
}

/// An exit in whole units.
fn exit_state(exit: ExitZone) -> (zone: ZoneState)
    ensures
        zone == zone_state(exit),
{
    ZoneState { x: exit.x.to_units(), y: exit.y.to_units(), r: exit.r.to_units() }
}

impl Room {
    /// An empty room.
    pub fn new(id: String) -> (room: Room)
        ensures
            room@ == (RoomView {
                id: id@,
                players: Seq::empty(),
                pillars: rink_pillars(),
                tick: 0,
                phase: Phase::Lobby,
                level: None,
                campaign_seed: 0,
            }),
            room@.wf(),
    {
        Room {
            id,
            players: Vec::with_capacity(MAX_PLAYERS),
            pillars: pillars(),
            tick: 0,
            phase: Phase::Lobby,
            level: None,
            campaign_seed: 0,
        }
    }

    /// Whether the room has no place left.
    pub fn is_full(&self) -> (r: bool)
        ensures
            r == (self@.players.len() >= MAX_PLAYERS),
    {
        self.players.len() >= MAX_PLAYERS
    }

    /// Whether nobody is in the room.
    pub fn is_empty(&self) -> (r: bool)
        ensures
            r == (self@.players.len() == 0),
    {
        self.players.is_empty()
    }

    /// Where the player with the given id is.
    pub fn find(&self, id: &str) -> (at: Option<usize>)
        requires
            distinct(self@.players),
        ensures
            match at {
                Some(i) => present(self@.players, id@) && i == seat(self@.players, id@)
                    && i < self@.players.len(),
                None => !present(self@.players, id@),
            },
    {
        let wanted: String = id.to_owned();
        let mut i: usize = 0;
        while i < self.players.len()
            invariant
                i <= self.players@.len(),
                wanted@ == id@,
                distinct(self.players@),
                forall|k: int| 0 <= k < i ==> !sits(self.players@, k, id@),
            decreases self.players@.len() - i,
        {
            if self.players[i].id == wanted {
                proof {
                    lemma_seat(self.players@, i as int, id@);
                }
                return Some(i);
            }
            i = i + 1;
        }
        None
    }

    /// Whether a player moves or wants to. While a campaign is being played enemies move, so the
    /// room is never at rest.
    pub fn any_motion(&self) -> (r: bool)
        ensures
            r == self@.in_motion(),
    {
        if self.phase == Phase::Playing {
            return true;
        }
        let mut i: usize = 0;
        while i < self.players.len()
            invariant
                i <= self.players@.len(),
                forall|k: int| 0 <= k < i ==> !(#[trigger] self.players@[k]).moving(),
            decreases self.players@.len() - i,
        {
            let input: PlayerInput = self.players[i].input;
            let vel: Vec2 = self.players[i].body.vel;
            if !input.x.equals(encoded(0)) || !input.y.equals(encoded(0)) || norm_squared(
                vel.x,
                vel.y,
            ).gt(encoded(ONE)) {
                assert(self@.players[i as int].moving());
                return true;
            }
            i = i + 1;
        }
        false
    }

    /// The smallest index that nobody else holds.
    fn free_index(&self, id: &str) -> (idx: u8)
        requires
            self@.players.len() < INDEX_LIMIT,
        ensures
            idx == free_index(self@.players, id@),
            is_free_index(self@.players, id@, idx as int),
    {
        let wanted: String = id.to_owned();
        let mut idx: u8 = 0;
        loop
            invariant
                wanted@ == id@,
                self@.players.len() < INDEX_LIMIT,
                forall|v: int| 0 <= v < idx ==> index_taken(self@.players, id@, v),
            decreases 255 - idx,
        {
            let mut taken: bool = false;
            let mut i: usize = 0;
            while i < self.players.len()
                invariant
                    i <= self.players@.len(),
                    wanted@ == id@,
                    taken == exists|k: int|
                        0 <= k < i && self.players@[k].id@ != id@
                            && #[trigger] self.players@[k].idx == idx as int,
                decreases self.players@.len() - i,
            {
                if self.players[i].idx == idx && self.players[i].id != wanted {
                    taken = true;
                }
                i = i + 1;
            }
            if !taken {
                proof {
                    assert(is_free_index(self@.players, id@, idx as int));
                    let v = choose|v: int| is_free_index(self@.players, id@, v);
                    assert(is_free_index(self@.players, id@, v));
                    assert(v == idx);
                }
                return idx;
            }
            proof {
                let held = self.players@.map_values(|p: Player| p.idx as int);
                assert forall|v: int| 0 <= v < idx + 1 implies held.contains(v) by {
                    assert(index_taken(self@.players, id@, v));
                    let k = choose|k: int|
                        0 <= k < self@.players.len() && self@.players[k].id@ != id@
                            && #[trigger] self@.players[k].idx == v;
                    assert(held[k] == v);
                }
                lemma_pigeonhole(held, (idx + 1) as nat);
            }
            idx = idx + 1;
        }
    }

    /// Lets a player join at the spawn ring. `heading` is the direction of [`spawn_angle`] for
    /// the number of players in the room. Returns the player's index.
    pub fn add_player(
        &mut self,
        id: String,
        name: String,
        color: String,
        heading: Vec2,
    ) -> (idx: u8)
        requires
            old(self)@.wf(),
            old(self)@.players.len() < INDEX_LIMIT,
        ensures
            final(self)@ == old(self)@.with(new_player(id, idx, name, color, heading)),
            idx == free_index(old(self)@.players, id@),
            is_free_index(old(self)@.players, id@, idx as int),
            final(self)@.wf(),
    {
        let idx: u8 = self.free_index(id.as_str());
        let x: Double = encoded(ARENA_W).over(encoded(TWO)).plus(heading.x.times(encoded(RING_R)));
        let y: Double = encoded(ARENA_H).over(encoded(TWO)).plus(heading.y.times(encoded(RING_R)));
        let at: Option<usize> = self.find(id.as_str());
        let player = Player {
            id,
            idx,
            name,
            color,
            body: Body::new_player(x, y),
            input: PlayerInput::default(),
            last_seq: 0,
            ready: false,
        };
        match at {
            Some(i) => {
                self.players.set(i, player);
            },
            None => {
                self.players.push(player);
            },
        }
        proof {
            let before = old(self)@.players;
            let after = self@.players;
            assert forall|i: int| 0 <= i < after.len() && after[i].id@ != id@ implies
                #[trigger] after[i].idx != idx by {
                assert(before[i].id@ != id@);
                assert(before[i] == after[i]);
            }
            assert forall|i: int, j: int| 0 <= i < j < after.len() implies
                #[trigger] after[i].id@ != #[trigger] after[j].id@ by {
                if at is Some {
                    assert(sits(before, seat(before, id@), id@));
                    assert(before[i].id@ != before[j].id@);
                } else {
                    assert(!sits(before, i, id@));
                }
            }
            assert forall|i: int, j: int| 0 <= i < j < after.len() implies
                #[trigger] after[i].idx != #[trigger] after[j].idx by {
                assert(after[i].id@ != after[j].id@);
            }
        }
        idx
    }

    /// Lets a player leave. When the last one leaves, the room goes back to the lobby.
    pub fn remove_player(&mut self, id: &str)
        requires
            old(self)@.wf(),
        ensures
            final(self)@ == old(self)@.without(id@),
            final(self)@.wf(),
    {
        if let Some(i) = self.find(id) {
            self.players.remove(i);
            proof {
                lemma_distinct_without(old(self)@.players, i as int);
            }
        }
        if self.players.is_empty() {
            self.reset_to_lobby();
        }
    }

    fn reset_to_lobby(&mut self)
        ensures
            final(self)@ == old(self)@.reset(),
    {
        self.phase = Phase::Lobby;
        self.level = None;
        self.clear_ready();
    }

    fn clear_ready(&mut self)
        ensures
            final(self)@ == (RoomView { players: unready(old(self)@.players), ..old(self)@ }),
    {
        let mut i: usize = 0;
        while i < self.players.len()
            invariant
                i <= self.players@.len(),
                self@ == (RoomView { players: self.players@, ..old(self)@ }),
                self.players@.len() == old(self).players@.len(),
                forall|k: int|
                    0 <= k < i ==> #[trigger] self.players@[k] == (Player {
                        ready: false,
                        ..old(self).players@[k]
                    }),
                forall|k: int|
                    i <= k < self.players@.len() ==> #[trigger] self.players@[k]
                        == old(self).players@[k],
            decreases self.players@.len() - i,
        {
            self.players[i].ready = false;
            i = i + 1;
        }
        assert(self.players@ =~= unready(old(self)@.players));
    }

    fn all_ready(&self) -> (r: bool)
        ensures
            r == all_ready(self@.players),
    {
        let mut i: usize = 0;
        while i < self.players.len()
            invariant
                i <= self.players@.len(),
                forall|k: int| 0 <= k < i ==> (#[trigger] self.players@[k]).ready,
            decreases self.players@.len() - i,
        {
            if !self.players[i].ready {
                assert(!self@.players[i as int].ready);
                return false;
            }
            i = i + 1;
        }
        self.players.len() > 0
    }

    /// Sets a player's ready flag. Returns whether the campaign should start now: nobody is
    /// missing and it is not being played already.
    pub fn set_ready(&mut self, id: &str, ready: bool) -> (start: bool)
        requires
            old(self)@.wf(),
        ensures
            final(self)@ == old(self)@.changed(id@, |p: Player| Player { ready, ..p }),
            start == (final(self)@.phase != Phase::Playing && all_ready(final(self)@.players)),
            final(self)@.wf(),
    {
        if let Some(i) = self.find(id) {
            self.players[i].ready = ready;
            proof {
                lemma_distinct_kept(old(self)@.players, self@.players);
            }
        }
        self.phase != Phase::Playing && self.all_ready()
    }

    /// Sets where a player steers. Input longer than one is scaled down to length one.
    pub fn set_input(&mut self, id: &str, x: Double, y: Double, seq: u32)
        requires
            old(self)@.wf(),
        ensures
            final(self)@ == old(self)@.changed(
                id@,
                |p: Player|
                    Player {
                        input: PlayerInput {
                            x: normalised(x, y).x,
                            y: normalised(x, y).y,
                            seq,
                        },
                        ..p
                    },
            ),
            final(self)@.wf(),
    {
        if let Some(i) = self.find(id) {
            let mag: Double = norm_squared(x, y).root();
            let input: PlayerInput = if mag.gt(encoded(ONE)) {
                PlayerInput { x: x.over(mag), y: y.over(mag), seq }
            } else {
                PlayerInput { x, y, seq }
            };
            self.players[i].input = input;
            proof {
                lemma_distinct_kept(old(self)@.players, self@.players);
            }
        }
    }

    /// Starts a campaign at its first level, unless one is being played. Returns the message that
    /// describes the level.
    pub fn start_campaign(&mut self) -> (level: Option<ServerMsg>)
        requires
            old(self)@.wf(),
        ensures
            final(self)@ == old(self)@.started(),
            level is Some <==> old(self)@.phase != Phase::Playing,
            level matches Some(m) ==> m@ == level_msg(final(self)@.level->0),
            final(self)@.wf(),
    {
        if self.phase == Phase::Playing {
            return None;
        }
        self.campaign_seed = (self.tick as u64).wrapping_mul(SEED_MIX) ^ (self.players.len()
            as u64).wrapping_add(1);
        self.phase = Phase::Playing;
        self.load_level(0);
        Some(self.level_message())
    }

    fn load_level(&mut self, index: u8)
        ensures
            final(self)@ == (RoomView {
                level: Some(arena(index, old(self)@.campaign_seed)),
                ..old(self)@
            }),
            final(self)@.level->0.wf(),
    {
        self.level = Some(Level::generate(index, self.campaign_seed));
    }

    /// Whether a level is being played.
    pub fn has_level(&self) -> (r: bool)
        ensures
            r == (self@.level is Some),
    {
        self.level.is_some()
    }

    /// The message that describes the current level.
    pub fn level_message(&self) -> (msg: ServerMsg)
        requires
            self@.level is Some,
        ensures
            msg@ == level_msg(self@.level->0),
    {
        let level: &Level = self.level.as_ref().unwrap();
        let walls: Vec<WallState> = wall_states(&level.walls);
        let mut enemies: Vec<EnemyFull> = Vec::new();
        let mut i: usize = 0;
        while i < level.enemies.len()
            invariant
                i <= level.enemies@.len(),
                enemies@.len() == i,
                forall|k: int|
                    0 <= k < i ==> #[trigger] enemies@[k] == enemy_full(k, level.enemies@[k]),
            decreases level.enemies@.len() - i,
        {
            let e: Enemy = level.enemies[i];
            enemies.push(
                EnemyFull {
                    i: (i % 256) as u8,
                    x: e.body.pos.x.to_units(),
                    y: e.body.pos.y.to_units(),
                    r: e.body.r.to_units(),
                    hp: e.hp,
                },
            );
            i = i + 1;
        }
        let mut items: Vec<ItemFull> = Vec::new();
        i = 0;
        while i < level.items.len()
            invariant
                i <= level.items@.len(),
                items@.len() == i,
                forall|k: int| 0 <= k < i ==> #[trigger] items@[k] == item_full(k, level.items@[k]),
            decreases level.items@.len() - i,
        {
            let t: Item = level.items[i];
            items.push(
                ItemFull { i: (i % 256) as u8, x: t.x.to_units(), y: t.y.to_units() },
            );
            i = i + 1;
        }
        let exit: ZoneState = exit_state(level.exit);
        let msg = ServerMsg::Level {
            index: level.index,
            levels: CAMPAIGN_LEVELS,
            walls,
            enemies,
            items,
            exit,
        };
        proof {
            let l = self@.level->0;
            assert(enemies@ =~= Seq::new(
                l.enemies.len(),
                |k: int| enemy_full(k, l.enemies[k]),
            ));
            assert(items@ =~= Seq::new(l.items.len(), |k: int| item_full(k, l.items[k])));
        }
        msg
    }
}

// ---------------------------------------------------------------------------
// One step
// ---------------------------------------------------------------------------

/// Sends a bump if it is harder than the limit.
fn push_bump(
    bumps: &mut Vec<ServerMsg>,
    limit: u64,
    id: &String,
    other: &str,
    impulse: Double,
)
    ensures
        messages(final(bumps)@) == bump_over(messages(old(bumps)@), limit, id@, other@, impulse),
{
    if impulse.gt(encoded(limit)) {
        bumps.push(
            ServerMsg::Bump { id: id.as_str().to_owned(), other: other.to_owned(), impulse },
        );
        assert(messages(bumps@) =~= messages(old(bumps)@).push(
            ServerMsgView::Bump { id: id@, other: other@, impulse },
        ));
    }
}

impl Room {
    /// Accelerates and moves everybody by their input.
    fn integrate_players(&mut self, damp: Double)
        ensures
            final(self)@ == old(self)@.peopled(
                old(self)@.players.map_values(|p: Player| p.driven(damp)),
            ),
    {
        let mut i: usize = 0;
        while i < self.players.len()
            invariant
                i <= self.players@.len(),
                self@ == old(self)@.peopled(self.players@),
                self.players@.len() == old(self).players@.len(),
                forall|k: int|
                    0 <= k < i ==> #[trigger] self.players@[k] == old(self).players@[k].driven(
                        damp,
                    ),
                forall|k: int|
                    i <= k < self.players@.len() ==> #[trigger] self.players@[k] == old(
                        self,
                    ).players@[k],
            decreases self.players@.len() - i,
        {
            let input: PlayerInput = self.players[i].input;
            let mut body: Body = self.players[i].body;
            integrate(
                &mut body,
                input.x.times(encoded(ACCEL)),
                input.y.times(encoded(ACCEL)),
                encoded(STEP),
                damp,
            );
            self.players[i].body = body;
            self.players[i].last_seq = input.seq;
            i = i + 1;
        }
        assert(self.players@ =~= old(self)@.players.map_values(|p: Player| p.driven(damp)));
    }

    /// Lets everybody collide with the pillars.
    fn resolve_pillars(&mut self) -> (bumps: Vec<ServerMsg>)
        requires
            forall|j: int|
                0 <= j < old(self).pillars@.len() ==> (#[trigger] old(self).pillars@[j]).is_static,
        ensures
            final(self)@ == old(self)@.peopled(
                old(self)@.players.map_values(|p: Player| p.pressed(old(self)@.pillars)),
            ),
            messages(bumps@) == pillar_bumps(
                old(self)@.players,
                old(self)@.pillars,
                old(self)@.players.len(),
            ),
    {
        let mut bumps: Vec<ServerMsg> = Vec::new();
        assert(messages(bumps@) =~= Seq::empty());
        let mut i: usize = 0;
        while i < self.players.len()
            invariant
                i <= self.players@.len(),
                self@ == old(self)@.peopled(self.players@),
                forall|j: int|
                    0 <= j < old(self).pillars@.len() ==> (#[trigger] old(
                        self,
                    ).pillars@[j]).is_static,
                self.players@.len() == old(self).players@.len(),
                forall|k: int|
                    0 <= k < i ==> #[trigger] self.players@[k] == old(self).players@[k].pressed(
                        old(self)@.pillars,
                    ),
                forall|k: int|
                    i <= k < self.players@.len() ==> #[trigger] self.players@[k] == old(
                        self,
                    ).players@[k],
                messages(bumps@) == pillar_bumps(
                    old(self)@.players,
                    old(self)@.pillars,
                    i as nat,
                ),
            decreases self.players@.len() - i,
        {
            assert(self.pillars@ == old(self).pillars@);
            let mut body: Body = self.players[i].body;
            let magnitudes: Vec<Double> = resolve_row(&mut body, &self.pillars);
            let ghost sent = messages(bumps@);
            let mut j: usize = 0;
            while j < magnitudes.len()
                invariant
                    i < self.players@.len(),
                    j <= magnitudes@.len(),
                    messages(bumps@) == pillar_row(
                        sent,
                        self.players@[i as int].id@,
                        magnitudes@,
                        j as nat,
                    ),
                decreases magnitudes@.len() - j,
            {
                push_bump(&mut bumps, PILLAR_BUMP, &self.players[i].id, "pillar", magnitudes[j]);
                j = j + 1;
            }
            self.players[i].body = body;
            i = i + 1;
        }
        assert(self.players@ =~= old(self)@.players.map_values(
            |p: Player| p.pressed(old(self)@.pillars),
        ));
        bumps
    }

    /// The bodies of the players, in order.
    fn bodies(&self) -> (bodies: Vec<Body>)
        ensures
            bodies@ == bodies_of(self@.players),
    {
        let mut bodies: Vec<Body> = Vec::with_capacity(MAX_PLAYERS);
        let mut i: usize = 0;
        while i < self.players.len()
            invariant
                i <= self.players@.len(),
                bodies@.len() == i,
                forall|k: int| 0 <= k < i ==> #[trigger] bodies@[k] == self.players@[k].body,
            decreases self.players@.len() - i,
        {
            bodies.push(self.players[i].body);
            i = i + 1;
        }
        assert(bodies@ =~= bodies_of(self@.players));
        bodies
    }

    /// Gives the players new bodies.
    fn set_bodies(&mut self, bodies: &Vec<Body>)
        requires
            bodies@.len() == old(self)@.players.len(),
        ensures
            final(self)@ == old(self)@.peopled(with_bodies(old(self)@.players, bodies@)),
    {
        let mut i: usize = 0;
        while i < self.players.len()
            invariant
                i <= self.players@.len(),
                self@ == old(self)@.peopled(self.players@),
                bodies@.len() == self.players@.len(),
                self.players@.len() == old(self).players@.len(),
                forall|k: int|
                    0 <= k < i ==> #[trigger] self.players@[k] == (Player {
                        body: bodies@[k],
                        ..old(self).players@[k]
                    }),
                forall|k: int|
                    i <= k < self.players@.len() ==> #[trigger] self.players@[k] == old(
                        self,
                    ).players@[k],
            decreases self.players@.len() - i,
        {
            self.players[i].body = bodies[i];
            i = i + 1;
        }
        assert(self.players@ =~= with_bodies(old(self)@.players, bodies@));
    }

    /// Lets every two players collide.
    fn resolve_players(&mut self, bumps: &mut Vec<ServerMsg>)
        ensures
            ({
                let before = old(self)@.players;
                let crowd = paired(bodies_of(before), Seq::new(before.len(), |i: int| true));
                &&& final(self)@ == old(self)@.peopled(with_bodies(before, crowd.bodies))
                &&& messages(final(bumps)@) == pair_bumps(
                    messages(old(bumps)@),
                    before,
                    crowd.hits,
                    crowd.hits.len(),
                )
            }),
    {
        let mut bodies: Vec<Body> = self.bodies();
        let mut active: Vec<bool> = Vec::with_capacity(MAX_PLAYERS);
        let mut i: usize = 0;
        while i < self.players.len()
            invariant
                i <= self.players@.len(),
                active@.len() == i,
                forall|k: int| 0 <= k < i ==> #[trigger] active@[k],
            decreases self.players@.len() - i,
        {
            active.push(true);
            i = i + 1;
        }
        let ghost before = self@.players;
        assert(active@ =~= Seq::new(before.len(), |i: int| true));
        let ghost crowd = paired(bodies_of(before), active@);
        let hits: Vec<Hit> = resolve_pairs(&mut bodies, &active);
        let ghost sent = messages(bumps@);
        i = 0;
        while i < hits.len()
            invariant
                i <= hits@.len(),
                before == self@.players,
                hits@ == crowd.hits,
                crowd == paired(bodies_of(before), Seq::new(before.len(), |i: int| true)),
                messages(bumps@) == pair_bumps(sent, before, crowd.hits, i as nat),
            decreases hits@.len() - i,
        {
            proof {
                assert(self.players.len() == before.len());
                let everybody = Seq::new(before.len(), |i: int| true);
                lemma_hits_in_order(bodies_of(before), everybody);
            }
            let hit: &Hit = &hits[i];
            push_bump(
                bumps,
                PLAYER_BUMP,
                &self.players[hit.first].id,
                self.players[hit.second].id.as_str(),
                hit.magnitude,
            );
            i = i + 1;
        }
        self.set_bodies(&bodies);
    }

    /// Keeps everybody inside the rink.
    fn resolve_rink(&mut self, bumps: &mut Vec<ServerMsg>)
        ensures
            final(self)@ == old(self)@.peopled(
                old(self)@.players.map_values(|p: Player| p.walled()),
            ),
            messages(final(bumps)@) == wall_bumps(
                messages(old(bumps)@),
                old(self)@.players,
                old(self)@.players.len(),
            ),
    {
        let ghost sent = messages(bumps@);
        let mut i: usize = 0;
        while i < self.players.len()
            invariant
                i <= self.players@.len(),
                self@ == old(self)@.peopled(self.players@),
                self.players@.len() == old(self).players@.len(),
                forall|k: int|
                    0 <= k < i ==> #[trigger] self.players@[k] == old(self).players@[k].walled(),
                forall|k: int|
                    i <= k < self.players@.len() ==> #[trigger] self.players@[k] == old(
                        self,
                    ).players@[k],
                messages(bumps@) == wall_bumps(sent, old(self)@.players, i as nat),
            decreases self.players@.len() - i,
        {
            let mut body: Body = self.players[i].body;
            let hit: Double = resolve_walls(&mut body);
            self.players[i].body = body;
            push_bump(bumps, WALL_BUMP, &self.players[i].id, "wall", hit);
            i = i + 1;
        }
        assert(self.players@ =~= old(self)@.players.map_values(|p: Player| p.walled()));
    }

    /// Advances the room by one step. `damp` is the factor by which friction slows everybody down.
    /// Returns what is to be sent to the players: collisions, and where the campaign went.
    pub fn tick(&mut self, damp: Double) -> (bumps: Vec<ServerMsg>)
        requires
            old(self)@.wf(),
        ensures
            (Outcome { room: final(self)@, sent: messages(bumps@) }) == old(self)@.ticked(damp),
            final(self)@.wf(),
    {
        reveal(RoomView::ticked);
        self.tick = self.tick.wrapping_add(1);
        self.integrate_players(damp);
        let mut bumps: Vec<ServerMsg> = self.resolve_pillars();
        self.resolve_players(&mut bumps);
        self.resolve_rink(&mut bumps);
        if self.phase == Phase::Playing {
            self.step_campaign(&mut bumps, damp);
        }
        bumps
    }

    /// Whether everybody stands in the exit of a level.
    fn everyone_in_exit(&self, level: &Level) -> (r: bool)
        ensures
            r == (self@.players.len() > 0 && all_in_exit(self@.players, level@)),
    {
        let mut i: usize = 0;
        while i < self.players.len()
            invariant
                i <= self.players@.len(),
                forall|k: int|
                    0 <= k < i ==> level@.exit.holds(
                        (#[trigger] self.players@[k]).body.pos.x,
                        self.players@[k].body.pos.y,
                    ),
            decreases self.players@.len() - i,
        {
            let pos: Vec2 = self.players[i].body.pos;
            if !level.in_exit(pos.x, pos.y) {
                assert(!level@.exit.holds(
                    self@.players[i as int].body.pos.x,
                    self@.players[i as int].body.pos.y,
                ));
                return false;
            }
            i = i + 1;
        }
        self.players.len() > 0
    }

    /// One step of the campaign: the enemies move, items are picked up, and a level that is done
    /// gives way to the next, or to victory.
    fn step_campaign(&mut self, bumps: &mut Vec<ServerMsg>, damp: Double)
        requires
            old(self)@.wf(),
            old(self)@.phase == Phase::Playing,
        ensures
            (Outcome { room: final(self)@, sent: messages(final(bumps)@) }) == old(
                self,
            )@.campaigned(messages(old(bumps)@), damp),
            final(self)@.wf(),
    {
        let ghost start = self@;
        let mut bodies: Vec<Body> = self.bodies();
        let mut level: Level = match self.level.take() {
            Some(l) => l,
            None => {
                return ;
            },
        };
        assert(level@ == start.level->0);

        let impulses: Vec<Double> = level.step_enemies(&mut bodies, damp);
        level.collect_items(&bodies);
        self.set_bodies(&bodies);

        let ghost sent = messages(bumps@);
        let mut i: usize = 0;
        while i < self.players.len()
            invariant
                i <= self.players@.len(),
                impulses@.len() == self.players@.len(),
                self.players@ == with_bodies(start.players, bodies@),
                messages(bumps@) == enemy_bumps(sent, start.players, impulses@, i as nat),
            decreases self.players@.len() - i,
        {
            push_bump(bumps, PLAYER_BUMP, &self.players[i].id, "enemy", impulses[i]);
            i = i + 1;
        }
        let ghost fought = start.fought(sent, damp);
        assert(level@ == fought.room.level->0);
        assert(self@ == (RoomView { level: None, ..fought.room }));
        assert(messages(bumps@) == fought.sent);

        if level.enemies_cleared() && self.everyone_in_exit(&level) {
            assert(fought.room.level_done());
            let next: u8 = level.index + 1;
            let ghost before = messages(bumps@);
            if next >= CAMPAIGN_LEVELS {
                self.phase = Phase::Victory;
                self.clear_ready();
                bumps.push(
                    ServerMsg::Campaign { phase: "victory".to_owned(), level: CAMPAIGN_LEVELS },
                );
                assert(messages(bumps@) =~= before.push(
                    ServerMsgView::Campaign { phase: "victory"@, level: CAMPAIGN_LEVELS },
                ));
            } else {
                self.load_level(next);
                bumps.push(ServerMsg::Campaign { phase: "playing".to_owned(), level: next });
                bumps.push(self.level_message());
                assert(messages(bumps@) =~= before.push(
                    ServerMsgView::Campaign { phase: "playing"@, level: next },
                ).push(level_msg(self@.level->0)));
            }
        } else {
            assert(!fought.room.level_done());
            self.level = Some(level);
        }
    }

    /// The state of the room, as it is sent to clients.
    pub fn state_snapshot(&self) -> (msg: ServerMsg)
        ensures
            msg@ == self@.state_msg(),
            msg matches ServerMsg::State { tick, players, campaign } && {
                &&& tick == self.tick
                &&& players@.len() == self.players@.len()
                &&& forall|i: int|
                    0 <= i < players@.len() ==> {
                        let p = self.players@[i];
                        &&& (#[trigger] players@[i]).id@ == p.id@
                        &&& players@[i].name@ == p.name@
                        &&& players@[i].color@ == p.color@
                        &&& players@[i].x == p.body.pos.x
                        &&& players@[i].y == p.body.pos.y
                        &&& players@[i].vx == p.body.vel.x
                        &&& players@[i].vy == p.body.vel.y
                        &&& players@[i].seq == p.last_seq
                        &&& players@[i].ready == p.ready
                    }
                &&& campaign is Some <==> self.players@.len() > 0
            },
    {
        let mut players: Vec<PlayerState> = Vec::with_capacity(MAX_PLAYERS);
        let mut i: usize = 0;
        while i < self.players.len()
            invariant
                i <= self.players@.len(),
                players@.len() == i,
                forall|k: int|
                    0 <= k < i ==> (#[trigger] players@[k])@ == player_state(self.players@[k]),
            decreases self.players@.len() - i,
        {
            let p: &Player = &self.players[i];
            players.push(
                PlayerState {
                    id: p.id.as_str().to_owned(),
                    name: p.name.as_str().to_owned(),
                    color: p.color.as_str().to_owned(),
                    x: p.body.pos.x,
                    y: p.body.pos.y,
                    vx: p.body.vel.x,
                    vy: p.body.vel.y,
                    seq: p.last_seq,
                    ready: p.ready,
                },
            );
            i = i + 1;
        }
        let campaign: Option<CampaignState> = if self.players.is_empty() {
            None
        } else {
            Some(self.campaign_snapshot())
        };
        proof {
            assert(players@.map_values(|p: PlayerState| p@) =~= self@.players.map_values(
                |p: Player| player_state(p),
            ));
        }
        ServerMsg::State { tick: self.tick, players, campaign }
    }

    /// The campaign in the state of the room.
    fn campaign_snapshot(&self) -> (state: CampaignState)
        ensures
            state@ == self@.campaign_state(),
    {
        let phase: String = match self.phase {
            Phase::Lobby => "lobby".to_owned(),
            Phase::Playing => "playing".to_owned(),
            Phase::Victory => "victory".to_owned(),
        };
        let total: u8 = (self.players.len() % 256) as u8;
        match &self.level {
            Some(level) => {
                let mut enemies: Vec<EnemyState> = Vec::new();
                let mut i: usize = 0;
                while i < level.enemies.len()
                    invariant
                        i <= level.enemies@.len(),
                        enemies@.len() == i,
                        forall|k: int|
                            0 <= k < i ==> #[trigger] enemies@[k] == enemy_state(
                                level.enemies@[k],
                            ),
                    decreases level.enemies@.len() - i,
                {
                    let e: Enemy = level.enemies[i];
                    enemies.push(
                        EnemyState {
                            x: e.body.pos.x,
                            y: e.body.pos.y,
                            r: e.body.r,
                            hp: e.hp,
                            alive: e.alive,
                        },
                    );
                    i = i + 1;
                }
                let mut items: Vec<ItemState> = Vec::new();
                i = 0;
                while i < level.items.len()
                    invariant
                        i <= level.items@.len(),
                        items@.len() == i,
                        forall|k: int|
                            0 <= k < i ==> #[trigger] items@[k] == item_state(level.items@[k]),
                    decreases level.items@.len() - i,
                {
                    let t: Item = level.items[i];
                    items.push(ItemState { x: t.x, y: t.y, collected: t.collected });
                    i = i + 1;
                }
                let mut inside: usize = 0;
                i = 0;
                while i < self.players.len()
                    invariant
                        i <= self.players@.len(),
                        inside <= i,
                        inside == arrived(self.players@, level.exit, i as nat),
                    decreases self.players@.len() - i,
                {
                    let pos: Vec2 = self.players[i].body.pos;
                    if level.in_exit(pos.x, pos.y) {
                        inside = inside + 1;
                    }
                    i = i + 1;
                }
                let walls: Vec<WallState> = wall_states(&level.walls);
                assert(enemies@ =~= level@.enemies.map_values(|e: Enemy| enemy_state(e)));
                assert(items@ =~= level@.items.map_values(|t: Item| item_state(t)));
                CampaignState {
                    phase,
                    level: level.index,
                    levels: CAMPAIGN_LEVELS,
                    walls,
                    enemies,
                    items,
                    exit: exit_state(level.exit),
                    in_zone: (inside % 256) as u8,
                    total,
                }
            },
            None => CampaignState {
                phase,
                level: 0,
                levels: CAMPAIGN_LEVELS,
                walls: Vec::new(),
                enemies: Vec::new(),
                items: Vec::new(),
                exit: ZoneState { x: 0, y: 0, r: 0 },
                in_zone: 0,
                total,
            },
        }
    }
}

// ---------------------------------------------------------------------------
// Laws
// ---------------------------------------------------------------------------

/// A tick is counted and acknowledges everybody's last input. It changes neither who is in the
/// room nor their order, indices, names and colours; nor the room's id, its pillars or its seed.
pub proof fn law_tick_keeps_players(room: RoomView, damp: Double)
    ensures
        room.ticked(damp).room.id == room.id,
        room.ticked(damp).room.pillars == room.pillars,
        room.ticked(damp).room.campaign_seed == room.campaign_seed,
        room.ticked(damp).room.tick == (room.tick + 1) % 0x1_0000_0000,
        room.ticked(damp).room.players.len() == room.players.len(),
        forall|i: int|
            0 <= i < room.players.len() ==> {
                let p = #[trigger] room.ticked(damp).room.players[i];
                let q = room.players[i];
                p.id == q.id && p.idx == q.idx && p.name == q.name && p.color == q.color && p.input
                    == q.input && p.last_seq == q.input.seq
            },
{
    reveal(RoomView::ticked);
}

/// Campaigns that start at different ticks with equally many players are laid out from different
/// seeds.
pub proof fn law_campaigns_differ(tick: u32, other: u32, count: nat)
    requires
        tick != other,
    ensures
        seed_at(tick, count) != seed_at(other, count),
{
    let m = 0x1_0000_0000_0000_0000int;
    let a = ((tick as int * SEED_MIX as int) % m) as u64;
    let b = ((other as int * SEED_MIX as int) % m) as u64;
    let c = ((count + 1) % 0x1_0000_0000_0000_0000) as u64;
    lemma_unmixed(tick);
    lemma_unmixed(other);
    assert(a ^ c != b ^ c) by (bit_vector)
        requires
            a != b,
    ;
}

/// The multiplier of the seed is odd, so the tick can be found from its product.
proof fn lemma_unmixed(tick: u32)
    ensures
        ((tick as int * SEED_MIX as int) % 0x1_0000_0000_0000_0000 * 0x5907_1D96_D81E_CD35)
            % 0x1_0000_0000_0000_0000 == tick,
{
    let m = 0x1_0000_0000_0000_0000int;
    let back = 0x5907_1D96_D81E_CD35int;
    let t = tick as int;
    let mix = SEED_MIX as int;
    lemma_mul_mod_noop_left(t * mix, back, m);
    assert(mix * back == 934034299265436267 * m + 1);
    assert((t * mix) * back == (t * 934034299265436267) * m + t) by (nonlinear_arith)
        requires
            mix * back == 934034299265436267 * m + 1,
    ;
    lemma_fundamental_div_mod_converse((t * mix) * back, m, t * 934034299265436267, t);
}

/// Starting a campaign begins at its first level. While it is being played, starting again does
/// nothing.
pub proof fn law_campaign_starts(room: RoomView)
    ensures
        room.started().phase == Phase::Playing,
        room.phase != Phase::Playing ==> room.started().level == Some(
            arena(0, seed_at(room.tick, room.players.len())),
        ),
        room.started().started() == room.started(),
        room.started().players == room.players,
{
}

/// The room at the end of a tick, before it is decided whether the level is done.
pub open spec fn before_progress(room: RoomView, damp: Double) -> RoomView {
    let next = RoomView { tick: ((room.tick + 1) % 0x1_0000_0000) as u32, ..room };
    let moved = next.moved(damp);
    moved.room.fought(moved.sent, damp).room
}

/// While a campaign is being played, a tick stays in its level unless no enemy is left in it and
/// everybody stands in the exit. It then goes on to the next level, or after the last one to
/// victory, where nobody is ready.
pub proof fn law_levels_in_order(room: RoomView, damp: Double)
    requires
        room.wf(),
        room.phase == Phase::Playing,
    ensures
        ({
            let index = room.level->0.index;
            let fought = before_progress(room, damp);
            let after = room.ticked(damp).room;
            &&& fought.level->0.index == index
            &&& fought.level->0.exit == room.level->0.exit
            &&& if !fought.level_done() {
                after == fought && after.phase == Phase::Playing
            } else if index + 1 < CAMPAIGN_LEVELS {
                &&& after.phase == Phase::Playing
                &&& after.level == Some(arena((index + 1) as u8, room.campaign_seed))
                &&& after.players == fought.players
            } else {
                &&& after.phase == Phase::Victory
                &&& after.level is None
                &&& after.players == unready(fought.players)
                &&& forall|i: int|
                    0 <= i < after.players.len() ==> !(#[trigger] after.players[i]).ready
            }
        }),
{
    reveal(RoomView::ticked);
}

/// Nobody is left behind: as long as one player stands outside the exit, the level stays.
pub proof fn law_waits_for_everybody(room: RoomView, damp: Double, i: int)
    requires
        room.wf(),
        room.phase == Phase::Playing,
        0 <= i < room.players.len(),
        !room.level->0.exit.holds(
            before_progress(room, damp).players[i].body.pos.x,
            before_progress(room, damp).players[i].body.pos.y,
        ),
    ensures
        room.ticked(damp).room.phase == Phase::Playing,
        room.ticked(damp).room.level->0.index == room.level->0.index,
{
    law_levels_in_order(room, damp);
}

/// Outside a campaign a tick changes neither the phase nor the ready flags.
pub proof fn law_lobby_rests(room: RoomView, damp: Double, i: int)
    requires
        room.wf(),
        room.phase != Phase::Playing,
        0 <= i < room.players.len(),
    ensures
        room.ticked(damp).room.phase == room.phase,
        room.ticked(damp).room.level is None,
        room.ticked(damp).room.players[i].ready == room.players[i].ready,
{
    reveal(RoomView::ticked);
}

/// Leaving undoes joining. A room that was empty is back in the lobby.
pub proof fn law_leave_undoes_join(room: RoomView, p: Player)
    requires
        room.wf(),
        !present(room.players, p.id@),
    ensures
        room.with(p).without(p.id@) == if room.players.len() == 0 {
            room.reset()
        } else {
            room
        },
{
    let joined = room.with(p).players;
    let k = seat(joined, p.id@);
    assert(sits(joined, room.players.len() as int, p.id@));
    assert(sits(joined, k, p.id@));
    if k < room.players.len() {
        assert(sits(room.players, k, p.id@));
    }
    assert(joined.remove(k) =~= room.players);
}

/// A player who left is not there any more. When that was the last one, the room is in the lobby
/// without a level.
pub proof fn law_leaving_empties(room: RoomView, id: Seq<char>)
    requires
        room.wf(),
    ensures
        !present(room.without(id).players, id),
        room.without(id).players.len() == 0 ==> room.without(id).phase == Phase::Lobby
            && room.without(id).level is None,
{
    let after = room.without(id).players;
    if present(after, id) {
        let k = seat(after, id);
        assert(sits(after, k, id));
        if present(room.players, id) {
            let i = seat(room.players, id);
            assert(sits(room.players, i, id));
            let j = if k < i {
                k
            } else {
                k + 1
            };
            assert(room.players[j].id@ == id);
        } else {
            assert(sits(room.players, k, id));
        }
    }
}

/// Input of at most unit length is kept. Longer input keeps its direction: both coordinates are
/// divided by the length.
pub proof fn law_input_normalised(x: Double, y: Double)
    ensures
        !square_norm(x, y).root().gt(encoded(ONE)) ==> normalised(x, y) == (Vec2 { x, y }),
        square_norm(x, y).root().gt(encoded(ONE)) ==> normalised(x, y) == (Vec2 {
            x: x.over(square_norm(x, y).root()),
            y: y.over(square_norm(x, y).root()),
        }),
{
}

/// Whether a player can be moved: the body is of player size with a finite place and velocity, and
/// the input is at most 16 in each coordinate, as that from [`Room::set_input`] is.
pub open spec fn is_movable(p: Player) -> bool {
    &&& p.body.r == encoded(PLAYER_R)
    &&& p.body.pos.x.finite()
    &&& p.body.pos.y.finite()
    &&& p.body.vel.x.finite()
    &&& p.body.vel.y.finite()
    &&& p.input.x.magnitude() <= INPUT_BOUND
    &&& p.input.y.magnitude() <= INPUT_BOUND
}

/// Finite input is stored with coordinates of at most 16, a generous bound on its unit length.
pub proof fn law_input_bounded(x: Double, y: Double)
    requires
        x.finite(),
        y.finite(),
    ensures
        normalised(x, y).x.magnitude() <= INPUT_BOUND,
        normalised(x, y).y.magnitude() <= INPUT_BOUND,
{
    let sx = x.times(x);
    let sy = y.times(y);
    let sum = sx.plus(sy);
    lemma_square(x);
    lemma_square(y);
    lemma_plus_overflow(sx, sy);
    if !sum.finite() {
        lemma_infinite_length(sum, x, x);
        lemma_infinite_length(sum, y, y);
    } else if sum.zero() {
        lemma_tiny_side(x, sx, sy);
        law_plus_commutes(sx, sy);
        lemma_tiny_side(y, sy, sx);
        reveal(Double::root_spec);
        lemma_moderate(x);
        lemma_moderate(y);
    } else {
        lemma_direction(x, sx, sy);
        law_plus_commutes(sx, sy);
        lemma_direction(y, sy, sx);
        let length = sum.root();
        let one = encoded(ONE);
        lemma_root_range(sum);
        if length.gt(one) {
            lemma_exponents_ordered(one, length);
            lemma_over_range(x, length);
            lemma_over_range(y, length);
            lemma_moderate(x.over(length));
            lemma_moderate(y.over(length));
        } else {
            lemma_exponents_ordered(length, one);
            lemma_moderate(x);
            lemma_moderate(y);
        }
    }
}

/// A number with a small exponent is at most 16.
proof fn lemma_moderate(x: Double)
    requires
        x.finite(),
        x.exponent() <= -49,
    ensures
        x.magnitude() <= INPUT_BOUND,
{
    lemma_magnitude_parts(x);
    lemma_pow2_values();
}

/// A side whose square vanishes is tiny.
proof fn lemma_tiny_side(x: Double, square: Double, other: Double)
    requires
        x.finite(),
        square == x.times(x),
        !square.nan(),
        !square.negative(),
        other.finite(),
        !other.negative(),
        square.plus(other).zero(),
    ensures
        x.exponent() <= -490,
{
    if x.exponent() > -490 {
        let zero = encoded(0);
        lemma_plus_overflow(square, other);
        law_plus_ordered(zero, other, square);
        law_plus_commutes(zero, square);
        law_plus_commutes(other, square);
        lemma_plus_zero(square, zero);
        lemma_plus_overflow(square, zero);
        assert(square.magnitude() == 0);
        lemma_times_above(x, x);
    }
}

/// Outside a campaign everybody's centre is inside the walls after a tick, however pillars and
/// players pushed: between 50 and 1750 across, and between 50 and 1150 down.
pub proof fn law_players_inside(room: RoomView, damp: Double, i: int)
    requires
        room.phase != Phase::Playing,
        forall|k: int| 0 <= k < room.players.len() ==> is_movable(#[trigger] room.players[k]),
        forall|j: int| 0 <= j < room.pillars.len() ==> has_place(#[trigger] room.pillars[j]),
        damp.magnitude() <= ONE,
        0 <= i < room.players.len(),
    ensures
        ({
            let b = room.ticked(damp).room.players[i].body;
            &&& b.r == encoded(PLAYER_R)
            &&& encoded(0x4049_0000_0000_0000).at_most(b.pos.x)
            &&& b.pos.x.at_most(encoded(0x409B_5800_0000_0000))
            &&& encoded(0x4049_0000_0000_0000).at_most(b.pos.y)
            &&& b.pos.y.at_most(encoded(0x4091_F800_0000_0000))
        }),
{
    reveal(RoomView::ticked);
    let driven = room.players.map_values(|p: Player| p.driven(damp));
    let pressed = driven.map_values(|p: Player| p.pressed(room.pillars));
    let bodies = bodies_of(pressed);
    let active = Seq::new(room.players.len(), |i: int| true);
    assert forall|k: int| 0 <= k < bodies.len() implies has_place(#[trigger] bodies[k]) && bodies[k].r
        == encoded(PLAYER_R) by {
        assert(is_movable(room.players[k]));
        lemma_driven_place(room.players[k], damp);
        let body = driven[k].body;
        lemma_pressed_place(body, room.pillars, room.pillars.len());
        lemma_pressed_keeps(body, room.pillars, room.pillars.len());
        assert(bodies[k] == pressed[k].body);
    }
    lemma_paired_keeps(bodies, active, i);
    lemma_paired_place(bodies, active, i);
    let body = paired(bodies, active).bodies[i];
    law_player_bounds(body);
    law_walls_contain(body);
}

/// Input leaves a player in a place.
proof fn lemma_driven_place(p: Player, damp: Double)
    requires
        is_movable(p),
        damp.magnitude() <= ONE,
    ensures
        has_place(p.driven(damp).body),
        p.driven(damp).body.r == encoded(PLAYER_R),
{
    let pull = encoded(ACCEL);
    let ax = p.input.x.times(pull);
    let ay = p.input.y.times(pull);
    let most = encoded(INPUT_BOUND);
    lemma_exponents_ordered(p.input.x, most);
    lemma_exponents_ordered(p.input.y, most);
    lemma_times_range(p.input.x, pull);
    lemma_times_range(p.input.y, pull);
    lemma_times_range(ax, encoded(STEP));
    lemma_times_range(ay, encoded(STEP));
    law_step_keeps_place(p.body, ax, ay, encoded(STEP), damp);
}

/// The state tells how many players stand in the exit, and that is everybody exactly when
/// everybody does.
pub proof fn law_zone_count(room: RoomView)
    requires
        room.players.len() <= MAX_PLAYERS,
        room.level is Some,
    ensures
        room.campaign_state().total == room.players.len(),
        room.campaign_state().in_zone <= room.campaign_state().total,
        room.campaign_state().in_zone == room.campaign_state().total <==> all_in_exit(
            room.players,
            room.level->0,
        ),
{
    lemma_arrived(room.players, room.level->0.exit, room.players.len());
}

pub(crate) proof fn lemma_arrived(players: Seq<Player>, exit: ExitZone, n: nat)
    requires
        n <= players.len(),
    ensures
        arrived(players, exit, n) <= n,
        arrived(players, exit, n) == n <==> forall|i: int|
            0 <= i < n ==> exit.holds(
                (#[trigger] players[i]).body.pos.x,
                players[i].body.pos.y,
            ),
    decreases n,
{
    if n > 0 {
        lemma_arrived(players, exit, (n - 1) as nat);
        if exit.holds(players[n - 1].body.pos.x, players[n - 1].body.pos.y) {
            assert forall|i: int|
                arrived(players, exit, n) == n && 0 <= i < n implies exit.holds(
                (#[trigger] players[i]).body.pos.x,
                players[i].body.pos.y,
            ) by {
                if i == n - 1 {
                    assert(players[i] == players[n - 1]);
                }
            }
        } else {
            assert(!exit.holds(players[n - 1].body.pos.x, players[n - 1].body.pos.y));
        }
    }
}

/// Whom a player can bump into.
pub ghost enum Party {
    Pillar,
    Player,
    Wall,
    Enemy,
}

/// Bumps are told when they are harder than this.
pub open spec fn party_limit(party: Party) -> u64 {
    match party {
        Party::Pillar => PILLAR_BUMP,
        Party::Wall => WALL_BUMP,
        _ => PLAYER_BUMP,
    }
}

/// Whether a message tells of a bump of the player at `tag.0`, harder than the limit for the
/// party. The other player, or the pillar, is the one at `tag.1`.
pub open spec fn bump_of(
    m: ServerMsgView,
    players: Seq<Player>,
    party: Party,
    tag: (int, int),
) -> bool {
    m matches ServerMsgView::Bump { id, other, impulse } && {
        &&& 0 <= tag.0 < players.len()
        &&& id == players[tag.0].id@
        &&& impulse.gt(encoded(party_limit(party)))
        &&& match party {
            Party::Pillar => other == "pillar"@,
            Party::Player => tag.0 < tag.1 < players.len() && other == players[tag.1].id@,
            Party::Wall => tag.1 == 0 && other == "wall"@,
            Party::Enemy => tag.1 == 0 && other == "enemy"@,
        }
    }
}

/// Whether `out` is `base` and the bumps with the given tags, one each, in the order of the tags.
pub open spec fn added(
    base: Seq<ServerMsgView>,
    out: Seq<ServerMsgView>,
    players: Seq<Player>,
    party: Party,
    tags: Seq<(int, int)>,
) -> bool {
    &&& out.len() == base.len() + tags.len()
    &&& forall|k: int| 0 <= k < base.len() ==> #[trigger] out[k] == base[k]
    &&& forall|k: int|
        0 <= k < tags.len() ==> bump_of(
            out[base.len() + k],
            players,
            party,
            #[trigger] tags[k],
        )
    &&& forall|k: int, l: int|
        0 <= k < l < tags.len() ==> before(#[trigger] tags[k], #[trigger] tags[l])
}

/// Who bumped into whom in a tick, and what was sent up to each kind of bump.
pub ghost struct Told {
    pub pillars: Seq<(int, int)>,
    pub pairs: Seq<(int, int)>,
    pub walls: Seq<(int, int)>,
    pub enemies: Seq<(int, int)>,
    pub after_pillars: Seq<ServerMsgView>,
    pub after_pairs: Seq<ServerMsgView>,
    pub after_walls: Seq<ServerMsgView>,
    pub after_enemies: Seq<ServerMsgView>,
}

impl Told {
    /// Whether this is what was sent: bumps against pillars, then between players, then against
    /// the walls of the rink, then by enemies, each no more than once.
    pub open spec fn holds(self, players: Seq<Player>, pillars: nat) -> bool {
        &&& added(Seq::empty(), self.after_pillars, players, Party::Pillar, self.pillars)
        &&& forall|k: int|
            0 <= k < self.pillars.len() ==> 0 <= (#[trigger] self.pillars[k]).1 < pillars
        &&& added(self.after_pillars, self.after_pairs, players, Party::Player, self.pairs)
        &&& added(self.after_pairs, self.after_walls, players, Party::Wall, self.walls)
        &&& added(self.after_walls, self.after_enemies, players, Party::Enemy, self.enemies)
    }
}

/// What a tick sends. First the bumps: against pillars harder than 30, between players harder than
/// 20, against the walls of the rink harder than 40, and by enemies harder than 20. A player is
/// told to bump at most once into each pillar, each other player, the walls and enemies; into
/// enemies only in a campaign. If the level is done, where the campaign goes on follows: the phase,
/// and the level if there is another. Nothing else is sent.
pub proof fn law_tick_sends(room: RoomView, damp: Double)
    requires
        room.wf(),
    ensures
        exists|told: Told|
            {
                let sent = room.ticked(damp).sent;
                let after = room.ticked(damp).room;
                let done = room.phase == Phase::Playing && before_progress(
                    room,
                    damp,
                ).level_done();
                &&& #[trigger] told.holds(room.players, room.pillars.len())
                &&& room.phase != Phase::Playing ==> told.enemies.len() == 0
                &&& sent == if !done {
                    told.after_enemies
                } else if after.phase == Phase::Victory {
                    told.after_enemies.push(
                        ServerMsgView::Campaign { phase: "victory"@, level: CAMPAIGN_LEVELS },
                    )
                } else {
                    told.after_enemies.push(
                        ServerMsgView::Campaign {
                            phase: "playing"@,
                            level: after.level->0.index,
                        },
                    ).push(level_msg(after.level->0))
                }
            },
{
    reveal(RoomView::ticked);
    let next = RoomView { tick: ((room.tick + 1) % 0x1_0000_0000) as u32, ..room };
    let people = room.players;
    let count = people.len();
    let driven = people.map_values(|p: Player| p.driven(damp));
    let pressed = driven.map_values(|p: Player| p.pressed(room.pillars));
    let active = Seq::new(count, |i: int| true);
    let crowd = paired(bodies_of(pressed), active);
    let apart = with_bodies(pressed, crowd.bodies);
    let moved = next.moved(damp);

    let after_pillars = pillar_bumps(driven, room.pillars, count);
    let pillars = lemma_pillars_told(people, driven, room.pillars, count);
    lemma_hits_in_order(bodies_of(pressed), active);
    let after_pairs = pair_bumps(after_pillars, pressed, crowd.hits, crowd.hits.len());
    let pairs = lemma_pairs_told(people, after_pillars, pressed, crowd.hits, crowd.hits.len());
    let after_walls = wall_bumps(after_pairs, apart, count);
    let walls = lemma_walls_told(people, after_pairs, apart, count);
    let clash = moved.room.level->0.clash(bodies_of(moved.room.players), damp);
    let (enemies, after_enemies) = if room.phase == Phase::Playing {
        (
            lemma_enemies_told(
                people,
                after_walls,
                moved.room.players,
                clash.impulses,
                count,
            ),
            enemy_bumps(after_walls, moved.room.players, clash.impulses, count),
        )
    } else {
        (Seq::empty(), after_walls)
    };
    let told = Told {
        pillars,
        pairs,
        walls,
        enemies,
        after_pillars,
        after_pairs,
        after_walls,
        after_enemies,
    };
    assert(moved.sent == after_walls);
    assert(told.holds(people, room.pillars.len()));
}

spec fn same_ids(a: Seq<Player>, b: Seq<Player>) -> bool {
    a.len() == b.len() && forall|i: int| 0 <= i < a.len() ==> #[trigger] a[i].id == b[i].id
}

/// Whether all tags come before a place.
spec fn below(tags: Seq<(int, int)>, limit: (int, int)) -> bool {
    forall|k: int| 0 <= k < tags.len() ==> before(#[trigger] tags[k], limit)
}

/// One more bump, if it is hard enough.
proof fn lemma_bump_added(
    people: Seq<Player>,
    base: Seq<ServerMsgView>,
    out: Seq<ServerMsgView>,
    party: Party,
    tags: Seq<(int, int)>,
    tag: (int, int),
    other: Seq<char>,
    impulse: Double,
) -> (more: Seq<(int, int)>)
    requires
        added(base, out, people, party, tags),
        below(tags, tag),
        0 <= tag.0 < people.len(),
        bump_of(
            ServerMsgView::Bump { id: people[tag.0].id@, other, impulse },
            people,
            party,
            tag,
        ) || !impulse.gt(encoded(party_limit(party))),
    ensures
        added(
            base,
            bump_over(out, party_limit(party), people[tag.0].id@, other, impulse),
            people,
            party,
            more,
        ),
        more == tags || more == tags.push(tag),
{
    if impulse.gt(encoded(party_limit(party))) {
        let more = tags.push(tag);
        let after = bump_over(out, party_limit(party), people[tag.0].id@, other, impulse);
        assert forall|k: int| 0 <= k < more.len() implies bump_of(
            after[base.len() + k],
            people,
            party,
            #[trigger] more[k],
        ) by {
            if k < tags.len() {
                assert(more[k] == tags[k]);
                assert(after[base.len() + k] == out[base.len() + k]);
            }
        }
        more
    } else {
        tags
    }
}

proof fn lemma_pillar_row_told(
    people: Seq<Player>,
    out: Seq<ServerMsgView>,
    tags: Seq<(int, int)>,
    i: int,
    magnitudes: Seq<Double>,
    n: nat,
) -> (more: Seq<(int, int)>)
    requires
        added(Seq::empty(), out, people, Party::Pillar, tags),
        below(tags, (i, 0)),
        forall|k: int|
            0 <= k < tags.len() ==> 0 <= (#[trigger] tags[k]).1 < magnitudes.len(),
        0 <= i < people.len(),
        n <= magnitudes.len(),
    ensures
        added(
            Seq::empty(),
            pillar_row(out, people[i].id@, magnitudes, n),
            people,
            Party::Pillar,
            more,
        ),
        below(more, (i, n as int)),
        forall|k: int|
            0 <= k < more.len() ==> 0 <= (#[trigger] more[k]).1 < magnitudes.len(),
    decreases n,
{
    if n == 0 {
        tags
    } else {
        let some = lemma_pillar_row_told(people, out, tags, i, magnitudes, (n - 1) as nat);
        let row = pillar_row(out, people[i].id@, magnitudes, (n - 1) as nat);
        lemma_bump_added(
            people,
            Seq::empty(),
            row,
            Party::Pillar,
            some,
            (i, n - 1),
            "pillar"@,
            magnitudes[n - 1],
        )
    }
}

proof fn lemma_pillars_told(
    people: Seq<Player>,
    players: Seq<Player>,
    pillars: Seq<Body>,
    n: nat,
) -> (tags: Seq<(int, int)>)
    requires
        same_ids(people, players),
        n <= players.len(),
    ensures
        added(
            Seq::empty(),
            pillar_bumps(players, pillars, n),
            people,
            Party::Pillar,
            tags,
        ),
        below(tags, (n as int, 0)),
        forall|k: int| 0 <= k < tags.len() ==> 0 <= (#[trigger] tags[k]).1 < pillars.len(),
    decreases n,
{
    if n == 0 {
        Seq::empty()
    } else {
        let some = lemma_pillars_told(people, players, pillars, (n - 1) as nat);
        assert(people[n - 1].id == players[n - 1].id);
        lemma_pillar_row_told(
            people,
            pillar_bumps(players, pillars, (n - 1) as nat),
            some,
            n - 1,
            press_magnitudes(players[n - 1].body, pillars),
            pillars.len(),
        )
    }
}

proof fn lemma_pairs_told(
    people: Seq<Player>,
    base: Seq<ServerMsgView>,
    players: Seq<Player>,
    hits: Seq<Hit>,
    n: nat,
) -> (tags: Seq<(int, int)>)
    requires
        same_ids(people, players),
        n <= hits.len(),
        in_order(hits, players.len()),
    ensures
        added(base, pair_bumps(base, players, hits, n), people, Party::Player, tags),
        forall|h: int|
            n <= h < hits.len() ==> below(tags, places(#[trigger] hits[h])),
    decreases n,
{
    if n == 0 {
        Seq::empty()
    } else {
        let some = lemma_pairs_told(people, base, players, hits, (n - 1) as nat);
        let hit = hits[n - 1];
        let (i, j) = places(hit);
        assert(people[i].id == players[i].id);
        assert(people[j].id == players[j].id);
        assert(below(some, places(hit)));
        let tags = lemma_bump_added(
            people,
            base,
            pair_bumps(base, players, hits, (n - 1) as nat),
            Party::Player,
            some,
            (i, j),
            players[j].id@,
            hit.magnitude,
        );
        assert forall|h: int| n <= h < hits.len() implies below(
            tags,
            places(#[trigger] hits[h]),
        ) by {
            assert(below(some, places(hits[h])));
            assert(before(places(hits[n - 1]), places(hits[h])));
        }
        tags
    }
}

proof fn lemma_walls_told(
    people: Seq<Player>,
    base: Seq<ServerMsgView>,
    players: Seq<Player>,
    n: nat,
) -> (tags: Seq<(int, int)>)
    requires
        same_ids(people, players),
        n <= players.len(),
    ensures
        added(base, wall_bumps(base, players, n), people, Party::Wall, tags),
        below(tags, (n as int, 0)),
    decreases n,
{
    if n == 0 {
        Seq::empty()
    } else {
        let some = lemma_walls_told(people, base, players, (n - 1) as nat);
        assert(people[n - 1].id == players[n - 1].id);
        lemma_bump_added(
            people,
            base,
            wall_bumps(base, players, (n - 1) as nat),
            Party::Wall,
            some,
            (n - 1, 0),
            "wall"@,
            players[n - 1].body.walled().1,
        )
    }
}

proof fn lemma_enemies_told(
    people: Seq<Player>,
    base: Seq<ServerMsgView>,
    players: Seq<Player>,
    impulses: Seq<Double>,
    n: nat,
) -> (tags: Seq<(int, int)>)
    requires
        same_ids(people, players),
        n <= players.len(),
    ensures
        added(base, enemy_bumps(base, players, impulses, n), people, Party::Enemy, tags),
        below(tags, (n as int, 0)),
    decreases n,
{
    if n == 0 {
        Seq::empty()
    } else {
        let some = lemma_enemies_told(people, base, players, impulses, (n - 1) as nat);
        assert(people[n - 1].id == players[n - 1].id);
        lemma_bump_added(
            people,
            base,
            enemy_bumps(base, players, impulses, (n - 1) as nat),
            Party::Enemy,
            some,
            (n - 1, 0),
            "enemy"@,
            impulses[n - 1],
        )
    }
}

} // verus!
