//! The levels of a campaign: arenas with walls, enemies and items, laid out from a seed, and a
//! shared exit.

use crate::bounce::{real_value, stands};
use crate::double::{encoded, law_plus_commutes, law_plus_ordered, lemma_plus_exact, Double};
use crate::exact::{size, slack};
use crate::exchange::moves;
use crate::physics::{
    collided, integrate, law_player_bounds, lemma_exponents_ordered, lemma_paired_keeps,
    lemma_pressed_keeps, norm_squared, paired, pressed, resolve_circle_circle, resolve_pairs,
    resolve_row, resolve_walls, square_norm, Body, Vec2, ARENA_H, ARENA_W, ONE, PLAYER_R, STEP, TWO,
    WALL_PAD,
};
use crate::random::{
    draw_words, law_uniform_in_range, lemma_scaled, std_rng_word, uniform, uniform_value,
};
use crate::rounding::INFINITE;
use crate::space::{law_exit_is_a_disc, moderate};
use vstd::arithmetic::power2::*;
use vstd::prelude::*;

verus! {

/// The number of levels that a campaign runs through.
pub const CAMPAIGN_LEVELS: u8 = 3;

/// How often a place is tried before an entity is left out.
pub const PLACE_TRIES: u8 = 24;

/// The most words that placing an entity uses: one for its radius, and two for each try.
pub const PLACE_WORDS: u16 = 49;

/// Spreads the level index over the seed.
pub const INDEX_MIX: u64 = 0x9E37_79B9;

// Each of the following is the binary64 encoding of the number beside it.

/// 26: the radius of an enemy.
pub const ENEMY_R: u64 = 0x403A_0000_0000_0000;

/// 95: the largest speed of an enemy, well below that of a player.
pub const ENEMY_SPEED: u64 = 0x4057_C000_0000_0000;

/// 520: the acceleration of an enemy.
pub const ENEMY_ACCEL: u64 = 0x4080_4000_0000_0000;

/// 55: an enemy is hurt by collisions harder than this.
pub const ENEMY_HIT_IMPULSE: u64 = 0x404B_8000_0000_0000;

/// 16: the radius of an item.
pub const ITEM_R: u64 = 0x4030_0000_0000_0000;

/// 130: the radius of the exit zone.
pub const EXIT_R: u64 = 0x4060_4000_0000_0000;

/// 40: how much further than a player entities stay away from the walls.
pub const INSET: u64 = 0x4044_0000_0000_0000;

/// 260: the circle around the centre that is kept clear for spawning players.
pub const SPAWN_CLEAR: u64 = 0x4070_4000_0000_0000;

/// 80: how far entities stay away from the exit zone.
pub const EXIT_CLEAR: u64 = 0x4054_0000_0000_0000;

/// 220: the distance of the exit's corner from the edges.
pub const EXIT_MARGIN: u64 = 0x406B_8000_0000_0000;

/// -60: the exit is moved from its corner by at least this, in each coordinate.
pub const JITTER_LOW: u64 = 0xC04E_0000_0000_0000;

/// 60: the exit is moved from its corner by less than this.
pub const JITTER_HIGH: u64 = 0x404E_0000_0000_0000;

/// 34: the smallest radius of a wall.
pub const WALL_R_LOW: u64 = 0x4041_0000_0000_0000;

/// 64: walls are smaller than this.
pub const WALL_R_HIGH: u64 = 0x4050_0000_0000_0000;

/// 30: the gap around a wall.
pub const WALL_GAP: u64 = 0x403E_0000_0000_0000;

/// 24: the gap around an enemy.
pub const ENEMY_GAP: u64 = 0x4038_0000_0000_0000;

/// 20: the gap around an item.
pub const ITEM_GAP: u64 = 0x4034_0000_0000_0000;

/// An enemy that chases players. It is cleared by ramming it.
#[derive(Clone, Copy, Debug)]
pub struct Enemy {
    pub body: Body,
    pub hp: i32,
    pub alive: bool,
}

/// Something to pick up.
#[derive(Clone, Copy, Debug)]
pub struct Item {
    pub x: Double,
    pub y: Double,
    pub collected: bool,
}

/// Where everybody has to gather to advance.
#[derive(Clone, Copy, Debug)]
pub struct ExitZone {
    pub x: Double,
    pub y: Double,
    pub r: Double,
}

/// A level. Walls are static bodies.
#[derive(Debug)]
pub struct Level {
    pub index: u8,
    pub walls: Vec<Body>,
    pub enemies: Vec<Enemy>,
    pub items: Vec<Item>,
    pub exit: ExitZone,
}

/// A circle that an entity takes, or that is kept free.
#[derive(Clone, Copy, Debug)]
pub struct Circle {
    pub x: Double,
    pub y: Double,
    pub r: Double,
}

/// What is being placed.
#[derive(Clone, Copy, Debug)]
pub enum Kind {
    Wall,
    Enemy,
    Item,
}

// ---------------------------------------------------------------------------
// Model
// ---------------------------------------------------------------------------

pub ghost struct LevelView {
    pub index: u8,
    pub walls: Seq<Body>,
    pub enemies: Seq<Enemy>,
    pub items: Seq<Item>,
    pub exit: ExitZone,
}

impl View for Level {
    type V = LevelView;

    open spec fn view(&self) -> LevelView {
        LevelView {
            index: self.index,
            walls: self.walls@,
            enemies: self.enemies@,
            items: self.items@,
            exit: self.exit,
        }
    }
}

impl LevelView {
    /// Walls do not move, and whoever is alive has hit points left.
    pub open spec fn wf(self) -> bool {
        &&& forall|j: int| 0 <= j < self.walls.len() ==> (#[trigger] self.walls[j]).is_static
        &&& forall|k: int|
            0 <= k < self.enemies.len() && (#[trigger] self.enemies[k]).alive
                ==> self.enemies[k].hp > 0
        &&& self.items.len() <= u32::MAX
    }

    /// Whether every enemy is cleared.
    pub open spec fn cleared(self) -> bool {
        forall|k: int| 0 <= k < self.enemies.len() ==> !(#[trigger] self.enemies[k]).alive
    }
}

impl ExitZone {
    pub open spec fn holds(self, x: Double, y: Double) -> bool {
        square_norm(x.minus(self.x), y.minus(self.y)).le(self.r.times(self.r))
    }
}

/// The seed of the level's own stream of words.
pub open spec fn stream_seed(index: u8, seed: u64) -> u64 {
    seed ^ ((index * INDEX_MIX) as u64)
}

pub open spec fn wall_count(index: u8) -> nat {
    (4 + 2 * index) as nat
}

pub open spec fn enemy_count(index: u8) -> nat {
    (3 + 2 * index) as nat
}

pub open spec fn item_count(index: u8) -> nat {
    if index < 3 {
        (5 - index) as nat
    } else {
        2
    }
}

pub open spec fn enemy_hp(index: u8) -> int {
    2 + index
}

/// The corner that the exit of a level lies at; it rotates with the index.
pub open spec fn exit_corner(index: u8) -> Vec2 {
    let near = encoded(EXIT_MARGIN);
    let right = encoded(ARENA_W).minus(near);
    let bottom = encoded(ARENA_H).minus(near);
    if index % 4 == 0 {
        Vec2 { x: right, y: bottom }
    } else if index % 4 == 1 {
        Vec2 { x: near, y: near }
    } else if index % 4 == 2 {
        Vec2 { x: right, y: near }
    } else {
        Vec2 { x: near, y: bottom }
    }
}

/// The centre of the exit of a level: its corner, moved by what two words stand for.
pub open spec fn exit_point(index: u8, x_word: u64, y_word: u64) -> Vec2 {
    let corner = exit_corner(index);
    let low = encoded(JITTER_LOW);
    let high = encoded(JITTER_HIGH);
    Vec2 {
        x: corner.x.plus(uniform_value(x_word, low, high)),
        y: corner.y.plus(uniform_value(y_word, low, high)),
    }
}

/// The exit of a level, from the first two words.
pub open spec fn exit_zone(index: u8, words: Seq<u64>) -> ExitZone {
    let centre = exit_point(index, words[0], words[1]);
    ExitZone { x: centre.x, y: centre.y, r: encoded(EXIT_R) }
}

/// What entities keep clear of: the spawn ring and the exit.
pub open spec fn keepouts(exit: ExitZone) -> Seq<Circle> {
    let two = encoded(TWO);
    seq![
        Circle {
            x: encoded(ARENA_W).over(two),
            y: encoded(ARENA_H).over(two),
            r: encoded(SPAWN_CLEAR),
        },
        Circle { x: exit.x, y: exit.y, r: exit.r.plus(encoded(EXIT_CLEAR)) },
    ]
}

/// The first coordinate of the area that entities are placed in.
pub open spec fn area_low() -> Double {
    encoded(WALL_PAD).plus(encoded(PLAYER_R)).plus(encoded(INSET))
}

/// The end of that area in a rink of the given size.
pub open spec fn area_high(size: u64) -> Double {
    encoded(size).minus(encoded(WALL_PAD)).minus(encoded(PLAYER_R)).minus(encoded(INSET))
}

/// Whether a point is at least `clearance` away from a circle.
pub open spec fn clear_of(x: Double, y: Double, clearance: Double, c: Circle) -> bool {
    let reach = c.r.plus(clearance);
    !square_norm(x.minus(c.x), y.minus(c.y)).lt(reach.times(reach))
}

/// Whether a point is that far away from all of them.
pub open spec fn clear_of_all(x: Double, y: Double, clearance: Double, cs: Seq<Circle>) -> bool {
    forall|i: int| 0 <= i < cs.len() ==> clear_of(x, y, clearance, #[trigger] cs[i])
}

/// The point that the words from `at` on stand for.
pub open spec fn candidate(words: Seq<u64>, at: nat) -> Vec2 {
    Vec2 {
        x: uniform_value(words[at as int], area_low(), area_high(ARENA_W)),
        y: uniform_value(words[at as int + 1], area_low(), area_high(ARENA_H)),
    }
}

/// The first of at most `tries` candidates that is clear of everything, and where the stream
/// stands after it.
pub open spec fn sampled(
    words: Seq<u64>,
    at: nat,
    tries: nat,
    clearance: Double,
    free: Seq<Circle>,
    placed: Seq<Circle>,
) -> (Option<Vec2>, nat)
    decreases tries,
{
    if tries == 0 {
        (None, at)
    } else {
        let p = candidate(words, at);
        if clear_of_all(p.x, p.y, clearance, free) && clear_of_all(p.x, p.y, clearance, placed) {
            (Some(p), at + 2)
        } else {
            sampled(words, at + 2, (tries - 1) as nat, clearance, free, placed)
        }
    }
}

pub open spec fn gap(kind: Kind) -> Double {
    match kind {
        Kind::Wall => encoded(WALL_GAP),
        Kind::Enemy => encoded(ENEMY_GAP),
        Kind::Item => encoded(ITEM_GAP),
    }
}

/// How far a layout has come: the circles that are taken, and where the stream stands.
pub ghost struct Placing {
    pub at: nat,
    pub placed: Seq<Circle>,
}

impl Placing {
    /// The radius of the next entity. A wall takes it from the stream.
    pub open spec fn radius(self, words: Seq<u64>, kind: Kind) -> Double {
        match kind {
            Kind::Wall => uniform_value(
                words[self.at as int],
                encoded(WALL_R_LOW),
                encoded(WALL_R_HIGH),
            ),
            Kind::Enemy => encoded(ENEMY_R),
            Kind::Item => encoded(ITEM_R),
        }
    }

    /// Where the candidates of the next entity start.
    pub open spec fn after_radius(self, kind: Kind) -> nat {
        match kind {
            Kind::Wall => self.at + 1,
            _ => self.at,
        }
    }

    /// Places one entity, if a spot is found for it.
    pub open spec fn place(self, words: Seq<u64>, kind: Kind, free: Seq<Circle>) -> Placing {
        let r = self.radius(words, kind);
        let (spot, at) = sampled(
            words,
            self.after_radius(kind),
            PLACE_TRIES as nat,
            r.plus(gap(kind)),
            free,
            self.placed,
        );
        match spot {
            Some(p) => Placing { at, placed: self.placed.push(Circle { x: p.x, y: p.y, r }) },
            None => Placing { at, placed: self.placed },
        }
    }

    pub open spec fn place_many(
        self,
        words: Seq<u64>,
        kind: Kind,
        free: Seq<Circle>,
        n: nat,
    ) -> Placing
        decreases n,
    {
        if n == 0 {
            self
        } else {
            self.place_many(words, kind, free, (n - 1) as nat).place(words, kind, free)
        }
    }
}

pub open spec fn wall_of(c: Circle) -> Body {
    Body::pillar_at(c.x, c.y, c.r)
}

pub open spec fn enemy_of(index: u8, c: Circle) -> Enemy {
    Enemy {
        body: Body { r: encoded(ENEMY_R), ..Body::player_at(c.x, c.y) },
        hp: enemy_hp(index) as i32,
        alive: true,
    }
}

pub open spec fn item_of(c: Circle) -> Item {
    Item { x: c.x, y: c.y, collected: false }
}

/// The layout after its walls, after its enemies and after its items.
pub open spec fn layout(index: u8, words: Seq<u64>) -> (Placing, Placing, Placing) {
    let free = keepouts(exit_zone(index, words));
    let walls = Placing { at: 2, placed: Seq::empty() }.place_many(
        words,
        Kind::Wall,
        free,
        wall_count(index),
    );
    let enemies = walls.place_many(words, Kind::Enemy, free, enemy_count(index));
    let items = enemies.place_many(words, Kind::Item, free, item_count(index));
    (walls, enemies, items)
}

/// The level with the given index that words stand for.
pub open spec fn laid_out(index: u8, words: Seq<u64>) -> LevelView {
    let (walls, enemies, items) = layout(index, words);
    let w = walls.placed.len() as int;
    let e = enemies.placed.len() as int;
    LevelView {
        index,
        walls: walls.placed.map_values(|c: Circle| wall_of(c)),
        enemies: enemies.placed.skip(w).map_values(|c: Circle| enemy_of(index, c)),
        items: items.placed.skip(e).map_values(|c: Circle| item_of(c)),
        exit: exit_zone(index, words),
    }
}

/// No layout of a level uses more words than this: two for the exit, and for each entity its
/// radius and all its tries.
pub open spec fn words_needed(index: u8) -> nat {
    2 + PLACE_WORDS as nat * (wall_count(index) + enemy_count(index) + item_count(index))
}

/// The words that a level is laid out from: those of its own stream.
pub open spec fn stream_words(index: u8, seed: u64) -> Seq<u64> {
    Seq::new(words_needed(index), |i: int| std_rng_word(stream_seed(index, seed), i as nat))
}

/// The level with the given index that a seed stands for.
pub open spec fn arena(index: u8, seed: u64) -> LevelView {
    laid_out(index, stream_words(index, seed))
}

/// Who is chased: the square of the distance, and the way there.
pub ghost struct Target {
    pub square: Double,
    pub dx: Double,
    pub dy: Double,
}

/// The nearest of the first `n` players, the first of them where several are equally near.
pub open spec fn target(from: Vec2, players: Seq<Body>, n: nat) -> Target
    decreases n,
{
    if n == 0 {
        Target { square: encoded(INFINITE), dx: encoded(0), dy: encoded(0) }
    } else {
        let best = target(from, players, (n - 1) as nat);
        let dx = players[n - 1].pos.x.minus(from.x);
        let dy = players[n - 1].pos.y.minus(from.y);
        let square = square_norm(dx, dy);
        if square.lt(best.square) {
            Target { square, dx, dy }
        } else {
            best
        }
    }
}

/// A body after one step of chasing the nearest player.
pub open spec fn pursued(body: Body, players: Seq<Body>, damp: Double) -> Body {
    let t = target(body.pos, players, players.len());
    let pull = encoded(ENEMY_ACCEL);
    let (ax, ay) = if t.square.finite() && t.square.gt(encoded(ONE)) {
        let d = t.square.root();
        (t.dx.over(d).times(pull), t.dy.over(d).times(pull))
    } else {
        (encoded(0), encoded(0))
    };
    body.integrated(ax, ay, encoded(STEP), damp)
}

/// The same, at no more than enemy speed.
pub open spec fn steered(body: Body, players: Seq<Body>, damp: Double) -> Body {
    let moved = pursued(body, players, damp);
    moved.moved(moved.pos, Body::capped(moved.vel, encoded(ENEMY_SPEED)))
}

impl Enemy {
    /// An enemy after it chased the players and was held back by the rink and by walls.
    pub open spec fn chased(self, players: Seq<Body>, walls: Seq<Body>, damp: Double) -> Enemy {
        if self.alive {
            let body = steered(self.body, players, damp).walled().0;
            Enemy { body: pressed(body, walls, walls.len()), ..self }
        } else {
            self
        }
    }
}

/// The bodies of enemies.
pub open spec fn enemy_bodies(enemies: Seq<Enemy>) -> Seq<Body> {
    enemies.map_values(|e: Enemy| e.body)
}

/// Which of the enemies are alive.
pub open spec fn enemies_alive(enemies: Seq<Enemy>) -> Seq<bool> {
    enemies.map_values(|e: Enemy| e.alive)
}

/// Enemies after those that are alive bumped into each other.
pub open spec fn jostled(enemies: Seq<Enemy>) -> Seq<Enemy> {
    let bodies = paired(enemy_bodies(enemies), enemies_alive(enemies)).bodies;
    Seq::new(enemies.len(), |k: int| Enemy { body: bodies[k], ..enemies[k] })
}

/// Enemies against players: everybody's state, and the hardest hit that each player took.
pub ghost struct Clash {
    pub enemies: Seq<Enemy>,
    pub players: Seq<Body>,
    pub impulses: Seq<Double>,
}

impl Clash {
    /// Lets enemy `k` meet player `i`. A hard hit costs the enemy a hit point, and the last one
    /// clears it.
    pub open spec fn meet(self, k: int, i: int) -> Clash {
        let e = self.enemies[k];
        let c = collided(self.players[i], e.body);
        let hurt = c.magnitude.gt(encoded(0)) && c.magnitude.gt(encoded(ENEMY_HIT_IMPULSE));
        Clash {
            enemies: self.enemies.update(
                k,
                if hurt {
                    Enemy { body: c.b, hp: (e.hp - 1) as i32, alive: e.alive && e.hp > 1 }
                } else {
                    Enemy { body: c.b, ..e }
                },
            ),
            players: self.players.update(i, c.a),
            impulses: if c.magnitude.gt(encoded(0)) {
                self.impulses.update(i, self.impulses[i].max(c.magnitude))
            } else {
                self.impulses
            },
        }
    }

    /// Lets enemy `k` meet the first `n` players.
    pub open spec fn meet_players(self, k: int, n: int) -> Clash
        decreases n,
    {
        if n <= 0 {
            self
        } else {
            self.meet_players(k, n - 1).meet(k, n - 1)
        }
    }

    /// Lets each of the first `k` enemies that was alive meet all players.
    pub open spec fn meet_all(self, k: int) -> Clash
        decreases k,
    {
        if k <= 0 {
            self
        } else {
            let c = self.meet_all(k - 1);
            if c.enemies[k - 1].alive {
                c.meet_players(k - 1, c.players.len() as int)
            } else {
                c
            }
        }
    }
}

impl LevelView {
    /// All enemies after they chased the players, before anybody bumped into anybody.
    pub open spec fn chasing(self, players: Seq<Body>, damp: Double) -> Seq<Enemy> {
        self.enemies.map_values(|e: Enemy| e.chased(players, self.walls, damp))
    }

    /// Enemies and players before they meet each other.
    pub open spec fn before_clash(self, players: Seq<Body>, damp: Double) -> Clash {
        Clash {
            enemies: jostled(self.chasing(players, damp)),
            players,
            impulses: Seq::new(players.len(), |i: int| encoded(0)),
        }
    }

    /// One step of all enemies against the players.
    pub open spec fn clash(self, players: Seq<Body>, damp: Double) -> Clash {
        self.before_clash(players, damp).meet_all(self.enemies.len() as int)
    }

    /// The level after its enemies took one step.
    pub open spec fn stepped(self, players: Seq<Body>, damp: Double) -> LevelView {
        LevelView { enemies: self.clash(players, damp).enemies, ..self }
    }
}

impl Item {
    /// Whether a player touches the item.
    pub open spec fn in_reach(self, player: Body) -> bool {
        let reach = encoded(PLAYER_R).plus(encoded(ITEM_R));
        square_norm(player.pos.x.minus(self.x), player.pos.y.minus(self.y)).le(reach.times(reach))
    }

    /// The item after the players had the chance to take it.
    pub open spec fn offered(self, players: Seq<Body>) -> Item {
        Item {
            collected: self.collected || exists|i: int|
                0 <= i < players.len() && self.in_reach(#[trigger] players[i]),
            ..self
        }
    }

    /// Whether the players take the item now.
    pub open spec fn taken(self, players: Seq<Body>) -> bool {
        !self.collected && self.offered(players).collected
    }
}

impl LevelView {
    /// The level after the players had the chance to take its items.
    pub open spec fn offered(self, players: Seq<Body>) -> LevelView {
        LevelView { items: self.items.map_values(|t: Item| t.offered(players)), ..self }
    }
}

/// How many of the items the players take now.
pub open spec fn taken_count(items: Seq<Item>, players: Seq<Body>) -> nat
    decreases items.len(),
{
    if items.len() == 0 {
        0
    } else {
        taken_count(items.drop_last(), players) + if items.last().taken(players) {
            1nat
        } else {
            0nat
        }
    }
}

// ---------------------------------------------------------------------------
// Layout
// ---------------------------------------------------------------------------

/// Whether a point is at least `clearance` away from all circles.
fn is_clear(x: Double, y: Double, clearance: Double, circles: &Vec<Circle>) -> (ok: bool)
    ensures
        ok == clear_of_all(x, y, clearance, circles@),
{
    let mut i: usize = 0;
    while i < circles.len()
        invariant
            i <= circles@.len(),
            forall|k: int| 0 <= k < i ==> clear_of(x, y, clearance, #[trigger] circles@[k]),
        decreases circles@.len() - i,
    {
        let c: Circle = circles[i];
        let reach: Double = c.r.plus(clearance);
        if norm_squared(x.minus(c.x), y.minus(c.y)).lt(reach.times(reach)) {
            assert(!clear_of(x, y, clearance, circles@[i as int]));
            return false;
        }
        i = i + 1;
    }
    true
}

/// Words, and how many of them are used up.
struct Stream {
    words: Vec<u64>,
    at: usize,
}

impl Stream {
    /// At least `n` words are left.
    spec fn has(self, n: int) -> bool {
        self.at + n <= self.words@.len()
    }

    /// `self` continues `before`, with up to `n` words used in between.
    spec fn follows(self, before: Stream, n: int) -> bool {
        &&& self.words@ == before.words@
        &&& before.at <= self.at <= before.at + n
    }

    fn draw(&mut self, low: Double, high: Double) -> (r: Double)
        requires
            old(self).has(1),
        ensures
            final(self).follows(*old(self), 1),
            final(self).at == old(self).at + 1,
            r == uniform_value(old(self).words@[old(self).at as int], low, high),
    {
        let word: u64 = self.words[self.at];
        assert(self.words@.len() == self.words.len());
        self.at = self.at + 1;
        uniform(word, low, high)
    }
}

/// Picks the corner of the exit by level index, and moves it a little.
pub fn exit_anchor(index: u8, x_word: u64, y_word: u64) -> (p: Vec2)
    ensures
        p == exit_point(index, x_word, y_word),
{
    let near: Double = encoded(EXIT_MARGIN);
    let right: Double = encoded(ARENA_W).minus(near);
    let bottom: Double = encoded(ARENA_H).minus(near);
    let corner: Vec2 = if index % 4 == 0 {
        Vec2 { x: right, y: bottom }
    } else if index % 4 == 1 {
        Vec2 { x: near, y: near }
    } else if index % 4 == 2 {
        Vec2 { x: right, y: near }
    } else {
        Vec2 { x: near, y: bottom }
    };
    let jx: Double = uniform(x_word, encoded(JITTER_LOW), encoded(JITTER_HIGH));
    let jy: Double = uniform(y_word, encoded(JITTER_LOW), encoded(JITTER_HIGH));
    Vec2 { x: corner.x.plus(jx), y: corner.y.plus(jy) }
}

/// Tries places in the stream's order until one is clear of everything. Gives up after a fixed
/// number of tries; the level is then a little sparser.
fn sample_point(
    stream: &mut Stream,
    clearance: Double,
    free: &Vec<Circle>,
    placed: &Vec<Circle>,
) -> (spot: Option<Vec2>)
    requires
        old(stream).has(2 * PLACE_TRIES),
    ensures
        final(stream).follows(*old(stream), 2 * PLACE_TRIES),
        (spot, final(stream).at as nat) == sampled(
            old(stream).words@,
            old(stream).at as nat,
            PLACE_TRIES as nat,
            clearance,
            free@,
            placed@,
        ),
{
    let low: Double = encoded(WALL_PAD).plus(encoded(PLAYER_R)).plus(encoded(INSET));
    let right: Double = encoded(ARENA_W).minus(encoded(WALL_PAD)).minus(encoded(PLAYER_R)).minus(
        encoded(INSET),
    );
    let bottom: Double = encoded(ARENA_H).minus(encoded(WALL_PAD)).minus(encoded(PLAYER_R)).minus(
        encoded(INSET),
    );
    let ghost result = sampled(
        stream.words@,
        stream.at as nat,
        PLACE_TRIES as nat,
        clearance,
        free@,
        placed@,
    );
    let mut tried: u8 = 0;
    while tried < PLACE_TRIES
        invariant
            tried <= PLACE_TRIES,
            low == area_low(),
            right == area_high(ARENA_W),
            bottom == area_high(ARENA_H),
            stream.follows(*old(stream), 2 * tried),
            old(stream).has(2 * PLACE_TRIES),
            result == sampled(
                old(stream).words@,
                old(stream).at as nat,
                PLACE_TRIES as nat,
                clearance,
                free@,
                placed@,
            ),
            result == sampled(
                stream.words@,
                stream.at as nat,
                (PLACE_TRIES - tried) as nat,
                clearance,
                free@,
                placed@,
            ),
        decreases PLACE_TRIES - tried,
    {
        let x: Double = stream.draw(low, right);
        let y: Double = stream.draw(low, bottom);
        if is_clear(x, y, clearance, free) && is_clear(x, y, clearance, placed) {
            return Some(Vec2 { x, y });
        }
        tried = tried + 1;
    }
    None
}

/// Places entities of one kind.
fn scatter(
    stream: &mut Stream,
    kind: Kind,
    count: u16,
    free: &Vec<Circle>,
    placed: &mut Vec<Circle>,
)
    requires
        old(stream).has(PLACE_WORDS * count),
    ensures
        final(stream).follows(*old(stream), PLACE_WORDS * count),
        (Placing { at: final(stream).at as nat, placed: final(placed)@ }) == (Placing {
            at: old(stream).at as nat,
            placed: old(placed)@,
        }).place_many(old(stream).words@, kind, free@, count as nat),
        final(placed)@.len() >= old(placed)@.len(),
        final(placed)@.take(old(placed)@.len() as int) == old(placed)@,
{
    let ghost start = Placing { at: stream.at as nat, placed: placed@ };
    let mut n: u16 = 0;
    while n < count
        invariant
            n <= count,
            old(stream).has(PLACE_WORDS * count),
            stream.follows(*old(stream), PLACE_WORDS * n),
            (Placing { at: stream.at as nat, placed: placed@ }) == start.place_many(
                old(stream).words@,
                kind,
                free@,
                n as nat,
            ),
            placed@.len() >= start.placed.len(),
            placed@.take(start.placed.len() as int) == start.placed,
        decreases count - n,
    {
        let (r, clearance): (Double, Double) = match kind {
            Kind::Wall => {
                let r: Double = stream.draw(encoded(WALL_R_LOW), encoded(WALL_R_HIGH));
                (r, r.plus(encoded(WALL_GAP)))
            },
            Kind::Enemy => (encoded(ENEMY_R), encoded(ENEMY_R).plus(encoded(ENEMY_GAP))),
            Kind::Item => (encoded(ITEM_R), encoded(ITEM_R).plus(encoded(ITEM_GAP))),
        };
        if let Some(p) = sample_point(stream, clearance, free, placed) {
            let ghost before = placed@;
            placed.push(Circle { x: p.x, y: p.y, r });
            proof {
                assert(placed@.take(start.placed.len() as int) =~= before.take(
                    start.placed.len() as int,
                ));
            }
        }
        n = n + 1;
    }
}

// ---------------------------------------------------------------------------
// Chase
// ---------------------------------------------------------------------------

/// Moves a body one step towards the nearest player, at no more than enemy speed.
fn steer(body: &mut Body, players: &Vec<Body>, damp: Double)
    ensures
        *final(body) == steered(*old(body), players@, damp),
{
    let mut best: Double = encoded(INFINITE);
    let mut tx: Double = encoded(0);
    let mut ty: Double = encoded(0);
    let mut i: usize = 0;
    while i < players.len()
        invariant
            i <= players@.len(),
            *body == *old(body),
            (Target { square: best, dx: tx, dy: ty }) == target(body.pos, players@, i as nat),
        decreases players@.len() - i,
    {
        let dx: Double = players[i].pos.x.minus(body.pos.x);
        let dy: Double = players[i].pos.y.minus(body.pos.y);
        let square: Double = norm_squared(dx, dy);
        if square.lt(best) {
            best = square;
            tx = dx;
            ty = dy;
        }
        i = i + 1;
    }
    let mut ax: Double = encoded(0);
    let mut ay: Double = encoded(0);
    if best.is_finite() && best.gt(encoded(ONE)) {
        let d: Double = best.root();
        ax = tx.over(d).times(encoded(ENEMY_ACCEL));
        ay = ty.over(d).times(encoded(ENEMY_ACCEL));
    }
    integrate(body, ax, ay, encoded(STEP), damp);
    body.cap_speed(encoded(ENEMY_SPEED));
}

// ---------------------------------------------------------------------------
// Levels
// ---------------------------------------------------------------------------

/// How many walls, enemies and items a level is meant to have.
fn plan(index: u8) -> (counts: (u16, u16, u16))
    ensures
        counts.0 == wall_count(index),
        counts.1 == enemy_count(index),
        counts.2 == item_count(index),
        counts.0 + counts.1 + counts.2 <= 1100,
{
    let items: u16 = if index < 3 {
        5 - index as u16
    } else {
        2
    };
    (4 + 2 * index as u16, 3 + 2 * index as u16, items)
}

impl Level {
    /// Lays out level `index` (counted from zero). The same seed and index always give the same
    /// arena. Later levels have more walls, more and tougher enemies, and fewer items.
    pub fn generate(index: u8, seed: u64) -> (level: Level)
        ensures
            level@ == arena(index, seed),
            level@.wf(),
    {
        // Every level has a stream of its own.
        let stream_of_level: u64 = seed ^ (index as u64 * INDEX_MIX);
        let (walls, enemies, items) = plan(index);
        let total: usize = 2 + PLACE_WORDS as usize * (walls as usize + enemies as usize
            + items as usize);
        let words: Vec<u64> = draw_words(stream_of_level, total);
        assert(words@ =~= stream_words(index, seed));
        Level::lay_out(index, words)
    }

    /// Lays out level `index` from random words. What does not find a place after a fixed number
    /// of tries is left out.
    pub fn lay_out(index: u8, words: Vec<u64>) -> (level: Level)
        requires
            words@.len() >= words_needed(index),
        ensures
            level@ == laid_out(index, words@),
            level@.wf(),
    {
        let (walls_wanted, enemies_wanted, items_wanted) = plan(index);
        let hp: i32 = 2 + index as i32;
        let ghost drawn = words@;
        let anchor: Vec2 = exit_anchor(index, words[0], words[1]);
        let mut stream = Stream { words, at: 2 };
        let exit = ExitZone { x: anchor.x, y: anchor.y, r: encoded(EXIT_R) };

        // The level stays solvable: the spawn ring and the exit are kept clear.
        let two: Double = encoded(TWO);
        let mut free: Vec<Circle> = Vec::new();
        free.push(
            Circle {
                x: encoded(ARENA_W).over(two),
                y: encoded(ARENA_H).over(two),
                r: encoded(SPAWN_CLEAR),
            },
        );
        free.push(Circle { x: exit.x, y: exit.y, r: exit.r.plus(encoded(EXIT_CLEAR)) });
        assert(free@ =~= keepouts(exit));

        let mut placed: Vec<Circle> = Vec::new();
        scatter(&mut stream, Kind::Wall, walls_wanted, &free, &mut placed);
        let walls_end: usize = placed.len();
        let ghost after_walls = placed@;
        scatter(&mut stream, Kind::Enemy, enemies_wanted, &free, &mut placed);
        let enemies_end: usize = placed.len();
        let ghost after_enemies = placed@;
        scatter(&mut stream, Kind::Item, items_wanted, &free, &mut placed);

        let mut walls: Vec<Body> = Vec::new();
        let mut i: usize = 0;
        while i < walls_end
            invariant
                i <= walls_end <= placed@.len(),
                walls@.len() == i,
                forall|k: int| 0 <= k < i ==> #[trigger] walls@[k] == wall_of(placed@[k]),
            decreases walls_end - i,
        {
            walls.push(Body::new_pillar(placed[i].x, placed[i].y, placed[i].r));
            i = i + 1;
        }
        let mut enemies: Vec<Enemy> = Vec::new();
        while i < enemies_end
            invariant
                walls_end <= i <= enemies_end <= placed@.len(),
                enemies@.len() == i - walls_end,
                hp == enemy_hp(index),
                forall|k: int|
                    0 <= k < i - walls_end ==> #[trigger] enemies@[k] == enemy_of(
                        index,
                        placed@[k + walls_end],
                    ),
            decreases enemies_end - i,
        {
            let mut body: Body = Body::new_player(placed[i].x, placed[i].y);
            body.r = encoded(ENEMY_R);
            enemies.push(Enemy { body, hp, alive: true });
            i = i + 1;
        }
        let mut items: Vec<Item> = Vec::new();
        while i < placed.len()
            invariant
                enemies_end <= i <= placed@.len(),
                items@.len() == i - enemies_end,
                forall|k: int|
                    0 <= k < i - enemies_end ==> #[trigger] items@[k] == item_of(
                        placed@[k + enemies_end],
                    ),
            decreases placed@.len() - i,
        {
            items.push(Item { x: placed[i].x, y: placed[i].y, collected: false });
            i = i + 1;
        }

        let level = Level { index, walls, enemies, items, exit };
        proof {
            let (p1, p2, p3) = layout(index, drawn);
            assert(p1.placed == after_walls && p2.placed == after_enemies && p3.placed == placed@);
            lemma_item_bound(index, drawn);
            assert(level@.walls =~= laid_out(index, drawn).walls);
            assert(level@.enemies =~= laid_out(index, drawn).enemies);
            assert(level@.items =~= laid_out(index, drawn).items);
        }
        level
    }

    /// Lets the living enemies take one step. They chase the nearest player, and collide with the
    /// rink, with walls, with each other and with players; a hard hit by a player hurts them.
    /// The bodies of the players are pushed back. Returns how hard each player was hit.
    pub fn step_enemies(&mut self, players: &mut Vec<Body>, damp: Double) -> (impulses: Vec<Double>)
        requires
            old(self)@.wf(),
            old(players)@.len() <= i32::MAX,
        ensures
            final(self)@ == old(self)@.stepped(old(players)@, damp),
            final(players)@ == old(self)@.clash(old(players)@, damp).players,
            impulses@ == old(self)@.clash(old(players)@, damp).impulses,
            final(self)@.wf(),
            final(players)@.len() == old(players)@.len(),
            impulses@.len() == old(players)@.len(),
    {
        let ghost start = self@;
        let ghost bodies = players@;
        let count: usize = self.enemies.len();

        // Chase, and be held back by the rink and by walls.
        let mut k: usize = 0;
        while k < count
            invariant
                k <= count,
                start.wf(),
                start == old(self)@,
                players@ == bodies,
                self.index == start.index,
                self.walls@ == start.walls,
                self.items@ == start.items,
                self.exit == start.exit,
                count == start.enemies.len(),
                self.enemies@.len() == count,
                forall|j: int|
                    0 <= j < k ==> #[trigger] self.enemies@[j] == start.enemies[j].chased(
                        bodies,
                        start.walls,
                        damp,
                    ),
                forall|j: int| k <= j < count ==> #[trigger] self.enemies@[j] == start.enemies[j],
            decreases count - k,
        {
            let mut e: Enemy = self.enemies[k];
            if e.alive {
                steer(&mut e.body, players, damp);
                resolve_walls(&mut e.body);
                resolve_row(&mut e.body, &self.walls);
                self.enemies.set(k, e);
            }
            k = k + 1;
        }
        let ghost chasing = start.chasing(bodies, damp);
        assert(self.enemies@ =~= chasing);

        // Bump into each other.
        let mut crowd: Vec<Body> = Vec::new();
        let mut active: Vec<bool> = Vec::new();
        k = 0;
        while k < count
            invariant
                k <= count,
                count == self.enemies@.len(),
                self.enemies@ == chasing,
                crowd@.len() == k,
                active@.len() == k,
                forall|j: int| 0 <= j < k ==> #[trigger] crowd@[j] == chasing[j].body,
                forall|j: int| 0 <= j < k ==> #[trigger] active@[j] == chasing[j].alive,
            decreases count - k,
        {
            crowd.push(self.enemies[k].body);
            active.push(self.enemies[k].alive);
            k = k + 1;
        }
        proof {
            assert(crowd@ =~= enemy_bodies(chasing));
            assert(active@ =~= enemies_alive(chasing));
        }
        resolve_pairs(&mut crowd, &active);
        k = 0;
        while k < count
            invariant
                k <= count,
                count == self.enemies@.len(),
                count == crowd@.len(),
                count == chasing.len(),
                self.index == start.index,
                self.walls@ == start.walls,
                self.items@ == start.items,
                self.exit == start.exit,
                forall|j: int|
                    0 <= j < k ==> #[trigger] self.enemies@[j] == (Enemy {
                        body: crowd@[j],
                        ..chasing[j]
                    }),
                forall|j: int| k <= j < count ==> #[trigger] self.enemies@[j] == chasing[j],
            decreases count - k,
        {
            let mut e: Enemy = self.enemies[k];
            e.body = crowd[k];
            self.enemies.set(k, e);
            k = k + 1;
        }
        assert(self.enemies@ =~= jostled(chasing));

        // Meet the players.
        let people: usize = players.len();
        let mut impulses: Vec<Double> = Vec::new();
        let mut i: usize = 0;
        while i < people
            invariant
                i <= people,
                impulses@.len() == i,
                forall|j: int| 0 <= j < i ==> #[trigger] impulses@[j] == encoded(0),
            decreases people - i,
        {
            impulses.push(encoded(0));
            i = i + 1;
        }
        let ghost before = Clash {
            enemies: jostled(chasing),
            players: bodies,
            impulses: Seq::new(bodies.len(), |i: int| encoded(0)),
        };
        assert(impulses@ =~= before.impulses);
        k = 0;
        while k < count
            invariant
                k <= count,
                count == self.enemies@.len(),
                people == players@.len(),
                people == impulses@.len(),
                people <= i32::MAX,
                self.index == start.index,
                self.walls@ == start.walls,
                self.items@ == start.items,
                self.exit == start.exit,
                (Clash { enemies: self.enemies@, players: players@, impulses: impulses@ })
                    == before.meet_all(k as int),
                forall|j: int|
                    0 <= j < count && (#[trigger] self.enemies@[j]).alive ==> self.enemies@[j].hp
                        > 0,
            decreases count - k,
        {
            if self.enemies[k].alive {
                self.meet_players(k, players, &mut impulses);
            }
            k = k + 1;
        }
        impulses
    }

    /// Lets one enemy that is alive meet all players.
    fn meet_players(&mut self, k: usize, players: &mut Vec<Body>, impulses: &mut Vec<Double>)
        requires
            k < old(self).enemies@.len(),
            old(self).enemies@[k as int].alive,
            old(self).enemies@[k as int].hp > 0,
            old(impulses)@.len() == old(players)@.len(),
            old(players)@.len() <= i32::MAX,
        ensures
            final(self).index == old(self).index,
            final(self).walls == old(self).walls,
            final(self).items == old(self).items,
            final(self).exit == old(self).exit,
            final(self).enemies@.len() == old(self).enemies@.len(),
            final(players)@.len() == old(players)@.len(),
            final(impulses)@.len() == old(players)@.len(),
            (Clash {
                enemies: final(self).enemies@,
                players: final(players)@,
                impulses: final(impulses)@,
            }) == (Clash {
                enemies: old(self).enemies@,
                players: old(players)@,
                impulses: old(impulses)@,
            }).meet_players(k as int, old(players)@.len() as int),
            final(self).enemies@[k as int].alive ==> final(self).enemies@[k as int].hp > 0,
            forall|j: int|
                0 <= j < old(self).enemies@.len() && j != k ==> #[trigger] final(self).enemies@[j]
                    == old(self).enemies@[j],
    {
        let ghost start = Clash {
            enemies: self.enemies@,
            players: players@,
            impulses: impulses@,
        };
        let people: usize = players.len();
        let mut i: usize = 0;
        while i < people
            invariant
                i <= people,
                people <= i32::MAX,
                k < self.enemies@.len(),
                people == players@.len(),
                people == impulses@.len(),
                people == start.players.len(),
                self.index == old(self).index,
                self.walls == old(self).walls,
                self.items == old(self).items,
                self.exit == old(self).exit,
                start.enemies == old(self).enemies@,
                self.enemies@.len() == start.enemies.len(),
                (Clash { enemies: self.enemies@, players: players@, impulses: impulses@ })
                    == start.meet_players(k as int, i as int),
                self.enemies@[k as int].hp >= 1 - i,
                self.enemies@[k as int].alive ==> self.enemies@[k as int].hp > 0,
                forall|j: int|
                    0 <= j < start.enemies.len() && j != k ==> #[trigger] self.enemies@[j]
                        == start.enemies[j],
            decreases people - i,
        {
            let mut e: Enemy = self.enemies[k];
            let mut body: Body = players[i];
            let magnitude: Double = resolve_circle_circle(&mut body, &mut e.body);
            players.set(i, body);
            if magnitude.gt(encoded(0)) {
                impulses.set(i, impulses[i].max(magnitude));
                if magnitude.gt(encoded(ENEMY_HIT_IMPULSE)) {
                    e.hp = e.hp - 1;
                    if e.hp <= 0 {
                        e.alive = false;
                    }
                }
            }
            self.enemies.set(k, e);
            i = i + 1;
        }
    }

    /// Whether every enemy is cleared.
    pub fn enemies_cleared(&self) -> (r: bool)
        ensures
            r == self@.cleared(),
    {
        let mut k: usize = 0;
        while k < self.enemies.len()
            invariant
                k <= self.enemies@.len(),
                forall|j: int| 0 <= j < k ==> !(#[trigger] self.enemies@[j]).alive,
            decreases self.enemies@.len() - k,
        {
            if self.enemies[k].alive {
                assert(self@.enemies[k as int].alive);
                return false;
            }
            k = k + 1;
        }
        true
    }

    /// Whether a point lies in the exit zone.
    pub fn in_exit(&self, x: Double, y: Double) -> (r: bool)
        ensures
            r == self@.exit.holds(x, y),
            ({
                let exit = self.exit;
                let dx = real_value(x) - real_value(exit.x);
                let dy = real_value(y) - real_value(exit.y);
                let reach = size(exit.r) * size(exit.r);
                let margin = 60real * slack(reach + 1real);
                moderate(exit.x) && moderate(exit.y) && moderate(exit.r) && moderate(x) && moderate(
                    y,
                ) ==> {
                    &&& r ==> dx * dx + dy * dy <= reach + margin
                    &&& !r ==> dx * dx + dy * dy >= reach - margin
                }
            }),
    {
        proof {
            let exit = self.exit;
            if moderate(exit.x) && moderate(exit.y) && moderate(exit.r) && moderate(x) && moderate(
                y,
            ) {
                law_exit_is_a_disc(exit, x, y);
            }
        }
        let dx: Double = x.minus(self.exit.x);
        let dy: Double = y.minus(self.exit.y);
        norm_squared(dx, dy).le(self.exit.r.times(self.exit.r))
    }

    /// Lets players pick up items that they touch. Returns how many were taken.
    pub fn collect_items(&mut self, players: &Vec<Body>) -> (collected: u32)
        requires
            old(self)@.items.len() <= u32::MAX,
        ensures
            final(self)@ == old(self)@.offered(players@),
            collected == taken_count(old(self)@.items, players@),
    {
        let ghost start = self@.items;
        let mut collected: u32 = 0;
        let mut t: usize = 0;
        while t < self.items.len()
            invariant
                t <= self.items@.len(),
                self.items@.len() == start.len(),
                start.len() <= u32::MAX,
                start == old(self)@.items,
                self.index == old(self).index,
                self.walls == old(self).walls,
                self.enemies == old(self).enemies,
                self.exit == old(self).exit,
                collected <= t,
                collected == taken_count(start.take(t as int), players@),
                forall|k: int|
                    0 <= k < t ==> #[trigger] self.items@[k] == start[k].offered(players@),
                forall|k: int| t <= k < start.len() ==> #[trigger] self.items@[k] == start[k],
            decreases self.items@.len() - t,
        {
            let mut item: Item = self.items[t];
            if !item.collected {
                let reach: Double = encoded(PLAYER_R).plus(encoded(ITEM_R));
                let mut i: usize = 0;
                while i < players.len() && !item.collected
                    invariant
                        i <= players@.len(),
                        t < start.len(),
                        item.x == start[t as int].x,
                        item.y == start[t as int].y,
                        reach == encoded(PLAYER_R).plus(encoded(ITEM_R)),
                        item.collected == exists|k: int|
                            0 <= k < i && start[t as int].in_reach(#[trigger] players@[k]),
                    decreases players@.len() - i,
                {
                    let p: Body = players[i];
                    if norm_squared(p.pos.x.minus(item.x), p.pos.y.minus(item.y)).le(
                        reach.times(reach),
                    ) {
                        assert(start[t as int].in_reach(players@[i as int]));
                        item.collected = true;
                    }
                    i = i + 1;
                }
                if item.collected {
                    collected = collected + 1;
                }
                self.items.set(t, item);
            }
            proof {
                assert(start.take(t + 1).drop_last() =~= start.take(t as int));
                assert(self.items@[t as int] == start[t as int].offered(players@));
            }
            t = t + 1;
        }
        proof {
            assert(start.take(t as int) =~= start);
            assert(self@.items =~= old(self)@.offered(players@).items);
        }
        collected
    }
}

// ---------------------------------------------------------------------------
// Laws
// ---------------------------------------------------------------------------

/// Later levels are harder: more walls, more and tougher enemies, and no more items, of which at
/// least two are meant to be there.
pub proof fn law_difficulty_grows(earlier: u8, later: u8)
    requires
        earlier < later,
    ensures
        wall_count(earlier) < wall_count(later),
        enemy_count(earlier) < enemy_count(later),
        enemy_hp(earlier) < enemy_hp(later),
        2 <= item_count(later) <= item_count(earlier),
{
}

/// Each level draws from a stream of its own.
pub proof fn law_streams_differ(i: u8, j: u8, seed: u64)
    requires
        i != j,
    ensures
        stream_seed(i, seed) != stream_seed(j, seed),
{
    let a = (i * INDEX_MIX) as u64;
    let b = (j * INDEX_MIX) as u64;
    assert(a != b);
    assert(seed ^ a != seed ^ b) by (bit_vector)
        requires
            a != b,
    ;
}

/// Whatever words it is laid out from, a new level has at most the planned number of walls, enemies
/// and items. Walls and enemies stand still, every enemy is alive with full hit points, and no item
/// is taken.
pub proof fn law_arena_contents(index: u8, words: Seq<u64>)
    ensures
        laid_out(index, words).index == index,
        laid_out(index, words).walls.len() <= wall_count(index),
        laid_out(index, words).enemies.len() <= enemy_count(index),
        laid_out(index, words).items.len() <= item_count(index),
        forall|j: int|
            0 <= j < laid_out(index, words).walls.len() ==> {
                let w = #[trigger] laid_out(index, words).walls[j];
                w == Body::pillar_at(w.pos.x, w.pos.y, w.r)
            },
        forall|k: int|
            0 <= k < laid_out(index, words).enemies.len() ==> {
                let e = #[trigger] laid_out(index, words).enemies[k];
                &&& e.alive
                &&& e.hp == enemy_hp(index)
                &&& e.body == (Body {
                    r: encoded(ENEMY_R),
                    ..Body::player_at(e.body.pos.x, e.body.pos.y)
                })
            },
        forall|t: int|
            0 <= t < laid_out(index, words).items.len() ==> !(#[trigger] laid_out(
                index,
                words,
            ).items[t]).collected,
        laid_out(index, words).wf(),
{
    let (walls, enemies, items) = layout(index, words);
    let free = keepouts(exit_zone(index, words));
    let none = Placing { at: 2, placed: Seq::empty() };
    lemma_place_count(none, words, Kind::Wall, free, wall_count(index));
    lemma_place_count(walls, words, Kind::Enemy, free, enemy_count(index));
    lemma_place_count(enemies, words, Kind::Item, free, item_count(index));
}

/// What the circle at `k` of a layout stands for.
pub open spec fn kind_at(index: u8, words: Seq<u64>, k: int) -> Kind {
    if k < layout(index, words).0.placed.len() {
        Kind::Wall
    } else if k < layout(index, words).1.placed.len() {
        Kind::Enemy
    } else {
        Kind::Item
    }
}

/// Whether a circle keeps its gap to others.
pub open spec fn keeps_gap(c: Circle, kind: Kind, circles: Seq<Circle>) -> bool {
    clear_of_all(c.x, c.y, c.r.plus(gap(kind)), circles)
}

/// Whether a circle has the size of what it stands for.
pub open spec fn has_size(c: Circle, kind: Kind) -> bool {
    match kind {
        Kind::Wall => encoded(WALL_R_LOW).at_most(c.r) && c.r.less(encoded(WALL_R_HIGH)),
        Kind::Enemy => c.r == encoded(ENEMY_R),
        Kind::Item => c.r == encoded(ITEM_R),
    }
}

/// Whether the centre of a circle lies where entities are placed.
pub open spec fn in_area(c: Circle) -> bool {
    &&& area_low().at_most(c.x)
    &&& c.x.less(area_high(ARENA_W))
    &&& area_low().at_most(c.y)
    &&& c.y.less(area_high(ARENA_H))
}

/// Everything that is placed keeps its gap to the spawn ring, to the exit and to all that was
/// placed before it, lies well inside the rink, and has its size.
pub proof fn law_layout_clear(index: u8, words: Seq<u64>, k: int)
    requires
        0 <= k < layout(index, words).2.placed.len(),
    ensures
        ({
            let placed = layout(index, words).2.placed;
            let kind = kind_at(index, words, k);
            let exit = laid_out(index, words).exit;
            &&& keeps_gap(placed[k], kind, keepouts(exit))
            &&& keeps_gap(placed[k], kind, placed.take(k))
            &&& in_area(placed[k])
            &&& has_size(placed[k], kind)
        }),
{
    let (walls, enemies, items) = layout(index, words);
    let free = keepouts(exit_zone(index, words));
    let none = Placing { at: 2, placed: Seq::empty() };
    lemma_place_count(none, words, Kind::Wall, free, wall_count(index));
    lemma_place_count(walls, words, Kind::Enemy, free, enemy_count(index));
    lemma_place_count(enemies, words, Kind::Item, free, item_count(index));
    let w = walls.placed.len() as int;
    let e = enemies.placed.len() as int;
    if k < w {
        lemma_place_clear(none, words, Kind::Wall, free, wall_count(index), k);
        assert(items.placed.take(e)[k] == enemies.placed[k]);
        assert(enemies.placed.take(w)[k] == walls.placed[k]);
        assert(items.placed.take(k) =~= items.placed.take(e).take(k));
        assert(enemies.placed.take(k) =~= enemies.placed.take(w).take(k));
        assert(items.placed.take(k) =~= walls.placed.take(k));
    } else if k < e {
        lemma_place_clear(walls, words, Kind::Enemy, free, enemy_count(index), k);
        assert(items.placed.take(e)[k] == enemies.placed[k]);
        assert(items.placed.take(k) =~= items.placed.take(e).take(k));
    } else {
        lemma_place_clear(enemies, words, Kind::Item, free, item_count(index), k);
    }
}

/// In a new level every wall stands firm with no coordinate next to zero, and every enemy can move.
pub proof fn law_arena_stands(index: u8, words: Seq<u64>)
    ensures
        forall|j: int|
            0 <= j < laid_out(index, words).walls.len() ==> {
                let wall = #[trigger] laid_out(index, words).walls[j];
                &&& stands(wall)
                &&& wall.pos.x.exponent() >= -300
                &&& wall.pos.y.exponent() >= -300
            },
        forall|k: int|
            0 <= k < laid_out(index, words).enemies.len() ==> moves(
                (#[trigger] laid_out(index, words).enemies[k]).body,
            ),
        laid_out(index, words).walls.len() <= 1000,
        laid_out(index, words).enemies.len() <= 1000,
{
    let (walls, enemies, items) = layout(index, words);
    let level = laid_out(index, words);
    let free = keepouts(exit_zone(index, words));
    let none = Placing { at: 2, placed: Seq::empty() };
    let w = walls.placed.len() as int;
    lemma_place_count(none, words, Kind::Wall, free, wall_count(index));
    lemma_place_count(walls, words, Kind::Enemy, free, enemy_count(index));
    lemma_area();
    assert forall|j: int| 0 <= j < level.walls.len() implies {
        &&& stands(#[trigger] level.walls[j])
        &&& level.walls[j].pos.x.exponent() >= -300
        &&& level.walls[j].pos.y.exponent() >= -300
    } by {
        lemma_place_clear(none, words, Kind::Wall, free, wall_count(index), j);
        lemma_in_area(walls.placed[j]);
        lemma_exponents_ordered(walls.placed[j].r, encoded(WALL_R_HIGH));
    }
    assert forall|k: int| 0 <= k < level.enemies.len() implies moves(
        (#[trigger] level.enemies[k]).body,
    ) by {
        lemma_place_clear(walls, words, Kind::Enemy, free, enemy_count(index), w + k);
        lemma_in_area(enemies.placed[w + k]);
    }
}

/// Coordinates in the area are finite and not tiny.
proof fn lemma_in_area(c: Circle)
    requires
        in_area(c),
    ensures
        c.x.finite(),
        c.y.finite(),
        c.x.exponent() >= -300,
        c.y.exponent() >= -300,
{
    lemma_area();
    lemma_exponents_ordered(area_low(), c.x);
    lemma_exponents_ordered(area_low(), c.y);
}

/// The exit lies at most 60 away from its corner in each coordinate. The corners are at 220 or 1580
/// across and at 220 or 980 down.
pub proof fn law_exit_at_corner(index: u8, x_word: u64, y_word: u64)
    ensures
        ({
            let p = exit_point(index, x_word, y_word);
            let corner = exit_corner(index);
            &&& if index % 4 == 0 || index % 4 == 2 {
                // 1580, and from 1520 to 1640.
                &&& corner.x == encoded(0x4098_B000_0000_0000)
                &&& encoded(0x4097_C000_0000_0000).at_most(p.x)
                &&& p.x.at_most(encoded(0x4099_A000_0000_0000))
            } else {
                // 220, and from 160 to 280.
                &&& corner.x == encoded(0x406B_8000_0000_0000)
                &&& encoded(0x4064_0000_0000_0000).at_most(p.x)
                &&& p.x.at_most(encoded(0x4071_8000_0000_0000))
            }
            &&& if index % 4 == 0 || index % 4 == 3 {
                // 980, and from 920 to 1040.
                &&& corner.y == encoded(0x408E_A000_0000_0000)
                &&& encoded(0x408C_C000_0000_0000).at_most(p.y)
                &&& p.y.at_most(encoded(0x4090_4000_0000_0000))
            } else {
                // 220, and from 160 to 280.
                &&& corner.y == encoded(0x406B_8000_0000_0000)
                &&& encoded(0x4064_0000_0000_0000).at_most(p.y)
                &&& p.y.at_most(encoded(0x4071_8000_0000_0000))
            }
        }),
{
    let corner = exit_corner(index);
    lemma_corner(index);
    lemma_jittered(corner.x, x_word);
    lemma_jittered(corner.y, y_word);
    lemma_corner_range();
}

/// The corners take turns: levels whose indices differ by a multiple of four have the same one.
pub proof fn law_exit_rotates(i: u8, j: u8, x_word: u64, y_word: u64)
    requires
        i % 4 == j % 4,
    ensures
        exit_point(i, x_word, y_word) == exit_point(j, x_word, y_word),
{
}

/// An enemy chases a player that no other is nearer than: it is one of them, or all are out of
/// reach of numbers.
pub proof fn law_chases_nearest(from: Vec2, players: Seq<Body>, i: int)
    requires
        0 <= i < players.len(),
    ensures
        ({
            let t = target(from, players, players.len());
            let dx = players[i].pos.x.minus(from.x);
            let dy = players[i].pos.y.minus(from.y);
            &&& !square_norm(dx, dy).less(t.square)
            &&& t.square != encoded(INFINITE) ==> exists|j: int|
                0 <= j < players.len() && t.dx == (#[trigger] players[j]).pos.x.minus(from.x)
                    && t.dy == players[j].pos.y.minus(from.y) && t.square == square_norm(
                    t.dx,
                    t.dy,
                )
        }),
{
    lemma_target(from, players, players.len());
}

/// A step never brings an enemy back, heals it or resizes it, costs it at most one hit point for
/// each player, and leaves one that is cleared where it is. Walls, items and the exit stay as they
/// are.
pub proof fn law_enemies_only_lose(level: LevelView, players: Seq<Body>, damp: Double, k: int)
    requires
        level.wf(),
        players.len() <= i32::MAX,
        0 <= k < level.enemies.len(),
    ensures
        ({
            let before = level.enemies[k];
            let after = level.stepped(players, damp).enemies[k];
            &&& level.stepped(players, damp).enemies.len() == level.enemies.len()
            &&& before.hp - players.len() <= after.hp <= before.hp
            &&& after.alive ==> before.alive && after.hp > 0
            &&& !before.alive ==> after == before
            &&& before.alive && !after.alive ==> after.hp <= 0
            &&& after.body.r == before.body.r
        }),
        level.stepped(players, damp) == (LevelView {
            enemies: level.stepped(players, damp).enemies,
            ..level
        }),
{
    let chasing = level.chasing(players, damp);
    let bodies = enemy_bodies(chasing);
    let active = enemies_alive(chasing);
    let start = level.before_clash(players, damp);
    lemma_paired_keeps(bodies, active, k);
    lemma_pressed_keeps(
        steered(level.enemies[k].body, players, damp).walled().0,
        level.walls,
        level.walls.len(),
    );
    lemma_clash_keeps(start, level.enemies.len() as int, k);
}

/// Whether some enemy has fewer hit points than before.
pub open spec fn some_hurt(before: Seq<Enemy>, after: Seq<Enemy>) -> bool {
    exists|k: int| 0 <= k < before.len() && (#[trigger] after[k]).hp < before[k].hp
}

/// Whether some player was hit hard enough to hurt an enemy.
pub open spec fn some_hard(impulses: Seq<Double>) -> bool {
    exists|i: int|
        0 <= i < impulses.len() && (#[trigger] impulses[i]).gt(encoded(ENEMY_HIT_IMPULSE))
}

/// No impulse is negative or not a number, and an enemy is hurt in a step exactly when some player
/// takes a hit harder than the limit.
pub proof fn law_hard_hits_hurt(level: LevelView, players: Seq<Body>, damp: Double)
    requires
        level.wf(),
        players.len() <= i32::MAX,
    ensures
        level.clash(players, damp).impulses.len() == players.len(),
        forall|i: int|
            0 <= i < players.len() ==> encoded(0).at_most(
                #[trigger] level.clash(players, damp).impulses[i],
            ),
        some_hurt(level.enemies, level.stepped(players, damp).enemies) <==> some_hard(
            level.clash(players, damp).impulses,
        ),
{
    let chasing = level.chasing(players, damp);
    let start = level.before_clash(players, damp);
    assert forall|k: int| 0 <= k < level.enemies.len() implies (
    #[trigger] start.enemies[k]).hp == level.enemies[k].hp && start.enemies[k].alive
        == level.enemies[k].alive by {
        assert(chasing[k].hp == level.enemies[k].hp);
    }
    assert(accounted(start, start));
    lemma_accounted_all(start, start.enemies.len() as int);
    let after = start.meet_all(start.enemies.len() as int);
    assert(some_hurt(level.enemies, after.enemies) <==> some_hurt(start.enemies, after.enemies)) by {
        if some_hurt(level.enemies, after.enemies) {
            let k = choose|k: int|
                0 <= k < level.enemies.len() && (#[trigger] after.enemies[k]).hp
                    < level.enemies[k].hp;
            assert(after.enemies[k].hp < start.enemies[k].hp);
        }
        if some_hurt(start.enemies, after.enemies) {
            let k = choose|k: int|
                0 <= k < start.enemies.len() && (#[trigger] after.enemies[k]).hp
                    < start.enemies[k].hp;
            assert(after.enemies[k].hp < level.enemies[k].hp);
        }
    }
}

/// An item that was taken stays taken, and items do not move.
pub proof fn law_items_stay_taken(level: LevelView, players: Seq<Body>, t: int)
    requires
        0 <= t < level.items.len(),
    ensures
        level.offered(players).items.len() == level.items.len(),
        level.offered(players).items[t].x == level.items[t].x,
        level.offered(players).items[t].y == level.items[t].y,
        level.items[t].collected ==> level.offered(players).items[t].collected,
{
}

/// Nobody takes an item twice: what was just offered is not taken again.
pub proof fn law_items_taken_once(level: LevelView, players: Seq<Body>)
    ensures
        taken_count(level.offered(players).items, players) == 0,
{
    lemma_taken_once(level.items, players);
}

proof fn lemma_item_bound(index: u8, words: Seq<u64>)
    ensures
        laid_out(index, words).items.len() <= item_count(index),
{
    let (walls, enemies, items) = layout(index, words);
    let free = keepouts(exit_zone(index, words));
    lemma_place_count(enemies, words, Kind::Item, free, item_count(index));
}

/// Placing adds at most as many circles as are asked for, and keeps those that were there.
pub(crate) proof fn lemma_place_count(
    p: Placing,
    words: Seq<u64>,
    kind: Kind,
    free: Seq<Circle>,
    n: nat,
)
    ensures
        p.placed.len() <= p.place_many(words, kind, free, n).placed.len() <= p.placed.len() + n,
        p.place_many(words, kind, free, n).placed.take(p.placed.len() as int) =~= p.placed,
    decreases n,
{
    if n > 0 {
        lemma_place_count(p, words, kind, free, (n - 1) as nat);
        let q = p.place_many(words, kind, free, (n - 1) as nat);
        let r = q.place(words, kind, free);
        assert(r.placed.take(q.placed.len() as int) =~= q.placed);
        assert(r.placed.take(p.placed.len() as int) =~= q.placed.take(p.placed.len() as int));
    }
}

/// A spot that sampling finds is clear of everything, and lies in the area.
proof fn lemma_sampled_clear(
    words: Seq<u64>,
    at: nat,
    tries: nat,
    clearance: Double,
    free: Seq<Circle>,
    placed: Seq<Circle>,
)
    ensures
        sampled(words, at, tries, clearance, free, placed).0 matches Some(p) ==> {
            &&& clear_of_all(p.x, p.y, clearance, free)
            &&& clear_of_all(p.x, p.y, clearance, placed)
            &&& area_low().at_most(p.x)
            &&& p.x.less(area_high(ARENA_W))
            &&& area_low().at_most(p.y)
            &&& p.y.less(area_high(ARENA_H))
        },
    decreases tries,
{
    if tries > 0 {
        lemma_area();
        law_uniform_in_range(words[at as int], area_low(), area_high(ARENA_W));
        law_uniform_in_range(words[at as int + 1], area_low(), area_high(ARENA_H));
        lemma_sampled_clear(words, at + 2, (tries - 1) as nat, clearance, free, placed);
    }
}

/// What placing adds is clear of what was there before.
proof fn lemma_place_clear(
    p: Placing,
    words: Seq<u64>,
    kind: Kind,
    free: Seq<Circle>,
    n: nat,
    k: int,
)
    requires
        p.placed.len() <= k < p.place_many(words, kind, free, n).placed.len(),
    ensures
        ({
            let placed = p.place_many(words, kind, free, n).placed;
            &&& keeps_gap(placed[k], kind, free)
            &&& keeps_gap(placed[k], kind, placed.take(k))
            &&& in_area(placed[k])
            &&& has_size(placed[k], kind)
        }),
    decreases n,
{
    if n > 0 {
        let q = p.place_many(words, kind, free, (n - 1) as nat);
        let r = q.place(words, kind, free);
        if k < q.placed.len() {
            lemma_place_clear(p, words, kind, free, (n - 1) as nat, k);
            assert(r.placed.take(k) =~= q.placed.take(k));
        } else {
            lemma_sampled_clear(
                words,
                q.after_radius(kind),
                PLACE_TRIES as nat,
                q.radius(words, kind).plus(gap(kind)),
                free,
                q.placed,
            );
            if kind == Kind::Wall {
                law_uniform_in_range(
                    words[q.at as int],
                    encoded(WALL_R_LOW),
                    encoded(WALL_R_HIGH),
                );
            }
            assert(r.placed.take(k) =~= q.placed);
        }
    }
}

/// The area that entities are placed in reaches from 90 to 1710 and from 90 to 1110.
pub(crate) proof fn lemma_area()
    ensures
        area_low() == encoded(0x4056_8000_0000_0000),
        area_high(ARENA_W) == encoded(0x409A_B800_0000_0000),
        area_high(ARENA_H) == encoded(0x4091_5800_0000_0000),
{
    lemma2_to64();
    let body = Body::player_at(encoded(0), encoded(0));
    law_player_bounds(body);
    let inset = encoded(INSET);
    let low = encoded(0x4056_8000_0000_0000);
    let right = encoded(0x409A_B800_0000_0000);
    let bottom = encoded(0x4091_5800_0000_0000);
    lemma_scaled(inset, 13, 0x2000);
    lemma_scaled(inset.negate(), 13, 0x2000);
    lemma_scaled(body.low_bound(), 13, 0x2000);
    lemma_scaled(body.high_bound(encoded(ARENA_W)), 18, 0x4_0000);
    lemma_scaled(body.high_bound(encoded(ARENA_H)), 18, 0x4_0000);
    lemma_scaled(low, 14, 0x4000);
    lemma_scaled(right, 18, 0x4_0000);
    lemma_scaled(bottom, 18, 0x4_0000);
    lemma_plus_exact(body.low_bound(), inset, low, -60);
    lemma_plus_exact(body.high_bound(encoded(ARENA_W)), inset.negate(), right, -60);
    lemma_plus_exact(body.high_bound(encoded(ARENA_H)), inset.negate(), bottom, -60);
}

/// The exit's corners lie at 220 and 1580 across, and at 220 and 980 down.
pub(crate) proof fn lemma_corner(index: u8)
    ensures
        exit_corner(index).x.bits == if index % 4 == 0 || index % 4 == 2 {
            0x4098_B000_0000_0000
        } else {
            EXIT_MARGIN
        },
        exit_corner(index).y.bits == if index % 4 == 0 || index % 4 == 3 {
            0x408E_A000_0000_0000
        } else {
            EXIT_MARGIN
        },
{
    lemma2_to64();
    let near = encoded(EXIT_MARGIN).negate();
    let width = encoded(ARENA_W);
    let height = encoded(ARENA_H);
    let right = encoded(0x4098_B000_0000_0000);
    let bottom = encoded(0x408E_A000_0000_0000);
    lemma_scaled(near, 15, 0x8000);
    lemma_scaled(width, 18, 0x4_0000);
    lemma_scaled(height, 18, 0x4_0000);
    lemma_scaled(right, 18, 0x4_0000);
    lemma_scaled(bottom, 17, 0x2_0000);
    lemma_plus_exact(width, near, right, -60);
    lemma_plus_exact(height, near, bottom, -60);
}

/// The corners, moved by 60 either way.
proof fn lemma_corner_range()
    ensures
        encoded(EXIT_MARGIN).plus(encoded(JITTER_LOW)) == encoded(0x4064_0000_0000_0000),
        encoded(EXIT_MARGIN).plus(encoded(JITTER_HIGH)) == encoded(0x4071_8000_0000_0000),
        encoded(0x4098_B000_0000_0000).plus(encoded(JITTER_LOW)) == encoded(
            0x4097_C000_0000_0000,
        ),
        encoded(0x4098_B000_0000_0000).plus(encoded(JITTER_HIGH)) == encoded(
            0x4099_A000_0000_0000,
        ),
        encoded(0x408E_A000_0000_0000).plus(encoded(JITTER_LOW)) == encoded(
            0x408C_C000_0000_0000,
        ),
        encoded(0x408E_A000_0000_0000).plus(encoded(JITTER_HIGH)) == encoded(
            0x4090_4000_0000_0000,
        ),
{
    lemma2_to64();
    let low = encoded(JITTER_LOW);
    let high = encoded(JITTER_HIGH);
    let near = encoded(EXIT_MARGIN);
    let right = encoded(0x4098_B000_0000_0000);
    let bottom = encoded(0x408E_A000_0000_0000);
    lemma_scaled(low, 13, 0x2000);
    lemma_scaled(high, 13, 0x2000);
    lemma_scaled(near, 15, 0x8000);
    lemma_scaled(right, 18, 0x4_0000);
    lemma_scaled(bottom, 17, 0x2_0000);
    let a = encoded(0x4064_0000_0000_0000);
    let b = encoded(0x4071_8000_0000_0000);
    let c = encoded(0x4097_C000_0000_0000);
    let d = encoded(0x4099_A000_0000_0000);
    let e = encoded(0x408C_C000_0000_0000);
    let f = encoded(0x4090_4000_0000_0000);
    lemma_scaled(a, 15, 0x8000);
    lemma_scaled(b, 16, 0x1_0000);
    lemma_scaled(c, 18, 0x4_0000);
    lemma_scaled(d, 18, 0x4_0000);
    lemma_scaled(e, 17, 0x2_0000);
    lemma_scaled(f, 18, 0x4_0000);
    lemma_plus_exact(near, low, a, -60);
    lemma_plus_exact(near, high, b, -60);
    lemma_plus_exact(right, low, c, -60);
    lemma_plus_exact(right, high, d, -60);
    lemma_plus_exact(bottom, low, e, -60);
    lemma_plus_exact(bottom, high, f, -60);
}

/// A coordinate is moved by the range of the jitter at most.
proof fn lemma_jittered(corner: Double, word: u64)
    requires
        corner.finite(),
    ensures
        ({
            let low = encoded(JITTER_LOW);
            let high = encoded(JITTER_HIGH);
            let moved = corner.plus(uniform_value(word, low, high));
            corner.plus(low).at_most(moved) && moved.at_most(corner.plus(high))
        }),
{
    let low = encoded(JITTER_LOW);
    let high = encoded(JITTER_HIGH);
    let jitter = uniform_value(word, low, high);
    law_uniform_in_range(word, low, high);
    law_plus_ordered(low, jitter, corner);
    law_plus_ordered(jitter, high, corner);
    law_plus_commutes(low, corner);
    law_plus_commutes(jitter, corner);
    law_plus_commutes(high, corner);
}

proof fn lemma_taken_once(items: Seq<Item>, players: Seq<Body>)
    ensures
        taken_count(items.map_values(|t: Item| t.offered(players)), players) == 0,
    decreases items.len(),
{
    let after = items.map_values(|t: Item| t.offered(players));
    if items.len() > 0 {
        lemma_taken_once(items.drop_last(), players);
        assert(after.drop_last() =~= items.drop_last().map_values(
            |t: Item| t.offered(players),
        ));
        let last = items.last().offered(players);
        assert(after.last() == last);
        if !last.collected {
            assert forall|i: int| 0 <= i < players.len() implies !last.in_reach(
                #[trigger] players[i],
            ) by {
                assert(!items.last().in_reach(players[i]));
            }
        }
    }
}

pub(crate) proof fn lemma_target(from: Vec2, players: Seq<Body>, n: nat)
    requires
        n <= players.len(),
    ensures
        !target(from, players, n).square.nan(),
        forall|i: int|
            0 <= i < n ==> !square_norm(
                (#[trigger] players[i]).pos.x.minus(from.x),
                players[i].pos.y.minus(from.y),
            ).less(target(from, players, n).square),
        ({
            let t = target(from, players, n);
            t.square != encoded(INFINITE) ==> exists|j: int|
                0 <= j < n && t.dx == (#[trigger] players[j]).pos.x.minus(from.x) && t.dy
                    == players[j].pos.y.minus(from.y) && t.square == square_norm(t.dx, t.dy)
        }),
    decreases n,
{
    if n > 0 {
        lemma_target(from, players, (n - 1) as nat);
        let best = target(from, players, (n - 1) as nat);
        let dx = players[n - 1].pos.x.minus(from.x);
        let dy = players[n - 1].pos.y.minus(from.y);
        let square = square_norm(dx, dy);
        let t = target(from, players, n);
        if square.less(best.square) {
            assert(t.dx == players[n - 1].pos.x.minus(from.x));
        }
    }
}

/// A step keeps the number of enemies, of players and of impulses.
pub(crate) proof fn lemma_clash_len(level: LevelView, players: Seq<Body>, damp: Double)
    ensures
        level.clash(players, damp).enemies.len() == level.enemies.len(),
        level.clash(players, damp).players.len() == players.len(),
        level.clash(players, damp).impulses.len() == players.len(),
{
    lemma_meet_all_len(level.before_clash(players, damp), level.enemies.len() as int);
}

proof fn lemma_meet_all_len(start: Clash, n: int)
    requires
        n <= start.enemies.len(),
        start.impulses.len() == start.players.len(),
    ensures
        start.meet_all(n).enemies.len() == start.enemies.len(),
        start.meet_all(n).players.len() == start.players.len(),
        start.meet_all(n).impulses.len() == start.players.len(),
    decreases n,
{
    if n > 0 {
        lemma_meet_all_len(start, n - 1);
        let c = start.meet_all(n - 1);
        lemma_meet_players_len(c, n - 1, c.players.len() as int);
    }
}

proof fn lemma_meet_players_len(start: Clash, k: int, n: int)
    requires
        0 <= k < start.enemies.len(),
        n <= start.players.len(),
        start.impulses.len() == start.players.len(),
    ensures
        start.meet_players(k, n).enemies.len() == start.enemies.len(),
        start.meet_players(k, n).players.len() == start.players.len(),
        start.meet_players(k, n).impulses.len() == start.players.len(),
    decreases n,
{
    if n > 0 {
        lemma_meet_players_len(start, k, n - 1);
    }
}

/// What meeting the players does to enemy `k`.
proof fn lemma_clash_keeps(start: Clash, n: int, k: int)
    requires
        n <= start.enemies.len(),
        0 <= k < start.enemies.len(),
        start.players.len() <= i32::MAX,
        start.impulses.len() == start.players.len(),
        start.enemies[k].alive ==> start.enemies[k].hp > 0,
    ensures
        ({
            let after = start.meet_all(n);
            &&& after.enemies.len() == start.enemies.len()
            &&& after.players.len() == start.players.len()
            &&& after.impulses.len() == start.impulses.len()
            &&& n <= k ==> after.enemies[k] == start.enemies[k]
            &&& start.enemies[k].hp - start.players.len() <= after.enemies[k].hp
                <= start.enemies[k].hp
            &&& after.enemies[k].alive ==> start.enemies[k].alive && after.enemies[k].hp > 0
            &&& !start.enemies[k].alive ==> after.enemies[k] == start.enemies[k]
            &&& start.enemies[k].alive && !after.enemies[k].alive ==> after.enemies[k].hp <= 0
            &&& after.enemies[k].body.r == start.enemies[k].body.r
        }),
    decreases n,
{
    if n > 0 {
        lemma_clash_keeps(start, n - 1, k);
        let c = start.meet_all(n - 1);
        if c.enemies[n - 1].alive {
            lemma_meeting_keeps(c, n - 1, c.players.len() as int, k);
        }
    }
}

proof fn lemma_meeting_keeps(start: Clash, j: int, n: int, k: int)
    requires
        0 <= j < start.enemies.len(),
        0 <= k < start.enemies.len(),
        0 <= n <= start.players.len() <= i32::MAX,
        start.impulses.len() == start.players.len(),
        j == k ==> start.enemies[k].alive && start.enemies[k].hp > 0,
    ensures
        ({
            let after = start.meet_players(j, n);
            &&& after.enemies.len() == start.enemies.len()
            &&& after.players.len() == start.players.len()
            &&& after.impulses.len() == start.impulses.len()
            &&& j != k ==> after.enemies[k] == start.enemies[k]
            &&& j == k ==> {
                &&& start.enemies[k].hp - n <= after.enemies[k].hp <= start.enemies[k].hp
                &&& after.enemies[k].alive <==> after.enemies[k].hp > 0
                &&& after.enemies[k].body.r == start.enemies[k].body.r
            }
        }),
    decreases n,
{
    if n > 0 {
        lemma_meeting_keeps(start, j, n - 1, k);
    }
}

/// What holds at every point of the enemies' meeting with the players, against its start.
spec fn accounted(start: Clash, c: Clash) -> bool {
    &&& c.enemies.len() == start.enemies.len()
    &&& c.players.len() == start.players.len()
    &&& c.impulses.len() == start.players.len()
    &&& forall|k: int|
        0 <= k < start.enemies.len() ==> (#[trigger] c.enemies[k]).hp <= start.enemies[k].hp
    &&& forall|k: int|
        0 <= k < start.enemies.len() && (#[trigger] c.enemies[k]).alive ==> c.enemies[k].hp > 0
    &&& forall|i: int|
        0 <= i < start.players.len() ==> encoded(0).at_most(#[trigger] c.impulses[i])
    &&& some_hurt(start.enemies, c.enemies) <==> some_hard(c.impulses)
}

proof fn lemma_accounted_meet(start: Clash, c: Clash, k: int, i: int)
    requires
        accounted(start, c),
        0 <= k < start.enemies.len(),
        0 <= i < start.players.len(),
        c.enemies[k].hp > i32::MIN,
    ensures
        accounted(start, c.meet(k, i)),
        c.enemies[k].hp - 1 <= c.meet(k, i).enemies[k].hp,
{
    let next = c.meet(k, i);
    let magnitude = collided(c.players[i], c.enemies[k].body).magnitude;
    let hurt = magnitude.gt(encoded(0)) && magnitude.gt(encoded(ENEMY_HIT_IMPULSE));
    if hurt {
        assert(next.enemies[k].hp < start.enemies[k].hp);
        assert(next.impulses[i].gt(encoded(ENEMY_HIT_IMPULSE)));
    } else {
        if some_hurt(start.enemies, c.enemies) {
            let j = choose|j: int|
                0 <= j < start.enemies.len() && (#[trigger] c.enemies[j]).hp
                    < start.enemies[j].hp;
            assert(next.enemies[j].hp == c.enemies[j].hp);
            let m = choose|m: int|
                0 <= m < c.impulses.len() && (#[trigger] c.impulses[m]).gt(
                    encoded(ENEMY_HIT_IMPULSE),
                );
            assert(next.impulses[m].gt(encoded(ENEMY_HIT_IMPULSE)));
        } else {
            assert forall|j: int| 0 <= j < start.enemies.len() implies !((
            #[trigger] next.enemies[j]).hp < start.enemies[j].hp) by {
                assert(!(c.enemies[j].hp < start.enemies[j].hp));
            }
            assert forall|m: int| 0 <= m < next.impulses.len() implies !(
            #[trigger] next.impulses[m]).gt(encoded(ENEMY_HIT_IMPULSE)) by {
                assert(!c.impulses[m].gt(encoded(ENEMY_HIT_IMPULSE)));
            }
        }
    }
}

proof fn lemma_accounted_row(start: Clash, c: Clash, k: int, n: int)
    requires
        accounted(start, c),
        0 <= k < start.enemies.len(),
        0 <= n <= start.players.len() <= i32::MAX,
        c.enemies[k].alive,
    ensures
        accounted(start, c.meet_players(k, n)),
        c.enemies[k].hp - n <= c.meet_players(k, n).enemies[k].hp,
    decreases n,
{
    if n > 0 {
        lemma_accounted_row(start, c, k, n - 1);
        lemma_accounted_meet(start, c.meet_players(k, n - 1), k, n - 1);
    }
}

proof fn lemma_accounted_all(start: Clash, n: int)
    requires
        accounted(start, start),
        0 <= n <= start.enemies.len(),
        start.players.len() <= i32::MAX,
    ensures
        accounted(start, start.meet_all(n)),
    decreases n,
{
    if n > 0 {
        lemma_accounted_all(start, n - 1);
        let c = start.meet_all(n - 1);
        if c.enemies[n - 1].alive {
            lemma_accounted_row(start, c, n - 1, c.players.len() as int);
        }
    }
}

} // verus!
