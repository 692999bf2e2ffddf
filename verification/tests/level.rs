//! Levels: their layout, their enemies and their items.

use rand::rngs::StdRng;
use rand::{Rng, SeedableRng};
use speck_server::double::{encoded, Double};
use speck_server::level::{exit_anchor, Enemy, ExitZone, Item, Level};
use speck_server::physics::{damping_exponent, Body, Vec2, STEP};
use speck_server::random::uniform;

fn number(x: f64) -> Double {
    encoded(x.to_bits())
}

fn value(x: Double) -> f64 {
    f64::from_bits(x.bits)
}

fn damp() -> Double {
    number(value(damping_exponent(encoded(STEP))).exp())
}

type Spot = (f64, f64, f64);

fn free(x: f64, y: f64, clearance: f64, taken: &[Spot]) -> bool {
    taken.iter().all(|&(cx, cy, cr)| {
        let (dx, dy) = (x - cx, y - cy);
        dx * dx + dy * dy >= (cr + clearance) * (cr + clearance)
    })
}

fn spot(rng: &mut StdRng, clearance: f64, kept: &[Spot], placed: &[Spot]) -> Option<(f64, f64)> {
    for _ in 0..24 {
        let x = rng.gen_range(90.0..1710.0);
        let y = rng.gen_range(90.0..1110.0);
        if free(x, y, clearance, kept) && free(x, y, clearance, placed) {
            return Some((x, y));
        }
    }
    None
}

/// The exit, the walls, the enemies and the items of a level, drawn with the machine's numbers.
fn drawn(index: u8, seed: u64) -> ((f64, f64), Vec<Spot>, Vec<Spot>, Vec<Spot>) {
    let mut rng = StdRng::seed_from_u64(seed ^ (index as u64).wrapping_mul(0x9E3779B9));
    let n = index as i32;
    let corners = [(1580.0, 980.0), (220.0, 220.0), (1580.0, 220.0), (220.0, 980.0)];
    let (bx, by) = corners[index as usize % 4];
    let jx = rng.gen_range(-60.0..60.0);
    let jy = rng.gen_range(-60.0..60.0);
    let exit = (bx + jx, by + jy);
    let kept = [(900.0, 600.0, 260.0), (exit.0, exit.1, 130.0 + 80.0)];
    let mut placed: Vec<Spot> = Vec::new();
    for _ in 0..4 + 2 * n {
        let r = rng.gen_range(34.0..64.0);
        if let Some((x, y)) = spot(&mut rng, r + 30.0, &kept, &placed) {
            placed.push((x, y, r));
        }
    }
    let walls = placed.clone();
    for _ in 0..3 + 2 * n {
        if let Some((x, y)) = spot(&mut rng, 26.0 + 24.0, &kept, &placed) {
            placed.push((x, y, 26.0));
        }
    }
    let enemies = placed[walls.len()..].to_vec();
    let before = placed.len();
    for _ in 0..(5 - n).max(2) {
        if let Some((x, y)) = spot(&mut rng, 16.0 + 20.0, &kept, &placed) {
            placed.push((x, y, 16.0));
        }
    }
    let items = placed[before..].to_vec();
    (exit, walls, enemies, items)
}

fn check_layout(index: u8, seed: u64) {
    let level = Level::generate(index, seed);
    let (exit, walls, enemies, items) = drawn(index, seed);
    assert_eq!(level.index, index);
    assert_eq!((value(level.exit.x), value(level.exit.y), value(level.exit.r)), (
        exit.0,
        exit.1,
        130.0,
    ));
    let got: Vec<Spot> =
        level.walls.iter().map(|w| (value(w.pos.x), value(w.pos.y), value(w.r))).collect();
    assert_eq!(got, walls);
    assert!(level.walls.iter().all(|w| w.is_static));
    let got: Vec<Spot> = level
        .enemies
        .iter()
        .map(|e| (value(e.body.pos.x), value(e.body.pos.y), value(e.body.r)))
        .collect();
    assert_eq!(got, enemies);
    assert!(level.enemies.iter().all(|e| e.alive && e.hp == 2 + index as i32));
    let got: Vec<(f64, f64)> = level.items.iter().map(|t| (value(t.x), value(t.y))).collect();
    let wanted: Vec<(f64, f64)> = items.iter().map(|t| (t.0, t.1)).collect();
    assert_eq!(got, wanted);
    assert!(level.items.iter().all(|t| !t.collected));
}

#[test]
fn layouts_agree_with_the_generator() {
    for seed in 0..60u64 {
        for index in 0..4 {
            check_layout(index, seed.wrapping_mul(0x2545_F491_4F6C_DD1D) ^ 3);
        }
    }
    check_layout(0, u64::MAX);
    check_layout(9, 1);
    check_layout(60, 2);
}

#[test]
fn layouts_follow_their_words() {
    // Every draw gives the start of its range.
    let level = Level::lay_out(1, vec![0; 2 + 49 * (6 + 5 + 4)]);
    assert_eq!((value(level.exit.x), value(level.exit.y)), (160.0, 160.0));
    // The first corner of the area is kept clear for the exit, and nothing else is tried.
    assert!(level.walls.is_empty() && level.enemies.is_empty() && level.items.is_empty());
    let level = Level::lay_out(0, vec![0; 2 + 49 * (4 + 3 + 5)]);
    assert_eq!((value(level.exit.x), value(level.exit.y)), (1520.0, 920.0));
    // The first wall takes the only place.
    assert_eq!(level.walls.len(), 1);
    let wall = level.walls[0];
    assert_eq!((value(wall.pos.x), value(wall.pos.y), value(wall.r)), (90.0, 90.0, 34.0));
    assert!(level.enemies.is_empty() && level.items.is_empty());
}

#[test]
fn layouts_are_reproducible() {
    let a = Level::generate(1, 77);
    let b = Level::generate(1, 77);
    assert_eq!(format!("{:?}", a), format!("{:?}", b));
    let c = Level::generate(1, 78);
    assert_ne!(format!("{:?}", a), format!("{:?}", c));
    let d = Level::generate(2, 77);
    assert_ne!(format!("{:?}", a.exit), format!("{:?}", d.exit));
}

#[test]
fn difficulty_grows() {
    let counts: Vec<(usize, usize, usize)> = (0..3)
        .map(|i| {
            let l = Level::generate(i, 5);
            (l.walls.len(), l.enemies.len(), l.items.len())
        })
        .collect();
    assert_eq!(counts, vec![(4, 3, 5), (6, 5, 4), (8, 7, 3)]);
}

#[test]
fn entities_keep_their_gaps() {
    for seed in 0..40 {
        let l = Level::generate(2, seed);
        let exit = (value(l.exit.x), value(l.exit.y), 210.0);
        let centre = (900.0, 600.0, 260.0);
        let mut before: Vec<Spot> = Vec::new();
        for w in &l.walls {
            let (x, y, r) = (value(w.pos.x), value(w.pos.y), value(w.r));
            assert!(free(x, y, r + 30.0, &[centre, exit]) && free(x, y, r + 30.0, &before));
            assert!((90.0..1710.0).contains(&x) && (90.0..1110.0).contains(&y));
            before.push((x, y, r));
        }
        for e in &l.enemies {
            let (x, y) = (value(e.body.pos.x), value(e.body.pos.y));
            assert!(free(x, y, 50.0, &[centre, exit]) && free(x, y, 50.0, &before));
            before.push((x, y, 26.0));
        }
        for t in &l.items {
            let (x, y) = (value(t.x), value(t.y));
            assert!(free(x, y, 36.0, &[centre, exit]) && free(x, y, 36.0, &before));
            before.push((x, y, 16.0));
        }
    }
}

#[test]
fn uniform_draws_agree() {
    for seed in 0..2000 {
        let word: u64 = StdRng::seed_from_u64(seed).gen();
        for &(low, high) in &[(-60.0, 60.0), (34.0, 64.0), (90.0, 1710.0), (90.0, 1110.0)] {
            let drawn: f64 = StdRng::seed_from_u64(seed).gen_range(low..high);
            assert_eq!(value(uniform(word, number(low), number(high))), drawn);
        }
    }
    // The ends of a range.
    assert_eq!(value(uniform(0, number(90.0), number(1710.0))), 90.0);
    assert!(value(uniform(u64::MAX, number(90.0), number(1710.0))) < 1710.0);
}

fn arena(enemies: Vec<Enemy>, items: Vec<Item>) -> Level {
    Level {
        index: 0,
        walls: Vec::new(),
        enemies,
        items,
        exit: ExitZone { x: number(1580.0), y: number(980.0), r: number(130.0) },
    }
}

fn enemy(x: f64, y: f64, hp: i32) -> Enemy {
    let body = Body { r: number(26.0), ..Body::new_player(number(x), number(y)) };
    Enemy { body, hp, alive: true }
}

fn at(x: f64, y: f64, vx: f64, vy: f64) -> Body {
    Body {
        vel: Vec2 { x: number(vx), y: number(vy) },
        ..Body::new_player(number(x), number(y))
    }
}

#[test]
fn enemies_chase_the_nearest_player() {
    let mut level = arena(vec![enemy(900.0, 600.0, 2)], Vec::new());
    let mut players = vec![at(1500.0, 600.0, 0.0, 0.0), at(900.0, 300.0, 0.0, 0.0)];
    let hits = level.step_enemies(&mut players, damp());
    assert_eq!(hits.len(), 2);
    assert!(hits.iter().all(|h| value(*h) == 0.0));
    let v = level.enemies[0].body.vel;
    assert_eq!(value(v.x), 0.0);
    let vy = -1.0 * 520.0 * (1.0 / 60.0) * (-2.35f64 * (1.0 / 60.0)).exp();
    assert_eq!(value(v.y), vy);

    // Nobody to chase.
    let mut idle = arena(vec![enemy(900.0, 600.0, 2)], Vec::new());
    idle.step_enemies(&mut Vec::new(), damp());
    assert_eq!(value(idle.enemies[0].body.pos.x), 900.0);
}

#[test]
fn enemies_keep_below_their_speed() {
    let mut level = arena(vec![enemy(200.0, 600.0, 2)], Vec::new());
    let mut players = vec![at(1600.0, 600.0, 0.0, 0.0)];
    for _ in 0..240 {
        level.step_enemies(&mut players, damp());
        let v = level.enemies[0].body.vel;
        assert!(value(v.x).hypot(value(v.y)) <= 95.0 + 1e-9);
    }
    assert!(value(level.enemies[0].body.vel.x) > 94.0);
}

#[test]
fn enemies_stay_slow_among_walls() {
    let mut level = arena(vec![enemy(200.0, 600.0, 2)], Vec::new());
    for (x, y) in [(700.0, 590.0), (900.0, 640.0), (950.0, 560.0), (1200.0, 600.0)] {
        level.walls.push(Body::new_pillar(number(x), number(y), number(60.0)));
    }
    let mut players = vec![at(1600.0, 600.0, 0.0, 0.0)];
    let mut turned = false;
    for _ in 0..1200 {
        level.step_enemies(&mut players, damp());
        let v = level.enemies[0].body.vel;
        assert!(value(v.x).hypot(value(v.y)) <= 95.0001);
        turned = turned || value(v.x) < 0.0;
    }
    assert!(turned);
}

#[test]
fn walls_on_the_edge_do_not_speed_enemies_up() {
    // A wall whose centre has no other coordinate than zero.
    let mut level = arena(vec![enemy(80.0, 80.0, 2)], Vec::new());
    level.walls.push(Body::new_pillar(number(0.0), number(0.0), number(64.0)));
    // Whom the enemy chases is behind it.
    let mut players = vec![at(-200.0, -210.0, 0.0, 0.0)];
    let mut turned = false;
    for _ in 0..240 {
        level.step_enemies(&mut players, damp());
        let v = level.enemies[0].body.vel;
        assert!(value(v.x).hypot(value(v.y)) <= 95.0001);
        turned = turned || value(v.x) > 0.0;
    }
    assert!(turned);
}

#[test]
fn bumped_enemies_share_their_speed() {
    let mut level = arena(
        vec![
            enemy(600.0, 600.0, 2),
            enemy(640.0, 600.0, 2),
            enemy(620.0, 640.0, 2),
            enemy(1500.0, 900.0, 2),
        ],
        Vec::new(),
    );
    let mut players = vec![at(900.0, 610.0, 0.0, 0.0)];
    let mut shared = false;
    for _ in 0..120 {
        level.step_enemies(&mut players, damp());
        let squares: Vec<f64> = level
            .enemies
            .iter()
            .map(|e| value(e.body.vel.x).powi(2) + value(e.body.vel.y).powi(2))
            .collect();
        assert!(squares.iter().sum::<f64>() <= 4.0 * 95.0 * 95.0 + 0.5);
        // Nobody meets the last one.
        assert!(squares[3] <= 95.0001 * 95.0001);
        shared = shared || squares[..3].iter().any(|s| *s > 0.0);
    }
    assert!(shared);
}

#[test]
fn ramming_brings_no_more_than_the_players_speed() {
    let mut level = arena(vec![enemy(900.0, 600.0, 5)], Vec::new());
    let mut players = vec![at(853.0, 600.0, 400.0, 0.0), at(947.0, 620.0, -300.0, 50.0)];
    let square = |b: &Body| value(b.vel.x).powi(2) + value(b.vel.y).powi(2);
    let before: f64 = players.iter().map(square).sum();
    level.step_enemies(&mut players, damp());
    let after: f64 = players.iter().map(square).sum::<f64>() + square(&level.enemies[0].body);
    assert!(square(&level.enemies[0].body) > 0.0);
    assert!(after <= before + 95.0 * 95.0 + 0.1);
}

#[test]
fn new_levels_stand_firm() {
    for index in 0..3 {
        let level = Level::generate(index, 77);
        for w in &level.walls {
            assert!(w.is_static && value(w.vel.x) == 0.0 && value(w.vel.y) == 0.0);
            assert!((34.0..64.0).contains(&value(w.r)));
            assert!((90.0..1710.0).contains(&value(w.pos.x)));
            assert!((90.0..1110.0).contains(&value(w.pos.y)));
        }
        assert!(level.enemies.iter().all(|e| value(e.body.r) == 26.0));
    }
}

#[test]
fn enemies_bump_into_each_other() {
    let mut level = arena(vec![enemy(900.0, 600.0, 2), enemy(930.0, 600.0, 2)], Vec::new());
    let mut dead = enemy(905.0, 600.0, 0);
    dead.alive = false;
    level.enemies.push(dead);
    let mut players = vec![at(200.0, 200.0, 0.0, 0.0)];
    level.step_enemies(&mut players, damp());
    let gap = value(level.enemies[1].body.pos.x) - value(level.enemies[0].body.pos.x);
    assert!((gap - 52.0).abs() < 1e-6);
    // A cleared enemy takes no part.
    assert_eq!(value(level.enemies[2].body.pos.x), 905.0);
}

#[test]
fn only_hard_hits_hurt() {
    let mut level = arena(vec![enemy(900.0, 600.0, 2)], Vec::new());
    let mut players = vec![at(853.0, 600.0, 20.0, 0.0)];
    let hits = level.step_enemies(&mut players, damp());
    assert!(value(hits[0]) > 0.0 && value(hits[0]) < 55.0);
    assert_eq!(level.enemies[0].hp, 2);

    let mut level = arena(vec![enemy(900.0, 600.0, 2)], Vec::new());
    let mut players = vec![at(853.0, 600.0, 300.0, 0.0)];
    let hits = level.step_enemies(&mut players, damp());
    assert!(value(hits[0]) > 55.0);
    assert_eq!(level.enemies[0].hp, 1);
    assert!(level.enemies[0].alive && !level.enemies_cleared());
    // The player bounces back.
    assert!(value(players[0].vel.x) < 300.0);
}

#[test]
fn items_are_taken_once() {
    let items = vec![
        Item { x: number(500.0), y: number(500.0), collected: false },
        Item { x: number(700.0), y: number(500.0), collected: false },
        Item { x: number(500.0), y: number(500.0), collected: true },
    ];
    let mut level = arena(Vec::new(), items);
    // 22 + 16 is the reach.
    let players = vec![at(538.0, 500.0, 0.0, 0.0), at(500.0, 500.0, 0.0, 0.0)];
    assert_eq!(level.collect_items(&players), 1);
    assert!(level.items[0].collected && !level.items[1].collected);
    assert_eq!(level.collect_items(&players), 0);
    let far = vec![at(738.01, 500.0, 0.0, 0.0)];
    assert_eq!(level.collect_items(&far), 0);
    let near = vec![at(738.0, 500.0, 0.0, 0.0)];
    assert_eq!(level.collect_items(&near), 1);
}

#[test]
fn the_exit_is_a_closed_disc() {
    let level = arena(Vec::new(), Vec::new());
    assert!(level.in_exit(number(1580.0), number(980.0)));
    assert!(level.in_exit(number(1580.0 + 130.0), number(980.0)));
    assert!(!level.in_exit(number(1580.0 + 130.001), number(980.0)));
    assert!(level.in_exit(number(1580.0 - 78.0), number(980.0 + 104.0)));
    assert!(!level.in_exit(number(f64::NAN), number(980.0)));
    assert!(level.enemies_cleared());
}

#[test]
fn the_exit_stays_near_its_corner() {
    let corners = [(1580.0, 980.0), (220.0, 220.0), (1580.0, 220.0), (220.0, 980.0)];
    for seed in 0..200 {
        for index in 0..4u8 {
            let exit = Level::generate(index, seed).exit;
            let (x, y) = corners[index as usize];
            assert!((value(exit.x) - x).abs() <= 60.0 && (value(exit.y) - y).abs() <= 60.0);
        }
    }
}

#[test]
fn exit_corners_take_turns() {
    for index in 0..=255u8 {
        let a = exit_anchor(index, 0, u64::MAX);
        let b = exit_anchor(index % 4, 0, u64::MAX);
        assert_eq!((a.x.bits, a.y.bits), (b.x.bits, b.y.bits));
    }
    let p = exit_anchor(1, 0, 1 << 63);
    assert_eq!((value(p.x), value(p.y)), (160.0, 220.0));
}
