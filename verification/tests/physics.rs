//! Motion and collisions agree with the machine's arithmetic.

use speck_server::double::{encoded, Double};
use speck_server::physics::{
    damping_exponent, integrate, pillars, resolve_circle_circle, resolve_pairs, resolve_row,
    resolve_walls, Body, Vec2, ACCEL, ARENA_H, ARENA_W, FRICTION, HALF, MAX_SPEED, ONE, PLAYER_R,
    RESTITUTION, STEP, TWO, WALL_PAD,
};
use speck_server::{level, room};

fn number(x: f64) -> Double {
    encoded(x.to_bits())
}

fn value(x: Double) -> f64 {
    f64::from_bits(x.bits)
}

/// A body in the machine's numbers.
#[derive(Clone, Copy, Debug, PartialEq)]
struct Disc {
    x: f64,
    y: f64,
    vx: f64,
    vy: f64,
    r: f64,
    fixed: bool,
}

fn body(d: Disc) -> Body {
    Body {
        pos: Vec2 { x: number(d.x), y: number(d.y) },
        vel: Vec2 { x: number(d.vx), y: number(d.vy) },
        r: number(d.r),
        is_static: d.fixed,
    }
}

fn disc(b: Body) -> Disc {
    Disc {
        x: value(b.pos.x),
        y: value(b.pos.y),
        vx: value(b.vel.x),
        vy: value(b.vel.y),
        r: value(b.r),
        fixed: b.is_static,
    }
}

fn advance(d: &mut Disc, ax: f64, ay: f64, dt: f64) {
    d.vx += ax * dt;
    d.vy += ay * dt;
    let speed = (d.vx * d.vx + d.vy * d.vy).sqrt();
    if speed > 460.0 {
        let s = 460.0 / speed;
        d.vx *= s;
        d.vy *= s;
    }
    let damp = (-2.35 * dt).exp();
    d.vx *= damp;
    d.vy *= damp;
    d.x += d.vx * dt;
    d.y += d.vy * dt;
}

fn bounce(d: &mut Disc) -> f64 {
    let mut impact: f64 = 0.0;
    let (low, right, bottom) = (28.0 + d.r, 1800.0 - 28.0 - d.r, 1200.0 - 28.0 - d.r);
    if d.x < low {
        d.x = low;
        if d.vx < 0.0 {
            impact = impact.max(-d.vx);
            d.vx = -d.vx * 0.82;
        }
    } else if d.x > right {
        d.x = right;
        if d.vx > 0.0 {
            impact = impact.max(d.vx);
            d.vx = -d.vx * 0.82;
        }
    }
    if d.y < low {
        d.y = low;
        if d.vy < 0.0 {
            impact = impact.max(-d.vy);
            d.vy = -d.vy * 0.82;
        }
    } else if d.y > bottom {
        d.y = bottom;
        if d.vy > 0.0 {
            impact = impact.max(d.vy);
            d.vy = -d.vy * 0.82;
        }
    }
    impact
}

fn collide(a: &mut Disc, b: &mut Disc) -> f64 {
    let (dx, dy) = (b.x - a.x, b.y - a.y);
    let square = dx * dx + dy * dy;
    let reach = a.r + b.r;
    if square >= reach * reach {
        return 0.0;
    }
    let dist = square.sqrt();
    if dist == 0.0 {
        return 0.0;
    }
    let (nx, ny) = (dx / dist, dy / dist);
    let overlap = reach - dist;
    if b.fixed {
        a.x -= nx * overlap;
        a.y -= ny * overlap;
    } else {
        let half = overlap * 0.5;
        a.x -= nx * half;
        a.y -= ny * half;
        b.x += nx * half;
        b.y += ny * half;
    }
    let along = (b.vx - a.vx) * nx + (b.vy - a.vy) * ny;
    if along >= 0.0 {
        return overlap;
    }
    let share = if b.fixed { 1.0 } else { 0.5 };
    let impulse = -(1.0 + 0.82) * along * share;
    a.vx -= impulse * nx;
    a.vy -= impulse * ny;
    if !b.fixed {
        b.vx += impulse * nx;
        b.vy += impulse * ny;
    }
    overlap.max(impulse)
}

/// A generator of test inputs.
struct Lcg(u64);

impl Lcg {
    fn word(&mut self) -> u64 {
        self.0 = self.0.wrapping_mul(6364136223846793005).wrapping_add(1442695040888963407);
        (self.0 ^ (self.0 >> 31)).wrapping_mul(0x9E37_79B9_7F4A_7C15) >> 11
    }

    fn within(&mut self, low: f64, high: f64) -> f64 {
        low + (high - low) * (self.word() as f64 / (1u64 << 53) as f64)
    }

    fn disc(&mut self, fixed: bool) -> Disc {
        Disc {
            x: self.within(-50.0, 1850.0),
            y: self.within(-50.0, 1250.0),
            vx: self.within(-600.0, 600.0),
            vy: self.within(-600.0, 600.0),
            r: self.within(10.0, 70.0),
            fixed,
        }
    }
}

fn damp(dt: f64) -> Double {
    number(value(damping_exponent(number(dt))).exp())
}

#[test]
fn constants_hold_their_numbers() {
    let table = [
        (ARENA_W, 1800.0),
        (ARENA_H, 1200.0),
        (PLAYER_R, 22.0),
        (MAX_SPEED, 460.0),
        (ACCEL, 1650.0),
        (FRICTION, 2.35),
        (RESTITUTION, 0.82),
        (STEP, 1.0 / 60.0),
        (WALL_PAD, 28.0),
        (HALF, 0.5),
        (ONE, 1.0),
        (TWO, 2.0),
        (level::ENEMY_R, 26.0),
        (level::ENEMY_SPEED, 95.0),
        (level::ENEMY_ACCEL, 520.0),
        (level::ENEMY_HIT_IMPULSE, 55.0),
        (level::ITEM_R, 16.0),
        (level::EXIT_R, 130.0),
        (level::INSET, 40.0),
        (level::SPAWN_CLEAR, 260.0),
        (level::EXIT_CLEAR, 80.0),
        (level::EXIT_MARGIN, 220.0),
        (level::JITTER_LOW, -60.0),
        (level::JITTER_HIGH, 60.0),
        (level::WALL_R_LOW, 34.0),
        (level::WALL_R_HIGH, 64.0),
        (level::WALL_GAP, 30.0),
        (level::ENEMY_GAP, 24.0),
        (level::ITEM_GAP, 20.0),
        (room::RING_PLACES, 10.0),
        (room::PI, std::f64::consts::PI),
        (room::RING_R, 200.0),
        (room::PILLAR_BUMP, 30.0),
        (room::PLAYER_BUMP, 20.0),
        (room::WALL_BUMP, 40.0),
    ];
    for (bits, x) in table {
        assert_eq!(f64::from_bits(bits), x);
    }
}

#[test]
fn steps_agree() {
    let mut g = Lcg(1);
    for _ in 0..20000 {
        let mut d = g.disc(false);
        let mut b = body(d);
        let (ax, ay) = (g.within(-1650.0, 1650.0), g.within(-1650.0, 1650.0));
        let dt = 1.0 / 60.0;
        integrate(&mut b, number(ax), number(ay), number(dt), damp(dt));
        advance(&mut d, ax, ay, dt);
        assert_eq!(disc(b), d);
    }
}

#[test]
fn speed_is_capped() {
    let mut fast = body(Disc { x: 900.0, y: 600.0, vx: 3000.0, vy: 4000.0, r: 22.0, fixed: false });
    integrate(&mut fast, number(0.0), number(0.0), encoded(STEP), damp(1.0 / 60.0));
    let d = disc(fast);
    assert!(d.vx.hypot(d.vy) < 460.0);
    assert!((d.vx / d.vy - 0.75).abs() < 1e-12);

    let mut slow = body(Disc { x: 900.0, y: 600.0, vx: 100.0, vy: 0.0, r: 22.0, fixed: false });
    slow.cap_speed(number(460.0));
    assert_eq!(value(slow.vel.x), 100.0);
    slow.cap_speed(number(50.0));
    assert_eq!(value(slow.vel.x), 50.0);
}

#[test]
fn walls_agree() {
    let mut g = Lcg(2);
    for _ in 0..20000 {
        let mut d = g.disc(false);
        let mut b = body(d);
        let impact = resolve_walls(&mut b);
        let wanted = bounce(&mut d);
        assert_eq!(disc(b), d);
        assert_eq!(value(impact), wanted);
        assert!(d.x >= 28.0 + d.r && d.x <= 1772.0 - d.r);
    }
}

#[test]
fn a_bounce_turns_around() {
    let mut b = body(Disc { x: 40.0, y: 600.0, vx: -100.0, vy: 7.0, r: 22.0, fixed: false });
    assert_eq!(value(resolve_walls(&mut b)), 100.0);
    let d = disc(b);
    assert_eq!((d.x, d.y, d.vx, d.vy), (50.0, 600.0, 82.0, 7.0));
    // Outside, but on the way back.
    let mut b = body(Disc { x: 40.0, y: 600.0, vx: 100.0, vy: 7.0, r: 22.0, fixed: false });
    assert_eq!(value(resolve_walls(&mut b)), 0.0);
    assert_eq!(disc(b).vx, 100.0);
}

#[test]
fn collisions_agree() {
    let mut g = Lcg(3);
    for n in 0..40000 {
        let mut a = g.disc(false);
        let mut b = g.disc(n % 2 == 0);
        // Most of them overlap.
        if n % 8 != 0 {
            b.x = a.x + g.within(-90.0, 90.0);
            b.y = a.y + g.within(-90.0, 90.0);
        }
        let (mut p, mut q) = (body(a), body(b));
        let magnitude = resolve_circle_circle(&mut p, &mut q);
        let wanted = collide(&mut a, &mut b);
        assert_eq!((disc(p), disc(q)), (a, b));
        assert_eq!(value(magnitude), wanted);
    }
}

#[test]
fn collision_edge_cases() {
    let still = Disc { x: 500.0, y: 500.0, vx: 0.0, vy: 0.0, r: 22.0, fixed: false };
    // The same centre gives no direction.
    let (mut a, mut b) = (body(still), body(still));
    assert_eq!(value(resolve_circle_circle(&mut a, &mut b)), 0.0);
    assert_eq!(disc(a), still);
    // Touching is not overlapping.
    let (mut a, mut b) = (body(still), body(Disc { x: 544.0, ..still }));
    assert_eq!(value(resolve_circle_circle(&mut a, &mut b)), 0.0);
    // Overlapping at rest: pushed apart by half each.
    let (mut a, mut b) = (body(still), body(Disc { x: 540.0, ..still }));
    assert_eq!(value(resolve_circle_circle(&mut a, &mut b)), 4.0);
    assert_eq!((disc(a).x, disc(b).x), (498.0, 542.0));
    // Against a static body only the first one moves.
    let wall = Disc { x: 540.0, fixed: true, ..still };
    let (mut a, mut b) = (body(Disc { vx: 100.0, ..still }), body(wall));
    let impulse = (1.0 + 0.82) * 100.0;
    assert_eq!(value(resolve_circle_circle(&mut a, &mut b)), impulse);
    assert_eq!(disc(b), wall);
    assert_eq!((disc(a).x, disc(a).vx), (496.0, 100.0 - impulse));
    // An exchange between two that move.
    let (mut a, mut b) = (body(Disc { vx: 100.0, ..still }), body(Disc { x: 540.0, ..still }));
    assert_eq!(value(resolve_circle_circle(&mut a, &mut b)), impulse * 0.5);
    assert_eq!((disc(a).vx, disc(b).vx), (100.0 - impulse * 0.5, impulse * 0.5));
}

#[test]
fn thin_overlaps_are_felt() {
    let still = Disc { x: 500.0, y: 500.0, vx: 0.0, vy: 0.0, r: 22.0, fixed: false };
    // The largest coordinate below 544: the circles overlap by one unit in the last place.
    let near = f64::from_bits(544.0f64.to_bits() - 1);
    let (mut a, mut b) = (body(still), body(Disc { x: near, ..still }));
    let felt = value(resolve_circle_circle(&mut a, &mut b));
    assert_eq!(felt, 544.0 - near);
    assert!(felt > 0.0);
    // Nobody is made faster by what stands firm.
    let wall = Disc { x: 535.0, y: 510.0, fixed: true, ..still };
    let (mut a, mut b) = (body(Disc { vx: 70.0, vy: -40.0, ..still }), body(wall));
    resolve_circle_circle(&mut a, &mut b);
    let after = disc(a);
    assert!(after.vx != 70.0);
    assert!(after.vx.hypot(after.vy) <= 70.0f64.hypot(40.0) + 1e-6);
}

#[test]
fn rows_and_pairs_agree() {
    let mut g = Lcg(4);
    for _ in 0..400 {
        let mut a = Disc { x: g.within(480.0, 560.0), y: g.within(320.0, 400.0), ..g.disc(false) };
        let row = pillars();
        let mut b = body(a);
        let magnitudes = resolve_row(&mut b, &row);
        let wanted: Vec<f64> =
            row.iter().map(|p| collide(&mut a, &mut disc(*p))).collect();
        assert_eq!(disc(b), a);
        assert_eq!(magnitudes.iter().map(|m| value(*m)).collect::<Vec<f64>>(), wanted);

        let mut discs: Vec<Disc> = (0..5)
            .map(|_| Disc { x: g.within(500.0, 640.0), y: g.within(500.0, 640.0), ..g.disc(false) })
            .collect();
        let active: Vec<bool> = (0..5).map(|_| g.word() % 4 != 0).collect();
        let mut bodies: Vec<Body> = discs.iter().map(|d| body(*d)).collect();
        let hits = resolve_pairs(&mut bodies, &active);
        let mut wanted: Vec<(usize, usize, f64)> = Vec::new();
        for i in 0..5 {
            for j in i + 1..5 {
                if active[i] && active[j] {
                    let (mut p, mut q) = (discs[i], discs[j]);
                    wanted.push((i, j, collide(&mut p, &mut q)));
                    discs[i] = p;
                    discs[j] = q;
                }
            }
        }
        assert_eq!(bodies.iter().map(|b| disc(*b)).collect::<Vec<Disc>>(), discs);
        let got: Vec<(usize, usize, f64)> =
            hits.iter().map(|h| (h.first, h.second, value(h.magnitude))).collect();
        assert_eq!(got, wanted);
    }
}

#[test]
fn the_rink_has_five_pillars() {
    let got: Vec<(f64, f64, f64, bool)> = pillars()
        .iter()
        .map(|p| (value(p.pos.x), value(p.pos.y), value(p.r), p.is_static))
        .collect();
    assert_eq!(
        got,
        vec![
            (520.0, 360.0, 48.0, true),
            (1280.0, 360.0, 48.0, true),
            (520.0, 840.0, 48.0, true),
            (1280.0, 840.0, 48.0, true),
            (900.0, 600.0, 36.0, true),
        ]
    );
}

#[test]
fn nothing_speeds_up_by_itself() {
    let mut g = Lcg(5);
    for _ in 0..5000 {
        let before = g.disc(false);
        let mut b = body(before);
        integrate(&mut b, number(0.0), number(0.0), encoded(STEP), damp(1.0 / 60.0));
        let after = disc(b);
        assert!(after.vx.abs() <= before.vx.abs() && after.vy.abs() <= before.vy.abs());
        let mut b = body(before);
        resolve_walls(&mut b);
        let after = disc(b);
        assert!(after.vx.abs() <= before.vx.abs() && after.vy.abs() <= before.vy.abs());
    }
    // Friction takes more than a sixty-fourth per step.
    assert!(value(damp(1.0 / 60.0)) <= 63.0 / 64.0);
}

#[test]
fn the_speed_limit_holds_for_any_push() {
    for push in [0.0, 1e3, 1e9, 1e150, 1e200, 1e300, -1e300] {
        let mut b = body(Disc { x: 0.0, y: 0.0, vx: 460.0, vy: -460.0, r: 22.0, fixed: false });
        integrate(&mut b, number(push), number(-push), encoded(STEP), damp(1.0 / 60.0));
        let d = disc(b);
        assert!(d.vx * d.vx + d.vy * d.vy <= 460.0 * 460.0);
    }
    // Whatever friction leaves of the speed, the limit shrinks with it.
    for left in [0.0, 1e-300, 0.25, 0.984375, 0.999, 1.0] {
        let mut b = body(Disc { x: 0.0, y: 0.0, vx: 900.0, vy: 700.0, r: 22.0, fixed: false });
        integrate(&mut b, number(0.0), number(1e6), encoded(STEP), number(left));
        let d = disc(b);
        let square = d.vx * d.vx + d.vy * d.vy;
        assert!(square <= 211600.0 * left * left + 0.001);
        assert!(square >= 211600.0 * left * left - 0.001);
    }
}

#[test]
fn crowds_do_not_speed_up() {
    let mut g = Lcg(9);
    for _ in 0..50 {
        let discs: Vec<Disc> = (0..8)
            .map(|_| Disc {
                x: g.within(500.0, 590.0),
                y: g.within(500.0, 590.0),
                vx: g.within(-450.0, 450.0),
                vy: g.within(-450.0, 450.0),
                r: 26.0,
                fixed: false,
            })
            .collect();
        let square = |d: &Disc| d.vx * d.vx + d.vy * d.vy;
        let before: f64 = discs.iter().map(square).sum();
        let mut bodies: Vec<Body> = discs.iter().map(|d| body(*d)).collect();
        let active = vec![true; bodies.len()];
        resolve_pairs(&mut bodies, &active);
        let after: f64 = bodies.iter().map(|b| square(&disc(*b))).sum();
        assert!(after <= before + 0.02 * 64.0);
        assert!(after < before);
    }
}
