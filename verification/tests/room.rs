//! Rooms: the campaign from lobby to victory, ticks, and what is sent.

use speck_server::double::{encoded, Double};
use speck_server::level::{Enemy, Item, CAMPAIGN_LEVELS};
use speck_server::physics::{damping_exponent, Body, Vec2, PLAYER_R, STEP};
use speck_server::protocol::{CampaignState, ServerMsg};
use speck_server::room::{spawn_angle, Phase, Player, Room, INDEX_LIMIT, MAX_PLAYERS};

fn number(x: f64) -> Double {
    encoded(x.to_bits())
}

fn value(x: Double) -> f64 {
    f64::from_bits(x.bits)
}

fn damp() -> Double {
    number(value(damping_exponent(encoded(STEP))).exp())
}

fn heading(index: usize) -> Vec2 {
    let angle = value(spawn_angle(index));
    Vec2 { x: number(angle.cos()), y: number(angle.sin()) }
}

fn join(room: &mut Room, id: &str, name: &str) -> u8 {
    let towards = heading(room.players.len());
    room.add_player(id.to_string(), name.to_string(), "#fff".to_string(), towards)
}

fn player<'a>(room: &'a mut Room, id: &str) -> &'a mut Player {
    let at = room.find(id).unwrap();
    &mut room.players[at]
}

fn put(room: &mut Room, id: &str, x: f64, y: f64, vx: f64, vy: f64) {
    let body = &mut player(room, id).body;
    body.pos = Vec2 { x: number(x), y: number(y) };
    body.vel = Vec2 { x: number(vx), y: number(vy) };
}

fn ready_all(room: &mut Room) -> bool {
    let ids: Vec<String> = room.players.iter().map(|p| p.id.clone()).collect();
    let mut trigger = false;
    for id in ids {
        trigger = room.set_ready(&id, true);
    }
    trigger
}

/// Makes the current level clearable: no enemy is left, and everybody is in the exit.
fn force_clear(room: &mut Room) {
    if let Some(level) = room.level.as_mut() {
        for e in level.enemies.iter_mut() {
            e.alive = false;
        }
        let (ex, ey) = (level.exit.x, level.exit.y);
        for p in room.players.iter_mut() {
            p.body.pos.x = ex;
            p.body.pos.y = ey;
            p.body.vel.x = number(0.0);
            p.body.vel.y = number(0.0);
        }
    }
}

#[test]
fn auto_starts_when_all_ready() {
    let mut room = Room::new("t".into());
    join(&mut room, "a", "A");
    join(&mut room, "b", "B");
    assert_eq!(room.phase, Phase::Lobby);

    // One ready is not enough.
    assert!(!room.set_ready("a", true));
    assert_eq!(room.phase, Phase::Lobby);

    // Both ready.
    assert!(room.set_ready("b", true));
    room.start_campaign();
    assert_eq!(room.phase, Phase::Playing);
    let l = room.level.as_ref().expect("level generated");
    assert_eq!(l.index, 0);
    assert!(!l.walls.is_empty());
    assert!(!l.enemies.is_empty());
    assert!(!l.items.is_empty());
}

#[test]
fn progresses_through_all_levels_to_victory() {
    let mut room = Room::new("t".into());
    join(&mut room, "a", "A");
    join(&mut room, "b", "B");
    assert!(ready_all(&mut room));
    room.start_campaign();

    for expected in 0..CAMPAIGN_LEVELS {
        assert_eq!(room.phase, Phase::Playing);
        assert_eq!(room.level.as_ref().unwrap().index, expected);
        force_clear(&mut room);
        room.tick(damp());
    }
    assert_eq!(room.phase, Phase::Victory);
    assert!(room.level.is_none());
    // The group can run it again.
    assert!(room.players.iter().all(|p| !p.ready));
}

#[test]
fn can_restart_from_victory() {
    let mut room = Room::new("t".into());
    join(&mut room, "a", "A");
    assert!(ready_all(&mut room));
    room.start_campaign();
    for _ in 0..CAMPAIGN_LEVELS {
        force_clear(&mut room);
        room.tick(damp());
    }
    assert_eq!(room.phase, Phase::Victory);

    assert!(room.set_ready("a", true));
    room.start_campaign();
    assert_eq!(room.phase, Phase::Playing);
    assert_eq!(room.level.as_ref().unwrap().index, 0);
}

#[test]
fn does_not_progress_until_everyone_in_exit() {
    let mut room = Room::new("t".into());
    join(&mut room, "a", "A");
    join(&mut room, "b", "B");
    assert!(ready_all(&mut room));
    room.start_campaign();

    // No enemy is left, and only one player is in the exit.
    let level = room.level.as_mut().unwrap();
    for e in level.enemies.iter_mut() {
        e.alive = false;
    }
    let (ex, ey) = (level.exit.x, level.exit.y);
    let a = player(&mut room, "a");
    a.body.pos.x = ex;
    a.body.pos.y = ey;
    // The other one is far away from it.
    let b = player(&mut room, "b");
    b.body.pos.x = number(100.0);
    b.body.pos.y = number(100.0);

    room.tick(damp());
    assert_eq!(room.phase, Phase::Playing);
    assert_eq!(room.level.as_ref().unwrap().index, 0);
}

#[test]
fn empty_room_resets_to_lobby() {
    let mut room = Room::new("t".into());
    join(&mut room, "a", "A");
    assert!(ready_all(&mut room));
    room.start_campaign();
    assert_eq!(room.phase, Phase::Playing);

    room.remove_player("a");
    assert_eq!(room.phase, Phase::Lobby);
    assert!(room.level.is_none());
}

#[test]
fn players_spawn_on_the_ring() {
    let mut room = Room::new("t".into());
    for i in 0..10 {
        join(&mut room, &format!("p{}", i), "P");
        let angle = i as f64 * (2.0 * std::f64::consts::PI / 10.0);
        let body = room.players[i].body;
        assert_eq!(value(body.pos.x), 1800.0 / 2.0 + angle.cos() * 200.0);
        assert_eq!(value(body.pos.y), 1200.0 / 2.0 + angle.sin() * 200.0);
        assert_eq!(value(body.vel.x), 0.0);
        assert_eq!(body.r.bits, PLAYER_R);
        assert!(!body.is_static);
    }
    assert!(room.is_full());
    assert_eq!(MAX_PLAYERS, 10);
}

#[test]
fn players_spawn_apart() {
    let digits = [
        (1.0, 0.0),
        (0.809, 0.588),
        (0.309, 0.951),
        (-0.309, 0.951),
        (-0.809, 0.588),
        (-1.0, 0.0),
        (-0.809, -0.588),
        (-0.309, -0.951),
        (0.309, -0.951),
        (0.809, -0.588),
    ];
    let mut room = Room::new("t".into());
    for i in 0..MAX_PLAYERS {
        let towards = heading(i);
        assert!((value(towards.x) - digits[i].0).abs() <= 0.001);
        assert!((value(towards.y) - digits[i].1).abs() <= 0.001);
        join(&mut room, &format!("p{}", i), "P");
    }
    for i in 0..MAX_PLAYERS {
        for j in 0..i {
            let (a, b) = (room.players[i].body.pos, room.players[j].body.pos);
            let distance = (value(a.x) - value(b.x)).hypot(value(a.y) - value(b.y));
            assert!(distance > 44.0);
        }
    }
    // Nobody is told of a bump.
    assert!(room.tick(damp()).is_empty());
}

#[test]
fn indices_are_reused_from_the_smallest() {
    let mut room = Room::new("t".into());
    assert_eq!(join(&mut room, "a", "A"), 0);
    assert_eq!(join(&mut room, "b", "B"), 1);
    assert_eq!(join(&mut room, "c", "C"), 2);
    room.remove_player("b");
    assert_eq!(join(&mut room, "d", "D"), 1);
    assert_eq!(join(&mut room, "e", "E"), 3);
    // Who joins again keeps a place, and may get a smaller index.
    room.remove_player("a");
    assert_eq!(join(&mut room, "e", "again"), 0);
    assert_eq!(room.players.len(), 3);
    assert_eq!(room.players[room.find("e").unwrap()].name, "again");
}

#[test]
fn every_index_can_be_given_out() {
    let mut room = Room::new("t".into());
    for i in 0..INDEX_LIMIT {
        let idx = room.add_player(format!("p{}", i), "P".into(), "#fff".into(), heading(0));
        assert_eq!(idx as usize, i);
    }
}

#[test]
fn leaving_undoes_joining() {
    let mut room = Room::new("t".into());
    join(&mut room, "a", "A");
    join(&mut room, "b", "B");
    let before = room.state_snapshot();
    join(&mut room, "c", "C");
    room.remove_player("c");
    assert_eq!(format!("{:?}", room.state_snapshot()), format!("{:?}", before));
    room.remove_player("nobody");
    assert_eq!(format!("{:?}", room.state_snapshot()), format!("{:?}", before));
}

#[test]
fn ready_flags_decide_the_start() {
    let mut room = Room::new("t".into());
    // Nobody is there.
    assert!(!room.set_ready("a", true));
    join(&mut room, "a", "A");
    join(&mut room, "b", "B");
    assert!(!room.set_ready("a", true));
    assert!(!room.set_ready("a", false));
    assert!(!room.set_ready("b", true));
    assert!(room.set_ready("a", true));
    assert!(room.start_campaign().is_some());
    // A second start does nothing.
    let seed = room.campaign_seed;
    assert!(!room.set_ready("a", true));
    assert!(room.start_campaign().is_none());
    assert_eq!(room.campaign_seed, seed);
}

#[test]
fn seeds_follow_tick_and_player_count() {
    let mut room = Room::new("t".into());
    join(&mut room, "a", "A");
    room.tick = 7;
    room.start_campaign();
    assert_eq!(room.campaign_seed, 7u64.wrapping_mul(0x2545F4914F6CDD1D) ^ 2);

    let mut later = Room::new("t".into());
    join(&mut later, "a", "A");
    later.tick = 8;
    later.start_campaign();
    assert_ne!(later.campaign_seed, room.campaign_seed);
}

#[test]
fn input_is_scaled_down_only() {
    let mut room = Room::new("t".into());
    join(&mut room, "a", "A");
    room.set_input("a", number(0.25), number(-0.5), 3);
    let input = room.players[0].input;
    assert_eq!((value(input.x), value(input.y), input.seq), (0.25, -0.5, 3));
    room.set_input("a", number(3.0), number(-4.0), 4);
    let input = room.players[0].input;
    assert_eq!((value(input.x), value(input.y), input.seq), (3.0 / 5.0, -4.0 / 5.0, 4));
    // However large or small it is, what is stored is of moderate size.
    for x in [f64::MAX, 1e200, 1e-200, f64::MIN_POSITIVE, 5e-324] {
        for y in [f64::MAX, -1e160, 1e-160, 0.0] {
            room.set_input("a", number(x), number(y), 4);
            let input = room.players[0].input;
            assert!(value(input.x).abs() <= 16.0 && value(input.y).abs() <= 16.0);
        }
    }
    // Others are not touched, and an unknown id is ignored.
    room.set_input("b", number(1.0), number(0.0), 9);
    assert_eq!(room.players[0].input.seq, 4);
}

#[test]
fn motion_keeps_a_room_awake() {
    let mut room = Room::new("t".into());
    assert!(!room.any_motion());
    join(&mut room, "a", "A");
    assert!(!room.any_motion());
    room.set_input("a", number(0.0), number(-0.1), 1);
    assert!(room.any_motion());
    room.set_input("a", number(0.0), number(-0.0), 2);
    assert!(!room.any_motion());
    player(&mut room, "a").body.vel.x = number(1.0);
    assert!(!room.any_motion());
    player(&mut room, "a").body.vel.x = number(1.0000001);
    assert!(room.any_motion());
    player(&mut room, "a").body.vel.x = number(0.0);
    room.start_campaign();
    assert!(room.any_motion());
}

#[test]
fn a_tick_moves_and_acknowledges() {
    let mut room = Room::new("t".into());
    join(&mut room, "a", "A");
    put(&mut room, "a", 900.0, 300.0, 0.0, 0.0);
    room.set_input("a", number(1.0), number(0.0), 12);
    assert!(room.tick(damp()).is_empty());
    assert_eq!(room.tick, 1);
    let p = &room.players[0];
    assert_eq!(p.last_seq, 12);
    let vx = 1650.0 * (1.0 / 60.0) * (-2.35f64 * (1.0 / 60.0)).exp();
    assert_eq!(value(p.body.vel.x), vx);
    assert_eq!(value(p.body.pos.x), 900.0 + vx * (1.0 / 60.0));
    assert_eq!(value(p.body.pos.y), 300.0);
}

#[test]
fn the_tick_counter_wraps() {
    let mut room = Room::new("t".into());
    join(&mut room, "a", "A");
    room.tick = u32::MAX;
    room.tick(damp());
    assert_eq!(room.tick, 0);
}

fn bump(msg: &ServerMsg) -> (String, String, f64) {
    match msg {
        ServerMsg::Bump { id, other, impulse } => (id.clone(), other.clone(), value(*impulse)),
        _ => panic!("no bump: {:?}", msg),
    }
}

#[test]
fn hard_hits_are_told() {
    // A pillar stands at (520, 360) with radius 48.
    let mut room = Room::new("t".into());
    join(&mut room, "a", "A");
    put(&mut room, "a", 455.0, 360.0, 400.0, 0.0);
    let sent = room.tick(damp());
    assert_eq!(sent.len(), 1);
    let (id, other, impulse) = bump(&sent[0]);
    assert_eq!((id.as_str(), other.as_str()), ("a", "pillar"));
    assert!(impulse > 30.0);
    assert!(value(room.players[0].body.vel.x) < 0.0);

    // The wall.
    put(&mut room, "a", 51.0, 600.0, -400.0, 0.0);
    let sent = room.tick(damp());
    let (id, other, impulse) = bump(&sent[0]);
    assert_eq!((id.as_str(), other.as_str()), ("a", "wall"));
    assert!(impulse > 40.0);
    assert_eq!(value(room.players[0].body.pos.x), 50.0);
    assert!(value(room.players[0].body.vel.x) > 0.0);

    // The limits: 40 at the wall, 30 at a pillar.
    put(&mut room, "a", 50.1, 600.0, -41.0, 0.0);
    assert!(room.tick(damp()).is_empty());
    put(&mut room, "a", 50.1, 600.0, -43.0, 0.0);
    assert_eq!(room.tick(damp()).len(), 1);
    put(&mut room, "a", 450.1, 360.0, 16.0, 0.0);
    assert!(room.tick(damp()).is_empty());
    put(&mut room, "a", 450.1, 360.0, 18.0, 0.0);
    assert_eq!(room.tick(damp()).len(), 1);

    // A slow touch is not told.
    put(&mut room, "a", 50.1, 600.0, -30.0, 0.0);
    assert!(room.tick(damp()).is_empty());
    assert_eq!(value(room.players[0].body.pos.x), 50.0);
}

#[test]
fn players_bump_each_other() {
    let mut room = Room::new("t".into());
    join(&mut room, "a", "A");
    join(&mut room, "b", "B");
    put(&mut room, "a", 880.0, 300.0, 200.0, 0.0);
    put(&mut room, "b", 920.0, 300.0, -200.0, 0.0);
    let sent = room.tick(damp());
    assert_eq!(sent.len(), 1);
    let (id, other, impulse) = bump(&sent[0]);
    assert_eq!((id.as_str(), other.as_str()), ("a", "b"));
    assert!(impulse > 20.0);
    assert!(value(room.players[0].body.vel.x) < 0.0);
    assert!(value(room.players[1].body.vel.x) > 0.0);
}

#[test]
fn pairs_are_told_once() {
    let mut room = Room::new("t".into());
    join(&mut room, "a", "A");
    join(&mut room, "b", "B");
    join(&mut room, "c", "C");
    put(&mut room, "a", 700.0, 300.0, 200.0, 0.0);
    put(&mut room, "b", 740.0, 300.0, 0.0, 0.0);
    put(&mut room, "c", 720.0, 335.0, 0.0, -200.0);
    let mut told: Vec<(String, String)> = Vec::new();
    for msg in room.tick(damp()) {
        let (id, other, impulse) = bump(&msg);
        assert!(impulse > 20.0);
        assert!(id < other && !told.contains(&(id.clone(), other.clone())));
        told.push((id, other));
    }
    assert!(told.len() >= 2);
    // A hit of 18 between players is not told, one of 22 is.
    put(&mut room, "c", 1200.0, 1000.0, 0.0, 0.0);
    for (speed, count) in [(20.0, 0), (25.0, 1)] {
        put(&mut room, "a", 700.0, 300.0, speed, 0.0);
        put(&mut room, "b", 743.9, 300.0, 0.0, 0.0);
        assert_eq!(room.tick(damp()).len(), count);
    }
}

#[test]
fn advancing_sends_phase_and_level() {
    let mut room = Room::new("t".into());
    join(&mut room, "a", "A");
    room.start_campaign();
    for expected in 1..=CAMPAIGN_LEVELS {
        force_clear(&mut room);
        let sent = room.tick(damp());
        let last = expected == CAMPAIGN_LEVELS;
        let campaign = &sent[sent.len() - if last { 1 } else { 2 }];
        match campaign {
            ServerMsg::Campaign { phase, level } => {
                assert_eq!(phase, if last { "victory" } else { "playing" });
                assert_eq!(*level, expected);
            }
            other => panic!("{:?}", other),
        }
        if !last {
            match &sent[sent.len() - 1] {
                ServerMsg::Level { index, levels, walls, enemies, items, exit } => {
                    let l = room.level.as_ref().unwrap();
                    assert_eq!((*index, *levels), (expected, 3));
                    assert_eq!(walls.len(), l.walls.len());
                    assert_eq!(enemies.len(), l.enemies.len());
                    assert_eq!(items.len(), l.items.len());
                    assert_eq!(exit.r, 130);
                }
                other => panic!("{:?}", other),
            }
        }
    }
}

#[test]
fn enemies_are_rammed_down() {
    let mut room = Room::new("t".into());
    join(&mut room, "a", "A");
    room.start_campaign();
    let body = Body::new_player(number(900.0), number(300.0));
    let level = room.level.as_mut().unwrap();
    level.walls.clear();
    level.items = vec![Item { x: number(860.0), y: number(300.0), collected: false }];
    level.enemies = vec![Enemy { body: Body { r: number(26.0), ..body }, hp: 1, alive: true }];
    put(&mut room, "a", 850.0, 300.0, 400.0, 0.0);
    let sent = room.tick(damp());
    let (id, other, impulse) = bump(&sent[0]);
    assert_eq!((id.as_str(), other.as_str()), ("a", "enemy"));
    assert!(impulse > 55.0);
    let level = room.level.as_ref().unwrap();
    assert_eq!(level.enemies[0].hp, 0);
    assert!(!level.enemies[0].alive);
    assert!(level.enemies_cleared());
    assert!(level.items[0].collected);
    assert_eq!(level.index, 0);

    // Who is cleared does not move any more.
    let at = level.enemies[0].body.pos;
    room.tick(damp());
    let now = room.level.as_ref().unwrap().enemies[0].body.pos;
    assert_eq!((at.x.bits, at.y.bits), (now.x.bits, now.y.bits));
}

fn campaign(room: &Room) -> CampaignState {
    match room.state_snapshot() {
        ServerMsg::State { campaign, .. } => campaign.unwrap(),
        other => panic!("{:?}", other),
    }
}

#[test]
fn snapshots_show_players_and_campaign() {
    let mut room = Room::new("t".into());
    match room.state_snapshot() {
        ServerMsg::State { tick, players, campaign } => {
            assert_eq!(tick, 0);
            assert!(players.is_empty());
            assert!(campaign.is_none());
        }
        other => panic!("{:?}", other),
    }
    join(&mut room, "a", "A");
    join(&mut room, "b", "B");
    room.set_ready("b", true);
    room.tick(damp());
    match room.state_snapshot() {
        ServerMsg::State { tick, players, .. } => {
            assert_eq!(tick, 1);
            assert_eq!(players.len(), 2);
            assert_eq!((players[0].id.as_str(), players[0].name.as_str()), ("a", "A"));
            assert_eq!(players[0].x.bits, room.players[0].body.pos.x.bits);
            assert_eq!((players[0].ready, players[1].ready), (false, true));
        }
        other => panic!("{:?}", other),
    }
    let lobby = campaign(&room);
    assert_eq!((lobby.phase.as_str(), lobby.level, lobby.levels), ("lobby", 0, 3));
    assert_eq!((lobby.in_zone, lobby.total), (0, 2));
    assert!(lobby.walls.is_empty() && lobby.enemies.is_empty() && lobby.items.is_empty());
    assert_eq!((lobby.exit.x, lobby.exit.y, lobby.exit.r), (0, 0, 0));

    room.start_campaign();
    let exit = room.level.as_ref().unwrap().exit;
    put(&mut room, "a", value(exit.x), value(exit.y), 0.0, 0.0);
    let playing = campaign(&room);
    assert_eq!(playing.phase, "playing");
    assert_eq!((playing.in_zone, playing.total), (1, 2));
    assert_eq!(playing.exit.x, value(exit.x).round() as i32);
    assert_eq!(playing.exit.y, value(exit.y).round() as i32);
    let level = room.level.as_ref().unwrap();
    assert_eq!(playing.walls.len(), level.walls.len());
    assert_eq!(playing.walls[0].r, value(level.walls[0].r).round() as i32);
    assert_eq!(playing.enemies[0].x.bits, level.enemies[0].body.pos.x.bits);
    assert_eq!(playing.enemies[0].hp, 2);
    assert!(playing.enemies[0].alive);
    assert!(!playing.items[0].collected);

    for _ in 0..CAMPAIGN_LEVELS {
        force_clear(&mut room);
        room.tick(damp());
    }
    assert_eq!(campaign(&room).phase, "victory");
}

#[test]
fn level_messages_use_whole_units() {
    let mut room = Room::new("t".into());
    join(&mut room, "a", "A");
    assert!(!room.has_level());
    let sent = room.start_campaign().unwrap();
    assert!(room.has_level());
    let level = room.level.as_ref().unwrap();
    match sent {
        ServerMsg::Level { index, levels, walls, enemies, items, exit } => {
            assert_eq!((index, levels), (0, 3));
            for (w, b) in walls.iter().zip(&level.walls) {
                assert_eq!(w.x, value(b.pos.x).round() as i32);
                assert_eq!(w.y, value(b.pos.y).round() as i32);
                assert_eq!(w.r, value(b.r).round() as i32);
            }
            for (k, (e, b)) in enemies.iter().zip(&level.enemies).enumerate() {
                assert_eq!(e.i as usize, k);
                assert_eq!(e.x, value(b.body.pos.x).round() as i32);
                assert_eq!((e.r, e.hp), (26, 2));
            }
            for (k, (t, b)) in items.iter().zip(&level.items).enumerate() {
                assert_eq!(t.i as usize, k);
                assert_eq!(t.y, value(b.y).round() as i32);
            }
            assert_eq!(exit.x, value(level.exit.x).round() as i32);
            assert_eq!(exit.r, 130);
        }
        other => panic!("{:?}", other),
    }
}

#[test]
fn whoever_is_far_out_comes_back_inside() {
    for far in [1e4, -1e9, 1e155, -1e300, f64::MAX] {
        for fast in [0.0, 1e200, f64::MAX, -f64::MAX] {
            let mut room = Room::new("t".into());
            join(&mut room, "a", "A");
            join(&mut room, "b", "B");
            put(&mut room, "a", far, -far, fast, fast);
            put(&mut room, "b", far, 600.0, -fast, 5e-324);
            room.set_input("a", number(1.0), number(-1.0), 1);
            room.tick(damp());
            for p in &room.players {
                let (x, y) = (value(p.body.pos.x), value(p.body.pos.y));
                assert!((50.0..=1750.0).contains(&x) && (50.0..=1150.0).contains(&y));
            }
        }
    }
}

#[test]
fn everybody_stays_inside_the_walls() {
    let mut room = Room::new("t".into());
    for i in 0..10 {
        join(&mut room, &format!("p{}", i), "P");
    }
    for t in 0..600u32 {
        for i in 0..10u32 {
            let turn = ((t / 40 + 3 * i) % 8) as f64 * 0.785;
            room.set_input(
                &format!("p{}", i),
                number(2.0 * turn.cos()),
                number(2.0 * turn.sin()),
                t,
            );
        }
        room.tick(damp());
        for p in &room.players {
            let (x, y) = (value(p.body.pos.x), value(p.body.pos.y));
            assert!((50.0..=1750.0).contains(&x) && (50.0..=1150.0).contains(&y));
        }
    }
}
