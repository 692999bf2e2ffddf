//! The server: rooms, sessions, and who is sent what.

use speck_server::double::{encoded, Double};
use speck_server::physics::{damping_exponent, Vec2, STEP};
use speck_server::protocol::{encode_binary, framed, ClientMsg, Outbound, ServerMsg};
use speck_server::room::{spawn_angle, Phase, MAX_PLAYERS};
use speck_server::server::{
    pace, Delivery, RoomHandle, Server, Session, IDLE_KEEPALIVE_EVERY, STATE_EVERY, STEP_NANOS,
};

fn number(x: f64) -> Double {
    encoded(x.to_bits())
}

fn value(x: Double) -> f64 {
    f64::from_bits(x.bits)
}

fn server() -> Server {
    let headings = (0..MAX_PLAYERS)
        .map(|i| {
            let angle = value(spawn_angle(i));
            Vec2 { x: number(angle.cos()), y: number(angle.sin()) }
        })
        .collect();
    Server::new(headings, number(value(damping_exponent(encoded(STEP))).exp()))
}

fn join(server: &mut Server, session: &mut Session, room: &str) -> Vec<Delivery> {
    let name = session.id.to_uppercase();
    server.handle(
        session,
        ClientMsg::Join { room: room.to_string(), name, color: "#fff".to_string() },
    )
}

fn shown(sent: &[Delivery]) -> Vec<String> {
    sent.iter()
        .map(|d| {
            let msg = match &d.msg {
                ServerMsg::Welcome { id, idx, tick } => format!("welcome {} {} {}", id, idx, tick),
                ServerMsg::PlayerJoin { id, idx, name, color } => {
                    format!("join {} {} {} {}", id, idx, name, color)
                }
                ServerMsg::PlayerLeave { id } => format!("leave {}", id),
                ServerMsg::Pong { ts } => format!("pong {}", ts),
                ServerMsg::Level { index, .. } => format!("level {}", index),
                other => panic!("{:?}", other),
            };
            format!("{} <- {}", d.to.join(","), msg)
        })
        .collect()
}

#[test]
fn joining_greets_and_announces() {
    let mut s = server();
    let mut a = Session::new("a".into());
    let mut b = Session::new("b".into());
    let mut c = Session::new("c".into());
    assert_eq!(shown(&join(&mut s, &mut a, "x")), vec![" <- join a 0 A #fff", "a <- welcome a 0 0"]);
    assert_eq!(a.room.as_deref(), Some("x"));
    assert_eq!(
        shown(&join(&mut s, &mut b, "x")),
        vec!["a <- join b 1 B #fff", "b <- welcome b 1 0", "b <- join a 0 A #fff"]
    );
    s.tick();
    assert_eq!(
        shown(&join(&mut s, &mut c, "x")),
        vec![
            "a,b <- join c 2 C #fff",
            "c <- welcome c 2 1",
            "c <- join a 0 A #fff",
            "c <- join b 1 B #fff",
        ]
    );
    assert_eq!(s.rooms.len(), 1);
}

#[test]
fn switching_rooms_leaves_the_old_one() {
    let mut s = server();
    let mut a = Session::new("a".into());
    let mut b = Session::new("b".into());
    join(&mut s, &mut a, "x");
    join(&mut s, &mut b, "x");
    assert_eq!(
        shown(&join(&mut s, &mut a, "y")),
        vec!["b <- leave a", " <- join a 0 A #fff", "a <- welcome a 0 0"]
    );
    assert_eq!(a.room.as_deref(), Some("y"));
    assert_eq!(s.audience("x"), vec!["b"]);
    assert_eq!(s.audience("y"), vec!["a"]);
    assert!(s.audience("z").is_empty());
    // A player is in one room only.
    let seats = s.rooms.iter().filter(|h| h.room.find("a").is_some()).count();
    assert_eq!(seats, 1);
}

#[test]
fn joining_the_same_room_again_starts_over() {
    let mut s = server();
    let mut a = Session::new("a".into());
    let mut b = Session::new("b".into());
    join(&mut s, &mut a, "x");
    join(&mut s, &mut b, "x");
    assert_eq!(
        shown(&join(&mut s, &mut a, "x")),
        vec![
            "b <- leave a",
            "b <- join a 0 A #fff",
            "a <- welcome a 0 0",
            "a <- join b 1 B #fff",
        ]
    );
    assert_eq!(s.audience("x"), vec!["b", "a"]);
}

#[test]
fn full_rooms_turn_clients_away() {
    let mut s = server();
    for i in 0..MAX_PLAYERS {
        let mut session = Session::new(format!("p{}", i));
        join(&mut s, &mut session, "x");
    }
    let mut late = Session::new("late".into());
    assert_eq!(shown(&join(&mut s, &mut late, "x")), vec!["late <- leave full"]);
    assert!(late.room.is_none());
    assert_eq!(s.audience("x").len(), MAX_PLAYERS);
    // Who comes from another room has left that one.
    join(&mut s, &mut late, "y");
    assert_eq!(shown(&join(&mut s, &mut late, "x")), vec![" <- leave late", "late <- leave full"]);
    assert!(late.room.is_none());
    assert!(s.audience("y").is_empty());
}

#[test]
fn leaving_and_disconnecting_tell_the_rest() {
    let mut s = server();
    let mut a = Session::new("a".into());
    let mut b = Session::new("b".into());
    join(&mut s, &mut a, "x");
    join(&mut s, &mut b, "x");
    assert_eq!(shown(&s.handle(&mut a, ClientMsg::Leave)), vec!["b <- leave a"]);
    assert!(a.room.is_none());
    assert!(s.handle(&mut a, ClientMsg::Leave).is_empty());
    assert!(s.disconnect(&mut a).is_empty());
    assert_eq!(shown(&s.disconnect(&mut b)), vec![" <- leave b"]);
    assert!(s.leave_room("nowhere", "b").is_empty());
}

#[test]
fn empty_rooms_are_closed() {
    let mut s = server();
    let mut a = Session::new("a".into());
    let mut b = Session::new("b".into());
    join(&mut s, &mut a, "x");
    join(&mut s, &mut b, "y");
    s.handle(&mut a, ClientMsg::Leave);
    assert_eq!(s.rooms.len(), 2);
    s.tick();
    assert_eq!(s.rooms.len(), 1);
    assert_eq!(s.rooms[0].room.id, "y");
    assert_eq!(s.rooms[0].room.tick, 1);
}

#[test]
fn pings_are_echoed() {
    let mut s = server();
    let mut a = Session::new("a".into());
    assert_eq!(shown(&s.handle(&mut a, ClientMsg::Ping { ts: 42 })), vec!["a <- pong 42"]);
    join(&mut s, &mut a, "x");
    let ts = u64::MAX;
    assert_eq!(
        shown(&s.handle(&mut a, ClientMsg::Ping { ts })),
        vec!["a <- pong 18446744073709551615"]
    );
}

#[test]
fn outsiders_are_ignored() {
    let mut s = server();
    let mut a = Session::new("a".into());
    let input = ClientMsg::Input { x: number(1.0), y: number(0.0), seq: 1 };
    assert!(s.handle(&mut a, input).is_empty());
    assert!(s.handle(&mut a, ClientMsg::Ready { ready: true }).is_empty());
    assert!(s.rooms.is_empty());
}

#[test]
fn input_reaches_the_player_and_wakes_the_room() {
    let mut s = server();
    let mut a = Session::new("a".into());
    join(&mut s, &mut a, "x");
    s.rooms[0].idle_ticks = 17;
    s.handle(&mut a, ClientMsg::Input { x: number(0.0), y: number(2.0), seq: 5 });
    assert_eq!(s.rooms[0].idle_ticks, 0);
    let input = s.rooms[0].room.players[0].input;
    assert_eq!((value(input.x), value(input.y), input.seq), (0.0, 1.0, 5));
}

#[test]
fn the_last_ready_player_starts_the_campaign() {
    let mut s = server();
    let mut a = Session::new("a".into());
    let mut b = Session::new("b".into());
    join(&mut s, &mut a, "x");
    join(&mut s, &mut b, "x");
    assert!(s.handle(&mut a, ClientMsg::Ready { ready: true }).is_empty());
    assert_eq!(s.rooms[0].room.phase, Phase::Lobby);
    let sent = s.handle(&mut b, ClientMsg::Ready { ready: true });
    assert_eq!(shown(&sent), vec!["a,b <- level 0"]);
    assert_eq!(s.rooms[0].room.phase, Phase::Playing);
    assert!(s.handle(&mut b, ClientMsg::Ready { ready: true }).is_empty());
    // Who comes later is told of the level too.
    let mut c = Session::new("c".into());
    let sent = join(&mut s, &mut c, "x");
    assert_eq!(shown(&sent).last().unwrap(), "c <- level 0");
}

#[test]
fn rooms_do_not_touch_each_other() {
    let mut s = server();
    let mut a = Session::new("a".into());
    let mut b = Session::new("b".into());
    join(&mut s, &mut a, "x");
    join(&mut s, &mut b, "y");
    let before = format!("{:?}", s.rooms[1]);
    s.handle(&mut a, ClientMsg::Input { x: number(1.0), y: number(0.0), seq: 1 });
    s.handle(&mut a, ClientMsg::Ready { ready: true });
    s.handle(&mut a, ClientMsg::Leave);
    assert_eq!(format!("{:?}", s.rooms[1]), before);
}

#[test]
fn active_rooms_send_state_every_third_tick() {
    let mut s = server();
    let mut a = Session::new("a".into());
    join(&mut s, &mut a, "x");
    for t in 1..=30u32 {
        s.handle(&mut a, ClientMsg::Input { x: number(0.1), y: number(0.0), seq: t });
        let out = s.tick();
        let states: usize = out
            .iter()
            .flat_map(|f| &f.frames)
            .filter(|m| matches!(m, ServerMsg::State { .. }))
            .count();
        assert_eq!(states, if t % STATE_EVERY == 0 { 1 } else { 0 });
        if states > 0 {
            assert_eq!(out[0].room, "x");
        }
    }
}

#[test]
fn idle_rooms_back_off() {
    let mut s = server();
    let mut a = Session::new("a".into());
    join(&mut s, &mut a, "x");
    let mut sent: Vec<u32> = Vec::new();
    for t in 1..=100u32 {
        if !s.tick().is_empty() {
            sent.push(t);
        }
        assert_eq!(s.rooms[0].idle_ticks, t);
    }
    assert_eq!(sent, vec![30, 60, 90]);
    assert_eq!(IDLE_KEEPALIVE_EVERY, 30);
    s.rooms[0].idle_ticks = u32::MAX;
    s.tick();
    assert_eq!(s.rooms[0].idle_ticks, u32::MAX);
}

#[test]
fn bumps_are_sent_at_once() {
    let mut s = server();
    let mut a = Session::new("a".into());
    join(&mut s, &mut a, "x");
    let body = &mut s.rooms[0].room.players[0].body;
    body.pos.x = number(51.0);
    body.vel.x = number(-400.0);
    let out = s.tick();
    assert_eq!(s.rooms[0].room.tick, 1);
    assert_eq!(out.len(), 1);
    assert_eq!(out[0].frames.len(), 1);
    assert!(matches!(out[0].frames[0], ServerMsg::Bump { .. }));
    assert_eq!(s.rooms[0].idle_ticks, 0);
}

#[test]
fn handles_address_their_clients() {
    let mut s = server();
    for id in ["a", "b", "c"] {
        join(&mut s, &mut Session::new(id.to_string()), "x");
    }
    let h = &s.rooms[0];
    assert_eq!(h.broadcast(ServerMsg::Pong { ts: 1 }).to, vec!["a", "b", "c"]);
    assert_eq!(h.broadcast_except("b", ServerMsg::Pong { ts: 1 }).to, vec!["a", "c"]);
    assert_eq!(h.broadcast_except("z", ServerMsg::Pong { ts: 1 }).to, vec!["a", "b", "c"]);
    assert_eq!(h.send_to("c", ServerMsg::Pong { ts: 1 }).to, vec!["c"]);
    assert!(h.send_to("z", ServerMsg::Pong { ts: 1 }).to.is_empty());
    let fresh = RoomHandle::new("y".to_string());
    assert!(fresh.broadcast(ServerMsg::Pong { ts: 1 }).to.is_empty());
    assert_eq!(fresh.idle_ticks, 0);
}

#[test]
fn the_clock_does_not_catch_up() {
    assert_eq!(STEP_NANOS, 16_666_666);
    assert_eq!(pace(1000, 2000), (16_667_666, 16_665_666));
    assert_eq!(pace(1000, 16_667_666), (16_667_666, 0));
    assert_eq!(pace(1000, 99_000_000), (99_000_000, 0));
}

#[test]
fn binary_frames_carry_their_bytes() {
    match encode_binary(vec![1, 2, 3]) {
        Outbound::Binary(bytes) => assert_eq!(bytes, vec![1, 2, 3]),
        Outbound::Text(_) => unreachable!(),
    }
}

#[test]
fn only_the_state_is_binary() {
    match framed(true, "{\"t\":\"\u{e4}\"}".to_string()) {
        Outbound::Binary(bytes) => {
            assert_eq!(bytes, vec![b'{', b'"', b't', b'"', b':', b'"', 0xC3, 0xA4, b'"', b'}'])
        }
        Outbound::Text(_) => unreachable!(),
    }
    match framed(false, "{}".to_string()) {
        Outbound::Text(text) => assert_eq!(text, "{}"),
        Outbound::Binary(_) => unreachable!(),
    }
    assert!(!ServerMsg::Pong { ts: 1 }.is_binary());
    assert!(!ServerMsg::PlayerLeave { id: "a".into() }.is_binary());
    assert!(ServerMsg::State { tick: 1, players: Vec::new(), campaign: None }.is_binary());
}
