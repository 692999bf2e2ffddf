//! What the messages of clients do, field by field.

use crate::bounce::{real_value, within};
use crate::double::Double;
use crate::level::LevelView;
use crate::people::{law_input_in_numbers, taken_over};
use crate::physics::Vec2;
use crate::protocol::ClientMsg;
use crate::room::{
    all_ready, is_free_index, law_tick_keeps_players, lemma_free_index, lemma_seat, new_player,
    present, sits, Phase, Player, RoomView, MAX_PLAYERS,
};
use crate::server::{
    hosts, in_room, lemma_filtered, lemma_opening, lemma_spot, opened, others, spot, FramesView,
    HandleView, ServerView, Session,
};
use vstd::prelude::*;

verus! {

/// Whether two rooms are the same but for who is in them.
pub open spec fn same_place(a: RoomView, b: RoomView) -> bool {
    &&& a.id == b.id
    &&& a.pillars == b.pillars
    &&& a.tick == b.tick
    &&& a.phase == b.phase
    &&& a.level == b.level
    &&& a.campaign_seed == b.campaign_seed
}

/// Whether two lists of players differ at most in the player at one place.
pub open spec fn same_but(a: Seq<Player>, b: Seq<Player>, k: int) -> bool {
    a.len() == b.len() && forall|i: int| 0 <= i < a.len() && i != k ==> #[trigger] a[i] == b[i]
}

/// Whether a player is the same but for input and ready flag.
pub open spec fn same_person(a: Player, b: Player) -> bool {
    &&& a.id == b.id
    &&& a.idx == b.idx
    &&& a.name == b.name
    &&& a.color == b.color
    &&& a.body == b.body
    &&& a.last_seq == b.last_seq
}

/// Input reaches the player who sent it, coordinate by coordinate, with its number, and nobody
/// else. It wakes the room up, and nothing is sent.
pub proof fn law_input_reaches_the_player(
    server: ServerView,
    session: Session,
    x: Double,
    y: Double,
    seq: u32,
    i: int,
    k: int,
) -> (factor: real)
    requires
        server.wf(),
        session.current() is Some,
        hosts(server.rooms, i, session.current()->0),
        sits(server.rooms[i].room.players, k, session.id@),
        x.finite(),
        y.finite(),
        within(real_value(x), 4000real),
        within(real_value(y), 4000real),
    ensures
        ({
            let reply = server.handled(session, ClientMsg::Input { x, y, seq });
            let before = server.rooms[i];
            let after = reply.server.rooms[i];
            let p = after.room.players[k];
            &&& reply.sent.len() == 0
            &&& reply.room == session.current()
            &&& reply.server.rooms.len() == server.rooms.len()
            &&& forall|j: int|
                0 <= j < server.rooms.len() && j != i ==> #[trigger] reply.server.rooms[j]
                    == server.rooms[j]
            &&& after.clients == before.clients
            &&& after.idle_ticks == 0
            &&& same_place(after.room, before.room)
            &&& same_but(after.room.players, before.room.players, k)
            &&& same_person(p, before.room.players[k])
            &&& p.ready == before.room.players[k].ready
            &&& p.input.seq == seq
            &&& taken_over(x, y, Vec2 { x: p.input.x, y: p.input.y }, factor)
        }),
{
    lemma_spot(server.rooms, i, session.current()->0);
    lemma_seat(server.rooms[i].room.players, k, session.id@);
    law_input_in_numbers(x, y)
}

/// A ready flag reaches the player who set it, and nobody else. The campaign starts exactly if none
/// is being played and everybody is ready then.
pub proof fn law_flag_reaches_the_player(
    server: ServerView,
    session: Session,
    ready: bool,
    i: int,
    k: int,
)
    requires
        server.wf(),
        session.current() is Some,
        hosts(server.rooms, i, session.current()->0),
        sits(server.rooms[i].room.players, k, session.id@),
    ensures
        ({
            let reply = server.handled(session, ClientMsg::Ready { ready });
            let before = server.rooms[i];
            let after = reply.server.rooms[i];
            let p = after.room.players[k];
            let starts = before.room.phase != Phase::Playing && forall|j: int|
                0 <= j < after.room.players.len() ==> (#[trigger] after.room.players[j]).ready;
            &&& reply.room == session.current()
            &&& reply.server.rooms.len() == server.rooms.len()
            &&& forall|j: int|
                0 <= j < server.rooms.len() && j != i ==> #[trigger] reply.server.rooms[j]
                    == server.rooms[j]
            &&& after.clients == before.clients
            &&& after.idle_ticks == 0
            &&& same_but(after.room.players, before.room.players, k)
            &&& same_person(p, before.room.players[k])
            &&& p.input == before.room.players[k].input
            &&& p.ready == ready
            &&& after.room.tick == before.room.tick
            &&& after.room.pillars == before.room.pillars
            &&& !starts ==> same_place(after.room, before.room) && reply.sent.len() == 0
            &&& starts ==> after.room.phase == Phase::Playing && after.room.level is Some
                && after.room.level->0.index == 0
        }),
{
    lemma_spot(server.rooms, i, session.current()->0);
    let players = server.rooms[i].room.players;
    lemma_seat(players, k, session.id@);
    let reply = server.handled(session, ClientMsg::Ready { ready });
    let after = reply.server.rooms[i].room;
    let changed = server.rooms[i].room.changed(
        session.id@,
        |p: Player| Player { ready, ..p },
    );
    assert(after.players == changed.players);
    if forall|j: int| 0 <= j < after.players.len() ==> (#[trigger] after.players[j]).ready {
        assert(all_ready(changed.players));
    }
}

/// Who joins a room with a place left sits behind everybody who is there, under the name and colour
/// that the message gave, with the smallest index that nobody has, at the heading for that many
/// players. Everything else in the room stays as it is. A room that is not there yet is opened.
pub proof fn law_joining_seats_the_client(
    server: ServerView,
    session: Session,
    room: String,
    name: String,
    color: String,
)
    requires
        server.wf(),
        in_room(server, session.id@, session.current()),
        session.current() is None,
        opened(server.rooms, room@) ==> server.rooms[spot(server.rooms, room@)].room.players.len()
            < MAX_PLAYERS,
    ensures
        ({
            let reply = server.handled(session, ClientMsg::Join { room, name, color });
            let i = spot(reply.server.rooms, room@);
            let after = reply.server.rooms[i];
            let before = if opened(server.rooms, room@) {
                server.rooms[spot(server.rooms, room@)].room.players
            } else {
                Seq::empty()
            };
            let p = after.room.players.last();
            &&& hosts(reply.server.rooms, i, room@)
            &&& reply.room == Some(room@)
            &&& after.room.players.drop_last() == before
            &&& p.id@ == session.id@
            &&& p.name == name
            &&& p.color == color
            &&& is_free_index(before, session.id@, p.idx as int)
            &&& p == new_player(
                session.id,
                p.idx,
                name,
                color,
                server.headings[before.len() as int],
            )
            &&& after.idle_ticks == 0
            &&& opened(server.rooms, room@) ==> same_place(
                after.room,
                server.rooms[spot(server.rooms, room@)].room,
            ) && reply.server.rooms.len() == server.rooms.len()
            &&& !opened(server.rooms, room@) ==> {
                &&& reply.server.rooms.len() == server.rooms.len() + 1
                &&& after.room.phase == Phase::Lobby
                &&& after.room.level is None
                &&& after.room.tick == 0
            }
        }),
{
    let left = server.left(session.current(), session.id@);
    assert(left.server == server);
    let open = server.opening(room@);
    lemma_opening(server, room@);
    let i = spot(open.rooms, room@);
    assert(hosts(open.rooms, i, room@));
    let before = open.rooms[i].room.players;
    let reply = server.handled(session, ClientMsg::Join { room, name, color });
    if opened(server.rooms, room@) {
        assert(hosts(server.rooms, spot(server.rooms, room@), room@));
    }
    assert(!present(before, session.id@));
    lemma_free_index(before, session.id@);
    assert(hosts(reply.server.rooms, i, room@));
    assert forall|a: int, b: int| 0 <= a < b < reply.server.rooms.len() implies
        #[trigger] reply.server.rooms[a].room.id != #[trigger] reply.server.rooms[b].room.id by {
        assert(open.rooms[a].room.id != open.rooms[b].room.id);
    }
    lemma_spot(reply.server.rooms, i, room@);
    let after = reply.server.rooms[i].room.players;
    assert(after.drop_last() =~= before);
}

/// Every room with somebody in it takes exactly its own step in a tick of the server, and what it
/// has to say goes out under its own name.
pub proof fn law_every_room_ticks(server: ServerView, i: int)
    requires
        server.wf(),
        0 <= i < server.rooms.len(),
        server.rooms[i].room.players.len() > 0,
    ensures
        exists|k: int|
            0 <= k < server.ticked().rooms.len() && {
                let after = #[trigger] server.ticked().rooms[k];
                &&& after.room == server.rooms[i].room.ticked(server.damp).room
                &&& after.clients == server.rooms[i].clients
                &&& after.room.id == server.rooms[i].room.id
            },
        server.rooms[i].room.ticked(server.damp).sent.len() > 0 ==> exists|k: int|
            0 <= k < server.outbound().len() && {
                let out = #[trigger] server.outbound()[k];
                let sent = server.rooms[i].room.ticked(server.damp).sent;
                &&& out.room == server.rooms[i].room.id
                &&& out.frames.len() >= sent.len()
                &&& out.frames.take(sent.len() as int) == sent
            },
        ({
            let room = server.rooms[i].room.ticked(server.damp).room;
            room.in_motion() && room.tick % 3 == 0 ==> exists|k: int|
                0 <= k < server.outbound().len() && {
                    let out = #[trigger] server.outbound()[k];
                    &&& out.room == server.rooms[i].room.id
                    &&& out.frames.len() > 0
                    &&& out.frames.last() == room.state_msg()
                }
        }),
{
    let damp = server.damp;
    let h = server.rooms[i];
    law_tick_keeps_players(h.room, damp);
    let occupied = |h: HandleView| h.room.players.len() > 0;
    let kept = server.rooms.filter(occupied);
    lemma_filtered(server.rooms, occupied);
    assert(kept.contains(h));
    let k = choose|k: int| 0 <= k < kept.len() && kept[k] == h;
    assert(server.ticked().rooms[k] == h.stepped(damp));
    let sent = h.room.ticked(damp).sent;
    if h.frames(damp).len() > 0 {
        let loud = |h: HandleView| h.room.players.len() > 0 && h.frames(damp).len() > 0;
        let said = server.rooms.filter(loud);
        lemma_filtered(server.rooms, loud);
        assert(said.contains(h));
        let m = choose|m: int| 0 <= m < said.len() && said[m] == h;
        assert(server.outbound()[m] == (FramesView { room: h.room.id, frames: h.frames(damp) }));
        assert(h.frames(damp).take(sent.len() as int) =~= sent);
    }
}

/// The clients of a room are its players, in their order.
pub proof fn law_clients_are_players(handle: HandleView)
    requires
        handle.wf(),
    ensures
        handle.clients.len() == handle.room.players.len(),
        forall|i: int|
            0 <= i < handle.clients.len() ==> #[trigger] handle.clients[i]
                == handle.room.players[i].id@,
{
}

/// What is meant for the others reaches everybody in the room but one.
pub proof fn law_others_are_all_but_one(clients: Seq<Seq<char>>, except: Seq<char>, id: Seq<char>)
    ensures
        others(clients, except).contains(id) <==> clients.contains(id) && id != except,
    decreases clients.len(),
{
    reveal(Seq::filter);
    if clients.len() > 0 {
        let fewer = clients.drop_last();
        let last = clients.last();
        law_others_are_all_but_one(fewer, except, id);
        lemma_push_holds(fewer, last, id);
        lemma_push_holds(others(fewer, except), last, id);
        assert(fewer.push(last) =~= clients);
    }
}

proof fn lemma_push_holds(ids: Seq<Seq<char>>, last: Seq<char>, id: Seq<char>)
    ensures
        ids.push(last).contains(id) <==> ids.contains(id) || id == last,
{
    let more = ids.push(last);
    if ids.contains(id) {
        let k = choose|k: int| 0 <= k < ids.len() && ids[k] == id;
        assert(more[k] == id);
    }
    if id == last {
        assert(more[ids.len() as int] == id);
    }
    if more.contains(id) && id != last {
        let k = choose|k: int| 0 <= k < more.len() && more[k] == id;
        assert(ids[k] == id);
    }
}

} // verus!
