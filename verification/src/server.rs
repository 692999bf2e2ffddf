//! The rooms of a server: who is in which, what each message of a client does, and what is sent to
//! whom.

use crate::double::Double;
use crate::physics::Vec2;
use crate::protocol::{messages, ClientMsg, ServerMsg, ServerMsgView};
use crate::room::{
    all_ready, free_index, is_free_index, law_leaving_empties, law_tick_keeps_players,
    lemma_distinct_without, lemma_free_index, lemma_seat, level_msg, new_player, normalised,
    present, seat, sits, Phase, Player, PlayerInput, Room, RoomView, MAX_PLAYERS,
};
use vstd::prelude::*;

verus! {

/// While nothing happens in a room, its state is sent once in this many ticks.
pub const IDLE_KEEPALIVE_EVERY: u32 = 30;

/// While something happens in a room, its state is sent once in this many ticks.
pub const STATE_EVERY: u32 = 3;

/// A message, and the players that it goes to.
#[derive(Debug)]
pub struct Delivery {
    pub to: Vec<String>,
    pub msg: ServerMsg,
}

/// A room and the ids of the clients that are connected to it, in the order of the players.
#[derive(Debug)]
pub struct RoomHandle {
    pub room: Room,
    pub clients: Vec<String>,
    /// For how many ticks nothing has happened in the room.
    pub idle_ticks: u32,
}

// ---------------------------------------------------------------------------
// Model of a room and its clients
// ---------------------------------------------------------------------------

pub ghost struct DeliveryView {
    pub to: Seq<Seq<char>>,
    pub msg: ServerMsgView,
}

impl View for Delivery {
    type V = DeliveryView;

    open spec fn view(&self) -> DeliveryView {
        DeliveryView { to: texts(self.to@), msg: self.msg@ }
    }
}

pub ghost struct HandleView {
    pub room: RoomView,
    pub clients: Seq<Seq<char>>,
    pub idle_ticks: u32,
}

impl View for RoomHandle {
    type V = HandleView;

    open spec fn view(&self) -> HandleView {
        HandleView {
            room: self.room@,
            clients: texts(self.clients@),
            idle_ticks: self.idle_ticks,
        }
    }
}

/// What strings hold.
pub open spec fn texts(strings: Seq<String>) -> Seq<Seq<char>> {
    strings.map_values(|s: String| s@)
}

/// The ids of players.
pub open spec fn ids_of(players: Seq<Player>) -> Seq<Seq<char>> {
    players.map_values(|p: Player| p.id@)
}

/// All clients but one.
pub open spec fn others(clients: Seq<Seq<char>>, except: Seq<char>) -> Seq<Seq<char>> {
    clients.filter(is_not(except))
}

/// Whether a client is another one.
pub open spec fn is_not(except: Seq<char>) -> spec_fn(Seq<char>) -> bool {
    |c: Seq<char>| c != except
}

/// How often in a row nothing happened, after one more tick.
pub open spec fn idled(idle_ticks: u32, quiet: bool) -> u32 {
    if !quiet {
        0
    } else if idle_ticks == u32::MAX {
        u32::MAX
    } else {
        (idle_ticks + 1) as u32
    }
}

/// Whether the state is due: seldom while nothing happens, often otherwise.
pub open spec fn state_due(idle_ticks: u32, tick: u32) -> bool {
    if idle_ticks > 1 {
        idle_ticks % IDLE_KEEPALIVE_EVERY == 0
    } else {
        tick % STATE_EVERY == 0
    }
}

impl HandleView {
    pub open spec fn wf(self) -> bool {
        &&& self.room.wf()
        &&& self.room.players.len() <= MAX_PLAYERS
        &&& self.clients == ids_of(self.room.players)
    }

    /// A room that was just opened.
    pub open spec fn fresh(id: Seq<char>) -> HandleView {
        HandleView {
            room: RoomView {
                id,
                players: Seq::empty(),
                pillars: crate::physics::rink_pillars(),
                tick: 0,
                phase: Phase::Lobby,
                level: None,
                campaign_seed: 0,
            },
            clients: Seq::empty(),
            idle_ticks: 0,
        }
    }

    /// After the room changed, with the clients that now belong to it.
    pub open spec fn became(self, room: RoomView) -> HandleView {
        HandleView { room, clients: ids_of(room.players), ..self }
    }

    /// After something happened that wakes the room up.
    pub open spec fn woken(self) -> HandleView {
        HandleView { idle_ticks: 0, ..self }
    }

    /// After a tick.
    pub open spec fn stepped(self, damp: Double) -> HandleView {
        let out = self.room.ticked(damp);
        let quiet = out.sent.len() == 0 && !out.room.in_motion();
        HandleView { room: out.room, idle_ticks: idled(self.idle_ticks, quiet), ..self }
    }

    /// What goes out to everybody in the room after a tick: what happened in it, and the state
    /// when it is due.
    pub open spec fn frames(self, damp: Double) -> Seq<ServerMsgView> {
        let sent = self.room.ticked(damp).sent;
        let next = self.stepped(damp);
        if state_due(next.idle_ticks, next.room.tick) {
            sent.push(next.room.state_msg())
        } else {
            sent
        }
    }
}

// ---------------------------------------------------------------------------
// A room and its clients
// ---------------------------------------------------------------------------

/// A copy of strings.
fn copied(strings: &Vec<String>) -> (copy: Vec<String>)
    ensures
        texts(copy@) == texts(strings@),
{
    let mut copy: Vec<String> = Vec::new();
    let mut i: usize = 0;
    while i < strings.len()
        invariant
            i <= strings@.len(),
            copy@ =~= strings@.take(i as int),
        decreases strings@.len() - i,
    {
        copy.push(strings[i].clone());
        i = i + 1;
    }
    assert(copy@ =~= strings@);
    copy
}

/// A vector that holds one string.
fn only(id: &String) -> (to: Vec<String>)
    ensures
        texts(to@) == seq![id@],
{
    let mut to: Vec<String> = Vec::new();
    to.push(id.clone());
    assert(texts(to@) =~= seq![id@]);
    to
}

impl RoomHandle {
    /// A room without players.
    pub fn new(id: String) -> (handle: RoomHandle)
        ensures
            handle@ == HandleView::fresh(id@),
            handle@.wf(),
    {
        let handle = RoomHandle { room: Room::new(id), clients: Vec::new(), idle_ticks: 0 };
        assert(handle@.clients =~= Seq::empty());
        assert(ids_of(handle@.room.players) =~= Seq::empty());
        handle
    }

    /// To everybody in the room.
    pub fn broadcast(&self, msg: ServerMsg) -> (delivery: Delivery)
        ensures
            delivery@ == (DeliveryView { to: self@.clients, msg: msg@ }),
    {
        Delivery { to: copied(&self.clients), msg }
    }

    /// To everybody in the room but one.
    pub fn broadcast_except(&self, except: &str, msg: ServerMsg) -> (delivery: Delivery)
        ensures
            delivery@ == (DeliveryView { to: others(self@.clients, except@), msg: msg@ }),
    {
        let left_out: String = except.to_owned();
        let mut to: Vec<String> = Vec::new();
        let ghost keep = is_not(except@);
        let mut i: usize = 0;
        proof {
            reveal(Seq::filter);
            assert(texts(to@) =~= self@.clients.take(0).filter(keep));
        }
        while i < self.clients.len()
            invariant
                i <= self.clients@.len(),
                left_out@ == except@,
                keep == is_not(except@),
                texts(to@) == self@.clients.take(i as int).filter(keep),
            decreases self.clients@.len() - i,
        {
            let ghost before = to@;
            let ghost longer = self@.clients.take(i + 1);
            if self.clients[i] != left_out {
                to.push(self.clients[i].clone());
                assert(texts(to@) =~= texts(before).push(self.clients@[i as int]@));
            }
            proof {
                reveal(Seq::filter);
                assert(longer.drop_last() =~= self@.clients.take(i as int));
                assert(longer.last() == self.clients@[i as int]@);
            }
            i = i + 1;
        }
        assert(self@.clients.take(i as int) =~= self@.clients);
        Delivery { to, msg }
    }

    /// To one player, if that player is in the room.
    pub fn send_to(&self, id: &str, msg: ServerMsg) -> (delivery: Delivery)
        ensures
            delivery@ == (DeliveryView {
                to: if self@.clients.contains(id@) {
                    seq![id@]
                } else {
                    Seq::empty()
                },
                msg: msg@,
            }),
    {
        let wanted: String = id.to_owned();
        let mut i: usize = 0;
        while i < self.clients.len()
            invariant
                i <= self.clients@.len(),
                wanted@ == id@,
                forall|k: int| 0 <= k < i ==> #[trigger] self@.clients[k] != id@,
            decreases self.clients@.len() - i,
        {
            if self.clients[i] == wanted {
                assert(self@.clients[i as int] == id@);
                return Delivery { to: only(&wanted), msg };
            }
            i = i + 1;
        }
        let to: Vec<String> = Vec::new();
        assert(texts(to@) =~= Seq::empty());
        Delivery { to, msg }
    }

    /// One tick of the room. Returns what goes out to everybody in it.
    pub fn step(&mut self, damp: Double) -> (frames: Vec<ServerMsg>)
        requires
            old(self)@.wf(),
        ensures
            final(self)@ == old(self)@.stepped(damp),
            messages(frames@) == old(self)@.frames(damp),
            final(self)@.wf(),
    {
        let mut frames: Vec<ServerMsg> = self.room.tick(damp);
        proof {
            law_tick_keeps_players(old(self)@.room, damp);
            assert(ids_of(self@.room.players) =~= ids_of(old(self)@.room.players));
        }
        if !frames.is_empty() || self.room.any_motion() {
            self.idle_ticks = 0;
        } else {
            self.idle_ticks = self.idle_ticks.saturating_add(1);
        }
        let send_state: bool = if self.idle_ticks > 1 {
            self.idle_ticks % IDLE_KEEPALIVE_EVERY == 0
        } else {
            self.room.tick % STATE_EVERY == 0
        };
        let ghost sent = messages(frames@);
        if send_state {
            frames.push(self.room.state_snapshot());
            assert(messages(frames@) =~= sent.push(self@.room.state_msg()));
        }
        frames
    }

    /// Lets a player in.
    fn enter(&mut self, id: &String, name: &String, color: &String, heading: Vec2) -> (idx: u8)
        requires
            old(self)@.wf(),
            old(self)@.room.players.len() < MAX_PLAYERS,
        ensures
            idx == free_index(old(self)@.room.players, id@),
            final(self)@ == old(self)@.became(
                old(self)@.room.with(new_player(*id, idx, *name, *color, heading)),
            ).woken(),
            final(self)@.wf(),
    {
        let known: Option<usize> = self.room.find(id.as_str());
        let idx: u8 = self.room.add_player(id.clone(), name.clone(), color.clone(), heading);
        if known.is_none() {
            self.clients.push(id.clone());
        }
        self.idle_ticks = 0;
        proof {
            let before = old(self)@.room.players;
            let after = self@.room.players;
            if known is None {
                assert(self@.clients =~= old(self)@.clients.push(id@));
            } else {
                assert(sits(before, seat(before, id@), id@));
            }
            assert(self@.clients =~= ids_of(after));
        }
        idx
    }

    /// Lets a player out.
    fn leave(&mut self, id: &str)
        requires
            old(self)@.wf(),
        ensures
            final(self)@ == old(self)@.became(old(self)@.room.without(id@)),
            final(self)@.wf(),
    {
        let known: Option<usize> = self.room.find(id);
        assert(self.clients@.len() == self@.clients.len());
        self.room.remove_player(id);
        if let Some(i) = known {
            self.clients.remove(i);
            assert(self@.clients =~= old(self)@.clients.remove(i as int));
        }
        assert(self@.clients =~= ids_of(self@.room.players));
    }
}

// ---------------------------------------------------------------------------
// Model of the server
// ---------------------------------------------------------------------------

/// A connection: the player's id, and the room that the player is in.
#[derive(Debug)]
pub struct Session {
    pub id: String,
    pub room: Option<String>,
}

/// All rooms that are open.
#[derive(Debug)]
pub struct Server {
    pub rooms: Vec<RoomHandle>,
    /// The directions in which players spawn, by how many are in the room already.
    pub headings: Vec<Vec2>,
    /// The factor by which friction slows everybody down in one tick.
    pub damp: Double,
}

pub ghost struct ServerView {
    pub rooms: Seq<HandleView>,
    pub headings: Seq<Vec2>,
    pub damp: Double,
}

impl View for Server {
    type V = ServerView;

    open spec fn view(&self) -> ServerView {
        ServerView {
            rooms: handles(self.rooms@),
            headings: self.headings@,
            damp: self.damp,
        }
    }
}

/// What goes out to everybody in one room.
#[derive(Debug)]
pub struct RoomFrames {
    pub room: String,
    pub frames: Vec<ServerMsg>,
}

pub ghost struct FramesView {
    pub room: Seq<char>,
    pub frames: Seq<ServerMsgView>,
}

impl View for RoomFrames {
    type V = FramesView;

    open spec fn view(&self) -> FramesView {
        FramesView { room: self.room@, frames: messages(self.frames@) }
    }
}

/// What goes out to rooms.
pub open spec fn bundles(outbound: Seq<RoomFrames>) -> Seq<FramesView> {
    outbound.map_values(|f: RoomFrames| f@)
}

pub open spec fn handles(rooms: Seq<RoomHandle>) -> Seq<HandleView> {
    rooms.map_values(|h: RoomHandle| h@)
}

/// What deliveries say.
pub open spec fn post(sent: Seq<Delivery>) -> Seq<DeliveryView> {
    sent.map_values(|d: Delivery| d@)
}

impl Session {
    /// The room that the player is in.
    pub open spec fn current(self) -> Option<Seq<char>> {
        match self.room {
            Some(r) => Some(r@),
            None => None,
        }
    }
}

/// Whether the room at `i` has the given id.
pub open spec fn hosts(rooms: Seq<HandleView>, i: int, id: Seq<char>) -> bool {
    0 <= i < rooms.len() && rooms[i].room.id == id
}

/// Whether a room with the given id is open.
pub open spec fn opened(rooms: Seq<HandleView>, id: Seq<char>) -> bool {
    exists|i: int| hosts(rooms, i, id)
}

/// Where the room with the given id is, where there is one.
pub open spec fn spot(rooms: Seq<HandleView>, id: Seq<char>) -> int {
    choose|i: int| hosts(rooms, i, id)
}

/// What a message of a client leads to: the server after it, the room that the client is in, and
/// what is sent.
pub ghost struct Reply {
    pub server: ServerView,
    pub room: Option<Seq<char>>,
    pub sent: Seq<DeliveryView>,
}

/// Rooms with players in them after a tick.
pub open spec fn ticked_rooms(rooms: Seq<HandleView>, damp: Double) -> Seq<HandleView> {
    rooms.filter(|h: HandleView| h.room.players.len() > 0).map_values(
        |h: HandleView| h.stepped(damp),
    )
}

/// What rooms with players in them send after a tick, without those that send nothing.
pub open spec fn outgoing(rooms: Seq<HandleView>, damp: Double) -> Seq<FramesView> {
    rooms.filter(
        |h: HandleView| h.room.players.len() > 0 && h.frames(damp).len() > 0,
    ).map_values(|h: HandleView| FramesView { room: h.room.id, frames: h.frames(damp) })
}

pub open spec fn join_msg(p: Player) -> ServerMsgView {
    ServerMsgView::PlayerJoin { id: p.id@, idx: p.idx, name: p.name@, color: p.color@ }
}

/// Tells a player about the others among the first `n` in the room.
pub open spec fn introductions(players: Seq<Player>, to: Seq<char>, n: nat) -> Seq<DeliveryView>
    decreases n,
{
    if n == 0 {
        Seq::empty()
    } else {
        let before = introductions(players, to, (n - 1) as nat);
        if players[n - 1].id@ != to {
            before.push(DeliveryView { to: seq![to], msg: join_msg(players[n - 1]) })
        } else {
            before
        }
    }
}

/// What is sent when a player entered: the news to the others, and to the newcomer a welcome, who
/// else is there, and the level if one is being played.
pub open spec fn greetings(handle: HandleView, p: Player) -> Seq<DeliveryView> {
    let news = seq![
        DeliveryView { to: others(handle.clients, p.id@), msg: join_msg(p) },
        DeliveryView {
            to: seq![p.id@],
            msg: ServerMsgView::Welcome { id: p.id@, idx: p.idx, tick: handle.room.tick },
        },
    ] + introductions(handle.room.players, p.id@, handle.room.players.len());
    match handle.room.level {
        Some(l) => news.push(DeliveryView { to: seq![p.id@], msg: level_msg(l) }),
        None => news,
    }
}

impl HandleView {
    /// After a player steered.
    pub open spec fn steered(self, id: Seq<char>, x: Double, y: Double, seq: u32) -> HandleView {
        let input = PlayerInput { x: normalised(x, y).x, y: normalised(x, y).y, seq };
        HandleView {
            room: self.room.changed(id, |p: Player| Player { input, ..p }),
            idle_ticks: 0,
            ..self
        }
    }

    /// After a player set the ready flag. The campaign starts when that makes everybody ready.
    pub open spec fn flagged(self, id: Seq<char>, ready: bool) -> HandleView {
        let room = self.room.changed(id, |p: Player| Player { ready, ..p });
        HandleView {
            room: if all_ready(room.players) {
                room.started()
            } else {
                room
            },
            idle_ticks: 0,
            ..self
        }
    }
}

impl ServerView {
    pub open spec fn wf(self) -> bool {
        &&& self.headings.len() == MAX_PLAYERS
        &&& forall|i: int| 0 <= i < self.rooms.len() ==> (#[trigger] self.rooms[i]).wf()
        &&& forall|i: int, j: int|
            0 <= i < j < self.rooms.len() ==> #[trigger] self.rooms[i].room.id
                != #[trigger] self.rooms[j].room.id
    }

    /// With one room changed.
    pub open spec fn with(self, i: int, handle: HandleView) -> ServerView {
        ServerView { rooms: self.rooms.update(i, handle), ..self }
    }

    /// With a room open.
    pub open spec fn opening(self, id: Seq<char>) -> ServerView {
        if opened(self.rooms, id) {
            self
        } else {
            ServerView { rooms: self.rooms.push(HandleView::fresh(id)), ..self }
        }
    }

    /// A player leaves a room; those who stay are told.
    pub open spec fn left(self, room: Option<Seq<char>>, id: Seq<char>) -> Reply {
        match room {
            Some(r) if opened(self.rooms, r) => {
                let i = spot(self.rooms, r);
                let handle = self.rooms[i].became(self.rooms[i].room.without(id));
                Reply {
                    server: self.with(i, handle),
                    room: None,
                    sent: seq![
                        DeliveryView {
                            to: handle.clients,
                            msg: ServerMsgView::PlayerLeave { id },
                        },
                    ],
                }
            },
            _ => Reply { server: self, room: None, sent: Seq::empty() },
        }
    }

    /// A player enters a room, which opens for the first. A full room turns the player away.
    pub open spec fn entered(
        self,
        id: String,
        room: Seq<char>,
        name: String,
        color: String,
    ) -> Reply {
        let server = self.opening(room);
        let i = spot(server.rooms, room);
        let handle = server.rooms[i];
        let count = handle.room.players.len();
        if count >= MAX_PLAYERS {
            Reply {
                server,
                room: None,
                sent: seq![
                    DeliveryView {
                        to: seq![id@],
                        msg: ServerMsgView::PlayerLeave { id: "full"@ },
                    },
                ],
            }
        } else {
            let idx = free_index(handle.room.players, id@);
            let p = new_player(id, idx, name, color, self.headings[count as int]);
            let after = handle.became(handle.room.with(p)).woken();
            Reply {
                server: server.with(i, after),
                room: Some(room),
                sent: greetings(after, p),
            }
        }
    }

    /// After a tick of every room. Rooms without players are closed instead.
    pub open spec fn ticked(self) -> ServerView {
        ServerView { rooms: ticked_rooms(self.rooms, self.damp), ..self }
    }

    /// What goes out after a tick.
    pub open spec fn outbound(self) -> Seq<FramesView> {
        outgoing(self.rooms, self.damp)
    }

    /// What a message of a client leads to.
    pub open spec fn handled(self, session: Session, msg: ClientMsg) -> Reply {
        let same = Reply { server: self, room: session.current(), sent: Seq::empty() };
        match msg {
            ClientMsg::Join { room, name, color } => {
                let left = self.left(session.current(), session.id@);
                let entered = left.server.entered(session.id, room@, name, color);
                Reply { sent: left.sent + entered.sent, ..entered }
            },
            ClientMsg::Leave => self.left(session.current(), session.id@),
            ClientMsg::Input { x, y, seq } => match session.current() {
                Some(r) if opened(self.rooms, r) => {
                    let i = spot(self.rooms, r);
                    let handle = self.rooms[i].steered(session.id@, x, y, seq);
                    Reply { server: self.with(i, handle), ..same }
                },
                _ => same,
            },
            ClientMsg::Ready { ready } => match session.current() {
                Some(r) if opened(self.rooms, r) => {
                    let i = spot(self.rooms, r);
                    let before = self.rooms[i];
                    let handle = before.flagged(session.id@, ready);
                    Reply {
                        server: self.with(i, handle),
                        sent: if before.room.phase != Phase::Playing && handle.room.phase
                            == Phase::Playing {
                            seq![
                                DeliveryView {
                                    to: handle.clients,
                                    msg: level_msg(handle.room.level->0),
                                },
                            ]
                        } else {
                            Seq::empty()
                        },
                        ..same
                    }
                },
                _ => same,
            },
            ClientMsg::Ping { ts } => Reply {
                sent: seq![
                    DeliveryView { to: seq![session.id@], msg: ServerMsgView::Pong { ts } },
                ],
                ..same
            },
        }
    }
}

impl RoomHandle {
    /// What is sent when the player with the given id just entered.
    fn greet(&self, id: &String) -> (sent: Vec<Delivery>)
        requires
            self@.wf(),
            present(self@.room.players, id@),
        ensures
            post(sent@) == greetings(
                self@,
                self@.room.players[seat(self@.room.players, id@)],
            ),
    {
        let players: &Vec<Player> = &self.room.players;
        let me: usize = self.room.find(id.as_str()).unwrap();
        proof {
            assert(sits(players@, me as int, id@));
            assert(self@.clients[me as int] == id@);
        }
        let mut sent: Vec<Delivery> = Vec::new();
        sent.push(self.broadcast_except(id.as_str(), joining(&players[me])));
        sent.push(
            self.send_to(
                id.as_str(),
                ServerMsg::Welcome {
                    id: id.clone(),
                    idx: players[me].idx,
                    tick: self.room.tick,
                },
            ),
        );
        let ghost news = post(sent@);
        let mut i: usize = 0;
        while i < players.len()
            invariant
                i <= players@.len(),
                players@ == self@.room.players,
                self@.clients.contains(id@),
                post(sent@) == news + introductions(players@, id@, i as nat),
            decreases players@.len() - i,
        {
            if players[i].id != *id {
                let ghost before = post(sent@);
                sent.push(self.send_to(id.as_str(), joining(&players[i])));
                assert(post(sent@) =~= before.push(
                    DeliveryView { to: seq![id@], msg: join_msg(players@[i as int]) },
                ));
                assert(post(sent@) =~= news + introductions(players@, id@, (i + 1) as nat));
            }
            i = i + 1;
        }
        let ghost before = post(sent@);
        if self.room.has_level() {
            sent.push(self.send_to(id.as_str(), self.room.level_message()));
            assert(post(sent@) =~= before.push(
                DeliveryView { to: seq![id@], msg: level_msg(self@.room.level->0) },
            ));
        }
        proof {
            let p = players@[me as int];
            assert(news =~= seq![
                DeliveryView { to: others(self@.clients, p.id@), msg: join_msg(p) },
                DeliveryView {
                    to: seq![p.id@],
                    msg: ServerMsgView::Welcome { id: p.id@, idx: p.idx, tick: self@.room.tick },
                },
            ]);
        }
        sent
    }

    /// Lets a player steer.
    fn steer(&mut self, id: &str, x: Double, y: Double, seq: u32)
        requires
            old(self)@.wf(),
        ensures
            final(self)@ == old(self)@.steered(id@, x, y, seq),
            final(self)@.wf(),
    {
        self.room.set_input(id, x, y, seq);
        self.idle_ticks = 0;
        assert(ids_of(self@.room.players) =~= ids_of(old(self)@.room.players)) by {
            lemma_changed_ids(old(self)@.room, self@.room, id@);
        }
    }

    /// Lets a player set the ready flag. Returns the level if the campaign starts.
    fn flag(&mut self, id: &str, ready: bool) -> (level: Option<ServerMsg>)
        requires
            old(self)@.wf(),
        ensures
            final(self)@ == old(self)@.flagged(id@, ready),
            level is Some <==> old(self)@.room.phase != Phase::Playing && final(self)@.room.phase
                == Phase::Playing,
            level matches Some(m) ==> m@ == level_msg(final(self)@.room.level->0),
            final(self)@.wf(),
    {
        self.idle_ticks = 0;
        let start: bool = self.room.set_ready(id, ready);
        assert(ids_of(self@.room.players) =~= ids_of(old(self)@.room.players)) by {
            lemma_changed_ids(old(self)@.room, self@.room, id@);
        }
        if start {
            self.room.start_campaign()
        } else {
            None
        }
    }
}

/// The message that a player is in the room.
fn joining(p: &Player) -> (msg: ServerMsg)
    ensures
        msg@ == join_msg(*p),
{
    ServerMsg::PlayerJoin {
        id: p.id.clone(),
        idx: p.idx,
        name: p.name.clone(),
        color: p.color.clone(),
    }
}

/// A change of one player that keeps the id keeps all ids.
proof fn lemma_changed_ids(before: RoomView, after: RoomView, id: Seq<char>)
    requires
        after.players.len() == before.players.len(),
        present(before.players, id) ==> after.players == before.players.update(
            seat(before.players, id),
            after.players[seat(before.players, id)],
        ) && after.players[seat(before.players, id)].id == before.players[seat(
            before.players,
            id,
        )].id,
        !present(before.players, id) ==> after.players == before.players,
    ensures
        ids_of(after.players) == ids_of(before.players),
{
    assert(ids_of(after.players) =~= ids_of(before.players));
}

// ---------------------------------------------------------------------------
// The server
// ---------------------------------------------------------------------------

/// One more room adds itself to what a tick leaves and sends, if somebody is in it.
proof fn lemma_tick_next(rooms: Seq<HandleView>, n: int, damp: Double)
    requires
        0 <= n < rooms.len(),
    ensures
        ({
            let h = rooms[n];
            let frames = FramesView { room: h.room.id, frames: h.frames(damp) };
            let before = ticked_rooms(rooms.take(n), damp);
            let after = ticked_rooms(rooms.take(n + 1), damp);
            let said = outgoing(rooms.take(n), damp);
            let says = outgoing(rooms.take(n + 1), damp);
            if h.room.players.len() == 0 {
                after == before && says == said
            } else {
                &&& after == before.push(h.stepped(damp))
                &&& says == if frames.frames.len() > 0 {
                    said.push(frames)
                } else {
                    said
                }
            }
        }),
{
    reveal(Seq::filter);
    let longer = rooms.take(n + 1);
    assert(longer.drop_last() =~= rooms.take(n));
    assert(longer.last() == rooms[n]);
    let h = rooms[n];
    let frames = FramesView { room: h.room.id, frames: h.frames(damp) };
    if h.room.players.len() > 0 {
        assert(ticked_rooms(longer, damp) =~= ticked_rooms(rooms.take(n), damp).push(
            h.stepped(damp),
        ));
        if frames.frames.len() > 0 {
            assert(outgoing(longer, damp) =~= outgoing(rooms.take(n), damp).push(frames));
        }
    }
}

/// A room is found by its id, and there is only one.
pub(crate) proof fn lemma_spot(rooms: Seq<HandleView>, i: int, id: Seq<char>)
    requires
        forall|i: int, j: int|
            0 <= i < j < rooms.len() ==> #[trigger] rooms[i].room.id != #[trigger] rooms[j].room.id,
        hosts(rooms, i, id),
    ensures
        opened(rooms, id),
        spot(rooms, id) == i,
{
    let k = spot(rooms, id);
    assert(hosts(rooms, k, id));
    if k < i {
        assert(rooms[k].room.id != rooms[i].room.id);
    } else if i < k {
        assert(rooms[i].room.id != rooms[k].room.id);
    }
}

impl Session {
    /// A connection that is in no room yet.
    pub fn new(id: String) -> (session: Session)
        ensures
            session.id == id,
            session.current() is None,
    {
        Session { id, room: None }
    }
}

impl Server {
    /// A server without rooms. `headings` are the directions of [`crate::room::spawn_angle`] for
    /// each number of players that leaves a place free, and `damp` is the exponential of
    /// [`crate::physics::damping_exponent`] for one step.
    pub fn new(headings: Vec<Vec2>, damp: Double) -> (server: Server)
        requires
            headings@.len() == MAX_PLAYERS,
        ensures
            server@ == (ServerView { rooms: Seq::empty(), headings: headings@, damp }),
            server@.wf(),
    {
        let server = Server { rooms: Vec::new(), headings, damp };
        assert(server@.rooms =~= Seq::empty());
        server
    }

    /// Where the room with the given id is.
    pub fn find(&self, id: &str) -> (at: Option<usize>)
        requires
            self@.wf(),
        ensures
            match at {
                Some(i) => opened(self@.rooms, id@) && i == spot(self@.rooms, id@) && i
                    < self@.rooms.len() && self@.rooms[i as int].room.id == id@,
                None => !opened(self@.rooms, id@),
            },
    {
        let wanted: String = id.to_owned();
        let mut i: usize = 0;
        while i < self.rooms.len()
            invariant
                i <= self.rooms@.len(),
                wanted@ == id@,
                self@.wf(),
                forall|k: int| 0 <= k < i ==> !hosts(self@.rooms, k, id@),
            decreases self.rooms@.len() - i,
        {
            if self.rooms[i].room.id == wanted {
                proof {
                    lemma_spot(self@.rooms, i as int, id@);
                }
                return Some(i);
            }
            assert(!hosts(self@.rooms, i as int, id@));
            i = i + 1;
        }
        None
    }

    /// Lets a player leave a room, and tells those who stay.
    pub fn leave_room(&mut self, room_id: &str, player_id: &str) -> (sent: Vec<Delivery>)
        requires
            old(self)@.wf(),
        ensures
            final(self)@ == old(self)@.left(Some(room_id@), player_id@).server,
            post(sent@) == old(self)@.left(Some(room_id@), player_id@).sent,
            final(self)@.wf(),
    {
        let mut sent: Vec<Delivery> = Vec::new();
        if let Some(i) = self.find(room_id) {
            self.rooms[i].leave(player_id);
            sent.push(
                self.rooms[i].broadcast(ServerMsg::PlayerLeave { id: player_id.to_owned() }),
            );
            proof {
                let handle = self.rooms@[i as int]@;
                assert(self@.rooms =~= old(self)@.rooms.update(i as int, handle));
            }
        }
        assert(post(sent@) =~= old(self)@.left(Some(room_id@), player_id@).sent);
        sent
    }

    /// Lets a client leave the room that it is in.
    fn leave_current(&mut self, session: &mut Session) -> (sent: Vec<Delivery>)
        requires
            old(self)@.wf(),
        ensures
            final(self)@ == old(self)@.left(old(session).current(), old(session).id@).server,
            post(sent@) == old(self)@.left(old(session).current(), old(session).id@).sent,
            final(session).id == old(session).id,
            final(session).current() is None,
            final(self)@.wf(),
    {
        match session.room.take() {
            Some(room) => self.leave_room(room.as_str(), session.id.as_str()),
            None => {
                let sent: Vec<Delivery> = Vec::new();
                assert(post(sent@) =~= Seq::empty());
                sent
            },
        }
    }

    /// Lets a client enter a room, after it left the one that it was in.
    fn join(
        &mut self,
        session: &mut Session,
        room: String,
        name: String,
        color: String,
    ) -> (sent: Vec<Delivery>)
        requires
            old(self)@.wf(),
        ensures
            (Reply {
                server: final(self)@,
                room: final(session).current(),
                sent: post(sent@),
            }) == old(self)@.handled(*old(session), ClientMsg::Join { room, name, color }),
            final(session).id == old(session).id,
            final(self)@.wf(),
    {
        let mut sent: Vec<Delivery> = self.leave_current(session);
        let ghost left = self@;
        let ghost farewell = post(sent@);

        let at: Option<usize> = self.find(room.as_str());
        let i: usize = match at {
            Some(i) => i,
            None => {
                let fresh: RoomHandle = RoomHandle::new(room.clone());
                self.rooms.push(fresh);
                proof {
                    assert(self@.rooms =~= left.rooms.push(HandleView::fresh(room@)));
                    assert forall|k: int| 0 <= k < left.rooms.len() implies #[trigger] self@.rooms[k].room.id
                        != room@ by {
                        assert(!hosts(left.rooms, k, room@));
                    }
                    assert(hosts(self@.rooms, left.rooms.len() as int, room@));
                }
                self.rooms.len() - 1
            },
        };
        assert(self@ == left.opening(room@));
        assert(self@.wf());
        proof {
            lemma_spot(self@.rooms, i as int, room@);
        }
        let ghost opened = self@;

        if self.rooms[i].room.is_full() {
            sent.push(
                Delivery {
                    to: only(&session.id),
                    msg: ServerMsg::PlayerLeave { id: "full".to_owned() },
                },
            );
            assert(post(sent@) =~= farewell + left.entered(session.id, room@, name, color).sent);
            return sent;
        }
        let heading: Vec2 = self.headings[self.rooms[i].room.players.len()];
        let idx: u8 = self.rooms[i].enter(&session.id, &name, &color, heading);
        proof {
            let p = new_player(session.id, idx, name, color, heading);
            let before = opened.rooms[i as int].room;
            let after = self@.rooms[i as int].room;
            assert(after == before.with(p));
            if present(before.players, p.id@) {
                assert(sits(before.players, seat(before.players, p.id@), p.id@));
                lemma_seat(after.players, seat(before.players, p.id@), p.id@);
            } else {
                lemma_seat(after.players, before.players.len() as int, p.id@);
            }
            assert(self@.rooms =~= opened.rooms.update(i as int, self@.rooms[i as int]));
        }
        let mut greetings: Vec<Delivery> = self.rooms[i].greet(&session.id);
        let ghost hello = post(greetings@);
        let ghost before = sent@;
        sent.append(&mut greetings);
        assert(post(sent@) =~= farewell + hello);
        session.room = Some(room);
        sent
    }

    /// Does what a message of a client asks for. Returns what is sent.
    pub fn handle(&mut self, session: &mut Session, msg: ClientMsg) -> (sent: Vec<Delivery>)
        requires
            old(self)@.wf(),
        ensures
            (Reply {
                server: final(self)@,
                room: final(session).current(),
                sent: post(sent@),
            }) == old(self)@.handled(*old(session), msg),
            final(session).id == old(session).id,
            final(self)@.wf(),
    {
        let mut sent: Vec<Delivery> = Vec::new();
        assert(post(sent@) =~= Seq::empty());
        match msg {
            ClientMsg::Join { room, name, color } => self.join(session, room, name, color),
            ClientMsg::Leave => self.leave_current(session),
            ClientMsg::Input { x, y, seq } => {
                if let Some(room) = &session.room {
                    if let Some(i) = self.find(room.as_str()) {
                        self.rooms[i].steer(session.id.as_str(), x, y, seq);
                        assert(self@.rooms =~= old(self)@.rooms.update(
                            i as int,
                            self@.rooms[i as int],
                        ));
                    }
                }
                sent
            },
            ClientMsg::Ready { ready } => {
                if let Some(room) = &session.room {
                    if let Some(i) = self.find(room.as_str()) {
                        let start: Option<ServerMsg> = self.rooms[i].flag(
                            session.id.as_str(),
                            ready,
                        );
                        assert(self@.rooms =~= old(self)@.rooms.update(
                            i as int,
                            self@.rooms[i as int],
                        ));
                        if let Some(level) = start {
                            sent.push(self.rooms[i].broadcast(level));
                        }
                        assert(post(sent@) =~= old(self)@.handled(*old(session), msg).sent);
                    }
                }
                sent
            },
            ClientMsg::Ping { ts } => {
                sent.push(Delivery { to: only(&session.id), msg: ServerMsg::Pong { ts } });
                assert(post(sent@) =~= old(self)@.handled(*old(session), msg).sent);
                sent
            },
        }
    }

    /// Ends a connection: the client leaves its room.
    pub fn disconnect(&mut self, session: &mut Session) -> (sent: Vec<Delivery>)
        requires
            old(self)@.wf(),
        ensures
            (Reply {
                server: final(self)@,
                room: final(session).current(),
                sent: post(sent@),
            }) == old(self)@.left(old(session).current(), old(session).id@),
            final(session).id == old(session).id,
            final(self)@.wf(),
    {
        self.leave_current(session)
    }

    /// One tick of every room with players in it; the others are closed. Returns what goes out to
    /// whoever is in the rooms when it is sent.
    pub fn tick(&mut self) -> (outbound: Vec<RoomFrames>)
        requires
            old(self)@.wf(),
        ensures
            final(self)@ == old(self)@.ticked(),
            bundles(outbound@) == old(self)@.outbound(),
            final(self)@.wf(),
    {
        let mut outbound: Vec<RoomFrames> = Vec::new();
        let ghost start = self@.rooms;
        let damp: Double = self.damp;
        let mut i: usize = 0;
        let ghost mut n: int = 0;
        proof {
            reveal(Seq::filter);
            assert(start.take(0) =~= Seq::empty());
            assert(ticked_rooms(start.take(0), damp) =~= Seq::empty());
            assert(outgoing(start.take(0), damp) =~= Seq::empty());
            assert(self@.rooms =~= ticked_rooms(start.take(0), damp) + start.skip(0));
            assert(bundles(outbound@) =~= outgoing(start.take(0), damp));
        }
        while i < self.rooms.len()
            invariant
                i <= self.rooms@.len(),
                0 <= n <= start.len(),
                i == ticked_rooms(start.take(n), damp).len(),
                self.headings == old(self).headings,
                self.damp == damp,
                self@.wf(),
                self@.rooms == ticked_rooms(start.take(n), damp) + start.skip(n),
                bundles(outbound@) == outgoing(start.take(n), damp),
            decreases start.len() - n,
        {
            let ghost before = self@.rooms;
            let ghost done = ticked_rooms(start.take(n), damp);
            let ghost said = bundles(outbound@);
            proof {
                assert(self.rooms@.len() == before.len());
                assert(before.len() == done.len() + start.skip(n).len());
                assert(before[i as int] == start.skip(n)[0]);
                assert(self.rooms@[i as int]@ == start[n]);
                lemma_tick_next(start, n, damp);
            }
            if self.rooms[i].room.is_empty() {
                self.rooms.remove(i);
                proof {
                    assert(self@.rooms =~= before.remove(i as int));
                    assert(self@.rooms =~= done + start.skip(n + 1));
                }
            } else {
                let frames: Vec<ServerMsg> = self.rooms[i].step(damp);
                proof {
                    law_tick_keeps_players(start[n].room, damp);
                    assert(self@.rooms =~= before.update(i as int, start[n].stepped(damp)));
                    assert(self@.rooms =~= done.push(start[n].stepped(damp)) + start.skip(n + 1));
                }
                if !frames.is_empty() {
                    outbound.push(RoomFrames { room: self.rooms[i].room.id.clone(), frames });
                    assert(bundles(outbound@) =~= said.push(
                        FramesView { room: start[n].room.id, frames: start[n].frames(damp) },
                    ));
                }
                i = i + 1;
            }
            proof {
                n = n + 1;
            }
        }
        proof {
            let done = ticked_rooms(start.take(n), damp);
            assert(self.rooms@.len() == self@.rooms.len());
            assert(self@.rooms.len() == done.len() + start.skip(n).len());
            assert(start.take(n) =~= start);
            assert(self@.rooms =~= done);
        }
        outbound
    }

    /// Who is in a room now.
    pub fn audience(&self, room: &str) -> (to: Vec<String>)
        requires
            self@.wf(),
        ensures
            texts(to@) == if opened(self@.rooms, room@) {
                ids_of(self@.rooms[spot(self@.rooms, room@)].room.players)
            } else {
                Seq::empty()
            },
    {
        match self.find(room) {
            Some(i) => copied(&self.rooms[i].clients),
            None => {
                let to: Vec<String> = Vec::new();
                assert(texts(to@) =~= Seq::empty());
                to
            },
        }
    }
}

// ---------------------------------------------------------------------------
// The clock
// ---------------------------------------------------------------------------

/// The length of a tick, in nanoseconds: sixty ticks to the second.
pub const STEP_NANOS: u64 = 1_000_000_000 / 60;

/// When the next tick is due and how long to wait until then, in nanoseconds. A server that is
/// late goes on at once and does not catch up.
pub fn pace(due: u64, now: u64) -> (r: (u64, u64))
    requires
        due <= u64::MAX - STEP_NANOS,
    ensures
        ({
            let next = due + STEP_NANOS;
            if next > now {
                r == (next as u64, (next - now) as u64)
            } else {
                r == (now, 0u64)
            }
        }),
{
    let next: u64 = due + STEP_NANOS;
    if next > now {
        (next, next - now)
    } else {
        (now, 0)
    }
}

// ---------------------------------------------------------------------------
// Laws
// ---------------------------------------------------------------------------

/// Whether a player is in the given room, and in no other.
pub open spec fn in_room(server: ServerView, id: Seq<char>, room: Option<Seq<char>>) -> bool {
    &&& forall|i: int|
        0 <= i < server.rooms.len() && present((#[trigger] server.rooms[i]).room.players, id)
            ==> room == Some(server.rooms[i].room.id)
    &&& room matches Some(r) ==> opened(server.rooms, r) && present(
        server.rooms[spot(server.rooms, r)].room.players,
        id,
    )
}

/// Every message leaves a client in the room that its session says, and in no other.
pub proof fn law_one_room(server: ServerView, session: Session, msg: ClientMsg)
    requires
        server.wf(),
        in_room(server, session.id@, session.current()),
    ensures
        in_room(
            server.handled(session, msg).server,
            session.id@,
            server.handled(session, msg).room,
        ),
{
    match msg {
        ClientMsg::Join { room: goal, name, color } => {
            let left = server.left(session.current(), session.id@);
            lemma_left_wf(server, session.current(), session.id@);
            law_leaver_in_no_room(server, session.current(), session.id@);
            lemma_entered_self(left.server, session.id, goal@, name, color);
        },
        ClientMsg::Leave => {
            law_leaver_in_no_room(server, session.current(), session.id@);
        },
        ClientMsg::Input { x, y, seq } => {
            if let Some(r) = session.current() {
                let i = spot(server.rooms, r);
                assert(hosts(server.rooms, i, r));
                let handle = server.rooms[i].steered(session.id@, x, y, seq);
                lemma_changed_seats(server, i, handle, session.id@, session.current());
            }
        },
        ClientMsg::Ready { ready } => {
            if let Some(r) = session.current() {
                let i = spot(server.rooms, r);
                assert(hosts(server.rooms, i, r));
                let handle = server.rooms[i].flagged(session.id@, ready);
                lemma_changed_seats(server, i, handle, session.id@, session.current());
            }
        },
        ClientMsg::Ping { ts } => {},
    }
}

/// No message moves another client than the one that sent it.
pub proof fn law_others_stay(
    server: ServerView,
    session: Session,
    msg: ClientMsg,
    other: Seq<char>,
    room: Option<Seq<char>>,
)
    requires
        server.wf(),
        in_room(server, session.id@, session.current()),
        other != session.id@,
        in_room(server, other, room),
    ensures
        in_room(server.handled(session, msg).server, other, room),
{
    match msg {
        ClientMsg::Join { room: goal, name, color } => {
            let left = server.left(session.current(), session.id@);
            lemma_left_wf(server, session.current(), session.id@);
            law_leaver_in_no_room(server, session.current(), session.id@);
            lemma_left_other(server, session.current(), session.id@, other, room);
            lemma_entered_other(left.server, session.id, goal@, name, color, other, room);
        },
        ClientMsg::Leave => {
            lemma_left_other(server, session.current(), session.id@, other, room);
        },
        ClientMsg::Input { x, y, seq } => {
            if let Some(r) = session.current() {
                let i = spot(server.rooms, r);
                assert(hosts(server.rooms, i, r));
                let handle = server.rooms[i].steered(session.id@, x, y, seq);
                lemma_changed_seats(server, i, handle, other, room);
            }
        },
        ClientMsg::Ready { ready } => {
            if let Some(r) = session.current() {
                let i = spot(server.rooms, r);
                assert(hosts(server.rooms, i, r));
                let handle = server.rooms[i].flagged(session.id@, ready);
                lemma_changed_seats(server, i, handle, other, room);
            }
        },
        ClientMsg::Ping { ts } => {},
    }
}

/// A client that left or disconnected is in no room at all.
pub proof fn law_leaver_in_no_room(
    server: ServerView,
    current: Option<Seq<char>>,
    id: Seq<char>,
)
    requires
        server.wf(),
        in_room(server, id, current),
    ensures
        server.left(current, id).room is None,
        in_room(server.left(current, id).server, id, None),
        forall|k: int|
            0 <= k < server.left(current, id).server.rooms.len() ==> !present(
                (#[trigger] server.left(current, id).server.rooms[k]).room.players,
                id,
            ),
{
    if let Some(r) = current {
        let i = spot(server.rooms, r);
        assert(hosts(server.rooms, i, r));
        let before = server.rooms[i].room;
        let handle = server.rooms[i].became(before.without(id));
        let after = server.with(i, handle);
        law_leaving_empties(before, id);
        assert(after.rooms[i] == handle);
        assert forall|k: int| 0 <= k < after.rooms.len() implies !present(
            (#[trigger] after.rooms[k]).room.players,
            id,
        ) by {
            if k != i && present(server.rooms[k].room.players, id) {
                assert(server.rooms[k].room.id == server.rooms[i].room.id);
            }
        }
    }
}

/// A tick leaves everybody in their rooms.
pub proof fn law_tick_keeps_rooms(server: ServerView, id: Seq<char>, room: Option<Seq<char>>)
    requires
        server.wf(),
        in_room(server, id, room),
    ensures
        in_room(server.ticked(), id, room),
{
    let occupied = |h: HandleView| h.room.players.len() > 0;
    let kept = server.rooms.filter(occupied);
    let after = server.ticked().rooms;
    lemma_filtered(server.rooms, occupied);
    assert forall|k: int| 0 <= k < after.len() implies #[trigger] after[k].room.id
        == kept[k].room.id && (present(after[k].room.players, id) <==> present(
        kept[k].room.players,
        id,
    )) by {
        law_tick_keeps_players(kept[k].room, server.damp);
        let a = after[k].room.players;
        let b = kept[k].room.players;
        if present(a, id) {
            assert(sits(a, seat(a, id), id));
            assert(sits(b, seat(a, id), id));
        }
        if present(b, id) {
            assert(sits(b, seat(b, id), id));
            assert(sits(a, seat(b, id), id));
        }
    }
    assert forall|k: int| 0 <= k < after.len() && present(
        (#[trigger] after[k]).room.players,
        id,
    ) implies room == Some(after[k].room.id) by {
        let i = choose|i: int| 0 <= i < server.rooms.len() && server.rooms[i] == kept[k];
        assert(server.rooms[i] == kept[k]);
    }
    if let Some(r) = room {
        let i = spot(server.rooms, r);
        assert(hosts(server.rooms, i, r));
        let players = server.rooms[i].room.players;
        assert(sits(players, seat(players, id), id));
        assert(kept.contains(server.rooms[i]));
        let k = choose|k: int| 0 <= k < kept.len() && kept[k] == server.rooms[i];
        assert(after[k].room.id == kept[k].room.id);
        assert(hosts(after, k, r));
        assert forall|a: int, b: int| 0 <= a < b < after.len() implies #[trigger] after[a].room.id
            != #[trigger] after[b].room.id by {
            assert(kept[a].room.id != kept[b].room.id);
        }
        lemma_spot(after, k, r);
    }
}

/// Empty rooms are closed: after a tick somebody is in every room.
pub proof fn law_empty_rooms_close(server: ServerView, k: int)
    requires
        server.wf(),
        0 <= k < server.ticked().rooms.len(),
    ensures
        server.ticked().rooms[k].room.players.len() > 0,
{
    let occupied = |h: HandleView| h.room.players.len() > 0;
    lemma_filtered(server.rooms, occupied);
    let kept = server.rooms.filter(occupied);
    law_tick_keeps_players(kept[k].room, server.damp);
    assert(occupied(kept[k]));
}

/// A ping is answered at once, to the client alone, with its own time stamp, and changes nothing.
pub proof fn law_ping_echoes(server: ServerView, session: Session, ts: u64)
    ensures
        server.handled(session, ClientMsg::Ping { ts }) == (Reply {
            server,
            room: session.current(),
            sent: seq![DeliveryView { to: seq![session.id@], msg: ServerMsgView::Pong { ts } }],
        }),
{
}

/// A client in no room can neither steer nor get ready nor leave: nothing happens.
pub proof fn law_outsiders_ignored(server: ServerView, session: Session, msg: ClientMsg)
    requires
        session.current() is None,
        msg is Input || msg is Ready || msg is Leave,
    ensures
        server.handled(session, msg) == (Reply { server, room: None, sent: Seq::empty() }),
{
}

/// A full room turns a client away. The client has left the room that it was in, if any, and is in
/// no room; besides those who stay there nobody else notices, and the full room is not touched.
pub proof fn law_full_room_refuses(
    server: ServerView,
    session: Session,
    room: String,
    name: String,
    color: String,
)
    requires
        server.wf(),
        session.current() != Some(room@),
        opened(server.rooms, room@),
        server.rooms[spot(server.rooms, room@)].room.players.len() >= MAX_PLAYERS,
    ensures
        ({
            let left = server.left(session.current(), session.id@);
            let full = spot(server.rooms, room@);
            &&& server.handled(session, ClientMsg::Join { room, name, color }) == (Reply {
                server: left.server,
                room: None,
                sent: left.sent.push(
                    DeliveryView {
                        to: seq![session.id@],
                        msg: ServerMsgView::PlayerLeave { id: "full"@ },
                    },
                ),
            })
            &&& left.server.rooms[full] == server.rooms[full]
            &&& session.current() is None ==> left.server == server && left.sent == Seq::<
                DeliveryView,
            >::empty()
        }),
{
    let left = server.left(session.current(), session.id@);
    let full = spot(server.rooms, room@);
    assert(hosts(server.rooms, full, room@));
    lemma_left_wf(server, session.current(), session.id@);
    if let Some(r) = session.current() {
        if opened(server.rooms, r) {
            assert(hosts(server.rooms, spot(server.rooms, r), r));
        }
    }
    assert(left.server.rooms[full] == server.rooms[full]);
    assert(hosts(left.server.rooms, full, room@));
    lemma_spot(left.server.rooms, full, room@);
    let reply = server.handled(session, ClientMsg::Join { room, name, color });
    assert(reply.sent =~= left.sent.push(
        DeliveryView { to: seq![session.id@], msg: ServerMsgView::PlayerLeave { id: "full"@ } },
    ));
}

/// A message touches only the room that the client is in and the room that it asks for.
pub proof fn law_rooms_are_separate(server: ServerView, session: Session, msg: ClientMsg, i: int)
    requires
        server.wf(),
        0 <= i < server.rooms.len(),
        session.current() != Some(server.rooms[i].room.id),
        msg matches ClientMsg::Join { room, name, color } ==> room@ != server.rooms[i].room.id,
    ensures
        server.handled(session, msg).server.rooms[i] == server.rooms[i],
{
    if let Some(r) = session.current() {
        if opened(server.rooms, r) {
            assert(hosts(server.rooms, spot(server.rooms, r), r));
        }
    }
    if let ClientMsg::Join { room, name, color } = msg {
        let left = server.left(session.current(), session.id@).server;
        let open = left.opening(room@);
        assert(left.rooms[i] == server.rooms[i]);
        if !opened(left.rooms, room@) {
            assert(hosts(open.rooms, left.rooms.len() as int, room@));
        }
        assert(hosts(open.rooms, spot(open.rooms, room@), room@));
    }
}

/// A client that leaves is gone from its room, and exactly those who stay are told.
pub proof fn law_leaving_is_told(server: ServerView, room: Seq<char>, id: Seq<char>)
    requires
        server.wf(),
        opened(server.rooms, room),
    ensures
        ({
            let reply = server.left(Some(room), id);
            let after = reply.server.rooms[spot(server.rooms, room)].room.players;
            &&& reply.sent == seq![
                DeliveryView { to: ids_of(after), msg: ServerMsgView::PlayerLeave { id } },
            ]
            &&& !present(after, id)
            &&& !ids_of(after).contains(id)
            &&& forall|other: Seq<char>|
                other != id ==> (#[trigger] present(after, other) <==> present(
                    server.rooms[spot(server.rooms, room)].room.players,
                    other,
                ))
        }),
{
    let i = spot(server.rooms, room);
    assert(hosts(server.rooms, i, room));
    let before = server.rooms[i].room;
    let after = before.without(id).players;
    law_leaving_empties(before, id);
    assert forall|other: Seq<char>| other != id implies (#[trigger] present(after, other)
        <==> present(before.players, other)) by {
        lemma_without_others(before, id, other);
    }
    if ids_of(after).contains(id) {
        let k = choose|k: int| 0 <= k < ids_of(after).len() && ids_of(after)[k] == id;
        assert(sits(after, k, id));
    }
}

/// Who enters a room that has a place left, a new one or one that is there already, is announced
/// to exactly the others, welcomed with an index that nobody else has, told of everybody who is
/// there in order, and told of the level if one is being played. Nothing else is sent.
pub proof fn law_joining_is_told(
    server: ServerView,
    id: String,
    room: Seq<char>,
    name: String,
    color: String,
)
    requires
        server.wf(),
        in_room(server, id@, None),
        opened(server.rooms, room) ==> server.rooms[spot(server.rooms, room)].room.players.len()
            < MAX_PLAYERS,
    ensures
        ({
            let before = if opened(server.rooms, room) {
                server.rooms[spot(server.rooms, room)].room
            } else {
                HandleView::fresh(room).room
            };
            let reply = server.entered(id, room, name, color);
            let idx = free_index(before.players, id@);
            let news = seq![
                DeliveryView {
                    to: ids_of(before.players),
                    msg: ServerMsgView::PlayerJoin { id: id@, idx, name: name@, color: color@ },
                },
                DeliveryView {
                    to: seq![id@],
                    msg: ServerMsgView::Welcome { id: id@, idx, tick: before.tick },
                },
            ] + before.players.map_values(
                |q: Player| DeliveryView { to: seq![id@], msg: join_msg(q) },
            );
            &&& reply.room == Some(room)
            &&& !ids_of(before.players).contains(id@)
            &&& is_free_index(before.players, id@, idx as int)
            &&& reply.sent == match before.level {
                Some(l) => news.push(DeliveryView { to: seq![id@], msg: level_msg(l) }),
                None => news,
            }
        }),
{
    lemma_opening(server, room);
    let open = server.opening(room);
    let i = spot(open.rooms, room);
    if opened(server.rooms, room) {
        assert(open.rooms[i] == server.rooms[i]);
    }
    let before = open.rooms[i].room;
    assert(!present(before.players, id@));
    let idx = free_index(before.players, id@);
    lemma_free_index(before.players, id@);
    let p = new_player(id, idx, name, color, server.headings[before.players.len() as int]);
    let joined = before.players.push(p);
    let ids = ids_of(before.players);
    assert forall|k: int| 0 <= k < ids.len() implies #[trigger] ids[k] != id@ by {
        assert(ids[k] == before.players[k].id@);
        if ids[k] == id@ {
            assert(sits(before.players, k, id@));
        }
    }
    assert(ids_of(joined) =~= ids.push(id@));
    lemma_others_are(ids, id@);
    lemma_introductions(before.players, p, before.players.len());
}

/// When the last player gets ready, the campaign starts, and everybody in the room is told of
/// its level.
pub proof fn law_ready_starts(server: ServerView, session: Session)
    requires
        server.wf(),
        in_room(server, session.id@, session.current()),
        session.current() matches Some(r) && {
            let before = server.rooms[spot(server.rooms, r)].room;
            &&& before.phase != Phase::Playing
            &&& forall|i: int|
                0 <= i < before.players.len() && before.players[i].id@ != session.id@
                    ==> (#[trigger] before.players[i]).ready
        },
    ensures
        ({
            let i = spot(server.rooms, session.current()->0);
            let reply = server.handled(session, ClientMsg::Ready { ready: true });
            let after = reply.server.rooms[i].room;
            &&& after.phase == Phase::Playing
            &&& after.level is Some
            &&& after.level->0.index == 0
            &&& reply.sent == seq![
                DeliveryView { to: ids_of(after.players), msg: level_msg(after.level->0) },
            ]
        }),
{
    let r = session.current()->0;
    let i = spot(server.rooms, r);
    assert(hosts(server.rooms, i, r));
    let before = server.rooms[i].room;
    let handle = server.rooms[i].flagged(session.id@, true);
    let k = seat(before.players, session.id@);
    assert(sits(before.players, k, session.id@));
    let changed = before.changed(session.id@, |p: Player| Player { ready: true, ..p });
    assert(all_ready(changed.players)) by {
        assert forall|j: int| 0 <= j < changed.players.len() implies (
        #[trigger] changed.players[j]).ready by {
            if j != k {
                assert(changed.players[j] == before.players[j]);
                if before.players[j].id@ == session.id@ {
                    lemma_seat(before.players, j, session.id@);
                }
            }
        }
    }
    assert(ids_of(changed.players) =~= ids_of(before.players));
}

/// What happens in a room is always sent at once. Only the state is held back, and it comes last.
pub proof fn law_events_are_sent(handle: HandleView, damp: Double)
    ensures
        ({
            let sent = handle.room.ticked(damp).sent;
            let frames = handle.frames(damp);
            let next = handle.stepped(damp);
            let due = state_due(next.idle_ticks, next.room.tick);
            &&& frames.take(sent.len() as int) == sent
            &&& frames.len() == sent.len() + if due {
                1int
            } else {
                0int
            }
            &&& due ==> frames.last() == next.room.state_msg()
        }),
{
    let sent = handle.room.ticked(damp).sent;
    assert(handle.frames(damp).take(sent.len() as int) =~= sent);
}

/// While something happens in a room, its state is sent in exactly one of three ticks that follow
/// each other.
pub proof fn law_active_cadence(tick: u32, first: u32, second: u32, third: u32)
    requires
        tick + 2 <= u32::MAX,
        first <= 1,
        second <= 1,
        third <= 1,
    ensures
        ({
            let a = state_due(first, tick);
            let b = state_due(second, (tick + 1) as u32);
            let c = state_due(third, (tick + 2) as u32);
            (a && !b && !c) || (!a && b && !c) || (!a && !b && c)
        }),
{
}

/// While nothing happens, the state is sent again after exactly thirty ticks.
pub proof fn law_idle_cadence(idle: u32, later: u32, tick: u32, later_tick: u32)
    requires
        1 < idle < later,
        state_due(idle, tick),
    ensures
        state_due(later, later_tick) <==> (later - idle) % 30 == 0,
        later - idle < 30 ==> !state_due(later, later_tick),
{
}

/// Whatever is sent, and any motion, ends the idle time of a room; otherwise it grows with every
/// tick.
pub proof fn law_idle_time(handle: HandleView, damp: Double)
    ensures
        ({
            let out = handle.room.ticked(damp);
            let idle = handle.stepped(damp).idle_ticks;
            &&& out.sent.len() > 0 || out.room.in_motion() ==> idle == 0
            &&& out.sent.len() == 0 && !out.room.in_motion() && handle.idle_ticks < u32::MAX ==> idle
                == handle.idle_ticks + 1
        }),
{
}

/// A room whose players keep their ids keeps everybody where they are.
proof fn lemma_changed_seats(
    server: ServerView,
    i: int,
    handle: HandleView,
    id: Seq<char>,
    room: Option<Seq<char>>,
)
    requires
        server.wf(),
        0 <= i < server.rooms.len(),
        in_room(server, id, room),
        handle.room.id == server.rooms[i].room.id,
        handle.room.players.len() == server.rooms[i].room.players.len(),
        forall|k: int|
            0 <= k < handle.room.players.len() ==> (#[trigger] handle.room.players[k]).id
                == server.rooms[i].room.players[k].id,
    ensures
        in_room(server.with(i, handle), id, room),
{
    let after = server.with(i, handle);
    let before = server.rooms[i].room.players;
    assert(present(handle.room.players, id) ==> present(before, id)) by {
        if present(handle.room.players, id) {
            assert(sits(before, seat(handle.room.players, id), id));
        }
    }
    assert(present(before, id) ==> present(handle.room.players, id)) by {
        if present(before, id) {
            assert(sits(handle.room.players, seat(before, id), id));
        }
    }
    assert forall|k: int|
        0 <= k < after.rooms.len() && present((#[trigger] after.rooms[k]).room.players, id) implies room
        == Some(after.rooms[k].room.id) by {
        assert(present(server.rooms[k].room.players, id));
    }
    if let Some(r) = room {
        let j = spot(server.rooms, r);
        assert(hosts(server.rooms, j, r));
        assert(hosts(after.rooms, j, r));
        lemma_spots_after(server, i, handle);
        lemma_spot(after.rooms, j, r);
    }
}

/// Rooms stay distinct when one changes but keeps its id.
proof fn lemma_spots_after(server: ServerView, i: int, handle: HandleView)
    requires
        server.wf(),
        0 <= i < server.rooms.len(),
        handle.room.id == server.rooms[i].room.id,
    ensures
        forall|a: int, b: int|
            0 <= a < b < server.with(i, handle).rooms.len() ==> #[trigger] server.with(
                i,
                handle,
            ).rooms[a].room.id != #[trigger] server.with(i, handle).rooms[b].room.id,
{
    let after = server.with(i, handle);
    assert forall|a: int, b: int| 0 <= a < b < after.rooms.len() implies #[trigger] after.rooms[a].room.id
        != #[trigger] after.rooms[b].room.id by {
        assert(server.rooms[a].room.id != server.rooms[b].room.id);
    }
}

/// Leaving keeps the server well-formed.
pub(crate) proof fn lemma_left_wf(server: ServerView, current: Option<Seq<char>>, id: Seq<char>)
    requires
        server.wf(),
    ensures
        server.left(current, id).server.wf(),
{
    if let Some(r) = current {
        if opened(server.rooms, r) {
            let i = spot(server.rooms, r);
            assert(hosts(server.rooms, i, r));
            let handle = server.rooms[i].became(server.rooms[i].room.without(id));
            let after = server.with(i, handle);
            lemma_spots_after(server, i, handle);
            lemma_without_wf(server.rooms[i], id);
            assert forall|k: int| 0 <= k < after.rooms.len() implies (
            #[trigger] after.rooms[k]).wf() by {
                assert(server.rooms[k].wf());
            }
        }
    }
}

/// Nobody else is moved when a client leaves.
proof fn lemma_left_other(
    server: ServerView,
    current: Option<Seq<char>>,
    id: Seq<char>,
    other: Seq<char>,
    room: Option<Seq<char>>,
)
    requires
        server.wf(),
        other != id,
        in_room(server, other, room),
    ensures
        in_room(server.left(current, id).server, other, room),
{
    if let Some(r) = current {
        if opened(server.rooms, r) {
            let i = spot(server.rooms, r);
            assert(hosts(server.rooms, i, r));
            let before = server.rooms[i].room;
            let handle = server.rooms[i].became(before.without(id));
            let after = server.with(i, handle);
            lemma_without_others(before, id, other);
            lemma_spots_after(server, i, handle);
            assert(after.rooms[i] == handle);
            assert forall|k: int|
                0 <= k < after.rooms.len() && present(
                    (#[trigger] after.rooms[k]).room.players,
                    other,
                ) implies room == Some(after.rooms[k].room.id) by {
                assert(present(server.rooms[k].room.players, other));
            }
            if let Some(q) = room {
                let j = spot(server.rooms, q);
                assert(hosts(server.rooms, j, q));
                assert(hosts(after.rooms, j, q));
                lemma_spot(after.rooms, j, q);
            }
        }
    }
}

/// Others stay when a player leaves.
proof fn lemma_without_others(room: RoomView, id: Seq<char>, other: Seq<char>)
    requires
        room.wf(),
        other != id,
    ensures
        present(room.without(id).players, other) <==> present(room.players, other),
        room.without(id).id == room.id,
{
    let after = room.without(id).players;
    if present(room.players, id) {
        let k = seat(room.players, id);
        assert(sits(room.players, k, id));
        if present(room.players, other) {
            let i = seat(room.players, other);
            assert(sits(room.players, i, other));
            let j = if i < k {
                i
            } else {
                i - 1
            };
            assert(sits(after, j, other));
        }
        if present(after, other) {
            let j = seat(after, other);
            assert(sits(after, j, other));
            let i = if j < k {
                j
            } else {
                j + 1
            };
            assert(sits(room.players, i, other));
        }
    } else {
        if present(room.players, other) {
            assert(sits(after, seat(room.players, other), other));
        }
        if present(after, other) {
            assert(sits(room.players, seat(after, other), other));
        }
    }
}

proof fn lemma_without_wf(handle: HandleView, id: Seq<char>)
    requires
        handle.wf(),
    ensures
        handle.became(handle.room.without(id)).wf(),
{
    if present(handle.room.players, id) {
        let k = seat(handle.room.players, id);
        assert(sits(handle.room.players, k, id));
        lemma_distinct_without(handle.room.players, k);
    }
}

/// Opening a room keeps rooms apart, and there is one with the id then.
pub(crate) proof fn lemma_opening(server: ServerView, goal: Seq<char>)
    requires
        server.wf(),
    ensures
        hosts(server.opening(goal).rooms, spot(server.opening(goal).rooms, goal), goal),
        forall|a: int, b: int|
            0 <= a < b < server.opening(goal).rooms.len() ==> #[trigger] server.opening(
                goal,
            ).rooms[a].room.id != #[trigger] server.opening(goal).rooms[b].room.id,
        !opened(server.rooms, goal) ==> server.opening(goal).rooms[spot(
            server.opening(goal).rooms,
            goal,
        )] == HandleView::fresh(goal),
        forall|k: int|
            0 <= k < server.rooms.len() ==> #[trigger] server.opening(goal).rooms[k]
                == server.rooms[k],
{
    let open = server.opening(goal);
    if !opened(server.rooms, goal) {
        let last = server.rooms.len() as int;
        assert(hosts(open.rooms, last, goal));
        assert forall|a: int, b: int| 0 <= a < b < open.rooms.len() implies
            #[trigger] open.rooms[a].room.id != #[trigger] open.rooms[b].room.id by {
            if b < last {
                assert(server.rooms[a].room.id != server.rooms[b].room.id);
            } else {
                assert(!hosts(server.rooms, a, goal));
            }
        }
        lemma_spot(open.rooms, last, goal);
    }
}

/// A client that was in no room is in the one that it entered.
proof fn lemma_entered_self(
    server: ServerView,
    id: String,
    goal: Seq<char>,
    name: String,
    color: String,
)
    requires
        server.wf(),
        in_room(server, id@, None),
    ensures
        in_room(
            server.entered(id, goal, name, color).server,
            id@,
            server.entered(id, goal, name, color).room,
        ),
{
    let open = server.opening(goal);
    lemma_opening(server, goal);
    let i = spot(open.rooms, goal);
    assert forall|k: int| 0 <= k < open.rooms.len() implies !present(
        (#[trigger] open.rooms[k]).room.players,
        id@,
    ) by {
        if k < server.rooms.len() {
            assert(open.rooms[k] == server.rooms[k]);
        }
    }
    let players = open.rooms[i].room.players;
    if players.len() < MAX_PLAYERS {
        let idx = free_index(players, id@);
        let p = new_player(id, idx, name, color, server.headings[players.len() as int]);
        let after = server.entered(id, goal, name, color).server;
        let joined = players.push(p);
        assert(after.rooms[i].room.players == joined);
        assert(sits(joined, players.len() as int, id@));
        assert forall|a: int, b: int| 0 <= a < b < after.rooms.len() implies
            #[trigger] after.rooms[a].room.id != #[trigger] after.rooms[b].room.id by {
            assert(open.rooms[a].room.id != open.rooms[b].room.id);
        }
        assert(hosts(after.rooms, i, goal));
        lemma_spot(after.rooms, i, goal);
    }
}

/// Nobody else is moved when a client that was in no room enters one.
proof fn lemma_entered_other(
    server: ServerView,
    id: String,
    goal: Seq<char>,
    name: String,
    color: String,
    other: Seq<char>,
    room: Option<Seq<char>>,
)
    requires
        server.wf(),
        in_room(server, id@, None),
        other != id@,
        in_room(server, other, room),
    ensures
        in_room(server.entered(id, goal, name, color).server, other, room),
{
    let open = server.opening(goal);
    lemma_opening(server, goal);
    let i = spot(open.rooms, goal);
    assert forall|k: int|
        0 <= k < open.rooms.len() && present(
            (#[trigger] open.rooms[k]).room.players,
            other,
        ) implies room == Some(open.rooms[k].room.id) by {
        if k < server.rooms.len() {
            assert(open.rooms[k] == server.rooms[k]);
        }
    }
    if let Some(q) = room {
        let j = spot(server.rooms, q);
        assert(hosts(server.rooms, j, q));
        assert(open.rooms[j] == server.rooms[j]);
        assert(hosts(open.rooms, j, q));
        lemma_spot(open.rooms, j, q);
    }
    assert(in_room(open, other, room));
    let players = open.rooms[i].room.players;
    if players.len() < MAX_PLAYERS {
        let idx = free_index(players, id@);
        let p = new_player(id, idx, name, color, server.headings[players.len() as int]);
        let after = server.entered(id, goal, name, color).server;
        let joined = players.push(p);
        assert(!present(players, id@)) by {
            if i < server.rooms.len() {
                assert(open.rooms[i] == server.rooms[i]);
            }
        }
        assert(after.rooms[i].room.players == joined);
        assert(present(joined, other) <==> present(players, other)) by {
            if present(players, other) {
                assert(sits(joined, seat(players, other), other));
            }
            if present(joined, other) {
                assert(sits(joined, seat(joined, other), other));
                assert(sits(players, seat(joined, other), other));
            }
        }
        assert forall|a: int, b: int| 0 <= a < b < after.rooms.len() implies
            #[trigger] after.rooms[a].room.id != #[trigger] after.rooms[b].room.id by {
            assert(open.rooms[a].room.id != open.rooms[b].room.id);
        }
        if let Some(q) = room {
            let j = spot(open.rooms, q);
            assert(hosts(open.rooms, j, q));
            assert(hosts(after.rooms, j, q));
            lemma_spot(after.rooms, j, q);
        }
    }
}

/// What a filter leaves: rooms that it lets through, all of them, still told apart by their ids.
pub(crate) proof fn lemma_filtered(rooms: Seq<HandleView>, keep: spec_fn(HandleView) -> bool)
    requires
        forall|a: int, b: int|
            0 <= a < b < rooms.len() ==> #[trigger] rooms[a].room.id != #[trigger] rooms[b].room.id,
    ensures
        forall|k: int|
            0 <= k < rooms.filter(keep).len() ==> keep(#[trigger] rooms.filter(keep)[k])
                && rooms.contains(rooms.filter(keep)[k]),
        forall|i: int|
            0 <= i < rooms.len() && keep(rooms[i]) ==> rooms.filter(keep).contains(
                #[trigger] rooms[i],
            ),
        forall|a: int, b: int|
            0 <= a < b < rooms.filter(keep).len() ==> #[trigger] rooms.filter(keep)[a].room.id
                != #[trigger] rooms.filter(keep)[b].room.id,
    decreases rooms.len(),
{
    reveal(Seq::filter);
    let kept = rooms.filter(keep);
    if rooms.len() > 0 {
        let shorter = rooms.drop_last();
        lemma_filtered(shorter, keep);
        let before = shorter.filter(keep);
        assert forall|k: int| 0 <= k < kept.len() implies keep(#[trigger] kept[k])
            && rooms.contains(kept[k]) by {
            if k < before.len() {
                assert(kept[k] == before[k]);
                let i = choose|i: int| 0 <= i < shorter.len() && shorter[i] == before[k];
                assert(rooms[i] == kept[k]);
            } else {
                assert(kept[k] == rooms[rooms.len() - 1]);
            }
        }
        assert forall|i: int| 0 <= i < rooms.len() && keep(rooms[i]) implies kept.contains(
            #[trigger] rooms[i],
        ) by {
            if i < shorter.len() {
                assert(before.contains(shorter[i]));
                let k = choose|k: int| 0 <= k < before.len() && before[k] == shorter[i];
                assert(kept[k] == rooms[i]);
            } else {
                assert(kept[kept.len() - 1] == rooms[i]);
            }
        }
        assert forall|a: int, b: int| 0 <= a < b < kept.len() implies #[trigger] kept[a].room.id
            != #[trigger] kept[b].room.id by {
            assert(kept[a] == before[a]);
            if b < before.len() {
                assert(kept[b] == before[b]);
            } else {
                let i = choose|i: int| 0 <= i < shorter.len() && shorter[i] == before[a];
                assert(rooms[i].room.id != rooms[rooms.len() - 1].room.id);
            }
        }
    }
}

/// All clients but the last one, who is not among the others.
proof fn lemma_others_are(ids: Seq<Seq<char>>, id: Seq<char>)
    requires
        forall|k: int| 0 <= k < ids.len() ==> #[trigger] ids[k] != id,
    ensures
        others(ids.push(id), id) == ids,
{
    reveal(Seq::filter);
    let keep = is_not(id);
    let all = ids.push(id);
    assert(all.drop_last() =~= ids);
    assert(all.last() == id);
    lemma_all_kept(ids, keep);
    assert(all.filter(keep) == all.drop_last().filter(keep));
}

proof fn lemma_all_kept(ids: Seq<Seq<char>>, keep: spec_fn(Seq<char>) -> bool)
    requires
        forall|k: int| 0 <= k < ids.len() ==> keep(#[trigger] ids[k]),
    ensures
        ids.filter(keep) == ids,
    decreases ids.len(),
{
    reveal(Seq::filter);
    if ids.len() > 0 {
        lemma_all_kept(ids.drop_last(), keep);
        assert(ids.drop_last().push(ids.last()) =~= ids);
    } else {
        assert(ids.filter(keep) =~= ids);
    }
}

/// A newcomer is introduced to each of the others.
proof fn lemma_introductions(players: Seq<Player>, p: Player, n: nat)
    requires
        n <= players.len(),
        !present(players, p.id@),
    ensures
        introductions(players.push(p), p.id@, n) == players.take(n as int).map_values(
            |q: Player| DeliveryView { to: seq![p.id@], msg: join_msg(q) },
        ),
        n == players.len() ==> introductions(players.push(p), p.id@, n + 1)
            == players.map_values(
            |q: Player| DeliveryView { to: seq![p.id@], msg: join_msg(q) },
        ),
    decreases n,
{
    let tell = |q: Player| DeliveryView { to: seq![p.id@], msg: join_msg(q) };
    let joined = players.push(p);
    if n > 0 {
        lemma_introductions(players, p, (n - 1) as nat);
        assert(!sits(players, n - 1, p.id@));
        assert(joined[n - 1] == players[n - 1]);
        assert(introductions(joined, p.id@, n) =~= players.take(n as int).map_values(tell));
    } else {
        assert(introductions(joined, p.id@, n) =~= players.take(n as int).map_values(tell));
    }
    if n == players.len() {
        assert(joined[n as int] == p);
        assert(players.take(n as int) =~= players);
    }
}

} // verus!
