//! The messages between clients and the server.

use crate::double::Double;
use vstd::prelude::*;
use vstd::slice::slice_to_vec;
use vstd::utf8::encode_utf8;

verus! {

/// What a client sends.
#[derive(Clone, Debug)]
pub enum ClientMsg {
    /// Enter a room; the current one is left first.
    Join { room: String, name: String, color: String },
    /// The direction that the player steers in. `seq` numbers the inputs of a client.
    Input { x: Double, y: Double, seq: u32 },
    /// Leave the current room.
    Leave,
    /// Ask for a [`ServerMsg::Pong`] with the same time stamp.
    Ping { ts: u64 },
    /// Set the player's ready flag. The campaign starts when everybody in the room is ready.
    Ready { ready: bool },
}

/// What the server sends.
#[derive(Clone, Debug)]
pub enum ServerMsg {
    /// Tells a client its player id and its small index in the room.
    Welcome { id: String, idx: u8, tick: u32 },
    /// The state of a room.
    State { tick: u32, players: Vec<PlayerState>, campaign: Option<CampaignState> },
    /// What a level is made of. Sent when the level starts, and to a player who joins during it.
    Level {
        index: u8,
        levels: u8,
        walls: Vec<WallState>,
        enemies: Vec<EnemyFull>,
        items: Vec<ItemFull>,
        exit: ZoneState,
    },
    /// The campaign entered another phase or level.
    Campaign { phase: String, level: u8 },
    /// Somebody is in the room.
    PlayerJoin { id: String, idx: u8, name: String, color: String },
    /// Somebody left. The id `full` answers a client whom the room has no place for.
    PlayerLeave { id: String },
    /// Answers [`ClientMsg::Ping`].
    Pong { ts: u64 },
    /// A collision, for sound and effects.
    Bump { id: String, other: String, impulse: Double },
}

/// A player in a [`ServerMsg::State`]. `seq` is the last input that was applied.
#[derive(Clone, Debug)]
pub struct PlayerState {
    pub id: String,
    pub name: String,
    pub color: String,
    pub x: Double,
    pub y: Double,
    pub vx: Double,
    pub vy: Double,
    pub seq: u32,
    pub ready: bool,
}

/// The campaign in a [`ServerMsg::State`].
#[derive(Clone, Debug)]
pub struct CampaignState {
    pub phase: String,
    pub level: u8,
    pub levels: u8,
    pub walls: Vec<WallState>,
    pub enemies: Vec<EnemyState>,
    pub items: Vec<ItemState>,
    pub exit: ZoneState,
    pub in_zone: u8,
    pub total: u8,
}

/// An obstacle of a level, in whole units.
#[derive(Clone, Copy, Debug)]
pub struct WallState {
    pub x: i32,
    pub y: i32,
    pub r: i32,
}

/// An enemy as it is now.
#[derive(Clone, Copy, Debug)]
pub struct EnemyState {
    pub x: Double,
    pub y: Double,
    pub r: Double,
    pub hp: i32,
    pub alive: bool,
}

/// An item as it is now.
#[derive(Clone, Copy, Debug)]
pub struct ItemState {
    pub x: Double,
    pub y: Double,
    pub collected: bool,
}

/// An enemy at the start of a level, in whole units.
#[derive(Clone, Copy, Debug)]
pub struct EnemyFull {
    pub i: u8,
    pub x: i32,
    pub y: i32,
    pub r: i32,
    pub hp: i32,
}

/// An item at the start of a level, in whole units.
#[derive(Clone, Copy, Debug)]
pub struct ItemFull {
    pub i: u8,
    pub x: i32,
    pub y: i32,
}

/// The exit of a level, in whole units.
#[derive(Clone, Copy, Debug)]
pub struct ZoneState {
    pub x: i32,
    pub y: i32,
    pub r: i32,
}

/// An encoded frame, as it goes out.
#[derive(Clone, Debug)]
pub enum Outbound {
    Text(String),
    Binary(Vec<u8>),
}

/// Wraps the bytes of a binary frame.
pub fn encode_binary(bytes: Vec<u8>) -> (frame: Outbound)
    ensures
        frame == Outbound::Binary(bytes),
{
    Outbound::Binary(bytes)
}

/// Turns an encoded message into a frame: a binary one holds its bytes, a text one the text itself.
pub fn framed(binary: bool, text: String) -> (frame: Outbound)
    ensures
        binary ==> (frame matches Outbound::Binary(bytes) && bytes@ == encode_utf8(text@)),
        !binary ==> frame == Outbound::Text(text),
{
    if binary {
        encode_binary(slice_to_vec(text.as_str().as_bytes()))
    } else {
        Outbound::Text(text)
    }
}

impl ServerMsg {
    /// Whether the message goes out as a binary frame: the state does, everything else is text.
    pub fn is_binary(&self) -> (r: bool)
        ensures
            r == (self@ is State),
    {
        match self {
            ServerMsg::State { .. } => true,
            _ => false,
        }
    }
}

// ---------------------------------------------------------------------------
// Messages as values: strings and vectors as sequences
// ---------------------------------------------------------------------------

pub ghost enum ServerMsgView {
    Welcome { id: Seq<char>, idx: u8, tick: u32 },
    State { tick: u32, players: Seq<PlayerStateView>, campaign: Option<CampaignStateView> },
    Level {
        index: u8,
        levels: u8,
        walls: Seq<WallState>,
        enemies: Seq<EnemyFull>,
        items: Seq<ItemFull>,
        exit: ZoneState,
    },
    Campaign { phase: Seq<char>, level: u8 },
    PlayerJoin { id: Seq<char>, idx: u8, name: Seq<char>, color: Seq<char> },
    PlayerLeave { id: Seq<char> },
    Pong { ts: u64 },
    Bump { id: Seq<char>, other: Seq<char>, impulse: Double },
}

pub ghost struct PlayerStateView {
    pub id: Seq<char>,
    pub name: Seq<char>,
    pub color: Seq<char>,
    pub x: Double,
    pub y: Double,
    pub vx: Double,
    pub vy: Double,
    pub seq: u32,
    pub ready: bool,
}

pub ghost struct CampaignStateView {
    pub phase: Seq<char>,
    pub level: u8,
    pub levels: u8,
    pub walls: Seq<WallState>,
    pub enemies: Seq<EnemyState>,
    pub items: Seq<ItemState>,
    pub exit: ZoneState,
    pub in_zone: u8,
    pub total: u8,
}

impl View for PlayerState {
    type V = PlayerStateView;

    open spec fn view(&self) -> PlayerStateView {
        PlayerStateView {
            id: self.id@,
            name: self.name@,
            color: self.color@,
            x: self.x,
            y: self.y,
            vx: self.vx,
            vy: self.vy,
            seq: self.seq,
            ready: self.ready,
        }
    }
}

impl View for CampaignState {
    type V = CampaignStateView;

    open spec fn view(&self) -> CampaignStateView {
        CampaignStateView {
            phase: self.phase@,
            level: self.level,
            levels: self.levels,
            walls: self.walls@,
            enemies: self.enemies@,
            items: self.items@,
            exit: self.exit,
            in_zone: self.in_zone,
            total: self.total,
        }
    }
}

impl View for ServerMsg {
    type V = ServerMsgView;

    open spec fn view(&self) -> ServerMsgView {
        match *self {
            ServerMsg::Welcome { id, idx, tick } => ServerMsgView::Welcome { id: id@, idx, tick },
            ServerMsg::State { tick, players, campaign } => ServerMsgView::State {
                tick,
                players: players@.map_values(|p: PlayerState| p@),
                campaign: match campaign {
                    Some(c) => Some(c@),
                    None => None,
                },
            },
            ServerMsg::Level { index, levels, walls, enemies, items, exit } => ServerMsgView::Level {
                index,
                levels,
                walls: walls@,
                enemies: enemies@,
                items: items@,
                exit,
            },
            ServerMsg::Campaign { phase, level } => ServerMsgView::Campaign { phase: phase@, level },
            ServerMsg::PlayerJoin { id, idx, name, color } => ServerMsgView::PlayerJoin {
                id: id@,
                idx,
                name: name@,
                color: color@,
            },
            ServerMsg::PlayerLeave { id } => ServerMsgView::PlayerLeave { id: id@ },
            ServerMsg::Pong { ts } => ServerMsgView::Pong { ts },
            ServerMsg::Bump { id, other, impulse } => ServerMsgView::Bump {
                id: id@,
                other: other@,
                impulse,
            },
        }
    }
}

/// The messages that a vector holds.
pub open spec fn messages(sent: Seq<ServerMsg>) -> Seq<ServerMsgView> {
    sent.map_values(|m: ServerMsg| m@)
}

} // verus!
