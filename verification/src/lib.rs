//! An authoritative server for a multiplayer game of sliding dots.
//!
//! Players steer dots around a walled rink, bump into each other, into pillars and into walls, and
//! play a campaign of levels together. The library holds the simulation and the rules: the
//! physics, the levels, the rooms, and what each message of a client leads to. It neither reads
//! nor writes; whoever runs it passes messages in and sends what comes out.

pub mod arena;
pub mod bounce;
pub mod chase;
pub mod double;
pub mod drive;
pub mod encounter;
pub mod exact;
pub mod exchange;
pub mod hunt;
pub mod impact;
pub mod level;
pub mod motion;
pub mod people;
pub mod physics;
pub mod progress;
pub mod protocol;
pub mod random;
pub mod report;
pub mod room;
pub mod rounding;
pub mod server;
pub mod service;
pub mod space;
pub mod spawn;
