//! Two-player Othello: a board engine with verified move legality and
//! captures, a turn state machine, and the matchmaking broker that pairs
//! sessions, relays moves and cleans up after disconnections.

pub mod board;
pub mod game;
pub mod wscommand;
pub mod server;
