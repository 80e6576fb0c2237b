//! The messages exchanged with a client over its connection.

use vstd::prelude::*;

verus! {

/// Sent once connected: the player's nickname.
#[derive(Clone, Debug, PartialEq, Eq)]
pub struct WsConnectingParam {
    pub nickname: String,
}

/// Asks to join a board.
#[derive(Clone, Debug, PartialEq, Eq)]
pub struct WsJoinBoard {
    pub session_id: String,
}

/// A move on a board: `pos` is `(x, y)`.
#[derive(Debug, PartialEq, Eq)]
pub struct WsPlayBoard {
    pub session_id: String,
    pub board_id: String,
    pub pos: (usize, usize),
}

/// Leaves a finished game; `score` is (Black, White).
#[derive(Debug, PartialEq, Eq)]
pub struct WsGameOver {
    pub session_id: String,
    pub board_id: String,
    pub score: (usize, usize),
}

/// A request from a client.
#[derive(Debug, PartialEq, Eq)]
pub enum WsRequest {
    ConnectingParam(WsConnectingParam),
    JoinBoard(WsJoinBoard),
    PlayBoard(WsPlayBoard),
    GameOver(WsGameOver),
}

/// The session is established; `users_count` is the number of connected users.
#[derive(Clone, Debug, PartialEq, Eq)]
pub struct WsConnectedParam {
    pub session_id: String,
    pub users_count: usize,
}

/// The colour a player holds on a board.
#[derive(Clone, Copy, Debug, PartialEq, Eq, Structural)]
pub enum Color {
    Black,
    White,
}

/// The outcome of joining a board; `opponent` is the opponent's nickname, if any yet.
#[derive(Clone, Debug, PartialEq, Eq)]
pub struct WsJoinedBoard {
    pub session_id: String,
    pub board_id: String,
    pub color: Color,
    pub opponent: Option<String>,
}

/// Tells the waiting Black player that an opponent has joined.
#[derive(Clone, Debug, PartialEq, Eq)]
pub struct WsOpponentJoinedBoard {
    pub session_id: String,
    pub board_id: String,
    pub opponent: String,
}

/// A move that the opponent made; `pos` is `(x, y)`.
#[derive(Debug, PartialEq, Eq)]
pub struct WsPlayedBoard {
    pub session_id: String,
    pub board_id: String,
    pub pos: (usize, usize),
}

/// The opponent has left; `session_id` is the receiver's own session.
#[derive(Clone, Debug, PartialEq, Eq)]
pub struct WsOpponentDisconnected {
    pub session_id: String,
    pub board_id: String,
}

/// A response or notification to a client.
#[derive(Debug, PartialEq, Eq)]
pub enum WsResponse {
    ConnectedParam(WsConnectedParam),
    JoinedBoard(WsJoinedBoard),
    OpponentJoinedBoard(WsOpponentJoinedBoard),
    PlayedBoard(WsPlayedBoard),
    OpponentDisconnected(WsOpponentDisconnected),
}

} // verus!
