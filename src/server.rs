//! The broker: registers sessions, pairs them on boards in arrival order, relays moves
//! and cleans up when a game ends or a player disconnects. Each handler takes the
//! current state and a request, updates the state, and returns the messages to deliver.

use vstd::prelude::*;

use crate::board::{initial_cells, Cell};
use crate::game::{move_allowed, move_made, GameSession};
use crate::wscommand::{
    Color, WsConnectedParam, WsGameOver, WsJoinedBoard, WsOpponentDisconnected,
    WsOpponentJoinedBoard, WsPlayBoard, WsPlayedBoard, WsRequest, WsResponse,
};

verus! {

/// A connected session.
#[derive(Clone, Debug)]
pub struct SessionData {
    /// The session's identifier.
    pub id: String,
    /// The nickname received with the connecting parameters.
    pub nickname: Option<String>,
    /// The board the session joined last.
    pub board_id: Option<String>,
}

/// A board and its two players; an empty string marks a free slot.
#[derive(Clone, Debug)]
pub struct BoardData {
    pub id: String,
    /// Session of the Black player.
    pub black: String,
    /// Session of the White player.
    pub white: String,
    /// The game played on the board.
    pub game: GameSession,
}

/// A message to deliver to the connection of session `dest`.
#[derive(Debug, PartialEq, Eq)]
pub struct Outgoing {
    pub dest: String,
    pub response: WsResponse,
}

/// Session `id` has disconnected.
#[derive(Clone, Debug, PartialEq, Eq)]
pub struct Disconnect {
    pub id: String,
}

/// Request `request` arrived on the connection of session `id`.
#[derive(Debug, PartialEq, Eq)]
pub struct ClientMessage {
    pub id: String,
    pub request: WsRequest,
}

/// `i` is the first session with identifier `id`.
pub open spec fn session_at(ss: Seq<SessionData>, id: Seq<char>, i: int) -> bool {
    0 <= i < ss.len() && ss[i].id@ == id && forall|j: int| 0 <= j < i ==> ss[j].id@ != id
}

/// No session has identifier `id`.
pub open spec fn session_absent(ss: Seq<SessionData>, id: Seq<char>) -> bool {
    forall|j: int| 0 <= j < ss.len() ==> ss[j].id@ != id
}

/// `i` is the first board with identifier `id`.
pub open spec fn board_at(bs: Seq<BoardData>, id: Seq<char>, i: int) -> bool {
    0 <= i < bs.len() && bs[i].id@ == id && forall|j: int| 0 <= j < i ==> bs[j].id@ != id
}

/// No board has identifier `id`.
pub open spec fn board_absent(bs: Seq<BoardData>, id: Seq<char>) -> bool {
    forall|j: int| 0 <= j < bs.len() ==> bs[j].id@ != id
}

/// `q` without the entries equal to `id`, order kept.
pub open spec fn without(q: Seq<String>, id: Seq<char>) -> Seq<String>
    decreases q.len(),
{
    if q.len() == 0 {
        Seq::empty()
    } else {
        let prev = without(q.drop_last(), id);
        if q.last()@ != id {
            prev.push(q.last())
        } else {
            prev
        }
    }
}

/// A message to `dest`.
pub open spec fn message(dest: String, response: WsResponse) -> Outgoing {
    Outgoing { dest, response }
}

/// The nickname of session `id`, if it is registered and has one.
pub open spec fn nickname_of(ss: Seq<SessionData>, id: Seq<char>) -> Option<String> {
    if exists|i: int| #[trigger] session_at(ss, id, i) {
        ss[choose|i: int| #[trigger] session_at(ss, id, i)].nickname
    } else {
        None
    }
}

/// The first session with a given identifier has one index only.
proof fn lemma_session_at_unique(ss: Seq<SessionData>, id: Seq<char>, i: int, j: int)
    requires
        session_at(ss, id, i),
        session_at(ss, id, j),
    ensures
        i == j,
{
}

/// The state of the broker.
pub struct OthelloActor {
    /// The connected sessions.
    sessions: Vec<SessionData>,
    /// The boards being played or waiting for a second player.
    boards: Vec<BoardData>,
    /// Boards waiting for a White player, oldest first.
    boarding: Vec<String>,
}

/// The sessions, boards and waiting queue are the same in `a` and `b`.
pub open spec fn unchanged(a: OthelloActor, b: OthelloActor) -> bool {
    a.spec_sessions() == b.spec_sessions() && a.spec_boards() == b.spec_boards()
        && a.spec_queue() == b.spec_queue()
}

/// A fresh record for session `id`.
pub open spec fn fresh_session(id: String) -> SessionData {
    SessionData { id, nickname: None, board_id: None }
}

/// The session list once `id` is registered: a session with that identifier is replaced
/// by a fresh record, otherwise one is appended.
pub open spec fn registered(ss: Seq<SessionData>, id: String) -> Seq<SessionData> {
    if exists|i: int| #[trigger] session_at(ss, id@, i) {
        ss.update(choose|i: int| #[trigger] session_at(ss, id@, i), fresh_session(id))
    } else {
        ss.push(fresh_session(id))
    }
}

/// Effect of the connecting parameters `nickname` from session `id`.
pub open spec fn connecting_done(
    before: OthelloActor,
    after: OthelloActor,
    id: String,
    nickname: String,
    out: Seq<Outgoing>,
) -> bool {
    let ss = before.spec_sessions();
    &&& session_absent(ss, id@) ==> unchanged(before, after) && out.len() == 0
    &&& forall|i: int|
        #[trigger] session_at(ss, id@, i) ==> {
            &&& after.spec_sessions() == ss.update(
                i,
                SessionData { id: ss[i].id, nickname: Some(nickname), board_id: ss[i].board_id },
            )
            &&& after.spec_boards() == before.spec_boards()
            &&& after.spec_queue() == before.spec_queue()
            &&& out == seq![
                message(
                    id,
                    WsResponse::ConnectedParam(
                        WsConnectedParam { session_id: id, users_count: ss.len() as usize },
                    ),
                ),
            ]
        }
}

/// `out` tells session `o`, if it is among `ss`, that its opponent on board `b` left.
pub open spec fn notified(ss: Seq<SessionData>, o: String, b: String, out: Seq<Outgoing>) -> bool {
    &&& session_absent(ss, o@) ==> out.len() == 0
    &&& !session_absent(ss, o@) ==> out == seq![
        message(
            o,
            WsResponse::OpponentDisconnected(WsOpponentDisconnected { session_id: o, board_id: b }),
        ),
    ]
}

/// Effect of the disconnection of session `id`: its record is removed; if it was bound to
/// a board that still exists, that board is removed, with its entries in the waiting
/// queue, and the other occupant, if connected, is told with its own session id.
pub open spec fn disconnect_done(
    before: OthelloActor,
    after: OthelloActor,
    id: String,
    out: Seq<Outgoing>,
) -> bool {
    let ss = before.spec_sessions();
    let bs = before.spec_boards();
    &&& session_absent(ss, id@) ==> unchanged(before, after) && out.len() == 0
    &&& forall|i: int|
        #[trigger] session_at(ss, id@, i) ==> {
            let rest = ss.remove(i);
            &&& after.spec_sessions() == rest
            &&& match ss[i].board_id {
                None => after.spec_boards() == bs && after.spec_queue() == before.spec_queue()
                    && out.len() == 0,
                Some(b) => {
                    &&& board_absent(bs, b@) ==> after.spec_boards() == bs && after.spec_queue()
                        == before.spec_queue() && out.len() == 0
                    &&& forall|j: int|
                        #[trigger] board_at(bs, b@, j) ==> {
                            &&& after.spec_boards() == bs.remove(j)
                            &&& after.spec_queue() == without(before.spec_queue(), b@)
                            &&& bs[j].white@ == id@ ==> notified(rest, bs[j].black, b, out)
                            &&& bs[j].white@ != id@ && bs[j].black@ == id@ ==> notified(
                                rest,
                                bs[j].white,
                                b,
                                out,
                            )
                            &&& bs[j].white@ != id@ && bs[j].black@ != id@ ==> out.len() == 0
                        }
                },
            }
        }
}

/// An ASCII letter or digit.
pub open spec fn is_alphanumeric(c: char) -> bool {
    ('0' <= c && c <= '9') || ('A' <= c && c <= 'Z') || ('a' <= c && c <= 'z')
}

/// Relies on rand's `Alphanumeric` distribution, through `DistString::sample_string` with
/// the thread-local generator: a string of `len` characters, each an ASCII letter or digit.
#[verifier::external_body]
fn random_alphanumeric(len: usize) -> (r: String)
    ensures
        r@.len() == len,
        forall|i: int| 0 <= i < len ==> is_alphanumeric(#[trigger] r@[i]),
{
    rand::distributions::DistString::sample_string(
        &rand::distributions::Alphanumeric,
        &mut rand::thread_rng(),
        len,
    )
}

/// `bd` is a new board `id` with `black` as its Black player, no White player yet, and a
/// game on the opening position with Black to move.
pub open spec fn fresh_board(bd: BoardData, id: String, black: String) -> bool {
    &&& bd.id == id
    &&& bd.black == black
    &&& bd.white@ == Seq::<char>::empty()
    &&& bd.game.wf()
    &&& bd.game.cells() == initial_cells()
    &&& bd.game.player() == Cell::Black
    &&& !bd.game.over()
}

/// `ss` with session `i` bound to board `b`.
pub open spec fn bound_to(ss: Seq<SessionData>, i: int, b: String) -> Seq<SessionData> {
    ss.update(i, SessionData { id: ss[i].id, nickname: ss[i].nickname, board_id: Some(b) })
}

/// Effect of session `sid` asking to join a board; `new_id` names the board created when
/// none is waiting. Rejected, with nothing changed, when the session is unknown or has no
/// nickname yet, or when it is itself the Black player of the oldest waiting board. With
/// no board waiting a new one is created and queued, the session playing Black. Otherwise
/// the oldest waiting board leaves the queue and the session takes its White slot; the
/// Black player, if it has a nickname, is told the joiner's, and the joiner gets the Black
/// player's. A queue entry whose board is gone is dropped, and nothing else happens.
pub open spec fn join_done(
    before: OthelloActor,
    after: OthelloActor,
    sid: String,
    new_id: String,
    out: Seq<Outgoing>,
) -> bool {
    let ss = before.spec_sessions();
    let bs = before.spec_boards();
    let q = before.spec_queue();
    &&& session_absent(ss, sid@) ==> unchanged(before, after) && out.len() == 0
    &&& forall|i: int|
        #[trigger] session_at(ss, sid@, i) ==> {
            &&& ss[i].nickname is None ==> unchanged(before, after) && out.len() == 0
            &&& ss[i].nickname is Some && q.len() == 0 ==> {
                &&& after.spec_boards().len() == bs.len() + 1
                &&& after.spec_boards().drop_last() == bs
                &&& fresh_board(after.spec_boards().last(), new_id, sid)
                &&& after.spec_queue() == q.push(new_id)
                &&& after.spec_sessions() == bound_to(ss, i, new_id)
                &&& out == seq![
                    message(
                        sid,
                        WsResponse::JoinedBoard(
                            WsJoinedBoard {
                                session_id: sid,
                                board_id: new_id,
                                color: Color::Black,
                                opponent: None,
                            },
                        ),
                    ),
                ]
            }
            &&& ss[i].nickname is Some && q.len() > 0 && board_absent(bs, q[0]@) ==> {
                &&& after.spec_queue() == q.drop_first()
                &&& after.spec_sessions() == ss
                &&& after.spec_boards() == bs
                &&& out.len() == 0
            }
            &&& ss[i].nickname is Some && q.len() > 0 ==> forall|j: int|
                #[trigger] board_at(bs, q[0]@, j) ==> {
                    let black = bs[j].black;
                    let opponent = nickname_of(ss, black@);
                    let reply = message(
                        sid,
                        WsResponse::JoinedBoard(
                            WsJoinedBoard {
                                session_id: sid,
                                board_id: q[0],
                                color: Color::White,
                                opponent,
                            },
                        ),
                    );
                    let notice = message(
                        black,
                        WsResponse::OpponentJoinedBoard(
                            WsOpponentJoinedBoard {
                                session_id: black,
                                board_id: q[0],
                                opponent: ss[i].nickname->Some_0,
                            },
                        ),
                    );
                    &&& black@ == sid@ ==> unchanged(before, after) && out.len() == 0
                    &&& black@ != sid@ ==> {
                        &&& after.spec_queue() == q.drop_first()
                        &&& after.spec_boards() == bs.update(
                            j,
                            BoardData { id: bs[j].id, black, white: sid, game: bs[j].game },
                        )
                        &&& after.spec_sessions() == bound_to(ss, i, q[0])
                        &&& opponent is Some ==> out == seq![notice, reply]
                        &&& opponent is None ==> out == seq![reply]
                    }
                }
        }
}

/// The colour that session `sid` plays on `bd`: Black if it holds the Black slot, else
/// White if it holds the White slot, else `Empty`.
pub open spec fn seat_of(bd: BoardData, sid: Seq<char>) -> Cell {
    if bd.black@ == sid {
        Cell::Black
    } else if bd.white@ == sid {
        Cell::White
    } else {
        Cell::Empty
    }
}

/// The session opposite `sid` on `bd`.
pub open spec fn peer_of(bd: BoardData, sid: Seq<char>) -> String {
    if bd.black@ == sid {
        bd.white
    } else {
        bd.black
    }
}

/// The move of `p` is accepted on `bd`: the sender holds a slot, both slots are taken,
/// it is the sender's turn and the game accepts the move.
pub open spec fn play_accepted(bd: BoardData, p: WsPlayBoard) -> bool {
    let color = seat_of(bd, p.session_id@);
    &&& color != Cell::Empty
    &&& bd.black@.len() > 0
    &&& bd.white@.len() > 0
    &&& bd.game.player() == color
    &&& move_allowed(bd.game, p.pos.0 as int, p.pos.1 as int)
}

/// Effect of a move request: on an unknown board, or when the move is not accepted,
/// nothing changes and nothing is sent. Otherwise the board's game makes the move and the
/// other player, if connected, receives it; the mover gets no echo.
pub open spec fn play_done(before: OthelloActor, after: OthelloActor, p: WsPlayBoard, out: Seq<
    Outgoing,
>) -> bool {
    let bs = before.spec_boards();
    let ss = before.spec_sessions();
    &&& board_absent(bs, p.board_id@) ==> unchanged(before, after) && out.len() == 0
    &&& forall|j: int|
        #[trigger] board_at(bs, p.board_id@, j) ==> {
            let bd = bs[j];
            let peer = peer_of(bd, p.session_id@);
            let nb = after.spec_boards()[j];
            &&& !play_accepted(bd, p) ==> unchanged(before, after) && out.len() == 0
            &&& play_accepted(bd, p) ==> {
                &&& after.spec_sessions() == ss
                &&& after.spec_queue() == before.spec_queue()
                &&& after.spec_boards().len() == bs.len()
                &&& forall|k: int|
                    0 <= k < bs.len() && k != j ==> #[trigger] after.spec_boards()[k] == bs[k]
                &&& nb.id == bd.id && nb.black == bd.black && nb.white == bd.white
                &&& move_made(bd.game, nb.game, p.pos.0 as int, p.pos.1 as int)
                &&& session_absent(ss, peer@) ==> out.len() == 0
                &&& !session_absent(ss, peer@) ==> out == seq![
                    message(
                        peer,
                        WsResponse::PlayedBoard(
                            WsPlayedBoard { session_id: peer, board_id: p.board_id, pos: p.pos },
                        ),
                    ),
                ]
            }
        }
}

/// Effect of a game-over request: when the sender is known and bound to the named board,
/// and that board exists, the sender's slot is vacated; a board whose two slots are both
/// vacant is removed, with its queue entries. Otherwise nothing changes.
pub open spec fn left_done(before: OthelloActor, after: OthelloActor, p: WsGameOver) -> bool {
    let ss = before.spec_sessions();
    let bs = before.spec_boards();
    let q = before.spec_queue();
    let sid = p.session_id@;
    let b = p.board_id@;
    &&& session_absent(ss, sid) ==> unchanged(before, after)
    &&& forall|i: int|
        #[trigger] session_at(ss, sid, i) ==> {
            let bound = ss[i].board_id is Some && (ss[i].board_id->Some_0)@ == b;
            &&& !bound ==> unchanged(before, after)
            &&& bound && board_absent(bs, b) ==> unchanged(before, after)
            &&& bound ==> forall|j: int|
                #[trigger] board_at(bs, b, j) ==> {
                    let black = if bs[j].black@ == sid {
                        Seq::<char>::empty()
                    } else {
                        bs[j].black@
                    };
                    let white = if bs[j].black@ != sid && bs[j].white@ == sid {
                        Seq::<char>::empty()
                    } else {
                        bs[j].white@
                    };
                    let nb = after.spec_boards()[j];
                    &&& after.spec_sessions() == ss
                    &&& black.len() == 0 && white.len() == 0 ==> after.spec_boards() == bs.remove(
                        j,
                    ) && after.spec_queue() == without(q, b)
                    &&& !(black.len() == 0 && white.len() == 0) ==> {
                        &&& after.spec_queue() == q
                        &&& after.spec_boards().len() == bs.len()
                        &&& forall|k: int|
                            0 <= k < bs.len() && k != j ==> #[trigger] after.spec_boards()[k]
                                == bs[k]
                        &&& nb.id == bs[j].id && nb.black@ == black && nb.white@ == white
                            && nb.game == bs[j].game
                    }
                }
        }
}

impl OthelloActor {
    /// Every board's game is well formed.
    pub closed spec fn wf(self) -> bool {
        forall|j: int| 0 <= j < self.boards@.len() ==> (#[trigger] self.boards@[j]).game.wf()
    }

    /// The connected sessions.
    pub closed spec fn spec_sessions(self) -> Seq<SessionData> {
        self.sessions@
    }

    /// The boards.
    pub closed spec fn spec_boards(self) -> Seq<BoardData> {
        self.boards@
    }

    /// The waiting queue, oldest first.
    pub closed spec fn spec_queue(self) -> Seq<String> {
        self.boarding@
    }

    /// The connected sessions.
    pub fn sessions(&self) -> (r: &Vec<SessionData>)
        ensures
            r@ == self.spec_sessions(),
    {
        &self.sessions
    }

    /// The boards.
    pub fn boards(&self) -> (r: &Vec<BoardData>)
        ensures
            r@ == self.spec_boards(),
    {
        &self.boards
    }

    /// The boards waiting for a White player, oldest first.
    pub fn boarding(&self) -> (r: &Vec<String>)
        ensures
            r@ == self.spec_queue(),
    {
        &self.boarding
    }

    /// Index of the first session with identifier `id`.
    fn find_session(&self, id: &String) -> (r: Option<usize>)
        ensures
            match r {
                Some(i) => session_at(self.spec_sessions(), id@, i as int),
                None => session_absent(self.spec_sessions(), id@),
            },
    {
        let mut i: usize = 0;
        while i < self.sessions.len()
            invariant
                i <= self.sessions@.len(),
                forall|j: int| 0 <= j < i ==> self.sessions@[j].id@ != id@,
            decreases self.sessions@.len() - i,
        {
            if self.sessions[i].id == *id {
                return Some(i);
            }
            i = i + 1;
        }
        None
    }

    /// Index of the first board with identifier `id`.
    fn find_board(&self, id: &String) -> (r: Option<usize>)
        ensures
            match r {
                Some(i) => board_at(self.spec_boards(), id@, i as int),
                None => board_absent(self.spec_boards(), id@),
            },
    {
        let mut i: usize = 0;
        while i < self.boards.len()
            invariant
                i <= self.boards@.len(),
                forall|j: int| 0 <= j < i ==> self.boards@[j].id@ != id@,
            decreases self.boards@.len() - i,
        {
            if self.boards[i].id == *id {
                return Some(i);
            }
            i = i + 1;
        }
        None
    }

    /// Registers session `id` and returns its identifier.
    pub fn connect(&mut self, id: String) -> (r: String)
        requires
            old(self).wf(),
        ensures
            final(self).wf(),
            r == id,
            final(self).spec_sessions() == registered(old(self).spec_sessions(), id),
            final(self).spec_boards() == old(self).spec_boards(),
            final(self).spec_queue() == old(self).spec_queue(),
    {
        let record = SessionData { id: id.clone(), nickname: None, board_id: None };
        match self.find_session(&id) {
            Some(i) => {
                self.sessions.set(i, record);
            },
            None => {
                self.sessions.push(record);
            },
        }
        id
    }

    /// Binds `nickname` to session `id` and answers with the number of connected users.
    pub fn connecting(&mut self, id: &String, nickname: String) -> (r: Vec<Outgoing>)
        requires
            old(self).wf(),
        ensures
            final(self).wf(),
            connecting_done(*old(self), *final(self), *id, nickname, r@),
    {
        let mut out: Vec<Outgoing> = Vec::new();
        let users_count = self.sessions.len();
        match self.find_session(id) {
            None => {},
            Some(i) => {
                let record = SessionData {
                    id: self.sessions[i].id.clone(),
                    nickname: Some(nickname),
                    board_id: self.sessions[i].board_id.clone(),
                };
                self.sessions.set(i, record);
                out.push(
                    Outgoing {
                        dest: id.clone(),
                        response: WsResponse::ConnectedParam(
                            WsConnectedParam { session_id: id.clone(), users_count },
                        ),
                    },
                );
                proof {
                    assert forall|k: int| #[trigger]
                        session_at(old(self).spec_sessions(), id@, k) implies k == i by {}
                }
            },
        }
        out
    }

    /// Drops every entry `id` from the waiting queue, keeping the others in order.
    fn remove_waiting(&mut self, id: &String)
        ensures
            final(self).spec_queue() == without(old(self).spec_queue(), id@),
            final(self).spec_sessions() == old(self).spec_sessions(),
            final(self).spec_boards() == old(self).spec_boards(),
    {
        let mut kept: Vec<String> = Vec::new();
        let mut k: usize = 0;
        while k < self.boarding.len()
            invariant
                k <= self.boarding@.len(),
                kept@ == without(self.boarding@.subrange(0, k as int), id@),
            decreases self.boarding@.len() - k,
        {
            assert(self.boarding@.subrange(0, k + 1).drop_last() == self.boarding@.subrange(
                0,
                k as int,
            ));
            if !(self.boarding[k] == *id) {
                kept.push(self.boarding[k].clone());
            }
            k = k + 1;
        }
        assert(self.boarding@.subrange(0, self.boarding@.len() as int) == self.boarding@);
        self.boarding = kept;
    }

    /// Handles the disconnection of session `id`: the session is retired; the board it was
    /// bound to, if it still exists, is removed with its queue entries, and the other
    /// occupant, if connected, receives `OpponentDisconnected` naming its own session.
    pub fn disconnect(&mut self, id: &String) -> (r: Vec<Outgoing>)
        requires
            old(self).wf(),
        ensures
            final(self).wf(),
            disconnect_done(*old(self), *final(self), *id, r@),
    {
        let mut out: Vec<Outgoing> = Vec::new();
        let i = match self.find_session(id) {
            None => {
                return out;
            },
            Some(i) => i,
        };
        proof {
            assert forall|k: int| #[trigger]
                session_at(old(self).spec_sessions(), id@, k) implies k == i by {}
        }
        let record = self.sessions.remove(i);
        match record.board_id {
            None => {},
            Some(b) => {
                match self.find_board(&b) {
                    None => {},
                    Some(j) => {
                        proof {
                            assert forall|k: int| #[trigger]
                                board_at(old(self).spec_boards(), b@, k) implies k == j by {}
                        }
                        let brd = self.boards.remove(j);
                        self.remove_waiting(&b);
                        let other: Option<String> = if brd.white == *id {
                            Some(brd.black)
                        } else if brd.black == *id {
                            Some(brd.white)
                        } else {
                            None
                        };
                        match other {
                            Some(o) => {
                                if self.find_session(&o).is_some() {
                                    out.push(
                                        Outgoing {
                                            dest: o.clone(),
                                            response: WsResponse::OpponentDisconnected(
                                                WsOpponentDisconnected { session_id: o, board_id: b },
                                            ),
                                        },
                                    );
                                }
                            },
                            None => {},
                        }
                    },
                }
            },
        }
        out
    }

    /// Handles a request of session `session_id` to join a board; `new_board_id` names
    /// the board created when none is waiting.
    pub fn join_board(&mut self, session_id: &String, new_board_id: String) -> (r: Vec<Outgoing>)
        requires
            old(self).wf(),
        ensures
            final(self).wf(),
            join_done(*old(self), *final(self), *session_id, new_board_id, r@),
    {
        let mut out: Vec<Outgoing> = Vec::new();
        let i = match self.find_session(session_id) {
            None => {
                return out;
            },
            Some(i) => i,
        };
        proof {
            assert forall|k: int| #[trigger]
                session_at(old(self).spec_sessions(), session_id@, k) implies k == i by {}
        }
        let nick: String = match &self.sessions[i].nickname {
            None => {
                return out;
            },
            Some(n) => n.clone(),
        };
        if self.boarding.len() == 0 {
            let board = BoardData {
                id: new_board_id.clone(),
                black: session_id.clone(),
                white: String::new(),
                game: GameSession::new(),
            };
            self.boards.push(board);
            self.boarding.push(new_board_id.clone());
            let record = SessionData {
                id: self.sessions[i].id.clone(),
                nickname: Some(nick),
                board_id: Some(new_board_id.clone()),
            };
            self.sessions.set(i, record);
            out.push(
                Outgoing {
                    dest: session_id.clone(),
                    response: WsResponse::JoinedBoard(
                        WsJoinedBoard {
                            session_id: session_id.clone(),
                            board_id: new_board_id,
                            color: Color::Black,
                            opponent: None,
                        },
                    ),
                },
            );
            proof {
                assert(self.boards@.drop_last() =~= old(self).spec_boards());
                assert forall|j: int| 0 <= j < self.boards@.len() implies (
                #[trigger] self.boards@[j]).game.wf() by {
                    if j < old(self).spec_boards().len() {
                        assert(self.boards@[j] == old(self).spec_boards()[j]);
                    }
                }
            }
            return out;
        }
        let front = self.boarding[0].clone();
        let j = match self.find_board(&front) {
            None => {
                self.boarding.remove(0);
                proof {
                    assert(self.boarding@ =~= old(self).spec_queue().drop_first());
                }
                return out;
            },
            Some(j) => j,
        };
        proof {
            assert forall|k: int| #[trigger]
                board_at(old(self).spec_boards(), front@, k) implies k == j by {}
        }
        if self.boards[j].black == *session_id {
            return out;
        }
        self.boarding.remove(0);
        let black_id = self.boards[j].black.clone();
        let opponent: Option<String> = match self.find_session(&black_id) {
            Some(k) => {
                proof {
                    let ss = old(self).spec_sessions();
                    assert(session_at(ss, black_id@, k as int));
                    let m = choose|m: int| #[trigger] session_at(ss, black_id@, m);
                    lemma_session_at_unique(ss, black_id@, m, k as int);
                }
                self.sessions[k].nickname.clone()
            },
            None => None,
        };
        assert(opponent == nickname_of(old(self).spec_sessions(), black_id@));
        let old_board = self.boards.remove(j);
        let updated = BoardData {
            id: old_board.id,
            black: old_board.black,
            white: session_id.clone(),
            game: old_board.game,
        };
        self.boards.insert(j, updated);
        let record = SessionData {
            id: self.sessions[i].id.clone(),
            nickname: Some(nick.clone()),
            board_id: Some(front.clone()),
        };
        self.sessions.set(i, record);
        match &opponent {
            Some(_) => {
                out.push(
                    Outgoing {
                        dest: black_id.clone(),
                        response: WsResponse::OpponentJoinedBoard(
                            WsOpponentJoinedBoard {
                                session_id: black_id.clone(),
                                board_id: front.clone(),
                                opponent: nick,
                            },
                        ),
                    },
                );
            },
            None => {},
        }
        out.push(
            Outgoing {
                dest: session_id.clone(),
                response: WsResponse::JoinedBoard(
                    WsJoinedBoard {
                        session_id: session_id.clone(),
                        board_id: front,
                        color: Color::White,
                        opponent,
                    },
                ),
            },
        );
        proof {
            let ss = old(self).spec_sessions();
            let q = old(self).spec_queue();
            assert(nick == ss[i as int].nickname->Some_0);
            assert(black_id == old(self).spec_boards()[j as int].black);
            assert(front == q[0]);
            assert(self.sessions@ =~= bound_to(ss, i as int, q[0]));
            assert(self.boarding@ =~= old(self).spec_queue().drop_first());
            assert(self.boards@ =~= old(self).spec_boards().update(j as int, self.boards@[j as int]));
            assert forall|m: int| 0 <= m < self.boards@.len() implies (
            #[trigger] self.boards@[m]).game.wf() by {
                assert(old(self).spec_boards()[m].game.wf());
            }
            let black = old(self).spec_boards()[j as int].black;
            let reply = message(
                *session_id,
                WsResponse::JoinedBoard(
                    WsJoinedBoard {
                        session_id: *session_id,
                        board_id: q[0],
                        color: Color::White,
                        opponent: nickname_of(ss, black@),
                    },
                ),
            );
            let notice = message(
                black,
                WsResponse::OpponentJoinedBoard(
                    WsOpponentJoinedBoard {
                        session_id: black,
                        board_id: q[0],
                        opponent: ss[i as int].nickname->Some_0,
                    },
                ),
            );
            if opponent is Some {
                assert(out@ =~= seq![notice, reply]);
            } else {
                assert(out@ =~= seq![reply]);
            }
            assert(board_at(old(self).spec_boards(), q[0]@, j as int));
        }
        out
    }

    /// Handles a move request: the board's game checks it against the sender's seat and
    /// turn; an accepted move is relayed to the other player only.
    pub fn play_board(&mut self, p: &WsPlayBoard) -> (r: Vec<Outgoing>)
        requires
            old(self).wf(),
        ensures
            final(self).wf(),
            play_done(*old(self), *final(self), *p, r@),
    {
        let mut out: Vec<Outgoing> = Vec::new();
        let j = match self.find_board(&p.board_id) {
            None => {
                return out;
            },
            Some(j) => j,
        };
        proof {
            assert forall|k: int| #[trigger]
                board_at(old(self).spec_boards(), p.board_id@, k) implies k == j by {}
            assert(self.boards@[j as int].game.wf());
        }
        let color = if self.boards[j].black == p.session_id {
            Cell::Black
        } else if self.boards[j].white == p.session_id {
            Cell::White
        } else {
            return out;
        };
        if self.boards[j].black.as_str().is_empty() || self.boards[j].white.as_str().is_empty() {
            return out;
        }
        if self.boards[j].game.current_player() != color {
            return out;
        }
        let mut bd = self.boards.remove(j);
        let ghost before = bd;
        match bd.game.apply_move(p.pos.0, p.pos.1) {
            Err(()) => {
                self.boards.insert(j, bd);
                proof {
                    assert(self.boards@ =~= old(self).spec_boards());
                }
                return out;
            },
            Ok(()) => {},
        }
        let peer = if bd.black == p.session_id {
            bd.white.clone()
        } else {
            bd.black.clone()
        };
        self.boards.insert(j, bd);
        proof {
            assert(peer == peer_of(before, p.session_id@));
            assert forall|m: int| 0 <= m < self.boards@.len() implies (
            #[trigger] self.boards@[m]).game.wf() by {
                if m != j {
                    assert(self.boards@[m] == old(self).spec_boards()[m]);
                }
            }
        }
        match self.find_session(&peer) {
            Some(_) => {
                out.push(
                    Outgoing {
                        dest: peer.clone(),
                        response: WsResponse::PlayedBoard(
                            WsPlayedBoard {
                                session_id: peer,
                                board_id: p.board_id.clone(),
                                pos: p.pos,
                            },
                        ),
                    },
                );
                proof {
                    let ss = old(self).spec_sessions();
                    assert(!session_absent(ss, peer_of(before, p.session_id@)@));
                }
            },
            None => {},
        }
        out
    }

    /// Handles a game-over request: the sender leaves the board it is bound to; once both
    /// slots are vacant the board and its queue entries are removed.
    pub fn game_over(&mut self, p: &WsGameOver)
        requires
            old(self).wf(),
        ensures
            final(self).wf(),
            left_done(*old(self), *final(self), *p),
    {
        let i = match self.find_session(&p.session_id) {
            None => {
                return;
            },
            Some(i) => i,
        };
        proof {
            assert forall|k: int| #[trigger]
                session_at(old(self).spec_sessions(), p.session_id@, k) implies k == i by {}
        }
        let bound = match &self.sessions[i].board_id {
            Some(b) => *b == p.board_id,
            None => false,
        };
        if !bound {
            return;
        }
        let j = match self.find_board(&p.board_id) {
            None => {
                return;
            },
            Some(j) => j,
        };
        proof {
            assert forall|k: int| #[trigger]
                board_at(old(self).spec_boards(), p.board_id@, k) implies k == j by {}
        }
        let mut bd = self.boards.remove(j);
        if bd.black == p.session_id {
            bd.black = String::new();
        } else if bd.white == p.session_id {
            bd.white = String::new();
        }
        if bd.black.as_str().is_empty() && bd.white.as_str().is_empty() {
            self.remove_waiting(&p.board_id);
            proof {
                assert forall|m: int| 0 <= m < self.boards@.len() implies (
                #[trigger] self.boards@[m]).game.wf() by {
                    if m < j {
                        assert(self.boards@[m] == old(self).spec_boards()[m]);
                    } else {
                        assert(self.boards@[m] == old(self).spec_boards()[m + 1]);
                    }
                }
            }
        } else {
            self.boards.insert(j, bd);
            proof {
                assert forall|m: int| 0 <= m < self.boards@.len() implies (
                #[trigger] self.boards@[m]).game.wf() by {
                    if m != j {
                        assert(self.boards@[m] == old(self).spec_boards()[m]);
                    }
                }
            }
        }
    }

    /// Registers a new session under a fresh random identifier of 40 letters and digits,
    /// and returns that identifier.
    pub fn connect_new_session(&mut self) -> (r: String)
        requires
            old(self).wf(),
        ensures
            final(self).wf(),
            r@.len() == 40,
            forall|i: int| 0 <= i < 40 ==> is_alphanumeric(#[trigger] r@[i]),
            final(self).spec_sessions() == registered(old(self).spec_sessions(), r),
            final(self).spec_boards() == old(self).spec_boards(),
            final(self).spec_queue() == old(self).spec_queue(),
    {
        let id = random_alphanumeric(40);
        self.connect(id)
    }

    /// Handles a request that arrived on the connection of session `msg.id`. A board
    /// created by a join is named by 12 random letters and digits.
    pub fn handle(&mut self, msg: ClientMessage) -> (r: Vec<Outgoing>)
        requires
            old(self).wf(),
        ensures
            final(self).wf(),
            match msg.request {
                WsRequest::ConnectingParam(p) => connecting_done(
                    *old(self),
                    *final(self),
                    msg.id,
                    p.nickname,
                    r@,
                ),
                WsRequest::JoinBoard(p) => exists|b: String|
                    {
                        &&& #[trigger] join_done(*old(self), *final(self), p.session_id, b, r@)
                        &&& old(self).spec_queue().len() == 0 ==> b@.len() == 12 && forall|i: int|
                            0 <= i < 12 ==> is_alphanumeric(#[trigger] b@[i])
                    },
                WsRequest::PlayBoard(p) => play_done(*old(self), *final(self), p, r@),
                WsRequest::GameOver(p) => left_done(*old(self), *final(self), p) && r@.len() == 0,
            },
    {
        match msg.request {
            WsRequest::ConnectingParam(p) => self.connecting(&msg.id, p.nickname),
            WsRequest::JoinBoard(p) => {
                let b = if self.boarding.len() == 0 {
                    random_alphanumeric(12)
                } else {
                    String::new()
                };
                self.join_board(&p.session_id, b)
            },
            WsRequest::PlayBoard(p) => self.play_board(&p),
            WsRequest::GameOver(p) => {
                self.game_over(&p);
                Vec::new()
            },
        }
    }
}

impl Default for OthelloActor {
    /// A broker with no sessions and no boards.
    fn default() -> (r: Self)
        ensures
            r.wf(),
            r.spec_sessions().len() == 0,
            r.spec_boards().len() == 0,
            r.spec_queue().len() == 0,
    {
        OthelloActor { sessions: Vec::new(), boards: Vec::new(), boarding: Vec::new() }
    }
}

} // verus!
