use othello::server::{ClientMessage, Outgoing, OthelloActor};
use othello::wscommand::{
    Color, WsConnectedParam, WsConnectingParam, WsGameOver, WsJoinBoard, WsJoinedBoard,
    WsOpponentDisconnected, WsOpponentJoinedBoard, WsPlayBoard, WsPlayedBoard, WsRequest,
    WsResponse,
};

fn s(text: &str) -> String {
    text.to_string()
}

fn joined(actor: &mut OthelloActor, id: &str, nick: &str) {
    actor.connect(s(id));
    actor.connecting(&s(id), s(nick));
}

#[test]
fn connecting_answers_with_users_count() {
    let mut actor = OthelloActor::default();
    actor.connect(s("s1"));
    actor.connect(s("s2"));
    let out = actor.connecting(&s("s1"), s("alice"));
    assert_eq!(
        out,
        vec![Outgoing {
            dest: s("s1"),
            response: WsResponse::ConnectedParam(WsConnectedParam {
                session_id: s("s1"),
                users_count: 2,
            }),
        }]
    );
    assert_eq!(actor.sessions()[0].nickname, Some(s("alice")));
    assert!(actor.connecting(&s("nobody"), s("x")).is_empty());
}

#[test]
fn connect_new_session_makes_random_ids() {
    let mut actor = OthelloActor::default();
    let a = actor.connect_new_session();
    let b = actor.connect_new_session();
    assert_eq!(a.chars().count(), 40);
    assert!(a.chars().all(|c| c.is_ascii_alphanumeric()));
    assert_ne!(a, b);
    assert_eq!(actor.sessions().len(), 2);
}

#[test]
fn matchmaking_is_first_in_first_out() {
    let mut actor = OthelloActor::default();
    joined(&mut actor, "s1", "n1");
    joined(&mut actor, "s2", "n2");
    joined(&mut actor, "s3", "n3");

    let out1 = actor.join_board(&s("s1"), s("b1"));
    assert_eq!(
        out1,
        vec![Outgoing {
            dest: s("s1"),
            response: WsResponse::JoinedBoard(WsJoinedBoard {
                session_id: s("s1"),
                board_id: s("b1"),
                color: Color::Black,
                opponent: None,
            }),
        }]
    );
    assert_eq!(actor.boarding(), &vec![s("b1")]);

    let out2 = actor.join_board(&s("s2"), s("b2"));
    assert_eq!(
        out2,
        vec![
            Outgoing {
                dest: s("s1"),
                response: WsResponse::OpponentJoinedBoard(WsOpponentJoinedBoard {
                    session_id: s("s1"),
                    board_id: s("b1"),
                    opponent: s("n2"),
                }),
            },
            Outgoing {
                dest: s("s2"),
                response: WsResponse::JoinedBoard(WsJoinedBoard {
                    session_id: s("s2"),
                    board_id: s("b1"),
                    color: Color::White,
                    opponent: Some(s("n1")),
                }),
            },
        ]
    );
    assert!(actor.boarding().is_empty());
    assert_eq!(actor.boards()[0].white, s("s2"));

    let out3 = actor.join_board(&s("s3"), s("b3"));
    assert_eq!(
        out3,
        vec![Outgoing {
            dest: s("s3"),
            response: WsResponse::JoinedBoard(WsJoinedBoard {
                session_id: s("s3"),
                board_id: s("b3"),
                color: Color::Black,
                opponent: None,
            }),
        }]
    );
    assert_eq!(actor.boarding(), &vec![s("b3")]);
    assert_eq!(actor.boards().len(), 2);
}

#[test]
fn join_is_rejected_without_nickname_or_for_self_pairing() {
    let mut actor = OthelloActor::default();
    actor.connect(s("s1"));
    assert!(actor.join_board(&s("s1"), s("b1")).is_empty());
    assert!(actor.boards().is_empty());
    actor.connecting(&s("s1"), s("n1"));
    assert_eq!(actor.join_board(&s("s1"), s("b1")).len(), 1);
    assert!(actor.join_board(&s("s1"), s("b2")).is_empty());
    assert_eq!(actor.boarding(), &vec![s("b1")]);
    assert!(actor.join_board(&s("ghost"), s("b3")).is_empty());
}

#[test]
fn disconnect_removes_board_and_notifies_peer_once() {
    let mut actor = OthelloActor::default();
    joined(&mut actor, "s1", "n1");
    joined(&mut actor, "s2", "n2");
    actor.join_board(&s("s1"), s("b1"));
    actor.join_board(&s("s2"), s("b2"));
    let out = actor.disconnect(&s("s2"));
    assert_eq!(
        out,
        vec![Outgoing {
            dest: s("s1"),
            response: WsResponse::OpponentDisconnected(WsOpponentDisconnected {
                session_id: s("s1"),
                board_id: s("b1"),
            }),
        }]
    );
    assert!(actor.boards().is_empty());
    assert!(actor.boarding().is_empty());
    assert_eq!(actor.sessions().len(), 1);
    assert!(actor.disconnect(&s("s2")).is_empty());
}

#[test]
fn disconnect_of_waiting_player_clears_queue() {
    let mut actor = OthelloActor::default();
    joined(&mut actor, "s1", "n1");
    actor.join_board(&s("s1"), s("b1"));
    assert!(actor.disconnect(&s("s1")).is_empty());
    assert!(actor.boards().is_empty());
    assert!(actor.boarding().is_empty());
    assert!(actor.sessions().is_empty());
}

#[test]
fn moves_are_relayed_to_the_peer_only() {
    let mut actor = OthelloActor::default();
    joined(&mut actor, "s1", "n1");
    joined(&mut actor, "s2", "n2");
    actor.join_board(&s("s1"), s("b1"));
    actor.join_board(&s("s2"), s("b2"));
    // White may not open.
    let early = WsPlayBoard { session_id: s("s2"), board_id: s("b1"), pos: (4, 2) };
    assert!(actor.play_board(&early).is_empty());
    let play = WsPlayBoard { session_id: s("s1"), board_id: s("b1"), pos: (2, 3) };
    let out = actor.play_board(&play);
    assert_eq!(
        out,
        vec![Outgoing {
            dest: s("s2"),
            response: WsResponse::PlayedBoard(WsPlayedBoard {
                session_id: s("s2"),
                board_id: s("b1"),
                pos: (2, 3),
            }),
        }]
    );
    assert_eq!(actor.boards()[0].game.score(), (4, 1));
    // The same move again is no longer legal.
    assert!(actor.play_board(&play).is_empty());
    let stranger = WsPlayBoard { session_id: s("s9"), board_id: s("b1"), pos: (2, 2) };
    assert!(actor.play_board(&stranger).is_empty());
    let unknown = WsPlayBoard { session_id: s("s2"), board_id: s("zz"), pos: (2, 2) };
    assert!(actor.play_board(&unknown).is_empty());
}

#[test]
fn play_on_unpaired_board_is_rejected() {
    let mut actor = OthelloActor::default();
    joined(&mut actor, "s1", "n1");
    actor.join_board(&s("s1"), s("b1"));
    let play = WsPlayBoard { session_id: s("s1"), board_id: s("b1"), pos: (2, 3) };
    assert!(actor.play_board(&play).is_empty());
    assert_eq!(actor.boards()[0].game.score(), (2, 2));
}

#[test]
fn board_removed_once_both_players_leave() {
    let mut actor = OthelloActor::default();
    joined(&mut actor, "s1", "n1");
    joined(&mut actor, "s2", "n2");
    actor.join_board(&s("s1"), s("b1"));
    actor.join_board(&s("s2"), s("b2"));
    actor.game_over(&WsGameOver { session_id: s("s1"), board_id: s("b1"), score: (4, 1) });
    assert_eq!(actor.boards().len(), 1);
    assert_eq!(actor.boards()[0].black, s(""));
    assert_eq!(actor.boards()[0].white, s("s2"));
    // A request naming another board is ignored.
    actor.game_over(&WsGameOver { session_id: s("s2"), board_id: s("b9"), score: (4, 1) });
    assert_eq!(actor.boards().len(), 1);
    actor.game_over(&WsGameOver { session_id: s("s2"), board_id: s("b1"), score: (4, 1) });
    assert!(actor.boards().is_empty());
}

#[test]
fn handle_dispatches_requests() {
    let mut actor = OthelloActor::default();
    let id = actor.connect_new_session();
    let out = actor.handle(ClientMessage {
        id: id.clone(),
        request: WsRequest::ConnectingParam(WsConnectingParam { nickname: s("alice") }),
    });
    assert_eq!(out.len(), 1);
    let out = actor.handle(ClientMessage {
        id: id.clone(),
        request: WsRequest::JoinBoard(WsJoinBoard { session_id: id.clone() }),
    });
    assert_eq!(out.len(), 1);
    let board_id = match &out[0].response {
        WsResponse::JoinedBoard(j) => {
            assert_eq!(j.color, Color::Black);
            j.board_id.clone()
        }
        _ => panic!("expected a joined board"),
    };
    assert_eq!(board_id.chars().count(), 12);
    assert!(board_id.chars().all(|c| c.is_ascii_alphanumeric()));
    assert_eq!(actor.boarding(), &vec![board_id.clone()]);
    let out = actor.handle(ClientMessage {
        id: id.clone(),
        request: WsRequest::GameOver(WsGameOver {
            session_id: id.clone(),
            board_id: board_id.clone(),
            score: (2, 2),
        }),
    });
    assert!(out.is_empty());
    assert!(actor.boards().is_empty());
    assert!(actor.boarding().is_empty());
}
