use othello::board::{Board, BoardModel, Cell};


#[test]
fn model_test_possibilities_diag() {
    let board = BoardModel::from_string(
        r#"
        . . . . . . . .
        . W . . . . W .
        . . B . . B . .
        . . . . . . . .
        . . . . . . . .
        . . B . . B . .
        . W . . . . W .
        . . . . . . . .
        "#,
    );

    let empty: Vec<usize> = vec![];
    for i in 0..64 {
        let mut collected: Vec<usize> = vec![];
        let mut pos =
            board.get_possibilities_collect_pos(Cell::Black, Some(i), &mut collected);
        pos.sort();
        assert_eq!(pos, vec![0, 7, 56, 63]);
        collected.sort();
        match i {
            0 => assert_eq!(collected, vec![0, 9]),
            7 => assert_eq!(collected, vec![7, 14]),
            56 => assert_eq!(collected, vec![49, 56]),
            63 => assert_eq!(collected, vec![54, 63]),
            _ => {
                assert_eq!(collected, empty);
            }
        }
    }
}

#[test]
fn model_test_possibilities_horizontal_vertical() {
    let board = BoardModel::from_string(
        r#"
        . . . . . . . .
        . . W . . W . .
        . W B . . B W .
        . . . . . . . .
        . . . . . . . .
        . W B . . B W .
        . . W . . W . .
        . . . . . . . .
        "#,
    );

    let empty: Vec<usize> = vec![];
    for i in 0..64 {
        let mut collected: Vec<usize> = vec![];
        let mut pos =
            board.get_possibilities_collect_pos(Cell::Black, Some(i), &mut collected);
        pos.sort();
        assert_eq!(pos, vec![2, 5, 16, 23, 40, 47, 58, 61]);
        collected.sort();
        match i {
            2 => assert_eq!(collected, vec![2, 10]),
            5 => assert_eq!(collected, vec![5, 13]),
            16 => assert_eq!(collected, vec![16, 17]),
            23 => assert_eq!(collected, vec![22, 23]),
            40 => assert_eq!(collected, vec![40, 41]),
            47 => assert_eq!(collected, vec![46, 47]),
            58 => assert_eq!(collected, vec![50, 58]),
            61 => assert_eq!(collected, vec![53, 61]),
            _ => {
                assert_eq!(collected, empty);
            }
        }
    }
}

#[test]
fn model_test_possibilities_diag_splitted() {
    let board = BoardModel::from_string(
        r#"
        B . . . . . . .
        . W . . . . . .
        . . B . . . . .
        . . . W . . . .
        . . . . W . . .
        . . . . . W . .
        . . . . . . W .
        . . . . . . . .
        "#,
    );

    let empty: Vec<usize> = vec![];
    for i in 0..64 {
        let mut collected: Vec<usize> = vec![];
        let pos =
            board.get_possibilities_collect_pos(Cell::Black, Some(i), &mut collected);
        assert_eq!(pos, vec![63]);
        collected.sort();
        match i {
            63 => assert_eq!(collected, vec![27, 36, 45, 54, 63]),
            _ => {
                assert_eq!(collected, empty);
            }
        }
    }
}

#[test]
fn model_test_possibilities_diag_splitted2() {
    let board = BoardModel::from_string(
        r#"
        . . . . . . . .
        . W . . . . . .
        . . W . . . . .
        . . . B . . . .
        . . . . B . . .
        . . . . . W . .
        . . . . . . B .
        . . . . . . . .
        "#,
    );

    let empty: Vec<usize> = vec![];
    for i in 0..64 {
        let mut collected: Vec<usize> = vec![];
        let pos =
            board.get_possibilities_collect_pos(Cell::Black, Some(i), &mut collected);
        assert_eq!(pos, vec![0]);
        collected.sort();
        match i {
            0 => assert_eq!(collected, vec![0, 9, 18]),
            _ => {
                assert_eq!(collected, empty);
            }
        }
    }
}

#[test]
fn model_test_possibilities_diag_splitted3() {
    let board = BoardModel::from_string(
        r#"
        . . . . . . . .
        . . . . . . W .
        . . . . . B . .
        . . . . W . . .
        . . . W . . . .
        . . W . . . . .
        . B . . . . . .
        . . . . . . . .
        "#,
    );

    let empty: Vec<usize> = vec![];
    for i in 0..64 {
        let mut collected: Vec<usize> = vec![];
        let pos =
            board.get_possibilities_collect_pos(Cell::Black, Some(i), &mut collected);
        assert_eq!(pos, vec![7]);
        collected.sort();
        match i {
            7 => assert_eq!(collected, vec![7, 14]),
            _ => {
                assert_eq!(collected, empty);
            }
        }
    }
}

#[test]
fn model_test_possibilities_many_directions() {
    let board = BoardModel::from_string(
        r#"
        . . B . . . . .
        . . W . . . . .
        B W . W W W W B
        . . W W . . . .
        . . W . W . . .
        . . W . . W . .
        . . W . . . W .
        . . B . . . . W
        "#,
    );

    let empty: Vec<usize> = vec![];
    for i in 0..64 {
        let mut collected: Vec<usize> = vec![];
        let mut pos =
            board.get_possibilities_collect_pos(Cell::Black, Some(i), &mut collected);
        pos.sort();
        assert_eq!(pos, vec![18]);
        collected.sort();
        match i {
            18 => assert_eq!(collected, vec![10, 17, 18, 19, 20, 21, 22, 26, 34, 42, 50]),
            _ => {
                assert_eq!(collected, empty);
            }
        }
    }
}

#[test]
fn test_score() {
    let board = BoardModel::from_string(
        r#"
        W B B B B B B B
        W W W B B B B B
        B W W W W W W B
        B W W W B B B B
        B W W W W W W W
        B W W W B W B B
        B W W W B B W W
        B W B B B B B W
        "#,
    );
    let score = board.score();
    assert_eq!(score, (33, 31))
}

#[test]
fn test_overflow() {
    let board = BoardModel::from_string(
        r#"
        . . . . . . . .
        . . . . . . . .
        . . . . . . . .
        . . . B W . . .
        . . B W B . . .
        . . W . . . . .
        B W B . . . . .
        W . . . . . . .
        "#,
    );

    let empty: Vec<usize> = vec![];
    for i in 0..64 {
        let mut collected: Vec<usize> = vec![];
        let mut pos =
            board.get_possibilities_collect_pos(Cell::White, Some(i), &mut collected);
        pos.sort();
        assert_eq!(pos, vec![19, 26, 33, 37, 40, 44, 51, 58]);
        collected.sort();
        match i {
            19 => {
                assert_eq!(collected, vec![19, 27]);
            }
            26 => {
                assert_eq!(collected, vec![26, 27, 34]);
            }
            33 => {
                assert_eq!(collected, vec![33, 34]);
            }
            37 => {
                assert_eq!(collected, vec![36, 37]);
            }
            40 => {
                assert_eq!(collected, vec![40, 48]);
            }
            44 => {
                assert_eq!(collected, vec![36, 44]);
            }
            51 => {
                assert_eq!(collected, vec![50, 51]);
            }
            58 => {
                assert_eq!(collected, vec![50, 58]);
            }
            _ => {
                assert_eq!(collected, empty);
            }
        }
    }
}

#[test]
fn board_test_possibilities_diag() {
    let board = Board::from_string(
        r#"
        . . . . . . . .
        . W . . . . W .
        . . B . . B . .
        . . . . . . . .
        . . . . . . . .
        . . B . . B . .
        . W . . . . W .
        . . . . . . . .
        "#,
    );

    let empty: Vec<usize> = vec![];
    for i in 0..64 {
        let mut collected: Vec<usize> = vec![];
        let mut pos =
            board.get_possibilities_collect_pos(Cell::Black, Some(i), &mut collected);
        pos.sort();
        assert_eq!(pos, vec![0, 7, 56, 63]);
        collected.sort();
        match i {
            0 => assert_eq!(collected, vec![0, 9]),
            7 => assert_eq!(collected, vec![7, 14]),
            56 => assert_eq!(collected, vec![49, 56]),
            63 => assert_eq!(collected, vec![54, 63]),
            _ => {
                assert_eq!(collected, empty);
            }
        }
    }
}

#[test]
fn board_test_possibilities_horizontal_vertical() {
    let board = Board::from_string(
        r#"
        . . . . . . . .
        . . W . . W . .
        . W B . . B W .
        . . . . . . . .
        . . . . . . . .
        . W B . . B W .
        . . W . . W . .
        . . . . . . . .
        "#,
    );

    let empty: Vec<usize> = vec![];
    for i in 0..64 {
        let mut collected: Vec<usize> = vec![];
        let mut pos =
            board.get_possibilities_collect_pos(Cell::Black, Some(i), &mut collected);
        pos.sort();
        assert_eq!(pos, vec![2, 5, 16, 23, 40, 47, 58, 61]);
        collected.sort();
        match i {
            2 => assert_eq!(collected, vec![2, 10]),
            5 => assert_eq!(collected, vec![5, 13]),
            16 => assert_eq!(collected, vec![16, 17]),
            23 => assert_eq!(collected, vec![22, 23]),
            40 => assert_eq!(collected, vec![40, 41]),
            47 => assert_eq!(collected, vec![46, 47]),
            58 => assert_eq!(collected, vec![50, 58]),
            61 => assert_eq!(collected, vec![53, 61]),
            _ => {
                assert_eq!(collected, empty);
            }
        }
    }
}

#[test]
fn board_test_possibilities_diag_splitted() {
    let board = Board::from_string(
        r#"
        B . . . . . . .
        . W . . . . . .
        . . B . . . . .
        . . . W . . . .
        . . . . W . . .
        . . . . . W . .
        . . . . . . W .
        . . . . . . . .
        "#,
    );

    let empty: Vec<usize> = vec![];
    for i in 0..64 {
        let mut collected: Vec<usize> = vec![];
        let pos =
            board.get_possibilities_collect_pos(Cell::Black, Some(i), &mut collected);
        assert_eq!(pos, vec![63]);
        collected.sort();
        match i {
            63 => assert_eq!(collected, vec![27, 36, 45, 54, 63]),
            _ => {
                assert_eq!(collected, empty);
            }
        }
    }
}

#[test]
fn board_test_possibilities_diag_splitted2() {
    let board = Board::from_string(
        r#"
        . . . . . . . .
        . W . . . . . .
        . . W . . . . .
        . . . B . . . .
        . . . . B . . .
        . . . . . W . .
        . . . . . . B .
        . . . . . . . .
        "#,
    );

    let empty: Vec<usize> = vec![];
    for i in 0..64 {
        let mut collected: Vec<usize> = vec![];
        let pos =
            board.get_possibilities_collect_pos(Cell::Black, Some(i), &mut collected);
        assert_eq!(pos, vec![0]);
        collected.sort();
        match i {
            0 => assert_eq!(collected, vec![0, 9, 18]),
            _ => {
                assert_eq!(collected, empty);
            }
        }
    }
}

#[test]
fn board_test_possibilities_diag_splitted3() {
    let board = Board::from_string(
        r#"
        . . . . . . . .
        . . . . . . W .
        . . . . . B . .
        . . . . W . . .
        . . . W . . . .
        . . W . . . . .
        . B . . . . . .
        . . . . . . . .
        "#,
    );

    let empty: Vec<usize> = vec![];
    for i in 0..64 {
        let mut collected: Vec<usize> = vec![];
        let pos =
            board.get_possibilities_collect_pos(Cell::Black, Some(i), &mut collected);
        assert_eq!(pos, vec![7]);
        collected.sort();
        match i {
            7 => assert_eq!(collected, vec![7, 14]),
            _ => {
                assert_eq!(collected, empty);
            }
        }
    }
}

#[test]
fn board_test_possibilities_many_directions() {
    let board = Board::from_string(
        r#"
        . . B . . . . .
        . . W . . . . .
        B W . W W W W B
        . . W W . . . .
        . . W . W . . .
        . . W . . W . .
        . . W . . . W .
        . . B . . . . W
        "#,
    );

    let empty: Vec<usize> = vec![];
    for i in 0..64 {
        let mut collected: Vec<usize> = vec![];
        let mut pos =
            board.get_possibilities_collect_pos(Cell::Black, Some(i), &mut collected);
        pos.sort();
        assert_eq!(pos, vec![18]);
        collected.sort();
        match i {
            18 => assert_eq!(collected, vec![10, 17, 18, 19, 20, 21, 22, 26, 34, 42, 50]),
            _ => {
                assert_eq!(collected, empty);
            }
        }
    }
}
