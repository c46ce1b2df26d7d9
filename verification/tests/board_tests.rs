use oni_slide::board::{BoardState, Direction, Operation, RoomState};

fn sample_board() -> BoardState {
    BoardState {
        n: 3,
        board: vec![
            vec![RoomState::Oni, RoomState::Vacant, RoomState::Fuku],
            vec![RoomState::Fuku, RoomState::Vacant, RoomState::Oni],
            vec![RoomState::Vacant, RoomState::Oni, RoomState::Fuku],
        ],
        num_oni: 3,
        num_fuku: 3,
    }
}

fn recount(board: &BoardState, kind: RoomState) -> usize {
    let mut count = 0;
    for row in &board.board {
        for cell in row {
            if *cell == kind {
                count += 1;
            }
        }
    }
    count
}

#[test]
fn test_apply_operation_left() {
    let mut board_state = sample_board();

    board_state.apply(&Operation { dir: Direction::Left, index: 0 });

    assert_eq!(
        board_state.board,
        vec![
            vec![RoomState::Vacant, RoomState::Fuku, RoomState::Vacant],
            vec![RoomState::Fuku, RoomState::Vacant, RoomState::Oni],
            vec![RoomState::Vacant, RoomState::Oni, RoomState::Fuku],
        ]
    );
    assert_eq!(board_state.num_oni, 2);
    assert_eq!(board_state.num_fuku, 3);
}

#[test]
fn test_apply_operation_right() {
    let mut board_state = sample_board();

    board_state.apply(&Operation { dir: Direction::Right, index: 0 });

    assert_eq!(
        board_state.board,
        vec![
            vec![RoomState::Vacant, RoomState::Oni, RoomState::Vacant],
            vec![RoomState::Fuku, RoomState::Vacant, RoomState::Oni],
            vec![RoomState::Vacant, RoomState::Oni, RoomState::Fuku],
        ]
    );
    assert_eq!(board_state.num_oni, 3);
    assert_eq!(board_state.num_fuku, 2);
}

#[test]
fn test_apply_operation_up() {
    let mut board_state = sample_board();

    board_state.apply(&Operation { dir: Direction::Up, index: 0 });

    assert_eq!(
        board_state.board,
        vec![
            vec![RoomState::Fuku, RoomState::Vacant, RoomState::Fuku],
            vec![RoomState::Vacant, RoomState::Vacant, RoomState::Oni],
            vec![RoomState::Vacant, RoomState::Oni, RoomState::Fuku],
        ]
    );
    assert_eq!(board_state.num_oni, 2);
    assert_eq!(board_state.num_fuku, 3);
}

#[test]
fn test_apply_operation_down() {
    let mut board_state = sample_board();

    board_state.apply(&Operation { dir: Direction::Down, index: 2 });

    assert_eq!(
        board_state.board,
        vec![
            vec![RoomState::Oni, RoomState::Vacant, RoomState::Vacant],
            vec![RoomState::Fuku, RoomState::Vacant, RoomState::Fuku],
            vec![RoomState::Vacant, RoomState::Oni, RoomState::Oni],
        ]
    );
    assert_eq!(board_state.num_oni, 3);
    assert_eq!(board_state.num_fuku, 2);
}

#[test]
fn counts_stay_true_to_grid_after_any_applies() {
    let mut board_state = sample_board();
    let moves = [
        Operation { dir: Direction::Left, index: 1 },
        Operation { dir: Direction::Down, index: 0 },
        Operation { dir: Direction::Right, index: 2 },
        Operation { dir: Direction::Up, index: 1 },
        Operation { dir: Direction::Left, index: 0 },
    ];
    for op in &moves {
        board_state.apply(op);
        assert_eq!(board_state.num_oni, recount(&board_state, RoomState::Oni));
        assert_eq!(board_state.num_fuku, recount(&board_state, RoomState::Fuku));
    }
}

#[test]
fn apply_touches_only_the_named_line() {
    let mut board_state = sample_board();
    let before = board_state.board.clone();
    board_state.apply(&Operation { dir: Direction::Left, index: 1 });
    assert_eq!(board_state.board[0], before[0]);
    assert_eq!(board_state.board[2], before[2]);

    let mut board_state = sample_board();
    let before = board_state.board.clone();
    board_state.apply(&Operation { dir: Direction::Down, index: 1 });
    for i in 0..3 {
        assert_eq!(board_state.board[i][0], before[i][0]);
        assert_eq!(board_state.board[i][2], before[i][2]);
    }
}

#[test]
fn left_eject_of_leading_blocker_shifts_row() {
    let mut board_state = sample_board();
    board_state.apply(&Operation { dir: Direction::Left, index: 0 });
    assert_eq!(
        board_state.board[0],
        vec![RoomState::Vacant, RoomState::Fuku, RoomState::Vacant]
    );
    assert_eq!(board_state.num_oni, 2);
}

#[test]
fn apply_to_vacant_line_is_a_shift_of_empties() {
    let mut board_state = BoardState {
        n: 2,
        board: vec![
            vec![RoomState::Vacant, RoomState::Vacant],
            vec![RoomState::Oni, RoomState::Fuku],
        ],
        num_oni: 1,
        num_fuku: 1,
    };
    board_state.apply(&Operation { dir: Direction::Left, index: 0 });
    assert_eq!(board_state.board[0], vec![RoomState::Vacant, RoomState::Vacant]);
    assert_eq!(board_state.num_oni, 1);
    assert_eq!(board_state.num_fuku, 1);
}

#[test]
fn query_fuku_in_row_and_col() {
    let board_state = sample_board();
    assert!(board_state.exists_fuku_in_row(0, 0, 3));
    assert!(!board_state.exists_fuku_in_row(0, 0, 2));
    assert!(board_state.exists_fuku_in_col(0, 0, 3));
    assert!(!board_state.exists_fuku_in_col(1, 0, 3));
    assert!(!board_state.exists_fuku_in_row(1, 1, 1));
}

#[test]
fn surrounded_blocker_is_reported() {
    let open_board = sample_board();
    assert!(!open_board.exists_oni_around_all_fuku());

    let closed_board = BoardState {
        n: 3,
        board: vec![
            vec![RoomState::Vacant, RoomState::Fuku, RoomState::Vacant],
            vec![RoomState::Fuku, RoomState::Oni, RoomState::Fuku],
            vec![RoomState::Vacant, RoomState::Fuku, RoomState::Vacant],
        ],
        num_oni: 1,
        num_fuku: 4,
    };
    assert!(closed_board.exists_oni_around_all_fuku());
}

#[test]
fn duplicate_is_an_independent_copy() {
    let original = sample_board();
    let mut copy = original.duplicate();
    copy.apply(&Operation { dir: Direction::Left, index: 0 });
    assert_eq!(original, sample_board());
    assert_ne!(copy, original);
}

#[test]
fn direction_symbols() {
    assert_eq!(Direction::Left.symbol(), 'L');
    assert_eq!(Direction::Right.symbol(), 'R');
    assert_eq!(Direction::Up.symbol(), 'U');
    assert_eq!(Direction::Down.symbol(), 'D');
}
