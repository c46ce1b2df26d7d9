use oni_slide::board::{BoardState, RoomState};
use oni_slide::parse::generate_board_from_string;

#[test]
fn test_generate_board_from_string() {
    let board = generate_board_from_string(
        3,
        r"
            x.o
            o.x
            .xo
        ",
    )
    .unwrap();

    assert_eq!(
        board,
        BoardState {
            n: 3,
            board: vec![
                vec![RoomState::Oni, RoomState::Vacant, RoomState::Fuku],
                vec![RoomState::Fuku, RoomState::Vacant, RoomState::Oni],
                vec![RoomState::Vacant, RoomState::Oni, RoomState::Fuku],
            ],
            num_oni: 3,
            num_fuku: 3,
        }
    );
}

#[test]
fn test_generate_board_from_string_4x4() {
    let board = generate_board_from_string(
        4,
        r"
            x.ox
            o.x.
            .xo.
            o.x.
        ",
    )
    .unwrap();

    assert_eq!(
        board,
        BoardState {
            n: 4,
            board: vec![
                vec![
                    RoomState::Oni,
                    RoomState::Vacant,
                    RoomState::Fuku,
                    RoomState::Oni
                ],
                vec![
                    RoomState::Fuku,
                    RoomState::Vacant,
                    RoomState::Oni,
                    RoomState::Vacant
                ],
                vec![
                    RoomState::Vacant,
                    RoomState::Oni,
                    RoomState::Fuku,
                    RoomState::Vacant
                ],
                vec![
                    RoomState::Fuku,
                    RoomState::Vacant,
                    RoomState::Oni,
                    RoomState::Vacant
                ],
            ],
            num_oni: 5,
            num_fuku: 4,
        }
    );
}

#[test]
fn rejects_an_unknown_character() {
    assert!(generate_board_from_string(2, "x.\n.z").is_none());
}

#[test]
fn rejects_a_short_row() {
    assert!(generate_board_from_string(3, "x.o\no.\n.xo").is_none());
}

#[test]
fn rejects_a_long_row() {
    assert!(generate_board_from_string(2, "x.o\n..").is_none());
}

#[test]
fn rejects_too_few_rows() {
    assert!(generate_board_from_string(3, "x.o\no.x").is_none());
}

#[test]
fn rejects_too_many_rows() {
    assert!(generate_board_from_string(2, "x.\n.o\n..").is_none());
}

#[test]
fn accepts_mixed_whitespace_between_rows() {
    let board = generate_board_from_string(2, "\t x. \r\n .o \n").unwrap();
    assert_eq!(board.n, 2);
    assert_eq!(board.num_oni, 1);
    assert_eq!(board.num_fuku, 1);
    assert_eq!(
        board.board,
        vec![
            vec![RoomState::Oni, RoomState::Vacant],
            vec![RoomState::Vacant, RoomState::Fuku],
        ]
    );
}
