use oni_slide::board::{Direction, Operation, RoomState};
use oni_slide::driver::{find_oni, solve};
use oni_slide::parse::generate_board_from_string;
use oni_slide::planner::{fall_oni_and_reset, get_rev_dir};

fn board_text_with_single_blocker(n: usize) -> String {
    let mut text = String::new();
    for i in 0..n {
        for j in 0..n {
            if i == 0 && j == 0 {
                text.push('x');
            } else {
                text.push('.');
            }
        }
        text.push('\n');
    }
    text
}

#[test]
fn rev_dir_is_the_opposite() {
    assert_eq!(get_rev_dir(Direction::Left), Direction::Right);
    assert_eq!(get_rev_dir(Direction::Right), Direction::Left);
    assert_eq!(get_rev_dir(Direction::Up), Direction::Down);
    assert_eq!(get_rev_dir(Direction::Down), Direction::Up);
}

#[test]
fn find_oni_scans_row_major() {
    let board = generate_board_from_string(3, "..o\n.x.\nx..").unwrap();
    assert_eq!(find_oni(&board), (1, 1));

    let board = generate_board_from_string(3, "..x\n.x.\nx..").unwrap();
    assert_eq!(find_oni(&board), (0, 2));
}

#[test]
fn single_blocker_on_empty_board_costs_one_left_slide() {
    let text = board_text_with_single_blocker(20);
    let mut board = generate_board_from_string(20, &text).unwrap();

    let ops = fall_oni_and_reset(0, 0, &board).unwrap();
    assert_eq!(ops, vec![Operation { dir: Direction::Left, index: 0 }]);

    let all_moves = solve(&mut board).unwrap();
    assert_eq!(all_moves, vec![Operation { dir: Direction::Left, index: 0 }]);
    assert_eq!(board.num_oni, 0);
}

#[test]
fn planner_picks_cheapest_safe_direction() {
    // The blocker sits next to the right edge with nothing in the way.
    let board = generate_board_from_string(3, "..x\n...\n...").unwrap();
    let ops = fall_oni_and_reset(0, 2, &board).unwrap();
    assert_eq!(ops, vec![Operation { dir: Direction::Right, index: 0 }]);

    // A protected token blocks the cheap left exit; up costs 1.
    let board = generate_board_from_string(3, "ox.\n...\n...").unwrap();
    let ops = fall_oni_and_reset(0, 1, &board).unwrap();
    assert_eq!(ops, vec![Operation { dir: Direction::Up, index: 1 }]);
}

#[test]
fn planner_reports_no_safe_direction() {
    let board = generate_board_from_string(3, ".o.\noxo\n.o.").unwrap();
    assert!(fall_oni_and_reset(1, 1, &board).is_none());

    let mut board = generate_board_from_string(3, ".o.\noxo\n.o.").unwrap();
    assert!(solve(&mut board).is_none());
}

#[test]
fn planner_compensates_when_a_slide_locks_a_blocker() {
    // Ejecting the corner blocker to the left moves a protected token
    // over the middle blocker, locking it; the planner undoes the slide.
    let mut board = generate_board_from_string(3, "x.o\noxo\n.o.").unwrap();
    let ops = fall_oni_and_reset(0, 0, &board).unwrap();
    assert_eq!(
        ops,
        vec![
            Operation { dir: Direction::Left, index: 0 },
            Operation { dir: Direction::Right, index: 0 },
        ]
    );

    let all_moves = solve(&mut board).unwrap();
    assert_eq!(
        all_moves,
        vec![
            Operation { dir: Direction::Left, index: 0 },
            Operation { dir: Direction::Right, index: 0 },
            Operation { dir: Direction::Up, index: 1 },
            Operation { dir: Direction::Up, index: 1 },
        ]
    );
    assert_eq!(board.num_oni, 0);
    assert_eq!(board.num_fuku, 4);
}

#[test]
fn solver_never_ejects_a_protected_token() {
    let mut board = generate_board_from_string(4, "x.ox\no.x.\n.xo.\no.x.").unwrap();
    let fuku_before = board.num_fuku;
    let moves = solve(&mut board).unwrap();
    assert!(!moves.is_empty());
    assert_eq!(board.num_oni, 0);
    assert_eq!(board.num_fuku, fuku_before);
}

#[test]
fn solver_output_is_deterministic() {
    let text = "x.ox\no.x.\n.xo.\no.x.";
    let mut first = generate_board_from_string(4, text).unwrap();
    let mut second = generate_board_from_string(4, text).unwrap();
    let first_moves = solve(&mut first).unwrap();
    let second_moves = solve(&mut second).unwrap();
    assert_eq!(first_moves, second_moves);

    let render = |moves: &Vec<Operation>| -> String {
        let mut out = String::new();
        for op in moves {
            out.push(op.dir.symbol());
            out.push(' ');
            out.push_str(&op.index.to_string());
            out.push('\n');
        }
        out
    };
    assert_eq!(render(&first_moves), render(&second_moves));
}

#[test]
fn solved_board_holds_no_blocker() {
    let mut board = generate_board_from_string(3, "x.o\no.x\n.xo").unwrap();
    let moves = solve(&mut board).unwrap();
    assert_eq!(board.num_oni, 0);
    for row in &board.board {
        for cell in row {
            assert_ne!(*cell, RoomState::Oni);
        }
    }
    assert!(!moves.is_empty());
}
