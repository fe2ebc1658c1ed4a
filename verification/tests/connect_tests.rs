use gridgames::connect::Board;
use gridgames::grid::Mark;
use gridgames::DecodeError;
use gridgames::GameStatus;

fn board_from(encoding: &str) -> Board {
    Board::from(encoding).expect("encoding should decode")
}

fn cells(b: &Board) -> Vec<Option<Mark>> {
    let mut v = Vec::new();
    for r in 0..5 {
        for c in 0..7 {
            v.push(b.cell(r, c));
        }
    }
    v
}

const EMPTY_ENCODING: &str = "      .      .      .      .      ";

#[test]
fn connect_empty_board_encoding() {
    let b = Board::new();
    assert_eq!(b.encode(), EMPTY_ENCODING);
}

#[test]
fn connect_empty_string_decodes_to_empty_board() {
    let b = board_from("");
    assert!(cells(&b).iter().all(|c| c.is_none()));
}

#[test]
fn connect_chips_stack_bottom_up() {
    let mut b = Board::new();
    for step in 0..5 {
        b.make_move(3, Mark::X).unwrap();
        assert_eq!(b.cell(4 - step, 3), Some(Mark::X));
    }
    for r in 0..5 {
        assert_eq!(b.cell(r, 3), Some(Mark::X));
    }
}

#[test]
fn connect_moves_on_a_full_column_are_rejected() {
    let mut b = Board::new();
    for _ in 0..5 {
        b.make_move(2, Mark::X).unwrap();
    }
    let before = cells(&b);
    assert!(b.make_move(2, Mark::O).is_err());
    assert!(b.make_move(2, Mark::X).is_err());
    assert_eq!(cells(&b), before);
}

#[test]
fn connect_move_off_the_board_is_rejected() {
    let mut b = Board::new();
    assert!(b.make_move(7, Mark::X).is_err());
    assert!(cells(&b).iter().all(|c| c.is_none()));
}

#[test]
fn connect_round_trip_board() {
    let mut b = Board::new();
    b.make_move(0, Mark::X).unwrap();
    b.make_move(0, Mark::O).unwrap();
    b.make_move(6, Mark::X).unwrap();
    b.make_move(3, Mark::O).unwrap();
    let again = board_from(&b.encode());
    assert_eq!(cells(&b), cells(&again));
}

#[test]
fn connect_round_trip_string() {
    let s = "      .      .      .      .X O     ";
    let b = board_from(s);
    assert_eq!(b.encode(), s);
}

#[test]
fn connect_decode_rejects_bad_shapes() {
    assert!(matches!(Board::from("X"), Err(DecodeError::Malformed)));
    assert!(matches!(Board::from("       .      .      .      .      "), Err(DecodeError::Malformed)));
    assert!(matches!(Board::from("      .      .      .      .      ."), Err(DecodeError::Malformed)));
    assert!(matches!(Board::from("      ,      .      .      .      "), Err(DecodeError::Malformed)));
}

#[test]
fn connect_horizontal_run_of_four_wins() {
    let mut b = Board::new();
    for col in 0..4 {
        b.make_move(col, Mark::X).unwrap();
    }
    assert_eq!(b.has_win(), Some(Mark::X));
    assert_eq!(b.get_state(), GameStatus::Win);
}

#[test]
fn connect_vertical_run_of_four_wins() {
    let mut b = Board::new();
    for _ in 0..4 {
        b.make_move(5, Mark::O).unwrap();
    }
    assert_eq!(b.has_win(), Some(Mark::O));
    assert_eq!(b.get_state(), GameStatus::Loss);
}

#[test]
fn connect_rising_diagonal_wins() {
    let mut b = Board::new();
    // X at (4,1), (3,2), (2,3), (1,4) with O chips underneath
    b.make_move(1, Mark::X).unwrap();
    b.make_move(2, Mark::O).unwrap();
    b.make_move(2, Mark::X).unwrap();
    b.make_move(3, Mark::O).unwrap();
    b.make_move(3, Mark::O).unwrap();
    b.make_move(3, Mark::X).unwrap();
    b.make_move(4, Mark::O).unwrap();
    b.make_move(4, Mark::O).unwrap();
    b.make_move(4, Mark::O).unwrap();
    b.make_move(4, Mark::X).unwrap();
    assert_eq!(b.has_win(), Some(Mark::X));
}

#[test]
fn connect_falling_diagonal_wins() {
    let mut b = Board::new();
    // X at (1,1), (2,2), (3,3), (4,4) with O chips underneath
    b.make_move(1, Mark::O).unwrap();
    b.make_move(1, Mark::O).unwrap();
    b.make_move(1, Mark::O).unwrap();
    b.make_move(1, Mark::X).unwrap();
    b.make_move(2, Mark::O).unwrap();
    b.make_move(2, Mark::O).unwrap();
    b.make_move(2, Mark::X).unwrap();
    b.make_move(3, Mark::O).unwrap();
    b.make_move(3, Mark::X).unwrap();
    b.make_move(4, Mark::X).unwrap();
    assert_eq!(b.has_win(), Some(Mark::X));
}

#[test]
fn connect_three_in_a_row_does_not_win() {
    let mut b = Board::new();
    for col in 0..3 {
        b.make_move(col, Mark::X).unwrap();
    }
    assert_eq!(b.has_win(), None);
    assert_eq!(b.get_state(), GameStatus::InProgress);
}

#[test]
fn connect_open_columns_lists_each_open_column_once_left_to_right() {
    let mut b = Board::new();
    for _ in 0..5 {
        b.make_move(1, Mark::X).unwrap();
    }
    for _ in 0..5 {
        b.make_move(4, Mark::O).unwrap();
    }
    assert_eq!(b.open_columns(), vec![0, 2, 3, 5, 6]);
}

#[test]
fn connect_opponent_uses_the_only_open_column() {
    let mut b = Board::new();
    // fill columns 0..6 completely, alternating marks so nobody wins
    for col in 0..6 {
        let (a, z) = if col % 2 == 0 {
            (Mark::X, Mark::O)
        } else {
            (Mark::O, Mark::X)
        };
        b.make_move(col, a).unwrap();
        b.make_move(col, a).unwrap();
        b.make_move(col, z).unwrap();
        b.make_move(col, z).unwrap();
        b.make_move(col, a).unwrap();
    }
    assert_eq!(b.has_win(), None);
    assert!(!b.is_full());
    b.opponent_move();
    assert_eq!(b.cell(4, 6), Some(Mark::O));
}

#[test]
fn connect_play_on_fresh_request_makes_no_engine_move() {
    let (b, st) = gridgames::connect::play("").unwrap();
    assert!(cells(&b).iter().all(|c| c.is_none()));
    assert_eq!(st, GameStatus::InProgress);
}

#[test]
fn connect_play_answers_an_open_position() {
    let mut b0 = Board::new();
    b0.make_move(3, Mark::X).unwrap();
    let (b, _st) = gridgames::connect::play(&b0.encode()).unwrap();
    let after = cells(&b);
    let o_count = after.iter().filter(|c| **c == Some(Mark::O)).count();
    assert_eq!(o_count, 1);
    assert_eq!(b.cell(4, 3), Some(Mark::X));
}

#[test]
fn connect_play_short_circuits_after_human_win() {
    let mut b0 = Board::new();
    for col in 0..3 {
        b0.make_move(col, Mark::X).unwrap();
        b0.make_move(col, Mark::O).unwrap();
    }
    b0.make_move(3, Mark::X).unwrap();
    assert_eq!(b0.get_state(), GameStatus::Win);
    let s = b0.encode();
    let (b, st) = gridgames::connect::play(&s).unwrap();
    assert_eq!(st, GameStatus::Win);
    assert_eq!(b.encode(), s);
}

#[test]
fn connect_play_rejects_garbage() {
    assert!(gridgames::connect::play("definitely not a board").is_err());
}

#[test]
fn connect_move_encodings_cover_exactly_the_open_columns() {
    let mut b = Board::new();
    for _ in 0..5 {
        b.make_move(0, Mark::X).unwrap();
    }
    let states = b.move_encodings();
    assert_eq!(states.len(), 7);
    assert!(states[0].is_none());
    for col in 1..7 {
        let s = states[col].as_ref().expect("open column should offer a move");
        let nb = board_from(s);
        assert_eq!(nb.cell(4, col), Some(Mark::X));
    }
}
