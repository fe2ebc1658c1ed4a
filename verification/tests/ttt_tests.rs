use gridgames::grid::Mark;
use gridgames::ttt::Board;
use gridgames::DecodeError;
use gridgames::GameStatus;

fn board_from(encoding: &str) -> Board {
    Board::from(encoding).expect("encoding should decode")
}

fn cells(b: &Board) -> Vec<Option<Mark>> {
    let mut v = Vec::new();
    for r in 0..3 {
        for c in 0..3 {
            v.push(b.cell(r, c));
        }
    }
    v
}

#[test]
fn ttt_empty_board_encodes_to_eight_spaces() {
    let b = Board::new();
    assert_eq!(b.encode(), "        ");
}

#[test]
fn ttt_encode_after_one_move() {
    let mut b = Board::new();
    b.make_move(0, 0, Mark::X).unwrap();
    assert_eq!(b.encode(), "X        ");
    let mut b2 = Board::new();
    b2.make_move(2, 2, Mark::O).unwrap();
    assert_eq!(b2.encode(), "        O");
}

#[test]
fn ttt_empty_string_decodes_to_empty_board() {
    let b = board_from("");
    assert!(cells(&b).iter().all(|c| c.is_none()));
}

#[test]
fn ttt_round_trip_board() {
    let mut b = Board::new();
    b.make_move(0, 0, Mark::X).unwrap();
    b.make_move(1, 1, Mark::O).unwrap();
    b.make_move(2, 0, Mark::X).unwrap();
    let again = board_from(&b.encode());
    assert_eq!(cells(&b), cells(&again));
}

#[test]
fn ttt_round_trip_string() {
    let s = "X O X X O O O X ";
    let b = board_from(s);
    assert_eq!(b.encode(), s);
}

#[test]
fn ttt_decode_rejects_bad_letter() {
    assert!(matches!(Board::from("Z        "), Err(DecodeError::Malformed)));
}

#[test]
fn ttt_decode_rejects_wrong_cell_count() {
    assert!(matches!(Board::from("X X"), Err(DecodeError::Malformed)));
    assert!(matches!(Board::from("         "), Err(DecodeError::Malformed)));
}

#[test]
fn ttt_decode_rejects_two_letters_in_one_cell() {
    assert!(matches!(Board::from("XX       "), Err(DecodeError::Malformed)));
}

#[test]
fn ttt_top_row_of_x_wins() {
    let mut b = Board::new();
    b.make_move(0, 0, Mark::X).unwrap();
    b.make_move(0, 1, Mark::X).unwrap();
    b.make_move(0, 2, Mark::X).unwrap();
    assert_eq!(b.has_win(), Some(Mark::X));
    assert_eq!(b.get_state(), GameStatus::Win);
}

#[test]
fn ttt_column_and_diagonal_win() {
    let mut col = Board::new();
    col.make_move(0, 1, Mark::O).unwrap();
    col.make_move(1, 1, Mark::O).unwrap();
    col.make_move(2, 1, Mark::O).unwrap();
    assert_eq!(col.get_state(), GameStatus::Loss);

    let mut diag = Board::new();
    diag.make_move(0, 0, Mark::X).unwrap();
    diag.make_move(1, 1, Mark::X).unwrap();
    diag.make_move(2, 2, Mark::X).unwrap();
    assert_eq!(diag.get_state(), GameStatus::Win);

    let mut anti = Board::new();
    anti.make_move(0, 2, Mark::X).unwrap();
    anti.make_move(1, 1, Mark::X).unwrap();
    anti.make_move(2, 0, Mark::X).unwrap();
    assert_eq!(anti.get_state(), GameStatus::Win);
}

#[test]
fn ttt_full_board_without_line_is_draw() {
    let b = board_from("X O X X O O O X X");
    assert_eq!(b.has_win(), None);
    assert!(b.is_full());
    assert_eq!(b.get_state(), GameStatus::Draw);
}

#[test]
fn ttt_two_marks_do_not_win() {
    let mut b = Board::new();
    b.make_move(0, 0, Mark::X).unwrap();
    b.make_move(0, 1, Mark::X).unwrap();
    assert_eq!(b.has_win(), None);
    assert_eq!(b.get_state(), GameStatus::InProgress);
}

#[test]
fn ttt_move_on_taken_cell_is_rejected() {
    let mut b = Board::new();
    b.make_move(1, 1, Mark::X).unwrap();
    assert!(b.make_move(1, 1, Mark::O).is_err());
    assert_eq!(b.cell(1, 1), Some(Mark::X));
}

#[test]
fn ttt_move_off_the_board_is_rejected() {
    let mut b = Board::new();
    assert!(b.make_move(3, 0, Mark::X).is_err());
    assert!(b.make_move(0, 3, Mark::X).is_err());
    assert!(cells(&b).iter().all(|c| c.is_none()));
}

#[test]
fn ttt_empty_cells_lists_each_free_cell_once_in_row_major_order() {
    let b = board_from("X O    O   ");
    assert_eq!(b.empty_cells(), vec![(0, 2), (1, 0), (1, 1), (2, 0), (2, 1), (2, 2)]);
}

#[test]
fn ttt_opponent_takes_the_only_free_cell() {
    // one free cell at (2, 2), no line anywhere, game in progress
    let mut b = board_from("X O X X O O O X ");
    assert_eq!(b.get_state(), GameStatus::InProgress);
    b.opponent_move();
    assert_eq!(b.cell(2, 2), Some(Mark::O));
}

#[test]
fn ttt_opponent_never_takes_a_taken_cell() {
    let mut b = board_from("X        ");
    let before = cells(&b);
    b.opponent_move();
    let after = cells(&b);
    let mut added = 0;
    for k in 0..9 {
        if before[k] != after[k] {
            assert_eq!(before[k], None);
            assert_eq!(after[k], Some(Mark::O));
            added += 1;
        }
    }
    assert_eq!(added, 1);
}

#[test]
fn ttt_play_on_fresh_board_makes_no_engine_move() {
    let (b, st) = gridgames::ttt::play("").unwrap();
    assert!(cells(&b).iter().all(|c| c.is_none()));
    assert_eq!(st, GameStatus::InProgress);

    let (b2, st2) = gridgames::ttt::play("        ").unwrap();
    assert!(cells(&b2).iter().all(|c| c.is_none()));
    assert_eq!(st2, GameStatus::InProgress);
}

#[test]
fn ttt_play_answers_an_open_position() {
    let (b, _st) = gridgames::ttt::play("X        ").unwrap();
    let after = cells(&b);
    assert_eq!(after[0], Some(Mark::X));
    let o_count = after.iter().filter(|c| **c == Some(Mark::O)).count();
    assert_eq!(o_count, 1);
}

#[test]
fn ttt_play_short_circuits_after_human_win() {
    // the human already completed the top row: no engine move may follow
    let s = "X X X O O    ";
    let b0 = board_from(s);
    assert_eq!(b0.get_state(), GameStatus::Win);
    let (b, st) = gridgames::ttt::play(s).unwrap();
    assert_eq!(st, GameStatus::Win);
    assert_eq!(cells(&b), cells(&b0));
    assert_eq!(b.encode(), s);
}

#[test]
fn ttt_play_rejects_garbage() {
    assert!(gridgames::ttt::play("not a board").is_err());
}

#[test]
fn ttt_move_encodings_cover_exactly_the_free_cells() {
    let b = board_from("X O       ");
    let states = b.move_encodings();
    assert_eq!(states.len(), 9);
    assert!(states[0].is_none());
    assert!(states[1].is_none());
    for k in 2..9 {
        let s = states[k].as_ref().expect("free cell should offer a move");
        let nb = board_from(s);
        assert_eq!(nb.cell(k / 3, k % 3), Some(Mark::X));
        assert_eq!(nb.cell(0, 0), Some(Mark::X));
        assert_eq!(nb.cell(0, 1), Some(Mark::O));
    }
}
