use gridgames::battleship::{
    battleship_turn, check_terminal, count_hits, create_battleship_game, fire, parse_coord,
    shot_budget, Tile,
};
use gridgames::DecodeError;
use gridgames::GameStatus;

fn water_board(rows: usize, cols: usize) -> Vec<Vec<Tile>> {
    let mut b = Vec::new();
    for _ in 0..rows {
        let mut row = Vec::new();
        for _ in 0..cols {
            row.push(Tile::Untried);
        }
        b.push(row);
    }
    b
}

#[test]
fn battleship_budget_for_the_served_board_is_21() {
    assert_eq!(shot_budget(5, 7), 21);
}

#[test]
fn battleship_budget_rounds_up() {
    assert_eq!(shot_budget(1, 1), 1);
    assert_eq!(shot_budget(2, 5), 6);
    assert_eq!(shot_budget(10, 10), 60);
}

#[test]
fn battleship_created_board_shape_and_contents() {
    let b = create_battleship_game(5, 7, &[2, 3, 4]);
    assert_eq!(b.len(), 5);
    for row in &b {
        assert_eq!(row.len(), 7);
        for t in row {
            assert!(*t == Tile::Untried || *t == Tile::Ship);
        }
    }
    let ships: usize = b
        .iter()
        .map(|row| row.iter().filter(|t| **t == Tile::Ship).count())
        .sum();
    assert!(ships <= 9);
    assert_eq!(count_hits(&b, 5, 7), 0);
}

#[test]
fn battleship_fleet_is_made_of_whole_ships() {
    // each requested ship is fully placed or wholly absent, ships never
    // overlap, and the first ship always finds room: the ship-tile count
    // is a sum of a subset of {2, 3, 4} that contains 2
    let b = create_battleship_game(5, 7, &[2, 3, 4]);
    let ships: usize = b
        .iter()
        .map(|row| row.iter().filter(|t| **t == Tile::Ship).count())
        .sum();
    assert!(ships == 2 || ships == 5 || ships == 6 || ships == 9);

    // every ship tile belongs to a hull of length at least two, so it has
    // an orthogonal ship neighbour
    for i in 0..5i32 {
        for j in 0..7i32 {
            if b[i as usize][j as usize] == Tile::Ship {
                let mut has_neighbour = false;
                for (di, dj) in [(0, 1), (0, -1), (1, 0), (-1, 0)] {
                    let (ni, nj) = (i + di, j + dj);
                    if (0..5).contains(&ni) && (0..7).contains(&nj) {
                        has_neighbour |= b[ni as usize][nj as usize] == Tile::Ship;
                    }
                }
                assert!(has_neighbour);
            }
        }
    }
}

#[test]
fn battleship_fire_reveals_and_is_idempotent() {
    let mut b = water_board(5, 7);
    b[2][3] = Tile::Ship;
    fire(&mut b, 2, 3);
    assert_eq!(b[2][3], Tile::Hit);
    fire(&mut b, 2, 3);
    assert_eq!(b[2][3], Tile::Hit);

    fire(&mut b, 0, 0);
    assert_eq!(b[0][0], Tile::Miss);
    fire(&mut b, 0, 0);
    assert_eq!(b[0][0], Tile::Miss);

    assert_eq!(count_hits(&b, 5, 7), 1);
}

#[test]
fn battleship_terminal_prefers_the_win() {
    let mut b = water_board(5, 7);
    b[0][0] = Tile::Hit;
    // every ship tile hit: a win even when the budget has just run out
    assert_eq!(check_terminal(&b, 5, 7, 0, 1), GameStatus::Win);
    assert_eq!(check_terminal(&b, 5, 7, 20, 1), GameStatus::Win);
    assert_eq!(check_terminal(&b, 5, 7, 0, 9), GameStatus::Loss);
    assert_eq!(check_terminal(&b, 5, 7, 20, 9), GameStatus::InProgress);
}

#[test]
fn battleship_parse_coord_accepts_plain_pairs() {
    assert_eq!(parse_coord("2,3", 5, 7), Ok((2, 3)));
    assert_eq!(parse_coord("0,0", 5, 7), Ok((0, 0)));
    assert_eq!(parse_coord("04,06", 5, 7), Ok((4, 6)));
}

#[test]
fn battleship_parse_coord_rejects_malformed_input() {
    assert_eq!(parse_coord("", 5, 7), Err(DecodeError::Malformed));
    assert_eq!(parse_coord("12", 5, 7), Err(DecodeError::Malformed));
    assert_eq!(parse_coord(",3", 5, 7), Err(DecodeError::Malformed));
    assert_eq!(parse_coord("2,", 5, 7), Err(DecodeError::Malformed));
    assert_eq!(parse_coord("a,3", 5, 7), Err(DecodeError::Malformed));
    assert_eq!(parse_coord("2,b", 5, 7), Err(DecodeError::Malformed));
    assert_eq!(parse_coord("1,2,3", 5, 7), Err(DecodeError::Malformed));
}

#[test]
fn battleship_parse_coord_rejects_out_of_range_indices() {
    assert_eq!(parse_coord("5,0", 5, 7), Err(DecodeError::OutOfRange));
    assert_eq!(parse_coord("0,7", 5, 7), Err(DecodeError::OutOfRange));
    assert_eq!(parse_coord("99999999999999999999,0", 5, 7), Err(DecodeError::OutOfRange));
}

#[test]
fn battleship_turn_without_a_move_changes_nothing() {
    let mut b = water_board(5, 7);
    b[1][1] = Tile::Ship;
    let mut moves: i32 = 21;
    let st = battleship_turn(&mut b, 5, 7, &mut moves, None, 9).unwrap();
    assert_eq!(st, GameStatus::InProgress);
    assert_eq!(moves, 21);
    assert_eq!(b[1][1], Tile::Ship);
}

#[test]
fn battleship_turn_applies_a_shot_and_spends_it() {
    let mut b = water_board(5, 7);
    b[1][1] = Tile::Ship;
    let mut moves: i32 = 21;
    let st = battleship_turn(&mut b, 5, 7, &mut moves, Some("1,1"), 9).unwrap();
    assert_eq!(st, GameStatus::InProgress);
    assert_eq!(moves, 20);
    assert_eq!(b[1][1], Tile::Hit);
}

#[test]
fn battleship_turn_spends_a_shot_even_on_a_repeat() {
    // the budget is spent on any submitted move, even one that re-fires at
    // an already-revealed tile and leaves the board as it was
    let mut b = water_board(5, 7);
    b[1][1] = Tile::Ship;
    let mut moves: i32 = 21;
    battleship_turn(&mut b, 5, 7, &mut moves, Some("1,1"), 9).unwrap();
    battleship_turn(&mut b, 5, 7, &mut moves, Some("1,1"), 9).unwrap();
    assert_eq!(moves, 19);
    assert_eq!(b[1][1], Tile::Hit);
    assert_eq!(count_hits(&b, 5, 7), 1);
}

#[test]
fn battleship_turn_rejects_bad_moves_untouched() {
    let mut b = water_board(5, 7);
    let mut moves: i32 = 21;
    assert_eq!(
        battleship_turn(&mut b, 5, 7, &mut moves, Some("nonsense"), 9),
        Err(DecodeError::Malformed)
    );
    assert_eq!(
        battleship_turn(&mut b, 5, 7, &mut moves, Some("9,9"), 9),
        Err(DecodeError::OutOfRange)
    );
    assert_eq!(moves, 21);
    assert_eq!(count_hits(&b, 5, 7), 0);
}

#[test]
fn battleship_sinking_the_whole_fleet_wins() {
    let mut b = water_board(5, 7);
    b[0][0] = Tile::Ship;
    b[0][1] = Tile::Ship;
    let mut moves: i32 = 21;
    let st1 = battleship_turn(&mut b, 5, 7, &mut moves, Some("0,0"), 2).unwrap();
    assert_eq!(st1, GameStatus::InProgress);
    let st2 = battleship_turn(&mut b, 5, 7, &mut moves, Some("0,1"), 2).unwrap();
    assert_eq!(st2, GameStatus::Win);
    assert_eq!(moves, 19);
}

#[test]
fn battleship_running_out_of_shots_loses() {
    let mut b = water_board(5, 7);
    b[4][6] = Tile::Ship;
    let mut moves: i32 = 1;
    let st = battleship_turn(&mut b, 5, 7, &mut moves, Some("0,0"), 1).unwrap();
    assert_eq!(st, GameStatus::Loss);
    assert_eq!(moves, 0);
}

#[test]
fn battleship_budget_is_spent_even_past_zero() {
    // a crafted submission after the budget ran out still spends a shot:
    // the loss is only reported while the counter stands exactly at zero
    let mut b = water_board(5, 7);
    b[4][6] = Tile::Ship;
    let mut moves: i32 = 0;
    let st = battleship_turn(&mut b, 5, 7, &mut moves, Some("0,0"), 1).unwrap();
    assert_eq!(moves, -1);
    assert_eq!(st, GameStatus::InProgress);
}

#[test]
fn battleship_hits_never_exceed_the_fleet() {
    // fire at every cell of a generated board: the hit count can reach at
    // most the combined ship length
    let mut b = create_battleship_game(5, 7, &[2, 3, 4]);
    for i in 0..5 {
        for j in 0..7 {
            fire(&mut b, i, j);
        }
    }
    assert!(count_hits(&b, 5, 7) <= 9);
}
