use tictactoe::{Board, BoardStatus, Player, SetError, Tile};
use tictactoe::BoardStatus::{Continue, Tie, Winner};
use tictactoe::Tile::{Cross, Empty, Nought};

fn board_of(rows: Vec<Vec<Tile>>, win_row_length: usize) -> Board {
    let mut b = Board::new(rows.len(), win_row_length);
    for (r, row) in rows.iter().enumerate() {
        for (c, t) in row.iter().enumerate() {
            if *t != Empty {
                b.set(*t, r, c).unwrap();
            }
        }
    }
    b
}

fn contents(b: &Board) -> Vec<Vec<Option<Tile>>> {
    (0..b.length())
        .map(|r| (0..b.length()).map(|c| b.get(r, c)).collect())
        .collect()
}

#[test]
fn board_status() {
    let b = board_of(
        vec![
            vec![Cross, Nought, Cross],
            vec![Nought, Cross, Empty],
            vec![Nought, Empty, Cross],
        ],
        3,
    );
    assert_eq!(b.board_status(), Winner(Cross));

    let b = board_of(
        vec![
            vec![Cross, Nought, Cross],
            vec![Cross, Nought, Empty],
            vec![Nought, Cross, Cross],
        ],
        3,
    );
    assert_eq!(b.board_status(), Continue);

    let b = board_of(
        vec![
            vec![Cross, Nought, Cross],
            vec![Nought, Nought, Nought],
            vec![Cross, Cross, Empty],
        ],
        3,
    );
    assert_eq!(b.board_status(), Winner(Nought));

    let b = board_of(
        vec![
            vec![Cross, Nought, Cross],
            vec![Nought, Cross, Nought],
            vec![Nought, Cross, Nought],
        ],
        3,
    );
    assert_eq!(b.board_status(), Tie);

    let b2 = board_of(
        vec![
            vec![Cross, Empty, Cross, Empty],
            vec![Nought, Empty, Nought, Empty],
            vec![Empty, Empty, Empty, Cross],
            vec![Nought, Cross, Empty, Nought],
        ],
        2,
    );
    assert_eq!(b2.board_status(), Continue);

    let b2 = board_of(
        vec![
            vec![Cross, Empty, Cross, Empty],
            vec![Nought, Empty, Nought, Empty],
            vec![Cross, Empty, Empty, Empty],
            vec![Nought, Cross, Empty, Cross],
        ],
        2,
    );
    assert_eq!(b2.board_status(), Winner(Cross));
}

#[test]
fn new_board_is_empty_and_continues() {
    let b = Board::new(3, 3);
    assert_eq!(b.length(), 3);
    assert_eq!(b.win_row_length(), 3);
    assert_eq!(contents(&b), vec![vec![Some(Empty); 3]; 3]);
    assert_eq!(b.board_status(), Continue);
}

#[test]
fn get_off_the_grid_is_none() {
    let b = Board::new(3, 3);
    assert_eq!(b.get(3, 0), None);
    assert_eq!(b.get(0, 3), None);
    assert_eq!(b.get(2, 2), Some(Empty));
}

#[test]
fn set_writes_one_cell() {
    let mut b = Board::new(3, 3);
    assert_eq!(b.set(Nought, 1, 2), Ok(()));
    assert_eq!(b.get(1, 2), Some(Nought));
    let mut expected = vec![vec![Some(Empty); 3]; 3];
    expected[1][2] = Some(Nought);
    assert_eq!(contents(&b), expected);
}

#[test]
fn set_out_of_bounds_fails_without_change() {
    let mut b = board_of(vec![vec![Cross, Empty], vec![Empty, Nought]], 2);
    let before = contents(&b);
    assert_eq!(b.set(Cross, 2, 0), Err(SetError::RowOutOfBounds));
    assert_eq!(b.set(Cross, 5, 7), Err(SetError::RowOutOfBounds));
    assert_eq!(b.set(Cross, 0, 2), Err(SetError::ColumnOutOfBounds));
    assert_eq!(contents(&b), before);
}

#[test]
fn set_on_occupied_cell_fails_without_change() {
    let mut b = Board::new(3, 3);
    b.set(Nought, 0, 0).unwrap();
    let before = contents(&b);
    assert_eq!(b.set(Cross, 0, 0), Err(SetError::AlreadyOccupied));
    assert_eq!(contents(&b), before);
    assert_eq!(b.get(0, 0), Some(Nought));
}

#[test]
fn status_main_diagonal_win() {
    let b = board_of(
        vec![
            vec![Cross, Nought, Cross],
            vec![Nought, Cross, Empty],
            vec![Nought, Empty, Cross],
        ],
        3,
    );
    assert_eq!(b.board_status(), Winner(Cross));
}

#[test]
fn status_full_board_tie() {
    let b = board_of(
        vec![
            vec![Cross, Nought, Cross],
            vec![Nought, Cross, Nought],
            vec![Nought, Cross, Nought],
        ],
        3,
    );
    assert_eq!(b.board_status(), Tie);
}

#[test]
fn status_continue() {
    let b = board_of(
        vec![
            vec![Cross, Nought, Cross],
            vec![Cross, Nought, Empty],
            vec![Nought, Cross, Cross],
        ],
        3,
    );
    assert_eq!(b.board_status(), Continue);
}

#[test]
fn status_vertical_and_anti_diagonal_wins() {
    let b = board_of(
        vec![
            vec![Empty, Nought, Cross],
            vec![Empty, Nought, Cross],
            vec![Empty, Nought, Empty],
        ],
        3,
    );
    assert_eq!(b.board_status(), Winner(Nought));

    let b = board_of(
        vec![
            vec![Empty, Nought, Cross],
            vec![Empty, Cross, Nought],
            vec![Cross, Empty, Empty],
        ],
        3,
    );
    assert_eq!(b.board_status(), Winner(Cross));
}

#[test]
fn status_is_a_function_of_contents() {
    let mut a = Board::new(3, 3);
    a.set(Cross, 0, 0).unwrap();
    a.set(Nought, 1, 1).unwrap();
    a.set(Cross, 2, 2).unwrap();
    let mut b = Board::new(3, 3);
    b.set(Cross, 2, 2).unwrap();
    b.set(Cross, 0, 0).unwrap();
    b.set(Nought, 1, 1).unwrap();
    assert_eq!(contents(&a), contents(&b));
    assert_eq!(a.board_status(), b.board_status());
    assert_eq!(a.board_status(), Continue);
}

#[test]
fn winning_length_one_and_two() {
    let b = board_of(vec![vec![Empty, Empty], vec![Empty, Nought]], 1);
    assert_eq!(b.board_status(), Winner(Nought));
    let b = board_of(vec![vec![Nought, Cross], vec![Empty, Nought]], 2);
    assert_eq!(b.board_status(), Winner(Nought));
    let b = board_of(vec![vec![Nought, Cross], vec![Cross, Empty]], 2);
    assert_eq!(b.board_status(), Winner(Cross));
}

#[test]
fn perfect_move_takes_immediate_win() {
    let mut b = board_of(
        vec![
            vec![Cross, Nought, Cross],
            vec![Nought, Cross, Empty],
            vec![Nought, Empty, Empty],
        ],
        3,
    );
    b.make_perfect_move(Cross);
    assert_eq!(b.get(2, 2), Some(Cross));
    assert_eq!(b.get(1, 2), Some(Empty));
    assert_eq!(b.get(2, 1), Some(Empty));
    assert_eq!(b.board_status(), Winner(Cross));
}

#[test]
fn perfect_move_blocks_a_loss() {
    let mut b = board_of(
        vec![
            vec![Cross, Cross, Empty],
            vec![Empty, Nought, Empty],
            vec![Empty, Empty, Empty],
        ],
        3,
    );
    b.make_perfect_move(Nought);
    assert_eq!(b.get(0, 2), Some(Nought));
}

#[test]
fn perfect_move_changes_exactly_one_cell() {
    let mut b = board_of(
        vec![
            vec![Cross, Empty, Empty],
            vec![Empty, Nought, Empty],
            vec![Empty, Empty, Cross],
        ],
        3,
    );
    let before = contents(&b);
    b.make_perfect_move(Nought);
    let after = contents(&b);
    let mut changed = 0;
    for r in 0..3 {
        for c in 0..3 {
            if before[r][c] != after[r][c] {
                changed += 1;
                assert_eq!(before[r][c], Some(Empty));
                assert_eq!(after[r][c], Some(Nought));
            }
        }
    }
    assert_eq!(changed, 1);
}

#[test]
fn perfect_play_from_empty_board_is_a_tie() {
    let mut b = Board::new(3, 3);
    let mut side = Cross;
    while b.board_status() == Continue {
        b.make_perfect_move(side);
        side = side.opposite().unwrap();
    }
    assert_eq!(b.board_status(), Tie);
}

#[test]
fn random_move_fills_one_empty_cell() {
    for _ in 0..20 {
        let mut b = board_of(
            vec![
                vec![Cross, Nought, Cross],
                vec![Nought, Empty, Cross],
                vec![Empty, Cross, Nought],
            ],
            3,
        );
        b.make_random_move(Nought);
        let a = b.get(1, 1);
        let c = b.get(2, 0);
        assert!(
            (a == Some(Nought) && c == Some(Empty)) || (a == Some(Empty) && c == Some(Nought))
        );
    }
    let mut b = board_of(vec![vec![Cross, Empty], vec![Nought, Cross]], 2);
    b.make_random_move(Nought);
    assert_eq!(b.get(0, 1), Some(Nought));
}

#[test]
fn empty_cells_in_row_major_order() {
    let b = board_of(
        vec![
            vec![Cross, Empty, Empty],
            vec![Empty, Nought, Cross],
            vec![Nought, Empty, Cross],
        ],
        3,
    );
    assert_eq!(b.empty_cells(), vec![(0, 1), (0, 2), (1, 0), (2, 1)]);
    let full = board_of(vec![vec![Cross]], 1);
    assert_eq!(full.empty_cells(), vec![]);
}

#[test]
fn tile_glyphs_and_opposites() {
    assert_eq!(Empty.char(), " ");
    assert_eq!(Cross.char(), "X");
    assert_eq!(Nought.char(), "O");
    assert_eq!(Cross.opposite(), Some(Nought));
    assert_eq!(Nought.opposite(), Some(Cross));
    assert_eq!(Empty.opposite(), None);
}

#[test]
fn set_error_messages() {
    assert_eq!(SetError::RowOutOfBounds.message(), "Row index out of bounds.");
    assert_eq!(SetError::ColumnOutOfBounds.message(), "Column index out of bounds.");
    assert_eq!(SetError::AlreadyOccupied.message(), "Already occupied tile.");
}

#[test]
fn player_tile() {
    assert_eq!(Player::Human(Cross).tile(), Cross);
    assert_eq!(Player::RandomAi(Nought).tile(), Nought);
    let _: BoardStatus = Tie;
}
