use minesweeper::{Board, BoardError, Cell};

fn cell(board: &Board, x: usize, y: usize) -> Cell {
    board.get_cell_state(x, y).unwrap()
}

#[test]
fn toggle_flag_sets_and_clears_the_flag() {
    let mut board = Board::new(3, 3).unwrap();
    assert_eq!(board.toggle_flag(1, 2), Ok(()));
    assert_eq!(cell(&board, 1, 2), Cell { is_open: false, is_mine: false, is_flagged: true });
    assert_eq!(cell(&board, 2, 1), Cell { is_open: false, is_mine: false, is_flagged: false });
    assert_eq!(board.toggle_flag(1, 2), Ok(()));
    assert_eq!(cell(&board, 1, 2), Cell { is_open: false, is_mine: false, is_flagged: false });
}

#[test]
fn toggle_flag_outside_the_board_is_rejected() {
    let mut board = Board::new(3, 2).unwrap();
    assert_eq!(board.toggle_flag(3, 0), Err(BoardError::OutOfBounds));
    assert_eq!(board.toggle_flag(0, 2), Err(BoardError::OutOfBounds));
    for y in 0..2 {
        for x in 0..3 {
            assert!(!cell(&board, x, y).is_flagged);
        }
    }
}

#[test]
fn toggle_flag_on_an_open_cell_changes_nothing() {
    let mut board = Board::new(3, 3).unwrap();
    board.open_cell_with(0, 0, 0, &vec![]).unwrap();
    assert!(cell(&board, 1, 1).is_open);
    assert_eq!(board.toggle_flag(1, 1), Ok(()));
    assert_eq!(cell(&board, 1, 1), Cell { is_open: true, is_mine: false, is_flagged: false });
}

#[test]
fn reveal_at_a_flagged_cell_opens_nothing() {
    let mut board = Board::new(4, 4).unwrap();
    // One mine at (3, 3), which is place 11 of the twelve eligible cells.
    board.open_cell_with(0, 0, 1, &vec![11]).unwrap();
    assert!(cell(&board, 3, 3).is_mine);
    board.toggle_flag(3, 3).unwrap();
    let changed = board.open_cell(3, 3, 1).unwrap();
    assert!(changed.is_empty());
    assert_eq!(cell(&board, 3, 3), Cell { is_open: false, is_mine: true, is_flagged: true });
    assert!(!board.is_game_over());
}

#[test]
fn first_reveal_at_a_flagged_cell_lays_the_mines_and_opens_nothing() {
    let mut board = Board::new(4, 4).unwrap();
    board.toggle_flag(1, 1).unwrap();
    let changed = board.open_cell(1, 1, 3).unwrap();
    assert!(changed.is_empty());
    let mut mines = 0;
    for y in 0..4 {
        for x in 0..4 {
            let c = cell(&board, x, y);
            assert!(!c.is_open);
            if c.is_mine {
                mines += 1;
                assert!(x == 3 || y == 3);
            }
        }
    }
    assert_eq!(mines, 3);
    assert_eq!(cell(&board, 1, 1), Cell { is_open: false, is_mine: false, is_flagged: true });
}

#[test]
fn a_flagged_cell_stops_the_flood() {
    // A single row: the flag at (2, 0) cuts the row in two.
    let mut board = Board::new(5, 1).unwrap();
    board.toggle_flag(2, 0).unwrap();
    let changed = board.open_cell_with(0, 0, 0, &vec![]).unwrap();
    let mut opened: Vec<(usize, usize)> = changed.iter().map(|c| (c.x, c.y)).collect();
    opened.sort();
    assert_eq!(opened, vec![(0, 0), (1, 0)]);
    assert!(!cell(&board, 2, 0).is_open);
    assert!(!cell(&board, 3, 0).is_open);
    assert!(!board.is_game_clear());
    // Without the flag the rest opens from the other side.
    board.toggle_flag(2, 0).unwrap();
    let changed = board.open_cell(4, 0, 0).unwrap();
    let mut opened: Vec<(usize, usize)> = changed.iter().map(|c| (c.x, c.y)).collect();
    opened.sort();
    assert_eq!(opened, vec![(2, 0), (3, 0), (4, 0)]);
    assert!(board.is_game_clear());
}

#[test]
fn no_cell_is_ever_both_open_and_flagged() {
    let mut board = Board::new(4, 4).unwrap();
    board.toggle_flag(2, 2).unwrap();
    board.toggle_flag(0, 3).unwrap();
    board.open_cell(0, 0, 2).unwrap();
    for y in 0..4 {
        for x in 0..4 {
            let _ = board.toggle_flag(x, y);
            let _ = board.open_cell(3 - x, 3 - y, 2);
            for yy in 0..4 {
                for xx in 0..4 {
                    let c = cell(&board, xx, yy);
                    assert!(!(c.is_open && c.is_flagged));
                }
            }
        }
    }
}
