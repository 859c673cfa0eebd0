use minesweeper::{Board, BoardError, Cell};

const BLANK: Cell = Cell { is_open: false, is_mine: false, is_flagged: false };

#[test]
fn new_board_is_blank() {
    let board = Board::new(4, 3).unwrap();
    assert_eq!(board.width(), 4);
    assert_eq!(board.height(), 3);
    for y in 0..3 {
        for x in 0..4 {
            assert_eq!(board.get_cell_state(x, y), Ok(BLANK));
        }
    }
}

#[test]
fn new_board_is_neither_won_nor_lost() {
    for (w, h) in [(1, 1), (1, 5), (5, 1), (3, 3), (9, 7)] {
        let board = Board::new(w, h).unwrap();
        assert!(!board.is_game_clear());
        assert!(!board.is_game_over());
    }
}

#[test]
fn new_rejects_zero_dimensions() {
    assert!(matches!(Board::new(0, 3), Err(BoardError::InvalidDimensions)));
    assert!(matches!(Board::new(3, 0), Err(BoardError::InvalidDimensions)));
    assert!(matches!(Board::new(0, 0), Err(BoardError::InvalidDimensions)));
}

#[test]
fn width_and_height_are_not_swapped() {
    let board = Board::new(2, 5).unwrap();
    assert_eq!(board.get_cell_state(1, 4), Ok(BLANK));
    assert_eq!(board.get_cell_state(4, 1), Err(BoardError::OutOfBounds));
}

#[test]
fn cell_state_outside_the_board_is_rejected() {
    let board = Board::new(3, 2).unwrap();
    assert_eq!(board.get_cell_state(3, 0), Err(BoardError::OutOfBounds));
    assert_eq!(board.get_cell_state(0, 2), Err(BoardError::OutOfBounds));
    assert_eq!(board.get_cell_state(usize::MAX, usize::MAX), Err(BoardError::OutOfBounds));
    assert_eq!(board.get_cell_state(2, 1), Ok(BLANK));
}

#[test]
fn mine_count_outside_the_board_is_rejected() {
    let board = Board::new(3, 2).unwrap();
    assert_eq!(board.count_mines_around(3, 1), Err(BoardError::OutOfBounds));
    assert_eq!(board.count_mines_around(1, 2), Err(BoardError::OutOfBounds));
}

#[test]
fn no_mines_around_any_cell_before_the_first_reveal() {
    let board = Board::new(4, 4).unwrap();
    for y in 0..4 {
        for x in 0..4 {
            assert_eq!(board.count_mines_around(x, y), Ok(0));
        }
    }
}

#[test]
fn queries_do_not_change_the_board() {
    let mut board = Board::new(3, 3).unwrap();
    board.toggle_flag(1, 2).unwrap();
    let before: Vec<Cell> = (0..9).map(|i| board.get_cell_state(i % 3, i / 3).unwrap()).collect();
    let _ = board.is_game_over();
    let _ = board.is_game_clear();
    let _ = board.count_mines_around(1, 1);
    let after: Vec<Cell> = (0..9).map(|i| board.get_cell_state(i % 3, i / 3).unwrap()).collect();
    assert_eq!(before, after);
}
