use minesweeper::{Board, BoardError, Cell, ChangedCell};

fn cell(board: &Board, x: usize, y: usize) -> Cell {
    board.get_cell_state(x, y).unwrap()
}

fn mine_positions(board: &Board) -> Vec<(usize, usize)> {
    let mut mines = Vec::new();
    for y in 0..board.height() {
        for x in 0..board.width() {
            if cell(board, x, y).is_mine {
                mines.push((x, y));
            }
        }
    }
    mines
}

fn open_positions(board: &Board) -> Vec<(usize, usize)> {
    let mut open = Vec::new();
    for y in 0..board.height() {
        for x in 0..board.width() {
            if cell(board, x, y).is_open {
                open.push((x, y));
            }
        }
    }
    open
}

fn sorted(changed: &[ChangedCell]) -> Vec<(usize, usize)> {
    let mut cells: Vec<(usize, usize)> = changed.iter().map(|c| (c.x, c.y)).collect();
    cells.sort();
    cells
}

fn in_zone(p: (usize, usize), first: (usize, usize)) -> bool {
    p.0 + 1 >= first.0 && p.0 <= first.0 + 1 && p.1 + 1 >= first.1 && p.1 <= first.1 + 1
}

/// The cells that may take a mine, row by row.
fn eligible(width: usize, height: usize, first: (usize, usize)) -> Vec<(usize, usize)> {
    let mut cells = Vec::new();
    for y in 0..height {
        for x in 0..width {
            if !in_zone((x, y), first) {
                cells.push((x, y));
            }
        }
    }
    cells
}

/// The draws that put the mines on `mines`, in that order.
fn draws_for(width: usize, height: usize, first: (usize, usize), mines: &[(usize, usize)]) -> Vec<usize> {
    let mut rest = eligible(width, height, first);
    let mut draws = Vec::new();
    for m in mines {
        let i = rest.iter().position(|p| p == m).unwrap();
        draws.push(i);
        rest.swap_remove(i);
    }
    draws
}

/// A board with mines on `mines` after a first reveal at `first`.
fn board_with(
    width: usize,
    height: usize,
    first: (usize, usize),
    mines: &[(usize, usize)],
) -> (Board, Vec<ChangedCell>) {
    let mut board = Board::new(width, height).unwrap();
    let draws = draws_for(width, height, first, mines);
    let changed = board.open_cell_with(first.0, first.1, mines.len(), &draws).unwrap();
    let mut want = mines.to_vec();
    want.sort_by_key(|p| (p.1, p.0));
    assert_eq!(mine_positions(&board), want);
    (board, changed)
}

#[test]
fn first_reveal_on_4x4_keeps_the_corner_zone_free() {
    for _ in 0..200 {
        let mut board = Board::new(4, 4).unwrap();
        let changed = board.open_cell(0, 0, 2).unwrap();
        let mines = mine_positions(&board);
        assert_eq!(mines.len(), 2);
        for m in &mines {
            assert!(!(m.0 <= 1 && m.1 <= 1), "mine in the safe zone at {:?}", m);
        }
        assert!(!board.is_game_over());
        assert!(changed.iter().any(|c| c.x == 0 && c.y == 0));
    }
}

#[test]
fn single_forced_mine_on_3x3_opens_the_other_eight() {
    let mut board = Board::new(3, 3).unwrap();
    // The eligible cells, row by row: (2,0) (2,1) (0,2) (1,2) (2,2).
    let changed = board.open_cell_with(0, 0, 1, &vec![4]).unwrap();
    assert_eq!(mine_positions(&board), vec![(2, 2)]);
    assert_eq!(
        sorted(&changed),
        vec![(0, 0), (0, 1), (0, 2), (1, 0), (1, 1), (1, 2), (2, 0), (2, 1)]
    );
    assert_eq!(board.count_mines_around(1, 1), Ok(1));
    assert_eq!(board.count_mines_around(0, 0), Ok(0));
    assert!(board.is_game_clear());
    assert!(!board.is_game_over());
    assert_eq!(cell(&board, 2, 2), Cell { is_open: false, is_mine: true, is_flagged: false });
}

#[test]
fn first_reveal_is_never_a_loss() {
    for (w, h) in [(1, 1), (2, 2), (4, 4), (5, 3), (8, 8)] {
        for y in 0..h {
            for x in 0..w {
                let room = eligible(w, h, (x, y)).len();
                for count in [0, room / 2, room] {
                    let mut board = Board::new(w, h).unwrap();
                    let changed = board.open_cell(x, y, count).unwrap();
                    assert!(!board.is_game_over());
                    assert!(cell(&board, x, y).is_open);
                    assert!(!cell(&board, x, y).is_mine);
                    let mines = mine_positions(&board);
                    assert_eq!(mines.len(), count);
                    for m in &mines {
                        assert!(!in_zone(*m, (x, y)));
                    }
                    assert_eq!(sorted(&changed), {
                        let mut open = open_positions(&board);
                        open.sort();
                        open
                    });
                }
            }
        }
    }
}

#[test]
fn every_eligible_cell_can_get_the_mine() {
    let room = eligible(3, 3, (0, 0));
    let mut seen = vec![false; room.len()];
    for _ in 0..400 {
        let mut board = Board::new(3, 3).unwrap();
        board.open_cell(0, 0, 1).unwrap();
        let mines = mine_positions(&board);
        assert_eq!(mines.len(), 1);
        let i = room.iter().position(|p| *p == mines[0]).unwrap();
        seen[i] = true;
    }
    assert!(seen.iter().all(|s| *s));
}

#[test]
fn reveal_outside_the_board_is_rejected() {
    let mut board = Board::new(3, 2).unwrap();
    assert_eq!(board.open_cell(3, 0, 1), Err(BoardError::OutOfBounds));
    assert_eq!(board.open_cell(0, 2, 1), Err(BoardError::OutOfBounds));
    assert_eq!(board.open_cell_with(3, 0, 1, &vec![0]), Err(BoardError::OutOfBounds));
    assert!(mine_positions(&board).is_empty());
    assert!(open_positions(&board).is_empty());
    // The board still waits for its first reveal.
    board.open_cell(0, 0, 2).unwrap();
    assert_eq!(mine_positions(&board).len(), 2);
}

#[test]
fn more_mines_than_eligible_cells_are_rejected() {
    // 4x4 with the first reveal in the corner: 16 - 4 = 12 eligible cells.
    let mut board = Board::new(4, 4).unwrap();
    assert_eq!(board.open_cell(0, 0, 13), Err(BoardError::TooManyMines));
    assert_eq!(board.open_cell(0, 0, 16), Err(BoardError::TooManyMines));
    assert_eq!(board.open_cell(0, 0, usize::MAX), Err(BoardError::TooManyMines));
    assert!(mine_positions(&board).is_empty());
    assert!(open_positions(&board).is_empty());
    // In the middle the zone has nine cells: 7 are eligible.
    assert_eq!(board.open_cell(1, 1, 8), Err(BoardError::TooManyMines));
    // On the edge it has six: 10 are eligible.
    assert_eq!(board.open_cell(0, 1, 11), Err(BoardError::TooManyMines));
    assert_eq!(board.open_cell_with(0, 1, 11, &vec![0; 11]), Err(BoardError::TooManyMines));
    // The rejected reveals left the board waiting for its first one.
    let changed = board.open_cell(0, 1, 10).unwrap();
    assert_eq!(mine_positions(&board).len(), 10);
    assert_eq!(sorted(&changed), vec![(0, 0), (0, 1), (0, 2), (1, 0), (1, 1), (1, 2)]);
    assert!(board.is_game_clear());
}

#[test]
fn as_many_mines_as_eligible_cells_fill_them_all() {
    let mut board = Board::new(4, 4).unwrap();
    let changed = board.open_cell(3, 3, 12).unwrap();
    let mut want = eligible(4, 4, (3, 3));
    want.sort_by_key(|p| (p.1, p.0));
    assert_eq!(mine_positions(&board), want);
    assert_eq!(sorted(&changed), vec![(2, 2), (2, 3), (3, 2), (3, 3)]);
    assert_eq!(board.count_mines_around(2, 2), Ok(5));
    assert_eq!(board.count_mines_around(3, 3), Ok(0));
    assert!(board.is_game_clear());
}

#[test]
fn a_board_of_one_cell_takes_no_mine() {
    let mut board = Board::new(1, 1).unwrap();
    assert_eq!(board.open_cell(0, 0, 1), Err(BoardError::TooManyMines));
    let changed = board.open_cell(0, 0, 0).unwrap();
    assert_eq!(sorted(&changed), vec![(0, 0)]);
    assert!(board.is_game_clear());
    assert!(!board.is_game_over());
    assert_eq!(board.count_mines_around(0, 0), Ok(0));
}

#[test]
fn draws_that_do_not_fit_are_rejected() {
    let mut board = Board::new(3, 3).unwrap();
    // Five cells are eligible.  Too few draws, too many, and draws past
    // the cells that are left:
    assert_eq!(board.open_cell_with(0, 0, 2, &vec![0]), Err(BoardError::InvalidDraws));
    assert_eq!(board.open_cell_with(0, 0, 1, &vec![0, 0]), Err(BoardError::InvalidDraws));
    assert_eq!(board.open_cell_with(0, 0, 1, &vec![5]), Err(BoardError::InvalidDraws));
    assert_eq!(board.open_cell_with(0, 0, 2, &vec![4, 4]), Err(BoardError::InvalidDraws));
    assert_eq!(board.open_cell_with(0, 0, 2, &vec![0, usize::MAX]), Err(BoardError::InvalidDraws));
    assert!(mine_positions(&board).is_empty());
    assert!(open_positions(&board).is_empty());
    // The largest draws that fit.
    board.open_cell_with(0, 0, 5, &vec![4, 3, 2, 1, 0]).unwrap();
    assert_eq!(mine_positions(&board), vec![(2, 0), (2, 1), (0, 2), (1, 2), (2, 2)]);
}

#[test]
fn a_picked_cell_makes_room_for_the_last_one() {
    // One row, first reveal at its left end: (2,0) (3,0) (4,0) (5,0) are
    // eligible.  Draw 0 picks (2,0); then (5,0) has moved to place 0.
    let mut board = Board::new(6, 1).unwrap();
    board.open_cell_with(0, 0, 2, &vec![0, 0]).unwrap();
    assert_eq!(mine_positions(&board), vec![(2, 0), (5, 0)]);

    let mut board = Board::new(6, 1).unwrap();
    board.open_cell_with(0, 0, 3, &vec![1, 1, 1]).unwrap();
    // (3,0) goes, (5,0) takes place 1 and goes next, then (4,0) is last.
    assert_eq!(mine_positions(&board), vec![(3, 0), (4, 0), (5, 0)]);

    let mut board = Board::new(6, 1).unwrap();
    board.open_cell_with(0, 0, 2, &vec![3, 2]).unwrap();
    assert_eq!(mine_positions(&board), vec![(4, 0), (5, 0)]);
}

#[test]
fn the_mines_are_laid_once() {
    let (mut board, _) = board_with(5, 5, (0, 0), &[(4, 4), (2, 3)]);
    let before = mine_positions(&board);
    board.open_cell(4, 0, 7).unwrap();
    assert_eq!(mine_positions(&board), before);
    // After the first reveal neither the count nor the draws are looked at.
    board.open_cell_with(0, 4, 1000, &vec![99, 99]).unwrap();
    assert_eq!(mine_positions(&board), before);
    assert_eq!(board.open_cell(1, 1, usize::MAX), Ok(vec![]));
}

#[test]
fn the_flood_stops_at_cells_with_mines_around() {
    // A wall of mines in column 2 parts the board.
    let wall = [(2, 0), (2, 1), (2, 2), (2, 3), (2, 4)];
    let (mut board, changed) = board_with(5, 5, (0, 0), &wall);
    assert_eq!(
        sorted(&changed),
        vec![(0, 0), (0, 1), (0, 2), (0, 3), (0, 4), (1, 0), (1, 1), (1, 2), (1, 3), (1, 4)]
    );
    assert_eq!(board.count_mines_around(0, 2), Ok(0));
    assert_eq!(board.count_mines_around(1, 0), Ok(2));
    assert_eq!(board.count_mines_around(1, 2), Ok(3));
    assert_eq!(board.count_mines_around(1, 4), Ok(2));
    assert_eq!(board.count_mines_around(2, 2), Ok(2));
    assert_eq!(board.count_mines_around(3, 1), Ok(3));
    assert!(!board.is_game_clear());
    assert!(!board.is_game_over());
    // A cell next to the wall opens alone.
    let changed = board.open_cell(3, 2, 5).unwrap();
    assert_eq!(sorted(&changed), vec![(3, 2)]);
    // A cell away from it takes the rest of its side along.
    let changed = board.open_cell(4, 4, 5).unwrap();
    assert_eq!(
        sorted(&changed),
        vec![(3, 0), (3, 1), (3, 3), (3, 4), (4, 0), (4, 1), (4, 2), (4, 3), (4, 4)]
    );
    assert!(board.is_game_clear());
    assert!(!board.is_game_over());
}

#[test]
fn the_flood_goes_round_corners() {
    // The mine at (1, 1) is walked around through the cells without
    // mines around them on the right and at the bottom.
    let (board, changed) = board_with(5, 5, (4, 4), &[(1, 1)]);
    assert_eq!(changed.len(), 21);
    let opened = sorted(&changed);
    for p in [(0, 0), (1, 0), (0, 1), (1, 1)] {
        assert!(!opened.contains(&p), "{:?} was opened", p);
    }
    assert_eq!(board.count_mines_around(0, 0), Ok(1));
    assert_eq!(board.count_mines_around(2, 2), Ok(1));
    assert_eq!(board.count_mines_around(3, 3), Ok(0));
    assert_eq!(cell(&board, 2, 0), Cell { is_open: true, is_mine: false, is_flagged: false });
    assert_eq!(cell(&board, 0, 0), Cell { is_open: false, is_mine: false, is_flagged: false });
    assert!(!board.is_game_clear());
}

#[test]
fn mines_around_counts_all_eight_neighbours_and_not_the_cell() {
    let ring = [(0, 0), (1, 0), (2, 0), (0, 1), (2, 1), (0, 2), (1, 2), (2, 2)];
    let (board, _) = board_with(7, 3, (5, 1), &ring);
    assert_eq!(board.count_mines_around(1, 1), Ok(8));
    assert_eq!(board.count_mines_around(0, 0), Ok(2));
    assert_eq!(board.count_mines_around(1, 0), Ok(4));
    assert_eq!(board.count_mines_around(3, 1), Ok(3));
    assert_eq!(board.count_mines_around(3, 0), Ok(2));
    assert_eq!(board.count_mines_around(4, 1), Ok(0));
}

#[test]
fn a_second_reveal_at_the_same_cell_opens_nothing() {
    let (mut board, first) = board_with(4, 4, (0, 0), &[(3, 3), (3, 0)]);
    assert!(!first.is_empty());
    let open = open_positions(&board);
    assert_eq!(board.open_cell(0, 0, 2), Ok(vec![]));
    assert_eq!(board.open_cell_with(0, 0, 2, &vec![0, 0]), Ok(vec![]));
    assert_eq!(open_positions(&board), open);
    // The same holds of every cell that the first reveal opened.
    for c in &first {
        assert_eq!(board.open_cell(c.x, c.y, 2), Ok(vec![]));
    }
    assert_eq!(open_positions(&board), open);
}

#[test]
fn opening_a_mine_loses_the_game() {
    let (mut board, _) = board_with(4, 4, (0, 0), &[(3, 3), (3, 0), (0, 3)]);
    assert!(!board.is_game_over());
    let changed = board.open_cell(3, 3, 3).unwrap();
    assert_eq!(sorted(&changed), vec![(3, 3)]);
    assert_eq!(cell(&board, 3, 3), Cell { is_open: true, is_mine: true, is_flagged: false });
    assert!(board.is_game_over());
    assert!(!board.is_game_clear());
    // The other mines stay closed; the engine goes on answering.
    assert!(!cell(&board, 3, 0).is_open);
    assert_eq!(board.open_cell(3, 3, 3), Ok(vec![]));
    assert!(board.is_game_over());
}

#[test]
fn a_game_can_be_lost_and_cleared_at_once() {
    let (mut board, _) = board_with(3, 3, (0, 0), &[(2, 2)]);
    assert!(board.is_game_clear());
    board.open_cell(2, 2, 1).unwrap();
    assert!(board.is_game_over());
    assert!(board.is_game_clear());
}

#[test]
fn opening_every_cell_without_a_mine_wins_in_any_order() {
    let mines = [(3, 0), (4, 2), (0, 4), (2, 4), (4, 4)];
    let mut free: Vec<(usize, usize)> = Vec::new();
    for y in 0..5 {
        for x in 0..5 {
            if !mines.contains(&(x, y)) {
                free.push((x, y));
            }
        }
    }
    let mut backwards = free.clone();
    backwards.reverse();
    let mut shuffled = free.clone();
    shuffled.sort_by_key(|p| (p.0 * 7 + p.1 * 3) % 11);
    for order in [free, backwards, shuffled] {
        let (mut board, _) = board_with(5, 5, (1, 1), &mines);
        let mut total = open_positions(&board).len();
        for (k, p) in order.iter().enumerate() {
            assert!(!board.is_game_over());
            let changed = board.open_cell(p.0, p.1, 0).unwrap();
            total += changed.len();
            assert_eq!(open_positions(&board).len(), total);
            if k + 1 < order.len() && total < 20 {
                assert!(!board.is_game_clear());
            }
        }
        assert_eq!(total, 20);
        assert!(board.is_game_clear());
        assert!(!board.is_game_over());
    }
}

#[test]
fn changed_cells_are_those_that_went_from_closed_to_open() {
    let (mut board, first) = board_with(6, 6, (0, 0), &[(2, 2), (5, 5), (3, 0)]);
    let mut open = open_positions(&board);
    open.sort();
    assert_eq!(sorted(&first), open);
    for y in 0..6 {
        for x in 0..6 {
            if cell(&board, x, y).is_mine {
                continue;
            }
            let before = open_positions(&board);
            let changed = board.open_cell(x, y, 3).unwrap();
            let after = open_positions(&board);
            let mut fresh: Vec<(usize, usize)> =
                after.iter().copied().filter(|p| !before.contains(p)).collect();
            fresh.sort();
            assert_eq!(sorted(&changed), fresh);
            for p in &before {
                assert!(after.contains(p));
            }
        }
    }
    assert!(board.is_game_clear());
}
