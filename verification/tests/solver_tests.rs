use calendar_puzzle::block::{catalog, Block};
use calendar_puzzle::board::{Board, PuzzleError, State};
use calendar_puzzle::calendar::{calendar_board, day_cell, month_cell};
use calendar_puzzle::point::Point;
use calendar_puzzle::solver::solve;

fn domino() -> Block {
    Block::from_shape(&vec![vec![true, true]]).unwrap()
}

fn cells_of(board: &Board) -> Vec<State> {
    let mut out = Vec::new();
    for i in 0..board.height() {
        for j in 0..board.width() {
            out.push(board.get_cell(&Point::new(i as i32, j as i32)).unwrap());
        }
    }
    out
}

#[test]
fn solve_covers_whole_board() {
    let board = Board::new_with_walls(2, 2, &[]);
    let blocks = vec![domino(), domino()];
    let sol = solve(&board, &blocks).unwrap();
    assert_eq!(sol.board.first_empty_cell(), None);
    for s in cells_of(&sol.board) {
        assert!(s.is_fill());
    }
}

#[test]
fn solve_is_deterministic() {
    let board = Board::new_with_walls(2, 3, &[('W', Point::new(1, 2))]);
    let blocks = vec![
        domino(),
        Block::from_shape(&vec![vec![true, false], vec![true, true]]).unwrap(),
    ];
    let first = solve(&board, &blocks).unwrap();
    let second = solve(&board, &blocks).unwrap();
    assert_eq!(cells_of(&first.board), cells_of(&second.board));
}

#[test]
fn solve_reports_unsolvable() {
    let board = Board::new_with_walls(2, 2, &[]);
    let blocks = vec![domino()];
    assert!(matches!(
        solve(&board, &blocks),
        Err(PuzzleError::Unsolvable)
    ));
}

#[test]
fn solve_never_touches_walls() {
    let board = Board::new_with_walls(2, 2, &[('W', Point::new(0, 0))]);
    assert_eq!(board.first_empty_cell(), Some(Point::new(0, 1)));

    // an L-shaped 3-cell piece covers exactly the three free cells
    let tromino = Block::from_shape(&vec![vec![false, true], vec![true, true]]).unwrap();
    let sol = solve(&board, &vec![tromino]).unwrap();
    assert_eq!(sol.board.get_cell(&Point::new(0, 0)).unwrap(), State::Wall('W'));
    assert_eq!(sol.board.first_empty_cell(), None);
}

#[test]
fn solution_cell_counts_balance() {
    // area 6, two wall cells: the pieces must cover exactly 4 cells
    let walls = [('A', Point::new(0, 0)), ('B', Point::new(1, 2))];
    let board = Board::new_with_walls(2, 3, &walls);
    let blocks = vec![domino(), domino()];
    let sol = solve(&board, &blocks).unwrap();

    let cells = cells_of(&sol.board);
    let filled = cells.iter().filter(|s| s.is_fill()).count();
    let walled = cells
        .iter()
        .filter(|s| matches!(s, State::Wall(_)))
        .count();
    assert_eq!(walled, 2);
    assert_eq!(filled, 2 * 3 - walled);
    let piece_cells: usize = blocks.iter().map(|b| b.cell_count()).sum();
    assert_eq!(filled, piece_cells);
    assert_eq!(sol.used, vec![true, true]);
}

#[test]
fn calendar_layout_cells() {
    assert_eq!(month_cell(0), Point::new(0, 0));
    assert_eq!(month_cell(5), Point::new(0, 5));
    assert_eq!(month_cell(6), Point::new(1, 0));
    assert_eq!(month_cell(11), Point::new(1, 5));
    assert_eq!(day_cell(1), Point::new(2, 0));
    assert_eq!(day_cell(7), Point::new(2, 6));
    assert_eq!(day_cell(8), Point::new(3, 0));
    assert_eq!(day_cell(31), Point::new(6, 2));
}

#[test]
fn calendar_board_walls() {
    let board = calendar_board(3, 14);
    assert_eq!(board.height(), 7);
    assert_eq!(board.width(), 7);
    // the month and day cells carry their labels
    assert_eq!(board.get_cell(&Point::new(0, 3)).unwrap(), State::Wall('M'));
    assert_eq!(board.get_cell(&Point::new(3, 6)).unwrap(), State::Wall('D'));
    // the six border cells are walls
    for p in [
        Point::new(0, 6),
        Point::new(1, 6),
        Point::new(6, 3),
        Point::new(6, 4),
        Point::new(6, 5),
        Point::new(6, 6),
    ] {
        assert_eq!(board.get_cell(&p).unwrap(), State::Wall('#'));
    }
    // everything else is free
    let free = cells_of(&board)
        .iter()
        .filter(|s| **s == State::Empty)
        .count();
    assert_eq!(free, 7 * 7 - 8);
}

#[test]
fn full_calendar_puzzle_solves() {
    let board = calendar_board(0, 1);
    let blocks = catalog();
    let sol = solve(&board, &blocks).unwrap();
    assert_eq!(sol.board.first_empty_cell(), None);
    assert_eq!(sol.board.get_cell(&Point::new(0, 0)).unwrap(), State::Wall('M'));
    assert_eq!(sol.board.get_cell(&Point::new(2, 0)).unwrap(), State::Wall('D'));
}
