use calendar_puzzle::block::Block;
use calendar_puzzle::board::{Board, PuzzleError, State};
use calendar_puzzle::point::Point;

fn diagonal_block() -> Block {
    let shape = vec![vec![true, false], vec![false, true]];
    Block::from_shape(&shape).unwrap()
}

#[test]
fn test_fill() {
    let mut board = Board::new_with_walls(2, 2, &[]);

    let b = diagonal_block();
    let b1 = b.rotate();

    board.put_block(&Point::new(0, 0), 0, &b).unwrap();
    board.put_block(&Point::new(0, 0), 1, &b1).unwrap();

    for i in 0..2 {
        for j in 0..2 {
            let s = board.get_cell(&Point::new(i, j)).unwrap();
            assert!(s.is_fill());
        }
    }
}

#[test]
fn test_overlap() {
    let mut board = Board::new_with_walls(2, 2, &[]);

    let b = diagonal_block();

    board.put_block(&Point::new(0, 0), 0, &b).unwrap();
    assert!(board.put_block(&Point::new(0, 0), 1, &b).is_err());

    // the rejected call left the board exactly as the first put made it
    assert_eq!(board.get_cell(&Point::new(0, 0)).unwrap(), State::Fill(0));
    assert_eq!(board.get_cell(&Point::new(1, 1)).unwrap(), State::Fill(0));
    assert_eq!(board.get_cell(&Point::new(0, 1)).unwrap(), State::Empty);
    assert_eq!(board.get_cell(&Point::new(1, 0)).unwrap(), State::Empty);
}

#[test]
fn put_then_remove_restores_board() {
    let mut board = Board::new_with_walls(3, 3, &[('W', Point::new(2, 2))]);
    let b = diagonal_block();

    board.put_block(&Point::new(0, 1), 5, &b).unwrap();
    board.remove_block(&Point::new(0, 1), &b).unwrap();

    for i in 0..3 {
        for j in 0..3 {
            let s = board.get_cell(&Point::new(i, j)).unwrap();
            if i == 2 && j == 2 {
                assert_eq!(s, State::Wall('W'));
            } else {
                assert_eq!(s, State::Empty);
            }
        }
    }
}

#[test]
fn put_fills_covered_cells_and_no_others() {
    let mut board = Board::new_with_walls(3, 3, &[]);
    let b = diagonal_block();

    board.put_block(&Point::new(1, 1), 7, &b).unwrap();

    for i in 0..3 {
        for j in 0..3 {
            let s = board.get_cell(&Point::new(i, j)).unwrap();
            if (i, j) == (1, 1) || (i, j) == (2, 2) {
                assert_eq!(s, State::Fill(7));
            } else {
                assert_eq!(s, State::Empty);
            }
        }
    }

    board.remove_block(&Point::new(1, 1), &b).unwrap();
    for i in 0..3 {
        for j in 0..3 {
            assert_eq!(board.get_cell(&Point::new(i, j)).unwrap(), State::Empty);
        }
    }
}

#[test]
fn get_cell_out_of_bounds_is_error() {
    let board = Board::new_with_walls(2, 2, &[]);
    assert_eq!(
        board.get_cell(&Point::new(-1, 0)),
        Err(PuzzleError::OutOfBounds)
    );
    assert_eq!(
        board.get_cell(&Point::new(0, 2)),
        Err(PuzzleError::OutOfBounds)
    );
    assert_eq!(
        board.get_cell(&Point::new(2, 0)),
        Err(PuzzleError::OutOfBounds)
    );
}

#[test]
fn put_out_of_bounds_is_placement_error() {
    let mut board = Board::new_with_walls(2, 2, &[]);
    let b = diagonal_block();
    assert_eq!(
        board.put_block(&Point::new(1, 1), 0, &b),
        Err(PuzzleError::Placement)
    );
    // nothing was written by the failed attempt
    for i in 0..2 {
        for j in 0..2 {
            assert_eq!(board.get_cell(&Point::new(i, j)).unwrap(), State::Empty);
        }
    }
}

#[test]
fn remove_unfilled_is_placement_error() {
    let mut board = Board::new_with_walls(2, 2, &[]);
    let b = diagonal_block();
    assert_eq!(
        board.remove_block(&Point::new(0, 0), &b),
        Err(PuzzleError::Placement)
    );
}

#[test]
fn wall_cell_rejects_placement() {
    let mut board = Board::new_with_walls(2, 2, &[('W', Point::new(0, 0))]);
    let b = diagonal_block();
    assert_eq!(
        board.put_block(&Point::new(0, 0), 0, &b),
        Err(PuzzleError::Placement)
    );
    assert_eq!(board.get_cell(&Point::new(0, 0)).unwrap(), State::Wall('W'));
}

#[test]
fn first_empty_cell_scans_row_major() {
    let board = Board::new_with_walls(2, 2, &[('W', Point::new(0, 0))]);
    assert_eq!(board.first_empty_cell(), Some(Point::new(0, 1)));

    let empty_board = Board::new_with_walls(2, 2, &[]);
    assert_eq!(empty_board.first_empty_cell(), Some(Point::new(0, 0)));
}

#[test]
fn first_empty_cell_none_when_covered() {
    let mut board = Board::new_with_walls(2, 2, &[]);
    let b = diagonal_block();
    let b1 = b.rotate();
    board.put_block(&Point::new(0, 0), 0, &b).unwrap();
    board.put_block(&Point::new(0, 0), 1, &b1).unwrap();
    assert_eq!(board.first_empty_cell(), None);
}

#[test]
fn dimensions_are_reported() {
    let board = Board::new_with_walls(3, 5, &[]);
    assert_eq!(board.height(), 3);
    assert_eq!(board.width(), 5);
}
