use calendar_puzzle::block::{catalog, Block};
use calendar_puzzle::board::PuzzleError;
use calendar_puzzle::point::Point;

fn l_block() -> Block {
    // #.
    // #.
    // ##
    let shape = vec![
        vec![true, false],
        vec![true, false],
        vec![true, true],
    ];
    Block::from_shape(&shape).unwrap()
}

#[test]
fn rotate_four_times_restores_shape() {
    let b = l_block();
    let r = b.rotate().rotate().rotate().rotate();
    assert_eq!(r.ps, b.ps);
}

#[test]
fn reflect_twice_restores_shape() {
    let b = l_block();
    let r = b.reflect().reflect();
    assert_eq!(r.ps, b.ps);
}

#[test]
fn rotate_produces_normalized_shape() {
    // the diagonal pair rotates onto the anti-diagonal pair, anchored at 0
    let shape = vec![vec![true, false], vec![false, true]];
    let b = Block::from_shape(&shape).unwrap();
    let r = b.rotate();
    assert_eq!(r.ps, vec![Point::new(0, 1), Point::new(1, 0)]);
}

#[test]
fn rigid_transforms_preserve_cell_count() {
    let b = l_block();
    assert_eq!(b.rotate().cell_count(), b.cell_count());
    assert_eq!(b.reflect().cell_count(), b.cell_count());
    for o in b.orientations() {
        assert_eq!(o.cell_count(), b.cell_count());
    }
}

#[test]
fn from_shape_rejects_empty_shape() {
    let shape = vec![vec![false, false], vec![false, false]];
    assert!(matches!(Block::from_shape(&shape), Err(PuzzleError::Shape)));
    let no_rows: Vec<Vec<bool>> = Vec::new();
    assert!(matches!(Block::from_shape(&no_rows), Err(PuzzleError::Shape)));
}

#[test]
fn from_shape_normalizes_offsets() {
    // only the bottom-right cell is marked: it becomes the offset (0, 0)
    let shape = vec![vec![false, false], vec![false, true]];
    let b = Block::from_shape(&shape).unwrap();
    assert_eq!(b.ps, vec![Point::new(0, 0)]);
}

#[test]
fn same_shape_ignores_offset_order() {
    // a square rotated a quarter turn lists the same offsets in another order
    let shape = vec![vec![true, true], vec![true, true]];
    let b = Block::from_shape(&shape).unwrap();
    let r = b.rotate();
    assert!(b.same_shape(&r));
    assert!(!b.same_shape(&l_block()));
}

#[test]
fn orientations_deduplicate_by_shape() {
    // the square has a single distinct orientation
    let square = Block::from_shape(&vec![vec![true, true], vec![true, true]]).unwrap();
    assert_eq!(square.orientations().len(), 1);

    // the domino has two: horizontal and vertical
    let domino = Block::from_shape(&vec![vec![true, true]]).unwrap();
    assert_eq!(domino.orientations().len(), 2);

    // the chiral L shape has all eight
    assert_eq!(l_block().orientations().len(), 8);
}

#[test]
fn catalog_holds_eight_pieces_covering_41_cells() {
    let blocks = catalog();
    assert_eq!(blocks.len(), 8);
    let total: usize = blocks.iter().map(|b| b.cell_count()).sum();
    assert_eq!(total, 41);
    assert_eq!(blocks[0].cell_count(), 6);
    for b in blocks.iter().skip(1) {
        assert_eq!(b.cell_count(), 5);
    }
}

#[test]
fn point_arithmetic() {
    let a = Point::new(2, -1);
    let b = Point::new(3, 4);
    assert_eq!(a.plus(&b), Point::new(5, 3));
    assert_eq!(b.minus(&a), Point::new(1, 5));
}
