//! The board: a fixed-size rectangular grid of cell states with atomic
//! block placement and removal, and row-major lookup of the first empty cell.

use vstd::prelude::*;

use crate::block::Block;
use crate::point::Point;

verus! {

/// The state of one board cell.
#[derive(Clone, Copy, Debug, PartialEq, Eq, Structural)]
pub enum State {
    /// Unoccupied, eligible for placement.
    Empty,
    /// Occupied by the piece placed with this identifier.
    Fill(usize),
    /// Permanently blocked; carries a display label.
    Wall(char),
}

impl State {
    pub fn is_fill(&self) -> (r: bool)
        ensures
            r == (self is Fill),
    {
        match self {
            State::Fill(_) => true,
            _ => false,
        }
    }
}

/// Everything that can go wrong while building pieces or searching.
#[derive(Clone, Copy, Debug, PartialEq, Eq, Structural)]
pub enum PuzzleError {
    /// A coordinate lies outside the grid extents.
    OutOfBounds,
    /// A put hit a non-empty cell (or the edge), or a remove hit a non-filled cell.
    Placement,
    /// A piece definition contains no occupied cells.
    Shape,
    /// Exhaustive search found no complete tiling.
    Unsolvable,
}

/// A rectangular grid of `State`, stored row-major in a flat vector.
#[derive(Debug)]
pub struct Board {
    pub height: usize,
    pub width: usize,
    pub cells: Vec<State>,
}

/// True when anchoring the offsets `bs` at `pos` makes some offset land on `(x, y)`.
pub open spec fn covers(pos: Point, bs: Seq<Point>, x: int, y: int) -> bool {
    exists|k: int| 0 <= k < bs.len() && pos.x + bs[k].x == x && pos.y + bs[k].y == y
}

/// As `covers`, restricted to the first `n` offsets.
spec fn covers_prefix(pos: Point, bs: Seq<Point>, n: int, x: int, y: int) -> bool {
    exists|k: int| 0 <= k < n && k < bs.len() && pos.x + bs[k].x == x && pos.y + bs[k].y == y
}

/// The state a cell ends in after marking each wall of `ws` in order (later
/// entries win); `Empty` where no wall lands.
pub open spec fn wall_state(ws: Seq<(char, Point)>, x: int, y: int) -> State
    decreases ws.len(),
{
    if ws.len() == 0 {
        State::Empty
    } else if ws.last().1.x == x && ws.last().1.y == y {
        State::Wall(ws.last().0)
    } else {
        wall_state(ws.drop_last(), x, y)
    }
}

/// How many cells of `g` are filled by some piece.
pub open spec fn count_fill(g: Seq<State>) -> int
    decreases g.len(),
{
    if g.len() == 0 {
        0
    } else {
        count_fill(g.drop_last()) + if g.last() is Fill {
            1int
        } else {
            0int
        }
    }
}

/// How many cells of `g` are walls.
pub open spec fn count_wall(g: Seq<State>) -> int
    decreases g.len(),
{
    if g.len() == 0 {
        0
    } else {
        count_wall(g.drop_last()) + if g.last() is Wall {
            1int
        } else {
            0int
        }
    }
}

/// How many cells of `g` are empty.
pub open spec fn count_empty(g: Seq<State>) -> int
    decreases g.len(),
{
    if g.len() == 0 {
        0
    } else {
        count_empty(g.drop_last()) + if g.last() is Empty {
            1int
        } else {
            0int
        }
    }
}

impl Board {
    /// Structural invariant: the flat vector holds exactly `height * width`
    /// cells, and both extents fit in a coordinate.
    pub open spec fn wf(self) -> bool {
        self.cells@.len() == self.height * self.width && self.height <= i32::MAX && self.width
            <= i32::MAX && self.height * self.width <= usize::MAX
    }

    pub open spec fn h(self) -> int {
        self.height as int
    }

    pub open spec fn w(self) -> int {
        self.width as int
    }

    /// The grid contents, row-major.
    pub open spec fn grid(self) -> Seq<State> {
        self.cells@
    }

    pub open spec fn in_bounds(self, x: int, y: int) -> bool {
        0 <= x < self.h() && 0 <= y < self.w()
    }

    /// The state of the cell in row `x`, column `y`.
    pub open spec fn cell(self, x: int, y: int) -> State {
        self.grid()[x * self.w() + y]
    }

    /// A put of `bs` anchored at `pos` succeeds exactly when every covered
    /// cell is in bounds and empty.
    pub open spec fn can_put(self, pos: Point, bs: Seq<Point>) -> bool {
        forall|k: int| #![auto] 0 <= k < bs.len() ==> self.in_bounds(pos.x + bs[k].x, pos.y + bs[k].y)
            && self.cell(pos.x + bs[k].x, pos.y + bs[k].y) == State::Empty
    }

    /// A remove of `bs` anchored at `pos` succeeds exactly when every covered
    /// cell is in bounds and filled.
    pub open spec fn can_remove(self, pos: Point, bs: Seq<Point>) -> bool {
        forall|k: int| #![auto] 0 <= k < bs.len() ==> self.in_bounds(pos.x + bs[k].x, pos.y + bs[k].y)
            && self.cell(pos.x + bs[k].x, pos.y + bs[k].y) is Fill
    }
}

proof fn lemma_flat_bounds(h: int, w: int, x: int, y: int)
    by (nonlinear_arith)
    requires
        0 <= x < h,
        0 <= y < w,
    ensures
        0 <= x * w + y < h * w,
{
}

proof fn lemma_flat_injective(w: int, x1: int, y1: int, x2: int, y2: int)
    by (nonlinear_arith)
    requires
        0 <= y1 < w,
        0 <= y2 < w,
        x1 * w + y1 == x2 * w + y2,
    ensures
        x1 == x2,
        y1 == y2,
{
}

proof fn lemma_flat_unflatten(h: int, w: int, n: int)
    by (nonlinear_arith)
    requires
        0 < w,
        0 <= n < h * w,
    ensures
        0 <= n / w < h,
        0 <= n % w < w,
        (n / w) * w + (n % w) == n,
{
}

/// Two well-formed boards of the same extents with pointwise equal cells have
/// equal grids.
pub proof fn lemma_grid_eq(a: Board, b: Board)
    requires
        a.wf(),
        b.wf(),
        a.h() == b.h(),
        a.w() == b.w(),
        forall|x: int, y: int| a.in_bounds(x, y) ==> a.cell(x, y) == b.cell(x, y),
    ensures
        a.grid() == b.grid(),
{
    assert(a.grid().len() == b.grid().len());
    assert forall|n: int| 0 <= n < a.grid().len() implies a.grid()[n] == b.grid()[n] by {
        lemma_flat_unflatten(a.h(), a.w(), n);
        let x = n / a.w();
        let y = n % a.w();
        assert(a.in_bounds(x, y));
        assert(a.cell(x, y) == b.cell(x, y));
    }
    assert(a.grid() =~= b.grid());
}

proof fn lemma_count_fill_update(g: Seq<State>, i: int, v: State)
    requires
        0 <= i < g.len(),
    ensures
        count_fill(g.update(i, v)) == count_fill(g) - (if g[i] is Fill {
            1int
        } else {
            0int
        }) + (if v is Fill {
            1int
        } else {
            0int
        }),
    decreases g.len(),
{
    let gu = g.update(i, v);
    if i == g.len() - 1 {
        assert(gu.drop_last() =~= g.drop_last());
    } else {
        assert(gu.drop_last() =~= g.drop_last().update(i, v));
        lemma_count_fill_update(g.drop_last(), i, v);
    }
}

impl Board {
    /// Builds an all-empty `height` by `width` grid, then marks each wall of
    /// `walls` in order. Every wall position must lie inside the grid.
    pub fn new_with_walls(height: usize, width: usize, walls: &[(char, Point)]) -> (b: Board)
        requires
            height <= i32::MAX,
            width <= i32::MAX,
            height * width <= usize::MAX,
            forall|k: int| 0 <= k < walls@.len() ==> 0 <= (#[trigger] walls@[k]).1.x < height
                && 0 <= walls@[k].1.y < width,
        ensures
            b.wf(),
            b.h() == height,
            b.w() == width,
            forall|x: int, y: int| b.in_bounds(x, y) ==> b.cell(x, y) == wall_state(
                walls@,
                x,
                y,
            ),
    {
        let total: usize = height * width;
        let cells: Vec<State> = vec![State::Empty; total];
        let mut b = Board { height, width, cells };
        proof {
            assert forall|x: int, y: int| b.in_bounds(x, y) implies b.cell(x, y) == wall_state(
                walls@.take(0),
                x,
                y,
            ) by {
                lemma_flat_bounds(b.h(), b.w(), x, y);
            }
        }
        let n = walls.len();
        for k in 0..n
            invariant
                n == walls@.len(),
                b.height == height,
                b.width == width,
                b.wf(),
                height <= i32::MAX,
                width <= i32::MAX,
                forall|j: int| 0 <= j < walls@.len() ==> 0 <= (#[trigger] walls@[j]).1.x < height
                    && 0 <= walls@[j].1.y < width,
                forall|x: int, y: int| b.in_bounds(x, y) ==> b.cell(x, y) == wall_state(
                    walls@.take(k as int),
                    x,
                    y,
                ),
        {
            let p = walls[k].1;
            let wx = p.x as usize;
            let wy = p.y as usize;
            proof {
                lemma_flat_bounds(height as int, width as int, wx as int, wy as int);
            }
            let idx: usize = wx * width + wy;
            let ghost prev = b;
            b.cells[idx] = State::Wall(walls[k].0);
            proof {
                assert(walls@.take(k + 1).drop_last() =~= walls@.take(k as int));
                assert(walls@.take(k + 1).last() == walls@[k as int]);
                assert forall|x: int, y: int| b.in_bounds(x, y) implies b.cell(x, y) == wall_state(
                    walls@.take(k + 1),
                    x,
                    y,
                ) by {
                    if x * b.w() + y == idx {
                        lemma_flat_injective(b.w(), x, y, wx as int, wy as int);
                        assert(b.cell(x, y) == State::Wall(walls@[k as int].0));
                    } else {
                        lemma_flat_bounds(b.h(), b.w(), x, y);
                        assert(b.cell(x, y) == prev.cell(x, y));
                        assert(!(x == wx as int && y == wy as int));
                    }
                }
            }
        }
        proof {
            assert(walls@.take(n as int) =~= walls@);
        }
        b
    }

    pub fn height(&self) -> (r: usize)
        ensures
            r == self.h(),
    {
        self.height
    }

    pub fn width(&self) -> (r: usize)
        ensures
            r == self.w(),
    {
        self.width
    }

    /// A cell-for-cell copy of the board, with the same extents.
    pub fn duplicate(&self) -> (r: Board)
        requires
            self.wf(),
        ensures
            r.wf(),
            same_board(r, *self),
    {
        let n = self.cells.len();
        let mut cells: Vec<State> = Vec::new();
        for k in 0..n
            invariant
                n == self.cells@.len(),
                cells@.len() == k,
                forall|j: int| 0 <= j < k ==> #[trigger] cells@[j] == self.cells@[j],
        {
            cells.push(self.cells[k]);
        }
        proof {
            assert(cells@ =~= self.cells@);
        }
        Board { height: self.height, width: self.width, cells }
    }

    /// The state of the cell at `p`; `OutOfBounds` when `p` lies outside the grid.
    pub fn get_cell(&self, p: &Point) -> (r: Result<State, PuzzleError>)
        requires
            self.wf(),
        ensures
            r is Ok <==> self.in_bounds(p.x as int, p.y as int),
            r is Ok ==> r == Ok::<State, PuzzleError>(self.cell(p.x as int, p.y as int)),
            r is Err ==> r == Err::<State, PuzzleError>(PuzzleError::OutOfBounds),
    {
        if !(0 <= p.x && (p.x as usize) < self.height && 0 <= p.y && (p.y as usize)
            < self.width) {
            return Err(PuzzleError::OutOfBounds);
        }
        proof {
            lemma_flat_bounds(self.h(), self.w(), p.x as int, p.y as int);
        }
        let idx: usize = (p.x as usize) * self.width + (p.y as usize);
        Ok(self.cells[idx])
    }

    /// Atomically fills every cell covered by `block` anchored at `pos` with
    /// `Fill(block_id)`. Fails, leaving the board untouched, unless every
    /// covered cell is in bounds and empty.
    pub fn put_block(&mut self, pos: &Point, block_id: usize, block: &Block) -> (r: Result<
        (),
        PuzzleError,
    >)
        requires
            old(self).wf(),
            block.wf(),
        ensures
            final(self).wf(),
            final(self).h() == old(self).h(),
            final(self).w() == old(self).w(),
            r is Ok <==> old(self).can_put(*pos, block@),
            r is Err ==> *final(self) == *old(self) && r == Err::<(), PuzzleError>(
                PuzzleError::Placement,
            ),
            r is Ok ==> forall|x: int, y: int|
                final(self).in_bounds(x, y) ==> final(self).cell(x, y) == (if covers(
                    *pos,
                    block@,
                    x,
                    y,
                ) {
                    State::Fill(block_id)
                } else {
                    old(self).cell(x, y)
                }),
            r is Ok ==> count_fill(final(self).grid()) == count_fill(old(self).grid())
                + block@.len(),
    {
        let ghost b0 = *self;
        let h = self.height;
        let w = self.width;
        let n = block.ps.len();
        for k in 0..n
            invariant
                *self == b0,
                b0.wf(),
                block.wf(),
                n == block@.len(),
                h == b0.height,
                w == b0.width,
                forall|j: int| #![auto] 0 <= j < k ==> b0.in_bounds(
                    pos.x + block@[j].x,
                    pos.y + block@[j].y,
                ) && b0.cell(pos.x + block@[j].x, pos.y + block@[j].y) == State::Empty,
        {
            let off = &block.ps[k];
            let cx: i64 = pos.x as i64 + off.x as i64;
            let cy: i64 = pos.y as i64 + off.y as i64;
            if !(0 <= cx && cx < h as i64 && 0 <= cy && cy < w as i64) {
                proof {
                    assert(!b0.can_put(*pos, block@));
                }
                return Err(PuzzleError::Placement);
            }
            proof {
                lemma_flat_bounds(h as int, w as int, cx as int, cy as int);
            }
            let idx: usize = (cx as usize) * w + (cy as usize);
            if self.cells[idx] != State::Empty {
                proof {
                    assert(b0.cell(cx as int, cy as int) != State::Empty);
                    assert(!b0.can_put(*pos, block@));
                }
                return Err(PuzzleError::Placement);
            }
        }
        assert(b0.can_put(*pos, block@));
        for k in 0..n
            invariant
                b0.wf(),
                block.wf(),
                n == block@.len(),
                h == b0.height,
                w == b0.width,
                self.height == b0.height,
                self.width == b0.width,
                self.wf(),
                b0.can_put(*pos, block@),
                count_fill(self.cells@) == count_fill(b0.cells@) + k,
                forall|x: int, y: int| b0.in_bounds(x, y) ==> self.cell(x, y) == (if covers_prefix(
                    *pos,
                    block@,
                    k as int,
                    x,
                    y,
                ) {
                    State::Fill(block_id)
                } else {
                    b0.cell(x, y)
                }),
        {
            let off = &block.ps[k];
            proof {
                assert(b0.in_bounds(pos.x + block@[k as int].x, pos.y + block@[k as int].y));
            }
            let cx: i64 = pos.x as i64 + off.x as i64;
            let cy: i64 = pos.y as i64 + off.y as i64;
            proof {
                lemma_flat_bounds(h as int, w as int, cx as int, cy as int);
            }
            let idx: usize = (cx as usize) * w + (cy as usize);
            let ghost prev = *self;
            proof {
                // No earlier offset lands on this cell: the offsets are distinct.
                assert(!covers_prefix(*pos, block@, k as int, cx as int, cy as int)) by {
                    if covers_prefix(*pos, block@, k as int, cx as int, cy as int) {
                        let j = choose|j: int|
                            0 <= j < k && j < block@.len() && pos.x + block@[j].x == cx as int
                                && pos.y + block@[j].y == cy as int;
                        assert(block@[j].x == block@[k as int].x);
                        assert(block@[j].y == block@[k as int].y);
                        assert(block@[j] == block@[k as int]);
                    }
                }
                assert(prev.cell(cx as int, cy as int) == b0.cell(cx as int, cy as int));
                assert(prev.cells@[idx as int] == State::Empty);
                lemma_count_fill_update(prev.cells@, idx as int, State::Fill(block_id));
            }
            self.cells[idx] = State::Fill(block_id);
            proof {
                assert forall|x: int, y: int| b0.in_bounds(x, y) implies self.cell(x, y) == (
                if covers_prefix(*pos, block@, k + 1, x, y) {
                    State::Fill(block_id)
                } else {
                    b0.cell(x, y)
                }) by {
                    if x * b0.w() + y == idx {
                        lemma_flat_injective(b0.w(), x, y, cx as int, cy as int);
                        assert(covers_prefix(*pos, block@, k + 1, x, y));
                    } else {
                        lemma_flat_bounds(b0.h(), b0.w(), x, y);
                        assert(self.cell(x, y) == prev.cell(x, y));
                        if covers_prefix(*pos, block@, k + 1, x, y) && !covers_prefix(
                            *pos,
                            block@,
                            k as int,
                            x,
                            y,
                        ) {
                            let j = choose|j: int|
                                0 <= j < k + 1 && j < block@.len() && pos.x + block@[j].x == x
                                    && pos.y + block@[j].y == y;
                            assert(j == k as int);
                            assert(x == cx as int && y == cy as int);
                            lemma_flat_bounds(b0.h(), b0.w(), x, y);
                        }
                    }
                }
            }
        }
        proof {
            assert forall|x: int, y: int| self.in_bounds(x, y) implies self.cell(x, y) == (
            if covers(*pos, block@, x, y) {
                State::Fill(block_id)
            } else {
                b0.cell(x, y)
            }) by {
                assert(b0.in_bounds(x, y));
                if covers(*pos, block@, x, y) {
                    let j = choose|j: int|
                        0 <= j < block@.len() && pos.x + block@[j].x == x && pos.y + block@[j].y
                            == y;
                    assert(covers_prefix(*pos, block@, n as int, x, y));
                }
                if covers_prefix(*pos, block@, n as int, x, y) {
                    let j = choose|j: int|
                        0 <= j < n && j < block@.len() && pos.x + block@[j].x == x && pos.y
                            + block@[j].y == y;
                    assert(covers(*pos, block@, x, y));
                }
            }
        }
        Ok(())
    }

    /// Resets every cell covered by `block` anchored at `pos` to `Empty`.
    /// Fails, leaving the board untouched, unless every covered cell is in
    /// bounds and currently filled. The exact inverse of a successful put of
    /// the same block at the same anchor.
    pub fn remove_block(&mut self, pos: &Point, block: &Block) -> (r: Result<(), PuzzleError>)
        requires
            old(self).wf(),
            block.wf(),
        ensures
            final(self).wf(),
            final(self).h() == old(self).h(),
            final(self).w() == old(self).w(),
            r is Ok <==> old(self).can_remove(*pos, block@),
            r is Err ==> *final(self) == *old(self) && r == Err::<(), PuzzleError>(
                PuzzleError::Placement,
            ),
            r is Ok ==> forall|x: int, y: int|
                final(self).in_bounds(x, y) ==> final(self).cell(x, y) == (if covers(
                    *pos,
                    block@,
                    x,
                    y,
                ) {
                    State::Empty
                } else {
                    old(self).cell(x, y)
                }),
            r is Ok ==> count_fill(final(self).grid()) == count_fill(old(self).grid())
                - block@.len(),
    {
        let ghost b0 = *self;
        let h = self.height;
        let w = self.width;
        let n = block.ps.len();
        for k in 0..n
            invariant
                *self == b0,
                b0.wf(),
                block.wf(),
                n == block@.len(),
                h == b0.height,
                w == b0.width,
                forall|j: int| #![auto] 0 <= j < k ==> b0.in_bounds(
                    pos.x + block@[j].x,
                    pos.y + block@[j].y,
                ) && b0.cell(pos.x + block@[j].x, pos.y + block@[j].y) is Fill,
        {
            let off = &block.ps[k];
            let cx: i64 = pos.x as i64 + off.x as i64;
            let cy: i64 = pos.y as i64 + off.y as i64;
            if !(0 <= cx && cx < h as i64 && 0 <= cy && cy < w as i64) {
                proof {
                    assert(!b0.can_remove(*pos, block@));
                }
                return Err(PuzzleError::Placement);
            }
            proof {
                lemma_flat_bounds(h as int, w as int, cx as int, cy as int);
            }
            let idx: usize = (cx as usize) * w + (cy as usize);
            if !self.cells[idx].is_fill() {
                proof {
                    assert(!(b0.cell(cx as int, cy as int) is Fill));
                    assert(!b0.can_remove(*pos, block@));
                }
                return Err(PuzzleError::Placement);
            }
        }
        assert(b0.can_remove(*pos, block@));
        for k in 0..n
            invariant
                b0.wf(),
                block.wf(),
                n == block@.len(),
                h == b0.height,
                w == b0.width,
                self.height == b0.height,
                self.width == b0.width,
                self.wf(),
                b0.can_remove(*pos, block@),
                count_fill(self.cells@) == count_fill(b0.cells@) - k,
                forall|x: int, y: int| b0.in_bounds(x, y) ==> self.cell(x, y) == (if covers_prefix(
                    *pos,
                    block@,
                    k as int,
                    x,
                    y,
                ) {
                    State::Empty
                } else {
                    b0.cell(x, y)
                }),
        {
            let off = &block.ps[k];
            proof {
                assert(b0.in_bounds(pos.x + block@[k as int].x, pos.y + block@[k as int].y));
            }
            let cx: i64 = pos.x as i64 + off.x as i64;
            let cy: i64 = pos.y as i64 + off.y as i64;
            proof {
                lemma_flat_bounds(h as int, w as int, cx as int, cy as int);
            }
            let idx: usize = (cx as usize) * w + (cy as usize);
            let ghost prev = *self;
            proof {
                assert(!covers_prefix(*pos, block@, k as int, cx as int, cy as int)) by {
                    if covers_prefix(*pos, block@, k as int, cx as int, cy as int) {
                        let j = choose|j: int|
                            0 <= j < k && j < block@.len() && pos.x + block@[j].x == cx as int
                                && pos.y + block@[j].y == cy as int;
                        assert(block@[j].x == block@[k as int].x);
                        assert(block@[j].y == block@[k as int].y);
                        assert(block@[j] == block@[k as int]);
                    }
                }
                assert(prev.cell(cx as int, cy as int) == b0.cell(cx as int, cy as int));
                assert(prev.cells@[idx as int] is Fill);
                lemma_count_fill_update(prev.cells@, idx as int, State::Empty);
            }
            self.cells[idx] = State::Empty;
            proof {
                assert forall|x: int, y: int| b0.in_bounds(x, y) implies self.cell(x, y) == (
                if covers_prefix(*pos, block@, k + 1, x, y) {
                    State::Empty
                } else {
                    b0.cell(x, y)
                }) by {
                    if x * b0.w() + y == idx {
                        lemma_flat_injective(b0.w(), x, y, cx as int, cy as int);
                        assert(covers_prefix(*pos, block@, k + 1, x, y));
                    } else {
                        lemma_flat_bounds(b0.h(), b0.w(), x, y);
                        assert(self.cell(x, y) == prev.cell(x, y));
                        if covers_prefix(*pos, block@, k + 1, x, y) && !covers_prefix(
                            *pos,
                            block@,
                            k as int,
                            x,
                            y,
                        ) {
                            let j = choose|j: int|
                                0 <= j < k + 1 && j < block@.len() && pos.x + block@[j].x == x
                                    && pos.y + block@[j].y == y;
                            assert(j == k as int);
                            assert(x == cx as int && y == cy as int);
                            lemma_flat_bounds(b0.h(), b0.w(), x, y);
                        }
                    }
                }
            }
        }
        proof {
            assert forall|x: int, y: int| self.in_bounds(x, y) implies self.cell(x, y) == (
            if covers(*pos, block@, x, y) {
                State::Empty
            } else {
                b0.cell(x, y)
            }) by {
                assert(b0.in_bounds(x, y));
                if covers(*pos, block@, x, y) {
                    let j = choose|j: int|
                        0 <= j < block@.len() && pos.x + block@[j].x == x && pos.y + block@[j].y
                            == y;
                    assert(covers_prefix(*pos, block@, n as int, x, y));
                }
                if covers_prefix(*pos, block@, n as int, x, y) {
                    let j = choose|j: int|
                        0 <= j < n && j < block@.len() && pos.x + block@[j].x == x && pos.y
                            + block@[j].y == y;
                    assert(covers(*pos, block@, x, y));
                }
            }
        }
        Ok(())
    }

    /// Scans row-major (top to bottom, left to right) and returns the first
    /// empty cell, or `None` when the board is fully covered.
    pub fn first_empty_cell(&self) -> (r: Option<Point>)
        requires
            self.wf(),
        ensures
            r is None <==> (forall|x: int, y: int|
                self.in_bounds(x, y) ==> self.cell(x, y) != State::Empty),
            r matches Some(p) ==> self.in_bounds(p.x as int, p.y as int) && self.cell(
                p.x as int,
                p.y as int,
            ) == State::Empty && (forall|x: int, y: int|
                self.in_bounds(x, y) && (x < p.x || (x == p.x && y < p.y)) ==> self.cell(x, y)
                    != State::Empty),
    {
        let h = self.height;
        let w = self.width;
        let mut i: usize = 0;
        while i < h
            invariant
                self.wf(),
                h == self.height,
                w == self.width,
                i <= h,
                forall|x: int, y: int| self.in_bounds(x, y) && x < i ==> self.cell(x, y)
                    != State::Empty,
            decreases h - i,
        {
            let mut j: usize = 0;
            while j < w
                invariant
                    self.wf(),
                    h == self.height,
                    w == self.width,
                    i < h,
                    j <= w,
                    forall|x: int, y: int| self.in_bounds(x, y) && x < i ==> self.cell(x, y)
                        != State::Empty,
                    forall|y: int| 0 <= y < j ==> self.cell(i as int, y) != State::Empty,
                decreases w - j,
            {
                proof {
                    lemma_flat_bounds(self.h(), self.w(), i as int, j as int);
                }
                let idx: usize = i * w + j;
                if self.cells[idx] == State::Empty {
                    return Some(Point { x: i as i32, y: j as i32 });
                }
                j = j + 1;
            }
            i = i + 1;
        }
        None
    }
}

/// Law: a successful put followed by a remove of the same block at the same
/// anchor restores the grid exactly. `b1` relates to `b0` as `put_block`'s
/// contract describes, and `b2` to `b1` as `remove_block`'s does.
pub proof fn lemma_put_remove_restores(
    b0: Board,
    b1: Board,
    b2: Board,
    pos: Point,
    bs: Seq<Point>,
    id: usize,
)
    requires
        b0.wf(),
        b1.wf(),
        b2.wf(),
        b0.can_put(pos, bs),
        b1.h() == b0.h(),
        b1.w() == b0.w(),
        forall|x: int, y: int| b1.in_bounds(x, y) ==> b1.cell(x, y) == (if covers(pos, bs, x, y) {
            State::Fill(id)
        } else {
            b0.cell(x, y)
        }),
        b2.h() == b1.h(),
        b2.w() == b1.w(),
        forall|x: int, y: int| b2.in_bounds(x, y) ==> b2.cell(x, y) == (if covers(pos, bs, x, y) {
            State::Empty
        } else {
            b1.cell(x, y)
        }),
    ensures
        b2.grid() == b0.grid(),
{
    assert forall|x: int, y: int| b2.in_bounds(x, y) implies b2.cell(x, y) == b0.cell(x, y) by {
        if covers(pos, bs, x, y) {
            let k = choose|k: int|
                0 <= k < bs.len() && pos.x + bs[k].x == x && pos.y + bs[k].y == y;
            assert(b0.cell(x, y) == State::Empty);
        }
    }
    lemma_grid_eq(b2, b0);
}

/// Two boards with the same extents and the same grid contents.
pub open spec fn same_board(a: Board, b: Board) -> bool {
    a.height == b.height && a.width == b.width && a.grid() == b.grid()
}

proof fn lemma_counts_partition(g: Seq<State>)
    ensures
        count_fill(g) + count_wall(g) + count_empty(g) == g.len(),
    decreases g.len(),
{
    if g.len() > 0 {
        lemma_counts_partition(g.drop_last());
    }
}

proof fn lemma_count_empty_zero(g: Seq<State>)
    requires
        forall|n: int| 0 <= n < g.len() ==> #[trigger] g[n] != State::Empty,
    ensures
        count_empty(g) == 0,
    decreases g.len(),
{
    if g.len() > 0 {
        assert forall|n: int| 0 <= n < g.drop_last().len() implies #[trigger] g.drop_last()[n]
            != State::Empty by {
            assert(g.drop_last()[n] == g[n]);
        }
        lemma_count_empty_zero(g.drop_last());
    }
}

/// Law: on a board with no empty cell, the cells filled by pieces are exactly
/// those that are not walls, so their count is the area minus the wall count.
pub proof fn lemma_full_board_fill_count(b: Board)
    requires
        b.wf(),
        forall|x: int, y: int| b.in_bounds(x, y) ==> b.cell(x, y) != State::Empty,
    ensures
        count_fill(b.grid()) == b.h() * b.w() - count_wall(b.grid()),
{
    lemma_counts_partition(b.grid());
    if b.grid().len() == 0 {
        assert(count_empty(b.grid()) == 0);
    } else {
        assert(b.w() > 0) by {
            if b.width == 0 {
                assert(b.height * b.width == 0);
            }
        }
        assert forall|n: int| 0 <= n < b.grid().len() implies #[trigger] b.grid()[n]
            != State::Empty by {
            lemma_flat_unflatten(b.h(), b.w(), n);
            let x = n / b.w();
            let y = n % b.w();
            assert(b.in_bounds(x, y));
            assert(b.cell(x, y) == b.grid()[n]);
        }
        lemma_count_empty_zero(b.grid());
    }
}

} // verus!
