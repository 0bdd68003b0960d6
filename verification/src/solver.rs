//! The search engine: recursive backtracking that covers every empty cell of
//! a board with the available blocks, each usable once in any orientation.

use vstd::prelude::*;

use crate::block::{orientation_variants, Block};
use crate::board::{count_fill, covers, same_board, Board, PuzzleError, State};
use crate::point::Point;

verus! {

/// The terminal output of a successful search: ownership of the fully
/// filled board, and which pieces of the given collection were placed.
pub struct Solution {
    pub board: Board,
    pub used: Vec<bool>,
}

/// No cell of `b` is empty.
pub open spec fn full(b: Board) -> bool {
    forall|x: int, y: int| b.in_bounds(x, y) ==> b.cell(x, y) != State::Empty
}

/// `b1` is a completed version of `b0`: the same extents, every cell that
/// was not empty (walls and earlier fills) is unchanged, and every cell that
/// was empty is now filled by some piece.
pub open spec fn solved_from(b0: Board, b1: Board) -> bool {
    b1.h() == b0.h() && b1.w() == b0.w() && (forall|x: int, y: int|
        b0.in_bounds(x, y) && (#[trigger] b0.cell(x, y)) == State::Empty ==> (#[trigger] b1.cell(
            x,
            y,
        )) is Fill) && (forall|x: int, y: int|
        b0.in_bounds(x, y) && (#[trigger] b0.cell(x, y)) != State::Empty ==> b1.cell(x, y)
            == b0.cell(x, y))
}

/// Law: a completed board has no empty cell left.
pub proof fn lemma_solved_is_full(b0: Board, b1: Board)
    requires
        solved_from(b0, b1),
    ensures
        full(b1),
{
    assert forall|x: int, y: int| b1.in_bounds(x, y) implies b1.cell(x, y) != State::Empty by {
        assert(b0.in_bounds(x, y));
        if b0.cell(x, y) == State::Empty {
            assert(b1.cell(x, y) is Fill);
        } else {
            assert(b1.cell(x, y) == b0.cell(x, y));
        }
    }
}

/// Law: a completed board leaves every wall cell exactly as it was.
pub proof fn lemma_walls_preserved(b0: Board, b1: Board)
    requires
        solved_from(b0, b1),
    ensures
        forall|x: int, y: int| b0.in_bounds(x, y) && (#[trigger] b0.cell(x, y)) is Wall
            ==> b1.cell(x, y) == b0.cell(x, y),
{
}

/// The piece-set in which nothing has been used yet.
pub open spec fn no_pieces_used(n: int) -> Seq<bool> {
    Seq::new(n as nat, |i: int| false)
}

/// The total cell count of the pieces marked used in `after` but not in
/// `before`.
pub open spec fn placed_cells(blocks: Seq<Block>, before: Seq<bool>, after: Seq<bool>) -> int
    decreases blocks.len(),
{
    if blocks.len() == 0 {
        0
    } else {
        placed_cells(blocks.drop_last(), before.drop_last(), after.drop_last()) + (
        if !before.last() && after.last() {
            blocks.last()@.len() as int
        } else {
            0int
        })
    }
}

proof fn lemma_placed_cells_refl(blocks: Seq<Block>, u: Seq<bool>)
    ensures
        placed_cells(blocks, u, u) == 0,
    decreases blocks.len(),
{
    if blocks.len() > 0 {
        lemma_placed_cells_refl(blocks.drop_last(), u.drop_last());
    }
}

proof fn lemma_placed_cells_step(blocks: Seq<Block>, u0: Seq<bool>, u1: Seq<bool>, i: int)
    requires
        blocks.len() == u0.len(),
        blocks.len() == u1.len(),
        0 <= i < blocks.len(),
        !u0[i],
        u1[i],
    ensures
        placed_cells(blocks, u0, u1) == blocks[i]@.len() + placed_cells(
            blocks,
            u0.update(i, true),
            u1,
        ),
    decreases blocks.len(),
{
    let n = blocks.len() - 1;
    let u0u = u0.update(i, true);
    if i == n {
        assert(u0u.drop_last() =~= u0.drop_last());
    } else {
        assert(u0u.drop_last() =~= u0.drop_last().update(i, true));
        assert(u0u.last() == u0.last());
        lemma_placed_cells_step(blocks.drop_last(), u0.drop_last(), u1.drop_last(), i);
    }
}

/// How many pieces are still unused.
spec fn count_unused(s: Seq<bool>) -> int
    decreases s.len(),
{
    if s.len() == 0 {
        0
    } else {
        count_unused(s.drop_last()) + if s.last() {
            0int
        } else {
            1int
        }
    }
}

proof fn lemma_count_unused_nonneg(s: Seq<bool>)
    ensures
        count_unused(s) >= 0,
    decreases s.len(),
{
    if s.len() > 0 {
        lemma_count_unused_nonneg(s.drop_last());
    }
}

proof fn lemma_count_unused_update(s: Seq<bool>, i: int)
    requires
        0 <= i < s.len(),
        !s[i],
    ensures
        count_unused(s.update(i, true)) == count_unused(s) - 1,
    decreases s.len(),
{
    let su = s.update(i, true);
    if i == s.len() - 1 {
        assert(su.drop_last() =~= s.drop_last());
    } else {
        assert(su.drop_last() =~= s.drop_last().update(i, true));
        lemma_count_unused_update(s.drop_last(), i);
    }
}

proof fn lemma_count_unused_all_false(s: Seq<bool>)
    requires
        forall|i: int| 0 <= i < s.len() ==> !(#[trigger] s[i]),
    ensures
        count_unused(s) == s.len(),
    decreases s.len(),
{
    if s.len() > 0 {
        assert forall|i: int| 0 <= i < s.drop_last().len() implies !(
        #[trigger] s.drop_last()[i]) by {
            assert(s.drop_last()[i] == s[i]);
        }
        lemma_count_unused_all_false(s.drop_last());
    }
}

/// A completed extension of a board reached by one placement is a completed
/// extension of the board before that placement.
proof fn lemma_solved_compose(b0: Board, b1: Board, b2: Board, pos: Point, bs: Seq<Point>, id: usize)
    requires
        b0.wf(),
        b1.wf(),
        b0.can_put(pos, bs),
        b1.h() == b0.h(),
        b1.w() == b0.w(),
        forall|x: int, y: int| b1.in_bounds(x, y) ==> b1.cell(x, y) == (if covers(pos, bs, x, y) {
            State::Fill(id)
        } else {
            b0.cell(x, y)
        }),
        solved_from(b1, b2),
    ensures
        solved_from(b0, b2),
{
    assert forall|x: int, y: int|
        b0.in_bounds(x, y) implies ((#[trigger] b0.cell(x, y)) == State::Empty ==> b2.cell(x, y)
            is Fill) && (b0.cell(x, y) != State::Empty ==> b2.cell(x, y) == b0.cell(x, y)) by {
        assert(b1.in_bounds(x, y));
        if covers(pos, bs, x, y) {
            let k = choose|k: int|
                0 <= k < bs.len() && pos.x + bs[k].x == x && pos.y + bs[k].y == y;
            assert(b0.cell(x, y) == State::Empty);
            assert(b1.cell(x, y) == State::Fill(id));
            assert(b2.cell(x, y) == b1.cell(x, y));
        } else {
            assert(b1.cell(x, y) == b0.cell(x, y));
            if b0.cell(x, y) == State::Empty {
                assert(b2.cell(x, y) is Fill);
            } else {
                assert(b2.cell(x, y) == b1.cell(x, y));
            }
        }
    }
}

/// Completion is stated over extents and grid contents only, so it carries
/// over between boards with the same grid.
proof fn lemma_same_board_solved(a: Board, b: Board, c: Board)
    requires
        same_board(a, b),
        solved_from(a, c),
    ensures
        solved_from(b, c),
{
    assert forall|x: int, y: int|
        b.in_bounds(x, y) implies ((#[trigger] b.cell(x, y)) == State::Empty ==> c.cell(x, y)
            is Fill) && (b.cell(x, y) != State::Empty ==> c.cell(x, y) == b.cell(x, y)) by {
        assert(a.in_bounds(x, y));
        assert(a.cell(x, y) == b.cell(x, y));
    }
}

/// The coordinates of the empty cells of a board.
pub open spec fn empty_cells(b: Board) -> Set<(int, int)> {
    Set::new(|p: (int, int)| b.in_bounds(p.0, p.1) && b.cell(p.0, p.1) == State::Empty)
}

/// The cells that the offsets `bs`, anchored at row `ax` and column `ay`,
/// cover.
pub open spec fn footprint(ax: int, ay: int, bs: Seq<Point>) -> Set<(int, int)> {
    Set::new(
        |p: (int, int)|
            exists|k: int|
                0 <= k < bs.len() && ax + (#[trigger] bs[k]).x == p.0 && ay + bs[k].y == p.1,
    )
}

/// `bs` lists, in some order, one of the eight orientation variants of the
/// shape `b`.
pub open spec fn is_orientation_of(bs: Seq<Point>, b: Seq<Point>) -> bool {
    exists|j: int| 0 <= j < 8 && bs.to_set() == (#[trigger] orientation_variants(b)[j]).to_set()
}

/// `pl` is a legal tiling of the cell set `e`: one entry per piece saying
/// whether it is placed and, if so, at which anchor and in which orientation
/// of that piece; no piece marked used may be placed; every placement sits
/// inside `e`; placements are pairwise disjoint; and together they cover all
/// of `e`.
#[verifier::opaque]
pub open spec fn placements_ok(
    blocks: Seq<Block>,
    used: Seq<bool>,
    pl: Seq<(bool, int, int, Seq<Point>)>,
    e: Set<(int, int)>,
) -> bool {
    &&& pl.len() == blocks.len()
    &&& used.len() == blocks.len()
    &&& forall|i: int| 0 <= i < pl.len() && used[i] ==> !(#[trigger] pl[i]).0
    &&& forall|i: int|
        0 <= i < pl.len() && (#[trigger] pl[i]).0 ==> is_orientation_of(pl[i].3, blocks[i]@)
            && footprint(pl[i].1, pl[i].2, pl[i].3).subset_of(e)
    &&& forall|i1: int, i2: int|
        0 <= i1 < i2 < pl.len() && (#[trigger] pl[i1]).0 && (#[trigger] pl[i2]).0 ==> footprint(
            pl[i1].1,
            pl[i1].2,
            pl[i1].3,
        ).disjoint(footprint(pl[i2].1, pl[i2].2, pl[i2].3))
    &&& forall|p: (int, int)| #[trigger] e.contains(p) ==> exists|i: int|
        0 <= i < pl.len() && (#[trigger] pl[i]).0 && footprint(pl[i].1, pl[i].2, pl[i].3).contains(
            p,
        )
}

/// The cell set `e` can be tiled exactly by the pieces not yet used.
#[verifier::opaque]
pub open spec fn tileable(e: Set<(int, int)>, blocks: Seq<Block>, used: Seq<bool>) -> bool {
    exists|pl: Seq<(bool, int, int, Seq<Point>)>| placements_ok(blocks, used, pl, e)
}

/// `b1` is `b0` with a legal tiling painted on: some placement assignment of
/// the pieces covers exactly the empty cells of `b0`, and `b1` holds the
/// placing piece's identifier on each covered cell and `b0`'s state
/// elsewhere.
#[verifier::opaque]
pub open spec fn tiled_into(b0: Board, blocks: Seq<Block>, b1: Board) -> bool {
    exists|pl: Seq<(bool, int, int, Seq<Point>)>|
        placements_ok(blocks, no_pieces_used(blocks.len() as int), pl, empty_cells(b0)) && painted(
            b0,
            pl,
            b1,
        )
}

/// Some assignment of the pieces covers every empty cell of the board.
pub open spec fn solvable(b: Board, blocks: Seq<Block>) -> bool {
    tileable(empty_cells(b), blocks, no_pieces_used(blocks.len() as int))
}

/// `b1` is `b0` with the placements of `pl` painted on: every covered cell
/// holds the identifier of the piece covering it, every other cell is
/// unchanged.
#[verifier::opaque]
pub open spec fn painted(b0: Board, pl: Seq<(bool, int, int, Seq<Point>)>, b1: Board) -> bool {
    &&& b1.h() == b0.h()
    &&& b1.w() == b0.w()
    &&& forall|x: int, y: int, i: int|
        b0.in_bounds(x, y) && 0 <= i < pl.len() && pl[i].0 && #[trigger] footprint(
            pl[i].1,
            pl[i].2,
            pl[i].3,
        ).contains((x, y)) ==> b1.cell(x, y) == State::Fill(i as usize)
    &&& forall|x: int, y: int|
        b0.in_bounds(x, y) && !(exists|i: int|
            0 <= i < pl.len() && (#[trigger] pl[i]).0 && footprint(
                pl[i].1,
                pl[i].2,
                pl[i].3,
            ).contains((x, y))) ==> (#[trigger] b1.cell(x, y)) == b0.cell(x, y)
}

/// The generated orientation list matches the eight variants of shape `b`:
/// each entry is one variant verbatim, and each variant is represented up to
/// offset-set equality.
spec fn os_matches_variants(os: Seq<Block>, b: Seq<Point>) -> bool {
    (forall|t: int| 0 <= t < os.len() ==> exists|j: int|
        0 <= j < 8 && (#[trigger] os[t])@ == orientation_variants(b)[j]) && (forall|j: int|
        0 <= j < 8 ==> exists|t: int|
            0 <= t < os.len() && os[t]@.to_set() == (#[trigger] orientation_variants(
                b,
            )[j]).to_set())
}

/// Anchoring `bs` at `(ax, ay)` leads to no tiling: either it does not fit
/// on free cells, or what remains cannot be tiled by the remaining pieces.
#[verifier::opaque]
spec fn candidate_fails(
    e: Set<(int, int)>,
    blocks: Seq<Block>,
    used: Seq<bool>,
    i: int,
    bs: Seq<Point>,
    ax: int,
    ay: int,
) -> bool {
    footprint(ax, ay, bs).subset_of(e) ==> !tileable(
        e.difference(footprint(ax, ay, bs)),
        blocks,
        used.update(i, true),
    )
}

/// Every orientation of piece `i`, anchored so that one of its offsets lands
/// on the cell `(cx, cy)`, fails.
#[verifier::opaque]
spec fn piece_fails(
    e: Set<(int, int)>,
    blocks: Seq<Block>,
    used: Seq<bool>,
    cx: int,
    cy: int,
    i: int,
) -> bool {
    forall|j: int, m: int|
        0 <= j < 8 && 0 <= m < orientation_variants(blocks[i]@)[j].len() ==> candidate_fails(
            e,
            blocks,
            used,
            i,
            orientation_variants(blocks[i]@)[j],
            cx - (#[trigger] orientation_variants(blocks[i]@)[j][m]).x,
            cy - orientation_variants(blocks[i]@)[j][m].y,
        )
}

proof fn lemma_same_board_empty_cells(a: Board, b: Board)
    requires
        same_board(a, b),
    ensures
        empty_cells(a) == empty_cells(b),
{
    assert forall|p: (int, int)|
        empty_cells(a).contains(p) == empty_cells(b).contains(p) by {
        assert(a.in_bounds(p.0, p.1) == b.in_bounds(p.0, p.1));
        if a.in_bounds(p.0, p.1) {
            assert(a.cell(p.0, p.1) == b.cell(p.0, p.1));
        }
    }
    assert(empty_cells(a) =~= empty_cells(b));
}

proof fn lemma_same_board_painted(
    a: Board,
    b: Board,
    pl: Seq<(bool, int, int, Seq<Point>)>,
    c: Board,
)
    requires
        same_board(a, b),
        painted(a, pl, c),
    ensures
        painted(b, pl, c),
{
    reveal(painted);
    assert forall|x: int, y: int, i: int|
        b.in_bounds(x, y) && 0 <= i < pl.len() && pl[i].0 && #[trigger] footprint(
            pl[i].1,
            pl[i].2,
            pl[i].3,
        ).contains((x, y)) implies c.cell(x, y) == State::Fill(i as usize) by {
        assert(a.in_bounds(x, y));
    }
    assert forall|x: int, y: int|
        b.in_bounds(x, y) && !(exists|i: int|
            0 <= i < pl.len() && (#[trigger] pl[i]).0 && footprint(
                pl[i].1,
                pl[i].2,
                pl[i].3,
            ).contains((x, y))) implies (#[trigger] c.cell(x, y)) == b.cell(x, y) by {
        assert(a.in_bounds(x, y));
        assert(a.cell(x, y) == b.cell(x, y));
    }
}

proof fn lemma_footprint_set_eq(ax: int, ay: int, bs1: Seq<Point>, bs2: Seq<Point>)
    requires
        bs1.to_set() == bs2.to_set(),
    ensures
        footprint(ax, ay, bs1) == footprint(ax, ay, bs2),
{
    assert forall|p: (int, int)|
        footprint(ax, ay, bs1).contains(p) implies footprint(ax, ay, bs2).contains(p) by {
        let k = choose|k: int|
            0 <= k < bs1.len() && ax + (#[trigger] bs1[k]).x == p.0 && ay + bs1[k].y == p.1;
        assert(bs1.contains(bs1[k]));
        assert(bs2.to_set().contains(bs1[k]));
        let m = choose|m: int| 0 <= m < bs2.len() && bs2[m] == bs1[k];
        assert(ax + bs2[m].x == p.0 && ay + bs2[m].y == p.1);
    }
    assert forall|p: (int, int)|
        footprint(ax, ay, bs2).contains(p) implies footprint(ax, ay, bs1).contains(p) by {
        let k = choose|k: int|
            0 <= k < bs2.len() && ax + (#[trigger] bs2[k]).x == p.0 && ay + bs2[k].y == p.1;
        assert(bs2.contains(bs2[k]));
        assert(bs1.to_set().contains(bs2[k]));
        let m = choose|m: int| 0 <= m < bs1.len() && bs1[m] == bs2[k];
        assert(ax + bs1[m].x == p.0 && ay + bs1[m].y == p.1);
    }
    assert(footprint(ax, ay, bs1) =~= footprint(ax, ay, bs2));
}

proof fn lemma_can_put_footprint(b: Board, pos: Point, bs: Seq<Point>)
    ensures
        b.can_put(pos, bs) == footprint(pos.x as int, pos.y as int, bs).subset_of(empty_cells(b)),
{
    let fp = footprint(pos.x as int, pos.y as int, bs);
    let e = empty_cells(b);
    if b.can_put(pos, bs) {
        assert forall|p: (int, int)| fp.contains(p) implies e.contains(p) by {
            let k = choose|k: int|
                0 <= k < bs.len() && pos.x as int + (#[trigger] bs[k]).x == p.0 && pos.y as int
                    + bs[k].y == p.1;
            assert(b.in_bounds(pos.x + bs[k].x, pos.y + bs[k].y));
            assert(b.cell(pos.x + bs[k].x, pos.y + bs[k].y) == State::Empty);
        }
        assert(fp.subset_of(e));
    }
    if fp.subset_of(e) {
        assert forall|k: int| #![auto] 0 <= k < bs.len() implies b.in_bounds(
            pos.x + bs[k].x,
            pos.y + bs[k].y,
        ) && b.cell(pos.x + bs[k].x, pos.y + bs[k].y) == State::Empty by {
            assert(fp.contains((pos.x + bs[k].x, pos.y + bs[k].y)));
            assert(e.contains((pos.x + bs[k].x, pos.y + bs[k].y)));
        }
        assert(b.can_put(pos, bs));
    }
}

proof fn lemma_put_empty_cells(b0: Board, b1: Board, pos: Point, bs: Seq<Point>, id: usize)
    requires
        b0.can_put(pos, bs),
        b1.h() == b0.h(),
        b1.w() == b0.w(),
        forall|x: int, y: int| b1.in_bounds(x, y) ==> b1.cell(x, y) == (if covers(pos, bs, x, y) {
            State::Fill(id)
        } else {
            b0.cell(x, y)
        }),
    ensures
        empty_cells(b1) == empty_cells(b0).difference(
            footprint(pos.x as int, pos.y as int, bs),
        ),
{

    let fp = footprint(pos.x as int, pos.y as int, bs);
    assert forall|p: (int, int)|
        empty_cells(b1).contains(p) == empty_cells(b0).difference(fp).contains(p) by {
        if b0.in_bounds(p.0, p.1) {
            if covers(pos, bs, p.0, p.1) {
                let k = choose|k: int|
                    0 <= k < bs.len() && pos.x + bs[k].x == p.0 && pos.y + bs[k].y == p.1;
                assert(fp.contains(p));
                assert(b1.cell(p.0, p.1) == State::Fill(id));
            } else {
                if fp.contains(p) {
                    let k = choose|k: int|
                        0 <= k < bs.len() && pos.x as int + (#[trigger] bs[k]).x == p.0 && pos.y
                            as int + bs[k].y == p.1;
                    assert(covers(pos, bs, p.0, p.1));
                }
                assert(b1.cell(p.0, p.1) == b0.cell(p.0, p.1));
            }
        } else {
            if fp.contains(p) {
                let k = choose|k: int|
                    0 <= k < bs.len() && pos.x as int + (#[trigger] bs[k]).x == p.0 && pos.y
                        as int + bs[k].y == p.1;
                assert(b0.in_bounds(pos.x + bs[k].x, pos.y + bs[k].y));
            }
        }
    }
    assert(empty_cells(b1) =~= empty_cells(b0).difference(fp));
}

/// Removing one placement from a legal tiling leaves a legal tiling of the
/// remaining cells for the remaining pieces.
proof fn lemma_tiling_remove(
    blocks: Seq<Block>,
    used: Seq<bool>,
    pl: Seq<(bool, int, int, Seq<Point>)>,
    e: Set<(int, int)>,
    i: int,
)
    requires
        placements_ok(blocks, used, pl, e),
        0 <= i < pl.len(),
        pl[i].0,
    ensures
        placements_ok(
            blocks,
            used.update(i, true),
            pl.update(i, (false, 0int, 0int, Seq::<Point>::empty())),
            e.difference(footprint(pl[i].1, pl[i].2, pl[i].3)),
        ),
{
    reveal(placements_ok);
    let fp = footprint(pl[i].1, pl[i].2, pl[i].3);
    let pl2 = pl.update(i, (false, 0int, 0int, Seq::<Point>::empty()));
    let u2 = used.update(i, true);
    let e2 = e.difference(fp);
    assert forall|t: int| 0 <= t < pl2.len() && u2[t] implies !(#[trigger] pl2[t]).0 by {
        if t != i {
            assert(pl2[t] == pl[t]);
        }
    }
    assert forall|t: int|
        0 <= t < pl2.len() && (#[trigger] pl2[t]).0 implies is_orientation_of(
        pl2[t].3,
        blocks[t]@,
    ) && footprint(pl2[t].1, pl2[t].2, pl2[t].3).subset_of(e2) by {
        assert(t != i);
        assert(pl2[t] == pl[t]);
        let ft = footprint(pl[t].1, pl[t].2, pl[t].3);
        assert forall|p: (int, int)| ft.contains(p) implies e2.contains(p) by {
            assert(ft.subset_of(e));
            assert(e.contains(p));
            if t < i {
                assert(ft.disjoint(fp));
            } else {
                assert(fp.disjoint(ft));
            }
        }
        assert(ft.subset_of(e2));
    }
    assert forall|i1: int, i2: int|
        0 <= i1 < i2 < pl2.len() && (#[trigger] pl2[i1]).0 && (#[trigger] pl2[i2]).0 implies
        footprint(pl2[i1].1, pl2[i1].2, pl2[i1].3).disjoint(
        footprint(pl2[i2].1, pl2[i2].2, pl2[i2].3)) by {
        assert(i1 != i && i2 != i);
        assert(pl2[i1] == pl[i1]);
        assert(pl2[i2] == pl[i2]);
    }
    assert forall|p: (int, int)| #[trigger] e2.contains(p) implies exists|t: int|
        0 <= t < pl2.len() && (#[trigger] pl2[t]).0 && footprint(
            pl2[t].1,
            pl2[t].2,
            pl2[t].3,
        ).contains(p) by {
        assert(e.contains(p));
        let t = choose|t: int|
            0 <= t < pl.len() && (#[trigger] pl[t]).0 && footprint(
                pl[t].1,
                pl[t].2,
                pl[t].3,
            ).contains(p);
        assert(t != i) by {
            if t == i {
                assert(fp.contains(p));
            }
        }
        assert(pl2[t] == pl[t]);
        assert(pl2[t].0 && footprint(pl2[t].1, pl2[t].2, pl2[t].3).contains(p));
    }
}

/// An empty board needs no placements: the all-inactive assignment is a
/// legal tiling of it, and paints nothing.
proof fn lemma_tiling_empty(b: Board, blocks: Seq<Block>, used: Seq<bool>)
    requires
        used.len() == blocks.len(),
        forall|x: int, y: int| b.in_bounds(x, y) ==> b.cell(x, y) != State::Empty,
    ensures
        placements_ok(
            blocks,
            used,
            Seq::new(blocks.len(), |t: int| (false, 0int, 0int, Seq::<Point>::empty())),
            empty_cells(b),
        ),
        painted(b, Seq::new(blocks.len(), |t: int| (false, 0int, 0int, Seq::<Point>::empty())), b),
{
    reveal(placements_ok);
    reveal(painted);
    let pl = Seq::new(blocks.len(), |t: int| (false, 0int, 0int, Seq::<Point>::empty()));
    assert forall|p: (int, int)| #[trigger] empty_cells(b).contains(p) implies exists|t: int|
        0 <= t < pl.len() && (#[trigger] pl[t]).0 && footprint(
            pl[t].1,
            pl[t].2,
            pl[t].3,
        ).contains(p) by {
        assert(b.in_bounds(p.0, p.1) && b.cell(p.0, p.1) == State::Empty);
    }
}

/// A failed search from a board whose first empty cell is `(cx, cy)` refutes
/// every tiling: any tiling would have to cover that cell with some unused
/// piece, in some orientation, at the anchor the search tried.
proof fn lemma_exhausted(
    e: Set<(int, int)>,
    blocks: Seq<Block>,
    used: Seq<bool>,
    cx: int,
    cy: int,
)
    requires
        used.len() == blocks.len(),
        e.contains((cx, cy)),
        forall|i: int| 0 <= i < blocks.len() && !(#[trigger] used[i]) ==> piece_fails(
            e,
            blocks,
            used,
            cx,
            cy,
            i,
        ),
    ensures
        !tileable(e, blocks, used),
{
    reveal(tileable);
    reveal(placements_ok);
    reveal(candidate_fails);
    reveal(piece_fails);
    if tileable(e, blocks, used) {
        let pl = choose|pl: Seq<(bool, int, int, Seq<Point>)>| placements_ok(blocks, used, pl, e);
        assert(e.contains((cx, cy)));
        let i = choose|i: int|
            0 <= i < pl.len() && (#[trigger] pl[i]).0 && footprint(
                pl[i].1,
                pl[i].2,
                pl[i].3,
            ).contains((cx, cy));
        assert(!used[i]) by {
            if used[i] {
                assert(!pl[i].0);
            }
        }
        let j = choose|j: int|
            0 <= j < 8 && pl[i].3.to_set() == (#[trigger] orientation_variants(
                blocks[i]@,
            )[j]).to_set();
        let vs = orientation_variants(blocks[i]@)[j];
        let k = choose|k: int|
            0 <= k < pl[i].3.len() && pl[i].1 + (#[trigger] pl[i].3[k]).x == cx && pl[i].2
                + pl[i].3[k].y == cy;
        let o = pl[i].3[k];
        assert(pl[i].3.contains(o));
        assert(vs.to_set().contains(o));
        let m = choose|m: int| 0 <= m < vs.len() && vs[m] == o;
        assert(piece_fails(e, blocks, used, cx, cy, i));
        assert(candidate_fails(e, blocks, used, i, vs, cx - vs[m].x, cy - vs[m].y));
        assert(cx - vs[m].x == pl[i].1 && cy - vs[m].y == pl[i].2);
        lemma_footprint_set_eq(pl[i].1, pl[i].2, vs, pl[i].3);
        assert(footprint(pl[i].1, pl[i].2, vs).subset_of(e));
        assert(!tileable(
            e.difference(footprint(pl[i].1, pl[i].2, pl[i].3)),
            blocks,
            used.update(i, true),
        ));
        lemma_tiling_remove(blocks, used, pl, e, i);
        assert(false);
    }
}

/// Prepending one placement to a legal tiling of the board after that
/// placement gives a legal tiling of the board before it, painting the same
/// final board.
proof fn lemma_tiling_extend(
    b0: Board,
    b1: Board,
    b2: Board,
    blocks: Seq<Block>,
    u0: Seq<bool>,
    pos: Point,
    bs: Seq<Point>,
    i: int,
    pl1: Seq<(bool, int, int, Seq<Point>)>,
)
    requires
        0 <= i < blocks.len(),
        u0.len() == blocks.len(),
        !u0[i],
        is_orientation_of(bs, blocks[i]@),
        b0.can_put(pos, bs),
        b1.h() == b0.h(),
        b1.w() == b0.w(),
        forall|x: int, y: int| b1.in_bounds(x, y) ==> b1.cell(x, y) == (if covers(pos, bs, x, y) {
            State::Fill(i as usize)
        } else {
            b0.cell(x, y)
        }),
        placements_ok(blocks, u0.update(i, true), pl1, empty_cells(b1)),
        painted(b1, pl1, b2),
    ensures
        placements_ok(
            blocks,
            u0,
            pl1.update(i, (true, pos.x as int, pos.y as int, bs)),
            empty_cells(b0),
        ),
        painted(b0, pl1.update(i, (true, pos.x as int, pos.y as int, bs)), b2),
{
    reveal(placements_ok);
    reveal(painted);
    let fp = footprint(pos.x as int, pos.y as int, bs);
    let e0 = empty_cells(b0);
    let e1 = empty_cells(b1);
    let pl = pl1.update(i, (true, pos.x as int, pos.y as int, bs));
    lemma_put_empty_cells(b0, b1, pos, bs, i as usize);
    assert(e1 == e0.difference(fp));
    lemma_can_put_footprint(b0, pos, bs);
    assert(fp.subset_of(e0));
    assert(!pl1[i].0) by {
        assert(u0.update(i, true)[i]);
    }
    // covers and footprint membership agree
    assert forall|x: int, y: int| covers(pos, bs, x, y) == fp.contains((x, y)) by {
        if covers(pos, bs, x, y) {
            let k = choose|k: int|
                0 <= k < bs.len() && pos.x + bs[k].x == x && pos.y + bs[k].y == y;
            assert(fp.contains((x, y)));
        }
        if fp.contains((x, y)) {
            let k = choose|k: int|
                0 <= k < bs.len() && pos.x as int + (#[trigger] bs[k]).x == x && pos.y as int
                    + bs[k].y == y;
            assert(covers(pos, bs, x, y));
        }
    }
    // the extended assignment is a legal tiling of the original board
    assert forall|t: int| 0 <= t < pl.len() && u0[t] implies !(#[trigger] pl[t]).0 by {
        assert(t != i);
        assert(pl[t] == pl1[t]);
        assert(u0.update(i, true)[t]);
    }
    assert forall|t: int|
        0 <= t < pl.len() && (#[trigger] pl[t]).0 implies is_orientation_of(pl[t].3, blocks[t]@)
        && footprint(pl[t].1, pl[t].2, pl[t].3).subset_of(e0) by {
        if t == i {
            assert(pl[t].3 == bs);
        } else {
            assert(pl[t] == pl1[t]);
            let ft = footprint(pl1[t].1, pl1[t].2, pl1[t].3);
            assert(ft.subset_of(e1));
            assert forall|p: (int, int)| ft.contains(p) implies e0.contains(p) by {
                assert(e1.contains(p));
            }
            assert(ft.subset_of(e0));
        }
    }
    assert forall|i1: int, i2: int|
        0 <= i1 < i2 < pl.len() && (#[trigger] pl[i1]).0 && (#[trigger] pl[i2]).0 implies
        footprint(pl[i1].1, pl[i1].2, pl[i1].3).disjoint(
        footprint(pl[i2].1, pl[i2].2, pl[i2].3)) by {
        if i1 == i || i2 == i {
            let t = if i1 == i {
                i2
            } else {
                i1
            };
            assert(pl[t] == pl1[t]);
            let ft = footprint(pl1[t].1, pl1[t].2, pl1[t].3);
            assert(ft.subset_of(e1));
            assert forall|p: (int, int)| ft.contains(p) implies !fp.contains(p) by {
                assert(e1.contains(p));
            }
            assert forall|p: (int, int)| fp.contains(p) implies !ft.contains(p) by {
                if ft.contains(p) {
                    assert(e1.contains(p));
                }
            }
        } else {
            assert(pl[i1] == pl1[i1]);
            assert(pl[i2] == pl1[i2]);
        }
    }
    assert forall|p: (int, int)| #[trigger] e0.contains(p) implies exists|t: int|
        0 <= t < pl.len() && (#[trigger] pl[t]).0 && footprint(pl[t].1, pl[t].2, pl[t].3).contains(
            p,
        ) by {
        if fp.contains(p) {
            assert(pl[i].0 && footprint(pl[i].1, pl[i].2, pl[i].3).contains(p));
        } else {
            assert(e1.contains(p));
            let t = choose|t: int|
                0 <= t < pl1.len() && (#[trigger] pl1[t]).0 && footprint(
                    pl1[t].1,
                    pl1[t].2,
                    pl1[t].3,
                ).contains(p);
            assert(t != i);
            assert(pl[t] == pl1[t]);
            assert(pl[t].0 && footprint(pl[t].1, pl[t].2, pl[t].3).contains(p));
        }
    }
    // the final board is the original with the extended assignment painted on
    assert forall|x: int, y: int, t: int|
        b0.in_bounds(x, y) && 0 <= t < pl.len() && pl[t].0 && #[trigger] footprint(
            pl[t].1,
            pl[t].2,
            pl[t].3,
        ).contains((x, y)) implies b2.cell(x, y) == State::Fill(t as usize) by {
        if t == i {
            assert(fp.contains((x, y)));
            assert(b1.cell(x, y) == State::Fill(i as usize));
            assert(!(exists|u: int|
                0 <= u < pl1.len() && (#[trigger] pl1[u]).0 && footprint(
                    pl1[u].1,
                    pl1[u].2,
                    pl1[u].3,
                ).contains((x, y)))) by {
                if exists|u: int|
                    0 <= u < pl1.len() && (#[trigger] pl1[u]).0 && footprint(
                        pl1[u].1,
                        pl1[u].2,
                        pl1[u].3,
                    ).contains((x, y)) {
                    let u = choose|u: int|
                        0 <= u < pl1.len() && (#[trigger] pl1[u]).0 && footprint(
                            pl1[u].1,
                            pl1[u].2,
                            pl1[u].3,
                        ).contains((x, y));
                    assert(e1.contains((x, y)));
                }
            }
            assert(b1.in_bounds(x, y));
            assert(b2.cell(x, y) == b1.cell(x, y));
        } else {
            assert(pl[t] == pl1[t]);
            assert(b1.in_bounds(x, y));
            assert(b2.cell(x, y) == State::Fill(t as usize));
        }
    }
    assert forall|x: int, y: int|
        b0.in_bounds(x, y) && !(exists|t: int|
            0 <= t < pl.len() && (#[trigger] pl[t]).0 && footprint(
                pl[t].1,
                pl[t].2,
                pl[t].3,
            ).contains((x, y))) implies (#[trigger] b2.cell(x, y)) == b0.cell(x, y) by {
        assert(!fp.contains((x, y))) by {
            if fp.contains((x, y)) {
                assert(pl[i].0 && footprint(pl[i].1, pl[i].2, pl[i].3).contains((x, y)));
            }
        }
        assert(b1.cell(x, y) == b0.cell(x, y));
        assert(!(exists|u: int|
            0 <= u < pl1.len() && (#[trigger] pl1[u]).0 && footprint(
                pl1[u].1,
                pl1[u].2,
                pl1[u].3,
            ).contains((x, y)))) by {
            if exists|u: int|
                0 <= u < pl1.len() && (#[trigger] pl1[u]).0 && footprint(
                    pl1[u].1,
                    pl1[u].2,
                    pl1[u].3,
                ).contains((x, y)) {
                let u = choose|u: int|
                    0 <= u < pl1.len() && (#[trigger] pl1[u]).0 && footprint(
                        pl1[u].1,
                        pl1[u].2,
                        pl1[u].3,
                    ).contains((x, y));
                assert(u != i);
                assert(pl[u] == pl1[u]);
                assert(pl[u].0 && footprint(pl[u].1, pl[u].2, pl[u].3).contains((x, y)));
            }
        }
        assert(b2.cell(x, y) == b1.cell(x, y));
    }
}

/// Each entry of the generated orientation list is an orientation of the
/// piece it was generated from.
proof fn lemma_os_entry_orientation(os: Seq<Block>, b: Seq<Point>, t: int)
    requires
        os_matches_variants(os, b),
        0 <= t < os.len(),
    ensures
        is_orientation_of(os[t]@, b),
{
    let j = choose|j: int| 0 <= j < 8 && (#[trigger] os[t])@ == orientation_variants(b)[j];
    assert(os[t]@.to_set() == orientation_variants(b)[j].to_set());
}

/// A placement the board refused fails as a candidate: its footprint does
/// not sit on free cells at all.
proof fn lemma_candidate_put_refused(
    b0: Board,
    bp: Board,
    e0: Set<(int, int)>,
    blocks: Seq<Block>,
    u0: Seq<bool>,
    i: int,
    bs: Seq<Point>,
    anchor: Point,
    cx: int,
    cy: int,
)
    requires
        same_board(bp, b0),
        e0 == empty_cells(b0),
        !bp.can_put(anchor, bs),
        anchor.x as int == cx,
        anchor.y as int == cy,
    ensures
        candidate_fails(e0, blocks, u0, i, bs, cx, cy),
{
    lemma_same_board_empty_cells(bp, b0);
    lemma_can_put_footprint(bp, anchor, bs);
    reveal(candidate_fails);
}

/// A placement whose recursive search failed fails as a candidate: removing
/// its cells leaves a set the remaining pieces cannot tile.
proof fn lemma_candidate_rec_failed(
    b0: Board,
    bp: Board,
    b1: Board,
    e0: Set<(int, int)>,
    blocks: Seq<Block>,
    u0: Seq<bool>,
    i: int,
    bs: Seq<Point>,
    anchor: Point,
    cx: int,
    cy: int,
)
    requires
        same_board(bp, b0),
        e0 == empty_cells(b0),
        0 <= i < blocks.len(),
        bp.can_put(anchor, bs),
        b1.h() == bp.h(),
        b1.w() == bp.w(),
        forall|x: int, y: int| b1.in_bounds(x, y) ==> b1.cell(x, y) == (if covers(
            anchor,
            bs,
            x,
            y,
        ) {
            State::Fill(i as usize)
        } else {
            bp.cell(x, y)
        }),
        !tileable(empty_cells(b1), blocks, u0.update(i, true)),
        anchor.x as int == cx,
        anchor.y as int == cy,
    ensures
        candidate_fails(e0, blocks, u0, i, bs, cx, cy),
{
    lemma_put_empty_cells(bp, b1, anchor, bs, i as usize);
    lemma_same_board_empty_cells(bp, b0);
    reveal(candidate_fails);
}

/// On success, the recursion's tiling extends by the placement just made
/// into a tiling of the board as it stood before that placement.
proof fn lemma_success_witness(
    b0: Board,
    bp: Board,
    b1: Board,
    b2: Board,
    blocks: Seq<Block>,
    u0: Seq<bool>,
    i: int,
    bs: Seq<Point>,
    anchor: Point,
)
    requires
        same_board(bp, b0),
        0 <= i < blocks.len(),
        u0.len() == blocks.len(),
        !u0[i],
        is_orientation_of(bs, blocks[i]@),
        bp.can_put(anchor, bs),
        b1.h() == bp.h(),
        b1.w() == bp.w(),
        forall|x: int, y: int| b1.in_bounds(x, y) ==> b1.cell(x, y) == (if covers(
            anchor,
            bs,
            x,
            y,
        ) {
            State::Fill(i as usize)
        } else {
            bp.cell(x, y)
        }),
        exists|pl1: Seq<(bool, int, int, Seq<Point>)>|
            placements_ok(blocks, u0.update(i, true), pl1, empty_cells(b1)) && painted(
                b1,
                pl1,
                b2,
            ),
    ensures
        exists|pl: Seq<(bool, int, int, Seq<Point>)>|
            placements_ok(blocks, u0, pl, empty_cells(b0)) && painted(b0, pl, b2),
{

    let pl1 = choose|pl1: Seq<(bool, int, int, Seq<Point>)>|
        placements_ok(blocks, u0.update(i, true), pl1, empty_cells(b1)) && painted(b1, pl1, b2);
    lemma_tiling_extend(bp, b1, b2, blocks, u0, anchor, bs, i, pl1);
    let pl = pl1.update(i, (true, anchor.x as int, anchor.y as int, bs));
    lemma_same_board_empty_cells(bp, b0);
    lemma_same_board_painted(bp, b0, pl, b2);
    assert(placements_ok(blocks, u0, pl, empty_cells(b0)) && painted(b0, pl, b2));
}

/// Once every generated orientation has failed at every landing offset, the
/// piece fails in all eight of its variants: each variant is set-equal to a
/// generated orientation, and set-equal shapes have equal footprints.
proof fn lemma_piece_exhausted(
    e0: Set<(int, int)>,
    blocks: Seq<Block>,
    u0: Seq<bool>,
    i: int,
    os: Seq<Block>,
    cx: int,
    cy: int,
)
    requires
        0 <= i < blocks.len(),
        os_matches_variants(os, blocks[i]@),
        forall|t: int, m: int|
            0 <= t < os.len() && 0 <= m < os[t]@.len() ==> candidate_fails(
                e0,
                blocks,
                u0,
                i,
                os[t]@,
                cx - (#[trigger] os[t]@[m]).x,
                cy - os[t]@[m].y,
            ),
    ensures
        piece_fails(e0, blocks, u0, cx, cy, i),
{
    reveal(candidate_fails);
    reveal(piece_fails);
    assert forall|j: int, m: int|
        0 <= j < 8 && 0 <= m < orientation_variants(blocks[i]@)[j].len() implies candidate_fails(
        e0,
        blocks,
        u0,
        i,
        orientation_variants(blocks[i]@)[j],
        cx - (#[trigger] orientation_variants(blocks[i]@)[j][m]).x,
        cy - orientation_variants(blocks[i]@)[j][m].y,
    ) by {
        let vs = orientation_variants(blocks[i]@)[j];
        let t = choose|t: int|
            0 <= t < os.len() && os[t]@.to_set() == (#[trigger] orientation_variants(
                blocks[i]@,
            )[j]).to_set();
        let o = vs[m];
        assert(vs[m] == o);
        assert(vs.contains(o));
        assert(vs.to_set().contains(o));
        assert(os[t]@.to_set().contains(o));
        let m2 = choose|m2: int| 0 <= m2 < os[t]@.len() && os[t]@[m2] == o;
        assert(candidate_fails(e0, blocks, u0, i, os[t]@, cx - os[t]@[m2].x, cy - os[t]@[m2].y));
        lemma_footprint_set_eq(cx - o.x, cy - o.y, os[t]@, vs);
        assert(footprint(cx - o.x, cy - o.y, os[t]@) == footprint(cx - o.x, cy - o.y, vs));
    }
}

/// One search frame: covers the first empty cell with some unused block in
/// some orientation, then recurses; restores the board and the piece set on
/// failure. `remaining` counts the unused pieces, bounding the recursion.
#[verifier::rlimit(100)]
#[verifier::spinoff_prover]
fn solve_rec(board: &mut Board, blocks: &Vec<Block>, used: &mut Vec<bool>, remaining: usize) -> (r:
    bool)
    requires
        old(board).wf(),
        old(used)@.len() == blocks@.len(),
        forall|k: int| 0 <= k < blocks@.len() ==> (#[trigger] blocks@[k]).wf(),
        remaining == count_unused(old(used)@),
    ensures
        final(board).wf(),
        final(used)@.len() == old(used)@.len(),
        !r ==> same_board(*final(board), *old(board)) && final(used)@ == old(used)@,
        r ==> solved_from(*old(board), *final(board)),
        r ==> (forall|k: int|
            0 <= k < old(used)@.len() && (#[trigger] old(used)@[k]) ==> final(used)@[k]),
        r ==> count_fill(final(board).grid()) == count_fill(old(board).grid()) + placed_cells(
            blocks@,
            old(used)@,
            final(used)@,
        ),
        r ==> (exists|pl: Seq<(bool, int, int, Seq<Point>)>|
            placements_ok(blocks@, old(used)@, pl, empty_cells(*old(board))) && painted(
                *old(board),
                pl,
                *final(board),
            )),
        !r ==> !tileable(empty_cells(*old(board)), blocks@, old(used)@),
        full(*old(board)) ==> r,
    decreases remaining,
{
    let ghost b0 = *board;
    let ghost u0 = *used;
    let ghost e0 = empty_cells(b0);
    let target: Point = match board.first_empty_cell() {
        None => {
            proof {
                assert(solved_from(b0, b0));
                lemma_placed_cells_refl(blocks@, u0@);
                lemma_tiling_empty(b0, blocks@, u0@);
                let pl0 = Seq::new(
                    blocks@.len(),
                    |t: int| (false, 0int, 0int, Seq::<Point>::empty()),
                );
                assert(placements_ok(blocks@, u0@, pl0, e0) && painted(b0, pl0, b0));
            }
            return true;
        },
        Some(p) => p,
    };
    let nb = blocks.len();
    for i in 0..nb
        invariant
            nb == blocks@.len(),
            board.wf(),
            b0.wf(),
            b0 == *old(board),
            u0 == *old(used),
            same_board(*board, b0),
            used@ == u0@,
            u0@.len() == blocks@.len(),
            remaining == count_unused(u0@),
            forall|k: int| 0 <= k < blocks@.len() ==> (#[trigger] blocks@[k]).wf(),
            b0.in_bounds(target.x as int, target.y as int),
            b0.cell(target.x as int, target.y as int) == State::Empty,
            0 <= target.x,
            0 <= target.y,
            e0 == empty_cells(b0),
            forall|t: int| 0 <= t < i && !(#[trigger] u0@[t]) ==> piece_fails(
                e0,
                blocks@,
                u0@,
                target.x as int,
                target.y as int,
                t,
            ),
    {
        if !used[i] {
            let os = blocks[i].orientations();
            proof {
                assert(os_matches_variants(os@, blocks@[i as int]@));
            }
            let no = os.len();
            for oi in 0..no
                invariant
                    nb == blocks@.len(),
                    i < nb,
                    no == os@.len(),
                    board.wf(),
                    b0.wf(),
                    b0 == *old(board),
                    u0 == *old(used),
                    same_board(*board, b0),
                    used@ == u0@,
                    u0@.len() == blocks@.len(),
                    remaining == count_unused(u0@),
                    !u0@[i as int],
                    forall|k: int| 0 <= k < blocks@.len() ==> (#[trigger] blocks@[k]).wf(),
                    forall|k: int| 0 <= k < os@.len() ==> (#[trigger] os@[k]).wf()
                        && os@[k]@.len() == blocks@[i as int]@.len(),
                    os_matches_variants(os@, blocks@[i as int]@),
                    b0.in_bounds(target.x as int, target.y as int),
                    b0.cell(target.x as int, target.y as int) == State::Empty,
                    0 <= target.x,
                    0 <= target.y,
                    e0 == empty_cells(b0),
                    forall|t: int, m: int|
                        0 <= t < oi && 0 <= m < os@[t]@.len() ==> candidate_fails(
                            e0,
                            blocks@,
                            u0@,
                            i as int,
                            os@[t]@,
                            target.x - (#[trigger] os@[t]@[m]).x,
                            target.y - os@[t]@[m].y,
                        ),
            {
                let o = &os[oi];
                let nk = o.ps.len();
                for k in 0..nk
                    invariant
                        nb == blocks@.len(),
                        i < nb,
                        no == os@.len(),
                        oi < no,
                        nk == os@[oi as int]@.len(),
                        board.wf(),
                        b0.wf(),
                        b0 == *old(board),
                        u0 == *old(used),
                        same_board(*board, b0),
                        used@ == u0@,
                        u0@.len() == blocks@.len(),
                        remaining == count_unused(u0@),
                        !u0@[i as int],
                        forall|j: int| 0 <= j < blocks@.len() ==> (#[trigger] blocks@[j]).wf(),
                        forall|j: int| 0 <= j < os@.len() ==> (#[trigger] os@[j]).wf()
                            && os@[j]@.len() == blocks@[i as int]@.len(),
                        os_matches_variants(os@, blocks@[i as int]@),
                        b0.in_bounds(target.x as int, target.y as int),
                        b0.cell(target.x as int, target.y as int) == State::Empty,
                        0 <= target.x,
                        0 <= target.y,
                        e0 == empty_cells(b0),
                        forall|m: int| 0 <= m < k ==> candidate_fails(
                            e0,
                            blocks@,
                            u0@,
                            i as int,
                            os@[oi as int]@,
                            target.x - (#[trigger] os@[oi as int]@[m]).x,
                            target.y - os@[oi as int]@[m].y,
                        ),
                {
                    let o = &os[oi];
                    let off = o.ps[k];
                    proof {
                        assert(0 <= off.x && 0 <= off.y);
                    }
                    // anchor the block so that this offset lands on the target cell
                    let anchor = target.minus(&off);
                    let ghost bp = *board;
                    let put_ok = board.put_block(&anchor, i, o).is_ok();
                    if !put_ok {
                        proof {
                            lemma_candidate_put_refused(
                                b0,
                                bp,
                                e0,
                                blocks@,
                                u0@,
                                i as int,
                                os@[oi as int]@,
                                anchor,
                                target.x - os@[oi as int]@[k as int].x,
                                target.y - os@[oi as int]@[k as int].y,
                            );
                        }
                    }
                    if put_ok {
                        let ghost b1 = *board;
                        used[i] = true;
                        proof {
                            lemma_count_unused_nonneg(u0@.update(i as int, true));
                            lemma_count_unused_update(u0@, i as int);
                        }
                        let rec = solve_rec(board, blocks, used, remaining - 1);
                        if rec {
                            proof {
                                lemma_solved_compose(
                                    bp,
                                    b1,
                                    *board,
                                    anchor,
                                    os@[oi as int]@,
                                    i as usize,
                                );
                                lemma_same_board_solved(bp, b0, *board);
                                assert(solved_from(b0, *board));
                                // account for this placement and the recursion's
                                assert(u0@.update(i as int, true)[i as int]);
                                assert(used@[i as int]);
                                lemma_placed_cells_step(blocks@, u0@, used@, i as int);
                                assert(count_fill(b1.grid()) == count_fill(bp.grid())
                                    + blocks@[i as int]@.len());
                                assert(count_fill(board.grid()) == count_fill(b0.grid())
                                    + placed_cells(blocks@, u0@, used@));
                                assert forall|k: int|
                                    0 <= k < u0@.len() && (#[trigger] u0@[k]) implies used@[k] by {
                                    assert(u0@.update(i as int, true)[k]);
                                }
                                // the recursion's tiling, extended by this
                                // placement, witnesses success
                                lemma_os_entry_orientation(
                                    os@,
                                    blocks@[i as int]@,
                                    oi as int,
                                );
                                lemma_success_witness(
                                    b0,
                                    bp,
                                    b1,
                                    *board,
                                    blocks@,
                                    u0@,
                                    i as int,
                                    os@[oi as int]@,
                                    anchor,
                                );
                            }
                            return true;
                        }
                        used[i] = false;
                        proof {
                            assert(used@ =~= u0@);
                            // every covered cell is filled, so the removal succeeds
                            assert forall|j: int| 0 <= j < os@[oi as int]@.len() implies board
                                .in_bounds(
                                anchor.x + os@[oi as int]@[j].x,
                                anchor.y + os@[oi as int]@[j].y,
                            ) && (#[trigger] board.cell(
                                anchor.x + os@[oi as int]@[j].x,
                                anchor.y + os@[oi as int]@[j].y,
                            )) is Fill by {
                                assert(bp.in_bounds(
                                    anchor.x + os@[oi as int]@[j].x,
                                    anchor.y + os@[oi as int]@[j].y,
                                ));
                                assert(covers(
                                    anchor,
                                    os@[oi as int]@,
                                    anchor.x + os@[oi as int]@[j].x,
                                    anchor.y + os@[oi as int]@[j].y,
                                ));
                                assert(b1.cell(
                                    anchor.x + os@[oi as int]@[j].x,
                                    anchor.y + os@[oi as int]@[j].y,
                                ) == State::Fill(i as usize));
                            }
                            assert(board.can_remove(anchor, os@[oi as int]@));
                        }
                        let ghost b2 = *board;
                        proof {
                            assert forall|x: int, y: int| b2.in_bounds(x, y) implies b2.cell(x, y)
                                == (if covers(anchor, os@[oi as int]@, x, y) {
                                State::Fill(i as usize)
                            } else {
                                bp.cell(x, y)
                            }) by {
                                assert(b1.in_bounds(x, y));
                                assert(b2.cell(x, y) == b1.cell(x, y));
                            }
                        }
                        let rm = board.remove_block(&anchor, o);
                        proof {
                            assert(rm is Ok);
                            crate::board::lemma_put_remove_restores(
                                bp,
                                b2,
                                *board,
                                anchor,
                                os@[oi as int]@,
                                i as usize,
                            );
                            assert(same_board(*board, b0));
                            // this placement led nowhere
                            lemma_candidate_rec_failed(
                                b0,
                                bp,
                                b1,
                                e0,
                                blocks@,
                                u0@,
                                i as int,
                                os@[oi as int]@,
                                anchor,
                                target.x - os@[oi as int]@[k as int].x,
                                target.y - os@[oi as int]@[k as int].y,
                            );
                        }
                    }
                }
                proof {
                    // every anchor of this orientation has now failed
                    assert forall|t: int, m: int|
                        0 <= t < oi + 1 && 0 <= m < os@[t]@.len() implies candidate_fails(
                        e0,
                        blocks@,
                        u0@,
                        i as int,
                        os@[t]@,
                        target.x - (#[trigger] os@[t]@[m]).x,
                        target.y - os@[t]@[m].y,
                    ) by {
                        if t == oi as int {
                            assert(candidate_fails(
                                e0,
                                blocks@,
                                u0@,
                                i as int,
                                os@[oi as int]@,
                                target.x - os@[oi as int]@[m].x,
                                target.y - os@[oi as int]@[m].y,
                            ));
                        }
                    }
                }
            }
            proof {
                // every orientation variant of this piece has now failed
                lemma_piece_exhausted(
                    e0,
                    blocks@,
                    u0@,
                    i as int,
                    os@,
                    target.x as int,
                    target.y as int,
                );
            }
        }
    }
    proof {
        // the target cell is empty, so the board was not full on entry,
        // and every piece, orientation and anchor has failed: no tiling
        // of the remaining cells exists
        assert(b0.cell(target.x as int, target.y as int) == State::Empty);
        assert(e0.contains((target.x as int, target.y as int)));
        lemma_exhausted(e0, blocks@, u0@, target.x as int, target.y as int);
    }
    false
}

impl Board {
    /// Searches for a complete tiling of this board by the given blocks, each
    /// usable at most once in any orientation. On success the returned board
    /// has every formerly empty cell filled by a piece and every other cell
    /// unchanged; on failure the search was exhaustive and the error is
    /// `Unsolvable`.
    pub fn solve(&self, blocks: &Vec<Block>) -> (r: Result<Solution, PuzzleError>)
        requires
            self.wf(),
            forall|k: int| 0 <= k < blocks@.len() ==> (#[trigger] blocks@[k]).wf(),
        ensures
            r matches Ok(sol) ==> sol.board.wf() && solved_from(*self, sol.board) && full(
                sol.board,
            ) && sol.used@.len() == blocks@.len() && count_fill(sol.board.grid()) == count_fill(
                self.grid(),
            ) + placed_cells(blocks@, no_pieces_used(blocks@.len() as int), sol.used@),
            r matches Ok(sol) ==> tiled_into(*self, blocks@, sol.board),
            r is Err ==> r == Err::<Solution, PuzzleError>(PuzzleError::Unsolvable),
            r is Err ==> !solvable(*self, blocks@),
            full(*self) ==> r is Ok,
    {
        let mut work = self.duplicate();
        let ghost w0 = work;
        let nb = blocks.len();
        let mut used: Vec<bool> = vec![false; nb];
        let ghost u_init = used@;
        proof {
            lemma_count_unused_all_false(used@);
            assert(u_init =~= no_pieces_used(blocks@.len() as int));
        }
        let ok = solve_rec(&mut work, blocks, &mut used, nb);
        if ok {
            proof {
                lemma_same_board_solved(w0, *self, work);
                lemma_solved_is_full(*self, work);
                assert(count_fill(w0.grid()) == count_fill(self.grid()));
                assert(u_init == no_pieces_used(blocks@.len() as int));
                let pl = choose|pl: Seq<(bool, int, int, Seq<Point>)>|
                    placements_ok(blocks@, u_init, pl, empty_cells(w0)) && painted(w0, pl, work);
                lemma_same_board_empty_cells(w0, *self);
                lemma_same_board_painted(w0, *self, pl, work);
                assert(placements_ok(
                    blocks@,
                    no_pieces_used(blocks@.len() as int),
                    pl,
                    empty_cells(*self),
                ) && painted(*self, pl, work));
                assert(tiled_into(*self, blocks@, work)) by {
                    reveal(tiled_into);
                }
            }
            Ok(Solution { board: work, used })
        } else {
            proof {
                assert(u_init == no_pieces_used(blocks@.len() as int));
                lemma_same_board_empty_cells(w0, *self);
                assert(!tileable(empty_cells(*self), blocks@, no_pieces_used(blocks@.len() as int)));
                if full(*self) {
                    assert forall|x: int, y: int| w0.in_bounds(x, y) implies w0.cell(x, y)
                        != State::Empty by {
                        assert(self.in_bounds(x, y));
                        assert(self.cell(x, y) == w0.cell(x, y));
                    }
                    assert(full(w0));
                }
            }
            Err(PuzzleError::Unsolvable)
        }
    }
}

/// Searches for a complete tiling of `board` by `blocks`; a free-function
/// form of `Board::solve`.
pub fn solve(board: &Board, blocks: &Vec<Block>) -> (r: Result<Solution, PuzzleError>)
    requires
        board.wf(),
        forall|k: int| 0 <= k < blocks@.len() ==> (#[trigger] blocks@[k]).wf(),
    ensures
        r matches Ok(sol) ==> sol.board.wf() && solved_from(*board, sol.board) && full(sol.board)
            && sol.used@.len() == blocks@.len() && count_fill(sol.board.grid()) == count_fill(
            board.grid(),
        ) + placed_cells(blocks@, no_pieces_used(blocks@.len() as int), sol.used@),
        r matches Ok(sol) ==> tiled_into(*board, blocks@, sol.board),
        r is Err ==> r == Err::<Solution, PuzzleError>(PuzzleError::Unsolvable),
        r is Err ==> !solvable(*board, blocks@),
        full(*board) ==> r is Ok,
{
    board.solve(blocks)
}

/// Law: on a solution of a board that started with no piece on it, the
/// filled cells are counted three ways at once: the board area minus the
/// wall count, the filled-cell count itself, and the total cell count of
/// the pieces the solution used.
pub proof fn lemma_solution_cell_conservation(
    b0: Board,
    sol_board: Board,
    blocks: Seq<Block>,
    u: Seq<bool>,
)
    requires
        b0.wf(),
        sol_board.wf(),
        count_fill(b0.grid()) == 0,
        solved_from(b0, sol_board),
        count_fill(sol_board.grid()) == count_fill(b0.grid()) + placed_cells(
            blocks,
            no_pieces_used(blocks.len() as int),
            u,
        ),
    ensures
        count_fill(sol_board.grid()) == sol_board.h() * sol_board.w() - crate::board::count_wall(
            sol_board.grid(),
        ),
        count_fill(sol_board.grid()) == placed_cells(
            blocks,
            no_pieces_used(blocks.len() as int),
            u,
        ),
{
    lemma_solved_is_full(b0, sol_board);
    crate::board::lemma_full_board_fill_count(sol_board);
}

} // verus!
