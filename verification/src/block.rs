//! Pieces: an immutable shape given as a list of relative cell offsets,
//! normalized so that the least row and the least column among the offsets
//! are both 0, together with orientation generation (rotation, reflection)
//! and the fixed catalog of the puzzle's pieces.

use vstd::prelude::*;

use crate::board::PuzzleError;
use crate::point::Point;

verus! {

/// A rigid shape: the cells it occupies, as offsets from its anchor.
#[derive(Debug)]
pub struct Block {
    pub ps: Vec<Point>,
}

impl View for Block {
    type V = Seq<Point>;

    open spec fn view(&self) -> Seq<Point> {
        self.ps@
    }
}

/// Shape invariant: at least one offset, all offsets non-negative, the least
/// row and the least column among them are 0 (normalized), and no offset
/// repeats.
pub open spec fn shape_wf(ps: Seq<Point>) -> bool {
    ps.len() > 0 && (forall|k: int| #![auto] 0 <= k < ps.len() ==> 0 <= ps[k].x && 0 <= ps[k].y)
        && (exists|k: int| 0 <= k < ps.len() && (#[trigger] ps[k]).x == 0) && (exists|k: int|
        0 <= k < ps.len() && (#[trigger] ps[k]).y == 0) && (forall|k1: int, k2: int|
        0 <= k1 < k2 < ps.len() ==> #[trigger] ps[k1] != #[trigger] ps[k2])
}

/// The rows of the offsets, as mathematical integers.
pub open spec fn xs(ps: Seq<Point>) -> Seq<int> {
    ps.map_values(|p: Point| p.x as int)
}

/// The columns of the offsets, as mathematical integers.
pub open spec fn ys(ps: Seq<Point>) -> Seq<int> {
    ps.map_values(|p: Point| p.y as int)
}

/// The largest entry of a non-empty integer sequence (0 for an empty one).
pub open spec fn seq_max(s: Seq<int>) -> int
    decreases s.len(),
{
    if s.len() == 0 {
        0
    } else if s.len() == 1 {
        s[0]
    } else {
        let m = seq_max(s.drop_last());
        if s.last() > m {
            s.last()
        } else {
            m
        }
    }
}

/// The smallest entry of a non-empty integer sequence (0 for an empty one).
pub open spec fn seq_min(s: Seq<int>) -> int
    decreases s.len(),
{
    if s.len() == 0 {
        0
    } else if s.len() == 1 {
        s[0]
    } else {
        let m = seq_min(s.drop_last());
        if s.last() < m {
            s.last()
        } else {
            m
        }
    }
}

proof fn lemma_seq_max(s: Seq<int>)
    requires
        s.len() > 0,
    ensures
        forall|k: int| 0 <= k < s.len() ==> #[trigger] s[k] <= seq_max(s),
        exists|k: int| 0 <= k < s.len() && #[trigger] s[k] == seq_max(s),
    decreases s.len(),
{
    if s.len() == 1 {
        assert(s[0] == seq_max(s));
    } else {
        lemma_seq_max(s.drop_last());
        assert forall|k: int| 0 <= k < s.len() implies #[trigger] s[k] <= seq_max(s) by {
            if k < s.len() - 1 {
                assert(s.drop_last()[k] == s[k]);
            }
        }
        if s.last() > seq_max(s.drop_last()) {
            assert(s[s.len() - 1] == seq_max(s));
        } else {
            let j = choose|j: int|
                0 <= j < s.drop_last().len() && #[trigger] s.drop_last()[j] == seq_max(
                    s.drop_last(),
                );
            assert(s[j] == seq_max(s));
        }
    }
}

proof fn lemma_seq_min(s: Seq<int>)
    requires
        s.len() > 0,
    ensures
        forall|k: int| 0 <= k < s.len() ==> #[trigger] s[k] >= seq_min(s),
        exists|k: int| 0 <= k < s.len() && #[trigger] s[k] == seq_min(s),
    decreases s.len(),
{
    if s.len() == 1 {
        assert(s[0] == seq_min(s));
    } else {
        lemma_seq_min(s.drop_last());
        assert forall|k: int| 0 <= k < s.len() implies #[trigger] s[k] >= seq_min(s) by {
            if k < s.len() - 1 {
                assert(s.drop_last()[k] == s[k]);
            }
        }
        if s.last() < seq_min(s.drop_last()) {
            assert(s[s.len() - 1] == seq_min(s));
        } else {
            let j = choose|j: int|
                0 <= j < s.drop_last().len() && #[trigger] s.drop_last()[j] == seq_min(
                    s.drop_last(),
                );
            assert(s[j] == seq_min(s));
        }
    }
}

/// A bounded sequence that attains a bound has it as its maximum.
proof fn lemma_seq_max_is(s: Seq<int>, b: int)
    requires
        s.len() > 0,
        forall|k: int| 0 <= k < s.len() ==> #[trigger] s[k] <= b,
        exists|k: int| 0 <= k < s.len() && #[trigger] s[k] == b,
    ensures
        seq_max(s) == b,
{
    lemma_seq_max(s);
}

/// The offsets after a quarter turn, re-normalized: `(x, y)` maps to
/// `(y, max_x - x)`, which keeps the least row and column at 0.
pub open spec fn rotated(ps: Seq<Point>) -> Seq<Point> {
    ps.map_values(|p: Point| Point { x: p.y, y: (seq_max(xs(ps)) - p.x) as i32 })
}

/// The offsets mirrored along the column axis, re-normalized: `(x, y)` maps
/// to `(x, max_y - y)`.
pub open spec fn reflected(ps: Seq<Point>) -> Seq<Point> {
    ps.map_values(|p: Point| Point { x: p.x, y: (seq_max(ys(ps)) - p.y) as i32 })
}

proof fn lemma_rotated_pointwise(ps: Seq<Point>)
    requires
        shape_wf(ps),
    ensures
        rotated(ps).len() == ps.len(),
        forall|k: int| 0 <= k < ps.len() ==> (#[trigger] rotated(ps)[k]).x == ps[k].y && rotated(
            ps,
        )[k].y == seq_max(xs(ps)) - ps[k].x,
        0 <= seq_max(xs(ps)) <= i32::MAX,
{
    let m = seq_max(xs(ps));
    lemma_seq_max(xs(ps));
    let j = choose|j: int| 0 <= j < xs(ps).len() && #[trigger] xs(ps)[j] == m;
    assert(0 <= m <= i32::MAX);
    assert forall|k: int| 0 <= k < ps.len() implies (#[trigger] rotated(ps)[k]).x == ps[k].y
        && rotated(ps)[k].y == m - ps[k].x by {
        assert(xs(ps)[k] == ps[k].x);
        assert(0 <= m - ps[k].x <= i32::MAX);
    }
}

proof fn lemma_reflected_pointwise(ps: Seq<Point>)
    requires
        shape_wf(ps),
    ensures
        reflected(ps).len() == ps.len(),
        forall|k: int| 0 <= k < ps.len() ==> (#[trigger] reflected(ps)[k]).x == ps[k].x
            && reflected(ps)[k].y == seq_max(ys(ps)) - ps[k].y,
        0 <= seq_max(ys(ps)) <= i32::MAX,
{
    let m = seq_max(ys(ps));
    lemma_seq_max(ys(ps));
    assert(0 <= m <= i32::MAX);
    assert forall|k: int| 0 <= k < ps.len() implies (#[trigger] reflected(ps)[k]).x == ps[k].x
        && reflected(ps)[k].y == m - ps[k].y by {
        assert(ys(ps)[k] == ps[k].y);
        assert(0 <= m - ps[k].y <= i32::MAX);
    }
}

proof fn lemma_rotated_wf(ps: Seq<Point>)
    requires
        shape_wf(ps),
    ensures
        shape_wf(rotated(ps)),
{
    let r = rotated(ps);
    let m = seq_max(xs(ps));
    lemma_rotated_pointwise(ps);
    lemma_seq_max(xs(ps));
    // least row reaches 0: take an offset whose column is 0
    let ky = choose|k: int| 0 <= k < ps.len() && (#[trigger] ps[k]).y == 0;
    assert(r[ky].x == 0);
    // least column reaches 0: take an offset whose row attains the maximum
    let km = choose|k: int| 0 <= k < xs(ps).len() && #[trigger] xs(ps)[k] == m;
    assert(ps[km].x == m);
    assert(r[km].y == 0);
    assert forall|k: int| #![auto] 0 <= k < r.len() implies 0 <= r[k].x && 0 <= r[k].y by {
        assert(xs(ps)[k] == ps[k].x);
        assert(r[k].x == ps[k].y);
        assert(r[k].y == m - ps[k].x);
    }
    assert forall|k1: int, k2: int| 0 <= k1 < k2 < r.len() implies #[trigger] r[k1]
        != #[trigger] r[k2] by {
        assert(ps[k1] != ps[k2]);
        if r[k1] == r[k2] {
            assert(ps[k1].y == ps[k2].y);
            assert(m - ps[k1].x == m - ps[k2].x);
            assert(ps[k1] == ps[k2]);
        }
    }
}

proof fn lemma_reflected_wf(ps: Seq<Point>)
    requires
        shape_wf(ps),
    ensures
        shape_wf(reflected(ps)),
{
    let r = reflected(ps);
    let m = seq_max(ys(ps));
    lemma_reflected_pointwise(ps);
    lemma_seq_max(ys(ps));
    let kx = choose|k: int| 0 <= k < ps.len() && (#[trigger] ps[k]).x == 0;
    assert(r[kx].x == 0);
    let km = choose|k: int| 0 <= k < ys(ps).len() && #[trigger] ys(ps)[k] == m;
    assert(ps[km].y == m);
    assert(r[km].y == 0);
    assert forall|k: int| #![auto] 0 <= k < r.len() implies 0 <= r[k].x && 0 <= r[k].y by {
        assert(ys(ps)[k] == ps[k].y);
        assert(r[k].x == ps[k].x);
        assert(r[k].y == m - ps[k].y);
    }
    assert forall|k1: int, k2: int| 0 <= k1 < k2 < r.len() implies #[trigger] r[k1]
        != #[trigger] r[k2] by {
        assert(ps[k1] != ps[k2]);
        if r[k1] == r[k2] {
            assert(ps[k1].x == ps[k2].x);
            assert(m - ps[k1].y == m - ps[k2].y);
            assert(ps[k1] == ps[k2]);
        }
    }
}

/// Law: four quarter turns return any well-formed shape to itself, offset for
/// offset.
pub proof fn lemma_rotate_four_identity(ps: Seq<Point>)
    requires
        shape_wf(ps),
    ensures
        rotated(rotated(rotated(rotated(ps)))) == ps,
{
    let m0 = seq_max(xs(ps));
    let n0 = seq_max(ys(ps));
    let s1 = rotated(ps);
    let s2 = rotated(s1);
    let s3 = rotated(s2);
    let s4 = rotated(s3);
    lemma_rotated_pointwise(ps);
    lemma_rotated_wf(ps);
    lemma_seq_max(xs(ps));
    lemma_seq_max(ys(ps));
    lemma_seq_min(xs(ps));
    lemma_seq_min(ys(ps));

    // the rows of s1 are the columns of ps
    assert(xs(s1) =~= ys(ps));
    lemma_rotated_pointwise(s1);
    lemma_rotated_wf(s1);
    assert forall|k: int| 0 <= k < ps.len() implies (#[trigger] s2[k]).x == m0 - ps[k].x && s2[k].y
        == n0 - ps[k].y by {
        assert(s1[k].x == ps[k].y);
        assert(s1[k].y == m0 - ps[k].x);
    }

    // the rows of s2 are m0 minus the rows of ps, whose least entry is 0
    let k0 = choose|k: int| 0 <= k < ps.len() && (#[trigger] ps[k]).x == 0;
    assert(xs(s2)[k0] == m0);
    assert forall|k: int| 0 <= k < xs(s2).len() implies #[trigger] xs(s2)[k] <= m0 by {
        assert(xs(s2)[k] == m0 - ps[k].x);
    }
    lemma_seq_max_is(xs(s2), m0);
    lemma_rotated_pointwise(s2);
    lemma_rotated_wf(s2);
    assert forall|k: int| 0 <= k < ps.len() implies (#[trigger] s3[k]).x == n0 - ps[k].y && s3[k].y
        == ps[k].x by {
        assert(s2[k].x == m0 - ps[k].x);
        assert(s2[k].y == n0 - ps[k].y);
        assert(s3[k].x == s2[k].y);
        assert(s3[k].y == seq_max(xs(s2)) - s2[k].x);
    }

    // the rows of s3 are n0 minus the columns of ps, whose least entry is 0
    let l0 = choose|k: int| 0 <= k < ps.len() && (#[trigger] ps[k]).y == 0;
    assert(xs(s3)[l0] == n0);
    assert forall|k: int| 0 <= k < xs(s3).len() implies #[trigger] xs(s3)[k] <= n0 by {
        assert(xs(s3)[k] == n0 - ps[k].y);
    }
    lemma_seq_max_is(xs(s3), n0);
    lemma_rotated_pointwise(s3);
    assert forall|k: int| 0 <= k < ps.len() implies #[trigger] s4[k] == ps[k] by {
        assert(s3[k].x == n0 - ps[k].y);
        assert(s3[k].y == ps[k].x);
        assert(s4[k].x == s3[k].y);
        assert(s4[k].y == seq_max(xs(s3)) - s3[k].x);
    }
    assert(s4 =~= ps);
}

/// Law: reflecting twice returns any well-formed shape to itself, offset for
/// offset.
pub proof fn lemma_reflect_twice_identity(ps: Seq<Point>)
    requires
        shape_wf(ps),
    ensures
        reflected(reflected(ps)) == ps,
{
    let n0 = seq_max(ys(ps));
    let s1 = reflected(ps);
    let s2 = reflected(s1);
    lemma_reflected_pointwise(ps);
    lemma_reflected_wf(ps);
    lemma_seq_max(ys(ps));

    // the columns of s1 are n0 minus the columns of ps, whose least entry is 0
    let k0 = choose|k: int| 0 <= k < ps.len() && (#[trigger] ps[k]).y == 0;
    assert(ys(s1)[k0] == n0);
    assert forall|k: int| 0 <= k < ys(s1).len() implies #[trigger] ys(s1)[k] <= n0 by {
        assert(ys(s1)[k] == n0 - ps[k].y);
    }
    lemma_seq_max_is(ys(s1), n0);
    lemma_reflected_pointwise(s1);
    assert forall|k: int| 0 <= k < ps.len() implies #[trigger] s2[k] == ps[k] by {
        assert(s1[k].x == ps[k].x);
        assert(s1[k].y == n0 - ps[k].y);
        assert(s2[k].x == s1[k].x);
        assert(s2[k].y == seq_max(ys(s1)) - s1[k].y);
    }
    assert(s2 =~= ps);
}

fn max_x_exec(v: &Vec<Point>) -> (m: i32)
    requires
        v@.len() > 0,
    ensures
        m as int == seq_max(xs(v@)),
{
    let mut m = v[0].x;
    let n = v.len();
    for k in 1..n
        invariant
            n == v@.len(),
            1 <= k <= n,
            m as int == seq_max(xs(v@).take(k as int)),
    {
        proof {
            assert(xs(v@).take(k + 1).drop_last() =~= xs(v@).take(k as int));
            assert(xs(v@).take(k + 1).last() == xs(v@)[k as int]);
        }
        if v[k].x > m {
            m = v[k].x;
        }
    }
    proof {
        assert(xs(v@).take(n as int) =~= xs(v@));
    }
    m
}

fn max_y_exec(v: &Vec<Point>) -> (m: i32)
    requires
        v@.len() > 0,
    ensures
        m as int == seq_max(ys(v@)),
{
    let mut m = v[0].y;
    let n = v.len();
    for k in 1..n
        invariant
            n == v@.len(),
            1 <= k <= n,
            m as int == seq_max(ys(v@).take(k as int)),
    {
        proof {
            assert(ys(v@).take(k + 1).drop_last() =~= ys(v@).take(k as int));
            assert(ys(v@).take(k + 1).last() == ys(v@)[k as int]);
        }
        if v[k].y > m {
            m = v[k].y;
        }
    }
    proof {
        assert(ys(v@).take(n as int) =~= ys(v@));
    }
    m
}

fn min_x_exec(v: &Vec<Point>) -> (m: i32)
    requires
        v@.len() > 0,
    ensures
        m as int == seq_min(xs(v@)),
{
    let mut m = v[0].x;
    let n = v.len();
    for k in 1..n
        invariant
            n == v@.len(),
            1 <= k <= n,
            m as int == seq_min(xs(v@).take(k as int)),
    {
        proof {
            assert(xs(v@).take(k + 1).drop_last() =~= xs(v@).take(k as int));
            assert(xs(v@).take(k + 1).last() == xs(v@)[k as int]);
        }
        if v[k].x < m {
            m = v[k].x;
        }
    }
    proof {
        assert(xs(v@).take(n as int) =~= xs(v@));
    }
    m
}

fn min_y_exec(v: &Vec<Point>) -> (m: i32)
    requires
        v@.len() > 0,
    ensures
        m as int == seq_min(ys(v@)),
{
    let mut m = v[0].y;
    let n = v.len();
    for k in 1..n
        invariant
            n == v@.len(),
            1 <= k <= n,
            m as int == seq_min(ys(v@).take(k as int)),
    {
        proof {
            assert(ys(v@).take(k + 1).drop_last() =~= ys(v@).take(k as int));
            assert(ys(v@).take(k + 1).last() == ys(v@)[k as int]);
        }
        if v[k].y < m {
            m = v[k].y;
        }
    }
    proof {
        assert(ys(v@).take(n as int) =~= ys(v@));
    }
    m
}

/// The eight orientation variants of a shape: its four quarter-turn
/// rotations, and those of its reflection.
pub open spec fn orientation_variants(ps: Seq<Point>) -> Seq<Seq<Point>> {
    seq![
        ps,
        rotated(ps),
        rotated(rotated(ps)),
        rotated(rotated(rotated(ps))),
        reflected(ps),
        rotated(reflected(ps)),
        rotated(rotated(reflected(ps))),
        rotated(rotated(rotated(reflected(ps)))),
    ]
}

impl Block {
    /// Shape invariant, stated on the block's offsets.
    pub open spec fn wf(self) -> bool {
        shape_wf(self@)
    }

    /// The number of cells the shape occupies.
    pub fn cell_count(&self) -> (r: usize)
        ensures
            r == self@.len(),
    {
        self.ps.len()
    }

    /// An offset-for-offset copy of the shape.
    pub fn duplicate(&self) -> (r: Block)
        ensures
            r@ == self@,
    {
        let n = self.ps.len();
        let mut out: Vec<Point> = Vec::new();
        for k in 0..n
            invariant
                n == self@.len(),
                out@.len() == k,
                forall|j: int| 0 <= j < k ==> #[trigger] out@[j] == self@[j],
        {
            out.push(self.ps[k]);
        }
        proof {
            assert(out@ =~= self@);
        }
        Block { ps: out }
    }

    /// A new shape turned a quarter turn, re-normalized; the source is left
    /// unchanged.
    pub fn rotate(&self) -> (r: Block)
        requires
            self.wf(),
        ensures
            r.wf(),
            r@ == rotated(self@),
            r@.len() == self@.len(),
    {
        proof {
            lemma_rotated_pointwise(self@);
            lemma_seq_max(xs(self@));
        }
        let m = max_x_exec(&self.ps);
        let n = self.ps.len();
        let mut out: Vec<Point> = Vec::new();
        for k in 0..n
            invariant
                self.wf(),
                n == self@.len(),
                m as int == seq_max(xs(self@)),
                0 <= m,
                out@.len() == k,
                forall|j: int| 0 <= j < k ==> #[trigger] out@[j] == rotated(self@)[j],
                forall|j: int| 0 <= j < n ==> (#[trigger] rotated(self@)[j]).x == self@[j].y
                    && rotated(self@)[j].y == seq_max(xs(self@)) - self@[j].x,
                forall|j: int| #![auto] 0 <= j < n ==> 0 <= self@[j].x && 0 <= self@[j].y,
                forall|j: int| 0 <= j < n ==> #[trigger] xs(self@)[j] <= m,
        {
            let p = self.ps[k];
            proof {
                assert(xs(self@)[k as int] == p.x);
            }
            out.push(Point { x: p.y, y: m - p.x });
        }
        proof {
            assert(out@ =~= rotated(self@));
            lemma_rotated_wf(self@);
        }
        Block { ps: out }
    }

    /// A new shape mirrored along the column axis, re-normalized; the source
    /// is left unchanged.
    pub fn reflect(&self) -> (r: Block)
        requires
            self.wf(),
        ensures
            r.wf(),
            r@ == reflected(self@),
            r@.len() == self@.len(),
    {
        proof {
            lemma_reflected_pointwise(self@);
            lemma_seq_max(ys(self@));
        }
        let m = max_y_exec(&self.ps);
        let n = self.ps.len();
        let mut out: Vec<Point> = Vec::new();
        for k in 0..n
            invariant
                self.wf(),
                n == self@.len(),
                m as int == seq_max(ys(self@)),
                0 <= m,
                out@.len() == k,
                forall|j: int| 0 <= j < k ==> #[trigger] out@[j] == reflected(self@)[j],
                forall|j: int| 0 <= j < n ==> (#[trigger] reflected(self@)[j]).x == self@[j].x
                    && reflected(self@)[j].y == seq_max(ys(self@)) - self@[j].y,
                forall|j: int| #![auto] 0 <= j < n ==> 0 <= self@[j].x && 0 <= self@[j].y,
                forall|j: int| 0 <= j < n ==> #[trigger] ys(self@)[j] <= m,
        {
            let p = self.ps[k];
            proof {
                assert(ys(self@)[k as int] == p.y);
            }
            out.push(Point { x: p.x, y: m - p.y });
        }
        proof {
            assert(out@ =~= reflected(self@));
            lemma_reflected_wf(self@);
        }
        Block { ps: out }
    }
}

/// The rows of a shape grid, each row a sequence of cell marks.
pub open spec fn grid_view(rows: Seq<Vec<bool>>) -> Seq<Seq<bool>> {
    rows.map_values(|r: Vec<bool>| r@)
}

/// The offsets of the marked cells of row `i`, left to right.
pub open spec fn marked_row(row: Seq<bool>, i: int) -> Seq<Point>
    decreases row.len(),
{
    if row.len() == 0 {
        Seq::empty()
    } else {
        marked_row(row.drop_last(), i) + if row.last() {
            seq![Point { x: i as i32, y: (row.len() - 1) as i32 }]
        } else {
            Seq::empty()
        }
    }
}

/// The offsets of all marked cells of a grid, row-major.
pub open spec fn marked(g: Seq<Seq<bool>>) -> Seq<Point>
    decreases g.len(),
{
    if g.len() == 0 {
        Seq::empty()
    } else {
        marked(g.drop_last()) + marked_row(g.last(), g.len() - 1)
    }
}

/// The offsets shifted so that the least row and the least column become 0.
pub open spec fn normalize(ps: Seq<Point>) -> Seq<Point> {
    ps.map_values(
        |p: Point| Point {
            x: (p.x - seq_min(xs(ps))) as i32,
            y: (p.y - seq_min(ys(ps))) as i32,
        },
    )
}

proof fn lemma_marked_row_props(row: Seq<bool>, i: int)
    requires
        0 <= i <= i32::MAX,
        row.len() <= i32::MAX,
    ensures
        forall|k: int| #![auto] 0 <= k < marked_row(row, i).len() ==> marked_row(row, i)[k].x == i
            && 0 <= marked_row(row, i)[k].y < row.len() && row[marked_row(row, i)[k].y as int],
        forall|k1: int, k2: int| #![auto] 0 <= k1 < k2 < marked_row(row, i).len()
            ==> marked_row(row, i)[k1].y < marked_row(row, i)[k2].y,
        forall|j: int| 0 <= j < row.len() && row[j] ==> marked_row(row, i).contains(
            Point { x: i as i32, y: j as i32 },
        ),
    decreases row.len(),
{
    if row.len() > 0 {
        lemma_marked_row_props(row.drop_last(), i);
        let mr = marked_row(row, i);
        let dl = marked_row(row.drop_last(), i);
        assert forall|j: int| 0 <= j < row.len() && row[j] implies mr.contains(
            Point { x: i as i32, y: j as i32 },
        ) by {
            if j < row.len() - 1 {
                assert(row.drop_last()[j]);
                let k = choose|k: int|
                    0 <= k < dl.len() && dl[k] == Point { x: i as i32, y: j as i32 };
                assert(mr[k] == Point { x: i as i32, y: j as i32 });
            } else {
                assert(row.last());
                assert(mr[dl.len() as int] == Point { x: i as i32, y: j as i32 });
            }
        }
    }
}

proof fn lemma_marked_props(g: Seq<Seq<bool>>)
    requires
        g.len() <= i32::MAX,
        forall|i: int| 0 <= i < g.len() ==> (#[trigger] g[i]).len() <= i32::MAX,
    ensures
        forall|k: int| #![auto] 0 <= k < marked(g).len() ==> 0 <= marked(g)[k].x < g.len() && 0
            <= marked(g)[k].y < g[marked(g)[k].x as int].len() && g[marked(g)[k].x as int][marked(
            g,
        )[k].y as int],
        forall|k1: int, k2: int| #![auto] 0 <= k1 < k2 < marked(g).len() ==> (marked(g)[k1].x
            < marked(g)[k2].x || (marked(g)[k1].x == marked(g)[k2].x && marked(g)[k1].y < marked(
            g,
        )[k2].y)),
        forall|i: int, j: int| 0 <= i < g.len() && 0 <= j < g[i].len() && g[i][j] ==> marked(
            g,
        ).contains(Point { x: i as i32, y: j as i32 }),
    decreases g.len(),
{
    if g.len() > 0 {
        lemma_marked_props(g.drop_last());
        lemma_marked_row_props(g.last(), g.len() - 1);
        let mg = marked(g);
        let dl = marked(g.drop_last());
        let lr = marked_row(g.last(), g.len() - 1);
        assert forall|i: int, j: int| 0 <= i < g.len() && 0 <= j < g[i].len() && g[i][j] implies mg
            .contains(Point { x: i as i32, y: j as i32 }) by {
            if i < g.len() - 1 {
                assert(g.drop_last()[i] == g[i]);
                let k = choose|k: int|
                    0 <= k < dl.len() && dl[k] == Point { x: i as i32, y: j as i32 };
                assert(mg[k] == Point { x: i as i32, y: j as i32 });
            } else {
                assert(g.last() == g[i]);
                let k = choose|k: int|
                    0 <= k < lr.len() && lr[k] == Point { x: i as i32, y: j as i32 };
                assert(mg[dl.len() + k] == Point { x: i as i32, y: j as i32 });
            }
        }
    }
}

proof fn lemma_normalize_wf(ps: Seq<Point>)
    requires
        ps.len() > 0,
        forall|k: int| #![auto] 0 <= k < ps.len() ==> 0 <= ps[k].x && 0 <= ps[k].y,
        forall|k1: int, k2: int| 0 <= k1 < k2 < ps.len() ==> #[trigger] ps[k1] != #[trigger] ps[k2],
    ensures
        shape_wf(normalize(ps)),
        normalize(ps).len() == ps.len(),
        forall|k: int| #![auto] 0 <= k < ps.len() ==> normalize(ps)[k].x == ps[k].x - seq_min(
            xs(ps),
        ) && normalize(ps)[k].y == ps[k].y - seq_min(ys(ps)),
{
    let r = normalize(ps);
    let mx = seq_min(xs(ps));
    let my = seq_min(ys(ps));
    lemma_seq_min(xs(ps));
    lemma_seq_min(ys(ps));
    let ax = choose|k: int| 0 <= k < xs(ps).len() && #[trigger] xs(ps)[k] == mx;
    let ay = choose|k: int| 0 <= k < ys(ps).len() && #[trigger] ys(ps)[k] == my;
    assert(xs(ps)[ax] == ps[ax].x);
    assert(ys(ps)[ay] == ps[ay].y);
    assert(0 <= mx && 0 <= my);
    assert forall|k: int| #![auto] 0 <= k < ps.len() implies r[k].x == ps[k].x - mx && r[k].y
        == ps[k].y - my by {
        assert(xs(ps)[k] == ps[k].x);
        assert(ys(ps)[k] == ps[k].y);
        assert(0 <= ps[k].x - mx <= i32::MAX);
        assert(0 <= ps[k].y - my <= i32::MAX);
    }
    assert(r[ax].x == 0);
    assert(r[ay].y == 0);
    assert forall|k: int| #![auto] 0 <= k < r.len() implies 0 <= r[k].x && 0 <= r[k].y by {
        assert(xs(ps)[k] == ps[k].x);
        assert(ys(ps)[k] == ps[k].y);
    }
    assert forall|k1: int, k2: int| 0 <= k1 < k2 < r.len() implies #[trigger] r[k1]
        != #[trigger] r[k2] by {
        assert(ps[k1] != ps[k2]);
        if r[k1] == r[k2] {
            assert(ps[k1].x - mx == ps[k2].x - mx);
            assert(ps[k1].y - my == ps[k2].y - my);
            assert(ps[k1] == ps[k2]);
        }
    }
}

fn contains_point(v: &Vec<Point>, p: Point) -> (r: bool)
    ensures
        r == v@.contains(p),
{
    let n = v.len();
    for k in 0..n
        invariant
            n == v@.len(),
            forall|j: int| 0 <= j < k ==> #[trigger] v@[j] != p,
    {
        if v[k].x == p.x && v[k].y == p.y {
            proof {
                assert(v@[k as int] == p);
            }
            return true;
        }
    }
    proof {
        if v@.contains(p) {
            let j = choose|j: int| 0 <= j < v@.len() && v@[j] == p;
            assert(false);
        }
    }
    false
}

impl Block {
    /// Builds a block from a grid of cell marks: each `true` cell becomes an
    /// offset, row-major, and the result is re-normalized so the least marked
    /// row and column sit at 0. Fails exactly when no cell is marked.
    pub fn from_shape(rows: &Vec<Vec<bool>>) -> (r: Result<Block, PuzzleError>)
        requires
            rows@.len() <= i32::MAX,
            forall|i: int| 0 <= i < rows@.len() ==> (#[trigger] rows@[i])@.len() <= i32::MAX,
        ensures
            r is Ok <==> (exists|i: int, j: int|
                0 <= i < rows@.len() && 0 <= j < rows@[i]@.len() && #[trigger] rows@[i]@[j]),
            r is Err ==> r == Err::<Block, PuzzleError>(PuzzleError::Shape),
            r matches Ok(b) ==> b.wf() && b@ == normalize(marked(grid_view(rows@))),
    {
        let ghost gv = grid_view(rows@);
        proof {
            assert forall|i: int| 0 <= i < gv.len() implies (#[trigger] gv[i]).len()
                <= i32::MAX by {
                assert(gv[i] == rows@[i]@);
            }
            lemma_marked_props(gv);
        }
        let mut pts: Vec<Point> = Vec::new();
        let nr = rows.len();
        for i in 0..nr
            invariant
                nr == rows@.len(),
                gv == grid_view(rows@),
                nr <= i32::MAX,
                forall|t: int| 0 <= t < rows@.len() ==> (#[trigger] rows@[t])@.len() <= i32::MAX,
                pts@ == marked(gv.take(i as int)),
        {
            let nc = rows[i].len();
            for j in 0..nc
                invariant
                    nr == rows@.len(),
                    gv == grid_view(rows@),
                    nr <= i32::MAX,
                    i < nr,
                    nc == rows@[i as int]@.len(),
                    nc <= i32::MAX,
                    pts@ == marked(gv.take(i as int)) + marked_row(
                        rows@[i as int]@.take(j as int),
                        i as int,
                    ),
            {
                proof {
                    assert(rows@[i as int]@.take(j + 1).drop_last() =~= rows@[i as int]@.take(
                        j as int,
                    ));
                    assert(rows@[i as int]@.take(j + 1).last() == rows@[i as int]@[j as int]);
                }
                if rows[i][j] {
                    pts.push(Point { x: i as i32, y: j as i32 });
                }
                proof {
                    assert(pts@ == marked(gv.take(i as int)) + marked_row(
                        rows@[i as int]@.take(j + 1),
                        i as int,
                    ));
                }
            }
            proof {
                assert(rows@[i as int]@.take(nc as int) =~= rows@[i as int]@);
                assert(gv.take(i + 1).drop_last() =~= gv.take(i as int));
                assert(gv.take(i + 1).last() == gv[i as int]);
                assert(gv[i as int] == rows@[i as int]@);
                assert(pts@ == marked(gv.take(i + 1)));
            }
        }
        proof {
            assert(gv.take(nr as int) =~= gv);
        }
        if pts.len() == 0 {
            proof {
                if exists|i: int, j: int|
                    0 <= i < rows@.len() && 0 <= j < rows@[i]@.len() && #[trigger] rows@[i]@[j] {
                    let (i, j) = choose|i: int, j: int|
                        0 <= i < rows@.len() && 0 <= j < rows@[i]@.len()
                            && #[trigger] rows@[i]@[j];
                    assert(gv[i] == rows@[i]@);
                    assert(marked(gv).contains(Point { x: i as i32, y: j as i32 }));
                    assert(false);
                }
            }
            return Err(PuzzleError::Shape);
        }
        proof {
            // some marked cell exists: the first collected offset names one
            assert(0 <= marked(gv)[0].x < gv.len());
            assert(gv[marked(gv)[0].x as int] == rows@[marked(gv)[0].x as int]@);
        }
        let mnx = min_x_exec(&pts);
        let mny = min_y_exec(&pts);
        proof {
            lemma_seq_min(xs(pts@));
            lemma_seq_min(ys(pts@));
            lemma_normalize_wf(pts@);
        }
        let n = pts.len();
        let mut out: Vec<Point> = Vec::new();
        for k in 0..n
            invariant
                n == pts@.len(),
                mnx as int == seq_min(xs(pts@)),
                mny as int == seq_min(ys(pts@)),
                forall|j: int| #![auto] 0 <= j < n ==> 0 <= pts@[j].x && 0 <= pts@[j].y,
                forall|j: int| 0 <= j < n ==> #[trigger] xs(pts@)[j] >= mnx,
                forall|j: int| 0 <= j < n ==> #[trigger] ys(pts@)[j] >= mny,
                0 <= mnx,
                0 <= mny,
                out@.len() == k,
                forall|j: int| 0 <= j < k ==> #[trigger] out@[j] == normalize(pts@)[j],
                forall|j: int| #![auto] 0 <= j < n ==> normalize(pts@)[j].x == pts@[j].x - mnx
                    && normalize(pts@)[j].y == pts@[j].y - mny,
        {
            let p = pts[k];
            proof {
                assert(xs(pts@)[k as int] == p.x);
                assert(ys(pts@)[k as int] == p.y);
            }
            out.push(Point { x: p.x - mnx, y: p.y - mny });
        }
        proof {
            assert(out@ =~= normalize(pts@));
        }
        Ok(Block { ps: out })
    }

    /// Whether two shapes occupy the same set of offsets.
    pub fn same_shape(&self, other: &Block) -> (r: bool)
        requires
            self.wf(),
            other.wf(),
        ensures
            r == (self@.to_set() == other@.to_set()),
    {
        proof {
            assert(self@.no_duplicates()) by {
                assert forall|a: int, b: int|
                    0 <= a < self@.len() && 0 <= b < self@.len() && a != b implies self@[a]
                    != self@[b] by {
                    if a < b {
                        assert(self@[a] != self@[b]);
                    } else {
                        assert(self@[b] != self@[a]);
                    }
                }
            }
            assert(other@.no_duplicates()) by {
                assert forall|a: int, b: int|
                    0 <= a < other@.len() && 0 <= b < other@.len() && a != b implies other@[a]
                    != other@[b] by {
                    if a < b {
                        assert(other@[a] != other@[b]);
                    } else {
                        assert(other@[b] != other@[a]);
                    }
                }
            }
            self@.unique_seq_to_set();
            other@.unique_seq_to_set();
            vstd::seq_lib::seq_to_set_is_finite(self@);
            vstd::seq_lib::seq_to_set_is_finite(other@);
        }
        if self.ps.len() != other.ps.len() {
            return false;
        }
        let n = self.ps.len();
        for k in 0..n
            invariant
                n == self@.len(),
                forall|j: int| 0 <= j < k ==> other@.contains(#[trigger] self@[j]),
        {
            if !contains_point(&other.ps, self.ps[k]) {
                proof {
                    assert(self@.to_set().contains(self@[k as int]));
                    assert(!other@.to_set().contains(self@[k as int]));
                }
                return false;
            }
            proof {
                assert(other@.contains(self@[k as int]));
            }
        }
        proof {
            assert(self@.to_set().subset_of(other@.to_set())) by {
                assert forall|p: Point| self@.to_set().contains(p) implies other@.to_set()
                    .contains(p) by {
                    let j = choose|j: int| 0 <= j < self@.len() && self@[j] == p;
                    assert(other@.contains(self@[j]));
                }
            }
            if self@.to_set() != other@.to_set() {
                assert(!forall|p: Point|
                    self@.to_set().contains(p) == other@.to_set().contains(p)) by {
                    if forall|p: Point| self@.to_set().contains(p) == other@.to_set().contains(
                        p,
                    ) {
                        assert(self@.to_set() =~= other@.to_set());
                    }
                }
                let p = choose|p: Point|
                    !(self@.to_set().contains(p) == other@.to_set().contains(p));
                self@.to_set().lemma_subset_not_in_lt(other@.to_set(), p);
                assert(false);
            }
        }
        true
    }

    /// The distinct orientations of the shape: up to eight rotation and
    /// reflection variants, deduplicated by offset-set equality, with the
    /// shape itself first.
    #[verifier::rlimit(50)]
    pub fn orientations(&self) -> (os: Vec<Block>)
        requires
            self.wf(),
        ensures
            1 <= os@.len() <= 8,
            forall|k: int| 0 <= k < os@.len() ==> (#[trigger] os@[k]).wf() && os@[k]@.len()
                == self@.len(),
            os@[0]@ == self@,
            forall|k1: int, k2: int| #![auto] 0 <= k1 < k2 < os@.len() ==> os@[k1]@.to_set()
                != os@[k2]@.to_set(),
            forall|k: int| 0 <= k < os@.len() ==> exists|j: int|
                0 <= j < 8 && (#[trigger] os@[k])@ == orientation_variants(self@)[j],
            forall|j: int| 0 <= j < 8 ==> exists|k: int|
                0 <= k < os@.len() && os@[k]@.to_set() == (#[trigger] orientation_variants(
                    self@,
                )[j]).to_set(),
    {
        let r1 = self.rotate();
        let r2 = r1.rotate();
        let r3 = r2.rotate();
        let f0 = self.reflect();
        let f1 = f0.rotate();
        let f2 = f1.rotate();
        let f3 = f2.rotate();
        let mut cands: Vec<Block> = Vec::new();
        cands.push(self.duplicate());
        cands.push(r1);
        cands.push(r2);
        cands.push(r3);
        cands.push(f0);
        cands.push(f1);
        cands.push(f2);
        cands.push(f3);
        proof {
            assert forall|j: int| 0 <= j < 8 implies (#[trigger] cands@[j])@
                == orientation_variants(self@)[j] by {
            }
        }
        let mut os: Vec<Block> = Vec::new();
        let nc = cands.len();
        for k in 0..nc
            invariant
                nc == 8,
                nc == cands@.len(),
                forall|j: int| 0 <= j < 8 ==> (#[trigger] cands@[j]).wf() && cands@[j]@.len()
                    == self@.len(),
                cands@[0]@ == self@,
                os@.len() <= k,
                k >= 1 ==> 1 <= os@.len() && os@[0]@ == self@,
                forall|j: int| 0 <= j < os@.len() ==> (#[trigger] os@[j]).wf() && os@[j]@.len()
                    == self@.len(),
                forall|j1: int, j2: int| #![auto] 0 <= j1 < j2 < os@.len() ==> os@[j1]@.to_set()
                    != os@[j2]@.to_set(),
                forall|j: int| 0 <= j < 8 ==> (#[trigger] cands@[j])@ == orientation_variants(
                    self@,
                )[j],
                forall|u: int| 0 <= u < os@.len() ==> exists|j: int|
                    0 <= j < 8 && (#[trigger] os@[u])@ == cands@[j]@,
                forall|j: int| 0 <= j < k ==> exists|u: int|
                    0 <= u < os@.len() && os@[u]@.to_set() == (#[trigger] cands@[j])@.to_set(),
        {
            let ghost os0 = os@;
            let mut dup = false;
            let no = os.len();
            for t in 0..no
                invariant
                    no == os@.len(),
                    os0 == os@,
                    k < 8,
                    nc == 8,
                    nc == cands@.len(),
                    forall|j: int| 0 <= j < 8 ==> (#[trigger] cands@[j]).wf() && cands@[j]@.len()
                        == self@.len(),
                    forall|j: int| 0 <= j < os@.len() ==> (#[trigger] os@[j]).wf()
                        && os@[j]@.len() == self@.len(),
                    dup == (exists|u: int|
                        0 <= u < t && (#[trigger] os@[u])@.to_set() == cands@[k as int]@.to_set()),
            {
                if os[t].same_shape(&cands[k]) {
                    dup = true;
                }
            }
            if !dup {
                os.push(cands[k].duplicate());
            }
            proof {
                let ki = k as int;
                if !dup {
                    assert(os@[os@.len() - 1]@ == cands@[ki]@);
                }
                assert forall|u: int| 0 <= u < os@.len() implies exists|j: int|
                    0 <= j < 8 && (#[trigger] os@[u])@ == cands@[j]@ by {
                    if u < os0.len() {
                        let j = choose|j: int| 0 <= j < 8 && (#[trigger] os0[u])@ == cands@[j]@;
                        assert(os@[u] == os0[u]);
                        assert(os@[u]@ == cands@[j]@);
                    } else {
                        assert(os@[u]@ == cands@[ki]@);
                    }
                }
                assert forall|j: int| 0 <= j < ki + 1 implies exists|u: int|
                    0 <= u < os@.len() && os@[u]@.to_set() == (#[trigger] cands@[j])@.to_set() by {
                    if j < ki {
                        let u = choose|u: int|
                            0 <= u < os0.len() && os0[u]@.to_set()
                                == (#[trigger] cands@[j])@.to_set();
                        assert(os@[u] == os0[u]);
                        assert(os@[u]@.to_set() == cands@[j]@.to_set());
                    } else {
                        if dup {
                            let u = choose|u: int|
                                0 <= u < os0.len() && (#[trigger] os0[u])@.to_set()
                                    == cands@[ki]@.to_set();
                            assert(os@[u] == os0[u]);
                            assert(os@[u]@.to_set() == cands@[ki]@.to_set());
                        } else {
                            assert(os@[os@.len() - 1]@.to_set() == cands@[ki]@.to_set());
                        }
                    }
                }
            }
        }
        proof {
            assert forall|j: int| 0 <= j < 8 implies exists|k: int|
                0 <= k < os@.len() && os@[k]@.to_set() == (#[trigger] orientation_variants(
                    self@,
                )[j]).to_set() by {
                let u = choose|u: int|
                    0 <= u < os@.len() && (#[trigger] os@[u])@.to_set() == cands@[j]@.to_set();
                assert(os@[u]@.to_set() == orientation_variants(self@)[j].to_set());
            }
            assert forall|k: int| 0 <= k < os@.len() implies exists|j: int|
                0 <= j < 8 && (#[trigger] os@[k])@ == orientation_variants(self@)[j] by {
                let j = choose|j: int| 0 <= j < 8 && (#[trigger] os@[k])@ == cands@[j]@;
                assert(os@[k]@ == orientation_variants(self@)[j]);
            }
        }
        os
    }
}

/// The fixed inventory of the puzzle: eight pieces, one six-cell rectangle
/// and seven five-cell pieces, 41 cells in all. The index of a piece in the
/// returned vector is its stable identifier, used as `Fill(id)` once placed.
pub fn catalog() -> (blocks: Vec<Block>)
    ensures
        blocks@.len() == 8,
        forall|k: int| 0 <= k < blocks@.len() ==> (#[trigger] blocks@[k]).wf(),
        blocks@[0]@.len() == 6,
        forall|k: int| 1 <= k < blocks@.len() ==> (#[trigger] blocks@[k])@.len() == 5,
        blocks@[0]@ == (seq![Point { x: 0, y: 0 }, Point { x: 0, y: 1 }, Point { x: 0, y: 2 }, Point { x: 1, y: 0 }, Point { x: 1, y: 1 }, Point { x: 1, y: 2 }]),
        blocks@[1]@ == (seq![Point { x: 0, y: 0 }, Point { x: 0, y: 2 }, Point { x: 1, y: 0 }, Point { x: 1, y: 1 }, Point { x: 1, y: 2 }]),
        blocks@[2]@ == (seq![Point { x: 0, y: 0 }, Point { x: 1, y: 0 }, Point { x: 2, y: 0 }, Point { x: 3, y: 0 }, Point { x: 3, y: 1 }]),
        blocks@[3]@ == (seq![Point { x: 0, y: 1 }, Point { x: 1, y: 1 }, Point { x: 2, y: 0 }, Point { x: 2, y: 1 }, Point { x: 3, y: 0 }]),
        blocks@[4]@ == (seq![Point { x: 0, y: 0 }, Point { x: 0, y: 1 }, Point { x: 1, y: 0 }, Point { x: 1, y: 1 }, Point { x: 2, y: 0 }]),
        blocks@[5]@ == (seq![Point { x: 0, y: 0 }, Point { x: 1, y: 0 }, Point { x: 2, y: 0 }, Point { x: 2, y: 1 }, Point { x: 2, y: 2 }]),
        blocks@[6]@ == (seq![Point { x: 0, y: 0 }, Point { x: 0, y: 1 }, Point { x: 1, y: 1 }, Point { x: 2, y: 1 }, Point { x: 2, y: 2 }]),
        blocks@[7]@ == (seq![Point { x: 0, y: 1 }, Point { x: 1, y: 0 }, Point { x: 1, y: 1 }, Point { x: 2, y: 1 }, Point { x: 3, y: 1 }]),
{
    let mut blocks: Vec<Block> = Vec::new();

    // ###
    // ###
    let mut v0: Vec<Point> = Vec::new();
    v0.push(Point { x: 0, y: 0 });
    v0.push(Point { x: 0, y: 1 });
    v0.push(Point { x: 0, y: 2 });
    v0.push(Point { x: 1, y: 0 });
    v0.push(Point { x: 1, y: 1 });
    v0.push(Point { x: 1, y: 2 });
    let b0 = Block { ps: v0 };
    proof {
        assert(b0@[0].x == 0 && b0@[0].y == 0);
        assert(b0@ =~= seq![Point { x: 0, y: 0 }, Point { x: 0, y: 1 }, Point { x: 0, y: 2 }, Point { x: 1, y: 0 }, Point { x: 1, y: 1 }, Point { x: 1, y: 2 }]);
        assert(b0.wf());
    }
    blocks.push(b0);

    // #.#
    // ###
    let mut v1: Vec<Point> = Vec::new();
    v1.push(Point { x: 0, y: 0 });
    v1.push(Point { x: 0, y: 2 });
    v1.push(Point { x: 1, y: 0 });
    v1.push(Point { x: 1, y: 1 });
    v1.push(Point { x: 1, y: 2 });
    let b1 = Block { ps: v1 };
    proof {
        assert(b1@[0].x == 0 && b1@[0].y == 0);
        assert(b1@ =~= seq![Point { x: 0, y: 0 }, Point { x: 0, y: 2 }, Point { x: 1, y: 0 }, Point { x: 1, y: 1 }, Point { x: 1, y: 2 }]);
        assert(b1.wf());
    }
    blocks.push(b1);

    // #.
    // #.
    // #.
    // ##
    let mut v2: Vec<Point> = Vec::new();
    v2.push(Point { x: 0, y: 0 });
    v2.push(Point { x: 1, y: 0 });
    v2.push(Point { x: 2, y: 0 });
    v2.push(Point { x: 3, y: 0 });
    v2.push(Point { x: 3, y: 1 });
    let b2 = Block { ps: v2 };
    proof {
        assert(b2@[0].x == 0 && b2@[0].y == 0);
        assert(b2@ =~= seq![Point { x: 0, y: 0 }, Point { x: 1, y: 0 }, Point { x: 2, y: 0 }, Point { x: 3, y: 0 }, Point { x: 3, y: 1 }]);
        assert(b2.wf());
    }
    blocks.push(b2);

    // .#
    // .#
    // ##
    // #.
    let mut v3: Vec<Point> = Vec::new();
    v3.push(Point { x: 0, y: 1 });
    v3.push(Point { x: 1, y: 1 });
    v3.push(Point { x: 2, y: 0 });
    v3.push(Point { x: 2, y: 1 });
    v3.push(Point { x: 3, y: 0 });
    let b3 = Block { ps: v3 };
    proof {
        assert(b3@[0].x == 0);
        assert(b3@[2].y == 0);
        assert(b3@ =~= seq![Point { x: 0, y: 1 }, Point { x: 1, y: 1 }, Point { x: 2, y: 0 }, Point { x: 2, y: 1 }, Point { x: 3, y: 0 }]);
        assert(b3.wf());
    }
    blocks.push(b3);

    // ##
    // ##
    // #.
    let mut v4: Vec<Point> = Vec::new();
    v4.push(Point { x: 0, y: 0 });
    v4.push(Point { x: 0, y: 1 });
    v4.push(Point { x: 1, y: 0 });
    v4.push(Point { x: 1, y: 1 });
    v4.push(Point { x: 2, y: 0 });
    let b4 = Block { ps: v4 };
    proof {
        assert(b4@[0].x == 0 && b4@[0].y == 0);
        assert(b4@ =~= seq![Point { x: 0, y: 0 }, Point { x: 0, y: 1 }, Point { x: 1, y: 0 }, Point { x: 1, y: 1 }, Point { x: 2, y: 0 }]);
        assert(b4.wf());
    }
    blocks.push(b4);

    // #..
    // #..
    // ###
    let mut v5: Vec<Point> = Vec::new();
    v5.push(Point { x: 0, y: 0 });
    v5.push(Point { x: 1, y: 0 });
    v5.push(Point { x: 2, y: 0 });
    v5.push(Point { x: 2, y: 1 });
    v5.push(Point { x: 2, y: 2 });
    let b5 = Block { ps: v5 };
    proof {
        assert(b5@[0].x == 0 && b5@[0].y == 0);
        assert(b5@ =~= seq![Point { x: 0, y: 0 }, Point { x: 1, y: 0 }, Point { x: 2, y: 0 }, Point { x: 2, y: 1 }, Point { x: 2, y: 2 }]);
        assert(b5.wf());
    }
    blocks.push(b5);

    // ##.
    // .#.
    // .##
    let mut v6: Vec<Point> = Vec::new();
    v6.push(Point { x: 0, y: 0 });
    v6.push(Point { x: 0, y: 1 });
    v6.push(Point { x: 1, y: 1 });
    v6.push(Point { x: 2, y: 1 });
    v6.push(Point { x: 2, y: 2 });
    let b6 = Block { ps: v6 };
    proof {
        assert(b6@[0].x == 0 && b6@[0].y == 0);
        assert(b6@ =~= seq![Point { x: 0, y: 0 }, Point { x: 0, y: 1 }, Point { x: 1, y: 1 }, Point { x: 2, y: 1 }, Point { x: 2, y: 2 }]);
        assert(b6.wf());
    }
    blocks.push(b6);

    // .#
    // ##
    // .#
    // .#
    let mut v7: Vec<Point> = Vec::new();
    v7.push(Point { x: 0, y: 1 });
    v7.push(Point { x: 1, y: 0 });
    v7.push(Point { x: 1, y: 1 });
    v7.push(Point { x: 2, y: 1 });
    v7.push(Point { x: 3, y: 1 });
    let b7 = Block { ps: v7 };
    proof {
        assert(b7@[0].x == 0);
        assert(b7@[1].y == 0);
        assert(b7@ =~= seq![Point { x: 0, y: 1 }, Point { x: 1, y: 0 }, Point { x: 1, y: 1 }, Point { x: 2, y: 1 }, Point { x: 3, y: 1 }]);
        assert(b7.wf());
    }
    blocks.push(b7);

    blocks
}

} // verus!
