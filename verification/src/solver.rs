//! The solver proper: input validation and normalization, shape
//! preprocessing into flat placement caches, the pruned depth-first
//! backtracking search, and the translation of the terminal search state
//! into caller-facing placement steps.

use vstd::prelude::*;

verus! {

use crate::cancel::CancelToken;
use crate::model::{
    all_zero, apply_cells, cells_in_range, grid_sum, lemma_apply_cells_char,
    lemma_apply_then_undo_is_identity, lemma_grid_sum_nonneg, lemma_grid_sum_zero,
    lemma_normal_token_branches, lemma_replay_sum, lemma_strictly_increasing_ge_index,
    lemma_overspent_prefix_never_solves, lemma_usum_permutation, normal_token, plays_pts,
    plays_wf, replay, replay_hits,
    strictly_increasing, tokens_lt, undo_cells, usum, zero_hits,
};

/// A solve request: a `width x height` row-major grid of raw cell values,
/// the raw value every cell must reach, and the pieces to place.
///
/// Shape identifiers must be exactly `0..shapes.len()`, in some order. This
/// is a deliberate interface limit, checked up front: it guarantees the
/// answer carries exactly one step per piece, keyed by identifier, where
/// arbitrary identifiers would silently lose pieces from the answer.
pub struct SolverInput {
    pub width: usize,
    pub height: usize,
    pub grid: Vec<u8>,
    pub goal: u8,
    pub shapes: Vec<ShapeData>,
}

/// One piece: a caller-assigned identifier and the absolute grid-cell
/// indices of its pattern at the origin translation.
pub struct ShapeData {
    pub id: usize,
    pub points: Vec<usize>,
}

/// One placement of the answer: the piece, the translation chosen for it,
/// and the raster index of that translation in the piece's placement cache.
#[derive(Clone, Copy, Debug, PartialEq, Eq)]
pub struct SolutionStep {
    pub original_shape_id: usize,
    pub placement_x: usize,
    pub placement_y: usize,
    pub placement_seq: usize,
}

/// A configuration error, detected before any search step.
#[derive(Clone, Copy, Debug, PartialEq, Eq)]
pub enum SolveError {
    /// The request supplied no shapes at all.
    NoShapes,
    /// Shape identifiers are not exactly `0..shapes.len()`. Identifiers
    /// outside that range, or repeated, would leave pieces without a step
    /// in the answer, so they are rejected up front.
    InvalidShapeId,
    /// A shape point lies outside the grid.
    PointOutOfRange,
    /// A shape lists the same point twice.
    DuplicatePoint,
    /// Total shape coverage and total required decrements do not reconcile
    /// to a whole, nonnegative number of slack cycles.
    InconsistentTotals,
}

/// The three terminal outcomes of a search.
#[derive(Debug, PartialEq, Eq)]
pub enum SolveOutcome {
    /// A placement for every shape that drives every cell to the goal.
    Solved(Vec<SolutionStep>),
    /// The search order was exhausted: no solution exists in it.
    NoSolution,
    /// The search was abandoned on a cancellation signal.
    Cancelled,
}

/// A preprocessed shape: its placement cache holds, for each of the `tot`
/// translations in raster order, the `npts` covered absolute cell indices.
pub struct Shape {
    pub original_id: usize,
    pub npts: usize,
    pub ax: usize,
    pub tot: usize,
    pub cache: Vec<usize>,
    pub equivalent_to: Option<usize>,
}

/// The search state built once per request: the cycle length, the
/// normalized grid, the shapes in search order, and the initial slack
/// budget of the first shape.
pub struct Solver {
    pub max_token: usize,
    pub mat: Vec<u8>,
    pub shapes: Vec<Shape>,
    pub ns: usize,
    pub incs: usize,
}

/// The covered cells of one translation of a shape.
pub open spec fn placement_cells(sh: Shape, s: int) -> Seq<usize> {
    sh.cache@.subrange(s * sh.npts, (s + 1) * sh.npts)
}

pub open spec fn shape_wf(sh: Shape, grid_len: int) -> bool {
    &&& sh.cache@.len() == sh.tot * sh.npts
    &&& sh.tot >= 1
    &&& sh.ax >= 1
    &&& cells_in_range(sh.cache@, grid_len)
    &&& forall|k: int| 0 <= k < sh.tot ==> strictly_increasing(#[trigger] placement_cells(sh, k))
}

/// Sum of the point counts of the shapes in search order.
pub open spec fn total_npts(shapes: Seq<Shape>) -> int
    decreases shapes.len(),
{
    if shapes.len() == 0 {
        0
    } else {
        total_npts(shapes.drop_last()) + shapes.last().npts
    }
}

/// Some shape in the list carries the identifier `m`.
pub open spec fn has_id(shapes: Seq<Shape>, m: int) -> bool {
    exists|j: int| 0 <= j < shapes.len() && (#[trigger] shapes[j].original_id) as int == m
}

pub open spec fn ids_are_permutation(shapes: Seq<Shape>) -> bool {
    &&& forall|j: int| 0 <= j < shapes.len() ==> (#[trigger] shapes[j].original_id) < shapes.len()
    &&& forall|j: int, k: int|
        0 <= j < k < shapes.len() ==> shapes[j].original_id != shapes[k].original_id
    &&& forall|m: int| 0 <= m < shapes.len() ==> #[trigger] has_id(shapes, m)
}


/// The largest raw value of the grid (zero for an empty grid).
pub open spec fn seq_max(s: Seq<u8>) -> int
    decreases s.len(),
{
    if s.len() == 0 {
        0
    } else if s.last() as int >= seq_max(s.drop_last()) {
        s.last() as int
    } else {
        seq_max(s.drop_last())
    }
}

proof fn lemma_seq_max_props(s: Seq<u8>)
    ensures
        seq_max(s) >= 0,
        forall|c: int| 0 <= c < s.len() ==> (s[c] as int) <= seq_max(s),
    decreases s.len(),
{
    if s.len() > 0 {
        lemma_seq_max_props(s.drop_last());
        assert forall|c: int| 0 <= c < s.len() implies (s[c] as int) <= seq_max(s) by {
            if c < s.len() - 1 {
                assert(s.drop_last()[c] == s[c]);
            }
        }
    }
}

/// The cycle length of a request: one plus the largest raw grid value.
pub open spec fn spec_mt(input: SolverInput) -> int {
    seq_max(input.grid@) + 1
}

/// The normalized grid of a request: every cell as its goal-relative token.
pub open spec fn norm_grid(input: SolverInput) -> Seq<u8> {
    Seq::new(
        input.grid@.len(),
        |c: int| normal_token(input.goal as int, input.grid@[c] as int, spec_mt(input)) as u8,
    )
}

/// The point count of every shape of the request, in request order.
pub open spec fn input_npts(shapes: Seq<ShapeData>) -> Seq<usize> {
    Seq::new(shapes.len(), |j: int| shapes[j].points@.len() as usize)
}

pub open spec fn has_data_id(shapes: Seq<ShapeData>, m: int) -> bool {
    exists|j: int| 0 <= j < shapes.len() && (#[trigger] shapes[j].id) as int == m
}

/// Shape identifiers are exactly `0..shapes.len()`, in some order.
pub open spec fn input_ids_ok(shapes: Seq<ShapeData>) -> bool {
    &&& forall|j: int| 0 <= j < shapes.len() ==> (#[trigger] shapes[j].id) < shapes.len()
    &&& forall|j: int, k: int| 0 <= j < k < shapes.len() ==> shapes[j].id != shapes[k].id
    &&& forall|m: int| 0 <= m < shapes.len() ==> #[trigger] has_data_id(shapes, m)
}

pub open spec fn points_in_range_ok(shapes: Seq<ShapeData>, cells: int) -> bool {
    forall|j: int, l: int|
        0 <= j < shapes.len() && 0 <= l < shapes[j].points@.len() ==> (
        #[trigger] shapes[j].points@[l]) < cells
}

pub open spec fn no_dup_points_ok(shapes: Seq<ShapeData>) -> bool {
    forall|j: int| 0 <= j < shapes.len() ==> (#[trigger] shapes[j].points@).no_duplicates()
}

/// Total coverage reconciles with total required decrements: the slack is a
/// whole, nonnegative number of cycles.
pub open spec fn totals_ok(input: SolverInput) -> bool {
    let togs = usum(input_npts(input.shapes@));
    let gsum = grid_sum(norm_grid(input));
    togs >= gsum && (togs - gsum) % spec_mt(input) == 0
}

/// The validation verdict on a request, with errors ranked in the order the
/// solver reports them.
pub open spec fn spec_validate(input: SolverInput) -> Result<(), SolveError> {
    if input.shapes@.len() == 0 {
        Err(SolveError::NoShapes)
    } else if !input_ids_ok(input.shapes@) {
        Err(SolveError::InvalidShapeId)
    } else if !points_in_range_ok(input.shapes@, (input.width * input.height) as int) {
        Err(SolveError::PointOutOfRange)
    } else if !no_dup_points_ok(input.shapes@) {
        Err(SolveError::DuplicatePoint)
    } else if !totals_ok(input) {
        Err(SolveError::InconsistentTotals)
    } else {
        Ok(())
    }
}

/// Largest column offset among a shape's points.
pub open spec fn max_col(pts: Seq<usize>, w: int) -> int
    decreases pts.len(),
{
    if pts.len() == 0 {
        0
    } else if (pts.last() as int) % w >= max_col(pts.drop_last(), w) {
        (pts.last() as int) % w
    } else {
        max_col(pts.drop_last(), w)
    }
}

/// Largest row offset among a shape's points.
pub open spec fn max_row(pts: Seq<usize>, w: int) -> int
    decreases pts.len(),
{
    if pts.len() == 0 {
        0
    } else if (pts.last() as int) / w >= max_row(pts.drop_last(), w) {
        (pts.last() as int) / w
    } else {
        max_row(pts.drop_last(), w)
    }
}

/// A preprocessed shape agrees with a request shape: identifier and point
/// count carried over, translation ranges computed from the bounding
/// offsets, placement 0 is the canonicalized point set itself, and every
/// other placement is its raster translate.
pub open spec fn shape_models(sh: Shape, sd: ShapeData, w: int, h: int) -> bool {
    &&& sh.original_id == sd.id
    &&& sh.npts == sd.points@.len()
    &&& sh.ax == w - max_col(placement_cells(sh, 0), w)
    &&& sh.tot == sh.ax * (h - max_row(placement_cells(sh, 0), w))
    &&& placement_cells(sh, 0).to_multiset() == sd.points@.to_multiset()
    &&& strictly_increasing(placement_cells(sh, 0))
    &&& forall|k: int, l: int|
        0 <= k < sh.tot && 0 <= l < sh.npts ==> (#[trigger] sh.cache@[k * sh.npts + l]) as int
            == placement_cells(sh, 0)[l] + (k / sh.ax as int) * w + k % sh.ax as int
}

/// Shapes at positions `j` and `e` of the search order are interchangeable:
/// equal point count, equal placement count, identical canonical pattern.
pub open spec fn eq_cand(shapes: Seq<Shape>, j: int, e: int) -> bool {
    &&& shapes[e].npts == shapes[j].npts
    &&& shapes[e].tot == shapes[j].tot
    &&& placement_cells(shapes[e], 0) == placement_cells(shapes[j], 0)
}

/// The position of the request shape carrying identifier `m`.
pub open spec fn input_index_of(shapes: Seq<ShapeData>, m: int) -> int {
    choose|j: int| 0 <= j < shapes.len() && (#[trigger] shapes[j].id) as int == m
}

fn grid_max(grid: &Vec<u8>) -> (r: u8)
    ensures
        r as int == seq_max(grid@),
{
    let mut r: u8 = 0;
    let mut c: usize = 0;
    while c < grid.len()
        invariant
            c <= grid@.len(),
            r as int == seq_max(grid@.take(c as int)),
        decreases grid@.len() - c,
    {
        proof {
            assert(grid@.take(c + 1).drop_last() =~= grid@.take(c as int));
            assert(grid@.take(c + 1).last() == grid@[c as int]);
        }
        if grid[c] > r {
            r = grid[c];
        }
        c += 1;
    }
    proof {
        assert(grid@.take(grid@.len() as int) =~= grid@);
    }
    r
}

fn normalize(grid: &Vec<u8>, goal: u8, mt: usize) -> (r: Vec<u8>)
    requires
        mt == seq_max(grid@) + 1,
        mt <= 256,
        goal as int <= seq_max(grid@),
    ensures
        r@.len() == grid@.len(),
        forall|c: int|
            0 <= c < grid@.len() ==> (#[trigger] r@[c]) as int == normal_token(
                goal as int,
                grid@[c] as int,
                mt as int,
            ),
        tokens_lt(r@, mt as int),
{
    let mut out: Vec<u8> = Vec::new();
    let mut c: usize = 0;
    proof {
        lemma_seq_max_props(grid@);
    }
    while c < grid.len()
        invariant
            c <= grid@.len(),
            out@.len() == c,
            mt == seq_max(grid@) + 1,
            mt <= 256,
            goal as int <= seq_max(grid@),
            forall|i: int| 0 <= i < grid@.len() ==> (grid@[i] as int) <= seq_max(grid@),
            forall|i: int|
                0 <= i < c ==> (#[trigger] out@[i]) as int == normal_token(
                    goal as int,
                    grid@[i] as int,
                    mt as int,
                ) && (out@[i] as int) < mt,
        decreases grid@.len() - c,
    {
        let v = grid[c];
        proof {
            lemma_normal_token_branches(goal as int, v as int, mt as int);
        }
        let tok: u8 = if v <= goal {
            goal - v
        } else {
            ((goal as usize + mt) - v as usize) as u8
        };
        out.push(tok);
        c += 1;
    }
    out
}

/// Canonicalize a point list: the same points, in ascending order.
fn sort_points(pts: &Vec<usize>) -> (r: Vec<usize>)
    ensures
        r@.to_multiset() == pts@.to_multiset(),
        r@.len() == pts@.len(),
        forall|a: int, b: int| 0 <= a < b < r@.len() ==> r@[a] <= r@[b],
{
    broadcast use vstd::seq_lib::group_to_multiset_ensures;

    let mut out: Vec<usize> = Vec::new();
    let mut j: usize = 0;
    while j < pts.len()
        invariant
            j <= pts@.len(),
            out@.len() == j,
            out@.to_multiset() == pts@.take(j as int).to_multiset(),
            forall|a: int, b: int| 0 <= a < b < out@.len() ==> out@[a] <= out@[b],
        decreases pts@.len() - j,
    {
        let x = pts[j];
        let mut p: usize = 0;
        while p < out.len() && out[p] <= x
            invariant
                p <= out@.len(),
                forall|q: int| 0 <= q < p ==> out@[q] <= x,
            decreases out@.len() - p,
        {
            p += 1;
        }
        let ghost old_out = out@;
        out.insert(p, x);
        proof {
            vstd::seq_lib::to_multiset_insert(old_out, p as int, x);
            assert(out@.to_multiset() == old_out.to_multiset().insert(x));
            assert(pts@.take(j + 1) =~= pts@.take(j as int).push(x));
            vstd::seq_lib::to_multiset_build(pts@.take(j as int), x);
            assert(out@.to_multiset() == pts@.take(j + 1).to_multiset());
            assert forall|a: int, b: int| 0 <= a < b < out@.len() implies out@[a] <= out@[b] by {
                assert(out@ == old_out.insert(p as int, x));
                if b < p {
                } else if a < p && b == p {
                    assert(out@[a] == old_out[a]);
                } else if a < p {
                    assert(out@[b] == old_out[b - 1]);
                    assert(old_out[b - 1] >= x || b - 1 < p);
                    if b - 1 >= p {
                        if p < old_out.len() {
                            assert(old_out[p as int] > x);
                            if b - 1 > p {
                                assert(old_out[p as int] <= old_out[b - 1]);
                            }
                        }
                        assert(old_out[b - 1] > x || b - 1 == p);
                    }
                } else if a == p {
                    assert(out@[a] == x);
                    assert(out@[b] == old_out[b - 1]);
                    if p < old_out.len() {
                        assert(old_out[p as int] > x);
                        if b - 1 > p {
                            assert(old_out[p as int] <= old_out[b - 1]);
                        }
                    }
                } else {
                    assert(out@[a] == old_out[a - 1]);
                    assert(out@[b] == old_out[b - 1]);
                }
            }
        }
        j += 1;
    }
    proof {
        assert(pts@.take(pts@.len() as int) =~= pts@);
    }
    out
}


proof fn lemma_max_offsets(pts: Seq<usize>, w: int, h: int)
    requires
        w >= 1,
        h >= 1,
        cells_in_range(pts, w * h),
    ensures
        0 <= max_col(pts, w) < w,
        0 <= max_row(pts, w) < h,
        forall|l: int|
            0 <= l < pts.len() ==> (pts[l] as int) % w <= max_col(pts, w) && (pts[l] as int) / w
                <= max_row(pts, w),
    decreases pts.len(),
{
    if pts.len() > 0 {
        let rest = pts.drop_last();
        assert(cells_in_range(rest, w * h));
        lemma_max_offsets(rest, w, h);
        let p = pts.last() as int;
        assert(0 <= p % w < w && 0 <= p / w < h) by (nonlinear_arith)
            requires
                w >= 1,
                h >= 1,
                0 <= p < w * h,
        {}
        assert forall|l: int|
            0 <= l < pts.len() implies (pts[l] as int) % w <= max_col(pts, w) && (pts[l] as int)
                / w <= max_row(pts, w) by {
            if l < pts.len() - 1 {
                assert(rest[l] == pts[l]);
            }
        }
    }
}

/// Whether the first `n` entries of two placement caches agree.
fn cache_prefix_eq(a: &Vec<usize>, b: &Vec<usize>, n: usize) -> (r: bool)
    requires
        n <= a@.len(),
        n <= b@.len(),
    ensures
        r <==> a@.subrange(0, n as int) == b@.subrange(0, n as int),
{
    let mut l: usize = 0;
    while l < n
        invariant
            l <= n,
            n <= a@.len(),
            n <= b@.len(),
            forall|q: int| 0 <= q < l ==> a@[q] == b@[q],
        decreases n - l,
    {
        if a[l] != b[l] {
            proof {
                assert(a@.subrange(0, n as int)[l as int] != b@.subrange(0, n as int)[l as int]);
            }
            return false;
        }
        l += 1;
    }
    proof {
        assert(a@.subrange(0, n as int) =~= b@.subrange(0, n as int));
    }
    true
}

/// Preprocess one canonicalized shape: bounding translation ranges and the
/// flat placement cache of every translate in raster order.
fn build_shape(pts: &Vec<usize>, orig_id: usize, width: usize, height: usize) -> (sh: Shape)
    requires
        width >= 1,
        height >= 1,
        width * height <= 0x8000,
        strictly_increasing(pts@),
        cells_in_range(pts@, (width * height) as int),
        pts@.len() <= width * height,
    ensures
        sh.original_id == orig_id,
        sh.npts == pts@.len(),
        sh.ax as int == width - max_col(pts@, width as int),
        sh.tot as int == sh.ax * (height - max_row(pts@, width as int)),
        sh.equivalent_to is None,
        shape_wf(sh, (width * height) as int),
        placement_cells(sh, 0) == pts@,
        forall|k: int, l: int|
            0 <= k < sh.tot && 0 <= l < sh.npts ==> (#[trigger] sh.cache@[k * sh.npts + l]) as int
                == pts@[l] + (k / sh.ax as int) * width + k % sh.ax as int,
    {
    proof {
        lemma_max_offsets(pts@, width as int, height as int);
    }
    let npts = pts.len();
    let mut max_x: usize = 0;
    let mut max_y: usize = 0;
    let mut l: usize = 0;
    while l < npts
        invariant
            l <= npts,
            npts == pts@.len(),
            width >= 1,
            height >= 1,
            cells_in_range(pts@, (width * height) as int),
            max_x as int == max_col(pts@.take(l as int), width as int),
            max_y as int == max_row(pts@.take(l as int), width as int),
            max_x < width,
            max_y < height,
        decreases npts - l,
    {
        proof {
            assert(pts@.take(l + 1).drop_last() =~= pts@.take(l as int));
            assert(pts@.take(l + 1).last() == pts@[l as int]);
            assert(0 <= (pts@[l as int] as int) % (width as int) < width && 0 <= (pts@[l as int] as int) / (width as int) < height) by (nonlinear_arith)
                requires
                    width >= 1,
                    height >= 1,
                    0 <= pts@[l as int] < width * height,
            {}
        }
        let cx = pts[l] % width;
        let cy = pts[l] / width;
        if cx > max_x {
            max_x = cx;
        }
        if cy > max_y {
            max_y = cy;
        }
        l += 1;
    }
    proof {
        assert(pts@.take(npts as int) =~= pts@);
    }
    let ax = width - max_x;
    let ay = height - max_y;
    proof {
        assert(1 <= ax * ay <= width * height) by (nonlinear_arith)
            requires
                1 <= ax <= width,
                1 <= ay <= height,
                width * height <= 0x8000,
        {}
    }
    let tot = ax * ay;
    let mut cache: Vec<usize> = Vec::new();
    let mut k: usize = 0;
    while k < tot
        invariant
            k <= tot,
            npts == pts@.len(),
            width >= 1,
            height >= 1,
            width * height <= 0x8000,
            tot == ax * ay,
            1 <= ax,
            1 <= ay,
            ax as int == width - max_col(pts@, width as int),
            ay as int == height - max_row(pts@, width as int),
            cells_in_range(pts@, (width * height) as int),
            npts <= width * height,
            forall|i: int|
                0 <= i < pts@.len() ==> (pts@[i] as int) % (width as int) <= max_col(
                    pts@,
                    width as int,
                ) && (pts@[i] as int) / (width as int) <= max_row(pts@, width as int),
            cache@.len() == k * npts,
            cells_in_range(cache@, (width * height) as int),
            forall|q: int, i: int|
                0 <= q < k && 0 <= i < npts ==> (#[trigger] cache@[q * npts + i]) as int == pts@[i]
                    + ((q / ax as int) * width + q % ax as int),
        decreases tot - k,
    {
        let dx = k % ax;
        let dy = k / ax;
        proof {
            assert(0 <= dx < ax && 0 <= dy < ay && dy * width + dx < width * height - 0) by (nonlinear_arith)
                requires
                    dx == (k as int) % (ax as int),
                    dy == (k as int) / (ax as int),
                    1 <= ax,
                    1 <= ay,
                    ax <= width,
                    ay <= height,
                    width >= 1,
                    0 <= k < ax * ay,
            {}
        }
        let mut i: usize = 0;
        while i < npts
            invariant
                i <= npts,
                npts == pts@.len(),
                width >= 1,
                height >= 1,
                width * height <= 0x8000,
                dx as int == (k as int) % (ax as int),
                dy as int == (k as int) / (ax as int),
                dx as int + max_col(pts@, width as int) < width,
                dy as int + max_row(pts@, width as int) < height,
                cells_in_range(pts@, (width * height) as int),
                forall|q: int|
                    0 <= q < pts@.len() ==> (pts@[q] as int) % (width as int) <= max_col(
                        pts@,
                        width as int,
                    ) && (pts@[q] as int) / (width as int) <= max_row(pts@, width as int),
                cache@.len() == k * npts + i,
                cells_in_range(cache@, (width * height) as int),
                forall|q: int, j: int|
                    0 <= q < k && 0 <= j < npts ==> (#[trigger] cache@[q * npts + j]) as int
                        == pts@[j] + ((q / ax as int) * width + q % ax as int),
                forall|j: int|
                    0 <= j < i ==> (#[trigger] cache@[k * npts + j]) as int == pts@[j] + ((
                    dy as int) * width + dx as int),
            decreases npts - i,
        {
            let p = pts[i];
            proof {
                let w = width as int;
                let h = height as int;
                let pi = p as int;
                let mc = max_col(pts@, w);
                let mr = max_row(pts@, w);
                assert(pi + (dy as int) * w + dx < w * h) by (nonlinear_arith)
                    requires
                        w >= 1,
                        h >= 1,
                        0 <= pi < w * h,
                        pi % w <= mc,
                        pi / w <= mr,
                        0 <= dx as int,
                        0 <= dy as int,
                        dx as int + mc < w,
                        dy as int + mr < h,
                {}
            }
            let cell = p + dy * width + dx;
            let ghost pre = cache@;
            cache.push(cell);
            proof {
                assert(cache@.len() == k * npts + i + 1);
                assert forall|q: int, j: int|
                    0 <= q < k && 0 <= j < npts implies (#[trigger] cache@[q * npts + j]) as int
                        == pts@[j] + ((q / ax as int) * width + q % ax as int) by {
                    assert(q * npts + j < k * npts) by (nonlinear_arith)
                        requires
                            0 <= q < k,
                            0 <= j < npts,
                    {}
                    assert(cache@[q * npts + j] == pre[q * npts + j]);
                }
                assert forall|j: int|
                    0 <= j < i + 1 implies (#[trigger] cache@[k * npts + j]) as int == pts@[j] + ((
                    dy as int) * width + dx as int) by {
                    if j < i {
                        assert(cache@[k * npts + j] == pre[k * npts + j]);
                    } else {
                        assert(cache@[k * npts + i] == cell);
                    }
                }
            }
            i += 1;
        }
        proof {
            assert((k + 1) * npts == k * npts + npts) by (nonlinear_arith) {}
        }
        k += 1;
    }
    let sh = Shape {
        original_id: orig_id,
        npts,
        ax,
        tot,
        cache,
        equivalent_to: None,
    };
    proof {
        assert(sh.cache@.len() == sh.tot * sh.npts);
        assert forall|kk: int, ll: int|
            0 <= kk < sh.tot && 0 <= ll < sh.npts implies (#[trigger] sh.cache@[kk * sh.npts + ll]) as int
                == pts@[ll] + ((kk / sh.ax as int) * width + kk % sh.ax as int) by {}
        assert forall|kk: int| 0 <= kk < sh.tot implies strictly_increasing(
            #[trigger] placement_cells(sh, kk),
        ) by {
            let cs = placement_cells(sh, kk);
            assert(0 <= kk * sh.npts && (kk + 1) * sh.npts == kk * sh.npts + sh.npts
                && (kk + 1) * sh.npts <= sh.cache@.len()) by (nonlinear_arith)
                requires
                    0 <= kk < sh.tot,
                    sh.cache@.len() == sh.tot * sh.npts,
                    sh.npts >= 0,
            {}
            assert forall|a: int, b: int| 0 <= a < b < cs.len() implies cs[a] < cs[b] by {
                assert(cs[a] == sh.cache@[kk * sh.npts + a]);
                assert(cs[b] == sh.cache@[kk * sh.npts + b]);
            }
        }
        assert(0 <= 0 * sh.npts && (0 + 1) * sh.npts == 0 * sh.npts + sh.npts
            && (0 + 1) * sh.npts <= sh.cache@.len() && 0 * sh.npts == 0) by (nonlinear_arith)
            requires
                sh.cache@.len() == sh.tot * sh.npts,
                sh.tot >= 1,
                sh.npts >= 0,
        {}
        assert forall|ll: int| 0 <= ll < sh.npts implies placement_cells(sh, 0)[ll] == pts@[ll] by {
            assert(placement_cells(sh, 0)[ll] == sh.cache@[0 * sh.npts + ll]);
            assert(sh.cache@[0 * sh.npts + ll] as int == pts@[ll] + ((0int / sh.ax as int) * width
                + 0int % sh.ax as int));
            assert(0int / sh.ax as int == 0 && 0int % sh.ax as int == 0) by (nonlinear_arith)
                requires
                    sh.ax >= 1,
            {}
        }
        assert(placement_cells(sh, 0) =~= pts@);
    }
    sh
}


/// Placement 0 of a well-formed shape is the leading prefix of its cache.
proof fn lemma_placement0(sh: Shape)
    ensures
        placement_cells(sh, 0) == sh.cache@.subrange(0, sh.npts as int),
{
    assert(0 * sh.npts == 0 && (0 + 1) * sh.npts == sh.npts) by (nonlinear_arith) {}
}

/// A duplicate-free sequence of `n` values below `n` takes every value
/// below `n`.
proof fn lemma_order_onto(order: Seq<usize>, n: int, v: int)
    requires
        order.len() == n,
        0 <= v < n,
        forall|p: int| 0 <= p < n ==> (#[trigger] order[p]) < n,
        forall|p: int, q: int| 0 <= p < q < n ==> order[p] != order[q],
    ensures
        exists|p: int| 0 <= p < n && order[p] as int == v,
{
    broadcast use vstd::set::group_set_axioms;

    if !(exists|p: int| 0 <= p < n && order[p] as int == v) {
        let t = order.map_values(|x: usize| x as int);
        assert(t.len() == n);
        assert(t.no_duplicates()) by {
            assert forall|p: int, q: int|
                0 <= p < t.len() && 0 <= q < t.len() && p != q implies t[p] != t[q] by {
                if p < q {
                    assert(order[p] != order[q]);
                } else {
                    assert(order[q] != order[p]);
                }
            }
        }
        t.unique_seq_to_set();
        vstd::set_lib::lemma_int_range(0, n);
        let full = vstd::set_lib::set_int_range(0, n);
        let r = full.remove(v);
        assert(full.contains(v));
        assert(r.len() == n - 1);
        assert(t.to_set().subset_of(r)) by {
            assert forall|x: int| t.to_set().contains(x) implies r.contains(x) by {
                assert(t.contains(x));
                let p = choose|p: int| 0 <= p < t.len() && t[p] == x;
                assert(t[p] == order[p] as int);
                assert(0 <= x < n && x != v);
            }
        }
        vstd::set_lib::lemma_len_subset(t.to_set(), r);
        assert(false);
    }
}

/// Everything `Solver::new` promises about a successfully built solver.
pub open spec fn solver_models(s: Solver, input: SolverInput) -> bool {
    let shapes = input.shapes@;
    let w = input.width as int;
    let h = input.height as int;
    &&& s.wf_core()
    &&& s.reconciled()
    &&& s.max_token as int == spec_mt(input)
    &&& s.mat@ == norm_grid(input)
    &&& s.ns == shapes.len()
    &&& spec_mt(input) * s.incs == usum(input_npts(shapes)) - grid_sum(norm_grid(input))
    &&& forall|j: int|
        0 <= j < s.ns ==> shape_models(
            #[trigger] s.shapes@[j],
            shapes[input_index_of(shapes, s.shapes@[j].original_id as int)],
            w,
            h,
        )
    &&& forall|a: int, b: int| 0 <= a < b < s.ns ==> s.shapes@[a].npts >= s.shapes@[b].npts
    &&& forall|a: int, b: int|
        0 <= a < b < s.ns && s.shapes@[a].npts == s.shapes@[b].npts ==> input_index_of(
            shapes,
            s.shapes@[a].original_id as int,
        ) < input_index_of(shapes, s.shapes@[b].original_id as int)
    &&& forall|j: int|
        0 <= j < s.ns ==> match (#[trigger] s.shapes@[j]).equivalent_to {
            Some(e) => eq_cand(s.shapes@, j, e as int) && (forall|e2: int|
                0 <= e2 < e ==> !eq_cand(s.shapes@, j, e2)),
            None => forall|e2: int| 0 <= e2 < j ==> !eq_cand(s.shapes@, j, e2),
        }
}


/// The committed placements of the first `k` shapes of the search order.
pub open spec fn committed_plays(shapes: Seq<Shape>, trial: Seq<usize>, k: int) -> Seq<Seq<usize>> {
    Seq::new(k as nat, |j: int| placement_cells(shapes[j], trial[j] as int))
}

/// The placements named by an emitted step list, one per shape in search
/// order: shape `j`'s cells at the placement index reported for its
/// identifier.
pub open spec fn steps_plays(shapes: Seq<Shape>, steps: Seq<SolutionStep>) -> Seq<Seq<usize>> {
    Seq::new(
        shapes.len(),
        |j: int|
            placement_cells(
                shapes[j],
                steps[shapes[j].original_id as int].placement_seq as int,
            ),
    )
}

/// The cells of a committed placement are in range and strictly ordered.
proof fn lemma_placement_cells_wf(sh: Shape, s: int, grid_len: int)
    requires
        shape_wf(sh, grid_len),
        0 <= s < sh.tot,
    ensures
        placement_cells(sh, s).len() == sh.npts,
        cells_in_range(placement_cells(sh, s), grid_len),
        strictly_increasing(placement_cells(sh, s)),
        0 <= s * sh.npts,
        (s + 1) * sh.npts == s * sh.npts + sh.npts,
        (s + 1) * sh.npts <= sh.cache@.len(),
{
    assert(0 <= s * sh.npts && (s + 1) * sh.npts == s * sh.npts + sh.npts && (s + 1) * sh.npts
        <= sh.tot * sh.npts) by (nonlinear_arith)
        requires
            0 <= s < sh.tot,
            sh.npts >= 0,
    {}
    assert forall|l: int|
        0 <= l < placement_cells(sh, s).len() implies (placement_cells(sh, s)[l] as int)
            < grid_len by {
        assert(placement_cells(sh, s)[l] == sh.cache@[s * sh.npts + l]);
    }
}

fn count_zero_hits(mat: &Vec<u8>, cache: &Vec<usize>, tci: usize, npts: usize) -> (r: usize)
    requires
        tci + npts <= cache@.len(),
        cells_in_range(
            cache@.subrange(tci as int, tci + npts as int),
            mat@.len() as int,
        ),
    ensures
        r as int == zero_hits(mat@, cache@.subrange(tci as int, tci + npts as int)),
        r <= npts,
{
    let ghost cells = cache@.subrange(tci as int, tci + npts as int);
    let clen = cache.len();
    let mut r: usize = 0;
    let mut l: usize = 0;
    while l < npts
        invariant
            l <= npts,
            r <= l,
            clen == cache@.len(),
            tci + npts <= cache@.len(),
            cells == cache@.subrange(tci as int, tci + npts as int),
            cells_in_range(cells, mat@.len() as int),
            r as int == zero_hits(mat@, cells.take(l as int)),
        decreases npts - l,
    {
        proof {
            assert(cells.take(l + 1).drop_last() =~= cells.take(l as int));
            assert(cells.take(l + 1).last() == cells[l as int]);
            assert(cells[l as int] == cache@[tci + l]);
        }
        let mi = cache[tci + l];
        if mat[mi] == 0 {
            r += 1;
        }
        l += 1;
    }
    proof {
        assert(cells.take(npts as int) =~= cells);
    }
    r
}

/// Place a pattern: decrement every covered cell once, modulo the cycle.
fn apply_placement(mat: &mut Vec<u8>, cache: &Vec<usize>, tci: usize, npts: usize, mt: usize)
    requires
        1 <= mt <= 256,
        tokens_lt(old(mat)@, mt as int),
        tci + npts <= cache@.len(),
        cells_in_range(
            cache@.subrange(tci as int, tci + npts as int),
            old(mat)@.len() as int,
        ),
    ensures
        final(mat)@ == apply_cells(
            old(mat)@,
            cache@.subrange(tci as int, tci + npts as int),
            mt as int,
        ),
        final(mat)@.len() == old(mat)@.len(),
{
    let ghost cells = cache@.subrange(tci as int, tci + npts as int);
    let clen = cache.len();
    let mut l: usize = 0;
    while l < npts
        invariant
            l <= npts,
            1 <= mt <= 256,
            clen == cache@.len(),
            tci + npts <= cache@.len(),
            cells == cache@.subrange(tci as int, tci + npts as int),
            cells_in_range(cells, old(mat)@.len() as int),
            mat@.len() == old(mat)@.len(),
            mat@ == apply_cells(old(mat)@, cells.take(l as int), mt as int),
        decreases npts - l,
    {
        proof {
            assert(cells.take(l + 1).drop_last() =~= cells.take(l as int));
            assert(cells.take(l + 1).last() == cells[l as int]);
            assert(cells[l as int] == cache@[tci + l]);
        }
        let mi = cache[tci + l];
        let v = mat[mi];
        let nv: u8 = if v == 0 {
            (mt - 1) as u8
        } else {
            v - 1
        };
        mat[mi] = nv;
        l += 1;
    }
    proof {
        assert(cells.take(npts as int) =~= cells);
    }
}

/// Remove a placed pattern: increment every covered cell once, modulo the
/// cycle. Exact inverse of `apply_placement`.
fn undo_placement(mat: &mut Vec<u8>, cache: &Vec<usize>, tci: usize, npts: usize, mt: usize)
    requires
        1 <= mt <= 256,
        tokens_lt(old(mat)@, mt as int),
        tci + npts <= cache@.len(),
        cells_in_range(
            cache@.subrange(tci as int, tci + npts as int),
            old(mat)@.len() as int,
        ),
    ensures
        final(mat)@ == undo_cells(
            old(mat)@,
            cache@.subrange(tci as int, tci + npts as int),
            mt as int,
        ),
        final(mat)@.len() == old(mat)@.len(),
{
    let ghost cells = cache@.subrange(tci as int, tci + npts as int);
    let clen = cache.len();
    let mut l: usize = 0;
    while l < npts
        invariant
            l <= npts,
            1 <= mt <= 256,
            clen == cache@.len(),
            tci + npts <= cache@.len(),
            cells == cache@.subrange(tci as int, tci + npts as int),
            cells_in_range(cells, old(mat)@.len() as int),
            mat@.len() == old(mat)@.len(),
            tokens_lt(mat@, mt as int),
            mat@ == undo_cells(old(mat)@, cells.take(l as int), mt as int),
        decreases npts - l,
    {
        proof {
            assert(cells.take(l + 1).drop_last() =~= cells.take(l as int));
            assert(cells.take(l + 1).last() == cells[l as int]);
            assert(cells[l as int] == cache@[tci + l]);
        }
        let mi = cache[tci + l];
        let v = mat[mi];
        let nv: u8 = if v as usize == mt - 1 {
            0
        } else {
            v + 1
        };
        mat[mi] = nv;
        l += 1;
    }
    proof {
        assert(cells.take(npts as int) =~= cells);
    }
}

/// Scan a shape's placements from `start` for the first whose covered
/// at-goal cells fit in the remaining slack budget; report it and the
/// budget it leaves.
fn find_placement(mat: &Vec<u8>, sh: &Shape, start: usize, budget: usize) -> (r: Option<
    (usize, usize),
>)
    requires
        shape_wf(*sh, mat@.len() as int),
        start <= sh.tot,
    ensures
        match r {
            Some(pair) => {
                &&& start <= pair.0 < sh.tot
                &&& zero_hits(mat@, placement_cells(*sh, pair.0 as int)) <= budget
                &&& pair.1 == budget - zero_hits(mat@, placement_cells(*sh, pair.0 as int))
                &&& forall|t: int|
                    start <= t < pair.0 ==> zero_hits(mat@, #[trigger] placement_cells(*sh, t))
                        > budget
            },
            None => forall|t: int|
                start <= t < sh.tot ==> zero_hits(mat@, #[trigger] placement_cells(*sh, t))
                    > budget,
        },
{
    let mut s = start;
    while s < sh.tot
        invariant
            start <= s <= sh.tot,
            shape_wf(*sh, mat@.len() as int),
            forall|t: int|
                start <= t < s ==> zero_hits(mat@, #[trigger] placement_cells(*sh, t)) > budget,
        decreases sh.tot - s,
    {
        let clen = sh.cache.len();
        proof {
            lemma_placement_cells_wf(*sh, s as int, mat@.len() as int);
            assert(s * sh.npts + sh.npts <= clen);
        }
        let tci = s * sh.npts;
        let zc = count_zero_hits(mat, &sh.cache, tci, sh.npts);
        proof {
            assert(cache_sub_is_placement(*sh, s as int));
        }
        if zc <= budget {
            return Some((s, budget - zc));
        }
        s += 1;
    }
    None
}

/// The subrange read by the scanners is the shape's placement.
spec fn cache_sub_is_placement(sh: Shape, s: int) -> bool {
    sh.cache@.subrange(s * sh.npts, s * sh.npts + sh.npts) == placement_cells(sh, s)
}


/// The committed placements of a well-formed prefix are in range and
/// strictly ordered, placement by placement.
proof fn lemma_plays_wf(shapes: Seq<Shape>, trial: Seq<usize>, k: int, grid_len: int)
    requires
        0 <= k <= shapes.len(),
        k <= trial.len(),
        forall|j: int| 0 <= j < shapes.len() ==> shape_wf(#[trigger] shapes[j], grid_len),
        forall|j: int| 0 <= j < k ==> (#[trigger] trial[j]) < shapes[j].tot,
    ensures
        plays_wf(committed_plays(shapes, trial, k), grid_len),
{
    let plays = committed_plays(shapes, trial, k);
    assert forall|j: int|
        0 <= j < plays.len() implies cells_in_range(#[trigger] plays[j], grid_len)
            && strictly_increasing(plays[j]) by {
        lemma_placement_cells_wf(shapes[j], trial[j] as int, grid_len);
    }
}

/// A full committed prefix covers exactly the total point count of the
/// shapes, with multiplicity.
proof fn lemma_plays_pts(shapes: Seq<Shape>, trial: Seq<usize>, k: int, grid_len: int)
    requires
        0 <= k <= shapes.len(),
        k <= trial.len(),
        forall|j: int| 0 <= j < shapes.len() ==> shape_wf(#[trigger] shapes[j], grid_len),
        forall|j: int| 0 <= j < k ==> (#[trigger] trial[j]) < shapes[j].tot,
    ensures
        plays_pts(committed_plays(shapes, trial, k)) == total_npts(shapes.take(k)),
    decreases k,
{
    if k > 0 {
        lemma_plays_pts(shapes, trial, k - 1, grid_len);
        let plays = committed_plays(shapes, trial, k);
        assert(plays.drop_last() =~= committed_plays(shapes, trial, k - 1));
        lemma_placement_cells_wf(shapes[k - 1], trial[k - 1] as int, grid_len);
        assert(plays.last().len() == shapes[k - 1].npts);
        assert(shapes.take(k).drop_last() =~= shapes.take(k - 1));
        assert(shapes.take(k).last() == shapes[k - 1]);
    } else {
        assert(committed_plays(shapes, trial, 0) =~= Seq::<Seq<usize>>::empty());
        assert(shapes.take(0) =~= Seq::<Shape>::empty());
    }
}


/// Replaying an emitted solution, placement by placement, against the
/// freshly normalized grid of its request leaves every cell at the goal.
pub proof fn lemma_solution_replay_zero(
    input: SolverInput,
    built: Solver,
    done: Solver,
    steps: Seq<SolutionStep>,
)
    requires
        solver_models(built, input),
        done.mat@ == replay(
            built.mat@,
            steps_plays(built.shapes@, steps),
            built.max_token as int,
        ),
        all_zero(done.mat@),
    ensures
        all_zero(replay(norm_grid(input), steps_plays(built.shapes@, steps), spec_mt(input))),
{
}


/// When every shape is committed and the remaining slack is nonnegative,
/// the grid ledger forces the whole grid to the goal.
proof fn lemma_final_grid_zero(
    m: Seq<u8>,
    shapes: Seq<Shape>,
    trial: Seq<usize>,
    mt: int,
    incs: int,
    b: int,
)
    requires
        1 <= mt <= 256,
        tokens_lt(m, mt),
        shapes.len() >= 1,
        trial.len() >= shapes.len(),
        forall|j: int| 0 <= j < shapes.len() ==> shape_wf(#[trigger] shapes[j], m.len() as int),
        forall|j: int| 0 <= j < shapes.len() ==> (#[trigger] trial[j]) < shapes[j].tot,
        grid_sum(m) + mt * incs == total_npts(shapes),
        b == incs - replay_hits(m, committed_plays(shapes, trial, shapes.len() as int), mt),
        b >= 0,
    ensures
        all_zero(replay(m, committed_plays(shapes, trial, shapes.len() as int), mt)),
{
    let ns = shapes.len() as int;
    let plays_all = committed_plays(shapes, trial, ns);
    lemma_plays_pts(shapes, trial, ns, m.len() as int);
    assert(shapes.take(ns) =~= shapes);
    lemma_plays_wf(shapes, trial, ns, m.len() as int);
    lemma_replay_sum(m, plays_all, mt);
    let hits = replay_hits(m, plays_all, mt);
    assert(mt * hits == mt * incs - mt * b) by (nonlinear_arith)
        requires
            b == incs - hits,
    {}
    assert(mt * b >= 0) by (nonlinear_arith)
        requires
            mt >= 1,
            b >= 0,
    {}
    assert(grid_sum(replay(m, plays_all, mt)) == 0 - mt * b);
    lemma_grid_sum_nonneg(replay(m, plays_all, mt));
    assert(grid_sum(replay(m, plays_all, mt)) == 0);
    lemma_grid_sum_zero(replay(m, plays_all, mt));
}

/// A single shape whose every placement overruns the slack admits no
/// placement assignment at all: the engine's exhaustion verdict is exact
/// for one-shape requests.
proof fn lemma_single_shape_exhausted(shapes: Seq<Shape>, m: Seq<u8>, mt: int, incs: int)
    requires
        shapes.len() == 1,
        1 <= mt <= 256,
        tokens_lt(m, mt),
        shape_wf(shapes[0], m.len() as int),
        grid_sum(m) + mt * incs == total_npts(shapes),
        forall|t0: int|
            0 <= t0 < shapes[0].tot ==> zero_hits(m, #[trigger] placement_cells(shapes[0], t0))
                > incs,
    ensures
        !(exists|t: Seq<usize>|
            t.len() == 1 && (forall|j: int|
                0 <= j < t.len() ==> (#[trigger] t[j]) < shapes[j].tot) && all_zero(
                replay(m, committed_plays(shapes, t, 1), mt),
            )),
{
    assert forall|t: Seq<usize>|
        t.len() == 1 && (forall|j: int|
            0 <= j < t.len() ==> (#[trigger] t[j]) < shapes[j].tot) implies !all_zero(
        replay(m, committed_plays(shapes, t, 1), mt),
    ) by {
        let plays = committed_plays(shapes, t, 1);
        let cells = placement_cells(shapes[0], t[0] as int);
        assert(t[0] < shapes[0].tot);
        assert(replay_hits(m, plays.take(1), mt) == zero_hits(m, cells)) by {
            let none: Seq<Seq<usize>> = Seq::empty();
            assert(plays.take(1) =~= plays);
            assert(plays.drop_last() =~= none);
            assert(plays.last() == cells);
            assert(replay_hits(m, none, mt) == 0);
            assert(replay(m, none, mt) == m);
        }
        lemma_plays_pts(shapes, t, 1, m.len() as int);
        assert(shapes.take(1) =~= shapes);
        lemma_plays_wf(shapes, t, 1, m.len() as int);
        lemma_overspent_prefix_never_solves(m, plays, mt, incs, 1);
    }
}

impl Solver {
    /// Structural well-formedness: everything the search relies upon while
    /// it mutates the grid.
    pub open spec fn wf_core(self) -> bool {
        &&& 1 <= self.max_token <= 256
        &&& self.ns == self.shapes@.len()
        &&& self.ns >= 1
        &&& tokens_lt(self.mat@, self.max_token as int)
        &&& forall|j: int|
            0 <= j < self.ns ==> shape_wf(#[trigger] self.shapes@[j], self.mat@.len() as int)
        &&& ids_are_permutation(self.shapes@)
        &&& forall|j: int|
            0 <= j < self.ns ==> match (#[trigger] self.shapes@[j]).equivalent_to {
                Some(e) => 0 <= e < j && self.shapes@[e as int].tot == self.shapes@[j].tot,
                None => true,
            }
    }

    /// The slack ledger of a freshly built solver: total coverage equals the
    /// required decrements plus a whole number of wasted cycles.
    pub open spec fn reconciled(self) -> bool {
        grid_sum(self.mat@) + self.max_token * self.incs == total_npts(self.shapes@)
    }

    /// Build the search state for a request: validate it, normalize the
    /// grid, order and preprocess the shapes, and compute the initial slack
    /// budget. Errors are reported in a fixed rank, matching
    /// `spec_validate`.
    #[verifier::rlimit(60)]
    pub fn new(input: SolverInput) -> (r: Result<Solver, SolveError>)
        requires
            input.width >= 1,
            input.height >= 1,
            input.grid@.len() == input.width * input.height,
            input.width * input.height <= 0x8000,
            input.shapes@.len() <= 0x8000,
            input.goal as int <= seq_max(input.grid@),
        ensures
            spec_validate(input) is Err ==> r == Err::<Solver, SolveError>(
                spec_validate(input)->Err_0,
            ),
            spec_validate(input) is Ok ==> r is Ok && solver_models(r->Ok_0, input),
    {
        let ns = input.shapes.len();
        if ns == 0 {
            return Err(SolveError::NoShapes);
        }
        let cells = input.width * input.height;
        proof {
            assert(cells >= 1) by (nonlinear_arith)
                requires
                    input.width >= 1,
                    input.height >= 1,
                    cells == input.width * input.height,
            {}
        }

        // Identifiers must be exactly 0..ns: bounded and pairwise distinct ...
        let mut j: usize = 0;
        while j < ns
            invariant
                j <= ns,
                ns == input.shapes@.len(),
                forall|q: int| 0 <= q < j ==> (#[trigger] input.shapes@[q].id) < ns,
                forall|q: int, q2: int|
                    0 <= q < q2 < j ==> input.shapes@[q].id != input.shapes@[q2].id,
            decreases ns - j,
        {
            if input.shapes[j].id >= ns {
                return Err(SolveError::InvalidShapeId);
            }
            let mut k: usize = 0;
            while k < j
                invariant
                    k <= j < ns,
                    ns == input.shapes@.len(),
                    forall|q: int| 0 <= q < k ==> input.shapes@[q].id != input.shapes@[j as int].id,
                decreases j - k,
            {
                if input.shapes[k].id == input.shapes[j].id {
                    return Err(SolveError::InvalidShapeId);
                }
                k += 1;
            }
            j += 1;
        }
        // ... and covering every identifier.
        let mut m: usize = 0;
        while m < ns
            invariant
                m <= ns,
                ns == input.shapes@.len(),
                forall|q: int| 0 <= q < m ==> #[trigger] has_data_id(input.shapes@, q),
            decreases ns - m,
        {
            let mut found = false;
            let mut k: usize = 0;
            while k < ns
                invariant
                    k <= ns,
                    ns == input.shapes@.len(),
                    found ==> has_data_id(input.shapes@, m as int),
                    !found ==> forall|q: int|
                        0 <= q < k ==> (#[trigger] input.shapes@[q].id) != m,
                decreases ns - k,
            {
                if input.shapes[k].id == m {
                    found = true;
                }
                k += 1;
            }
            if !found {
                proof {
                    assert(!has_data_id(input.shapes@, m as int));
                }
                return Err(SolveError::InvalidShapeId);
            }
            m += 1;
        }
        proof {
            assert(input_ids_ok(input.shapes@));
        }

        // Every point must lie on the grid.
        let mut j: usize = 0;
        while j < ns
            invariant
                j <= ns,
                ns == input.shapes@.len(),
                ns >= 1,
                input_ids_ok(input.shapes@),
                cells == input.width * input.height,
                forall|q: int, l: int|
                    0 <= q < j && 0 <= l < input.shapes@[q].points@.len() ==> (
                    #[trigger] input.shapes@[q].points@[l]) < cells,
            decreases ns - j,
        {
            let np = input.shapes[j].points.len();
            let mut l: usize = 0;
            while l < np
                invariant
                    l <= np,
                    j < ns == input.shapes@.len(),
                    ns >= 1,
                    input_ids_ok(input.shapes@),
                    np == input.shapes@[j as int].points@.len(),
                    cells == input.width * input.height,
                    forall|q: int|
                        0 <= q < l ==> (#[trigger] input.shapes@[j as int].points@[q]) < cells,
                decreases np - l,
            {
                if input.shapes[j].points[l] >= cells {
                    proof {
                        assert(input.shapes@[j as int].points@[l as int] >= cells);
                        assert(!points_in_range_ok(
                            input.shapes@,
                            (input.width * input.height) as int,
                        ));
                    }
                    return Err(SolveError::PointOutOfRange);
                }
                l += 1;
            }
            j += 1;
        }

        // No point may be listed twice within a shape.
        let mut j: usize = 0;
        while j < ns
            invariant
                j <= ns,
                ns == input.shapes@.len(),
                ns >= 1,
                input_ids_ok(input.shapes@),
                cells == input.width * input.height,
                points_in_range_ok(input.shapes@, (input.width * input.height) as int),
                forall|q: int| 0 <= q < j ==> (#[trigger] input.shapes@[q].points@).no_duplicates(),
            decreases ns - j,
        {
            let np = input.shapes[j].points.len();
            let mut a: usize = 0;
            while a < np
                invariant
                    a <= np,
                    j < ns == input.shapes@.len(),
                    ns >= 1,
                    input_ids_ok(input.shapes@),
                    points_in_range_ok(input.shapes@, (input.width * input.height) as int),
                    np == input.shapes@[j as int].points@.len(),
                    forall|x: int, y: int|
                        0 <= x < y < a ==> input.shapes@[j as int].points@[x]
                            != input.shapes@[j as int].points@[y],
                decreases np - a,
            {
                let mut b: usize = 0;
                while b < a
                    invariant
                        b <= a < np,
                        j < ns == input.shapes@.len(),
                        ns >= 1,
                        input_ids_ok(input.shapes@),
                        points_in_range_ok(input.shapes@, (input.width * input.height) as int),
                        np == input.shapes@[j as int].points@.len(),
                        forall|x: int|
                            0 <= x < b ==> input.shapes@[j as int].points@[x]
                                != input.shapes@[j as int].points@[a as int],
                    decreases a - b,
                {
                    if input.shapes[j].points[b] == input.shapes[j].points[a] {
                        proof {
                            assert(!input.shapes@[j as int].points@.no_duplicates());
                            assert(!no_dup_points_ok(input.shapes@));
                        }
                        return Err(SolveError::DuplicatePoint);
                    }
                    b += 1;
                }
                a += 1;
            }
            proof {
                assert(input.shapes@[j as int].points@.no_duplicates());
            }
            j += 1;
        }

        // Cycle length and normalized grid.
        let lt = grid_max(&input.grid);
        let mt = lt as usize + 1;
        let mat = normalize(&input.grid, input.goal, mt);
        proof {
            assert(mat@ =~= norm_grid(input));
        }

        // Total required decrements.
        let mut gsum: usize = 0;
        let mut c: usize = 0;
        while c < mat.len()
            invariant
                c <= mat@.len(),
                mat@.len() <= 0x8000,
                gsum == grid_sum(mat@.take(c as int)),
                gsum <= c * 256,
            decreases mat@.len() - c,
        {
            proof {
                assert(mat@.take(c + 1).drop_last() =~= mat@.take(c as int));
                assert(mat@.take(c + 1).last() == mat@[c as int]);
                assert(c * 256 + 256 == (c + 1) * 256) by (nonlinear_arith) {}
                assert((c + 1) * 256 <= 0x8000 * 256) by (nonlinear_arith)
                    requires
                        c + 1 <= 0x8000,
                {}
            }
            gsum = gsum + mat[c] as usize;
            c += 1;
        }
        proof {
            assert(mat@.take(mat@.len() as int) =~= mat@);
            lemma_grid_sum_nonneg(mat@);
        }

        // Canonicalize every shape's points; distinct in-range points also
        // bound each count by the cell count.
        let mut spts: Vec<Vec<usize>> = Vec::new();
        let mut j: usize = 0;
        while j < ns
            invariant
                j <= ns,
                ns == input.shapes@.len(),
                cells == input.width * input.height,
                cells >= 1,
                spts@.len() == j,
                forall|q: int, l: int|
                    0 <= q < ns && 0 <= l < input.shapes@[q].points@.len() ==> (
                    #[trigger] input.shapes@[q].points@[l]) < cells,
                forall|q: int| 0 <= q < ns ==> (#[trigger] input.shapes@[q].points@).no_duplicates(),
                forall|q: int|
                    0 <= q < j ==> (#[trigger] spts@[q]@).to_multiset()
                        == input.shapes@[q].points@.to_multiset(),
                forall|q: int| 0 <= q < j ==> strictly_increasing(#[trigger] spts@[q]@),
                forall|q: int|
                    0 <= q < j ==> (#[trigger] spts@[q]@).len()
                        == input.shapes@[q].points@.len() && spts@[q]@.len() <= cells
                        && cells_in_range(spts@[q]@, cells as int),
            decreases ns - j,
        {
            let sp = sort_points(&input.shapes[j].points);
            proof {
                broadcast use vstd::seq_lib::group_to_multiset_ensures;

                let orig = input.shapes@[j as int].points@;
                orig.lemma_multiset_has_no_duplicates();
                sp@.lemma_multiset_has_no_duplicates_conv();
                assert(sp@.no_duplicates());
                assert(strictly_increasing(sp@)) by {
                    assert forall|x: int, y: int| 0 <= x < y < sp@.len() implies sp@[x] < sp@[y] by {
                        assert(sp@[x] <= sp@[y]);
                        assert(sp@[x] != sp@[y]);
                    }
                }
                assert(cells_in_range(sp@, cells as int)) by {
                    assert forall|l: int| 0 <= l < sp@.len() implies (sp@[l] as int) < cells by {
                        assert(sp@.to_multiset().count(sp@[l]) > 0);
                        assert(orig.to_multiset().count(sp@[l]) > 0);
                        assert(orig.contains(sp@[l]));
                        let w = choose|w: int| 0 <= w < orig.len() && orig[w] == sp@[l];
                        assert(orig[w] < cells);
                    }
                }
                if sp@.len() > 0 {
                    lemma_strictly_increasing_ge_index(sp@);
                    assert(sp@[sp@.len() - 1] as int >= sp@.len() - 1);
                }
            }
            spts.push(sp);
            j += 1;
        }

        // Total coverage.
        let mut togs: usize = 0;
        let mut j: usize = 0;
        while j < ns
            invariant
                j <= ns,
                ns == input.shapes@.len() <= 0x8000,
                cells <= 0x8000,
                spts@.len() == ns,
                forall|q: int|
                    0 <= q < ns ==> (#[trigger] spts@[q]@).len()
                        == input.shapes@[q].points@.len() && spts@[q]@.len() <= cells,
                togs == usum(input_npts(input.shapes@).take(j as int)),
                togs <= j * cells,
            decreases ns - j,
        {
            proof {
                let iseq = input_npts(input.shapes@);
                assert(iseq.take(j + 1).drop_last() =~= iseq.take(j as int));
                assert(iseq.take(j + 1).last() == iseq[j as int]);
                assert(j * cells + cells == (j + 1) * cells) by (nonlinear_arith) {}
                assert((j + 1) * cells <= 0x8000 * 0x8000) by (nonlinear_arith)
                    requires
                        j + 1 <= 0x8000,
                        cells <= 0x8000,
                {}
            }
            togs = togs + spts[j].len();
            j += 1;
        }
        proof {
            assert(input_npts(input.shapes@).take(ns as int) =~= input_npts(input.shapes@));
        }

        // The slack must be a whole, nonnegative number of cycles.
        if togs < gsum {
            return Err(SolveError::InconsistentTotals);
        }
        let diff = togs - gsum;
        if diff % mt != 0 {
            return Err(SolveError::InconsistentTotals);
        }
        let incs = diff / mt;
        proof {
            vstd::arithmetic::div_mod::lemma_fundamental_div_mod(diff as int, mt as int);
            assert(spec_validate(input) is Ok);
        }

        // Search order: point counts descending, ties by request position.
        let mut keys: Vec<usize> = Vec::new();
        let mut j: usize = 0;
        while j < ns
            invariant
                j <= ns,
                ns == input.shapes@.len(),
                spts@.len() == ns,
                forall|q: int|
                    0 <= q < ns ==> (#[trigger] spts@[q]@).len()
                        == input.shapes@[q].points@.len(),
                keys@.len() == j,
                forall|q: int| 0 <= q < j ==> keys@[q] == input_npts(input.shapes@)[q],
            decreases ns - j,
        {
            keys.push(spts[j].len());
            j += 1;
        }
        proof {
            assert(keys@ =~= input_npts(input.shapes@));
        }
        let mut order: Vec<usize> = Vec::new();
        let mut okeys: Vec<usize> = Vec::new();
        proof {
            assert(okeys@ =~= keys@.take(0));
        }
        let mut idx: usize = 0;
        while idx < ns
            invariant
                idx <= ns,
                ns == keys@.len(),
                order@.len() == idx,
                okeys@.len() == idx,
                forall|p: int| 0 <= p < idx ==> (#[trigger] order@[p]) < idx,
                forall|p: int, q: int| 0 <= p < q < idx ==> order@[p] != order@[q],
                forall|p: int| 0 <= p < idx ==> (#[trigger] okeys@[p]) == keys@[order@[p] as int],
                okeys@.to_multiset() == keys@.take(idx as int).to_multiset(),
                forall|p: int, q: int| 0 <= p < q < idx ==> okeys@[p] >= okeys@[q],
                forall|p: int, q: int|
                    0 <= p < q < idx && okeys@[p] == okeys@[q] ==> order@[p] < order@[q],
            decreases ns - idx,
        {
            broadcast use vstd::seq_lib::group_to_multiset_ensures;

            let key = keys[idx];
            let mut p: usize = 0;
            while p < okeys.len() && okeys[p] >= key
                invariant
                    p <= okeys@.len(),
                    forall|q: int| 0 <= q < p ==> (#[trigger] okeys@[q]) >= key,
                decreases okeys@.len() - p,
            {
                p += 1;
            }
            let ghost old_order = order@;
            let ghost old_okeys = okeys@;
            order.insert(p, idx);
            okeys.insert(p, key);
            proof {
                vstd::seq_lib::to_multiset_insert(old_okeys, p as int, key);
                assert(keys@.take(idx + 1) =~= keys@.take(idx as int).push(keys@[idx as int]));
                vstd::seq_lib::to_multiset_build(keys@.take(idx as int), keys@[idx as int]);
                assert(okeys@.to_multiset() == keys@.take(idx + 1).to_multiset());
                let pi = p as int;
                assert forall|a: int, b: int| 0 <= a < b < idx + 1 implies okeys@[a] >= okeys@[b]
                    && (okeys@[a] == okeys@[b] ==> order@[a] < order@[b]) by {
                    if b < pi {
                    } else if a == pi && b > pi {
                        assert(okeys@[b] == old_okeys[b - 1]);
                        assert(order@[b] == old_order[b - 1]);
                        if pi < old_okeys.len() {
                            assert(old_okeys[pi] < key);
                            if b - 1 > pi {
                                assert(old_okeys[pi] >= old_okeys[b - 1]);
                            }
                        }
                    } else if a < pi && b == pi {
                        assert(okeys@[a] == old_okeys[a]);
                        assert(okeys@[a] >= key);
                        assert(order@[a] == old_order[a]);
                        assert(old_order[a] < idx);
                    } else if a < pi && b > pi {
                        assert(okeys@[a] == old_okeys[a]);
                        assert(okeys@[b] == old_okeys[b - 1]);
                        assert(order@[a] == old_order[a]);
                        assert(order@[b] == old_order[b - 1]);
                    } else if a > pi {
                        assert(okeys@[a] == old_okeys[a - 1]);
                        assert(okeys@[b] == old_okeys[b - 1]);
                        assert(order@[a] == old_order[a - 1]);
                        assert(order@[b] == old_order[b - 1]);
                    }
                }
            }
            idx += 1;
        }
        proof {
            assert(keys@.take(ns as int) =~= keys@);
        }

        // Build the shapes in search order, linking each to the first
        // earlier interchangeable shape.
        let mut shapes: Vec<Shape> = Vec::new();
        let mut pos: usize = 0;
        while pos < ns
            invariant
                pos <= ns,
                ns == input.shapes@.len() <= 0x8000,
                cells == input.width * input.height,
                input.width >= 1,
                input.height >= 1,
                cells <= 0x8000,
                spts@.len() == ns,
                order@.len() == ns,
                okeys@.len() == ns,
                keys@ == input_npts(input.shapes@),
                forall|p: int| 0 <= p < ns ==> (#[trigger] order@[p]) < ns,
                forall|p: int, q: int| 0 <= p < q < ns ==> order@[p] != order@[q],
                forall|p: int| 0 <= p < ns ==> (#[trigger] okeys@[p]) == keys@[order@[p] as int],
                forall|p: int, q: int| 0 <= p < q < ns ==> okeys@[p] >= okeys@[q],
                forall|p: int, q: int|
                    0 <= p < q < ns && okeys@[p] == okeys@[q] ==> order@[p] < order@[q],
                forall|q: int|
                    0 <= q < ns ==> (#[trigger] spts@[q]@).to_multiset()
                        == input.shapes@[q].points@.to_multiset(),
                forall|q: int| 0 <= q < ns ==> strictly_increasing(#[trigger] spts@[q]@),
                forall|q: int|
                    0 <= q < ns ==> (#[trigger] spts@[q]@).len()
                        == input.shapes@[q].points@.len() && spts@[q]@.len() <= cells
                        && cells_in_range(spts@[q]@, cells as int),
                forall|q: int| 0 <= q < ns ==> (#[trigger] input.shapes@[q].id) < ns,
                shapes@.len() == pos,
                forall|p: int|
                    0 <= p < pos ==> shape_wf(#[trigger] shapes@[p], cells as int),
                forall|p: int|
                    0 <= p < pos ==> (#[trigger] shapes@[p]).original_id
                        == input.shapes@[order@[p] as int].id,
                forall|p: int|
                    0 <= p < pos ==> shape_models(
                        #[trigger] shapes@[p],
                        input.shapes@[order@[p] as int],
                        input.width as int,
                        input.height as int,
                    ),
                forall|p: int| 0 <= p < pos ==> (#[trigger] shapes@[p]).npts == okeys@[p],
                total_npts(shapes@) == usum(okeys@.take(pos as int)),
                forall|p: int|
                    0 <= p < pos ==> match (#[trigger] shapes@[p]).equivalent_to {
                        Some(e) => 0 <= e < p && eq_cand(shapes@, p, e as int) && (forall|e2: int|
                            0 <= e2 < e ==> !eq_cand(shapes@, p, e2)),
                        None => forall|e2: int| 0 <= e2 < p ==> !eq_cand(shapes@, p, e2),
                    },
            decreases ns - pos,
        {
            let oidx = order[pos];
            let mut sh = build_shape(
                &spts[oidx],
                input.shapes[oidx].id,
                input.width,
                input.height,
            );
            let mut e: usize = 0;
            let mut haseq = false;
            while e < pos && !haseq
                invariant
                    e <= pos,
                    pos == shapes@.len(),
                    sh.equivalent_to is None,
                    shape_wf(sh, cells as int),
                    forall|p: int| 0 <= p < pos ==> shape_wf(#[trigger] shapes@[p], cells as int),
                    !haseq ==> forall|e2: int|
                        0 <= e2 < e ==> !(shapes@[e2].npts == sh.npts && shapes@[e2].tot == sh.tot
                            && placement_cells(shapes@[e2], 0) == placement_cells(sh, 0)),
                    haseq ==> e < pos && shapes@[e as int].npts == sh.npts
                        && shapes@[e as int].tot == sh.tot && placement_cells(shapes@[e as int], 0)
                        == placement_cells(sh, 0) && (forall|e2: int|
                        0 <= e2 < e ==> !(shapes@[e2].npts == sh.npts && shapes@[e2].tot == sh.tot
                            && placement_cells(shapes@[e2], 0) == placement_cells(sh, 0))),
                decreases pos - e + (if haseq { 0int } else { 1int }),
            {
                proof {
                    assert(shapes@[e as int].cache@.len() >= shapes@[e as int].npts)
                        by (nonlinear_arith)
                        requires
                            shapes@[e as int].cache@.len() == shapes@[e as int].tot
                                * shapes@[e as int].npts,
                            shapes@[e as int].tot >= 1,
                            shapes@[e as int].npts >= 0,
                    {}
                    assert(sh.cache@.len() >= sh.npts) by (nonlinear_arith)
                        requires
                            sh.cache@.len() == sh.tot * sh.npts,
                            sh.tot >= 1,
                            sh.npts >= 0,
                    {}
                }
                if shapes[e].npts == sh.npts && shapes[e].tot == sh.tot && cache_prefix_eq(
                    &shapes[e].cache,
                    &sh.cache,
                    sh.npts,
                ) {
                    proof {
                        lemma_placement0(shapes@[e as int]);
                        lemma_placement0(sh);
                    }
                    haseq = true;
                } else {
                    proof {
                        lemma_placement0(shapes@[e as int]);
                        lemma_placement0(sh);
                    }
                    e += 1;
                }
            }
            let ghost sh0 = sh;
            if haseq {
                sh.equivalent_to = Some(e);
            }
            let ghost old_shapes = shapes@;
            let ghost shnpts = sh.npts;
            shapes.push(sh);
            proof {
                assert(shapes@.drop_last() =~= old_shapes);
                assert(okeys@.take(pos + 1).drop_last() =~= okeys@.take(pos as int));
                assert(okeys@.take(pos + 1).last() == okeys@[pos as int]);
                assert(shapes@[pos as int] == sh);
                assert(shapes@[pos as int].npts == okeys@[pos as int]);
                assert(sh.cache@ == sh0.cache@ && sh.npts == sh0.npts && sh.ax == sh0.ax
                    && sh.tot == sh0.tot && sh.original_id == sh0.original_id);
                assert(placement_cells(sh, 0) == placement_cells(sh0, 0));
                assert(placement_cells(sh, 0) == spts@[oidx as int]@);
                assert forall|k: int| 0 <= k < sh.tot implies strictly_increasing(
                    #[trigger] placement_cells(sh, k),
                ) by {
                    assert(strictly_increasing(placement_cells(sh0, k)));
                    assert(placement_cells(sh, k) == placement_cells(sh0, k));
                }
                assert(shape_wf(sh, cells as int));
                assert(sh.original_id == input.shapes@[oidx as int].id);
                assert(shape_models(
                    sh,
                    input.shapes@[oidx as int],
                    input.width as int,
                    input.height as int,
                )) by {
                    assert(sh.npts == input.shapes@[oidx as int].points@.len());
                    assert(placement_cells(sh, 0).to_multiset() == input.shapes@[
                        oidx as int
                    ].points@.to_multiset());
                    assert(strictly_increasing(placement_cells(sh, 0)));
                    assert(forall|k: int, l: int|
                        0 <= k < sh.tot && 0 <= l < sh.npts ==> (#[trigger] sh.cache@[k * sh.npts
                            + l]) as int == placement_cells(sh, 0)[l] + (k / sh.ax as int) * (
                        input.width as int) + k % sh.ax as int);
                }
                assert(sh.npts == okeys@[pos as int]) by {
                    assert(sh.npts == spts@[oidx as int]@.len());
                    assert(okeys@[pos as int] == keys@[order@[pos as int] as int]);
                }
                assert forall|p: int|
                    0 <= p < pos + 1 implies shape_wf(#[trigger] shapes@[p], cells as int) by {
                    if p < pos {
                        assert(shapes@[p] == old_shapes[p]);
                        assert(shape_wf(old_shapes[p], cells as int));
                    } else {
                        assert(shapes@[p] == sh);
                    }
                }
                assert forall|p: int|
                    0 <= p < pos + 1 implies (#[trigger] shapes@[p]).original_id == input.shapes@[
                    order@[p] as int].id by {
                    if p < pos {
                        assert(shapes@[p] == old_shapes[p]);
                        assert(old_shapes[p].original_id == input.shapes@[order@[p] as int].id);
                    } else {
                        assert(shapes@[p] == sh);
                    }
                }
                assert forall|p: int|
                    0 <= p < pos + 1 implies shape_models(
                        #[trigger] shapes@[p],
                        input.shapes@[order@[p] as int],
                        input.width as int,
                        input.height as int,
                    ) by {
                    if p < pos {
                        assert(shapes@[p] == old_shapes[p]);
                        assert(shape_models(
                            old_shapes[p],
                            input.shapes@[order@[p] as int],
                            input.width as int,
                            input.height as int,
                        ));
                    } else {
                        assert(shapes@[p] == sh);
                    }
                }
                assert forall|p: int|
                    0 <= p < pos + 1 implies (#[trigger] shapes@[p]).npts == okeys@[p] by {
                    if p < pos {
                        assert(shapes@[p] == old_shapes[p]);
                        assert(old_shapes[p].npts == okeys@[p]);
                    } else {
                        assert(shapes@[p] == sh);
                    }
                }
                assert forall|p: int|
                    0 <= p < pos + 1 implies match (#[trigger] shapes@[p]).equivalent_to {
                        Some(e2) => 0 <= e2 < p && eq_cand(shapes@, p, e2 as int) && (forall|
                            e3: int,
                        |
                            0 <= e3 < e2 ==> !eq_cand(shapes@, p, e3)),
                        None => forall|e3: int| 0 <= e3 < p ==> !eq_cand(shapes@, p, e3),
                    } by {
                    if p < pos {
                        assert(shapes@[p] == old_shapes[p]);
                        assert(shapes@[p].equivalent_to == old_shapes[p].equivalent_to);
                        if shapes@[p].equivalent_to is Some {
                            let e2 = shapes@[p].equivalent_to->0;
                            assert(eq_cand(old_shapes, p, e2 as int));
                            assert(eq_cand(shapes@, p, e2 as int)) by {
                                assert(shapes@[e2 as int] == old_shapes[e2 as int]);
                            }
                            assert forall|e3: int| 0 <= e3 < e2 implies !eq_cand(
                                shapes@,
                                p,
                                e3,
                            ) by {
                                assert(!eq_cand(old_shapes, p, e3));
                                assert(shapes@[e3] == old_shapes[e3]);
                            }
                        } else {
                            assert forall|e3: int| 0 <= e3 < p implies !eq_cand(
                                shapes@,
                                p,
                                e3,
                            ) by {
                                assert(!eq_cand(old_shapes, p, e3));
                                assert(shapes@[e3] == old_shapes[e3]);
                            }
                        }
                    } else {
                        assert(shapes@[p] == sh);
                        if haseq {
                            assert(shapes@[p].equivalent_to == Some(e));
                            assert(old_shapes[e as int].npts == sh0.npts && old_shapes[
                                e as int
                            ].tot == sh0.tot && placement_cells(old_shapes[e as int], 0)
                                == placement_cells(sh0, 0));
                            assert(eq_cand(shapes@, p, e as int));
                            assert forall|e3: int| 0 <= e3 < e implies !eq_cand(
                                shapes@,
                                p,
                                e3,
                            ) by {
                                assert(!(old_shapes[e3].npts == sh0.npts && old_shapes[e3].tot
                                    == sh0.tot && placement_cells(old_shapes[e3], 0)
                                    == placement_cells(sh0, 0)));
                            }
                        } else {
                            assert(shapes@[p].equivalent_to is None);
                            assert(e >= pos);
                            assert forall|e3: int| 0 <= e3 < p implies !eq_cand(
                                shapes@,
                                p,
                                e3,
                            ) by {
                                assert(!(old_shapes[e3].npts == sh0.npts && old_shapes[e3].tot
                                    == sh0.tot && placement_cells(old_shapes[e3], 0)
                                    == placement_cells(sh0, 0)));
                            }
                        }
                    }
                }
            }
            pos += 1;
        }
        proof {
            assert(okeys@.take(ns as int) =~= okeys@);
            lemma_usum_permutation(okeys@, keys@);
        }

        let s = Solver { max_token: mt, mat, shapes, ns, incs };
        proof {
            assert(ids_are_permutation(s.shapes@)) by {
                assert forall|q: int| 0 <= q < ns implies (#[trigger] s.shapes@[q].original_id)
                    < ns by {}
                assert forall|q: int, q2: int|
                    0 <= q < q2 < ns implies s.shapes@[q].original_id
                        != s.shapes@[q2].original_id by {
                    assert(s.shapes@[q].original_id == input.shapes@[order@[q] as int].id);
                    assert(s.shapes@[q2].original_id == input.shapes@[order@[q2] as int].id);
                }
                assert forall|mm: int| 0 <= mm < ns implies #[trigger] has_id(s.shapes@, mm) by {
                    assert(has_data_id(input.shapes@, mm));
                    let jj = choose|jj: int|
                        0 <= jj < ns && (#[trigger] input.shapes@[jj].id) as int == mm;
                    lemma_order_onto(order@, ns as int, jj);
                    let pp = choose|pp: int| 0 <= pp < ns && order@[pp] as int == jj;
                    assert(s.shapes@[pp].original_id as int == mm);
                }
            }
            assert forall|jj: int|
                0 <= jj < ns implies shape_models(
                    #[trigger] s.shapes@[jj],
                    input.shapes@[input_index_of(input.shapes@, s.shapes@[jj].original_id as int)],
                    input.width as int,
                    input.height as int,
                ) by {
                let myid = s.shapes@[jj].original_id as int;
                assert(input.shapes@[order@[jj] as int].id as int == myid);
                let ii = input_index_of(input.shapes@, myid);
                assert(0 <= ii < ns && input.shapes@[ii].id as int == myid);
                assert forall|x: int, y: int|
                    0 <= x < ns && 0 <= y < ns && input.shapes@[x].id == input.shapes@[y].id
                        implies x == y by {}
                assert(ii == order@[jj] as int);
            }
            assert forall|a: int, b: int|
                0 <= a < b < ns && s.shapes@[a].npts == s.shapes@[b].npts implies input_index_of(
                    input.shapes@,
                    s.shapes@[a].original_id as int,
                ) < input_index_of(input.shapes@, s.shapes@[b].original_id as int) by {
                assert(okeys@[a] == s.shapes@[a].npts && okeys@[b] == s.shapes@[b].npts);
                assert(order@[a] < order@[b]);
                let ida = s.shapes@[a].original_id as int;
                let idb = s.shapes@[b].original_id as int;
                assert(input.shapes@[order@[a] as int].id as int == ida);
                assert(input.shapes@[order@[b] as int].id as int == idb);
                assert(input_index_of(input.shapes@, ida) == order@[a] as int);
                assert(input_index_of(input.shapes@, idb) == order@[b] as int);
            }
            assert(s.reconciled());
        }
        Ok(s)
    }

    /// Convert the terminal per-shape placement indices into caller-facing
    /// steps, ordered by ascending original shape identifier. Lookup is a
    /// linear scan per identifier.
    pub fn build_solution(&self, trial: &Vec<usize>) -> (r: Vec<SolutionStep>)
        requires
            self.wf_core(),
            trial@.len() == self.ns,
        ensures
            r@.len() == self.ns,
            forall|m: int| 0 <= m < self.ns ==> (#[trigger] r@[m]).original_shape_id == m,
            forall|j: int|
                0 <= j < self.ns ==> (#[trigger] r@[self.shapes@[j].original_id as int]).placement_seq
                    == trial@[j] && r@[self.shapes@[j].original_id as int].placement_x as int
                    == trial@[j] as int % self.shapes@[j].ax as int && r@[self.shapes@[
                    j
                ].original_id as int].placement_y as int == trial@[j] as int / self.shapes@[
                    j
                ].ax as int,
    {
        let ns = self.ns;
        let mut steps: Vec<SolutionStep> = Vec::new();
        let mut m: usize = 0;
        while m < ns
            invariant
                m <= ns,
                self.wf_core(),
                ns == self.ns,
                trial@.len() == self.ns,
                steps@.len() == m,
                forall|m2: int| 0 <= m2 < m ==> (#[trigger] steps@[m2]).original_shape_id == m2,
                forall|j: int|
                    0 <= j < ns && (self.shapes@[j].original_id as int) < m ==> (
                    #[trigger] steps@[self.shapes@[j].original_id as int]).placement_seq
                        == trial@[j] && steps@[self.shapes@[j].original_id as int].placement_x as int
                        == trial@[j] as int % self.shapes@[j].ax as int && steps@[self.shapes@[
                        j
                    ].original_id as int].placement_y as int == trial@[j] as int / self.shapes@[
                        j
                    ].ax as int,
            decreases ns - m,
        {
            let mut k: usize = 0;
            let mut found = false;
            let mut fk: usize = 0;
            while k < ns && !found
                invariant
                    k <= ns,
                    self.wf_core(),
                    ns == self.ns,
                    m < ns,
                    !found ==> forall|q: int|
                        0 <= q < k ==> (#[trigger] self.shapes@[q].original_id) != m,
                    found ==> fk < ns && self.shapes@[fk as int].original_id == m,
                decreases ns - k + (if found { 0int } else { 1int }),
            {
                if self.shapes[k].original_id == m {
                    found = true;
                    fk = k;
                } else {
                    k += 1;
                }
            }
            if found {
                let seq = trial[fk];
                let ax = self.shapes[fk].ax;
                let st = SolutionStep {
                    original_shape_id: m,
                    placement_x: seq % ax,
                    placement_y: seq / ax,
                    placement_seq: seq,
                };
                let ghost old_steps = steps@;
                steps.push(st);
                proof {
                    assert forall|j: int|
                        0 <= j < ns && (self.shapes@[j].original_id as int) < m + 1 implies (
                        #[trigger] steps@[self.shapes@[j].original_id as int]).placement_seq
                            == trial@[j] && steps@[self.shapes@[
                            j
                        ].original_id as int].placement_x as int == trial@[j] as int % self.shapes@[
                            j
                        ].ax as int && steps@[self.shapes@[j].original_id as int].placement_y as int
                            == trial@[j] as int / self.shapes@[j].ax as int by {
                        let id = self.shapes@[j].original_id as int;
                        if id < m {
                            assert(steps@[id] == old_steps[id]);
                        } else {
                            assert(id == m);
                            if j != fk as int {
                                assert(self.shapes@[j].original_id == self.shapes@[
                                    fk as int
                                ].original_id);
                                assert(false);
                            }
                            assert(steps@[id] == st);
                        }
                    }
                }
            } else {
                proof {
                    assert(has_id(self.shapes@, m as int));
                    assert(false);
                }
            }
            m += 1;
        }
        steps
    }

    /// Run the pruned depth-first backtracking search. On success, the
    /// emitted steps replayed against the grid the solver was built with
    /// drive every cell to the goal, and interchangeable shapes carry
    /// placement indices in search order; exhaustion restores the grid
    /// exactly, and for a single-shape request it is also proven exact: no
    /// placement at all reaches the goal. For several shapes the contract
    /// does not pin the exhaustion verdict (nor, on success, which of the
    /// admissible solutions is found): that would take an exhaustiveness
    /// proof of the whole search order, of which the slack-prune soundness
    /// laws in `crate::model` are the first piece. A cancellation poll may
    /// abandon the search at any point.
    #[verifier::rlimit(100)]
    pub fn solve(&mut self, cancel: &CancelToken) -> (r: SolveOutcome)
        requires
            old(self).wf_core(),
            old(self).reconciled(),
        ensures
            final(self).max_token == old(self).max_token,
            final(self).ns == old(self).ns,
            final(self).incs == old(self).incs,
            final(self).shapes@ == old(self).shapes@,
            final(self).wf_core(),
            final(self).mat@.len() == old(self).mat@.len(),
            match r {
                SolveOutcome::Solved(steps) => {
                    &&& steps@.len() == old(self).ns
                    &&& forall|m: int|
                        0 <= m < steps@.len() ==> (#[trigger] steps@[m]).original_shape_id == m
                    &&& forall|j: int|
                        0 <= j < old(self).ns ==> (#[trigger] steps@[old(self).shapes@[
                            j
                        ].original_id as int]).placement_seq < old(self).shapes@[j].tot
                            && steps@[old(self).shapes@[j].original_id as int].placement_x as int
                            == steps@[old(self).shapes@[
                            j
                        ].original_id as int].placement_seq as int % old(self).shapes@[
                            j
                        ].ax as int && steps@[old(self).shapes@[
                            j
                        ].original_id as int].placement_y as int == steps@[old(self).shapes@[
                            j
                        ].original_id as int].placement_seq as int / old(self).shapes@[j].ax as int
                    &&& forall|j: int|
                        0 <= j < old(self).ns ==> match (#[trigger] old(self).shapes@[
                            j
                        ]).equivalent_to {
                            Some(e) => steps@[old(self).shapes@[
                                j
                            ].original_id as int].placement_seq >= steps@[old(self).shapes@[
                                e as int
                            ].original_id as int].placement_seq,
                            None => true,
                        }
                    &&& final(self).mat@ == replay(
                        old(self).mat@,
                        steps_plays(old(self).shapes@, steps@),
                        old(self).max_token as int,
                    )
                    &&& all_zero(final(self).mat@)
                },
                SolveOutcome::NoSolution => final(self).mat@ == old(self).mat@ && (old(self).ns
                    == 1 ==> !(exists|t: Seq<usize>|
                    t.len() == old(self).ns && (forall|j: int|
                        0 <= j < t.len() ==> (#[trigger] t[j]) < old(self).shapes@[j].tot)
                        && all_zero(
                        replay(
                            old(self).mat@,
                            committed_plays(old(self).shapes@, t, old(self).ns as int),
                            old(self).max_token as int,
                        ),
                    ))),
                SolveOutcome::Cancelled => true,
            },
    {
        let ns = self.ns;
        let mt = self.max_token;
        let ghost mat0 = self.mat@;
        let ghost shapes0 = self.shapes@;
        let ghost incs0 = self.incs;
        let mut trial: Vec<usize> = Vec::new();
        trial.push(0);
        let mut budgets: Vec<usize> = Vec::new();
        budgets.push(self.incs);
        let mut i: usize = 0;
        let mut poll: usize = 0;
        // More iterations than any feasible search performs; running out is
        // treated as an abandoned search.
        let mut fuel: u64 = u64::MAX;
        proof {
            assert(committed_plays(shapes0, trial@, 0) =~= Seq::<Seq<usize>>::empty());
        }
        loop
            invariant
                self.wf_core(),
                self.ns == ns,
                self.max_token == mt,
                self.incs == incs0,
                self.shapes@ == shapes0,
                mat0 == old(self).mat@,
                shapes0 == old(self).shapes@,
                incs0 == old(self).incs,
                ns == old(self).ns,
                mt == old(self).max_token,
                self.mat@.len() == mat0.len(),
                tokens_lt(mat0, mt as int),
                grid_sum(mat0) + mt * incs0 == total_npts(shapes0),
                i < ns,
                trial@.len() == i + 1,
                budgets@.len() == i + 1,
                forall|j: int| 0 <= j < i ==> (#[trigger] trial@[j]) < shapes0[j].tot,
                trial@[i as int] <= shapes0[i as int].tot,
                forall|j: int|
                    0 <= j <= i ==> match (#[trigger] shapes0[j]).equivalent_to {
                        Some(e) => trial@[j] >= trial@[e as int],
                        None => true,
                    },
                ns == 1 ==> trial@[0] == 0,
                self.mat@ == replay(mat0, committed_plays(shapes0, trial@, i as int), mt as int),
                forall|j: int|
                    0 <= j <= i ==> (#[trigger] budgets@[j]) as int == incs0 - replay_hits(
                        mat0,
                        committed_plays(shapes0, trial@, j),
                        mt as int,
                    ),
                poll < 1024,
            decreases fuel,
        {
            if fuel == 0 {
                return SolveOutcome::Cancelled;
            }
            fuel = fuel - 1;
            poll += 1;
            if poll == 1024 {
                poll = 0;
                if cancel.is_cancelled() {
                    return SolveOutcome::Cancelled;
                }
            }
            let ghost plays_i = committed_plays(shapes0, trial@, i as int);
            proof {
                lemma_plays_wf(shapes0, trial@, i as int, mat0.len() as int);
                lemma_replay_sum(mat0, plays_i, mt as int);
            }
            let start = trial[i];
            let budget = budgets[i];
            let res = find_placement(&self.mat, &self.shapes[i], start, budget);
            match res {
                Some(pair) => {
                    let s = pair.0;
                    let nb = pair.1;
                    let ghost pretrial = trial@;
                    trial.pop();
                    trial.push(s);
                    proof {
                        assert forall|j: int|
                            0 <= j <= i implies committed_plays(shapes0, trial@, j)
                                =~= committed_plays(shapes0, pretrial, j) by {}
                        assert(committed_plays(shapes0, trial@, i as int) == plays_i);
                        lemma_placement_cells_wf(shapes0[i as int], s as int, mat0.len() as int);
                    }
                    let npts = self.shapes[i].npts;
                    let clen = self.shapes[i].cache.len();
                    let ghost cells = placement_cells(shapes0[i as int], s as int);
                    let ghost mat_before = self.mat@;
                    proof {
                        assert(s * npts + npts <= clen);
                        assert(self.shapes@[i as int].cache@.subrange(
                            s * npts as int,
                            s * npts + npts as int,
                        ) == cells);
                    }
                    apply_placement(&mut self.mat, &self.shapes[i].cache, s * npts, npts, mt);
                    budgets.push(nb);
                    proof {
                        let plays_i1 = committed_plays(shapes0, trial@, i + 1);
                        assert(plays_i1.drop_last() =~= plays_i);
                        assert(plays_i1.last() == cells);
                        assert(plays_i1 =~= plays_i.push(cells));
                        assert(replay(mat0, plays_i1, mt as int) == apply_cells(
                            replay(mat0, plays_i, mt as int),
                            cells,
                            mt as int,
                        ));
                        assert(self.mat@ == replay(mat0, plays_i1, mt as int));
                        assert(replay_hits(mat0, plays_i1, mt as int) == replay_hits(
                            mat0,
                            plays_i,
                            mt as int,
                        ) + zero_hits(mat_before, cells));
                        assert forall|j: int|
                            0 <= j <= i + 1 implies (#[trigger] budgets@[j]) as int == incs0
                                - replay_hits(
                                mat0,
                                committed_plays(shapes0, trial@, j),
                                mt as int,
                            ) by {
                            if j <= i {
                                assert(committed_plays(shapes0, trial@, j) =~= committed_plays(
                                    shapes0,
                                    pretrial,
                                    j,
                                ));
                            }
                        }
                        lemma_plays_wf(shapes0, trial@, i + 1, mat0.len() as int);
                        lemma_replay_sum(mat0, plays_i1, mt as int);
                        assert(tokens_lt(self.mat@, mt as int));
                    }
                    if i == ns - 1 {
                        proof {
                            lemma_final_grid_zero(
                                mat0,
                                shapes0,
                                trial@,
                                mt as int,
                                incs0 as int,
                                budgets@[ns as int] as int,
                            );
                        }
                        let steps = self.build_solution(&trial);
                        proof {
                            assert(steps_plays(shapes0, steps@) =~= committed_plays(
                                shapes0,
                                trial@,
                                ns as int,
                            ));
                            assert forall|j: int|
                                0 <= j < ns implies match (#[trigger] shapes0[j]).equivalent_to {
                                    Some(e) => steps@[shapes0[
                                        j
                                    ].original_id as int].placement_seq >= steps@[shapes0[
                                        e as int
                                    ].original_id as int].placement_seq,
                                    None => true,
                                } by {
                                if shapes0[j].equivalent_to is Some {
                                    let e = shapes0[j].equivalent_to->0;
                                    assert(steps@[shapes0[j].original_id as int].placement_seq
                                        == trial@[j]);
                                    assert(steps@[shapes0[
                                        e as int
                                    ].original_id as int].placement_seq == trial@[e as int]);
                                }
                            }
                        }
                        return SolveOutcome::Solved(steps);
                    }
                    i += 1;
                    let seed: usize = match self.shapes[i].equivalent_to {
                        Some(e) => trial[e],
                        None => 0,
                    };
                    let ghost pretrial2 = trial@;
                    trial.push(seed);
                    proof {
                        assert forall|j: int|
                            0 <= j <= i implies committed_plays(shapes0, trial@, j)
                                =~= committed_plays(shapes0, pretrial2, j) by {}
                    }
                }
                None => {
                    if i == 0 {
                        proof {
                            assert(committed_plays(shapes0, trial@, 0)
                                =~= Seq::<Seq<usize>>::empty());
                            if ns == 1 {
                                assert(self.mat@ == mat0);
                                assert(budget as int == incs0 as int);
                                assert forall|t0: int|
                                    0 <= t0 < shapes0[0].tot implies zero_hits(
                                    mat0,
                                    #[trigger] placement_cells(shapes0[0], t0),
                                ) > incs0 as int by {
                                    assert(zero_hits(self.mat@, placement_cells(shapes0[0], t0))
                                        > budget);
                                }
                                lemma_single_shape_exhausted(
                                    shapes0,
                                    mat0,
                                    mt as int,
                                    incs0 as int,
                                );
                            }
                        }
                        return SolveOutcome::NoSolution;
                    }
                    let ghost pretrial = trial@;
                    i -= 1;
                    trial.pop();
                    budgets.pop();
                    proof {
                        assert forall|j: int|
                            0 <= j <= i + 1 implies committed_plays(shapes0, trial@, j)
                                =~= committed_plays(shapes0, pretrial, j) by {}
                    }
                    let ps = trial[i];
                    let npts = self.shapes[i].npts;
                    let clen = self.shapes[i].cache.len();
                    let ghost cells = placement_cells(shapes0[i as int], ps as int);
                    let ghost plays_prev = committed_plays(shapes0, trial@, i as int);
                    proof {
                        lemma_placement_cells_wf(shapes0[i as int], ps as int, mat0.len() as int);
                        assert(ps * npts + npts <= clen);
                        let plays_i1 = committed_plays(shapes0, trial@, i + 1);
                        assert(plays_i1.drop_last() =~= plays_prev);
                        assert(plays_i1.last() == cells);
                        assert(self.mat@ == replay(mat0, plays_i1, mt as int));
                        assert(replay(mat0, plays_i1, mt as int) == apply_cells(
                            replay(mat0, plays_prev, mt as int),
                            cells,
                            mt as int,
                        ));
                        lemma_plays_wf(shapes0, trial@, i as int, mat0.len() as int);
                        lemma_replay_sum(mat0, plays_prev, mt as int);
                        lemma_apply_then_undo_is_identity(
                            replay(mat0, plays_prev, mt as int),
                            cells,
                            mt as int,
                        );
                        lemma_apply_cells_char(replay(mat0, plays_prev, mt as int), cells, mt as int);
                        assert(self.shapes@[i as int].cache@.subrange(
                            ps * npts as int,
                            ps * npts + npts as int,
                        ) == cells);
                    }
                    undo_placement(&mut self.mat, &self.shapes[i].cache, ps * npts, npts, mt);
                    proof {
                        assert(self.mat@ == replay(mat0, plays_prev, mt as int));
                    }
                    let cur = trial[i];
                    let ghost pretrial2 = trial@;
                    trial.pop();
                    trial.push(cur + 1);
                    proof {
                        assert forall|j: int|
                            0 <= j <= i implies committed_plays(shapes0, trial@, j)
                                =~= committed_plays(shapes0, pretrial2, j) by {}
                        assert(committed_plays(shapes0, trial@, i as int) == plays_prev);
                    }
                }
            }
        }
    }

    /// A copy of the solver's normalized grid tokens.
    pub fn tokens(&self) -> (r: Vec<u8>)
        ensures
            r@ == self.mat@,
    {
        let mut out: Vec<u8> = Vec::new();
        let mut c: usize = 0;
        while c < self.mat.len()
            invariant
                c <= self.mat@.len(),
                out@ == self.mat@.take(c as int),
            decreases self.mat@.len() - c,
        {
            out.push(self.mat[c]);
            proof {
                assert(out@ =~= self.mat@.take(c + 1));
            }
            c += 1;
        }
        proof {
            assert(out@ =~= self.mat@);
        }
        out
    }
}

} // verus!
