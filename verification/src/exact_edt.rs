//! Exact squared Euclidean distance transform by the two-pass separable
//! algorithm: a per-row pass that finds the distance to the nearest
//! opposite-class cell within the row (counting a virtual opposite-class cell
//! just outside each end of the row), then a per-column pass that takes the
//! lower envelope of the parabolas built from the row values, clamped by the
//! two virtual boundary parabolas `y*y` and `(h-y)*(h-y)`.

use crate::BoolLike;
use vstd::prelude::*;

verus! {

/// Error returned when a buffer's length disagrees with `width * height`.
#[derive(Clone, Copy, Debug, PartialEq, Eq, Structural)]
pub struct ShapeMismatch;

/// Largest input length the transforms accept; keeps all squared distances
/// and index arithmetic inside `u64` and `i32`.
pub const MAX_CELLS: usize = 0x4000_0000;

/// The smaller of two integers.
pub open spec fn imin(a: int, b: int) -> int {
    if a < b {
        a
    } else {
        b
    }
}

/// `|a - b|`.
pub open spec fn abs_diff(a: int, b: int) -> int {
    if a >= b {
        a - b
    } else {
        b - a
    }
}

/// The class of each cell: `true` for cells whose distance is sought, `false`
/// for cells of the opposite class (the sources, which report distance zero).
pub open spec fn occ_of<T: BoolLike>(map: Seq<T>, invert: bool) -> Seq<bool> {
    Seq::new(map.len(), |i: int| map[i].spec_as_bool() != invert)
}

/// Distance from column `x` of row `y` to the nearest source cell among the
/// first `k` columns of that row, or `w + 1` if there is none.
pub open spec fn row_src_dist(occ: Seq<bool>, w: int, y: int, x: int, k: int) -> int
    decreases k,
{
    if k <= 0 {
        w + 1
    } else {
        let prev = row_src_dist(occ, w, y, x, k - 1);
        let cand = if !occ[y * w + (k - 1)] {
            abs_diff(x, k - 1)
        } else {
            w + 1
        };
        if cand < prev {
            cand
        } else {
            prev
        }
    }
}

/// In-row distance of column `x` of row `y` to the nearest source: the
/// nearest source cell in the row, or the virtual source just outside either
/// end of the row, whichever is closest.
pub open spec fn horz_dist(occ: Seq<bool>, w: int, y: int, x: int) -> int {
    imin(imin(x + 1, w - x), row_src_dist(occ, w, y, x, w))
}

/// Value of the left-to-right sweep at column `x` of row `y`: cells counted
/// since the last source cell, or since just before the row's start.
pub open spec fn left_dist(occ: Seq<bool>, w: int, y: int, x: int) -> int
    decreases x + 1,
{
    if x < 0 {
        0
    } else if !occ[y * w + x] {
        0
    } else {
        left_dist(occ, w, y, x - 1) + 1
    }
}

/// Value of the right-to-left sweep at column `x` of row `y`.
pub open spec fn right_dist(occ: Seq<bool>, w: int, y: int, x: int) -> int
    decreases w - x,
{
    if x >= w {
        0
    } else if !occ[y * w + x] {
        0
    } else {
        right_dist(occ, w, y, x + 1) + 1
    }
}

/// Squared-distance candidate of row `y2` for the cell `(x, y)`.
pub open spec fn vert_cand(occ: Seq<bool>, w: int, x: int, y: int, y2: int) -> int {
    (y2 - y) * (y2 - y) + horz_dist(occ, w, y2, x) * horz_dist(occ, w, y2, x)
}

/// Smallest candidate among rows `0 .. k`.
pub open spec fn vert_min(occ: Seq<bool>, w: int, x: int, y: int, k: int) -> int
    decreases k,
{
    if k <= 1 {
        vert_cand(occ, w, x, y, 0)
    } else {
        imin(vert_min(occ, w, x, y, k - 1), vert_cand(occ, w, x, y, k - 1))
    }
}

/// The exact squared Euclidean distance this library assigns to cell
/// `(x, y)`: the parabola envelope over all rows, clamped by the two virtual
/// boundary parabolas.
pub open spec fn edt_sq_cell(occ: Seq<bool>, w: int, h: int, x: int, y: int) -> int {
    imin(imin(y * y, (h - y) * (h - y)), vert_min(occ, w, x, y, h))
}

pub(crate) proof fn lemma_left_dist_props(occ: Seq<bool>, w: int, y: int, x: int)
    requires
        0 <= y,
        0 <= x < w,
    ensures
        0 <= left_dist(occ, w, y, x) <= x + 1,
        forall|i: int|
            y * w <= i <= y * w + x && !occ[i] ==> left_dist(occ, w, y, x) <= y * w + x - i,
        left_dist(occ, w, y, x) == x + 1 || exists|i: int|
            y * w <= i <= y * w + x && !occ[i] && left_dist(occ, w, y, x) == y * w + x - i,
    decreases x,
{
    if !occ[y * w + x] {
        assert(left_dist(occ, w, y, x) == 0);
        assert(y * w <= y * w + x <= y * w + x && !occ[y * w + x] && left_dist(occ, w, y, x) == y
            * w + x - (y * w + x));
    } else if x == 0 {
        assert(left_dist(occ, w, y, x) == left_dist(occ, w, y, -1) + 1 == 1);
    } else {
        lemma_left_dist_props(occ, w, y, x - 1);
    }
}

pub(crate) proof fn lemma_right_dist_props(occ: Seq<bool>, w: int, y: int, x: int)
    requires
        0 <= y,
        0 <= x < w,
    ensures
        0 <= right_dist(occ, w, y, x) <= w - x,
        forall|i: int|
            y * w + x <= i < y * w + w && !occ[i] ==> right_dist(occ, w, y, x) <= i - (y * w + x),
        right_dist(occ, w, y, x) == w - x || exists|i: int|
            y * w + x <= i < y * w + w && !occ[i] && right_dist(occ, w, y, x) == i - (y * w + x),
    decreases w - x,
{
    if !occ[y * w + x] {
        assert(y * w + x <= y * w + x < y * w + w && !occ[y * w + x] && right_dist(occ, w, y, x)
            == (y * w + x) - (y * w + x));
    } else if x == w - 1 {
        assert(right_dist(occ, w, y, x) == right_dist(occ, w, y, w) + 1 == 1);
    } else {
        lemma_right_dist_props(occ, w, y, x + 1);
    }
}

pub(crate) proof fn lemma_row_src_props(occ: Seq<bool>, w: int, y: int, x: int, k: int)
    requires
        0 <= y,
        0 <= x < w,
        0 <= k <= w,
    ensures
        0 <= row_src_dist(occ, w, y, x, k) <= w + 1,
        forall|i: int|
            y * w <= i < y * w + k && !occ[i] ==> row_src_dist(occ, w, y, x, k) <= abs_diff(
                x,
                i - y * w,
            ),
        row_src_dist(occ, w, y, x, k) == w + 1 || exists|i: int|
            y * w <= i < y * w + k && !occ[i] && row_src_dist(occ, w, y, x, k) == abs_diff(
                x,
                i - y * w,
            ),
    decreases k,
{
    if k > 0 {
        lemma_row_src_props(occ, w, y, x, k - 1);
        if !occ[y * w + (k - 1)] {
            assert(y * w <= y * w + (k - 1) < y * w + k && !occ[y * w + (k - 1)]);
        }
    }
}

/// The two sweeps together compute exactly the in-row distance.
pub(crate) proof fn lemma_horz_from_sweeps(occ: Seq<bool>, w: int, y: int, x: int)
    requires
        0 <= y,
        0 <= x < w,
    ensures
        imin(left_dist(occ, w, y, x), right_dist(occ, w, y, x)) == horz_dist(occ, w, y, x),
{
    lemma_left_dist_props(occ, w, y, x);
    lemma_right_dist_props(occ, w, y, x);
    lemma_row_src_props(occ, w, y, x, w);
    let l = left_dist(occ, w, y, x);
    let r = right_dist(occ, w, y, x);
    let rs = row_src_dist(occ, w, y, x, w);
    // the sweeps never beat the true distance
    if l < x + 1 {
        let i = choose|i: int|
            y * w <= i <= y * w + x && !occ[i] && left_dist(occ, w, y, x) == y * w + x - i;
        assert(rs <= abs_diff(x, i - y * w));
        assert(abs_diff(x, i - y * w) == l);
    }
    if r < w - x {
        let i = choose|i: int|
            y * w + x <= i < y * w + w && !occ[i] && right_dist(occ, w, y, x) == i - (y * w + x);
        assert(rs <= abs_diff(x, i - y * w));
        assert(abs_diff(x, i - y * w) == r);
    }
    // the true distance is reachable by one of the sweeps
    if rs < w + 1 {
        let i = choose|i: int|
            y * w <= i < y * w + w && !occ[i] && row_src_dist(occ, w, y, x, w) == abs_diff(
                x,
                i - y * w,
            );
        if i <= y * w + x {
            assert(l <= y * w + x - i);
            assert(y * w + x - i == abs_diff(x, i - y * w));
        } else {
            assert(r <= i - (y * w + x));
            assert(i - (y * w + x) == abs_diff(x, i - y * w));
        }
    }
}

/// Bounds of the in-row distance.
pub(crate) proof fn lemma_horz_bounds(occ: Seq<bool>, w: int, y: int, x: int)
    requires
        0 <= y,
        0 <= x < w,
    ensures
        0 <= horz_dist(occ, w, y, x) <= w,
{
    lemma_row_src_props(occ, w, y, x, w);
}

pub(crate) proof fn lemma_row_fits(w: int, h: int, y: int, len: int)
    requires
        0 <= w,
        0 <= y < h,
        len == w * h,
    ensures
        y * w + w <= len,
        0 <= y * w,
{
    assert(y * w + w <= len && 0 <= y * w) by (nonlinear_arith)
        requires
            0 <= w,
            0 <= y < h,
            len == w * h,
    ;
}

/// Whether `shape` agrees with a buffer of length `len`.
pub(crate) fn shape_matches(len: usize, shape: (usize, usize)) -> (ok: bool)
    requires
        len <= MAX_CELLS,
    ensures
        ok == (shape.0 * shape.1 == len),
{
    let (w, h) = shape;
    if w == 0 || h == 0 {
        proof {
            assert(w * h == 0) by (nonlinear_arith)
                requires
                    w == 0 || h == 0,
            ;
        }
        len == 0
    } else if w > len || h > len {
        proof {
            assert(w * h > len) by (nonlinear_arith)
                requires
                    w >= 1,
                    h >= 1,
                    w > len || h > len,
            ;
        }
        false
    } else {
        proof {
            assert(w * h <= len * len) by (nonlinear_arith)
                requires
                    0 <= w <= len,
                    0 <= h <= len,
            ;
            assert(len * len <= 0x4000_0000 * 0x4000_0000) by (nonlinear_arith)
                requires
                    0 <= len <= 0x4000_0000,
            ;
        }
        let prod: u64 = (w as u64) * (h as u64);
        prod == len as u64
    }
}

/// Both sweeps over one row, against a buffer holding `len` (the sentinel)
/// at in-class cells and `0` at source cells.
fn horizontal_pass<T: BoolLike>(map: &Vec<T>, w: usize, h: usize, invert: bool) -> (r: Vec<u64>)
    requires
        w * h == map@.len(),
        map@.len() <= MAX_CELLS,
    ensures
        r@.len() == map@.len(),
        forall|x: int, y: int|
            0 <= x < w && 0 <= y < h ==> r@[y * w + x] == horz_dist(
                occ_of(map@, invert),
                w as int,
                y,
                x,
            ),
{
    let ghost occ = occ_of(map@, invert);
    let len = map.len();
    let sentinel = len as u64;
    let mut horz: Vec<u64> = Vec::new();
    let mut i: usize = 0;
    while i < len
        invariant
            i <= len,
            horz@.len() == i,
            occ == occ_of(map@, invert),
            len == map@.len(),
            sentinel == len,
            forall|j: int| 0 <= j < i ==> horz@[j] == (if occ[j] {
                len as int
            } else {
                0
            }),
        decreases len - i,
    {
        let o = map[i].as_bool() != invert;
        if o {
            horz.push(sentinel);
        } else {
            horz.push(0);
        }
        i += 1;
    }
    let mut y: usize = 0;
    while y < h
        invariant
            y <= h,
            horz@.len() == len,
            occ == occ_of(map@, invert),
            occ.len() == len,
            len == map@.len() <= MAX_CELLS,
            sentinel == len,
            len == w * h,
            forall|x2: int, y2: int|
                0 <= x2 < w && 0 <= y2 < y ==> horz@[y2 * w + x2] == horz_dist(occ, w as int, y2, x2),
            forall|i: int|
                y * w <= i < len ==> horz@[i] == (if occ[i] {
                    len as int
                } else {
                    0
                }),
        decreases h - y,
    {
        proof {
            lemma_row_fits(w as int, h as int, y as int, len as int);
        }
        let base = y * w;
        // left-to-right sweep
        let mut min_val: u64 = 0;
        let mut x: usize = 0;
        while x < w
            invariant
                x <= w,
                y < h,
                base == y * w,
                base + w <= len,
                horz@.len() == len,
                occ.len() == len,
                len == w * h <= MAX_CELLS,
                sentinel == len,
                min_val == (if x == 0 {
                    0
                } else {
                    left_dist(occ, w as int, y as int, x - 1)
                }),
                min_val <= x,
                forall|x2: int|
                    0 <= x2 < x ==> horz@[y * w + x2] == left_dist(occ, w as int, y as int, x2),
                forall|x2: int, y2: int|
                    0 <= x2 < w && 0 <= y2 < y ==> horz@[y2 * w + x2] == horz_dist(
                        occ,
                        w as int,
                        y2,
                        x2,
                    ),
                forall|i: int|
                    y * w + x <= i < len ==> horz@[i] == (if occ[i] {
                        len as int
                    } else {
                        0
                    }),
            decreases w - x,
        {
            proof {
                lemma_left_dist_props(occ, w as int, y as int, x as int);
            }
            let idx = base + x;
            let f = horz[idx];
            let next = min_val + 1;
            let v = if f < next {
                f
            } else {
                next
            };
            horz[idx] = v;
            min_val = v;
            proof {
                assert(w <= len) by (nonlinear_arith)
                    requires
                        len == w * h,
                        0 <= w,
                        1 <= h,
                ;
                assert(v == left_dist(occ, w as int, y as int, x as int));
                assert forall|x2: int, y2: int| 0 <= x2 < w && 0 <= y2 < y implies horz@[y2 * w
                    + x2] == horz_dist(occ, w as int, y2, x2) by {
                    assert(0 <= y2 * w + x2 < y * w) by (nonlinear_arith)
                        requires
                            0 <= x2 < w,
                            0 <= y2 < y,
                    ;
                }
            }
            x += 1;
        }
        // right-to-left sweep
        min_val = 0;
        let mut xr: usize = w;
        while xr > 0
            invariant
                xr <= w,
                y < h,
                base == y * w,
                base + w <= len,
                horz@.len() == len,
                occ.len() == len,
                len == w * h <= MAX_CELLS,
                sentinel == len,
                min_val == (if xr == w {
                    0
                } else {
                    imin(
                        left_dist(occ, w as int, y as int, xr as int),
                        right_dist(occ, w as int, y as int, xr as int),
                    )
                }),
                min_val <= w,
                forall|x2: int|
                    0 <= x2 < xr ==> horz@[y * w + x2] == left_dist(occ, w as int, y as int, x2),
                forall|x2: int|
                    xr <= x2 < w ==> horz@[y * w + x2] == imin(
                        left_dist(occ, w as int, y as int, x2),
                        right_dist(occ, w as int, y as int, x2),
                    ),
                forall|x2: int, y2: int|
                    0 <= x2 < w && 0 <= y2 < y ==> horz@[y2 * w + x2] == horz_dist(
                        occ,
                        w as int,
                        y2,
                        x2,
                    ),
                forall|i: int|
                    y * w + w <= i < len ==> horz@[i] == (if occ[i] {
                        len as int
                    } else {
                        0
                    }),
            decreases xr,
        {
            let x = xr - 1;
            proof {
                lemma_left_dist_props(occ, w as int, y as int, x as int);
                lemma_right_dist_props(occ, w as int, y as int, x as int);
                if x + 1 < w {
                    lemma_left_dist_props(occ, w as int, y as int, x + 1);
                    lemma_right_dist_props(occ, w as int, y as int, x + 1);
                }
            }
            let idx = base + x;
            let f = horz[idx];
            let next = min_val + 1;
            let v = if f < next {
                f
            } else {
                next
            };
            horz[idx] = v;
            min_val = v;
            proof {
                assert(v == imin(
                    left_dist(occ, w as int, y as int, x as int),
                    right_dist(occ, w as int, y as int, x as int),
                ));
                assert forall|x2: int, y2: int| 0 <= x2 < w && 0 <= y2 < y implies horz@[y2 * w
                    + x2] == horz_dist(occ, w as int, y2, x2) by {
                    assert(0 <= y2 * w + x2 < y * w) by (nonlinear_arith)
                        requires
                            0 <= x2 < w,
                            0 <= y2 < y,
                    ;
                }
            }
            xr = x;
        }
        proof {
            assert forall|x2: int| 0 <= x2 < w implies horz@[y * w + x2] == horz_dist(
                occ,
                w as int,
                y as int,
                x2,
            ) by {
                lemma_horz_from_sweeps(occ, w as int, y as int, x2);
            }
            assert((y + 1) * w == y * w + w) by (nonlinear_arith);
        }
        y += 1;
    }
    horz
}

/// The horizontal pass of the exact transform: for every cell, the distance
/// to the nearest opposite-class cell within its own row, counting a virtual
/// opposite-class cell just outside each end of the row.
///
/// Fails with [`ShapeMismatch`] when `shape.0 * shape.1` is not the buffer's
/// length.
pub fn horizontal_edt<T: BoolLike>(map: &Vec<T>, shape: (usize, usize), invert: bool) -> (r: Result<
    Vec<u64>,
    ShapeMismatch,
>)
    requires
        map@.len() <= MAX_CELLS,
    ensures
        r is Err <==> shape.0 * shape.1 != map@.len(),
        r matches Ok(v) ==> {
            &&& v@.len() == map@.len()
            &&& forall|x: int, y: int|
                0 <= x < shape.0 && 0 <= y < shape.1 ==> v@[y * shape.0 + x] == horz_dist(
                    occ_of(map@, invert),
                    shape.0 as int,
                    y,
                    x,
                )
        },
{
    if !shape_matches(map.len(), shape) {
        return Err(ShapeMismatch);
    }
    Ok(horizontal_pass(map, shape.0, shape.1, invert))
}

pub(crate) proof fn lemma_vert_min_props(occ: Seq<bool>, w: int, x: int, y: int, k: int)
    requires
        0 <= x < w,
        0 <= y,
        1 <= k,
    ensures
        vert_min(occ, w, x, y, k) >= 0,
        forall|y2: int|
            0 <= y2 < k ==> vert_min(occ, w, x, y, k) <= vert_cand(occ, w, x, y, y2),
    decreases k,
{
    lemma_horz_bounds(occ, w, k - 1, x);
    let d = k - 1 - y;
    assert(d * d >= 0) by (nonlinear_arith);
    assert(horz_dist(occ, w, k - 1, x) * horz_dist(occ, w, k - 1, x) >= 0) by (nonlinear_arith)
        requires
            horz_dist(occ, w, k - 1, x) >= 0,
    ;
    if k > 1 {
        lemma_vert_min_props(occ, w, x, y, k - 1);
    }
}

/// Cells of the source class always report squared distance zero.
pub proof fn lemma_source_cells_zero(occ: Seq<bool>, w: int, h: int, x: int, y: int)
    requires
        0 <= x < w,
        0 <= y < h,
        !occ[y * w + x],
    ensures
        edt_sq_cell(occ, w, h, x, y) == 0,
{
    lemma_row_src_props(occ, w, y, x, w);
    assert(row_src_dist(occ, w, y, x, w) <= abs_diff(x, (y * w + x) - y * w));
    assert(horz_dist(occ, w, y, x) == 0);
    lemma_vert_min_props(occ, w, x, y, h);
    assert(vert_cand(occ, w, x, y, y) == 0);
    assert(y * y >= 0) by (nonlinear_arith);
    assert((h - y) * (h - y) >= 0) by (nonlinear_arith);
}

/// Complementing a boolean grid and flipping the `invert` flag select the
/// same two classes, so the transform of the complemented grid with
/// `invert == false` equals the transform of the original grid with
/// `invert == true`, cell for cell.
pub proof fn lemma_inversion_symmetry(m: Seq<bool>, c: Seq<bool>, w: int, h: int, x: int, y: int)
    requires
        c.len() == m.len(),
        forall|i: int| 0 <= i < m.len() ==> c[i] == !m[i],
    ensures
        occ_of(c, false) == occ_of(m, true),
        edt_sq_cell(occ_of(c, false), w, h, x, y) == edt_sq_cell(occ_of(m, true), w, h, x, y),
{
    assert(occ_of(c, false) =~= occ_of(m, true));
}

/// Exact squared Euclidean distance transform.
///
/// Every cell of the returned buffer holds the squared distance to the
/// nearest opposite-class cell, where the array edge is treated as bordered
/// by opposite-class cells (clamped horizontally through the row pass and
/// vertically through the boundary parabolas `y*y` and `(h-y)*(h-y)`).
/// Cells of the opposite class themselves hold `0`.
///
/// Fails with [`ShapeMismatch`] when `shape.0 * shape.1` is not the buffer's
/// length; nothing is computed in that case.
pub fn edt_sq<T: BoolLike>(map: &Vec<T>, shape: (usize, usize), invert: bool) -> (r: Result<
    Vec<u64>,
    ShapeMismatch,
>)
    requires
        map@.len() <= MAX_CELLS,
    ensures
        r is Err <==> shape.0 * shape.1 != map@.len(),
        r matches Ok(v) ==> {
            &&& v@.len() == map@.len()
            &&& forall|x: int, y: int|
                0 <= x < shape.0 && 0 <= y < shape.1 ==> v@[y * shape.0 + x] == edt_sq_cell(
                    occ_of(map@, invert),
                    shape.0 as int,
                    shape.1 as int,
                    x,
                    y,
                )
        },
{
    if !shape_matches(map.len(), shape) {
        return Err(ShapeMismatch);
    }
    let ghost occ = occ_of(map@, invert);
    let (w, h) = shape;
    let len = map.len();
    let horz = horizontal_pass(map, w, h, invert);
    let mut ret: Vec<u64> = vec![0u64; len];
    let mut x: usize = 0;
    while x < w
        invariant
            x <= w,
            len == w * h <= MAX_CELLS,
            occ == occ_of(map@, invert),
            occ.len() == len,
            horz@.len() == len,
            ret@.len() == len,
            forall|x3: int, y3: int|
                0 <= x3 < w && 0 <= y3 < h ==> horz@[y3 * w + x3] == horz_dist(occ, w as int, y3, x3),
            forall|x3: int, y3: int|
                0 <= x3 < x && 0 <= y3 < h ==> ret@[y3 * w + x3] == #[trigger] edt_sq_cell(
                    occ,
                    w as int,
                    h as int,
                    x3,
                    y3,
                ),
        decreases w - x,
    {
        proof {
            assert(h <= len) by (nonlinear_arith)
                requires
                    len == w * h,
                    1 <= w,
                    0 <= h,
            ;
        }
        let mut y: usize = 0;
        while y < h
            invariant
                x < w,
                y <= h,
                h <= len,
                len == w * h <= MAX_CELLS,
                occ == occ_of(map@, invert),
                occ.len() == len,
                horz@.len() == len,
                ret@.len() == len,
                forall|x3: int, y3: int|
                    0 <= x3 < w && 0 <= y3 < h ==> horz@[y3 * w + x3] == horz_dist(
                        occ,
                        w as int,
                        y3,
                        x3,
                    ),
                forall|x3: int, y3: int|
                    0 <= x3 < x && 0 <= y3 < h ==> ret@[y3 * w + x3] == #[trigger] edt_sq_cell(
                        occ,
                        w as int,
                        h as int,
                        x3,
                        y3,
                    ),
                forall|y3: int|
                    0 <= y3 < y ==> ret@[y3 * w + x] == #[trigger] edt_sq_cell(
                        occ,
                        w as int,
                        h as int,
                        x as int,
                        y3,
                    ),
            decreases h - y,
        {
            // lower envelope over all rows
            proof {
                assert(w <= len) by (nonlinear_arith)
                    requires
                        len == w * h,
                        1 <= h,
                        0 <= w,
                ;
            }
            let mut best: u64 = 0;
            let mut y2: usize = 0;
            while y2 < h
                invariant
                    x < w,
                    y < h,
                    y2 <= h,
                    h <= len,
                    w <= len,
                    len == w * h <= MAX_CELLS,
                    occ.len() == len,
                    horz@.len() == len,
                    ret@.len() == len,
                    forall|x3: int, y3: int|
                        0 <= x3 < w && 0 <= y3 < h ==> horz@[y3 * w + x3] == horz_dist(
                            occ,
                            w as int,
                            y3,
                            x3,
                        ),
                    forall|x3: int, y3: int|
                        0 <= x3 < x && 0 <= y3 < h ==> ret@[y3 * w + x3] == #[trigger] edt_sq_cell(
                            occ,
                            w as int,
                            h as int,
                            x3,
                            y3,
                        ),
                    forall|y3: int|
                        0 <= y3 < y ==> ret@[y3 * w + x] == #[trigger] edt_sq_cell(
                            occ,
                            w as int,
                            h as int,
                            x as int,
                            y3,
                        ),
                    y2 >= 1 ==> best == vert_min(occ, w as int, x as int, y as int, y2 as int),
                    y2 >= 1 ==> best <= 0x2000_0000_0000_0000,
                decreases h - y2,
            {
                proof {
                    lemma_row_fits(w as int, h as int, y2 as int, len as int);
                    lemma_horz_bounds(occ, w as int, y2 as int, x as int);
                }
                let dy: u64 = if y2 >= y {
                    (y2 - y) as u64
                } else {
                    (y - y2) as u64
                };
                let hv: u64 = horz[x + y2 * w];
                proof {
                    assert(dy * dy <= 0x1000_0000_0000_0000 && hv * hv <= 0x1000_0000_0000_0000)
                        by (nonlinear_arith)
                        requires
                            0 <= dy <= 0x4000_0000,
                            0 <= hv <= 0x4000_0000,
                    ;
                    assert(dy * dy == (y2 - y) * (y2 - y)) by (nonlinear_arith)
                        requires
                            dy == y2 - y || dy == y - y2,
                    ;
                }
                let c: u64 = dy * dy + hv * hv;
                proof {
                    assert(c == vert_cand(occ, w as int, x as int, y as int, y2 as int));
                }
                if y2 == 0 {
                    best = c;
                } else if c < best {
                    best = c;
                }
                y2 += 1;
            }
            proof {
                lemma_row_fits(w as int, h as int, y as int, len as int);
                assert((y as u64) * (y as u64) <= 0x1000_0000_0000_0000 && (((h - y) as u64) * ((h
                    - y) as u64)) <= 0x1000_0000_0000_0000) by (nonlinear_arith)
                    requires
                        0 <= y <= 0x4000_0000,
                        0 <= h - y <= 0x4000_0000,
                ;
            }
            let a: u64 = (y as u64) * (y as u64);
            let b: u64 = ((h - y) as u64) * ((h - y) as u64);
            let clamp: u64 = if a < b {
                a
            } else {
                b
            };
            let v: u64 = if clamp < best {
                clamp
            } else {
                best
            };
            let idx = x + y * w;
            ret[idx] = v;
            proof {
                assert(v == edt_sq_cell(occ, w as int, h as int, x as int, y as int));
                assert forall|x3: int, y3: int|
                    0 <= x3 < x && 0 <= y3 < h implies ret@[y3 * w + x3] == #[trigger] edt_sq_cell(
                    occ,
                    w as int,
                    h as int,
                    x3,
                    y3,
                ) by {
                    assert(y3 * w + x3 != y * w + x && 0 <= y3 * w + x3 < len) by (nonlinear_arith)
                        requires
                            0 <= x3 < x,
                            x < w,
                            0 <= y3 < h,
                            0 <= y,
                            len == w * h,
                    ;
                }
                assert forall|y3: int| 0 <= y3 < y implies ret@[y3 * w + x] == #[trigger] edt_sq_cell(
                    occ,
                    w as int,
                    h as int,
                    x as int,
                    y3,
                ) by {
                    assert(y3 * w + x != y * w + x && 0 <= y3 * w + x < len) by (nonlinear_arith)
                        requires
                            0 <= x < w,
                            0 <= y3 < y,
                            y < h,
                            len == w * h,
                    ;
                }
            }
            y += 1;
        }
        x += 1;
    }
    Ok(ret)
}

} // verus!
