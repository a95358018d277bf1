//! Exact squared Euclidean distance transform that also reports, for every
//! cell, the offset to the cell's nearest opposite-class source.
//!
//! The passes are the same as in [`crate::exact_edt`]; each relaxation
//! additionally carries the signed offset of the source that produced the
//! improving value. An offset may point one cell past the edge of the grid
//! when the virtual boundary source wins.

use crate::exact_edt::edt_sq_cell;
use crate::exact_edt::horz_dist;
use crate::exact_edt::imin;
use crate::exact_edt::left_dist;
use crate::exact_edt::lemma_horz_bounds;
use crate::exact_edt::lemma_horz_from_sweeps;
use crate::exact_edt::lemma_left_dist_props;
use crate::exact_edt::lemma_right_dist_props;
use crate::exact_edt::lemma_row_fits;
use crate::exact_edt::occ_of;
use crate::exact_edt::right_dist;
use crate::exact_edt::shape_matches;
use crate::exact_edt::vert_cand;
use crate::exact_edt::vert_min;
use crate::exact_edt::ShapeMismatch;
use crate::exact_edt::MAX_CELLS;
use crate::BoolLike;
use vstd::prelude::*;

verus! {

/// A squared distance together with the relative position `[x, y]` of the
/// source cell it was measured to.
#[derive(Clone, Copy, Debug, PartialEq)]
pub struct Pixel {
    pub val: u64,
    pub relpos: [i32; 2],
}

impl PartialOrd for Pixel {
    fn partial_cmp(&self, other: &Pixel) -> (r: Option<core::cmp::Ordering>) {
        if self.val < other.val {
            Some(core::cmp::Ordering::Less)
        } else if self.val == other.val {
            Some(core::cmp::Ordering::Equal)
        } else {
            Some(core::cmp::Ordering::Greater)
        }
    }
}

impl vstd::std_specs::cmp::PartialOrdSpecImpl for Pixel {
    open spec fn obeys_partial_cmp_spec() -> bool {
        true
    }

    open spec fn partial_cmp_spec(&self, other: &Pixel) -> Option<core::cmp::Ordering> {
        if self.val < other.val {
            Some(core::cmp::Ordering::Less)
        } else if self.val == other.val {
            Some(core::cmp::Ordering::Equal)
        } else {
            Some(core::cmp::Ordering::Greater)
        }
    }
}

/// Horizontal offset recorded by the left-to-right sweep: minus the sweep's
/// distance where the sweep improved the cell, `0` where it never wrote.
pub open spec fn left_rx(occ: Seq<bool>, w: int, y: int, x: int) -> int
    decreases x + 1,
{
    if x < 0 {
        0
    } else if !occ[y * w + x] {
        0
    } else if left_dist(occ, w, y, x) < occ.len() {
        left_rx(occ, w, y, x - 1) - 1
    } else {
        0
    }
}

/// Horizontal offset after both sweeps.
pub open spec fn horz_rx(occ: Seq<bool>, w: int, y: int, x: int) -> int
    decreases w - x,
{
    if x >= w {
        0
    } else if right_dist(occ, w, y, x) < left_dist(occ, w, y, x) {
        horz_rx(occ, w, y, x + 1) + 1
    } else {
        left_rx(occ, w, y, x)
    }
}

/// An untouched cell of the working buffer: sentinel or zero value, no offset.
pub open spec fn is_init_pixel(p: Pixel, o: bool, len: int) -> bool {
    &&& p.val == (if o {
        len
    } else {
        0
    })
    &&& p.relpos[0] == 0
    &&& p.relpos[1] == 0
}

proof fn lemma_left_rx_abs(occ: Seq<bool>, w: int, y: int, x: int)
    requires
        0 <= y,
        0 <= x < w,
    ensures
        left_rx(occ, w, y, x) == -left_dist(occ, w, y, x) || (left_rx(occ, w, y, x) == 0
            && left_dist(occ, w, y, x) >= occ.len()),
    decreases x,
{
    if occ[y * w + x] && left_dist(occ, w, y, x) < occ.len() {
        if x > 0 {
            lemma_left_rx_abs(occ, w, y, x - 1);
            lemma_left_dist_props(occ, w, y, x - 1);
        } else {
            assert(left_rx(occ, w, y, -1) == 0);
            assert(left_dist(occ, w, y, -1) == 0);
        }
    }
}

proof fn lemma_horz_rx_abs(occ: Seq<bool>, w: int, y: int, x: int)
    requires
        0 <= y,
        0 <= x < w,
    ensures
        right_dist(occ, w, y, x) < left_dist(occ, w, y, x) ==> horz_rx(occ, w, y, x) == right_dist(
            occ,
            w,
            y,
            x,
        ),
        horz_rx(occ, w, y, x) * horz_rx(occ, w, y, x) == imin(
            left_dist(occ, w, y, x),
            right_dist(occ, w, y, x),
        ) * imin(left_dist(occ, w, y, x), right_dist(occ, w, y, x)) || (horz_rx(occ, w, y, x) == 0
            && imin(left_dist(occ, w, y, x), right_dist(occ, w, y, x)) >= occ.len()),
    decreases w - x,
{
    let l = left_dist(occ, w, y, x);
    let r = right_dist(occ, w, y, x);
    let f = imin(l, r);
    lemma_left_dist_props(occ, w, y, x);
    lemma_right_dist_props(occ, w, y, x);
    if r < l {
        // the cell is in class (else r == 0 == l is impossible with r < l)
        if !occ[y * w + x] {
            assert(left_dist(occ, w, y, x) == 0);
            assert(right_dist(occ, w, y, x) == 0);
            assert(false);
        }
        assert(right_dist(occ, w, y, x) == right_dist(occ, w, y, x + 1) + 1);
        if x + 1 < w {
            lemma_horz_rx_abs(occ, w, y, x + 1);
            lemma_right_dist_props(occ, w, y, x + 1);
            lemma_left_dist_props(occ, w, y, x + 1);
            if occ[y * w + (x + 1)] {
                assert(left_dist(occ, w, y, x + 1) == l + 1);
                assert(right_dist(occ, w, y, x + 1) < left_dist(occ, w, y, x + 1));
                assert(horz_rx(occ, w, y, x + 1) == right_dist(occ, w, y, x + 1));
            } else {
                assert(right_dist(occ, w, y, x + 1) == 0);
                assert(left_dist(occ, w, y, x + 1) == 0);
                assert(horz_rx(occ, w, y, x + 1) == left_rx(occ, w, y, x + 1));
                assert(left_rx(occ, w, y, x + 1) == 0);
            }
            assert(horz_rx(occ, w, y, x + 1) == right_dist(occ, w, y, x + 1));
            assert(horz_rx(occ, w, y, x) == r);
        } else {
            assert(right_dist(occ, w, y, w) == 0);
            assert(r == 1);
            assert(horz_rx(occ, w, y, x) == horz_rx(occ, w, y, w) + 1 == 1);
        }
        assert(f == r);
        assert(horz_rx(occ, w, y, x) * horz_rx(occ, w, y, x) == f * f);
    } else {
        lemma_left_rx_abs(occ, w, y, x);
        assert(horz_rx(occ, w, y, x) == left_rx(occ, w, y, x));
        if left_rx(occ, w, y, x) == -l {
            assert(f == l);
            assert(horz_rx(occ, w, y, x) == -f);
            assert((-f) * (-f) == f * f) by (nonlinear_arith);
        } else {
            assert(l >= occ.len());
            assert(f >= occ.len() || (f == r && r < l));
        }
    }
}

proof fn lemma_right_step(occ: Seq<bool>, w: int, y: int, x: int)
    requires
        0 <= y,
        0 <= x < w,
    ensures
        ((if x + 1 < w {
            imin(left_dist(occ, w, y, x + 1), right_dist(occ, w, y, x + 1))
        } else {
            0
        }) + 1 < left_dist(occ, w, y, x)) == (right_dist(occ, w, y, x) < left_dist(occ, w, y, x)),
        right_dist(occ, w, y, x) < left_dist(occ, w, y, x) ==> (if x + 1 < w {
            imin(left_dist(occ, w, y, x + 1), right_dist(occ, w, y, x + 1))
        } else {
            0
        }) + 1 == right_dist(occ, w, y, x),
{
    lemma_left_dist_props(occ, w, y, x);
    lemma_right_dist_props(occ, w, y, x);
    if x + 1 < w {
        lemma_left_dist_props(occ, w, y, x + 1);
        lemma_right_dist_props(occ, w, y, x + 1);
    }
    if !occ[y * w + x] {
        assert(left_dist(occ, w, y, x) == 0);
        assert(right_dist(occ, w, y, x) == 0);
    } else {
        assert(right_dist(occ, w, y, x) == right_dist(occ, w, y, x + 1) + 1);
        if x + 1 < w {
            if occ[y * w + (x + 1)] {
                assert(left_dist(occ, w, y, x + 1) == left_dist(occ, w, y, x) + 1);
            } else {
                assert(left_dist(occ, w, y, x + 1) == 0);
                assert(right_dist(occ, w, y, x + 1) == 0);
            }
        } else {
            assert(right_dist(occ, w, y, w) == 0);
        }
    }
}

/// Candidate of row `y2` for cell `(x, y)`: squared value, horizontal offset,
/// vertical offset.
pub open spec fn pixel_cand(occ: Seq<bool>, w: int, x: int, y: int, y2: int) -> (int, int, int) {
    (vert_cand(occ, w, x, y, y2), horz_rx(occ, w, y2, x), y - y2)
}

/// The winning candidate among rows `0 .. k`; ties keep the later row.
pub open spec fn pixel_min(occ: Seq<bool>, w: int, x: int, y: int, k: int) -> (int, int, int)
    decreases k,
{
    if k <= 1 {
        pixel_cand(occ, w, x, y, 0)
    } else {
        let acc = pixel_min(occ, w, x, y, k - 1);
        let c = pixel_cand(occ, w, x, y, k - 1);
        if acc.0 < c.0 {
            acc
        } else {
            c
        }
    }
}

/// The record the provenance transform assigns to cell `(x, y)`: the winning
/// row candidate unless one of the two virtual boundary sources is strictly
/// closer.
pub open spec fn edt_sq_pixel(occ: Seq<bool>, w: int, h: int, x: int, y: int) -> (int, int, int) {
    let vm = pixel_min(occ, w, x, y, h);
    if y * y < vm.0 {
        (y * y, 0, -y)
    } else if (h - y) * (h - y) < vm.0 {
        ((h - y) * (h - y), 0, h - y)
    } else {
        vm
    }
}

proof fn lemma_pixel_min_val(occ: Seq<bool>, w: int, x: int, y: int, k: int)
    requires
        1 <= k,
    ensures
        pixel_min(occ, w, x, y, k).0 == vert_min(occ, w, x, y, k),
    decreases k,
{
    if k > 1 {
        lemma_pixel_min_val(occ, w, x, y, k - 1);
    }
}

proof fn lemma_pixel_min_is_cand(occ: Seq<bool>, w: int, x: int, y: int, k: int)
    requires
        1 <= k,
    ensures
        exists|y2: int| 0 <= y2 < k && pixel_min(occ, w, x, y, k) == #[trigger] pixel_cand(occ, w, x, y, y2),
    decreases k,
{
    if k == 1 {
        assert(pixel_min(occ, w, x, y, k) == pixel_cand(occ, w, x, y, 0));
    } else {
        lemma_pixel_min_is_cand(occ, w, x, y, k - 1);
        if !(pixel_min(occ, w, x, y, k - 1).0 < pixel_cand(occ, w, x, y, k - 1).0) {
            assert(pixel_min(occ, w, x, y, k) == pixel_cand(occ, w, x, y, k - 1));
        }
    }
}

/// For every cell of the provenance transform, the value equals the squared
/// norm of the recorded offset. The value also equals the scalar transform's
/// squared distance except in one narrow case: the provenance pass tests the
/// top boundary parabola first, so when the top parabola beats every row
/// candidate it wins even where the bottom parabola would be closer still.
pub proof fn lemma_provenance_consistency(occ: Seq<bool>, w: int, h: int, x: int, y: int)
    requires
        0 <= x < w,
        0 <= y < h,
        occ.len() == w * h,
    ensures
        edt_sq_pixel(occ, w, h, x, y).0 == edt_sq_pixel(occ, w, h, x, y).1 * edt_sq_pixel(
            occ,
            w,
            h,
            x,
            y,
        ).1 + edt_sq_pixel(occ, w, h, x, y).2 * edt_sq_pixel(occ, w, h, x, y).2,
        edt_sq_pixel(occ, w, h, x, y).0 >= edt_sq_cell(occ, w, h, x, y),
        y * y >= vert_min(occ, w, x, y, h) || y * y <= (h - y) * (h - y) ==> edt_sq_pixel(
            occ,
            w,
            h,
            x,
            y,
        ).0 == edt_sq_cell(occ, w, h, x, y),
{
    lemma_pixel_min_val(occ, w, x, y, h);
    lemma_pixel_min_is_cand(occ, w, x, y, h);
    crate::exact_edt::lemma_vert_min_props(occ, w, x, y, h);
    let vm = pixel_min(occ, w, x, y, h);
    let yy = y * y;
    let hy = (h - y) * (h - y);
    assert(y * y >= 0 && (h - y) * (h - y) >= 0) by (nonlinear_arith);
    if yy < vm.0 {
        assert(edt_sq_pixel(occ, w, h, x, y) == (yy, 0int, -y));
        assert(y * y == 0 * 0 + (-y) * (-y)) by (nonlinear_arith);
    } else if hy < vm.0 {
        assert(edt_sq_pixel(occ, w, h, x, y) == (hy, 0int, h - y));
        assert((h - y) * (h - y) == 0 * 0 + (h - y) * (h - y)) by (nonlinear_arith);
    } else {
        let y2 = choose|y2: int|
            0 <= y2 < h && pixel_min(occ, w, x, y, h) == #[trigger] pixel_cand(occ, w, x, y, y2);
        lemma_horz_rx_abs(occ, w, y2, x);
        lemma_horz_from_sweeps(occ, w, y2, x);
        lemma_horz_bounds(occ, w, y2, x);
        let hd = horz_dist(occ, w, y2, x);
        let rx = horz_rx(occ, w, y2, x);
        if rx * rx == hd * hd {
            assert(vm.0 == (y2 - y) * (y2 - y) + hd * hd);
            assert(vm.2 == y - y2);
            assert((y - y2) * (y - y2) == (y2 - y) * (y2 - y)) by (nonlinear_arith);
        } else {
            // the sweeps never wrote: hd >= w * h, impossible under the clamp
            assert(rx == 0 && imin(left_dist(occ, w, y2, x), right_dist(occ, w, y2, x)) >= occ.len());
            assert(hd >= w * h);
            assert(hd <= w);
            assert(w >= w * h && h >= 1) by (nonlinear_arith)
                requires
                    hd >= w * h,
                    hd <= w,
                    0 <= y < h,
            ;
            assert(h == 1) by (nonlinear_arith)
                requires
                    w >= w * h,
                    h >= 1,
                    1 <= w,
            ;
            assert(y == 0 && yy == 0);
            assert(vm.0 <= yy);
            assert(vm.0 >= (y2 - y) * (y2 - y) + hd * hd);
            assert((y2 - y) * (y2 - y) >= 0) by (nonlinear_arith);
            assert(hd * hd >= 1) by (nonlinear_arith)
                requires
                    hd >= 1,
            ;
            assert(false);
        }
    }
}

/// Complementing a boolean grid and flipping the `invert` flag select the
/// same two classes, so the provenance transform of the complemented grid
/// with `invert == false` equals that of the original grid with
/// `invert == true`, cell for cell.
pub proof fn lemma_inversion_symmetry_relpos(
    m: Seq<bool>,
    c: Seq<bool>,
    w: int,
    h: int,
    x: int,
    y: int,
)
    requires
        c.len() == m.len(),
        forall|i: int| 0 <= i < m.len() ==> c[i] == !m[i],
    ensures
        edt_sq_pixel(occ_of(c, false), w, h, x, y) == edt_sq_pixel(occ_of(m, true), w, h, x, y),
{
    assert(occ_of(c, false) =~= occ_of(m, true));
}

/// Both sweeps over one row, carrying the accumulated horizontal offset of
/// the improving source alongside each distance.
#[verifier::rlimit(100)]
fn horizontal_pass<T: BoolLike>(map: &Vec<T>, w: usize, h: usize, invert: bool) -> (r: Vec<Pixel>)
    requires
        w * h == map@.len(),
        map@.len() <= MAX_CELLS,
    ensures
        r@.len() == map@.len(),
        forall|x: int, y: int|
            #![trigger horz_dist(occ_of(map@, invert), w as int, y, x)]
            #![trigger horz_rx(occ_of(map@, invert), w as int, y, x)]
            0 <= x < w && 0 <= y < h ==> {
                &&& r@[y * w + x].val == horz_dist(occ_of(map@, invert), w as int, y, x)
                &&& r@[y * w + x].relpos[0] == horz_rx(occ_of(map@, invert), w as int, y, x)
                &&& r@[y * w + x].relpos[1] == 0
            },
{
    let ghost occ = occ_of(map@, invert);
    let len = map.len();
    let sentinel = len as u64;
    let mut horz: Vec<Pixel> = Vec::new();
    let mut i: usize = 0;
    while i < len
        invariant
            i <= len,
            horz@.len() == i,
            occ == occ_of(map@, invert),
            len == map@.len(),
            sentinel == len,
            forall|j: int| 0 <= j < i ==> is_init_pixel(#[trigger] horz@[j], occ[j], len as int),
        decreases len - i,
    {
        let o = map[i].as_bool() != invert;
        if o {
            horz.push(Pixel { val: sentinel, relpos: [0, 0] });
        } else {
            horz.push(Pixel { val: 0, relpos: [0, 0] });
        }
        i += 1;
    }
    let mut y: usize = 0;
    while y < h
        invariant
            y <= h,
            horz@.len() == len,
            occ == occ_of(map@, invert),
            occ.len() == len,
            len == map@.len() <= MAX_CELLS,
            sentinel == len,
            len == w * h,
            forall|x2: int, y2: int|
                #![trigger horz_dist(occ, w as int, y2, x2)]
                #![trigger horz_rx(occ, w as int, y2, x2)]
                0 <= x2 < w && 0 <= y2 < y ==> {
                    &&& horz@[y2 * w + x2].val == horz_dist(occ, w as int, y2, x2)
                    &&& horz@[y2 * w + x2].relpos[0] == horz_rx(occ, w as int, y2, x2)
                    &&& horz@[y2 * w + x2].relpos[1] == 0
                },
            forall|i2: int|
                y * w <= i2 < len ==> is_init_pixel(#[trigger] horz@[i2], occ[i2], len as int),
        decreases h - y,
    {
        proof {
            lemma_row_fits(w as int, h as int, y as int, len as int);
            assert(w <= len) by (nonlinear_arith)
                requires
                    len == w * h,
                    0 <= w,
                    1 <= h,
            ;
        }
        let base = y * w;
        // left-to-right sweep
        let mut min_p = Pixel { val: 0, relpos: [0, 0] };
        let mut x: usize = 0;
        while x < w
            invariant
                x <= w,
                y < h,
                base == y * w,
                base + w <= len,
                w <= len,
                horz@.len() == len,
                occ.len() == len,
                len == w * h <= MAX_CELLS,
                sentinel == len,
                min_p.val == (if x == 0 {
                    0
                } else {
                    left_dist(occ, w as int, y as int, x - 1)
                }),
                min_p.relpos[0] == (if x == 0 {
                    0
                } else {
                    left_rx(occ, w as int, y as int, x - 1)
                }),
                min_p.relpos[1] == 0,
                min_p.val <= x,
                forall|x2: int|
                    #![trigger left_dist(occ, w as int, y as int, x2)]
                    #![trigger left_rx(occ, w as int, y as int, x2)]
                    0 <= x2 < x ==> {
                        &&& horz@[y * w + x2].val == left_dist(occ, w as int, y as int, x2)
                        &&& horz@[y * w + x2].relpos[0] == left_rx(occ, w as int, y as int, x2)
                        &&& horz@[y * w + x2].relpos[1] == 0
                    },
                forall|x2: int, y2: int|
                    #![trigger horz_dist(occ, w as int, y2, x2)]
                    #![trigger horz_rx(occ, w as int, y2, x2)]
                    0 <= x2 < w && 0 <= y2 < y ==> {
                        &&& horz@[y2 * w + x2].val == horz_dist(occ, w as int, y2, x2)
                        &&& horz@[y2 * w + x2].relpos[0] == horz_rx(occ, w as int, y2, x2)
                        &&& horz@[y2 * w + x2].relpos[1] == 0
                    },
                forall|i2: int|
                    y * w + x <= i2 < len ==> is_init_pixel(#[trigger] horz@[i2], occ[i2], len as int),
            decreases w - x,
        {
            proof {
                lemma_left_dist_props(occ, w as int, y as int, x as int);
                if x > 0 {
                    lemma_left_dist_props(occ, w as int, y as int, x - 1);
                    lemma_left_rx_abs(occ, w as int, y as int, x - 1);
                } else {
                    assert(left_dist(occ, w as int, y as int, -1) == 0);
                    assert(left_rx(occ, w as int, y as int, -1) == 0);
                }
            }
            let idx = base + x;
            proof {
                assert(horz@[y * w + x].val == (if occ[y * w + x] {
                    len as int
                } else {
                    0
                }));
                assert(horz@[y * w + x].relpos[0] == 0);
                assert(horz@[y * w + x].relpos[1] == 0);
            }
            let p = horz[idx];
            let next = min_p.val + 1;
            if next < p.val {
                let np = Pixel { val: next, relpos: [min_p.relpos[0] - 1, 0] };
                horz[idx] = np;
                min_p = np;
            } else {
                min_p = p;
            }
            proof {
                assert(min_p.val == left_dist(occ, w as int, y as int, x as int));
                assert(min_p.relpos[0] == left_rx(occ, w as int, y as int, x as int));
                assert forall|x2: int|
                    #![trigger left_dist(occ, w as int, y as int, x2)]
                    #![trigger left_rx(occ, w as int, y as int, x2)]
                    0 <= x2 < x + 1 implies {
                    &&& horz@[y * w + x2].val == left_dist(occ, w as int, y as int, x2)
                    &&& horz@[y * w + x2].relpos[0] == left_rx(occ, w as int, y as int, x2)
                    &&& horz@[y * w + x2].relpos[1] == 0
                } by {
                    if x2 == x {
                        assert(horz@[y * w + x2].val == left_dist(occ, w as int, y as int, x2));
                        assert(horz@[y * w + x2].relpos[0] == left_rx(occ, w as int, y as int, x2));
                        assert(horz@[y * w + x2].relpos[1] == 0);
                    } else {
                        assert(horz@[y * w + x2].val == left_dist(occ, w as int, y as int, x2));
                        assert(horz@[y * w + x2].relpos[0] == left_rx(occ, w as int, y as int, x2));
                        assert(horz@[y * w + x2].relpos[1] == 0);
                    }
                }
                assert forall|x2: int, y2: int|
                    #![trigger horz_dist(occ, w as int, y2, x2)]
                    #![trigger horz_rx(occ, w as int, y2, x2)]
                    0 <= x2 < w && 0 <= y2 < y implies {
                    &&& horz@[y2 * w + x2].val == horz_dist(occ, w as int, y2, x2)
                    &&& horz@[y2 * w + x2].relpos[0] == horz_rx(occ, w as int, y2, x2)
                    &&& horz@[y2 * w + x2].relpos[1] == 0
                } by {
                    assert(0 <= y2 * w + x2 < y * w) by (nonlinear_arith)
                        requires
                            0 <= x2 < w,
                            0 <= y2 < y,
                    ;
                    assert(horz@[y2 * w + x2].val == horz_dist(occ, w as int, y2, x2));
                    assert(horz@[y2 * w + x2].relpos[0] == horz_rx(occ, w as int, y2, x2));
                    assert(horz@[y2 * w + x2].relpos[1] == 0);
                }
                assert forall|i2: int| y * w + x + 1 <= i2 < len implies is_init_pixel(
                    #[trigger] horz@[i2],
                    occ[i2],
                    len as int,
                ) by {
                    assert(i2 != y * w + x);
                }
            }
            x += 1;
        }
        // right-to-left sweep
        min_p = Pixel { val: 0, relpos: [0, 0] };
        let mut xr: usize = w;
        while xr > 0
            invariant
                xr <= w,
                y < h,
                base == y * w,
                base + w <= len,
                w <= len,
                horz@.len() == len,
                occ.len() == len,
                len == w * h <= MAX_CELLS,
                sentinel == len,
                min_p.val == (if xr == w {
                    0
                } else {
                    imin(
                        left_dist(occ, w as int, y as int, xr as int),
                        right_dist(occ, w as int, y as int, xr as int),
                    )
                }),
                min_p.relpos[0] == (if xr == w {
                    0
                } else {
                    horz_rx(occ, w as int, y as int, xr as int)
                }),
                min_p.relpos[1] == 0,
                min_p.val <= w,
                forall|x2: int|
                    #![trigger left_dist(occ, w as int, y as int, x2)]
                    #![trigger left_rx(occ, w as int, y as int, x2)]
                    0 <= x2 < xr ==> {
                        &&& horz@[y * w + x2].val == left_dist(occ, w as int, y as int, x2)
                        &&& horz@[y * w + x2].relpos[0] == left_rx(occ, w as int, y as int, x2)
                        &&& horz@[y * w + x2].relpos[1] == 0
                    },
                forall|x2: int|
                    #![trigger left_dist(occ, w as int, y as int, x2)]
                    #![trigger horz_rx(occ, w as int, y as int, x2)]
                    xr <= x2 < w ==> {
                        &&& horz@[y * w + x2].val == imin(
                            left_dist(occ, w as int, y as int, x2),
                            right_dist(occ, w as int, y as int, x2),
                        )
                        &&& horz@[y * w + x2].relpos[0] == horz_rx(occ, w as int, y as int, x2)
                        &&& horz@[y * w + x2].relpos[1] == 0
                    },
                forall|x2: int, y2: int|
                    #![trigger horz_dist(occ, w as int, y2, x2)]
                    #![trigger horz_rx(occ, w as int, y2, x2)]
                    0 <= x2 < w && 0 <= y2 < y ==> {
                        &&& horz@[y2 * w + x2].val == horz_dist(occ, w as int, y2, x2)
                        &&& horz@[y2 * w + x2].relpos[0] == horz_rx(occ, w as int, y2, x2)
                        &&& horz@[y2 * w + x2].relpos[1] == 0
                    },
                forall|i2: int|
                    y * w + w <= i2 < len ==> is_init_pixel(#[trigger] horz@[i2], occ[i2], len as int),
            decreases xr,
        {
            let x = xr - 1;
            proof {
                lemma_left_dist_props(occ, w as int, y as int, x as int);
                lemma_right_dist_props(occ, w as int, y as int, x as int);
                lemma_left_rx_abs(occ, w as int, y as int, x as int);
                lemma_horz_rx_abs(occ, w as int, y as int, x as int);
                lemma_right_step(occ, w as int, y as int, x as int);
                if x + 1 < w {
                    lemma_left_dist_props(occ, w as int, y as int, x + 1);
                    lemma_right_dist_props(occ, w as int, y as int, x + 1);
                } else {
                    assert(right_dist(occ, w as int, y as int, w as int) == 0);
                    assert(horz_rx(occ, w as int, y as int, w as int) == 0);
                }
            }
            let idx = base + x;
            proof {
                assert(horz@[y * w + x].val == left_dist(occ, w as int, y as int, x as int));
                assert(horz@[y * w + x].relpos[0] == left_rx(occ, w as int, y as int, x as int));
                assert(horz@[y * w + x].relpos[1] == 0);
            }
            let p = horz[idx];
            let next = min_p.val + 1;
            if next < p.val {
                let np = Pixel { val: next, relpos: [min_p.relpos[0] + 1, 0] };
                horz[idx] = np;
                min_p = np;
            } else {
                min_p = p;
            }
            proof {
                assert(min_p.val == imin(
                    left_dist(occ, w as int, y as int, x as int),
                    right_dist(occ, w as int, y as int, x as int),
                ));
                assert(min_p.relpos[0] == horz_rx(occ, w as int, y as int, x as int));
                assert forall|x2: int|
                    #![trigger left_dist(occ, w as int, y as int, x2)]
                    #![trigger horz_rx(occ, w as int, y as int, x2)]
                    x <= x2 < w implies {
                    &&& horz@[y * w + x2].val == imin(
                        left_dist(occ, w as int, y as int, x2),
                        right_dist(occ, w as int, y as int, x2),
                    )
                    &&& horz@[y * w + x2].relpos[0] == horz_rx(occ, w as int, y as int, x2)
                    &&& horz@[y * w + x2].relpos[1] == 0
                } by {
                    assert(horz@[y * w + x2].val == imin(
                        left_dist(occ, w as int, y as int, x2),
                        right_dist(occ, w as int, y as int, x2),
                    ));
                    assert(horz@[y * w + x2].relpos[0] == horz_rx(occ, w as int, y as int, x2));
                    assert(horz@[y * w + x2].relpos[1] == 0);
                }
                assert forall|x2: int, y2: int|
                    #![trigger horz_dist(occ, w as int, y2, x2)]
                    #![trigger horz_rx(occ, w as int, y2, x2)]
                    0 <= x2 < w && 0 <= y2 < y implies {
                    &&& horz@[y2 * w + x2].val == horz_dist(occ, w as int, y2, x2)
                    &&& horz@[y2 * w + x2].relpos[0] == horz_rx(occ, w as int, y2, x2)
                    &&& horz@[y2 * w + x2].relpos[1] == 0
                } by {
                    assert(0 <= y2 * w + x2 < y * w) by (nonlinear_arith)
                        requires
                            0 <= x2 < w,
                            0 <= y2 < y,
                    ;
                    assert(horz@[y2 * w + x2].val == horz_dist(occ, w as int, y2, x2));
                    assert(horz@[y2 * w + x2].relpos[0] == horz_rx(occ, w as int, y2, x2));
                    assert(horz@[y2 * w + x2].relpos[1] == 0);
                }
                assert forall|i2: int| y * w + w <= i2 < len implies is_init_pixel(
                    #[trigger] horz@[i2],
                    occ[i2],
                    len as int,
                ) by {
                    assert(i2 != y * w + x);
                }
            }
            xr = x;
        }
        proof {
            assert forall|x2: int, y2: int|
                #![trigger horz_dist(occ, w as int, y2, x2)]
                #![trigger horz_rx(occ, w as int, y2, x2)]
                0 <= x2 < w && y2 == y implies {
                &&& horz@[y2 * w + x2].val == horz_dist(occ, w as int, y2, x2)
                &&& horz@[y2 * w + x2].relpos[0] == horz_rx(occ, w as int, y2, x2)
                &&& horz@[y2 * w + x2].relpos[1] == 0
            } by {
                lemma_horz_from_sweeps(occ, w as int, y as int, x2);
                assert(horz@[y * w + x2].val == horz_dist(occ, w as int, y as int, x2));
                assert(horz@[y * w + x2].relpos[0] == horz_rx(occ, w as int, y as int, x2));
                assert(horz@[y * w + x2].relpos[1] == 0);
            }
            assert((y + 1) * w == y * w + w) by (nonlinear_arith);
        }
        y += 1;
    }
    horz
}








/// Squared exact transform with source offsets.
///
/// Every cell holds the squared distance of the winning row candidate (or of
/// a virtual boundary source, tested top first), together with the signed
/// offset `[x, y]` of that source. The value always equals the squared norm
/// of the offset; see [`lemma_provenance_consistency`].
///
/// Fails with [`ShapeMismatch`] when `shape.0 * shape.1` is not the buffer's
/// length; nothing is computed in that case.
pub fn edt_sq<T: BoolLike>(map: &Vec<T>, shape: (usize, usize), invert: bool) -> (r: Result<
    Vec<Pixel>,
    ShapeMismatch,
>)
    requires
        map@.len() <= MAX_CELLS,
    ensures
        r is Err <==> shape.0 * shape.1 != map@.len(),
        r matches Ok(v) ==> {
            &&& v@.len() == map@.len()
            &&& forall|x: int, y: int|
                #![trigger edt_sq_pixel(occ_of(map@, invert), shape.0 as int, shape.1 as int, x, y)]
                0 <= x < shape.0 && 0 <= y < shape.1 ==> {
                    &&& v@[y * shape.0 + x].val == edt_sq_pixel(
                        occ_of(map@, invert),
                        shape.0 as int,
                        shape.1 as int,
                        x,
                        y,
                    ).0
                    &&& v@[y * shape.0 + x].relpos[0] == edt_sq_pixel(
                        occ_of(map@, invert),
                        shape.0 as int,
                        shape.1 as int,
                        x,
                        y,
                    ).1
                    &&& v@[y * shape.0 + x].relpos[1] == edt_sq_pixel(
                        occ_of(map@, invert),
                        shape.0 as int,
                        shape.1 as int,
                        x,
                        y,
                    ).2
                }
        },
{
    if !shape_matches(map.len(), shape) {
        return Err(ShapeMismatch);
    }
    let ghost occ = occ_of(map@, invert);
    let (w, h) = shape;
    let len = map.len();
    let horz = horizontal_pass(map, w, h, invert);
    let mut ret: Vec<Pixel> = Vec::new();
    let mut i: usize = 0;
    while i < len
        invariant
            i <= len,
            ret@.len() == i,
        decreases len - i,
    {
        ret.push(Pixel { val: 0, relpos: [0, 0] });
        i += 1;
    }
    let mut x: usize = 0;
    while x < w
        invariant
            x <= w,
            len == w * h <= MAX_CELLS,
            occ == occ_of(map@, invert),
            occ.len() == len,
            horz@.len() == len,
            ret@.len() == len,
            forall|x3: int, y3: int|
                #![trigger horz_dist(occ, w as int, y3, x3)]
                #![trigger horz_rx(occ, w as int, y3, x3)]
                0 <= x3 < w && 0 <= y3 < h ==> {
                    &&& horz@[y3 * w + x3].val == horz_dist(occ, w as int, y3, x3)
                    &&& horz@[y3 * w + x3].relpos[0] == horz_rx(occ, w as int, y3, x3)
                    &&& horz@[y3 * w + x3].relpos[1] == 0
                },
            forall|x3: int, y3: int|
                #![trigger edt_sq_pixel(occ, w as int, h as int, x3, y3)]
                0 <= x3 < x && 0 <= y3 < h ==> {
                    &&& ret@[y3 * w + x3].val == edt_sq_pixel(occ, w as int, h as int, x3, y3).0
                    &&& ret@[y3 * w + x3].relpos[0] == edt_sq_pixel(occ, w as int, h as int, x3, y3).1
                    &&& ret@[y3 * w + x3].relpos[1] == edt_sq_pixel(occ, w as int, h as int, x3, y3).2
                },
        decreases w - x,
    {
        proof {
            assert(h <= len) by (nonlinear_arith)
                requires
                    len == w * h,
                    1 <= w,
                    0 <= h,
            ;
        }
        let mut y: usize = 0;
        while y < h
            invariant
                x < w,
                y <= h,
                h <= len,
                len == w * h <= MAX_CELLS,
                occ == occ_of(map@, invert),
                occ.len() == len,
                horz@.len() == len,
                ret@.len() == len,
                forall|x3: int, y3: int|
                    #![trigger horz_dist(occ, w as int, y3, x3)]
                    #![trigger horz_rx(occ, w as int, y3, x3)]
                    0 <= x3 < w && 0 <= y3 < h ==> {
                        &&& horz@[y3 * w + x3].val == horz_dist(occ, w as int, y3, x3)
                        &&& horz@[y3 * w + x3].relpos[0] == horz_rx(occ, w as int, y3, x3)
                        &&& horz@[y3 * w + x3].relpos[1] == 0
                    },
                forall|x3: int, y3: int|
                    #![trigger edt_sq_pixel(occ, w as int, h as int, x3, y3)]
                    0 <= x3 < x && 0 <= y3 < h ==> {
                        &&& ret@[y3 * w + x3].val == edt_sq_pixel(occ, w as int, h as int, x3, y3).0
                        &&& ret@[y3 * w + x3].relpos[0] == edt_sq_pixel(occ, w as int, h as int, x3, y3).1
                        &&& ret@[y3 * w + x3].relpos[1] == edt_sq_pixel(occ, w as int, h as int, x3, y3).2
                    },
                forall|y3: int|
                    #![trigger edt_sq_pixel(occ, w as int, h as int, x as int, y3)]
                    0 <= y3 < y ==> {
                        &&& ret@[y3 * w + x].val == edt_sq_pixel(occ, w as int, h as int, x as int, y3).0
                        &&& ret@[y3 * w + x].relpos[0] == edt_sq_pixel(occ, w as int, h as int, x as int, y3).1
                        &&& ret@[y3 * w + x].relpos[1] == edt_sq_pixel(occ, w as int, h as int, x as int, y3).2
                    },
            decreases h - y,
        {
            proof {
                assert(w <= len) by (nonlinear_arith)
                    requires
                        len == w * h,
                        1 <= h,
                        0 <= w,
                ;
            }
            let mut best = Pixel { val: 0, relpos: [0, 0] };
            let mut y2: usize = 0;
            while y2 < h
                invariant
                    x < w,
                    y < h,
                    y2 <= h,
                    h <= len,
                    w <= len,
                    len == w * h <= MAX_CELLS,
                    occ.len() == len,
                    horz@.len() == len,
                    ret@.len() == len,
                    forall|x3: int, y3: int|
                        #![trigger horz_dist(occ, w as int, y3, x3)]
                        #![trigger horz_rx(occ, w as int, y3, x3)]
                        0 <= x3 < w && 0 <= y3 < h ==> {
                            &&& horz@[y3 * w + x3].val == horz_dist(occ, w as int, y3, x3)
                            &&& horz@[y3 * w + x3].relpos[0] == horz_rx(occ, w as int, y3, x3)
                            &&& horz@[y3 * w + x3].relpos[1] == 0
                        },
                    forall|x3: int, y3: int|
                        #![trigger edt_sq_pixel(occ, w as int, h as int, x3, y3)]
                        0 <= x3 < x && 0 <= y3 < h ==> {
                            &&& ret@[y3 * w + x3].val == edt_sq_pixel(occ, w as int, h as int, x3, y3).0
                            &&& ret@[y3 * w + x3].relpos[0] == edt_sq_pixel(occ, w as int, h as int, x3, y3).1
                            &&& ret@[y3 * w + x3].relpos[1] == edt_sq_pixel(occ, w as int, h as int, x3, y3).2
                        },
                    forall|y3: int|
                        #![trigger edt_sq_pixel(occ, w as int, h as int, x as int, y3)]
                        0 <= y3 < y ==> {
                            &&& ret@[y3 * w + x].val == edt_sq_pixel(occ, w as int, h as int, x as int, y3).0
                            &&& ret@[y3 * w + x].relpos[0] == edt_sq_pixel(occ, w as int, h as int, x as int, y3).1
                            &&& ret@[y3 * w + x].relpos[1] == edt_sq_pixel(occ, w as int, h as int, x as int, y3).2
                        },
                    y2 >= 1 ==> {
                        &&& best.val == pixel_min(occ, w as int, x as int, y as int, y2 as int).0
                        &&& best.relpos[0] == pixel_min(occ, w as int, x as int, y as int, y2 as int).1
                        &&& best.relpos[1] == pixel_min(occ, w as int, x as int, y as int, y2 as int).2
                        &&& best.val <= 0x2000_0000_0000_0000
                    },
                decreases h - y2,
            {
                proof {
                    lemma_row_fits(w as int, h as int, y2 as int, len as int);
                    lemma_horz_bounds(occ, w as int, y2 as int, x as int);
                }
                let dy: u64 = if y2 >= y {
                    (y2 - y) as u64
                } else {
                    (y - y2) as u64
                };
                let hp = horz[x + y2 * w];
                let hv: u64 = hp.val;
                proof {
                    assert(dy * dy <= 0x1000_0000_0000_0000 && hv * hv <= 0x1000_0000_0000_0000)
                        by (nonlinear_arith)
                        requires
                            0 <= dy <= 0x4000_0000,
                            0 <= hv <= 0x4000_0000,
                    ;
                    assert(dy * dy == (y2 - y) * (y2 - y)) by (nonlinear_arith)
                        requires
                            dy == y2 - y || dy == y - y2,
                    ;
                }
                let c = Pixel { val: dy * dy + hv * hv, relpos: [hp.relpos[0], (y as i32) - (y2 as i32)] };
                proof {
                    assert(c.val == pixel_cand(occ, w as int, x as int, y as int, y2 as int).0);
                    assert(c.relpos[0] == pixel_cand(occ, w as int, x as int, y as int, y2 as int).1);
                    assert(c.relpos[1] == pixel_cand(occ, w as int, x as int, y as int, y2 as int).2);
                }
                if y2 == 0 {
                    best = c;
                } else if best.val < c.val {
                } else {
                    best = c;
                }
                y2 += 1;
            }
            proof {
                lemma_row_fits(w as int, h as int, y as int, len as int);
                assert((y as u64) * (y as u64) <= 0x1000_0000_0000_0000 && (((h - y) as u64) * ((h
                    - y) as u64)) <= 0x1000_0000_0000_0000) by (nonlinear_arith)
                    requires
                        0 <= y <= 0x4000_0000,
                        0 <= h - y <= 0x4000_0000,
                ;
            }
            let a: u64 = (y as u64) * (y as u64);
            let b: u64 = ((h - y) as u64) * ((h - y) as u64);
            let out = if a < best.val {
                Pixel { val: a, relpos: [0, -(y as i32)] }
            } else if b < best.val {
                Pixel { val: b, relpos: [0, (h - y) as i32] }
            } else {
                best
            };
            let idx = x + y * w;
            ret[idx] = out;
            proof {
                assert(out.val == edt_sq_pixel(occ, w as int, h as int, x as int, y as int).0);
                assert(out.relpos[0] == edt_sq_pixel(occ, w as int, h as int, x as int, y as int).1);
                assert(out.relpos[1] == edt_sq_pixel(occ, w as int, h as int, x as int, y as int).2);
                assert forall|x3: int, y3: int|
                    #![trigger edt_sq_pixel(occ, w as int, h as int, x3, y3)]
                    0 <= x3 < x && 0 <= y3 < h implies {
                    &&& ret@[y3 * w + x3].val == edt_sq_pixel(occ, w as int, h as int, x3, y3).0
                    &&& ret@[y3 * w + x3].relpos[0] == edt_sq_pixel(occ, w as int, h as int, x3, y3).1
                    &&& ret@[y3 * w + x3].relpos[1] == edt_sq_pixel(occ, w as int, h as int, x3, y3).2
                } by {
                    assert(y3 * w + x3 != y * w + x && 0 <= y3 * w + x3 < len) by (nonlinear_arith)
                        requires
                            0 <= x3 < x,
                            x < w,
                            0 <= y3 < h,
                            0 <= y,
                            len == w * h,
                    ;
                    assert(ret@[y3 * w + x3].val == edt_sq_pixel(occ, w as int, h as int, x3, y3).0);
                    assert(ret@[y3 * w + x3].relpos[0] == edt_sq_pixel(occ, w as int, h as int, x3, y3).1);
                    assert(ret@[y3 * w + x3].relpos[1] == edt_sq_pixel(occ, w as int, h as int, x3, y3).2);
                }
                assert forall|y3: int|
                    #![trigger edt_sq_pixel(occ, w as int, h as int, x as int, y3)]
                    0 <= y3 < y implies {
                    &&& ret@[y3 * w + x].val == edt_sq_pixel(occ, w as int, h as int, x as int, y3).0
                    &&& ret@[y3 * w + x].relpos[0] == edt_sq_pixel(occ, w as int, h as int, x as int, y3).1
                    &&& ret@[y3 * w + x].relpos[1] == edt_sq_pixel(occ, w as int, h as int, x as int, y3).2
                } by {
                    assert(y3 * w + x != y * w + x && 0 <= y3 * w + x < len) by (nonlinear_arith)
                        requires
                            0 <= x < w,
                            0 <= y3 < y,
                            y < h,
                            len == w * h,
                    ;
                    assert(ret@[y3 * w + x].val == edt_sq_pixel(occ, w as int, h as int, x as int, y3).0);
                    assert(ret@[y3 * w + x].relpos[0] == edt_sq_pixel(occ, w as int, h as int, x as int, y3).1);
                    assert(ret@[y3 * w + x].relpos[1] == edt_sq_pixel(occ, w as int, h as int, x as int, y3).2);
                }
            }
            y += 1;
        }
        x += 1;
    }
    Ok(ret)
}

} // verus!
