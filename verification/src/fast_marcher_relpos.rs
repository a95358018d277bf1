//! Fast-marching approximation of the distance transform, tracking for every
//! cell the absolute position of the source its wavefront started from.
//!
//! Costs are fixed-point `u64` values with [`crate::fixed::SCALE`] units per
//! cell of distance. The solver keeps an authoritative cost table and a queue
//! of candidate cells; the cheapest candidate is popped, stale or
//! opposite-class entries are discarded, and its four neighbours are relaxed
//! with the discretized Eikonal update. Relaxations only ever lower a cell's
//! cost, and the queue admits duplicates rather than reordering itself.

use crate::exact_edt::MAX_CELLS;
use crate::exact_edt::ShapeMismatch;
use crate::fixed::eikonal_cost;
use crate::fixed::eikonal_spec;
use crate::fixed::CAP;
use crate::fixed::SCALE;
use crate::BoolLike;
use vstd::prelude::*;

verus! {

/// A position in a [`Grid`], as `(column, row)`.
pub type GridPos = (usize, usize);

/// A fixed-point cost together with the absolute position of the source cell
/// the wavefront reaching this cell started from.
#[derive(Clone, Copy, Debug, PartialEq)]
pub struct PixelAbs {
    pub val: u64,
    pub abspos: GridPos,
}

/// A row-major grid of [`PixelAbs`] cells.
pub struct Grid {
    pub storage: Vec<PixelAbs>,
    pub dims: (usize, usize),
}

/// A grid whose buffer agrees with its dimensions and is small enough for
/// the solver's index arithmetic.
pub open spec fn grid_wf(g: Grid) -> bool {
    &&& g.storage@.len() == g.dims.0 * g.dims.1
    &&& g.storage@.len() <= MAX_CELLS
}

/// Whether the cell at `(x, y)` belongs to the propagating class and touches
/// the opposite class or the edge of the grid.
pub open spec fn is_boundary_xy(s: Seq<PixelAbs>, w: int, h: int, x: int, y: int) -> bool {
    &&& s[y * w + x].val != 0
    &&& {
        ||| x < 1
        ||| s[y * w + x - 1].val == 0
        ||| y < 1
        ||| s[(y - 1) * w + x].val == 0
        ||| w <= x + 1
        ||| s[y * w + x + 1].val == 0
        ||| h <= y + 1
        ||| s[(y + 1) * w + x].val == 0
    }
}

/// The boundary cells of row `y` among its first `k` columns, in column order.
pub open spec fn boundary_row(s: Seq<PixelAbs>, w: int, h: int, y: int, k: int) -> Seq<GridPos>
    decreases k,
{
    if k <= 0 {
        Seq::empty()
    } else {
        boundary_row(s, w, h, y, k - 1) + (if is_boundary_xy(s, w, h, k - 1, y) {
            seq![((k - 1) as usize, y as usize)]
        } else {
            Seq::<GridPos>::empty()
        })
    }
}

/// The boundary cells of the first `k` rows, in row-major order.
pub open spec fn boundary_upto(s: Seq<PixelAbs>, w: int, h: int, k: int) -> Seq<GridPos>
    decreases k,
{
    if k <= 0 {
        Seq::empty()
    } else {
        boundary_upto(s, w, h, k - 1) + boundary_row(s, w, h, k - 1, w)
    }
}

proof fn lemma_boundary_row_sound(s: Seq<PixelAbs>, w: int, h: int, y: int, k: int)
    requires
        0 <= k <= w <= usize::MAX,
        0 <= y <= usize::MAX,
    ensures
        forall|j: int|
            0 <= j < boundary_row(s, w, h, y, k).len() ==> {
                let q = #[trigger] boundary_row(s, w, h, y, k)[j];
                (q.1 as int) == y && is_boundary_xy(s, w, h, q.0 as int, q.1 as int)
            },
    decreases k,
{
    if k > 0 {
        lemma_boundary_row_sound(s, w, h, y, k - 1);
        let prev = boundary_row(s, w, h, y, k - 1);
        assert forall|j: int| 0 <= j < boundary_row(s, w, h, y, k).len() implies {
            let q = #[trigger] boundary_row(s, w, h, y, k)[j];
            (q.1 as int) == y && is_boundary_xy(s, w, h, q.0 as int, q.1 as int)
        } by {
            if j < prev.len() {
                assert(boundary_row(s, w, h, y, k)[j] == prev[j]);
            } else {
                assert(is_boundary_xy(s, w, h, k - 1, y));
                assert(boundary_row(s, w, h, y, k)[j] == (((k - 1) as usize, y as usize)));
            }
        }
    }
}

/// Every position the boundary scan yields lies inside the grid.
pub proof fn lemma_boundary_upto_bounds(s: Seq<PixelAbs>, w: int, h: int, k: int)
    requires
        0 <= w <= usize::MAX,
        0 <= k <= h <= usize::MAX,
    ensures
        forall|j: int|
            0 <= j < boundary_upto(s, w, h, k).len() ==> {
                let q = #[trigger] boundary_upto(s, w, h, k)[j];
                (q.0 as int) < w && (q.1 as int) < h
            },
    decreases k,
{
    if k > 0 {
        lemma_boundary_upto_bounds(s, w, h, k - 1);
        lemma_boundary_row_sound(s, w, h, k - 1, w);
        let prev = boundary_upto(s, w, h, k - 1);
        let row = boundary_row(s, w, h, k - 1, w);
        lemma_boundary_row_bounds_helper(s, w, h, k - 1, w);
        assert forall|j: int| 0 <= j < boundary_upto(s, w, h, k).len() implies {
            let q = #[trigger] boundary_upto(s, w, h, k)[j];
            (q.0 as int) < w && (q.1 as int) < h
        } by {
            if j < prev.len() {
                assert(boundary_upto(s, w, h, k)[j] == prev[j]);
            } else {
                assert(boundary_upto(s, w, h, k)[j] == row[j - prev.len()]);
            }
        }
    }
}

proof fn lemma_boundary_row_bounds_helper(s: Seq<PixelAbs>, w: int, h: int, y: int, k: int)
    requires
        0 <= k <= w <= usize::MAX,
        0 <= y < h <= usize::MAX,
    ensures
        forall|j: int|
            0 <= j < boundary_row(s, w, h, y, k).len() ==> {
                let q = #[trigger] boundary_row(s, w, h, y, k)[j];
                (q.0 as int) < w && (q.1 as int) < h
            },
    decreases k,
{
    if k > 0 {
        lemma_boundary_row_bounds_helper(s, w, h, y, k - 1);
        let prev = boundary_row(s, w, h, y, k - 1);
        assert forall|j: int| 0 <= j < boundary_row(s, w, h, y, k).len() implies {
            let q = #[trigger] boundary_row(s, w, h, y, k)[j];
            (q.0 as int) < w && (q.1 as int) < h
        } by {
            if j < prev.len() {
                assert(boundary_row(s, w, h, y, k)[j] == prev[j]);
            } else {
                assert(boundary_row(s, w, h, y, k)[j] == (((k - 1) as usize, y as usize)));
            }
        }
    }
}

/// Every position the boundary scan yields satisfies [`is_boundary_xy`].
pub proof fn lemma_boundary_upto_sound(s: Seq<PixelAbs>, w: int, h: int, k: int)
    requires
        0 <= w <= usize::MAX,
        0 <= k <= usize::MAX,
    ensures
        forall|j: int|
            0 <= j < boundary_upto(s, w, h, k).len() ==> {
                let q = #[trigger] boundary_upto(s, w, h, k)[j];
                is_boundary_xy(s, w, h, q.0 as int, q.1 as int)
            },
    decreases k,
{
    if k > 0 {
        lemma_boundary_upto_sound(s, w, h, k - 1);
        lemma_boundary_row_sound(s, w, h, k - 1, w);
        let prev = boundary_upto(s, w, h, k - 1);
        let row = boundary_row(s, w, h, k - 1, w);
        assert forall|j: int| 0 <= j < boundary_upto(s, w, h, k).len() implies {
            let q = #[trigger] boundary_upto(s, w, h, k)[j];
            is_boundary_xy(s, w, h, q.0 as int, q.1 as int)
        } by {
            if j < prev.len() {
                assert(boundary_upto(s, w, h, k)[j] == prev[j]);
            } else {
                assert(boundary_upto(s, w, h, k)[j] == row[j - prev.len()]);
            }
        }
    }
}

proof fn lemma_boundary_row_contains(s: Seq<PixelAbs>, w: int, h: int, y: int, k: int, x: int)
    requires
        0 <= x < k <= w,
        is_boundary_xy(s, w, h, x, y),
    ensures
        exists|j: int|
            0 <= j < boundary_row(s, w, h, y, k).len() && #[trigger] boundary_row(s, w, h, y, k)[j]
                == ((x as usize, y as usize)),
    decreases k,
{
    if k - 1 == x {
        let b = boundary_row(s, w, h, y, k);
        assert(b[b.len() - 1] == ((x as usize, y as usize)));
    } else {
        lemma_boundary_row_contains(s, w, h, y, k - 1, x);
        let j = choose|j: int|
            0 <= j < boundary_row(s, w, h, y, k - 1).len() && #[trigger] boundary_row(
                s,
                w,
                h,
                y,
                k - 1,
            )[j] == ((x as usize, y as usize));
        assert(boundary_row(s, w, h, y, k)[j] == ((x as usize, y as usize)));
    }
}

/// A cell that satisfies [`is_boundary_xy`] occurs in [`boundary_upto`].
pub proof fn lemma_boundary_upto_contains(s: Seq<PixelAbs>, w: int, h: int, k: int, x: int, y: int)
    requires
        0 <= x < w,
        0 <= y < k <= h,
        is_boundary_xy(s, w, h, x, y),
    ensures
        exists|j: int|
            0 <= j < boundary_upto(s, w, h, k).len() && #[trigger] boundary_upto(s, w, h, k)[j]
                == ((x as usize, y as usize)),
    decreases k,
{
    if k - 1 == y {
        lemma_boundary_row_contains(s, w, h, y, w, x);
        let j = choose|j: int|
            0 <= j < boundary_row(s, w, h, y, w).len() && #[trigger] boundary_row(s, w, h, y, w)[j]
                == ((x as usize, y as usize));
        let base = boundary_upto(s, w, h, k - 1).len() as int;
        assert(boundary_upto(s, w, h, k)[base + j] == ((x as usize, y as usize)));
    } else {
        lemma_boundary_upto_contains(s, w, h, k - 1, x, y);
        let j = choose|j: int|
            0 <= j < boundary_upto(s, w, h, k - 1).len() && #[trigger] boundary_upto(
                s,
                w,
                h,
                k - 1,
            )[j] == ((x as usize, y as usize));
        assert(boundary_upto(s, w, h, k)[j] == ((x as usize, y as usize)));
    }
}

/// Whether the cell at `(x, y)` of a grid with the given occupancy seeds the
/// wavefront: it is in class and touches the opposite class or the edge.
pub open spec fn seed_cell(occ: Seq<bool>, w: int, h: int, x: int, y: int) -> bool {
    &&& occ[y * w + x]
    &&& {
        ||| x < 1
        ||| !occ[y * w + x - 1]
        ||| y < 1
        ||| !occ[(y - 1) * w + x]
        ||| w <= x + 1
        ||| !occ[y * w + x + 1]
        ||| h <= y + 1
        ||| !occ[(y + 1) * w + x]
    }
}

impl Grid {
    /// The cell at `pos`, reading the buffer at `pos.0 * dims.0 + pos.1`, or
    /// `None` when that index is past the buffer's end.
    pub fn try_index(&self, pos: GridPos) -> (r: Option<PixelAbs>)
        requires
            grid_wf(*self),
        ensures
            pos.0 * self.dims.0 + pos.1 < self.storage@.len() ==> r == Some(
                self.storage@[pos.0 * self.dims.0 + pos.1],
            ),
            pos.0 * self.dims.0 + pos.1 >= self.storage@.len() ==> r is None,
    {
        if self.storage.len() == 0 {
            return None;
        }
        if pos.0 > MAX_CELLS || pos.1 > MAX_CELLS {
            proof {
                assert(pos.0 * self.dims.0 + pos.1 >= self.storage@.len()) by (nonlinear_arith)
                    requires
                        pos.0 > MAX_CELLS || pos.1 > MAX_CELLS,
                        self.storage@.len() <= MAX_CELLS,
                        self.storage@.len() == self.dims.0 * self.dims.1,
                        self.storage@.len() >= 1,
                        0 <= self.dims.0,
                        0 <= self.dims.1,
                        0 <= pos.0,
                        0 <= pos.1,
                ;
            }
            return None;
        }
        proof {
            assert(1 <= self.dims.0 <= MAX_CELLS && 1 <= self.dims.1) by (nonlinear_arith)
                requires
                    self.storage@.len() == self.dims.0 * self.dims.1,
                    1 <= self.storage@.len() <= MAX_CELLS,
                    0 <= self.dims.0,
                    0 <= self.dims.1,
            ;
            assert(pos.0 * self.dims.0 <= MAX_CELLS * MAX_CELLS) by (nonlinear_arith)
                requires
                    0 <= pos.0 <= MAX_CELLS,
                    0 <= self.dims.0 <= MAX_CELLS,
            ;
        }
        let idx: u64 = (pos.0 as u64) * (self.dims.0 as u64) + (pos.1 as u64);
        if idx < self.storage.len() as u64 {
            Some(self.storage[idx as usize])
        } else {
            None
        }
    }

    /// Writes the cell at `pos`, addressing the buffer as [`Grid::try_index`]
    /// does; reports whether the position was inside the buffer.
    pub fn try_index_mut(&mut self, pos: GridPos, p: PixelAbs) -> (r: bool)
        requires
            grid_wf(*old(self)),
        ensures
            final(self).dims == old(self).dims,
            grid_wf(*final(self)),
            r == (pos.0 * old(self).dims.0 + pos.1 < old(self).storage@.len()),
            r ==> final(self).storage@ == old(self).storage@.update(
                pos.0 * old(self).dims.0 + pos.1 as int,
                p,
            ),
            !r ==> final(self).storage@ == old(self).storage@,
    {
        if self.storage.len() == 0 {
            return false;
        }
        if pos.0 > MAX_CELLS || pos.1 > MAX_CELLS {
            proof {
                assert(pos.0 * self.dims.0 + pos.1 >= self.storage@.len()) by (nonlinear_arith)
                    requires
                        pos.0 > MAX_CELLS || pos.1 > MAX_CELLS,
                        self.storage@.len() <= MAX_CELLS,
                        self.storage@.len() == self.dims.0 * self.dims.1,
                        self.storage@.len() >= 1,
                        0 <= self.dims.0,
                        0 <= self.dims.1,
                        0 <= pos.0,
                        0 <= pos.1,
                ;
            }
            return false;
        }
        proof {
            assert(1 <= self.dims.0 <= MAX_CELLS && 1 <= self.dims.1) by (nonlinear_arith)
                requires
                    self.storage@.len() == self.dims.0 * self.dims.1,
                    1 <= self.storage@.len() <= MAX_CELLS,
                    0 <= self.dims.0,
                    0 <= self.dims.1,
            ;
            assert(pos.0 * self.dims.0 <= MAX_CELLS * MAX_CELLS) by (nonlinear_arith)
                requires
                    0 <= pos.0 <= MAX_CELLS,
                    0 <= self.dims.0 <= MAX_CELLS,
            ;
        }
        let idx: u64 = (pos.0 as u64) * (self.dims.0 as u64) + (pos.1 as u64);
        if idx < self.storage.len() as u64 {
            let i = idx as usize;
            self.storage[i] = p;
            true
        } else {
            false
        }
    }

    /// Swaps the cell's class marker at `pos`: a zero value becomes
    /// [`SCALE`], any other value becomes zero. Out-of-buffer positions are
    /// ignored.
    pub fn invert(&mut self, pos: GridPos)
        requires
            grid_wf(*old(self)),
        ensures
            final(self).dims == old(self).dims,
            grid_wf(*final(self)),
            pos.0 * old(self).dims.0 + pos.1 < old(self).storage@.len() ==> final(self).storage@
                == old(self).storage@.update(
                pos.0 * old(self).dims.0 + pos.1 as int,
                PixelAbs {
                    val: (if old(self).storage@[pos.0 * old(self).dims.0 + pos.1].val == 0 {
                        SCALE
                    } else {
                        0
                    }),
                    abspos: old(self).storage@[pos.0 * old(self).dims.0 + pos.1].abspos,
                },
            ),
            pos.0 * old(self).dims.0 + pos.1 >= old(self).storage@.len() ==> final(self).storage@
                == old(self).storage@,
    {
        if let Some(pixel) = self.try_index(pos) {
            let flipped: u64 = if pixel.val == 0 {
                SCALE
            } else {
                0
            };
            self.try_index_mut(pos, PixelAbs { val: flipped, abspos: pixel.abspos });
        }
    }

    /// Builds a grid from a binary image: in-class cells get value [`SCALE`],
    /// others zero, and every cell records its own position.
    pub fn from_image<T: BoolLike>(image: &Vec<T>, dims: (usize, usize)) -> (r: Grid)
        requires
            image@.len() == dims.0 * dims.1,
            image@.len() <= MAX_CELLS,
        ensures
            grid_wf(r),
            r.dims == dims,
            r.storage@.len() == image@.len(),
            forall|i: int|
                0 <= i < image@.len() ==> (#[trigger] r.storage@[i]).val == (
                if image@[i].spec_as_bool() {
                    SCALE as int
                } else {
                    0
                }),
            forall|i: int|
                0 <= i < image@.len() && dims.0 != 0 ==> ((#[trigger] r.storage@[i]).abspos.1
                    * dims.0 + r.storage@[i].abspos.0 == i && r.storage@[i].abspos.0 < dims.0),
    {
        let w = dims.0;
        let len = image.len();
        let mut storage: Vec<PixelAbs> = Vec::new();
        let mut i: usize = 0;
        while i < len
            invariant
                i <= len,
                storage@.len() == i,
                len == image@.len() <= MAX_CELLS,
                len == dims.0 * dims.1,
                w == dims.0,
                forall|j: int|
                    0 <= j < i ==> (#[trigger] storage@[j]).val == (if image@[j].spec_as_bool() {
                        SCALE as int
                    } else {
                        0
                    }),
                forall|j: int|
                    0 <= j < i && dims.0 != 0 ==> ((#[trigger] storage@[j]).abspos.1 * dims.0
                        + storage@[j].abspos.0 == j && storage@[j].abspos.0 < dims.0),
            decreases len - i,
        {
            proof {
                if w != 0 {
                    vstd::arithmetic::div_mod::lemma_fundamental_div_mod(i as int, w as int);
                    vstd::arithmetic::div_mod::lemma_mod_bound(i as int, w as int);
                }
            }
            let pos: GridPos = if w == 0 {
                (0, 0)
            } else {
                (i % w, i / w)
            };
            let v: u64 = if image[i].as_bool() {
                SCALE
            } else {
                0
            };
            storage.push(PixelAbs { val: v, abspos: pos });
            proof {
                if w != 0 {
                    assert(pos.1 * w + pos.0 == i) by (nonlinear_arith)
                        requires
                            w != 0,
                            0 <= i,
                            pos.0 == i as int % w as int,
                            pos.1 == i as int / w as int,
                    ;
                    assert(pos.0 < w);
                }
            }
            i += 1;
        }
        Grid { storage, dims }
    }

    /// All in-class cells adjacent to an out-of-class cell or to the edge of
    /// the grid, in row-major order; these seed the wavefront.
    pub fn find_boundary(&self) -> (r: Vec<GridPos>)
        requires
            grid_wf(*self),
        ensures
            r@ == boundary_upto(
                self.storage@,
                self.dims.0 as int,
                self.dims.1 as int,
                self.dims.1 as int,
            ),
            forall|j: int|
                0 <= j < r@.len() ==> (#[trigger] r@[j]).0 < self.dims.0 && r@[j].1 < self.dims.1,
    {
        let (w, h) = self.dims;
        let ghost s = self.storage@;
        let mut boundary: Vec<GridPos> = Vec::new();
        let mut y: usize = 0;
        while y < h
            invariant
                y <= h,
                s == self.storage@,
                grid_wf(*self),
                (w, h) == self.dims,
                boundary@ == boundary_upto(s, w as int, h as int, y as int),
                forall|j: int|
                    0 <= j < boundary@.len() ==> (#[trigger] boundary@[j]).0 < w && boundary@[j].1
                        < h,
            decreases h - y,
        {
            proof {
                crate::exact_edt::lemma_row_fits(w as int, h as int, y as int, s.len() as int);
            }
            let base = y * w;
            let mut x: usize = 0;
            while x < w
                invariant
                    x <= w,
                    y < h,
                    base == y * w,
                    base + w <= s.len(),
                    s == self.storage@,
                    grid_wf(*self),
                    (w, h) == self.dims,
                    boundary@ == boundary_upto(s, w as int, h as int, y as int) + boundary_row(
                        s,
                        w as int,
                        h as int,
                        y as int,
                        x as int,
                    ),
                    forall|j: int|
                        0 <= j < boundary@.len() ==> (#[trigger] boundary@[j]).0 < w
                            && boundary@[j].1 < h,
                decreases w - x,
            {
                let ghost prev = boundary@;
                let idx = base + x;
                let here = self.storage[idx].val != 0;
                let open_left = x < 1 || self.storage[idx - 1].val == 0;
                let open_up = if y < 1 {
                    true
                } else {
                    proof {
                        assert(w <= y * w && (y - 1) * w + x == y * w + x - w) by (nonlinear_arith)
                            requires
                                1 <= y,
                                0 <= w,
                        ;
                    }
                    self.storage[idx - w].val == 0
                };
                let open_right = w <= x + 1 || self.storage[idx + 1].val == 0;
                let open_down = if h <= y + 1 {
                    true
                } else {
                    proof {
                        crate::exact_edt::lemma_row_fits(
                            w as int,
                            h as int,
                            (y + 1) as int,
                            s.len() as int,
                        );
                        assert((y + 1) * w + x == y * w + x + w) by (nonlinear_arith);
                    }
                    self.storage[idx + w].val == 0
                };
                let is_b = here && (open_left || open_up || open_right || open_down);
                if is_b {
                    boundary.push((x, y));
                }
                proof {
                    if y >= 1 {
                        assert((y - 1) * w + x == y * w + x - w) by (nonlinear_arith)
                            requires
                                1 <= y,
                                0 <= w,
                        ;
                    }
                    if y + 1 < h {
                        assert((y + 1) * w + x == y * w + x + w) by (nonlinear_arith);
                    }
                    assert(is_b == is_boundary_xy(s, w as int, h as int, x as int, y as int));
                    if is_b {
                        assert(boundary@ =~= prev + seq![(x, y)]);
                    } else {
                        assert(boundary@ =~= prev + Seq::<GridPos>::empty());
                    }
                    assert(boundary@ == boundary_upto(s, w as int, h as int, y as int)
                        + boundary_row(s, w as int, h as int, y as int, x + 1));
                }
                x += 1;
            }
            y += 1;
        }
        boundary
    }
}

/// A queue entry: a candidate position and the cost snapshot it was pushed
/// with. Entries may be stale; staleness is resolved at pop time.
#[derive(Clone, Copy)]
pub struct NextCell {
    pub pos: GridPos,
    pub pixel: PixelAbs,
}

/// A cost table entry: zero (unknown) or a cost between [`SCALE`] and [`CAP`].
pub open spec fn cost_ok(p: PixelAbs) -> bool {
    p.val == 0 || (SCALE <= p.val && p.val <= CAP)
}

/// The table's per-cell share of the solver's termination measure.
pub open spec fn cell_pot(p: PixelAbs) -> int {
    if p.val == 0 {
        CAP + 1
    } else {
        p.val as int
    }
}

/// Sum of [`cell_pot`] over the table; strictly falls with every relaxation.
pub open spec fn table_pot(vs: Seq<PixelAbs>) -> int
    decreases vs.len(),
{
    if vs.len() == 0 {
        0
    } else {
        table_pot(vs.drop_last()) + cell_pot(vs.last())
    }
}

proof fn lemma_table_pot_nonneg(vs: Seq<PixelAbs>)
    ensures
        table_pot(vs) >= 0,
    decreases vs.len(),
{
    if vs.len() > 0 {
        lemma_table_pot_nonneg(vs.drop_last());
    }
}

proof fn lemma_table_pot_update(vs: Seq<PixelAbs>, i: int, p: PixelAbs)
    requires
        0 <= i < vs.len(),
    ensures
        table_pot(vs.update(i, p)) == table_pot(vs) + cell_pot(p) - cell_pot(vs[i]),
    decreases vs.len(),
{
    let u = vs.update(i, p);
    if i == vs.len() - 1 {
        assert(u.drop_last() =~= vs.drop_last());
        assert(u.last() == p);
    } else {
        assert(u.drop_last() =~= vs.drop_last().update(i, p));
        assert(u.last() == vs.last());
        lemma_table_pot_update(vs.drop_last(), i, p);
    }
}

/// No known cost ever rises, and no known cell is ever forgotten.
pub open spec fn monotone_step(a: Seq<PixelAbs>, b: Seq<PixelAbs>) -> bool {
    &&& a.len() == b.len()
    &&& forall|i: int|
        0 <= i < a.len() && (#[trigger] a[i]).val != 0 ==> b[i].val != 0 && b[i].val <= a[i].val
}

proof fn lemma_monotone_trans(a: Seq<PixelAbs>, b: Seq<PixelAbs>, c: Seq<PixelAbs>)
    requires
        monotone_step(a, b),
        monotone_step(b, c),
    ensures
        monotone_step(a, c),
{
}

/// A queue entry in bounds whose cell already has a known cost.
pub open spec fn entry_ok(c: NextCell, vis: Seq<PixelAbs>, w: int, h: int) -> bool {
    &&& (c.pos.0 as int) < w
    &&& (c.pos.1 as int) < h
    &&& vis[c.pos.1 * w + c.pos.0].val != 0
    &&& vis[c.pos.1 * w + c.pos.0].val <= c.pixel.val
    &&& c.pixel.val <= CAP
}

/// Every known cost records a source cell that carries the seed mark: known
/// at exactly [`SCALE`] and recording itself. Relaxations inherit their
/// source from a known upwind neighbour, so the mark is preserved.
pub open spec fn sources_ok(vis: Seq<PixelAbs>, w: int, h: int) -> bool {
    forall|i: int|
        0 <= i < vis.len() && (#[trigger] vis[i]).val != 0 ==> {
            let p = vis[i].abspos;
            &&& (p.0 as int) < w
            &&& (p.1 as int) < h
            &&& vis[p.1 * w + p.0] == (PixelAbs { val: SCALE, abspos: p })
        }
}

/// The [`axis_min`] result: the neighbour with the smaller known cost along
/// one axis, or `None` when neither side has one.
pub open spec fn axis_min_spec(p: PixelAbs, n: PixelAbs) -> Option<PixelAbs> {
    if p.val == 0 && n.val == 0 {
        None
    } else if p.val == 0 {
        Some(n)
    } else if n.val == 0 {
        Some(p)
    } else if p.val < n.val {
        Some(p)
    } else {
        Some(n)
    }
}

fn axis_min(p: PixelAbs, n: PixelAbs) -> (r: Option<PixelAbs>)
    ensures
        r == axis_min_spec(p, n),
{
    if p.val == 0 && n.val == 0 {
        None
    } else if p.val == 0 {
        Some(n)
    } else if n.val == 0 {
        Some(p)
    } else if p.val < n.val {
        Some(p)
    } else {
        Some(n)
    }
}

/// The value of an optional upwind pixel.
pub open spec fn opt_val(o: Option<PixelAbs>) -> Option<u64> {
    match o {
        Some(p) => Some(p.val),
        None => None,
    }
}

/// The source position the Eikonal update carries forward: that of the
/// cheaper upwind neighbour; each branch keeps its own tie rule.
pub open spec fn update_src(u_h: Option<PixelAbs>, u_v: Option<PixelAbs>, speed: u64) -> GridPos {
    match (u_h, u_v) {
        (Some(a), Some(b)) => {
            let d = if a.val >= b.val {
                a.val - b.val
            } else {
                b.val - a.val
            };
            if d * d > 2 * speed * SCALE {
                if a.val < b.val {
                    a.abspos
                } else {
                    b.abspos
                }
            } else {
                if b.val < a.val {
                    b.abspos
                } else {
                    a.abspos
                }
            }
        },
        (Some(a), None) => a.abspos,
        (None, Some(b)) => b.abspos,
        (None, None) => (0, 0),
    }
}

/// The whole solver state: the cost table, the visible grid cells, and the
/// candidate queue.
#[verifier::ext_equal]
pub struct SolverState {
    pub vis: Seq<PixelAbs>,
    pub cells: Seq<PixelAbs>,
    pub queue: Seq<NextCell>,
}

/// The neighbouring table entry along one direction, or a zero pixel past
/// the edge of the grid.
pub open spec fn neighbor_pixel(vis: Seq<PixelAbs>, w: int, h: int, x: int, y: int) -> PixelAbs {
    if 0 <= x < w && 0 <= y < h {
        vis[y * w + x]
    } else {
        PixelAbs { val: 0, abspos: (0, 0) }
    }
}

/// The clamped speed multiplier at a cell.
pub open spec fn clamped_speed(sm: Option<&Grid>, idx: int) -> u64 {
    match sm {
        Some(m) => if m.storage@[idx].val > CAP {
            CAP
        } else {
            m.storage@[idx].val
        },
        None => SCALE,
    }
}

/// The pixel one relaxation of `(nx, ny)` computes from the table.
pub open spec fn relax_pixel(vis: Seq<PixelAbs>, w: int, h: int, nx: int, ny: int, speed: u64)
    -> PixelAbs {
    let u_h = axis_min_spec(
        neighbor_pixel(vis, w, h, nx + 1, ny),
        neighbor_pixel(vis, w, h, nx - 1, ny),
    );
    let u_v = axis_min_spec(
        neighbor_pixel(vis, w, h, nx, ny + 1),
        neighbor_pixel(vis, w, h, nx, ny - 1),
    );
    PixelAbs {
        val: eikonal_spec(opt_val(u_h), opt_val(u_v), speed) as u64,
        abspos: update_src(u_h, u_v, speed),
    }
}

/// One relaxation of `(nx, ny)`: commit the computed pixel if it strictly
/// improves a cell of the propagating class, else leave the state alone.
#[verifier::opaque]
pub open spec fn step_relax(
    st: SolverState,
    sm: Option<&Grid>,
    w: int,
    h: int,
    nx: int,
    ny: int,
) -> SolverState {
    let idx = ny * w + nx;
    let np = relax_pixel(st.vis, w, h, nx, ny, clamped_speed(sm, idx));
    if (st.vis[idx].val == 0 || np.val < st.vis[idx].val) && st.cells[idx].val != 0 {
        SolverState {
            vis: st.vis.update(idx, np),
            cells: st.cells.update(idx, np),
            queue: st.queue.push(NextCell { pos: ((nx as usize, ny as usize)), pixel: np }),
        }
    } else {
        st
    }
}

/// Relaxations of the four neighbours of the popped cell `(px, py)`, in
/// order: left, up, right, down.
#[verifier::opaque]
pub open spec fn step_neighbors(
    st: SolverState,
    sm: Option<&Grid>,
    w: int,
    h: int,
    px: int,
    py: int,
) -> SolverState {
    let s1 = if px >= 1 {
        step_relax(st, sm, w, h, px - 1, py)
    } else {
        st
    };
    let s2 = if py >= 1 {
        step_relax(s1, sm, w, h, px, py - 1)
    } else {
        s1
    };
    let s3 = if px + 1 < w {
        step_relax(s2, sm, w, h, px + 1, py)
    } else {
        s2
    };
    if py + 1 < h {
        step_relax(s3, sm, w, h, px, py + 1)
    } else {
        s3
    }
}

/// The index of the first entry of least cost among the first `k` entries.
pub open spec fn min_index(q: Seq<NextCell>, k: int) -> int
    decreases k,
{
    if k <= 1 {
        0
    } else {
        let m = min_index(q, k - 1);
        if q[k - 1].pixel.val < q[m].pixel.val {
            k - 1
        } else {
            m
        }
    }
}

/// The least-cost index of a nonempty queue prefix is in range, and no
/// earlier entry is cheaper.
pub proof fn lemma_min_index_props(q: Seq<NextCell>, k: int)
    requires
        1 <= k <= q.len(),
    ensures
        0 <= min_index(q, k) < k,
        forall|j: int| 0 <= j < k ==> q[min_index(q, k)].pixel.val <= (#[trigger] q[j]).pixel.val,
    decreases k,
{
    if k > 1 {
        lemma_min_index_props(q, k - 1);
    }
}

/// One freeze event: pop the cheapest candidates, discarding stale or
/// opposite-class entries, until one pop improves a neighbour or the queue
/// runs out. The flag reports whether anything changed.
#[verifier::opaque]
pub open spec fn step_single(st: SolverState, sm: Option<&Grid>, w: int, h: int) -> (
    SolverState,
    bool,
)
    decreases st.queue.len(),
{
    if st.queue.len() == 0 {
        (st, false)
    } else {
        let mi = min_index(st.queue, st.queue.len() as int);
        let cell = st.queue[mi];
        let popped = SolverState {
            vis: st.vis,
            cells: st.cells,
            queue: st.queue.update(mi, st.queue.last()).drop_last(),
        };
        proof {
            lemma_min_index_props(st.queue, st.queue.len() as int);
            assert(popped.queue.len() == st.queue.len() - 1);
        }
        let idx = cell.pos.1 * w + cell.pos.0;
        if cell.pixel.val > st.vis[idx].val || st.cells[idx].val == 0 {
            step_single(popped, sm, w, h)
        } else {
            let relaxed = step_neighbors(popped, sm, w, h, cell.pos.0 as int, cell.pos.1 as int);
            if relaxed.queue.len() != popped.queue.len() {
                (relaxed, true)
            } else {
                step_single(popped, sm, w, h)
            }
        }
    }
}

/// `n` freeze events from `st`, stopping early when the queue runs out.
#[verifier::opaque]
pub open spec fn step_many(st: SolverState, sm: Option<&Grid>, w: int, h: int, n: nat)
    -> SolverState
    decreases n,
{
    if n == 0 {
        st
    } else {
        step_many(step_single(st, sm, w, h).0, sm, w, h, (n - 1) as nat)
    }
}

/// No freeze events leave the state alone.
pub proof fn lemma_step_many_zero(st: SolverState, sm: Option<&Grid>, w: int, h: int)
    ensures
        step_many(st, sm, w, h, 0nat) == st,
{
    reveal(step_many);
}

/// Appending one more freeze event to an iteration applies it last.
pub proof fn lemma_step_many_snoc(st: SolverState, sm: Option<&Grid>, w: int, h: int, n: nat)
    ensures
        step_many(st, sm, w, h, (n + 1) as nat) == (step_single(
            step_many(st, sm, w, h, n),
            sm,
            w,
            h,
        ).0),
    decreases n,
{
    reveal(step_many);
    if n > 0 {
        lemma_step_many_snoc(step_single(st, sm, w, h).0, sm, w, h, (n - 1) as nat);
    } else {
        assert(step_many(st, sm, w, h, 0nat) == st);
        assert(step_many(step_single(st, sm, w, h).0, sm, w, h, 0nat) == step_single(
            st,
            sm,
            w,
            h,
        ).0);
    }
}

/// Iterations compose.
pub proof fn lemma_step_many_add(st: SolverState, sm: Option<&Grid>, w: int, h: int, a: nat, b: nat)
    ensures
        step_many(st, sm, w, h, (a + b) as nat) == step_many(
            step_many(st, sm, w, h, a),
            sm,
            w,
            h,
            b,
        ),
    decreases a,
{
    reveal(step_many);
    if a > 0 {
        lemma_step_many_add(step_single(st, sm, w, h).0, sm, w, h, (a - 1) as nat, b);
    }
}

/// A state with an exhausted queue is a fixpoint of the evolution.
pub proof fn lemma_step_many_stable(st: SolverState, sm: Option<&Grid>, w: int, h: int, n: nat)
    requires
        st.queue.len() == 0,
    ensures
        step_many(st, sm, w, h, n) == st,
    decreases n,
{
    reveal(step_many);
    reveal(step_single);
    if n > 0 {
        lemma_step_many_stable(st, sm, w, h, (n - 1) as nat);
    }
}

/// Stopping the evolution early and resuming it is lossless. Every run of
/// [`FastMarcher::evolve`] or [`FastMarcher::evolve_cb`] lands on
/// `step_many` of its starting state for some number of freeze events, so
/// two runs of the same session that have both drained their queue, however
/// often each was interrupted and resumed, stand in the same state.
pub proof fn lemma_resume_lossless(
    st: SolverState,
    sm: Option<&Grid>,
    w: int,
    h: int,
    n: nat,
    m: nat,
)
    requires
        step_many(st, sm, w, h, n).queue.len() == 0,
        step_many(st, sm, w, h, m).queue.len() == 0,
    ensures
        step_many(st, sm, w, h, n) == step_many(st, sm, w, h, m),
{
    if n <= m {
        lemma_step_many_add(st, sm, w, h, n, (m - n) as nat);
        lemma_step_many_stable(step_many(st, sm, w, h, n), sm, w, h, (m - n) as nat);
    } else {
        lemma_step_many_add(st, sm, w, h, m, (n - m) as nat);
        lemma_step_many_stable(step_many(st, sm, w, h, m), sm, w, h, (n - m) as nat);
    }
}

/// The working grid a transform call starts from: cells of the propagating
/// class carry the marker value [`SCALE`], others zero, and every cell
/// records its own position.
pub open spec fn init_cells(occ: Seq<bool>, w: int, len: nat) -> Seq<PixelAbs> {
    Seq::new(
        len,
        |i: int|
            PixelAbs {
                val: if occ[i] {
                    SCALE
                } else {
                    0
                },
                abspos: if w <= 0 {
                    (0, 0)
                } else {
                    (((i % w) as usize), ((i / w) as usize))
                },
            },
    )
}

/// The cost table after seeding the first `k` seed positions over an
/// all-unknown table; a later duplicate seed wins.
pub open spec fn seeded_table(seeds: Seq<GridPos>, w: int, len: nat, k: int) -> Seq<PixelAbs>
    decreases k,
{
    if k <= 0 {
        Seq::new(len, |i: int| PixelAbs { val: 0, abspos: (0, 0) })
    } else {
        let p = seeds[k - 1];
        seeded_table(seeds, w, len, k - 1).update(
            p.1 * w + p.0,
            PixelAbs { val: SCALE, abspos: p },
        )
    }
}

/// Every known entry of a freshly seeded table records one of the seeds.
pub proof fn lemma_seeded_table_entries(seeds: Seq<GridPos>, w: int, len: nat, k: int)
    requires
        0 <= k <= seeds.len(),
        forall|j: int| 0 <= j < seeds.len() ==> 0 <= (#[trigger] seeds[j]).1 * w + seeds[j].0 < len,
    ensures
        seeded_table(seeds, w, len, k).len() == len,
        forall|i: int|
            0 <= i < len && (#[trigger] seeded_table(seeds, w, len, k)[i]).val != 0 ==> exists|j: int|
                0 <= j < k && #[trigger] seeds[j] == seeded_table(seeds, w, len, k)[i].abspos,
    decreases k,
{
    if k > 0 {
        lemma_seeded_table_entries(seeds, w, len, k - 1);
        assert forall|i: int|
            0 <= i < len && (#[trigger] seeded_table(seeds, w, len, k)[i]).val != 0 implies exists|
            j: int,
        |
            0 <= j < k && #[trigger] seeds[j] == seeded_table(seeds, w, len, k)[i].abspos by {
            let p = seeds[k - 1];
            assert(seeded_table(seeds, w, len, k) == seeded_table(seeds, w, len, k - 1).update(
                p.1 * w + p.0,
                PixelAbs { val: SCALE, abspos: p },
            ));
            assert(0 <= p.1 * w + p.0 < len);
            if i == p.1 * w + p.0 {
                assert(seeded_table(seeds, w, len, k)[i] == (PixelAbs { val: SCALE, abspos: p }));
                assert(seeds[k - 1] == seeded_table(seeds, w, len, k)[i].abspos);
            } else {
                assert(seeded_table(seeds, w, len, k)[i] == seeded_table(seeds, w, len, k - 1)[i]);
                let j0 = choose|j: int|
                    0 <= j < k - 1 && #[trigger] seeds[j] == seeded_table(seeds, w, len, k - 1)[
                        i
                    ].abspos;
                assert(seeds[j0] == seeded_table(seeds, w, len, k)[i].abspos);
            }
        }
    }
}

/// The queue holding one entry per seed, in order, at the initial cost.
pub open spec fn seed_queue(seeds: Seq<GridPos>) -> Seq<NextCell> {
    Seq::new(
        seeds.len(),
        |k: int| NextCell { pos: seeds[k], pixel: PixelAbs { val: SCALE, abspos: seeds[k] } },
    )
}

/// The seeded solver state a fast-marching transform call starts from, as a
/// function of the occupancy alone.
pub open spec fn initial_state(occ: Seq<bool>, w: int, h: int) -> SolverState {
    let cells = init_cells(occ, w, (w * h) as nat);
    let seeds = boundary_upto(cells, w, h, h);
    SolverState {
        vis: seeded_table(seeds, w, (w * h) as nat, seeds.len() as int),
        cells: cells,
        queue: seed_queue(seeds),
    }
}

/// A session seeded from the boundary of a freshly built working grid
/// stands exactly at [`initial_state`] of the occupancy.
pub proof fn lemma_initial_assembly(fm: FastMarcher, g: Grid, occ: Seq<bool>)
    requires
        g.storage@ == init_cells(occ, g.dims.0 as int, (g.dims.0 * g.dims.1) as nat),
        fm.spec_dims() == g.dims,
        fm.costs() == seeded_table(
            boundary_upto(g.storage@, g.dims.0 as int, g.dims.1 as int, g.dims.1 as int),
            g.dims.0 as int,
            (g.dims.0 * g.dims.1) as nat,
            boundary_upto(
                g.storage@,
                g.dims.0 as int,
                g.dims.1 as int,
                g.dims.1 as int,
            ).len() as int,
        ),
        fm.frontier_seq() == seed_queue(
            boundary_upto(g.storage@, g.dims.0 as int, g.dims.1 as int, g.dims.1 as int),
        ),
    ensures
        fm.state_with(g) == initial_state(occ, g.dims.0 as int, g.dims.1 as int),
{
    assert(fm.state_with(g) =~~= initial_state(occ, g.dims.0 as int, g.dims.1 as int));
}

/// One Eikonal relaxation value with its inherited source position.
fn update_pixel(u_h: Option<PixelAbs>, u_v: Option<PixelAbs>, speed: u64) -> (r: PixelAbs)
    requires
        u_h is Some || u_v is Some,
        u_h matches Some(a) ==> a.val <= CAP,
        u_v matches Some(b) ==> b.val <= CAP,
        speed <= CAP,
    ensures
        r.val == eikonal_spec(opt_val(u_h), opt_val(u_v), speed),
        r.abspos == update_src(u_h, u_v, speed),
        r.val <= CAP,
        u_h matches Some(a) ==> (u_v matches Some(b) ==> (r.val >= a.val || r.val >= b.val)),
        u_h matches Some(a) ==> (u_v is None ==> r.val >= a.val),
        u_v matches Some(b) ==> (u_h is None ==> r.val >= b.val),
{
    let hv: Option<u64> = match u_h {
        Some(a) => Some(a.val),
        None => None,
    };
    let vv: Option<u64> = match u_v {
        Some(b) => Some(b.val),
        None => None,
    };
    let val = eikonal_cost(hv, vv, speed);
    let abspos: GridPos = match (u_h, u_v) {
        (Some(a), Some(b)) => {
            let d: u64 = if a.val >= b.val {
                a.val - b.val
            } else {
                b.val - a.val
            };
            proof {
                assert(d * d <= 0xFFFF_FFFE_0000_0001) by (nonlinear_arith)
                    requires
                        d <= 0xFFFF_FFFF,
                ;
            }
            if d * d > 2 * speed * SCALE {
                if a.val < b.val {
                    a.abspos
                } else {
                    b.abspos
                }
            } else {
                if b.val < a.val {
                    b.abspos
                } else {
                    a.abspos
                }
            }
        },
        (Some(a), None) => a.abspos,
        (None, Some(b)) => b.abspos,
        (None, None) => (0, 0),
    };
    PixelAbs { val, abspos }
}

/// A steppable fast-marching session: a queue of candidates and the
/// authoritative cost table, both over a grid of fixed dimensions.
pub struct FastMarcher {
    next_cells: Vec<NextCell>,
    visited: Vec<PixelAbs>,
    dims: (usize, usize),
}

impl FastMarcher {
    /// The solver's invariant: table sized to the grid, every cost in range,
    /// every queue entry in bounds and pointing at a known cell.
    pub closed spec fn wf(self) -> bool {
        &&& self.visited@.len() == self.dims.0 * self.dims.1
        &&& self.visited@.len() <= MAX_CELLS
        &&& forall|i: int| 0 <= i < self.visited@.len() ==> cost_ok(#[trigger] self.visited@[i])
        &&& sources_ok(self.visited@, self.dims.0 as int, self.dims.1 as int)
        &&& forall|k: int|
            0 <= k < self.next_cells@.len() ==> entry_ok(
                #[trigger] self.next_cells@[k],
                self.visited@,
                self.dims.0 as int,
                self.dims.1 as int,
            )
    }

    /// The grid dimensions this session was started with.
    pub closed spec fn spec_dims(self) -> (usize, usize) {
        self.dims
    }

    /// The authoritative cost table.
    pub closed spec fn costs(self) -> Seq<PixelAbs> {
        self.visited@
    }

    /// How many entries the frontier queue holds.
    pub closed spec fn frontier_len(self) -> int {
        self.next_cells@.len() as int
    }

    /// The `k`-th frontier entry, as position, cost and source position.
    pub closed spec fn frontier_entry(self, k: int) -> (GridPos, u64, GridPos) {
        (self.next_cells@[k].pos, self.next_cells@[k].pixel.val, self.next_cells@[k].pixel.abspos)
    }

    /// The whole frontier queue.
    pub closed spec fn frontier_seq(self) -> Seq<NextCell> {
        self.next_cells@
    }

    /// The whole solver state over a grid, as the step functions see it.
    pub closed spec fn state_with(self, g: Grid) -> SolverState {
        SolverState { vis: self.visited@, cells: g.storage@, queue: self.next_cells@ }
    }

    /// What the solver state holds: the cost table, the grid cells, and the
    /// queue.
    pub proof fn lemma_state_with(self, g: Grid)
        ensures
            self.state_with(g).vis == self.costs(),
            self.state_with(g).cells == g.storage@,
            self.state_with(g).queue == self.frontier_seq(),
            self.state_with(g).queue.len() == self.frontier_len(),
            forall|k: int|
                0 <= k < self.frontier_len() ==> ((#[trigger] self.state_with(g).queue[k]).pos,
                self.state_with(g).queue[k].pixel.val,
                self.state_with(g).queue[k].pixel.abspos) == self.frontier_entry(k),
    {
    }

    /// Termination measure of the whole session.
    pub closed spec fn measure(self) -> int {
        5 * table_pot(self.visited@) + self.next_cells@.len()
    }

    /// The termination measure is never negative.
    pub proof fn lemma_measure_nonneg(self)
        ensures
            self.measure() >= 0,
    {
        lemma_table_pot_nonneg(self.visited@);
    }

    /// Every entry of a well-formed cost table is zero or a cost between
    /// [`SCALE`] and [`CAP`].
    pub proof fn lemma_costs_ok(self)
        requires
            self.wf(),
        ensures
            forall|i: int| 0 <= i < self.costs().len() ==> cost_ok(#[trigger] self.costs()[i]),
    {
    }

    /// Every known cost of a well-formed session records a seed-mark source.
    pub proof fn lemma_sources_ok(self)
        requires
            self.wf(),
        ensures
            sources_ok(self.costs(), self.spec_dims().0 as int, self.spec_dims().1 as int),
    {
    }

    /// The queue practices lazy deletion: every entry's cost snapshot is at
    /// least the authoritative cost of its cell, which is known and never
    /// rises. A popped minimum whose snapshot still equals the table is
    /// therefore the cheapest live candidate; a dearer snapshot is stale and
    /// discarded.
    pub proof fn lemma_frontier_fresh(self)
        requires
            self.wf(),
        ensures
            forall|k: int|
                0 <= k < self.frontier_len() ==> {
                    let e = #[trigger] self.frontier_entry(k);
                    let c = self.costs()[e.0.1 * self.spec_dims().0 + e.0.0];
                    c.val != 0 && c.val <= e.1
                },
    {
    }

    /// Starts a session seeded with the given cells, each with the initial
    /// cost [`SCALE`] and itself as source.
    pub fn new(next_cells: Vec<GridPos>, dims: (usize, usize)) -> (r: FastMarcher)
        requires
            dims.0 * dims.1 <= MAX_CELLS,
            forall|k: int|
                0 <= k < next_cells@.len() ==> (#[trigger] next_cells@[k]).0 < dims.0
                    && next_cells@[k].1 < dims.1,
        ensures
            r.wf(),
            r.spec_dims() == dims,
            r.frontier_len() == next_cells@.len(),
            forall|k: int|
                0 <= k < next_cells@.len() ==> #[trigger] r.frontier_entry(k) == (
                    next_cells@[k],
                    SCALE,
                    next_cells@[k],
                ),
            forall|i: int|
                0 <= i < r.costs().len() ==> ((#[trigger] r.costs()[i]).val == 0 || r.costs()[
                    i
                ].val == SCALE),
            forall|k: int|
                0 <= k < next_cells@.len() ==> r.costs()[(#[trigger] next_cells@[k]).1 * dims.0
                    + next_cells@[k].0].val == SCALE,
            r.costs() == seeded_table(
                next_cells@,
                dims.0 as int,
                (dims.0 * dims.1) as nat,
                next_cells@.len() as int,
            ),
            r.frontier_seq() == seed_queue(next_cells@),
    {
        let w = dims.0;
        let h = dims.1;
        proof {
            assert(w * h <= MAX_CELLS);
        }
        let len: usize = w * h;
        let mut visited: Vec<PixelAbs> = Vec::new();
        let mut i: usize = 0;
        while i < len
            invariant
                i <= len,
                visited@.len() == i,
                forall|j: int|
                    0 <= j < i ==> #[trigger] visited@[j] == (PixelAbs { val: 0, abspos: (0, 0) }),
            decreases len - i,
        {
            visited.push(PixelAbs { val: 0, abspos: (0, 0) });
            i += 1;
        }
        proof {
            assert(visited@ =~= seeded_table(next_cells@, w as int, len as nat, 0));
        }
        let mut queue: Vec<NextCell> = Vec::new();
        let mut k: usize = 0;
        while k < next_cells.len()
            invariant
                k <= next_cells@.len(),
                queue@.len() == k,
                visited@.len() == len,
                len == w * h <= MAX_CELLS,
                w == dims.0,
                h == dims.1,
                forall|k2: int|
                    0 <= k2 < next_cells@.len() ==> (#[trigger] next_cells@[k2]).0 < w
                        && next_cells@[k2].1 < h,
                forall|k2: int|
                    0 <= k2 < k ==> (#[trigger] queue@[k2]).pos == next_cells@[k2] && queue@[
                        k2
                    ].pixel.val == SCALE && queue@[k2].pixel.abspos == next_cells@[k2],
                forall|j: int|
                    0 <= j < len ==> ((#[trigger] visited@[j]).val == 0 || visited@[j].val
                        == SCALE),
                forall|j: int|
                    0 <= j < len && (#[trigger] visited@[j]).val != 0 ==> (visited@[j].abspos.1 * w
                        + visited@[j].abspos.0 == j && visited@[j].abspos.0 < w
                        && visited@[j].abspos.1 < h),
                forall|k2: int|
                    0 <= k2 < k ==> visited@[(#[trigger] next_cells@[k2]).1 * w + next_cells@[
                        k2
                    ].0].val == SCALE,
                visited@ == seeded_table(next_cells@, w as int, len as nat, k as int),
            decreases next_cells@.len() - k,
        {
            let pos = next_cells[k];
            proof {
                crate::exact_edt::lemma_row_fits(w as int, h as int, pos.1 as int, len as int);
            }
            let idx = pos.1 * w + pos.0;
            queue.push(NextCell { pos, pixel: PixelAbs { val: SCALE, abspos: pos } });
            visited[idx] = PixelAbs { val: SCALE, abspos: pos };
            proof {
                assert(visited@ == seeded_table(next_cells@, w as int, len as nat, k + 1));
                assert forall|k2: int|
                    0 <= k2 < k + 1 implies visited@[(#[trigger] next_cells@[k2]).1 * w
                    + next_cells@[k2].0].val == SCALE by {
                    crate::exact_edt::lemma_row_fits(
                        w as int,
                        h as int,
                        next_cells@[k2].1 as int,
                        len as int,
                    );
                }
            }
            k += 1;
        }
        let r = FastMarcher { next_cells: queue, visited, dims };
        proof {
            assert(r.next_cells@ =~= seed_queue(next_cells@));
            assert forall|i: int|
                0 <= i < r.visited@.len() && (#[trigger] r.visited@[i]).val != 0 implies {
                let p = r.visited@[i].abspos;
                &&& (p.0 as int) < w
                &&& (p.1 as int) < h
                &&& r.visited@[p.1 * w + p.0] == (PixelAbs { val: SCALE, abspos: p })
            } by {
                assert(r.visited@[i].abspos.1 * w + r.visited@[i].abspos.0 == i);
            }
            assert forall|k2: int|
                0 <= k2 < r.next_cells@.len() implies entry_ok(
                #[trigger] r.next_cells@[k2],
                r.visited@,
                w as int,
                h as int,
            ) by {
                crate::exact_edt::lemma_row_fits(
                    w as int,
                    h as int,
                    r.next_cells@[k2].pos.1 as int,
                    len as int,
                );
            }
        }
        r
    }

    /// Relaxes the cell at `(nx, ny)` from its known neighbours: computes the
    /// Eikonal value and, if it strictly improves the authoritative cost (or
    /// the cell is unknown) and the cell is of the propagating class, commits
    /// it to the table and the grid and enqueues the cell.
    #[verifier::rlimit(100)]
    #[verifier::spinoff_prover]
    fn relax(&mut self, grid: &mut Grid, speed_map: Option<&Grid>, nx: usize, ny: usize) -> (r:
        bool)
        requires
            old(self).wf(),
            grid_wf(*old(grid)),
            old(grid).dims == old(self).dims,
            speed_map matches Some(m) ==> grid_wf(*m) && m.dims == old(self).dims,
            nx < old(self).dims.0,
            ny < old(self).dims.1,
            (nx + 1 < old(self).dims.0 && old(self).visited@[ny * old(self).dims.0 + nx + 1].val
                != 0) || (nx >= 1 && old(self).visited@[ny * old(self).dims.0 + nx - 1].val != 0)
                || (ny + 1 < old(self).dims.1 && old(self).visited@[(ny + 1) * old(self).dims.0
                + nx].val != 0) || (ny >= 1 && old(self).visited@[(ny - 1) * old(self).dims.0
                + nx].val != 0),
        ensures
            final(self).wf(),
            final(self).dims == old(self).dims,
            grid_wf(*final(grid)),
            final(grid).dims == old(grid).dims,
            monotone_step(old(self).visited@, final(self).visited@),
            forall|i: int|
                0 <= i < old(grid).storage@.len() && (#[trigger] final(grid).storage@[i]) != old(
                    grid,
                ).storage@[i] ==> old(grid).storage@[i].val != 0 && final(grid).storage@[i].val
                    >= SCALE,
            !r ==> *final(self) == *old(self) && final(grid).storage@ == old(grid).storage@,
            r ==> table_pot(final(self).visited@) <= table_pot(old(self).visited@) - 1,
            r ==> final(self).next_cells@.len() == old(self).next_cells@.len() + 1,
            forall|i: int|
                0 <= i < old(self).visited@.len() && (#[trigger] final(self).visited@[i]) == old(
                    self,
                ).visited@[i] ==> final(grid).storage@[i] == old(grid).storage@[i],
            forall|i: int|
                0 <= i < old(self).visited@.len() && (#[trigger] final(self).visited@[i]) != old(
                    self,
                ).visited@[i] ==> final(self).visited@[i].val != 0 && (old(self).visited@[i].val
                    == 0 || final(self).visited@[i].val < old(self).visited@[i].val),
            (SolverState {
                vis: final(self).visited@,
                cells: final(grid).storage@,
                queue: final(self).next_cells@,
            }) == step_relax(
                (SolverState {
                    vis: old(self).visited@,
                    cells: old(grid).storage@,
                    queue: old(self).next_cells@,
                }),
                speed_map,
                old(self).dims.0 as int,
                old(self).dims.1 as int,
                nx as int,
                ny as int,
            ),
            forall|i: int|
                0 <= i < old(grid).storage@.len() && old(grid).storage@[i].val == 0 ==> (
                #[trigger] final(self).visited@[i]) == old(self).visited@[i],
            forall|i: int|
                0 <= i < old(self).visited@.len() && (#[trigger] final(self).visited@[i]) != old(
                    self,
                ).visited@[i] ==> final(grid).storage@[i] == final(self).visited@[i],
    {
        let w = self.dims.0;
        let h = self.dims.1;
        let ghost len = self.visited@.len();
        let ghost st0 = SolverState { vis: self.visited@, cells: grid.storage@, queue: self.next_cells@ };
        proof {
            crate::exact_edt::lemma_row_fits(w as int, h as int, ny as int, len as int);
        }
        let idx = ny * w + nx;
        let zero = PixelAbs { val: 0, abspos: (0, 0) };
        let rgt = if nx + 1 < w {
            self.visited[idx + 1]
        } else {
            zero
        };
        let lft = if nx >= 1 {
            self.visited[idx - 1]
        } else {
            zero
        };
        let dwn = if ny + 1 < h {
            proof {
                crate::exact_edt::lemma_row_fits(w as int, h as int, (ny + 1) as int, len as int);
                assert((ny + 1) * w + nx == ny * w + nx + w) by (nonlinear_arith);
            }
            self.visited[idx + w]
        } else {
            zero
        };
        let up = if ny >= 1 {
            proof {
                assert((ny - 1) * w + nx == ny * w + nx - w && w <= ny * w) by (nonlinear_arith)
                    requires
                        1 <= ny,
                        0 <= w,
                ;
            }
            self.visited[idx - w]
        } else {
            zero
        };
        let u_h = axis_min(rgt, lft);
        let u_v = axis_min(dwn, up);
        proof {
            if ny + 1 < h {
                assert((ny + 1) * w + nx == ny * w + nx + w) by (nonlinear_arith);
            }
            if ny >= 1 {
                assert((ny - 1) * w + nx == ny * w + nx - w) by (nonlinear_arith)
                    requires
                        1 <= ny,
                        0 <= w,
                ;
            }
            assert(u_h is Some || u_v is Some);
        }
        let speed: u64 = match speed_map {
            Some(m) => {
                let sv = m.storage[idx].val;
                if sv > CAP {
                    CAP
                } else {
                    sv
                }
            },
            None => SCALE,
        };
        let np = update_pixel(u_h, u_v, speed);
        proof {
            assert(np.val >= SCALE);
            if ny + 1 < h {
                assert((ny + 1) * w + nx == ny * w + nx + w) by (nonlinear_arith);
            }
            if ny >= 1 {
                assert((ny - 1) * w + nx == ny * w + nx - w) by (nonlinear_arith)
                    requires
                        1 <= ny,
                        0 <= w,
                ;
            }
            assert(rgt == neighbor_pixel(st0.vis, w as int, h as int, nx + 1, ny as int));
            assert(lft == neighbor_pixel(st0.vis, w as int, h as int, nx - 1, ny as int));
            assert(dwn == neighbor_pixel(st0.vis, w as int, h as int, nx as int, ny + 1));
            assert(up == neighbor_pixel(st0.vis, w as int, h as int, nx as int, ny - 1));
            assert(speed == clamped_speed(speed_map, ny * w + nx));
            assert(np == relax_pixel(st0.vis, w as int, h as int, nx as int, ny as int, speed));
        }
        let cur = self.visited[idx];
        if (cur.val == 0 || np.val < cur.val) && grid.storage[idx].val != 0 {
            let ghost oldvis = self.visited@;
            let ghost oldq = self.next_cells@;
            self.visited[idx] = np;
            grid.storage[idx] = np;
            self.next_cells.push(NextCell { pos: (nx, ny), pixel: np });
            proof {
                lemma_table_pot_update(oldvis, idx as int, np);
                assert forall|i: int| 0 <= i < len implies cost_ok(#[trigger] self.visited@[i]) by {
                    if i != idx {
                        assert(self.visited@[i] == oldvis[i]);
                    }
                }
                assert forall|i: int|
                    0 <= i < len && (#[trigger] self.visited@[i]).val != 0 implies {
                    let p = self.visited@[i].abspos;
                    &&& (p.0 as int) < w
                    &&& (p.1 as int) < h
                    &&& self.visited@[p.1 * w + p.0] == (PixelAbs { val: SCALE, abspos: p })
                } by {
                    if ny + 1 < h {
                        assert((ny + 1) * w + nx == ny * w + nx + w) by (nonlinear_arith);
                        crate::exact_edt::lemma_row_fits(
                            w as int,
                            h as int,
                            (ny + 1) as int,
                            len as int,
                        );
                    }
                    if ny >= 1 {
                        assert((ny - 1) * w + nx == ny * w + nx - w && w <= ny * w)
                            by (nonlinear_arith)
                            requires
                                1 <= ny,
                                0 <= w,
                        ;
                    }
                    let src = if i == idx {
                        // the written pixel inherits a known neighbour's source
                        assert((np.abspos == rgt.abspos && rgt.val != 0) || (np.abspos
                            == lft.abspos && lft.val != 0) || (np.abspos == dwn.abspos && dwn.val
                            != 0) || (np.abspos == up.abspos && up.val != 0));
                        if np.abspos == rgt.abspos && rgt.val != 0 {
                            assert(rgt == oldvis[idx + 1]);
                            idx as int + 1
                        } else if np.abspos == lft.abspos && lft.val != 0 {
                            assert(lft == oldvis[idx - 1]);
                            idx as int - 1
                        } else if np.abspos == dwn.abspos && dwn.val != 0 {
                            assert(dwn == oldvis[idx + w]);
                            idx as int + w as int
                        } else {
                            assert(up == oldvis[idx - w]);
                            idx as int - w as int
                        }
                    } else {
                        i
                    };
                    assert(oldvis[src].val != 0);
                    assert(self.visited@[i].abspos == oldvis[src].abspos);
                    let p = oldvis[src].abspos;
                    crate::exact_edt::lemma_row_fits(w as int, h as int, p.1 as int, len as int);
                    assert(oldvis[p.1 * w + p.0] == (PixelAbs { val: SCALE, abspos: p }));
                    if p.1 * w + p.0 == idx {
                        // a seed-mark cell is never overwritten
                        assert(cur == (PixelAbs { val: SCALE, abspos: p }));
                        assert(false);
                    }
                    assert(self.visited@[p.1 * w + p.0] == oldvis[p.1 * w + p.0]);
                }
                assert forall|k: int|
                    0 <= k < self.next_cells@.len() implies entry_ok(
                    #[trigger] self.next_cells@[k],
                    self.visited@,
                    w as int,
                    h as int,
                ) by {
                    if k < oldq.len() {
                        assert(oldq[k] == self.next_cells@[k]);
                        assert(entry_ok(oldq[k], oldvis, w as int, h as int));
                        let p = oldq[k].pos;
                        crate::exact_edt::lemma_row_fits(w as int, h as int, p.1 as int, len as int);
                        if p.1 * w + p.0 == idx {
                            assert(self.visited@[idx as int].val != 0);
                            assert(self.visited@[idx as int].val <= oldq[k].pixel.val);
                        } else {
                            assert(self.visited@[p.1 * w + p.0] == oldvis[p.1 * w + p.0]);
                        }
                    } else {
                        crate::exact_edt::lemma_row_fits(w as int, h as int, ny as int, len as int);
                    }
                }
            }
            proof {
                reveal(step_relax);
                let stf = SolverState {
                    vis: self.visited@,
                    cells: grid.storage@,
                    queue: self.next_cells@,
                };
                assert(stf =~~= step_relax(
                    st0,
                    speed_map,
                    w as int,
                    h as int,
                    nx as int,
                    ny as int,
                ));
            }
            true
        } else {
            proof {
                reveal(step_relax);
                let stf = SolverState {
                    vis: self.visited@,
                    cells: grid.storage@,
                    queue: self.next_cells@,
                };
                assert(stf =~~= step_relax(
                    st0,
                    speed_map,
                    w as int,
                    h as int,
                    nx as int,
                    ny as int,
                ));
            }
            false
        }
    }
}

impl FastMarcher {
    /// Starts a session seeded from the boundary cells of `grid`.
    pub(crate) fn new_from_map(grid: &Grid, dims: (usize, usize)) -> (r: FastMarcher)
        requires
            grid_wf(*grid),
            grid.dims == dims,
        ensures
            r.wf(),
            r.spec_dims() == dims,
            r.costs().len() == grid.storage@.len(),
            forall|j: int|
                0 <= j < boundary_upto(
                    grid.storage@,
                    dims.0 as int,
                    dims.1 as int,
                    dims.1 as int,
                ).len() ==> r.costs()[(#[trigger] boundary_upto(
                    grid.storage@,
                    dims.0 as int,
                    dims.1 as int,
                    dims.1 as int,
                )[j]).1 * dims.0 + boundary_upto(
                    grid.storage@,
                    dims.0 as int,
                    dims.1 as int,
                    dims.1 as int,
                )[j].0].val == SCALE,
            r.costs() == seeded_table(
                boundary_upto(grid.storage@, dims.0 as int, dims.1 as int, dims.1 as int),
                dims.0 as int,
                (dims.0 * dims.1) as nat,
                boundary_upto(
                    grid.storage@,
                    dims.0 as int,
                    dims.1 as int,
                    dims.1 as int,
                ).len() as int,
            ),
            r.frontier_seq() == seed_queue(
                boundary_upto(grid.storage@, dims.0 as int, dims.1 as int, dims.1 as int),
            ),
    {
        FastMarcher::new(grid.find_boundary(), dims)
    }

    /// Relaxes the four neighbours of the popped cell `(px, py)`; reports
    /// whether any cell improved.
    #[verifier::rlimit(100)]
    #[verifier::spinoff_prover]
    fn relax_neighbors(&mut self, grid: &mut Grid, speed_map: Option<&Grid>, px: usize, py: usize)
        -> (r: bool)
        requires
            old(self).wf(),
            grid_wf(*old(grid)),
            old(grid).dims == old(self).dims,
            speed_map matches Some(m) ==> grid_wf(*m) && m.dims == old(self).dims,
            px < old(self).dims.0,
            py < old(self).dims.1,
            old(self).visited@[py * old(self).dims.0 + px].val != 0,
        ensures
            final(self).wf(),
            final(self).dims == old(self).dims,
            grid_wf(*final(grid)),
            final(grid).dims == old(grid).dims,
            monotone_step(old(self).visited@, final(self).visited@),
            forall|i: int|
                0 <= i < old(grid).storage@.len() && (#[trigger] final(grid).storage@[i]) != old(
                    grid,
                ).storage@[i] ==> old(grid).storage@[i].val != 0 && final(grid).storage@[i].val
                    >= SCALE,
            !r ==> *final(self) == *old(self) && final(grid).storage@ == old(grid).storage@,
            r ==> 5 * table_pot(final(self).visited@) + final(self).next_cells@.len() <= 5
                * table_pot(old(self).visited@) + old(self).next_cells@.len() - 4,
            (SolverState {
                vis: final(self).visited@,
                cells: final(grid).storage@,
                queue: final(self).next_cells@,
            }) == step_neighbors(
                (SolverState {
                    vis: old(self).visited@,
                    cells: old(grid).storage@,
                    queue: old(self).next_cells@,
                }),
                speed_map,
                old(self).dims.0 as int,
                old(self).dims.1 as int,
                px as int,
                py as int,
            ),
            r == (final(self).next_cells@.len() != old(self).next_cells@.len()),
            final(self).next_cells@.len() >= old(self).next_cells@.len(),
            forall|i: int|
                0 <= i < old(self).visited@.len() && (#[trigger] final(self).visited@[i]) == old(
                    self,
                ).visited@[i] ==> final(grid).storage@[i] == old(grid).storage@[i],
            forall|i: int|
                0 <= i < old(self).visited@.len() && (#[trigger] final(self).visited@[i]) != old(
                    self,
                ).visited@[i] ==> final(self).visited@[i].val != 0 && (old(self).visited@[i].val
                    == 0 || final(self).visited@[i].val < old(self).visited@[i].val),
            forall|i: int|
                0 <= i < old(grid).storage@.len() && old(grid).storage@[i].val == 0 ==> (
                #[trigger] final(self).visited@[i]) == old(self).visited@[i],
            forall|i: int|
                0 <= i < old(self).visited@.len() && (#[trigger] final(self).visited@[i]) != old(
                    self,
                ).visited@[i] ==> final(grid).storage@[i] == final(self).visited@[i],
    {
        let w = self.dims.0;
        let h = self.dims.1;
        let ghost vis0 = self.visited@;
        let ghost g0 = grid.storage@;
        let ghost pot0 = table_pot(self.visited@);
        let ghost len0 = self.next_cells@.len() as int;
        let ghost s0 = SolverState { vis: self.visited@, cells: grid.storage@, queue: self.next_cells@ };
        proof {
            crate::exact_edt::lemma_row_fits(w as int, h as int, py as int, vis0.len() as int);
        }
        let mut f = false;
        if px >= 1 {
            let r1 = self.relax(grid, speed_map, px - 1, py);
            f = f || r1;
        }
        proof {
            assert(5 * table_pot(self.visited@) + self.next_cells@.len() <= 5 * pot0 + len0 - (
            if f {
                4int
            } else {
                0int
            }));
        }
        let ghost vis1 = self.visited@;
        let ghost g1 = grid.storage@;
        let ghost s1 = SolverState { vis: self.visited@, cells: grid.storage@, queue: self.next_cells@ };
        if py >= 1 {
            proof {
                assert((py - 1) * w + px == py * w + px - w && w <= py * w) by (nonlinear_arith)
                    requires
                        1 <= py,
                        0 <= w,
                ;
                assert(self.visited@[py * w + px].val != 0);
            }
            let r2 = self.relax(grid, speed_map, px, py - 1);
            f = f || r2;
        }
        proof {
            lemma_monotone_trans(vis0, vis1, self.visited@);
            assert(5 * table_pot(self.visited@) + self.next_cells@.len() <= 5 * pot0 + len0 - (
            if f {
                4int
            } else {
                0int
            }));
        }
        let ghost vis2 = self.visited@;
        let ghost g2 = grid.storage@;
        let ghost s2 = SolverState { vis: self.visited@, cells: grid.storage@, queue: self.next_cells@ };
        if px + 1 < w {
            proof {
                assert(self.visited@[py * w + px].val != 0);
            }
            let r3 = self.relax(grid, speed_map, px + 1, py);
            f = f || r3;
        }
        proof {
            lemma_monotone_trans(vis0, vis2, self.visited@);
            assert(5 * table_pot(self.visited@) + self.next_cells@.len() <= 5 * pot0 + len0 - (
            if f {
                4int
            } else {
                0int
            }));
        }
        let ghost vis3 = self.visited@;
        let ghost g3 = grid.storage@;
        let ghost s3 = SolverState { vis: self.visited@, cells: grid.storage@, queue: self.next_cells@ };
        if py + 1 < h {
            proof {
                assert((py + 1) * w + px == py * w + px + w) by (nonlinear_arith);
                assert(self.visited@[py * w + px].val != 0);
            }
            let r4 = self.relax(grid, speed_map, px, py + 1);
            f = f || r4;
        }
        proof {
            lemma_monotone_trans(vis0, vis3, self.visited@);
            lemma_monotone_trans(vis1, vis2, vis3);
            lemma_monotone_trans(vis1, vis3, self.visited@);
            lemma_monotone_trans(vis2, vis3, self.visited@);
            assert forall|i: int|
                0 <= i < vis0.len() && (#[trigger] self.visited@[i]) != vis0[i] implies self.visited@[
                i
            ].val != 0 && (vis0[i].val == 0 || self.visited@[i].val < vis0[i].val) by {
                if vis1[i] != vis0[i] {
                    assert(vis1[i].val != 0 && (vis0[i].val == 0 || vis1[i].val < vis0[i].val));
                    assert(self.visited@[i].val != 0 && self.visited@[i].val <= vis1[i].val);
                } else if vis2[i] != vis1[i] {
                    assert(vis2[i].val != 0 && (vis1[i].val == 0 || vis2[i].val < vis1[i].val));
                    assert(self.visited@[i].val != 0 && self.visited@[i].val <= vis2[i].val);
                } else if vis3[i] != vis2[i] {
                    assert(vis3[i].val != 0 && (vis2[i].val == 0 || vis3[i].val < vis2[i].val));
                    assert(self.visited@[i].val != 0 && self.visited@[i].val <= vis3[i].val);
                } else {
                    assert(self.visited@[i].val != 0 && (vis3[i].val == 0 || self.visited@[i].val
                        < vis3[i].val));
                }
            }
            assert forall|i: int|
                0 <= i < vis0.len() && (#[trigger] self.visited@[i]) == vis0[i] implies grid.storage@[
                i
            ] == g0[i] by {
                if vis1[i] != vis0[i] {
                    assert(vis1[i].val != 0 && (vis0[i].val == 0 || vis1[i].val < vis0[i].val));
                    assert(self.visited@[i].val != 0 && self.visited@[i].val <= vis1[i].val);
                    assert(false);
                }
                if vis2[i] != vis1[i] {
                    assert(vis2[i].val != 0 && (vis1[i].val == 0 || vis2[i].val < vis1[i].val));
                    assert(self.visited@[i].val != 0 && self.visited@[i].val <= vis2[i].val);
                    assert(false);
                }
                if vis3[i] != vis2[i] {
                    assert(vis3[i].val != 0 && (vis2[i].val == 0 || vis3[i].val < vis2[i].val));
                    assert(self.visited@[i].val != 0 && self.visited@[i].val <= vis3[i].val);
                    assert(false);
                }
                assert(self.visited@[i] == vis3[i]);
                assert(grid.storage@[i] == g3[i]);
                assert(g3[i] == g2[i] && g2[i] == g1[i] && g1[i] == g0[i]);
            }
            assert forall|i: int|
                0 <= i < vis0.len() && (#[trigger] self.visited@[i]) != vis0[i] implies grid.storage@[
                i
            ] == self.visited@[i] by {
                if self.visited@[i] != vis3[i] {
                } else if vis3[i] != vis2[i] {
                    assert(g3[i] == vis3[i]);
                    assert(self.visited@[i] == vis3[i]);
                    assert(grid.storage@[i] == g3[i]);
                } else if vis2[i] != vis1[i] {
                    assert(g2[i] == vis2[i]);
                    assert(vis3[i] == vis2[i] && self.visited@[i] == vis3[i]);
                    assert(g3[i] == g2[i] && grid.storage@[i] == g3[i]);
                } else {
                    assert(vis1[i] != vis0[i]);
                    assert(g1[i] == vis1[i]);
                    assert(vis2[i] == vis1[i] && vis3[i] == vis2[i] && self.visited@[i] == vis3[i]);
                    assert(g2[i] == g1[i] && g3[i] == g2[i] && grid.storage@[i] == g3[i]);
                }
            }
            assert forall|i: int|
                0 <= i < g0.len() && g0[i].val == 0 implies (#[trigger] self.visited@[i]) == vis0[
                i
            ] by {
                assert(vis1[i] == vis0[i]);
                assert(g1[i] == g0[i]);
                assert(vis2[i] == vis1[i]);
                assert(g2[i] == g1[i]);
                assert(vis3[i] == vis2[i]);
                assert(g3[i] == g2[i]);
                assert(self.visited@[i] == vis3[i]);
            }
            assert forall|i: int|
                0 <= i < g0.len() && (#[trigger] grid.storage@[i]) != g0[i] implies g0[i].val != 0
                && grid.storage@[i].val >= SCALE by {
                if grid.storage@[i] != g3[i] {
                    if g3[i] != g0[i] {
                        if g2[i] != g0[i] {
                            if g1[i] != g0[i] {
                            }
                        }
                    }
                } else {
                    if g3[i] != g2[i] {
                    } else {
                        if g2[i] != g1[i] {
                        }
                    }
                }
            }
            reveal(step_neighbors);
            let stf = SolverState {
                vis: self.visited@,
                cells: grid.storage@,
                queue: self.next_cells@,
            };
            assert(s1 == (if px >= 1 {
                step_relax(s0, speed_map, w as int, h as int, px - 1, py as int)
            } else {
                s0
            }));
            assert(s2 == (if py >= 1 {
                step_relax(s1, speed_map, w as int, h as int, px as int, py - 1)
            } else {
                s1
            }));
            assert(s3 == (if px + 1 < w {
                step_relax(s2, speed_map, w as int, h as int, px + 1, py as int)
            } else {
                s2
            }));
            assert(stf == (if py + 1 < h {
                step_relax(s3, speed_map, w as int, h as int, px as int, py + 1)
            } else {
                s3
            }));
            assert(stf == step_neighbors(s0, speed_map, w as int, h as int, px as int, py as int));
            assert(f == (self.next_cells@.len() != s0.queue.len()));
        }
        f
    }

    /// One freeze event: pops candidates, discarding stale or opposite-class
    /// entries, until one pop improves a neighbour. Returns whether any cell
    /// changed; `false` means the queue is exhausted and the field is final.
    #[verifier::rlimit(100)]
    #[verifier::spinoff_prover]
    pub fn evolve_single(&mut self, grid: &mut Grid, speed_map: Option<&Grid>) -> (progress: bool)
        requires
            old(self).wf(),
            grid_wf(*old(grid)),
            old(grid).dims == old(self).spec_dims(),
            speed_map matches Some(m) ==> grid_wf(*m) && m.dims == old(self).spec_dims(),
        ensures
            final(self).wf(),
            final(self).spec_dims() == old(self).spec_dims(),
            grid_wf(*final(grid)),
            final(grid).dims == old(grid).dims,
            monotone_step(old(self).costs(), final(self).costs()),
            forall|i: int|
                0 <= i < old(grid).storage@.len() && (#[trigger] final(grid).storage@[i]) != old(
                    grid,
                ).storage@[i] ==> old(grid).storage@[i].val != 0 && final(grid).storage@[i].val
                    >= SCALE,
            !progress ==> final(self).frontier_len() == 0 && final(self).costs() == old(
                self,
            ).costs() && final(grid).storage@ == old(grid).storage@,
            progress ==> final(self).measure() < old(self).measure(),
            final(self).measure() <= old(self).measure(),
            forall|i: int|
                0 <= i < old(self).costs().len() && (#[trigger] final(self).costs()[i]) == old(
                    self,
                ).costs()[i] ==> final(grid).storage@[i] == old(grid).storage@[i],
            forall|i: int|
                0 <= i < old(self).costs().len() && (#[trigger] final(self).costs()[i]) != old(
                    self,
                ).costs()[i] ==> final(self).costs()[i].val != 0 && (old(self).costs()[i].val == 0
                    || final(self).costs()[i].val < old(self).costs()[i].val),
            final(self).state_with(*final(grid)) == (step_single(
                old(self).state_with(*old(grid)),
                speed_map,
                old(self).spec_dims().0 as int,
                old(self).spec_dims().1 as int,
            ).0),
            progress == (step_single(
                old(self).state_with(*old(grid)),
                speed_map,
                old(self).spec_dims().0 as int,
                old(self).spec_dims().1 as int,
            ).1),
            forall|i: int|
                0 <= i < old(grid).storage@.len() && old(grid).storage@[i].val == 0 ==> (
                #[trigger] final(self).costs()[i]) == old(self).costs()[i],
            forall|i: int|
                0 <= i < old(self).costs().len() && (#[trigger] final(self).costs()[i]) != old(
                    self,
                ).costs()[i] ==> final(grid).storage@[i] == final(self).costs()[i],
            progress ==> final(self).frontier_len() > 0,
    {
        let w = self.dims.0;
        let h = self.dims.1;
        let ghost vis0 = self.visited@;
        let ghost g0 = grid.storage@;
        let ghost s_init = self.state_with(*grid);
        let ghost len_0 = old(self).next_cells@.len() as int;
        while self.next_cells.len() > 0
            invariant
                self.wf(),
                self.dims == old(self).dims,
                w == self.dims.0,
                h == self.dims.1,
                self.visited@ == vis0,
                vis0 == old(self).visited@,
                grid.storage@ == g0,
                g0 == old(grid).storage@,
                grid.dims == old(grid).dims,
                grid.dims == self.dims,
                grid.storage@.len() == self.visited@.len(),
                grid_wf(*grid),
                speed_map matches Some(m) ==> grid_wf(*m) && m.dims == self.dims,
                self.next_cells@.len() <= len_0,
                len_0 == old(self).next_cells@.len(),
                s_init == old(self).state_with(*old(grid)),
                step_single(s_init, speed_map, w as int, h as int) == step_single(
                    self.state_with(*grid),
                    speed_map,
                    w as int,
                    h as int,
                ),
            decreases self.next_cells@.len(),
        {
            // find the cheapest candidate
            let mut mi: usize = 0;
            let mut k: usize = 1;
            while k < self.next_cells.len()
                invariant
                    mi < self.next_cells@.len(),
                    1 <= k <= self.next_cells@.len(),
                    self.next_cells@.len() > 0,
                    mi as int == min_index(self.next_cells@, k as int),
                    forall|j: int|
                        0 <= j < k ==> self.next_cells@[mi as int].pixel.val <= (
                        #[trigger] self.next_cells@[j]).pixel.val,
                decreases self.next_cells@.len() - k,
            {
                if self.next_cells[k].pixel.val < self.next_cells[mi].pixel.val {
                    mi = k;
                }
                k += 1;
            }
            proof {
                assert(mi as int == min_index(self.next_cells@, self.next_cells@.len() as int));
            }
            let ghost s_cur = self.state_with(*grid);
            let ghost q0 = self.next_cells@;
            let cell = self.next_cells.swap_remove(mi);
            proof {
                assert forall|k2: int|
                    0 <= k2 < self.next_cells@.len() implies entry_ok(
                    #[trigger] self.next_cells@[k2],
                    self.visited@,
                    w as int,
                    h as int,
                ) by {
                    if k2 == mi {
                        assert(self.next_cells@[k2] == q0[q0.len() - 1]);
                    } else {
                        assert(self.next_cells@[k2] == q0[k2]);
                    }
                }
            }
            let (px, py) = cell.pos;
            proof {
                assert(entry_ok(cell, self.visited@, w as int, h as int));
                crate::exact_edt::lemma_row_fits(
                    w as int,
                    h as int,
                    py as int,
                    self.visited@.len() as int,
                );
            }
            let idx = py * w + px;
            let ghost s_popped = self.state_with(*grid);
            proof {
                assert(s_popped == SolverState {
                    vis: s_cur.vis,
                    cells: s_cur.cells,
                    queue: s_cur.queue.update(mi as int, s_cur.queue.last()).drop_last(),
                });
            }
            // a stale snapshot or an opposite-class cell is discarded
            if cell.pixel.val > self.visited[idx].val {
                proof {
                    reveal(step_single);
                    assert(step_single(s_cur, speed_map, w as int, h as int) == step_single(
                        s_popped,
                        speed_map,
                        w as int,
                        h as int,
                    ));
                }
                continue ;
            }
            if grid.storage[idx].val == 0 {
                proof {
                    reveal(step_single);
                    assert(step_single(s_cur, speed_map, w as int, h as int) == step_single(
                        s_popped,
                        speed_map,
                        w as int,
                        h as int,
                    ));
                }
                continue ;
            }
            let f = self.relax_neighbors(grid, speed_map, px, py);
            proof {
                assert(self.state_with(*grid) == step_neighbors(
                    s_popped,
                    speed_map,
                    w as int,
                    h as int,
                    px as int,
                    py as int,
                ));
            }
            if f {
                proof {
                    assert(5 * table_pot(self.visited@) + self.next_cells@.len() <= 5 * table_pot(
                        vis0,
                    ) + len_0 - 5);
                    reveal(step_single);
                    assert(step_single(s_cur, speed_map, w as int, h as int) == (
                        self.state_with(*grid),
                        true,
                    ));
                    assert(self.next_cells@.len() > 0);
                }
                return true;
            }
            proof {
                reveal(step_single);
                assert(step_single(s_cur, speed_map, w as int, h as int) == step_single(
                    s_popped,
                    speed_map,
                    w as int,
                    h as int,
                ));
            }
        }
        proof {
            reveal(step_single);
        }
        false
    }

    /// Runs up to `steps` freeze events. Returns whether more work may
    /// remain; `false` means the queue was exhausted within the budget.
    pub fn evolve(&mut self, grid: &mut Grid, steps: usize) -> (more: bool)
        requires
            old(self).wf(),
            grid_wf(*old(grid)),
            old(grid).dims == old(self).spec_dims(),
        ensures
            final(self).wf(),
            final(self).spec_dims() == old(self).spec_dims(),
            grid_wf(*final(grid)),
            final(grid).dims == old(grid).dims,
            monotone_step(old(self).costs(), final(self).costs()),
            forall|i: int|
                0 <= i < old(grid).storage@.len() && (#[trigger] final(grid).storage@[i]) != old(
                    grid,
                ).storage@[i] ==> old(grid).storage@[i].val != 0 && final(grid).storage@[i].val
                    >= SCALE,
            forall|i: int|
                0 <= i < old(self).costs().len() && (#[trigger] final(self).costs()[i]) != old(
                    self,
                ).costs()[i] ==> final(self).costs()[i].val != 0 && (old(self).costs()[i].val == 0
                    || final(self).costs()[i].val < old(self).costs()[i].val),
            !more ==> final(self).frontier_len() == 0,
            steps == 0 ==> more,
            steps > 0 ==> (more <==> final(self).frontier_len() != 0),
            final(self).state_with(*final(grid)) == step_many(
                old(self).state_with(*old(grid)),
                None,
                old(self).spec_dims().0 as int,
                old(self).spec_dims().1 as int,
                steps as nat,
            ),
    {
        let ghost s0 = self.state_with(*grid);
        let ghost gw = self.dims.0 as int;
        let ghost gh = self.dims.1 as int;
        proof {
            reveal(step_many);
            assert(self.state_with(*grid) == step_many(s0, None, gw, gh, 0nat));
        }
        let mut i: usize = 0;
        while i < steps
            invariant
                i <= steps,
                self.wf(),
                self.spec_dims() == old(self).spec_dims(),
                grid_wf(*grid),
                grid.dims == old(grid).dims,
                grid.dims == self.spec_dims(),
                grid.storage@.len() == old(grid).storage@.len(),
                self.costs().len() == old(self).costs().len(),
                monotone_step(old(self).costs(), self.costs()),
                forall|j: int|
                    0 <= j < old(grid).storage@.len() && (#[trigger] grid.storage@[j]) != old(
                        grid,
                    ).storage@[j] ==> old(grid).storage@[j].val != 0 && grid.storage@[j].val
                        >= SCALE,
                forall|j: int|
                    0 <= j < old(self).costs().len() && (#[trigger] self.costs()[j]) != old(
                        self,
                    ).costs()[j] ==> self.costs()[j].val != 0 && (old(self).costs()[j].val == 0
                        || self.costs()[j].val < old(self).costs()[j].val),
                s0 == old(self).state_with(*old(grid)),
                gw == old(self).spec_dims().0 as int,
                gh == old(self).spec_dims().1 as int,
                self.state_with(*grid) == step_many(s0, None, gw, gh, i as nat),
                i > 0 ==> self.frontier_len() > 0,
            decreases steps - i,
        {
            let ghost vis_before = self.costs();
            let ghost g_before = grid.storage@;
            let more = self.evolve_single(grid, None);
            proof {
                lemma_monotone_trans(old(self).costs(), vis_before, self.costs());
                lemma_step_many_snoc(s0, None, gw, gh, i as nat);
                assert(self.state_with(*grid) == step_many(s0, None, gw, gh, (i + 1) as nat));
                assert forall|j: int|
                    0 <= j < old(self).costs().len() && (#[trigger] self.costs()[j]) != old(
                        self,
                    ).costs()[j] implies self.costs()[j].val != 0 && (old(self).costs()[j].val
                    == 0 || self.costs()[j].val < old(self).costs()[j].val) by {
                    if vis_before[j] != old(self).costs()[j] {
                        assert(vis_before[j].val != 0 && (old(self).costs()[j].val == 0
                            || vis_before[j].val < old(self).costs()[j].val));
                        assert(self.costs()[j].val != 0 && self.costs()[j].val <= vis_before[
                            j
                        ].val);
                    } else {
                        assert(self.costs()[j].val != 0 && (vis_before[j].val == 0
                            || self.costs()[j].val < vis_before[j].val));
                    }
                }
                assert forall|j: int|
                    0 <= j < old(grid).storage@.len() && (#[trigger] grid.storage@[j]) != old(
                        grid,
                    ).storage@[j] implies old(grid).storage@[j].val != 0 && grid.storage@[j].val
                    >= SCALE by {
                    if grid.storage@[j] != g_before[j] {
                        assert(g_before[j].val != 0 && grid.storage@[j].val >= SCALE);
                        if g_before[j] != old(grid).storage@[j] {
                            assert(old(grid).storage@[j].val != 0);
                        }
                    } else {
                        assert(g_before[j] != old(grid).storage@[j]);
                        assert(old(grid).storage@[j].val != 0 && g_before[j].val >= SCALE);
                    }
                }
            }
            if !more {
                proof {
                    lemma_step_many_add(s0, None, gw, gh, (i + 1) as nat, (steps - i - 1) as nat);
                    lemma_step_many_stable(
                        step_many(s0, None, gw, gh, (i + 1) as nat),
                        None,
                        gw,
                        gh,
                        (steps - i - 1) as nat,
                    );
                }
                return false;
            }
            i += 1;
        }
        true
    }

    /// The positions currently enqueued, in queue order; the expanding
    /// wavefront can be examined through them.
    pub fn iter_cells(&self) -> (r: Vec<GridPos>)
        ensures
            r@.len() == self.frontier_len(),
            forall|k: int| 0 <= k < r@.len() ==> #[trigger] r@[k] == self.frontier_entry(k).0,
    {
        let mut r: Vec<GridPos> = Vec::new();
        let mut k: usize = 0;
        while k < self.next_cells.len()
            invariant
                k <= self.next_cells@.len(),
                r@.len() == k,
                forall|j: int| 0 <= j < k ==> #[trigger] r@[j] == self.frontier_entry(j).0,
            decreases self.next_cells@.len() - k,
        {
            r.push(self.next_cells[k].pos);
            k += 1;
        }
        r
    }
}

/// What a progress observer is handed after each freeze event: the field so
/// far, the enqueued frontier positions, and the authoritative cost table.
pub struct FMMCallbackData {
    /// The buffer for the fast-marching output in progress.
    pub map: Vec<PixelAbs>,
    /// Positions of the cells still enqueued: the expanding wavefront.
    pub next_pixels: Vec<GridPos>,
    /// The authoritative cost table.
    pub visited: Vec<PixelAbs>,
}

/// Copies a pixel buffer.
fn copy_pixels(v: &Vec<PixelAbs>) -> (r: Vec<PixelAbs>)
    ensures
        r@ == v@,
{
    let mut r: Vec<PixelAbs> = Vec::new();
    let mut i: usize = 0;
    while i < v.len()
        invariant
            i <= v@.len(),
            r@.len() == i,
            forall|j: int| 0 <= j < i ==> #[trigger] r@[j] == v@[j],
        decreases v@.len() - i,
    {
        r.push(v[i]);
        i += 1;
    }
    proof {
        assert(r@ =~= v@);
    }
    r
}

impl FastMarcher {
    /// Like [`FastMarcher::evolve`], but runs until the queue is exhausted or
    /// the observer returns `false`. Returns whether the observer stopped the
    /// evolution; the session can be resumed afterwards.
    pub fn evolve_cb<F: Fn(FMMCallbackData) -> bool>(
        &mut self,
        grid: &mut Grid,
        callback: F,
    ) -> (stopped: bool)
        requires
            old(self).wf(),
            grid_wf(*old(grid)),
            old(grid).dims == old(self).spec_dims(),
            forall|data: FMMCallbackData| #[trigger] callback.requires((data,)),
        ensures
            final(self).wf(),
            final(self).spec_dims() == old(self).spec_dims(),
            grid_wf(*final(grid)),
            final(grid).dims == old(grid).dims,
            monotone_step(old(self).costs(), final(self).costs()),
            forall|i: int|
                0 <= i < old(grid).storage@.len() && (#[trigger] final(grid).storage@[i]) != old(
                    grid,
                ).storage@[i] ==> old(grid).storage@[i].val != 0 && final(grid).storage@[i].val
                    >= SCALE,
            forall|i: int|
                0 <= i < old(self).costs().len() && (#[trigger] final(self).costs()[i]) != old(
                    self,
                ).costs()[i] ==> final(self).costs()[i].val != 0 && (old(self).costs()[i].val == 0
                    || final(self).costs()[i].val < old(self).costs()[i].val),
            !stopped ==> final(self).frontier_len() == 0,
            stopped ==> final(self).measure() < old(self).measure(),
            old(self).frontier_len() == 0 ==> !stopped,
            (forall|d: FMMCallbackData, b: bool|
                call_ensures(callback, (d,), b) ==> b) ==> !stopped,
            exists|n: nat|
                final(self).state_with(*final(grid)) == #[trigger] step_many(
                    old(self).state_with(*old(grid)),
                    None,
                    old(self).spec_dims().0 as int,
                    old(self).spec_dims().1 as int,
                    n,
                ),
    {
        self.evolve_cb_impl(grid, None, callback)
    }

    /// Like [`FastMarcher::evolve_cb`], with a per-cell speed field scaling
    /// the propagation cost.
    pub fn evolve_speed_cb<F: Fn(FMMCallbackData) -> bool>(
        &mut self,
        grid: &mut Grid,
        speed_map: &Grid,
        callback: F,
    ) -> (stopped: bool)
        requires
            old(self).wf(),
            grid_wf(*old(grid)),
            old(grid).dims == old(self).spec_dims(),
            grid_wf(*speed_map),
            speed_map.dims == old(self).spec_dims(),
            forall|data: FMMCallbackData| #[trigger] callback.requires((data,)),
        ensures
            final(self).wf(),
            final(self).spec_dims() == old(self).spec_dims(),
            grid_wf(*final(grid)),
            final(grid).dims == old(grid).dims,
            monotone_step(old(self).costs(), final(self).costs()),
            forall|i: int|
                0 <= i < old(grid).storage@.len() && (#[trigger] final(grid).storage@[i]) != old(
                    grid,
                ).storage@[i] ==> old(grid).storage@[i].val != 0 && final(grid).storage@[i].val
                    >= SCALE,
            forall|i: int|
                0 <= i < old(self).costs().len() && (#[trigger] final(self).costs()[i]) != old(
                    self,
                ).costs()[i] ==> final(self).costs()[i].val != 0 && (old(self).costs()[i].val == 0
                    || final(self).costs()[i].val < old(self).costs()[i].val),
            !stopped ==> final(self).frontier_len() == 0,
            stopped ==> final(self).measure() < old(self).measure(),
            old(self).frontier_len() == 0 ==> !stopped,
            (forall|d: FMMCallbackData, b: bool|
                call_ensures(callback, (d,), b) ==> b) ==> !stopped,
            exists|n: nat|
                final(self).state_with(*final(grid)) == #[trigger] step_many(
                    old(self).state_with(*old(grid)),
                    Some(speed_map),
                    old(self).spec_dims().0 as int,
                    old(self).spec_dims().1 as int,
                    n,
                ),
    {
        self.evolve_cb_impl(grid, Some(speed_map), callback)
    }

    fn evolve_cb_impl<F: Fn(FMMCallbackData) -> bool>(
        &mut self,
        grid: &mut Grid,
        speed_map: Option<&Grid>,
        callback: F,
    ) -> (stopped: bool)
        requires
            old(self).wf(),
            grid_wf(*old(grid)),
            old(grid).dims == old(self).spec_dims(),
            speed_map matches Some(m) ==> grid_wf(*m) && m.dims == old(self).spec_dims(),
            forall|data: FMMCallbackData| #[trigger] callback.requires((data,)),
        ensures
            final(self).wf(),
            final(self).spec_dims() == old(self).spec_dims(),
            grid_wf(*final(grid)),
            final(grid).dims == old(grid).dims,
            monotone_step(old(self).costs(), final(self).costs()),
            forall|i: int|
                0 <= i < old(grid).storage@.len() && (#[trigger] final(grid).storage@[i]) != old(
                    grid,
                ).storage@[i] ==> old(grid).storage@[i].val != 0 && final(grid).storage@[i].val
                    >= SCALE,
            forall|i: int|
                0 <= i < old(self).costs().len() && (#[trigger] final(self).costs()[i]) != old(
                    self,
                ).costs()[i] ==> final(self).costs()[i].val != 0 && (old(self).costs()[i].val == 0
                    || final(self).costs()[i].val < old(self).costs()[i].val),
            !stopped ==> final(self).frontier_len() == 0,
            stopped ==> final(self).measure() < old(self).measure(),
            old(self).frontier_len() == 0 ==> !stopped,
            (forall|d: FMMCallbackData, b: bool|
                call_ensures(callback, (d,), b) ==> b) ==> !stopped,
            exists|n: nat|
                final(self).state_with(*final(grid)) == #[trigger] step_many(
                    old(self).state_with(*old(grid)),
                    speed_map,
                    old(self).spec_dims().0 as int,
                    old(self).spec_dims().1 as int,
                    n,
                ),
    {
        let mut more = true;
        let ghost s0 = self.state_with(*grid);
        let ghost gw = self.dims.0 as int;
        let ghost gh = self.dims.1 as int;
        let ghost mut n: nat = 0;
        proof {
            lemma_table_pot_nonneg(self.visited@);
            reveal(step_many);
            assert(self.state_with(*grid) == step_many(s0, speed_map, gw, gh, 0nat));
        }
        while more
            invariant
                self.wf(),
                self.spec_dims() == old(self).spec_dims(),
                grid_wf(*grid),
                grid.dims == old(grid).dims,
                grid.dims == self.spec_dims(),
                grid.storage@.len() == old(grid).storage@.len(),
                speed_map matches Some(m) ==> grid_wf(*m) && m.dims == self.spec_dims(),
                monotone_step(old(self).costs(), self.costs()),
                forall|data: FMMCallbackData| #[trigger] callback.requires((data,)),
                self.measure() >= 0,
                self.costs().len() == old(self).costs().len(),
                !more ==> self.frontier_len() == 0,
                forall|j: int|
                    0 <= j < old(grid).storage@.len() && (#[trigger] grid.storage@[j]) != old(
                        grid,
                    ).storage@[j] ==> old(grid).storage@[j].val != 0 && grid.storage@[j].val
                        >= SCALE,
                forall|j: int|
                    0 <= j < old(self).costs().len() && (#[trigger] self.costs()[j]) != old(
                        self,
                    ).costs()[j] ==> self.costs()[j].val != 0 && (old(self).costs()[j].val == 0
                        || self.costs()[j].val < old(self).costs()[j].val),
                s0 == old(self).state_with(*old(grid)),
                gw == old(self).spec_dims().0 as int,
                gh == old(self).spec_dims().1 as int,
                self.state_with(*grid) == step_many(s0, speed_map, gw, gh, n),
                self.measure() <= old(self).measure(),
            decreases 2 * self.measure() + (if more {
                1int
            } else {
                0int
            }),
        {
            let ghost vis_before = self.costs();
            let ghost g_before = grid.storage@;
            more = self.evolve_single(grid, speed_map);
            proof {
                lemma_monotone_trans(old(self).costs(), vis_before, self.costs());
                lemma_table_pot_nonneg(self.visited@);
                if old(self).frontier_len() == 0 {
                    lemma_step_many_stable(s0, speed_map, gw, gh, n);
                    reveal(step_single);
                    assert(!more);
                }
                lemma_step_many_snoc(s0, speed_map, gw, gh, n);
                n = (n + 1) as nat;
                assert(self.state_with(*grid) == step_many(s0, speed_map, gw, gh, n));
                assert forall|j: int|
                    0 <= j < old(self).costs().len() && (#[trigger] self.costs()[j]) != old(
                        self,
                    ).costs()[j] implies self.costs()[j].val != 0 && (old(self).costs()[j].val
                    == 0 || self.costs()[j].val < old(self).costs()[j].val) by {
                    if vis_before[j] != old(self).costs()[j] {
                        assert(vis_before[j].val != 0 && (old(self).costs()[j].val == 0
                            || vis_before[j].val < old(self).costs()[j].val));
                        assert(self.costs()[j].val != 0 && self.costs()[j].val <= vis_before[
                            j
                        ].val);
                    } else {
                        assert(self.costs()[j].val != 0 && (vis_before[j].val == 0
                            || self.costs()[j].val < vis_before[j].val));
                    }
                }
                assert forall|j: int|
                    0 <= j < old(grid).storage@.len() && (#[trigger] grid.storage@[j]) != old(
                        grid,
                    ).storage@[j] implies old(grid).storage@[j].val != 0 && grid.storage@[j].val
                    >= SCALE by {
                    if grid.storage@[j] != g_before[j] {
                        assert(g_before[j].val != 0 && grid.storage@[j].val >= SCALE);
                        if g_before[j] != old(grid).storage@[j] {
                            assert(old(grid).storage@[j].val != 0);
                        }
                    } else {
                        assert(g_before[j] != old(grid).storage@[j]);
                        assert(old(grid).storage@[j].val != 0 && g_before[j].val >= SCALE);
                    }
                }
            }
            if more {
                let data = FMMCallbackData {
                    map: copy_pixels(&grid.storage),
                    next_pixels: self.iter_cells(),
                    visited: copy_pixels(&self.visited),
                };
                if !callback(data) {
                    proof {
                        assert(self.state_with(*grid) == step_many(s0, speed_map, gw, gh, n));
                        if forall|d: FMMCallbackData, b: bool|
                            call_ensures(callback, (d,), b) ==> b {
                            assert(false);
                        }
                    }
                    return true;
                }
            }
        }
        proof {
            assert(self.state_with(*grid) == step_many(s0, speed_map, gw, gh, n));
        }
        false
    }
}

/// Builds the working grid for a transform call: in-class cells (per
/// `invert`) get the marker value [`SCALE`], others zero; every cell records
/// its own position.
pub(crate) fn grid_of_map<T: BoolLike>(map: &Vec<T>, shape: (usize, usize), invert: bool) -> (r: Grid)
    requires
        map@.len() == shape.0 * shape.1,
        map@.len() <= MAX_CELLS,
    ensures
        grid_wf(r),
        r.dims == shape,
        r.storage@.len() == map@.len(),
        forall|i: int|
            0 <= i < map@.len() ==> ((#[trigger] r.storage@[i]).val == (if crate::exact_edt::occ_of(
                map@,
                invert,
            )[i] {
                SCALE as int
            } else {
                0
            })),
        r.storage@ == init_cells(
            crate::exact_edt::occ_of(map@, invert),
            shape.0 as int,
            map@.len() as nat,
        ),
{
    let w = shape.0;
    let len = map.len();
    let mut storage: Vec<PixelAbs> = Vec::new();
    let mut i: usize = 0;
    while i < len
        invariant
            i <= len,
            storage@.len() == i,
            len == map@.len() <= MAX_CELLS,
            len == shape.0 * shape.1,
            w == shape.0,
            forall|j: int|
                0 <= j < i ==> ((#[trigger] storage@[j]).val == (if crate::exact_edt::occ_of(
                    map@,
                    invert,
                )[j] {
                    SCALE as int
                } else {
                    0
                })),
            forall|j: int|
                0 <= j < i ==> ((#[trigger] storage@[j]).abspos == (if w == 0 {
                    (0usize, 0usize)
                } else {
                    (((j % (w as int)) as usize), ((j / (w as int)) as usize))
                })),
        decreases len - i,
    {
        proof {
            if w != 0 {
                vstd::arithmetic::div_mod::lemma_fundamental_div_mod(i as int, w as int);
                vstd::arithmetic::div_mod::lemma_mod_bound(i as int, w as int);
            }
        }
        let pos: GridPos = if w == 0 {
            (0, 0)
        } else {
            (i % w, i / w)
        };
        let v: u64 = if map[i].as_bool() != invert {
            SCALE
        } else {
            0
        };
        storage.push(PixelAbs { val: v, abspos: pos });
        i += 1;
    }
    proof {
        assert(storage@ =~= init_cells(
            crate::exact_edt::occ_of(map@, invert),
            shape.0 as int,
            map@.len() as nat,
        ));
    }
    Grid { storage, dims: shape }
}

/// Runs a session to completion on `grid`.
pub(crate) fn run_to_completion(fm: &mut FastMarcher, grid: &mut Grid)
    requires
        old(fm).wf(),
        grid_wf(*old(grid)),
        old(grid).dims == old(fm).spec_dims(),
    ensures
        final(fm).wf(),
        final(fm).spec_dims() == old(fm).spec_dims(),
        grid_wf(*final(grid)),
        final(grid).dims == old(grid).dims,
        forall|i: int|
            0 <= i < old(grid).storage@.len() && (#[trigger] final(grid).storage@[i]) != old(
                grid,
            ).storage@[i] ==> old(grid).storage@[i].val != 0 && final(grid).storage@[i].val
                >= SCALE,
        final(fm).frontier_len() == 0,
        exists|n: nat|
            final(fm).state_with(*final(grid)) == #[trigger] step_many(
                old(fm).state_with(*old(grid)),
                None,
                old(fm).spec_dims().0 as int,
                old(fm).spec_dims().1 as int,
                n,
            ),
        monotone_step(old(fm).costs(), final(fm).costs()),
        forall|i: int|
            0 <= i < old(fm).costs().len() && (#[trigger] final(fm).costs()[i]) == old(fm).costs()[
                i
            ] ==> final(grid).storage@[i] == old(grid).storage@[i],
        forall|i: int|
            0 <= i < old(fm).costs().len() && (#[trigger] final(fm).costs()[i]) != old(fm).costs()[
                i
            ] ==> final(fm).costs()[i].val != 0 && (old(fm).costs()[i].val == 0 || final(fm).costs()[
                i
            ].val < old(fm).costs()[i].val),
        forall|i: int|
            0 <= i < old(fm).costs().len() && (#[trigger] final(fm).costs()[i]) != old(fm).costs()[
                i
            ] ==> final(grid).storage@[i] == final(fm).costs()[i],
{
    let ghost s0 = fm.state_with(*grid);
    let ghost gw = fm.dims.0 as int;
    let ghost gh = fm.dims.1 as int;
    let ghost mut n: nat = 0;
    proof {
        lemma_table_pot_nonneg(fm.visited@);
        reveal(step_many);
        assert(fm.state_with(*grid) == step_many(s0, None, gw, gh, 0nat));
    }
    let mut more = true;
    while more
        invariant
            fm.wf(),
            fm.spec_dims() == old(fm).spec_dims(),
            grid_wf(*grid),
            grid.dims == old(grid).dims,
            grid.dims == fm.spec_dims(),
            grid.storage@.len() == old(grid).storage@.len(),
            fm.costs().len() == old(fm).costs().len(),
            fm.costs().len() == grid.storage@.len(),
            fm.measure() >= 0,
            !more ==> fm.frontier_len() == 0,
            s0 == old(fm).state_with(*old(grid)),
            gw == old(fm).spec_dims().0 as int,
            gh == old(fm).spec_dims().1 as int,
            fm.state_with(*grid) == step_many(s0, None, gw, gh, n),
            monotone_step(old(fm).costs(), fm.costs()),
            forall|j: int|
                0 <= j < old(grid).storage@.len() && (#[trigger] grid.storage@[j]) != old(
                    grid,
                ).storage@[j] ==> old(grid).storage@[j].val != 0 && grid.storage@[j].val >= SCALE,
            forall|i: int|
                0 <= i < old(fm).costs().len() && (#[trigger] fm.costs()[i]) == old(fm).costs()[i]
                    ==> grid.storage@[i] == old(grid).storage@[i],
            forall|i: int|
                0 <= i < old(fm).costs().len() && (#[trigger] fm.costs()[i]) != old(fm).costs()[i]
                    ==> fm.costs()[i].val != 0 && (old(fm).costs()[i].val == 0 || fm.costs()[
                    i
                ].val < old(fm).costs()[i].val),
            forall|i: int|
                0 <= i < old(fm).costs().len() && (#[trigger] fm.costs()[i]) != old(fm).costs()[i]
                    ==> grid.storage@[i] == fm.costs()[i],
        decreases 2 * fm.measure() + (if more {
            1int
        } else {
            0int
        }),
    {
        let ghost g_before = grid.storage@;
        let ghost v_before = fm.costs();
        more = fm.evolve_single(grid, None);
        proof {
            lemma_table_pot_nonneg(fm.visited@);
            lemma_monotone_trans(old(fm).costs(), v_before, fm.costs());
            lemma_step_many_snoc(s0, None, gw, gh, n);
            n = (n + 1) as nat;
            assert(fm.state_with(*grid) == step_many(s0, None, gw, gh, n));
            assert forall|j: int|
                0 <= j < old(grid).storage@.len() && (#[trigger] grid.storage@[j]) != old(
                    grid,
                ).storage@[j] implies old(grid).storage@[j].val != 0 && grid.storage@[j].val
                >= SCALE by {
                if grid.storage@[j] != g_before[j] {
                    assert(g_before[j].val != 0 && grid.storage@[j].val >= SCALE);
                    if g_before[j] != old(grid).storage@[j] {
                        assert(old(grid).storage@[j].val != 0);
                    }
                } else {
                    assert(g_before[j] != old(grid).storage@[j]);
                    assert(old(grid).storage@[j].val != 0 && g_before[j].val >= SCALE);
                }
            }
            assert forall|i: int|
                0 <= i < old(fm).costs().len() && (#[trigger] fm.costs()[i]) != old(fm).costs()[i]
                implies fm.costs()[i].val != 0 && (old(fm).costs()[i].val == 0 || fm.costs()[
                i
            ].val < old(fm).costs()[i].val) by {
                if v_before[i] != old(fm).costs()[i] {
                    assert(v_before[i].val != 0 && (old(fm).costs()[i].val == 0 || v_before[i].val
                        < old(fm).costs()[i].val));
                    assert(fm.costs()[i].val != 0 && fm.costs()[i].val <= v_before[i].val);
                } else {
                    assert(fm.costs()[i].val != 0 && (v_before[i].val == 0 || fm.costs()[i].val
                        < v_before[i].val));
                }
            }
            assert forall|i: int|
                0 <= i < old(fm).costs().len() && (#[trigger] fm.costs()[i]) != old(fm).costs()[i]
                implies grid.storage@[i] == fm.costs()[i] by {
                if fm.costs()[i] != v_before[i] {
                } else {
                    assert(v_before[i] != old(fm).costs()[i]);
                    assert(g_before[i] == v_before[i]);
                    assert(fm.costs()[i] == v_before[i]);
                    assert(grid.storage@[i] == g_before[i]);
                }
            }
            assert forall|i: int|
                0 <= i < old(fm).costs().len() && (#[trigger] fm.costs()[i]) == old(fm).costs()[i]
                implies grid.storage@[i] == old(grid).storage@[i] by {
                if v_before[i] != old(fm).costs()[i] {
                    assert(v_before[i].val != 0 && (old(fm).costs()[i].val == 0 || v_before[i].val
                        < old(fm).costs()[i].val));
                    assert(fm.costs()[i].val != 0 && fm.costs()[i].val <= v_before[i].val);
                    assert(false);
                }
                assert(fm.costs()[i] == v_before[i]);
                assert(grid.storage@[i] == g_before[i]);
                assert(g_before[i] == old(grid).storage@[i]);
            }
        }
    }
}

/// Approximate distance transform by fast marching, with source tracking.
///
/// Every opposite-class cell reports zero; every in-class cell reports its
/// fixed-point arrival cost, at least [`SCALE`] (one cell of distance), with
/// the position of the source its wavefront started from. Cells that seed
/// the wavefront report exactly [`SCALE`], and in-class cells a wavefront
/// never reached keep the marker value [`SCALE`] and their own position.
///
/// Fails with [`ShapeMismatch`] when `shape.0 * shape.1` is not the buffer's
/// length; nothing is computed in that case.
pub fn edt_fmm<T: BoolLike>(map: &Vec<T>, shape: (usize, usize), invert: bool) -> (r: Result<
    Vec<PixelAbs>,
    ShapeMismatch,
>)
    requires
        map@.len() <= MAX_CELLS,
    ensures
        r is Err <==> shape.0 * shape.1 != map@.len(),
        r matches Ok(v) ==> {
            &&& v@.len() == map@.len()
            &&& forall|i: int|
                0 <= i < map@.len() && !crate::exact_edt::occ_of(map@, invert)[i] ==> (
                #[trigger] v@[i]).val == 0
            &&& forall|i: int|
                0 <= i < map@.len() && !crate::exact_edt::occ_of(map@, invert)[i] ==> (
                #[trigger] v@[i]) == init_cells(
                    crate::exact_edt::occ_of(map@, invert),
                    shape.0 as int,
                    map@.len() as nat,
                )[i]
            &&& forall|i: int|
                0 <= i < map@.len() && crate::exact_edt::occ_of(map@, invert)[i] ==> (
                #[trigger] v@[i]).val >= SCALE
            &&& forall|x: int, y: int|
                0 <= x < shape.0 && 0 <= y < shape.1 && #[trigger] seed_cell(
                    crate::exact_edt::occ_of(map@, invert),
                    shape.0 as int,
                    shape.1 as int,
                    x,
                    y,
                ) ==> v@[y * shape.0 + x].val == SCALE
            &&& forall|i: int|
                0 <= i < map@.len() ==> ((#[trigger] v@[i]) == init_cells(
                    crate::exact_edt::occ_of(map@, invert),
                    shape.0 as int,
                    map@.len() as nat,
                )[i] || (v@[i].abspos.1 * shape.0 + v@[i].abspos.0 < map@.len() && v@[v@[i].abspos.1
                    * shape.0 + v@[i].abspos.0] == (PixelAbs {
                    val: SCALE,
                    abspos: v@[i].abspos,
                })))
            &&& exists|n: nat|
                {
                    &&& (#[trigger] step_many(
                        initial_state(
                            crate::exact_edt::occ_of(map@, invert),
                            shape.0 as int,
                            shape.1 as int,
                        ),
                        None,
                        shape.0 as int,
                        shape.1 as int,
                        n,
                    )).queue.len() == 0
                    &&& v@ == step_many(
                        initial_state(
                            crate::exact_edt::occ_of(map@, invert),
                            shape.0 as int,
                            shape.1 as int,
                        ),
                        None,
                        shape.0 as int,
                        shape.1 as int,
                        n,
                    ).cells
                }
        },
{
    if !crate::exact_edt::shape_matches(map.len(), shape) {
        return Err(ShapeMismatch);
    }
    let ghost occ = crate::exact_edt::occ_of(map@, invert);
    let (w, h) = shape;
    let mut grid = grid_of_map(map, shape, invert);
    let ghost g0 = grid.storage@;
    let mut fm = FastMarcher::new_from_map(&grid, shape);
    let ghost vis0 = fm.costs();
    let ghost ist = initial_state(occ, w as int, h as int);
    proof {
        assert(fm.state_with(grid) =~~= ist);
    }
    let ghost st0 = fm.state_with(grid);
    run_to_completion(&mut fm, &mut grid);
    proof {
        let n0 = choose|n: nat|
            fm.state_with(grid) == #[trigger] step_many(st0, None, w as int, h as int, n);
        assert(step_many(ist, None, w as int, h as int, n0).queue.len() == 0
            && grid.storage@ == step_many(ist, None, w as int, h as int, n0).cells);
    }
    proof {
        let len = map@.len() as int;
        let seeds = boundary_upto(g0, w as int, h as int, h as int);
        assert(vis0.len() == map@.len());
        assert(fm.costs().len() == map@.len());
        assert(fm.spec_dims() == (w, h));
        fm.lemma_sources_ok();
        assert(sources_ok(fm.costs(), w as int, h as int));
        assert forall|i: int|
            0 <= i < map@.len() implies ((#[trigger] grid.storage@[i]) == init_cells(
            occ,
            w as int,
            map@.len() as nat,
        )[i] || (grid.storage@[i].abspos.1 * w + grid.storage@[i].abspos.0 < map@.len()
            && grid.storage@[grid.storage@[i].abspos.1 * w + grid.storage@[i].abspos.0]
            == (PixelAbs { val: SCALE, abspos: grid.storage@[i].abspos }))) by {
            if grid.storage@[i] != g0[i] {
                // only relaxed cells change, and a relaxed cell mirrors the table
                assert(fm.costs()[i] != vis0[i]);
                assert(grid.storage@[i] == fm.costs()[i]);
                fm.lemma_sources_ok();
                assert(fm.costs()[i].val != 0);
                let p = fm.costs()[i].abspos;
                crate::exact_edt::lemma_row_fits(w as int, h as int, p.1 as int, len);
                let pidx = p.1 * (w as int) + p.0;
                assert(fm.costs()[pidx] == (PixelAbs { val: SCALE, abspos: p }));
                if fm.costs()[pidx] != vis0[pidx] {
                    assert(grid.storage@[pidx] == fm.costs()[pidx]);
                } else {
                    // an untouched seed-mark cell was placed by the seeding
                    lemma_boundary_upto_bounds(g0, w as int, h as int, h as int);
                    assert forall|j: int|
                        0 <= j < seeds.len() implies 0 <= (#[trigger] seeds[j]).1 * (w as int)
                        + seeds[j].0 < len by {
                        crate::exact_edt::lemma_row_fits(
                            w as int,
                            h as int,
                            seeds[j].1 as int,
                            len,
                        );
                    }
                    lemma_seeded_table_entries(
                        seeds,
                        w as int,
                        map@.len() as nat,
                        seeds.len() as int,
                    );
                    assert(vis0 == seeded_table(
                        seeds,
                        w as int,
                        map@.len() as nat,
                        seeds.len() as int,
                    ));
                    assert(vis0[pidx].val != 0 && vis0[pidx].abspos == p);
                    let j0 = choose|j: int|
                        0 <= j < seeds.len() && #[trigger] seeds[j] == vis0[pidx].abspos;
                    lemma_boundary_upto_sound(g0, w as int, h as int, h as int);
                    assert(is_boundary_xy(g0, w as int, h as int, p.0 as int, p.1 as int));
                    assert(g0[pidx].val != 0);
                    assert(occ[pidx]);
                    assert(w >= 1) by (nonlinear_arith)
                        requires
                            0 <= i < len,
                            len == (w as int) * (h as int),
                    ;
                    vstd::arithmetic::div_mod::lemma_fundamental_div_mod_converse(
                        pidx,
                        w as int,
                        p.1 as int,
                        p.0 as int,
                    );
                    assert(g0[pidx] == (PixelAbs { val: SCALE, abspos: p }));
                    assert(grid.storage@[pidx] == g0[pidx]);
                }
            }
        }
    }
    proof {
        assert forall|i: int|
            0 <= i < map@.len() && !crate::exact_edt::occ_of(map@, invert)[i] implies (
        #[trigger] grid.storage@[i]).val == 0 by {}
        assert forall|i: int|
            0 <= i < map@.len() && crate::exact_edt::occ_of(map@, invert)[i] implies (
        #[trigger] grid.storage@[i]).val >= SCALE by {}
        assert forall|x: int, y: int|
            0 <= x < w && 0 <= y < h && #[trigger] seed_cell(
                occ,
                w as int,
                h as int,
                x,
                y,
            ) implies grid.storage@[y * w + x].val == SCALE by {
            crate::exact_edt::lemma_row_fits(w as int, h as int, y, g0.len() as int);
            if y >= 1 {
                crate::exact_edt::lemma_row_fits(w as int, h as int, y - 1, g0.len() as int);
            }
            if y + 1 < h {
                crate::exact_edt::lemma_row_fits(w as int, h as int, y + 1, g0.len() as int);
            }
            assert(is_boundary_xy(g0, w as int, h as int, x, y));
            lemma_boundary_upto_contains(g0, w as int, h as int, h as int, x, y);
            let j = choose|j: int|
                0 <= j < boundary_upto(g0, w as int, h as int, h as int).len()
                    && #[trigger] boundary_upto(g0, w as int, h as int, h as int)[j] == ((
                x as usize,
                y as usize,
            ));
            assert(vis0[y * w + x].val == SCALE);
            let idx = y * w + x;
            if fm.costs()[idx] != vis0[idx] {
                assert(fm.costs()[idx].val != 0 && (vis0[idx].val == 0 || fm.costs()[idx].val
                    < vis0[idx].val));
                assert(false);
            }
            assert(grid.storage@[idx] == g0[idx]);
        }
    }
    Ok(grid.storage)
}

/// Like [`edt_fmm`], with a progress observer invoked after every freeze
/// event; returning `false` from it stops the evolution early, leaving the
/// partial field computed so far.
pub fn edt_fmm_cb<T: BoolLike, F: Fn(FMMCallbackData) -> bool>(
    map: &Vec<T>,
    shape: (usize, usize),
    invert: bool,
    callback: F,
) -> (r: Result<Vec<PixelAbs>, ShapeMismatch>)
    requires
        map@.len() <= MAX_CELLS,
        forall|data: FMMCallbackData| #[trigger] callback.requires((data,)),
    ensures
        r is Err <==> shape.0 * shape.1 != map@.len(),
        r matches Ok(v) ==> {
            &&& v@.len() == map@.len()
            &&& forall|i: int|
                0 <= i < map@.len() && !crate::exact_edt::occ_of(map@, invert)[i] ==> (
                #[trigger] v@[i]).val == 0
            &&& forall|i: int|
                0 <= i < map@.len() && crate::exact_edt::occ_of(map@, invert)[i] ==> (
                #[trigger] v@[i]).val >= SCALE
            &&& exists|n: nat|
                v@ == (#[trigger] step_many(
                    initial_state(
                        crate::exact_edt::occ_of(map@, invert),
                        shape.0 as int,
                        shape.1 as int,
                    ),
                    None,
                    shape.0 as int,
                    shape.1 as int,
                    n,
                )).cells
            &&& (forall|d: FMMCallbackData, b: bool| call_ensures(callback, (d,), b) ==> b)
                ==> exists|n: nat|
                {
                    &&& (#[trigger] step_many(
                        initial_state(
                            crate::exact_edt::occ_of(map@, invert),
                            shape.0 as int,
                            shape.1 as int,
                        ),
                        None,
                        shape.0 as int,
                        shape.1 as int,
                        n,
                    )).queue.len() == 0
                    &&& v@ == step_many(
                        initial_state(
                            crate::exact_edt::occ_of(map@, invert),
                            shape.0 as int,
                            shape.1 as int,
                        ),
                        None,
                        shape.0 as int,
                        shape.1 as int,
                        n,
                    ).cells
                }
        },
{
    if !crate::exact_edt::shape_matches(map.len(), shape) {
        return Err(ShapeMismatch);
    }
    let ghost occ = crate::exact_edt::occ_of(map@, invert);
    let mut grid = grid_of_map(map, shape, invert);
    let mut fm = FastMarcher::new_from_map(&grid, shape);
    let ghost ist = initial_state(occ, shape.0 as int, shape.1 as int);
    proof {
        assert(fm.state_with(grid) =~~= ist);
    }
    let ghost st0 = fm.state_with(grid);
    let stopped = fm.evolve_cb(&mut grid, callback);
    proof {
        let wi = shape.0 as int;
        let hi = shape.1 as int;
        let n0 = choose|n: nat|
            fm.state_with(grid) == #[trigger] step_many(st0, None, wi, hi, n);
        assert(grid.storage@ == step_many(ist, None, wi, hi, n0).cells);
        if forall|d: FMMCallbackData, b: bool| call_ensures(callback, (d,), b) ==> b {
            assert(!stopped);
            assert(fm.state_with(grid).queue == fm.frontier_seq());
            assert(step_many(ist, None, wi, hi, n0).queue.len() == 0);
        }
    }
    proof {
        assert forall|i: int|
            0 <= i < map@.len() && !crate::exact_edt::occ_of(map@, invert)[i] implies (
        #[trigger] grid.storage@[i]).val == 0 by {}
        assert forall|i: int|
            0 <= i < map@.len() && crate::exact_edt::occ_of(map@, invert)[i] implies (
        #[trigger] grid.storage@[i]).val >= SCALE by {}
    }
    Ok(grid.storage)
}

} // verus!



