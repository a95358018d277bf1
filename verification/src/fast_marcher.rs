//! Fast-marching distance transform without source tracking: the same solver
//! as [`crate::fast_marcher_relpos`], reporting only the fixed-point arrival
//! cost of every cell.

use crate::exact_edt::occ_of;
use crate::exact_edt::shape_matches;
use crate::exact_edt::ShapeMismatch;
use crate::exact_edt::MAX_CELLS;
use crate::fast_marcher_relpos::grid_of_map;
use crate::fast_marcher_relpos::grid_wf;
use crate::fast_marcher_relpos::initial_state;
use crate::fast_marcher_relpos::is_boundary_xy;
use crate::fast_marcher_relpos::lemma_initial_assembly;
use crate::fast_marcher_relpos::run_to_completion;
use crate::fast_marcher_relpos::seed_cell;
use crate::fast_marcher_relpos::step_many;
use crate::fast_marcher_relpos::FastMarcher;
use crate::fast_marcher_relpos::Grid;
use crate::fast_marcher_relpos::PixelAbs;
use crate::fixed::SCALE;
use crate::BoolLike;
use vstd::prelude::*;

pub use crate::fast_marcher_relpos::GridPos;

verus! {

/// What a progress observer of [`edt_fmm_cb`] is handed after each freeze
/// event.
pub struct FMMCallbackData {
    /// The buffer for the fast-marching output in progress.
    pub map: Vec<u64>,
    /// Positions of the cells still enqueued: the expanding wavefront.
    pub next_pixels: Vec<GridPos>,
}

/// The values of a pixel buffer.
fn values_of(v: &Vec<PixelAbs>) -> (r: Vec<u64>)
    ensures
        r@.len() == v@.len(),
        forall|i: int| 0 <= i < v@.len() ==> #[trigger] r@[i] == v@[i].val,
{
    let mut r: Vec<u64> = Vec::new();
    let mut i: usize = 0;
    while i < v.len()
        invariant
            i <= v@.len(),
            r@.len() == i,
            forall|j: int| 0 <= j < i ==> #[trigger] r@[j] == v@[j].val,
        decreases v@.len() - i,
    {
        r.push(v[i].val);
        i += 1;
    }
    r
}

/// Approximate distance transform by fast marching.
///
/// Every opposite-class cell reports zero; every in-class cell reports its
/// fixed-point arrival cost, at least [`SCALE`] (one cell of distance).
/// Cells that seed the wavefront report exactly [`SCALE`], and in-class
/// cells a wavefront never reached keep the marker value [`SCALE`].
///
/// Fails with [`ShapeMismatch`] when `shape.0 * shape.1` is not the buffer's
/// length; nothing is computed in that case.
pub fn edt_fmm<T: BoolLike>(map: &Vec<T>, shape: (usize, usize), invert: bool) -> (r: Result<
    Vec<u64>,
    ShapeMismatch,
>)
    requires
        map@.len() <= MAX_CELLS,
    ensures
        r is Err <==> shape.0 * shape.1 != map@.len(),
        r matches Ok(v) ==> {
            &&& v@.len() == map@.len()
            &&& forall|i: int|
                0 <= i < map@.len() && !occ_of(map@, invert)[i] ==> #[trigger] v@[i] == 0
            &&& forall|i: int|
                0 <= i < map@.len() && occ_of(map@, invert)[i] ==> #[trigger] v@[i] >= SCALE
            &&& forall|x: int, y: int|
                0 <= x < shape.0 && 0 <= y < shape.1 && #[trigger] seed_cell(
                    occ_of(map@, invert),
                    shape.0 as int,
                    shape.1 as int,
                    x,
                    y,
                ) ==> v@[y * shape.0 + x] == SCALE
            &&& exists|n: nat|
                {
                    &&& (#[trigger] step_many(
                        initial_state(occ_of(map@, invert), shape.0 as int, shape.1 as int),
                        None,
                        shape.0 as int,
                        shape.1 as int,
                        n,
                    )).queue.len() == 0
                    &&& v@ == step_many(
                        initial_state(occ_of(map@, invert), shape.0 as int, shape.1 as int),
                        None,
                        shape.0 as int,
                        shape.1 as int,
                        n,
                    ).cells.map_values((|p: PixelAbs| p.val))
                }
        },
{
    if !shape_matches(map.len(), shape) {
        return Err(ShapeMismatch);
    }
    let ghost occ = occ_of(map@, invert);
    let (w, h) = shape;
    let mut grid = grid_of_map(map, shape, invert);
    let ghost g0 = grid.storage@;
    let mut fm = FastMarcher::new_from_map(&grid, shape);
    let ghost vis0 = fm.costs();
    let ghost ist = initial_state(occ, w as int, h as int);
    proof {
        lemma_initial_assembly(fm, grid, occ);
    }
    let ghost st0 = fm.state_with(grid);
    run_to_completion(&mut fm, &mut grid);
    proof {
        fm.lemma_state_with(grid);
        let n0 = choose|n: nat|
            fm.state_with(grid) == #[trigger] step_many(st0, None, w as int, h as int, n);
        assert(step_many(ist, None, w as int, h as int, n0).queue.len() == 0);
        assert(grid.storage@ == step_many(ist, None, w as int, h as int, n0).cells);
    }
    proof {
        assert forall|i: int|
            0 <= i < map@.len() && !occ_of(map@, invert)[i] implies (
        #[trigger] grid.storage@[i]).val == 0 by {}
        assert forall|i: int|
            0 <= i < map@.len() && occ_of(map@, invert)[i] implies (
        #[trigger] grid.storage@[i]).val >= SCALE by {}
        assert forall|x: int, y: int|
            0 <= x < w && 0 <= y < h && #[trigger] seed_cell(
                occ,
                w as int,
                h as int,
                x,
                y,
            ) implies grid.storage@[y * w + x].val == SCALE by {
            crate::exact_edt::lemma_row_fits(w as int, h as int, y, g0.len() as int);
            if y >= 1 {
                crate::exact_edt::lemma_row_fits(w as int, h as int, y - 1, g0.len() as int);
            }
            if y + 1 < h {
                crate::exact_edt::lemma_row_fits(w as int, h as int, y + 1, g0.len() as int);
            }
            assert(is_boundary_xy(g0, w as int, h as int, x, y));
            crate::fast_marcher_relpos::lemma_boundary_upto_contains(
                g0,
                w as int,
                h as int,
                h as int,
                x,
                y,
            );
            let j = choose|j: int|
                0 <= j < crate::fast_marcher_relpos::boundary_upto(
                    g0,
                    w as int,
                    h as int,
                    h as int,
                ).len() && #[trigger] crate::fast_marcher_relpos::boundary_upto(
                    g0,
                    w as int,
                    h as int,
                    h as int,
                )[j] == ((x as usize, y as usize));
            assert(vis0[y * w + x].val == SCALE);
            let idx = y * w + x;
            fm.lemma_costs_ok();
            if fm.costs()[idx] != vis0[idx] {
                assert(fm.costs()[idx].val != 0 && (vis0[idx].val == 0 || fm.costs()[idx].val
                    < vis0[idx].val));
                assert(false);
            }
            assert(grid.storage@[idx] == g0[idx]);
        }
    }
    let out = values_of(&grid.storage);
    proof {
        assert forall|x: int, y: int|
            0 <= x < w && 0 <= y < h && #[trigger] seed_cell(
                occ,
                w as int,
                h as int,
                x,
                y,
            ) implies out@[y * w + x] == SCALE by {
            crate::exact_edt::lemma_row_fits(w as int, h as int, y, g0.len() as int);
        }
        assert(out@ =~= grid.storage@.map_values((|p: PixelAbs| p.val)));
    }
    Ok(out)
}

/// Like [`edt_fmm`], with a progress observer invoked after every freeze
/// event; returning `false` from it stops the evolution early, leaving the
/// partial field computed so far.
pub fn edt_fmm_cb<T: BoolLike, F: Fn(FMMCallbackData) -> bool>(
    map: &Vec<T>,
    shape: (usize, usize),
    invert: bool,
    callback: F,
) -> (r: Result<Vec<u64>, ShapeMismatch>)
    requires
        map@.len() <= MAX_CELLS,
        forall|data: FMMCallbackData| #[trigger] callback.requires((data,)),
    ensures
        r is Err <==> shape.0 * shape.1 != map@.len(),
        r matches Ok(v) ==> {
            &&& v@.len() == map@.len()
            &&& forall|i: int|
                0 <= i < map@.len() && !occ_of(map@, invert)[i] ==> #[trigger] v@[i] == 0
            &&& forall|i: int|
                0 <= i < map@.len() && occ_of(map@, invert)[i] ==> #[trigger] v@[i] >= SCALE
            &&& exists|n: nat|
                v@ == (#[trigger] step_many(
                    initial_state(occ_of(map@, invert), shape.0 as int, shape.1 as int),
                    None,
                    shape.0 as int,
                    shape.1 as int,
                    n,
                )).cells.map_values((|p: PixelAbs| p.val))
            &&& (forall|d: FMMCallbackData, b: bool| call_ensures(callback, (d,), b) ==> b)
                ==> exists|n: nat|
                {
                    &&& (#[trigger] step_many(
                        initial_state(occ_of(map@, invert), shape.0 as int, shape.1 as int),
                        None,
                        shape.0 as int,
                        shape.1 as int,
                        n,
                    )).queue.len() == 0
                    &&& v@ == step_many(
                        initial_state(occ_of(map@, invert), shape.0 as int, shape.1 as int),
                        None,
                        shape.0 as int,
                        shape.1 as int,
                        n,
                    ).cells.map_values((|p: PixelAbs| p.val))
                }
        },
{
    if !shape_matches(map.len(), shape) {
        return Err(ShapeMismatch);
    }
    let ghost occ = occ_of(map@, invert);
    let ghost wi = shape.0 as int;
    let ghost hi = shape.1 as int;
    let mut grid = grid_of_map(map, shape, invert);
    let mut fm = FastMarcher::new_from_map(&grid, shape);
    let ghost ist = initial_state(occ, wi, hi);
    let ghost mut n: nat = 0;
    proof {
        fm.lemma_measure_nonneg();
        lemma_initial_assembly(fm, grid, occ);
        crate::fast_marcher_relpos::lemma_step_many_zero(fm.state_with(grid), None, wi, hi);
        assert(fm.state_with(grid) == step_many(ist, None, wi, hi, 0nat));
    }
    let mut more = true;
    while more
        invariant
            fm.wf(),
            grid_wf(grid),
            grid.dims == shape,
            grid.dims == fm.spec_dims(),
            grid.storage@.len() == map@.len(),
            fm.measure() >= 0,
            ist == initial_state(occ, wi, hi),
            wi == shape.0 as int,
            hi == shape.1 as int,
            occ == occ_of(map@, invert),
            fm.state_with(grid) == step_many(ist, None, wi, hi, n),
            !more ==> fm.frontier_len() == 0,
            forall|data: FMMCallbackData| #[trigger] callback.requires((data,)),
            forall|i: int|
                0 <= i < map@.len() && !occ_of(map@, invert)[i] ==> (
                #[trigger] grid.storage@[i]).val == 0,
            forall|i: int|
                0 <= i < map@.len() && occ_of(map@, invert)[i] ==> (
                #[trigger] grid.storage@[i]).val >= SCALE,
        decreases 2 * fm.measure() + (if more {
            1int
        } else {
            0int
        }),
    {
        let ghost g_before = grid.storage@;
        more = fm.evolve_single(&mut grid, None);
        proof {
            fm.lemma_measure_nonneg();
            crate::fast_marcher_relpos::lemma_step_many_snoc(ist, None, wi, hi, n);
            n = (n + 1) as nat;
            assert(fm.state_with(grid) == step_many(ist, None, wi, hi, n));
            assert forall|i: int|
                0 <= i < map@.len() && !occ_of(map@, invert)[i] implies (
            #[trigger] grid.storage@[i]).val == 0 by {
                if grid.storage@[i] != g_before[i] {
                    assert(g_before[i].val != 0);
                }
            }
            assert forall|i: int|
                0 <= i < map@.len() && occ_of(map@, invert)[i] implies (
            #[trigger] grid.storage@[i]).val >= SCALE by {
                if grid.storage@[i] != g_before[i] {
                    assert(grid.storage@[i].val >= SCALE);
                }
            }
        }
        if more {
            let data = FMMCallbackData {
                map: values_of(&grid.storage),
                next_pixels: fm.iter_cells(),
            };
            if !callback(data) {
                let out = values_of(&grid.storage);
                proof {
                    fm.lemma_state_with(grid);
                    assert(out@ =~= step_many(ist, None, wi, hi, n).cells.map_values(
                        (|p: PixelAbs| p.val),
                    ));
                    if forall|d: FMMCallbackData, b: bool| call_ensures(callback, (d,), b) ==> b {
                        assert(false);
                    }
                }
                return Ok(out);
            }
        }
    }
    let out = values_of(&grid.storage);
    proof {
        fm.lemma_state_with(grid);
        assert(out@ =~= step_many(ist, None, wi, hi, n).cells.map_values((|p: PixelAbs| p.val)));
        assert(step_many(ist, None, wi, hi, n).queue.len() == 0);
    }
    Ok(out)
}

} // verus!
