use std::cell::Cell;

use edt::fast_marcher_relpos::FastMarcher;
use edt::fast_marcher_relpos::Grid;
use edt::fast_marcher_relpos::PixelAbs;
use edt::fixed::SCALE;
use edt::test_util::flatten;
use edt::test_util::test_map;
use edt::edt_fmm;
use edt::edt_fmm_cb;

fn parse_edt_str(s: &[&str]) -> Vec<f64> {
    flatten(
        s.iter()
            .map(|s| {
                s.chars()
                    .map(|c| {
                        if c != 'f' {
                            (c as u8 - '0' as u8) as f64
                        } else {
                            15.
                        }
                    })
                    .collect::<Vec<_>>()
            })
            .collect::<Vec<_>>(),
    )
}

fn approx_eq(a: f64, b: f64) {
    if a == 0. && b == 0. {
        return;
    }
    let rel_err = (a - b).abs() / a.abs().max(b.abs());
    assert!(rel_err < 0.2, "a: {}, b: {}", a, b);
}

fn to_distance(v: u64) -> f64 {
    v as f64 / SCALE as f64
}

#[test]
fn fast_marcher_test_edt() {
    let map = test_map();
    let str_edt = [
        "0000000000",
        "0001111000",
        "0013443110",
        "0013443100",
        "0001111000",
    ];
    let shape = (map.len() / str_edt.len(), str_edt.len());
    let mut edt: Vec<f64> = edt_fmm(&map, shape, false)
        .unwrap()
        .iter()
        .map(|v| to_distance(*v))
        .collect();
    for cell in &mut edt {
        *cell = cell.powf(2.);
    }
    for (a, b) in edt.iter().zip(parse_edt_str(&str_edt).iter()) {
        approx_eq(*a, *b);
    }
}

#[test]
fn fast_marcher_relpos_test_edt() {
    let map = test_map();
    let str_edt = [
        "0000000000",
        "0001111000",
        "0013443110",
        "0013443100",
        "0001111000",
    ];
    let shape = (map.len() / str_edt.len(), str_edt.len());
    let mut edt: Vec<f64> = edt::fast_marcher_relpos::edt_fmm(&map, shape, false)
        .unwrap()
        .iter()
        .map(|p| to_distance(p.val))
        .collect();
    for cell in &mut edt {
        *cell = cell.powf(2.);
    }
    for (a, b) in edt.iter().zip(parse_edt_str(&str_edt).iter()) {
        approx_eq(*a, *b);
    }
}

#[test]
fn exact_vs_fmm_bounded_relative_error() {
    let map = test_map();
    let shape = (10, 5);
    let exact: Vec<f64> = edt::edt_sq(&map, shape, false)
        .unwrap()
        .iter()
        .map(|v| (*v as f64).sqrt())
        .collect();
    let fmm: Vec<f64> = edt_fmm(&map, shape, false)
        .unwrap()
        .iter()
        .map(|v| to_distance(*v))
        .collect();
    for (e, f) in exact.iter().zip(fmm.iter()) {
        if *e == 0. {
            continue;
        }
        let rel_err = (e - f).abs() / e.max(*f).max(1e-9);
        assert!(rel_err < 0.2, "exact: {}, fmm: {}", e, f);
    }
}

#[test]
fn relpos_fmm_matches_scalar_fmm() {
    let map = test_map();
    let shape = (10, 5);
    let scalar = edt_fmm(&map, shape, false).unwrap();
    let relpos = edt::fast_marcher_relpos::edt_fmm(&map, shape, false).unwrap();
    assert_eq!(scalar.len(), relpos.len());
    for (a, b) in scalar.iter().zip(relpos.iter()) {
        assert_eq!(*a, b.val);
        assert!(b.abspos.0 < shape.0);
        assert!(b.abspos.1 < shape.1);
    }
}

#[test]
fn callback_sees_progress_and_can_stop() {
    let map = test_map();
    let shape = (10, 5);
    let calls = Cell::new(0usize);
    let out = edt_fmm_cb(&map, shape, false, |data| {
        assert_eq!(data.map.len(), 50);
        for pos in &data.next_pixels {
            assert!(pos.0 < 10 && pos.1 < 5);
        }
        calls.set(calls.get() + 1);
        true
    })
    .unwrap();
    assert!(calls.get() > 0);
    assert_eq!(out, edt_fmm(&map, shape, false).unwrap());

    // stopping immediately leaves a valid partial field
    let early = edt_fmm_cb(&map, shape, false, |_data| false).unwrap();
    assert_eq!(early.len(), 50);
}

fn run_to_end(fm: &mut FastMarcher, grid: &mut Grid) {
    while fm.evolve(grid, 1_000_000) {}
}

#[test]
fn callback_early_stop_then_resume_is_lossless() {
    let map = test_map();
    let shape = (10, 5);

    // straight run
    let mut grid_a = Grid::from_image(&map, shape);
    let mut fm_a = FastMarcher::new(grid_a.find_boundary(), shape);
    run_to_end(&mut fm_a, &mut grid_a);

    // run stopped by the observer after three freeze events, then resumed
    let mut grid_b = Grid::from_image(&map, shape);
    let mut fm_b = FastMarcher::new(grid_b.find_boundary(), shape);
    let calls = Cell::new(0usize);
    let stopped = fm_b.evolve_cb(&mut grid_b, |_data| {
        calls.set(calls.get() + 1);
        calls.get() < 3
    });
    assert!(stopped);
    run_to_end(&mut fm_b, &mut grid_b);

    assert_eq!(grid_a.storage.len(), grid_b.storage.len());
    for (a, b) in grid_a.storage.iter().zip(grid_b.storage.iter()) {
        assert_eq!(a, b);
    }
}

#[test]
fn evolve_in_small_steps_matches_straight_run() {
    let map = test_map();
    let shape = (10, 5);

    let mut grid_a = Grid::from_image(&map, shape);
    let mut fm_a = FastMarcher::new(grid_a.find_boundary(), shape);
    run_to_end(&mut fm_a, &mut grid_a);

    let mut grid_b = Grid::from_image(&map, shape);
    let mut fm_b = FastMarcher::new(grid_b.find_boundary(), shape);
    while fm_b.evolve(&mut grid_b, 1) {}

    for (a, b) in grid_a.storage.iter().zip(grid_b.storage.iter()) {
        assert_eq!(a, b);
    }
}

#[test]
fn speed_field_of_one_matches_unit_speed() {
    let map = test_map();
    let shape = (10, 5);

    let mut grid_a = Grid::from_image(&map, shape);
    let mut fm_a = FastMarcher::new(grid_a.find_boundary(), shape);
    run_to_end(&mut fm_a, &mut grid_a);

    let mut grid_b = Grid::from_image(&map, shape);
    let speed = Grid {
        storage: vec![
            PixelAbs {
                val: SCALE,
                abspos: (0, 0)
            };
            50
        ],
        dims: shape,
    };
    let mut fm_b = FastMarcher::new(grid_b.find_boundary(), shape);
    while fm_b.evolve_speed_cb(&mut grid_b, &speed, |_data| true) {}

    for (a, b) in grid_a.storage.iter().zip(grid_b.storage.iter()) {
        assert_eq!(a, b);
    }
}

#[test]
fn grid_helpers_behave() {
    let map = test_map();
    let mut grid = Grid::from_image(&map, (10, 5));
    // try_index addresses the buffer at pos.0 * dims.0 + pos.1
    let p = grid.try_index((2, 3)).unwrap();
    assert_eq!(p, grid.storage[2 * 10 + 3]);
    assert!(grid.try_index((4, 9)).is_some());
    assert!(grid.try_index((5, 0)).is_none());
    // invert flips the class marker
    let before = grid.try_index((0, 0)).unwrap().val;
    grid.invert((0, 0));
    let after = grid.try_index((0, 0)).unwrap().val;
    assert!(before == 0 && after == SCALE);
    // the boundary of the sample grid: in-class cells next to the
    // opposite class
    let grid = Grid::from_image(&map, (10, 5));
    let boundary = grid.find_boundary();
    assert!(boundary.contains(&(3, 1)));
    assert!(!boundary.contains(&(4, 2)));
    assert!(!boundary.contains(&(0, 0)));
}

#[test]
fn iter_cells_lists_frontier() {
    let map = test_map();
    let grid = Grid::from_image(&map, (10, 5));
    let seeds = grid.find_boundary();
    let fm = FastMarcher::new(seeds.clone(), (10, 5));
    assert_eq!(fm.iter_cells(), seeds);
}

#[test]
fn isqrt_exact_values() {
    assert_eq!(edt::fixed::isqrt(0), 0);
    assert_eq!(edt::fixed::isqrt(1), 1);
    assert_eq!(edt::fixed::isqrt(3), 1);
    assert_eq!(edt::fixed::isqrt(4), 2);
    assert_eq!(edt::fixed::isqrt(2_097_152), 1448);
    assert_eq!(edt::fixed::isqrt(u64::MAX), 0xFFFF_FFFF);
}

#[test]
fn all_obstacle_grid_is_all_zero() {
    let map = vec![false; 50];
    let out = edt_fmm(&map, (10, 5), false).unwrap();
    assert_eq!(out, vec![0u64; 50]);
}

#[test]
fn all_free_grid_keeps_costs_positive() {
    let map = vec![true; 12];
    let out = edt_fmm(&map, (4, 3), false).unwrap();
    for v in &out {
        assert!(*v >= SCALE);
    }
}

#[test]
fn fmm_inversion_symmetry_on_sample() {
    let map = test_map();
    let complement: Vec<bool> = map.iter().map(|b| !b).collect();
    let a = edt_fmm(&complement, (10, 5), false).unwrap();
    let b = edt_fmm(&map, (10, 5), true).unwrap();
    assert_eq!(a, b);
}

#[test]
fn seed_cells_report_one_cell_of_distance() {
    let map = test_map();
    let out = edt_fmm(&map, (10, 5), false).unwrap();
    let grid = Grid::from_image(&map, (10, 5));
    for (x, y) in grid.find_boundary() {
        assert_eq!(out[y * 10 + x], SCALE);
    }
}

#[test]
fn relpos_fmm_sources_are_seed_marks() {
    let map = test_map();
    let shape = (10, 5);
    let out = edt::fast_marcher_relpos::edt_fmm(&map, shape, false).unwrap();
    let grid = Grid::from_image(&map, shape);
    let seeds = grid.find_boundary();
    for (i, p) in out.iter().enumerate() {
        if !map[i] {
            // opposite-class cells keep their own position untouched
            assert_eq!(p.val, 0);
            assert_eq!(p.abspos, (i % 10, i / 10));
        } else {
            // the recorded source is a seed: it reports exactly one cell of
            // distance and records itself
            let (sx, sy) = p.abspos;
            let src = &out[sy * 10 + sx];
            assert_eq!(src.val, SCALE);
            assert_eq!(src.abspos, (sx, sy));
            assert!(seeds.contains(&(sx, sy)));
        }
    }
}
