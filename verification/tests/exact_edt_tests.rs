use edt::exact_edt_relpos::Pixel;
use edt::test_util::flatten;
use edt::test_util::reshape;
use edt::test_util::test_map;
use edt::edt_sq;
use edt::horizontal_edt;
use edt::ShapeMismatch;

fn parse_edt_str(s: &[&str]) -> Vec<u64> {
    flatten(
        s.iter()
            .map(|s| {
                s.chars()
                    .map(|c| {
                        if c != 'f' {
                            (c as u8 - '0' as u8) as u64
                        } else {
                            15
                        }
                    })
                    .collect::<Vec<_>>()
            })
            .collect::<Vec<_>>(),
    )
}

fn parse_packed(chunk: &str) -> i32 {
    chunk.trim().parse().unwrap()
}

fn parse_edt_str_pixel(s: &[&str], xs: &[&str], ys: &[&str]) -> Vec<Pixel> {
    let mut ret = Vec::new();
    for ((row, xrow), yrow) in s.iter().zip(xs.iter()).zip(ys.iter()) {
        let xnums: Vec<i32> = (0..row.len()).map(|i| parse_packed(&xrow[2 * i..2 * i + 2])).collect();
        let ynums: Vec<i32> = (0..row.len()).map(|i| parse_packed(&yrow[2 * i..2 * i + 2])).collect();
        for (i, c) in row.chars().enumerate() {
            let val = if c != 'f' { (c as u8 - '0' as u8) as u64 } else { 15 };
            ret.push(Pixel { val, relpos: [xnums[i], ynums[i]] });
        }
    }
    ret
}

#[test]
fn exact_edt_test_horizontal_edt() {
    let map = test_map();
    let str_edt = [
        "0000000000",
        "0001221000",
        "0012343210",
        "0012332100",
        "0001221000",
    ];
    assert_eq!(
        horizontal_edt(&map, (map.len() / str_edt.len(), str_edt.len()), false).unwrap(),
        parse_edt_str(&str_edt)
    );
}

#[test]
fn lib_test_horizontal_edt() {
    let map = test_map();
    let str_edt = [
        "0000000000",
        "0001221000",
        "0012343210",
        "0012332100",
        "0001221000",
    ];
    assert_eq!(
        horizontal_edt(&map, (map.len() / str_edt.len(), str_edt.len()), false).unwrap(),
        parse_edt_str(&str_edt)
    );
}

#[test]
fn exact_edt_test_edt() {
    let map = test_map();
    let str_edt = [
        "0000000000",
        "0001111000",
        "0012442110",
        "0012442100",
        "0001111000",
    ];
    let shape = (map.len() / str_edt.len(), str_edt.len());
    let edt = edt_sq(&map, shape, false).unwrap();
    assert_eq!(edt, parse_edt_str(&str_edt));
}

#[test]
fn lib_test_edt() {
    let map = test_map();
    let str_edt = [
        "0000000000",
        "0001111000",
        "0012442110",
        "0012442100",
        "0001111000",
    ];
    let shape = (map.len() / str_edt.len(), str_edt.len());
    let edt = edt_sq(&map, shape, false).unwrap();
    assert_eq!(edt, parse_edt_str(&str_edt));
}

#[test]
fn exact_edt_relpos_test_edt() {
    let map = test_map();
    let str_edt = [
        "0000000000",
        "0001111000",
        "0012442110",
        "0012442100",
        "0001111000",
    ];
    let str_xs = [
        " 0 0 0 0 0 0 0 0 0 0",
        " 0 0 0-1 0 0 1 0 0 0",
        " 0 0-1-1 0 0 1 0 0 0",
        " 0 0 0-1 0 0 1 0 0 0",
        " 0 0 0-1 0 0 1 0 0 0",
    ];
    let str_ys = [
        " 0 0 0 0 0 0 0 0 0 0",
        " 0 0 0 0 1 1 0 0 0 0",
        " 0 0 0 1 2 2 1 1-1 0",
        " 0 0-1-1 2 2-1-1 0 0",
        " 0 0 0 0 1 1 0 0 0 0",
    ];
    let shape = (map.len() / str_edt.len(), str_edt.len());
    let edt = edt::exact_edt_relpos::edt_sq(&map, shape, false).unwrap();
    let expected = parse_edt_str_pixel(&str_edt, &str_xs, &str_ys);
    for (i, (a, b)) in edt.iter().zip(expected.iter()).enumerate() {
        assert_eq!(a, b, "{}", i);
    }
}

#[test]
fn shape_mismatch_is_rejected() {
    let map = test_map();
    assert_eq!(edt_sq(&map, (10, 4), false), Err(ShapeMismatch));
    assert_eq!(edt_sq(&map, (7, 7), false), Err(ShapeMismatch));
    assert_eq!(horizontal_edt(&map, (50, 0), false), Err(ShapeMismatch));
    assert!(edt::exact_edt_relpos::edt_sq(&map, (5, 5), false).is_err());
    assert!(edt::edt_fmm(&map, (10, 6), false).is_err());
    assert!(edt::fast_marcher_relpos::edt_fmm(&map, (0, 5), false).is_err());
    assert!(edt::edt_fmm_cb(&map, (11, 5), false, |_d| true).is_err());
    // the valid shape is accepted
    assert!(edt_sq(&map, (10, 5), false).is_ok());
}

#[test]
fn inversion_symmetry_on_sample() {
    let map = test_map();
    let complement: Vec<bool> = map.iter().map(|b| !b).collect();
    let a = edt_sq(&complement, (10, 5), false).unwrap();
    let b = edt_sq(&map, (10, 5), true).unwrap();
    assert_eq!(a, b);
}

#[test]
fn source_cells_report_zero() {
    let map = test_map();
    let edt = edt_sq(&map, (10, 5), false).unwrap();
    for (i, &occupied) in map.iter().enumerate() {
        if !occupied {
            assert_eq!(edt[i], 0, "{}", i);
        }
    }
}

#[test]
fn provenance_value_is_squared_offset_norm() {
    let map = test_map();
    let edt = edt::exact_edt_relpos::edt_sq(&map, (10, 5), false).unwrap();
    for p in &edt {
        let rx = p.relpos[0] as i64;
        let ry = p.relpos[1] as i64;
        assert_eq!(p.val as i64, rx * rx + ry * ry);
    }
}

#[test]
fn degenerate_grids_are_valid() {
    let empty: Vec<bool> = vec![];
    assert_eq!(edt_sq(&empty, (0, 0), false).unwrap(), Vec::<u64>::new());
    assert_eq!(edt_sq(&empty, (0, 7), false).unwrap(), Vec::<u64>::new());
    let one = vec![true];
    // the top boundary parabola clamps the single cell to zero
    assert_eq!(edt_sq(&one, (1, 1), false).unwrap(), vec![0]);
    let all_free = vec![false; 12];
    assert_eq!(edt_sq(&all_free, (4, 3), false).unwrap(), vec![0; 12]);
}

#[test]
fn reshape_splits_rows() {
    let v: Vec<u64> = vec![1, 2, 3, 4, 5, 6];
    let rows = reshape(&v, (3, 2));
    assert_eq!(rows, vec![vec![1, 2, 3], vec![4, 5, 6]]);
}

#[test]
fn flatten_concatenates() {
    let nested = vec![vec![1u64, 2], vec![], vec![3]];
    assert_eq!(flatten(nested), vec![1, 2, 3]);
}

#[test]
fn provenance_checks_top_boundary_first() {
    // an all-in-class 7 x 4 grid: at (3, 3) the bottom boundary is nearer,
    // but the provenance pass tests the top parabola first and it already
    // beats every row candidate
    let map = vec![true; 28];
    let scalar = edt_sq(&map, (7, 4), false).unwrap();
    let relpos = edt::exact_edt_relpos::edt_sq(&map, (7, 4), false).unwrap();
    let idx = 3 * 7 + 3;
    assert_eq!(scalar[idx], 1);
    assert_eq!(relpos[idx], Pixel { val: 9, relpos: [0, -3] });
    // the value still equals the squared norm of the recorded offset
    for p in &relpos {
        let rx = p.relpos[0] as i64;
        let ry = p.relpos[1] as i64;
        assert_eq!(p.val as i64, rx * rx + ry * ry);
    }
}
