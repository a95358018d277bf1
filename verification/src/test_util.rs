//! Small helpers shared by the test suite: a sample grid and buffer
//! reshaping.

use vstd::prelude::*;

verus! {

/// The sample 10 x 5 occupancy grid used by the tests, row-major;
/// `true` marks an in-class cell.
pub open spec fn test_map_spec() -> Seq<bool> {
    seq![
        false,
        false,
        false,
        false,
        false,
        false,
        false,
        false,
        false,
        false,
        false,
        false,
        false,
        true,
        true,
        true,
        true,
        false,
        false,
        false,
        false,
        false,
        true,
        true,
        true,
        true,
        true,
        true,
        true,
        false,
        false,
        false,
        true,
        true,
        true,
        true,
        true,
        true,
        false,
        false,
        false,
        false,
        false,
        true,
        true,
        true,
        true,
        false,
        false,
        false,
    ]
}

/// Builds the sample 10 x 5 occupancy grid used by the tests.
pub fn test_map() -> (r: Vec<bool>)
    ensures
        r@ == test_map_spec(),
        r@.len() == 50,
{
    let r: Vec<bool> = vec![
        false,
        false,
        false,
        false,
        false,
        false,
        false,
        false,
        false,
        false,
        false,
        false,
        false,
        true,
        true,
        true,
        true,
        false,
        false,
        false,
        false,
        false,
        true,
        true,
        true,
        true,
        true,
        true,
        true,
        false,
        false,
        false,
        true,
        true,
        true,
        true,
        true,
        true,
        false,
        false,
        false,
        false,
        false,
        true,
        true,
        true,
        true,
        false,
        false,
        false,
    ];
    proof {
        assert(r@ =~= test_map_spec());
    }
    r
}

/// Splits a flat row-major buffer into its rows.
pub fn reshape<T: Copy>(v: &Vec<T>, shape: (usize, usize)) -> (r: Vec<Vec<T>>)
    requires
        shape.0 * shape.1 <= v@.len(),
    ensures
        r@.len() == shape.1,
        forall|y: int|
            0 <= y < shape.1 ==> (#[trigger] r@[y])@ == v@.subrange(
                y * shape.0,
                y * shape.0 + shape.0,
            ),
{
    let (w, h) = shape;
    let len = v.len();
    let mut r: Vec<Vec<T>> = Vec::new();
    let mut y: usize = 0;
    while y < h
        invariant
            y <= h,
            r@.len() == y,
            w == shape.0,
            h == shape.1,
            len == v@.len(),
            w * h <= len,
            forall|y2: int|
                0 <= y2 < y ==> (#[trigger] r@[y2])@ == v@.subrange(y2 * w, y2 * w + w),
        decreases h - y,
    {
        proof {
            assert(y * w + w <= w * h) by (nonlinear_arith)
                requires
                    0 <= y < h,
                    0 <= w,
            ;
        }
        let base = y * w;
        let mut row: Vec<T> = Vec::new();
        let mut x: usize = 0;
        while x < w
            invariant
                x <= w,
                base == y * w,
                len == v@.len(),
                base + w <= len,
                row@.len() == x,
                forall|x2: int| 0 <= x2 < x ==> #[trigger] row@[x2] == v@[y * w + x2],
            decreases w - x,
        {
            row.push(v[base + x]);
            x += 1;
        }
        proof {
            assert(row@ =~= v@.subrange(y * w, y * w + w));
        }
        r.push(row);
        y += 1;
    }
    r
}

/// The concatenation of a sequence of buffers.
pub open spec fn flatten_spec<T>(s: Seq<Vec<T>>) -> Seq<T>
    decreases s.len(),
{
    if s.len() == 0 {
        Seq::empty()
    } else {
        s.first()@ + flatten_spec(s.drop_first())
    }
}

/// Concatenates nested buffers into one flat buffer.
pub fn flatten<T>(nested: Vec<Vec<T>>) -> (r: Vec<T>)
    ensures
        r@ == flatten_spec(nested@),
{
    let ghost orig = nested@;
    let mut nested = nested;
    let mut r: Vec<T> = Vec::new();
    while nested.len() > 0
        invariant
            flatten_spec(orig) == r@ + flatten_spec(nested@),
        decreases nested@.len(),
    {
        let mut v = nested.remove(0);
        let ghost vview = v@;
        let ghost racc = r@;
        r.append(&mut v);
        proof {
            assert(r@ == racc + vview);
            assert(flatten_spec(orig) =~= r@ + flatten_spec(nested@));
        }
    }
    proof {
        assert(flatten_spec(nested@) =~= Seq::<T>::empty());
        assert(flatten_spec(orig) =~= r@);
    }
    r
}

} // verus!
