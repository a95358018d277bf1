//! Fixed-point arithmetic for the fast-marching solver.
//!
//! Wavefront arrival costs are kept as `u64` multiples of `1 / SCALE`, so a
//! cost of one cell of distance is stored as [`SCALE`]. All cost arithmetic
//! saturates at [`CAP`], which keeps every intermediate product inside `u64`.

use vstd::prelude::*;

verus! {

/// Number of fixed-point units per cell of distance.
pub const SCALE: u64 = 1024;

/// Largest representable cost; arithmetic on costs saturates here.
pub const CAP: u64 = 0xFFFF_FFFF;

/// The integer square root, rounded down.
pub open spec fn sqrt_floor(n: int) -> int
    decreases n,
{
    if n <= 0 {
        0
    } else {
        let r = sqrt_floor(n - 1);
        if (r + 1) * (r + 1) <= n {
            r + 1
        } else {
            r
        }
    }
}

pub proof fn lemma_sqrt_floor(n: int)
    requires
        n >= 0,
    ensures
        sqrt_floor(n) >= 0,
        sqrt_floor(n) * sqrt_floor(n) <= n,
        n < (sqrt_floor(n) + 1) * (sqrt_floor(n) + 1),
    decreases n,
{
    if n > 0 {
        lemma_sqrt_floor(n - 1);
        let r = sqrt_floor(n - 1);
        if (r + 1) * (r + 1) <= n {
            assert(n < (r + 2) * (r + 2)) by (nonlinear_arith)
                requires
                    r >= 0,
                    n - 1 < (r + 1) * (r + 1),
            ;
        }
    }
}

pub proof fn lemma_sqrt_floor_unique(n: int, r: int)
    requires
        n >= 0,
        r >= 0,
        r * r <= n,
        n < (r + 1) * (r + 1),
    ensures
        r == sqrt_floor(n),
{
    lemma_sqrt_floor(n);
    let s = sqrt_floor(n);
    assert(r == s) by (nonlinear_arith)
        requires
            r >= 0,
            s >= 0,
            r * r <= n,
            n < (r + 1) * (r + 1),
            s * s <= n,
            n < (s + 1) * (s + 1),
    ;
}

/// The integer square root of a `u64`, rounded down.
pub fn isqrt(n: u64) -> (r: u64)
    ensures
        r * r <= n,
        n < (r + 1) * (r + 1),
        r == sqrt_floor(n as int),
{
    let mut lo: u64 = 0;
    let mut hi: u64 = 0x1_0000_0000;
    while hi - lo > 1
        invariant
            lo < hi <= 0x1_0000_0000,
            lo * lo <= n,
            n < hi * hi,
        decreases hi - lo,
    {
        let mid: u64 = lo + (hi - lo) / 2;
        proof {
            assert(mid < hi);
            assert(mid * mid <= 0xFFFF_FFFE_0000_0001) by (nonlinear_arith)
                requires
                    mid <= 0xFFFF_FFFF,
            ;
        }
        if mid * mid <= n {
            lo = mid;
        } else {
            hi = mid;
        }
    }
    assert(hi == lo + 1);
    proof {
        lemma_sqrt_floor_unique(n as int, lo as int);
    }
    lo
}

/// Saturating value of `v` under [`CAP`].
pub open spec fn cap_at(v: int) -> int {
    if v > CAP {
        CAP as int
    } else {
        v
    }
}

/// The discretized Eikonal update: the arrival cost of a cell given the upwind
/// one-sided costs `u_h` and `u_v` along each axis and the local `speed`
/// multiplier, all in fixed point. `None` means the axis has no known value.
pub open spec fn eikonal_spec(u_h: Option<u64>, u_v: Option<u64>, speed: u64) -> int {
    let s = sqrt_floor(speed * SCALE);
    match (u_h, u_v) {
        (Some(a), Some(b)) => {
            let d = if a >= b {
                a - b
            } else {
                b - a
            };
            let lo = if a <= b {
                a
            } else {
                b
            };
            if d * d > 2 * speed * SCALE {
                cap_at(lo + s)
            } else {
                cap_at((a + b + sqrt_floor(2 * speed * SCALE - d * d)) / 2)
            }
        },
        (Some(a), None) => cap_at(a + s),
        (None, Some(b)) => cap_at(b + s),
        (None, None) => 0,
    }
}

/// Computes [`eikonal_spec`] on concrete values.
pub fn eikonal_cost(u_h: Option<u64>, u_v: Option<u64>, speed: u64) -> (r: u64)
    requires
        u_h is Some || u_v is Some,
        u_h matches Some(a) ==> a <= CAP,
        u_v matches Some(b) ==> b <= CAP,
        speed <= CAP,
    ensures
        r == eikonal_spec(u_h, u_v, speed),
        r <= CAP,
        u_h matches Some(a) ==> (u_v matches Some(b) ==> (r >= a || r >= b)),
        u_h matches Some(a) ==> (u_v is None ==> r >= a),
        u_v matches Some(b) ==> (u_h is None ==> r >= b),
{
    let s: u64 = isqrt(speed * SCALE);
    proof {
        assert(s <= 0x40_0000) by (nonlinear_arith)
            requires
                s * s <= speed * SCALE,
                speed * SCALE < 0x1000_0000_0000,
        ;
    }
    let r: u64 = match (u_h, u_v) {
        (Some(a), Some(b)) => {
            let d: u64 = if a >= b {
                a - b
            } else {
                b - a
            };
            let lo: u64 = if a <= b {
                a
            } else {
                b
            };
            proof {
                assert(d * d <= 0xFFFF_FFFF_0000_0000) by (nonlinear_arith)
                    requires
                        d <= 0xFFFF_FFFF,
                ;
            }
            if d * d > 2 * speed * SCALE {
                if lo + s > CAP {
                    CAP
                } else {
                    lo + s
                }
            } else {
                let root: u64 = isqrt(2 * speed * SCALE - d * d);
                proof {
                    assert(root <= 0x80_0000) by (nonlinear_arith)
                        requires
                            root * root <= 2 * speed * SCALE - d * d,
                            2 * speed * SCALE - d * d < 0x2000_0000_0000,
                    ;
                }
                let sum: u64 = (a + b + root) / 2;
                if sum > CAP {
                    CAP
                } else {
                    sum
                }
            }
        },
        (Some(a), None) => {
            if a + s > CAP {
                CAP
            } else {
                a + s
            }
        },
        (None, Some(b)) => {
            if b + s > CAP {
                CAP
            } else {
                b + s
            }
        },
        (None, None) => 0,
    };
    proof {
        lemma_sqrt_floor(speed * SCALE);
        match (u_h, u_v) {
            (Some(a), Some(b)) => {
                let d: int = if a >= b {
                    a - b
                } else {
                    (b - a) as int
                };
                if d * d <= 2 * speed * SCALE {
                    lemma_sqrt_floor(2 * speed * SCALE - d * d);
                }
            },
            _ => {},
        }
    }
    r
}

} // verus!
