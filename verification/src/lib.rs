//! Two-dimensional Euclidean distance transforms of binary occupancy grids.
//!
//! Two engines solve the same problem with different trade-offs:
//!
//! * an exact separable transform (two one-dimensional passes), exposed as
//!   [`edt_sq`] for squared distances, with a variant in [`exact_edt_relpos`]
//!   that also reports the offset to the nearest source cell;
//! * an approximate fast-marching solver that propagates a wavefront from the
//!   boundary, exposed as [`edt_fmm`] and, with source tracking and stepwise
//!   evaluation, in [`fast_marcher_relpos`].
//!
//! Distances are kept in integer arithmetic throughout: the exact transform
//! returns squared distances, which are whole numbers, and the fast-marching
//! solver works in fixed point with [`fixed::SCALE`] units per cell of
//! distance.

use vstd::prelude::*;

pub mod exact_edt;
pub mod exact_edt_relpos;
pub mod fast_marcher;
pub mod fast_marcher_relpos;
pub mod fixed;
pub mod primitive_impl;
pub mod test_util;

pub use exact_edt::edt_sq;
pub use exact_edt::horizontal_edt;
pub use exact_edt::ShapeMismatch;
pub use fast_marcher::edt_fmm;
pub use fast_marcher::edt_fmm_cb;
pub use fast_marcher::FMMCallbackData;
pub use fast_marcher::GridPos;

verus! {

/// A trait for types that can be interpreted as a bool.
///
/// Primitive numerical types implement this trait, so you don't have to
/// implement this by yourself. However, you could implement it for your own
/// custom type, if you want.
pub trait BoolLike {
    /// The boolean that this value stands for.
    spec fn spec_as_bool(&self) -> bool;

    /// Interpret the value as a bool.
    fn as_bool(&self) -> (r: bool)
        ensures
            r == self.spec_as_bool(),
    ;
}

} // verus!
