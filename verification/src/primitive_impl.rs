//! [`BoolLike`] implementations for the primitive integer types.

use crate::BoolLike;
use vstd::prelude::*;

verus! {

impl BoolLike for bool {
    open spec fn spec_as_bool(&self) -> bool {
        *self
    }

    fn as_bool(&self) -> (r: bool) {
        *self
    }
}

impl BoolLike for u8 {
    open spec fn spec_as_bool(&self) -> bool {
        *self != 0
    }

    fn as_bool(&self) -> (r: bool) {
        *self != 0
    }
}

impl BoolLike for i8 {
    open spec fn spec_as_bool(&self) -> bool {
        *self != 0
    }

    fn as_bool(&self) -> (r: bool) {
        *self != 0
    }
}

impl BoolLike for u16 {
    open spec fn spec_as_bool(&self) -> bool {
        *self != 0
    }

    fn as_bool(&self) -> (r: bool) {
        *self != 0
    }
}

impl BoolLike for i16 {
    open spec fn spec_as_bool(&self) -> bool {
        *self != 0
    }

    fn as_bool(&self) -> (r: bool) {
        *self != 0
    }
}

impl BoolLike for u32 {
    open spec fn spec_as_bool(&self) -> bool {
        *self != 0
    }

    fn as_bool(&self) -> (r: bool) {
        *self != 0
    }
}

impl BoolLike for i32 {
    open spec fn spec_as_bool(&self) -> bool {
        *self != 0
    }

    fn as_bool(&self) -> (r: bool) {
        *self != 0
    }
}

impl BoolLike for u64 {
    open spec fn spec_as_bool(&self) -> bool {
        *self != 0
    }

    fn as_bool(&self) -> (r: bool) {
        *self != 0
    }
}

impl BoolLike for i64 {
    open spec fn spec_as_bool(&self) -> bool {
        *self != 0
    }

    fn as_bool(&self) -> (r: bool) {
        *self != 0
    }
}

impl BoolLike for u128 {
    open spec fn spec_as_bool(&self) -> bool {
        *self != 0
    }

    fn as_bool(&self) -> (r: bool) {
        *self != 0
    }
}

impl BoolLike for i128 {
    open spec fn spec_as_bool(&self) -> bool {
        *self != 0
    }

    fn as_bool(&self) -> (r: bool) {
        *self != 0
    }
}

impl BoolLike for usize {
    open spec fn spec_as_bool(&self) -> bool {
        *self != 0
    }

    fn as_bool(&self) -> (r: bool) {
        *self != 0
    }
}

impl BoolLike for isize {
    open spec fn spec_as_bool(&self) -> bool {
        *self != 0
    }

    fn as_bool(&self) -> (r: bool) {
        *self != 0
    }
}

} // verus!
