use vstd::prelude::*;
use crate::components::matrix::ONE_BITS;

verus! {

/// A uniform scale factor, held as the bit pattern of an `f32` value.
#[derive(Clone, Copy, PartialEq, Eq, Structural, Debug)]
pub struct Scale(pub u32);

impl Scale {
    /// The identity scale: 1.0.
    pub fn identity() -> (r: Self)
        ensures
            r == Scale(ONE_BITS),
    {
        Scale(ONE_BITS)
    }
}

} // verus!
