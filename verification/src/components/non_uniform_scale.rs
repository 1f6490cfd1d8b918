use vstd::prelude::*;

verus! {

/// A per-axis scale (x, y, z), each factor held as the bit pattern of an
/// `f32` value.
#[derive(Clone, Copy, PartialEq, Eq, Structural, Debug)]
pub struct NonUniformScale {
    pub x: u32,
    pub y: u32,
    pub z: u32,
}

impl NonUniformScale {
    pub fn new(x: u32, y: u32, z: u32) -> (r: Self)
        ensures
            r == (NonUniformScale { x, y, z }),
    {
        NonUniformScale { x, y, z }
    }
}

} // verus!
