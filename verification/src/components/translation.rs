use vstd::prelude::*;

verus! {

/// A translation by (x, y, z), each coordinate held as the bit pattern of an
/// `f32` value.
#[derive(Clone, Copy, PartialEq, Eq, Structural, Debug)]
pub struct Translation {
    pub x: u32,
    pub y: u32,
    pub z: u32,
}

impl Translation {
    /// The three coordinates in order, as a sequence of bit patterns.
    pub open spec fn bits(self) -> Seq<u32> {
        seq![self.x, self.y, self.z]
    }

    /// The identity translation: all coordinates are 0.0 (bit pattern 0).
    pub fn identity() -> (r: Self)
        ensures
            r == (Translation { x: 0u32, y: 0u32, z: 0u32 }),
    {
        Translation { x: 0, y: 0, z: 0 }
    }

    pub fn new(x: u32, y: u32, z: u32) -> (r: Self)
        ensures
            r == (Translation { x, y, z }),
    {
        Translation { x, y, z }
    }
}

} // verus!
