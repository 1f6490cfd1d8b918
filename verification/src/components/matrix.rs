use vstd::prelude::*;
use crate::components::translation::Translation;

verus! {

/// Bit pattern of the `f32` value 1.0.
pub const ONE_BITS: u32 = 0x3F80_0000;

/// A homogeneous 4x4 matrix of single-precision entries, held as their
/// IEEE-754 bit patterns in column-major order, exactly as `nalgebra` lays a
/// 4x4 matrix out in memory. This core never does floating-point arithmetic
/// itself: it moves, composes and stores these bit patterns, and hands the
/// few genuinely arithmetic operations to the host as explicit requests.
#[derive(Clone, PartialEq, Eq, Debug)]
pub struct Mat4 {
    pub m: Vec<u32>,
}

impl View for Mat4 {
    type V = Seq<u32>;

    open spec fn view(&self) -> Seq<u32> {
        self.m@
    }
}

/// The identity matrix, column-major.
pub open spec fn spec_identity() -> Seq<u32> {
    seq![
        ONE_BITS, 0u32, 0u32, 0u32,
        0u32, ONE_BITS, 0u32, 0u32,
        0u32, 0u32, ONE_BITS, 0u32,
        0u32, 0u32, 0u32, ONE_BITS,
    ]
}

/// The homogeneous matrix of a pure translation: identity with (x, y, z) as
/// the last column, as `Translation3::to_homogeneous` builds it.
pub open spec fn spec_translation_matrix(t: Translation) -> Seq<u32> {
    seq![
        ONE_BITS, 0u32, 0u32, 0u32,
        0u32, ONE_BITS, 0u32, 0u32,
        0u32, 0u32, ONE_BITS, 0u32,
        t.x, t.y, t.z, ONE_BITS,
    ]
}

/// The homogeneous matrix of a uniform scaling: s on the first three
/// diagonal entries, 1.0 on the last.
pub open spec fn spec_scaling_matrix(s: u32) -> Seq<u32> {
    seq![
        s, 0u32, 0u32, 0u32,
        0u32, s, 0u32, 0u32,
        0u32, 0u32, s, 0u32,
        0u32, 0u32, 0u32, ONE_BITS,
    ]
}

/// The homogeneous matrix of a non-uniform scaling: (x, y, z) on the
/// diagonal, 1.0 last.
pub open spec fn spec_nonuniform_scaling_matrix(x: u32, y: u32, z: u32) -> Seq<u32> {
    seq![
        x, 0u32, 0u32, 0u32,
        0u32, y, 0u32, 0u32,
        0u32, 0u32, z, 0u32,
        0u32, 0u32, 0u32, ONE_BITS,
    ]
}

/// The homogeneous embedding of a 3x3 rotation matrix (given column-major as
/// nine bit patterns): the rotation block in the upper left, identity
/// elsewhere, as `Rotation3::to_homogeneous` builds it.
pub open spec fn spec_rotation_matrix(r: Seq<u32>) -> Seq<u32> {
    seq![
        r[0], r[1], r[2], 0u32,
        r[3], r[4], r[5], 0u32,
        r[6], r[7], r[8], 0u32,
        0u32, 0u32, 0u32, ONE_BITS,
    ]
}

impl Mat4 {
    /// A well-formed matrix holds exactly 16 entries.
    pub open spec fn wf(self) -> bool {
        self.m@.len() == 16
    }

    pub fn identity() -> (r: Mat4)
        ensures
            r.wf(),
            r@ == spec_identity(),
    {
        let m: Vec<u32> = vec![
            ONE_BITS, 0, 0, 0,
            0, ONE_BITS, 0, 0,
            0, 0, ONE_BITS, 0,
            0, 0, 0, ONE_BITS,
        ];
        proof {
            assert(m@ =~= spec_identity());
        }
        Mat4 { m }
    }

    /// An equal matrix with fresh storage.
    pub fn duplicate(&self) -> (r: Mat4)
        ensures
            r@ == self@,
    {
        let mut m: Vec<u32> = Vec::new();
        let mut i: usize = 0;
        while i < self.m.len()
            invariant
                i <= self.m@.len(),
                m@ == self.m@.subrange(0, i as int),
            decreases self.m@.len() - i,
        {
            m.push(self.m[i]);
            i = i + 1;
        }
        proof {
            assert(m@ =~= self@);
        }
        Mat4 { m }
    }

    pub fn from_translation(t: &Translation) -> (r: Mat4)
        ensures
            r.wf(),
            r@ == spec_translation_matrix(*t),
    {
        let m: Vec<u32> = vec![
            ONE_BITS, 0, 0, 0,
            0, ONE_BITS, 0, 0,
            0, 0, ONE_BITS, 0,
            t.x, t.y, t.z, ONE_BITS,
        ];
        proof {
            assert(m@ =~= spec_translation_matrix(*t));
        }
        Mat4 { m }
    }

    pub fn from_scaling(s: u32) -> (r: Mat4)
        ensures
            r.wf(),
            r@ == spec_scaling_matrix(s),
    {
        let m: Vec<u32> = vec![
            s, 0, 0, 0,
            0, s, 0, 0,
            0, 0, s, 0,
            0, 0, 0, ONE_BITS,
        ];
        proof {
            assert(m@ =~= spec_scaling_matrix(s));
        }
        Mat4 { m }
    }

    pub fn from_nonuniform_scaling(x: u32, y: u32, z: u32) -> (r: Mat4)
        ensures
            r.wf(),
            r@ == spec_nonuniform_scaling_matrix(x, y, z),
    {
        let m: Vec<u32> = vec![
            x, 0, 0, 0,
            0, y, 0, 0,
            0, 0, z, 0,
            0, 0, 0, ONE_BITS,
        ];
        proof {
            assert(m@ =~= spec_nonuniform_scaling_matrix(x, y, z));
        }
        Mat4 { m }
    }
}

} // verus!
