use vstd::prelude::*;
use crate::components::matrix::{Mat4, spec_rotation_matrix, ONE_BITS};

verus! {

/// A 3x3 rotation matrix of single-precision entries, held as their IEEE-754
/// bit patterns in column-major order.
#[derive(Clone, PartialEq, Eq, Debug)]
pub struct Rotation {
    pub m: Vec<u32>,
}

impl View for Rotation {
    type V = Seq<u32>;

    open spec fn view(&self) -> Seq<u32> {
        self.m@
    }
}

impl Rotation {
    /// A well-formed rotation holds exactly 9 entries.
    pub open spec fn wf(self) -> bool {
        self.m@.len() == 9
    }

    /// The identity rotation.
    pub fn identity() -> (r: Rotation)
        ensures
            r.wf(),
            r@ == seq![
                ONE_BITS, 0u32, 0u32,
                0u32, ONE_BITS, 0u32,
                0u32, 0u32, ONE_BITS,
            ],
    {
        let m: Vec<u32> = vec![
            ONE_BITS, 0, 0,
            0, ONE_BITS, 0,
            0, 0, ONE_BITS,
        ];
        proof {
            assert(m@ =~= seq![
                ONE_BITS, 0u32, 0u32,
                0u32, ONE_BITS, 0u32,
                0u32, 0u32, ONE_BITS,
            ]);
        }
        Rotation { m }
    }

    /// An equal rotation with fresh storage.
    pub fn duplicate(&self) -> (r: Rotation)
        ensures
            r@ == self@,
    {
        let mut m: Vec<u32> = Vec::new();
        let mut i: usize = 0;
        while i < self.m.len()
            invariant
                i <= self.m@.len(),
                m@ == self.m@.subrange(0, i as int),
            decreases self.m@.len() - i,
        {
            m.push(self.m[i]);
            i = i + 1;
        }
        proof {
            assert(m@ =~= self@);
        }
        Rotation { m }
    }

    /// The homogeneous embedding of this rotation, as
    /// `Rotation3::to_homogeneous` builds it: the 3x3 block copied into the
    /// identity.
    pub fn to_homogeneous(&self) -> (r: Mat4)
        requires
            self.wf(),
        ensures
            r.wf(),
            r@ == spec_rotation_matrix(self@),
    {
        let m: Vec<u32> = vec![
            self.m[0], self.m[1], self.m[2], 0,
            self.m[3], self.m[4], self.m[5], 0,
            self.m[6], self.m[7], self.m[8], 0,
            0, 0, 0, ONE_BITS,
        ];
        proof {
            assert(m@ =~= spec_rotation_matrix(self@));
        }
        Mat4 { m }
    }
}

} // verus!
