use vstd::prelude::*;
use crate::components::matrix::{Mat4, spec_identity};

verus! {

/// The homogeneous matrix mapping an entity's local space into world space.
#[derive(Clone, PartialEq, Eq, Debug)]
pub struct LocalToWorld(pub Mat4);

impl LocalToWorld {
    pub open spec fn wf(self) -> bool {
        self.0.wf()
    }

    pub fn identity() -> (r: Self)
        ensures
            r.wf(),
            r.0@ == spec_identity(),
    {
        LocalToWorld(Mat4::identity())
    }
}

} // verus!
