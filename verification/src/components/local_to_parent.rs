use vstd::prelude::*;
use crate::components::matrix::{Mat4, spec_identity};

verus! {

/// The homogeneous matrix mapping an entity's local space into its parent's
/// space (or into world space, for an entity without a parent).
#[derive(Clone, PartialEq, Eq, Debug)]
pub struct LocalToParent(pub Mat4);

impl LocalToParent {
    pub open spec fn wf(self) -> bool {
        self.0.wf()
    }

    pub fn identity() -> (r: Self)
        ensures
            r.wf(),
            r.0@ == spec_identity(),
    {
        LocalToParent(Mat4::identity())
    }
}

} // verus!
