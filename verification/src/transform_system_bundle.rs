use vstd::prelude::*;

verus! {

/// One pass of the per-tick pipeline. The host schedules these strictly in
/// the order `build` returns them, with a barrier between consecutive
/// passes.
#[derive(Clone, Copy, PartialEq, Eq, Structural, Debug)]
pub enum Pass {
    /// Give every maintained entity that carries a `Parent` a
    /// `PreviousParent` record before the maintainer runs.
    MissingPreviousParent,
    /// Reconcile each parent's `Children` collection and each child's
    /// `PreviousParent` with the authoritative `Parent` links.
    ParentUpdate,
    /// Assign each reparented entity (and its descendants) its distance
    /// from the nearest rootless ancestor.
    AssignDepths,
    /// Compose `LocalToParent` from the decomposed transform fields.
    LocalToParent,
    /// Seed `LocalToWorld` for rootless entities from the same fields.
    LocalToWorld,
    /// Walk each hierarchy root-down and compose world matrices.
    Propagate,
}

/// The full per-tick schedule, in the only order the passes may run.
pub fn build() -> (r: Vec<Pass>)
    ensures
        r@ == seq![
            Pass::MissingPreviousParent,
            Pass::ParentUpdate,
            Pass::AssignDepths,
            Pass::LocalToParent,
            Pass::LocalToWorld,
            Pass::Propagate,
        ],
{
    let mut v: Vec<Pass> = Vec::new();
    v.push(Pass::MissingPreviousParent);
    v.push(Pass::ParentUpdate);
    v.push(Pass::AssignDepths);
    v.push(Pass::LocalToParent);
    v.push(Pass::LocalToWorld);
    v.push(Pass::Propagate);
    proof {
        assert(v@ =~= seq![
            Pass::MissingPreviousParent,
            Pass::ParentUpdate,
            Pass::AssignDepths,
            Pass::LocalToParent,
            Pass::LocalToWorld,
            Pass::Propagate,
        ]);
    }
    v
}

} // verus!
