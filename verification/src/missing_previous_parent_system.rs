use vstd::prelude::*;
use crate::Entity;
use crate::components::parent::PreviousParent;
use crate::world::{World, WorldView};
use crate::transform_system_bundle::Pass;

verus! {

/// Which entities this pass touches: alive, carrying `Parent` but no
/// `PreviousParent` yet.
pub open spec fn needs_previous_parent(v: WorldView, i: int) -> bool {
    &&& v.alive[i]
    &&& v.parent[i].is_some()
    &&& v.prev[i].is_none()
}

pub fn build() -> (r: Pass)
    ensures
        r == Pass::MissingPreviousParent,
{
    Pass::MissingPreviousParent
}

/// Give every entity that needs one a `PreviousParent` of none, so that
/// "entity with `Parent` implies `PreviousParent`" holds before the
/// hierarchy maintainer runs. Nothing else changes.
pub fn run(w: &mut World)
    requires
        old(w).wf(),
    ensures
        final(w).wf(),
        final(w)@ == (WorldView {
            prev: Seq::new(old(w)@.n(), |i: int|
                if needs_previous_parent(old(w)@, i) {
                    Option::Some(Option::<Entity>::None)
                } else {
                    old(w)@.prev[i]
                }),
            ..old(w)@
        }),
{
    let n = w.len();
    let mut e: usize = 0;
    while e < n
        invariant
            old(w).wf(),
            w.wf(),
            n == old(w)@.n(),
            e <= n,
            w@ == (WorldView {
                prev: Seq::new(old(w)@.n(), |i: int|
                    if i < e && needs_previous_parent(old(w)@, i) {
                        Option::Some(Option::<Entity>::None)
                    } else {
                        old(w)@.prev[i]
                    }),
                ..old(w)@
            }),
        decreases n - e,
    {
        let ghost pre = w@;
        if w.is_alive(e) && w.get_parent(e).is_some() && w.get_previous_parent(e).is_none() {
            w.set_previous_parent(e, PreviousParent(None));
        }
        e = e + 1;
        proof {
            assert(w@ =~~= (WorldView {
                prev: Seq::new(old(w)@.n(), |i: int|
                    if i < e && needs_previous_parent(old(w)@, i) {
                        Option::Some(Option::<Entity>::None)
                    } else {
                        old(w)@.prev[i]
                    }),
                ..old(w)@
            }));
        }
    }
    proof {
        assert(w@ =~~= (WorldView {
            prev: Seq::new(old(w)@.n(), |i: int|
                if needs_previous_parent(old(w)@, i) {
                    Option::Some(Option::<Entity>::None)
                } else {
                    old(w)@.prev[i]
                }),
            ..old(w)@
        }));
    }
}

} // verus!
