use vstd::prelude::*;
use crate::Entity;
use crate::parent_system::{assign_roots, forest_contains, forest_nodes, tree_contains, tree_ok, TreeNode};
use crate::local_to_world_propagate_system::child_list;
use crate::parent_update_system::without;
use crate::world::{World, WorldView};
use crate::transform_system_bundle::Pass;

verus! {

/// A buffered world mutation of the children index, applied at a barrier:
/// either kind names the child first and the parent second.
pub enum WorldMutation {
    AddEntityToParentChildren(Entity, Entity),
    RemoveEntityFromParentChildren(Entity, Entity),
}

/// What applying one buffered mutation does: an addition appends the child
/// to the parent's collection (creating the collection when the parent has
/// none), a removal filters the child out of it. A parent that is dead or,
/// for a removal, has no collection, makes the mutation a no-op.
pub open spec fn spec_apply_mutation(v: WorldView, m: WorldMutation) -> WorldView {
    match m {
        WorldMutation::AddEntityToParentChildren(e, p) => {
            if p < v.n() && v.alive[p as int] {
                if v.children[p as int].is_some() {
                    WorldView {
                        children: v.children.update(p as int,
                            Option::Some(v.children[p as int].unwrap().push(e))),
                        ..v
                    }
                } else {
                    WorldView {
                        children: v.children.update(p as int, Option::Some(seq![e])),
                        ..v
                    }
                }
            } else {
                v
            }
        }
        WorldMutation::RemoveEntityFromParentChildren(e, p) => {
            if p < v.n() && v.children[p as int].is_some() {
                let cs = v.children[p as int].unwrap();
                WorldView {
                    children: v.children.update(p as int,
                        Option::Some(without(cs, e, cs.len() as int))),
                    ..v
                }
            } else {
                v
            }
        }
    }
}

impl WorldMutation {
    pub fn apply(self, w: &mut World)
        requires
            old(w).wf(),
            (match self {
                WorldMutation::AddEntityToParentChildren(e, p) => e < old(w)@.n(),
                WorldMutation::RemoveEntityFromParentChildren(e, p) => true,
            }),
        ensures
            final(w).wf(),
            final(w)@ == spec_apply_mutation(old(w)@, self),
    {
        match self {
            WorldMutation::AddEntityToParentChildren(entity, parent) => {
                if parent < w.len() && w.is_alive(parent) {
                    if w.has_children(parent) {
                        w.children_push(parent, entity);
                    } else {
                        let single: Vec<Entity> = vec![entity];
                        proof {
                            assert(single@ =~= seq![entity]);
                        }
                        w.set_children(parent, &single);
                    }
                }
            }
            WorldMutation::RemoveEntityFromParentChildren(entity, parent) => {
                if parent < w.len() {
                    match w.get_children(parent) {
                        Some(lst) => {
                            let filtered = crate::parent_update_system::remove_element_vec(
                                &lst, entity);
                            proof {
                                crate::parent_update_system::lemma_without_bounds(
                                    lst@, entity, lst@.len() as int, old(w)@.n());
                            }
                            w.set_children(parent, &filtered);
                        }
                        None => {}
                    }
                }
            }
        }
    }
}

/// The hierarchy maintainer and the depth assigner as one bundle.
#[derive(Default)]
pub struct TransformSystemBundle;

impl TransformSystemBundle {
    pub fn build(&mut self) -> (r: Vec<Pass>)
        ensures
            r@ == seq![Pass::ParentUpdate, Pass::AssignDepths],
    {
        let mut v: Vec<Pass> = Vec::new();
        v.push(Pass::ParentUpdate);
        v.push(Pass::AssignDepths);
        proof {
            assert(v@ =~= seq![Pass::ParentUpdate, Pass::AssignDepths]);
        }
        v
    }

    /// The depth assigner, runnable on its own between barriers.
    pub fn set_depths_system(w: &mut World) -> (forest: Vec<TreeNode>)
        requires
            old(w).wf(),
        ensures
            final(w).wf(),
            forall|k: int| 0 <= k < forest@.len() ==> tree_ok((#[trigger] forest@[k]), old(w)@),
            forall|k: int| 0 <= k < forest@.len()
                ==> old(w)@.changed.contains((#[trigger] forest@[k]).entity),
            forall|k: int| 0 <= k < old(w)@.changed.len()
                && old(w)@.alive[old(w)@.changed[k] as int]
                && old(w)@.parent[old(w)@.changed[k] as int].is_some()
                ==> forest_contains(forest@, #[trigger] old(w)@.changed[k]),
            forall|x: Entity, ci: int|
                forest_contains(forest@, x) && 0 <= ci < child_list(old(w)@, x as int).len()
                    && old(w)@.alive[(#[trigger] child_list(old(w)@, x as int)[ci]) as int]
                ==> forest_contains(forest@, child_list(old(w)@, x as int)[ci]),
            forall|x: Entity| #[trigger] forest_nodes(forest@).count(x) <= 1,
            forall|k1: int, k2: int, x: Entity|
                0 <= k1 < k2 < forest@.len()
                    && #[trigger] tree_contains(forest@[k1], x)
                    && #[trigger] tree_contains(forest@[k2], x)
                ==> false,
            final(w)@ == (WorldView {
                depth: assign_roots(forest@, forest@.len() as int,
                    old(w)@.depth, old(w)@.tag, old(w)@).0,
                tag: assign_roots(forest@, forest@.len() as int,
                    old(w)@.depth, old(w)@.tag, old(w)@).1,
                ..old(w)@
            }),
    {
        crate::parent_system::run(w)
    }
}

} // verus!
