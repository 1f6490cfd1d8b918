use vstd::prelude::*;
use crate::Entity;
use crate::components::local_to_world::LocalToWorld;
use crate::components::matrix::Mat4;
use crate::local_to_parent_system::{
    apply_results, plan_for, plan_of, results_view, ComposeRequest, Fixup,
};
use crate::world::{World, WorldView};
use crate::transform_system_bundle::Pass;

verus! {

/// The entities this pass may write: alive roots (no `Parent`) carrying a
/// `LocalToWorld`.
pub open spec fn targets_ltw(v: WorldView, i: int) -> bool {
    v.alive[i] && v.ltw[i].is_some() && v.parent[i].is_none()
}

/// The pass finishes entity `i` itself: its plan needs no floating point.
pub open spec fn writes_direct_ltw(v: WorldView, i: int) -> bool {
    targets_ltw(v, i) && plan_of(v, i).is_some() && plan_of(v, i).unwrap().1 == Fixup::Identity
}

/// The pass must hand entity `i` to the host.
pub open spec fn wants_request_ltw(v: WorldView, i: int) -> bool {
    targets_ltw(v, i) && plan_of(v, i).is_some() && plan_of(v, i).unwrap().1 != Fixup::Identity
}

/// Root entity `i` carries both `Scale` and `NonUniformScale`: the
/// reportable conflict. Its matrix is deliberately left untouched.
pub open spec fn conflicted_ltw(v: WorldView, i: int) -> bool {
    targets_ltw(v, i) && v.scale[i].is_some() && v.nus[i].is_some()
}

/// The entities below `upto` that must appear in the request list, in order.
pub open spec fn request_entities_ltw(v: WorldView, upto: int) -> Seq<Entity>
    decreases upto,
{
    if upto <= 0 {
        Seq::empty()
    } else if wants_request_ltw(v, upto - 1) {
        request_entities_ltw(v, upto - 1).push((upto - 1) as Entity)
    } else {
        request_entities_ltw(v, upto - 1)
    }
}

/// The root entities below `upto` with conflicting scales, in order.
pub open spec fn conflict_entities_ltw(v: WorldView, upto: int) -> Seq<Entity>
    decreases upto,
{
    if upto <= 0 {
        Seq::empty()
    } else if conflicted_ltw(v, upto - 1) {
        conflict_entities_ltw(v, upto - 1).push((upto - 1) as Entity)
    } else {
        conflict_entities_ltw(v, upto - 1)
    }
}

/// A root's world matrix is seeded by the very plan that composes its
/// local matrix: an entity both passes target gets the same base and the
/// same fix-up from either, so a root's `LocalToWorld` equals what its
/// `LocalToParent` would be.
pub proof fn lemma_root_seed_matches_local(v: WorldView, i: int)
    requires
        0 <= i < v.n(),
        targets_ltw(v, i),
        crate::local_to_parent_system::targets_ltp(v, i),
    ensures
        writes_direct_ltw(v, i) <==> crate::local_to_parent_system::writes_direct_ltp(v, i),
        wants_request_ltw(v, i) <==> crate::local_to_parent_system::wants_request_ltp(v, i),
{
}

pub fn build() -> (r: Pass)
    ensures
        r == Pass::LocalToWorld,
{
    Pass::LocalToWorld
}

/// Compose `LocalToWorld` for every alive rootless entity that carries one
/// and has at least one transform field, by the same formulas as the
/// local-to-parent pass: a root's world matrix is its local matrix.
pub fn run(w: &mut World) -> (out: (Vec<ComposeRequest>, Vec<Entity>))
    requires
        old(w).wf(),
    ensures
        final(w).wf(),
        final(w)@ == (WorldView {
            ltw: Seq::new(old(w)@.n(), |i: int|
                if writes_direct_ltw(old(w)@, i) {
                    Option::Some(plan_of(old(w)@, i).unwrap().0)
                } else {
                    old(w)@.ltw[i]
                }),
            ..old(w)@
        }),
        out.0@.map_values(|rq: ComposeRequest| rq.entity)
            == request_entities_ltw(old(w)@, old(w)@.n() as int),
        forall|k: int| 0 <= k < out.0@.len() ==> {
            let rq = #[trigger] out.0@[k];
            &&& rq.entity < old(w)@.n()
            &&& wants_request_ltw(old(w)@, rq.entity as int)
            &&& rq.base.wf()
            &&& plan_of(old(w)@, rq.entity as int) == Option::Some((rq.base@, rq.fixup))
        },
        out.1@ == conflict_entities_ltw(old(w)@, old(w)@.n() as int),
{
    let n = w.len();
    let mut requests: Vec<ComposeRequest> = Vec::new();
    let mut conflicts: Vec<Entity> = Vec::new();
    let mut e: usize = 0;
    while e < n
        invariant
            old(w).wf(),
            w.wf(),
            n == old(w)@.n(),
            e <= n,
            w@ == (WorldView {
                ltw: Seq::new(old(w)@.n(), |i: int|
                    if i < e && writes_direct_ltw(old(w)@, i) {
                        Option::Some(plan_of(old(w)@, i).unwrap().0)
                    } else {
                        old(w)@.ltw[i]
                    }),
                ..old(w)@
            }),
            requests@.map_values(|rq: ComposeRequest| rq.entity)
                == request_entities_ltw(old(w)@, e as int),
            forall|k: int| 0 <= k < requests@.len() ==> {
                let rq = #[trigger] requests@[k];
                &&& rq.entity < old(w)@.n()
                &&& wants_request_ltw(old(w)@, rq.entity as int)
                &&& rq.base.wf()
                &&& plan_of(old(w)@, rq.entity as int) == Option::Some((rq.base@, rq.fixup))
            },
            conflicts@ == conflict_entities_ltw(old(w)@, e as int),
        decreases n - e,
    {
        let targeted = w.is_alive(e) && w.has_local_to_world(e) && w.get_parent(e).is_none();
        if targeted {
            let t = w.get_translation(e);
            let r = w.get_rotation(e);
            let s = w.get_scale(e);
            let nu = w.get_non_uniform_scale(e);
            if s.is_some() && nu.is_some() {
                conflicts.push(e);
            }
            match plan_for(&t, &r, &s, &nu) {
                Some((base, Fixup::Identity)) => {
                    w.set_local_to_world(e, LocalToWorld(base));
                }
                Some((base, fixup)) => {
                    requests.push(ComposeRequest { entity: e, base, fixup });
                }
                None => {}
            }
        }
        e = e + 1;
        proof {
            assert(w@ =~~= (WorldView {
                ltw: Seq::new(old(w)@.n(), |i: int|
                    if i < e && writes_direct_ltw(old(w)@, i) {
                        Option::Some(plan_of(old(w)@, i).unwrap().0)
                    } else {
                        old(w)@.ltw[i]
                    }),
                ..old(w)@
            }));
            assert(requests@.map_values(|rq: ComposeRequest| rq.entity)
                =~= request_entities_ltw(old(w)@, e as int));
            assert(conflicts@ =~= conflict_entities_ltw(old(w)@, e as int));
        }
    }
    proof {
        assert(w@ =~~= (WorldView {
            ltw: Seq::new(old(w)@.n(), |i: int|
                if writes_direct_ltw(old(w)@, i) {
                    Option::Some(plan_of(old(w)@, i).unwrap().0)
                } else {
                    old(w)@.ltw[i]
                }),
            ..old(w)@
        }));
    }
    (requests, conflicts)
}

/// Write the host's finished world matrices back. A result for an entity
/// that died or lost its `LocalToWorld` in the meantime is dropped.
pub fn apply_local_to_world(w: &mut World, results: Vec<(Entity, Mat4)>)
    requires
        old(w).wf(),
        forall|k: int| 0 <= k < results@.len()
            ==> (#[trigger] results@[k]).1@.len() == 16,
    ensures
        final(w).wf(),
        final(w)@ == (WorldView {
            ltw: apply_results(old(w)@.ltw, old(w)@.alive, results_view(results@)),
            ..old(w)@
        }),
{
    let n = w.len();
    let mut k: usize = 0;
    while k < results.len()
        invariant
            old(w).wf(),
            w.wf(),
            n == old(w)@.n(),
            k <= results@.len(),
            forall|j: int| 0 <= j < results@.len()
                ==> (#[trigger] results@[j]).1@.len() == 16,
            w@ == (WorldView {
                ltw: apply_results(old(w)@.ltw, old(w)@.alive,
                    results_view(results@).take(k as int)),
                ..old(w)@
            }),
        decreases results@.len() - k,
    {
        let ghost pre = w@;
        let e = results[k].0;
        if e < n && w.is_alive(e) && w.has_local_to_world(e) {
            let m = results[k].1.duplicate();
            w.set_local_to_world(e, LocalToWorld(m));
        }
        k = k + 1;
        proof {
            let rv = results_view(results@);
            assert(rv.take(k as int).drop_last() =~= rv.take(k - 1));
            assert(rv.take(k as int).last() == rv[k - 1]);
            assert(pre.ltw == apply_results(old(w)@.ltw, old(w)@.alive, rv.take(k - 1)));
            assert(w@ =~~= (WorldView {
                ltw: apply_results(old(w)@.ltw, old(w)@.alive, rv.take(k as int)),
                ..old(w)@
            }));
        }
    }
    proof {
        assert(results_view(results@).take(results@.len() as int) =~= results_view(results@));
        assert(w@ =~~= (WorldView {
            ltw: apply_results(old(w)@.ltw, old(w)@.alive, results_view(results@)),
            ..old(w)@
        }));
    }
}

} // verus!
