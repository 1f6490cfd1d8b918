use vstd::prelude::*;
use crate::Entity;
use crate::components::local_to_parent::LocalToParent;
use crate::components::matrix::{
    Mat4, spec_nonuniform_scaling_matrix, spec_rotation_matrix, spec_scaling_matrix,
    spec_translation_matrix,
};
use crate::components::non_uniform_scale::NonUniformScale;
use crate::components::rotation::Rotation;
use crate::components::scale::Scale;
use crate::components::translation::Translation;
use crate::world::{World, WorldView};
use crate::transform_system_bundle::Pass;

verus! {

/// The floating-point work the host still has to apply to a base matrix.
/// Scale is always prepended (applied first) and translation appended
/// (applied last): the fixed translate-rotate-scale composition order.
#[derive(Clone, Copy, PartialEq, Eq, Structural, Debug)]
pub enum Fixup {
    /// The base matrix already is the finished local matrix.
    Identity,
    AppendTranslation(Translation),
    PrependScaling(u32),
    PrependNonUniformScaling(NonUniformScale),
    AppendTranslationThenPrependScaling(Translation, u32),
    AppendTranslationThenPrependNonUniformScaling(Translation, NonUniformScale),
}

/// One matrix the host must finish: apply `fixup` to `base` and hand the
/// result back for `entity`.
pub struct ComposeRequest {
    pub entity: Entity,
    pub base: Mat4,
    pub fixup: Fixup,
}

/// The local matrix called for by an entity's present transform fields:
/// a base matrix the core builds bit-exactly itself, and the floating-point
/// fix-up left to the host. None when no field is present, and none for the
/// conflicting combination of both scale kinds, which is reported instead
/// and leaves the old matrix untouched.
pub open spec fn local_matrix_plan(
    t: Option<Translation>,
    r: Option<Seq<u32>>,
    s: Option<u32>,
    nu: Option<NonUniformScale>,
) -> Option<(Seq<u32>, Fixup)> {
    if s.is_some() && nu.is_some() {
        Option::None
    } else if t.is_some() {
        if r.is_some() {
            if s.is_some() {
                Option::Some((spec_rotation_matrix(r.unwrap()),
                    Fixup::AppendTranslationThenPrependScaling(t.unwrap(), s.unwrap())))
            } else if nu.is_some() {
                Option::Some((spec_rotation_matrix(r.unwrap()),
                    Fixup::AppendTranslationThenPrependNonUniformScaling(t.unwrap(), nu.unwrap())))
            } else {
                Option::Some((spec_rotation_matrix(r.unwrap()),
                    Fixup::AppendTranslation(t.unwrap())))
            }
        } else {
            if s.is_some() {
                Option::Some((spec_translation_matrix(t.unwrap()),
                    Fixup::PrependScaling(s.unwrap())))
            } else if nu.is_some() {
                Option::Some((spec_translation_matrix(t.unwrap()),
                    Fixup::PrependNonUniformScaling(nu.unwrap())))
            } else {
                Option::Some((spec_translation_matrix(t.unwrap()), Fixup::Identity))
            }
        }
    } else if r.is_some() {
        if s.is_some() {
            Option::Some((spec_rotation_matrix(r.unwrap()),
                Fixup::PrependScaling(s.unwrap())))
        } else if nu.is_some() {
            Option::Some((spec_rotation_matrix(r.unwrap()),
                Fixup::PrependNonUniformScaling(nu.unwrap())))
        } else {
            Option::Some((spec_rotation_matrix(r.unwrap()), Fixup::Identity))
        }
    } else if s.is_some() {
        Option::Some((spec_scaling_matrix(s.unwrap()), Fixup::Identity))
    } else if nu.is_some() {
        Option::Some((spec_nonuniform_scaling_matrix(nu.unwrap().x, nu.unwrap().y, nu.unwrap().z),
            Fixup::Identity))
    } else {
        Option::None
    }
}

/// Build the plan for one entity's fields.
pub fn plan_for(
    t: &Option<Translation>,
    r: &Option<Rotation>,
    s: &Option<Scale>,
    nu: &Option<NonUniformScale>,
) -> (out: Option<(Mat4, Fixup)>)
    requires
        r.is_some() ==> r.unwrap().wf(),
    ensures
        out.is_some() == local_matrix_plan(
            *t,
            match *r { Option::Some(rr) => Option::Some(rr@), Option::None => Option::None },
            match *s { Option::Some(ss) => Option::Some(ss.0), Option::None => Option::None },
            *nu,
        ).is_some(),
        out.is_some() ==> {
            let plan = local_matrix_plan(
                *t,
                match *r { Option::Some(rr) => Option::Some(rr@), Option::None => Option::None },
                match *s { Option::Some(ss) => Option::Some(ss.0), Option::None => Option::None },
                *nu,
            ).unwrap();
            out.unwrap().0@ == plan.0 && out.unwrap().0.wf() && out.unwrap().1 == plan.1
        },
{
    if s.is_some() && nu.is_some() {
        return None;
    }
    match (t, r) {
        (Some(tv), Some(rv)) => {
            let base = rv.to_homogeneous();
            match (s, nu) {
                (Some(sv), _) => Some((base, Fixup::AppendTranslationThenPrependScaling(*tv, sv.0))),
                (_, Some(nv)) => Some((base,
                    Fixup::AppendTranslationThenPrependNonUniformScaling(*tv, *nv))),
                _ => Some((base, Fixup::AppendTranslation(*tv))),
            }
        }
        (Some(tv), None) => {
            let base = Mat4::from_translation(tv);
            match (s, nu) {
                (Some(sv), _) => Some((base, Fixup::PrependScaling(sv.0))),
                (_, Some(nv)) => Some((base, Fixup::PrependNonUniformScaling(*nv))),
                _ => Some((base, Fixup::Identity)),
            }
        }
        (None, Some(rv)) => {
            let base = rv.to_homogeneous();
            match (s, nu) {
                (Some(sv), _) => Some((base, Fixup::PrependScaling(sv.0))),
                (_, Some(nv)) => Some((base, Fixup::PrependNonUniformScaling(*nv))),
                _ => Some((base, Fixup::Identity)),
            }
        }
        (None, None) => {
            match (s, nu) {
                (Some(sv), _) => Some((Mat4::from_scaling(sv.0), Fixup::Identity)),
                (_, Some(nv)) => Some((Mat4::from_nonuniform_scaling(nv.x, nv.y, nv.z),
                    Fixup::Identity)),
                _ => None,
            }
        }
    }
}

/// For an entity carrying only a translation, the composed local matrix is
/// the pure translation matrix. The same pattern holds for each of the
/// other three fields alone: the matrix is that field's own matrix, with
/// nothing left for the host to finish.
pub proof fn lemma_translation_only(t: Translation)
    ensures
        local_matrix_plan(Option::Some(t), Option::None, Option::None, Option::None)
            == Option::Some((spec_translation_matrix(t), Fixup::Identity)),
{
}

pub proof fn lemma_rotation_only(r: Seq<u32>)
    ensures
        local_matrix_plan(Option::None, Option::Some(r), Option::None, Option::None)
            == Option::Some((spec_rotation_matrix(r), Fixup::Identity)),
{
}

pub proof fn lemma_scale_only(s: u32)
    ensures
        local_matrix_plan(Option::None, Option::None, Option::Some(s), Option::None)
            == Option::Some((spec_scaling_matrix(s), Fixup::Identity)),
{
}

pub proof fn lemma_non_uniform_scale_only(nu: NonUniformScale)
    ensures
        local_matrix_plan(Option::None, Option::None, Option::None, Option::Some(nu))
            == Option::Some((spec_nonuniform_scaling_matrix(nu.x, nu.y, nu.z), Fixup::Identity)),
{
}

/// Translation plus rotation: the local matrix is the rotation matrix with
/// the translation appended (rotate, then translate).
pub proof fn lemma_translation_rotation(t: Translation, r: Seq<u32>)
    ensures
        local_matrix_plan(Option::Some(t), Option::Some(r), Option::None, Option::None)
            == Option::Some((spec_rotation_matrix(r), Fixup::AppendTranslation(t))),
{
}

/// Translation plus scale: the local matrix is the translation matrix with
/// the scale prepended (scale first, then translate).
pub proof fn lemma_translation_scale(t: Translation, s: u32)
    ensures
        local_matrix_plan(Option::Some(t), Option::None, Option::Some(s), Option::None)
            == Option::Some((spec_translation_matrix(t), Fixup::PrependScaling(s))),
{
}

/// The plan for entity `i` of world `v`.
pub open spec fn plan_of(v: WorldView, i: int) -> Option<(Seq<u32>, Fixup)> {
    local_matrix_plan(v.translation[i], v.rotation[i], v.scale[i], v.nus[i])
}

/// The entities this pass may write: alive, carrying a `LocalToParent`.
pub open spec fn targets_ltp(v: WorldView, i: int) -> bool {
    v.alive[i] && v.ltp[i].is_some()
}

/// The pass finishes entity `i` itself: its plan needs no floating point.
pub open spec fn writes_direct_ltp(v: WorldView, i: int) -> bool {
    targets_ltp(v, i) && plan_of(v, i).is_some() && plan_of(v, i).unwrap().1 == Fixup::Identity
}

/// The pass must hand entity `i` to the host.
pub open spec fn wants_request_ltp(v: WorldView, i: int) -> bool {
    targets_ltp(v, i) && plan_of(v, i).is_some() && plan_of(v, i).unwrap().1 != Fixup::Identity
}

/// Entity `i` carries both `Scale` and `NonUniformScale`: the reportable
/// conflict. Its matrix is deliberately left untouched.
pub open spec fn conflicted_ltp(v: WorldView, i: int) -> bool {
    targets_ltp(v, i) && v.scale[i].is_some() && v.nus[i].is_some()
}

/// The entities below `upto` that must appear in the request list, in order.
pub open spec fn request_entities_ltp(v: WorldView, upto: int) -> Seq<Entity>
    decreases upto,
{
    if upto <= 0 {
        Seq::empty()
    } else if wants_request_ltp(v, upto - 1) {
        request_entities_ltp(v, upto - 1).push((upto - 1) as Entity)
    } else {
        request_entities_ltp(v, upto - 1)
    }
}

/// The entities below `upto` with conflicting scales, in order.
pub open spec fn conflict_entities_ltp(v: WorldView, upto: int) -> Seq<Entity>
    decreases upto,
{
    if upto <= 0 {
        Seq::empty()
    } else if conflicted_ltp(v, upto - 1) {
        conflict_entities_ltp(v, upto - 1).push((upto - 1) as Entity)
    } else {
        conflict_entities_ltp(v, upto - 1)
    }
}

pub fn build() -> (r: Pass)
    ensures
        r == Pass::LocalToParent,
{
    Pass::LocalToParent
}

/// Compose `LocalToParent` for every alive entity that carries one and has
/// at least one transform field. Matrices that need no floating point
/// (a single field, or a pure translation base) are written bit-exactly
/// here; the others are returned as requests for the host to finish.
/// Entities carrying both scale kinds are reported and left untouched.
pub fn run(w: &mut World) -> (out: (Vec<ComposeRequest>, Vec<Entity>))
    requires
        old(w).wf(),
    ensures
        final(w).wf(),
        final(w)@ == (WorldView {
            ltp: Seq::new(old(w)@.n(), |i: int|
                if writes_direct_ltp(old(w)@, i) {
                    Option::Some(plan_of(old(w)@, i).unwrap().0)
                } else {
                    old(w)@.ltp[i]
                }),
            ..old(w)@
        }),
        out.0@.map_values(|rq: ComposeRequest| rq.entity)
            == request_entities_ltp(old(w)@, old(w)@.n() as int),
        forall|k: int| 0 <= k < out.0@.len() ==> {
            let rq = #[trigger] out.0@[k];
            &&& rq.entity < old(w)@.n()
            &&& wants_request_ltp(old(w)@, rq.entity as int)
            &&& rq.base.wf()
            &&& plan_of(old(w)@, rq.entity as int) == Option::Some((rq.base@, rq.fixup))
        },
        out.1@ == conflict_entities_ltp(old(w)@, old(w)@.n() as int),
{
    let n = w.len();
    let mut requests: Vec<ComposeRequest> = Vec::new();
    let mut conflicts: Vec<Entity> = Vec::new();
    let mut e: usize = 0;
    while e < n
        invariant
            old(w).wf(),
            w.wf(),
            n == old(w)@.n(),
            e <= n,
            w@ == (WorldView {
                ltp: Seq::new(old(w)@.n(), |i: int|
                    if i < e && writes_direct_ltp(old(w)@, i) {
                        Option::Some(plan_of(old(w)@, i).unwrap().0)
                    } else {
                        old(w)@.ltp[i]
                    }),
                ..old(w)@
            }),
            requests@.map_values(|rq: ComposeRequest| rq.entity)
                == request_entities_ltp(old(w)@, e as int),
            forall|k: int| 0 <= k < requests@.len() ==> {
                let rq = #[trigger] requests@[k];
                &&& rq.entity < old(w)@.n()
                &&& wants_request_ltp(old(w)@, rq.entity as int)
                &&& rq.base.wf()
                &&& plan_of(old(w)@, rq.entity as int) == Option::Some((rq.base@, rq.fixup))
            },
            conflicts@ == conflict_entities_ltp(old(w)@, e as int),
        decreases n - e,
    {
        let targeted = w.is_alive(e) && w.has_local_to_parent(e);
        if targeted {
            let t = w.get_translation(e);
            let r = w.get_rotation(e);
            let s = w.get_scale(e);
            let nu = w.get_non_uniform_scale(e);
            if s.is_some() && nu.is_some() {
                conflicts.push(e);
            }
            match plan_for(&t, &r, &s, &nu) {
                Some((base, Fixup::Identity)) => {
                    w.set_local_to_parent(e, LocalToParent(base));
                }
                Some((base, fixup)) => {
                    requests.push(ComposeRequest { entity: e, base, fixup });
                }
                None => {}
            }
        }
        e = e + 1;
        proof {
            assert(w@ =~~= (WorldView {
                ltp: Seq::new(old(w)@.n(), |i: int|
                    if i < e && writes_direct_ltp(old(w)@, i) {
                        Option::Some(plan_of(old(w)@, i).unwrap().0)
                    } else {
                        old(w)@.ltp[i]
                    }),
                ..old(w)@
            }));
            assert(requests@.map_values(|rq: ComposeRequest| rq.entity)
                =~= request_entities_ltp(old(w)@, e as int));
            assert(conflicts@ =~= conflict_entities_ltp(old(w)@, e as int));
        }
    }
    proof {
        assert(w@ =~~= (WorldView {
            ltp: Seq::new(old(w)@.n(), |i: int|
                if writes_direct_ltp(old(w)@, i) {
                    Option::Some(plan_of(old(w)@, i).unwrap().0)
                } else {
                    old(w)@.ltp[i]
                }),
            ..old(w)@
        }));
    }
    (requests, conflicts)
}

/// The matrices of `v`, overwritten in order by the host's finished
/// results: each result lands only on an alive entity that still carries
/// the component, exactly as the pass itself writes.
pub open spec fn apply_results(
    col: Seq<Option<Seq<u32>>>,
    alive: Seq<bool>,
    rs: Seq<(Entity, Seq<u32>)>,
) -> Seq<Option<Seq<u32>>>
    decreases rs.len(),
{
    if rs.len() == 0 {
        col
    } else {
        let prefix = apply_results(col, alive, rs.drop_last());
        let last = rs.last();
        if last.0 < alive.len() && alive[last.0 as int] && prefix[last.0 as int].is_some() {
            prefix.update(last.0 as int, Option::Some(last.1))
        } else {
            prefix
        }
    }
}

/// The view of a host result list: each entity with the bits it computed.
pub open spec fn results_view(rs: Seq<(Entity, Mat4)>) -> Seq<(Entity, Seq<u32>)> {
    rs.map_values(|p: (Entity, Mat4)| (p.0, p.1@))
}

/// Write the host's finished local matrices back. A result for an entity
/// that died or lost its `LocalToParent` in the meantime is dropped, just
/// as the pass itself would no longer target it.
pub fn apply_local_to_parent(w: &mut World, results: Vec<(Entity, Mat4)>)
    requires
        old(w).wf(),
        forall|k: int| 0 <= k < results@.len()
            ==> (#[trigger] results@[k]).1@.len() == 16,
    ensures
        final(w).wf(),
        final(w)@ == (WorldView {
            ltp: apply_results(old(w)@.ltp, old(w)@.alive, results_view(results@)),
            ..old(w)@
        }),
{
    let n = w.len();
    let mut k: usize = 0;
    while k < results.len()
        invariant
            old(w).wf(),
            w.wf(),
            n == old(w)@.n(),
            k <= results@.len(),
            forall|j: int| 0 <= j < results@.len()
                ==> (#[trigger] results@[j]).1@.len() == 16,
            w@ == (WorldView {
                ltp: apply_results(old(w)@.ltp, old(w)@.alive,
                    results_view(results@).take(k as int)),
                ..old(w)@
            }),
        decreases results@.len() - k,
    {
        let ghost pre = w@;
        let e = results[k].0;
        if e < n && w.is_alive(e) && w.has_local_to_parent(e) {
            let m = results[k].1.duplicate();
            w.set_local_to_parent(e, LocalToParent(m));
        }
        k = k + 1;
        proof {
            let rv = results_view(results@);
            assert(rv.take(k as int).drop_last() =~= rv.take(k - 1));
            assert(rv.take(k as int).last() == rv[k - 1]);
            assert(pre.ltp == apply_results(old(w)@.ltp, old(w)@.alive, rv.take(k - 1)));
            assert(w@ =~~= (WorldView {
                ltp: apply_results(old(w)@.ltp, old(w)@.alive, rv.take(k as int)),
                ..old(w)@
            }));
        }
    }
    proof {
        assert(results_view(results@).take(results@.len() as int) =~= results_view(results@));
        assert(w@ =~~= (WorldView {
            ltp: apply_results(old(w)@.ltp, old(w)@.alive, results_view(results@)),
            ..old(w)@
        }));
    }
}

} // verus!
