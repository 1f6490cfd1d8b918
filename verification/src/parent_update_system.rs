use vstd::prelude::*;
use crate::Entity;
use crate::components::parent::PreviousParent;
use crate::world::{World, WorldView};
use crate::transform_system_bundle::Pass;

verus! {

/// The maintainer's working state while it walks the changed-parents set:
/// the previous-parent column, the children column, and the buffered
/// children collections for parents that do not have one yet.
#[verifier::ext_equal]
pub struct MaintainState {
    pub prev: Seq<Option<Option<Entity>>>,
    pub children: Seq<Option<Seq<Entity>>>,
    pub adds: Seq<(Entity, Seq<Entity>)>,
}

/// `s` with every occurrence of `e` removed, considering the first `upto`
/// elements, order otherwise kept.
pub open spec fn without(s: Seq<Entity>, e: Entity, upto: int) -> Seq<Entity>
    decreases upto,
{
    if upto <= 0 {
        Seq::empty()
    } else if s[upto - 1] == e {
        without(s, e, upto - 1)
    } else {
        without(s, e, upto - 1).push(s[upto - 1])
    }
}

/// The first buffered entry for parent `p` at or after position `k`, or the
/// buffer's length if there is none.
pub open spec fn find_key(adds: Seq<(Entity, Seq<Entity>)>, p: Entity, k: int) -> int
    decreases adds.len() - k,
{
    if k < 0 || k >= adds.len() {
        adds.len() as int
    } else if adds[k].0 == p {
        k
    } else {
        find_key(adds, p, k + 1)
    }
}

/// Buffer one pending child under its parent: append to the parent's
/// pending list, or open a fresh one.
pub open spec fn buffer_addition(
    adds: Seq<(Entity, Seq<Entity>)>,
    p: Entity,
    e: Entity,
) -> Seq<(Entity, Seq<Entity>)> {
    let k = find_key(adds, p, 0);
    if k < adds.len() {
        adds.update(k, (p, adds[k].1.push(e)))
    } else {
        adds.push((p, seq![e]))
    }
}

/// One maintainer step, for one entity out of the changed-parents set.
/// Skips entities that died, lost their parent link, or were never given a
/// `PreviousParent`; skips when nothing changed; otherwise removes the
/// entity from its former parent's children, records the new parent, and
/// appends the entity to the new parent's children (buffering it when the
/// parent has no collection yet).
pub open spec fn maintain_one(v0: WorldView, s: MaintainState, e: Entity) -> MaintainState {
    if e >= v0.n() || !v0.alive[e as int] || v0.parent[e as int].is_none()
        || s.prev[e as int].is_none() {
        s
    } else {
        let p = v0.parent[e as int].unwrap();
        let pp = s.prev[e as int].unwrap();
        if pp == Option::Some(p) {
            s
        } else {
            let children1 = if pp.is_some() && s.children[pp.unwrap() as int].is_some() {
                let q = pp.unwrap();
                s.children.update(q as int, Option::Some(
                    without(s.children[q as int].unwrap(), e, s.children[q as int].unwrap().len() as int)))
            } else {
                s.children
            };
            let prev1 = s.prev.update(e as int, Option::Some(Option::Some(p)));
            if children1[p as int].is_some() {
                MaintainState {
                    prev: prev1,
                    children: children1.update(p as int, Option::Some(
                        children1[p as int].unwrap().push(e))),
                    adds: s.adds,
                }
            } else if v0.alive[p as int] {
                MaintainState {
                    prev: prev1,
                    children: children1,
                    adds: buffer_addition(s.adds, p, e),
                }
            } else {
                MaintainState { prev: prev1, children: children1, adds: s.adds }
            }
        }
    }
}

/// The maintainer folded over the first `upto` changed entities.
pub open spec fn maintain_fold(v0: WorldView, upto: int) -> MaintainState
    decreases upto,
{
    if upto <= 0 {
        MaintainState { prev: v0.prev, children: v0.children, adds: Seq::empty() }
    } else {
        maintain_one(v0, maintain_fold(v0, upto - 1), v0.changed[upto - 1])
    }
}

/// Hand each buffered pending list to its parent as a fresh `Children`
/// collection, in buffering order; a parent that died meanwhile is skipped.
pub open spec fn materialize(
    children: Seq<Option<Seq<Entity>>>,
    v0: WorldView,
    adds: Seq<(Entity, Seq<Entity>)>,
    upto: int,
) -> Seq<Option<Seq<Entity>>>
    decreases upto,
{
    if upto <= 0 {
        children
    } else {
        let prefix = materialize(children, v0, adds, upto - 1);
        let p = adds[upto - 1].0;
        if p < v0.n() && v0.alive[p as int] {
            prefix.update(p as int, Option::Some(adds[upto - 1].1))
        } else {
            prefix
        }
    }
}

/// What the whole pass leaves behind: the folded previous-parent column and
/// the folded-then-materialized children column.
pub open spec fn spec_maintain(v: WorldView) -> MaintainState {
    let s = maintain_fold(v, v.changed.len() as int);
    MaintainState {
        prev: s.prev,
        children: materialize(s.children, v, s.adds, s.adds.len() as int),
        adds: s.adds,
    }
}

/// A key search starting in range ends in range.
proof fn lemma_find_key_range(adds: Seq<(Entity, Seq<Entity>)>, p: Entity, k0: int)
    requires
        0 <= k0 <= adds.len(),
    ensures
        k0 <= find_key(adds, p, k0) <= adds.len(),
    decreases adds.len() - k0,
{
    if k0 < adds.len() && adds[k0].0 != p {
        lemma_find_key_range(adds, p, k0 + 1);
    }
}

/// Everything in a `without` comes out of the original sequence.
pub(crate) proof fn lemma_without_bounds(s: Seq<Entity>, e: Entity, upto: int, n: nat)
    requires
        upto <= s.len(),
        forall|j: int| 0 <= j < s.len() ==> #[trigger] s[j] < n,
    ensures
        forall|j: int| 0 <= j < without(s, e, upto).len() ==> #[trigger] without(s, e, upto)[j] < n,
    decreases upto,
{
    if upto > 0 {
        lemma_without_bounds(s, e, upto - 1, n);
        let w0 = without(s, e, upto - 1);
        let w1 = without(s, e, upto);
        if s[upto - 1] != e {
            assert(w1 == w0.push(s[upto - 1]));
            assert forall|j: int| 0 <= j < w1.len() implies w1[j] < n by {
                if j < w0.len() {
                    assert(w1[j] == w0[j]);
                } else {
                    assert(w1[j] == s[upto - 1]);
                }
            }
        }
    }
}

/// Buffering keeps every stored entity in range.
proof fn lemma_buffer_bounds(adds: Seq<(Entity, Seq<Entity>)>, p: Entity, e: Entity, n: nat)
    requires
        forall|j: int| 0 <= j < adds.len() ==> (#[trigger] adds[j]).0 < n,
        forall|j: int, i: int| 0 <= j < adds.len() && 0 <= i < adds[j].1.len()
            ==> (#[trigger] adds[j].1[i]) < n,
        p < n,
        e < n,
    ensures
        forall|j: int| 0 <= j < buffer_addition(adds, p, e).len()
            ==> (#[trigger] buffer_addition(adds, p, e)[j]).0 < n,
        forall|j: int, i: int| 0 <= j < buffer_addition(adds, p, e).len()
            && 0 <= i < buffer_addition(adds, p, e)[j].1.len()
            ==> (#[trigger] buffer_addition(adds, p, e)[j].1[i]) < n,
{
    let out = buffer_addition(adds, p, e);
    let k = find_key(adds, p, 0);
    lemma_find_key_range(adds, p, 0);
    assert forall|j: int| 0 <= j < out.len() implies out[j].0 < n by {
        if k < adds.len() {
            if j != k {
                assert(out[j] == adds[j]);
            }
        } else {
            if j < adds.len() {
                assert(out[j] == adds[j]);
            }
        }
    }
    assert forall|j: int, i: int| 0 <= j < out.len() && 0 <= i < out[j].1.len()
        implies out[j].1[i] < n by {
        if k < adds.len() {
            if j == k {
                assert(out[j].1 == adds[k].1.push(e));
                if i < adds[k].1.len() {
                    assert(out[j].1[i] == adds[k].1[i]);
                } else {
                    assert(out[j].1[i] == e);
                }
            } else {
                assert(out[j] == adds[j]);
            }
        } else {
            if j == adds.len() {
                assert(out[j].1 == seq![e]);
                assert(out[j].1[i] == e);
            } else {
                assert(out[j] == adds[j]);
            }
        }
    }
}

/// Remove every occurrence of `e`, keeping the order.
pub(crate) fn remove_element_vec(lst: &Vec<Entity>, e: Entity) -> (out: Vec<Entity>)
    ensures
        out@ == without(lst@, e, lst@.len() as int),
{
    let mut out: Vec<Entity> = Vec::new();
    let mut j: usize = 0;
    while j < lst.len()
        invariant
            j <= lst@.len(),
            out@ == without(lst@, e, j as int),
        decreases lst@.len() - j,
    {
        if lst[j] != e {
            out.push(lst[j]);
        }
        j = j + 1;
    }
    out
}

/// The buffer as the fold spec sees it.
pub open spec fn adds_view(adds: Seq<(Entity, Vec<Entity>)>) -> Seq<(Entity, Seq<Entity>)> {
    Seq::new(adds.len(), |j: int| (adds[j].0, adds[j].1@))
}

/// Append one pending child into the buffer, under its parent's entry.
#[verifier::loop_isolation(false)]
fn buffer_push(adds: &mut Vec<(Entity, Vec<Entity>)>, p: Entity, e: Entity)
    ensures
        adds_view(final(adds)@) == buffer_addition(adds_view(old(adds)@), p, e),
{
    let ghost v0 = adds_view(old(adds)@);
    let mut k: usize = 0;
    while k < adds.len()
        invariant
            adds@ == old(adds)@,
            k <= adds@.len(),
            find_key(v0, p, 0) == find_key(v0, p, k as int),
        decreases adds@.len() - k,
    {
        if adds[k].0 == p {
            proof {
                assert(v0[k as int].0 == p);
                assert(find_key(v0, p, k as int) == k);
            }
            let pair = adds.remove(k);
            let mut lst = pair.1;
            lst.push(e);
            adds.insert(k, (p, lst));
            proof {
                assert(adds@[k as int].1@ == v0[k as int].1.push(e));
                assert(adds_view(adds@) =~~= v0.update(k as int, (p, v0[k as int].1.push(e))));
                assert(adds_view(adds@) == buffer_addition(v0, p, e));
            }
            return;
        }
        proof {
            assert(v0[k as int].0 != p);
            assert(find_key(v0, p, k as int) == find_key(v0, p, k as int + 1));
        }
        k = k + 1;
    }
    proof {
        assert(find_key(v0, p, 0) == v0.len());
    }
    let fresh: Vec<Entity> = vec![e];
    adds.push((p, fresh));
    proof {
        assert(adds_view(adds@) =~~= v0.push((p, seq![e])));
        assert(adds_view(adds@) == buffer_addition(v0, p, e));
    }
}


/// One maintainer step never touches another entity's previous-parent
/// record.
proof fn lemma_step_prev_frame(v0: WorldView, s: MaintainState, e: Entity, x: int)
    requires
        s.prev.len() == v0.n(),
        0 <= x < s.prev.len(),
        e != x,
    ensures
        maintain_one(v0, s, e).prev[x] == s.prev[x],
{
}

/// Steps before and after an entity's own turn leave its record alone, so
/// folding up to any point at or before its turn keeps the original value.
proof fn lemma_fold_prev_untouched(v: WorldView, upto: int, x: Entity)
    requires
        v.wf(),
        0 <= upto <= v.changed.len(),
        x < v.n(),
        forall|i: int| 0 <= i < upto ==> (#[trigger] v.changed[i]) != x,
    ensures
        maintain_fold(v, upto).prev[x as int] == v.prev[x as int],
        maintain_fold(v, upto).prev.len() == v.n(),
    decreases upto,
{
    if upto > 0 {
        lemma_fold_prev_untouched(v, upto - 1, x);
        lemma_fold_prev_len(v, upto - 1);
        lemma_step_prev_frame(v, maintain_fold(v, upto - 1), v.changed[upto - 1], x as int);
    }
}

/// The fold keeps the column's length.
proof fn lemma_fold_prev_len(v: WorldView, upto: int)
    requires
        v.wf(),
        0 <= upto <= v.changed.len(),
    ensures
        maintain_fold(v, upto).prev.len() == v.n(),
    decreases upto,
{
    if upto > 0 {
        lemma_fold_prev_len(v, upto - 1);
    }
}

/// After one maintainer run, every changed entity that is alive, has a
/// parent link and carries a `PreviousParent` has that record equal to its
/// current parent: the maintainer has observed the change.
pub proof fn lemma_maintain_records_parent(v: WorldView, k: int)
    requires
        v.wf(),
        0 <= k < v.changed.len(),
        v.alive[v.changed[k] as int],
        v.parent[v.changed[k] as int].is_some(),
        v.prev[v.changed[k] as int].is_some(),
    ensures
        spec_maintain(v).prev[v.changed[k] as int]
            == Option::Some(Option::Some(v.parent[v.changed[k] as int].unwrap())),
{
    let e = v.changed[k];
    let p = v.parent[e as int].unwrap();
    assert forall|i: int| 0 <= i < k implies (#[trigger] v.changed[i]) != e by {}
    lemma_fold_prev_untouched(v, k, e);
    let s_k = maintain_fold(v, k);
    let s_k1 = maintain_fold(v, k + 1);
    assert(s_k1 == maintain_one(v, s_k, e));
    assert(s_k1.prev[e as int] == Option::Some(Option::Some(p)));
    let ghost done = s_k1;
    assert forall|m: int| k + 1 <= m <= v.changed.len()
        implies (#[trigger] maintain_fold(v, m)).prev[e as int]
            == Option::Some(Option::Some(p)) by {
        lemma_fold_prev_stable(v, m, k, e, p);
    }
    assert(maintain_fold(v, v.changed.len() as int).prev[e as int]
        == Option::Some(Option::Some(p)));
}

/// Once an entity's own turn has set its record, later turns keep it.
proof fn lemma_fold_prev_stable(v: WorldView, m: int, k: int, e: Entity, p: Entity)
    requires
        v.wf(),
        0 <= k < v.changed.len(),
        k + 1 <= m <= v.changed.len(),
        e == v.changed[k],
        e < v.n(),
        maintain_fold(v, k + 1).prev[e as int] == Option::Some(Option::Some(p)),
    ensures
        maintain_fold(v, m).prev[e as int] == Option::Some(Option::Some(p)),
    decreases m,
{
    if m > k + 1 {
        lemma_fold_prev_stable(v, m - 1, k, e, p);
        lemma_fold_prev_len(v, m - 1);
        assert(v.changed[m - 1] != e);
        lemma_step_prev_frame(v, maintain_fold(v, m - 1), v.changed[m - 1], e as int);
    }
}

/// The pending list buffered for parent `p`, if any.
pub open spec fn buffered_for(adds: Seq<(Entity, Seq<Entity>)>, p: Entity) -> Option<Seq<Entity>> {
    let k = find_key(adds, p, 0);
    if k < adds.len() {
        Option::Some(adds[k].1)
    } else {
        Option::None
    }
}

/// Each parent has at most one buffered entry.
pub open spec fn adds_keys_unique(adds: Seq<(Entity, Seq<Entity>)>) -> bool {
    forall|j1: int, j2: int| 0 <= j1 < j2 < adds.len()
        ==> (#[trigger] adds[j1]).0 != (#[trigger] adds[j2]).0
}

/// The shape the maintainer's state keeps while folding: full columns, at
/// most one buffer entry per parent, and a buffer only for parents that
/// still have no children collection.
pub open spec fn state_inv(v: WorldView, s: MaintainState) -> bool {
    &&& s.prev.len() == v.n()
    &&& s.children.len() == v.n()
    &&& forall|i: int| 0 <= i < s.prev.len() && (#[trigger] s.prev[i]).is_some()
            && s.prev[i].unwrap().is_some()
            ==> s.prev[i].unwrap().unwrap() < v.n()
    &&& adds_keys_unique(s.adds)
    &&& forall|j: int| 0 <= j < s.adds.len()
            ==> (#[trigger] s.adds[j]).0 < v.n() && s.children[s.adds[j].0 as int].is_none()
}

/// A key search over a sequence with the same keys lands on the same spot.
proof fn lemma_find_key_same_keys(
    a1: Seq<(Entity, Seq<Entity>)>,
    a2: Seq<(Entity, Seq<Entity>)>,
    p: Entity,
    k0: int,
)
    requires
        a1.len() == a2.len(),
        forall|j: int| 0 <= j < a1.len() ==> (#[trigger] a1[j]).0 == (#[trigger] a2[j]).0,
    ensures
        find_key(a1, p, k0) == find_key(a2, p, k0),
    decreases a1.len() - k0,
{
    if 0 <= k0 < a1.len() && a1[k0].0 != p {
        lemma_find_key_same_keys(a1, a2, p, k0 + 1);
    }
}

/// Everything a key search skips has a different key.
proof fn lemma_find_key_first(adds: Seq<(Entity, Seq<Entity>)>, p: Entity, k0: int)
    requires
        0 <= k0 <= adds.len(),
    ensures
        forall|j: int| k0 <= j < find_key(adds, p, k0) ==> (#[trigger] adds[j]).0 != p,
        find_key(adds, p, k0) < adds.len() ==> adds[find_key(adds, p, k0)].0 == p,
    decreases adds.len() - k0,
{
    lemma_find_key_range(adds, p, k0);
    if k0 < adds.len() && adds[k0].0 != p {
        lemma_find_key_first(adds, p, k0 + 1);
    }
}

/// Buffering under one parent leaves every other parent's buffer alone,
/// and afterwards the buffered list for that parent holds the new child.
proof fn lemma_buffer_effect(adds: Seq<(Entity, Seq<Entity>)>, p2: Entity, e2: Entity, p: Entity)
    requires
        adds_keys_unique(adds),
    ensures
        p != p2 ==> buffered_for(buffer_addition(adds, p2, e2), p) == buffered_for(adds, p),
        p == p2 ==> {
            let out = buffered_for(buffer_addition(adds, p2, e2), p);
            &&& out.is_some()
            &&& out.unwrap().contains(e2)
            &&& (buffered_for(adds, p).is_some()
                    ==> forall|x: Entity| #[trigger] buffered_for(adds, p).unwrap().contains(x)
                        ==> out.unwrap().contains(x))
        },
        adds_keys_unique(buffer_addition(adds, p2, e2)),
{
    let k2 = find_key(adds, p2, 0);
    lemma_find_key_range(adds, p2, 0);
    lemma_find_key_first(adds, p2, 0);
    let out = buffer_addition(adds, p2, e2);
    if k2 < adds.len() {
        // Updated in place: keys unchanged.
        assert forall|j: int| 0 <= j < adds.len()
            implies (#[trigger] adds[j]).0 == (#[trigger] out[j]).0 by {}
        lemma_find_key_same_keys(adds, out, p, 0);
        if p != p2 {
            let k = find_key(adds, p, 0);
            lemma_find_key_range(adds, p, 0);
            lemma_find_key_first(adds, p, 0);
            if k < adds.len() {
                assert(adds[k].0 == p);
                assert(k != k2);
                assert(out[k] == adds[k]);
            }
            assert(buffered_for(out, p) == buffered_for(adds, p));
        }
        if p == p2 {
            assert(out[k2].1 == adds[k2].1.push(e2));
            assert(out[k2].1.contains(e2)) by {
                assert(out[k2].1[adds[k2].1.len() as int] == e2);
            }
            assert forall|x: Entity| buffered_for(adds, p).is_some()
                && buffered_for(adds, p).unwrap().contains(x)
                implies out[k2].1.contains(x) by {
                let xi = choose|xi: int| 0 <= xi < adds[k2].1.len() && adds[k2].1[xi] == x;
                assert(out[k2].1[xi] == x);
            }
        }
        assert(adds_keys_unique(out));
    } else {
        // A fresh entry was appended at the end.
        let k = find_key(adds, p, 0);
        lemma_find_key_range(adds, p, 0);
        lemma_find_key_first(adds, p, 0);
        lemma_find_key_extend(adds, out, p, 0);
        if p != p2 {
            if k < adds.len() {
                assert(out[k] == adds[k]);
                assert(buffered_for(out, p) == buffered_for(adds, p));
            } else {
                assert(out[adds.len() as int].0 == p2);
                assert(find_key(out, p, 0) == out.len());
                assert(buffered_for(out, p) == buffered_for(adds, p));
            }
        }
        if p == p2 {
            assert(find_key(out, p, 0) == adds.len());
            assert(out[adds.len() as int].1 == seq![e2]);
            assert(out[adds.len() as int].1.contains(e2)) by {
                assert(out[adds.len() as int].1[0] == e2);
            }
        }
        assert forall|j1: int, j2: int| 0 <= j1 < j2 < out.len()
            implies (#[trigger] out[j1]).0 != (#[trigger] out[j2]).0 by {
            if j2 == adds.len() {
                assert(out[j1].0 == adds[j1].0);
                assert(adds[j1].0 != p2) by {
                    assert(find_key(adds, p2, 0) == adds.len());
                }
            }
        }
    }
}

/// A key search over the old entries of an extended buffer: the search
/// walks the old part first; a key absent from the old part is found at
/// the appended entry or not at all.
proof fn lemma_find_key_extend(
    adds: Seq<(Entity, Seq<Entity>)>,
    out: Seq<(Entity, Seq<Entity>)>,
    p: Entity,
    k0: int,
)
    requires
        0 <= k0 <= adds.len(),
        out.len() == adds.len() + 1,
        forall|j: int| 0 <= j < adds.len() ==> (#[trigger] out[j]).0 == adds[j].0,
    ensures
        find_key(adds, p, k0) < adds.len()
            ==> find_key(out, p, k0) == find_key(adds, p, k0),
        find_key(adds, p, k0) == adds.len() && out[adds.len() as int].0 == p
            ==> find_key(out, p, k0) == adds.len(),
        find_key(adds, p, k0) == adds.len() && out[adds.len() as int].0 != p
            ==> find_key(out, p, k0) == out.len(),
    decreases adds.len() - k0,
{
    lemma_find_key_range(adds, p, k0);
    if k0 < adds.len() && adds[k0].0 != p {
        lemma_find_key_extend(adds, out, p, k0 + 1);
    } else if k0 == adds.len() {
        if out[adds.len() as int].0 != p {
            assert(find_key(out, p, k0 + 1) == out.len());
        }
    }
}

/// A surviving element stays in the filtered list.
proof fn lemma_without_member(s: Seq<Entity>, e: Entity, upto: int, x: Entity)
    requires
        0 <= upto <= s.len(),
        x != e,
        exists|xi: int| 0 <= xi < upto && s[xi] == x,
    ensures
        without(s, e, upto).contains(x),
    decreases upto,
{
    let xi = choose|xi: int| 0 <= xi < upto && s[xi] == x;
    if xi == upto - 1 {
        let w = without(s, e, upto);
        assert(w == without(s, e, upto - 1).push(x));
        assert(w[w.len() - 1] == x);
    } else {
        lemma_without_member(s, e, upto - 1, x);
        if s[upto - 1] != e {
            let w0 = without(s, e, upto - 1);
            let wi = choose|wi: int| 0 <= wi < w0.len() && w0[wi] == x;
            assert(without(s, e, upto)[wi] == x);
        }
    }
}

/// The maintainer's record that `e` now hangs under `p`: either already in
/// `p`'s children collection, or waiting in `p`'s pending buffer.
pub open spec fn child_recorded(s: MaintainState, p: Entity, e: Entity) -> bool {
    if s.children[p as int].is_some() {
        s.children[p as int].unwrap().contains(e)
    } else {
        buffered_for(s.adds, p).is_some() && buffered_for(s.adds, p).unwrap().contains(e)
    }
}

/// One step keeps the state's shape.
proof fn lemma_step_state_inv(v: WorldView, s: MaintainState, e2: Entity)
    requires
        v.wf(),
        state_inv(v, s),
    ensures
        state_inv(v, maintain_one(v, s, e2)),
{
    let s1 = maintain_one(v, s, e2);
    if !(e2 >= v.n() || !v.alive[e2 as int] || v.parent[e2 as int].is_none()
        || s.prev[e2 as int].is_none()) {
        let p2 = v.parent[e2 as int].unwrap();
        let pp2 = s.prev[e2 as int].unwrap();
        if pp2 != Option::Some(p2) {
            let children1 = if pp2.is_some() && s.children[pp2.unwrap() as int].is_some() {
                let q = pp2.unwrap();
                s.children.update(q as int, Option::Some(without(
                    s.children[q as int].unwrap(), e2,
                    s.children[q as int].unwrap().len() as int)))
            } else {
                s.children
            };
            assert forall|j: int| 0 <= j < s.adds.len()
                implies children1[(#[trigger] s.adds[j]).0 as int].is_none() by {}
            if children1[p2 as int].is_some() {
                assert forall|j: int| 0 <= j < s1.adds.len()
                    implies (#[trigger] s1.adds[j]).0 < v.n()
                        && s1.children[s1.adds[j].0 as int].is_none() by {
                    assert(s1.adds[j].0 != p2);
                }
            } else if v.alive[p2 as int] {
                let k2 = find_key(s.adds, p2, 0);
                lemma_find_key_range(s.adds, p2, 0);
                lemma_find_key_first(s.adds, p2, 0);
                lemma_buffer_effect(s.adds, p2, e2, p2);
                assert forall|j: int| 0 <= j < s1.adds.len()
                    implies (#[trigger] s1.adds[j]).0 < v.n()
                        && s1.children[s1.adds[j].0 as int].is_none() by {
                    if k2 < s.adds.len() {
                        if j == k2 {
                            assert(s1.adds[j].0 == p2);
                        } else {
                            assert(s1.adds[j] == s.adds[j]);
                        }
                    } else {
                        if j < s.adds.len() {
                            assert(s1.adds[j] == s.adds[j]);
                        } else {
                            assert(s1.adds[j].0 == p2);
                        }
                    }
                }
            }
        }
    }
}

/// One step for another entity keeps `e` recorded under `p`.
proof fn lemma_step_keeps_child(v: WorldView, s: MaintainState, e2: Entity, p: Entity, e: Entity)
    requires
        v.wf(),
        state_inv(v, s),
        p < v.n(),
        e2 != e,
        child_recorded(s, p, e),
    ensures
        child_recorded(maintain_one(v, s, e2), p, e),
{
    let s1 = maintain_one(v, s, e2);
    if !(e2 >= v.n() || !v.alive[e2 as int] || v.parent[e2 as int].is_none()
        || s.prev[e2 as int].is_none()) {
        let p2 = v.parent[e2 as int].unwrap();
        let pp2 = s.prev[e2 as int].unwrap();
        if pp2 != Option::Some(p2) {
            let children1 = if pp2.is_some() && s.children[pp2.unwrap() as int].is_some() {
                let q = pp2.unwrap();
                s.children.update(q as int, Option::Some(without(
                    s.children[q as int].unwrap(), e2,
                    s.children[q as int].unwrap().len() as int)))
            } else {
                s.children
            };
            if s.children[p as int].is_some() {
                // Recorded in the collection; a filter may thin it, a push
                // may extend it, but `e` stays.
                let lst0 = s.children[p as int].unwrap();
                if pp2.is_some() && s.children[pp2.unwrap() as int].is_some()
                    && pp2.unwrap() == p {
                    lemma_without_member(lst0, e2, lst0.len() as int, e);
                }
                assert(children1[p as int].is_some());
                let lst1 = children1[p as int].unwrap();
                assert(lst1.contains(e));
                if children1[p2 as int].is_some() && p2 == p {
                    let xi = choose|xi: int| 0 <= xi < lst1.len() && lst1[xi] == e;
                    assert(s1.children[p as int].unwrap()[xi] == e);
                } else {
                    assert(s1.children[p as int] == children1[p as int]);
                }
            } else {
                // Recorded in the buffer; the buffer only grows.
                assert(children1[p as int].is_none());
                assert(s1.children[p as int].is_none()) by {
                    if children1[p2 as int].is_some() {
                        assert(p2 != p);
                    }
                }
                if children1[p2 as int].is_none() && v.alive[p2 as int] {
                    lemma_buffer_effect(s.adds, p2, e2, p);
                } else {
                    assert(s1.adds == s.adds);
                }
            }
        }
    }
}

/// The fold keeps the state's shape from the start.
proof fn lemma_fold_state_inv(v: WorldView, m: int)
    requires
        v.wf(),
        0 <= m <= v.changed.len(),
    ensures
        state_inv(v, maintain_fold(v, m)),
    decreases m,
{
    if m == 0 {
        assert(adds_keys_unique(Seq::<(Entity, Seq<Entity>)>::empty()));
    } else {
        lemma_fold_state_inv(v, m - 1);
        lemma_step_state_inv(v, maintain_fold(v, m - 1), v.changed[m - 1]);
    }
}

/// Once recorded, a child stays recorded through the rest of the fold.
proof fn lemma_fold_keeps_child(v: WorldView, m: int, k: int, p: Entity, e: Entity)
    requires
        v.wf(),
        0 <= k < v.changed.len(),
        k + 1 <= m <= v.changed.len(),
        e == v.changed[k],
        p < v.n(),
        child_recorded(maintain_fold(v, k + 1), p, e),
    ensures
        child_recorded(maintain_fold(v, m), p, e),
    decreases m,
{
    if m > k + 1 {
        lemma_fold_keeps_child(v, m - 1, k, p, e);
        lemma_fold_state_inv(v, m - 1);
        assert(v.changed[m - 1] != e);
        lemma_step_keeps_child(v, maintain_fold(v, m - 1), v.changed[m - 1], p, e);
    }
}

/// Handing the buffers out keeps the column's length.
proof fn lemma_materialize_len(
    children: Seq<Option<Seq<Entity>>>,
    v: WorldView,
    adds: Seq<(Entity, Seq<Entity>)>,
    upto: int,
)
    requires
        children.len() == v.n(),
    ensures
        materialize(children, v, adds, upto).len() == children.len(),
    decreases upto,
{
    if upto > 0 {
        lemma_materialize_len(children, v, adds, upto - 1);
    }
}

/// Handing the buffers out preserves the record: a parent that already has
/// its collection keeps it untouched, and a buffered parent receives its
/// pending list.
proof fn lemma_materialize_child(
    children: Seq<Option<Seq<Entity>>>,
    v: WorldView,
    adds: Seq<(Entity, Seq<Entity>)>,
    upto: int,
    p: Entity,
    e: Entity,
)
    requires
        0 <= upto <= adds.len(),
        p < v.n(),
        children.len() == v.n(),
        adds_keys_unique(adds),
        forall|j: int| 0 <= j < adds.len()
            ==> (#[trigger] adds[j]).0 < v.n() && children[adds[j].0 as int].is_none(),
        children[p as int].is_some() ==> children[p as int].unwrap().contains(e),
        children[p as int].is_none() ==> {
            &&& buffered_for(adds, p).is_some()
            &&& buffered_for(adds, p).unwrap().contains(e)
            &&& v.alive[p as int]
            &&& find_key(adds, p, 0) < upto
        },
    ensures
        ({
            let out = materialize(children, v, adds, upto);
            &&& out[p as int].is_some()
            &&& out[p as int].unwrap().contains(e)
        }),
    decreases upto,
{
    lemma_find_key_first(adds, p, 0);
    lemma_materialize_len(children, v, adds, upto);
    if upto > 0 {
        lemma_materialize_len(children, v, adds, upto - 1);
    }
    if children[p as int].is_some() {
        // No buffer entry can name `p`; the column keeps its value.
        if upto > 0 {
            assert(adds[upto - 1].0 != p);
            lemma_materialize_child(children, v, adds, upto - 1, p, e);
            assert(materialize(children, v, adds, upto)[p as int]
                == materialize(children, v, adds, upto - 1)[p as int]);
        } else {
            assert(materialize(children, v, adds, 0) == children);
        }
    } else {
        let kf = find_key(adds, p, 0);
        lemma_find_key_range(adds, p, 0);
        assert(adds[kf].0 == p);
        if upto - 1 == kf {
            lemma_find_key_range(adds, p, 0);
            lemma_find_key_first(adds, p, 0);
            assert(materialize(children, v, adds, upto)[p as int] == Option::Some(adds[kf].1));
        } else {
            assert(adds[upto - 1].0 != p) by {
                if adds[upto - 1].0 == p {
                    assert(kf < upto - 1);
                    assert(adds[kf].0 == adds[upto - 1].0);
                }
            }
            lemma_materialize_child(children, v, adds, upto - 1, p, e);
        }
    }
}

/// Filtering puts nothing new in, and takes every occurrence of the
/// filtered entity out.
proof fn lemma_without_not_contains(s: Seq<Entity>, e2: Entity, upto: int, x: Entity)
    requires
        0 <= upto <= s.len(),
        x == e2 || forall|xi: int| 0 <= xi < upto ==> #[trigger] s[xi] != x,
    ensures
        forall|wi: int| 0 <= wi < without(s, e2, upto).len()
            ==> #[trigger] without(s, e2, upto)[wi] != x,
    decreases upto,
{
    if upto > 0 {
        lemma_without_not_contains(s, e2, upto - 1, x);
        let w0 = without(s, e2, upto - 1);
        let w1 = without(s, e2, upto);
        assert forall|wi: int| 0 <= wi < w1.len() implies w1[wi] != x by {
            if s[upto - 1] == e2 {
                assert(w1 == w0);
                assert(w0[wi] != x);
            } else {
                assert(w1 == w0.push(s[upto - 1]));
                if wi < w0.len() {
                    assert(w1[wi] == w0[wi]);
                    assert(w0[wi] != x);
                } else {
                    assert(w1[wi] == s[upto - 1]);
                    if x != e2 {
                        assert(s[upto - 1] != x);
                    }
                }
            }
        }
    }
}

/// `e` does not occur in `q`'s children collection (when `q` has one).
pub open spec fn child_absent(s: MaintainState, q: Entity, e: Entity) -> bool {
    s.children[q as int].is_some()
        ==> forall|i: int| 0 <= i < s.children[q as int].unwrap().len()
            ==> (#[trigger] s.children[q as int].unwrap()[i]) != e
}

/// Every buffered entity sits under its own current parent's key.
pub open spec fn buffer_parented(v: WorldView, adds: Seq<(Entity, Seq<Entity>)>) -> bool {
    forall|j: int, xi: int| 0 <= j < adds.len() && 0 <= xi < adds[j].1.len()
        ==> (#[trigger] adds[j].1[xi]) < v.n()
            && v.parent[adds[j].1[xi] as int] == Option::Some(adds[j].0)
}

/// One step keeps the buffer keyed by current parents.
proof fn lemma_step_buffer_parented(v: WorldView, s: MaintainState, e2: Entity)
    requires
        v.wf(),
        state_inv(v, s),
        buffer_parented(v, s.adds),
    ensures
        buffer_parented(v, maintain_one(v, s, e2).adds),
{
    let s1 = maintain_one(v, s, e2);
    if s1.adds != s.adds {
        let p2 = v.parent[e2 as int].unwrap();
        let k2 = find_key(s.adds, p2, 0);
        lemma_find_key_range(s.adds, p2, 0);
        lemma_find_key_first(s.adds, p2, 0);
        assert forall|j: int, xi: int| 0 <= j < s1.adds.len() && 0 <= xi < s1.adds[j].1.len()
            implies (#[trigger] s1.adds[j].1[xi]) < v.n()
                && v.parent[s1.adds[j].1[xi] as int] == Option::Some(s1.adds[j].0) by {
            if k2 < s.adds.len() {
                if j == k2 {
                    assert(s1.adds[j] == (p2, s.adds[k2].1.push(e2)));
                    if xi < s.adds[k2].1.len() {
                        assert(s1.adds[j].1[xi] == s.adds[k2].1[xi]);
                    } else {
                        assert(s1.adds[j].1[xi] == e2);
                    }
                } else {
                    assert(s1.adds[j] == s.adds[j]);
                }
            } else {
                if j < s.adds.len() {
                    assert(s1.adds[j] == s.adds[j]);
                } else {
                    assert(s1.adds[j] == (p2, seq![e2]));
                    assert(s1.adds[j].1[0] == e2);
                }
            }
        }
    }
}

/// The fold keeps the buffer keyed by current parents from the start.
proof fn lemma_fold_buffer_parented(v: WorldView, m: int)
    requires
        v.wf(),
        0 <= m <= v.changed.len(),
    ensures
        buffer_parented(v, maintain_fold(v, m).adds),
    decreases m,
{
    if m > 0 {
        lemma_fold_buffer_parented(v, m - 1);
        lemma_fold_state_inv(v, m - 1);
        lemma_step_buffer_parented(v, maintain_fold(v, m - 1), v.changed[m - 1]);
    }
}

/// One step for any entity other than `e` keeps `e` absent from `q`'s
/// collection, as long as `e`'s current parent is not `q`.
proof fn lemma_step_keeps_absent(v: WorldView, s: MaintainState, e2: Entity, q: Entity, e: Entity)
    requires
        v.wf(),
        state_inv(v, s),
        q < v.n(),
        e2 != e,
        child_absent(s, q, e),
    ensures
        child_absent(maintain_one(v, s, e2), q, e),
{
    let s1 = maintain_one(v, s, e2);
    if !(e2 >= v.n() || !v.alive[e2 as int] || v.parent[e2 as int].is_none()
        || s.prev[e2 as int].is_none()) {
        let p2 = v.parent[e2 as int].unwrap();
        let pp2 = s.prev[e2 as int].unwrap();
        if pp2 != Option::Some(p2) {
            if pp2.is_some() && s.children[pp2.unwrap() as int].is_some()
                && pp2.unwrap() == q {
                let lst = s.children[q as int].unwrap();
                lemma_without_not_contains(lst, e2, lst.len() as int, e);
            }
            if s1.children[q as int].is_some() && p2 == q
                && s1.children[q as int] != s.children[q as int] {
                // A push appends only the stepped entity, which is not `e`.
            }
        }
    }
}

/// `e` stays absent from `q` through the rest of the fold.
proof fn lemma_fold_keeps_absent(v: WorldView, m: int, k: int, q: Entity, e: Entity)
    requires
        v.wf(),
        0 <= k < v.changed.len(),
        k + 1 <= m <= v.changed.len(),
        e == v.changed[k],
        q < v.n(),
        child_absent(maintain_fold(v, k + 1), q, e),
    ensures
        child_absent(maintain_fold(v, m), q, e),
    decreases m,
{
    if m > k + 1 {
        lemma_fold_keeps_absent(v, m - 1, k, q, e);
        lemma_fold_state_inv(v, m - 1);
        assert(v.changed[m - 1] != e);
        lemma_step_keeps_absent(v, maintain_fold(v, m - 1), v.changed[m - 1], q, e);
    }
}

/// Materializing keeps `e` absent from `q`: a fresh collection for `q`
/// would come from `q`'s own buffer, and `e` is buffered only under its
/// own current parent.
proof fn lemma_materialize_absent(
    children: Seq<Option<Seq<Entity>>>,
    v: WorldView,
    adds: Seq<(Entity, Seq<Entity>)>,
    upto: int,
    q: Entity,
    e: Entity,
)
    requires
        0 <= upto <= adds.len(),
        q < v.n(),
        e < v.n(),
        children.len() == v.n(),
        buffer_parented(v, adds),
        v.parent[e as int].is_some(),
        v.parent[e as int].unwrap() != q,
        children[q as int].is_some()
            ==> forall|i: int| 0 <= i < children[q as int].unwrap().len()
                ==> (#[trigger] children[q as int].unwrap()[i]) != e,
    ensures
        ({
            let out = materialize(children, v, adds, upto);
            out[q as int].is_some()
                ==> forall|i: int| 0 <= i < out[q as int].unwrap().len()
                    ==> (#[trigger] out[q as int].unwrap()[i]) != e
        }),
    decreases upto,
{
    lemma_materialize_len(children, v, adds, upto);
    if upto > 0 {
        lemma_materialize_len(children, v, adds, upto - 1);
        lemma_materialize_absent(children, v, adds, upto - 1, q, e);
        let p2 = adds[upto - 1].0;
        let out = materialize(children, v, adds, upto);
        if p2 == q && q < v.n() && v.alive[q as int] {
            assert forall|i: int| 0 <= i < out[q as int].unwrap().len()
                implies out[q as int].unwrap()[i] != e by {
                assert(out[q as int].unwrap() == adds[upto - 1].1);
                assert(adds[upto - 1].1[i] < v.n()
                    && v.parent[adds[upto - 1].1[i] as int] == Option::Some(q));
            }
        }
    }
}

/// After one maintainer run, a changed entity that moved to a new parent
/// is no longer in its former parent's children collection.
pub proof fn lemma_maintain_removes_child(v: WorldView, k: int)
    requires
        v.wf(),
        0 <= k < v.changed.len(),
        v.alive[v.changed[k] as int],
        v.parent[v.changed[k] as int].is_some(),
        v.prev[v.changed[k] as int].is_some(),
        v.prev[v.changed[k] as int].unwrap().is_some(),
        v.prev[v.changed[k] as int].unwrap().unwrap()
            != v.parent[v.changed[k] as int].unwrap(),
    ensures
        ({
            let e = v.changed[k];
            let q = v.prev[e as int].unwrap().unwrap();
            spec_maintain(v).children[q as int].is_some()
                ==> !spec_maintain(v).children[q as int].unwrap().contains(e)
        }),
{
    let e = v.changed[k];
    let p = v.parent[e as int].unwrap();
    let q = v.prev[e as int].unwrap().unwrap();
    let s_k = maintain_fold(v, k);
    let s_k1 = maintain_fold(v, k + 1);
    assert forall|i: int| 0 <= i < k implies (#[trigger] v.changed[i]) != e by {}
    lemma_fold_prev_untouched(v, k, e);
    lemma_fold_state_inv(v, k);
    assert(s_k1 == maintain_one(v, s_k, e));
    // At `e`'s own turn, the filter scrubs `e` out of `q`'s collection (or
    // `q` has none); the append goes to `p`, which is not `q`.
    assert(child_absent(s_k1, q, e)) by {
        if s_k.children[q as int].is_some() {
            let lst = s_k.children[q as int].unwrap();
            lemma_without_not_contains(lst, e, lst.len() as int, e);
        }
    }
    let len = v.changed.len() as int;
    lemma_fold_keeps_absent(v, len, k, q, e);
    let s_end = maintain_fold(v, len);
    lemma_fold_state_inv(v, len);
    lemma_fold_buffer_parented(v, len);
    lemma_materialize_absent(s_end.children, v, s_end.adds, s_end.adds.len() as int, q, e);
    let out = spec_maintain(v).children;
    if out[q as int].is_some() {
        assert(!out[q as int].unwrap().contains(e)) by {
            if out[q as int].unwrap().contains(e) {
                let i = choose|i: int| 0 <= i < out[q as int].unwrap().len()
                    && out[q as int].unwrap()[i] == e;
            }
        }
    }
}

/// After one maintainer run, a changed entity that is alive, was given a
/// different live parent than last observed, and carries its bookkeeping
/// record, stands in that parent's children collection.
pub proof fn lemma_maintain_adds_child(v: WorldView, k: int)
    requires
        v.wf(),
        0 <= k < v.changed.len(),
        v.alive[v.changed[k] as int],
        v.parent[v.changed[k] as int].is_some(),
        v.prev[v.changed[k] as int].is_some(),
        v.prev[v.changed[k] as int].unwrap()
            != Option::Some(v.parent[v.changed[k] as int].unwrap()),
        v.alive[v.parent[v.changed[k] as int].unwrap() as int],
    ensures
        ({
            let e = v.changed[k];
            let p = v.parent[e as int].unwrap();
            &&& spec_maintain(v).children[p as int].is_some()
            &&& spec_maintain(v).children[p as int].unwrap().contains(e)
        }),
{
    let e = v.changed[k];
    let p = v.parent[e as int].unwrap();
    let s_k = maintain_fold(v, k);
    let s_k1 = maintain_fold(v, k + 1);
    assert forall|i: int| 0 <= i < k implies (#[trigger] v.changed[i]) != e by {}
    lemma_fold_prev_untouched(v, k, e);
    lemma_fold_state_inv(v, k);
    assert(s_k1 == maintain_one(v, s_k, e));
    let pp = s_k.prev[e as int].unwrap();
    let children1 = if pp.is_some() && s_k.children[pp.unwrap() as int].is_some() {
        let q = pp.unwrap();
        s_k.children.update(q as int, Option::Some(without(
            s_k.children[q as int].unwrap(), e, s_k.children[q as int].unwrap().len() as int)))
    } else {
        s_k.children
    };
    assert(pp.is_some() ==> pp.unwrap() != p);
    assert(children1[p as int] == s_k.children[p as int]);
    if children1[p as int].is_some() {
        let lst = children1[p as int].unwrap();
        assert(s_k1.children[p as int].unwrap() == lst.push(e));
        assert(lst.push(e)[lst.len() as int] == e);
        assert(child_recorded(s_k1, p, e));
    } else {
        lemma_buffer_effect(s_k.adds, p, e, p);
        assert(child_recorded(s_k1, p, e));
    }
    let len = v.changed.len() as int;
    lemma_fold_keeps_child(v, len, k, p, e);
    let s_end = maintain_fold(v, len);
    lemma_fold_state_inv(v, len);
    if s_end.children[p as int].is_none() {
        // Recorded in the buffer: its entry must sit inside the fold's
        // buffer, which materialize walks completely.
        lemma_find_key_range(s_end.adds, p, 0);
        assert(find_key(s_end.adds, p, 0) < s_end.adds.len()) by {
            assert(buffered_for(s_end.adds, p).is_some());
        }
    }
    lemma_materialize_child(s_end.children, v, s_end.adds, s_end.adds.len() as int, p, e);
}

pub fn build() -> (r: Pass)
    ensures
        r == Pass::ParentUpdate,
{
    Pass::ParentUpdate
}

/// The hierarchy maintainer: react to every changed parent link, keeping
/// each parent's `Children` and each child's `PreviousParent` consistent
/// with the authoritative `Parent` column. The changed-parents set itself is
/// left for the depth assigner, which consumes the same input.
#[verifier::loop_isolation(false)]
pub fn run(w: &mut World)
    requires
        old(w).wf(),
    ensures
        final(w).wf(),
        final(w)@ == (WorldView {
            prev: spec_maintain(old(w)@).prev,
            children: spec_maintain(old(w)@).children,
            ..old(w)@
        }),
{
    let changed = w.get_changed_parents();
    let n = w.len();
    let mut adds: Vec<(Entity, Vec<Entity>)> = Vec::new();
    let mut k: usize = 0;
    while k < changed.len()
        invariant
            old(w).wf(),
            w.wf(),
            n == old(w)@.n(),
            changed@ == old(w)@.changed,
            k <= changed@.len(),
            adds_view(adds@) == maintain_fold(old(w)@, k as int).adds,
            forall|j: int| 0 <= j < adds_view(adds@).len()
                ==> (#[trigger] adds_view(adds@)[j]).0 < n,
            forall|j: int, i: int| 0 <= j < adds_view(adds@).len()
                && 0 <= i < adds_view(adds@)[j].1.len()
                ==> (#[trigger] adds_view(adds@)[j].1[i]) < n,
            w@ == (WorldView {
                prev: maintain_fold(old(w)@, k as int).prev,
                children: maintain_fold(old(w)@, k as int).children,
                ..old(w)@
            }),
        decreases changed@.len() - k,
    {
        let ghost s_k = maintain_fold(old(w)@, k as int);
        let e = changed[k];
        assert(e < n);
        if w.is_alive(e) {
            match (w.get_parent(e), w.get_previous_parent(e)) {
                (Some(par), Some(prev_c)) => {
                    let p = par.0;
                    let pp = prev_c.0;
                    let nothing_to_do = match pp {
                        Some(q) => q == p,
                        None => false,
                    };
                    if !nothing_to_do {
                        match pp {
                            Some(q) => {
                                match w.get_children(q) {
                                    Some(lst) => {
                                        let filtered = remove_element_vec(&lst, e);
                                        proof {
                                            lemma_without_bounds(lst@, e, lst@.len() as int, n as nat);
                                        }
                                        w.set_children(q, &filtered);
                                    }
                                    None => {}
                                }
                            }
                            None => {}
                        }
                        w.set_previous_parent(e, PreviousParent(Some(p)));
                        if w.has_children(p) {
                            w.children_push(p, e);
                        } else if w.is_alive(p) {
                            let ghost adds_pre = adds_view(adds@);
                            buffer_push(&mut adds, p, e);
                            proof {
                                lemma_buffer_bounds(adds_pre, p, e, n as nat);
                            }
                        }
                    }
                }
                _ => {}
            }
        }
        k = k + 1;
        proof {
            assert(maintain_fold(old(w)@, k as int) == maintain_one(old(w)@, s_k, e));
            assert(adds_view(adds@) =~~= maintain_fold(old(w)@, k as int).adds);
            assert(w@ =~~= (WorldView {
                prev: maintain_fold(old(w)@, k as int).prev,
                children: maintain_fold(old(w)@, k as int).children,
                ..old(w)@
            }));
        }
    }
    let ghost s_end = maintain_fold(old(w)@, old(w)@.changed.len() as int);
    let mut k2: usize = 0;
    while k2 < adds.len()
        invariant
            old(w).wf(),
            w.wf(),
            n == old(w)@.n(),
            k2 <= adds@.len(),
            adds_view(adds@) == s_end.adds,
            forall|j: int| 0 <= j < adds_view(adds@).len()
                ==> (#[trigger] adds_view(adds@)[j]).0 < n,
            forall|j: int, i: int| 0 <= j < adds_view(adds@).len()
                && 0 <= i < adds_view(adds@)[j].1.len()
                ==> (#[trigger] adds_view(adds@)[j].1[i]) < n,
            w@ == (WorldView {
                prev: s_end.prev,
                children: materialize(s_end.children, old(w)@, s_end.adds, k2 as int),
                ..old(w)@
            }),
        decreases adds@.len() - k2,
    {
        let p = adds[k2].0;
        proof {
            assert(adds_view(adds@)[k2 as int].0 == p);
            assert(p < n);
            assert forall|i: int| 0 <= i < adds@[k2 as int].1@.len()
                implies adds@[k2 as int].1@[i] < n by {
                assert(adds_view(adds@)[k2 as int].1[i] == adds@[k2 as int].1@[i]);
            }
        }
        if w.is_alive(p) {
            w.set_children(p, &adds[k2].1);
        }
        k2 = k2 + 1;
        proof {
            assert(w@ =~~= (WorldView {
                prev: s_end.prev,
                children: materialize(s_end.children, old(w)@, s_end.adds, k2 as int),
                ..old(w)@
            }));
        }
    }
    proof {
        assert(w@ =~~= (WorldView {
            prev: spec_maintain(old(w)@).prev,
            children: spec_maintain(old(w)@).children,
            ..old(w)@
        }));
    }
}

} // verus!
