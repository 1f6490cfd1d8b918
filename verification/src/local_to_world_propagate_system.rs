use vstd::prelude::*;
use crate::Entity;
use crate::components::local_to_world::LocalToWorld;
use crate::components::matrix::Mat4;
use crate::world::{World, WorldView};
use crate::transform_system_bundle::Pass;

verus! {

/// A hierarchy root: alive, with a `Children` collection and a resolved
/// `LocalToWorld`, and no `Parent`.
pub open spec fn is_root(v: WorldView, i: int) -> bool {
    &&& 0 <= i < v.n()
    &&& v.alive[i]
    &&& v.children[i].is_some()
    &&& v.ltw[i].is_some()
    &&& v.parent[i].is_none()
}

/// An entity's children, or nothing when it has no collection.
pub open spec fn child_list(v: WorldView, e: int) -> Seq<Entity> {
    if 0 <= e < v.n() && v.children[e].is_some() {
        v.children[e].unwrap()
    } else {
        Seq::empty()
    }
}

/// One node's children as a stack segment: reversed (so that the first
/// child is popped first), each paired with the parent's resolved world
/// matrix as its seed.
pub open spec fn rev_pairs(cs: Seq<Entity>, seed: Seq<u32>) -> Seq<(Entity, Seq<u32>)> {
    Seq::new(cs.len(), |i: int| (cs[cs.len() - 1 - i], seed))
}

/// The stack segments of all roots in `lo <= r < hi`, larger roots below,
/// so that the walk handles roots in ascending order.
pub open spec fn init_range(v: WorldView, lo: int, hi: int) -> Seq<(Entity, Seq<u32>)>
    decreases hi - lo,
{
    if lo >= hi {
        Seq::empty()
    } else if is_root(v, hi - 1) {
        rev_pairs(v.children[hi - 1].unwrap(), v.ltw[hi - 1].unwrap()) + init_range(v, lo, hi - 1)
    } else {
        init_range(v, lo, hi - 1)
    }
}

/// Pop until a child that can be processed is on top: entities already
/// visited this cycle are dropped (the cycle and duplicate guard), dead
/// entities and entities without a `LocalToParent` are recorded as skipped
/// (their subtrees stay stale this cycle), and the first live, unvisited
/// child with a local matrix is handed back with its seed.
pub open spec fn spec_advance(
    v: WorldView,
    st: Seq<(Entity, Seq<u32>)>,
    sk: Seq<Entity>,
    visited: Seq<bool>,
) -> (Seq<(Entity, Seq<u32>)>, Seq<Entity>, Option<(Entity, Seq<u32>)>)
    decreases st.len(),
{
    if st.len() == 0 {
        (st, sk, Option::None)
    } else {
        let top = st.last();
        let rest = st.drop_last();
        if top.0 >= v.n() || visited[top.0 as int] {
            spec_advance(v, rest, sk, visited)
        } else if !v.alive[top.0 as int] || v.ltp[top.0 as int].is_none() {
            spec_advance(v, rest, sk.push(top.0), visited)
        } else {
            (rest, sk, Option::Some(top))
        }
    }
}

/// Peeling the lowest root off an initial stack: its segment sits on top.
proof fn lemma_init_range_low(v: WorldView, lo: int, hi: int)
    requires
        lo < hi,
    ensures
        is_root(v, lo) ==> init_range(v, lo, hi)
            == init_range(v, lo + 1, hi)
                + rev_pairs(v.children[lo].unwrap(), v.ltw[lo].unwrap()),
        !is_root(v, lo) ==> init_range(v, lo, hi) == init_range(v, lo + 1, hi),
    decreases hi - lo,
{
    let glo: Seq<(Entity, Seq<u32>)> = if is_root(v, lo) {
        rev_pairs(v.children[lo].unwrap(), v.ltw[lo].unwrap())
    } else {
        Seq::empty()
    };
    if hi == lo + 1 {
        assert(init_range(v, lo, lo) == Seq::<(Entity, Seq<u32>)>::empty());
        assert(init_range(v, lo + 1, lo + 1) == Seq::<(Entity, Seq<u32>)>::empty());
        assert(init_range(v, lo, hi) =~= init_range(v, lo + 1, hi) + glo);
    } else {
        lemma_init_range_low(v, lo, hi - 1);
        assert(init_range(v, lo, hi) =~= init_range(v, lo + 1, hi) + glo);
    }
    if !is_root(v, lo) {
        assert(init_range(v, lo, hi) =~= init_range(v, lo + 1, hi));
    }
}

/// One matrix product the host must compute: `a * b`, the parent's resolved
/// world matrix times the child's local matrix.
pub struct MulRequest {
    pub a: Mat4,
    pub b: Mat4,
}

/// The root-down walk, one matrix product at a time. `next` hands out the
/// product to compute for the first reachable unresolved child; `supply`
/// takes the computed product back, writes it as that child's
/// `LocalToWorld`, and queues the child's own children under the fresh
/// matrix. A parent's matrix is always fully resolved before any of its
/// children is handed out, and every matrix handed out as `a` is the
/// product the host itself computed for that parent this cycle (or a root's
/// stored matrix).
pub struct Propagator {
    visited: Vec<bool>,
    stack: Vec<(Entity, Mat4)>,
    pending: Option<Entity>,
    skipped: Vec<Entity>,
}

/// The stack as the specification sees it.
pub open spec fn stack_view(st: Seq<(Entity, Mat4)>) -> Seq<(Entity, Seq<u32>)> {
    Seq::new(st.len(), |i: int| (st[i].0, st[i].1@))
}

impl Propagator {
    pub closed spec fn stack(self) -> Seq<(Entity, Seq<u32>)> {
        stack_view(self.stack@)
    }

    pub closed spec fn visited_set(self) -> Seq<bool> {
        self.visited@
    }

    pub closed spec fn pending_entity(self) -> Option<Entity> {
        self.pending
    }

    /// The dead or matrix-less children the walk has skipped so far.
    pub closed spec fn skipped_entities(self) -> Seq<Entity> {
        self.skipped@
    }

    pub closed spec fn inv(self, v: WorldView) -> bool {
        &&& self.visited@.len() == v.n()
        &&& forall|i: int| 0 <= i < self.stack@.len()
                ==> (#[trigger] self.stack@[i]).0 < v.n() && self.stack@[i].1@.len() == 16
        &&& match self.pending {
                Option::Some(e) => e < v.n() && v.alive[e as int] && v.ltp[e as int].is_some(),
                Option::None => true,
            }
    }

    /// Seed the walk with every root's children under the root's stored
    /// world matrix, roots in ascending order.
    #[verifier::loop_isolation(false)]
    pub fn start(w: &World) -> (p: Propagator)
        requires
            w.wf(),
        ensures
            p.inv(w@),
            p.visited_set() == Seq::new(w@.n(), |i: int| false),
            p.stack() == init_range(w@, 0, w@.n() as int),
            p.pending_entity().is_none(),
            p.skipped_entities() == Seq::<Entity>::empty(),
    {
        let n = w.len();
        let mut visited: Vec<bool> = Vec::new();
        let mut i: usize = 0;
        while i < n
            invariant
                i <= n,
                visited@ =~= Seq::new(i as nat, |j: int| false),
            decreases n - i,
        {
            visited.push(false);
            i = i + 1;
        }
        let mut stack: Vec<(Entity, Mat4)> = Vec::new();
        let mut e: usize = n;
        while e > 0
            invariant
                e <= n,
                stack_view(stack@) == init_range(w@, e as int, n as int),
                forall|i: int| 0 <= i < stack@.len()
                    ==> (#[trigger] stack@[i]).0 < n && stack@[i].1@.len() == 16,
            decreases e,
        {
            e = e - 1;
            if w.is_alive(e) && w.has_children(e) && w.has_local_to_world(e)
                && w.get_parent(e).is_none()
            {
                let cs = match w.get_children(e) {
                    Some(cs) => cs,
                    None => Vec::new(),
                };
                let seed = match w.get_local_to_world(e) {
                    Some(m) => m.0,
                    None => Mat4::identity(),
                };
                let mut j: usize = cs.len();
                while j > 0
                    invariant
                        j <= cs@.len(),
                        cs@ == w@.children[e as int].unwrap(),
                        seed@ == w@.ltw[e as int].unwrap(),
                        seed.wf(),
                        forall|x: int| 0 <= x < cs@.len() ==> #[trigger] cs@[x] < w@.n(),
                        stack_view(stack@) == init_range(w@, e + 1, n as int)
                            + rev_pairs(cs@, seed@).take(cs@.len() - j),
                        forall|x: int| 0 <= x < stack@.len()
                            ==> (#[trigger] stack@[x]).0 < n && stack@[x].1@.len() == 16,
                    decreases j,
                {
                    j = j - 1;
                    let ghost pre_sv = stack_view(stack@);
                    let ghost seg_pre = rev_pairs(cs@, seed@).take(cs@.len() - (j + 1));
                    stack.push((cs[j], seed.duplicate()));
                    proof {
                        let seg = rev_pairs(cs@, seed@).take(cs@.len() - j);
                        assert(stack_view(stack@) =~= pre_sv.push((cs@[j as int], seed@)));
                        assert(seg =~= seg_pre.push((cs@[j as int], seed@)));
                        assert(init_range(w@, e + 1, n as int) + seg
                            =~= (init_range(w@, e + 1, n as int) + seg_pre).push((cs@[j as int], seed@)));
                        assert(stack_view(stack@) == init_range(w@, e + 1, n as int) + seg);
                    }
                }
                proof {
                    assert(rev_pairs(cs@, seed@).take(cs@.len() as int) =~= rev_pairs(cs@, seed@));
                    lemma_init_range_low(w@, e as int, n as int);
                    assert(stack_view(stack@) =~= init_range(w@, e as int, n as int));
                }
            } else {
                proof {
                    lemma_init_range_low(w@, e as int, n as int);
                    assert(stack_view(stack@) =~= init_range(w@, e as int, n as int));
                }
            }
        }
        Propagator { visited, stack, pending: None, skipped: Vec::new() }
    }

    /// Hand out the next product to compute: the first reachable child that
    /// is alive, unvisited and has a `LocalToParent`, as the pair (parent's
    /// resolved world matrix, child's local matrix). None when the walk is
    /// done.
    #[verifier::loop_isolation(false)]
    pub fn next(&mut self, w: &World) -> (r: Option<MulRequest>)
        requires
            w.wf(),
            old(self).inv(w@),
            old(self).pending_entity().is_none(),
        ensures
            final(self).inv(w@),
            final(self).visited_set() == old(self).visited_set(),
            ({
                let (st2, sk2, pend) = spec_advance(w@, old(self).stack(),
                    old(self).skipped_entities(), old(self).visited_set());
                &&& final(self).stack() == st2
                &&& final(self).skipped_entities() == sk2
                &&& match pend {
                        Option::Some(p) => {
                            &&& final(self).pending_entity() == Option::Some(p.0)
                            &&& r.is_some()
                            &&& r.unwrap().a@ == p.1
                            &&& r.unwrap().a.wf()
                            &&& r.unwrap().b@ == w@.ltp[p.0 as int].unwrap()
                            &&& r.unwrap().b.wf()
                        }
                        Option::None => {
                            &&& final(self).pending_entity().is_none()
                            &&& r.is_none()
                        }
                    }
            }),
    {
        loop
            invariant
                w.wf(),
                self.inv(w@),
                self.pending.is_none(),
                self.visited@ == old(self).visited@,
                spec_advance(w@, self.stack(), self.skipped@, self.visited@)
                    == spec_advance(w@, old(self).stack(),
                        old(self).skipped_entities(), old(self).visited_set()),
            decreases self.stack@.len(),
        {
            let ghost pre_stack = self.stack();
            match self.stack.pop() {
                None => {
                    proof {
                        assert(pre_stack.len() == 0);
                        assert(stack_view(self.stack@) =~= pre_stack);
                    }
                    return None;
                }
                Some((e, seed)) => {
                    proof {
                        assert(pre_stack.last() == (e, seed@));
                        assert(stack_view(self.stack@) =~= pre_stack.drop_last());
                    }
                    if self.visited[e] {
                        // already resolved this cycle: cycle or duplicate guard
                    } else if !w.is_alive(e) || !w.has_local_to_parent(e) {
                        self.skipped.push(e);
                    } else {
                        self.pending = Some(e);
                        let b = match w.get_local_to_parent(e) {
                            Some(m) => m.0,
                            None => Mat4::identity(),
                        };
                        return Some(MulRequest { a: seed, b });
                    }
                }
            }
        }
    }

    /// Take one computed product back: write it as the pending child's
    /// `LocalToWorld` and queue that child's children under it.
    #[verifier::loop_isolation(false)]
    pub fn supply(&mut self, w: &mut World, product: Mat4)
        requires
            old(w).wf(),
            old(self).inv(old(w)@),
            old(self).pending_entity().is_some(),
            product.wf(),
        ensures
            final(self).inv(final(w)@),
            final(w).wf(),
            ({
                let e = old(self).pending_entity().unwrap();
                &&& final(w)@ == (WorldView {
                        ltw: old(w)@.ltw.update(e as int, Option::Some(product@)),
                        ..old(w)@
                    })
                &&& final(self).visited_set()
                    == old(self).visited_set().update(e as int, true)
                &&& final(self).stack()
                    == old(self).stack() + rev_pairs(child_list(old(w)@, e as int), product@)
                &&& final(self).pending_entity().is_none()
                &&& final(self).skipped_entities() == old(self).skipped_entities()
            }),
    {
        let e = match self.pending {
            Some(e) => e,
            None => 0,
        };
        let ghost v0 = w@;
        let cs = match w.get_children(e) {
            Some(cs) => cs,
            None => Vec::new(),
        };
        proof {
            assert(cs@ =~= child_list(v0, e as int));
        }
        let mut j: usize = cs.len();
        proof {
            assert(self.stack() =~= old(self).stack()
                + rev_pairs(cs@, product@).take(cs@.len() - j));
        }
        while j > 0
            invariant
                j <= cs@.len(),
                cs@ == child_list(v0, e as int),
                forall|x: int| 0 <= x < cs@.len() ==> #[trigger] cs@[x] < v0.n(),
                product.wf(),
                self.stack() == old(self).stack()
                    + rev_pairs(cs@, product@).take(cs@.len() - j),
                forall|x: int| 0 <= x < self.stack@.len()
                    ==> (#[trigger] self.stack@[x]).0 < v0.n() && self.stack@[x].1@.len() == 16,
                self.visited@ == old(self).visited@,
                self.pending == old(self).pending,
                self.skipped@ == old(self).skipped@,
            decreases j,
        {
            j = j - 1;
            let ghost pre_sv = stack_view(self.stack@);
            let ghost seg_pre = rev_pairs(cs@, product@).take(cs@.len() - (j + 1));
            self.stack.push((cs[j], product.duplicate()));
            proof {
                let seg = rev_pairs(cs@, product@).take(cs@.len() - j);
                assert(stack_view(self.stack@) =~= pre_sv.push((cs@[j as int], product@)));
                assert(seg =~= seg_pre.push((cs@[j as int], product@)));
                assert(old(self).stack() + seg
                    =~= (old(self).stack() + seg_pre).push((cs@[j as int], product@)));
                assert(stack_view(self.stack@) == old(self).stack() + seg);
            }
        }
        proof {
            assert(rev_pairs(cs@, product@).take(cs@.len() as int) =~= rev_pairs(cs@, product@));
        }
        w.set_local_to_world(e, LocalToWorld(product));
        self.visited.set(e, true);
        self.pending = None;
    }
}

impl Propagator {
    /// The dead or matrix-less children skipped so far, oldest first.
    pub fn skipped(&self) -> (r: Vec<Entity>)
        ensures
            r@ == self.skipped_entities(),
    {
        let mut out: Vec<Entity> = Vec::new();
        let mut i: usize = 0;
        while i < self.skipped.len()
            invariant
                i <= self.skipped@.len(),
                out@ == self.skipped@.subrange(0, i as int),
            decreases self.skipped@.len() - i,
        {
            out.push(self.skipped[i]);
            i = i + 1;
        }
        proof {
            assert(out@ =~= self.skipped@);
        }
        out
    }
}

pub fn build() -> (r: Pass)
    ensures
        r == Pass::Propagate,
{
    Pass::Propagate
}

/// How many entities the walk has not resolved yet.
pub open spec fn count_unvisited(visited: Seq<bool>) -> nat
    decreases visited.len(),
{
    if visited.len() == 0 {
        0
    } else {
        count_unvisited(visited.drop_last()) + (if visited.last() { 0nat } else { 1nat })
    }
}

pub(crate) proof fn lemma_count_update_true(visited: Seq<bool>, e: int)
    requires
        0 <= e < visited.len(),
        !visited[e],
    ensures
        count_unvisited(visited.update(e, true)) < count_unvisited(visited),
    decreases visited.len(),
{
    let upd = visited.update(e, true);
    if e == visited.len() - 1 {
        assert(upd.drop_last() =~= visited.drop_last());
    } else {
        assert(upd.drop_last() =~= visited.drop_last().update(e, true));
        lemma_count_update_true(visited.drop_last(), e);
        assert(upd.last() == visited.last());
    }
}

/// What popping down to the next processable child guarantees: the
/// remaining stack is a prefix of the old one, and the child handed back is
/// alive, unvisited, in range, with a local matrix, and came off the stack.
proof fn lemma_advance_props(
    v: WorldView,
    st: Seq<(Entity, Seq<u32>)>,
    sk: Seq<Entity>,
    visited: Seq<bool>,
)
    ensures
        ({
            let (st2, sk2, pend) = spec_advance(v, st, sk, visited);
            &&& st2.len() <= st.len()
            &&& st2 == st.take(st2.len() as int)
            &&& pend.is_some() ==> {
                    let p = pend.unwrap();
                    &&& st2.len() < st.len()
                    &&& p == st[st2.len() as int]
                    &&& 0 <= p.0 < v.n()
                    &&& !visited[p.0 as int]
                    &&& v.alive[p.0 as int]
                    &&& v.ltp[p.0 as int].is_some()
                }
        }),
    decreases st.len(),
{
    if st.len() == 0 {
        let (st2, sk2, pend) = spec_advance(v, st, sk, visited);
        assert(st2 =~= st.take(st2.len() as int));
    } else {
        let rest = st.drop_last();
        assert(rest =~= st.take(st.len() - 1));
        let top = st.last();
        if top.0 >= v.n() || visited[top.0 as int] {
            lemma_advance_props(v, rest, sk, visited);
            let (st2, sk2, pend) = spec_advance(v, rest, sk, visited);
            assert(st2 == rest.take(st2.len() as int));
            assert(st2 =~= st.take(st2.len() as int));
        } else if !v.alive[top.0 as int] || v.ltp[top.0 as int].is_none() {
            lemma_advance_props(v, rest, sk.push(top.0), visited);
            let (st2, sk2, pend) = spec_advance(v, rest, sk.push(top.0), visited);
            assert(st2 == rest.take(st2.len() as int));
            assert(st2 =~= st.take(st2.len() as int));
        } else {
            assert(rest == st.take(rest.len() as int));
        }
    }
}

/// The whole pass modeled in one piece: what the world-matrix column
/// becomes when the walk runs to completion and the host computes every
/// requested product with the one function `f`. The machine above steps
/// through exactly these cases, one `next`/`supply` round per recursive
/// call.
pub open spec fn spec_run(
    v: WorldView,
    ltw: Seq<Option<Seq<u32>>>,
    st: Seq<(Entity, Seq<u32>)>,
    visited: Seq<bool>,
    f: spec_fn(Seq<u32>, Seq<u32>) -> Seq<u32>,
) -> Seq<Option<Seq<u32>>>
    decreases count_unvisited(visited), st.len(),
        when visited.len() == v.n()
        via spec_run_decreases
{
    let (st2, sk2, pend) = spec_advance(v, st, Seq::empty(), visited);
    match pend {
        Option::None => ltw,
        Option::Some(p) => {
            let prod = f(p.1, v.ltp[p.0 as int].unwrap());
            spec_run(
                v,
                ltw.update(p.0 as int, Option::Some(prod)),
                st2 + rev_pairs(child_list(v, p.0 as int), prod),
                visited.update(p.0 as int, true),
                f,
            )
        }
    }
}

#[via_fn]
proof fn spec_run_decreases(
    v: WorldView,
    ltw: Seq<Option<Seq<u32>>>,
    st: Seq<(Entity, Seq<u32>)>,
    visited: Seq<bool>,
    f: spec_fn(Seq<u32>, Seq<u32>) -> Seq<u32>,
) {
    lemma_advance_props(v, st, Seq::empty(), visited);
    let (st2, sk2, pend) = spec_advance(v, st, Seq::empty(), visited);
    if pend.is_some() {
        lemma_count_update_true(visited, pend.unwrap().0 as int);
    }
}

/// The modeled pass, from the start state the machine's `start` builds.
pub open spec fn spec_propagate(
    v: WorldView,
    f: spec_fn(Seq<u32>, Seq<u32>) -> Seq<u32>,
) -> Seq<Option<Seq<u32>>> {
    spec_run(v, v.ltw, init_range(v, 0, v.n() as int), Seq::new(v.n(), |i: int| false), f)
}

/// Every entity held in any children collection has a parent link: the
/// children index agrees with the authoritative column, as it does after a
/// maintainer run over link changes that kept the index in step.
pub open spec fn hierarchy_consistent(v: WorldView) -> bool {
    forall|e: int, k: int|
        0 <= e < v.n() && v.children[e].is_some() && 0 <= k < v.children[e].unwrap().len()
            ==> v.parent[(#[trigger] v.children[e].unwrap()[k]) as int].is_some()
}

/// Every entity waiting on the stack has a parent link.
pub open spec fn stack_parented(v: WorldView, st: Seq<(Entity, Seq<u32>)>) -> bool {
    forall|k: int| 0 <= k < st.len()
        ==> (#[trigger] st[k]).0 < v.n() && v.parent[st[k].0 as int].is_some()
}

/// Two runs over the same hierarchy, stack and visited set, differing only
/// in the starting matrix column, make exactly the same writes: at every
/// entity, either both runs leave their input alone, or both end with the
/// same value. Moreover only entities with a parent link are ever written,
/// and the column keeps its length.
proof fn lemma_run_two(
    v: WorldView,
    a: Seq<Option<Seq<u32>>>,
    b: Seq<Option<Seq<u32>>>,
    st: Seq<(Entity, Seq<u32>)>,
    visited: Seq<bool>,
    f: spec_fn(Seq<u32>, Seq<u32>) -> Seq<u32>,
)
    requires
        v.wf(),
        visited.len() == v.n(),
        a.len() == v.n(),
        b.len() == v.n(),
        hierarchy_consistent(v),
        stack_parented(v, st),
    ensures
        spec_run(v, a, st, visited, f).len() == v.n(),
        spec_run(v, b, st, visited, f).len() == v.n(),
        forall|i: int| 0 <= i < v.n()
            ==> (#[trigger] spec_run(v, a, st, visited, f)[i]) == spec_run(v, b, st, visited, f)[i]
                || (spec_run(v, a, st, visited, f)[i] == a[i]
                    && spec_run(v, b, st, visited, f)[i] == b[i]),
        forall|i: int| 0 <= i < v.n() && (#[trigger] spec_run(v, a, st, visited, f)[i]) != a[i]
            ==> v.parent[i].is_some(),
    decreases count_unvisited(visited), st.len(),
{
    lemma_advance_props(v, st, Seq::empty(), visited);
    let (st2, sk2, pend) = spec_advance(v, st, Seq::empty(), visited);
    match pend {
        Option::None => {}
        Option::Some(p) => {
            let e = p.0 as int;
            let prod = f(p.1, v.ltp[e].unwrap());
            let a1 = a.update(e, Option::Some(prod));
            let b1 = b.update(e, Option::Some(prod));
            let cs = child_list(v, e);
            let st3 = st2 + rev_pairs(cs, prod);
            let vis1 = visited.update(p.0 as int, true);
            assert(stack_parented(v, st2)) by {
                assert forall|k: int| 0 <= k < st2.len()
                    implies (#[trigger] st2[k]).0 < v.n()
                        && v.parent[st2[k].0 as int].is_some() by {
                    assert(st2[k] == st[k]);
                }
            }
            assert(stack_parented(v, st3)) by {
                assert forall|k: int| 0 <= k < st3.len()
                    implies (#[trigger] st3[k]).0 < v.n()
                        && v.parent[st3[k].0 as int].is_some() by {
                    if k >= st2.len() {
                        let q = k - st2.len();
                        assert(st3[k] == rev_pairs(cs, prod)[q]);
                        assert(rev_pairs(cs, prod)[q].0 == cs[cs.len() - 1 - q]);
                    }
                }
            }
            lemma_count_update_true(visited, e);
            lemma_run_two(v, a1, b1, st3, vis1, f);
            let ra = spec_run(v, a, st, visited, f);
            let rb = spec_run(v, b, st, visited, f);
            assert(ra == spec_run(v, a1, st3, vis1, f));
            assert(rb == spec_run(v, b1, st3, vis1, f));
            assert forall|i: int| 0 <= i < v.n() implies
                ((#[trigger] ra[i]) == rb[i] || (ra[i] == a[i] && rb[i] == b[i])) by {
                if i == e {
                    assert(a1[i] == b1[i]);
                    assert(ra[i] == rb[i] || (ra[i] == a1[i] && rb[i] == b1[i]));
                } else {
                    assert(a1[i] == a[i] && b1[i] == b[i]);
                }
            }
            assert forall|i: int| 0 <= i < v.n() && (#[trigger] ra[i]) != a[i]
                implies v.parent[i].is_some() by {
                if i == e {
                    assert(v.parent[e].is_some());
                } else {
                    assert(a1[i] == a[i]);
                }
            }
        }
    }
}

/// Two world views with the same liveness, hierarchy and local matrices
/// drive the pop-and-skip loop identically.
proof fn lemma_advance_statics(
    v1: WorldView,
    v2: WorldView,
    st: Seq<(Entity, Seq<u32>)>,
    sk: Seq<Entity>,
    visited: Seq<bool>,
)
    requires
        v1.n() == v2.n(),
        v1.alive == v2.alive,
        v1.ltp == v2.ltp,
    ensures
        spec_advance(v1, st, sk, visited) == spec_advance(v2, st, sk, visited),
    decreases st.len(),
{
    if st.len() > 0 {
        let top = st.last();
        let rest = st.drop_last();
        if top.0 >= v1.n() || visited[top.0 as int] {
            lemma_advance_statics(v1, v2, rest, sk, visited);
        } else if !v1.alive[top.0 as int] || v1.ltp[top.0 as int].is_none() {
            lemma_advance_statics(v1, v2, rest, sk.push(top.0), visited);
        }
    }
}

/// Two world views with the same liveness, hierarchy, children and local
/// matrices run identically from any start column.
proof fn lemma_run_statics(
    v1: WorldView,
    v2: WorldView,
    ltw: Seq<Option<Seq<u32>>>,
    st: Seq<(Entity, Seq<u32>)>,
    visited: Seq<bool>,
    f: spec_fn(Seq<u32>, Seq<u32>) -> Seq<u32>,
)
    requires
        visited.len() == v1.n(),
        v1.n() == v2.n(),
        v1.alive == v2.alive,
        v1.ltp == v2.ltp,
        v1.children == v2.children,
    ensures
        spec_run(v1, ltw, st, visited, f) == spec_run(v2, ltw, st, visited, f),
    decreases count_unvisited(visited), st.len(),
{
    lemma_advance_statics(v1, v2, st, Seq::empty(), visited);
    lemma_advance_props(v1, st, Seq::empty(), visited);
    let (st2, sk2, pend) = spec_advance(v1, st, Seq::empty(), visited);
    match pend {
        Option::None => {}
        Option::Some(p) => {
            let e = p.0 as int;
            let prod = f(p.1, v1.ltp[e].unwrap());
            assert(child_list(v1, e) == child_list(v2, e));
            lemma_count_update_true(visited, e);
            lemma_run_statics(
                v1,
                v2,
                ltw.update(e, Option::Some(prod)),
                st2 + rev_pairs(child_list(v1, e), prod),
                visited.update(e, true),
                f,
            );
        }
    }
}

/// The initial stack only depends on which entities are roots, their
/// children and their stored world matrices.
proof fn lemma_init_range_same(v1: WorldView, v2: WorldView, lo: int, hi: int)
    requires
        forall|i: int| lo <= i < hi ==> is_root(v1, i) == is_root(v2, i),
        forall|i: int| lo <= i < hi && is_root(v1, i)
            ==> v1.children[i] == v2.children[i] && v1.ltw[i] == v2.ltw[i],
    ensures
        init_range(v1, lo, hi) == init_range(v2, lo, hi),
    decreases hi - lo,
{
    if lo < hi {
        lemma_init_range_same(v1, v2, lo, hi - 1);
    }
}

/// Every entity seeded onto the initial stack is some root's child.
proof fn lemma_init_range_parented(v: WorldView, lo: int, hi: int)
    requires
        v.wf(),
        hierarchy_consistent(v),
        hi <= v.n(),
    ensures
        stack_parented(v, init_range(v, lo, hi)),
    decreases hi - lo,
{
    if lo < hi {
        lemma_init_range_parented(v, lo, hi - 1);
        let st = init_range(v, lo, hi);
        let rest = init_range(v, lo, hi - 1);
        if is_root(v, hi - 1) {
            let cs = v.children[hi - 1].unwrap();
            let seg = rev_pairs(cs, v.ltw[hi - 1].unwrap());
            assert forall|k: int| 0 <= k < st.len()
                implies (#[trigger] st[k]).0 < v.n()
                    && v.parent[st[k].0 as int].is_some() by {
                if k < seg.len() {
                    assert(st[k] == seg[k]);
                    assert(seg[k].0 == cs[cs.len() - 1 - k]);
                } else {
                    assert(st[k] == rest[k - seg.len()]);
                }
            }
        }
    }
}

/// Running the propagator a second time with no intervening changes, with
/// products computed by the same function both times, leaves every world
/// matrix bit-identical: the walk writes only entities that hang under a
/// parent, so the root seeds of the second run are the first run's seeds,
/// and every product it computes comes out the same.
pub proof fn lemma_propagate_idempotent(v: WorldView, f: spec_fn(Seq<u32>, Seq<u32>) -> Seq<u32>)
    requires
        v.wf(),
        hierarchy_consistent(v),
    ensures
        ({
            let first = WorldView { ltw: spec_propagate(v, f), ..v };
            spec_propagate(first, f) == spec_propagate(v, f)
        }),
{
    let r = spec_propagate(v, f);
    let w2 = WorldView { ltw: r, ..v };
    let vis0 = Seq::new(v.n(), |i: int| false);
    let init_v = init_range(v, 0, v.n() as int);
    lemma_init_range_parented(v, 0, v.n() as int);
    lemma_run_two(v, v.ltw, v.ltw, init_v, vis0, f);
    assert(r.len() == v.n());
    assert forall|i: int| 0 <= i < v.n() && (#[trigger] r[i]) != v.ltw[i]
        implies v.parent[i].is_some() by {}
    assert forall|i: int| 0 <= i < v.n() implies is_root(w2, i) == is_root(v, i) by {
        if v.parent[i].is_none() {
            assert(r[i] == v.ltw[i]);
        }
    }
    let init_w2 = init_range(w2, 0, w2.n() as int);
    assert(init_w2 == init_v) by {
        lemma_init_range_same(w2, v, 0, v.n() as int);
    }
    assert(spec_propagate(w2, f) == spec_run(v, r, init_v, vis0, f)) by {
        lemma_run_statics(w2, v, r, init_w2, vis0, f);
    }
    lemma_run_two(v, v.ltw, r, init_v, vis0, f);
    let rb = spec_run(v, r, init_v, vis0, f);
    assert forall|i: int| 0 <= i < v.n() implies (#[trigger] rb[i]) == r[i] by {
        assert(r[i] == rb[i] || (r[i] == v.ltw[i] && rb[i] == r[i]));
    }
    assert(rb =~= r);
}

} // verus!
