use vstd::prelude::*;
use vstd::multiset::Multiset;
use crate::Entity;
use crate::world::{World, WorldView};
use crate::local_to_world_propagate_system::child_list;
use crate::transform_system_bundle::Pass;

verus! {

/// One node of the forest of hierarchy deltas that the depth assigner
/// builds before writing any depth.
pub struct TreeNode {
    pub entity: Entity,
    pub children: Vec<TreeNode>,
}

impl TreeNode {
    pub fn new(entity: Entity) -> (r: TreeNode)
        ensures
            r.entity == entity,
            r.children@ == Seq::<TreeNode>::empty(),
    {
        TreeNode { entity, children: Vec::new() }
    }
}

/// A tree fits the world: every node is in range, and every tree edge
/// follows the world's children index.
pub open spec fn tree_ok(t: TreeNode, v: WorldView) -> bool
    decreases t,
{
    &&& t.entity < v.n()
    &&& forall|i: int| 0 <= i < t.children@.len()
            ==> child_list(v, t.entity as int).contains((#[trigger] t.children@[i]).entity)
    &&& forall|i: int| 0 <= i < t.children@.len()
            ==> tree_ok(#[trigger] t.children@[i], v)
}

/// The depth value one lower in the tree: the successor, wrapping at the
/// integer's end as two's-complement addition would.
pub open spec fn wrap_inc(d: u32) -> u32 {
    if d == 0xFFFF_FFFFu32 {
        0u32
    } else {
        (d + 1) as u32
    }
}

/// The depth and tag columns after assigning `d` to a node and `d + 1`
/// onward to its descendants, one level per tree edge, depth first. Only
/// alive nodes that carry a parent link take a depth; the tag is written
/// only where the stored depth actually changed.
pub open spec fn assign_tree(
    t: TreeNode,
    d: u32,
    depth: Seq<u32>,
    tag: Seq<Option<u32>>,
    v: WorldView,
) -> (Seq<u32>, Seq<Option<u32>>)
    decreases t, 1int,
{
    let e = t.entity as int;
    if 0 <= e < v.n() && v.alive[e] && v.parent[e].is_some() {
        let depth1 = depth.update(e, d);
        let tag1 = if depth[e] != d {
            tag.update(e, Option::Some(d))
        } else {
            tag
        };
        assign_children(t.children@, t.children@.len() as int, wrap_inc(d), depth1, tag1, v)
    } else {
        (depth, tag)
    }
}

/// The columns after assigning the first `upto` subtrees in order.
pub open spec fn assign_children(
    ts: Seq<TreeNode>,
    upto: int,
    d: u32,
    depth: Seq<u32>,
    tag: Seq<Option<u32>>,
    v: WorldView,
) -> (Seq<u32>, Seq<Option<u32>>)
    decreases ts, 0int, upto,
{
    if upto <= 0 || upto > ts.len() {
        (depth, tag)
    } else {
        let prefix = assign_children(ts, upto - 1, d, depth, tag, v);
        assign_tree(ts[upto - 1], d, prefix.0, prefix.1, v)
    }
}

/// Assignment only reads liveness and parent links from the world view, so
/// two views that agree there assign alike.
proof fn lemma_assign_statics(
    t: TreeNode,
    d: u32,
    depth: Seq<u32>,
    tag: Seq<Option<u32>>,
    v1: WorldView,
    v2: WorldView,
)
    requires
        v1.n() == v2.n(),
        v1.alive == v2.alive,
        v1.parent == v2.parent,
    ensures
        assign_tree(t, d, depth, tag, v1) == assign_tree(t, d, depth, tag, v2),
    decreases t, 1int,
{
    let e = t.entity as int;
    if 0 <= e < v1.n() && v1.alive[e] && v1.parent[e].is_some() {
        let depth1 = depth.update(e, d);
        let tag1 = if depth[e] != d {
            tag.update(e, Option::Some(d))
        } else {
            tag
        };
        lemma_assign_children_statics(
            t.children@, t.children@.len() as int, wrap_inc(d), depth1, tag1, v1, v2);
    }
}

proof fn lemma_assign_children_statics(
    ts: Seq<TreeNode>,
    upto: int,
    d: u32,
    depth: Seq<u32>,
    tag: Seq<Option<u32>>,
    v1: WorldView,
    v2: WorldView,
)
    requires
        v1.n() == v2.n(),
        v1.alive == v2.alive,
        v1.parent == v2.parent,
    ensures
        assign_children(ts, upto, d, depth, tag, v1) == assign_children(ts, upto, d, depth, tag, v2),
    decreases ts, 0int, upto,
{
    if 0 < upto <= ts.len() {
        lemma_assign_children_statics(ts, upto - 1, d, depth, tag, v1, v2);
        let prefix = assign_children(ts, upto - 1, d, depth, tag, v1);
        lemma_assign_statics(ts[upto - 1], d, prefix.0, prefix.1, v1, v2);
    }
}

/// Assign depths below one tree node, exactly as `assign_tree` says.
#[verifier::loop_isolation(false)]
pub fn set_depths_recursive(w: &mut World, node: &TreeNode, d: u32)
    requires
        old(w).wf(),
    ensures
        final(w).wf(),
        final(w)@ == (WorldView {
            depth: assign_tree(*node, d, old(w)@.depth, old(w)@.tag, old(w)@).0,
            tag: assign_tree(*node, d, old(w)@.depth, old(w)@.tag, old(w)@).1,
            ..old(w)@
        }),
    decreases *node, 1int,
{
    let ghost v0 = old(w)@;
    let e = node.entity;
    if e < w.len() && w.is_alive(e) && w.get_parent(e).is_some() {
        let od = w.get_depth(e);
        w.set_depth(e, d);
        if od != d {
            w.set_depth_tag(e, d);
        }
        let next = if d == 0xFFFF_FFFF { 0 } else { d + 1 };
        let ghost depth1 = old(w)@.depth.update(e as int, d);
        let ghost tag1 = if old(w)@.depth[e as int] != d {
            old(w)@.tag.update(e as int, Option::Some(d))
        } else {
            old(w)@.tag
        };
        let ghost base = w@;
        let mut i: usize = 0;
        while i < node.children.len()
            invariant
                i <= node.children@.len(),
                w.wf(),
                base == (WorldView { depth: depth1, tag: tag1, ..old(w)@ }),
                w@ == (WorldView {
                    depth: assign_children(node.children@, i as int, next, depth1, tag1, v0).0,
                    tag: assign_children(node.children@, i as int, next, depth1, tag1, v0).1,
                    ..old(w)@
                }),
            decreases node.children@.len() - i,
        {
            let ghost pre = w@;
            set_depths_recursive(w, &node.children[i], next);
            i = i + 1;
            proof {
                lemma_assign_statics(node.children@[i - 1], next, pre.depth, pre.tag, pre, v0);
                assert(w@ =~~= (WorldView {
                    depth: assign_children(node.children@, i as int, next, depth1, tag1, v0).0,
                    tag: assign_children(node.children@, i as int, next, depth1, tag1, v0).1,
                    ..old(w)@
                }));
            }
        }
        proof {
            assert(w@ =~~= (WorldView {
                depth: assign_tree(*node, d, old(w)@.depth, old(w)@.tag, v0).0,
                tag: assign_tree(*node, d, old(w)@.depth, old(w)@.tag, v0).1,
                ..old(w)@
            }));
        }
    } else {
        proof {
            assert(w@ =~~= (WorldView {
                depth: assign_tree(*node, d, old(w)@.depth, old(w)@.tag, v0).0,
                tag: assign_tree(*node, d, old(w)@.depth, old(w)@.tag, v0).1,
                ..old(w)@
            }));
        }
    }
}

/// Some tree of `ts` is rooted at `e`.
pub open spec fn root_entity_from(ts: Seq<TreeNode>, e: Entity) -> bool {
    exists|j: int| 0 <= j < ts.len() && (#[trigger] ts[j]).entity == e
}

/// `t` is one of the trees of `ts`.
pub open spec fn tree_from(ts: Seq<TreeNode>, t: TreeNode) -> bool {
    exists|j: int| 0 <= j < ts.len() && ts[j] == t
}

/// Entity `e` appears somewhere in the tree.
pub open spec fn tree_contains(t: TreeNode, e: Entity) -> bool
    decreases t,
{
    t.entity == e || exists|i: int| 0 <= i < t.children@.len()
        && tree_contains(#[trigger] t.children@[i], e)
}

/// Entity `e` appears somewhere in the forest.
pub open spec fn forest_contains(ts: Seq<TreeNode>, e: Entity) -> bool {
    exists|k: int| 0 <= k < ts.len() && tree_contains(#[trigger] ts[k], e)
}

/// Growing a node by one more child keeps everything it contained, and
/// adds everything the child contains.
proof fn lemma_contains_push_child(t: TreeNode, t2: TreeNode, c: TreeNode, x: Entity)
    requires
        t2.entity == t.entity,
        t2.children@ == t.children@.push(c),
        tree_contains(t, x) || tree_contains(c, x),
    ensures
        tree_contains(t2, x),
{
    if tree_contains(t, x) {
        if t.entity != x {
            let i = choose|i: int| 0 <= i < t.children@.len()
                && tree_contains(#[trigger] t.children@[i], x);
            assert(t2.children@[i] == t.children@[i]);
            assert(tree_contains(t2.children@[i], x));
        }
    } else {
        let i = t.children@.len() as int;
        assert(t2.children@[i] == c);
        assert(tree_contains(t2.children@[i], x));
    }
}

/// Whatever a grown node contains was in the node or in the new child.
proof fn lemma_contains_push_child_inv(t: TreeNode, t2: TreeNode, c: TreeNode, x: Entity)
    requires
        t2.entity == t.entity,
        t2.children@ == t.children@.push(c),
        tree_contains(t2, x),
    ensures
        tree_contains(t, x) || tree_contains(c, x),
{
    if t2.entity != x {
        let i = choose|i: int| 0 <= i < t2.children@.len()
            && tree_contains(#[trigger] t2.children@[i], x);
        if i < t.children@.len() {
            assert(t2.children@[i] == t.children@[i]);
        } else {
            assert(t2.children@[i] == c);
        }
    }
}

/// Every live child (per the children index) of `x` is marked visited.
pub open spec fn entity_closed(v: WorldView, visited: Seq<bool>, x: Entity) -> bool {
    forall|ci: int| 0 <= ci < child_list(v, x as int).len()
        && v.alive[(#[trigger] child_list(v, x as int)[ci]) as int]
        ==> visited[child_list(v, x as int)[ci] as int]
}

/// A closed entity stays closed as more entities are marked.
proof fn lemma_closed_monotone(v: WorldView, a: Seq<bool>, b: Seq<bool>, x: Entity)
    requires
        entity_closed(v, a, x),
        a.len() == b.len(),
        forall|i: int| 0 <= i < a.len() && a[i] ==> b[i],
        forall|ci: int| 0 <= ci < child_list(v, x as int).len()
            ==> (#[trigger] child_list(v, x as int)[ci]) < a.len(),
    ensures
        entity_closed(v, b, x),
{
}

/// The nodes of the first `upto` trees, with multiplicity.
pub open spec fn forest_nodes_upto(ts: Seq<TreeNode>, upto: int) -> Multiset<Entity>
    decreases ts, 0int, upto,
{
    if upto <= 0 || upto > ts.len() {
        Multiset::empty()
    } else {
        forest_nodes_upto(ts, upto - 1).add(tree_nodes(ts[upto - 1]))
    }
}

/// The nodes of one tree, with multiplicity.
pub open spec fn tree_nodes(t: TreeNode) -> Multiset<Entity>
    decreases t, 1int,
{
    Multiset::singleton(t.entity).add(
        forest_nodes_upto(t.children@, t.children@.len() as int))
}

/// The nodes of the whole forest, with multiplicity: the depth assigner
/// places each entity at most once, so this never counts anything twice.
pub open spec fn forest_nodes(ts: Seq<TreeNode>) -> Multiset<Entity> {
    forest_nodes_upto(ts, ts.len() as int)
}

/// Node counts only look at the trees below the cut.
proof fn lemma_forest_nodes_prefix(ts1: Seq<TreeNode>, ts2: Seq<TreeNode>, upto: int)
    requires
        0 <= upto <= ts1.len(),
        upto <= ts2.len(),
        forall|j: int| 0 <= j < upto ==> ts1[j] == ts2[j],
    ensures
        forest_nodes_upto(ts1, upto) == forest_nodes_upto(ts2, upto),
    decreases upto,
{
    if upto > 0 {
        lemma_forest_nodes_prefix(ts1, ts2, upto - 1);
    }
}

/// Appending one tree adds exactly its nodes.
proof fn lemma_forest_nodes_push(ts: Seq<TreeNode>, t: TreeNode)
    ensures
        forest_nodes(ts.push(t)) == forest_nodes(ts).add(tree_nodes(t)),
{
    lemma_forest_nodes_prefix(ts, ts.push(t), ts.len() as int);
    assert(ts.push(t)[ts.len() as int] == t);
}

/// Removing one tree takes away exactly its nodes.
proof fn lemma_forest_nodes_remove_upto(ts: Seq<TreeNode>, k: int, m: int)
    requires
        0 <= k < ts.len(),
        k <= m <= ts.len() - 1,
    ensures
        forest_nodes_upto(ts, m + 1)
            == forest_nodes_upto(ts.remove(k), m).add(tree_nodes(ts[k])),
    decreases m,
{
    let rem = ts.remove(k);
    if m == k {
        lemma_forest_nodes_prefix(ts, rem, k);
        assert(forest_nodes_upto(ts, k + 1)
            =~= forest_nodes_upto(rem, k).add(tree_nodes(ts[k])));
    } else {
        lemma_forest_nodes_remove_upto(ts, k, m - 1);
        assert(rem[m - 1] == ts[m]);
        assert(forest_nodes_upto(ts, m + 1)
            =~= forest_nodes_upto(rem, m).add(tree_nodes(ts[k])));
    }
}

proof fn lemma_forest_nodes_remove(ts: Seq<TreeNode>, k: int)
    requires
        0 <= k < ts.len(),
    ensures
        forest_nodes(ts) == forest_nodes(ts.remove(k)).add(tree_nodes(ts[k])),
{
    lemma_forest_nodes_remove_upto(ts, k, ts.len() - 1);
}

/// Growing a node by one more child adds exactly the child's nodes.
proof fn lemma_tree_nodes_push(t: TreeNode, t2: TreeNode, c: TreeNode)
    requires
        t2.entity == t.entity,
        t2.children@ == t.children@.push(c),
    ensures
        tree_nodes(t2) == tree_nodes(t).add(tree_nodes(c)),
{
    lemma_forest_nodes_prefix(t.children@, t2.children@, t.children@.len() as int);
    assert(t2.children@[t.children@.len() as int] == c);
    assert(tree_nodes(t2) =~= tree_nodes(t).add(tree_nodes(c)));
}

/// The entities marked between two snapshots of the visited set, each with
/// multiplicity one.
pub open spec fn new_marks(a: Seq<bool>, b: Seq<bool>) -> Multiset<Entity>
    decreases a.len(),
{
    if a.len() == 0 || a.len() != b.len() {
        Multiset::empty()
    } else {
        let rest = new_marks(a.drop_last(), b.drop_last());
        if !a.last() && b.last() {
            rest.insert((a.len() - 1) as Entity)
        } else {
            rest
        }
    }
}

/// Exactly which entities the marking delta holds, and each at most once.
proof fn lemma_new_marks_count(a: Seq<bool>, b: Seq<bool>, x: Entity)
    requires
        a.len() == b.len(),
        a.len() <= usize::MAX,
    ensures
        new_marks(a, b).count(x)
            == if x < a.len() && !a[x as int] && b[x as int] { 1nat } else { 0nat },
    decreases a.len(),
{
    if a.len() > 0 {
        lemma_new_marks_count(a.drop_last(), b.drop_last(), x);
        if x < a.len() - 1 {
            assert(a.drop_last()[x as int] == a[x as int]);
            assert(b.drop_last()[x as int] == b[x as int]);
        }
        if !a.last() && b.last() {
            let rest = new_marks(a.drop_last(), b.drop_last());
            assert(new_marks(a, b).count(x)
                == rest.count(x) + Multiset::singleton((a.len() - 1) as Entity).count(x));
        }
    }
}

/// No marking: no delta.
proof fn lemma_new_marks_refl(a: Seq<bool>)
    ensures
        new_marks(a, a) == Multiset::<Entity>::empty(),
    decreases a.len(),
{
    if a.len() > 0 {
        lemma_new_marks_refl(a.drop_last());
    }
}

/// Marking one unvisited entity adds exactly that entity.
proof fn lemma_new_marks_mark(a: Seq<bool>, e: int)
    requires
        0 <= e < a.len(),
        a.len() <= usize::MAX,
        !a[e],
    ensures
        new_marks(a, a.update(e, true))
            == Multiset::<Entity>::empty().insert(e as Entity),
    decreases a.len(),
{
    let b = a.update(e, true);
    if e == a.len() - 1 {
        assert(b.drop_last() =~= a.drop_last());
        lemma_new_marks_refl(a.drop_last());
        assert(new_marks(a, b) =~= Multiset::<Entity>::empty().insert(e as Entity));
    } else {
        assert(b.drop_last() =~= a.drop_last().update(e, true));
        lemma_new_marks_mark(a.drop_last(), e);
        assert(b.last() == a.last());
        assert(new_marks(a, b) =~= Multiset::<Entity>::empty().insert(e as Entity));
    }
}

/// Marking deltas compose.
proof fn lemma_new_marks_trans(a: Seq<bool>, b: Seq<bool>, c: Seq<bool>)
    requires
        a.len() == b.len(),
        b.len() == c.len(),
        forall|i: int| 0 <= i < a.len() && a[i] ==> b[i],
        forall|i: int| 0 <= i < b.len() && b[i] ==> c[i],
    ensures
        new_marks(a, c) == new_marks(a, b).add(new_marks(b, c)),
    decreases a.len(),
{
    if a.len() == 0 {
        assert(new_marks(a, c) =~= new_marks(a, b).add(new_marks(b, c)));
    } else {
        lemma_new_marks_trans(a.drop_last(), b.drop_last(), c.drop_last());
        assert(a[a.len() - 1] ==> b[a.len() - 1]);
        assert(b[a.len() - 1] ==> c[a.len() - 1]);
        assert(new_marks(a, c) =~= new_marks(a, b).add(new_marks(b, c)));
    }
}

/// A tree holds an entity exactly when its node multiset counts it.
proof fn lemma_tree_count(t: TreeNode, x: Entity)
    ensures
        tree_nodes(t).count(x) > 0 <==> tree_contains(t, x),
    decreases t, 1int,
{
    lemma_forest_count_upto(t.children@, t.children@.len() as int, x);
}

/// Same, for the first `upto` trees of a forest.
proof fn lemma_forest_count_upto(ts: Seq<TreeNode>, upto: int, x: Entity)
    requires
        upto <= ts.len(),
    ensures
        forest_nodes_upto(ts, upto).count(x) > 0
            <==> exists|k: int| 0 <= k < upto && tree_contains(#[trigger] ts[k], x),
    decreases ts, 0int, upto,
{
    if upto > 0 {
        lemma_forest_count_upto(ts, upto - 1, x);
        lemma_tree_count(ts[upto - 1], x);
        if forest_nodes_upto(ts, upto).count(x) > 0 {
            if tree_nodes(ts[upto - 1]).count(x) > 0 {
                assert(tree_contains(ts[upto - 1], x));
            }
        }
        if exists|k: int| 0 <= k < upto && tree_contains(#[trigger] ts[k], x) {
            let k = choose|k: int| 0 <= k < upto && tree_contains(#[trigger] ts[k], x);
            if k < upto - 1 {
                assert(forest_nodes_upto(ts, upto - 1).count(x) > 0);
            }
        }
    }
}

/// Two distinct trees both holding an entity would make its count two.
proof fn lemma_forest_count_two(ts: Seq<TreeNode>, upto: int, k1: int, k2: int, x: Entity)
    requires
        0 <= k1 < k2 < upto <= ts.len(),
        tree_contains(ts[k1], x),
        tree_contains(ts[k2], x),
    ensures
        forest_nodes_upto(ts, upto).count(x) >= 2,
    decreases upto,
{
    if upto - 1 == k2 {
        lemma_tree_count(ts[k2], x);
        lemma_forest_count_upto(ts, upto - 1, x);
        assert(forest_nodes_upto(ts, upto - 1).count(x) > 0);
    } else {
        lemma_forest_count_two(ts, upto - 1, k1, k2, x);
    }
}

/// The first forest root holding `e`, if any.
fn find_root(forest: &Vec<TreeNode>, e: Entity) -> (r: Option<usize>)
    ensures
        match r {
            Option::Some(k) => k < forest@.len() && forest@[k as int].entity == e,
            Option::None => forall|k: int| 0 <= k < forest@.len()
                ==> (#[trigger] forest@[k]).entity != e,
        },
{
    let mut k: usize = 0;
    while k < forest.len()
        invariant
            k <= forest@.len(),
            forall|j: int| 0 <= j < k ==> (#[trigger] forest@[j]).entity != e,
        decreases forest@.len() - k,
    {
        if forest[k].entity == e {
            return Some(k);
        }
        k = k + 1;
    }
    None
}

/// Explore depth first below `node`, following the world's children index.
/// A child already rooted in the forest is spliced (moved, not re-walked)
/// under `node`; a child already placed elsewhere is left there; a dead
/// child is a stale reference and its edge is skipped; anything else is
/// visited recursively. Marking before descending is the cycle guard.
#[verifier::loop_isolation(false)]
fn explore_dfs(w: &World, node: &mut TreeNode, forest: &mut Vec<TreeNode>, visited: &mut Vec<bool>)
    requires
        w.wf(),
        old(visited)@.len() == w@.n(),
        old(node).entity < w@.n(),
        tree_ok(*old(node), w@),
        forall|k: int| 0 <= k < old(forest)@.len() ==> tree_ok((#[trigger] old(forest)@[k]), w@),
        forall|x: Entity| #[trigger] forest_contains(old(forest)@, x)
            ==> x < w@.n() && old(visited)@[x as int],
        forall|x: Entity| #[trigger] tree_contains(*old(node), x)
            ==> x < w@.n() && old(visited)@[x as int],
    ensures
        final(visited)@.len() == w@.n(),
        forall|i: int| 0 <= i < w@.n() && old(visited)@[i] ==> (#[trigger] final(visited)@[i]),
        crate::local_to_world_propagate_system::count_unvisited(final(visited)@)
            <= crate::local_to_world_propagate_system::count_unvisited(old(visited)@),
        final(node).entity == old(node).entity,
        tree_ok(*final(node), w@),
        forall|k: int| 0 <= k < final(forest)@.len() ==> tree_ok((#[trigger] final(forest)@[k]), w@),
        forall|k: int| 0 <= k < final(forest)@.len()
            ==> tree_from(old(forest)@, #[trigger] final(forest)@[k]),
        forall|x: Entity|
            #![trigger forest_contains(old(forest)@, x)]
            #![trigger tree_contains(*old(node), x)]
            #![trigger final(visited)@[x as int]]
            forest_contains(old(forest)@, x) || tree_contains(*old(node), x)
                || (x < w@.n() && final(visited)@[x as int] && !old(visited)@[x as int])
            ==> forest_contains(final(forest)@, x) || tree_contains(*final(node), x),
        forall|x: Entity| #[trigger] forest_contains(final(forest)@, x)
            ==> x < w@.n() && final(visited)@[x as int],
        forall|x: Entity| #[trigger] tree_contains(*final(node), x)
            ==> x < w@.n() && final(visited)@[x as int],
        entity_closed(w@, final(visited)@, old(node).entity),
        forall|x: Entity| x < w@.n() && !old(visited)@[x as int]
            && (#[trigger] final(visited)@[x as int])
            ==> entity_closed(w@, final(visited)@, x),
        forest_nodes(final(forest)@).add(tree_nodes(*final(node)))
            == forest_nodes(old(forest)@).add(tree_nodes(*old(node)))
                .add(new_marks(old(visited)@, final(visited)@)),
    decreases crate::local_to_world_propagate_system::count_unvisited(visited@), 0int,
{
    let e = node.entity;
    let n_vis = visited.len();
    let cs = match w.get_children(e) {
        Some(cs) => cs,
        None => Vec::new(),
    };
    proof {
        assert(w@.n() <= usize::MAX);
        assert(cs@ =~= child_list(w@, e as int));
        assert forall|k: int| 0 <= k < forest@.len()
            implies tree_from(old(forest)@, #[trigger] forest@[k]) by {
            assert(0 <= k < old(forest)@.len() && old(forest)@[k] == forest@[k]);
        }
        lemma_new_marks_refl(old(visited)@);
        assert(forest_nodes(forest@).add(tree_nodes(*node))
            =~= forest_nodes(old(forest)@).add(tree_nodes(*old(node)))
                .add(new_marks(old(visited)@, visited@)));
    }
    let mut i: usize = 0;
    while i < cs.len()
        invariant
            w.wf(),
            cs@ == child_list(w@, e as int),
            forall|x: int| 0 <= x < cs@.len() ==> #[trigger] cs@[x] < w@.n(),
            i <= cs@.len(),
            visited@.len() == w@.n(),
            forall|x: int| 0 <= x < w@.n() && old(visited)@[x] ==> (#[trigger] visited@[x]),
            crate::local_to_world_propagate_system::count_unvisited(visited@)
                <= crate::local_to_world_propagate_system::count_unvisited(old(visited)@),
            node.entity == e,
            tree_ok(*node, w@),
            forall|k: int| 0 <= k < forest@.len() ==> tree_ok((#[trigger] forest@[k]), w@),
            forall|k: int| 0 <= k < forest@.len()
                ==> tree_from(old(forest)@, #[trigger] forest@[k]),
            forall|x: Entity|
                #![trigger forest_contains(old(forest)@, x)]
                #![trigger tree_contains(*old(node), x)]
                #![trigger visited@[x as int]]
                forest_contains(old(forest)@, x) || tree_contains(*old(node), x)
                    || (x < w@.n() && visited@[x as int] && !old(visited)@[x as int])
                ==> forest_contains(forest@, x) || tree_contains(*node, x),
            forall|x: Entity| #[trigger] forest_contains(forest@, x)
                ==> x < w@.n() && visited@[x as int],
            forall|x: Entity| #[trigger] tree_contains(*node, x)
                ==> x < w@.n() && visited@[x as int],
            forall|ci: int| 0 <= ci < i && w@.alive[(#[trigger] cs@[ci]) as int]
                ==> visited@[cs@[ci] as int],
            forall|x: Entity| x < w@.n() && !old(visited)@[x as int]
                && (#[trigger] visited@[x as int])
                ==> entity_closed(w@, visited@, x),
            forest_nodes(forest@).add(tree_nodes(*node))
                == forest_nodes(old(forest)@).add(tree_nodes(*old(node)))
                    .add(new_marks(old(visited)@, visited@)),
        decreases cs@.len() - i,
    {
        let c = cs[i];
        if !w.is_alive(c) {
            // stale reference: the edge is skipped
        } else {
            match find_root(forest, c) {
                Some(k) => {
                    let ghost fpre = forest@;
                    let ghost node_pre = *node;
                    let tree = forest.remove(k);
                    proof {
                        assert forall|j: int| 0 <= j < forest@.len()
                            implies tree_ok(#[trigger] forest@[j], w@)
                                && tree_from(old(forest)@, forest@[j]) by {
                            if j < k {
                                assert(forest@[j] == fpre[j]);
                                assert(tree_from(old(forest)@, fpre[j]));
                            } else {
                                assert(forest@[j] == fpre[j + 1]);
                                assert(tree_from(old(forest)@, fpre[j + 1]));
                            }
                        }
                        assert(tree_ok(tree, w@));
                        assert(child_list(w@, e as int).contains(c));
                    }
                    node.children.push(tree);
                    proof {
                        // Placement: everything placed before is still placed.
                        assert forall|x: Entity|
                            #![trigger forest_contains(old(forest)@, x)]
                            #![trigger tree_contains(*old(node), x)]
                            #![trigger visited@[x as int]]
                            forest_contains(old(forest)@, x) || tree_contains(*old(node), x)
                                || (x < w@.n() && visited@[x as int] && !old(visited)@[x as int])
                            implies forest_contains(forest@, x) || tree_contains(*node, x) by {
                            assert(forest_contains(fpre, x) || tree_contains(node_pre, x));
                            if tree_contains(node_pre, x) {
                                lemma_contains_push_child(node_pre, *node, tree, x);
                            } else {
                                let kk = choose|kk: int| 0 <= kk < fpre.len()
                                    && tree_contains(#[trigger] fpre[kk], x);
                                if kk == k {
                                    lemma_contains_push_child(node_pre, *node, tree, x);
                                } else if kk < k {
                                    assert(tree_contains(forest@[kk], x));
                                } else {
                                    assert(tree_contains(forest@[kk - 1], x));
                                }
                            }
                        }
                        // The spliced subtree's entities were already visited.
                        assert forall|x: Entity| #[trigger] tree_contains(*node, x)
                            implies x < w@.n() && visited@[x as int] by {
                            lemma_contains_push_child_inv(node_pre, *node, tree, x);
                            if tree_contains(tree, x) {
                                assert(tree_contains(fpre[k as int], x));
                                assert(forest_contains(fpre, x));
                            }
                        }
                        assert forall|x: Entity| #[trigger] forest_contains(forest@, x)
                            implies x < w@.n() && visited@[x as int] by {
                            let kk = choose|kk: int| 0 <= kk < forest@.len()
                                && tree_contains(#[trigger] forest@[kk], x);
                            if kk < k {
                                assert(tree_contains(fpre[kk], x));
                            } else {
                                assert(tree_contains(fpre[kk + 1], x));
                            }
                            assert(forest_contains(fpre, x));
                        }
                        // Splicing rearranges the node multiset without change.
                        lemma_forest_nodes_remove(fpre, k as int);
                        lemma_tree_nodes_push(node_pre, *node, tree);
                        assert(forest_nodes(forest@).add(tree_nodes(*node))
                            =~= forest_nodes(fpre).add(tree_nodes(node_pre)));
                        assert(forest_nodes(forest@).add(tree_nodes(*node))
                            == forest_nodes(old(forest)@).add(tree_nodes(*old(node)))
                                .add(new_marks(old(visited)@, visited@)));
                    }
                }
                None => {
                    if self_visited(visited, c) {
                        // already placed in another tree this cycle
                    } else {
                        let ghost vis_pre2 = visited@;
                        let ghost fmid = forest@;
                        let ghost node_pre = *node;
                        visited.set(c, true);
                        proof {
                            crate::local_to_world_propagate_system::lemma_count_update_true(
                                vis_pre2, c as int);
                        }
                        let mut child = TreeNode::new(c);
                        let ghost vis_mid = visited@;
                        let ghost child0 = child;
                        proof {
                            assert(forest_nodes_upto(child0.children@, 0)
                                == Multiset::<Entity>::empty());
                            assert(tree_nodes(child0)
                                =~= Multiset::singleton(c));
                            assert forall|x: Entity| #[trigger] tree_contains(child0, x)
                                implies x < w@.n() && vis_mid[x as int] by {
                                assert(x == c);
                            }
                            assert forall|x: Entity| #[trigger] forest_contains(fmid, x)
                                implies x < w@.n() && vis_mid[x as int] by {}
                        }
                        explore_dfs(w, &mut child, forest, visited);
                        let ghost fpost = forest@;
                        let ghost vis_post = visited@;
                        proof {
                            assert(child_list(w@, e as int).contains(c));
                            assert forall|kk: int| 0 <= kk < forest@.len()
                                implies tree_from(old(forest)@, #[trigger] forest@[kk]) by {
                                let x = choose|x: int| 0 <= x < fmid.len()
                                    && fmid[x] == forest@[kk];
                                assert(tree_from(old(forest)@, fmid[x]));
                            }
                        }
                        node.children.push(child);
                        proof {
                            // Placement of everything placed or newly marked.
                            assert forall|x: Entity|
                                #![trigger forest_contains(old(forest)@, x)]
                                #![trigger tree_contains(*old(node), x)]
                                #![trigger visited@[x as int]]
                                forest_contains(old(forest)@, x) || tree_contains(*old(node), x)
                                    || (x < w@.n() && visited@[x as int] && !old(visited)@[x as int])
                                implies forest_contains(forest@, x) || tree_contains(*node, x) by {
                                if forest_contains(old(forest)@, x) || tree_contains(*old(node), x)
                                    || (x < w@.n() && vis_pre2[x as int]
                                        && !old(visited)@[x as int]) {
                                    // Placed before this child was explored.
                                    assert(forest_contains(fmid, x) || tree_contains(node_pre, x));
                                    if tree_contains(node_pre, x) {
                                        lemma_contains_push_child(node_pre, *node, child, x);
                                    } else {
                                        assert(forest_contains(fpost, x) || tree_contains(child, x));
                                        if tree_contains(child, x) {
                                            lemma_contains_push_child(node_pre, *node, child, x);
                                        }
                                    }
                                } else {
                                    // First visited during this very step.
                                    assert(x < w@.n() && visited@[x as int] && !vis_pre2[x as int]);
                                    if x == c {
                                        assert(tree_contains(child, c));
                                        lemma_contains_push_child(node_pre, *node, child, x);
                                    } else {
                                        assert(vis_mid == vis_pre2.update(c as int, true));
                                        assert(!vis_mid[x as int]);
                                        assert(forest_contains(fpost, x) || tree_contains(child, x));
                                        if tree_contains(child, x) {
                                            lemma_contains_push_child(node_pre, *node, child, x);
                                        }
                                    }
                                }
                            }
                            // The grown node's entities are all visited.
                            assert forall|x: Entity| #[trigger] tree_contains(*node, x)
                                implies x < w@.n() && visited@[x as int] by {
                                lemma_contains_push_child_inv(node_pre, *node, child, x);
                            }
                            // Every newly visited entity is closed.
                            assert forall|x: Entity| x < w@.n() && !old(visited)@[x as int]
                                && (#[trigger] visited@[x as int])
                                implies entity_closed(w@, visited@, x) by {
                                if vis_pre2[x as int] {
                                    assert(entity_closed(w@, vis_pre2, x));
                                    lemma_closed_monotone(w@, vis_pre2, visited@, x);
                                } else if x == c {
                                    assert(entity_closed(w@, visited@, c));
                                } else {
                                    assert(!vis_mid[x as int]);
                                    assert(entity_closed(w@, visited@, x));
                                }
                            }
                            // Multiset accounting across the mark and the recursion.
                            assert(vis_pre2.len() == w@.n());
                            lemma_new_marks_mark(vis_pre2, c as int);
                            assert forall|ii: int| 0 <= ii < vis_pre2.len() && vis_pre2[ii]
                                implies vis_post[ii] by {
                                assert(vis_mid[ii]);
                            }
                            lemma_new_marks_trans(vis_pre2, vis_mid, vis_post);
                            lemma_new_marks_trans(old(visited)@, vis_pre2, vis_post);
                            lemma_tree_nodes_push(node_pre, *node, child);
                            assert(new_marks(vis_pre2, vis_mid)
                                =~= Multiset::singleton(c));
                            assert(new_marks(old(visited)@, vis_post)
                                =~= new_marks(old(visited)@, vis_pre2)
                                    .add(Multiset::singleton(c))
                                    .add(new_marks(vis_mid, vis_post)));
                            assert(forest_nodes(fpost).add(tree_nodes(child))
                                == forest_nodes(fmid).add(tree_nodes(child0))
                                    .add(new_marks(vis_mid, vis_post)));
                            assert(forest_nodes(fmid).add(tree_nodes(node_pre))
                                == forest_nodes(old(forest)@).add(tree_nodes(*old(node)))
                                    .add(new_marks(old(visited)@, vis_pre2)));
                            assert forall|v: Entity|
                                forest_nodes(forest@).add(tree_nodes(*node)).count(v)
                                    == forest_nodes(old(forest)@).add(tree_nodes(*old(node)))
                                        .add(new_marks(old(visited)@, visited@)).count(v) by {
                                let l1 = forest_nodes(fpost).add(tree_nodes(child));
                                let r1 = forest_nodes(fmid).add(tree_nodes(child0))
                                    .add(new_marks(vis_mid, vis_post));
                                assert(l1.count(v)
                                    == forest_nodes(fpost).count(v) + tree_nodes(child).count(v));
                                assert(r1.count(v)
                                    == forest_nodes(fmid).count(v) + tree_nodes(child0).count(v)
                                        + new_marks(vis_mid, vis_post).count(v));
                                assert(l1.count(v) == r1.count(v));
                                let l2 = forest_nodes(fmid).add(tree_nodes(node_pre));
                                let r2 = forest_nodes(old(forest)@).add(tree_nodes(*old(node)))
                                    .add(new_marks(old(visited)@, vis_pre2));
                                assert(l2.count(v)
                                    == forest_nodes(fmid).count(v) + tree_nodes(node_pre).count(v));
                                assert(r2.count(v)
                                    == forest_nodes(old(forest)@).count(v)
                                        + tree_nodes(*old(node)).count(v)
                                        + new_marks(old(visited)@, vis_pre2).count(v));
                                assert(l2.count(v) == r2.count(v));
                                let l3 = tree_nodes(node_pre).add(tree_nodes(child));
                                assert(tree_nodes(*node).count(v) == l3.count(v));
                                assert(l3.count(v)
                                    == tree_nodes(node_pre).count(v) + tree_nodes(child).count(v));
                                let m3 = new_marks(old(visited)@, vis_pre2)
                                    .add(Multiset::singleton(c))
                                    .add(new_marks(vis_mid, vis_post));
                                assert(new_marks(old(visited)@, vis_post).count(v) == m3.count(v));
                                assert(m3.count(v)
                                    == new_marks(old(visited)@, vis_pre2).count(v)
                                        + Multiset::singleton(c).count(v)
                                        + new_marks(vis_mid, vis_post).count(v));
                                assert(tree_nodes(child0).count(v)
                                    == Multiset::singleton(c).count(v));
                                assert(forest_nodes(forest@).add(tree_nodes(*node)).count(v)
                                    == forest_nodes(fpost).count(v) + tree_nodes(*node).count(v));
                                assert(forest_nodes(old(forest)@).add(tree_nodes(*old(node)))
                                    .add(new_marks(old(visited)@, visited@)).count(v)
                                    == forest_nodes(old(forest)@).count(v)
                                        + tree_nodes(*old(node)).count(v)
                                        + new_marks(old(visited)@, visited@).count(v));
                            }
                            assert(forest_nodes(forest@).add(tree_nodes(*node))
                                =~= forest_nodes(old(forest)@).add(tree_nodes(*old(node)))
                                    .add(new_marks(old(visited)@, visited@)));
                        }
                    }
                }
            }
        }
        i = i + 1;
    }
    proof {
        assert(entity_closed(w@, visited@, e));
    }
}

/// Read one visited flag.
fn self_visited(visited: &Vec<bool>, e: Entity) -> (r: bool)
    requires
        e < visited@.len(),
    ensures
        r == visited@[e as int],
{
    visited[e]
}

/// Root one changed entity's delta tree in the forest, unless it was
/// already placed this cycle. Every root the forest gains was handed in
/// here; splicing can only move entities deeper, never invent roots.
#[verifier::loop_isolation(false)]
fn explore_tree_dfs(w: &World, entity: Entity, forest: &mut Vec<TreeNode>, visited: &mut Vec<bool>)
    requires
        w.wf(),
        old(visited)@.len() == w@.n(),
        entity < w@.n(),
        forall|k: int| 0 <= k < old(forest)@.len() ==> tree_ok((#[trigger] old(forest)@[k]), w@),
        forall|x: Entity| #[trigger] forest_contains(old(forest)@, x)
            ==> x < w@.n() && old(visited)@[x as int],
    ensures
        final(visited)@.len() == w@.n(),
        forall|i: int| 0 <= i < w@.n() && old(visited)@[i] ==> (#[trigger] final(visited)@[i]),
        crate::local_to_world_propagate_system::count_unvisited(final(visited)@)
            <= crate::local_to_world_propagate_system::count_unvisited(old(visited)@),
        forall|k: int| 0 <= k < final(forest)@.len() ==> tree_ok((#[trigger] final(forest)@[k]), w@),
        forall|k: int| 0 <= k < final(forest)@.len()
            ==> root_entity_from(old(forest)@, (#[trigger] final(forest)@[k]).entity)
                || final(forest)@[k].entity == entity,
        final(visited)@[entity as int],
        forall|x: Entity|
            #![trigger forest_contains(old(forest)@, x)]
            #![trigger final(visited)@[x as int]]
            forest_contains(old(forest)@, x)
                || (x < w@.n() && final(visited)@[x as int] && !old(visited)@[x as int])
            ==> forest_contains(final(forest)@, x),
        forall|x: Entity| #[trigger] forest_contains(final(forest)@, x)
            ==> x < w@.n() && final(visited)@[x as int],
        forall|x: Entity| x < w@.n() && !old(visited)@[x as int]
            && (#[trigger] final(visited)@[x as int])
            ==> entity_closed(w@, final(visited)@, x),
        forest_nodes(final(forest)@)
            == forest_nodes(old(forest)@).add(new_marks(old(visited)@, final(visited)@)),
{
    if self_visited(visited, entity) {
        proof {
            lemma_new_marks_refl(old(visited)@);
            assert(forest_nodes(forest@)
                =~= forest_nodes(old(forest)@).add(new_marks(old(visited)@, visited@)));
        }
        return;
    }
    let n_vis = visited.len();
    let ghost vis_pre = visited@;
    visited.set(entity, true);
    proof {
        crate::local_to_world_propagate_system::lemma_count_update_true(vis_pre, entity as int);
    }
    let ghost forest_pre = forest@;
    let mut node = TreeNode::new(entity);
    let ghost vis_marked = visited@;
    proof {
        assert(forest_nodes_upto(node.children@, 0) == Multiset::<Entity>::empty());
        assert(tree_nodes(node) =~= Multiset::singleton(entity));
        assert forall|x: Entity| #[trigger] tree_contains(node, x)
            implies x < w@.n() && vis_marked[x as int] by {
            assert(x == entity);
        }
        assert forall|x: Entity| #[trigger] forest_contains(forest_pre, x)
            implies x < w@.n() && vis_marked[x as int] by {}
    }
    let ghost node0 = node;
    explore_dfs(w, &mut node, forest, visited);
    proof {
        assert forall|k: int| 0 <= k < forest@.len()
            implies root_entity_from(forest_pre, (#[trigger] forest@[k]).entity) by {
            let j = choose|j: int| 0 <= j < forest_pre.len()
                && forest_pre[j] == forest@[k];
            assert(forest_pre[j].entity == forest@[k].entity);
        }
    }
    let ghost fpost = forest@;
    let ghost vis_post = visited@;
    forest.push(node);
    proof {
        assert forall|x: Entity|
            #![trigger forest_contains(old(forest)@, x)]
            #![trigger visited@[x as int]]
            forest_contains(old(forest)@, x)
                || (x < w@.n() && visited@[x as int] && !old(visited)@[x as int])
            implies forest_contains(forest@, x) by {
            let placed = if forest_contains(old(forest)@, x)
                || (x < w@.n() && visited@[x as int] && !vis_marked[x as int]) {
                // Covered by the exploration below the fresh node.
                assert(forest_contains(fpost, x) || tree_contains(node, x));
                true
            } else {
                // The newly marked entity itself roots the fresh tree.
                assert(x == entity);
                assert(tree_contains(node, x));
                true
            };
            if forest_contains(fpost, x) {
                let kk = choose|kk: int| 0 <= kk < fpost.len()
                    && tree_contains(#[trigger] fpost[kk], x);
                assert(tree_contains(forest@[kk], x));
            } else {
                assert(tree_contains(forest@[fpost.len() as int], x));
            }
        }
        // Every tree of the grown forest holds only visited entities.
        assert forall|x: Entity| #[trigger] forest_contains(forest@, x)
            implies x < w@.n() && visited@[x as int] by {
            let kk = choose|kk: int| 0 <= kk < forest@.len()
                && tree_contains(#[trigger] forest@[kk], x);
            if kk < fpost.len() {
                assert(tree_contains(fpost[kk], x));
                assert(forest_contains(fpost, x));
            } else {
                assert(tree_contains(node, x));
            }
        }
        // Every newly visited entity is closed.
        assert forall|x: Entity| x < w@.n() && !old(visited)@[x as int]
            && (#[trigger] visited@[x as int])
            implies entity_closed(w@, visited@, x) by {
            if x == entity {
                assert(entity_closed(w@, visited@, entity));
            } else {
                assert(!vis_marked[x as int]);
                assert(entity_closed(w@, visited@, x));
            }
        }
        // The forest gains exactly the newly marked entities.
        lemma_new_marks_mark(vis_pre, entity as int);
        lemma_new_marks_trans(vis_pre, vis_marked, vis_post);
        lemma_forest_nodes_push(fpost, node);
        assert forall|v: Entity|
            forest_nodes(forest@).count(v)
                == forest_nodes(old(forest)@).add(new_marks(old(visited)@, visited@)).count(v) by {
            let l1 = forest_nodes(fpost).add(tree_nodes(node));
            assert(forest_nodes(forest@).count(v) == l1.count(v));
            assert(l1.count(v) == forest_nodes(fpost).count(v) + tree_nodes(node).count(v));
            let r1 = forest_nodes(forest_pre).add(tree_nodes(node0))
                .add(new_marks(vis_marked, vis_post));
            assert(forest_nodes(fpost).add(tree_nodes(node)).count(v) == r1.count(v));
            assert(r1.count(v)
                == forest_nodes(forest_pre).count(v) + tree_nodes(node0).count(v)
                    + new_marks(vis_marked, vis_post).count(v));
            assert(tree_nodes(node0).count(v) == Multiset::singleton(entity).count(v));
            let m1 = new_marks(vis_pre, vis_marked).add(new_marks(vis_marked, vis_post));
            assert(new_marks(vis_pre, vis_post).count(v) == m1.count(v));
            assert(m1.count(v)
                == new_marks(vis_pre, vis_marked).count(v)
                    + new_marks(vis_marked, vis_post).count(v));
            assert(new_marks(vis_pre, vis_marked).count(v)
                == Multiset::<Entity>::empty().insert(entity).count(v));
            assert(forest_nodes(old(forest)@).add(new_marks(old(visited)@, visited@)).count(v)
                == forest_nodes(old(forest)@).count(v)
                    + new_marks(old(visited)@, visited@).count(v));
        }
        assert(forest_nodes(forest@)
            =~= forest_nodes(old(forest)@).add(new_marks(old(visited)@, visited@)));
    }
}

/// The depth after one parent edge below `base`, as the pass computes it.
pub open spec fn start_depth(v: WorldView, depth: Seq<u32>, root: int) -> u32 {
    if 0 <= root < v.n() && v.parent[root].is_some() {
        let p = v.parent[root].unwrap() as int;
        if v.parent[p].is_some() {
            wrap_inc(depth[p])
        } else {
            wrap_inc(0)
        }
    } else {
        wrap_inc(0)
    }
}

/// The columns after assigning the first `upto` trees of the delta forest,
/// each seeded one level below its root's parent (or at depth one when
/// that parent is itself rootless). A tree whose root died or lost its
/// parent link meanwhile is skipped whole.
pub open spec fn assign_roots(
    ts: Seq<TreeNode>,
    upto: int,
    depth: Seq<u32>,
    tag: Seq<Option<u32>>,
    v: WorldView,
) -> (Seq<u32>, Seq<Option<u32>>)
    decreases upto,
{
    if upto <= 0 || upto > ts.len() {
        (depth, tag)
    } else {
        let prefix = assign_roots(ts, upto - 1, depth, tag, v);
        let r = ts[upto - 1];
        if r.entity < v.n() && v.alive[r.entity as int] && v.parent[r.entity as int].is_some() {
            assign_tree(r, start_depth(v, prefix.0, r.entity as int), prefix.0, prefix.1, v)
        } else {
            prefix
        }
    }
}

pub fn build_depth_pass() -> (r: Pass)
    ensures
        r == Pass::AssignDepths,
{
    Pass::AssignDepths
}

/// The depth assigner: build the forest of hierarchy deltas from the
/// changed-parents set by depth-first exploration with splicing, then
/// assign each tree its depths, parents before descendants. Returns the
/// forest it used; the new depth and tag columns are exactly the fold of
/// that forest over the old ones.
#[verifier::loop_isolation(false)]
pub fn run(w: &mut World) -> (forest: Vec<TreeNode>)
    requires
        old(w).wf(),
    ensures
        final(w).wf(),
        forall|k: int| 0 <= k < forest@.len() ==> tree_ok((#[trigger] forest@[k]), old(w)@),
        forall|k: int| 0 <= k < forest@.len()
            ==> old(w)@.changed.contains((#[trigger] forest@[k]).entity),
        forall|k: int| 0 <= k < old(w)@.changed.len()
            && old(w)@.alive[old(w)@.changed[k] as int]
            && old(w)@.parent[old(w)@.changed[k] as int].is_some()
            ==> forest_contains(forest@, #[trigger] old(w)@.changed[k]),
        forall|x: Entity, ci: int|
            forest_contains(forest@, x) && 0 <= ci < child_list(old(w)@, x as int).len()
                && old(w)@.alive[(#[trigger] child_list(old(w)@, x as int)[ci]) as int]
            ==> forest_contains(forest@, child_list(old(w)@, x as int)[ci]),
        forall|x: Entity| #[trigger] forest_nodes(forest@).count(x) <= 1,
        forall|k1: int, k2: int, x: Entity|
            0 <= k1 < k2 < forest@.len()
                && #[trigger] tree_contains(forest@[k1], x)
                && #[trigger] tree_contains(forest@[k2], x)
            ==> false,
        final(w)@ == (WorldView {
            depth: assign_roots(forest@, forest@.len() as int,
                old(w)@.depth, old(w)@.tag, old(w)@).0,
            tag: assign_roots(forest@, forest@.len() as int,
                old(w)@.depth, old(w)@.tag, old(w)@).1,
            ..old(w)@
        }),
{
    let ghost v0 = old(w)@;
    let n = w.len();
    let changed = w.get_changed_parents();
    let mut visited: Vec<bool> = Vec::new();
    let mut i: usize = 0;
    while i < n
        invariant
            i <= n,
            visited@.len() == i,
            forall|j: int| 0 <= j < i ==> !(#[trigger] visited@[j]),
        decreases n - i,
    {
        visited.push(false);
        i = i + 1;
    }
    let ghost af = visited@;
    let mut forest: Vec<TreeNode> = Vec::new();
    proof {
        lemma_new_marks_refl(af);
        assert(forest_nodes_upto(forest@, 0) == Multiset::<Entity>::empty());
        assert(forest_nodes(forest@) =~= new_marks(af, af));
    }
    let mut k: usize = 0;
    while k < changed.len()
        invariant
            w.wf(),
            w@ == v0,
            n == v0.n(),
            changed@ == v0.changed,
            k <= changed@.len(),
            visited@.len() == v0.n(),
            forall|j: int| 0 <= j < forest@.len() ==> tree_ok((#[trigger] forest@[j]), v0),
            forall|j: int| 0 <= j < forest@.len()
                ==> v0.changed.contains((#[trigger] forest@[j]).entity),
            forall|x: Entity| x < v0.n() && (#[trigger] visited@[x as int])
                ==> forest_contains(forest@, x),
            forall|x: Entity| #[trigger] forest_contains(forest@, x)
                ==> x < v0.n() && visited@[x as int],
            forall|x: Entity| x < v0.n() && (#[trigger] visited@[x as int])
                ==> entity_closed(v0, visited@, x),
            forest_nodes(forest@) == new_marks(af, visited@),
            forall|j: int| 0 <= j < k
                && v0.alive[v0.changed[j] as int]
                && v0.parent[v0.changed[j] as int].is_some()
                ==> visited@[(#[trigger] v0.changed[j]) as int],
        decreases changed@.len() - k,
    {
        let e = changed[k];
        if w.is_alive(e) && w.get_parent(e).is_some() {
            let ghost forest_pre = forest@;
            let ghost vis_pre = visited@;
            explore_tree_dfs(w, e, &mut forest, &mut visited);
            proof {
                assert forall|x: Entity| x < v0.n() && (#[trigger] visited@[x as int])
                    implies forest_contains(forest@, x) by {
                    if vis_pre[x as int] {
                        assert(forest_contains(forest_pre, x));
                    }
                }
                assert forall|x: Entity| x < v0.n() && (#[trigger] visited@[x as int])
                    implies entity_closed(v0, visited@, x) by {
                    if vis_pre[x as int] {
                        assert(entity_closed(v0, vis_pre, x));
                        assert forall|ci: int| 0 <= ci < child_list(v0, x as int).len()
                            implies (#[trigger] child_list(v0, x as int)[ci]) < vis_pre.len() by {
                        }
                        lemma_closed_monotone(v0, vis_pre, visited@, x);
                    }
                }
                lemma_new_marks_trans(af, vis_pre, visited@);
                assert forall|j: int| 0 <= j < forest@.len()
                    implies v0.changed.contains((#[trigger] forest@[j]).entity) by {
                    if root_entity_from(forest_pre, forest@[j].entity) {
                        let x = choose|x: int| 0 <= x < forest_pre.len()
                            && (#[trigger] forest_pre[x]).entity == forest@[j].entity;
                        assert(v0.changed.contains(forest_pre[x].entity));
                    } else {
                        assert(forest@[j].entity == e);
                        assert(v0.changed[k as int] == e);
                    }
                }
            }
        }
        k = k + 1;
    }
    proof {
        // The forest is closed under live children: a placed entity's whole
        // live subtree is placed with it.
        assert forall|x: Entity, ci: int|
            forest_contains(forest@, x) && 0 <= ci < child_list(v0, x as int).len()
                && v0.alive[(#[trigger] child_list(v0, x as int)[ci]) as int]
            implies forest_contains(forest@, child_list(v0, x as int)[ci]) by {
            assert(visited@[x as int]);
            assert(entity_closed(v0, visited@, x));
            assert(visited@[child_list(v0, x as int)[ci] as int]);
        }
        // Each entity appears at most once across the whole forest.
        assert forall|x: Entity| #[trigger] forest_nodes(forest@).count(x) <= 1 by {
            lemma_new_marks_count(af, visited@, x);
        }
        assert forall|k1: int, k2: int, x: Entity|
            0 <= k1 < k2 < forest@.len()
                && #[trigger] tree_contains(forest@[k1], x)
                && #[trigger] tree_contains(forest@[k2], x)
            implies false by {
            lemma_forest_count_two(forest@, forest@.len() as int, k1, k2, x);
        }
    }
    let mut t: usize = 0;
    while t < forest.len()
        invariant
            w.wf(),
            n == v0.n(),
            forall|j: int| 0 <= j < forest@.len() ==> tree_ok((#[trigger] forest@[j]), v0),
            forall|j: int| 0 <= j < forest@.len()
                ==> v0.changed.contains((#[trigger] forest@[j]).entity),
            t <= forest@.len(),
            w@ == (WorldView {
                depth: assign_roots(forest@, t as int, v0.depth, v0.tag, v0).0,
                tag: assign_roots(forest@, t as int, v0.depth, v0.tag, v0).1,
                ..v0
            }),
        decreases forest@.len() - t,
    {
        let ghost pre = w@;
        let e = forest[t].entity;
        if e < n && w.is_alive(e) && w.get_parent(e).is_some() {
            let p = match w.get_parent(e) {
                Some(par) => par.0,
                None => 0,
            };
            let base: u32 = if w.get_parent(p).is_some() {
                w.get_depth(p)
            } else {
                0
            };
            let start: u32 = if base == 0xFFFF_FFFF {
                0
            } else {
                base + 1
            };
            proof {
                assert(start == start_depth(v0, pre.depth, e as int));
            }
            set_depths_recursive(w, &forest[t], start);
            proof {
                lemma_assign_statics(forest@[t as int], start, pre.depth, pre.tag, pre, v0);
            }
        }
        t = t + 1;
        proof {
            assert(w@ =~~= (WorldView {
                depth: assign_roots(forest@, t as int, v0.depth, v0.tag, v0).0,
                tag: assign_roots(forest@, t as int, v0.depth, v0.tag, v0).1,
                ..v0
            }));
        }
    }
    forest
}

/// The hierarchy maintainer and the depth assigner, scheduled together:
/// children reconciliation first, a barrier, then depth assignment.
#[derive(Default)]
pub struct ParentSystemBundle;

impl ParentSystemBundle {
    pub fn build(&mut self) -> (r: Vec<Pass>)
        ensures
            r@ == seq![Pass::ParentUpdate, Pass::AssignDepths],
    {
        let mut v: Vec<Pass> = Vec::new();
        v.push(Pass::ParentUpdate);
        v.push(Pass::AssignDepths);
        proof {
            assert(v@ =~= seq![Pass::ParentUpdate, Pass::AssignDepths]);
        }
        v
    }
}

} // verus!
