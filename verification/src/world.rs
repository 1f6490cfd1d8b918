use vstd::prelude::*;
use crate::Entity;
use crate::components::children::Children;
use crate::components::local_to_parent::LocalToParent;
use crate::components::local_to_world::LocalToWorld;
use crate::components::non_uniform_scale::NonUniformScale;
use crate::components::parent::{Parent, PreviousParent};
use crate::components::rotation::Rotation;
use crate::components::scale::Scale;
use crate::components::translation::Translation;

verus! {

/// The mathematical contents of a `World`: one sequence per component
/// column, each indexed by entity.
#[verifier::ext_equal]
pub struct WorldView {
    pub alive: Seq<bool>,
    pub parent: Seq<Option<Entity>>,
    pub prev: Seq<Option<Option<Entity>>>,
    pub children: Seq<Option<Seq<Entity>>>,
    pub depth: Seq<u32>,
    pub tag: Seq<Option<u32>>,
    pub translation: Seq<Option<Translation>>,
    pub rotation: Seq<Option<Seq<u32>>>,
    pub scale: Seq<Option<u32>>,
    pub nus: Seq<Option<NonUniformScale>>,
    pub ltp: Seq<Option<Seq<u32>>>,
    pub ltw: Seq<Option<Seq<u32>>>,
    pub changed: Seq<Entity>,
}

impl WorldView {
    pub open spec fn n(self) -> nat {
        self.alive.len()
    }

    /// Every column has one slot per entity.
    pub open spec fn shape_ok(self) -> bool {
        &&& self.parent.len() == self.n()
        &&& self.prev.len() == self.n()
        &&& self.children.len() == self.n()
        &&& self.depth.len() == self.n()
        &&& self.tag.len() == self.n()
        &&& self.translation.len() == self.n()
        &&& self.rotation.len() == self.n()
        &&& self.scale.len() == self.n()
        &&& self.nus.len() == self.n()
        &&& self.ltp.len() == self.n()
        &&& self.ltw.len() == self.n()
    }

    /// Every entity reference stored anywhere is in range, every stored
    /// matrix has its full 16 entries, every rotation its 9, and the
    /// changed-parents set holds each entity at most once.
    pub open spec fn contents_ok(self) -> bool {
        &&& forall|i: int| 0 <= i < self.n() && self.parent[i].is_some()
                ==> (#[trigger] self.parent[i]).unwrap() < self.n()
        &&& forall|i: int| 0 <= i < self.n() && self.prev[i].is_some()
                && self.prev[i].unwrap().is_some()
                ==> (#[trigger] self.prev[i]).unwrap().unwrap() < self.n()
        &&& forall|i: int, j: int| 0 <= i < self.n() && self.children[i].is_some()
                && 0 <= j < self.children[i].unwrap().len()
                ==> (#[trigger] self.children[i].unwrap()[j]) < self.n()
        &&& forall|i: int| 0 <= i < self.n() && self.rotation[i].is_some()
                ==> (#[trigger] self.rotation[i]).unwrap().len() == 9
        &&& forall|i: int| 0 <= i < self.n() && self.ltp[i].is_some()
                ==> (#[trigger] self.ltp[i]).unwrap().len() == 16
        &&& forall|i: int| 0 <= i < self.n() && self.ltw[i].is_some()
                ==> (#[trigger] self.ltw[i]).unwrap().len() == 16
        &&& forall|k: int| 0 <= k < self.changed.len()
                ==> (#[trigger] self.changed[k]) < self.n()
        &&& forall|k1: int, k2: int| 0 <= k1 < k2 < self.changed.len()
                ==> #[trigger] self.changed[k1] != #[trigger] self.changed[k2]
    }

    pub open spec fn wf(self) -> bool {
        self.shape_ok() && self.contents_ok()
    }
}

/// Per-entity component storage, laid out as one column per component type.
/// This is the library's model of the host's entity storage: the host owns
/// entity creation and the user-facing transform fields, and the four passes
/// own the derived fields.
pub struct World {
    alive: Vec<bool>,
    parent: Vec<Option<Entity>>,
    prev: Vec<Option<Option<Entity>>>,
    children: Vec<Option<Children>>,
    depth: Vec<u32>,
    tag: Vec<Option<u32>>,
    translation: Vec<Option<Translation>>,
    rotation: Vec<Option<Rotation>>,
    scale: Vec<Option<Scale>>,
    nus: Vec<Option<NonUniformScale>>,
    ltp: Vec<Option<LocalToParent>>,
    ltw: Vec<Option<LocalToWorld>>,
    changed: Vec<Entity>,
}

impl View for World {
    type V = WorldView;

    closed spec fn view(&self) -> WorldView {
        WorldView {
            alive: self.alive@,
            parent: self.parent@,
            prev: self.prev@,
            children: Seq::new(self.children@.len(), |i: int| match self.children@[i] {
                Option::Some(c) => Option::Some(c.entities()),
                Option::None => Option::None,
            }),
            depth: self.depth@,
            tag: self.tag@,
            translation: self.translation@,
            rotation: Seq::new(self.rotation@.len(), |i: int| match self.rotation@[i] {
                Option::Some(r) => Option::Some(r@),
                Option::None => Option::None,
            }),
            scale: Seq::new(self.scale@.len(), |i: int| match self.scale@[i] {
                Option::Some(s) => Option::Some(s.0),
                Option::None => Option::None,
            }),
            nus: self.nus@,
            ltp: Seq::new(self.ltp@.len(), |i: int| match self.ltp@[i] {
                Option::Some(m) => Option::Some(m.0@),
                Option::None => Option::None,
            }),
            ltw: Seq::new(self.ltw@.len(), |i: int| match self.ltw@[i] {
                Option::Some(m) => Option::Some(m.0@),
                Option::None => Option::None,
            }),
            changed: self.changed@,
        }
    }
}

impl World {
    pub open spec fn wf(self) -> bool {
        self@.wf()
    }

    /// An empty world.
    pub fn new() -> (r: World)
        ensures
            r.wf(),
            r@.n() == 0,
            r@.changed == Seq::<Entity>::empty(),
    {
        World {
            alive: Vec::new(),
            parent: Vec::new(),
            prev: Vec::new(),
            children: Vec::new(),
            depth: Vec::new(),
            tag: Vec::new(),
            translation: Vec::new(),
            rotation: Vec::new(),
            scale: Vec::new(),
            nus: Vec::new(),
            ltp: Vec::new(),
            ltw: Vec::new(),
            changed: Vec::new(),
        }
    }

    /// The number of entity slots.
    pub fn len(&self) -> (r: usize)
        ensures
            r == self@.n(),
    {
        self.alive.len()
    }

    /// Create a fresh entity with no components.
    pub fn spawn(&mut self) -> (e: Entity)
        requires
            old(self).wf(),
        ensures
            final(self).wf(),
            e == old(self)@.n(),
            final(self)@ == (WorldView {
                alive: old(self)@.alive.push(true),
                parent: old(self)@.parent.push(Option::None),
                prev: old(self)@.prev.push(Option::None),
                children: old(self)@.children.push(Option::None),
                depth: old(self)@.depth.push(0u32),
                tag: old(self)@.tag.push(Option::None),
                translation: old(self)@.translation.push(Option::None),
                rotation: old(self)@.rotation.push(Option::None),
                scale: old(self)@.scale.push(Option::None),
                nus: old(self)@.nus.push(Option::None),
                ltp: old(self)@.ltp.push(Option::None),
                ltw: old(self)@.ltw.push(Option::None),
                changed: old(self)@.changed,
            }),
    {
        let e = self.alive.len();
        self.alive.push(true);
        self.parent.push(None);
        self.prev.push(None);
        self.children.push(None);
        self.depth.push(0);
        self.tag.push(None);
        self.translation.push(None);
        self.rotation.push(None);
        self.scale.push(None);
        self.nus.push(None);
        self.ltp.push(None);
        self.ltw.push(None);
        proof {
            assert(final(self)@ =~= (WorldView {
                alive: old(self)@.alive.push(true),
                parent: old(self)@.parent.push(Option::None),
                prev: old(self)@.prev.push(Option::None),
                children: old(self)@.children.push(Option::None),
                depth: old(self)@.depth.push(0u32),
                tag: old(self)@.tag.push(Option::None),
                translation: old(self)@.translation.push(Option::None),
                rotation: old(self)@.rotation.push(Option::None),
                scale: old(self)@.scale.push(Option::None),
                nus: old(self)@.nus.push(Option::None),
                ltp: old(self)@.ltp.push(Option::None),
                ltw: old(self)@.ltw.push(Option::None),
                changed: old(self)@.changed,
            }));
        }
        e
    }

    pub fn is_alive(&self, e: Entity) -> (r: bool)
        requires
            self.wf(),
            e < self@.n(),
        ensures
            r == self@.alive[e as int],
    {
        self.alive[e]
    }

    /// Remove an entity: it stops being alive and loses its own components.
    /// References to it held elsewhere (a stale `Children` entry, a `Parent`
    /// link) are left in place; the passes skip them.
    pub fn despawn(&mut self, e: Entity)
        requires
            old(self).wf(),
            e < old(self)@.n(),
        ensures
            final(self).wf(),
            final(self)@ == (WorldView {
                alive: old(self)@.alive.update(e as int, false),
                parent: old(self)@.parent.update(e as int, Option::None),
                prev: old(self)@.prev.update(e as int, Option::None),
                children: old(self)@.children.update(e as int, Option::None),
                depth: old(self)@.depth.update(e as int, 0u32),
                tag: old(self)@.tag.update(e as int, Option::None),
                translation: old(self)@.translation.update(e as int, Option::None),
                rotation: old(self)@.rotation.update(e as int, Option::None),
                scale: old(self)@.scale.update(e as int, Option::None),
                nus: old(self)@.nus.update(e as int, Option::None),
                ltp: old(self)@.ltp.update(e as int, Option::None),
                ltw: old(self)@.ltw.update(e as int, Option::None),
                changed: old(self)@.changed,
            }),
    {
        self.alive.set(e, false);
        self.parent.set(e, None);
        self.prev.set(e, None);
        self.children.set(e, None);
        self.depth.set(e, 0);
        self.tag.set(e, None);
        self.translation.set(e, None);
        self.rotation.set(e, None);
        self.scale.set(e, None);
        self.nus.set(e, None);
        self.ltp.set(e, None);
        self.ltw.set(e, None);
        proof {
            assert(final(self)@ =~~= (WorldView {
                alive: old(self)@.alive.update(e as int, false),
                parent: old(self)@.parent.update(e as int, Option::None),
                prev: old(self)@.prev.update(e as int, Option::None),
                children: old(self)@.children.update(e as int, Option::None),
                depth: old(self)@.depth.update(e as int, 0u32),
                tag: old(self)@.tag.update(e as int, Option::None),
                translation: old(self)@.translation.update(e as int, Option::None),
                rotation: old(self)@.rotation.update(e as int, Option::None),
                scale: old(self)@.scale.update(e as int, Option::None),
                nus: old(self)@.nus.update(e as int, Option::None),
                ltp: old(self)@.ltp.update(e as int, Option::None),
                ltw: old(self)@.ltw.update(e as int, Option::None),
                changed: old(self)@.changed,
            }));
        }
    }

    /// Set (or replace) the entity's parent link, and record the entity in
    /// the changed-parents set that the passes consume.
    pub fn set_parent(&mut self, e: Entity, p: Parent)
        requires
            old(self).wf(),
            e < old(self)@.n(),
            p.0 < old(self)@.n(),
        ensures
            final(self).wf(),
            final(self)@ == (WorldView {
                parent: old(self)@.parent.update(e as int, Option::Some(p.0)),
                changed: if old(self)@.changed.contains(e) {
                    old(self)@.changed
                } else {
                    old(self)@.changed.push(e)
                },
                ..old(self)@
            }),
    {
        self.parent.set(e, Some(p.0));
        let mut i: usize = 0;
        let mut found = false;
        while i < self.changed.len()
            invariant
                i <= self.changed@.len(),
                found <==> exists|k: int| 0 <= k < i && self.changed@[k] == e,
            decreases self.changed@.len() - i,
        {
            if self.changed[i] == e {
                found = true;
            }
            i = i + 1;
        }
        if !found {
            self.changed.push(e);
        }
        proof {
            assert(old(self)@.changed.contains(e) <==> exists|k: int|
                0 <= k < old(self)@.changed.len() && old(self)@.changed[k] == e);
            assert(final(self)@ =~~= (WorldView {
                parent: old(self)@.parent.update(e as int, Option::Some(p.0)),
                changed: if old(self)@.changed.contains(e) {
                    old(self)@.changed
                } else {
                    old(self)@.changed.push(e)
                },
                ..old(self)@
            }));
        }
    }

    pub fn get_parent(&self, e: Entity) -> (r: Option<Parent>)
        requires
            self.wf(),
            e < self@.n(),
        ensures
            r == (match self@.parent[e as int] {
                Option::Some(p) => Option::Some(Parent(p)),
                Option::None => Option::None,
            }),
    {
        match self.parent[e] {
            Some(p) => Some(Parent(p)),
            None => None,
        }
    }

    pub fn get_previous_parent(&self, e: Entity) -> (r: Option<PreviousParent>)
        requires
            self.wf(),
            e < self@.n(),
        ensures
            r == (match self@.prev[e as int] {
                Option::Some(v) => Option::Some(PreviousParent(v)),
                Option::None => Option::None,
            }),
    {
        match self.prev[e] {
            Some(v) => Some(PreviousParent(v)),
            None => None,
        }
    }

    /// Used by the hierarchy maintainer and its companion initialization
    /// pass; `PreviousParent` is system-managed.
    pub(crate) fn set_previous_parent(&mut self, e: Entity, v: PreviousParent)
        requires
            old(self).wf(),
            e < old(self)@.n(),
            v.0.is_some() ==> v.0.unwrap() < old(self)@.n(),
        ensures
            final(self).wf(),
            final(self)@ == (WorldView {
                prev: old(self)@.prev.update(e as int, Option::Some(v.0)),
                ..old(self)@
            }),
    {
        self.prev.set(e, Some(v.0));
        proof {
            assert(final(self)@ =~~= (WorldView {
                prev: old(self)@.prev.update(e as int, Option::Some(v.0)),
                ..old(self)@
            }));
        }
    }

    pub fn has_children(&self, e: Entity) -> (r: bool)
        requires
            self.wf(),
            e < self@.n(),
        ensures
            r == self@.children[e as int].is_some(),
    {
        match &self.children[e] {
            Some(_) => true,
            None => false,
        }
    }

    /// The entity's children, in order, or none if it has no `Children`
    /// collection at all.
    pub fn get_children(&self, e: Entity) -> (r: Option<Vec<Entity>>)
        requires
            self.wf(),
            e < self@.n(),
        ensures
            r.is_some() == self@.children[e as int].is_some(),
            r.is_some() ==> r.unwrap()@ == self@.children[e as int].unwrap(),
    {
        match &self.children[e] {
            Some(c) => Some(c.to_vec()),
            None => None,
        }
    }

    /// Replace the entity's children collection; the hierarchy maintainer is
    /// the one writer of this column.
    pub(crate) fn set_children(&mut self, e: Entity, list: &Vec<Entity>)
        requires
            old(self).wf(),
            e < old(self)@.n(),
            forall|j: int| 0 <= j < list@.len() ==> #[trigger] list@[j] < old(self)@.n(),
        ensures
            final(self).wf(),
            final(self)@ == (WorldView {
                children: old(self)@.children.update(e as int, Option::Some(list@)),
                ..old(self)@
            }),
    {
        let c = Children::with(list.as_slice());
        self.children.set(e, Some(c));
        proof {
            assert(final(self)@ =~~= (WorldView {
                children: old(self)@.children.update(e as int, Option::Some(list@)),
                ..old(self)@
            }));
        }
    }

    /// Append one child to an existing children collection.
    pub(crate) fn children_push(&mut self, e: Entity, c: Entity)
        requires
            old(self).wf(),
            e < old(self)@.n(),
            c < old(self)@.n(),
            old(self)@.children[e as int].is_some(),
        ensures
            final(self).wf(),
            final(self)@ == (WorldView {
                children: old(self)@.children.update(
                    e as int,
                    Option::Some(old(self)@.children[e as int].unwrap().push(c)),
                ),
                ..old(self)@
            }),
    {
        match &mut self.children[e] {
            Some(ch) => ch.push(c),
            None => {}
        }
        proof {
            assert(final(self)@ =~~= (WorldView {
                children: old(self)@.children.update(
                    e as int,
                    Option::Some(old(self)@.children[e as int].unwrap().push(c)),
                ),
                ..old(self)@
            }));
        }
    }

    pub fn get_depth(&self, e: Entity) -> (r: u32)
        requires
            self.wf(),
            e < self@.n(),
        ensures
            r == self@.depth[e as int],
    {
        self.depth[e]
    }

    pub fn get_depth_tag(&self, e: Entity) -> (r: Option<u32>)
        requires
            self.wf(),
            e < self@.n(),
        ensures
            r == self@.tag[e as int],
    {
        self.tag[e]
    }

    /// Used by the depth assigner; `Depth` is system-managed.
    pub(crate) fn set_depth(&mut self, e: Entity, d: u32)
        requires
            old(self).wf(),
            e < old(self)@.n(),
        ensures
            final(self).wf(),
            final(self)@ == (WorldView {
                depth: old(self)@.depth.update(e as int, d),
                ..old(self)@
            }),
    {
        self.depth.set(e, d);
        proof {
            assert(final(self)@ =~~= (WorldView {
                depth: old(self)@.depth.update(e as int, d),
                ..old(self)@
            }));
        }
    }

    /// Used by the depth assigner: the tag written when a depth value
    /// actually changed.
    pub(crate) fn set_depth_tag(&mut self, e: Entity, d: u32)
        requires
            old(self).wf(),
            e < old(self)@.n(),
        ensures
            final(self).wf(),
            final(self)@ == (WorldView {
                tag: old(self)@.tag.update(e as int, Option::Some(d)),
                ..old(self)@
            }),
    {
        self.tag.set(e, Some(d));
        proof {
            assert(final(self)@ =~~= (WorldView {
                tag: old(self)@.tag.update(e as int, Option::Some(d)),
                ..old(self)@
            }));
        }
    }

    pub fn get_translation(&self, e: Entity) -> (r: Option<Translation>)
        requires
            self.wf(),
            e < self@.n(),
        ensures
            r == self@.translation[e as int],
    {
        self.translation[e]
    }

    pub fn set_translation(&mut self, e: Entity, t: Translation)
        requires
            old(self).wf(),
            e < old(self)@.n(),
        ensures
            final(self).wf(),
            final(self)@ == (WorldView {
                translation: old(self)@.translation.update(e as int, Option::Some(t)),
                ..old(self)@
            }),
    {
        self.translation.set(e, Some(t));
        proof {
            assert(final(self)@ =~~= (WorldView {
                translation: old(self)@.translation.update(e as int, Option::Some(t)),
                ..old(self)@
            }));
        }
    }

    pub fn has_rotation(&self, e: Entity) -> (r: bool)
        requires
            self.wf(),
            e < self@.n(),
        ensures
            r == self@.rotation[e as int].is_some(),
    {
        match &self.rotation[e] {
            Some(_) => true,
            None => false,
        }
    }

    pub fn get_rotation(&self, e: Entity) -> (r: Option<Rotation>)
        requires
            self.wf(),
            e < self@.n(),
        ensures
            r.is_some() == self@.rotation[e as int].is_some(),
            r.is_some() ==> r.unwrap()@ == self@.rotation[e as int].unwrap(),
    {
        match &self.rotation[e] {
            Some(rot) => Some(rot.duplicate()),
            None => None,
        }
    }

    pub fn set_rotation(&mut self, e: Entity, r: Rotation)
        requires
            old(self).wf(),
            e < old(self)@.n(),
            r.wf(),
        ensures
            final(self).wf(),
            final(self)@ == (WorldView {
                rotation: old(self)@.rotation.update(e as int, Option::Some(r@)),
                ..old(self)@
            }),
    {
        let ghost v = r@;
        self.rotation.set(e, Some(r));
        proof {
            assert(final(self)@ =~~= (WorldView {
                rotation: old(self)@.rotation.update(e as int, Option::Some(v)),
                ..old(self)@
            }));
        }
    }

    pub fn get_scale(&self, e: Entity) -> (r: Option<Scale>)
        requires
            self.wf(),
            e < self@.n(),
        ensures
            r == (match self@.scale[e as int] {
                Option::Some(s) => Option::Some(Scale(s)),
                Option::None => Option::None,
            }),
    {
        self.scale[e]
    }

    pub fn set_scale(&mut self, e: Entity, s: Scale)
        requires
            old(self).wf(),
            e < old(self)@.n(),
        ensures
            final(self).wf(),
            final(self)@ == (WorldView {
                scale: old(self)@.scale.update(e as int, Option::Some(s.0)),
                ..old(self)@
            }),
    {
        self.scale.set(e, Some(s));
        proof {
            assert(final(self)@ =~~= (WorldView {
                scale: old(self)@.scale.update(e as int, Option::Some(s.0)),
                ..old(self)@
            }));
        }
    }

    pub fn get_non_uniform_scale(&self, e: Entity) -> (r: Option<NonUniformScale>)
        requires
            self.wf(),
            e < self@.n(),
        ensures
            r == self@.nus[e as int],
    {
        self.nus[e]
    }

    pub fn set_non_uniform_scale(&mut self, e: Entity, v: NonUniformScale)
        requires
            old(self).wf(),
            e < old(self)@.n(),
        ensures
            final(self).wf(),
            final(self)@ == (WorldView {
                nus: old(self)@.nus.update(e as int, Option::Some(v)),
                ..old(self)@
            }),
    {
        self.nus.set(e, Some(v));
        proof {
            assert(final(self)@ =~~= (WorldView {
                nus: old(self)@.nus.update(e as int, Option::Some(v)),
                ..old(self)@
            }));
        }
    }

    pub fn has_local_to_parent(&self, e: Entity) -> (r: bool)
        requires
            self.wf(),
            e < self@.n(),
        ensures
            r == self@.ltp[e as int].is_some(),
    {
        match &self.ltp[e] {
            Some(_) => true,
            None => false,
        }
    }

    pub fn get_local_to_parent(&self, e: Entity) -> (r: Option<LocalToParent>)
        requires
            self.wf(),
            e < self@.n(),
        ensures
            r.is_some() == self@.ltp[e as int].is_some(),
            r.is_some() ==> r.unwrap().0@ == self@.ltp[e as int].unwrap(),
    {
        match &self.ltp[e] {
            Some(m) => Some(LocalToParent(m.0.duplicate())),
            None => None,
        }
    }

    pub fn set_local_to_parent(&mut self, e: Entity, m: LocalToParent)
        requires
            old(self).wf(),
            e < old(self)@.n(),
            m.wf(),
        ensures
            final(self).wf(),
            final(self)@ == (WorldView {
                ltp: old(self)@.ltp.update(e as int, Option::Some(m.0@)),
                ..old(self)@
            }),
    {
        let ghost v = m.0@;
        self.ltp.set(e, Some(m));
        proof {
            assert(final(self)@ =~~= (WorldView {
                ltp: old(self)@.ltp.update(e as int, Option::Some(v)),
                ..old(self)@
            }));
        }
    }

    pub fn has_local_to_world(&self, e: Entity) -> (r: bool)
        requires
            self.wf(),
            e < self@.n(),
        ensures
            r == self@.ltw[e as int].is_some(),
    {
        match &self.ltw[e] {
            Some(_) => true,
            None => false,
        }
    }

    pub fn get_local_to_world(&self, e: Entity) -> (r: Option<LocalToWorld>)
        requires
            self.wf(),
            e < self@.n(),
        ensures
            r.is_some() == self@.ltw[e as int].is_some(),
            r.is_some() ==> r.unwrap().0@ == self@.ltw[e as int].unwrap(),
    {
        match &self.ltw[e] {
            Some(m) => Some(LocalToWorld(m.0.duplicate())),
            None => None,
        }
    }

    pub fn set_local_to_world(&mut self, e: Entity, m: LocalToWorld)
        requires
            old(self).wf(),
            e < old(self)@.n(),
            m.wf(),
        ensures
            final(self).wf(),
            final(self)@ == (WorldView {
                ltw: old(self)@.ltw.update(e as int, Option::Some(m.0@)),
                ..old(self)@
            }),
    {
        let ghost v = m.0@;
        self.ltw.set(e, Some(m));
        proof {
            assert(final(self)@ =~~= (WorldView {
                ltw: old(self)@.ltw.update(e as int, Option::Some(v)),
                ..old(self)@
            }));
        }
    }

    /// The entities whose `Parent` changed since the set was last cleared,
    /// oldest first.
    pub fn get_changed_parents(&self) -> (r: Vec<Entity>)
        ensures
            r@ == self@.changed,
    {
        let mut out: Vec<Entity> = Vec::new();
        let mut i: usize = 0;
        while i < self.changed.len()
            invariant
                i <= self.changed@.len(),
                out@ == self.changed@.subrange(0, i as int),
            decreases self.changed@.len() - i,
        {
            out.push(self.changed[i]);
            i = i + 1;
        }
        proof {
            assert(out@ =~= self@.changed);
        }
        out
    }

    /// Forget the recorded parent changes: the end-of-cycle barrier.
    pub fn clear_parent_changes(&mut self)
        requires
            old(self).wf(),
        ensures
            final(self).wf(),
            final(self)@ == (WorldView { changed: Seq::<Entity>::empty(), ..old(self)@ }),
    {
        self.changed.clear();
        proof {
            assert(final(self)@ =~~= (WorldView {
                changed: Seq::<Entity>::empty(),
                ..old(self)@
            }));
        }
    }
}

} // verus!
