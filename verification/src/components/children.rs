use vstd::prelude::*;
use smallvec::SmallVec;
use crate::Entity;

verus! {

/// The derived, ordered collection of an entity's direct children. A cache
/// over the authoritative `Parent` links, reconciled only by the hierarchy
/// maintainer. The storage is a `smallvec::SmallVec` with room for eight
/// children inline; Verus sees the collection only through
/// `children_entities` and the three trusted operations below.
#[verifier::external_body]
pub struct Children {
    vec: SmallVec<[Entity; 8]>,
}

/// What a `Children` collection holds, in order.
pub uninterp spec fn children_entities(v: Children) -> Seq<Entity>;

impl Children {
    /// The children, in order.
    pub open spec fn entities(self) -> Seq<Entity> {
        children_entities(self)
    }

    /// Relies on `smallvec::SmallVec::from_slice`: the new vector holds the
    /// slice's elements in order.
    #[verifier::external_body]
    pub fn with(entity: &[Entity]) -> (r: Self)
        ensures
            children_entities(r) == entity@,
    {
        Children { vec: SmallVec::from_slice(entity) }
    }

    /// Relies on `smallvec::SmallVec::push`: appends the element at the end.
    #[verifier::external_body]
    pub fn push(&mut self, e: Entity)
        ensures
            children_entities(*final(self)) == children_entities(*old(self)).push(e),
    {
        self.vec.push(e)
    }

    /// Relies on `smallvec::SmallVec::as_slice`: exposes the elements in
    /// order.
    #[verifier::external_body]
    pub fn to_vec(&self) -> (r: Vec<Entity>)
        ensures
            r@ == children_entities(*self),
    {
        self.vec.as_slice().to_vec()
    }
}

} // verus!
