//! Collections: the container nodes of the library tree.
//!
//! A collection holds child collections and content tags by identifier.  The
//! single root collection has no parent; every other collection points to
//! exactly one parent that lists it back among its children — the tree
//! integrity invariant stated on the storage aggregate.

use vstd::prelude::*;
use crate::ids::CollectionId;
use crate::idmap::USet;
use crate::color::Color;
use crate::meta::Metadata;

verus! {

/// A container node of the tree.
pub struct Collection {
    pub is_deleted: bool,
    pub parent: Option<CollectionId>,
    pub id: CollectionId,
    pub name: String,
    pub color: Option<Color>,
    pub meta: Metadata,
    /// The tags directly under this collection, by identifier value.
    pub content: USet,
    /// The child collections, by identifier value.
    pub children: USet,
}

impl Collection {
    /// Both backing sets are well-formed.
    pub open spec fn wf(self) -> bool {
        self.content.wf() && self.children.wf()
    }

    /// A fresh, empty, live collection.  The identifier is chosen by the
    /// caller (the storage draws a fresh random one).
    pub fn new(
        id: CollectionId,
        parent: Option<CollectionId>,
        color: Option<Color>,
        name: String,
    ) -> (r: Collection)
        ensures
            r.wf(),
            r.id == id,
            r.parent == parent,
            r.color == color,
            r.name == name,
            !r.is_deleted,
            r.content@ == Set::<u128>::empty(),
            r.children@ == Set::<u128>::empty(),
            r.content.elems() == Seq::<u128>::empty(),
            r.children.elems() == Seq::<u128>::empty(),
    {
        Collection {
            is_deleted: false,
            parent,
            id,
            name,
            color,
            meta: Metadata::now(0),
            content: USet::new(),
            children: USet::new(),
        }
    }
}

} // verus!
