//! Identifier types for the entities of the library.
//!
//! Every entity carries a 128-bit random identifier, equal only to itself by
//! value, generated once at creation time and never reused.

use vstd::prelude::*;

verus! {

/// Identifier of an asset.
#[derive(Clone, Copy, PartialEq, Eq, Structural, Hash, Debug)]
pub struct AssetId(pub u128);

/// Identifier of a collection (a container node of the tree).
#[derive(Clone, Copy, PartialEq, Eq, Structural, Hash, Debug)]
pub struct CollectionId(pub u128);

/// Identifier of a tag.
#[derive(Clone, Copy, PartialEq, Eq, Structural, Hash, Debug)]
pub struct TagId(pub u128);

/// Identifier of a folder in the legacy, folder-based library layout.
#[derive(Clone, Copy, PartialEq, Eq, Structural, Hash, Debug)]
pub struct FolderId(pub u128);

/// The kind of entity an [`ItemId`] refers to.
#[derive(Clone, Copy, PartialEq, Eq, Structural, Hash, Debug)]
pub enum IdType {
    Asset,
    Collection,
    Tag,
}

/// An identifier tagged with the kind of entity it refers to.
#[derive(Clone, Copy, PartialEq, Eq, Structural, Hash, Debug)]
pub struct ItemId {
    pub ty: IdType,
    pub id: u128,
}

impl ItemId {
    /// The asset identifier this refers to; only meaningful for asset items.
    pub fn asset(self) -> (r: AssetId)
        requires
            self.ty is Asset,
        ensures
            r.0 == self.id,
    {
        AssetId(self.id)
    }

    /// The collection identifier this refers to; only meaningful for
    /// collection items.
    pub fn collection(self) -> (r: CollectionId)
        requires
            self.ty is Collection,
        ensures
            r.0 == self.id,
    {
        CollectionId(self.id)
    }

    /// The tag identifier this refers to; only meaningful for tag items.
    pub fn tag(self) -> (r: TagId)
        requires
            self.ty is Tag,
        ensures
            r.0 == self.id,
    {
        TagId(self.id)
    }
}

/// Relies on `uuid::Uuid::new_v4` (and `Uuid::as_u128`): a freshly drawn
/// random 128-bit value.  Nothing is promised of the result; callers test it
/// against the identifiers already in use.  Should the operating system's
/// randomness source fail, the call aborts the process — an environmental
/// failure of the same kind as running out of memory.
#[verifier::external_body]
pub(crate) fn random_id_value() -> u128 {
    uuid::Uuid::new_v4().as_u128()
}

} // verus!
