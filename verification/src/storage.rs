//! The aggregate root: the collection tree, the tags, the assets, the
//! duplicate-detection cache and the recycle bin, with every mutating
//! operation verified against the structural invariants.
//!
//! The invariants, stated in [`Storage::wf`]:
//! - tree integrity: every child link points to a live collection whose
//!   parent pointer matches, so an active non-root collection sits in
//!   exactly one parent's child set; soft-deleted collections are detached;
//! - tag links: content links point to live tags under that collection, and
//!   every live tag is listed by its parent;
//! - recycle bin: an entity is flagged deleted exactly when the bin records
//!   it;
//! - cache: only live assets are indexed, and the checksum index is exactly
//!   bidirectional;
//! - tag containers: a live tag occurs in an asset's container only in the
//!   slot of its own group (ungrouped tags only in the ungrouped set), which
//!   makes at most one live tag per group possible on any asset.

use vstd::prelude::*;
use vstd::set_lib::lemma_len_subset;
use crate::ids::{AssetId, CollectionId, TagId, random_id_value};
use crate::idmap::{UMap, USet};
use crate::cache::{StorageCache, DuplicateAssets, clone_id_vec};
use crate::collection::Collection;
use crate::tags::{Tag, TagContainer, TagGroupConflictResolve};
use crate::assets::{Asset, AssetProperty, AssetType, RawAsset};
use crate::color::Color;
use crate::meta::{Metadata, LibraryMeta};
use crate::errors::StorageError;

verus! {

/// The distinguished collections of a library: only the single root so far.
#[derive(Clone, Copy, PartialEq, Eq, Structural, Debug)]
pub struct SpecialCollections {
    pub root: CollectionId,
}

impl SpecialCollections {
    /// Whether `id` is a collection that deletion, recoloring and moving
    /// must refuse.
    pub fn is_special(&self, id: CollectionId) -> (r: bool)
        ensures
            r == (id == self.root),
    {
        id == self.root
    }
}

/// How a fresh library is to be constructed: the source tree to walk, the
/// destination root, and whether source directories become collections and
/// tags rather than plain structure.
#[derive(Clone, Debug)]
pub struct StorageConstructionSettings {
    pub src_root: String,
    pub root: String,
    pub folder_as_tag: bool,
}

/// The soft-deleted entities, by kind.
pub struct RecycleBin {
    pub assets: USet,
    pub collections: USet,
    pub tags: USet,
}

impl RecycleBin {
    /// An empty bin.
    pub fn new() -> (r: RecycleBin)
        ensures
            r.assets.wf() && r.collections.wf() && r.tags.wf(),
            r.assets@ == Set::<u128>::empty(),
            r.collections@ == Set::<u128>::empty(),
            r.tags@ == Set::<u128>::empty(),
    {
        RecycleBin { assets: USet::new(), collections: USet::new(), tags: USet::new() }
    }
}

/// The aggregate root of one library.
pub struct Storage {
    /// The duplicate-detection index; derived and rebuilt at load time,
    /// never persisted.
    pub cache: StorageCache,
    pub sp_collections: SpecialCollections,
    pub tags: UMap<Tag>,
    pub collections: UMap<Collection>,
    pub assets: UMap<Asset>,
    pub recycle_bin: RecycleBin,
    pub lib_meta: LibraryMeta,
}

impl Storage {
    /// The containers are well-formed and every map keys its entries by
    /// their own identifier.
    pub open spec fn maps_wf(self) -> bool {
        &&& self.tags.wf() && self.collections.wf() && self.assets.wf()
        &&& self.recycle_bin.assets.wf() && self.recycle_bin.collections.wf()
        &&& self.recycle_bin.tags.wf()
        &&& forall|c: u128| #[trigger] self.collections@.dom().contains(c)
                ==> self.collections@[c].id.0 == c && self.collections@[c].wf()
        &&& forall|t: u128| #[trigger] self.tags@.dom().contains(t)
                ==> self.tags@[t].id.0 == t
        &&& forall|a: u128| #[trigger] self.assets@.dom().contains(a)
                ==> self.assets@[a].id.0 == a && self.assets@[a].wf()
    }

    /// The root collection exists, is live, and is the only collection
    /// without a parent.
    pub open spec fn root_wf(self) -> bool {
        &&& self.collections@.dom().contains(self.sp_collections.root.0)
        &&& self.collections@[self.sp_collections.root.0].parent is None
        &&& !self.collections@[self.sp_collections.root.0].is_deleted
        &&& forall|c: u128| #[trigger] self.collections@.dom().contains(c)
                && c != self.sp_collections.root.0
                ==> self.collections@[c].parent is Some
    }

    /// What a child link guarantees: the child exists, is live, and points
    /// back at this parent.
    pub open spec fn child_link_ok(self, p: u128, c: u128) -> bool {
        &&& self.collections@.dom().contains(c)
        &&& !self.collections@[c].is_deleted
        &&& self.collections@[c].parent == Some(CollectionId(p))
        &&& c != p
    }

    /// Tree integrity: child links are sound, and every live non-root
    /// collection is listed by its parent.
    pub open spec fn tree_wf(self) -> bool {
        &&& forall|p: u128, c: u128|
                self.collections@.dom().contains(p)
                    && #[trigger] self.collections@[p].children@.contains(c)
                ==> self.child_link_ok(p, c)
        &&& forall|c: u128| #[trigger] self.collections@.dom().contains(c)
                && !self.collections@[c].is_deleted
                && c != self.sp_collections.root.0
                ==> {
                    let p = self.collections@[c].parent->Some_0.0;
                    &&& self.collections@.dom().contains(p)
                    &&& self.collections@[p].children@.contains(c)
                }
    }

    /// Tag links: content links point to live tags naming this collection
    /// as parent, and every live tag is listed by its parent collection.
    pub open spec fn tag_links_wf(self) -> bool {
        &&& forall|p: u128, t: u128|
                self.collections@.dom().contains(p)
                    && #[trigger] self.collections@[p].content@.contains(t)
                ==> self.tags@.dom().contains(t) && !self.tags@[t].is_deleted
                    && self.tags@[t].parent.0 == p
        &&& forall|t: u128| #[trigger] self.tags@.dom().contains(t)
                && !self.tags@[t].is_deleted
                ==> {
                    let p = self.tags@[t].parent.0;
                    &&& self.collections@.dom().contains(p)
                    &&& self.collections@[p].content@.contains(t)
                }
    }

    /// The recycle bin records exactly the entities flagged as deleted.
    pub open spec fn bin_wf(self) -> bool {
        &&& forall|a: u128| #[trigger] self.recycle_bin.assets@.contains(a)
                ==> self.assets@.dom().contains(a)
        &&& forall|a: u128| #[trigger] self.assets@.dom().contains(a)
                ==> (self.assets@[a].is_deleted <==> self.recycle_bin.assets@.contains(a))
        &&& forall|c: u128| #[trigger] self.recycle_bin.collections@.contains(c)
                ==> self.collections@.dom().contains(c)
        &&& forall|c: u128| #[trigger] self.collections@.dom().contains(c)
                ==> (self.collections@[c].is_deleted
                    <==> self.recycle_bin.collections@.contains(c))
        &&& forall|t: u128| #[trigger] self.recycle_bin.tags@.contains(t)
                ==> self.tags@.dom().contains(t)
        &&& forall|t: u128| #[trigger] self.tags@.dom().contains(t)
                ==> (self.tags@[t].is_deleted <==> self.recycle_bin.tags@.contains(t))
    }

    /// The cache indexes live assets only.
    pub open spec fn cache_live_wf(self) -> bool {
        forall|a: u128| #[trigger] self.cache.asset_crc@.dom().contains(a)
            ==> self.assets@.dom().contains(a) && !self.assets@[a].is_deleted
    }

    /// Tag containers place live tags correctly: an ungrouped slot holds
    /// only tags without a group, and the slot of group `g` holds only tags
    /// of group `g`.
    pub open spec fn containers_wf(self) -> bool {
        &&& forall|a: u128, t: u128|
                self.assets@.dom().contains(a)
                    && #[trigger] self.assets@[a].tags.ungrouped@.contains(t)
                    && self.tags@.dom().contains(t)
                ==> self.tags@[t].group is None
        &&& forall|a: u128, g: u128|
                self.assets@.dom().contains(a)
                    && #[trigger] self.assets@[a].tags.grouped@.dom().contains(g)
                ==> (self.tags@.dom().contains(self.assets@[a].tags.grouped@[g].0)
                    ==> self.tags@[self.assets@[a].tags.grouped@[g].0].group
                        == Some(CollectionId(g)))
    }

    /// The full structural invariant.
    pub open spec fn wf(self) -> bool {
        &&& self.cache.cache_wf()
        &&& self.maps_wf()
        &&& self.root_wf()
        &&& self.tree_wf()
        &&& self.tag_links_wf()
        &&& self.bin_wf()
        &&& self.cache_live_wf()
        &&& self.containers_wf()
    }

    /// A collection that exists and is not soft-deleted.
    pub open spec fn live_collection(self, c: u128) -> bool {
        self.collections@.dom().contains(c) && !self.collections@[c].is_deleted
    }

    /// A fresh library: one live root collection named after the library,
    /// nothing else.
    pub fn new_library(name: String) -> (r: Storage)
        ensures
            r.wf(),
            r.tags@ == Map::<u128, Tag>::empty(),
            r.assets@ == Map::<u128, Asset>::empty(),
            r.collections@.dom() =~= Set::<u128>::empty().insert(r.sp_collections.root.0),
            r.cache.asset_crc@ == Map::<u128, u32>::empty(),
            r.lib_meta.name == name,
    {
        let root_id = CollectionId(random_id_value());
        let root = Collection::new(root_id, None, None, String::new());
        let mut collections: UMap<Collection> = UMap::new();
        collections.insert(root_id.0, root);
        let r = Storage {
            cache: StorageCache::new(),
            sp_collections: SpecialCollections { root: root_id },
            tags: UMap::new(),
            collections,
            assets: UMap::new(),
            recycle_bin: RecycleBin::new(),
            lib_meta: LibraryMeta::new(name),
        };
        proof {
            assert(r.collections@.dom()
                =~= Set::<u128>::empty().insert(root_id.0));
        }
        r
    }
}

/// Among the identifier values `0 ..= n` at least one avoids any finite set
/// of at most `n` values.
proof fn lemma_small_candidate_free(keys: Set<u128>, n: int)
    requires
        keys.finite(),
        keys.len() <= n,
        0 <= n <= u128::MAX,
    ensures
        exists|c: u128| (c as int <= n) && !keys.contains(c),
    decreases n,
{
    if keys.contains(n as u128) {
        let keys2 = keys.remove(n as u128);
        assert(keys2.len() == keys.len() - 1);
        if n == 0 {
            assert(false);
        } else {
            lemma_small_candidate_free(keys2, n - 1);
            let c = choose|c: u128| (c as int <= n - 1) && !keys2.contains(c);
            assert(c as int != n);
            assert(!keys.contains(c));
        }
    } else {
        assert((n as u128) as int <= n && !keys.contains(n as u128));
    }
}

/// Draws a key that is not in use in `m`: a fresh random identifier in every
/// practical case, with a deterministic search as fallback should the draw
/// ever collide.
fn fresh_key<V>(m: &UMap<V>) -> (r: u128)
    requires
        m.wf(),
    ensures
        !m@.dom().contains(r),
{
    let cand = random_id_value();
    if !m.contains_key(cand) {
        return cand;
    }
    let n = m.len();
    let mut i: usize = 0;
    while i < n
        invariant
            m.wf(),
            n == m.keys_seq().len(),
            i <= n,
            forall|j: int| 0 <= j < i ==> #[trigger] m@.dom().contains((j as u128)),
        decreases n - i,
    {
        if !m.contains_key(i as u128) {
            return i as u128;
        }
        i += 1;
    }
    let last = n as u128;
    if !m.contains_key(last) {
        return last;
    }
    proof {
        m.lemma_dom_card();
        lemma_small_candidate_free(m@.dom(), n as int);
        let c = choose|c: u128| (c as int <= n) && !m@.dom().contains(c);
        if (c as int) < n {
            assert(m@.dom().contains(((c as int) as u128)));
        }
        assert(false);
    }
    0
}


/// Everything except the collections map is unchanged.
pub open spec fn unchanged_except_collections(a: Storage, b: Storage) -> bool {
    a.cache == b.cache && a.sp_collections == b.sp_collections && a.tags == b.tags
        && a.assets == b.assets && a.recycle_bin == b.recycle_bin && a.lib_meta == b.lib_meta
}

/// Everything except the tags map is unchanged.
pub open spec fn unchanged_except_tags(a: Storage, b: Storage) -> bool {
    a.cache == b.cache && a.sp_collections == b.sp_collections && a.collections == b.collections
        && a.assets == b.assets && a.recycle_bin == b.recycle_bin && a.lib_meta == b.lib_meta
}

/// Everything except the collections and tags maps is unchanged.
pub open spec fn unchanged_except_collections_and_tags(a: Storage, b: Storage) -> bool {
    a.cache == b.cache && a.sp_collections == b.sp_collections && a.assets == b.assets
        && a.recycle_bin == b.recycle_bin && a.lib_meta == b.lib_meta
}

/// Everything except the assets map is unchanged.
pub open spec fn unchanged_except_assets(a: Storage, b: Storage) -> bool {
    a.cache == b.cache && a.sp_collections == b.sp_collections && a.collections == b.collections
        && a.tags == b.tags && a.recycle_bin == b.recycle_bin && a.lib_meta == b.lib_meta
}

/// Replacing one collection without touching its identifier, liveness,
/// links or sets preserves the invariant.
proof fn lemma_wf_collection_cosmetic(s0: Storage, s1: Storage, c: u128, v: Collection)
    requires
        s0.wf(),
        s0.collections@.dom().contains(c),
        s1.collections@ == s0.collections@.insert(c, v),
        s1.collections.wf(),
        unchanged_except_collections(s0, s1),
        v.id == s0.collections@[c].id,
        v.is_deleted == s0.collections@[c].is_deleted,
        v.parent == s0.collections@[c].parent,
        v.children == s0.collections@[c].children,
        v.content == s0.collections@[c].content,
        v.wf(),
    ensures
        s1.wf(),
{
    assert(s1.collections@.dom() =~= s0.collections@.dom());
}

/// Replacing one tag without touching its identifier, liveness, parent or
/// group preserves the invariant.
proof fn lemma_wf_tag_cosmetic(s0: Storage, s1: Storage, t: u128, v: Tag)
    requires
        s0.wf(),
        s0.tags@.dom().contains(t),
        s1.tags@ == s0.tags@.insert(t, v),
        s1.tags.wf(),
        unchanged_except_tags(s0, s1),
        v.id == s0.tags@[t].id,
        v.is_deleted == s0.tags@[t].is_deleted,
        v.parent == s0.tags@[t].parent,
        v.group == s0.tags@[t].group,
    ensures
        s1.wf(),
{
    assert(s1.tags@.dom() =~= s0.tags@.dom());
}

/// Replacing one asset without touching its identifier, liveness or tag
/// container preserves the invariant.
proof fn lemma_wf_asset_cosmetic(s0: Storage, s1: Storage, a: u128, v: Asset)
    requires
        s0.wf(),
        s0.assets@.dom().contains(a),
        s1.assets@ == s0.assets@.insert(a, v),
        s1.assets.wf(),
        unchanged_except_assets(s0, s1),
        v.id == s0.assets@[a].id,
        v.is_deleted == s0.assets@[a].is_deleted,
        v.tags == s0.assets@[a].tags,
    ensures
        s1.wf(),
{
    assert(s1.assets@.dom() =~= s0.assets@.dom());
}

impl Storage {
    /// Renames an asset.  A pure name change: no structural effect, and the
    /// backing content file (named by the identifier) is untouched.
    pub fn rename_asset(&mut self, id: AssetId, new_name: String) -> (r: Result<(), StorageError>)
        requires
            old(self).wf(),
        ensures
            final(self).wf(),
            match r {
                Ok(()) => {
                    &&& old(self).assets@.dom().contains(id.0)
                    &&& final(self).assets@ == old(self).assets@.insert(
                        id.0,
                        (Asset { name: new_name, ..old(self).assets@[id.0] }),
                    )
                    &&& unchanged_except_assets(*old(self), *final(self))
                },
                Err(e) => {
                    &&& e == StorageError::AssetNotFound(id)
                    &&& !old(self).assets@.dom().contains(id.0)
                    &&& *final(self) == *old(self)
                },
            },
    {
        let ghost prev = *self;
        match self.assets.position_of(id.0) {
            Some(i) => {
                let a = self.assets.val_at_mut(i);
                a.name = new_name;
                proof {
                    lemma_wf_asset_cosmetic(
                        prev,
                        *self,
                        id.0,
                        (Asset { name: new_name, ..prev.assets@[id.0] }),
                    );
                }
                Ok(())
            },
            None => Err(StorageError::AssetNotFound(id)),
        }
    }

    /// Renames a collection; the root can be renamed like any other.
    pub fn rename_collection(&mut self, id: CollectionId, new_name: String) -> (r: Result<
        (),
        StorageError,
    >)
        requires
            old(self).wf(),
        ensures
            final(self).wf(),
            match r {
                Ok(()) => {
                    &&& old(self).collections@.dom().contains(id.0)
                    &&& final(self).collections@ == old(self).collections@.insert(
                        id.0,
                        (Collection { name: new_name, ..old(self).collections@[id.0] }),
                    )
                    &&& unchanged_except_collections(*old(self), *final(self))
                },
                Err(e) => {
                    &&& e == StorageError::CollectionNotFound(id)
                    &&& !old(self).collections@.dom().contains(id.0)
                    &&& *final(self) == *old(self)
                },
            },
    {
        let ghost prev = *self;
        match self.collections.position_of(id.0) {
            Some(i) => {
                let c = self.collections.val_at_mut(i);
                c.name = new_name;
                proof {
                    lemma_wf_collection_cosmetic(
                        prev,
                        *self,
                        id.0,
                        (Collection { name: new_name, ..prev.collections@[id.0] }),
                    );
                }
                Ok(())
            },
            None => Err(StorageError::CollectionNotFound(id)),
        }
    }

    /// Renames a tag.
    pub fn rename_tag(&mut self, id: TagId, new_name: String) -> (r: Result<(), StorageError>)
        requires
            old(self).wf(),
        ensures
            final(self).wf(),
            match r {
                Ok(()) => {
                    &&& old(self).tags@.dom().contains(id.0)
                    &&& final(self).tags@ == old(self).tags@.insert(
                        id.0,
                        (Tag { name: new_name, ..old(self).tags@[id.0] }),
                    )
                    &&& unchanged_except_tags(*old(self), *final(self))
                },
                Err(e) => {
                    &&& e == StorageError::TagNotFound(id)
                    &&& !old(self).tags@.dom().contains(id.0)
                    &&& *final(self) == *old(self)
                },
            },
    {
        let ghost prev = *self;
        match self.tags.position_of(id.0) {
            Some(i) => {
                let t = self.tags.val_at_mut(i);
                t.name = new_name;
                proof {
                    lemma_wf_tag_cosmetic(
                        prev,
                        *self,
                        id.0,
                        (Tag { name: new_name, ..prev.tags@[id.0] }),
                    );
                }
                Ok(())
            },
            None => Err(StorageError::TagNotFound(id)),
        }
    }

    /// Changes the provenance note of an asset.
    pub fn modify_src_of(&mut self, id: AssetId, src: String) -> (r: Result<(), StorageError>)
        requires
            old(self).wf(),
        ensures
            final(self).wf(),
            match r {
                Ok(()) => {
                    &&& old(self).assets@.dom().contains(id.0)
                    &&& final(self).assets@ == old(self).assets@.insert(
                        id.0,
                        (Asset { src: src, ..old(self).assets@[id.0] }),
                    )
                    &&& unchanged_except_assets(*old(self), *final(self))
                },
                Err(e) => {
                    &&& e == StorageError::AssetNotFound(id)
                    &&& !old(self).assets@.dom().contains(id.0)
                    &&& *final(self) == *old(self)
                },
            },
    {
        let ghost prev = *self;
        let ghost gsrc = src;
        match self.assets.position_of(id.0) {
            Some(i) => {
                let a = self.assets.val_at_mut(i);
                a.src = src;
                proof {
                    lemma_wf_asset_cosmetic(
                        prev,
                        *self,
                        id.0,
                        (Asset { src: gsrc, ..prev.assets@[id.0] }),
                    );
                }
                Ok(())
            },
            None => Err(StorageError::AssetNotFound(id)),
        }
    }
}


impl Storage {
    /// Creates a fresh, empty, uncolored collection under `parent` and
    /// links it into the parent's child set; returns its new identifier.
    pub fn create_collection(&mut self, name: String, parent: CollectionId) -> (r: Result<
        CollectionId,
        StorageError,
    >)
        requires
            old(self).wf(),
        ensures
            final(self).wf(),
            match r {
                Ok(id) => {
                    &&& old(self).collections@.dom().contains(parent.0)
                    &&& !old(self).collections@.dom().contains(id.0)
                    &&& final(self).collections@.dom() == old(self).collections@.dom().insert(
                        id.0,
                    )
                    &&& final(self).collections@[id.0].id == id
                    &&& final(self).collections@[id.0].name == name
                    &&& final(self).collections@[id.0].parent == Some(parent)
                    &&& final(self).collections@[id.0].color is None
                    &&& !final(self).collections@[id.0].is_deleted
                    &&& final(self).collections@[id.0].children@ == Set::<u128>::empty()
                    &&& final(self).collections@[id.0].content@ == Set::<u128>::empty()
                    &&& final(self).collections@[parent.0].children@
                        == old(self).collections@[parent.0].children@.insert(id.0)
                    &&& (Collection {
                        children: final(self).collections@[parent.0].children,
                        ..final(self).collections@[parent.0]
                    }) == (Collection {
                        children: final(self).collections@[parent.0].children,
                        ..old(self).collections@[parent.0]
                    })
                    &&& forall|c: u128| c != id.0 && c != parent.0
                        ==> final(self).collections@.dom().contains(c)
                            == old(self).collections@.dom().contains(c)
                            && (old(self).collections@.dom().contains(c)
                                ==> #[trigger] final(self).collections@[c]
                                    == old(self).collections@[c])
                    &&& unchanged_except_collections(*old(self), *final(self))
                },
                Err(e) => {
                    &&& e == StorageError::CollectionNotFound(parent)
                    &&& !old(self).collections@.dom().contains(parent.0)
                    &&& *final(self) == *old(self)
                },
            },
    {
        let ghost prev = *self;
        match self.collections.position_of(parent.0) {
            Some(pi) => {
                let idv = fresh_key(&self.collections);
                let p = self.collections.val_at_mut(pi);
                p.children.insert(idv);
                let ghost mid = *self;
                let c = Collection::new(CollectionId(idv), Some(parent), None, name);
                self.collections.insert(idv, c);
                proof {
                    let root = prev.sp_collections.root.0;
                    let cols0 = prev.collections@;
                    let cols2 = self.collections@;
                    assert(cols2.dom() =~= cols0.dom().insert(idv));
                    assert(idv != root);
                    assert forall|p2: u128, c2: u128|
                        cols2.dom().contains(p2)
                            && #[trigger] cols2[p2].children@.contains(c2)
                        implies self.child_link_ok(p2, c2) by {
                        if p2 == idv {
                            assert(cols2[idv].children@ =~= Set::<u128>::empty());
                        } else if p2 == parent.0 {
                            if c2 == idv {
                            } else {
                                assert(cols0[p2].children@.contains(c2));
                                assert(prev.child_link_ok(p2, c2));
                            }
                        } else {
                            assert(cols0[p2].children@.contains(c2));
                            assert(prev.child_link_ok(p2, c2));
                            assert(c2 != idv);
                        }
                    }
                    assert forall|c2: u128| #[trigger] cols2.dom().contains(c2)
                        && !cols2[c2].is_deleted && c2 != root
                        implies {
                            let pp = cols2[c2].parent->Some_0.0;
                            cols2.dom().contains(pp) && cols2[pp].children@.contains(c2)
                        } by {
                        if c2 == idv {
                        } else {
                            assert(cols0.dom().contains(c2));
                            let pp = cols0[c2].parent->Some_0.0;
                            assert(cols0.dom().contains(pp)
                                && cols0[pp].children@.contains(c2));
                        }
                    }
                    assert forall|p2: u128, t2: u128|
                        cols2.dom().contains(p2)
                            && #[trigger] cols2[p2].content@.contains(t2)
                        implies self.tags@.dom().contains(t2)
                            && !self.tags@[t2].is_deleted
                            && self.tags@[t2].parent.0 == p2 by {
                        if p2 == idv {
                            assert(cols2[idv].content@ =~= Set::<u128>::empty());
                        } else {
                            assert(cols0[p2].content@.contains(t2));
                        }
                    }
                    assert forall|t2: u128| #[trigger] self.tags@.dom().contains(t2)
                        && !self.tags@[t2].is_deleted
                        implies {
                            let pp = self.tags@[t2].parent.0;
                            cols2.dom().contains(pp) && cols2[pp].content@.contains(t2)
                        } by {
                        let pp = prev.tags@[t2].parent.0;
                        assert(cols0.dom().contains(pp)
                            && cols0[pp].content@.contains(t2));
                    }
                    assert(final(self).wf());
                }
                Ok(CollectionId(idv))
            },
            None => Err(StorageError::CollectionNotFound(parent)),
        }
    }
}


impl Storage {
    /// Drops any stale group slot holding `id` from every asset's
    /// container.  A freshly drawn identifier is never referenced in
    /// practice, so this is a verified no-op in the common case; it keeps
    /// the container invariant independent of identifier reuse.
    fn drop_stale_grouped(&mut self, id: TagId)
        requires
            old(self).wf(),
        ensures
            final(self).wf(),
            unchanged_except_assets(*old(self), *final(self)),
            final(self).assets@.dom() == old(self).assets@.dom(),
            forall|a: u128| #[trigger] final(self).assets@.dom().contains(a) ==> {
                let a0 = old(self).assets@[a];
                let a1 = final(self).assets@[a];
                &&& (Asset { tags: a1.tags, ..a1 }) == (Asset { tags: a1.tags, ..a0 })
                &&& a1.tags.ungrouped == a0.tags.ungrouped
                &&& (forall|g: u128| #[trigger] a1.tags.grouped@.dom().contains(g)
                        <==> a0.tags.grouped@.dom().contains(g)
                            && a0.tags.grouped@[g] != id)
                &&& (forall|g: u128| #[trigger] a1.tags.grouped@.dom().contains(g)
                        ==> a1.tags.grouped@[g] == a0.tags.grouped@[g])
            },
    {
        let ghost prev = *self;
        let n = self.assets.len();
        let mut i: usize = 0;
        while i < n
            invariant
                prev.wf(),
                self.wf(),
                unchanged_except_assets(prev, *self),
                n == prev.assets.keys_seq().len(),
                i <= n,
                self.assets.keys_seq() == prev.assets.keys_seq(),
                self.assets@.dom() == prev.assets@.dom(),
                forall|j: int| 0 <= j < n ==> {
                    let a0 = prev.assets.spec_val_at(j);
                    let a1 = #[trigger] self.assets.spec_val_at(j);
                    &&& (Asset { tags: a1.tags, ..a1 }) == (Asset { tags: a1.tags, ..a0 })
                    &&& a1.tags.ungrouped == a0.tags.ungrouped
                    &&& (j >= i ==> a1 == a0)
                    &&& (j < i ==> {
                        &&& (forall|g: u128| #[trigger] a1.tags.grouped@.dom().contains(g)
                                <==> a0.tags.grouped@.dom().contains(g)
                                    && a0.tags.grouped@[g] != id)
                        &&& (forall|g: u128| #[trigger] a1.tags.grouped@.dom().contains(g)
                                ==> a1.tags.grouped@[g] == a0.tags.grouped@[g])
                    })
                },
            decreases n - i,
        {
            let ghost pre = *self;
            let a = self.assets.val_at_mut(i);
            a.tags.drop_grouped_value(id);
            proof {
                let key = pre.assets.keys_seq()[i as int];
                assert(self.assets@.dom() =~= pre.assets@.dom());
                assert forall|a2: u128, g: u128|
                    self.assets@.dom().contains(a2)
                        && #[trigger] self.assets@[a2].tags.grouped@.dom().contains(g)
                    implies (self.tags@.dom().contains(self.assets@[a2].tags.grouped@[g].0)
                        ==> self.tags@[self.assets@[a2].tags.grouped@[g].0].group
                            == Some(CollectionId(g))) by {
                    if a2 == key {
                        assert(pre.assets@[a2].tags.grouped@.dom().contains(g));
                        assert(self.assets@[a2].tags.grouped@[g]
                            == pre.assets@[a2].tags.grouped@[g]);
                    } else {
                        assert(self.assets@[a2] == pre.assets@[a2]);
                    }
                }
                assert forall|a2: u128, t2: u128|
                    self.assets@.dom().contains(a2)
                        && #[trigger] self.assets@[a2].tags.ungrouped@.contains(t2)
                        && self.tags@.dom().contains(t2)
                    implies self.tags@[t2].group is None by {
                    if a2 == key {
                        assert(pre.assets@[a2].tags.ungrouped@.contains(t2));
                    } else {
                        assert(self.assets@[a2] == pre.assets@[a2]);
                    }
                }
                assert forall|a2: u128| #[trigger] self.assets@.dom().contains(a2)
                    implies self.assets@[a2].id.0 == a2 && self.assets@[a2].wf() by {
                    if a2 != key {
                        assert(self.assets@[a2] == pre.assets@[a2]);
                    }
                }
                assert forall|a2: u128| #[trigger] self.assets@.dom().contains(a2)
                    implies (self.assets@[a2].is_deleted
                        <==> self.recycle_bin.assets@.contains(a2)) by {
                    if a2 != key {
                        assert(self.assets@[a2] == pre.assets@[a2]);
                    }
                }
                assert forall|a2: u128| #[trigger] self.cache.asset_crc@.dom().contains(a2)
                    implies self.assets@.dom().contains(a2)
                        && !self.assets@[a2].is_deleted by {
                    if a2 != key {
                        assert(self.assets@[a2] == pre.assets@[a2]);
                    }
                }
            }
            i += 1;
        }
        proof {
            assert forall|a: u128| #[trigger] final(self).assets@.dom().contains(a)
                implies {
                    let a0 = prev.assets@[a];
                    let a1 = final(self).assets@[a];
                    &&& (Asset { tags: a1.tags, ..a1 }) == (Asset { tags: a1.tags, ..a0 })
                    &&& a1.tags.ungrouped == a0.tags.ungrouped
                    &&& (forall|g: u128| #[trigger] a1.tags.grouped@.dom().contains(g)
                            <==> a0.tags.grouped@.dom().contains(g)
                                && a0.tags.grouped@[g] != id)
                    &&& (forall|g: u128| #[trigger] a1.tags.grouped@.dom().contains(g)
                            ==> a1.tags.grouped@[g] == a0.tags.grouped@[g])
                } by {
                prev.assets.lemma_dom();
                prev.assets.lemma_index_of(a);
                let j = prev.assets.spec_index_of(a);
                prev.assets.lemma_val_at(j);
                self.assets.lemma_val_at(j);
            }
        }
    }

    /// Creates a fresh tag under `parent` — ungrouped, uncolored, live —
    /// and links it into the parent's content; returns its new identifier.
    pub fn create_tag(&mut self, name: String, parent: CollectionId) -> (r: Result<
        TagId,
        StorageError,
    >)
        requires
            old(self).wf(),
        ensures
            final(self).wf(),
            match r {
                Ok(id) => {
                    &&& old(self).collections@.dom().contains(parent.0)
                    &&& !old(self).tags@.dom().contains(id.0)
                    &&& final(self).tags@.dom() == old(self).tags@.dom().insert(id.0)
                    &&& final(self).tags@[id.0].id == id
                    &&& final(self).tags@[id.0].name == name
                    &&& final(self).tags@[id.0].parent == parent
                    &&& final(self).tags@[id.0].group is None
                    &&& final(self).tags@[id.0].color is None
                    &&& !final(self).tags@[id.0].is_deleted
                    &&& forall|t: u128| t != id.0 && old(self).tags@.dom().contains(t)
                        ==> #[trigger] final(self).tags@[t] == old(self).tags@[t]
                    &&& final(self).collections@[parent.0].content@
                        == old(self).collections@[parent.0].content@.insert(id.0)
                    &&& final(self).collections@.dom() == old(self).collections@.dom()
                    &&& forall|c: u128| c != parent.0 && old(self).collections@.dom().contains(c)
                        ==> #[trigger] final(self).collections@[c] == old(self).collections@[c]
                    &&& final(self).assets@.dom() == old(self).assets@.dom()
                    &&& final(self).cache == old(self).cache
                    &&& final(self).recycle_bin == old(self).recycle_bin
                    &&& final(self).sp_collections == old(self).sp_collections
                    &&& final(self).lib_meta == old(self).lib_meta
                },
                Err(e) => {
                    &&& e == StorageError::CollectionNotFound(parent)
                    &&& !old(self).collections@.dom().contains(parent.0)
                    &&& *final(self) == *old(self)
                },
            },
    {
        let ghost prev = *self;
        match self.collections.position_of(parent.0) {
            Some(pi) => {
                let idv = fresh_key(&self.tags);
                self.drop_stale_grouped(TagId(idv));
                let ghost mid1 = *self;
                let p = self.collections.val_at_mut(pi);
                p.content.insert(idv);
                let ghost mid2 = *self;
                let t = Tag::new(TagId(idv), name, parent);
                self.tags.insert(idv, t);
                proof {
                    let root = prev.sp_collections.root.0;
                    let cols1 = mid1.collections@;
                    let cols2 = self.collections@;
                    let tags2 = self.tags@;
                    assert(cols2.dom() =~= cols1.dom());
                    assert(tags2.dom() =~= mid1.tags@.dom().insert(idv));
                    assert forall|p2: u128, c2: u128|
                        cols2.dom().contains(p2)
                            && #[trigger] cols2[p2].children@.contains(c2)
                        implies self.child_link_ok(p2, c2) by {
                        assert(cols1[p2].children@.contains(c2));
                        assert(mid1.child_link_ok(p2, c2));
                    }
                    assert forall|c2: u128| #[trigger] cols2.dom().contains(c2)
                        && !cols2[c2].is_deleted && c2 != root
                        implies {
                            let pp = cols2[c2].parent->Some_0.0;
                            cols2.dom().contains(pp) && cols2[pp].children@.contains(c2)
                        } by {
                        assert(cols1.dom().contains(c2) && !cols1[c2].is_deleted);
                        let pp = cols1[c2].parent->Some_0.0;
                        assert(cols1.dom().contains(pp)
                            && cols1[pp].children@.contains(c2));
                    }
                    assert forall|p2: u128, t2: u128|
                        cols2.dom().contains(p2)
                            && #[trigger] cols2[p2].content@.contains(t2)
                        implies tags2.dom().contains(t2) && !tags2[t2].is_deleted
                            && tags2[t2].parent.0 == p2 by {
                        if p2 == parent.0 && t2 == idv {
                        } else {
                            assert(cols1[p2].content@.contains(t2));
                            assert(t2 != idv);
                        }
                    }
                    assert forall|t2: u128| #[trigger] tags2.dom().contains(t2)
                        && !tags2[t2].is_deleted
                        implies {
                            let pp = tags2[t2].parent.0;
                            cols2.dom().contains(pp) && cols2[pp].content@.contains(t2)
                        } by {
                        if t2 == idv {
                        } else {
                            let pp = mid1.tags@[t2].parent.0;
                            assert(cols1.dom().contains(pp)
                                && cols1[pp].content@.contains(t2));
                        }
                    }
                    assert forall|t2: u128| #[trigger] self.recycle_bin.tags@.contains(t2)
                        implies tags2.dom().contains(t2) by {
                        assert(mid1.tags@.dom().contains(t2));
                    }
                    assert forall|t2: u128| #[trigger] tags2.dom().contains(t2)
                        implies (tags2[t2].is_deleted
                            <==> self.recycle_bin.tags@.contains(t2)) by {
                        if t2 == idv {
                            assert(!mid1.tags@.dom().contains(idv));
                            assert(!mid1.recycle_bin.tags@.contains(idv));
                        }
                    }
                    assert forall|a2: u128, t2: u128|
                        self.assets@.dom().contains(a2)
                            && #[trigger] self.assets@[a2].tags.ungrouped@.contains(t2)
                            && tags2.dom().contains(t2)
                        implies tags2[t2].group is None by {
                        if t2 != idv {
                            assert(mid1.tags@.dom().contains(t2));
                        }
                    }
                    assert forall|a2: u128, g2: u128|
                        self.assets@.dom().contains(a2)
                            && #[trigger] self.assets@[a2].tags.grouped@.dom().contains(g2)
                        implies (tags2.dom().contains(self.assets@[a2].tags.grouped@[g2].0)
                            ==> tags2[self.assets@[a2].tags.grouped@[g2].0].group
                                == Some(CollectionId(g2))) by {
                        let tv = self.assets@[a2].tags.grouped@[g2];
                        assert(mid1.assets@[a2].tags.grouped@.dom().contains(g2));
                        assert(prev.assets@.dom().contains(a2));
                        assert(mid1.assets@[a2].tags.grouped@[g2]
                            == prev.assets@[a2].tags.grouped@[g2]);
                        assert(prev.assets@[a2].tags.grouped@[g2] != TagId(idv));
                        if tags2.dom().contains(tv.0) && tv.0 != idv {
                            assert(mid1.tags@.dom().contains(tv.0));
                        }
                    }
                    assert(final(self).wf());
                    assert(final(self).tags@.dom() =~= prev.tags@.dom().insert(idv));
                    assert(final(self).collections@[parent.0].content@
                        =~= prev.collections@[parent.0].content@.insert(idv));
                }
                Ok(TagId(idv))
            },
            None => Err(StorageError::CollectionNotFound(parent)),
        }
    }
}


impl Storage {
    /// Recolors a collection and every tag grouped under it; the root is
    /// protected.
    pub fn recolor_collection(&mut self, collection: CollectionId, new_color: Option<Color>) -> (r:
        Result<(), StorageError>)
        requires
            old(self).wf(),
        ensures
            final(self).wf(),
            match r {
                Ok(()) => {
                    &&& collection != old(self).sp_collections.root
                    &&& old(self).collections@.dom().contains(collection.0)
                    &&& final(self).collections@ == old(self).collections@.insert(
                        collection.0,
                        (Collection {
                            color: new_color,
                            ..old(self).collections@[collection.0]
                        }),
                    )
                    &&& final(self).tags@.dom() == old(self).tags@.dom()
                    &&& forall|t: u128| #[trigger] old(self).tags@.dom().contains(t)
                        ==> final(self).tags@[t] == if old(self).tags@[t].group
                                == Some(collection) {
                            (Tag { color: new_color, ..old(self).tags@[t] })
                        } else {
                            old(self).tags@[t]
                        }
                    &&& unchanged_except_collections_and_tags(*old(self), *final(self))
                },
                Err(e) => {
                    &&& *final(self) == *old(self)
                    &&& (e matches StorageError::IllegalCollectionModification(c)
                        ==> c == collection && collection == old(self).sp_collections.root)
                    &&& (e matches StorageError::CollectionNotFound(c)
                        ==> c == collection && collection != old(self).sp_collections.root
                            && !old(self).collections@.dom().contains(collection.0))
                    &&& (e is IllegalCollectionModification || e is CollectionNotFound)
                },
            },
    {
        if self.sp_collections.is_special(collection) {
            return Err(StorageError::IllegalCollectionModification(collection));
        }
        let ghost prev = *self;
        match self.collections.position_of(collection.0) {
            Some(ci) => {
                let c = self.collections.val_at_mut(ci);
                c.color = new_color;
                proof {
                    lemma_wf_collection_cosmetic(
                        prev,
                        *self,
                        collection.0,
                        (Collection { color: new_color, ..prev.collections@[collection.0] }),
                    );
                }
                let ghost mid = *self;
                let n = self.tags.len();
                let mut i: usize = 0;
                while i < n
                    invariant
                        mid.wf(),
                        self.wf(),
                        unchanged_except_tags(mid, *self),
                        n == mid.tags.keys_seq().len(),
                        i <= n,
                        self.tags.keys_seq() == mid.tags.keys_seq(),
                        self.tags@.dom() == mid.tags@.dom(),
                        forall|j: int| 0 <= j < n ==> {
                            let t0 = mid.tags.spec_val_at(j);
                            let t1 = #[trigger] self.tags.spec_val_at(j);
                            &&& (j >= i ==> t1 == t0)
                            &&& (j < i ==> t1 == if t0.group == Some(collection) {
                                (Tag { color: new_color, ..t0 })
                            } else {
                                t0
                            })
                        },
                    decreases n - i,
                {
                    let ghost pre = *self;
                    let t = self.tags.val_at_mut(i);
                    let changed = match t.group {
                        Some(g) => g == collection,
                        None => false,
                    };
                    if changed {
                        t.color = new_color;
                    }
                    proof {
                        let key = pre.tags.keys_seq()[i as int];
                        lemma_wf_tag_cosmetic(pre, *self, key, self.tags@[key]);
                    }
                    i += 1;
                }
                proof {
                    assert forall|t2: u128| #[trigger] prev.tags@.dom().contains(t2)
                        implies final(self).tags@[t2] == if prev.tags@[t2].group
                                == Some(collection) {
                            (Tag { color: new_color, ..prev.tags@[t2] })
                        } else {
                            prev.tags@[t2]
                        } by {
                        mid.tags.lemma_dom();
                        mid.tags.lemma_index_of(t2);
                        let j = mid.tags.spec_index_of(t2);
                        mid.tags.lemma_val_at(j);
                        self.tags.lemma_val_at(j);
                    }
                }
                Ok(())
            },
            None => Err(StorageError::CollectionNotFound(collection)),
        }
    }

    /// Moves a live collection under a new live parent, keeping both sides
    /// of the relation consistent.  Refused: moving the root, a self-move,
    /// and a destination inside the moved subtree (which would close a
    /// cycle — the tree is acyclic).  A soft-deleted collection, on either
    /// side, is treated as not found: binned items stay detached so that
    /// recovery can re-link them where they were.
    pub fn move_collection_to(&mut self, src_id: CollectionId, dst_id: CollectionId) -> (r: Result<
        (),
        StorageError,
    >)
        requires
            old(self).wf(),
        ensures
            final(self).wf(),
            match r {
                Ok(()) => {
                    &&& src_id != old(self).sp_collections.root
                    &&& src_id != dst_id
                    &&& old(self).live_collection(src_id.0)
                    &&& old(self).live_collection(dst_id.0)
                    // the destination is not inside the moved subtree, so
                    // the move cannot close a cycle
                    &&& !parent_reaches(*old(self), dst_id.0, src_id.0)
                    &&& final(self).collections@.dom() == old(self).collections@.dom()
                    &&& final(self).collections@[src_id.0] == (Collection {
                        parent: Some(dst_id),
                        ..old(self).collections@[src_id.0]
                    })
                    &&& final(self).collections@[dst_id.0].children@.contains(src_id.0)
                    &&& ({
                        let p = old(self).collections@[src_id.0].parent->Some_0.0;
                        &&& (p != dst_id.0
                            ==> final(self).collections@[p].children@
                                == old(self).collections@[p].children@.remove(src_id.0)
                            && final(self).collections@[dst_id.0].children@
                                == old(self).collections@[dst_id.0].children@.insert(src_id.0))
                        &&& (p == dst_id.0
                            ==> final(self).collections@[p].children@
                                == old(self).collections@[p].children@)
                        &&& forall|c: u128| c != src_id.0 && c != dst_id.0 && c != p
                                && old(self).collections@.dom().contains(c)
                            ==> #[trigger] final(self).collections@[c]
                                == old(self).collections@[c]
                    })
                    &&& unchanged_except_collections(*old(self), *final(self))
                },
                Err(e) => {
                    &&& *final(self) == *old(self)
                    &&& (e matches StorageError::IllegalCollectionModification(c)
                        ==> c == src_id
                            && (src_id == old(self).sp_collections.root || src_id == dst_id
                                || parent_reaches(*old(self), dst_id.0, src_id.0)))
                    &&& (e matches StorageError::CollectionNotFound(c)
                        ==> src_id != old(self).sp_collections.root && src_id != dst_id
                            && (c == src_id || c == dst_id)
                            && !old(self).live_collection(c.0))
                    &&& (e is IllegalCollectionModification || e is CollectionNotFound)
                },
            },
    {
        if self.sp_collections.is_special(src_id) || src_id == dst_id {
            return Err(StorageError::IllegalCollectionModification(src_id));
        }
        let ghost prev = *self;
        let src_pos = match self.collections.position_of(src_id.0) {
            Some(i) => i,
            None => {
                return Err(StorageError::CollectionNotFound(src_id));
            },
        };
        let src_deleted = self.collections.val_at(src_pos).is_deleted;
        if src_deleted {
            return Err(StorageError::CollectionNotFound(src_id));
        }
        let dst_pos = match self.collections.position_of(dst_id.0) {
            Some(i) => i,
            None => {
                return Err(StorageError::CollectionNotFound(dst_id));
            },
        };
        let dst_deleted = self.collections.val_at(dst_pos).is_deleted;
        if dst_deleted {
            return Err(StorageError::CollectionNotFound(dst_id));
        }
        // Refuse a destination inside the moved subtree: walk the parent
        // links from the destination; finding the source would close a
        // cycle (the tree is acyclic).
        let mut seen: Vec<u128> = Vec::new();
        let mut cur: u128 = dst_id.0;
        let mut walking = true;
        let ghost mut closed: Seq<u128> = Seq::empty();
        while walking
            invariant
                self == old(self),
                prev == *old(self),
                prev.wf(),
                prev.collections@.dom().contains(dst_id.0),
                prev.collections@.dom().contains(src_id.0),
                src_id != prev.sp_collections.root,
                dst_id.0 != src_id.0,
                seen@.no_duplicates(),
                seen@.len() > 0 ==> seen@[0] == dst_id.0,
                seen@.len() == 0 ==> cur == dst_id.0,
                forall|k: int| 0 <= k < seen@.len() ==> {
                    &&& prev.collections@.dom().contains(#[trigger] seen@[k])
                    &&& seen@[k] != src_id.0
                },
                forall|k: int| 0 <= k < seen@.len() - 1
                    ==> prev.collections@[#[trigger] seen@[k]].parent
                        == Some(CollectionId(seen@[k + 1])),
                walking && seen@.len() > 0
                    ==> prev.collections@[seen@[seen@.len() - 1]].parent
                        == Some(CollectionId(cur)),
                walking ==> prev.collections@.dom().contains(cur),
                walking ==> cur != src_id.0,
                // once the walk ends, `closed` is a parent-closed set
                // holding the destination but not the source
                !walking ==> {
                    &&& closed.contains(dst_id.0)
                    &&& !closed.contains(src_id.0)
                    &&& forall|x: u128| #[trigger] closed.contains(x)
                        ==> match prev.collections@[x].parent {
                            Some(pp) => !prev.collections@.dom().contains(pp.0)
                                || closed.contains(pp.0),
                            None => true,
                        }
                },
            decreases prev.collections@.dom().len() - seen@.len()
                + (if walking { 1int } else { 0int }),
        {
            proof {
                seen@.unique_seq_to_set();
                prev.collections.lemma_dom_card();
                vstd::set_lib::lemma_len_subset(seen@.to_set(), prev.collections@.dom());
            }
            if cur == self.sp_collections.root.0 {
                proof {
                    closed = seen@.push(cur);
                    lemma_walk_closed_root(prev, seen@, cur, dst_id.0, src_id.0);
                }
                walking = false;
            } else if vec_contains_u128(&seen, cur) {
                proof {
                    closed = seen@;
                    lemma_walk_closed_repeat(prev, seen@, cur, dst_id.0, src_id.0);
                }
                walking = false;
            } else {
                let ghost oldseen = seen@;
                seen.push(cur);
                proof {
                    assert forall|p2: int, q2: int| 0 <= p2 < q2 < seen@.len()
                        implies seen@[p2] != seen@[q2] by {
                        if q2 == seen@.len() - 1 {
                            assert(seen@[p2] == oldseen[p2]);
                            assert(oldseen.contains(oldseen[p2])) by {
                                assert(oldseen[p2] == oldseen[p2]);
                            }
                        } else {
                            assert(seen@[p2] == oldseen[p2]);
                            assert(seen@[q2] == oldseen[q2]);
                        }
                    }
                    assert forall|k: int| 0 <= k < seen@.len() - 1
                        implies prev.collections@[#[trigger] seen@[k]].parent
                            == Some(CollectionId(seen@[k + 1])) by {
                        if k < oldseen.len() - 1 {
                            assert(seen@[k] == oldseen[k]);
                            assert(seen@[k + 1] == oldseen[k + 1]);
                        } else {
                            assert(seen@[k] == oldseen[oldseen.len() - 1]);
                            assert(seen@[k + 1] == cur);
                        }
                    }
                    assert forall|k: int| 0 <= k < seen@.len() implies {
                        &&& prev.collections@.dom().contains(#[trigger] seen@[k])
                        &&& seen@[k] != src_id.0
                    } by {
                        if k < oldseen.len() {
                            assert(seen@[k] == oldseen[k]);
                        } else {
                            assert(seen@[k] == cur);
                        }
                    }
                    seen@.unique_seq_to_set();
                    vstd::set_lib::lemma_len_subset(
                        seen@.to_set(),
                        prev.collections@.dom(),
                    );
                }
                let col_pos = match self.collections.position_of(cur) {
                    Some(i) => i,
                    None => {
                        proof {
                            assert(false);
                        }
                        0
                    },
                };
                match self.collections.val_at(col_pos).parent {
                    Some(pp) => {
                        if pp.0 == src_id.0 {
                            proof {
                                lemma_walk_found(prev, seen@, dst_id.0, src_id.0);
                            }
                            return Err(StorageError::IllegalCollectionModification(src_id));
                        }
                        if !self.collections.contains_key(pp.0) {
                            proof {
                                closed = seen@;
                                lemma_walk_closed_dangling(
                                    prev,
                                    seen@,
                                    pp.0,
                                    dst_id.0,
                                    src_id.0,
                                );
                            }
                            walking = false;
                        } else {
                            cur = pp.0;
                        }
                    },
                    None => {
                        proof {
                            assert(false);
                        }
                        return Err(StorageError::CollectionNotFound(CollectionId(cur)));
                    },
                }
            }
        }
        proof {
            if parent_reaches(prev, dst_id.0, src_id.0) {
                let path = choose|path: Seq<u128>|
                    #[trigger] parent_path(prev, path) && path.len() >= 1
                        && path[0] == dst_id.0 && path[path.len() - 1] == src_id.0;
                lemma_path_in_closed_set(prev, closed, path);
                assert(closed.contains(src_id.0));
            }
        }
        let parent_id = match self.collections.val_at(src_pos).parent {
            Some(p) => p,
            None => {
                proof {
                    assert(false);
                }
                CollectionId(0)
            },
        };
        let parent_pos = match self.collections.position_of(parent_id.0) {
            Some(i) => i,
            None => {
                proof {
                    assert(false);
                }
                0
            },
        };
        let p = self.collections.val_at_mut(parent_pos);
        p.children.remove(src_id.0);
        let ghost mid1 = *self;
        let d = self.collections.val_at_mut(dst_pos);
        d.children.insert(src_id.0);
        let ghost mid2 = *self;
        let s = self.collections.val_at_mut(src_pos);
        s.parent = Some(dst_id);
        proof {
            let root = prev.sp_collections.root.0;
            let cols0 = prev.collections@;
            let cols3 = self.collections@;
            let pid = parent_id.0;
            assert(cols3.dom() =~= cols0.dom());
            assert(src_id.0 != pid);
            assert forall|p2: u128, c2: u128|
                cols3.dom().contains(p2) && #[trigger] cols3[p2].children@.contains(c2)
                implies self.child_link_ok(p2, c2) by {
                if c2 == src_id.0 {
                    if p2 == dst_id.0 {
                    } else {
                        assert(cols0[p2].children@.contains(c2));
                        assert(prev.child_link_ok(p2, c2));
                        assert(p2 == pid);
                        if pid == dst_id.0 {
                        } else {
                            assert(!cols3[pid].children@.contains(src_id.0));
                        }
                    }
                } else {
                    assert(cols0[p2].children@.contains(c2));
                    assert(prev.child_link_ok(p2, c2));
                }
            }
            assert forall|c2: u128| #[trigger] cols3.dom().contains(c2)
                && !cols3[c2].is_deleted && c2 != root
                implies {
                    let pp = cols3[c2].parent->Some_0.0;
                    cols3.dom().contains(pp) && cols3[pp].children@.contains(c2)
                } by {
                if c2 == src_id.0 {
                    assert(cols3[dst_id.0].children@.contains(src_id.0));
                } else {
                    let pp = cols0[c2].parent->Some_0.0;
                    assert(cols0.dom().contains(pp) && cols0[pp].children@.contains(c2));
                    assert(cols3[c2].parent == cols0[c2].parent);
                    if pp == pid {
                        assert(c2 != src_id.0);
                    }
                }
            }
            assert forall|p2: u128, t2: u128|
                cols3.dom().contains(p2) && #[trigger] cols3[p2].content@.contains(t2)
                implies self.tags@.dom().contains(t2) && !self.tags@[t2].is_deleted
                    && self.tags@[t2].parent.0 == p2 by {
                assert(cols0[p2].content@.contains(t2));
            }
            assert forall|t2: u128| #[trigger] self.tags@.dom().contains(t2)
                && !self.tags@[t2].is_deleted
                implies {
                    let pp = self.tags@[t2].parent.0;
                    cols3.dom().contains(pp) && cols3[pp].content@.contains(t2)
                } by {
                let pp = prev.tags@[t2].parent.0;
                assert(cols0.dom().contains(pp) && cols0[pp].content@.contains(t2));
            }
            assert(final(self).wf());
        }
        Ok(())
    }

    /// Moves a live tag under a new parent collection, keeping the content
    /// listings on both sides consistent.  A soft-deleted tag is treated as
    /// not found: binned tags stay detached so that recovery can re-link
    /// them where they were.
    pub fn move_tag_to(&mut self, src_id: TagId, dst_id: CollectionId) -> (r: Result<
        (),
        StorageError,
    >)
        requires
            old(self).wf(),
        ensures
            final(self).wf(),
            match r {
                Ok(()) => {
                    &&& old(self).tags@.dom().contains(src_id.0)
                    &&& !old(self).tags@[src_id.0].is_deleted
                    &&& old(self).collections@.dom().contains(dst_id.0)
                    &&& final(self).tags@ == old(self).tags@.insert(
                        src_id.0,
                        (Tag { parent: dst_id, ..old(self).tags@[src_id.0] }),
                    )
                    &&& final(self).collections@.dom() == old(self).collections@.dom()
                    &&& ({
                        let p = old(self).tags@[src_id.0].parent.0;
                        &&& (p != dst_id.0
                            ==> final(self).collections@[p].content@
                                == old(self).collections@[p].content@.remove(src_id.0)
                            && final(self).collections@[dst_id.0].content@
                                == old(self).collections@[dst_id.0].content@.insert(src_id.0))
                        &&& (p == dst_id.0
                            ==> final(self).collections@[p].content@
                                == old(self).collections@[p].content@)
                        &&& forall|c: u128| c != dst_id.0 && c != p
                                && old(self).collections@.dom().contains(c)
                            ==> #[trigger] final(self).collections@[c]
                                == old(self).collections@[c]
                    })
                    &&& unchanged_except_collections_and_tags(*old(self), *final(self))
                },
                Err(e) => {
                    &&& *final(self) == *old(self)
                    &&& (e matches StorageError::TagNotFound(t)
                        ==> t == src_id
                            && (!old(self).tags@.dom().contains(src_id.0)
                                || old(self).tags@[src_id.0].is_deleted))
                    &&& (e matches StorageError::CollectionNotFound(c)
                        ==> c == dst_id && old(self).tags@.dom().contains(src_id.0)
                            && !old(self).tags@[src_id.0].is_deleted
                            && !old(self).collections@.dom().contains(dst_id.0))
                    &&& (e is TagNotFound || e is CollectionNotFound)
                },
            },
    {
        let ghost prev = *self;
        let tag_pos = match self.tags.position_of(src_id.0) {
            Some(i) => i,
            None => {
                return Err(StorageError::TagNotFound(src_id));
            },
        };
        if self.tags.val_at(tag_pos).is_deleted {
            return Err(StorageError::TagNotFound(src_id));
        }
        let dst_pos = match self.collections.position_of(dst_id.0) {
            Some(i) => i,
            None => {
                return Err(StorageError::CollectionNotFound(dst_id));
            },
        };
        let parent_id = self.tags.val_at(tag_pos).parent;
        let parent_pos = match self.collections.position_of(parent_id.0) {
            Some(i) => i,
            None => {
                proof {
                    assert(false);
                }
                0
            },
        };
        let p = self.collections.val_at_mut(parent_pos);
        p.content.remove(src_id.0);
        let d = self.collections.val_at_mut(dst_pos);
        d.content.insert(src_id.0);
        let t = self.tags.val_at_mut(tag_pos);
        t.parent = dst_id;
        proof {
            let root = prev.sp_collections.root.0;
            let cols0 = prev.collections@;
            let cols2 = self.collections@;
            let tags2 = self.tags@;
            let pid = parent_id.0;
            assert(cols2.dom() =~= cols0.dom());
            assert(tags2.dom() =~= prev.tags@.dom());
            assert forall|p2: u128, c2: u128|
                cols2.dom().contains(p2) && #[trigger] cols2[p2].children@.contains(c2)
                implies self.child_link_ok(p2, c2) by {
                assert(cols0[p2].children@.contains(c2));
                assert(prev.child_link_ok(p2, c2));
            }
            assert forall|c2: u128| #[trigger] cols2.dom().contains(c2)
                && !cols2[c2].is_deleted && c2 != root
                implies {
                    let pp = cols2[c2].parent->Some_0.0;
                    cols2.dom().contains(pp) && cols2[pp].children@.contains(c2)
                } by {
                let pp = cols0[c2].parent->Some_0.0;
                assert(cols0.dom().contains(pp) && cols0[pp].children@.contains(c2));
            }
            assert forall|p2: u128, t2: u128|
                cols2.dom().contains(p2) && #[trigger] cols2[p2].content@.contains(t2)
                implies tags2.dom().contains(t2) && !tags2[t2].is_deleted
                    && tags2[t2].parent.0 == p2 by {
                if t2 == src_id.0 {
                    if p2 != dst_id.0 {
                        assert(cols0[p2].content@.contains(t2));
                        assert(p2 == pid);
                        if pid != dst_id.0 {
                            assert(!cols2[pid].content@.contains(src_id.0));
                        }
                    }
                } else {
                    assert(cols0[p2].content@.contains(t2));
                }
            }
            assert forall|t2: u128| #[trigger] tags2.dom().contains(t2)
                && !tags2[t2].is_deleted
                implies {
                    let pp = tags2[t2].parent.0;
                    cols2.dom().contains(pp) && cols2[pp].content@.contains(t2)
                } by {
                if t2 == src_id.0 {
                    assert(cols2[dst_id.0].content@.contains(src_id.0));
                } else {
                    let pp = prev.tags@[t2].parent.0;
                    assert(cols0.dom().contains(pp) && cols0[pp].content@.contains(t2));
                    if pp == pid {
                        assert(t2 != src_id.0);
                    }
                }
            }
            assert forall|a2: u128, g2: u128|
                self.assets@.dom().contains(a2)
                    && #[trigger] self.assets@[a2].tags.grouped@.dom().contains(g2)
                implies (tags2.dom().contains(self.assets@[a2].tags.grouped@[g2].0)
                    ==> tags2[self.assets@[a2].tags.grouped@[g2].0].group
                        == Some(CollectionId(g2))) by {
                let tv = self.assets@[a2].tags.grouped@[g2];
                assert(tags2[tv.0].group == prev.tags@[tv.0].group);
            }
            assert(final(self).wf());
        }
        Ok(())
    }
}


impl Storage {
    /// Attaches a tag to an asset.  Mutual exclusion is enforced here: a
    /// grouped tag goes into its group's single slot, and `resolve` decides
    /// a conflict with an incumbent.
    pub fn add_tag_to_asset(
        &mut self,
        asset: AssetId,
        tag: TagId,
        resolve: TagGroupConflictResolve,
    ) -> (r: Result<(), StorageError>)
        requires
            old(self).wf(),
        ensures
            final(self).wf(),
            match r {
                Ok(()) => {
                    &&& old(self).assets@.dom().contains(asset.0)
                    &&& old(self).tags@.dom().contains(tag.0)
                    &&& final(self).assets@.dom() == old(self).assets@.dom()
                    &&& forall|a: u128| a != asset.0 && old(self).assets@.dom().contains(a)
                        ==> #[trigger] final(self).assets@[a] == old(self).assets@[a]
                    &&& ({
                        let a0 = old(self).assets@[asset.0];
                        let a1 = final(self).assets@[asset.0];
                        &&& (Asset { tags: a1.tags, ..a1 }) == (Asset { tags: a1.tags, ..a0 })
                        &&& match old(self).tags@[tag.0].group {
                            Some(g) => {
                                &&& a1.tags.ungrouped == a0.tags.ungrouped
                                &&& if a0.tags.grouped@.dom().contains(g.0)
                                        && resolve is Remove {
                                    a1.tags.grouped == a0.tags.grouped
                                } else {
                                    a1.tags.grouped@ == a0.tags.grouped@.insert(g.0, tag)
                                }
                            },
                            None => a1.tags.ungrouped@ == a0.tags.ungrouped@.insert(tag.0)
                                && a1.tags.grouped == a0.tags.grouped,
                        }
                    })
                    &&& unchanged_except_assets(*old(self), *final(self))
                },
                Err(e) => {
                    &&& *final(self) == *old(self)
                    &&& (e matches StorageError::AssetNotFound(a)
                        ==> a == asset && !old(self).assets@.dom().contains(asset.0))
                    &&& (e matches StorageError::TagNotFound(t)
                        ==> t == tag && old(self).assets@.dom().contains(asset.0)
                            && !old(self).tags@.dom().contains(tag.0))
                    &&& (e is AssetNotFound || e is TagNotFound)
                },
            },
    {
        let ghost prev = *self;
        let asset_pos = match self.assets.position_of(asset.0) {
            Some(i) => i,
            None => {
                return Err(StorageError::AssetNotFound(asset));
            },
        };
        let tag_group = match self.tags.get(tag.0) {
            Some(t) => t.group,
            None => {
                return Err(StorageError::TagNotFound(tag));
            },
        };
        let ghost tv = prev.tags@[tag.0];
        let a = self.assets.val_at_mut(asset_pos);
        // the container reads only the tag's group and identifier
        let tag_stub = Tag {
            is_deleted: false,
            parent: CollectionId(0),
            group: tag_group,
            id: tag,
            name: String::new(),
            color: None,
            meta: crate::meta::Metadata { byte_size: 0, created_at: None, last_modified: 0 },
        };
        a.tags.insert(&tag_stub, resolve);
        proof {
            assert(self.assets@.dom() =~= prev.assets@.dom());
            assert forall|a2: u128, t2: u128|
                self.assets@.dom().contains(a2)
                    && #[trigger] self.assets@[a2].tags.ungrouped@.contains(t2)
                    && self.tags@.dom().contains(t2)
                implies self.tags@[t2].group is None by {
                if a2 != asset.0 {
                    assert(self.assets@[a2] == prev.assets@[a2]);
                } else {
                    if tag_group is None && t2 == tag.0 {
                    } else {
                        assert(prev.assets@[a2].tags.ungrouped@.contains(t2));
                    }
                }
            }
            assert forall|a2: u128, g2: u128|
                self.assets@.dom().contains(a2)
                    && #[trigger] self.assets@[a2].tags.grouped@.dom().contains(g2)
                implies (self.tags@.dom().contains(self.assets@[a2].tags.grouped@[g2].0)
                    ==> self.tags@[self.assets@[a2].tags.grouped@[g2].0].group
                        == Some(CollectionId(g2))) by {
                if a2 != asset.0 {
                    assert(self.assets@[a2] == prev.assets@[a2]);
                } else {
                    match tag_group {
                        Some(g) => {
                            if prev.assets@[a2].tags.grouped@.dom().contains(g.0)
                                && resolve is Remove {
                                assert(prev.assets@[a2].tags.grouped@.dom().contains(g2));
                            } else {
                                if g2 == g.0
                                    && self.assets@[a2].tags.grouped@[g2] == tag {
                                } else {
                                    assert(prev.assets@[a2].tags.grouped@.dom().contains(
                                        g2,
                                    ));
                                }
                            }
                        },
                        None => {
                            assert(prev.assets@[a2].tags.grouped@.dom().contains(g2));
                        },
                    }
                }
            }
            assert forall|a2: u128| #[trigger] self.assets@.dom().contains(a2)
                implies self.assets@[a2].id.0 == a2 && self.assets@[a2].wf()
                    && (self.assets@[a2].is_deleted
                        <==> self.recycle_bin.assets@.contains(a2)) by {
                if a2 != asset.0 {
                    assert(self.assets@[a2] == prev.assets@[a2]);
                }
            }
            assert forall|a2: u128| #[trigger] self.cache.asset_crc@.dom().contains(a2)
                implies self.assets@.dom().contains(a2)
                    && !self.assets@[a2].is_deleted by {
                if a2 != asset.0 {
                    assert(self.assets@[a2] == prev.assets@[a2]);
                }
            }
            assert(final(self).wf());
        }
        Ok(())
    }

    /// Detaches a tag from an asset: a grouped tag frees its group slot, an
    /// ungrouped one leaves the ungrouped set.
    pub fn remove_tag_from_asset(&mut self, asset: AssetId, tag: TagId) -> (r: Result<
        (),
        StorageError,
    >)
        requires
            old(self).wf(),
        ensures
            final(self).wf(),
            match r {
                Ok(()) => {
                    &&& old(self).assets@.dom().contains(asset.0)
                    &&& old(self).tags@.dom().contains(tag.0)
                    &&& final(self).assets@.dom() == old(self).assets@.dom()
                    &&& forall|a: u128| a != asset.0 && old(self).assets@.dom().contains(a)
                        ==> #[trigger] final(self).assets@[a] == old(self).assets@[a]
                    &&& ({
                        let a0 = old(self).assets@[asset.0];
                        let a1 = final(self).assets@[asset.0];
                        &&& (Asset { tags: a1.tags, ..a1 }) == (Asset { tags: a1.tags, ..a0 })
                        &&& match old(self).tags@[tag.0].group {
                            Some(g) => a1.tags.grouped@ == a0.tags.grouped@.remove(g.0)
                                && a1.tags.ungrouped == a0.tags.ungrouped,
                            None => a1.tags.ungrouped@ == a0.tags.ungrouped@.remove(tag.0)
                                && a1.tags.grouped == a0.tags.grouped,
                        }
                    })
                    &&& unchanged_except_assets(*old(self), *final(self))
                },
                Err(e) => {
                    &&& *final(self) == *old(self)
                    &&& (e matches StorageError::AssetNotFound(a)
                        ==> a == asset && !old(self).assets@.dom().contains(asset.0))
                    &&& (e matches StorageError::TagNotFound(t)
                        ==> t == tag && old(self).assets@.dom().contains(asset.0)
                            && !old(self).tags@.dom().contains(tag.0))
                    &&& (e is AssetNotFound || e is TagNotFound)
                },
            },
    {
        let ghost prev = *self;
        let asset_pos = match self.assets.position_of(asset.0) {
            Some(i) => i,
            None => {
                return Err(StorageError::AssetNotFound(asset));
            },
        };
        let tag_group = match self.tags.get(tag.0) {
            Some(t) => t.group,
            None => {
                return Err(StorageError::TagNotFound(tag));
            },
        };
        let a = self.assets.val_at_mut(asset_pos);
        // the container reads only the tag's group and identifier
        let tag_stub = Tag {
            is_deleted: false,
            parent: CollectionId(0),
            group: tag_group,
            id: tag,
            name: String::new(),
            color: None,
            meta: crate::meta::Metadata { byte_size: 0, created_at: None, last_modified: 0 },
        };
        a.tags.remove(&tag_stub);
        proof {
            assert(self.assets@.dom() =~= prev.assets@.dom());
            assert forall|a2: u128, t2: u128|
                self.assets@.dom().contains(a2)
                    && #[trigger] self.assets@[a2].tags.ungrouped@.contains(t2)
                    && self.tags@.dom().contains(t2)
                implies self.tags@[t2].group is None by {
                if a2 != asset.0 {
                    assert(self.assets@[a2] == prev.assets@[a2]);
                } else {
                    assert(prev.assets@[a2].tags.ungrouped@.contains(t2));
                }
            }
            assert forall|a2: u128, g2: u128|
                self.assets@.dom().contains(a2)
                    && #[trigger] self.assets@[a2].tags.grouped@.dom().contains(g2)
                implies (self.tags@.dom().contains(self.assets@[a2].tags.grouped@[g2].0)
                    ==> self.tags@[self.assets@[a2].tags.grouped@[g2].0].group
                        == Some(CollectionId(g2))) by {
                if a2 != asset.0 {
                    assert(self.assets@[a2] == prev.assets@[a2]);
                } else {
                    assert(prev.assets@[a2].tags.grouped@.dom().contains(g2));
                    assert(self.assets@[a2].tags.grouped@[g2]
                        == prev.assets@[a2].tags.grouped@[g2]);
                }
            }
            assert forall|a2: u128| #[trigger] self.assets@.dom().contains(a2)
                implies self.assets@[a2].id.0 == a2 && self.assets@[a2].wf()
                    && (self.assets@[a2].is_deleted
                        <==> self.recycle_bin.assets@.contains(a2)) by {
                if a2 != asset.0 {
                    assert(self.assets@[a2] == prev.assets@[a2]);
                }
            }
            assert forall|a2: u128| #[trigger] self.cache.asset_crc@.dom().contains(a2)
                implies self.assets@.dom().contains(a2)
                    && !self.assets@[a2].is_deleted by {
                if a2 != asset.0 {
                    assert(self.assets@[a2] == prev.assets@[a2]);
                }
            }
            assert(final(self).wf());
        }
        Ok(())
    }
}

/// Tag mutual exclusion: in a well-formed storage, an asset's container
/// holds at most one live tag of any given group.
pub proof fn lemma_tag_mutual_exclusion(
    s: Storage,
    a: u128,
    t1: TagId,
    t2: TagId,
    g: CollectionId,
)
    requires
        s.wf(),
        s.assets@.dom().contains(a),
        s.assets@[a].tags.spec_has_tag(t1),
        s.assets@[a].tags.spec_has_tag(t2),
        s.tags@.dom().contains(t1.0),
        s.tags@.dom().contains(t2.0),
        s.tags@[t1.0].group == Some(g),
        s.tags@[t2.0].group == Some(g),
    ensures
        t1 == t2,
{
    let con = s.assets@[a].tags;
    assert(!con.ungrouped@.contains(t1.0));
    assert(!con.ungrouped@.contains(t2.0));
    let g1 = choose|gg: u128| #[trigger] con.grouped@.dom().contains(gg) && con.grouped@[gg] == t1;
    let g2 = choose|gg: u128| #[trigger] con.grouped@.dom().contains(gg) && con.grouped@[gg] == t2;
    assert(s.tags@[con.grouped@[g1].0].group == Some(CollectionId(g1)));
    assert(s.tags@[con.grouped@[g2].0].group == Some(CollectionId(g2)));
    assert(g1 == g.0 && g2 == g.0);
}


impl Storage {
    /// Changes a tag's group (recoloring it to the new group's color) and
    /// moves its membership on every asset from the old group slot to the
    /// new one, applying `resolve` where the destination is occupied.
    pub fn regroup_tag(
        &mut self,
        id: TagId,
        group: Option<CollectionId>,
        resolve: TagGroupConflictResolve,
    ) -> (r: Result<(), StorageError>)
        requires
            old(self).wf(),
        ensures
            final(self).wf(),
            match r {
                Ok(()) => {
                    &&& old(self).tags@.dom().contains(id.0)
                    &&& (group matches Some(g)
                        ==> old(self).collections@.dom().contains(g.0))
                    &&& ({
                        let new_color = match group {
                            Some(g) => old(self).collections@[g.0].color,
                            None => None,
                        };
                        final(self).tags@ == old(self).tags@.insert(
                            id.0,
                            (Tag { group: group, color: new_color, ..old(self).tags@[id.0] }),
                        )
                    })
                    &&& final(self).assets@.dom() == old(self).assets@.dom()
                    &&& forall|a: u128| #[trigger] old(self).assets@.dom().contains(a) ==> {
                        let a0 = old(self).assets@[a];
                        let a1 = final(self).assets@[a];
                        &&& (Asset { tags: a1.tags, ..a1 }) == (Asset { tags: a1.tags, ..a0 })
                        &&& crate::tags::regroup_rel(
                            a0.tags,
                            a1.tags,
                            old(self).tags@[id.0].group,
                            group,
                            id,
                            resolve,
                        )
                    }
                    &&& final(self).collections == old(self).collections
                    &&& final(self).cache == old(self).cache
                    &&& final(self).recycle_bin == old(self).recycle_bin
                    &&& final(self).sp_collections == old(self).sp_collections
                    &&& final(self).lib_meta == old(self).lib_meta
                },
                Err(e) => {
                    &&& *final(self) == *old(self)
                    &&& (e matches StorageError::TagNotFound(t)
                        ==> t == id && !old(self).tags@.dom().contains(id.0))
                    &&& (e matches StorageError::CollectionNotFound(c)
                        ==> old(self).tags@.dom().contains(id.0)
                            && Some(c) == group && !old(self).collections@.dom().contains(c.0))
                    &&& (e is TagNotFound || e is CollectionNotFound)
                },
            },
    {
        let ghost prev = *self;
        let tag_pos = match self.tags.position_of(id.0) {
            Some(i) => i,
            None => {
                return Err(StorageError::TagNotFound(id));
            },
        };
        let new_color = match group {
            Some(g) => match self.collections.get(g.0) {
                Some(c) => c.color,
                None => {
                    return Err(StorageError::CollectionNotFound(g));
                },
            },
            None => None,
        };
        let ghost old_group = prev.tags@[id.0].group;
        let t = self.tags.val_at_mut(tag_pos);
        let old_group_exec = t.group;
        t.group = group;
        t.color = new_color;
        let ghost mid = *self;
        let n = self.assets.len();
        let mut i: usize = 0;
        proof {
            assert forall|j: int| 0 <= j < n
                implies (#[trigger] self.assets.spec_val_at(j)).wf() by {
                prev.assets.lemma_val_at(j);
            }
        }
        while i < n
            invariant
                prev.wf(),
                old_group_exec == old_group,
                mid.tags@ == prev.tags@.insert(
                    id.0,
                    (Tag {
                        group: group,
                        color: new_color,
                        ..prev.tags@[id.0]
                    }),
                ),
                prev.tags@.dom().contains(id.0),
                self.tags == mid.tags,
                self.tags.wf(),
                self.assets.wf(),
                self.collections == prev.collections,
                self.cache == prev.cache,
                self.recycle_bin == prev.recycle_bin,
                self.sp_collections == prev.sp_collections,
                self.lib_meta == prev.lib_meta,
                n == prev.assets.keys_seq().len(),
                i <= n,
                self.assets.keys_seq() == prev.assets.keys_seq(),
                self.assets@.dom() == prev.assets@.dom(),
                forall|j: int| 0 <= j < n ==> {
                    let a0 = prev.assets.spec_val_at(j);
                    let a1 = #[trigger] self.assets.spec_val_at(j);
                    &&& a1.wf()
                    &&& (Asset { tags: a1.tags, ..a1 }) == (Asset { tags: a1.tags, ..a0 })
                    &&& (j >= i ==> a1 == a0)
                    &&& (j < i ==> crate::tags::regroup_rel(
                        a0.tags,
                        a1.tags,
                        old_group,
                        group,
                        id,
                        resolve,
                    ))
                },
            decreases n - i,
        {
            let a = self.assets.val_at_mut(i);
            a.tags.regroup(old_group_exec, group, id, resolve);
            i += 1;
        }
        proof {
            let tags2 = self.tags@;
            assert(tags2.dom() =~= prev.tags@.dom());
            assert forall|a: u128| #[trigger] self.assets@.dom().contains(a)
                implies self.assets@[a].id.0 == a && self.assets@[a].wf() by {
                prev.assets.lemma_dom();
                prev.assets.lemma_index_of(a);
                let j = prev.assets.spec_index_of(a);
                prev.assets.lemma_val_at(j);
                self.assets.lemma_val_at(j);
            }
            assert forall|a: u128| #[trigger] self.assets@.dom().contains(a)
                implies {
                    let a0 = prev.assets@[a];
                    let a1 = self.assets@[a];
                    &&& (Asset { tags: a1.tags, ..a1 }) == (Asset { tags: a1.tags, ..a0 })
                    &&& crate::tags::regroup_rel(a0.tags, a1.tags, old_group, group, id, resolve)
                } by {
                prev.assets.lemma_dom();
                prev.assets.lemma_index_of(a);
                let j = prev.assets.spec_index_of(a);
                prev.assets.lemma_val_at(j);
                self.assets.lemma_val_at(j);
            }
            // Containers stay consistent: entries of other tags are
            // untouched, and entries of the regrouped tag sit in its new
            // place.
            assert forall|a2: u128, t2: u128|
                self.assets@.dom().contains(a2)
                    && #[trigger] self.assets@[a2].tags.ungrouped@.contains(t2)
                    && tags2.dom().contains(t2)
                implies tags2[t2].group is None by {
                let a0 = prev.assets@[a2];
                let a1 = self.assets@[a2];
                if t2 == id.0 {
                    let held = match old_group {
                        Some(og) => a0.tags.grouped@.dom().contains(og.0)
                            && a0.tags.grouped@[og.0] == id,
                        None => a0.tags.ungrouped@.contains(id.0),
                    };
                    if held {
                        assert(group is None);
                    } else {
                        assert(a1.tags == a0.tags);
                        assert(a0.tags.ungrouped@.contains(id.0));
                        assert(prev.tags@[id.0].group is None);
                        assert(old_group is None);
                        assert(false);
                    }
                } else {
                    assert(a0.tags.ungrouped@.contains(t2));
                    assert(prev.tags@[t2].group is None);
                    assert(tags2[t2] == prev.tags@[t2]);
                }
            }
            assert forall|a2: u128, g2: u128|
                self.assets@.dom().contains(a2)
                    && #[trigger] self.assets@[a2].tags.grouped@.dom().contains(g2)
                implies (tags2.dom().contains(self.assets@[a2].tags.grouped@[g2].0)
                    ==> tags2[self.assets@[a2].tags.grouped@[g2].0].group
                        == Some(CollectionId(g2))) by {
                let a0 = prev.assets@[a2];
                let a1 = self.assets@[a2];
                let tv = a1.tags.grouped@[g2];
                if tags2.dom().contains(tv.0) {
                    let held = match old_group {
                        Some(og) => a0.tags.grouped@.dom().contains(og.0)
                            && a0.tags.grouped@[og.0] == id,
                        None => a0.tags.ungrouped@.contains(id.0),
                    };
                    if tv == id {
                        if held {
                            match group {
                                Some(ng) => {
                                    if g2 != ng.0 {
                                        // The old entry of `id` was removed;
                                        // any remaining slot holding `id`
                                        // would have held it before, under
                                        // the old invariant at its old
                                        // group.
                                        assert(a0.tags.grouped@.dom().contains(g2)
                                            && a0.tags.grouped@[g2] == id);
                                        assert(prev.tags@[id.0].group
                                            == Some(CollectionId(g2)));
                                        assert(old_group == Some(CollectionId(g2)));
                                        assert(false);
                                    }
                                },
                                None => {
                                    assert(a0.tags.grouped@.dom().contains(g2)
                                        && a0.tags.grouped@[g2] == id);
                                    assert(prev.tags@[id.0].group
                                        == Some(CollectionId(g2)));
                                    assert(old_group == Some(CollectionId(g2)));
                                    assert(false);
                                },
                            }
                        } else {
                            assert(a1.tags == a0.tags);
                            assert(a0.tags.grouped@.dom().contains(g2)
                                && a0.tags.grouped@[g2] == id);
                            assert(prev.tags@[id.0].group == Some(CollectionId(g2)));
                            assert(old_group == Some(CollectionId(g2)));
                            assert(a0.tags.grouped@[old_group->Some_0.0] == id);
                            assert(false);
                        }
                    } else {
                        assert(a0.tags.grouped@.dom().contains(g2)
                            && a0.tags.grouped@[g2] == tv);
                        assert(tags2[tv.0] == prev.tags@[tv.0]);
                    }
                }
            }
            assert forall|a2: u128| #[trigger] self.assets@.dom().contains(a2)
                implies (self.assets@[a2].is_deleted
                    <==> self.recycle_bin.assets@.contains(a2)) by {
                let a0 = prev.assets@[a2];
                let a1 = self.assets@[a2];
                assert(a1.is_deleted == a0.is_deleted);
            }
            assert forall|a2: u128| #[trigger] self.cache.asset_crc@.dom().contains(a2)
                implies self.assets@.dom().contains(a2)
                    && !self.assets@[a2].is_deleted by {
                let a0 = prev.assets@[a2];
                let a1 = self.assets@[a2];
                assert(a1.is_deleted == a0.is_deleted);
            }
            assert forall|t2: u128| #[trigger] tags2.dom().contains(t2)
                && !tags2[t2].is_deleted
                implies {
                    let pp = tags2[t2].parent.0;
                    self.collections@.dom().contains(pp)
                        && self.collections@[pp].content@.contains(t2)
                } by {
                assert(tags2[t2].parent == prev.tags@[t2].parent);
                assert(tags2[t2].is_deleted == prev.tags@[t2].is_deleted);
            }
            assert forall|t2: u128| #[trigger] self.recycle_bin.tags@.contains(t2)
                implies tags2.dom().contains(t2) by {}
            assert forall|t2: u128| #[trigger] tags2.dom().contains(t2)
                implies (tags2[t2].is_deleted <==> self.recycle_bin.tags@.contains(t2)) by {
                assert(tags2[t2].is_deleted == prev.tags@[t2].is_deleted);
            }
            assert(final(self).wf());
        }
        Ok(())
    }
}


impl Storage {
    /// Soft-deletes an asset: flags it, removes it from the duplicate
    /// cache (a binned asset no longer counts for duplicate detection) and
    /// records it in the recycle bin.  The backing file stays in place.
    pub fn move_asset_to_recycle_bin(&mut self, id: AssetId) -> (r: Result<(), StorageError>)
        requires
            old(self).wf(),
        ensures
            final(self).wf(),
            match r {
                Ok(()) => {
                    &&& old(self).assets@.dom().contains(id.0)
                    &&& final(self).assets@ == old(self).assets@.insert(
                        id.0,
                        (Asset { is_deleted: true, ..old(self).assets@[id.0] }),
                    )
                    &&& final(self).cache.asset_crc@ == old(self).cache.asset_crc@.remove(id.0)
                    &&& forall|c: u32| #[trigger] final(self).cache.spec_bucket(c)
                        == old(self).cache.spec_bucket(c).remove_value(id)
                    &&& final(self).recycle_bin.assets@
                        == old(self).recycle_bin.assets@.insert(id.0)
                    &&& final(self).recycle_bin.collections == old(self).recycle_bin.collections
                    &&& final(self).recycle_bin.tags == old(self).recycle_bin.tags
                    &&& final(self).collections == old(self).collections
                    &&& final(self).tags == old(self).tags
                    &&& final(self).sp_collections == old(self).sp_collections
                    &&& final(self).lib_meta == old(self).lib_meta
                },
                Err(e) => {
                    &&& e == StorageError::AssetNotFound(id)
                    &&& !old(self).assets@.dom().contains(id.0)
                    &&& *final(self) == *old(self)
                },
            },
    {
        let ghost prev = *self;
        let pos = match self.assets.position_of(id.0) {
            Some(i) => i,
            None => {
                return Err(StorageError::AssetNotFound(id));
            },
        };
        let a = self.assets.val_at_mut(pos);
        a.is_deleted = true;
        self.cache.remove_asset(id);
        self.recycle_bin.assets.insert(id.0);
        proof {
            assert(self.assets@.dom() =~= prev.assets@.dom());
            assert forall|a2: u128| #[trigger] self.assets@.dom().contains(a2)
                implies self.assets@[a2].id.0 == a2 && self.assets@[a2].wf()
                    && (self.assets@[a2].is_deleted
                        <==> self.recycle_bin.assets@.contains(a2)) by {
                if a2 != id.0 {
                    assert(self.assets@[a2] == prev.assets@[a2]);
                }
            }
            assert forall|a2: u128| #[trigger] self.cache.asset_crc@.dom().contains(a2)
                implies self.assets@.dom().contains(a2)
                    && !self.assets@[a2].is_deleted by {
                assert(a2 != id.0);
                assert(self.assets@[a2] == prev.assets@[a2]);
            }
            assert forall|a2: u128, g2: u128|
                self.assets@.dom().contains(a2)
                    && #[trigger] self.assets@[a2].tags.grouped@.dom().contains(g2)
                implies (self.tags@.dom().contains(self.assets@[a2].tags.grouped@[g2].0)
                    ==> self.tags@[self.assets@[a2].tags.grouped@[g2].0].group
                        == Some(CollectionId(g2))) by {
                if a2 != id.0 {
                    assert(self.assets@[a2] == prev.assets@[a2]);
                } else {
                    assert(self.assets@[a2].tags == prev.assets@[a2].tags);
                }
            }
            assert forall|a2: u128, t2: u128|
                self.assets@.dom().contains(a2)
                    && #[trigger] self.assets@[a2].tags.ungrouped@.contains(t2)
                    && self.tags@.dom().contains(t2)
                implies self.tags@[t2].group is None by {
                if a2 != id.0 {
                    assert(self.assets@[a2] == prev.assets@[a2]);
                } else {
                    assert(self.assets@[a2].tags == prev.assets@[a2].tags);
                }
            }
            assert(final(self).wf());
        }
        Ok(())
    }

    /// Recovers one asset from the recycle bin: clears the flag, removes
    /// the bin record and re-registers the given checksum of its (still
    /// untouched) backing file in the cache.  Returns whether the asset
    /// exists; an unknown identifier leaves the storage unchanged.
    pub fn recover_asset(&mut self, id: AssetId, crc: u32) -> (r: bool)
        requires
            old(self).wf(),
        ensures
            final(self).wf(),
            r == old(self).assets@.dom().contains(id.0),
            r ==> {
                &&& final(self).assets@ == old(self).assets@.insert(
                    id.0,
                    (Asset { is_deleted: false, ..old(self).assets@[id.0] }),
                )
                &&& final(self).cache.asset_crc@ == old(self).cache.asset_crc@.insert(id.0, crc)
                &&& final(self).cache.spec_bucket(crc)
                    == old(self).cache.spec_bucket(crc).remove_value(id).push(id)
                &&& (forall|c: u32| c != crc
                    ==> final(self).cache.spec_bucket(c)
                        == old(self).cache.spec_bucket(c).remove_value(id))
                &&& final(self).recycle_bin.assets@
                    == old(self).recycle_bin.assets@.remove(id.0)
                &&& final(self).recycle_bin.collections == old(self).recycle_bin.collections
                &&& final(self).recycle_bin.tags == old(self).recycle_bin.tags
                &&& final(self).collections == old(self).collections
                &&& final(self).tags == old(self).tags
                &&& final(self).sp_collections == old(self).sp_collections
                &&& final(self).lib_meta == old(self).lib_meta
            },
            !r ==> *final(self) == *old(self),
    {
        let ghost prev = *self;
        let pos = match self.assets.position_of(id.0) {
            Some(i) => i,
            None => {
                return false;
            },
        };
        let a = self.assets.val_at_mut(pos);
        a.is_deleted = false;
        self.cache.add_asset(crc, id);
        self.recycle_bin.assets.remove(id.0);
        proof {
            assert(self.assets@.dom() =~= prev.assets@.dom());
            assert forall|a2: u128| #[trigger] self.assets@.dom().contains(a2)
                implies self.assets@[a2].id.0 == a2 && self.assets@[a2].wf()
                    && (self.assets@[a2].is_deleted
                        <==> self.recycle_bin.assets@.contains(a2)) by {
                if a2 != id.0 {
                    assert(self.assets@[a2] == prev.assets@[a2]);
                }
            }
            assert forall|a2: u128| #[trigger] self.cache.asset_crc@.dom().contains(a2)
                implies self.assets@.dom().contains(a2)
                    && !self.assets@[a2].is_deleted by {
                if a2 != id.0 {
                    assert(prev.cache.asset_crc@.dom().contains(a2));
                    assert(self.assets@[a2] == prev.assets@[a2]);
                }
            }
            assert forall|a2: u128, g2: u128|
                self.assets@.dom().contains(a2)
                    && #[trigger] self.assets@[a2].tags.grouped@.dom().contains(g2)
                implies (self.tags@.dom().contains(self.assets@[a2].tags.grouped@[g2].0)
                    ==> self.tags@[self.assets@[a2].tags.grouped@[g2].0].group
                        == Some(CollectionId(g2))) by {
                if a2 != id.0 {
                    assert(self.assets@[a2] == prev.assets@[a2]);
                } else {
                    assert(self.assets@[a2].tags == prev.assets@[a2].tags);
                }
            }
            assert forall|a2: u128, t2: u128|
                self.assets@.dom().contains(a2)
                    && #[trigger] self.assets@[a2].tags.ungrouped@.contains(t2)
                    && self.tags@.dom().contains(t2)
                implies self.tags@[t2].group is None by {
                if a2 != id.0 {
                    assert(self.assets@[a2] == prev.assets@[a2]);
                } else {
                    assert(self.assets@[a2].tags == prev.assets@[a2].tags);
                }
            }
            assert(final(self).wf());
        }
        true
    }

    /// Recovers a batch of assets, each with the checksum re-read from its
    /// backing file, and reports the duplicate groups that recovery
    /// re-introduced among the given checksums.  Unknown identifiers are
    /// skipped.
    pub fn recover_assets(&mut self, items: &Vec<(AssetId, u32)>) -> (r: DuplicateAssets)
        requires
            old(self).wf(),
        ensures
            final(self).wf(),
            final(self).collections == old(self).collections,
            final(self).tags == old(self).tags,
            final(self).sp_collections == old(self).sp_collections,
            final(self).lib_meta == old(self).lib_meta,
            final(self).assets@.dom() == old(self).assets@.dom(),
            forall|j: int| 0 <= j < items@.len()
                && old(self).assets@.dom().contains((#[trigger] items@[j]).0.0)
                ==> !final(self).assets@[items@[j].0.0].is_deleted
                    && !final(self).recycle_bin.assets@.contains(items@[j].0.0),
            // the re-read checksum of each recovered asset is registered
            // (its last listed checksum, should an identifier repeat)
            forall|j: int| 0 <= j < items@.len()
                && old(self).assets@.dom().contains((#[trigger] items@[j]).0.0)
                && (forall|k: int| j < k < items@.len() ==> items@[k].0 != items@[j].0)
                ==> final(self).cache.asset_crc@.dom().contains(items@[j].0.0)
                    && final(self).cache.asset_crc@[items@[j].0.0] == items@[j].1,
            r.0.wf(),
            // the report holds exactly the recovered checksums that now
            // have more than one sharer — never an unrelated group
            forall|c: u128| #[trigger] r.0@.dom().contains(c)
                ==> c <= u32::MAX as u128
                    && final(self).cache.crc_lookup@.dom().contains(c)
                    && final(self).cache.crc_lookup@[c]@.len() > 1
                    && r.0@[c]@ == final(self).cache.crc_lookup@[c]@
                    && exists|j: int| 0 <= j < items@.len()
                        && old(self).assets@.dom().contains((#[trigger] items@[j]).0.0)
                        && items@[j].1 as u128 == c,
            forall|j: int| 0 <= j < items@.len()
                && old(self).assets@.dom().contains((#[trigger] items@[j]).0.0)
                ==> {
                    let c = items@[j].1 as u128;
                    (final(self).cache.crc_lookup@.dom().contains(c)
                        && final(self).cache.crc_lookup@[c]@.len() > 1)
                        ==> r.0@.dom().contains(c)
                },
    {
        let ghost prev = *self;
        let n = items.len();
        let mut crcs: Vec<u32> = Vec::new();
        let mut i: usize = 0;
        while i < n
            invariant
                n == items@.len(),
                i <= n,
                self.wf(),
                self.collections == prev.collections,
                self.tags == prev.tags,
                self.sp_collections == prev.sp_collections,
                self.lib_meta == prev.lib_meta,
                self.assets@.dom() == prev.assets@.dom(),
                forall|j: int| 0 <= j < i
                    && prev.assets@.dom().contains((#[trigger] items@[j]).0.0)
                    ==> !self.assets@[items@[j].0.0].is_deleted,
                forall|j: int| 0 <= j < i
                    && prev.assets@.dom().contains((#[trigger] items@[j]).0.0)
                    && (forall|k: int| j < k < i ==> items@[k].0 != items@[j].0)
                    ==> self.cache.asset_crc@.dom().contains(items@[j].0.0)
                        && self.cache.asset_crc@[items@[j].0.0] == items@[j].1,
                forall|j: int| 0 <= j < i
                    && prev.assets@.dom().contains((#[trigger] items@[j]).0.0)
                    ==> crcs@.contains(items@[j].1),
                forall|c: u32| #[trigger] crcs@.contains(c)
                    ==> exists|j: int| 0 <= j < i
                        && prev.assets@.dom().contains((#[trigger] items@[j]).0.0)
                        && items@[j].1 == c,
            decreases n - i,
        {
            let (id, crc) = items[i];
            let ghost pre_crcs = crcs@;
            let recovered = self.recover_asset(id, crc);
            if recovered {
                crcs.push(crc);
            }
            proof {
                assert forall|j: int|
                    0 <= j < i + 1 && prev.assets@.dom().contains((#[trigger] items@[j]).0.0)
                    implies !self.assets@[items@[j].0.0].is_deleted by {
                    if j < i {
                        if items@[j].0.0 == id.0 {
                        }
                    }
                }
                assert forall|j: int|
                    0 <= j < i + 1
                        && prev.assets@.dom().contains((#[trigger] items@[j]).0.0)
                        && (forall|k: int| j < k < i + 1 ==> items@[k].0 != items@[j].0)
                    implies self.cache.asset_crc@.dom().contains(items@[j].0.0)
                        && self.cache.asset_crc@[items@[j].0.0] == items@[j].1 by {
                    if j < i {
                        assert(items@[i as int].0 != items@[j].0);
                    }
                }
                assert forall|j: int|
                    0 <= j < i + 1 && prev.assets@.dom().contains((#[trigger] items@[j]).0.0)
                    implies crcs@.contains(items@[j].1) by {
                    if j < i {
                        assert(pre_crcs.contains(items@[j].1));
                        let q = choose|q: int|
                            0 <= q < pre_crcs.len() && pre_crcs[q] == items@[j].1;
                        assert(crcs@[q] == items@[j].1);
                    } else {
                        assert(recovered);
                        assert(crcs@[crcs@.len() - 1] == crc);
                    }
                }
                assert forall|c: u32| #[trigger] crcs@.contains(c)
                    implies exists|j: int| 0 <= j < i + 1
                        && prev.assets@.dom().contains((#[trigger] items@[j]).0.0)
                        && items@[j].1 == c by {
                    let q = choose|q: int| 0 <= q < crcs@.len() && crcs@[q] == c;
                    if q < pre_crcs.len() {
                        assert(pre_crcs[q] == c);
                        assert(pre_crcs.contains(c));
                    } else {
                        assert(c == crc && recovered);
                        assert(prev.assets@.dom().contains(items@[i as int].0.0));
                    }
                }
            }
            i += 1;
        }
        let groups = self.cache.get_duplications(&crcs);
        proof {
            assert forall|j: int|
                0 <= j < items@.len()
                    && prev.assets@.dom().contains((#[trigger] items@[j]).0.0)
                implies {
                    let c = items@[j].1 as u128;
                    (final(self).cache.crc_lookup@.dom().contains(c)
                        && final(self).cache.crc_lookup@[c]@.len() > 1)
                        ==> groups@.dom().contains(c)
                } by {
                assert(crcs@.contains(items@[j].1));
            }
        }
        DuplicateAssets(groups)
    }

    /// Hard-deletes an asset: removes it from the asset map, the cache and
    /// the recycle bin.  The caller unlinks the backing file.
    #[verifier::spinoff_prover]
    #[verifier::rlimit(40)]
    pub fn delete_asset(&mut self, id: AssetId) -> (r: Result<(), StorageError>)
        requires
            old(self).wf(),
        ensures
            final(self).wf(),
            match r {
                Ok(()) => {
                    &&& old(self).assets@.dom().contains(id.0)
                    &&& final(self).assets@ == old(self).assets@.remove(id.0)
                    &&& final(self).cache.asset_crc@ == old(self).cache.asset_crc@.remove(id.0)
                    &&& forall|c: u32| #[trigger] final(self).cache.spec_bucket(c)
                        == old(self).cache.spec_bucket(c).remove_value(id)
                    &&& final(self).recycle_bin.assets@
                        == old(self).recycle_bin.assets@.remove(id.0)
                    &&& final(self).recycle_bin.collections == old(self).recycle_bin.collections
                    &&& final(self).recycle_bin.tags == old(self).recycle_bin.tags
                    &&& final(self).collections == old(self).collections
                    &&& final(self).tags == old(self).tags
                    &&& final(self).sp_collections == old(self).sp_collections
                    &&& final(self).lib_meta == old(self).lib_meta
                },
                Err(e) => {
                    &&& e == StorageError::AssetNotFound(id)
                    &&& !old(self).assets@.dom().contains(id.0)
                    &&& *final(self) == *old(self)
                },
            },
    {
        let ghost prev = *self;
        if !self.assets.contains_key(id.0) {
            return Err(StorageError::AssetNotFound(id));
        }
        self.assets.remove(id.0);
        self.cache.remove_asset(id);
        self.recycle_bin.assets.remove(id.0);
        proof {
            assert(self.assets@.dom() =~= prev.assets@.dom().remove(id.0));
            assert forall|a2: u128| #[trigger] self.cache.asset_crc@.dom().contains(a2)
                implies self.assets@.dom().contains(a2)
                    && !self.assets@[a2].is_deleted by {
                assert(prev.cache.asset_crc@.dom().contains(a2));
                assert(a2 != id.0);
                assert(self.assets@[a2] == prev.assets@[a2]);
            }
            assert(final(self).wf());
        }
        Ok(())
    }

    /// Hard-deletes a tag: removes it from the tag map, its parent's
    /// content listing and the recycle bin.  References to it left in asset
    /// containers become dangling and are ignored by every query.
    pub fn delete_tag(&mut self, id: TagId) -> (r: Result<(), StorageError>)
        requires
            old(self).wf(),
        ensures
            final(self).wf(),
            match r {
                Ok(()) => {
                    &&& old(self).tags@.dom().contains(id.0)
                    &&& final(self).tags@ == old(self).tags@.remove(id.0)
                    &&& final(self).recycle_bin.tags@
                        == old(self).recycle_bin.tags@.remove(id.0)
                    &&& final(self).recycle_bin.assets == old(self).recycle_bin.assets
                    &&& final(self).recycle_bin.collections == old(self).recycle_bin.collections
                    &&& final(self).collections@.dom() == old(self).collections@.dom()
                    &&& ({
                        let p = old(self).tags@[id.0].parent.0;
                        &&& (old(self).collections@.dom().contains(p)
                            ==> final(self).collections@[p].content@
                                == old(self).collections@[p].content@.remove(id.0))
                        &&& forall|c: u128| c != p && old(self).collections@.dom().contains(c)
                            ==> #[trigger] final(self).collections@[c]
                                == old(self).collections@[c]
                    })
                    &&& final(self).assets == old(self).assets
                    &&& final(self).cache == old(self).cache
                    &&& final(self).sp_collections == old(self).sp_collections
                    &&& final(self).lib_meta == old(self).lib_meta
                },
                Err(e) => {
                    &&& e == StorageError::TagNotFound(id)
                    &&& !old(self).tags@.dom().contains(id.0)
                    &&& *final(self) == *old(self)
                },
            },
    {
        let ghost prev = *self;
        let parent = match self.tags.get(id.0) {
            Some(t) => t.parent,
            None => {
                return Err(StorageError::TagNotFound(id));
            },
        };
        self.tags.remove(id.0);
        match self.collections.position_of(parent.0) {
            Some(pi) => {
                let p = self.collections.val_at_mut(pi);
                p.content.remove(id.0);
            },
            None => {},
        }
        self.recycle_bin.tags.remove(id.0);
        proof {
            let tags2 = self.tags@;
            let cols0 = prev.collections@;
            let cols2 = self.collections@;
            assert(tags2.dom() =~= prev.tags@.dom().remove(id.0));
            assert(cols2.dom() =~= cols0.dom());
            assert forall|p2: u128, c2: u128|
                cols2.dom().contains(p2) && #[trigger] cols2[p2].children@.contains(c2)
                implies self.child_link_ok(p2, c2) by {
                assert(cols0[p2].children@.contains(c2));
                assert(prev.child_link_ok(p2, c2));
            }
            assert forall|c2: u128| #[trigger] cols2.dom().contains(c2)
                && !cols2[c2].is_deleted && c2 != prev.sp_collections.root.0
                implies {
                    let pp = cols2[c2].parent->Some_0.0;
                    cols2.dom().contains(pp) && cols2[pp].children@.contains(c2)
                } by {
                let pp = cols0[c2].parent->Some_0.0;
                assert(cols0.dom().contains(pp) && cols0[pp].children@.contains(c2));
            }
            assert forall|p2: u128, t2: u128|
                cols2.dom().contains(p2) && #[trigger] cols2[p2].content@.contains(t2)
                implies tags2.dom().contains(t2) && !tags2[t2].is_deleted
                    && tags2[t2].parent.0 == p2 by {
                assert(cols0[p2].content@.contains(t2));
                assert(t2 != id.0) by {
                    if t2 == id.0 {
                        assert(prev.tags@[id.0].parent.0 == p2);
                        assert(!cols2[p2].content@.contains(id.0));
                    }
                }
            }
            assert forall|t2: u128| #[trigger] tags2.dom().contains(t2)
                && !tags2[t2].is_deleted
                implies {
                    let pp = tags2[t2].parent.0;
                    cols2.dom().contains(pp) && cols2[pp].content@.contains(t2)
                } by {
                let pp = prev.tags@[t2].parent.0;
                assert(cols0.dom().contains(pp) && cols0[pp].content@.contains(t2));
                assert(t2 != id.0);
            }
            assert forall|a2: u128, g2: u128|
                self.assets@.dom().contains(a2)
                    && #[trigger] self.assets@[a2].tags.grouped@.dom().contains(g2)
                implies (tags2.dom().contains(self.assets@[a2].tags.grouped@[g2].0)
                    ==> tags2[self.assets@[a2].tags.grouped@[g2].0].group
                        == Some(CollectionId(g2))) by {
                let tv = self.assets@[a2].tags.grouped@[g2];
                if tags2.dom().contains(tv.0) {
                    assert(prev.tags@.dom().contains(tv.0));
                }
            }
            assert(final(self).wf());
        }
        Ok(())
    }
}

/// Soft-delete then recover is an identity on the asset and its cache
/// membership: starting from a well-formed storage holding a live asset
/// whose cached checksum is `crc`, soft-deleting it and recovering it with
/// that same checksum (the backing file was never moved) yields the same
/// asset record, the same recycle-bin state and the same cache contents.
pub proof fn lemma_soft_delete_recover_restores(
    s0: Storage,
    s1: Storage,
    s2: Storage,
    id: AssetId,
    crc: u32,
)
    requires
        s0.wf(),
        s0.assets@.dom().contains(id.0),
        s0.cache.asset_crc@.dom().contains(id.0),
        s0.cache.asset_crc@[id.0] == crc,
        // s1 is s0 after the soft delete, as move_asset_to_recycle_bin ensures
        s1.assets@ == s0.assets@.insert(id.0, (Asset { is_deleted: true, ..s0.assets@[id.0] })),
        s1.cache.asset_crc@ == s0.cache.asset_crc@.remove(id.0),
        forall|c: u32| #[trigger] s1.cache.spec_bucket(c)
            == s0.cache.spec_bucket(c).remove_value(id),
        s1.recycle_bin.assets@ == s0.recycle_bin.assets@.insert(id.0),
        // s2 is s1 after the recovery, as recover_asset ensures
        s2.assets@ == s1.assets@.insert(id.0, (Asset { is_deleted: false, ..s1.assets@[id.0] })),
        s2.cache.asset_crc@ == s1.cache.asset_crc@.insert(id.0, crc),
        s2.cache.spec_bucket(crc) == s1.cache.spec_bucket(crc).remove_value(id).push(id),
        forall|c: u32| c != crc
            ==> #[trigger] s2.cache.spec_bucket(c) == s1.cache.spec_bucket(c).remove_value(id),
        s2.recycle_bin.assets@ == s1.recycle_bin.assets@.remove(id.0),
    ensures
        s2.assets@ =~= s0.assets@,
        s2.cache.asset_crc@ =~= s0.cache.asset_crc@,
        s2.recycle_bin.assets@ =~= s0.recycle_bin.assets@,
        forall|c: u32, x: AssetId| #[trigger] s2.cache.spec_bucket(c).contains(x)
            <==> s0.cache.spec_bucket(c).contains(x),
{
    assert(!s0.assets@[id.0].is_deleted);
    assert(!s0.recycle_bin.assets@.contains(id.0));
    assert(s2.assets@ =~= s0.assets@) by {
        assert(s2.assets@[id.0] == s0.assets@[id.0]);
    }
    assert(s0.cache.spec_bucket(crc).contains(id)) by {
        let c0 = crc as u128;
        assert(s0.cache.crc_lookup@.dom().contains(c0));
    }
    assert forall|c: u32, x: AssetId| #[trigger] s2.cache.spec_bucket(c).contains(x)
        <==> s0.cache.spec_bucket(c).contains(x) by {
        let b0 = s0.cache.spec_bucket(c);
        let b1 = s1.cache.spec_bucket(c);
        b0.index_of_first_ensures(id);
        b1.index_of_first_ensures(id);
        if c == crc {
            let b2 = s2.cache.spec_bucket(c);
            assert(b2 == b1.remove_value(id).push(id));
            assert forall|x2: AssetId| #[trigger] b2.contains(x2) implies b0.contains(x2) by {
                if x2 == id {
                } else {
                    let j = choose|j: int| 0 <= j < b2.len() && b2[j] == x2;
                    if j < b2.len() - 1 {
                        assert(b1.remove_value(id)[j] == x2);
                        lemma_remove_value_contains(b1, id, x2);
                        assert(b0.remove_value(id).contains(x2)
                            || b1.contains(x2));
                        if b1.contains(x2) {
                            lemma_remove_value_contains(b0, id, x2);
                        }
                    }
                }
            }
            assert forall|x2: AssetId| #[trigger] b0.contains(x2) implies b2.contains(x2) by {
                if x2 == id {
                    assert(b2[b2.len() - 1] == id);
                } else {
                    lemma_remove_value_keeps(b0, id, x2);
                    assert(b1.contains(x2));
                    lemma_remove_value_keeps(b1, id, x2);
                    let j = choose|j: int|
                        0 <= j < b1.remove_value(id).len() && b1.remove_value(id)[j] == x2;
                    assert(b2[j] == x2);
                }
            }
        } else {
            assert(s2.cache.spec_bucket(c) == b1.remove_value(id));
            assert(b1 == b0.remove_value(id));
            assert forall|x2: AssetId| #[trigger] s2.cache.spec_bucket(c).contains(x2)
                implies b0.contains(x2) by {
                lemma_remove_value_contains(b1, id, x2);
                lemma_remove_value_contains(b0, id, x2);
            }
            assert forall|x2: AssetId| #[trigger] b0.contains(x2)
                implies s2.cache.spec_bucket(c).contains(x2) by {
                assert(x2 != id) by {
                    if x2 == id {
                        assert(s0.cache.cache_wf());
                        assert(s0.cache.crc_lookup@.dom().contains(c as u128));
                        assert(s0.cache.asset_crc@[id.0] as u128 == c as u128);
                    }
                }
                lemma_remove_value_keeps(b0, id, x2);
                lemma_remove_value_keeps(b1, id, x2);
            }
        }
    }
}

/// Whatever a sequence holds after `remove_value`, it held before.
proof fn lemma_remove_value_contains(s: Seq<AssetId>, v: AssetId, x: AssetId)
    ensures
        s.remove_value(v).contains(x) ==> s.contains(x),
{
    s.index_of_first_ensures(v);
    if s.remove_value(v).contains(x) {
        match s.index_of_first(v) {
            Some(i) => {
                s.remove_ensures(i);
                let j = choose|j: int|
                    0 <= j < s.remove(i).len() && #[trigger] s.remove(i)[j] == x;
                let j0: int = if j < i { j } else { j + 1 };
                assert(s[j0] == x);
            },
            None => {},
        }
    }
}

/// Other values survive `remove_value`.
proof fn lemma_remove_value_keeps(s: Seq<AssetId>, v: AssetId, x: AssetId)
    requires
        x != v,
        s.contains(x),
    ensures
        s.remove_value(v).contains(x),
{
    s.index_of_first_ensures(v);
    match s.index_of_first(v) {
        Some(i) => {
            s.remove_ensures(i);
            let j0 = choose|j: int| 0 <= j < s.len() && s[j] == x;
            assert(j0 != i);
            let j: int = if j0 < i { j0 } else { j0 - 1 };
            assert(s.remove(i)[j] == x);
        },
        None => {},
    }
}


/// Tree integrity: an active non-root collection appears in exactly one
/// parent's child set, and that parent's identifier is the one its own
/// parent pointer names.
pub proof fn lemma_tree_integrity(s: Storage, c: u128, p1: u128, p2: u128)
    requires
        s.wf(),
        s.collections@.dom().contains(p1),
        s.collections@.dom().contains(p2),
        s.collections@[p1].children@.contains(c),
        s.collections@[p2].children@.contains(c),
    ensures
        p1 == p2,
        s.collections@[c].parent == Some(CollectionId(p1)),
        s.collections@.dom().contains(c),
        !s.collections@[c].is_deleted,
{
    assert(s.child_link_ok(p1, c));
    assert(s.child_link_ok(p2, c));
}

/// The other half of tree integrity: every active non-root collection is
/// listed by the parent its pointer names.
pub proof fn lemma_tree_attachment(s: Storage, c: u128)
    requires
        s.wf(),
        s.collections@.dom().contains(c),
        !s.collections@[c].is_deleted,
        c != s.sp_collections.root.0,
    ensures
        s.collections@[c].parent is Some,
        s.collections@.dom().contains(s.collections@[c].parent->Some_0.0),
        s.collections@[s.collections@[c].parent->Some_0.0].children@.contains(c),
{
}

/// A walk up parent links: `anc[0]` is `start`, each later element is the
/// previous one's parent, and every element is a present non-root
/// collection.
pub open spec fn ancestor_chain(s: Storage, start: u128, anc: Seq<u128>) -> bool {
    &&& (anc.len() > 0 ==> anc[0] == start)
    &&& (forall|i: int| 0 <= i < anc.len() ==> {
        &&& s.collections@.dom().contains(#[trigger] anc[i])
        &&& anc[i] != s.sp_collections.root.0
    })
    &&& (forall|i: int| 0 <= i < anc.len() - 1
        ==> s.collections@[#[trigger] anc[i]].parent == Some(CollectionId(anc[i + 1])))
}

/// The link that follows a chain: the last element's parent, or `start`
/// itself for an empty chain.
pub open spec fn chain_next(s: Storage, start: u128, anc: Seq<u128>) -> u128 {
    if anc.len() == 0 {
        start
    } else {
        s.collections@[anc[anc.len() - 1]].parent->Some_0.0
    }
}

/// A path of parent links: each later element is the previous one's
/// parent, every element present.
pub open spec fn parent_path(s: Storage, path: Seq<u128>) -> bool {
    &&& (forall|i: int| 0 <= i < path.len()
        ==> s.collections@.dom().contains(#[trigger] path[i]))
    &&& (forall|i: int| 0 <= i < path.len() - 1
        ==> s.collections@[#[trigger] path[i]].parent == Some(CollectionId(path[i + 1])))
}

/// Whether following parent links from `from` ever reaches `target`.
pub open spec fn parent_reaches(s: Storage, from: u128, target: u128) -> bool {
    exists|path: Seq<u128>| #[trigger] parent_path(s, path) && path.len() >= 1
        && path[0] == from && path[path.len() - 1] == target
}

/// A parent path starting inside a parent-closed set stays inside it:
/// parent links are a function, so the walk is determined.
proof fn lemma_path_in_closed_set(s: Storage, w: Seq<u128>, path: Seq<u128>)
    requires
        parent_path(s, path),
        path.len() >= 1,
        w.contains(path[0]),
        forall|x: u128| #[trigger] w.contains(x) ==> match s.collections@[x].parent {
            Some(p) => !s.collections@.dom().contains(p.0) || w.contains(p.0),
            None => true,
        },
    ensures
        forall|i: int| 0 <= i < path.len() ==> w.contains(#[trigger] path[i]),
    decreases path.len(),
{
    if path.len() > 1 {
        assert(s.collections@[path[0]].parent == Some(CollectionId(path[1])));
        assert(s.collections@.dom().contains(path[1]));
        assert(w.contains(path[1]));
        let rest = path.drop_first();
        assert(parent_path(s, rest)) by {
            assert forall|i: int| 0 <= i < rest.len()
                implies s.collections@.dom().contains(#[trigger] rest[i]) by {
                assert(rest[i] == path[i + 1]);
            }
            assert forall|i: int| 0 <= i < rest.len() - 1
                implies s.collections@[#[trigger] rest[i]].parent
                    == Some(CollectionId(rest[i + 1])) by {
                assert(rest[i] == path[i + 1]);
                assert(rest[i + 1] == path[i + 2]);
            }
        }
        lemma_path_in_closed_set(s, w, rest);
        assert forall|i: int| 0 <= i < path.len()
            implies w.contains(#[trigger] path[i]) by {
            if i > 0 {
                assert(rest[i - 1] == path[i]);
                assert(w.contains(rest[i - 1]));
            }
        }
    }
}

/// The parent walk ended at the root: together they form a parent-closed
/// set holding the walk's start but not `src`.
proof fn lemma_walk_closed_root(s: Storage, seen: Seq<u128>, root: u128, dst: u128, src: u128)
    requires
        s.wf(),
        root == s.sp_collections.root.0,
        src != root,
        seen.len() > 0 ==> seen[0] == dst,
        seen.len() == 0 ==> root == dst,
        forall|k: int| 0 <= k < seen.len() ==> {
            &&& s.collections@.dom().contains(#[trigger] seen[k])
            &&& seen[k] != src
        },
        forall|k: int| 0 <= k < seen.len() - 1
            ==> s.collections@[#[trigger] seen[k]].parent == Some(CollectionId(seen[k + 1])),
        seen.len() > 0
            ==> s.collections@[seen[seen.len() - 1]].parent == Some(CollectionId(root)),
    ensures
        ({
            let closed = seen.push(root);
            &&& closed.contains(dst)
            &&& !closed.contains(src)
            &&& forall|x: u128| #[trigger] closed.contains(x)
                ==> match s.collections@[x].parent {
                    Some(pp) => !s.collections@.dom().contains(pp.0)
                        || closed.contains(pp.0),
                    None => true,
                }
        }),
{
    let closed = seen.push(root);
    assert(closed[0] == dst);
    assert(closed.contains(dst)) by {
        assert(closed[0] == dst);
    }
    assert(!closed.contains(src)) by {
        if closed.contains(src) {
            let k = choose|k: int| 0 <= k < closed.len() && closed[k] == src;
            if k < seen.len() {
                assert(seen[k] == src);
            }
        }
    }
    assert forall|x: u128| #[trigger] closed.contains(x)
        implies match s.collections@[x].parent {
            Some(pp) => !s.collections@.dom().contains(pp.0) || closed.contains(pp.0),
            None => true,
        } by {
        let k = choose|k: int| 0 <= k < closed.len() && closed[k] == x;
        if k < seen.len() - 1 {
            assert(closed[k] == seen[k]);
            assert(s.collections@[x].parent == Some(CollectionId(seen[k + 1])));
            assert(closed[k + 1] == seen[k + 1]);
            assert(closed.contains(seen[k + 1])) by {
                assert(closed[k + 1] == seen[k + 1]);
            }
        } else if k == seen.len() - 1 && seen.len() > 0 {
            assert(s.collections@[x].parent == Some(CollectionId(root)));
            assert(closed[closed.len() - 1] == root);
            assert(closed.contains(root)) by {
                assert(closed[closed.len() - 1] == root);
            }
        } else {
            assert(x == root);
            assert(s.collections@[root].parent is None);
        }
    }
}

/// The parent walk revisited a node: the visited nodes form a parent-closed
/// set holding the walk's start but not `src`.
proof fn lemma_walk_closed_repeat(s: Storage, seen: Seq<u128>, cur: u128, dst: u128, src: u128)
    requires
        seen.contains(cur),
        seen.len() > 0 ==> seen[0] == dst,
        forall|k: int| 0 <= k < seen.len() ==> {
            &&& s.collections@.dom().contains(#[trigger] seen[k])
            &&& seen[k] != src
        },
        forall|k: int| 0 <= k < seen.len() - 1
            ==> s.collections@[#[trigger] seen[k]].parent == Some(CollectionId(seen[k + 1])),
        s.collections@[seen[seen.len() - 1]].parent == Some(CollectionId(cur)),
    ensures
        seen.contains(dst),
        !seen.contains(src),
        forall|x: u128| #[trigger] seen.contains(x)
            ==> match s.collections@[x].parent {
                Some(pp) => !s.collections@.dom().contains(pp.0) || seen.contains(pp.0),
                None => true,
            },
{
    assert(seen.len() > 0);
    assert(seen.contains(dst)) by {
        assert(seen[0] == dst);
    }
    assert(!seen.contains(src)) by {
        if seen.contains(src) {
            let k = choose|k: int| 0 <= k < seen.len() && seen[k] == src;
        }
    }
    assert forall|x: u128| #[trigger] seen.contains(x)
        implies match s.collections@[x].parent {
            Some(pp) => !s.collections@.dom().contains(pp.0) || seen.contains(pp.0),
            None => true,
        } by {
        let k = choose|k: int| 0 <= k < seen.len() && seen[k] == x;
        if k < seen.len() - 1 {
            assert(s.collections@[x].parent == Some(CollectionId(seen[k + 1])));
            assert(seen.contains(seen[k + 1])) by {
                assert(seen[k + 1] == seen[k + 1]);
            }
        } else {
            assert(s.collections@[x].parent == Some(CollectionId(cur)));
        }
    }
}

/// The parent walk ran into an absent link: the visited nodes form a
/// parent-closed set holding the walk's start but not `src`.
proof fn lemma_walk_closed_dangling(
    s: Storage,
    seen: Seq<u128>,
    gone: u128,
    dst: u128,
    src: u128,
)
    requires
        seen.len() > 0,
        seen[0] == dst,
        !s.collections@.dom().contains(gone),
        forall|k: int| 0 <= k < seen.len() ==> {
            &&& s.collections@.dom().contains(#[trigger] seen[k])
            &&& seen[k] != src
        },
        forall|k: int| 0 <= k < seen.len() - 1
            ==> s.collections@[#[trigger] seen[k]].parent == Some(CollectionId(seen[k + 1])),
        s.collections@[seen[seen.len() - 1]].parent == Some(CollectionId(gone)),
    ensures
        seen.contains(dst),
        !seen.contains(src),
        forall|x: u128| #[trigger] seen.contains(x)
            ==> match s.collections@[x].parent {
                Some(pp) => !s.collections@.dom().contains(pp.0) || seen.contains(pp.0),
                None => true,
            },
{
    assert(seen.contains(dst)) by {
        assert(seen[0] == dst);
    }
    assert(!seen.contains(src)) by {
        if seen.contains(src) {
            let k = choose|k: int| 0 <= k < seen.len() && seen[k] == src;
        }
    }
    assert forall|x: u128| #[trigger] seen.contains(x)
        implies match s.collections@[x].parent {
            Some(pp) => !s.collections@.dom().contains(pp.0) || seen.contains(pp.0),
            None => true,
        } by {
        let k = choose|k: int| 0 <= k < seen.len() && seen[k] == x;
        if k < seen.len() - 1 {
            assert(s.collections@[x].parent == Some(CollectionId(seen[k + 1])));
            assert(seen.contains(seen[k + 1])) by {
                assert(seen[k + 1] == seen[k + 1]);
            }
        } else {
            assert(s.collections@[x].parent == Some(CollectionId(gone)));
        }
    }
}

/// The parent walk reached `src`: the walk extended by `src` witnesses
/// reachability.
proof fn lemma_walk_found(s: Storage, seen: Seq<u128>, dst: u128, src: u128)
    requires
        seen.len() > 0,
        seen[0] == dst,
        s.collections@.dom().contains(src),
        forall|k: int| 0 <= k < seen.len()
            ==> s.collections@.dom().contains(#[trigger] seen[k]),
        forall|k: int| 0 <= k < seen.len() - 1
            ==> s.collections@[#[trigger] seen[k]].parent == Some(CollectionId(seen[k + 1])),
        s.collections@[seen[seen.len() - 1]].parent == Some(CollectionId(src)),
    ensures
        parent_reaches(s, dst, src),
{
    let path = seen.push(src);
    assert(parent_path(s, path)) by {
        assert forall|i: int| 0 <= i < path.len()
            implies s.collections@.dom().contains(#[trigger] path[i]) by {
            if i < seen.len() {
                assert(path[i] == seen[i]);
            } else {
                assert(path[i] == src);
            }
        }
        assert forall|i: int| 0 <= i < path.len() - 1
            implies s.collections@[#[trigger] path[i]].parent
                == Some(CollectionId(path[i + 1])) by {
            if i < seen.len() - 1 {
                assert(path[i] == seen[i]);
                assert(path[i + 1] == seen[i + 1]);
            } else {
                assert(path[i] == seen[seen.len() - 1]);
                assert(path[i + 1] == src);
            }
        }
    }
    assert(path[0] == dst && path[path.len() - 1] == src);
}

/// A chain of soft-deleted collections: `chain[0]` is `start`, each later
/// element is the previous one's parent, every element present and flagged.
pub open spec fn binned_chain(s: Storage, start: u128, chain: Seq<u128>) -> bool {
    &&& (chain.len() > 0 ==> chain[0] == start)
    &&& (forall|k: int| 0 <= k < chain.len() ==> {
        &&& s.collections@.dom().contains(#[trigger] chain[k])
        &&& s.collections@[chain[k]].is_deleted
    })
    &&& (forall|k: int| 0 <= k < chain.len() - 1
        ==> s.collections@[#[trigger] chain[k]].parent == Some(CollectionId(chain[k + 1])))
}

/// Why a recovery walk from `start` cannot re-link: the chain of
/// soft-deleted ancestors runs into `c` as a hard-deleted (absent) link,
/// or into a parent cycle.
pub open spec fn recovery_blocked(s: Storage, start: u128, c: u128) -> bool {
    exists|chain: Seq<u128>| {
        &&& #[trigger] binned_chain(s, start, chain)
        &&& chain.len() > 0
        &&& s.collections@[chain[chain.len() - 1]].parent == Some(CollectionId(c))
        &&& (!s.collections@.dom().contains(c) || chain.contains(c)
            || chain.len() > s.collections.keys_seq().len())
    }
}

impl Storage {
    /// The virtual path of a tag: the names of its ancestor collections,
    /// root-ward links walked up to (but excluding) the root, reversed into
    /// root-first order, with the tag's own name last.  Fails with
    /// `TagNotFound` exactly when the tag is unknown, and with
    /// `CollectionNotFound(c)` only when the ancestor walk genuinely runs
    /// into `c` as a dangling link — or, in a cyclic graph (which no
    /// operation of this library produces), when the walk exceeds the
    /// collection count.
    pub fn get_tag_virtual_path(&self, id: TagId) -> (r: Result<Vec<String>, StorageError>)
        requires
            self.wf(),
        ensures
            match r {
                Ok(path) => {
                    &&& self.tags@.dom().contains(id.0)
                    &&& exists|anc: Seq<u128>| {
                        &&& #[trigger] ancestor_chain(*self, self.tags@[id.0].parent.0, anc)
                        &&& chain_next(*self, self.tags@[id.0].parent.0, anc)
                            == self.sp_collections.root.0
                        &&& path@.len() == anc.len() + 1
                        &&& path@[anc.len() as int]@ == self.tags@[id.0].name@
                        &&& forall|j: int| 0 <= j < anc.len()
                            ==> (#[trigger] path@[j])@
                                == self.collections@[anc[anc.len() - 1 - j]].name@
                    }
                },
                Err(e) => {
                    &&& (e matches StorageError::TagNotFound(t)
                        ==> t == id && !self.tags@.dom().contains(id.0))
                    &&& (e matches StorageError::CollectionNotFound(c) ==> {
                        &&& self.tags@.dom().contains(id.0)
                        &&& c.0 != self.sp_collections.root.0
                        &&& exists|anc: Seq<u128>| {
                            &&& #[trigger] ancestor_chain(
                                *self,
                                self.tags@[id.0].parent.0,
                                anc,
                            )
                            &&& chain_next(*self, self.tags@[id.0].parent.0, anc) == c.0
                            &&& (!self.collections@.dom().contains(c.0)
                                || anc.len() >= self.collections.keys_seq().len())
                        }
                    })
                    &&& (e is TagNotFound || e is CollectionNotFound)
                },
            },
    {
        let tag = match self.tags.get(id.0) {
            Some(t) => t,
            None => {
                return Err(StorageError::TagNotFound(id));
            },
        };
        let ghost start0 = self.tags@[id.0].parent.0;
        let mut rev: Vec<String> = Vec::new();
        rev.push(tag.name.clone());
        let mut cur: CollectionId = tag.parent;
        let mut fuel = self.collections.len();
        let ghost mut anc: Seq<u128> = Seq::empty();
        let mut done = false;
        while !done
            invariant
                self.wf(),
                self.tags@.dom().contains(id.0),
                start0 == self.tags@[id.0].parent.0,
                ancestor_chain(*self, start0, anc),
                chain_next(*self, start0, anc) == cur.0,
                fuel == self.collections.keys_seq().len() - anc.len(),
                anc.len() <= self.collections.keys_seq().len(),
                rev@.len() == anc.len() + 1,
                rev@[0]@ == self.tags@[id.0].name@,
                forall|j: int| 1 <= j < rev@.len()
                    ==> (#[trigger] rev@[j])@ == self.collections@[anc[j - 1]].name@,
                done ==> cur.0 == self.sp_collections.root.0,
            decreases fuel + (if done { 0int } else { 1int }),
        {
            if self.sp_collections.is_special(cur) {
                done = true;
            } else {
                if fuel == 0 {
                    return Err(StorageError::CollectionNotFound(cur));
                }
                match self.collections.get(cur.0) {
                    Some(col) => {
                        let ghost oldanc = anc;
                        let ghost oldrev = rev@;
                        rev.push(col.name.clone());
                        proof {
                            anc = anc.push(cur.0);
                            assert(anc[anc.len() - 1] == cur.0);
                            assert forall|i: int| 0 <= i < anc.len() implies {
                                &&& self.collections@.dom().contains(#[trigger] anc[i])
                                &&& anc[i] != self.sp_collections.root.0
                            } by {
                                if i < oldanc.len() {
                                    assert(anc[i] == oldanc[i]);
                                }
                            }
                            assert forall|i: int| 0 <= i < anc.len() - 1
                                implies self.collections@[#[trigger] anc[i]].parent
                                    == Some(CollectionId(anc[i + 1])) by {
                                if i < oldanc.len() - 1 {
                                    assert(anc[i] == oldanc[i]);
                                    assert(anc[i + 1] == oldanc[i + 1]);
                                } else {
                                    assert(anc[i] == oldanc[oldanc.len() - 1]);
                                    assert(anc[i + 1] == cur.0);
                                }
                            }
                            assert forall|j: int| 1 <= j < rev@.len()
                                implies (#[trigger] rev@[j])@
                                    == self.collections@[anc[j - 1]].name@ by {
                                if j < rev@.len() - 1 {
                                    assert(rev@[j] == oldrev[j]);
                                    assert(anc[j - 1] == oldanc[j - 1]);
                                } else {
                                    assert(anc[j - 1] == cur.0);
                                }
                            }
                        }
                        fuel -= 1;
                        let parent = match col.parent {
                            Some(p) => p,
                            None => {
                                proof {
                                    assert(false);
                                }
                                CollectionId(0)
                            },
                        };
                        cur = parent;
                    },
                    None => {
                        return Err(StorageError::CollectionNotFound(cur));
                    },
                }
            }
        }
        // Reverse into root-first order.
        let mut path: Vec<String> = Vec::new();
        let n = rev.len();
        let mut i: usize = 0;
        while i < n
            invariant
                n == rev@.len(),
                n >= 1,
                i <= n,
                path@.len() == i,
                forall|j: int| 0 <= j < i ==> #[trigger] path@[j] == rev@[n - 1 - j],
            decreases n - i,
        {
            path.push(rev[n - 1 - i].clone());
            i += 1;
        }
        proof {
            assert(path@[n - 1] == rev@[0]);
            assert(n - 1 == anc.len());
            assert forall|j: int| 0 <= j < anc.len()
                implies (#[trigger] path@[j])@
                    == self.collections@[anc[anc.len() - 1 - j]].name@ by {
                assert(path@[j] == rev@[n - 1 - j]);
                assert(rev@[n - 1 - j]@ == self.collections@[anc[n - 1 - j - 1]].name@);
            }
        }
        Ok(path)
    }

    /// The identifiers of all live (not soft-deleted) assets, in map order.
    pub fn get_all_assets(&self) -> (r: Vec<AssetId>)
        requires
            self.wf(),
        ensures
            forall|x: AssetId| #[trigger] r@.contains(x)
                <==> self.assets@.dom().contains(x.0) && !self.assets@[x.0].is_deleted,
    {
        let mut r: Vec<AssetId> = Vec::new();
        let n = self.assets.len();
        let mut i: usize = 0;
        while i < n
            invariant
                self.wf(),
                n == self.assets.keys_seq().len(),
                i <= n,
                forall|x: AssetId| #[trigger] r@.contains(x)
                    ==> self.assets@.dom().contains(x.0) && !self.assets@[x.0].is_deleted,
                forall|j: int| 0 <= j < i ==> {
                    let k = #[trigger] self.assets.keys_seq()[j];
                    !self.assets@[k].is_deleted ==> r@.contains(AssetId(k))
                },
            decreases n - i,
        {
            let k = self.assets.key_at(i);
            if !self.assets.val_at(i).is_deleted {
                let ghost olds = r@;
                r.push(AssetId(k));
                proof {
                    assert forall|x: AssetId| olds.contains(x)
                        implies #[trigger] r@.contains(x) by {
                        let j = choose|j: int| 0 <= j < olds.len() && olds[j] == x;
                        assert(r@[j] == x);
                    }
                    assert(r@.contains(AssetId(k))) by {
                        assert(r@[r@.len() - 1] == AssetId(k));
                    }
                    assert forall|x: AssetId| #[trigger] r@.contains(x)
                        implies self.assets@.dom().contains(x.0)
                            && !self.assets@[x.0].is_deleted by {
                        let j = choose|j: int| 0 <= j < r@.len() && r@[j] == x;
                        if j < r@.len() - 1 {
                            assert(olds[j] == x);
                            assert(olds.contains(x));
                        }
                    }
                }
            }
            i += 1;
        }
        proof {
            self.assets.lemma_dom();
            assert forall|x: AssetId|
                self.assets@.dom().contains(x.0) && !self.assets@[x.0].is_deleted
                implies #[trigger] r@.contains(x) by {
                self.assets.lemma_index_of(x.0);
                let j = self.assets.spec_index_of(x.0);
                assert(self.assets.keys_seq()[j] == x.0);
            }
        }
        r
    }

    /// The identifiers of all live assets that hold the given tag.
    pub fn get_assets_containing_tag(&self, tag: TagId) -> (r: Vec<AssetId>)
        requires
            self.wf(),
        ensures
            forall|x: AssetId| #[trigger] r@.contains(x)
                <==> self.assets@.dom().contains(x.0) && !self.assets@[x.0].is_deleted
                    && self.assets@[x.0].tags.spec_has_tag(tag),
    {
        let mut r: Vec<AssetId> = Vec::new();
        let n = self.assets.len();
        let mut i: usize = 0;
        while i < n
            invariant
                self.wf(),
                n == self.assets.keys_seq().len(),
                i <= n,
                forall|x: AssetId| #[trigger] r@.contains(x)
                    ==> self.assets@.dom().contains(x.0) && !self.assets@[x.0].is_deleted
                        && self.assets@[x.0].tags.spec_has_tag(tag),
                forall|j: int| 0 <= j < i ==> {
                    let k = #[trigger] self.assets.keys_seq()[j];
                    (!self.assets@[k].is_deleted && self.assets@[k].tags.spec_has_tag(tag))
                        ==> r@.contains(AssetId(k))
                },
            decreases n - i,
        {
            let k = self.assets.key_at(i);
            let a = self.assets.val_at(i);
            let keep = !a.is_deleted && a.tags.contains_id(tag);
            if keep {
                let ghost olds = r@;
                r.push(AssetId(k));
                proof {
                    assert forall|x: AssetId| olds.contains(x)
                        implies #[trigger] r@.contains(x) by {
                        let j = choose|j: int| 0 <= j < olds.len() && olds[j] == x;
                        assert(r@[j] == x);
                    }
                    assert(r@.contains(AssetId(k))) by {
                        assert(r@[r@.len() - 1] == AssetId(k));
                    }
                    assert forall|x: AssetId| #[trigger] r@.contains(x)
                        implies self.assets@.dom().contains(x.0)
                            && !self.assets@[x.0].is_deleted
                            && self.assets@[x.0].tags.spec_has_tag(tag) by {
                        let j = choose|j: int| 0 <= j < r@.len() && r@[j] == x;
                        if j < r@.len() - 1 {
                            assert(olds[j] == x);
                            assert(olds.contains(x));
                        }
                    }
                }
            }
            i += 1;
        }
        proof {
            self.assets.lemma_dom();
            assert forall|x: AssetId|
                self.assets@.dom().contains(x.0) && !self.assets@[x.0].is_deleted
                    && self.assets@[x.0].tags.spec_has_tag(tag)
                implies #[trigger] r@.contains(x) by {
                self.assets.lemma_index_of(x.0);
                let j = self.assets.spec_index_of(x.0);
                assert(self.assets.keys_seq()[j] == x.0);
            }
        }
        r
    }
}


/// The tag container a freshly imported asset receives: the initial tag in
/// its proper place when one was given and exists, empty otherwise.
pub open spec fn initial_container_ok(
    s: Storage,
    con: crate::tags::TagContainer,
    initial_tag: Option<TagId>,
) -> bool {
    match initial_tag {
        Some(t) if s.tags@.dom().contains(t.0) => match s.tags@[t.0].group {
            Some(g) => con.grouped@ == Map::<u128, TagId>::empty().insert(g.0, t)
                && con.ungrouped@ == Set::<u128>::empty(),
            None => con.grouped@ == Map::<u128, TagId>::empty()
                && con.ungrouped@ == Set::<u128>::empty().insert(t.0),
        },
        _ => con.grouped@ == Map::<u128, TagId>::empty()
            && con.ungrouped@ == Set::<u128>::empty(),
    }
}

impl Storage {
    /// Ingests raw in-memory buffers: classifies each by extension, reads
    /// its type-specific properties, registers accepted ones as fresh live
    /// assets under the initial tag (when given and known) and indexes
    /// their checksums.  Unrecognized or unparsable buffers are skipped,
    /// not errors.  Returns the duplicate groups these additions introduced
    /// and, aligned with the input, the identifier of each accepted asset —
    /// the caller stores each accepted buffer under its asset's file name.
    #[verifier::spinoff_prover]
    #[verifier::rlimit(60)]
    pub fn add_raw_assets(&mut self, initial_tag: Option<TagId>, data: &Vec<RawAsset>) -> (r: (
        DuplicateAssets,
        Vec<Option<AssetId>>,
    ))
        requires
            old(self).wf(),
        ensures
            final(self).wf(),
            final(self).collections == old(self).collections,
            final(self).tags == old(self).tags,
            final(self).recycle_bin == old(self).recycle_bin,
            final(self).sp_collections == old(self).sp_collections,
            final(self).lib_meta == old(self).lib_meta,
            r.1@.len() == data@.len(),
            forall|j: int| 0 <= j < data@.len()
                ==> ((#[trigger] r.1@[j]) is Some
                    <==> crate::assets::spec_classify(data@[j].ext@, data@[j].bytes@) is Some),
            forall|j: int| 0 <= j < data@.len() && (#[trigger] r.1@[j]) is Some ==> {
                let id = r.1@[j]->Some_0;
                let cls = crate::assets::spec_classify(data@[j].ext@, data@[j].bytes@)->Some_0;
                let a = final(self).assets@[id.0];
                &&& !old(self).assets@.dom().contains(id.0)
                &&& final(self).assets@.dom().contains(id.0)
                &&& a.id == id
                &&& a.name@ == crate::assets::spec_id_hex(id.0)
                &&& a.ext@ == data@[j].ext@
                &&& a.src@ == data@[j].src@
                &&& a.ty == cls.0
                &&& a.props == cls.1
                &&& !a.is_deleted
                &&& a.meta.byte_size == data@[j].bytes@.len()
                &&& initial_container_ok(*old(self), a.tags, initial_tag)
                &&& final(self).cache.asset_crc@.dom().contains(id.0)
                &&& final(self).cache.asset_crc@[id.0]
                    == crate::checksum::crc32_of(data@[j].bytes@)
            },
            forall|j: int, k: int|
                0 <= j < k < data@.len() && (#[trigger] r.1@[j]) is Some
                    && (#[trigger] r.1@[k]) is Some
                ==> r.1@[j]->Some_0 != r.1@[k]->Some_0,
            forall|a: u128| #[trigger] old(self).assets@.dom().contains(a)
                ==> final(self).assets@.dom().contains(a)
                    && final(self).assets@[a] == old(self).assets@[a],
            forall|a: u128| #[trigger] final(self).assets@.dom().contains(a)
                ==> old(self).assets@.dom().contains(a)
                    || exists|j: int| 0 <= j < data@.len()
                        && #[trigger] r.1@[j] == Some(AssetId(a)),
            forall|a: u128| #[trigger] old(self).cache.asset_crc@.dom().contains(a)
                ==> final(self).cache.asset_crc@.dom().contains(a)
                    && final(self).cache.asset_crc@[a] == old(self).cache.asset_crc@[a],
            forall|a: u128| #[trigger] final(self).cache.asset_crc@.dom().contains(a)
                ==> old(self).cache.asset_crc@.dom().contains(a)
                    || exists|j: int| 0 <= j < data@.len()
                        && #[trigger] r.1@[j] == Some(AssetId(a)),
            r.0.0.wf(),
            // the report holds only this batch's checksums — never a
            // pre-existing unrelated group
            forall|c: u128| #[trigger] r.0.0@.dom().contains(c)
                ==> c <= u32::MAX as u128
                    && final(self).cache.crc_lookup@.dom().contains(c)
                    && final(self).cache.crc_lookup@[c]@.len() > 1
                    && r.0.0@[c]@ == final(self).cache.crc_lookup@[c]@
                    && exists|j: int| 0 <= j < data@.len() && (#[trigger] r.1@[j]) is Some
                        && crate::checksum::crc32_of(data@[j].bytes@) as u128 == c,
            forall|j: int| 0 <= j < data@.len() && (#[trigger] r.1@[j]) is Some ==> {
                let c = crate::checksum::crc32_of(data@[j].bytes@) as u128;
                final(self).cache.crc_lookup@.dom().contains(c)
                    && final(self).cache.crc_lookup@[c]@.len() > 1
                    ==> r.0.0@.dom().contains(c)
            },
    {
        let ghost prev = *self;
        let tag_group: Option<Option<CollectionId>> = match initial_tag {
            Some(t) => match self.tags.get(t.0) {
                Some(tv) => Some(tv.group),
                None => None,
            },
            None => None,
        };
        let n = data.len();
        let mut results: Vec<Option<AssetId>> = Vec::new();
        let mut crcs: Vec<u32> = Vec::new();
        let mut i: usize = 0;
        while i < n
            invariant
                prev.wf(),
                self.wf(),
                n == data@.len(),
                i <= n,
                self.collections == prev.collections,
                self.tags == prev.tags,
                self.recycle_bin == prev.recycle_bin,
                self.sp_collections == prev.sp_collections,
                self.lib_meta == prev.lib_meta,
                tag_group == match initial_tag {
                    Some(t) => if prev.tags@.dom().contains(t.0) {
                        Some(prev.tags@[t.0].group)
                    } else {
                        None
                    },
                    None => None,
                },
                results@.len() == i,
                forall|j: int| 0 <= j < i
                    ==> ((#[trigger] results@[j]) is Some
                        <==> crate::assets::spec_classify(
                            data@[j].ext@,
                            data@[j].bytes@,
                        ) is Some),
                forall|j: int| 0 <= j < i && (#[trigger] results@[j]) is Some ==> {
                    let id = results@[j]->Some_0;
                    let cls = crate::assets::spec_classify(
                        data@[j].ext@,
                        data@[j].bytes@,
                    )->Some_0;
                    let a = self.assets@[id.0];
                    &&& !prev.assets@.dom().contains(id.0)
                    &&& self.assets@.dom().contains(id.0)
                    &&& a.id == id
                    &&& a.name@ == crate::assets::spec_id_hex(id.0)
                    &&& a.ext@ == data@[j].ext@
                    &&& a.src@ == data@[j].src@
                    &&& a.ty == cls.0
                    &&& a.props == cls.1
                    &&& !a.is_deleted
                    &&& a.meta.byte_size == data@[j].bytes@.len()
                    &&& initial_container_ok(prev, a.tags, initial_tag)
                    &&& self.cache.asset_crc@.dom().contains(id.0)
                    &&& self.cache.asset_crc@[id.0]
                        == crate::checksum::crc32_of(data@[j].bytes@)
                },
                forall|a: u128| #[trigger] prev.assets@.dom().contains(a)
                    ==> self.assets@.dom().contains(a)
                        && self.assets@[a] == prev.assets@[a],
                forall|a: u128| #[trigger] self.assets@.dom().contains(a)
                    ==> prev.assets@.dom().contains(a)
                        || exists|j: int| 0 <= j < i
                            && #[trigger] results@[j] == Some(AssetId(a)),
                forall|a: u128| #[trigger] prev.cache.asset_crc@.dom().contains(a)
                    ==> self.cache.asset_crc@.dom().contains(a)
                        && self.cache.asset_crc@[a] == prev.cache.asset_crc@[a],
                forall|a: u128| #[trigger] self.cache.asset_crc@.dom().contains(a)
                    ==> prev.cache.asset_crc@.dom().contains(a)
                        || exists|j: int| 0 <= j < i
                            && #[trigger] results@[j] == Some(AssetId(a)),
                forall|j: int| 0 <= j < i && (#[trigger] results@[j]) is Some
                    ==> crcs@.contains(crate::checksum::crc32_of(data@[j].bytes@)),
                forall|c: u32| #[trigger] crcs@.contains(c)
                    ==> exists|j: int| 0 <= j < i && (#[trigger] results@[j]) is Some
                        && crate::checksum::crc32_of(data@[j].bytes@) == c,
                forall|j: int, k: int|
                    0 <= j < k < i && (#[trigger] results@[j]) is Some
                        && (#[trigger] results@[k]) is Some
                    ==> results@[j]->Some_0 != results@[k]->Some_0,
            decreases n - i,
        {
            let item = &data[i];
            let cls = crate::assets::classify(item.ext.as_str(), item.bytes.as_slice());
            match cls {
                None => {
                    let ghost pre_results = results@;
                    results.push(None);
                    proof {
                        assert forall|a2: u128| #[trigger] self.assets@.dom().contains(a2)
                            implies prev.assets@.dom().contains(a2)
                                || exists|j: int| 0 <= j < i + 1
                                    && #[trigger] results@[j] == Some(AssetId(a2)) by {
                            if !prev.assets@.dom().contains(a2) {
                                let j = choose|j: int| 0 <= j < i
                                    && #[trigger] pre_results[j] == Some(AssetId(a2));
                                assert(results@[j] == Some(AssetId(a2)));
                            }
                        }
                        assert forall|a2: u128|
                            #[trigger] self.cache.asset_crc@.dom().contains(a2)
                            implies prev.cache.asset_crc@.dom().contains(a2)
                                || exists|j: int| 0 <= j < i + 1
                                    && #[trigger] results@[j] == Some(AssetId(a2)) by {
                            if !prev.cache.asset_crc@.dom().contains(a2) {
                                let j = choose|j: int| 0 <= j < i
                                    && #[trigger] pre_results[j] == Some(AssetId(a2));
                                assert(results@[j] == Some(AssetId(a2)));
                            }
                        }
                        assert forall|c2: u32| #[trigger] crcs@.contains(c2)
                            implies exists|j: int|
                                0 <= j < i + 1 && (#[trigger] results@[j]) is Some
                                    && crate::checksum::crc32_of(data@[j].bytes@) == c2 by {
                            let j = choose|j: int| 0 <= j < i
                                && (#[trigger] pre_results[j]) is Some
                                && crate::checksum::crc32_of(data@[j].bytes@) == c2;
                            assert(results@[j] == pre_results[j]);
                            assert((results@[j]) is Some);
                        }
                    }
                },
                Some((ty, props)) => {
                    let ghost pre = *self;
                    let crc = crate::checksum::crc32(item.bytes.as_slice());
                    let idv = fresh_key(&self.assets);
                    let id = AssetId(idv);
                    let name = crate::assets::id_hex_string(idv);
                    let byte_size = item.bytes.len() as u64;
                    let mut asset = Asset::new(
                        id,
                        name,
                        item.ext.clone(),
                        Metadata::now(byte_size),
                        ty,
                        props,
                        item.src.clone(),
                    );
                    match (initial_tag, tag_group) {
                        (Some(t), Some(g)) => {
                            // the container reads only the tag's group and
                            // identifier
                            let stub = Tag {
                                is_deleted: false,
                                parent: CollectionId(0),
                                group: g,
                                id: t,
                                name: String::new(),
                                color: None,
                                meta: Metadata { byte_size: 0, created_at: None, last_modified: 0 },
                            };
                            asset.tags.insert_unchecked(&stub);
                        },
                        _ => {},
                    }
                    self.assets.insert(idv, asset);
                    self.cache.add_asset(crc, id);
                    let ghost pre_results = results@;
                    let ghost pre_crcs = crcs@;
                    crcs.push(crc);
                    results.push(Some(id));
                    proof {
                        assert(self.assets@.dom() =~= pre.assets@.dom().insert(idv));
                        assert forall|a2: u128| #[trigger] self.assets@.dom().contains(a2)
                            implies self.assets@[a2].id.0 == a2 && self.assets@[a2].wf()
                                && (self.assets@[a2].is_deleted
                                    <==> self.recycle_bin.assets@.contains(a2)) by {
                            if a2 != idv {
                                assert(self.assets@[a2] == pre.assets@[a2]);
                            } else {
                                assert(!pre.assets@.dom().contains(idv));
                                assert(!pre.recycle_bin.assets@.contains(idv));
                            }
                        }
                        assert forall|a2: u128|
                            #[trigger] self.cache.asset_crc@.dom().contains(a2)
                            implies self.assets@.dom().contains(a2)
                                && !self.assets@[a2].is_deleted by {
                            if a2 != idv {
                                assert(pre.cache.asset_crc@.dom().contains(a2));
                                assert(self.assets@[a2] == pre.assets@[a2]);
                            }
                        }
                        assert forall|a2: u128, t2: u128|
                            self.assets@.dom().contains(a2)
                                && #[trigger] self.assets@[a2].tags.ungrouped@.contains(t2)
                                && self.tags@.dom().contains(t2)
                            implies self.tags@[t2].group is None by {
                            if a2 != idv {
                                assert(self.assets@[a2] == pre.assets@[a2]);
                            }
                        }
                        assert forall|a2: u128, g2: u128|
                            self.assets@.dom().contains(a2)
                                && #[trigger] self.assets@[a2].tags.grouped@.dom().contains(g2)
                            implies (self.tags@.dom().contains(
                                self.assets@[a2].tags.grouped@[g2].0,
                            ) ==> self.tags@[self.assets@[a2].tags.grouped@[g2].0].group
                                    == Some(CollectionId(g2))) by {
                            if a2 != idv {
                                assert(self.assets@[a2] == pre.assets@[a2]);
                            }
                        }
                        assert(self.wf());
                        assert(crcs@.contains(crc)) by {
                            assert(crcs@[crcs@.len() - 1] == crc);
                        }
                        assert forall|j2: int| 0 <= j2 < i && (#[trigger] pre_results[j2]) is Some
                            implies crcs@.contains(
                                crate::checksum::crc32_of(data@[j2].bytes@),
                            ) by {
                            let cw = crate::checksum::crc32_of(data@[j2].bytes@);
                            assert(pre_crcs.contains(cw));
                            let k = choose|k: int| 0 <= k < pre_crcs.len() && pre_crcs[k] == cw;
                            assert(crcs@[k] == cw);
                        }
                        assert forall|c2: u32| #[trigger] crcs@.contains(c2)
                            implies exists|j: int|
                                0 <= j < i + 1 && (#[trigger] results@[j]) is Some
                                    && crate::checksum::crc32_of(data@[j].bytes@) == c2 by {
                            let k = choose|k: int| 0 <= k < crcs@.len() && crcs@[k] == c2;
                            if k < crcs@.len() - 1 {
                                assert(pre_crcs[k] == c2);
                                assert(pre_crcs.contains(c2));
                                let j = choose|j: int| 0 <= j < i
                                    && (#[trigger] pre_results[j]) is Some
                                    && crate::checksum::crc32_of(data@[j].bytes@) == c2;
                                assert(results@[j] == pre_results[j]);
                                assert((results@[j]) is Some);
                            } else {
                                assert(results@[i as int] is Some);
                                assert(crate::checksum::crc32_of(data@[i as int].bytes@)
                                    == c2);
                            }
                        }
                        assert forall|a2: u128| #[trigger] self.assets@.dom().contains(a2)
                            implies prev.assets@.dom().contains(a2)
                                || exists|j: int| 0 <= j < i + 1
                                    && #[trigger] results@[j] == Some(AssetId(a2)) by {
                            if a2 == idv {
                                assert(results@[i as int] == Some(AssetId(a2)));
                            } else if !prev.assets@.dom().contains(a2) {
                                assert(pre.assets@.dom().contains(a2));
                                let j = choose|j: int| 0 <= j < i
                                    && #[trigger] pre_results[j] == Some(AssetId(a2));
                                assert(results@[j] == Some(AssetId(a2)));
                            }
                        }
                        assert forall|a2: u128|
                            #[trigger] self.cache.asset_crc@.dom().contains(a2)
                            implies prev.cache.asset_crc@.dom().contains(a2)
                                || exists|j: int| 0 <= j < i + 1
                                    && #[trigger] results@[j] == Some(AssetId(a2)) by {
                            if a2 == idv {
                                assert(results@[i as int] == Some(AssetId(a2)));
                            } else if !prev.cache.asset_crc@.dom().contains(a2) {
                                assert(pre.cache.asset_crc@.dom().contains(a2));
                                let j = choose|j: int| 0 <= j < i
                                    && #[trigger] pre_results[j] == Some(AssetId(a2));
                                assert(results@[j] == Some(AssetId(a2)));
                            }
                        }
                        assert forall|j2: int, k2: int|
                            0 <= j2 < k2 < i + 1 && (#[trigger] results@[j2]) is Some
                                && (#[trigger] results@[k2]) is Some
                            implies results@[j2]->Some_0 != results@[k2]->Some_0 by {
                            if k2 == i {
                                assert(results@[j2] == pre_results[j2]);
                                assert(self.assets@.dom().contains(
                                    pre_results[j2]->Some_0.0,
                                ));
                                assert(pre.assets@.dom().contains(
                                    pre_results[j2]->Some_0.0,
                                ));
                            } else {
                                assert(results@[j2] == pre_results[j2]);
                                assert(results@[k2] == pre_results[k2]);
                            }
                        }
                    }
                },
            }
            i += 1;
        }
        let groups = self.cache.get_duplications(&crcs);
        proof {
            assert forall|j: int| 0 <= j < data@.len() && (#[trigger] results@[j]) is Some
                implies {
                    let c = crate::checksum::crc32_of(data@[j].bytes@) as u128;
                    self.cache.crc_lookup@.dom().contains(c)
                        && self.cache.crc_lookup@[c]@.len() > 1
                        ==> groups@.dom().contains(c)
                } by {
                let cw = crate::checksum::crc32_of(data@[j].bytes@);
                assert(crcs@.contains(cw));
            }
            assert forall|c: u128| #[trigger] groups@.dom().contains(c)
                implies exists|j: int| 0 <= j < data@.len() && (#[trigger] results@[j]) is Some
                    && crate::checksum::crc32_of(data@[j].bytes@) as u128 == c by {
                assert(crcs@.contains((c as u32)));
                let j = choose|j: int| 0 <= j < n && (#[trigger] results@[j]) is Some
                    && crate::checksum::crc32_of(data@[j].bytes@) == (c as u32);
                assert(crate::checksum::crc32_of(data@[j].bytes@) as u128 == c);
            }
        }
        (DuplicateAssets(groups), results)
    }
}


/// Whether the vector holds the given value.
fn vec_contains_u128(v: &Vec<u128>, x: u128) -> (r: bool)
    ensures
        r == v@.contains(x),
{
    let n = v.len();
    let mut i: usize = 0;
    while i < n
        invariant
            n == v@.len(),
            i <= n,
            forall|j: int| 0 <= j < i ==> v@[j] != x,
        decreases n - i,
    {
        if v[i] == x {
            proof {
                assert(v@.contains(x)) by {
                    assert(v@[i as int] == x);
                }
            }
            return true;
        }
        i += 1;
    }
    proof {
        assert(!v@.contains(x));
    }
    false
}

/// Whether the container holds any tag from the given list.
fn holds_any_tag(content_ids: &Vec<u128>, con: &TagContainer) -> (r: bool)
    requires
        con.wf(),
    ensures
        r == exists|t: u128| #[trigger] content_ids@.contains(t)
            && con.spec_has_tag(TagId(t)),
{
    let n = content_ids.len();
    let mut i: usize = 0;
    while i < n
        invariant
            con.wf(),
            n == content_ids@.len(),
            i <= n,
            forall|j: int| 0 <= j < i ==> !con.spec_has_tag(TagId(#[trigger] content_ids@[j])),
        decreases n - i,
    {
        if con.contains_id(TagId(content_ids[i])) {
            proof {
                assert(content_ids@.contains(content_ids@[i as int])) by {
                    assert(content_ids@[i as int] == content_ids@[i as int]);
                }
            }
            return true;
        }
        i += 1;
    }
    proof {
        if exists|t: u128| #[trigger] content_ids@.contains(t) && con.spec_has_tag(TagId(t)) {
            let t = choose|t: u128| #[trigger] content_ids@.contains(t)
                && con.spec_has_tag(TagId(t));
            let j = choose|j: int| 0 <= j < content_ids@.len() && content_ids@[j] == t;
        }
    }
    false
}

impl Storage {
    /// Whether some tag listed in collection `cid`'s content is held by the
    /// given asset — the sense in which a collection "contains" an asset.
    pub open spec fn collection_holds_asset(self, cid: u128, a: u128) -> bool {
        exists|t: u128| #[trigger] self.collections@[cid].content@.contains(t)
            && self.assets@[a].tags.spec_has_tag(TagId(t))
    }

    /// Soft-deletes a collection: detaches it from its parent's listing,
    /// flags it, records it in the bin, and soft-deletes every asset
    /// holding one of its content tags — removing those from the duplicate
    /// cache.  Its own children and tags stay structurally linked for
    /// recovery.  The root is protected.
    pub fn move_collection_to_recycle_bin(&mut self, id: CollectionId) -> (r: Result<
        (),
        StorageError,
    >)
        requires
            old(self).wf(),
        ensures
            final(self).wf(),
            match r {
                Ok(()) => {
                    &&& id != old(self).sp_collections.root
                    &&& old(self).live_collection(id.0)
                    &&& final(self).collections@.dom() == old(self).collections@.dom()
                    &&& final(self).collections@[id.0] == (Collection {
                        is_deleted: true,
                        ..old(self).collections@[id.0]
                    })
                    &&& ({
                        let p = old(self).collections@[id.0].parent->Some_0.0;
                        &&& final(self).collections@[p].children@
                            == old(self).collections@[p].children@.remove(id.0)
                        &&& forall|c: u128| c != id.0 && c != p
                                && old(self).collections@.dom().contains(c)
                            ==> #[trigger] final(self).collections@[c]
                                == old(self).collections@[c]
                    })
                    &&& final(self).recycle_bin.collections@
                        == old(self).recycle_bin.collections@.insert(id.0)
                    &&& final(self).recycle_bin.tags == old(self).recycle_bin.tags
                    &&& final(self).assets@.dom() == old(self).assets@.dom()
                    &&& forall|a: u128| #[trigger] old(self).assets@.dom().contains(a)
                        ==> final(self).assets@[a]
                            == if old(self).collection_holds_asset(id.0, a) {
                            (Asset { is_deleted: true, ..old(self).assets@[a] })
                        } else {
                            old(self).assets@[a]
                        }
                    &&& forall|x: u128| #[trigger] final(self).recycle_bin.assets@.contains(x)
                        <==> old(self).recycle_bin.assets@.contains(x)
                            || (old(self).assets@.dom().contains(x)
                                && old(self).collection_holds_asset(id.0, x))
                    &&& forall|x: u128|
                        #[trigger] final(self).cache.asset_crc@.dom().contains(x)
                        <==> old(self).cache.asset_crc@.dom().contains(x)
                            && !old(self).collection_holds_asset(id.0, x)
                    &&& forall|x: u128|
                        #[trigger] final(self).cache.asset_crc@.dom().contains(x)
                        ==> final(self).cache.asset_crc@[x] == old(self).cache.asset_crc@[x]
                    &&& final(self).tags == old(self).tags
                    &&& final(self).sp_collections == old(self).sp_collections
                    &&& final(self).lib_meta == old(self).lib_meta
                },
                Err(e) => {
                    &&& *final(self) == *old(self)
                    &&& (e matches StorageError::IllegalCollectionModification(c)
                        ==> c == id && id == old(self).sp_collections.root)
                    &&& (e matches StorageError::CollectionNotFound(c)
                        ==> c == id && id != old(self).sp_collections.root
                            && !old(self).live_collection(id.0))
                    &&& (e is IllegalCollectionModification || e is CollectionNotFound)
                },
            },
    {
        if self.sp_collections.is_special(id) {
            return Err(StorageError::IllegalCollectionModification(id));
        }
        let ghost prev = *self;
        let pos = match self.collections.position_of(id.0) {
            Some(i) => i,
            None => {
                return Err(StorageError::CollectionNotFound(id));
            },
        };
        if self.collections.val_at(pos).is_deleted {
            return Err(StorageError::CollectionNotFound(id));
        }
        // Copy the content listing out, for the cascade below.
        let content_ids = {
            let col = self.collections.val_at(pos);
            let m = col.content.len();
            let mut v: Vec<u128> = Vec::new();
            let mut k: usize = 0;
            while k < m
                invariant
                    col.wf(),
                    m == col.content.elems().len(),
                    k <= m,
                    v@ == col.content.elems().subrange(0, k as int),
                decreases m - k,
            {
                v.push(col.content.at(k));
                proof {
                    assert(v@ =~= col.content.elems().subrange(0, k + 1));
                }
                k += 1;
            }
            proof {
                assert(v@ =~= col.content.elems());
            }
            v
        };
        proof {
            prev.collections.lemma_val_at(pos as int);
            let con = prev.collections@[id.0].content;
            con.lemma_elems();
            assert(forall|t: u128| #[trigger] content_ids@.contains(t)
                <==> prev.collections@[id.0].content@.contains(t));
        }
        // Detach from the parent's listing.
        let parent_id = match self.collections.val_at(pos).parent {
            Some(p) => p,
            None => {
                proof {
                    assert(false);
                }
                CollectionId(0)
            },
        };
        let ppos = match self.collections.position_of(parent_id.0) {
            Some(i) => i,
            None => {
                proof {
                    assert(false);
                }
                0
            },
        };
        let p = self.collections.val_at_mut(ppos);
        p.children.remove(id.0);
        // Flag and record.
        let c = self.collections.val_at_mut(pos);
        c.is_deleted = true;
        self.recycle_bin.collections.insert(id.0);
        let ghost mid = *self;
        proof {
            let cols0 = prev.collections@;
            let cols1 = mid.collections@;
            assert(cols1.dom() =~= cols0.dom());
            assert forall|p2: u128, c2: u128|
                cols1.dom().contains(p2) && #[trigger] cols1[p2].children@.contains(c2)
                implies mid.child_link_ok(p2, c2) by {
                assert(cols0[p2].children@.contains(c2));
                assert(prev.child_link_ok(p2, c2));
                assert(c2 != id.0) by {
                    if c2 == id.0 {
                        assert(p2 == parent_id.0);
                        assert(!cols1[parent_id.0].children@.contains(id.0));
                    }
                }
            }
            assert forall|c2: u128| #[trigger] cols1.dom().contains(c2)
                && !cols1[c2].is_deleted && c2 != prev.sp_collections.root.0
                implies {
                    let pp = cols1[c2].parent->Some_0.0;
                    cols1.dom().contains(pp) && cols1[pp].children@.contains(c2)
                } by {
                assert(c2 != id.0);
                let pp = cols0[c2].parent->Some_0.0;
                assert(cols0.dom().contains(pp) && cols0[pp].children@.contains(c2));
                if pp == parent_id.0 {
                    assert(c2 != id.0);
                }
            }
            assert forall|p2: u128, t2: u128|
                cols1.dom().contains(p2) && #[trigger] cols1[p2].content@.contains(t2)
                implies mid.tags@.dom().contains(t2) && !mid.tags@[t2].is_deleted
                    && mid.tags@[t2].parent.0 == p2 by {
                assert(cols0[p2].content@.contains(t2));
            }
            assert forall|t2: u128| #[trigger] mid.tags@.dom().contains(t2)
                && !mid.tags@[t2].is_deleted
                implies {
                    let pp = mid.tags@[t2].parent.0;
                    cols1.dom().contains(pp) && cols1[pp].content@.contains(t2)
                } by {
                let pp = prev.tags@[t2].parent.0;
                assert(cols0.dom().contains(pp) && cols0[pp].content@.contains(t2));
            }
            assert(mid.wf());
        }
        // Cascade: soft-delete every asset holding one of the content tags.
        let n = self.assets.len();
        let mut i: usize = 0;
        while i < n
            invariant
                prev.wf(),
                mid.wf(),
                self.wf(),
                n == mid.assets.keys_seq().len(),
                i <= n,
                mid.assets == prev.assets,
                mid.recycle_bin.assets == prev.recycle_bin.assets,
                mid.cache == prev.cache,
                self.collections == mid.collections,
                self.tags == mid.tags,
                self.sp_collections == mid.sp_collections,
                self.lib_meta == mid.lib_meta,
                self.recycle_bin.collections == mid.recycle_bin.collections,
                self.recycle_bin.tags == mid.recycle_bin.tags,
                self.assets.keys_seq() == prev.assets.keys_seq(),
                self.assets@.dom() == prev.assets@.dom(),
                forall|t: u128| #[trigger] content_ids@.contains(t)
                    <==> prev.collections@[id.0].content@.contains(t),
                forall|j: int| i <= j < n
                    ==> #[trigger] self.assets.spec_val_at(j)
                        == prev.assets.spec_val_at(j),
                forall|j: int| 0 <= j < i
                    ==> #[trigger] self.assets.spec_val_at(j)
                        == if prev.collection_holds_asset(
                            id.0,
                            prev.assets.keys_seq()[j],
                        ) {
                        (Asset { is_deleted: true, ..prev.assets.spec_val_at(j) })
                    } else {
                        prev.assets.spec_val_at(j)
                    },
                forall|x: u128| #[trigger] self.recycle_bin.assets@.contains(x)
                    <==> prev.recycle_bin.assets@.contains(x)
                        || (exists|j: int| 0 <= j < i
                            && #[trigger] prev.assets.keys_seq()[j] == x
                            && prev.collection_holds_asset(id.0, x)),
                forall|x: u128| #[trigger] self.cache.asset_crc@.dom().contains(x)
                    <==> prev.cache.asset_crc@.dom().contains(x)
                        && !(exists|j: int| 0 <= j < i
                            && #[trigger] prev.assets.keys_seq()[j] == x
                            && prev.collection_holds_asset(id.0, x)),
                forall|x: u128| #[trigger] self.cache.asset_crc@.dom().contains(x)
                    ==> self.cache.asset_crc@[x] == prev.cache.asset_crc@[x],
            decreases n - i,
        {
            let ghost pre = *self;
            let ghost k = prev.assets.keys_seq()[i as int];
            proof {
                prev.assets.lemma_val_at(i as int);
                self.assets.lemma_val_at(i as int);
            }
            let hit = {
                let a = self.assets.val_at(i);
                holds_any_tag(&content_ids, &a.tags)
            };
            proof {
                assert(self.assets.spec_val_at(i as int) == prev.assets@[k]);
                if hit {
                    let t = choose|t: u128| #[trigger] content_ids@.contains(t)
                        && prev.assets@[k].tags.spec_has_tag(TagId(t));
                    assert(prev.collections@[id.0].content@.contains(t));
                    assert(prev.collection_holds_asset(id.0, k));
                } else {
                    if prev.collection_holds_asset(id.0, k) {
                        let t = choose|t: u128|
                            #[trigger] prev.collections@[id.0].content@.contains(t)
                                && prev.assets@[k].tags.spec_has_tag(TagId(t));
                        assert(content_ids@.contains(t));
                        assert(false);
                    }
                }
                assert(hit == prev.collection_holds_asset(id.0, k));
            }
            if hit {
                let kk = self.assets.key_at(i);
                let a = self.assets.val_at_mut(i);
                a.is_deleted = true;
                self.cache.remove_asset(AssetId(kk));
                self.recycle_bin.assets.insert(kk);
                proof {
                    assert(kk == k);
                    assert forall|j2: int| 0 <= j2 < n && j2 != i
                        implies #[trigger] self.assets.spec_val_at(j2)
                            == pre.assets.spec_val_at(j2) by {}
                    assert forall|j2: int| 0 <= j2 < i
                        implies #[trigger] pre.assets.spec_val_at(j2)
                            == if prev.collection_holds_asset(
                                id.0,
                                prev.assets.keys_seq()[j2],
                            ) {
                            (Asset { is_deleted: true, ..prev.assets.spec_val_at(j2) })
                        } else {
                            prev.assets.spec_val_at(j2)
                        } by {}
                    assert(self.assets.spec_val_at(i as int)
                        == (Asset { is_deleted: true, ..pre.assets.spec_val_at(i as int) }));
                    assert(pre.assets.spec_val_at(i as int)
                        == prev.assets.spec_val_at(i as int));
                    assert(prev.collection_holds_asset(id.0, k));
                    assert(self.assets@.dom() =~= pre.assets@.dom());
                    assert forall|a2: u128| #[trigger] self.assets@.dom().contains(a2)
                        implies self.assets@[a2].id.0 == a2 && self.assets@[a2].wf()
                            && (self.assets@[a2].is_deleted
                                <==> self.recycle_bin.assets@.contains(a2)) by {
                        if a2 != k {
                            assert(self.assets@[a2] == pre.assets@[a2]);
                        }
                    }
                    assert forall|a2: u128|
                        #[trigger] self.cache.asset_crc@.dom().contains(a2)
                        implies self.assets@.dom().contains(a2)
                            && !self.assets@[a2].is_deleted by {
                        assert(pre.cache.asset_crc@.dom().contains(a2));
                        assert(a2 != k);
                        assert(self.assets@[a2] == pre.assets@[a2]);
                    }
                    assert forall|a2: u128, t2: u128|
                        self.assets@.dom().contains(a2)
                            && #[trigger] self.assets@[a2].tags.ungrouped@.contains(t2)
                            && self.tags@.dom().contains(t2)
                        implies self.tags@[t2].group is None by {
                        if a2 != k {
                            assert(self.assets@[a2] == pre.assets@[a2]);
                        } else {
                            assert(self.assets@[a2].tags == pre.assets@[a2].tags);
                        }
                    }
                    assert forall|a2: u128, g2: u128|
                        self.assets@.dom().contains(a2)
                            && #[trigger] self.assets@[a2].tags.grouped@.dom().contains(g2)
                        implies (self.tags@.dom().contains(
                            self.assets@[a2].tags.grouped@[g2].0,
                        ) ==> self.tags@[self.assets@[a2].tags.grouped@[g2].0].group
                                == Some(CollectionId(g2))) by {
                        if a2 != k {
                            assert(self.assets@[a2] == pre.assets@[a2]);
                        } else {
                            assert(self.assets@[a2].tags == pre.assets@[a2].tags);
                        }
                    }
                    assert(self.wf());
                    assert forall|x: u128| #[trigger] self.recycle_bin.assets@.contains(x)
                        implies prev.recycle_bin.assets@.contains(x)
                            || (exists|j: int| 0 <= j < i + 1
                                && #[trigger] prev.assets.keys_seq()[j] == x
                                && prev.collection_holds_asset(id.0, x)) by {
                        if x == k {
                            assert(prev.assets.keys_seq()[i as int] == x);
                        }
                    }
                    assert forall|x: u128|
                        prev.recycle_bin.assets@.contains(x)
                            || (exists|j: int| 0 <= j < i + 1
                                && #[trigger] prev.assets.keys_seq()[j] == x
                                && prev.collection_holds_asset(id.0, x))
                        implies #[trigger] self.recycle_bin.assets@.contains(x) by {}
                    assert forall|x: u128|
                        #[trigger] self.cache.asset_crc@.dom().contains(x)
                        implies prev.cache.asset_crc@.dom().contains(x)
                            && !(exists|j: int| 0 <= j < i + 1
                                && #[trigger] prev.assets.keys_seq()[j] == x
                                && prev.collection_holds_asset(id.0, x)) by {
                        assert(x != k);
                        if exists|j: int| 0 <= j < i + 1
                            && #[trigger] prev.assets.keys_seq()[j] == x
                            && prev.collection_holds_asset(id.0, x) {
                            let j = choose|j: int| 0 <= j < i + 1
                                && #[trigger] prev.assets.keys_seq()[j] == x
                                && prev.collection_holds_asset(id.0, x);
                            assert(j < i || x == k);
                        }
                    }
                }
            } else {
                proof {
                    assert forall|x: u128|
                        #[trigger] self.cache.asset_crc@.dom().contains(x)
                        implies prev.cache.asset_crc@.dom().contains(x)
                            && !(exists|j: int| 0 <= j < i + 1
                                && #[trigger] prev.assets.keys_seq()[j] == x
                                && prev.collection_holds_asset(id.0, x)) by {
                        if exists|j: int| 0 <= j < i + 1
                            && #[trigger] prev.assets.keys_seq()[j] == x
                            && prev.collection_holds_asset(id.0, x) {
                            let j = choose|j: int| 0 <= j < i + 1
                                && #[trigger] prev.assets.keys_seq()[j] == x
                                && prev.collection_holds_asset(id.0, x);
                            if j == i {
                                assert(x == k);
                                assert(!prev.collection_holds_asset(id.0, x));
                            }
                        }
                    }
                    assert forall|x: u128|
                        prev.cache.asset_crc@.dom().contains(x)
                            && !(exists|j: int| 0 <= j < i + 1
                                && #[trigger] prev.assets.keys_seq()[j] == x
                                && prev.collection_holds_asset(id.0, x))
                        implies #[trigger] self.cache.asset_crc@.dom().contains(x) by {
                        if exists|j: int| 0 <= j < i
                            && #[trigger] prev.assets.keys_seq()[j] == x
                            && prev.collection_holds_asset(id.0, x) {
                            let j = choose|j: int| 0 <= j < i
                                && #[trigger] prev.assets.keys_seq()[j] == x
                                && prev.collection_holds_asset(id.0, x);
                        }
                    }
                    assert forall|x: u128| #[trigger] self.recycle_bin.assets@.contains(x)
                        implies prev.recycle_bin.assets@.contains(x)
                            || (exists|j: int| 0 <= j < i + 1
                                && #[trigger] prev.assets.keys_seq()[j] == x
                                && prev.collection_holds_asset(id.0, x)) by {}
                }
            }
            i += 1;
        }
        proof {
            assert forall|a: u128| #[trigger] prev.assets@.dom().contains(a)
                implies final(self).assets@[a]
                    == if prev.collection_holds_asset(id.0, a) {
                    (Asset { is_deleted: true, ..prev.assets@[a] })
                } else {
                    prev.assets@[a]
                } by {
                prev.assets.lemma_dom();
                prev.assets.lemma_index_of(a);
                let j = prev.assets.spec_index_of(a);
                prev.assets.lemma_val_at(j);
                self.assets.lemma_val_at(j);
            }
            assert forall|x: u128|
                (exists|j: int| 0 <= j < n && #[trigger] prev.assets.keys_seq()[j] == x
                    && prev.collection_holds_asset(id.0, x))
                <==> (prev.assets@.dom().contains(x)
                    && prev.collection_holds_asset(id.0, x)) by {
                prev.assets.lemma_dom();
                if prev.assets@.dom().contains(x) && prev.collection_holds_asset(id.0, x) {
                    prev.assets.lemma_index_of(x);
                    let j = prev.assets.spec_index_of(x);
                    assert(prev.assets.keys_seq()[j] == x);
                }
                if exists|j: int| 0 <= j < n && #[trigger] prev.assets.keys_seq()[j] == x
                    && prev.collection_holds_asset(id.0, x) {
                    let j = choose|j: int| 0 <= j < n
                        && #[trigger] prev.assets.keys_seq()[j] == x
                        && prev.collection_holds_asset(id.0, x);
                    assert(prev.assets.keys_seq().contains(x)) by {
                        assert(prev.assets.keys_seq()[j] == x);
                    }
                }
            }
            assert(final(self).recycle_bin.collections@
                =~= prev.recycle_bin.collections@.insert(id.0));
        }
        Ok(())
    }
}


/// Establishes `recovery_blocked` from a concrete witness chain whose
/// elements are present and flagged, correctly linked, starting at `start`,
/// whose last link is `c`, with `c` absent, repeated, or the chain over the
/// collection count.
proof fn lemma_blocked_witness(s: Storage, start: u128, chain: Seq<u128>, c: u128)
    requires
        chain.len() > 0,
        chain[0] == start,
        forall|k: int| 0 <= k < chain.len() ==> {
            &&& s.collections@.dom().contains(#[trigger] chain[k])
            &&& s.collections@[chain[k]].is_deleted
        },
        forall|k: int| 0 <= k < chain.len() - 1
            ==> s.collections@[#[trigger] chain[k]].parent == Some(CollectionId(chain[k + 1])),
        s.collections@[chain[chain.len() - 1]].parent == Some(CollectionId(c)),
        !s.collections@.dom().contains(c) || chain.contains(c)
            || chain.len() > s.collections.keys_seq().len(),
    ensures
        recovery_blocked(s, start, c),
        s.collections@[start].is_deleted,
{
    assert(binned_chain(s, start, chain));
    assert(s.collections@[chain[0]].is_deleted);
}

impl Storage {
    /// Re-registers the checksum of a live asset in the duplicate cache, as
    /// done after recovery re-reads its backing file.  Returns whether the
    /// asset is live; otherwise nothing changes.
    pub fn register_asset_crc(&mut self, id: AssetId, crc: u32) -> (r: bool)
        requires
            old(self).wf(),
        ensures
            final(self).wf(),
            r == (old(self).assets@.dom().contains(id.0)
                && !old(self).assets@[id.0].is_deleted),
            r ==> final(self).cache.asset_crc@
                    == old(self).cache.asset_crc@.insert(id.0, crc)
                && final(self).assets == old(self).assets
                && final(self).collections == old(self).collections
                && final(self).tags == old(self).tags
                && final(self).recycle_bin == old(self).recycle_bin
                && final(self).sp_collections == old(self).sp_collections
                && final(self).lib_meta == old(self).lib_meta,
            !r ==> *final(self) == *old(self),
    {
        let live = match self.assets.get(id.0) {
            Some(a) => !a.is_deleted,
            None => false,
        };
        if live {
            self.cache.add_asset(crc, id);
        }
        live
    }

    /// Recovers a soft-deleted collection: walks its chain of soft-deleted
    /// ancestors, then re-links and un-flags them from the top down, so
    /// that a recovered collection is never orphaned.  With
    /// `recover_content`, the binned assets holding one of its content tags
    /// are un-flagged as well; their identifiers are returned so the caller
    /// can re-read each backing file and re-register its checksum.
    #[verifier::spinoff_prover]
    #[verifier::rlimit(60)]
    pub fn recover_collection(&mut self, id: CollectionId, recover_content: bool) -> (r: Result<
        Vec<AssetId>,
        StorageError,
    >)
        requires
            old(self).wf(),
        ensures
            final(self).wf(),
            match r {
                Ok(recovered) => {
                    &&& old(self).collections@.dom().contains(id.0)
                    &&& final(self).collections@.dom() == old(self).collections@.dom()
                    &&& !final(self).collections@[id.0].is_deleted
                    // only un-deletions and re-listings happen
                    &&& forall|c: u128| #[trigger] old(self).collections@.dom().contains(c)
                        ==> {
                            let c0 = old(self).collections@[c];
                            let c1 = final(self).collections@[c];
                            &&& (c1.is_deleted ==> c0.is_deleted)
                            &&& (Collection { is_deleted: c1.is_deleted, children: c1.children, ..c1 })
                                == (Collection { is_deleted: c1.is_deleted, children: c1.children, ..c0 })
                            &&& forall|x: u128| #[trigger] c0.children@.contains(x)
                                ==> c1.children@.contains(x)
                        }
                    &&& final(self).tags == old(self).tags
                    &&& final(self).cache == old(self).cache
                    &&& final(self).sp_collections == old(self).sp_collections
                    &&& final(self).lib_meta == old(self).lib_meta
                    &&& final(self).assets@.dom() == old(self).assets@.dom()
                    &&& (!recover_content ==> final(self).assets == old(self).assets
                        && final(self).recycle_bin.assets == old(self).recycle_bin.assets
                        && recovered@.len() == 0)
                    &&& (recover_content ==> forall|a: u128|
                        #[trigger] old(self).assets@.dom().contains(a)
                        ==> final(self).assets@[a]
                            == if old(self).assets@[a].is_deleted
                                && old(self).collection_holds_asset(id.0, a) {
                            (Asset { is_deleted: false, ..old(self).assets@[a] })
                        } else {
                            old(self).assets@[a]
                        })
                    &&& (recover_content ==> forall|x: AssetId|
                        #[trigger] recovered@.contains(x)
                        <==> old(self).assets@.dom().contains(x.0)
                            && old(self).assets@[x.0].is_deleted
                            && old(self).collection_holds_asset(id.0, x.0))
                },
                Err(e) => {
                    &&& *final(self) == *old(self)
                    &&& e is CollectionNotFound
                    &&& (e matches StorageError::CollectionNotFound(c) ==> {
                        if !old(self).collections@.dom().contains(id.0) {
                            c == id
                        } else {
                            &&& old(self).collections@[id.0].is_deleted
                            &&& recovery_blocked(*old(self), id.0, c.0)
                        }
                    })
                },
            },
    {
        let ghost prev = *self;
        let pos = match self.collections.position_of(id.0) {
            Some(i) => i,
            None => {
                return Err(StorageError::CollectionNotFound(id));
            },
        };
        // Gather the chain of soft-deleted ancestors, starting at the
        // collection itself: chain[k + 1] is the parent of chain[k].
        let mut chain: Vec<u128> = Vec::new();
        let mut cur: u128 = id.0;
        let mut fuel = self.collections.len();
        let mut done = false;
        while !done
            invariant
                self == old(self),
                prev == *old(self),
                prev.wf(),
                prev.collections@.dom().contains(cur),
                prev.collections@.dom().contains(id.0),
                chain@.len() > 0 ==> chain@[0] == id.0,
                chain@.len() == 0 ==> cur == id.0,
                forall|k: int| 0 <= k < chain@.len() ==> {
                    &&& prev.collections@.dom().contains(#[trigger] chain@[k])
                    &&& prev.collections@[chain@[k]].is_deleted
                    &&& prev.collections@[chain@[k]].parent is Some
                    &&& prev.collections@[chain@[k]].parent->Some_0.0 != chain@[k]
                    &&& prev.collections@.dom().contains(
                        prev.collections@[chain@[k]].parent->Some_0.0,
                    )
                },
                forall|k: int| 0 <= k < chain@.len() - 1
                    ==> prev.collections@[#[trigger] chain@[k]].parent
                        == Some(CollectionId(chain@[k + 1])),
                chain@.len() > 0
                    ==> prev.collections@[chain@[chain@.len() - 1]].parent
                        == Some(CollectionId(cur)),
                chain@.no_duplicates(),
                fuel == self.collections.keys_seq().len() - chain@.len(),
                done ==> (chain@.len() == 0 ==> !prev.collections@[id.0].is_deleted),
                done ==> !prev.collections@[cur].is_deleted,
            decreases fuel + (if done { 0int } else { 1int }),
        {
            let col = match self.collections.get(cur) {
                Some(c) => c,
                None => {
                    proof {
                        assert(false);
                    }
                    return Err(StorageError::CollectionNotFound(CollectionId(cur)));
                },
            };
            if !col.is_deleted {
                done = true;
            } else {
                let parent = match col.parent {
                    Some(p) => p,
                    None => {
                        proof {
                            assert(cur == prev.sp_collections.root.0);
                            assert(false);
                        }
                        return Err(StorageError::CollectionNotFound(CollectionId(cur)));
                    },
                };
                if parent.0 == cur {
                    // A self-referential parent pointer cannot be re-linked.
                    proof {
                        lemma_blocked_witness(prev, id.0, chain@.push(cur), parent.0);
                    }
                    return Err(StorageError::CollectionNotFound(parent));
                }
                if !self.collections.contains_key(parent.0) {
                    // The parent was hard-deleted; the chain cannot be
                    // re-linked.
                    proof {
                        lemma_blocked_witness(prev, id.0, chain@.push(cur), parent.0);
                    }
                    return Err(StorageError::CollectionNotFound(parent));
                }
                if vec_contains_u128(&chain, cur) {
                    // A parent cycle among soft-deleted collections cannot
                    // be re-linked.
                    proof {
                        lemma_blocked_witness(prev, id.0, chain@, cur);
                    }
                    return Err(StorageError::CollectionNotFound(CollectionId(cur)));
                }
                if fuel == 0 {
                    // A walk longer than the collection count can only mean
                    // a parent cycle.
                    proof {
                        lemma_blocked_witness(prev, id.0, chain@.push(cur), parent.0);
                    }
                    return Err(StorageError::CollectionNotFound(parent));
                }
                fuel -= 1;
                let ghost oldchain = chain@;
                chain.push(cur);
                proof {
                    assert forall|p: int, q: int| 0 <= p < q < chain@.len()
                        implies chain@[p] != chain@[q] by {
                        if q == chain@.len() - 1 {
                            assert(chain@[p] == oldchain[p]);
                            assert(oldchain.contains(oldchain[p])) by {
                                assert(oldchain[p] == oldchain[p]);
                            }
                        } else {
                            assert(chain@[p] == oldchain[p]);
                            assert(chain@[q] == oldchain[q]);
                        }
                    }
                    assert forall|k: int| 0 <= k < chain@.len() - 1
                        implies prev.collections@[#[trigger] chain@[k]].parent
                            == Some(CollectionId(chain@[k + 1])) by {
                        if k < oldchain.len() - 1 {
                            assert(chain@[k] == oldchain[k]);
                            assert(chain@[k + 1] == oldchain[k + 1]);
                        } else {
                            assert(chain@[k] == oldchain[oldchain.len() - 1]);
                            assert(chain@[k + 1] == cur);
                        }
                    }
                    assert forall|k: int| 0 <= k < chain@.len() implies {
                        &&& prev.collections@.dom().contains(#[trigger] chain@[k])
                        &&& prev.collections@[chain@[k]].is_deleted
                        &&& prev.collections@[chain@[k]].parent is Some
                        &&& prev.collections@[chain@[k]].parent->Some_0.0 != chain@[k]
                        &&& prev.collections@.dom().contains(
                            prev.collections@[chain@[k]].parent->Some_0.0,
                        )
                    } by {
                        if k < oldchain.len() {
                            assert(chain@[k] == oldchain[k]);
                        } else {
                            assert(chain@[k] == cur);
                        }
                    }
                }
                cur = parent.0;
            }
        }
        // Re-link and un-flag the chain from the top down.  Each step
        // re-attaches a collection whose parent is already live (or was
        // never deleted).
        let m = chain.len();
        let mut step: usize = 0;
        while step < m
            invariant
                prev.wf(),
                self.wf(),
                m == chain@.len(),
                step <= m,
                self.collections@.dom() == prev.collections@.dom(),
                chain@.len() > 0 ==> chain@[0] == id.0,
                forall|k: int| 0 <= k < m ==> {
                    &&& prev.collections@.dom().contains(#[trigger] chain@[k])
                    &&& prev.collections@[chain@[k]].is_deleted
                    &&& prev.collections@[chain@[k]].parent is Some
                    &&& prev.collections@[chain@[k]].parent->Some_0.0 != chain@[k]
                    &&& prev.collections@.dom().contains(
                        prev.collections@[chain@[k]].parent->Some_0.0,
                    )
                },
                m == 0 ==> !prev.collections@[id.0].is_deleted,
                chain@.no_duplicates(),
                forall|k: int| 0 <= k < m
                    ==> !self.collections@[#[trigger] chain@[m - 1 - k]].is_deleted
                        == (k < step),
                forall|c: u128| #[trigger] prev.collections@.dom().contains(c) ==> {
                    let c0 = prev.collections@[c];
                    let c1 = self.collections@[c];
                    &&& (c1.is_deleted ==> c0.is_deleted)
                    &&& (Collection { is_deleted: c1.is_deleted, children: c1.children, ..c1 })
                        == (Collection { is_deleted: c1.is_deleted, children: c1.children, ..c0 })
                    &&& forall|x: u128| #[trigger] c0.children@.contains(x)
                        ==> c1.children@.contains(x)
                },
                self.tags == prev.tags,
                self.assets == prev.assets,
                self.cache == prev.cache,
                self.recycle_bin.assets == prev.recycle_bin.assets,
                self.recycle_bin.tags == prev.recycle_bin.tags,
                self.sp_collections == prev.sp_collections,
                self.lib_meta == prev.lib_meta,
            decreases m - step,
        {
            let ghost preself = *self;
            let c_id = chain[m - 1 - step];
            let cpos = match self.collections.position_of(c_id) {
                Some(i) => i,
                None => {
                    proof {
                        assert(false);
                    }
                    0
                },
            };
            let parent_id = match self.collections.val_at(cpos).parent {
                Some(p) => p,
                None => {
                    proof {
                        assert(false);
                    }
                    CollectionId(0)
                },
            };
            proof {
                assert(chain@[m - 1 - step as int] == c_id);
                assert(self.collections@[c_id].parent == prev.collections@[c_id].parent);
                assert(prev.collections@[c_id].parent == Some(parent_id));
                assert(parent_id.0 != c_id);
            }
            let c = self.collections.val_at_mut(cpos);
            c.is_deleted = false;
            let ppos = match self.collections.position_of(parent_id.0) {
                Some(i) => i,
                None => {
                    proof {
                        assert(false);
                    }
                    0
                },
            };
            let p = self.collections.val_at_mut(ppos);
            p.children.insert(c_id);
            self.recycle_bin.collections.remove(c_id);
            proof {
                assert(self.collections@.dom() =~= preself.collections@.dom());
                assert forall|k: int| 0 <= k < m
                    implies !self.collections@[#[trigger] chain@[m - 1 - k]].is_deleted
                        == (k < step + 1) by {
                    if m - 1 - k == m - 1 - step as int {
                        assert(k == step);
                    } else {
                        assert(chain@[m - 1 - k] != c_id);
                        assert(self.collections@[chain@[m - 1 - k]].is_deleted
                            == preself.collections@[chain@[m - 1 - k]].is_deleted);
                    }
                }
            }
            step += 1;
        }
        proof {
            assert(chain@.len() > 0 ==> !self.collections@[id.0].is_deleted) by {
                if chain@.len() > 0 {
                    assert(chain@[m - 1 - (m - 1)] == id.0);
                }
            }
        }
        // Content recovery: un-flag the binned assets holding one of this
        // collection's content tags.
        let mut recovered: Vec<AssetId> = Vec::new();
        if recover_content {
            let cpos = match self.collections.position_of(id.0) {
                Some(i) => i,
                None => {
                    proof {
                        assert(false);
                    }
                    0
                },
            };
            let content_ids = {
                let col = self.collections.val_at(cpos);
                let cm = col.content.len();
                let mut v: Vec<u128> = Vec::new();
                let mut k: usize = 0;
                while k < cm
                    invariant
                        col.wf(),
                        cm == col.content.elems().len(),
                        k <= cm,
                        v@ == col.content.elems().subrange(0, k as int),
                    decreases cm - k,
                {
                    v.push(col.content.at(k));
                    proof {
                        assert(v@ =~= col.content.elems().subrange(0, k + 1));
                    }
                    k += 1;
                }
                proof {
                    assert(v@ =~= col.content.elems());
                }
                v
            };
            let ghost mid = *self;
            proof {
                mid.collections.lemma_val_at(cpos as int);
                let con = mid.collections@[id.0].content;
                con.lemma_elems();
                assert(mid.collections@[id.0].content == prev.collections@[id.0].content);
                assert(forall|t: u128| #[trigger] content_ids@.contains(t)
                    <==> prev.collections@[id.0].content@.contains(t));
            }
            let n = self.assets.len();
            let mut i: usize = 0;
            proof {
                assert(mid.assets == prev.assets);
            }
            while i < n
                invariant
                    prev.wf(),
                    mid.wf(),
                    self.wf(),
                    n == prev.assets.keys_seq().len(),
                    i <= n,
                    mid.assets == prev.assets,
                    mid.recycle_bin.assets == prev.recycle_bin.assets,
                    self.collections == mid.collections,
                    self.tags == mid.tags,
                    self.cache == mid.cache,
                    self.sp_collections == mid.sp_collections,
                    self.lib_meta == mid.lib_meta,
                    self.recycle_bin.collections == mid.recycle_bin.collections,
                    self.recycle_bin.tags == mid.recycle_bin.tags,
                    self.assets.keys_seq() == prev.assets.keys_seq(),
                    self.assets@.dom() == prev.assets@.dom(),
                    forall|t: u128| #[trigger] content_ids@.contains(t)
                        <==> prev.collections@[id.0].content@.contains(t),
                    forall|j: int| i <= j < n
                        ==> #[trigger] self.assets.spec_val_at(j)
                            == prev.assets.spec_val_at(j),
                    forall|j: int| 0 <= j < i
                        ==> #[trigger] self.assets.spec_val_at(j)
                            == if prev.assets.spec_val_at(j).is_deleted
                                && prev.collection_holds_asset(
                                    id.0,
                                    prev.assets.keys_seq()[j],
                                ) {
                            (Asset { is_deleted: false, ..prev.assets.spec_val_at(j) })
                        } else {
                            prev.assets.spec_val_at(j)
                        },
                    forall|x: AssetId| #[trigger] recovered@.contains(x)
                        <==> exists|j: int| 0 <= j < i
                            && #[trigger] prev.assets.keys_seq()[j] == x.0
                            && prev.assets.spec_val_at(j).is_deleted
                            && prev.collection_holds_asset(id.0, x.0),
                decreases n - i,
            {
                let ghost pre = *self;
                let ghost k = prev.assets.keys_seq()[i as int];
                proof {
                    prev.assets.lemma_val_at(i as int);
                    self.assets.lemma_val_at(i as int);
                }
                let hit = {
                    let a = self.assets.val_at(i);
                    a.is_deleted && holds_any_tag(&content_ids, &a.tags)
                };
                proof {
                    assert(self.assets.spec_val_at(i as int) == prev.assets@[k]);
                    if hit {
                        let t = choose|t: u128| #[trigger] content_ids@.contains(t)
                            && prev.assets@[k].tags.spec_has_tag(TagId(t));
                        assert(prev.collections@[id.0].content@.contains(t));
                        assert(prev.collection_holds_asset(id.0, k));
                    } else {
                        if prev.assets@[k].is_deleted
                            && prev.collection_holds_asset(id.0, k) {
                            let t = choose|t: u128|
                                #[trigger] prev.collections@[id.0].content@.contains(t)
                                    && prev.assets@[k].tags.spec_has_tag(TagId(t));
                            assert(content_ids@.contains(t));
                            assert(false);
                        }
                    }
                    assert(hit == (prev.assets@[k].is_deleted
                        && prev.collection_holds_asset(id.0, k)));
                }
                if hit {
                    let kk = self.assets.key_at(i);
                    let a = self.assets.val_at_mut(i);
                    a.is_deleted = false;
                    self.recycle_bin.assets.remove(kk);
                    let ghost oldrec = recovered@;
                    recovered.push(AssetId(kk));
                    proof {
                        assert(kk == k);
                        assert(self.assets@.dom() =~= pre.assets@.dom());
                        assert forall|a2: u128| #[trigger] self.assets@.dom().contains(a2)
                            implies self.assets@[a2].id.0 == a2 && self.assets@[a2].wf()
                                && (self.assets@[a2].is_deleted
                                    <==> self.recycle_bin.assets@.contains(a2)) by {
                            if a2 != k {
                                assert(self.assets@[a2] == pre.assets@[a2]);
                            }
                        }
                        assert forall|a2: u128|
                            #[trigger] self.cache.asset_crc@.dom().contains(a2)
                            implies self.assets@.dom().contains(a2)
                                && !self.assets@[a2].is_deleted by {
                            if a2 != k {
                                assert(self.assets@[a2] == pre.assets@[a2]);
                            }
                        }
                        assert forall|a2: u128, t2: u128|
                            self.assets@.dom().contains(a2)
                                && #[trigger] self.assets@[a2].tags.ungrouped@.contains(t2)
                                && self.tags@.dom().contains(t2)
                            implies self.tags@[t2].group is None by {
                            if a2 != k {
                                assert(self.assets@[a2] == pre.assets@[a2]);
                            } else {
                                assert(self.assets@[a2].tags == pre.assets@[a2].tags);
                            }
                        }
                        assert forall|a2: u128, g2: u128|
                            self.assets@.dom().contains(a2)
                                && #[trigger] self.assets@[a2].tags.grouped@.dom().contains(
                                g2,
                            )
                            implies (self.tags@.dom().contains(
                                self.assets@[a2].tags.grouped@[g2].0,
                            ) ==> self.tags@[self.assets@[a2].tags.grouped@[g2].0].group
                                    == Some(CollectionId(g2))) by {
                            if a2 != k {
                                assert(self.assets@[a2] == pre.assets@[a2]);
                            } else {
                                assert(self.assets@[a2].tags == pre.assets@[a2].tags);
                            }
                        }
                        assert(self.wf());
                        assert forall|x: AssetId| #[trigger] recovered@.contains(x)
                            implies exists|j: int| 0 <= j < i + 1
                                && #[trigger] prev.assets.keys_seq()[j] == x.0
                                && prev.assets.spec_val_at(j).is_deleted
                                && prev.collection_holds_asset(id.0, x.0) by {
                            let q = choose|q: int|
                                0 <= q < recovered@.len() && recovered@[q] == x;
                            if q < recovered@.len() - 1 {
                                assert(oldrec[q] == x);
                                assert(oldrec.contains(x));
                            } else {
                                assert(x == AssetId(k));
                                assert(prev.assets.keys_seq()[i as int] == x.0);
                            }
                        }
                        assert forall|x: AssetId|
                            (exists|j: int| 0 <= j < i + 1
                                && #[trigger] prev.assets.keys_seq()[j] == x.0
                                && prev.assets.spec_val_at(j).is_deleted
                                && prev.collection_holds_asset(id.0, x.0))
                            implies #[trigger] recovered@.contains(x) by {
                            let j = choose|j: int| 0 <= j < i + 1
                                && #[trigger] prev.assets.keys_seq()[j] == x.0
                                && prev.assets.spec_val_at(j).is_deleted
                                && prev.collection_holds_asset(id.0, x.0);
                            if j < i {
                                assert(oldrec.contains(x));
                                let q = choose|q: int|
                                    0 <= q < oldrec.len() && oldrec[q] == x;
                                assert(recovered@[q] == x);
                            } else {
                                assert(x == AssetId(k));
                                assert(recovered@[recovered@.len() - 1] == x);
                            }
                        }
                    }
                } else {
                    proof {
                        assert forall|x: AssetId|
                            (exists|j: int| 0 <= j < i + 1
                                && #[trigger] prev.assets.keys_seq()[j] == x.0
                                && prev.assets.spec_val_at(j).is_deleted
                                && prev.collection_holds_asset(id.0, x.0))
                            implies #[trigger] recovered@.contains(x) by {
                            let j = choose|j: int| 0 <= j < i + 1
                                && #[trigger] prev.assets.keys_seq()[j] == x.0
                                && prev.assets.spec_val_at(j).is_deleted
                                && prev.collection_holds_asset(id.0, x.0);
                            assert(j != i);
                        }
                    }
                }
                i += 1;
            }
        }
        proof {
            if recover_content {
                assert forall|a: u128| #[trigger] prev.assets@.dom().contains(a)
                    implies final(self).assets@[a]
                        == if prev.assets@[a].is_deleted
                            && prev.collection_holds_asset(id.0, a) {
                        (Asset { is_deleted: false, ..prev.assets@[a] })
                    } else {
                        prev.assets@[a]
                    } by {
                    prev.assets.lemma_dom();
                    prev.assets.lemma_index_of(a);
                    let j = prev.assets.spec_index_of(a);
                    prev.assets.lemma_val_at(j);
                    self.assets.lemma_val_at(j);
                }
                assert forall|x: AssetId| #[trigger] recovered@.contains(x)
                    implies prev.assets@.dom().contains(x.0)
                        && prev.assets@[x.0].is_deleted
                        && prev.collection_holds_asset(id.0, x.0) by {
                    let j = choose|j: int| 0 <= j < prev.assets.keys_seq().len()
                        && #[trigger] prev.assets.keys_seq()[j] == x.0
                        && prev.assets.spec_val_at(j).is_deleted
                        && prev.collection_holds_asset(id.0, x.0);
                    prev.assets.lemma_val_at(j);
                }
                assert forall|x: AssetId|
                    prev.assets@.dom().contains(x.0) && prev.assets@[x.0].is_deleted
                        && prev.collection_holds_asset(id.0, x.0)
                    implies #[trigger] recovered@.contains(x) by {
                    prev.assets.lemma_dom();
                    prev.assets.lemma_index_of(x.0);
                    let j = prev.assets.spec_index_of(x.0);
                    prev.assets.lemma_val_at(j);
                }
            }
            // the collection itself ended live whether or not it was in the
            // chain
            assert(!final(self).collections@[id.0].is_deleted) by {
                if chain@.len() > 0 {
                    assert(chain@[chain@.len() - 1 - (chain@.len() - 1)] == id.0);
                }
            }
        }
        Ok(recovered)
    }
}


/// Library statistics: the total asset count and a per-extension histogram.
pub struct LibraryStatistics {
    pub total_assets: u32,
    pub asset_ext: Vec<(String, u32)>,
}

/// The sum of the histogram's counts.
pub open spec fn sum_counts(s: Seq<(String, u32)>) -> int
    decreases s.len(),
{
    if s.len() == 0 {
        0
    } else {
        sum_counts(s.drop_last()) + s.last().1
    }
}

/// The sum of an intermediate histogram's counts.
spec fn sum_hist(s: Seq<(String, usize)>) -> int
    decreases s.len(),
{
    if s.len() == 0 {
        0
    } else {
        sum_hist(s.drop_last()) + s.last().1
    }
}

/// Replacing one histogram entry changes the sum by the count difference.
proof fn lemma_sum_hist_update(s: Seq<(String, usize)>, p: int, v: (String, usize))
    requires
        0 <= p < s.len(),
    ensures
        sum_hist(s.update(p, v)) == sum_hist(s) - s[p].1 + v.1,
    decreases s.len(),
{
    if p == s.len() - 1 {
        assert(s.update(p, v).drop_last() =~= s.drop_last());
        assert(s.update(p, v).last() == v);
    } else {
        assert(s.update(p, v).drop_last() =~= s.drop_last().update(p, v));
        assert(s.update(p, v).last() == s.last());
        lemma_sum_hist_update(s.drop_last(), p, v);
    }
}

impl Storage {
    /// How many assets carry the given extension.
    pub open spec fn ext_count(self, e: Seq<char>) -> int {
        self.assets.keys_seq().filter(|k: u128| self.assets@[k].ext@ == e).len() as int
    }

    /// Tallies the total asset count (soft-deleted ones included, as they
    /// are still held) and the per-extension histogram.
    #[verifier::spinoff_prover]
    #[verifier::rlimit(100)]
    pub fn gen_statistics(&self) -> (r: LibraryStatistics)
        requires
            self.wf(),
        ensures
            r.total_assets as int == self.assets.keys_seq().len() % 0x1_0000_0000,
            forall|p: int, q: int| 0 <= p < q < r.asset_ext@.len()
                ==> (#[trigger] r.asset_ext@[p]).0@ != (#[trigger] r.asset_ext@[q]).0@,
            forall|p: int| 0 <= p < r.asset_ext@.len()
                ==> (#[trigger] r.asset_ext@[p]).1 as int
                    == self.ext_count(r.asset_ext@[p].0@) % 0x1_0000_0000,
            forall|k: u128| #[trigger] self.assets@.dom().contains(k)
                ==> exists|p: int| 0 <= p < r.asset_ext@.len()
                    && (#[trigger] r.asset_ext@[p]).0@ == self.assets@[k].ext@,
            // no spurious keys: every listed extension is carried by some
            // asset
            forall|p: int| 0 <= p < r.asset_ext@.len()
                ==> self.ext_count((#[trigger] r.asset_ext@[p]).0@) >= 1,
            // whenever the counts fit the report's 32-bit format — always,
            // short of four billion assets — they are exact and partition
            // the total
            self.assets.keys_seq().len() <= u32::MAX ==> {
                &&& r.total_assets == self.assets.keys_seq().len()
                &&& (forall|p: int| 0 <= p < r.asset_ext@.len()
                    ==> (#[trigger] r.asset_ext@[p]).1
                        == self.ext_count(r.asset_ext@[p].0@))
                &&& sum_counts(r.asset_ext@) == self.assets.keys_seq().len()
            },
    {
        let n = self.assets.len();
        let mut hist: Vec<(String, usize)> = Vec::new();
        let mut i: usize = 0;
        proof {
            reveal(Seq::filter);
            assert(self.assets.keys_seq().subrange(0, 0)
                =~= Seq::<u128>::empty());
        }
        while i < n
            invariant
                self.wf(),
                n == self.assets.keys_seq().len(),
                i <= n,
                forall|p: int, q: int| 0 <= p < q < hist@.len()
                    ==> (#[trigger] hist@[p]).0@ != (#[trigger] hist@[q]).0@,
                forall|p: int| 0 <= p < hist@.len()
                    ==> (#[trigger] hist@[p]).1 as int
                        == self.assets.keys_seq().subrange(0, i as int).filter(
                            |k: u128| self.assets@[k].ext@ == hist@[p].0@,
                        ).len(),
                forall|j: int| 0 <= j < i ==> exists|p: int|
                    0 <= p < hist@.len()
                        && (#[trigger] hist@[p]).0@
                            == self.assets@[#[trigger] self.assets.keys_seq()[j]].ext@,
                forall|p: int| 0 <= p < hist@.len() ==> (#[trigger] hist@[p]).1 >= 1,
                sum_hist(hist@) == i,
            decreases n - i,
        {
            let ghost key = self.assets.keys_seq()[i as int];
            let ghost prefix = self.assets.keys_seq().subrange(0, i as int);
            let ghost prefix1 = self.assets.keys_seq().subrange(0, i + 1);
            let a = self.assets.val_at(i);
            let m = hist.len();
            let mut p: usize = 0;
            let mut found = false;
            while p < m && !found
                invariant
                    m == hist@.len(),
                    p <= m,
                    !found ==> forall|q: int| 0 <= q < p
                        ==> (#[trigger] hist@[q]).0@ != a.ext@,
                    found ==> p < m && hist@[p as int].0@ == a.ext@,
                decreases m - p + (if found { 0int } else { 1int }),
            {
                if crate::text::str_eq(hist[p].0.as_str(), a.ext.as_str()) {
                    found = true;
                } else {
                    p += 1;
                }
            }
            let ghost oldhist = hist@;
            if found {
                let e2 = hist[p].0.clone();
                let c = hist[p].1;
                proof {
                    prefix.lemma_filter_len(|k: u128| self.assets@[k].ext@ == oldhist[p as int].0@);
                }
                hist[p] = (e2, c + 1);
                proof {
                    lemma_sum_hist_update(oldhist, p as int, (e2, (c + 1) as usize));
                }
            } else {
                hist.push((a.ext.clone(), 1));
                proof {
                    assert(hist@.drop_last() =~= oldhist);
                    assert(hist@.last().1 == 1);
                }
            }
            proof {
                reveal(Seq::filter);
                assert(prefix1.drop_last() =~= prefix);
                assert(prefix1.last() == key);
                assert(self.assets.spec_val_at(i as int) == self.assets@[key]);
                assert forall|pp: int| 0 <= pp < hist@.len()
                    implies (#[trigger] hist@[pp]).1 as int
                        == prefix1.filter(
                            |k: u128| self.assets@[k].ext@ == hist@[pp].0@,
                        ).len() by {
                    let pred = |k: u128| self.assets@[k].ext@ == hist@[pp].0@;
                    assert(prefix1.filter(pred) == if pred(key) {
                        prefix.filter(pred).push(key)
                    } else {
                        prefix.filter(pred)
                    });
                    if found {
                        if pp == p {
                            assert(hist@[pp].0@ == oldhist[p as int].0@);
                            assert(pred(key));
                        } else {
                            assert(hist@[pp] == oldhist[pp]);
                            assert(!pred(key)) by {
                                if pred(key) {
                                    assert(hist@[pp].0@ == self.assets@[key].ext@);
                                    assert(oldhist[p as int].0@ == self.assets@[key].ext@);
                                }
                            }
                        }
                    } else {
                        if pp == hist@.len() - 1 {
                            assert(hist@[pp].0@ == self.assets@[key].ext@);
                            assert(pred(key));
                            assert(prefix.filter(pred).len() == 0) by {
                                if prefix.filter(pred).len() > 0 {
                                    prefix.lemma_filter_pred(pred, 0);
                                    let x = prefix.filter(pred)[0];
                                    lemma_filter_member(prefix, pred, 0);
                                    let j = choose|j: int|
                                        0 <= j < prefix.len()
                                            && #[trigger] prefix[j] == x;
                                    assert(self.assets.keys_seq()[j] == x);
                                    let q = choose|q: int| 0 <= q < oldhist.len()
                                        && (#[trigger] oldhist[q]).0@
                                            == self.assets@[x].ext@;
                                }
                            }
                        } else {
                            assert(hist@[pp] == oldhist[pp]);
                            assert(!pred(key)) by {
                                if pred(key) {
                                    assert(oldhist[pp].0@ == self.assets@[key].ext@);
                                }
                            }
                        }
                    }
                }
                assert forall|j: int| 0 <= j < i + 1 implies exists|pp: int|
                    0 <= pp < hist@.len()
                        && (#[trigger] hist@[pp]).0@
                            == self.assets@[#[trigger] self.assets.keys_seq()[j]].ext@ by {
                    if j < i {
                        let pp = choose|pp: int| 0 <= pp < oldhist.len()
                            && (#[trigger] oldhist[pp]).0@
                                == self.assets@[self.assets.keys_seq()[j]].ext@;
                        assert(hist@[pp].0@ == oldhist[pp].0@);
                    } else {
                        if found {
                            assert(hist@[p as int].0@ == self.assets@[key].ext@);
                        } else {
                            assert(hist@[hist@.len() - 1].0@ == self.assets@[key].ext@);
                        }
                    }
                }
            }
            i += 1;
        }
        // Truncate the counts to the 32-bit report format.
        proof {
            assert(self.assets.keys_seq().subrange(0, n as int)
                =~= self.assets.keys_seq());
            assert forall|q: int| 0 <= q < hist@.len()
                implies (#[trigger] hist@[q]).1 <= n by {
                self.assets.keys_seq().lemma_filter_len(
                    |k: u128| self.assets@[k].ext@ == hist@[q].0@,
                );
            }
        }
        let mut out: Vec<(String, u32)> = Vec::new();
        let m = hist.len();
        let mut p: usize = 0;
        while p < m
            invariant
                m == hist@.len(),
                p <= m,
                out@.len() == p,
                n <= usize::MAX,
                sum_hist(hist@) == n,
                forall|q: int| 0 <= q < m ==> (#[trigger] hist@[q]).1 <= n,
                forall|q: int| 0 <= q < p ==> (#[trigger] out@[q]).0@ == hist@[q].0@
                    && out@[q].1 as int == hist@[q].1 as int % 0x1_0000_0000,
                n <= u32::MAX ==> (forall|q: int| 0 <= q < p
                    ==> (#[trigger] out@[q]).1 == hist@[q].1),
                n <= u32::MAX ==> sum_counts(out@) == sum_hist(hist@.subrange(0, p as int)),
            decreases m - p,
        {
            let e = hist[p].0.clone();
            let c = hist[p].1;
            let ghost pre_out = out@;
            out.push((e, ((c as u64) % 0x1_0000_0000u64) as u32));
            proof {
                if n <= u32::MAX {
                    assert(c <= n);
                    assert((c as u64) % 0x1_0000_0000u64 == c as u64);
                    assert(out@.drop_last() =~= pre_out);
                    assert(out@.last().1 == c);
                    assert(sum_counts(out@) == sum_counts(pre_out) + c);
                    assert(hist@.subrange(0, p as int + 1).drop_last()
                        =~= hist@.subrange(0, p as int));
                    assert(hist@.subrange(0, p as int + 1).last() == hist@[p as int]);
                    assert(sum_hist(hist@.subrange(0, p as int + 1))
                        == sum_hist(hist@.subrange(0, p as int)) + c);
                }
            }
            p += 1;
        }
        let total = ((n as u64) % 0x1_0000_0000u64) as u32;
        let r = LibraryStatistics { total_assets: total, asset_ext: out };
        proof {
            assert(self.assets.keys_seq().subrange(0, n as int)
                =~= self.assets.keys_seq());
            assert(hist@.subrange(0, m as int) =~= hist@);
            if n <= u32::MAX {
                assert(sum_counts(r.asset_ext@) == sum_hist(hist@));
                assert forall|p2: int| 0 <= p2 < r.asset_ext@.len()
                    implies (#[trigger] r.asset_ext@[p2]).1
                        == self.ext_count(r.asset_ext@[p2].0@) by {
                    assert(r.asset_ext@[p2].1 == hist@[p2].1);
                    assert(hist@[p2].1 as int
                        == self.ext_count(hist@[p2].0@));
                }
            }
            self.assets.lemma_dom();
            assert forall|k: u128| #[trigger] self.assets@.dom().contains(k)
                implies exists|pp: int| 0 <= pp < r.asset_ext@.len()
                    && (#[trigger] r.asset_ext@[pp]).0@ == self.assets@[k].ext@ by {
                self.assets.lemma_index_of(k);
                let j = self.assets.spec_index_of(k);
                assert(self.assets.keys_seq()[j] == k);
                let pp = choose|pp: int| 0 <= pp < hist@.len()
                    && (#[trigger] hist@[pp]).0@
                        == self.assets@[self.assets.keys_seq()[j]].ext@;
                assert(r.asset_ext@[pp].0@ == self.assets@[k].ext@);
            }
        }
        r
    }
}

/// A member of a filtered sequence occurs in the original.
proof fn lemma_filter_member(s: Seq<u128>, pred: spec_fn(u128) -> bool, i: int)
    requires
        0 <= i < s.filter(pred).len(),
    ensures
        exists|j: int| 0 <= j < s.len() && #[trigger] s[j] == s.filter(pred)[i],
    decreases s.len(),
{
    reveal(Seq::filter);
    if s.len() > 0 {
        let x = s.filter(pred)[i];
        if pred(s.last()) && i == s.filter(pred).len() - 1 {
            assert(s[s.len() - 1] == x);
        } else {
            lemma_filter_member(s.drop_last(), pred, i);
            let j = choose|j: int|
                0 <= j < s.drop_last().len() && #[trigger] s.drop_last()[j] == x;
            assert(s[j] == x);
        }
    }
}


/// A path of child links: consecutive entries are parent and child.
pub open spec fn is_child_path(cols: Map<u128, Collection>, path: Seq<u128>) -> bool {
    forall|i: int| 0 <= i < path.len() - 1
        ==> cols.dom().contains(#[trigger] path[i])
            && cols[path[i]].children@.contains(path[i + 1])
}

/// Whether `to` can be reached from `from` by following child links.
pub open spec fn reachable_from(cols: Map<u128, Collection>, from: u128, to: u128) -> bool {
    exists|path: Seq<u128>|
        #[trigger] is_child_path(cols, path) && path.len() >= 1 && path[0] == from
            && path[path.len() - 1] == to
}

/// One step of reachability: a child of a reachable collection is
/// reachable.
proof fn lemma_reach_step(cols: Map<u128, Collection>, from: u128, c: u128, x: u128)
    requires
        reachable_from(cols, from, c),
        cols.dom().contains(c),
        cols[c].children@.contains(x),
    ensures
        reachable_from(cols, from, x),
{
    let path = choose|path: Seq<u128>|
        #[trigger] is_child_path(cols, path) && path.len() >= 1 && path[0] == from
            && path[path.len() - 1] == c;
    let path2 = path.push(x);
    assert(is_child_path(cols, path2)) by {
        assert forall|i: int| 0 <= i < path2.len() - 1
            implies cols.dom().contains(#[trigger] path2[i])
                && cols[path2[i]].children@.contains(path2[i + 1]) by {
            if i < path.len() - 1 {
                assert(path2[i] == path[i]);
                assert(path2[i + 1] == path[i + 1]);
            } else {
                assert(path2[i] == c);
                assert(path2[i + 1] == x);
            }
        }
    }
    assert(path2[0] == from && path2[path2.len() - 1] == x);
}

/// Copies a set's elements into a vector.
fn uset_to_vec(s: &USet) -> (r: Vec<u128>)
    requires
        s.wf(),
    ensures
        r@ == s.elems(),
        r@.no_duplicates(),
        forall|x: u128| #[trigger] r@.contains(x) <==> s@.contains(x),
{
    let m = s.len();
    let mut v: Vec<u128> = Vec::new();
    let mut k: usize = 0;
    while k < m
        invariant
            s.wf(),
            m == s.elems().len(),
            k <= m,
            v@ == s.elems().subrange(0, k as int),
        decreases m - k,
    {
        v.push(s.at(k));
        proof {
            assert(v@ =~= s.elems().subrange(0, k + 1));
        }
        k += 1;
    }
    proof {
        assert(v@ =~= s.elems());
        s.lemma_elems();
        s.lemma_nodup();
    }
    v
}

/// Appends every entry of `kids` to `queue`.
fn push_all(queue: &mut Vec<u128>, kids: &Vec<u128>)
    ensures
        forall|x: u128| #[trigger] final(queue)@.contains(x)
            <==> old(queue)@.contains(x) || kids@.contains(x),
{
    let ghost prev = queue@;
    let kn = kids.len();
    let mut ki: usize = 0;
    while ki < kn
        invariant
            kn == kids@.len(),
            ki <= kn,
            queue@ == prev + kids@.subrange(0, ki as int),
        decreases kn - ki,
    {
        queue.push(kids[ki]);
        proof {
            assert(queue@ =~= prev + kids@.subrange(0, ki + 1));
        }
        ki += 1;
    }
    proof {
        assert(queue@ =~= prev + kids@);
        assert forall|x: u128| #[trigger] queue@.contains(x)
            implies prev.contains(x) || kids@.contains(x) by {
            let q = choose|q: int| 0 <= q < queue@.len() && queue@[q] == x;
            if q < prev.len() {
                assert(prev[q] == x);
            } else {
                assert(kids@[q - prev.len()] == x);
            }
        }
        assert forall|x: u128| prev.contains(x) || kids@.contains(x)
            implies #[trigger] queue@.contains(x) by {
            if prev.contains(x) {
                let q = choose|q: int| 0 <= q < prev.len() && prev[q] == x;
                assert(queue@[q] == x);
            } else {
                let q = choose|q: int| 0 <= q < kids@.len() && kids@[q] == x;
                assert(queue@[prev.len() + q] == x);
            }
        }
    }
}

impl Storage {
    /// Gathers everything reachable from `start` over child links, `start`
    /// first.  Every gathered node other than `start` is listed as a child
    /// by some gathered node.
    #[verifier::spinoff_prover]
    #[verifier::rlimit(100)]
    fn gather_reachable(&self, start: CollectionId) -> (visited: Vec<u128>)
        requires
            self.wf(),
            self.collections@.dom().contains(start.0),
        ensures
            visited@.no_duplicates(),
            visited@.contains(start.0),
            forall|k: int| 0 <= k < visited@.len()
                ==> self.collections@.dom().contains(#[trigger] visited@[k]),
            forall|k: int| 0 <= k < visited@.len()
                ==> reachable_from(self.collections@, start.0, #[trigger] visited@[k]),
            forall|k: int, x: u128|
                0 <= k < visited@.len()
                    && #[trigger] self.collections@[visited@[k]].children@.contains(x)
                ==> visited@.contains(x),
    {
        let mut visited: Vec<u128> = Vec::new();
        let mut queue: Vec<u128> = Vec::new();
        queue.push(start.0);
        proof {
            assert(reachable_from(self.collections@, start.0, start.0)) by {
                let path = seq![start.0];
                assert(is_child_path(self.collections@, path));
                assert(path[0] == start.0 && path[path.len() - 1] == start.0);
            }
            self.collections.lemma_dom_card();
            assert(queue@[0] == start.0);
        }
        let ghost cols = self.collections@;
        proof {
            assert forall|p: u128, x: u128|
                cols.dom().contains(p) && #[trigger] cols[p].children@.contains(x)
                implies cols.dom().contains(x) by {
                assert(self.child_link_ok(p, x));
            }
        }
        let mut done = false;
        while !done
            invariant
                done ==> queue@.len() == 0,
                self.collections.wf(),
                cols == self.collections@,
                forall|p: u128, x: u128|
                    cols.dom().contains(p) && #[trigger] cols[p].children@.contains(x)
                    ==> cols.dom().contains(x),
                forall|c2: u128| #[trigger] cols.dom().contains(c2) ==> cols[c2].wf(),
                self.collections@.dom().contains(start.0),
                self.collections@.dom().finite(),
                visited@.no_duplicates(),
                forall|k: int| 0 <= k < visited@.len()
                    ==> self.collections@.dom().contains(#[trigger] visited@[k]),
                forall|k: int| 0 <= k < visited@.len()
                    ==> reachable_from(self.collections@, start.0, #[trigger] visited@[k]),
                forall|k: int| 0 <= k < queue@.len()
                    ==> self.collections@.dom().contains(#[trigger] queue@[k])
                        && reachable_from(self.collections@, start.0, queue@[k]),
                forall|k: int, x: u128|
                    0 <= k < visited@.len()
                        && #[trigger] self.collections@[visited@[k]].children@.contains(x)
                    ==> visited@.contains(x) || queue@.contains(x),
                visited@.contains(start.0) || queue@.contains(start.0),
            decreases
                self.collections@.dom().len() - visited@.len(),
                queue@.len() + (if done { 0int } else { 1int }),
        {
            proof {
                visited@.unique_seq_to_set();
                vstd::set_lib::lemma_len_subset(visited@.to_set(), self.collections@.dom());
            }
            let ghost prepop = queue@;
            let popped = queue.pop();
            let c = match popped {
                Some(c) => c,
                None => {
                    done = true;
                    continue;
                },
            };
            let ghost oldqueue = queue@.push(c);
            proof {
                assert(prepop =~= oldqueue);
                assert(forall|k: int| 0 <= k < queue@.len()
                    ==> #[trigger] queue@[k] == oldqueue[k]);
                assert forall|x: u128| #[trigger] oldqueue.contains(x)
                    implies queue@.contains(x) || x == c by {
                    let q = choose|q: int| 0 <= q < oldqueue.len() && oldqueue[q] == x;
                    if q < oldqueue.len() - 1 {
                        assert(queue@[q] == x);
                    }
                }
                assert(oldqueue[oldqueue.len() - 1] == c);
                assert(oldqueue.contains(c)) by {
                    assert(oldqueue[oldqueue.len() - 1] == c);
                }
            }
            if vec_contains_u128(&visited, c) {
                proof {
                    assert forall|k: int, x: u128|
                        0 <= k < visited@.len()
                            && #[trigger] self.collections@[visited@[k]].children@.contains(x)
                        implies visited@.contains(x) || queue@.contains(x) by {
                        if !visited@.contains(x) {
                            assert(oldqueue.contains(x));
                            if x == c {
                                assert(visited@.contains(c));
                            }
                        }
                    }
                    if !visited@.contains(start.0) {
                        assert(oldqueue.contains(start.0));
                    }
                }
                continue;
            }
            let cpos = match self.collections.position_of(c) {
                Some(i) => i,
                None => {
                    proof {
                        assert(false);
                    }
                    0
                },
            };
            let kids = uset_to_vec(&self.collections.val_at(cpos).children);
            let ghost child_set = self.collections@[c].children@;
            proof {
                self.collections.lemma_val_at(cpos as int);
                assert(forall|x: u128| #[trigger] kids@.contains(x)
                    <==> child_set.contains(x));
            }
            let ghost oldvisited = visited@;
            visited.push(c);
            proof {
                assert forall|p: int, q: int| 0 <= p < q < visited@.len()
                    implies visited@[p] != visited@[q] by {
                    if q == visited@.len() - 1 {
                        assert(visited@[p] == oldvisited[p]);
                        assert(oldvisited.contains(oldvisited[p])) by {
                            assert(oldvisited[p] == oldvisited[p]);
                        }
                    } else {
                        assert(visited@[p] == oldvisited[p]);
                        assert(visited@[q] == oldvisited[q]);
                    }
                }
                assert(visited@[visited@.len() - 1] == c);
                assert forall|x: u128| oldvisited.contains(x)
                    implies #[trigger] visited@.contains(x) by {
                    let q = choose|q: int|
                        0 <= q < oldvisited.len() && oldvisited[q] == x;
                    assert(visited@[q] == x);
                }
                visited@.unique_seq_to_set();
                vstd::set_lib::lemma_len_subset(visited@.to_set(), self.collections@.dom());
            }
            let ghost prequeue = queue@;
            push_all(&mut queue, &kids);
            proof {
                assert forall|k: int| 0 <= k < queue@.len()
                    implies self.collections@.dom().contains(#[trigger] queue@[k])
                        && reachable_from(self.collections@, start.0, queue@[k]) by {
                    let x = queue@[k];
                    assert(queue@.contains(x)) by {
                        assert(queue@[k] == x);
                    }
                    if kids@.contains(x) {
                        lemma_reach_step(self.collections@, start.0, c, x);
                    }
                }
                assert forall|k: int, x: u128|
                    0 <= k < visited@.len()
                        && #[trigger] self.collections@[visited@[k]].children@.contains(x)
                    implies visited@.contains(x) || queue@.contains(x) by {
                    if k < visited@.len() - 1 {
                        assert(visited@[k] == oldvisited[k]);
                        if oldvisited.contains(x) {
                            let q = choose|q: int|
                                0 <= q < oldvisited.len() && oldvisited[q] == x;
                            assert(visited@[q] == x);
                        } else if x == c {
                            assert(visited@[visited@.len() - 1] == c);
                        } else {
                            assert(oldqueue.contains(x));
                            assert(prequeue.contains(x));
                        }
                    } else {
                        assert(visited@[k] == c);
                        assert(kids@.contains(x));
                    }
                }
                assert(visited@.contains(start.0) || queue@.contains(start.0)) by {
                    if start.0 == c {
                        assert(visited@[visited@.len() - 1] == c);
                    } else if oldvisited.contains(start.0) {
                        let q = choose|q: int|
                            0 <= q < oldvisited.len() && oldvisited[q] == start.0;
                        assert(visited@[q] == start.0);
                    } else {
                        assert(oldqueue.contains(start.0));
                        assert(prequeue.contains(start.0));
                    }
                }
            }
        }
        proof {
            assert forall|k: int, x: u128|
                0 <= k < visited@.len()
                    && #[trigger] self.collections@[visited@[k]].children@.contains(x)
                implies visited@.contains(x) by {
                if queue@.contains(x) {
                    let q = choose|q: int| 0 <= q < queue@.len() && queue@[q] == x;
                }
            }
            assert(visited@.contains(start.0)) by {
                if queue@.contains(start.0) {
                    let q = choose|q: int|
                        0 <= q < queue@.len() && queue@[q] == start.0;
                }
            }
        }
        visited
    }
}


impl Storage {
    /// Hard-deletes a collection and everything reachable from it over
    /// child links, with the content tags of every removed collection; the
    /// top is unlinked from its parent's listing.  Assets and the cache
    /// are untouched (collections hold tags, not assets); references to
    /// removed tags left in asset containers dangle and are ignored by
    /// every query.  The root is protected.
    #[verifier::spinoff_prover]
    #[verifier::rlimit(100)]
    pub fn delete_collection(&mut self, id: CollectionId) -> (r: Result<(), StorageError>)
        requires
            old(self).wf(),
        ensures
            final(self).wf(),
            match r {
                Ok(()) => {
                    &&& id != old(self).sp_collections.root
                    &&& old(self).collections@.dom().contains(id.0)
                    &&& !final(self).collections@.dom().contains(id.0)
                    &&& final(self).collections@.dom().contains(
                        old(self).sp_collections.root.0,
                    )
                    &&& forall|c: u128| #[trigger] final(self).collections@.dom().contains(c)
                        ==> old(self).collections@.dom().contains(c)
                    &&& forall|c: u128| old(self).collections@.dom().contains(c)
                            && !(#[trigger] final(self).collections@.dom().contains(c))
                        ==> reachable_from(old(self).collections@, id.0, c)
                    &&& forall|c: u128, x: u128|
                        old(self).collections@.dom().contains(c)
                            && !final(self).collections@.dom().contains(c)
                            && #[trigger] old(self).collections@[c].children@.contains(x)
                        ==> !final(self).collections@.dom().contains(x)
                    &&& forall|t: u128| #[trigger] final(self).tags@.dom().contains(t)
                        <==> old(self).tags@.dom().contains(t)
                            && !(exists|c: u128|
                                old(self).collections@.dom().contains(c)
                                    && !final(self).collections@.dom().contains(c)
                                    && #[trigger] old(self).collections@[c].content@.contains(
                                    t,
                                ))
                    &&& forall|t: u128| #[trigger] final(self).tags@.dom().contains(t)
                        ==> final(self).tags@[t] == old(self).tags@[t]
                    &&& forall|c: u128| #[trigger] final(self).collections@.dom().contains(c)
                        ==> {
                            let c0 = old(self).collections@[c];
                            let c1 = final(self).collections@[c];
                            &&& (Collection { children: c1.children, ..c1 })
                                == (Collection { children: c1.children, ..c0 })
                            &&& forall|x: u128| #[trigger] c1.children@.contains(x)
                                <==> c0.children@.contains(x)
                                    && final(self).collections@.dom().contains(x)
                        }
                    &&& final(self).assets == old(self).assets
                    &&& final(self).cache == old(self).cache
                    &&& final(self).recycle_bin.assets == old(self).recycle_bin.assets
                    &&& final(self).sp_collections == old(self).sp_collections
                    &&& final(self).lib_meta == old(self).lib_meta
                },
                Err(e) => {
                    &&& *final(self) == *old(self)
                    &&& (e matches StorageError::IllegalCollectionModification(c)
                        ==> c == id && id == old(self).sp_collections.root)
                    &&& (e matches StorageError::CollectionNotFound(c)
                        ==> c == id && id != old(self).sp_collections.root
                            && !old(self).collections@.dom().contains(id.0))
                    &&& (e is IllegalCollectionModification || e is CollectionNotFound)
                },
            },
    {
        if self.sp_collections.is_special(id) {
            return Err(StorageError::IllegalCollectionModification(id));
        }
        let ghost prev = *self;
        if !self.collections.contains_key(id.0) {
            return Err(StorageError::CollectionNotFound(id));
        }
        let visited = self.gather_reachable(id);
        let ghost vs = visited@;
        proof {
            // the root is not reachable from a non-root collection: it sits
            // in no child set, and the start is not the root
            assert forall|k: int| 0 <= k < vs.len()
                implies #[trigger] vs[k] != prev.sp_collections.root.0 by {
                if vs[k] == prev.sp_collections.root.0 {
                    let path = choose|path: Seq<u128>|
                        #[trigger] is_child_path(prev.collections@, path)
                            && path.len() >= 1 && path[0] == id.0
                            && path[path.len() - 1] == vs[k];
                    if path.len() == 1 {
                        assert(id.0 == prev.sp_collections.root.0);
                    } else {
                        let n2 = path.len() - 2;
                        assert(prev.collections@.dom().contains(path[n2])
                            && prev.collections@[path[n2]].children@.contains(
                            path[n2 + 1]));
                        assert(prev.child_link_ok(path[n2], path[n2 + 1]));
                        assert(prev.collections@[prev.sp_collections.root.0].parent
                            is Some);
                    }
                }
            }
        }
        let vn = visited.len();
        // Phase one: detach every gathered collection from its parent's
        // listing, flag it, and record it in the bin.
        let mut ki: usize = 0;
        while ki < vn
            invariant
                prev.wf(),
                self.wf(),
                vn == vs.len(),
                ki <= vn,
                visited@ == vs,
                vs.no_duplicates(),
                !vs.contains(prev.sp_collections.root.0),
                forall|k: int| 0 <= k < vs.len()
                    ==> prev.collections@.dom().contains(#[trigger] vs[k]),
                forall|k: int, x: u128|
                    0 <= k < vs.len()
                        && #[trigger] prev.collections@[vs[k]].children@.contains(x)
                    ==> vs.contains(x),
                self.collections@.dom() == prev.collections@.dom(),
                self.tags == prev.tags,
                self.assets == prev.assets,
                self.cache == prev.cache,
                self.recycle_bin.assets == prev.recycle_bin.assets,
                self.recycle_bin.tags == prev.recycle_bin.tags,
                self.sp_collections == prev.sp_collections,
                self.lib_meta == prev.lib_meta,
                forall|c: u128| #[trigger] prev.collections@.dom().contains(c) ==> {
                    let c0 = prev.collections@[c];
                    let c1 = self.collections@[c];
                    &&& (Collection { is_deleted: c1.is_deleted, children: c1.children, ..c1 })
                        == (Collection { is_deleted: c1.is_deleted, children: c1.children, ..c0 })
                    &&& c1.is_deleted == (c0.is_deleted || vs.subrange(0, ki as int).contains(c))
                    &&& (forall|x: u128| #[trigger] c1.children@.contains(x)
                        <==> c0.children@.contains(x) && !vs.subrange(0, ki as int).contains(x))
                },
                forall|x: u128| #[trigger] self.recycle_bin.collections@.contains(x)
                    <==> prev.recycle_bin.collections@.contains(x)
                        || vs.subrange(0, ki as int).contains(x),
            decreases vn - ki,
        {
            let ghost pre = *self;
            let c_id = visited[ki];
            proof {
                assert(vs.contains(c_id)) by {
                    assert(vs[ki as int] == c_id);
                }
            }
            let cpos = match self.collections.position_of(c_id) {
                Some(i) => i,
                None => {
                    proof {
                        assert(false);
                    }
                    0
                },
            };
            let parent_opt = self.collections.val_at(cpos).parent;
            match parent_opt {
                Some(pid) => {
                    match self.collections.position_of(pid.0) {
                        Some(ppos) => {
                            let p = self.collections.val_at_mut(ppos);
                            p.children.remove(c_id);
                        },
                        None => {},
                    }
                },
                None => {},
            }
            let cpos2 = match self.collections.position_of(c_id) {
                Some(i) => i,
                None => {
                    proof {
                        assert(false);
                    }
                    0
                },
            };
            let c = self.collections.val_at_mut(cpos2);
            c.is_deleted = true;
            self.recycle_bin.collections.insert(c_id);
            proof {
                let sub1 = vs.subrange(0, ki + 1);
                let sub0 = vs.subrange(0, ki as int);
                assert(sub1.drop_last() =~= sub0);
                assert(sub1.last() == c_id);
                assert forall|x: u128| #[trigger] sub1.contains(x)
                    implies sub0.contains(x) || x == c_id by {
                    let q = choose|q: int| 0 <= q < sub1.len() && sub1[q] == x;
                    if q < sub1.len() - 1 {
                        assert(sub0[q] == x);
                    }
                }
                assert forall|x: u128| sub0.contains(x)
                    implies #[trigger] sub1.contains(x) by {
                    let q = choose|q: int| 0 <= q < sub0.len() && sub0[q] == x;
                    assert(sub1[q] == x);
                }
                assert(self.collections@.dom() =~= prev.collections@.dom());
                assert forall|x: u128| #[trigger] vs.subrange(0, ki as int + 1).contains(x)
                    implies vs.contains(x) by {
                    let q = choose|q: int|
                        0 <= q < ki + 1 && #[trigger] vs.subrange(0, ki as int + 1)[q] == x;
                    assert(vs[q] == x);
                }
                // the only parent listing `c_id` was its own parent, so the
                // unlink removed every occurrence
                assert forall|c2: u128| #[trigger] prev.collections@.dom().contains(c2)
                    implies {
                        let c0 = prev.collections@[c2];
                        let c1 = self.collections@[c2];
                        &&& (Collection { is_deleted: c1.is_deleted, children: c1.children, ..c1 })
                            == (Collection {
                                is_deleted: c1.is_deleted,
                                children: c1.children,
                                ..c0
                            })
                        &&& c1.is_deleted == (c0.is_deleted || sub1.contains(c2))
                        &&& (forall|x: u128| #[trigger] c1.children@.contains(x)
                            <==> c0.children@.contains(x) && !sub1.contains(x))
                    } by {
                    let c0 = prev.collections@[c2];
                    let c1 = self.collections@[c2];
                    assert forall|x: u128| #[trigger] c1.children@.contains(x)
                        implies c0.children@.contains(x) && !sub1.contains(x) by {
                        assert(pre.collections@[c2].children@.contains(x));
                        if x == c_id {
                            // c_id was listed only by its unique parent,
                            // which was just unlinked
                            assert(pre.child_link_ok(c2, c_id));
                            match parent_opt {
                                Some(pid) => {
                                    assert(c2 == pid.0);
                                    assert(!c1.children@.contains(c_id));
                                },
                                None => {
                                    assert(false);
                                },
                            }
                        }
                    }
                    assert forall|x: u128|
                        c0.children@.contains(x) && !sub1.contains(x)
                        implies #[trigger] c1.children@.contains(x) by {
                        assert(!sub0.contains(x) && x != c_id);
                        assert(pre.collections@[c2].children@.contains(x));
                    }
                }
                // well-formedness after flagging and detaching
                assert forall|p2: u128, x: u128|
                    self.collections@.dom().contains(p2)
                        && #[trigger] self.collections@[p2].children@.contains(x)
                    implies self.child_link_ok(p2, x) by {
                    assert(prev.collections@[p2].children@.contains(x)
                        && !sub1.contains(x));
                    assert(prev.child_link_ok(p2, x));
                    assert(!vs.subrange(0, ki + 1).contains(x));
                    assert(!self.collections@[x].is_deleted) by {
                        assert(!prev.collections@[x].is_deleted);
                    }
                }
                assert forall|c2: u128| #[trigger] self.collections@.dom().contains(c2)
                    && !self.collections@[c2].is_deleted
                    && c2 != self.sp_collections.root.0
                    implies {
                        let pp = self.collections@[c2].parent->Some_0.0;
                        &&& self.collections@.dom().contains(pp)
                        &&& self.collections@[pp].children@.contains(c2)
                    } by {
                    assert(!prev.collections@[c2].is_deleted);
                    assert(!sub1.contains(c2));
                    let pp = prev.collections@[c2].parent->Some_0.0;
                    assert(prev.collections@.dom().contains(pp)
                        && prev.collections@[pp].children@.contains(c2));
                    assert(self.collections@[c2].parent
                        == prev.collections@[c2].parent);
                    assert(self.collections@[pp].children@.contains(c2));
                }
                assert forall|p2: u128, t2: u128|
                    self.collections@.dom().contains(p2)
                        && #[trigger] self.collections@[p2].content@.contains(t2)
                    implies self.tags@.dom().contains(t2) && !self.tags@[t2].is_deleted
                        && self.tags@[t2].parent.0 == p2 by {
                    assert(self.collections@[p2].content == prev.collections@[p2].content);
                    assert(prev.collections@[p2].content@.contains(t2));
                }
                assert forall|t2: u128| #[trigger] self.tags@.dom().contains(t2)
                    && !self.tags@[t2].is_deleted
                    implies {
                        let pp = self.tags@[t2].parent.0;
                        &&& self.collections@.dom().contains(pp)
                        &&& self.collections@[pp].content@.contains(t2)
                    } by {
                    let pp = prev.tags@[t2].parent.0;
                    assert(prev.collections@.dom().contains(pp)
                        && prev.collections@[pp].content@.contains(t2));
                    assert(self.collections@[pp].content
                        == prev.collections@[pp].content);
                }
                assert(self.wf());
            }
            ki += 1;
        }
        proof {
            assert(vs.subrange(0, vn as int) =~= vs);
        }
        // Phase two: remove the content tags of every gathered collection.
        let mut ki: usize = 0;
        while ki < vn
            invariant
                prev.wf(),
                self.wf(),
                vn == vs.len(),
                ki <= vn,
                visited@ == vs,
                vs.no_duplicates(),
                !vs.contains(prev.sp_collections.root.0),
                forall|k: int| 0 <= k < vs.len()
                    ==> prev.collections@.dom().contains(#[trigger] vs[k]),
                forall|k: int, x: u128|
                    0 <= k < vs.len()
                        && #[trigger] prev.collections@[vs[k]].children@.contains(x)
                    ==> vs.contains(x),
                self.collections@.dom() == prev.collections@.dom(),
                self.assets == prev.assets,
                self.cache == prev.cache,
                self.recycle_bin.assets == prev.recycle_bin.assets,
                self.sp_collections == prev.sp_collections,
                self.lib_meta == prev.lib_meta,
                forall|x: u128| #[trigger] self.recycle_bin.collections@.contains(x)
                    <==> prev.recycle_bin.collections@.contains(x) || vs.contains(x),
                forall|c: u128| #[trigger] prev.collections@.dom().contains(c) ==> {
                    let c0 = prev.collections@[c];
                    let c1 = self.collections@[c];
                    &&& (Collection {
                        is_deleted: c1.is_deleted,
                        children: c1.children,
                        content: c1.content,
                        ..c1
                    }) == (Collection {
                        is_deleted: c1.is_deleted,
                        children: c1.children,
                        content: c1.content,
                        ..c0
                    })
                    &&& c1.is_deleted == (c0.is_deleted || vs.contains(c))
                    &&& (forall|x: u128| #[trigger] c1.children@.contains(x)
                        <==> c0.children@.contains(x) && !vs.contains(x))
                    &&& (vs.subrange(0, ki as int).contains(c)
                        ==> c1.content@ =~= Set::<u128>::empty())
                    &&& (!vs.subrange(0, ki as int).contains(c)
                        ==> c1.content == c0.content)
                },
                forall|t: u128| #[trigger] self.tags@.dom().contains(t)
                    <==> prev.tags@.dom().contains(t)
                        && !(exists|k: int| 0 <= k < ki
                            && #[trigger] prev.collections@[vs[k]].content@.contains(t)),
                forall|t: u128| #[trigger] self.tags@.dom().contains(t)
                    ==> self.tags@[t] == prev.tags@[t],
                forall|x: u128| #[trigger] self.recycle_bin.tags@.contains(x)
                    ==> prev.recycle_bin.tags@.contains(x),
            decreases vn - ki,
        {
            let c_id = visited[ki];
            proof {
                assert(vs.contains(c_id)) by {
                    assert(vs[ki as int] == c_id);
                }
            }
            let cpos = match self.collections.position_of(c_id) {
                Some(i) => i,
                None => {
                    proof {
                        assert(false);
                    }
                    0
                },
            };
            let content_ids = uset_to_vec(&self.collections.val_at(cpos).content);
            proof {
                self.collections.lemma_val_at(cpos as int);
            }
            let ghost phase_pre = *self;
            let tn = content_ids.len();
            let mut ti: usize = 0;
            while ti < tn
                invariant
                    prev.wf(),
                    phase_pre.wf(),
                    self.wf(),
                    tn == content_ids@.len(),
                    ti <= tn,
                    prev.collections@.dom().contains(c_id),
                    phase_pre.collections@.dom() == prev.collections@.dom(),
                    self.collections@.dom() == phase_pre.collections@.dom(),
                    content_ids@.no_duplicates(),
                    forall|x: u128| #[trigger] content_ids@.contains(x)
                        <==> phase_pre.collections@[c_id].content@.contains(x),
                    content_ids@ == phase_pre.collections@[c_id].content.elems(),
                    self.assets == phase_pre.assets,
                    self.cache == phase_pre.cache,
                    self.recycle_bin.assets == phase_pre.recycle_bin.assets,
                    self.recycle_bin.collections == phase_pre.recycle_bin.collections,
                    self.sp_collections == phase_pre.sp_collections,
                    self.lib_meta == phase_pre.lib_meta,
                    forall|c2: u128| c2 != c_id && #[trigger] phase_pre.collections@.dom().contains(c2)
                        ==> self.collections@[c2] == phase_pre.collections@[c2],
                    (Collection {
                        content: self.collections@[c_id].content,
                        ..self.collections@[c_id]
                    }) == (Collection {
                        content: self.collections@[c_id].content,
                        ..phase_pre.collections@[c_id]
                    }),
                    forall|x: u128| #[trigger] self.collections@[c_id].content@.contains(x)
                        <==> phase_pre.collections@[c_id].content@.contains(x)
                            && !content_ids@.subrange(0, ti as int).contains(x),
                    forall|t: u128| #[trigger] self.tags@.dom().contains(t)
                        <==> phase_pre.tags@.dom().contains(t)
                            && !content_ids@.subrange(0, ti as int).contains(t),
                    forall|t: u128| #[trigger] self.tags@.dom().contains(t)
                        ==> self.tags@[t] == phase_pre.tags@[t],
                    forall|x: u128| #[trigger] self.recycle_bin.tags@.contains(x)
                        ==> phase_pre.recycle_bin.tags@.contains(x),
                decreases tn - ti,
            {
                let ghost pre = *self;
                let t_id = content_ids[ti];
                proof {
                    assert(content_ids@.contains(t_id)) by {
                        assert(content_ids@[ti as int] == t_id);
                    }
                    assert(content_ids@.subrange(0, ti as int + 1).drop_last()
                        =~= content_ids@.subrange(0, ti as int));
                    assert(!content_ids@.subrange(0, ti as int).contains(t_id)) by {
                        if content_ids@.subrange(0, ti as int).contains(t_id) {
                            let q = choose|q: int| 0 <= q < ti
                                && content_ids@.subrange(0, ti as int)[q] == t_id;
                            assert(content_ids@[q] == t_id
                                && content_ids@[ti as int] == t_id);
                        }
                    }
                    assert(self.collections@[c_id].content@.contains(t_id));
                }
                self.tags.remove(t_id);
                self.recycle_bin.tags.remove(t_id);
                let cpos2 = match self.collections.position_of(c_id) {
                    Some(i) => i,
                    None => {
                        proof {
                            assert(false);
                        }
                        0
                    },
                };
                let cc = self.collections.val_at_mut(cpos2);
                cc.content.remove(t_id);
                proof {
                    let sub1 = content_ids@.subrange(0, ti as int + 1);
                    let sub0 = content_ids@.subrange(0, ti as int);
                    assert(sub1.last() == t_id);
                    assert forall|x: u128| #[trigger] sub1.contains(x)
                        implies sub0.contains(x) || x == t_id by {
                        let q = choose|q: int| 0 <= q < sub1.len() && sub1[q] == x;
                        if q < sub1.len() - 1 {
                            assert(sub0[q] == x);
                        }
                    }
                    assert forall|x: u128| sub0.contains(x)
                        implies #[trigger] sub1.contains(x) by {
                        let q = choose|q: int| 0 <= q < sub0.len() && sub0[q] == x;
                        assert(sub1[q] == x);
                    }
                    assert(self.collections@.dom() =~= pre.collections@.dom());
                    // tag links survive: the removed tag was listed only by
                    // this collection
                    assert forall|p2: u128, t2: u128|
                        self.collections@.dom().contains(p2)
                            && #[trigger] self.collections@[p2].content@.contains(t2)
                        implies self.tags@.dom().contains(t2)
                            && !self.tags@[t2].is_deleted
                            && self.tags@[t2].parent.0 == p2 by {
                        if p2 == c_id {
                            assert(pre.collections@[c_id].content@.contains(t2));
                            assert(t2 != t_id);
                        } else {
                            assert(self.collections@[p2] == pre.collections@[p2]);
                            assert(pre.collections@[p2].content@.contains(t2));
                            assert(t2 != t_id) by {
                                if t2 == t_id {
                                    assert(pre.tags@.dom().contains(t_id)) by {
                                        assert(pre.collections@[p2].content@.contains(
                                            t_id,
                                        ));
                                    }
                                    assert(pre.tags@[t_id].parent.0 == p2);
                                    assert(pre.collections@[c_id].content@.contains(t_id));
                                    assert(pre.tags@[t_id].parent.0 == c_id);
                                }
                            }
                        }
                    }
                    assert forall|t2: u128| #[trigger] self.tags@.dom().contains(t2)
                        && !self.tags@[t2].is_deleted
                        implies {
                            let pp = self.tags@[t2].parent.0;
                            &&& self.collections@.dom().contains(pp)
                            &&& self.collections@[pp].content@.contains(t2)
                        } by {
                        assert(pre.tags@.dom().contains(t2));
                        assert(self.tags@[t2] == pre.tags@[t2]);
                        let pp = pre.tags@[t2].parent.0;
                        assert(pre.collections@.dom().contains(pp)
                            && pre.collections@[pp].content@.contains(t2));
                        assert(t2 != t_id);
                        if pp == c_id {
                            assert(self.collections@[c_id].content@.contains(t2));
                        } else {
                            assert(self.collections@[pp] == pre.collections@[pp]);
                        }
                    }
                    assert(self.wf());
                }
                ti += 1;
            }
            proof {
                assert(content_ids@.subrange(0, tn as int) =~= content_ids@);
                let sub1 = vs.subrange(0, ki as int + 1);
                let sub0 = vs.subrange(0, ki as int);
                assert forall|x: u128| #[trigger] sub1.contains(x)
                    implies sub0.contains(x) || x == c_id by {
                    let q = choose|q: int| 0 <= q < sub1.len() && sub1[q] == x;
                    if q < sub1.len() - 1 {
                        assert(sub0[q] == x);
                    }
                }
                assert forall|x: u128| sub0.contains(x)
                    implies #[trigger] sub1.contains(x) by {
                    let q = choose|q: int| 0 <= q < sub0.len() && sub0[q] == x;
                    assert(sub1[q] == x);
                }
                assert(sub1.last() == c_id);
                assert(sub1.contains(c_id)) by {
                    assert(sub1[sub1.len() - 1] == c_id);
                }
                // collections invariant after emptying this content
                assert forall|c2: u128| #[trigger] prev.collections@.dom().contains(c2)
                    implies {
                        let c0 = prev.collections@[c2];
                        let c1 = self.collections@[c2];
                        &&& (Collection {
                            is_deleted: c1.is_deleted,
                            children: c1.children,
                            content: c1.content,
                            ..c1
                        }) == (Collection {
                            is_deleted: c1.is_deleted,
                            children: c1.children,
                            content: c1.content,
                            ..c0
                        })
                        &&& c1.is_deleted == (c0.is_deleted || vs.contains(c2))
                        &&& (forall|x: u128| #[trigger] c1.children@.contains(x)
                            <==> c0.children@.contains(x) && !vs.contains(x))
                        &&& (sub1.contains(c2) ==> c1.content@ =~= Set::<u128>::empty())
                        &&& (!sub1.contains(c2) ==> c1.content == c0.content)
                    } by {
                    if c2 == c_id {
                        assert forall|x: u128|
                            !(#[trigger] self.collections@[c_id].content@.contains(x)) by {
                            if phase_pre.collections@[c_id].content@.contains(x) {
                                assert(content_ids@.contains(x));
                            }
                        }
                    } else {
                        assert(self.collections@[c2] == phase_pre.collections@[c2]);
                    }
                }
                // tags invariant: this collection's content is now gone too
                assert forall|t: u128| #[trigger] self.tags@.dom().contains(t)
                    implies prev.tags@.dom().contains(t)
                        && !(exists|k: int| 0 <= k < ki + 1
                            && #[trigger] prev.collections@[vs[k]].content@.contains(t)) by {
                    assert(phase_pre.tags@.dom().contains(t));
                    if exists|k: int| 0 <= k < ki + 1
                        && #[trigger] prev.collections@[vs[k]].content@.contains(t) {
                        let k = choose|k: int| 0 <= k < ki + 1
                            && #[trigger] prev.collections@[vs[k]].content@.contains(t);
                        if k == ki {
                            assert(prev.collections@[c_id].content@.contains(t));
                            assert(phase_pre.collections@[c_id].content
                                == prev.collections@[c_id].content) by {
                                assert(!vs.subrange(0, ki as int).contains(c_id));
                            }
                            assert(content_ids@.contains(t));
                        }
                    }
                }
                assert forall|t: u128|
                    prev.tags@.dom().contains(t)
                        && !(exists|k: int| 0 <= k < ki + 1
                            && #[trigger] prev.collections@[vs[k]].content@.contains(t))
                    implies #[trigger] self.tags@.dom().contains(t) by {
                    assert(phase_pre.tags@.dom().contains(t)) by {
                        if exists|k: int| 0 <= k < ki
                            && #[trigger] prev.collections@[vs[k]].content@.contains(t) {
                            let k = choose|k: int| 0 <= k < ki
                                && #[trigger] prev.collections@[vs[k]].content@.contains(t);
                        }
                    }
                    if content_ids@.contains(t) {
                        assert(phase_pre.collections@[c_id].content@.contains(t));
                        assert(phase_pre.collections@[c_id].content
                            == prev.collections@[c_id].content) by {
                            assert(!vs.subrange(0, ki as int).contains(c_id));
                        }
                        assert(prev.collections@[vs[ki as int]].content@.contains(t));
                    }
                }
            }
            ki += 1;
        }
        // Phase three: drop the gathered collections from the map and the
        // bin.
        let ghost mid2 = *self;
        let mut ki: usize = 0;
        while ki < vn
            invariant
                prev.wf(),
                mid2.wf(),
                self.wf(),
                vn == vs.len(),
                ki <= vn,
                visited@ == vs,
                vs.no_duplicates(),
                !vs.contains(prev.sp_collections.root.0),
                forall|k: int| 0 <= k < vs.len()
                    ==> prev.collections@.dom().contains(#[trigger] vs[k]),
                mid2.collections@.dom() == prev.collections@.dom(),
                self.assets == mid2.assets,
                self.cache == mid2.cache,
                self.tags == mid2.tags,
                self.recycle_bin.assets == mid2.recycle_bin.assets,
                self.recycle_bin.tags == mid2.recycle_bin.tags,
                self.sp_collections == mid2.sp_collections,
                self.lib_meta == mid2.lib_meta,
                forall|c: u128| #[trigger] self.collections@.dom().contains(c)
                    <==> mid2.collections@.dom().contains(c)
                        && !vs.subrange(0, ki as int).contains(c),
                forall|c: u128| #[trigger] self.collections@.dom().contains(c)
                    ==> self.collections@[c] == mid2.collections@[c],
                forall|x: u128| #[trigger] self.recycle_bin.collections@.contains(x)
                    <==> mid2.recycle_bin.collections@.contains(x)
                        && !vs.subrange(0, ki as int).contains(x),
                forall|c: u128| #[trigger] mid2.collections@.dom().contains(c) ==> {
                    &&& mid2.collections@[c].is_deleted
                        == (prev.collections@[c].is_deleted || vs.contains(c))
                    &&& (forall|x: u128| #[trigger] mid2.collections@[c].children@.contains(x)
                        ==> prev.collections@[c].children@.contains(x) && !vs.contains(x))
                    &&& (vs.contains(c) ==> mid2.collections@[c].content@
                        =~= Set::<u128>::empty())
                },
                forall|k: int, x: u128|
                    0 <= k < vs.len()
                        && #[trigger] prev.collections@[vs[k]].children@.contains(x)
                    ==> vs.contains(x),
                forall|t: u128| #[trigger] mid2.tags@.dom().contains(t)
                    && !mid2.tags@[t].is_deleted
                    ==> !vs.contains(mid2.tags@[t].parent.0),
            decreases vn - ki,
        {
            let ghost pre = *self;
            let c_id = visited[ki];
            proof {
                assert(vs.contains(c_id)) by {
                    assert(vs[ki as int] == c_id);
                }
                assert(!vs.subrange(0, ki as int).contains(c_id)) by {
                    if vs.subrange(0, ki as int).contains(c_id) {
                        let q = choose|q: int|
                            0 <= q < ki && vs.subrange(0, ki as int)[q] == c_id;
                        assert(vs[q] == c_id && vs[ki as int] == c_id);
                    }
                }
            }
            self.collections.remove(c_id);
            self.recycle_bin.collections.remove(c_id);
            proof {
                let sub1 = vs.subrange(0, ki as int + 1);
                let sub0 = vs.subrange(0, ki as int);
                assert forall|x: u128| #[trigger] sub1.contains(x)
                    implies sub0.contains(x) || x == c_id by {
                    let q = choose|q: int| 0 <= q < sub1.len() && sub1[q] == x;
                    if q < sub1.len() - 1 {
                        assert(sub0[q] == x);
                    }
                }
                assert forall|x: u128| sub0.contains(x)
                    implies #[trigger] sub1.contains(x) by {
                    let q = choose|q: int| 0 <= q < sub0.len() && sub0[q] == x;
                    assert(sub1[q] == x);
                }
                assert(sub1[sub1.len() - 1] == c_id);
                assert(sub1.contains(c_id)) by {
                    assert(sub1[sub1.len() - 1] == c_id);
                }
                assert forall|p2: u128, x: u128|
                    self.collections@.dom().contains(p2)
                        && #[trigger] self.collections@[p2].children@.contains(x)
                    implies self.child_link_ok(p2, x) by {
                    assert(pre.collections@[p2].children@.contains(x));
                    assert(pre.child_link_ok(p2, x));
                    assert(mid2.collections@[p2].children@.contains(x));
                    assert(!vs.contains(x));
                    assert(x != c_id);
                }
                assert forall|c2: u128| #[trigger] self.collections@.dom().contains(c2)
                    && !self.collections@[c2].is_deleted
                    && c2 != self.sp_collections.root.0
                    implies {
                        let pp = self.collections@[c2].parent->Some_0.0;
                        &&& self.collections@.dom().contains(pp)
                        &&& self.collections@[pp].children@.contains(c2)
                    } by {
                    assert(pre.collections@.dom().contains(c2));
                    assert(!pre.collections@[c2].is_deleted);
                    let pp = pre.collections@[c2].parent->Some_0.0;
                    assert(pre.collections@.dom().contains(pp)
                        && pre.collections@[pp].children@.contains(c2));
                    assert(!mid2.collections@[c2].is_deleted);
                    assert(!vs.contains(c2));
                    assert(pp != c_id) by {
                        if pp == c_id {
                            // a live child of a gathered collection would
                            // itself have been gathered
                            assert(mid2.collections@[c_id].children@.contains(c2));
                            assert(prev.collections@[c_id].children@.contains(c2));
                            let k = choose|k: int| 0 <= k < vs.len() && vs[k] == c_id;
                            assert(prev.collections@[vs[k]].children@.contains(c2));
                            assert(vs.contains(c2));
                        }
                    }
                    assert(self.collections@.dom().contains(pp));
                    assert(self.collections@[pp].children@.contains(c2));
                }
                assert forall|p2: u128, t2: u128|
                    self.collections@.dom().contains(p2)
                        && #[trigger] self.collections@[p2].content@.contains(t2)
                    implies self.tags@.dom().contains(t2) && !self.tags@[t2].is_deleted
                        && self.tags@[t2].parent.0 == p2 by {
                    assert(pre.collections@[p2].content@.contains(t2));
                }
                assert forall|t2: u128| #[trigger] self.tags@.dom().contains(t2)
                    && !self.tags@[t2].is_deleted
                    implies {
                        let pp = self.tags@[t2].parent.0;
                        &&& self.collections@.dom().contains(pp)
                        &&& self.collections@[pp].content@.contains(t2)
                    } by {
                    let pp = mid2.tags@[t2].parent.0;
                    assert(!vs.contains(pp));
                    assert(pp != c_id);
                    assert(pre.collections@.dom().contains(pp)
                        && pre.collections@[pp].content@.contains(t2));
                }
                assert(self.wf());
            }
            ki += 1;
        }
        proof {
            assert(vs.subrange(0, vn as int) =~= vs);
            let removed = |c: u128| prev.collections@.dom().contains(c)
                && !final(self).collections@.dom().contains(c);
            assert(!final(self).collections@.dom().contains(id.0)) by {
                assert(vs.contains(id.0));
            }
            assert forall|c: u128|
                prev.collections@.dom().contains(c)
                    && !(#[trigger] final(self).collections@.dom().contains(c))
                implies reachable_from(prev.collections@, id.0, c) by {
                assert(vs.contains(c));
                let k = choose|k: int| 0 <= k < vs.len() && vs[k] == c;
            }
            assert forall|c: u128, x: u128|
                prev.collections@.dom().contains(c)
                    && !final(self).collections@.dom().contains(c)
                    && #[trigger] prev.collections@[c].children@.contains(x)
                implies !final(self).collections@.dom().contains(x) by {
                assert(vs.contains(c));
                let k = choose|k: int| 0 <= k < vs.len() && vs[k] == c;
                assert(prev.collections@[vs[k]].children@.contains(x));
                assert(vs.contains(x));
            }
            assert forall|t: u128| #[trigger] final(self).tags@.dom().contains(t)
                implies prev.tags@.dom().contains(t)
                    && !(exists|c: u128|
                        prev.collections@.dom().contains(c)
                            && !final(self).collections@.dom().contains(c)
                            && #[trigger] prev.collections@[c].content@.contains(t)) by {
                if exists|c: u128|
                    prev.collections@.dom().contains(c)
                        && !final(self).collections@.dom().contains(c)
                        && #[trigger] prev.collections@[c].content@.contains(t) {
                    let c = choose|c: u128|
                        prev.collections@.dom().contains(c)
                            && !final(self).collections@.dom().contains(c)
                            && #[trigger] prev.collections@[c].content@.contains(t);
                    assert(vs.contains(c));
                    let k = choose|k: int| 0 <= k < vs.len() && vs[k] == c;
                    assert(prev.collections@[vs[k]].content@.contains(t));
                    assert(!mid2.tags@.dom().contains(t));
                }
            }
            assert forall|t: u128|
                prev.tags@.dom().contains(t)
                    && !(exists|c: u128|
                        prev.collections@.dom().contains(c)
                            && !final(self).collections@.dom().contains(c)
                            && #[trigger] prev.collections@[c].content@.contains(t))
                implies #[trigger] final(self).tags@.dom().contains(t) by {
                assert(mid2.tags@.dom().contains(t)) by {
                    if exists|k: int| 0 <= k < vn
                        && #[trigger] prev.collections@[vs[k]].content@.contains(t) {
                        let k = choose|k: int| 0 <= k < vn
                            && #[trigger] prev.collections@[vs[k]].content@.contains(t);
                        assert(prev.collections@.dom().contains(vs[k]));
                        assert(!final(self).collections@.dom().contains(vs[k])) by {
                            assert(vs.contains(vs[k]));
                        }
                    }
                }
            }
            assert forall|c: u128| #[trigger] final(self).collections@.dom().contains(c)
                implies {
                    let c0 = prev.collections@[c];
                    let c1 = final(self).collections@[c];
                    &&& (Collection { children: c1.children, ..c1 })
                        == (Collection { children: c1.children, ..c0 })
                    &&& forall|x: u128| #[trigger] c1.children@.contains(x)
                        <==> c0.children@.contains(x)
                            && final(self).collections@.dom().contains(x)
                } by {
                assert(!vs.contains(c));
                assert(mid2.collections@[c].is_deleted == prev.collections@[c].is_deleted);
                assert forall|x: u128|
                    #[trigger] prev.collections@[c].children@.contains(x) && !vs.contains(x)
                    implies final(self).collections@.dom().contains(x) by {
                    assert(prev.child_link_ok(c, x));
                    assert(mid2.collections@.dom().contains(x));
                }
            }
        }
        Ok(())
    }
}


impl Storage {
    /// Soft-deletes a tag: detaches it from its parent collection's
    /// listing, flags it and records it in the bin.  Asset containers keep
    /// their membership entries for recovery.
    pub fn move_tag_to_recycle_bin(&mut self, id: TagId) -> (r: Result<(), StorageError>)
        requires
            old(self).wf(),
        ensures
            final(self).wf(),
            match r {
                Ok(()) => {
                    &&& old(self).tags@.dom().contains(id.0)
                    &&& !old(self).tags@[id.0].is_deleted
                    &&& final(self).tags@ == old(self).tags@.insert(
                        id.0,
                        (Tag { is_deleted: true, ..old(self).tags@[id.0] }),
                    )
                    &&& final(self).collections@.dom() == old(self).collections@.dom()
                    &&& ({
                        let p = old(self).tags@[id.0].parent.0;
                        &&& final(self).collections@[p].content@
                            == old(self).collections@[p].content@.remove(id.0)
                        &&& forall|c: u128| c != p
                                && old(self).collections@.dom().contains(c)
                            ==> #[trigger] final(self).collections@[c]
                                == old(self).collections@[c]
                    })
                    &&& final(self).recycle_bin.tags@
                        == old(self).recycle_bin.tags@.insert(id.0)
                    &&& final(self).recycle_bin.assets == old(self).recycle_bin.assets
                    &&& final(self).recycle_bin.collections == old(self).recycle_bin.collections
                    &&& final(self).assets == old(self).assets
                    &&& final(self).cache == old(self).cache
                    &&& final(self).sp_collections == old(self).sp_collections
                    &&& final(self).lib_meta == old(self).lib_meta
                },
                Err(e) => {
                    &&& e == StorageError::TagNotFound(id)
                    &&& (!old(self).tags@.dom().contains(id.0)
                        || old(self).tags@[id.0].is_deleted)
                    &&& *final(self) == *old(self)
                },
            },
    {
        let ghost prev = *self;
        let tag_pos = match self.tags.position_of(id.0) {
            Some(i) => i,
            None => {
                return Err(StorageError::TagNotFound(id));
            },
        };
        if self.tags.val_at(tag_pos).is_deleted {
            return Err(StorageError::TagNotFound(id));
        }
        let parent = self.tags.val_at(tag_pos).parent;
        let ppos = match self.collections.position_of(parent.0) {
            Some(i) => i,
            None => {
                proof {
                    assert(false);
                }
                0
            },
        };
        let p = self.collections.val_at_mut(ppos);
        p.content.remove(id.0);
        let t = self.tags.val_at_mut(tag_pos);
        t.is_deleted = true;
        self.recycle_bin.tags.insert(id.0);
        proof {
            let cols0 = prev.collections@;
            let cols2 = self.collections@;
            let tags2 = self.tags@;
            assert(cols2.dom() =~= cols0.dom());
            assert forall|p2: u128, t2: u128|
                cols2.dom().contains(p2) && #[trigger] cols2[p2].content@.contains(t2)
                implies tags2.dom().contains(t2) && !tags2[t2].is_deleted
                    && tags2[t2].parent.0 == p2 by {
                assert(cols0[p2].content@.contains(t2));
                assert(t2 != id.0) by {
                    if t2 == id.0 {
                        assert(prev.tags@[id.0].parent.0 == p2);
                        assert(!cols2[p2].content@.contains(id.0));
                    }
                }
            }
            assert forall|t2: u128| #[trigger] tags2.dom().contains(t2)
                && !tags2[t2].is_deleted
                implies {
                    let pp = tags2[t2].parent.0;
                    cols2.dom().contains(pp) && cols2[pp].content@.contains(t2)
                } by {
                assert(t2 != id.0);
                let pp = prev.tags@[t2].parent.0;
                assert(cols0.dom().contains(pp) && cols0[pp].content@.contains(t2));
            }
            assert forall|p2: u128, c2: u128|
                cols2.dom().contains(p2) && #[trigger] cols2[p2].children@.contains(c2)
                implies self.child_link_ok(p2, c2) by {
                assert(cols0[p2].children@.contains(c2));
                assert(prev.child_link_ok(p2, c2));
            }
            assert forall|c2: u128| #[trigger] cols2.dom().contains(c2)
                && !cols2[c2].is_deleted && c2 != prev.sp_collections.root.0
                implies {
                    let pp = cols2[c2].parent->Some_0.0;
                    cols2.dom().contains(pp) && cols2[pp].children@.contains(c2)
                } by {
                let pp = cols0[c2].parent->Some_0.0;
                assert(cols0.dom().contains(pp) && cols0[pp].children@.contains(c2));
            }
            assert forall|a2: u128, g2: u128|
                self.assets@.dom().contains(a2)
                    && #[trigger] self.assets@[a2].tags.grouped@.dom().contains(g2)
                implies (tags2.dom().contains(self.assets@[a2].tags.grouped@[g2].0)
                    ==> tags2[self.assets@[a2].tags.grouped@[g2].0].group
                        == Some(CollectionId(g2))) by {
                let tv = self.assets@[a2].tags.grouped@[g2];
                assert(tags2[tv.0].group == prev.tags@[tv.0].group);
            }
            assert(final(self).wf());
        }
        Ok(())
    }

    /// Recovers a soft-deleted tag: re-links it into its parent
    /// collection's listing (recovering the parent chain first, so the tag
    /// never ends up orphaned) and clears its flag.
    pub fn recover_tag(&mut self, id: TagId) -> (r: Result<(), StorageError>)
        requires
            old(self).wf(),
        ensures
            final(self).wf(),
            match r {
                Ok(()) => {
                    &&& old(self).tags@.dom().contains(id.0)
                    &&& final(self).tags@.dom() == old(self).tags@.dom()
                    &&& !final(self).tags@[id.0].is_deleted
                    &&& (Tag { is_deleted: false, ..final(self).tags@[id.0] })
                        == (Tag { is_deleted: false, ..old(self).tags@[id.0] })
                    &&& forall|t: u128| t != id.0 && old(self).tags@.dom().contains(t)
                        ==> #[trigger] final(self).tags@[t] == old(self).tags@[t]
                    &&& !final(self).recycle_bin.tags@.contains(id.0)
                    &&& final(self).collections@.dom().contains(
                        final(self).tags@[id.0].parent.0,
                    )
                    &&& final(self).collections@[final(self).tags@[id.0].parent.0].content@
                        .contains(id.0)
                    &&& final(self).assets == old(self).assets
                    &&& final(self).cache == old(self).cache
                    &&& final(self).recycle_bin.assets == old(self).recycle_bin.assets
                    &&& final(self).sp_collections == old(self).sp_collections
                    &&& final(self).lib_meta == old(self).lib_meta
                },
                Err(e) => {
                    &&& *final(self) == *old(self)
                    &&& (e matches StorageError::TagNotFound(t)
                        ==> t == id && !old(self).tags@.dom().contains(id.0))
                    &&& (e matches StorageError::CollectionNotFound(c) ==> {
                        &&& old(self).tags@.dom().contains(id.0)
                        &&& old(self).tags@[id.0].is_deleted
                        &&& ({
                            let p = old(self).tags@[id.0].parent.0;
                            ||| (c.0 == p && !old(self).collections@.dom().contains(p))
                            ||| (old(self).collections@.dom().contains(p)
                                && old(self).collections@[p].is_deleted
                                && recovery_blocked(*old(self), p, c.0))
                        })
                    })
                    &&& (e is TagNotFound || e is CollectionNotFound)
                },
            },
    {
        let ghost prev = *self;
        let tag_pos = match self.tags.position_of(id.0) {
            Some(i) => i,
            None => {
                return Err(StorageError::TagNotFound(id));
            },
        };
        let parent = self.tags.val_at(tag_pos).parent;
        let deleted = self.tags.val_at(tag_pos).is_deleted;
        if !deleted {
            proof {
                assert(prev.tags@[id.0].parent.0 == parent.0);
            }
            return Ok(());
        }
        // The parent must exist to re-link; recover its chain first.
        if !self.collections.contains_key(parent.0) {
            return Err(StorageError::CollectionNotFound(parent));
        }
        let recovered = match self.recover_collection(parent, false) {
            Ok(r) => r,
            Err(e) => {
                return Err(e);
            },
        };
        let ghost mid = *self;
        let ppos = match self.collections.position_of(parent.0) {
            Some(i) => i,
            None => {
                proof {
                    assert(false);
                }
                0
            },
        };
        let p = self.collections.val_at_mut(ppos);
        p.content.insert(id.0);
        let tag_pos2 = match self.tags.position_of(id.0) {
            Some(i) => i,
            None => {
                proof {
                    assert(false);
                }
                0
            },
        };
        let t = self.tags.val_at_mut(tag_pos2);
        t.is_deleted = false;
        self.recycle_bin.tags.remove(id.0);
        proof {
            let cols1 = mid.collections@;
            let cols2 = self.collections@;
            let tags2 = self.tags@;
            assert(cols2.dom() =~= cols1.dom());
            assert(tags2.dom() =~= mid.tags@.dom());
            assert(mid.tags@[id.0] == prev.tags@[id.0]);
            assert forall|p2: u128, t2: u128|
                cols2.dom().contains(p2) && #[trigger] cols2[p2].content@.contains(t2)
                implies tags2.dom().contains(t2) && !tags2[t2].is_deleted
                    && tags2[t2].parent.0 == p2 by {
                if p2 == parent.0 && t2 == id.0 {
                } else {
                    assert(cols1[p2].content@.contains(t2));
                    assert(t2 != id.0) by {
                        if t2 == id.0 {
                            assert(mid.tags@[id.0].is_deleted);
                        }
                    }
                }
            }
            assert forall|t2: u128| #[trigger] tags2.dom().contains(t2)
                && !tags2[t2].is_deleted
                implies {
                    let pp = tags2[t2].parent.0;
                    cols2.dom().contains(pp) && cols2[pp].content@.contains(t2)
                } by {
                if t2 == id.0 {
                    assert(cols2[parent.0].content@.contains(id.0));
                } else {
                    let pp = mid.tags@[t2].parent.0;
                    assert(cols1.dom().contains(pp) && cols1[pp].content@.contains(t2));
                    if pp == parent.0 {
                        assert(cols2[pp].content@.contains(t2));
                    }
                }
            }
            assert forall|p2: u128, c2: u128|
                cols2.dom().contains(p2) && #[trigger] cols2[p2].children@.contains(c2)
                implies self.child_link_ok(p2, c2) by {
                assert(cols1[p2].children@.contains(c2));
                assert(mid.child_link_ok(p2, c2));
            }
            assert forall|c2: u128| #[trigger] cols2.dom().contains(c2)
                && !cols2[c2].is_deleted && c2 != mid.sp_collections.root.0
                implies {
                    let pp = cols2[c2].parent->Some_0.0;
                    cols2.dom().contains(pp) && cols2[pp].children@.contains(c2)
                } by {
                assert(cols1.dom().contains(c2) && !cols1[c2].is_deleted);
                let pp = cols1[c2].parent->Some_0.0;
                assert(cols1.dom().contains(pp) && cols1[pp].children@.contains(c2));
            }
            assert forall|a2: u128, g2: u128|
                self.assets@.dom().contains(a2)
                    && #[trigger] self.assets@[a2].tags.grouped@.dom().contains(g2)
                implies (tags2.dom().contains(self.assets@[a2].tags.grouped@[g2].0)
                    ==> tags2[self.assets@[a2].tags.grouped@[g2].0].group
                        == Some(CollectionId(g2))) by {
                let tv = self.assets@[a2].tags.grouped@[g2];
                if tags2.dom().contains(tv.0) {
                    assert(tags2[tv.0].group == mid.tags@[tv.0].group);
                }
            }
            assert forall|t2: u128| #[trigger] tags2.dom().contains(t2)
                implies (tags2[t2].is_deleted
                    <==> self.recycle_bin.tags@.contains(t2)) by {
                if t2 != id.0 {
                    assert(tags2[t2] == mid.tags@[t2]);
                }
            }
            assert(final(self).wf());
        }
        Ok(())
    }
}


impl Storage {
    /// Inserts a collection record under a caller-chosen identifier, as the
    /// legacy-library migration needs: the record enters soft-deleted and
    /// detached (so no tree obligation arises yet) with the given parent
    /// pointer, and is recorded in the bin.  Returns whether it was
    /// inserted; an identifier already in use is refused.
    pub fn insert_collection_record(
        &mut self,
        id: CollectionId,
        parent: CollectionId,
        name: String,
        color: Option<Color>,
        meta: Metadata,
    ) -> (r: bool)
        requires
            old(self).wf(),
        ensures
            final(self).wf(),
            r == !old(self).collections@.dom().contains(id.0),
            r ==> {
                &&& final(self).collections@.dom()
                    == old(self).collections@.dom().insert(id.0)
                &&& final(self).collections@[id.0].id == id
                &&& final(self).collections@[id.0].parent == Some(parent)
                &&& final(self).collections@[id.0].name == name
                &&& final(self).collections@[id.0].color == color
                &&& final(self).collections@[id.0].meta == meta
                &&& final(self).collections@[id.0].is_deleted
                &&& final(self).collections@[id.0].children@ == Set::<u128>::empty()
                &&& final(self).collections@[id.0].content@ == Set::<u128>::empty()
                &&& forall|c: u128| c != id.0 && old(self).collections@.dom().contains(c)
                    ==> #[trigger] final(self).collections@[c]
                        == old(self).collections@[c]
                &&& final(self).recycle_bin.collections@
                    == old(self).recycle_bin.collections@.insert(id.0)
                &&& final(self).recycle_bin.assets == old(self).recycle_bin.assets
                &&& final(self).recycle_bin.tags == old(self).recycle_bin.tags
                &&& final(self).tags == old(self).tags
                &&& final(self).assets == old(self).assets
                &&& final(self).cache == old(self).cache
                &&& final(self).sp_collections == old(self).sp_collections
                &&& final(self).lib_meta == old(self).lib_meta
            },
            !r ==> *final(self) == *old(self),
    {
        let ghost prev = *self;
        if self.collections.contains_key(id.0) {
            return false;
        }
        let mut c = Collection::new(id, Some(parent), color, name);
        c.meta = meta;
        c.is_deleted = true;
        self.collections.insert(id.0, c);
        self.recycle_bin.collections.insert(id.0);
        proof {
            let cols2 = self.collections@;
            assert(cols2.dom() =~= prev.collections@.dom().insert(id.0));
            assert(id.0 != prev.sp_collections.root.0);
            assert forall|p2: u128, c2: u128|
                cols2.dom().contains(p2) && #[trigger] cols2[p2].children@.contains(c2)
                implies self.child_link_ok(p2, c2) by {
                if p2 == id.0 {
                    assert(cols2[id.0].children@ =~= Set::<u128>::empty());
                } else {
                    assert(prev.collections@[p2].children@.contains(c2));
                    assert(prev.child_link_ok(p2, c2));
                    assert(c2 != id.0);
                }
            }
            assert forall|c2: u128| #[trigger] cols2.dom().contains(c2)
                && !cols2[c2].is_deleted && c2 != prev.sp_collections.root.0
                implies {
                    let pp = cols2[c2].parent->Some_0.0;
                    cols2.dom().contains(pp) && cols2[pp].children@.contains(c2)
                } by {
                assert(c2 != id.0);
                let pp = prev.collections@[c2].parent->Some_0.0;
                assert(prev.collections@.dom().contains(pp)
                    && prev.collections@[pp].children@.contains(c2));
            }
            assert forall|p2: u128, t2: u128|
                cols2.dom().contains(p2) && #[trigger] cols2[p2].content@.contains(t2)
                implies self.tags@.dom().contains(t2) && !self.tags@[t2].is_deleted
                    && self.tags@[t2].parent.0 == p2 by {
                if p2 == id.0 {
                    assert(cols2[id.0].content@ =~= Set::<u128>::empty());
                } else {
                    assert(prev.collections@[p2].content@.contains(t2));
                }
            }
            assert forall|t2: u128| #[trigger] self.tags@.dom().contains(t2)
                && !self.tags@[t2].is_deleted
                implies {
                    let pp = self.tags@[t2].parent.0;
                    cols2.dom().contains(pp) && cols2[pp].content@.contains(t2)
                } by {
                let pp = prev.tags@[t2].parent.0;
                assert(prev.collections@.dom().contains(pp)
                    && prev.collections@[pp].content@.contains(t2));
            }
            assert(final(self).wf());
            assert(final(self).recycle_bin.collections@
                =~= prev.recycle_bin.collections@.insert(id.0));
        }
        true
    }

    /// Makes one soft-deleted collection live again, linking it into its
    /// parent's child set — a single re-link, used by the legacy migration
    /// after all records are inserted.  Returns whether it applied: the
    /// collection must exist soft-deleted with a present parent other than
    /// itself; otherwise nothing changes.
    pub fn revive_collection(&mut self, id: CollectionId) -> (r: bool)
        requires
            old(self).wf(),
        ensures
            final(self).wf(),
            r == (old(self).collections@.dom().contains(id.0)
                && old(self).collections@[id.0].is_deleted
                && old(self).collections@[id.0].parent is Some
                && old(self).collections@[id.0].parent->Some_0.0 != id.0
                && old(self).collections@.dom().contains(
                    old(self).collections@[id.0].parent->Some_0.0,
                )),
            r ==> {
                let p = old(self).collections@[id.0].parent->Some_0.0;
                &&& final(self).collections@.dom() == old(self).collections@.dom()
                &&& final(self).collections@[id.0] == (Collection {
                    is_deleted: false,
                    ..old(self).collections@[id.0]
                })
                &&& final(self).collections@[p].children@
                    == old(self).collections@[p].children@.insert(id.0)
                &&& forall|c: u128| c != id.0 && c != p
                        && old(self).collections@.dom().contains(c)
                    ==> #[trigger] final(self).collections@[c]
                        == old(self).collections@[c]
                &&& final(self).recycle_bin.collections@
                    == old(self).recycle_bin.collections@.remove(id.0)
                &&& final(self).recycle_bin.assets == old(self).recycle_bin.assets
                &&& final(self).recycle_bin.tags == old(self).recycle_bin.tags
                &&& final(self).tags == old(self).tags
                &&& final(self).assets == old(self).assets
                &&& final(self).cache == old(self).cache
                &&& final(self).sp_collections == old(self).sp_collections
                &&& final(self).lib_meta == old(self).lib_meta
            },
            !r ==> *final(self) == *old(self),
    {
        let ghost prev = *self;
        let pos = match self.collections.position_of(id.0) {
            Some(i) => i,
            None => {
                return false;
            },
        };
        if !self.collections.val_at(pos).is_deleted {
            return false;
        }
        let parent = match self.collections.val_at(pos).parent {
            Some(p) => p,
            None => {
                return false;
            },
        };
        if parent.0 == id.0 {
            return false;
        }
        let ppos = match self.collections.position_of(parent.0) {
            Some(i) => i,
            None => {
                return false;
            },
        };
        let c = self.collections.val_at_mut(pos);
        c.is_deleted = false;
        let p = self.collections.val_at_mut(ppos);
        p.children.insert(id.0);
        self.recycle_bin.collections.remove(id.0);
        proof {
            let cols2 = self.collections@;
            assert(cols2.dom() =~= prev.collections@.dom());
            assert(id.0 != prev.sp_collections.root.0);
            assert forall|p2: u128, c2: u128|
                cols2.dom().contains(p2) && #[trigger] cols2[p2].children@.contains(c2)
                implies self.child_link_ok(p2, c2) by {
                if p2 == parent.0 && c2 == id.0 {
                } else {
                    assert(prev.collections@[p2].children@.contains(c2));
                    assert(prev.child_link_ok(p2, c2));
                    assert(c2 != id.0);
                }
            }
            assert forall|c2: u128| #[trigger] cols2.dom().contains(c2)
                && !cols2[c2].is_deleted && c2 != prev.sp_collections.root.0
                implies {
                    let pp = cols2[c2].parent->Some_0.0;
                    cols2.dom().contains(pp) && cols2[pp].children@.contains(c2)
                } by {
                if c2 == id.0 {
                    assert(cols2[parent.0].children@.contains(id.0));
                } else {
                    let pp = prev.collections@[c2].parent->Some_0.0;
                    assert(prev.collections@.dom().contains(pp)
                        && prev.collections@[pp].children@.contains(c2));
                }
            }
            assert forall|p2: u128, t2: u128|
                cols2.dom().contains(p2) && #[trigger] cols2[p2].content@.contains(t2)
                implies self.tags@.dom().contains(t2) && !self.tags@[t2].is_deleted
                    && self.tags@[t2].parent.0 == p2 by {
                assert(prev.collections@[p2].content@.contains(t2));
            }
            assert forall|t2: u128| #[trigger] self.tags@.dom().contains(t2)
                && !self.tags@[t2].is_deleted
                implies {
                    let pp = self.tags@[t2].parent.0;
                    cols2.dom().contains(pp) && cols2[pp].content@.contains(t2)
                } by {
                let pp = prev.tags@[t2].parent.0;
                assert(prev.collections@.dom().contains(pp)
                    && prev.collections@[pp].content@.contains(t2));
            }
            assert(final(self).wf());
            assert(final(self).recycle_bin.collections@
                =~= prev.recycle_bin.collections@.remove(id.0));
        }
        true
    }
}


impl Storage {
    /// Drops any stale ungrouped membership of `id` from every asset's
    /// container — the ungrouped counterpart of `drop_stale_grouped`, with
    /// the same purpose: a freshly chosen tag identifier is never
    /// referenced in practice, and dropping any leftover reference keeps
    /// the container invariant independent of identifier reuse.
    fn drop_stale_ungrouped(&mut self, id: TagId)
        requires
            old(self).wf(),
        ensures
            final(self).wf(),
            unchanged_except_assets(*old(self), *final(self)),
            final(self).assets@.dom() == old(self).assets@.dom(),
            forall|a: u128| #[trigger] final(self).assets@.dom().contains(a) ==> {
                let a0 = old(self).assets@[a];
                let a1 = final(self).assets@[a];
                &&& (Asset { tags: a1.tags, ..a1 }) == (Asset { tags: a1.tags, ..a0 })
                &&& a1.tags.grouped == a0.tags.grouped
                &&& a1.tags.ungrouped@ == a0.tags.ungrouped@.remove(id.0)
            },
    {
        let ghost prev = *self;
        let n = self.assets.len();
        let mut i: usize = 0;
        while i < n
            invariant
                prev.wf(),
                self.wf(),
                unchanged_except_assets(prev, *self),
                n == prev.assets.keys_seq().len(),
                i <= n,
                self.assets.keys_seq() == prev.assets.keys_seq(),
                self.assets@.dom() == prev.assets@.dom(),
                forall|j: int| 0 <= j < n ==> {
                    let a0 = prev.assets.spec_val_at(j);
                    let a1 = #[trigger] self.assets.spec_val_at(j);
                    &&& (Asset { tags: a1.tags, ..a1 }) == (Asset { tags: a1.tags, ..a0 })
                    &&& a1.tags.grouped == a0.tags.grouped
                    &&& (j >= i ==> a1 == a0)
                    &&& (j < i ==> a1.tags.ungrouped@ == a0.tags.ungrouped@.remove(id.0))
                },
            decreases n - i,
        {
            let ghost pre = *self;
            let a = self.assets.val_at_mut(i);
            a.tags.ungrouped.remove(id.0);
            proof {
                let key = pre.assets.keys_seq()[i as int];
                assert(self.assets@.dom() =~= pre.assets@.dom());
                assert forall|a2: u128, g: u128|
                    self.assets@.dom().contains(a2)
                        && #[trigger] self.assets@[a2].tags.grouped@.dom().contains(g)
                    implies (self.tags@.dom().contains(self.assets@[a2].tags.grouped@[g].0)
                        ==> self.tags@[self.assets@[a2].tags.grouped@[g].0].group
                            == Some(CollectionId(g))) by {
                    if a2 != key {
                        assert(self.assets@[a2] == pre.assets@[a2]);
                    } else {
                        assert(self.assets@[a2].tags.grouped == pre.assets@[a2].tags.grouped);
                    }
                }
                assert forall|a2: u128, t2: u128|
                    self.assets@.dom().contains(a2)
                        && #[trigger] self.assets@[a2].tags.ungrouped@.contains(t2)
                        && self.tags@.dom().contains(t2)
                    implies self.tags@[t2].group is None by {
                    if a2 != key {
                        assert(self.assets@[a2] == pre.assets@[a2]);
                    } else {
                        assert(pre.assets@[a2].tags.ungrouped@.contains(t2));
                    }
                }
                assert forall|a2: u128| #[trigger] self.assets@.dom().contains(a2)
                    implies self.assets@[a2].id.0 == a2 && self.assets@[a2].wf()
                        && (self.assets@[a2].is_deleted
                            <==> self.recycle_bin.assets@.contains(a2)) by {
                    if a2 != key {
                        assert(self.assets@[a2] == pre.assets@[a2]);
                    }
                }
                assert forall|a2: u128| #[trigger] self.cache.asset_crc@.dom().contains(a2)
                    implies self.assets@.dom().contains(a2)
                        && !self.assets@[a2].is_deleted by {
                    if a2 != key {
                        assert(self.assets@[a2] == pre.assets@[a2]);
                    }
                }
            }
            i += 1;
        }
        proof {
            assert forall|a: u128| #[trigger] final(self).assets@.dom().contains(a)
                implies {
                    let a0 = prev.assets@[a];
                    let a1 = final(self).assets@[a];
                    &&& (Asset { tags: a1.tags, ..a1 }) == (Asset { tags: a1.tags, ..a0 })
                    &&& a1.tags.grouped == a0.tags.grouped
                    &&& a1.tags.ungrouped@ == a0.tags.ungrouped@.remove(id.0)
                } by {
                prev.assets.lemma_dom();
                prev.assets.lemma_index_of(a);
                let j = prev.assets.spec_index_of(a);
                prev.assets.lemma_val_at(j);
                self.assets.lemma_val_at(j);
            }
        }
    }

    /// Inserts a live tag record under a caller-chosen identifier, as the
    /// legacy migration needs, linking it into its parent collection's
    /// content.  Any stale container reference to the identifier is dropped
    /// first (a verified no-op in practice).  Returns whether it was
    /// inserted: the identifier must be unused and the parent present.
    pub fn insert_tag_record(
        &mut self,
        id: TagId,
        parent: CollectionId,
        group: Option<CollectionId>,
        name: String,
        color: Option<Color>,
        meta: Metadata,
    ) -> (r: bool)
        requires
            old(self).wf(),
        ensures
            final(self).wf(),
            r == (!old(self).tags@.dom().contains(id.0)
                && old(self).collections@.dom().contains(parent.0)),
            r ==> {
                &&& final(self).tags@.dom() == old(self).tags@.dom().insert(id.0)
                &&& final(self).tags@[id.0].id == id
                &&& final(self).tags@[id.0].parent == parent
                &&& final(self).tags@[id.0].group == group
                &&& final(self).tags@[id.0].name == name
                &&& final(self).tags@[id.0].color == color
                &&& final(self).tags@[id.0].meta == meta
                &&& !final(self).tags@[id.0].is_deleted
                &&& forall|t: u128| t != id.0 && old(self).tags@.dom().contains(t)
                    ==> #[trigger] final(self).tags@[t] == old(self).tags@[t]
                &&& final(self).collections@.dom() == old(self).collections@.dom()
                &&& final(self).collections@[parent.0].content@
                    == old(self).collections@[parent.0].content@.insert(id.0)
                &&& forall|c: u128| c != parent.0 && old(self).collections@.dom().contains(c)
                    ==> #[trigger] final(self).collections@[c]
                        == old(self).collections@[c]
                &&& final(self).assets@.dom() == old(self).assets@.dom()
                &&& final(self).cache == old(self).cache
                &&& final(self).recycle_bin == old(self).recycle_bin
                &&& final(self).sp_collections == old(self).sp_collections
                &&& final(self).lib_meta == old(self).lib_meta
            },
            !r ==> *final(self) == *old(self),
    {
        let ghost prev = *self;
        if self.tags.contains_key(id.0) {
            return false;
        }
        let ppos = match self.collections.position_of(parent.0) {
            Some(i) => i,
            None => {
                return false;
            },
        };
        self.drop_stale_grouped(id);
        self.drop_stale_ungrouped(id);
        let ghost mid1 = *self;
        let p = self.collections.val_at_mut(ppos);
        p.content.insert(id.0);
        let mut t = Tag::new(id, name, parent);
        t.group = group;
        t.color = color;
        t.meta = meta;
        self.tags.insert(id.0, t);
        proof {
            let cols1 = mid1.collections@;
            let cols2 = self.collections@;
            let tags2 = self.tags@;
            assert(cols2.dom() =~= cols1.dom());
            assert(tags2.dom() =~= mid1.tags@.dom().insert(id.0));
            assert forall|p2: u128, c2: u128|
                cols2.dom().contains(p2) && #[trigger] cols2[p2].children@.contains(c2)
                implies self.child_link_ok(p2, c2) by {
                assert(cols1[p2].children@.contains(c2));
                assert(mid1.child_link_ok(p2, c2));
            }
            assert forall|c2: u128| #[trigger] cols2.dom().contains(c2)
                && !cols2[c2].is_deleted && c2 != prev.sp_collections.root.0
                implies {
                    let pp = cols2[c2].parent->Some_0.0;
                    cols2.dom().contains(pp) && cols2[pp].children@.contains(c2)
                } by {
                assert(cols1.dom().contains(c2) && !cols1[c2].is_deleted);
                let pp = cols1[c2].parent->Some_0.0;
                assert(cols1.dom().contains(pp) && cols1[pp].children@.contains(c2));
            }
            assert forall|p2: u128, t2: u128|
                cols2.dom().contains(p2) && #[trigger] cols2[p2].content@.contains(t2)
                implies tags2.dom().contains(t2) && !tags2[t2].is_deleted
                    && tags2[t2].parent.0 == p2 by {
                if p2 == parent.0 && t2 == id.0 {
                } else {
                    assert(cols1[p2].content@.contains(t2));
                    assert(t2 != id.0);
                }
            }
            assert forall|t2: u128| #[trigger] tags2.dom().contains(t2)
                && !tags2[t2].is_deleted
                implies {
                    let pp = tags2[t2].parent.0;
                    cols2.dom().contains(pp) && cols2[pp].content@.contains(t2)
                } by {
                if t2 == id.0 {
                } else {
                    let pp = mid1.tags@[t2].parent.0;
                    assert(cols1.dom().contains(pp) && cols1[pp].content@.contains(t2));
                }
            }
            assert forall|t2: u128| #[trigger] self.recycle_bin.tags@.contains(t2)
                implies tags2.dom().contains(t2) by {
                assert(mid1.tags@.dom().contains(t2));
            }
            assert forall|t2: u128| #[trigger] tags2.dom().contains(t2)
                implies (tags2[t2].is_deleted
                    <==> self.recycle_bin.tags@.contains(t2)) by {
                if t2 == id.0 {
                    assert(!mid1.tags@.dom().contains(id.0));
                    assert(!mid1.recycle_bin.tags@.contains(id.0));
                }
            }
            assert forall|a2: u128, t2: u128|
                self.assets@.dom().contains(a2)
                    && #[trigger] self.assets@[a2].tags.ungrouped@.contains(t2)
                    && tags2.dom().contains(t2)
                implies tags2[t2].group is None by {
                assert(prev.assets@.dom().contains(a2));
                assert(mid1.assets@[a2].tags.ungrouped@
                    == prev.assets@[a2].tags.ungrouped@.remove(id.0));
                assert(t2 != id.0);
                assert(mid1.tags@.dom().contains(t2));
            }
            assert forall|a2: u128, g2: u128|
                self.assets@.dom().contains(a2)
                    && #[trigger] self.assets@[a2].tags.grouped@.dom().contains(g2)
                implies (tags2.dom().contains(self.assets@[a2].tags.grouped@[g2].0)
                    ==> tags2[self.assets@[a2].tags.grouped@[g2].0].group
                        == Some(CollectionId(g2))) by {
                let tv = self.assets@[a2].tags.grouped@[g2];
                assert(prev.assets@.dom().contains(a2));
                assert(mid1.assets@[a2].tags.grouped@.dom().contains(g2));
                assert(prev.assets@[a2].tags.grouped@.dom().contains(g2));
                assert(mid1.assets@[a2].tags.grouped@[g2]
                    == prev.assets@[a2].tags.grouped@[g2]);
                assert(prev.assets@[a2].tags.grouped@[g2] != id);
                if tags2.dom().contains(tv.0) && tv.0 != id.0 {
                    assert(mid1.tags@.dom().contains(tv.0));
                }
            }
            assert(final(self).wf());
            assert(final(self).collections@[parent.0].content@
                =~= prev.collections@[parent.0].content@.insert(id.0));
            assert(final(self).tags@.dom() =~= prev.tags@.dom().insert(id.0));
        }
        true
    }
}


impl Storage {
    /// Inserts a live asset record under a caller-chosen identifier, as the
    /// legacy migration needs.  The tag container is rebuilt consistently:
    /// the grouped membership is kept only when the named tag really
    /// belongs to the named group, and an ungrouped membership only when
    /// its tag is unknown (a tolerated dangling reference) or ungrouped.
    /// No checksum is registered; the caller re-hashes the backing file.
    /// Returns whether it was inserted; an identifier already in use is
    /// refused.
    pub fn insert_asset_record(
        &mut self,
        id: AssetId,
        name: String,
        ext: String,
        ty: AssetType,
        props: AssetProperty,
        meta: Metadata,
        src: String,
        grouped: Option<(CollectionId, TagId)>,
        ungrouped: &Vec<TagId>,
    ) -> (r: bool)
        requires
            old(self).wf(),
        ensures
            final(self).wf(),
            r == !old(self).assets@.dom().contains(id.0),
            r ==> {
                &&& final(self).assets@.dom() == old(self).assets@.dom().insert(id.0)
                &&& forall|a: u128| a != id.0 && old(self).assets@.dom().contains(a)
                    ==> #[trigger] final(self).assets@[a] == old(self).assets@[a]
                &&& ({
                    let a = final(self).assets@[id.0];
                    &&& a.id == id
                    &&& a.name == name
                    &&& a.ext == ext
                    &&& a.ty == ty
                    &&& a.props == props
                    &&& a.meta == meta
                    &&& a.src == src
                    &&& !a.is_deleted
                    &&& a.tags.grouped@ == match grouped {
                        Some((g, t)) => if old(self).tags@.dom().contains(t.0)
                            && old(self).tags@[t.0].group == Some(g) {
                            Map::<u128, TagId>::empty().insert(g.0, t)
                        } else {
                            Map::<u128, TagId>::empty()
                        },
                        None => Map::<u128, TagId>::empty(),
                    }
                    &&& forall|x: u128| #[trigger] a.tags.ungrouped@.contains(x)
                        <==> ungrouped@.contains(TagId(x))
                            && (!old(self).tags@.dom().contains(x)
                                || old(self).tags@[x].group is None)
                })
                &&& final(self).tags == old(self).tags
                &&& final(self).collections == old(self).collections
                &&& final(self).cache == old(self).cache
                &&& final(self).recycle_bin == old(self).recycle_bin
                &&& final(self).sp_collections == old(self).sp_collections
                &&& final(self).lib_meta == old(self).lib_meta
            },
            !r ==> *final(self) == *old(self),
    {
        let ghost prev = *self;
        if self.assets.contains_key(id.0) {
            return false;
        }
        let mut asset = Asset::new(id, name, ext, meta, ty, props, src);
        match grouped {
            Some((g, t)) => {
                let consistent = match self.tags.get(t.0) {
                    Some(tv) => tv.group == Some(g),
                    None => false,
                };
                if consistent {
                    asset.tags.grouped.insert(g.0, t);
                    proof {
                        assert(asset.tags.grouped@
                            =~= Map::<u128, TagId>::empty().insert(g.0, t));
                    }
                }
            },
            None => {},
        }
        let un = ungrouped.len();
        let mut k: usize = 0;
        while k < un
            invariant
                prev == *old(self),
                prev.wf(),
                un == ungrouped@.len(),
                k <= un,
                self == old(self),
                *self == prev,
                asset.id == id,
                asset.name == name,
                asset.ext == ext,
                asset.ty == ty,
                asset.props == props,
                asset.meta == meta,
                asset.src == src,
                !asset.is_deleted,
                asset.tags.grouped.wf(),
                asset.tags.ungrouped.wf(),
                asset.tags.grouped@ == match grouped {
                    Some((g, t)) => if prev.tags@.dom().contains(t.0)
                        && prev.tags@[t.0].group == Some(g) {
                        Map::<u128, TagId>::empty().insert(g.0, t)
                    } else {
                        Map::<u128, TagId>::empty()
                    },
                    None => Map::<u128, TagId>::empty(),
                },
                forall|x: u128| #[trigger] asset.tags.ungrouped@.contains(x)
                    ==> ungrouped@.contains(TagId(x))
                        && (!prev.tags@.dom().contains(x)
                            || prev.tags@[x].group is None),
                forall|j: int| 0 <= j < k ==> {
                    let x = (#[trigger] ungrouped@[j]).0;
                    (!prev.tags@.dom().contains(x) || prev.tags@[x].group is None)
                        ==> asset.tags.ungrouped@.contains(x)
                },
            decreases un - k,
        {
            let u = ungrouped[k];
            let keep = match self.tags.get(u.0) {
                Some(tv) => tv.group.is_none(),
                None => true,
            };
            if keep {
                asset.tags.ungrouped.insert(u.0);
                proof {
                    assert(ungrouped@.contains(TagId(u.0))) by {
                        assert(ungrouped@[k as int] == u);
                    }
                }
            }
            k += 1;
        }
        let ghost con = asset.tags;
        self.assets.insert(id.0, asset);
        proof {
            assert(self.assets@.dom() =~= prev.assets@.dom().insert(id.0));
            assert forall|a2: u128| #[trigger] self.assets@.dom().contains(a2)
                implies self.assets@[a2].id.0 == a2 && self.assets@[a2].wf()
                    && (self.assets@[a2].is_deleted
                        <==> self.recycle_bin.assets@.contains(a2)) by {
                if a2 != id.0 {
                    assert(self.assets@[a2] == prev.assets@[a2]);
                } else {
                    assert(!prev.recycle_bin.assets@.contains(id.0));
                }
            }
            assert forall|a2: u128| #[trigger] self.cache.asset_crc@.dom().contains(a2)
                implies self.assets@.dom().contains(a2)
                    && !self.assets@[a2].is_deleted by {
                assert(prev.cache.asset_crc@.dom().contains(a2));
                assert(a2 != id.0);
                assert(self.assets@[a2] == prev.assets@[a2]);
            }
            assert forall|a2: u128, t2: u128|
                self.assets@.dom().contains(a2)
                    && #[trigger] self.assets@[a2].tags.ungrouped@.contains(t2)
                    && self.tags@.dom().contains(t2)
                implies self.tags@[t2].group is None by {
                if a2 != id.0 {
                    assert(self.assets@[a2] == prev.assets@[a2]);
                }
            }
            assert forall|a2: u128, g2: u128|
                self.assets@.dom().contains(a2)
                    && #[trigger] self.assets@[a2].tags.grouped@.dom().contains(g2)
                implies (self.tags@.dom().contains(self.assets@[a2].tags.grouped@[g2].0)
                    ==> self.tags@[self.assets@[a2].tags.grouped@[g2].0].group
                        == Some(CollectionId(g2))) by {
                if a2 != id.0 {
                    assert(self.assets@[a2] == prev.assets@[a2]);
                }
            }
            assert(final(self).wf());
            assert forall|x: u128| #[trigger] con.ungrouped@.contains(x)
                implies ungrouped@.contains(TagId(x))
                    && (!prev.tags@.dom().contains(x)
                        || prev.tags@[x].group is None) by {}
            assert forall|x: u128|
                ungrouped@.contains(TagId(x))
                    && (!prev.tags@.dom().contains(x) || prev.tags@[x].group is None)
                implies #[trigger] con.ungrouped@.contains(x) by {
                let j = choose|j: int|
                    0 <= j < ungrouped@.len() && ungrouped@[j] == TagId(x);
            }
        }
        true
    }
}


impl Storage {
    /// Validates a freshly assembled storage — as built from a parsed
    /// file — against the structural invariant.  Returns `true` only when
    /// the invariant holds, so a caller may hand the storage to the
    /// verified operations; inconsistent data (the §7 serialization case)
    /// is reported as `false` and the load refused.  The duplicate cache
    /// must still be empty: it is derived and rebuilt after loading.  The
    /// `requires` clauses hold for any storage whose containers were built
    /// through their own operations, as the mirror-type conversions do.
    #[verifier::spinoff_prover]
    #[verifier::rlimit(100)]
    pub fn check_wf(&self) -> (r: bool)
        requires
            self.wf_check_base(),
        ensures
            r ==> self.wf(),
    {
        // the cache must be empty (it is rebuilt from the files)
        if self.cache.asset_crc.len() != 0 || self.cache.crc_lookup.len() != 0 {
            return false;
        }
        proof {
            assert(self.cache.cache_wf()) by {
                self.cache.asset_crc.lemma_dom();
                self.cache.crc_lookup.lemma_dom();
            }
            assert(self.cache_live_wf()) by {
                self.cache.asset_crc.lemma_dom();
            }
        }
        // identifiers key their own records; the root is sound
        let cn = self.collections.len();
        let mut i: usize = 0;
        while i < cn
            invariant
                self.collections.wf(),
                cn == self.collections.keys_seq().len(),
                i <= cn,
                forall|j: int| 0 <= j < i ==> {
                    let c = #[trigger] self.collections.keys_seq()[j];
                    &&& self.collections@[c].id.0 == c
                    &&& (c != self.sp_collections.root.0
                        ==> self.collections@[c].parent is Some)
                },
            decreases cn - i,
        {
            let c = self.collections.key_at(i);
            let col = self.collections.val_at(i);
            if col.id.0 != c {
                return false;
            }
            if c != self.sp_collections.root.0 && col.parent.is_none() {
                return false;
            }
            i += 1;
        }
        match self.collections.get(self.sp_collections.root.0) {
            Some(rc) => {
                if rc.parent.is_some() || rc.is_deleted {
                    return false;
                }
            },
            None => {
                return false;
            },
        }
        let tn = self.tags.len();
        let mut i: usize = 0;
        while i < tn
            invariant
                self.tags.wf(),
                tn == self.tags.keys_seq().len(),
                i <= tn,
                forall|j: int| 0 <= j < i ==> {
                    let t = #[trigger] self.tags.keys_seq()[j];
                    self.tags@[t].id.0 == t
                },
            decreases tn - i,
        {
            let t = self.tags.key_at(i);
            if self.tags.val_at(i).id.0 != t {
                return false;
            }
            i += 1;
        }
        let an = self.assets.len();
        let mut i: usize = 0;
        while i < an
            invariant
                self.assets.wf(),
                an == self.assets.keys_seq().len(),
                i <= an,
                forall|j: int| 0 <= j < i ==> {
                    let a = #[trigger] self.assets.keys_seq()[j];
                    self.assets@[a].id.0 == a
                },
            decreases an - i,
        {
            let a = self.assets.key_at(i);
            if self.assets.val_at(i).id.0 != a {
                return false;
            }
            i += 1;
        }
        proof {
            self.collections.lemma_dom();
            self.tags.lemma_dom();
            self.assets.lemma_dom();
            assert(self.maps_wf()) by {
                assert forall|c: u128| #[trigger] self.collections@.dom().contains(c)
                    implies self.collections@[c].id.0 == c && self.collections@[c].wf() by {
                    self.collections.lemma_index_of(c);
                }
                assert forall|t: u128| #[trigger] self.tags@.dom().contains(t)
                    implies self.tags@[t].id.0 == t by {
                    self.tags.lemma_index_of(t);
                }
                assert forall|a: u128| #[trigger] self.assets@.dom().contains(a)
                    implies self.assets@[a].id.0 == a && self.assets@[a].wf() by {
                    self.assets.lemma_index_of(a);
                }
            }
            assert(self.root_wf()) by {
                assert forall|c: u128| #[trigger] self.collections@.dom().contains(c)
                    && c != self.sp_collections.root.0
                    implies self.collections@[c].parent is Some by {
                    self.collections.lemma_index_of(c);
                }
            }
        }
        // child links and attachment
        let mut i: usize = 0;
        while i < cn
            invariant
                self.wf_check_base(),
                cn == self.collections.keys_seq().len(),
                i <= cn,
                forall|j: int, x: u128| 0 <= j < i
                    && #[trigger] self.collections@[self.collections.keys_seq()[j]]
                        .children@.contains(x)
                    ==> self.child_link_ok(self.collections.keys_seq()[j], x),
                forall|j: int| 0 <= j < i ==> {
                    let c = #[trigger] self.collections.keys_seq()[j];
                    (!self.collections@[c].is_deleted && c != self.sp_collections.root.0)
                        ==> {
                            let pp = self.collections@[c].parent->Some_0.0;
                            &&& self.collections@.dom().contains(pp)
                            &&& self.collections@[pp].children@.contains(c)
                        }
                },
            decreases cn - i,
        {
            let c = self.collections.key_at(i);
            let col = self.collections.val_at(i);
            proof {
                assert(self.collections@[c].wf());
            }
            let m = col.children.len();
            let mut k: usize = 0;
            while k < m
                invariant
                    self.wf_check_base(),
                    self.collections@.dom().contains(c),
                    col.wf(),
                    *col == self.collections@[c],
                    m == col.children.elems().len(),
                    k <= m,
                    forall|q: int| 0 <= q < k
                        ==> self.child_link_ok(c, #[trigger] col.children.elems()[q]),
                decreases m - k,
            {
                let x = col.children.at(k);
                let ok = match self.collections.get(x) {
                    Some(child) => !child.is_deleted
                        && child.parent == Some(CollectionId(c)) && x != c,
                    None => false,
                };
                if !ok {
                    return false;
                }
                k += 1;
            }
            proof {
                col.children.lemma_elems();
                assert forall|x: u128| #[trigger] col.children@.contains(x)
                    implies self.child_link_ok(c, x) by {
                    let q = choose|q: int|
                        0 <= q < col.children.elems().len()
                            && col.children.elems()[q] == x;
                }
            }
            if !col.is_deleted && c != self.sp_collections.root.0 {
                let ok = match col.parent {
                    Some(p) => match self.collections.get(p.0) {
                        Some(pc) => pc.children.contains(c),
                        None => false,
                    },
                    None => false,
                };
                if !ok {
                    return false;
                }
            }
            i += 1;
        }
        // content links and tag attachment
        let mut i: usize = 0;
        while i < cn
            invariant
                self.wf_check_base(),
                cn == self.collections.keys_seq().len(),
                i <= cn,
                forall|j: int, t: u128| 0 <= j < i
                    && #[trigger] self.collections@[self.collections.keys_seq()[j]]
                        .content@.contains(t)
                    ==> self.tags@.dom().contains(t) && !self.tags@[t].is_deleted
                        && self.tags@[t].parent.0 == self.collections.keys_seq()[j],
            decreases cn - i,
        {
            let c = self.collections.key_at(i);
            let col = self.collections.val_at(i);
            proof {
                assert(self.collections@[c].wf());
            }
            let m = col.content.len();
            let mut k: usize = 0;
            while k < m
                invariant
                    self.wf_check_base(),
                    self.collections@.dom().contains(c),
                    col.wf(),
                    *col == self.collections@[c],
                    m == col.content.elems().len(),
                    k <= m,
                    forall|q: int| 0 <= q < k ==> {
                        let t = #[trigger] col.content.elems()[q];
                        &&& self.tags@.dom().contains(t)
                        &&& !self.tags@[t].is_deleted
                        &&& self.tags@[t].parent.0 == c
                    },
                decreases m - k,
            {
                let t = col.content.at(k);
                let ok = match self.tags.get(t) {
                    Some(tv) => !tv.is_deleted && tv.parent.0 == c,
                    None => false,
                };
                if !ok {
                    return false;
                }
                k += 1;
            }
            proof {
                col.content.lemma_elems();
                assert forall|t: u128| #[trigger] col.content@.contains(t)
                    implies self.tags@.dom().contains(t) && !self.tags@[t].is_deleted
                        && self.tags@[t].parent.0 == c by {
                    let q = choose|q: int|
                        0 <= q < col.content.elems().len()
                            && col.content.elems()[q] == t;
                }
            }
            i += 1;
        }
        let mut i: usize = 0;
        while i < tn
            invariant
                self.wf_check_base(),
                tn == self.tags.keys_seq().len(),
                i <= tn,
                forall|j: int| 0 <= j < i ==> {
                    let t = #[trigger] self.tags.keys_seq()[j];
                    !self.tags@[t].is_deleted ==> {
                        let pp = self.tags@[t].parent.0;
                        &&& self.collections@.dom().contains(pp)
                        &&& self.collections@[pp].content@.contains(t)
                    }
                },
            decreases tn - i,
        {
            let t = self.tags.key_at(i);
            let tv = self.tags.val_at(i);
            if !tv.is_deleted {
                let ok = match self.collections.get(tv.parent.0) {
                    Some(pc) => pc.content.contains(t),
                    None => false,
                };
                if !ok {
                    return false;
                }
            }
            i += 1;
        }
        // the recycle bin matches the deletion flags
        let mut b: usize = 0;
        while b < 3
            invariant
                self.wf_check_base(),
                b <= 3,
                b >= 1 ==> forall|x: u128|
                    #[trigger] self.recycle_bin.collections@.contains(x)
                    ==> self.collections@.dom().contains(x)
                        && self.collections@[x].is_deleted,
                b >= 2 ==> forall|x: u128| #[trigger] self.recycle_bin.assets@.contains(x)
                    ==> self.assets@.dom().contains(x) && self.assets@[x].is_deleted,
                b >= 3 ==> forall|x: u128| #[trigger] self.recycle_bin.tags@.contains(x)
                    ==> self.tags@.dom().contains(x) && self.tags@[x].is_deleted,
            decreases 3 - b,
        {
            let bin = if b == 0 {
                &self.recycle_bin.collections
            } else if b == 1 {
                &self.recycle_bin.assets
            } else {
                &self.recycle_bin.tags
            };
            let n = bin.len();
            let mut k: usize = 0;
            while k < n
                invariant
                    self.wf_check_base(),
                    b < 3,
                    bin == if b == 0 {
                        &self.recycle_bin.collections
                    } else if b == 1 {
                        &self.recycle_bin.assets
                    } else {
                        &self.recycle_bin.tags
                    },
                    bin.wf(),
                    n == bin.elems().len(),
                    k <= n,
                    forall|q: int| 0 <= q < k ==> {
                        let x = #[trigger] bin.elems()[q];
                        if b == 0 {
                            self.collections@.dom().contains(x)
                                && self.collections@[x].is_deleted
                        } else if b == 1 {
                            self.assets@.dom().contains(x) && self.assets@[x].is_deleted
                        } else {
                            self.tags@.dom().contains(x) && self.tags@[x].is_deleted
                        }
                    },
                decreases n - k,
            {
                let x = bin.at(k);
                let ok = if b == 0 {
                    match self.collections.get(x) {
                        Some(v) => v.is_deleted,
                        None => false,
                    }
                } else if b == 1 {
                    match self.assets.get(x) {
                        Some(v) => v.is_deleted,
                        None => false,
                    }
                } else {
                    match self.tags.get(x) {
                        Some(v) => v.is_deleted,
                        None => false,
                    }
                };
                if !ok {
                    return false;
                }
                k += 1;
            }
            proof {
                bin.lemma_elems();
                assert forall|x: u128| #[trigger] bin@.contains(x) implies {
                    if b == 0 {
                        self.collections@.dom().contains(x)
                            && self.collections@[x].is_deleted
                    } else if b == 1 {
                        self.assets@.dom().contains(x) && self.assets@[x].is_deleted
                    } else {
                        self.tags@.dom().contains(x) && self.tags@[x].is_deleted
                    }
                } by {
                    let q = choose|q: int|
                        0 <= q < bin.elems().len() && bin.elems()[q] == x;
                }
            }
            b += 1;
        }
        // flagged entities sit in the bin
        let mut i: usize = 0;
        while i < cn
            invariant
                self.wf_check_base(),
                cn == self.collections.keys_seq().len(),
                i <= cn,
                forall|j: int| 0 <= j < i ==> {
                    let c = #[trigger] self.collections.keys_seq()[j];
                    self.collections@[c].is_deleted
                        ==> self.recycle_bin.collections@.contains(c)
                },
            decreases cn - i,
        {
            let c = self.collections.key_at(i);
            if self.collections.val_at(i).is_deleted
                && !self.recycle_bin.collections.contains(c) {
                return false;
            }
            i += 1;
        }
        let mut i: usize = 0;
        while i < an
            invariant
                self.wf_check_base(),
                an == self.assets.keys_seq().len(),
                i <= an,
                forall|j: int| 0 <= j < i ==> {
                    let a = #[trigger] self.assets.keys_seq()[j];
                    self.assets@[a].is_deleted ==> self.recycle_bin.assets@.contains(a)
                },
            decreases an - i,
        {
            let a = self.assets.key_at(i);
            if self.assets.val_at(i).is_deleted && !self.recycle_bin.assets.contains(a) {
                return false;
            }
            i += 1;
        }
        let mut i: usize = 0;
        while i < tn
            invariant
                self.wf_check_base(),
                tn == self.tags.keys_seq().len(),
                i <= tn,
                forall|j: int| 0 <= j < i ==> {
                    let t = #[trigger] self.tags.keys_seq()[j];
                    self.tags@[t].is_deleted ==> self.recycle_bin.tags@.contains(t)
                },
            decreases tn - i,
        {
            let t = self.tags.key_at(i);
            if self.tags.val_at(i).is_deleted && !self.recycle_bin.tags.contains(t) {
                return false;
            }
            i += 1;
        }
        // tag containers place live tags in the slots of their own groups
        let mut i: usize = 0;
        while i < an
            invariant
                self.wf_check_base(),
                an == self.assets.keys_seq().len(),
                i <= an,
                forall|j: int, g: u128| 0 <= j < i
                    && #[trigger] self.assets@[self.assets.keys_seq()[j]]
                        .tags.grouped@.dom().contains(g)
                    ==> (self.tags@.dom().contains(
                        self.assets@[self.assets.keys_seq()[j]].tags.grouped@[g].0,
                    ) ==> self.tags@[self.assets@[self.assets.keys_seq()[j]]
                            .tags.grouped@[g].0].group == Some(CollectionId(g))),
                forall|j: int, t: u128| 0 <= j < i
                    && #[trigger] self.assets@[self.assets.keys_seq()[j]]
                        .tags.ungrouped@.contains(t)
                    && self.tags@.dom().contains(t)
                    ==> self.tags@[t].group is None,
            decreases an - i,
        {
            let ghost akey = self.assets.keys_seq()[i as int];
            let av = self.assets.val_at(i);
            proof {
                assert(self.assets@[akey].wf());
            }
            let gm = av.tags.grouped.len();
            let mut k: usize = 0;
            while k < gm
                invariant
                    self.wf_check_base(),
                    self.assets@.dom().contains(akey),
                    av.wf(),
                    *av == self.assets@[akey],
                    gm == av.tags.grouped.keys_seq().len(),
                    k <= gm,
                    forall|q: int| 0 <= q < k ==> {
                        let g = #[trigger] av.tags.grouped.keys_seq()[q];
                        self.tags@.dom().contains(av.tags.grouped@[g].0)
                            ==> self.tags@[av.tags.grouped@[g].0].group
                                == Some(CollectionId(g))
                    },
                decreases gm - k,
            {
                let g = av.tags.grouped.key_at(k);
                let t = *av.tags.grouped.val_at(k);
                match self.tags.get(t.0) {
                    Some(tv) => {
                        if tv.group != Some(CollectionId(g)) {
                            return false;
                        }
                    },
                    None => {},
                }
                k += 1;
            }
            let um = av.tags.ungrouped.len();
            let mut k: usize = 0;
            while k < um
                invariant
                    self.wf_check_base(),
                    self.assets@.dom().contains(akey),
                    av.wf(),
                    *av == self.assets@[akey],
                    um == av.tags.ungrouped.elems().len(),
                    k <= um,
                    forall|q: int| 0 <= q < k ==> {
                        let t = #[trigger] av.tags.ungrouped.elems()[q];
                        self.tags@.dom().contains(t) ==> self.tags@[t].group is None
                    },
                decreases um - k,
            {
                let t = av.tags.ungrouped.at(k);
                match self.tags.get(t) {
                    Some(tv) => {
                        if tv.group.is_some() {
                            return false;
                        }
                    },
                    None => {},
                }
                k += 1;
            }
            proof {
                av.tags.grouped.lemma_dom();
                av.tags.ungrouped.lemma_elems();
                assert forall|g: u128| #[trigger] av.tags.grouped@.dom().contains(g)
                    implies (self.tags@.dom().contains(av.tags.grouped@[g].0)
                        ==> self.tags@[av.tags.grouped@[g].0].group
                            == Some(CollectionId(g))) by {
                    av.tags.grouped.lemma_index_of(g);
                }
            }
            i += 1;
        }
        proof {
            self.collections.lemma_dom();
            self.tags.lemma_dom();
            self.assets.lemma_dom();
            assert(self.tree_wf()) by {
                assert forall|p: u128, x: u128|
                    self.collections@.dom().contains(p)
                        && #[trigger] self.collections@[p].children@.contains(x)
                    implies self.child_link_ok(p, x) by {
                    self.collections.lemma_index_of(p);
                }
                assert forall|c: u128| #[trigger] self.collections@.dom().contains(c)
                    && !self.collections@[c].is_deleted
                    && c != self.sp_collections.root.0
                    implies {
                        let pp = self.collections@[c].parent->Some_0.0;
                        &&& self.collections@.dom().contains(pp)
                        &&& self.collections@[pp].children@.contains(c)
                    } by {
                    self.collections.lemma_index_of(c);
                }
            }
            assert(self.tag_links_wf()) by {
                assert forall|p: u128, t: u128|
                    self.collections@.dom().contains(p)
                        && #[trigger] self.collections@[p].content@.contains(t)
                    implies self.tags@.dom().contains(t) && !self.tags@[t].is_deleted
                        && self.tags@[t].parent.0 == p by {
                    self.collections.lemma_index_of(p);
                }
                assert forall|t: u128| #[trigger] self.tags@.dom().contains(t)
                    && !self.tags@[t].is_deleted
                    implies {
                        let pp = self.tags@[t].parent.0;
                        &&& self.collections@.dom().contains(pp)
                        &&& self.collections@[pp].content@.contains(t)
                    } by {
                    self.tags.lemma_index_of(t);
                }
            }
            assert(self.bin_wf()) by {
                assert forall|c: u128| #[trigger] self.collections@.dom().contains(c)
                    implies (self.collections@[c].is_deleted
                        <==> self.recycle_bin.collections@.contains(c)) by {
                    self.collections.lemma_index_of(c);
                }
                assert forall|a: u128| #[trigger] self.assets@.dom().contains(a)
                    implies (self.assets@[a].is_deleted
                        <==> self.recycle_bin.assets@.contains(a)) by {
                    self.assets.lemma_index_of(a);
                }
                assert forall|t: u128| #[trigger] self.tags@.dom().contains(t)
                    implies (self.tags@[t].is_deleted
                        <==> self.recycle_bin.tags@.contains(t)) by {
                    self.tags.lemma_index_of(t);
                }
            }
            assert(self.containers_wf()) by {
                assert forall|a: u128, t: u128|
                    self.assets@.dom().contains(a)
                        && #[trigger] self.assets@[a].tags.ungrouped@.contains(t)
                        && self.tags@.dom().contains(t)
                    implies self.tags@[t].group is None by {
                    self.assets.lemma_index_of(a);
                }
                assert forall|a: u128, g: u128|
                    self.assets@.dom().contains(a)
                        && #[trigger] self.assets@[a].tags.grouped@.dom().contains(g)
                    implies (self.tags@.dom().contains(self.assets@[a].tags.grouped@[g].0)
                        ==> self.tags@[self.assets@[a].tags.grouped@[g].0].group
                            == Some(CollectionId(g))) by {
                    self.assets.lemma_index_of(a);
                }
            }
        }
        true
    }

    /// The facts `check_wf` assumes of any storage whose containers were
    /// built through their own operations.
    pub open spec fn wf_check_base(self) -> bool {
        &&& self.collections.wf()
        &&& self.tags.wf()
        &&& self.assets.wf()
        &&& self.recycle_bin.assets.wf()
        &&& self.recycle_bin.collections.wf()
        &&& self.recycle_bin.tags.wf()
        &&& self.cache.asset_crc.wf()
        &&& self.cache.crc_lookup.wf()
        &&& (forall|c: u128| #[trigger] self.collections@.dom().contains(c)
            ==> self.collections@[c].wf())
        &&& (forall|a: u128| #[trigger] self.assets@.dom().contains(a)
            ==> self.assets@[a].wf())
    }
}

} // verus!
