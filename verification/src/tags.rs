//! Tags and the per-asset tag membership structure.
//!
//! A tag lives under a parent collection and may belong to at most one
//! *group* (a collection used as a mutual-exclusion scope).  Each asset
//! carries a [`TagContainer`] splitting its memberships into `grouped` — a
//! map from group to the single tag held for that group — and `ungrouped`.
//! The container is the one place the at-most-one-tag-per-group rule is
//! enforced.

use vstd::prelude::*;
use crate::ids::{CollectionId, TagId};
use crate::idmap::{UMap, USet};
use crate::color::Color;
use crate::meta::Metadata;

verus! {

/// A label attachable to assets, optionally scoped to a group.
#[derive(Clone, Debug)]
pub struct Tag {
    pub is_deleted: bool,
    pub parent: CollectionId,
    pub group: Option<CollectionId>,
    pub id: TagId,
    pub name: String,
    pub color: Option<Color>,
    pub meta: Metadata,
}

impl Tag {
    /// A fresh tag under `parent`, ungrouped, uncolored, stamped now.
    /// The identifier is chosen by the caller (the storage draws a fresh
    /// random one).
    pub fn new(id: TagId, name: String, parent: CollectionId) -> (r: Tag)
        ensures
            r.id == id,
            r.name == name,
            r.parent == parent,
            r.group is None,
            r.color is None,
            !r.is_deleted,
    {
        Tag {
            is_deleted: false,
            parent,
            group: None,
            color: None,
            id,
            name,
            meta: Metadata::now(0),
        }
    }
}

/// What to do when a tag is inserted for a group that already holds one:
/// replace the incumbent, or drop the newcomer.
#[derive(Clone, Copy, PartialEq, Eq, Structural, Debug)]
pub enum TagGroupConflictResolve {
    Override,
    Remove,
}


/// How [`TagContainer::regroup`] relates the container after the call to
/// the one before it.  A container that did not hold `id` under its old
/// place is untouched; otherwise the old slot is vacated and the tag lands
/// in its new place, unless the occupied destination drops it.
pub open spec fn regroup_rel(
    pre: TagContainer,
    post: TagContainer,
    old_group: Option<CollectionId>,
    new_group: Option<CollectionId>,
    id: TagId,
    resolve: TagGroupConflictResolve,
) -> bool {
    let held = match old_group {
        Some(og) => pre.grouped@.dom().contains(og.0) && pre.grouped@[og.0] == id,
        None => pre.ungrouped@.contains(id.0),
    };
    if !held {
        post == pre
    } else {
        let vacated_grouped = match old_group {
            Some(og) => pre.grouped@.remove(og.0),
            None => pre.grouped@,
        };
        let vacated_ungrouped = match old_group {
            Some(og) => pre.ungrouped@,
            None => pre.ungrouped@.remove(id.0),
        };
        match new_group {
            Some(ng) => {
                &&& post.ungrouped@ == vacated_ungrouped
                &&& if vacated_grouped.dom().contains(ng.0) && resolve is Remove {
                    post.grouped@ == vacated_grouped
                } else {
                    post.grouped@ == vacated_grouped.insert(ng.0, id)
                }
            },
            None => {
                &&& post.grouped@ == vacated_grouped
                &&& post.ungrouped@ == vacated_ungrouped.insert(id.0)
            },
        }
    }
}

/// The tag memberships of one asset.
pub struct TagContainer {
    /// For each group (keyed by the group collection's identifier value),
    /// the single tag held under that group.
    pub grouped: UMap<TagId>,
    /// Tags held outside any group, by identifier value.
    pub ungrouped: USet,
}

impl TagContainer {
    /// Both backing containers are well-formed.
    pub open spec fn wf(self) -> bool {
        self.grouped.wf() && self.ungrouped.wf()
    }

    /// Whether the container holds `t`, under any group or ungrouped.
    pub open spec fn spec_has_tag(self, t: TagId) -> bool {
        ||| self.ungrouped@.contains(t.0)
        ||| exists|g: u128| #[trigger] self.grouped@.dom().contains(g) && self.grouped@[g] == t
    }

    /// An empty container.
    pub fn new() -> (r: TagContainer)
        ensures
            r.wf(),
            r.grouped@ == Map::<u128, TagId>::empty(),
            r.ungrouped@ == Set::<u128>::empty(),
    {
        TagContainer { grouped: UMap::new(), ungrouped: USet::new() }
    }

    /// Inserts `tag` without consulting any conflict policy: a grouped tag
    /// overwrites whatever its group held.
    pub fn insert_unchecked(&mut self, tag: &Tag)
        requires
            old(self).wf(),
        ensures
            final(self).wf(),
            match tag.group {
                Some(g) => final(self).grouped@ == old(self).grouped@.insert(g.0, tag.id)
                    && final(self).ungrouped == old(self).ungrouped,
                None => final(self).ungrouped@ == old(self).ungrouped@.insert(tag.id.0)
                    && final(self).grouped == old(self).grouped,
            },
    {
        match tag.group {
            Some(g) => self.grouped.insert(g.0, tag.id),
            None => self.ungrouped.insert(tag.id.0),
        }
    }

    /// Inserts `tag`; when its group already holds a tag, `resolve` decides
    /// whether the incumbent is replaced (`Override`) or the newcomer is
    /// dropped (`Remove`).
    pub fn insert(&mut self, tag: &Tag, resolve: TagGroupConflictResolve)
        requires
            old(self).wf(),
        ensures
            final(self).wf(),
            match tag.group {
                Some(g) => {
                    &&& final(self).ungrouped == old(self).ungrouped
                    &&& if old(self).grouped@.dom().contains(g.0)
                            && resolve is Remove {
                        final(self).grouped == old(self).grouped
                    } else {
                        final(self).grouped@ == old(self).grouped@.insert(g.0, tag.id)
                    }
                },
                None => final(self).ungrouped@ == old(self).ungrouped@.insert(tag.id.0)
                    && final(self).grouped == old(self).grouped,
            },
    {
        match tag.group {
            Some(g) => {
                if self.grouped.contains_key(g.0) {
                    match resolve {
                        TagGroupConflictResolve::Override => self.grouped.insert(g.0, tag.id),
                        TagGroupConflictResolve::Remove => {},
                    }
                } else {
                    self.grouped.insert(g.0, tag.id);
                }
            },
            None => self.ungrouped.insert(tag.id.0),
        }
    }

    /// Removes `tag`: a grouped tag frees its group slot (whatever that slot
    /// holds), an ungrouped one leaves the ungrouped set.
    pub fn remove(&mut self, tag: &Tag)
        requires
            old(self).wf(),
        ensures
            final(self).wf(),
            match tag.group {
                Some(g) => final(self).grouped@ == old(self).grouped@.remove(g.0)
                    && final(self).ungrouped == old(self).ungrouped,
                None => final(self).ungrouped@ == old(self).ungrouped@.remove(tag.id.0)
                    && final(self).grouped == old(self).grouped,
            },
    {
        match tag.group {
            Some(g) => {
                self.grouped.remove(g.0);
            },
            None => {
                self.ungrouped.remove(tag.id.0);
            },
        }
    }

    /// Whether the container holds the tag with identifier `id`, under any
    /// group or ungrouped.
    pub fn contains_id(&self, id: TagId) -> (r: bool)
        requires
            self.wf(),
        ensures
            r == self.spec_has_tag(id),
    {
        if self.ungrouped.contains(id.0) {
            return true;
        }
        let n = self.grouped.len();
        let mut i: usize = 0;
        while i < n
            invariant
                self.wf(),
                n == self.grouped.keys_seq().len(),
                i <= n,
                !self.ungrouped@.contains(id.0),
                forall|j: int| 0 <= j < i
                    ==> self.grouped@[#[trigger] self.grouped.keys_seq()[j]] != id,
            decreases n - i,
        {
            let g = self.grouped.key_at(i);
            if *self.grouped.val_at(i) == id {
                return true;
            }
            i += 1;
        }
        proof {
            self.grouped.lemma_dom();
            if self.spec_has_tag(id) {
                let g = choose|g: u128|
                    #[trigger] self.grouped@.dom().contains(g) && self.grouped@[g] == id;
                self.grouped.lemma_index_of(g);
            }
        }
        false
    }

    /// Whether the container holds a slot for `tag`: for a grouped tag,
    /// whether its group is occupied at all; for an ungrouped one, whether
    /// the tag itself is present.
    pub fn contains(&self, tag: &Tag) -> (r: bool)
        requires
            self.wf(),
        ensures
            r == match tag.group {
                Some(g) => self.grouped@.dom().contains(g.0),
                None => self.ungrouped@.contains(tag.id.0),
            },
    {
        match tag.group {
            Some(g) => self.grouped.contains_key(g.0),
            None => self.ungrouped.contains(tag.id.0),
        }
    }

    /// Moves the membership of tag `id` from `old_group` to `new_group`,
    /// applying `resolve` when the destination group is already occupied on
    /// this asset.  A container that does not hold `id` under `old_group`
    /// is left unchanged.
    pub fn regroup(
        &mut self,
        old_group: Option<CollectionId>,
        new_group: Option<CollectionId>,
        id: TagId,
        resolve: TagGroupConflictResolve,
    )
        requires
            old(self).wf(),
        ensures
            final(self).wf(),
            regroup_rel(*old(self), *final(self), old_group, new_group, id, resolve),
    {
        match old_group {
            Some(og) => {
                let occupant = self.grouped.get(og.0);
                match occupant {
                    Some(t) => {
                        if *t != id {
                            return;
                        }
                    },
                    None => {
                        return;
                    },
                }
                self.grouped.remove(og.0);
            },
            None => {
                if !self.ungrouped.remove(id.0) {
                    return;
                }
            },
        }
        match new_group {
            Some(ng) => {
                if self.grouped.contains_key(ng.0) {
                    match resolve {
                        TagGroupConflictResolve::Override => self.grouped.insert(ng.0, id),
                        TagGroupConflictResolve::Remove => {},
                    }
                } else {
                    self.grouped.insert(ng.0, id);
                }
            },
            None => {
                self.ungrouped.insert(id.0);
            },
        }
    }

    /// Drops every group slot holding `id`, leaving everything else alone.
    /// Used as defensive hygiene when a freshly drawn tag identifier could
    /// collide with a stale reference left by a hard-deleted tag.
    pub fn drop_grouped_value(&mut self, id: TagId)
        requires
            old(self).wf(),
        ensures
            final(self).wf(),
            final(self).ungrouped == old(self).ungrouped,
            forall|g: u128| #[trigger] final(self).grouped@.dom().contains(g)
                <==> old(self).grouped@.dom().contains(g) && old(self).grouped@[g] != id,
            forall|g: u128| #[trigger] final(self).grouped@.dom().contains(g)
                ==> final(self).grouped@[g] == old(self).grouped@[g],
    {
        let ghost prev = *self;
        let mut stale: Vec<u128> = Vec::new();
        let n = self.grouped.len();
        let mut i: usize = 0;
        while i < n
            invariant
                *self == prev,
                prev.wf(),
                n == prev.grouped.keys_seq().len(),
                i <= n,
                forall|j: int| 0 <= j < stale@.len()
                    ==> prev.grouped@.dom().contains(#[trigger] stale@[j])
                        && prev.grouped@[stale@[j]] == id,
                forall|j: int| 0 <= j < i ==> {
                    let g = #[trigger] prev.grouped.keys_seq()[j];
                    prev.grouped@[g] == id ==> stale@.contains(g)
                },
            decreases n - i,
        {
            let g = self.grouped.key_at(i);
            if *self.grouped.val_at(i) == id {
                let ghost olds = stale@;
                stale.push(g);
                proof {
                    assert forall|x: u128| olds.contains(x)
                        implies #[trigger] stale@.contains(x) by {
                        let k = choose|k: int| 0 <= k < olds.len() && olds[k] == x;
                        assert(stale@[k] == x);
                    }
                    assert(stale@.contains(g)) by {
                        assert(stale@[stale@.len() - 1] == g);
                    }
                }
            }
            i += 1;
        }
        let m = stale.len();
        let mut j: usize = 0;
        while j < m
            invariant
                prev.wf(),
                self.ungrouped == prev.ungrouped,
                self.grouped.wf(),
                m == stale@.len(),
                j <= m,
                forall|k: int| 0 <= k < stale@.len()
                    ==> prev.grouped@.dom().contains(#[trigger] stale@[k])
                        && prev.grouped@[stale@[k]] == id,
                forall|k: int| 0 <= k < n ==> {
                    let g = #[trigger] prev.grouped.keys_seq()[k];
                    prev.grouped@[g] == id ==> stale@.contains(g)
                },
                n == prev.grouped.keys_seq().len(),
                forall|g: u128| #[trigger] self.grouped@.dom().contains(g)
                    <==> prev.grouped@.dom().contains(g)
                        && !stale@.subrange(0, j as int).contains(g),
                forall|g: u128| #[trigger] self.grouped@.dom().contains(g)
                    ==> self.grouped@[g] == prev.grouped@[g],
            decreases m - j,
        {
            let g = stale[j];
            self.grouped.remove(g);
            proof {
                assert forall|g2: u128| #[trigger] self.grouped@.dom().contains(g2)
                    implies prev.grouped@.dom().contains(g2)
                        && !stale@.subrange(0, j + 1).contains(g2) by {
                    if stale@.subrange(0, j + 1).contains(g2) {
                        let k = choose|k: int|
                            0 <= k < j + 1 && #[trigger] stale@.subrange(0, j + 1)[k] == g2;
                        if k < j {
                            assert(stale@.subrange(0, j as int)[k] == g2);
                        }
                    }
                }
                assert forall|g2: u128|
                    prev.grouped@.dom().contains(g2)
                        && !stale@.subrange(0, j + 1).contains(g2)
                    implies #[trigger] self.grouped@.dom().contains(g2) by {
                    assert(g2 != g) by {
                        assert(stale@.subrange(0, j + 1)[j as int] == g);
                    }
                    if stale@.subrange(0, j as int).contains(g2) {
                        let k = choose|k: int|
                            0 <= k < j && #[trigger] stale@.subrange(0, j as int)[k] == g2;
                        assert(stale@.subrange(0, j + 1)[k] == g2);
                    }
                }
            }
            j += 1;
        }
        proof {
            assert forall|g: u128| #[trigger] self.grouped@.dom().contains(g)
                implies prev.grouped@.dom().contains(g) && prev.grouped@[g] != id by {
                assert(!stale@.subrange(0, m as int).contains(g));
                assert(stale@.subrange(0, m as int) =~= stale@);
                if prev.grouped@[g] == id {
                    prev.grouped.lemma_dom();
                    prev.grouped.lemma_index_of(g);
                    let k = prev.grouped.spec_index_of(g);
                    assert(prev.grouped.keys_seq()[k] == g);
                    assert(stale@.contains(g));
                }
            }
            assert forall|g: u128|
                prev.grouped@.dom().contains(g) && prev.grouped@[g] != id
                implies #[trigger] self.grouped@.dom().contains(g) by {
                assert(stale@.subrange(0, m as int) =~= stale@);
                if stale@.contains(g) {
                    let k = choose|k: int| 0 <= k < stale@.len() && stale@[k] == g;
                    assert(prev.grouped@[stale@[k]] == id);
                }
            }
        }
    }

    /// Whether no tag at all is held.
    pub fn is_empty(&self) -> (r: bool)
        requires
            self.wf(),
        ensures
            r == (self.grouped@.dom() =~= Set::<u128>::empty()
                && self.ungrouped@ =~= Set::<u128>::empty()),
    {
        let r = self.grouped.len() == 0 && self.ungrouped.is_empty();
        proof {
            self.grouped.lemma_dom();
            if self.grouped.keys_seq().len() == 0 {
                assert forall|g: u128| !self.grouped@.dom().contains(g) by {
                    if self.grouped@.dom().contains(g) {
                        let j = choose|j: int|
                            0 <= j < self.grouped.keys_seq().len()
                                && self.grouped.keys_seq()[j] == g;
                    }
                }
            } else {
                let g0 = self.grouped.keys_seq()[0];
                assert(self.grouped.keys_seq().contains(g0)) by {
                    assert(self.grouped.keys_seq()[0] == g0);
                }
                assert(self.grouped@.dom().contains(g0));
            }
            self.ungrouped.lemma_elems();
            if self.ungrouped.elems().len() != 0 {
                let e0 = self.ungrouped.elems()[0];
                assert(self.ungrouped.elems().contains(e0)) by {
                    assert(self.ungrouped.elems()[0] == e0);
                }
            }
        }
        r
    }

    /// All held tags as one list: the grouped tags in group order, then the
    /// ungrouped ones in insertion order.
    pub fn to_vec(&self) -> (r: Vec<TagId>)
        requires
            self.wf(),
        ensures
            r@.len() == self.grouped.keys_seq().len() + self.ungrouped.elems().len(),
            forall|i: int| 0 <= i < self.grouped.keys_seq().len()
                ==> r@[i] == self.grouped@[#[trigger] self.grouped.keys_seq()[i]],
            forall|j: int| 0 <= j < self.ungrouped.elems().len()
                ==> r@[self.grouped.keys_seq().len() + j]
                    == TagId(#[trigger] self.ungrouped.elems()[j]),
    {
        let mut r: Vec<TagId> = Vec::new();
        let gn = self.grouped.len();
        let mut i: usize = 0;
        while i < gn
            invariant
                self.wf(),
                gn == self.grouped.keys_seq().len(),
                i <= gn,
                r@.len() == i,
                forall|j: int| 0 <= j < i
                    ==> r@[j] == self.grouped@[#[trigger] self.grouped.keys_seq()[j]],
            decreases gn - i,
        {
            r.push(*self.grouped.val_at(i));
            i += 1;
        }
        let un = self.ungrouped.len();
        let mut j: usize = 0;
        while j < un
            invariant
                self.wf(),
                gn == self.grouped.keys_seq().len(),
                un == self.ungrouped.elems().len(),
                j <= un,
                r@.len() == gn + j,
                forall|p: int| 0 <= p < gn
                    ==> r@[p] == self.grouped@[#[trigger] self.grouped.keys_seq()[p]],
                forall|q: int| 0 <= q < j
                    ==> r@[gn + q] == TagId(#[trigger] self.ungrouped.elems()[q]),
            decreases un - j,
        {
            r.push(TagId(self.ungrouped.at(j)));
            j += 1;
        }
        r
    }
}

} // verus!
