//! The duplicate-detection cache: a bidirectional index between assets and
//! the CRC32 checksum of their content.
//!
//! `asset_crc` maps each indexed asset to its checksum; `crc_lookup` is kept
//! exactly inverse to it, mapping each checksum to the non-empty list of
//! assets sharing it.  The checksum invariant — after `add_asset(crc, id)`
//! the bucket for `crc` holds `id`, and after `remove_asset(id)` it does not
//! and the key is dropped when the bucket empties — is stated in
//! [`StorageCache::cache_wf`] and in the contracts of the two operations.

use vstd::prelude::*;
use crate::ids::AssetId;
use crate::idmap::UMap;

verus! {

/// Groups of assets sharing a checksum, keyed by the checksum value.
pub struct DuplicateAssets(pub UMap<Vec<AssetId>>);

impl DuplicateAssets {
    /// `None` when there are no groups at all, otherwise the groups
    /// themselves.
    pub fn reduce(self) -> (r: Option<DuplicateAssets>)
        ensures
            match r {
                Some(d) => d == self && self.0.keys_seq().len() != 0,
                None => self.0.keys_seq().len() == 0,
            },
    {
        if self.0.len() == 0 {
            None
        } else {
            Some(self)
        }
    }
}

/// Copies a vector of asset identifiers.
pub(crate) fn clone_id_vec(v: &Vec<AssetId>) -> (r: Vec<AssetId>)
    ensures
        r@ == v@,
{
    let mut r: Vec<AssetId> = Vec::new();
    let n = v.len();
    let mut i: usize = 0;
    while i < n
        invariant
            n == v@.len(),
            i <= n,
            r@ == v@.subrange(0, i as int),
        decreases n - i,
    {
        r.push(v[i]);
        proof {
            assert(r@ =~= v@.subrange(0, i + 1 as int));
        }
        i += 1;
    }
    proof {
        assert(r@ =~= v@);
    }
    r
}

/// The duplicate-detection index.
pub struct StorageCache {
    /// Checksum of each indexed asset, keyed by the asset identifier value.
    pub asset_crc: UMap<u32>,
    /// For each checksum value (as a key in `0..=u32::MAX`), the assets
    /// sharing it.
    pub crc_lookup: UMap<Vec<AssetId>>,
}

impl StorageCache {
    /// The bucket of assets recorded for a checksum; empty when the checksum
    /// is not a key.
    pub open spec fn spec_bucket(self, crc: u32) -> Seq<AssetId> {
        if self.crc_lookup@.dom().contains(crc as u128) {
            self.crc_lookup@[crc as u128]@
        } else {
            Seq::<AssetId>::empty()
        }
    }

    /// The checksum invariant.  `crc_lookup` is exactly the inverse multimap
    /// of `asset_crc`: an asset sits in the bucket of a checksum precisely
    /// when `asset_crc` maps it there, no bucket is empty or holds an asset
    /// twice, and every bucket key is a 32-bit value.
    pub open spec fn cache_wf(self) -> bool {
        &&& self.asset_crc.wf()
        &&& self.crc_lookup.wf()
        &&& forall|c: u128| #[trigger] self.crc_lookup@.dom().contains(c)
                ==> c <= u32::MAX as u128
        &&& forall|c: u128| #[trigger] self.crc_lookup@.dom().contains(c)
                ==> self.crc_lookup@[c]@.len() > 0 && self.crc_lookup@[c]@.no_duplicates()
        &&& forall|c: u128, i: int|
                self.crc_lookup@.dom().contains(c)
                    && 0 <= i < self.crc_lookup@[c]@.len()
                ==> {
                    let a = #[trigger] self.crc_lookup@[c]@[i];
                    &&& self.asset_crc@.dom().contains(a.0)
                    &&& self.asset_crc@[a.0] as u128 == c
                }
        &&& forall|a: u128| #[trigger] self.asset_crc@.dom().contains(a)
                ==> {
                    let c = self.asset_crc@[a] as u128;
                    &&& self.crc_lookup@.dom().contains(c)
                    &&& self.crc_lookup@[c]@.contains(AssetId(a))
                }
    }

    /// An empty cache.
    pub fn new() -> (r: StorageCache)
        ensures
            r.cache_wf(),
            r.asset_crc@ == Map::<u128, u32>::empty(),
            r.crc_lookup@ == Map::<u128, Vec<AssetId>>::empty(),
    {
        StorageCache { asset_crc: UMap::new(), crc_lookup: UMap::new() }
    }

    /// Builds the index from a precomputed asset-to-checksum map, as done
    /// after re-hashing every asset file at load time.
    pub fn build(asset_crc: &UMap<u32>) -> (r: StorageCache)
        requires
            asset_crc.wf(),
        ensures
            r.cache_wf(),
            r.asset_crc@ == asset_crc@,
    {
        let mut r = StorageCache::new();
        let n = asset_crc.len();
        let mut i: usize = 0;
        while i < n
            invariant
                asset_crc.wf(),
                n == asset_crc.keys_seq().len(),
                i <= n,
                r.cache_wf(),
                forall|j: int| 0 <= j < i
                    ==> r.asset_crc@.dom().contains(#[trigger] asset_crc.keys_seq()[j])
                        && r.asset_crc@[asset_crc.keys_seq()[j]]
                            == asset_crc@[asset_crc.keys_seq()[j]],
                forall|a: u128| #[trigger] r.asset_crc@.dom().contains(a)
                    ==> asset_crc.keys_seq().subrange(0, i as int).contains(a),
            decreases n - i,
        {
            let a = asset_crc.key_at(i);
            let c = *asset_crc.val_at(i);
            r.add_asset(c, AssetId(a));
            proof {
                assert(asset_crc.keys_seq().subrange(0, i + 1 as int).contains(a)) by {
                    assert(asset_crc.keys_seq().subrange(0, i + 1 as int)[i as int] == a);
                }
                assert forall|a2: u128| #[trigger] r.asset_crc@.dom().contains(a2)
                    implies asset_crc.keys_seq().subrange(0, i + 1 as int).contains(a2) by {
                    if a2 != a {
                        let sub = asset_crc.keys_seq().subrange(0, i as int);
                        assert(sub.contains(a2));
                        let j = choose|j: int| 0 <= j < sub.len() && sub[j] == a2;
                        assert(asset_crc.keys_seq().subrange(0, i + 1 as int)[j] == a2);
                    }
                }
            }
            i += 1;
        }
        proof {
            asset_crc.lemma_dom();
            assert forall|a: u128| asset_crc@.dom().contains(a)
                implies #[trigger] r.asset_crc@.dom().contains(a)
                    && r.asset_crc@[a] == asset_crc@[a] by {
                asset_crc.lemma_index_of(a);
            }
            assert forall|a: u128| #[trigger] r.asset_crc@.dom().contains(a)
                implies asset_crc@.dom().contains(a) by {
                assert(asset_crc.keys_seq().subrange(0, n as int) == asset_crc.keys_seq());
            }
            assert(r.asset_crc@ =~= asset_crc@);
        }
        r
    }

    /// Records `asset` as having checksum `crc`, replacing any previous
    /// checksum recorded for it.  Returns the *other* members that already
    /// shared `crc` before this insert — the signal that the addition is a
    /// duplicate of them — or `None` when there were none.
    pub fn add_asset(&mut self, crc: u32, asset: AssetId) -> (r: Option<DuplicateAssets>)
        requires
            old(self).cache_wf(),
        ensures
            final(self).cache_wf(),
            final(self).asset_crc@ == old(self).asset_crc@.insert(asset.0, crc),
            final(self).spec_bucket(crc) == old(self).spec_bucket(crc).remove_value(asset).push(asset),
            forall|c2: u32| c2 != crc
                ==> final(self).spec_bucket(c2) == old(self).spec_bucket(c2).remove_value(asset),
            match r {
                Some(d) => {
                    &&& old(self).spec_bucket(crc).remove_value(asset).len() > 0
                    &&& d.0.wf()
                    &&& d.0.keys_seq() =~= seq![crc as u128]
                    &&& d.0@.dom().contains(crc as u128)
                    &&& d.0@[crc as u128]@ == old(self).spec_bucket(crc).remove_value(asset)
                },
                None => old(self).spec_bucket(crc).remove_value(asset).len() == 0,
            },
    {
        self.remove_asset(asset);
        let ghost mid = *self;
        self.asset_crc.insert(asset.0, crc);
        let existing = match self.crc_lookup.get(crc as u128) {
            Some(b) => {
                // the sharers before this insert are the report
                let report = clone_id_vec(b);
                let mut b2 = clone_id_vec(b);
                b2.push(asset);
                Some((b2, report))
            },
            None => None,
        };
        let r = match existing {
            Some((b2, report)) => {
                self.crc_lookup.insert(crc as u128, b2);
                let mut groups: UMap<Vec<AssetId>> = UMap::new();
                groups.insert(crc as u128, report);
                Some(DuplicateAssets(groups))
            },
            None => {
                let mut b: Vec<AssetId> = Vec::new();
                b.push(asset);
                self.crc_lookup.insert(crc as u128, b);
                None
            },
        };
        proof {
            let prev = *old(self);
            // The intermediate state lacks `asset` entirely.
            assert(!mid.asset_crc@.dom().contains(asset.0));
            assert forall|c2: u128| #[trigger] mid.crc_lookup@.dom().contains(c2)
                implies !mid.crc_lookup@[c2]@.contains(asset) by {
                if mid.crc_lookup@[c2]@.contains(asset) {
                    let i = choose|i: int|
                        0 <= i < mid.crc_lookup@[c2]@.len() && mid.crc_lookup@[c2]@[i] == asset;
                    assert(mid.asset_crc@.dom().contains(asset.0));
                }
            }
            let newb = self.crc_lookup@[crc as u128]@;
            let oldb = mid.spec_bucket(crc);
            assert(newb =~= oldb.push(asset));
            assert(newb.no_duplicates()) by {
                if mid.crc_lookup@.dom().contains(crc as u128) {
                    assert(!oldb.contains(asset));
                    assert forall|p: int, q: int| 0 <= p < q < newb.len()
                        implies newb[p] != newb[q] by {
                        if q == newb.len() - 1 {
                            assert(newb[p] == oldb[p]);
                            assert(oldb.contains(oldb[p])) by {
                                assert(oldb[p] == oldb[p]);
                            }
                        }
                    }
                } else {
                    assert(newb.len() == 1);
                }
            }
            assert(final(self).cache_wf()) by {
                assert forall|c2: u128, i: int|
                    self.crc_lookup@.dom().contains(c2)
                        && 0 <= i < self.crc_lookup@[c2]@.len()
                    implies {
                        let a = #[trigger] self.crc_lookup@[c2]@[i];
                        self.asset_crc@.dom().contains(a.0)
                            && self.asset_crc@[a.0] as u128 == c2
                    } by {
                    let a = self.crc_lookup@[c2]@[i];
                    if c2 == crc as u128 {
                        if i < newb.len() - 1 {
                            assert(a == oldb[i]);
                            assert(mid.crc_lookup@[c2]@.contains(a)) by {
                                assert(mid.crc_lookup@[c2]@[i] == a);
                            }
                            assert(a != asset);
                        }
                    } else {
                        assert(mid.crc_lookup@[c2]@[i] == a);
                        assert(a != asset);
                    }
                }
                assert forall|a: u128| #[trigger] self.asset_crc@.dom().contains(a)
                    implies {
                        let c2 = self.asset_crc@[a] as u128;
                        self.crc_lookup@.dom().contains(c2)
                            && self.crc_lookup@[c2]@.contains(AssetId(a))
                    } by {
                    if a == asset.0 {
                        assert(newb[newb.len() - 1] == asset);
                    } else {
                        let c2 = mid.asset_crc@[a] as u128;
                        assert(mid.crc_lookup@[c2]@.contains(AssetId(a)));
                        if c2 == crc as u128 {
                            let i = choose|i: int|
                                0 <= i < oldb.len() && oldb[i] == AssetId(a);
                            assert(newb[i] == AssetId(a));
                            assert(newb.contains(AssetId(a)));
                        }
                    }
                }
            }
            // Buckets of other checksums are untouched from the intermediate
            // state, which is the old state with `asset` removed.
            assert forall|c2: u32| c2 != crc
                implies final(self).spec_bucket(c2) == prev.spec_bucket(c2).remove_value(asset) by {
                assert(final(self).spec_bucket(c2) == mid.spec_bucket(c2));
            }
            assert(final(self).spec_bucket(crc) == prev.spec_bucket(crc).remove_value(asset).push(asset));
        }
        r
    }

    /// Forgets `asset`.  Its bucket loses it, and when that leaves the bucket
    /// empty the checksum key is dropped entirely; an asset that was never
    /// indexed leaves the cache unchanged.
    pub fn remove_asset(&mut self, asset: AssetId)
        requires
            old(self).cache_wf(),
        ensures
            final(self).cache_wf(),
            final(self).asset_crc@ == old(self).asset_crc@.remove(asset.0),
            forall|c: u32| #[trigger] final(self).spec_bucket(c)
                == old(self).spec_bucket(c).remove_value(asset),
            forall|c: u128| final(self).crc_lookup@.dom().contains(c)
                ==> old(self).crc_lookup@.dom().contains(c),
    {
        let ghost prev = *self;
        let crc_opt = self.asset_crc.remove(asset.0);
        match crc_opt {
            Some(crc) => {
                let b = self.crc_lookup.get(crc as u128).unwrap();
                let mut b2 = clone_id_vec(b);
                let ghost oldb = b2@;
                // Drop the one occurrence of `asset` from the bucket.
                let n = b2.len();
                let mut i: usize = 0;
                let mut found = false;
                while i < n && !found
                    invariant
                        n == oldb.len(),
                        i <= n,
                        !found ==> b2@ == oldb && (forall|j: int| 0 <= j < i ==> oldb[j] != asset),
                        found ==> i >= 1 && i <= n && oldb[i - 1] == asset
                            && b2@ == oldb.remove(i - 1),
                    decreases n - i,
                {
                    if b2[i] == asset {
                        b2.remove(i);
                        found = true;
                    }
                    i += 1;
                }
                proof {
                    assert(prev.crc_lookup@[crc as u128]@.contains(asset));
                    assert(found) by {
                        if !found {
                            let j = choose|j: int| 0 <= j < oldb.len() && oldb[j] == asset;
                            assert(oldb[j] != asset);
                        }
                    }
                    // The removed position is the first occurrence.
                    oldb.index_of_first_ensures(asset);
                    let fi = oldb.index_of_first(asset)->Some_0;
                    assert(oldb[i - 1] == asset);
                    assert(fi == i - 1) by {
                        if fi < i - 1 {
                            assert(oldb[fi] != asset);
                        }
                    }
                    assert(b2@ == oldb.remove_value(asset));
                }
                if b2.len() == 0 {
                    self.crc_lookup.remove(crc as u128);
                } else {
                    self.crc_lookup.insert(crc as u128, b2);
                }
                proof {
                    let newmap = self.crc_lookup@;
                    let c0 = crc as u128;
                    oldb.remove_ensures(i - 1);
                    assert(oldb.remove(i - 1).no_duplicates()) by {
                        assert forall|p: int, q: int| 0 <= p < q < oldb.remove(i - 1).len()
                            implies #[trigger] oldb.remove(i - 1)[p] != #[trigger] oldb.remove(i - 1)[q] by {
                            let p0: int = if p < i - 1 { p } else { p + 1 };
                            let q0: int = if q < i - 1 { q } else { q + 1 };
                            assert(oldb.remove(i - 1)[p] == oldb[p0]);
                            assert(oldb.remove(i - 1)[q] == oldb[q0]);
                        }
                    }
                    assert forall|c2: u128| #[trigger] newmap.dom().contains(c2)
                        implies newmap[c2]@.len() > 0 && newmap[c2]@.no_duplicates()
                            && c2 <= u32::MAX as u128 by {
                        if c2 != c0 {
                            assert(newmap[c2] == prev.crc_lookup@[c2]);
                        }
                    }
                    assert forall|c2: u128, j: int|
                        newmap.dom().contains(c2) && 0 <= j < newmap[c2]@.len()
                        implies {
                            let a = #[trigger] newmap[c2]@[j];
                            self.asset_crc@.dom().contains(a.0)
                                && self.asset_crc@[a.0] as u128 == c2
                        } by {
                        let a = newmap[c2]@[j];
                        if c2 == c0 {
                            let j0: int = if j < i - 1 { j } else { j + 1 };
                            assert(a == oldb[j0]);
                            assert(prev.crc_lookup@[c2]@.contains(a)) by {
                                assert(prev.crc_lookup@[c2]@[j0] == a);
                            }
                            assert(a != asset) by {
                                if a == asset {
                                    assert(oldb[i - 1] == asset);
                                    assert(!oldb.no_duplicates());
                                }
                            }
                        } else {
                            assert(prev.crc_lookup@[c2]@[j] == a);
                            assert(prev.crc_lookup@[c2]@.contains(a)) by {
                                assert(prev.crc_lookup@[c2]@[j] == a);
                            }
                            assert(a != asset) by {
                                if a == asset {
                                    assert(prev.asset_crc@[a.0] as u128 == c2);
                                    assert(prev.asset_crc@[asset.0] as u128 == c0);
                                }
                            }
                        }
                    }
                    assert forall|a: u128| #[trigger] self.asset_crc@.dom().contains(a)
                        implies {
                            let c2 = self.asset_crc@[a] as u128;
                            newmap.dom().contains(c2) && newmap[c2]@.contains(AssetId(a))
                        } by {
                        let c2 = self.asset_crc@[a] as u128;
                        assert(a != asset.0);
                        assert(prev.crc_lookup@[c2]@.contains(AssetId(a)));
                        if c2 == c0 {
                            let j0 = choose|j0: int|
                                0 <= j0 < oldb.len() && oldb[j0] == AssetId(a);
                            assert(j0 != i - 1);
                            let j: int = if j0 < i - 1 { j0 } else { j0 - 1 };
                            assert(newmap.dom().contains(c2)) by {
                                assert(oldb.remove(i - 1).len() > 0);
                            }
                            assert(newmap[c2]@[j] == AssetId(a));
                            assert(newmap[c2]@.contains(AssetId(a)));
                        }
                    }
                    assert(final(self).cache_wf());
                    assert forall|c2: u32| true
                        implies #[trigger] final(self).spec_bucket(c2)
                            == prev.spec_bucket(c2).remove_value(asset) by {
                        if c2 as u128 == c0 {
                            if oldb.remove(i - 1).len() == 0 {
                                assert(oldb.len() == 1);
                                assert(final(self).spec_bucket(c2) =~= Seq::<AssetId>::empty());
                            }
                        } else {
                            assert(final(self).spec_bucket(c2) == prev.spec_bucket(c2));
                            assert(!prev.spec_bucket(c2).contains(asset)) by {
                                if prev.spec_bucket(c2).contains(asset) {
                                    assert(prev.crc_lookup@.dom().contains(c2 as u128));
                                    let j = choose|j: int|
                                        0 <= j < prev.crc_lookup@[c2 as u128]@.len()
                                            && #[trigger] prev.crc_lookup@[c2 as u128]@[j] == asset;
                                    assert(prev.asset_crc@[asset.0] as u128 == c2 as u128);
                                }
                            }
                            prev.spec_bucket(c2).index_of_first_ensures(asset);
                        }
                    }
                }
            },
            None => {
                proof {
                    assert(self.asset_crc@ =~= prev.asset_crc@.remove(asset.0));
                    assert forall|c2: u32| true
                        implies #[trigger] final(self).spec_bucket(c2)
                            == prev.spec_bucket(c2).remove_value(asset) by {
                        assert(!prev.spec_bucket(c2).contains(asset)) by {
                            if prev.spec_bucket(c2).contains(asset) {
                                assert(prev.crc_lookup@.dom().contains(c2 as u128));
                                assert(prev.asset_crc@.dom().contains(asset.0));
                            }
                        }
                        prev.spec_bucket(c2).index_of_first_ensures(asset);
                    }
                }
            },
        }
    }

    /// All checksums currently shared by more than one asset, each with its
    /// full group — the complete duplicate report.
    pub fn get_all_duplication(&self) -> (r: UMap<Vec<AssetId>>)
        requires
            self.cache_wf(),
        ensures
            r.wf(),
            forall|c: u128| #[trigger] r@.dom().contains(c)
                <==> self.crc_lookup@.dom().contains(c) && self.crc_lookup@[c]@.len() > 1,
            forall|c: u128| #[trigger] r@.dom().contains(c) ==> r@[c]@ == self.crc_lookup@[c]@,
    {
        let mut r: UMap<Vec<AssetId>> = UMap::new();
        let n = self.crc_lookup.len();
        let mut i: usize = 0;
        while i < n
            invariant
                self.cache_wf(),
                n == self.crc_lookup.keys_seq().len(),
                i <= n,
                r.wf(),
                forall|c: u128| #[trigger] r@.dom().contains(c)
                    ==> self.crc_lookup@.dom().contains(c)
                        && self.crc_lookup@[c]@.len() > 1
                        && r@[c]@ == self.crc_lookup@[c]@,
                forall|j: int| 0 <= j < i ==> {
                    let c = #[trigger] self.crc_lookup.keys_seq()[j];
                    self.crc_lookup@[c]@.len() > 1 ==> r@.dom().contains(c)
                },
            decreases n - i,
        {
            let c = self.crc_lookup.key_at(i);
            let b = self.crc_lookup.val_at(i);
            if b.len() > 1 {
                r.insert(c, clone_id_vec(b));
            }
            i += 1;
        }
        proof {
            self.crc_lookup.lemma_dom();
            assert forall|c: u128|
                self.crc_lookup@.dom().contains(c) && self.crc_lookup@[c]@.len() > 1
                implies #[trigger] r@.dom().contains(c) by {
                self.crc_lookup.lemma_index_of(c);
            }
        }
        r
    }

    /// The groups for the given checksums that currently have more than one
    /// member — the duplicates introduced by a specific batch, leaving any
    /// unrelated pre-existing groups out.
    pub fn get_duplications(&self, crcs: &Vec<u32>) -> (r: UMap<Vec<AssetId>>)
        requires
            self.cache_wf(),
        ensures
            r.wf(),
            forall|c: u128| #[trigger] r@.dom().contains(c)
                <==> crcs@.contains((c as u32)) && c <= u32::MAX as u128
                    && self.crc_lookup@.dom().contains(c) && self.crc_lookup@[c]@.len() > 1,
            forall|c: u128| #[trigger] r@.dom().contains(c) ==> r@[c]@ == self.crc_lookup@[c]@,
    {
        let mut r: UMap<Vec<AssetId>> = UMap::new();
        let n = crcs.len();
        let mut i: usize = 0;
        while i < n
            invariant
                self.cache_wf(),
                n == crcs@.len(),
                i <= n,
                r.wf(),
                forall|c: u128| #[trigger] r@.dom().contains(c)
                    ==> crcs@.contains((c as u32)) && c <= u32::MAX as u128
                        && self.crc_lookup@.dom().contains(c)
                        && self.crc_lookup@[c]@.len() > 1
                        && r@[c]@ == self.crc_lookup@[c]@,
                forall|j: int| 0 <= j < i ==> {
                    let c = #[trigger] crcs@[j];
                    (self.crc_lookup@.dom().contains(c as u128)
                        && self.crc_lookup@[c as u128]@.len() > 1)
                        ==> r@.dom().contains(c as u128)
                },
            decreases n - i,
        {
            let c = crcs[i];
            match self.crc_lookup.get(c as u128) {
                Some(b) => {
                    if b.len() > 1 {
                        r.insert(c as u128, clone_id_vec(b));
                        proof {
                            assert(crcs@.contains(c)) by {
                                assert(crcs@[i as int] == c);
                            }
                        }
                    }
                },
                None => {},
            }
            i += 1;
        }
        proof {
            assert forall|c: u128|
                crcs@.contains((c as u32)) && c <= u32::MAX as u128
                    && self.crc_lookup@.dom().contains(c) && self.crc_lookup@[c]@.len() > 1
                implies #[trigger] r@.dom().contains(c) by {
                let j = choose|j: int| 0 <= j < crcs@.len() && crcs@[j] == (c as u32);
                assert(crcs@[j] as u128 == c);
            }
        }
        r
    }
}

/// Duplicate groups are faithful: in a well-formed cache, two distinct
/// assets recorded with the same checksum always appear together in that
/// checksum's bucket, which therefore has at least two members — so the
/// duplicate report surfaces them as one group.
pub proof fn lemma_duplicate_group(cache: StorageCache, a1: u128, a2: u128, crc: u32)
    requires
        cache.cache_wf(),
        a1 != a2,
        cache.asset_crc@.dom().contains(a1),
        cache.asset_crc@.dom().contains(a2),
        cache.asset_crc@[a1] == crc,
        cache.asset_crc@[a2] == crc,
    ensures
        cache.crc_lookup@.dom().contains(crc as u128),
        cache.crc_lookup@[crc as u128]@.contains(AssetId(a1)),
        cache.crc_lookup@[crc as u128]@.contains(AssetId(a2)),
        cache.crc_lookup@[crc as u128]@.len() > 1,
{
    let b = cache.crc_lookup@[crc as u128]@;
    assert(b.contains(AssetId(a1)) && b.contains(AssetId(a2)));
    let i = choose|i: int| 0 <= i < b.len() && b[i] == AssetId(a1);
    let j = choose|j: int| 0 <= j < b.len() && b[j] == AssetId(a2);
    assert(i != j);
}

} // verus!
