//! Small verified association containers keyed by 128-bit identifier values.
//!
//! [`UMap`] is a finite map and [`USet`] a finite set, both backed by vectors
//! with unique keys.  They abstract to `Map<u128, V>` and `Set<u128>`, and in
//! addition expose their key order as a sequence, so that code iterating over
//! them is deterministic and can be specified exactly.

use vstd::prelude::*;

verus! {

/// A finite map from 128-bit identifier values to `V`.  Iteration order is
/// insertion order.
pub struct UMap<V> {
    keys: Vec<u128>,
    vals: Vec<V>,
}

impl<V> View for UMap<V> {
    type V = Map<u128, V>;

    closed spec fn view(&self) -> Map<u128, V> {
        Map::new(
            |k: u128| self.keys@.contains(k),
            |k: u128| self.vals@[self.keys@.index_of(k)],
        )
    }
}

impl<V> UMap<V> {
    /// Well-formedness: the two backing vectors run in parallel and no key
    /// occurs twice.  Constructors establish it and every operation keeps it.
    pub closed spec fn wf(self) -> bool {
        &&& self.keys@.len() == self.vals@.len()
        &&& self.keys@.no_duplicates()
    }

    /// The keys in iteration order.
    pub closed spec fn keys_seq(self) -> Seq<u128> {
        self.keys@
    }

    /// The position of a key in the iteration order.
    pub closed spec fn spec_index_of(self, k: u128) -> int {
        self.keys@.index_of(k)
    }

    /// The domain of the abstract map is exactly the set of keys in the key
    /// sequence.
    pub proof fn lemma_dom(self)
        ensures
            forall|k: u128| #[trigger] self@.dom().contains(k) <==> self.keys_seq().contains(k),
            forall|k: u128| #[trigger] self.keys_seq().contains(k) ==> self@.dom().contains(k),
    {
    }

    /// The domain is finite, with one element per key.
    pub proof fn lemma_dom_card(self)
        requires
            self.wf(),
        ensures
            self@.dom().finite(),
            self@.dom().len() == self.keys_seq().len(),
    {
        self.keys@.unique_seq_to_set();
        assert(self@.dom() =~= self.keys@.to_set());
    }

    /// A contained key sits at a unique valid position.
    pub proof fn lemma_index_of(self, k: u128)
        requires
            self.keys_seq().contains(k),
        ensures
            0 <= self.spec_index_of(k) < self.keys_seq().len(),
            self.keys_seq()[self.spec_index_of(k)] == k,
    {
        let i = choose|i: int| 0 <= i < self.keys@.len() && self.keys@[i] == k;
        assert(self.keys@[i] == k);
    }

    /// Positions map injectively to keys, so each position is recovered by
    /// `spec_index_of` from its key.
    proof fn lemma_pos_of_key(self, i: int)
        requires
            self.wf(),
            0 <= i < self.keys@.len(),
        ensures
            self.spec_index_of(self.keys@[i]) == i,
    {
        let k = self.keys@[i];
        assert(self.keys@.contains(k)) by {
            assert(self.keys@[i] == k);
        }
        self.lemma_index_of(k);
        let j = self.spec_index_of(k);
        if i != j {
            assert(false);
        }
    }

    /// The value stored at position `i` is the abstract map's value for the
    /// key at position `i`.
    pub proof fn lemma_val_at(self, i: int)
        requires
            self.wf(),
            0 <= i < self.keys_seq().len(),
        ensures
            self@.dom().contains(self.keys_seq()[i]),
            self@[self.keys_seq()[i]] == self.spec_val_at(i),
    {
        self.lemma_pos_of_key(i);
        assert(self.keys@.contains(self.keys@[i])) by {
            assert(self.keys@[i] == self.keys@[i]);
        }
    }

    /// The value at a position of the iteration order.
    pub closed spec fn spec_val_at(self, i: int) -> V {
        self.vals@[i]
    }

    /// The backing value sequence (internal).
    pub(crate) closed spec fn vals_internal(self) -> Seq<V> {
        self.vals@
    }

    /// An empty map.
    pub fn new() -> (r: Self)
        ensures
            r.wf(),
            r@ == Map::<u128, V>::empty(),
            r.keys_seq() == Seq::<u128>::empty(),
    {
        let r = UMap { keys: Vec::new(), vals: Vec::new() };
        proof {
            assert(r@ =~= Map::<u128, V>::empty());
        }
        r
    }

    /// The number of entries.
    pub fn len(&self) -> (n: usize)
        ensures
            n == self.keys_seq().len(),
    {
        self.keys.len()
    }

    /// The position of `k`, if it is present.
    fn index_of(&self, k: u128) -> (r: Option<usize>)
        ensures
            match r {
                Some(i) => {
                    &&& i < self.keys_seq().len()
                    &&& self.keys_seq()[i as int] == k
                    &&& self@.dom().contains(k)
                },
                None => !self@.dom().contains(k),
            },
    {
        let n = self.keys.len();
        let mut i: usize = 0;
        while i < n
            invariant
                n == self.keys@.len(),
                i <= n,
                forall|j: int| 0 <= j < i ==> self.keys@[j] != k,
            decreases n - i,
        {
            if self.keys[i] == k {
                proof {
                    assert(self.keys@.contains(k)) by {
                        assert(self.keys@[i as int] == k);
                    }
                }
                return Some(i);
            }
            i += 1;
        }
        proof {
            assert(!self.keys@.contains(k));
        }
        None
    }

    /// Whether `k` is present.
    pub fn contains_key(&self, k: u128) -> (r: bool)
        ensures
            r == self@.dom().contains(k),
    {
        self.index_of(k).is_some()
    }

    /// The value for `k`, if present.
    pub fn get(&self, k: u128) -> (r: Option<&V>)
        requires
            self.wf(),
        ensures
            match r {
                Some(v) => self@.dom().contains(k) && *v == self@[k],
                None => !self@.dom().contains(k),
            },
    {
        match self.index_of(k) {
            Some(i) => {
                proof {
                    self.lemma_pos_of_key(i as int);
                }
                Some(&self.vals[i])
            },
            None => None,
        }
    }

    /// The key at position `i` of the iteration order.
    pub fn key_at(&self, i: usize) -> (k: u128)
        requires
            self.wf(),
            i < self.keys_seq().len(),
        ensures
            k == self.keys_seq()[i as int],
            self@.dom().contains(k),
            self@[k] == self.spec_val_at(i as int),
    {
        proof {
            self.lemma_val_at(i as int);
        }
        self.keys[i]
    }

    /// The value at position `i` of the iteration order.
    pub fn val_at(&self, i: usize) -> (v: &V)
        requires
            self.wf(),
            i < self.keys_seq().len(),
        ensures
            *v == self.spec_val_at(i as int),
            self@.dom().contains(self.keys_seq()[i as int]),
            *v == self@[self.keys_seq()[i as int]],
    {
        proof {
            self.lemma_val_at(i as int);
        }
        &self.vals[i]
    }

    /// The position of `k` in the iteration order, if it is present.
    pub fn position_of(&self, k: u128) -> (r: Option<usize>)
        ensures
            match r {
                Some(i) => {
                    &&& i < self.keys_seq().len()
                    &&& self.keys_seq()[i as int] == k
                    &&& self@.dom().contains(k)
                },
                None => !self@.dom().contains(k),
            },
    {
        self.index_of(k)
    }

    /// Mutable access to the value at position `i`; the keys and their order
    /// are untouched, and the map afterwards holds whatever the caller left
    /// in the reference.
    pub fn val_at_mut(&mut self, i: usize) -> (r: &mut V)
        requires
            old(self).wf(),
            i < old(self).keys_seq().len(),
        ensures
            final(self).wf(),
            *r == old(self).spec_val_at(i as int),
            *r == old(self)@[old(self).keys_seq()[i as int]],
            old(self)@.dom().contains(old(self).keys_seq()[i as int]),
            final(self).keys_seq() == old(self).keys_seq(),
            final(self)@ == old(self)@.insert(old(self).keys_seq()[i as int], *final(r)),
            forall|j: int| 0 <= j < old(self).keys_seq().len() && j != i
                ==> final(self).spec_val_at(j) == old(self).spec_val_at(j),
            final(self).spec_val_at(i as int) == *final(r),
    {
        proof {
            self.lemma_val_at(i as int);
            let prev = *self;
            assert forall|m1: UMap<V>, v: V|
                m1.keys@ == prev.keys@ && m1.vals@ == prev.vals@.update(i as int, v)
                implies #[trigger] lifted_update(prev, m1, i as int, v) by {
                lemma_view_after_update(prev, m1, i as int, v);
            }
        }
        &mut self.vals[i]
    }

    /// Inserts or overwrites the value for `k`.  A fresh key goes to the end
    /// of the iteration order; an existing key keeps its position.
    pub fn insert(&mut self, k: u128, v: V)
        requires
            old(self).wf(),
        ensures
            final(self).wf(),
            final(self)@ == old(self)@.insert(k, v),
            old(self)@.dom().contains(k) ==> final(self).keys_seq() == old(self).keys_seq(),
            !old(self)@.dom().contains(k) ==> final(self).keys_seq() == old(self).keys_seq().push(k),
    {
        let ghost prev = *self;
        match self.index_of(k) {
            Some(i) => {
                self.vals[i] = v;
                proof {
                    prev.lemma_pos_of_key(i as int);
                    assert forall|k2: u128| #[trigger] self.keys@.contains(k2)
                        implies self@[k2] == prev@.insert(k, v)[k2] by {
                        prev.lemma_index_of(k2);
                        let j = prev.spec_index_of(k2);
                        assert(self.spec_index_of(k2) == j);
                        if k2 == k {
                            assert(j == i);
                        } else {
                            assert(j != i);
                        }
                    }
                    assert(self@ =~= prev@.insert(k, v));
                }
            },
            None => {
                self.keys.push(k);
                self.vals.push(v);
                proof {
                    let n = prev.keys@.len() as int;
                    assert forall|k2: u128| #[trigger] self.keys@.contains(k2)
                        implies prev@.insert(k, v).dom().contains(k2) && self@[k2] == prev@.insert(k, v)[k2] by {
                        let j = choose|j: int| 0 <= j < self.keys@.len() && self.keys@[j] == k2;
                        if k2 == k {
                            assert(self.keys@[n] == k);
                            self.lemma_pos_of_key(n);
                        } else {
                            assert(j < n);
                            assert(prev.keys@[j] == k2);
                            assert(prev.keys@.contains(k2));
                            prev.lemma_index_of(k2);
                            let jp = prev.spec_index_of(k2);
                            assert(self.keys@[jp] == k2);
                            self.lemma_pos_of_key(jp);
                        }
                    }
                    assert forall|k2: u128| prev@.insert(k, v).dom().contains(k2)
                        implies #[trigger] self.keys@.contains(k2) by {
                        if k2 == k {
                            assert(self.keys@[n] == k2);
                        } else {
                            prev.lemma_index_of(k2);
                            assert(self.keys@[prev.spec_index_of(k2)] == k2);
                        }
                    }
                    assert(self@ =~= prev@.insert(k, v));
                    assert(self.keys@ =~= prev.keys@.push(k));
                }
            },
        }
    }

    /// Removes `k`, returning its value if it was present.  The iteration
    /// order of the remaining keys is unchanged.
    pub fn remove(&mut self, k: u128) -> (r: Option<V>)
        requires
            old(self).wf(),
        ensures
            final(self).wf(),
            final(self)@ == old(self)@.remove(k),
            match r {
                Some(v) => old(self)@.dom().contains(k) && v == old(self)@[k],
                None => !old(self)@.dom().contains(k) && *final(self) == *old(self),
            },
            final(self).keys_seq() == old(self).keys_seq().remove_value(k),
    {
        let ghost prev = *self;
        match self.index_of(k) {
            Some(i) => {
                let v = self.vals.remove(i);
                self.keys.remove(i);
                proof {
                    prev.lemma_pos_of_key(i as int);
                    let n = prev.keys@.len() as int;
                    assert(self.keys@ =~= prev.keys@.remove(i as int));
                    assert(self.vals@ =~= prev.vals@.remove(i as int));
                    prev.keys@.remove_ensures(i as int);
                    assert forall|p: int, q: int| 0 <= p < q < self.keys@.len()
                        implies self.keys@[p] != self.keys@[q] by {
                        let p0: int = if p < i { p } else { p + 1 };
                        let q0: int = if q < i { q } else { q + 1 };
                        assert(prev.keys@.remove(i as int)[p] == prev.keys@[p0]);
                        assert(prev.keys@.remove(i as int)[q] == prev.keys@[q0]);
                    }
                    assert(self.keys@.no_duplicates());
                    assert forall|k2: u128| #[trigger] self.keys@.contains(k2)
                        implies k2 != k && prev.keys@.contains(k2) && self@[k2] == prev@[k2] by {
                        let j = choose|j: int| 0 <= j < self.keys@.len() && self.keys@[j] == k2;
                        let jp: int = if j < i { j } else { j + 1 };
                        assert(prev.keys@[jp] == k2);
                        assert(prev.keys@.contains(k2));
                        if k2 == k {
                            prev.lemma_pos_of_key(jp);
                        }
                        assert(k2 != k);
                        self.lemma_pos_of_key(j);
                        prev.lemma_pos_of_key(jp);
                        assert(self.vals@[j] == prev.vals@[jp]);
                    }
                    assert forall|k2: u128| prev.keys@.contains(k2) && k2 != k
                        implies #[trigger] self.keys@.contains(k2) by {
                        prev.lemma_index_of(k2);
                        let jp = prev.spec_index_of(k2);
                        let j: int = if jp < i { jp } else { jp - 1 };
                        assert(self.keys@[j] == k2);
                    }
                    assert(self@ =~= prev@.remove(k));
                    assert(prev.keys@.index_of_first(k) == Some(i as int)) by {
                        prev.keys@.index_of_first_ensures(k);
                        let fi = prev.keys@.index_of_first(k)->Some_0;
                        prev.lemma_pos_of_key(fi);
                    }
                }
                Some(v)
            },
            None => {
                proof {
                    assert(self@ =~= prev@.remove(k));
                    assert(!prev.keys@.contains(k));
                    prev.keys@.index_of_first_ensures(k);
                }
                None
            },
        }
    }
}


/// The relation "m1 is m0 with the value at position i replaced by v, and
/// abstracts accordingly".
pub open spec fn lifted_update<V>(m0: UMap<V>, m1: UMap<V>, i: int, v: V) -> bool {
    m1.wf() && m1@ == m0@.insert(m0.keys_seq()[i], v)
        && (forall|j: int| 0 <= j < m0.keys_seq().len() && j != i
                ==> m1.spec_val_at(j) == m0.spec_val_at(j))
        && m1.spec_val_at(i) == v
}

/// Replacing one value in the backing vector abstracts to a map insert at
/// that position's key.
proof fn lemma_view_after_update<V>(m0: UMap<V>, m1: UMap<V>, i: int, v: V)
    requires
        m0.wf(),
        0 <= i < m0.keys_seq().len(),
        m1.keys_seq() == m0.keys_seq(),
        m1.vals_internal() == m0.vals_internal().update(i, v),
    ensures
        lifted_update(m0, m1, i, v),
{
    let k = m0.keys_seq()[i];
    assert forall|k2: u128| #[trigger] m1.keys_seq().contains(k2)
        implies m1@[k2] == m0@.insert(k, v)[k2] by {
        m0.lemma_index_of(k2);
        let j = m0.spec_index_of(k2);
        m0.lemma_pos_of_key(j);
        if k2 == k {
            assert(j == i);
        } else {
            assert(j != i);
        }
    }
    assert(m1@ =~= m0@.insert(k, v));
}

/// A finite set of 128-bit identifier values.  Iteration order is insertion
/// order.
pub struct USet {
    items: Vec<u128>,
}

impl View for USet {
    type V = Set<u128>;

    closed spec fn view(&self) -> Set<u128> {
        self.items@.to_set()
    }
}

impl USet {
    /// Well-formedness: no element occurs twice in the backing vector.
    pub closed spec fn wf(self) -> bool {
        self.items@.no_duplicates()
    }

    /// The elements in iteration order.
    pub closed spec fn elems(self) -> Seq<u128> {
        self.items@
    }

    /// The abstract set contains exactly the elements of the sequence.
    pub proof fn lemma_elems(self)
        ensures
            forall|k: u128| #[trigger] self@.contains(k) <==> self.elems().contains(k),
            forall|k: u128| #[trigger] self.elems().contains(k) ==> self@.contains(k),
    {
    }

    /// A well-formed set lists each element once.
    pub proof fn lemma_nodup(self)
        requires
            self.wf(),
        ensures
            self.elems().no_duplicates(),
    {
    }

    /// With unique elements, the set's cardinality is the sequence's length.
    proof fn lemma_card(self)
        requires
            self.wf(),
        ensures
            self@.finite(),
            self@.len() == self.elems().len(),
    {
        self.items@.unique_seq_to_set();
    }

    /// An empty set.
    pub fn new() -> (r: Self)
        ensures
            r.wf(),
            r@ == Set::<u128>::empty(),
            r.elems() == Seq::<u128>::empty(),
    {
        let r = USet { items: Vec::new() };
        proof {
            assert(r@ =~= Set::<u128>::empty());
        }
        r
    }

    /// The number of elements.
    pub fn len(&self) -> (n: usize)
        requires
            self.wf(),
        ensures
            n == self.elems().len(),
            self@.finite(),
            n == self@.len(),
    {
        proof {
            self.lemma_card();
        }
        self.items.len()
    }

    /// Whether the set is empty.
    pub fn is_empty(&self) -> (r: bool)
        requires
            self.wf(),
        ensures
            r == (self.elems().len() == 0),
            r == self@.is_empty(),
    {
        proof {
            self.lemma_card();
            if self.elems().len() == 0 {
                assert(self@.is_empty()) by {
                    assert(forall|k: u128| !self.elems().contains(k));
                }
            } else {
                assert(self@.contains(self.elems()[0])) by {
                    assert(self.elems().contains(self.elems()[0]));
                }
            }
        }
        self.items.len() == 0
    }

    /// Whether `k` is an element.
    pub fn contains(&self, k: u128) -> (r: bool)
        ensures
            r == self@.contains(k),
    {
        let n = self.items.len();
        let mut i: usize = 0;
        while i < n
            invariant
                n == self.items@.len(),
                i <= n,
                forall|j: int| 0 <= j < i ==> self.items@[j] != k,
            decreases n - i,
        {
            if self.items[i] == k {
                proof {
                    assert(self.items@.contains(k)) by {
                        assert(self.items@[i as int] == k);
                    }
                }
                return true;
            }
            i += 1;
        }
        proof {
            assert(!self.items@.contains(k));
        }
        false
    }

    /// The element at position `i` of the iteration order.
    pub fn at(&self, i: usize) -> (k: u128)
        requires
            i < self.elems().len(),
        ensures
            k == self.elems()[i as int],
            self@.contains(k),
    {
        proof {
            assert(self.items@.contains(self.items@[i as int])) by {
                assert(self.items@[i as int] == self.items@[i as int]);
            }
        }
        self.items[i]
    }

    /// Inserts `k`; a fresh element goes to the end of the iteration order,
    /// an existing one leaves the set unchanged.
    pub fn insert(&mut self, k: u128)
        requires
            old(self).wf(),
        ensures
            final(self).wf(),
            final(self)@ == old(self)@.insert(k),
            old(self)@.contains(k) ==> final(self).elems() == old(self).elems(),
            !old(self)@.contains(k) ==> final(self).elems() == old(self).elems().push(k),
    {
        let ghost prev = *self;
        if !self.contains(k) {
            self.items.push(k);
            proof {
                assert forall|k2: u128| #[trigger] self.items@.contains(k2)
                    implies k2 == k || prev.items@.contains(k2) by {
                    let j = choose|j: int| 0 <= j < self.items@.len() && self.items@[j] == k2;
                    if j < prev.items@.len() {
                        assert(prev.items@[j] == k2);
                    }
                }
                assert forall|k2: u128| prev.items@.contains(k2)
                    implies #[trigger] self.items@.contains(k2) by {
                    let j = choose|j: int| 0 <= j < prev.items@.len() && prev.items@[j] == k2;
                    assert(self.items@[j] == k2);
                }
                assert(self.items@.contains(k)) by {
                    assert(self.items@[prev.items@.len() as int] == k);
                }
                assert(self@ =~= prev@.insert(k));
            }
        } else {
            proof {
                assert(self@ =~= prev@.insert(k));
            }
        }
    }

    /// Removes `k`; the iteration order of the remaining elements is
    /// unchanged.
    pub fn remove(&mut self, k: u128) -> (r: bool)
        requires
            old(self).wf(),
        ensures
            final(self).wf(),
            final(self)@ == old(self)@.remove(k),
            r == old(self)@.contains(k),
            final(self).elems() == old(self).elems().remove_value(k),
            !r ==> *final(self) == *old(self),
    {
        let ghost prev = *self;
        let n = self.items.len();
        let mut i: usize = 0;
        while i < n
            invariant
                prev == *old(self),
                prev.wf(),
                n == self.items@.len(),
                i <= n,
                forall|j: int| 0 <= j < i ==> self.items@[j] != k,
                *self == prev,
            decreases n - i,
        {
            if self.items[i] == k {
                self.items.remove(i);
                proof {
                    prev.items@.remove_ensures(i as int);
                    assert(prev.items@.contains(k)) by {
                        assert(prev.items@[i as int] == k);
                    }
                    assert forall|p: int, q: int| 0 <= p < q < self.items@.len()
                        implies self.items@[p] != self.items@[q] by {
                        let p0: int = if p < i { p } else { p + 1 };
                        let q0: int = if q < i { q } else { q + 1 };
                        assert(prev.items@.remove(i as int)[p] == prev.items@[p0]);
                        assert(prev.items@.remove(i as int)[q] == prev.items@[q0]);
                    }
                    assert(self.items@.no_duplicates());
                    assert forall|k2: u128| #[trigger] self.items@.contains(k2)
                        implies prev.items@.contains(k2) && k2 != k by {
                        let j = choose|j: int| 0 <= j < self.items@.len() && self.items@[j] == k2;
                        let jp: int = if j < i { j } else { j + 1 };
                        assert(prev.items@[jp] == k2);
                        if k2 == k {
                            assert(jp != i && prev.items@[i as int] == k);
                            assert(!prev.items@.no_duplicates());
                        }
                    }
                    assert forall|k2: u128| prev.items@.contains(k2) && k2 != k
                        implies #[trigger] self.items@.contains(k2) by {
                        let jp = choose|j: int| 0 <= j < prev.items@.len() && prev.items@[j] == k2;
                        let j: int = if jp < i { jp } else { jp - 1 };
                        assert(self.items@[j] == k2);
                    }
                    assert(self@ =~= prev@.remove(k));
                    prev.items@.index_of_first_ensures(k);
                    let fi = prev.items@.index_of_first(k)->Some_0;
                    if fi != i {
                        assert(prev.items@[fi] == k && prev.items@[i as int] == k);
                        assert(!prev.items@.no_duplicates());
                    }
                }
                return true;
            }
            i += 1;
        }
        proof {
            assert(!prev.items@.contains(k));
            assert(self@ =~= prev@.remove(k));
            prev.items@.index_of_first_ensures(k);
        }
        false
    }
}

} // verus!
