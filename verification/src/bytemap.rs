//! A hash map from byte strings to values: the entries lie densely in a
//! vector, and an index keyed by hash says where.

use bytes::Bytes;
use std::collections::HashMap;
use vstd::prelude::*;

use crate::buf::content;

verus! {

broadcast use vstd::std_specs::hash::group_hash_axioms;

/// FNV-1a of `data`.
pub open spec fn fnv1a_spec(data: Seq<u8>) -> u64
    decreases data.len(),
{
    if data.len() == 0 {
        0xcbf29ce484222325
    } else {
        ((fnv1a_spec(data.drop_last()) ^ (data.last() as u64)) * 0x100000001b3
            % 0x1_0000_0000_0000_0000) as u64
    }
}

/// FNV-1a of `data`: fast, with a distribution good enough to route keys.
pub fn fnv1a(data: &[u8]) -> (hash: u64)
    ensures
        hash == fnv1a_spec(data@),
{
    let mut hash: u64 = 0xcbf29ce484222325;
    let mut i: usize = 0;
    assert(data@.take(0) =~= Seq::<u8>::empty());
    while i < data.len()
        invariant
            i <= data@.len(),
            hash == fnv1a_spec(data@.take(i as int)),
        decreases data@.len() - i,
    {
        hash = hash ^ (data[i] as u64);
        hash = hash.wrapping_mul(0x100000001b3);
        assert(data@.take(i + 1).drop_last() =~= data@.take(i as int));
        i = i + 1;
    }
    assert(data@.take(data@.len() as int) =~= data@);
    hash
}

/// Whether two slices hold the same bytes.
pub fn same_bytes(a: &[u8], b: &[u8]) -> (same: bool)
    ensures
        same == (a@ == b@),
{
    if a.len() != b.len() {
        return false;
    }
    let mut i: usize = 0;
    while i < a.len()
        invariant
            i <= a@.len(),
            a@.len() == b@.len(),
            forall|k: int| 0 <= k < i ==> a@[k] == b@[k],
        decreases a@.len() - i,
    {
        if a[i] != b[i] {
            return false;
        }
        i = i + 1;
    }
    assert(a@ =~= b@);
    true
}

/// Whether the index lists position `p` under the hash `h`.
spec fn listed(index: Map<u64, Vec<usize>>, h: u64, p: int) -> bool {
    index.contains_key(h) && exists|j: int|
        0 <= j < index[h]@.len() && #[trigger] index[h]@[j] == p
}

/// Whether no hash of the index lists a position twice.
spec fn distinct(index: Map<u64, Vec<usize>>) -> bool {
    forall|h: u64| #[trigger] index.contains_key(h) ==> index[h]@.no_duplicates()
}

/// Lists position `p` under the hash `h`.
fn index_add(index: &mut HashMap<u64, Vec<usize>>, h: u64, p: usize)
    requires
        distinct(old(index)@),
        !listed(old(index)@, h, p as int),
    ensures
        distinct(final(index)@),
        forall|g: u64, q: int| #[trigger]
            listed(final(index)@, g, q) <==> listed(old(index)@, g, q) || (g == h && q == p),
{
    let mut bucket: Vec<usize> = match index.remove(&h) {
        Some(b) => b,
        None => Vec::new(),
    };
    let ghost before = bucket@;
    bucket.push(p);
    let ghost after = bucket@;
    index.insert(h, bucket);
    proof {
        let new = index@;
        let was = old(index)@;
        assert(was.contains_key(h) ==> was[h]@ == before);
        assert forall|g: u64, q: int| #[trigger] listed(new, g, q) <==> listed(was, g, q) || (g == h
            && q == p) by {
            if g == h {
                if listed(new, g, q) {
                    let j = choose|j: int| 0 <= j < new[g]@.len() && #[trigger] new[g]@[j] == q;
                    if j < before.len() {
                        assert(was[g]@[j] == q);
                    }
                }
                if listed(was, g, q) {
                    let j = choose|j: int| 0 <= j < was[g]@.len() && #[trigger] was[g]@[j] == q;
                    assert(new[g]@[j] == q);
                }
                assert(new[h]@[before.len() as int] == p);
            } else {
                assert(was.contains_key(g) == new.contains_key(g));
                assert(was.contains_key(g) ==> was[g] == new[g]);
            }
        }
        assert forall|g: u64| #[trigger] new.contains_key(g) implies new[g]@.no_duplicates() by {
            if g == h {
                if was.contains_key(h) {
                    assert(before.no_duplicates());
                }
                assert forall|a: int, b: int|
                    0 <= a < after.len() && 0 <= b < after.len() && a != b implies after[a]
                    != after[b] by {
                    if a == before.len() && was.contains_key(h) {
                        assert(was[h]@[b] != p);
                    }
                    if b == before.len() && was.contains_key(h) {
                        assert(was[h]@[a] != p);
                    }
                }
            } else {
                assert(was.contains_key(g));
            }
        }
    }
}

/// Takes position `p` off the list under the hash `h`.
fn index_drop(index: &mut HashMap<u64, Vec<usize>>, h: u64, p: usize)
    requires
        distinct(old(index)@),
        listed(old(index)@, h, p as int),
    ensures
        distinct(final(index)@),
        forall|g: u64, q: int| #[trigger]
            listed(final(index)@, g, q) <==> listed(old(index)@, g, q) && !(g == h && q == p),
{
    let mut bucket: Vec<usize> = match index.remove(&h) {
        Some(b) => b,
        None => Vec::new(),
    };
    let ghost before = bucket@;
    assert(before == old(index)@[h]@);
    let mut j: usize = 0;
    while j < bucket.len() && bucket[j] != p
        invariant
            bucket@ == before,
            j <= before.len(),
            forall|k: int| 0 <= k < j ==> before[k] != p,
        decreases before.len() - j,
    {
        j = j + 1;
    }
    bucket.swap_remove(j);
    let ghost after = bucket@;
    if bucket.len() > 0 {
        index.insert(h, bucket);
    }
    proof {
        let new = index@;
        let was = old(index)@;
        let last = before.len() - 1;
        assert(before.no_duplicates());
        assert forall|k: int| 0 <= k < after.len() implies #[trigger] after[k] == (if k == j {
            before[last]
        } else {
            before[k]
        }) by {}
        assert forall|g: u64, q: int| #[trigger] listed(new, g, q) <==> listed(was, g, q) && !(g
            == h && q == p) by {
            if g == h {
                if listed(new, g, q) {
                    let k = choose|k: int| 0 <= k < new[g]@.len() && #[trigger] new[g]@[k] == q;
                    let from = if k == j {
                        last
                    } else {
                        k
                    };
                    assert(after[k] == before[from]);
                    assert(was[g]@[from] == q);
                    assert(from != j);
                }
                if listed(was, g, q) && q != p {
                    let k = choose|k: int| 0 <= k < was[g]@.len() && #[trigger] was[g]@[k] == q;
                    let to = if k == last {
                        j as int
                    } else {
                        k
                    };
                    assert(k != j);
                    assert(after[to] == q);
                    assert(new[g]@[to] == q);
                }
            } else {
                assert(was.contains_key(g) == new.contains_key(g));
                assert(was.contains_key(g) ==> was[g] == new[g]);
            }
        }
        assert forall|g: u64| #[trigger] new.contains_key(g) implies new[g]@.no_duplicates() by {
            if g != h {
                assert(was.contains_key(g));
            }
        }
    }
}

/// One entry of a [`ByteMap`].
#[derive(Debug, Clone)]
struct Slot<V> {
    key: Bytes,
    value: V,
}

/// A map from byte strings to values.
#[derive(Debug, Clone)]
pub struct ByteMap<V> {
    slots: Vec<Slot<V>>,
    index: HashMap<u64, Vec<usize>>,
}

impl<V> ByteMap<V> {
    /// The keys, in the order in which the entries lie.
    pub closed spec fn keys(&self) -> Seq<Seq<u8>> {
        Seq::new(self.slots@.len(), |i: int| content(self.slots@[i].key))
    }

    /// The values, in the order in which the entries lie.
    pub closed spec fn values(&self) -> Seq<V> {
        Seq::new(self.slots@.len(), |i: int| self.slots@[i].value)
    }

    /// The contents as a mathematical map.
    pub open spec fn view(&self) -> Map<Seq<u8>, V> {
        Map::new(
            |k: Seq<u8>| self.keys().contains(k),
            |k: Seq<u8>| self.values()[self.keys().index_of(k)],
        )
    }

    /// The invariant: no key occurs twice, and the index lists the position of
    /// every entry under the hash of its key, and nothing else.
    pub closed spec fn wf(&self) -> bool {
        &&& self.keys().no_duplicates()
        &&& distinct(self.index@)
        &&& forall|h: u64, p: int| #[trigger]
            listed(self.index@, h, p) <==> 0 <= p < self.slots@.len() && fnv1a_spec(
                content(self.slots@[p].key),
            ) == h
    }

    /// The entry at a position is the one that the map has under its key.
    pub proof fn lemma_entry(&self, i: int)
        requires
            self.wf(),
            0 <= i < self.keys().len(),
        ensures
            self.values().len() == self.keys().len(),
            self@.contains_key(self.keys()[i]),
            self@[self.keys()[i]] == self.values()[i],
    {
        let k = self.keys()[i];
        assert(self.keys().contains(k));
        let j = self.keys().index_of(k);
        assert(self.keys()[j] == k);
    }

    /// The keys are distinct, and they are the domain of the map.
    pub proof fn lemma_keys(&self)
        requires
            self.wf(),
        ensures
            self.keys().no_duplicates(),
            self.values().len() == self.keys().len(),
            self@.dom() == self.keys().to_set(),
            self@.dom().finite(),
            self@.dom().len() == self.keys().len(),
            self.keys().len() <= usize::MAX,
    {
        assert(self.slots@.len() == self.slots.len());
        assert(self@.dom() =~= self.keys().to_set());
        self.keys().unique_seq_to_set();
    }

    /// Changing the value at a position changes what the map has under the key
    /// there.
    proof fn lemma_update(was: Self, new: Self, p: int, value: V)
        requires
            was.wf(),
            0 <= p < was.slots@.len(),
            new.index == was.index,
            new.slots@ == was.slots@.update(p, Slot { key: was.slots@[p].key, value }),
        ensures
            new.wf(),
            new@ == was@.insert(was.keys()[p], value),
    {
        let key = was.keys()[p];
        was.lemma_entry(p);
        assert(new.keys() =~= was.keys());
        assert forall|h: u64, q: int| #[trigger]
            listed(new.index@, h, q) <==> 0 <= q < new.slots@.len() && fnv1a_spec(
                content(new.slots@[q].key),
            ) == h by {
            assert(0 <= q < new.slots@.len() ==> new.keys()[q] == was.keys()[q]);
        }
        assert forall|k: Seq<u8>| #[trigger] new@.contains_key(k) implies new@[k] == was@.insert(
            key,
            value,
        )[k] by {
            let i = new.keys().index_of(k);
            assert(new.keys()[i] == k);
            if k != key {
                assert(i != p);
            } else {
                assert(i == p);
            }
        }
        assert(new@ =~= was@.insert(key, value));
    }

    /// An empty map.
    pub fn new() -> (map: Self)
        ensures
            map.wf(),
            map.keys() == Seq::<Seq<u8>>::empty(),
            map@ == Map::<Seq<u8>, V>::empty(),
    {
        let map = ByteMap { slots: Vec::new(), index: HashMap::new() };
        assert(map.keys() =~= Seq::<Seq<u8>>::empty());
        assert(map@ =~= Map::<Seq<u8>, V>::empty());
        map
    }

    /// Number of entries.
    pub fn len(&self) -> (n: usize)
        requires
            self.wf(),
        ensures
            n == self@.dom().len(),
            n == self.keys().len(),
    {
        proof {
            self.lemma_keys();
        }
        self.slots.len()
    }

    /// Position of the entry of `key`.
    fn find(&self, key: &[u8]) -> (pos: Option<usize>)
        requires
            self.wf(),
        ensures
            match pos {
                Some(p) => p < self.slots@.len() && self.keys()[p as int] == key@
                    && self@.contains_key(key@) && self@[key@] == self.slots@[p as int].value,
                None => !self@.contains_key(key@),
            },
    {
        let h: u64 = fnv1a(key);
        match self.index.get(&h) {
            None => {
                proof {
                    if self@.contains_key(key@) {
                        let i = self.keys().index_of(key@);
                        assert(self.keys()[i] == key@);
                        assert(listed(self.index@, h, i));
                    }
                }
                None
            },
            Some(bucket) => {
                let mut j: usize = 0;
                while j < bucket.len()
                    invariant
                        self.wf(),
                        h == fnv1a_spec(key@),
                        self.index@.contains_key(h),
                        self.index@[h] == *bucket,
                        j <= bucket@.len(),
                        forall|k: int|
                            0 <= k < j ==> content(
                                self.slots@[(#[trigger] bucket@[k]) as int].key,
                            ) != key@,
                    decreases bucket@.len() - j,
                {
                    let p: usize = bucket[j];
                    assert(self.index@[h]@[j as int] == p);
                    assert(listed(self.index@, h, p as int));
                    if same_bytes(&self.slots[p].key, key) {
                        proof {
                            self.lemma_entry(p as int);
                            assert(self.keys()[p as int] == key@);
                        }
                        return Some(p);
                    }
                    j = j + 1;
                }
                proof {
                    if self@.contains_key(key@) {
                        let i = self.keys().index_of(key@);
                        assert(self.keys()[i] == key@);
                        assert(listed(self.index@, h, i));
                        let k = choose|k: int|
                            0 <= k < self.index@[h]@.len() && #[trigger] self.index@[h]@[k] == i;
                        assert(bucket@[k] == i);
                    }
                }
                None
            },
        }
    }

    /// Whether there is an entry for `key`.
    pub fn contains_key(&self, key: &[u8]) -> (present: bool)
        requires
            self.wf(),
        ensures
            present == self@.contains_key(key@),
    {
        self.find(key).is_some()
    }

    /// The value of `key`.
    pub fn get(&self, key: &[u8]) -> (value: Option<&V>)
        requires
            self.wf(),
        ensures
            match value {
                Some(v) => self@.contains_key(key@) && *v == self@[key@],
                None => !self@.contains_key(key@),
            },
    {
        match self.find(key) {
            Some(p) => Some(&self.slots[p].value),
            None => None,
        }
    }

    /// The key at a position.
    pub fn key_at(&self, i: usize) -> (key: &Bytes)
        requires
            i < self.keys().len(),
        ensures
            content(*key) == self.keys()[i as int],
    {
        &self.slots[i].key
    }

    /// The value at a position.
    pub fn value_at(&self, i: usize) -> (value: &V)
        requires
            i < self.values().len(),
        ensures
            *value == self.values()[i as int],
    {
        &self.slots[i].value
    }

    /// Sets the value of `key`, in place of the one it had.
    pub fn insert(&mut self, key: Bytes, value: V)
        requires
            old(self).wf(),
        ensures
            final(self).wf(),
            final(self)@ == old(self)@.insert(content(key), value),
    {
        match self.find(&key) {
            Some(p) => {
                let ghost was = *self;
                self.slots[p].value = value;
                proof {
                    Self::lemma_update(was, *self, p as int, value);
                }
            },
            None => {
                let ghost was = *self;
                let h: u64 = fnv1a(&key);
                let p: usize = self.slots.len();
                proof {
                    assert(!listed(self.index@, h, p as int));
                }
                let ghost k0 = content(key);
                index_add(&mut self.index, h, p);
                self.slots.push(Slot { key, value });
                proof {
                    assert(self.keys() =~= was.keys().push(k0));
                    assert(self.values() =~= was.values().push(value));
                    assert(self.keys().no_duplicates()) by {
                        assert forall|a: int, b: int|
                            0 <= a < self.keys().len() && 0 <= b < self.keys().len() && a
                                != b implies self.keys()[a] != self.keys()[b] by {
                            if a == p {
                                assert(was.keys()[b] != k0);
                            } else if b == p {
                                assert(was.keys()[a] != k0);
                            }
                        }
                    }
                    assert forall|g: u64, q: int| #[trigger]
                        listed(self.index@, g, q) <==> 0 <= q < self.slots@.len() && fnv1a_spec(
                            content(self.slots@[q].key),
                        ) == g by {
                        assert(listed(was.index@, g, q) <==> 0 <= q < was.slots@.len()
                            && fnv1a_spec(content(was.slots@[q].key)) == g);
                    }
                    self.lemma_entry(p as int);
                    assert forall|k: Seq<u8>| #[trigger]
                        self@.contains_key(k) <==> was@.insert(k0, value).contains_key(k) by {
                        if was@.contains_key(k) {
                            let i = was.keys().index_of(k);
                            assert(self.keys()[i] == k);
                        }
                        if self@.contains_key(k) && k != k0 {
                            let i = self.keys().index_of(k);
                            assert(self.keys()[i] == k);
                            assert(was.keys()[i] == k);
                        }
                    }
                    assert forall|k: Seq<u8>| #[trigger] self@.contains_key(k) implies self@[k]
                        == was@.insert(k0, value)[k] by {
                        let i = self.keys().index_of(k);
                        assert(self.keys()[i] == k);
                        if k != k0 {
                            assert(i != p);
                            assert(was.keys()[i] == k);
                            was.lemma_entry(i);
                        } else {
                            assert(i == p);
                        }
                    }
                    assert(self@ =~= was@.insert(k0, value));
                }
            },
        }
    }

    /// Takes the entry at a position out. The last entry moves into its place.
    pub fn remove_at(&mut self, p: usize) -> (entry: (Bytes, V))
        requires
            old(self).wf(),
            p < old(self).keys().len(),
        ensures
            final(self).wf(),
            content(entry.0) == old(self).keys()[p as int],
            entry.1 == old(self)@[content(entry.0)],
            final(self)@ == old(self)@.remove(content(entry.0)),
    {
        let ghost was = *self;
        let last: usize = self.slots.len() - 1;
        let h: u64 = fnv1a(&self.slots[p].key);
        proof {
            was.lemma_entry(p as int);
            assert(listed(self.index@, h, p as int));
        }
        index_drop(&mut self.index, h, p);
        if p != last {
            let g: u64 = fnv1a(&self.slots[last].key);
            assert(listed(was.index@, g, last as int));
            index_drop(&mut self.index, g, last);
            assert(!listed(self.index@, g, p as int)) by {
                if listed(was.index@, g, p as int) {
                    assert(g == h);
                }
            }
            index_add(&mut self.index, g, p);
        }
        let slot = self.slots.swap_remove(p);
        proof {
            let gone = content(slot.key);
            assert(gone == was.keys()[p as int]);
            assert forall|i: int| 0 <= i < self.slots@.len() implies #[trigger] self.slots@[i] == (
            if i == p {
                was.slots@[last as int]
            } else {
                was.slots@[i]
            }) by {}
            assert forall|i: int| 0 <= i < self.keys().len() implies #[trigger] self.keys()[i] == (
            if i == p {
                was.keys()[last as int]
            } else {
                was.keys()[i]
            }) by {}
            assert(self.keys().no_duplicates());
            assert forall|g: u64, q: int| #[trigger]
                listed(self.index@, g, q) <==> 0 <= q < self.slots@.len() && fnv1a_spec(
                    content(self.slots@[q].key),
                ) == g by {
                assert(listed(was.index@, g, q) <==> 0 <= q < was.slots@.len() && fnv1a_spec(
                    content(was.slots@[q].key),
                ) == g);
            }
            assert forall|k: Seq<u8>| #[trigger]
                self@.contains_key(k) <==> was@.remove(gone).contains_key(k) by {
                if self@.contains_key(k) {
                    let i = self.keys().index_of(k);
                    assert(self.keys()[i] == k);
                    let from = if i == p {
                        last as int
                    } else {
                        i
                    };
                    assert(was.keys()[from] == k);
                    assert(from != p);
                }
                if was@.remove(gone).contains_key(k) {
                    let i = was.keys().index_of(k);
                    assert(was.keys()[i] == k);
                    let to = if i == last {
                        p as int
                    } else {
                        i
                    };
                    assert(self.keys()[to] == k);
                }
            }
            assert forall|k: Seq<u8>| #[trigger] self@.contains_key(k) implies self@[k]
                == was@.remove(gone)[k] by {
                let i = self.keys().index_of(k);
                assert(self.keys()[i] == k);
                self.lemma_entry(i);
                let from = if i == p {
                    last as int
                } else {
                    i
                };
                was.lemma_entry(from);
            }
            assert(self@ =~= was@.remove(gone));
        }
        (slot.key, slot.value)
    }

    /// Takes the entry of `key` out.
    pub fn remove(&mut self, key: &[u8]) -> (value: Option<V>)
        requires
            old(self).wf(),
        ensures
            final(self).wf(),
            final(self)@ == old(self)@.remove(key@),
            match value {
                Some(v) => old(self)@.contains_key(key@) && v == old(self)@[key@],
                None => !old(self)@.contains_key(key@),
            },
    {
        match self.find(key) {
            Some(p) => {
                let (_, value) = self.remove_at(p);
                Some(value)
            },
            None => {
                assert(self@.remove(key@) =~= self@);
                None
            },
        }
    }

    /// The value of `key`, for changing in place.
    pub fn get_mut(&mut self, key: &[u8]) -> (value: Option<&mut V>)
        requires
            old(self).wf(),
        ensures
            final(self).wf(),
            match value {
                Some(v) => old(self)@.contains_key(key@) && *v == old(self)@[key@] && final(self)@
                    == old(self)@.insert(key@, *final(v)),
                None => !old(self)@.contains_key(key@) && final(self)@ == old(self)@,
            },
    {
        match self.find(key) {
            Some(p) => {
                proof {
                    let was = *self;
                    assert forall|new: Self|
                        new.index == was.index && new.slots@ == was.slots@.update(
                            p as int,
                            Slot { key: was.slots@[p as int].key, value: new.slots@[p as int].value },
                        ) implies #[trigger] new.wf() && new@ == was@.insert(
                        key@,
                        new.slots@[p as int].value,
                    ) by {
                        Self::lemma_update(was, new, p as int, new.slots@[p as int].value);
                    }
                }
                let slot = &mut self.slots[p];
                Some(&mut slot.value)
            },
            None => None,
        }
    }

    /// Takes every entry out.
    pub fn clear(&mut self)
        ensures
            final(self).wf(),
            final(self)@ == Map::<Seq<u8>, V>::empty(),
    {
        self.slots.clear();
        self.index.clear();
        assert(self.keys() =~= Seq::<Seq<u8>>::empty());
        assert(self@ =~= Map::<Seq<u8>, V>::empty());
    }
}

} // verus!
