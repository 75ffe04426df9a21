use vstd::prelude::*;

verus! {

/// A key of a bounded table: a plain value whose equality can be decided.
pub trait MapKey: Copy + Sized {
    fn same(&self, other: &Self) -> (r: bool)
        ensures
            r == (*self == *other),
    ;
}

impl MapKey for u16 {
    fn same(&self, other: &Self) -> (r: bool) {
        *self == *other
    }
}

impl<const N: usize> MapKey for [u8; N] {
    fn same(&self, other: &Self) -> (r: bool) {
        let mut i: usize = 0;
        while i < N
            invariant
                0 <= i <= N,
                forall|j: int| 0 <= j < i ==> self[j] == other[j],
            decreases N - i,
        {
            if self[i] != other[i] {
                return false;
            }
            i += 1;
        }
        assert(*self =~= *other);
        true
    }
}

/// A key/value table with a fixed capacity, as shared between the packet
/// classifier and the policy daemon. Inserting a new key into a full table
/// fails and leaves the table unchanged; updating a present key always works.
#[verifier::reject_recursive_types(K)]
pub struct BoundedMap<K, V> {
    entries: Vec<(K, V)>,
    capacity: usize,
    contents: Ghost<Map<K, V>>,
}

impl<K, V> View for BoundedMap<K, V> {
    type V = Map<K, V>;

    closed spec fn view(&self) -> Map<K, V> {
        self.contents@
    }
}

impl<K: MapKey, V: Copy> BoundedMap<K, V> {
    /// The number of keys the table can hold.
    pub closed spec fn capacity(&self) -> nat {
        self.capacity as nat
    }

    pub closed spec fn wf(&self) -> bool {
        &&& self.entries@.len() <= self.capacity
        &&& self.contents@.dom().finite()
        &&& self.contents@.dom().len() == self.entries@.len()
        &&& forall|i: int, j: int|
            0 <= i < j < self.entries@.len() ==> #[trigger] self.entries@[i].0
                != #[trigger] self.entries@[j].0
        &&& forall|i: int|
            0 <= i < self.entries@.len() ==> {
                &&& #[trigger] self.contents@.contains_key(self.entries@[i].0)
                &&& self.contents@[self.entries@[i].0] == self.entries@[i].1
            }
        &&& forall|k: K|
            #[trigger] self.contents@.contains_key(k) ==> exists|i: int|
                0 <= i < self.entries@.len() && #[trigger] self.entries@[i].0 == k
    }

    /// A well-formed table holds finitely many keys, at most its capacity.
    pub proof fn lemma_bounded(&self)
        requires
            self.wf(),
        ensures
            self@.dom().finite(),
            self@.dom().len() <= self.capacity(),
    {
    }

    /// An empty table that holds at most `capacity` keys.
    pub fn new(capacity: usize) -> (r: Self)
        ensures
            r.wf(),
            r@ == Map::<K, V>::empty(),
            r.capacity() == capacity,
    {
        BoundedMap { entries: Vec::new(), capacity, contents: Ghost(Map::empty()) }
    }

    pub fn capacity_of(&self) -> (r: usize)
        ensures
            r == self.capacity(),
    {
        self.capacity
    }

    /// The number of keys in the table.
    pub fn len(&self) -> (r: usize)
        requires
            self.wf(),
        ensures
            r == self@.dom().len(),
            r <= self.capacity(),
    {
        self.entries.len()
    }

    fn find(&self, key: &K) -> (r: Option<usize>)
        requires
            self.wf(),
        ensures
            match r {
                Some(i) => i < self.entries@.len() && self.entries@[i as int].0 == *key,
                None => !self@.contains_key(*key),
            },
    {
        let mut i: usize = 0;
        while i < self.entries.len()
            invariant
                self.wf(),
                0 <= i <= self.entries@.len(),
                forall|j: int| 0 <= j < i ==> self.entries@[j].0 != *key,
            decreases self.entries@.len() - i,
        {
            if self.entries[i].0.same(key) {
                return Some(i);
            }
            i += 1;
        }
        None
    }

    /// The value under `key`, if any.
    pub fn get(&self, key: &K) -> (r: Option<V>)
        requires
            self.wf(),
        ensures
            r == (if self@.contains_key(*key) {
                Some(self@[*key])
            } else {
                None
            }),
    {
        match self.find(key) {
            Some(i) => Some(self.entries[i].1),
            None => None,
        }
    }

    /// Whether `key` is in the table.
    pub fn contains(&self, key: &K) -> (r: bool)
        requires
            self.wf(),
        ensures
            r == self@.contains_key(*key),
    {
        self.find(key).is_some()
    }

    /// Sets `key` to `value`. Fails, changing nothing, when the key is new
    /// and the table is full.
    pub fn set(&mut self, key: K, value: V) -> (r: bool)
        requires
            old(self).wf(),
        ensures
            final(self).wf(),
            final(self).capacity() == old(self).capacity(),
            r == (old(self)@.contains_key(key) || old(self)@.dom().len() < old(self).capacity()),
            r ==> final(self)@ == old(self)@.insert(key, value),
            !r ==> final(self)@ == old(self)@,
    {
        match self.find(&key) {
            Some(i) => {
                let ghost old_entries = self.entries@;
                self.entries.set(i, (key, value));
                self.contents = Ghost(self.contents@.insert(key, value));
                assert(self.contents@.dom() =~= old(self).contents@.dom());
                assert forall|k: K| #[trigger] self.contents@.contains_key(k) implies exists|j: int|
                    0 <= j < self.entries@.len() && #[trigger] self.entries@[j].0 == k by {
                    let j = choose|j: int| 0 <= j < old_entries.len() && #[trigger] old_entries[j].0 == k;
                    assert(self.entries@[j].0 == k);
                }
                true
            },
            None => {
                if self.entries.len() < self.capacity {
                    let ghost old_entries = self.entries@;
                    self.entries.push((key, value));
                    self.contents = Ghost(self.contents@.insert(key, value));
                    assert forall|k: K| #[trigger] self.contents@.contains_key(k) implies exists|j: int|
                        0 <= j < self.entries@.len() && #[trigger] self.entries@[j].0 == k by {
                        if k == key {
                            assert(self.entries@[old_entries.len() as int].0 == k);
                        } else {
                            let j = choose|j: int| 0 <= j < old_entries.len() && #[trigger] old_entries[j].0 == k;
                            assert(self.entries@[j].0 == k);
                        }
                    }
                    true
                } else {
                    false
                }
            },
        }
    }

    /// Removes `key`; tells whether it was there.
    pub fn remove(&mut self, key: &K) -> (r: bool)
        requires
            old(self).wf(),
        ensures
            final(self).wf(),
            final(self).capacity() == old(self).capacity(),
            r == old(self)@.contains_key(*key),
            final(self)@ == old(self)@.remove(*key),
    {
        match self.find(key) {
            Some(i) => {
                let ghost old_entries = self.entries@;
                self.entries.remove(i);
                self.contents = Ghost(self.contents@.remove(*key));
                assert forall|a: int, b: int|
                    0 <= a < b < self.entries@.len() implies #[trigger] self.entries@[a].0
                        != #[trigger] self.entries@[b].0 by {
                    let a0 = if a < i { a } else { a + 1 };
                    let b0 = if b < i { b } else { b + 1 };
                    assert(self.entries@[a] == old_entries[a0]);
                    assert(self.entries@[b] == old_entries[b0]);
                }
                assert forall|a: int| 0 <= a < self.entries@.len() implies {
                    &&& #[trigger] self.contents@.contains_key(self.entries@[a].0)
                    &&& self.contents@[self.entries@[a].0] == self.entries@[a].1
                } by {
                    let a0 = if a < i { a } else { a + 1 };
                    assert(self.entries@[a] == old_entries[a0]);
                    assert(old(self).contents@.contains_key(old_entries[a0].0));
                    if a0 < i {
                        assert(old_entries[a0].0 != old_entries[i as int].0);
                    } else {
                        assert(old_entries[i as int].0 != old_entries[a0].0);
                    }
                }
                assert forall|k: K| #[trigger] self.contents@.contains_key(k) implies exists|j: int|
                    0 <= j < self.entries@.len() && #[trigger] self.entries@[j].0 == k by {
                    let j = choose|j: int| 0 <= j < old_entries.len() && #[trigger] old_entries[j].0 == k;
                    assert(j != i);
                    if j < i {
                        assert(self.entries@[j].0 == k);
                    } else {
                        assert(self.entries@[j - 1].0 == k);
                    }
                }
                true
            },
            None => {
                assert(self.contents@.remove(*key) =~= self.contents@);
                false
            },
        }
    }

    /// Removes every key.
    pub fn clear(&mut self)
        requires
            old(self).wf(),
        ensures
            final(self).wf(),
            final(self).capacity() == old(self).capacity(),
            final(self)@ == Map::<K, V>::empty(),
    {
        self.entries.clear();
        self.contents = Ghost(Map::empty());
    }
}

} // verus!
