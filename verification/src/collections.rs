//! Sets and maps over small keys. Both keep their keys in the order in
//! which they first came, and look them up by equality alone.
//!
//! They are for keys made of several values, such as accounts and slots: what is
//! specified of std's hash maps says nothing for keys whose hashing is derived. They
//! are also for keys that are walked in their order. Where integers are only looked
//! up, the maps and sets of std do.
use crate::primitives::{Address, U256};
use vstd::prelude::*;

verus! {

/// A value that a set or a map can be keyed by: running equality on it decides
/// whether two values are the same.
pub trait Key: Sized {
    fn same(&self, other: &Self) -> (r: bool)
        ensures
            r == (*self == *other),
    ;

    fn copied(&self) -> (r: Self)
        ensures
            r == *self,
    ;
}

impl Key for usize {
    fn same(&self, other: &usize) -> (r: bool) {
        *self == *other
    }

    fn copied(&self) -> (r: usize) {
        *self
    }
}

impl Key for (usize, usize) {
    fn same(&self, other: &(usize, usize)) -> (r: bool) {
        self.0 == other.0 && self.1 == other.1
    }

    fn copied(&self) -> (r: (usize, usize)) {
        *self
    }
}

impl Key for Address {
    fn same(&self, other: &Address) -> (r: bool) {
        *self == *other
    }

    fn copied(&self) -> (r: Address) {
        *self
    }
}

impl Key for (Address, U256) {
    fn same(&self, other: &(Address, U256)) -> (r: bool) {
        self.0 == other.0 && self.1 == other.1
    }

    fn copied(&self) -> (r: (Address, U256)) {
        *self
    }
}

/// A set of keys.
#[derive(Debug)]
pub struct KeySet<K> {
    items: Vec<K>,
}

impl<K> KeySet<K> {
    /// The keys in the order in which they first came.
    pub closed spec fn order(self) -> Seq<K> {
        self.items@
    }

    /// No key is held twice.
    pub open spec fn wf(self) -> bool {
        self.order().no_duplicates()
    }
}

impl<K> View for KeySet<K> {
    type V = Set<K>;

    open spec fn view(&self) -> Set<K> {
        self.order().to_set()
    }
}

impl<K: Key> KeySet<K> {
    pub fn new() -> (r: Self)
        ensures
            r.wf(),
            r.order() == Seq::<K>::empty(),
            r@ == Set::<K>::empty(),
    {
        let r = KeySet { items: Vec::new() };
        assert(r@ =~= Set::<K>::empty());
        r
    }

    pub fn len(&self) -> (r: usize)
        ensures
            r == self.order().len(),
    {
        self.items.len()
    }

    pub fn is_empty(&self) -> (r: bool)
        ensures
            r == (self@ == Set::<K>::empty()),
            r == (self.order().len() == 0),
    {
        proof {
            if self.order().len() == 0 {
                assert(self@ =~= Set::<K>::empty());
            } else {
                assert(self@.contains(self.order()[0]));
            }
        }
        self.items.len() == 0
    }

    /// The key that came at position `i`.
    pub fn at(&self, i: usize) -> (r: K)
        requires
            i < self.order().len(),
        ensures
            r == self.order()[i as int],
            self@.contains(r),
    {
        self.items[i].copied()
    }

    pub fn contains(&self, key: &K) -> (r: bool)
        ensures
            r == self@.contains(*key),
    {
        for i in 0..self.items.len()
            invariant
                forall|j: int| 0 <= j < i ==> self.items@[j] != *key,
        {
            if self.items[i].same(key) {
                assert(self.order()[i as int] == *key);
                return true;
            }
        }
        false
    }

    /// Adds a key, and says whether it is new.
    pub fn insert(&mut self, key: K) -> (r: bool)
        requires
            old(self).wf(),
        ensures
            final(self).wf(),
            final(self)@ == old(self)@.insert(key),
            r == !old(self)@.contains(key),
            final(self).order() == if old(self)@.contains(key) {
                old(self).order()
            } else {
                old(self).order().push(key)
            },
    {
        if self.contains(&key) {
            assert(self@ =~= self@.insert(key));
            return false;
        }
        let ghost before = self.order();
        self.items.push(key);
        proof {
            assert(self.order() =~= before.push(key));
            assert(forall|k: K| before.contains(k) == old(self)@.contains(k));
            assert(self.order().no_duplicates()) by {
                assert(!before.contains(key));
            }
            before.lemma_push_to_set_commute(key);
        }
        true
    }

    /// Takes a key out, and says whether it was there.
    pub fn remove(&mut self, key: &K) -> (r: bool)
        requires
            old(self).wf(),
        ensures
            final(self).wf(),
            final(self)@ == old(self)@.remove(*key),
            r == old(self)@.contains(*key),
    {
        let n = self.items.len();
        for i in 0..n
            invariant
                *self == *old(self),
                old(self).wf(),
                n == self.items@.len(),
                forall|j: int| 0 <= j < i ==> self.items@[j] != *key,
        {
            if self.items[i].same(key) {
                let ghost before = self.items@;
                self.items.remove(i);
                proof {
                    let after = self.items@;
                    assert(after =~= before.remove(i as int));
                    assert forall|k: K| after.contains(k) == (before.contains(k) && k != *key) by {
                        if before.contains(k) && k != *key {
                            let w = choose|w: int| 0 <= w < before.len() && before[w] == k;
                            if w < i {
                                assert(after[w] == k);
                            } else {
                                assert(after[w - 1] == k);
                            }
                        }
                        if after.contains(k) {
                            let w = choose|w: int| 0 <= w < after.len() && after[w] == k;
                            if w < i {
                                assert(before[w] == k);
                            } else {
                                assert(before[w + 1] == k);
                            }
                        }
                    }
                    assert(self@ =~= old(self)@.remove(*key));
                    assert(old(self).order().contains(*key)) by {
                        assert(before[i as int] == *key);
                    }
                }
                return true;
            }
        }
        assert(self@ =~= old(self)@.remove(*key));
        false
    }

    /// Adds every key of another set.
    pub fn extend(&mut self, other: &KeySet<K>)
        requires
            old(self).wf(),
        ensures
            final(self).wf(),
            final(self)@ == old(self)@.union(other@),
    {
        for i in 0..other.items.len()
            invariant
                self.wf(),
                self@ == old(self)@.union(other.items@.take(i as int).to_set()),
        {
            self.insert(other.items[i].copied());
            proof {
                assert(other.items@.take(i + 1) =~= other.items@.take(i as int).push(other.items@[i as int]));
                other.items@.take(i as int).lemma_push_to_set_commute(other.items@[i as int]);
                assert(self@ =~= old(self)@.union(other.items@.take(i + 1).to_set()));
            }
        }
        assert(other.items@.take(other.items@.len() as int) =~= other.items@);
    }
}

impl<K: Key> Clone for KeySet<K> {
    fn clone(&self) -> (r: Self)
        ensures
            r.order() == self.order(),
            r@ == self@,
    {
        let mut items: Vec<K> = Vec::new();
        for i in 0..self.items.len()
            invariant
                items@ =~= self.items@.take(i as int),
        {
            items.push(self.items[i].copied());
        }
        let r = KeySet { items };
        assert(r.order() =~= self.order());
        r
    }
}

/// A map from keys to values.
#[derive(Debug)]
pub struct KeyMap<K, V> {
    keys: Vec<K>,
    values: Vec<V>,
}

impl<K, V> KeyMap<K, V> {
    /// The keys in the order in which they first came.
    pub closed spec fn order(self) -> Seq<K> {
        self.keys@
    }

    /// No key is held twice, and each has one value.
    pub closed spec fn wf(self) -> bool {
        &&& self.keys@.no_duplicates()
        &&& self.keys@.len() == self.values@.len()
    }

    /// The value that stands beside a key.
    pub closed spec fn value_of(self, key: K) -> V {
        self.values@[self.keys@.index_of(key)]
    }

    pub proof fn lemma_order(self)
        requires
            self.wf(),
        ensures
            self.order().no_duplicates(),
            self.order().to_set() == self@.dom(),
    {
        assert(self.order().to_set() =~= self@.dom());
    }
}

impl<K, V> View for KeyMap<K, V> {
    type V = Map<K, V>;

    open spec fn view(&self) -> Map<K, V> {
        Map::new(|key: K| self.order().contains(key), |key: K| self.value_of(key))
    }
}

impl<K: Key, V> KeyMap<K, V> {
    pub fn new() -> (r: Self)
        ensures
            r.wf(),
            r.order() == Seq::<K>::empty(),
            r@ == Map::<K, V>::empty(),
    {
        let r = KeyMap { keys: Vec::new(), values: Vec::new() };
        assert(r@ =~= Map::<K, V>::empty());
        r
    }

    pub fn len(&self) -> (r: usize)
        ensures
            r == self.order().len(),
    {
        self.keys.len()
    }

    fn find(&self, key: &K) -> (r: Option<usize>)
        requires
            self.wf(),
        ensures
            match r {
                Some(i) => i < self.keys@.len() && self.keys@[i as int] == *key
                    && self.keys@.index_of(*key) == i && self@.contains_key(*key),
                None => !self@.contains_key(*key),
            },
    {
        for i in 0..self.keys.len()
            invariant
                self.wf(),
                forall|j: int| 0 <= j < i ==> self.keys@[j] != *key,
        {
            if self.keys[i].same(key) {
                assert(self.keys@.contains(*key));
                return Some(i);
            }
        }
        None
    }

    pub fn contains_key(&self, key: &K) -> (r: bool)
        requires
            self.wf(),
        ensures
            r == self@.contains_key(*key),
    {
        self.find(key).is_some()
    }

    pub fn get(&self, key: &K) -> (r: Option<&V>)
        requires
            self.wf(),
        ensures
            match r {
                Some(v) => self@.contains_key(*key) && *v == self@[*key],
                None => !self@.contains_key(*key),
            },
    {
        match self.find(key) {
            Some(i) => Some(&self.values[i]),
            None => None,
        }
    }

    /// The key that came at position `i`.
    pub fn key_at(&self, i: usize) -> (r: K)
        requires
            self.wf(),
            i < self.order().len(),
        ensures
            r == self.order()[i as int],
            self@.contains_key(r),
    {
        assert(self.order().contains(self.keys@[i as int]));
        self.keys[i].copied()
    }

    /// The value of the key that came at position `i`.
    pub fn value_at(&self, i: usize) -> (r: &V)
        requires
            self.wf(),
            i < self.order().len(),
        ensures
            self@.contains_key(self.order()[i as int]),
            *r == self@[self.order()[i as int]],
    {
        proof {
            assert(self.order().contains(self.keys@[i as int]));
            let w = self.keys@.index_of(self.keys@[i as int]);
            assert(w == i);
        }
        &self.values[i]
    }

    /// Gives a key a value, in place of the one it had if it had one.
    pub fn insert(&mut self, key: K, value: V)
        requires
            old(self).wf(),
        ensures
            final(self).wf(),
            final(self)@ == old(self)@.insert(key, value),
            final(self).order() == if old(self)@.contains_key(key) {
                old(self).order()
            } else {
                old(self).order().push(key)
            },
    {
        match self.find(&key) {
            Some(i) => {
                let ghost before = *self;
                self.values[i] = value;
                proof {
                    assert(self.keys@ == before.keys@);
                    assert forall|k: K| #[trigger] self@.contains_key(k) implies self@[k] == old(self)@.insert(
                        key,
                        value,
                    )[k] by {
                        let w = self.keys@.index_of(k);
                        assert(self.keys@[w] == k);
                    }
                    assert(self@ =~= old(self)@.insert(key, value));
                }
            },
            None => {
                let ghost before = *self;
                self.keys.push(key);
                self.values.push(value);
                proof {
                    let n = before.keys@.len() as int;
                    assert(self.keys@ == before.keys@.push(key));
                    assert(!before.keys@.contains(key));
                    assert forall|k: K| #[trigger] self.keys@.contains(k) == (before.keys@.contains(k) || k
                        == key) by {
                        if before.keys@.contains(k) {
                            let w = before.keys@.index_of(k);
                            assert(self.keys@[w] == k);
                        }
                        if k == key {
                            assert(self.keys@[n] == key);
                        }
                    }
                    assert forall|k: K| #[trigger] self@.contains_key(k) implies self@[k] == old(self)@.insert(
                        key,
                        value,
                    )[k] by {
                        let w = self.keys@.index_of(k);
                        assert(self.keys@[w] == k);
                        if k != key {
                            let w0 = before.keys@.index_of(k);
                            assert(before.keys@[w0] == k);
                            assert(self.keys@[w0] == k);
                            assert(w == w0);
                        } else {
                            assert(self.keys@[n] == k);
                            assert(w == n);
                        }
                    }
                    assert(self@ =~= old(self)@.insert(key, value));
                }
            },
        }
    }

    /// Takes a key out and hands back its value, if it had one.
    pub fn remove(&mut self, key: &K) -> (r: Option<V>)
        requires
            old(self).wf(),
        ensures
            final(self).wf(),
            final(self)@ == old(self)@.remove(*key),
            match r {
                Some(v) => old(self)@.contains_key(*key) && v == old(self)@[*key],
                None => !old(self)@.contains_key(*key),
            },
    {
        match self.find(key) {
            Some(i) => {
                let ghost before = *self;
                self.keys.remove(i);
                let value = self.values.remove(i);
                proof {
                    assert(self.keys@ =~= before.keys@.remove(i as int));
                    assert(self.values@ =~= before.values@.remove(i as int));
                    assert forall|k: K| #[trigger] self.keys@.contains(k) == (before.keys@.contains(k) && k
                        != *key) by {
                        if before.keys@.contains(k) && k != *key {
                            let w = before.keys@.index_of(k);
                            assert(before.keys@[w] == k);
                            if w < i {
                                assert(self.keys@[w] == k);
                            } else {
                                assert(self.keys@[w - 1] == k);
                            }
                        }
                        if self.keys@.contains(k) {
                            let w = self.keys@.index_of(k);
                            assert(self.keys@[w] == k);
                            if w < i {
                                assert(before.keys@[w] == k);
                            } else {
                                assert(before.keys@[w + 1] == k);
                            }
                        }
                    }
                    assert forall|k: K| #[trigger] self@.contains_key(k) implies self@[k] == old(self)@.remove(*key)[k] by {
                        let w = self.keys@.index_of(k);
                        assert(self.keys@[w] == k);
                        let w0 = before.keys@.index_of(k);
                        assert(before.keys@[w0] == k);
                        if w < i {
                            assert(before.keys@[w] == k);
                            assert(w == w0);
                        } else {
                            assert(before.keys@[w + 1] == k);
                            assert(w + 1 == w0);
                        }
                    }
                    assert(self@ =~= old(self)@.remove(*key));
                }
                Some(value)
            },
            None => {
                assert(self@ =~= old(self)@.remove(*key));
                None
            },
        }
    }

    /// Takes the key out that came last, with its value.
    pub fn pop(&mut self) -> (r: Option<(K, V)>)
        requires
            old(self).wf(),
        ensures
            final(self).wf(),
            match r {
                Some((key, value)) => old(self)@.contains_key(key) && value == old(self)@[key]
                    && final(self)@ == old(self)@.remove(key) && final(self).order().len()
                    == old(self).order().len() - 1,
                None => old(self)@ == Map::<K, V>::empty() && *final(self) == *old(self),
            },
    {
        let n = self.keys.len();
        if n == 0 {
            assert(self@ =~= Map::<K, V>::empty());
            return None;
        }
        let key = self.key_at(n - 1);
        match self.remove(&key) {
            Some(value) => {
                proof {
                    old(self).lemma_order();
                    self.lemma_order();
                    old(self).order().unique_seq_to_set();
                    self.order().unique_seq_to_set();
                    assert(self@.dom() =~= old(self)@.dom().remove(key));
                    vstd::seq_lib::seq_to_set_is_finite(old(self).order());
                }
                Some((key, value))
            },
            None => None,
        }
    }

    pub fn clear(&mut self)
        ensures
            final(self).wf(),
            final(self)@ == Map::<K, V>::empty(),
    {
        self.keys.clear();
        self.values.clear();
        assert(self@ =~= Map::<K, V>::empty());
    }
}

} // verus!
