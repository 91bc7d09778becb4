//! A small map from strings to values that remembers the order of insertion.
use vstd::prelude::*;

verus! {

/// The elements of `v`, the last one first.
pub fn last_first<T>(v: Vec<T>) -> (r: Vec<T>)
    ensures
        r@ == v@.reverse(),
{
    let mut v = v;
    let mut r: Vec<T> = Vec::new();
    let ghost all = v@;
    while v.len() > 0
        invariant
            v.len() + r.len() == all.len(),
            forall|i: int| 0 <= i < v.len() ==> v@[i] == all[i],
            forall|i: int| 0 <= i < r.len() ==> r@[i] == all[all.len() - 1 - i],
        decreases v.len(),
    {
        match v.pop() {
            Some(x) => {
                r.push(x);
            },
            None => {},
        }
    }
    assert(r@ =~= all.reverse());
    r
}

/// A map keyed by strings. No key occurs twice, and keys stay in the order in
/// which they were first inserted.
pub struct Table<V> {
    keys: Vec<String>,
    values: Vec<V>,
}

impl<V> Table<V> {
    /// The keys, in order of insertion.
    pub closed spec fn keys(&self) -> Seq<Seq<char>> {
        Seq::new(self.keys.len() as nat, |i: int| self.keys[i]@)
    }

    /// The values, each at the position of its key.
    pub closed spec fn values(&self) -> Seq<V> {
        self.values@
    }

    /// No key occurs twice, and every key has its value.
    pub open spec fn wf(&self) -> bool {
        &&& self.keys().len() == self.values().len()
        &&& forall|i: int, j: int|
            0 <= i < j < self.keys().len() ==> self.keys()[i] != self.keys()[j]
    }

    /// Position of `key`, or `-1` when it is absent.
    pub open spec fn index_of(&self, key: Seq<char>) -> int {
        if self.keys().contains(key) {
            self.keys().index_of(key)
        } else {
            -1
        }
    }

    /// Whether `key` is a key of the table.
    pub open spec fn contains(&self, key: Seq<char>) -> bool {
        self.keys().contains(key)
    }

    /// The value stored under `key`; meaningful when `contains(key)`.
    pub open spec fn value_of(&self, key: Seq<char>) -> V {
        self.values()[self.keys().index_of(key)]
    }

    /// Number of keys.
    pub open spec fn spec_len(&self) -> nat {
        self.keys().len()
    }

    /// A table without keys.
    pub fn new() -> (t: Self)
        ensures
            t.wf(),
            t.keys() == Seq::<Seq<char>>::empty(),
            t.values() == Seq::<V>::empty(),
    {
        let t = Table { keys: Vec::new(), values: Vec::new() };
        assert(t.keys() =~= Seq::<Seq<char>>::empty());
        t
    }

    /// Number of keys.
    pub fn len(&self) -> (n: usize)
        requires
            self.wf(),
        ensures
            n == self.spec_len(),
    {
        self.keys.len()
    }

    /// Position of `key` among the keys.
    pub fn position(&self, key: &str) -> (r: Option<usize>)
        requires
            self.wf(),
        ensures
            match r {
                Some(i) => i < self.keys().len() && self.keys()[i as int] == key@,
                None => !self.contains(key@),
            },
    {
        let owned = key.to_owned();
        let mut i: usize = 0;
        while i < self.keys.len()
            invariant
                i <= self.keys.len(),
                owned@ == key@,
                forall|j: int| 0 <= j < i ==> self.keys()[j] != key@,
            decreases self.keys.len() - i,
        {
            if self.keys[i] == owned {
                return Some(i);
            }
            i += 1;
        }
        None
    }

    /// Whether `key` is a key of the table.
    pub fn contains_key(&self, key: &str) -> (r: bool)
        requires
            self.wf(),
        ensures
            r == self.contains(key@),
    {
        self.position(key).is_some()
    }

    /// The value stored under `key`.
    pub fn get(&self, key: &str) -> (r: Option<&V>)
        requires
            self.wf(),
        ensures
            match r {
                Some(v) => self.contains(key@) && *v == self.value_of(key@),
                None => !self.contains(key@),
            },
    {
        match self.position(key) {
            Some(i) => {
                proof {
                    self.lemma_index_of(i as int);
                }
                Some(&self.values[i])
            },
            None => None,
        }
    }

    /// The key at position `i`.
    pub fn key_at(&self, i: usize) -> (k: &String)
        requires
            self.wf(),
            i < self.spec_len(),
        ensures
            k@ == self.keys()[i as int],
    {
        &self.keys[i]
    }

    /// The value at position `i`.
    pub fn value_at(&self, i: usize) -> (v: &V)
        requires
            self.wf(),
            i < self.spec_len(),
        ensures
            *v == self.values()[i as int],
    {
        &self.values[i]
    }

    /// Stores `value` under `key`. A key that is present keeps its position and
    /// gets the new value; a new key goes to the end.
    pub fn insert(&mut self, key: String, value: V) -> (old_value: Option<V>)
        requires
            old(self).wf(),
        ensures
            final(self).wf(),
            old(self).contains(key@) ==> {
                &&& old_value == Some(old(self).value_of(key@))
                &&& final(self).keys() == old(self).keys()
                &&& final(self).values() == old(self).values().update(
                    old(self).index_of(key@),
                    value,
                )
            },
            !old(self).contains(key@) ==> {
                &&& old_value is None
                &&& final(self).keys() == old(self).keys().push(key@)
                &&& final(self).values() == old(self).values().push(value)
            },
            final(self).contains(key@),
            final(self).value_of(key@) == value,
            forall|other: Seq<char>|
                other != key@ ==> final(self).contains(other) == old(self).contains(other),
            forall|other: Seq<char>|
                other != key@ && old(self).contains(other) ==> final(self).value_of(other)
                    == old(self).value_of(other),
            final(self).spec_len() == if old(self).contains(key@) {
                old(self).spec_len()
            } else {
                old(self).spec_len() + 1
            },
    {
        match self.position(key.as_str()) {
            Some(i) => {
                proof {
                    self.lemma_index_of(i as int);
                }
                let mut slot = value;
                std::mem::swap(&mut self.values[i], &mut slot);
                proof {
                    assert(self.keys() =~= old(self).keys());
                    lemma_inserted(*old(self), *self, key@, value);
                }
                Some(slot)
            },
            None => {
                self.keys.push(key);
                self.values.push(value);
                proof {
                    assert(self.keys() =~= old(self).keys().push(key@));
                    lemma_inserted(*old(self), *self, key@, value);
                }
                None
            },
        }
    }

    /// A table of the keys of `keys` with the values of `values`, position by
    /// position.
    pub fn with_keys_of<K>(keys: &Table<K>, values: Vec<V>) -> (t: Self)
        requires
            keys.wf(),
            values.len() == keys.spec_len(),
        ensures
            t.wf(),
            t.keys() == keys.keys(),
            t.values() == values@,
    {
        let ghost all = values@;
        let mut last_first = last_first(values);
        let mut t: Table<V> = Table::new();
        let n = keys.len();
        let mut i: usize = 0;
        while i < n
            invariant
                keys.wf(),
                t.wf(),
                n == keys.spec_len(),
                n == all.len(),
                i <= n,
                last_first.len() == n - i,
                forall|j: int|
                    0 <= j < last_first.len() ==> last_first@[j] == all[all.len() - 1 - j],
                t.keys() == keys.keys().take(i as int),
                t.values() == all.take(i as int),
            decreases n - i,
        {
            let key = keys.key_at(i).clone();
            proof {
                keys.lemma_index_of(i as int);
                assert(!t.contains(key@)) by {
                    if t.keys().contains(key@) {
                        let j = t.keys().index_of(key@);
                        assert(keys.keys()[j] == keys.keys()[i as int]);
                    }
                }
                assert(keys.keys().take(i as int + 1) == keys.keys().take(i as int).push(
                    keys.keys()[i as int],
                ));
                assert(all.take(i as int + 1) == all.take(i as int).push(all[i as int]));
            }
            match last_first.pop() {
                Some(v) => {
                    t.insert(key, v);
                },
                None => {},
            }
            i += 1;
        }
        proof {
            assert(keys.keys().take(n as int) == keys.keys());
            assert(all.take(n as int) == all);
        }
        t
    }

    /// The keys, as strings of their own.
    pub fn key_list(&self) -> (list: Vec<String>)
        requires
            self.wf(),
        ensures
            list@.len() == self.spec_len(),
            forall|i: int| 0 <= i < list@.len() ==> (#[trigger] list@[i])@ == self.keys()[i],
    {
        let mut list: Vec<String> = Vec::new();
        let n = self.keys.len();
        let mut i: usize = 0;
        while i < n
            invariant
                n == self.keys.len(),
                i <= n,
                list@.len() == i,
                forall|j: int| 0 <= j < i ==> (#[trigger] list@[j])@ == self.keys()[j],
            decreases n - i,
        {
            list.push(self.keys[i].clone());
            i += 1;
        }
        list
    }

    /// In a well-formed table a key is found at its own position.
    pub proof fn lemma_index_of(&self, i: int)
        requires
            self.wf(),
            0 <= i < self.keys().len(),
        ensures
            self.contains(self.keys()[i]),
            self.index_of(self.keys()[i]) == i,
            self.value_of(self.keys()[i]) == self.values()[i],
    {
        let k = self.keys()[i];
        assert(self.keys().contains(k));
        let j = self.keys().index_of(k);
        assert(0 <= j < self.keys().len() && self.keys()[j] == k);
        if j < i {
            assert(self.keys()[j] != self.keys()[i]);
        } else if i < j {
            assert(self.keys()[i] != self.keys()[j]);
        }
    }
}

/// What `insert` means for the keys and the values of a table.
pub proof fn lemma_inserted<V>(before: Table<V>, after: Table<V>, key: Seq<char>, value: V)
    requires
        before.wf(),
        after.wf(),
        before.contains(key) ==> after.keys() == before.keys() && after.values()
            == before.values().update(before.index_of(key), value),
        !before.contains(key) ==> after.keys() == before.keys().push(key) && after.values()
            == before.values().push(value),
    ensures
        after.contains(key),
        after.value_of(key) == value,
        forall|other: Seq<char>| other != key ==> after.contains(other) == before.contains(other),
        forall|other: Seq<char>|
            other != key && before.contains(other) ==> after.value_of(other) == before.value_of(
                other,
            ),
        after.spec_len() == if before.contains(key) {
            before.spec_len()
        } else {
            before.spec_len() + 1
        },
{
    if before.contains(key) {
        let at = before.index_of(key);
        assert(after.keys()[at] == key);
        after.lemma_index_of(at);
        assert forall|other: Seq<char>|
            other != key && before.contains(other) implies after.value_of(other)
            == before.value_of(other) by {
            let j = before.keys().index_of(other);
            assert(j != at);
        }
    } else {
        assert(after.keys()[before.keys().len() as int] == key);
        after.lemma_index_of(before.keys().len() as int);
        assert forall|other: Seq<char>| other != key implies after.contains(other)
            == before.contains(other) by {
            vstd::seq_lib::lemma_seq_contains_after_push(before.keys(), key, other);
        }
        assert forall|other: Seq<char>|
            other != key && before.contains(other) implies after.value_of(other)
            == before.value_of(other) by {
            let j = before.keys().index_of(other);
            assert(after.keys()[j] == other);
            after.lemma_index_of(j);
        }
    }
}

} // verus!
