//! Tables whose keys are compared by what they stand for.
use crate::pattern::{AltKey, StarStatKey};
use crate::text::is_text;
use vstd::prelude::*;
use vstd::string::*;

verus! {

/// Values that a table can have for keys.
pub trait Key: View + Sized {
    /// Decides whether two keys stand for the same.
    fn same_key(&self, other: &Self) -> (result: bool)
        ensures
            result == (self@ == other@),
    ;
}

impl Key for String {
    fn same_key(&self, other: &String) -> (result: bool) {
        is_text(self.as_str(), other.as_str())
    }
}

impl Key for AltKey {
    fn same_key(&self, other: &AltKey) -> (result: bool) {
        self.same_as(other)
    }
}

impl Key for StarStatKey {
    fn same_key(&self, other: &StarStatKey) -> (result: bool) {
        self.same_as(other)
    }
}

impl Key for u64 {
    fn same_key(&self, other: &u64) -> (result: bool) {
        *self == *other
    }
}

impl Key for u32 {
    fn same_key(&self, other: &u32) -> (result: bool) {
        *self == *other
    }
}

/// A table: the entries in the order in which their keys came.
#[derive(Debug)]
pub struct Table<K: Key, V> {
    pub entries: Vec<(K, V)>,
}

/// Whether an entry has a key.
pub open spec fn has_key<K: Key, V>(entries: Seq<(K, V)>, key: K::V) -> bool {
    exists|i: int| 0 <= i < entries.len() && (#[trigger] entries[i]).0@ == key
}

/// What a table of entries holds.
pub open spec fn table_of<K: Key, V>(entries: Seq<(K, V)>) -> Map<K::V, V> {
    Map::new(
        |key: K::V| has_key(entries, key),
        |key: K::V|
            entries[choose|i: int| 0 <= i < entries.len() && (#[trigger] entries[i]).0@ == key].1,
    )
}

impl<K: Key, V> View for Table<K, V> {
    type V = Map<K::V, V>;

    open spec fn view(&self) -> Map<K::V, V> {
        table_of(self.entries@)
    }
}

impl<K: Key, V> Table<K, V> {
    /// No key occurs twice.
    pub open spec fn wf(self) -> bool {
        forall|i: int, j: int|
            #![trigger self.entries@[i], self.entries@[j]]
            0 <= i < j < self.entries@.len() ==> self.entries@[i].0@ != self.entries@[j].0@
    }

    /// The keys in the order in which they came.
    pub open spec fn keys(self) -> Seq<K::V> {
        self.entries@.map_values(|entry: (K, V)| entry.0@)
    }

    /// The value of an entry.
    pub proof fn lemma_entry(self, i: int)
        requires
            self.wf(),
            0 <= i < self.entries@.len(),
        ensures
            self@.contains_key(self.entries@[i].0@),
            self@[self.entries@[i].0@] == self.entries@[i].1,
    {
        let key = self.entries@[i].0@;
        let j = choose|j: int|
            0 <= j < self.entries@.len() && (#[trigger] self.entries@[j]).0@ == key;
        assert(has_key(self.entries@, key));
        if i < j {
            assert(self.entries@[i].0@ != self.entries@[j].0@);
        } else if j < i {
            assert(self.entries@[j].0@ != self.entries@[i].0@);
        }
    }

    /// The entry of a key.
    pub proof fn lemma_key(self, key: K::V) -> (i: int)
        requires
            self@.contains_key(key),
        ensures
            0 <= i < self.entries@.len(),
            self.entries@[i].0@ == key,
            self.entries@[i].1 == self@[key],
    {
        choose|i: int| 0 <= i < self.entries@.len() && (#[trigger] self.entries@[i]).0@ == key
    }

    /// An empty table.
    pub fn new() -> (result: Table<K, V>)
        ensures
            result.wf(),
            result.entries@.len() == 0,
            result@ == Map::<K::V, V>::empty(),
    {
        let result = Table { entries: Vec::new() };
        assert(result@ =~= Map::empty());
        result
    }

    /// Where a key is.
    pub fn position(&self, key: &K) -> (result: Option<usize>)
        ensures
            match result {
                Some(i) => i < self.entries@.len() && self.entries@[i as int].0@ == key@
                    && self@.contains_key(key@) && (self.wf() ==> self@[key@]
                    == self.entries@[i as int].1),
                None => !self@.contains_key(key@),
            },
    {
        let mut i: usize = 0;
        while i < self.entries.len()
            invariant
                i <= self.entries@.len(),
                forall|j: int| 0 <= j < i ==> (#[trigger] self.entries@[j]).0@ != key@,
            decreases self.entries.len() - i,
        {
            if self.entries[i].0.same_key(key) {
                assert(has_key(self.entries@, key@));
                proof {
                    if self.wf() {
                        self.lemma_entry(i as int);
                    }
                }
                return Some(i);
            }
            i = i + 1;
        }
        None
    }

    /// The value of a key.
    pub fn get(&self, key: &K) -> (result: Option<&V>)
        requires
            self.wf(),
        ensures
            match result {
                Some(value) => self@.contains_key(key@) && *value == self@[key@],
                None => !self@.contains_key(key@),
            },
    {
        match self.position(key) {
            Some(i) => Some(&self.entries[i].1),
            None => None,
        }
    }

    /// Whether there is a value for a key.
    pub fn contains_key(&self, key: &K) -> (result: bool)
        ensures
            result == self@.contains_key(key@),
    {
        self.position(key).is_some()
    }

    /// How many entries there are.
    pub fn len(&self) -> (result: usize)
        ensures
            result == self.entries@.len(),
    {
        self.entries.len()
    }

    /// Puts another value where an entry is.
    pub fn replace(&mut self, i: usize, value: V)
        requires
            old(self).wf(),
            i < old(self).entries@.len(),
        ensures
            final(self).wf(),
            final(self).keys() == old(self).keys(),
            final(self)@ == old(self)@.insert(old(self).entries@[i as int].0@, value),
            final(self).entries@.len() == old(self).entries@.len(),
            forall|j: int|
                #![trigger final(self).entries@[j]]
                0 <= j < final(self).entries@.len() ==> final(self).entries@[j].0
                    == old(self).entries@[j].0 && final(self).entries@[j].1 == (if j == i {
                    value
                } else {
                    old(self).entries@[j].1
                }),
    {
        self.entries[i].1 = value;
        proof {
            lemma_replaced(*old(self), *self, i as int, value);
        }
    }

    /// Takes the value of an entry, and leaves another one.
    pub fn exchange(&mut self, i: usize, value: V) -> (result: V)
        requires
            old(self).wf(),
            i < old(self).entries@.len(),
        ensures
            final(self).wf(),
            final(self).keys() == old(self).keys(),
            final(self)@ == old(self)@.insert(old(self).entries@[i as int].0@, value),
            final(self).entries@.len() == old(self).entries@.len(),
            forall|j: int|
                #![trigger final(self).entries@[j]]
                0 <= j < final(self).entries@.len() ==> final(self).entries@[j].0
                    == old(self).entries@[j].0 && final(self).entries@[j].1 == (if j == i {
                    value
                } else {
                    old(self).entries@[j].1
                }),
            result == old(self).entries@[i as int].1,
    {
        let mut result = value;
        std::mem::swap(&mut result, &mut self.entries[i].1);
        proof {
            lemma_replaced(*old(self), *self, i as int, value);
        }
        result
    }

    /// Gives a key a value, in place of the one it has.
    pub fn insert(&mut self, key: K, value: V)
        requires
            old(self).wf(),
        ensures
            final(self).wf(),
            final(self)@ == old(self)@.insert(key@, value),
            final(self).keys() == (if old(self)@.contains_key(key@) {
                old(self).keys()
            } else {
                old(self).keys().push(key@)
            }),
    {
        match self.position(&key) {
            Some(i) => {
                self.replace(i, value);
            },
            None => {
                self.append(key, value);
            },
        }
    }

    /// Gives a new key a value.
    pub fn append(&mut self, key: K, value: V)
        requires
            old(self).wf(),
            !old(self)@.contains_key(key@),
        ensures
            final(self).wf(),
            final(self)@ == old(self)@.insert(key@, value),
            final(self).keys() == old(self).keys().push(key@),
            final(self).entries@ == old(self).entries@.push((key, value)),
    {
        self.entries.push((key, value));
        proof {
            lemma_pushed(*old(self), *self, key, value);
        }
    }
}

proof fn lemma_replaced<K: Key, V>(before: Table<K, V>, after: Table<K, V>, i: int, value: V)
    requires
        before.wf(),
        0 <= i < before.entries@.len(),
        after.entries@ == before.entries@.update(i, (before.entries@[i].0, value)),
    ensures
        after.wf(),
        after.keys() == before.keys(),
        after@ == before@.insert(before.entries@[i].0@, value),
{
    let key = before.entries@[i].0@;
    assert forall|a: int, b: int|
        #![trigger after.entries@[a], after.entries@[b]]
        0 <= a < b < after.entries@.len() implies after.entries@[a].0@ != after.entries@[b].0@ by {
        assert(before.entries@[a].0@ != before.entries@[b].0@);
    }
    assert(after.keys() =~= before.keys());
    assert forall|k: K::V| #[trigger] after@.contains_key(k) <==> before@.insert(
        key,
        value,
    ).contains_key(k) by {
        if after@.contains_key(k) {
            let j = after.lemma_key(k);
            assert(before.entries@[j].0@ == k);
        }
        if before@.contains_key(k) {
            let j = before.lemma_key(k);
            assert(after.entries@[j].0@ == k);
        }
        if k == key {
            assert(after.entries@[i].0@ == k);
        }
    }
    assert forall|k: K::V| after@.contains_key(k) implies #[trigger] after@[k] == before@.insert(
        key,
        value,
    )[k] by {
        let j = after.lemma_key(k);
        before.lemma_entry(j);
        if j != i {
            if j < i {
                assert(before.entries@[j].0@ != before.entries@[i].0@);
            } else {
                assert(before.entries@[i].0@ != before.entries@[j].0@);
            }
        }
    }
    assert(after@ =~= before@.insert(key, value));
}

proof fn lemma_pushed<K: Key, V>(before: Table<K, V>, after: Table<K, V>, key: K, value: V)
    requires
        before.wf(),
        !before@.contains_key(key@),
        after.entries@ == before.entries@.push((key, value)),
    ensures
        after.wf(),
        after.keys() == before.keys().push(key@),
        after@ == before@.insert(key@, value),
{
    let n = before.entries@.len() as int;
    assert forall|a: int, b: int|
        #![trigger after.entries@[a], after.entries@[b]]
        0 <= a < b < after.entries@.len() implies after.entries@[a].0@ != after.entries@[b].0@ by {
        if b < n {
            assert(before.entries@[a].0@ != before.entries@[b].0@);
        } else {
            before.lemma_entry(a);
        }
    }
    assert(after.keys() =~= before.keys().push(key@));
    assert forall|k: K::V| #[trigger] after@.contains_key(k) <==> before@.insert(
        key@,
        value,
    ).contains_key(k) by {
        if after@.contains_key(k) {
            let j = after.lemma_key(k);
            if j < n {
                assert(before.entries@[j].0@ == k);
            }
        }
        if before@.contains_key(k) {
            let j = before.lemma_key(k);
            assert(after.entries@[j].0@ == k);
        }
        if k == key@ {
            assert(after.entries@[n].0@ == k);
        }
    }
    assert forall|k: K::V| after@.contains_key(k) implies #[trigger] after@[k] == before@.insert(
        key@,
        value,
    )[k] by {
        let j = after.lemma_key(k);
        if j < n {
            before.lemma_entry(j);
        } else {
            assert(k == key@);
        }
    }
    assert(after@ =~= before@.insert(key@, value));
}

} // verus!
