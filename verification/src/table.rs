//! Small tables that remember the order in which keys came.
use crate::types::Key;
use vstd::prelude::*;

verus! {

/// Values by key. No key occurs twice.
pub struct Table<K, V> {
    entries: Vec<(K, V)>,
}

/// Whether a list has an entry for a key.
pub open spec fn has_key<K, V>(entries: Seq<(K, V)>, key: K) -> bool {
    exists|i: int| 0 <= i < entries.len() && (#[trigger] entries[i]).0 == key
}

/// Where a list has its entry for a key.
pub open spec fn key_index<K, V>(entries: Seq<(K, V)>, key: K) -> int {
    choose|i: int| 0 <= i < entries.len() && (#[trigger] entries[i]).0 == key
}

/// Whether no key occurs twice in a list.
pub open spec fn keys_differ<K, V>(entries: Seq<(K, V)>) -> bool {
    forall|i: int, j: int|
        0 <= i < entries.len() && 0 <= j < entries.len() && i != j ==> (#[trigger] entries[i]).0
            != (#[trigger] entries[j]).0
}

/// The map that a list of entries stands for.
pub open spec fn map_of<K, V>(entries: Seq<(K, V)>) -> Map<K, V> {
    Map::new(|key: K| has_key(entries, key), |key: K| entries[key_index(entries, key)].1)
}

/// The entries of a map whose values are at most `limit`.
pub open spec fn up_to<K>(map: Map<K, u64>, limit: u64) -> Map<K, u64> {
    Map::new(|key: K| map.contains_key(key) && map[key] <= limit, |key: K| map[key])
}

impl<K, V> Table<K, V> {
    /// The entries in order.
    pub closed spec fn entries(self) -> Seq<(K, V)> {
        self.entries@
    }

    /// No key occurs twice.
    pub open spec fn valid(self) -> bool {
        keys_differ(self.entries())
    }

    /// The map that the table stands for.
    pub open spec fn map(self) -> Map<K, V> {
        map_of(self.entries())
    }

    /// A table without entries.
    pub fn new() -> (table: Self)
        ensures
            table.valid(),
            table.entries() == Seq::<(K, V)>::empty(),
            table.map() == Map::<K, V>::empty(),
    {
        let table = Table { entries: Vec::new() };
        assert(table.map() =~= Map::<K, V>::empty());
        table
    }

    /// The number of entries.
    pub fn len(&self) -> (len: usize)
        ensures
            len == self.entries().len(),
    {
        self.entries.len()
    }
}

impl<K: Key, V: Copy> Table<K, V> {
    /// The entry at a place in the order.
    pub fn entry(&self, i: usize) -> (entry: (K, V))
        requires
            i < self.entries().len(),
        ensures
            entry == self.entries()[i as int],
    {
        self.entries[i]
    }

    /// A table with the same entries.
    pub fn copy(&self) -> (table: Self)
        ensures
            table.entries() == self.entries(),
    {
        let mut entries: Vec<(K, V)> = Vec::new();
        let mut i: usize = 0;
        while i < self.entries.len()
            invariant
                i <= self.entries@.len(),
                entries@ == self.entries@.take(i as int),
            decreases self.entries@.len() - i,
        {
            let entry = self.entries[i];
            entries.push(entry);
            i = i + 1;
        }
        assert(entries@ =~= self.entries@);
        Table { entries }
    }

    /// The value for a key.
    pub fn get(&self, key: &K) -> (value: Option<V>)
        requires
            self.valid(),
        ensures
            value == self.map().get(*key),
    {
        let mut i: usize = 0;
        while i < self.entries.len()
            invariant
                i <= self.entries@.len(),
                keys_differ(self.entries@),
                forall|j: int| 0 <= j < i ==> (#[trigger] self.entries@[j]).0 != *key,
            decreases self.entries@.len() - i,
        {
            if self.entries[i].0.same(key) {
                proof {
                    lemma_index(self.entries@, i as int);
                }
                return Some(self.entries[i].1);
            }
            i = i + 1;
        }
        None
    }

    /// Sets the value for a key.
    pub fn insert(&mut self, key: K, value: V)
        requires
            old(self).valid(),
        ensures
            final(self).valid(),
            final(self).map() == old(self).map().insert(key, value),
    {
        let ghost before = self.entries@;
        let mut i: usize = 0;
        while i < self.entries.len()
            invariant
                i <= self.entries@.len(),
                self.entries@ == before,
                keys_differ(before),
                before == old(self).entries@,
                forall|j: int| 0 <= j < i ==> (#[trigger] before[j]).0 != key,
            decreases self.entries@.len() - i,
        {
            if self.entries[i].0.same(&key) {
                self.entries.set(i, (key, value));
                proof {
                    lemma_update(before, i as int, key, value);
                }
                return;
            }
            i = i + 1;
        }
        self.entries.push((key, value));
        proof {
            lemma_push(before, key, value);
        }
    }
}

impl<K: Key> Table<K, u64> {
    /// Drops the entries whose value is above `limit`.
    pub fn keep_up_to(&mut self, limit: u64)
        requires
            old(self).valid(),
        ensures
            final(self).valid(),
            final(self).map() == up_to(old(self).map(), limit),
    {
        let ghost before = self.entries@;
        let mut kept: Vec<(K, u64)> = Vec::new();
        let mut i: usize = 0;
        proof {
            assert(up_to(map_of(before.take(0)), limit) =~= map_of(kept@));
        }
        while i < self.entries.len()
            invariant
                i <= self.entries@.len(),
                self.entries@ == before,
                keys_differ(before),
                keys_differ(kept@),
                map_of(kept@) == up_to(map_of(before.take(i as int)), limit),
            decreases self.entries@.len() - i,
        {
            let entry = self.entries[i];
            proof {
                let now = before.take(i as int);
                assert(before.take(i + 1) =~= now.push(entry));
                assert(!has_key(now, entry.0)) by {
                    if has_key(now, entry.0) {
                        assert(before[key_index(now, entry.0)].0 == before[i as int].0);
                    }
                }
                assert(keys_differ(now)) by {
                    assert forall|a: int, b: int|
                        0 <= a < now.len() && 0 <= b < now.len() && a != b implies (
                    #[trigger] now[a]).0 != (#[trigger] now[b]).0 by {
                        assert(before[a].0 != before[b].0);
                    }
                }
                lemma_push(now, entry.0, entry.1);
                assert(!has_key(kept@, entry.0)) by {
                    assert(!map_of(kept@).contains_key(entry.0));
                }
                lemma_push(kept@, entry.0, entry.1);
                if entry.1 <= limit {
                    assert(up_to(map_of(now.push(entry)), limit) =~= map_of(kept@).insert(
                        entry.0,
                        entry.1,
                    ));
                } else {
                    assert(up_to(map_of(now.push(entry)), limit) =~= map_of(kept@));
                }
            }
            if entry.1 <= limit {
                kept.push(entry);
            }
            i = i + 1;
        }
        proof {
            assert(before.take(before.len() as int) =~= before);
        }
        self.entries = kept;
    }
}

proof fn lemma_index<K, V>(entries: Seq<(K, V)>, i: int)
    requires
        keys_differ(entries),
        0 <= i < entries.len(),
    ensures
        key_index(entries, entries[i].0) == i,
        map_of(entries).contains_key(entries[i].0),
        map_of(entries)[entries[i].0] == entries[i].1,
{
    let found = key_index(entries, entries[i].0);
    assert(has_key(entries, entries[i].0));
    assert(entries[found].0 == entries[i].0);
}

proof fn lemma_push<K, V>(entries: Seq<(K, V)>, key: K, value: V)
    requires
        keys_differ(entries),
        !has_key(entries, key),
    ensures
        keys_differ(entries.push((key, value))),
        map_of(entries.push((key, value))) == map_of(entries).insert(key, value),
{
    let after = entries.push((key, value));
    assert forall|i: int, j: int|
        0 <= i < after.len() && 0 <= j < after.len() && i != j implies (#[trigger] after[i]).0 != (
    #[trigger] after[j]).0 by {
        if i < entries.len() && j < entries.len() {
            assert(entries[i].0 != entries[j].0);
        } else if i < entries.len() {
            assert(entries[i].0 != key);
        } else {
            assert(entries[j].0 != key);
        }
    }
    assert forall|k: K| map_of(after).contains_key(k) == map_of(entries).insert(
        key,
        value,
    ).contains_key(k) by {
        if has_key(entries, k) {
            let i = key_index(entries, k);
            assert(after[i].0 == k);
        }
        if has_key(after, k) {
            let i = key_index(after, k);
            if i < entries.len() {
                assert(entries[i].0 == k);
            }
        }
        assert(after[entries.len() as int].0 == key);
    }
    assert forall|k: K| #[trigger] map_of(after).contains_key(k) implies map_of(after)[k] == map_of(
        entries,
    ).insert(key, value)[k] by {
        if k == key {
            lemma_index(after, entries.len() as int);
        } else {
            let i = key_index(after, k);
            assert(after[i].0 == k);
            assert(entries[i].0 == k);
            lemma_index(after, i);
            lemma_index(entries, i);
        }
    }
    assert(map_of(after) =~= map_of(entries).insert(key, value));
}

proof fn lemma_update<K, V>(entries: Seq<(K, V)>, at: int, key: K, value: V)
    requires
        keys_differ(entries),
        0 <= at < entries.len(),
        entries[at].0 == key,
    ensures
        keys_differ(entries.update(at, (key, value))),
        map_of(entries.update(at, (key, value))) == map_of(entries).insert(key, value),
{
    let after = entries.update(at, (key, value));
    assert(forall|i: int| 0 <= i < entries.len() ==> (#[trigger] after[i]).0 == entries[i].0);
    assert forall|i: int, j: int|
        0 <= i < after.len() && 0 <= j < after.len() && i != j implies (#[trigger] after[i]).0 != (
    #[trigger] after[j]).0 by {
        assert(entries[i].0 != entries[j].0);
    }
    assert forall|k: K| map_of(after).contains_key(k) == map_of(entries).insert(
        key,
        value,
    ).contains_key(k) by {
        if has_key(entries, k) {
            let i = key_index(entries, k);
            assert(after[i].0 == k);
        }
        if has_key(after, k) {
            let i = key_index(after, k);
            assert(entries[i].0 == k);
        }
        assert(after[at].0 == key);
    }
    assert forall|k: K| #[trigger] map_of(after).contains_key(k) implies map_of(after)[k] == map_of(
        entries,
    ).insert(key, value)[k] by {
        let i = key_index(after, k);
        assert(after[i].0 == k);
        assert(entries[i].0 == k);
        lemma_index(after, i);
        lemma_index(entries, i);
        lemma_index(after, at);
    }
    assert(map_of(after) =~= map_of(entries).insert(key, value));
}

} // verus!
