//! A map from keys to values that keeps the order of insertion.

use crate::types::config::Key;
use vstd::prelude::*;

verus! {

/// A finite mapping from [`Key`] to `V`, kept as a list of entries in the
/// order in which their keys were first inserted. No two entries carry the
/// same key.
#[derive(Debug)]
pub struct KeyMap<V> {
    entries: Vec<(Key, V)>,
}

impl<V: View> View for KeyMap<V> {
    type V = Map<Seq<char>, V::V>;

    /// The mapping from each name to the view of its value.
    open spec fn view(&self) -> Map<Seq<char>, V::V> {
        Map::new(|name: Seq<char>| self.has(name), |name: Seq<char>| self.value_of(name)@)
    }
}

/// The names that a list of entries carries, in order.
pub open spec fn names_of<V>(entries: Seq<(Key, V)>) -> Seq<Seq<char>> {
    Seq::new(entries.len(), |i: int| entries[i].0@)
}

/// The values that a list of entries carries, in order.
pub open spec fn values_of<V>(entries: Seq<(Key, V)>) -> Seq<V> {
    Seq::new(entries.len(), |i: int| entries[i].1)
}

impl<V> KeyMap<V> {
    #[verifier::type_invariant]
    spec fn names_are_unique(&self) -> bool {
        names_of(self.entries@).no_duplicates()
    }

    /// The entries, in insertion order.
    pub closed spec fn entries(&self) -> Seq<(Key, V)> {
        self.entries@
    }

    /// The keys' names, in insertion order.
    pub open spec fn names(&self) -> Seq<Seq<char>> {
        names_of(self.entries())
    }

    /// The values, each at the index of its key.
    pub open spec fn values(&self) -> Seq<V> {
        values_of(self.entries())
    }

    /// Whether some entry is named `name`.
    pub open spec fn has(&self, name: Seq<char>) -> bool {
        self.names().contains(name)
    }

    /// The value stored under `name`, for a name that the map has.
    pub open spec fn value_of(&self, name: Seq<char>) -> V {
        self.values()[self.names().index_of(name)]
    }

    /// Costs nothing at run time: it tells the caller's proof that every name
    /// occurs at one index only.
    pub fn names_unique(&self)
        ensures
            self.names().no_duplicates(),
    {
        proof {
            use_type_invariant(self);
        }
    }

    /// The list of entries is structurally smaller than the map that holds
    /// it, so that a definition may descend through a map into its values.
    pub proof fn lemma_entries_decrease(&self)
        ensures
            decreases_to!(self => self.entries()),
    {
    }

    /// The map without entries.
    pub fn new() -> (map: Self)
        ensures
            map.entries().len() == 0,
    {
        KeyMap { entries: Vec::new() }
    }

    /// The number of entries.
    pub fn len(&self) -> (n: usize)
        ensures
            n == self.entries().len(),
    {
        self.entries.len()
    }

    /// The key of the entry at index `i`.
    pub fn key_at(&self, i: usize) -> (key: &Key)
        requires
            i < self.entries().len(),
        ensures
            *key == self.entries()[i as int].0,
            key@ == self.names()[i as int],
            self.has(key@),
    {
        &self.entries[i].0
    }

    /// The value of the entry at index `i`.
    pub fn value_at(&self, i: usize) -> (value: &V)
        requires
            i < self.entries().len(),
        ensures
            *value == self.entries()[i as int].1,
            *value == self.values()[i as int],
            *value == self.value_of(self.names()[i as int]),
    {
        proof {
            use_type_invariant(self);
        }
        &self.entries[i].1
    }

    /// Gives the entries up, in insertion order.
    pub fn into_entries(self) -> (entries: Vec<(Key, V)>)
        ensures
            entries@ == self.entries(),
            names_of(entries@).no_duplicates(),
    {
        proof {
            use_type_invariant(&self);
        }
        self.entries
    }

    /// The index of the entry whose key has the name of `key`, if there is one.
    pub fn position(&self, key: &Key) -> (found: Option<usize>)
        ensures
            match found {
                Some(i) => i < self.names().len() && self.names()[i as int] == key@,
                None => !self.has(key@),
            },
    {
        let mut i: usize = 0;
        while i < self.entries.len()
            invariant
                i <= self.entries@.len(),
                forall|j: int| 0 <= j < i ==> self.names()[j] != key@,
            decreases self.entries@.len() - i,
        {
            if self.entries[i].0 == *key {
                return Some(i);
            }
            i += 1;
        }
        None
    }

    /// The value stored under `key`, if there is one.
    pub fn get(&self, key: &Key) -> (value: Option<&V>)
        ensures
            match value {
                Some(v) => self.has(key@) && *v == self.value_of(key@),
                None => !self.has(key@),
            },
    {
        match self.position(key) {
            Some(i) => {
                proof {
                    use_type_invariant(self);
                }
                Some(&self.entries[i].1)
            },
            None => None,
        }
    }

    /// Stores `value` under `key`. A key that the map does not have yet is
    /// appended; for one that it has, the value is replaced in place and the
    /// earlier value is handed back.
    pub fn insert(&mut self, key: Key, value: V) -> (previous: Option<V>)
        ensures
            forall|name: Seq<char>| final(self).has(name) <==> old(self).has(name) || name == key@,
            final(self).value_of(key@) == value,
            forall|name: Seq<char>|
                old(self).has(name) && name != key@ ==> final(self).value_of(name) == old(
                    self,
                ).value_of(name),
            old(self).has(key@) ==> {
                &&& final(self).names() == old(self).names()
                &&& final(self).values() == old(self).values().update(
                    old(self).names().index_of(key@),
                    value,
                )
                &&& previous == Some(old(self).value_of(key@))
            },
            !old(self).has(key@) ==> {
                &&& final(self).names() == old(self).names().push(key@)
                &&& final(self).values() == old(self).values().push(value)
                &&& previous is None
            },
    {
        proof {
            use_type_invariant(&*self);
        }
        let found = self.position(&key);
        let mut taken = KeyMap::new();
        std::mem::swap(self, &mut taken);
        let KeyMap { entries: mut entries } = taken;
        let previous = match found {
            Some(i) => Some(replace_at(&mut entries, i, key, value)),
            None => {
                append(&mut entries, key, value);
                None
            },
        };
        *self = KeyMap { entries };
        proof {
            let before = old(self).names();
            let after = self.names();
            assert forall|name: Seq<char>| self.has(name) <==> old(self).has(name) || name
                == key@ by {
                if old(self).has(name) {
                    let j = before.index_of(name);
                    assert(after[j] == name);
                }
                if name == key@ {
                    match found {
                        Some(i) => assert(after[i as int] == name),
                        None => assert(after[before.len() as int] == name),
                    }
                }
                if self.has(name) && name != key@ {
                    let j = after.index_of(name);
                    assert(before[j] == name);
                }
            }
            match found {
                Some(i) => lemma_index_of_unique(after, i as int),
                None => lemma_index_of_unique(after, before.len() as int),
            }
            assert forall|name: Seq<char>| old(self).has(name) && name != key@ implies self.value_of(
                name,
            ) == old(self).value_of(name) by {
                let j = before.index_of(name);
                assert(after[j] == name);
                lemma_index_of_unique(after, j);
            }
        }
        previous
    }
}

/// In a list without repeats, the index of the item at `i` is `i`.
pub proof fn lemma_index_of_unique(names: Seq<Seq<char>>, i: int)
    requires
        names.no_duplicates(),
        0 <= i < names.len(),
    ensures
        names.contains(names[i]),
        names.index_of(names[i]) == i,
{
}

/// Puts `(key, value)` in the place of the entry at index `i`, which is handed
/// back without its key.
fn replace_at<V>(entries: &mut Vec<(Key, V)>, i: usize, key: Key, value: V) -> (previous: V)
    requires
        i < old(entries)@.len(),
        old(entries)@[i as int].0@ == key@,
    ensures
        names_of(final(entries)@) == names_of(old(entries)@),
        values_of(final(entries)@) == values_of(old(entries)@).update(i as int, value),
        previous == old(entries)@[i as int].1,
{
    entries.push((key, value));
    let replaced = entries.swap_remove(i);
    assert(names_of(entries@) =~= names_of(old(entries)@));
    assert(values_of(entries@) =~= values_of(old(entries)@).update(i as int, value));
    replaced.1
}

/// Adds `(key, value)` behind the last entry.
fn append<V>(entries: &mut Vec<(Key, V)>, key: Key, value: V)
    ensures
        names_of(final(entries)@) == names_of(old(entries)@).push(key@),
        values_of(final(entries)@) == values_of(old(entries)@).push(value),
{
    entries.push((key, value));
    assert(names_of(entries@) =~= names_of(old(entries)@).push(key@));
    assert(values_of(entries@) =~= values_of(old(entries)@).push(value));
}

} // verus!
