//! Scoped access to the values of one key, found once and then read or
//! changed without digesting the key again.
use vstd::prelude::*;
use std::collections::hash_map::RandomState;
use std::hash::{BuildHasher, Hash};
use crate::iter::{EntryValues, EntryValuesMut};
use crate::list_ordered_multimap::{EntryValuesDrain, ListOrderedMultimap};
use crate::model::{law_insert_discards, lemma_append_values, MultimapModel};
use crate::slots::lacks_hash;

verus! {

/// The values of one key of a multimap: present or not yet there.
pub enum Entry<'map, Key, Value, State = RandomState> {
    Occupied(OccupiedEntry<'map, Key, Value, State>),
    Vacant(VacantEntry<'map, Key, Value, State>),
}

/// A key that has values, with the multimap it lives in.
pub struct OccupiedEntry<'map, Key, Value, State = RandomState> {
    hash: u64,
    map: &'map mut ListOrderedMultimap<Key, Value, State>,
}

/// A key that has no values yet, with the multimap it would go into.
pub struct VacantEntry<'map, Key, Value, State = RandomState> {
    hash: u64,
    key: Key,
    map: &'map mut ListOrderedMultimap<Key, Value, State>,
}

impl<Key, Value, State> ListOrderedMultimap<Key, Value, State> where
    Key: Eq + Hash,
    State: BuildHasher,
 {
    /// The values of `key`, for scoped reading and changing.
    pub fn entry(&mut self, key: Key) -> (r: Entry<'_, Key, Value, State>)
        requires
            old(self).wf(),
        ensures
            r.wf(),
            match r {
                Entry::Occupied(o) => o.model() == old(self)@ && old(self)@.contains(o.digest()),
                Entry::Vacant(v) => v.model() == old(self)@ && !old(self)@.contains(v.digest())
                    && v.key_view() == key,
            },
    {
        let hash = self.key_hash(&key);
        if self.contains_hash(hash) {
            Entry::Occupied(OccupiedEntry { hash, map: self })
        } else {
            Entry::Vacant(VacantEntry { hash, key, map: self })
        }
    }
}

impl<'map, Key, Value, State> Entry<'map, Key, Value, State> {
    /// The consistency that every method keeps.
    pub open spec fn wf(&self) -> bool {
        match self {
            Entry::Occupied(o) => o.wf(),
            Entry::Vacant(v) => v.wf(),
        }
    }
}

impl<'map, Key, Value, State> Entry<'map, Key, Value, State> where State: BuildHasher, Key: Eq + Hash {
    /// Lets `function` change the first value of a key that has values: what
    /// it leaves in the value it is lent becomes the first value. A key
    /// without values is left as it is.
    pub fn and_modify<Function>(self, function: Function) -> (r: Self) where
        Function: FnOnce(&mut Value),

        requires
            self.wf(),
            forall|v: &mut Value| #[trigger] function.requires((v,)),
        ensures
            r.wf(),
            match (self, r) {
                (Entry::Occupied(o), Entry::Occupied(n)) => n.digest() == o.digest() && exists|x: Value|
                    #[trigger] n.model().first_replaced(o.model(), o.digest(), x) && exists|v: &mut Value|
                        *v == o.model().values_of(o.digest())[0] && *final(v) == x
                            && #[trigger] function.ensures((v,), ()),
                (Entry::Vacant(v), Entry::Vacant(n)) => n == v,
                _ => false,
            },
    {
        match self {
            Entry::Occupied(mut entry) => {
                let v = entry.get_mut();
                function(v);
                Entry::Occupied(entry)
            },
            Entry::Vacant(entry) => Entry::Vacant(entry),
        }
    }

    /// The first value of the key, after `value` is stored for a key that
    /// had none.
    pub fn or_insert(self, value: Value) -> (r: &'map mut Value)
        requires
            self.wf(),
        ensures
            match self {
                Entry::Occupied(o) => *r == o.model().values_of(o.digest())[0],
                Entry::Vacant(_) => *r == value,
            },
    {
        match self {
            Entry::Occupied(entry) => entry.into_mut(),
            Entry::Vacant(entry) => entry.insert(value),
        }
    }

    /// The entry of the key, after `value` is stored for a key that had none.
    pub fn or_insert_entry(self, value: Value) -> (r: OccupiedEntry<'map, Key, Value, State>)
        requires
            self.wf(),
        ensures
            r.wf(),
            match self {
                Entry::Occupied(o) => r.model() == o.model() && r.digest() == o.digest(),
                Entry::Vacant(v) => r.model() == v.model().appended(v.digest(), v.key_view(), value)
                    && r.digest() == v.digest(),
            },
    {
        match self {
            Entry::Occupied(entry) => entry,
            Entry::Vacant(entry) => entry.insert_entry(value),
        }
    }

    /// The first value of the key, after what `function` makes is stored for
    /// a key that had none.
    pub fn or_insert_with<Function>(self, function: Function) -> (r: &'map mut Value) where
        Function: FnOnce() -> Value,

        requires
            self.wf(),
            function.requires(()),
        ensures
            match self {
                Entry::Occupied(o) => *r == o.model().values_of(o.digest())[0],
                Entry::Vacant(_) => function.ensures((), *r),
            },
    {
        match self {
            Entry::Occupied(entry) => entry.into_mut(),
            Entry::Vacant(entry) => entry.insert(function()),
        }
    }

    /// The entry of the key, after what `function` makes is stored for a key
    /// that had none.
    pub fn or_insert_with_entry<Function>(self, function: Function) -> (r: OccupiedEntry<
        'map,
        Key,
        Value,
        State,
    >) where Function: FnOnce() -> Value,

        requires
            self.wf(),
            function.requires(()),
        ensures
            r.wf(),
            match self {
                Entry::Occupied(o) => r.model() == o.model() && r.digest() == o.digest(),
                Entry::Vacant(v) => exists|x: Value|
                    function.ensures((), x) && r.model() == #[trigger] v.model().appended(
                        v.digest(),
                        v.key_view(),
                        x,
                    ) && r.digest() == v.digest(),
            },
    {
        match self {
            Entry::Occupied(entry) => entry,
            Entry::Vacant(entry) => {
                let x = function();
                entry.insert_entry(x)
            },
        }
    }
}

impl<'map, Key, Value, State> OccupiedEntry<'map, Key, Value, State> {
    /// The digest of the key.
    pub closed spec fn digest(&self) -> u64 {
        self.hash
    }

    /// The multimap as it is now.
    pub closed spec fn model(&self) -> MultimapModel<Key, Value> {
        (*self.map)@
    }

    /// The consistency that every method keeps.
    pub closed spec fn wf(&self) -> bool {
        self.map.wf() && self.map@.contains(self.hash)
    }

    /// The multimap seen through a consistent entry is consistent, and the
    /// key of the entry has at least one value.
    pub proof fn lemma_model_wf(&self)
        requires
            self.wf(),
        ensures
            self.model().wf(),
            self.model().contains(self.digest()),
            self.model().values_of(self.digest()).len() >= 1,
    {
        self.map.lemma_view_wf();
    }
}

impl<'map, Key, Value, State> OccupiedEntry<'map, Key, Value, State> where
    Key: Eq + Hash,
    State: BuildHasher,
 {
    /// Appends `value` to the values of the key.
    pub fn append(&mut self, value: Value)
        requires
            old(self).wf(),
        ensures
            final(self).wf(),
            final(self).digest() == old(self).digest(),
            final(self).model() == old(self).model().appended(
                old(self).digest(),
                old(self).model().key_of[old(self).digest()],
                value,
            ),
    {
        self.map.append_existing(self.hash, value);
    }

    /// The first value of the key.
    pub fn get(&self) -> (r: &Value)
        requires
            self.wf(),
        ensures
            *r == self.model().values_of(self.digest())[0],
    {
        self.map.get_with_hash(self.hash).unwrap()
    }

    /// Lends the first value of the key; what is written through the loan
    /// replaces it.
    pub fn get_mut(&mut self) -> (r: &mut Value)
        requires
            old(self).wf(),
        ensures
            *r == old(self).model().values_of(old(self).digest())[0],
            final(self).wf(),
            final(self).digest() == old(self).digest(),
            final(self).model().first_replaced(old(self).model(), old(self).digest(), *final(r)),
    {
        self.map.get_mut_with_hash(self.hash).unwrap()
    }

    /// Lends the first value of the key for as long as the multimap is borrowed.
    pub fn into_mut(self) -> (r: &'map mut Value)
        requires
            self.wf(),
        ensures
            *r == self.model().values_of(self.digest())[0],
    {
        let map = self.map;
        map.get_mut_with_hash(self.hash).unwrap()
    }

    /// Replaces every value of the key by `value`; returns the first value
    /// that was replaced.
    pub fn insert(&mut self, value: Value) -> (r: Value)
        requires
            old(self).wf(),
        ensures
            final(self).wf(),
            final(self).digest() == old(self).digest(),
            r == old(self).model().values_of(old(self).digest())[0],
            final(self).model() == old(self).model().inserted(
                old(self).digest(),
                old(self).model().key_of[old(self).digest()],
                value,
            ),
            final(self).model().values_of(old(self).digest()) == seq![value],
            forall|g: u64|
                g != old(self).digest() ==> #[trigger] final(self).model().values_of(g) == old(
                    self,
                ).model().values_of(g),
            final(self).model().entries == old(self).model().entries.filter(
                lacks_hash::<Value>(old(self).digest()),
            ).push((old(self).digest(), value)),
            final(self).model().keys == old(self).model().keys,
    {
        proof {
            old(self).lemma_model_wf();
            law_insert_discards(
                old(self).model(),
                old(self).digest(),
                old(self).model().key_of[old(self).digest()],
                value,
            );
        }
        proof {
            self.map.lemma_values_nonempty(self.hash);
        }
        let mut out = self.map.replace_existing(self.hash, value);
        out.pop_front().unwrap()
    }

    /// Replaces every value of the key by `value`; returns the values that
    /// were replaced, oldest first.
    pub fn insert_all(&mut self, value: Value) -> (r: EntryValuesDrain<Value>)
        requires
            old(self).wf(),
        ensures
            final(self).wf(),
            final(self).digest() == old(self).digest(),
            r@ == old(self).model().values_of(old(self).digest()),
            final(self).model() == old(self).model().inserted(
                old(self).digest(),
                old(self).model().key_of[old(self).digest()],
                value,
            ),
            final(self).model().values_of(old(self).digest()) == seq![value],
            forall|g: u64|
                g != old(self).digest() ==> #[trigger] final(self).model().values_of(g) == old(
                    self,
                ).model().values_of(g),
            final(self).model().entries == old(self).model().entries.filter(
                lacks_hash::<Value>(old(self).digest()),
            ).push((old(self).digest(), value)),
            final(self).model().keys == old(self).model().keys,
    {
        proof {
            old(self).lemma_model_wf();
            law_insert_discards(
                old(self).model(),
                old(self).digest(),
                old(self).model().key_of[old(self).digest()],
                value,
            );
        }
        let out = self.map.replace_existing(self.hash, value);
        EntryValuesDrain::from_values(out)
    }

    /// The values of the key, oldest first.
    pub fn iter(&self) -> (r: EntryValues<'_, Value>)
        requires
            self.wf(),
        ensures
            r.wf(),
            r@ == self.model().values_of(self.digest()),
    {
        self.map.get_all_with_hash(self.hash)
    }

    /// Lends the values of the key, oldest first.
    pub fn iter_mut(&mut self) -> (r: EntryValuesMut<'_, Value>)
        requires
            old(self).wf(),
        ensures
            r.wf(),
            r@ == old(self).model().values_of(old(self).digest()),
    {
        self.map.get_all_mut_with_hash(self.hash)
    }

    /// The key as it is stored.
    pub fn key(&self) -> (r: &Key)
        requires
            self.wf(),
        ensures
            *r == self.model().key_of[self.digest()],
    {
        self.map.stored_key(self.hash)
    }

    /// The number of values of the key.
    pub fn len(&self) -> (r: usize)
        requires
            self.wf(),
        ensures
            r == self.model().values_of(self.digest()).len(),
            r >= 1,
    {
        proof {
            self.lemma_model_wf();
        }
        self.map.entry_len_with_hash(self.hash)
    }

    /// Removes the key with all its values; returns the first value.
    pub fn remove(self) -> (r: Value)
        requires
            self.wf(),
        ensures
            r == self.model().values_of(self.digest())[0],
    {
        self.remove_entry().1
    }

    /// Removes the key with all its values; returns the values, oldest first.
    pub fn remove_all(self) -> (r: EntryValuesDrain<Value>)
        requires
            self.wf(),
        ensures
            r@ == self.model().values_of(self.digest()),
    {
        self.remove_entry_all().1
    }

    /// Removes the key with all its values; returns the key and the first value.
    pub fn remove_entry(self) -> (r: (Key, Value))
        requires
            self.wf(),
        ensures
            r.0 == self.model().key_of[self.digest()],
            r.1 == self.model().values_of(self.digest())[0],
    {
        proof {
            self.map.lemma_values_nonempty(self.hash);
        }
        let map = self.map;
        let (key, mut out) = map.take_key(self.hash);
        (key, out.pop_front().unwrap())
    }

    /// Removes the key with all its values; returns the key and the values,
    /// oldest first.
    pub fn remove_entry_all(self) -> (r: (Key, EntryValuesDrain<Value>))
        requires
            self.wf(),
        ensures
            r.0 == self.model().key_of[self.digest()],
            r.1@ == self.model().values_of(self.digest()),
    {
        let map = self.map;
        let (key, out) = map.take_key(self.hash);
        (key, EntryValuesDrain::from_values(out))
    }
}

impl<'map, Key, Value, State> VacantEntry<'map, Key, Value, State> {
    /// The digest of the key.
    pub closed spec fn digest(&self) -> u64 {
        self.hash
    }

    /// The key that would be stored.
    pub closed spec fn key_view(&self) -> Key {
        self.key
    }

    /// The multimap as it is now.
    pub closed spec fn model(&self) -> MultimapModel<Key, Value> {
        (*self.map)@
    }

    /// The consistency that every method keeps.
    pub closed spec fn wf(&self) -> bool {
        self.map.wf() && !self.map@.contains(self.hash)
    }

    /// The key that would be stored.
    pub fn key(&self) -> (r: &Key)
        ensures
            *r == self.key_view(),
    {
        &self.key
    }

    /// Gives the key back.
    pub fn into_key(self) -> (r: Key)
        ensures
            r == self.key_view(),
    {
        self.key
    }
}

impl<'map, Key, Value, State> VacantEntry<'map, Key, Value, State> where
    Key: Eq + Hash,
    State: BuildHasher,
 {
    /// Stores the key with `value` as its only value, and lends that value.
    pub fn insert(self, value: Value) -> (r: &'map mut Value)
        requires
            self.wf(),
        ensures
            *r == value,
    {
        let map = self.map;
        proof {
            map.lemma_values_nonempty(self.hash);
            lemma_append_values(map@, self.hash, self.key, value);
            assert(map@.values_of(self.hash).push(value) =~= seq![value]);
        }
        map.append_with_hash(self.hash, self.key, value);
        proof {
            map.lemma_values_nonempty(self.hash);
        }
        map.get_mut_with_hash(self.hash).unwrap()
    }

    /// Stores the key with `value` as its only value, and gives the entry of
    /// the key.
    pub fn insert_entry(self, value: Value) -> (r: OccupiedEntry<'map, Key, Value, State>)
        requires
            self.wf(),
        ensures
            r.wf(),
            r.digest() == self.digest(),
            r.model() == self.model().appended(self.digest(), self.key_view(), value),
    {
        let map = self.map;
        map.append_with_hash(self.hash, self.key, value);
        OccupiedEntry { hash: self.hash, map }
    }
}

} // verus!
