//! The hash index: from a key's digest to the record of that key's values.
use vstd::prelude::*;

verus! {

/// Where the key of one digest and its values sit in the slot storage.
#[derive(Clone, Copy)]
pub struct MapEntry {
    /// Slot of the first value of the key.
    pub head_index: usize,
    /// Slot of the key.
    pub key_index: usize,
    /// Number of values of the key.
    pub length: usize,
    /// Slot of the last value of the key.
    pub tail_index: usize,
}

impl MapEntry {
    /// The record of a key stored in slot `key_index` whose one value is in slot `index`.
    pub fn new(key_index: usize, index: usize) -> (r: MapEntry)
        ensures
            r == (MapEntry { head_index: index, key_index, length: 1, tail_index: index }),
    {
        MapEntry { head_index: index, key_index, length: 1, tail_index: index }
    }

    /// Records one more value, now the last, in slot `index`.
    pub fn append(&mut self, index: usize)
        requires
            old(self).length < usize::MAX,
        ensures
            *final(self) == (MapEntry { length: (old(self).length + 1) as usize, tail_index: index, ..*old(self) }),
    {
        self.length = self.length + 1;
        self.tail_index = index;
    }

    /// Records a single value, in slot `index`, in place of all others.
    pub fn reset(&mut self, index: usize)
        ensures
            *final(self) == (MapEntry { head_index: index, length: 1, tail_index: index, ..*old(self) }),
    {
        self.head_index = index;
        self.length = 1;
        self.tail_index = index;
    }
}

/// The most records that the index is asked to make room for at once; past
/// about this many, `hashbrown` would fail to size its table and panic.
pub const INDEX_CAPACITY_LIMIT: usize = usize::MAX / 1024;

/// A `hashbrown` map from digests to records.
#[verifier::external_body]
pub struct HashIndex {
    table: hashbrown::HashMap<u64, MapEntry>,
}

/// The records that a `HashIndex` holds, by digest.
pub uninterp spec fn index_contents(m: HashIndex) -> Map<u64, MapEntry>;

impl HashIndex {
    /// Relies on `hashbrown::HashMap::with_capacity`: a new map holds nothing.
    /// It panics when the table for `capacity` records cannot be sized.
    #[verifier::external_body]
    pub fn with_capacity(capacity: usize) -> (r: HashIndex)
        requires
            capacity <= INDEX_CAPACITY_LIMIT,
        ensures
            index_contents(r).dom() =~= Set::empty(),
    {
        HashIndex { table: hashbrown::HashMap::with_capacity(capacity) }
    }

    /// Relies on `hashbrown::HashMap::get`: the record stored under `h`, if any.
    #[verifier::external_body]
    pub fn get(&self, h: u64) -> (r: Option<MapEntry>)
        ensures
            r == if index_contents(*self).contains_key(h) {
                Some(index_contents(*self)[h])
            } else {
                None
            },
    {
        self.table.get(&h).copied()
    }

    /// Relies on `hashbrown::HashMap::contains_key`: whether a record is stored under `h`.
    #[verifier::external_body]
    pub fn contains_key(&self, h: u64) -> (r: bool)
        ensures
            r == index_contents(*self).contains_key(h),
    {
        self.table.contains_key(&h)
    }

    /// Relies on `hashbrown::HashMap::insert`: stores `e` under `h`, replacing any record there.
    #[verifier::external_body]
    pub fn insert(&mut self, h: u64, e: MapEntry)
        ensures
            index_contents(*final(self)) == index_contents(*old(self)).insert(h, e),
    {
        self.table.insert(h, e);
    }

    /// Relies on `hashbrown::HashMap::remove`: takes out the record stored under `h`.
    #[verifier::external_body]
    pub fn remove(&mut self, h: u64) -> (r: Option<MapEntry>)
        ensures
            index_contents(*final(self)) == index_contents(*old(self)).remove(h),
            r == if index_contents(*old(self)).contains_key(h) {
                Some(index_contents(*old(self))[h])
            } else {
                None
            },
    {
        self.table.remove(&h)
    }

    /// Relies on `hashbrown::HashMap::clear`: afterwards the map holds nothing.
    #[verifier::external_body]
    pub fn clear(&mut self)
        ensures
            index_contents(*final(self)).dom() =~= Set::empty(),
    {
        self.table.clear();
    }

    /// Relies on `hashbrown::HashMap::reserve`: makes room and leaves the records as they are.
    /// It panics when the table for the records and `additional` more cannot be sized.
    #[verifier::external_body]
    pub fn reserve(&mut self, additional: usize)
        requires
            index_contents(*old(self)).dom().len() + additional <= INDEX_CAPACITY_LIMIT,
        ensures
            index_contents(*final(self)) == index_contents(*old(self)),
    {
        self.table.reserve(additional);
    }
}

impl Clone for HashIndex {
    /// Relies on `Clone` of `hashbrown::HashMap`: the copy holds the same records.
    #[verifier::external_body]
    fn clone(&self) -> (r: HashIndex)
        ensures
            index_contents(r) == index_contents(*self),
    {
        HashIndex { table: self.table.clone() }
    }
}

} // verus!
