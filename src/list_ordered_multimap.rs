//! The multimap itself: keys and values in slot storage, tied together by a
//! hash index and by per-key lists threaded through the value slots.
use vstd::prelude::*;
use vstd::pervasive::cloned;
use vstd::std_specs::cmp::PartialEqSpec;
use std::borrow::Borrow;
use std::collections::hash_map::RandomState;
use std::collections::VecDeque;
use std::hash::{BuildHasher, Hash};
use crate::index::{index_contents, HashIndex, MapEntry, INDEX_CAPACITY_LIMIT};
use crate::iter::{key_slot_ok, next_slot, pair_of, slot_value_mut};
use crate::layout::{
    chain_ok, layout_wf, lemma_append_existing, lemma_append_new, lemma_chain_values,
    lemma_key_list, lemma_model_wf, lemma_pack, lemma_pairs, lemma_remove_absent,
    lemma_remove_key, lemma_reset_chain, lemma_set_first, lemma_slot_links, lemma_walk, links_ok,
    model_of, relinked, remapped, walk_from, with_next,
};
use crate::model::{appended_all, MultimapModel};
use crate::slots::{
    dropped_hash, is_occupied, lemma_rank, lemma_slots_with, occupied, rank, slot_value,
    slots_with, KeyEntry, ValueEntry,
};

pub use crate::entry::{Entry, OccupiedEntry, VacantEntry};
pub use crate::iter::{EntryValues, EntryValuesMut, Iter, IterMut, Keys, Values, ValuesMut};

verus! {

/// A multimap that keeps every value in the order it was inserted, across all
/// keys and among the values of each key.
///
/// Keys are told apart by their digest under `State`: two keys of equal
/// digest share one entry.
#[derive(Clone)]
pub struct ListOrderedMultimap<Key, Value, State = RandomState> {
    /// Key slots; the occupied ones in order of first insertion.
    keys: Vec<Option<KeyEntry<Key>>>,
    /// Number of occupied key slots.
    key_count: usize,
    /// Value slots; the occupied ones in global insertion order.
    values: Vec<Option<ValueEntry<Value>>>,
    /// Number of occupied value slots.
    value_count: usize,
    /// From a key's digest to where its key and values are.
    map: HashIndex,
    /// Builds the hashers that digest keys.
    state: State,
}

/// Relies on `RandomState::new` of std: a fresh hasher builder.
#[verifier::external_body]
fn random_state() -> (r: RandomState) {
    RandomState::new()
}

/// Relies on `BuildHasher::hash_one` of std: the digest of `key` under `state`.
/// It depends on the keys that `state` was seeded with, so nothing about it is stated.
#[verifier::external_body]
fn digest<Q: ?Sized + Hash, S: BuildHasher>(state: &S, key: &Q) -> (r: u64) {
    state.hash_one(key)
}

/// Sets the next link of the value in slot `i`.
fn set_next<V>(values: &mut Vec<Option<ValueEntry<V>>>, i: usize, n: Option<usize>)
    requires
        i < old(values)@.len(),
        old(values)@[i as int].is_some(),
    ensures
        final(values)@ == old(values)@.update(i as int, Some(with_next(old(values)@[i as int].unwrap(), n))),
{
    let slot = &mut values[i];
    match slot {
        Some(e) => {
            e.next_index = n;
        },
        None => {},
    }
}

/// Empties the slots of the chain that `rec` records, collecting their values
/// in chain order.
fn take_chain<V>(values: &mut Vec<Option<ValueEntry<V>>>, hash: u64, rec: MapEntry) -> (out: VecDeque<V>)
    requires
        chain_ok(old(values)@, hash, rec),
    ensures
        dropped_hash(old(values)@, final(values)@, hash),
        out@ == slots_with(old(values)@, hash).map_values(|i: int| slot_value(old(values)@, i)),
{
    let ghost vs0 = values@;
    let ghost c = slots_with(vs0, hash);
    proof {
        lemma_slots_with(vs0, hash);
    }
    let mut out: VecDeque<V> = VecDeque::new();
    let mut cur: Option<usize> = Some(rec.head_index);
    let mut k: usize = 0;
    while k < rec.length
        invariant
            c == slots_with(vs0, hash),
            chain_ok(vs0, hash, rec),
            c.len() == rec.length,
            k <= rec.length,
            k < rec.length ==> cur == Some(c[k as int] as usize),
            values@.len() == vs0.len(),
            forall|kk: int|
                0 <= kk < c.len() ==> 0 <= #[trigger] c[kk] < vs0.len() && vs0[c[kk]].is_some()
                    && vs0[c[kk]].unwrap().hash@ == hash,
            forall|kk: int, l: int| 0 <= kk < l < c.len() ==> #[trigger] c[kk] < #[trigger] c[l],
            forall|i: int|
                0 <= i < vs0.len() ==> #[trigger] values@[i] == if c.subrange(0, k as int).contains(i) {
                    None
                } else {
                    vs0[i]
                },
            out@ == c.subrange(0, k as int).map_values(|i: int| slot_value(vs0, i)),
        decreases rec.length - k,
    {
        let ghost before = values@;
        let i = cur.unwrap();
        proof {
            assert(!c.subrange(0, k as int).contains(i as int)) by {
                if c.subrange(0, k as int).contains(i as int) {
                    let kk = choose|kk: int| 0 <= kk < k && c.subrange(0, k as int)[kk] == i;
                    assert(c[kk] < c[k as int]);
                }
            }
            assert(links_ok(vs0, c, k as int));
        }
        let slot = values[i].take();
        let e = slot.unwrap();
        cur = e.next_index;
        out.push_back(e.value);
        proof {
            assert(c.subrange(0, k + 1) =~= c.subrange(0, k as int).push(i as int));
            assert(c.subrange(0, k + 1).map_values(|i: int| slot_value(vs0, i)) =~= c.subrange(
                0,
                k as int,
            ).map_values(|i: int| slot_value(vs0, i)).push(slot_value(vs0, i as int)));
            assert forall|j: int| 0 <= j < vs0.len() implies #[trigger] values@[j] == if c.subrange(
                0,
                k + 1,
            ).contains(j) {
                None
            } else {
                vs0[j]
            } by {
                if j != i {
                    assert(values@[j] == before[j]);
                    assert(c.subrange(0, k + 1).contains(j) == c.subrange(0, k as int).contains(j));
                } else {
                    assert(c.subrange(0, k + 1)[k as int] == j);
                }
            }
        }
        k = k + 1;
    }
    proof {
        assert(c.subrange(0, k as int) =~= c);
        assert forall|i: int| 0 <= i < vs0.len() implies #[trigger] values@[i] == if vs0[i].is_some()
            && vs0[i].unwrap().hash@ == hash {
            None
        } else {
            vs0[i]
        } by {
            if vs0[i].is_some() && vs0[i].unwrap().hash@ == hash {
                assert(c.contains(i));
            } else if c.contains(i) {
                let kk = choose|kk: int| 0 <= kk < c.len() && c[kk] == i;
            }
        }
    }
    out
}

/// Relies on `Vec::capacity` of std: never below the length.
#[verifier::external_body]
fn vec_capacity<T>(v: &Vec<T>) -> (r: usize)
    ensures
        r >= v@.len(),
{
    v.capacity()
}

/// `n` slots holding a `T` each take no more than `isize::MAX` bytes, the
/// most that a vector may allocate; std's `Vec` panics when asked for more.
pub open spec fn room_fits<T>(n: int) -> bool {
    n * vstd::layout::size_of::<Option<T>>() <= isize::MAX
}

/// Whether `n` slots holding a `T` each fit in a vector.
fn room_fits_exec<T>(n: usize) -> (r: bool)
    ensures
        r == room_fits::<T>(n as int),
{
    let size = core::mem::size_of::<Option<T>>();
    match n.checked_mul(size) {
        Some(bytes) => bytes <= isize::MAX as usize,
        None => false,
    }
}

/// The rank of every slot: where it lands once the empty slots are squeezed out.
fn slot_ranks<T>(s: &Vec<Option<T>>) -> (r: Vec<usize>)
    ensures
        r@.len() == s@.len(),
        forall|i: int| 0 <= i < s@.len() ==> #[trigger] r@[i] == rank(s@, i),
{
    let mut r: Vec<usize> = Vec::with_capacity(s.len());
    let mut count: usize = 0;
    let mut i: usize = 0;
    while i < s.len()
        invariant
            i <= s@.len(),
            r@.len() == i,
            count <= i,
            count == rank(s@, i as int),
            forall|k: int| 0 <= k < i ==> #[trigger] r@[k] == rank(s@, k),
        decreases s@.len() - i,
    {
        r.push(count);
        proof {
            assert(s@.subrange(0, i + 1) =~= s@.subrange(0, i as int).push(s@[i as int]));
            s@.subrange(0, i as int).lemma_filter_push(s@[i as int], is_occupied::<T>());
        }
        if s[i].is_some() {
            count = count + 1;
        }
        i = i + 1;
    }
    r
}

/// Moves the occupied slots, in order, into a new vector with room for
/// `capacity` slots, leaving every slot of `s` empty.
fn compact_slots<T>(s: &mut Vec<Option<T>>, capacity: usize) -> (r: Vec<Option<T>>)
    ensures
        r@ == old(s)@.filter(is_occupied::<T>()),
{
    let ghost s0 = s@;
    let mut r: Vec<Option<T>> = Vec::with_capacity(capacity);
    let mut i: usize = 0;
    while i < s.len()
        invariant
            s@.len() == s0.len(),
            i <= s0.len(),
            forall|k: int| i <= k < s0.len() ==> #[trigger] s@[k] == s0[k],
            r@ == s0.subrange(0, i as int).filter(is_occupied::<T>()),
        decreases s0.len() - i,
    {
        let x = s[i].take();
        proof {
            assert(s0.subrange(0, i + 1) =~= s0.subrange(0, i as int).push(s0[i as int]));
            s0.subrange(0, i as int).lemma_filter_push(s0[i as int], is_occupied::<T>());
        }
        match x {
            Some(v) => {
                r.push(Some(v));
            },
            None => {},
        }
        i = i + 1;
    }
    proof {
        assert(s0.subrange(0, s0.len() as int) =~= s0);
    }
    r
}

/// Moves the key slot and the links of every value through the slot maps.
fn relink<V>(values: &mut Vec<Option<ValueEntry<V>>>, key_map: &Vec<usize>, value_map: &Vec<usize>)
    requires
        forall|t: int|
            0 <= t < old(values)@.len() ==> {
                &&& (#[trigger] old(values)@[t]).is_some()
                &&& old(values)@[t].unwrap().key_index < key_map@.len()
                &&& (old(values)@[t].unwrap().next_index matches Some(j) ==> j < value_map@.len())
                &&& (old(values)@[t].unwrap().previous_index matches Some(j) ==> j < value_map@.len())
            },
    ensures
        final(values)@.len() == old(values)@.len(),
        forall|t: int|
            0 <= t < old(values)@.len() ==> #[trigger] final(values)@[t] == Some(
                relinked(old(values)@[t].unwrap(), key_map@, value_map@),
            ),
{
    let ghost v0 = values@;
    let mut t: usize = 0;
    while t < values.len()
        invariant
            values@.len() == v0.len(),
            t <= v0.len(),
            forall|k: int|
                0 <= k < v0.len() ==> {
                    &&& (#[trigger] v0[k]).is_some()
                    &&& v0[k].unwrap().key_index < key_map@.len()
                    &&& (v0[k].unwrap().next_index matches Some(j) ==> j < value_map@.len())
                    &&& (v0[k].unwrap().previous_index matches Some(j) ==> j < value_map@.len())
                },
            forall|k: int| 0 <= k < t ==> #[trigger] values@[k] == Some(relinked(v0[k].unwrap(), key_map@, value_map@)),
            forall|k: int| t <= k < v0.len() ==> #[trigger] values@[k] == v0[k],
        decreases v0.len() - t,
    {
        let ghost before = values@;
        proof {
            assert(v0[t as int].is_some());
        }
        let slot = &mut values[t];
        match slot {
            Some(e) => {
                e.key_index = key_map[e.key_index];
                e.next_index = match e.next_index {
                    Some(j) => Some(value_map[j]),
                    None => None,
                };
                e.previous_index = match e.previous_index {
                    Some(j) => Some(value_map[j]),
                    None => None,
                };
            },
            None => {},
        }
        proof {
            assert forall|k: int| 0 <= k < t + 1 implies #[trigger] values@[k] == Some(
                relinked(v0[k].unwrap(), key_map@, value_map@),
            ) by {
                if k < t {
                    assert(values@[k] == before[k]);
                }
            }
            assert forall|k: int| t + 1 <= k < v0.len() implies #[trigger] values@[k] == v0[k] by {
                assert(values@[k] == before[k]);
            }
        }
        t = t + 1;
    }
}

impl<Key, Value, State> View for ListOrderedMultimap<Key, Value, State> {
    type V = MultimapModel<Key, Value>;

    closed spec fn view(&self) -> MultimapModel<Key, Value> {
        model_of(self.keys@, self.values@, self.index())
    }
}

impl<Key, Value, State> ListOrderedMultimap<Key, Value, State> {
    /// The builder of the hashers that digest keys.
    pub closed spec fn build_state(&self) -> State {
        self.state
    }

    /// The records of the hash index.
    pub closed spec fn index(&self) -> Map<u64, MapEntry> {
        index_contents(self.map)
    }

    /// A live digest has values.
    pub(crate) proof fn lemma_values_nonempty(&self, h: u64)
        requires
            self.wf(),
        ensures
            self@.wf_values_of(h),
    {
        lemma_chain_values(self.keys@, self.key_count as nat, self.values@, self.value_count as nat, self.index(), h);
    }

    /// The internal consistency that every operation keeps.
    pub closed spec fn wf(&self) -> bool {
        &&& layout_wf(self.keys@, self.key_count as nat, self.values@, self.value_count as nat, self.index())
        &&& self.values@.len() <= usize::MAX
    }

    /// The key slots in use, occupied or not.
    pub closed spec fn key_slots(&self) -> nat {
        self.keys@.len()
    }

    /// The value slots in use, occupied or not.
    pub closed spec fn value_slots(&self) -> nat {
        self.values@.len()
    }

    /// The storage holds no empty slot: every key slot and every value slot
    /// is occupied.
    pub closed spec fn is_packed(&self) -> bool {
        self.keys@.len() == self.key_count && self.values@.len() == self.value_count
    }

    /// The number of values that the index records for digest `h`.
    pub closed spec fn recorded_len(&self, h: u64) -> nat {
        if self.index().contains_key(h) {
            self.index()[h].length as nat
        } else {
            0
        }
    }

    /// The value slot reached after `k` steps along the links from the first
    /// value of digest `h`, if any.
    pub closed spec fn walk(&self, h: u64, k: nat) -> Option<usize> {
        walk_from(
            self.values@,
            if self.index().contains_key(h) {
                Some(self.index()[h].head_index)
            } else {
                None
            },
            k,
        )
    }

    /// The model of a consistent multimap is consistent: every key is listed
    /// once and has values, and every value belongs to a listed key.
    pub proof fn lemma_view_wf(&self)
        requires
            self.wf(),
        ensures
            self@.wf(),
    {
        lemma_model_wf(self.keys@, self.key_count as nat, self.values@, self.value_count as nat, self.index());
    }

    /// Count consistency: the number of values recorded for a key, which
    /// `entry_len` reports, is the number of its values, and walking the links
    /// from its first value passes exactly that many slots and then stops.
    pub proof fn lemma_count_consistency(&self, h: u64)
        requires
            self.wf(),
        ensures
            self.recorded_len(h) == self@.values_of(h).len(),
            forall|k: nat| k < self.recorded_len(h) ==> (#[trigger] self.walk(h, k)).is_some(),
            self.walk(h, self.recorded_len(h)).is_none(),
    {
        lemma_chain_values(self.keys@, self.key_count as nat, self.values@, self.value_count as nat, self.index(), h);
        if self.index().contains_key(h) {
            lemma_walk(self.keys@, self.key_count as nat, self.values@, self.value_count as nat, self.index(), h);
        }
    }
}

impl<Key, Value> ListOrderedMultimap<Key, Value, RandomState> where Key: Eq + Hash {
    /// Creates an empty multimap.
    pub fn new() -> (r: ListOrderedMultimap<Key, Value, RandomState>)
        ensures
            r.wf(),
            r@ == MultimapModel::<Key, Value>::empty(),
    {
        ListOrderedMultimap::with_capacity_and_hasher(0, 0, random_state())
    }

    /// Creates an empty multimap with room for `key_capacity` keys and
    /// `value_capacity` values.
    pub fn with_capacity(key_capacity: usize, value_capacity: usize) -> (r: ListOrderedMultimap<
        Key,
        Value,
        RandomState,
    >)
        requires
            key_capacity <= INDEX_CAPACITY_LIMIT,
            room_fits::<KeyEntry<Key>>(key_capacity as int),
            room_fits::<ValueEntry<Value>>(value_capacity as int),
        ensures
            r.wf(),
            r@ == MultimapModel::<Key, Value>::empty(),
    {
        ListOrderedMultimap::with_capacity_and_hasher(key_capacity, value_capacity, random_state())
    }

    /// A multimap holding `pairs`, each appended in order.
    pub fn from_pairs(pairs: Vec<(Key, Value)>) -> (r: ListOrderedMultimap<Key, Value, RandomState>)
        ensures
            r.wf(),
            exists|hs: Seq<u64>|
                hs.len() == pairs@.len() && r@ == #[trigger] appended_all(
                    MultimapModel::<Key, Value>::empty(),
                    hs,
                    pairs@,
                ),
    {
        let mut map = ListOrderedMultimap::new();
        map.extend(pairs);
        map
    }
}

impl<Key, Value> Default for ListOrderedMultimap<Key, Value, RandomState> where Key: Eq + Hash {
    /// An empty multimap.
    fn default() -> (r: Self)
        ensures
            r.wf(),
            r@ == MultimapModel::<Key, Value>::empty(),
    {
        ListOrderedMultimap::new()
    }
}

impl<Key, Value, State> ListOrderedMultimap<Key, Value, State> where Key: Eq + Hash, State: BuildHasher {
    /// Creates an empty multimap whose keys are digested with `state`.
    pub fn with_hasher(state: State) -> (r: ListOrderedMultimap<Key, Value, State>)
        ensures
            r.wf(),
            r.build_state() == state,
            r@ == MultimapModel::<Key, Value>::empty(),
    {
        ListOrderedMultimap::with_capacity_and_hasher(0, 0, state)
    }

    /// Creates an empty multimap with room for `key_capacity` keys and
    /// `value_capacity` values, whose keys are digested with `state`.
    pub fn with_capacity_and_hasher(key_capacity: usize, value_capacity: usize, state: State) -> (r:
        ListOrderedMultimap<Key, Value, State>)
        requires
            key_capacity <= INDEX_CAPACITY_LIMIT,
            room_fits::<KeyEntry<Key>>(key_capacity as int),
            room_fits::<ValueEntry<Value>>(value_capacity as int),
        ensures
            r.wf(),
            r@ == MultimapModel::<Key, Value>::empty(),
            r.build_state() == state,
    {
        let r = ListOrderedMultimap {
            keys: Vec::with_capacity(key_capacity),
            key_count: 0,
            values: Vec::with_capacity(value_capacity),
            value_count: 0,
            map: HashIndex::with_capacity(key_capacity),
            state,
        };
        proof {
            assert(r@.entries =~= Seq::empty());
            assert(r@.keys =~= Seq::empty());
            assert(r@.key_of =~= Map::empty());
        }
        r
    }

    /// The digest of a key under this multimap's hasher: the digest that the
    /// calls taking a key use, and that the calls taking a digest expect.
    pub fn key_hash<KeyQuery>(&self, key: &KeyQuery) -> (r: u64) where
        Key: Borrow<KeyQuery>,
        KeyQuery: ?Sized + Eq + Hash,
     {
        digest(&self.state, key)
    }

    /// The builder of the hashers that digest keys.
    pub fn hasher(&self) -> (r: &State)
        ensures
            *r == self.build_state(),
    {
        &self.state
    }

    /// Every (key, value) pair in global insertion order.
    pub fn iter(&self) -> (r: Iter<'_, Key, Value>)
        requires
            self.wf(),
        ensures
            r.wf(),
            r@ == self@.pairs(),
            r@.len() == self@.entries.len(),
    {
        proof {
            lemma_pairs(self.keys@, self.key_count as nat, self.values@, self.value_count as nat, self.index());
        }
        Iter::new(&self.keys, &self.values, self.value_count)
    }

    /// Lends every value, each with its key, in global insertion order.
    pub fn iter_mut(&mut self) -> (r: IterMut<'_, Key, Value>)
        requires
            old(self).wf(),
        ensures
            r.wf(),
            r@ == old(self)@.pairs(),
    {
        proof {
            lemma_pairs(self.keys@, self.key_count as nat, self.values@, self.value_count as nat, self.index());
        }
        IterMut::new(&self.keys, &mut self.values, self.value_count)
    }

    /// Lends every value in global insertion order.
    pub fn values_mut(&mut self) -> (r: ValuesMut<'_, Value>)
        requires
            old(self).wf(),
        ensures
            r.wf(),
            r@ == old(self)@.value_list(),
    {
        proof {
            lemma_pairs(self.keys@, self.key_count as nat, self.values@, self.value_count as nat, self.index());
        }
        ValuesMut::new(&mut self.values, self.value_count)
    }

    /// Lends the values of the key of digest `hash`, oldest first.
    pub fn get_all_mut_with_hash(&mut self, hash: u64) -> (r: EntryValuesMut<'_, Value>)
        requires
            old(self).wf(),
        ensures
            r.wf(),
            r@ == old(self)@.values_of(hash),
    {
        let ghost vs = self.values@;
        proof {
            lemma_chain_values(self.keys@, self.key_count as nat, vs, self.value_count as nat, self.index(), hash);
            lemma_slots_with(vs, hash);
            let c = slots_with(vs, hash);
            if self.index().contains_key(hash) {
                assert forall|k: int| 0 <= k < c.len() - 1 implies (#[trigger] vs[c[k]]).unwrap().next_index
                    == Some(c[k + 1] as usize) by {
                    assert(links_ok(vs, c, k));
                }
                assert forall|k: int| 0 < k < c.len() implies (#[trigger] vs[c[k]]).unwrap().previous_index
                    == Some(c[k - 1] as usize) by {
                    assert(links_ok(vs, c, k));
                }
            }
        }
        match self.map.get(hash) {
            Some(rec) => EntryValuesMut::new(
                &mut self.values,
                Some(rec.head_index),
                Some(rec.tail_index),
                rec.length,
                Ghost(slots_with(vs, hash)),
            ),
            None => EntryValuesMut::new(&mut self.values, None, None, 0, Ghost(Seq::empty())),
        }
    }

    /// Lends the values of `key`, oldest first.
    pub fn get_all_mut<KeyQuery>(&mut self, key: &KeyQuery) -> (r: EntryValuesMut<'_, Value>) where
        Key: Borrow<KeyQuery>,
        KeyQuery: ?Sized + Eq + Hash,

        requires
            old(self).wf(),
        ensures
            r.wf(),
            exists|h: u64| r@ == #[trigger] old(self)@.values_of(h),
    {
        let hash = self.key_hash(key);
        self.get_all_mut_with_hash(hash)
    }

    /// Every key, in order of first insertion.
    pub fn keys(&self) -> (r: Keys<'_, Key>)
        requires
            self.wf(),
        ensures
            r.wf(),
            r@ == self@.key_list(),
    {
        proof {
            lemma_key_list(self.keys@, self.key_count as nat, self.values@, self.value_count as nat, self.index());
        }
        Keys::new(&self.keys, self.key_count)
    }

    /// Every value in global insertion order.
    pub fn values(&self) -> (r: Values<'_, Value>)
        requires
            self.wf(),
        ensures
            r.wf(),
            r@ == self@.value_list(),
    {
        proof {
            lemma_pairs(self.keys@, self.key_count as nat, self.values@, self.value_count as nat, self.index());
        }
        Values::new(&self.values, self.value_count)
    }

    /// The values of the key of digest `hash`, oldest first.
    pub fn get_all_with_hash(&self, hash: u64) -> (r: EntryValues<'_, Value>)
        requires
            self.wf(),
        ensures
            r.wf(),
            r@ == self@.values_of(hash),
    {
        let ghost vs = self.values@;
        proof {
            lemma_chain_values(self.keys@, self.key_count as nat, vs, self.value_count as nat, self.index(), hash);
            lemma_slots_with(vs, hash);
        }
        match self.map.get(hash) {
            Some(rec) => {
                proof {
                    let c = slots_with(vs, hash);
                    assert forall|k: int| 0 <= k < c.len() - 1 implies (#[trigger] vs[c[k]]).unwrap().next_index
                        == Some(c[k + 1] as usize) by {
                        assert(links_ok(vs, c, k));
                    }
                    assert forall|k: int| 0 < k < c.len() implies (#[trigger] vs[c[k]]).unwrap().previous_index
                        == Some(c[k - 1] as usize) by {
                        assert(links_ok(vs, c, k));
                    }
                }
                EntryValues::new(&self.values, rec.head_index, rec.tail_index, rec.length, Ghost(slots_with(vs, hash)))
            },
            None => EntryValues::empty(&self.values),
        }
    }

    /// The values of `key`, oldest first.
    pub fn get_all<KeyQuery>(&self, key: &KeyQuery) -> (r: EntryValues<'_, Value>) where
        Key: Borrow<KeyQuery>,
        KeyQuery: ?Sized + Eq + Hash,

        requires
            self.wf(),
        ensures
            r.wf(),
            exists|h: u64| r@ == #[trigger] self@.values_of(h),
    {
        let hash = self.key_hash(key);
        self.get_all_with_hash(hash)
    }

    /// The number of distinct keys.
    pub fn keys_len(&self) -> (r: usize)
        requires
            self.wf(),
        ensures
            r == self@.keys.len(),
    {
        self.key_count
    }

    /// The number of values.
    pub fn values_len(&self) -> (r: usize)
        requires
            self.wf(),
        ensures
            r == self@.entries.len(),
    {
        self.value_count
    }

    /// Whether the multimap holds no keys.
    pub fn is_empty(&self) -> (r: bool)
        requires
            self.wf(),
        ensures
            r == (self@.keys.len() == 0),
    {
        self.key_count == 0
    }

    /// Removes every key and value.
    pub fn clear(&mut self)
        requires
            old(self).wf(),
        ensures
            final(self).wf(),
            final(self)@ == MultimapModel::<Key, Value>::empty(),
    {
        self.keys.clear();
        self.values.clear();
        self.map.clear();
        self.key_count = 0;
        self.value_count = 0;
        proof {
            assert(self@.entries =~= Seq::empty());
            assert(self@.keys =~= Seq::empty());
            assert(self@.key_of =~= Map::empty());
        }
    }

    /// Room for keys: how many the multimap holds without reallocating.
    pub fn keys_capacity(&self) -> (r: usize)
        requires
            self.wf(),
        ensures
            r >= self@.keys.len(),
    {
        vec_capacity(&self.keys) - (self.keys.len() - self.key_count)
    }

    /// Room for values: how many the multimap holds without reallocating.
    pub fn values_capacity(&self) -> (r: usize)
        requires
            self.wf(),
        ensures
            r >= self@.entries.len(),
    {
        vec_capacity(&self.values) - (self.values.len() - self.value_count)
    }

    /// Makes room for `additional_capacity` more keys.
    pub fn reserve_keys(&mut self, additional_capacity: usize)
        requires
            old(self).wf(),
            old(self)@.keys.len() + additional_capacity <= INDEX_CAPACITY_LIMIT,
            room_fits::<KeyEntry<Key>>(old(self).key_slots() + additional_capacity),
        ensures
            final(self).wf(),
            final(self)@ == old(self)@,
    {
        self.keys.reserve(additional_capacity);
        self.map.reserve(additional_capacity);
    }

    /// Makes room for `additional_capacity` more values.
    pub fn reserve_values(&mut self, additional_capacity: usize)
        requires
            old(self).wf(),
            room_fits::<ValueEntry<Value>>(old(self).value_slots() + additional_capacity),
        ensures
            final(self).wf(),
            final(self)@ == old(self)@,
    {
        self.values.reserve(additional_capacity);
    }

    /// Squeezes the storage of keys and values down to the room asked for,
    /// which must hold what is stored. What the multimap holds, and its
    /// order, stay as they were.
    pub fn pack_to(&mut self, keys_minimum_capacity: usize, values_minimum_capacity: usize)
        requires
            old(self).wf(),
            keys_minimum_capacity >= old(self)@.keys.len(),
            values_minimum_capacity >= old(self)@.entries.len(),
            keys_minimum_capacity <= INDEX_CAPACITY_LIMIT,
            room_fits::<KeyEntry<Key>>(keys_minimum_capacity as int),
            room_fits::<ValueEntry<Value>>(values_minimum_capacity as int),
        ensures
            final(self).wf(),
            final(self).is_packed(),
            final(self)@ == old(self)@,
    {
        let ghost ks0 = self.keys@;
        let ghost vs0 = self.values@;
        let ghost ix0 = self.index();
        proof {
            lemma_slot_links(ks0, self.key_count as nat, vs0, self.value_count as nat, ix0);
            lemma_rank(ks0);
            lemma_rank(vs0);
        }
        let key_map = slot_ranks(&self.keys);
        let value_map = slot_ranks(&self.values);
        let new_keys = compact_slots(&mut self.keys, keys_minimum_capacity);
        let mut new_values = compact_slots(&mut self.values, values_minimum_capacity);
        let ghost fv = new_values@;
        proof {
            assert forall|t: int| 0 <= t < fv.len() implies {
                &&& (#[trigger] fv[t]).is_some()
                &&& fv[t].unwrap().key_index < key_map@.len()
                &&& (fv[t].unwrap().next_index matches Some(j) ==> j < value_map@.len())
                &&& (fv[t].unwrap().previous_index matches Some(j) ==> j < value_map@.len())
            } by {
                assert(fv[t].is_some());
                let i = choose|i: int| 0 <= i < vs0.len() && vs0[i].is_some() && #[trigger] rank(vs0, i) == t;
                assert(fv[t] == vs0[i]);
            }
        }
        relink(&mut new_values, &key_map, &value_map);
        let mut new_map = HashIndex::with_capacity(keys_minimum_capacity);
        let ghost ks1 = new_keys@;
        let mut t: usize = 0;
        while t < new_keys.len()
            invariant
                ks1 == new_keys@,
                ks1 == ks0.filter(is_occupied::<KeyEntry<Key>>()),
                ix0 == index_contents(self.map),
                t <= ks1.len(),
                layout_wf(ks0, self.key_count as nat, vs0, self.value_count as nat, ix0),
                key_map@.len() == ks0.len(),
                forall|j: int| 0 <= j < ks0.len() ==> #[trigger] key_map@[j] == rank(ks0, j),
                value_map@.len() == vs0.len(),
                forall|h: u64| #[trigger] ix0.contains_key(h) ==> ix0[h].head_index < vs0.len() && ix0[h].tail_index < vs0.len(),
                rank(ks0, ks0.len() as int) == ks1.len(),
                forall|i: int|
                    0 <= i < ks0.len() && (#[trigger] ks0[i]).is_some() ==> rank(ks0, i) < ks1.len()
                        && ks1[rank(ks0, i) as int] == ks0[i],
                forall|k: int|
                    0 <= k < ks1.len() ==> (#[trigger] ks1[k]).is_some() && exists|i: int|
                        0 <= i < ks0.len() && ks0[i].is_some() && #[trigger] rank(ks0, i) == k,
                forall|h: u64|
                    #[trigger] index_contents(new_map).contains_key(h) <==> exists|k: int|
                        0 <= k < t && (#[trigger] ks1[k]).unwrap().hash == h,
                forall|h: u64|
                    #[trigger] index_contents(new_map).contains_key(h) ==> ix0.contains_key(h)
                        && index_contents(new_map)[h] == remapped(ix0[h], key_map@, value_map@),
            decreases ks1.len() - t,
        {
            proof {
                assert(ks1[t as int].is_some());
                let i = choose|i: int| 0 <= i < ks0.len() && ks0[i].is_some() && #[trigger] rank(ks0, i) == t;
                assert(ks1[t as int] == ks0[i]);
                assert(ix0.contains_key(ks0[i].unwrap().hash));
            }
            let hash = new_keys[t].as_ref().unwrap().hash;
            let rec = self.map.get(hash).unwrap();
            new_map.insert(
                hash,
                MapEntry {
                    head_index: value_map[rec.head_index],
                    key_index: key_map[rec.key_index],
                    length: rec.length,
                    tail_index: value_map[rec.tail_index],
                },
            );
            proof {
                assert forall|h: u64| #[trigger] index_contents(new_map).contains_key(h) <==> exists|k: int|
                    0 <= k < t + 1 && (#[trigger] ks1[k]).unwrap().hash == h by {
                    if h == hash {
                        assert(ks1[t as int].unwrap().hash == h);
                    }
                }
            }
            t = t + 1;
        }
        proof {
            assert(index_contents(new_map).dom() =~= ix0.dom()) by {
                assert forall|h: u64| #[trigger] ix0.contains_key(h) implies index_contents(new_map).contains_key(h) by {
                    let j = ix0[h].key_index as int;
                    assert(ks0[j].is_some());
                    assert(ks1[rank(ks0, j) as int] == ks0[j]);
                    assert(ks1[rank(ks0, j) as int].unwrap().hash == h);
                }
            }
            lemma_pack(
                ks0,
                self.key_count as nat,
                vs0,
                self.value_count as nat,
                ix0,
                ks1,
                new_values@,
                index_contents(new_map),
                key_map@,
                value_map@,
            );
        }
        self.keys = new_keys;
        self.values = new_values;
        self.map = new_map;
    }

    /// Squeezes the storage of keys and values down to what is stored.
    pub fn pack_to_fit(&mut self)
        requires
            old(self).wf(),
            old(self)@.keys.len() <= INDEX_CAPACITY_LIMIT,
            room_fits::<KeyEntry<Key>>(old(self)@.keys.len() as int),
            room_fits::<ValueEntry<Value>>(old(self)@.entries.len() as int),
        ensures
            final(self).wf(),
            final(self).is_packed(),
            final(self)@ == old(self)@,
    {
        let k = self.keys_len();
        let v = self.values_len();
        self.pack_to(k, v);
    }

    /// Lends the oldest value of the key of digest `hash`, if it has values;
    /// what is written through the loan replaces that value.
    pub fn get_mut_with_hash(&mut self, hash: u64) -> (r: Option<&mut Value>)
        requires
            old(self).wf(),
        ensures
            final(self).wf(),
            match r {
                Some(v) => {
                    &&& old(self)@.contains(hash)
                    &&& *v == old(self)@.values_of(hash)[0]
                    &&& final(self)@.first_replaced(old(self)@, hash, *final(v))
                },
                None => !old(self)@.contains(hash) && *final(self) == *old(self),
            },
    {
        let ghost ks0 = self.keys@;
        let ghost vs0 = self.values@;
        let ghost ix0 = self.index();
        proof {
            self.lemma_values_nonempty(hash);
            lemma_chain_values(ks0, self.key_count as nat, vs0, self.value_count as nat, ix0, hash);
            lemma_slots_with(vs0, hash);
        }
        match self.map.get(hash) {
            Some(rec) => {
                proof {
                    lemma_set_first(ks0, self.key_count as nat, vs0, self.value_count as nat, ix0, hash, vs0[rec.head_index as int].unwrap().value);
                    let c = slots_with(vs0, hash);
                    assert(c.map_values(|i: int| slot_value(vs0, i))[0] == slot_value(vs0, c[0]));
                }
                let v = slot_value_mut(&mut self.values, rec.head_index);
                proof {
                    lemma_set_first(ks0, self.key_count as nat, vs0, self.value_count as nat, ix0, hash, *final(v));
                }
                Some(v)
            },
            None => None,
        }
    }

    /// Lends the first value of `key`, if it has values; what is written
    /// through the loan replaces that value.
    pub fn get_mut<KeyQuery>(&mut self, key: &KeyQuery) -> (r: Option<&mut Value>) where
        Key: Borrow<KeyQuery>,
        KeyQuery: ?Sized + Eq + Hash,

        requires
            old(self).wf(),
        ensures
            final(self).wf(),
            exists|h: u64|
                match r {
                    Some(v) => {
                        &&& #[trigger] old(self)@.contains(h)
                        &&& *v == old(self)@.values_of(h)[0]
                        &&& final(self)@.first_replaced(old(self)@, h, *final(v))
                    },
                    None => !old(self)@.contains(h) && *final(self) == *old(self),
                },
    {
        let hash = self.key_hash(key);
        self.get_mut_with_hash(hash)
    }

    /// Appends every pair of `pairs`, in order.
    pub fn extend(&mut self, pairs: Vec<(Key, Value)>)
        requires
            old(self).wf(),
        ensures
            final(self).wf(),
            exists|hs: Seq<u64>|
                hs.len() == pairs@.len() && final(self)@ == #[trigger] appended_all(old(self)@, hs, pairs@),
    {
        let ghost ps = pairs@;
        let mut rest = pairs;
        let mut queue: VecDeque<(Key, Value)> = VecDeque::new();
        while rest.len() > 0
            invariant
                rest@ + queue@ == ps,
            decreases rest@.len(),
        {
            let p = rest.pop().unwrap();
            queue.push_front(p);
            proof {
                assert(rest@ + queue@ =~= ps);
            }
        }
        proof {
            assert(queue@ =~= ps);
        }
        let ghost m0 = self@;
        let ghost mut hs: Seq<u64> = Seq::empty();
        while queue.len() > 0
            invariant
                self.wf(),
                hs.len() <= ps.len(),
                queue@ == ps.subrange(hs.len() as int, ps.len() as int),
                self@ == appended_all(m0, hs, ps.subrange(0, hs.len() as int)),
            decreases queue@.len(),
        {
            let (key, value) = queue.pop_front().unwrap();
            let hash = self.key_hash(&key);
            proof {
                let n = hs.len() as int;
                assert(ps.subrange(0, n + 1).drop_last() =~= ps.subrange(0, n));
                assert(hs.push(hash).drop_last() =~= hs);
                assert(ps[n] == (key, value));
            }
            self.append_with_hash(hash, key, value);
            proof {
                hs = hs.push(hash);
            }
        }
        proof {
            assert(ps.subrange(0, ps.len() as int) =~= ps);
        }
    }

    /// Appends `value` to the values of `key`. Returns whether `key` already
    /// had values; if it had none, it is stored with `value` as its only value.
    pub fn append(&mut self, key: Key, value: Value) -> (r: bool)
        requires
            old(self).wf(),
        ensures
            final(self).wf(),
            exists|h: u64|
                r == old(self)@.contains(h) && final(self)@ == #[trigger] old(self)@.appended(h, key, value),
    {
        let hash = self.key_hash(&key);
        self.append_with_hash(hash, key, value)
    }

    /// Stores `value` as the only value of `key` and returns the first value
    /// that `key` had before, if any.
    pub fn insert(&mut self, key: Key, value: Value) -> (r: Option<Value>)
        requires
            old(self).wf(),
        ensures
            final(self).wf(),
            exists|h: u64|
                final(self)@ == #[trigger] old(self)@.inserted(h, key, value) && r == if old(
                    self,
                )@.contains(h) {
                    Some(old(self)@.values_of(h)[0])
                } else {
                    None
                },
    {
        let hash = self.key_hash(&key);
        proof {
            self.lemma_values_nonempty(hash);
        }
        let mut drained = self.insert_all_with_hash(hash, key, value);
        drained.next()
    }

    /// Stores `value` as the only value of `key` and returns every value that
    /// `key` had before, oldest first.
    pub fn insert_all(&mut self, key: Key, value: Value) -> (r: EntryValuesDrain<Value>)
        requires
            old(self).wf(),
        ensures
            final(self).wf(),
            exists|h: u64|
                final(self)@ == #[trigger] old(self)@.inserted(h, key, value) && r@ == old(
                    self,
                )@.values_of(h),
    {
        let hash = self.key_hash(&key);
        self.insert_all_with_hash(hash, key, value)
    }

    /// Removes `key` with all its values and returns the first of them, if any.
    pub fn remove<KeyQuery>(&mut self, key: &KeyQuery) -> (r: Option<Value>) where
        Key: Borrow<KeyQuery>,
        KeyQuery: ?Sized + Eq + Hash,

        requires
            old(self).wf(),
        ensures
            final(self).wf(),
            exists|h: u64|
                final(self)@ == #[trigger] old(self)@.removed(h) && r == if old(self)@.contains(h) {
                    Some(old(self)@.values_of(h)[0])
                } else {
                    None
                },
    {
        let hash = self.key_hash(key);
        proof {
            self.lemma_values_nonempty(hash);
        }
        let mut drained = self.remove_all_with_hash(hash);
        drained.next()
    }

    /// Removes `key` with all its values and returns the values, oldest first.
    pub fn remove_all<KeyQuery>(&mut self, key: &KeyQuery) -> (r: EntryValuesDrain<Value>) where
        Key: Borrow<KeyQuery>,
        KeyQuery: ?Sized + Eq + Hash,

        requires
            old(self).wf(),
        ensures
            final(self).wf(),
            exists|h: u64| final(self)@ == #[trigger] old(self)@.removed(h) && r@ == old(self)@.values_of(h),
    {
        let hash = self.key_hash(key);
        self.remove_all_with_hash(hash)
    }

    /// Whether `key` has values.
    pub fn contains_key<KeyQuery>(&self, key: &KeyQuery) -> (r: bool) where
        Key: Borrow<KeyQuery>,
        KeyQuery: ?Sized + Eq + Hash,

        requires
            self.wf(),
        ensures
            exists|h: u64| r == #[trigger] self@.contains(h),
    {
        let hash = self.key_hash(key);
        self.contains_hash(hash)
    }

    /// The number of values of `key`.
    pub fn entry_len<KeyQuery>(&self, key: &KeyQuery) -> (r: usize) where
        Key: Borrow<KeyQuery>,
        KeyQuery: ?Sized + Eq + Hash,

        requires
            self.wf(),
        ensures
            exists|h: u64| r == #[trigger] self@.values_of(h).len(),
    {
        let hash = self.key_hash(key);
        self.entry_len_with_hash(hash)
    }

    /// The first value of `key`, if it has values.
    pub fn get<KeyQuery>(&self, key: &KeyQuery) -> (r: Option<&Value>) where
        Key: Borrow<KeyQuery>,
        KeyQuery: ?Sized + Eq + Hash,

        requires
            self.wf(),
        ensures
            exists|h: u64|
                match r {
                    Some(v) => #[trigger] self@.contains(h) && *v == self@.values_of(h)[0],
                    None => !self@.contains(h),
                },
    {
        let hash = self.key_hash(key);
        self.get_with_hash(hash)
    }

    /// Squeezes out the empty slots once they outnumber the occupied ones,
    /// so that the storage stays within about twice what is held.
    fn compact_if_sparse(&mut self)
        requires
            old(self).wf(),
        ensures
            final(self).wf(),
            final(self)@ == old(self)@,
    {
        let empty_slots = self.values.len() - self.value_count;
        if empty_slots > self.value_count && self.key_count <= INDEX_CAPACITY_LIMIT {
            let key_room = self.keys_capacity();
            let value_room = self.values_capacity();
            let keys_minimum = if key_room <= INDEX_CAPACITY_LIMIT {
                key_room
            } else {
                self.key_count
            };
            if room_fits_exec::<KeyEntry<Key>>(keys_minimum) && room_fits_exec::<ValueEntry<Value>>(
                value_room,
            ) {
                self.pack_to(keys_minimum, value_room);
            }
        }
    }

    /// Links `value` after the last value of the present key of digest `hash`.
    pub(crate) fn append_existing(&mut self, hash: u64, value: Value)
        requires
            old(self).wf(),
            old(self)@.contains(hash),
        ensures
            final(self).wf(),
            final(self)@ == old(self)@.appended(hash, old(self)@.key_of[hash], value),
    {
        self.compact_if_sparse();
        let ghost ks0 = self.keys@;
        let ghost vs0 = self.values@;
        let ghost ix0 = self.index();
        let rec = self.map.get(hash).unwrap();
        let tail = rec.tail_index;
        let entry = ValueEntry {
            key_index: rec.key_index,
            hash: Ghost(hash),
            next_index: None,
            previous_index: Some(tail),
            value,
        };
        self.values.push(Some(entry));
        let n = self.values.len() - 1;
        proof {
            lemma_append_existing(
                ks0,
                self.key_count as nat,
                vs0,
                self.value_count as nat,
                ix0,
                vs0.push(Some(entry)).update(
                    tail as int,
                    Some(with_next(vs0[tail as int].unwrap(), Some(n))),
                ),
                hash,
                ks0[rec.key_index as int].unwrap().key,
                entry,
            );
        }
        set_next(&mut self.values, tail, Some(n));
        let mut extended = rec;
        extended.append(n);
        self.map.insert(hash, extended);
        self.value_count = self.value_count + 1;
    }

    /// Replaces every value of the present key of digest `hash` by `value`,
    /// returning the values that were there, oldest first.
    pub(crate) fn replace_existing(&mut self, hash: u64, value: Value) -> (r: VecDeque<Value>)
        requires
            old(self).wf(),
            old(self)@.contains(hash),
        ensures
            final(self).wf(),
            final(self)@ == old(self)@.inserted(hash, old(self)@.key_of[hash], value),
            r@ == old(self)@.values_of(hash),
    {
        self.compact_if_sparse();
        let ghost ks0 = self.keys@;
        let ghost vs0 = self.values@;
        let ghost ix0 = self.index();
        let rec = self.map.get(hash).unwrap();
        proof {
            lemma_chain_values(ks0, self.key_count as nat, vs0, self.value_count as nat, ix0, hash);
        }
        let out = take_chain(&mut self.values, hash, rec);
        let ghost vs1 = self.values@;
        let entry = ValueEntry::new(rec.key_index, Ghost(hash), value);
        self.values.push(Some(entry));
        let n = self.values.len() - 1;
        proof {
            lemma_reset_chain(
                ks0,
                self.key_count as nat,
                vs0,
                self.value_count as nat,
                ix0,
                vs1,
                hash,
                ks0[rec.key_index as int].unwrap().key,
                entry,
            );
        }
        let mut single = rec;
        single.reset(n);
        self.map.insert(hash, single);
        self.value_count = self.value_count - rec.length + 1;
        out
    }

    /// Takes out the present key of digest `hash` with all its values,
    /// oldest first.
    pub(crate) fn take_key(&mut self, hash: u64) -> (r: (Key, VecDeque<Value>))
        requires
            old(self).wf(),
            old(self)@.contains(hash),
        ensures
            final(self).wf(),
            final(self)@ == old(self)@.removed(hash),
            r.0 == old(self)@.key_of[hash],
            r.1@ == old(self)@.values_of(hash),
    {
        let ghost ks0 = self.keys@;
        let ghost vs0 = self.values@;
        let ghost ix0 = self.index();
        let rec = self.map.get(hash).unwrap();
        proof {
            lemma_chain_values(ks0, self.key_count as nat, vs0, self.value_count as nat, ix0, hash);
        }
        let _ = self.map.remove(hash);
        let out = take_chain(&mut self.values, hash, rec);
        proof {
            lemma_remove_key(ks0, self.key_count as nat, vs0, self.value_count as nat, ix0, self.values@, hash);
        }
        let kentry = self.keys[rec.key_index].take().unwrap();
        self.key_count = self.key_count - 1;
        self.value_count = self.value_count - rec.length;
        (kentry.key, out)
    }

    /// The stored key of the present digest `hash`.
    pub(crate) fn stored_key(&self, hash: u64) -> (r: &Key)
        requires
            self.wf(),
            self@.contains(hash),
        ensures
            *r == self@.key_of[hash],
    {
        let rec = self.map.get(hash).unwrap();
        let ke = self.keys[rec.key_index].as_ref().unwrap();
        &ke.key
    }

    /// Appends `value` to the values of the key of digest `hash`; `key` is
    /// stored only if that digest had no values. Returns whether it had some.
    /// For the calls taking a key to find it, `hash` is `self.key_hash(&key)`.
    pub fn append_with_hash(&mut self, hash: u64, key: Key, value: Value) -> (r: bool)
        requires
            old(self).wf(),
        ensures
            final(self).wf(),
            r == old(self)@.contains(hash),
            final(self)@ == old(self)@.appended(hash, key, value),
    {
        self.compact_if_sparse();
        let ghost ks0 = self.keys@;
        let ghost vs0 = self.values@;
        let ghost ix0 = self.index();
        match self.map.get(hash) {
            Some(rec) => {
                self.append_existing(hash, value);
                true
            },
            None => {
                let kentry = KeyEntry { hash, key };
                self.keys.push(Some(kentry));
                let kn = self.keys.len() - 1;
                let entry = ValueEntry::new(kn, Ghost(hash), value);
                self.values.push(Some(entry));
                let n = self.values.len() - 1;
                proof {
                    lemma_append_new(
                        ks0,
                        self.key_count as nat,
                        vs0,
                        self.value_count as nat,
                        ix0,
                        hash,
                        kentry,
                        entry,
                    );
                }
                self.map.insert(hash, MapEntry::new(kn, n));
                self.key_count = self.key_count + 1;
                self.value_count = self.value_count + 1;
                false
            },
        }
    }

    /// Replaces every value of the key of digest `hash` by `value`; `key` is
    /// stored only if that digest had no values. Returns the values that were
    /// replaced, oldest first. For the calls taking a key to find it, `hash`
    /// is `self.key_hash(&key)`.
    pub fn insert_all_with_hash(&mut self, hash: u64, key: Key, value: Value) -> (r: EntryValuesDrain<
        Value,
    >)
        requires
            old(self).wf(),
        ensures
            final(self).wf(),
            r@ == old(self)@.values_of(hash),
            final(self)@ == old(self)@.inserted(hash, key, value),
    {
        self.compact_if_sparse();
        let ghost ks0 = self.keys@;
        let ghost vs0 = self.values@;
        let ghost ix0 = self.index();
        proof {
            lemma_chain_values(ks0, self.key_count as nat, vs0, self.value_count as nat, ix0, hash);
        }
        match self.map.get(hash) {
            Some(rec) => {
                let out = self.replace_existing(hash, value);
                EntryValuesDrain { items: out }
            },
            None => {
                proof {
                    lemma_remove_absent(ks0, self.key_count as nat, vs0, self.value_count as nat, ix0, hash);
                }
                self.append_with_hash(hash, key, value);
                EntryValuesDrain { items: VecDeque::new() }
            },
        }
    }

    /// Removes the key of digest `hash` and all its values. Returns the
    /// values, oldest first.
    pub fn remove_all_with_hash(&mut self, hash: u64) -> (r: EntryValuesDrain<Value>)
        requires
            old(self).wf(),
        ensures
            final(self).wf(),
            r@ == old(self)@.values_of(hash),
            final(self)@ == old(self)@.removed(hash),
    {
        let ghost ks0 = self.keys@;
        let ghost vs0 = self.values@;
        let ghost ix0 = self.index();
        proof {
            lemma_chain_values(ks0, self.key_count as nat, vs0, self.value_count as nat, ix0, hash);
        }
        match self.map.get(hash) {
            Some(rec) => {
                let (_key, out) = self.take_key(hash);
                EntryValuesDrain { items: out }
            },
            None => {
                proof {
                    lemma_remove_absent(ks0, self.key_count as nat, vs0, self.value_count as nat, ix0, hash);
                    assert(self.index() =~= ix0);
                }
                EntryValuesDrain { items: VecDeque::new() }
            },
        }
    }

    /// Whether the key of digest `hash` has values.
    pub fn contains_hash(&self, hash: u64) -> (r: bool)
        requires
            self.wf(),
        ensures
            r == self@.contains(hash),
    {
        self.map.contains_key(hash)
    }

    /// The number of values of the key of digest `hash`.
    pub fn entry_len_with_hash(&self, hash: u64) -> (r: usize)
        requires
            self.wf(),
        ensures
            r == self@.values_of(hash).len(),
            r == self.recorded_len(hash),
    {
        proof {
            lemma_chain_values(self.keys@, self.key_count as nat, self.values@, self.value_count as nat, self.index(), hash);
        }
        match self.map.get(hash) {
            Some(rec) => rec.length,
            None => 0,
        }
    }

    /// The oldest value of the key of digest `hash`, if it has values.
    pub fn get_with_hash(&self, hash: u64) -> (r: Option<&Value>)
        requires
            self.wf(),
        ensures
            match r {
                Some(v) => self@.contains(hash) && *v == self@.values_of(hash)[0],
                None => !self@.contains(hash),
            },
    {
        proof {
            lemma_chain_values(self.keys@, self.key_count as nat, self.values@, self.value_count as nat, self.index(), hash);
            lemma_slots_with(self.values@, hash);
        }
        match self.map.get(hash) {
            Some(rec) => {
                proof {
                    let c = slots_with(self.values@, hash);
                    assert(c.map_values(|i: int| slot_value(self.values@, i))[0] == slot_value(self.values@, c[0]));
                }
                match &self.values[rec.head_index] {
                    Some(e) => Some(&e.value),
                    None => None,
                }
            },
            None => None,
        }
    }
}

/// The values that an insertion or a removal took out of the multimap, in
/// the order in which they had been inserted. They are already gone from the
/// multimap when this is made, whether or not all of them are read.
pub struct EntryValuesDrain<Value> {
    items: VecDeque<Value>,
}

impl<Value> View for EntryValuesDrain<Value> {
    type V = Seq<Value>;

    closed spec fn view(&self) -> Seq<Value> {
        self.items@
    }
}

impl<Value> EntryValuesDrain<Value> {
    /// Hands out `items`, front first.
    pub(crate) fn from_values(items: VecDeque<Value>) -> (r: Self)
        ensures
            r@ == items@,
    {
        EntryValuesDrain { items }
    }

    /// Takes the oldest value that is left.
    pub fn next(&mut self) -> (r: Option<Value>)
        ensures
            old(self)@.len() == 0 ==> r.is_none() && final(self)@ == old(self)@,
            old(self)@.len() > 0 ==> r == Some(old(self)@[0]) && final(self)@ == old(self)@.drop_first(),
    {
        let r = self.items.pop_front();
        proof {
            if r.is_some() {
                assert(self.items@ =~= old(self)@.drop_first());
            }
        }
        r
    }

    /// Takes the newest value that is left.
    pub fn next_back(&mut self) -> (r: Option<Value>)
        ensures
            old(self)@.len() == 0 ==> r.is_none() && final(self)@ == old(self)@,
            old(self)@.len() > 0 ==> r == Some(old(self)@.last()) && final(self)@ == old(self)@.drop_last(),
    {
        let r = self.items.pop_back();
        proof {
            if r.is_some() {
                assert(self.items@ =~= old(self)@.drop_last());
            }
        }
        r
    }

    /// The number of values that are left.
    pub fn len(&self) -> (r: usize)
        ensures
            r == self@.len(),
    {
        self.items.len()
    }

    /// Reads the values that are left, oldest first, without taking them.
    pub fn iter(&self) -> (r: std::collections::vec_deque::Iter<'_, Value>)
        ensures
            vstd::std_specs::iter::IteratorSpec::remaining(&r) == self@.as_ref(),
    {
        self.items.iter()
    }
}


/// `r` holds the pairs of `m` in global insertion order, each key a clone of
/// the stored one.
pub open spec fn cloned_pairs<K: Clone, V>(r: Seq<(K, V)>, m: MultimapModel<K, V>) -> bool {
    &&& r.len() == m.pairs().len()
    &&& forall|k: int|
        0 <= k < r.len() ==> #[trigger] r[k].1 == m.pairs()[k].1 && cloned(m.pairs()[k].0, r[k].0)
}

/// The pairs that were taken out of a multimap that was emptied, in global
/// insertion order.
pub struct Drain<Key, Value> {
    items: VecDeque<(Key, Value)>,
}

/// The pairs of a multimap that was taken apart, in global insertion order.
pub struct IntoIter<Key, Value> {
    items: VecDeque<(Key, Value)>,
}

impl<Key, Value> View for Drain<Key, Value> {
    type V = Seq<(Key, Value)>;

    closed spec fn view(&self) -> Seq<(Key, Value)> {
        self.items@
    }
}

impl<Key, Value> View for IntoIter<Key, Value> {
    type V = Seq<(Key, Value)>;

    closed spec fn view(&self) -> Seq<(Key, Value)> {
        self.items@
    }
}

impl<Key, Value> Drain<Key, Value> {
    /// Takes the oldest pair that is left.
    pub fn next(&mut self) -> (r: Option<(Key, Value)>)
        ensures
            old(self)@.len() == 0 ==> r.is_none() && final(self)@ == old(self)@,
            old(self)@.len() > 0 ==> r == Some(old(self)@[0]) && final(self)@ == old(self)@.drop_first(),
    {
        let r = self.items.pop_front();
        proof {
            if r.is_some() {
                assert(self.items@ =~= old(self)@.drop_first());
            }
        }
        r
    }

    /// Takes the newest pair that is left.
    pub fn next_back(&mut self) -> (r: Option<(Key, Value)>)
        ensures
            old(self)@.len() == 0 ==> r.is_none() && final(self)@ == old(self)@,
            old(self)@.len() > 0 ==> r == Some(old(self)@.last()) && final(self)@ == old(self)@.drop_last(),
    {
        let r = self.items.pop_back();
        proof {
            if r.is_some() {
                assert(self.items@ =~= old(self)@.drop_last());
            }
        }
        r
    }

    /// The number of pairs that are left.
    pub fn len(&self) -> (r: usize)
        ensures
            r == self@.len(),
    {
        self.items.len()
    }

    /// Reads the pairs that are left, oldest first, without taking them.
    pub fn iter(&self) -> (r: std::collections::vec_deque::Iter<'_, (Key, Value)>)
        ensures
            vstd::std_specs::iter::IteratorSpec::remaining(&r) == self@.as_ref(),
    {
        self.items.iter()
    }
}

impl<Key, Value> IntoIter<Key, Value> {
    /// Takes the oldest pair that is left.
    pub fn next(&mut self) -> (r: Option<(Key, Value)>)
        ensures
            old(self)@.len() == 0 ==> r.is_none() && final(self)@ == old(self)@,
            old(self)@.len() > 0 ==> r == Some(old(self)@[0]) && final(self)@ == old(self)@.drop_first(),
    {
        let r = self.items.pop_front();
        proof {
            if r.is_some() {
                assert(self.items@ =~= old(self)@.drop_first());
            }
        }
        r
    }

    /// Takes the newest pair that is left.
    pub fn next_back(&mut self) -> (r: Option<(Key, Value)>)
        ensures
            old(self)@.len() == 0 ==> r.is_none() && final(self)@ == old(self)@,
            old(self)@.len() > 0 ==> r == Some(old(self)@.last()) && final(self)@ == old(self)@.drop_last(),
    {
        let r = self.items.pop_back();
        proof {
            if r.is_some() {
                assert(self.items@ =~= old(self)@.drop_last());
            }
        }
        r
    }

    /// The number of pairs that are left.
    pub fn len(&self) -> (r: usize)
        ensures
            r == self@.len(),
    {
        self.items.len()
    }

    /// Reads the pairs that are left, oldest first, without taking them.
    pub fn iter(&self) -> (r: std::collections::vec_deque::Iter<'_, (Key, Value)>)
        ensures
            vstd::std_specs::iter::IteratorSpec::remaining(&r) == self@.as_ref(),
    {
        self.items.iter()
    }
}

impl<Key: Clone, Value, State> ListOrderedMultimap<Key, Value, State> {
    /// Takes every value out, in global insertion order, each with a clone
    /// of its key, and leaves the multimap empty.
    fn take_pairs(&mut self) -> (r: VecDeque<(Key, Value)>)
        requires
            old(self).wf(),
        ensures
            final(self).wf(),
            final(self)@ == MultimapModel::<Key, Value>::empty(),
            cloned_pairs(r@, old(self)@),
    {
        let ghost ks0 = self.keys@;
        let ghost vs0 = self.values@;
        let ghost m0 = self@;
        proof {
            lemma_pairs(ks0, self.key_count as nat, vs0, self.value_count as nat, self.index());
        }
        let mut out: VecDeque<(Key, Value)> = VecDeque::new();
        let mut i: usize = 0;
        while i < self.values.len()
            invariant
                self.keys@ == ks0,
                self.values@.len() == vs0.len(),
                i <= vs0.len(),
                forall|k: int| i <= k < vs0.len() ==> #[trigger] self.values@[k] == vs0[k],
                forall|j: int| 0 <= j < vs0.len() && (#[trigger] vs0[j]).is_some() ==> key_slot_ok(ks0, vs0[j].unwrap()),
                out@.len() == occupied(vs0.subrange(0, i as int)).len(),
                forall|k: int|
                    0 <= k < out@.len() ==> #[trigger] out@[k].1 == occupied(vs0.subrange(0, i as int))[k].value
                        && cloned(pair_of(ks0, occupied(vs0.subrange(0, i as int))[k]).0, out@[k].0),
            decreases vs0.len() - i,
        {
            let ghost before = out@;
            proof {
                crate::slots::lemma_occupied_back(vs0, 0, i + 1);
                assert(vs0.subrange(0, i + 1).subrange(0, i as int) =~= vs0.subrange(0, i as int));
            }
            let slot = self.values[i].take();
            match slot {
                Some(e) => {
                    let key = self.keys[e.key_index].as_ref().unwrap().key.clone();
                    out.push_back((key, e.value));
                },
                None => {},
            }
            proof {
                let o0 = occupied(vs0.subrange(0, i as int));
                let o1 = occupied(vs0.subrange(0, i + 1));
                assert forall|k: int| 0 <= k < out@.len() implies #[trigger] out@[k].1 == o1[k].value
                    && cloned(pair_of(ks0, o1[k]).0, out@[k].0) by {
                    if k < before.len() {
                        assert(out@[k] == before[k]);
                        assert(o1[k] == o0[k]);
                    }
                }
            }
            i = i + 1;
        }
        proof {
            assert(vs0.subrange(0, vs0.len() as int) =~= vs0);
        }
        self.keys.clear();
        self.values.clear();
        self.map.clear();
        self.key_count = 0;
        self.value_count = 0;
        proof {
            assert(self@.entries =~= Seq::empty());
            assert(self@.keys =~= Seq::empty());
            assert(self@.key_of =~= Map::empty());
            assert forall|k: int| 0 <= k < out@.len() implies #[trigger] out@[k].1 == m0.pairs()[k].1 && cloned(m0.pairs()[k].0, out@[k].0) by {
                assert(m0.pairs()[k] == occupied(vs0).map_values(|e: ValueEntry<Value>| pair_of(ks0, e))[k]);
            }
        }
        out
    }

    /// Takes every value out, in global insertion order, each with a clone
    /// of its key, and leaves the multimap empty.
    pub fn drain(&mut self) -> (r: Drain<Key, Value>)
        requires
            old(self).wf(),
        ensures
            final(self).wf(),
            final(self)@ == MultimapModel::<Key, Value>::empty(),
            cloned_pairs(r@, old(self)@),
    {
        Drain { items: self.take_pairs() }
    }

    /// Takes the multimap apart into its pairs, in global insertion order,
    /// each key a clone of the stored one.
    pub fn into_iter(self) -> (r: IntoIter<Key, Value>)
        requires
            self.wf(),
        ensures
            cloned_pairs(r@, self@),
    {
        let mut map = self;
        IntoIter { items: map.take_pairs() }
    }
}

/// Pair by pair, the keys and the values of `a` and `b` are equal as their
/// types define equality.
pub open spec fn pairs_match<K: PartialEqSpec, V: PartialEqSpec>(a: Seq<(K, V)>, b: Seq<(K, V)>) -> bool {
    &&& a.len() == b.len()
    &&& forall|i: int| 0 <= i < a.len() ==> (#[trigger] a[i]).0.eq_spec(&b[i].0) && a[i].1.eq_spec(&b[i].1)
}

/// Every occupied value slot names an occupied key slot.
pub open spec fn stored_pairs_ok<K, V>(ks: Seq<Option<KeyEntry<K>>>, vs: Seq<Option<ValueEntry<V>>>) -> bool {
    forall|i: int| 0 <= i < occupied(vs).len() ==> key_slot_ok(ks, #[trigger] occupied(vs)[i])
}

impl<Key: PartialEqSpec, Value: PartialEqSpec, State> ListOrderedMultimap<Key, Value, State> {
    /// Both hold as many keys and as many values, and pair by pair the same
    /// keys and values in global insertion order.
    pub closed spec fn same_contents(&self, other: &Self) -> bool {
        &&& self.key_count == other.key_count
        &&& self.value_count == other.value_count
        &&& stored_pairs_ok(self.keys@, self.values@)
        &&& stored_pairs_ok(other.keys@, other.values@)
        &&& pairs_match(
            occupied(self.values@).map_values(|e: ValueEntry<Value>| pair_of(self.keys@, e)),
            occupied(other.values@).map_values(|e: ValueEntry<Value>| pair_of(other.keys@, e)),
        )
    }

    /// On consistent multimaps, equality compares the numbers of keys and
    /// values, and then the pairs in global insertion order.
    pub proof fn lemma_same_contents(&self, other: &Self)
        requires
            self.wf(),
            other.wf(),
        ensures
            self.same_contents(other) <==> {
                &&& self@.keys.len() == other@.keys.len()
                &&& self@.entries.len() == other@.entries.len()
                &&& pairs_match(self@.pairs(), other@.pairs())
            },
    {
        lemma_pairs(self.keys@, self.key_count as nat, self.values@, self.value_count as nat, self.index());
        lemma_pairs(other.keys@, other.key_count as nat, other.values@, other.value_count as nat, other.index());
        crate::slots::lemma_occupied_all(self.values@, |e: ValueEntry<Value>| key_slot_ok(self.keys@, e));
        crate::slots::lemma_occupied_all(other.values@, |e: ValueEntry<Value>| key_slot_ok(other.keys@, e));
    }
}

impl<Key, Value, State> PartialEq for ListOrderedMultimap<Key, Value, State> where
    Key: Eq + Hash,
    Value: PartialEq,
    State: BuildHasher,
 {
    /// Compares the numbers of keys and values, and then the pairs in global
    /// insertion order.
    fn eq(&self, other: &Self) -> (r: bool) {
        if self.key_count != other.key_count || self.value_count != other.value_count {
            return false;
        }
        let na = self.values.len();
        let nb = other.values.len();
        let ghost oa = occupied(self.values@);
        let ghost ob = occupied(other.values@);
        let ghost pa = oa.map_values(|e: ValueEntry<Value>| pair_of(self.keys@, e));
        let ghost pb = ob.map_values(|e: ValueEntry<Value>| pair_of(other.keys@, e));
        let ghost obeys = <Key as PartialEqSpec>::obeys_eq_spec() && <Value as PartialEqSpec>::obeys_eq_spec();
        proof {
            assert(self.values@.subrange(0, na as int) =~= self.values@);
            assert(other.values@.subrange(0, nb as int) =~= other.values@);
            assert(oa.subrange(0, oa.len() as int) =~= oa);
            assert(ob.subrange(0, ob.len() as int) =~= ob);
        }
        let mut fa: usize = 0;
        let mut fb: usize = 0;
        let ghost mut k: int = 0;
        loop
            invariant
                na == self.values@.len(),
                nb == other.values@.len(),
                fa <= na,
                fb <= nb,
                0 <= k <= oa.len(),
                k <= ob.len(),
                oa == occupied(self.values@),
                ob == occupied(other.values@),
                pa == oa.map_values(|e: ValueEntry<Value>| pair_of(self.keys@, e)),
                pb == ob.map_values(|e: ValueEntry<Value>| pair_of(other.keys@, e)),
                self.key_count == other.key_count,
                self.value_count == other.value_count,
                obeys == (<Key as PartialEqSpec>::obeys_eq_spec() && <Value as PartialEqSpec>::obeys_eq_spec()),
                occupied(self.values@.subrange(fa as int, na as int)) == oa.subrange(k, oa.len() as int),
                occupied(other.values@.subrange(fb as int, nb as int)) == ob.subrange(k, ob.len() as int),
                forall|i: int| 0 <= i < k ==> key_slot_ok(self.keys@, #[trigger] oa[i]),
                forall|i: int| 0 <= i < k ==> key_slot_ok(other.keys@, #[trigger] ob[i]),
                obeys ==> forall|i: int| 0 <= i < k ==> (#[trigger] pa[i]).0.eq_spec(&pb[i].0) && pa[i].1.eq_spec(&pb[i].1),
            decreases na - fa,
        {
            let (x, fa_next) = next_slot(&self.values, fa, na);
            let (y, fb_next) = next_slot(&other.values, fb, nb);
            match (x, y) {
                (Some(e1), Some(e2)) => {
                    proof {
                        assert(oa.subrange(k, oa.len() as int)[0] == oa[k]);
                        assert(ob.subrange(k, ob.len() as int)[0] == ob[k]);
                    }
                    if e1.key_index >= self.keys.len() || e2.key_index >= other.keys.len() {
                        return false;
                    }
                    match (&self.keys[e1.key_index], &other.keys[e2.key_index]) {
                        (Some(k1), Some(k2)) => {
                            let same_key = k1.key == k2.key;
                            let same_value = e1.value == e2.value;
                            if !same_key || !same_value {
                                proof {
                                    if obeys {
                                        assert(pa[k] == (k1.key, e1.value));
                                        assert(pb[k] == (k2.key, e2.value));
                                        assert(!(pa[k].0.eq_spec(&pb[k].0) && pa[k].1.eq_spec(&pb[k].1)));
                                    }
                                }
                                return false;
                            }
                        },
                        _ => {
                            return false;
                        },
                    }
                    proof {
                        assert(oa.subrange(k, oa.len() as int).drop_first() =~= oa.subrange(k + 1, oa.len() as int));
                        assert(ob.subrange(k, ob.len() as int).drop_first() =~= ob.subrange(k + 1, ob.len() as int));
                        k = k + 1;
                    }
                    fa = fa_next;
                    fb = fb_next;
                },
                (None, None) => {
                    return true;
                },
                _ => {
                    return false;
                },
            }
        }
    }
}

impl<Key, Value, State> vstd::std_specs::cmp::PartialEqSpecImpl for ListOrderedMultimap<Key, Value, State> where
    Key: Eq + Hash,
    Value: PartialEq,
    State: BuildHasher,
 {
    open spec fn obeys_eq_spec() -> bool {
        <Key as PartialEqSpec>::obeys_eq_spec() && <Value as PartialEqSpec>::obeys_eq_spec()
    }

    open spec fn eq_spec(&self, other: &Self) -> bool {
        self.same_contents(other)
    }
}
} // verus!
