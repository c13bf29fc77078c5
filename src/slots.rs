//! Slot storage shared by the multimap: keys and values live in vectors of
//! optional entries. A slot's position is its stable handle; a removed entry
//! leaves an empty slot behind until the storage is compacted, so the order of
//! the occupied slots is the order in which the entries were made.
use vstd::prelude::*;

verus! {

/// A distinct key together with the digest it is indexed under.
#[derive(Clone)]
pub struct KeyEntry<Key> {
    pub hash: u64,
    pub key: Key,
}

/// One stored value, threaded into the list of values of its key.
#[derive(Clone)]
pub struct ValueEntry<Value> {
    /// Slot of the owning key.
    pub key_index: usize,
    /// Digest of the owning key.
    pub hash: Ghost<u64>,
    /// Slot of the next value of the same key.
    pub next_index: Option<usize>,
    /// Slot of the previous value of the same key.
    pub previous_index: Option<usize>,
    pub value: Value,
}

impl<Value> ValueEntry<Value> {
    /// A value of the key in slot `key_index`, of digest `hash`, not yet linked.
    pub fn new(key_index: usize, hash: Ghost<u64>, value: Value) -> (r: ValueEntry<Value>)
        ensures
            r.key_index == key_index,
            r.hash == hash,
            r.next_index.is_none(),
            r.previous_index.is_none(),
            r.value == value,
    {
        ValueEntry { key_index, hash, next_index: None, previous_index: None, value }
    }
}

/// The occupied value slots, in slot order, as (digest, value) pairs.
pub open spec fn value_live<V>(s: Seq<Option<ValueEntry<V>>>) -> Seq<(u64, V)>
    decreases s.len(),
{
    if s.len() == 0 {
        Seq::empty()
    } else {
        let rest = value_live(s.drop_last());
        match s.last() {
            Some(e) => rest.push((e.hash@, e.value)),
            None => rest,
        }
    }
}

/// The positions of the occupied value slots whose digest is `h`, ascending.
pub open spec fn slots_with<V>(s: Seq<Option<ValueEntry<V>>>, h: u64) -> Seq<int>
    decreases s.len(),
{
    if s.len() == 0 {
        Seq::empty()
    } else {
        let rest = slots_with(s.drop_last(), h);
        match s.last() {
            Some(e) => if e.hash@ == h {
                rest.push(s.len() - 1)
            } else {
                rest
            },
            None => rest,
        }
    }
}

/// The digests of the occupied key slots, in slot order.
pub open spec fn key_live<K>(s: Seq<Option<KeyEntry<K>>>) -> Seq<u64>
    decreases s.len(),
{
    if s.len() == 0 {
        Seq::empty()
    } else {
        let rest = key_live(s.drop_last());
        match s.last() {
            Some(e) => rest.push(e.hash),
            None => rest,
        }
    }
}

/// Selects the pairs whose digest is `h`.
pub open spec fn has_hash<V>(h: u64) -> spec_fn((u64, V)) -> bool {
    |e: (u64, V)| e.0 == h
}

/// Selects the pairs whose digest is not `h`.
pub open spec fn lacks_hash<V>(h: u64) -> spec_fn((u64, V)) -> bool {
    |e: (u64, V)| e.0 != h
}

/// Selects the digests other than `h`.
pub open spec fn other_than(h: u64) -> spec_fn(u64) -> bool {
    |x: u64| x != h
}

/// The value stored in an occupied slot.
pub open spec fn slot_value<V>(s: Seq<Option<ValueEntry<V>>>, i: int) -> V {
    s[i].unwrap().value
}

/// Occupancy, digest and value agree slot by slot.
pub open spec fn same_payload<V>(a: Seq<Option<ValueEntry<V>>>, b: Seq<Option<ValueEntry<V>>>) -> bool {
    &&& a.len() == b.len()
    &&& forall|i: int|
        0 <= i < a.len() ==> (#[trigger] a[i]).is_some() == b[i].is_some() && (a[i].is_some()
            ==> a[i].unwrap().hash@ == b[i].unwrap().hash@ && a[i].unwrap().value
            == b[i].unwrap().value)
}

/// `b` is `a` with every occupied slot of digest `h` emptied.
pub open spec fn dropped_hash<V>(a: Seq<Option<ValueEntry<V>>>, b: Seq<Option<ValueEntry<V>>>, h: u64) -> bool {
    &&& a.len() == b.len()
    &&& forall|i: int|
        0 <= i < a.len() ==> #[trigger] b[i] == if a[i].is_some() && a[i].unwrap().hash@ == h {
            None
        } else {
            a[i]
        }
}

/// `b` is `a` with every occupied key slot of digest `h` emptied.
pub open spec fn dropped_key<K>(a: Seq<Option<KeyEntry<K>>>, b: Seq<Option<KeyEntry<K>>>, h: u64) -> bool {
    &&& a.len() == b.len()
    &&& forall|i: int|
        0 <= i < a.len() ==> #[trigger] b[i] == if a[i].is_some() && a[i].unwrap().hash == h {
            None
        } else {
            a[i]
        }
}

pub proof fn lemma_value_push<V>(s: Seq<Option<ValueEntry<V>>>, x: Option<ValueEntry<V>>)
    ensures
        value_live(s.push(x)) == match x {
            Some(e) => value_live(s).push((e.hash@, e.value)),
            None => value_live(s),
        },
        forall|h: u64|
            #[trigger] slots_with(s.push(x), h) == match x {
                Some(e) => if e.hash@ == h {
                    slots_with(s, h).push(s.len() as int)
                } else {
                    slots_with(s, h)
                },
                None => slots_with(s, h),
            },
{
    assert(s.push(x).drop_last() =~= s);
    assert forall|h: u64|
        #[trigger] slots_with(s.push(x), h) == match x {
            Some(e) => if e.hash@ == h {
                slots_with(s, h).push(s.len() as int)
            } else {
                slots_with(s, h)
            },
            None => slots_with(s, h),
        } by {
        assert(s.push(x).drop_last() =~= s);
    }
}

pub proof fn lemma_key_push<K>(s: Seq<Option<KeyEntry<K>>>, x: Option<KeyEntry<K>>)
    ensures
        key_live(s.push(x)) == match x {
            Some(e) => key_live(s).push(e.hash),
            None => key_live(s),
        },
{
    assert(s.push(x).drop_last() =~= s);
}

pub proof fn lemma_same_payload<V>(a: Seq<Option<ValueEntry<V>>>, b: Seq<Option<ValueEntry<V>>>)
    requires
        same_payload(a, b),
    ensures
        value_live(a) == value_live(b),
        forall|h: u64| #[trigger] slots_with(a, h) == slots_with(b, h),
    decreases a.len(),
{
    if a.len() > 0 {
        assert(same_payload(a.drop_last(), b.drop_last())) by {
            assert forall|i: int| 0 <= i < a.drop_last().len() implies (#[trigger] a.drop_last()[i]).is_some()
                == b.drop_last()[i].is_some() && (a.drop_last()[i].is_some()
                ==> a.drop_last()[i].unwrap().hash@ == b.drop_last()[i].unwrap().hash@
                && a.drop_last()[i].unwrap().value == b.drop_last()[i].unwrap().value) by {
                assert(a.drop_last()[i] == a[i]);
                assert(b.drop_last()[i] == b[i]);
            }
        }
        lemma_same_payload(a.drop_last(), b.drop_last());
        assert(a.last() == a[a.len() - 1]);
        assert(b.last() == b[b.len() - 1]);
        assert forall|h: u64| #[trigger] slots_with(a, h) == slots_with(b, h) by {
            assert(slots_with(a.drop_last(), h) == slots_with(b.drop_last(), h));
        }
    }
}

/// A digest has no more occupied slots than there are occupied slots.
pub proof fn lemma_slots_len<V>(s: Seq<Option<ValueEntry<V>>>, h: u64)
    ensures
        slots_with(s, h).len() <= value_live(s).len() <= s.len(),
    decreases s.len(),
{
    if s.len() > 0 {
        lemma_slots_len(s.drop_last(), h);
    }
}


/// What `slots_with` lists: every occupied slot of digest `h`, ascending.
pub proof fn lemma_slots_with<V>(s: Seq<Option<ValueEntry<V>>>, h: u64)
    ensures
        forall|k: int|
            0 <= k < slots_with(s, h).len() ==> 0 <= #[trigger] slots_with(s, h)[k] < s.len()
                && s[slots_with(s, h)[k]].is_some() && s[slots_with(s, h)[k]].unwrap().hash@ == h,
        forall|k: int, l: int|
            0 <= k < l < slots_with(s, h).len() ==> #[trigger] slots_with(s, h)[k]
                < #[trigger] slots_with(s, h)[l],
        forall|i: int|
            0 <= i < s.len() && (#[trigger] s[i]).is_some() && s[i].unwrap().hash@ == h
                ==> slots_with(s, h).contains(i),
    decreases s.len(),
{
    if s.len() > 0 {
        let t = s.drop_last();
        lemma_slots_with(t, h);
        let r = slots_with(t, h);
        assert forall|i: int|
            0 <= i < s.len() && (#[trigger] s[i]).is_some() && s[i].unwrap().hash@ == h
                implies slots_with(s, h).contains(i) by {
            if i < s.len() - 1 {
                assert(t[i] == s[i]);
                let k = choose|k: int| 0 <= k < r.len() && r[k] == i;
                assert(slots_with(s, h)[k] == i);
            } else {
                assert(slots_with(s, h)[r.len() as int] == i);
            }
        }
        assert forall|k: int|
            0 <= k < slots_with(s, h).len() implies 0 <= #[trigger] slots_with(s, h)[k] < s.len()
                && s[slots_with(s, h)[k]].is_some() && s[slots_with(s, h)[k]].unwrap().hash@ == h by {
            if k < r.len() {
                assert(t[r[k]] == s[r[k]]);
            }
        }
    }
}

/// The values of digest `h`, read off the slots, are those of the occupied pairs of digest `h`.
pub proof fn lemma_values_of<V>(s: Seq<Option<ValueEntry<V>>>, h: u64)
    ensures
        value_live(s).filter(has_hash::<V>(h)).map_values(|e: (u64, V)| e.1)
            == slots_with(s, h).map_values(|i: int| slot_value(s, i)),
    decreases s.len(),
{
    let f = |e: (u64, V)| e.1;
    if s.len() == 0 {
        assert(value_live(s).filter(has_hash::<V>(h)) =~= Seq::empty());
        assert(value_live(s).filter(has_hash::<V>(h)).map_values(f) =~= slots_with(s, h).map_values(
            |i: int| slot_value(s, i),
        ));
    } else {
        let t = s.drop_last();
        lemma_values_of(t, h);
        lemma_slots_with(t, h);
        assert(s =~= t.push(s.last()));
        lemma_value_push(t, s.last());
        let g = |i: int| slot_value(s, i);
        let gt = |i: int| slot_value(t, i);
        let r = slots_with(t, h);
        assert(r.map_values(g) =~= r.map_values(gt)) by {
            assert forall|k: int| 0 <= k < r.len() implies r.map_values(g)[k] == r.map_values(gt)[k] by {
                assert(t[r[k]] == s[r[k]]);
            }
        }
        match s.last() {
            Some(e) => {
                value_live(t).lemma_filter_push((e.hash@, e.value), has_hash::<V>(h));
                if e.hash@ == h {
                    assert(slots_with(s, h).map_values(g) =~= r.map_values(g).push(e.value));
                    assert(value_live(s).filter(has_hash::<V>(h)).map_values(f) =~= value_live(
                        t,
                    ).filter(has_hash::<V>(h)).map_values(f).push(e.value));
                } else {
                    assert(slots_with(s, h).map_values(g) =~= r.map_values(g));
                }
            },
            None => {
                assert(slots_with(s, h).map_values(g) =~= r.map_values(g));
            },
        }
    }
}

/// Emptying the slots of digest `h` removes exactly the pairs of digest `h`.
pub proof fn lemma_dropped_hash<V>(a: Seq<Option<ValueEntry<V>>>, b: Seq<Option<ValueEntry<V>>>, h: u64)
    requires
        dropped_hash(a, b, h),
    ensures
        value_live(b) == value_live(a).filter(lacks_hash::<V>(h)),
        value_live(b).len() + slots_with(a, h).len() == value_live(a).len(),
        slots_with(b, h).len() == 0,
        forall|g: u64| g != h ==> #[trigger] slots_with(b, g) == slots_with(a, g),
    decreases a.len(),
{
    if a.len() == 0 {
        assert(value_live(a).filter(lacks_hash::<V>(h)) =~= Seq::empty());
    } else {
        let ta = a.drop_last();
        let tb = b.drop_last();
        assert(dropped_hash(ta, tb, h)) by {
            assert forall|i: int| 0 <= i < ta.len() implies #[trigger] tb[i] == if ta[i].is_some()
                && ta[i].unwrap().hash@ == h {
                None
            } else {
                ta[i]
            } by {
                assert(ta[i] == a[i]);
                assert(tb[i] == b[i]);
            }
        }
        lemma_dropped_hash(ta, tb, h);
        assert(a =~= ta.push(a.last()));
        assert(b =~= tb.push(b.last()));
        assert(b.last() == b[b.len() - 1]);
        lemma_value_push(ta, a.last());
        lemma_value_push(tb, b.last());
        match a.last() {
            Some(e) => {
                value_live(ta).lemma_filter_push((e.hash@, e.value), lacks_hash::<V>(h));
            },
            None => {},
        }
        assert forall|g: u64| g != h implies #[trigger] slots_with(b, g) == slots_with(a, g) by {
            assert(slots_with(tb, g) == slots_with(ta, g));
        }
    }
}

/// Emptying the key slot of digest `h` removes `h` from the key digests.
pub proof fn lemma_dropped_key<K>(a: Seq<Option<KeyEntry<K>>>, b: Seq<Option<KeyEntry<K>>>, h: u64)
    requires
        dropped_key(a, b, h),
    ensures
        key_live(b) == key_live(a).filter(other_than(h)),
    decreases a.len(),
{
    if a.len() == 0 {
        assert(key_live(a).filter(other_than(h)) =~= Seq::empty());
    } else {
        let ta = a.drop_last();
        let tb = b.drop_last();
        assert(dropped_key(ta, tb, h)) by {
            assert forall|i: int| 0 <= i < ta.len() implies #[trigger] tb[i] == if ta[i].is_some()
                && ta[i].unwrap().hash == h {
                None
            } else {
                ta[i]
            } by {
                assert(ta[i] == a[i]);
                assert(tb[i] == b[i]);
            }
        }
        lemma_dropped_key(ta, tb, h);
        assert(a =~= ta.push(a.last()));
        assert(b =~= tb.push(b.last()));
        assert(b.last() == b[b.len() - 1]);
        lemma_key_push(ta, a.last());
        lemma_key_push(tb, b.last());
        match a.last() {
            Some(e) => {
                key_live(ta).lemma_filter_push(e.hash, other_than(h));
            },
            None => {},
        }
    }
}

/// Emptying one occupied key slot removes one key digest.
pub proof fn lemma_key_clear_len<K>(s: Seq<Option<KeyEntry<K>>>, j: int)
    requires
        0 <= j < s.len(),
        s[j].is_some(),
    ensures
        key_live(s.update(j, None)).len() + 1 == key_live(s).len(),
    decreases s.len(),
{
    let t = s.update(j, None);
    if j == s.len() - 1 {
        assert(t.drop_last() =~= s.drop_last());
    } else {
        assert(t.drop_last() =~= s.drop_last().update(j, None));
        lemma_key_clear_len(s.drop_last(), j);
        assert(t.last() == s.last());
    }
}

/// The contents of the occupied slots, in slot order.
pub open spec fn occupied<T>(s: Seq<Option<T>>) -> Seq<T>
    decreases s.len(),
{
    if s.len() == 0 {
        Seq::empty()
    } else {
        let rest = occupied(s.drop_last());
        match s.last() {
            Some(x) => rest.push(x),
            None => rest,
        }
    }
}

pub proof fn lemma_occupied_prepend<T>(x: Option<T>, t: Seq<Option<T>>)
    ensures
        occupied(seq![x] + t) == match x {
            Some(y) => seq![y] + occupied(t),
            None => occupied(t),
        },
    decreases t.len(),
{
    let s = seq![x] + t;
    if t.len() == 0 {
        assert(s.drop_last() =~= Seq::<Option<T>>::empty());
        assert(occupied(s.drop_last()) =~= Seq::<T>::empty());
        match x {
            Some(y) => {
                assert(occupied(s) =~= seq![y] + occupied(t));
            },
            None => {},
        }
    } else {
        assert(s.drop_last() =~= seq![x] + t.drop_last());
        lemma_occupied_prepend(x, t.drop_last());
        assert(s.last() == t.last());
        match x {
            Some(y) => {
                match t.last() {
                    Some(z) => {
                        assert(occupied(s) =~= seq![y] + occupied(t));
                    },
                    None => {},
                }
            },
            None => {},
        }
    }
}

/// `occupied` of a range of slots, one slot shorter at the front.
pub proof fn lemma_occupied_front<T>(s: Seq<Option<T>>, f: int, b: int)
    requires
        0 <= f < b <= s.len(),
    ensures
        occupied(s.subrange(f, b)) == match s[f] {
            Some(y) => seq![y] + occupied(s.subrange(f + 1, b)),
            None => occupied(s.subrange(f + 1, b)),
        },
{
    assert(s.subrange(f, b) =~= seq![s[f]] + s.subrange(f + 1, b));
    lemma_occupied_prepend(s[f], s.subrange(f + 1, b));
}

/// `occupied` of a range of slots, one slot shorter at the back.
pub proof fn lemma_occupied_back<T>(s: Seq<Option<T>>, f: int, b: int)
    requires
        0 <= f < b <= s.len(),
    ensures
        occupied(s.subrange(f, b)) == match s[b - 1] {
            Some(y) => occupied(s.subrange(f, b - 1)).push(y),
            None => occupied(s.subrange(f, b - 1)),
        },
{
    assert(s.subrange(f, b).drop_last() =~= s.subrange(f, b - 1));
    assert(s.subrange(f, b).last() == s[b - 1]);
}

/// What holds of every occupied slot holds of every element of `occupied`.
pub proof fn lemma_occupied_all<T>(s: Seq<Option<T>>, p: spec_fn(T) -> bool)
    requires
        forall|i: int| 0 <= i < s.len() && (#[trigger] s[i]).is_some() ==> p(s[i].unwrap()),
    ensures
        forall|k: int| 0 <= k < occupied(s).len() ==> p(#[trigger] occupied(s)[k]),
    decreases s.len(),
{
    if s.len() > 0 {
        let t = s.drop_last();
        assert forall|i: int| 0 <= i < t.len() && (#[trigger] t[i]).is_some() implies p(t[i].unwrap()) by {
            assert(t[i] == s[i]);
        }
        lemma_occupied_all(t, p);
        assert(s.last() == s[s.len() - 1]);
        assert forall|k: int| 0 <= k < occupied(s).len() implies p(#[trigger] occupied(s)[k]) by {
            if k < occupied(t).len() {
                assert(occupied(s)[k] == occupied(t)[k]);
            }
        }
    }
}

pub proof fn lemma_value_live_occupied<V>(s: Seq<Option<ValueEntry<V>>>)
    ensures
        value_live(s) == occupied(s).map_values(|e: ValueEntry<V>| (e.hash@, e.value)),
    decreases s.len(),
{
    if s.len() > 0 {
        lemma_value_live_occupied(s.drop_last());
        assert(value_live(s) =~= occupied(s).map_values(|e: ValueEntry<V>| (e.hash@, e.value)));
    } else {
        assert(value_live(s) =~= occupied(s).map_values(|e: ValueEntry<V>| (e.hash@, e.value)));
    }
}

pub proof fn lemma_key_live_occupied<K>(s: Seq<Option<KeyEntry<K>>>)
    ensures
        key_live(s) == occupied(s).map_values(|e: KeyEntry<K>| e.hash),
    decreases s.len(),
{
    if s.len() > 0 {
        lemma_key_live_occupied(s.drop_last());
        assert(key_live(s) =~= occupied(s).map_values(|e: KeyEntry<K>| e.hash));
    } else {
        assert(key_live(s) =~= occupied(s).map_values(|e: KeyEntry<K>| e.hash));
    }
}

/// Selects the occupied slots.
pub open spec fn is_occupied<T>() -> spec_fn(Option<T>) -> bool {
    |x: Option<T>| x.is_some()
}

/// Where slot `i` lands once the empty slots are squeezed out: the number of
/// occupied slots before it.
pub open spec fn rank<T>(s: Seq<Option<T>>, i: int) -> nat {
    s.subrange(0, i).filter(is_occupied::<T>()).len()
}

/// Squeezing out the empty slots moves each occupied slot to its rank, keeps
/// their order, and leaves no other slot behind.
pub proof fn lemma_rank<T>(s: Seq<Option<T>>)
    ensures
        rank(s, s.len() as int) == s.filter(is_occupied::<T>()).len(),
        forall|i: int|
            0 <= i < s.len() && (#[trigger] s[i]).is_some() ==> rank(s, i) < s.filter(
                is_occupied::<T>(),
            ).len() && s.filter(is_occupied::<T>())[rank(s, i) as int] == s[i],
        forall|t: int|
            0 <= t < s.filter(is_occupied::<T>()).len() ==> (#[trigger] s.filter(is_occupied::<T>())[t]).is_some()
                && exists|i: int| 0 <= i < s.len() && s[i].is_some() && #[trigger] rank(s, i) == t,
        forall|i: int, j: int|
            0 <= i < j <= s.len() && s[i].is_some() ==> #[trigger] rank(s, i) < #[trigger] rank(s, j),
    decreases s.len(),
{
    let p = is_occupied::<T>();
    assert(s.subrange(0, s.len() as int) =~= s);
    if s.len() > 0 {
        let t = s.drop_last();
        lemma_rank(t);
        assert(s =~= t.push(s.last()));
        t.lemma_filter_push(s.last(), p);
        assert forall|i: int| 0 <= i <= t.len() implies #[trigger] rank(s, i) == rank(t, i) by {
            assert(s.subrange(0, i) =~= t.subrange(0, i));
        }
        assert(rank(s, t.len() as int) == t.filter(p).len());
        assert forall|i: int| 0 <= i < s.len() && (#[trigger] s[i]).is_some() implies rank(s, i) < s.filter(
            p,
        ).len() && s.filter(p)[rank(s, i) as int] == s[i] by {
            if i < t.len() {
                assert(t[i] == s[i]);
                assert(rank(s, i) == rank(t, i));
            }
        }
        assert forall|k: int| 0 <= k < s.filter(p).len() implies (#[trigger] s.filter(p)[k]).is_some() && exists|i: int|
            0 <= i < s.len() && s[i].is_some() && #[trigger] rank(s, i) == k by {
            if k < t.filter(p).len() {
                assert(s.filter(p)[k] == t.filter(p)[k]);
                assert(t.filter(p)[k].is_some());
                let i = choose|i: int| 0 <= i < t.len() && t[i].is_some() && #[trigger] rank(t, i) == k;
                assert(t[i] == s[i]);
                assert(rank(s, i) == rank(t, i));
            } else {
                assert(rank(s, t.len() as int) == k);
            }
        }
        assert forall|i: int, j: int| 0 <= i < j <= s.len() && s[i].is_some() implies #[trigger] rank(s, i)
            < #[trigger] rank(s, j) by {
            if i < t.len() {
                assert(t[i] == s[i]);
            }
            if j <= t.len() {
                assert(rank(s, i) == rank(t, i));
                assert(rank(s, j) == rank(t, j));
            } else {
                assert(rank(s, i) == rank(t, i));
                if i < t.len() {
                    assert(rank(t, i) < rank(t, t.len() as int));
                }
                assert(s.subrange(0, j) =~= t.push(s.last()));
            }
        }
    } else {
        assert(s.filter(p) =~= Seq::<Option<T>>::empty());
    }
}

/// Squeezing out the empty value slots keeps the pairs, and moves the slots
/// of each digest to their ranks.
pub proof fn lemma_compact_values<V>(s: Seq<Option<ValueEntry<V>>>)
    ensures
        value_live(s.filter(is_occupied::<ValueEntry<V>>())) == value_live(s),
        forall|h: u64|
            #[trigger] slots_with(s.filter(is_occupied::<ValueEntry<V>>()), h) == slots_with(
                s,
                h,
            ).map_values(|i: int| rank(s, i) as int),
    decreases s.len(),
{
    let p = is_occupied::<ValueEntry<V>>();
    if s.len() == 0 {
        assert(s.filter(p) =~= s);
        assert forall|h: u64| #[trigger] slots_with(s.filter(p), h) == slots_with(s, h).map_values(
            |i: int| rank(s, i) as int,
        ) by {
            assert(slots_with(s, h).map_values(|i: int| rank(s, i) as int) =~= Seq::<int>::empty());
        }
    } else {
        let t = s.drop_last();
        lemma_compact_values(t);
        assert(s =~= t.push(s.last()));
        t.lemma_filter_push(s.last(), p);
        lemma_value_push(t, s.last());
        lemma_value_push(t.filter(p), s.last());
        assert forall|i: int| 0 <= i <= t.len() implies #[trigger] rank(s, i) == rank(t, i) by {
            assert(s.subrange(0, i) =~= t.subrange(0, i));
        }
        assert(t.subrange(0, t.len() as int) =~= t);
        assert forall|h: u64| #[trigger] slots_with(s.filter(p), h) == slots_with(s, h).map_values(
            |i: int| rank(s, i) as int,
        ) by {
            lemma_slots_with(t, h);
            let c = slots_with(t, h);
            assert forall|k: int| 0 <= k < c.len() implies rank(s, #[trigger] c[k]) == rank(t, c[k]) by {}
            assert(c.map_values(|i: int| rank(s, i) as int) =~= c.map_values(|i: int| rank(t, i) as int));
            match s.last() {
                Some(e) => {
                    if e.hash@ == h {
                        assert(rank(s, t.len() as int) == t.filter(p).len());
                        assert(slots_with(s, h).map_values(|i: int| rank(s, i) as int) =~= c.map_values(
                            |i: int| rank(s, i) as int,
                        ).push(t.filter(p).len() as int));
                    } else {
                        assert(slots_with(s, h).map_values(|i: int| rank(s, i) as int) =~= c.map_values(
                            |i: int| rank(s, i) as int,
                        ));
                    }
                },
                None => {
                    assert(slots_with(s, h).map_values(|i: int| rank(s, i) as int) =~= c.map_values(
                        |i: int| rank(s, i) as int,
                    ));
                },
            }
        }
    }
}

/// Squeezing out the empty key slots keeps the key digests.
pub proof fn lemma_compact_keys<K>(s: Seq<Option<KeyEntry<K>>>)
    ensures
        key_live(s.filter(is_occupied::<KeyEntry<K>>())) == key_live(s),
    decreases s.len(),
{
    let p = is_occupied::<KeyEntry<K>>();
    if s.len() == 0 {
        assert(s.filter(p) =~= s);
    } else {
        let t = s.drop_last();
        lemma_compact_keys(t);
        assert(s =~= t.push(s.last()));
        t.lemma_filter_push(s.last(), p);
        lemma_key_push(t, s.last());
        lemma_key_push(t.filter(p), s.last());
    }
}

pub proof fn lemma_key_live_len<K>(s: Seq<Option<KeyEntry<K>>>)
    ensures
        key_live(s).len() <= s.len(),
    decreases s.len(),
{
    if s.len() > 0 {
        lemma_key_live_len(s.drop_last());
    }
}

/// Occupancy and digest agree slot by slot.
pub open spec fn same_shape<V>(a: Seq<Option<ValueEntry<V>>>, b: Seq<Option<ValueEntry<V>>>) -> bool {
    &&& a.len() == b.len()
    &&& forall|i: int|
        0 <= i < a.len() ==> (#[trigger] a[i]).is_some() == b[i].is_some() && (a[i].is_some()
            ==> a[i].unwrap().hash@ == b[i].unwrap().hash@)
}

/// The digests of the occupied pairs.
pub open spec fn live_hashes<V>(s: Seq<Option<ValueEntry<V>>>) -> Seq<u64> {
    value_live(s).map_values(|e: (u64, V)| e.0)
}

pub proof fn lemma_same_shape<V>(a: Seq<Option<ValueEntry<V>>>, b: Seq<Option<ValueEntry<V>>>)
    requires
        same_shape(a, b),
    ensures
        live_hashes(a) == live_hashes(b),
        value_live(a).len() == value_live(b).len(),
        forall|h: u64| #[trigger] slots_with(a, h) == slots_with(b, h),
    decreases a.len(),
{
    if a.len() > 0 {
        let ta = a.drop_last();
        let tb = b.drop_last();
        assert(same_shape(ta, tb)) by {
            assert forall|i: int| 0 <= i < ta.len() implies (#[trigger] ta[i]).is_some() == tb[i].is_some()
                && (ta[i].is_some() ==> ta[i].unwrap().hash@ == tb[i].unwrap().hash@) by {
                assert(ta[i] == a[i]);
                assert(tb[i] == b[i]);
            }
        }
        lemma_same_shape(ta, tb);
        assert(a.last() == a[a.len() - 1]);
        assert(b.last() == b[b.len() - 1]);
        assert(live_hashes(a) =~= live_hashes(b)) by {
            assert(live_hashes(ta) == live_hashes(tb));
            match a.last() {
                Some(e) => {
                    assert(live_hashes(a) =~= live_hashes(ta).push(e.hash@));
                    assert(live_hashes(b) =~= live_hashes(tb).push(e.hash@));
                },
                None => {
                    assert(live_hashes(a) =~= live_hashes(ta));
                    assert(live_hashes(b) =~= live_hashes(tb));
                },
            }
        }
        assert forall|h: u64| #[trigger] slots_with(a, h) == slots_with(b, h) by {
            assert(slots_with(ta, h) == slots_with(tb, h));
        }
    } else {
        assert(live_hashes(a) =~= live_hashes(b));
    }
}

/// When every slot is occupied, every slot is counted.
pub proof fn lemma_full_slots<K, V>(ks: Seq<Option<KeyEntry<K>>>, vs: Seq<Option<ValueEntry<V>>>)
    requires
        forall|i: int| 0 <= i < ks.len() ==> (#[trigger] ks[i]).is_some(),
        forall|i: int| 0 <= i < vs.len() ==> (#[trigger] vs[i]).is_some(),
    ensures
        key_live(ks).len() == ks.len(),
        value_live(vs).len() == vs.len(),
    decreases ks.len() + vs.len(),
{
    if ks.len() > 0 {
        let t = ks.drop_last();
        assert forall|i: int| 0 <= i < t.len() implies (#[trigger] t[i]).is_some() by {
            assert(t[i] == ks[i]);
        }
        lemma_full_slots(t, vs);
        assert(ks.last() == ks[ks.len() - 1]);
    } else if vs.len() > 0 {
        let t = vs.drop_last();
        assert forall|i: int| 0 <= i < t.len() implies (#[trigger] t[i]).is_some() by {
            assert(t[i] == vs[i]);
        }
        lemma_full_slots(ks, t);
        assert(vs.last() == vs[vs.len() - 1]);
    }
}

} // verus!
