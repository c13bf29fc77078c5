//! How slot storage and the hash index stand for the multimap's model, the
//! consistency they keep, and the facts about it that the operations use.
use vstd::prelude::*;
use crate::index::MapEntry;
use crate::iter::{key_slot_ok, pair_of};
use crate::model::MultimapModel;
use crate::slots::{
    dropped_hash, dropped_key, is_occupied, key_live, lemma_compact_keys, lemma_compact_values,
    lemma_dropped_hash, lemma_dropped_key, lemma_full_slots, lemma_key_clear_len, lemma_key_live_len,
    lemma_key_live_occupied, lemma_key_push, lemma_occupied_all, lemma_rank, lemma_same_payload,
    lemma_same_shape, lemma_slots_len, lemma_slots_with, lemma_value_live_occupied,
    lemma_value_push, lemma_values_of, live_hashes, occupied, rank, same_payload, same_shape,
    slot_value, slots_with, value_live, KeyEntry, ValueEntry,
};

verus! {

/// The occupied slots of digest `h` are linked in order, each to its
/// neighbours, and `r` records the first, the last and their number.
pub open spec fn chain_ok<V>(vs: Seq<Option<ValueEntry<V>>>, h: u64, r: MapEntry) -> bool {
    let c = slots_with(vs, h);
    &&& c.len() == r.length
    &&& r.length > 0
    &&& c[0] == r.head_index
    &&& c.last() == r.tail_index
    &&& forall|k: int| 0 <= k < c.len() ==> #[trigger] links_ok(vs, c, k)
}

/// The links of the `k`-th slot of `c` point at its neighbours in `c`.
pub open spec fn links_ok<V>(vs: Seq<Option<ValueEntry<V>>>, c: Seq<int>, k: int) -> bool {
    let e = vs[c[k]].unwrap();
    &&& e.next_index == if k + 1 < c.len() {
        Some(c[k + 1] as usize)
    } else {
        None
    }
    &&& e.previous_index == if k > 0 {
        Some(c[k - 1] as usize)
    } else {
        None
    }
}

/// `e` with its next link set to `n`.
pub open spec fn with_next<V>(e: ValueEntry<V>, n: Option<usize>) -> ValueEntry<V> {
    ValueEntry { next_index: n, ..e }
}

/// The model that slot storage and index records stand for.
pub open spec fn model_of<K, V>(
    ks: Seq<Option<KeyEntry<K>>>,
    vs: Seq<Option<ValueEntry<V>>>,
    ix: Map<u64, MapEntry>,
) -> MultimapModel<K, V> {
    MultimapModel {
        entries: value_live(vs),
        keys: key_live(ks),
        key_of: Map::new(
            |h: u64| ix.contains_key(h),
            |h: u64| ks[ix[h].key_index as int].unwrap().key,
        ),
    }
}

/// The consistency of slot storage, counts and index records.
pub open spec fn layout_wf<K, V>(
    ks: Seq<Option<KeyEntry<K>>>,
    kc: nat,
    vs: Seq<Option<ValueEntry<V>>>,
    vc: nat,
    ix: Map<u64, MapEntry>,
) -> bool {
    &&& ix.dom().finite()
    &&& ix.dom().len() == kc
    &&& kc == key_live(ks).len()
    &&& vc == value_live(vs).len()
    &&& kc <= ks.len()
    &&& vc <= vs.len()
    &&& forall|h: u64|
        #[trigger] ix.contains_key(h) ==> {
            &&& ix[h].key_index < ks.len()
            &&& ks[ix[h].key_index as int].is_some()
            &&& ks[ix[h].key_index as int].unwrap().hash == h
            &&& chain_ok(vs, h, ix[h])
        }
    &&& forall|j: int|
        0 <= j < ks.len() && (#[trigger] ks[j]).is_some() ==> ix.contains_key(ks[j].unwrap().hash)
            && ix[ks[j].unwrap().hash].key_index == j
    &&& forall|i: int|
        0 <= i < vs.len() && (#[trigger] vs[i]).is_some() ==> ix.contains_key(vs[i].unwrap().hash@)
            && vs[i].unwrap().key_index == ix[vs[i].unwrap().hash@].key_index
}


/// The record of `h` once `n` is linked after its last slot.
pub open spec fn extended(r: MapEntry, n: int) -> MapEntry {
    MapEntry { length: (r.length + 1) as usize, tail_index: n as usize, ..r }
}

/// Linking a new last value to a key that has values keeps the layout
/// consistent and appends the value to the model.
pub proof fn lemma_append_existing<K, V>(
    ks: Seq<Option<KeyEntry<K>>>,
    kc: nat,
    vs0: Seq<Option<ValueEntry<V>>>,
    vc: nat,
    ix0: Map<u64, MapEntry>,
    vs2: Seq<Option<ValueEntry<V>>>,
    hash: u64,
    key: K,
    entry: ValueEntry<V>,
)
    requires
        layout_wf(ks, kc, vs0, vc, ix0),
        ix0.contains_key(hash),
        vs0.len() < usize::MAX,
        entry.key_index == ix0[hash].key_index,
        entry.hash@ == hash,
        entry.next_index.is_none(),
        entry.previous_index == Some(ix0[hash].tail_index),
        vs2 == vs0.push(Some(entry)).update(
            ix0[hash].tail_index as int,
            Some(with_next(vs0[ix0[hash].tail_index as int].unwrap(), Some(vs0.len() as usize))),
        ),
    ensures
        ix0[hash].length < usize::MAX,
        ix0[hash].tail_index < vs0.len(),
        vs0[ix0[hash].tail_index as int].is_some(),
        layout_wf(ks, kc, vs2, vc + 1, ix0.insert(hash, extended(ix0[hash], vs0.len() as int))),
        model_of(ks, vs2, ix0.insert(hash, extended(ix0[hash], vs0.len() as int))) == model_of(
            ks,
            vs0,
            ix0,
        ).appended(hash, key, entry.value),
{
    let n = vs0.len() as int;
    let r = ix0[hash];
    let ix2 = ix0.insert(hash, extended(r, n));
    let vs1 = vs0.push(Some(entry));
    let tail = r.tail_index as int;
    let c0 = slots_with(vs0, hash);
    lemma_slots_len(vs0, hash);
    lemma_slots_with(vs0, hash);
    lemma_value_push(vs0, Some(entry));
    assert(links_ok(vs0, c0, c0.len() - 1));
    assert(vs0[tail].is_some());
    assert(same_payload(vs1, vs2)) by {
        assert forall|i: int| 0 <= i < vs1.len() implies (#[trigger] vs1[i]).is_some()
            == vs2[i].is_some() && (vs1[i].is_some() ==> vs1[i].unwrap().hash@
            == vs2[i].unwrap().hash@ && vs1[i].unwrap().value == vs2[i].unwrap().value) by {
            if i == tail {
                assert(vs1[i] == vs0[i]);
            }
        }
    }
    lemma_same_payload(vs1, vs2);
    assert(ix2.dom() =~= ix0.dom());
    assert forall|h: u64| #[trigger] ix2.contains_key(h) implies {
        &&& ix2[h].key_index < ks.len()
        &&& ks[ix2[h].key_index as int].is_some()
        &&& ks[ix2[h].key_index as int].unwrap().hash == h
        &&& chain_ok(vs2, h, ix2[h])
    } by {
        if h == hash {
            let c2 = slots_with(vs2, h);
            assert(slots_with(vs1, h) == c0.push(n));
            assert(slots_with(vs1, h) == slots_with(vs2, h));
            assert forall|k: int| 0 <= k < c2.len() implies #[trigger] links_ok(vs2, c2, k) by {
                if k < c0.len() - 1 {
                    assert(c0[k] < c0[c0.len() - 1]);
                    assert(vs2[c2[k]] == vs0[c0[k]]);
                    assert(links_ok(vs0, c0, k));
                } else if k == c0.len() - 1 {
                    assert(c2[k] == tail);
                } else {
                    assert(c2[k] == n);
                    assert(vs2[n] == Some(entry));
                }
            }
        } else {
            let c = slots_with(vs0, h);
            lemma_slots_with(vs0, h);
            assert(slots_with(vs1, h) == c);
            assert(slots_with(vs1, h) == slots_with(vs2, h));
            assert(chain_ok(vs0, h, ix0[h]));
            assert forall|k: int| 0 <= k < c.len() implies #[trigger] links_ok(vs2, c, k) by {
                assert(vs0[c[k]].unwrap().hash@ == h);
                assert(vs2[c[k]] == vs0[c[k]]);
                assert(links_ok(vs0, c, k));
            }
        }
    }
    assert forall|j: int| 0 <= j < ks.len() && (#[trigger] ks[j]).is_some() implies ix2.contains_key(
        ks[j].unwrap().hash,
    ) && ix2[ks[j].unwrap().hash].key_index == j by {}
    assert forall|i: int| 0 <= i < vs2.len() && (#[trigger] vs2[i]).is_some() implies ix2.contains_key(
        vs2[i].unwrap().hash@,
    ) && vs2[i].unwrap().key_index == ix2[vs2[i].unwrap().hash@].key_index by {
        if i < n {
            assert(vs0[i].is_some());
        }
    }
    assert(model_of(ks, vs2, ix2).key_of =~= model_of(ks, vs0, ix0).key_of);
}

/// Storing a new key with a single value keeps the layout consistent and
/// appends both to the model.
pub proof fn lemma_append_new<K, V>(
    ks0: Seq<Option<KeyEntry<K>>>,
    kc: nat,
    vs0: Seq<Option<ValueEntry<V>>>,
    vc: nat,
    ix0: Map<u64, MapEntry>,
    hash: u64,
    kentry: KeyEntry<K>,
    entry: ValueEntry<V>,
)
    requires
        layout_wf(ks0, kc, vs0, vc, ix0),
        !ix0.contains_key(hash),
        vs0.len() < usize::MAX,
        ks0.len() < usize::MAX,
        kentry.hash == hash,
        entry.key_index == ks0.len(),
        entry.hash@ == hash,
        entry.next_index.is_none(),
        entry.previous_index.is_none(),
    ensures
        ({
            let ix1 = ix0.insert(
                hash,
                MapEntry {
                    head_index: vs0.len() as usize,
                    key_index: ks0.len() as usize,
                    length: 1,
                    tail_index: vs0.len() as usize,
                },
            );
            &&& layout_wf(ks0.push(Some(kentry)), kc + 1, vs0.push(Some(entry)), vc + 1, ix1)
            &&& model_of(ks0.push(Some(kentry)), vs0.push(Some(entry)), ix1) == model_of(
                ks0,
                vs0,
                ix0,
            ).appended(hash, kentry.key, entry.value)
        }),
{
    let n = vs0.len() as int;
    let kn = ks0.len() as int;
    let ks1 = ks0.push(Some(kentry));
    let vs1 = vs0.push(Some(entry));
    let rec = MapEntry {
        head_index: vs0.len() as usize,
        key_index: ks0.len() as usize,
        length: 1,
        tail_index: vs0.len() as usize,
    };
    let ix1 = ix0.insert(hash, rec);
    lemma_value_push(vs0, Some(entry));
    lemma_key_push(ks0, Some(kentry));
    lemma_slots_with(vs0, hash);
    assert(slots_with(vs0, hash).len() == 0) by {
        if slots_with(vs0, hash).len() > 0 {
            assert(vs0[slots_with(vs0, hash)[0]].is_some());
        }
    }
    assert forall|h: u64| #[trigger] ix1.contains_key(h) implies {
        &&& ix1[h].key_index < ks1.len()
        &&& ks1[ix1[h].key_index as int].is_some()
        &&& ks1[ix1[h].key_index as int].unwrap().hash == h
        &&& chain_ok(vs1, h, ix1[h])
    } by {
        if h == hash {
            let c1 = slots_with(vs1, h);
            assert(slots_with(vs1, h) == slots_with(vs0, h).push(n));
            assert(c1 =~= seq![n]);
            assert(links_ok(vs1, c1, 0));
        } else {
            let c = slots_with(vs0, h);
            lemma_slots_with(vs0, h);
            assert(slots_with(vs1, h) == c);
            assert(chain_ok(vs0, h, ix0[h]));
            assert(ks1[ix0[h].key_index as int] == ks0[ix0[h].key_index as int]);
            assert forall|k: int| 0 <= k < c.len() implies #[trigger] links_ok(vs1, c, k) by {
                assert(vs1[c[k]] == vs0[c[k]]);
                assert(links_ok(vs0, c, k));
            }
        }
    }
    assert forall|j: int| 0 <= j < ks1.len() && (#[trigger] ks1[j]).is_some() implies ix1.contains_key(
        ks1[j].unwrap().hash,
    ) && ix1[ks1[j].unwrap().hash].key_index == j by {
        if j < kn {
            assert(ks0[j].is_some());
        }
    }
    assert forall|i: int| 0 <= i < vs1.len() && (#[trigger] vs1[i]).is_some() implies ix1.contains_key(
        vs1[i].unwrap().hash@,
    ) && vs1[i].unwrap().key_index == ix1[vs1[i].unwrap().hash@].key_index by {
        if i < n {
            assert(vs0[i].is_some());
        }
    }
    assert(ix1.dom() =~= ix0.dom().insert(hash));
    let m0 = model_of(ks0, vs0, ix0);
    assert(model_of(ks1, vs1, ix1).key_of =~= m0.key_of.insert(hash, kentry.key)) by {
        assert forall|h: u64| #[trigger] ix0.contains_key(h) implies ks1[ix0[h].key_index as int]
            == ks0[ix0[h].key_index as int] by {}
    }
}

/// The values of `h` in a consistent layout, read off its slots, are those of the model.
pub proof fn lemma_chain_values<K, V>(
    ks: Seq<Option<KeyEntry<K>>>,
    kc: nat,
    vs: Seq<Option<ValueEntry<V>>>,
    vc: nat,
    ix: Map<u64, MapEntry>,
    h: u64,
)
    requires
        layout_wf(ks, kc, vs, vc, ix),
    ensures
        slots_with(vs, h).map_values(|i: int| slot_value(vs, i)) == model_of(ks, vs, ix).values_of(h),
        !ix.contains_key(h) ==> slots_with(vs, h).len() == 0,
{
    lemma_values_of(vs, h);
    lemma_slots_with(vs, h);
    if !ix.contains_key(h) && slots_with(vs, h).len() > 0 {
        assert(vs[slots_with(vs, h)[0]].is_some());
    }
}

/// Replacing every value of a present key by one new value keeps the layout
/// consistent and is an insert in the model.
pub proof fn lemma_reset_chain<K, V>(
    ks: Seq<Option<KeyEntry<K>>>,
    kc: nat,
    vs0: Seq<Option<ValueEntry<V>>>,
    vc: nat,
    ix0: Map<u64, MapEntry>,
    vs1: Seq<Option<ValueEntry<V>>>,
    hash: u64,
    key: K,
    entry: ValueEntry<V>,
)
    requires
        layout_wf(ks, kc, vs0, vc, ix0),
        ix0.contains_key(hash),
        dropped_hash(vs0, vs1, hash),
        vs1.len() < usize::MAX,
        entry.key_index == ix0[hash].key_index,
        entry.hash@ == hash,
        entry.next_index.is_none(),
        entry.previous_index.is_none(),
    ensures
        ix0[hash].length <= vc,
        ({
            let n = vs1.len() as usize;
            let ix2 = ix0.insert(
                hash,
                MapEntry { head_index: n, key_index: ix0[hash].key_index, length: 1, tail_index: n },
            );
            let vs2 = vs1.push(Some(entry));
            &&& layout_wf(ks, kc, vs2, (vc - ix0[hash].length + 1) as nat, ix2)
            &&& model_of(ks, vs2, ix2) == model_of(ks, vs0, ix0).inserted(hash, key, entry.value)
        }),
{
    let n = vs1.len() as int;
    let r = ix0[hash];
    let ix2 = ix0.insert(
        hash,
        MapEntry { head_index: n as usize, key_index: r.key_index, length: 1, tail_index: n as usize },
    );
    let vs2 = vs1.push(Some(entry));
    lemma_dropped_hash(vs0, vs1, hash);
    lemma_value_push(vs1, Some(entry));
    assert(ix2.dom() =~= ix0.dom());
    assert forall|h: u64| #[trigger] ix2.contains_key(h) implies {
        &&& ix2[h].key_index < ks.len()
        &&& ks[ix2[h].key_index as int].is_some()
        &&& ks[ix2[h].key_index as int].unwrap().hash == h
        &&& chain_ok(vs2, h, ix2[h])
    } by {
        if h == hash {
            let c2 = slots_with(vs2, h);
            assert(slots_with(vs2, h) == slots_with(vs1, h).push(n));
            assert(c2 =~= seq![n]);
            assert(links_ok(vs2, c2, 0));
        } else {
            let c = slots_with(vs0, h);
            lemma_slots_with(vs0, h);
            assert(slots_with(vs2, h) == slots_with(vs1, h));
            assert(slots_with(vs1, h) == c);
            assert(chain_ok(vs0, h, ix0[h]));
            assert forall|k: int| 0 <= k < c.len() implies #[trigger] links_ok(vs2, c, k) by {
                assert(vs0[c[k]].unwrap().hash@ == h);
                assert(vs1[c[k]] == vs0[c[k]]);
                assert(vs2[c[k]] == vs0[c[k]]);
                assert(links_ok(vs0, c, k));
            }
        }
    }
    assert forall|i: int| 0 <= i < vs2.len() && (#[trigger] vs2[i]).is_some() implies ix2.contains_key(
        vs2[i].unwrap().hash@,
    ) && vs2[i].unwrap().key_index == ix2[vs2[i].unwrap().hash@].key_index by {
        if i < n {
            assert(vs1[i] == vs0[i]);
        }
    }
    assert(model_of(ks, vs2, ix2).key_of =~= model_of(ks, vs0, ix0).key_of);
}

/// Dropping a present key with all its values keeps the layout consistent
/// and is a removal in the model.
pub proof fn lemma_remove_key<K, V>(
    ks0: Seq<Option<KeyEntry<K>>>,
    kc: nat,
    vs0: Seq<Option<ValueEntry<V>>>,
    vc: nat,
    ix0: Map<u64, MapEntry>,
    vs1: Seq<Option<ValueEntry<V>>>,
    hash: u64,
)
    requires
        layout_wf(ks0, kc, vs0, vc, ix0),
        ix0.contains_key(hash),
        dropped_hash(vs0, vs1, hash),
    ensures
        1 <= kc,
        ix0[hash].length <= vc,
        ix0[hash].key_index < ks0.len(),
        ({
            let ks1 = ks0.update(ix0[hash].key_index as int, None);
            let ix1 = ix0.remove(hash);
            &&& layout_wf(ks1, (kc - 1) as nat, vs1, (vc - ix0[hash].length) as nat, ix1)
            &&& model_of(ks1, vs1, ix1) == model_of(ks0, vs0, ix0).removed(hash)
        }),
{
    let r = ix0[hash];
    let j = r.key_index as int;
    let ks1 = ks0.update(j, None);
    let ix1 = ix0.remove(hash);
    lemma_dropped_hash(vs0, vs1, hash);
    lemma_key_clear_len(ks0, j);
    assert(ix1.dom() =~= ix0.dom().remove(hash));
    assert(dropped_key(ks0, ks1, hash)) by {
        assert forall|i: int| 0 <= i < ks0.len() implies #[trigger] ks1[i] == if ks0[i].is_some()
            && ks0[i].unwrap().hash == hash {
            None
        } else {
            ks0[i]
        } by {
            if i != j && ks0[i].is_some() && ks0[i].unwrap().hash == hash {
                assert(ix0[ks0[i].unwrap().hash].key_index == i);
            }
        }
    }
    lemma_dropped_key(ks0, ks1, hash);
    assert forall|h: u64| #[trigger] ix1.contains_key(h) implies {
        &&& ix1[h].key_index < ks1.len()
        &&& ks1[ix1[h].key_index as int].is_some()
        &&& ks1[ix1[h].key_index as int].unwrap().hash == h
        &&& chain_ok(vs1, h, ix1[h])
    } by {
        assert(ix0.contains_key(h));
        assert(ix0[h].key_index != j);
        let c = slots_with(vs0, h);
        lemma_slots_with(vs0, h);
        assert(slots_with(vs1, h) == c);
        assert(chain_ok(vs0, h, ix0[h]));
        assert forall|k: int| 0 <= k < c.len() implies #[trigger] links_ok(vs1, c, k) by {
            assert(vs0[c[k]].unwrap().hash@ == h);
            assert(vs1[c[k]] == vs0[c[k]]);
            assert(links_ok(vs0, c, k));
        }
    }
    assert forall|i: int| 0 <= i < ks1.len() && (#[trigger] ks1[i]).is_some() implies ix1.contains_key(
        ks1[i].unwrap().hash,
    ) && ix1[ks1[i].unwrap().hash].key_index == i by {
        assert(ks0[i].is_some());
    }
    assert forall|i: int| 0 <= i < vs1.len() && (#[trigger] vs1[i]).is_some() implies ix1.contains_key(
        vs1[i].unwrap().hash@,
    ) && vs1[i].unwrap().key_index == ix1[vs1[i].unwrap().hash@].key_index by {
        assert(vs0[i].is_some());
    }
    assert(model_of(ks1, vs1, ix1).key_of =~= model_of(ks0, vs0, ix0).key_of.remove(hash)) by {
        assert forall|h: u64| #[trigger] ix1.contains_key(h) implies ks1[ix1[h].key_index as int]
            == ks0[ix0[h].key_index as int] by {
            assert(ix0[h].key_index != j);
        }
    }
}

/// Removing an absent digest changes nothing.
pub proof fn lemma_remove_absent<K, V>(
    ks: Seq<Option<KeyEntry<K>>>,
    kc: nat,
    vs: Seq<Option<ValueEntry<V>>>,
    vc: nat,
    ix: Map<u64, MapEntry>,
    hash: u64,
)
    requires
        layout_wf(ks, kc, vs, vc, ix),
        !ix.contains_key(hash),
    ensures
        model_of(ks, vs, ix).removed(hash) == model_of(ks, vs, ix),
        model_of(ks, vs, ix).values_of(hash) == Seq::<V>::empty(),
{
    assert(dropped_hash(vs, vs, hash)) by {
        assert forall|i: int| 0 <= i < vs.len() implies #[trigger] vs[i] == if vs[i].is_some()
            && vs[i].unwrap().hash@ == hash {
            None
        } else {
            vs[i]
        } by {}
    }
    lemma_dropped_hash(vs, vs, hash);
    assert(dropped_key(ks, ks, hash)) by {
        assert forall|i: int| 0 <= i < ks.len() implies #[trigger] ks[i] == if ks[i].is_some()
            && ks[i].unwrap().hash == hash {
            None
        } else {
            ks[i]
        } by {}
    }
    lemma_dropped_key(ks, ks, hash);
    lemma_chain_values(ks, kc, vs, vc, ix, hash);
    assert(model_of(ks, vs, ix).key_of.remove(hash) =~= model_of(ks, vs, ix).key_of);
    assert(model_of(ks, vs, ix).values_of(hash) =~= Seq::<V>::empty());
}

/// Read in slot order, the occupied value slots give the model's pairs and
/// values, and each names an occupied key slot.
pub proof fn lemma_pairs<K, V>(
    ks: Seq<Option<KeyEntry<K>>>,
    kc: nat,
    vs: Seq<Option<ValueEntry<V>>>,
    vc: nat,
    ix: Map<u64, MapEntry>,
)
    requires
        layout_wf(ks, kc, vs, vc, ix),
    ensures
        occupied(vs).map_values(|e: ValueEntry<V>| pair_of(ks, e)) == model_of(ks, vs, ix).pairs(),
        occupied(vs).map_values(|e: ValueEntry<V>| e.value) == model_of(ks, vs, ix).value_list(),
        occupied(vs).len() == vc,
        forall|i: int| 0 <= i < vs.len() && (#[trigger] vs[i]).is_some() ==> key_slot_ok(ks, vs[i].unwrap()),
{
    let m = model_of(ks, vs, ix);
    lemma_value_live_occupied(vs);
    let p = |e: ValueEntry<V>| ix.contains_key(e.hash@) && e.key_index == ix[e.hash@].key_index;
    lemma_occupied_all(vs, p);
    let o = occupied(vs);
    assert(o.map_values(|e: ValueEntry<V>| pair_of(ks, e)) =~= m.pairs()) by {
        assert forall|k: int| 0 <= k < o.len() implies o.map_values(|e: ValueEntry<V>| pair_of(ks, e))[k]
            == m.pairs()[k] by {
            assert(p(o[k]));
        }
    }
    assert(o.map_values(|e: ValueEntry<V>| e.value) =~= m.value_list());
}

/// Read in slot order, the occupied key slots give the model's keys.
pub proof fn lemma_key_list<K, V>(
    ks: Seq<Option<KeyEntry<K>>>,
    kc: nat,
    vs: Seq<Option<ValueEntry<V>>>,
    vc: nat,
    ix: Map<u64, MapEntry>,
)
    requires
        layout_wf(ks, kc, vs, vc, ix),
    ensures
        occupied(ks).map_values(|e: KeyEntry<K>| e.key) == model_of(ks, vs, ix).key_list(),
        occupied(ks).len() == kc,
{
    let m = model_of(ks, vs, ix);
    lemma_key_live_occupied(ks);
    let p = |e: KeyEntry<K>| ix.contains_key(e.hash) && ks[ix[e.hash].key_index as int] == Some(e);
    assert forall|j: int| 0 <= j < ks.len() && (#[trigger] ks[j]).is_some() implies p(ks[j].unwrap()) by {}
    lemma_occupied_all(ks, p);
    let o = occupied(ks);
    assert(o.map_values(|e: KeyEntry<K>| e.key) =~= m.key_list()) by {
        assert forall|k: int| 0 <= k < o.len() implies o.map_values(|e: KeyEntry<K>| e.key)[k]
            == m.key_list()[k] by {
            assert(p(o[k]));
        }
    }
}

/// `e` with its key slot and its links moved through the slot maps.
pub open spec fn relinked<V>(e: ValueEntry<V>, km: Seq<usize>, vm: Seq<usize>) -> ValueEntry<V> {
    ValueEntry {
        key_index: km[e.key_index as int],
        next_index: match e.next_index {
            Some(j) => Some(vm[j as int]),
            None => None,
        },
        previous_index: match e.previous_index {
            Some(j) => Some(vm[j as int]),
            None => None,
        },
        ..e
    }
}

/// The record `r` with its slots moved through the slot maps.
pub open spec fn remapped(r: MapEntry, km: Seq<usize>, vm: Seq<usize>) -> MapEntry {
    MapEntry {
        head_index: vm[r.head_index as int],
        key_index: km[r.key_index as int],
        length: r.length,
        tail_index: vm[r.tail_index as int],
    }
}

/// The links of an occupied value slot stay inside the slot storage.
pub proof fn lemma_slot_links<K, V>(
    ks: Seq<Option<KeyEntry<K>>>,
    kc: nat,
    vs: Seq<Option<ValueEntry<V>>>,
    vc: nat,
    ix: Map<u64, MapEntry>,
)
    requires
        layout_wf(ks, kc, vs, vc, ix),
    ensures
        forall|i: int|
            0 <= i < vs.len() && (#[trigger] vs[i]).is_some() ==> {
                &&& vs[i].unwrap().key_index < ks.len()
                &&& (vs[i].unwrap().next_index matches Some(j) ==> j < vs.len())
                &&& (vs[i].unwrap().previous_index matches Some(j) ==> j < vs.len())
            },
        forall|h: u64|
            #[trigger] ix.contains_key(h) ==> ix[h].head_index < vs.len() && ix[h].tail_index < vs.len(),
{
    assert forall|i: int| 0 <= i < vs.len() && (#[trigger] vs[i]).is_some() implies {
        &&& vs[i].unwrap().key_index < ks.len()
        &&& (vs[i].unwrap().next_index matches Some(j) ==> j < vs.len())
        &&& (vs[i].unwrap().previous_index matches Some(j) ==> j < vs.len())
    } by {
        let h = vs[i].unwrap().hash@;
        let c = slots_with(vs, h);
        lemma_slots_with(vs, h);
        assert(ix.contains_key(h));
        assert(c.contains(i));
        let k = choose|k: int| 0 <= k < c.len() && c[k] == i;
        assert(links_ok(vs, c, k));
        if k + 1 < c.len() {
            assert(c[k + 1] < vs.len());
        }
        if k > 0 {
            assert(c[k - 1] < vs.len());
        }
    }
    assert forall|h: u64| #[trigger] ix.contains_key(h) implies ix[h].head_index < vs.len()
        && ix[h].tail_index < vs.len() by {
        lemma_slots_with(vs, h);
        let c = slots_with(vs, h);
        assert(c[0] < vs.len());
        assert(c[c.len() - 1] < vs.len());
    }
}

/// Squeezing the empty slots out of both storages, with the links and the
/// records moved along, keeps the layout consistent and the model as it was.
pub proof fn lemma_pack<K, V>(
    ks0: Seq<Option<KeyEntry<K>>>,
    kc: nat,
    vs0: Seq<Option<ValueEntry<V>>>,
    vc: nat,
    ix0: Map<u64, MapEntry>,
    ks1: Seq<Option<KeyEntry<K>>>,
    vs1: Seq<Option<ValueEntry<V>>>,
    ix1: Map<u64, MapEntry>,
    km: Seq<usize>,
    vm: Seq<usize>,
)
    requires
        layout_wf(ks0, kc, vs0, vc, ix0),
        km.len() == ks0.len(),
        forall|j: int| 0 <= j < ks0.len() ==> #[trigger] km[j] == rank(ks0, j),
        vm.len() == vs0.len(),
        forall|i: int| 0 <= i < vs0.len() ==> #[trigger] vm[i] == rank(vs0, i),
        ks1 == ks0.filter(is_occupied::<KeyEntry<K>>()),
        vs1.len() == vs0.filter(is_occupied::<ValueEntry<V>>()).len(),
        forall|t: int|
            0 <= t < vs1.len() ==> #[trigger] vs1[t] == Some(
                relinked(vs0.filter(is_occupied::<ValueEntry<V>>())[t].unwrap(), km, vm),
            ),
        ix1.dom() == ix0.dom(),
        forall|h: u64| #[trigger] ix1.contains_key(h) ==> ix1[h] == remapped(ix0[h], km, vm),
    ensures
        layout_wf(ks1, kc, vs1, vc, ix1),
        model_of(ks1, vs1, ix1) == model_of(ks0, vs0, ix0),
        ks1.len() == kc,
        vs1.len() == vc,
{
    let pv = is_occupied::<ValueEntry<V>>();
    let fv = vs0.filter(pv);
    lemma_rank(ks0);
    lemma_rank(vs0);
    lemma_compact_values(vs0);
    lemma_compact_keys(ks0);
    lemma_key_live_len(ks1);
    // Any digest will do: only the bound on the number of occupied slots is used.
    lemma_slots_len(vs1, 0);
    lemma_slot_links(ks0, kc, vs0, vc, ix0);
    assert(same_payload(vs1, fv)) by {
        assert forall|t: int| 0 <= t < vs1.len() implies (#[trigger] vs1[t]).is_some() == fv[t].is_some()
            && (vs1[t].is_some() ==> vs1[t].unwrap().hash@ == fv[t].unwrap().hash@
            && vs1[t].unwrap().value == fv[t].unwrap().value) by {
            assert(fv[t].is_some());
        }
    }
    lemma_same_payload(vs1, fv);
    assert forall|t: int| 0 <= t < ks1.len() implies (#[trigger] ks1[t]).is_some() by {
        assert(ks0.filter(is_occupied::<KeyEntry<K>>())[t].is_some());
    }
    assert forall|t: int| 0 <= t < vs1.len() implies (#[trigger] vs1[t]).is_some() by {}
    lemma_full_slots(ks1, vs1);
    assert forall|h: u64| #[trigger] ix1.contains_key(h) implies {
        &&& ix1[h].key_index < ks1.len()
        &&& ks1[ix1[h].key_index as int].is_some()
        &&& ks1[ix1[h].key_index as int].unwrap().hash == h
        &&& chain_ok(vs1, h, ix1[h])
    } by {
        let r = ix0[h];
        let j = r.key_index as int;
        assert(ks0[j].is_some());
        assert(km[j] == rank(ks0, j));
        let c = slots_with(vs0, h);
        lemma_slots_with(vs0, h);
        let c1 = slots_with(vs1, h);
        assert(c1 == slots_with(fv, h));
        assert(c1 == c.map_values(|i: int| rank(vs0, i) as int));
        assert(chain_ok(vs0, h, r));
        assert(vm[r.head_index as int] == rank(vs0, c[0]));
        assert(vm[r.tail_index as int] == rank(vs0, c[c.len() - 1]));
        assert forall|k: int| 0 <= k < c1.len() implies #[trigger] links_ok(vs1, c1, k) by {
            let i = c[k];
            assert(vs0[i].is_some());
            assert(c1[k] == rank(vs0, i));
            assert(fv[rank(vs0, i) as int] == vs0[i]);
            assert(vs1[c1[k]] == Some(relinked(vs0[i].unwrap(), km, vm)));
            assert(links_ok(vs0, c, k));
            if k + 1 < c.len() {
                assert(vm[c[k + 1]] == rank(vs0, c[k + 1]));
                assert(c1[k + 1] == rank(vs0, c[k + 1]));
            }
            if k > 0 {
                assert(vm[c[k - 1]] == rank(vs0, c[k - 1]));
                assert(c1[k - 1] == rank(vs0, c[k - 1]));
            }
        }
    }
    assert forall|t: int| 0 <= t < ks1.len() && (#[trigger] ks1[t]).is_some() implies ix1.contains_key(
        ks1[t].unwrap().hash,
    ) && ix1[ks1[t].unwrap().hash].key_index == t by {
        assert(ks0.filter(is_occupied::<KeyEntry<K>>())[t].is_some());
        let j = choose|j: int| 0 <= j < ks0.len() && ks0[j].is_some() && #[trigger] rank(ks0, j) == t;
        assert(ks1[t] == ks0[j]);
        assert(km[j] == rank(ks0, j));
    }
    assert forall|t: int| 0 <= t < vs1.len() && (#[trigger] vs1[t]).is_some() implies ix1.contains_key(
        vs1[t].unwrap().hash@,
    ) && vs1[t].unwrap().key_index == ix1[vs1[t].unwrap().hash@].key_index by {
        assert(fv[t].is_some());
        let i = choose|i: int| 0 <= i < vs0.len() && vs0[i].is_some() && #[trigger] rank(vs0, i) == t;
        assert(fv[t] == vs0[i]);
        assert(ix0.contains_key(vs0[i].unwrap().hash@));
    }
    assert(model_of(ks1, vs1, ix1).key_of =~= model_of(ks0, vs0, ix0).key_of) by {
        assert forall|h: u64| #[trigger] ix1.contains_key(h) implies ks1[ix1[h].key_index as int]
            == ks0[ix0[h].key_index as int] by {
            let j = ix0[h].key_index as int;
            assert(ks0[j].is_some());
            assert(km[j] == rank(ks0, j));
        }
    }
}

/// Writing a new value into the first slot of `h` keeps the layout
/// consistent and replaces the first value of `h` in the model.
pub proof fn lemma_set_first<K, V>(
    ks: Seq<Option<KeyEntry<K>>>,
    kc: nat,
    vs: Seq<Option<ValueEntry<V>>>,
    vc: nat,
    ix: Map<u64, MapEntry>,
    h: u64,
    x: V,
)
    requires
        layout_wf(ks, kc, vs, vc, ix),
        ix.contains_key(h),
    ensures
        ix[h].head_index < vs.len(),
        vs[ix[h].head_index as int].is_some(),
        ({
            let i = ix[h].head_index as int;
            let vs1 = vs.update(i, Some(ValueEntry { value: x, ..vs[i].unwrap() }));
            &&& layout_wf(ks, kc, vs1, vc, ix)
            &&& model_of(ks, vs1, ix).first_replaced(model_of(ks, vs, ix), h, x)
        }),
{
    let i = ix[h].head_index as int;
    let vs1 = vs.update(i, Some(ValueEntry { value: x, ..vs[i].unwrap() }));
    lemma_slots_with(vs, h);
    let c = slots_with(vs, h);
    assert(vs[c[0]].is_some());
    assert(same_shape(vs, vs1)) by {
        assert forall|j: int| 0 <= j < vs.len() implies (#[trigger] vs[j]).is_some() == vs1[j].is_some()
            && (vs[j].is_some() ==> vs[j].unwrap().hash@ == vs1[j].unwrap().hash@) by {}
    }
    lemma_same_shape(vs, vs1);
    lemma_value_live_occupied(vs);
    assert forall|g: u64| #[trigger] ix.contains_key(g) implies {
        &&& ix[g].key_index < ks.len()
        &&& ks[ix[g].key_index as int].is_some()
        &&& ks[ix[g].key_index as int].unwrap().hash == g
        &&& chain_ok(vs1, g, ix[g])
    } by {
        let cg = slots_with(vs, g);
        lemma_slots_with(vs, g);
        assert(chain_ok(vs, g, ix[g]));
        assert forall|k: int| 0 <= k < cg.len() implies #[trigger] links_ok(vs1, cg, k) by {
            assert(links_ok(vs, cg, k));
            assert(0 <= cg[k] < vs.len());
            assert(vs1[cg[k]].unwrap().next_index == vs[cg[k]].unwrap().next_index);
            assert(vs1[cg[k]].unwrap().previous_index == vs[cg[k]].unwrap().previous_index);
        }
    }
    assert forall|j: int| 0 <= j < vs1.len() && (#[trigger] vs1[j]).is_some() implies ix.contains_key(
        vs1[j].unwrap().hash@,
    ) && vs1[j].unwrap().key_index == ix[vs1[j].unwrap().hash@].key_index by {
        assert(vs[j].is_some());
    }
    let m0 = model_of(ks, vs, ix);
    let m1 = model_of(ks, vs1, ix);
    assert(m1.hashes() == live_hashes(vs1));
    assert(m0.hashes() == live_hashes(vs));
    lemma_chain_values(ks, kc, vs, vc, ix, h);
    lemma_chain_values(ks, kc, vs1, vc, ix, h);
    assert(m1.values_of(h) =~= m0.values_of(h).update(0, x)) by {
        assert forall|k: int| 0 <= k < c.len() && k != 0 implies #[trigger] c[k] != i by {
            assert(c[0] < c[k]);
        }
    }
    assert forall|g: u64| g != h implies #[trigger] m1.values_of(g) == m0.values_of(g) by {
        lemma_chain_values(ks, kc, vs, vc, ix, g);
        lemma_chain_values(ks, kc, vs1, vc, ix, g);
        lemma_slots_with(vs, g);
        let cg = slots_with(vs, g);
        assert forall|k: int| 0 <= k < cg.len() implies #[trigger] cg[k] != i by {
            assert(vs[cg[k]].unwrap().hash@ == g);
        }
        assert(m1.values_of(g) =~= m0.values_of(g));
    }
}

/// Live key slots of distinct digests list every digest once.
pub proof fn lemma_key_live_distinct<K>(s: Seq<Option<KeyEntry<K>>>)
    requires
        forall|i: int, j: int|
            0 <= i < j < s.len() && (#[trigger] s[i]).is_some() && (#[trigger] s[j]).is_some()
                ==> s[i].unwrap().hash != s[j].unwrap().hash,
    ensures
        key_live(s).no_duplicates(),
        forall|h: u64|
            #[trigger] key_live(s).contains(h) <==> exists|j: int|
                0 <= j < s.len() && (#[trigger] s[j]).is_some() && s[j].unwrap().hash == h,
    decreases s.len(),
{
    if s.len() > 0 {
        let t = s.drop_last();
        assert forall|i: int, j: int|
            0 <= i < j < t.len() && (#[trigger] t[i]).is_some() && (#[trigger] t[j]).is_some()
                implies t[i].unwrap().hash != t[j].unwrap().hash by {
            assert(t[i] == s[i] && t[j] == s[j]);
        }
        lemma_key_live_distinct(t);
        assert(t.push(s.last()) =~= s);
        lemma_key_push(t, s.last());
        let last = s.len() - 1;
        assert(s.last() == s[last]);
        assert forall|h: u64| #[trigger] key_live(s).contains(h) <==> exists|j: int|
            0 <= j < s.len() && (#[trigger] s[j]).is_some() && s[j].unwrap().hash == h by {
            if key_live(s).contains(h) {
                if key_live(t).contains(h) {
                    let j = choose|j: int| 0 <= j < t.len() && (#[trigger] t[j]).is_some() && t[j].unwrap().hash == h;
                    assert(s[j] == t[j]);
                } else {
                    let k = choose|k: int| 0 <= k < key_live(s).len() && key_live(s)[k] == h;
                    assert(k == key_live(t).len());
                }
            }
            if exists|j: int| 0 <= j < s.len() && (#[trigger] s[j]).is_some() && s[j].unwrap().hash == h {
                let j = choose|j: int| 0 <= j < s.len() && (#[trigger] s[j]).is_some() && s[j].unwrap().hash == h;
                if j < last {
                    assert(t[j] == s[j]);
                    assert(key_live(t).contains(h));
                    let k = choose|k: int| 0 <= k < key_live(t).len() && key_live(t)[k] == h;
                    assert(key_live(s)[k] == h);
                } else {
                    assert(key_live(s)[key_live(s).len() - 1] == h);
                }
            }
        }
        match s.last() {
            Some(e) => {
                assert(!key_live(t).contains(e.hash)) by {
                    if key_live(t).contains(e.hash) {
                        let j = choose|j: int| 0 <= j < t.len() && (#[trigger] t[j]).is_some() && t[j].unwrap().hash == e.hash;
                        assert(s[j] == t[j]);
                    }
                }
                assert forall|a: int, b: int| 0 <= a < key_live(s).len() && 0 <= b < key_live(s).len() && a != b
                    implies key_live(s)[a] != key_live(s)[b] by {
                    if a < key_live(t).len() && b < key_live(t).len() {
                    } else if a < key_live(t).len() {
                        assert(key_live(t).contains(key_live(s)[a]));
                    } else {
                        assert(key_live(t).contains(key_live(s)[b]));
                    }
                }
            },
            None => {},
        }
    } else {
        assert forall|h: u64| #[trigger] key_live(s).contains(h) <==> exists|j: int|
            0 <= j < s.len() && (#[trigger] s[j]).is_some() && s[j].unwrap().hash == h by {}
    }
}

/// A consistent layout stands for a consistent model.
pub proof fn lemma_model_wf<K, V>(
    ks: Seq<Option<KeyEntry<K>>>,
    kc: nat,
    vs: Seq<Option<ValueEntry<V>>>,
    vc: nat,
    ix: Map<u64, MapEntry>,
)
    requires
        layout_wf(ks, kc, vs, vc, ix),
    ensures
        model_of(ks, vs, ix).wf(),
{
    let m = model_of(ks, vs, ix);
    assert forall|i: int, j: int|
        0 <= i < j < ks.len() && (#[trigger] ks[i]).is_some() && (#[trigger] ks[j]).is_some()
            implies ks[i].unwrap().hash != ks[j].unwrap().hash by {}
    lemma_key_live_distinct(ks);
    assert forall|h: u64| #[trigger] m.key_of.contains_key(h) <==> m.keys.contains(h) by {
        if ix.contains_key(h) {
            let j = ix[h].key_index as int;
            assert(ks[j].is_some());
        }
    }
    lemma_value_live_occupied(vs);
    let p = |e: ValueEntry<V>| ix.contains_key(e.hash@);
    lemma_occupied_all(vs, p);
    assert forall|i: int| 0 <= i < m.entries.len() implies m.key_of.contains_key(#[trigger] m.entries[i].0) by {
        assert(p(occupied(vs)[i]));
    }
    assert forall|h: u64| #[trigger] m.key_of.contains_key(h) implies m.values_of(h).len() > 0 by {
        lemma_chain_values(ks, kc, vs, vc, ix, h);
    }
}

/// One step along the next links, from an occupied slot.
pub open spec fn step<V>(vs: Seq<Option<ValueEntry<V>>>, cur: Option<usize>) -> Option<usize> {
    match cur {
        Some(i) => if i < vs.len() && vs[i as int].is_some() {
            vs[i as int].unwrap().next_index
        } else {
            None
        },
        None => None,
    }
}

/// Where `k` steps along the next links from `cur` lead.
pub open spec fn walk_from<V>(vs: Seq<Option<ValueEntry<V>>>, cur: Option<usize>, k: nat) -> Option<usize>
    decreases k,
{
    if k == 0 {
        cur
    } else {
        step(vs, walk_from(vs, cur, (k - 1) as nat))
    }
}

/// Walking the next links from the first slot of `h` passes the slots of `h`
/// in order and stops after the last.
pub proof fn lemma_walk<K, V>(
    ks: Seq<Option<KeyEntry<K>>>,
    kc: nat,
    vs: Seq<Option<ValueEntry<V>>>,
    vc: nat,
    ix: Map<u64, MapEntry>,
    h: u64,
)
    requires
        layout_wf(ks, kc, vs, vc, ix),
        ix.contains_key(h),
        vs.len() <= usize::MAX,
    ensures
        forall|k: nat|
            k < ix[h].length ==> #[trigger] walk_from(vs, Some(ix[h].head_index), k) == Some(
                slots_with(vs, h)[k as int] as usize,
            ),
        walk_from(vs, Some(ix[h].head_index), ix[h].length as nat).is_none(),
{
    let c = slots_with(vs, h);
    let n = ix[h].length as nat;
    let head = Some(ix[h].head_index);
    lemma_slots_with(vs, h);
    assert(chain_ok(vs, h, ix[h]));
    assert forall|k: nat| k < n implies #[trigger] walk_from(vs, head, k) == Some(c[k as int] as usize) by {
        lemma_walk_prefix(vs, c, head, k);
    }
    lemma_walk_prefix(vs, c, head, (n - 1) as nat);
    assert(links_ok(vs, c, n - 1));
    assert(walk_from(vs, head, n) == step(vs, walk_from(vs, head, (n - 1) as nat)));
}

proof fn lemma_walk_prefix<V>(vs: Seq<Option<ValueEntry<V>>>, c: Seq<int>, head: Option<usize>, k: nat)
    requires
        vs.len() <= usize::MAX,
        c.len() > 0,
        head == Some(c[0] as usize),
        k < c.len(),
        forall|j: int| 0 <= j < c.len() ==> 0 <= #[trigger] c[j] < vs.len() && vs[c[j]].is_some(),
        forall|j: int| 0 <= j < c.len() ==> #[trigger] links_ok(vs, c, j),
    ensures
        walk_from(vs, head, k) == Some(c[k as int] as usize),
    decreases k,
{
    if k > 0 {
        lemma_walk_prefix(vs, c, head, (k - 1) as nat);
        assert(links_ok(vs, c, k - 1));
        assert(0 <= c[k - 1] < vs.len());
    }
}

} // verus!
