//! The mathematical model of a multimap: every live value in global insertion
//! order, paired with the digest of its key, and the distinct keys in the
//! order in which they were first inserted.
use vstd::prelude::*;
use crate::slots::{has_hash, lacks_hash, other_than};

verus! {

/// What a multimap holds, in the order it keeps.
pub struct MultimapModel<K, V> {
    /// Every live value with the digest of its key, oldest first.
    pub entries: Seq<(u64, V)>,
    /// The digests of the live keys, in order of first insertion.
    pub keys: Seq<u64>,
    /// The stored key of each live digest.
    pub key_of: Map<u64, K>,
}

impl<K, V> MultimapModel<K, V> {
    /// The model of a multimap that holds nothing.
    pub open spec fn empty() -> Self {
        MultimapModel { entries: Seq::empty(), keys: Seq::empty(), key_of: Map::empty() }
    }

    /// Whether some value is stored under digest `h`.
    pub open spec fn contains(self, h: u64) -> bool {
        self.key_of.contains_key(h)
    }

    /// The values stored under digest `h`, oldest first.
    pub open spec fn values_of(self, h: u64) -> Seq<V> {
        self.entries.filter(has_hash::<V>(h)).map_values(|e: (u64, V)| e.1)
    }

    /// Every live (key, value) pair in global insertion order.
    pub open spec fn pairs(self) -> Seq<(K, V)> {
        self.entries.map_values(|e: (u64, V)| (self.key_of[e.0], e.1))
    }

    /// The live keys in order of first insertion.
    pub open spec fn key_list(self) -> Seq<K> {
        self.keys.map_values(|h: u64| self.key_of[h])
    }

    /// Just the values, in global insertion order.
    pub open spec fn value_list(self) -> Seq<V> {
        self.entries.map_values(|e: (u64, V)| e.1)
    }

    /// The model after `value` is appended under digest `h` with key `key`.
    /// A key that is already present stays as it was stored.
    pub open spec fn appended(self, h: u64, key: K, value: V) -> Self {
        if self.contains(h) {
            MultimapModel { entries: self.entries.push((h, value)), ..self }
        } else {
            MultimapModel {
                entries: self.entries.push((h, value)),
                keys: self.keys.push(h),
                key_of: self.key_of.insert(h, key),
            }
        }
    }

    /// The model after every value under `h` is dropped.
    pub open spec fn removed(self, h: u64) -> Self {
        MultimapModel {
            entries: self.entries.filter(lacks_hash::<V>(h)),
            keys: self.keys.filter(other_than(h)),
            key_of: self.key_of.remove(h),
        }
    }

    /// The model after `value` replaces every value under digest `h`.
    /// A key that is already present stays where and as it was stored.
    pub open spec fn inserted(self, h: u64, key: K, value: V) -> Self {
        if self.contains(h) {
            MultimapModel { entries: self.entries.filter(lacks_hash::<V>(h)).push((h, value)), ..self }
        } else {
            self.appended(h, key, value)
        }
    }

    /// The digest of every value, in global insertion order.
    pub open spec fn hashes(self) -> Seq<u64> {
        self.entries.map_values(|e: (u64, V)| e.0)
    }

    /// `self` is `m` with the first value under `h` replaced by `v`.
    pub open spec fn first_replaced(self, m: Self, h: u64, v: V) -> bool {
        &&& self.keys == m.keys
        &&& self.key_of == m.key_of
        &&& self.hashes() == m.hashes()
        &&& self.values_of(h) == m.values_of(h).update(0, v)
        &&& forall|g: u64| g != h ==> #[trigger] self.values_of(g) == m.values_of(g)
    }

    /// A digest is live exactly when it has values.
    pub open spec fn wf_values_of(self, h: u64) -> bool {
        self.contains(h) <==> self.values_of(h).len() > 0
    }

    /// The model's own consistency: each live digest is listed once, and has
    /// at least one value; each value belongs to a live digest.
    pub open spec fn wf(self) -> bool {
        &&& self.keys.no_duplicates()
        &&& forall|h: u64| #[trigger] self.key_of.contains_key(h) <==> self.keys.contains(h)
        &&& forall|i: int|
            0 <= i < self.entries.len() ==> self.key_of.contains_key(#[trigger] self.entries[i].0)
        &&& forall|h: u64| #[trigger] self.key_of.contains_key(h) ==> self.values_of(h).len() > 0
    }
}

/// Appending a value puts it last among the values of its key, and leaves
/// the values of every other key as they were.
pub proof fn lemma_append_values<K, V>(m: MultimapModel<K, V>, h: u64, key: K, value: V)
    ensures
        m.appended(h, key, value).values_of(h) == m.values_of(h).push(value),
        forall|g: u64| g != h ==> #[trigger] m.appended(h, key, value).values_of(g) == m.values_of(g),
{
    let f = |e: (u64, V)| e.1;
    m.entries.lemma_filter_push((h, value), has_hash::<V>(h));
    assert(m.appended(h, key, value).values_of(h) =~= m.values_of(h).push(value));
    assert forall|g: u64| g != h implies #[trigger] m.appended(h, key, value).values_of(g) == m.values_of(g) by {
        m.entries.lemma_filter_push((h, value), has_hash::<V>(g));
    }
}

/// The model after the pairs `ps` are appended in order, the `k`-th under
/// digest `hs[k]`.
pub open spec fn appended_all<K, V>(m: MultimapModel<K, V>, hs: Seq<u64>, ps: Seq<(K, V)>) -> MultimapModel<K, V>
    decreases ps.len(),
{
    if ps.len() == 0 || hs.len() != ps.len() {
        m
    } else {
        appended_all(m, hs.drop_last(), ps.drop_last()).appended(hs.last(), ps.last().0, ps.last().1)
    }
}

/// A filter that every element passes keeps the sequence.
proof fn lemma_filter_keeps_all<A>(s: Seq<A>, p: spec_fn(A) -> bool)
    requires
        forall|i: int| 0 <= i < s.len() ==> p(#[trigger] s[i]),
    ensures
        s.filter(p) == s,
    decreases s.len(),
{
    if s.len() > 0 {
        lemma_filter_keeps_all(s.drop_last(), p);
        assert(s.drop_last().push(s.last()) =~= s);
        s.drop_last().lemma_filter_push(s.last(), p);
    } else {
        assert(s.filter(p) =~= s);
    }
}

/// What every element has, every element of a filter of it has.
proof fn lemma_filter_preserves<A>(s: Seq<A>, q: spec_fn(A) -> bool, p: spec_fn(A) -> bool)
    requires
        forall|i: int| 0 <= i < s.len() ==> p(#[trigger] s[i]),
    ensures
        forall|i: int| 0 <= i < s.filter(q).len() ==> p(#[trigger] s.filter(q)[i]),
    decreases s.len(),
{
    if s.len() > 0 {
        let t = s.drop_last();
        assert forall|i: int| 0 <= i < t.len() implies p(#[trigger] t[i]) by {
            assert(t[i] == s[i]);
        }
        lemma_filter_preserves(t, q, p);
        assert(t.push(s.last()) =~= s);
        t.lemma_filter_push(s.last(), q);
        assert(p(s[s.len() - 1]));
        assert forall|i: int| 0 <= i < s.filter(q).len() implies p(#[trigger] s.filter(q)[i]) by {
            if i < t.filter(q).len() {
                assert(s.filter(q)[i] == t.filter(q)[i]);
            }
        }
    } else {
        assert(s.filter(q) =~= s);
    }
}

/// A digest that is not live has no values, and dropping its pairs changes nothing.
proof fn lemma_absent_no_values<K, V>(m: MultimapModel<K, V>, h: u64)
    requires
        forall|i: int| 0 <= i < m.entries.len() ==> m.key_of.contains_key(#[trigger] m.entries[i].0),
        !m.contains(h),
    ensures
        m.values_of(h).len() == 0,
        m.entries.filter(lacks_hash::<V>(h)) == m.entries,
{
    lemma_filter_keeps_all(m.entries, lacks_hash::<V>(h));
    assert forall|i: int| 0 <= i < m.entries.len() implies !has_hash::<V>(h)(#[trigger] m.entries[i]) by {}
    m.entries.lemma_all_neg_filter_empty(has_hash::<V>(h));
}

/// Inserting under `h` leaves `value` as the only value of `h`, returns the
/// values that `h` had, and leaves every other key's values as they were.
pub proof fn law_insert_discards<K, V>(m: MultimapModel<K, V>, h: u64, key: K, value: V)
    requires
        m.wf(),
    ensures
        m.inserted(h, key, value).values_of(h) == seq![value],
        m.inserted(h, key, value).contains(h),
        forall|g: u64| g != h ==> #[trigger] m.inserted(h, key, value).values_of(g) == m.values_of(g),
{
    if m.contains(h) {
        let kept = m.entries.filter(lacks_hash::<V>(h));
        kept.lemma_filter_push((h, value), has_hash::<V>(h));
        assert(kept.filter(has_hash::<V>(h)) =~= Seq::empty()) by {
            assert forall|i: int| 0 <= i < kept.len() implies !has_hash::<V>(h)(#[trigger] kept[i]) by {
                m.entries.filter_lemma(lacks_hash::<V>(h));
            }
            kept.lemma_all_neg_filter_empty(has_hash::<V>(h));
        }
        assert(m.inserted(h, key, value).values_of(h) =~= seq![value]);
        assert forall|g: u64| g != h implies #[trigger] m.inserted(h, key, value).values_of(g) == m.values_of(g) by {
            kept.lemma_filter_push((h, value), has_hash::<V>(g));
            assert(kept.filter(has_hash::<V>(g)) == m.entries.filter(has_hash::<V>(g))) by {
                lemma_filter_commute_hash(m.entries, h, g);
            }
        }
    } else {
        lemma_append_values(m, h, key, value);
        lemma_absent_no_values(m, h);
        assert(m.values_of(h).push(value) =~= seq![value]);
    }
}

/// Dropping the pairs of `h` and then keeping those of `g != h` keeps the
/// pairs of `g`.
proof fn lemma_filter_commute_hash<V>(s: Seq<(u64, V)>, h: u64, g: u64)
    requires
        g != h,
    ensures
        s.filter(lacks_hash::<V>(h)).filter(has_hash::<V>(g)) == s.filter(has_hash::<V>(g)),
    decreases s.len(),
{
    if s.len() > 0 {
        let t = s.drop_last();
        lemma_filter_commute_hash(t, h, g);
        assert(t.push(s.last()) =~= s);
        t.lemma_filter_push(s.last(), lacks_hash::<V>(h));
        t.lemma_filter_push(s.last(), has_hash::<V>(g));
        t.filter(lacks_hash::<V>(h)).lemma_filter_push(s.last(), has_hash::<V>(g));
    } else {
        assert(s.filter(lacks_hash::<V>(h)) =~= s);
    }
}

/// After the values of `h` are removed, `h` is gone and has no values, and
/// every other key keeps its values.
pub proof fn law_removal_complete<K, V>(m: MultimapModel<K, V>, h: u64)
    ensures
        !m.removed(h).contains(h),
        m.removed(h).values_of(h) == Seq::<V>::empty(),
        forall|g: u64| g != h ==> #[trigger] m.removed(h).values_of(g) == m.values_of(g),
        forall|g: u64| g != h ==> #[trigger] m.removed(h).contains(g) == m.contains(g),
{
    let kept = m.entries.filter(lacks_hash::<V>(h));
    assert(kept.filter(has_hash::<V>(h)) =~= Seq::empty()) by {
        assert forall|i: int| 0 <= i < kept.len() implies !has_hash::<V>(h)(#[trigger] kept[i]) by {
            m.entries.filter_lemma(lacks_hash::<V>(h));
        }
        kept.lemma_all_neg_filter_empty(has_hash::<V>(h));
    }
    assert(m.removed(h).values_of(h) =~= Seq::<V>::empty());
    assert forall|g: u64| g != h implies #[trigger] m.removed(h).values_of(g) == m.values_of(g) by {
        lemma_filter_commute_hash(m.entries, h, g);
    }
}

/// One call that stores a value: an append or an insert, under a digest.
pub enum Op<K, V> {
    Append(u64, K, V),
    Insert(u64, K, V),
}

impl<K, V> Op<K, V> {
    /// The digest the value is stored under.
    pub open spec fn digest(self) -> u64 {
        match self {
            Op::Append(h, _, _) => h,
            Op::Insert(h, _, _) => h,
        }
    }

    /// The value stored.
    pub open spec fn stored(self) -> V {
        match self {
            Op::Append(_, _, v) => v,
            Op::Insert(_, _, v) => v,
        }
    }

    /// Whether the call replaces the values already under its digest.
    pub open spec fn is_insert(self) -> bool {
        self is Insert
    }

    /// The model after this call.
    pub open spec fn apply(self, m: MultimapModel<K, V>) -> MultimapModel<K, V> {
        match self {
            Op::Append(h, k, v) => m.appended(h, k, v),
            Op::Insert(h, k, v) => m.inserted(h, k, v),
        }
    }
}

/// The model after the calls `ops`, in order, on `m`.
pub open spec fn replay<K, V>(m: MultimapModel<K, V>, ops: Seq<Op<K, V>>) -> MultimapModel<K, V>
    decreases ops.len(),
{
    if ops.len() == 0 {
        m
    } else {
        ops.last().apply(replay(m, ops.drop_last()))
    }
}

/// The value stored by call `i` is still there after all of `ops`: no later
/// call inserts under the same digest.
pub open spec fn survives<K, V>(ops: Seq<Op<K, V>>, i: int) -> bool {
    forall|j: int| i < j < ops.len() ==> !((#[trigger] ops[j]).is_insert() && ops[j].digest() == ops[i].digest())
}

/// The (digest, value) pairs stored by those of the first `n` calls whose
/// value survives all of `ops`, in call order.
pub open spec fn survivors_upto<K, V>(ops: Seq<Op<K, V>>, n: int) -> Seq<(u64, V)>
    decreases n,
{
    if n <= 0 {
        Seq::empty()
    } else {
        let rest = survivors_upto(ops, n - 1);
        if survives(ops, n - 1) {
            rest.push((ops[n - 1].digest(), ops[n - 1].stored()))
        } else {
            rest
        }
    }
}

proof fn lemma_survivors_step<K, V>(t: Seq<Op<K, V>>, o: Op<K, V>, n: int)
    requires
        0 <= n <= t.len(),
    ensures
        survivors_upto(t.push(o), n) == if o.is_insert() {
            survivors_upto(t, n).filter(lacks_hash::<V>(o.digest()))
        } else {
            survivors_upto(t, n)
        },
    decreases n,
{
    let ops = t.push(o);
    if n == 0 {
        assert(survivors_upto(t, n).filter(lacks_hash::<V>(o.digest())) =~= Seq::empty());
    } else {
        lemma_survivors_step(t, o, n - 1);
        let i = n - 1;
        assert(ops[i] == t[i]);
        assert(survives(ops, i) == (survives(t, i) && !(o.is_insert() && o.digest() == t[i].digest()))) by {
            if survives(ops, i) {
                assert forall|j: int| i < j < t.len() implies !((#[trigger] t[j]).is_insert() && t[j].digest()
                    == t[i].digest()) by {
                    assert(ops[j] == t[j]);
                }
                assert(ops[t.len() as int] == o);
            }
            if survives(t, i) && !(o.is_insert() && o.digest() == t[i].digest()) {
                assert forall|j: int| i < j < ops.len() implies !((#[trigger] ops[j]).is_insert() && ops[j].digest()
                    == ops[i].digest()) by {
                    if j < t.len() {
                        assert(ops[j] == t[j]);
                    }
                }
            }
        }
        let rest = survivors_upto(t, i);
        if o.is_insert() {
            rest.lemma_filter_push((t[i].digest(), t[i].stored()), lacks_hash::<V>(o.digest()));
        }
    }
}

/// Global order: after any sequence of appends and inserts on an empty
/// multimap, its values are exactly those that no later insert under the same
/// key replaced, in the order in which they were stored.
pub proof fn law_global_order<K, V>(ops: Seq<Op<K, V>>)
    ensures
        replay(MultimapModel::empty(), ops).entries == survivors_upto(ops, ops.len() as int),
        forall|i: int|
            0 <= i < replay(MultimapModel::<K, V>::empty(), ops).entries.len() ==> replay(
                MultimapModel::<K, V>::empty(),
                ops,
            ).key_of.contains_key(#[trigger] replay(MultimapModel::<K, V>::empty(), ops).entries[i].0),
    decreases ops.len(),
{
    let e = MultimapModel::<K, V>::empty();
    if ops.len() == 0 {
        assert(survivors_upto(ops, 0) =~= Seq::empty());
    } else {
        let t = ops.drop_last();
        let o = ops.last();
        law_global_order(t);
        assert(t.push(o) =~= ops);
        lemma_survivors_step(t, o, t.len() as int);
        let m = replay(e, t);
        let h = o.digest();
        assert(survives(ops, t.len() as int));
        assert(survivors_upto(ops, ops.len() as int) == survivors_upto(ops, t.len() as int).push((h, o.stored())));
        if o.is_insert() && !m.contains(h) {
            lemma_absent_no_values(m, h);
        }
        let m1 = replay(e, ops);
        let live = |x: (u64, V)| m.key_of.contains_key(x.0);
        lemma_filter_preserves(m.entries, lacks_hash::<V>(h), live);
        assert forall|i: int| 0 <= i < m1.entries.len() implies m1.key_of.contains_key(#[trigger] m1.entries[i].0) by {
            if i < m1.entries.len() - 1 {
                if o.is_insert() && m.contains(h) {
                    let kept = m.entries.filter(lacks_hash::<V>(h));
                    assert(m1.entries[i] == kept[i]);
                    assert(live(kept[i]));
                } else {
                    assert(m1.entries[i] == m.entries[i]);
                }
            }
        }
    }
}

} // verus!
