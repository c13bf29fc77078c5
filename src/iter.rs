//! Iterators over a multimap: in global insertion order (pairs, keys or
//! values), or along the values of one key.
use vstd::prelude::*;
use crate::slots::{
    lemma_occupied_all, lemma_occupied_back, lemma_occupied_front, occupied, slot_value, KeyEntry,
    ValueEntry,
};

verus! {

/// The first occupied slot in `[front, back)`, and the position after it
/// (or `back` when there is none).
pub(crate) fn next_slot<'a, T>(s: &'a Vec<Option<T>>, front: usize, back: usize) -> (r: (
    Option<&'a T>,
    usize,
))
    requires
        front <= back <= s@.len(),
    ensures
        front <= r.1 <= back,
        r.0.is_some() ==> front < r.1 && s@[r.1 - 1] == Some(*r.0.unwrap()),
        ({
            let o = occupied(s@.subrange(front as int, back as int));
            let n = occupied(s@.subrange(r.1 as int, back as int));
            &&& o.len() == 0 ==> r.0.is_none() && n == o
            &&& o.len() > 0 ==> r.0.is_some() && *r.0.unwrap() == o[0] && n == o.drop_first()
        }),
{
    let mut f = front;
    while f < back
        invariant
            front <= f <= back <= s@.len(),
            occupied(s@.subrange(f as int, back as int)) == occupied(s@.subrange(front as int, back as int)),
        decreases back - f,
    {
        let i = f;
        f = i + 1;
        proof {
            lemma_occupied_front(s@, i as int, back as int);
        }
        match &s[i] {
            Some(x) => {
                proof {
                    let o = occupied(s@.subrange(front as int, back as int));
                    assert(s@[i as int] == Some(*x));
                    assert(o[0] == *x);
                    assert(o.drop_first() =~= occupied(s@.subrange(i + 1, back as int)));
                }
                return (Some(x), f);
            },
            None => {},
        }
    }
    proof {
        assert(s@.subrange(f as int, back as int) =~= Seq::<Option<T>>::empty());
        assert(occupied(Seq::<Option<T>>::empty()) =~= Seq::<T>::empty());
    }
    (None, f)
}

/// The last occupied slot in `[front, back)`, and its position (or `front`
/// when there is none).
pub(crate) fn prev_slot<'a, T>(s: &'a Vec<Option<T>>, front: usize, back: usize) -> (r: (
    Option<&'a T>,
    usize,
))
    requires
        front <= back <= s@.len(),
    ensures
        front <= r.1 <= back,
        r.0.is_some() ==> r.1 < back && s@[r.1 as int] == Some(*r.0.unwrap()),
        ({
            let o = occupied(s@.subrange(front as int, back as int));
            let n = occupied(s@.subrange(front as int, r.1 as int));
            &&& o.len() == 0 ==> r.0.is_none() && n == o
            &&& o.len() > 0 ==> r.0.is_some() && *r.0.unwrap() == o.last() && n == o.drop_last()
        }),
{
    let mut b = back;
    while front < b
        invariant
            front <= b <= back <= s@.len(),
            occupied(s@.subrange(front as int, b as int)) == occupied(s@.subrange(front as int, back as int)),
        decreases b - front,
    {
        let i = b - 1;
        b = i;
        proof {
            lemma_occupied_back(s@, front as int, i + 1);
        }
        match &s[i] {
            Some(x) => {
                proof {
                    let o = occupied(s@.subrange(front as int, back as int));
                    assert(s@[i as int] == Some(*x));
                    assert(o.last() == *x);
                    assert(o.drop_last() =~= occupied(s@.subrange(front as int, i as int)));
                }
                return (Some(x), b);
            },
            None => {},
        }
    }
    proof {
        assert(s@.subrange(front as int, b as int) =~= Seq::<Option<T>>::empty());
        assert(occupied(Seq::<Option<T>>::empty()) =~= Seq::<T>::empty());
    }
    (None, b)
}

/// `e` holding `v` as its value.
pub open spec fn with_value<V>(e: ValueEntry<V>, v: V) -> ValueEntry<V> {
    ValueEntry { value: v, ..e }
}

/// Lends the value in slot `i`; what is written through the loan lands in that slot.
pub(crate) fn slot_value_mut<V>(values: &mut Vec<Option<ValueEntry<V>>>, i: usize) -> (r: &mut V)
    requires
        i < old(values)@.len(),
        old(values)@[i as int].is_some(),
    ensures
        *r == old(values)@[i as int].unwrap().value,
        final(values)@ == old(values)@.update(
            i as int,
            Some(with_value(old(values)@[i as int].unwrap(), *final(r))),
        ),
{
    let e = values[i].as_mut().unwrap();
    &mut e.value
}

/// The key and the value of a stored value entry.
pub open spec fn pair_of<K, V>(ks: Seq<Option<KeyEntry<K>>>, e: ValueEntry<V>) -> (K, V) {
    (ks[e.key_index as int].unwrap().key, e.value)
}

/// The key slot of `e` is occupied.
pub open spec fn key_slot_ok<K, V>(ks: Seq<Option<KeyEntry<K>>>, e: ValueEntry<V>) -> bool {
    e.key_index < ks.len() && ks[e.key_index as int].is_some()
}

/// Yields every (key, value) pair of a multimap in global insertion order.
#[derive(Clone)]
pub struct Iter<'map, Key, Value> {
    pub(crate) keys: &'map Vec<Option<KeyEntry<Key>>>,
    pub(crate) values: &'map Vec<Option<ValueEntry<Value>>>,
    pub(crate) front: usize,
    pub(crate) back: usize,
    pub(crate) remaining: usize,
}

impl<'map, Key, Value> View for Iter<'map, Key, Value> {
    type V = Seq<(Key, Value)>;

    closed spec fn view(&self) -> Seq<(Key, Value)> {
        occupied(self.values@.subrange(self.front as int, self.back as int)).map_values(
            |e: ValueEntry<Value>| pair_of(self.keys@, e),
        )
    }
}

impl<'map, Key, Value> Iter<'map, Key, Value> {
    /// Starts at the first of all the value slots.
    pub(crate) fn new(keys: &'map Vec<Option<KeyEntry<Key>>>, values: &'map Vec<Option<ValueEntry<Value>>>, count: usize) -> (r: Self)
        requires
            count == occupied(values@).len(),
            forall|i: int|
                0 <= i < values@.len() && (#[trigger] values@[i]).is_some() ==> key_slot_ok(
                    keys@,
                    values@[i].unwrap(),
                ),
        ensures
            r.wf(),
            r@ == occupied(values@).map_values(|e: ValueEntry<Value>| pair_of(keys@, e)),
    {
        let n = values.len();
        proof {
            assert(values@.subrange(0, n as int) =~= values@);
        }
        Iter { keys, values, front: 0, back: n, remaining: count }
    }

    /// The consistency that every method keeps.
    pub closed spec fn wf(&self) -> bool {
        &&& self.front <= self.back <= self.values@.len()
        &&& self.remaining == occupied(self.values@.subrange(self.front as int, self.back as int)).len()
        &&& forall|i: int|
            0 <= i < self.values@.len() && (#[trigger] self.values@[i]).is_some() ==> key_slot_ok(
                self.keys@,
                self.values@[i].unwrap(),
            )
    }

    /// The oldest pair that is left.
    pub fn next(&mut self) -> (r: Option<(&'map Key, &'map Value)>)
        requires
            old(self).wf(),
        ensures
            final(self).wf(),
            old(self)@.len() == 0 ==> r.is_none() && final(self)@ == old(self)@,
            old(self)@.len() > 0 ==> r.is_some() && (*r.unwrap().0, *r.unwrap().1) == old(self)@[0]
                && final(self)@ == old(self)@.drop_first(),
    {
        let values: &'map Vec<Option<ValueEntry<Value>>> = self.values;
        let keys: &'map Vec<Option<KeyEntry<Key>>> = self.keys;
        let ghost o = occupied(values@.subrange(self.front as int, self.back as int));
        proof {
            lemma_occupied_all(
                values@.subrange(self.front as int, self.back as int),
                |e: ValueEntry<Value>| key_slot_ok(keys@, e),
            );
        }
        let (found, f) = next_slot(values, self.front, self.back);
        self.front = f;
        match found {
            Some(e) => {
                proof {
                    assert(key_slot_ok(keys@, o[0]));
                }
                self.remaining = self.remaining - 1;
                let ke = keys[e.key_index].as_ref().unwrap();
                proof {
                    assert(self@ =~= old(self)@.drop_first());
                }
                Some((&ke.key, &e.value))
            },
            None => None,
        }
    }

    /// The newest pair that is left.
    pub fn next_back(&mut self) -> (r: Option<(&'map Key, &'map Value)>)
        requires
            old(self).wf(),
        ensures
            final(self).wf(),
            old(self)@.len() == 0 ==> r.is_none() && final(self)@ == old(self)@,
            old(self)@.len() > 0 ==> r.is_some() && (*r.unwrap().0, *r.unwrap().1) == old(self)@.last()
                && final(self)@ == old(self)@.drop_last(),
    {
        let values: &'map Vec<Option<ValueEntry<Value>>> = self.values;
        let keys: &'map Vec<Option<KeyEntry<Key>>> = self.keys;
        let ghost o = occupied(values@.subrange(self.front as int, self.back as int));
        proof {
            lemma_occupied_all(
                values@.subrange(self.front as int, self.back as int),
                |e: ValueEntry<Value>| key_slot_ok(keys@, e),
            );
        }
        let (found, b) = prev_slot(values, self.front, self.back);
        self.back = b;
        match found {
            Some(e) => {
                proof {
                    assert(key_slot_ok(keys@, o[o.len() - 1]));
                }
                self.remaining = self.remaining - 1;
                let ke = keys[e.key_index].as_ref().unwrap();
                proof {
                    assert(self@ =~= old(self)@.drop_last());
                }
                Some((&ke.key, &e.value))
            },
            None => None,
        }
    }

    /// The number of pairs that are left.
    pub fn len(&self) -> (r: usize)
        requires
            self.wf(),
        ensures
            r == self@.len(),
    {
        self.remaining
    }
}

/// Yields every key of a multimap in order of first insertion.
#[derive(Clone)]
pub struct Keys<'map, Key> {
    pub(crate) keys: &'map Vec<Option<KeyEntry<Key>>>,
    pub(crate) front: usize,
    pub(crate) back: usize,
    pub(crate) remaining: usize,
}

impl<'map, Key> View for Keys<'map, Key> {
    type V = Seq<Key>;

    closed spec fn view(&self) -> Seq<Key> {
        occupied(self.keys@.subrange(self.front as int, self.back as int)).map_values(
            |e: KeyEntry<Key>| e.key,
        )
    }
}

impl<'map, Key> Keys<'map, Key> {
    /// Starts at the first of all the key slots.
    pub(crate) fn new(keys: &'map Vec<Option<KeyEntry<Key>>>, count: usize) -> (r: Self)
        requires
            count == occupied(keys@).len(),
        ensures
            r.wf(),
            r@ == occupied(keys@).map_values(|e: KeyEntry<Key>| e.key),
    {
        let n = keys.len();
        proof {
            assert(keys@.subrange(0, n as int) =~= keys@);
        }
        Keys { keys, front: 0, back: n, remaining: count }
    }

    /// The consistency that every method keeps.
    pub closed spec fn wf(&self) -> bool {
        &&& self.front <= self.back <= self.keys@.len()
        &&& self.remaining == occupied(self.keys@.subrange(self.front as int, self.back as int)).len()
    }

    /// The oldest key that is left.
    pub fn next(&mut self) -> (r: Option<&'map Key>)
        requires
            old(self).wf(),
        ensures
            final(self).wf(),
            old(self)@.len() == 0 ==> r.is_none() && final(self)@ == old(self)@,
            old(self)@.len() > 0 ==> r.is_some() && *r.unwrap() == old(self)@[0] && final(self)@ == old(
                self,
            )@.drop_first(),
    {
        let keys: &'map Vec<Option<KeyEntry<Key>>> = self.keys;
        let (found, f) = next_slot(keys, self.front, self.back);
        self.front = f;
        match found {
            Some(e) => {
                self.remaining = self.remaining - 1;
                proof {
                    assert(self@ =~= old(self)@.drop_first());
                }
                Some(&e.key)
            },
            None => None,
        }
    }

    /// The newest key that is left.
    pub fn next_back(&mut self) -> (r: Option<&'map Key>)
        requires
            old(self).wf(),
        ensures
            final(self).wf(),
            old(self)@.len() == 0 ==> r.is_none() && final(self)@ == old(self)@,
            old(self)@.len() > 0 ==> r.is_some() && *r.unwrap() == old(self)@.last() && final(self)@
                == old(self)@.drop_last(),
    {
        let keys: &'map Vec<Option<KeyEntry<Key>>> = self.keys;
        let (found, b) = prev_slot(keys, self.front, self.back);
        self.back = b;
        match found {
            Some(e) => {
                self.remaining = self.remaining - 1;
                proof {
                    assert(self@ =~= old(self)@.drop_last());
                }
                Some(&e.key)
            },
            None => None,
        }
    }

    /// The number of keys that are left.
    pub fn len(&self) -> (r: usize)
        requires
            self.wf(),
        ensures
            r == self@.len(),
    {
        self.remaining
    }
}

/// Yields every value of a multimap in global insertion order.
#[derive(Clone)]
pub struct Values<'map, Value> {
    pub(crate) values: &'map Vec<Option<ValueEntry<Value>>>,
    pub(crate) front: usize,
    pub(crate) back: usize,
    pub(crate) remaining: usize,
}

impl<'map, Value> View for Values<'map, Value> {
    type V = Seq<Value>;

    closed spec fn view(&self) -> Seq<Value> {
        occupied(self.values@.subrange(self.front as int, self.back as int)).map_values(
            |e: ValueEntry<Value>| e.value,
        )
    }
}

impl<'map, Value> Values<'map, Value> {
    /// Starts at the first of all the value slots.
    pub(crate) fn new(values: &'map Vec<Option<ValueEntry<Value>>>, count: usize) -> (r: Self)
        requires
            count == occupied(values@).len(),
        ensures
            r.wf(),
            r@ == occupied(values@).map_values(|e: ValueEntry<Value>| e.value),
    {
        let n = values.len();
        proof {
            assert(values@.subrange(0, n as int) =~= values@);
        }
        Values { values, front: 0, back: n, remaining: count }
    }

    /// The consistency that every method keeps.
    pub closed spec fn wf(&self) -> bool {
        &&& self.front <= self.back <= self.values@.len()
        &&& self.remaining == occupied(self.values@.subrange(self.front as int, self.back as int)).len()
    }

    /// The oldest value that is left.
    pub fn next(&mut self) -> (r: Option<&'map Value>)
        requires
            old(self).wf(),
        ensures
            final(self).wf(),
            old(self)@.len() == 0 ==> r.is_none() && final(self)@ == old(self)@,
            old(self)@.len() > 0 ==> r.is_some() && *r.unwrap() == old(self)@[0] && final(self)@ == old(
                self,
            )@.drop_first(),
    {
        let values: &'map Vec<Option<ValueEntry<Value>>> = self.values;
        let (found, f) = next_slot(values, self.front, self.back);
        self.front = f;
        match found {
            Some(e) => {
                self.remaining = self.remaining - 1;
                proof {
                    assert(self@ =~= old(self)@.drop_first());
                }
                Some(&e.value)
            },
            None => None,
        }
    }

    /// The newest value that is left.
    pub fn next_back(&mut self) -> (r: Option<&'map Value>)
        requires
            old(self).wf(),
        ensures
            final(self).wf(),
            old(self)@.len() == 0 ==> r.is_none() && final(self)@ == old(self)@,
            old(self)@.len() > 0 ==> r.is_some() && *r.unwrap() == old(self)@.last() && final(self)@
                == old(self)@.drop_last(),
    {
        let values: &'map Vec<Option<ValueEntry<Value>>> = self.values;
        let (found, b) = prev_slot(values, self.front, self.back);
        self.back = b;
        match found {
            Some(e) => {
                self.remaining = self.remaining - 1;
                proof {
                    assert(self@ =~= old(self)@.drop_last());
                }
                Some(&e.value)
            },
            None => None,
        }
    }

    /// The number of values that are left.
    pub fn len(&self) -> (r: usize)
        requires
            self.wf(),
        ensures
            r == self@.len(),
    {
        self.remaining
    }
}

/// Yields the values of one key, oldest first, by following the links
/// between them.
#[derive(Clone)]
pub struct EntryValues<'map, Value> {
    pub(crate) values: &'map Vec<Option<ValueEntry<Value>>>,
    pub(crate) head_index: Option<usize>,
    pub(crate) tail_index: Option<usize>,
    pub(crate) remaining: usize,
    /// The slots that are left, in order.
    pub(crate) rest: Ghost<Seq<int>>,
}

impl<'map, Value> View for EntryValues<'map, Value> {
    type V = Seq<Value>;

    closed spec fn view(&self) -> Seq<Value> {
        self.rest@.map_values(|i: int| slot_value(self.values@, i))
    }
}

impl<'map, Value> EntryValues<'map, Value> {
    /// Follows the links from `head_index` to `tail_index` through the
    /// `count` slots of `rest`.
    pub(crate) fn new(
        values: &'map Vec<Option<ValueEntry<Value>>>,
        head_index: usize,
        tail_index: usize,
        count: usize,
        rest: Ghost<Seq<int>>,
    ) -> (r: Self)
        requires
            count == rest@.len(),
            count > 0,
            head_index == rest@[0],
            tail_index == rest@.last(),
            forall|k: int| 0 <= k < rest@.len() ==> 0 <= #[trigger] rest@[k] < values@.len() && values@[rest@[k]].is_some(),
            forall|k: int|
                0 <= k < rest@.len() - 1 ==> (#[trigger] values@[rest@[k]]).unwrap().next_index == Some(
                    rest@[k + 1] as usize,
                ),
            forall|k: int|
                0 < k < rest@.len() ==> (#[trigger] values@[rest@[k]]).unwrap().previous_index == Some(
                    rest@[k - 1] as usize,
                ),
        ensures
            r.wf(),
            r@ == rest@.map_values(|i: int| slot_value(values@, i)),
    {
        let _ = values.len();
        EntryValues { values, head_index: Some(head_index), tail_index: Some(tail_index), remaining: count, rest }
    }

    /// Yields nothing.
    pub(crate) fn empty(values: &'map Vec<Option<ValueEntry<Value>>>) -> (r: Self)
        ensures
            r.wf(),
            r@ == Seq::<Value>::empty(),
    {
        let _ = values.len();
        let r = EntryValues { values, head_index: None, tail_index: None, remaining: 0, rest: Ghost(Seq::empty()) };
        proof {
            assert(r@ =~= Seq::<Value>::empty());
        }
        r
    }

    /// The consistency that every method keeps.
    pub closed spec fn wf(&self) -> bool {
        let c = self.rest@;
        let vs = self.values@;
        &&& self.remaining == c.len()
        &&& vs.len() <= usize::MAX
        &&& c.len() > 0 ==> self.head_index == Some(c[0] as usize) && self.tail_index == Some(
            c.last() as usize,
        )
        &&& forall|k: int|
            0 <= k < c.len() ==> 0 <= #[trigger] c[k] < vs.len() && vs[c[k]].is_some()
        &&& forall|k: int|
            0 <= k < c.len() - 1 ==> (#[trigger] vs[c[k]]).unwrap().next_index == Some(
                c[k + 1] as usize,
            )
        &&& forall|k: int|
            0 < k < c.len() ==> (#[trigger] vs[c[k]]).unwrap().previous_index == Some(
                c[k - 1] as usize,
            )
    }

    /// The oldest value that is left.
    pub fn next(&mut self) -> (r: Option<&'map Value>)
        requires
            old(self).wf(),
        ensures
            final(self).wf(),
            old(self)@.len() == 0 ==> r.is_none() && final(self)@ == old(self)@,
            old(self)@.len() > 0 ==> r.is_some() && *r.unwrap() == old(self)@[0] && final(self)@ == old(
                self,
            )@.drop_first(),
    {
        if self.remaining == 0 {
            return None;
        }
        let values: &'map Vec<Option<ValueEntry<Value>>> = self.values;
        let i = self.head_index.unwrap();
        let ghost c = self.rest@;
        proof {
            assert(0 <= c[0] < values@.len() && values@[c[0]].is_some());
        }
        match &values[i] {
            Some(e) => {
                self.head_index = e.next_index;
                self.remaining = self.remaining - 1;
                self.rest = Ghost(c.drop_first());
                proof {
                    assert(self@ =~= old(self)@.drop_first());
                    assert forall|k: int| 0 <= k < self.rest@.len() implies 0 <= #[trigger] self.rest@[k]
                        < values@.len() && values@[self.rest@[k]].is_some() by {
                        assert(self.rest@[k] == c[k + 1]);
                    }
                    if c.len() > 1 {
                        assert(values@[c[0]].unwrap().next_index == Some(c[1] as usize));
                    }
                    assert forall|k: int| 0 <= k < self.rest@.len() - 1 implies (#[trigger] values@[self.rest@[k]]).unwrap().next_index
                        == Some(self.rest@[k + 1] as usize) by {
                        assert(self.rest@[k] == c[k + 1]);
                        assert(values@[c[k + 1]].unwrap().next_index == Some(c[k + 2] as usize));
                    }
                    assert forall|k: int| 0 < k < self.rest@.len() implies (#[trigger] values@[self.rest@[k]]).unwrap().previous_index
                        == Some(self.rest@[k - 1] as usize) by {
                        assert(self.rest@[k] == c[k + 1]);
                        assert(values@[c[k + 1]].unwrap().previous_index == Some(c[k] as usize));
                    }
                }
                Some(&e.value)
            },
            None => {
                proof {
                    assert(false);
                }
                None
            },
        }
    }

    /// The newest value that is left.
    pub fn next_back(&mut self) -> (r: Option<&'map Value>)
        requires
            old(self).wf(),
        ensures
            final(self).wf(),
            old(self)@.len() == 0 ==> r.is_none() && final(self)@ == old(self)@,
            old(self)@.len() > 0 ==> r.is_some() && *r.unwrap() == old(self)@.last() && final(self)@
                == old(self)@.drop_last(),
    {
        if self.remaining == 0 {
            return None;
        }
        let values: &'map Vec<Option<ValueEntry<Value>>> = self.values;
        let i = self.tail_index.unwrap();
        let ghost c = self.rest@;
        proof {
            assert(0 <= c[c.len() - 1] < values@.len() && values@[c[c.len() - 1]].is_some());
        }
        match &values[i] {
            Some(e) => {
                self.tail_index = e.previous_index;
                self.remaining = self.remaining - 1;
                self.rest = Ghost(c.drop_last());
                proof {
                    assert(self@ =~= old(self)@.drop_last());
                    assert forall|k: int| 0 <= k < self.rest@.len() implies 0 <= #[trigger] self.rest@[k]
                        < values@.len() && values@[self.rest@[k]].is_some() by {
                        assert(self.rest@[k] == c[k]);
                    }
                    if c.len() > 1 {
                        assert(values@[c[c.len() - 1]].unwrap().previous_index == Some(
                            c[c.len() - 2] as usize,
                        ));
                    }
                    assert forall|k: int| 0 <= k < self.rest@.len() - 1 implies (#[trigger] values@[self.rest@[k]]).unwrap().next_index
                        == Some(self.rest@[k + 1] as usize) by {
                        assert(values@[c[k]].unwrap().next_index == Some(c[k + 1] as usize));
                    }
                    assert forall|k: int| 0 < k < self.rest@.len() implies (#[trigger] values@[self.rest@[k]]).unwrap().previous_index
                        == Some(self.rest@[k - 1] as usize) by {
                        assert(values@[c[k]].unwrap().previous_index == Some(c[k - 1] as usize));
                    }
                }
                Some(&e.value)
            },
            None => {
                proof {
                    assert(false);
                }
                None
            },
        }
    }

    /// The number of values that are left.
    pub fn len(&self) -> (r: usize)
        requires
            self.wf(),
        ensures
            r == self@.len(),
    {
        self.remaining
    }
}

/// Lends every value of a multimap in global insertion order, one at a time.
pub struct ValuesMut<'map, Value> {
    pub(crate) values: &'map mut Vec<Option<ValueEntry<Value>>>,
    pub(crate) front: usize,
    pub(crate) back: usize,
    pub(crate) remaining: usize,
}

impl<'map, Value> View for ValuesMut<'map, Value> {
    type V = Seq<Value>;

    closed spec fn view(&self) -> Seq<Value> {
        occupied(self.values@.subrange(self.front as int, self.back as int)).map_values(
            |e: ValueEntry<Value>| e.value,
        )
    }
}

impl<'map, Value> ValuesMut<'map, Value> {
    /// The consistency that every method keeps.
    pub closed spec fn wf(&self) -> bool {
        &&& self.front <= self.back <= self.values@.len()
        &&& self.remaining == occupied(self.values@.subrange(self.front as int, self.back as int)).len()
    }

    /// Starts at the first of all the value slots.
    pub(crate) fn new(values: &'map mut Vec<Option<ValueEntry<Value>>>, count: usize) -> (r: Self)
        requires
            count == occupied(old(values)@).len(),
        ensures
            r.wf(),
            r@ == occupied(old(values)@).map_values(|e: ValueEntry<Value>| e.value),
    {
        let n = values.len();
        proof {
            assert(values@.subrange(0, n as int) =~= values@);
        }
        ValuesMut { values, front: 0, back: n, remaining: count }
    }

    /// Lends the oldest value that is left.
    pub fn next(&mut self) -> (r: Option<&mut Value>)
        requires
            old(self).wf(),
        ensures
            final(self).wf(),
            old(self)@.len() == 0 ==> r.is_none() && final(self)@ == old(self)@,
            old(self)@.len() > 0 ==> r.is_some() && *r.unwrap() == old(self)@[0] && final(self)@ == old(
                self,
            )@.drop_first(),
    {
        let (found, f) = next_slot(&*self.values, self.front, self.back);
        let ghost vs0 = self.values@;
        let ghost b = self.back;
        match found {
            Some(_) => {
                self.front = f;
                self.remaining = self.remaining - 1;
                proof {
                    assert forall|x: Value| (#[trigger] vs0.update(f - 1, Some(with_value(vs0[f - 1].unwrap(), x)))).subrange(
                        f as int,
                        b as int,
                    ) =~= vs0.subrange(f as int, b as int) by {}
                    assert(occupied(vs0.subrange(f as int, b as int)).map_values(|e: ValueEntry<Value>| e.value)
                        =~= old(self)@.drop_first());
                }
                let v = slot_value_mut(self.values, f - 1);
                Some(v)
            },
            None => None,
        }
    }

    /// Lends the newest value that is left.
    pub fn next_back(&mut self) -> (r: Option<&mut Value>)
        requires
            old(self).wf(),
        ensures
            final(self).wf(),
            old(self)@.len() == 0 ==> r.is_none() && final(self)@ == old(self)@,
            old(self)@.len() > 0 ==> r.is_some() && *r.unwrap() == old(self)@.last() && final(self)@
                == old(self)@.drop_last(),
    {
        let (found, b) = prev_slot(&*self.values, self.front, self.back);
        let ghost vs0 = self.values@;
        let ghost f = self.front;
        match found {
            Some(_) => {
                self.back = b;
                self.remaining = self.remaining - 1;
                proof {
                    assert forall|x: Value| (#[trigger] vs0.update(b as int, Some(with_value(vs0[b as int].unwrap(), x)))).subrange(
                        f as int,
                        b as int,
                    ) =~= vs0.subrange(f as int, b as int) by {}
                    assert(occupied(vs0.subrange(f as int, b as int)).map_values(|e: ValueEntry<Value>| e.value)
                        =~= old(self)@.drop_last());
                }
                let v = slot_value_mut(self.values, b);
                Some(v)
            },
            None => None,
        }
    }

    /// What is left, read only.
    pub fn iter(&self) -> (r: Values<'_, Value>)
        requires
            self.wf(),
        ensures
            r.wf(),
            r@ == self@,
    {
        Values { values: &*self.values, front: self.front, back: self.back, remaining: self.remaining }
    }

    /// The number of values that are left.
    pub fn len(&self) -> (r: usize)
        requires
            self.wf(),
        ensures
            r == self@.len(),
    {
        self.remaining
    }
}

/// Lends every value of a multimap in global insertion order, one at a time,
/// each with its key.
pub struct IterMut<'map, Key, Value> {
    pub(crate) keys: &'map Vec<Option<KeyEntry<Key>>>,
    pub(crate) values: &'map mut Vec<Option<ValueEntry<Value>>>,
    pub(crate) front: usize,
    pub(crate) back: usize,
    pub(crate) remaining: usize,
}

impl<'map, Key, Value> View for IterMut<'map, Key, Value> {
    type V = Seq<(Key, Value)>;

    closed spec fn view(&self) -> Seq<(Key, Value)> {
        occupied(self.values@.subrange(self.front as int, self.back as int)).map_values(
            |e: ValueEntry<Value>| pair_of(self.keys@, e),
        )
    }
}

impl<'map, Key, Value> IterMut<'map, Key, Value> {
    /// The consistency that every method keeps.
    pub closed spec fn wf(&self) -> bool {
        &&& self.front <= self.back <= self.values@.len()
        &&& self.remaining == occupied(self.values@.subrange(self.front as int, self.back as int)).len()
        &&& forall|i: int|
            0 <= i < self.values@.len() && (#[trigger] self.values@[i]).is_some() ==> key_slot_ok(
                self.keys@,
                self.values@[i].unwrap(),
            )
    }

    /// Starts at the first of all the value slots.
    pub(crate) fn new(
        keys: &'map Vec<Option<KeyEntry<Key>>>,
        values: &'map mut Vec<Option<ValueEntry<Value>>>,
        count: usize,
    ) -> (r: Self)
        requires
            count == occupied(old(values)@).len(),
            forall|i: int|
                0 <= i < old(values)@.len() && (#[trigger] old(values)@[i]).is_some() ==> key_slot_ok(
                    keys@,
                    old(values)@[i].unwrap(),
                ),
        ensures
            r.wf(),
            r@ == occupied(old(values)@).map_values(|e: ValueEntry<Value>| pair_of(keys@, e)),
    {
        let n = values.len();
        proof {
            assert(values@.subrange(0, n as int) =~= values@);
        }
        IterMut { keys, values, front: 0, back: n, remaining: count }
    }

    /// The oldest pair that is left, its value lent.
    pub fn next(&mut self) -> (r: Option<(&'map Key, &mut Value)>)
        requires
            old(self).wf(),
        ensures
            final(self).wf(),
            old(self)@.len() == 0 ==> r.is_none() && final(self)@ == old(self)@,
            old(self)@.len() > 0 ==> r.is_some() && (*r.unwrap().0, *r.unwrap().1) == old(self)@[0]
                && final(self)@ == old(self)@.drop_first(),
    {
        let keys: &'map Vec<Option<KeyEntry<Key>>> = self.keys;
        let (found, f) = next_slot(&*self.values, self.front, self.back);
        let ghost vs0 = self.values@;
        let ghost b = self.back;
        match found {
            Some(e) => {
                let ke = keys[e.key_index].as_ref().unwrap();
                self.front = f;
                self.remaining = self.remaining - 1;
                proof {
                    assert forall|x: Value| (#[trigger] vs0.update(f - 1, Some(with_value(vs0[f - 1].unwrap(), x)))).subrange(
                        f as int,
                        b as int,
                    ) =~= vs0.subrange(f as int, b as int) by {}
                    assert(occupied(vs0.subrange(f as int, b as int)).map_values(
                        |e: ValueEntry<Value>| pair_of(keys@, e),
                    ) =~= old(self)@.drop_first());
                }
                let v = slot_value_mut(self.values, f - 1);
                Some((&ke.key, v))
            },
            None => None,
        }
    }

    /// The newest pair that is left, its value lent.
    pub fn next_back(&mut self) -> (r: Option<(&'map Key, &mut Value)>)
        requires
            old(self).wf(),
        ensures
            final(self).wf(),
            old(self)@.len() == 0 ==> r.is_none() && final(self)@ == old(self)@,
            old(self)@.len() > 0 ==> r.is_some() && (*r.unwrap().0, *r.unwrap().1) == old(self)@.last()
                && final(self)@ == old(self)@.drop_last(),
    {
        let keys: &'map Vec<Option<KeyEntry<Key>>> = self.keys;
        let ghost vs0 = self.values@;
        let ghost f = self.front;
        proof {
            lemma_occupied_all(
                vs0.subrange(self.front as int, self.back as int),
                |e: ValueEntry<Value>| key_slot_ok(keys@, e),
            );
        }
        let (found, b) = prev_slot(&*self.values, self.front, self.back);
        match found {
            Some(e) => {
                proof {
                    let o = occupied(vs0.subrange(f as int, self.back as int));
                    assert(key_slot_ok(keys@, o[o.len() - 1]));
                }
                let ke = keys[e.key_index].as_ref().unwrap();
                self.back = b;
                self.remaining = self.remaining - 1;
                proof {
                    assert forall|x: Value| (#[trigger] vs0.update(b as int, Some(with_value(vs0[b as int].unwrap(), x)))).subrange(
                        f as int,
                        b as int,
                    ) =~= vs0.subrange(f as int, b as int) by {}
                    assert(occupied(vs0.subrange(f as int, b as int)).map_values(
                        |e: ValueEntry<Value>| pair_of(keys@, e),
                    ) =~= old(self)@.drop_last());
                }
                let v = slot_value_mut(self.values, b);
                Some((&ke.key, v))
            },
            None => None,
        }
    }

    /// What is left, read only.
    pub fn iter(&self) -> (r: Iter<'_, Key, Value>)
        requires
            self.wf(),
        ensures
            r.wf(),
            r@ == self@,
    {
        Iter { keys: self.keys, values: &*self.values, front: self.front, back: self.back, remaining: self.remaining }
    }

    /// The number of pairs that are left.
    pub fn len(&self) -> (r: usize)
        requires
            self.wf(),
        ensures
            r == self@.len(),
    {
        self.remaining
    }
}

/// Lends the values of one key, oldest first, one at a time, by following
/// the links between them.
pub struct EntryValuesMut<'map, Value> {
    pub(crate) values: &'map mut Vec<Option<ValueEntry<Value>>>,
    pub(crate) head_index: Option<usize>,
    pub(crate) tail_index: Option<usize>,
    pub(crate) remaining: usize,
    /// The slots that are left, in order.
    pub(crate) rest: Ghost<Seq<int>>,
}

impl<'map, Value> View for EntryValuesMut<'map, Value> {
    type V = Seq<Value>;

    closed spec fn view(&self) -> Seq<Value> {
        self.rest@.map_values(|i: int| slot_value(self.values@, i))
    }
}

/// `c` lists, linked in order, occupied slots of `vs`, and the ends of what
/// is left are `head` and `tail`.
pub open spec fn linked_rest<V>(
    vs: Seq<Option<ValueEntry<V>>>,
    c: Seq<int>,
    head: Option<usize>,
    tail: Option<usize>,
) -> bool {
    &&& vs.len() <= usize::MAX
    &&& c.len() > 0 ==> head == Some(c[0] as usize) && tail == Some(c.last() as usize)
    &&& forall|k: int| 0 <= k < c.len() ==> 0 <= #[trigger] c[k] < vs.len() && vs[c[k]].is_some()
    &&& forall|k: int|
        0 <= k < c.len() - 1 ==> (#[trigger] vs[c[k]]).unwrap().next_index == Some(c[k + 1] as usize)
    &&& forall|k: int|
        0 < k < c.len() ==> (#[trigger] vs[c[k]]).unwrap().previous_index == Some(c[k - 1] as usize)
    &&& forall|k: int, l: int| 0 <= k < l < c.len() ==> #[trigger] c[k] < #[trigger] c[l]
}

impl<'map, Value> EntryValuesMut<'map, Value> {
    /// The consistency that every method keeps.
    pub closed spec fn wf(&self) -> bool {
        &&& self.remaining == self.rest@.len()
        &&& linked_rest(self.values@, self.rest@, self.head_index, self.tail_index)
    }

    /// Follows the links from the first slot of `rest`.
    pub(crate) fn new(
        values: &'map mut Vec<Option<ValueEntry<Value>>>,
        head_index: Option<usize>,
        tail_index: Option<usize>,
        count: usize,
        rest: Ghost<Seq<int>>,
    ) -> (r: Self)
        requires
            count == rest@.len(),
            linked_rest(old(values)@, rest@, head_index, tail_index),
        ensures
            r.wf(),
            r@ == rest@.map_values(|i: int| slot_value(old(values)@, i)),
    {
        EntryValuesMut { values, head_index, tail_index, remaining: count, rest }
    }

    /// Lends the oldest value that is left.
    pub fn next(&mut self) -> (r: Option<&mut Value>)
        requires
            old(self).wf(),
        ensures
            final(self).wf(),
            old(self)@.len() == 0 ==> r.is_none() && final(self)@ == old(self)@,
            old(self)@.len() > 0 ==> r.is_some() && *r.unwrap() == old(self)@[0] && final(self)@ == old(
                self,
            )@.drop_first(),
    {
        if self.remaining == 0 {
            return None;
        }
        let i = self.head_index.unwrap();
        let ghost c = self.rest@;
        let ghost vs0 = self.values@;
        proof {
            assert(0 <= c[0] < vs0.len() && vs0[c[0]].is_some());
        }
        let next = self.values[i].as_ref().unwrap().next_index;
        self.head_index = next;
        self.remaining = self.remaining - 1;
        self.rest = Ghost(c.drop_first());
        proof {
            let d = c.drop_first();
            if c.len() > 1 {
                assert(vs0[c[0]].unwrap().next_index == Some(c[1] as usize));
            }
            assert forall|x: Value| #[trigger] linked_rest(
                vs0.update(i as int, Some(with_value(vs0[i as int].unwrap(), x))),
                d,
                next,
                self.tail_index,
            ) by {
                let vs1 = vs0.update(i as int, Some(with_value(vs0[i as int].unwrap(), x)));
                assert forall|k: int| 0 <= k < d.len() implies 0 <= #[trigger] d[k] < vs1.len() && vs1[d[k]].is_some() by {
                    assert(d[k] == c[k + 1]);
                }
                assert forall|k: int| 0 <= k < d.len() - 1 implies (#[trigger] vs1[d[k]]).unwrap().next_index
                    == Some(d[k + 1] as usize) by {
                    assert(d[k] == c[k + 1]);
                    assert(c[0] < c[k + 1]);
                    assert(vs0[c[k + 1]].unwrap().next_index == Some(c[k + 2] as usize));
                }
                assert forall|k: int| 0 < k < d.len() implies (#[trigger] vs1[d[k]]).unwrap().previous_index
                    == Some(d[k - 1] as usize) by {
                    assert(d[k] == c[k + 1]);
                    assert(c[0] < c[k + 1]);
                    assert(vs0[c[k + 1]].unwrap().previous_index == Some(c[k] as usize));
                }
                assert forall|k: int, l: int| 0 <= k < l < d.len() implies #[trigger] d[k] < #[trigger] d[l] by {
                    assert(c[k + 1] < c[l + 1]);
                }
            }
            assert forall|x: Value| (#[trigger] vs0.update(i as int, Some(with_value(vs0[i as int].unwrap(), x)))).len() == vs0.len() by {}
            assert forall|x: Value| d.map_values(
                |j: int| slot_value(vs0.update(i as int, Some(#[trigger] with_value(vs0[i as int].unwrap(), x))), j),
            ) =~= old(self)@.drop_first() by {
                assert forall|k: int| 0 <= k < d.len() implies #[trigger] d[k] != i by {
                    assert(c[0] < c[k + 1]);
                }
            }
        }
        let v = slot_value_mut(self.values, i);
        Some(v)
    }

    /// Lends the newest value that is left.
    pub fn next_back(&mut self) -> (r: Option<&mut Value>)
        requires
            old(self).wf(),
        ensures
            final(self).wf(),
            old(self)@.len() == 0 ==> r.is_none() && final(self)@ == old(self)@,
            old(self)@.len() > 0 ==> r.is_some() && *r.unwrap() == old(self)@.last() && final(self)@
                == old(self)@.drop_last(),
    {
        if self.remaining == 0 {
            return None;
        }
        let i = self.tail_index.unwrap();
        let ghost c = self.rest@;
        let ghost vs0 = self.values@;
        let ghost n = c.len() - 1;
        proof {
            assert(0 <= c[n] < vs0.len() && vs0[c[n]].is_some());
        }
        let previous = self.values[i].as_ref().unwrap().previous_index;
        self.tail_index = previous;
        self.remaining = self.remaining - 1;
        self.rest = Ghost(c.drop_last());
        proof {
            let d = c.drop_last();
            if c.len() > 1 {
                assert(vs0[c[n]].unwrap().previous_index == Some(c[n - 1] as usize));
            }
            assert forall|x: Value| #[trigger] linked_rest(
                vs0.update(i as int, Some(with_value(vs0[i as int].unwrap(), x))),
                d,
                self.head_index,
                previous,
            ) by {
                let vs1 = vs0.update(i as int, Some(with_value(vs0[i as int].unwrap(), x)));
                assert forall|k: int| 0 <= k < d.len() implies 0 <= #[trigger] d[k] < vs1.len() && vs1[d[k]].is_some() by {
                    assert(d[k] == c[k]);
                }
                assert forall|k: int| 0 <= k < d.len() - 1 implies (#[trigger] vs1[d[k]]).unwrap().next_index
                    == Some(d[k + 1] as usize) by {
                    assert(c[k] < c[n]);
                    assert(vs0[c[k]].unwrap().next_index == Some(c[k + 1] as usize));
                }
                assert forall|k: int| 0 < k < d.len() implies (#[trigger] vs1[d[k]]).unwrap().previous_index
                    == Some(d[k - 1] as usize) by {
                    assert(c[k] < c[n]);
                    assert(vs0[c[k]].unwrap().previous_index == Some(c[k - 1] as usize));
                }
                assert forall|k: int, l: int| 0 <= k < l < d.len() implies #[trigger] d[k] < #[trigger] d[l] by {
                    assert(c[k] < c[l]);
                }
            }
            assert forall|x: Value| d.map_values(
                |j: int| slot_value(vs0.update(i as int, Some(#[trigger] with_value(vs0[i as int].unwrap(), x))), j),
            ) =~= old(self)@.drop_last() by {
                assert forall|k: int| 0 <= k < d.len() implies #[trigger] d[k] != i by {
                    assert(c[k] < c[n]);
                }
            }
        }
        let v = slot_value_mut(self.values, i);
        Some(v)
    }

    /// What is left, read only.
    pub fn iter(&self) -> (r: EntryValues<'_, Value>)
        requires
            self.wf(),
        ensures
            r.wf(),
            r@ == self@,
    {
        EntryValues {
            values: &*self.values,
            head_index: self.head_index,
            tail_index: self.tail_index,
            remaining: self.remaining,
            rest: Ghost(self.rest@),
        }
    }

    /// The number of values that are left.
    pub fn len(&self) -> (r: usize)
        requires
            self.wf(),
        ensures
            r == self@.len(),
    {
        self.remaining
    }
}

} // verus!
