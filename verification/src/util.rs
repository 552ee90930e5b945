//! Containers that keep an invariant: queues that are never empty, and
//! ordered maps that are never overwritten by accident.

use std::collections::BTreeMap;
use std::collections::VecDeque;
use vstd::laws_cmp::obeys_cmp;
use vstd::prelude::*;
use vstd::std_specs::btree::increasing_seq;
use vstd::std_specs::btree::key_obeys_cmp_spec;
use vstd::std_specs::cmp::OrdSpec;
use vstd::std_specs::iter::IteratorSpec;

verus! {

/// A container that holds at least one element.
///
/// The container inside is private, and every operation that takes an
/// element out hands back either what is left or nothing, so the caller
/// decides what becomes of an exhausted container.
#[derive(Debug, Clone, Copy, PartialEq, Eq, PartialOrd, Ord, Hash)]
pub struct NonEmpty<T>(T);

impl<T> View for NonEmpty<Vec<T>> {
    type V = Seq<T>;

    closed spec fn view(&self) -> Seq<T> {
        self.0@
    }
}

impl<T> View for NonEmpty<VecDeque<T>> {
    type V = Seq<T>;

    closed spec fn view(&self) -> Seq<T> {
        self.0@
    }
}

impl<T> NonEmpty<T> {
    /// A vector that holds `value` alone.
    pub fn vec(value: T) -> (r: NonEmpty<Vec<T>>)
        ensures
            r@ == seq![value],
            r.wf(),
    {
        NonEmpty::<Vec<T>>::new(value)
    }

    /// A queue that holds `value` alone.
    pub fn vecdeque(value: T) -> (r: NonEmpty<VecDeque<T>>)
        ensures
            r@ == seq![value],
            r.wf(),
    {
        NonEmpty::<VecDeque<T>>::new(value)
    }
}

impl<T> NonEmpty<Vec<T>> {
    /// What every value of this type satisfies: there is an element.
    pub open spec fn wf(&self) -> bool {
        self@.len() > 0
    }

    pub fn new(value: T) -> (r: Self)
        ensures
            r@ == seq![value],
            r.wf(),
    {
        let mut inner = Vec::new();
        inner.push(value);
        NonEmpty(inner)
    }

    pub fn push(&mut self, value: T)
        ensures
            final(self)@ == old(self)@.push(value),
            final(self).wf(),
    {
        self.0.push(value)
    }

    /// Takes the last element out. What is left comes back only if it still
    /// holds something.
    pub fn pop(self) -> (r: (Option<Self>, T))
        requires
            self.wf(),
        ensures
            r.1 == self@.last(),
            r.0 is None <==> self@.len() == 1,
            r.0 matches Some(rest) ==> rest@ == self@.drop_last() && rest.wf(),
    {
        let mut this = self;
        let value = this.0.pop().unwrap();
        if this.0.len() == 0 {
            (None, value)
        } else {
            (Some(this), value)
        }
    }

    pub fn len(&self) -> (r: usize)
        ensures
            r == self@.len(),
    {
        self.0.len()
    }

    /// Walks the elements from first to last.
    pub fn iter(&self) -> (r: std::slice::Iter<'_, T>)
        ensures
            r.remaining() == self@.as_ref(),
            r.decrease() is Some,
            r.initial_value_relation(&r),
    {
        self.0.iter()
    }
}

impl<T> NonEmpty<VecDeque<T>> {
    /// What every value of this type satisfies: there is an element.
    pub open spec fn wf(&self) -> bool {
        self@.len() > 0
    }

    pub fn new(value: T) -> (r: Self)
        ensures
            r@ == seq![value],
            r.wf(),
    {
        let mut inner = VecDeque::new();
        inner.push_back(value);
        NonEmpty(inner)
    }

    pub fn push_back(&mut self, value: T)
        ensures
            final(self)@ == old(self)@.push(value),
            final(self).wf(),
    {
        self.0.push_back(value)
    }

    pub fn push_front(&mut self, value: T)
        ensures
            final(self)@ == seq![value] + old(self)@,
            final(self).wf(),
    {
        self.0.push_front(value)
    }

    /// Takes the last element out. What is left comes back only if it still
    /// holds something.
    pub fn pop_back(self) -> (r: (Option<Self>, T))
        requires
            self.wf(),
        ensures
            r.1 == self@.last(),
            r.0 is None <==> self@.len() == 1,
            r.0 matches Some(rest) ==> rest@ == self@.drop_last() && rest.wf(),
    {
        let mut this = self;
        let value = this.0.pop_back().unwrap();
        if this.0.len() == 0 {
            (None, value)
        } else {
            (Some(this), value)
        }
    }

    /// Takes the first element out. What is left comes back only if it still
    /// holds something.
    pub fn pop_front(self) -> (r: (Option<Self>, T))
        requires
            self.wf(),
        ensures
            r.1 == self@.first(),
            r.0 is None <==> self@.len() == 1,
            r.0 matches Some(rest) ==> rest@ == self@.drop_first() && rest.wf(),
    {
        let mut this = self;
        let value = this.0.pop_front().unwrap();
        if this.0.len() == 0 {
            (None, value)
        } else {
            (Some(this), value)
        }
    }

    /// Takes out the first element that `accepts` says yes to.
    ///
    /// Some element must be one that `accepts` cannot refuse.
    pub fn pop_once_by<F: Fn(&T) -> bool>(self, accepts: F) -> (r: (Option<Self>, T))
        requires
            self.wf(),
            forall|i: int| 0 <= i < self@.len() ==> call_requires(accepts, (&#[trigger] self@[i],)),
            exists|i: int|
                0 <= i < self@.len() && !call_ensures(accepts, (&#[trigger] self@[i],), false),
        ensures
            exists|k: int|
                {
                    &&& 0 <= k < self@.len()
                    &&& call_ensures(accepts, (&#[trigger] self@[k],), true)
                    &&& forall|j: int| 0 <= j < k ==> call_ensures(accepts, (&#[trigger] self@[j],), false)
                    &&& r.1 == self@[k]
                    &&& r.0 is None <==> self@.len() == 1
                    &&& r.0 matches Some(rest) ==> rest@ == self@.remove(k) && rest.wf()
                },
    {
        let mut this = self;
        let n = this.0.len();
        let mut i: usize = 0;
        while i < n
            invariant
                this == self,
                n == self@.len(),
                0 <= i <= n,
                forall|j: int| 0 <= j < self@.len() ==> call_requires(accepts, (&#[trigger] self@[j],)),
                forall|j: int| 0 <= j < i ==> call_ensures(accepts, (&#[trigger] self@[j],), false),
            decreases n - i,
        {
            if accepts(&this.0[i]) {
                let value = this.0.remove(i).unwrap();
                if this.0.len() == 0 {
                    return (None, value);
                } else {
                    return (Some(this), value);
                }
            }
            i += 1;
        }
        vstd::pervasive::unreached()
    }

    pub fn len(&self) -> (r: usize)
        ensures
            r == self@.len(),
    {
        self.0.len()
    }

    pub fn front(&self) -> (r: &T)
        requires
            self.wf(),
        ensures
            *r == self@.first(),
    {
        &self.0[0]
    }

    pub fn back(&self) -> (r: &T)
        requires
            self.wf(),
        ensures
            *r == self@.last(),
    {
        &self.0[self.0.len() - 1]
    }

    /// Walks the elements from first to last.
    pub fn iter(&self) -> (r: std::collections::vec_deque::Iter<'_, T>)
        ensures
            r.remaining() == self@.as_ref(),
            r.decrease() is Some,
            r.initial_value_relation(&r),
    {
        self.0.iter()
    }
}

/// `k` is a key of `m`, and every other key of `m` comes after it.
pub open spec fn is_least_key<K, V>(m: Map<K, V>, k: K) -> bool {
    &&& m.contains_key(k)
    &&& forall|o: K| #[trigger] m.contains_key(o) && o != k ==> increasing_seq(seq![k, o])
}

/// `k` is a key of `m`, and every other key of `m` comes before it.
pub open spec fn is_greatest_key<K, V>(m: Map<K, V>, k: K) -> bool {
    &&& m.contains_key(k)
    &&& forall|o: K| #[trigger] m.contains_key(o) && o != k ==> increasing_seq(seq![o, k])
}

/// Among integers, a pair is increasing exactly when the first is the smaller.
pub proof fn lemma_increasing_pair(a: u64, b: u64)
    ensures
        increasing_seq(seq![a, b]) <==> a < b,
{
    broadcast use vstd::laws_cmp::group_laws_cmp;

    let s = seq![a, b];
    assert(obeys_cmp::<u64>());
    vstd::std_specs::btree::axiom_increasing_seq_meaning::<u64>(s);
    assert(s[0] == a && s[1] == b);
    if increasing_seq(s) {
        assert(s[0].cmp_spec(&s[1]) is Less);
    }
}

/// Keys that an ordered map of integers hands out in increasing order grow
/// from each to the next.
pub proof fn lemma_increasing_keys(keys: Seq<&u64>)
    requires
        increasing_seq(keys),
    ensures
        forall|i: int, j: int| 0 <= i < j < keys.len() ==> *keys[i] < *keys[j],
{
    broadcast use vstd::laws_cmp::group_laws_cmp;

    assert(obeys_cmp::<&u64>());
    vstd::std_specs::btree::axiom_increasing_seq_meaning::<&u64>(keys);
    assert forall|i: int, j: int| 0 <= i < j < keys.len() implies *keys[i] < *keys[j] by {
        assert(OrdSpec::cmp_spec(&keys[i], &keys[j]) is Less);
    }
}

/// Among integer keys, the least key is the smallest number.
pub proof fn lemma_least_key_is_smallest<V>(m: Map<u64, V>, k: u64)
    ensures
        is_least_key(m, k) <==> m.contains_key(k) && forall|o: u64| m.contains_key(o) ==> k <= o,
{
    assert forall|o: u64| increasing_seq(seq![k, o]) <==> k < o by {
        lemma_increasing_pair(k, o);
    }
}

/// Among integer keys, the greatest key is the largest number.
pub proof fn lemma_greatest_key_is_largest<V>(m: Map<u64, V>, k: u64)
    ensures
        is_greatest_key(m, k) <==> m.contains_key(k) && forall|o: u64| m.contains_key(o) ==> o <= k,
{
    assert forall|o: u64| increasing_seq(seq![o, k]) <==> o < k by {
        lemma_increasing_pair(o, k);
    }
}

/// What an ordered map offers beyond the standard operations.
///
/// The contracts speak of keys whose order obeys the laws of a total order.
pub trait BTreeMapExt<KeyT, ValueT>: View<V = Map<KeyT, ValueT>> {
    /// The least key, if the map holds any.
    fn min(&self) -> (r: Option<&KeyT>)
        ensures
            key_obeys_cmp_spec::<KeyT>() ==> match r {
                Some(k) => is_least_key(self@, *k),
                None => forall|o: KeyT| !self@.contains_key(o),
            },
    ;

    /// The greatest key, if the map holds any.
    fn max(&self) -> (r: Option<&KeyT>)
        ensures
            key_obeys_cmp_spec::<KeyT>() ==> match r {
                Some(k) => is_greatest_key(self@, *k),
                None => forall|o: KeyT| !self@.contains_key(o),
            },
    ;

    /// The entry of the least key, its value open to change.
    fn min_key_value_mut(&mut self) -> (r: Option<(&KeyT, &mut ValueT)>)
        ensures
            key_obeys_cmp_spec::<KeyT>() ==> match r {
                Some((k, v)) => {
                    &&& is_least_key(old(self)@, *k)
                    &&& *v == old(self)@[*k]
                    &&& final(self)@ == old(self)@.insert(*k, *final(v))
                },
                None => {
                    &&& forall|o: KeyT| !old(self)@.contains_key(o)
                    &&& final(self)@ == old(self)@
                },
            },
    ;

    /// The entry of the greatest key, its value open to change.
    fn max_key_value_mut(&mut self) -> (r: Option<(&KeyT, &mut ValueT)>)
        ensures
            key_obeys_cmp_spec::<KeyT>() ==> match r {
                Some((k, v)) => {
                    &&& is_greatest_key(old(self)@, *k)
                    &&& *v == old(self)@[*k]
                    &&& final(self)@ == old(self)@.insert(*k, *final(v))
                },
                None => {
                    &&& forall|o: KeyT| !old(self)@.contains_key(o)
                    &&& final(self)@ == old(self)@
                },
            },
    ;

    /// Adds an entry under a key that the map does not hold yet.
    fn insert_uncontended(&mut self, key: KeyT, value: ValueT) where KeyT: Ord
        requires
            obeys_cmp::<KeyT>(),
            !old(self)@.contains_key(key),
        ensures
            final(self)@ == old(self)@.insert(key, value),
    ;
}

impl<KeyT: Ord, ValueT> BTreeMapExt<KeyT, ValueT> for BTreeMap<KeyT, ValueT> {
    fn min(&self) -> (r: Option<&KeyT>) {
        match first_key_value(self) {
            Some((k, _)) => Some(k),
            None => None,
        }
    }

    fn max(&self) -> (r: Option<&KeyT>) {
        match last_key_value(self) {
            Some((k, _)) => Some(k),
            None => None,
        }
    }

    fn min_key_value_mut(&mut self) -> (r: Option<(&KeyT, &mut ValueT)>) {
        first_key_value_mut(self)
    }

    fn max_key_value_mut(&mut self) -> (r: Option<(&KeyT, &mut ValueT)>) {
        last_key_value_mut(self)
    }

    fn insert_uncontended(&mut self, key: KeyT, value: ValueT) {
        let clobbered = self.insert(key, value);
        assert(clobbered is None);
    }
}

/// Calls `BTreeMap::first_key_value` of the standard library.
///
/// Believed of it: it hands out the entry whose key is the minimum of the
/// map, or nothing when the map is empty.
#[verifier::external_body]
fn first_key_value<'a, K: Ord, V>(m: &'a BTreeMap<K, V>) -> (r: Option<(&'a K, &'a V)>)
    ensures
        key_obeys_cmp_spec::<K>() ==> match r {
            Some((k, v)) => is_least_key(m@, *k) && *v == m@[*k],
            None => forall|o: K| !m@.contains_key(o),
        },
{
    m.first_key_value()
}

/// Calls `BTreeMap::last_key_value` of the standard library.
///
/// Believed of it: it hands out the entry whose key is the maximum of the
/// map, or nothing when the map is empty.
#[verifier::external_body]
fn last_key_value<'a, K: Ord, V>(m: &'a BTreeMap<K, V>) -> (r: Option<(&'a K, &'a V)>)
    ensures
        key_obeys_cmp_spec::<K>() ==> match r {
            Some((k, v)) => is_greatest_key(m@, *k) && *v == m@[*k],
            None => forall|o: K| !m@.contains_key(o),
        },
{
    m.last_key_value()
}

/// Takes the first item of `BTreeMap::iter_mut` of the standard library.
///
/// Believed of it: the iterator walks the entries in ascending order of
/// their keys, so its first item is the entry of the minimum key; nothing
/// but that entry's value can change through what it hands out.
#[verifier::external_body]
fn first_key_value_mut<'a, K: Ord, V>(m: &'a mut BTreeMap<K, V>) -> (r: Option<(&'a K, &'a mut V)>)
    ensures
        key_obeys_cmp_spec::<K>() ==> match r {
            Some((k, v)) => {
                &&& is_least_key(old(m)@, *k)
                &&& *v == old(m)@[*k]
                &&& final(m)@ == old(m)@.insert(*k, *final(v))
            },
            None => {
                &&& forall|o: K| !old(m)@.contains_key(o)
                &&& final(m)@ == old(m)@
            },
        },
{
    m.iter_mut().next()
}

/// Takes the last item of `BTreeMap::iter_mut` of the standard library.
///
/// Believed of it: the iterator walks the entries in ascending order of
/// their keys, so its last item is the entry of the maximum key; nothing
/// but that entry's value can change through what it hands out.
#[verifier::external_body]
fn last_key_value_mut<'a, K: Ord, V>(m: &'a mut BTreeMap<K, V>) -> (r: Option<(&'a K, &'a mut V)>)
    ensures
        key_obeys_cmp_spec::<K>() ==> match r {
            Some((k, v)) => {
                &&& is_greatest_key(old(m)@, *k)
                &&& *v == old(m)@[*k]
                &&& final(m)@ == old(m)@.insert(*k, *final(v))
            },
            None => {
                &&& forall|o: K| !old(m)@.contains_key(o)
                &&& final(m)@ == old(m)@
            },
        },
{
    m.iter_mut().next_back()
}

} // verus!
