//! A hash map keyed by precomputed hashes, with a bucket of entries per hash.
//!
//! The caller hashes a key itself and hands the hash in; each bucket is a
//! vector of `(key, value)` pairs searched in order, either with `K`'s own
//! `==` or with an equality closure supplied by the caller. The abstract
//! state is a map from hash to the sequence of entries of its bucket; a
//! bucket that has been emptied by removals stays in the map, empty.

use std::collections::HashMap;
use vstd::prelude::*;
use vstd::std_specs::cmp::PartialEqSpec;
use vstd::std_specs::iter::IteratorSpec;

verus! {

broadcast use vstd::std_specs::hash::group_hash_axioms;

/// The entries stored under `hash`; a hash with no bucket has none.
pub open spec fn bucket<K, V>(m: Map<u64, Seq<(K, V)>>, hash: u64) -> Seq<(K, V)> {
    if m.contains_key(hash) {
        m[hash]
    } else {
        Seq::empty()
    }
}

/// Entry `i` is the first entry of `b` whose key equals `key` by `K`'s `==`
/// (the stored key on the left).
pub open spec fn is_first_key_match<K: PartialEq, V>(b: Seq<(K, V)>, key: K, i: int) -> bool {
    &&& 0 <= i < b.len()
    &&& b[i].0.eq_spec(&key)
    &&& forall|j: int| 0 <= j < i ==> !(#[trigger] b[j].0.eq_spec(&key))
}

/// Some entry of `b` has a key equal to `key` by `K`'s `==`.
pub open spec fn has_key_match<K: PartialEq, V>(b: Seq<(K, V)>, key: K) -> bool {
    exists|i: int| 0 <= i < b.len() && #[trigger] b[i].0.eq_spec(&key)
}

/// Entry `i` is where a search by `K`'s `==` for `key` stops: an index of `b`
/// and, where `K`'s `==` follows its specification, the first match.
pub open spec fn key_found_at<K: PartialEq, V>(b: Seq<(K, V)>, key: K, i: int) -> bool {
    &&& 0 <= i < b.len()
    &&& K::obeys_eq_spec() ==> is_first_key_match(b, key, i)
}

/// A search by `K`'s `==` for `key` found nothing: where `K`'s `==` follows
/// its specification, no key of `b` equals `key`.
pub open spec fn key_not_found<K: PartialEq, V>(b: Seq<(K, V)>, key: K) -> bool {
    K::obeys_eq_spec() ==> !has_key_match(b, key)
}

/// Called on the keys of `b` in order, `eq` may refuse every key before
/// entry `i` and accept the key of entry `i`.
pub open spec fn accepts_first<K, V, F: Fn(&K) -> bool>(b: Seq<(K, V)>, eq: F, i: int) -> bool {
    &&& 0 <= i < b.len()
    &&& eq.ensures((&b[i].0,), true)
    &&& forall|j: int| 0 <= j < i ==> #[trigger] eq.ensures((&b[j].0,), false)
}

/// Called on each key of `b`, `eq` may refuse every one.
pub open spec fn refuses_all<K, V, F: Fn(&K) -> bool>(b: Seq<(K, V)>, eq: F) -> bool {
    forall|j: int| 0 <= j < b.len() ==> #[trigger] eq.ensures((&b[j].0,), false)
}

/// Called on the entries of `b` in order, `eq` on the key and then, where
/// `eq` accepts, `condition` on the entry, both may accept entry `i`, and
/// for every entry before it one of them may refuse.
pub open spec fn accepts_first_if<K, V, F: Fn(&K) -> bool, C: Fn(&K, &V) -> bool>(
    b: Seq<(K, V)>,
    eq: F,
    condition: C,
    i: int,
) -> bool {
    &&& 0 <= i < b.len()
    &&& eq.ensures((&b[i].0,), true)
    &&& condition.ensures((&b[i].0, &b[i].1), true)
    &&& forall|j: int| 0 <= j < i ==> refuses_entry(#[trigger] b[j], eq, condition)
}

/// `eq` may refuse the key of `e`, or accept it while `condition` refuses `e`.
pub open spec fn refuses_entry<K, V, F: Fn(&K) -> bool, C: Fn(&K, &V) -> bool>(
    e: (K, V),
    eq: F,
    condition: C,
) -> bool {
    eq.ensures((&e.0,), false) || (eq.ensures((&e.0,), true) && condition.ensures(
        (&e.0, &e.1),
        false,
    ))
}

/// Called on the entries of `b` as above, the pair may refuse every entry.
pub open spec fn refuses_all_if<K, V, F: Fn(&K) -> bool, C: Fn(&K, &V) -> bool>(
    b: Seq<(K, V)>,
    eq: F,
    condition: C,
) -> bool {
    forall|j: int| 0 <= j < b.len() ==> refuses_entry(#[trigger] b[j], eq, condition)
}

/// `hs` lists every hash that has a bucket, each once.
pub open spec fn lists_buckets<K, V>(m: Map<u64, Seq<(K, V)>>, hs: Seq<u64>) -> bool {
    &&& hs.no_duplicates()
    &&& forall|h: u64| hs.contains(h) <==> m.contains_key(h)
}

/// The entries of the buckets of `hs`, bucket after bucket in the order of
/// `hs`, each bucket in its own order.
pub open spec fn entries_in_order<K, V>(m: Map<u64, Seq<(K, V)>>, hs: Seq<u64>) -> Seq<(K, V)>
    decreases hs.len(),
{
    if hs.len() == 0 {
        Seq::empty()
    } else {
        entries_in_order(m, hs.drop_last()) + bucket(m, hs.last())
    }
}

/// The number of entries in all buckets together.
pub open spec fn total_len<K, V>(m: Map<u64, Seq<(K, V)>>) -> nat
    decreases m.dom().len(),
    when m.dom().finite()
{
    if m.dom().len() == 0 {
        0
    } else {
        let h = m.dom().choose();
        m[h].len() + total_len(m.remove(h))
    }
}

/// `new` is `old` after the value of `key` in the bucket of `hash` became
/// `value`: the entry found by `K`'s `==` keeps its key and place, and where
/// none is found the entry is added at the end of the bucket.
pub open spec fn value_stored<K: PartialEq, V>(
    old: Map<u64, Seq<(K, V)>>,
    new: Map<u64, Seq<(K, V)>>,
    hash: u64,
    key: K,
    value: V,
) -> bool {
    let b = bucket(old, hash);
    ||| exists|i: int|
        key_found_at(b, key, i) && new == old.insert(hash, b.update(i, (#[trigger] b[i].0, value)))
    ||| key_not_found(b, key) && new == old.insert(hash, b.push((key, value)))
}

/// `new` is `old`, where the bucket of `hash` holds a key equal to `key`, or
/// else `old` with `key` and `value` added at the end of that bucket.
pub open spec fn kept_or_added<K: PartialEq, V>(
    old: Map<u64, Seq<(K, V)>>,
    new: Map<u64, Seq<(K, V)>>,
    hash: u64,
    key: K,
    value: V,
) -> bool {
    let b = bucket(old, hash);
    ||| (exists|i: int| key_found_at(b, key, i)) && new == old
    ||| key_not_found(b, key) && new == old.insert(hash, b.push((key, value)))
}

/// The value of the first entry in the bucket of `hash` whose key equals
/// `key` by `K`'s `==`.
pub open spec fn lookup<K: PartialEq, V>(m: Map<u64, Seq<(K, V)>>, hash: u64, key: K) -> Option<V> {
    let b = bucket(m, hash);
    if has_key_match(b, key) {
        Some(b[choose|i: int| is_first_key_match(b, key, i)].1)
    } else {
        None
    }
}

/// No bucket holds two entries whose keys are equal by `K`'s `==`.
pub open spec fn distinct_keys<K: PartialEq, V>(m: Map<u64, Seq<(K, V)>>) -> bool {
    forall|h: u64, i: int, j: int|
        m.contains_key(h) && 0 <= i < m[h].len() && 0 <= j < m[h].len() && i != j ==> !(
        #[trigger] m[h][i]).0.eq_spec(&(#[trigger] m[h][j]).0)
}

/// Every entry sits in the bucket of the hash that `hash_of` gives its key.
pub open spec fn keyed_by_hash<K, V>(m: Map<u64, Seq<(K, V)>>, hash_of: spec_fn(K) -> u64) -> bool {
    forall|h: u64, i: int|
        m.contains_key(h) && 0 <= i < m[h].len() ==> hash_of((#[trigger] m[h][i]).0) == h
}

/// `b` after `Vec::swap_remove(i)`: the last entry takes the place of entry
/// `i`, and the bucket is one shorter.
pub open spec fn swap_removed<T>(b: Seq<T>, i: int) -> Seq<T> {
    b.update(i, b.last()).drop_last()
}

/// A hash map keyed by precomputed hashes. `S` is the hash builder that
/// callers use to compute those hashes; the map only keeps it.
pub struct ShuttleHashMap<K, V, S> {
    buckets: HashMap<u64, Vec<(K, V)>>,
    build_hasher: S,
}

impl<K, V, S> View for ShuttleHashMap<K, V, S> {
    type V = Map<u64, Seq<(K, V)>>;

    closed spec fn view(&self) -> Map<u64, Seq<(K, V)>> {
        self.buckets@.map_values(|b: Vec<(K, V)>| b@)
    }
}

impl<K, V, S> ShuttleHashMap<K, V, S> {
    /// The hash builder the map was made with.
    pub closed spec fn spec_build_hasher(&self) -> S {
        self.build_hasher
    }

    /// An empty map. The number of segments and the capacity are hints
    /// that this map does not need.
    pub fn with_num_segments_capacity_and_hasher(
        num_segments: usize,
        capacity: usize,
        build_hasher: S,
    ) -> (m: Self)
        ensures
            m@ == Map::<u64, Seq<(K, V)>>::empty(),
            m.spec_build_hasher() == build_hasher,
    {
        let m = ShuttleHashMap { buckets: HashMap::new(), build_hasher };
        assert(m@ =~= Map::<u64, Seq<(K, V)>>::empty());
        m
    }

    /// An empty map. The number of segments is a hint that this map does
    /// not need.
    pub fn with_num_segments_and_hasher(num_segments: usize, build_hasher: S) -> (m: Self)
        ensures
            m@ == Map::<u64, Seq<(K, V)>>::empty(),
            m.spec_build_hasher() == build_hasher,
    {
        let m = ShuttleHashMap { buckets: HashMap::new(), build_hasher };
        assert(m@ =~= Map::<u64, Seq<(K, V)>>::empty());
        m
    }

    /// A map holds finitely many buckets.
    pub proof fn lemma_finite(&self)
        ensures
            self@.dom().finite(),
    {
        assert(self@.dom() =~= self.buckets@.dom());
    }

    /// The hash builder the map was made with.
    pub fn build_hasher(&self) -> (s: &S)
        ensures
            *s == self.spec_build_hasher(),
    {
        &self.build_hasher
    }

    /// The map is a single segment.
    pub fn actual_num_segments(&self) -> (n: usize)
        ensures
            n == 1,
    {
        1
    }

    /// Takes the bucket of `hash` out of the map (an empty one if there is
    /// none), leaving every other bucket in place.
    fn take_bucket(&mut self, hash: u64) -> (b: Vec<(K, V)>)
        ensures
            b@ == bucket(old(self)@, hash),
            final(self)@ == old(self)@.remove(hash),
            final(self).spec_build_hasher() == old(self).spec_build_hasher(),
    {
        let b = match self.buckets.remove(&hash) {
            Some(b) => b,
            None => Vec::new(),
        };
        assert(self@ =~= old(self)@.remove(hash));
        b
    }

    /// Puts `b` in the map as the bucket of `hash`.
    fn put_bucket(&mut self, hash: u64, b: Vec<(K, V)>)
        ensures
            final(self)@ == old(self)@.insert(hash, b@),
            final(self).spec_build_hasher() == old(self).spec_build_hasher(),
    {
        let ghost bv = b@;
        self.buckets.insert(hash, b);
        assert(self@ =~= old(self)@.insert(hash, bv));
    }

    /// The hashes that have a bucket, each once, in the map's own order.
    fn hashes(&self) -> (hs: Vec<u64>)
        ensures
            lists_buckets(self@, hs@),
            self@.dom().finite(),
    {
        let mut hs: Vec<u64> = Vec::new();
        let ghost m = self.buckets@;
        let ghost full = vstd::std_specs::hash::spec_keys_iter(&self.buckets).remaining().map_values(
            |r: &u64| *r,
        );
        for h in it: self.buckets.keys()
            invariant
                it.seq() == vstd::std_specs::hash::spec_keys_iter(&self.buckets).remaining(),
                full == it.seq().map_values(|r: &u64| *r),
                hs@ =~= full.take(it.index()),
        {
            hs.push(*h);
        }
        proof {
            let rem = vstd::std_specs::hash::spec_keys_iter(&self.buckets).remaining();
            assert(hs@ =~= rem.unref());
            assert(self@.dom() =~= m.dom());
            assert(m.dom().finite());
            assert forall|h: u64| hs@.contains(h) <==> self@.contains_key(h) by {
                assert(hs@.to_set().contains(h) <==> hs@.contains(h));
            }
            assert(hs@.no_duplicates()) by {
                assert forall|i: int, j: int|
                    0 <= i < hs@.len() && 0 <= j < hs@.len() && i != j implies hs@[i] != hs@[j] by {
                    assert(rem[i] != rem[j]);
                }
            }
        }
        hs
    }

    /// The bucket of `hash`, if the map has one.
    fn bucket_ref(&self, hash: u64) -> (b: Option<&Vec<(K, V)>>)
        ensures
            match b {
                Some(b) => self@.contains_key(hash) && b@ == self@[hash],
                None => !self@.contains_key(hash),
            },
    {
        self.buckets.get(&hash)
    }
}

impl<K, V, S> ShuttleHashMap<K, V, S> {
    /// Inserts `key` with `value` in the bucket of `hash` unless the bucket
    /// already holds a key equal to `key`; in that case nothing changes and
    /// a clone of the value found is returned.
    pub fn insert_if_not_present(&mut self, key: K, hash: u64, value: V) -> (r: Option<V>) where
        K: PartialEq,
        V: Clone,

        ensures
            final(self).spec_build_hasher() == old(self).spec_build_hasher(),
            kept_or_added(old(self)@, final(self)@, hash, key, value),
            match r {
                Some(v) => {
                    &&& final(self)@ == old(self)@
                    &&& exists|i: int|
                        key_found_at(bucket(old(self)@, hash), key, i) && cloned::<V>(
                            #[trigger] bucket(old(self)@, hash)[i].1,
                            v,
                        )
                },
                None => {
                    &&& key_not_found(bucket(old(self)@, hash), key)
                    &&& final(self)@ == old(self)@.insert(
                        hash,
                        bucket(old(self)@, hash).push((key, value)),
                    )
                },
            },
    {
        let ghost ob = bucket(old(self)@, hash);
        match self.bucket_ref(hash) {
            Some(b) => match position_of_key(b, &key) {
                Some(pos) => {
                    let v = b[pos].1.clone();
                    assert(cloned::<V>(ob[pos as int].1, v));
                    assert(key_found_at(ob, key, pos as int));
                    return Some(v);
                },
                None => {},
            },
            None => {},
        }
        assert(key_not_found(ob, key));
        let ghost gkey = key;
        let ghost gvalue = value;
        let mut b = self.take_bucket(hash);
        b.push((key, value));
        self.put_bucket(hash, b);
        assert(self@ =~= old(self)@.insert(hash, ob.push((gkey, gvalue))));
        None
    }

    /// Whether `eq` accepts the key of some entry in the bucket of `hash`;
    /// the keys are offered in order, up to the first that `eq` accepts.
    pub fn contains_key(&self, hash: u64, eq: impl Fn(&K) -> bool) -> (r: bool)
        requires
            forall|k: &K| #[trigger] eq.requires((k,)),
        ensures
            r ==> exists|i: int| accepts_first(bucket(self@, hash), eq, i),
            !r ==> refuses_all(bucket(self@, hash), eq),
    {
        match self.bucket_ref(hash) {
            Some(b) => match position_by(b, &eq) {
                Some(pos) => {
                    assert(accepts_first(bucket(self@, hash), eq, pos as int));
                    true
                },
                None => false,
            },
            None => false,
        }
    }

    /// A clone of the value of the first entry in the bucket of `hash`
    /// whose key `eq` accepts.
    pub fn get(&self, hash: u64, eq: impl Fn(&K) -> bool) -> (r: Option<V>) where V: Clone
        requires
            forall|k: &K| #[trigger] eq.requires((k,)),
        ensures
            match r {
                Some(v) => exists|i: int|
                    accepts_first(bucket(self@, hash), eq, i) && cloned::<V>(
                        #[trigger] bucket(self@, hash)[i].1,
                        v,
                    ),
                None => refuses_all(bucket(self@, hash), eq),
            },
    {
        match self.bucket_ref(hash) {
            Some(b) => match position_by(b, &eq) {
                Some(pos) => {
                    let v = b[pos].1.clone();
                    assert(cloned::<V>(bucket(self@, hash)[pos as int].1, v));
                    Some(v)
                },
                None => None,
            },
            None => None,
        }
    }

    /// `with_entry` applied to the first entry in the bucket of `hash` whose
    /// key `eq` accepts.
    pub fn get_key_value_and<T>(
        &self,
        hash: u64,
        eq: impl Fn(&K) -> bool,
        with_entry: impl FnOnce(&K, &V) -> T,
    ) -> (r: Option<T>)
        requires
            forall|k: &K| #[trigger] eq.requires((k,)),
            forall|k: &K, v: &V| #[trigger] with_entry.requires((k, v)),
        ensures
            match r {
                Some(t) => exists|i: int|
                    accepts_first(bucket(self@, hash), eq, i) && with_entry.ensures(
                        (&(#[trigger] bucket(self@, hash)[i]).0, &bucket(self@, hash)[i].1),
                        t,
                    ),
                None => refuses_all(bucket(self@, hash), eq),
            },
    {
        match self.bucket_ref(hash) {
            Some(b) => match position_by(b, &eq) {
                Some(pos) => {
                    let e = &b[pos];
                    let t = with_entry(&e.0, &e.1);
                    assert(with_entry.ensures(
                        (&bucket(self@, hash)[pos as int].0, &bucket(self@, hash)[pos as int].1),
                        t,
                    ));
                    Some(t)
                },
                None => None,
            },
            None => None,
        }
    }

    /// `with_entry` applied to the first entry in the bucket of `hash` whose
    /// key `eq` accepts, or `None` where there is no such entry.
    pub fn get_key_value_and_then<T>(
        &self,
        hash: u64,
        eq: impl Fn(&K) -> bool,
        with_entry: impl FnOnce(&K, &V) -> Option<T>,
    ) -> (r: Option<T>)
        requires
            forall|k: &K| #[trigger] eq.requires((k,)),
            forall|k: &K, v: &V| #[trigger] with_entry.requires((k, v)),
        ensures
            (exists|i: int|
                accepts_first(bucket(self@, hash), eq, i) && with_entry.ensures(
                    (&(#[trigger] bucket(self@, hash)[i]).0, &bucket(self@, hash)[i].1),
                    r,
                )) || (refuses_all(bucket(self@, hash), eq) && r is None),
    {
        match self.bucket_ref(hash) {
            Some(b) => match position_by(b, &eq) {
                Some(pos) => {
                    let e = &b[pos];
                    with_entry(&e.0, &e.1)
                },
                None => None,
            },
            None => None,
        }
    }

    /// Where the bucket of `hash` holds a key equal to `key`, replaces that
    /// entry's value by what `on_modify` makes of the entry; otherwise adds
    /// `key` with the value that `on_insert` makes.
    pub fn insert_with_or_modify(
        &mut self,
        key: K,
        hash: u64,
        on_insert: impl FnOnce() -> V,
        on_modify: impl FnOnce(&K, &V) -> V,
    ) where K: PartialEq
        requires
            on_insert.requires(()),
            forall|k: &K, v: &V| #[trigger] on_modify.requires((k, v)),
        ensures
            final(self).spec_build_hasher() == old(self).spec_build_hasher(),
            exists|nv: V| value_stored(old(self)@, final(self)@, hash, key, nv),
            (exists|i: int, nv: V|
                key_found_at(bucket(old(self)@, hash), key, i) && #[trigger] on_modify.ensures(
                    (&bucket(old(self)@, hash)[i].0, &bucket(old(self)@, hash)[i].1),
                    nv,
                ) && final(self)@ == old(self)@.insert(
                    hash,
                    bucket(old(self)@, hash).update(i, (bucket(old(self)@, hash)[i].0, nv)),
                )) || (key_not_found(bucket(old(self)@, hash), key) && exists|nv: V|
                on_insert.ensures((), nv) && #[trigger] final(self)@ == old(self)@.insert(
                    hash,
                    bucket(old(self)@, hash).push((key, nv)),
                )),
    {
        let ghost ob = bucket(old(self)@, hash);
        let mut b = self.take_bucket(hash);
        match position_of_key(&b, &key) {
            Some(pos) => {
                let nv = {
                    let e = &b[pos];
                    on_modify(&e.0, &e.1)
                };
                b[pos].1 = nv;
                self.put_bucket(hash, b);
                assert(b@ == ob.update(pos as int, (ob[pos as int].0, nv)));
                assert(self@ =~= old(self)@.insert(hash, ob.update(pos as int, (ob[pos as int].0, nv))));
                assert(key_found_at(ob, key, pos as int));
                assert(value_stored(old(self)@, self@, hash, key, nv));
            },
            None => {
                let ghost gkey = key;
                let nv = on_insert();
                b.push((key, nv));
                self.put_bucket(hash, b);
                assert(self@ =~= old(self)@.insert(hash, ob.push((gkey, nv))));
                assert(value_stored(old(self)@, self@, hash, gkey, nv));
            },
        }
    }

    /// Sets the value of the entry of `key` in the bucket of `hash` (adding
    /// the entry at the end where no key equals `key`), then applies
    /// `with_entry` to that entry.
    pub fn insert_entry_and<T>(
        &mut self,
        key: K,
        hash: u64,
        value: V,
        with_entry: impl FnOnce(&K, &V) -> T,
    ) -> (r: T) where K: PartialEq
        requires
            forall|k: &K, v: &V| #[trigger] with_entry.requires((k, v)),
        ensures
            final(self).spec_build_hasher() == old(self).spec_build_hasher(),
            value_stored(old(self)@, final(self)@, hash, key, value),
            (exists|i: int|
                key_found_at(bucket(old(self)@, hash), key, i) && with_entry.ensures(
                    (&(#[trigger] bucket(old(self)@, hash)[i]).0, &value),
                    r,
                ) && final(self)@ == old(self)@.insert(
                    hash,
                    bucket(old(self)@, hash).update(i, (bucket(old(self)@, hash)[i].0, value)),
                )) || (key_not_found(bucket(old(self)@, hash), key) && with_entry.ensures(
                (&key, &value),
                r,
            ) && final(self)@ == old(self)@.insert(hash, bucket(old(self)@, hash).push((key, value)))),
    {
        let ghost ob = bucket(old(self)@, hash);
        let ghost gkey = key;
        let ghost gvalue = value;
        let mut b = self.take_bucket(hash);
        match position_of_key(&b, &key) {
            Some(pos) => {
                b[pos].1 = value;
                let r = {
                    let e = &b[pos];
                    with_entry(&e.0, &e.1)
                };
                self.put_bucket(hash, b);
                assert(b@ == ob.update(pos as int, (ob[pos as int].0, gvalue)));
                assert(self@ =~= old(self)@.insert(hash, ob.update(pos as int, (ob[pos as int].0, gvalue))));
                assert(key_found_at(ob, gkey, pos as int));
                r
            },
            None => {
                b.push((key, value));
                let last = b.len() - 1;
                let r = {
                    let e = &b[last];
                    with_entry(&e.0, &e.1)
                };
                self.put_bucket(hash, b);
                assert(self@ =~= old(self)@.insert(hash, ob.push((gkey, gvalue))));
                r
            },
        }
    }
}

impl<K, V, S> ShuttleHashMap<K, V, S> {
    /// Removes the first entry in the bucket of `hash` whose key `eq`
    /// accepts, moving the bucket's last entry into its place, and returns
    /// its value.
    pub fn remove(&mut self, hash: u64, eq: impl Fn(&K) -> bool) -> (r: Option<V>)
        requires
            forall|k: &K| #[trigger] eq.requires((k,)),
        ensures
            final(self).spec_build_hasher() == old(self).spec_build_hasher(),
            match r {
                Some(v) => exists|i: int|
                    accepts_first(bucket(old(self)@, hash), eq, i) && v == (
                    #[trigger] bucket(old(self)@, hash)[i]).1 && final(self)@ == old(self)@.insert(
                        hash,
                        swap_removed(bucket(old(self)@, hash), i),
                    ),
                None => refuses_all(bucket(old(self)@, hash), eq) && final(self)@ == old(self)@,
            },
    {
        match self.remove_entry(hash, eq) {
            Some(e) => Some(e.1),
            None => None,
        }
    }

    /// Removes the first entry in the bucket of `hash` whose key `eq`
    /// accepts, moving the bucket's last entry into its place, and returns
    /// the entry.
    pub fn remove_entry(&mut self, hash: u64, eq: impl Fn(&K) -> bool) -> (r: Option<(K, V)>)
        requires
            forall|k: &K| #[trigger] eq.requires((k,)),
        ensures
            final(self).spec_build_hasher() == old(self).spec_build_hasher(),
            match r {
                Some(e) => exists|i: int|
                    accepts_first(bucket(old(self)@, hash), eq, i) && e == #[trigger] bucket(
                        old(self)@,
                        hash,
                    )[i] && final(self)@ == old(self)@.insert(
                        hash,
                        swap_removed(bucket(old(self)@, hash), i),
                    ),
                None => refuses_all(bucket(old(self)@, hash), eq) && final(self)@ == old(self)@,
            },
    {
        let ghost ob = bucket(old(self)@, hash);
        let pos = match self.bucket_ref(hash) {
            Some(b) => match position_by(b, &eq) {
                Some(pos) => pos,
                None => return None,
            },
            None => return None,
        };
        let mut b = self.take_bucket(hash);
        let e = b.swap_remove(pos);
        self.put_bucket(hash, b);
        assert(accepts_first(ob, eq, pos as int));
        Some(e)
    }

    /// Removes the first entry in the bucket of `hash` whose key `eq`
    /// accepts and which `condition` accepts, moving the bucket's last entry
    /// into its place, and returns its value.
    pub fn remove_if(
        &mut self,
        hash: u64,
        eq: impl Fn(&K) -> bool,
        condition: impl Fn(&K, &V) -> bool,
    ) -> (r: Option<V>)
        requires
            forall|k: &K| #[trigger] eq.requires((k,)),
            forall|k: &K, v: &V| #[trigger] condition.requires((k, v)),
        ensures
            final(self).spec_build_hasher() == old(self).spec_build_hasher(),
            match r {
                Some(v) => exists|i: int|
                    accepts_first_if(bucket(old(self)@, hash), eq, condition, i) && v == (
                    #[trigger] bucket(old(self)@, hash)[i]).1 && final(self)@ == old(self)@.insert(
                        hash,
                        swap_removed(bucket(old(self)@, hash), i),
                    ),
                None => refuses_all_if(bucket(old(self)@, hash), eq, condition) && final(self)@
                    == old(self)@,
            },
    {
        let ghost ob = bucket(old(self)@, hash);
        let pos = match self.bucket_ref(hash) {
            Some(b) => match position_by_if(b, &eq, &condition) {
                Some(pos) => pos,
                None => return None,
            },
            None => return None,
        };
        let mut b = self.take_bucket(hash);
        let e = b.swap_remove(pos);
        self.put_bucket(hash, b);
        assert(accepts_first_if(ob, eq, condition, pos as int));
        Some(e.1)
    }

    /// Finds the first entry in the bucket of `hash` whose key `eq` accepts
    /// and which `condition` accepts, applies `with_previous_entry` to it,
    /// then removes it, moving the bucket's last entry into its place.
    pub fn remove_entry_if_and<T>(
        &mut self,
        hash: u64,
        eq: impl Fn(&K) -> bool,
        condition: impl Fn(&K, &V) -> bool,
        with_previous_entry: impl FnOnce(&K, &V) -> T,
    ) -> (r: Option<T>)
        requires
            forall|k: &K| #[trigger] eq.requires((k,)),
            forall|k: &K, v: &V| #[trigger] condition.requires((k, v)),
            forall|k: &K, v: &V| #[trigger] with_previous_entry.requires((k, v)),
        ensures
            final(self).spec_build_hasher() == old(self).spec_build_hasher(),
            match r {
                Some(t) => exists|i: int|
                    accepts_first_if(bucket(old(self)@, hash), eq, condition, i)
                        && with_previous_entry.ensures(
                        (
                            &(#[trigger] bucket(old(self)@, hash)[i]).0,
                            &bucket(old(self)@, hash)[i].1,
                        ),
                        t,
                    ) && final(self)@ == old(self)@.insert(
                        hash,
                        swap_removed(bucket(old(self)@, hash), i),
                    ),
                None => refuses_all_if(bucket(old(self)@, hash), eq, condition) && final(self)@
                    == old(self)@,
            },
    {
        let ghost ob = bucket(old(self)@, hash);
        let pos = match self.bucket_ref(hash) {
            Some(b) => match position_by_if(b, &eq, &condition) {
                Some(pos) => pos,
                None => return None,
            },
            None => return None,
        };
        let mut b = self.take_bucket(hash);
        let t = {
            let e = &b[pos];
            with_previous_entry(&e.0, &e.1)
        };
        b.swap_remove(pos);
        self.put_bucket(hash, b);
        assert(accepts_first_if(ob, eq, condition, pos as int));
        Some(t)
    }
}

impl<K, V, S> ShuttleHashMap<K, V, S> {
    /// The number of entries in all buckets.
    pub fn len(&self) -> (n: usize)
        requires
            total_len(self@) <= usize::MAX,
        ensures
            n == total_len(self@),
    {
        let hs = self.hashes();
        let mut n: usize = 0;
        let mut i: usize = 0;
        while i < hs.len()
            invariant
                i <= hs@.len(),
                lists_buckets(self@, hs@),
                self@.dom().finite(),
                total_len(self@) <= usize::MAX,
                n == entries_in_order(self@, hs@.take(i as int)).len(),
            decreases hs@.len() - i,
        {
            assert(hs@.contains(hs@[i as int]));
            let b = self.bucket_ref(hs[i]).unwrap();
            proof {
                lemma_entries_in_order_step(self@, hs@, i as int);
                lemma_listed_prefix_len(self@, hs@, i + 1);
            }
            n = n + b.len();
            i = i + 1;
        }
        proof {
            assert(hs@.take(hs@.len() as int) =~= hs@);
            lemma_listed_entries_len(self@, hs@);
        }
        n
    }

    /// The number of entries in all buckets, or `None` where that number
    /// does not fit in a `usize`.
    pub fn checked_len(&self) -> (n: Option<usize>)
        ensures
            match n {
                Some(n) => n == total_len(self@),
                None => total_len(self@) > usize::MAX,
            },
    {
        let hs = self.hashes();
        let mut n: usize = 0;
        let mut i: usize = 0;
        while i < hs.len()
            invariant
                i <= hs@.len(),
                lists_buckets(self@, hs@),
                self@.dom().finite(),
                n == entries_in_order(self@, hs@.take(i as int)).len(),
            decreases hs@.len() - i,
        {
            assert(hs@.contains(hs@[i as int]));
            let b = self.bucket_ref(hs[i]).unwrap();
            proof {
                lemma_entries_in_order_step(self@, hs@, i as int);
                lemma_listed_prefix_len(self@, hs@, i + 1);
            }
            match n.checked_add(b.len()) {
                Some(m) => n = m,
                None => return None,
            }
            i = i + 1;
        }
        proof {
            assert(hs@.take(hs@.len() as int) =~= hs@);
            lemma_listed_entries_len(self@, hs@);
        }
        Some(n)
    }

    /// Whether every bucket is empty.
    pub fn is_empty(&self) -> (r: bool)
        ensures
            r == (forall|h: u64| self@.contains_key(h) ==> #[trigger] self@[h].len() == 0),
    {
        let hs = self.hashes();
        let mut i: usize = 0;
        while i < hs.len()
            invariant
                i <= hs@.len(),
                lists_buckets(self@, hs@),
                forall|j: int| 0 <= j < i ==> #[trigger] self@[hs@[j]].len() == 0,
            decreases hs@.len() - i,
        {
            assert(hs@.contains(hs@[i as int]));
            let b = self.bucket_ref(hs[i]).unwrap();
            if b.len() != 0 {
                return false;
            }
            i = i + 1;
        }
        assert forall|h: u64| self@.contains_key(h) implies #[trigger] self@[h].len() == 0 by {
            assert(hs@.contains(h));
            let j = choose|j: int| 0 <= j < hs@.len() && hs@[j] == h;
            assert(self@[hs@[j]].len() == 0);
        }
        true
    }

    /// For segment 0, the only segment, what `with_key` makes of each key,
    /// bucket after bucket in the map's own order of buckets; for any other
    /// segment, `None`.
    pub fn keys<T>(&self, segment: usize, with_key: impl Fn(&K) -> T) -> (r: Option<Vec<T>>)
        requires
            forall|k: &K| #[trigger] with_key.requires((k,)),
        ensures
            segment != 0 ==> r is None,
            segment == 0 ==> r is Some && exists|hs: Seq<u64>|
                #[trigger] lists_buckets(self@, hs) && r->0@.len() == entries_in_order(
                    self@,
                    hs,
                ).len() && forall|i: int|
                    0 <= i < r->0@.len() ==> with_key.ensures(
                        (&entries_in_order(self@, hs)[i].0,),
                        #[trigger] r->0@[i],
                    ),
    {
        if segment != 0 {
            return None;
        }
        let hs = self.hashes();
        let mut out: Vec<T> = Vec::new();
        let mut i: usize = 0;
        while i < hs.len()
            invariant
                i <= hs@.len(),
                lists_buckets(self@, hs@),
                forall|k: &K| #[trigger] with_key.requires((k,)),
                out@.len() == entries_in_order(self@, hs@.take(i as int)).len(),
                forall|x: int|
                    0 <= x < out@.len() ==> with_key.ensures(
                        (&entries_in_order(self@, hs@.take(i as int))[x].0,),
                        #[trigger] out@[x],
                    ),
            decreases hs@.len() - i,
        {
            assert(hs@.contains(hs@[i as int]));
            let b = self.bucket_ref(hs[i]).unwrap();
            let ghost done = entries_in_order(self@, hs@.take(i as int));
            let mut j: usize = 0;
            while j < b.len()
                invariant
                    j <= b@.len(),
                    forall|k: &K| #[trigger] with_key.requires((k,)),
                    out@.len() == done.len() + j,
                    forall|x: int|
                        0 <= x < out@.len() ==> with_key.ensures(
                            (&(done + b@)[x].0,),
                            #[trigger] out@[x],
                        ),
                decreases b@.len() - j,
            {
                out.push(with_key(&b[j].0));
                j = j + 1;
            }
            proof {
                lemma_entries_in_order_step(self@, hs@, i as int);
            }
            i = i + 1;
        }
        assert(hs@.take(hs@.len() as int) =~= hs@);
        Some(out)
    }

    /// A clone of every entry, bucket after bucket in the map's own order of
    /// buckets.
    pub fn iter(&self) -> (r: Vec<(K, V)>) where K: Clone, V: Clone
        ensures
            exists|hs: Seq<u64>|
                #[trigger] lists_buckets(self@, hs) && r@.len() == entries_in_order(
                    self@,
                    hs,
                ).len() && forall|i: int|
                    0 <= i < r@.len() ==> cloned::<K>(entries_in_order(self@, hs)[i].0, (#[trigger] r@[i]).0)
                        && cloned::<V>(entries_in_order(self@, hs)[i].1, r@[i].1),
    {
        let hs = self.hashes();
        let mut out: Vec<(K, V)> = Vec::new();
        let mut i: usize = 0;
        while i < hs.len()
            invariant
                i <= hs@.len(),
                lists_buckets(self@, hs@),
                out@.len() == entries_in_order(self@, hs@.take(i as int)).len(),
                forall|x: int|
                    0 <= x < out@.len() ==> cloned::<K>(
                        entries_in_order(self@, hs@.take(i as int))[x].0,
                        (#[trigger] out@[x]).0,
                    ) && cloned::<V>(entries_in_order(self@, hs@.take(i as int))[x].1, out@[x].1),
            decreases hs@.len() - i,
        {
            assert(hs@.contains(hs@[i as int]));
            let b = self.bucket_ref(hs[i]).unwrap();
            let ghost done = entries_in_order(self@, hs@.take(i as int));
            let mut j: usize = 0;
            while j < b.len()
                invariant
                    j <= b@.len(),
                    out@.len() == done.len() + j,
                    forall|x: int|
                        0 <= x < out@.len() ==> cloned::<K>((done + b@)[x].0, (#[trigger] out@[x]).0)
                            && cloned::<V>((done + b@)[x].1, out@[x].1),
                decreases b@.len() - j,
            {
                let e = &b[j];
                let k = e.0.clone();
                let v = e.1.clone();
                out.push((k, v));
                j = j + 1;
            }
            proof {
                lemma_entries_in_order_step(self@, hs@, i as int);
            }
            i = i + 1;
        }
        assert(hs@.take(hs@.len() as int) =~= hs@);
        out
    }
}

/// The index of the first entry of `b` whose key equals `key` by `K`'s `==`.
fn position_of_key<K: PartialEq, V>(b: &Vec<(K, V)>, key: &K) -> (r: Option<usize>)
    ensures
        match r {
            Some(i) => key_found_at(b@, *key, i as int),
            None => key_not_found(b@, *key),
        },
{
    let mut i: usize = 0;
    while i < b.len()
        invariant
            i <= b@.len(),
            K::obeys_eq_spec() ==> forall|j: int| 0 <= j < i ==> !(#[trigger] b@[j].0.eq_spec(key)),
        decreases b@.len() - i,
    {
        if b[i].0.eq(key) {
            return Some(i);
        }
        i = i + 1;
    }
    None
}

/// The index of the first entry of `b` whose key `eq` accepts.
fn position_by<K, V, F: Fn(&K) -> bool>(b: &Vec<(K, V)>, eq: &F) -> (r: Option<usize>)
    requires
        forall|k: &K| #[trigger] eq.requires((k,)),
    ensures
        match r {
            Some(i) => accepts_first(b@, *eq, i as int),
            None => refuses_all(b@, *eq),
        },
{
    let mut i: usize = 0;
    while i < b.len()
        invariant
            i <= b@.len(),
            forall|k: &K| #[trigger] eq.requires((k,)),
            forall|j: int| 0 <= j < i ==> #[trigger] eq.ensures((&b@[j].0,), false),
        decreases b@.len() - i,
    {
        if eq(&b[i].0) {
            return Some(i);
        }
        i = i + 1;
    }
    None
}

/// The index of the first entry of `b` whose key `eq` accepts and which
/// `condition` then accepts.
fn position_by_if<K, V, F: Fn(&K) -> bool, C: Fn(&K, &V) -> bool>(
    b: &Vec<(K, V)>,
    eq: &F,
    condition: &C,
) -> (r: Option<usize>)
    requires
        forall|k: &K| #[trigger] eq.requires((k,)),
        forall|k: &K, v: &V| #[trigger] condition.requires((k, v)),
    ensures
        match r {
            Some(i) => accepts_first_if(b@, *eq, *condition, i as int),
            None => refuses_all_if(b@, *eq, *condition),
        },
{
    let mut i: usize = 0;
    while i < b.len()
        invariant
            i <= b@.len(),
            forall|k: &K| #[trigger] eq.requires((k,)),
            forall|k: &K, v: &V| #[trigger] condition.requires((k, v)),
            forall|j: int| 0 <= j < i ==> refuses_entry(#[trigger] b@[j], *eq, *condition),
        decreases b@.len() - i,
    {
        let e = &b[i];
        if eq(&e.0) && condition(&e.0, &e.1) {
            return Some(i);
        }
        i = i + 1;
    }
    None
}


/// Counting the entries of a map can start from any of its buckets.
pub(crate) proof fn lemma_total_len_remove<K, V>(m: Map<u64, Seq<(K, V)>>, h: u64)
    requires
        m.dom().finite(),
        m.contains_key(h),
    ensures
        total_len(m) == m[h].len() + total_len(m.remove(h)),
    decreases m.dom().len(),
{
    let c = m.dom().choose();
    if c != h {
        lemma_total_len_remove(m.remove(c), h);
        lemma_total_len_remove(m.remove(h), c);
        assert(m.remove(c).remove(h) =~= m.remove(h).remove(c));
    }
}

/// The entries of the buckets listed in `hs`, together with those of the
/// buckets not listed, are all the entries of the map.
proof fn lemma_entries_in_order_len<K, V>(m: Map<u64, Seq<(K, V)>>, hs: Seq<u64>)
    requires
        m.dom().finite(),
        hs.no_duplicates(),
        forall|i: int| 0 <= i < hs.len() ==> m.contains_key(#[trigger] hs[i]),
    ensures
        entries_in_order(m, hs).len() + total_len(m.remove_keys(hs.to_set())) == total_len(m),
    decreases hs.len(),
{
    if hs.len() == 0 {
        assert(m.remove_keys(hs.to_set()) =~= m);
    } else {
        let h = hs.last();
        let rest = hs.drop_last();
        lemma_entries_in_order_len(m, rest);
        let mr = m.remove_keys(rest.to_set());
        assert(mr.dom() =~= m.dom().difference(rest.to_set()));
        assert(!rest.contains(h)) by {
            if rest.contains(h) {
                let j = choose|j: int| 0 <= j < rest.len() && rest[j] == h;
                assert(hs[j] == hs[hs.len() - 1]);
            }
        }
        assert(mr.contains_key(h));
        lemma_total_len_remove(mr, h);
        assert(mr.remove(h) =~= m.remove_keys(hs.to_set())) by {
            assert forall|x: u64| hs.to_set().contains(x) <==> (rest.to_set().contains(x) || x == h) by {
                if hs.to_set().contains(x) {
                    let j = choose|j: int| 0 <= j < hs.len() && hs[j] == x;
                    if j < hs.len() - 1 {
                        assert(rest[j] == x);
                    }
                }
                if rest.to_set().contains(x) {
                    let j = choose|j: int| 0 <= j < rest.len() && rest[j] == x;
                    assert(hs[j] == x);
                }
            }
        }
    }
}

/// Listing every bucket once lists every entry of the map.
pub(crate) proof fn lemma_listed_entries_len<K, V>(m: Map<u64, Seq<(K, V)>>, hs: Seq<u64>)
    requires
        m.dom().finite(),
        lists_buckets(m, hs),
    ensures
        entries_in_order(m, hs).len() == total_len(m),
{
    assert forall|i: int| 0 <= i < hs.len() implies m.contains_key(#[trigger] hs[i]) by {
        assert(hs.contains(hs[i]));
    }
    lemma_entries_in_order_len(m, hs);
    let rest = m.remove_keys(hs.to_set());
    assert(rest.dom() =~= m.dom().difference(hs.to_set()));
    assert(rest.dom() =~= Set::<u64>::empty()) by {
        assert forall|h: u64| !rest.dom().contains(h) by {
            if m.contains_key(h) {
                assert(hs.contains(h));
            }
        }
    }
    assert(total_len(rest) == 0);
}

/// A prefix of a listing of the buckets never counts more entries than the map holds.
proof fn lemma_listed_prefix_len<K, V>(m: Map<u64, Seq<(K, V)>>, hs: Seq<u64>, n: int)
    requires
        m.dom().finite(),
        lists_buckets(m, hs),
        0 <= n <= hs.len(),
    ensures
        entries_in_order(m, hs.take(n)).len() <= total_len(m),
{
    let p = hs.take(n);
    assert forall|i: int| 0 <= i < p.len() implies m.contains_key(#[trigger] p[i]) by {
        assert(hs.contains(hs[i]));
    }
    lemma_entries_in_order_len(m, p);
}

/// Listing one more bucket appends that bucket's entries.
proof fn lemma_entries_in_order_step<K, V>(m: Map<u64, Seq<(K, V)>>, hs: Seq<u64>, i: int)
    requires
        0 <= i < hs.len(),
    ensures
        entries_in_order(m, hs.take(i + 1)) == entries_in_order(m, hs.take(i)) + bucket(m, hs[i]),
{
    assert(hs.take(i + 1).drop_last() =~= hs.take(i));
}

} // verus!
