//! Laws of the bucketed hash map: what a read gives back of a write, which
//! operations keep keys distinct, and how each operation changes the count
//! of entries. They are stated over the abstract state that the map's
//! contracts use.

use crate::shuttle_map::{
    bucket, distinct_keys, has_key_match, is_first_key_match, key_found_at, key_not_found,
    kept_or_added, lemma_total_len_remove, lookup, swap_removed, total_len, value_stored,
    accepts_first, refuses_all, keyed_by_hash, accepts_first_if, refuses_all_if, entries_in_order,
    lists_buckets, lemma_listed_entries_len,
};
use vstd::prelude::*;
use vstd::std_specs::cmp::PartialEqSpec;

verus! {

proof fn lemma_first_match_unique<K: PartialEq, V>(b: Seq<(K, V)>, key: K, i: int, j: int)
    requires
        is_first_key_match(b, key, i),
        is_first_key_match(b, key, j),
    ensures
        i == j,
{
    if i < j {
        assert(!b[i].0.eq_spec(&key));
    } else if j < i {
        assert(!b[j].0.eq_spec(&key));
    }
}

proof fn lemma_lookup_at<K: PartialEq, V>(m: Map<u64, Seq<(K, V)>>, hash: u64, key: K, i: int)
    requires
        is_first_key_match(bucket(m, hash), key, i),
    ensures
        lookup(m, hash, key) == Some(bucket(m, hash)[i].1),
{
    let b = bucket(m, hash);
    assert(has_key_match(b, key)) by {
        assert(b[i].0.eq_spec(&key));
    }
    let c = choose|c: int| is_first_key_match(b, key, c);
    lemma_first_match_unique(b, key, i, c);
}

proof fn lemma_lookup_after_push<K: PartialEq, V>(
    old: Map<u64, Seq<(K, V)>>,
    hash: u64,
    key: K,
    value: V,
)
    requires
        key.eq_spec(&key),
        !has_key_match(bucket(old, hash), key),
    ensures
        lookup(old.insert(hash, bucket(old, hash).push((key, value))), hash, key) == Some(value),
{
    let b = bucket(old, hash);
    let nb = b.push((key, value));
    let new = old.insert(hash, nb);
    assert(bucket(new, hash) == nb);
    assert forall|j: int| 0 <= j < b.len() implies !(#[trigger] nb[j].0.eq_spec(&key)) by {
        assert(nb[j] == b[j]);
        if b[j].0.eq_spec(&key) {
            assert(has_key_match(b, key));
        }
    }
    assert(is_first_key_match(nb, key, b.len() as int));
    lemma_lookup_at(new, hash, key, b.len() as int);
}

/// Read your write: once a value is stored for a key, a search by `==` for
/// that key finds that value, and every other bucket is as it was.
pub proof fn law_stored_value_is_found<K: PartialEq, V>(
    old: Map<u64, Seq<(K, V)>>,
    new: Map<u64, Seq<(K, V)>>,
    hash: u64,
    key: K,
    value: V,
)
    requires
        K::obeys_eq_spec(),
        key.eq_spec(&key),
        value_stored(old, new, hash, key, value),
    ensures
        lookup(new, hash, key) == Some(value),
        forall|h: u64| h != hash ==> bucket(new, h) == bucket(old, h),
{
    let b = bucket(old, hash);
    if exists|i: int|
        key_found_at(b, key, i) && new == old.insert(hash, b.update(i, (#[trigger] b[i].0, value))) {
        let i = choose|i: int|
            key_found_at(b, key, i) && new == old.insert(hash, b.update(i, (#[trigger] b[i].0, value)));
        let nb = b.update(i, (b[i].0, value));
        assert(bucket(new, hash) == nb);
        assert forall|j: int| 0 <= j < i implies !(#[trigger] nb[j].0.eq_spec(&key)) by {
            assert(nb[j] == b[j]);
        }
        assert(is_first_key_match(nb, key, i));
        lemma_lookup_at(new, hash, key, i);
    } else {
        lemma_lookup_after_push(old, hash, key, value);
    }
}

/// Adding only where absent never replaces: after `insert_if_not_present`,
/// a search by `==` for the key finds the value that was there before, or
/// the new value where there was none.
pub proof fn law_kept_or_added_is_found<K: PartialEq, V>(
    old: Map<u64, Seq<(K, V)>>,
    new: Map<u64, Seq<(K, V)>>,
    hash: u64,
    key: K,
    value: V,
)
    requires
        K::obeys_eq_spec(),
        key.eq_spec(&key),
        kept_or_added(old, new, hash, key, value),
    ensures
        lookup(new, hash, key) == (if has_key_match(bucket(old, hash), key) {
            lookup(old, hash, key)
        } else {
            Some(value)
        }),
        forall|h: u64| h != hash ==> bucket(new, h) == bucket(old, h),
{
    let b = bucket(old, hash);
    if (exists|i: int| key_found_at(b, key, i)) && new == old {
        let i = choose|i: int| key_found_at(b, key, i);
        assert(b[i].0.eq_spec(&key));
    } else {
        lemma_lookup_after_push(old, hash, key, value);
    }
}

/// Adding the same key twice: the second `insert_if_not_present` finds the
/// key, so it returns the value already stored, the one a search by `==`
/// finds, and leaves the map as the first call left it.
pub proof fn law_add_twice_keeps_map<K: PartialEq, V>(
    old: Map<u64, Seq<(K, V)>>,
    mid: Map<u64, Seq<(K, V)>>,
    new: Map<u64, Seq<(K, V)>>,
    hash: u64,
    key: K,
    v: V,
    w: V,
)
    requires
        K::obeys_eq_spec(),
        key.eq_spec(&key),
        kept_or_added(old, mid, hash, key, v),
        kept_or_added(mid, new, hash, key, w),
    ensures
        has_key_match(bucket(mid, hash), key),
        new == mid,
        lookup(mid, hash, key) is Some,
        forall|i: int|
            key_found_at(bucket(mid, hash), key, i) ==> lookup(mid, hash, key) == Some(
                #[trigger] bucket(mid, hash)[i].1,
            ),
{
    let b = bucket(old, hash);
    let mb = bucket(mid, hash);
    if (exists|i: int| key_found_at(b, key, i)) && mid == old {
        let i = choose|i: int| key_found_at(b, key, i);
        assert(mb[i].0.eq_spec(&key));
    } else {
        assert(mb == b.push((key, v)));
        assert(mb[b.len() as int].0.eq_spec(&key));
    }
    assert(has_key_match(mb, key));
    assert forall|i: int| key_found_at(mb, key, i) implies lookup(mid, hash, key) == Some(
        #[trigger] mb[i].1,
    ) by {
        lemma_lookup_at(mid, hash, key, i);
    }
}

/// A closure that decides `==` against `key` finds what a search by `==`
/// finds: the entry it may accept first is the first entry whose key equals
/// `key`, and where it may refuse every entry no key equals `key`.
pub proof fn law_equality_closure_finds_first_match<K: PartialEq, V, F: Fn(&K) -> bool>(
    b: Seq<(K, V)>,
    eq: F,
    key: K,
)
    requires
        forall|k: &K, r: bool| #[trigger] eq.ensures((k,), r) ==> r == k.eq_spec(&key),
    ensures
        forall|i: int| #[trigger] accepts_first(b, eq, i) ==> is_first_key_match(b, key, i),
        refuses_all(b, eq) ==> !has_key_match(b, key),
{
    assert forall|i: int| #[trigger] accepts_first(b, eq, i) implies is_first_key_match(b, key, i) by {
        assert(eq.ensures((&b[i].0,), true));
        assert forall|j: int| 0 <= j < i implies !(#[trigger] b[j].0.eq_spec(&key)) by {
            assert(eq.ensures((&b[j].0,), false));
        }
    }
    if refuses_all(b, eq) && has_key_match(b, key) {
        let j = choose|j: int| 0 <= j < b.len() && #[trigger] b[j].0.eq_spec(&key);
        assert(eq.ensures((&b[j].0,), false));
    }
}

/// Storing a value keeps the keys of each bucket distinct: the entry whose
/// value changes keeps its key, and an added entry's key equals no key
/// already there, where `K`'s `==` follows its specification and is an
/// equivalence.
pub proof fn law_store_keeps_keys_distinct<K: PartialEq, V>(
    old: Map<u64, Seq<(K, V)>>,
    new: Map<u64, Seq<(K, V)>>,
    hash: u64,
    key: K,
    value: V,
)
    requires
        vstd::laws_eq::obeys_eq::<K>(),
        distinct_keys(old),
        value_stored(old, new, hash, key, value),
    ensures
        distinct_keys(new),
{
    let b = bucket(old, hash);
    if exists|i: int|
        key_found_at(b, key, i) && new == old.insert(hash, b.update(i, (#[trigger] b[i].0, value))) {
        let i = choose|i: int|
            key_found_at(b, key, i) && new == old.insert(hash, b.update(i, (#[trigger] b[i].0, value)));
        let nb = b.update(i, (b[i].0, value));
        assert forall|x: int, y: int| 0 <= x < nb.len() && 0 <= y < nb.len() && x != y implies !(
        #[trigger] nb[x]).0.eq_spec(&(#[trigger] nb[y]).0) by {
            assert(nb[x].0 == b[x].0);
            assert(nb[y].0 == b[y].0);
            assert(old.contains_key(hash));
            assert(old[hash][x] == b[x]);
            assert(old[hash][y] == b[y]);
        }
    } else {
        lemma_push_keeps_keys_distinct(old, hash, key, value);
    }
}

proof fn lemma_push_keeps_keys_distinct<K: PartialEq, V>(
    old: Map<u64, Seq<(K, V)>>,
    hash: u64,
    key: K,
    value: V,
)
    requires
        vstd::laws_eq::obeys_eq::<K>(),
        distinct_keys(old),
        key_not_found(bucket(old, hash), key),
    ensures
        distinct_keys(old.insert(hash, bucket(old, hash).push((key, value)))),
{
    reveal(vstd::laws_eq::obeys_eq_spec_properties);
    let b = bucket(old, hash);
    let nb = b.push((key, value));
    assert forall|x: int, y: int| 0 <= x < nb.len() && 0 <= y < nb.len() && x != y implies !(
    #[trigger] nb[x]).0.eq_spec(&(#[trigger] nb[y]).0) by {
        if x < b.len() && y < b.len() {
            assert(old.contains_key(hash));
            assert(old[hash][x] == b[x]);
            assert(old[hash][y] == b[y]);
        } else if x < b.len() {
            assert(nb[y].0 == key);
            if b[x].0.eq_spec(&key) {
                assert(has_key_match(b, key));
            }
        } else if y < b.len() {
            assert(nb[x].0 == key);
            if key.eq_spec(&b[y].0) {
                assert(b[y].0.eq_spec(&key));
                assert(has_key_match(b, key));
            }
        }
    }
}

/// Adding only where absent keeps the keys of each bucket distinct, where
/// `K`'s `==` follows its specification and is an equivalence.
pub proof fn law_add_keeps_keys_distinct<K: PartialEq, V>(
    old: Map<u64, Seq<(K, V)>>,
    new: Map<u64, Seq<(K, V)>>,
    hash: u64,
    key: K,
    value: V,
)
    requires
        vstd::laws_eq::obeys_eq::<K>(),
        distinct_keys(old),
        kept_or_added(old, new, hash, key, value),
    ensures
        distinct_keys(new),
{
    let b = bucket(old, hash);
    if !((exists|i: int| key_found_at(b, key, i)) && new == old) {
        lemma_push_keeps_keys_distinct(old, hash, key, value);
    }
}

/// Removing an entry keeps the keys of each bucket distinct, whatever `K`'s
/// `==` is.
pub proof fn law_remove_keeps_keys_distinct<K: PartialEq, V>(
    old: Map<u64, Seq<(K, V)>>,
    hash: u64,
    i: int,
)
    requires
        distinct_keys(old),
        0 <= i < bucket(old, hash).len(),
    ensures
        distinct_keys(old.insert(hash, swap_removed(bucket(old, hash), i))),
{
    let b = bucket(old, hash);
    let nb = swap_removed(b, i);
    let last = b.len() - 1;
    assert(old.contains_key(hash));
    assert forall|x: int, y: int| 0 <= x < nb.len() && 0 <= y < nb.len() && x != y implies !(
    #[trigger] nb[x]).0.eq_spec(&(#[trigger] nb[y]).0) by {
        let ox = if x == i { last } else { x };
        let oy = if y == i { last } else { y };
        assert(nb[x] == b[ox]);
        assert(nb[y] == b[oy]);
        assert(old[hash][ox] == b[ox]);
        assert(old[hash][oy] == b[oy]);
    }
}

/// Removing the entry of a key leaves no entry whose key equals it, where
/// the keys of each bucket are distinct and `K`'s `==` follows its
/// specification and is an equivalence.
pub proof fn law_removed_key_is_gone<K: PartialEq, V>(
    old: Map<u64, Seq<(K, V)>>,
    hash: u64,
    key: K,
    i: int,
)
    requires
        vstd::laws_eq::obeys_eq::<K>(),
        distinct_keys(old),
        0 <= i < bucket(old, hash).len(),
        bucket(old, hash)[i].0.eq_spec(&key),
    ensures
        lookup(old.insert(hash, swap_removed(bucket(old, hash), i)), hash, key) is None,
{
    reveal(vstd::laws_eq::obeys_eq_spec_properties);
    let b = bucket(old, hash);
    let nb = swap_removed(b, i);
    let new = old.insert(hash, nb);
    let last = b.len() - 1;
    assert(old.contains_key(hash));
    assert(bucket(new, hash) == nb);
    if has_key_match(nb, key) {
        let x = choose|x: int| 0 <= x < nb.len() && #[trigger] nb[x].0.eq_spec(&key);
        let ox = if x == i { last } else { x };
        assert(nb[x] == b[ox]);
        assert(old[hash][ox] == b[ox]);
        assert(old[hash][i] == b[i]);
        assert(key.eq_spec(&b[i].0));
        assert(b[ox].0.eq_spec(&b[i].0));
    }
}

/// Storing a value under the hash of its key keeps every entry in the bucket
/// of its key's hash.
pub proof fn law_store_keeps_keyed_by_hash<K: PartialEq, V>(
    old: Map<u64, Seq<(K, V)>>,
    new: Map<u64, Seq<(K, V)>>,
    hash: u64,
    key: K,
    value: V,
    hash_of: spec_fn(K) -> u64,
)
    requires
        keyed_by_hash(old, hash_of),
        hash_of(key) == hash,
        value_stored(old, new, hash, key, value) || kept_or_added(old, new, hash, key, value),
    ensures
        keyed_by_hash(new, hash_of),
{
    let b = bucket(old, hash);
    assert forall|h: u64, x: int| new.contains_key(h) && 0 <= x < new[h].len() implies hash_of(
        (#[trigger] new[h][x]).0,
    ) == h by {
        if h != hash {
            assert(new[h] == old[h]);
        } else if new != old {
            if x < b.len() {
                assert(new[h][x].0 == b[x].0);
                assert(old[h][x] == b[x]);
            }
        }
    }
}

/// Removing an entry keeps every entry in the bucket of its key's hash.
pub proof fn law_remove_keeps_keyed_by_hash<K, V>(
    old: Map<u64, Seq<(K, V)>>,
    hash: u64,
    i: int,
    hash_of: spec_fn(K) -> u64,
)
    requires
        keyed_by_hash(old, hash_of),
        0 <= i < bucket(old, hash).len(),
    ensures
        keyed_by_hash(old.insert(hash, swap_removed(bucket(old, hash), i)), hash_of),
{
    let b = bucket(old, hash);
    let new = old.insert(hash, swap_removed(b, i));
    let last = b.len() - 1;
    assert(old.contains_key(hash));
    assert forall|h: u64, x: int| new.contains_key(h) && 0 <= x < new[h].len() implies hash_of(
        (#[trigger] new[h][x]).0,
    ) == h by {
        if h == hash {
            let ox = if x == i { last } else { x };
            assert(new[h][x] == b[ox]);
            assert(old[h][ox] == b[ox]);
        }
    }
}

/// Where every entry sits under the hash of its key, and keys equal by `==`
/// have equal hashes, keys distinct within each bucket are distinct across
/// the whole map.
pub proof fn law_distinct_across_buckets<K: PartialEq, V>(
    m: Map<u64, Seq<(K, V)>>,
    hash_of: spec_fn(K) -> u64,
    h1: u64,
    i: int,
    h2: u64,
    j: int,
)
    requires
        distinct_keys(m),
        keyed_by_hash(m, hash_of),
        forall|a: K, b: K| #[trigger] a.eq_spec(&b) ==> hash_of(a) == hash_of(b),
        m.contains_key(h1),
        0 <= i < m[h1].len(),
        m.contains_key(h2),
        0 <= j < m[h2].len(),
        h1 != h2 || i != j,
    ensures
        !m[h1][i].0.eq_spec(&m[h2][j].0),
{
    if m[h1][i].0.eq_spec(&m[h2][j].0) {
        assert(hash_of(m[h1][i].0) == h1);
        assert(hash_of(m[h2][j].0) == h2);
    }
}

/// Replacing one bucket changes the number of entries by the difference in
/// that bucket's length.
pub proof fn law_total_len_after_bucket_change<K, V>(
    m: Map<u64, Seq<(K, V)>>,
    hash: u64,
    nb: Seq<(K, V)>,
)
    requires
        m.dom().finite(),
    ensures
        total_len(m.insert(hash, nb)) + bucket(m, hash).len() == total_len(m) + nb.len(),
{
    let n = m.insert(hash, nb);
    lemma_total_len_remove(n, hash);
    assert(n.remove(hash) =~= m.remove(hash));
    if m.contains_key(hash) {
        lemma_total_len_remove(m, hash);
    } else {
        assert(m.remove(hash) =~= m);
    }
}

/// Storing a value adds one entry where the key was absent and none where it
/// was present.
pub proof fn law_store_len<K: PartialEq, V>(
    old: Map<u64, Seq<(K, V)>>,
    new: Map<u64, Seq<(K, V)>>,
    hash: u64,
    key: K,
    value: V,
)
    requires
        K::obeys_eq_spec(),
        old.dom().finite(),
        value_stored(old, new, hash, key, value),
    ensures
        total_len(new) == total_len(old) + (if has_key_match(bucket(old, hash), key) {
            0int
        } else {
            1int
        }),
{
    let b = bucket(old, hash);
    if exists|i: int|
        key_found_at(b, key, i) && new == old.insert(hash, b.update(i, (#[trigger] b[i].0, value))) {
        let i = choose|i: int|
            key_found_at(b, key, i) && new == old.insert(hash, b.update(i, (#[trigger] b[i].0, value)));
        assert(b[i].0.eq_spec(&key));
        law_total_len_after_bucket_change(old, hash, b.update(i, (b[i].0, value)));
    } else {
        law_total_len_after_bucket_change(old, hash, b.push((key, value)));
    }
}

/// Removing an entry takes one entry away.
pub proof fn law_remove_len<K, V>(old: Map<u64, Seq<(K, V)>>, hash: u64, i: int)
    requires
        old.dom().finite(),
        0 <= i < bucket(old, hash).len(),
    ensures
        total_len(old.insert(hash, swap_removed(bucket(old, hash), i))) + 1 == total_len(old),
{
    law_total_len_after_bucket_change(old, hash, swap_removed(bucket(old, hash), i));
}

/// A map is empty, every bucket holding no entry, exactly when it counts no
/// entry.
pub proof fn law_empty_iff_no_entries<K, V>(m: Map<u64, Seq<(K, V)>>)
    requires
        m.dom().finite(),
    ensures
        (forall|h: u64| m.contains_key(h) ==> #[trigger] m[h].len() == 0) <==> total_len(m) == 0,
    decreases m.dom().len(),
{
    if m.dom().len() > 0 {
        let c = m.dom().choose();
        law_empty_iff_no_entries(m.remove(c));
        if forall|h: u64| m.contains_key(h) ==> #[trigger] m[h].len() == 0 {
            assert(m[c].len() == 0);
            assert forall|h: u64| m.remove(c).contains_key(h) implies #[trigger] m.remove(c)[h].len()
                == 0 by {
                assert(m[h].len() == 0);
            }
        }
        if total_len(m) == 0 {
            assert forall|h: u64| m.contains_key(h) implies #[trigger] m[h].len() == 0 by {
                lemma_total_len_remove(m, h);
            }
        }
    } else {
        assert forall|h: u64| m.contains_key(h) implies #[trigger] m[h].len() == 0 by {
            assert(m.dom().contains(h));
        }
    }
}

/// Removing entry `i` of a bucket the way `Vec::swap_remove` does: the
/// bucket is one shorter, the last entry takes the place of entry `i`, and
/// every other entry keeps its place.
pub proof fn law_swap_removed_positions<T>(b: Seq<T>, i: int)
    requires
        0 <= i < b.len(),
    ensures
        swap_removed(b, i).len() == b.len() - 1,
        i < b.len() - 1 ==> swap_removed(b, i)[i] == b[b.len() - 1],
        forall|j: int| 0 <= j < b.len() - 1 && j != i ==> #[trigger] swap_removed(b, i)[j] == b[j],
{
}

/// The bucket of a hash is what the map holds under it, and nothing where
/// it holds nothing.
pub proof fn law_bucket_of_hash<K, V>(m: Map<u64, Seq<(K, V)>>, hash: u64)
    ensures
        m.contains_key(hash) ==> bucket(m, hash) == m[hash],
        !m.contains_key(hash) ==> bucket(m, hash).len() == 0,
{
}

/// Closures that decide `==` against `key` and a condition `p` on entries
/// find, in `remove_if` and `remove_entry_if_and`, the first entry whose key
/// equals `key` and for which `p` holds; where they may refuse every entry,
/// there is no such entry.
pub proof fn law_condition_closures_find_first_match<
    K: PartialEq,
    V,
    F: Fn(&K) -> bool,
    C: Fn(&K, &V) -> bool,
>(b: Seq<(K, V)>, eq: F, condition: C, key: K, p: spec_fn(K, V) -> bool)
    requires
        forall|k: &K, r: bool| #[trigger] eq.ensures((k,), r) ==> r == k.eq_spec(&key),
        forall|k: &K, v: &V, r: bool| #[trigger] condition.ensures((k, v), r) ==> r == p(*k, *v),
    ensures
        forall|i: int| #[trigger]
            accepts_first_if(b, eq, condition, i) ==> {
                &&& b[i].0.eq_spec(&key)
                &&& p(b[i].0, b[i].1)
                &&& forall|j: int|
                    0 <= j < i ==> !(#[trigger] b[j].0.eq_spec(&key) && p(b[j].0, b[j].1))
            },
        refuses_all_if(b, eq, condition) ==> forall|j: int|
            0 <= j < b.len() ==> !(#[trigger] b[j].0.eq_spec(&key) && p(b[j].0, b[j].1)),
{
    assert forall|i: int| #[trigger] accepts_first_if(b, eq, condition, i) implies {
        &&& b[i].0.eq_spec(&key)
        &&& p(b[i].0, b[i].1)
        &&& forall|j: int| 0 <= j < i ==> !(#[trigger] b[j].0.eq_spec(&key) && p(b[j].0, b[j].1))
    } by {
        assert(eq.ensures((&b[i].0,), true));
        assert(condition.ensures((&b[i].0, &b[i].1), true));
        assert forall|j: int| 0 <= j < i implies !(#[trigger] b[j].0.eq_spec(&key) && p(
            b[j].0,
            b[j].1,
        )) by {
            let e = b[j];
            assert(crate::shuttle_map::refuses_entry(e, eq, condition));
            if eq.ensures((&e.0,), true) {
                assert(condition.ensures((&e.0, &e.1), false));
            }
        }
    }
    if refuses_all_if(b, eq, condition) {
        assert forall|j: int| 0 <= j < b.len() implies !(#[trigger] b[j].0.eq_spec(&key) && p(
            b[j].0,
            b[j].1,
        )) by {
            let e = b[j];
            assert(crate::shuttle_map::refuses_entry(e, eq, condition));
            if eq.ensures((&e.0,), true) {
                assert(condition.ensures((&e.0, &e.1), false));
            }
        }
    }
}

/// A listing of the buckets, as `keys` and `iter` walk them, holds exactly
/// as many entries as the map, and every entry of every listed bucket.
pub proof fn law_listing_holds_every_entry<K, V>(m: Map<u64, Seq<(K, V)>>, hs: Seq<u64>)
    requires
        m.dom().finite(),
        lists_buckets(m, hs),
    ensures
        entries_in_order(m, hs).len() == total_len(m),
        forall|h: u64, i: int|
            m.contains_key(h) && 0 <= i < m[h].len() ==> entries_in_order(m, hs).contains(
                #[trigger] m[h][i],
            ),
{
    lemma_listed_entries_len(m, hs);
    assert forall|h: u64, i: int| m.contains_key(h) && 0 <= i < m[h].len() implies entries_in_order(
        m,
        hs,
    ).contains(#[trigger] m[h][i]) by {
        assert(hs.contains(h));
        let k = choose|k: int| 0 <= k < hs.len() && hs[k] == h;
        lemma_listed_bucket_inside(m, hs, k, i);
    }
}

proof fn lemma_listed_bucket_inside<K, V>(m: Map<u64, Seq<(K, V)>>, hs: Seq<u64>, k: int, i: int)
    requires
        0 <= k < hs.len(),
        0 <= i < bucket(m, hs[k]).len(),
    ensures
        entries_in_order(m, hs).contains(bucket(m, hs[k])[i]),
    decreases hs.len(),
{
    let rest = hs.drop_last();
    let pre = entries_in_order(m, rest);
    let e = bucket(m, hs[k])[i];
    if k == hs.len() - 1 {
        assert(entries_in_order(m, hs)[pre.len() + i] == e);
    } else {
        assert(rest[k] == hs[k]);
        lemma_listed_bucket_inside(m, rest, k, i);
        let x = choose|x: int| 0 <= x < pre.len() && pre[x] == e;
        assert(entries_in_order(m, hs)[x] == e);
    }
}

/// Listing a single bucket gives that bucket's entries in the bucket's own
/// order.
pub proof fn law_entries_of_one_bucket<K, V>(m: Map<u64, Seq<(K, V)>>, h: u64)
    ensures
        entries_in_order(m, seq![h]) == bucket(m, h),
{
    let hs = seq![h];
    assert(hs.drop_last() =~= Seq::<u64>::empty());
    assert(hs.last() == h);
    assert(entries_in_order(m, Seq::<u64>::empty()) == Seq::<(K, V)>::empty());
    assert(entries_in_order(m, hs) == entries_in_order(m, hs.drop_last()) + bucket(m, h));
    assert(Seq::<(K, V)>::empty() + bucket(m, h) =~= bucket(m, h));
}

} // verus!
