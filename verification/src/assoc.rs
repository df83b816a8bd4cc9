//! Association lists keyed by strings: a vector of `(key, value)` pairs with
//! distinct keys, read as a finite map from key to value.

use vstd::prelude::*;
use crate::topology::{no_dup_names, spec_find, str_eq, lemma_find_unique};

verus! {

/// Keys of an association list.
pub open spec fn keys_of<V>(v: Seq<(String, V)>) -> Seq<Seq<char>> {
    v.map_values(|p: (String, V)| p.0@)
}

/// The map that a key sequence and a parallel value sequence stand for.
pub open spec fn to_map<V>(keys: Seq<Seq<char>>, vals: Seq<V>) -> Map<Seq<char>, V> {
    Map::new(|k: Seq<char>| spec_find(keys, k) is Some, |k: Seq<char>| vals[spec_find(keys, k).unwrap() as int])
}

pub proof fn lemma_find_some(keys: Seq<Seq<char>>, k: Seq<char>)
    requires
        spec_find(keys, k) is Some,
    ensures
        spec_find(keys, k).unwrap() < keys.len(),
        keys[spec_find(keys, k).unwrap() as int] == k,
{
    let i = choose|i: int| 0 <= i < keys.len() && keys[i] == k;
    assert(0 <= i < keys.len() && keys[i] == k);
}

/// Appending a fresh key inserts it.
pub proof fn lemma_to_map_push<V>(keys: Seq<Seq<char>>, vals: Seq<V>, k: Seq<char>, v: V)
    requires
        no_dup_names(keys),
        keys.len() == vals.len(),
        spec_find(keys, k) is None,
    ensures
        no_dup_names(keys.push(k)),
        to_map(keys.push(k), vals.push(v)) == to_map(keys, vals).insert(k, v),
{
    let nk = keys.push(k);
    let nv = vals.push(v);
    assert(no_dup_names(nk));
    lemma_find_unique(nk, k, keys.len() as int);
    assert forall|x: Seq<char>| #[trigger] spec_find(nk, x) is Some <==> (spec_find(keys, x) is Some || x == k) by {
        if spec_find(keys, x) is Some {
            lemma_find_some(keys, x);
            let i = spec_find(keys, x).unwrap() as int;
            assert(nk[i] == x);
        }
        if spec_find(nk, x) is Some {
            lemma_find_some(nk, x);
            let i = spec_find(nk, x).unwrap() as int;
            if i < keys.len() {
                assert(keys[i] == x);
            }
        }
    }
    assert forall|x: Seq<char>| spec_find(keys, x) is Some implies #[trigger] spec_find(nk, x) == spec_find(keys, x) by {
        lemma_find_some(keys, x);
        let i = spec_find(keys, x).unwrap() as int;
        assert(nk[i] == x);
        lemma_find_unique(nk, x, i);
    }
    assert(to_map(nk, nv) =~= to_map(keys, vals).insert(k, v));
}

/// Replacing the value at a position updates that key.
pub proof fn lemma_to_map_update<V>(keys: Seq<Seq<char>>, vals: Seq<V>, i: int, v: V)
    requires
        no_dup_names(keys),
        keys.len() == vals.len(),
        0 <= i < keys.len(),
    ensures
        to_map(keys, vals.update(i, v)) == to_map(keys, vals).insert(keys[i], v),
{
    let nv = vals.update(i, v);
    lemma_find_unique(keys, keys[i], i);
    assert forall|x: Seq<char>| spec_find(keys, x) is Some && x != keys[i] implies
        #[trigger] nv[spec_find(keys, x).unwrap() as int] == vals[spec_find(keys, x).unwrap() as int] by {
        lemma_find_some(keys, x);
    }
    assert(to_map(keys, nv) =~= to_map(keys, vals).insert(keys[i], v));
}

/// Removing the pair at a position removes that key.
pub proof fn lemma_to_map_remove<V>(keys: Seq<Seq<char>>, vals: Seq<V>, i: int)
    requires
        no_dup_names(keys),
        keys.len() == vals.len(),
        0 <= i < keys.len(),
    ensures
        no_dup_names(keys.remove(i)),
        to_map(keys.remove(i), vals.remove(i)) == to_map(keys, vals).remove(keys[i]),
{
    let nk = keys.remove(i);
    let nv = vals.remove(i);
    assert forall|a: int, b: int| 0 <= a < nk.len() && 0 <= b < nk.len() && a != b implies nk[a] != nk[b] by {
        let a2 = if a < i { a } else { a + 1 };
        let b2 = if b < i { b } else { b + 1 };
        assert(nk[a] == keys[a2]);
        assert(nk[b] == keys[b2]);
    }
    assert forall|x: Seq<char>| #[trigger] spec_find(nk, x) is Some <==> (spec_find(keys, x) is Some && x != keys[i]) by {
        if spec_find(keys, x) is Some && x != keys[i] {
            lemma_find_some(keys, x);
            let j = spec_find(keys, x).unwrap() as int;
            let j2 = if j < i { j } else { j - 1 };
            assert(nk[j2] == x);
        }
        if spec_find(nk, x) is Some {
            lemma_find_some(nk, x);
            let j = spec_find(nk, x).unwrap() as int;
            let j2 = if j < i { j } else { j + 1 };
            assert(keys[j2] == x);
            assert(j2 != i);
        }
    }
    assert forall|x: Seq<char>| spec_find(nk, x) is Some implies
        #[trigger] nv[spec_find(nk, x).unwrap() as int] == vals[spec_find(keys, x).unwrap() as int] by {
        lemma_find_some(nk, x);
        let j = spec_find(nk, x).unwrap() as int;
        let j2 = if j < i { j } else { j + 1 };
        assert(keys[j2] == x);
        lemma_find_unique(keys, x, j2);
    }
    assert(to_map(nk, nv) =~= to_map(keys, vals).remove(keys[i]));
}

/// Position of `key` in an association list.
pub fn find_key<V>(v: &Vec<(String, V)>, key: &str) -> (r: Option<usize>)
    requires
        no_dup_names(keys_of(v@)),
    ensures
        r is None <==> spec_find(keys_of(v@), key@) is None,
        r matches Some(i) ==> i < v@.len() && spec_find(keys_of(v@), key@) == Some(i as nat) && v@[i as int].0@ == key@,
{
    let mut i: usize = 0;
    while i < v.len()
        invariant
            i <= v@.len(),
            no_dup_names(keys_of(v@)),
            forall|j: int| 0 <= j < i ==> keys_of(v@)[j] != key@,
        decreases v@.len() - i,
    {
        if str_eq(v[i].0.as_str(), key) {
            proof {
                assert(keys_of(v@)[i as int] == key@);
                lemma_find_unique(keys_of(v@), key@, i as int);
            }
            return Some(i);
        }
        i = i + 1;
    }
    None
}


/// The map built by inserting each pair in turn: a later pair wins.
pub open spec fn fold_insert<V>(kvs: Seq<(Seq<char>, V)>) -> Map<Seq<char>, V>
    decreases kvs.len(),
{
    if kvs.len() == 0 {
        Map::empty()
    } else {
        fold_insert(kvs.drop_last()).insert(kvs.last().0, kvs.last().1)
    }
}

/// With distinct keys, inserting each pair in turn builds the association list's map.
pub proof fn lemma_fold_insert_to_map<V>(kvs: Seq<(Seq<char>, V)>)
    requires
        no_dup_names(kvs.map_values(|p: (Seq<char>, V)| p.0)),
    ensures
        fold_insert(kvs) == to_map(kvs.map_values(|p: (Seq<char>, V)| p.0), kvs.map_values(|p: (Seq<char>, V)| p.1)),
    decreases kvs.len(),
{
    let ks = kvs.map_values(|p: (Seq<char>, V)| p.0);
    let vs = kvs.map_values(|p: (Seq<char>, V)| p.1);
    if kvs.len() == 0 {
        assert(to_map(ks, vs) =~= Map::empty());
    } else {
        let rest = kvs.drop_last();
        let rk = rest.map_values(|p: (Seq<char>, V)| p.0);
        let rv = rest.map_values(|p: (Seq<char>, V)| p.1);
        assert(rk =~= ks.drop_last());
        assert(no_dup_names(rk));
        lemma_fold_insert_to_map(rest);
        assert forall|i: int| 0 <= i < rk.len() implies rk[i] != kvs.last().0 by {
            assert(ks[i] == rk[i]);
            assert(ks[ks.len() - 1] == kvs.last().0);
        }
        lemma_to_map_push(rk, rv, kvs.last().0, kvs.last().1);
        assert(rk.push(kvs.last().0) =~= ks);
        assert(rv.push(kvs.last().1) =~= vs);
    }
}

} // verus!
