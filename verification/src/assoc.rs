use vstd::prelude::*;

verus! {

/// Reads a pair of equally long sequences — string keys and values — as a
/// finite map. With duplicate-free keys, entry `i` maps `keys[i]` to `vals[i]`.
pub open spec fn assoc_map<V>(keys: Seq<Seq<char>>, vals: Seq<V>) -> Map<Seq<char>, V> {
    Map::new(|k: Seq<char>| keys.contains(k), |k: Seq<char>| vals[keys.index_of(k)])
}

/// Entry `i` of the sequences is the map entry for `keys[i]`.
pub proof fn lemma_assoc_index<V>(keys: Seq<Seq<char>>, vals: Seq<V>, i: int)
    requires
        keys.no_duplicates(),
        keys.len() == vals.len(),
        0 <= i < keys.len(),
    ensures
        assoc_map(keys, vals).contains_key(keys[i]),
        assoc_map(keys, vals)[keys[i]] == vals[i],
{
    assert(keys.contains(keys[i]));
    let j = keys.index_of(keys[i]);
    assert(0 <= j < keys.len() && keys[j] == keys[i]);
    assert(j == i);
}

/// A key is in the map exactly when it occurs among `keys`.
pub proof fn lemma_assoc_dom<V>(keys: Seq<Seq<char>>, vals: Seq<V>, k: Seq<char>)
    ensures
        assoc_map(keys, vals).contains_key(k) <==> keys.contains(k),
{
}

/// Appending a fresh key-value pair inserts that pair into the map.
pub proof fn lemma_assoc_push<V>(keys: Seq<Seq<char>>, vals: Seq<V>, k: Seq<char>, v: V)
    requires
        keys.no_duplicates(),
        keys.len() == vals.len(),
        !keys.contains(k),
    ensures
        keys.push(k).no_duplicates(),
        assoc_map(keys.push(k), vals.push(v)) =~= assoc_map(keys, vals).insert(k, v),
{
    let ks = keys.push(k);
    let vs = vals.push(v);
    assert forall|i: int, j: int|
        0 <= i < ks.len() && 0 <= j < ks.len() && i != j implies ks[i] != ks[j] by {
        if i < keys.len() && j < keys.len() {
            assert(ks[i] == keys[i] && ks[j] == keys[j]);
        } else if i < keys.len() {
            assert(ks[j] == k);
            assert(keys.contains(keys[i]));
        } else {
            assert(ks[i] == k);
            assert(keys.contains(keys[j]));
        }
    }
    let a = assoc_map(ks, vs);
    let b = assoc_map(keys, vals).insert(k, v);
    assert forall|x: Seq<char>| #[trigger] a.contains_key(x) implies b.contains_key(x) by {
        let i = choose|i: int| 0 <= i < ks.len() && ks[i] == x;
        if i < keys.len() {
            assert(keys.contains(x));
        }
    }
    assert forall|x: Seq<char>| #[trigger] b.contains_key(x) implies a.contains_key(x) by {
        if x == k {
            assert(ks[keys.len() as int] == k);
        } else {
            let i = choose|i: int| 0 <= i < keys.len() && keys[i] == x;
            assert(ks[i] == x);
        }
    }
    assert forall|x: Seq<char>| a.contains_key(x) implies #[trigger] a[x] == b[x] by {
        let j = ks.index_of(x);
        assert(0 <= j < ks.len() && ks[j] == x);
        if x == k {
            assert(j == keys.len()) by {
                if j < keys.len() {
                    assert(keys.contains(k));
                }
            }
            assert(a[x] == v);
        } else {
            assert(j < keys.len());
            assert(keys[j] == x);
            assert(keys.contains(x));
            let j2 = keys.index_of(x);
            assert(0 <= j2 < keys.len() && keys[j2] == x);
            assert(j2 == j);
            assert(a[x] == vals[j] && b[x] == vals[j2]);
        }
    }
}

/// Replacing the value at position `i` updates the map entry for `keys[i]`.
pub proof fn lemma_assoc_update<V>(keys: Seq<Seq<char>>, vals: Seq<V>, i: int, v: V)
    requires
        keys.no_duplicates(),
        keys.len() == vals.len(),
        0 <= i < keys.len(),
    ensures
        assoc_map(keys, vals.update(i, v)) =~= assoc_map(keys, vals).insert(keys[i], v),
{
    let a = assoc_map(keys, vals.update(i, v));
    let b = assoc_map(keys, vals).insert(keys[i], v);
    assert(keys.contains(keys[i]));
    assert forall|x: Seq<char>| a.contains_key(x) implies #[trigger] a[x] == b[x] by {
        let j = keys.index_of(x);
        assert(0 <= j < keys.len() && keys[j] == x);
        if x == keys[i] {
            assert(j == i);
        } else {
            assert(j != i);
        }
    }
}

/// With duplicate-free keys the map has exactly one entry per key.
pub proof fn lemma_assoc_len<V>(keys: Seq<Seq<char>>, vals: Seq<V>)
    requires
        keys.no_duplicates(),
    ensures
        assoc_map(keys, vals).dom().finite(),
        assoc_map(keys, vals).dom().len() == keys.len(),
{
    broadcast use vstd::seq_lib::seq_to_set_is_finite;

    assert(assoc_map(keys, vals).dom() =~= keys.to_set());
    keys.unique_seq_to_set();
}

} // verus!
