//! Sequences of distinct keys and their values, viewed as maps.

use vstd::prelude::*;

verus! {

/// The map which pairs each of `keys` with the value at its index.
pub open spec fn keyed<K, V>(keys: Seq<K>, values: Seq<V>) -> Map<K, V> {
    Map::new(
        |k: K| keys.contains(k),
        |k: K| values[choose|i: int| 0 <= i < keys.len() && #[trigger] keys[i] == k],
    )
}

/// A distinct key is paired with the value at its own index.
pub proof fn lemma_keyed_index<K, V>(keys: Seq<K>, values: Seq<V>, i: int)
    requires
        keys.no_duplicates(),
        0 <= i < keys.len(),
    ensures
        keyed(keys, values).contains_key(keys[i]),
        keyed(keys, values)[keys[i]] == values[i],
{
    let j = choose|j: int| 0 <= j < keys.len() && #[trigger] keys[j] == keys[i];
    assert(keys[j] == keys[i]);
}

/// Updating the value at an index re-pairs the key at that index, and no other.
pub proof fn lemma_keyed_update<K, V>(keys: Seq<K>, values: Seq<V>, i: int, v: V)
    requires
        keys.no_duplicates(),
        keys.len() == values.len(),
        0 <= i < keys.len(),
    ensures
        keyed(keys, values.update(i, v)) == keyed(keys, values).insert(keys[i], v),
{
    let after = keyed(keys, values.update(i, v));
    let expect = keyed(keys, values).insert(keys[i], v);
    assert forall|k: K| after.contains_key(k) implies after[k] == expect[k] by {
        let j = choose|j: int| 0 <= j < keys.len() && #[trigger] keys[j] == k;
        lemma_keyed_index(keys, values, j);
        lemma_keyed_index(keys, values.update(i, v), j);
    }
    assert forall|k: K| after.contains_key(k) == expect.contains_key(k) by {
        assert(keys.contains(keys[i]));
    }
    assert(after =~= expect);
}

/// Inserting a new key and its value, at any index, adds just that pair.
pub proof fn lemma_keyed_insert<K, V>(keys: Seq<K>, values: Seq<V>, i: int, k: K, v: V)
    requires
        keys.no_duplicates(),
        keys.len() == values.len(),
        0 <= i <= keys.len(),
        !keys.contains(k),
    ensures
        keys.insert(i, k).no_duplicates(),
        keyed(keys.insert(i, k), values.insert(i, v)) == keyed(keys, values).insert(k, v),
{
    let keys2 = keys.insert(i, k);
    let values2 = values.insert(i, v);
    assert forall|a: int, b: int| 0 <= a < b < keys2.len() implies keys2[a] != keys2[b] by {
        let ga = if a < i {
            a
        } else {
            a - 1
        };
        let gb = if b < i {
            b
        } else {
            b - 1
        };
        if a == i {
            assert(keys.contains(keys[gb]));
        } else if b == i {
            assert(keys.contains(keys[ga]));
        } else {
            assert(keys2[a] == keys[ga] && keys2[b] == keys[gb]);
        }
    }
    let after = keyed(keys2, values2);
    let expect = keyed(keys, values).insert(k, v);
    assert forall|q: K| after.contains_key(q) == expect.contains_key(q) by {
        if keys2.contains(q) {
            let j = choose|j: int| 0 <= j < keys2.len() && #[trigger] keys2[j] == q;
            if j < i {
                assert(keys[j] == q);
            } else if j > i {
                assert(keys[j - 1] == q);
            }
        }
        if keys.contains(q) {
            let j = choose|j: int| 0 <= j < keys.len() && #[trigger] keys[j] == q;
            if j < i {
                assert(keys2[j] == q);
            } else {
                assert(keys2[j + 1] == q);
            }
        }
        assert(keys2[i] == k);
    }
    assert forall|q: K| after.contains_key(q) implies after[q] == expect[q] by {
        let j = choose|j: int| 0 <= j < keys2.len() && #[trigger] keys2[j] == q;
        lemma_keyed_index(keys2, values2, j);
        if j < i {
            lemma_keyed_index(keys, values, j);
        } else if j > i {
            assert(keys2[j] == keys[j - 1]);
            lemma_keyed_index(keys, values, j - 1);
        }
    }
    assert(after =~= expect);
}

/// Appending a new key and its value adds just that pair.
pub proof fn lemma_keyed_push<K, V>(keys: Seq<K>, values: Seq<V>, k: K, v: V)
    requires
        keys.no_duplicates(),
        keys.len() == values.len(),
        !keys.contains(k),
    ensures
        keys.push(k).no_duplicates(),
        keyed(keys.push(k), values.push(v)) == keyed(keys, values).insert(k, v),
{
    lemma_keyed_insert(keys, values, keys.len() as int, k, v);
    assert(keys.insert(keys.len() as int, k) =~= keys.push(k));
    assert(values.insert(values.len() as int, v) =~= values.push(v));
}

} // verus!
