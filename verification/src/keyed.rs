use vstd::prelude::*;

verus! {

/// A sequence of records, each carrying a key, read as a finite map; a later
/// record overwrites an earlier one with the same key.
pub open spec fn keyed_map<K, V>(s: Seq<V>, key: spec_fn(V) -> K) -> Map<K, V>
    decreases s.len(),
{
    if s.len() == 0 {
        Map::empty()
    } else {
        keyed_map(s.drop_last(), key).insert(key(s.last()), s.last())
    }
}

/// No two records in the sequence carry the same key.
pub open spec fn distinct_keys<K, V>(s: Seq<V>, key: spec_fn(V) -> K) -> bool {
    forall|i: int, j: int| 0 <= i < j < s.len() ==> key(#[trigger] s[i]) != key(#[trigger] s[j])
}

/// Under distinct keys, the map read from a sequence has exactly the
/// sequence's records, one per key.
pub proof fn lemma_keyed_map_properties<K, V>(s: Seq<V>, key: spec_fn(V) -> K)
    requires
        distinct_keys(s, key),
    ensures
        keyed_map(s, key).dom().finite(),
        keyed_map(s, key).len() == s.len(),
        forall|i: int|
            0 <= i < s.len() ==> keyed_map(s, key).contains_pair(key(#[trigger] s[i]), s[i]),
        forall|k: K|
            #[trigger] keyed_map(s, key).dom().contains(k) ==> exists|i: int|
                0 <= i < s.len() && key(#[trigger] s[i]) == k,
    decreases s.len(),
{
    if s.len() > 0 {
        let prefix = s.drop_last();
        lemma_keyed_map_properties(prefix, key);
        let m = keyed_map(prefix, key);
        if m.dom().contains(key(s.last())) {
            let i = choose|i: int| 0 <= i < prefix.len() && key(#[trigger] prefix[i]) == key(
                s.last(),
            );
            assert(key(s[i]) == key(s[s.len() - 1]));
            assert(false);
        }
        assert forall|i: int| 0 <= i < s.len() implies keyed_map(s, key).contains_pair(
            key(#[trigger] s[i]),
            s[i],
        ) by {
            if i < s.len() - 1 {
                assert(m.contains_pair(key(prefix[i]), prefix[i]));
                assert(key(s[i]) != key(s.last()));
            }
        }
    }
}

/// Appending a record with a fresh key inserts it into the map.
pub proof fn lemma_keyed_map_push<K, V>(s: Seq<V>, key: spec_fn(V) -> K, v: V)
    ensures
        keyed_map(s.push(v), key) == keyed_map(s, key).insert(key(v), v),
{
    assert(s.push(v).drop_last() =~= s);
}

/// Overwriting the record at `idx` with one carrying the same key updates
/// just that key's entry.
pub proof fn lemma_keyed_map_update<K, V>(s: Seq<V>, key: spec_fn(V) -> K, idx: int, v: V)
    requires
        distinct_keys(s, key),
        0 <= idx < s.len(),
        key(v) == key(s[idx]),
    ensures
        keyed_map(s.update(idx, v), key) == keyed_map(s, key).insert(key(v), v),
        distinct_keys(s.update(idx, v), key),
    decreases s.len(),
{
    let t = s.update(idx, v);
    assert(distinct_keys(t, key)) by {
        assert(forall|i: int| 0 <= i < t.len() && i != idx ==> #[trigger] t[i] == s[i]);
    }
    if idx == s.len() - 1 {
        assert(t.drop_last() =~= s.drop_last());
        assert(t.last() == v);
        assert(keyed_map(t, key) =~= keyed_map(s, key).insert(key(v), v));
    } else {
        assert(t.drop_last() =~= s.drop_last().update(idx, v));
        assert(t.last() == s.last());
        assert(distinct_keys(s.drop_last(), key));
        lemma_keyed_map_update(s.drop_last(), key, idx, v);
        // the two inserted keys differ, so the inserts commute
        assert(key(s[idx]) != key(s.last()));
        assert(keyed_map(t, key) =~= keyed_map(s, key).insert(key(v), v));
    }
}

/// Removing the record at `idx` removes just its key from the map.
pub proof fn lemma_keyed_map_remove<K, V>(s: Seq<V>, key: spec_fn(V) -> K, idx: int)
    requires
        distinct_keys(s, key),
        0 <= idx < s.len(),
    ensures
        keyed_map(s.remove(idx), key) == keyed_map(s, key).remove(key(s[idx])),
        distinct_keys(s.remove(idx), key),
    decreases s.len(),
{
    let t = s.remove(idx);
    assert(distinct_keys(t, key)) by {
        assert(forall|i: int| 0 <= i < idx ==> #[trigger] t[i] == s[i]);
        assert(forall|i: int| idx <= i < t.len() ==> #[trigger] t[i] == s[i + 1]);
    }
    lemma_keyed_map_properties(s, key);
    if idx == s.len() - 1 {
        assert(t =~= s.drop_last());
        assert(!keyed_map(s.drop_last(), key).dom().contains(key(s[idx]))) by {
            assert(distinct_keys(s.drop_last(), key));
            lemma_keyed_map_properties(s.drop_last(), key);
            if keyed_map(s.drop_last(), key).dom().contains(key(s[idx])) {
                let i = choose|i: int|
                    0 <= i < s.drop_last().len() && key(#[trigger] s.drop_last()[i]) == key(s[idx]);
                assert(key(s[i]) == key(s[idx]));
                assert(false);
            }
        }
        assert(keyed_map(t, key) =~= keyed_map(s, key).remove(key(s[idx])));
    } else {
        assert(t.drop_last() =~= s.drop_last().remove(idx));
        assert(t.last() == s.last());
        assert(distinct_keys(s.drop_last(), key));
        lemma_keyed_map_remove(s.drop_last(), key, idx);
        assert(s.drop_last()[idx] == s[idx]);
        assert(key(s[idx]) != key(s.last()));
        assert(keyed_map(t, key) =~= keyed_map(s, key).remove(key(s[idx])));
    }
}

/// A permutation of a sequence with distinct keys has distinct keys.
pub proof fn lemma_distinct_keys_permutation<K, V>(a: Seq<V>, b: Seq<V>, key: spec_fn(V) -> K)
    requires
        distinct_keys(a, key),
        a.to_multiset() == b.to_multiset(),
    ensures
        distinct_keys(b, key),
{
    broadcast use vstd::seq_lib::group_to_multiset_ensures;

    assert(a.no_duplicates()) by {
        assert forall|i: int, j: int| 0 <= i < a.len() && 0 <= j < a.len() && i != j implies a[i]
            != a[j] by {
            if i < j {
                assert(key(a[i]) != key(a[j]));
            } else {
                assert(key(a[j]) != key(a[i]));
            }
        }
    }
    a.lemma_multiset_has_no_duplicates();
    b.lemma_multiset_has_no_duplicates_conv();
    assert(b.no_duplicates());
    assert forall|i: int, j: int| 0 <= i < j < b.len() implies key(#[trigger] b[i]) != key(
        #[trigger] b[j],
    ) by {
        assert(b[i] != b[j]);
        assert(a.to_multiset().contains(b[i])) by {
            assert(b.to_multiset().count(b[i]) > 0);
        }
        assert(a.to_multiset().contains(b[j])) by {
            assert(b.to_multiset().count(b[j]) > 0);
        }
        assert(a.contains(b[i]));
        assert(a.contains(b[j]));
        let k = choose|k: int| 0 <= k < a.len() && a[k] == b[i];
        let l = choose|l: int| 0 <= l < a.len() && a[l] == b[j];
        assert(k != l);
        if key(b[i]) == key(b[j]) {
            if k < l {
                assert(key(a[k]) != key(a[l]));
            } else {
                assert(key(a[l]) != key(a[k]));
            }
            assert(false);
        }
    }
}

} // verus!
