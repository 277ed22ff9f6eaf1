//! A sequence of records, each of which carries its own key, read as a map
//! from key to record. The snapshot and the history keep their tables this way.
use vstd::prelude::*;

verus! {

/// Some element of `s` has key `k`.
pub open spec fn has_key<V, K>(s: Seq<V>, key: spec_fn(V) -> K, k: K) -> bool {
    exists|i: int| 0 <= i < s.len() && #[trigger] key(s[i]) == k
}

/// No two elements of `s` share a key.
pub open spec fn distinct_keys<V, K>(s: Seq<V>, key: spec_fn(V) -> K) -> bool {
    forall|i: int, j: int|
        0 <= i < s.len() && 0 <= j < s.len() && i != j ==> #[trigger] key(s[i]) != #[trigger] key(s[j])
}

/// The map from each key that occurs in `s` to the element that carries it.
pub open spec fn keyed_map<V, K>(s: Seq<V>, key: spec_fn(V) -> K) -> Map<K, V> {
    Map::new(
        |k: K| has_key(s, key, k),
        |k: K| s[choose|i: int| 0 <= i < s.len() && #[trigger] key(s[i]) == k],
    )
}

pub proof fn lemma_keyed_index<V, K>(s: Seq<V>, key: spec_fn(V) -> K, i: int)
    requires
        distinct_keys(s, key),
        0 <= i < s.len(),
    ensures
        keyed_map(s, key).dom().contains(key(s[i])),
        keyed_map(s, key)[key(s[i])] == s[i],
{
    assert(has_key(s, key, key(s[i])));
    let j = choose|j: int| 0 <= j < s.len() && #[trigger] key(s[j]) == key(s[i]);
    assert(key(s[j]) == key(s[i]));
}

pub proof fn lemma_keyed_all<V, K>(s: Seq<V>, key: spec_fn(V) -> K)
    requires
        distinct_keys(s, key),
    ensures
        forall|i: int|
            0 <= i < s.len() ==> #[trigger] keyed_map(s, key).dom().contains(key(s[i]))
                && keyed_map(s, key)[key(s[i])] == s[i],
        forall|k: K|
            #[trigger] keyed_map(s, key).dom().contains(k) ==> exists|i: int|
                0 <= i < s.len() && #[trigger] key(s[i]) == k,
{
    assert forall|i: int| 0 <= i < s.len() implies #[trigger] keyed_map(s, key).dom().contains(
        key(s[i]),
    ) && keyed_map(s, key)[key(s[i])] == s[i] by {
        lemma_keyed_index(s, key, i);
    }
}

pub proof fn lemma_keyed_empty<V, K>(s: Seq<V>, key: spec_fn(V) -> K)
    requires
        s.len() == 0,
    ensures
        distinct_keys(s, key),
        keyed_map(s, key) == Map::<K, V>::empty(),
{
    assert(keyed_map(s, key) =~= Map::<K, V>::empty());
}

pub proof fn lemma_keyed_push<V, K>(s: Seq<V>, key: spec_fn(V) -> K, v: V)
    requires
        distinct_keys(s, key),
        !keyed_map(s, key).dom().contains(key(v)),
    ensures
        distinct_keys(s.push(v), key),
        keyed_map(s.push(v), key) == keyed_map(s, key).insert(key(v), v),
{
    lemma_keyed_insert(s, key, s.len() as int, v);
    assert(s.insert(s.len() as int, v) =~= s.push(v));
}

pub proof fn lemma_keyed_insert<V, K>(s: Seq<V>, key: spec_fn(V) -> K, p: int, v: V)
    requires
        distinct_keys(s, key),
        0 <= p <= s.len(),
        !keyed_map(s, key).dom().contains(key(v)),
    ensures
        distinct_keys(s.insert(p, v), key),
        keyed_map(s.insert(p, v), key) == keyed_map(s, key).insert(key(v), v),
{
    let t = s.insert(p, v);
    lemma_keyed_all(s, key);
    assert forall|i: int| 0 <= i < s.len() implies key(#[trigger] s[i]) != key(v) by {
        assert(keyed_map(s, key).dom().contains(key(s[i])));
    }
    assert forall|i: int, j: int|
        0 <= i < t.len() && 0 <= j < t.len() && i != j implies #[trigger] key(t[i]) != #[trigger] key(
        t[j],
    ) by {
        let si = if i < p { i } else { i - 1 };
        let sj = if j < p { j } else { j - 1 };
        if i != p {
            assert(t[i] == s[si]);
        }
        if j != p {
            assert(t[j] == s[sj]);
        }
    }
    lemma_keyed_all(t, key);
    let m = keyed_map(s, key).insert(key(v), v);
    assert forall|k: K| #[trigger] keyed_map(t, key).dom().contains(k) <==> m.dom().contains(k) by {
        if keyed_map(t, key).dom().contains(k) {
            let i = choose|i: int| 0 <= i < t.len() && #[trigger] key(t[i]) == k;
            if i < p {
                assert(t[i] == s[i]);
            } else if i > p {
                assert(t[i] == s[i - 1]);
            }
        }
        if keyed_map(s, key).dom().contains(k) {
            let i = choose|i: int| 0 <= i < s.len() && #[trigger] key(s[i]) == k;
            if i < p {
                assert(t[i] == s[i]);
            } else {
                assert(t[i + 1] == s[i]);
            }
        }
        if k == key(v) {
            assert(t[p] == v);
        }
    }
    assert forall|k: K| #[trigger] keyed_map(t, key).dom().contains(k) implies keyed_map(t, key)[k]
        == m[k] by {
        let i = choose|i: int| 0 <= i < t.len() && #[trigger] key(t[i]) == k;
        if i < p {
            assert(t[i] == s[i]);
        } else if i > p {
            assert(t[i] == s[i - 1]);
        }
    }
    assert(keyed_map(t, key) =~= m);
}

pub proof fn lemma_keyed_update<V, K>(s: Seq<V>, key: spec_fn(V) -> K, p: int, v: V)
    requires
        distinct_keys(s, key),
        0 <= p < s.len(),
        key(v) == key(s[p]),
    ensures
        distinct_keys(s.update(p, v), key),
        keyed_map(s.update(p, v), key) == keyed_map(s, key).insert(key(v), v),
{
    let t = s.update(p, v);
    assert forall|i: int, j: int|
        0 <= i < t.len() && 0 <= j < t.len() && i != j implies #[trigger] key(t[i]) != #[trigger] key(
        t[j],
    ) by {
        assert(key(t[i]) == key(s[i]));
        assert(key(t[j]) == key(s[j]));
    }
    lemma_keyed_all(s, key);
    lemma_keyed_all(t, key);
    let m = keyed_map(s, key).insert(key(v), v);
    assert forall|k: K| #[trigger] keyed_map(t, key).dom().contains(k) <==> m.dom().contains(k) by {
        if keyed_map(t, key).dom().contains(k) {
            let i = choose|i: int| 0 <= i < t.len() && #[trigger] key(t[i]) == k;
            assert(key(t[i]) == key(s[i]));
        }
        if keyed_map(s, key).dom().contains(k) {
            let i = choose|i: int| 0 <= i < s.len() && #[trigger] key(s[i]) == k;
            assert(key(t[i]) == key(s[i]));
        }
        if k == key(v) {
            assert(t[p] == v);
        }
    }
    assert forall|k: K| #[trigger] keyed_map(t, key).dom().contains(k) implies keyed_map(t, key)[k]
        == m[k] by {
        let i = choose|i: int| 0 <= i < t.len() && #[trigger] key(t[i]) == k;
        assert(key(t[i]) == key(s[i]));
    }
    assert(keyed_map(t, key) =~= m);
}

pub proof fn lemma_keyed_take_push<V, K>(s: Seq<V>, key: spec_fn(V) -> K, j: int)
    requires
        distinct_keys(s, key),
        0 <= j < s.len(),
    ensures
        distinct_keys(s.take(j), key),
        !keyed_map(s.take(j), key).dom().contains(key(s[j])),
        keyed_map(s.take(j + 1), key) == keyed_map(s.take(j), key).insert(key(s[j]), s[j]),
{
    let t = s.take(j);
    assert forall|a: int, b: int|
        0 <= a < t.len() && 0 <= b < t.len() && a != b implies #[trigger] key(t[a]) != #[trigger] key(
        t[b],
    ) by {
        assert(t[a] == s[a] && t[b] == s[b]);
    }
    if keyed_map(t, key).dom().contains(key(s[j])) {
        let a = choose|a: int| 0 <= a < t.len() && #[trigger] key(t[a]) == key(s[j]);
        assert(t[a] == s[a]);
    }
    assert(s.take(j + 1) =~= t.push(s[j]));
    lemma_keyed_push(t, key, s[j]);
}

pub proof fn lemma_take_all<V>(s: Seq<V>)
    ensures
        s.take(s.len() as int) == s,
{
    assert(s.take(s.len() as int) =~= s);
}

pub proof fn lemma_keyed_finite<V, K>(s: Seq<V>, key: spec_fn(V) -> K)
    ensures
        keyed_map(s, key).dom().finite(),
{
    let keys = s.map_values(key).to_set();
    assert forall|k: K| #[trigger] keyed_map(s, key).dom().contains(k) <==> keys.contains(k) by {
        if keyed_map(s, key).dom().contains(k) {
            let i = choose|i: int| 0 <= i < s.len() && #[trigger] key(s[i]) == k;
            assert(s.map_values(key)[i] == k);
        }
        if keys.contains(k) {
            let i = choose|i: int| 0 <= i < s.map_values(key).len() && s.map_values(key)[i] == k;
            assert(key(s[i]) == k);
        }
    }
    assert(keyed_map(s, key).dom() =~= keys);
    vstd::seq_lib::seq_to_set_is_finite(s.map_values(key));
}

/// What a filter keeps: an element of `s` is in `s.filter(p)` exactly when `p`
/// holds of it, and everything in the filter comes from `s` and satisfies `p`.
pub proof fn lemma_filter_exact<A>(s: Seq<A>, p: spec_fn(A) -> bool)
    ensures
        forall|i: int| 0 <= i < s.len() ==> (#[trigger] s.filter(p).contains(s[i]) <==> p(s[i])),
        forall|j: int|
            0 <= j < s.filter(p).len() ==> p(#[trigger] s.filter(p)[j]) && s.contains(s.filter(p)[j]),
{
    assert forall|i: int| 0 <= i < s.len() implies (#[trigger] s.filter(p).contains(s[i]) <==> p(s[i])) by {
        if p(s[i]) {
            s.lemma_filter_contains(p, i);
        }
        if s.filter(p).contains(s[i]) {
            let j = choose|j: int| 0 <= j < s.filter(p).len() && s.filter(p)[j] == s[i];
            s.lemma_filter_pred(p, j);
        }
    }
    assert forall|j: int| 0 <= j < s.filter(p).len() implies p(#[trigger] s.filter(p)[j]) && s.contains(
        s.filter(p)[j],
    ) by {
        s.lemma_filter_pred(p, j);
        assert(s.filter(p).contains(s.filter(p)[j]));
        s.lemma_filter_contains_rev(p, s.filter(p)[j]);
    }
}

} // verus!
