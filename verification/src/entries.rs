//! Keyed entries held as two lists, the keys and their values, and the map
//! that such a pair of lists stands for.

use vstd::prelude::*;

verus! {

/// No key stands at two places.
pub open spec fn distinct(keys: Seq<Seq<char>>) -> bool {
    forall|i: int, j: int|
        0 <= i < keys.len() && 0 <= j < keys.len() && #[trigger] keys[i] == #[trigger] keys[j]
            ==> i == j
}

/// The map that a list of keys and the list of their values stand for.
pub open spec fn map_of<V>(keys: Seq<Seq<char>>, values: Seq<V>) -> Map<Seq<char>, V> {
    Map::new(|key: Seq<char>| keys.contains(key), |key: Seq<char>| values[keys.index_of(key)])
}

/// Among distinct keys each key is found at its own place.
pub proof fn lemma_place_unique(keys: Seq<Seq<char>>, i: int)
    requires
        distinct(keys),
        0 <= i < keys.len(),
    ensures
        keys.contains(keys[i]),
        keys.index_of(keys[i]) == i,
{
    let j = keys.index_of(keys[i]);
    assert(keys.contains(keys[i]));
    assert(keys[j] == keys[i]);
}

/// The entry at place `i` is an entry of the map.
pub proof fn lemma_entry_at<V>(keys: Seq<Seq<char>>, values: Seq<V>, i: int)
    requires
        distinct(keys),
        0 <= i < keys.len(),
    ensures
        map_of(keys, values).dom().contains(keys[i]),
        map_of(keys, values)[keys[i]] == values[i],
{
    lemma_place_unique(keys, i);
}

/// Changing the value at one place changes the map at that key only.
pub proof fn lemma_update_at<V>(keys: Seq<Seq<char>>, values: Seq<V>, at: int, value: V)
    requires
        keys.len() == values.len(),
        distinct(keys),
        0 <= at < keys.len(),
    ensures
        map_of(keys, values.update(at, value)) == map_of(keys, values).insert(keys[at], value),
{
    let before = map_of(keys, values);
    let after = map_of(keys, values.update(at, value));
    lemma_place_unique(keys, at);
    assert forall|k: Seq<char>| after.dom().contains(k) implies after[k] == before.insert(
        keys[at],
        value,
    )[k] by {
        let i = keys.index_of(k);
        lemma_place_unique(keys, i);
    }
    assert(after =~= before.insert(keys[at], value));
}

/// Appending an entry under a key that is not there yet adds it to the map
/// and keeps the keys distinct.
pub proof fn lemma_push_new<V>(keys: Seq<Seq<char>>, values: Seq<V>, key: Seq<char>, value: V)
    requires
        keys.len() == values.len(),
        distinct(keys),
        !keys.contains(key),
    ensures
        distinct(keys.push(key)),
        map_of(keys.push(key), values.push(value)) == map_of(keys, values).insert(key, value),
{
    let keys2 = keys.push(key);
    let values2 = values.push(value);
    assert forall|i: int, j: int|
        0 <= i < keys2.len() && 0 <= j < keys2.len() && #[trigger] keys2[i] == #[trigger] keys2[j]
        implies i == j by {
        if i < keys.len() && j < keys.len() {
            assert(keys[i] == keys[j]);
        } else if i < keys.len() {
            assert(keys[i] == key);
        } else if j < keys.len() {
            assert(keys[j] == key);
        }
    }
    let before = map_of(keys, values);
    let after = map_of(keys2, values2);
    assert forall|k: Seq<char>| after.dom().contains(k) <==> before.insert(key, value).dom().contains(
        k,
    ) by {
        if keys2.contains(k) {
            let i = keys2.index_of(k);
            if i < keys.len() {
                assert(keys[i] == k);
            }
        }
        if keys.contains(k) {
            let i = keys.index_of(k);
            assert(keys2[i] == k);
        }
        if k == key {
            assert(keys2[keys.len() as int] == k);
        }
    }
    assert forall|k: Seq<char>| after.dom().contains(k) implies after[k] == before.insert(
        key,
        value,
    )[k] by {
        assert(keys2.contains(k));
        let i = keys2.index_of(k);
        assert(keys2[i] == k);
        lemma_place_unique(keys2, i);
        if i < keys.len() {
            assert(keys[i] == k);
            lemma_place_unique(keys, i);
            assert(values2[i] == values[i]);
        }
    }
    assert(after =~= before.insert(key, value));
}

/// `m` holds the entries at the places from `lo` up to `hi`, and no others.
pub open spec fn holds_range<V>(
    m: Map<Seq<char>, V>,
    keys: Seq<Seq<char>>,
    values: Seq<V>,
    lo: int,
    hi: int,
) -> bool {
    &&& forall|j: int|
        lo <= j < hi ==> m.dom().contains(#[trigger] keys[j]) && m[keys[j]] == values[j]
    &&& forall|key: Seq<char>| #[trigger]
        m.dom().contains(key) ==> exists|j: int| lo <= j < hi && #[trigger] keys[j] == key
}

/// Adding the entry of one more place, at either end of the range.
pub proof fn lemma_holds_more<V>(
    m: Map<Seq<char>, V>,
    keys: Seq<Seq<char>>,
    values: Seq<V>,
    lo: int,
    hi: int,
    at: int,
)
    requires
        holds_range(m, keys, values, lo, hi),
        distinct(keys),
        0 <= lo <= hi <= keys.len(),
        0 <= at < keys.len(),
        at == hi || at == lo - 1,
    ensures
        !m.dom().contains(keys[at]),
        at == hi ==> holds_range(m.insert(keys[at], values[at]), keys, values, lo, hi + 1),
        at == lo - 1 ==> holds_range(m.insert(keys[at], values[at]), keys, values, lo - 1, hi),
{
    let m2 = m.insert(keys[at], values[at]);
    if m.dom().contains(keys[at]) {
        let j = choose|j: int| lo <= j < hi && #[trigger] keys[j] == keys[at];
        assert(j == at);
    }
    let lo2 = if at == hi { lo } else { lo - 1 };
    let hi2 = if at == hi { hi + 1 } else { hi };
    assert forall|j: int| lo2 <= j < hi2 implies m2.dom().contains(#[trigger] keys[j]) && m2[keys[j]]
        == values[j] by {
        if j != at {
            assert(keys[j] != keys[at]);
        }
    }
    assert forall|key: Seq<char>| #[trigger] m2.dom().contains(key) implies exists|j: int|
        lo2 <= j < hi2 && #[trigger] keys[j] == key by {
        if key == keys[at] {
            assert(lo2 <= at < hi2 && keys[at] == key);
        } else {
            assert(m.dom().contains(key));
            let j = choose|j: int| lo <= j < hi && #[trigger] keys[j] == key;
            assert(lo2 <= j < hi2 && keys[j] == key);
        }
    }
}

/// A map that holds the entries of all places is the map of the two lists.
pub proof fn lemma_holds_all<V>(m: Map<Seq<char>, V>, keys: Seq<Seq<char>>, values: Seq<V>)
    requires
        holds_range(m, keys, values, 0, keys.len() as int),
        distinct(keys),
    ensures
        m == map_of(keys, values),
{
    let whole = map_of(keys, values);
    assert forall|key: Seq<char>| m.dom().contains(key) <==> whole.dom().contains(key) by {
        if m.dom().contains(key) {
            let j = choose|j: int| 0 <= j < keys.len() && #[trigger] keys[j] == key;
            assert(keys.contains(key));
        }
        if keys.contains(key) {
            let j = keys.index_of(key);
            assert(m.dom().contains(keys[j]));
        }
    }
    assert forall|key: Seq<char>| m.dom().contains(key) implies m[key] == whole[key] by {
        let j = keys.index_of(key);
        assert(keys.contains(key));
        assert(m[keys[j]] == values[j]);
    }
    assert(m =~= whole);
}

} // verus!
