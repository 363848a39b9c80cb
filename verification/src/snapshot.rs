//! Ordered-by-key snapshots: what a summary hands out.

use crate::entries::distinct;
use crate::entries::lemma_entry_at;
use crate::entries::lemma_place_unique;
use crate::entries::lemma_update_at;
use crate::entries::map_of;
use crate::text::join_with;
use crate::text::joined;
use crate::text::lemma_lex_asymmetric;
use crate::text::lemma_lex_irreflexive;
use crate::text::lemma_lex_total;
use crate::text::lemma_lex_transitive;
use crate::text::lex_less;
use crate::text::str_less;
use crate::text::texts;
use vstd::prelude::*;

verus! {

/// Every key comes before all the keys behind it.
pub open spec fn ascending(keys: Seq<Seq<char>>) -> bool {
    forall|i: int, j: int|
        0 <= i < j < keys.len() ==> lex_less(#[trigger] keys[i], #[trigger] keys[j])
}

/// Ascending keys are distinct.
pub proof fn lemma_ascending_distinct(keys: Seq<Seq<char>>)
    requires
        ascending(keys),
    ensures
        distinct(keys),
{
    assert forall|i: int, j: int|
        0 <= i < keys.len() && 0 <= j < keys.len() && #[trigger] keys[i] == #[trigger] keys[j]
        implies i == j by {
        lemma_lex_irreflexive(keys[i]);
        if i < j {
            assert(lex_less(keys[i], keys[j]));
        } else if j < i {
            assert(lex_less(keys[j], keys[i]));
        }
    }
}

/// Two ascending lists that hold the same keys are the same list.
pub proof fn lemma_ascending_unique(a: Seq<Seq<char>>, b: Seq<Seq<char>>)
    requires
        ascending(a),
        ascending(b),
        forall|key: Seq<char>| a.contains(key) <==> b.contains(key),
    ensures
        a == b,
    decreases a.len(),
{
    if a.len() == 0 {
        if b.len() > 0 {
            assert(b.contains(b[0]));
        }
        assert(a =~= b);
    } else if b.len() == 0 {
        assert(a.contains(a[0]));
    } else {
        // The last key of each list is the greatest key of both.
        let x = a.last();
        let y = b.last();
        assert(a.contains(x));
        assert(b.contains(y));
        let i = b.index_of(x);
        let j = a.index_of(y);
        if x != y {
            lemma_lex_irreflexive(x);
            lemma_lex_irreflexive(y);
            assert(lex_less(b[i], b[b.len() - 1]));
            assert(lex_less(a[j], a[a.len() - 1]));
            lemma_lex_asymmetric(x, y);
        }
        let a0 = a.drop_last();
        let b0 = b.drop_last();
        assert forall|key: Seq<char>| a0.contains(key) <==> b0.contains(key) by {
            if a0.contains(key) {
                let k = a0.index_of(key);
                assert(a[k] == key);
                assert(a.contains(key));
                lemma_lex_irreflexive(key);
                let m = b.index_of(key);
                assert(lex_less(a[k], a[a.len() - 1]));
                assert(m != b.len() - 1);
                assert(b0[m] == key);
            }
            if b0.contains(key) {
                let k = b0.index_of(key);
                assert(b[k] == key);
                assert(b.contains(key));
                lemma_lex_irreflexive(key);
                let m = a.index_of(key);
                assert(lex_less(b[k], b[b.len() - 1]));
                assert(m != a.len() - 1);
                assert(a0[m] == key);
            }
        }
        assert(ascending(a0)) by {
            assert forall|p: int, q: int| 0 <= p < q < a0.len() implies lex_less(
                #[trigger] a0[p],
                #[trigger] a0[q],
            ) by {
                assert(lex_less(a[p], a[q]));
            }
        }
        assert(ascending(b0)) by {
            assert forall|p: int, q: int| 0 <= p < q < b0.len() implies lex_less(
                #[trigger] b0[p],
                #[trigger] b0[q],
            ) by {
                assert(lex_less(b[p], b[q]));
            }
        }
        lemma_ascending_unique(a0, b0);
        assert(a =~= a0.push(x));
        assert(b =~= b0.push(y));
    }
}

/// How many keys at the front of the list come before `key`: the place at
/// which `key` stands in an ascending list, or would stand.
pub open spec fn place_for(keys: Seq<Seq<char>>, key: Seq<char>) -> int
    decreases keys.len(),
{
    if keys.len() == 0 || !lex_less(keys[0], key) {
        0
    } else {
        1 + place_for(keys.drop_first(), key)
    }
}

/// The list with `key` in it: the list itself where it holds `key`, else
/// the list with `key` put at its place.
pub open spec fn with_key(keys: Seq<Seq<char>>, key: Seq<char>) -> Seq<Seq<char>> {
    if keys.contains(key) {
        keys
    } else {
        keys.insert(place_for(keys, key), key)
    }
}

/// The place where the smaller keys end is the place of `key`.
pub proof fn lemma_place_for(keys: Seq<Seq<char>>, key: Seq<char>, at: int)
    requires
        0 <= at <= keys.len(),
        forall|i: int| 0 <= i < at ==> lex_less(#[trigger] keys[i], key),
        at < keys.len() ==> !lex_less(keys[at], key),
    ensures
        place_for(keys, key) == at,
    decreases keys.len(),
{
    if at > 0 {
        assert(lex_less(keys[0], key));
        let rest = keys.drop_first();
        assert forall|i: int| 0 <= i < at - 1 implies lex_less(#[trigger] rest[i], key) by {
            assert(lex_less(keys[i + 1], key));
        }
        lemma_place_for(rest, key, at - 1);
    }
}

/// The list with `key` in it is ascending where the list was, and holds
/// `key` and what the list held.
pub proof fn lemma_with_key(keys: Seq<Seq<char>>, key: Seq<char>)
    requires
        ascending(keys),
    ensures
        ascending(with_key(keys, key)),
        forall|other: Seq<char>|
            with_key(keys, key).contains(other) <==> (keys.contains(other) || other == key),
{
    if !keys.contains(key) {
        let at = lemma_place_exists(keys, key);
        lemma_place_for(keys, key, at);
        assert forall|i: int| at <= i < keys.len() implies lex_less(key, #[trigger] keys[i]) by {
            if !lex_less(key, keys[at]) {
                lemma_lex_total(keys[at], key);
                assert(keys.contains(key));
            }
            if i > at {
                lemma_lex_transitive(key, keys[at], keys[i]);
            }
        }
        lemma_insert_between(keys, Seq::new(keys.len(), |i: int| ()), at, key, ());
        let longer = keys.insert(at, key);
        assert forall|other: Seq<char>| longer.contains(other) <==> (keys.contains(other) || other
            == key) by {
            if longer.contains(other) {
                let i = longer.index_of(other);
                if i < at {
                    assert(keys[i] == other);
                } else if i > at {
                    assert(keys[i - 1] == other);
                }
            }
            if keys.contains(other) {
                let i = keys.index_of(other);
                if i < at {
                    assert(longer[i] == other);
                } else {
                    assert(longer[i + 1] == other);
                }
            }
            if other == key {
                assert(longer[at] == other);
            }
        }
    }
}

/// In any list there is a place where the keys before `key` end.
pub proof fn lemma_place_exists(keys: Seq<Seq<char>>, key: Seq<char>) -> (at: int)
    requires
        ascending(keys),
    ensures
        0 <= at <= keys.len(),
        forall|i: int| 0 <= i < at ==> lex_less(#[trigger] keys[i], key),
        at < keys.len() ==> !lex_less(keys[at], key),
    decreases keys.len(),
{
    if keys.len() == 0 || !lex_less(keys[0], key) {
        0
    } else {
        let rest = keys.drop_first();
        assert forall|i: int, j: int| 0 <= i < j < rest.len() implies lex_less(
            #[trigger] rest[i],
            #[trigger] rest[j],
        ) by {
            assert(lex_less(keys[i + 1], keys[j + 1]));
        }
        let below = lemma_place_exists(rest, key);
        assert forall|i: int| 0 <= i < below + 1 implies lex_less(#[trigger] keys[i], key) by {
            if i > 0 {
                assert(lex_less(rest[i - 1], key));
            }
        }
        if below + 1 < keys.len() {
            assert(rest[below] == keys[below + 1]);
        }
        below + 1
    }
}

/// Putting a key between the smaller keys and the greater ones keeps the
/// list ascending and adds one entry to the map it stands for.
pub proof fn lemma_insert_between<V>(
    keys: Seq<Seq<char>>,
    values: Seq<V>,
    at: int,
    key: Seq<char>,
    value: V,
)
    requires
        keys.len() == values.len(),
        ascending(keys),
        0 <= at <= keys.len(),
        forall|i: int| 0 <= i < at ==> lex_less(#[trigger] keys[i], key),
        forall|i: int| at <= i < keys.len() ==> lex_less(key, #[trigger] keys[i]),
    ensures
        ascending(keys.insert(at, key)),
        map_of(keys.insert(at, key), values.insert(at, value)) == map_of(keys, values).insert(
            key,
            value,
        ),
{
    let keys2 = keys.insert(at, key);
    let values2 = values.insert(at, value);
    lemma_ascending_distinct(keys);
    assert forall|i: int, j: int| 0 <= i < j < keys2.len() implies lex_less(
        #[trigger] keys2[i],
        #[trigger] keys2[j],
    ) by {
        if j < at {
            assert(lex_less(keys[i], keys[j]));
        } else if j == at {
            assert(lex_less(keys[i], key));
        } else if i < at {
            assert(lex_less(keys[i], keys[j - 1]));
        } else if i == at {
            assert(lex_less(key, keys[j - 1]));
        } else {
            assert(lex_less(keys[i - 1], keys[j - 1]));
        }
    }
    lemma_ascending_distinct(keys2);
    let before = map_of(keys, values);
    let after = map_of(keys2, values2);
    assert forall|k: Seq<char>| after.dom().contains(k) <==> before.insert(key, value).dom().contains(
        k,
    ) by {
        if keys2.contains(k) {
            let i = keys2.index_of(k);
            if i < at {
                assert(keys[i] == k);
            } else if i > at {
                assert(keys[i - 1] == k);
            }
        }
        if keys.contains(k) {
            let i = keys.index_of(k);
            if i < at {
                assert(keys2[i] == k);
            } else {
                assert(keys2[i + 1] == k);
            }
        }
        if k == key {
            assert(keys2[at] == k);
        }
    }
    assert forall|k: Seq<char>| after.dom().contains(k) implies after[k] == before.insert(
        key,
        value,
    )[k] by {
        assert(keys2.contains(k));
        let i = keys2.index_of(k);
        assert(keys2[i] == k);
        if i < at {
            assert(keys[i] == k);
            lemma_place_unique(keys, i);
            lemma_lex_irreflexive(key);
            assert(values2[i] == values[i]);
        } else if i > at {
            assert(keys[i - 1] == k);
            lemma_place_unique(keys, i - 1);
            lemma_lex_irreflexive(key);
            assert(values2[i] == values[i - 1]);
        } else {
            assert(values2[i] == value);
        }
    }
    assert(after =~= before.insert(key, value));
}

/// A table of values by key, the keys in ascending order.
#[derive(Debug)]
pub struct Snapshot<V> {
    keys: Vec<String>,
    values: Vec<V>,
}

impl<V> View for Snapshot<V> {
    type V = Map<Seq<char>, V>;

    /// The entries as a map from key to value.
    open spec fn view(&self) -> Map<Seq<char>, V> {
        map_of(self.keys(), self.values())
    }
}

impl<V> Snapshot<V> {
    /// The keys in the order in which the snapshot lists them.
    pub closed spec fn keys(&self) -> Seq<Seq<char>> {
        texts(self.keys@)
    }

    /// The values, each at the place of its key.
    pub closed spec fn values(&self) -> Seq<V> {
        self.values@
    }

    /// One value for each key, and the keys ascending.
    pub open spec fn wf(&self) -> bool {
        &&& self.keys().len() == self.values().len()
        &&& ascending(self.keys())
    }

    /// A snapshot without entries.
    pub fn new() -> (empty: Self)
        ensures
            empty.wf(),
            empty.keys().len() == 0,
            empty@.dom() == Set::<Seq<char>>::empty(),
    {
        let empty = Snapshot { keys: Vec::new(), values: Vec::new() };
        assert(empty@.dom() =~= Set::<Seq<char>>::empty());
        empty
    }

    /// How many entries there are.
    pub fn len(&self) -> (n: usize)
        requires
            self.wf(),
        ensures
            n == self.keys().len(),
    {
        self.keys.len()
    }

    /// The key of the entry at place `i`.
    pub fn key_at(&self, i: usize) -> (key: &String)
        requires
            self.wf(),
            i < self.keys().len(),
        ensures
            key@ == self.keys()[i as int],
    {
        &self.keys[i]
    }

    /// The value of the entry at place `i`.
    pub fn value_at(&self, i: usize) -> (value: &V)
        requires
            self.wf(),
            i < self.keys().len(),
        ensures
            *value == self.values()[i as int],
            self@.dom().contains(self.keys()[i as int]),
            *value == self@[self.keys()[i as int]],
    {
        proof {
            lemma_ascending_distinct(self.keys());
            lemma_place_unique(self.keys(), i as int);
        }
        &self.values[i]
    }

    /// The first place whose key does not come before `key`.
    fn place_of(&self, key: &str) -> (at: usize)
        requires
            self.wf(),
        ensures
            at <= self.keys().len(),
            forall|i: int| 0 <= i < at ==> lex_less(#[trigger] self.keys()[i], key@),
            at < self.keys().len() ==> !lex_less(self.keys()[at as int], key@),
    {
        let n = self.keys.len();
        let mut at: usize = 0;
        while at < n && str_less(self.keys[at].as_str(), key)
            invariant
                n == self.keys().len(),
                at <= n,
                forall|i: int| 0 <= i < at ==> lex_less(#[trigger] self.keys()[i], key@),
            decreases n - at,
        {
            at += 1;
        }
        at
    }

    /// The value recorded under `key`, if there is one.
    pub fn get(&self, key: &str) -> (found: Option<&V>)
        requires
            self.wf(),
        ensures
            found is Some <==> self@.dom().contains(key@),
            found matches Some(value) ==> *value == self@[key@],
    {
        let at = self.place_of(key);
        if at < self.keys.len() && !str_less(key, self.keys[at].as_str()) {
            proof {
                lemma_lex_total(self.keys()[at as int], key@);
                lemma_ascending_distinct(self.keys());
                lemma_place_unique(self.keys(), at as int);
            }
            Some(&self.values[at])
        } else {
            proof {
                if self.keys().contains(key@) {
                    let i = self.keys().index_of(key@);
                    lemma_lex_irreflexive(key@);
                    if i > at {
                        lemma_lex_transitive(key@, self.keys()[at as int], self.keys()[i]);
                    }
                }
            }
            None
        }
    }

    /// Records `value` under `key`, in place of what stood there before.
    pub fn insert(&mut self, key: String, value: V)
        requires
            old(self).wf(),
        ensures
            final(self).wf(),
            final(self)@ == old(self)@.insert(key@, value),
            final(self).keys() == with_key(old(self).keys(), key@),
    {
        let at = self.place_of(key.as_str());
        if at < self.keys.len() && !str_less(key.as_str(), self.keys[at].as_str()) {
            proof {
                lemma_lex_total(self.keys()[at as int], key@);
                lemma_ascending_distinct(self.keys());
                lemma_update_at(self.keys(), self.values(), at as int, value);
            }
            self.values[at] = value;
        } else {
            proof {
                lemma_place_for(self.keys(), key@, at as int);
                if self.keys().contains(key@) {
                    let i = self.keys().index_of(key@);
                    lemma_lex_irreflexive(key@);
                    if i > at {
                        lemma_lex_transitive(key@, self.keys()[at as int], self.keys()[i]);
                    }
                }
                assert forall|i: int| at <= i < self.keys().len() implies lex_less(
                    key@,
                    #[trigger] self.keys()[i],
                ) by {
                    if i > at {
                        lemma_lex_transitive(key@, self.keys()[at as int], self.keys()[i]);
                    }
                }
                lemma_insert_between(self.keys(), self.values(), at as int, key@, value);
                assert(texts(self.keys@.insert(at as int, key)) =~= self.keys().insert(
                    at as int,
                    key@,
                ));
            }
            self.keys.insert(at, key);
            self.values.insert(at, value);
        }
    }
}

/// A snapshot of snapshots as a map of maps.
pub open spec fn two_level<V>(outer: Snapshot<Snapshot<V>>) -> Map<Seq<char>, Map<Seq<char>, V>> {
    outer@.map_values(|inner: Snapshot<V>| inner@)
}

/// The snapshot and every snapshot in it are well formed.
pub open spec fn two_level_wf<V>(outer: Snapshot<Snapshot<V>>) -> bool {
    &&& outer.wf()
    &&& forall|key: Seq<char>| #[trigger] outer@.dom().contains(key) ==> outer@[key].wf()
}

/// A snapshot of snapshots of snapshots as a map of maps of maps.
pub open spec fn three_level<V>(outer: Snapshot<Snapshot<Snapshot<V>>>) -> Map<
    Seq<char>,
    Map<Seq<char>, Map<Seq<char>, V>>,
> {
    outer@.map_values(|middle: Snapshot<Snapshot<V>>| two_level(middle))
}

/// The snapshot and all the snapshots below it are well formed.
pub open spec fn three_level_wf<V>(outer: Snapshot<Snapshot<Snapshot<V>>>) -> bool {
    &&& outer.wf()
    &&& forall|key: Seq<char>| #[trigger] outer@.dom().contains(key) ==> two_level_wf(outer@[key])
}

impl<V> Snapshot<V> {
    /// Whether there is an entry under `key`.
    pub fn contains_key(&self, key: &str) -> (found: bool)
        requires
            self.wf(),
        ensures
            found == self.keys().contains(key@),
            found == self@.dom().contains(key@),
    {
        self.get(key).is_some()
    }

    /// The keys in order, with `sep` between each two neighbours.
    pub fn join_keys(&self, sep: &str) -> (line: String)
        requires
            self.wf(),
            sep@.len() <= 3,
        ensures
            line@ == joined(self.keys(), sep@),
    {
        join_with(&self.keys, sep)
    }
}

impl<V: Copy> Snapshot<V> {
    /// A copy with the same entries.
    pub fn clone(&self) -> (copy: Self)
        requires
            self.wf(),
        ensures
            copy.wf(),
            copy.keys() == self.keys(),
            copy.values() == self.values(),
            copy@ == self@,
    {
        let mut keys: Vec<String> = Vec::new();
        let mut values: Vec<V> = Vec::new();
        let n = self.keys.len();
        let mut i: usize = 0;
        while i < n
            invariant
                self.wf(),
                n == self.keys@.len(),
                i <= n,
                keys@.len() == i,
                values@.len() == i,
                forall|j: int| 0 <= j < i ==> (#[trigger] keys@[j])@ == self.keys@[j]@,
                forall|j: int| 0 <= j < i ==> #[trigger] values@[j] == self.values@[j],
            decreases n - i,
        {
            keys.push(self.keys[i].clone());
            values.push(self.values[i]);
            i += 1;
        }
        let copy = Snapshot { keys, values };
        proof {
            assert(copy.keys() =~= self.keys());
            assert(copy.values() =~= self.values());
        }
        copy
    }
}

impl<V: Copy> Snapshot<Snapshot<V>> {
    /// A copy with the same entries at both levels.
    pub fn clone(&self) -> (copy: Self)
        requires
            two_level_wf(*self),
        ensures
            two_level_wf(copy),
            listing2(copy) == listing2(*self),
            two_level(copy) == two_level(*self),
    {
        let mut keys: Vec<String> = Vec::new();
        let mut values: Vec<Snapshot<V>> = Vec::new();
        let n = self.keys.len();
        let mut i: usize = 0;
        while i < n
            invariant
                two_level_wf(*self),
                n == self.keys@.len(),
                i <= n,
                keys@.len() == i,
                values@.len() == i,
                forall|j: int| 0 <= j < i ==> (#[trigger] keys@[j])@ == self.keys@[j]@,
                forall|j: int|
                    0 <= j < i ==> (#[trigger] values@[j]).wf() && values@[j].keys()
                        == self.values@[j].keys() && values@[j].values() == self.values@[j].values(),
            decreases n - i,
        {
            proof {
                lemma_ascending_distinct(self.keys());
                lemma_entry_at(self.keys(), self.values(), i as int);
                assert(self@.dom().contains(self.keys()[i as int]));
                assert(self@[self.keys()[i as int]] == self.values@[i as int]);
            }
            keys.push(self.keys[i].clone());
            values.push(self.values[i].clone());
            i += 1;
        }
        let copy = Snapshot { keys, values };
        proof {
            assert(copy.keys() =~= self.keys());
            lemma_ascending_distinct(self.keys());
            assert forall|key: Seq<char>| #[trigger] copy@.dom().contains(key) implies copy@[key].wf()
                && copy@[key]@ == self@[key]@ by {
                let j = copy.keys().index_of(key);
                assert(copy.keys().contains(key));
            }
            assert(two_level(copy) =~= two_level(*self));
            assert(listing2(copy) =~= listing2(*self));
        }
        copy
    }
}

impl<V: Copy> Snapshot<Snapshot<Snapshot<V>>> {
    /// A copy with the same entries at all three levels.
    pub fn clone(&self) -> (copy: Self)
        requires
            three_level_wf(*self),
        ensures
            three_level_wf(copy),
            listing3(copy) == listing3(*self),
            three_level(copy) == three_level(*self),
    {
        let mut keys: Vec<String> = Vec::new();
        let mut values: Vec<Snapshot<Snapshot<V>>> = Vec::new();
        let n = self.keys.len();
        let mut i: usize = 0;
        while i < n
            invariant
                three_level_wf(*self),
                n == self.keys@.len(),
                i <= n,
                keys@.len() == i,
                values@.len() == i,
                forall|j: int| 0 <= j < i ==> (#[trigger] keys@[j])@ == self.keys@[j]@,
                forall|j: int|
                    0 <= j < i ==> two_level_wf(#[trigger] values@[j]) && listing2(values@[j])
                        == listing2(self.values@[j]) && two_level(values@[j]) == two_level(
                        self.values@[j],
                    ),
            decreases n - i,
        {
            proof {
                lemma_ascending_distinct(self.keys());
                lemma_entry_at(self.keys(), self.values(), i as int);
                assert(self@.dom().contains(self.keys()[i as int]));
                assert(self@[self.keys()[i as int]] == self.values@[i as int]);
            }
            keys.push(self.keys[i].clone());
            values.push(self.values[i].clone());
            i += 1;
        }
        let copy = Snapshot { keys, values };
        proof {
            assert(copy.keys() =~= self.keys());
            lemma_ascending_distinct(self.keys());
            assert forall|key: Seq<char>| #[trigger] copy@.dom().contains(key) implies two_level_wf(
                copy@[key],
            ) && two_level(copy@[key]) == two_level(self@[key]) by {
                let j = copy.keys().index_of(key);
                assert(copy.keys().contains(key));
            }
            assert(three_level(copy) =~= three_level(*self));
            assert(listing3(copy) =~= listing3(*self));
        }
        copy
    }
}

/// The entries in order, as a snapshot is written out: each key with its
/// value.
pub open spec fn listing<V>(flat: Snapshot<V>) -> Seq<(Seq<char>, V)> {
    Seq::new(flat.keys().len(), |i: int| (flat.keys()[i], flat.values()[i]))
}

/// The entries of two levels in order.
pub open spec fn listing2<V>(outer: Snapshot<Snapshot<V>>) -> Seq<
    (Seq<char>, Seq<(Seq<char>, V)>),
> {
    Seq::new(outer.keys().len(), |i: int| (outer.keys()[i], listing(outer.values()[i])))
}

/// The entries of three levels in order.
pub open spec fn listing3<V>(outer: Snapshot<Snapshot<Snapshot<V>>>) -> Seq<
    (Seq<char>, Seq<(Seq<char>, Seq<(Seq<char>, V)>)>),
> {
    Seq::new(outer.keys().len(), |i: int| (outer.keys()[i], listing2(outer.values()[i])))
}

/// The keys of a map of entries are the keys of the list.
proof fn lemma_dom_is_keys<V>(keys: Seq<Seq<char>>, values: Seq<V>)
    ensures
        forall|key: Seq<char>| map_of(keys, values).dom().contains(key) <==> keys.contains(key),
{
}

/// Two snapshots of the same map list the same entries in the same order.
pub proof fn lemma_listing_unique<V>(a: Snapshot<V>, b: Snapshot<V>)
    requires
        a.wf(),
        b.wf(),
        a@ == b@,
    ensures
        a.keys() == b.keys(),
        listing(a) == listing(b),
{
    lemma_dom_is_keys(a.keys(), a.values());
    lemma_dom_is_keys(b.keys(), b.values());
    assert forall|key: Seq<char>| a.keys().contains(key) <==> b.keys().contains(key) by {
        assert(a@.dom().contains(key) <==> b@.dom().contains(key));
    }
    lemma_ascending_unique(a.keys(), b.keys());
    lemma_ascending_distinct(a.keys());
    assert forall|i: int| 0 <= i < a.keys().len() implies a.values()[i] == b.values()[i] by {
        lemma_entry_at(a.keys(), a.values(), i);
        lemma_entry_at(b.keys(), b.values(), i);
    }
    assert(listing(a) =~= listing(b));
}

/// The same for snapshots of snapshots.
pub proof fn lemma_listing2_unique<V>(a: Snapshot<Snapshot<V>>, b: Snapshot<Snapshot<V>>)
    requires
        two_level_wf(a),
        two_level_wf(b),
        two_level(a) == two_level(b),
    ensures
        a.keys() == b.keys(),
        listing2(a) == listing2(b),
{
    lemma_dom_is_keys(a.keys(), a.values());
    lemma_dom_is_keys(b.keys(), b.values());
    assert forall|key: Seq<char>| a.keys().contains(key) <==> b.keys().contains(key) by {
        assert(two_level(a).dom().contains(key) <==> a@.dom().contains(key));
        assert(two_level(b).dom().contains(key) <==> b@.dom().contains(key));
    }
    lemma_ascending_unique(a.keys(), b.keys());
    lemma_ascending_distinct(a.keys());
    assert forall|i: int| 0 <= i < a.keys().len() implies listing(a.values()[i]) == listing(
        b.values()[i],
    ) by {
        lemma_entry_at(a.keys(), a.values(), i);
        lemma_entry_at(b.keys(), b.values(), i);
        let key = a.keys()[i];
        assert(two_level(a)[key] == a.values()[i]@);
        assert(two_level(b)[key] == b.values()[i]@);
        lemma_listing_unique(a.values()[i], b.values()[i]);
    }
    assert(listing2(a) =~= listing2(b));
}

/// The same for three levels.
pub proof fn lemma_listing3_unique<V>(
    a: Snapshot<Snapshot<Snapshot<V>>>,
    b: Snapshot<Snapshot<Snapshot<V>>>,
)
    requires
        three_level_wf(a),
        three_level_wf(b),
        three_level(a) == three_level(b),
    ensures
        a.keys() == b.keys(),
        listing3(a) == listing3(b),
{
    lemma_dom_is_keys(a.keys(), a.values());
    lemma_dom_is_keys(b.keys(), b.values());
    assert forall|key: Seq<char>| a.keys().contains(key) <==> b.keys().contains(key) by {
        assert(three_level(a).dom().contains(key) <==> a@.dom().contains(key));
        assert(three_level(b).dom().contains(key) <==> b@.dom().contains(key));
    }
    lemma_ascending_unique(a.keys(), b.keys());
    lemma_ascending_distinct(a.keys());
    assert forall|i: int| 0 <= i < a.keys().len() implies listing2(a.values()[i]) == listing2(
        b.values()[i],
    ) by {
        lemma_entry_at(a.keys(), a.values(), i);
        lemma_entry_at(b.keys(), b.values(), i);
        let key = a.keys()[i];
        assert(three_level(a)[key] == two_level(a.values()[i]));
        assert(three_level(b)[key] == two_level(b.values()[i]));
        lemma_listing2_unique(a.values()[i], b.values()[i]);
    }
    assert(listing3(a) =~= listing3(b));
}

} // verus!
