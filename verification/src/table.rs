//! Tables that keep their entries in the order in which the keys first
//! came, and find an entry through a concurrent hash index from key to
//! place.

use crate::entries::distinct;
use crate::entries::lemma_place_unique;
use crate::entries::lemma_push_new;
use crate::entries::lemma_update_at;
use crate::entries::map_of;
use crate::text::texts;
use chashmap::CHashMap;
use vstd::prelude::*;

verus! {

/// `chashmap::CHashMap`, the concurrent hash map. Nothing of its inside is
/// known here; what it holds is named by `slots` and `open_spans`, and
/// whether an index has lost an entry by `never_vacated`.
#[verifier::external_type_specification]
#[verifier::external_body]
#[verifier::reject_recursive_types(K)]
#[verifier::reject_recursive_types(V)]
pub struct ExCHashMap<K, V>(CHashMap<K, V>);

/// The place that each key of an index leads to.
pub uninterp spec fn slots(index: CHashMap<String, usize>) -> Map<Seq<char>, usize>;

/// Whether no entry has ever left the index: each of its buckets holds an
/// entry or was never used.
pub uninterp spec fn never_vacated(index: CHashMap<String, usize>) -> bool;

/// `CHashMap::new`: a fresh map holds no entry, and none has left it.
#[verifier::external_body]
fn index_new() -> (fresh: CHashMap<String, usize>)
    ensures
        slots(fresh).dom() == Set::<Seq<char>>::empty(),
        never_vacated(fresh),
{
    CHashMap::new()
}

/// `CHashMap::get`: the value stored under `key`, copied out of the read
/// guard, or `None` where the map has no such key. The search of `get`
/// ends at the key or at a bucket that was never used. The load factor
/// keeps free buckets there, and where no entry has left the map the free
/// buckets are the ones never used.
#[verifier::external_body]
fn index_get(index: &CHashMap<String, usize>, key: &str) -> (place: Option<usize>)
    requires
        never_vacated(*index),
    ensures
        place is Some <==> slots(*index).dom().contains(key@),
        place matches Some(at) ==> at == slots(*index)[key@],
{
    index.get(key).map(|guard| *guard)
}

/// `CHashMap::insert`: afterwards `key` leads to `place`, and every other
/// key leads where it led before. It fills a bucket and vacates none.
#[verifier::external_body]
fn index_insert(index: &mut CHashMap<String, usize>, key: String, place: usize)
    ensures
        slots(*final(index)) == slots(*old(index)).insert(key@, place),
        never_vacated(*old(index)) ==> never_vacated(*final(index)),
{
    index.insert(key, place);
}

/// A table of values by key.
#[derive(Debug)]
pub struct Table<V> {
    index: CHashMap<String, usize>,
    keys: Vec<String>,
    values: Vec<V>,
}

impl<V> View for Table<V> {
    type V = Map<Seq<char>, V>;

    /// The entries as a map from key to value.
    open spec fn view(&self) -> Map<Seq<char>, V> {
        map_of(self.keys(), self.values())
    }
}

impl<V> Table<V> {
    /// The keys in the order in which they first came.
    pub closed spec fn keys(&self) -> Seq<Seq<char>> {
        texts(self.keys@)
    }

    /// The values, each at the place of its key.
    pub closed spec fn values(&self) -> Seq<V> {
        self.values@
    }

    /// The index leads from each key to its place, and from nothing else,
    /// and no entry has left it.
    pub closed spec fn indexed(&self) -> bool {
        &&& never_vacated(self.index)
        &&& forall|i: int|
            0 <= i < self.keys().len() ==> slots(self.index).dom().contains(
                #[trigger] self.keys()[i],
            ) && slots(self.index)[self.keys()[i]] == i
        &&& forall|key: Seq<char>| #[trigger]
            slots(self.index).dom().contains(key) ==> slots(self.index)[key] < self.keys().len()
                && self.keys()[slots(self.index)[key] as int] == key
    }

    /// One value for each key, no key twice, and the index in step.
    pub open spec fn wf(&self) -> bool {
        &&& self.keys().len() == self.values().len()
        &&& distinct(self.keys())
        &&& self.indexed()
    }

    /// A table without entries.
    pub fn new() -> (empty: Self)
        ensures
            empty.wf(),
            empty.keys().len() == 0,
    {
        Table { index: index_new(), keys: Vec::new(), values: Vec::new() }
    }

    /// How many entries there are.
    pub fn len(&self) -> (n: usize)
        requires
            self.wf(),
        ensures
            n == self.keys().len(),
    {
        self.keys.len()
    }

    /// The place of the entry under `key`, if there is one.
    pub fn find(&self, key: &str) -> (place: Option<usize>)
        requires
            self.wf(),
        ensures
            place is Some <==> self.keys().contains(key@),
            place is Some <==> self@.dom().contains(key@),
            place matches Some(at) ==> at < self.keys().len() && self.keys()[at as int] == key@,
    {
        let place = index_get(&self.index, key);
        proof {
            if self.keys().contains(key@) {
                let i = self.keys().index_of(key@);
                assert(self.keys()[i] == key@);
            }
        }
        place
    }

    /// The key of the entry at place `i`.
    pub fn key_at(&self, i: usize) -> (key: &String)
        requires
            self.wf(),
            i < self.keys().len(),
        ensures
            key@ == self.keys()[i as int],
    {
        &self.keys[i]
    }

    /// The value of the entry at place `i`.
    pub fn value_at(&self, i: usize) -> (value: &V)
        requires
            self.wf(),
            i < self.keys().len(),
        ensures
            *value == self.values()[i as int],
            self@.dom().contains(self.keys()[i as int]),
            *value == self@[self.keys()[i as int]],
    {
        proof {
            lemma_place_unique(self.keys(), i as int);
        }
        &self.values[i]
    }

    /// The value of the entry at place `i`, to be changed where it stands.
    pub fn value_at_mut(&mut self, i: usize) -> (value: &mut V)
        requires
            old(self).wf(),
            i < old(self).keys().len(),
        ensures
            *value == old(self).values()[i as int],
            final(self).wf(),
            final(self).keys() == old(self).keys(),
            final(self).values() == old(self).values().update(i as int, *final(value)),
            final(self)@ == old(self)@.insert(old(self).keys()[i as int], *final(value)),
    {
        proof {
            let keys = self.keys();
            let values = self.values();
            assert forall|v: V| #[trigger]
                map_of(keys, values.update(i as int, v)) == map_of(keys, values).insert(
                    keys[i as int],
                    v,
                ) by {
                lemma_update_at(keys, values, i as int, v);
            }
        }
        &mut self.values[i]
    }

    /// Adds an entry under a key that the table does not hold yet.
    pub fn push_new(&mut self, key: String, value: V)
        requires
            old(self).wf(),
            !old(self)@.dom().contains(key@),
        ensures
            final(self).wf(),
            final(self).keys() == old(self).keys().push(key@),
            final(self).values() == old(self).values().push(value),
            final(self)@ == old(self)@.insert(key@, value),
    {
        let place = self.keys.len();
        proof {
            lemma_push_new(self.keys(), self.values(), key@, value);
            assert(texts(self.keys@.push(key)) =~= self.keys().push(key@));
        }
        index_insert(&mut self.index, key.clone(), place);
        self.keys.push(key);
        self.values.push(value);
    }

    /// The keys and the values, each list in the order of the places.
    pub fn into_parts(self) -> (parts: (Vec<String>, Vec<V>))
        requires
            self.wf(),
        ensures
            texts(parts.0@) == self.keys(),
            parts.1@ == self.values(),
    {
        (self.keys, self.values)
    }
}

} // verus!
