//! The record kept for a span while it is open.

use crate::snapshot::ascending;
use crate::snapshot::with_key;
use crate::snapshot::Snapshot;
use crate::text::joined;
use std::time::Duration;
use std::time::Instant;
use vstd::prelude::*;

verus! {

/// The name under which the context of top-level spans is recorded.
pub const ROOT_SPAN: &'static str = "__ROOT_SPAN__";

/// `std::time::Instant`, a moment on the monotonic clock. Nothing is known
/// of a moment but that it can be kept and handed back to the clock.
#[verifier::external_type_specification]
#[verifier::external_body]
pub struct ExInstant(Instant);

/// `Instant::now`: the time at the moment of the call.
#[verifier::external_body]
pub(crate) fn now() -> Instant {
    Instant::now()
}

/// `Instant::elapsed`: the time that has passed since `start`.
#[verifier::external_body]
fn since(start: &Instant) -> Duration {
    start.elapsed()
}

/// A set of span names, listed in ascending order.
#[derive(Debug)]
pub struct NameSet {
    names: Snapshot<()>,
}

impl NameSet {
    /// The names in the order in which the set lists them.
    pub closed spec fn names(&self) -> Seq<Seq<char>> {
        self.names.keys()
    }

    /// The list is kept in order.
    pub closed spec fn wf(&self) -> bool {
        self.names.wf()
    }

    /// The names of a well-formed set ascend, so none is listed twice.
    pub proof fn lemma_wf(&self)
        requires
            self.wf(),
        ensures
            ascending(self.names()),
    {
    }

    /// The set without names.
    pub fn new() -> (empty: Self)
        ensures
            empty.wf(),
            empty.names().len() == 0,
    {
        NameSet { names: Snapshot::new() }
    }

    /// How many names the set holds.
    pub fn len(&self) -> (n: usize)
        requires
            self.wf(),
        ensures
            n == self.names().len(),
    {
        self.names.len()
    }

    /// Whether `name` is in the set.
    pub fn contains(&self, name: &str) -> (found: bool)
        requires
            self.wf(),
        ensures
            found == self.names().contains(name@),
    {
        self.names.contains_key(name)
    }

    /// The name at place `i` of the list.
    pub fn name_at(&self, i: usize) -> (name: &String)
        requires
            self.wf(),
            i < self.names().len(),
        ensures
            name@ == self.names()[i as int],
    {
        self.names.key_at(i)
    }

    /// Puts `name` into the set, which changes nothing where it is there
    /// already.
    pub fn insert(&mut self, name: String)
        requires
            old(self).wf(),
        ensures
            final(self).wf(),
            final(self).names() == with_key(old(self).names(), name@),
    {
        self.names.insert(name, ());
    }

    /// The names in order, with `sep` between each two neighbours.
    pub fn join(&self, sep: &str) -> (line: String)
        requires
            self.wf(),
            sep@.len() <= 3,
        ensures
            line@ == joined(self.names(), sep@),
    {
        self.names.join_keys(sep)
    }

    /// A copy of the set.
    pub fn clone(&self) -> (copy: Self)
        requires
            self.wf(),
        ensures
            copy.wf(),
            copy.names() == self.names(),
    {
        NameSet { names: self.names.clone() }
    }
}

/// What a span record holds.
pub struct RecordModel {
    pub id: u64,
    pub name: Seq<char>,
    /// The clock reading taken when the record was made.
    pub creation_time: Instant,
    /// What the copy held as `latest` holds: the record of the span that
    /// was last seen to open under this one, as it was when it opened.
    pub latest: Option<Box<RecordModel>>,
    pub failing: bool,
    /// The names of the spans under this one that closed as failing, in
    /// ascending order.
    pub failing_subspans: Seq<Seq<char>>,
}

impl RecordModel {
    /// The record of a span that has just opened, made at `creation_time`.
    pub open spec fn fresh(id: u64, name: Seq<char>, creation_time: Instant) -> RecordModel {
        RecordModel {
            id,
            name,
            creation_time,
            latest: None,
            failing: false,
            failing_subspans: Seq::empty(),
        }
    }
}

/// The bookkeeping for one span in flight.
#[derive(Debug)]
pub struct SpanRecord {
    pub id: u64,
    pub name: &'static str,
    pub creation_time: Instant,
    /// A copy of the record of the span that was last seen to open under
    /// this one, as it was when it opened.
    pub latest: Option<Box<SpanRecord>>,
    pub failing: bool,
    pub failing_subspans: NameSet,
}

impl View for SpanRecord {
    type V = RecordModel;

    /// All that the record holds, the copy held as `latest` with it.
    open spec fn view(&self) -> RecordModel {
        self.model()
    }
}

impl SpanRecord {
    /// What the record holds: every field as it is, the copy held as
    /// `latest` by what that holds in turn.
    pub open spec fn model(&self) -> RecordModel
        decreases self,
    {
        RecordModel {
            id: self.id,
            name: self.name@,
            creation_time: self.creation_time,
            latest: match self.latest {
                Some(inner) => Some(Box::new(inner.model())),
                None => None,
            },
            failing: self.failing,
            failing_subspans: self.failing_subspans.names(),
        }
    }

    /// The set of failing spans is well formed, here and in the copy held
    /// as `latest`.
    pub open spec fn wf(&self) -> bool
        decreases self,
    {
        &&& self.failing_subspans.wf()
        &&& match self.latest {
            Some(inner) => inner.wf(),
            None => true,
        }
    }

    /// The record of a span that opened at `creation_time`.
    pub fn at(id: u64, name: &'static str, creation_time: Instant) -> (record: SpanRecord)
        ensures
            record.wf(),
            record@ == RecordModel::fresh(id, name@, creation_time),
            record.creation_time == creation_time,
    {
        let record = SpanRecord {
            id,
            name,
            creation_time,
            latest: None,
            failing: false,
            failing_subspans: NameSet::new(),
        };
        assert(record@.failing_subspans =~= Seq::<Seq<char>>::empty());
        record
    }

    /// The record of a span that opens now: the record that `at` makes for
    /// the reading of the clock.
    pub fn new(id: u64, name: &'static str) -> (record: SpanRecord)
        ensures
            record.wf(),
            record@ == RecordModel::fresh(id, name@, record.creation_time),
    {
        SpanRecord::at(id, name, now())
    }

    /// The time that has passed since the record was made.
    pub fn elapsed(&self) -> Duration {
        since(&self.creation_time)
    }

    /// A copy of the record as it is now, which later changes to the record
    /// do not reach. The copy keeps the creation time.
    pub fn clone(&self) -> (copy: SpanRecord)
        requires
            self.wf(),
        ensures
            copy.wf(),
            copy@ == self@,
            copy.creation_time == self.creation_time,
        decreases self,
    {
        let latest = match &self.latest {
            Some(inner) => Some(Box::new((**inner).clone())),
            None => None,
        };
        SpanRecord {
            id: self.id,
            name: self.name,
            creation_time: self.creation_time,
            latest,
            failing: self.failing,
            failing_subspans: self.failing_subspans.clone(),
        }
    }
}

} // verus!
