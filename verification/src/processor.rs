//! The processor turns what is seen of the spans (a span opens under a
//! parent, follows another, succeeds, fails) into observations of the two
//! estimators, and summarizes them.
//!
//! Failure rates are kept at the finer grain, by span name and then by
//! signature, and shown as pairs of counts. A close is observed under two
//! keys at once: the signature of the record, which is the sorted names of
//! its failing sub-spans joined into one text, and a key for the total.

use crate::bernoulli::categories_wf;
use crate::bernoulli::observed_under;
use crate::bernoulli::rates_under;
use crate::bernoulli::ManyCategoryBernEstimator;
use crate::bernoulli::Tally;
use crate::markov::contexts_wf;
use crate::markov::shares_by_context;
use crate::markov::transition_observed_in;
use crate::markov::ContextMarkovEstimator;
use crate::markov::StateModel;
use crate::record::RecordModel;
use crate::record::SpanRecord;
use crate::snapshot::lemma_listing2_unique;
use crate::snapshot::lemma_listing3_unique;
use crate::snapshot::listing2;
use crate::snapshot::listing3;
use crate::snapshot::three_level;
use crate::snapshot::three_level_wf;
use crate::snapshot::two_level;
use crate::snapshot::two_level_wf;
use crate::snapshot::Snapshot;
use crate::text::joined;
use vstd::prelude::*;

verus! {

/// The state before the first span of a context.
pub const INITIAL_STATE: &'static str = "__INITIAL_STATE__";

/// The state in which a context ends when it succeeds.
pub const SUCCESS_STATE: &'static str = "__SUCCESS_STATE__";

/// The state in which a context ends when it fails.
pub const FAILURE_STATE: &'static str = "__FAILURE_STATE__";

/// The key under which all closes of a span are counted, whatever failed
/// under it.
pub const TOTAL_SUBRECORD: &'static str = "__TOTAL__";

/// What stands between two names of a signature.
pub const SIGNATURE_SEPARATOR: &'static str = ", ";

/// The signature of a list of names: the names joined into one text, the
/// empty text where there is none.
pub open spec fn signature(names: Seq<Seq<char>>) -> Seq<char> {
    joined(names, SIGNATURE_SEPARATOR@)
}

/// The state from which a record goes on: the span last seen under it, or
/// the initial state where none was seen.
pub open spec fn state_of(record: RecordModel) -> Seq<char> {
    match record.latest {
        Some(child) => child.name,
        None => INITIAL_STATE@,
    }
}

/// The state in which a record ends.
pub open spec fn end_state(failed: bool) -> Seq<char> {
    if failed {
        FAILURE_STATE@
    } else {
        SUCCESS_STATE@
    }
}

/// What the two estimators of a processor have counted.
pub struct ProcessorModel {
    pub markov: Map<Seq<char>, Map<Seq<char>, StateModel>>,
    pub bernoulli: Map<Seq<char>, Map<Seq<char>, Tally>>,
}

/// What a summary shows: the transition table and the table of failure
/// rates.
pub struct SummaryModel {
    pub span_markov: Map<Seq<char>, Map<Seq<char>, Map<Seq<char>, (usize, usize)>>>,
    pub fail_bernoulli: Map<Seq<char>, Map<Seq<char>, (usize, usize)>>,
}

impl ProcessorModel {
    /// Nothing observed yet.
    pub open spec fn empty() -> ProcessorModel {
        ProcessorModel { markov: Map::empty(), bernoulli: Map::empty() }
    }

    /// A span named `next` came after `state` in the context `context`.
    pub open spec fn transition(
        self,
        context: Seq<char>,
        state: Seq<char>,
        next: Seq<char>,
    ) -> ProcessorModel {
        ProcessorModel {
            markov: transition_observed_in(self.markov, context, state, next),
            bernoulli: self.bernoulli,
        }
    }

    /// The first span under `parent` opened.
    pub open spec fn span(self, current: RecordModel, parent: RecordModel) -> ProcessorModel {
        self.transition(parent.name, INITIAL_STATE@, current.name)
    }

    /// A span opened under `parent` after `prev`.
    pub open spec fn span_follows(
        self,
        current: RecordModel,
        prev: RecordModel,
        parent: RecordModel,
    ) -> ProcessorModel {
        self.transition(parent.name, prev.name, current.name)
    }

    /// The span of `record` closed from `state`, failed or not: one
    /// transition into the end state, and one observation of failure under
    /// the signature of the record and one under the total.
    pub open spec fn outcome(self, state: Seq<char>, record: RecordModel, failed: bool) -> ProcessorModel {
        ProcessorModel {
            markov: transition_observed_in(self.markov, record.name, state, end_state(failed)),
            bernoulli: observed_under(
                observed_under(
                    self.bernoulli,
                    record.name,
                    signature(record.failing_subspans),
                    failed,
                ),
                record.name,
                TOTAL_SUBRECORD@,
                failed,
            ),
        }
    }

    /// Every state that is there was visited, every category that is
    /// there was observed, and the counts of each agree: the next states
    /// of a state add up to its visits, and no event occurred more often
    /// than it was looked for.
    pub open spec fn wf(self) -> bool {
        &&& contexts_wf(self.markov)
        &&& categories_wf(self.bernoulli)
    }

    /// What a summary of these counts shows.
    pub open spec fn summary(self) -> SummaryModel {
        SummaryModel {
            span_markov: shares_by_context(self.markov),
            fail_bernoulli: rates_under(self.bernoulli),
        }
    }
}

/// A snapshot of what a processor has counted.
#[derive(Debug)]
pub struct DependencySummary {
    span_markov: Snapshot<Snapshot<Snapshot<(usize, usize)>>>,
    fail_bernoulli: Snapshot<Snapshot<(usize, usize)>>,
}

impl View for DependencySummary {
    type V = SummaryModel;

    closed spec fn view(&self) -> SummaryModel {
        SummaryModel {
            span_markov: three_level(self.span_markov),
            fail_bernoulli: two_level(self.fail_bernoulli),
        }
    }
}

impl DependencySummary {
    /// Both tables are in the order of their keys, at every level.
    pub closed spec fn wf(&self) -> bool {
        &&& three_level_wf(self.span_markov)
        &&& two_level_wf(self.fail_bernoulli)
    }

    /// The document as it is written out: the entries of the transition
    /// table and those of the table of failure rates, in order.
    pub closed spec fn listing(&self) -> (
        Seq<(Seq<char>, Seq<(Seq<char>, Seq<(Seq<char>, (usize, usize))>)>)>,
        Seq<(Seq<char>, Seq<(Seq<char>, (usize, usize))>)>,
    ) {
        (listing3(self.span_markov), listing2(self.fail_bernoulli))
    }

    /// The transition table: context, state, next state, and for each next
    /// state how many of the visits of the state led there.
    pub fn make_span_markov(&self) -> (table: Snapshot<Snapshot<Snapshot<(usize, usize)>>>)
        requires
            self.wf(),
        ensures
            three_level_wf(table),
            three_level(table) == self@.span_markov,
            listing3(table) == self.listing().0,
    {
        self.span_markov.clone()
    }

    /// The table of failure rates: span name, signature, and for each
    /// signature how many of the closes failed.
    pub fn make_fail_bernoulli(&self) -> (table: Snapshot<Snapshot<(usize, usize)>>)
        requires
            self.wf(),
        ensures
            two_level_wf(table),
            two_level(table) == self@.fail_bernoulli,
            listing2(table) == self.listing().1,
    {
        self.fail_bernoulli.clone()
    }
}

/// Two summaries that show the same counts are the same document, entry by
/// entry: a summary taken twice with nothing observed in between comes out
/// the same.
pub proof fn lemma_summary_repeats(first: DependencySummary, second: DependencySummary)
    requires
        first.wf(),
        second.wf(),
        first@ == second@,
    ensures
        first.listing() == second.listing(),
{
    lemma_listing3_unique(first.span_markov, second.span_markov);
    lemma_listing2_unique(first.fail_bernoulli, second.fail_bernoulli);
}

/// The two estimators, fed from what is seen of the spans.
pub struct DependencyProcessor {
    span_markov: ContextMarkovEstimator,
    fail_bernoulli: ManyCategoryBernEstimator,
}

impl View for DependencyProcessor {
    type V = ProcessorModel;

    closed spec fn view(&self) -> ProcessorModel {
        ProcessorModel { markov: self.span_markov@, bernoulli: self.fail_bernoulli@ }
    }
}

impl Default for DependencyProcessor {
    fn default() -> (fresh: Self)
        ensures
            fresh.wf(),
            fresh@ == ProcessorModel::empty(),
    {
        Self::new()
    }
}

impl DependencyProcessor {
    /// Both estimators are well formed.
    pub closed spec fn wf(&self) -> bool {
        &&& self.span_markov.wf()
        &&& self.fail_bernoulli.wf()
    }

    /// What `wf` says of the counts.
    pub proof fn lemma_wf(&self)
        requires
            self.wf(),
        ensures
            self@.wf(),
            contexts_wf(self@.markov),
            categories_wf(self@.bernoulli),
    {
        self.span_markov.lemma_wf();
        self.fail_bernoulli.lemma_wf();
    }

    /// A processor that has seen nothing.
    pub fn new() -> (fresh: Self)
        ensures
            fresh.wf(),
            fresh@ == ProcessorModel::empty(),
    {
        DependencyProcessor {
            span_markov: ContextMarkovEstimator::default(),
            fail_bernoulli: ManyCategoryBernEstimator::default(),
        }
    }

    /// A span named `next` came after `state` in the context `context`.
    pub fn record_transition(&mut self, context: &str, state: &str, next: &str)
        requires
            old(self).wf(),
        ensures
            final(self).wf(),
            final(self)@ == old(self)@.transition(context@, state@, next@),
    {
        self.span_markov.observe(context.to_string(), state.to_string(), next.to_string());
    }

    /// The span of `current_sr` opened as the first under `parent_sr`.
    pub fn record_span(&mut self, current_sr: &SpanRecord, parent_sr: &SpanRecord)
        requires
            old(self).wf(),
        ensures
            final(self).wf(),
            final(self)@ == old(self)@.span(current_sr@, parent_sr@),
    {
        self.span_markov.observe(
            self.map_record(parent_sr),
            INITIAL_STATE.to_string(),
            self.map_record(current_sr),
        );
    }

    /// The span of `current_sr` opened under `parent_sr` after that of
    /// `prev_sr`.
    pub fn record_span_follows(
        &mut self,
        current_sr: &SpanRecord,
        prev_sr: &SpanRecord,
        parent_sr: &SpanRecord,
    )
        requires
            old(self).wf(),
        ensures
            final(self).wf(),
            final(self)@ == old(self)@.span_follows(current_sr@, prev_sr@, parent_sr@),
    {
        self.span_markov.observe(
            self.map_record(parent_sr),
            self.map_record(prev_sr),
            self.map_record(current_sr),
        );
    }

    /// The span of `parent_sr` closed without failure, no span having
    /// opened under it.
    pub fn record_span_succeeds(&mut self, parent_sr: &SpanRecord)
        requires
            old(self).wf(),
            parent_sr.wf(),
        ensures
            final(self).wf(),
            final(self)@ == old(self)@.outcome(INITIAL_STATE@, parent_sr@, false),
    {
        self.record_span_succeeds_inner(INITIAL_STATE.to_string(), parent_sr);
    }

    /// The span of `parent_sr` closed without failure, that of
    /// `current_sr` being the last that opened under it.
    pub fn record_span_succeeds_from(&mut self, current_sr: &SpanRecord, parent_sr: &SpanRecord)
        requires
            old(self).wf(),
            parent_sr.wf(),
        ensures
            final(self).wf(),
            final(self)@ == old(self)@.outcome(current_sr@.name, parent_sr@, false),
    {
        self.record_span_succeeds_inner(self.map_record(current_sr), parent_sr);
    }

    /// The span of `parent_sr` closed as failing, no span having opened
    /// under it.
    pub fn record_span_fails(&mut self, parent_sr: &SpanRecord)
        requires
            old(self).wf(),
            parent_sr.wf(),
        ensures
            final(self).wf(),
            final(self)@ == old(self)@.outcome(INITIAL_STATE@, parent_sr@, true),
    {
        self.record_span_fails_inner(INITIAL_STATE.to_string(), parent_sr);
    }

    /// The span of `parent_sr` closed as failing, that of `current_sr`
    /// being the last that opened under it.
    pub fn record_span_fails_from(&mut self, current_sr: &SpanRecord, parent_sr: &SpanRecord)
        requires
            old(self).wf(),
            parent_sr.wf(),
        ensures
            final(self).wf(),
            final(self)@ == old(self)@.outcome(current_sr@.name, parent_sr@, true),
    {
        self.record_span_fails_inner(self.map_record(current_sr), parent_sr);
    }

    /// A snapshot of what has been counted so far. The processor counts on.
    pub fn summarize(&self) -> (summary: DependencySummary)
        requires
            self.wf(),
        ensures
            summary.wf(),
            summary@ == self@.summary(),
    {
        DependencySummary {
            span_markov: self.span_markov.clone().summarize(),
            fail_bernoulli: self.fail_bernoulli.clone().summarize(),
        }
    }

    fn record_span_succeeds_inner(&mut self, current: String, parent_sr: &SpanRecord)
        requires
            old(self).wf(),
            parent_sr.wf(),
        ensures
            final(self).wf(),
            final(self)@ == old(self)@.outcome(current@, parent_sr@, false),
    {
        self.span_markov.observe(self.map_record(parent_sr), current, SUCCESS_STATE.to_string());
        self.fail_bernoulli.observe_absent(
            self.map_record(parent_sr),
            self.map_subrecord(parent_sr),
        );
        self.fail_bernoulli.observe_absent(
            self.map_record(parent_sr),
            TOTAL_SUBRECORD.to_string(),
        );
    }

    fn record_span_fails_inner(&mut self, current: String, parent_sr: &SpanRecord)
        requires
            old(self).wf(),
            parent_sr.wf(),
        ensures
            final(self).wf(),
            final(self)@ == old(self)@.outcome(current@, parent_sr@, true),
    {
        self.span_markov.observe(self.map_record(parent_sr), current, FAILURE_STATE.to_string());
        self.fail_bernoulli.observe_present(
            self.map_record(parent_sr),
            self.map_subrecord(parent_sr),
        );
        self.fail_bernoulli.observe_present(
            self.map_record(parent_sr),
            TOTAL_SUBRECORD.to_string(),
        );
    }

    /// The key that stands for a record: the name of its span.
    fn map_record(&self, sr: &SpanRecord) -> (key: String)
        ensures
            key@ == sr@.name,
    {
        sr.name.to_string()
    }

    /// The key that stands for what failed under a record: its signature.
    fn map_subrecord(&self, sr: &SpanRecord) -> (key: String)
        requires
            sr.wf(),
        ensures
            key@ == signature(sr@.failing_subspans),
    {
        proof {
            reveal_strlit(", ");
        }
        sr.failing_subspans.join(SIGNATURE_SEPARATOR)
    }
}

} // verus!
