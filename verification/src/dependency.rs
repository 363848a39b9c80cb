//! The tracking layer: the registry of the spans that are open, the record
//! that stands for the context of top-level spans, and the processor that
//! is told of every span that opens, follows another, or closes.
//!
//! The host calls one function for each thing that happens to a span. None
//! of them fails: what the host got wrong is reported back, for the host to
//! log, and handled by a safe fallback.

use crate::markov::transition_observed_in;
use crate::processor::DependencyProcessor;
use crate::processor::ProcessorModel;
use crate::processor::SUCCESS_STATE;
use crate::processor::state_of;
use crate::record::ROOT_SPAN;
use crate::record::now;
use crate::record::RecordModel;
use crate::record::SpanRecord;
use crate::snapshot::ascending;
use crate::snapshot::lemma_ascending_distinct;
use crate::snapshot::lemma_with_key;
use crate::snapshot::with_key;
use chashmap::CHashMap;
use std::time::Instant;
use vstd::prelude::*;

verus! {

/// The records that a registry holds, by span id.
pub uninterp spec fn open_spans(records: CHashMap<u64, SpanRecord>) -> Map<u64, SpanRecord>;

/// `CHashMap::new`: a fresh map holds no entry.
#[verifier::external_body]
fn registry_new() -> (fresh: CHashMap<u64, SpanRecord>)
    ensures
        open_spans(fresh).dom() == Set::<u64>::empty(),
{
    CHashMap::new()
}

/// `CHashMap::insert`: afterwards `id` leads to `record`, and every other
/// id to what it led to before. What `id` led to before is returned.
#[verifier::external_body]
fn registry_insert(records: &mut CHashMap<u64, SpanRecord>, id: u64, record: SpanRecord) -> (replaced:
    Option<SpanRecord>)
    ensures
        open_spans(*final(records)) == open_spans(*old(records)).insert(id, record),
        replaced is Some <==> open_spans(*old(records)).dom().contains(id),
        replaced matches Some(before) ==> before == open_spans(*old(records))[id],
{
    records.insert(id, record)
}

/// What becomes of an entry that is taken out of the registry: the entry
/// goes, and `removed` gets what it held.
fn take_record(slot: Option<SpanRecord>, removed: &mut Option<SpanRecord>) -> (left: Option<
    SpanRecord,
>)
    ensures
        left is None,
        *final(removed) == slot,
{
    *removed = slot;
    None
}

/// What becomes of an entry whose name is read: it stays as it is, and
/// `name` gets the name in it.
fn read_name(slot: Option<SpanRecord>, name: &mut Option<&'static str>) -> (left: Option<SpanRecord>)
    ensures
        left == slot,
        *final(name) == (match slot {
            Some(record) => Some(record.name),
            None => None,
        }),
{
    *name = match &slot {
        Some(record) => Some(record.name),
        None => None,
    };
    slot
}

/// `CHashMap::alter` with `take_record`: the entry of `id` leaves the map
/// and its value is returned; a map without such an entry stays as it is.
/// Unlike `remove`, `alter` finds its bucket without the scan that needs a
/// bucket never used, so it returns however many entries have come and
/// gone.
#[verifier::external_body]
fn registry_remove(records: &mut CHashMap<u64, SpanRecord>, id: u64) -> (removed: Option<SpanRecord>)
    ensures
        open_spans(*final(records)) == open_spans(*old(records)).remove(id),
        removed is Some <==> open_spans(*old(records)).dom().contains(id),
        removed matches Some(record) ==> record == open_spans(*old(records))[id],
{
    let mut removed = None;
    records.alter(id, |slot| take_record(slot, &mut removed));
    removed
}

/// `CHashMap::alter` with `read_name`: the name in the record stored under
/// `id`, or `None` where the map has no such entry. The map holds what it
/// held.
#[verifier::external_body]
fn registry_name(records: &CHashMap<u64, SpanRecord>, id: u64) -> (name: Option<&'static str>)
    ensures
        name is Some <==> open_spans(*records).dom().contains(id),
        name matches Some(text) ==> text == open_spans(*records)[id].name,
{
    let mut name = None;
    records.alter(id, |slot| read_name(slot, &mut name));
    name
}

/// What the host got wrong in one call, for the host to log.
#[derive(Clone, Copy, Debug, PartialEq, Eq)]
pub struct Anomalies {
    /// The span named as parent, or as current, is not open.
    pub parent_missing: bool,
    /// A span opened under an id that is open already; the older record
    /// was overwritten.
    pub duplicate_id: bool,
    /// The span that was closed, or charged with an error, is not open.
    pub unknown_span: bool,
}

impl RecordModel {
    /// The record after the span of `child` has opened under it: it holds
    /// `child`, the record of that span as it was then, as the latest.
    pub open spec fn with_latest(self, child: RecordModel) -> RecordModel {
        RecordModel {
            id: self.id,
            name: self.name,
            creation_time: self.creation_time,
            latest: Some(Box::new(child)),
            failing: self.failing,
            failing_subspans: self.failing_subspans,
        }
    }

    /// The record after an error has been charged to it.
    pub open spec fn with_failure(self) -> RecordModel {
        RecordModel {
            id: self.id,
            name: self.name,
            creation_time: self.creation_time,
            latest: self.latest,
            failing: true,
            failing_subspans: self.failing_subspans,
        }
    }

    /// The record after a span named `name` has closed under it as failing.
    pub open spec fn with_failing(self, name: Seq<char>) -> RecordModel {
        RecordModel {
            id: self.id,
            name: self.name,
            creation_time: self.creation_time,
            latest: self.latest,
            failing: self.failing,
            failing_subspans: with_key(self.failing_subspans, name),
        }
    }
}

/// The span that a new span, or an error, is put under: the one named
/// explicitly, else the current one.
pub open spec fn resolved(parent: Option<u64>, current: Option<u64>) -> Option<u64> {
    if parent is Some {
        parent
    } else {
        current
    }
}

/// The state of a layer: the records of the open spans, the record of the
/// root context, and what the processor has counted.
pub struct LayerModel {
    pub open: Map<u64, RecordModel>,
    pub root: RecordModel,
    pub stats: ProcessorModel,
}

impl LayerModel {
    /// The state of a layer that has seen nothing, made at `creation_time`.
    pub open spec fn initial(creation_time: Instant) -> LayerModel {
        LayerModel {
            open: Map::empty(),
            root: RecordModel::fresh(1, ROOT_SPAN@, creation_time),
            stats: ProcessorModel::empty(),
        }
    }

    /// The span of `child` has opened under the open span `parent`: one
    /// transition in the context of the parent, from the span last seen
    /// under it, and the parent keeps the record of the new span as the
    /// latest.
    pub open spec fn stacked(self, child: RecordModel, parent: u64) -> LayerModel {
        LayerModel {
            open: self.open.insert(parent, self.open[parent].with_latest(child)),
            root: self.root,
            stats: self.stats.transition(
                self.open[parent].name,
                state_of(self.open[parent]),
                child.name,
            ),
        }
    }

    /// The span of `child` has opened at the top level: the same against
    /// the root record.
    pub open spec fn rooted(self, child: RecordModel) -> LayerModel {
        LayerModel {
            open: self.open,
            root: self.root.with_latest(child),
            stats: self.stats.transition(self.root.name, state_of(self.root), child.name),
        }
    }

    /// A span has opened at `creation_time`. It is put under the span that
    /// `parent` and `current` resolve to: stacked where that span is open,
    /// left without relation where it is not, rooted where there is none.
    /// Then its record enters the registry, in place of any record under
    /// the same id.
    pub open spec fn created(
        self,
        id: u64,
        name: Seq<char>,
        creation_time: Instant,
        parent: Option<u64>,
        current: Option<u64>,
    ) -> LayerModel {
        let child = RecordModel::fresh(id, name, creation_time);
        let linked = match resolved(parent, current) {
            Some(p) => if self.open.dom().contains(p) {
                self.stacked(child, p)
            } else {
                self
            },
            None => self.rooted(child),
        };
        LayerModel { open: linked.open.insert(id, child), root: linked.root, stats: linked.stats }
    }

    /// A span has closed. Its record leaves the registry, and its outcome
    /// is observed: failure where an error was charged to it, success
    /// otherwise. Where it failed, its name enters the failing sub-spans of
    /// the span `current`, if that is open, or of the root where there is
    /// no current span. A span that is not open changes nothing.
    pub open spec fn closed(self, id: u64, current: Option<u64>) -> LayerModel {
        if !self.open.dom().contains(id) {
            self
        } else {
            let record = self.open[id];
            let rest = self.open.remove(id);
            let stats = self.stats.outcome(state_of(record), record, record.failing);
            if !record.failing {
                LayerModel { open: rest, root: self.root, stats }
            } else {
                match current {
                    Some(p) => if rest.dom().contains(p) {
                        LayerModel {
                            open: rest.insert(p, rest[p].with_failing(record.name)),
                            root: self.root,
                            stats,
                        }
                    } else {
                        LayerModel { open: rest, root: self.root, stats }
                    },
                    None => LayerModel {
                        open: rest,
                        root: self.root.with_failing(record.name),
                        stats,
                    },
                }
            }
        }
    }

    /// The name of the context in which a follows relation is observed:
    /// that of the current span where it is open, else that of the root.
    pub open spec fn context_name(self, current: Option<u64>) -> Seq<char> {
        match current {
            Some(p) => if self.open.dom().contains(p) {
                self.open[p].name
            } else {
                self.root.name
            },
            None => self.root.name,
        }
    }

    /// The span `span` is said to follow the span `follows`. Where both are
    /// open this is one transition in the current context; where either is
    /// not, nothing changes.
    pub open spec fn followed(self, span: u64, follows: u64, current: Option<u64>) -> LayerModel {
        if self.open.dom().contains(span) && self.open.dom().contains(follows) {
            LayerModel {
                open: self.open,
                root: self.root,
                stats: self.stats.transition(
                    self.context_name(current),
                    self.open[follows].name,
                    self.open[span].name,
                ),
            }
        } else {
            self
        }
    }

    /// An error is charged to the span `target`, which changes nothing
    /// where that span is not open.
    pub open spec fn errored(self, target: Option<u64>) -> LayerModel {
        match target {
            Some(t) => if self.open.dom().contains(t) {
                LayerModel {
                    open: self.open.insert(t, self.open[t].with_failure()),
                    root: self.root,
                    stats: self.stats,
                }
            } else {
                self
            },
            None => self,
        }
    }

    /// An event was recorded. Only an event at error level changes
    /// anything: it is charged to the span that `parent` and `current`
    /// resolve to.
    pub open spec fn noted(self, is_error: bool, parent: Option<u64>, current: Option<u64>) -> LayerModel {
        if is_error {
            self.errored(resolved(parent, current))
        } else {
            self
        }
    }
}

/// The views of the records of a registry.
pub open spec fn record_models(records: Map<u64, SpanRecord>) -> Map<u64, RecordModel> {
    records.map_values(|record: SpanRecord| record@)
}

/// The layer that the host reports to.
pub struct DependencyLayer {
    records: CHashMap<u64, SpanRecord>,
    root_sr: SpanRecord,
    processor: DependencyProcessor,
}

impl View for DependencyLayer {
    type V = LayerModel;

    closed spec fn view(&self) -> LayerModel {
        LayerModel {
            open: record_models(open_spans(self.records)),
            root: self.root_sr@,
            stats: self.processor@,
        }
    }
}

impl DependencyLayer {
    /// Every record and the processor are well formed.
    pub closed spec fn wf(&self) -> bool {
        &&& forall|id: u64| #[trigger]
            open_spans(self.records).dom().contains(id) ==> open_spans(self.records)[id].wf()
        &&& self.root_sr.wf()
        &&& self.processor.wf()
    }

    /// A layer that has seen nothing, with a processor of its own, made at
    /// `creation_time`.
    pub fn construct_at(creation_time: Instant) -> (layer: DependencyLayer)
        ensures
            layer.wf(),
            layer@ == LayerModel::initial(creation_time),
    {
        let layer = DependencyLayer {
            records: registry_new(),
            root_sr: SpanRecord::at(1, ROOT_SPAN, creation_time),
            processor: DependencyProcessor::new(),
        };
        assert(layer@.open =~= Map::<u64, RecordModel>::empty());
        layer
    }

    /// A layer that has seen nothing, with a processor of its own, made
    /// now: the layer that `construct_at` makes for the reading of the
    /// clock.
    pub fn construct() -> (layer: DependencyLayer)
        ensures
            layer.wf(),
            layer@ == LayerModel::initial(layer@.root.creation_time),
    {
        DependencyLayer::construct_at(now())
    }

    /// The processor that this layer feeds.
    pub fn processor(&self) -> (processor: &DependencyProcessor)
        requires
            self.wf(),
        ensures
            processor.wf(),
            processor@ == self@.stats,
    {
        &self.processor
    }

    /// The record of the root context.
    pub fn root(&self) -> (root: &SpanRecord)
        requires
            self.wf(),
        ensures
            root.wf(),
            root@ == self@.root,
    {
        &self.root_sr
    }

    /// Whether the span `id` is open.
    pub fn is_open(&self, id: u64) -> (open: bool)
        ensures
            open == self@.open.dom().contains(id),
    {
        registry_name(&self.records, id).is_some()
    }

    /// Puts the span of `current_sr` under the span `parent_id`, if that
    /// is open, and says whether it was.
    fn stacked_span_id(&mut self, current_sr: &SpanRecord, parent_id: u64) -> (found: bool)
        requires
            old(self).wf(),
            current_sr.wf(),
        ensures
            final(self).wf(),
            found == old(self)@.open.dom().contains(parent_id),
            final(self)@ == (if found {
                old(self)@.stacked(current_sr@, parent_id)
            } else {
                old(self)@
            }),
    {
        let ghost before = open_spans(self.records);
        match registry_remove(&mut self.records, parent_id) {
            Some(mut parent_sr) => {
                Self::stacked_span(&mut self.processor, current_sr, &mut parent_sr);
                registry_insert(&mut self.records, parent_id, parent_sr);
                proof {
                    assert(open_spans(self.records) =~= before.insert(parent_id, parent_sr));
                    assert(self@.open =~= old(self)@.stacked(current_sr@, parent_id).open);
                }
                true
            },
            None => {
                proof {
                    assert(open_spans(self.records) =~= before);
                }
                false
            },
        }
    }

    /// Puts the span of `current_sr` under `parent_sr`: the processor is
    /// told what it followed, and the parent keeps a copy of its record.
    pub fn stacked_span(
        processor: &mut DependencyProcessor,
        current_sr: &SpanRecord,
        parent_sr: &mut SpanRecord,
    )
        requires
            old(processor).wf(),
            current_sr.wf(),
            old(parent_sr).wf(),
        ensures
            final(processor).wf(),
            final(parent_sr).wf(),
            final(processor)@ == old(processor)@.transition(
                old(parent_sr)@.name,
                state_of(old(parent_sr)@),
                current_sr@.name,
            ),
            final(parent_sr)@ == old(parent_sr)@.with_latest(current_sr@),
    {
        match &parent_sr.latest {
            Some(prev_sr) => {
                Self::record_follows_under(processor, current_sr, prev_sr, parent_sr);
            },
            None => {
                processor.record_span(current_sr, parent_sr);
            },
        }
        parent_sr.latest = Some(Box::new(current_sr.clone()));
    }

    /// Puts the span of `current_sr` under the root.
    fn rooted_span(&mut self, current_sr: &SpanRecord)
        requires
            old(self).wf(),
            current_sr.wf(),
        ensures
            final(self).wf(),
            final(self)@ == old(self)@.rooted(current_sr@),
    {
        Self::stacked_span(&mut self.processor, current_sr, &mut self.root_sr);
    }

    /// Tells the processor that the span of `current_sr` came after that
    /// of `prev_sr` under `parent_sr`.
    fn record_follows_under(
        processor: &mut DependencyProcessor,
        current_sr: &SpanRecord,
        prev_sr: &SpanRecord,
        parent_sr: &SpanRecord,
    )
        requires
            old(processor).wf(),
        ensures
            final(processor).wf(),
            final(processor)@ == old(processor)@.transition(
                parent_sr@.name,
                prev_sr@.name,
                current_sr@.name,
            ),
    {
        processor.record_span_follows(current_sr, prev_sr, parent_sr);
    }

    /// Observes the close of `current_sr` and, where it failed, puts its
    /// name under the span `parent_id`, or under the root where there is
    /// none. Says whether a span was named that is not open.
    fn record_close(&mut self, current_sr: &SpanRecord, parent_id: Option<u64>) -> (missing: bool)
        requires
            old(self).wf(),
            current_sr.wf(),
        ensures
            final(self).wf(),
            missing == (parent_id matches Some(p) && !old(self)@.open.dom().contains(p)),
            final(self)@.stats == old(self)@.stats.outcome(
                state_of(current_sr@),
                current_sr@,
                current_sr@.failing,
            ),
            final(self)@.root == (if current_sr@.failing && parent_id is None {
                old(self)@.root.with_failing(current_sr@.name)
            } else {
                old(self)@.root
            }),
            final(self)@.open == (if current_sr@.failing && !missing && parent_id is Some {
                old(self)@.open.insert(
                    parent_id->0,
                    old(self)@.open[parent_id->0].with_failing(current_sr@.name),
                )
            } else {
                old(self)@.open
            }),
    {
        let ghost before = open_spans(self.records);
        match parent_id {
            Some(pid) => match registry_remove(&mut self.records, pid) {
                Some(mut parent_sr) => {
                    Self::record_close_under(&mut self.processor, current_sr, &mut parent_sr);
                    registry_insert(&mut self.records, pid, parent_sr);
                    proof {
                        assert(open_spans(self.records) =~= before.insert(pid, parent_sr));
                        if current_sr@.failing {
                            assert(self@.open =~= old(self)@.open.insert(
                                pid,
                                old(self)@.open[pid].with_failing(current_sr@.name),
                            ));
                        } else {
                            assert(self@.open =~= old(self)@.open);
                        }
                    }
                    false
                },
                None => {
                    Self::record_outcome(&mut self.processor, current_sr);
                    proof {
                        assert(open_spans(self.records) =~= before);
                    }
                    true
                },
            },
            None => {
                Self::record_close_under(&mut self.processor, current_sr, &mut self.root_sr);
                false
            },
        }
    }

    /// Observes the close of `current_sr` and, where it failed, puts its
    /// name into the failing sub-spans of `parent_sr`.
    pub fn record_close_under(
        processor: &mut DependencyProcessor,
        current_sr: &SpanRecord,
        parent_sr: &mut SpanRecord,
    )
        requires
            old(processor).wf(),
            current_sr.wf(),
            old(parent_sr).wf(),
        ensures
            final(processor).wf(),
            final(parent_sr).wf(),
            final(processor)@ == old(processor)@.outcome(
                state_of(current_sr@),
                current_sr@,
                current_sr@.failing,
            ),
            final(parent_sr)@ == (if current_sr@.failing {
                old(parent_sr)@.with_failing(current_sr@.name)
            } else {
                old(parent_sr)@
            }),
    {
        Self::record_outcome(processor, current_sr);
        if current_sr.failing {
            parent_sr.failing_subspans.insert(current_sr.name.to_string());
        }
    }

    /// Tells the processor how the span of `current_sr` ended, and from
    /// which state.
    fn record_outcome(processor: &mut DependencyProcessor, current_sr: &SpanRecord)
        requires
            old(processor).wf(),
            current_sr.wf(),
        ensures
            final(processor).wf(),
            final(processor)@ == old(processor)@.outcome(
                state_of(current_sr@),
                current_sr@,
                current_sr@.failing,
            ),
    {
        if current_sr.failing {
            match &current_sr.latest {
                Some(latest_sr) => processor.record_span_fails_from(latest_sr, current_sr),
                None => processor.record_span_fails(current_sr),
            }
        } else {
            match &current_sr.latest {
                Some(latest_sr) => processor.record_span_succeeds_from(latest_sr, current_sr),
                None => processor.record_span_succeeds(current_sr),
            }
        }
    }

    /// Charges an error to the span `current_id`, and says whether that
    /// span is open.
    fn record_found_failure(&mut self, current_id: u64) -> (found: bool)
        requires
            old(self).wf(),
        ensures
            final(self).wf(),
            found == old(self)@.open.dom().contains(current_id),
            final(self)@ == old(self)@.errored(Some(current_id)),
    {
        let ghost before = open_spans(self.records);
        match registry_remove(&mut self.records, current_id) {
            Some(mut current_sr) => {
                current_sr.failing = true;
                registry_insert(&mut self.records, current_id, current_sr);
                proof {
                    assert(open_spans(self.records) =~= before.insert(current_id, current_sr));
                    assert(self@.open =~= old(self)@.errored(Some(current_id)).open);
                }
                true
            },
            None => {
                proof {
                    assert(open_spans(self.records) =~= before);
                }
                false
            },
        }
    }

    /// A span has opened now under the id `id`, with the name `name`.
    /// `parent` is the span that the host named as its parent, if it named
    /// one; `current` is the span that was current. This is `on_new_span_at`
    /// for the reading of the clock, which the new record keeps.
    pub fn on_new_span(
        &mut self,
        id: u64,
        name: &'static str,
        parent: Option<u64>,
        current: Option<u64>,
    ) -> (report: Anomalies)
        requires
            old(self).wf(),
        ensures
            final(self).wf(),
            final(self)@.open.dom().contains(id),
            final(self)@ == old(self)@.created(
                id,
                name@,
                final(self)@.open[id].creation_time,
                parent,
                current,
            ),
            report.parent_missing == (resolved(parent, current) matches Some(p)
                && !old(self)@.open.dom().contains(p)),
            report.duplicate_id == old(self)@.open.dom().contains(id),
            !report.unknown_span,
    {
        self.on_new_span_at(id, name, now(), parent, current)
    }

    /// A span has opened at `creation_time` under the id `id`, with the
    /// name `name`. `parent` is the span that the host named as its parent,
    /// if it named one; `current` is the span that was current.
    pub fn on_new_span_at(
        &mut self,
        id: u64,
        name: &'static str,
        creation_time: Instant,
        parent: Option<u64>,
        current: Option<u64>,
    ) -> (report: Anomalies)
        requires
            old(self).wf(),
        ensures
            final(self).wf(),
            final(self)@ == old(self)@.created(id, name@, creation_time, parent, current),
            report.parent_missing == (resolved(parent, current) matches Some(p)
                && !old(self)@.open.dom().contains(p)),
            report.duplicate_id == old(self)@.open.dom().contains(id),
            !report.unknown_span,
    {
        let span_record = SpanRecord::at(id, name, creation_time);
        let parent_missing = match parent {
            Some(parent_id) => !self.stacked_span_id(&span_record, parent_id),
            None => match current {
                Some(parent_id) => !self.stacked_span_id(&span_record, parent_id),
                None => {
                    self.rooted_span(&span_record);
                    false
                },
            },
        };
        let ghost linked_view = self@;
        let replaced = registry_insert(&mut self.records, id, span_record);
        proof {
            assert(self@.open =~= linked_view.open.insert(
                id,
                RecordModel::fresh(id, name@, creation_time),
            ));
            assert(linked_view.open.dom() =~= old(self)@.open.dom());
        }
        Anomalies { parent_missing, duplicate_id: replaced.is_some(), unknown_span: false }
    }

    /// The span `id` has closed. `current` is the span that was current.
    pub fn on_close(&mut self, id: u64, current: Option<u64>) -> (report: Anomalies)
        requires
            old(self).wf(),
        ensures
            final(self).wf(),
            final(self)@ == old(self)@.closed(id, current),
            report.unknown_span == !old(self)@.open.dom().contains(id),
            report.parent_missing == (old(self)@.open.dom().contains(id) && (current matches Some(p)
                && !old(self)@.open.remove(id).dom().contains(p))),
            !report.duplicate_id,
    {
        let ghost before = open_spans(self.records);
        match registry_remove(&mut self.records, id) {
            Some(sr) => {
                proof {
                    assert(self@.open =~= old(self)@.open.remove(id));
                }
                let parent_missing = self.record_close(&sr, current);
                Anomalies { parent_missing, duplicate_id: false, unknown_span: false }
            },
            None => {
                proof {
                    assert(open_spans(self.records) =~= before);
                }
                Anomalies { parent_missing: false, duplicate_id: false, unknown_span: true }
            },
        }
    }

    /// The span `span` is said to follow the span `follows`. `current` is
    /// the span that was current. Where either span is not open, nothing
    /// is recorded and nothing is reported.
    pub fn on_follows_from(&mut self, span: u64, follows: u64, current: Option<u64>)
        requires
            old(self).wf(),
        ensures
            final(self).wf(),
            final(self)@ == old(self)@.followed(span, follows, current),
    {
        if let Some(span_name) = registry_name(&self.records, span) {
            if let Some(follows_name) = registry_name(&self.records, follows) {
                let context_name = match current {
                    Some(parent_id) => match registry_name(&self.records, parent_id) {
                        Some(parent_name) => parent_name,
                        None => self.root_sr.name,
                    },
                    None => self.root_sr.name,
                };
                self.processor.record_transition(context_name, follows_name, span_name);
            }
        }
    }

    /// An event was recorded, at error level or not. `parent` is the span
    /// that the host named for it, if it named one; `current` is the span
    /// that was current.
    pub fn on_event(&mut self, is_error: bool, parent: Option<u64>, current: Option<u64>) -> (report:
        Anomalies)
        requires
            old(self).wf(),
        ensures
            final(self).wf(),
            final(self)@ == old(self)@.noted(is_error, parent, current),
            report.unknown_span == (is_error && (resolved(parent, current) matches Some(t)
                && !old(self)@.open.dom().contains(t))),
            !report.parent_missing,
            !report.duplicate_id,
    {
        let mut unknown_span = false;
        if is_error {
            match parent {
                Some(span_id) => {
                    unknown_span = !self.record_found_failure(span_id);
                },
                None => {
                    if let Some(span_id) = current {
                        unknown_span = !self.record_found_failure(span_id);
                    }
                },
            }
        }
        Anomalies { parent_missing: false, duplicate_id: false, unknown_span }
    }
}

impl LayerModel {
    /// The failing sub-spans of every record are listed in ascending order.
    pub open spec fn wf(self) -> bool {
        &&& ascending(self.root.failing_subspans)
        &&& forall|id: u64| #[trigger]
            self.open.dom().contains(id) ==> ascending(self.open[id].failing_subspans)
    }
}

impl DependencyLayer {
    /// What `wf` says of the state.
    pub proof fn lemma_wf(&self)
        requires
            self.wf(),
        ensures
            self@.wf(),
            self@.stats.wf(),
    {
        self.processor.lemma_wf();
        self.root_sr.failing_subspans.lemma_wf();
        assert forall|id: u64| #[trigger] self@.open.dom().contains(id) implies ascending(
            self@.open[id].failing_subspans,
        ) by {
            assert(open_spans(self.records).dom().contains(id));
            open_spans(self.records)[id].failing_subspans.lemma_wf();
        }
    }
}

/// Closing an open span to which no error was charged observes a success:
/// a transition of its context into the success state, and no failure
/// under its signature nor under the total. The records of the other spans
/// and of the root stay as they were, their failing sub-spans with them.
pub proof fn lemma_close_without_error(layer: LayerModel, id: u64, current: Option<u64>)
    requires
        layer.open.dom().contains(id),
        !layer.open[id].failing,
    ensures
        layer.closed(id, current).stats == layer.stats.outcome(
            state_of(layer.open[id]),
            layer.open[id],
            false,
        ),
        layer.closed(id, current).stats.markov == transition_observed_in(
            layer.stats.markov,
            layer.open[id].name,
            state_of(layer.open[id]),
            SUCCESS_STATE@,
        ),
        layer.closed(id, current).open == layer.open.remove(id),
        layer.closed(id, current).root == layer.root,
{
}

/// Charging an error to a span a second time changes nothing.
pub proof fn lemma_error_repeats(layer: LayerModel, target: Option<u64>)
    ensures
        layer.errored(target).errored(target) == layer.errored(target),
{
    let once = layer.errored(target);
    if let Some(t) = target {
        if layer.open.dom().contains(t) {
            assert(once.errored(target).open =~= once.open);
        }
    }
}

/// Closing an open span to which an error was charged, however often,
/// observes a failure and puts the name of the span into the failing
/// sub-spans of the open span `parent`: afterwards they hold that name at
/// one place only, and beside it what they held before.
pub proof fn lemma_close_with_error(layer: LayerModel, id: u64, parent: u64)
    requires
        layer.wf(),
        layer.open.dom().contains(id),
        layer.open.dom().contains(parent),
        parent != id,
        layer.open[id].failing,
    ensures
        layer.closed(id, Some(parent)).wf(),
        layer.closed(id, Some(parent)).stats == layer.stats.outcome(
            state_of(layer.open[id]),
            layer.open[id],
            true,
        ),
        layer.closed(id, Some(parent)).open.dom().contains(parent),
        named_once(
            layer.closed(id, Some(parent)).open[parent].failing_subspans,
            layer.open[parent].failing_subspans,
            layer.open[id].name,
        ),
{
    let after = layer.closed(id, Some(parent));
    let before = layer.open[parent].failing_subspans;
    lemma_with_key(before, layer.open[id].name);
    lemma_ascending_distinct(with_key(before, layer.open[id].name));
    assert forall|other: u64| #[trigger] after.open.dom().contains(other) implies ascending(
        after.open[other].failing_subspans,
    ) by {
        if other != parent {
            assert(layer.open.dom().contains(other));
        }
    }
}

/// The same where the span closes at the top level: its name enters the
/// failing sub-spans of the root.
pub proof fn lemma_close_with_error_at_root(layer: LayerModel, id: u64)
    requires
        layer.wf(),
        layer.open.dom().contains(id),
        layer.open[id].failing,
    ensures
        layer.closed(id, None).wf(),
        layer.closed(id, None).stats == layer.stats.outcome(
            state_of(layer.open[id]),
            layer.open[id],
            true,
        ),
        named_once(
            layer.closed(id, None).root.failing_subspans,
            layer.root.failing_subspans,
            layer.open[id].name,
        ),
{
    let after = layer.closed(id, None);
    let before = layer.root.failing_subspans;
    lemma_with_key(before, layer.open[id].name);
    lemma_ascending_distinct(with_key(before, layer.open[id].name));
    assert forall|other: u64| #[trigger] after.open.dom().contains(other) implies ascending(
        after.open[other].failing_subspans,
    ) by {
        assert(layer.open.dom().contains(other));
    }
}

/// `after` lists `name` at one place only, and beside it exactly what
/// `before` listed.
pub open spec fn named_once(after: Seq<Seq<char>>, before: Seq<Seq<char>>, name: Seq<char>) -> bool {
    &&& after.contains(name)
    &&& forall|i: int, j: int|
        0 <= i < after.len() && 0 <= j < after.len() && #[trigger] after[i] == name
            && #[trigger] after[j] == name ==> i == j
    &&& forall|other: Seq<char>|
        after.contains(other) <==> (before.contains(other) || other == name)
}

/// A follows relation that names a span that is not open, as one that has
/// closed already, changes nothing: neither estimator, nor any record.
pub proof fn lemma_follows_of_closed_span(
    layer: LayerModel,
    span: u64,
    follows: u64,
    current: Option<u64>,
)
    requires
        !layer.open.dom().contains(span) || !layer.open.dom().contains(follows),
    ensures
        layer.followed(span, follows, current) == layer,
{
}

/// Once a span has closed it is not open, so that a follows relation which
/// names it afterwards, on either side, changes nothing.
pub proof fn lemma_follows_after_close(
    layer: LayerModel,
    closed: u64,
    closed_under: Option<u64>,
    other: u64,
    current: Option<u64>,
)
    ensures
        !layer.closed(closed, closed_under).open.dom().contains(closed),
        layer.closed(closed, closed_under).followed(other, closed, current) == layer.closed(
            closed,
            closed_under,
        ),
        layer.closed(closed, closed_under).followed(closed, other, current) == layer.closed(
            closed,
            closed_under,
        ),
{
}

} // verus!
