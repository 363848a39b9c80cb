//! Spans that open and close one after the other under one parent, and
//! what the transition table shows of them.

use crate::dependency::resolved;
use crate::dependency::LayerModel;
use crate::markov::context_at;
use crate::markov::shares_by_context;
use crate::markov::shares_by_state;
use crate::markov::transition_observed;
use crate::markov::transition_observed_in;
use crate::markov::StateModel;
use crate::processor::end_state;
use crate::processor::state_of;
use crate::processor::INITIAL_STATE;
use crate::record::RecordModel;
use std::time::Instant;
use vstd::prelude::*;

verus! {

/// What the host reports of one span of a chain: how and when it opened,
/// and which span was current when it closed.
pub struct Sibling {
    pub id: u64,
    pub name: Seq<char>,
    pub creation_time: Instant,
    pub parent: Option<u64>,
    pub current: Option<u64>,
    pub closed_under: Option<u64>,
}

/// The state of a layer after the spans of `siblings` have each opened and
/// closed again, one after the other.
pub open spec fn after_siblings(start: LayerModel, siblings: Seq<Sibling>) -> LayerModel
    decreases siblings.len(),
{
    if siblings.len() == 0 {
        start
    } else {
        after_siblings(start, siblings.drop_last()).created(
            siblings.last().id,
            siblings.last().name,
            siblings.last().creation_time,
            siblings.last().parent,
            siblings.last().current,
        ).closed(siblings.last().id, siblings.last().closed_under)
    }
}

/// The record with which a span of a chain opens.
pub open spec fn record_at(sibling: Sibling) -> RecordModel {
    RecordModel::fresh(sibling.id, sibling.name, sibling.creation_time)
}

/// The record under which a chain runs: that of the open span `under`, or
/// that of the root.
pub open spec fn record_of(layer: LayerModel, under: Option<u64>) -> RecordModel {
    match under {
        Some(parent) => layer.open[parent],
        None => layer.root,
    }
}

/// A state that was visited once, and left for `next`.
pub open spec fn once(next: Seq<char>) -> StateModel {
    StateModel { visits: 1, next: Map::<Seq<char>, nat>::empty().insert(next, 1) }
}

/// The one share of a state that was visited once: all of it for `next`.
pub open spec fn certain(next: Seq<char>) -> Map<Seq<char>, (usize, usize)> {
    Map::<Seq<char>, (usize, usize)>::empty().insert(next, (1usize, 1usize))
}

/// What the chain is to be for the table of its context to show it alone.
/// All its spans open under `under`, which is an open span or, for a chain
/// at the top level, none. Nothing has opened under `under` before, and
/// nothing was recorded in a context of its name. The spans of the chain
/// differ in name from each other, from `under` and from the initial
/// state, and none of their ids is that of `under` or of an open span.
pub open spec fn chain_admitted(start: LayerModel, under: Option<u64>, siblings: Seq<Sibling>) -> bool {
    &&& under matches Some(parent) ==> start.open.dom().contains(parent)
    &&& record_of(start, under).latest is None
    &&& !start.stats.markov.dom().contains(record_of(start, under).name)
    &&& forall|i: int|
        0 <= i < siblings.len() ==> resolved(
            (#[trigger] siblings[i]).parent,
            siblings[i].current,
        ) == under && Some(siblings[i].id) != under && !start.open.dom().contains(siblings[i].id)
    &&& forall|i: int|
        0 <= i < siblings.len() ==> (#[trigger] siblings[i]).name != record_of(start, under).name
            && siblings[i].name != INITIAL_STATE@
    &&& forall|i: int, j: int|
        0 <= i < j < siblings.len() ==> (#[trigger] siblings[i]).name != (
        #[trigger] siblings[j]).name
}

/// The states of the chain's context while the chain runs: the initial
/// state led to the first span, and every span but the last to the one
/// after it, each once.
pub open spec fn chain_so_far(states: Map<Seq<char>, StateModel>, siblings: Seq<Sibling>) -> bool {
    &&& forall|key: Seq<char>| #[trigger]
        states.dom().contains(key) <==> siblings.len() > 0 && (key == INITIAL_STATE@
            || exists|j: int| 0 <= j < siblings.len() - 1 && (#[trigger] siblings[j]).name == key)
    &&& siblings.len() > 0 ==> states[INITIAL_STATE@] == once(siblings[0].name)
    &&& forall|j: int|
        0 <= j < siblings.len() - 1 ==> states[(#[trigger] siblings[j]).name] == once(
            siblings[j + 1].name,
        )
}

/// A state visited for the first time has all its share on what came next.
proof fn lemma_once(next: Seq<char>)
    ensures
        StateModel::zero().observed(next) == once(next),
        once(next).shares() == certain(next),
{
    assert(StateModel::zero().observed(next).next =~= once(next).next);
    assert(once(next).shares() =~= certain(next));
}

/// A transition in one context leaves the states of every other context
/// as they were.
proof fn lemma_transition_in(
    contexts: Map<Seq<char>, Map<Seq<char>, StateModel>>,
    context: Seq<char>,
    state: Seq<char>,
    next: Seq<char>,
    other: Seq<char>,
)
    ensures
        context_at(transition_observed_in(contexts, context, state, next), context)
            == transition_observed(context_at(contexts, context), state, next),
        other != context ==> context_at(
            transition_observed_in(contexts, context, state, next),
            other,
        ) == context_at(contexts, other),
{
}

/// A shorter chain is admitted where the longer one is.
proof fn lemma_admitted_shorter(start: LayerModel, under: Option<u64>, siblings: Seq<Sibling>)
    requires
        chain_admitted(start, under, siblings),
        siblings.len() > 0,
    ensures
        chain_admitted(start, under, siblings.drop_last()),
{
    let shorter = siblings.drop_last();
    assert forall|i: int| 0 <= i < shorter.len() implies resolved(
        (#[trigger] shorter[i]).parent,
        shorter[i].current,
    ) == under && Some(shorter[i].id) != under && !start.open.dom().contains(shorter[i].id) by {
        assert(shorter[i] == siblings[i]);
    }
    assert forall|i: int| 0 <= i < shorter.len() implies (#[trigger] shorter[i]).name != record_of(
        start,
        under,
    ).name && shorter[i].name != INITIAL_STATE@ by {
        assert(shorter[i] == siblings[i]);
    }
    assert forall|i: int, j: int| 0 <= i < j < shorter.len() implies (#[trigger] shorter[i]).name
        != (#[trigger] shorter[j]).name by {
        assert(shorter[i] == siblings[i] && shorter[j] == siblings[j]);
    }
}

/// The state from which the record of the chain goes on has not been
/// visited in the chain's context.
proof fn lemma_state_is_new(
    start: LayerModel,
    under: Option<u64>,
    siblings: Seq<Sibling>,
    states: Map<Seq<char>, StateModel>,
    record: RecordModel,
)
    requires
        chain_admitted(start, under, siblings),
        chain_so_far(states, siblings),
        state_of(record) == (if siblings.len() > 0 {
            siblings.last().name
        } else {
            INITIAL_STATE@
        }),
    ensures
        !states.dom().contains(state_of(record)),
{
    let n = siblings.len() as int;
    if n > 0 {
        assert(state_of(record) == siblings[n - 1].name);
        assert(siblings[n - 1].name != INITIAL_STATE@);
        if states.dom().contains(state_of(record)) {
            let j = choose|j: int|
                0 <= j < siblings.len() - 1 && (#[trigger] siblings[j]).name == state_of(record);
            assert(siblings[j].name != siblings[n - 1].name);
        }
    }
}

/// Where the chain stands after its spans have closed: the registry holds
/// the spans it held, the record of the chain remembers the last span, and
/// the chain's context holds the chain so far.
proof fn lemma_siblings(start: LayerModel, under: Option<u64>, siblings: Seq<Sibling>)
    requires
        chain_admitted(start, under, siblings),
    ensures
        after_siblings(start, siblings).open.dom() == start.open.dom(),
        record_of(after_siblings(start, siblings), under) == (if siblings.len() > 0 {
            record_of(start, under).with_latest(record_at(siblings.last()))
        } else {
            record_of(start, under)
        }),
        chain_so_far(
            context_at(after_siblings(start, siblings).stats.markov, record_of(start, under).name),
            siblings,
        ),
    decreases siblings.len(),
{
    let record = record_of(start, under);
    if siblings.len() == 0 {
        assert(context_at(start.stats.markov, record.name) == Map::<Seq<char>, StateModel>::empty());
    } else {
        let n = siblings.len() as int;
        let shorter = siblings.drop_last();
        let sibling = siblings.last();
        let name = sibling.name;
        let id = sibling.id;
        lemma_admitted_shorter(start, under, siblings);
        lemma_siblings(start, under, shorter);
        let before = after_siblings(start, shorter);
        let states0 = context_at(before.stats.markov, record.name);
        let state = state_of(record_of(before, under));
        assert(sibling == siblings[n - 1]);
        assert(resolved(sibling.parent, sibling.current) == under);
        assert(Some(id) != under && !start.open.dom().contains(id));
        assert(name != record.name);
        lemma_state_is_new(start, under, shorter, states0, record_of(before, under));
        let opened = before.created(
            id,
            name,
            sibling.creation_time,
            sibling.parent,
            sibling.current,
        );
        lemma_transition_in(before.stats.markov, record.name, state, name, name);
        lemma_once(name);
        let states1 = context_at(opened.stats.markov, record.name);
        assert(states1 == states0.insert(state, once(name)));
        let fresh = record_at(sibling);
        assert(opened.open.dom().contains(id));
        assert(opened.open[id] == fresh);
        let now = opened.closed(id, sibling.closed_under);
        assert(now == after_siblings(start, siblings));
        lemma_transition_in(
            opened.stats.markov,
            name,
            state_of(fresh),
            end_state(false),
            record.name,
        );
        let states2 = context_at(now.stats.markov, record.name);
        assert(states2 == states1);
        assert(now.open.dom() =~= start.open.dom());
        assert(record_of(now, under) == record.with_latest(fresh));
        assert(chain_so_far(states2, siblings)) by {
            assert forall|key: Seq<char>| #[trigger]
                states2.dom().contains(key) <==> siblings.len() > 0 && (key == INITIAL_STATE@
                    || exists|j: int|
                    0 <= j < siblings.len() - 1 && (#[trigger] siblings[j]).name == key) by {
                if states2.dom().contains(key) {
                    if key == state {
                        if n > 1 {
                            assert(siblings[n - 2].name == key);
                        }
                    } else {
                        assert(states0.dom().contains(key));
                        if key != INITIAL_STATE@ {
                            let j = choose|j: int|
                                0 <= j < shorter.len() - 1 && (#[trigger] shorter[j]).name == key;
                            assert(siblings[j].name == key);
                        }
                    }
                }
                if key == INITIAL_STATE@ {
                    if n > 1 {
                        assert(states0.dom().contains(key));
                    }
                } else if exists|j: int|
                    0 <= j < siblings.len() - 1 && (#[trigger] siblings[j]).name == key {
                    let j = choose|j: int|
                        0 <= j < siblings.len() - 1 && (#[trigger] siblings[j]).name == key;
                    if j < n - 2 {
                        assert(shorter[j].name == key);
                        assert(states0.dom().contains(key));
                    }
                }
            }
            if n > 1 {
                assert(shorter[0] == siblings[0]);
                assert(state == siblings[n - 2].name);
                assert(siblings[n - 2].name != INITIAL_STATE@);
            }
            assert forall|j: int| 0 <= j < siblings.len() - 1 implies states2[(
            #[trigger] siblings[j]).name] == once(siblings[j + 1].name) by {
                if j < n - 2 {
                    assert(shorter[j] == siblings[j]);
                    assert(shorter[j + 1] == siblings[j + 1]);
                    assert(siblings[j].name != siblings[n - 2].name);
                }
            }
        }
    }
}

/// What comes after the span at place `i` of a chain: the next span, or
/// `end` after the last. The place before the first is `-1`.
pub open spec fn chain_next(siblings: Seq<Sibling>, i: int, end: Seq<char>) -> Seq<char> {
    if i + 1 < siblings.len() {
        siblings[i + 1].name
    } else {
        end
    }
}

/// When spans open and close one after the other under one open span, and
/// then that span closes, the transition table of its context shows the
/// whole share of the initial state on the first of them, that of each on
/// the one after it, and that of the last on the state in which the parent
/// ended: success, or failure where an error was charged to it.
pub proof fn lemma_sibling_chain(
    start: LayerModel,
    parent: u64,
    siblings: Seq<Sibling>,
    current: Option<u64>,
)
    requires
        chain_admitted(start, Some(parent), siblings),
    ensures
        ({
            let end = after_siblings(start, siblings).closed(parent, current);
            let table = shares_by_context(end.stats.markov);
            let context = start.open[parent].name;
            let last = end_state(start.open[parent].failing);
            &&& table.dom().contains(context)
            &&& table[context].dom().contains(INITIAL_STATE@)
            &&& table[context][INITIAL_STATE@] == certain(chain_next(siblings, -1, last))
            &&& forall|i: int|
                0 <= i < siblings.len() ==> table[context].dom().contains(
                    (#[trigger] siblings[i]).name,
                ) && table[context][siblings[i].name] == certain(chain_next(siblings, i, last))
        }),
{
    let under = Some(parent);
    let record = start.open[parent];
    let n = siblings.len() as int;
    lemma_siblings(start, under, siblings);
    let before = after_siblings(start, siblings);
    let states0 = context_at(before.stats.markov, record.name);
    let state = state_of(before.open[parent]);
    let last = end_state(record.failing);
    assert(before.open.dom().contains(parent));
    lemma_state_is_new(start, under, siblings, states0, before.open[parent]);
    let end = before.closed(parent, current);
    lemma_transition_in(before.stats.markov, record.name, state, last, last);
    lemma_once(last);
    let states1 = context_at(end.stats.markov, record.name);
    assert(end.stats.markov.dom().contains(record.name));
    assert(states1 == states0.insert(state, once(last)));
    let table = shares_by_context(end.stats.markov);
    assert(table[record.name] == shares_by_state(states1));
    if n > 0 {
        assert(state == siblings[n - 1].name);
        assert(siblings[n - 1].name != INITIAL_STATE@);
        assert(states0.dom().contains(INITIAL_STATE@));
        lemma_once(siblings[0].name);
    }
    assert forall|i: int| 0 <= i < siblings.len() implies table[record.name].dom().contains(
        (#[trigger] siblings[i]).name,
    ) && table[record.name][siblings[i].name] == certain(chain_next(siblings, i, last)) by {
        if i < n - 1 {
            assert(siblings[i].name != siblings[n - 1].name);
            assert(states0.dom().contains(siblings[i].name));
            lemma_once(siblings[i + 1].name);
        }
    }
}

/// When spans open and close one after the other at the top level, the
/// transition table of the root context shows the whole share of the
/// initial state on the first of them, and that of each but the last on
/// the one after it. The root does not close, so the last leads nowhere
/// yet.
pub proof fn lemma_top_level_chain(start: LayerModel, siblings: Seq<Sibling>)
    requires
        chain_admitted(start, None, siblings),
        siblings.len() > 0,
    ensures
        ({
            let end = after_siblings(start, siblings);
            let table = shares_by_context(end.stats.markov);
            let context = start.root.name;
            &&& table.dom().contains(context)
            &&& table[context].dom().contains(INITIAL_STATE@)
            &&& table[context][INITIAL_STATE@] == certain(siblings[0].name)
            &&& !table[context].dom().contains(siblings.last().name)
            &&& forall|i: int|
                0 <= i < siblings.len() - 1 ==> table[context].dom().contains(
                    (#[trigger] siblings[i]).name,
                ) && table[context][siblings[i].name] == certain(siblings[i + 1].name)
        }),
{
    let record = start.root;
    let n = siblings.len() as int;
    lemma_siblings(start, None, siblings);
    let end = after_siblings(start, siblings);
    let states = context_at(end.stats.markov, record.name);
    assert(states.dom().contains(INITIAL_STATE@));
    assert(end.stats.markov.dom().contains(record.name));
    let table = shares_by_context(end.stats.markov);
    assert(table[record.name] == shares_by_state(states));
    lemma_once(siblings[0].name);
    lemma_state_is_new(start, None, siblings, states, end.root);
    assert forall|i: int| 0 <= i < siblings.len() - 1 implies table[record.name].dom().contains(
        (#[trigger] siblings[i]).name,
    ) && table[record.name][siblings[i].name] == certain(siblings[i + 1].name) by {
        assert(states.dom().contains(siblings[i].name));
        lemma_once(siblings[i + 1].name);
    }
}

} // verus!
