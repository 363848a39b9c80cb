//! Online estimators of what follows what: for every context, and every
//! state seen in it, how often each next state came.
//!
//! The estimators nest: a context leads to the states seen in it, a state
//! to the next states seen after it, a next state to its count.

use crate::entries::distinct;
use crate::entries::holds_range;
use crate::entries::lemma_entry_at;
use crate::entries::lemma_holds_all;
use crate::entries::lemma_holds_more;
use crate::entries::lemma_push_new;
use crate::entries::lemma_update_at;
use crate::entries::map_of;
use crate::snapshot::Snapshot;
use crate::snapshot::lemma_ascending_distinct;
use crate::snapshot::three_level;
use crate::snapshot::three_level_wf;
use crate::snapshot::two_level;
use crate::snapshot::two_level_wf;
use crate::table::Table;
use crate::text::texts;
use vstd::prelude::*;

verus! {

/// What has been counted at one state: the visits, and for every next
/// state how many of the visits led there.
pub struct StateModel {
    pub visits: nat,
    pub next: Map<Seq<char>, nat>,
}

/// The count of `key`, which is zero for a next state never seen.
pub open spec fn count_at(counts: Map<Seq<char>, nat>, key: Seq<char>) -> nat {
    if counts.dom().contains(key) {
        counts[key]
    } else {
        0
    }
}

/// The counts of `keys` added up.
pub open spec fn sum_over(counts: Map<Seq<char>, nat>, keys: Seq<Seq<char>>) -> nat
    decreases keys.len(),
{
    if keys.len() == 0 {
        0
    } else {
        sum_over(counts, keys.drop_last()) + counts[keys.last()]
    }
}

/// `keys` lists every next state of `counts`, each once.
pub open spec fn lists_all<V>(counts: Map<Seq<char>, V>, keys: Seq<Seq<char>>) -> bool {
    &&& distinct(keys)
    &&& forall|key: Seq<char>| keys.contains(key) <==> counts.dom().contains(key)
}

/// The first components of the shares of `keys` added up.
pub open spec fn sum_of_shares(shares: Map<Seq<char>, (usize, usize)>, keys: Seq<Seq<char>>) -> nat
    decreases keys.len(),
{
    if keys.len() == 0 {
        0
    } else {
        sum_of_shares(shares, keys.drop_last()) + shares[keys.last()].0 as nat
    }
}

/// A list of counts added up.
pub open spec fn total_of(counts: Seq<usize>) -> nat
    decreases counts.len(),
{
    if counts.len() == 0 {
        0
    } else {
        total_of(counts.drop_last()) + counts.last() as nat
    }
}

/// Changing one count changes the total by as much.
proof fn lemma_total_update(counts: Seq<usize>, at: int, count: usize)
    requires
        0 <= at < counts.len(),
    ensures
        total_of(counts.update(at, count)) + counts[at] == total_of(counts) + count,
    decreases counts.len(),
{
    let changed = counts.update(at, count);
    if at == counts.len() - 1 {
        assert(changed.drop_last() =~= counts.drop_last());
    } else {
        lemma_total_update(counts.drop_last(), at, count);
        assert(changed.drop_last() =~= counts.drop_last().update(at, count));
    }
}

/// One more count adds to the total.
proof fn lemma_total_push(counts: Seq<usize>, count: usize)
    ensures
        total_of(counts.push(count)) == total_of(counts) + count,
{
    assert(counts.push(count).drop_last() =~= counts);
}

/// The sum over some keys is the same in two maps that agree on them.
proof fn lemma_sum_agrees(a: Map<Seq<char>, nat>, b: Map<Seq<char>, nat>, keys: Seq<Seq<char>>)
    requires
        forall|i: int| 0 <= i < keys.len() ==> a[#[trigger] keys[i]] == b[keys[i]],
    ensures
        sum_over(a, keys) == sum_over(b, keys),
    decreases keys.len(),
{
    if keys.len() > 0 {
        let front = keys.drop_last();
        assert forall|i: int| 0 <= i < front.len() implies a[#[trigger] front[i]] == b[front[i]] by {
            assert(front[i] == keys[i]);
        }
        lemma_sum_agrees(a, b, front);
        assert(keys.last() == keys[keys.len() - 1]);
    }
}

/// Taking one key out of the list takes its count out of the sum.
proof fn lemma_sum_without(counts: Map<Seq<char>, nat>, keys: Seq<Seq<char>>, at: int)
    requires
        0 <= at < keys.len(),
    ensures
        sum_over(counts, keys) == sum_over(counts, keys.remove(at)) + counts[keys[at]],
    decreases keys.len(),
{
    if at == keys.len() - 1 {
        assert(keys.remove(at) =~= keys.drop_last());
    } else {
        lemma_sum_without(counts, keys.drop_last(), at);
        assert(keys.remove(at).drop_last() =~= keys.drop_last().remove(at));
        assert(keys.remove(at).last() == keys.last());
    }
}

/// The counts of a map add up to the same in whatever order its keys are
/// listed.
pub proof fn lemma_sum_any_order(counts: Map<Seq<char>, nat>, a: Seq<Seq<char>>, b: Seq<Seq<char>>)
    requires
        lists_all(counts, a),
        lists_all(counts, b),
    ensures
        sum_over(counts, a) == sum_over(counts, b),
    decreases a.len(),
{
    if a.len() == 0 {
        if b.len() > 0 {
            assert(b.contains(b[0]));
            assert(a.contains(b[0]));
        }
    } else {
        let key = a.last();
        assert(a.contains(key));
        assert(b.contains(key));
        let at = b.index_of(key);
        let a0 = a.drop_last();
        let b0 = b.remove(at);
        let rest = counts.remove(key);
        assert(lists_all(rest, a0)) by {
            assert forall|i: int, j: int|
                0 <= i < a0.len() && 0 <= j < a0.len() && #[trigger] a0[i] == #[trigger] a0[j]
                implies i == j by {
                assert(a[i] == a[j]);
            }
            assert forall|other: Seq<char>| a0.contains(other) <==> rest.dom().contains(other) by {
                if a0.contains(other) {
                    let i = a0.index_of(other);
                    assert(a[i] == other);
                    assert(a.contains(other));
                    assert(a[a.len() - 1] == key);
                }
                if rest.dom().contains(other) {
                    assert(a.contains(other));
                    let i = a.index_of(other);
                    assert(a0[i] == other);
                }
            }
        }
        assert(lists_all(rest, b0)) by {
            assert forall|i: int, j: int|
                0 <= i < b0.len() && 0 <= j < b0.len() && #[trigger] b0[i] == #[trigger] b0[j]
                implies i == j by {
                let i1 = if i < at { i } else { i + 1 };
                let j1 = if j < at { j } else { j + 1 };
                assert(b[i1] == b[j1]);
            }
            assert forall|other: Seq<char>| b0.contains(other) <==> rest.dom().contains(other) by {
                if b0.contains(other) {
                    let i = b0.index_of(other);
                    let i1 = if i < at { i } else { i + 1 };
                    assert(b[i1] == other);
                    assert(b.contains(other));
                }
                if rest.dom().contains(other) {
                    assert(b.contains(other));
                    let i = b.index_of(other);
                    if i < at {
                        assert(b0[i] == other);
                    } else {
                        assert(b0[i - 1] == other);
                    }
                }
            }
        }
        lemma_sum_any_order(rest, a0, b0);
        assert forall|i: int| 0 <= i < a0.len() implies counts[#[trigger] a0[i]] == rest[a0[i]] by {
            assert(a0.contains(a0[i]));
        }
        lemma_sum_agrees(counts, rest, a0);
        assert forall|i: int| 0 <= i < b0.len() implies counts[#[trigger] b0[i]] == rest[b0[i]] by {
            assert(b0.contains(b0[i]));
        }
        lemma_sum_agrees(counts, rest, b0);
        lemma_sum_without(counts, b, at);
        assert(b[at] == key);
        assert(sum_over(counts, a) == sum_over(counts, a0) + counts[key]);
        assert(sum_over(counts, b) == sum_over(counts, b0) + counts[key]);
    }
}

/// The counts of a list of entries add up to the same as the counts of the
/// map that the entries stand for.
proof fn lemma_sum_of_entries(keys: Seq<Seq<char>>, counts: Seq<usize>)
    requires
        keys.len() == counts.len(),
        distinct(keys),
    ensures
        lists_all(map_of(keys, count_list(counts)), keys),
        sum_over(map_of(keys, count_list(counts)), keys) == total_of(counts),
    decreases keys.len(),
{
    let whole = map_of(keys, count_list(counts));
    if keys.len() > 0 {
        let keys0 = keys.drop_last();
        let counts0 = counts.drop_last();
        let front = map_of(keys0, count_list(counts0));
        assert(distinct(keys0)) by {
            assert forall|i: int, j: int|
                0 <= i < keys0.len() && 0 <= j < keys0.len() && #[trigger] keys0[i]
                    == #[trigger] keys0[j] implies i == j by {
                assert(keys[i] == keys[j]);
            }
        }
        lemma_sum_of_entries(keys0, counts0);
        assert forall|i: int| 0 <= i < keys0.len() implies whole[#[trigger] keys0[i]]
            == front[keys0[i]] by {
            lemma_entry_at(keys, count_list(counts), i);
            lemma_entry_at(keys0, count_list(counts0), i);
            assert(keys0[i] == keys[i]);
        }
        lemma_sum_agrees(whole, front, keys0);
        lemma_entry_at(keys, count_list(counts), keys.len() - 1);
    }
}

/// The shares of a well-formed state add up to its visits in whatever
/// order the next states are listed, and each is a share of the visits:
/// the shares of one state are a distribution.
pub proof fn lemma_shares_add_up(state: StateModel, keys: Seq<Seq<char>>)
    requires
        state.wf(),
        lists_all(state.shares(), keys),
    ensures
        sum_of_shares(state.shares(), keys) == state.visits,
        forall|key: Seq<char>| #[trigger]
            state.shares().dom().contains(key) ==> state.shares()[key].1 == state.visits && 0
                < state.shares()[key].0 <= state.visits,
{
    let witness = choose|listed: Seq<Seq<char>>|
        lists_all(state.next, listed) && #[trigger] sum_over(state.next, listed) == state.visits;
    assert(lists_all(state.next, keys));
    lemma_sum_any_order(state.next, witness, keys);
    assert forall|i: int| 0 <= i < keys.len() implies state.next.dom().contains(
        #[trigger] keys[i],
    ) by {
        assert(keys.contains(keys[i]));
    }
    lemma_sum_of_shares(state, keys, keys.len() as int);
    assert(keys.take(keys.len() as int) =~= keys);
}

/// In the summary of a well-formed state, the shares as they are listed
/// add up to the visits of the state, each of them a share of those
/// visits.
pub proof fn lemma_summary_adds_up(summary: Snapshot<(usize, usize)>, state: StateModel)
    requires
        summary.wf(),
        summary@ == state.shares(),
        state.wf(),
    ensures
        sum_of_shares(summary@, summary.keys()) == state.visits,
        forall|i: int|
            0 <= i < summary.values().len() ==> (#[trigger] summary.values()[i]).1 == state.visits
                && 0 < summary.values()[i].0 <= state.visits,
{
    lemma_ascending_distinct(summary.keys());
    lemma_shares_add_up(state, summary.keys());
    assert forall|i: int| 0 <= i < summary.values().len() implies (
    #[trigger] summary.values()[i]).1 == state.visits && 0 < summary.values()[i].0
        <= state.visits by {
        lemma_entry_at(summary.keys(), summary.values(), i);
    }
}

/// Every row of the transition table of well-formed contexts is a
/// distribution: the state of the row was visited at least once, each
/// share of the row is a part of those visits, and the shares add up to
/// all of them, in whatever order the next states are listed.
pub proof fn lemma_row_is_distribution(
    contexts: Map<Seq<char>, Map<Seq<char>, StateModel>>,
    context: Seq<char>,
    state: Seq<char>,
    keys: Seq<Seq<char>>,
)
    requires
        contexts_wf(contexts),
        shares_by_context(contexts).dom().contains(context),
        shares_by_context(contexts)[context].dom().contains(state),
        lists_all(shares_by_context(contexts)[context][state], keys),
    ensures
        contexts.dom().contains(context),
        contexts[context].dom().contains(state),
        contexts[context][state].visits >= 1,
        keys.len() >= 1,
        sum_of_shares(shares_by_context(contexts)[context][state], keys)
            == contexts[context][state].visits,
        forall|key: Seq<char>| #[trigger]
            shares_by_context(contexts)[context][state].dom().contains(key) ==> {
                &&& shares_by_context(contexts)[context][state][key].1
                    == contexts[context][state].visits
                &&& 1 <= shares_by_context(contexts)[context][state][key].0
                    <= contexts[context][state].visits
            },
{
    let model = contexts[context][state];
    assert(contexts.dom().contains(context));
    assert(contexts[context].dom().contains(state));
    assert(shares_by_context(contexts)[context][state] == model.shares());
    lemma_shares_add_up(model, keys);
    if keys.len() == 0 {
        assert(sum_of_shares(model.shares(), keys) == 0);
    }
}

/// The shares of the first keys of a list add up to their counts.
proof fn lemma_sum_of_shares(state: StateModel, keys: Seq<Seq<char>>, n: int)
    requires
        state.wf(),
        0 <= n <= keys.len(),
        forall|i: int| 0 <= i < keys.len() ==> state.next.dom().contains(#[trigger] keys[i]),
    ensures
        sum_of_shares(state.shares(), keys.take(n)) == sum_over(state.next, keys.take(n)),
    decreases n,
{
    if n > 0 {
        lemma_sum_of_shares(state, keys, n - 1);
        assert(keys.take(n).drop_last() =~= keys.take(n - 1));
        assert(keys.take(n).last() == keys[n - 1]);
        assert(state.next.dom().contains(keys[n - 1]));
    }
}

impl StateModel {
    /// Nothing observed yet.
    pub open spec fn zero() -> StateModel {
        StateModel { visits: 0, next: Map::empty() }
    }

    /// The model after one more visit, which led to `next_state`. A state
    /// that has reached `usize::MAX` visits takes no more.
    pub open spec fn observed(self, next_state: Seq<char>) -> StateModel {
        if self.visits < usize::MAX {
            StateModel {
                visits: self.visits + 1,
                next: self.next.insert(next_state, count_at(self.next, next_state) + 1),
            }
        } else {
            self
        }
    }

    /// Every next state that is there was seen, and the counts of the next
    /// states add up to the visits: every visit led somewhere.
    pub open spec fn wf(self) -> bool {
        &&& self.visits <= usize::MAX
        &&& forall|key: Seq<char>| #[trigger]
            self.next.dom().contains(key) ==> 0 < self.next[key] <= self.visits
        &&& exists|keys: Seq<Seq<char>>|
            lists_all(self.next, keys) && #[trigger] sum_over(self.next, keys) == self.visits
    }

    /// The summary of one state: for every next state its count and the
    /// visits of the state, the share of the visits that led there.
    pub open spec fn shares(self) -> Map<Seq<char>, (usize, usize)> {
        self.next.map_values(|count: nat| (count as usize, self.visits as usize))
    }
}

/// The model of `key`, which is empty for a state never visited.
pub open spec fn state_at(states: Map<Seq<char>, StateModel>, key: Seq<char>) -> StateModel {
    if states.dom().contains(key) {
        states[key]
    } else {
        StateModel::zero()
    }
}

/// The states after one more visit of `state`, which led to `next_state`.
pub open spec fn transition_observed(
    states: Map<Seq<char>, StateModel>,
    state: Seq<char>,
    next_state: Seq<char>,
) -> Map<Seq<char>, StateModel> {
    states.insert(state, state_at(states, state).observed(next_state))
}

/// The summary of a set of states.
pub open spec fn shares_by_state(states: Map<Seq<char>, StateModel>) -> Map<
    Seq<char>,
    Map<Seq<char>, (usize, usize)>,
> {
    states.map_values(|state: StateModel| state.shares())
}

/// Every state that is there is well formed and was visited at least
/// once: a state enters with its first visit.
pub open spec fn states_wf(states: Map<Seq<char>, StateModel>) -> bool {
    forall|key: Seq<char>| #[trigger]
        states.dom().contains(key) ==> states[key].wf() && states[key].visits >= 1
}

/// The states of `key`, none for a context never seen.
pub open spec fn context_at(
    contexts: Map<Seq<char>, Map<Seq<char>, StateModel>>,
    key: Seq<char>,
) -> Map<Seq<char>, StateModel> {
    if contexts.dom().contains(key) {
        contexts[key]
    } else {
        Map::empty()
    }
}

/// The contexts after one more visit of `state` in `context`, which led
/// to `next_state`.
pub open spec fn transition_observed_in(
    contexts: Map<Seq<char>, Map<Seq<char>, StateModel>>,
    context: Seq<char>,
    state: Seq<char>,
    next_state: Seq<char>,
) -> Map<Seq<char>, Map<Seq<char>, StateModel>> {
    contexts.insert(context, transition_observed(context_at(contexts, context), state, next_state))
}

/// The summary of a set of contexts: the transition table.
pub open spec fn shares_by_context(contexts: Map<Seq<char>, Map<Seq<char>, StateModel>>) -> Map<
    Seq<char>,
    Map<Seq<char>, Map<Seq<char>, (usize, usize)>>,
> {
    contexts.map_values(|states: Map<Seq<char>, StateModel>| shares_by_state(states))
}

/// Every context that is there holds well-formed states.
pub open spec fn contexts_wf(contexts: Map<Seq<char>, Map<Seq<char>, StateModel>>) -> bool {
    forall|key: Seq<char>| #[trigger] contexts.dom().contains(key) ==> states_wf(contexts[key])
}

/// A list of counts as natural numbers.
pub open spec fn count_list(counts: Seq<usize>) -> Seq<nat> {
    Seq::new(counts.len(), |i: int| counts[i] as nat)
}

/// The shares of a list of counts among `visits`.
pub open spec fn share_list(counts: Seq<usize>, visits: usize) -> Seq<(usize, usize)> {
    Seq::new(counts.len(), |i: int| (counts[i], visits))
}

/// The transitions out of one state.
#[derive(Debug)]
pub struct StateEstimator {
    state_count: usize,
    transition_count: Table<usize>,
}

impl View for StateEstimator {
    type V = StateModel;

    closed spec fn view(&self) -> StateModel {
        StateModel {
            visits: self.state_count as nat,
            next: map_of(self.transition_count.keys(), count_list(self.transition_count.values())),
        }
    }
}

impl Default for StateEstimator {
    fn default() -> (fresh: Self)
        ensures
            fresh.wf(),
            fresh@ == StateModel::zero(),
    {
        let fresh = StateEstimator { state_count: 0, transition_count: Table::new() };
        assert(fresh@.next =~= Map::<Seq<char>, nat>::empty());
        fresh
    }
}

impl StateEstimator {
    /// A table of counts, none of them zero or above the visits.
    pub closed spec fn wf(&self) -> bool {
        &&& self.transition_count.wf()
        &&& forall|i: int|
            0 <= i < self.transition_count.values().len() ==> 0 < (
            #[trigger] self.transition_count.values()[i]) <= self.state_count
        &&& total_of(self.transition_count.values()) == self.state_count
    }

    /// What `wf` says of the model.
    pub proof fn lemma_wf(&self)
        requires
            self.wf(),
        ensures
            self@.wf(),
    {
        let keys = self.transition_count.keys();
        let counts = self.transition_count.values();
        assert forall|key: Seq<char>| #[trigger] self@.next.dom().contains(key) implies 0
            < self@.next[key] <= self@.visits by {
            let i = keys.index_of(key);
            assert(keys.contains(key));
            assert(count_list(counts)[i] == counts[i]);
        }
        lemma_sum_of_entries(keys, counts);
    }

    /// A copy that counts on its own from here on.
    pub fn clone(&self) -> (copy: Self)
        requires
            self.wf(),
        ensures
            copy.wf(),
            copy@ == self@,
    {
        let mut copy = StateEstimator {
            state_count: self.state_count,
            transition_count: Table::new(),
        };
        let n = self.transition_count.len();
        let mut i: usize = 0;
        proof {
            assert(copy.transition_count.keys() =~= self.transition_count.keys().take(0));
            assert(copy.transition_count.values() =~= self.transition_count.values().take(0));
        }
        while i < n
            invariant
                self.wf(),
                n == self.transition_count.keys().len(),
                i <= n,
                copy.state_count == self.state_count,
                copy.transition_count.wf(),
                copy.transition_count.keys() == self.transition_count.keys().take(i as int),
                copy.transition_count.values() == self.transition_count.values().take(i as int),
            decreases n - i,
        {
            let key = self.transition_count.key_at(i).clone();
            let count = *self.transition_count.value_at(i);
            proof {
                let keys = self.transition_count.keys();
                if copy.transition_count.keys().contains(key@) {
                    let j = copy.transition_count.keys().index_of(key@);
                    assert(keys[j] == keys[i as int]);
                }
                assert(keys.take(i as int).push(keys[i as int]) =~= keys.take(i + 1));
                assert(self.transition_count.values().take(i as int).push(count)
                    =~= self.transition_count.values().take(i + 1));
            }
            copy.transition_count.push_new(key, count);
            i += 1;
        }
        proof {
            assert(self.transition_count.keys().take(n as int) =~= self.transition_count.keys());
            assert(self.transition_count.values().take(n as int)
                =~= self.transition_count.values());
        }
        copy
    }

    /// Counts a visit of this state that led to `next_state`.
    pub fn observe(&mut self, next_state: String)
        requires
            old(self).wf(),
        ensures
            final(self).wf(),
            final(self)@ == old(self)@.observed(next_state@),
    {
        if self.state_count < usize::MAX {
            self.state_count += 1;
            let ghost keys = self.transition_count.keys();
            let ghost counts = self.transition_count.values();
            match self.transition_count.find(next_state.as_str()) {
                Some(at) => {
                    proof {
                        lemma_entry_at(keys, count_list(counts), at as int);
                        lemma_update_at(
                            keys,
                            count_list(counts),
                            at as int,
                            (counts[at as int] + 1) as nat,
                        );
                        assert(count_list(counts.update(at as int, (counts[at as int] + 1) as usize))
                            =~= count_list(counts).update(at as int, (counts[at as int] + 1) as nat));
                        lemma_total_update(counts, at as int, (counts[at as int] + 1) as usize);
                    }
                    let count = self.transition_count.value_at_mut(at);
                    *count += 1;
                },
                None => {
                    proof {
                        lemma_push_new(keys, count_list(counts), next_state@, 1nat);
                        assert(count_list(counts.push(1usize)) =~= count_list(counts).push(1nat));
                        lemma_total_push(counts, 1);
                    }
                    self.transition_count.push_new(next_state, 1);
                },
            }
        }
    }

    /// For every next state seen, its count and the visits of this state,
    /// in the order of the keys.
    pub fn summarize(self) -> (summary: Snapshot<(usize, usize)>)
        requires
            self.wf(),
        ensures
            summary.wf(),
            summary@ == self@.shares(),
    {
        let ghost keys0 = self.transition_count.keys();
        let ghost counts0 = self.transition_count.values();
        let visits = self.state_count;
        let ghost shares0 = share_list(counts0, visits);
        let (mut keys, mut counts) = self.transition_count.into_parts();
        let mut summary: Snapshot<(usize, usize)> = Snapshot::new();
        while keys.len() > 0
            invariant
                distinct(keys0),
                keys0.len() == counts0.len(),
                shares0 == share_list(counts0, visits),
                keys.len() == counts.len(),
                keys.len() <= keys0.len(),
                texts(keys@) == keys0.take(keys.len() as int),
                counts@ == counts0.take(keys.len() as int),
                summary.wf(),
                holds_range(summary@, keys0, shares0, keys.len() as int, keys0.len() as int),
            decreases keys.len(),
        {
            let ghost at = keys.len() - 1;
            let key = keys.pop().unwrap();
            let count = counts.pop().unwrap();
            proof {
                assert(key@ == keys0.take(at + 1)[at]);
                assert(count == counts0.take(at + 1)[at]);
                lemma_holds_more(summary@, keys0, shares0, at + 1, keys0.len() as int, at);
                assert(texts(keys@) =~= keys0.take(at));
                assert(counts@ =~= counts0.take(at));
            }
            summary.insert(key, (count, visits));
        }
        proof {
            lemma_holds_all(summary@, keys0, shares0);
            let left = map_of(keys0, shares0);
            let right = self@.shares();
            assert forall|key: Seq<char>| left.dom().contains(key) implies left[key] == right[key] by {
                let i = keys0.index_of(key);
                assert(keys0.contains(key));
                assert(count_list(counts0)[i] == counts0[i]);
            }
            assert(left =~= right);
        }
        summary
    }
}

/// The views of a list of state estimators.
pub open spec fn state_list(models: Seq<StateEstimator>) -> Seq<StateModel> {
    Seq::new(models.len(), |i: int| models[i]@)
}

/// The summaries of a list of states.
pub open spec fn shares_list(states: Seq<StateModel>) -> Seq<Map<Seq<char>, (usize, usize)>> {
    Seq::new(states.len(), |i: int| states[i].shares())
}

/// The transitions between the states of one context.
#[derive(Debug)]
pub struct MarkovEstimator {
    state_models: Table<StateEstimator>,
}

impl View for MarkovEstimator {
    type V = Map<Seq<char>, StateModel>;

    closed spec fn view(&self) -> Map<Seq<char>, StateModel> {
        map_of(self.state_models.keys(), state_list(self.state_models.values()))
    }
}

impl Default for MarkovEstimator {
    fn default() -> (fresh: Self)
        ensures
            fresh.wf(),
            fresh@ == Map::<Seq<char>, StateModel>::empty(),
    {
        let fresh = MarkovEstimator { state_models: Table::new() };
        assert(fresh@ =~= Map::<Seq<char>, StateModel>::empty());
        fresh
    }
}

impl MarkovEstimator {
    /// A table of well-formed state estimators, each of a state visited
    /// at least once.
    pub closed spec fn wf(&self) -> bool {
        &&& self.state_models.wf()
        &&& forall|i: int|
            0 <= i < self.state_models.values().len() ==> (#[trigger] self.state_models.values()[i]).wf()
                && self.state_models.values()[i]@.visits >= 1
    }

    /// What `wf` says of the model.
    pub proof fn lemma_wf(&self)
        requires
            self.wf(),
        ensures
            states_wf(self@),
    {
        let keys = self.state_models.keys();
        let models = self.state_models.values();
        assert forall|key: Seq<char>| #[trigger] self@.dom().contains(key) implies self@[key].wf()
            && self@[key].visits >= 1 by {
            let i = keys.index_of(key);
            assert(keys.contains(key));
            assert(state_list(models)[i] == models[i]@);
            models[i].lemma_wf();
        }
    }

    /// A copy that counts on its own from here on.
    pub fn clone(&self) -> (copy: Self)
        requires
            self.wf(),
        ensures
            copy.wf(),
            copy@ == self@,
    {
        let mut copy = MarkovEstimator { state_models: Table::new() };
        let n = self.state_models.len();
        let mut i: usize = 0;
        proof {
            assert(copy.state_models.keys() =~= self.state_models.keys().take(0));
        }
        while i < n
            invariant
                self.wf(),
                n == self.state_models.keys().len(),
                i <= n,
                copy.wf(),
                copy.state_models.keys() == self.state_models.keys().take(i as int),
                copy.state_models.values().len() == i,
                forall|j: int|
                    0 <= j < i ==> (#[trigger] copy.state_models.values()[j])@
                        == self.state_models.values()[j]@,
            decreases n - i,
        {
            let key = self.state_models.key_at(i).clone();
            let model = self.state_models.value_at(i).clone();
            proof {
                let keys = self.state_models.keys();
                if copy.state_models.keys().contains(key@) {
                    let j = copy.state_models.keys().index_of(key@);
                    assert(keys[j] == keys[i as int]);
                }
                assert(keys.take(i as int).push(keys[i as int]) =~= keys.take(i + 1));
            }
            copy.state_models.push_new(key, model);
            i += 1;
        }
        proof {
            assert(self.state_models.keys().take(n as int) =~= self.state_models.keys());
            assert(state_list(copy.state_models.values()) =~= state_list(
                self.state_models.values(),
            ));
        }
        copy
    }

    /// Counts a visit of `state` that led to `next_state`.
    pub fn observe(&mut self, state: String, next_state: String)
        requires
            old(self).wf(),
        ensures
            final(self).wf(),
            final(self)@ == transition_observed(old(self)@, state@, next_state@),
    {
        let ghost keys = self.state_models.keys();
        let ghost models = self.state_models.values();
        match self.state_models.find(state.as_str()) {
            Some(at) => {
                proof {
                    lemma_entry_at(keys, state_list(models), at as int);
                    assert forall|model: StateEstimator| #[trigger]
                        map_of(keys, state_list(models.update(at as int, model))) == map_of(
                            keys,
                            state_list(models),
                        ).insert(keys[at as int], model@) by {
                        lemma_update_at(keys, state_list(models), at as int, model@);
                        assert(state_list(models.update(at as int, model)) =~= state_list(
                            models,
                        ).update(at as int, model@));
                    }
                }
                let model = self.state_models.value_at_mut(at);
                model.observe(next_state);
            },
            None => {
                let mut model = StateEstimator::default();
                model.observe(next_state);
                proof {
                    lemma_push_new(keys, state_list(models), state@, model@);
                    assert(state_list(models.push(model)) =~= state_list(models).push(model@));
                }
                self.state_models.push_new(state, model);
            },
        }
    }

    /// The shares of every state visited, each level in the order of its
    /// keys.
    pub fn summarize(self) -> (summary: Snapshot<Snapshot<(usize, usize)>>)
        requires
            self.wf(),
        ensures
            two_level_wf(summary),
            two_level(summary) == shares_by_state(self@),
    {
        let ghost keys0 = self.state_models.keys();
        let ghost models0 = self.state_models.values();
        let ghost shares0 = shares_list(state_list(models0));
        let (mut keys, mut models) = self.state_models.into_parts();
        let mut summary: Snapshot<Snapshot<(usize, usize)>> = Snapshot::new();
        proof {
            assert(two_level(summary).dom() =~= Set::<Seq<char>>::empty());
        }
        while keys.len() > 0
            invariant
                distinct(keys0),
                keys0.len() == models0.len(),
                shares0 == shares_list(state_list(models0)),
                forall|i: int| 0 <= i < models0.len() ==> (#[trigger] models0[i]).wf(),
                keys.len() == models.len(),
                keys.len() <= keys0.len(),
                texts(keys@) == keys0.take(keys.len() as int),
                models@ == models0.take(keys.len() as int),
                two_level_wf(summary),
                holds_range(two_level(summary), keys0, shares0, keys.len() as int, keys0.len() as int),
            decreases keys.len(),
        {
            let ghost at = keys.len() - 1;
            let ghost before = summary;
            let key = keys.pop().unwrap();
            let model = models.pop().unwrap();
            proof {
                assert(key@ == keys0.take(at + 1)[at]);
                assert(model == models0.take(at + 1)[at]);
                lemma_holds_more(two_level(summary), keys0, shares0, at + 1, keys0.len() as int, at);
                assert(texts(keys@) =~= keys0.take(at));
                assert(models@ =~= models0.take(at));
            }
            let inner = model.summarize();
            summary.insert(key, inner);
            proof {
                assert(two_level(summary) =~= two_level(before).insert(key@, inner@));
            }
        }
        proof {
            lemma_holds_all(two_level(summary), keys0, shares0);
            let left = map_of(keys0, shares0);
            let right = shares_by_state(map_of(keys0, state_list(models0)));
            assert forall|key: Seq<char>| left.dom().contains(key) implies left[key] == right[key] by {
                let i = keys0.index_of(key);
                assert(keys0.contains(key));
            }
            assert(left =~= right);
        }
        summary
    }
}

/// The views of a list of estimators.
pub open spec fn markov_list(models: Seq<MarkovEstimator>) -> Seq<Map<Seq<char>, StateModel>> {
    Seq::new(models.len(), |i: int| models[i]@)
}

/// The summaries of a list of sets of states.
pub open spec fn shares_by_state_list(contexts: Seq<Map<Seq<char>, StateModel>>) -> Seq<
    Map<Seq<char>, Map<Seq<char>, (usize, usize)>>,
> {
    Seq::new(contexts.len(), |i: int| shares_by_state(contexts[i]))
}

/// The transitions between states, context by context.
#[derive(Debug)]
pub struct ContextMarkovEstimator {
    span_models: Table<MarkovEstimator>,
}

impl View for ContextMarkovEstimator {
    type V = Map<Seq<char>, Map<Seq<char>, StateModel>>;

    /// The states of every context seen so far.
    closed spec fn view(&self) -> Map<Seq<char>, Map<Seq<char>, StateModel>> {
        map_of(self.span_models.keys(), markov_list(self.span_models.values()))
    }
}

impl Default for ContextMarkovEstimator {
    fn default() -> (fresh: Self)
        ensures
            fresh.wf(),
            fresh@ == Map::<Seq<char>, Map<Seq<char>, StateModel>>::empty(),
    {
        let fresh = ContextMarkovEstimator { span_models: Table::new() };
        assert(fresh@ =~= Map::<Seq<char>, Map<Seq<char>, StateModel>>::empty());
        fresh
    }
}

impl ContextMarkovEstimator {
    /// A table of well-formed estimators.
    pub closed spec fn wf(&self) -> bool {
        &&& self.span_models.wf()
        &&& forall|i: int|
            0 <= i < self.span_models.values().len() ==> (#[trigger] self.span_models.values()[i]).wf()
    }

    /// What `wf` says of the model.
    pub proof fn lemma_wf(&self)
        requires
            self.wf(),
        ensures
            contexts_wf(self@),
    {
        let keys = self.span_models.keys();
        let models = self.span_models.values();
        assert forall|key: Seq<char>| #[trigger] self@.dom().contains(key) implies states_wf(
            self@[key],
        ) by {
            let i = keys.index_of(key);
            assert(keys.contains(key));
            assert(markov_list(models)[i] == models[i]@);
            models[i].lemma_wf();
        }
    }

    /// An estimator that has observed nothing.
    pub fn new() -> (fresh: Self)
        ensures
            fresh.wf(),
            fresh@ == Map::<Seq<char>, Map<Seq<char>, StateModel>>::empty(),
    {
        ContextMarkovEstimator::default()
    }

    /// A copy that counts on its own from here on.
    pub fn clone(&self) -> (copy: Self)
        requires
            self.wf(),
        ensures
            copy.wf(),
            copy@ == self@,
    {
        let mut copy = ContextMarkovEstimator { span_models: Table::new() };
        let n = self.span_models.len();
        let mut i: usize = 0;
        proof {
            assert(copy.span_models.keys() =~= self.span_models.keys().take(0));
        }
        while i < n
            invariant
                self.wf(),
                n == self.span_models.keys().len(),
                i <= n,
                copy.wf(),
                copy.span_models.keys() == self.span_models.keys().take(i as int),
                copy.span_models.values().len() == i,
                forall|j: int|
                    0 <= j < i ==> (#[trigger] copy.span_models.values()[j])@
                        == self.span_models.values()[j]@,
            decreases n - i,
        {
            let key = self.span_models.key_at(i).clone();
            let model = self.span_models.value_at(i).clone();
            proof {
                let keys = self.span_models.keys();
                if copy.span_models.keys().contains(key@) {
                    let j = copy.span_models.keys().index_of(key@);
                    assert(keys[j] == keys[i as int]);
                }
                assert(keys.take(i as int).push(keys[i as int]) =~= keys.take(i + 1));
            }
            copy.span_models.push_new(key, model);
            i += 1;
        }
        proof {
            assert(self.span_models.keys().take(n as int) =~= self.span_models.keys());
            assert(markov_list(copy.span_models.values()) =~= markov_list(
                self.span_models.values(),
            ));
        }
        copy
    }

    /// Counts a visit of `state` in `context` that led to `next_state`.
    pub fn observe(&mut self, context: String, state: String, next_state: String)
        requires
            old(self).wf(),
        ensures
            final(self).wf(),
            final(self)@ == transition_observed_in(old(self)@, context@, state@, next_state@),
    {
        let ghost keys = self.span_models.keys();
        let ghost models = self.span_models.values();
        match self.span_models.find(context.as_str()) {
            Some(at) => {
                proof {
                    lemma_entry_at(keys, markov_list(models), at as int);
                    assert forall|model: MarkovEstimator| #[trigger]
                        map_of(keys, markov_list(models.update(at as int, model))) == map_of(
                            keys,
                            markov_list(models),
                        ).insert(keys[at as int], model@) by {
                        lemma_update_at(keys, markov_list(models), at as int, model@);
                        assert(markov_list(models.update(at as int, model)) =~= markov_list(
                            models,
                        ).update(at as int, model@));
                    }
                }
                let model = self.span_models.value_at_mut(at);
                model.observe(state, next_state);
            },
            None => {
                let mut model = MarkovEstimator::default();
                model.observe(state, next_state);
                proof {
                    lemma_push_new(keys, markov_list(models), context@, model@);
                    assert(markov_list(models.push(model)) =~= markov_list(models).push(model@));
                }
                self.span_models.push_new(context, model);
            },
        }
    }

    /// The transition table: the shares of every state of every context,
    /// each level in the order of its keys.
    pub fn summarize(self) -> (summary: Snapshot<Snapshot<Snapshot<(usize, usize)>>>)
        requires
            self.wf(),
        ensures
            three_level_wf(summary),
            three_level(summary) == shares_by_context(self@),
    {
        let ghost keys0 = self.span_models.keys();
        let ghost models0 = self.span_models.values();
        let ghost shares0 = shares_by_state_list(markov_list(models0));
        let (mut keys, mut models) = self.span_models.into_parts();
        let mut summary: Snapshot<Snapshot<Snapshot<(usize, usize)>>> = Snapshot::new();
        proof {
            assert(three_level(summary).dom() =~= Set::<Seq<char>>::empty());
        }
        while keys.len() > 0
            invariant
                distinct(keys0),
                keys0.len() == models0.len(),
                shares0 == shares_by_state_list(markov_list(models0)),
                forall|i: int| 0 <= i < models0.len() ==> (#[trigger] models0[i]).wf(),
                keys.len() == models.len(),
                keys.len() <= keys0.len(),
                texts(keys@) == keys0.take(keys.len() as int),
                models@ == models0.take(keys.len() as int),
                three_level_wf(summary),
                holds_range(
                    three_level(summary),
                    keys0,
                    shares0,
                    keys.len() as int,
                    keys0.len() as int,
                ),
            decreases keys.len(),
        {
            let ghost at = keys.len() - 1;
            let ghost before = summary;
            let key = keys.pop().unwrap();
            let model = models.pop().unwrap();
            proof {
                assert(key@ == keys0.take(at + 1)[at]);
                assert(model == models0.take(at + 1)[at]);
                lemma_holds_more(three_level(summary), keys0, shares0, at + 1, keys0.len() as int, at);
                assert(texts(keys@) =~= keys0.take(at));
                assert(models@ =~= models0.take(at));
            }
            let inner = model.summarize();
            summary.insert(key, inner);
            proof {
                assert(three_level(summary) =~= three_level(before).insert(key@, two_level(inner)));
            }
        }
        proof {
            lemma_holds_all(three_level(summary), keys0, shares0);
            let left = map_of(keys0, shares0);
            let right = shares_by_context(map_of(keys0, markov_list(models0)));
            assert forall|key: Seq<char>| left.dom().contains(key) implies left[key] == right[key] by {
                let i = keys0.index_of(key);
                assert(keys0.contains(key));
            }
            assert(left =~= right);
        }
        summary
    }
}

} // verus!
