//! Online estimators of how often an event occurs, one counter for each
//! category, created when the category is first observed.

use crate::entries::distinct;
use crate::entries::holds_range;
use crate::entries::lemma_entry_at;
use crate::entries::lemma_holds_all;
use crate::entries::lemma_holds_more;
use crate::entries::lemma_push_new;
use crate::entries::lemma_update_at;
use crate::entries::map_of;
use crate::snapshot::Snapshot;
use crate::snapshot::two_level;
use crate::snapshot::two_level_wf;
use crate::table::Table;
use crate::text::texts;
use vstd::prelude::*;

verus! {

/// What has been counted for one category: the observations, and those
/// among them in which the event occurred.
pub struct Tally {
    pub total: nat,
    pub events: nat,
}

impl Tally {
    /// Nothing observed yet.
    pub open spec fn zero() -> Tally {
        Tally { total: 0, events: 0 }
    }

    /// The tally after one more observation. A tally that has reached
    /// `usize::MAX` observations takes no more.
    pub open spec fn observed(self, present: bool) -> Tally {
        if self.total < usize::MAX {
            Tally {
                total: self.total + 1,
                events: if present {
                    self.events + 1
                } else {
                    self.events
                },
            }
        } else {
            self
        }
    }

    /// The event cannot have occurred more often than it was looked for.
    pub open spec fn wf(self) -> bool {
        self.events <= self.total <= usize::MAX
    }

    /// The pair that a summary shows: occurrences, then observations.
    pub open spec fn rate(self) -> (usize, usize) {
        (self.events as usize, self.total as usize)
    }
}

/// The tally of `key`, which is zero for a category never observed.
pub open spec fn tally_at(tallies: Map<Seq<char>, Tally>, key: Seq<char>) -> Tally {
    if tallies.dom().contains(key) {
        tallies[key]
    } else {
        Tally::zero()
    }
}

/// The tallies after one more observation of the category `key`.
pub open spec fn observed_in(tallies: Map<Seq<char>, Tally>, key: Seq<char>, present: bool) -> Map<
    Seq<char>,
    Tally,
> {
    tallies.insert(key, tally_at(tallies, key).observed(present))
}

/// The summary of a set of tallies: the rate of every category observed.
pub open spec fn rates(tallies: Map<Seq<char>, Tally>) -> Map<Seq<char>, (usize, usize)> {
    tallies.map_values(|tally: Tally| tally.rate())
}

/// Every category that is there has been observed at least once.
pub open spec fn tallies_wf(tallies: Map<Seq<char>, Tally>) -> bool {
    forall|key: Seq<char>| #[trigger]
        tallies.dom().contains(key) ==> tallies[key].wf() && tallies[key].total > 0
}

/// The tallies of `key` under an outer category, none where the outer
/// category was never observed.
pub open spec fn category_at(
    categories: Map<Seq<char>, Map<Seq<char>, Tally>>,
    key: Seq<char>,
) -> Map<Seq<char>, Tally> {
    if categories.dom().contains(key) {
        categories[key]
    } else {
        Map::empty()
    }
}

/// The tallies after one more observation of `substate` under `state`.
pub open spec fn observed_under(
    categories: Map<Seq<char>, Map<Seq<char>, Tally>>,
    state: Seq<char>,
    substate: Seq<char>,
    present: bool,
) -> Map<Seq<char>, Map<Seq<char>, Tally>> {
    categories.insert(state, observed_in(category_at(categories, state), substate, present))
}

/// The summary of two levels of tallies.
pub open spec fn rates_under(categories: Map<Seq<char>, Map<Seq<char>, Tally>>) -> Map<
    Seq<char>,
    Map<Seq<char>, (usize, usize)>,
> {
    categories.map_values(|tallies: Map<Seq<char>, Tally>| rates(tallies))
}

/// Every outer category holds well-formed tallies.
pub open spec fn categories_wf(categories: Map<Seq<char>, Map<Seq<char>, Tally>>) -> bool {
    forall|key: Seq<char>| #[trigger]
        categories.dom().contains(key) ==> tallies_wf(categories[key])
}

/// The tallies after a run of observations, the oldest first. Each names
/// its category and says whether the event occurred.
pub open spec fn observed_all(tallies: Map<Seq<char>, Tally>, run: Seq<(Seq<char>, bool)>) -> Map<
    Seq<char>,
    Tally,
>
    decreases run.len(),
{
    if run.len() == 0 {
        tallies
    } else {
        observed_in(observed_all(tallies, run.drop_last()), run.last().0, run.last().1)
    }
}

/// How many observations of a run name the category `key`.
pub open spec fn times_observed(run: Seq<(Seq<char>, bool)>, key: Seq<char>) -> nat
    decreases run.len(),
{
    if run.len() == 0 {
        0
    } else if run.last().0 == key {
        times_observed(run.drop_last(), key) + 1
    } else {
        times_observed(run.drop_last(), key)
    }
}

/// In how many observations of a run the event occurred in the category
/// `key`.
pub open spec fn times_present(run: Seq<(Seq<char>, bool)>, key: Seq<char>) -> nat
    decreases run.len(),
{
    if run.len() == 0 {
        0
    } else if run.last().0 == key && run.last().1 {
        times_present(run.drop_last(), key) + 1
    } else {
        times_present(run.drop_last(), key)
    }
}

/// After a run of observations from nothing, the summary shows for every
/// category `k` occurrences among `n` observations, where the run holds
/// `n` observations of the category and the event occurred in `k` of
/// them; a category that the run never names is not in the summary. The
/// category is observed no more often than a counter can count.
pub proof fn lemma_rate_counts_observations(run: Seq<(Seq<char>, bool)>, key: Seq<char>)
    requires
        times_observed(run, key) <= usize::MAX,
    ensures
        times_present(run, key) <= times_observed(run, key) <= run.len(),
        rates(observed_all(Map::empty(), run)).dom().contains(key) <==> times_observed(run, key)
            > 0,
        times_observed(run, key) > 0 ==> rates(observed_all(Map::empty(), run))[key] == (
            times_present(run, key) as usize,
            times_observed(run, key) as usize,
        ),
        tally_at(observed_all(Map::empty(), run), key) == (Tally {
            total: times_observed(run, key),
            events: times_present(run, key),
        }),
    decreases run.len(),
{
    if run.len() > 0 {
        lemma_rate_counts_observations(run.drop_last(), key);
    }
}

/// The counter of one category.
#[derive(Clone, Copy, Debug)]
pub struct BernEstimator {
    total_count: usize,
    event_count: usize,
}

impl View for BernEstimator {
    type V = Tally;

    closed spec fn view(&self) -> Tally {
        Tally { total: self.total_count as nat, events: self.event_count as nat }
    }
}

impl Default for BernEstimator {
    fn default() -> (fresh: Self)
        ensures
            fresh@ == Tally::zero(),
    {
        BernEstimator { total_count: 0, event_count: 0 }
    }
}

impl BernEstimator {
    /// Counts an observation in which the event did not occur.
    pub fn observe_absent(&mut self)
        requires
            old(self)@.wf(),
        ensures
            final(self)@ == old(self)@.observed(false),
            final(self)@.wf(),
    {
        if self.total_count < usize::MAX {
            self.total_count += 1;
        }
    }

    /// Counts an observation in which the event occurred.
    pub fn observe_present(&mut self)
        requires
            old(self)@.wf(),
        ensures
            final(self)@ == old(self)@.observed(true),
            final(self)@.wf(),
    {
        if self.total_count < usize::MAX {
            self.total_count += 1;
            self.event_count += 1;
        }
    }

    /// The occurrences and the observations counted so far.
    pub fn summarize(self) -> (rate: (usize, usize))
        ensures
            rate == self@.rate(),
    {
        (self.event_count, self.total_count)
    }
}

/// The views of a list of counters.
pub open spec fn tally_list(models: Seq<BernEstimator>) -> Seq<Tally> {
    Seq::new(models.len(), |i: int| models[i]@)
}

/// The rates of a list of tallies.
pub open spec fn rate_list(tallies: Seq<Tally>) -> Seq<(usize, usize)> {
    Seq::new(tallies.len(), |i: int| tallies[i].rate())
}

/// Counters by category.
#[derive(Debug)]
pub struct CategoryBernEstimator {
    state_models: Table<BernEstimator>,
}

impl View for CategoryBernEstimator {
    type V = Map<Seq<char>, Tally>;

    /// The tally of every category observed so far.
    closed spec fn view(&self) -> Map<Seq<char>, Tally> {
        map_of(self.state_models.keys(), tally_list(self.state_models.values()))
    }
}

impl Default for CategoryBernEstimator {
    fn default() -> (fresh: Self)
        ensures
            fresh.wf(),
            fresh@ == Map::<Seq<char>, Tally>::empty(),
    {
        let fresh = CategoryBernEstimator { state_models: Table::new() };
        assert(fresh@ =~= Map::<Seq<char>, Tally>::empty());
        fresh
    }
}

impl CategoryBernEstimator {
    /// A table for every estimator, a well-formed counter for every entry,
    /// and every counter used at least once.
    pub closed spec fn wf(&self) -> bool {
        &&& self.state_models.wf()
        &&& forall|i: int|
            0 <= i < self.state_models.values().len() ==> (#[trigger] self.state_models.values()[i])@.wf()
                && self.state_models.values()[i]@.total > 0
    }

    /// What `wf` says of the tallies.
    pub proof fn lemma_wf(&self)
        requires
            self.wf(),
        ensures
            tallies_wf(self@),
    {
        let keys = self.state_models.keys();
        let tallies = tally_list(self.state_models.values());
        assert forall|key: Seq<char>| #[trigger] self@.dom().contains(key) implies self@[key].wf()
            && self@[key].total > 0 by {
            let i = keys.index_of(key);
            assert(keys.contains(key));
            assert(tallies[i] == self.state_models.values()[i]@);
        }
    }

    /// An estimator that has observed nothing.
    pub fn new() -> (fresh: Self)
        ensures
            fresh.wf(),
            fresh@ == Map::<Seq<char>, Tally>::empty(),
    {
        CategoryBernEstimator::default()
    }

    /// A copy that counts on its own from here on.
    pub fn clone(&self) -> (copy: Self)
        requires
            self.wf(),
        ensures
            copy.wf(),
            copy@ == self@,
    {
        let mut copy = CategoryBernEstimator { state_models: Table::new() };
        let n = self.state_models.len();
        let mut i: usize = 0;
        proof {
            assert(copy.state_models.keys() =~= self.state_models.keys().take(0));
            assert(copy.state_models.values() =~= self.state_models.values().take(0));
        }
        while i < n
            invariant
                self.wf(),
                n == self.state_models.keys().len(),
                i <= n,
                copy.state_models.wf(),
                copy.state_models.keys() == self.state_models.keys().take(i as int),
                copy.state_models.values() == self.state_models.values().take(i as int),
            decreases n - i,
        {
            let key = self.state_models.key_at(i).clone();
            let model = *self.state_models.value_at(i);
            proof {
                let keys = self.state_models.keys();
                if copy.state_models.keys().contains(key@) {
                    let j = copy.state_models.keys().index_of(key@);
                    assert(keys[j] == keys[i as int]);
                }
                assert(keys.take(i as int).push(keys[i as int]) =~= keys.take(i + 1));
                assert(self.state_models.values().take(i as int).push(model)
                    =~= self.state_models.values().take(i + 1));
            }
            copy.state_models.push_new(key, model);
            i += 1;
        }
        proof {
            assert(self.state_models.keys().take(n as int) =~= self.state_models.keys());
            assert(self.state_models.values().take(n as int) =~= self.state_models.values());
        }
        copy
    }

    /// Counts an observation of `state` in which the event did not occur.
    pub fn observe_absent(&mut self, state: String)
        requires
            old(self).wf(),
        ensures
            final(self).wf(),
            final(self)@ == observed_in(old(self)@, state@, false),
    {
        match self.state_models.find(state.as_str()) {
            Some(at) => {
                proof {
                    lemma_observed_at(self.state_models.keys(), self.state_models.values(), at as int, false);
                }
                let model = self.state_models.value_at_mut(at);
                model.observe_absent();
            },
            None => {
                let mut model = BernEstimator::default();
                model.observe_absent();
                proof {
                    lemma_observed_new(self.state_models.keys(), self.state_models.values(), state@, model);
                }
                self.state_models.push_new(state, model);
            },
        }
    }

    /// Counts an observation of `state` in which the event occurred.
    pub fn observe_present(&mut self, state: String)
        requires
            old(self).wf(),
        ensures
            final(self).wf(),
            final(self)@ == observed_in(old(self)@, state@, true),
    {
        match self.state_models.find(state.as_str()) {
            Some(at) => {
                proof {
                    lemma_observed_at(self.state_models.keys(), self.state_models.values(), at as int, true);
                }
                let model = self.state_models.value_at_mut(at);
                model.observe_present();
            },
            None => {
                let mut model = BernEstimator::default();
                model.observe_present();
                proof {
                    lemma_observed_new(self.state_models.keys(), self.state_models.values(), state@, model);
                }
                self.state_models.push_new(state, model);
            },
        }
    }

    /// The rate of every category observed, in the order of the keys.
    pub fn summarize(self) -> (summary: Snapshot<(usize, usize)>)
        requires
            self.wf(),
        ensures
            summary.wf(),
            summary@ == rates(self@),
    {
        let ghost keys0 = self.state_models.keys();
        let ghost models0 = self.state_models.values();
        let ghost rates0 = rate_list(tally_list(models0));
        let (mut keys, mut models) = self.state_models.into_parts();
        let mut summary: Snapshot<(usize, usize)> = Snapshot::new();
        while keys.len() > 0
            invariant
                distinct(keys0),
                keys0.len() == models0.len(),
                rates0 == rate_list(tally_list(models0)),
                forall|i: int| 0 <= i < models0.len() ==> (#[trigger] models0[i])@.wf(),
                keys.len() == models.len(),
                keys.len() <= keys0.len(),
                texts(keys@) == keys0.take(keys.len() as int),
                models@ == models0.take(keys.len() as int),
                summary.wf(),
                holds_range(summary@, keys0, rates0, keys.len() as int, keys0.len() as int),
            decreases keys.len(),
        {
            let ghost at = keys.len() - 1;
            let key = keys.pop().unwrap();
            let model = models.pop().unwrap();
            proof {
                assert(key@ == keys0.take(at + 1)[at]);
                assert(model == models0.take(at + 1)[at]);
                lemma_holds_more(summary@, keys0, rates0, at + 1, keys0.len() as int, at);
                assert(texts(keys@) =~= keys0.take(at));
                assert(models@ =~= models0.take(at));
            }
            summary.insert(key, model.summarize());
        }
        proof {
            lemma_holds_all(summary@, keys0, rates0);
            lemma_rates_of_list(keys0, models0);
        }
        summary
    }
}

/// The tallies after the counter at one place has taken an observation.
proof fn lemma_observed_at(
    keys: Seq<Seq<char>>,
    models: Seq<BernEstimator>,
    at: int,
    present: bool,
)
    requires
        keys.len() == models.len(),
        distinct(keys),
        0 <= at < keys.len(),
    ensures
        tally_at(map_of(keys, tally_list(models)), keys[at]) == models[at]@,
        forall|model: BernEstimator|
            model@ == models[at]@.observed(present) ==> #[trigger] map_of(
                keys,
                tally_list(models.update(at, model)),
            ) == observed_in(map_of(keys, tally_list(models)), keys[at], present),
{
    lemma_entry_at(keys, tally_list(models), at);
    assert forall|model: BernEstimator| model@ == models[at]@.observed(present) implies #[trigger] map_of(
        keys,
        tally_list(models.update(at, model)),
    ) == observed_in(map_of(keys, tally_list(models)), keys[at], present) by {
        lemma_update_at(keys, tally_list(models), at, model@);
        assert(tally_list(models.update(at, model)) =~= tally_list(models).update(at, model@));
    }
}

/// The tallies after a fresh counter has been added for a new category.
proof fn lemma_observed_new(
    keys: Seq<Seq<char>>,
    models: Seq<BernEstimator>,
    key: Seq<char>,
    model: BernEstimator,
)
    requires
        keys.len() == models.len(),
        distinct(keys),
        !keys.contains(key),
    ensures
        tally_at(map_of(keys, tally_list(models)), key) == Tally::zero(),
        map_of(keys.push(key), tally_list(models.push(model))) == map_of(
            keys,
            tally_list(models),
        ).insert(key, model@),
{
    lemma_push_new(keys, tally_list(models), key, model@);
    assert(tally_list(models.push(model)) =~= tally_list(models).push(model@));
}

/// The map of the rates is the summary of the map of the tallies.
proof fn lemma_rates_of_list(keys: Seq<Seq<char>>, models: Seq<BernEstimator>)
    requires
        keys.len() == models.len(),
    ensures
        map_of(keys, rate_list(tally_list(models))) == rates(map_of(keys, tally_list(models))),
{
    let left = map_of(keys, rate_list(tally_list(models)));
    let right = rates(map_of(keys, tally_list(models)));
    assert forall|key: Seq<char>| left.dom().contains(key) implies left[key] == right[key] by {
        let i = keys.index_of(key);
        assert(keys.contains(key));
    }
    assert(left =~= right);
}

/// The views of a list of estimators.
pub open spec fn category_list(models: Seq<CategoryBernEstimator>) -> Seq<Map<Seq<char>, Tally>> {
    Seq::new(models.len(), |i: int| models[i]@)
}

/// The summaries of a list of tallies by category.
pub open spec fn rates_list(categories: Seq<Map<Seq<char>, Tally>>) -> Seq<
    Map<Seq<char>, (usize, usize)>,
> {
    Seq::new(categories.len(), |i: int| rates(categories[i]))
}

/// Counters by category under an outer category.
#[derive(Debug)]
pub struct ManyCategoryBernEstimator {
    state_models: Table<CategoryBernEstimator>,
}

impl View for ManyCategoryBernEstimator {
    type V = Map<Seq<char>, Map<Seq<char>, Tally>>;

    /// The tallies of every outer category observed so far.
    closed spec fn view(&self) -> Map<Seq<char>, Map<Seq<char>, Tally>> {
        map_of(self.state_models.keys(), category_list(self.state_models.values()))
    }
}

impl Default for ManyCategoryBernEstimator {
    fn default() -> (fresh: Self)
        ensures
            fresh.wf(),
            fresh@ == Map::<Seq<char>, Map<Seq<char>, Tally>>::empty(),
    {
        let fresh = ManyCategoryBernEstimator { state_models: Table::new() };
        assert(fresh@ =~= Map::<Seq<char>, Map<Seq<char>, Tally>>::empty());
        fresh
    }
}

impl ManyCategoryBernEstimator {
    /// A table of well-formed estimators.
    pub closed spec fn wf(&self) -> bool {
        &&& self.state_models.wf()
        &&& forall|i: int|
            0 <= i < self.state_models.values().len() ==> (#[trigger] self.state_models.values()[i]).wf()
    }

    /// What `wf` says of the tallies.
    pub proof fn lemma_wf(&self)
        requires
            self.wf(),
        ensures
            categories_wf(self@),
    {
        let keys = self.state_models.keys();
        let models = self.state_models.values();
        assert forall|key: Seq<char>| #[trigger] self@.dom().contains(key) implies tallies_wf(
            self@[key],
        ) by {
            let i = keys.index_of(key);
            assert(keys.contains(key));
            assert(category_list(models)[i] == models[i]@);
            models[i].lemma_wf();
        }
    }

    /// An estimator that has observed nothing.
    pub fn new() -> (fresh: Self)
        ensures
            fresh.wf(),
            fresh@ == Map::<Seq<char>, Map<Seq<char>, Tally>>::empty(),
    {
        ManyCategoryBernEstimator::default()
    }

    /// A copy that counts on its own from here on.
    pub fn clone(&self) -> (copy: Self)
        requires
            self.wf(),
        ensures
            copy.wf(),
            copy@ == self@,
    {
        let mut copy = ManyCategoryBernEstimator { state_models: Table::new() };
        let n = self.state_models.len();
        let mut i: usize = 0;
        proof {
            assert(copy.state_models.keys() =~= self.state_models.keys().take(0));
        }
        while i < n
            invariant
                self.wf(),
                n == self.state_models.keys().len(),
                i <= n,
                copy.wf(),
                copy.state_models.keys() == self.state_models.keys().take(i as int),
                copy.state_models.values().len() == i,
                forall|j: int|
                    0 <= j < i ==> (#[trigger] copy.state_models.values()[j])@
                        == self.state_models.values()[j]@,
            decreases n - i,
        {
            let key = self.state_models.key_at(i).clone();
            let model = self.state_models.value_at(i).clone();
            proof {
                let keys = self.state_models.keys();
                if copy.state_models.keys().contains(key@) {
                    let j = copy.state_models.keys().index_of(key@);
                    assert(keys[j] == keys[i as int]);
                }
                assert(keys.take(i as int).push(keys[i as int]) =~= keys.take(i + 1));
            }
            copy.state_models.push_new(key, model);
            i += 1;
        }
        proof {
            assert(self.state_models.keys().take(n as int) =~= self.state_models.keys());
            assert(category_list(copy.state_models.values()) =~= category_list(
                self.state_models.values(),
            ));
        }
        copy
    }

    /// Counts an observation of `substate` under `state` in which the event
    /// did not occur.
    pub fn observe_absent(&mut self, state: String, substate: String)
        requires
            old(self).wf(),
        ensures
            final(self).wf(),
            final(self)@ == observed_under(old(self)@, state@, substate@, false),
    {
        match self.state_models.find(state.as_str()) {
            Some(at) => {
                proof {
                    lemma_observed_under_at(
                        self.state_models.keys(),
                        self.state_models.values(),
                        at as int,
                        substate@,
                        false,
                    );
                }
                let model = self.state_models.value_at_mut(at);
                model.observe_absent(substate);
            },
            None => {
                let mut model = CategoryBernEstimator::default();
                model.observe_absent(substate);
                proof {
                    lemma_observed_under_new(
                        self.state_models.keys(),
                        self.state_models.values(),
                        state@,
                        model,
                    );
                }
                self.state_models.push_new(state, model);
            },
        }
    }

    /// Counts an observation of `substate` under `state` in which the event
    /// occurred.
    pub fn observe_present(&mut self, state: String, substate: String)
        requires
            old(self).wf(),
        ensures
            final(self).wf(),
            final(self)@ == observed_under(old(self)@, state@, substate@, true),
    {
        match self.state_models.find(state.as_str()) {
            Some(at) => {
                proof {
                    lemma_observed_under_at(
                        self.state_models.keys(),
                        self.state_models.values(),
                        at as int,
                        substate@,
                        true,
                    );
                }
                let model = self.state_models.value_at_mut(at);
                model.observe_present(substate);
            },
            None => {
                let mut model = CategoryBernEstimator::default();
                model.observe_present(substate);
                proof {
                    lemma_observed_under_new(
                        self.state_models.keys(),
                        self.state_models.values(),
                        state@,
                        model,
                    );
                }
                self.state_models.push_new(state, model);
            },
        }
    }

    /// The rates of every outer category observed, each level in the order
    /// of its keys.
    pub fn summarize(self) -> (summary: Snapshot<Snapshot<(usize, usize)>>)
        requires
            self.wf(),
        ensures
            two_level_wf(summary),
            two_level(summary) == rates_under(self@),
    {
        let ghost keys0 = self.state_models.keys();
        let ghost models0 = self.state_models.values();
        let ghost rates0 = rates_list(category_list(models0));
        let (mut keys, mut models) = self.state_models.into_parts();
        let mut summary: Snapshot<Snapshot<(usize, usize)>> = Snapshot::new();
        proof {
            assert(two_level(summary).dom() =~= Set::<Seq<char>>::empty());
        }
        while keys.len() > 0
            invariant
                distinct(keys0),
                keys0.len() == models0.len(),
                rates0 == rates_list(category_list(models0)),
                forall|i: int| 0 <= i < models0.len() ==> (#[trigger] models0[i]).wf(),
                keys.len() == models.len(),
                keys.len() <= keys0.len(),
                texts(keys@) == keys0.take(keys.len() as int),
                models@ == models0.take(keys.len() as int),
                two_level_wf(summary),
                holds_range(two_level(summary), keys0, rates0, keys.len() as int, keys0.len() as int),
            decreases keys.len(),
        {
            let ghost at = keys.len() - 1;
            let ghost before = summary;
            let key = keys.pop().unwrap();
            let model = models.pop().unwrap();
            proof {
                assert(key@ == keys0.take(at + 1)[at]);
                assert(model == models0.take(at + 1)[at]);
                lemma_holds_more(two_level(summary), keys0, rates0, at + 1, keys0.len() as int, at);
                assert(texts(keys@) =~= keys0.take(at));
                assert(models@ =~= models0.take(at));
            }
            let inner = model.summarize();
            summary.insert(key, inner);
            proof {
                assert(two_level(summary) =~= two_level(before).insert(key@, inner@));
            }
        }
        proof {
            lemma_holds_all(two_level(summary), keys0, rates0);
            let left = map_of(keys0, rates0);
            let right = rates_under(map_of(keys0, category_list(models0)));
            assert forall|key: Seq<char>| left.dom().contains(key) implies left[key] == right[key] by {
                let i = keys0.index_of(key);
                assert(keys0.contains(key));
            }
            assert(left =~= right);
        }
        summary
    }
}

/// The tallies after the estimator at one place has taken an observation.
proof fn lemma_observed_under_at(
    keys: Seq<Seq<char>>,
    models: Seq<CategoryBernEstimator>,
    at: int,
    substate: Seq<char>,
    present: bool,
)
    requires
        keys.len() == models.len(),
        distinct(keys),
        0 <= at < keys.len(),
    ensures
        forall|model: CategoryBernEstimator|
            model@ == observed_in(models[at]@, substate, present) ==> #[trigger] map_of(
                keys,
                category_list(models.update(at, model)),
            ) == observed_under(map_of(keys, category_list(models)), keys[at], substate, present),
{
    lemma_entry_at(keys, category_list(models), at);
    assert forall|model: CategoryBernEstimator|
        model@ == observed_in(models[at]@, substate, present) implies #[trigger] map_of(
        keys,
        category_list(models.update(at, model)),
    ) == observed_under(map_of(keys, category_list(models)), keys[at], substate, present) by {
        lemma_update_at(keys, category_list(models), at, model@);
        assert(category_list(models.update(at, model)) =~= category_list(models).update(
            at,
            model@,
        ));
    }
}

/// The tallies after a fresh estimator has been added for a new category.
proof fn lemma_observed_under_new(
    keys: Seq<Seq<char>>,
    models: Seq<CategoryBernEstimator>,
    key: Seq<char>,
    model: CategoryBernEstimator,
)
    requires
        keys.len() == models.len(),
        distinct(keys),
        !keys.contains(key),
    ensures
        category_at(map_of(keys, category_list(models)), key) == Map::<Seq<char>, Tally>::empty(),
        map_of(keys.push(key), category_list(models.push(model))) == map_of(
            keys,
            category_list(models),
        ).insert(key, model@),
{
    lemma_push_new(keys, category_list(models), key, model@);
    assert(category_list(models.push(model)) =~= category_list(models).push(model@));
}

} // verus!
