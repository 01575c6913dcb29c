//! The registry: all series of one ingestion pass, in the order of their
//! full names, with the largest x-key seen.

use crate::filter::FilterSet;
use crate::label::{discriminating, discriminating_parameters, views};
use crate::naming::{series_name, NameSet};
use crate::parameter::{ParameterSet, Parameters};
use crate::series::{has_key, key_rank, larger, lemma_series_add, DataSet, Series};
use crate::text::{ascending, has_text, lemma_lex_total, lemma_text_insert, lemma_text_rank, lex_less};
use crate::text::{text_less, text_rank, Text};
use vstd::prelude::*;

verus! {

/// A registry as contracts see it.
#[verifier::ext_equal]
pub struct Registry<T> {
    /// The series, in the order of their full names.
    pub series: Seq<Series<T>>,
    /// The largest x-key of any sample.
    pub max_commits: u64,
}

impl<T> Registry<T> {
    /// The full names of the series, in their order.
    pub open spec fn names(self) -> Seq<Text> {
        self.series.map_values(|s: Series<T>| s.name)
    }

    /// The registry is well formed: the names of its series ascend, each
    /// series is well formed, none is without samples, and the maximum of
    /// the registry is the largest maximum of a series, or 0 while there is
    /// none.
    pub open spec fn wf(self) -> bool {
        &&& ascending(self.names())
        &&& forall|i: int| 0 <= i < self.series.len() ==> (#[trigger] self.series[i]).wf()
        &&& forall|i: int| 0 <= i < self.series.len() ==> (#[trigger] self.series[i]).keys.len() > 0
        &&& forall|i: int|
            0 <= i < self.series.len() ==> (#[trigger] self.series[i]).max_commits
                <= self.max_commits
        &&& if self.series.len() > 0 {
            exists|i: int|
                0 <= i < self.series.len() && (#[trigger] self.series[i]).max_commits
                    == self.max_commits
        } else {
            self.max_commits == 0
        }
    }

    /// The registry with the slot at place `value` of the series at place
    /// `series` holding `held`.
    pub open spec fn with_slot(self, series: int, value: int, held: T) -> Registry<T> {
        Registry { series: self.series.update(series, self.series[series].with_slot(value, held)), ..self }
    }

    /// The registry without series.
    pub open spec fn empty() -> Registry<T> {
        Registry { series: Seq::empty(), max_commits: 0 }
    }

    /// The registry after a sample: the series of that full name has taken
    /// it, a new series at its place in the order of the names where there
    /// was none, and the maximum has grown to the x-key where it was
    /// smaller.
    pub open spec fn ingest(self, base_name: Text, parameters: Parameters, commits: u64, fresh: T) -> Registry<T> {
        let name = series_name(base_name, parameters);
        let i = text_rank(self.names(), name);
        Registry {
            series: if has_text(self.names(), name) {
                self.series.update(i, self.series[i].add(commits, fresh))
            } else {
                self.series.insert(i, Series::empty(base_name, parameters).add(commits, fresh))
            },
            max_commits: larger(self.max_commits, commits),
        }
    }
}

/// The parameter sets of the series that pass the filter, in the order of
/// the series.
pub open spec fn passed<T, F: FilterSet>(series: Seq<Series<T>>, filters: &F) -> Seq<Parameters>
    decreases series.len(),
{
    if series.len() == 0 {
        Seq::empty()
    } else {
        let before = passed(series.drop_last(), filters);
        if filters.passes(series.last().parameters) {
            before.push(series.last().parameters)
        } else {
            before
        }
    }
}

/// A sample keeps a registry well formed, and neither maximum shrinks.
pub proof fn lemma_ingest<T>(
    r: Registry<T>,
    base_name: Text,
    parameters: Parameters,
    commits: u64,
    fresh: T,
)
    requires
        r.wf(),
        crate::parameter::strictly_sorted(parameters),
    ensures
        r.ingest(base_name, parameters, commits, fresh).wf(),
        r.ingest(base_name, parameters, commits, fresh).max_commits >= r.max_commits,
        r.ingest(base_name, parameters, commits, fresh).max_commits >= commits,
        r.ingest(base_name, parameters, commits, fresh).names() == if has_text(
            r.names(),
            series_name(base_name, parameters),
        ) {
            r.names()
        } else {
            r.names().insert(
                text_rank(r.names(), series_name(base_name, parameters)),
                series_name(base_name, parameters),
            )
        },
{
    let name = series_name(base_name, parameters);
    let i = text_rank(r.names(), name);
    let after = r.ingest(base_name, parameters, commits, fresh);
    lemma_text_rank(r.names(), name);
    if has_text(r.names(), name) {
        lemma_series_add(r.series[i], commits, fresh);
        assert(after.names() =~= r.names());
        assert forall|j: int| 0 <= j < after.series.len() implies (#[trigger] after.series[j]).wf()
            && after.series[j].keys.len() > 0 && after.series[j].max_commits
            <= after.max_commits by {
            if j != i {
                assert(after.series[j] == r.series[j]);
            }
        }
        if commits > r.max_commits {
            assert(after.series[i].max_commits == after.max_commits);
        } else {
            let w = choose|w: int|
                0 <= w < r.series.len() && (#[trigger] r.series[w]).max_commits == r.max_commits;
            if w != i {
                assert(after.series[w] == r.series[w]);
            }
            assert(after.series[w].max_commits == after.max_commits);
        }
    } else {
        let made = Series::<T>::empty(base_name, parameters);
        assert(made.wf());
        lemma_series_add(made, commits, fresh);
        lemma_text_insert(r.names(), name);
        assert(after.names() =~= r.names().insert(i, name));
        assert forall|j: int| 0 <= j < after.series.len() implies (#[trigger] after.series[j]).wf()
            && after.series[j].keys.len() > 0 && after.series[j].max_commits
            <= after.max_commits by {
            if j != i {
                let j0 = if j < i { j } else { j - 1 };
                assert(after.series[j] == r.series[j0]);
            }
        }
        if commits > r.max_commits || r.series.len() == 0 {
            assert(after.series[i].max_commits == after.max_commits);
        } else {
            let w = choose|w: int|
                0 <= w < r.series.len() && (#[trigger] r.series[w]).max_commits == r.max_commits;
            let w1 = if w < i { w } else { w + 1 };
            assert(after.series[w1] == r.series[w]);
            assert(after.series[w1].max_commits == after.max_commits);
        }
    }
}

/// Where a sample went.
#[derive(Debug, Clone, Copy, PartialEq, Eq, Structural)]
pub struct Placement {
    /// The place of the series in the order of the full names.
    pub series: usize,
    /// The place of the slot in the order of the x-keys of the series.
    pub value: usize,
    /// The sample was the first of its series.
    pub new_series: bool,
    /// The sample was the first of its series at its x-key.
    pub new_value: bool,
}

/// All series of one ingestion pass.
pub struct StressTestData<T> {
    datasets: Vec<DataSet<T>>,
    max_commits: u64,
}

impl<T> View for StressTestData<T> {
    type V = Registry<T>;

    closed spec fn view(&self) -> Registry<T> {
        Registry {
            series: self.datasets@.map_values(|d: DataSet<T>| d@),
            max_commits: self.max_commits,
        }
    }
}

impl<T> StressTestData<T> {
    /// The registry is well formed.
    pub open spec fn wf(&self) -> bool {
        self@.wf()
    }

    /// A registry without series.
    pub fn new() -> (r: StressTestData<T>)
        ensures
            r.wf(),
            r@ == Registry::<T>::empty(),
    {
        let r = StressTestData { datasets: Vec::new(), max_commits: 0 };
        assert(r@.series =~= Seq::<Series<T>>::empty());
        assert(r@.names() =~= Seq::<Text>::empty());
        r
    }

    /// The largest x-key of any sample, 0 while there is none.
    pub fn max_commits(&self) -> (r: u64)
        ensures
            r == self@.max_commits,
    {
        self.max_commits
    }

    /// How many series the registry holds.
    pub fn len(&self) -> (n: usize)
        ensures
            n == self@.series.len(),
    {
        self.datasets.len()
    }

    /// The series at place `i` in the order of the full names.
    pub fn dataset(&self, i: usize) -> (r: &DataSet<T>)
        requires
            self.wf(),
            i < self@.series.len(),
        ensures
            r@ == self@.series[i as int],
            r.wf(),
    {
        &self.datasets[i]
    }

    /// What the slot at place `value` of the series at place `series`
    /// accumulates, to be changed in place.
    pub fn samples_mut(&mut self, series: usize, value: usize) -> (r: &mut T)
        requires
            series < old(self)@.series.len(),
            value < old(self)@.series[series as int].keys.len(),
        ensures
            *r == old(self)@.series[series as int].samples[value as int],
            final(self)@ =~~= old(self)@.with_slot(series as int, value as int, *final(r)),
    {
        self.datasets[series].samples_mut(value)
    }

    /// The places of the series that pass the filter, ascending.
    pub fn passing<F: FilterSet>(&self, filters: &F) -> (r: Vec<usize>)
        requires
            self.wf(),
        ensures
            forall|a: int, b: int| 0 <= a < b < r@.len() ==> #[trigger] r@[a] < #[trigger] r@[b],
            forall|i: int|
                0 <= i < self@.series.len() ==> (r@.contains(i as usize) <==> filters.passes(
                    (#[trigger] self@.series[i]).parameters,
                )),
            forall|a: int| 0 <= a < r@.len() ==> #[trigger] r@[a] < self@.series.len(),
    {
        let mut places: Vec<usize> = Vec::new();
        let mut i: usize = 0;
        while i < self.datasets.len()
            invariant
                i <= self.datasets@.len(),
                self.wf(),
                forall|a: int, b: int|
                    0 <= a < b < places@.len() ==> #[trigger] places@[a] < #[trigger] places@[b],
                forall|a: int| 0 <= a < places@.len() ==> #[trigger] places@[a] < i,
                forall|k: int|
                    0 <= k < i ==> (places@.contains(k as usize) <==> filters.passes(
                        (#[trigger] self@.series[k]).parameters,
                    )),
            decreases self.datasets@.len() - i,
        {
            let ghost before = places@;
            assert(self.datasets@[i as int]@ == self@.series[i as int]);
            let passes = self.datasets[i].passes_filters(filters);
            if passes {
                places.push(i);
            }
            proof {
                assert forall|k: int| 0 <= k < i + 1 implies (places@.contains(k as usize)
                    <==> filters.passes((#[trigger] self@.series[k]).parameters)) by {
                    if k < i {
                        if before.contains(k as usize) {
                            let a = choose|a: int| 0 <= a < before.len() && before[a] == k as usize;
                            assert(places@[a] == k as usize);
                        }
                        if places@.contains(k as usize) {
                            let a = choose|a: int| 0 <= a < places@.len() && places@[a] == k as usize;
                            assert(before[a] == k as usize);
                        }
                    } else {
                        if passes {
                            assert(places@[before.len() as int] == i);
                        }
                        if places@.contains(k as usize) {
                            let a = choose|a: int| 0 <= a < places@.len() && places@[a] == k as usize;
                            assert(a == before.len());
                        }
                    }
                }
            }
            i = i + 1;
        }
        places
    }

    /// The discriminating parameters of the series that pass the filter:
    /// those that are not constant across them.
    pub fn discriminating_parameters<F: FilterSet>(&self, filters: &F) -> (r: NameSet)
        requires
            self.wf(),
        ensures
            r.wf(),
            r@ == discriminating(passed(self@.series, filters)),
    {
        let mut sets: Vec<&ParameterSet> = Vec::new();
        let mut i: usize = 0;
        proof {
            assert(self@.series.take(0) =~= Seq::<Series<T>>::empty());
            assert(views(sets@) =~= Seq::<Parameters>::empty());
        }
        while i < self.datasets.len()
            invariant
                i <= self.datasets@.len(),
                self.wf(),
                views(sets@) == passed(self@.series.take(i as int), filters),
                forall|k: int| 0 <= k < sets@.len() ==> (#[trigger] sets@[k]).wf(),
            decreases self.datasets@.len() - i,
        {
            assert(self.datasets@[i as int]@ == self@.series[i as int]);
            let ghost before = sets@;
            proof {
                assert(self@.series.take(i as int + 1).drop_last() =~= self@.series.take(i as int));
                assert(self@.series.take(i as int + 1).last() == self@.series[i as int]);
            }
            if self.datasets[i].passes_filters(filters) {
                sets.push(self.datasets[i].parameters());
                assert(views(sets@) =~= views(before).push(self@.series[i as int].parameters));
            }
            i = i + 1;
        }
        proof {
            assert(self@.series.take(self.datasets@.len() as int) =~= self@.series);
        }
        discriminating_parameters(&sets)
    }

    /// The place of `name` among the full names of the series.
    fn place(&self, name: &str) -> (i: usize)
        requires
            self.wf(),
        ensures
            i == text_rank(self@.names(), name@),
            i <= self@.series.len(),
    {
        proof {
            lemma_text_rank(self@.names(), name@);
        }
        let mut lo: usize = 0;
        let mut hi: usize = self.datasets.len();
        while lo < hi
            invariant
                0 <= lo <= hi <= self.datasets@.len(),
                self@.names().len() == self.datasets@.len(),
                lo <= text_rank(self@.names(), name@) <= hi,
                forall|i: int|
                    0 <= i < text_rank(self@.names(), name@) ==> lex_less(
                        #[trigger] self@.names()[i],
                        name@,
                    ),
                forall|i: int|
                    text_rank(self@.names(), name@) <= i < self@.names().len() ==> !lex_less(
                        #[trigger] self@.names()[i],
                        name@,
                    ),
            decreases hi - lo,
        {
            let mid = lo + (hi - lo) / 2;
            assert(self@.names()[mid as int] == self.datasets@[mid as int]@.name);
            if text_less(self.datasets[mid].name().as_str(), name) {
                lo = mid + 1;
            } else {
                hi = mid;
            }
        }
        lo
    }

    /// Records a sample. The series of its full name is found by binary
    /// search, or made at its place in the order of the names; the slot of
    /// its x-key in that series likewise, a new one holding `fresh`. Returns
    /// where the sample went.
    pub fn add_sample(&mut self, base_name: String, parameters: ParameterSet, commits: u64, fresh: T) -> (r: Placement)
        requires
            old(self).wf(),
            parameters.wf(),
        ensures
            final(self).wf(),
            final(self)@ == old(self)@.ingest(base_name@, parameters@, commits, fresh),
            r.series == text_rank(old(self)@.names(), series_name(base_name@, parameters@)),
            r.new_series == !has_text(old(self)@.names(), series_name(base_name@, parameters@)),
            r.value == if r.new_series {
                0
            } else {
                key_rank(old(self)@.series[r.series as int].keys, commits)
            },
            r.new_value == (r.new_series || !has_key(
                old(self)@.series[r.series as int].keys,
                commits,
            )),
    {
        let ghost before = self@;
        let ghost name = series_name(base_name@, parameters@);
        proof {
            lemma_text_rank(before.names(), name);
            lemma_ingest(before, base_name@, parameters@, commits, fresh);
        }
        let full = DataSet::<T>::get_name(base_name.clone(), &parameters);
        let i = self.place(full.as_str());
        if i < self.datasets.len() {
            assert(before.names()[i as int] == self.datasets@[i as int]@.name);
            if !text_less(full.as_str(), self.datasets[i].name().as_str()) {
                proof {
                    lemma_lex_total(before.names()[i as int], name);
                }
                assert(self.datasets@[i as int]@ == before.series[i as int]);
                let (value, new_value) = self.datasets[i].add_sample(commits, fresh);
                if commits > self.max_commits {
                    self.max_commits = commits;
                }
                assert(self@.series =~= before.ingest(base_name@, parameters@, commits, fresh).series);
                return Placement { series: i, value, new_series: false, new_value };
            }
        }
        let mut made = DataSet::<T>::new(base_name, parameters);
        let (value, new_value) = made.add_sample(commits, fresh);
        self.datasets.insert(i, made);
        if commits > self.max_commits {
            self.max_commits = commits;
        }
        assert(self@.series =~= before.ingest(base_name@, parameters@, commits, fresh).series);
        Placement { series: i, value, new_series: true, new_value }
    }
}

} // verus!
