//! Series and the registry that groups samples into them.
//!
//! A series holds one slot per x-key, the slots in ascending order of the
//! key. What a slot accumulates is the caller's own: the registry finds or
//! makes the slot and hands it out.

use crate::filter::FilterSet;
use crate::naming::{display_name, full_name, label, series_name, NameSet};
use crate::parameter::{strictly_sorted, ParameterSet, Parameters};
use crate::text::Text;
use vstd::prelude::*;

verus! {

/// The keys stand in strictly ascending order, so none occurs twice.
pub open spec fn keys_ascend(keys: Seq<u64>) -> bool {
    forall|i: int, j: int| 0 <= i < j < keys.len() ==> #[trigger] keys[i] < #[trigger] keys[j]
}

/// The place of `key` among the ascending `keys`: how many of them are
/// smaller.
pub open spec fn key_rank(keys: Seq<u64>, key: u64) -> int
    decreases keys.len(),
{
    if keys.len() == 0 {
        0
    } else if keys.last() < key {
        keys.len() as int
    } else {
        key_rank(keys.drop_last(), key)
    }
}

/// Whether the ascending `keys` hold `key`.
pub open spec fn has_key(keys: Seq<u64>, key: u64) -> bool {
    let i = key_rank(keys, key);
    i < keys.len() && keys[i] == key
}

/// The place of a key: all keys before it are smaller, none from it on is.
pub proof fn lemma_key_rank(keys: Seq<u64>, key: u64)
    requires
        keys_ascend(keys),
    ensures
        0 <= key_rank(keys, key) <= keys.len(),
        forall|i: int| 0 <= i < key_rank(keys, key) ==> #[trigger] keys[i] < key,
        forall|i: int| key_rank(keys, key) <= i < keys.len() ==> #[trigger] keys[i] >= key,
        has_key(keys, key) <==> keys.contains(key),
    decreases keys.len(),
{
    if keys.len() > 0 {
        if keys.last() < key {
            assert forall|i: int| 0 <= i < keys.len() implies #[trigger] keys[i] < key by {
                if i < keys.len() - 1 {
                    assert(keys[i] < keys[keys.len() - 1]);
                }
            }
        } else {
            let t = keys.drop_last();
            lemma_key_rank(t, key);
            assert forall|i: int| 0 <= i < key_rank(keys, key) implies #[trigger] keys[i] < key by {
                assert(keys[i] == t[i]);
            }
            assert forall|i: int| key_rank(keys, key) <= i < keys.len() implies #[trigger] keys[i]
                >= key by {
                if i < keys.len() - 1 {
                    assert(keys[i] == t[i]);
                }
            }
        }
    }
    let r = key_rank(keys, key);
    if keys.contains(key) {
        let k = choose|k: int| 0 <= k < keys.len() && keys[k] == key;
        if k < r {
            assert(keys[k] < key);
        } else if k > r {
            assert(keys[r] < keys[k]);
            assert(keys[r] >= key);
        }
    }
    if has_key(keys, key) {
        assert(keys[r] == key);
    }
}

/// The larger of two counts.
pub open spec fn larger(a: u64, b: u64) -> u64 {
    if a >= b {
        a
    } else {
        b
    }
}

/// A series as contracts see it.
#[verifier::ext_equal]
pub struct Series<T> {
    /// The full name, which tells the series from all others.
    pub name: Text,
    pub base_name: Text,
    pub parameters: Parameters,
    /// The x-keys of the slots, ascending.
    pub keys: Seq<u64>,
    /// What the slots hold, in the order of the keys.
    pub samples: Seq<T>,
    /// The largest x-key of any sample.
    pub max_commits: u64,
}

impl<T> Series<T> {
    /// The series is well formed: it bears the name of its base name and
    /// parameters, its keys ascend, each has its slot, and the recorded
    /// maximum is the largest key, or 0 while there is none.
    pub open spec fn wf(self) -> bool {
        &&& self.name == series_name(self.base_name, self.parameters)
        &&& strictly_sorted(self.parameters)
        &&& keys_ascend(self.keys)
        &&& self.samples.len() == self.keys.len()
        &&& self.max_commits == if self.keys.len() > 0 {
            self.keys.last()
        } else {
            0
        }
    }

    /// The series without samples.
    pub open spec fn empty(base_name: Text, parameters: Parameters) -> Series<T> {
        Series {
            name: series_name(base_name, parameters),
            base_name,
            parameters,
            keys: Seq::empty(),
            samples: Seq::empty(),
            max_commits: 0,
        }
    }

    /// The series after a sample at the x-key `commits`: the key has its
    /// slot, a new one holding `fresh` where there was none, and the maximum
    /// has grown to the key where it was smaller.
    pub open spec fn add(self, commits: u64, fresh: T) -> Series<T> {
        let i = key_rank(self.keys, commits);
        if has_key(self.keys, commits) {
            Series { max_commits: larger(self.max_commits, commits), ..self }
        } else {
            Series {
                keys: self.keys.insert(i, commits),
                samples: self.samples.insert(i, fresh),
                max_commits: larger(self.max_commits, commits),
                ..self
            }
        }
    }


    /// The series with the slot at place `i` holding `value`.
    pub open spec fn with_slot(self, i: int, value: T) -> Series<T> {
        Series { samples: self.samples.update(i, value), ..self }
    }
}

/// A sample keeps a series well formed, leaves its identity alone, and the
/// key of the sample has its slot afterwards.
pub proof fn lemma_series_add<T>(s: Series<T>, commits: u64, fresh: T)
    requires
        s.wf(),
    ensures
        s.add(commits, fresh).wf(),
        s.add(commits, fresh).name == s.name,
        s.add(commits, fresh).keys[key_rank(s.keys, commits)] == commits,
        0 <= key_rank(s.keys, commits) < s.add(commits, fresh).keys.len(),
        s.add(commits, fresh).max_commits >= s.max_commits,
        s.add(commits, fresh).max_commits >= commits,
        forall|k: u64| s.keys.contains(k) ==> s.add(commits, fresh).keys.contains(k),
{
    let r = s.add(commits, fresh);
    let i = key_rank(s.keys, commits);
    lemma_key_rank(s.keys, commits);
    if has_key(s.keys, commits) {
        assert(s.keys[i] <= s.keys[s.keys.len() - 1]);
    } else {
        assert forall|a: int, b: int| 0 <= a < b < r.keys.len() implies #[trigger] r.keys[a]
            < #[trigger] r.keys[b] by {
            let a0 = if a < i { a } else { a - 1 };
            let b0 = if b < i { b } else { b - 1 };
            if a != i {
                assert(r.keys[a] == s.keys[a0]);
            }
            if b != i {
                assert(r.keys[b] == s.keys[b0]);
            }
        }
        if i < s.keys.len() {
            assert(r.keys.last() == s.keys.last());
            assert(s.keys[i] >= commits);
            assert(s.keys[i] <= s.keys[s.keys.len() - 1]);
        } else if s.keys.len() > 0 {
            assert(s.keys[s.keys.len() - 1] < commits);
        }
        assert forall|k: u64| s.keys.contains(k) implies r.keys.contains(k) by {
            let j = choose|j: int| 0 <= j < s.keys.len() && s.keys[j] == k;
            let j1 = if j < i { j } else { j + 1 };
            assert(r.keys[j1] == k);
        }
    }
}

/// The slot of one x-key.
pub struct ValueSet<T> {
    num_commits: u64,
    samples: T,
}

impl<T> ValueSet<T> {
    /// A slot for the x-key `num_commits`.
    pub fn new(num_commits: u64, samples: T) -> (r: ValueSet<T>)
        ensures
            r.key() == num_commits,
            r.held() == samples,
    {
        ValueSet { num_commits, samples }
    }

    /// What the slot accumulates.
    pub closed spec fn held(&self) -> T {
        self.samples
    }

    /// What the slot accumulates.
    pub fn samples(&self) -> (r: &T)
        ensures
            *r == self.held(),
    {
        &self.samples
    }

    /// The x-key of the slot.
    pub closed spec fn key(&self) -> u64 {
        self.num_commits
    }

    /// The x-key of the slot.
    pub fn num_commits(&self) -> (r: u64)
        ensures
            r == self.key(),
    {
        self.num_commits
    }
}

/// A series: the samples of one base name and parameter set.
pub struct DataSet<T> {
    name: String,
    base_name: String,
    parameters: ParameterSet,
    sorted_values: Vec<ValueSet<T>>,
    max_commits: u64,
}

impl<T> View for DataSet<T> {
    type V = Series<T>;

    closed spec fn view(&self) -> Series<T> {
        Series {
            name: self.name@,
            base_name: self.base_name@,
            parameters: self.parameters@,
            keys: self.sorted_values@.map_values(|v: ValueSet<T>| v.num_commits),
            samples: self.sorted_values@.map_values(|v: ValueSet<T>| v.samples),
            max_commits: self.max_commits,
        }
    }
}

impl<T> DataSet<T> {
    /// The series is well formed.
    pub open spec fn wf(&self) -> bool {
        self@.wf()
    }

    /// A series without samples.
    pub fn new(base_name: String, parameters: ParameterSet) -> (r: DataSet<T>)
        requires
            parameters.wf(),
        ensures
            r.wf(),
            r@ == Series::<T>::empty(base_name@, parameters@),
    {
        let name = full_name(base_name.clone(), &parameters);
        let r = DataSet { name, base_name, parameters, sorted_values: Vec::new(), max_commits: 0 };
        assert(r@.keys =~= Seq::<u64>::empty());
        assert(r@.samples =~= Seq::<T>::empty());
        r
    }

    /// The full name of a series with this base name and these parameters.
    pub fn get_name(base_name: String, parameters: &ParameterSet) -> (r: String)
        ensures
            r@ == series_name(base_name@, parameters@),
    {
        full_name(base_name, parameters)
    }

    /// The label of a series that shows the parameters named in
    /// `chosen_parameters`.
    pub fn get_name_including(
        base_name: String,
        parameters: &ParameterSet,
        chosen_parameters: &NameSet,
    ) -> (r: String)
        ensures
            r@ == display_name(base_name@, parameters@, chosen_parameters@),
    {
        label(base_name, parameters, chosen_parameters)
    }

    /// Whether the series passes the filter.
    pub fn passes_filters<F: FilterSet>(&self, filters: &F) -> (r: bool)
        requires
            self.wf(),
        ensures
            r == filters.passes(self@.parameters),
    {
        filters.passes_filters(&self.parameters)
    }

    /// The full name of the series.
    pub fn name(&self) -> (r: &String)
        ensures
            r@ == self@.name,
    {
        &self.name
    }

    /// The base name of the series.
    pub fn base_name(&self) -> (r: &String)
        ensures
            r@ == self@.base_name,
    {
        &self.base_name
    }

    /// The parameters of the series.
    pub fn parameters(&self) -> (r: &ParameterSet)
        requires
            self.wf(),
        ensures
            r@ == self@.parameters,
            r.wf(),
    {
        &self.parameters
    }

    /// The largest x-key of any sample of the series, 0 while it has none.
    pub fn max_commits(&self) -> (r: u64)
        ensures
            r == self@.max_commits,
    {
        self.max_commits
    }

    /// How many slots the series has.
    pub fn len(&self) -> (n: usize)
        ensures
            n == self@.keys.len(),
    {
        self.sorted_values.len()
    }

    /// The slot at place `i` in the order of the x-keys.
    pub fn value(&self, i: usize) -> (r: &ValueSet<T>)
        requires
            i < self@.keys.len(),
        ensures
            r.key() == self@.keys[i as int],
            r.held() == self@.samples[i as int],
    {
        &self.sorted_values[i]
    }

    /// What the slot at place `i` accumulates, to be changed in place.
    pub fn samples_mut(&mut self, i: usize) -> (r: &mut T)
        requires
            i < old(self)@.keys.len(),
        ensures
            *r == old(self)@.samples[i as int],
            final(self)@ =~~= old(self)@.with_slot(i as int, *final(r)),
    {
        &mut self.sorted_values[i].samples
    }

    /// Records a sample at the x-key `commits`. Its slot is found by binary
    /// search, or made, holding `fresh`, at its place in the order of the
    /// keys. Returns the place of the slot and whether it was made.
    pub fn add_sample(&mut self, commits: u64, fresh: T) -> (r: (usize, bool))
        requires
            old(self).wf(),
        ensures
            final(self).wf(),
            final(self)@ == old(self)@.add(commits, fresh),
            r.0 == key_rank(old(self)@.keys, commits),
            r.1 == !has_key(old(self)@.keys, commits),
    {
        let ghost before = self@;
        proof {
            lemma_key_rank(before.keys, commits);
            lemma_series_add(before, commits, fresh);
        }
        if commits > self.max_commits {
            self.max_commits = commits;
        }
        let mut lo: usize = 0;
        let mut hi: usize = self.sorted_values.len();
        while lo < hi
            invariant
                0 <= lo <= hi <= self.sorted_values@.len(),
                before.keys == self.sorted_values@.map_values(|v: ValueSet<T>| v.num_commits),
                lo <= key_rank(before.keys, commits) <= hi,
                forall|i: int| 0 <= i < key_rank(before.keys, commits) ==> #[trigger] before.keys[i] < commits,
                forall|i: int|
                    key_rank(before.keys, commits) <= i < before.keys.len() ==> #[trigger] before.keys[i]
                        >= commits,
            decreases hi - lo,
        {
            let mid = lo + (hi - lo) / 2;
            assert(before.keys[mid as int] == self.sorted_values@[mid as int].num_commits);
            if self.sorted_values[mid].num_commits < commits {
                lo = mid + 1;
            } else {
                hi = mid;
            }
        }
        if lo < self.sorted_values.len() {
            assert(before.keys[lo as int] == self.sorted_values@[lo as int].num_commits);
            if self.sorted_values[lo].num_commits == commits {
                assert(self@ =~~= before.add(commits, fresh));
                return (lo, false);
            }
        }
        self.sorted_values.insert(lo, ValueSet { num_commits: commits, samples: fresh });
        assert(self@ =~~= before.add(commits, fresh));
        (lo, true)
    }
}

} // verus!
