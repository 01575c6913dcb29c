//! What holds of every registry, whatever rows it was built from.

use crate::naming::series_name;
use crate::parameter::{strictly_sorted, Parameters};
use crate::registry::{lemma_ingest, Registry};
use crate::series::{has_key, key_rank, keys_ascend, lemma_key_rank, lemma_series_add, Series};
use crate::text::{ascending, has_text, lemma_lex_asymmetric, lemma_lex_irreflexive, lemma_text_rank};
use crate::text::{lex_less, text_rank, Text};
use vstd::prelude::*;

verus! {

/// One sample as the registry takes it: whose it is, its x-key, and what a
/// new slot for it would hold.
pub struct Sample<T> {
    pub base_name: Text,
    pub parameters: Parameters,
    pub commits: u64,
    pub fresh: T,
}

impl<T> Sample<T> {
    /// The full name of the series that the sample belongs to.
    pub open spec fn name(self) -> Text {
        series_name(self.base_name, self.parameters)
    }
}

/// The registry after the samples, taken in their order.
pub open spec fn ingest_all<T>(start: Registry<T>, samples: Seq<Sample<T>>) -> Registry<T>
    decreases samples.len(),
{
    if samples.len() == 0 {
        start
    } else {
        let s = samples.last();
        ingest_all(start, samples.drop_last()).ingest(s.base_name, s.parameters, s.commits, s.fresh)
    }
}

/// The parameters of every sample are in order.
pub open spec fn samples_wf<T>(samples: Seq<Sample<T>>) -> bool {
    forall|k: int| 0 <= k < samples.len() ==> strictly_sorted((#[trigger] samples[k]).parameters)
}

/// The registry has a series named `name` with a slot for `key`.
pub open spec fn holds<T>(r: Registry<T>, name: Text, key: u64) -> bool {
    exists|i: int|
        0 <= i < r.series.len() && (#[trigger] r.series[i]).name == name && r.series[i].keys.contains(
            key,
        )
}

/// What a slot holds may change without harm: series and registry stay well
/// formed.
pub proof fn lemma_with_slot<T>(r: Registry<T>, series: int, value: int, held: T)
    requires
        r.wf(),
        0 <= series < r.series.len(),
        0 <= value < r.series[series].keys.len(),
    ensures
        r.series[series].with_slot(value, held).wf(),
        r.with_slot(series, value, held).wf(),
        r.with_slot(series, value, held).names() == r.names(),
{
    let after = r.with_slot(series, value, held);
    assert(after.names() =~= r.names());
    assert forall|i: int| 0 <= i < after.series.len() implies (#[trigger] after.series[i]).wf()
        && after.series[i].keys.len() > 0 && after.series[i].max_commits <= after.max_commits by {
        if i != series {
            assert(after.series[i] == r.series[i]);
        }
    }
    let w = choose|w: int|
        0 <= w < r.series.len() && (#[trigger] r.series[w]).max_commits == r.max_commits;
    if w != series {
        assert(after.series[w] == r.series[w]);
    }
    assert(after.series[w].max_commits == after.max_commits);
}

/// Samples keep a registry well formed, and its maximum never shrinks.
pub proof fn lemma_ingest_all<T>(start: Registry<T>, samples: Seq<Sample<T>>)
    requires
        start.wf(),
        samples_wf(samples),
    ensures
        ingest_all(start, samples).wf(),
        ingest_all(start, samples).max_commits >= start.max_commits,
        forall|k: int| 0 <= k < samples.len() ==> ingest_all(start, samples).max_commits >= (#[trigger] samples[k]).commits,
    decreases samples.len(),
{
    if samples.len() > 0 {
        let init = samples.drop_last();
        let s = samples.last();
        assert(s == samples[samples.len() - 1]);
        assert forall|k: int| 0 <= k < init.len() implies strictly_sorted(
            (#[trigger] init[k]).parameters,
        ) by {
            assert(init[k] == samples[k]);
        }
        lemma_ingest_all(start, init);
        lemma_ingest(ingest_all(start, init), s.base_name, s.parameters, s.commits, s.fresh);
        assert forall|k: int| 0 <= k < samples.len() implies ingest_all(start, samples).max_commits
            >= (#[trigger] samples[k]).commits by {
            if k < init.len() {
                assert(init[k] == samples[k]);
            }
        }
    }
}

/// Two registries built from the empty one by the same samples are the same
/// registry: names, x-keys, slots and maxima.
pub proof fn lemma_same_samples_same_registry<T>(a: Registry<T>, b: Registry<T>, samples: Seq<Sample<T>>)
    requires
        a == ingest_all(Registry::<T>::empty(), samples),
        b == ingest_all(Registry::<T>::empty(), samples),
    ensures
        a == b,
        a.names() == b.names(),
        a.max_commits == b.max_commits,
        forall|i: int|
            0 <= i < a.series.len() ==> (#[trigger] a.series[i]).keys == b.series[i].keys
                && a.series[i].max_commits == b.series[i].max_commits && a.series[i].samples
                == b.series[i].samples,
{
}

/// Ascending texts that hold the same texts are the same sequence.
pub proof fn lemma_ascending_unique(a: Seq<Text>, b: Seq<Text>)
    requires
        ascending(a),
        ascending(b),
        forall|x: Text| a.contains(x) == b.contains(x),
    ensures
        a == b,
    decreases a.len(),
{
    if a.len() == 0 {
        if b.len() > 0 {
            assert(b.contains(b[0]));
        }
        assert(a =~= b);
    } else if b.len() == 0 {
        assert(a.contains(a[0]));
    } else {
        let la = a.last();
        let lb = b.last();
        assert(a.contains(la));
        assert(b.contains(lb));
        let i = choose|i: int| 0 <= i < b.len() && b[i] == la;
        let j = choose|j: int| 0 <= j < a.len() && a[j] == lb;
        if la != lb {
            assert(lex_less(b[i], b[b.len() - 1]));
            assert(lex_less(a[j], a[a.len() - 1]));
            lemma_lex_asymmetric(la, lb);
        }
        let ta = a.drop_last();
        let tb = b.drop_last();
        assert forall|x: Text| ta.contains(x) == tb.contains(x) by {
            lemma_lex_irreflexive(la);
            if ta.contains(x) {
                let k = choose|k: int| 0 <= k < ta.len() && ta[k] == x;
                assert(a[k] == x);
                assert(lex_less(a[k], a[a.len() - 1]));
                assert(a.contains(x));
                let m = choose|m: int| 0 <= m < b.len() && b[m] == x;
                assert(tb[m] == x);
            }
            if tb.contains(x) {
                let k = choose|k: int| 0 <= k < tb.len() && tb[k] == x;
                assert(b[k] == x);
                assert(lex_less(b[k], b[b.len() - 1]));
                assert(b.contains(x));
                let m = choose|m: int| 0 <= m < a.len() && a[m] == x;
                assert(ta[m] == x);
            }
        }
        assert(ascending(ta)) by {
            assert forall|x: int, y: int| 0 <= x < y < ta.len() implies lex_less(
                #[trigger] ta[x],
                #[trigger] ta[y],
            ) by {
                assert(ta[x] == a[x] && ta[y] == a[y]);
            }
        }
        assert(ascending(tb)) by {
            assert forall|x: int, y: int| 0 <= x < y < tb.len() implies lex_less(
                #[trigger] tb[x],
                #[trigger] tb[y],
            ) by {
                assert(tb[x] == b[x] && tb[y] == b[y]);
            }
        }
        lemma_ascending_unique(ta, tb);
        assert(a =~= ta.push(la));
        assert(b =~= tb.push(lb));
    }
}

/// Ascending keys that hold the same keys are the same sequence.
pub proof fn lemma_keys_unique(a: Seq<u64>, b: Seq<u64>)
    requires
        keys_ascend(a),
        keys_ascend(b),
        forall|x: u64| a.contains(x) == b.contains(x),
    ensures
        a == b,
    decreases a.len(),
{
    if a.len() == 0 {
        if b.len() > 0 {
            assert(b.contains(b[0]));
        }
        assert(a =~= b);
    } else if b.len() == 0 {
        assert(a.contains(a[0]));
    } else {
        let la = a.last();
        let lb = b.last();
        assert(a.contains(la));
        assert(b.contains(lb));
        let i = choose|i: int| 0 <= i < b.len() && b[i] == la;
        let j = choose|j: int| 0 <= j < a.len() && a[j] == lb;
        if la != lb {
            assert(i < b.len() - 1 ==> b[i] < b[b.len() - 1]);
            assert(j < a.len() - 1 ==> a[j] < a[a.len() - 1]);
        }
        let ta = a.drop_last();
        let tb = b.drop_last();
        assert forall|x: u64| ta.contains(x) == tb.contains(x) by {
            if ta.contains(x) {
                let k = choose|k: int| 0 <= k < ta.len() && ta[k] == x;
                assert(a[k] == x);
                assert(a[k] < a[a.len() - 1]);
                assert(a.contains(x));
                let m = choose|m: int| 0 <= m < b.len() && b[m] == x;
                assert(tb[m] == x);
            }
            if tb.contains(x) {
                let k = choose|k: int| 0 <= k < tb.len() && tb[k] == x;
                assert(b[k] == x);
                assert(b[k] < b[b.len() - 1]);
                assert(b.contains(x));
                let m = choose|m: int| 0 <= m < a.len() && a[m] == x;
                assert(ta[m] == x);
            }
        }
        assert(keys_ascend(ta)) by {
            assert forall|x: int, y: int| 0 <= x < y < ta.len() implies #[trigger] ta[x]
                < #[trigger] ta[y] by {
                assert(ta[x] == a[x] && ta[y] == a[y]);
            }
        }
        assert(keys_ascend(tb)) by {
            assert forall|x: int, y: int| 0 <= x < y < tb.len() implies #[trigger] tb[x]
                < #[trigger] tb[y] by {
                assert(tb[x] == b[x] && tb[y] == b[y]);
            }
        }
        lemma_keys_unique(ta, tb);
        assert(a =~= ta.push(la));
        assert(b =~= tb.push(lb));
    }
}

/// After a sample a series has the keys it had, and that of the sample.
pub proof fn lemma_series_add_keys<T>(s: Series<T>, commits: u64, fresh: T)
    requires
        s.wf(),
    ensures
        forall|k: u64| s.add(commits, fresh).keys.contains(k) == (s.keys.contains(k) || k == commits),
{
    let r = s.add(commits, fresh);
    let i = key_rank(s.keys, commits);
    lemma_key_rank(s.keys, commits);
    lemma_series_add(s, commits, fresh);
    assert forall|k: u64| r.keys.contains(k) == (s.keys.contains(k) || k == commits) by {
        if k == commits {
            assert(r.keys[i] == commits);
        }
        if r.keys.contains(k) && k != commits {
            let j = choose|j: int| 0 <= j < r.keys.len() && r.keys[j] == k;
            if !has_key(s.keys, commits) {
                let j0 = if j < i { j } else { j - 1 };
                assert(s.keys[j0] == k);
            }
        }
    }
}

/// After a sample a registry has the series it had and that of the sample,
/// and each series the slots it had and that of the sample.
pub proof fn lemma_ingest_holds<T>(r: Registry<T>, s: Sample<T>)
    requires
        r.wf(),
        strictly_sorted(s.parameters),
    ensures
        forall|n: Text|
            r.ingest(s.base_name, s.parameters, s.commits, s.fresh).names().contains(n) == (
            r.names().contains(n) || n == s.name()),
        forall|n: Text, key: u64|
            holds(r.ingest(s.base_name, s.parameters, s.commits, s.fresh), n, key) == (holds(
                r,
                n,
                key,
            ) || (n == s.name() && key == s.commits)),
{
    let name = s.name();
    let after = r.ingest(s.base_name, s.parameters, s.commits, s.fresh);
    let i = text_rank(r.names(), name);
    lemma_text_rank(r.names(), name);
    lemma_ingest(r, s.base_name, s.parameters, s.commits, s.fresh);
    let present = has_text(r.names(), name);
    if present {
        lemma_series_add_keys(r.series[i], s.commits, s.fresh);
        lemma_series_add(r.series[i], s.commits, s.fresh);
        assert(r.names()[i] == r.series[i].name);
    } else {
        let made = Series::<T>::empty(s.base_name, s.parameters);
        lemma_series_add_keys(made, s.commits, s.fresh);
        lemma_series_add(made, s.commits, s.fresh);
    }
    assert forall|n: Text| after.names().contains(n) == (r.names().contains(n) || n == name) by {
        if present {
            assert(r.names().contains(name));
        } else {
            assert(after.names()[i] == name);
            if r.names().contains(n) {
                let j = choose|j: int| 0 <= j < r.names().len() && r.names()[j] == n;
                let j1 = if j < i { j } else { j + 1 };
                assert(after.names()[j1] == n);
            }
            if after.names().contains(n) && n != name {
                let j = choose|j: int| 0 <= j < after.names().len() && after.names()[j] == n;
                let j0 = if j < i { j } else { j - 1 };
                assert(r.names()[j0] == n);
            }
        }
    }
    assert forall|n: Text, key: u64|
        holds(after, n, key) == (holds(r, n, key) || (n == name && key == s.commits)) by {
        if holds(r, n, key) {
            let j = choose|j: int|
                0 <= j < r.series.len() && (#[trigger] r.series[j]).name == n
                    && r.series[j].keys.contains(key);
            if present {
                if j != i {
                    assert(after.series[j] == r.series[j]);
                }
                assert(after.series[j].name == n && after.series[j].keys.contains(key));
            } else {
                let j1 = if j < i { j } else { j + 1 };
                assert(after.series[j1] == r.series[j]);
                assert(after.series[j1].name == n && after.series[j1].keys.contains(key));
            }
        }
        if n == name && key == s.commits {
            assert(after.series[i].name == n && after.series[i].keys.contains(key));
        }
        if holds(after, n, key) && !(n == name && key == s.commits) {
            let j = choose|j: int|
                0 <= j < after.series.len() && (#[trigger] after.series[j]).name == n
                    && after.series[j].keys.contains(key);
            if present {
                if j != i {
                    assert(after.series[j] == r.series[j]);
                }
                assert(r.series[j].name == n && r.series[j].keys.contains(key));
            } else {
                if j == i {
                    let made = Series::<T>::empty(s.base_name, s.parameters);
                    assert(!made.keys.contains(key)) by {
                        if made.keys.contains(key) {
                            let m = choose|m: int| 0 <= m < made.keys.len() && made.keys[m] == key;
                        }
                    }
                } else {
                    let j0 = if j < i { j } else { j - 1 };
                    assert(after.series[j] == r.series[j0]);
                    assert(r.series[j0].name == n && r.series[j0].keys.contains(key));
                }
            }
        }
    }
}

/// Some sample belongs to the series named `n`.
pub open spec fn named<T>(samples: Seq<Sample<T>>, n: Text) -> bool {
    exists|k: int| 0 <= k < samples.len() && (#[trigger] samples[k]).name() == n
}

/// Some sample belongs to the series named `n` and has the x-key `key`.
pub open spec fn sampled<T>(samples: Seq<Sample<T>>, n: Text, key: u64) -> bool {
    exists|k: int|
        0 <= k < samples.len() && (#[trigger] samples[k]).name() == n && samples[k].commits == key
}

/// A registry built from the empty one has a series for exactly the names
/// of its samples, and in each series a slot for exactly the x-keys of the
/// samples of that name.
pub proof fn lemma_ingest_all_holds<T>(samples: Seq<Sample<T>>)
    requires
        samples_wf(samples),
    ensures
        forall|n: Text|
            ingest_all(Registry::<T>::empty(), samples).names().contains(n) == named(samples, n),
        forall|n: Text, key: u64|
            holds(ingest_all(Registry::<T>::empty(), samples), n, key) == sampled(samples, n, key),
    decreases samples.len(),
{
    let start = Registry::<T>::empty();
    let r = ingest_all(start, samples);
    if samples.len() == 0 {
        assert(r.names() =~= Seq::<Text>::empty());
        assert forall|n: Text| r.names().contains(n) == named(samples, n) by {
            if r.names().contains(n) {
                let j = choose|j: int| 0 <= j < r.names().len() && r.names()[j] == n;
            }
        }
        assert forall|n: Text, key: u64| holds(r, n, key) == sampled(samples, n, key) by {}
    } else {
        let init = samples.drop_last();
        let s = samples.last();
        assert(s == samples[samples.len() - 1]);
        assert forall|k: int| 0 <= k < init.len() implies strictly_sorted(
            (#[trigger] init[k]).parameters,
        ) by {
            assert(init[k] == samples[k]);
        }
        assert(start.names() =~= Seq::<Text>::empty());
        assert(start.wf());
        lemma_ingest_all(start, init);
        lemma_ingest_all_holds(init);
        let before = ingest_all(start, init);
        lemma_ingest_holds(before, s);
        assert forall|n: Text| r.names().contains(n) == named(samples, n) by {
            if named(init, n) {
                let k = choose|k: int| 0 <= k < init.len() && (#[trigger] init[k]).name() == n;
                assert(samples[k].name() == n);
            }
            if named(samples, n) && n != s.name() {
                let k = choose|k: int| 0 <= k < samples.len() && (#[trigger] samples[k]).name() == n;
                assert(init[k].name() == n);
            }
        }
        assert forall|n: Text, key: u64| holds(r, n, key) == sampled(samples, n, key) by {
            if sampled(init, n, key) {
                let k = choose|k: int|
                    0 <= k < init.len() && (#[trigger] init[k]).name() == n && init[k].commits == key;
                assert(samples[k].name() == n && samples[k].commits == key);
            }
            if sampled(samples, n, key) && !(n == s.name() && key == s.commits) {
                let k = choose|k: int|
                    0 <= k < samples.len() && (#[trigger] samples[k]).name() == n && samples[k].commits
                        == key;
                assert(init[k].name() == n && init[k].commits == key);
            }
        }
    }
}

/// Order independence: the same samples in another order give the same
/// series, each with the same x-keys, and the same maxima.
pub proof fn lemma_order_of_samples<T>(a: Seq<Sample<T>>, b: Seq<Sample<T>>)
    requires
        samples_wf(a),
        a.to_multiset() == b.to_multiset(),
    ensures
        ingest_all(Registry::<T>::empty(), a).names() == ingest_all(Registry::<T>::empty(), b).names(),
        ingest_all(Registry::<T>::empty(), a).max_commits == ingest_all(
            Registry::<T>::empty(),
            b,
        ).max_commits,
        forall|i: int|
            0 <= i < ingest_all(Registry::<T>::empty(), a).series.len() ==> {
                &&& (#[trigger] ingest_all(Registry::<T>::empty(), a).series[i]).keys == ingest_all(
                    Registry::<T>::empty(),
                    b,
                ).series[i].keys
                &&& ingest_all(Registry::<T>::empty(), a).series[i].max_commits == ingest_all(
                    Registry::<T>::empty(),
                    b,
                ).series[i].max_commits
            },
{
    let start = Registry::<T>::empty();
    let ra = ingest_all(start, a);
    let rb = ingest_all(start, b);
    // Each sample of one sequence is a sample of the other.
    assert forall|k: int| 0 <= k < a.len() implies b.contains(#[trigger] a[k]) by {
        vstd::seq_lib::to_multiset_contains(a, a[k]);
        vstd::seq_lib::to_multiset_contains(b, a[k]);
        assert(a.contains(a[k]));
    }
    assert forall|k: int| 0 <= k < b.len() implies a.contains(#[trigger] b[k]) by {
        vstd::seq_lib::to_multiset_contains(a, b[k]);
        vstd::seq_lib::to_multiset_contains(b, b[k]);
        assert(b.contains(b[k]));
    }
    assert(samples_wf(b)) by {
        assert forall|k: int| 0 <= k < b.len() implies strictly_sorted(
            (#[trigger] b[k]).parameters,
        ) by {
            assert(a.contains(b[k]));
            let m = choose|m: int| 0 <= m < a.len() && a[m] == b[k];
            assert(strictly_sorted(a[m].parameters));
        }
    }
    assert(start.names() =~= Seq::<Text>::empty());
    lemma_ingest_all(start, a);
    lemma_ingest_all(start, b);
    lemma_ingest_all_holds(a);
    lemma_ingest_all_holds(b);
    assert forall|n: Text| named(a, n) == named(b, n) by {
        if named(a, n) {
            let k = choose|k: int| 0 <= k < a.len() && (#[trigger] a[k]).name() == n;
            assert(b.contains(a[k]));
            let m = choose|m: int| 0 <= m < b.len() && b[m] == a[k];
            assert(b[m].name() == n);
        }
        if named(b, n) {
            let k = choose|k: int| 0 <= k < b.len() && (#[trigger] b[k]).name() == n;
            assert(a.contains(b[k]));
            let m = choose|m: int| 0 <= m < a.len() && a[m] == b[k];
            assert(a[m].name() == n);
        }
    }
    assert forall|n: Text, key: u64| sampled(a, n, key) == sampled(b, n, key) by {
        if sampled(a, n, key) {
            let k = choose|k: int|
                0 <= k < a.len() && (#[trigger] a[k]).name() == n && a[k].commits == key;
            assert(b.contains(a[k]));
            let m = choose|m: int| 0 <= m < b.len() && b[m] == a[k];
            assert(b[m].name() == n && b[m].commits == key);
        }
        if sampled(b, n, key) {
            let k = choose|k: int|
                0 <= k < b.len() && (#[trigger] b[k]).name() == n && b[k].commits == key;
            assert(a.contains(b[k]));
            let m = choose|m: int| 0 <= m < a.len() && a[m] == b[k];
            assert(a[m].name() == n && a[m].commits == key);
        }
    }
    assert forall|n: Text| ra.names().contains(n) == rb.names().contains(n) by {
        assert(ra.names().contains(n) == named(a, n));
        assert(rb.names().contains(n) == named(b, n));
    }
    lemma_ascending_unique(ra.names(), rb.names());
    assert(ra.series.len() == rb.series.len()) by {
        assert(ra.names().len() == ra.series.len());
        assert(rb.names().len() == rb.series.len());
    }
    assert forall|i: int| 0 <= i < ra.series.len() implies (#[trigger] ra.series[i]).keys
        == rb.series[i].keys && ra.series[i].max_commits == rb.series[i].max_commits by {
        let n = ra.series[i].name;
        assert(ra.names()[i] == n);
        assert(rb.names()[i] == rb.series[i].name);
        assert(ra.series[i].wf() && rb.series[i].wf());
        assert forall|key: u64| ra.series[i].keys.contains(key) == rb.series[i].keys.contains(
            key,
        ) by {
            lemma_holds_at(ra, i, key);
            lemma_holds_at(rb, i, key);
            assert(holds(ra, n, key) == sampled(a, n, key));
            assert(holds(rb, n, key) == sampled(b, n, key));
        }
        lemma_keys_unique(ra.series[i].keys, rb.series[i].keys);
    }
    if ra.series.len() > 0 {
        let wa = choose|w: int|
            0 <= w < ra.series.len() && (#[trigger] ra.series[w]).max_commits == ra.max_commits;
        let wb = choose|w: int|
            0 <= w < rb.series.len() && (#[trigger] rb.series[w]).max_commits == rb.max_commits;
        assert(ra.series[wa].max_commits == rb.series[wa].max_commits);
        assert(rb.series[wa].max_commits <= rb.max_commits);
        assert(ra.series[wb].max_commits == rb.series[wb].max_commits);
        assert(ra.series[wb].max_commits <= ra.max_commits);
    }
}

/// In a well-formed registry the series at place `i` has a slot for `key`
/// exactly when the registry has one under the name of that series.
pub proof fn lemma_holds_at<T>(r: Registry<T>, i: int, key: u64)
    requires
        r.wf(),
        0 <= i < r.series.len(),
    ensures
        holds(r, r.series[i].name, key) == r.series[i].keys.contains(key),
{
    let n = r.series[i].name;
    if holds(r, n, key) {
        let j = choose|j: int|
            0 <= j < r.series.len() && (#[trigger] r.series[j]).name == n && r.series[j].keys.contains(
                key,
            );
        assert(r.names()[i] == n && r.names()[j] == n);
        lemma_lex_irreflexive(n);
        if j < i {
            assert(lex_less(r.names()[j], r.names()[i]));
        } else if i < j {
            assert(lex_less(r.names()[i], r.names()[j]));
        }
    }
    if r.series[i].keys.contains(key) {
        assert(r.series[i].name == n && r.series[i].keys.contains(key));
    }
}

} // verus!
