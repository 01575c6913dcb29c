//! Differential labelling: which parameters tell the series of one chart
//! apart, so that their labels need show no others.

use crate::naming::{display_name, lemma_display_name_of_none, NameSet};
use crate::parameter::{lemma_lookup, lemma_lookup_at, lookup, ParameterSet, Parameters};
use crate::text::Text;
use vstd::prelude::*;

verus! {

/// The parameter `name` is not constant across the series: two of them
/// give it different values, or one has it and another has not.
pub open spec fn varies(name: Text, sets: Seq<Parameters>) -> bool {
    exists|i: int, j: int|
        0 <= i < sets.len() && 0 <= j < sets.len() && lookup(#[trigger] sets[i], name) != lookup(
            #[trigger] sets[j],
            name,
        )
}

/// The discriminating parameters of the series: those that are not constant
/// across them.
pub open spec fn discriminating(sets: Seq<Parameters>) -> Set<Text> {
    Set::new(|name: Text| varies(name, sets))
}

/// The parameters in which one of the first `k` series departs from the
/// first.
pub open spec fn departing(sets: Seq<Parameters>, k: int) -> Set<Text> {
    Set::new(
        |name: Text|
            exists|j: int| 0 <= j < k && lookup(#[trigger] sets[j], name) != lookup(sets[0], name),
    )
}

/// Holding every series against the first one finds all parameters that are
/// not constant, and no others: whichever series serves as reference, the
/// result is the same.
pub proof fn lemma_any_reference(sets: Seq<Parameters>, reference: int)
    requires
        0 <= reference < sets.len(),
    ensures
        discriminating(sets) == Set::new(
            |name: Text|
                exists|j: int|
                    0 <= j < sets.len() && lookup(#[trigger] sets[j], name) != lookup(
                        sets[reference],
                        name,
                    ),
        ),
{
    let by_reference = Set::new(
        |name: Text|
            exists|j: int|
                0 <= j < sets.len() && lookup(#[trigger] sets[j], name) != lookup(
                    sets[reference],
                    name,
                ),
    );
    assert forall|name: Text| discriminating(sets).contains(name) == by_reference.contains(
        name,
    ) by {
        if varies(name, sets) {
            let (i, j) = choose|i: int, j: int|
                0 <= i < sets.len() && 0 <= j < sets.len() && lookup(#[trigger] sets[i], name)
                    != lookup(#[trigger] sets[j], name);
            if lookup(sets[i], name) != lookup(sets[reference], name) {
                assert(by_reference.contains(name));
            } else {
                assert(lookup(sets[j], name) != lookup(sets[reference], name));
                assert(by_reference.contains(name));
            }
        }
        if by_reference.contains(name) {
            let j = choose|j: int|
                0 <= j < sets.len() && lookup(#[trigger] sets[j], name) != lookup(
                    sets[reference],
                    name,
                );
            assert(lookup(sets[j], name) != lookup(sets[reference], name));
            assert(varies(name, sets));
        }
    }
    assert(discriminating(sets) =~= by_reference);
}

/// Series that all have the same parameters have no discriminating
/// parameter, and the label of each is its base name.
pub proof fn lemma_identical_series(sets: Seq<Parameters>, base: Text, i: int)
    requires
        0 <= i < sets.len(),
        forall|j: int| 0 <= j < sets.len() ==> #[trigger] sets[j] == sets[0],
    ensures
        discriminating(sets) == Set::<Text>::empty(),
        display_name(base, sets[i], discriminating(sets)) == base,
{
    assert forall|name: Text| !discriminating(sets).contains(name) by {
        if varies(name, sets) {
            let (a, b) = choose|a: int, b: int|
                0 <= a < sets.len() && 0 <= b < sets.len() && lookup(#[trigger] sets[a], name)
                    != lookup(#[trigger] sets[b], name);
            assert(sets[a] == sets[0] && sets[b] == sets[0]);
        }
    }
    assert(discriminating(sets) =~= Set::<Text>::empty());
    lemma_display_name_of_none(base, sets[i]);
}

/// Among series with the same parameters, one series that departs from the
/// others in a single parameter makes exactly that parameter
/// discriminating.
pub proof fn lemma_single_difference(sets: Seq<Parameters>, odd: int, name: Text)
    requires
        sets.len() >= 2,
        0 <= odd < sets.len(),
        forall|i: int, j: int|
            0 <= i < sets.len() && 0 <= j < sets.len() && i != odd && j != odd ==> #[trigger] sets[i]
                == #[trigger] sets[j],
        forall|i: int|
            0 <= i < sets.len() && i != odd ==> lookup(sets[odd], name) != lookup(
                #[trigger] sets[i],
                name,
            ),
        forall|i: int, other: Text|
            0 <= i < sets.len() && other != name ==> lookup(sets[odd], other) == #[trigger] lookup(
                sets[i],
                other,
            ),
    ensures
        discriminating(sets) == set![name],
{
    let usual: int = if odd == 0 {
        1
    } else {
        0
    };
    assert forall|n: Text| discriminating(sets).contains(n) == set![name].contains(n) by {
        if n == name {
            assert(lookup(sets[odd], name) != lookup(sets[usual], name));
            assert(varies(name, sets));
        } else if varies(n, sets) {
            let (a, b) = choose|a: int, b: int|
                0 <= a < sets.len() && 0 <= b < sets.len() && lookup(#[trigger] sets[a], n)
                    != lookup(#[trigger] sets[b], n);
            assert(lookup(sets[odd], n) == lookup(sets[a], n));
            assert(lookup(sets[odd], n) == lookup(sets[b], n));
        }
    }
    assert(discriminating(sets) =~= set![name]);
}

/// The views of the parameter sets.
pub open spec fn views(sets: Seq<&ParameterSet>) -> Seq<Parameters> {
    sets.map_values(|p: &ParameterSet| p@)
}

/// Marks in `marks` every parameter that `other` has otherwise than
/// `reference`, or that only one of the two has.
fn mark_differences(marks: &mut NameSet, reference: &ParameterSet, other: &ParameterSet)
    requires
        reference.wf(),
        other.wf(),
    ensures
        final(marks)@ == old(marks)@.union(
            Set::new(|name: Text| lookup(other@, name) != lookup(reference@, name)),
        ),
        old(marks).wf() ==> final(marks).wf(),
{
    let ghost start = marks@;
    let ghost sound = marks.wf();
    let ghost a = reference@;
    let ghost b = other@;
    let ghost target = Set::new(|name: Text| lookup(b, name) != lookup(a, name));
    let mut i: usize = 0;
    while i < reference.len()
        invariant
            i <= a.len(),
            a == reference@,
            b == other@,
            reference.wf(),
            other.wf(),
            sound ==> marks.wf(),
            marks@ == start.union(
                Set::new(
                    |name: Text|
                        exists|t: int|
                            0 <= t < i && (#[trigger] a[t]).0 == name && lookup(b, name) != Some(
                                a[t].1,
                            ),
                ),
            ),
        decreases a.len() - i,
    {
        let name = reference.name_at(i);
        let value = reference.value_at(i);
        let differs = match other.get(name.as_str()) {
            Some(v) => v != value,
            None => true,
        };
        if differs {
            marks.insert(name.clone());
        }
        proof {
            let done = Set::new(
                |name: Text|
                    exists|t: int|
                        0 <= t < i && (#[trigger] a[t]).0 == name && lookup(b, name) != Some(
                            a[t].1,
                        ),
            );
            let next = Set::new(
                |name: Text|
                    exists|t: int|
                        0 <= t < i + 1 && (#[trigger] a[t]).0 == name && lookup(b, name) != Some(
                            a[t].1,
                        ),
            );
            assert forall|n: Text| marks@.contains(n) == start.union(next).contains(n) by {
                if done.contains(n) {
                    let t = choose|t: int|
                        0 <= t < i && (#[trigger] a[t]).0 == n && lookup(b, n) != Some(a[t].1);
                    assert(a[t].0 == n);
                    assert(next.contains(n));
                }
                if differs && n == name@ {
                    assert(a[i as int].0 == n);
                    assert(next.contains(n));
                }
                if next.contains(n) && !done.contains(n) {
                    let t = choose|t: int|
                        0 <= t < i + 1 && (#[trigger] a[t]).0 == n && lookup(b, n) != Some(a[t].1);
                    assert(t == i);
                }
            }
            assert(marks@ =~= start.union(next));
        }
        i = i + 1;
    }
    let ghost first = Set::new(
        |name: Text|
            exists|t: int|
                0 <= t < a.len() && (#[trigger] a[t]).0 == name && lookup(b, name) != Some(a[t].1),
    );
    let mut k: usize = 0;
    while k < other.len()
        invariant
            k <= b.len(),
            a == reference@,
            b == other@,
            reference.wf(),
            other.wf(),
            sound ==> marks.wf(),
            marks@ == start.union(first).union(
                Set::new(
                    |name: Text|
                        exists|t: int|
                            0 <= t < k && (#[trigger] b[t]).0 == name && lookup(a, name) is None,
                ),
            ),
        decreases b.len() - k,
    {
        let name = other.name_at(k);
        let missing = reference.get(name.as_str()).is_none();
        if missing {
            marks.insert(name.clone());
        }
        proof {
            let done = Set::new(
                |name: Text|
                    exists|t: int|
                        0 <= t < k && (#[trigger] b[t]).0 == name && lookup(a, name) is None,
            );
            let next = Set::new(
                |name: Text|
                    exists|t: int|
                        0 <= t < k + 1 && (#[trigger] b[t]).0 == name && lookup(a, name) is None,
            );
            assert forall|n: Text| marks@.contains(n) == start.union(first).union(next).contains(
                n,
            ) by {
                if done.contains(n) {
                    let t = choose|t: int|
                        0 <= t < k && (#[trigger] b[t]).0 == n && lookup(a, n) is None;
                    assert(b[t].0 == n);
                    assert(next.contains(n));
                }
                if missing && n == name@ {
                    assert(b[k as int].0 == n);
                    assert(next.contains(n));
                }
                if next.contains(n) && !done.contains(n) {
                    let t = choose|t: int|
                        0 <= t < k + 1 && (#[trigger] b[t]).0 == n && lookup(a, n) is None;
                    assert(t == k);
                }
            }
            assert(marks@ =~= start.union(first).union(next));
        }
        k = k + 1;
    }
    proof {
        let second = Set::new(
            |name: Text|
                exists|t: int|
                    0 <= t < b.len() && (#[trigger] b[t]).0 == name && lookup(a, name) is None,
        );
        assert forall|n: Text| first.union(second).contains(n) == target.contains(n) by {
            lemma_lookup(a, n);
            lemma_lookup(b, n);
            if first.contains(n) {
                let t = choose|t: int|
                    0 <= t < a.len() && (#[trigger] a[t]).0 == n && lookup(b, n) != Some(a[t].1);
                lemma_lookup_at(a, t);
            }
            if second.contains(n) {
                let t = choose|t: int|
                    0 <= t < b.len() && (#[trigger] b[t]).0 == n && lookup(a, n) is None;
                lemma_lookup_at(b, t);
            }
            if target.contains(n) {
                match lookup(a, n) {
                    Some(v) => {
                        let t = choose|t: int| 0 <= t < a.len() && #[trigger] a[t] == (n, v);
                        assert(a[t].0 == n);
                        assert(first.contains(n));
                    },
                    None => {
                        let w = lookup(b, n)->0;
                        let t = choose|t: int| 0 <= t < b.len() && #[trigger] b[t] == (n, w);
                        assert(b[t].0 == n);
                        assert(second.contains(n));
                    },
                }
            }
        }
        assert(marks@ =~= start.union(target));
    }
}

/// The discriminating parameters of the series with these parameter sets.
/// The first set serves as reference: every other one is held against it,
/// name by name from both sides.
pub fn discriminating_parameters(sets: &Vec<&ParameterSet>) -> (r: NameSet)
    requires
        forall|i: int| 0 <= i < sets@.len() ==> (#[trigger] sets@[i]).wf(),
    ensures
        r.wf(),
        r@ == discriminating(views(sets@)),
{
    let mut marks = NameSet::new();
    let ghost all = views(sets@);
    if sets.len() == 0 {
        assert(marks@ =~= discriminating(all)) by {
            assert forall|name: Text| !varies(name, all) by {}
        }
        return marks;
    }
    let reference = sets[0];
    let mut k: usize = 1;
    proof {
        assert(marks@ =~= departing(all, 1)) by {
            assert forall|name: Text| !departing(all, 1).contains(name) by {}
        }
    }
    while k < sets.len()
        invariant
            1 <= k <= sets@.len(),
            all == views(sets@),
            reference == sets@[0],
            forall|i: int| 0 <= i < sets@.len() ==> (#[trigger] sets@[i]).wf(),
            marks.wf(),
            marks@ == departing(all, k as int),
        decreases sets@.len() - k,
    {
        let ghost before = marks@;
        mark_differences(&mut marks, reference, sets[k]);
        proof {
            let step = Set::new(
                |name: Text| lookup(sets@[k as int]@, name) != lookup(reference@, name),
            );
            assert(all[k as int] == sets@[k as int]@);
            assert(all[0] == reference@);
            assert forall|n: Text| before.union(step).contains(n) == departing(
                all,
                k as int + 1,
            ).contains(n) by {
                if before.contains(n) {
                    let j = choose|j: int|
                        0 <= j < k && lookup(#[trigger] all[j], n) != lookup(all[0], n);
                    assert(lookup(all[j], n) != lookup(all[0], n));
                }
                if step.contains(n) {
                    assert(lookup(all[k as int], n) != lookup(all[0], n));
                }
                if departing(all, k as int + 1).contains(n) {
                    let j = choose|j: int|
                        0 <= j < k + 1 && lookup(#[trigger] all[j], n) != lookup(all[0], n);
                    if j < k {
                        assert(lookup(all[j], n) != lookup(all[0], n));
                        assert(before.contains(n));
                    }
                }
            }
            assert(marks@ =~= departing(all, k as int + 1));
        }
        k = k + 1;
    }
    proof {
        lemma_any_reference(all, 0);
        assert(marks@ =~= discriminating(all));
    }
    marks
}

} // verus!
