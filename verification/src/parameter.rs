//! Run parameters: tagged values, and sets of them keyed by name and kept in
//! the order of the names.

use crate::text::{lex_less, text_less, Text};
use crate::text::{lemma_lex_asymmetric, lemma_lex_irreflexive, lemma_lex_total, lemma_lex_transitive};
use vstd::prelude::*;

verus! {

/// The value of a run parameter: a flag or a count.
#[derive(Debug, Clone, Copy, PartialEq, Eq, Structural)]
pub enum ParameterValue {
    Bool(bool),
    Int(u64),
}

/// A parameter set as contracts see it: the names with their values, in the
/// order of the names.
pub type Parameters = Seq<(Text, ParameterValue)>;

/// The names stand in strictly ascending order, so none occurs twice.
pub open spec fn strictly_sorted(s: Parameters) -> bool {
    forall|i: int, j: int| 0 <= i < j < s.len() ==> lex_less(#[trigger] s[i].0, #[trigger] s[j].0)
}

/// The value that `s` gives to `name`, if it names it.
pub open spec fn lookup(s: Parameters, name: Text) -> Option<ParameterValue>
    decreases s.len(),
{
    if s.len() == 0 {
        None
    } else if s.last().0 == name {
        Some(s.last().1)
    } else {
        lookup(s.drop_last(), name)
    }
}

/// How many names of `s` come before `name`, where `s` is sorted: the place
/// of `name` in `s`.
pub open spec fn rank(s: Parameters, name: Text) -> int
    decreases s.len(),
{
    if s.len() == 0 {
        0
    } else if lex_less(s.last().0, name) {
        s.len() as int
    } else {
        rank(s.drop_last(), name)
    }
}

/// `s` with `name` set to `value`: the entry is replaced where `s` names
/// `name` already, and put in at its place where it does not.
pub open spec fn with_entry(s: Parameters, name: Text, value: ParameterValue) -> Parameters {
    let i = rank(s, name);
    if i < s.len() && s[i].0 == name {
        s.update(i, (name, value))
    } else {
        s.insert(i, (name, value))
    }
}

/// The place of a name: all names before it are smaller, none from it on is.
pub proof fn lemma_rank(s: Parameters, name: Text)
    requires
        strictly_sorted(s),
    ensures
        0 <= rank(s, name) <= s.len(),
        forall|i: int| 0 <= i < rank(s, name) ==> lex_less(#[trigger] s[i].0, name),
        forall|i: int| rank(s, name) <= i < s.len() ==> !lex_less(#[trigger] s[i].0, name),
    decreases s.len(),
{
    if s.len() > 0 {
        if lex_less(s.last().0, name) {
            assert forall|i: int| 0 <= i < s.len() implies lex_less(#[trigger] s[i].0, name) by {
                if i < s.len() - 1 {
                    lemma_lex_transitive(s[i].0, s.last().0, name);
                }
            }
        } else {
            let t = s.drop_last();
            lemma_rank(t, name);
            assert forall|i: int| 0 <= i < rank(s, name) implies lex_less(
                #[trigger] s[i].0,
                name,
            ) by {
                assert(s[i] == t[i]);
            }
            assert forall|i: int| rank(s, name) <= i < s.len() implies !lex_less(
                #[trigger] s[i].0,
                name,
            ) by {
                if i < s.len() - 1 {
                    assert(s[i] == t[i]);
                }
            }
        }
    }
}

/// `lookup` finds an entry exactly where the sequence holds one with that
/// name.
pub proof fn lemma_lookup(s: Parameters, name: Text)
    requires
        strictly_sorted(s),
    ensures
        match lookup(s, name) {
            Some(v) => exists|i: int| 0 <= i < s.len() && #[trigger] s[i] == (name, v),
            None => forall|i: int| 0 <= i < s.len() ==> (#[trigger] s[i]).0 != name,
        },
    decreases s.len(),
{
    if s.len() > 0 {
        if s.last().0 == name {
            assert(s[s.len() - 1] == (name, s.last().1));
        } else {
            let t = s.drop_last();
            lemma_lookup(t, name);
            match lookup(t, name) {
                Some(v) => {
                    let i = choose|i: int| 0 <= i < t.len() && #[trigger] t[i] == (name, v);
                    assert(s[i] == (name, v));
                },
                None => {
                    assert forall|i: int| 0 <= i < s.len() implies (#[trigger] s[i]).0 != name by {
                        if i < s.len() - 1 {
                            assert(s[i] == t[i]);
                        }
                    }
                },
            }
        }
    }
}

/// An entry of a sorted sequence is what `lookup` finds under its name.
pub proof fn lemma_lookup_at(s: Parameters, i: int)
    requires
        strictly_sorted(s),
        0 <= i < s.len(),
    ensures
        lookup(s, s[i].0) == Some(s[i].1),
{
    lemma_lookup(s, s[i].0);
    match lookup(s, s[i].0) {
        Some(v) => {
            let j = choose|j: int| 0 <= j < s.len() && #[trigger] s[j] == (s[i].0, v);
            lemma_lex_irreflexive(s[i].0);
            if j < i {
                assert(lex_less(s[j].0, s[i].0));
            } else if i < j {
                assert(lex_less(s[i].0, s[j].0));
            }
        },
        None => {
            assert(s[i].0 != s[i].0);
        },
    }
}

/// Setting a name keeps the order, gives the name its value and leaves the
/// other names as they were.
pub proof fn lemma_with_entry(s: Parameters, name: Text, value: ParameterValue)
    requires
        strictly_sorted(s),
    ensures
        strictly_sorted(with_entry(s, name, value)),
        lookup(with_entry(s, name, value), name) == Some(value),
        forall|other: Text|
            other != name ==> lookup(#[trigger] with_entry(s, name, value), other) == lookup(
                s,
                other,
            ),
{
    let r = with_entry(s, name, value);
    let i = rank(s, name);
    lemma_rank(s, name);
    if i < s.len() && s[i].0 == name {
        assert forall|a: int, b: int| 0 <= a < b < r.len() implies lex_less(
            #[trigger] r[a].0,
            #[trigger] r[b].0,
        ) by {
            assert(r[a].0 == s[a].0 && r[b].0 == s[b].0);
        }
    } else {
        assert forall|a: int, b: int| 0 <= a < b < r.len() implies lex_less(
            #[trigger] r[a].0,
            #[trigger] r[b].0,
        ) by {
            if b == i {
                assert(r[a] == s[a]);
            } else if a == i {
                assert(r[b] == s[b - 1]);
                lemma_lex_total(s[b - 1].0, name);
            } else {
                let a0 = if a < i { a } else { a - 1 };
                let b0 = if b < i { b } else { b - 1 };
                assert(r[a] == s[a0] && r[b] == s[b0]);
            }
        }
    }
    assert(r[i] == (name, value));
    lemma_lookup_at(r, i);
    assert forall|other: Text| other != name implies lookup(r, other) == lookup(s, other) by {
        lemma_lookup(r, other);
        lemma_lookup(s, other);
        let inserted = !(i < s.len() && s[i].0 == name);
        match lookup(s, other) {
            Some(v) => {
                let k = choose|k: int| 0 <= k < s.len() && #[trigger] s[k] == (other, v);
                let k1 = if inserted && k >= i { k + 1 } else { k };
                assert(r[k1] == (other, v));
                lemma_lookup_at(r, k1);
            },
            None => {
                match lookup(r, other) {
                    Some(w) => {
                        let k = choose|k: int| 0 <= k < r.len() && #[trigger] r[k] == (other, w);
                        let k0 = if inserted && k > i { k - 1 } else { k };
                        assert(s[k0] == (other, w));
                    },
                    None => {},
                }
            },
        }
    }
}

/// Two sorted sequences that give every name the same value are the same
/// sequence.
pub proof fn lemma_sorted_unique(a: Parameters, b: Parameters)
    requires
        strictly_sorted(a),
        strictly_sorted(b),
        forall|name: Text| lookup(a, name) == lookup(b, name),
    ensures
        a == b,
    decreases a.len(),
{
    if a.len() == 0 {
        if b.len() > 0 {
            lemma_lookup_at(b, 0);
            assert(lookup(a, b[0].0) == lookup(b, b[0].0));
        }
        assert(a =~= b);
    } else if b.len() == 0 {
        lemma_lookup_at(a, 0);
        assert(lookup(a, a[0].0) == lookup(b, a[0].0));
    } else {
        // The largest names agree, for each is found in the other sequence.
        let la = a.last();
        let lb = b.last();
        lemma_lookup_at(a, a.len() - 1);
        lemma_lookup_at(b, b.len() - 1);
        lemma_lookup(a, lb.0);
        lemma_lookup(b, la.0);
        assert(lookup(b, la.0) == Some(la.1));
        assert(lookup(a, lb.0) == Some(lb.1));
        let i = choose|i: int| 0 <= i < b.len() && #[trigger] b[i] == (la.0, la.1);
        let j = choose|j: int| 0 <= j < a.len() && #[trigger] a[j] == (lb.0, lb.1);
        if la.0 != lb.0 {
            assert(i < b.len() - 1);
            assert(j < a.len() - 1);
            assert(lex_less(b[i].0, b[b.len() - 1].0));
            assert(lex_less(a[j].0, a[a.len() - 1].0));
            lemma_lex_asymmetric(la.0, lb.0);
        }
        assert(la == lb);
        let ta = a.drop_last();
        let tb = b.drop_last();
        assert forall|name: Text| lookup(ta, name) == lookup(tb, name) by {
            if name == la.0 {
                lemma_lookup(ta, name);
                lemma_lookup(tb, name);
                if lookup(ta, name) is Some {
                    let k = choose|k: int|
                        0 <= k < ta.len() && #[trigger] ta[k] == (name, lookup(ta, name)->0);
                    assert(a[k] == ta[k]);
                    assert(lex_less(a[k].0, a[a.len() - 1].0));
                    lemma_lex_irreflexive(name);
                }
                if lookup(tb, name) is Some {
                    let k = choose|k: int|
                        0 <= k < tb.len() && #[trigger] tb[k] == (name, lookup(tb, name)->0);
                    assert(b[k] == tb[k]);
                    assert(lex_less(b[k].0, b[b.len() - 1].0));
                    lemma_lex_irreflexive(name);
                }
            } else {
                assert(lookup(a, name) == lookup(b, name));
            }
        }
        assert(strictly_sorted(ta)) by {
            assert forall|x: int, y: int| 0 <= x < y < ta.len() implies lex_less(
                #[trigger] ta[x].0,
                #[trigger] ta[y].0,
            ) by {
                assert(ta[x] == a[x] && ta[y] == a[y]);
            }
        }
        assert(strictly_sorted(tb)) by {
            assert forall|x: int, y: int| 0 <= x < y < tb.len() implies lex_less(
                #[trigger] tb[x].0,
                #[trigger] tb[y].0,
            ) by {
                assert(tb[x] == b[x] && tb[y] == b[y]);
            }
        }
        lemma_sorted_unique(ta, tb);
        assert(a =~= ta.push(la));
        assert(b =~= tb.push(lb));
    }
}

/// The order in which two names are set does not matter.
pub proof fn lemma_insertion_order(
    s: Parameters,
    a: Text,
    x: ParameterValue,
    b: Text,
    y: ParameterValue,
)
    requires
        strictly_sorted(s),
        a != b,
    ensures
        with_entry(with_entry(s, a, x), b, y) == with_entry(with_entry(s, b, y), a, x),
{
    let first = with_entry(s, a, x);
    let second = with_entry(s, b, y);
    lemma_with_entry(s, a, x);
    lemma_with_entry(s, b, y);
    lemma_with_entry(first, b, y);
    lemma_with_entry(second, a, x);
    let left = with_entry(first, b, y);
    let right = with_entry(second, a, x);
    assert forall|name: Text| lookup(left, name) == lookup(right, name) by {
        if name == a {
            assert(lookup(left, a) == lookup(first, a));
        } else if name == b {
            assert(lookup(right, b) == lookup(second, b));
        } else {
            assert(lookup(left, name) == lookup(first, name));
            assert(lookup(first, name) == lookup(s, name));
            assert(lookup(right, name) == lookup(second, name));
            assert(lookup(second, name) == lookup(s, name));
        }
    }
    lemma_sorted_unique(left, right);
}

/// One named parameter.
pub struct Parameter {
    pub name: String,
    pub value: ParameterValue,
}

impl View for Parameter {
    type V = (Text, ParameterValue);

    open spec fn view(&self) -> (Text, ParameterValue) {
        (self.name@, self.value)
    }
}

/// A set of parameters, each name with one value, walked in the order of
/// the names.
pub struct ParameterSet {
    entries: Vec<Parameter>,
}

impl View for ParameterSet {
    type V = Parameters;

    closed spec fn view(&self) -> Parameters {
        self.entries@.map_values(|p: Parameter| p@)
    }
}

impl ParameterSet {
    /// The set is well formed: its names stand in strictly ascending order.
    pub open spec fn wf(&self) -> bool {
        strictly_sorted(self@)
    }

    /// The empty set.
    pub fn new() -> (r: ParameterSet)
        ensures
            r.wf(),
            r@ == Seq::<(Text, ParameterValue)>::empty(),
    {
        let r = ParameterSet { entries: Vec::new() };
        assert(r@ =~= Seq::<(Text, ParameterValue)>::empty());
        r
    }

    /// How many parameters the set holds.
    pub fn len(&self) -> (n: usize)
        ensures
            n == self@.len(),
    {
        self.entries.len()
    }

    /// The name of the parameter at place `i` in the order of the names.
    pub fn name_at(&self, i: usize) -> (r: &String)
        requires
            i < self@.len(),
        ensures
            r@ == self@[i as int].0,
    {
        &self.entries[i].name
    }

    /// The value of the parameter at place `i` in the order of the names.
    pub fn value_at(&self, i: usize) -> (r: ParameterValue)
        requires
            i < self@.len(),
        ensures
            r == self@[i as int].1,
    {
        self.entries[i].value
    }

    /// The place of `name`: the number of names that come before it.
    fn place(&self, name: &str) -> (i: usize)
        requires
            self.wf(),
        ensures
            i == rank(self@, name@),
            i <= self@.len(),
    {
        proof {
            lemma_rank(self@, name@);
        }
        let mut lo: usize = 0;
        let mut hi: usize = self.entries.len();
        while lo < hi
            invariant
                0 <= lo <= hi <= self@.len(),
                self@.len() == self.entries@.len(),
                strictly_sorted(self@),
                lo <= rank(self@, name@) <= hi,
                forall|i: int| 0 <= i < rank(self@, name@) ==> lex_less(#[trigger] self@[i].0, name@),
                forall|i: int|
                    rank(self@, name@) <= i < self@.len() ==> !lex_less(
                        #[trigger] self@[i].0,
                        name@,
                    ),
            decreases hi - lo,
        {
            let mid = lo + (hi - lo) / 2;
            assert(self@[mid as int].0 == self.entries@[mid as int].name@);
            if text_less(self.entries[mid].name.as_str(), name) {
                lo = mid + 1;
            } else {
                hi = mid;
            }
        }
        lo
    }

    /// The value of `name`, if the set names it.
    pub fn get(&self, name: &str) -> (r: Option<ParameterValue>)
        requires
            self.wf(),
        ensures
            r == lookup(self@, name@),
    {
        let i = self.place(name);
        proof {
            lemma_rank(self@, name@);
            lemma_lookup(self@, name@);
        }
        if i < self.entries.len() {
            assert(self@[i as int].0 == self.entries@[i as int].name@);
            if !text_less(name, self.entries[i].name.as_str()) {
                proof {
                    lemma_lex_total(self@[i as int].0, name@);
                    lemma_lookup_at(self@, i as int);
                }
                return Some(self.entries[i].value);
            }
        }
        proof {
            if lookup(self@, name@) is Some {
                let k = choose|k: int|
                    0 <= k < self@.len() && #[trigger] self@[k] == (name@, lookup(self@, name@)->0);
                lemma_lex_irreflexive(name@);
                if k < i {
                    assert(lex_less(self@[k].0, name@));
                } else if k > i {
                    assert(lex_less(self@[i as int].0, self@[k].0));
                    assert(!lex_less(self@[i as int].0, name@));
                }
            }
        }
        None
    }

    /// Gives `name` the value `value`, and returns the value it had.
    pub fn insert(&mut self, name: String, value: ParameterValue) -> (r: Option<ParameterValue>)
        requires
            old(self).wf(),
        ensures
            final(self).wf(),
            final(self)@ == with_entry(old(self)@, name@, value),
            r == lookup(old(self)@, name@),
    {
        let i = self.place(name.as_str());
        proof {
            lemma_rank(self@, name@);
            lemma_lookup(self@, name@);
            lemma_with_entry(self@, name@, value);
        }
        let ghost before = self@;
        if i < self.entries.len() {
            assert(self@[i as int].0 == self.entries@[i as int].name@);
            if !text_less(name.as_str(), self.entries[i].name.as_str()) {
                proof {
                    lemma_lex_total(self@[i as int].0, name@);
                    lemma_lookup_at(self@, i as int);
                }
                let was = self.entries[i].value;
                self.entries.set(i, Parameter { name, value });
                assert(self@ =~= with_entry(before, name@, value));
                return Some(was);
            }
        }
        proof {
            if lookup(before, name@) is Some {
                let k = choose|k: int|
                    0 <= k < before.len() && #[trigger] before[k] == (
                        name@,
                        lookup(before, name@)->0,
                    );
                lemma_lex_irreflexive(name@);
                if k < i {
                    assert(lex_less(before[k].0, name@));
                } else if k > i {
                    assert(lex_less(before[i as int].0, before[k].0));
                    assert(!lex_less(before[i as int].0, name@));
                }
            }
        }
        self.entries.insert(i, Parameter { name, value });
        assert(self@ =~= with_entry(before, name@, value));
        None
    }
}

} // verus!
