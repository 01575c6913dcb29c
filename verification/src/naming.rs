//! The names of series: the full name that tells series apart, and the
//! shorter label that shows only chosen parameters.

use crate::literal::{decimal, push_decimal};
use crate::parameter::{ParameterSet, ParameterValue, Parameters};
use crate::text::Text;
use vstd::prelude::*;
use vstd::string::*;

verus! {

/// A set of parameter names, kept in the order in which they came.
pub struct NameSet {
    names: Vec<String>,
}

impl View for NameSet {
    type V = Set<Text>;

    open spec fn view(&self) -> Set<Text> {
        self.names().to_set()
    }
}

impl NameSet {
    /// The names in the order in which they came.
    pub closed spec fn names(&self) -> Seq<Text> {
        self.names@.map_values(|s: String| s@)
    }

    /// The set is well formed: it holds no name twice.
    pub open spec fn wf(&self) -> bool {
        self.names().no_duplicates()
    }

    /// The empty set.
    pub fn new() -> (r: NameSet)
        ensures
            r.wf(),
            r.names() == Seq::<Text>::empty(),
            r@ == Set::<Text>::empty(),
    {
        let r = NameSet { names: Vec::new() };
        assert(r.names() =~= Seq::<Text>::empty());
        assert(r@ =~= Set::<Text>::empty());
        r
    }

    /// Whether the set holds `name`.
    pub fn contains(&self, name: &String) -> (r: bool)
        ensures
            r == self@.contains(name@),
            r == self.names().contains(name@),
    {
        let mut i: usize = 0;
        while i < self.names.len()
            invariant
                i <= self.names@.len(),
                forall|j: int| 0 <= j < i ==> #[trigger] self.names()[j] != name@,
            decreases self.names@.len() - i,
        {
            if self.names[i] == *name {
                assert(self.names()[i as int] == name@);
                return true;
            }
            i = i + 1;
        }
        false
    }

    /// Puts `name` into the set, behind the names it holds, unless it holds
    /// it already.
    pub fn insert(&mut self, name: String)
        ensures
            final(self)@ == old(self)@.insert(name@),
            final(self).names() == if old(self)@.contains(name@) {
                old(self).names()
            } else {
                old(self).names().push(name@)
            },
            old(self).wf() ==> final(self).wf(),
    {
        if !self.contains(&name) {
            let ghost before = self.names();
            let ghost text = name@;
            self.names.push(name);
            assert(self.names() =~= before.push(text));
            assert forall|t: Text| self@.contains(t) == old(self)@.insert(text).contains(t) by {
                if before.contains(t) {
                    let i = choose|i: int| 0 <= i < before.len() && before[i] == t;
                    assert(self.names()[i] == t);
                }
                if t == text {
                    assert(self.names()[before.len() as int] == t);
                }
                if self.names().contains(t) && t != text {
                    let i = choose|i: int| 0 <= i < self.names().len() && self.names()[i] == t;
                    assert(before[i] == t);
                }
            }
            assert(self@ =~= old(self)@.insert(text));
        } else {
            assert(self@ =~= old(self)@.insert(name@));
        }
    }

    /// How many names the set holds.
    pub fn len(&self) -> (n: usize)
        ensures
            n == self.names().len(),
    {
        self.names.len()
    }

    /// The name at place `i`, in the order in which the names came.
    pub fn get(&self, i: usize) -> (r: &String)
        requires
            i < self.names().len(),
        ensures
            r@ == self.names()[i as int],
    {
        &self.names[i]
    }
}

/// Whether a parameter with this value shows in a name: a flag that is off
/// does not.
pub open spec fn shows(value: ParameterValue) -> bool {
    value != ParameterValue::Bool(false)
}

/// What a parameter contributes to a name: a flag that is on its bare name,
/// a flag that is off nothing, a count its name, `=` and its value.
pub open spec fn token(name: Text, value: ParameterValue) -> Text {
    match value {
        ParameterValue::Bool(true) => name,
        ParameterValue::Bool(false) => Seq::empty(),
        ParameterValue::Int(v) => name + seq!['='] + decimal(v as nat),
    }
}

/// The list of the parameters of `p` that show and whose names are in
/// `chosen`, in the order of `p` with one space between them, and whether
/// there is any. A flag that is off leaves nothing, no space either.
pub open spec fn listing(p: Parameters, chosen: Set<Text>) -> (Text, bool)
    decreases p.len(),
{
    if p.len() == 0 {
        (Seq::empty(), false)
    } else {
        let (text, shown) = listing(p.drop_last(), chosen);
        let (name, value) = p.last();
        if chosen.contains(name) && shows(value) {
            let spaced = if shown {
                text.push(' ')
            } else {
                text
            };
            (spaced + token(name, value), true)
        } else {
            (text, shown)
        }
    }
}

/// The label of a series: its base name, followed in brackets by the list of
/// its parameters in `chosen`, where that list is not empty.
pub open spec fn display_name(base: Text, p: Parameters, chosen: Set<Text>) -> Text {
    let list = listing(p, chosen).0;
    if list.len() > 0 {
        base + seq![' ', '('] + list + seq![')']
    } else {
        base
    }
}

/// The full name of a series: its label with every parameter in it.
pub open spec fn series_name(base: Text, p: Parameters) -> Text {
    display_name(base, p, Set::full())
}

/// With no parameter chosen the label is the base name.
pub proof fn lemma_display_name_of_none(base: Text, p: Parameters)
    ensures
        listing(p, Set::empty()) == (Seq::<char>::empty(), false),
        display_name(base, p, Set::empty()) == base,
    decreases p.len(),
{
    if p.len() > 0 {
        lemma_display_name_of_none(base, p.drop_last());
    }
}

/// A flag that is off is left out: the list is what it would be without
/// that parameter, and so are the label and the full name.
pub proof fn lemma_flag_off_is_left_out(base: Text, p: Parameters, chosen: Set<Text>, i: int)
    requires
        0 <= i < p.len(),
        p[i].1 == ParameterValue::Bool(false),
    ensures
        listing(p, chosen) == listing(p.remove(i), chosen),
        display_name(base, p, chosen) == display_name(base, p.remove(i), chosen),
        series_name(base, p) == series_name(base, p.remove(i)),
{
    lemma_listing_without(p, chosen, i);
    lemma_listing_without(p, Set::full(), i);
}

/// The list of the parameters is the same without a flag that is off.
proof fn lemma_listing_without(p: Parameters, chosen: Set<Text>, i: int)
    requires
        0 <= i < p.len(),
        p[i].1 == ParameterValue::Bool(false),
    ensures
        listing(p, chosen) == listing(p.remove(i), chosen),
    decreases p.len(),
{
    if i == p.len() - 1 {
        assert(p.remove(i) =~= p.drop_last());
    } else {
        let q = p.drop_last();
        assert(q[i] == p[i]);
        lemma_listing_without(q, chosen, i);
        assert(p.remove(i).drop_last() =~= q.remove(i));
        assert(p.remove(i).last() == p.last());
    }
}

/// A label depends on the chosen names only as far as the series has them.
pub proof fn lemma_listing_by_own_names(p: Parameters, a: Set<Text>, b: Set<Text>)
    requires
        forall|i: int| 0 <= i < p.len() ==> a.contains((#[trigger] p[i]).0) == b.contains(p[i].0),
    ensures
        listing(p, a) == listing(p, b),
    decreases p.len(),
{
    if p.len() > 0 {
        let q = p.drop_last();
        assert forall|i: int| 0 <= i < q.len() implies a.contains((#[trigger] q[i]).0)
            == b.contains(q[i].0) by {
            assert(q[i] == p[i]);
        }
        lemma_listing_by_own_names(q, a, b);
        assert(p.last() == p[p.len() - 1]);
    }
}

/// Appends what the parameter contributes to a name.
fn push_token(out: &mut String, name: &String, value: ParameterValue)
    ensures
        final(out)@ == old(out)@ + token(name@, value),
{
    match value {
        ParameterValue::Bool(v) => {
            if v {
                out.append(name.as_str());
            } else {
                assert(out@ =~= old(out)@ + token(name@, value));
            }
        },
        ParameterValue::Int(v) => {
            proof {
                reveal_strlit("=");
            }
            out.append(name.as_str());
            out.append("=");
            push_decimal(out, v);
            assert("="@ =~= seq!['=']);
            assert(out@ =~= old(out)@ + token(name@, value));
        },
    }
}

/// Wraps a list of parameters in brackets behind the base name.
fn bracketed(base_name: String, list: String) -> (r: String)
    ensures
        r@ == if list@.len() > 0 {
            base_name@ + seq![' ', '('] + list@ + seq![')']
        } else {
            base_name@
        },
{
    let mut name = base_name;
    if !list.as_str().is_empty() {
        proof {
            reveal_strlit(" (");
            reveal_strlit(")");
        }
        name.append(" (");
        name.append(list.as_str());
        name.append(")");
        assert(" ("@ =~= seq![' ', '(']);
        assert(")"@ =~= seq![')']);
    }
    name
}

/// The full name of a series with this base name and these parameters.
pub fn full_name(base_name: String, parameters: &ParameterSet) -> (r: String)
    ensures
        r@ == series_name(base_name@, parameters@),
{
    let mut list = String::new();
    let mut shown = false;
    let mut i: usize = 0;
    while i < parameters.len()
        invariant
            i <= parameters@.len(),
            (list@, shown) == listing(parameters@.take(i as int), Set::full()),
        decreases parameters@.len() - i,
    {
        proof {
            assert(parameters@.take(i as int + 1).drop_last() =~= parameters@.take(i as int));
            assert(parameters@.take(i as int + 1).last() == parameters@[i as int]);
        }
        let value = parameters.value_at(i);
        if value != ParameterValue::Bool(false) {
            if shown {
                proof {
                    reveal_strlit(" ");
                }
                list.append(" ");
                assert(" "@ =~= seq![' ']);
            }
            push_token(&mut list, parameters.name_at(i), value);
            shown = true;
        }
        i = i + 1;
    }
    proof {
        assert(parameters@.take(parameters@.len() as int) =~= parameters@);
    }
    bracketed(base_name, list)
}

/// The label of a series that shows the parameters named in `chosen`.
pub fn label(base_name: String, parameters: &ParameterSet, chosen: &NameSet) -> (r: String)
    ensures
        r@ == display_name(base_name@, parameters@, chosen@),
{
    let mut list = String::new();
    let mut shown = false;
    let mut i: usize = 0;
    while i < parameters.len()
        invariant
            i <= parameters@.len(),
            (list@, shown) == listing(parameters@.take(i as int), chosen@),
        decreases parameters@.len() - i,
    {
        proof {
            assert(parameters@.take(i as int + 1).drop_last() =~= parameters@.take(i as int));
            assert(parameters@.take(i as int + 1).last() == parameters@[i as int]);
        }
        let value = parameters.value_at(i);
        if value != ParameterValue::Bool(false) && chosen.contains(parameters.name_at(i)) {
            if shown {
                proof {
                    reveal_strlit(" ");
                }
                list.append(" ");
                assert(" "@ =~= seq![' ']);
            }
            push_token(&mut list, parameters.name_at(i), value);
            shown = true;
        }
        i = i + 1;
    }
    proof {
        assert(parameters@.take(parameters@.len() as int) =~= parameters@);
    }
    bracketed(base_name, list)
}

} // verus!
