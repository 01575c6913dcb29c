//! The filter language: a clause of comparisons on named parameters, its
//! reading, its evaluation against a parameter set, and its canonical text.

use crate::literal::{decimal, flag_text, parse_count, parse_flag};
use crate::literal::{push_decimal, push_flag, read_count, read_flag};
use crate::parameter::{lookup, ParameterSet, ParameterValue, Parameters};
use crate::text::{chars_of, find, find_in, lex_less, piece_bounds, pieces, text_less, trim, trim_bounds, Text};
use vstd::prelude::*;
use vstd::string::*;

verus! {

/// How a parameter is held against a reference value.
#[derive(Debug, Clone, Copy, PartialEq, Eq, Structural)]
pub enum Comparison {
    Less,
    LessEqual,
    Equal,
    GreaterEqual,
    Greater,
}

impl Comparison {
    /// The symbol that writes the comparison.
    pub open spec fn symbol(self) -> Text {
        match self {
            Comparison::Less => seq!['<'],
            Comparison::LessEqual => seq!['<', '='],
            Comparison::Equal => seq!['=', '='],
            Comparison::GreaterEqual => seq!['>', '='],
            Comparison::Greater => seq!['>'],
        }
    }

    /// Whether `value` stands in this relation to `reference`.
    pub open spec fn holds(self, value: u64, reference: u64) -> bool {
        match self {
            Comparison::Less => value < reference,
            Comparison::LessEqual => value <= reference,
            Comparison::Equal => value == reference,
            Comparison::GreaterEqual => value >= reference,
            Comparison::Greater => value > reference,
        }
    }

    /// The symbol that writes the comparison.
    pub fn get_text(&self) -> (r: String)
        ensures
            r@ == self.symbol(),
    {
        proof {
            reveal_strlit("<");
            reveal_strlit("<=");
            reveal_strlit("==");
            reveal_strlit(">=");
            reveal_strlit(">");
        }
        let s = match self {
            Comparison::Less => "<",
            Comparison::LessEqual => "<=",
            Comparison::Equal => "==",
            Comparison::GreaterEqual => ">=",
            Comparison::Greater => ">",
        };
        assert(s@ =~= self.symbol());
        s.to_owned()
    }

    /// Whether `value` stands in this relation to `reference`.
    pub fn compare(&self, value: u64, reference: u64) -> (r: bool)
        ensures
            r == self.holds(value, reference),
    {
        match self {
            Comparison::Less => value < reference,
            Comparison::LessEqual => value <= reference,
            Comparison::Equal => value == reference,
            Comparison::GreaterEqual => value >= reference,
            Comparison::Greater => value > reference,
        }
    }
}

/// The comparisons in the order in which a term is searched for their
/// symbols: equality, then the two-character inequalities, then the
/// one-character ones. A symbol that is part of another comes after it.
pub open spec fn match_order() -> Seq<Comparison> {
    seq![
        Comparison::Equal,
        Comparison::LessEqual,
        Comparison::GreaterEqual,
        Comparison::Less,
        Comparison::Greater,
    ]
}

/// A predicate as contracts see it.
pub enum Term {
    /// The named flag equals the value.
    Bool(Text, bool),
    /// The named count stands in the relation to the value.
    Int(Text, Comparison, u64),
}

impl Term {
    /// The name of the parameter that the predicate is about.
    pub open spec fn name(self) -> Text {
        match self {
            Term::Bool(name, _) => name,
            Term::Int(name, _, _) => name,
        }
    }

    /// The comparison that the predicate makes; a flag is compared for
    /// equality.
    pub open spec fn comparison(self) -> Comparison {
        match self {
            Term::Bool(_, _) => Comparison::Equal,
            Term::Int(_, c, _) => c,
        }
    }

    /// The text of the value that the predicate compares with.
    pub open spec fn value_text(self) -> Text {
        match self {
            Term::Bool(_, b) => flag_text(b),
            Term::Int(_, _, v) => decimal(v as nat),
        }
    }

    /// The canonical text of the predicate: name, symbol, value.
    pub open spec fn text(self) -> Text {
        self.name() + self.comparison().symbol() + self.value_text()
    }

    /// Whether a series with the parameters `p` satisfies the predicate. A
    /// parameter that the series lacks, or has with the other kind of value,
    /// satisfies it.
    pub open spec fn accepts(self, p: Parameters) -> bool {
        match self {
            Term::Bool(name, b) => match lookup(p, name) {
                Some(ParameterValue::Bool(v)) => v == b,
                _ => true,
            },
            Term::Int(name, c, reference) => match lookup(p, name) {
                Some(ParameterValue::Int(v)) => c.holds(v, reference),
                _ => true,
            },
        }
    }
}

/// The first comparison, from place `k` of the match order on, whose symbol
/// occurs in `piece`, with the index of its first occurrence.
pub open spec fn operator_from(piece: Text, k: int) -> Option<(Comparison, int)>
    decreases 5 - k,
{
    if k < 0 || k >= 5 {
        None
    } else {
        match find(piece, match_order()[k].symbol()) {
            Some(p) => Some((match_order()[k], p)),
            None => operator_from(piece, k + 1),
        }
    }
}

/// The operator of a term: the first comparison of the match order whose
/// symbol occurs in it, at its first occurrence.
pub open spec fn operator(piece: Text) -> Option<(Comparison, int)> {
    operator_from(piece, 0)
}

/// A term split at its operator: the trimmed name before it, the
/// comparison, the trimmed value text after it.
pub open spec fn split_term(piece: Text) -> Option<(Text, Comparison, Text)> {
    match operator(piece) {
        Some((c, p)) => Some((trim(piece.take(p)), c, trim(piece.skip(p + c.symbol().len())))),
        None => None,
    }
}

/// The predicate that a term writes. A value that is a flag makes a flag
/// predicate, one that is a count makes a count predicate, and a term
/// without operator or with another value writes none.
pub open spec fn term_of(piece: Text) -> Option<Term> {
    match split_term(piece) {
        Some((name, c, value)) => match parse_flag(value) {
            Some(b) => Some(Term::Bool(name, b)),
            None => match parse_count(value) {
                Some(n) => Some(Term::Int(name, c, n)),
                None => None,
            },
        },
        None => None,
    }
}

/// The term compares a flag by an inequality, which no filter may do.
pub open spec fn mistyped(piece: Text) -> bool {
    match split_term(piece) {
        Some((_, c, value)) => parse_flag(value) is Some && c != Comparison::Equal,
        None => false,
    }
}

/// The predicates that the pieces write, in the order of the pieces.
pub open spec fn terms_of(ps: Seq<Text>) -> Seq<Term>
    decreases ps.len(),
{
    if ps.len() == 0 {
        Seq::empty()
    } else {
        match term_of(ps.last()) {
            Some(t) => terms_of(ps.drop_last()).push(t),
            None => terms_of(ps.drop_last()),
        }
    }
}

/// Where `t` goes into `s`, which is ordered by name: behind the last
/// predicate whose name does not come after that of `t`.
pub open spec fn slot_by_name(s: Seq<Term>, t: Term) -> int
    decreases s.len(),
{
    if s.len() > 0 && lex_less(t.name(), s.last().name()) {
        slot_by_name(s.drop_last(), t)
    } else {
        s.len() as int
    }
}

/// The predicates ordered by name, those of one name in the order in which
/// they were written.
pub open spec fn by_name(s: Seq<Term>) -> Seq<Term>
    decreases s.len(),
{
    if s.len() == 0 {
        Seq::empty()
    } else {
        let sorted = by_name(s.drop_last());
        sorted.insert(slot_by_name(sorted, s.last()), s.last())
    }
}

/// The predicate list that a filter clause writes.
pub open spec fn parse_filter(text: Text) -> Seq<Term> {
    by_name(terms_of(pieces(text)))
}

/// No term of the clause compares a flag by an inequality.
pub open spec fn well_typed(text: Text) -> bool {
    forall|i: int| 0 <= i < pieces(text).len() ==> !mistyped(#[trigger] pieces(text)[i])
}

/// The names of the predicates do not descend.
pub open spec fn ordered_by_name(s: Seq<Term>) -> bool {
    forall|i: int, j: int|
        0 <= i < j < s.len() ==> !lex_less(#[trigger] s[j].name(), #[trigger] s[i].name())
}

/// Whether a series with the parameters `p` satisfies every predicate.
pub open spec fn accepts_all(s: Seq<Term>, p: Parameters) -> bool {
    forall|i: int| 0 <= i < s.len() ==> (#[trigger] s[i]).accepts(p)
}

/// The canonical text of a predicate list: the texts of the predicates in
/// their order, a comma and a space between them.
pub open spec fn filter_text(s: Seq<Term>) -> Text
    decreases s.len(),
{
    if s.len() == 0 {
        Seq::empty()
    } else if s.len() == 1 {
        s[0].text()
    } else {
        filter_text(s.drop_last()) + seq![',', ' '] + s.last().text()
    }
}

/// The predicates of the first `k + 1` pieces are those of the first `k`,
/// followed by the predicate of piece `k` where it writes one.
pub proof fn lemma_terms_step(ps: Seq<Text>, k: int)
    requires
        0 <= k < ps.len(),
    ensures
        terms_of(ps.take(k + 1)) == match term_of(ps[k]) {
            Some(t) => terms_of(ps.take(k)).push(t),
            None => terms_of(ps.take(k)),
        },
{
    assert(ps.take(k + 1).drop_last() =~= ps.take(k));
    assert(ps.take(k + 1).last() == ps[k]);
}

/// Ordering a list with one more predicate at its end puts that predicate
/// into the ordered list at its slot.
pub proof fn lemma_by_name_push(s: Seq<Term>, t: Term)
    ensures
        by_name(s.push(t)) == by_name(s).insert(slot_by_name(by_name(s), t), t),
{
    assert(s.push(t).drop_last() =~= s);
}

/// One predicate of a filter.
#[derive(Debug)]
pub enum ParameterFilter {
    /// The named flag must equal the value.
    Bool(String, bool),
    /// The named count must stand in the relation to the value.
    Int(String, Comparison, u64),
}

impl View for ParameterFilter {
    type V = Term;

    open spec fn view(&self) -> Term {
        match self {
            ParameterFilter::Bool(name, value) => Term::Bool(name@, *value),
            ParameterFilter::Int(name, c, value) => Term::Int(name@, *c, *value),
        }
    }
}

impl ParameterFilter {
    /// The name of the parameter that the predicate is about.
    pub fn name(&self) -> (r: &String)
        ensures
            r@ == self@.name(),
    {
        match self {
            ParameterFilter::Bool(name, _) => name,
            ParameterFilter::Int(name, _, _) => name,
        }
    }

    /// Whether a series with these parameters satisfies the predicate.
    pub fn accepts(&self, parameters: &ParameterSet) -> (r: bool)
        requires
            parameters.wf(),
        ensures
            r == self@.accepts(parameters@),
    {
        match self {
            ParameterFilter::Bool(name, value) => match parameters.get(name.as_str()) {
                Some(ParameterValue::Bool(v)) => v == *value,
                _ => true,
            },
            ParameterFilter::Int(name, c, reference) => match parameters.get(name.as_str()) {
                Some(ParameterValue::Int(v)) => c.compare(v, *reference),
                _ => true,
            },
        }
    }

    /// Appends the canonical text of the predicate to `out`.
    fn push_text(&self, out: &mut String)
        ensures
            final(out)@ == old(out)@ + self@.text(),
    {
        match self {
            ParameterFilter::Bool(name, value) => {
                out.append(name.as_str());
                out.append(Comparison::Equal.get_text().as_str());
                push_flag(out, *value);
            },
            ParameterFilter::Int(name, c, value) => {
                out.append(name.as_str());
                out.append(c.get_text().as_str());
                push_decimal(out, *value);
            },
        }
        assert(out@ =~= old(out)@ + self@.text());
    }
}

/// A rule that lets a series pass or rejects it by its parameters, and
/// that can say in words what it lets pass.
pub trait FilterSet {
    /// Whether a series with the parameters `p` passes the rule.
    spec fn passes(&self, p: Parameters) -> bool;

    /// The text that describes the rule.
    spec fn description(&self) -> Text;

    /// Whether a series with these parameters passes the rule.
    fn passes_filters(&self, parameters: &ParameterSet) -> (r: bool)
        requires
            parameters.wf(),
        ensures
            r == self.passes(parameters@),
    ;

    /// The text that describes the rule.
    fn display_text(&self) -> (r: String)
        ensures
            r@ == self.description(),
    ;
}

/// The predicates of one filter clause, ordered by name.
#[derive(Debug)]
pub struct ParameterFilterSet {
    filters: Vec<ParameterFilter>,
}

impl View for ParameterFilterSet {
    type V = Seq<Term>;

    closed spec fn view(&self) -> Seq<Term> {
        self.filters@.map_values(|f: ParameterFilter| f@)
    }
}

/// Why a clause is no filter: its term at index `term`, counted from zero
/// over the pieces between the commas, compares a flag by an inequality.
#[derive(Debug, Clone, Copy, PartialEq, Eq, Structural)]
pub struct FilterError {
    pub term: usize,
}

/// The comparison at place `k` of the match order.
fn comparison_at(k: usize) -> (c: Comparison)
    requires
        k < 5,
    ensures
        c == match_order()[k as int],
{
    if k == 0 {
        Comparison::Equal
    } else if k == 1 {
        Comparison::LessEqual
    } else if k == 2 {
        Comparison::GreaterEqual
    } else if k == 3 {
        Comparison::Less
    } else {
        Comparison::Greater
    }
}

/// The operator of the term `v[from..to]`, its place counted from `from`.
fn operator_in(v: &Vec<char>, from: usize, to: usize) -> (r: Option<(Comparison, usize)>)
    requires
        from <= to <= v@.len(),
    ensures
        match r {
            Some((c, p)) => operator(v@.subrange(from as int, to as int)) == Some((c, p as int))
                && p + c.symbol().len() <= to - from,
            None => operator(v@.subrange(from as int, to as int)) is None,
        },
{
    let ghost piece = v@.subrange(from as int, to as int);
    let mut k: usize = 0;
    while k < 5
        invariant
            k <= 5,
            from <= to <= v@.len(),
            piece == v@.subrange(from as int, to as int),
            operator(piece) == operator_from(piece, k as int),
        decreases 5 - k,
    {
        let c = comparison_at(k);
        let symbol = chars_of(c.get_text().as_str());
        match find_in(v, from, to, &symbol) {
            Some(p) => {
                proof {
                    crate::text::lemma_find(piece, c.symbol());
                }
                return Some((c, p));
            },
            None => {},
        }
        k = k + 1;
    }
    None
}

/// Puts `t` into `filters`, which is ordered by name, behind the last
/// predicate whose name does not come after its own.
fn insert_by_name(filters: &mut Vec<ParameterFilter>, t: ParameterFilter)
    ensures
        final(filters)@.map_values(|f: ParameterFilter| f@) == {
            let s = old(filters)@.map_values(|f: ParameterFilter| f@);
            s.insert(slot_by_name(s, t@), t@)
        },
{
    let ghost s = filters@.map_values(|f: ParameterFilter| f@);
    let mut j: usize = filters.len();
    proof {
        assert(s.take(filters@.len() as int) =~= s);
    }
    while j > 0 && text_less(t.name().as_str(), filters[j - 1].name().as_str())
        invariant
            j <= filters@.len(),
            s == filters@.map_values(|f: ParameterFilter| f@),
            slot_by_name(s, t@) == slot_by_name(s.take(j as int), t@),
        decreases j,
    {
        proof {
            assert(s.take(j as int).drop_last() =~= s.take(j as int - 1));
            assert(s.take(j as int).last() == filters@[j as int - 1]@);
        }
        j = j - 1;
    }
    proof {
        if j > 0 {
            assert(s.take(j as int).last() == filters@[j as int - 1]@);
        }
    }
    let ghost tv = t@;
    filters.insert(j, t);
    assert(filters@.map_values(|f: ParameterFilter| f@) =~= s.insert(j as int, tv));
}

impl ParameterFilterSet {
    /// How many predicates the filter holds.
    pub fn len(&self) -> (n: usize)
        ensures
            n == self@.len(),
    {
        self.filters.len()
    }

    /// The predicate at place `i` in the order of the names.
    pub fn get(&self, i: usize) -> (r: &ParameterFilter)
        requires
            i < self@.len(),
        ensures
            r@ == self@[i as int],
    {
        &self.filters[i]
    }

    /// Reads a clause with every term that writes a predicate, a flag with
    /// an inequality too, and hands back beside the filter the index of the
    /// first such term.
    fn read(filter_text: &String) -> (r: (ParameterFilterSet, Option<usize>))
        ensures
            r.0@ == parse_filter(filter_text@),
            match r.1 {
                Some(k) => k < pieces(filter_text@).len() && mistyped(pieces(filter_text@)[k as int])
                    && forall|i: int| 0 <= i < k ==> !mistyped(#[trigger] pieces(filter_text@)[i]),
                None => well_typed(filter_text@),
            },
    {
        let text = filter_text.as_str();
        let v = chars_of(text);
        let bounds = piece_bounds(&v);
        let ghost all = pieces(v@);
        let mut filters: Vec<ParameterFilter> = Vec::new();
        let mut fault: Option<usize> = None;
        let mut k: usize = 0;
        proof {
            assert(all.take(0) =~= Seq::<Text>::empty());
            assert(filters@.map_values(|f: ParameterFilter| f@) =~= Seq::<Term>::empty());
        }
        while k < bounds.len()
            invariant
                v@ == text@,
                all == pieces(v@),
                k <= bounds@.len() == all.len(),
                forall|i: int|
                    0 <= i < bounds@.len() ==> (#[trigger] bounds@[i]).0 <= bounds@[i].1 <= v@.len()
                        && v@.subrange(bounds@[i].0 as int, bounds@[i].1 as int) == all[i],
                filters@.map_values(|f: ParameterFilter| f@) == by_name(
                    terms_of(all.take(k as int)),
                ),
                match fault {
                    Some(m) => m < k && mistyped(all[m as int]) && forall|i: int|
                        0 <= i < m ==> !mistyped(#[trigger] all[i]),
                    None => forall|i: int| 0 <= i < k ==> !mistyped(#[trigger] all[i]),
                },
            decreases bounds@.len() - k,
        {
            let (start, end) = bounds[k];
            let ghost piece = all[k as int];
            let ghost before = terms_of(all.take(k as int));
            proof {
                lemma_terms_step(all, k as int);
            }
            match operator_in(&v, start, end) {
                Some((c, p)) => {
                    let (name_from, name_to) = trim_bounds(&v, start, start + p);
                    let width: usize = match c {
                        Comparison::Less => 1,
                        Comparison::Greater => 1,
                        _ => 2,
                    };
                    let (value_from, value_to) = trim_bounds(&v, start + p + width, end);
                    proof {
                        assert(piece.take(p as int) =~= v@.subrange(start as int, start + p));
                        assert(piece.skip(p + c.symbol().len()) =~= v@.subrange(
                            start + p + width,
                            end as int,
                        ));
                        assert(split_term(piece) == Some(
                            (
                                v@.subrange(name_from as int, name_to as int),
                                c,
                                v@.subrange(value_from as int, value_to as int),
                            ),
                        ));
                    }
                    match read_flag(&v, value_from, value_to) {
                        Some(b) => {
                            if fault.is_none() && c != Comparison::Equal {
                                fault = Some(k);
                            }
                            let name = text.substring_char(name_from, name_to).to_owned();
                            let term = ParameterFilter::Bool(name, b);
                            proof {
                                assert(term_of(piece) == Some(term@));
                                lemma_by_name_push(before, term@);
                            }
                            insert_by_name(&mut filters, term);
                        },
                        None => match read_count(&v, value_from, value_to) {
                            Some(x) => {
                                let name = text.substring_char(name_from, name_to).to_owned();
                                let term = ParameterFilter::Int(name, c, x);
                                proof {
                                    assert(term_of(piece) == Some(term@));
                                    lemma_by_name_push(before, term@);
                                }
                                insert_by_name(&mut filters, term);
                            },
                            None => {
                                assert(term_of(piece) is None);
                            },
                        },
                    }
                },
                None => {
                    assert(term_of(piece) is None);
                },
            }
            k = k + 1;
        }
        proof {
            assert(all.take(all.len() as int) =~= all);
        }
        (ParameterFilterSet { filters }, fault)
    }

    /// Reads a filter clause: a list of terms between commas, each a name, a
    /// comparison symbol and a value. The clause is refused if it compares a
    /// flag by an inequality, and the error names the first term that does.
    pub fn try_new(filter_text: &String) -> (r: Result<ParameterFilterSet, FilterError>)
        ensures
            match r {
                Ok(set) => well_typed(filter_text@) && set@ == parse_filter(filter_text@),
                Err(e) => e.term < pieces(filter_text@).len() && mistyped(
                    pieces(filter_text@)[e.term as int],
                ) && forall|i: int| 0 <= i < e.term ==> !mistyped(#[trigger] pieces(filter_text@)[i]),
            },
    {
        let (set, fault) = Self::read(filter_text);
        match fault {
            Some(term) => Err(FilterError { term }),
            None => Ok(set),
        }
    }

    /// Reads a filter clause that compares no flag by an inequality.
    pub fn new(filter_text: &String) -> (r: ParameterFilterSet)
        requires
            well_typed(filter_text@),
        ensures
            r@ == parse_filter(filter_text@),
    {
        Self::read(filter_text).0
    }
}

impl FilterSet for ParameterFilterSet {
    open spec fn passes(&self, p: Parameters) -> bool {
        accepts_all(self@, p)
    }

    open spec fn description(&self) -> Text {
        filter_text(self@)
    }

    /// Whether a series with these parameters satisfies every predicate.
    fn passes_filters(&self, parameters: &ParameterSet) -> (r: bool) {
        let mut passes = true;
        let mut i: usize = 0;
        while i < self.filters.len()
            invariant
                i <= self.filters@.len(),
                parameters.wf(),
                passes == accepts_all(self@.take(i as int), parameters@),
            decreases self.filters@.len() - i,
        {
            let ok = self.filters[i].accepts(parameters);
            proof {
                let before = self@.take(i as int);
                let after = self@.take(i as int + 1);
                assert(after[i as int] == self.filters@[i as int]@);
                if passes && ok {
                    assert forall|j: int| 0 <= j < after.len() implies (#[trigger] after[j]).accepts(
                        parameters@,
                    ) by {
                        if j < i {
                            assert(after[j] == before[j]);
                        }
                    }
                } else if !passes {
                    let j = choose|j: int|
                        0 <= j < before.len() && !(#[trigger] before[j]).accepts(parameters@);
                    assert(after[j] == before[j]);
                }
            }
            if !ok {
                passes = false;
            }
            i = i + 1;
        }
        proof {
            assert(self@.take(self.filters@.len() as int) =~= self@);
        }
        passes
    }

    /// The canonical text of the filter.
    fn display_text(&self) -> (r: String) {
        let mut text = String::new();
        let mut i: usize = 0;
        while i < self.filters.len()
            invariant
                i <= self.filters@.len(),
                text@ == filter_text(self@.take(i as int)),
            decreases self.filters@.len() - i,
        {
            proof {
                reveal_strlit(", ");
                assert(self@.take(i as int + 1).drop_last() =~= self@.take(i as int));
                assert(self@.take(i as int + 1).last() == self.filters@[i as int]@);
            }
            if i > 0 {
                text.append(", ");
                assert(", "@ =~= seq![',', ' ']);
            }
            self.filters[i].push_text(&mut text);
            proof {
                if i == 0 {
                    assert(self@.take(1)[0] == self.filters@[0]@);
                    assert(Seq::<char>::empty() + self.filters@[0]@.text() =~= self.filters@[0]@.text());
                }
            }
            i = i + 1;
        }
        proof {
            assert(self@.take(self.filters@.len() as int) =~= self@);
        }
        text
    }
}

} // verus!
