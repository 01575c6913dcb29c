//! What holds of every filter: the order of its predicates, and that its
//! canonical text reads back as the same filter.

use crate::filter::{accepts_all, by_name, match_order, operator, operator_from, ordered_by_name};
use crate::parameter::Parameters;
use crate::filter::{filter_text, mistyped, parse_filter, split_term, term_of, terms_of, well_typed};
use crate::filter::{slot_by_name, Comparison, Term};
use crate::literal::{is_digit, lemma_decimal, lemma_parse_count_of_decimal, lemma_parse_flag_of_text};
use crate::text::{find, is_trimmed, is_white_space, lemma_find, lemma_find_is, occurs_at};
use crate::text::{lemma_trim_after_space, lemma_trim_end_shape, lemma_trim_is_trimmed, lemma_trim_start_shape};
use crate::text::{trim, trim_end, trim_start};
use crate::text::{lemma_lex_less_then_less_eq, lex_less, Text};
use crate::text::{lemma_pieces_hold_no_comma, lemma_pieces_of_joined, lemma_pieces_of_one, pieces};
use vstd::prelude::*;

verus! {

/// A filter without predicates lets every series pass.
pub proof fn lemma_empty_filter_passes(p: Parameters)
    ensures
        accepts_all(Seq::<Term>::empty(), p),
{
}

/// The slot of a predicate in an ordered list: no predicate before the slot
/// has a name that comes after its own, every predicate from the slot on
/// has.
pub proof fn lemma_slot_by_name(s: Seq<Term>, t: Term)
    requires
        ordered_by_name(s),
    ensures
        0 <= slot_by_name(s, t) <= s.len(),
        forall|i: int| 0 <= i < slot_by_name(s, t) ==> !lex_less(t.name(), (#[trigger] s[i]).name()),
        forall|i: int| slot_by_name(s, t) <= i < s.len() ==> lex_less(t.name(), (#[trigger] s[i]).name()),
    decreases s.len(),
{
    if s.len() > 0 {
        let init = s.drop_last();
        assert forall|i: int, j: int| 0 <= i < j < init.len() implies !lex_less(
            #[trigger] init[j].name(),
            #[trigger] init[i].name(),
        ) by {
            assert(init[i] == s[i] && init[j] == s[j]);
        }
        if lex_less(t.name(), s.last().name()) {
            lemma_slot_by_name(init, t);
            assert forall|i: int| 0 <= i < slot_by_name(s, t) implies !lex_less(
                t.name(),
                (#[trigger] s[i]).name(),
            ) by {
                assert(s[i] == init[i]);
            }
            assert forall|i: int| slot_by_name(s, t) <= i < s.len() implies lex_less(
                t.name(),
                (#[trigger] s[i]).name(),
            ) by {
                if i < s.len() - 1 {
                    assert(s[i] == init[i]);
                }
            }
        } else {
            assert forall|i: int| 0 <= i < s.len() implies !lex_less(
                t.name(),
                (#[trigger] s[i]).name(),
            ) by {
                if i < s.len() - 1 && lex_less(t.name(), s[i].name()) {
                    assert(!lex_less(s[s.len() - 1].name(), s[i].name()));
                    lemma_lex_less_then_less_eq(t.name(), s[i].name(), s.last().name());
                }
            }
        }
    }
}

/// Ordering by name gives a list whose names do not descend, with the same
/// predicates, each as often as before.
pub proof fn lemma_by_name(s: Seq<Term>)
    ensures
        ordered_by_name(by_name(s)),
        by_name(s).len() == s.len(),
        by_name(s).to_multiset() == s.to_multiset(),
    decreases s.len(),
{
    if s.len() == 0 {
        assert(by_name(s) =~= s);
    } else {
        let init = s.drop_last();
        let t = s.last();
        lemma_by_name(init);
        let sorted = by_name(init);
        let j = slot_by_name(sorted, t);
        lemma_slot_by_name(sorted, t);
        let r = sorted.insert(j, t);
        assert forall|a: int, b: int| 0 <= a < b < r.len() implies !lex_less(
            #[trigger] r[b].name(),
            #[trigger] r[a].name(),
        ) by {
            let a0 = if a < j { a } else { a - 1 };
            let b0 = if b < j { b } else { b - 1 };
            if a == j {
                assert(r[b] == sorted[b0]);
                crate::text::lemma_lex_asymmetric(t.name(), sorted[b0].name());
            } else if b == j {
                assert(r[a] == sorted[a0]);
            } else {
                assert(r[a] == sorted[a0] && r[b] == sorted[b0]);
            }
        }
        assert(s =~= init.push(t));
        vstd::seq_lib::to_multiset_insert(sorted, j, t);
        vstd::seq_lib::to_multiset_build(init, t);
    }
}

/// A list whose names do not descend is left as it is.
pub proof fn lemma_by_name_of_ordered(s: Seq<Term>)
    requires
        ordered_by_name(s),
    ensures
        by_name(s) == s,
    decreases s.len(),
{
    if s.len() == 0 {
        assert(by_name(s) =~= s);
    } else {
        let init = s.drop_last();
        assert forall|i: int, j: int| 0 <= i < j < init.len() implies !lex_less(
            #[trigger] init[j].name(),
            #[trigger] init[i].name(),
        ) by {
            assert(init[i] == s[i] && init[j] == s[j]);
        }
        lemma_by_name_of_ordered(init);
        if init.len() > 0 {
            assert(init.last() == s[s.len() - 2]);
            assert(!lex_less(s[s.len() - 1].name(), s[s.len() - 2].name()));
        }
        assert(slot_by_name(init, s.last()) == init.len());
        assert(init.insert(init.len() as int, s.last()) =~= s);
    }
}

/// A character that stands in no symbol and is neither a comma nor white
/// space.
pub open spec fn plain(c: char) -> bool {
    c != '=' && c != '<' && c != '>' && c != ',' && !is_white_space(c)
}

/// The place of a comparison in the match order.
pub open spec fn order_index(c: Comparison) -> int {
    match c {
        Comparison::Equal => 0,
        Comparison::LessEqual => 1,
        Comparison::GreaterEqual => 2,
        Comparison::Less => 3,
        Comparison::Greater => 4,
    }
}

/// The text holds the symbol of no comparison up to place `upto` of the
/// match order.
pub open spec fn holds_no_symbol(name: Text, upto: int) -> bool {
    forall|k: int, j: int|
        0 <= k <= upto && k < 5 ==> !#[trigger] occurs_at(name, match_order()[k].symbol(), j)
}

/// A predicate as the reading of a clause makes it: its name is trimmed,
/// holds no comma, and holds neither the symbol of its comparison nor one
/// that is searched for before it.
pub open spec fn canonical(t: Term) -> bool {
    &&& is_trimmed(t.name())
    &&& !t.name().contains(',')
    &&& holds_no_symbol(t.name(), order_index(t.comparison()))
}

/// A predicate whose canonical text reads back as itself: it is canonical,
/// and where it compares for equality its name does not end in `=`, which
/// would run into the symbol.
pub open spec fn rereadable(t: Term) -> bool {
    &&& canonical(t)
    &&& !(t.comparison() == Comparison::Equal && t.name().len() > 0 && t.name().last() == '=')
}

/// The text of a value is not empty and made of plain characters.
pub proof fn lemma_value_text(t: Term)
    ensures
        t.value_text().len() > 0,
        forall|i: int| 0 <= i < t.value_text().len() ==> plain(#[trigger] t.value_text()[i]),
{
    match t {
        Term::Bool(_, b) => {},
        Term::Int(_, _, v) => {
            lemma_decimal(v as nat);
            assert forall|i: int| 0 <= i < t.value_text().len() implies plain(
                #[trigger] t.value_text()[i],
            ) by {
                assert(is_digit(t.value_text()[i]));
            }
        },
    }
}

/// Where a symbol that is searched for no later than that of the predicate
/// stands in the canonical text of the predicate, it is the symbol of the
/// predicate, right behind the name.
proof fn lemma_symbol_in_text(t: Term, k: int, j: int)
    requires
        rereadable(t),
        0 <= k <= order_index(t.comparison()),
        occurs_at(t.text(), match_order()[k].symbol(), j),
    ensures
        k == order_index(t.comparison()),
        j == t.name().len(),
{
    let name = t.name();
    let sym = t.comparison().symbol();
    let val = t.value_text();
    let piece = t.text();
    let w = match_order()[k].symbol();
    let n = name.len() as int;
    let m = sym.len() as int;
    let l = w.len() as int;
    lemma_value_text(t);
    assert(plain(val[0]));
    let found = piece.subrange(j, j + l);
    assert(found[0] == piece[j]);
    if l == 2 {
        assert(found[1] == piece[j + 1]);
    }
    if j + l <= n {
        assert(name.subrange(j, j + l) =~= found);
        assert(occurs_at(name, match_order()[k].symbol(), j));
    } else if j >= n + m {
        assert(piece[j] == val[j - n - m]);
        assert(plain(val[j - n - m]));
    } else {
        assert(piece[n] == sym[0]);
        if m == 2 {
            assert(piece[n + 1] == sym[1]);
            assert(piece[n + 2] == val[0]);
        } else {
            assert(piece[n + 1] == val[0]);
        }
        if n > 0 {
            assert(piece[n - 1] == name[n - 1]);
        }
    }
}

/// The search for an operator from place `k` of the match order finds the
/// comparison at place `at`, where the symbol of none before it occurs and
/// its own occurs first at `pos`.
proof fn lemma_operator_from(piece: Text, k: int, at: int, pos: int)
    requires
        0 <= k <= at < 5,
        forall|i: int| k <= i < at ==> find(piece, #[trigger] match_order()[i].symbol()) is None,
        find(piece, match_order()[at].symbol()) == Some(pos),
    ensures
        operator_from(piece, k) == Some((match_order()[at], pos)),
    decreases at - k,
{
    if k < at {
        assert(find(piece, match_order()[k].symbol()) is None);
        lemma_operator_from(piece, k + 1, at, pos);
    }
}

/// What a found operator says of the piece: the symbol of no comparison
/// before it in the match order occurs, and its own occurs first at the
/// index found.
pub proof fn lemma_operator(piece: Text)
    ensures
        match operator(piece) {
            Some((c, p)) => find(piece, c.symbol()) == Some(p) && forall|i: int|
                0 <= i < order_index(c) ==> find(piece, #[trigger] match_order()[i].symbol()) is None,
            None => forall|i: int| 0 <= i < 5 ==> find(piece, #[trigger] match_order()[i].symbol()) is None,
        },
{
    reveal_with_fuel(operator_from, 6);
}

/// The operator of the canonical text of a predicate is its comparison,
/// right behind its name.
pub proof fn lemma_operator_of_text(t: Term)
    requires
        rereadable(t),
    ensures
        operator(t.text()) == Some((t.comparison(), t.name().len() as int)),
{
    let piece = t.text();
    let c = t.comparison();
    let at = order_index(c);
    let n = t.name().len() as int;
    assert(match_order()[at] == c);
    assert(piece.subrange(n, n + c.symbol().len()) =~= c.symbol());
    assert(occurs_at(piece, c.symbol(), n));
    assert forall|j: int| 0 <= j < n implies !occurs_at(piece, c.symbol(), j) by {
        if occurs_at(piece, match_order()[at].symbol(), j) {
            lemma_symbol_in_text(t, at, j);
        }
    }
    lemma_find_is(piece, c.symbol(), n);
    assert forall|i: int| 0 <= i < at implies find(
        piece,
        #[trigger] match_order()[i].symbol(),
    ) is None by {
        lemma_find(piece, match_order()[i].symbol());
        if find(piece, match_order()[i].symbol()) is Some {
            lemma_symbol_in_text(t, i, find(piece, match_order()[i].symbol())->0);
        }
    }
    lemma_operator_from(piece, 0, at, n);
}

/// The canonical text of a predicate reads back as the predicate, breaks no
/// rule, and holds no comma.
pub proof fn lemma_term_of_text(t: Term)
    requires
        rereadable(t),
    ensures
        term_of(t.text()) == Some(t),
        !mistyped(t.text()),
        !t.text().contains(','),
{
    let piece = t.text();
    let name = t.name();
    let c = t.comparison();
    let val = t.value_text();
    let n = name.len() as int;
    lemma_operator_of_text(t);
    lemma_value_text(t);
    assert(piece.take(n) =~= name);
    assert(piece.skip(n + c.symbol().len()) =~= val);
    assert(plain(val[0]) && plain(val[val.len() - 1]));
    assert(is_trimmed(val));
    assert(split_term(piece) == Some((name, c, val)));
    match t {
        Term::Bool(_, b) => {
            lemma_parse_flag_of_text(b);
        },
        Term::Int(_, _, v) => {
            lemma_parse_count_of_decimal(v);
        },
    }
    if piece.contains(',') {
        let j = choose|j: int| 0 <= j < piece.len() && piece[j] == ',';
        if j < n {
            assert(name[j] == ',');
            assert(name.contains(','));
        } else if j < n + c.symbol().len() {
            assert(piece[j] == c.symbol()[j - n]);
        } else {
            assert(piece[j] == val[j - n - c.symbol().len()]);
            assert(plain(val[j - n - c.symbol().len()]));
        }
    }
}

/// White space in front of a term changes neither where its symbols are
/// found, counted from the term, nor what it splits into.
pub proof fn lemma_term_after_space(w: char, piece: Text)
    requires
        is_white_space(w),
    ensures
        split_term(seq![w] + piece) == split_term(piece),
        term_of(seq![w] + piece) == term_of(piece),
        mistyped(seq![w] + piece) == mistyped(piece),
{
    let wide = seq![w] + piece;
    assert forall|k: int| 0 <= k < 5 implies find(wide, #[trigger] match_order()[k].symbol())
        == match find(piece, match_order()[k].symbol()) {
        Some(p) => Some(p + 1),
        None => None,
    } by {
        let sym = match_order()[k].symbol();
        lemma_find(piece, sym);
        lemma_find(wide, sym);
        assert forall|j: int| occurs_at(wide, sym, j) == (j >= 1 && occurs_at(piece, sym, j - 1)) by {
            if j >= 1 && j + sym.len() <= wide.len() {
                assert(wide.subrange(j, j + sym.len()) =~= piece.subrange(j - 1, j - 1 + sym.len()));
            }
            if occurs_at(wide, sym, 0) {
                assert(wide.subrange(0, sym.len() as int)[0] == wide[0]);
            }
        }
        match find(piece, sym) {
            Some(p) => {
                assert(occurs_at(wide, sym, p + 1));
                assert forall|j: int| 0 <= j < p + 1 implies !occurs_at(wide, sym, j) by {
                    if j >= 1 {
                        assert(!occurs_at(piece, sym, j - 1));
                    }
                }
                lemma_find_is(wide, sym, p + 1);
            },
            None => {
                if find(wide, sym) is Some {
                    let q = find(wide, sym)->0;
                    assert(occurs_at(piece, sym, q - 1));
                }
            },
        }
    }
    lemma_operator(piece);
    lemma_operator(wide);
    match operator(piece) {
        Some((c, p)) => {
            let at = order_index(c);
            assert(match_order()[at] == c);
            assert forall|i: int| 0 <= i < at implies find(
                wide,
                #[trigger] match_order()[i].symbol(),
            ) is None by {
                assert(find(piece, match_order()[i].symbol()) is None);
            }
            lemma_operator_from(wide, 0, at, p + 1);
            lemma_find(piece, c.symbol());
            assert(occurs_at(piece, c.symbol(), p));
            assert(wide.take(p + 1) =~= seq![w] + piece.take(p));
            lemma_trim_after_space(w, piece.take(p));
            assert(wide.skip(p + 1 + c.symbol().len()) =~= piece.skip(p + c.symbol().len()));
        },
        None => {
            reveal_with_fuel(operator_from, 6);
        },
    }
}

/// Trimming cuts a text down to a stretch of it.
pub proof fn lemma_trim_is_stretch(s: Text)
    ensures
        exists|a: int, b: int| 0 <= a <= b <= s.len() && trim(s) == s.subrange(a, b),
{
    let front = trim_start(s);
    lemma_trim_start_shape(s);
    lemma_trim_end_shape(front);
    let a = s.len() - front.len();
    let b = a + trim_end(front).len();
    assert(trim(s) =~= s.subrange(a, b));
}

/// A predicate read from a piece without comma, which breaks no rule, is
/// canonical.
pub proof fn lemma_term_is_canonical(piece: Text)
    requires
        !piece.contains(','),
        !mistyped(piece),
        term_of(piece) is Some,
    ensures
        canonical(term_of(piece)->0),
{
    let t = term_of(piece)->0;
    lemma_operator(piece);
    let (c, p) = operator(piece)->0;
    let head = piece.take(p);
    let name = trim(head);
    assert(t.name() == name);
    assert(t.comparison() == c);
    lemma_trim_is_trimmed(head);
    lemma_trim_is_stretch(head);
    lemma_find(piece, c.symbol());
    let (a, b) = choose|a: int, b: int| 0 <= a <= b <= head.len() && trim(head) == head.subrange(a, b);
    if name.contains(',') {
        let j = choose|j: int| 0 <= j < name.len() && name[j] == ',';
        assert(piece[a + j] == ',');
    }
    assert forall|k: int, j: int| 0 <= k <= order_index(c) && k < 5 implies !#[trigger] occurs_at(
        name,
        match_order()[k].symbol(),
        j,
    ) by {
        let sym = match_order()[k].symbol();
        if occurs_at(name, sym, j) {
            assert(piece.subrange(a + j, a + j + sym.len()) =~= name.subrange(j, j + sym.len()));
            assert(occurs_at(piece, sym, a + j));
            lemma_find(piece, sym);
            if k < order_index(c) {
                assert(find(piece, match_order()[k].symbol()) is None);
            } else {
                assert(match_order()[k] == c);
            }
        }
    }
}

/// The canonical text of a list of rereadable predicates splits into
/// pieces that break no rule and that write those predicates again.
pub proof fn lemma_pieces_of_filter_text(ts: Seq<Term>)
    requires
        forall|i: int| 0 <= i < ts.len() ==> rereadable(#[trigger] ts[i]),
    ensures
        terms_of(pieces(filter_text(ts))) == ts,
        well_typed(filter_text(ts)),
    decreases ts.len(),
{
    let text = filter_text(ts);
    let ps = pieces(text);
    if ts.len() == 0 {
        assert(!text.contains(','));
        lemma_pieces_of_one(text);
        lemma_operator(text);
        assert(operator(text) is None) by {
            if operator(text) is Some {
                let (c, p) = operator(text)->0;
                lemma_find(text, c.symbol());
            }
        }
        assert(ps.drop_last() =~= Seq::<Text>::empty());
        assert(ps.last() == text);
        assert(term_of(text) is None);
        assert(terms_of(ps.drop_last()) =~= Seq::<Term>::empty());
        assert(terms_of(ps) =~= ts);
    } else if ts.len() == 1 {
        lemma_term_of_text(ts[0]);
        lemma_pieces_of_one(text);
        assert(ps.drop_last() =~= Seq::<Text>::empty());
        assert(ps.last() == text);
        assert(terms_of(ps.drop_last()) =~= Seq::<Term>::empty());
        assert(terms_of(ps) =~= ts);
    } else {
        let init = ts.drop_last();
        let t = ts.last();
        assert forall|i: int| 0 <= i < init.len() implies rereadable(#[trigger] init[i]) by {
            assert(init[i] == ts[i]);
        }
        lemma_pieces_of_filter_text(init);
        let spaced = seq![' '] + t.text();
        assert(text =~= filter_text(init) + seq![','] + spaced);
        lemma_pieces_of_joined(filter_text(init), spaced);
        lemma_term_of_text(t);
        lemma_term_after_space(' ', t.text());
        assert(!spaced.contains(',')) by {
            if spaced.contains(',') {
                let j = choose|j: int| 0 <= j < spaced.len() && spaced[j] == ',';
                assert(t.text()[j - 1] == ',');
            }
        }
        lemma_pieces_of_one(spaced);
        let before = pieces(filter_text(init));
        assert(ps =~= before.push(spaced));
        assert(ps.drop_last() =~= before);
        assert(terms_of(ps) =~= ts);
        assert forall|i: int| 0 <= i < ps.len() implies !mistyped(#[trigger] ps[i]) by {
            if i < before.len() {
                assert(ps[i] == before[i]);
            }
        }
    }
}

/// The predicates read from pieces without comma, none of which breaks a
/// rule, are canonical.
pub proof fn lemma_terms_are_canonical(ps: Seq<Text>)
    requires
        forall|i: int| 0 <= i < ps.len() ==> !(#[trigger] ps[i]).contains(','),
        forall|i: int| 0 <= i < ps.len() ==> !mistyped(#[trigger] ps[i]),
    ensures
        forall|i: int| 0 <= i < terms_of(ps).len() ==> canonical(#[trigger] terms_of(ps)[i]),
    decreases ps.len(),
{
    if ps.len() > 0 {
        let init = ps.drop_last();
        assert forall|i: int| 0 <= i < init.len() implies !(#[trigger] init[i]).contains(',')
            && !mistyped(init[i]) by {
            assert(init[i] == ps[i]);
        }
        lemma_terms_are_canonical(init);
        let last = ps.last();
        assert(last == ps[ps.len() - 1]);
        if term_of(last) is Some {
            lemma_term_is_canonical(last);
        }
        assert forall|i: int| 0 <= i < terms_of(ps).len() implies canonical(
            #[trigger] terms_of(ps)[i],
        ) by {
            if i < terms_of(init).len() {
                assert(terms_of(ps)[i] == terms_of(init)[i]);
            }
        }
    }
}

/// The predicates of a clause that breaks no rule are canonical, and their
/// names do not descend.
pub proof fn lemma_parse_is_canonical(text: Text)
    requires
        well_typed(text),
    ensures
        ordered_by_name(parse_filter(text)),
        forall|i: int| 0 <= i < parse_filter(text).len() ==> canonical(#[trigger] parse_filter(text)[i]),
{
    let ps = pieces(text);
    let read = terms_of(ps);
    lemma_pieces_hold_no_comma(text);
    lemma_terms_are_canonical(ps);
    lemma_by_name(read);
    let sorted = by_name(read);
    assert forall|i: int| 0 <= i < sorted.len() implies canonical(#[trigger] sorted[i]) by {
        vstd::seq_lib::to_multiset_contains(sorted, sorted[i]);
        vstd::seq_lib::to_multiset_contains(read, sorted[i]);
        assert(sorted.contains(sorted[i]));
        let j = choose|j: int| 0 <= j < read.len() && read[j] == sorted[i];
        assert(canonical(read[j]));
    }
}

/// The canonical text of an ordered list of rereadable predicates is a
/// clause that breaks no rule and reads back as that list.
pub proof fn lemma_filter_text_reads_back(ts: Seq<Term>)
    requires
        ordered_by_name(ts),
        forall|i: int| 0 <= i < ts.len() ==> rereadable(#[trigger] ts[i]),
    ensures
        well_typed(filter_text(ts)),
        parse_filter(filter_text(ts)) == ts,
{
    lemma_pieces_of_filter_text(ts);
    lemma_by_name_of_ordered(ts);
}

/// Round trip: the canonical text of the filter that a clause writes reads
/// back as the same filter, and so has the same canonical text. The clause
/// must break no rule, and no predicate that compares for equality may have
/// a name that ends in `=`.
pub proof fn lemma_display_round_trip(text: Text)
    requires
        well_typed(text),
        forall|i: int|
            0 <= i < parse_filter(text).len() ==> !({
                let t = #[trigger] parse_filter(text)[i];
                t.comparison() == Comparison::Equal && t.name().len() > 0 && t.name().last() == '='
            }),
    ensures
        well_typed(filter_text(parse_filter(text))),
        parse_filter(filter_text(parse_filter(text))) == parse_filter(text),
        filter_text(parse_filter(filter_text(parse_filter(text)))) == filter_text(parse_filter(text)),
{
    lemma_parse_is_canonical(text);
    lemma_filter_text_reads_back(parse_filter(text));
}

} // verus!
