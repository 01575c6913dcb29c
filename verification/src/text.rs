//! Texts as sequences of characters: their order, trimming, searching, and
//! splitting at commas.

use vstd::prelude::*;
use vstd::std_specs::iter::IteratorSpec;
use vstd::string::*;

verus! {

/// A text, as contracts see it.
pub type Text = Seq<char>;

/// Strict lexicographic order on texts, character by character, each
/// character ranked by its code point. A proper prefix comes first.
pub open spec fn lex_less(a: Text, b: Text) -> bool
    decreases a.len(),
{
    if b.len() == 0 {
        false
    } else if a.len() == 0 {
        true
    } else if a[0] != b[0] {
        a[0] < b[0]
    } else {
        lex_less(a.drop_first(), b.drop_first())
    }
}

/// `a` comes before `b` or equals it.
pub open spec fn lex_less_eq(a: Text, b: Text) -> bool {
    !lex_less(b, a)
}

/// No text comes before itself.
pub proof fn lemma_lex_irreflexive(a: Text)
    ensures
        !lex_less(a, a),
    decreases a.len(),
{
    if a.len() > 0 {
        lemma_lex_irreflexive(a.drop_first());
    }
}

/// Of two texts at most one comes before the other.
pub proof fn lemma_lex_asymmetric(a: Text, b: Text)
    ensures
        !(lex_less(a, b) && lex_less(b, a)),
    decreases a.len(),
{
    if a.len() > 0 && b.len() > 0 && a[0] == b[0] {
        lemma_lex_asymmetric(a.drop_first(), b.drop_first());
    }
}

/// The order is transitive.
pub proof fn lemma_lex_transitive(a: Text, b: Text, c: Text)
    requires
        lex_less(a, b),
        lex_less(b, c),
    ensures
        lex_less(a, c),
    decreases a.len(),
{
    if a.len() > 0 && b.len() > 0 && c.len() > 0 && a[0] == b[0] && b[0] == c[0] {
        lemma_lex_transitive(a.drop_first(), b.drop_first(), c.drop_first());
    }
}

/// Two texts of which neither comes before the other are the same text.
pub proof fn lemma_lex_total(a: Text, b: Text)
    ensures
        lex_less(a, b) || lex_less(b, a) || a == b,
    decreases a.len(),
{
    if a.len() > 0 && b.len() > 0 && a[0] == b[0] {
        lemma_lex_total(a.drop_first(), b.drop_first());
        if a.drop_first() == b.drop_first() {
            assert(a =~= seq![a[0]] + a.drop_first());
            assert(b =~= seq![b[0]] + b.drop_first());
        }
    } else if a.len() == 0 && b.len() == 0 {
        assert(a =~= b);
    }
}

/// `a < b <= c` gives `a < c`.
pub proof fn lemma_lex_less_then_less_eq(a: Text, b: Text, c: Text)
    requires
        lex_less(a, b),
        lex_less_eq(b, c),
    ensures
        lex_less(a, c),
{
    lemma_lex_total(b, c);
    if b != c {
        lemma_lex_transitive(a, b, c);
    }
}

/// Whether `a` comes strictly before `b`.
pub fn text_less(a: &str, b: &str) -> (r: bool)
    ensures
        r == lex_less(a@, b@),
{
    broadcast use vstd::string::group_string_axioms;

    let mut left = a.chars();
    let mut right = b.chars();
    let ghost mut n: int = 0;
    proof {
        assert(a@.skip(0) =~= a@);
        assert(b@.skip(0) =~= b@);
    }
    loop
        invariant
            0 <= n <= a@.len(),
            n <= b@.len(),
            left.remaining() == a@.skip(n),
            right.remaining() == b@.skip(n),
            lex_less(a@, b@) == lex_less(a@.skip(n), b@.skip(n)),
            left.obeys_prophetic_iter_laws(),
            right.obeys_prophetic_iter_laws(),
        decreases a@.len() - n,
    {
        let x = left.next();
        let y = right.next();
        match (x, y) {
            (_, None) => {
                return false;
            },
            (None, Some(_)) => {
                return true;
            },
            (Some(p), Some(q)) => {
                if p != q {
                    return p < q;
                }
                proof {
                    assert(a@.skip(n).drop_first() =~= a@.skip(n + 1));
                    assert(b@.skip(n).drop_first() =~= b@.skip(n + 1));
                    n = n + 1;
                }
            },
        }
    }
}

/// The characters of `s`, in order.
pub fn chars_of(s: &str) -> (v: Vec<char>)
    ensures
        v@ == s@,
{
    let mut v: Vec<char> = Vec::new();
    for c in it: s.chars()
        invariant
            v@ == s@.take(it.index() as int),
            it.seq() == s@,
    {
        v.push(c);
    }
    v
}

/// The characters that trimming removes: those with the Unicode property
/// `White_Space`.
pub open spec fn is_white_space(c: char) -> bool {
    let u = c as u32;
    ||| 0x09 <= u <= 0x0D
    ||| u == 0x20
    ||| u == 0x85
    ||| u == 0xA0
    ||| u == 0x1680
    ||| 0x2000 <= u <= 0x200A
    ||| u == 0x2028
    ||| u == 0x2029
    ||| u == 0x202F
    ||| u == 0x205F
    ||| u == 0x3000
}

/// Whether `c` is white space.
pub fn white_space(c: char) -> (r: bool)
    ensures
        r == is_white_space(c),
{
    let u: u32 = c as u32;
    (0x09 <= u && u <= 0x0D) || u == 0x20 || u == 0x85 || u == 0xA0 || u == 0x1680 || (0x2000 <= u
        && u <= 0x200A) || u == 0x2028 || u == 0x2029 || u == 0x202F || u == 0x205F || u == 0x3000
}

/// `s` without its leading white space.
pub open spec fn trim_start(s: Text) -> Text
    decreases s.len(),
{
    if s.len() > 0 && is_white_space(s[0]) {
        trim_start(s.drop_first())
    } else {
        s
    }
}

/// `s` without its trailing white space.
pub open spec fn trim_end(s: Text) -> Text
    decreases s.len(),
{
    if s.len() > 0 && is_white_space(s.last()) {
        trim_end(s.drop_last())
    } else {
        s
    }
}

/// `s` without its leading and trailing white space.
pub open spec fn trim(s: Text) -> Text {
    trim_end(trim_start(s))
}

/// A text that trimming leaves as it is: it neither starts nor ends with
/// white space.
pub open spec fn is_trimmed(s: Text) -> bool {
    s.len() > 0 ==> !is_white_space(s[0]) && !is_white_space(s.last())
}

/// What `trim_start` leaves does not start with white space.
pub proof fn lemma_trim_start_shape(s: Text)
    ensures
        trim_start(s).len() <= s.len(),
        trim_start(s) == s.skip(s.len() - trim_start(s).len()),
        trim_start(s).len() > 0 ==> !is_white_space(trim_start(s)[0]),
        forall|i: int| 0 <= i < s.len() - trim_start(s).len() ==> is_white_space(#[trigger] s[i]),
    decreases s.len(),
{
    if s.len() > 0 && is_white_space(s[0]) {
        let t = s.drop_first();
        lemma_trim_start_shape(t);
        assert(t.skip(t.len() - trim_start(t).len()) =~= s.skip(s.len() - trim_start(s).len()));
        assert forall|i: int| 0 <= i < s.len() - trim_start(s).len() implies is_white_space(
            #[trigger] s[i],
        ) by {
            if i > 0 {
                assert(s[i] == t[i - 1]);
            }
        }
    } else {
        assert(s.skip(0) =~= s);
    }
}

/// What `trim_end` leaves does not end with white space.
pub proof fn lemma_trim_end_shape(s: Text)
    ensures
        trim_end(s).len() <= s.len(),
        trim_end(s) == s.take(trim_end(s).len() as int),
        trim_end(s).len() > 0 ==> !is_white_space(trim_end(s).last()),
        forall|i: int| trim_end(s).len() <= i < s.len() ==> is_white_space(#[trigger] s[i]),
    decreases s.len(),
{
    if s.len() > 0 && is_white_space(s.last()) {
        let t = s.drop_last();
        lemma_trim_end_shape(t);
        assert(t.take(trim_end(t).len() as int) =~= s.take(trim_end(s).len() as int));
        assert forall|i: int| trim_end(s).len() <= i < s.len() implies is_white_space(
            #[trigger] s[i],
        ) by {
            if i < t.len() {
                assert(s[i] == t[i]);
            }
        }
    } else {
        assert(s.take(s.len() as int) =~= s);
    }
}

/// What `trim` leaves is trimmed.
pub proof fn lemma_trim_is_trimmed(s: Text)
    ensures
        is_trimmed(trim(s)),
        trim(s).len() <= s.len(),
{
    let a = trim_start(s);
    lemma_trim_start_shape(s);
    lemma_trim_end_shape(a);
    let b = trim_end(a);
    if b.len() > 0 {
        assert(b[0] == a[0]);
    }
}

/// White space put in front of a text does not change what trimming leaves.
pub proof fn lemma_trim_after_space(c: char, s: Text)
    requires
        is_white_space(c),
    ensures
        trim(seq![c] + s) == trim(s),
{
    let t = seq![c] + s;
    assert(t.drop_first() =~= s);
}

/// The limits of what trimming leaves of `v[from..to]`.
pub fn trim_bounds(v: &Vec<char>, from: usize, to: usize) -> (r: (usize, usize))
    requires
        from <= to <= v@.len(),
    ensures
        from <= r.0 <= r.1 <= to,
        v@.subrange(r.0 as int, r.1 as int) == trim(v@.subrange(from as int, to as int)),
{
    let mut lo: usize = from;
    while lo < to && white_space(v[lo])
        invariant
            from <= lo <= to <= v@.len(),
            trim_start(v@.subrange(from as int, to as int)) == trim_start(
                v@.subrange(lo as int, to as int),
            ),
        decreases to - lo,
    {
        proof {
            assert(v@.subrange(lo as int, to as int).drop_first() =~= v@.subrange(
                lo as int + 1,
                to as int,
            ));
        }
        lo = lo + 1;
    }
    let mut hi: usize = to;
    while lo < hi && white_space(v[hi - 1])
        invariant
            lo <= hi <= to <= v@.len(),
            trim_end(v@.subrange(lo as int, to as int)) == trim_end(
                v@.subrange(lo as int, hi as int),
            ),
        decreases hi - lo,
    {
        proof {
            assert(v@.subrange(lo as int, hi as int).drop_last() =~= v@.subrange(
                lo as int,
                hi as int - 1,
            ));
        }
        hi = hi - 1;
    }
    (lo, hi)
}

/// `needle` stands in `hay` at index `i`.
pub open spec fn occurs_at(hay: Text, needle: Text, i: int) -> bool {
    &&& 0 <= i
    &&& i + needle.len() <= hay.len()
    &&& hay.subrange(i, i + needle.len()) == needle
}

/// The first index at or after `i` where `needle` stands in `hay`.
pub open spec fn find_from(hay: Text, needle: Text, i: int) -> Option<int>
    decreases hay.len() - i + 1,
{
    if i < 0 || i + needle.len() > hay.len() {
        None
    } else if occurs_at(hay, needle, i) {
        Some(i)
    } else {
        find_from(hay, needle, i + 1)
    }
}

/// The first index where `needle` stands in `hay`, if it stands anywhere.
pub open spec fn find(hay: Text, needle: Text) -> Option<int> {
    find_from(hay, needle, 0)
}

/// `find_from` gives the least index from `i` on at which the needle stands,
/// and nothing exactly when it stands at none.
pub proof fn lemma_find_from(hay: Text, needle: Text, i: int)
    requires
        0 <= i,
    ensures
        match find_from(hay, needle, i) {
            Some(p) => i <= p && occurs_at(hay, needle, p) && forall|j: int|
                i <= j < p ==> !occurs_at(hay, needle, j),
            None => forall|j: int| i <= j ==> !occurs_at(hay, needle, j),
        },
    decreases hay.len() - i + 1,
{
    if i + needle.len() <= hay.len() && !occurs_at(hay, needle, i) {
        lemma_find_from(hay, needle, i + 1);
    }
}

/// `find` gives the least index at which the needle stands.
pub proof fn lemma_find(hay: Text, needle: Text)
    ensures
        match find(hay, needle) {
            Some(p) => occurs_at(hay, needle, p) && forall|j: int|
                0 <= j < p ==> !occurs_at(hay, needle, j),
            None => forall|j: int| !occurs_at(hay, needle, j),
        },
{
    lemma_find_from(hay, needle, 0);
}

/// An index at which the needle stands, with none before it, is what `find`
/// gives.
pub proof fn lemma_find_is(hay: Text, needle: Text, p: int)
    requires
        occurs_at(hay, needle, p),
        forall|j: int| 0 <= j < p ==> !occurs_at(hay, needle, j),
    ensures
        find(hay, needle) == Some(p),
{
    lemma_find(hay, needle);
}

/// Whether `needle` stands in `v` at index `i`.
fn stands_at(v: &Vec<char>, to: usize, needle: &Vec<char>, i: usize) -> (r: bool)
    requires
        to <= v@.len(),
        i + needle@.len() <= to,
    ensures
        r == (v@.subrange(i as int, i + needle@.len()) == needle@),
{
    let mut k: usize = 0;
    while k < needle.len()
        invariant
            k <= needle@.len(),
            i + needle@.len() <= to <= v@.len(),
            forall|j: int| 0 <= j < k ==> v@[i + j] == needle@[j],
        decreases needle@.len() - k,
    {
        if v[i + k] != needle[k] {
            proof {
                assert(v@.subrange(i as int, i + needle@.len())[k as int] == v@[i + k]);
            }
            return false;
        }
        k = k + 1;
    }
    proof {
        assert(v@.subrange(i as int, i + needle@.len()) =~= needle@);
    }
    true
}

/// The first index, counted from `from`, at which `needle` stands in
/// `v[from..to]`.
pub fn find_in(v: &Vec<char>, from: usize, to: usize, needle: &Vec<char>) -> (r: Option<usize>)
    requires
        from <= to <= v@.len(),
    ensures
        match r {
            Some(p) => find(v@.subrange(from as int, to as int), needle@) == Some(p as int),
            None => find(v@.subrange(from as int, to as int), needle@) is None,
        },
{
    let ghost hay = v@.subrange(from as int, to as int);
    let n = needle.len();
    if to - from < n {
        return None;
    }
    if n == 0 {
        proof {
            assert(hay.subrange(0, 0) =~= needle@);
        }
        return Some(0);
    }
    let mut i: usize = 0;
    while i <= to - from - n
        invariant
            from <= to <= v@.len(),
            n == needle@.len(),
            1 <= n <= to - from,
            hay == v@.subrange(from as int, to as int),
            0 <= i <= to - from - n + 1,
            find(hay, needle@) == find_from(hay, needle@, i as int),
        decreases to - from - n + 1 - i,
    {
        proof {
            assert(hay.subrange(i as int, i + n) =~= v@.subrange(from + i, from + i + n));
        }
        if stands_at(v, to, needle, from + i) {
            return Some(i);
        }
        i = i + 1;
    }
    None
}

/// The texts stand in strictly ascending order, so none occurs twice.
pub open spec fn ascending(keys: Seq<Text>) -> bool {
    forall|i: int, j: int| 0 <= i < j < keys.len() ==> lex_less(#[trigger] keys[i], #[trigger] keys[j])
}

/// The place of `name` among the ascending `keys`: how many of them come
/// before it.
pub open spec fn text_rank(keys: Seq<Text>, name: Text) -> int
    decreases keys.len(),
{
    if keys.len() == 0 {
        0
    } else if lex_less(keys.last(), name) {
        keys.len() as int
    } else {
        text_rank(keys.drop_last(), name)
    }
}

/// Whether the ascending `keys` hold `name`.
pub open spec fn has_text(keys: Seq<Text>, name: Text) -> bool {
    let i = text_rank(keys, name);
    i < keys.len() && keys[i] == name
}

/// The place of a text: all keys before it are smaller, none from it on is.
pub proof fn lemma_text_rank(keys: Seq<Text>, name: Text)
    requires
        ascending(keys),
    ensures
        0 <= text_rank(keys, name) <= keys.len(),
        forall|i: int| 0 <= i < text_rank(keys, name) ==> lex_less(#[trigger] keys[i], name),
        forall|i: int| text_rank(keys, name) <= i < keys.len() ==> !lex_less(#[trigger] keys[i], name),
        has_text(keys, name) <==> keys.contains(name),
    decreases keys.len(),
{
    if keys.len() > 0 {
        if lex_less(keys.last(), name) {
            assert forall|i: int| 0 <= i < keys.len() implies lex_less(#[trigger] keys[i], name) by {
                if i < keys.len() - 1 {
                    lemma_lex_transitive(keys[i], keys.last(), name);
                }
            }
        } else {
            let t = keys.drop_last();
            lemma_text_rank(t, name);
            assert forall|i: int| 0 <= i < text_rank(keys, name) implies lex_less(
                #[trigger] keys[i],
                name,
            ) by {
                assert(keys[i] == t[i]);
            }
            assert forall|i: int| text_rank(keys, name) <= i < keys.len() implies !lex_less(
                #[trigger] keys[i],
                name,
            ) by {
                if i < keys.len() - 1 {
                    assert(keys[i] == t[i]);
                }
            }
        }
    }
    let r = text_rank(keys, name);
    if keys.contains(name) {
        let k = choose|k: int| 0 <= k < keys.len() && keys[k] == name;
        lemma_lex_irreflexive(name);
        if k < r {
            assert(lex_less(keys[k], name));
        } else if k > r {
            assert(lex_less(keys[r], keys[k]));
            assert(!lex_less(keys[r], name));
        }
    }
    if has_text(keys, name) {
        assert(keys[r] == name);
    }
}

/// Putting a text in at its place keeps the keys ascending.
pub proof fn lemma_text_insert(keys: Seq<Text>, name: Text)
    requires
        ascending(keys),
        !has_text(keys, name),
    ensures
        ascending(keys.insert(text_rank(keys, name), name)),
{
    let i = text_rank(keys, name);
    let r = keys.insert(i, name);
    lemma_text_rank(keys, name);
    assert forall|a: int, b: int| 0 <= a < b < r.len() implies lex_less(
        #[trigger] r[a],
        #[trigger] r[b],
    ) by {
        if b == i {
            assert(r[a] == keys[a]);
        } else if a == i {
            assert(r[b] == keys[b - 1]);
            lemma_lex_total(keys[b - 1], name);
            if b - 1 == i {
            } else {
                assert(lex_less(keys[i], keys[b - 1]));
                assert(!lex_less(keys[i], name));
                lemma_lex_total(keys[i], name);
                if keys[b - 1] == name {
                    lemma_lex_asymmetric(keys[i], name);
                } else if lex_less(keys[b - 1], name) {
                    lemma_lex_transitive(keys[i], keys[b - 1], name);
                }
            }
        } else {
            let a0 = if a < i { a } else { a - 1 };
            let b0 = if b < i { b } else { b - 1 };
            assert(r[a] == keys[a0] && r[b] == keys[b0]);
        }
    }
}

/// The index of the first `c` in `s`, or the length of `s` where it holds
/// none.
pub open spec fn index_of(s: Text, c: char) -> int
    decreases s.len(),
{
    if s.len() == 0 {
        0
    } else if s[0] == c {
        0
    } else {
        1 + index_of(s.drop_first(), c)
    }
}

/// The pieces between the commas of `s`; a text without comma is one piece.
pub open spec fn pieces(s: Text) -> Seq<Text>
    decreases s.len(),
{
    let i = index_of(s, ',');
    if 0 <= i < s.len() {
        seq![s.take(i)] + pieces(s.skip(i + 1))
    } else {
        seq![s]
    }
}

/// `index_of` gives the first index of the character, or the length where
/// the text holds none.
pub proof fn lemma_index_of(s: Text, c: char)
    ensures
        0 <= index_of(s, c) <= s.len(),
        index_of(s, c) < s.len() ==> s[index_of(s, c)] == c,
        forall|j: int| 0 <= j < index_of(s, c) ==> #[trigger] s[j] != c,
    decreases s.len(),
{
    if s.len() > 0 && s[0] != c {
        let t = s.drop_first();
        lemma_index_of(t, c);
        assert forall|j: int| 0 <= j < index_of(s, c) implies #[trigger] s[j] != c by {
            if j > 0 {
                assert(s[j] == t[j - 1]);
            }
        }
    }
}

/// The first index of a character in two texts put together lies in the
/// first where that holds the character, and else in the second.
pub proof fn lemma_index_of_concat(a: Text, b: Text, c: char)
    ensures
        index_of(a + b, c) == if index_of(a, c) < a.len() {
            index_of(a, c)
        } else {
            a.len() + index_of(b, c)
        },
    decreases a.len(),
{
    lemma_index_of(a, c);
    if a.len() == 0 {
        assert(a + b =~= b);
    } else {
        assert((a + b)[0] == a[0]);
        if a[0] != c {
            assert((a + b).drop_first() =~= a.drop_first() + b);
            lemma_index_of_concat(a.drop_first(), b, c);
            lemma_index_of(a.drop_first(), c);
        }
    }
}

/// A text without comma is one piece.
pub proof fn lemma_pieces_of_one(s: Text)
    requires
        !s.contains(','),
    ensures
        pieces(s) == seq![s],
{
    lemma_index_of(s, ',');
    if index_of(s, ',') < s.len() {
        assert(s.contains(s[index_of(s, ',')]));
    }
}

/// No piece holds a comma.
pub proof fn lemma_pieces_hold_no_comma(s: Text)
    ensures
        pieces(s).len() >= 1,
        forall|i: int| 0 <= i < pieces(s).len() ==> !(#[trigger] pieces(s)[i]).contains(','),
    decreases s.len(),
{
    let i = index_of(s, ',');
    lemma_index_of(s, ',');
    if 0 <= i < s.len() {
        let rest = s.skip(i + 1);
        lemma_pieces_hold_no_comma(rest);
        let head = s.take(i);
        assert(!head.contains(',')) by {
            if head.contains(',') {
                let j = choose|j: int| 0 <= j < head.len() && head[j] == ',';
                assert(s[j] == ',');
            }
        }
        assert forall|k: int| 0 <= k < pieces(s).len() implies !(#[trigger] pieces(s)[k]).contains(
            ',',
        ) by {
            if k > 0 {
                assert(pieces(s)[k] == pieces(rest)[k - 1]);
            }
        }
    } else {
        assert(!s.contains(',')) by {
            if s.contains(',') {
                let j = choose|j: int| 0 <= j < s.len() && s[j] == ',';
                assert(s[j] != ',');
            }
        }
    }
}

/// The pieces of two texts joined by a comma are the pieces of the first,
/// then those of the second.
pub proof fn lemma_pieces_of_joined(a: Text, b: Text)
    ensures
        pieces(a + seq![','] + b) == pieces(a) + pieces(b),
    decreases a.len(),
{
    let whole = a + seq![','] + b;
    let i = index_of(a, ',');
    lemma_index_of(a, ',');
    lemma_index_of_concat(a, seq![','] + b, ',');
    assert(whole =~= a + (seq![','] + b));
    assert((seq![','] + b)[0] == ',');
    assert(index_of(seq![','] + b, ',') == 0);
    if i < a.len() {
        assert(index_of(whole, ',') == i);
        assert(whole.take(i) =~= a.take(i));
        assert(whole.skip(i + 1) =~= a.skip(i + 1) + seq![','] + b);
        lemma_pieces_of_joined(a.skip(i + 1), b);
        assert(pieces(whole) =~= pieces(a) + pieces(b));
    } else {
        assert(index_of(whole, ',') == a.len());
        assert(whole.take(a.len() as int) =~= a);
        assert(whole.skip(a.len() as int + 1) =~= b);
        assert(pieces(a) == seq![a]);
        assert(pieces(whole) =~= pieces(a) + pieces(b));
    }
}

/// The limits of the pieces between the commas of `v`, in their order.
pub fn piece_bounds(v: &Vec<char>) -> (r: Vec<(usize, usize)>)
    ensures
        r@.len() == pieces(v@).len(),
        forall|i: int|
            0 <= i < r@.len() ==> (#[trigger] r@[i]).0 <= r@[i].1 <= v@.len() && v@.subrange(
                r@[i].0 as int,
                r@[i].1 as int,
            ) == pieces(v@)[i],
{
    let n = v.len();
    let ghost all = pieces(v@);
    let mut bounds: Vec<(usize, usize)> = Vec::new();
    let mut start: usize = 0;
    let mut done = false;
    proof {
        assert(v@.skip(0) =~= v@);
        assert(all.skip(0) =~= all);
    }
    while !done
        invariant
            n == v@.len(),
            all == pieces(v@),
            start <= n,
            bounds@.len() <= all.len(),
            done ==> bounds@.len() == all.len(),
            !done ==> all.skip(bounds@.len() as int) == pieces(v@.skip(start as int)),
            forall|i: int|
                0 <= i < bounds@.len() ==> (#[trigger] bounds@[i]).0 <= bounds@[i].1 <= v@.len()
                    && v@.subrange(bounds@[i].0 as int, bounds@[i].1 as int) == all[i],
        decreases (if done { 0int } else { 1int }), n - start,
    {
        let ghost rest = v@.skip(start as int);
        let ghost seen = bounds@.len() as int;
        let mut end: usize = start;
        while end < n && v[end] != ','
            invariant
                start <= end <= n,
                n == v@.len(),
                rest == v@.skip(start as int),
                index_of(rest, ',') == (end - start) + index_of(v@.skip(end as int), ','),
            decreases n - end,
        {
            proof {
                assert(v@.skip(end as int).drop_first() =~= v@.skip(end as int + 1));
            }
            end = end + 1;
        }
        let ghost piece = v@.subrange(start as int, end as int);
        proof {
            assert(rest.take(end - start) =~= piece);
            if end < n {
                assert(v@.skip(end as int)[0] == ',');
                assert(index_of(rest, ',') == end - start);
                assert(rest.skip(end - start + 1) =~= v@.skip(end as int + 1));
                assert(all.skip(seen)[0] == piece);
                assert(all.skip(seen).skip(1) =~= all.skip(seen + 1));
            } else {
                assert(index_of(v@.skip(end as int), ',') == 0);
                assert(rest =~= piece);
                assert(all.skip(seen)[0] == piece);
                assert(all.skip(seen).len() == 1);
            }
            assert(all[seen] == piece);
        }
        bounds.push((start, end));
        if end < n {
            start = end + 1;
        } else {
            done = true;
        }
    }
    bounds
}

} // verus!
