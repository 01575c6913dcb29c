use stress_visualizer::filter::{
    Comparison, FilterError, FilterSet, ParameterFilter, ParameterFilterSet,
};
use stress_visualizer::parameter::{ParameterSet, ParameterValue};

fn filter(text: &str) -> ParameterFilterSet {
    ParameterFilterSet::try_new(&text.to_string()).expect("a clause that breaks no rule")
}

fn parameters(entries: &[(&str, ParameterValue)]) -> ParameterSet {
    let mut set = ParameterSet::new();
    for (name, value) in entries {
        set.insert(name.to_string(), *value);
    }
    set
}

fn described(f: &ParameterFilter) -> (String, Option<Comparison>, String) {
    match f {
        ParameterFilter::Bool(name, value) => (name.clone(), None, value.to_string()),
        ParameterFilter::Int(name, c, value) => (name.clone(), Some(*c), value.to_string()),
    }
}

fn listed(set: &ParameterFilterSet) -> Vec<(String, Option<Comparison>, String)> {
    (0..set.len()).map(|i| described(set.get(i))).collect()
}

fn count_term(name: &str, c: Comparison, value: u64) -> (String, Option<Comparison>, String) {
    (name.to_string(), Some(c), value.to_string())
}

fn flag_term(name: &str, value: bool) -> (String, Option<Comparison>, String) {
    (name.to_string(), None, value.to_string())
}

#[test]
fn filter_clause_with_two_terms_is_sorted_by_name() {
    let filters = ParameterFilterSet::new(&"progressive==true, readers>0".to_string());
    assert_eq!(filters.len(), 2);
    assert_eq!(filters.get(0).name(), "progressive");
    assert_eq!(filters.get(1).name(), "readers");
    assert!(matches!(filters.get(0), ParameterFilter::Bool(_, true)));
    assert!(matches!(filters.get(1), ParameterFilter::Int(_, Comparison::Greater, 0)));

    let rejected = parameters(&[
        ("progressive", ParameterValue::Bool(false)),
        ("readers", ParameterValue::Int(3)),
    ]);
    assert!(!filters.passes_filters(&rejected));

    let passed = parameters(&[
        ("progressive", ParameterValue::Bool(true)),
        ("readers", ParameterValue::Int(3)),
    ]);
    assert!(filters.passes_filters(&passed));
}

#[test]
fn comparison_symbols() {
    assert_eq!(Comparison::Less.get_text(), "<");
    assert_eq!(Comparison::LessEqual.get_text(), "<=");
    assert_eq!(Comparison::Equal.get_text(), "==");
    assert_eq!(Comparison::GreaterEqual.get_text(), ">=");
    assert_eq!(Comparison::Greater.get_text(), ">");
}

#[test]
fn comparison_holds_by_integer_order() {
    assert!(Comparison::Less.compare(1, 2));
    assert!(!Comparison::Less.compare(2, 2));
    assert!(Comparison::LessEqual.compare(2, 2));
    assert!(!Comparison::LessEqual.compare(3, 2));
    assert!(Comparison::Equal.compare(2, 2));
    assert!(!Comparison::Equal.compare(1, 2));
    assert!(Comparison::GreaterEqual.compare(2, 2));
    assert!(!Comparison::GreaterEqual.compare(1, 2));
    assert!(Comparison::Greater.compare(3, 2));
    assert!(!Comparison::Greater.compare(2, 2));
    assert!(Comparison::Greater.compare(u64::MAX, 0));
}

#[test]
fn predicate_name_is_the_parameter_name() {
    assert_eq!(ParameterFilter::Bool("archive".to_string(), true).name(), "archive");
    assert_eq!(ParameterFilter::Int("readers".to_string(), Comparison::Less, 4).name(), "readers");
}

#[test]
fn each_symbol_is_read_as_its_comparison() {
    assert_eq!(listed(&filter("a==1")), vec![count_term("a", Comparison::Equal, 1)]);
    assert_eq!(listed(&filter("a<=1")), vec![count_term("a", Comparison::LessEqual, 1)]);
    assert_eq!(listed(&filter("a>=1")), vec![count_term("a", Comparison::GreaterEqual, 1)]);
    assert_eq!(listed(&filter("a<1")), vec![count_term("a", Comparison::Less, 1)]);
    assert_eq!(listed(&filter("a>1")), vec![count_term("a", Comparison::Greater, 1)]);
}

#[test]
fn equality_is_searched_for_before_the_inequalities() {
    // `==` is found although `<` stands before it.
    assert_eq!(listed(&filter("a<b==5")), vec![count_term("a<b", Comparison::Equal, 5)]);
    // `<=` is found although `>` stands before it.
    assert_eq!(listed(&filter("a>b<=5")), vec![count_term("a>b", Comparison::LessEqual, 5)]);
    // `>=` comes after `<=` in the search.
    assert_eq!(listed(&filter("a>=b<=5")), vec![count_term("a>=b", Comparison::LessEqual, 5)]);
    // `=<` is no symbol: the term splits at `<`.
    assert_eq!(listed(&filter("a=<5")), vec![count_term("a=", Comparison::Less, 5)]);
    // The first occurrence of the symbol splits the term, and what follows is no count.
    assert_eq!(listed(&filter("a==b==5")), vec![]);
}

#[test]
fn names_and_values_are_trimmed() {
    assert_eq!(listed(&filter("  readers \t>=  12  ")), vec![count_term("readers", Comparison::GreaterEqual, 12)]);
    assert_eq!(listed(&filter("\u{a0}flag\u{2003}== true")), vec![flag_term("flag", true)]);
    assert_eq!(listed(&filter("two words<3")), vec![count_term("two words", Comparison::Less, 3)]);
    assert_eq!(listed(&filter("==3")), vec![count_term("", Comparison::Equal, 3)]);
}

#[test]
fn a_term_that_writes_no_predicate_is_dropped() {
    assert_eq!(listed(&filter("")), vec![]);
    assert_eq!(listed(&filter(",,")), vec![]);
    assert_eq!(listed(&filter("readers")), vec![]);
    assert_eq!(listed(&filter("readers>many")), vec![]);
    assert_eq!(listed(&filter("readers>-1")), vec![]);
    assert_eq!(listed(&filter("readers>1.5")), vec![]);
    assert_eq!(listed(&filter("readers>")), vec![]);
    assert_eq!(listed(&filter("readers=1")), vec![]);
    assert_eq!(listed(&filter("flag==TRUE")), vec![]);
    assert_eq!(
        listed(&filter("readers>many, writers<2, nothing")),
        vec![count_term("writers", Comparison::Less, 2)]
    );
    assert_eq!(listed(&filter("x>18446744073709551616")), vec![]);
    assert_eq!(listed(&filter("x>18446744073709551615")), vec![count_term("x", Comparison::Greater, u64::MAX)]);
    assert_eq!(listed(&filter("x>+7")), vec![count_term("x", Comparison::Greater, 7)]);
}

#[test]
fn predicates_are_ordered_by_name_and_keep_their_order_within_a_name() {
    assert_eq!(
        listed(&filter("writers>1, archive==false, readers<9, readers>2, a==1, readers==5")),
        vec![
            count_term("a", Comparison::Equal, 1),
            flag_term("archive", false),
            count_term("readers", Comparison::Less, 9),
            count_term("readers", Comparison::Greater, 2),
            count_term("readers", Comparison::Equal, 5),
            count_term("writers", Comparison::Greater, 1),
        ]
    );
    assert_eq!(
        listed(&filter("b<1, B<2, ab<3, a<4, <5")),
        vec![
            count_term("", Comparison::Less, 5),
            count_term("B", Comparison::Less, 2),
            count_term("a", Comparison::Less, 4),
            count_term("ab", Comparison::Less, 3),
            count_term("b", Comparison::Less, 1),
        ]
    );
}

#[test]
fn a_flag_with_an_inequality_is_refused() {
    let refused = |text: &str| ParameterFilterSet::try_new(&text.to_string()).err();
    assert_eq!(refused("progressive>true"), Some(FilterError { term: 0 }));
    assert_eq!(refused("readers>1, progressive<=false"), Some(FilterError { term: 1 }));
    assert_eq!(refused("x, a==true, b>=true, c<false"), Some(FilterError { term: 2 }));
    assert_eq!(refused("a<b==true"), None);
    assert_eq!(refused("progressive==true"), None);
    assert_eq!(refused(""), None);
    assert_eq!(refused("a>maybe"), None);
}

#[test]
fn try_new_and_new_read_the_same_filter() {
    for text in ["", "a==1", "readers>0, progressive==true", " x <= 3 ,y>=4,z"] {
        let a = ParameterFilterSet::new(&text.to_string());
        let b = ParameterFilterSet::try_new(&text.to_string()).unwrap();
        assert_eq!(listed(&a), listed(&b));
    }
}

#[test]
fn a_flag_predicate_asks_for_the_same_flag() {
    let f = filter("progressive==true");
    assert!(f.passes_filters(&parameters(&[("progressive", ParameterValue::Bool(true))])));
    assert!(!f.passes_filters(&parameters(&[("progressive", ParameterValue::Bool(false))])));
    let f = filter("progressive==false");
    assert!(!f.passes_filters(&parameters(&[("progressive", ParameterValue::Bool(true))])));
    assert!(f.passes_filters(&parameters(&[("progressive", ParameterValue::Bool(false))])));
}

#[test]
fn a_count_predicate_compares_by_its_comparison() {
    let with = |n: u64| parameters(&[("readers", ParameterValue::Int(n))]);
    assert!(filter("readers<3").passes_filters(&with(2)));
    assert!(!filter("readers<3").passes_filters(&with(3)));
    assert!(filter("readers<=3").passes_filters(&with(3)));
    assert!(!filter("readers<=3").passes_filters(&with(4)));
    assert!(filter("readers==3").passes_filters(&with(3)));
    assert!(!filter("readers==3").passes_filters(&with(2)));
    assert!(filter("readers>=3").passes_filters(&with(3)));
    assert!(!filter("readers>=3").passes_filters(&with(2)));
    assert!(filter("readers>3").passes_filters(&with(4)));
    assert!(!filter("readers>3").passes_filters(&with(3)));
}

#[test]
fn a_missing_parameter_or_one_of_the_other_kind_passes() {
    let empty = ParameterSet::new();
    assert!(filter("readers>3").passes_filters(&empty));
    assert!(filter("progressive==true").passes_filters(&empty));
    let flag_named_readers = parameters(&[("readers", ParameterValue::Bool(false))]);
    assert!(filter("readers>3").passes_filters(&flag_named_readers));
    let count_named_progressive = parameters(&[("progressive", ParameterValue::Int(0))]);
    assert!(filter("progressive==true").passes_filters(&count_named_progressive));
}

#[test]
fn every_predicate_must_hold() {
    let f = filter("readers>=1, readers<4, archive==false");
    let with = |n: u64, archive: bool| {
        parameters(&[
            ("readers", ParameterValue::Int(n)),
            ("archive", ParameterValue::Bool(archive)),
            ("writers", ParameterValue::Int(1)),
        ])
    };
    assert!(f.passes_filters(&with(1, false)));
    assert!(f.passes_filters(&with(3, false)));
    assert!(!f.passes_filters(&with(0, false)));
    assert!(!f.passes_filters(&with(4, false)));
    assert!(!f.passes_filters(&with(2, true)));
}

#[test]
fn the_filter_without_predicates_passes_everything() {
    let f = filter("nothing here, nor==here");
    assert_eq!(f.len(), 0);
    assert!(f.passes_filters(&ParameterSet::new()));
    assert!(f.passes_filters(&parameters(&[("readers", ParameterValue::Int(7))])));
    assert_eq!(f.display_text(), "");
}

#[test]
fn display_text_is_canonical() {
    assert_eq!(filter("").display_text(), "");
    assert_eq!(filter("readers>0").display_text(), "readers>0");
    assert_eq!(
        filter("  readers   >   007 ,progressive  ==  true").display_text(),
        "progressive==true, readers>7"
    );
    assert_eq!(
        filter("w<=1,v>=2,u<3,t>4,s==5,r==false").display_text(),
        "r==false, s==5, t>4, u<3, v>=2, w<=1"
    );
    assert_eq!(filter("x>+7, dropped").display_text(), "x>7");
}

#[test]
fn display_text_reads_back_as_the_same_filter() {
    for text in [
        "",
        "progressive==true, readers>0",
        "  readers   >   007 ,progressive  ==  true",
        "w<=1,v>=2,u<3,t>4,s==5,r==false",
        "a<b==5, a>b<=5, two words>=1",
        "b<1, B<2, ab<3, a<4, <5",
        "readers<9, readers>2, readers==5",
        "a=<5, a=>=6, a=<=7",
    ] {
        let first = filter(text);
        let shown = first.display_text();
        let second = filter(&shown);
        assert_eq!(listed(&second), listed(&first), "{:?} shown as {:?}", text, shown);
        assert_eq!(second.display_text(), shown);
    }
}

#[test]
fn a_name_that_ends_in_the_equals_sign_does_not_read_back_under_equality() {
    let first = filter("a= ==5");
    assert_eq!(listed(&first), vec![count_term("a=", Comparison::Equal, 5)]);
    assert_eq!(first.display_text(), "a===5");
    assert_eq!(listed(&filter("a===5")), vec![]);
}
