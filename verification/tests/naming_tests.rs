use stress_visualizer::label::discriminating_parameters;
use stress_visualizer::naming::{full_name, label, NameSet};
use stress_visualizer::parameter::{ParameterSet, ParameterValue};
use stress_visualizer::series::DataSet;

fn parameters(entries: &[(&str, ParameterValue)]) -> ParameterSet {
    let mut set = ParameterSet::new();
    for (name, value) in entries {
        set.insert(name.to_string(), *value);
    }
    set
}

fn names(list: &[&str]) -> NameSet {
    let mut set = NameSet::new();
    for name in list {
        set.insert(name.to_string());
    }
    set
}

fn marked(set: &NameSet) -> Vec<String> {
    let mut all: Vec<String> = (0..set.len()).map(|i| set.get(i).clone()).collect();
    all.sort();
    all
}

fn on() -> ParameterValue {
    ParameterValue::Bool(true)
}

fn off() -> ParameterValue {
    ParameterValue::Bool(false)
}

#[test]
fn a_series_without_parameters_bears_its_base_name() {
    assert_eq!(full_name("A".to_string(), &ParameterSet::new()), "A");
    assert_eq!(full_name("".to_string(), &ParameterSet::new()), "");
}

#[test]
fn flags_that_are_on_show_as_bare_names_and_counts_with_their_value() {
    let p = parameters(&[("readers", ParameterValue::Int(2)), ("archive", on()), ("writers", ParameterValue::Int(0))]);
    assert_eq!(full_name("A".to_string(), &p), "A (archive readers=2 writers=0)");
    assert_eq!(DataSet::<()>::get_name("A".to_string(), &p), "A (archive readers=2 writers=0)");
}

#[test]
fn flags_that_are_off_leave_nothing() {
    let p = parameters(&[("a", off()), ("b", on())]);
    assert_eq!(full_name("S".to_string(), &p), "S (b)");
    let p = parameters(&[("a", on()), ("b", off())]);
    assert_eq!(full_name("S".to_string(), &p), "S (a)");
    let p = parameters(&[("a", on()), ("b", off()), ("c", on())]);
    assert_eq!(full_name("S".to_string(), &p), "S (a c)");
    let p = parameters(&[("a", off()), ("b", off())]);
    assert_eq!(full_name("S".to_string(), &p), "S");
    let p = parameters(&[("a", off()), ("n", ParameterValue::Int(3)), ("z", off())]);
    assert_eq!(full_name("S".to_string(), &p), "S (n=3)");
}

#[test]
fn a_chosen_flag_that_is_off_leaves_the_label_as_it_is_without_it() {
    let chosen = names(&["a", "b"]);
    let with = parameters(&[("a", ParameterValue::Int(1)), ("b", off())]);
    let without = parameters(&[("a", ParameterValue::Int(1))]);
    assert_eq!(DataSet::<()>::get_name_including("A".to_string(), &with, &chosen), "A (a=1)");
    assert_eq!(label("A".to_string(), &with, &chosen), label("A".to_string(), &without, &chosen));
    assert_eq!(full_name("A".to_string(), &with), full_name("A".to_string(), &without));

    let between = parameters(&[("a", on()), ("m", off()), ("z", ParameterValue::Int(0))]);
    assert_eq!(label("A".to_string(), &between, &names(&["a", "m", "z"])), "A (a z=0)");
    assert_eq!(label("A".to_string(), &between, &names(&["m", "z"])), "A (z=0)");
    assert_eq!(label("A".to_string(), &between, &names(&["m"])), "A");
}

#[test]
fn series_with_the_same_keys_and_different_values_have_different_names() {
    let values = [on(), off(), ParameterValue::Int(0), ParameterValue::Int(1)];
    let mut seen: Vec<String> = Vec::new();
    for a in values.iter() {
        for b in values.iter() {
            for c in values.iter() {
                let p = parameters(&[("a", *a), ("b", *b), ("c", *c)]);
                let name = full_name("S".to_string(), &p);
                assert!(!seen.contains(&name), "{:?} twice", name);
                seen.push(name);
            }
        }
    }
    assert_eq!(seen.len(), 64);
}

#[test]
fn a_label_shows_the_chosen_parameters_only() {
    let p = parameters(&[
        ("archive", on()),
        ("compress", off()),
        ("readers", ParameterValue::Int(2)),
        ("writers", ParameterValue::Int(1)),
    ]);
    assert_eq!(label("A".to_string(), &p, &names(&[])), "A");
    assert_eq!(label("A".to_string(), &p, &names(&["readers"])), "A (readers=2)");
    assert_eq!(label("A".to_string(), &p, &names(&["writers", "archive"])), "A (archive writers=1)");
    assert_eq!(label("A".to_string(), &p, &names(&["compress"])), "A");
    assert_eq!(label("A".to_string(), &p, &names(&["compress", "readers"])), "A (readers=2)");
    assert_eq!(label("A".to_string(), &p, &names(&["archive", "compress", "readers"])), "A (archive readers=2)");
    assert_eq!(label("A".to_string(), &p, &names(&["unknown"])), "A");
    assert_eq!(
        DataSet::<()>::get_name_including("A".to_string(), &p, &names(&["readers"])),
        "A (readers=2)"
    );
}

#[test]
fn a_label_with_every_parameter_chosen_is_the_full_name() {
    let p = parameters(&[("a", on()), ("b", off()), ("n", ParameterValue::Int(12)), ("z", on())]);
    assert_eq!(
        label("base".to_string(), &p, &names(&["a", "b", "n", "z"])),
        full_name("base".to_string(), &p)
    );
}

#[test]
fn series_with_identical_parameters_have_no_discriminating_parameter() {
    let a = parameters(&[("archive", on()), ("readers", ParameterValue::Int(2))]);
    let b = parameters(&[("readers", ParameterValue::Int(2)), ("archive", on())]);
    let c = parameters(&[("archive", on()), ("readers", ParameterValue::Int(2))]);
    let chosen = discriminating_parameters(&vec![&a, &b, &c]);
    assert_eq!(marked(&chosen), Vec::<String>::new());
    assert_eq!(label("A".to_string(), &a, &chosen), "A");
    assert_eq!(label("B".to_string(), &b, &chosen), "B");
    assert_eq!(label("C".to_string(), &c, &chosen), "C");
}

#[test]
fn one_series_with_one_other_flag_makes_that_flag_discriminating() {
    let usual = parameters(&[("archive", on()), ("compress", off()), ("readers", ParameterValue::Int(2))]);
    let same = parameters(&[("archive", on()), ("compress", off()), ("readers", ParameterValue::Int(2))]);
    let odd = parameters(&[("archive", on()), ("compress", on()), ("readers", ParameterValue::Int(2))]);
    for sets in [vec![&usual, &same, &odd], vec![&odd, &usual, &same], vec![&usual, &odd, &same]] {
        let chosen = discriminating_parameters(&sets);
        assert_eq!(marked(&chosen), vec!["compress".to_string()]);
        assert_eq!(label("A".to_string(), &usual, &chosen), "A");
        assert_eq!(label("A".to_string(), &odd, &chosen), "A (compress)");
    }
}

#[test]
fn two_series_that_differ_in_a_count_are_told_apart_by_it() {
    let one = parameters(&[("x", ParameterValue::Int(1))]);
    let two = parameters(&[("x", ParameterValue::Int(2))]);
    let chosen = discriminating_parameters(&vec![&one, &two]);
    assert_eq!(marked(&chosen), vec!["x".to_string()]);
    assert_eq!(label("A".to_string(), &one, &chosen), "A (x=1)");
    assert_eq!(label("A".to_string(), &two, &chosen), "A (x=2)");
}

#[test]
fn a_parameter_that_only_some_series_have_is_discriminating() {
    let with = parameters(&[("readers", ParameterValue::Int(2)), ("extra", off())]);
    let without = parameters(&[("readers", ParameterValue::Int(2))]);
    assert_eq!(marked(&discriminating_parameters(&vec![&with, &without])), vec!["extra".to_string()]);
    assert_eq!(marked(&discriminating_parameters(&vec![&without, &with])), vec!["extra".to_string()]);
}

#[test]
fn a_parameter_of_another_kind_is_discriminating() {
    let as_flag = parameters(&[("mode", on())]);
    let as_count = parameters(&[("mode", ParameterValue::Int(1))]);
    assert_eq!(marked(&discriminating_parameters(&vec![&as_flag, &as_count])), vec!["mode".to_string()]);
}

#[test]
fn the_discriminating_parameters_do_not_depend_on_the_order_of_the_series() {
    let a = parameters(&[("p", on()), ("q", ParameterValue::Int(1)), ("r", off())]);
    let b = parameters(&[("p", on()), ("q", ParameterValue::Int(2)), ("r", off())]);
    let c = parameters(&[("p", on()), ("q", ParameterValue::Int(1)), ("s", off())]);
    let d = parameters(&[("p", on()), ("q", ParameterValue::Int(1)), ("r", off())]);
    let expected = vec!["q".to_string(), "r".to_string(), "s".to_string()];
    let orders: Vec<Vec<&ParameterSet>> = vec![
        vec![&a, &b, &c, &d],
        vec![&d, &c, &b, &a],
        vec![&b, &a, &d, &c],
        vec![&c, &d, &a, &b],
    ];
    for sets in orders {
        assert_eq!(marked(&discriminating_parameters(&sets)), expected);
    }
}

#[test]
fn fewer_than_two_series_have_no_discriminating_parameter() {
    let a = parameters(&[("p", on()), ("q", ParameterValue::Int(1))]);
    assert_eq!(marked(&discriminating_parameters(&vec![])), Vec::<String>::new());
    assert_eq!(marked(&discriminating_parameters(&vec![&a])), Vec::<String>::new());
}
