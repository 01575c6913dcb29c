use stress_visualizer::naming::NameSet;
use stress_visualizer::parameter::{ParameterSet, ParameterValue};

fn entries(set: &ParameterSet) -> Vec<(String, ParameterValue)> {
    (0..set.len()).map(|i| (set.name_at(i).clone(), set.value_at(i))).collect()
}

#[test]
fn a_new_parameter_set_is_empty() {
    let set = ParameterSet::new();
    assert_eq!(set.len(), 0);
    assert_eq!(set.get("readers"), None);
}

#[test]
fn parameters_are_walked_in_the_order_of_their_names() {
    let mut set = ParameterSet::new();
    assert_eq!(set.insert("readers".to_string(), ParameterValue::Int(2)), None);
    assert_eq!(set.insert("archive".to_string(), ParameterValue::Bool(true)), None);
    assert_eq!(set.insert("writers".to_string(), ParameterValue::Int(1)), None);
    assert_eq!(set.insert("compress".to_string(), ParameterValue::Bool(false)), None);
    assert_eq!(set.insert("writer-sleep-time".to_string(), ParameterValue::Int(9)), None);
    assert_eq!(
        entries(&set),
        vec![
            ("archive".to_string(), ParameterValue::Bool(true)),
            ("compress".to_string(), ParameterValue::Bool(false)),
            ("readers".to_string(), ParameterValue::Int(2)),
            ("writer-sleep-time".to_string(), ParameterValue::Int(9)),
            ("writers".to_string(), ParameterValue::Int(1)),
        ]
    );
}

#[test]
fn the_order_of_insertion_does_not_matter() {
    let names = ["m", "a", "z", "b", "y", "", "mm", "M"];
    let mut forward = ParameterSet::new();
    for (i, name) in names.iter().enumerate() {
        forward.insert(name.to_string(), ParameterValue::Int(i as u64));
    }
    let mut backward = ParameterSet::new();
    for (i, name) in names.iter().enumerate().rev() {
        backward.insert(name.to_string(), ParameterValue::Int(i as u64));
    }
    assert_eq!(entries(&forward), entries(&backward));
    let walked: Vec<String> = entries(&forward).into_iter().map(|e| e.0).collect();
    let mut sorted: Vec<String> = names.iter().map(|n| n.to_string()).collect();
    sorted.sort();
    assert_eq!(walked, sorted);
}

#[test]
fn inserting_a_name_again_replaces_its_value() {
    let mut set = ParameterSet::new();
    set.insert("readers".to_string(), ParameterValue::Int(2));
    set.insert("archive".to_string(), ParameterValue::Bool(true));
    assert_eq!(set.insert("readers".to_string(), ParameterValue::Int(5)), Some(ParameterValue::Int(2)));
    assert_eq!(set.insert("readers".to_string(), ParameterValue::Bool(false)), Some(ParameterValue::Int(5)));
    assert_eq!(set.len(), 2);
    assert_eq!(set.get("readers"), Some(ParameterValue::Bool(false)));
    assert_eq!(set.get("archive"), Some(ParameterValue::Bool(true)));
}

#[test]
fn get_finds_what_was_inserted_and_nothing_else() {
    let mut set = ParameterSet::new();
    for (i, name) in ["d", "b", "f", "a", "c", "e", "g"].iter().enumerate() {
        set.insert(name.to_string(), ParameterValue::Int(i as u64));
    }
    assert_eq!(set.get("a"), Some(ParameterValue::Int(3)));
    assert_eq!(set.get("d"), Some(ParameterValue::Int(0)));
    assert_eq!(set.get("g"), Some(ParameterValue::Int(6)));
    assert_eq!(set.get(""), None);
    assert_eq!(set.get("aa"), None);
    assert_eq!(set.get("h"), None);
    assert_eq!(set.get("D"), None);
}

#[test]
fn parameter_values_are_equal_by_kind_and_value() {
    assert_eq!(ParameterValue::Bool(true), ParameterValue::Bool(true));
    assert_ne!(ParameterValue::Bool(true), ParameterValue::Bool(false));
    assert_eq!(ParameterValue::Int(1), ParameterValue::Int(1));
    assert_ne!(ParameterValue::Int(1), ParameterValue::Int(2));
    assert_ne!(ParameterValue::Int(1), ParameterValue::Bool(true));
    assert_ne!(ParameterValue::Int(0), ParameterValue::Bool(false));
}

#[test]
fn a_name_set_holds_what_was_put_in() {
    let mut set = NameSet::new();
    assert_eq!(set.len(), 0);
    assert!(!set.contains(&"readers".to_string()));
    set.insert("readers".to_string());
    set.insert("writers".to_string());
    set.insert("readers".to_string());
    assert_eq!(set.len(), 2);
    assert!(set.contains(&"readers".to_string()));
    assert!(set.contains(&"writers".to_string()));
    assert!(!set.contains(&"reader".to_string()));
    assert!(!set.contains(&"".to_string()));
    assert_eq!(set.get(0), "readers");
    assert_eq!(set.get(1), "writers");
}
