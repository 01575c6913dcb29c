use stress_visualizer::filter::ParameterFilterSet;
use stress_visualizer::label::discriminating_parameters;
use stress_visualizer::parameter::{ParameterSet, ParameterValue};
use stress_visualizer::registry::{Placement, StressTestData};
use stress_visualizer::series::{DataSet, ValueSet};

/// What a slot accumulates in these tests: the running mean and the extremes
/// of one measurement.
#[derive(Debug, Clone, PartialEq)]
struct Channel {
    count: u64,
    mean: f64,
    min: f64,
    max: f64,
}

impl Channel {
    fn new() -> Channel {
        Channel { count: 0, mean: 0.0, min: 0.0, max: 0.0 }
    }

    fn add(&mut self, x: f64) {
        self.count += 1;
        if self.count == 1 {
            self.mean = x;
            self.min = x;
            self.max = x;
        } else {
            self.mean += (x - self.mean) / self.count as f64;
            self.min = self.min.min(x);
            self.max = self.max.max(x);
        }
    }
}

fn parameters(entries: &[(&str, ParameterValue)]) -> ParameterSet {
    let mut set = ParameterSet::new();
    for (name, value) in entries {
        set.insert(name.to_string(), *value);
    }
    set
}

fn flags(progressive: bool, archive: bool) -> ParameterSet {
    parameters(&[
        ("progressive", ParameterValue::Bool(progressive)),
        ("archive", ParameterValue::Bool(archive)),
    ])
}

type Sample = (&'static str, bool, bool, u64, f64);

fn ingest(rows: &[Sample]) -> StressTestData<Channel> {
    let mut data = StressTestData::new();
    for (base, progressive, archive, commits, value) in rows {
        let at = data.add_sample(base.to_string(), flags(*progressive, *archive), *commits, Channel::new());
        data.samples_mut(at.series, at.value).add(*value);
    }
    data
}

/// The series with their full names, maxima, x-keys and sample counts.
fn shape(data: &StressTestData<Channel>) -> Vec<(String, u64, Vec<(u64, u64)>)> {
    (0..data.len())
        .map(|i| {
            let series = data.dataset(i);
            let slots = (0..series.len())
                .map(|k| (series.value(k).num_commits(), series.value(k).samples().count))
                .collect();
            (series.name().clone(), series.max_commits(), slots)
        })
        .collect()
}

#[test]
fn two_rows_of_one_series_at_one_x_key_share_one_slot() {
    let mut data: StressTestData<(Channel, Channel)> = StressTestData::new();
    let first = data.add_sample("A".to_string(), flags(true, false), 0, (Channel::new(), Channel::new()));
    {
        let slot = data.samples_mut(first.series, first.value);
        slot.0.add(1.0);
        slot.1.add(2.0);
    }
    let second = data.add_sample("A".to_string(), flags(true, false), 0, (Channel::new(), Channel::new()));
    {
        let slot = data.samples_mut(second.series, second.value);
        slot.0.add(3.0);
        slot.1.add(6.0);
    }
    assert_eq!(first, Placement { series: 0, value: 0, new_series: true, new_value: true });
    assert_eq!(second, Placement { series: 0, value: 0, new_series: false, new_value: false });
    assert_eq!(data.len(), 1);
    let series = data.dataset(0);
    assert_eq!(series.len(), 1);
    let slot = series.value(0);
    assert_eq!(slot.num_commits(), 0);
    assert_eq!(slot.samples().0.count, 2);
    assert_eq!(slot.samples().0.mean, 2.0);
    assert_eq!(slot.samples().0.min, 1.0);
    assert_eq!(slot.samples().0.max, 3.0);
    assert_eq!(slot.samples().1.mean, 4.0);
}

#[test]
fn a_new_registry_is_empty() {
    let data: StressTestData<Channel> = StressTestData::new();
    assert_eq!(data.len(), 0);
    assert_eq!(data.max_commits(), 0);
}

#[test]
fn a_new_series_has_its_name_and_no_slots() {
    let series: DataSet<Channel> = DataSet::new("A".to_string(), flags(true, false));
    assert_eq!(series.name(), "A (progressive)");
    assert_eq!(series.base_name(), "A");
    assert_eq!(series.parameters().get("progressive"), Some(ParameterValue::Bool(true)));
    assert_eq!(series.parameters().get("archive"), Some(ParameterValue::Bool(false)));
    assert_eq!(series.len(), 0);
    assert_eq!(series.max_commits(), 0);
}

#[test]
fn the_slots_of_a_series_stand_in_ascending_order_of_their_x_keys() {
    let mut series: DataSet<Channel> = DataSet::new("A".to_string(), ParameterSet::new());
    let keys = [50u64, 10, 40, 10, 0, 30, 50, 20, u64::MAX, 0];
    let mut places = Vec::new();
    for key in keys {
        let (at, made) = series.add_sample(key, Channel::new());
        series.samples_mut(at).add(key as f64);
        assert_eq!(series.value(at).num_commits(), key);
        places.push((at, made));
    }
    assert_eq!(
        places,
        vec![
            (0, true),
            (0, true),
            (1, true),
            (0, false),
            (0, true),
            (2, true),
            (4, false),
            (2, true),
            (6, true),
            (0, false),
        ]
    );
    let walked: Vec<(u64, u64)> =
        (0..series.len()).map(|k| (series.value(k).num_commits(), series.value(k).samples().count)).collect();
    assert_eq!(walked, vec![(0, 2), (10, 2), (20, 1), (30, 1), (40, 1), (50, 2), (u64::MAX, 1)]);
    assert_eq!(series.max_commits(), u64::MAX);
}

#[test]
fn the_maximum_of_a_series_only_grows() {
    let mut series: DataSet<()> = DataSet::new("A".to_string(), ParameterSet::new());
    let mut maxima = Vec::new();
    for key in [3u64, 1, 7, 7, 2, 9, 0] {
        series.add_sample(key, ());
        maxima.push(series.max_commits());
    }
    assert_eq!(maxima, vec![3, 3, 7, 7, 7, 9, 9]);
}

#[test]
fn a_slot_keeps_what_it_was_given() {
    let slot = ValueSet::new(12, "payload");
    assert_eq!(slot.num_commits(), 12);
    assert_eq!(*slot.samples(), "payload");
}

#[test]
fn samples_are_grouped_by_full_name_and_the_series_stand_in_the_order_of_the_names() {
    let data = ingest(&[
        ("B", true, false, 10, 1.0),
        ("A", true, true, 10, 2.0),
        ("B", true, false, 20, 3.0),
        ("A", false, false, 30, 4.0),
        ("A", true, true, 10, 5.0),
        ("B", false, false, 5, 6.0),
        ("A", true, true, 0, 7.0),
    ]);
    assert_eq!(
        shape(&data),
        vec![
            ("A".to_string(), 30, vec![(30, 1)]),
            ("A (archive progressive)".to_string(), 10, vec![(0, 1), (10, 2)]),
            ("B".to_string(), 5, vec![(5, 1)]),
            ("B (progressive)".to_string(), 20, vec![(10, 1), (20, 1)]),
        ]
    );
    assert_eq!(data.max_commits(), 30);
    assert_eq!(data.dataset(1).value(1).samples().mean, 3.5);
    assert_eq!(data.dataset(1).value(1).samples().min, 2.0);
    assert_eq!(data.dataset(1).value(1).samples().max, 5.0);
}

#[test]
fn add_sample_says_where_the_sample_went() {
    let mut data: StressTestData<()> = StressTestData::new();
    let mut add = |base: &str, commits: u64| data.add_sample(base.to_string(), ParameterSet::new(), commits, ());
    assert_eq!(add("M", 5), Placement { series: 0, value: 0, new_series: true, new_value: true });
    assert_eq!(add("Z", 5), Placement { series: 1, value: 0, new_series: true, new_value: true });
    assert_eq!(add("A", 5), Placement { series: 0, value: 0, new_series: true, new_value: true });
    assert_eq!(add("M", 9), Placement { series: 1, value: 1, new_series: false, new_value: true });
    assert_eq!(add("M", 1), Placement { series: 1, value: 0, new_series: false, new_value: true });
    assert_eq!(add("M", 5), Placement { series: 1, value: 1, new_series: false, new_value: false });
    assert_eq!(add("Z", 5), Placement { series: 2, value: 0, new_series: false, new_value: false });
}

#[test]
fn the_maximum_of_the_registry_covers_all_series() {
    let mut data: StressTestData<()> = StressTestData::new();
    let mut maxima = Vec::new();
    for (base, commits) in [("A", 4u64), ("B", 2), ("A", 1), ("C", 8), ("B", 8), ("A", 5)] {
        data.add_sample(base.to_string(), ParameterSet::new(), commits, ());
        maxima.push(data.max_commits());
    }
    assert_eq!(maxima, vec![4, 4, 4, 8, 8, 8]);
    assert_eq!(data.dataset(0).max_commits(), 5);
    assert_eq!(data.dataset(1).max_commits(), 8);
    assert_eq!(data.dataset(2).max_commits(), 8);
}

#[test]
fn the_same_rows_give_the_same_registry() {
    let rows: [Sample; 6] = [
        ("B", true, false, 10, 1.5),
        ("A", true, true, 10, 2.5),
        ("B", true, false, 20, 3.5),
        ("A", false, false, 30, 4.5),
        ("A", true, true, 10, 5.5),
        ("B", true, false, 10, 6.5),
    ];
    let one = ingest(&rows);
    let two = ingest(&rows);
    assert_eq!(shape(&one), shape(&two));
    assert_eq!(one.max_commits(), two.max_commits());
    for i in 0..one.len() {
        for k in 0..one.dataset(i).len() {
            assert_eq!(one.dataset(i).value(k).samples(), two.dataset(i).value(k).samples());
        }
    }
}

#[test]
fn the_order_of_the_rows_does_not_change_the_series() {
    let rows: [Sample; 6] = [
        ("B", true, false, 10, 1.0),
        ("A", true, true, 10, 2.0),
        ("B", true, false, 20, 3.0),
        ("A", false, false, 30, 4.0),
        ("A", true, true, 10, 6.0),
        ("B", true, false, 10, 5.0),
    ];
    let mut reversed = rows;
    reversed.reverse();
    let mut rotated = rows;
    rotated.rotate_left(2);
    let expected = ingest(&rows);
    for other in [ingest(&reversed), ingest(&rotated)] {
        assert_eq!(shape(&other), shape(&expected));
        assert_eq!(other.max_commits(), expected.max_commits());
        for i in 0..expected.len() {
            for k in 0..expected.dataset(i).len() {
                let a = expected.dataset(i).value(k).samples();
                let b = other.dataset(i).value(k).samples();
                assert_eq!(a.min, b.min);
                assert_eq!(a.max, b.max);
                assert!((a.mean - b.mean).abs() < 1e-12);
            }
        }
    }
}

#[test]
fn a_series_passes_a_filter_by_its_parameters() {
    let series: DataSet<()> = DataSet::new("A".to_string(), flags(false, true));
    let progressive = ParameterFilterSet::new(&"progressive==true, readers>0".to_string());
    let archived = ParameterFilterSet::new(&"archive==true".to_string());
    assert!(!series.passes_filters(&progressive));
    assert!(series.passes_filters(&archived));
}

#[test]
fn two_series_of_one_base_name_are_labelled_by_the_count_that_tells_them_apart() {
    let mut data: StressTestData<()> = StressTestData::new();
    data.add_sample("A".to_string(), parameters(&[("x", ParameterValue::Int(1))]), 0, ());
    data.add_sample("A".to_string(), parameters(&[("x", ParameterValue::Int(2))]), 0, ());
    data.add_sample("A".to_string(), parameters(&[("x", ParameterValue::Int(0))]), 0, ());
    let filter = ParameterFilterSet::new(&"x>=1".to_string());

    let passing: Vec<&DataSet<()>> =
        (0..data.len()).map(|i| data.dataset(i)).filter(|d| d.passes_filters(&filter)).collect();
    assert_eq!(passing.len(), 2);
    assert_eq!(passing[0].name(), "A (x=1)");
    assert_eq!(passing[1].name(), "A (x=2)");

    let sets: Vec<&ParameterSet> = passing.iter().map(|d| d.parameters()).collect();
    let chosen = discriminating_parameters(&sets);
    assert_eq!(chosen.len(), 1);
    assert!(chosen.contains(&"x".to_string()));
    let labels: Vec<String> = passing
        .iter()
        .map(|d| DataSet::<()>::get_name_including(d.base_name().clone(), d.parameters(), &chosen))
        .collect();
    assert_eq!(labels, vec!["A (x=1)".to_string(), "A (x=2)".to_string()]);
}

#[test]
fn passing_gives_the_places_of_the_series_that_pass_in_order() {
    let mut data: StressTestData<()> = StressTestData::new();
    for (base, readers) in [("D", 0u64), ("A", 3), ("C", 1), ("B", 0), ("E", 2)] {
        data.add_sample(base.to_string(), parameters(&[("readers", ParameterValue::Int(readers))]), 0, ());
    }
    let filter = |text: &str| ParameterFilterSet::new(&text.to_string());
    assert_eq!(data.passing(&filter("readers>0")), vec![0, 2, 4]);
    assert_eq!(data.passing(&filter("readers==0")), vec![1, 3]);
    assert_eq!(data.passing(&filter("readers>5")), Vec::<usize>::new());
    assert_eq!(data.passing(&filter("")), vec![0, 1, 2, 3, 4]);
    assert_eq!(data.passing(&filter("writers>5")), vec![0, 1, 2, 3, 4]);
}

#[test]
fn only_the_series_that_pass_decide_what_discriminates() {
    let mut data: StressTestData<()> = StressTestData::new();
    let row = |readers: u64, archive: bool, progressive: bool| {
        parameters(&[
            ("readers", ParameterValue::Int(readers)),
            ("archive", ParameterValue::Bool(archive)),
            ("progressive", ParameterValue::Bool(progressive)),
        ])
    };
    data.add_sample("A".to_string(), row(1, false, true), 0, ());
    data.add_sample("A".to_string(), row(2, false, true), 0, ());
    data.add_sample("A".to_string(), row(1, true, false), 0, ());
    data.add_sample("B".to_string(), row(1, false, true), 0, ());
    let filter = |text: &str| ParameterFilterSet::new(&text.to_string());
    let names = |text: &str| {
        let chosen = data.discriminating_parameters(&filter(text));
        let mut all: Vec<String> = (0..chosen.len()).map(|i| chosen.get(i).clone()).collect();
        all.sort();
        all
    };
    assert_eq!(names("progressive==true"), vec!["readers".to_string()]);
    assert_eq!(names("readers==1"), vec!["archive".to_string(), "progressive".to_string()]);
    assert_eq!(
        names(""),
        vec!["archive".to_string(), "progressive".to_string(), "readers".to_string()]
    );
    assert_eq!(names("readers==2"), Vec::<String>::new());
    assert_eq!(names("readers>7"), Vec::<String>::new());
}
