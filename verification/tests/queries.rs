use mortality::locations::get_locations;
use mortality::measure::Measurement;
use mortality::query::predict;
use mortality::rank::{predict_top_causes_of_death, top_causes};
use mortality::record::MortalityRecord;
use mortality::segment::{belongs, filter_records};

fn row(location: &str, sex: &str, age: &str, cause: &str, val: f64) -> MortalityRecord {
    MortalityRecord {
        measure_id: 1,
        measure_name: "Deaths".to_string(),
        location_id: 1,
        location_name: location.to_string(),
        sex_id: 1,
        sex_name: sex.to_string(),
        age_id: 8,
        age_name: age.to_string(),
        cause_id: 3,
        cause_name: cause.to_string(),
        metric_id: 1,
        metric_name: "Number".to_string(),
        year: 2019,
        val: Measurement::from_bits(val.to_bits()),
        upper: Measurement::from_bits((val + 1.0).to_bits()),
        lower: Measurement::from_bits((val - 1.0).to_bits()),
    }
}

fn worldland() -> Vec<MortalityRecord> {
    vec![
        row("Worldland", "Male", "15-19 years", "Injury", 50.0),
        row("Worldland", "Male", "15-19 years", "Disease", 80.0),
        row("Worldland", "Female", "15-19 years", "Injury", 10.0),
    ]
}

fn causes(records: &[&MortalityRecord]) -> Vec<String> {
    records.iter().map(|r| r.cause_name.clone()).collect()
}

#[test]
fn worldland_males_of_seventeen() {
    let records = worldland();
    assert_eq!(predict(&records, "Worldland", 17, "Male"), vec!["Disease", "Injury"]);
}

#[test]
fn worldland_females_of_seventeen() {
    let records = worldland();
    assert_eq!(predict(&records, "Worldland", 17, "Female"), vec!["Injury"]);
}

#[test]
fn unknown_location_has_no_causes() {
    let records = worldland();
    assert_eq!(predict(&records, "Atlantis", 17, "Male"), Vec::<String>::new());
    assert_eq!(predict(&Vec::new(), "Worldland", 17, "Male"), Vec::<String>::new());
}

#[test]
fn unknown_sex_or_age_has_no_causes() {
    let records = worldland();
    assert_eq!(predict(&records, "Worldland", 17, "Both"), Vec::<String>::new());
    assert_eq!(predict(&records, "Worldland", 14, "Male"), Vec::<String>::new());
    assert_eq!(predict(&records, "Worldland", 20, "Male"), Vec::<String>::new());
    assert_eq!(predict(&records, "worldland", 17, "Male"), Vec::<String>::new());
    assert_eq!(predict(&records, "Worldland", 17, "male"), Vec::<String>::new());
}

#[test]
fn ages_at_the_ends_of_a_span_match() {
    let records = worldland();
    assert_eq!(predict(&records, "Worldland", 15, "Male"), vec!["Disease", "Injury"]);
    assert_eq!(predict(&records, "Worldland", 19, "Male"), vec!["Disease", "Injury"]);
}

#[test]
fn filter_keeps_matching_records_in_order() {
    let records = vec![
        row("A", "Male", "15-19 years", "c0", 1.0),
        row("B", "Male", "15-19 years", "c1", 2.0),
        row("A", "Female", "15-19 years", "c2", 3.0),
        row("A", "Male", "20-24 years", "c3", 4.0),
        row("A", "Male", "10-19", "c4", 5.0),
        row("A", "Male", "15+ years", "c5", 6.0),
        row("A", "Male", "teens", "c6", 7.0),
        row("A", "Male", "19-15 years", "c7", 8.0),
        row("A", "Male", "17-17 years", "c8", 0.5),
    ];
    let filtered = filter_records(&records, "A", 17, "Male");
    assert_eq!(causes(&filtered), vec!["c0", "c4", "c5", "c8"]);
    for r in &filtered {
        assert!(belongs(r, &"A".to_string(), 17, &"Male".to_string()));
    }
    let kept = causes(&filtered);
    for r in &records {
        let inside = belongs(r, &"A".to_string(), 17, &"Male".to_string());
        assert_eq!(kept.contains(&r.cause_name), inside);
    }
}

#[test]
fn filter_of_nothing_is_nothing() {
    let records: Vec<MortalityRecord> = Vec::new();
    assert!(filter_records(&records, "A", 17, "Male").is_empty());
}

#[test]
fn open_ended_group_reaches_any_age() {
    let records = vec![row("A", "Male", "95+ years", "old age", 1.0)];
    assert_eq!(predict(&records, "A", 94, "Male"), Vec::<String>::new());
    assert_eq!(predict(&records, "A", 95, "Male"), vec!["old age"]);
    assert_eq!(predict(&records, "A", u32::MAX, "Male"), vec!["old age"]);
}

#[test]
fn top_ten_of_twelve() {
    let records: Vec<MortalityRecord> =
        (0..12).map(|i| row("A", "Male", "1-4", &format!("c{}", i), (i * 7 % 12) as f64)).collect();
    let all: Vec<&MortalityRecord> = records.iter().collect();
    let top = predict_top_causes_of_death(all);
    assert_eq!(top, vec!["c5", "c10", "c3", "c8", "c1", "c6", "c11", "c4", "c9", "c2"]);
}

#[test]
fn top_is_bounded_and_descending() {
    let records: Vec<MortalityRecord> = (0..25)
        .map(|i| row("A", "Male", "1-4", &format!("{}", (i * 11 % 25) as f64 - 12.0), (i * 11 % 25) as f64 - 12.0))
        .collect();
    for n in [0usize, 1, 9, 10, 11, 25] {
        let some: Vec<&MortalityRecord> = records.iter().take(n).collect();
        let top = predict_top_causes_of_death(some);
        assert_eq!(top.len(), n.min(10));
        let values: Vec<f64> = top.iter().map(|name| name.parse().unwrap()).collect();
        for pair in values.windows(2) {
            assert!(pair[0] >= pair[1]);
        }
    }
}

#[test]
fn equal_values_keep_their_order() {
    let records = vec![
        row("A", "Male", "1-4", "first", 5.0),
        row("A", "Male", "1-4", "second", 9.0),
        row("A", "Male", "1-4", "third", 5.0),
        row("A", "Male", "1-4", "fourth", 9.0),
        row("A", "Male", "1-4", "fifth", 5.0),
        row("A", "Male", "1-4", "minus zero", -0.0),
        row("A", "Male", "1-4", "zero", 0.0),
    ];
    let all: Vec<&MortalityRecord> = records.iter().collect();
    assert_eq!(
        top_causes(&all, 10),
        vec!["second", "fourth", "first", "third", "fifth", "minus zero", "zero"]
    );
    assert_eq!(top_causes(&all, 3), vec!["second", "fourth", "first"]);
    assert_eq!(top_causes(&all, 0), Vec::<String>::new());
}

#[test]
fn a_cause_may_be_named_twice() {
    let records = vec![
        row("A", "Male", "1-4", "Injury", 5.0),
        row("A", "Male", "1-4", "Disease", 7.0),
        row("A", "Male", "1-4", "Injury", 9.0),
    ];
    assert_eq!(predict(&records, "A", 2, "Male"), vec!["Injury", "Disease", "Injury"]);
}

#[test]
fn not_a_number_comes_last() {
    let records = vec![
        row("A", "Male", "1-4", "unknown", f64::NAN),
        row("A", "Male", "1-4", "low", f64::NEG_INFINITY),
        row("A", "Male", "1-4", "high", 3.0),
        row("A", "Male", "1-4", "unknown too", f64::NAN),
    ];
    assert_eq!(predict(&records, "A", 2, "Male"), vec!["high", "low", "unknown", "unknown too"]);
}

#[test]
fn top_agrees_with_a_stable_sort() {
    let values = [3.5, -1.0, 3.5, 0.0, 12.0, 7.25, 7.25, -0.0, 100.0, 1e-9, 3.5, 2.0, 12.0, -7.0];
    let records: Vec<MortalityRecord> =
        values.iter().enumerate().map(|(i, &v)| row("A", "Male", "1-4", &format!("c{}", i), v)).collect();
    let mut sorted: Vec<&MortalityRecord> = records.iter().collect();
    sorted.sort_by(|a, b| {
        f64::from_bits(b.val.bits).partial_cmp(&f64::from_bits(a.val.bits)).unwrap()
    });
    let all: Vec<&MortalityRecord> = records.iter().collect();
    for limit in 0..=values.len() + 1 {
        let want: Vec<String> = sorted.iter().take(limit).map(|r| r.cause_name.clone()).collect();
        assert_eq!(top_causes(&all, limit), want);
    }
}

#[test]
fn locations_are_listed_once() {
    let records = vec![
        row("Worldland", "Male", "1-4", "c", 1.0),
        row("Northland", "Male", "1-4", "c", 1.0),
        row("Worldland", "Female", "1-4", "c", 1.0),
        row("Southland", "Male", "1-4", "c", 1.0),
        row("Northland", "Female", "1-4", "c", 1.0),
        row("worldland", "Female", "1-4", "c", 1.0),
    ];
    assert_eq!(get_locations(&records), vec!["Worldland", "Northland", "Southland", "worldland"]);
    assert_eq!(get_locations(&Vec::new()), Vec::<String>::new());
    assert_eq!(get_locations(&worldland()), vec!["Worldland"]);
}
