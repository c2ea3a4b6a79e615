use snow_report_mapper::{
    deduped_incidents, get_group_name, map_assignment_groups, map_data, map_records,
    AssignmentGroup, FineTuningEntry, Incident, MapError, Stats,
};

fn incident(title: &str, group: &str) -> Incident {
    Incident { short_description: title.to_string(), assignment_group: group.to_string() }
}

fn group(id: &str, name: &str, created: &str) -> AssignmentGroup {
    AssignmentGroup::from_record(id.to_string(), name.to_string(), created).unwrap()
}

fn entry_pairs(entries: &[FineTuningEntry]) -> Vec<(String, String)> {
    entries.iter().map(|e| (e.prompt.clone(), e.completion.clone())).collect()
}

fn count(stats: &Stats, key: &str) -> usize {
    let d = &stats.distribution;
    d.keys.iter().position(|k| k == key).map(|i| d.counts[i]).unwrap_or(0)
}

#[test]
fn dedup_keeps_last_occurrence() {
    let out = deduped_incidents(vec![
        incident("A", "g1"),
        incident("B", "g1"),
        incident("A", "g2"),
    ]);
    assert_eq!(out.len(), 2);
    let a: Vec<&Incident> = out.iter().filter(|i| i.short_description == "A").collect();
    assert_eq!(a.len(), 1);
    assert_eq!(a[0].assignment_group, "g2");
    let b: Vec<&Incident> = out.iter().filter(|i| i.short_description == "B").collect();
    assert_eq!(b.len(), 1);
    assert_eq!(b[0].assignment_group, "g1");
}

#[test]
fn dedup_of_empty_is_empty() {
    assert!(deduped_incidents(Vec::new()).is_empty());
}

#[test]
fn created_on_is_parsed_to_seconds() {
    assert_eq!(group("g1", "Alpha", "2020-01-01 00:00:00").sys_created_on, 1577836800);
    assert_eq!(group("g2", "Beta", "2021-01-01 00:00:00").sys_created_on, 1609459200);
    assert_eq!(group("g3", "Gamma", "1970-01-01 00:01:05").sys_created_on, 65);
}

#[test]
fn created_on_that_is_no_time_is_refused() {
    assert!(AssignmentGroup::from_record("g".to_string(), "G".to_string(), "yesterday").is_none());
    assert!(AssignmentGroup::from_record("g".to_string(), "G".to_string(), "2020-13-01 00:00:00")
        .is_none());
}

#[test]
fn categories_follow_creation_time() {
    let mut groups = vec![
        group("late", "Late", "2022-05-01 10:00:00"),
        group("early", "Early", "2019-01-01 00:00:00"),
        group("mid", "Mid", "2020-06-15 12:30:00"),
    ];
    let map = map_assignment_groups(&mut groups);
    assert_eq!(map.get(&"early".to_string()), Some(0));
    assert_eq!(map.get(&"mid".to_string()), Some(1));
    assert_eq!(map.get(&"late".to_string()), Some(2));
    assert_eq!(map.get(&"none".to_string()), None);
    let ids: Vec<&str> = groups.iter().map(|g| g.sys_id.as_str()).collect();
    assert_eq!(ids, vec!["early", "mid", "late"]);
}

#[test]
fn categories_are_stable_under_input_order() {
    let mut first = vec![
        group("a", "A", "2020-01-01 00:00:00"),
        group("b", "B", "2021-01-01 00:00:00"),
        group("c", "C", "2019-01-01 00:00:00"),
    ];
    let mut second = vec![
        group("b", "B", "2021-01-01 00:00:00"),
        group("c", "C", "2019-01-01 00:00:00"),
        group("a", "A", "2020-01-01 00:00:00"),
    ];
    let m1 = map_assignment_groups(&mut first);
    let m2 = map_assignment_groups(&mut second);
    for id in ["a", "b", "c"] {
        assert_eq!(m1.get(&id.to_string()), m2.get(&id.to_string()));
    }
    let mut cats: Vec<usize> =
        ["a", "b", "c"].iter().map(|id| m1.get(&id.to_string()).unwrap()).collect();
    cats.sort();
    assert_eq!(cats, vec![0, 1, 2]);
}

#[test]
fn equal_creation_times_keep_input_order() {
    let mut groups = vec![
        group("x", "X", "2020-01-01 00:00:00"),
        group("y", "Y", "2020-01-01 00:00:00"),
        group("w", "W", "2019-01-01 00:00:00"),
    ];
    let map = map_assignment_groups(&mut groups);
    assert_eq!(map.get(&"w".to_string()), Some(0));
    assert_eq!(map.get(&"x".to_string()), Some(1));
    assert_eq!(map.get(&"y".to_string()), Some(2));
}

#[test]
fn duplicate_group_id_takes_later_position() {
    let mut groups = vec![
        group("d", "Second", "2021-01-01 00:00:00"),
        group("d", "First", "2020-01-01 00:00:00"),
    ];
    let map = map_assignment_groups(&mut groups);
    assert_eq!(map.get(&"d".to_string()), Some(1));
    let name = get_group_name(&incident("t", "d"), &groups);
    assert!(matches!(name, Ok(n) if n == "Second"));
}

#[test]
fn group_name_lookup_fails_for_unknown_group() {
    let groups = vec![group("g1", "Alpha", "2020-01-01 00:00:00")];
    assert!(matches!(get_group_name(&incident("t", "g1"), &groups), Ok(n) if n == "Alpha"));
    match get_group_name(&incident("t", "zz"), &groups) {
        Err(MapError::UnknownAssignmentGroup(g)) => assert_eq!(g, "zz"),
        Ok(_) => panic!("expected an error"),
    }
}

#[test]
fn trim_keeps_two_of_three() {
    let mut groups = vec![group("g1", "Alpha", "2020-01-01 00:00:00")];
    let map = map_assignment_groups(&mut groups);
    let incidents = vec![incident("x", "g1"), incident("y", "g1"), incident("z", "g1")];
    let mut stats = Stats::new();
    let out = match map_data(&incidents, &map, &groups, &Some(2), &mut stats) {
        Ok(out) => out,
        Err(_) => panic!("mapping failed"),
    };
    assert_eq!(
        entry_pairs(&out),
        vec![
            ("x\n\n###\n\n".to_string(), " 0".to_string()),
            ("y\n\n###\n\n".to_string(), " 0".to_string()),
        ]
    );
    assert_eq!(count(&stats, "Alpha [0]"), 2);
}

#[test]
fn trim_counts_each_group_separately() {
    let mut groups = vec![
        group("g1", "Alpha", "2020-01-01 00:00:00"),
        group("g2", "Beta", "2021-01-01 00:00:00"),
    ];
    let map = map_assignment_groups(&mut groups);
    let incidents = vec![
        incident("a", "g1"),
        incident("b", "g2"),
        incident("c", "g1"),
        incident("d", "g2"),
    ];
    let mut stats = Stats::new();
    let out = match map_data(&incidents, &map, &groups, &Some(1), &mut stats) {
        Ok(out) => out,
        Err(_) => panic!("mapping failed"),
    };
    assert_eq!(
        entry_pairs(&out),
        vec![
            ("a\n\n###\n\n".to_string(), " 0".to_string()),
            ("b\n\n###\n\n".to_string(), " 1".to_string()),
        ]
    );
    assert_eq!(count(&stats, "Alpha [0]"), 1);
    assert_eq!(count(&stats, "Beta [1]"), 1);
}

#[test]
fn trim_of_zero_drops_everything() {
    let mut groups = vec![group("g1", "Alpha", "2020-01-01 00:00:00")];
    let map = map_assignment_groups(&mut groups);
    let incidents = vec![incident("x", "unknown")];
    let mut stats = Stats::new();
    let out = map_data(&incidents, &map, &groups, &Some(0), &mut stats);
    assert!(matches!(out, Ok(v) if v.is_empty()));
}

#[test]
fn unknown_group_fails_the_mapping() {
    let mut groups = vec![group("g1", "Alpha", "2020-01-01 00:00:00")];
    let map = map_assignment_groups(&mut groups);
    let incidents = vec![incident("x", "g1"), incident("y", "missing"), incident("z", "g1")];
    let mut stats = Stats::new();
    match map_data(&incidents, &map, &groups, &None, &mut stats) {
        Err(e) => {
            assert!(matches!(&e, MapError::UnknownAssignmentGroup(g) if g == "missing"));
            assert_eq!(e.message(), "Unknown assignment group missing");
        }
        Ok(_) => panic!("expected an error"),
    }
}

#[test]
fn group_without_name_fails_the_mapping() {
    let mut groups = vec![group("g1", "Alpha", "2020-01-01 00:00:00")];
    let map = map_assignment_groups(&mut groups);
    let others = vec![group("g2", "Beta", "2020-01-01 00:00:00")];
    let mut stats = Stats::new();
    let out = map_data(&vec![incident("x", "g1")], &map, &others, &None, &mut stats);
    assert!(matches!(out, Err(MapError::UnknownAssignmentGroup(g)) if g == "g1"));
}

#[test]
fn end_to_end_example() {
    let incidents = vec![incident("A", "g1"), incident("A", "g2"), incident("B", "g1")];
    let mut groups = vec![
        group("g1", "Alpha", "2020-01-01 00:00:00"),
        group("g2", "Beta", "2021-01-01 00:00:00"),
    ];
    let mut stats = Stats::new();
    let out = match map_records(incidents, &mut groups, None, &mut stats) {
        Ok(out) => out,
        Err(_) => panic!("mapping failed"),
    };
    let mut pairs = entry_pairs(&out);
    pairs.sort();
    assert_eq!(
        pairs,
        vec![
            ("A\n\n###\n\n".to_string(), " 1".to_string()),
            ("B\n\n###\n\n".to_string(), " 0".to_string()),
        ]
    );
    assert_eq!(count(&stats, "Alpha [0]"), 1);
    assert_eq!(count(&stats, "Beta [1]"), 1);
}

#[test]
fn end_to_end_with_dangling_reference_fails() {
    let incidents = vec![incident("A", "g1"), incident("B", "g9")];
    let mut groups = vec![group("g1", "Alpha", "2020-01-01 00:00:00")];
    let mut stats = Stats::new();
    let out = map_records(incidents, &mut groups, None, &mut stats);
    assert!(matches!(out, Err(MapError::UnknownAssignmentGroup(g)) if g == "g9"));
}

#[test]
fn completion_writes_large_categories() {
    let mut groups: Vec<AssignmentGroup> = (0..12)
        .map(|i| group(&format!("g{}", i), &format!("G{}", i), &format!("2020-01-01 00:00:{:02}", i)))
        .collect();
    let map = map_assignment_groups(&mut groups);
    let mut stats = Stats::new();
    let out = match map_data(&vec![incident("t", "g11")], &map, &groups, &None, &mut stats) {
        Ok(out) => out,
        Err(_) => panic!("mapping failed"),
    };
    assert_eq!(entry_pairs(&out), vec![("t\n\n###\n\n".to_string(), " 11".to_string())]);
    assert_eq!(count(&stats, "G11 [11]"), 1);
}
