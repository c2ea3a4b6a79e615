use snow_report_mapper::text::{center_string, decimal_string, pad_left_string};
use snow_report_mapper::{get_max_values, Stats};

#[test]
fn distribution_counts_by_name_and_category() {
    let mut stats = Stats::new();
    stats.inc_distribution(&"Alpha".to_string(), 0);
    stats.inc_distribution(&"Beta".to_string(), 1);
    stats.inc_distribution(&"Alpha".to_string(), 0);
    stats.inc_distribution(&"Alpha".to_string(), 3);
    assert_eq!(stats.distribution.keys, vec!["Alpha [0]", "Beta [1]", "Alpha [3]"]);
    assert_eq!(stats.distribution.counts, vec![2, 1, 1]);
    assert_eq!(stats.distribution.get(&"Alpha [0]".to_string()), 2);
    assert_eq!(stats.distribution.get(&"Gamma [2]".to_string()), 0);
}

#[test]
fn max_values_of_distribution() {
    let mut stats = Stats::new();
    stats.inc_distribution(&"Alpha".to_string(), 0);
    stats.inc_distribution(&"Be".to_string(), 10);
    stats.inc_distribution(&"Be".to_string(), 10);
    assert_eq!(get_max_values(&stats.distribution), (9, 2));
    assert_eq!(get_max_values(&Stats::new().distribution), (0, 0));
}

#[test]
fn empty_histogram_has_header_only() {
    let stats = Stats::new();
    let lines = stats.render_histogram(None);
    assert_eq!(lines.len(), 3);
    assert_eq!(lines[0], "0 distinct categories are in use");
    assert_eq!(lines[1], "");
    assert_eq!(
        lines[2],
        format!("{:=^80}", " Assignment group distribution ")
    );
}

#[test]
fn histogram_lines_sorted_and_scaled() {
    let mut stats = Stats::new();
    stats.inc_distribution(&"Beta".to_string(), 1);
    stats.inc_distribution(&"Alpha".to_string(), 0);
    stats.inc_distribution(&"Alpha".to_string(), 0);
    let lines = stats.render_histogram(Some(40));
    assert_eq!(lines.len(), 5);
    assert_eq!(lines[0], "2 distinct categories are in use");
    assert_eq!(lines[1], "");
    assert_eq!(lines[2], "==== Assignment group distribution =====");
    assert_eq!(lines[3], format!("Alpha [0]: {}2", " ".repeat(28)));
    assert_eq!(lines[4], format!(" Beta [1]: {}1", " ".repeat(14)));
}

#[test]
fn histogram_ties_keep_insertion_order() {
    let mut stats = Stats::new();
    stats.inc_distribution(&"B".to_string(), 1);
    stats.inc_distribution(&"A".to_string(), 0);
    stats.inc_distribution(&"C".to_string(), 2);
    stats.inc_distribution(&"C".to_string(), 2);
    let lines = stats.render_histogram(Some(20));
    let names: Vec<&str> = lines[3..].iter().map(|l| l.split(':').next().unwrap()).collect();
    assert_eq!(names, vec!["C [2]", "B [1]", "A [0]"]);
}

#[test]
fn histogram_total_matches_distribution() {
    let mut stats = Stats::new();
    for (name, cat, times) in [("A", 0, 3), ("B", 1, 5), ("C", 2, 1), ("D", 3, 5)] {
        for _ in 0..times {
            stats.inc_distribution(&name.to_string(), cat);
        }
    }
    let lines = stats.render_histogram(Some(60));
    assert_eq!(lines.len(), 3 + 4);
    let total: usize = lines[3..]
        .iter()
        .map(|l| l.rsplit(' ').next().unwrap().parse::<usize>().unwrap())
        .sum();
    assert_eq!(total, 14);
    assert_eq!(stats.distribution.counts.iter().sum::<usize>(), 14);
}

#[test]
fn narrow_display_has_no_bars() {
    let mut stats = Stats::new();
    stats.inc_distribution(&"A long group name".to_string(), 0);
    let lines = stats.render_histogram(Some(10));
    assert_eq!(lines[2], " Assignment group distribution ");
    assert_eq!(lines[3], "A long group name [0]: 1");
}

#[test]
fn decimal_padding_and_centring() {
    assert_eq!(decimal_string(0), "0");
    assert_eq!(decimal_string(7), "7");
    assert_eq!(decimal_string(1234567890), "1234567890");
    assert_eq!(decimal_string(usize::MAX), usize::MAX.to_string());
    assert_eq!(pad_left_string("ab", 5), "   ab");
    assert_eq!(pad_left_string("abcdef", 3), "abcdef");
    assert_eq!(pad_left_string("äö", 3), " äö");
    assert_eq!(center_string("ab", 7, "-"), "--ab---");
    assert_eq!(center_string("abc", 2, "-"), "abc");
}

#[test]
fn default_stats_are_empty() {
    let stats = Stats::default();
    assert!(stats.distribution.keys.is_empty());
    assert!(stats.distribution.counts.is_empty());
}
