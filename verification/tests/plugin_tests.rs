use coverage_gap::plugin::{
    build_file_gaps, find_coverage_json, group_file_gaps, has_coverage_data, inline_gap, InlineGap,
    InlineSeverity,
};
use coverage_gap::report::{GapEntry, Priority};

fn entry(location: &str, priority: Priority) -> GapEntry {
    GapEntry {
        location: location.to_string(),
        feature_type: "unsafe".to_string(),
        reason: "why".to_string(),
        betti_contribution: 1,
        priority,
    }
}

#[test]
fn test_has_coverage_data() {
    // an empty workspace
    assert!(!has_coverage_data(|_p: &str| false));
    // after coverage.json was written
    assert!(has_coverage_data(|p: &str| p == "coverage.json"));
}

#[test]
fn test_find_coverage_json() {
    assert!(find_coverage_json(|_p: &str| None).is_none());
    let written = |p: &str| if p == "target/llvm-cov/coverage.json" { Some(100) } else { None };
    assert!(find_coverage_json(written).is_some());
}

#[test]
fn test_find_coverage_json_picks_most_recent() {
    let times = |p: &str| match p {
        "target/llvm-cov/coverage.json" => Some(10),
        "target/coverage/coverage.json" => Some(30),
        "coverage.json" => Some(20),
        _ => None,
    };
    assert_eq!(find_coverage_json(times), Some("target/coverage/coverage.json".to_string()));
    let root_newest = |p: &str| match p {
        "target/llvm-cov/coverage.json" => Some(10),
        "coverage.json" => Some(11),
        _ => None,
    };
    assert_eq!(find_coverage_json(root_newest), Some("coverage.json".to_string()));
    // equal times: the earlier candidate
    let tie = |p: &str| match p {
        "target/coverage/coverage.json" | "coverage.json" => Some(5),
        _ => None,
    };
    assert_eq!(find_coverage_json(tie), Some("target/coverage/coverage.json".to_string()));
}

#[test]
fn test_has_coverage_data_lcov() {
    assert!(has_coverage_data(|p: &str| p == "target/coverage/lcov.info"));
    assert!(!has_coverage_data(|p: &str| p == "target/lcov.info"));
}

#[test]
fn test_inline_gap_location_and_severity() {
    let (file, g) = inline_gap(&entry("src/lib.rs:42", Priority::Critical));
    assert_eq!(file, "src/lib.rs");
    assert_eq!(g.line, 42);
    assert_eq!(g.message, "[Coverage Gap] unsafe — why");
    assert_eq!(g.severity, InlineSeverity::Error);

    let (file, g) = inline_gap(&entry("gap:src/a.rs:x", Priority::High));
    assert_eq!(file, "src/a.rs");
    assert_eq!(g.line, 0);
    assert_eq!(g.severity, InlineSeverity::Warning);

    let (file, g) = inline_gap(&entry("nocolon", Priority::Low));
    assert_eq!(file, "nocolon");
    assert_eq!(g.line, 0);
    assert_eq!(g.severity, InlineSeverity::Hint);

    let (file, g) = inline_gap(&entry("a:b:+7", Priority::Medium));
    assert_eq!(file, "a:b");
    assert_eq!(g.line, 7);
    assert_eq!(g.severity, InlineSeverity::Hint);
}

#[test]
fn test_build_file_gaps_keeps_order() {
    let gaps = vec![entry("x.rs:1", Priority::High), entry("y.rs:2", Priority::Low)];
    let r = build_file_gaps(&gaps);
    assert_eq!(r.len(), 2);
    assert_eq!(r[0].0, "x.rs");
    assert_eq!(r[1].0, "y.rs");
    assert_eq!(r[1].1.line, 2);
}

fn ig(line: usize) -> InlineGap {
    InlineGap { line, message: format!("m{line}"), severity: InlineSeverity::Hint }
}

#[test]
fn test_group_file_gaps_in_order_first_seen() {
    let pairs = vec![
        ("/w/b.rs".to_string(), ig(1)),
        ("/w/a.rs".to_string(), ig(2)),
        ("/w/b.rs".to_string(), ig(3)),
        ("/w/c.rs".to_string(), ig(4)),
        ("/w/a.rs".to_string(), ig(5)),
    ];
    let groups = group_file_gaps(&pairs);
    let shape: Vec<(&str, Vec<usize>)> =
        groups.iter().map(|(f, gs)| (f.as_str(), gs.iter().map(|g| g.line).collect())).collect();
    assert_eq!(shape, vec![("/w/b.rs", vec![1, 3]), ("/w/a.rs", vec![2, 5]), ("/w/c.rs", vec![4])]);
    assert_eq!(groups[0].1[1].message, "m3");
    assert!(group_file_gaps(&[]).is_empty());
}
