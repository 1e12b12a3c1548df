use coverage_gap::report::{build_gap_entries, CoverageGapReport, GapEntry, Priority};
use coverage_gap::simplicial::{classify_feature, BettiNumbers, CoverageFeature};

fn sample_features() -> Vec<CoverageFeature> {
    vec![
        classify_feature("src/main.rs:10".into(), true, false, false, false, false, false, 1, true),
        classify_feature("src/main.rs:20".into(), false, true, false, false, false, false, 1, true),
        classify_feature("src/unsafe.rs:5".into(), true, false, false, false, false, true, 0, false),
        classify_feature("src/async.rs:10".into(), true, false, false, false, true, false, 1, false),
        classify_feature("src/generic.rs:1".into(), false, false, false, true, false, false, 2, false),
    ]
}

fn gap(loc: &str, priority: Priority, betti: usize) -> GapEntry {
    GapEntry {
        location: loc.to_string(),
        feature_type: "branches".to_string(),
        reason: "r".to_string(),
        betti_contribution: betti,
        priority,
    }
}

#[test]
fn test_report_creation() {
    let betti = BettiNumbers { beta_0: 2, beta_1: 1, beta_2: 0 };
    let features = sample_features();
    let gaps = build_gap_entries(&features, &betti);
    let report = CoverageGapReport::new(betti, &features, gaps);

    assert_eq!(report.total_features, 5);
    assert_eq!(report.covered_features, 2);
    assert_eq!(report.uncovered_features, 3);
}

#[test]
fn test_priority_ordering() {
    assert!(Priority::Critical < Priority::High);
    assert!(Priority::High < Priority::Medium);
    assert!(Priority::Medium < Priority::Low);
}

#[test]
fn test_gap_priority() {
    let betti = BettiNumbers { beta_0: 1, beta_1: 1, beta_2: 0 };
    let features = sample_features();
    let gaps = build_gap_entries(&features, &betti);

    let unsafe_gap = gaps.iter().find(|g| g.feature_type == "unsafe").unwrap();
    assert_eq!(unsafe_gap.priority, Priority::Critical);

    let async_gap = gaps.iter().find(|g| g.feature_type == "async").unwrap();
    assert_eq!(async_gap.priority, Priority::High);

    let generic_gap = gaps.iter().find(|g| g.feature_type == "generics").unwrap();
    assert_eq!(generic_gap.priority, Priority::High);
}

#[test]
fn test_one_gap_per_uncovered_feature() {
    let betti = BettiNumbers { beta_0: 1, beta_1: 4, beta_2: 0 };
    let features = sample_features();
    let gaps = build_gap_entries(&features, &betti);
    assert_eq!(gaps.len(), 3);
    let locations: Vec<&str> = gaps.iter().map(|g| g.location.as_str()).collect();
    assert_eq!(locations, vec!["src/unsafe.rs:5", "src/async.rs:10", "src/generic.rs:1"]);
    // unsafe gaps weigh beta_1 when it is above one
    assert_eq!(gaps[0].betti_contribution, 4);
    assert_eq!(gaps[0].reason, "🔴 Unsafe block without test coverage — undefined behavior risk");
    assert_eq!(gaps[1].betti_contribution, 1);
    assert_eq!(gaps[2].feature_type, "generics");
}

#[test]
fn test_gap_kinds() {
    let betti = BettiNumbers { beta_0: 1, beta_1: 0, beta_2: 0 };
    let features = vec![
        CoverageFeature { location: "p".into(), vector: [0; 6], covered: false },
        CoverageFeature { location: "l".into(), vector: [0, 2, 0, 0, 0, 0], covered: false },
        CoverageFeature { location: "m".into(), vector: [0, 0, 1, 0, 0, 0], covered: false },
        CoverageFeature { location: "c".into(), vector: [1, 1, 0, 0, 0, 0], covered: false },
        CoverageFeature { location: "u".into(), vector: [0, 0, 0, 0, 0, 1], covered: false },
    ];
    let gaps = build_gap_entries(&features, &betti);
    let kinds: Vec<&str> = gaps.iter().map(|g| g.feature_type.as_str()).collect();
    assert_eq!(kinds, vec!["plain code", "loops", "match arms", "complex feature", "unsafe"]);
    assert_eq!(gaps[0].priority, Priority::Medium);
    assert_eq!(gaps[0].reason, "Code region not covered by any test");
    assert_eq!(gaps[4].betti_contribution, 1);
}

#[test]
fn test_render_gaps_in_priority_order() {
    let betti = BettiNumbers { beta_0: 1, beta_1: 0, beta_2: 0 };
    let gaps = vec![
        gap("a.rs:1", Priority::Medium, 0),
        gap("b.rs:2", Priority::High, 1),
        gap("c.rs:3", Priority::Critical, 1),
        gap("d.rs:4", Priority::High, 3),
    ];
    let report = CoverageGapReport::new(betti, &[], gaps);
    let out = report.render_gaps(3);
    let expected = "   1. 🔴 Critical | c.rs:3 — branches\n      r\n".to_string()
        + "   2. 🟠 High | d.rs:4 — branches\n      r\n"
        + "   3. 🟠 High | b.rs:2 — branches\n      r\n";
    assert_eq!(out, expected);
}

#[test]
fn test_render_no_gaps() {
    let betti = BettiNumbers { beta_0: 0, beta_1: 0, beta_2: 0 };
    let report = CoverageGapReport::new(betti, &[], vec![]);
    assert_eq!(report.render_gaps(10), "   ✅ No significant coverage gaps detected!\n");
    assert_eq!(report.total_features, 0);
}

#[test]
fn test_render_zero_gaps_requested() {
    let betti = BettiNumbers { beta_0: 0, beta_1: 0, beta_2: 0 };
    let report = CoverageGapReport::new(betti, &[], vec![gap("a.rs:1", Priority::Low, 0)]);
    assert_eq!(report.render_gaps(0), "");
}

#[test]
fn test_priority_labels() {
    assert_eq!(Priority::Critical.label(), "🔴 Critical");
    assert_eq!(Priority::Low.label(), "🟢 Low");
    assert_eq!(Priority::Medium.rank(), 2);
}

#[test]
fn test_betti_describe() {
    let b = BettiNumbers { beta_0: 8, beta_1: 3, beta_2: 0 };
    assert_eq!(
        b.describe(),
        "β₀=8 (connected components of tested features), β₁=3 (untested feature transitions/holes), β₂=0 (voids in feature coverage)"
    );
}
