use coverage_gap::ternary::{preferred_model, EditTrit, EditingTracker, StyleClassifier, StyleSpecies};

/// The shares of added, deleted and idle signals of a file.
fn ratios(t: &EditingTracker, file: &str) -> (f64, f64, f64) {
    let (a, d, i) = t.edit_counts(file);
    let n = (a + d + i) as f64;
    if n == 0.0 {
        (0.0, 0.0, 1.0)
    } else {
        (a as f64 / n, d as f64 / n, i as f64 / n)
    }
}

#[test]
fn test_edit_trit_values() {
    assert_eq!(EditTrit::Deleted.value(), -1);
    assert_eq!(EditTrit::Idle.value(), 0);
    assert_eq!(EditTrit::Added.value(), 1);
}

#[test]
fn test_tracker_record() {
    let mut t = EditingTracker::new(100);
    t.record("main.rs", EditTrit::Added);
    t.record("main.rs", EditTrit::Added);
    t.record("main.rs", EditTrit::Idle);
    let (a, d, i) = ratios(&t, "main.rs");
    assert!((a - 0.667).abs() < 0.05);
    assert!(d < 0.01);
    assert!((i - 0.333).abs() < 0.05);
}

#[test]
fn test_tracker_window() {
    let mut t = EditingTracker::new(3);
    t.record("f.rs", EditTrit::Added);
    t.record("f.rs", EditTrit::Added);
    t.record("f.rs", EditTrit::Added);
    t.record("f.rs", EditTrit::Deleted); // pushes out first
    let (a, _, _) = ratios(&t, "f.rs");
    assert!(a < 1.0);
}

#[test]
fn test_classify_builder() {
    let mut t = EditingTracker::new(100);
    for _ in 0..20 {
        t.record("new.rs", EditTrit::Added);
    }
    let c = StyleClassifier::new(t);
    assert_eq!(c.classify("new.rs"), StyleSpecies::Builder);
}

#[test]
fn test_classify_surgeon() {
    let mut t = EditingTracker::new(100);
    for _ in 0..20 {
        t.record("refactor.rs", EditTrit::Deleted);
    }
    let c = StyleClassifier::new(t);
    assert_eq!(c.classify("refactor.rs"), StyleSpecies::Surgeon);
}

#[test]
fn test_classify_reader() {
    let mut t = EditingTracker::new(100);
    for _ in 0..20 {
        t.record("readme.rs", EditTrit::Idle);
    }
    let c = StyleClassifier::new(t);
    assert_eq!(c.classify("readme.rs"), StyleSpecies::Reader);
}

#[test]
fn test_classify_balancer() {
    let mut t = EditingTracker::new(100);
    for _ in 0..10 {
        t.record("iter.rs", EditTrit::Added);
        t.record("iter.rs", EditTrit::Deleted);
    }
    let c = StyleClassifier::new(t);
    assert_eq!(c.classify("iter.rs"), StyleSpecies::Balancer);
}

#[test]
fn test_window_keeps_most_recent() {
    let mut t = EditingTracker::new(2);
    t.record("f.rs", EditTrit::Added);
    t.record("f.rs", EditTrit::Idle);
    t.record("f.rs", EditTrit::Deleted);
    t.record("f.rs", EditTrit::Deleted);
    assert_eq!(t.edit_counts("f.rs"), (0, 2, 0));
}

#[test]
fn test_zero_window_keeps_nothing() {
    let mut t = EditingTracker::new(0);
    t.record("f.rs", EditTrit::Added);
    assert_eq!(t.edit_counts("f.rs"), (0, 0, 0));
    let c = StyleClassifier::new(t);
    assert_eq!(c.classify("f.rs"), StyleSpecies::Reader);
}

#[test]
fn test_record_touches_one_file() {
    let mut t = EditingTracker::new(10);
    t.record("a.rs", EditTrit::Added);
    t.record("b.rs", EditTrit::Deleted);
    t.record("b.rs", EditTrit::Idle);
    assert_eq!(t.edit_counts("a.rs"), (1, 0, 0));
    assert_eq!(t.edit_counts("b.rs"), (0, 1, 1));
    assert_eq!(t.edit_counts("c.rs"), (0, 0, 0));
    assert_eq!(t.trit_totals(), (1, 1, 1));
}

#[test]
fn test_classify_thresholds() {
    // 7 idle out of 10 is not above 70%: 3 added of 10 is neither builder
    // nor balancer (no deletions), so an explorer.
    let mut t = EditingTracker::new(100);
    for _ in 0..7 {
        t.record("x.rs", EditTrit::Idle);
    }
    for _ in 0..3 {
        t.record("x.rs", EditTrit::Added);
    }
    // 8 idle of 10 is above 70%.
    for _ in 0..8 {
        t.record("y.rs", EditTrit::Idle);
    }
    for _ in 0..2 {
        t.record("y.rs", EditTrit::Added);
    }
    let c = StyleClassifier::new(t);
    assert_eq!(c.classify("x.rs"), StyleSpecies::Explorer);
    assert_eq!(c.classify("y.rs"), StyleSpecies::Reader);
    assert_eq!(c.classify("never.rs"), StyleSpecies::Reader);
}

#[test]
fn test_classify_overall() {
    let empty = StyleClassifier::new(EditingTracker::new(10));
    assert_eq!(empty.classify_overall(), StyleSpecies::Reader);

    let mut t = EditingTracker::new(10);
    t.record("a.rs", EditTrit::Deleted);
    t.record("b.rs", EditTrit::Added);
    t.record("c.rs", EditTrit::Added);
    let c = StyleClassifier::new(t);
    assert_eq!(c.classify_overall(), StyleSpecies::Builder);

    // one builder, one surgeon: the tie goes to the builder
    let mut t = EditingTracker::new(10);
    t.record("s.rs", EditTrit::Deleted);
    t.record("b.rs", EditTrit::Added);
    let c = StyleClassifier::new(t);
    assert_eq!(c.classify_overall(), StyleSpecies::Builder);
}

#[test]
fn test_preferred_model() {
    assert_eq!(preferred_model(StyleSpecies::Builder), "creative");
    assert_eq!(preferred_model(StyleSpecies::Surgeon), "precise");
    assert_eq!(preferred_model(StyleSpecies::Balancer), "balanced");
    assert_eq!(preferred_model(StyleSpecies::Reader), "fast");
    assert_eq!(preferred_model(StyleSpecies::Explorer), "creative");
}
