use coverage_gap::parse::FunctionCoverage;
use coverage_gap::simplicial::{
    build_feature_complex, classify_feature, compute_betti, compute_rank_d2, euclidean_sq,
    extract_features_from_coverage, median_dist_sq, CoverageFeature,
};

/// The squared-distance limit that a Euclidean threshold stands for.
fn limit(threshold: f64) -> Option<u64> {
    let t = threshold * threshold;
    if t.is_nan() {
        None
    } else {
        Some(t.floor() as u64)
    }
}

fn feat(loc: &str, vector: [u8; 6], covered: bool) -> CoverageFeature {
    CoverageFeature { location: loc.to_string(), vector, covered }
}

#[test]
fn test_classify_feature() {
    let f = classify_feature("src/main.rs:10".into(), true, false, true, false, false, true, 1, true);
    assert_eq!(f.vector[0], 1); // branches depth=1
    assert_eq!(f.vector[2], 0); // match depth/2 = 0
    assert_eq!(f.vector[4], 0); // sync
    assert_eq!(f.vector[5], 1); // unsafe
    assert!(f.covered);
}

#[test]
fn test_empty_complex() {
    let features: Vec<CoverageFeature> = vec![];
    let (simplices, betti) = build_feature_complex(&features, limit(1.0));
    assert!(simplices.is_empty());
    assert_eq!(betti.beta_0, 0);
    assert_eq!(betti.beta_1, 0);
}

#[test]
fn test_single_feature_complex() {
    let features = vec![classify_feature(
        "src/lib.rs:5".into(),
        true,
        false,
        false,
        false,
        false,
        false,
        0,
        true,
    )];
    let (simplices, betti) = build_feature_complex(&features, limit(1.0));
    assert_eq!(simplices.len(), 1); // just the vertex
    assert_eq!(betti.beta_0, 1);
    assert_eq!(betti.beta_1, 0);
}

#[test]
fn test_two_close_features() {
    let features = vec![
        classify_feature("a.rs:1".into(), true, false, false, false, false, false, 0, true),
        classify_feature("a.rs:2".into(), true, false, false, false, false, false, 0, true),
    ];
    let (_simplices, betti) = build_feature_complex(&features, limit(2.0));
    assert_eq!(betti.beta_0, 1); // connected
}

#[test]
fn test_two_far_features() {
    let features = vec![
        classify_feature("a.rs:1".into(), true, false, false, false, false, false, 0, true),
        classify_feature("b.rs:1".into(), true, true, true, true, true, true, 2, false),
    ];
    let (_simplices, betti) = build_feature_complex(&features, limit(0.5));
    assert_eq!(betti.beta_0, 2); // disconnected
}

#[test]
fn test_triangle_complex() {
    let features = vec![
        classify_feature("a.rs:1".into(), true, false, false, false, false, false, 0, true),
        classify_feature("a.rs:2".into(), true, false, false, false, false, false, 1, true),
        classify_feature("a.rs:3".into(), true, false, false, false, false, false, 2, true),
    ];
    let (_simplices, betti) = build_feature_complex(&features, limit(3.0));
    assert_eq!(betti.beta_0, 1);
}

#[test]
fn test_feature_extraction() {
    let fns = vec![
        FunctionCoverage {
            name: "main".into(),
            file: "src/main.rs".into(),
            line_start: 1,
            line_end: 10,
            executed: true,
            hit_count: 1,
        },
        FunctionCoverage {
            name: "async_handler".into(),
            file: "src/main.rs".into(),
            line_start: 15,
            line_end: 25,
            executed: true,
            hit_count: 5,
        },
        FunctionCoverage {
            name: "unsafe_ffi".into(),
            file: "src/main.rs".into(),
            line_start: 30,
            line_end: 40,
            executed: false,
            hit_count: 0,
        },
    ];
    let features = extract_features_from_coverage(&fns);
    assert!(features.len() >= 3);
    let gaps: Vec<_> = features.iter().filter(|f| !f.covered).collect();
    assert!(!gaps.is_empty());
}

#[test]
fn test_betti_hole_detection() {
    let features = vec![
        classify_feature("a.rs:1".into(), true, false, false, false, false, false, 0, true),
        classify_feature("a.rs:2".into(), false, true, false, false, false, false, 0, true),
        classify_feature("a.rs:3".into(), false, false, true, false, false, false, 0, true),
        classify_feature("a.rs:4".into(), false, false, false, true, false, false, 0, false),
    ];
    let (_simplices, betti) = build_feature_complex(&features, limit(2.0));
    assert!(betti.beta_0 <= 4);
}

#[test]
fn test_euclidean_sq_exact() {
    assert_eq!(euclidean_sq(&[0, 0, 0, 0, 0, 0], &[2, 1, 0, 2, 1, 1]), 11);
    assert_eq!(euclidean_sq(&[2, 2, 2, 2, 1, 1], &[0, 0, 0, 0, 0, 0]), 18);
    assert_eq!(euclidean_sq(&[255, 0, 0, 0, 0, 0], &[0, 0, 0, 0, 0, 255]), 130050);
}

#[test]
fn test_classify_feature_caps_depth() {
    let f = classify_feature("x.rs:1".into(), true, true, true, true, true, false, 9, false);
    assert_eq!(f.vector, [2, 2, 2, 2, 1, 0]);
    assert_eq!(f.location, "x.rs:1");
    assert!(!f.covered);
}

#[test]
fn test_complex_lists_vertices_edges_triangles_in_order() {
    let features = vec![
        feat("a", [0, 0, 0, 0, 0, 0], true),
        feat("b", [1, 0, 0, 0, 0, 0], true),
        feat("c", [0, 1, 0, 0, 0, 0], true),
        feat("d", [2, 2, 2, 2, 1, 1], true),
    ];
    let (s, betti) = build_feature_complex(&features, Some(2));
    let expected: Vec<Vec<usize>> =
        vec![vec![0], vec![1], vec![2], vec![3], vec![0, 1], vec![0, 2], vec![1, 2], vec![0, 1, 2]];
    assert_eq!(s, expected);
    assert_eq!((betti.beta_0, betti.beta_1, betti.beta_2), (2, 0, 0));
}

#[test]
fn test_no_limit_leaves_features_apart() {
    let features = vec![feat("a", [0; 6], true), feat("b", [0; 6], true), feat("c", [0; 6], false)];
    let (s, betti) = build_feature_complex(&features, None);
    assert_eq!(s.len(), 3);
    assert_eq!(betti.beta_0, 3);
}

#[test]
fn test_close_features_share_component() {
    let features = vec![
        feat("a", [1, 0, 0, 0, 0, 0], true),
        feat("b", [2, 2, 2, 2, 1, 1], true),
        feat("c", [1, 0, 0, 0, 0, 0], false),
    ];
    let (_s, betti) = build_feature_complex(&features, Some(0));
    assert_eq!(betti.beta_0, 2);
}

#[test]
fn test_hollow_triangle_has_a_hole() {
    let simplices = vec![vec![0], vec![1], vec![2], vec![0, 1], vec![1, 2], vec![0, 2]];
    let b = compute_betti(&simplices, 3);
    assert_eq!((b.beta_0, b.beta_1, b.beta_2), (1, 1, 0));
}

#[test]
fn test_square_cycle_has_one_hole() {
    let simplices = vec![vec![0, 1], vec![1, 2], vec![2, 3], vec![0, 3]];
    let b = compute_betti(&simplices, 4);
    assert_eq!((b.beta_0, b.beta_1, b.beta_2), (1, 1, 0));
}

#[test]
fn test_hollow_tetrahedron_has_a_void() {
    let mut simplices: Vec<Vec<usize>> = (0..4).map(|i| vec![i]).collect();
    for (a, b) in [(0, 1), (0, 2), (0, 3), (1, 2), (1, 3), (2, 3)] {
        simplices.push(vec![a, b]);
    }
    for t in [[0, 1, 2], [0, 1, 3], [0, 2, 3], [1, 2, 3]] {
        simplices.push(t.to_vec());
    }
    let b = compute_betti(&simplices, 4);
    assert_eq!((b.beta_0, b.beta_1, b.beta_2), (1, 0, 1));
    let tris: Vec<Vec<usize>> = vec![vec![0, 1, 2], vec![0, 1, 3], vec![0, 2, 3], vec![1, 2, 3]];
    assert_eq!(compute_rank_d2(&tris), 3);
}

#[test]
fn test_rank_of_repeated_triangle() {
    let tris: Vec<Vec<usize>> = vec![vec![0, 1, 2], vec![2, 1, 0], vec![0, 1, 3]];
    assert_eq!(compute_rank_d2(&tris), 2);
}

#[test]
fn test_median_dist_sq() {
    assert_eq!(median_dist_sq(&[feat("a", [0; 6], true)]), None);
    let features = vec![
        feat("a", [0, 0, 0, 0, 0, 0], true),
        feat("b", [1, 0, 0, 0, 0, 0], true),
        feat("c", [2, 2, 0, 0, 0, 0], true),
    ];
    // distances 1, 8, 5 -> sorted 1, 5, 8 -> element 3 / 2 = 1
    assert_eq!(median_dist_sq(&features), Some(5));
}
