use coverage_gap::parse::{
    extract_function_coverage, extract_regions, CoverageData, FileCoverage, Segment, SourceFile,
};

fn seg(line: usize, count: u64, has_count: bool, entry: bool, gap: bool) -> Segment {
    Segment { line, col: 1, count, has_count, is_region_entry: entry, is_gap_region: gap }
}

fn data_of(filename: &str, segments: Vec<Segment>) -> CoverageData {
    CoverageData {
        data: vec![FileCoverage {
            files: vec![SourceFile { filename: filename.to_string(), segments, expansions: vec![] }],
        }],
        version: "2".to_string(),
        type_: "llvm.coverage.json.export".to_string(),
    }
}

#[test]
fn test_region_extraction() {
    let data = data_of(
        "src/lib.rs",
        vec![seg(1, 1, true, true, false), seg(2, 0, true, true, true), seg(3, 0, false, false, false)],
    );
    let regions = extract_regions(&data);
    assert!(!regions.is_empty());
    assert!(regions.iter().any(|r| r.is_covered));
}

#[test]
fn test_regions_one_per_region_entry() {
    let data = data_of(
        "src/lib.rs",
        vec![seg(1, 1, true, true, false), seg(2, 0, true, true, true), seg(3, 0, false, false, false)],
    );
    let regions = extract_regions(&data);
    assert_eq!(regions.len(), 2);
    assert_eq!(regions[0].file, "src/lib.rs");
    assert_eq!((regions[0].line_start, regions[0].line_end, regions[0].count), (1, 1, 1));
    assert!(regions[0].is_covered);
    assert_eq!((regions[1].line_start, regions[1].count), (2, 0));
    assert!(!regions[1].is_covered);
}

#[test]
fn test_empty_data_has_nothing() {
    let data = CoverageData { data: vec![], version: "2".into(), type_: "llvm.coverage.json.export".into() };
    assert!(extract_regions(&data).is_empty());
    assert!(extract_function_coverage(&data).is_empty());
}

#[test]
fn test_function_boundaries() {
    let data = data_of(
        "src/main.rs",
        vec![
            seg(1, 3, true, true, false),
            seg(2, 3, true, false, false),
            seg(5, 0, true, true, false),
            seg(6, 0, true, false, false),
            seg(9, 7, true, true, false),
        ],
    );
    let fns = extract_function_coverage(&data);
    assert_eq!(fns.len(), 2);
    assert_eq!(fns[0].name, "fn_at_line_1");
    assert_eq!(fns[0].file, "src/main.rs");
    assert_eq!((fns[0].line_start, fns[0].line_end), (1, 4));
    assert!(fns[0].executed);
    assert_eq!(fns[0].hit_count, 3);
    assert_eq!(fns[1].name, "fn_at_line_5");
    assert_eq!((fns[1].line_start, fns[1].line_end), (5, 8));
    assert!(!fns[1].executed);
    assert_eq!(fns[1].hit_count, 0);
}

#[test]
fn test_function_segments_grouped_by_line() {
    // Segments arrive out of line order and several share a line; the
    // largest count of a line is the one that counts.
    let data = data_of(
        "a.rs",
        vec![
            seg(10, 0, true, false, false),
            seg(4, 2, true, true, false),
            seg(4, 9, true, false, false),
            seg(7, 1, true, false, false),
        ],
    );
    let fns = extract_function_coverage(&data);
    assert_eq!(fns.len(), 1);
    assert_eq!(fns[0].name, "fn_at_line_4");
    assert_eq!((fns[0].line_start, fns[0].line_end), (4, 9));
    assert_eq!(fns[0].hit_count, 9);
}
