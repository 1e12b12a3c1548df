use coverage_gap::agent_assist::{dependency_lists, CapabilityManifest};
use coverage_gap::conservation::{budget_annotations, BudgetPattern};
use coverage_gap::suggest::{context_keywords, keyword_hits, keywords_in};

fn manifest(name: &str, description: &str, caps: &[(&str, &str)]) -> CapabilityManifest {
    CapabilityManifest {
        name: name.to_string(),
        version: "0.1".to_string(),
        description: description.to_string(),
        capabilities: caps.iter().map(|(k, v)| (k.to_string(), v.to_string())).collect(),
        depends: vec![],
        source_path: "/fake/CAPABILITY.toml".to_string(),
    }
}

#[test]
fn test_context_keywords() {
    assert_eq!(context_keywords("I need to serialize my data"), vec!["need", "serialize", "data"]);
    assert_eq!(context_keywords("Parse CSV-files, snake_case ab"), vec!["parse", "csv", "files", "snake_case"]);
    assert!(context_keywords("").is_empty());
}

#[test]
fn test_keywords_count_bytes() {
    // "éé" takes four bytes, so it is long enough; "ab" is not
    assert_eq!(keywords_in("éé ab xyz"), vec!["éé", "xyz"]);
}

#[test]
fn test_keyword_hits() {
    let m = manifest(
        "Serde",
        "Serialization framework",
        &[("serialize", "fn serialize<T>(val: &T)"), ("other", "fn x()"), ("DeSerialize", "y")],
    );
    let kws = context_keywords("I need to serialize my data");
    let hits = keyword_hits(&kws, &m);
    assert_eq!(hits, vec![(false, false, 0), (false, false, 2), (false, false, 0)]);
    let kws = context_keywords("serde SERIAL");
    assert_eq!(keyword_hits(&kws, &m), vec![(true, false, 0), (false, true, 2)]);
}

#[test]
fn test_keyword_hits_no_match() {
    let m = manifest("gpu-renderer", "GPU rendering engine", &[]);
    let kws = context_keywords("I want to parse CSV files");
    let hits = keyword_hits(&kws, &m);
    assert_eq!(hits.len(), kws.len());
    assert!(hits.iter().all(|h| *h == (false, false, 0)));
}

#[test]
fn test_budget_annotations_comment() {
    let code = "\nfn main() {\n    // conservation: γ=0.8, H=0.4, C=1.0\n    println!(\"x\");\n}\n";
    let r = budget_annotations(code);
    assert_eq!(r.len(), 1);
    assert_eq!(r[0].0, 3);
    assert_eq!(r[0].1, vec!["0.8"]);
    assert_eq!(r[0].2, vec!["0.4"]);
    assert_eq!(r[0].3, vec!["onservation:", "1.0"]);
    assert_eq!(r[0].4, BudgetPattern::Comment);
}

#[test]
fn test_budget_annotations_named_keys() {
    let r = budget_annotations("// budget: gamma=0.3 eta=0.5 capacity=1.0");
    assert_eq!(r.len(), 1);
    assert_eq!(r[0].1, vec!["0.3"]);
    assert_eq!(r[0].2, vec!["0.5"]);
    // `capacity` starts with the key `c`, whose value text is then "apacity=1.0"
    assert_eq!(r[0].3, vec!["apacity=1.0"]);
}

#[test]
fn test_budget_annotations_si_capacity() {
    let r = budget_annotations("// SI-CAPACITY: 0.8/0.4/1.0\nfn over() {}");
    assert_eq!(r.len(), 1);
    assert_eq!(r[0].0, 1);
    assert_eq!((r[0].1.clone(), r[0].2.clone(), r[0].3.clone()), (vec!["0.8".to_string()], vec!["0.4".to_string()], vec!["1.0".to_string()]));
    assert_eq!(r[0].4, BudgetPattern::SiCapacity);
    assert!(budget_annotations("// SI-CAPACITY: 1/2").is_empty());
}

#[test]
fn test_budget_annotations_none() {
    assert!(budget_annotations("fn main() { println!(\"no annotations\"); }").is_empty());
    // a marker without all three values
    assert!(budget_annotations("// conservation: gamma=1").is_empty());
}

#[test]
fn test_dependency_lists() {
    let stems = vec!["main".to_string(), "lib".to_string(), "utils".to_string()];
    let imports = vec![
        vec!["utils".to_string(), "lib".to_string(), "main".to_string(), "utils".to_string()],
        vec!["utils".to_string()],
        vec!["nothing".to_string()],
    ];
    assert_eq!(dependency_lists(&stems, &imports), vec![vec![1, 2], vec![2], vec![]]);
}
