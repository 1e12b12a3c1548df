use coverage_gap::agent_assist::{
    import_degrees, is_capability_path_exec, parse_capability_toml, parse_kv, parse_string_array,
    scan_workspace_capabilities, should_descend, unquote,
};

const BASIC: &str = r#"
[capability]
name = "test-crate"
version = "0.1.0"
description = "A test crate"

[capability.capabilities]
run = "fn run() -> Result"
compute = "fn compute(x: i32) -> i32"

[capability.depends]
depends = ["other-crate", "serde"]
"#;

#[test]
fn test_parse_basic_capability_toml() {
    let manifest = parse_capability_toml(BASIC, "ws/CAPABILITY.toml").unwrap();
    assert_eq!(manifest.name, "test-crate");
    assert_eq!(manifest.version, "0.1.0");
    assert_eq!(manifest.description, "A test crate");
    assert_eq!(manifest.capabilities.len(), 2);
    assert!(manifest.capabilities.iter().any(|(k, _)| k == "run"));
    assert_eq!(manifest.depends.len(), 2);
    assert!(manifest.depends.contains(&"other-crate".to_string()));
}

#[test]
fn test_parse_capability_minimal() {
    let manifest =
        parse_capability_toml("[capability]\nname = \"minimal\"\nversion = \"0.0.1\"\n", "CAPABILITY.toml")
            .unwrap();
    assert_eq!(manifest.name, "minimal");
    assert!(manifest.capabilities.is_empty());
    assert!(manifest.depends.is_empty());
}

#[test]
fn test_parse_capability_details() {
    let manifest = parse_capability_toml(BASIC, "ws/CAPABILITY.toml").unwrap();
    assert_eq!(
        manifest.capabilities,
        vec![
            ("run".to_string(), "fn run() -> Result".to_string()),
            ("compute".to_string(), "fn compute(x: i32) -> i32".to_string()),
        ]
    );
    assert_eq!(manifest.depends, vec!["other-crate".to_string(), "serde".to_string()]);
    assert_eq!(manifest.source_path, "ws/CAPABILITY.toml");
}

#[test]
fn test_capability_redefined_keeps_one_entry() {
    let text = "[capability.capabilities]\nrun = 'a'\nstop = b\nrun = \"c\"\n";
    let manifest = parse_capability_toml(text, "p").unwrap();
    assert_eq!(
        manifest.capabilities,
        vec![("run".to_string(), "c".to_string()), ("stop".to_string(), "b".to_string())]
    );
}

#[test]
fn test_sections_switch_and_unknown_tables_are_ignored() {
    let text = "name = \"outside\"\n[capability]\nname=x\n[other]\nname = y\n[capability.depends] # deps\ndepends = [\"a\", , 'b', \"\"]\nother = [\"z\"]\r\n";
    let manifest = parse_capability_toml(text, "p").unwrap();
    assert_eq!(manifest.name, "x");
    assert_eq!(manifest.depends, vec!["a".to_string(), "b".to_string()]);
    assert_eq!(manifest.version, "");
}

#[test]
fn test_lone_quote_value_is_refused() {
    assert!(parse_capability_toml("[capability]\nname = \"\n", "p").is_none());
    assert!(parse_capability_toml("[capability.depends]\ndepends = [\"a\", ']\n", "p").is_none());
    // outside the tables the value is never read
    assert!(parse_capability_toml("name = \"\n", "p").is_some());
}

#[test]
fn test_parse_kv() {
    assert_eq!(parse_kv("  a = b = c "), Some(("a".to_string(), "b = c".to_string())));
    assert_eq!(parse_kv("no equals"), None);
    assert_eq!(parse_kv("=v"), Some(("".to_string(), "v".to_string())));
}

#[test]
fn test_unquote() {
    assert_eq!(unquote("  \"x y\" "), "x y");
    assert_eq!(unquote("'z'"), "z");
    assert_eq!(unquote("\"mixed'"), "\"mixed'");
    assert_eq!(unquote("\"\""), "");
    assert_eq!(unquote("plain"), "plain");
}

#[test]
fn test_parse_string_array() {
    assert_eq!(parse_string_array(" [\"a\", 'b' ,c] "), vec!["a", "b", "c"]);
    assert_eq!(parse_string_array("[]"), Vec::<String>::new());
    assert_eq!(parse_string_array("\"a\", \"b\""), Vec::<String>::new());
    assert_eq!(parse_string_array("[\"\", x]"), vec!["x"]);
}

#[test]
fn test_capability_paths() {
    assert!(is_capability_path_exec("CAPABILITY.toml"));
    assert!(is_capability_path_exec("crates/a/CAPABILITY.toml"));
    assert!(!is_capability_path_exec("crates/a/NOT_CAPABILITY.toml"));
    assert!(!is_capability_path_exec("CAPABILITY.toml.bak"));
}

#[test]
fn test_should_descend() {
    assert!(should_descend("src"));
    assert!(!should_descend(".git"));
    assert!(!should_descend("target"));
    assert!(!should_descend("node_modules"));
    assert!(should_descend("targets"));
}

#[test]
fn test_scan_workspace_capabilities() {
    let paths = vec![
        "ws/a/CAPABILITY.toml".to_string(),
        "ws/a/src/lib.rs".to_string(),
        "ws/b/CAPABILITY.toml".to_string(),
        "ws/c/CAPABILITY.toml".to_string(),
        "ws/d/CAPABILITY.toml".to_string(),
    ];
    let read = |p: &str| -> Option<String> {
        match p {
            "ws/a/CAPABILITY.toml" => Some("[capability]\nname = \"a\"\n".to_string()),
            "ws/a/src/lib.rs" => panic!("only manifests are read"),
            "ws/b/CAPABILITY.toml" => None,
            "ws/c/CAPABILITY.toml" => Some("[capability]\nname = '\n".to_string()),
            _ => Some("[capability]\nname = d\n".to_string()),
        }
    };
    let found = scan_workspace_capabilities(&paths, read);
    let names: Vec<&str> = found.iter().map(|m| m.name.as_str()).collect();
    assert_eq!(names, vec!["a", "d"]);
    assert_eq!(found[1].source_path, "ws/d/CAPABILITY.toml");
}

#[test]
fn test_import_degrees_counts() {
    // a.rs imports b; b.rs imports nothing
    let stems = vec!["a".to_string(), "b".to_string()];
    let imports = vec![vec!["b".to_string()], vec![]];
    let (inbound, outbound) = import_degrees(&stems, &imports);
    assert_eq!(inbound, vec![0, 1]);
    assert_eq!(outbound, vec![1, 0]);
}

#[test]
fn test_import_degrees_hub() {
    let stems = vec!["main".to_string(), "lib".to_string(), "utils".to_string()];
    let imports = vec![
        vec!["utils".to_string(), "lib".to_string(), "missing".to_string(), "main".to_string()],
        vec!["utils".to_string(), "utils".to_string()],
        vec![],
    ];
    let (inbound, outbound) = import_degrees(&stems, &imports);
    assert_eq!(inbound, vec![0, 1, 2]);
    assert_eq!(outbound, vec![2, 1, 0]);
}

#[test]
fn test_import_degrees_count_files_not_imports() {
    // a.rs imports b twice: one file depends on b.rs, a.rs depends on one file
    let stems = vec!["a".to_string(), "b".to_string()];
    let imports = vec![vec!["b".to_string(), "b".to_string()], vec![]];
    let (inbound, outbound) = import_degrees(&stems, &imports);
    assert_eq!(inbound, vec![0, 1]);
    assert_eq!(outbound, vec![1, 0]);
}
