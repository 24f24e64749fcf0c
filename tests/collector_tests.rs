use code2md::cli::{normalize_extension, Cli, CliError, Commands};
use code2md::collector::{collected_files, sort_paths, CollectorConfig, ConfigError};

fn strings(v: &[&str]) -> Vec<String> {
    v.iter().map(|s| s.to_string()).collect()
}

fn config(exts: &[&str], excludes: &[&str]) -> CollectorConfig {
    match CollectorConfig::new(strings(exts), &strings(excludes)) {
        Ok(c) => c,
        Err(_) => panic!("patterns should compile"),
    }
}

#[test]
fn example_project_selection() {
    let c = config(&[".py"], &[]);
    let found: Vec<String> = ["src/utils/helpers.py", "config.json", "src/main.py"]
        .iter()
        .filter(|p| c.should_include(p))
        .map(|p| p.to_string())
        .collect();
    let collected = collected_files("/root".to_string(), found);
    assert_eq!(collected.relative, strings(&["src/main.py", "src/utils/helpers.py"]));
    assert_eq!(collected.files, strings(&["/root/src/main.py", "/root/src/utils/helpers.py"]));
    assert_eq!(collected.base_path, "/root");
}

#[test]
fn excluded_directory_prunes_everything_below() {
    let c = config(&[".py", ".js"], &["node_modules", "build/gen"]);
    assert!(!c.should_enter_dir("node_modules", "node_modules"));
    assert!(!c.should_enter_dir("a/node_modules", "node_modules"));
    assert!(!c.should_enter_dir("build/gen", "gen"));
    assert!(c.should_enter_dir("src", "src"));
    assert!(!c.should_include("node_modules/x/index.js"));
    assert!(!c.should_include("a/node_modules/b.py"));
    assert!(c.should_include("src/index.js"));
}

#[test]
fn extension_gate() {
    let c = config(&[".py", ".env"], &[]);
    assert!(!c.should_include("Makefile"));
    assert!(!c.should_include(".env"));
    assert!(!c.should_include("notes.txt"));
    assert!(c.should_include("dir/Script.PY"));
    assert!(c.should_include("x.env"));
}

#[test]
fn wildcard_patterns() {
    let c = config(&[".log", ".py"], &["*.log"]);
    assert!(!c.should_include("a/b/debug.log"));
    assert!(c.should_include("a/b/debug.py"));
}

#[test]
fn invalid_pattern_is_reported() {
    match CollectorConfig::new(strings(&[".py"]), &strings(&["ok", "a[", "b["])) {
        Err(ConfigError::InvalidPattern(p)) => assert_eq!(p, "a["),
        _ => panic!("expected an invalid pattern"),
    }
}

#[test]
fn paths_sort_case_insensitively_and_stably() {
    let sorted = sort_paths(strings(&["b.py", "B/a.py", "a.py", "A.py", "c.py"]));
    assert_eq!(sorted, strings(&["A.py", "a.py", "b.py", "B/a.py", "c.py"]));
}

#[test]
fn path_order_ignores_walk_order() {
    let a = sort_paths(strings(&["x/B.rs", "x/b.rs", "a.rs", "X/c.rs"]));
    let b = sort_paths(strings(&["X/c.rs", "a.rs", "x/b.rs", "x/B.rs"]));
    assert_eq!(a, b);
    assert_eq!(a, strings(&["a.rs", "x/B.rs", "x/b.rs", "X/c.rs"]));
}

#[test]
fn star_does_not_cross_a_separator() {
    let c = config(&[".rs"], &["gen/*.rs"]);
    assert!(!c.should_include("gen/a.rs"));
    assert!(c.should_include("gen/sub/b.rs"));
}

#[test]
fn no_patterns_match_nothing() {
    let c = config(&[".rs"], &[]);
    assert!(c.should_include("a/b/c.rs"));
    assert!(c.should_enter_dir("target", "target"));
}

fn cli() -> Cli {
    Cli {
        command: None,
        directory: "proj".to_string(),
        types: None,
        extensions: None,
        excludes: None,
        output: None,
        name: None,
        no_tree: false,
        no_default_excludes: false,
        verbose: false,
    }
}

#[test]
fn validation_errors() {
    let mut c = cli();
    assert!(matches!(c.validate(true, true), Err(CliError::NothingSelected)));
    c.types = Some(strings(&["python"]));
    assert!(matches!(c.validate(false, false), Err(CliError::DirectoryMissing(d)) if d == "proj"));
    assert!(matches!(c.validate(true, false), Err(CliError::NotADirectory(d)) if d == "proj"));
    assert!(c.validate(true, true).is_ok());
    let mut l = cli();
    l.command = Some(Commands::ListTypes);
    assert!(l.validate(false, false).is_ok());
}

#[test]
fn names_and_output_paths() {
    let mut c = cli();
    assert_eq!(c.project_name(Some("proj".to_string())), "proj");
    assert_eq!(c.project_name(None), "project");
    assert_eq!(c.output_path(Some("my proj.v2".to_string())), "proj/my_proj_v2_code.md");
    c.directory = "out/".to_string();
    c.name = Some("Ä-b_c".to_string());
    assert_eq!(c.output_path(None), "out/Ä-b_c_code.md");
    c.output = Some("x.md".to_string());
    assert_eq!(c.output_path(None), "x.md");
}

#[test]
fn extensions_and_excludes_of_a_run() {
    let mut c = cli();
    c.types = Some(strings(&["go"]));
    c.extensions = Some(strings(&["GRAPHQL", ".Env", ".go"]));
    let v = c.extension_set().ok().unwrap();
    assert_eq!(v, strings(&[".go", ".mod", ".sum", ".graphql", ".env"]));
    assert_eq!(normalize_extension("TXT"), ".txt");
    c.no_default_excludes = true;
    c.excludes = Some(strings(&["tests/"]));
    assert_eq!(c.exclude_patterns(), strings(&["tests/"]));
    c.no_default_excludes = false;
    let all = c.exclude_patterns();
    assert_eq!(all.len(), 40);
    assert_eq!(all[39], "tests/");
}
