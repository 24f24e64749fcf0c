use code2md::tree::{generate_tree, split_components};

fn strings(v: &[&str]) -> Vec<String> {
    v.iter().map(|s| s.to_string()).collect()
}

#[test]
fn test_generate_tree() {
    let files = strings(&["src/main.py", "src/utils/helpers.py", "config.json"]);
    let tree = generate_tree(&files, "project");
    assert!(!tree.is_empty());
    assert!(tree[0].contains("project"));
}

#[test]
fn tree_of_the_example_project() {
    let files = strings(&["src/main.py", "src/utils/helpers.py"]);
    let tree = generate_tree(&files, "project");
    assert_eq!(
        tree,
        strings(&["project/", "└── src/", "    ├── utils/", "    │   └── helpers.py", "    └── main.py"])
    );
}

#[test]
fn directories_first_then_case_insensitive() {
    let files = strings(&["b.txt", "A/x.txt", "a.txt"]);
    let tree = generate_tree(&files, "r");
    assert_eq!(tree, strings(&["r/", "├── A/", "│   └── x.txt", "├── a.txt", "└── b.txt"]));
}

#[test]
fn empty_and_single_file_trees() {
    assert_eq!(generate_tree(&Vec::new(), "r"), strings(&["r/"]));
    assert_eq!(generate_tree(&strings(&["one.rs"]), "r"), strings(&["r/", "└── one.rs"]));
}

#[test]
fn shared_directories_appear_once() {
    let files = strings(&["d/a.rs", "d/b.rs", "d/e/c.rs"]);
    let tree = generate_tree(&files, "r");
    assert_eq!(tree, strings(&["r/", "└── d/", "    ├── e/", "    │   └── c.rs", "    ├── a.rs", "    └── b.rs"]));
}

#[test]
fn components_skip_empty_pieces() {
    assert_eq!(split_components("a//b/"), strings(&["a", "b"]));
    assert_eq!(split_components(""), Vec::<String>::new());
}
