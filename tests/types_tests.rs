use code2md::types::{collect_extensions, default_excludes, find_project_type, get_syntax_for_file, get_syntax_map, project_types, syntax_for_lowered, TypeError};

#[test]
fn test_find_project_type() {
    assert!(find_project_type("python").is_some());
    assert!(find_project_type("Python").is_some());
    assert!(find_project_type("PYTHON").is_some());
    assert!(find_project_type("unknown").is_none());
}

#[test]
fn test_get_syntax_for_file() {
    assert_eq!(get_syntax_for_file("main.py"), "python");
    assert_eq!(get_syntax_for_file("app.tsx"), "tsx");
    assert_eq!(get_syntax_for_file("Dockerfile"), "dockerfile");
    assert_eq!(get_syntax_for_file(".gitignore"), "gitignore");
}

#[test]
fn syntax_special_names_and_suffixes() {
    assert_eq!(get_syntax_for_file("MAKEFILE"), "makefile");
    assert_eq!(get_syntax_for_file(".env.local"), "dotenv");
    assert_eq!(get_syntax_for_file("README.MD"), "markdown");
    assert_eq!(get_syntax_for_file("archive.tar.gz"), "");
    assert_eq!(get_syntax_for_file("LICENSE"), "");
    assert_eq!(get_syntax_for_file(""), "");
    assert_eq!(syntax_for_lowered("main.rs"), "rust");
    assert_eq!(syntax_for_lowered("Main.RS"), "");
}

#[test]
fn registry_contents() {
    let types = project_types();
    assert_eq!(types.len(), 14);
    let py = find_project_type("Python").unwrap();
    assert_eq!(py.name, "python");
    assert_eq!(py.extensions, vec![".py", ".pyi", ".pyw"]);
    assert_eq!(py.default_syntax, "python");
    assert_eq!(get_syntax_map().len(), 59);
    let ex = default_excludes();
    assert!(ex.contains(&"node_modules".to_string()));
    assert_eq!(ex.len(), 39);
}

#[test]
fn extensions_of_several_types() {
    let v = collect_extensions(&vec!["rust".to_string(), "CONFIG".to_string()]).ok().unwrap();
    let mut sorted = v.clone();
    sorted.sort();
    sorted.dedup();
    assert_eq!(sorted.len(), v.len());
    for e in [".rs", ".toml", ".json", ".yaml", ".yml", ".ini", ".cfg", ".conf", ".env"] {
        assert!(v.contains(&e.to_string()), "{}", e);
    }
    assert_eq!(v.len(), 9);
}

#[test]
fn unknown_type_is_an_error() {
    match collect_extensions(&vec!["python".to_string(), "cobol".to_string(), "nope".to_string()]) {
        Err(TypeError::UnknownType(n)) => assert_eq!(n, "cobol"),
        Ok(_) => panic!("expected an error"),
    }
}
