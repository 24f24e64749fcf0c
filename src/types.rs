//! The registry of project types and the table of syntax tags.
use vstd::prelude::*;
use crate::text::{is_prefix, lower_of, starts_with, to_lower};

verus! {

/// A named group of file extensions, with the syntax tag it mostly holds.
pub struct ProjectType {
    pub name: String,
    pub description: String,
    pub extensions: Vec<String>,
    pub default_syntax: String,
}

/// A project type as values.
pub ghost struct TypeEntry {
    pub name: Seq<char>,
    pub description: Seq<char>,
    pub extensions: Seq<Seq<char>>,
    pub default_syntax: Seq<char>,
}

pub open spec fn views(v: Seq<String>) -> Seq<Seq<char>> {
    v.map_values(|s: String| s@)
}

impl View for ProjectType {
    type V = TypeEntry;

    open spec fn view(&self) -> TypeEntry {
        TypeEntry {
            name: self.name@,
            description: self.description@,
            extensions: views(self.extensions@),
            default_syntax: self.default_syntax@,
        }
    }
}

fn strings_from(items: &[&str]) -> (r: Vec<String>)
    ensures
        r@.len() == items@.len(),
        forall|i: int| 0 <= i < items@.len() ==> #[trigger] r@[i]@ == items@[i]@,
{
    let mut r: Vec<String> = Vec::new();
    let mut i: usize = 0;
    while i < items.len()
        invariant
            i <= items@.len(),
            r@.len() == i,
            forall|j: int| 0 <= j < i ==> #[trigger] r@[j]@ == items@[j]@,
        decreases items@.len() - i,
    {
        r.push(String::from_str(items[i]));
        i = i + 1;
    }
    r
}

pub open spec fn python_entry() -> TypeEntry {
    TypeEntry {
        name: "python"@,
        description: "Python-Projekte"@,
        extensions: seq![".py"@, ".pyi"@, ".pyw"@],
        default_syntax: "python"@,
    }
}

fn python_type() -> (r: ProjectType)
    ensures
        r@ == python_entry(),
{
    let r = ProjectType {
        name: String::from_str("python"),
        description: String::from_str("Python-Projekte"),
        extensions: strings_from(&[".py", ".pyi", ".pyw"]),
        default_syntax: String::from_str("python"),
    };
    assert(r@.extensions =~= python_entry().extensions);
    r
}

pub open spec fn arduino_entry() -> TypeEntry {
    TypeEntry {
        name: "arduino"@,
        description: "Arduino/C++ Projekte"@,
        extensions: seq![".ino"@, ".cpp"@, ".c"@, ".h"@, ".hpp"@],
        default_syntax: "cpp"@,
    }
}

fn arduino_type() -> (r: ProjectType)
    ensures
        r@ == arduino_entry(),
{
    let r = ProjectType {
        name: String::from_str("arduino"),
        description: String::from_str("Arduino/C++ Projekte"),
        extensions: strings_from(&[".ino", ".cpp", ".c", ".h", ".hpp"]),
        default_syntax: String::from_str("cpp"),
    };
    assert(r@.extensions =~= arduino_entry().extensions);
    r
}

pub open spec fn vue_entry() -> TypeEntry {
    TypeEntry {
        name: "vue"@,
        description: "Vue.js Projekte"@,
        extensions: seq![".vue"@, ".js"@, ".ts"@, ".jsx"@, ".tsx"@, ".json"@, ".css"@, ".scss"@, ".sass"@, ".less"@],
        default_syntax: "vue"@,
    }
}

fn vue_type() -> (r: ProjectType)
    ensures
        r@ == vue_entry(),
{
    let r = ProjectType {
        name: String::from_str("vue"),
        description: String::from_str("Vue.js Projekte"),
        extensions: strings_from(&[".vue", ".js", ".ts", ".jsx", ".tsx", ".json", ".css", ".scss", ".sass", ".less"]),
        default_syntax: String::from_str("vue"),
    };
    assert(r@.extensions =~= vue_entry().extensions);
    r
}

pub open spec fn react_entry() -> TypeEntry {
    TypeEntry {
        name: "react"@,
        description: "React.js Projekte"@,
        extensions: seq![".jsx"@, ".tsx"@, ".js"@, ".ts"@, ".json"@, ".css"@, ".scss"@, ".sass"@, ".less"@],
        default_syntax: "jsx"@,
    }
}

fn react_type() -> (r: ProjectType)
    ensures
        r@ == react_entry(),
{
    let r = ProjectType {
        name: String::from_str("react"),
        description: String::from_str("React.js Projekte"),
        extensions: strings_from(&[".jsx", ".tsx", ".js", ".ts", ".json", ".css", ".scss", ".sass", ".less"]),
        default_syntax: String::from_str("jsx"),
    };
    assert(r@.extensions =~= react_entry().extensions);
    r
}

pub open spec fn web_entry() -> TypeEntry {
    TypeEntry {
        name: "web"@,
        description: "Web-Projekte (HTML/CSS/JS)"@,
        extensions: seq![".html"@, ".htm"@, ".css"@, ".scss"@, ".sass"@, ".less"@, ".js"@, ".ts"@],
        default_syntax: "html"@,
    }
}

fn web_type() -> (r: ProjectType)
    ensures
        r@ == web_entry(),
{
    let r = ProjectType {
        name: String::from_str("web"),
        description: String::from_str("Web-Projekte (HTML/CSS/JS)"),
        extensions: strings_from(&[".html", ".htm", ".css", ".scss", ".sass", ".less", ".js", ".ts"]),
        default_syntax: String::from_str("html"),
    };
    assert(r@.extensions =~= web_entry().extensions);
    r
}

pub open spec fn php_entry() -> TypeEntry {
    TypeEntry {
        name: "php"@,
        description: "PHP-Projekte"@,
        extensions: seq![".php"@, ".phtml"@, ".php3"@, ".php4"@, ".php5"@, ".phps"@],
        default_syntax: "php"@,
    }
}

fn php_type() -> (r: ProjectType)
    ensures
        r@ == php_entry(),
{
    let r = ProjectType {
        name: String::from_str("php"),
        description: String::from_str("PHP-Projekte"),
        extensions: strings_from(&[".php", ".phtml", ".php3", ".php4", ".php5", ".phps"]),
        default_syntax: String::from_str("php"),
    };
    assert(r@.extensions =~= php_entry().extensions);
    r
}

pub open spec fn node_entry() -> TypeEntry {
    TypeEntry {
        name: "node"@,
        description: "Node.js Projekte"@,
        extensions: seq![".js"@, ".ts"@, ".mjs"@, ".cjs"@, ".json"@],
        default_syntax: "javascript"@,
    }
}

fn node_type() -> (r: ProjectType)
    ensures
        r@ == node_entry(),
{
    let r = ProjectType {
        name: String::from_str("node"),
        description: String::from_str("Node.js Projekte"),
        extensions: strings_from(&[".js", ".ts", ".mjs", ".cjs", ".json"]),
        default_syntax: String::from_str("javascript"),
    };
    assert(r@.extensions =~= node_entry().extensions);
    r
}

pub open spec fn flutter_entry() -> TypeEntry {
    TypeEntry {
        name: "flutter"@,
        description: "Flutter/Dart Projekte"@,
        extensions: seq![".dart"@, ".yaml"@, ".json"@],
        default_syntax: "dart"@,
    }
}

fn flutter_type() -> (r: ProjectType)
    ensures
        r@ == flutter_entry(),
{
    let r = ProjectType {
        name: String::from_str("flutter"),
        description: String::from_str("Flutter/Dart Projekte"),
        extensions: strings_from(&[".dart", ".yaml", ".json"]),
        default_syntax: String::from_str("dart"),
    };
    assert(r@.extensions =~= flutter_entry().extensions);
    r
}

pub open spec fn rust_entry() -> TypeEntry {
    TypeEntry {
        name: "rust"@,
        description: "Rust Projekte"@,
        extensions: seq![".rs"@, ".toml"@],
        default_syntax: "rust"@,
    }
}

fn rust_type() -> (r: ProjectType)
    ensures
        r@ == rust_entry(),
{
    let r = ProjectType {
        name: String::from_str("rust"),
        description: String::from_str("Rust Projekte"),
        extensions: strings_from(&[".rs", ".toml"]),
        default_syntax: String::from_str("rust"),
    };
    assert(r@.extensions =~= rust_entry().extensions);
    r
}

pub open spec fn go_entry() -> TypeEntry {
    TypeEntry {
        name: "go"@,
        description: "Go Projekte"@,
        extensions: seq![".go"@, ".mod"@, ".sum"@],
        default_syntax: "go"@,
    }
}

fn go_type() -> (r: ProjectType)
    ensures
        r@ == go_entry(),
{
    let r = ProjectType {
        name: String::from_str("go"),
        description: String::from_str("Go Projekte"),
        extensions: strings_from(&[".go", ".mod", ".sum"]),
        default_syntax: String::from_str("go"),
    };
    assert(r@.extensions =~= go_entry().extensions);
    r
}

pub open spec fn java_entry() -> TypeEntry {
    TypeEntry {
        name: "java"@,
        description: "Java Projekte"@,
        extensions: seq![".java"@, ".xml"@, ".gradle"@, ".properties"@],
        default_syntax: "java"@,
    }
}

fn java_type() -> (r: ProjectType)
    ensures
        r@ == java_entry(),
{
    let r = ProjectType {
        name: String::from_str("java"),
        description: String::from_str("Java Projekte"),
        extensions: strings_from(&[".java", ".xml", ".gradle", ".properties"]),
        default_syntax: String::from_str("java"),
    };
    assert(r@.extensions =~= java_entry().extensions);
    r
}

pub open spec fn csharp_entry() -> TypeEntry {
    TypeEntry {
        name: "csharp"@,
        description: "C# Projekte"@,
        extensions: seq![".cs"@, ".csproj"@, ".sln"@, ".xaml"@],
        default_syntax: "csharp"@,
    }
}

fn csharp_type() -> (r: ProjectType)
    ensures
        r@ == csharp_entry(),
{
    let r = ProjectType {
        name: String::from_str("csharp"),
        description: String::from_str("C# Projekte"),
        extensions: strings_from(&[".cs", ".csproj", ".sln", ".xaml"]),
        default_syntax: String::from_str("csharp"),
    };
    assert(r@.extensions =~= csharp_entry().extensions);
    r
}

pub open spec fn config_entry() -> TypeEntry {
    TypeEntry {
        name: "config"@,
        description: "Konfigurationsdateien"@,
        extensions: seq![".json"@, ".yaml"@, ".yml"@, ".toml"@, ".ini"@, ".cfg"@, ".conf"@, ".env"@],
        default_syntax: "yaml"@,
    }
}

fn config_type() -> (r: ProjectType)
    ensures
        r@ == config_entry(),
{
    let r = ProjectType {
        name: String::from_str("config"),
        description: String::from_str("Konfigurationsdateien"),
        extensions: strings_from(&[".json", ".yaml", ".yml", ".toml", ".ini", ".cfg", ".conf", ".env"]),
        default_syntax: String::from_str("yaml"),
    };
    assert(r@.extensions =~= config_entry().extensions);
    r
}

pub open spec fn docs_entry() -> TypeEntry {
    TypeEntry {
        name: "docs"@,
        description: "Dokumentationsdateien"@,
        extensions: seq![".md"@, ".rst"@, ".txt"@, ".adoc"@],
        default_syntax: "markdown"@,
    }
}

fn docs_type() -> (r: ProjectType)
    ensures
        r@ == docs_entry(),
{
    let r = ProjectType {
        name: String::from_str("docs"),
        description: String::from_str("Dokumentationsdateien"),
        extensions: strings_from(&[".md", ".rst", ".txt", ".adoc"]),
        default_syntax: String::from_str("markdown"),
    };
    assert(r@.extensions =~= docs_entry().extensions);
    r
}

/// Every project type, in the order in which they are listed.
pub open spec fn type_registry() -> Seq<TypeEntry> {
    seq![
        python_entry(),
        arduino_entry(),
        vue_entry(),
        react_entry(),
        web_entry(),
        php_entry(),
        node_entry(),
        flutter_entry(),
        rust_entry(),
        go_entry(),
        java_entry(),
        csharp_entry(),
        config_entry(),
        docs_entry(),
    ]
}

/// The project types, in registry order.
pub fn project_types() -> (r: Vec<ProjectType>)
    ensures
        r@.map_values(|t: ProjectType| t@) == type_registry(),
{
    let mut r: Vec<ProjectType> = Vec::new();
    r.push(python_type());
    r.push(arduino_type());
    r.push(vue_type());
    r.push(react_type());
    r.push(web_type());
    r.push(php_type());
    r.push(node_type());
    r.push(flutter_type());
    r.push(rust_type());
    r.push(go_type());
    r.push(java_type());
    r.push(csharp_type());
    r.push(config_type());
    r.push(docs_type());
    assert(r@.map_values(|t: ProjectType| t@) =~= type_registry());
    r
}

/// The patterns that are excluded unless the caller turns them off.
pub open spec fn default_exclude_list() -> Seq<Seq<char>> {
    seq![
        "node_modules"@,
        "vendor"@,
        "packages"@,
        ".pub-cache"@,
        "__pycache__"@,
        ".pytest_cache"@,
        ".mypy_cache"@,
        ".ruff_cache"@,
        "venv"@,
        ".venv"@,
        "env"@,
        ".env"@,
        "*.egg-info"@,
        "dist"@,
        "build"@,
        "out"@,
        "target"@,
        "bin"@,
        "obj"@,
        ".idea"@,
        ".vscode"@,
        ".vs"@,
        "*.swp"@,
        "*.swo"@,
        ".git"@,
        ".svn"@,
        ".hg"@,
        ".DS_Store"@,
        "Thumbs.db"@,
        "*.log"@,
        "logs"@,
        "tmp"@,
        "temp"@,
        ".tmp"@,
        "coverage"@,
        ".coverage"@,
        "htmlcov"@,
        ".tox"@,
        ".nox"@,
    ]
}

pub fn default_excludes() -> (r: Vec<String>)
    ensures
        views(r@) == default_exclude_list(),
{
    let r = strings_from(&[
        "node_modules",
        "vendor",
        "packages",
        ".pub-cache",
        "__pycache__",
        ".pytest_cache",
        ".mypy_cache",
        ".ruff_cache",
        "venv",
        ".venv",
        "env",
        ".env",
        "*.egg-info",
        "dist",
        "build",
        "out",
        "target",
        "bin",
        "obj",
        ".idea",
        ".vscode",
        ".vs",
        "*.swp",
        "*.swo",
        ".git",
        ".svn",
        ".hg",
        ".DS_Store",
        "Thumbs.db",
        "*.log",
        "logs",
        "tmp",
        "temp",
        ".tmp",
        "coverage",
        ".coverage",
        "htmlcov",
        ".tox",
        ".nox",
    ]);
    assert(views(r@) =~= default_exclude_list());
    r
}

/// Extension (lower case, with its dot) to syntax tag.
pub open spec fn syntax_table() -> Seq<(Seq<char>, Seq<char>)> {
    seq![
        (".py"@, "python"@),
        (".pyi"@, "python"@),
        (".pyw"@, "python"@),
        (".js"@, "javascript"@),
        (".mjs"@, "javascript"@),
        (".cjs"@, "javascript"@),
        (".ts"@, "typescript"@),
        (".jsx"@, "jsx"@),
        (".tsx"@, "tsx"@),
        (".vue"@, "vue"@),
        (".html"@, "html"@),
        (".htm"@, "html"@),
        (".css"@, "css"@),
        (".scss"@, "scss"@),
        (".sass"@, "sass"@),
        (".less"@, "less"@),
        (".json"@, "json"@),
        (".yaml"@, "yaml"@),
        (".yml"@, "yaml"@),
        (".toml"@, "toml"@),
        (".xml"@, "xml"@),
        (".md"@, "markdown"@),
        (".rst"@, "rst"@),
        (".php"@, "php"@),
        (".phtml"@, "php"@),
        (".c"@, "c"@),
        (".h"@, "c"@),
        (".cpp"@, "cpp"@),
        (".hpp"@, "cpp"@),
        (".ino"@, "cpp"@),
        (".rs"@, "rust"@),
        (".go"@, "go"@),
        (".dart"@, "dart"@),
        (".java"@, "java"@),
        (".kt"@, "kotlin"@),
        (".cs"@, "csharp"@),
        (".rb"@, "ruby"@),
        (".sh"@, "bash"@),
        (".bash"@, "bash"@),
        (".zsh"@, "zsh"@),
        (".fish"@, "fish"@),
        (".ps1"@, "powershell"@),
        (".sql"@, "sql"@),
        (".graphql"@, "graphql"@),
        (".dockerfile"@, "dockerfile"@),
        (".ini"@, "ini"@),
        (".cfg"@, "ini"@),
        (".conf"@, "ini"@),
        (".env"@, "dotenv"@),
        (".gitignore"@, "gitignore"@),
        (".gradle"@, "gradle"@),
        (".properties"@, "properties"@),
        (".sum"@, "text"@),
        (".mod"@, "go"@),
        (".csproj"@, "xml"@),
        (".sln"@, "text"@),
        (".xaml"@, "xml"@),
        (".adoc"@, "asciidoc"@),
        (".txt"@, "text"@),
    ]
}

pub open spec fn pair_views(v: Seq<(String, String)>) -> Seq<(Seq<char>, Seq<char>)> {
    v.map_values(|p: (String, String)| (p.0@, p.1@))
}

fn pairs_from(items: &[(&str, &str)]) -> (r: Vec<(String, String)>)
    ensures
        r@.len() == items@.len(),
        forall|i: int|
            0 <= i < items@.len() ==> #[trigger] r@[i].0@ == items@[i].0@ && r@[i].1@ == items@[i].1@,
{
    let mut r: Vec<(String, String)> = Vec::new();
    let mut i: usize = 0;
    while i < items.len()
        invariant
            i <= items@.len(),
            r@.len() == i,
            forall|j: int|
                0 <= j < i ==> #[trigger] r@[j].0@ == items@[j].0@ && r@[j].1@ == items@[j].1@,
        decreases items@.len() - i,
    {
        let (a, b) = items[i];
        r.push((String::from_str(a), String::from_str(b)));
        i = i + 1;
    }
    r
}

/// The extension to syntax-tag table.
pub fn get_syntax_map() -> (r: Vec<(String, String)>)
    ensures
        pair_views(r@) == syntax_table(),
{
    let r = pairs_from(&[
        (".py", "python"),
        (".pyi", "python"),
        (".pyw", "python"),
        (".js", "javascript"),
        (".mjs", "javascript"),
        (".cjs", "javascript"),
        (".ts", "typescript"),
        (".jsx", "jsx"),
        (".tsx", "tsx"),
        (".vue", "vue"),
        (".html", "html"),
        (".htm", "html"),
        (".css", "css"),
        (".scss", "scss"),
        (".sass", "sass"),
        (".less", "less"),
        (".json", "json"),
        (".yaml", "yaml"),
        (".yml", "yaml"),
        (".toml", "toml"),
        (".xml", "xml"),
        (".md", "markdown"),
        (".rst", "rst"),
        (".php", "php"),
        (".phtml", "php"),
        (".c", "c"),
        (".h", "c"),
        (".cpp", "cpp"),
        (".hpp", "cpp"),
        (".ino", "cpp"),
        (".rs", "rust"),
        (".go", "go"),
        (".dart", "dart"),
        (".java", "java"),
        (".kt", "kotlin"),
        (".cs", "csharp"),
        (".rb", "ruby"),
        (".sh", "bash"),
        (".bash", "bash"),
        (".zsh", "zsh"),
        (".fish", "fish"),
        (".ps1", "powershell"),
        (".sql", "sql"),
        (".graphql", "graphql"),
        (".dockerfile", "dockerfile"),
        (".ini", "ini"),
        (".cfg", "ini"),
        (".conf", "ini"),
        (".env", "dotenv"),
        (".gitignore", "gitignore"),
        (".gradle", "gradle"),
        (".properties", "properties"),
        (".sum", "text"),
        (".mod", "go"),
        (".csproj", "xml"),
        (".sln", "text"),
        (".xaml", "xml"),
        (".adoc", "asciidoc"),
        (".txt", "text"),
    ]);
    assert(pair_views(r@) =~= syntax_table());
    r
}

/// Whether some registered project type has this name.
pub open spec fn known_type(name: Seq<char>) -> bool {
    exists|i: int| 0 <= i < type_registry().len() && (#[trigger] type_registry()[i]).name == name
}

/// No two registered project types share a name.
pub proof fn lemma_type_names_unique()
    ensures
        forall|i: int, j: int|
            0 <= i < type_registry().len() && 0 <= j < type_registry().len() && i != j
                ==> (#[trigger] type_registry()[i]).name != (#[trigger] type_registry()[j]).name,
{
    reveal_strlit("python");
    reveal_strlit("arduino");
    reveal_strlit("vue");
    reveal_strlit("react");
    reveal_strlit("web");
    reveal_strlit("php");
    reveal_strlit("node");
    reveal_strlit("flutter");
    reveal_strlit("rust");
    reveal_strlit("go");
    reveal_strlit("java");
    reveal_strlit("csharp");
    reveal_strlit("config");
    reveal_strlit("docs");
    assert forall|i: int, j: int|
        0 <= i < type_registry().len() && 0 <= j < type_registry().len() && i != j
            implies (#[trigger] type_registry()[i]).name != (#[trigger] type_registry()[j]).name by {
        let a = type_registry()[i].name;
        let b = type_registry()[j].name;
        if a == b {
            assert(a.len() == b.len());
            assert(a[0] == b[0]);
            if a.len() > 1 {
                assert(a[1] == b[1]);
            }
        }
    }
}

/// Looks up a project type by a name that is already lower case.
pub fn project_type_by_lower_name(lower: &String) -> (r: Option<ProjectType>)
    ensures
        match r {
            Some(t) => exists|i: int|
                0 <= i < type_registry().len() && type_registry()[i] == t@ && t@.name == lower@,
            None => !known_type(lower@),
        },
{
    let mut types = project_types();
    let ghost reg = type_registry();
    assert(forall|i: int| 0 <= i < types@.len() ==> #[trigger] types@[i]@ == reg[i]) by {
        assert forall|i: int| 0 <= i < types@.len() implies #[trigger] types@[i]@ == reg[i] by {
            assert(types@.map_values(|t: ProjectType| t@)[i] == types@[i]@);
        }
    }
    let n = types.len();
    let mut i: usize = 0;
    while i < n
        invariant
            n == types@.len(),
            n == reg.len(),
            reg == type_registry(),
            i <= n,
            forall|j: int| 0 <= j < n ==> #[trigger] types@[j]@ == reg[j],
            forall|j: int| 0 <= j < i ==> (#[trigger] reg[j]).name != lower@,
        decreases n - i,
    {
        if types[i].name == *lower {
            let t = types.remove(i);
            return Some(t);
        }
        assert(types@[i as int]@ == reg[i as int]);
        assert(reg[i as int].name != lower@);
        i = i + 1;
    }
    None
}

/// Looks up a project type by name, ignoring case.
pub fn find_project_type(name: &str) -> (r: Option<ProjectType>)
    ensures
        match r {
            Some(t) => exists|i: int|
                0 <= i < type_registry().len() && type_registry()[i] == t@ && t@.name == lower_of(
                    name@,
                ),
            None => !known_type(lower_of(name@)),
        },
{
    let lower = to_lower(name);
    project_type_by_lower_name(&lower)
}

/// Why a list of project-type names cannot be turned into extensions.
pub enum TypeError {
    /// The name (as given) of a type that the registry does not hold.
    UnknownType(String),
}

/// Whether `e` is an extension of the type called `name`.
pub open spec fn type_has_ext(name: Seq<char>, e: Seq<char>) -> bool {
    exists|i: int|
        0 <= i < type_registry().len() && (#[trigger] type_registry()[i]).name == name
            && type_registry()[i].extensions.contains(e)
}

/// Whether `e` is an extension of one of the named types.
pub open spec fn in_union(names: Seq<Seq<char>>, e: Seq<char>) -> bool {
    exists|j: int| 0 <= j < names.len() && type_has_ext(lower_of(#[trigger] names[j]), e)
}

pub open spec fn no_duplicates(s: Seq<Seq<char>>) -> bool {
    forall|i: int, j: int| 0 <= i < j < s.len() ==> s[i] != s[j]
}

pub(crate) fn contains_string(v: &Vec<String>, x: &String) -> (r: bool)
    ensures
        r == views(v@).contains(x@),
{
    let mut i: usize = 0;
    while i < v.len()
        invariant
            i <= v@.len(),
            forall|j: int| 0 <= j < i ==> (#[trigger] v@[j])@ != x@,
        decreases v@.len() - i,
    {
        if v[i] == *x {
            assert(views(v@)[i as int] == x@);
            return true;
        }
        i = i + 1;
    }
    assert forall|j: int| 0 <= j < views(v@).len() implies views(v@)[j] != x@ by {
        assert(views(v@)[j] == v@[j]@);
    }
    false
}

/// Gathers, without repetition, the extensions of every named project type.
/// Fails on the first name that no type has.
pub fn collect_extensions(type_names: &Vec<String>) -> (r: Result<Vec<String>, TypeError>)
    ensures
        match r {
            Ok(v) => {
                &&& forall|j: int| 0 <= j < type_names@.len() ==> known_type(lower_of(#[trigger] type_names@[j]@))
                &&& no_duplicates(views(v@))
                &&& forall|e: Seq<char>| views(v@).contains(e) <==> in_union(views(type_names@), e)
            },
            Err(TypeError::UnknownType(n)) => exists|j: int|
                0 <= j < type_names@.len() && type_names@[j] == n && !known_type(lower_of(n@))
                    && forall|k: int| 0 <= k < j ==> known_type(lower_of(#[trigger] type_names@[k]@)),
        },
{
    broadcast use vstd::seq_lib::lemma_seq_contains_after_push;

    let mut out: Vec<String> = Vec::new();
    let ghost names = views(type_names@);
    let mut i: usize = 0;
    while i < type_names.len()
        invariant
            i <= type_names@.len(),
            names == views(type_names@),
            forall|k: int| 0 <= k < i ==> known_type(lower_of(#[trigger] type_names@[k]@)),
            no_duplicates(views(out@)),
            forall|e: Seq<char>| views(out@).contains(e) <==> in_union(names.subrange(0, i as int), e),
        decreases type_names@.len() - i,
    {
        match find_project_type(type_names[i].as_str()) {
            None => {
                return Err(TypeError::UnknownType(type_names[i].clone()));
            },
            Some(t) => {
                let ghost before = views(out@);
                let ghost exts = views(t.extensions@);
                assert(exts =~= t@.extensions);
                let mut k: usize = 0;
                while k < t.extensions.len()
                    invariant
                        k <= t.extensions@.len(),
                        exts == views(t.extensions@),
                        no_duplicates(views(out@)),
                        forall|e: Seq<char>| #[trigger] views(out@).contains(e) <==> (before.contains(e) || exts.subrange(0, k as int).contains(e)),
                    decreases t.extensions@.len() - k,
                {
                    let ghost prev = views(out@);
                    let ghost x = t.extensions@[k as int]@;
                    proof {
                        assert(exts[k as int] == x);
                        assert(exts.subrange(0, k + 1) =~= exts.subrange(0, k as int).push(x));
                    }
                    let found = contains_string(&out, &t.extensions[k]);
                    if !found {
                        out.push(t.extensions[k].clone());
                        assert(views(out@) =~= prev.push(x));
                    }
                    proof {
                        let s0 = exts.subrange(0, k as int);
                        let s1 = exts.subrange(0, k + 1);
                        assert(s1 == s0.push(x));
                        assert forall|e: Seq<char>| #[trigger] views(out@).contains(e) <==> (before.contains(e) || s1.contains(e)) by {
                            vstd::seq_lib::lemma_seq_contains_after_push(s0, x, e);
                            if found {
                                assert(views(out@) == prev);
                            } else {
                                vstd::seq_lib::lemma_seq_contains_after_push(prev, x, e);
                            }
                        }
                    }
                    k = k + 1;
                }
                proof {
                    assert(exts.subrange(0, k as int) =~= t@.extensions);
                    lemma_type_names_unique();
                    let i0 = choose|i0: int| 0 <= i0 < type_registry().len() && type_registry()[i0] == t@ && t@.name == lower_of(type_names@[i as int]@);
                    let ghost sub = names.subrange(0, i + 1);
                    let ghost pre = names.subrange(0, i as int);
                    assert(pre =~= sub.subrange(0, i as int));
                    assert(names[i as int] == type_names@[i as int]@);
                    assert(sub[i as int] == type_names@[i as int]@);
                    assert forall|e: Seq<char>| #[trigger] views(out@).contains(e) <==> in_union(sub, e) by {
                        if in_union(sub, e) {
                            let j = choose|j: int| 0 <= j < sub.len() && type_has_ext(lower_of(#[trigger] sub[j]), e);
                            if j < i {
                                assert(pre[j] == sub[j]);
                                assert(in_union(pre, e));
                            } else {
                                let i1 = choose|i1: int| 0 <= i1 < type_registry().len() && (#[trigger] type_registry()[i1]).name == lower_of(sub[j]) && type_registry()[i1].extensions.contains(e);
                                assert(i1 == i0);
                                assert(t@.extensions.contains(e));
                            }
                        }
                        if views(out@).contains(e) {
                            if before.contains(e) {
                                let j = choose|j: int| 0 <= j < pre.len() && type_has_ext(lower_of(#[trigger] pre[j]), e);
                                assert(sub[j] == pre[j]);
                            } else {
                                assert(type_registry()[i0].extensions.contains(e));
                                assert(type_has_ext(lower_of(sub[i as int]), e));
                            }
                        }
                    }
                }
            },
        }
        i = i + 1;
    }
    assert(names.subrange(0, i as int) =~= names);
    Ok(out)
}

/// Index of the last `.` in `s`, or -1 where there is none.
pub open spec fn last_dot(s: Seq<char>) -> int
    decreases s.len(),
{
    if s.len() == 0 {
        -1
    } else if s.last() == '.' {
        s.len() - 1
    } else {
        last_dot(s.drop_last())
    }
}

/// The tag that the first entry with key `k` gives, or the empty tag.
pub open spec fn lookup(table: Seq<(Seq<char>, Seq<char>)>, k: Seq<char>) -> Seq<char>
    decreases table.len(),
{
    if table.len() == 0 {
        Seq::empty()
    } else if table[0].0 == k {
        table[0].1
    } else {
        lookup(table.drop_first(), k)
    }
}

/// The syntax tag of a lower-cased file name: special names first, then the
/// suffix from the last dot on, else the empty tag.
pub open spec fn syntax_for(lower: Seq<char>) -> Seq<char> {
    if lower == "dockerfile"@ {
        "dockerfile"@
    } else if lower == "makefile"@ {
        "makefile"@
    } else if is_prefix(".env"@, lower) {
        "dotenv"@
    } else if lower == ".gitignore"@ {
        "gitignore"@
    } else if last_dot(lower) >= 0 {
        lookup(syntax_table(), lower.subrange(last_dot(lower), lower.len() as int))
    } else {
        Seq::empty()
    }
}

proof fn lemma_last_dot_bounds(s: Seq<char>)
    ensures
        -1 <= last_dot(s) < s.len(),
        last_dot(s) >= 0 ==> s[last_dot(s)] == '.',
    decreases s.len(),
{
    if s.len() > 0 && s.last() != '.' {
        lemma_last_dot_bounds(s.drop_last());
    }
}

fn find_last_dot(s: &str) -> (r: Option<usize>)
    ensures
        match r {
            Some(p) => last_dot(s@) == p as int,
            None => last_dot(s@) == -1,
        },
{
    let n = s.unicode_len();
    let mut i: usize = n;
    assert(s@.subrange(0, n as int) =~= s@);
    while i > 0
        invariant
            n == s@.len(),
            i <= n,
            last_dot(s@) == last_dot(s@.subrange(0, i as int)),
        decreases i,
    {
        let c = s.get_char(i - 1);
        if c == '.' {
            return Some(i - 1);
        }
        assert(s@.subrange(0, i as int).drop_last() =~= s@.subrange(0, i - 1));
        i = i - 1;
    }
    None
}

fn lookup_tag(table: &Vec<(String, String)>, k: &String) -> (r: String)
    ensures
        r@ == lookup(pair_views(table@), k@),
{
    let ghost t = pair_views(table@);
    let mut i: usize = 0;
    assert(t.subrange(0, t.len() as int) =~= t);
    while i < table.len()
        invariant
            t == pair_views(table@),
            i <= table@.len(),
            lookup(t, k@) == lookup(t.subrange(i as int, t.len() as int), k@),
        decreases table@.len() - i,
    {
        let ghost rest = t.subrange(i as int, t.len() as int);
        assert(rest[0] == (table@[i as int].0@, table@[i as int].1@));
        if table[i].0 == *k {
            return table[i].1.clone();
        }
        assert(rest.drop_first() =~= t.subrange(i + 1, t.len() as int));
        i = i + 1;
    }
    String::new()
}

/// The syntax tag of a file name that is already lower case.
pub fn syntax_for_lowered(lower: &str) -> (r: String)
    ensures
        r@ == syntax_for(lower@),
{
    let owned = String::from_str(lower);
    if owned == String::from_str("dockerfile") {
        return String::from_str("dockerfile");
    }
    if owned == String::from_str("makefile") {
        return String::from_str("makefile");
    }
    if starts_with(lower, ".env") {
        return String::from_str("dotenv");
    }
    if owned == String::from_str(".gitignore") {
        return String::from_str("gitignore");
    }
    match find_last_dot(lower) {
        Some(p) => {
            proof {
                lemma_last_dot_bounds(lower@);
            }
            let ext = String::from_str(lower.substring_char(p, lower.unicode_len()));
            let table = get_syntax_map();
            lookup_tag(&table, &ext)
        },
        None => String::new(),
    }
}

/// The syntax tag of a file name, ignoring case.
pub fn get_syntax_for_file(filename: &str) -> (r: String)
    ensures
        r@ == syntax_for(lower_of(filename@)),
{
    let lower = to_lower(filename);
    syntax_for_lowered(lower.as_str())
}
} // verus!
