use code2md::markdown::{format_size, generate_anchor, generate_markdown, render_markdown, FileEntry, MarkdownConfig};

#[test]
fn test_generate_anchor() {
    assert_eq!(generate_anchor("src/main.py"), "srcmainpy");
    assert_eq!(generate_anchor("config/settings.json"), "configsettingsjson");
}

#[test]
fn test_format_size() {
    assert_eq!(format_size(500), "500 Bytes");
    assert_eq!(format_size(1536), "1.50 KB");
    assert_eq!(format_size(2_097_152), "2.00 MB");
}

#[test]
fn format_size_boundaries() {
    assert_eq!(format_size(0), "0 Bytes");
    assert_eq!(format_size(1023), "1023 Bytes");
    assert_eq!(format_size(1024), "1.00 KB");
    assert_eq!(format_size(1_048_575), "1024.00 KB");
    assert_eq!(format_size(1_048_576), "1.00 MB");
    assert_eq!(format_size(u64::MAX), format!("{:.2} MB", u64::MAX as f64 / 1_048_576.0));
}

#[test]
fn format_size_agrees_with_float_formatting() {
    for b in [1025u64, 1100, 1152, 1280, 1500, 3333, 10_000, 999_999, 1_048_575] {
        assert_eq!(format_size(b), format!("{:.2} KB", b as f64 / 1024.0), "{}", b);
    }
    for b in [1_048_577u64, 1_179_648, 5_000_000, 123_456_789, 1_073_741_824] {
        assert_eq!(format_size(b), format!("{:.2} MB", b as f64 / 1_048_576.0), "{}", b);
    }
}

#[test]
fn anchor_keeps_dashes_and_lowers_ascii() {
    assert_eq!(generate_anchor("Src/My-File.PY"), "srcmy-filepy");
    assert_eq!(generate_anchor("a_b c.d"), "abcd");
    assert_eq!(generate_anchor(""), "");
}

#[test]
fn anchor_is_deterministic_and_in_alphabet() {
    for p in ["src/main.py", "A-B/C_D.e", "x/ÄÖ.txt", "--/..", "Z9"] {
        let a = generate_anchor(p);
        assert_eq!(a, generate_anchor(p));
        assert!(a.chars().all(|c| c == '-' || (c.is_alphanumeric() && !c.is_uppercase())));
    }
}

#[test]
fn anchor_lowers_non_ascii_capitals() {
    assert_eq!(generate_anchor("Ä/Öl-B.txt"), "äöl-btxt");
    assert_eq!(generate_anchor("ΣΑ_1"), "σα1");
}

#[test]
fn anchors_may_collide() {
    assert_eq!(generate_anchor("a/b.c"), generate_anchor("ab/c"));
}

fn entries() -> Vec<FileEntry> {
    vec![
        FileEntry { rel_path: "src/main.py".to_string(), content: "print('hi')\n\n".to_string() },
        FileEntry { rel_path: "Dockerfile".to_string(), content: "FROM x \u{3000}\u{a0}\t".to_string() },
    ]
}

#[test]
fn document_without_tree() {
    let cfg = MarkdownConfig { project_name: "demo".to_string(), base_path: "/p/demo".to_string(), include_tree: false };
    let doc = render_markdown(&entries(), &cfg, "2024-01-02 03:04:05");
    let expected = [
        "# demo",
        "",
        "> Generiert am 2024-01-02 03:04:05",
        "> Basisverzeichnis: `/p/demo`",
        "> Anzahl Dateien: 2",
        "",
        "## Inhaltsverzeichnis",
        "",
        "1. [Dateien](#dateien)",
        "   - [`src/main.py`](#srcmainpy)",
        "   - [`Dockerfile`](#dockerfile)",
        "",
        "---",
        "",
        "## Dateien",
        "",
        "### `src/main.py`",
        "",
        "```python",
        "print('hi')",
        "```",
        "",
        "### `Dockerfile`",
        "",
        "```dockerfile",
        "FROM x",
        "```",
        "",
    ]
    .join("\n");
    assert_eq!(doc, expected);
}

#[test]
fn document_with_tree() {
    let cfg = MarkdownConfig { project_name: "demo".to_string(), base_path: "/p/demo".to_string(), include_tree: true };
    let doc = render_markdown(&entries(), &cfg, "T");
    let lines: Vec<&str> = doc.split('\n').collect();
    assert_eq!(lines[8], "1. [Ordnerstruktur](#ordnerstruktur)");
    assert_eq!(lines[9], "2. [Dateien](#dateien)");
    let start = lines.iter().position(|l| *l == "## Ordnerstruktur").unwrap();
    assert_eq!(lines[start + 2], "```");
    assert_eq!(lines[start + 3], "demo/");
    assert_eq!(lines[start + 4], "├── src/");
    assert_eq!(lines[start + 5], "│   └── main.py");
    assert_eq!(lines[start + 6], "└── Dockerfile");
    assert_eq!(lines[start + 7], "```");
}

#[test]
fn toc_order_matches_section_order() {
    let files = vec![
        FileEntry { rel_path: "b.rs".to_string(), content: String::new() },
        FileEntry { rel_path: "a/c.rs".to_string(), content: String::new() },
        FileEntry { rel_path: "A.rs".to_string(), content: String::new() },
    ];
    let cfg = MarkdownConfig { project_name: "p".to_string(), base_path: "/p".to_string(), include_tree: true };
    let doc = render_markdown(&files, &cfg, "T");
    let toc: Vec<&str> = doc.lines().filter(|l| l.starts_with("   - [`")).collect();
    let heads: Vec<&str> = doc.lines().filter(|l| l.starts_with("### `")).collect();
    assert_eq!(toc.len(), 3);
    for (t, h) in toc.iter().zip(heads.iter()) {
        let name_t = t.split('`').nth(1).unwrap();
        let name_h = h.split('`').nth(1).unwrap();
        assert_eq!(name_t, name_h);
    }
}

#[test]
fn documents_differ_only_in_stamp() {
    let cfg = MarkdownConfig { project_name: "demo".to_string(), base_path: "/p".to_string(), include_tree: true };
    let a = generate_markdown(&entries(), &cfg);
    let b = render_markdown(&entries(), &cfg, "other");
    let la: Vec<&str> = a.split('\n').collect();
    let lb: Vec<&str> = b.split('\n').collect();
    assert_eq!(la.len(), lb.len());
    for i in 0..la.len() {
        if i != 2 {
            assert_eq!(la[i], lb[i]);
        }
    }
    assert!(la[2].starts_with("> Generiert am "));
    assert!(la[2].len() > "> Generiert am ".len());
}
