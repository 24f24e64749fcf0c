//! Assembly of the Markdown document.
use vstd::prelude::*;
use crate::text::{
    alnum, char_lower, decimal, digit, digit_char, is_alnum, is_upper, lower_char, lower_of,
    push_char, push_decimal, upper,
};
use crate::tree::{components, generate_tree, split_components, tree_lines};
use crate::types::{get_syntax_for_file, syntax_for, views};

verus! {

pub const KB: u64 = 1024;
pub const MB: u64 = 1048576;

/// A character that an anchor may hold besides `-`: a lower-case
/// alphanumeric.
pub open spec fn anchor_keep() -> spec_fn(char) -> bool {
    |d: char| alnum(d) && !upper(d)
}

/// What one character of a path contributes to its anchor: an alphanumeric
/// character lower-cased (keeping what of its lower case is alphanumeric and
/// not upper case), `-` itself, anything else nothing.
pub open spec fn anchor_piece(c: char) -> Seq<char> {
    if alnum(c) {
        char_lower(c).filter(anchor_keep())
    } else if c == '-' {
        seq!['-']
    } else {
        Seq::empty()
    }
}

/// The anchor of a path: its alphanumeric characters lower-cased and its `-`
/// kept, in order; every other character dropped.
pub open spec fn anchor_of(p: Seq<char>) -> Seq<char>
    decreases p.len(),
{
    if p.len() == 0 {
        Seq::empty()
    } else {
        anchor_of(p.drop_last()) + anchor_piece(p.last())
    }
}

/// Appends the lower case of an alphanumeric character.
fn push_lowered(out: &mut String, c: char)
    ensures
        final(out)@ == old(out)@ + char_lower(c).filter(anchor_keep()),
{
    let low = lower_char(c);
    let ghost l = low@;
    let n = low.as_str().unicode_len();
    let mut k: usize = 0;
    assert(l.subrange(0, 0) =~= Seq::<char>::empty());
    assert(Seq::<char>::empty().filter(anchor_keep()) =~= Seq::<char>::empty());
    assert(old(out)@ =~= old(out)@ + Seq::<char>::empty());
    while k < n
        invariant
            l == low@,
            n == l.len(),
            k <= n,
            out@ == old(out)@ + l.subrange(0, k as int).filter(anchor_keep()),
        decreases n - k,
    {
        let d = low.as_str().get_char(k);
        let ghost pre = l.subrange(0, k as int);
        proof {
            assert(l.subrange(0, k + 1) =~= pre.push(d));
            pre.lemma_filter_push(d, anchor_keep());
        }
        if is_alnum(d) && !is_upper(d) {
            push_char(out, d);
            assert(out@ =~= old(out)@ + l.subrange(0, k + 1).filter(anchor_keep()));
        }
        k = k + 1;
    }
    assert(l.subrange(0, n as int) =~= l);
}

/// Builds the cross-reference anchor of a relative path.
pub fn generate_anchor(path: &str) -> (r: String)
    ensures
        r@ == anchor_of(path@),
{
    let n = path.unicode_len();
    let mut out = String::new();
    let mut i: usize = 0;
    while i < n
        invariant
            n == path@.len(),
            i <= n,
            out@ == anchor_of(path@.subrange(0, i as int)),
        decreases n - i,
    {
        let c = path.get_char(i);
        assert(path@.subrange(0, i + 1).drop_last() =~= path@.subrange(0, i as int));
        if is_alnum(c) {
            push_lowered(&mut out, c);
            assert(out@ =~= anchor_of(path@.subrange(0, i + 1)));
        } else if c == '-' {
            push_char(&mut out, '-');
            assert(out@ =~= anchor_of(path@.subrange(0, i + 1)));
        } else {
            assert(out@ =~= anchor_of(path@.subrange(0, i + 1)));
        }
        i = i + 1;
    }
    assert(path@.subrange(0, n as int) =~= path@);
    out
}

/// Anchors hold only lower-case alphanumerics and `-`.
pub proof fn lemma_anchor_alphabet(p: Seq<char>)
    ensures
        forall|i: int|
            0 <= i < anchor_of(p).len() ==> #[trigger] anchor_of(p)[i] == '-' || (alnum(anchor_of(p)[i])
                && !upper(anchor_of(p)[i])),
    decreases p.len(),
{
    broadcast use vstd::seq_lib::group_filter_ensures;

    if p.len() > 0 {
        lemma_anchor_alphabet(p.drop_last());
        let a = anchor_of(p.drop_last());
        let c = p.last();
        let piece = anchor_piece(c);
        assert forall|i: int| 0 <= i < anchor_of(p).len() implies #[trigger] anchor_of(p)[i] == '-'
            || (alnum(anchor_of(p)[i]) && !upper(anchor_of(p)[i])) by {
            if i >= a.len() {
                assert(anchor_of(p)[i] == piece[i - a.len()]);
                if alnum(c) {
                    assert(anchor_keep()(piece[i - a.len()]));
                }
            } else {
                assert(anchor_of(p)[i] == a[i]);
            }
        }
    }
}

/// `bytes / unit` to two decimal places, rounded half to even, in hundredths.
pub open spec fn hundredths(bytes: nat, unit: nat) -> nat
    recommends
        unit > 0,
{
    let q = (bytes * 100) / unit;
    let r = (bytes * 100) % unit;
    if 2 * r > unit || (2 * r == unit && q % 2 == 1) {
        q + 1
    } else {
        q
    }
}

/// A number of hundredths written with two decimal places.
pub open spec fn two_places(h: nat) -> Seq<char> {
    decimal(h / 100) + seq!['.', digit_char((h / 10) % 10), digit_char(h % 10)]
}

/// The human-readable size: plain bytes below 1024, KB below 1 048 576,
/// MB from there on.
pub open spec fn size_text(bytes: nat) -> Seq<char> {
    if bytes >= MB {
        two_places(hundredths(bytes, MB as nat)) + " MB"@
    } else if bytes >= KB {
        two_places(hundredths(bytes, KB as nat)) + " KB"@
    } else {
        decimal(bytes) + " Bytes"@
    }
}

fn push_two_places(s: &mut String, bytes: u64, unit: u64)
    requires
        unit == KB || unit == MB,
    ensures
        final(s)@ == old(s)@ + two_places(hundredths(bytes as nat, unit as nat)),
{
    let x: u128 = bytes as u128 * 100;
    let q: u128 = x / (unit as u128);
    let r: u128 = x % (unit as u128);
    let h: u128 = if 2 * r > unit as u128 || (2 * r == unit as u128 && q % 2 == 1) {
        q + 1
    } else {
        q
    };
    assert(h == hundredths(bytes as nat, unit as nat));
    assert(q <= x) by (nonlinear_arith)
        requires
            q == x / (unit as u128),
            unit >= 1,
    ;
    push_decimal(s, (h / 100) as u64);
    push_char(s, '.');
    push_char(s, digit(((h / 10) % 10) as u64));
    push_char(s, digit((h % 10) as u64));
    assert(final(s)@ =~= old(s)@ + two_places(h as nat));
}

/// Formats a byte count for people.
pub fn format_size(bytes: u64) -> (r: String)
    ensures
        r@ == size_text(bytes as nat),
{
    let mut s = String::new();
    if bytes >= MB {
        push_two_places(&mut s, bytes, MB);
        s.append(" MB");
    } else if bytes >= KB {
        push_two_places(&mut s, bytes, KB);
        s.append(" KB");
    } else {
        push_decimal(&mut s, bytes);
        s.append(" Bytes");
    }
    s
}

/// Whether a character has the Unicode White_Space property.
pub open spec fn white(c: char) -> bool {
    let u = c as int;
    (0x9 <= u && u <= 0xD) || u == 0x20 || u == 0x85 || u == 0xA0 || u == 0x1680 || (0x2000 <= u
        && u <= 0x200A) || u == 0x2028 || u == 0x2029 || u == 0x202F || u == 0x205F || u == 0x3000
}

/// Relies on `char::is_whitespace`: true of the characters with the
/// White_Space property.
#[verifier::external_body]
fn is_white(c: char) -> (r: bool)
    ensures
        r == white(c),
{
    c.is_whitespace()
}

/// Relies on `chrono::Local::now` and `DateTime::format`: the local time now,
/// as `YYYY-MM-DD hh:mm:ss`. Of its value only this is known: the specifiers
/// print signs, digits and the literal separators, never a line break.
#[verifier::external_body]
fn local_timestamp() -> (r: String)
    ensures
        forall|i: int| 0 <= i < r@.len() ==> r@[i] != '\n',
{
    chrono::Local::now().format("%Y-%m-%d %H:%M:%S").to_string()
}

/// `s` without its trailing whitespace.
pub open spec fn trim_end(s: Seq<char>) -> Seq<char>
    decreases s.len(),
{
    if s.len() > 0 && white(s.last()) {
        trim_end(s.drop_last())
    } else {
        s
    }
}

pub fn trim_end_of(s: &str) -> (r: String)
    ensures
        r@ == trim_end(s@),
{
    let mut n = s.unicode_len();
    assert(s@.subrange(0, n as int) =~= s@);
    while n > 0 && is_white(s.get_char(n - 1))
        invariant
            n <= s@.len(),
            trim_end(s@) == trim_end(s@.subrange(0, n as int)),
        decreases n,
    {
        assert(s@.subrange(0, n as int).drop_last() =~= s@.subrange(0, n - 1));
        n = n - 1;
    }
    String::from_str(s.substring_char(0, n))
}

/// How the document is titled and laid out.
pub struct MarkdownConfig {
    pub project_name: String,
    pub base_path: String,
    pub include_tree: bool,
}

/// A discovered file: its path relative to the project root and its text.
pub struct FileEntry {
    pub rel_path: String,
    pub content: String,
}

pub open spec fn entry_views(fs: Seq<FileEntry>) -> Seq<(Seq<char>, Seq<char>)> {
    fs.map_values(|f: FileEntry| (f.rel_path@, f.content@))
}

/// The name of a file: the last component of its relative path.
pub open spec fn file_name_of(rel: Seq<char>) -> Seq<char> {
    if components(rel).len() == 0 {
        Seq::empty()
    } else {
        components(rel).last()
    }
}

/// Title, metadata and the head of the table of contents.
pub open spec fn head_lines(name: Seq<char>, base: Seq<char>, tree: bool, stamp: Seq<char>, n: nat) -> Seq<Seq<char>> {
    seq![
        "# "@ + name,
        Seq::empty(),
        "> Generiert am "@ + stamp,
        "> Basisverzeichnis: `"@ + base + "`"@,
        "> Anzahl Dateien: "@ + decimal(n),
        Seq::empty(),
        "## Inhaltsverzeichnis"@,
        Seq::empty(),
    ] + if tree {
        seq!["1. [Ordnerstruktur](#ordnerstruktur)"@, "2. [Dateien](#dateien)"@]
    } else {
        seq!["1. [Dateien](#dateien)"@]
    }
}

/// The table-of-contents entry of one file, linking to its anchor.
pub open spec fn toc_line(rel: Seq<char>) -> Seq<char> {
    "   - [`"@ + rel + "`](#"@ + anchor_of(rel) + ")"@
}

pub open spec fn toc_lines(fs: Seq<(Seq<char>, Seq<char>)>) -> Seq<Seq<char>> {
    fs.map_values(|f: (Seq<char>, Seq<char>)| toc_line(f.0))
}

/// The tree block, present only where asked for.
pub open spec fn tree_block(name: Seq<char>, rels: Seq<Seq<char>>, tree: bool) -> Seq<Seq<char>> {
    if tree {
        seq!["---"@, Seq::empty(), "## Ordnerstruktur"@, Seq::empty(), "```"@] + tree_lines(name, rels)
            + seq!["```"@, Seq::empty()]
    } else {
        Seq::empty()
    }
}

/// The heading line of a file's section.
pub open spec fn section_heading(rel: Seq<char>) -> Seq<char> {
    "### `"@ + rel + "`"@
}

/// The section of one file: heading, then its content without trailing
/// whitespace, fenced and tagged with its syntax.
pub open spec fn section(rel: Seq<char>, content: Seq<char>) -> Seq<Seq<char>> {
    seq![
        section_heading(rel),
        Seq::empty(),
        "```"@ + syntax_for(lower_of(file_name_of(rel))),
        trim_end(content),
        "```"@,
        Seq::empty(),
    ]
}

pub open spec fn sections(fs: Seq<(Seq<char>, Seq<char>)>) -> Seq<Seq<char>>
    decreases fs.len(),
{
    if fs.len() == 0 {
        Seq::empty()
    } else {
        sections(fs.drop_last()) + section(fs.last().0, fs.last().1)
    }
}

/// The lines of the document, in order.
pub open spec fn doc_lines(fs: Seq<(Seq<char>, Seq<char>)>, name: Seq<char>, base: Seq<char>, tree: bool, stamp: Seq<char>) -> Seq<Seq<char>> {
    head_lines(name, base, tree, stamp, fs.len())
        + toc_lines(fs) + seq![Seq::empty()]
        + tree_block(name, fs.map_values(|f: (Seq<char>, Seq<char>)| f.0), tree)
        + seq!["---"@, Seq::empty(), "## Dateien"@, Seq::empty()]
        + sections(fs)
}

/// Lines joined by newlines.
pub open spec fn joined(lines: Seq<Seq<char>>) -> Seq<char>
    decreases lines.len(),
{
    if lines.len() == 0 {
        Seq::empty()
    } else if lines.len() == 1 {
        lines[0]
    } else {
        joined(lines.drop_last()) + "\n"@ + lines.last()
    }
}

pub fn join_lines(lines: &Vec<String>) -> (r: String)
    ensures
        r@ == joined(views(lines@)),
{
    let ghost v = views(lines@);
    let mut out = String::new();
    let mut i: usize = 0;
    while i < lines.len()
        invariant
            v == views(lines@),
            i <= lines@.len(),
            out@ == joined(v.subrange(0, i as int)),
        decreases lines@.len() - i,
    {
        let ghost pre = v.subrange(0, i + 1);
        assert(pre.drop_last() =~= v.subrange(0, i as int));
        assert(pre.last() == lines@[i as int]@);
        if i > 0 {
            out.append("\n");
        } else {
            assert(pre[0] == lines@[0]@);
        }
        out.append(lines[i].as_str());
        i = i + 1;
    }
    assert(v.subrange(0, i as int) =~= v);
    out
}

fn push_line(lines: &mut Vec<String>, line: String)
    ensures
        views(final(lines)@) == views(old(lines)@).push(line@),
{
    lines.push(line);
    assert(views(lines@) =~= views(old(lines)@).push(line@));
}

fn text2(a: &str, b: &str) -> (r: String)
    ensures
        r@ == a@ + b@,
{
    let mut s = String::from_str(a);
    s.append(b);
    s
}

fn text3(a: &str, b: &str, c: &str) -> (r: String)
    ensures
        r@ == a@ + b@ + c@,
{
    let mut s = String::from_str(a);
    s.append(b);
    s.append(c);
    s
}

fn head_part(config: &MarkdownConfig, stamp: &str, n: usize) -> (r: Vec<String>)
    ensures
        views(r@) == head_lines(config.project_name@, config.base_path@, config.include_tree, stamp@, n as nat),
{
    let mut lines: Vec<String> = Vec::new();
    push_line(&mut lines, text2("# ", config.project_name.as_str()));
    push_line(&mut lines, String::new());
    push_line(&mut lines, text2("> Generiert am ", stamp));
    push_line(&mut lines, text3("> Basisverzeichnis: `", config.base_path.as_str(), "`"));
    let mut count = String::from_str("> Anzahl Dateien: ");
    push_decimal(&mut count, n as u64);
    push_line(&mut lines, count);
    push_line(&mut lines, String::new());
    push_line(&mut lines, String::from_str("## Inhaltsverzeichnis"));
    push_line(&mut lines, String::new());
    if config.include_tree {
        push_line(&mut lines, String::from_str("1. [Ordnerstruktur](#ordnerstruktur)"));
        push_line(&mut lines, String::from_str("2. [Dateien](#dateien)"));
    } else {
        push_line(&mut lines, String::from_str("1. [Dateien](#dateien)"));
    }
    assert(views(lines@) =~= head_lines(config.project_name@, config.base_path@, config.include_tree, stamp@, n as nat));
    lines
}

/// Appends the table-of-contents entries; returns the relative paths.
fn toc_part(files: &Vec<FileEntry>, lines: &mut Vec<String>) -> (rels: Vec<String>)
    ensures
        views(final(lines)@) == views(old(lines)@) + toc_lines(entry_views(files@)),
        views(rels@) == entry_views(files@).map_values(|f: (Seq<char>, Seq<char>)| f.0),
{
    let ghost fs = entry_views(files@);
    let ghost start = views(lines@);
    let mut rels: Vec<String> = Vec::new();
    let mut i: usize = 0;
    while i < files.len()
        invariant
            fs == entry_views(files@),
            i <= files@.len(),
            views(lines@) == start + toc_lines(fs.subrange(0, i as int)),
            views(rels@) == fs.subrange(0, i as int).map_values(|f: (Seq<char>, Seq<char>)| f.0),
        decreases files@.len() - i,
    {
        let rel = files[i].rel_path.as_str();
        let mut line = text2("   - [`", rel);
        line.append("`](#");
        line.append(generate_anchor(rel).as_str());
        line.append(")");
        push_line(lines, line);
        let ghost rb = views(rels@);
        rels.push(files[i].rel_path.clone());
        proof {
            assert(fs[i as int] == (files@[i as int].rel_path@, files@[i as int].content@));
            assert(toc_lines(fs.subrange(0, i + 1)) =~= toc_lines(fs.subrange(0, i as int)).push(toc_line(rel@)));
            assert(views(lines@) =~= start + toc_lines(fs.subrange(0, i + 1)));
            assert(views(rels@) =~= rb.push(rel@));
            assert(views(rels@) =~= fs.subrange(0, i + 1).map_values(|f: (Seq<char>, Seq<char>)| f.0));
        }
        i = i + 1;
    }
    assert(fs.subrange(0, i as int) =~= fs);
    rels
}

fn tree_part(rels: &Vec<String>, config: &MarkdownConfig, lines: &mut Vec<String>)
    ensures
        views(final(lines)@) == views(old(lines)@) + tree_block(config.project_name@, views(rels@), config.include_tree),
{
    if config.include_tree {
        push_line(lines, String::from_str("---"));
        push_line(lines, String::new());
        push_line(lines, String::from_str("## Ordnerstruktur"));
        push_line(lines, String::new());
        push_line(lines, String::from_str("```"));
        let mut tree = generate_tree(rels, config.project_name.as_str());
        let ghost before = views(lines@);
        let ghost tv = views(tree@);
        lines.append(&mut tree);
        assert(views(lines@) =~= before + tv);
        push_line(lines, String::from_str("```"));
        push_line(lines, String::new());
    }
    assert(views(lines@) =~= views(old(lines)@) + tree_block(config.project_name@, views(rels@), config.include_tree));
}

fn section_part(f: &FileEntry, lines: &mut Vec<String>)
    ensures
        views(final(lines)@) == views(old(lines)@) + section(f.rel_path@, f.content@),
{
    let rel = f.rel_path.as_str();
    let comps = split_components(rel);
    let syntax = if comps.len() > 0 {
        get_syntax_for_file(comps[comps.len() - 1].as_str())
    } else {
        get_syntax_for_file(String::new().as_str())
    };
    proof {
        if comps@.len() > 0 {
            assert(views(comps@).last() == comps@[comps@.len() - 1]@);
        }
    }
    push_line(lines, text3("### `", rel, "`"));
    push_line(lines, String::new());
    push_line(lines, text2("```", syntax.as_str()));
    push_line(lines, trim_end_of(f.content.as_str()));
    push_line(lines, String::from_str("```"));
    push_line(lines, String::new());
    assert(views(lines@) =~= views(old(lines)@) + section(rel@, f.content@));
}

/// The Markdown document for the given files, with `stamp` as generation time.
pub fn render_markdown(files: &Vec<FileEntry>, config: &MarkdownConfig, stamp: &str) -> (r: String)
    ensures
        r@ == joined(doc_lines(entry_views(files@), config.project_name@, config.base_path@, config.include_tree, stamp@)),
{
    let ghost fs = entry_views(files@);
    let mut lines = head_part(config, stamp, files.len());
    let rels = toc_part(files, &mut lines);
    push_line(&mut lines, String::new());
    tree_part(&rels, config, &mut lines);
    push_line(&mut lines, String::from_str("---"));
    push_line(&mut lines, String::new());
    push_line(&mut lines, String::from_str("## Dateien"));
    push_line(&mut lines, String::new());
    let ghost before_sections = views(lines@);
    let mut j: usize = 0;
    assert(fs.subrange(0, 0) =~= Seq::<(Seq<char>, Seq<char>)>::empty());
    while j < files.len()
        invariant
            fs == entry_views(files@),
            j <= files@.len(),
            views(lines@) == before_sections + sections(fs.subrange(0, j as int)),
        decreases files@.len() - j,
    {
        section_part(&files[j], &mut lines);
        proof {
            assert(fs[j as int] == (files@[j as int].rel_path@, files@[j as int].content@));
            let sub = fs.subrange(0, j + 1);
            assert(sub.drop_last() =~= fs.subrange(0, j as int));
            assert(sub.last() == fs[j as int]);
        }
        j = j + 1;
    }
    assert(fs.subrange(0, j as int) =~= fs);
    assert(views(lines@) =~= doc_lines(fs, config.project_name@, config.base_path@, config.include_tree, stamp@));
    join_lines(&lines)
}

/// The Markdown document for the given files, stamped with the local time.
pub fn generate_markdown(files: &Vec<FileEntry>, config: &MarkdownConfig) -> (r: String)
    ensures
        exists|stamp: Seq<char>|
            r@ == joined(doc_lines(entry_views(files@), config.project_name@, config.base_path@, config.include_tree, stamp)),
{
    let stamp = local_timestamp();
    render_markdown(files, config, stamp.as_str())
}

/// The table of contents and the file sections list the files in the same
/// order: entry `i` and the heading of section `i` both name file `i`.
pub proof fn lemma_toc_order_is_section_order(fs: Seq<(Seq<char>, Seq<char>)>)
    ensures
        toc_lines(fs).len() == fs.len(),
        sections(fs).len() == 6 * fs.len(),
        forall|i: int|
            0 <= i < fs.len() ==> #[trigger] toc_lines(fs)[i] == toc_line(fs[i].0) && sections(fs)[6 * i]
                == section_heading(fs[i].0),
    decreases fs.len(),
{
    if fs.len() > 0 {
        let d = fs.drop_last();
        lemma_toc_order_is_section_order(d);
        assert forall|i: int| 0 <= i < fs.len() implies #[trigger] toc_lines(fs)[i] == toc_line(fs[i].0)
            && sections(fs)[6 * i] == section_heading(fs[i].0) by {
            if i < d.len() {
                assert(d[i] == fs[i]);
                assert(toc_lines(d)[i] == toc_line(d[i].0));
                assert(sections(fs)[6 * i] == sections(d)[6 * i]);
            } else {
                assert(toc_lines(fs)[i] == toc_line(fs[i].0));
                assert(sections(fs) == sections(d) + section(fs.last().0, fs.last().1));
                assert(sections(fs)[6 * i] == section(fs.last().0, fs.last().1)[0]);
            }
        }
    }
}

/// Two documents for the same files and settings are the same but for the
/// line that carries the generation time.
pub proof fn lemma_same_but_stamp(
    fs: Seq<(Seq<char>, Seq<char>)>,
    name: Seq<char>,
    base: Seq<char>,
    tree: bool,
    stamp1: Seq<char>,
    stamp2: Seq<char>,
)
    ensures
        doc_lines(fs, name, base, tree, stamp1).len() == doc_lines(fs, name, base, tree, stamp2).len(),
        doc_lines(fs, name, base, tree, stamp1).update(2, Seq::empty()) == doc_lines(
            fs,
            name,
            base,
            tree,
            stamp2,
        ).update(2, Seq::empty()),
{
    assert(doc_lines(fs, name, base, tree, stamp1).update(2, Seq::empty()) =~= doc_lines(
        fs,
        name,
        base,
        tree,
        stamp2,
    ).update(2, Seq::empty()));
}

proof fn lemma_joined_concat(a: Seq<Seq<char>>, b: Seq<Seq<char>>)
    requires
        a.len() > 0,
        b.len() > 0,
    ensures
        joined(a + b) == joined(a) + "\n"@ + joined(b),
    decreases b.len(),
{
    if b.len() == 1 {
        assert((a + b).drop_last() =~= a);
    } else {
        lemma_joined_concat(a, b.drop_last());
        assert((a + b).drop_last() =~= a + b.drop_last());
        assert(joined(a) + "\n"@ + joined(b.drop_last()) + "\n"@ + b.last() =~= joined(a) + "\n"@ + (
        joined(b.drop_last()) + "\n"@ + b.last()));
    }
}

/// The document text for the same files and settings is the same around the
/// generation time: two stamps give `pre + stamp1 + post` and
/// `pre + stamp2 + post`.
pub proof fn lemma_text_same_but_stamp(
    fs: Seq<(Seq<char>, Seq<char>)>,
    name: Seq<char>,
    base: Seq<char>,
    tree: bool,
    stamp1: Seq<char>,
    stamp2: Seq<char>,
)
    ensures
        exists|pre: Seq<char>, post: Seq<char>|
            joined(doc_lines(fs, name, base, tree, stamp1)) == pre + stamp1 + post && joined(
                doc_lines(fs, name, base, tree, stamp2),
            ) == pre + stamp2 + post,
{
    let l1 = doc_lines(fs, name, base, tree, stamp1);
    let l2 = doc_lines(fs, name, base, tree, stamp2);
    lemma_same_but_stamp(fs, name, base, tree, stamp1, stamp2);
    let head = l1.subrange(0, 2);
    let rest = l1.subrange(3, l1.len() as int);
    assert(l1.len() > 3);
    assert(l2.subrange(0, 2) =~= head) by {
        assert forall|i: int| 0 <= i < 2 implies l2[i] == l1[i] by {
            assert(l1.update(2, Seq::empty())[i] == l2.update(2, Seq::empty())[i]);
        }
    }
    assert(l2.subrange(3, l2.len() as int) =~= rest) by {
        assert forall|i: int| 3 <= i < l1.len() implies l2[i] == l1[i] by {
            assert(l1.update(2, Seq::empty())[i] == l2.update(2, Seq::empty())[i]);
        }
    }
    let pre = joined(head) + "\n"@ + "> Generiert am "@;
    let post = "\n"@ + joined(rest);
    assert(l1 =~= head + seq!["> Generiert am "@ + stamp1] + rest);
    assert(l2 =~= head + seq!["> Generiert am "@ + stamp2] + rest);
    lemma_joined_concat(head, seq!["> Generiert am "@ + stamp1]);
    lemma_joined_concat(head + seq!["> Generiert am "@ + stamp1], rest);
    lemma_joined_concat(head, seq!["> Generiert am "@ + stamp2]);
    lemma_joined_concat(head + seq!["> Generiert am "@ + stamp2], rest);
    assert(joined(l1) =~= pre + stamp1 + post);
    assert(joined(l2) =~= pre + stamp2 + post);
}

} // verus!
