//! Which files of a project are taken: exclude patterns, the extension
//! allow-list, and the order of the result.
use vstd::prelude::*;
use crate::text::{lemma_lex_antisymmetric, lemma_lex_total, lemma_lex_transitive, lex_le, lower_of, push_char, str_lex_le, to_lower};
use crate::cli::{join_dir, join_path};
use crate::tree::{components, lemma_components_concat, split_components};
use crate::types::{last_dot, views};
use globset::{Glob, GlobBuilder, GlobSet, GlobSetBuilder};

verus! {

#[verifier::external_type_specification]
#[verifier::external_body]
pub struct ExGlob(globset::Glob);

#[verifier::external_type_specification]
#[verifier::external_body]
pub struct ExGlobSet(globset::GlobSet);

#[verifier::external_type_specification]
#[verifier::external_body]
pub struct ExGlobSetBuilder(globset::GlobSetBuilder);

#[verifier::external_type_specification]
#[verifier::external_body]
pub struct ExGlobError(globset::Error);

/// Whether a pattern compiles as a glob in which `*` and `?` do not match `/`.
pub uninterp spec fn glob_accepts(pattern: Seq<char>) -> bool;

/// The pattern text that a `Glob` was built from (what `Glob::glob` returns).
pub uninterp spec fn glob_text(g: Glob) -> Seq<char>;

/// The pattern texts of the globs added to a builder, in order.
pub uninterp spec fn builder_globs(b: GlobSetBuilder) -> Seq<Seq<char>>;

/// The pattern texts of the globs in a set, in the order they were added.
pub uninterp spec fn set_globs(s: GlobSet) -> Seq<Seq<char>>;

/// Whether the glob built from `pattern` (with `*` not matching `/`) matches
/// `path`.
pub uninterp spec fn glob_matches(pattern: Seq<char>, path: Seq<char>) -> bool;

/// Whether `GlobSetBuilder::build` succeeds on globs with these pattern texts.
pub uninterp spec fn set_builds(globs: Seq<Seq<char>>) -> bool;

/// Relies on `GlobBuilder::build` with `literal_separator(true)`, so that `*`
/// does not cross a `/`: succeeds exactly on the patterns it accepts, and the
/// glob keeps the pattern text it was built from.
#[verifier::external_body]
fn new_glob(pattern: &str) -> (r: Result<Glob, globset::Error>)
    ensures
        r is Ok <==> glob_accepts(pattern@),
        r matches Ok(g) ==> glob_text(g) == pattern@,
{
    GlobBuilder::new(pattern).literal_separator(true).build()
}

/// Relies on `GlobSetBuilder::new`: a builder with no globs.
#[verifier::external_body]
fn new_builder() -> (b: GlobSetBuilder)
    ensures
        builder_globs(b) == Seq::<Seq<char>>::empty(),
{
    GlobSetBuilder::new()
}

/// Relies on `GlobSetBuilder::add`: appends the glob to the builder's list.
#[verifier::external_body]
fn add_glob(b: &mut GlobSetBuilder, g: Glob)
    ensures
        builder_globs(*final(b)) == builder_globs(*old(b)).push(glob_text(g)),
{
    b.add(g);
}

/// Relies on `GlobSetBuilder::build`: whether it succeeds depends on the
/// globs added alone, it always does for no globs, and a set built holds the
/// globs added.
#[verifier::external_body]
fn build_set(b: &GlobSetBuilder) -> (r: Result<GlobSet, globset::Error>)
    ensures
        r is Ok <==> set_builds(builder_globs(*b)),
        builder_globs(*b).len() == 0 ==> r is Ok,
        r matches Ok(s) ==> set_globs(s) == builder_globs(*b),
{
    b.build()
}

/// Relies on `GlobSet::is_match`: true if any glob in the set matches.
#[verifier::external_body]
fn set_matches(s: &GlobSet, path: &str) -> (r: bool)
    ensures
        r == (exists|i: int| 0 <= i < set_globs(*s).len() && glob_matches(#[trigger] set_globs(*s)[i], path@)),
{
    s.is_match(path)
}

/// Whether any of the patterns matches `s`.
pub open spec fn matches_any(globs: Seq<Seq<char>>, s: Seq<char>) -> bool {
    exists|i: int| 0 <= i < globs.len() && glob_matches(#[trigger] globs[i], s)
}

/// Whether `c` occurs in `s`.
pub open spec fn has_char(s: Seq<char>, c: char) -> bool {
    exists|i: int| 0 <= i < s.len() && s[i] == c
}

/// `\` turned into `/`.
pub open spec fn slashes(p: Seq<char>) -> Seq<char> {
    p.map_values(|c: char| if c == '\\' { '/' } else { c })
}

/// A pattern as first tried: one with a separator as it is (with `\` read as
/// `/`), a bare name made to match at any depth.
pub open spec fn normalized(p: Seq<char>) -> Seq<char> {
    if has_char(p, '/') || has_char(p, '\\') {
        slashes(p)
    } else {
        "**/"@ + p
    }
}

/// A pattern as tried when its first form is refused.
pub open spec fn fallback(p: Seq<char>) -> Seq<char> {
    "**/"@ + p
}

/// Whether one of the two forms of a pattern compiles.
pub open spec fn pattern_ok(p: Seq<char>) -> bool {
    glob_accepts(normalized(p)) || glob_accepts(fallback(p))
}

/// The form of a pattern that is used: the first one that compiles.
pub open spec fn compiled_form(p: Seq<char>) -> Seq<char> {
    if glob_accepts(normalized(p)) {
        normalized(p)
    } else {
        fallback(p)
    }
}

fn normalize(p: &str) -> (r: String)
    ensures
        r@ == normalized(p@),
{
    let n = p.unicode_len();
    let mut i: usize = 0;
    let mut sep = false;
    let mut out = String::new();
    while i < n
        invariant
            n == p@.len(),
            i <= n,
            sep == (exists|j: int| 0 <= j < i && (p@[j] == '/' || p@[j] == '\\')),
            out@ == slashes(p@.subrange(0, i as int)),
        decreases n - i,
    {
        let c = p.get_char(i);
        if c == '/' || c == '\\' {
            sep = true;
            push_char(&mut out, '/');
        } else {
            push_char(&mut out, c);
        }
        assert(out@ =~= slashes(p@.subrange(0, i + 1)));
        i = i + 1;
    }
    assert(p@.subrange(0, n as int) =~= p@);
    assert(sep == (has_char(p@, '/') || has_char(p@, '\\')));
    if sep {
        out
    } else {
        let mut r = String::from_str("**/");
        r.append(p);
        r
    }
}

/// Why the exclude patterns cannot be used.
pub enum ConfigError {
    /// A pattern (as given) that compiles in neither form.
    InvalidPattern(String),
    /// The set of compiled globs could not be built.
    PatternSet,
}

/// The allow-listed extensions and the compiled exclude patterns.
pub struct CollectorConfig {
    pub extensions: Vec<String>,
    pub excludes: GlobSet,
}

/// The extension of a file name: what follows its last dot, where that dot
/// is not the first character.
pub open spec fn file_ext(name: Seq<char>) -> Option<Seq<char>> {
    if last_dot(name) <= 0 {
        None
    } else {
        Some(name.subrange(last_dot(name) + 1, name.len() as int))
    }
}

/// Whether a file at relative path `rel` is taken: neither the path nor any
/// of its components matches a pattern, and its extension, lower-cased and
/// with a dot, is allow-listed.
pub open spec fn include_file(globs: Seq<Seq<char>>, exts: Seq<Seq<char>>, rel: Seq<char>) -> bool {
    &&& !matches_any(globs, rel)
    &&& forall|k: int|
        0 <= k < components(rel).len() ==> !matches_any(globs, #[trigger] components(rel)[k])
    &&& components(rel).len() > 0
    &&& match file_ext(components(rel).last()) {
        Some(e) => exts.contains("."@ + lower_of(e)),
        None => false,
    }
}

/// Whether the walk descends into a directory: neither its relative path nor
/// its name matches a pattern.
pub open spec fn enter_dir(globs: Seq<Seq<char>>, rel: Seq<char>, name: Seq<char>) -> bool {
    !matches_any(globs, rel) && !matches_any(globs, name)
}

impl CollectorConfig {
    pub open spec fn globs(&self) -> Seq<Seq<char>> {
        set_globs(self.excludes)
    }

    /// Compiles the exclude patterns. A pattern is tried in its normalized
    /// form and then with `**/` in front; it is an error when both fail.
    pub fn new(extensions: Vec<String>, exclude_patterns: &Vec<String>) -> (r: Result<CollectorConfig, ConfigError>)
        ensures
            match r {
                Ok(c) => {
                    &&& c.extensions@ == extensions@
                    &&& forall|j: int| 0 <= j < exclude_patterns@.len() ==> pattern_ok(#[trigger] exclude_patterns@[j]@)
                    &&& c.globs() == views(exclude_patterns@).map_values(|p: Seq<char>| compiled_form(p))
                },
                Err(ConfigError::InvalidPattern(p)) => exists|j: int|
                    0 <= j < exclude_patterns@.len() && exclude_patterns@[j] == p && !pattern_ok(p@)
                        && forall|k: int| 0 <= k < j ==> pattern_ok(#[trigger] exclude_patterns@[k]@),
                Err(ConfigError::PatternSet) => {
                    &&& forall|j: int| 0 <= j < exclude_patterns@.len() ==> pattern_ok(#[trigger] exclude_patterns@[j]@)
                    &&& !set_builds(views(exclude_patterns@).map_values(|p: Seq<char>| compiled_form(p)))
                },
            },
            exclude_patterns@.len() == 0 ==> r is Ok,
    {
        let mut builder = new_builder();
        let ghost want = views(exclude_patterns@).map_values(|p: Seq<char>| compiled_form(p));
        let mut i: usize = 0;
        while i < exclude_patterns.len()
            invariant
                i <= exclude_patterns@.len(),
                want == views(exclude_patterns@).map_values(|p: Seq<char>| compiled_form(p)),
                forall|k: int| 0 <= k < i ==> pattern_ok(#[trigger] exclude_patterns@[k]@),
                builder_globs(builder) == want.subrange(0, i as int),
            decreases exclude_patterns@.len() - i,
        {
            let pattern = exclude_patterns[i].as_str();
            assert(want[i as int] == compiled_form(pattern@));
            let normal = normalize(pattern);
            let glob = match new_glob(normal.as_str()) {
                Ok(g) => g,
                Err(_) => {
                    let mut again = String::from_str("**/");
                    again.append(pattern);
                    match new_glob(again.as_str()) {
                        Ok(g) => g,
                        Err(_) => {
                            return Err(ConfigError::InvalidPattern(exclude_patterns[i].clone()));
                        },
                    }
                },
            };
            add_glob(&mut builder, glob);
            assert(want.subrange(0, i + 1) =~= want.subrange(0, i as int).push(want[i as int]));
            i = i + 1;
        }
        assert(want.subrange(0, i as int) =~= want);
        match build_set(&builder) {
            Ok(excludes) => Ok(CollectorConfig { extensions, excludes }),
            Err(_) => Err(ConfigError::PatternSet),
        }
    }

    fn matches(&self, s: &str) -> (r: bool)
        ensures
            r == matches_any(self.globs(), s@),
    {
        set_matches(&self.excludes, s)
    }

    fn allowed_ext(&self, e: &String) -> (r: bool)
        ensures
            r == views(self.extensions@).contains(e@),
    {
        let mut i: usize = 0;
        while i < self.extensions.len()
            invariant
                i <= self.extensions@.len(),
                forall|j: int| 0 <= j < i ==> (#[trigger] self.extensions@[j])@ != e@,
            decreases self.extensions@.len() - i,
        {
            if self.extensions[i] == *e {
                assert(views(self.extensions@)[i as int] == e@);
                return true;
            }
            i = i + 1;
        }
        assert forall|j: int| 0 <= j < views(self.extensions@).len() implies views(self.extensions@)[j] != e@ by {
            assert(views(self.extensions@)[j] == self.extensions@[j]@);
        }
        false
    }

    /// Whether the file at relative path `rel_path` is taken.
    pub fn should_include(&self, rel_path: &str) -> (r: bool)
        ensures
            r == include_file(self.globs(), views(self.extensions@), rel_path@),
    {
        if self.matches(rel_path) {
            return false;
        }
        let comps = split_components(rel_path);
        let ghost cs = components(rel_path@);
        let mut k: usize = 0;
        while k < comps.len()
            invariant
                cs == components(rel_path@),
                views(comps@) == cs,
                k <= comps@.len(),
                forall|j: int| 0 <= j < k ==> !matches_any(self.globs(), #[trigger] cs[j]),
            decreases comps@.len() - k,
        {
            assert(cs[k as int] == comps@[k as int]@);
            let piece: &str = comps[k].as_str();
            assert(piece@ == cs[k as int]);
            if self.matches(piece) {
                assert(matches_any(self.globs(), cs[k as int]));
                return false;
            }
            k = k + 1;
        }
        if comps.len() == 0 {
            return false;
        }
        let name = comps[comps.len() - 1].as_str();
        assert(cs.last() == name@);
        let n = name.unicode_len();
        let mut d: usize = n;
        assert(name@.subrange(0, n as int) =~= name@);
        while d > 0 && name.get_char(d - 1) != '.'
            invariant
                n == name@.len(),
                d <= n,
                last_dot(name@) == last_dot(name@.subrange(0, d as int)),
            decreases d,
        {
            assert(name@.subrange(0, d as int).drop_last() =~= name@.subrange(0, d - 1));
            d = d - 1;
        }
        proof {
            if d > 0 {
                assert(name@.subrange(0, d as int).last() == name@[d - 1]);
                assert(last_dot(name@) == d - 1);
            } else {
                assert(name@.subrange(0, 0) =~= Seq::<char>::empty());
                assert(last_dot(name@) == -1);
            }
        }
        if d <= 1 {
            return false;
        }
        let ext = to_lower(name.substring_char(d, n));
        let mut dotted = String::from_str(".");
        dotted.append(ext.as_str());
        self.allowed_ext(&dotted)
    }

    /// Whether the walk descends into the directory at `rel_path` called `name`.
    pub fn should_enter_dir(&self, rel_path: &str, name: &str) -> (r: bool)
        ensures
            r == enter_dir(self.globs(), rel_path@, name@),
    {
        !self.matches(rel_path) && !self.matches(name)
    }
}

/// Case-insensitive order of relative paths; paths that differ in case
/// alone are ordered as they are written.
pub open spec fn path_le(a: Seq<char>, b: Seq<char>) -> bool {
    if lower_of(a) == lower_of(b) {
        lex_le(a, b)
    } else {
        lex_le(lower_of(a), lower_of(b))
    }
}

fn path_le_exec(a: &String, b: &String) -> (r: bool)
    ensures
        r == path_le(a@, b@),
{
    let la = to_lower(a.as_str());
    let lb = to_lower(b.as_str());
    if la == lb {
        str_lex_le(a.as_str(), b.as_str())
    } else {
        str_lex_le(la.as_str(), lb.as_str())
    }
}

proof fn lemma_path_total(a: Seq<char>, b: Seq<char>)
    ensures
        path_le(a, b) || path_le(b, a),
{
    lemma_lex_total(a, b);
    lemma_lex_total(lower_of(a), lower_of(b));
}

proof fn lemma_path_transitive(a: Seq<char>, b: Seq<char>, c: Seq<char>)
    requires
        path_le(a, b),
        path_le(b, c),
    ensures
        path_le(a, c),
{
    let (la, lb, lc) = (lower_of(a), lower_of(b), lower_of(c));
    if la == lb && lb == lc {
        lemma_lex_transitive(a, b, c);
    } else if la != lb && lb != lc {
        lemma_lex_transitive(la, lb, lc);
        if la == lc {
            lemma_lex_antisymmetric(la, lb);
        }
    }
}

proof fn lemma_path_antisymmetric(a: Seq<char>, b: Seq<char>)
    requires
        path_le(a, b),
        path_le(b, a),
    ensures
        a == b,
{
    if lower_of(a) == lower_of(b) {
        lemma_lex_antisymmetric(a, b);
    } else {
        lemma_lex_antisymmetric(lower_of(a), lower_of(b));
    }
}

/// `x` placed after the last element of `t` that is not greater than it.
pub open spec fn insert_by_path(t: Seq<Seq<char>>, x: Seq<char>) -> Seq<Seq<char>>
    decreases t.len(),
{
    if t.len() == 0 {
        seq![x]
    } else if path_le(t.last(), x) {
        t.push(x)
    } else {
        insert_by_path(t.drop_last(), x).push(t.last())
    }
}

/// A stable sort of relative paths by their lower-cased text.
pub open spec fn sort_by_path(s: Seq<Seq<char>>) -> Seq<Seq<char>>
    decreases s.len(),
{
    if s.len() == 0 {
        s
    } else {
        insert_by_path(sort_by_path(s.drop_last()), s.last())
    }
}

proof fn lemma_insert_by_path_at(t: Seq<Seq<char>>, x: Seq<char>, p: int)
    requires
        0 <= p <= t.len(),
        p == 0 || path_le(t[p - 1], x),
        forall|j: int| p <= j < t.len() ==> !path_le(#[trigger] t[j], x),
    ensures
        insert_by_path(t, x) == t.insert(p, x),
    decreases t.len(),
{
    if t.len() == 0 {
        assert(t.insert(p, x) =~= seq![x]);
    } else if path_le(t.last(), x) {
        assert(t.insert(p, x) =~= t.push(x));
    } else {
        let d = t.drop_last();
        assert forall|j: int| p <= j < d.len() implies !path_le(#[trigger] d[j], x) by {
            assert(d[j] == t[j]);
        }
        if p > 0 {
            assert(d[p - 1] == t[p - 1]);
        }
        lemma_insert_by_path_at(d, x, p);
        assert(d.insert(p, x).push(t.last()) =~= t.insert(p, x));
    }
}

/// Sorts relative paths by their lower-cased text; equal keys keep their order.
pub fn sort_paths(files: Vec<String>) -> (r: Vec<String>)
    ensures
        views(r@) == sort_by_path(views(files@)),
{
    let ghost orig = views(files@);
    let mut rest = files;
    let mut sorted: Vec<String> = Vec::new();
    let n = rest.len();
    let mut k: usize = 0;
    while k < n
        invariant
            n == orig.len(),
            k <= n,
            views(rest@) == orig.subrange(k as int, n as int),
            views(sorted@) == sort_by_path(orig.subrange(0, k as int)),
        decreases n - k,
    {
        assert(views(rest@).len() == rest@.len());
        assert(views(rest@)[0] == rest@[0]@);
        let ghost rv = views(rest@);
        let x = rest.remove(0);
        assert(views(rest@) =~= rv.subrange(1, rv.len() as int));
        let mut p: usize = sorted.len();
        while p > 0 && !path_le_exec(&sorted[p - 1], &x)
            invariant
                p <= sorted@.len(),
                forall|j: int| p <= j < sorted@.len() ==> !path_le(#[trigger] views(sorted@)[j], x@),
            decreases p,
        {
            assert(views(sorted@)[p - 1] == sorted@[p - 1]@);
            p = p - 1;
        }
        proof {
            let t = views(sorted@);
            if p > 0 {
                assert(t[p - 1] == sorted@[p - 1]@);
            }
            lemma_insert_by_path_at(t, x@, p as int);
            assert(orig.subrange(0, k + 1).drop_last() =~= orig.subrange(0, k as int));
            assert(orig.subrange(0, k + 1).last() == orig[k as int]);
            assert(orig[k as int] == x@);
        }
        let ghost before = views(sorted@);
        sorted.insert(p, x);
        assert(views(sorted@) =~= before.insert(p as int, x@));
        assert(views(rest@) =~= orig.subrange(k + 1, n as int));
        k = k + 1;
    }
    assert(orig.subrange(0, n as int) =~= orig);
    sorted
}

/// The files taken from a project, in case-insensitive order of their
/// relative paths: `files` holds them under the root, `relative` as paths
/// relative to it, index by index.
pub struct CollectedFiles {
    pub files: Vec<String>,
    pub relative: Vec<String>,
    pub base_path: String,
}

/// Puts the files found under `base_path` (given relative to it) in their
/// final order.
pub fn collected_files(base_path: String, found: Vec<String>) -> (r: CollectedFiles)
    ensures
        views(r.relative@) == sort_by_path(views(found@)),
        views(r.files@) == sort_by_path(views(found@)).map_values(|p: Seq<char>| join_path(base_path@, p)),
        r.base_path@ == base_path@,
{
    let relative = sort_paths(found);
    let ghost want = views(relative@).map_values(|p: Seq<char>| join_path(base_path@, p));
    let mut files: Vec<String> = Vec::new();
    let mut i: usize = 0;
    while i < relative.len()
        invariant
            i <= relative@.len(),
            want.len() == relative@.len(),
            want == views(relative@).map_values(|p: Seq<char>| join_path(base_path@, p)),
            views(files@) == want.subrange(0, i as int),
        decreases relative@.len() - i,
    {
        let f = join_dir(base_path.as_str(), relative[i].as_str());
        let ghost before = views(files@);
        files.push(f);
        assert(views(relative@)[i as int] == relative@[i as int]@);
        assert(want[i as int] == join_path(base_path@, relative@[i as int]@));
        assert(views(files@) =~= before.push(f@));
        assert(views(files@) =~= want.subrange(0, i + 1));
        i = i + 1;
    }
    assert(want.subrange(0, i as int) =~= want);
    CollectedFiles { files, relative, base_path }
}

/// A file with a component that matches an exclude pattern is never taken,
/// whatever its extension: so nothing below a directory whose name matches
/// can be taken.
pub proof fn lemma_pruned_below_excluded_name(
    globs: Seq<Seq<char>>,
    exts: Seq<Seq<char>>,
    rel: Seq<char>,
    k: int,
)
    requires
        0 <= k < components(rel).len(),
        matches_any(globs, components(rel)[k]),
    ensures
        !include_file(globs, exts, rel),
{
}

/// A file whose name has no extension, or one that is not allow-listed, is
/// never taken, even where no pattern excludes it.
pub proof fn lemma_extension_gate(globs: Seq<Seq<char>>, exts: Seq<Seq<char>>, rel: Seq<char>)
    requires
        components(rel).len() > 0,
        match file_ext(components(rel).last()) {
            Some(e) => !exts.contains("."@ + lower_of(e)),
            None => true,
        },
    ensures
        !include_file(globs, exts, rel),
{
}

/// Nothing below a directory whose name matches an exclude pattern is taken,
/// whatever the names or extensions below it.
pub proof fn lemma_nothing_below_excluded_dir(
    globs: Seq<Seq<char>>,
    exts: Seq<Seq<char>>,
    dir: Seq<char>,
    rest: Seq<char>,
)
    requires
        components(dir).len() > 0,
        matches_any(globs, components(dir).last()),
    ensures
        !include_file(globs, exts, dir + seq!['/'] + rest),
{
    lemma_components_concat(dir, rest);
    let cs = components(dir + seq!['/'] + rest);
    let k = components(dir).len() - 1;
    assert(cs[k] == components(dir).last());
    lemma_pruned_below_excluded_name(globs, exts, dir + seq!['/'] + rest, k);
}

/// Neighbouring paths are in case-insensitive order.
pub open spec fn paths_sorted(s: Seq<Seq<char>>) -> bool {
    forall|i: int| 0 <= i < s.len() - 1 ==> path_le(#[trigger] s[i], s[i + 1])
}

proof fn lemma_insert_by_path(t: Seq<Seq<char>>, x: Seq<char>)
    requires
        paths_sorted(t),
    ensures
        paths_sorted(insert_by_path(t, x)),
        insert_by_path(t, x).to_multiset() == t.to_multiset().insert(x),
        insert_by_path(t, x).last() == x || (t.len() > 0 && insert_by_path(t, x).last() == t.last()),
    decreases t.len(),
{
    broadcast use vstd::seq_lib::to_multiset_build;

    let r = insert_by_path(t, x);
    if t.len() == 0 {
        assert(r =~= Seq::<Seq<char>>::empty().push(x));
        assert(t =~= Seq::<Seq<char>>::empty());
    } else if path_le(t.last(), x) {
    } else {
        let d = t.drop_last();
        assert forall|i: int| 0 <= i < d.len() - 1 implies path_le(#[trigger] d[i], d[i + 1]) by {
            assert(d[i] == t[i] && d[i + 1] == t[i + 1]);
        }
        lemma_insert_by_path(d, x);
        let m = insert_by_path(d, x);
        lemma_path_total(x, t.last());
        if m.last() != x {
            assert(t[t.len() - 2] == d.last());
        }
        assert(path_le(m.last(), t.last()));
        assert forall|i: int| 0 <= i < r.len() - 1 implies path_le(#[trigger] r[i], r[i + 1]) by {
            if i < m.len() - 1 {
                assert(r[i] == m[i] && r[i + 1] == m[i + 1]);
            } else {
                assert(r[i] == m.last());
            }
        }
        assert(t =~= d.push(t.last()));
        assert(r.to_multiset() =~= t.to_multiset().insert(x));
    }
}

/// Sorting relative paths puts them in case-insensitive order and neither
/// loses nor adds a path.
pub proof fn lemma_sorted_paths(s: Seq<Seq<char>>)
    ensures
        paths_sorted(sort_by_path(s)),
        sort_by_path(s).to_multiset() == s.to_multiset(),
    decreases s.len(),
{
    broadcast use vstd::seq_lib::to_multiset_build;

    if s.len() == 0 {
    } else {
        let d = s.drop_last();
        lemma_sorted_paths(d);
        lemma_insert_by_path(sort_by_path(d), s.last());
        assert(s =~= d.push(s.last()));
    }
}

/// Every path is in order with every later one.
pub open spec fn paths_pairwise_sorted(s: Seq<Seq<char>>) -> bool {
    forall|i: int, j: int| 0 <= i < j < s.len() ==> path_le(#[trigger] s[i], #[trigger] s[j])
}

proof fn lemma_paths_pairwise(s: Seq<Seq<char>>)
    requires
        paths_sorted(s),
    ensures
        paths_pairwise_sorted(s),
    decreases s.len(),
{
    if s.len() > 1 {
        let d = s.drop_last();
        assert forall|i: int| 0 <= i < d.len() - 1 implies path_le(#[trigger] d[i], d[i + 1]) by {
            assert(d[i] == s[i] && d[i + 1] == s[i + 1]);
        }
        lemma_paths_pairwise(d);
        assert forall|i: int, j: int| 0 <= i < j < s.len() implies path_le(#[trigger] s[i], #[trigger] s[j]) by {
            if j < s.len() - 1 {
                assert(d[i] == s[i] && d[j] == s[j]);
            } else if i < s.len() - 2 {
                assert(d[i] == s[i] && d[s.len() - 2] == s[s.len() - 2]);
                assert(path_le(s[s.len() - 2], s[s.len() - 1]));
                lemma_path_transitive(s[i], s[s.len() - 2], s[j]);
            }
        }
    }
}

proof fn lemma_sorted_unique(t1: Seq<Seq<char>>, t2: Seq<Seq<char>>)
    requires
        paths_pairwise_sorted(t1),
        paths_pairwise_sorted(t2),
        t1.to_multiset() == t2.to_multiset(),
    ensures
        t1 == t2,
    decreases t1.len(),
{
    broadcast use vstd::seq_lib::to_multiset_build, vstd::seq_lib::to_multiset_contains, vstd::seq_lib::to_multiset_len;

    if t1.len() == 0 {
        assert(t2.to_multiset().len() == 0);
        assert(t1 =~= t2);
    } else {
        assert(t2.len() == t1.to_multiset().len());
        let x1 = t1.last();
        let x2 = t2.last();
        assert(t1.contains(x1)) by {
            assert(t1[t1.len() - 1] == x1);
        }
        assert(t1.to_multiset().count(x1) > 0);
        assert(t2.contains(x1));
        let k2 = choose|k: int| 0 <= k < t2.len() && t2[k] == x1;
        assert(t2.contains(x2)) by {
            assert(t2[t2.len() - 1] == x2);
        }
        assert(t2.to_multiset().count(x2) > 0);
        assert(t1.contains(x2));
        let k1 = choose|k: int| 0 <= k < t1.len() && t1[k] == x2;
        if k2 < t2.len() - 1 {
            assert(path_le(t2[k2], t2[t2.len() - 1]));
        } else {
            lemma_path_total(x1, x2);
        }
        if k1 < t1.len() - 1 {
            assert(path_le(t1[k1], t1[t1.len() - 1]));
        } else {
            lemma_path_total(x1, x2);
        }
        assert(path_le(x1, x2) && path_le(x2, x1));
        lemma_path_antisymmetric(x1, x2);
        let d1 = t1.drop_last();
        let d2 = t2.drop_last();
        assert(t1 =~= d1.push(x1));
        assert(t2 =~= d2.push(x1));
        assert(d1.to_multiset() =~= d2.to_multiset()) by {
            assert forall|y: Seq<char>| d1.to_multiset().count(y) == d2.to_multiset().count(y) by {
                assert(d1.push(x1).to_multiset().count(y) == d2.push(x1).to_multiset().count(y));
            }
        }
        assert forall|i: int, j: int| 0 <= i < j < d1.len() implies path_le(#[trigger] d1[i], #[trigger] d1[j]) by {
            assert(d1[i] == t1[i] && d1[j] == t1[j]);
        }
        assert forall|i: int, j: int| 0 <= i < j < d2.len() implies path_le(#[trigger] d2[i], #[trigger] d2[j]) by {
            assert(d2[i] == t2[i] && d2[j] == t2[j]);
        }
        lemma_sorted_unique(d1, d2);
    }
}

/// The order of the collected paths does not depend on the order in which
/// they were found: any two listings of the same paths sort alike.
pub proof fn lemma_sort_ignores_walk_order(s1: Seq<Seq<char>>, s2: Seq<Seq<char>>)
    requires
        s1.to_multiset() == s2.to_multiset(),
    ensures
        sort_by_path(s1) == sort_by_path(s2),
{
    lemma_sorted_paths(s1);
    lemma_sorted_paths(s2);
    lemma_paths_pairwise(sort_by_path(s1));
    lemma_paths_pairwise(sort_by_path(s2));
    lemma_sorted_unique(sort_by_path(s1), sort_by_path(s2));
}

} // verus!
