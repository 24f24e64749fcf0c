//! The resolved command-line settings and the decisions taken from them.
use vstd::prelude::*;
use crate::text::{alnum, is_alnum, is_prefix, lower_of, push_char, starts_with, to_lower};
use crate::types::{
    collect_extensions, contains_string, default_exclude_list, default_excludes, in_union, known_type, views,
    TypeError,
};

verus! {

/// A subcommand.
pub enum Commands {
    /// Lists the project types.
    ListTypes,
}

/// The settings of one run.
pub struct Cli {
    pub command: Option<Commands>,
    pub directory: String,
    pub types: Option<Vec<String>>,
    pub extensions: Option<Vec<String>>,
    pub excludes: Option<Vec<String>>,
    pub output: Option<String>,
    pub name: Option<String>,
    pub no_tree: bool,
    pub no_default_excludes: bool,
    pub verbose: bool,
}

/// Why the settings cannot be run.
pub enum CliError {
    /// Neither project types nor extensions were given.
    NothingSelected,
    /// The directory does not exist.
    DirectoryMissing(String),
    /// The path exists but is no directory.
    NotADirectory(String),
}

/// A character that may stay in a file name; others become `_`.
pub open spec fn safe_char(c: char) -> char {
    if alnum(c) || c == '-' || c == '_' {
        c
    } else {
        '_'
    }
}

pub open spec fn safe_name(s: Seq<char>) -> Seq<char> {
    s.map_values(|c: char| safe_char(c))
}

/// `name` placed in directory `dir`.
pub open spec fn join_path(dir: Seq<char>, name: Seq<char>) -> Seq<char> {
    if dir.len() == 0 {
        name
    } else if dir.last() == '/' {
        dir + name
    } else {
        dir + "/"@ + name
    }
}

/// Places `name` in directory `dir`, with one `/` between them.
pub fn join_dir(dir: &str, name: &str) -> (r: String)
    ensures
        r@ == join_path(dir@, name@),
{
    let dn = dir.unicode_len();
    if dn == 0 {
        String::from_str(name)
    } else if dir.get_char(dn - 1) == '/' {
        let mut r = String::from_str(dir);
        r.append(name);
        r
    } else {
        let mut r = String::from_str(dir);
        r.append("/");
        r.append(name);
        r
    }
}

/// An extension as given, lower-cased and with a leading dot.
pub open spec fn dotted_ext(e: Seq<char>) -> Seq<char> {
    if is_prefix("."@, e) {
        lower_of(e)
    } else {
        "."@ + lower_of(e)
    }
}

/// Lower-cases an extension and puts a dot in front where it has none.
pub fn normalize_extension(ext: &str) -> (r: String)
    ensures
        r@ == dotted_ext(ext@),
{
    let lower = to_lower(ext);
    if starts_with(ext, ".") {
        lower
    } else {
        let mut r = String::from_str(".");
        r.append(lower.as_str());
        r
    }
}

impl Cli {
    /// Checks the settings, given what the file system says of the directory.
    pub fn validate(&self, dir_exists: bool, dir_is_dir: bool) -> (r: Result<(), CliError>)
        ensures
            self.command is Some ==> r is Ok,
            self.command is None ==> match r {
                Ok(()) => (self.types is Some || self.extensions is Some) && dir_exists && dir_is_dir,
                Err(CliError::NothingSelected) => self.types is None && self.extensions is None,
                Err(CliError::DirectoryMissing(d)) => (self.types is Some || self.extensions is Some)
                    && !dir_exists && d@ == self.directory@,
                Err(CliError::NotADirectory(d)) => (self.types is Some || self.extensions is Some)
                    && dir_exists && !dir_is_dir && d@ == self.directory@,
            },
    {
        if self.command.is_some() {
            return Ok(());
        }
        if self.types.is_none() && self.extensions.is_none() {
            return Err(CliError::NothingSelected);
        }
        if !dir_exists {
            return Err(CliError::DirectoryMissing(self.directory.clone()));
        }
        if !dir_is_dir {
            return Err(CliError::NotADirectory(self.directory.clone()));
        }
        Ok(())
    }

    /// The project's name: the one given, else the directory's own name,
    /// else `project`.
    pub fn project_name(&self, dir_name: Option<String>) -> (r: String)
        ensures
            r@ == self.project_name_spec(dir_name),
    {
        match &self.name {
            Some(n) => n.clone(),
            None => match dir_name {
                Some(d) => d,
                None => String::from_str("project"),
            },
        }
    }

    /// Where the document goes: the path given, else `<name>_code.md` in the
    /// project directory, with every character of the name that is not
    /// alphanumeric, `-` or `_` turned into `_`.
    pub fn output_path(&self, dir_name: Option<String>) -> (r: String)
        ensures
            r@ == match self.output {
                Some(o) => o@,
                None => join_path(
                    self.directory@,
                    safe_name(self.project_name_spec(dir_name)) + "_code.md"@,
                ),
            },
    {
        match &self.output {
            Some(o) => o.clone(),
            None => {
                let name = self.project_name(dir_name);
                let n = name.as_str().unicode_len();
                let mut safe = String::new();
                let mut i: usize = 0;
                while i < n
                    invariant
                        n == name@.len(),
                        i <= n,
                        safe@ == safe_name(name@.subrange(0, i as int)),
                    decreases n - i,
                {
                    let c = name.as_str().get_char(i);
                    if is_alnum(c) || c == '-' || c == '_' {
                        push_char(&mut safe, c);
                    } else {
                        push_char(&mut safe, '_');
                    }
                    assert(safe@ =~= safe_name(name@.subrange(0, i + 1)));
                    i = i + 1;
                }
                assert(name@.subrange(0, n as int) =~= name@);
                safe.append("_code.md");
                join_dir(self.directory.as_str(), safe.as_str())
            },
        }
    }

    pub open spec fn project_name_spec(&self, dir_name: Option<String>) -> Seq<char> {
        match self.name {
            Some(n) => n@,
            None => match dir_name {
                Some(d) => d@,
                None => "project"@,
            },
        }
    }

    /// The exclude patterns of the run: the defaults unless turned off, then
    /// those given.
    pub fn exclude_patterns(&self) -> (r: Vec<String>)
        ensures
            views(r@) == (if self.no_default_excludes {
                Seq::empty()
            } else {
                default_exclude_list()
            }) + match self.excludes {
                Some(x) => views(x@),
                None => Seq::empty(),
            },
    {
        let mut r: Vec<String> = if self.no_default_excludes {
            Vec::new()
        } else {
            default_excludes()
        };
        let ghost start = views(r@);
        match &self.excludes {
            Some(x) => {
                let mut i: usize = 0;
                while i < x.len()
                    invariant
                        i <= x@.len(),
                        views(r@) == start + views(x@).subrange(0, i as int),
                    decreases x@.len() - i,
                {
                    let ghost before = views(r@);
                    r.push(x[i].clone());
                    assert(views(r@) =~= before.push(x@[i as int]@));
                    assert(views(x@).subrange(0, i + 1) =~= views(x@).subrange(0, i as int).push(x@[i as int]@));
                    i = i + 1;
                }
                assert(views(x@).subrange(0, i as int) =~= views(x@));
            },
            None => {
                assert(views(r@) =~= start + Seq::<Seq<char>>::empty());
            },
        }
        r
    }

    /// The allow-listed extensions of the run, without repetition: those of
    /// the named project types, then those given, normalized.
    pub fn extension_set(&self) -> (r: Result<Vec<String>, TypeError>)
        ensures
            match r {
                Ok(v) => {
                    &&& forall|i: int, j: int| 0 <= i < j < v@.len() ==> v@[i]@ != v@[j]@
                    &&& forall|e: Seq<char>| views(v@).contains(e) <==> (match self.types {
                        Some(t) => in_union(views(t@), e),
                        None => false,
                    } || match self.extensions {
                        Some(x) => exists|k: int| 0 <= k < x@.len() && e == dotted_ext(#[trigger] x@[k]@),
                        None => false,
                    })
                },
                Err(TypeError::UnknownType(n)) => match self.types {
                    Some(t) => exists|j: int|
                        0 <= j < t@.len() && t@[j] == n && !known_type(lower_of(n@))
                            && forall|k: int| 0 <= k < j ==> known_type(lower_of(#[trigger] t@[k]@)),
                    None => false,
                },
            },
    {
        let mut set: Vec<String> = match &self.types {
            Some(t) => match collect_extensions(t) {
                Ok(v) => v,
                Err(e) => {
                    return Err(e);
                },
            },
            None => Vec::new(),
        };
        proof {
            assert forall|i: int, j: int| 0 <= i < j < set@.len() implies set@[i]@ != set@[j]@ by {
                assert(views(set@)[i] == set@[i]@ && views(set@)[j] == set@[j]@);
            }
        }
        let ghost start = views(set@);
        match &self.extensions {
            Some(x) => {
                let mut k: usize = 0;
                while k < x.len()
                    invariant
                        k <= x@.len(),
                        forall|i: int, j: int| 0 <= i < j < set@.len() ==> set@[i]@ != set@[j]@,
                        forall|e: Seq<char>| #[trigger] views(set@).contains(e) <==> (start.contains(e) || exists|m: int| 0 <= m < k && e == dotted_ext(#[trigger] x@[m]@)),
                    decreases x@.len() - k,
                {
                    let d = normalize_extension(x[k].as_str());
                    let ghost prev = views(set@);
                    let found = contains_string(&set, &d);
                    if !found {
                        set.push(d);
                        assert(views(set@) =~= prev.push(d@));
                        proof {
                            assert forall|i: int, j: int| 0 <= i < j < set@.len() implies set@[i]@ != set@[j]@ by {
                                if j == set@.len() - 1 {
                                    assert(prev[i] == set@[i]@);
                                }
                            }
                        }
                    }
                    proof {
                        assert forall|e: Seq<char>| #[trigger] views(set@).contains(e) <==> (start.contains(e) || exists|m: int| 0 <= m < k + 1 && e == dotted_ext(#[trigger] x@[m]@)) by {
                            if found {
                                assert(views(set@) == prev);
                            } else {
                                vstd::seq_lib::lemma_seq_contains_after_push(prev, d@, e);
                            }
                            if e == d@ {
                                assert(e == dotted_ext(x@[k as int]@));
                            }
                            if exists|m: int| 0 <= m < k + 1 && e == dotted_ext(#[trigger] x@[m]@) {
                                let m = choose|m: int| 0 <= m < k + 1 && e == dotted_ext(#[trigger] x@[m]@);
                                if m == k {
                                    assert(e == d@);
                                }
                            }
                        }
                    }
                    k = k + 1;
                }
            },
            None => {},
        }
        Ok(set)
    }
}

} // verus!
