//! The user's selection: output format, features, names to ignore or exclude,
//! traversal depth and the other switches.
use vstd::prelude::*;

use crate::error::OutdatedError;
use crate::text::{contains_text, holds_text};

verus! {

/// Output formatting.
#[derive(Clone, Copy, Debug, PartialEq, Eq, Structural, Default)]
pub enum Format {
    #[default]
    List,
    Json,
}

/// Output coloring.
#[derive(Clone, Copy, Debug, PartialEq, Eq, Structural, Default)]
pub enum Color {
    #[default]
    Auto,
    Never,
    Always,
}

impl Format {
    /// The lower-case name of the format.
    pub fn name(&self) -> (r: &'static str)
        ensures
            r@ == (match self {
                Format::List => seq!['l', 'i', 's', 't'],
                Format::Json => seq!['j', 's', 'o', 'n'],
            }),
    {
        match self {
            Format::List => {
                proof { reveal_strlit("list"); }
                "list"
            },
            Format::Json => {
                proof { reveal_strlit("json"); }
                "json"
            },
        }
    }
}

impl Color {
    /// The lower-case name of the coloring.
    pub fn name(&self) -> (r: &'static str)
        ensures
            r@ == (match self {
                Color::Auto => seq!['a', 'u', 't', 'o'],
                Color::Never => seq!['n', 'e', 'v', 'e', 'r'],
                Color::Always => seq!['a', 'l', 'w', 'a', 'y', 's'],
            }),
    {
        match self {
            Color::Auto => {
                proof { reveal_strlit("auto"); }
                "auto"
            },
            Color::Never => {
                proof { reveal_strlit("never"); }
                "never"
            },
            Color::Always => {
                proof { reveal_strlit("always"); }
                "always"
            },
        }
    }
}

/// Options from the command line.
#[derive(Clone, Debug, PartialEq, Default)]
pub struct Options {
    /// Output formatting
    pub format: Format,
    /// Output coloring
    pub color: Color,
    /// Features to enable
    pub features: Vec<String>,
    /// Dependencies to leave out of the output
    pub ignore: Vec<String>,
    /// Dependencies to remove from the temporary manifests
    pub exclude: Vec<String>,
    /// Path to the manifest to use
    pub manifest_path: Option<String>,
    /// Suppresses warnings
    pub quiet: bool,
    /// Verbosity level
    pub verbose: u8,
    /// The exit code to return when new versions are found
    pub exit_code: i32,
    /// Packages to report on
    pub packages: Vec<String>,
    /// Package to treat as the root package
    pub root: Option<String>,
    /// How deep in the dependency graph to look; all of it when absent
    pub depth: Option<i32>,
    /// Only check root dependencies
    pub root_deps_only: bool,
    /// Report on every workspace member
    pub workspace: bool,
    /// Ignore pre-release channels for latest updates
    pub aggressive: bool,
    /// Ignore relative dependencies outside the workspace
    pub workspace_only: bool,
    /// Run without network access
    pub offline: bool,
}

/// Whether a depth bound is given and negative.
pub open spec fn negative_depth(depth: Option<i32>) -> bool {
    match depth {
        Some(d) => d < 0,
        None => false,
    }
}

/// Whether `c` is ASCII whitespace.
pub open spec fn is_ascii_space(c: char) -> bool {
    c == ' ' || c == '\t' || c == '\n' || c == '\r' || c == '\x0C'
}

/// The first index at or after `i` that holds ASCII whitespace, or the length.
pub open spec fn word_end(s: Seq<char>, i: int) -> int
    decreases s.len() - i,
{
    if i < 0 || i >= s.len() {
        s.len() as int
    } else if is_ascii_space(s[i]) {
        i
    } else {
        word_end(s, i + 1)
    }
}

/// The whitespace-separated words of `s` from index `i` on.
pub open spec fn words_from(s: Seq<char>, i: int) -> Seq<Seq<char>>
    decreases s.len() - i,
{
    if i < 0 || i >= s.len() {
        seq![]
    } else if is_ascii_space(s[i]) {
        words_from(s, i + 1)
    } else {
        let e = word_end(s, i);
        if e <= i || e > s.len() {
            seq![]
        } else {
            seq![s.subrange(i, e)] + words_from(s, e)
        }
    }
}

/// The words of the first `n` strings of `v`, in order.
pub open spec fn words_of_all(v: Seq<String>, n: int) -> Seq<Seq<char>>
    decreases n,
{
    if n <= 0 {
        seq![]
    } else {
        words_of_all(v, n - 1) + words_from(v[n - 1]@, 0)
    }
}

/// The texts of a list of strings.
pub open spec fn texts(v: Seq<String>) -> Seq<Seq<char>> {
    v.map_values(|x: String| x@)
}

proof fn lemma_word_end_bounds(s: Seq<char>, i: int)
    requires
        0 <= i <= s.len(),
    ensures
        i <= word_end(s, i) <= s.len(),
    decreases s.len() - i,
{
    if i < s.len() && !is_ascii_space(s[i]) {
        lemma_word_end_bounds(s, i + 1);
    }
}

fn space_at(s: &str, i: usize) -> (r: bool)
    requires
        i < s@.len(),
    ensures
        r == is_ascii_space(s@[i as int]),
{
    let c = s.get_char(i);
    c == ' ' || c == '\t' || c == '\n' || c == '\r' || c == '\x0C'
}

/// Splits every element on ASCII whitespace and keeps the words, in order.
pub fn split_elem_by_ascii_whitespace(slice: &[String]) -> (r: Vec<String>)
    ensures
        texts(r@) == words_of_all(slice@, slice@.len() as int),
{
    let mut out: Vec<String> = Vec::new();
    let mut k: usize = 0;
    while k < slice.len()
        invariant
            k <= slice@.len(),
            texts(out@) == words_of_all(slice@, k as int),
        decreases slice@.len() - k,
    {
        let s = slice[k].as_str();
        let n = s.unicode_len();
        let mut i: usize = 0;
        assert(words_of_all(slice@, k + 1) == words_of_all(slice@, k as int) + words_from(s@, 0));
        while i < n
            invariant
                n == s@.len(),
                i <= n,
                s@ == slice@[k as int]@,
                texts(out@) + words_from(s@, i as int) == words_of_all(slice@, k + 1),
            decreases n - i,
        {
            if space_at(s, i) {
                i = i + 1;
            } else {
                let mut j: usize = i;
                while j < n && !space_at(s, j)
                    invariant
                        n == s@.len(),
                        i <= j <= n,
                        word_end(s@, i as int) == word_end(s@, j as int),
                    decreases n - j,
                {
                    j = j + 1;
                }
                proof {
                    lemma_word_end_bounds(s@, i as int + 1);
                }
                let word = String::from_str(s.substring_char(i, j));
                let ghost before = out@;
                out.push(word);
                proof {
                    assert(texts(out@) =~= texts(before).push(s@.subrange(i as int, j as int)));
                    assert(words_from(s@, i as int) == seq![s@.subrange(i as int, j as int)]
                        + words_from(s@, j as int));
                    assert(texts(out@) + words_from(s@, j as int) =~= texts(before)
                        + words_from(s@, i as int));
                }
                i = j;
            }
        }
        assert(texts(out@) =~= texts(out@) + words_from(s@, n as int));
        k = k + 1;
    }
    out
}

impl Options {
    /// All features are enabled when none is named.
    pub fn all_features(&self) -> (r: bool)
        ensures
            r == (self.features@.len() == 0),
    {
        self.features.len() == 0
    }

    /// Default features are off when some features are named and `default` is
    /// not one of them.
    pub fn no_default_features(&self) -> (r: bool)
        ensures
            r == !(self.features@.len() == 0 || holds_text(
                self.features@,
                seq!['d', 'e', 'f', 'a', 'u', 'l', 't'],
            )),
    {
        let default = "default";
        proof {
            reveal_strlit("default");
            assert(default@ =~= seq!['d', 'e', 'f', 'a', 'u', 'l', 't']);
        }
        !(self.features.len() == 0 || contains_text(&self.features, default))
    }

    /// The lock file is never required to be up to date.
    pub fn locked(&self) -> (r: bool)
        ensures
            !r,
    {
        false
    }

    /// Network and lock file updates are never forbidden together.
    pub fn frozen(&self) -> (r: bool)
        ensures
            !r,
    {
        false
    }

    /// Applies the rules that follow argument parsing: list arguments are split
    /// on whitespace, `root_deps_only` means a depth of one, and
    /// `workspace_only` means both. A depth that stays negative is refused.
    pub fn normalized(self) -> (r: Result<Options, OutdatedError>)
        ensures
            (r is Err) <==> (!(self.root_deps_only || self.workspace_only) && negative_depth(
                self.depth,
            )),
            r matches Err(e) ==> e == OutdatedError::InvalidDepth,
            r matches Ok(r) ==> {
                &&& texts(r.exclude@) == words_of_all(self.exclude@, self.exclude@.len() as int)
                &&& texts(r.features@) == words_of_all(self.features@, self.features@.len() as int)
                &&& texts(r.ignore@) == words_of_all(self.ignore@, self.ignore@.len() as int)
                &&& texts(r.packages@) == words_of_all(self.packages@, self.packages@.len() as int)
                &&& r.root_deps_only == (self.root_deps_only || self.workspace_only)
                &&& r.depth == (if self.root_deps_only || self.workspace_only {
                    Some(1i32)
                } else {
                    self.depth
                })
                &&& r.format == self.format
                &&& r.color == self.color
                &&& r.manifest_path == self.manifest_path
                &&& r.quiet == self.quiet
                &&& r.verbose == self.verbose
                &&& r.exit_code == self.exit_code
                &&& r.root == self.root
                &&& r.workspace == self.workspace
                &&& r.aggressive == self.aggressive
                &&& r.workspace_only == self.workspace_only
                &&& r.offline == self.offline
            },
    {
        let mut opts = self;
        opts.exclude = split_elem_by_ascii_whitespace(opts.exclude.as_slice());
        opts.features = split_elem_by_ascii_whitespace(opts.features.as_slice());
        opts.ignore = split_elem_by_ascii_whitespace(opts.ignore.as_slice());
        opts.packages = split_elem_by_ascii_whitespace(opts.packages.as_slice());
        if opts.root_deps_only {
            opts.depth = Some(1);
        }
        if opts.workspace_only {
            opts.depth = Some(1);
            opts.root_deps_only = true;
        }
        if let Some(d) = opts.depth {
            if d < 0 {
                return Err(OutdatedError::InvalidDepth);
            }
        }
        Ok(opts)
    }
}

} // verus!
