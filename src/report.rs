//! The report: one row per cached path whose status changed, filtered by the
//! user's selections, labelled and de-duplicated.
use vstd::prelude::*;

use crate::error::OutdatedError;
use crate::options::Options;
use crate::pkg_status::{changed, status_text};
use crate::text::{contains_text, holds_text, same_text};
use crate::version::version_text;
use crate::workspace::{DepKind, DependencyEdge, ElaborateWorkspace, StatusEntry};

verus! {

/// One row of the report.
#[derive(Clone, Debug)]
pub struct Metadata {
    /// The package name, prefixed with its parent's name where that is needed.
    pub name: String,
    /// The version in the current resolution.
    pub project: String,
    /// The compatible status.
    pub compat: String,
    /// The latest status.
    pub latest: String,
    /// The kind of the dependency; none for the root.
    pub kind: Option<String>,
    /// The platform of the dependency; none for the root or where unrestricted.
    pub platform: Option<String>,
}

/// The report for one root package.
#[derive(Clone, Debug)]
pub struct CrateMetadata {
    pub crate_name: String,
    pub dependencies: Vec<Metadata>,
}

/// What a row says.
pub type RowView = (Seq<char>, Seq<char>, Seq<char>, Seq<char>, Option<Seq<char>>, Option<Seq<char>>);

pub open spec fn opt_text(o: Option<String>) -> Option<Seq<char>> {
    match o {
        Some(s) => Some(s@),
        None => None,
    }
}

impl View for Metadata {
    type V = RowView;

    open spec fn view(&self) -> RowView {
        (self.name@, self.project@, self.compat@, self.latest@, opt_text(self.kind), opt_text(
            self.platform,
        ))
    }
}

/// The name of a dependency kind.
pub open spec fn kind_text(k: DepKind) -> Seq<char> {
    match k {
        DepKind::Normal => seq!['N', 'o', 'r', 'm', 'a', 'l'],
        DepKind::Development => seq!['D', 'e', 'v', 'e', 'l', 'o', 'p', 'm', 'e', 'n', 't'],
        DepKind::Build => seq!['B', 'u', 'i', 'l', 'd'],
    }
}

impl DepKind {
    /// The name of the kind, as the report shows it.
    pub fn name(&self) -> (r: String)
        ensures
            r@ == kind_text(*self),
    {
        match self {
            DepKind::Normal => {
                let r = String::from_str("Normal");
                proof { reveal_strlit("Normal"); }
                r
            },
            DepKind::Development => {
                let r = String::from_str("Development");
                proof { reveal_strlit("Development"); }
                r
            },
            DepKind::Build => {
                let r = String::from_str("Build");
                proof { reveal_strlit("Build"); }
                r
            },
        }
    }
}

impl ElaborateWorkspace {
    /// Every cached path is non-empty and names packages.
    pub open spec fn cache_paths_valid(&self) -> bool {
        forall|k: int| 0 <= k < self.pkg_status@.len() ==> self.path_valid((#[trigger] self.pkg_status@[k]).0@)
    }

    pub open spec fn path_valid(&self, path: Seq<usize>) -> bool {
        &&& path.len() >= 1
        &&& forall|i: int| 0 <= i < path.len() ==> #[trigger] path[i] < self.pkgs@.len()
    }

    /// The first edge of `edges`, from index `j` on, that leads to `child`.
    pub open spec fn edge_from(&self, edges: Seq<(usize, DependencyEdge)>, child: usize, j: int) -> Option<
        DependencyEdge,
    >
        decreases edges.len() - j,
    {
        if j < 0 || j >= edges.len() {
            None
        } else if edges[j].0 == child {
            Some(edges[j].1)
        } else {
            self.edge_from(edges, child, j + 1)
        }
    }

    /// The edge from `parent` to `child`.
    pub open spec fn edge_between(&self, parent: usize, child: usize) -> Option<DependencyEdge> {
        self.edge_from(self.deps_of(parent), child, 0)
    }

    /// Whether the entry's path is reported: no package on it is ignored or
    /// excluded, in workspace mode none after the root is a member, a side
    /// changed, and the package passes the package filter.
    pub open spec fn reported(&self, e: StatusEntry, options: Options) -> bool {
        let path = e.0@;
        &&& forall|i: int| 0 <= i < path.len() ==> !holds_text(options.ignore@, self.name_of(#[trigger] path[i]))
        &&& forall|i: int| 0 <= i < path.len() ==> !holds_text(options.exclude@, self.name_of(#[trigger] path[i]))
        &&& self.workspace_mode ==> forall|i: int| 1 <= i < path.len() ==> !self.members@.contains(#[trigger] path[i])
        &&& (changed(e.1.compat@) || changed(e.1.latest@))
        &&& (options.packages@.len() == 0 || holds_text(options.packages@, self.name_of(path.last())))
    }

    /// The label of a path: the bare name in workspace mode, for the root, or
    /// below the current package; `parent->name` otherwise.
    pub open spec fn label(&self, path: Seq<usize>) -> Seq<char> {
        let name = self.name_of(path.last());
        if path.len() < 2 {
            name
        } else {
            let parent = path[path.len() - 2];
            if self.workspace_mode || self.current == Some(parent) {
                name
            } else {
                self.name_of(parent) + seq!['-', '>'] + name
            }
        }
    }

    /// The row of an entry.
    pub open spec fn row_of(&self, e: StatusEntry) -> RowView {
        let path = e.0@;
        let last = path.last();
        let (kind, platform) = if path.len() < 2 {
            (None, None)
        } else {
            match self.edge_between(path[path.len() - 2], last) {
                Some(edge) => (Some(kind_text(edge.kind)), opt_text(edge.platform)),
                None => (None, None),
            }
        };
        (
            self.label(path),
            version_text(self.pkgs@[last as int].version@),
            status_text(e.1.compat@),
            status_text(e.1.latest@),
            kind,
            platform,
        )
    }

    /// The rows of the first `n` cache entries, in cache order.
    pub open spec fn rows_upto(&self, options: Options, n: int) -> Seq<RowView>
        decreases n,
    {
        if n <= 0 {
            seq![]
        } else {
            let e = self.pkg_status@[n - 1];
            if self.reported(e, options) {
                self.rows_upto(options, n - 1).push(self.row_of(e))
            } else {
                self.rows_upto(options, n - 1)
            }
        }
    }
}

/// What a list of rows says.
pub open spec fn row_views(v: Seq<Metadata>) -> Seq<RowView> {
    v.map_values(|m: Metadata| m@)
}

fn copy_text(o: &Option<String>) -> (r: Option<String>)
    ensures
        opt_text(r) == opt_text(*o),
{
    match o {
        Some(s) => Some(String::from_str(s.as_str())),
        None => None,
    }
}

impl ElaborateWorkspace {
    /// The first edge from `parent` to `child`.
    fn find_edge(&self, parent: usize, child: usize) -> (r: Option<&DependencyEdge>)
        requires
            self.wf(),
            parent < self.pkgs@.len(),
        ensures
            match r {
                Some(e) => self.edge_between(parent, child) == Some(*e),
                None => self.edge_between(parent, child) is None,
            },
    {
        let deps = &self.pkg_deps[parent];
        let mut j: usize = 0;
        while j < deps.len()
            invariant
                deps@ == self.deps_of(parent),
                j <= deps@.len(),
                self.edge_between(parent, child) == self.edge_from(deps@, child, j as int),
            decreases deps@.len() - j,
        {
            if deps[j].0 == child {
                return Some(&deps[j].1);
            }
            j = j + 1;
        }
        None
    }

    fn path_in_range(&self, path: &Vec<usize>) -> (r: bool)
        ensures
            r == self.path_valid(path@),
    {
        if path.len() == 0 {
            return false;
        }
        let mut i: usize = 0;
        while i < path.len()
            invariant
                i <= path@.len(),
                path@.len() >= 1,
                forall|j: int| 0 <= j < i ==> #[trigger] path@[j] < self.pkgs@.len(),
            decreases path@.len() - i,
        {
            if path[i] >= self.pkgs.len() {
                return false;
            }
            i = i + 1;
        }
        true
    }

    fn entry_reported(&self, k: usize, options: &Options) -> (r: bool)
        requires
            self.wf(),
            k < self.pkg_status@.len(),
            self.path_valid(self.pkg_status@[k as int].0@),
        ensures
            r == self.reported(self.pkg_status@[k as int], *options),
    {
        let path = &self.pkg_status[k].0;
        let status = &self.pkg_status[k].1;
        let mut i: usize = 0;
        while i < path.len()
            invariant
                self.wf(),
                k < self.pkg_status@.len(),
                path@ == self.pkg_status@[k as int].0@,
                self.path_valid(path@),
                i <= path@.len(),
                forall|j: int| 0 <= j < i ==> !holds_text(options.ignore@, self.name_of(#[trigger] path@[j])),
                forall|j: int| 0 <= j < i ==> !holds_text(options.exclude@, self.name_of(#[trigger] path@[j])),
            decreases path@.len() - i,
        {
            if contains_text(&options.ignore, self.pkgs[path[i]].name.as_str()) {
                assert(holds_text(options.ignore@, self.name_of(path@[i as int])));
                return false;
            }
            if contains_text(&options.exclude, self.pkgs[path[i]].name.as_str()) {
                assert(holds_text(options.exclude@, self.name_of(path@[i as int])));
                return false;
            }
            i = i + 1;
        }
        if self.workspace_mode {
            let mut i: usize = 1;
            while i < path.len()
                invariant
                    self.workspace_mode,
                    k < self.pkg_status@.len(),
                    path@ == self.pkg_status@[k as int].0@,
                    1 <= i <= path@.len(),
                    forall|j: int| 1 <= j < i ==> !self.members@.contains(#[trigger] path@[j]),
                decreases path@.len() - i,
            {
                if crate::workspace::contains_index(&self.members, path[i]) {
                    assert(self.members@.contains(path@[i as int]));
                    return false;
                }
                i = i + 1;
            }
        }
        if !status.any_changed() {
            return false;
        }
        let last = path[path.len() - 1];
        options.packages.len() == 0 || contains_text(&options.packages, self.pkgs[last].name.as_str())
    }

    fn row(&self, k: usize) -> (r: Metadata)
        requires
            self.wf(),
            k < self.pkg_status@.len(),
            self.path_valid(self.pkg_status@[k as int].0@),
        ensures
            r@ == self.row_of(self.pkg_status@[k as int]),
    {
        let path = &self.pkg_status[k].0;
        let status = &self.pkg_status[k].1;
        let n = path.len();
        let last = path[n - 1];
        let name = self.pkgs[last].name.as_str();
        let mut kind: Option<String> = None;
        let mut platform: Option<String> = None;
        let label = if n < 2 {
            String::from_str(name)
        } else {
            let parent = path[n - 2];
            match self.find_edge(parent, last) {
                Some(edge) => {
                    kind = Some(edge.kind.name());
                    platform = copy_text(&edge.platform);
                },
                None => {},
            }
            if self.workspace_mode || self.current == Some(parent) {
                String::from_str(name)
            } else {
                let mut l = String::from_str(self.pkgs[parent].name.as_str());
                l.append("->");
                l.append(name);
                proof {
                    reveal_strlit("->");
                }
                l
            }
        };
        let r = Metadata {
            name: label,
            project: self.pkgs[last].version.to_text(),
            compat: status.compat.to_text(),
            latest: status.latest.to_text(),
            kind,
            platform,
        };
        assert(r@.0 =~= self.label(path@));
        r
    }

    /// The rows of the report, in cache order, before de-duplication. Fails
    /// only on a cached path that is empty or names no package.
    pub fn report_rows(&self, options: &Options) -> (r: Result<Vec<Metadata>, OutdatedError>)
        requires
            self.wf(),
        ensures
            self.cache_paths_valid() <==> r is Ok,
            r matches Ok(rows) ==> row_views(rows@) == self.rows_upto(
                *options,
                self.pkg_status@.len() as int,
            ),
            r matches Err(e) ==> e == OutdatedError::EmptyPath || e
                == OutdatedError::NoMatchingDependency,
    {
        let mut rows: Vec<Metadata> = Vec::new();
        let mut k: usize = 0;
        while k < self.pkg_status.len()
            invariant
                self.wf(),
                k <= self.pkg_status@.len(),
                forall|j: int| 0 <= j < k ==> self.path_valid((#[trigger] self.pkg_status@[j]).0@),
                row_views(rows@) == self.rows_upto(*options, k as int),
            decreases self.pkg_status@.len() - k,
        {
            if !self.path_in_range(&self.pkg_status[k].0) {
                if self.pkg_status[k].0.len() == 0 {
                    return Err(OutdatedError::EmptyPath);
                }
                return Err(OutdatedError::NoMatchingDependency);
            }
            if self.entry_reported(k, options) {
                let row = self.row(k);
                let ghost before = rows@;
                rows.push(row);
                assert(row_views(rows@) =~= row_views(before).push(row@));
            }
            k = k + 1;
        }
        Ok(rows)
    }
}

/// Lexicographic order of texts, character by character.
pub open spec fn text_lt(a: Seq<char>, b: Seq<char>) -> bool
    decreases a.len(),
{
    if a.len() == 0 {
        b.len() > 0
    } else if b.len() == 0 {
        false
    } else if a[0] != b[0] {
        a[0] < b[0]
    } else {
        text_lt(a.drop_first(), b.drop_first())
    }
}

proof fn lemma_text_lt_transitive(a: Seq<char>, b: Seq<char>, c: Seq<char>)
    requires
        text_lt(a, b),
        text_lt(b, c),
    ensures
        text_lt(a, c),
    decreases a.len(),
{
    if a.len() > 0 && b.len() > 0 && c.len() > 0 && a[0] == b[0] && b[0] == c[0] {
        lemma_text_lt_transitive(a.drop_first(), b.drop_first(), c.drop_first());
    }
}

proof fn lemma_text_lt_irreflexive(a: Seq<char>)
    ensures
        !text_lt(a, a),
    decreases a.len(),
{
    if a.len() > 0 {
        lemma_text_lt_irreflexive(a.drop_first());
    }
}

proof fn lemma_text_lt_total(a: Seq<char>, b: Seq<char>)
    requires
        a != b,
    ensures
        text_lt(a, b) || text_lt(b, a),
    decreases a.len(),
{
    if a.len() > 0 && b.len() > 0 && a[0] == b[0] {
        if a.drop_first() == b.drop_first() {
            assert(a =~= seq![a[0]] + a.drop_first());
            assert(b =~= seq![b[0]] + b.drop_first());
        }
        lemma_text_lt_total(a.drop_first(), b.drop_first());
    } else if a.len() == 0 && b.len() == 0 {
        assert(a =~= b);
    }
}

/// Lexicographic order of sequences of texts, each compared by `text_lt`.
pub open spec fn texts_lt(a: Seq<Seq<char>>, b: Seq<Seq<char>>) -> bool
    decreases a.len(),
{
    if a.len() == 0 {
        b.len() > 0
    } else if b.len() == 0 {
        false
    } else if a[0] != b[0] {
        text_lt(a[0], b[0])
    } else {
        texts_lt(a.drop_first(), b.drop_first())
    }
}

proof fn lemma_texts_lt_transitive(a: Seq<Seq<char>>, b: Seq<Seq<char>>, c: Seq<Seq<char>>)
    requires
        texts_lt(a, b),
        texts_lt(b, c),
    ensures
        texts_lt(a, c),
    decreases a.len(),
{
    if a.len() > 0 && b.len() > 0 && c.len() > 0 {
        if a[0] == b[0] && b[0] == c[0] {
            lemma_texts_lt_transitive(a.drop_first(), b.drop_first(), c.drop_first());
        } else if a[0] != b[0] && b[0] != c[0] {
            lemma_text_lt_transitive(a[0], b[0], c[0]);
            if a[0] == c[0] {
                lemma_text_lt_irreflexive(a[0]);
            }
        }
    }
}

proof fn lemma_texts_lt_irreflexive(a: Seq<Seq<char>>)
    ensures
        !texts_lt(a, a),
    decreases a.len(),
{
    if a.len() > 0 {
        lemma_texts_lt_irreflexive(a.drop_first());
    }
}

proof fn lemma_texts_lt_total(a: Seq<Seq<char>>, b: Seq<Seq<char>>)
    requires
        a != b,
    ensures
        texts_lt(a, b) || texts_lt(b, a),
    decreases a.len(),
{
    if a.len() > 0 && b.len() > 0 {
        if a[0] == b[0] {
            if a.drop_first() == b.drop_first() {
                assert(a =~= seq![a[0]] + a.drop_first());
                assert(b =~= seq![b[0]] + b.drop_first());
            }
            lemma_texts_lt_total(a.drop_first(), b.drop_first());
        } else {
            lemma_text_lt_total(a[0], b[0]);
        }
    } else if a.len() == 0 && b.len() == 0 {
        assert(a =~= b);
    }
}

/// An optional text as a key: absent orders before every present text.
pub open spec fn opt_key(o: Option<Seq<char>>) -> Seq<char> {
    match o {
        None => seq![],
        Some(s) => seq!['+'] + s,
    }
}

/// The key that orders rows: all six fields, in order.
pub open spec fn row_key(r: RowView) -> Seq<Seq<char>> {
    seq![r.0, r.1, r.2, r.3, opt_key(r.4), opt_key(r.5)]
}

/// The order of rows: by name, then project, compat, latest, kind and platform.
pub open spec fn row_lt(a: RowView, b: RowView) -> bool {
    texts_lt(row_key(a), row_key(b))
}

proof fn lemma_opt_key_injective(a: Option<Seq<char>>, b: Option<Seq<char>>)
    requires
        opt_key(a) == opt_key(b),
    ensures
        a == b,
{
    if a is Some && b is Some {
        assert(opt_key(a).drop_first() =~= a->Some_0);
        assert(opt_key(b).drop_first() =~= b->Some_0);
    } else if a is Some {
        assert(opt_key(a).len() > 0);
    } else if b is Some {
        assert(opt_key(b).len() > 0);
    }
}

proof fn lemma_row_lt_facts(a: RowView, b: RowView, c: RowView)
    ensures
        !row_lt(a, a),
        row_lt(a, b) && row_lt(b, c) ==> row_lt(a, c),
        a != b ==> row_lt(a, b) || row_lt(b, a),
{
    lemma_texts_lt_irreflexive(row_key(a));
    if row_lt(a, b) && row_lt(b, c) {
        lemma_texts_lt_transitive(row_key(a), row_key(b), row_key(c));
    }
    if a != b {
        if row_key(a) == row_key(b) {
            assert(row_key(a)[4] == row_key(b)[4]);
            assert(row_key(a)[5] == row_key(b)[5]);
            lemma_opt_key_injective(a.4, b.4);
            lemma_opt_key_injective(a.5, b.5);
            assert(row_key(a)[0] == row_key(b)[0]);
            assert(row_key(a)[1] == row_key(b)[1]);
            assert(row_key(a)[2] == row_key(b)[2]);
            assert(row_key(a)[3] == row_key(b)[3]);
        }
        lemma_texts_lt_total(row_key(a), row_key(b));
    }
}

/// Rows in strictly increasing order of `row_lt`.
pub open spec fn sorted_rows(v: Seq<RowView>) -> bool {
    forall|i: int, j: int| 0 <= i < j < v.len() ==> row_lt(#[trigger] v[i], #[trigger] v[j])
}

/// Whether `a` orders before `b`.
pub fn text_less(a: &str, b: &str) -> (r: bool)
    ensures
        r == text_lt(a@, b@),
{
    let n = a.unicode_len();
    let m = b.unicode_len();
    let mut i: usize = 0;
    assert(a@.skip(0) =~= a@);
    assert(b@.skip(0) =~= b@);
    while i < n && i < m
        invariant
            n == a@.len(),
            m == b@.len(),
            i <= n,
            i <= m,
            text_lt(a@, b@) == text_lt(a@.skip(i as int), b@.skip(i as int)),
        decreases n - i,
    {
        let x = a.get_char(i);
        let y = b.get_char(i);
        if x != y {
            return x < y;
        }
        assert(a@.skip(i as int).drop_first() =~= a@.skip(i + 1));
        assert(b@.skip(i as int).drop_first() =~= b@.skip(i + 1));
        i = i + 1;
    }
    i < m
}

/// The texts of a list of strings.
pub open spec fn string_texts(v: Seq<String>) -> Seq<Seq<char>> {
    v.map_values(|x: String| x@)
}

fn opt_key_string(o: &Option<String>) -> (r: String)
    ensures
        r@ == opt_key(opt_text(*o)),
{
    match o {
        None => String::new(),
        Some(s) => {
            let mut k = String::from_str("+");
            k.append(s.as_str());
            proof {
                reveal_strlit("+");
            }
            assert(k@ =~= opt_key(opt_text(*o)));
            k
        },
    }
}

fn row_key_strings(m: &Metadata) -> (r: Vec<String>)
    ensures
        string_texts(r@) == row_key(m@),
{
    let mut r: Vec<String> = Vec::new();
    r.push(String::from_str(m.name.as_str()));
    r.push(String::from_str(m.project.as_str()));
    r.push(String::from_str(m.compat.as_str()));
    r.push(String::from_str(m.latest.as_str()));
    r.push(opt_key_string(&m.kind));
    r.push(opt_key_string(&m.platform));
    assert(string_texts(r@) =~= row_key(m@));
    r
}

fn texts_less(a: &Vec<String>, b: &Vec<String>) -> (r: bool)
    ensures
        r == texts_lt(string_texts(a@), string_texts(b@)),
{
    let ghost ta = string_texts(a@);
    let ghost tb = string_texts(b@);
    assert(ta.skip(0) =~= ta);
    assert(tb.skip(0) =~= tb);
    let mut i: usize = 0;
    while i < a.len() && i < b.len()
        invariant
            ta == string_texts(a@),
            tb == string_texts(b@),
            i <= a@.len(),
            i <= b@.len(),
            texts_lt(ta, tb) == texts_lt(ta.skip(i as int), tb.skip(i as int)),
        decreases a@.len() - i,
    {
        assert(ta.skip(i as int)[0] == a@[i as int]@);
        assert(tb.skip(i as int)[0] == b@[i as int]@);
        if !same_text(a[i].as_str(), b[i].as_str()) {
            return text_less(a[i].as_str(), b[i].as_str());
        }
        assert(ta.skip(i as int).drop_first() =~= ta.skip(i + 1));
        assert(tb.skip(i as int).drop_first() =~= tb.skip(i + 1));
        i = i + 1;
    }
    i < b.len()
}

/// Whether row `a` orders before row `b`.
pub fn row_less(a: &Metadata, b: &Metadata) -> (r: bool)
    ensures
        r == row_lt(a@, b@),
{
    let ka = row_key_strings(a);
    let kb = row_key_strings(b);
    texts_less(&ka, &kb)
}

fn same_opt_text(a: &Option<String>, b: &Option<String>) -> (r: bool)
    ensures
        r == (opt_text(*a) == opt_text(*b)),
{
    match (a, b) {
        (Some(x), Some(y)) => same_text(x.as_str(), y.as_str()),
        (None, None) => true,
        _ => false,
    }
}

/// Whether two rows say the same.
pub fn same_row(a: &Metadata, b: &Metadata) -> (r: bool)
    ensures
        r == (a@ == b@),
{
    same_text(a.name.as_str(), b.name.as_str()) && same_text(a.project.as_str(), b.project.as_str())
        && same_text(a.compat.as_str(), b.compat.as_str()) && same_text(
        a.latest.as_str(),
        b.latest.as_str(),
    ) && same_opt_text(&a.kind, &b.kind) && same_opt_text(&a.platform, &b.platform)
}

/// Sorts rows and drops rows that repeat an earlier one. The result
/// holds each distinct row of the input once, in increasing order of the
/// whole row (see `row_lt`), so it depends on the set of input rows alone.
pub fn sort_and_dedup(rows: Vec<Metadata>) -> (r: Vec<Metadata>)
    ensures
        sorted_rows(row_views(r@)),
        row_views(r@).no_duplicates(),
        forall|x: RowView| row_views(r@).contains(x) <==> row_views(rows@).contains(x),
{
    let mut out: Vec<Metadata> = Vec::new();
    let mut k: usize = 0;
    while k < rows.len()
        invariant
            k <= rows@.len(),
            sorted_rows(row_views(out@)),
            row_views(out@).no_duplicates(),
            forall|x: RowView|
                row_views(out@).contains(x) <==> row_views(rows@).take(k as int).contains(x),
        decreases rows@.len() - k,
    {
        let row = &rows[k];
        let ghost take_next = row_views(rows@).take(k + 1);
        assert(take_next =~= row_views(rows@).take(k as int).push(row@));
        let mut dup = false;
        let mut i: usize = 0;
        while i < out.len()
            invariant
                sorted_rows(row_views(out@)),
                row_views(out@).no_duplicates(),
                forall|x: RowView|
                    row_views(out@).contains(x) <==> row_views(rows@).take(k as int).contains(x),
                k < rows@.len(),
                row@ == rows@[k as int]@,
                i <= out@.len(),
                !dup ==> forall|j: int| 0 <= j < i ==> out@[j]@ != row@,
                dup ==> row_views(out@).contains(row@),
            decreases out@.len() - i,
        {
            if same_row(&out[i], row) {
                dup = true;
                assert(row_views(out@)[i as int] == row@);
            }
            i = i + 1;
        }
        if !dup {
            assert(!row_views(out@).contains(row@)) by {
                if row_views(out@).contains(row@) {
                    let j = choose|j: int| 0 <= j < row_views(out@).len() && row_views(out@)[j] == row@;
                    assert(out@[j]@ == row@);
                }
            }
            let mut p: usize = 0;
            while p < out.len() && !row_less(row, &out[p])
                invariant
                    sorted_rows(row_views(out@)),
                    row_views(out@).no_duplicates(),
                    forall|x: RowView|
                        row_views(out@).contains(x) <==> row_views(rows@).take(k as int).contains(x),
                    k < rows@.len(),
                    row@ == rows@[k as int]@,
                    p <= out@.len(),
                    forall|j: int| 0 <= j < p ==> !row_lt(row@, (#[trigger] out@[j])@),
                decreases out@.len() - p,
            {
                p = p + 1;
            }
            let ghost before = row_views(out@);
            assert forall|j: int| 0 <= j < p implies row_lt(#[trigger] before[j], row@) by {
                assert(before[j] == out@[j]@);
                assert(!row_lt(row@, before[j]));
                assert(before.contains(before[j]));
                lemma_row_lt_facts(before[j], row@, row@);
            }
            assert(p < before.len() ==> row_lt(row@, before[p as int]));
            let copy = Metadata {
                name: String::from_str(row.name.as_str()),
                project: String::from_str(row.project.as_str()),
                compat: String::from_str(row.compat.as_str()),
                latest: String::from_str(row.latest.as_str()),
                kind: copy_text(&row.kind),
                platform: copy_text(&row.platform),
            };
            out.insert(p, copy);
            proof {
                let after = row_views(out@);
                assert(after =~= before.insert(p as int, row@));
                before.insert_ensures(p as int, row@);
                assert(after[p as int] == row@);
                assert forall|j: int| 0 <= j < p implies #[trigger] after[j] == before[j] by {
                    assert(before.insert(p as int, row@)[j] == before[j]);
                }
                assert forall|j: int| p < j < after.len() implies #[trigger] after[j] == before[j - 1] by {
                    assert(before.insert(p as int, row@)[(j - 1) + 1] == before[j - 1]);
                }
                assert(sorted_rows(before));
                assert forall|i: int, j: int| 0 <= i < j < after.len() implies row_lt(
                    #[trigger] after[i],
                    #[trigger] after[j],
                ) by {
                    if j < p {
                        assert(row_lt(before[i], before[j]));
                    } else if j == p {
                        assert(row_lt(before[i], row@));
                    } else if i < p {
                        assert(row_lt(before[i], before[j - 1]));
                    } else if i == p {
                        if j - 1 > p {
                            assert(row_lt(before[p as int], before[j - 1]));
                            lemma_row_lt_facts(row@, before[p as int], before[j - 1]);
                        }
                    } else {
                        assert(row_lt(before[i - 1], before[j - 1]));
                    }
                }
                assert forall|a: int, b: int| 0 <= a < after.len() && 0 <= b < after.len() && a != b
                    implies after[a] != after[b] by {
                    if a != p && b != p {
                        let a0 = if a < p { a } else { a - 1 };
                        let b0 = if b < p { b } else { b - 1 };
                        assert(after[a] == before[a0] && after[b] == before[b0]);
                    } else if a == p {
                        let b0 = if b < p { b } else { b - 1 };
                        assert(after[b] == before[b0]);
                    } else {
                        let a0 = if a < p { a } else { a - 1 };
                        assert(after[a] == before[a0]);
                    }
                }
                assert forall|x: RowView| after.contains(x) <==> take_next.contains(x) by {
                    if after.contains(x) {
                        let j = choose|j: int| 0 <= j < after.len() && after[j] == x;
                        if j == p {
                            assert(take_next[k as int] == x);
                        } else {
                            let j0 = if j < p { j } else { j - 1 };
                            assert(before[j0] == x);
                            assert(before.contains(x));
                            assert(row_views(rows@).take(k as int).contains(x));
                            let t = choose|t: int| 0 <= t < k && row_views(rows@).take(k as int)[t] == x;
                            assert(take_next[t] == x);
                        }
                    }
                    if take_next.contains(x) {
                        let t = choose|t: int| 0 <= t < take_next.len() && take_next[t] == x;
                        if t == k {
                            assert(after[p as int] == x);
                        } else {
                            assert(row_views(rows@).take(k as int)[t] == x);
                            assert(row_views(rows@).take(k as int).contains(x));
                            assert(before.contains(x));
                            let j = choose|j: int| 0 <= j < before.len() && before[j] == x;
                            let j1 = if j < p { j } else { j + 1 };
                            assert(after[j1] == x);
                        }
                    }
                }
            }
        }
        k = k + 1;
    }
    assert(row_views(rows@).take(rows@.len() as int) =~= row_views(rows@));
    out
}

/// The tab-separated line of a row: name, project, compat, latest, kind and
/// platform, with `---` for what is absent.
pub open spec fn line_text(r: RowView) -> Seq<char> {
    let dash = seq!['-', '-', '-'];
    let tab = seq!['\t'];
    r.0 + tab + r.1 + tab + r.2 + tab + r.3 + tab + match r.4 {
        Some(k) => k,
        None => dash,
    } + tab + match r.5 {
        Some(p) => p,
        None => dash,
    } + seq!['\n']
}

fn append_or_dash(out: &mut String, o: &Option<String>)
    ensures
        final(out)@ == old(out)@ + match opt_text(*o) {
            Some(t) => t,
            None => seq!['-', '-', '-'],
        },
{
    match o {
        Some(t) => out.append(t.as_str()),
        None => {
            out.append("---");
            proof {
                reveal_strlit("---");
            }
        },
    }
}

/// The line that shows a row in the list format.
pub fn list_line(row: &Metadata) -> (r: String)
    ensures
        r@ == line_text(row@),
{
    let mut out = String::from_str(row.name.as_str());
    proof {
        reveal_strlit("\t");
        reveal_strlit("\n");
    }
    out.append("\t");
    out.append(row.project.as_str());
    out.append("\t");
    out.append(row.compat.as_str());
    out.append("\t");
    out.append(row.latest.as_str());
    out.append("\t");
    append_or_dash(&mut out, &row.kind);
    out.append("\t");
    append_or_dash(&mut out, &row.platform);
    out.append("\n");
    assert(out@ =~= line_text(row@));
    out
}

impl ElaborateWorkspace {
    /// The report for `root`: its name and its rows, in the order of `row_lt` and
    /// without repeats.
    pub fn report(&self, options: &Options, root: usize) -> (r: Result<CrateMetadata, OutdatedError>)
        requires
            self.wf(),
            root < self.pkgs@.len(),
        ensures
            self.cache_paths_valid() <==> r is Ok,
            r matches Ok(m) ==> {
                let rows = self.rows_upto(*options, self.pkg_status@.len() as int);
                &&& m.crate_name@ == self.name_of(root)
                &&& sorted_rows(row_views(m.dependencies@))
                &&& row_views(m.dependencies@).no_duplicates()
                &&& forall|x: RowView| row_views(m.dependencies@).contains(x) <==> rows.contains(x)
            },
            r matches Err(e) ==> e == OutdatedError::EmptyPath || e
                == OutdatedError::NoMatchingDependency,
    {
        match self.report_rows(options) {
            Ok(rows) => Ok(CrateMetadata {
                crate_name: String::from_str(self.pkgs[root].name.as_str()),
                dependencies: sort_and_dedup(rows),
            }),
            Err(e) => Err(e),
        }
    }
}

/// The lines of the list format for a report, in the report's order.
pub fn list_lines(report: &CrateMetadata) -> (r: Vec<String>)
    ensures
        r@.len() == report.dependencies@.len(),
        forall|i: int| 0 <= i < r@.len() ==> #[trigger] r@[i]@ == line_text(report.dependencies@[i]@),
{
    let mut out: Vec<String> = Vec::new();
    let mut i: usize = 0;
    while i < report.dependencies.len()
        invariant
            i <= report.dependencies@.len(),
            out@.len() == i,
            forall|j: int| 0 <= j < i ==> #[trigger] out@[j]@ == line_text(report.dependencies@[j]@),
        decreases report.dependencies@.len() - i,
    {
        out.push(list_line(&report.dependencies[i]));
        i = i + 1;
    }
    out
}

/// No reported path passes through a package whose name is ignored or
/// excluded. A row's label is the package's name, or its parent's name, `->`
/// and the package's name, so neither name in a label is ignored or excluded.
pub proof fn lemma_ignored_not_reported(w: &ElaborateWorkspace, options: Options, k: int)
    requires
        0 <= k < w.pkg_status@.len(),
        w.reported(w.pkg_status@[k], options),
    ensures
        forall|i: int|
            0 <= i < w.pkg_status@[k].0@.len() ==> !holds_text(
                options.ignore@,
                w.name_of(#[trigger] w.pkg_status@[k].0@[i]),
            ) && !holds_text(options.exclude@, w.name_of(w.pkg_status@[k].0@[i])),
        ({
            let path = w.pkg_status@[k].0@;
            let label = w.row_of(w.pkg_status@[k]).0;
            path.len() >= 1 ==> {
                ||| label == w.name_of(path.last())
                ||| (path.len() >= 2 && label == w.name_of(path[path.len() - 2]) + seq!['-', '>']
                    + w.name_of(path.last()))
            }
        }),
{
}

} // verus!
