//! A resolved dependency graph: packages, their dependency edges and the
//! workspace's members, with lookups by name and the per-path status cache.
use vstd::prelude::*;
use vstd::set_lib::{lemma_len_subset, FiniteRange};

use crate::error::OutdatedError;
use crate::options::{negative_depth, Options};
use crate::pkg_status::{changed, status_between, PkgStatus, Status, StatusView};
use crate::text::{contains_text, holds_text, same_text};
use crate::version::Version;

verus! {

/// The kind of a dependency relation.
#[derive(Clone, Copy, Debug, PartialEq, Eq, Structural)]
pub enum DepKind {
    Normal,
    Development,
    Build,
}

/// Metadata of one dependency relation.
#[derive(Clone, Debug)]
pub struct DependencyEdge {
    pub kind: DepKind,
    /// The platform the dependency is limited to, if any.
    pub platform: Option<String>,
}

/// One resolved package.
#[derive(Clone, Debug)]
pub struct PackageRecord {
    pub name: String,
    pub version: Version,
    /// Whether the package's manifest lies under the workspace root.
    pub in_workspace: bool,
}

/// One entry of the status cache: a path from the root and its status.
pub type StatusEntry = (Vec<usize>, PkgStatus);

/// A resolved graph. A package is identified by its index in `pkgs`;
/// `pkg_deps[p]` lists the packages that `p` depends on, each once, with the
/// relation's metadata.
pub struct ElaborateWorkspace {
    pub pkgs: Vec<PackageRecord>,
    pub pkg_deps: Vec<Vec<(usize, DependencyEdge)>>,
    /// The first-party members of the workspace.
    pub members: Vec<usize>,
    /// The package the workspace was opened on; `None` for a virtual workspace.
    pub current: Option<usize>,
    /// Whether every member is reported on.
    pub workspace_mode: bool,
    /// The status of each visited path from the root.
    pub pkg_status: Vec<StatusEntry>,
}

/// Whether a path of `len` packages lies within the depth bound: at most
/// `depth` steps from the root.
pub open spec fn within_depth(len: int, depth: Option<i32>) -> bool {
    match depth {
        None => true,
        Some(d) => len - 1 <= d,
    }
}

/// Whether `q` appears as a key of the cache.
pub open spec fn cached(cache: Seq<StatusEntry>, q: Seq<usize>) -> bool {
    exists|k: int| 0 <= k < cache.len() && (#[trigger] cache[k]).0@ == q
}

/// No two entries from index `from` on share a key.
#[verifier::opaque]
pub open spec fn keys_distinct(cache: Seq<StatusEntry>, from: int) -> bool {
    forall|a: int, b: int| from <= a < b < cache.len() ==> (#[trigger] cache[a]).0@ != (#[trigger] cache[b]).0@
}

proof fn lemma_distinct_bounded(path: Seq<usize>, n: usize)
    requires
        path.no_duplicates(),
        forall|i: int| 0 <= i < path.len() ==> path[i] < n,
    ensures
        path.len() <= n,
{
    path.unique_seq_to_set();
    <usize as FiniteRange>::range_properties(0, n);
    assert(path.to_set().subset_of(<usize as FiniteRange>::range_set(0, n)));
    lemma_len_subset(path.to_set(), <usize as FiniteRange>::range_set(0, n));
}

impl ElaborateWorkspace {
    /// Every index in the graph names a package.
    pub open spec fn wf(&self) -> bool {
        &&& self.pkg_deps@.len() == self.pkgs@.len()
        &&& forall|p: int, j: int|
            0 <= p < self.pkg_deps@.len() && 0 <= j < self.pkg_deps@[p]@.len() ==> (
            #[trigger] self.pkg_deps@[p]@[j]).0 < self.pkgs@.len()
        &&& forall|p: int, i: int, j: int|
            0 <= p < self.pkg_deps@.len() && 0 <= i < j < self.pkg_deps@[p]@.len() ==> (
            #[trigger] self.pkg_deps@[p]@[i]).0 != (#[trigger] self.pkg_deps@[p]@[j]).0
        &&& forall|i: int| 0 <= i < self.members@.len() ==> #[trigger] self.members@[i] < self.pkgs@.len()
        &&& (self.current matches Some(c) ==> c < self.pkgs@.len())
    }

    pub open spec fn name_of(&self, p: usize) -> Seq<char> {
        self.pkgs@[p as int].name@
    }

    pub open spec fn deps_of(&self, p: usize) -> Seq<(usize, DependencyEdge)> {
        self.pkg_deps@[p as int]@
    }

    /// Whether `p` depends directly on `q`.
    pub open spec fn has_edge(&self, p: usize, q: usize) -> bool {
        exists|j: int| 0 <= j < self.deps_of(p).len() && (#[trigger] self.deps_of(p)[j]).0 == q
    }

    /// The first dependency of `edges`, from index `j` on, named `name`.
    pub open spec fn first_named_from(
        &self,
        edges: Seq<(usize, DependencyEdge)>,
        name: Seq<char>,
        j: int,
    ) -> Option<usize>
        decreases edges.len() - j,
    {
        if j < 0 || j >= edges.len() {
            None
        } else if self.name_of(edges[j].0) == name {
            Some(edges[j].0)
        } else {
            self.first_named_from(edges, name, j + 1)
        }
    }

    /// The first direct dependency of `p` named `name`.
    pub open spec fn child_named(&self, p: usize, name: Seq<char>) -> Option<usize> {
        self.first_named_from(self.deps_of(p), name, 0)
    }

    /// The first member, from index `i` on, named `name`.
    pub open spec fn member_named_from(&self, name: Seq<char>, i: int) -> Option<usize>
        decreases self.members@.len() - i,
    {
        if i < 0 || i >= self.members@.len() {
            None
        } else if self.name_of(self.members@[i]) == name {
            Some(self.members@[i])
        } else {
            self.member_named_from(name, i + 1)
        }
    }

    /// The first package, from index `i` on, under the workspace root and named `name`.
    pub open spec fn contained_named_from(&self, name: Seq<char>, i: int) -> Option<usize>
        decreases self.pkgs@.len() - i,
    {
        if i < 0 || i >= self.pkgs@.len() {
            None
        } else if self.pkgs@[i].in_workspace && self.name_of(i as usize) == name {
            Some(i as usize)
        } else {
            self.contained_named_from(name, i + 1)
        }
    }

    /// The first package of the graph, from index `i` on, named `name`.
    pub open spec fn package_named_from(&self, name: Seq<char>, i: int) -> Option<usize>
        decreases self.pkgs@.len() - i,
    {
        if i < 0 || i >= self.pkgs@.len() {
            None
        } else if self.name_of(i as usize) == name {
            Some(i as usize)
        } else {
            self.package_named_from(name, i + 1)
        }
    }

    /// The root that the options select (see `determine_root`).
    pub open spec fn root_spec(&self, root_name: Option<Seq<char>>) -> Result<usize, OutdatedError> {
        match root_name {
            Some(rn) => match self.current {
                Some(c) => if self.name_of(c) == rn {
                    Ok(c)
                } else {
                    match self.child_named(c, rn) {
                        Some(d) => Ok(d),
                        None => Err(OutdatedError::RootNotFound),
                    }
                },
                None => Err(OutdatedError::RootInVirtualWorkspace),
            },
            None => match self.current {
                Some(c) => Ok(c),
                None => Err(OutdatedError::NoWorkspace),
            },
        }
    }

    /// The member named `name` (see `find_member`).
    pub open spec fn member_spec(&self, name: Seq<char>) -> Result<usize, OutdatedError> {
        match self.member_named_from(name, 0) {
            Some(m) => Ok(m),
            None => Err(OutdatedError::MemberNotFound),
        }
    }

    /// The direct dependency `dep` of the contained package `parent`, or any
    /// package named `dep` (see `find_direct_dependency`).
    pub open spec fn direct_dependency_spec(&self, dep: Seq<char>, parent: Seq<char>) -> Result<
        usize,
        OutdatedError,
    > {
        match self.contained_named_from(parent, 0) {
            None => Err(OutdatedError::PackageNotFound),
            Some(p) => match self.child_named(p, dep) {
                Some(d) => Ok(d),
                None => match self.package_named_from(dep, 0) {
                    Some(d) => Ok(d),
                    None => Err(OutdatedError::DepNotFound),
                },
            },
        }
    }

    /// Builds a workspace from a resolved graph; fails when an index does not
    /// name a package. Workspace mode holds when asked for or when there is no
    /// current package.
    pub fn new(
        pkgs: Vec<PackageRecord>,
        pkg_deps: Vec<Vec<(usize, DependencyEdge)>>,
        members: Vec<usize>,
        current: Option<usize>,
        workspace: bool,
    ) -> (r: Result<ElaborateWorkspace, OutdatedError>)
        ensures
            match r {
                Ok(w) => {
                    &&& w.wf()
                    &&& w.pkgs@ == pkgs@
                    &&& w.pkg_deps@ == pkg_deps@
                    &&& w.members@ == members@
                    &&& w.current == current
                    &&& w.workspace_mode == (workspace || current is None)
                    &&& w.pkg_status@.len() == 0
                },
                Err(e) => e == OutdatedError::CannotElaborateWorkspace,
            },
            (r is Ok) <==> ({
                &&& pkg_deps@.len() == pkgs@.len()
                &&& forall|p: int, j: int|
                    0 <= p < pkg_deps@.len() && 0 <= j < pkg_deps@[p]@.len() ==> (
                    #[trigger] pkg_deps@[p]@[j]).0 < pkgs@.len()
                &&& forall|p: int, i: int, j: int|
                    0 <= p < pkg_deps@.len() && 0 <= i < j < pkg_deps@[p]@.len() ==> (
                    #[trigger] pkg_deps@[p]@[i]).0 != (#[trigger] pkg_deps@[p]@[j]).0
                &&& forall|i: int| 0 <= i < members@.len() ==> #[trigger] members@[i] < pkgs@.len()
                &&& (current matches Some(c) ==> c < pkgs@.len())
            }),
    {
        let n = pkgs.len();
        if pkg_deps.len() != n {
            return Err(OutdatedError::CannotElaborateWorkspace);
        }
        let mut p: usize = 0;
        while p < pkg_deps.len()
            invariant
                n == pkgs@.len(),
                p <= pkg_deps@.len(),
                forall|q: int, j: int|
                    0 <= q < p && 0 <= j < pkg_deps@[q]@.len() ==> (
                    #[trigger] pkg_deps@[q]@[j]).0 < n,
                forall|q: int, i: int, j: int|
                    0 <= q < p && 0 <= i < j < pkg_deps@[q]@.len() ==> (
                    #[trigger] pkg_deps@[q]@[i]).0 != (#[trigger] pkg_deps@[q]@[j]).0,
            decreases pkg_deps@.len() - p,
        {
            let mut j: usize = 0;
            while j < pkg_deps[p].len()
                invariant
                    n == pkgs@.len(),
                    p < pkg_deps@.len(),
                    j <= pkg_deps@[p as int]@.len(),
                    forall|k: int| 0 <= k < j ==> (#[trigger] pkg_deps@[p as int]@[k]).0 < n,
                    forall|i: int, k: int|
                        0 <= i < k < j ==> (#[trigger] pkg_deps@[p as int]@[i]).0 != (
                        #[trigger] pkg_deps@[p as int]@[k]).0,
                decreases pkg_deps@[p as int]@.len() - j,
            {
                if pkg_deps[p][j].0 >= n {
                    return Err(OutdatedError::CannotElaborateWorkspace);
                }
                let mut i: usize = 0;
                while i < j
                    invariant
                        p < pkg_deps@.len(),
                        i <= j < pkg_deps@[p as int]@.len(),
                        forall|k: int| 0 <= k < i ==> (#[trigger] pkg_deps@[p as int]@[k]).0 != pkg_deps@[p as int]@[j as int].0,
                    decreases j - i,
                {
                    if pkg_deps[p][i].0 == pkg_deps[p][j].0 {
                        return Err(OutdatedError::CannotElaborateWorkspace);
                    }
                    i = i + 1;
                }
                j = j + 1;
            }
            p = p + 1;
        }
        let mut i: usize = 0;
        while i < members.len()
            invariant
                n == pkgs@.len(),
                i <= members@.len(),
                forall|k: int| 0 <= k < i ==> #[trigger] members@[k] < n,
            decreases members@.len() - i,
        {
            if members[i] >= n {
                return Err(OutdatedError::CannotElaborateWorkspace);
            }
            i = i + 1;
        }
        if let Some(c) = current {
            if c >= n {
                return Err(OutdatedError::CannotElaborateWorkspace);
            }
        }
        let workspace_mode = workspace || current.is_none();
        Ok(ElaborateWorkspace { pkgs, pkg_deps, members, current, workspace_mode, pkg_status: Vec::new() })
    }

    /// The first direct dependency of `p` named `name`.
    pub fn find_child_named(&self, p: usize, name: &str) -> (r: Option<usize>)
        requires
            self.wf(),
            p < self.pkgs@.len(),
        ensures
            r == self.child_named(p, name@),
            r matches Some(d) ==> d < self.pkgs@.len() && self.has_edge(p, d),
    {
        let deps = &self.pkg_deps[p];
        let mut j: usize = 0;
        while j < deps.len()
            invariant
                self.wf(),
                p < self.pkgs@.len(),
                deps@ == self.deps_of(p),
                j <= deps@.len(),
                self.child_named(p, name@) == self.first_named_from(deps@, name@, j as int),
            decreases deps@.len() - j,
        {
            let d = deps[j].0;
            assert(deps@[j as int] == self.pkg_deps@[p as int]@[j as int]);
            if same_text(self.pkgs[d].name.as_str(), name) {
                return Some(d);
            }
            j = j + 1;
        }
        None
    }

    /// The root package of the report: the package named by `options.root`,
    /// which must be the current package or one of its direct dependencies,
    /// or the current package when no root is named.
    pub fn determine_root(&self, options: &Options) -> (r: Result<usize, OutdatedError>)
        requires
            self.wf(),
        ensures
            r == self.root_spec(
                match options.root {
                    Some(s) => Some(s@),
                    None => None,
                },
            ),
            r matches Ok(p) ==> p < self.pkgs@.len(),
    {
        match &options.root {
            Some(root_name) => match self.current {
                Some(c) => {
                    if same_text(self.pkgs[c].name.as_str(), root_name.as_str()) {
                        Ok(c)
                    } else {
                        match self.find_child_named(c, root_name.as_str()) {
                            Some(d) => Ok(d),
                            None => Err(OutdatedError::RootNotFound),
                        }
                    }
                },
                None => Err(OutdatedError::RootInVirtualWorkspace),
            },
            None => match self.current {
                Some(c) => Ok(c),
                None => Err(OutdatedError::NoWorkspace),
            },
        }
    }

    /// The member named `name`; members of a workspace have distinct names.
    pub fn find_member(&self, name: &str) -> (r: Result<usize, OutdatedError>)
        requires
            self.wf(),
        ensures
            r == self.member_spec(name@),
            r matches Ok(p) ==> p < self.pkgs@.len(),
    {
        let mut i: usize = 0;
        while i < self.members.len()
            invariant
                self.wf(),
                i <= self.members@.len(),
                self.member_named_from(name@, 0) == self.member_named_from(name@, i as int),
            decreases self.members@.len() - i,
        {
            let m = self.members[i];
            if same_text(self.pkgs[m].name.as_str(), name) {
                return Ok(m);
            }
            i = i + 1;
        }
        Err(OutdatedError::MemberNotFound)
    }

    /// A package under the workspace root named `name`.
    pub fn find_contained_package(&self, name: &str) -> (r: Result<usize, OutdatedError>)
        requires
            self.wf(),
        ensures
            r == (match self.contained_named_from(name@, 0) {
                Some(p) => Ok(p),
                None => Err(OutdatedError::PackageNotFound),
            }),
            r matches Ok(p) ==> p < self.pkgs@.len(),
    {
        let mut i: usize = 0;
        while i < self.pkgs.len()
            invariant
                self.wf(),
                i <= self.pkgs@.len(),
                self.contained_named_from(name@, 0) == self.contained_named_from(name@, i as int),
            decreases self.pkgs@.len() - i,
        {
            if self.pkgs[i].in_workspace && same_text(self.pkgs[i].name.as_str(), name) {
                return Ok(i);
            }
            i = i + 1;
        }
        Err(OutdatedError::PackageNotFound)
    }

    /// The direct dependency named `dependency_name` of the contained package
    /// named `dependent_package_name`; failing that, any package of the graph
    /// with that name.
    pub fn find_direct_dependency(&self, dependency_name: &str, dependent_package_name: &str) -> (r:
        Result<usize, OutdatedError>)
        requires
            self.wf(),
        ensures
            r == self.direct_dependency_spec(dependency_name@, dependent_package_name@),
            r matches Ok(p) ==> p < self.pkgs@.len(),
    {
        let parent = match self.find_contained_package(dependent_package_name) {
            Ok(p) => p,
            Err(e) => return Err(e),
        };
        match self.find_child_named(parent, dependency_name) {
            Some(d) => return Ok(d),
            None => {},
        }
        let mut i: usize = 0;
        while i < self.pkgs.len()
            invariant
                self.wf(),
                i <= self.pkgs@.len(),
                self.contained_named_from(dependent_package_name@, 0) == Some(parent),
                self.child_named(parent, dependency_name@) is None,
                self.package_named_from(dependency_name@, 0) == self.package_named_from(
                    dependency_name@,
                    i as int,
                ),
            decreases self.pkgs@.len() - i,
        {
            if same_text(self.pkgs[i].name.as_str(), dependency_name) {
                return Ok(i);
            }
            i = i + 1;
        }
        Err(OutdatedError::DepNotFound)
    }
}

/// The rules that select the paths the status resolver visits.
impl ElaborateWorkspace {
    /// A path from `root` along dependency edges, with no package twice, no
    /// package after the root whose name is in `skip`, and within the depth bound.
    #[verifier::opaque]
    pub open spec fn is_walk(
        &self,
        path: Seq<usize>,
        root: usize,
        depth: Option<i32>,
        skip: Seq<String>,
    ) -> bool {
        &&& path.len() >= 1
        &&& path[0] == root
        &&& forall|i: int| 1 <= i < path.len() ==> self.has_edge(path[i - 1], #[trigger] path[i])
        &&& path.no_duplicates()
        &&& forall|i: int| 1 <= i < path.len() ==> !holds_text(skip, self.name_of(#[trigger] path[i]))
        &&& within_depth(path.len() as int, depth)
    }

    /// Where the walk `path` of this graph leads in `other`, starting at
    /// `start` and following, at each step, the first dependency of the same name.
    pub open spec fn cursor(
        &self,
        other: &ElaborateWorkspace,
        start: Option<usize>,
        path: Seq<usize>,
    ) -> Option<usize>
        decreases path.len(),
    {
        if path.len() <= 1 {
            start
        } else {
            match self.cursor(other, start, path.drop_last()) {
                None => None,
                Some(c) => other.child_named(c, self.name_of(path.last())),
            }
        }
    }

    /// The status of the last package of `path` against `other`.
    pub open spec fn expected_status(
        &self,
        other: &ElaborateWorkspace,
        start: Option<usize>,
        path: Seq<usize>,
    ) -> StatusView {
        status_between(
            self.pkgs@[path.last() as int].version@,
            match self.cursor(other, start, path) {
                Some(c) => Some(other.pkgs@[c as int].version@),
                None => None,
            },
        )
    }

    /// A cache entry records a walk and its status against both graphs.
    pub open spec fn entry_ok(
        &self,
        e: StatusEntry,
        compat: &ElaborateWorkspace,
        latest: &ElaborateWorkspace,
        compat_root: Option<usize>,
        latest_root: Option<usize>,
        root: usize,
        depth: Option<i32>,
        skip: Seq<String>,
    ) -> bool {
        &&& self.is_walk(e.0@, root, depth, skip)
        &&& e.1.compat@ == self.expected_status(compat, compat_root, e.0@)
        &&& e.1.latest@ == self.expected_status(latest, latest_root, e.0@)
    }

    /// Where the root of this graph stands in `other`.
    pub open spec fn counterpart_root(
        &self,
        other: &ElaborateWorkspace,
        root_name: Option<Seq<char>>,
        root: usize,
    ) -> Result<usize, OutdatedError> {
        if self.workspace_mode {
            other.member_spec(self.name_of(root))
        } else {
            other.root_spec(root_name)
        }
    }

    proof fn lemma_walk_elem_in_range(
        &self,
        q: Seq<usize>,
        i: int,
        root: usize,
        depth: Option<i32>,
        skip: Seq<String>,
    )
        requires
            self.wf(),
            root < self.pkgs@.len(),
            self.is_walk(q, root, depth, skip),
            0 <= i < q.len(),
        ensures
            q[i] < self.pkgs@.len(),
        decreases i,
    {
        reveal(ElaborateWorkspace::is_walk);
        if i > 0 {
            self.lemma_walk_elem_in_range(q, i - 1, root, depth, skip);
            let a = q[i - 1];
            assert(self.has_edge(a, q[i]));
            let j = choose|j: int|
                0 <= j < self.deps_of(a).len() && (#[trigger] self.deps_of(a)[j]).0 == q[i];
            assert(self.pkg_deps@[a as int]@[j].0 < self.pkgs@.len());
        }
    }

    proof fn lemma_walk_in_range(
        &self,
        q: Seq<usize>,
        root: usize,
        depth: Option<i32>,
        skip: Seq<String>,
        n: usize,
    )
        requires
            n == self.pkgs@.len(),
            self.wf(),
            root < self.pkgs@.len(),
            self.is_walk(q, root, depth, skip),
        ensures
            forall|i: int| 0 <= i < q.len() ==> #[trigger] q[i] < self.pkgs@.len(),
            q.len() <= self.pkgs@.len(),
    {
        reveal(ElaborateWorkspace::is_walk);
        assert forall|i: int| 0 <= i < q.len() implies #[trigger] q[i] < self.pkgs@.len() by {
            self.lemma_walk_elem_in_range(q, i, root, depth, skip);
        }
        lemma_distinct_bounded(q, n);
    }

    proof fn lemma_extend_walk(
        &self,
        path: Seq<usize>,
        dep: usize,
        root: usize,
        depth: Option<i32>,
        skip: Seq<String>,
    )
        requires
            self.is_walk(path, root, depth, skip),
            self.has_edge(path.last(), dep),
            !path.contains(dep),
            !holds_text(skip, self.name_of(dep)),
            depth matches Some(d) ==> path.len() - 1 < d,
        ensures
            self.is_walk(path.push(dep), root, depth, skip),
            path.push(dep).drop_last() == path,
    {
        reveal(ElaborateWorkspace::is_walk);
        let np = path.push(dep);
        assert(np.drop_last() =~= path);
        assert forall|i: int| 1 <= i < np.len() implies self.has_edge(np[i - 1], #[trigger] np[i]) by {
            if i < np.len() - 1 {
                assert(np[i] == path[i] && np[i - 1] == path[i - 1]);
            }
        }
        assert forall|i: int| 1 <= i < np.len() implies !holds_text(skip, self.name_of(#[trigger] np[i])) by {
            if i < np.len() - 1 {
                assert(np[i] == path[i]);
            }
        }
        assert forall|a: int, b: int| 0 <= a < np.len() && 0 <= b < np.len() && a != b implies np[a]
            != np[b] by {
            if a < np.len() - 1 && b < np.len() - 1 {
                assert(np[a] == path[a] && np[b] == path[b]);
            } else if a < np.len() - 1 {
                assert(np[a] == path[a]);
            } else if b < np.len() - 1 {
                assert(np[b] == path[b]);
            }
        }
    }

    /// Every walk that extends `path` is a key of the cache.
    #[verifier::opaque]
    pub open spec fn walks_below_cached(
        &self,
        cache: Seq<StatusEntry>,
        path: Seq<usize>,
        depth: Option<i32>,
        skip: Seq<String>,
    ) -> bool {
        forall|q: Seq<usize>|
            self.is_walk(q, path[0], depth, skip) && path.is_prefix_of(q) ==> cached(cache, q)
    }

    /// The entries from index `from` on are correct and extend `path`.
    #[verifier::opaque]
    pub open spec fn entries_below_ok(
        &self,
        cache: Seq<StatusEntry>,
        from: int,
        path: Seq<usize>,
        compat: &ElaborateWorkspace,
        latest: &ElaborateWorkspace,
        compat_root: Option<usize>,
        latest_root: Option<usize>,
        depth: Option<i32>,
        skip: Seq<String>,
    ) -> bool {
        forall|k: int|
            from <= k < cache.len() ==> {
                &&& self.entry_ok(
                    #[trigger] cache[k],
                    compat,
                    latest,
                    compat_root,
                    latest_root,
                    path[0],
                    depth,
                    skip,
                )
                &&& path.is_prefix_of(cache[k].0@)
            }
    }

    /// Every walk that extends `path` through one of its first `j` dependencies
    /// is a key of the cache.
    #[verifier::opaque]
    pub open spec fn children_cached(
        &self,
        cache: Seq<StatusEntry>,
        path: Seq<usize>,
        depth: Option<i32>,
        skip: Seq<String>,
        j: int,
    ) -> bool {
        forall|q: Seq<usize>|
            self.is_walk(q, path[0], depth, skip) && path.is_prefix_of(q) && q.len() > path.len()
                && (exists|i: int|
                0 <= i < j && (#[trigger] self.deps_of(path.last())[i]).0 == q[path.len() as int])
                ==> cached(cache, q)
    }

    proof fn lemma_child_visited(
        &self,
        before: Seq<StatusEntry>,
        after: Seq<StatusEntry>,
        path: Seq<usize>,
        depth: Option<i32>,
        skip: Seq<String>,
        j: int,
    )
        requires
            path.len() >= 1,
            0 <= j < self.deps_of(path.last()).len(),
            before.is_prefix_of(after),
            self.children_cached(before, path, depth, skip, j),
            self.walks_below_cached(
                after,
                path.push(self.deps_of(path.last())[j].0),
                depth,
                skip,
            ),
        ensures
            self.children_cached(after, path, depth, skip, j + 1),
    {
        reveal(ElaborateWorkspace::is_walk);
        reveal(ElaborateWorkspace::children_cached);
        reveal(ElaborateWorkspace::walks_below_cached);
        let dep = self.deps_of(path.last())[j].0;
        let next = path.push(dep);
        assert forall|q: Seq<usize>|
            self.is_walk(q, path[0], depth, skip) && path.is_prefix_of(q) && q.len() > path.len()
                && (exists|i: int|
                0 <= i < j + 1 && (#[trigger] self.deps_of(path.last())[i]).0 == q[path.len() as int])
                implies cached(after, q) by {
            if q[path.len() as int] == dep {
                assert forall|i: int| 0 <= i < next.len() implies next[i] == q[i] by {
                    if i < path.len() {
                        assert(next[i] == path[i]);
                    }
                }
                assert(next.is_prefix_of(q));
                assert(next[0] == path[0]);
            } else {
                let k = choose|k: int| 0 <= k < before.len() && (#[trigger] before[k]).0@ == q;
                assert(after[k] == before[k]);
            }
        }
    }

    proof fn lemma_child_passed(
        &self,
        cache: Seq<StatusEntry>,
        path: Seq<usize>,
        depth: Option<i32>,
        skip: Seq<String>,
        j: int,
    )
        requires
            path.len() >= 1,
            0 <= j < self.deps_of(path.last()).len(),
            path.contains(self.deps_of(path.last())[j].0) || holds_text(
                skip,
                self.name_of(self.deps_of(path.last())[j].0),
            ),
            self.children_cached(cache, path, depth, skip, j),
        ensures
            self.children_cached(cache, path, depth, skip, j + 1),
    {
        reveal(ElaborateWorkspace::is_walk);
        reveal(ElaborateWorkspace::children_cached);
        let dep = self.deps_of(path.last())[j].0;
        assert forall|q: Seq<usize>|
            self.is_walk(q, path[0], depth, skip) && path.is_prefix_of(q) && q.len() > path.len()
                && (exists|i: int|
                0 <= i < j + 1 && (#[trigger] self.deps_of(path.last())[i]).0 == q[path.len() as int])
                implies cached(cache, q) by {
            if q[path.len() as int] == dep {
                let l = path.len() as int;
                if holds_text(skip, self.name_of(dep)) {
                    assert(!holds_text(skip, self.name_of(q[l])));
                } else {
                    let i = choose|i: int| 0 <= i < path.len() && path[i] == dep;
                    assert(q[i] == path[i]);
                    assert(q[i] == q[l]);
                }
            }
        }
    }

    proof fn lemma_entries_extend(
        &self,
        before: Seq<StatusEntry>,
        after: Seq<StatusEntry>,
        from: int,
        path: Seq<usize>,
        next: Seq<usize>,
        compat: &ElaborateWorkspace,
        latest: &ElaborateWorkspace,
        compat_root: Option<usize>,
        latest_root: Option<usize>,
        depth: Option<i32>,
        skip: Seq<String>,
    )
        requires
            path.len() >= 1,
            next.drop_last() == path,
            next.len() == path.len() + 1,
            0 <= from <= before.len(),
            before.is_prefix_of(after),
            self.entries_below_ok(before, from, path, compat, latest, compat_root, latest_root, depth, skip),
            self.entries_below_ok(after, before.len() as int, next, compat, latest, compat_root, latest_root, depth, skip),
        ensures
            self.entries_below_ok(after, from, path, compat, latest, compat_root, latest_root, depth, skip),
    {
        reveal(ElaborateWorkspace::entries_below_ok);
        assert(next[0] == path[0]);
        assert forall|k: int| from <= k < after.len() implies {
            &&& self.entry_ok(#[trigger] after[k], compat, latest, compat_root, latest_root, path[0], depth, skip)
            &&& path.is_prefix_of(after[k].0@)
        } by {
            if k >= before.len() {
                let key = after[k].0@;
                assert(next.is_prefix_of(key));
                assert forall|i: int| 0 <= i < path.len() implies path[i] == key[i] by {
                    assert(next[i] == path[i]);
                }
            } else {
                assert(after[k] == before[k]);
            }
        }
    }

    proof fn lemma_all_children(
        &self,
        cache: Seq<StatusEntry>,
        at: int,
        path: Seq<usize>,
        depth: Option<i32>,
        skip: Seq<String>,
    )
        requires
            path.len() >= 1,
            0 <= at < cache.len(),
            cache[at].0@ == path,
            self.children_cached(cache, path, depth, skip, self.deps_of(path.last()).len() as int),
        ensures
            self.walks_below_cached(cache, path, depth, skip),
    {
        reveal(ElaborateWorkspace::is_walk);
        reveal(ElaborateWorkspace::children_cached);
        reveal(ElaborateWorkspace::walks_below_cached);
        assert forall|q: Seq<usize>|
            self.is_walk(q, path[0], depth, skip) && path.is_prefix_of(q) implies cached(cache, q) by {
            if q.len() == path.len() {
                assert(q =~= path);
            } else {
                let l = path.len() as int;
                assert(self.has_edge(q[l - 1], q[l]));
                assert(q[l - 1] == path[l - 1]);
                let p = path.last();
                let i = choose|i: int| 0 <= i < self.deps_of(p).len() && (#[trigger] self.deps_of(p)[i]).0 == q[l];
            }
        }
    }

    proof fn lemma_leaf(
        &self,
        cache: Seq<StatusEntry>,
        at: int,
        path: Seq<usize>,
        depth: Option<i32>,
        skip: Seq<String>,
    )
        requires
            path.len() >= 1,
            0 <= at < cache.len(),
            cache[at].0@ == path,
            depth matches Some(d) && !(path.len() - 1 < d),
        ensures
            self.walks_below_cached(cache, path, depth, skip),
    {
        reveal(ElaborateWorkspace::is_walk);
        reveal(ElaborateWorkspace::walks_below_cached);
        assert forall|q: Seq<usize>|
            self.is_walk(q, path[0], depth, skip) && path.is_prefix_of(q) implies cached(cache, q) by {
            if q.len() > path.len() {
                assert(within_depth(q.len() as int, depth));
            }
            assert(q =~= path);
        }
    }

    /// Every entry from index `from` on lies below one of the first `j`
    /// dependencies of the last package of `path`.
    #[verifier::opaque]
    pub open spec fn below_children(&self, cache: Seq<StatusEntry>, from: int, path: Seq<usize>, j: int) -> bool {
        forall|k: int|
            from <= k < cache.len() ==> {
                &&& (#[trigger] cache[k]).0@.len() > path.len()
                &&& exists|i: int|
                    0 <= i < j && (#[trigger] self.deps_of(path.last())[i]).0 == cache[k].0@[path.len() as int]
            }
    }

    proof fn lemma_below_children_grow(&self, cache: Seq<StatusEntry>, from: int, path: Seq<usize>, j: int)
        requires
            self.below_children(cache, from, path, j),
        ensures
            self.below_children(cache, from, path, j + 1),
    {
        reveal(ElaborateWorkspace::below_children);
        assert forall|k: int| from <= k < cache.len() implies {
            &&& (#[trigger] cache[k]).0@.len() > path.len()
            &&& exists|i: int|
                0 <= i < j + 1 && (#[trigger] self.deps_of(path.last())[i]).0 == cache[k].0@[path.len() as int]
        } by {
            let i = choose|i: int|
                0 <= i < j && (#[trigger] self.deps_of(path.last())[i]).0 == cache[k].0@[path.len() as int];
        }
    }

    proof fn lemma_child_keys(
        &self,
        before: Seq<StatusEntry>,
        after: Seq<StatusEntry>,
        start: int,
        path: Seq<usize>,
        j: int,
        compat: &ElaborateWorkspace,
        latest: &ElaborateWorkspace,
        compat_root: Option<usize>,
        latest_root: Option<usize>,
        depth: Option<i32>,
        skip: Seq<String>,
    )
        requires
            self.wf(),
            path.len() >= 1,
            path.last() < self.pkgs@.len(),
            0 <= j < self.deps_of(path.last()).len(),
            before.is_prefix_of(after),
            0 <= start < before.len(),
            before[start].0@ == path,
            keys_distinct(before, start),
            self.below_children(before, start + 1, path, j),
            keys_distinct(after, before.len() as int),
            self.entries_below_ok(
                after,
                before.len() as int,
                path.push(self.deps_of(path.last())[j].0),
                compat,
                latest,
                compat_root,
                latest_root,
                depth,
                skip,
            ),
        ensures
            keys_distinct(after, start),
            self.below_children(after, start + 1, path, j + 1),
    {
        reveal(keys_distinct);
        reveal(ElaborateWorkspace::below_children);
        reveal(ElaborateWorkspace::entries_below_ok);
        let last = path.last();
        let dep = self.deps_of(last)[j].0;
        let next = path.push(dep);
        let l = path.len() as int;
        assert forall|k: int| before.len() <= k < after.len() implies (#[trigger] after[k]).0@.len() > l
            && after[k].0@[l] == dep by {
            assert(next.is_prefix_of(after[k].0@));
            assert(next[l] == dep);
        }
        assert forall|k: int| start < k < before.len() implies (#[trigger] after[k]).0@.len() > l
            && after[k].0@[l] != dep by {
            assert(after[k] == before[k]);
            let i = choose|i: int|
                0 <= i < j && (#[trigger] self.deps_of(last)[i]).0 == before[k].0@[l];
            assert(self.pkg_deps@[last as int]@[i].0 != self.pkg_deps@[last as int]@[j].0);
        }
        assert forall|a: int, b: int| start <= a < b < after.len() implies (#[trigger] after[a]).0@
            != (#[trigger] after[b]).0@ by {
            if b < before.len() {
                assert(after[a] == before[a] && after[b] == before[b]);
            } else if a >= before.len() {
            } else if a == start {
                assert(after[a] == before[a]);
                assert(after[b].0@.len() > l);
            } else {
                assert(after[a].0@[l] != after[b].0@[l]);
            }
        }
        assert forall|k: int| start + 1 <= k < after.len() implies {
            &&& (#[trigger] after[k]).0@.len() > l
            &&& exists|i: int|
                0 <= i < j + 1 && (#[trigger] self.deps_of(last)[i]).0 == after[k].0@[l]
        } by {
            if k < before.len() {
                assert(after[k] == before[k]);
                let i = choose|i: int|
                    0 <= i < j && (#[trigger] self.deps_of(last)[i]).0 == before[k].0@[l];
            } else {
                assert(self.deps_of(last)[j].0 == after[k].0@[l]);
            }
        }
    }

    #[verifier::rlimit(100)]
    fn visit(
        &self,
        compat: &ElaborateWorkspace,
        latest: &ElaborateWorkspace,
        depth: Option<i32>,
        skip: &Vec<String>,
        path: Vec<usize>,
        compat_pkg: Option<usize>,
        latest_pkg: Option<usize>,
        cache: &mut Vec<StatusEntry>,
        Ghost(compat_root): Ghost<Option<usize>>,
        Ghost(latest_root): Ghost<Option<usize>>,
    )
        requires
            self.wf(),
            compat.wf(),
            latest.wf(),
            path@.len() >= 1,
            path@[0] < self.pkgs@.len(),
            self.is_walk(path@, path@[0], depth, skip@),
            compat_pkg == self.cursor(compat, compat_root, path@),
            latest_pkg == self.cursor(latest, latest_root, path@),
            compat_pkg matches Some(c) ==> c < compat.pkgs@.len(),
            latest_pkg matches Some(c) ==> c < latest.pkgs@.len(),
        ensures
            old(cache)@.is_prefix_of(final(cache)@),
            self.entries_below_ok(
                final(cache)@,
                old(cache)@.len() as int,
                path@,
                compat,
                latest,
                compat_root,
                latest_root,
                depth,
                skip@,
            ),
            self.walks_below_cached(final(cache)@, path@, depth, skip@),
            keys_distinct(final(cache)@, old(cache)@.len() as int),
        decreases self.pkgs@.len() - path@.len(),
    {
        let ghost root = path@[0];
        let n = self.pkgs.len();
        proof {
            self.lemma_walk_in_range(path@, root, depth, skip@, n);
        }
        let p = path[path.len() - 1];
        let compat_version = match compat_pkg {
            Some(c) => Some(&compat.pkgs[c].version),
            None => None,
        };
        let latest_version = match latest_pkg {
            Some(c) => Some(&latest.pkgs[c].version),
            None => None,
        };
        let status = PkgStatus {
            compat: Status::from_versions(&self.pkgs[p].version, compat_version),
            latest: Status::from_versions(&self.pkgs[p].version, latest_version),
        };
        let key = copy_path(&path);
        let ghost start = cache@.len() as int;
        cache.push((key, status));
        proof {
            reveal(ElaborateWorkspace::entries_below_ok);
            assert(self.entry_ok(cache@[start], compat, latest, compat_root, latest_root, root, depth, skip@));
            assert(path@.is_prefix_of(cache@[start].0@));
            assert(self.entries_below_ok(cache@, start, path@, compat, latest, compat_root, latest_root, depth, skip@));
            reveal(keys_distinct);
            assert(keys_distinct(cache@, start));
        }
        let go_deeper = match depth {
            None => true,
            Some(d) => d > 0 && path.len() - 1 < d as usize,
        };
        if go_deeper {
            let deps = &self.pkg_deps[p];
            proof {
                reveal(ElaborateWorkspace::children_cached);
                assert(self.children_cached(cache@, path@, depth, skip@, 0));
                reveal(ElaborateWorkspace::below_children);
                assert(self.below_children(cache@, start + 1, path@, 0));
            }
            let mut j: usize = 0;
            while j < deps.len()
                invariant
                    self.wf(),
                    compat.wf(),
                    latest.wf(),
                    path@.len() >= 1,
                    n == self.pkgs@.len(),
                    p == path@.last(),
                    p < self.pkgs@.len(),
                    root == path@[0],
                    root < self.pkgs@.len(),
                    deps@ == self.deps_of(p),
                    j <= deps@.len(),
                    self.is_walk(path@, root, depth, skip@),
                    path@.len() <= self.pkgs@.len(),
                    compat_pkg == self.cursor(compat, compat_root, path@),
                    latest_pkg == self.cursor(latest, latest_root, path@),
                    compat_pkg matches Some(c) ==> c < compat.pkgs@.len(),
                    latest_pkg matches Some(c) ==> c < latest.pkgs@.len(),
                    depth matches Some(d) ==> path@.len() - 1 < d,
                    old(cache)@.is_prefix_of(cache@),
                    start == old(cache)@.len(),
                    start < cache@.len(),
                    cache@[start].0@ == path@,
                    self.entries_below_ok(cache@, start, path@, compat, latest, compat_root, latest_root, depth, skip@),
                    self.children_cached(cache@, path@, depth, skip@, j as int),
                    keys_distinct(cache@, start),
                    self.below_children(cache@, start + 1, path@, j as int),
                decreases deps@.len() - j,
            {
                assert(deps@[j as int] == self.pkg_deps@[p as int]@[j as int]);
                let dep = deps[j].0;
                if !contains_index(&path, dep) && !contains_text(skip, self.pkgs[dep].name.as_str()) {
                    let name = self.pkgs[dep].name.as_str();
                    let next_compat = match compat_pkg {
                        Some(c) => compat.find_child_named(c, name),
                        None => None,
                    };
                    let next_latest = match latest_pkg {
                        Some(c) => latest.find_child_named(c, name),
                        None => None,
                    };
                    let mut next = copy_path(&path);
                    next.push(dep);
                    proof {
                        assert(next@ == path@.push(dep));
                        assert(self.has_edge(p, dep));
                        self.lemma_extend_walk(path@, dep, root, depth, skip@);
                        assert(next@[0] == root);
                        self.lemma_walk_in_range(next@, root, depth, skip@, n);
                    }
                    let ghost before = cache@;
                    let ghost next_view = next@;
                    self.visit(
                        compat,
                        latest,
                        depth,
                        skip,
                        next,
                        next_compat,
                        next_latest,
                        cache,
                        Ghost(compat_root),
                        Ghost(latest_root),
                    );
                    proof {
                        assert(cache@[start] == before[start]);
                        self.lemma_child_visited(before, cache@, path@, depth, skip@, j as int);
                        self.lemma_child_keys(
                            before,
                            cache@,
                            start,
                            path@,
                            j as int,
                            compat,
                            latest,
                            compat_root,
                            latest_root,
                            depth,
                            skip@,
                        );
                        self.lemma_entries_extend(
                            before,
                            cache@,
                            start,
                            path@,
                            next_view,
                            compat,
                            latest,
                            compat_root,
                            latest_root,
                            depth,
                            skip@,
                        );
                    }
                } else {
                    proof {
                        self.lemma_child_passed(cache@, path@, depth, skip@, j as int);
                        self.lemma_below_children_grow(cache@, start + 1, path@, j as int);
                    }
                }
                j = j + 1;
            }
            proof {
                self.lemma_all_children(cache@, start, path@, depth, skip@);
            }
        } else {
            proof {
                self.lemma_leaf(cache@, start, path@, depth, skip@);
            }
        }
    }
}

impl ElaborateWorkspace {
    /// The cache holds exactly the walks from `root`, each with its status
    /// against the compatible and the latest graph.
    pub open spec fn cache_exact(
        &self,
        compat: &ElaborateWorkspace,
        latest: &ElaborateWorkspace,
        compat_root: usize,
        latest_root: usize,
        root: usize,
        depth: Option<i32>,
        skip: Seq<String>,
    ) -> bool {
        &&& forall|k: int|
            0 <= k < self.pkg_status@.len() ==> self.entry_ok(
                #[trigger] self.pkg_status@[k],
                compat,
                latest,
                Some(compat_root),
                Some(latest_root),
                root,
                depth,
                skip,
            )
        &&& forall|q: Seq<usize>| #[trigger]
            self.is_walk(q, root, depth, skip) ==> cached(self.pkg_status@, q)
        &&& forall|a: int, b: int|
            0 <= a < b < self.pkg_status@.len() ==> (#[trigger] self.pkg_status@[a]).0@ != (
            #[trigger] self.pkg_status@[b]).0@
    }

    /// Fills the status cache: walks this graph from `root` and records, for
    /// each path, how its last package fares in `compat` and in `latest`. The
    /// counterpart of the root in each graph is the member of the same name in
    /// workspace mode, and the root that the options select otherwise; an error
    /// in finding it is returned, with the cache left empty. A negative depth is
    /// refused, with the cache left empty.
    pub fn resolve_status(
        &mut self,
        compat: &ElaborateWorkspace,
        latest: &ElaborateWorkspace,
        options: &Options,
        root: usize,
        skip: &Vec<String>,
    ) -> (r: Result<(), OutdatedError>)
        requires
            old(self).wf(),
            compat.wf(),
            latest.wf(),
            root < old(self).pkgs@.len(),
        ensures
            final(self).pkgs == old(self).pkgs,
            final(self).pkg_deps == old(self).pkg_deps,
            final(self).members == old(self).members,
            final(self).current == old(self).current,
            final(self).workspace_mode == old(self).workspace_mode,
            negative_depth(options.depth) ==> r == Err::<(), OutdatedError>(
                OutdatedError::InvalidDepth,
            ) && final(self).pkg_status@.len() == 0,
            !negative_depth(options.depth) ==> ({
                let root_name = match options.root {
                    Some(s) => Some(s@),
                    None => None,
                };
                match (
                    old(self).counterpart_root(compat, root_name, root),
                    old(self).counterpart_root(latest, root_name, root),
                ) {
                    (Ok(cr), Ok(lr)) => r is Ok && final(self).cache_exact(
                        compat,
                        latest,
                        cr,
                        lr,
                        root,
                        options.depth,
                        skip@,
                    ),
                    (Err(e), _) => r == Err::<(), OutdatedError>(e) && final(self).pkg_status@.len()
                        == 0,
                    (Ok(_), Err(e)) => r == Err::<(), OutdatedError>(e) && final(self).pkg_status@.len()
                        == 0,
                }
            }),
    {
        self.pkg_status = Vec::new();
        if let Some(d) = options.depth {
            if d < 0 {
                return Err(OutdatedError::InvalidDepth);
            }
        }
        let (compat_root, latest_root) = if self.workspace_mode {
            let name = self.pkgs[root].name.as_str();
            let c = match compat.find_member(name) {
                Ok(c) => c,
                Err(e) => return Err(e),
            };
            let l = match latest.find_member(name) {
                Ok(l) => l,
                Err(e) => return Err(e),
            };
            (c, l)
        } else {
            let c = match compat.determine_root(options) {
                Ok(c) => c,
                Err(e) => return Err(e),
            };
            let l = match latest.determine_root(options) {
                Ok(l) => l,
                Err(e) => return Err(e),
            };
            (c, l)
        };
        let ghost before = *self;
        let mut cache: Vec<StatusEntry> = Vec::new();
        let mut start: Vec<usize> = Vec::new();
        start.push(root);
        proof {
            reveal(ElaborateWorkspace::is_walk);
            assert(self.is_walk(start@, root, options.depth, skip@));
        }
        self.visit(
            compat,
            latest,
            options.depth,
            skip,
            start,
            Some(compat_root),
            Some(latest_root),
            &mut cache,
            Ghost(Some(compat_root)),
            Ghost(Some(latest_root)),
        );
        let ghost entries = cache@;
        self.pkg_status = cache;
        proof {
            reveal(ElaborateWorkspace::is_walk);
            reveal(ElaborateWorkspace::entries_below_ok);
            reveal(ElaborateWorkspace::walks_below_cached);
            reveal(keys_distinct);
            assert(self.pkgs == before.pkgs);
            assert(self.pkg_deps == before.pkg_deps);
            assert(start@[0] == root);
            assert forall|k: int| 0 <= k < entries.len() implies self.entry_ok(
                #[trigger] entries[k],
                compat,
                latest,
                Some(compat_root),
                Some(latest_root),
                root,
                options.depth,
                skip@,
            ) by {
                let path = entries[k].0@;
                assert(before.entry_ok(entries[k], compat, latest, Some(compat_root), Some(latest_root), root, options.depth, skip@));
                lemma_walk_same(before, *self, path, root, options.depth, skip@);
                lemma_cursor_same(before, *self, compat, Some(compat_root), path);
                lemma_cursor_same(before, *self, latest, Some(latest_root), path);
            }
            assert forall|q: Seq<usize>| #[trigger]
                self.is_walk(q, root, options.depth, skip@) implies cached(entries, q) by {
                lemma_walk_same(before, *self, q, root, options.depth, skip@);
                assert(start@.is_prefix_of(q));
            }
        }
        Ok(())
    }
}

proof fn lemma_cursor_same(
    a: ElaborateWorkspace,
    b: ElaborateWorkspace,
    other: &ElaborateWorkspace,
    start: Option<usize>,
    path: Seq<usize>,
)
    requires
        a.pkgs == b.pkgs,
    ensures
        a.cursor(other, start, path) == b.cursor(other, start, path),
    decreases path.len(),
{
    if path.len() > 1 {
        lemma_cursor_same(a, b, other, start, path.drop_last());
    }
}

proof fn lemma_walk_same(
    a: ElaborateWorkspace,
    b: ElaborateWorkspace,
    q: Seq<usize>,
    root: usize,
    depth: Option<i32>,
    skip: Seq<String>,
)
    requires
        a.pkgs == b.pkgs,
        a.pkg_deps == b.pkg_deps,
    ensures
        a.is_walk(q, root, depth, skip) == b.is_walk(q, root, depth, skip),
{
    reveal(ElaborateWorkspace::is_walk);
    assert forall|x: usize, y: usize| a.has_edge(x, y) == b.has_edge(x, y) by {
        assert(a.deps_of(x) == b.deps_of(x));
        if a.has_edge(x, y) {
            let j = choose|j: int| 0 <= j < a.deps_of(x).len() && (#[trigger] a.deps_of(x)[j]).0 == y;
            assert(b.deps_of(x)[j].0 == y);
        }
        if b.has_edge(x, y) {
            let j = choose|j: int| 0 <= j < b.deps_of(x).len() && (#[trigger] b.deps_of(x)[j]).0 == y;
            assert(a.deps_of(x)[j].0 == y);
        }
    }
    assert forall|x: usize| a.name_of(x) == b.name_of(x) by {}
}

/// Each cached status reports a change exactly where the counterpart of the
/// package is missing or carries another version, on either side.
pub proof fn lemma_status_symmetry(
    w: &ElaborateWorkspace,
    compat: &ElaborateWorkspace,
    latest: &ElaborateWorkspace,
    compat_root: usize,
    latest_root: usize,
    root: usize,
    depth: Option<i32>,
    skip: Seq<String>,
    k: int,
)
    requires
        w.cache_exact(compat, latest, compat_root, latest_root, root, depth, skip),
        0 <= k < w.pkg_status@.len(),
    ensures
        ({
            let path = w.pkg_status@[k].0@;
            let version = w.pkgs@[path.last() as int].version@;
            &&& changed(w.pkg_status@[k].1.compat@) <==> match w.cursor(compat, Some(compat_root), path) {
                None => true,
                Some(c) => compat.pkgs@[c as int].version@ != version,
            }
            &&& changed(w.pkg_status@[k].1.latest@) <==> match w.cursor(latest, Some(latest_root), path) {
                None => true,
                Some(c) => latest.pkgs@[c as int].version@ != version,
            }
        }),
{
    assert(w.entry_ok(w.pkg_status@[k], compat, latest, Some(compat_root), Some(latest_root), root, depth, skip));
}

/// With a finite depth `d`, no cached path holds more than `d + 1` packages.
pub proof fn lemma_depth_obeyed(
    w: &ElaborateWorkspace,
    compat: &ElaborateWorkspace,
    latest: &ElaborateWorkspace,
    compat_root: usize,
    latest_root: usize,
    root: usize,
    d: i32,
    skip: Seq<String>,
)
    requires
        w.cache_exact(compat, latest, compat_root, latest_root, root, Some(d), skip),
    ensures
        forall|k: int| 0 <= k < w.pkg_status@.len() ==> (#[trigger] w.pkg_status@[k]).0@.len() <= d + 1,
{
    assert forall|k: int| 0 <= k < w.pkg_status@.len() implies (#[trigger] w.pkg_status@[k]).0@.len() <= d + 1 by {
        assert(w.entry_ok(w.pkg_status@[k], compat, latest, Some(compat_root), Some(latest_root), root, Some(d), skip));
        reveal(ElaborateWorkspace::is_walk);
    }
}

/// No cached path holds a package twice, so a cycle in the graph is never
/// followed around.
pub proof fn lemma_paths_acyclic(
    w: &ElaborateWorkspace,
    compat: &ElaborateWorkspace,
    latest: &ElaborateWorkspace,
    compat_root: usize,
    latest_root: usize,
    root: usize,
    depth: Option<i32>,
    skip: Seq<String>,
)
    requires
        w.cache_exact(compat, latest, compat_root, latest_root, root, depth, skip),
    ensures
        forall|k: int| 0 <= k < w.pkg_status@.len() ==> (#[trigger] w.pkg_status@[k]).0@.no_duplicates(),
{
    assert forall|k: int| 0 <= k < w.pkg_status@.len() implies (#[trigger] w.pkg_status@[k]).0@.no_duplicates() by {
        assert(w.entry_ok(w.pkg_status@[k], compat, latest, Some(compat_root), Some(latest_root), root, depth, skip));
        reveal(ElaborateWorkspace::is_walk);
    }
}

impl ElaborateWorkspace {
    /// Whether `x` is reached from a member in at most `n` dependency steps.
    pub open spec fn reached_from_members(&self, x: usize, n: nat) -> bool
        decreases n,
    {
        if n == 0 {
            self.members@.contains(x)
        } else {
            self.reached_from_members(x, (n - 1) as nat) || exists|y: usize|
                #[trigger] self.has_edge(y, x) && self.reached_from_members(y, (n - 1) as nat)
        }
    }

    /// Whether `x` is reachable from a member.
    pub open spec fn member_reachable(&self, x: usize) -> bool {
        exists|n: nat| #[trigger] self.reached_from_members(x, n)
    }

    /// The packages reachable from a member, each once.
    pub fn reachable_from_members(&self) -> (r: Vec<usize>)
        requires
            self.wf(),
        ensures
            r@.no_duplicates(),
            forall|x: usize| r@.contains(x) <==> self.member_reachable(x),
    {
        let n = self.pkgs.len();
        let mut seen: Vec<bool> = Vec::new();
        let mut i: usize = 0;
        while i < n
            invariant
                n == self.pkgs@.len(),
                i <= n,
                seen@.len() == i,
                forall|k: int| 0 <= k < i ==> !seen@[k],
            decreases n - i,
        {
            seen.push(false);
            i = i + 1;
        }
        let mut stack: Vec<usize> = copy_path(&self.members);
        proof {
            assert forall|k: int| 0 <= k < stack@.len() implies self.member_reachable(#[trigger] stack@[k]) by {
                assert(self.members@.contains(stack@[k]));
                assert(self.reached_from_members(stack@[k], 0));
            }
        }
        let mut out: Vec<usize> = Vec::new();
        while stack.len() > 0
            invariant
                self.wf(),
                n == self.pkgs@.len(),
                seen@.len() == n,
                forall|k: int| 0 <= k < stack@.len() ==> #[trigger] stack@[k] < n,
                forall|k: int| 0 <= k < stack@.len() ==> self.member_reachable(#[trigger] stack@[k]),
                out@.no_duplicates(),
                forall|x: usize| out@.contains(x) <==> (x < n && seen@[x as int]),
                forall|x: usize| #[trigger] out@.contains(x) ==> self.member_reachable(x),
                forall|x: usize, y: usize|
                    out@.contains(x) && #[trigger] self.has_edge(x, y) ==> out@.contains(y)
                        || stack@.contains(y),
                forall|x: usize| #[trigger] self.members@.contains(x) ==> out@.contains(x) || stack@.contains(x),
            decreases unseen_count(seen@, n as int), stack@.len(),
        {
            let ghost s0 = stack@;
            let p = stack.pop().unwrap();
            proof {
                assert(s0 =~= stack@.push(p));
                assert(self.member_reachable(s0[s0.len() - 1]));
                assert(p < n);
            }
            if !seen[p] {
                let ghost seen0 = seen@;
                let ghost out0 = out@;
                seen.set(p, true);
                out.push(p);
                proof {
                    lemma_unseen_drops(seen0, p as int, n as int);
                    assert(seen@ == seen0.update(p as int, true));
                    assert(out@ == out0.push(p));
                    assert forall|x: usize| out@.contains(x) implies (x < n && seen@[x as int]) by {
                        let k = choose|k: int| 0 <= k < out@.len() && out@[k] == x;
                        if k < out0.len() {
                            assert(out0[k] == x);
                            assert(out0.contains(x));
                            assert(seen0[x as int]);
                        }
                    }
                    assert forall|x: usize| (x < n && seen@[x as int]) implies out@.contains(x) by {
                        if x == p {
                            assert(out@[out@.len() - 1] == x);
                        } else {
                            assert(seen0[x as int]);
                            assert(out0.contains(x));
                            let k = choose|k: int| 0 <= k < out0.len() && out0[k] == x;
                            assert(out@[k] == x);
                        }
                    }
                    assert forall|a: int, b: int| 0 <= a < b < out@.len() implies out@[a] != out@[b] by {
                        if b == out@.len() - 1 {
                            assert(out0.contains(out@[a]));
                        }
                    }
                }
                let deps = &self.pkg_deps[p];
                let ghost st1 = stack@;
                let mut j: usize = 0;
                while j < deps.len()
                    invariant
                        self.wf(),
                        n == self.pkgs@.len(),
                        p < n,
                        deps@ == self.deps_of(p),
                        j <= deps@.len(),
                        self.member_reachable(p),
                        forall|k: int| 0 <= k < stack@.len() ==> #[trigger] stack@[k] < n,
                        forall|k: int| 0 <= k < stack@.len() ==> self.member_reachable(#[trigger] stack@[k]),
                        forall|x: usize| st1.contains(x) ==> stack@.contains(x),
                        forall|k: int| 0 <= k < j ==> stack@.contains((#[trigger] deps@[k]).0),
                        out@ == out0.push(p),
                        s0 == st1.push(p),
                        forall|x: usize, y: usize|
                            out0.contains(x) && #[trigger] self.has_edge(x, y) ==> out0.contains(y)
                                || s0.contains(y),
                        forall|x: usize| #[trigger] self.members@.contains(x) ==> out0.contains(x) || s0.contains(x),
                    decreases deps@.len() - j,
                {
                    let d = deps[j].0;
                    proof {
                        assert(deps@[j as int] == self.pkg_deps@[p as int]@[j as int]);
                        assert(self.has_edge(p, d));
                        let m = choose|m: nat| #[trigger] self.reached_from_members(p, m);
                        assert(self.reached_from_members(d, m + 1));
                    }
                    let ghost st2 = stack@;
                    stack.push(d);
                    proof {
                        assert forall|x: usize| st2.contains(x) implies stack@.contains(x) by {
                            let k = choose|k: int| 0 <= k < st2.len() && st2[k] == x;
                            assert(stack@[k] == x);
                        }
                        assert(stack@[stack@.len() - 1] == d);
                    }
                    j = j + 1;
                }
                proof {
                    assert(out@[out@.len() - 1] == p);
                    assert forall|y: usize| out0.contains(y) implies out@.contains(y) by {
                        let k = choose|k: int| 0 <= k < out0.len() && out0[k] == y;
                        assert(out@[k] == y);
                    }
                    assert forall|y: usize| s0.contains(y) implies out@.contains(y) || stack@.contains(y) by {
                        let k = choose|k: int| 0 <= k < s0.len() && s0[k] == y;
                        if k < s0.len() - 1 {
                            assert(st1[k] == y);
                            assert(st1.contains(y));
                        }
                    }
                    assert forall|x: usize, y: usize|
                        out@.contains(x) && #[trigger] self.has_edge(x, y) implies out@.contains(y)
                            || stack@.contains(y) by {
                        if x == p {
                            let k = choose|k: int| 0 <= k < self.deps_of(p).len() && (#[trigger] self.deps_of(p)[k]).0 == y;
                            assert(stack@.contains(deps@[k].0));
                        } else {
                            let k = choose|k: int| 0 <= k < out@.len() && out@[k] == x;
                            assert(out0[k] == x);
                            assert(out0.contains(x));
                        }
                    }
                    assert forall|x: usize| #[trigger] self.members@.contains(x) implies out@.contains(x)
                        || stack@.contains(x) by {
                    }
                }
            } else {
                proof {
                    assert(seen@[p as int]);
                    assert(out@.contains(p));
                    assert forall|x: usize, y: usize|
                        out@.contains(x) && #[trigger] self.has_edge(x, y) implies out@.contains(y)
                            || stack@.contains(y) by {
                        if !out@.contains(y) {
                            assert(s0.contains(y));
                            let k = choose|k: int| 0 <= k < s0.len() && s0[k] == y;
                            if k < s0.len() - 1 {
                                assert(stack@[k] == y);
                            } else {
                                assert(y == p);
                                assert(out@.contains(p));
                            }
                        }
                    }
                    assert forall|x: usize| #[trigger] self.members@.contains(x) implies out@.contains(x)
                        || stack@.contains(x) by {
                        if !out@.contains(x) {
                            let k = choose|k: int| 0 <= k < s0.len() && s0[k] == x;
                            if k < s0.len() - 1 {
                                assert(stack@[k] == x);
                            }
                        }
                    }
                }
            }
        }
        proof {
            assert forall|x: usize| self.member_reachable(x) implies out@.contains(x) by {
                let m = choose|m: nat| #[trigger] self.reached_from_members(x, m);
                self.lemma_closed_holds_reached(out@, x, m);
            }
        }
        out
    }

    proof fn lemma_closed_holds_reached(&self, out: Seq<usize>, x: usize, m: nat)
        requires
            forall|y: usize| #[trigger] self.members@.contains(y) ==> out.contains(y),
            forall|a: usize, b: usize| out.contains(a) && #[trigger] self.has_edge(a, b) ==> out.contains(b),
            self.reached_from_members(x, m),
        ensures
            out.contains(x),
        decreases m,
    {
        if m > 0 {
            if self.reached_from_members(x, (m - 1) as nat) {
                self.lemma_closed_holds_reached(out, x, (m - 1) as nat);
            } else {
                let y = choose|y: usize| #[trigger] self.has_edge(y, x) && self.reached_from_members(y, (m - 1) as nat);
                self.lemma_closed_holds_reached(out, y, (m - 1) as nat);
            }
        }
    }
}

/// The number of entries among the first `n` that are still `false`.
pub open spec fn unseen_count(seen: Seq<bool>, n: int) -> nat
    decreases n,
{
    if n <= 0 {
        0
    } else {
        unseen_count(seen, n - 1) + if seen[n - 1] {
            0nat
        } else {
            1nat
        }
    }
}

proof fn lemma_unseen_drops(seen: Seq<bool>, p: int, n: int)
    requires
        0 <= p < n <= seen.len(),
        !seen[p],
    ensures
        unseen_count(seen.update(p, true), n) < unseen_count(seen, n),
    decreases n,
{
    if n - 1 > p {
        lemma_unseen_drops(seen, p, n - 1);
    } else {
        lemma_unseen_same(seen, p, n - 1);
    }
}

proof fn lemma_unseen_same(seen: Seq<bool>, p: int, n: int)
    requires
        0 <= n <= p < seen.len(),
    ensures
        unseen_count(seen.update(p, true), n) == unseen_count(seen, n),
    decreases n,
{
    if n > 0 {
        lemma_unseen_same(seen, p, n - 1);
    }
}

/// A copy of a path.
fn copy_path(path: &Vec<usize>) -> (r: Vec<usize>)
    ensures
        r@ == path@,
{
    let mut r: Vec<usize> = Vec::new();
    let mut i: usize = 0;
    while i < path.len()
        invariant
            i <= path@.len(),
            r@ == path@.take(i as int),
        decreases path@.len() - i,
    {
        r.push(path[i]);
        i = i + 1;
        assert(r@ =~= path@.take(i as int));
    }
    assert(path@.take(path@.len() as int) =~= path@);
    r
}

/// Whether `x` lies on `path`.
pub(crate) fn contains_index(path: &Vec<usize>, x: usize) -> (r: bool)
    ensures
        r == path@.contains(x),
{
    let mut i: usize = 0;
    while i < path.len()
        invariant
            i <= path@.len(),
            forall|k: int| 0 <= k < i ==> path@[k] != x,
        decreases path@.len() - i,
    {
        if path[i] == x {
            return true;
        }
        i = i + 1;
    }
    false
}

} // verus!
