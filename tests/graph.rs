use cargo_outdated::report::{list_line, list_lines, sort_and_dedup};
use cargo_outdated::{
    DepKind, DependencyEdge, ElaborateWorkspace, Metadata, Options, OutdatedError, PackageRecord,
    Status, Version,
};

fn pkg(name: &str, version: &str) -> PackageRecord {
    PackageRecord {
        name: name.to_string(),
        version: Version::parse(version).unwrap(),
        in_workspace: false,
    }
}

fn edge(to: usize) -> (usize, DependencyEdge) {
    (to, DependencyEdge { kind: DepKind::Normal, platform: None })
}

fn graph(pkgs: Vec<PackageRecord>, deps: Vec<Vec<(usize, DependencyEdge)>>) -> ElaborateWorkspace {
    ElaborateWorkspace::new(pkgs, deps, vec![0], Some(0), false).unwrap()
}

fn diamond(c_version: &str) -> ElaborateWorkspace {
    graph(
        vec![pkg("root", "0.1.0"), pkg("a", "1.0.0"), pkg("b", "1.0.0"), pkg("c", c_version)],
        vec![vec![edge(1), edge(2)], vec![edge(3)], vec![edge(3)], vec![]],
    )
}

fn lines(w: &ElaborateWorkspace, opts: &Options) -> Vec<String> {
    list_lines(&w.report(opts, 0).unwrap())
}

#[test]
fn status_from_versions() {
    let a = Version::parse("1.0.0").unwrap();
    let b = Version::parse("1.0.3").unwrap();
    let same = Status::from_versions(&a, Some(&a));
    let newer = Status::from_versions(&a, Some(&b));
    let gone = Status::from_versions(&a, None);
    assert!(!same.is_changed());
    assert!(newer.is_changed());
    assert!(gone.is_changed());
    assert_eq!(same.to_text(), "---");
    assert_eq!(newer.to_text(), "1.0.3");
    assert_eq!(gone.to_text(), "Removed");
}

#[test]
fn up_to_date_single_crate() {
    let mk = || graph(vec![pkg("root", "0.1.0"), pkg("foo", "1.0.0")], vec![vec![edge(1)], vec![]]);
    let mut cur = mk();
    let opts = Options::default();
    cur.resolve_status(&mk(), &mk(), &opts, 0, &vec![]).unwrap();
    assert_eq!(cur.pkg_status.len(), 2);
    assert!(lines(&cur, &opts).is_empty());
}

#[test]
fn compatible_patch_available() {
    let mk = |v: &str| graph(vec![pkg("root", "0.1.0"), pkg("foo", v)], vec![vec![edge(1)], vec![]]);
    let mut cur = mk("1.0.0");
    let opts = Options::default();
    cur.resolve_status(&mk("1.0.3"), &mk("1.0.3"), &opts, 0, &vec![]).unwrap();
    assert_eq!(lines(&cur, &opts), vec!["foo\t1.0.0\t1.0.3\t1.0.3\tNormal\t---\n".to_string()]);
}

#[test]
fn incompatible_major_available() {
    let mk = |v: &str| graph(vec![pkg("root", "0.1.0"), pkg("foo", v)], vec![vec![edge(1)], vec![]]);
    let mut cur = mk("1.0.5");
    let opts = Options::default();
    cur.resolve_status(&mk("1.0.5"), &mk("2.0.0"), &opts, 0, &vec![]).unwrap();
    assert_eq!(lines(&cur, &opts), vec!["foo\t1.0.5\t---\t2.0.0\tNormal\t---\n".to_string()]);
}

#[test]
fn transitive_diamond() {
    let mut cur = diamond("1.0.0");
    let opts = Options::default();
    cur.resolve_status(&diamond("1.0.1"), &diamond("1.0.1"), &opts, 0, &vec![]).unwrap();
    assert_eq!(
        lines(&cur, &opts),
        vec![
            "a->c\t1.0.0\t1.0.1\t1.0.1\tNormal\t---\n".to_string(),
            "b->c\t1.0.0\t1.0.1\t1.0.1\tNormal\t---\n".to_string(),
        ]
    );
}

#[test]
fn removed_in_latest() {
    let mut cur = graph(vec![pkg("root", "0.1.0"), pkg("foo", "1.0.0")], vec![vec![edge(1)], vec![]]);
    let compat = graph(vec![pkg("root", "0.1.0"), pkg("foo", "1.0.0")], vec![vec![edge(1)], vec![]]);
    let latest = graph(vec![pkg("root", "0.1.0")], vec![vec![]]);
    let opts = Options::default();
    cur.resolve_status(&compat, &latest, &opts, 0, &vec![]).unwrap();
    assert_eq!(lines(&cur, &opts), vec!["foo\t1.0.0\t---\tRemoved\tNormal\t---\n".to_string()]);
}

#[test]
fn root_row_has_no_kind() {
    let mut cur = graph(vec![pkg("root", "0.1.0")], vec![vec![]]);
    let newer = graph(vec![pkg("root", "0.2.0")], vec![vec![]]);
    let opts = Options::default();
    cur.resolve_status(&newer, &newer, &opts, 0, &vec![]).unwrap();
    assert_eq!(lines(&cur, &opts), vec!["root\t0.1.0\t0.2.0\t0.2.0\t---\t---\n".to_string()]);
}

#[test]
fn cycles_terminate() {
    let mk = || {
        graph(
            vec![pkg("root", "0.1.0"), pkg("a", "1.0.0"), pkg("b", "1.0.0")],
            vec![vec![edge(1)], vec![edge(2)], vec![edge(1)]],
        )
    };
    let mut cur = mk();
    cur.resolve_status(&mk(), &mk(), &Options::default(), 0, &vec![]).unwrap();
    let mut keys: Vec<Vec<usize>> = cur.pkg_status.iter().map(|e| e.0.clone()).collect();
    keys.sort();
    assert_eq!(keys, vec![vec![0], vec![0, 1], vec![0, 1, 2]]);
}

#[test]
fn depth_is_obeyed() {
    let mut cur = diamond("1.0.0");
    let opts = Options { depth: Some(1), ..Options::default() };
    cur.resolve_status(&diamond("1.0.1"), &diamond("1.0.1"), &opts, 0, &vec![]).unwrap();
    assert_eq!(cur.pkg_status.len(), 3);
    assert!(cur.pkg_status.iter().all(|e| e.0.len() <= 2));
    assert!(lines(&cur, &opts).is_empty());
}

#[test]
fn ignored_and_skipped_names() {
    let mut cur = diamond("1.0.0");
    let opts = Options { ignore: vec!["a".to_string()], ..Options::default() };
    cur.resolve_status(&diamond("1.0.1"), &diamond("1.0.1"), &opts, 0, &vec![]).unwrap();
    assert_eq!(lines(&cur, &opts), vec!["b->c\t1.0.0\t1.0.1\t1.0.1\tNormal\t---\n".to_string()]);
    let opts = Options::default();
    cur.resolve_status(&diamond("1.0.1"), &diamond("1.0.1"), &opts, 0, &vec!["c".to_string()]).unwrap();
    assert_eq!(cur.pkg_status.len(), 3);
    assert!(lines(&cur, &opts).is_empty());
}

#[test]
fn package_filter() {
    let mut cur = diamond("1.0.0");
    let opts = Options { packages: vec!["a".to_string()], ..Options::default() };
    cur.resolve_status(&diamond("1.0.1"), &diamond("1.0.1"), &opts, 0, &vec![]).unwrap();
    assert!(lines(&cur, &opts).is_empty());
}

#[test]
fn workspace_mode_uses_bare_names() {
    let mk = |c: &str| {
        ElaborateWorkspace::new(
            vec![pkg("root", "0.1.0"), pkg("a", "1.0.0"), pkg("c", c)],
            vec![vec![edge(1)], vec![edge(2)], vec![]],
            vec![0],
            Some(0),
            true,
        )
        .unwrap()
    };
    let mut cur = mk("1.0.0");
    let opts = Options::default();
    cur.resolve_status(&mk("1.1.0"), &mk("1.1.0"), &opts, 0, &vec![]).unwrap();
    assert_eq!(lines(&cur, &opts), vec!["c\t1.0.0\t1.1.0\t1.1.0\tNormal\t---\n".to_string()]);
}

#[test]
fn rows_deduplicated_and_sorted() {
    let row = |n: &str| Metadata {
        name: n.to_string(),
        project: "1.0.0".to_string(),
        compat: "---".to_string(),
        latest: "2.0.0".to_string(),
        kind: Some("Normal".to_string()),
        platform: None,
    };
    let out = sort_and_dedup(vec![row("zeta"), row("alpha"), row("zeta"), row("mid")]);
    let names: Vec<String> = out.iter().map(|m| m.name.clone()).collect();
    assert_eq!(names, vec!["alpha", "mid", "zeta"]);
    assert_eq!(list_line(&out[0]), "alpha\t1.0.0\t---\t2.0.0\tNormal\t---\n");
}

#[test]
fn root_selection() {
    let w = diamond("1.0.0");
    assert_eq!(w.determine_root(&Options::default()), Ok(0));
    let named = Options { root: Some("b".to_string()), ..Options::default() };
    assert_eq!(w.determine_root(&named), Ok(2));
    let missing = Options { root: Some("c".to_string()), ..Options::default() };
    assert_eq!(w.determine_root(&missing), Err(OutdatedError::RootNotFound));
    let virt = ElaborateWorkspace::new(vec![pkg("a", "1.0.0")], vec![vec![]], vec![0], None, false).unwrap();
    assert!(virt.workspace_mode);
    assert_eq!(virt.determine_root(&named), Err(OutdatedError::RootInVirtualWorkspace));
    assert_eq!(virt.determine_root(&Options::default()), Err(OutdatedError::NoWorkspace));
}

#[test]
fn member_and_dependency_lookups() {
    let mut pkgs = vec![pkg("root", "0.1.0"), pkg("a", "1.0.0"), pkg("c", "1.0.0"), pkg("c", "2.0.0")];
    pkgs[0].in_workspace = true;
    let w = ElaborateWorkspace::new(pkgs, vec![vec![edge(1), edge(3)], vec![edge(2)], vec![], vec![]], vec![0], Some(0), false)
        .unwrap();
    assert_eq!(w.find_member("root"), Ok(0));
    assert_eq!(w.find_member("a"), Err(OutdatedError::MemberNotFound));
    assert_eq!(w.find_contained_package("root"), Ok(0));
    assert_eq!(w.find_contained_package("a"), Err(OutdatedError::PackageNotFound));
    assert_eq!(w.find_direct_dependency("c", "root"), Ok(3));
    assert_eq!(w.find_direct_dependency("a", "root"), Ok(1));
    assert_eq!(w.find_direct_dependency("zzz", "root"), Err(OutdatedError::DepNotFound));
}

#[test]
fn counterpart_root_errors_propagate() {
    let mut cur = diamond("1.0.0");
    let other = ElaborateWorkspace::new(vec![pkg("x", "1.0.0")], vec![vec![]], vec![0], Some(0), false).unwrap();
    let opts = Options { root: Some("a".to_string()), ..Options::default() };
    assert_eq!(cur.resolve_status(&other, &other, &opts, 0, &vec![]), Err(OutdatedError::RootNotFound));
    assert!(cur.pkg_status.is_empty());
}

#[test]
fn malformed_graphs_and_caches() {
    let bad = ElaborateWorkspace::new(vec![pkg("a", "1.0.0")], vec![vec![edge(4)]], vec![0], Some(0), false);
    assert_eq!(bad.err(), Some(OutdatedError::CannotElaborateWorkspace));
    let mut w = diamond("1.0.0");
    w.resolve_status(&diamond("1.0.0"), &diamond("1.0.0"), &Options::default(), 0, &vec![]).unwrap();
    let mut broken = w.pkg_status[0].clone();
    broken.0 = vec![];
    w.pkg_status.push(broken);
    assert_eq!(w.report(&Options::default(), 0).err().map(|e| e.message()), Some("Empty path cannot get last"));
    w.pkg_status.last_mut().unwrap().0 = vec![9];
    assert_eq!(w.report_rows(&Options::default()).err(), Some(OutdatedError::NoMatchingDependency));
}

#[test]
fn packages_reachable_from_members() {
    let w = ElaborateWorkspace::new(
        vec![pkg("root", "0.1.0"), pkg("a", "1.0.0"), pkg("b", "1.0.0"), pkg("lonely", "1.0.0")],
        vec![vec![edge(1)], vec![edge(2)], vec![edge(1)], vec![edge(0)]],
        vec![0],
        Some(0),
        false,
    )
    .unwrap();
    let mut r = w.reachable_from_members();
    r.sort();
    assert_eq!(r, vec![0, 1, 2]);
}

#[test]
fn duplicate_edges_rejected() {
    let dup = ElaborateWorkspace::new(
        vec![pkg("root", "0.1.0"), pkg("a", "1.0.0")],
        vec![vec![edge(1), edge(1)], vec![]],
        vec![0],
        Some(0),
        false,
    );
    assert_eq!(dup.err(), Some(OutdatedError::CannotElaborateWorkspace));
}

#[test]
fn negative_depth_caches_nothing() {
    let mut cur = diamond("1.0.0");
    let opts = Options { depth: Some(-1), ..Options::default() };
    assert_eq!(
        cur.resolve_status(&diamond("1.0.1"), &diamond("1.0.1"), &opts, 0, &vec![]),
        Err(OutdatedError::InvalidDepth)
    );
    assert!(cur.pkg_status.is_empty());
    let zero = Options { depth: Some(0), ..Options::default() };
    cur.resolve_status(&diamond("1.0.1"), &diamond("1.0.1"), &zero, 0, &vec![]).unwrap();
    assert_eq!(cur.pkg_status.len(), 1);
}

#[test]
fn excluded_names_not_reported() {
    let mut cur = diamond("1.0.0");
    let opts = Options { exclude: vec!["c".to_string()], ..Options::default() };
    cur.resolve_status(&diamond("1.0.1"), &diamond("1.0.1"), &opts, 0, &vec![]).unwrap();
    assert_eq!(cur.pkg_status.len(), 5);
    assert!(lines(&cur, &opts).is_empty());
    let opts = Options { exclude: vec!["a".to_string()], ..Options::default() };
    cur.resolve_status(&diamond("1.0.1"), &diamond("1.0.1"), &opts, 0, &vec![]).unwrap();
    assert_eq!(lines(&cur, &opts), vec!["b->c\t1.0.0\t1.0.1\t1.0.1\tNormal\t---\n".to_string()]);
}

#[test]
fn row_order_ignores_input_order() {
    let row = |n: &str, v: &str, k: Option<&str>| Metadata {
        name: n.to_string(),
        project: v.to_string(),
        compat: "---".to_string(),
        latest: "2.0.0".to_string(),
        kind: k.map(|s| s.to_string()),
        platform: None,
    };
    let a = sort_and_dedup(vec![row("c", "1.1.0", None), row("c", "1.0.0", Some("Normal")), row("c", "1.0.0", None)]);
    let b = sort_and_dedup(vec![row("c", "1.0.0", None), row("c", "1.0.0", Some("Normal")), row("c", "1.1.0", None)]);
    let la: Vec<String> = a.iter().map(list_line).collect();
    let lb: Vec<String> = b.iter().map(list_line).collect();
    assert_eq!(la, lb);
    assert_eq!(
        la,
        vec![
            "c\t1.0.0\t---\t2.0.0\t---\t---\n".to_string(),
            "c\t1.0.0\t---\t2.0.0\tNormal\t---\n".to_string(),
            "c\t1.1.0\t---\t2.0.0\t---\t---\n".to_string(),
        ]
    );
}
