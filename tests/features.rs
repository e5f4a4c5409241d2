use cargo_outdated::features::feature_includes;
use cargo_outdated::manifest::{apply_update, path_action, plan_dependency, DepDetail, DepEntry, DepPlan, PathAction};
use cargo_outdated::Options;

fn strings(v: &[&str]) -> Vec<String> {
    v.iter().map(|s| s.to_string()).collect()
}

fn table() -> Option<Vec<(String, Vec<String>)>> {
    Some(vec![
        ("full".to_string(), strings(&["tls", "json"])),
        ("tls".to_string(), strings(&["openssl", "full"])),
        ("json".to_string(), strings(&["serde_json"])),
        ("extra".to_string(), strings(&["rayon"])),
    ])
}

#[test]
fn feature_closure() {
    let opts = Options { features: strings(&["full"]), ..Options::default() };
    assert!(feature_includes(&opts, "openssl", true, &table()));
    assert!(feature_includes(&opts, "serde_json", true, &table()));
    assert!(!feature_includes(&opts, "rayon", true, &table()));
    assert!(!feature_includes(&opts, "rayon", false, &None));
    let all = Options::default();
    assert!(feature_includes(&all, "rayon", true, &None));
    let with_default = Options { features: strings(&["default"]), ..Options::default() };
    assert!(feature_includes(&with_default, "anything", false, &None));
    assert!(!feature_includes(&with_default, "anything", true, &None));
}

fn detail(version: Option<&str>, features: Option<&[&str]>, optional: bool) -> DepDetail {
    DepDetail {
        package: None,
        version: version.map(|s| s.to_string()),
        optional,
        features: features.map(strings),
    }
}

#[test]
fn excluded_dependency_removed() {
    let opts = Options { exclude: strings(&["foo"]), ..Options::default() };
    let entry = DepEntry::Simple("1.0".to_string());
    assert!(matches!(plan_dependency("foo", &entry, &opts, &None, true), DepPlan::Remove));
    assert!(matches!(plan_dependency("foo", &entry, &opts, &None, false), DepPlan::Remove));
}

#[test]
fn lookup_plans() {
    let opts = Options::default();
    let simple = DepEntry::Simple("1.0".to_string());
    match plan_dependency("foo", &simple, &opts, &None, true) {
        DepPlan::Query { query, requirement } => {
            assert_eq!(query, "foo");
            assert_eq!(requirement.as_deref(), Some("1.0"));
        }
        _ => panic!("expected a lookup"),
    }
    assert!(matches!(plan_dependency("foo", &simple, &opts, &None, false), DepPlan::Keep));
    let plain = DepEntry::Detailed(detail(Some("1.0"), None, false));
    assert!(matches!(plan_dependency("foo", &plain, &opts, &None, false), DepPlan::Keep));
    let mut renamed = detail(Some("0.3"), Some(&["std"]), false);
    renamed.package = Some("real-name".to_string());
    match plan_dependency("alias", &DepEntry::Detailed(renamed), &opts, &None, false) {
        DepPlan::Query { query, requirement } => {
            assert_eq!(query, "real-name");
            assert_eq!(requirement.as_deref(), Some("0.3"));
        }
        _ => panic!("expected a lookup"),
    }
    let narrow = Options { features: strings(&["json"]), ..Options::default() };
    let optional = DepEntry::Detailed(detail(Some("1"), None, true));
    assert!(matches!(plan_dependency("rayon", &optional, &narrow, &table(), true), DepPlan::Keep));
    assert!(matches!(plan_dependency("serde_json", &optional, &narrow, &table(), true), DepPlan::Query { .. }));
}

#[test]
fn update_applied() {
    let d = detail(Some("1.0"), Some(&["std", "gone", "derive"]), false);
    let available = strings(&["std", "derive", "alloc"]);
    let latest = apply_update(&d, "2.1.0", &available, true);
    assert_eq!(latest.version.as_deref(), Some("2.1.0"));
    assert_eq!(latest.features, Some(strings(&["std", "derive"])));
    let compat = apply_update(&d, "1.4.0", &available, false);
    assert_eq!(compat.version.as_deref(), Some("1.0"));
    let unversioned = apply_update(&detail(None, None, true), "3.0.0", &available, true);
    assert_eq!(unversioned.version, None);
    assert_eq!(unversioned.features, None);
    assert!(unversioned.optional);
}

#[test]
fn path_dependencies() {
    let opts = Options::default();
    assert!(matches!(path_action("local", &None, true, true, &opts), PathAction::Leave));
    assert!(matches!(path_action("local", &None, false, false, &opts), PathAction::Leave));
    assert!(matches!(path_action("local", &None, true, false, &opts), PathAction::Absolute));
    let only = Options { workspace_only: true, ..Options::default() };
    match path_action("alias", &Some("real".to_string()), true, false, &only) {
        PathAction::Drop { skipped } => assert_eq!(skipped, "real"),
        _ => panic!("expected the dependency to be dropped"),
    }
    match path_action("local", &None, true, false, &only) {
        PathAction::Drop { skipped } => assert_eq!(skipped, "local"),
        _ => panic!("expected the dependency to be dropped"),
    }
}
