use cargo_outdated::fmt::Format as Tagged;
use cargo_outdated::options::split_elem_by_ascii_whitespace;
use cargo_outdated::{Color, Format, Options, OutdatedError};

fn strings(v: &[&str]) -> Vec<String> {
    v.iter().map(|s| s.to_string()).collect()
}

#[test]
fn feature_flags() {
    let mut opts = Options::default();
    assert!(opts.all_features());
    assert!(!opts.no_default_features());
    opts.features = strings(&["one"]);
    assert!(!opts.all_features());
    assert!(opts.no_default_features());
    opts.features = strings(&["one", "default"]);
    assert!(!opts.no_default_features());
    assert!(!opts.locked());
    assert!(!opts.frozen());
}

#[test]
fn splitting_on_whitespace() {
    let out = split_elem_by_ascii_whitespace(&strings(&["one two", "  three\tfour ", "", "five"]));
    assert_eq!(out, strings(&["one", "two", "three", "four", "five"]));
}

#[test]
fn normalized_lists_and_depth() {
    let opts = Options {
        features: strings(&["one two three"]),
        ignore: strings(&["a", "b c"]),
        exclude: strings(&["x y"]),
        packages: strings(&["p  q"]),
        root_deps_only: true,
        ..Options::default()
    };
    let n = opts.normalized().unwrap();
    assert_eq!(n.features, strings(&["one", "two", "three"]));
    assert_eq!(n.ignore, strings(&["a", "b", "c"]));
    assert_eq!(n.exclude, strings(&["x", "y"]));
    assert_eq!(n.packages, strings(&["p", "q"]));
    assert_eq!(n.depth, Some(1));
    assert!(n.root_deps_only);
}

#[test]
fn normalized_workspace_only() {
    let opts = Options { workspace_only: true, depth: Some(5), ..Options::default() };
    let n = opts.normalized().unwrap();
    assert_eq!(n.depth, Some(1));
    assert!(n.root_deps_only);
    assert!(n.workspace_only);
    let plain = Options { depth: Some(5), ..Options::default() }.normalized().unwrap();
    assert_eq!(plain.depth, Some(5));
    assert_eq!(plain, Options { depth: Some(5), ..Options::default() });
}

#[test]
fn format_and_color_names() {
    assert_eq!(Format::default().name(), "list");
    assert_eq!(Format::Json.name(), "json");
    assert_eq!(Color::default().name(), "auto");
    assert_eq!(Color::Never.name(), "never");
    assert_eq!(Color::Always.name(), "always");
}

#[test]
fn tagged_messages() {
    assert_eq!(*Tagged::Error("bad").format(), "bad");
    assert_eq!(*Tagged::Warning(3).format(), 3);
    assert_eq!(*Tagged::Good("fine").format(), "fine");
}

#[test]
fn negative_depth_refused() {
    let bad = Options { depth: Some(-1), ..Options::default() };
    assert_eq!(bad.normalized().err(), Some(OutdatedError::InvalidDepth));
    let overridden = Options { depth: Some(-1), root_deps_only: true, ..Options::default() };
    assert_eq!(overridden.normalized().unwrap().depth, Some(1));
    let zero = Options { depth: Some(0), ..Options::default() };
    assert_eq!(zero.normalized().unwrap().depth, Some(0));
}
