use cargo_outdated::channel::same_channel;
use cargo_outdated::registry::pick_candidate;
use cargo_outdated::{valid_latest_version, OutdatedError, Version};

fn v(s: &str) -> Version {
    Version::parse(s).unwrap()
}

#[test]
fn stable_requirement_rejects_prerelease() {
    assert!(!valid_latest_version("1.0.0", &v("2.0.0-alpha")));
}

#[test]
fn prerelease_requirement_accepts_release() {
    assert!(valid_latest_version("1.0.0-alpha", &v("2.0.0")));
}

#[test]
fn numeric_channels_match() {
    assert!(valid_latest_version("1.0.0-alpha.1", &v("2.0.0-alpha.3")));
    assert!(valid_latest_version("=1.0.0-1", &v("2.0.0-7")));
}

#[test]
fn different_channels_rejected() {
    assert!(!valid_latest_version("1.0.0-alpha", &v("2.0.0-beta")));
}

#[test]
fn stable_to_stable_accepted() {
    assert!(valid_latest_version("1.0.0", &v("2.0.0")));
}

#[test]
fn operators_are_stripped() {
    assert!(valid_latest_version("^1.0.0-beta.2", &v("1.1.0-beta.1")));
    assert!(valid_latest_version("= 1.0.0-beta", &v("1.1.0-beta")));
    assert!(!valid_latest_version("~1.0.0-beta", &v("1.1.0-rc.1")));
}

#[test]
fn unreadable_requirement_accepts_no_prerelease() {
    assert!(!valid_latest_version(">=1.0.0-beta", &v("1.1.0-beta")));
}

#[test]
fn channel_comparison() {
    assert!(same_channel("alpha.1", "alpha.7"));
    assert!(same_channel("1", "2.beta"));
    assert!(!same_channel("alpha", "1"));
    assert!(!same_channel("alpha", "beta"));
}

#[test]
fn version_parse_and_text() {
    let x = v("1.2.3-rc.1+build.5");
    assert_eq!(x.major, 1);
    assert_eq!(x.minor, 2);
    assert_eq!(x.patch, 3);
    assert_eq!(x.pre, "rc.1");
    assert_eq!(x.build, "build.5");
    assert_eq!(x.to_text(), "1.2.3-rc.1+build.5");
    assert_eq!(v("10.0.250").to_text(), "10.0.250");
    assert!(Version::parse("1.0").is_none());
    assert!(Version::parse("not a version").is_none());
}

#[test]
fn version_equality() {
    assert!(v("1.0.0").same_as(&v("1.0.0")));
    assert!(!v("1.0.0").same_as(&v("1.0.0-alpha")));
    assert!(!v("1.0.0").same_as(&v("1.0.1")));
}

fn versions(v: &[&str]) -> Vec<Version> {
    v.iter().map(|s| Version::parse(s).unwrap()).collect()
}

#[test]
fn prerelease_channel_filtering() {
    let cands = versions(&["1.0.0-beta.1", "1.0.0-alpha.2"]);
    let cur = v("1.0.0-alpha.1");
    assert_eq!(pick_candidate(&cands, &cur, Some("=1.0.0-alpha.1"), true, false), Ok((1, true)));
    assert_eq!(pick_candidate(&cands, &cur, Some("=1.0.0-alpha.1"), true, true), Ok((0, true)));
}

#[test]
fn compatible_pick_follows_requirement() {
    let cands = versions(&["1.0.0", "2.0.0", "1.0.3"]);
    let cur = v("1.0.0");
    assert_eq!(pick_candidate(&cands, &cur, Some("1.0"), false, false), Ok((2, true)));
    assert_eq!(pick_candidate(&cands, &cur, Some("1.0"), true, false), Ok((1, true)));
    assert_eq!(pick_candidate(&cands, &cur, None, false, false), Ok((1, true)));
}

#[test]
fn pick_skips_older_and_falls_back() {
    let cands = versions(&["0.8.0", "0.9.0"]);
    let cur = v("1.0.0");
    assert_eq!(pick_candidate(&cands, &cur, Some("1.0"), false, false), Ok((1, false)));
    assert_eq!(pick_candidate(&Vec::new(), &cur, None, true, false), Err(OutdatedError::NoVersions));
    assert_eq!(
        pick_candidate(&cands, &cur, Some(">>1"), false, false),
        Err(OutdatedError::InvalidRequirement)
    );
}
