//! Choosing the update for one dependency among the versions a registry
//! publishes.
use vstd::prelude::*;

use crate::channel::{latest_rule, strip_operators, valid_latest_version};
use crate::error::OutdatedError;
use crate::version::{semver_parse, Version, VersionView};

verus! {

/// What `<` on `semver::Version` says of two versions, or `None` where
/// semver rejects the pre-release or build text of one of them.
pub uninterp spec fn semver_less(a: VersionView, b: VersionView) -> Option<bool>;

/// What `semver::VersionReq::matches` says of a requirement and a version, or
/// `None` where semver rejects the requirement or the version's texts.
pub uninterp spec fn semver_req_matches(req: Seq<char>, v: VersionView) -> Option<bool>;

/// Relies on `semver::Version`'s ordering (`<`); the versions are rebuilt
/// from their parts with `Prerelease::new` and `BuildMetadata::new`.
#[verifier::external_body]
fn version_less(a: &Version, b: &Version) -> (r: Option<bool>)
    ensures
        r == semver_less(a@, b@),
{
    let conv = |v: &Version| {
        Some(semver::Version {
            major: v.major,
            minor: v.minor,
            patch: v.patch,
            pre: semver::Prerelease::new(&v.pre).ok()?,
            build: semver::BuildMetadata::new(&v.build).ok()?,
        })
    };
    Some(conv(a)? < conv(b)?)
}

/// Relies on `semver::VersionReq::matches`, after `VersionReq::parse` of the
/// requirement and the same rebuilding of the version.
#[verifier::external_body]
fn requirement_matches(req: &str, v: &Version) -> (r: Option<bool>)
    ensures
        r == semver_req_matches(req@, v@),
{
    let parsed = semver::VersionReq::parse(req).ok()?;
    let version = semver::Version {
        major: v.major,
        minor: v.minor,
        patch: v.patch,
        pre: semver::Prerelease::new(&v.pre).ok()?,
        build: semver::BuildMetadata::new(&v.build).ok()?,
    };
    Some(parsed.matches(&version))
}

/// The text of an optional requirement.
pub open spec fn req_text(requirement: Option<&str>) -> Option<Seq<char>> {
    match requirement {
        Some(s) => Some(s@),
        None => None,
    }
}

/// Whether semver reads the requirement, if there is one.
pub open spec fn req_readable(requirement: Option<Seq<char>>, current: VersionView) -> bool {
    match requirement {
        Some(t) => semver_req_matches(t, current) is Some,
        None => true,
    }
}

/// Whether `a` is a lower version than `b`.
pub open spec fn below(a: VersionView, b: VersionView) -> bool {
    semver_less(a, b) == Some(true)
}

/// Whether a published version is acceptable: not below the version in use;
/// then anything goes without a requirement; when looking for the latest
/// version, the channel rule decides unless `aggressive`; otherwise the
/// requirement must accept it.
pub open spec fn acceptable(
    c: VersionView,
    current: VersionView,
    requirement: Option<Seq<char>>,
    find_latest: bool,
    aggressive: bool,
) -> bool {
    if below(c, current) {
        false
    } else {
        match requirement {
            None => true,
            Some(req) => if find_latest {
                aggressive || latest_rule(req, c.3, semver_parse(strip_operators(req)))
            } else {
                semver_req_matches(req, c) == Some(true)
            },
        }
    }
}

/// Whether candidate `i` is acceptable and no acceptable candidate is higher.
pub open spec fn highest_acceptable(
    cands: Seq<Version>,
    i: int,
    current: VersionView,
    requirement: Option<Seq<char>>,
    find_latest: bool,
    aggressive: bool,
) -> bool {
    &&& 0 <= i < cands.len()
    &&& acceptable(cands[i]@, current, requirement, find_latest, aggressive)
    &&& forall|j: int|
        0 <= j < cands.len() && acceptable(cands[j]@, current, requirement, find_latest, aggressive)
            ==> !below(cands[i]@, #[trigger] cands[j]@)
}

/// Whether no candidate is higher than candidate `i`.
pub open spec fn highest(cands: Seq<Version>, i: int) -> bool {
    &&& 0 <= i < cands.len()
    &&& forall|j: int| 0 <= j < cands.len() ==> !below(cands[i]@, #[trigger] cands[j]@)
}

fn is_acceptable(
    c: &Version,
    current: &Version,
    requirement: Option<&str>,
    find_latest: bool,
    aggressive: bool,
) -> (r: bool)
    ensures
        r == acceptable(c@, current@, req_text(requirement), find_latest, aggressive),
{
    if version_less(c, current) == Some(true) {
        false
    } else {
        match requirement {
            None => true,
            Some(text) => if find_latest {
                aggressive || valid_latest_version(text, c)
            } else {
                requirement_matches(text, c) == Some(true)
            },
        }
    }
}

/// Whether no candidate flagged in `ok` is higher than candidate `i`.
fn none_higher(cands: &Vec<Version>, ok: &Vec<bool>, i: usize) -> (r: bool)
    requires
        i < cands@.len(),
        ok@.len() == cands@.len(),
    ensures
        r == forall|j: int| 0 <= j < cands@.len() && ok@[j] ==> !below(cands@[i as int]@, #[trigger] cands@[j]@),
{
    let mut j: usize = 0;
    while j < cands.len()
        invariant
            i < cands@.len(),
            ok@.len() == cands@.len(),
            j <= cands@.len(),
            forall|k: int| 0 <= k < j && ok@[k] ==> !below(cands@[i as int]@, #[trigger] cands@[k]@),
        decreases cands@.len() - j,
    {
        if ok[j] && version_less(&cands[i], &cands[j]) == Some(true) {
            return false;
        }
        j = j + 1;
    }
    true
}

/// The update among the published versions `candidates`, in any order: the
/// first highest acceptable one, marked `true`; when there is none, the first
/// highest candidate, marked `false` (worth a warning), or the first candidate
/// if no candidate is highest. An unreadable requirement and an empty list are
/// errors.
pub fn pick_candidate(
    candidates: &Vec<Version>,
    current: &Version,
    requirement: Option<&str>,
    find_latest: bool,
    aggressive: bool,
) -> (r: Result<(usize, bool), OutdatedError>)
    ensures
        ({
            let req = req_text(requirement);
            let cands = candidates@;
            if !req_readable(req, current@) {
                r == Err::<(usize, bool), OutdatedError>(OutdatedError::InvalidRequirement)
            } else if cands.len() == 0 {
                r == Err::<(usize, bool), OutdatedError>(OutdatedError::NoVersions)
            } else {
                match r {
                    Ok((i, true)) => {
                        &&& highest_acceptable(cands, i as int, current@, req, find_latest, aggressive)
                        &&& forall|k: int|
                            0 <= k < i ==> !highest_acceptable(cands, k, current@, req, find_latest, aggressive)
                    },
                    Ok((i, false)) => {
                        &&& forall|k: int|
                            0 <= k < cands.len() ==> !highest_acceptable(cands, k, current@, req, find_latest, aggressive)
                        &&& (highest(cands, i as int) && forall|k: int| 0 <= k < i ==> !highest(cands, k))
                            || (i == 0 && forall|k: int| 0 <= k < cands.len() ==> !highest(cands, k))
                    },
                    Err(_) => false,
                }
            }
        }),
{
    if let Some(text) = requirement {
        if requirement_matches(text, current).is_none() {
            return Err(OutdatedError::InvalidRequirement);
        }
    }
    let n = candidates.len();
    if n == 0 {
        return Err(OutdatedError::NoVersions);
    }
    let ghost req = req_text(requirement);
    assert(req_readable(req, current@));
    let mut ok: Vec<bool> = Vec::new();
    let mut all: Vec<bool> = Vec::new();
    let mut k: usize = 0;
    while k < n
        invariant
            n == candidates@.len(),
            k <= n,
            req == req_text(requirement),
            ok@.len() == k,
            all@.len() == k,
            forall|j: int| 0 <= j < k ==> #[trigger] ok@[j] == acceptable(candidates@[j]@, current@, req, find_latest, aggressive),
            forall|j: int| 0 <= j < k ==> #[trigger] all@[j],
        decreases n - k,
    {
        let a = is_acceptable(&candidates[k], current, requirement, find_latest, aggressive);
        let ghost ok0 = ok@;
        ok.push(a);
        all.push(true);
        assert(forall|j: int| 0 <= j < k ==> ok@[j] == ok0[j]);
        k = k + 1;
    }
    let mut i: usize = 0;
    while i < n
        invariant
            n == candidates@.len(),
            n > 0,
            req == req_text(requirement),
            req_readable(req, current@),
            ok@.len() == n,
            i <= n,
            forall|j: int| 0 <= j < n ==> #[trigger] ok@[j] == acceptable(candidates@[j]@, current@, req, find_latest, aggressive),
            forall|k: int| 0 <= k < i ==> !highest_acceptable(candidates@, k, current@, req, find_latest, aggressive),
        decreases n - i,
    {
        if ok[i] && none_higher(candidates, &ok, i) {
            return Ok((i, true));
        }
        i = i + 1;
    }
    let mut i: usize = 0;
    while i < n
        invariant
            n == candidates@.len(),
            n > 0,
            req == req_text(requirement),
            req_readable(req, current@),
            all@.len() == n,
            i <= n,
            forall|j: int| 0 <= j < n ==> #[trigger] all@[j],
            forall|k: int| 0 <= k < n ==> !highest_acceptable(candidates@, k, current@, req, find_latest, aggressive),
            forall|k: int| 0 <= k < i ==> !highest(candidates@, k),
        decreases n - i,
    {
        if none_higher(candidates, &all, i) {
            return Ok((i, false));
        }
        i = i + 1;
    }
    Ok((0, false))
}

} // verus!
