//! Rewriting the dependency entries of a temporary manifest: which entries
//! are removed, which are looked up in the registry, and how a found version
//! and its features are written back.
use vstd::prelude::*;

use crate::features::{enabled, feature_includes, FeatureTable};
use crate::options::Options;
use crate::text::{contains_text, holds_text};

verus! {

/// A dependency entry as a manifest writes it.
pub enum DepEntry {
    /// `name = "requirement"`
    Simple(String),
    /// `name = { ... }`: the keys that the rewrite reads or writes; the
    /// others are carried along by the caller.
    Detailed(DepDetail),
}

/// The keys of a detailed dependency entry that the rewrite reads or writes.
pub struct DepDetail {
    /// The real package name, where the entry renames it.
    pub package: Option<String>,
    pub version: Option<String>,
    pub optional: bool,
    pub features: Option<Vec<String>>,
}

/// What to do with one dependency entry.
pub enum DepPlan {
    /// Leave it out of the temporary manifest.
    Remove,
    /// Leave it as it is.
    Keep,
    /// Look up the package `query` in the registry, with the entry's
    /// requirement, and rewrite the entry from the result.
    Query { query: String, requirement: Option<String> },
}

pub open spec fn opt_view(o: Option<String>) -> Option<Seq<char>> {
    match o {
        Some(s) => Some(s@),
        None => None,
    }
}

/// The plan for the entry `key`: excluded names are removed; a simple entry
/// is looked up only for the latest rewrite; a detailed one when rewriting
/// to the latest or when it requests features, and only if the selected
/// features include it. The lookup uses the real package name.
pub open spec fn plan_spec(
    key: Seq<char>,
    entry: DepEntry,
    options: Options,
    features_table: Option<FeatureTable>,
    to_latest: bool,
) -> DepPlanView {
    if holds_text(options.exclude@, key) {
        DepPlanView::Remove
    } else {
        match entry {
            DepEntry::Simple(req) => if to_latest {
                DepPlanView::Query(key, Some(req@))
            } else {
                DepPlanView::Keep
            },
            DepEntry::Detailed(d) => if !(to_latest || d.features is Some) {
                DepPlanView::Keep
            } else if !(options.features@.len() == 0 || (!d.optional && holds_text(
                options.features@,
                seq!['d', 'e', 'f', 'a', 'u', 'l', 't'],
            )) || match features_table {
                Some(t) => enabled(t@, options.features@, key),
                None => false,
            }) {
                DepPlanView::Keep
            } else {
                DepPlanView::Query(
                    match d.package {
                        Some(p) => p@,
                        None => key,
                    },
                    opt_view(d.version),
                )
            },
        }
    }
}

/// What a plan says.
pub enum DepPlanView {
    Remove,
    Keep,
    Query(Seq<char>, Option<Seq<char>>),
}

impl View for DepPlan {
    type V = DepPlanView;

    open spec fn view(&self) -> DepPlanView {
        match self {
            DepPlan::Remove => DepPlanView::Remove,
            DepPlan::Keep => DepPlanView::Keep,
            DepPlan::Query { query, requirement } => DepPlanView::Query(query@, opt_view(*requirement)),
        }
    }
}

fn copy_opt(o: &Option<String>) -> (r: Option<String>)
    ensures
        opt_view(r) == opt_view(*o),
{
    match o {
        Some(s) => Some(String::from_str(s.as_str())),
        None => None,
    }
}

/// Decides what happens to the dependency entry `key` of a temporary manifest.
pub fn plan_dependency(
    key: &str,
    entry: &DepEntry,
    options: &Options,
    features_table: &Option<FeatureTable>,
    to_latest: bool,
) -> (r: DepPlan)
    ensures
        r@ == plan_spec(key@, *entry, *options, *features_table, to_latest),
{
    if contains_text(&options.exclude, key) {
        return DepPlan::Remove;
    }
    match entry {
        DepEntry::Simple(req) => if to_latest {
            DepPlan::Query { query: String::from_str(key), requirement: Some(String::from_str(req.as_str())) }
        } else {
            DepPlan::Keep
        },
        DepEntry::Detailed(d) => {
            if !(to_latest || d.features.is_some()) {
                return DepPlan::Keep;
            }
            if !feature_includes(options, key, d.optional, features_table) {
                return DepPlan::Keep;
            }
            let query = match &d.package {
                Some(p) => String::from_str(p.as_str()),
                None => String::from_str(key),
            };
            DepPlan::Query { query, requirement: copy_opt(&d.version) }
        },
    }
}

/// The features of `requested` that `available` still offers, in order.
pub open spec fn kept_features(requested: Seq<String>, available: Seq<String>) -> Seq<Seq<char>>
    decreases requested.len(),
{
    if requested.len() == 0 {
        seq![]
    } else {
        let rest = kept_features(requested.drop_last(), available);
        if holds_text(available, requested.last()@) {
            rest.push(requested.last()@)
        } else {
            rest
        }
    }
}

/// The version an entry states after the rewrite: the found one, when
/// rewriting to the latest an entry that states one.
pub open spec fn updated_version(version: Option<String>, found: Seq<char>, to_latest: bool) -> Option<
    Seq<char>,
> {
    if to_latest && version is Some {
        Some(found)
    } else {
        opt_view(version)
    }
}

pub open spec fn texts(v: Seq<String>) -> Seq<Seq<char>> {
    v.map_values(|x: String| x@)
}

/// Rewrites a detailed entry from the registry's answer: to the latest, an
/// entry that states a version gets `found_version`; features that the found
/// release no longer offers (neither as a feature nor as an optional
/// dependency, both in `available`) are dropped. Other keys stay.
pub fn apply_update(
    detail: &DepDetail,
    found_version: &str,
    available: &Vec<String>,
    to_latest: bool,
) -> (r: DepDetail)
    ensures
        opt_view(r.package) == opt_view(detail.package),
        r.optional == detail.optional,
        opt_view(r.version) == updated_version(detail.version, found_version@, to_latest),
        match detail.features {
            None => r.features is None,
            Some(fs) => r.features matches Some(kept) && texts(kept@) == kept_features(fs@, available@),
        },
{
    let version = if to_latest && detail.version.is_some() {
        Some(String::from_str(found_version))
    } else {
        copy_opt(&detail.version)
    };
    let features = match &detail.features {
        None => None,
        Some(fs) => {
            let mut kept: Vec<String> = Vec::new();
            let mut i: usize = 0;
            while i < fs.len()
                invariant
                    i <= fs@.len(),
                    texts(kept@) == kept_features(fs@.take(i as int), available@),
                decreases fs@.len() - i,
            {
                let ghost before = kept@;
                assert(fs@.take(i + 1).drop_last() =~= fs@.take(i as int));
                if contains_text(available, fs[i].as_str()) {
                    kept.push(String::from_str(fs[i].as_str()));
                    assert(texts(kept@) =~= texts(before).push(fs@[i as int]@));
                }
                i = i + 1;
            }
            assert(fs@.take(fs@.len() as int) =~= fs@);
            Some(kept)
        },
    };
    DepDetail { package: copy_opt(&detail.package), version, optional: detail.optional, features }
}

/// An excluded dependency is always removed from the temporary manifest,
/// whatever its entry and the rewrite mode.
pub proof fn lemma_excluded_removed(
    key: Seq<char>,
    entry: DepEntry,
    options: Options,
    features_table: Option<FeatureTable>,
    to_latest: bool,
)
    requires
        holds_text(options.exclude@, key),
    ensures
        plan_spec(key, entry, options, features_table, to_latest) is Remove,
{
}

/// The compatible rewrite keeps every requirement as written: a simple entry
/// is never looked up, and a detailed entry that is looked up keeps the
/// version it states, whatever release was found.
pub proof fn lemma_compat_keeps_requirements(
    key: Seq<char>,
    req: String,
    options: Options,
    features_table: Option<FeatureTable>,
    version: Option<String>,
    found: Seq<char>,
)
    ensures
        !(plan_spec(key, DepEntry::Simple(req), options, features_table, false) is Query),
        updated_version(version, found, false) == opt_view(version),
{
}

/// What to do with a `path` dependency of a temporary manifest.
pub enum PathAction {
    /// The path still leads into the sandbox, or is absolute: leave it.
    Leave,
    /// Drop the dependency and skip the named package from then on.
    Drop { skipped: String },
    /// Point the path at the dependency in the user's source tree.
    Absolute,
}

/// The action for a `path` dependency `key` (renamed from `package`, if
/// any): relative paths that leave the sandbox are dropped when external
/// path dependencies are ignored, and made absolute otherwise.
pub fn path_action(
    key: &str,
    package: &Option<String>,
    relative: bool,
    inside_sandbox: bool,
    options: &Options,
) -> (r: PathAction)
    ensures
        (!relative || inside_sandbox) ==> r is Leave,
        (relative && !inside_sandbox && options.workspace_only) ==> (r matches PathAction::Drop {
            skipped,
        } && skipped@ == match package {
            Some(p) => p@,
            None => key@,
        }),
        (relative && !inside_sandbox && !options.workspace_only) ==> r is Absolute,
{
    if !relative || inside_sandbox {
        PathAction::Leave
    } else if options.workspace_only {
        let skipped = match package {
            Some(p) => String::from_str(p.as_str()),
            None => String::from_str(key),
        };
        PathAction::Drop { skipped }
    } else {
        PathAction::Absolute
    }
}

} // verus!
