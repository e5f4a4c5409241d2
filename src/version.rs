//! Semantic versions: major, minor and patch numbers with an optional
//! pre-release channel and build metadata.
use vstd::prelude::*;

use crate::text::{decimal, push_decimal};

verus! {

/// A semantic version, held as plain values.
#[derive(Clone, Debug)]
pub struct Version {
    pub major: u64,
    pub minor: u64,
    pub patch: u64,
    /// Pre-release identifiers without the leading `-`; empty for a release.
    pub pre: String,
    /// Build metadata without the leading `+`; empty when there is none.
    pub build: String,
}

/// What a version is: its three numbers, its pre-release text and its build text.
pub type VersionView = (u64, u64, u64, Seq<char>, Seq<char>);

impl View for Version {
    type V = VersionView;

    open spec fn view(&self) -> VersionView {
        (self.major, self.minor, self.patch, self.pre@, self.build@)
    }
}

/// The fields that `semver::Version::parse` reads from a text, or `None` where
/// it rejects the text.
pub uninterp spec fn semver_parse(s: Seq<char>) -> Option<VersionView>;

/// Relies on `semver::Version::parse`: its result depends on the text alone.
#[verifier::external_body]
fn parse_semver(s: &str) -> (r: Option<Version>)
    ensures
        match r {
            Some(v) => semver_parse(s@) == Some(v@),
            None => semver_parse(s@) is None,
        },
{
    match semver::Version::parse(s) {
        Ok(v) => Some(Version {
            major: v.major,
            minor: v.minor,
            patch: v.patch,
            pre: v.pre.as_str().to_string(),
            build: v.build.as_str().to_string(),
        }),
        Err(_) => None,
    }
}

/// The text that names a version: `major.minor.patch`, then `-pre` and `+build`
/// where those are not empty.
pub open spec fn version_text(v: VersionView) -> Seq<char> {
    let core = decimal(v.0 as nat) + seq!['.'] + decimal(v.1 as nat) + seq!['.'] + decimal(
        v.2 as nat,
    );
    let with_pre = if v.3.len() == 0 {
        core
    } else {
        core + seq!['-'] + v.3
    };
    if v.4.len() == 0 {
        with_pre
    } else {
        with_pre + seq!['+'] + v.4
    }
}

impl Version {
    /// Parses a semantic version such as `1.0.3` or `2.0.0-alpha.1`.
    pub fn parse(s: &str) -> (r: Option<Version>)
        ensures
            match r {
                Some(v) => semver_parse(s@) == Some(v@),
                None => semver_parse(s@) is None,
            },
    {
        parse_semver(s)
    }

    /// A copy with the same five parts.
    pub fn clone_version(&self) -> (r: Version)
        ensures
            r@ == self@,
    {
        Version {
            major: self.major,
            minor: self.minor,
            patch: self.patch,
            pre: self.pre.clone(),
            build: self.build.clone(),
        }
    }

    /// Whether the version carries a pre-release channel.
    pub fn is_prerelease(&self) -> (r: bool)
        ensures
            r == (self.pre@.len() > 0),
    {
        self.pre.as_str().unicode_len() > 0
    }

    /// Equality of all five parts.
    pub fn same_as(&self, other: &Version) -> (r: bool)
        ensures
            r == (self@ == other@),
    {
        self.major == other.major && self.minor == other.minor && self.patch == other.patch
            && self.pre == other.pre && self.build == other.build
    }

    /// The usual text of the version.
    pub fn to_text(&self) -> (r: String)
        ensures
            r@ == version_text(self@),
    {
        let mut out = String::new();
        push_decimal(&mut out, self.major);
        out.append(".");
        push_decimal(&mut out, self.minor);
        out.append(".");
        push_decimal(&mut out, self.patch);
        proof { reveal_strlit("."); }
        if self.pre.as_str().unicode_len() > 0 {
            out.append("-");
            out.append(self.pre.as_str());
            proof { reveal_strlit("-"); }
        }
        if self.build.as_str().unicode_len() > 0 {
            out.append("+");
            out.append(self.build.as_str());
            proof { reveal_strlit("+"); }
        }
        assert(out@ =~= version_text(self@));
        out
    }
}

} // verus!
