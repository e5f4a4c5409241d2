//! The pre-release channel rule that decides whether a published version is an
//! acceptable "latest" upgrade for a requirement.
use vstd::prelude::*;

use crate::text::{contains_char, has_char};
use crate::version::{semver_parse, Version};

verus! {

/// Characters that may stand before the version in a requirement such as `^1.0`.
pub open spec fn is_req_operator(c: char) -> bool {
    c == '=' || c == ' ' || c == '~' || c == '^'
}

/// The first index at or after `i` whose character is not a requirement operator.
pub open spec fn operators_end(s: Seq<char>, i: int) -> int
    decreases s.len() - i,
{
    if i < 0 || i >= s.len() {
        s.len() as int
    } else if is_req_operator(s[i]) {
        operators_end(s, i + 1)
    } else {
        i
    }
}

/// The requirement with its leading operators removed.
pub open spec fn strip_operators(s: Seq<char>) -> Seq<char> {
    s.subrange(operators_end(s, 0), s.len() as int)
}

/// The first index at or after `i` that holds a `.`, or the length.
pub open spec fn dot_from(s: Seq<char>, i: int) -> int
    decreases s.len() - i,
{
    if i < 0 || i >= s.len() {
        s.len() as int
    } else if s[i] == '.' {
        i
    } else {
        dot_from(s, i + 1)
    }
}

/// The channel of a pre-release: its first dot-separated identifier.
pub open spec fn channel(pre: Seq<char>) -> Seq<char> {
    pre.subrange(0, dot_from(pre, 0))
}

/// Whether every character is an ASCII digit (true of the empty text).
pub open spec fn all_digits(s: Seq<char>) -> bool {
    forall|i: int| 0 <= i < s.len() ==> '0' <= #[trigger] s[i] <= '9'
}

/// Two pre-releases are in one channel when both channels are numeric, or when
/// neither is and they are the same word.
pub open spec fn same_channel_spec(req_pre: Seq<char>, ver_pre: Seq<char>) -> bool {
    let a = channel(req_pre);
    let b = channel(ver_pre);
    if all_digits(a) && all_digits(b) {
        true
    } else if !all_digits(a) && !all_digits(b) {
        a == b
    } else {
        false
    }
}

/// The rule, given what the requirement parses to once its operators are gone.
/// A requirement without a pre-release marker never accepts a pre-release; a
/// release is accepted otherwise; two pre-releases must share a channel. A
/// requirement whose version cannot be read gives no channel, and nothing of a
/// pre-release is then accepted.
pub open spec fn latest_rule(
    requirement: Seq<char>,
    ver_pre: Seq<char>,
    parsed: Option<(u64, u64, u64, Seq<char>, Seq<char>)>,
) -> bool {
    if ver_pre.len() == 0 {
        true
    } else if !has_char(requirement, '-') {
        false
    } else {
        match parsed {
            Some(p) => same_channel_spec(p.3, ver_pre),
            None => false,
        }
    }
}

fn skip_operators(s: &str) -> (r: usize)
    ensures
        r as int == operators_end(s@, 0),
        r <= s@.len(),
{
    let n = s.unicode_len();
    let mut i: usize = 0;
    while i < n && operator_at(s, i)
        invariant
            n == s@.len(),
            i <= n,
            operators_end(s@, 0) == operators_end(s@, i as int),
        decreases n - i,
    {
        i = i + 1;
    }
    i
}

fn operator_at(s: &str, i: usize) -> (r: bool)
    requires
        i < s@.len(),
    ensures
        r == is_req_operator(s@[i as int]),
{
    let c = s.get_char(i);
    c == '=' || c == ' ' || c == '~' || c == '^'
}

fn first_dot(s: &str) -> (r: usize)
    ensures
        r as int == dot_from(s@, 0),
        r <= s@.len(),
{
    let n = s.unicode_len();
    let mut i: usize = 0;
    while i < n && s.get_char(i) != '.'
        invariant
            n == s@.len(),
            i <= n,
            dot_from(s@, 0) == dot_from(s@, i as int),
        decreases n - i,
    {
        i = i + 1;
    }
    i
}

fn is_all_digits(s: &str) -> (r: bool)
    ensures
        r == all_digits(s@),
{
    let n = s.unicode_len();
    let mut i: usize = 0;
    while i < n
        invariant
            n == s@.len(),
            i <= n,
            forall|j: int| 0 <= j < i ==> '0' <= #[trigger] s@[j] <= '9',
        decreases n - i,
    {
        let c = s.get_char(i);
        if !('0' <= c && c <= '9') {
            return false;
        }
        i = i + 1;
    }
    true
}

/// Whether two pre-release texts share a channel (see `same_channel_spec`).
pub fn same_channel(req_pre: &str, ver_pre: &str) -> (r: bool)
    ensures
        r == same_channel_spec(req_pre@, ver_pre@),
{
    let a = req_pre.substring_char(0, first_dot(req_pre));
    let b = ver_pre.substring_char(0, first_dot(ver_pre));
    let a_numeric = is_all_digits(a);
    let b_numeric = is_all_digits(b);
    if a_numeric && b_numeric {
        true
    } else if !a_numeric && !b_numeric {
        crate::text::same_text(a, b)
    } else {
        false
    }
}

/// The rule once the requirement's version has been read: `parsed` is what the
/// requirement, stripped of its operators, parses to.
pub fn latest_rule_with(requirement: &str, version: &Version, parsed: &Option<Version>) -> (r: bool)
    ensures
        r == latest_rule(
            requirement@,
            version.pre@,
            match parsed {
                Some(p) => Some(p@),
                None => None,
            },
        ),
{
    if !version.is_prerelease() {
        true
    } else if !contains_char(requirement, '-') {
        false
    } else {
        match parsed {
            Some(p) => same_channel(p.pre.as_str(), version.pre.as_str()),
            None => false,
        }
    }
}

/// Whether `version` is an acceptable latest upgrade for a dependency declared
/// with `requirement`, under the pre-release channel rule.
pub fn valid_latest_version(requirement: &str, version: &Version) -> (r: bool)
    ensures
        r == latest_rule(
            requirement@,
            version.pre@,
            semver_parse(strip_operators(requirement@)),
        ),
{
    if !version.is_prerelease() || !contains_char(requirement, '-') {
        return latest_rule_with(requirement, version, &None);
    }
    let start = skip_operators(requirement);
    let stripped = requirement.substring_char(start, requirement.unicode_len());
    let parsed = Version::parse(stripped);
    latest_rule_with(requirement, version, &parsed)
}

} // verus!

