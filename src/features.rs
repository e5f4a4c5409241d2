//! Which dependencies the selected features turn on: the closure of the
//! requested feature names over a manifest's `[features]` table.
use vstd::prelude::*;

use crate::options::Options;
use crate::text::{contains_text, holds_text};

verus! {

/// A `[features]` table: each feature with the names it enables.
pub type FeatureTable = Vec<(String, Vec<String>)>;

/// The index of the first entry, from `i` on, whose feature is `f`.
pub open spec fn entry_of_from(table: Seq<(String, Vec<String>)>, f: Seq<char>, i: int) -> Option<int>
    decreases table.len() - i,
{
    if i < 0 || i >= table.len() {
        None
    } else if table[i].0@ == f {
        Some(i)
    } else {
        entry_of_from(table, f, i + 1)
    }
}

/// Whether feature `a` names `b` in the table.
pub open spec fn names(table: Seq<(String, Vec<String>)>, a: Seq<char>, b: Seq<char>) -> bool {
    match entry_of_from(table, a, 0) {
        Some(i) => holds_text(table[i].1@, b),
        None => false,
    }
}

/// Whether `x` is reached from the non-empty requested names in at most `n` steps.
pub open spec fn reached(
    table: Seq<(String, Vec<String>)>,
    requested: Seq<String>,
    x: Seq<char>,
    n: nat,
) -> bool
    decreases n,
{
    if n == 0 {
        x.len() > 0 && holds_text(requested, x)
    } else {
        reached(table, requested, x, (n - 1) as nat) || exists|y: Seq<char>|
            #[trigger] names(table, y, x) && reached(table, requested, y, (n - 1) as nat)
    }
}

/// Whether `x` is enabled by the requested names through the table.
pub open spec fn enabled(table: Seq<(String, Vec<String>)>, requested: Seq<String>, x: Seq<char>) -> bool {
    exists|n: nat| #[trigger] reached(table, requested, x, n)
}

/// The number of table entries, among the first `n`, whose feature is not in `seen`.
pub open spec fn unseen_entries(table: Seq<(String, Vec<String>)>, seen: Seq<String>, n: int) -> nat
    decreases n,
{
    if n <= 0 {
        0
    } else {
        unseen_entries(table, seen, n - 1) + if holds_text(seen, table[n - 1].0@) {
            0nat
        } else {
            1nat
        }
    }
}

proof fn lemma_unseen_decreases(
    table: Seq<(String, Vec<String>)>,
    seen: Seq<String>,
    f: String,
    n: int,
)
    requires
        0 <= n <= table.len(),
    ensures
        unseen_entries(table, seen.push(f), n) <= unseen_entries(table, seen, n),
        (exists|i: int| 0 <= i < n && table[i].0@ == f@) && !holds_text(seen, f@) ==> unseen_entries(
            table,
            seen.push(f),
            n,
        ) < unseen_entries(table, seen, n),
    decreases n,
{
    if n > 0 {
        lemma_unseen_decreases(table, seen, f, n - 1);
        let k = table[n - 1].0@;
        if holds_text(seen, k) {
            let j = choose|j: int| 0 <= j < seen.len() && #[trigger] seen[j]@ == k;
            assert(seen.push(f)[j]@ == k);
        }
        if k == f@ {
            assert(seen.push(f)[seen.len() as int]@ == k);
        }
        if (exists|i: int| 0 <= i < n && table[i].0@ == f@) && !holds_text(seen, f@) {
            if k != f@ {
                let i = choose|i: int| 0 <= i < n && table[i].0@ == f@;
                assert(i < n - 1);
            }
        }
    }
}

proof fn lemma_push_holds(v: Seq<String>, s: String, x: Seq<char>)
    ensures
        holds_text(v.push(s), x) <==> (holds_text(v, x) || s@ == x),
{
    if holds_text(v, x) {
        let j = choose|j: int| 0 <= j < v.len() && #[trigger] v[j]@ == x;
        assert(v.push(s)[j]@ == x);
    }
    if s@ == x {
        assert(v.push(s)[v.len() as int]@ == x);
    }
    if holds_text(v.push(s), x) {
        let j = choose|j: int| 0 <= j < v.push(s).len() && #[trigger] v.push(s)[j]@ == x;
        if j < v.len() {
            assert(v[j]@ == x);
        }
    }
}

proof fn lemma_drop_last_holds(v: Seq<String>, x: Seq<char>)
    requires
        v.len() > 0,
    ensures
        holds_text(v, x) <==> (holds_text(v.drop_last(), x) || v.last()@ == x),
{
    assert(v =~= v.drop_last().push(v.last()));
    lemma_push_holds(v.drop_last(), v.last(), x);
}

/// A closed set of seen names that covers the requested ones covers every
/// enabled name.
proof fn lemma_closed_covers(
    table: Seq<(String, Vec<String>)>,
    requested: Seq<String>,
    seen: Seq<String>,
    x: Seq<char>,
    n: nat,
)
    requires
        forall|a: Seq<char>| a.len() > 0 && #[trigger] holds_text(requested, a) ==> holds_text(seen, a),
        forall|a: Seq<char>, b: Seq<char>|
            holds_text(seen, a) && #[trigger] names(table, a, b) ==> holds_text(seen, b),
        reached(table, requested, x, n),
    ensures
        holds_text(seen, x),
    decreases n,
{
    if n > 0 {
        if reached(table, requested, x, (n - 1) as nat) {
            lemma_closed_covers(table, requested, seen, x, (n - 1) as nat);
        } else {
            let y = choose|y: Seq<char>| #[trigger] names(table, y, x) && reached(table, requested, y, (n - 1) as nat);
            lemma_closed_covers(table, requested, seen, y, (n - 1) as nat);
        }
    }
}

proof fn lemma_entry_found(table: Seq<(String, Vec<String>)>, f: Seq<char>, i: int)
    requires
        entry_of_from(table, f, i) matches Some(e),
    ensures
        entry_of_from(table, f, i) matches Some(e) && 0 <= e < table.len() && table[e].0@ == f,
    decreases table.len() - i,
{
    if 0 <= i < table.len() && table[i].0@ != f {
        lemma_entry_found(table, f, i + 1);
    }
}

proof fn lemma_step_enabled(
    table: Seq<(String, Vec<String>)>,
    requested: Seq<String>,
    a: Seq<char>,
    b: Seq<char>,
)
    requires
        enabled(table, requested, a),
        names(table, a, b),
    ensures
        enabled(table, requested, b),
{
    let n = choose|n: nat| #[trigger] reached(table, requested, a, n);
    assert(reached(table, requested, b, n + 1));
}

fn entry_of(table: &FeatureTable, f: &str) -> (r: Option<usize>)
    ensures
        match r {
            Some(i) => entry_of_from(table@, f@, 0) == Some(i as int) && i < table@.len(),
            None => entry_of_from(table@, f@, 0) is None,
        },
{
    let mut i: usize = 0;
    while i < table.len()
        invariant
            i <= table@.len(),
            entry_of_from(table@, f@, 0) == entry_of_from(table@, f@, i as int),
        decreases table@.len() - i,
    {
        if crate::text::same_text(table[i].0.as_str(), f) {
            return Some(i);
        }
        i = i + 1;
    }
    None
}

/// Whether the dependency `name` takes part in the resolution under the
/// selected features: always with all features; for a non-optional
/// dependency when `default` is requested; otherwise when the requested
/// features reach `name` through the `[features]` table.
pub fn feature_includes(
    options: &Options,
    name: &str,
    optional: bool,
    features_table: &Option<FeatureTable>,
) -> (r: bool)
    ensures
        r == (options.features@.len() == 0 || (!optional && holds_text(
            options.features@,
            seq!['d', 'e', 'f', 'a', 'u', 'l', 't'],
        )) || match features_table {
            Some(t) => enabled(t@, options.features@, name@),
            None => false,
        }),
{
    if options.all_features() {
        return true;
    }
    let default = "default";
    proof {
        reveal_strlit("default");
        assert(default@ =~= seq!['d', 'e', 'f', 'a', 'u', 'l', 't']);
    }
    if !optional && contains_text(&options.features, default) {
        return true;
    }
    let table = match features_table {
        Some(t) => t,
        None => return false,
    };
    let ghost tv = table@;
    let ghost req = options.features@;
    let mut to_resolve: Vec<String> = Vec::new();
    let mut k: usize = 0;
    while k < options.features.len()
        invariant
            k <= req.len(),
            req == options.features@,
            forall|i: int| 0 <= i < to_resolve@.len() ==> enabled(tv, req, #[trigger] to_resolve@[i]@),
            forall|j: int| 0 <= j < k && (#[trigger] req[j])@.len() > 0 ==> holds_text(to_resolve@, req[j]@),
        decreases req.len() - k,
    {
        let f = options.features[k].as_str();
        if f.unicode_len() > 0 {
            proof {
                assert(reached(tv, req, f@, 0));
            }
            let ghost before = to_resolve@;
            to_resolve.push(String::from_str(f));
            proof {
                assert forall|j: int| 0 <= j < k + 1 && (#[trigger] req[j])@.len() > 0 implies holds_text(
                    to_resolve@,
                    req[j]@,
                ) by {
                    lemma_push_holds(before, to_resolve@.last(), req[j]@);
                }
            }
        }
        k = k + 1;
    }
    let mut visited: Vec<String> = Vec::new();
    proof {
        assert forall|a: Seq<char>| a.len() > 0 && #[trigger] holds_text(req, a) implies holds_text(
            visited@,
            a,
        ) || holds_text(to_resolve@, a) by {
            let j = choose|j: int| 0 <= j < req.len() && #[trigger] req[j]@ == a;
        }
    }
    while to_resolve.len() > 0
        invariant
            options.features@.len() > 0,
            !(!optional && holds_text(options.features@, seq!['d', 'e', 'f', 'a', 'u', 'l', 't'])),
            *features_table == Some(*table),
            tv == table@,
            req == options.features@,
            forall|i: int| 0 <= i < to_resolve@.len() ==> enabled(tv, req, #[trigger] to_resolve@[i]@),
            !holds_text(visited@, name@),
            forall|a: Seq<char>, b: Seq<char>|
                holds_text(visited@, a) && #[trigger] names(tv, a, b) ==> holds_text(visited@, b)
                    || holds_text(to_resolve@, b),
            forall|a: Seq<char>|
                a.len() > 0 && #[trigger] holds_text(req, a) ==> holds_text(visited@, a)
                    || holds_text(to_resolve@, a),
        decreases unseen_entries(tv, visited@, tv.len() as int), to_resolve@.len(),
    {
        let ghost w0 = to_resolve@;
        let f = to_resolve.pop().unwrap();
        proof {
            assert(to_resolve@ == w0.drop_last());
            assert(f == w0.last());
            assert(enabled(tv, req, w0[w0.len() - 1]@));
            assert forall|x: Seq<char>| holds_text(w0, x) <==> (holds_text(to_resolve@, x) || f@ == x) by {
                lemma_drop_last_holds(w0, x);
            }
        }
        if crate::text::same_text(f.as_str(), name) {
            assert(enabled(tv, req, name@));
            return true;
        }
        if !contains_text(&visited, f.as_str()) {
            let ghost v0 = visited@;
            visited.push(String::from_str(f.as_str()));
            proof {
                assert forall|x: Seq<char>| holds_text(visited@, x) <==> (holds_text(v0, x) || f@ == x) by {
                    lemma_push_holds(v0, visited@.last(), x);
                }
                lemma_unseen_decreases(tv, v0, visited@.last(), tv.len() as int);
            }
            match entry_of(table, f.as_str()) {
                Some(e) => {
                    let list = &table[e].1;
                    let ghost w1 = to_resolve@;
                    let mut j: usize = 0;
                    while j < list.len()
                        invariant
                            tv == table@,
                            e < tv.len(),
                            list@ == tv[e as int].1@,
                            j <= list@.len(),
                            enabled(tv, req, f@),
                            entry_of_from(tv, f@, 0) == Some(e as int),
                            forall|i: int| 0 <= i < to_resolve@.len() ==> enabled(tv, req, #[trigger] to_resolve@[i]@),
                            forall|x: Seq<char>| #[trigger] holds_text(w1, x) ==> holds_text(to_resolve@, x),
                            forall|i: int| 0 <= i < j ==> holds_text(to_resolve@, (#[trigger] list@[i])@),
                        decreases list@.len() - j,
                    {
                        let s = list[j].as_str();
                        proof {
                            assert(holds_text(list@, s@));
                            assert(names(tv, f@, s@));
                            lemma_step_enabled(tv, req, f@, s@);
                        }
                        let ghost w2 = to_resolve@;
                        to_resolve.push(String::from_str(s));
                        proof {
                            assert forall|x: Seq<char>| holds_text(w2, x) implies holds_text(to_resolve@, x) by {
                                lemma_push_holds(w2, to_resolve@.last(), x);
                            }
                            assert forall|i: int| 0 <= i < j + 1 implies holds_text(to_resolve@, (#[trigger] list@[i])@) by {
                                lemma_push_holds(w2, to_resolve@.last(), list@[i]@);
                            }
                        }
                        j = j + 1;
                    }
                    proof {
                        lemma_entry_found(tv, f@, 0);
                        assert(tv[e as int].0@ == f@);
                        lemma_unseen_decreases(tv, v0, visited@.last(), tv.len() as int);
                        assert(unseen_entries(tv, visited@, tv.len() as int) < unseen_entries(tv, v0, tv.len() as int));
                        assert forall|a: Seq<char>, b: Seq<char>|
                            holds_text(visited@, a) && #[trigger] names(tv, a, b) implies holds_text(visited@, b)
                                || holds_text(to_resolve@, b) by {
                            if a == f@ {
                                let i = choose|i: int| 0 <= i < list@.len() && #[trigger] list@[i]@ == b;
                            } else if holds_text(visited@, b) {
                            } else {
                                assert(holds_text(w0, b));
                            }
                        }
                    }
                },
                None => {
                    proof {
                        assert forall|a: Seq<char>, b: Seq<char>|
                            holds_text(visited@, a) && #[trigger] names(tv, a, b) implies holds_text(visited@, b)
                                || holds_text(to_resolve@, b) by {
                            if a != f@ {
                                assert(holds_text(v0, a));
                                if !holds_text(v0, b) {
                                    assert(holds_text(w0, b));
                                }
                            }
                        }
                    }
                },
            }
        } else {
            proof {
                assert forall|a: Seq<char>, b: Seq<char>|
                    holds_text(visited@, a) && #[trigger] names(tv, a, b) implies holds_text(visited@, b)
                        || holds_text(to_resolve@, b) by {
                    assert(holds_text(w0, b) ==> (holds_text(to_resolve@, b) || f@ == b));
                }
            }
        }
    }
    proof {
        if enabled(tv, req, name@) {
            let n = choose|n: nat| #[trigger] reached(tv, req, name@, n);
            lemma_closed_covers(tv, req, visited@, name@, n);
        }
    }
    false
}

} // verus!
