//! The release resolver: starting from the first catalog codename found
//! in a suite string, it walks the catalog towards the newest release,
//! substituting each codename for the next and probing the repository,
//! and keeps the furthest confirmed state.
//!
//! Two walk policies exist, one per configuration format. The per-line
//! walk scans the whole remaining catalog and keeps the last candidate
//! that ever probed successfully. The whole-paragraph walk demands that
//! every suite token of a step probes successfully and stops at the
//! first step where one does not.
use crate::bytes::{copy_bytes, replace_spec, replace_bytes};
use crate::catalog::{catalog, catalog_names, catalog_wf, find_start_index, find_start_spec, release_at};
use crate::probe::{check_all_suites, is_available};
use vstd::prelude::*;

verus! {

/// The suite string after `k` forward substitution steps along the
/// catalog from position `start`: step `j` replaces every occurrence of
/// codename `start + j - 1` with codename `start + j`.
pub open spec fn chain_spec(s: Seq<u8>, start: int, k: nat) -> Seq<u8>
    decreases k,
{
    if k == 0 {
        s
    } else {
        replace_spec(
            chain_spec(s, start, (k - 1) as nat),
            catalog_names()[start + k - 1],
            catalog_names()[start + k],
        )
    }
}

/// A resolution outcome is exactly some chain state of the original
/// suite string, reached from the position where a codename was found;
/// which state depends on which probes succeeded.
pub open spec fn resolved_to(orig: Seq<u8>, out: Seq<u8>, steps: nat) -> bool {
    match find_start_spec(orig) {
        None => out == orig && steps == 0,
        Some(st) => st + steps < catalog_names().len() && out == chain_spec(orig, st, steps),
    }
}

/// Idempotence of resolution: a walk that confirms no step leaves the
/// suite string exactly as it was, so running the resolver again on an
/// already-furthest record (every further probe failing) changes
/// nothing.
pub proof fn lemma_resolve_zero_steps(s: Seq<u8>, start: int)
    ensures
        chain_spec(s, start, 0) == s,
{
}

/// Monotonicity of resolution: an outcome lies `steps >= 0` positions
/// ahead of the position where the original release was found, and each
/// chain step substitutes a codename by the strictly newer one; no walk
/// ever moves towards an older release.
pub proof fn lemma_resolution_monotonic(orig: Seq<u8>, out: Seq<u8>, steps: nat, st: int)
    requires
        resolved_to(orig, out, steps),
        find_start_spec(orig) == Some(st),
    ensures
        out == chain_spec(orig, st, steps),
        st <= st + steps < catalog_names().len(),
        steps >= 1 ==> out == replace_spec(
            chain_spec(orig, st, (steps - 1) as nat),
            catalog_names()[st + steps - 1],
            catalog_names()[st + steps],
        ),
{
}

/// No-regression guard: a suite in which no cataloged codename occurs
/// resolves to itself, whatever the probes answer.
pub proof fn lemma_no_catalog_no_change(orig: Seq<u8>, out: Seq<u8>, steps: nat)
    requires
        resolved_to(orig, out, steps),
        find_start_spec(orig) is None,
    ensures
        out == orig,
        steps == 0,
{
}

/// Per-line forward walk: substitutes codename after codename along the
/// catalog, probing each candidate suite, and returns the furthest
/// candidate that ever probed successfully together with the number of
/// steps it lies ahead of the original release; zero steps when no
/// candidate was confirmed or no codename was found, leaving the suite
/// unchanged. Failed probes do not stop the scan.
pub fn resolve_suite(uri: &[u8], suite: &[u8]) -> (r: (Vec<u8>, usize))
    ensures
        resolved_to(suite@, r.0@, r.1 as nat),
        r.1 == 0 ==> r.0@ == suite@,
{
    let releases = catalog();
    let st = match find_start_index(&releases, suite) {
        None => {
            return (copy_bytes(suite), 0);
        },
        Some(st) => st,
    };
    let mut cur = copy_bytes(suite);
    let mut best = copy_bytes(suite);
    let mut best_k: usize = 0;
    let mut i: usize = st + 1;
    while i < releases.len()
        invariant
            catalog_wf(releases@),
            find_start_spec(suite@) == Some(st as int),
            st < i <= releases@.len(),
            cur@ == chain_spec(suite@, st as int, (i - st - 1) as nat),
            best@ == chain_spec(suite@, st as int, best_k as nat),
            best_k <= i - st - 1,
            st + best_k < catalog_names().len(),
        decreases releases@.len() - i,
    {
        proof {
            assert(release_at(releases@[i - 1], i - 1));
            assert(release_at(releases@[i as int], i as int));
        }
        cur = replace_bytes(cur.as_slice(), releases[i - 1].name.as_slice(), releases[i].name.as_slice());
        if is_available(uri, cur.as_slice()) {
            best = copy_bytes(cur.as_slice());
            best_k = i - st;
        }
        i += 1;
    }
    (best, best_k)
}

/// Whole-paragraph forward walk: substitutes codename after codename
/// across the whole suites string, and commits a step only when every
/// suite token of the substituted string probes successfully; the walk
/// stops at the first step where one does not. Returns the last fully
/// confirmed suites string and the number of committed steps; zero steps
/// when the first step already failed or no codename was found, leaving
/// the string unchanged.
pub fn resolve_suites_gated(uri: &[u8], suites: &[u8]) -> (r: (Vec<u8>, usize))
    ensures
        resolved_to(suites@, r.0@, r.1 as nat),
        r.1 == 0 ==> r.0@ == suites@,
{
    let releases = catalog();
    let st = match find_start_index(&releases, suites) {
        None => {
            return (copy_bytes(suites), 0);
        },
        Some(st) => st,
    };
    let mut cur = copy_bytes(suites);
    let mut steps: usize = 0;
    let mut i: usize = st + 1;
    while i < releases.len()
        invariant
            catalog_wf(releases@),
            find_start_spec(suites@) == Some(st as int),
            st < i <= releases@.len(),
            steps == i - st - 1,
            cur@ == chain_spec(suites@, st as int, steps as nat),
            st + steps < catalog_names().len(),
        decreases releases@.len() - i,
    {
        proof {
            assert(release_at(releases@[i - 1], i - 1));
            assert(release_at(releases@[i as int], i as int));
        }
        let next = replace_bytes(cur.as_slice(), releases[i - 1].name.as_slice(), releases[i].name.as_slice());
        if !check_all_suites(uri, next.as_slice()) {
            return (cur, steps);
        }
        cur = next;
        steps = i - st;
        i += 1;
    }
    (cur, steps)
}

} // verus!
