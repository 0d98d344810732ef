//! The availability prober: builds the well-known release-metadata URL
//! and asks the remote repository for it. The network answer is the one
//! thing this crate takes on trust.
use crate::bytes::{append_bytes, ascii_bytes, copy_bytes, lit_bytes, split_ws};
use vstd::prelude::*;

verus! {

/// The URL of the release-metadata descriptor for `suite` under `base`:
/// `<base>/dists/<suite>/Release`.
pub open spec fn release_url_spec(base: Seq<u8>, suite: Seq<u8>) -> Seq<u8> {
    base + ascii_bytes("/dists/"@) + suite + ascii_bytes("/Release"@)
}

/// Builds the release-metadata URL for `suite` under `base`.
pub fn release_url(base: &[u8], suite: &[u8]) -> (r: Vec<u8>)
    ensures
        r@ == release_url_spec(base@, suite@),
{
    proof {
        reveal_strlit("/dists/");
        reveal_strlit("/Release");
    }
    let mut out = copy_bytes(base);
    let seg = lit_bytes("/dists/");
    append_bytes(&mut out, seg.as_slice());
    append_bytes(&mut out, suite);
    let name = lit_bytes("/Release");
    append_bytes(&mut out, name.as_slice());
    out
}

/// Relies on `reqwest::blocking::get` and
/// `reqwest::blocking::Response::error_for_status`: retrieves `url` once
/// and reports whether the request completed with a success status; any
/// transport failure or non-success status is `false`. The outcome
/// depends on the network, so nothing is promised of it.
#[verifier::external_body]
fn http_get_ok(url: &[u8]) -> bool {
    let Ok(url) = core::str::from_utf8(url) else {
        return false;
    };
    match reqwest::blocking::get(url) {
        Ok(resp) => resp.error_for_status().is_ok(),
        Err(_) => false,
    }
}

/// Probes whether the repository under `uri` serves `suite`, by a single
/// retrieval of its release-metadata descriptor. The network decides the
/// answer, so no result is promised; resolution treats `false` as "this
/// candidate is unavailable" and carries on.
pub fn is_available(uri: &[u8], suite: &[u8]) -> bool {
    let url = release_url(uri, suite);
    http_get_ok(url.as_slice())
}

/// Probes every whitespace-separated suite token of `suites` under
/// `uri`; true only when each one is confirmed available.
pub fn check_all_suites(uri: &[u8], suites: &[u8]) -> bool {
    let toks = split_ws(suites);
    let mut j: usize = 0;
    while j < toks.len()
        decreases toks@.len() - j,
    {
        if !is_available(uri, toks[j].as_slice()) {
            return false;
        }
        j += 1;
    }
    true
}

} // verus!
