//! The ordered table of known releases, oldest first, and the search for
//! the first catalog entry whose codename occurs in a suite token.
use crate::bytes::{ascii_bytes, contains_bytes, contains_bytes_spec, copy_bytes, lit_bytes};
use vstd::prelude::*;

verus! {

/// One entry of the release catalog.
pub struct Release {
    pub name: Vec<u8>,
    pub version: Vec<u8>,
}

/// The codenames of the known releases, ordered oldest to newest.
pub open spec fn catalog_names() -> Seq<Seq<u8>> {
    seq![
        ascii_bytes("precise"@),
        ascii_bytes("quantal"@),
        ascii_bytes("raring"@),
        ascii_bytes("saucy"@),
        ascii_bytes("trusty"@),
        ascii_bytes("utopic"@),
        ascii_bytes("vivid"@),
        ascii_bytes("wily"@),
        ascii_bytes("xenial"@),
        ascii_bytes("yakkety"@),
        ascii_bytes("zesty"@),
        ascii_bytes("artful"@),
        ascii_bytes("bionic"@),
        ascii_bytes("cosmic"@),
        ascii_bytes("disco"@),
        ascii_bytes("eoan"@),
        ascii_bytes("focal"@),
        ascii_bytes("groovy"@),
        ascii_bytes("hirsute"@),
        ascii_bytes("impish"@),
        ascii_bytes("jammy"@),
        ascii_bytes("kinetic"@),
        ascii_bytes("lunar"@),
        ascii_bytes("mantic"@),
        ascii_bytes("noble"@),
        ascii_bytes("oracular"@),
        ascii_bytes("plucky"@),
    ]
}

/// The version tokens of the known releases, in the same order.
pub open spec fn catalog_versions() -> Seq<Seq<u8>> {
    seq![
        ascii_bytes("12.04"@),
        ascii_bytes("12.10"@),
        ascii_bytes("13.04"@),
        ascii_bytes("13.10"@),
        ascii_bytes("14.04"@),
        ascii_bytes("14.10"@),
        ascii_bytes("15.04"@),
        ascii_bytes("15.10"@),
        ascii_bytes("16.04"@),
        ascii_bytes("16.10"@),
        ascii_bytes("17.04"@),
        ascii_bytes("17.10"@),
        ascii_bytes("18.04"@),
        ascii_bytes("18.10"@),
        ascii_bytes("19.04"@),
        ascii_bytes("19.10"@),
        ascii_bytes("20.04"@),
        ascii_bytes("20.10"@),
        ascii_bytes("21.04"@),
        ascii_bytes("21.10"@),
        ascii_bytes("22.04"@),
        ascii_bytes("22.10"@),
        ascii_bytes("23.04"@),
        ascii_bytes("23.10"@),
        ascii_bytes("24.04"@),
        ascii_bytes("24.10"@),
        ascii_bytes("25.04"@),
    ]
}

/// `r` is the catalog entry of position `i`.
pub open spec fn release_at(r: Release, i: int) -> bool {
    &&& r.name@ == catalog_names()[i]
    &&& r.version@ == catalog_versions()[i]
    &&& catalog_names()[i].len() > 0
}

/// `rs` is the whole catalog, oldest first.
pub open spec fn catalog_wf(rs: Seq<Release>) -> bool {
    &&& rs.len() == catalog_names().len()
    &&& forall|i: int| 0 <= i < rs.len() ==> #[trigger] release_at(rs[i], i)
}

fn push_release(v: &mut Vec<Release>, name: &str, version: &str)
    requires
        name.is_ascii(),
        version.is_ascii(),
        ascii_bytes(name@).len() > 0,
        old(v)@.len() < catalog_names().len(),
        ascii_bytes(name@) == catalog_names()[old(v)@.len() as int],
        ascii_bytes(version@) == catalog_versions()[old(v)@.len() as int],
        forall|i: int| 0 <= i < old(v)@.len() ==> #[trigger] release_at(old(v)@[i], i),
    ensures
        final(v)@.len() == old(v)@.len() + 1,
        forall|i: int| 0 <= i < final(v)@.len() ==> #[trigger] release_at(final(v)@[i], i),
{
    let r = Release { name: lit_bytes(name), version: lit_bytes(version) };
    v.push(r);
}

/// Builds the release catalog.
pub fn catalog() -> (r: Vec<Release>)
    ensures
        catalog_wf(r@),
{
    proof {
        reveal_strlit("precise");
        reveal_strlit("12.04");
        reveal_strlit("quantal");
        reveal_strlit("12.10");
        reveal_strlit("raring");
        reveal_strlit("13.04");
        reveal_strlit("saucy");
        reveal_strlit("13.10");
        reveal_strlit("trusty");
        reveal_strlit("14.04");
        reveal_strlit("utopic");
        reveal_strlit("14.10");
        reveal_strlit("vivid");
        reveal_strlit("15.04");
        reveal_strlit("wily");
        reveal_strlit("15.10");
        reveal_strlit("xenial");
        reveal_strlit("16.04");
        reveal_strlit("yakkety");
        reveal_strlit("16.10");
        reveal_strlit("zesty");
        reveal_strlit("17.04");
        reveal_strlit("artful");
        reveal_strlit("17.10");
        reveal_strlit("bionic");
        reveal_strlit("18.04");
        reveal_strlit("cosmic");
        reveal_strlit("18.10");
        reveal_strlit("disco");
        reveal_strlit("19.04");
        reveal_strlit("eoan");
        reveal_strlit("19.10");
        reveal_strlit("focal");
        reveal_strlit("20.04");
        reveal_strlit("groovy");
        reveal_strlit("20.10");
        reveal_strlit("hirsute");
        reveal_strlit("21.04");
        reveal_strlit("impish");
        reveal_strlit("21.10");
        reveal_strlit("jammy");
        reveal_strlit("22.04");
        reveal_strlit("kinetic");
        reveal_strlit("22.10");
        reveal_strlit("lunar");
        reveal_strlit("23.04");
        reveal_strlit("mantic");
        reveal_strlit("23.10");
        reveal_strlit("noble");
        reveal_strlit("24.04");
        reveal_strlit("oracular");
        reveal_strlit("24.10");
        reveal_strlit("plucky");
        reveal_strlit("25.04");
    }
    let mut v: Vec<Release> = Vec::new();
    push_release(&mut v, "precise", "12.04");
    push_release(&mut v, "quantal", "12.10");
    push_release(&mut v, "raring", "13.04");
    push_release(&mut v, "saucy", "13.10");
    push_release(&mut v, "trusty", "14.04");
    push_release(&mut v, "utopic", "14.10");
    push_release(&mut v, "vivid", "15.04");
    push_release(&mut v, "wily", "15.10");
    push_release(&mut v, "xenial", "16.04");
    push_release(&mut v, "yakkety", "16.10");
    push_release(&mut v, "zesty", "17.04");
    push_release(&mut v, "artful", "17.10");
    push_release(&mut v, "bionic", "18.04");
    push_release(&mut v, "cosmic", "18.10");
    push_release(&mut v, "disco", "19.04");
    push_release(&mut v, "eoan", "19.10");
    push_release(&mut v, "focal", "20.04");
    push_release(&mut v, "groovy", "20.10");
    push_release(&mut v, "hirsute", "21.04");
    push_release(&mut v, "impish", "21.10");
    push_release(&mut v, "jammy", "22.04");
    push_release(&mut v, "kinetic", "22.10");
    push_release(&mut v, "lunar", "23.04");
    push_release(&mut v, "mantic", "23.10");
    push_release(&mut v, "noble", "24.04");
    push_release(&mut v, "oracular", "24.10");
    push_release(&mut v, "plucky", "25.04");
    v
}

/// The first catalog position at or after `i` whose codename occurs in
/// `target`, scanning oldest to newest.
pub open spec fn find_start_from(target: Seq<u8>, i: int) -> Option<int>
    decreases catalog_names().len() - i,
{
    if i < 0 || i >= catalog_names().len() {
        None
    } else if contains_bytes_spec(target, catalog_names()[i]) {
        Some(i)
    } else {
        find_start_from(target, i + 1)
    }
}

/// The first catalog position whose codename occurs in `target`.
pub open spec fn find_start_spec(target: Seq<u8>) -> Option<int> {
    find_start_from(target, 0)
}

/// Scans the catalog oldest to newest for the first codename occurring
/// in `target`.
pub fn find_start_index(releases: &Vec<Release>, target: &[u8]) -> (r: Option<usize>)
    requires
        catalog_wf(releases@),
    ensures
        match r {
            Some(i) => find_start_spec(target@) == Some(i as int) && i < catalog_names().len(),
            None => find_start_spec(target@) is None,
        },
{
    let mut i: usize = 0;
    while i < releases.len()
        invariant
            catalog_wf(releases@),
            i <= releases@.len(),
            find_start_spec(target@) == find_start_from(target@, i as int),
        decreases releases@.len() - i,
    {
        proof {
            assert(release_at(releases@[i as int], i as int));
        }
        if contains_bytes(target, releases[i].name.as_slice()) {
            return Some(i);
        }
        i += 1;
    }
    None
}

/// The suffix of the catalog from the first release whose codename
/// occurs in `target`; empty when no codename does.
pub fn get_release_range_by_name(target: &[u8]) -> (r: Vec<Release>)
    ensures
        match find_start_spec(target@) {
            None => r@.len() == 0,
            Some(st) => {
                &&& r@.len() == catalog_names().len() - st
                &&& forall|k: int| 0 <= k < r@.len() ==> #[trigger] release_at(r@[k], st + k)
            },
        },
{
    let releases = catalog();
    match find_start_index(&releases, target) {
        None => Vec::new(),
        Some(st) => {
            let mut out: Vec<Release> = Vec::new();
            let mut k: usize = st;
            while k < releases.len()
                invariant
                    catalog_wf(releases@),
                    st <= k <= releases@.len(),
                    out@.len() == k - st,
                    forall|j: int| 0 <= j < out@.len() ==> #[trigger] release_at(out@[j], st + j),
                decreases releases@.len() - k,
            {
                proof {
                    assert(release_at(releases@[k as int], k as int));
                }
                let name = copy_bytes(releases[k].name.as_slice());
                let version = copy_bytes(releases[k].version.as_slice());
                out.push(Release { name, version });
                k += 1;
            }
            out
        },
    }
}

} // verus!
