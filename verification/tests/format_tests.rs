use sources_update::bytes::{join_bytes, replace_bytes, split_lines, split_ws, trim};
use sources_update::catalog::{catalog, get_release_range_by_name};
use sources_update::legacy::{parse_legacy_line, serialize_legacy, LegacyRecord, SourceKind};
use sources_update::paragraph::{get_http_uri, parse_field, Paragraph};
use sources_update::probe::release_url;

fn toks(v: &[&str]) -> Vec<Vec<u8>> {
    v.iter().map(|s| s.as_bytes().to_vec()).collect()
}

#[test]
fn catalog_is_ordered_and_complete() {
    let c = catalog();
    assert_eq!(c.len(), 27);
    assert_eq!(c[0].name, b"precise".to_vec());
    assert_eq!(c[0].version, b"12.04".to_vec());
    assert_eq!(c[16].name, b"focal".to_vec());
    assert_eq!(c[16].version, b"20.04".to_vec());
    assert_eq!(c[26].name, b"plucky".to_vec());
    assert_eq!(c[26].version, b"25.04".to_vec());
}

#[test]
fn release_range_starts_at_first_codename_found() {
    let r = get_release_range_by_name(b"focal");
    assert_eq!(r.len(), 11);
    assert_eq!(r[0].name, b"focal".to_vec());
    assert_eq!(r[10].name, b"plucky".to_vec());
}

#[test]
fn release_range_matches_codename_inside_larger_token() {
    let r = get_release_range_by_name(b"jammy-updates jammy-security");
    assert_eq!(r.len(), 7);
    assert_eq!(r[0].name, b"jammy".to_vec());
}

#[test]
fn release_range_empty_for_unknown_suite() {
    let r = get_release_range_by_name(b"sid");
    assert_eq!(r.len(), 0);
}

#[test]
fn replace_substitutes_every_occurrence() {
    let out = replace_bytes(b"jammy jammy-updates jammy-security", b"jammy", b"noble");
    assert_eq!(out, b"noble noble-updates noble-security".to_vec());
}

#[test]
fn replace_without_occurrence_is_identity() {
    let out = replace_bytes(b"focal main", b"bionic", b"noble");
    assert_eq!(out, b"focal main".to_vec());
}

#[test]
fn split_ws_drops_all_separators() {
    let t = split_ws(b"  deb \t http://x  focal \n");
    assert_eq!(t, toks(&["deb", "http://x", "focal"]));
}

#[test]
fn split_and_join_lines() {
    let ls = split_lines(b"a\n\nb\n");
    assert_eq!(ls, toks(&["a", "", "b", ""]));
    assert_eq!(join_bytes(&ls, 10), b"a\n\nb\n".to_vec());
}

#[test]
fn trim_removes_surrounding_whitespace_only() {
    assert_eq!(trim(b"  a b \t"), b"a b".to_vec());
    assert_eq!(trim(b"\t \n"), b"".to_vec());
}

#[test]
fn parse_plain_binary_line() {
    let (r, unc) = parse_legacy_line(b"deb http://archive.example.com/ubuntu focal main universe")
        .expect("line parses");
    assert!(!unc);
    assert!(matches!(r.kind, SourceKind::Binary));
    assert!(r.arch_filter.is_none());
    assert_eq!(r.uri, b"http://archive.example.com/ubuntu".to_vec());
    assert_eq!(r.suite, b"focal".to_vec());
    assert_eq!(r.components, toks(&["main", "universe"]));
}

#[test]
fn parse_line_with_arch_filter() {
    let (r, unc) = parse_legacy_line(b"deb [arch=amd64] https://x.example/ubuntu bionic main")
        .expect("line parses");
    assert!(!unc);
    assert_eq!(r.arch_filter, Some(b"[arch=amd64]".to_vec()));
    assert_eq!(r.uri, b"https://x.example/ubuntu".to_vec());
    assert_eq!(r.suite, b"bionic".to_vec());
    assert_eq!(r.components, toks(&["main"]));
}

#[test]
fn parse_source_line_and_trailing_comment() {
    let (r, _) = parse_legacy_line(b"deb-src http://x focal main # pinned").expect("line parses");
    assert!(matches!(r.kind, SourceKind::Source));
    assert_eq!(r.components, toks(&["main"]));
}

#[test]
fn parse_rejects_missing_tokens() {
    assert!(parse_legacy_line(b"deb").is_none());
    assert!(parse_legacy_line(b"deb http://x").is_none());
    assert!(parse_legacy_line(b"deb [arch=amd64] http://x").is_none());
}

#[test]
fn parse_rejects_unknown_kind() {
    assert!(parse_legacy_line(b"ftp://mirror.example/ubuntu focal main").is_none());
    assert!(parse_legacy_line(b"rpm http://x focal main").is_none());
}

#[test]
fn parse_rejects_plain_comment_and_blank() {
    assert!(parse_legacy_line(b"# deb http://x focal main").is_none());
    assert!(parse_legacy_line(b"").is_none());
    assert!(parse_legacy_line(b"   ").is_none());
}

#[test]
fn parse_unwraps_disabled_marker() {
    let (r, unc) = parse_legacy_line(b"# disabled on upgrade: deb http://x/ubuntu focal main")
        .expect("marker line parses");
    assert!(unc);
    assert_eq!(r.suite, b"focal".to_vec());
    assert_eq!(r.uri, b"http://x/ubuntu".to_vec());
}

#[test]
fn serialize_then_parse_round_trip() {
    let rec = LegacyRecord {
        kind: SourceKind::Binary,
        arch_filter: Some(b"[arch=amd64]".to_vec()),
        uri: b"http://archive.example.com/ubuntu".to_vec(),
        suite: b"focal".to_vec(),
        components: toks(&["main", "universe"]),
    };
    let line = serialize_legacy(&rec);
    assert_eq!(
        line,
        b"deb [arch=amd64] http://archive.example.com/ubuntu focal main universe".to_vec()
    );
    let (back, unc) = parse_legacy_line(line.as_slice()).expect("serialized line parses");
    assert!(!unc);
    assert_eq!(back.arch_filter, rec.arch_filter);
    assert_eq!(back.uri, rec.uri);
    assert_eq!(back.suite, rec.suite);
    assert_eq!(back.components, rec.components);
}

#[test]
fn parse_normalizes_whitespace_round_trip() {
    let (r, _) = parse_legacy_line(b"deb   http://x \t focal  main").expect("line parses");
    assert_eq!(serialize_legacy(&r), b"deb http://x focal main".to_vec());
}

#[test]
fn field_line_parses_into_key_and_value() {
    let f = parse_field(b"Suites: jammy jammy-updates").expect("field parses");
    assert_eq!(f.key, b"Suites".to_vec());
    assert_eq!(f.value, b"jammy jammy-updates".to_vec());
    assert_eq!(f.raw, b"Suites: jammy jammy-updates".to_vec());
}

#[test]
fn field_line_rejects_continuation_and_missing_colon() {
    assert!(parse_field(b" indented: value").is_none());
    assert!(parse_field(b"no colon here").is_none());
    assert!(parse_field(b": empty key").is_none());
}

#[test]
fn paragraph_get_set_remove() {
    let f1 = parse_field(b"URIs: http://x").unwrap();
    let f2 = parse_field(b"Suites: focal").unwrap();
    let f3 = parse_field(b"Enabled: no").unwrap();
    let mut p = Paragraph { fields: vec![f1, f2, f3] };
    assert!(p.contains_key(b"Enabled"));
    assert_eq!(p.get(b"Suites"), Some(b"focal".to_vec()));
    assert_eq!(p.get(b"Components"), None);
    p.set(b"Suites", b"noble");
    assert_eq!(p.get(b"Suites"), Some(b"noble".to_vec()));
    assert_eq!(p.fields[1].raw, b"Suites: noble".to_vec());
    p.remove(b"Enabled");
    assert!(!p.contains_key(b"Enabled"));
    assert_eq!(p.fields.len(), 2);
}

#[test]
fn release_url_joins_the_fixed_segments() {
    let url = release_url(b"http://archive.example.com/ubuntu", b"focal-updates");
    assert_eq!(
        url,
        b"http://archive.example.com/ubuntu/dists/focal-updates/Release".to_vec()
    );
}

#[test]
fn set_appends_a_missing_field() {
    let mut p = Paragraph { fields: vec![parse_field(b"URIs: http://x").unwrap()] };
    p.set(b"Suites", b"focal");
    assert_eq!(p.fields.len(), 2);
    assert_eq!(p.fields[1].raw, b"Suites: focal".to_vec());
    assert_eq!(p.get(b"Suites"), Some(b"focal".to_vec()));
}

#[test]
fn http_uri_detection() {
    let p = Paragraph { fields: vec![parse_field(b"URIs: ftp://mirror.example/ubuntu").unwrap()] };
    assert!(get_http_uri(&p).is_none());
    let q = Paragraph { fields: vec![parse_field(b"URIs: https://x.example/ubuntu").unwrap()] };
    assert_eq!(get_http_uri(&q), Some(b"https://x.example/ubuntu".to_vec()));
}
