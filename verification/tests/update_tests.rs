//! End-to-end update behavior. The probe target is a local port nothing
//! listens on, so every availability check is answered negatively and
//! the conservative paths (keep everything as it is) are exercised.
use sources_update::legacy::{update_legacy_line, update_list_content, LineOutcome};
use sources_update::paragraph::{parse_field, try_update_paragraph, Paragraph};
use sources_update::probe::is_available;
use sources_update::resolve::{resolve_suite, resolve_suites_gated};
use sources_update::sources::update_sources_content;

const DEAD: &[u8] = b"http://127.0.0.1:1/ubuntu";

#[test]
fn probe_unreachable_host_is_unavailable() {
    assert!(!is_available(DEAD, b"focal"));
}

#[test]
fn resolver_keeps_suite_when_nothing_is_confirmed() {
    let (out, steps) = resolve_suite(DEAD, b"bionic");
    assert_eq!(steps, 0);
    assert_eq!(out, b"bionic".to_vec());
}

#[test]
fn resolver_is_idempotent_when_probes_fail() {
    let (once, s1) = resolve_suite(DEAD, b"focal-updates");
    let (twice, s2) = resolve_suite(DEAD, once.as_slice());
    assert_eq!(s1, 0);
    assert_eq!(s2, 0);
    assert_eq!(once, b"focal-updates".to_vec());
    assert_eq!(twice, once);
}

#[test]
fn resolver_ignores_suite_outside_catalog() {
    let (out, steps) = resolve_suites_gated(DEAD, b"sid experimental");
    assert_eq!(steps, 0);
    assert_eq!(out, b"sid experimental".to_vec());
}

#[test]
fn line_without_catalog_release_stays_untouched() {
    let line = b"deb http://127.0.0.1:1/debian sid main";
    assert!(matches!(update_legacy_line(line), LineOutcome::Unchanged));
}

#[test]
fn non_http_line_stays_untouched() {
    let line = b"deb ftp://mirror.example/ubuntu focal main";
    assert!(matches!(update_legacy_line(line), LineOutcome::Unchanged));
}

#[test]
fn unparseable_content_passes_through_unchanged() {
    let content = b"# a comment\n\nftp://mirror.example/ubuntu focal main\nnot a record\n";
    let (out, changed) = update_list_content(content);
    assert!(!changed);
    assert_eq!(out, content.to_vec());
}

#[test]
fn list_content_unchanged_when_no_probe_succeeds() {
    let content = b"deb [arch=amd64] http://127.0.0.1:1/ubuntu bionic main\n";
    let (out, changed) = update_list_content(content);
    assert!(!changed);
    assert_eq!(out, content.to_vec());
}

#[test]
fn marker_line_stays_commented_without_confirmed_release() {
    let content = b"# disabled on upgrade: deb http://127.0.0.1:1/ubuntu focal main\n";
    let (out, changed) = update_list_content(content);
    assert!(!changed);
    assert_eq!(out, content.to_vec());
}

#[test]
fn paragraph_without_http_uri_is_not_touched() {
    let mut p = Paragraph {
        fields: vec![
            parse_field(b"URIs: ftp://mirror.example/ubuntu").unwrap(),
            parse_field(b"Suites: focal").unwrap(),
            parse_field(b"Enabled: no").unwrap(),
        ],
    };
    assert!(!try_update_paragraph(&mut p));
    assert!(p.contains_key(b"Enabled"));
}

#[test]
fn enabled_field_is_dropped_from_http_paragraph() {
    let mut p = Paragraph {
        fields: vec![
            parse_field(b"URIs: http://127.0.0.1:1/ubuntu").unwrap(),
            parse_field(b"Suites: jammy jammy-updates").unwrap(),
            parse_field(b"Enabled: no").unwrap(),
        ],
    };
    assert!(try_update_paragraph(&mut p));
    assert!(!p.contains_key(b"Enabled"));
    assert_eq!(p.get(b"Suites"), Some(b"jammy jammy-updates".to_vec()));
}

#[test]
fn sources_content_unchanged_without_migration() {
    let content = b"Types: deb\nURIs: http://127.0.0.1:1/ubuntu\nSuites: jammy jammy-security\nComponents: main\n";
    let (out, changed) = update_sources_content(content);
    assert!(!changed);
    assert_eq!(out, content.to_vec());
}

#[test]
fn sources_content_rewritten_when_enabled_is_removed() {
    let content = b"Types: deb\nURIs: http://127.0.0.1:1/ubuntu\nEnabled: yes\nSuites: jammy\nComponents: main\n";
    let (out, changed) = update_sources_content(content);
    assert!(changed);
    let expect = b"Types: deb\nURIs: http://127.0.0.1:1/ubuntu\nSuites: jammy\nComponents: main\n";
    assert_eq!(out, expect.to_vec());
    assert_eq!(*out.last().unwrap(), b'\n');
}

#[test]
fn raw_blocks_and_separators_survive_a_rewrite() {
    let content = b"# header comment\n\nTypes: deb\nURIs: https://127.0.0.1:1/ubuntu\nEnabled: no\nSuites: focal\n\nnot a field line\n";
    let (out, changed) = update_sources_content(content);
    assert!(changed);
    let expect =
        b"# header comment\n\nTypes: deb\nURIs: https://127.0.0.1:1/ubuntu\nSuites: focal\n\nnot a field line\n";
    assert_eq!(out, expect.to_vec());
}

#[test]
fn sources_content_of_blanks_and_comments_is_untouched() {
    let content = b"\n# only a comment\n\n";
    let (out, changed) = update_sources_content(content);
    assert!(!changed);
    assert_eq!(out, content.to_vec());
}

#[test]
fn sources_paragraph_without_suites_only_loses_enabled() {
    let content = b"URIs: http://127.0.0.1:1/ubuntu\nEnabled: no\n";
    let (out, changed) = update_sources_content(content);
    assert!(changed);
    assert_eq!(out, b"URIs: http://127.0.0.1:1/ubuntu\n".to_vec());
}
