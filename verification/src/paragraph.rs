//! The structured configuration format: a paragraph is a block of
//! `Key: value` lines, order-preserving, with unrecognized fields kept
//! opaque. Updating a paragraph removes the deprecated `Enabled` field
//! and walks the `Suites` field along the release catalog.
use crate::bytes::{
    ascii_bytes, bytes_eq, copy_bytes, copy_range, is_ws, is_ws_byte, lit_bytes, scan_byte,
    scan_len, trim, trim_spec,
};
use crate::catalog::{catalog_names, find_start_spec};
use crate::resolve::{chain_spec, resolve_suites_gated};
use vstd::prelude::*;

verus! {

/// The mathematical image of one field: its verbatim line, its key and
/// its value.
pub ghost struct FieldV {
    pub raw: Seq<u8>,
    pub key: Seq<u8>,
    pub value: Seq<u8>,
}

/// One `Key: value` field, together with the verbatim line it came from
/// (or was last rewritten to).
pub struct Field {
    pub raw: Vec<u8>,
    pub key: Vec<u8>,
    pub value: Vec<u8>,
}

impl View for Field {
    type V = FieldV;

    open spec fn view(&self) -> FieldV {
        FieldV { raw: self.raw@, key: self.key@, value: self.value@ }
    }
}

/// An ordered block of fields.
pub struct Paragraph {
    pub fields: Vec<Field>,
}

impl View for Paragraph {
    type V = Seq<FieldV>;

    open spec fn view(&self) -> Seq<FieldV> {
        Seq::new(self.fields@.len(), |i: int| self.fields@[i]@)
    }
}

pub open spec fn uris_key() -> Seq<u8> {
    ascii_bytes("URIs"@)
}

pub open spec fn suites_key() -> Seq<u8> {
    ascii_bytes("Suites"@)
}

pub open spec fn enabled_key() -> Seq<u8> {
    ascii_bytes("Enabled"@)
}

/// The serialized form of a field: `<key>: <value>`.
pub open spec fn field_line(key: Seq<u8>, value: Seq<u8>) -> Seq<u8> {
    key + seq![58u8, 32u8] + value
}

/// First field position at or after `i` holding `key`.
pub open spec fn idx_of_key_from(fs: Seq<FieldV>, key: Seq<u8>, i: int) -> Option<int>
    decreases fs.len() - i,
{
    if i < 0 || i >= fs.len() {
        None
    } else if fs[i].key == key {
        Some(i)
    } else {
        idx_of_key_from(fs, key, i + 1)
    }
}

/// First field position holding `key`.
pub open spec fn idx_of_key(fs: Seq<FieldV>, key: Seq<u8>) -> Option<int> {
    idx_of_key_from(fs, key, 0)
}

pub open spec fn has_key(fs: Seq<FieldV>, key: Seq<u8>) -> bool {
    idx_of_key(fs, key) is Some
}

/// The value of the first field holding `key`.
pub open spec fn get_spec(fs: Seq<FieldV>, key: Seq<u8>) -> Option<Seq<u8>> {
    match idx_of_key(fs, key) {
        Some(j) => Some(fs[j].value),
        None => None,
    }
}

/// `fs` with the first field holding `key` set to `value` and its line
/// rewritten, or with such a field appended when none exists.
pub open spec fn set_spec(fs: Seq<FieldV>, key: Seq<u8>, value: Seq<u8>) -> Seq<FieldV> {
    let f = FieldV { raw: field_line(key, value), key: key, value: value };
    match idx_of_key(fs, key) {
        Some(j) => fs.update(j, f),
        None => fs.push(f),
    }
}

/// `fs` without the first field holding `key`.
pub open spec fn remove_spec(fs: Seq<FieldV>, key: Seq<u8>) -> Seq<FieldV> {
    match idx_of_key(fs, key) {
        Some(j) => fs.remove(j),
        None => fs,
    }
}

/// One line read as a field: a non-empty colon-free whitespace-free key,
/// a colon, and the surrounding-whitespace-trimmed remainder as value.
/// A line opening with whitespace (a continuation line) is not a field.
pub open spec fn parse_field_spec(line: Seq<u8>) -> Option<(Seq<u8>, Seq<u8>)> {
    let c = scan_len(line, 58);
    if c == 0 || c >= line.len() || exists|m: int| 0 <= m < c && is_ws(#[trigger] line[m]) {
        None
    } else {
        Some((line.take(c), trim_spec(line.skip(c + 1))))
    }
}

/// Reads one line as a field, executable form of [`parse_field_spec`];
/// the verbatim line is retained.
pub fn parse_field(line: &[u8]) -> (r: Option<Field>)
    ensures
        match r {
            Some(f) => parse_field_spec(line@) == Some((f.key@, f.value@)) && f.raw@ == line@,
            None => parse_field_spec(line@) is None,
        },
{
    let c = scan_byte(line, 58);
    if c == 0 || c >= line.len() {
        return None;
    }
    let mut m: usize = 0;
    while m < c
        invariant
            m <= c,
            c < line@.len(),
            c == scan_len(line@, 58),
            forall|k: int| 0 <= k < m ==> !is_ws(#[trigger] line@[k]),
        decreases c - m,
    {
        if is_ws_byte(line[m]) {
            proof {
                let ghost mi = m as int;
                assert(0 <= mi < scan_len(line@, 58));
                assert(is_ws(line@[mi]));
                assert(exists|k: int| 0 <= k < scan_len(line@, 58) && is_ws(#[trigger] line@[k]));
            }
            return None;
        }
        m += 1;
    }
    let key = copy_range(line, 0, c);
    let value = trim(vstd::slice::slice_subrange(line, c + 1, line.len()));
    proof {
        assert(line@.subrange(c + 1, line@.len() as int) =~= line@.skip(c + 1));
        assert(line@.subrange(0, c as int) =~= line@.take(c as int));
    }
    Some(Field { raw: copy_bytes(line), key, value })
}

impl Paragraph {
    /// Index of the first field holding `key`.
    fn find_key(&self, key: &[u8]) -> (r: Option<usize>)
        ensures
            match r {
                Some(j) => j < self.fields@.len() && idx_of_key(self@, key@) == Some(j as int),
                None => idx_of_key(self@, key@) is None,
            },
    {
        let mut i: usize = 0;
        while i < self.fields.len()
            invariant
                i <= self.fields@.len(),
                idx_of_key(self@, key@) == idx_of_key_from(self@, key@, i as int),
            decreases self.fields@.len() - i,
        {
            if bytes_eq(self.fields[i].key.as_slice(), key) {
                return Some(i);
            }
            i += 1;
        }
        None
    }

    /// Whether a field holding `key` exists.
    pub fn contains_key(&self, key: &[u8]) -> (r: bool)
        ensures
            r == has_key(self@, key@),
    {
        self.find_key(key).is_some()
    }

    /// The value of the first field holding `key`.
    pub fn get(&self, key: &[u8]) -> (r: Option<Vec<u8>>)
        ensures
            match r {
                Some(v) => get_spec(self@, key@) == Some(v@),
                None => get_spec(self@, key@) is None,
            },
    {
        match self.find_key(key) {
            Some(j) => Some(copy_bytes(self.fields[j].value.as_slice())),
            None => None,
        }
    }

    /// Sets the first field holding `key` to `value`, rewriting its
    /// line, or appends such a field.
    pub fn set(&mut self, key: &[u8], value: &[u8])
        ensures
            final(self)@ == set_spec(old(self)@, key@, value@),
    {
        let mut raw = copy_bytes(key);
        raw.push(58);
        raw.push(32);
        crate::bytes::append_bytes(&mut raw, value);
        proof {
            assert(raw@ =~= field_line(key@, value@));
        }
        let f = Field { raw, key: copy_bytes(key), value: copy_bytes(value) };
        match self.find_key(key) {
            Some(j) => {
                self.fields.remove(j);
                self.fields.insert(j, f);
                proof {
                    assert(self@ =~= set_spec(old(self)@, key@, value@));
                }
            },
            None => {
                self.fields.push(f);
                proof {
                    assert(self@ =~= set_spec(old(self)@, key@, value@));
                }
            },
        }
    }

    /// Removes the first field holding `key`, if any.
    pub fn remove(&mut self, key: &[u8])
        ensures
            final(self)@ == remove_spec(old(self)@, key@),
    {
        match self.find_key(key) {
            Some(j) => {
                self.fields.remove(j);
                proof {
                    assert(self@ =~= remove_spec(old(self)@, key@));
                }
            },
            None => {
                proof {
                    assert(self@ =~= remove_spec(old(self)@, key@));
                }
            },
        }
    }
}

/// `u` names an HTTP or HTTPS location.
pub open spec fn is_http_spec(u: Seq<u8>) -> bool {
    ||| (u.len() >= ascii_bytes("http://"@).len() && u.subrange(
        0,
        ascii_bytes("http://"@).len() as int,
    ) == ascii_bytes("http://"@))
    ||| (u.len() >= ascii_bytes("https://"@).len() && u.subrange(
        0,
        ascii_bytes("https://"@).len() as int,
    ) == ascii_bytes("https://"@))
}

/// Tests for an HTTP(S) prefix, executable form of [`is_http_spec`].
pub fn is_http(u: &[u8]) -> (r: bool)
    ensures
        r == is_http_spec(u@),
{
    proof {
        reveal_strlit("http://");
        reveal_strlit("https://");
    }
    let hp = lit_bytes("http://");
    let hps = lit_bytes("https://");
    crate::bytes::starts_with(u, hp.as_slice()) || crate::bytes::starts_with(u, hps.as_slice())
}

/// The paragraph's `URIs` value, when it names an HTTP(S) location;
/// a paragraph without one is never touched by resolution.
pub fn get_http_uri(p: &Paragraph) -> (r: Option<Vec<u8>>)
    ensures
        match r {
            Some(u) => get_spec(p@, uris_key()) == Some(u@) && is_http_spec(u@),
            None => match get_spec(p@, uris_key()) {
                Some(u) => !is_http_spec(u),
                None => true,
            },
        },
{
    proof {
        reveal_strlit("URIs");
        reveal_strlit("http://");
        reveal_strlit("https://");
    }
    let uk = lit_bytes("URIs");
    let uri = match p.get(uk.as_slice()) {
        Some(u) => u,
        None => {
            return None;
        },
    };
    let hp = lit_bytes("http://");
    let hps = lit_bytes("https://");
    if crate::bytes::starts_with(uri.as_slice(), hp.as_slice()) || crate::bytes::starts_with(
        uri.as_slice(),
        hps.as_slice(),
    ) {
        Some(uri)
    } else {
        None
    }
}

/// The `Suites` field of `new_fs` is the result of `steps` committed
/// catalog steps on that of `old_fs`, its line rewritten accordingly.
pub open spec fn suites_updated_by(old_fs: Seq<FieldV>, new_fs: Seq<FieldV>, steps: nat) -> bool {
    match get_spec(old_fs, suites_key()) {
        Some(s) => match find_start_spec(s) {
            Some(st) => {
                &&& steps >= 1
                &&& st + steps < catalog_names().len()
                &&& new_fs == set_spec(old_fs, suites_key(), chain_spec(s, st, steps))
            },
            None => false,
        },
        None => false,
    }
}

/// `fs` names an HTTP(S) location in its `URIs` field.
pub open spec fn http_target(fs: Seq<FieldV>) -> bool {
    match get_spec(fs, uris_key()) {
        Some(u) => is_http_spec(u),
        None => false,
    }
}

/// `fs` after the deprecated `Enabled` field is dropped.
pub open spec fn without_enabled(fs: Seq<FieldV>) -> Seq<FieldV> {
    if has_key(fs, enabled_key()) {
        remove_spec(fs, enabled_key())
    } else {
        fs
    }
}

/// How one paragraph may change under resolution: untouched without an
/// HTTP(S) `URIs` value; otherwise the deprecated `Enabled` field is
/// removed, and the `Suites` field either keeps its value (no confirmed
/// step) or advances by some number of committed catalog steps.
/// `upd` reports whether anything changed.
pub open spec fn para_update_rel(fs: Seq<FieldV>, new_fs: Seq<FieldV>, upd: bool) -> bool {
    if !http_target(fs) {
        new_fs == fs && !upd
    } else {
        ||| (new_fs == without_enabled(fs) && upd == has_key(fs, enabled_key()))
        ||| (upd && exists|steps: nat| #[trigger] suites_updated_by(without_enabled(fs), new_fs, steps))
    }
}

/// A paragraph left unchanged by [`try_update_paragraph`] cannot have
/// carried both an HTTP(S) `URIs` value and an `Enabled` field: dropping
/// `Enabled` does not depend on any probe.
pub proof fn lemma_para_unchanged_keeps_enabled_out(fs: Seq<FieldV>, new_fs: Seq<FieldV>)
    requires
        para_update_rel(fs, new_fs, false),
    ensures
        new_fs == fs,
        http_target(fs) ==> !has_key(fs, enabled_key()),
{
    if http_target(fs) {
        assert(new_fs == without_enabled(fs) && !has_key(fs, enabled_key()));
    }
}

/// Walks the paragraph's `Suites` along the catalog under the
/// whole-paragraph gating policy and commits the furthest fully
/// confirmed value; reports whether a step was committed. A paragraph
/// without an HTTP(S) `URIs` value is never touched, let alone probed.
pub fn try_update_by_suites_name(p: &mut Paragraph) -> (updated: bool)
    ensures
        !updated ==> final(p)@ == old(p)@,
        updated ==> exists|steps: nat| #[trigger] suites_updated_by(old(p)@, final(p)@, steps),
        !http_target(old(p)@) ==> !updated && final(p)@ == old(p)@,
{
    let uri = match get_http_uri(p) {
        Some(u) => u,
        None => {
            return false;
        },
    };
    proof {
        reveal_strlit("Suites");
    }
    let sk = lit_bytes("Suites");
    let suites = match p.get(sk.as_slice()) {
        Some(s) => s,
        None => {
            return false;
        },
    };
    let r = resolve_suites_gated(uri.as_slice(), suites.as_slice());
    let new_suites = r.0;
    let steps = r.1;
    if steps == 0 {
        return false;
    }
    p.set(sk.as_slice(), new_suites.as_slice());
    proof {
        assert(find_start_spec(suites@) is Some);
        assert(suites_updated_by(old(p)@, p@, steps as nat));
    }
    true
}

/// Updates one paragraph: with an HTTP(S) `URIs` value, removes the
/// deprecated `Enabled` field and then walks `Suites`; reports whether
/// the paragraph changed.
pub fn try_update_paragraph(p: &mut Paragraph) -> (updated: bool)
    ensures
        para_update_rel(old(p)@, final(p)@, updated),
{
    if get_http_uri(p).is_none() {
        return false;
    }
    proof {
        reveal_strlit("Enabled");
    }
    let ek = lit_bytes("Enabled");
    let mut updated = false;
    if p.contains_key(ek.as_slice()) {
        updated = true;
        p.remove(ek.as_slice());
    }
    let ghost mid = p@;
    proof {
        assert(mid == without_enabled(old(p)@));
    }
    if try_update_by_suites_name(p) {
        proof {
            assert(exists|steps: nat| #[trigger] suites_updated_by(
                without_enabled(old(p)@),
                p@,
                steps,
            ));
        }
        return true;
    }
    updated
}

} // verus!
