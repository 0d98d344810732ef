//! The legacy line format: one repository declaration per line, of the
//! shape `<kind> [arch-filter] <uri> <suite> <component>...`, with an
//! optional trailing comment, and a special comment marker for entries
//! that were once disabled automatically.
use crate::bytes::{
    ascii_bytes, copy_bytes, copy_range, ensure_nl, is_ws, join_bytes, join_with, scan_byte,
    scan_len, split_lines, split_lines_spec, split_ws, split_ws_spec, starts_with, token_len,
    trim, trim_spec, bytes_eq, lemma_token_len_value, lemma_scan_len_value, lit_bytes,
};
use crate::catalog::{catalog_names, find_start_spec};
use crate::paragraph::{is_http, is_http_spec};
use crate::resolve::{chain_spec, resolve_suite};
use vstd::prelude::*;

verus! {

/// The kind of a repository declaration: binary packages or sources.
#[derive(Clone, Copy, PartialEq, Eq, Structural)]
pub enum SourceKind {
    Binary,
    Source,
}

/// The mathematical image of a parsed legacy record.
pub ghost struct LegacyRecordV {
    pub kind: SourceKind,
    pub arch_filter: Option<Seq<u8>>,
    pub uri: Seq<u8>,
    pub suite: Seq<u8>,
    pub components: Seq<Seq<u8>>,
}

/// A parsed legacy record.
pub struct LegacyRecord {
    pub kind: SourceKind,
    pub arch_filter: Option<Vec<u8>>,
    pub uri: Vec<u8>,
    pub suite: Vec<u8>,
    pub components: Vec<Vec<u8>>,
}

impl View for LegacyRecord {
    type V = LegacyRecordV;

    open spec fn view(&self) -> LegacyRecordV {
        LegacyRecordV {
            kind: self.kind,
            arch_filter: match self.arch_filter {
                Some(a) => Some(a@),
                None => None,
            },
            uri: self.uri@,
            suite: self.suite@,
            components: self.components.deep_view(),
        }
    }
}

/// The keyword a record kind is written as.
pub open spec fn kind_token(k: SourceKind) -> Seq<u8> {
    match k {
        SourceKind::Binary => ascii_bytes("deb"@),
        SourceKind::Source => ascii_bytes("deb-src"@),
    }
}

/// The token sequence a record is written as.
pub open spec fn tokens_of(r: LegacyRecordV) -> Seq<Seq<u8>> {
    match r.arch_filter {
        Some(a) => seq![kind_token(r.kind), a, r.uri, r.suite] + r.components,
        None => seq![kind_token(r.kind), r.uri, r.suite] + r.components,
    }
}

/// A record's native textual form: its tokens joined by single spaces.
pub open spec fn serialize_spec(r: LegacyRecordV) -> Seq<u8> {
    join_with(tokens_of(r), 32)
}

/// A record read back from a token sequence: the kind keyword, an
/// optional bracketed architecture filter, the base location, the suite,
/// and the remaining tokens as components.
pub open spec fn parse_tokens(toks: Seq<Seq<u8>>) -> Option<LegacyRecordV> {
    if toks.len() == 0 {
        None
    } else {
        let kind = if toks[0] == ascii_bytes("deb"@) {
            Some(SourceKind::Binary)
        } else if toks[0] == ascii_bytes("deb-src"@) {
            Some(SourceKind::Source)
        } else {
            None
        };
        match kind {
            None => None,
            Some(k) => {
                if toks.len() >= 2 && toks[1].len() > 0 && toks[1][0] == 91 {
                    if toks.len() < 4 || toks[1].len() < 2 || toks[1].last() != 93 {
                        None
                    } else {
                        Some(
                            LegacyRecordV {
                                kind: k,
                                arch_filter: Some(toks[1]),
                                uri: toks[2],
                                suite: toks[3],
                                components: toks.skip(4),
                            },
                        )
                    }
                } else {
                    if toks.len() < 3 {
                        None
                    } else {
                        Some(
                            LegacyRecordV {
                                kind: k,
                                arch_filter: None,
                                uri: toks[1],
                                suite: toks[2],
                                components: toks.skip(3),
                            },
                        )
                    }
                }
            },
        }
    }
}

/// The comment marker of an entry a previous run disabled.
pub open spec fn marker() -> Seq<u8> {
    ascii_bytes("# disabled on upgrade:"@)
}

/// The line up to its trailing comment, if any.
pub open spec fn active_part(line: Seq<u8>) -> Seq<u8> {
    line.take(scan_len(line, 35))
}

/// A line read as an active record: the comment stripped, then the
/// tokens parsed.
pub open spec fn parse_active_spec(line: Seq<u8>) -> Option<LegacyRecordV> {
    parse_tokens(split_ws_spec(active_part(line)))
}

/// Whether the line is a whole-comment marker for a disabled entry.
pub open spec fn is_marker_line(line: Seq<u8>) -> bool {
    trim_spec(line).len() >= marker().len() && trim_spec(line).take(marker().len() as int)
        == marker()
}

/// A line read as a record: a marker comment is unwrapped and flagged
/// as un-commentable, any other line is parsed as it stands.
pub open spec fn parse_line_spec(line: Seq<u8>) -> Option<(LegacyRecordV, bool)> {
    if is_marker_line(line) {
        match parse_active_spec(trim_spec(line).skip(marker().len() as int)) {
            Some(r) => Some((r, true)),
            None => None,
        }
    } else {
        match parse_active_spec(line) {
            Some(r) => Some((r, false)),
            None => None,
        }
    }
}

/// Reads the tokens of a stripped line as a record, executable form of
/// [`parse_tokens`].
fn parse_token_vec(toks: &Vec<Vec<u8>>) -> (r: Option<LegacyRecord>)
    ensures
        match r {
            Some(rec) => parse_tokens(toks.deep_view()) == Some(rec@),
            None => parse_tokens(toks.deep_view()) is None,
        },
{
    proof {
        reveal_strlit("deb");
        reveal_strlit("deb-src");
    }
    let ghost tdv = toks.deep_view();
    if toks.len() == 0 {
        return None;
    }
    proof {
        assert(tdv[0] =~= toks@[0]@);
    }
    let deb = lit_bytes("deb");
    let deb_src = lit_bytes("deb-src");
    let kind = if bytes_eq(toks[0].as_slice(), deb.as_slice()) {
        SourceKind::Binary
    } else if bytes_eq(toks[0].as_slice(), deb_src.as_slice()) {
        SourceKind::Source
    } else {
        return None;
    };
    if toks.len() >= 2 {
        proof {
            assert(tdv[1] =~= toks@[1]@);
        }
    }
    if toks.len() >= 2 && toks[1].len() > 0 && toks[1][0] == 91 {
        if toks.len() < 4 {
            return None;
        }
        proof {
            assert(tdv[2] =~= toks@[2]@);
            assert(tdv[3] =~= toks@[3]@);
        }
        if toks[1].len() < 2 || toks[1][toks[1].len() - 1] != 93 {
            return None;
        }
        let arch = copy_bytes(toks[1].as_slice());
        let uri = copy_bytes(toks[2].as_slice());
        let suite = copy_bytes(toks[3].as_slice());
        let components = copy_token_range(toks, 4);
        let rec = LegacyRecord { kind, arch_filter: Some(arch), uri, suite, components };
        proof {
            assert(rec@.components =~= tdv.skip(4));
        }
        Some(rec)
    } else {
        if toks.len() < 3 {
            return None;
        }
        proof {
            assert(tdv[1] =~= toks@[1]@);
            assert(tdv[2] =~= toks@[2]@);
        }
        let uri = copy_bytes(toks[1].as_slice());
        let suite = copy_bytes(toks[2].as_slice());
        let components = copy_token_range(toks, 3);
        let rec = LegacyRecord { kind, arch_filter: None, uri, suite, components };
        proof {
            assert(rec@.components =~= tdv.skip(3));
        }
        Some(rec)
    }
}

/// Copies the tokens from position `from` on.
fn copy_token_range(toks: &Vec<Vec<u8>>, from: usize) -> (r: Vec<Vec<u8>>)
    requires
        from <= toks@.len(),
    ensures
        r.deep_view() == toks.deep_view().skip(from as int),
{
    let ghost tdv = toks.deep_view();
    let mut out: Vec<Vec<u8>> = Vec::new();
    let mut k = from;
    proof {
        assert(out.deep_view() =~= tdv.subrange(from as int, from as int));
    }
    while k < toks.len()
        invariant
            from <= k <= toks@.len(),
            tdv == toks.deep_view(),
            out.deep_view() == tdv.subrange(from as int, k as int),
        decreases toks@.len() - k,
    {
        let ghost pre = out.deep_view();
        out.push(copy_bytes(toks[k].as_slice()));
        k += 1;
        proof {
            assert(out.deep_view() =~~= pre.push(tdv[k - 1]));
            assert(pre.push(tdv[k - 1]) =~= tdv.subrange(from as int, k as int));
        }
    }
    proof {
        assert(tdv.subrange(from as int, tdv.len() as int) =~= tdv.skip(from as int));
    }
    out
}

/// Reads one line as an active record, executable form of
/// [`parse_active_spec`].
fn parse_active(line: &[u8]) -> (r: Option<LegacyRecord>)
    ensures
        match r {
            Some(rec) => parse_active_spec(line@) == Some(rec@),
            None => parse_active_spec(line@) is None,
        },
{
    let cut = scan_byte(line, 35);
    proof {
        crate::bytes::lemma_scan_len_bounds(line@, 35);
    }
    let active = copy_range(line, 0, cut);
    let toks = split_ws(active.as_slice());
    parse_token_vec(&toks)
}

/// Reads one line as a record, unwrapping the disabled-entry marker,
/// executable form of [`parse_line_spec`].
pub fn parse_legacy_line(line: &[u8]) -> (r: Option<(LegacyRecord, bool)>)
    ensures
        match r {
            Some(p) => parse_line_spec(line@) == Some((p.0@, p.1)),
            None => parse_line_spec(line@) is None,
        },
{
    proof {
        reveal_strlit("# disabled on upgrade:");
    }
    let t = trim(line);
    let mk = lit_bytes("# disabled on upgrade:");
    if starts_with(t.as_slice(), mk.as_slice()) {
        let rest = copy_range(t.as_slice(), mk.len(), t.len());
        proof {
            assert(rest@ =~= trim_spec(line@).skip(marker().len() as int));
        }
        match parse_active(rest.as_slice()) {
            Some(rec) => Some((rec, true)),
            None => None,
        }
    } else {
        match parse_active(line) {
            Some(rec) => Some((rec, false)),
            None => None,
        }
    }
}

/// Writes a record in its native textual form, executable form of
/// [`serialize_spec`].
pub fn serialize_legacy(r: &LegacyRecord) -> (out: Vec<u8>)
    ensures
        out@ == serialize_spec(r@),
{
    proof {
        reveal_strlit("deb");
        reveal_strlit("deb-src");
    }
    let mut toks: Vec<Vec<u8>> = Vec::new();
    let kt = match r.kind {
        SourceKind::Binary => lit_bytes("deb"),
        SourceKind::Source => lit_bytes("deb-src"),
    };
    toks.push(kt);
    match &r.arch_filter {
        Some(a) => {
            toks.push(copy_bytes(a.as_slice()));
        },
        None => {},
    }
    toks.push(copy_bytes(r.uri.as_slice()));
    toks.push(copy_bytes(r.suite.as_slice()));
    let mut k: usize = 0;
    let ghost base = toks.deep_view();
    proof {
        assert(base + r.components.deep_view().take(0) =~= base);
        assert(toks.deep_view() =~= base + r.components.deep_view().take(0));
    }
    while k < r.components.len()
        invariant
            k <= r.components@.len(),
            toks.deep_view() == base + r.components.deep_view().take(k as int),
        decreases r.components@.len() - k,
    {
        let ghost pre = toks.deep_view();
        toks.push(copy_bytes(r.components[k].as_slice()));
        k += 1;
        proof {
            assert(toks.deep_view() =~~= pre.push(r.components.deep_view()[k - 1]));
            assert(pre.push(r.components.deep_view()[k - 1]) =~= base
                + r.components.deep_view().take(k as int));
        }
    }
    proof {
        assert(r.components.deep_view().take(r.components@.len() as int)
            =~= r.components.deep_view());
        assert(toks.deep_view() =~~= tokens_of(r@));
    }
    join_bytes(&toks, 32)
}

/// The outcome of resolving one legacy line.
pub enum LineOutcome {
    /// The line is kept byte-identical: it did not parse, is not
    /// HTTP(S), names no cataloged release, or no newer release was
    /// confirmed.
    Unchanged,
    /// A newer release was confirmed: the rewritten line, and whether a
    /// disabled-entry marker was unwrapped.
    Updated { line: Vec<u8>, uncommented: bool },
}

/// `r` with its suite advanced `steps` catalog positions from `st`.
pub open spec fn upgraded_record(rv: LegacyRecordV, st: int, steps: nat) -> LegacyRecordV {
    LegacyRecordV {
        kind: rv.kind,
        arch_filter: rv.arch_filter,
        uri: rv.uri,
        suite: chain_spec(rv.suite, st, steps),
        components: rv.components,
    }
}

/// `out` is the serialization of the record of `line` advanced by
/// `steps >= 1` confirmed catalog steps; `unc` tells whether the line
/// was a disabled-entry marker.
pub open spec fn line_updated_by(line: Seq<u8>, out: Seq<u8>, unc: bool, steps: nat) -> bool {
    match parse_line_spec(line) {
        Some((rv, u)) => {
            &&& unc == u
            &&& steps >= 1
            &&& is_http_spec(rv.uri)
            &&& match find_start_spec(rv.suite) {
                Some(st) => st + steps < catalog_names().len() && out == serialize_spec(
                    upgraded_record(rv, st, steps),
                ),
                None => false,
            }
        },
        None => false,
    }
}

/// `out` is a confirmed upgrade of `line`.
pub open spec fn line_updated_to(line: Seq<u8>, out: Seq<u8>, unc: bool) -> bool {
    exists|steps: nat| #[trigger] line_updated_by(line, out, unc, steps)
}

/// Resolves one legacy line. The line stays untouched when it does not
/// parse, does not name an HTTP(S) location, names no cataloged release,
/// or no newer release is confirmed by the prober; otherwise the
/// rewritten line is returned, un-commented when the input carried the
/// disabled-entry marker.
pub fn update_legacy_line(line: &[u8]) -> (r: LineOutcome)
    ensures
        parse_line_spec(line@) is None ==> r is Unchanged,
        (match parse_line_spec(line@) {
            Some((rv, _)) => !is_http_spec(rv.uri) || find_start_spec(rv.suite) is None,
            None => false,
        }) ==> r is Unchanged,
        match r {
            LineOutcome::Updated { line: nl, uncommented } => line_updated_to(
                line@,
                nl@,
                uncommented,
            ),
            LineOutcome::Unchanged => true,
        },
{
    let p = match parse_legacy_line(line) {
        None => {
            return LineOutcome::Unchanged;
        },
        Some(p) => p,
    };
    let rec = p.0;
    let unc = p.1;
    if !is_http(rec.uri.as_slice()) {
        return LineOutcome::Unchanged;
    }
    let rs = resolve_suite(rec.uri.as_slice(), rec.suite.as_slice());
    let new_suite = rs.0;
    let steps = rs.1;
    if steps == 0 {
        return LineOutcome::Unchanged;
    }
    let ghost rv = rec@;
    let new_rec = LegacyRecord {
        kind: rec.kind,
        arch_filter: rec.arch_filter,
        uri: rec.uri,
        suite: new_suite,
        components: rec.components,
    };
    let nl = serialize_legacy(&new_rec);
    proof {
        assert(find_start_spec(rv.suite) is Some);
        let st = find_start_spec(rv.suite)->Some_0;
        assert(new_rec@ == upgraded_record(rv, st, steps as nat));
        assert(line_updated_by(line@, nl@, unc, steps as nat));
    }
    LineOutcome::Updated { line: nl, uncommented: unc }
}

/// Updates the whole content of a legacy-format file. When no line
/// changes the content is returned byte-identical and the flag is false;
/// when some record was upgraded, the flag is true and every line of the
/// result is either its input line verbatim (in particular every line
/// that does not parse) or a confirmed upgrade of it, joined back with a
/// final newline.
pub fn update_list_content(content: &[u8]) -> (r: (Vec<u8>, bool))
    ensures
        !r.1 ==> r.0@ == content@,
        r.1 ==> exists|nls: Seq<Seq<u8>>|
            #![trigger join_with(nls, 10)]
            {
                let ols = split_lines_spec(content@);
                &&& nls.len() == ols.len()
                &&& (forall|i: int|
                    0 <= i < ols.len() ==> (#[trigger] nls[i]) == ols[i] || exists|unc: bool|
                        #[trigger] line_updated_to(ols[i], nls[i], unc))
                &&& (forall|i: int|
                    0 <= i < ols.len() && parse_line_spec(#[trigger] ols[i]) is None ==> nls[i]
                        == ols[i])
                &&& r.0@ == ensure_nl(join_with(nls, 10))
            },
{
    let lines = split_lines(content);
    let ghost ols = lines.deep_view();
    let mut out_lines: Vec<Vec<u8>> = Vec::new();
    let mut changed = false;
    let mut i: usize = 0;
    while i < lines.len()
        invariant
            i <= lines@.len(),
            ols == lines.deep_view(),
            out_lines.deep_view().len() == i,
            forall|k: int|
                0 <= k < i ==> (#[trigger] out_lines.deep_view()[k]) == ols[k] || exists|unc: bool|
                    #[trigger] line_updated_to(ols[k], out_lines.deep_view()[k], unc),
            forall|k: int|
                0 <= k < i && parse_line_spec(#[trigger] ols[k]) is None
                    ==> out_lines.deep_view()[k] == ols[k],
        decreases lines@.len() - i,
    {
        let ghost pre = out_lines.deep_view();
        proof {
            assert(ols[i as int] =~= lines@[i as int]@);
        }
        match update_legacy_line(lines[i].as_slice()) {
            LineOutcome::Unchanged => {
                out_lines.push(copy_bytes(lines[i].as_slice()));
                proof {
                    assert(out_lines.deep_view() =~~= pre.push(ols[i as int]));
                }
            },
            LineOutcome::Updated { line: nl, uncommented } => {
                changed = true;
                proof {
                    assert(line_updated_to(ols[i as int], nl@, uncommented));
                }
                let ghost nlv = nl@;
                out_lines.push(nl);
                proof {
                    assert(out_lines.deep_view() =~~= pre.push(nlv));
                    assert(line_updated_to(ols[i as int], out_lines.deep_view()[i as int], uncommented));
                }
            },
        }
        i += 1;
    }
    if !changed {
        return (copy_bytes(content), false);
    }
    let mut out = join_bytes(&out_lines, 10);
    if out.len() == 0 || out[out.len() - 1] != 10 {
        out.push(10);
    }
    proof {
        assert(out@ == ensure_nl(join_with(out_lines.deep_view(), 10)));
    }
    (out, true)
}

/// A token that can stand in a legacy line: non-empty and free of
/// whitespace and of the comment byte.
pub open spec fn wf_token(t: Seq<u8>) -> bool {
    t.len() > 0 && forall|i: int| 0 <= i < t.len() ==> !is_ws(#[trigger] t[i]) && t[i] != 35
}

/// A record whose serialization parses back: every token well formed,
/// the location not starting like an architecture filter, and the filter
/// bracketed. Parsing only ever produces such records.
pub open spec fn wf_record(r: LegacyRecordV) -> bool {
    &&& wf_token(r.uri)
    &&& r.uri[0] != 91
    &&& wf_token(r.suite)
    &&& forall|i: int| 0 <= i < r.components.len() ==> wf_token(#[trigger] r.components[i])
    &&& match r.arch_filter {
        Some(a) => wf_token(a) && a.len() >= 2 && a[0] == 91 && a.last() == 93,
        None => true,
    }
}

pub proof fn lemma_kind_token_wf(k: SourceKind)
    ensures
        wf_token(kind_token(k)),
        kind_token(k)[0] == 100,
{
    reveal_strlit("deb");
    reveal_strlit("deb-src");
    let t = kind_token(k);
    match k {
        SourceKind::Binary => {
            assert(t[0] == 100 && t[1] == 101 && t[2] == 98);
            assert(forall|i: int| 0 <= i < t.len() ==> !is_ws(#[trigger] t[i]) && t[i] != 35);
        },
        SourceKind::Source => {
            assert(t[0] == 100 && t[1] == 101 && t[2] == 98 && t[3] == 45 && t[4] == 115 && t[5]
                == 114 && t[6] == 99);
            assert(forall|i: int| 0 <= i < t.len() ==> !is_ws(#[trigger] t[i]) && t[i] != 35);
        },
    }
}

/// Splitting a single-space join of well-formed tokens gives the tokens
/// back.
pub proof fn lemma_split_join(toks: Seq<Seq<u8>>)
    requires
        toks.len() > 0,
        forall|i: int| 0 <= i < toks.len() ==> wf_token(#[trigger] toks[i]),
    ensures
        split_ws_spec(join_with(toks, 32)) == toks,
    decreases toks.len(),
{
    let s = join_with(toks, 32);
    if toks.len() == 1 {
        assert(s == toks[0]);
        lemma_token_len_value(s, s.len() as int);
        assert(s.take(token_len(s)) =~= s);
        assert(s.skip(token_len(s)) =~= Seq::<u8>::empty());
        assert(split_ws_spec(Seq::<u8>::empty()) =~= Seq::<Seq<u8>>::empty());
        assert(split_ws_spec(s) =~= seq![toks[0]]);
        assert(seq![toks[0]] =~= toks);
    } else {
        let t0 = toks[0];
        let rest = join_with(toks.skip(1), 32);
        assert(s == t0 + seq![32u8] + rest);
        assert(forall|m: int| 0 <= m < t0.len() ==> s[m] == t0[m]);
        assert(s[t0.len() as int] == 32);
        assert(is_ws(32));
        lemma_token_len_value(s, t0.len() as int);
        assert(s.take(token_len(s)) =~= t0);
        let s2 = s.skip(t0.len() as int);
        assert(s2 =~= seq![32u8] + rest);
        assert(s2.skip(1) =~= rest);
        assert(forall|i: int|
            0 <= i < toks.skip(1).len() ==> wf_token(#[trigger] toks.skip(1)[i]));
        lemma_split_join(toks.skip(1));
        assert(split_ws_spec(s2) == split_ws_spec(rest));
        assert(split_ws_spec(s) =~= seq![t0] + toks.skip(1));
        assert(seq![t0] + toks.skip(1) =~= toks);
    }
}

/// A single-space join of well-formed tokens is non-empty, opens and
/// closes with non-whitespace, and holds no comment byte.
pub proof fn lemma_join_wf(toks: Seq<Seq<u8>>)
    requires
        toks.len() > 0,
        forall|i: int| 0 <= i < toks.len() ==> wf_token(#[trigger] toks[i]),
    ensures
        join_with(toks, 32).len() > 0,
        !is_ws(join_with(toks, 32)[0]),
        !is_ws(join_with(toks, 32).last()),
        forall|i: int| 0 <= i < join_with(toks, 32).len() ==> join_with(toks, 32)[i] != 35,
    decreases toks.len(),
{
    let s = join_with(toks, 32);
    if toks.len() == 1 {
        assert(s == toks[0]);
    } else {
        let t0 = toks[0];
        assert(forall|i: int|
            0 <= i < toks.skip(1).len() ==> wf_token(#[trigger] toks.skip(1)[i]));
        lemma_join_wf(toks.skip(1));
        let rest = join_with(toks.skip(1), 32);
        assert(s == t0 + seq![32u8] + rest);
        assert(s[0] == t0[0]);
        assert(s.last() == rest.last());
        assert forall|i: int| 0 <= i < s.len() implies s[i] != 35 by {
            if i < t0.len() {
                assert(s[i] == t0[i]);
            } else if i == t0.len() {
                assert(s[i] == 32);
            } else {
                assert(s[i] == rest[i - t0.len() - 1]);
            }
        }
    }
}

/// Parse round trip: a token sequence that parses as a record is
/// exactly the record's own token sequence, so parsing a well-formed
/// line and serializing the result reproduces the line's tokens, with
/// only its whitespace normalized.
pub proof fn lemma_tokens_round_trip(toks: Seq<Seq<u8>>, r: LegacyRecordV)
    requires
        parse_tokens(toks) == Some(r),
    ensures
        tokens_of(r) == toks,
{
    if toks.len() >= 2 && toks[1].len() > 0 && toks[1][0] == 91 {
        assert(tokens_of(r) =~= toks);
    } else {
        assert(tokens_of(r) =~= toks);
    }
}

/// Round trip: the serialization of a well-formed record parses back to
/// the record itself, as an ordinary active line.
pub proof fn lemma_parse_round_trip(r: LegacyRecordV)
    requires
        wf_record(r),
    ensures
        parse_line_spec(serialize_spec(r)) == Some((r, false)),
{
    reveal_strlit("deb");
    reveal_strlit("deb-src");
    reveal_strlit("# disabled on upgrade:");
    let toks = tokens_of(r);
    lemma_kind_token_wf(r.kind);
    assert forall|i: int| 0 <= i < toks.len() implies wf_token(toks[i]) by {
        match r.arch_filter {
            Some(a) => {
                if i >= 4 {
                    assert(toks[i] == r.components[i - 4]);
                }
            },
            None => {
                if i >= 3 {
                    assert(toks[i] == r.components[i - 3]);
                }
            },
        }
    }
    let s = serialize_spec(r);
    lemma_join_wf(toks);
    lemma_split_join(toks);
    assert(trim_spec(s) == s);
    assert(marker()[0] == 35);
    assert(!is_marker_line(s)) by {
        if trim_spec(s).len() >= marker().len() {
            assert(trim_spec(s).take(marker().len() as int)[0] == s[0]);
            assert(s[0] != 35);
        }
    }
    lemma_scan_len_value(s, 35, s.len() as int);
    assert(active_part(s) =~= s);
    assert(split_ws_spec(active_part(s)) == toks);
    assert(ascii_bytes("deb"@).len() != ascii_bytes("deb-src"@).len());
    match r.arch_filter {
        Some(a) => {
            assert(toks[0] == kind_token(r.kind));
            assert(toks[1] == a);
            assert(toks[2] == r.uri);
            assert(toks[3] == r.suite);
            assert(toks.skip(4) =~= r.components);
            assert(parse_tokens(toks) == Some(r));
        },
        None => {
            assert(toks[0] == kind_token(r.kind));
            assert(toks[1] == r.uri);
            assert(toks[2] == r.suite);
            assert(toks.skip(3) =~= r.components);
            assert(parse_tokens(toks) == Some(r));
        },
    }
}

} // verus!
