//! Whole-file update for the structured format: the file is split into
//! blocks (paragraphs and raw runs), each paragraph is resolved, raw
//! content is preserved verbatim, and the file is reassembled only when
//! some record changed.
use crate::bytes::{copy_bytes, ensure_nl, join_with, split_lines, split_lines_spec, trim, trim_spec};
use crate::paragraph::{
    enabled_key, has_key, http_target, lemma_para_unchanged_keeps_enabled_out, para_update_rel,
    parse_field, parse_field_spec, try_update_paragraph, Field, FieldV, Paragraph,
};
use vstd::prelude::*;

verus! {

/// The mathematical image of one block: either verbatim lines, or the
/// fields of a parsed paragraph.
pub ghost enum BlockV {
    Raw(Seq<Seq<u8>>),
    Para(Seq<FieldV>),
}

/// One block of the file: a run of lines kept verbatim, or a paragraph.
pub enum Block {
    Raw(Vec<Vec<u8>>),
    Para(Paragraph),
}

impl View for Block {
    type V = BlockV;

    open spec fn view(&self) -> BlockV {
        match self {
            Block::Raw(ls) => BlockV::Raw(ls.deep_view()),
            Block::Para(p) => BlockV::Para(p@),
        }
    }
}

/// The fields of a paragraph block; empty for a raw block.
pub open spec fn para_fields(b: BlockV) -> Seq<FieldV> {
    match b {
        BlockV::Para(fs) => fs,
        BlockV::Raw(_) => Seq::empty(),
    }
}

/// The verbatim lines of the fields of a paragraph.
pub open spec fn raws_of(fs: Seq<FieldV>) -> Seq<Seq<u8>> {
    Seq::new(fs.len(), |i: int| fs[i].raw)
}

/// The lines a block stands for in the file.
pub open spec fn block_lines(b: BlockV) -> Seq<Seq<u8>> {
    match b {
        BlockV::Raw(ls) => ls,
        BlockV::Para(fs) => raws_of(fs),
    }
}

/// The lines of a whole sequence of blocks, in order.
pub open spec fn blocks_lines(bs: Seq<BlockV>) -> Seq<Seq<u8>>
    decreases bs.len(),
{
    if bs.len() == 0 {
        Seq::empty()
    } else {
        block_lines(bs[0]) + blocks_lines(bs.skip(1))
    }
}

/// The views of a sequence of blocks.
pub open spec fn bviews(s: Seq<Block>) -> Seq<BlockV> {
    Seq::new(s.len(), |i: int| s[i]@)
}

/// A blank line (empty or whitespace only); blank lines separate
/// paragraphs.
pub open spec fn is_blank_line(l: Seq<u8>) -> bool {
    trim_spec(l).len() == 0
}

/// Length of the leading run of non-blank lines.
pub open spec fn group_len(lines: Seq<Seq<u8>>) -> int
    decreases lines.len(),
{
    if lines.len() == 0 || is_blank_line(lines[0]) {
        0
    } else {
        1 + group_len(lines.skip(1))
    }
}

pub proof fn lemma_group_len_bounds(lines: Seq<Seq<u8>>)
    ensures
        0 <= group_len(lines) <= lines.len(),
    decreases lines.len(),
{
    if lines.len() != 0 && !is_blank_line(lines[0]) {
        lemma_group_len_bounds(lines.skip(1));
    }
}

/// The leading non-blank run has length exactly `k` when the first `k`
/// lines are non-blank and a blank line or the end follows.
pub proof fn lemma_group_len_value(lines: Seq<Seq<u8>>, k: int)
    requires
        0 <= k <= lines.len(),
        forall|m: int| 0 <= m < k ==> !is_blank_line(#[trigger] lines[m]),
        k == lines.len() || is_blank_line(lines[k]),
    ensures
        group_len(lines) == k,
    decreases k,
{
    if k != 0 {
        assert(!is_blank_line(lines[0]));
        lemma_group_len_value(lines.skip(1), k - 1);
    }
}

/// The views of a sequence of fields.
pub open spec fn fviews(s: Seq<Field>) -> Seq<FieldV> {
    Seq::new(s.len(), |i: int| s[i]@)
}

/// The fields a run of lines stands for, when every line reads as one:
/// each field's verbatim line, key and value are exactly what
/// [`parse_field_spec`] gives for that line.
pub open spec fn fields_of(ls: Seq<Seq<u8>>) -> Option<Seq<FieldV>>
    decreases ls.len(),
{
    if ls.len() == 0 {
        Some(Seq::empty())
    } else {
        match parse_field_spec(ls[0]) {
            None => None,
            Some(kv) => match fields_of(ls.skip(1)) {
                None => None,
                Some(fs) => Some(seq![FieldV { raw: ls[0], key: kv.0, value: kv.1 }] + fs),
            },
        }
    }
}

/// Extending a run of lines by one at its end.
pub proof fn lemma_fields_of_snoc(ls: Seq<Seq<u8>>, l: Seq<u8>)
    ensures
        fields_of(ls.push(l)) == (if fields_of(ls) is Some && parse_field_spec(l) is Some {
            Some(
                fields_of(ls)->Some_0.push(
                    FieldV {
                        raw: l,
                        key: parse_field_spec(l)->Some_0.0,
                        value: parse_field_spec(l)->Some_0.1,
                    },
                ),
            )
        } else {
            None
        }),
    decreases ls.len(),
{
    let p = ls.push(l);
    if ls.len() == 0 {
        assert(p[0] == l);
        assert(p.skip(1) =~= Seq::<Seq<u8>>::empty());
        assert(fields_of(Seq::<Seq<u8>>::empty()) == Some(Seq::<FieldV>::empty()));
        match parse_field_spec(l) {
            None => {
                assert(fields_of(p) is None);
            },
            Some(kv) => {
                let f = FieldV { raw: l, key: kv.0, value: kv.1 };
                assert(fields_of(p) == Some(seq![f] + Seq::<FieldV>::empty()));
                assert(seq![f] + Seq::<FieldV>::empty() =~= Seq::<FieldV>::empty().push(f));
            },
        }
    } else {
        assert(p[0] == ls[0]);
        assert(p.skip(1) =~= ls.skip(1).push(l));
        lemma_fields_of_snoc(ls.skip(1), l);
        match parse_field_spec(ls[0]) {
            None => {
                assert(fields_of(p) is None);
                assert(fields_of(ls) is None);
            },
            Some(kv0) => {
                let f0 = FieldV { raw: ls[0], key: kv0.0, value: kv0.1 };
                match fields_of(ls.skip(1)) {
                    None => {
                        assert(fields_of(ls) is None);
                        assert(fields_of(p.skip(1)) is None);
                        assert(fields_of(p) is None);
                    },
                    Some(fs) => {
                        assert(fields_of(ls) == Some(seq![f0] + fs));
                        match parse_field_spec(l) {
                            None => {
                                assert(fields_of(p.skip(1)) is None);
                                assert(fields_of(p) is None);
                            },
                            Some(kv) => {
                                let f = FieldV { raw: l, key: kv.0, value: kv.1 };
                                assert(fields_of(p.skip(1)) == Some(fs.push(f)));
                                assert(fields_of(p) == Some(seq![f0] + fs.push(f)));
                                assert(seq![f0] + fs.push(f) =~= (seq![f0] + fs).push(f));
                            },
                        }
                    },
                }
            },
        }
    }
}

/// The block decomposition of a file's lines: each blank line is its own
/// raw block; each maximal run of non-blank lines is a paragraph when
/// every line of it reads as a field, and raw content otherwise.
pub open spec fn blocks_of(lines: Seq<Seq<u8>>) -> Seq<BlockV>
    decreases lines.len(),
    via blocks_of_dec
{
    if lines.len() == 0 {
        Seq::empty()
    } else if is_blank_line(lines[0]) {
        seq![BlockV::Raw(seq![lines[0]])] + blocks_of(lines.skip(1))
    } else {
        let g = group_len(lines);
        let blk = match fields_of(lines.take(g)) {
            Some(fs) => BlockV::Para(fs),
            None => BlockV::Raw(lines.take(g)),
        };
        seq![blk] + blocks_of(lines.skip(g))
    }
}

#[via_fn]
proof fn blocks_of_dec(lines: Seq<Seq<u8>>) {
    if lines.len() != 0 && !is_blank_line(lines[0]) {
        lemma_group_len_bounds(lines.skip(1));
    }
}

pub proof fn lemma_blocks_lines_snoc(bs: Seq<BlockV>, b: BlockV)
    ensures
        blocks_lines(bs.push(b)) == blocks_lines(bs) + block_lines(b),
    decreases bs.len(),
{
    let p = bs.push(b);
    if bs.len() == 0 {
        assert(p[0] == b);
        assert(p.skip(1) =~= Seq::<BlockV>::empty());
        assert(blocks_lines(p.skip(1)) == Seq::<Seq<u8>>::empty());
        assert(blocks_lines(p) =~= blocks_lines(bs) + block_lines(b));
    } else {
        lemma_blocks_lines_snoc(bs.skip(1), b);
        assert(p.skip(1) =~= bs.skip(1).push(b));
        assert(p[0] == bs[0]);
        assert((block_lines(bs[0]) + blocks_lines(bs.skip(1))) + block_lines(b) =~= block_lines(
            bs[0],
        ) + (blocks_lines(bs.skip(1)) + block_lines(b)));
    }
}

/// No paragraph of the decomposition still carries probe-independent
/// work: none both names an HTTP(S) location and holds the deprecated
/// `Enabled` field. An update run that reports no change must leave the
/// blocks in this state, whatever the probes answered.
pub open spec fn no_pending_enabled(bs: Seq<BlockV>) -> bool {
    forall|i: int|
        0 <= i < bs.len() && #[trigger] bs[i] is Para ==> !(http_target(para_fields(bs[i]))
            && has_key(para_fields(bs[i]), enabled_key()))
}

/// How the block list of a file may change under resolution: the shape
/// is kept, raw blocks stay verbatim, each paragraph changes as
/// [`para_update_rel`] allows.
pub open spec fn blocks_rel(obs: Seq<BlockV>, nbs: Seq<BlockV>) -> bool {
    &&& obs.len() == nbs.len()
    &&& forall|i: int| 0 <= i < obs.len() && #[trigger] obs[i] is Raw ==> nbs[i] == obs[i]
    &&& forall|i: int|
        0 <= i < obs.len() && #[trigger] obs[i] is Para ==> nbs[i] is Para && exists|u: bool|
            #[trigger] para_update_rel(para_fields(obs[i]), para_fields(nbs[i]), u)
}

/// Whether the line is blank (empty or whitespace only); blank lines
/// separate paragraphs.
fn is_blank(line: &[u8]) -> (r: bool)
    ensures
        r == is_blank_line(line@),
{
    let t = trim(line);
    t.len() == 0
}

/// Splits the lines of a file into blocks, executable form of
/// [`blocks_of`]: maximal runs of non-blank lines that all read as
/// fields become paragraphs; every other line or run is kept as raw
/// content.
pub fn parse_blocks(lines: Vec<Vec<u8>>) -> (bs: Vec<Block>)
    ensures
        bviews(bs@) == blocks_of(lines.deep_view()),
        blocks_lines(bviews(bs@)) == lines.deep_view(),
{
    let ghost ldv = lines.deep_view();
    let n = lines.len();
    let mut out: Vec<Block> = Vec::new();
    let mut i: usize = 0;
    proof {
        assert(blocks_lines(bviews(out@)) =~= ldv.take(0));
        assert(ldv.skip(0) =~= ldv);
        assert(bviews(out@) + blocks_of(ldv) =~= blocks_of(ldv));
    }
    while i < n
        invariant
            i <= n,
            n == lines@.len(),
            ldv == lines.deep_view(),
            blocks_lines(bviews(out@)) == ldv.take(i as int),
            blocks_of(ldv) == bviews(out@) + blocks_of(ldv.skip(i as int)),
        decreases n - i,
    {
        let ghost pre = bviews(out@);
        let ghost rest = ldv.skip(i as int);
        proof {
            assert(ldv[i as int] =~= lines@[i as int]@);
            assert(rest[0] == ldv[i as int]);
        }
        if is_blank(lines[i].as_slice()) {
            let mut ls: Vec<Vec<u8>> = Vec::new();
            ls.push(copy_bytes(lines[i].as_slice()));
            let b = Block::Raw(ls);
            proof {
                assert(block_lines(b@) =~= ldv.subrange(i as int, i + 1));
                match &b {
                    Block::Raw(ls) => {
                        assert(ls.deep_view() =~~= seq![ldv[i as int]]);
                    },
                    Block::Para(_) => {},
                }
                assert(b@ == BlockV::Raw(seq![ldv[i as int]]));
                assert(rest.skip(1) =~= ldv.skip(i + 1));
                assert(blocks_of(rest) == seq![b@] + blocks_of(ldv.skip(i + 1)));
            }
            out.push(b);
            i += 1;
            proof {
                assert(bviews(out@) =~= pre.push(b@));
                lemma_blocks_lines_snoc(pre, b@);
                assert(ldv.take(i - 1) + ldv.subrange(i - 1, i as int) =~= ldv.take(i as int));
                assert(pre + (seq![b@] + blocks_of(ldv.skip(i as int))) =~= pre.push(b@)
                    + blocks_of(ldv.skip(i as int)));
            }
        } else {
            let start = i;
            let mut group: Vec<Vec<u8>> = Vec::new();
            let mut fields: Vec<Field> = Vec::new();
            let mut ok = true;
            let mut j: usize = i;
            proof {
                assert(!is_blank_line(ldv[i as int]));
                assert(ldv.subrange(start as int, start as int) =~= Seq::<Seq<u8>>::empty());
                assert(fields_of(Seq::<Seq<u8>>::empty()) == Some(Seq::<FieldV>::empty()));
                assert(fviews(fields@) =~= Seq::<FieldV>::empty());
                assert(group.deep_view() =~= ldv.subrange(start as int, start as int));
            }
            while j < n && !is_blank(lines[j].as_slice())
                invariant
                    start <= j <= n,
                    n == lines@.len(),
                    ldv == lines.deep_view(),
                    group.deep_view() == ldv.subrange(start as int, j as int),
                    forall|m: int| start <= m < j ==> !is_blank_line(#[trigger] ldv[m]),
                    ok ==> fields@.len() == j - start,
                    ok ==> forall|k: int|
                        0 <= k < fields@.len() ==> (#[trigger] fields@[k]@).raw == ldv[start + k],
                    fields_of(ldv.subrange(start as int, j as int)) == (if ok {
                        Some(fviews(fields@))
                    } else {
                        None::<Seq<FieldV>>
                    }),
                decreases n - j,
            {
                let ghost gpre = group.deep_view();
                let ghost prefix = ldv.subrange(start as int, j as int);
                let ghost fpre = fviews(fields@);
                proof {
                    assert(ldv[j as int] =~= lines@[j as int]@);
                }
                group.push(copy_bytes(lines[j].as_slice()));
                proof {
                    assert(group.deep_view() =~~= gpre.push(ldv[j as int]));
                    assert(gpre.push(ldv[j as int]) =~= ldv.subrange(start as int, j + 1));
                    lemma_fields_of_snoc(prefix, ldv[j as int]);
                    assert(prefix.push(ldv[j as int]) =~= ldv.subrange(start as int, j + 1));
                }
                if ok {
                    match parse_field(lines[j].as_slice()) {
                        Some(f) => {
                            let ghost fv = f@;
                            fields.push(f);
                            proof {
                                assert(fviews(fields@) =~= fpre.push(fv));
                            }
                        },
                        None => {
                            ok = false;
                        },
                    }
                }
                j += 1;
            }
            proof {
                if j < n {
                    assert(ldv[j as int] =~= lines@[j as int]@);
                    assert(is_blank_line(ldv[j as int]));
                }
                assert(forall|m: int| 0 <= m < j - i ==> rest[m] == ldv[i + m]);
                assert(forall|m: int| 0 <= m < j - i ==> !is_blank_line(#[trigger] rest[m]));
                lemma_group_len_value(rest, j - i);
                assert(rest.take(j - i) =~= ldv.subrange(start as int, j as int));
                assert(rest.skip(j - i) =~= ldv.skip(j as int));
            }
            let ghost fvs = fviews(fields@);
            let ghost gdv = group.deep_view();
            let b = if ok {
                Block::Para(Paragraph { fields })
            } else {
                Block::Raw(group)
            };
            proof {
                assert(block_lines(b@) =~= ldv.subrange(start as int, j as int));
                if ok {
                    match &b {
                        Block::Para(p) => {
                            assert(p@ =~= fvs);
                        },
                        Block::Raw(_) => {},
                    }
                    assert(b@ == BlockV::Para(fvs));
                    assert(fields_of(rest.take(j - i)) == Some(fvs));
                } else {
                    match &b {
                        Block::Raw(ls) => {
                            assert(ls.deep_view() == gdv);
                        },
                        Block::Para(_) => {},
                    }
                    assert(b@ == BlockV::Raw(ldv.subrange(start as int, j as int)));
                    assert(fields_of(rest.take(j - i)) is None);
                }
                assert(blocks_of(rest) == seq![b@] + blocks_of(ldv.skip(j as int)));
            }
            out.push(b);
            i = j;
            proof {
                assert(bviews(out@) =~= pre.push(b@));
                lemma_blocks_lines_snoc(pre, b@);
                assert(ldv.take(start as int) + ldv.subrange(start as int, i as int) =~= ldv.take(
                    i as int,
                ));
                assert(pre + (seq![b@] + blocks_of(ldv.skip(i as int))) =~= pre.push(b@)
                    + blocks_of(ldv.skip(i as int)));
            }
        }
    }
    proof {
        assert(ldv.take(n as int) =~= ldv);
        assert(ldv.skip(n as int) =~= Seq::<Seq<u8>>::empty());
        assert(blocks_of(Seq::<Seq<u8>>::empty()) =~= Seq::<BlockV>::empty());
        assert(bviews(out@) + Seq::<BlockV>::empty() =~= bviews(out@));
    }
    out
}

/// Resolves every paragraph block in place; raw blocks pass through
/// verbatim. Reports whether any paragraph changed.
pub fn update_blocks(blocks: Vec<Block>) -> (r: (Vec<Block>, bool))
    ensures
        blocks_rel(bviews(blocks@), bviews(r.0@)),
        !r.1 ==> bviews(r.0@) == bviews(blocks@),
        !r.1 ==> no_pending_enabled(bviews(blocks@)),
        r.1 ==> exists|i: int|
            0 <= i < blocks@.len() && bviews(blocks@)[i] is Para && #[trigger] para_update_rel(
                para_fields(bviews(blocks@)[i]),
                para_fields(bviews(r.0@)[i]),
                true,
            ),
{
    let ghost obs = bviews(blocks@);
    let mut rest = blocks;
    let mut out: Vec<Block> = Vec::new();
    let mut changed = false;
    let ghost mut widx: int = 0;
    proof {
        assert(bviews(rest@) =~= obs.skip(0));
    }
    while rest.len() > 0
        invariant
            out@.len() + rest@.len() == obs.len(),
            bviews(rest@) == obs.skip(out@.len() as int),
            forall|i: int|
                0 <= i < out@.len() && #[trigger] obs[i] is Raw ==> bviews(out@)[i] == obs[i],
            forall|i: int|
                0 <= i < out@.len() && #[trigger] obs[i] is Para ==> bviews(out@)[i] is Para
                    && exists|u: bool| #[trigger] para_update_rel(
                    para_fields(obs[i]),
                    para_fields(bviews(out@)[i]),
                    u,
                ),
            !changed ==> forall|i: int| 0 <= i < out@.len() ==> #[trigger] bviews(out@)[i]
                == obs[i],
            !changed ==> forall|i: int|
                0 <= i < out@.len() && #[trigger] obs[i] is Para ==> !(http_target(
                    para_fields(obs[i]),
                ) && has_key(para_fields(obs[i]), enabled_key())),
            changed ==> 0 <= widx < out@.len() && obs[widx] is Para && para_update_rel(
                para_fields(obs[widx]),
                para_fields(bviews(out@)[widx]),
                true,
            ),
        decreases rest@.len(),
    {
        let ghost k = out@.len() as int;
        let ghost opre = bviews(out@);
        proof {
            assert(bviews(rest@)[0] == obs[k]);
        }
        let ghost orest = rest@;
        let b = rest.remove(0);
        proof {
            assert(b@ == obs[k]);
            assert(forall|m: int| 0 <= m < rest@.len() ==> rest@[m] == orest[m + 1]);
            assert(forall|m: int|
                0 <= m < rest@.len() ==> #[trigger] bviews(rest@)[m] == bviews(orest)[m + 1]);
            assert(bviews(rest@) =~= obs.skip(k + 1));
        }
        match b {
            Block::Raw(ls) => {
                out.push(Block::Raw(ls));
                proof {
                    assert(bviews(out@) =~= opre.push(BlockV::Raw(ls.deep_view())));
                }
            },
            Block::Para(mut p) => {
                let ghost pfs = p@;
                let u = try_update_paragraph(&mut p);
                if u {
                    changed = true;
                    proof {
                        widx = k;
                    }
                } else {
                    proof {
                        lemma_para_unchanged_keeps_enabled_out(pfs, p@);
                    }
                }
                out.push(Block::Para(p));
                proof {
                    assert(bviews(out@) =~= opre.push(BlockV::Para(p@)));
                    assert(para_update_rel(para_fields(obs[k]), para_fields(bviews(out@)[k]), u));
                }
            },
        }
    }
    proof {
        if changed {
            assert(bviews(blocks@)[widx] is Para);
            assert(para_update_rel(
                para_fields(bviews(blocks@)[widx]),
                para_fields(bviews(out@)[widx]),
                true,
            ));
        }
    }
    (out, changed)
}

/// Copies every line the blocks stand for, in order.
fn flatten_blocks(bs: &Vec<Block>) -> (ls: Vec<Vec<u8>>)
    ensures
        ls.deep_view() == blocks_lines(bviews(bs@)),
{
    let mut out: Vec<Vec<u8>> = Vec::new();
    let mut i: usize = 0;
    let ghost vs = bviews(bs@);
    proof {
        assert(out.deep_view() =~= blocks_lines(vs.take(0)));
    }
    while i < bs.len()
        invariant
            i <= bs@.len(),
            vs == bviews(bs@),
            out.deep_view() == blocks_lines(vs.take(i as int)),
        decreases bs@.len() - i,
    {
        let ghost pre = out.deep_view();
        match &bs[i] {
            Block::Raw(ls) => {
                let mut j: usize = 0;
                while j < ls.len()
                    invariant
                        j <= ls@.len(),
                        out.deep_view() == pre + ls.deep_view().take(j as int),
                    decreases ls@.len() - j,
                {
                    let ghost p2 = out.deep_view();
                    out.push(copy_bytes(ls[j].as_slice()));
                    j += 1;
                    proof {
                        assert(out.deep_view() =~~= p2.push(ls.deep_view()[j - 1]));
                        assert(pre + ls.deep_view().take(j - 1) + seq![ls.deep_view()[j - 1]] =~=
                        pre + ls.deep_view().take(j as int));
                    }
                }
                proof {
                    assert(ls.deep_view().take(ls@.len() as int) =~= ls.deep_view());
                    assert(block_lines(vs[i as int]) == ls.deep_view());
                }
            },
            Block::Para(p) => {
                let mut j: usize = 0;
                while j < p.fields.len()
                    invariant
                        j <= p.fields@.len(),
                        out.deep_view() == pre + raws_of(p@).take(j as int),
                    decreases p.fields@.len() - j,
                {
                    let ghost p2 = out.deep_view();
                    out.push(copy_bytes(p.fields[j].raw.as_slice()));
                    j += 1;
                    proof {
                        assert(out.deep_view() =~~= p2.push(raws_of(p@)[j - 1]));
                        assert(pre + raws_of(p@).take(j - 1) + seq![raws_of(p@)[j - 1]] =~= pre
                            + raws_of(p@).take(j as int));
                    }
                }
                proof {
                    assert(raws_of(p@).take(p.fields@.len() as int) =~= raws_of(p@));
                    assert(block_lines(vs[i as int]) == raws_of(p@));
                }
            },
        }
        i += 1;
        proof {
            lemma_blocks_lines_take_snoc(vs, i - 1);
        }
    }
    proof {
        assert(vs.take(vs.len() as int) =~= vs);
    }
    out
}

pub proof fn lemma_blocks_lines_take_snoc(bs: Seq<BlockV>, i: int)
    requires
        0 <= i < bs.len(),
    ensures
        blocks_lines(bs.take(i + 1)) == blocks_lines(bs.take(i)) + block_lines(bs[i]),
{
    assert(bs.take(i + 1) =~= bs.take(i).push(bs[i]));
    lemma_blocks_lines_snoc(bs.take(i), bs[i]);
}

/// Updates the whole content of a structured-format file, whose block
/// decomposition is [`blocks_of`] of its lines. When the flag is false
/// the content is returned byte-identical, which can only happen when no
/// paragraph still pairs an HTTP(S) location with the deprecated
/// `Enabled` field: that removal does not depend on any probe. When some
/// record changed, the flag is true and the result is the reassembled
/// file, raw content verbatim in place, ending with a final newline.
pub fn update_sources_content(content: &[u8]) -> (r: (Vec<u8>, bool))
    ensures
        !r.1 ==> r.0@ == content@,
        !r.1 ==> no_pending_enabled(blocks_of(split_lines_spec(content@))),
        r.1 ==> exists|nbs: Seq<BlockV>|
            #![trigger blocks_rel(blocks_of(split_lines_spec(content@)), nbs)]
            {
                let obs = blocks_of(split_lines_spec(content@));
                &&& blocks_lines(obs) == split_lines_spec(content@)
                &&& blocks_rel(obs, nbs)
                &&& exists|i: int|
                    0 <= i < obs.len() && obs[i] is Para && #[trigger] para_update_rel(
                        para_fields(obs[i]),
                        para_fields(nbs[i]),
                        true,
                    )
                &&& r.0@ == ensure_nl(join_with(blocks_lines(nbs), 10))
            },
{
    let lines = split_lines(content);
    let blocks = parse_blocks(lines);
    let ghost obs = bviews(blocks@);
    let ub = update_blocks(blocks);
    let nblocks = ub.0;
    let changed = ub.1;
    proof {
        assert(obs == blocks_of(split_lines_spec(content@)));
    }
    if !changed {
        return (copy_bytes(content), false);
    }
    let out_lines = flatten_blocks(&nblocks);
    let mut out = crate::bytes::join_bytes(&out_lines, 10);
    if out.len() == 0 || out[out.len() - 1] != 10 {
        out.push(10);
    }
    proof {
        let ghost nbs = bviews(nblocks@);
        assert(blocks_lines(obs) == split_lines_spec(content@));
        assert(blocks_rel(obs, nbs));
        assert(out@ == ensure_nl(join_with(blocks_lines(nbs), 10)));
    }
    (out, true)
}

} // verus!
