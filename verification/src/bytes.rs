//! Byte-string primitives the rest of the library is specified over:
//! substring search, textual substitution, whitespace tokenization and
//! line splitting, each with an exact mathematical description.
use vstd::prelude::*;
use vstd::string::StrSliceExecFns;

verus! {

/// The bytes `str::split_ascii_whitespace` treats as separators.
pub open spec fn is_ws(b: u8) -> bool {
    b == 32 || b == 9 || b == 10 || b == 13 || b == 12
}

/// The view of an ASCII string literal as a byte sequence.
pub open spec fn ascii_bytes(s: Seq<char>) -> Seq<u8> {
    Seq::new(s.len(), |i: int| s[i] as u8)
}

/// `pat` occurs in `s` at position `i`.
pub open spec fn matches_at(s: Seq<u8>, pat: Seq<u8>, i: int) -> bool {
    0 <= i && i + pat.len() <= s.len() && s.subrange(i, i + pat.len() as int) == pat
}

/// `pat` occurs somewhere in `s`.
pub open spec fn contains_bytes_spec(s: Seq<u8>, pat: Seq<u8>) -> bool {
    exists|i: int| matches_at(s, pat, i)
}

/// Every non-overlapping occurrence of `from` in `s`, scanned left to
/// right, replaced by `to`; the meaning of `str::replace` for a
/// non-empty pattern. An empty pattern leaves `s` unchanged here, and
/// the executable form requires it non-empty.
pub open spec fn replace_spec(s: Seq<u8>, from: Seq<u8>, to: Seq<u8>) -> Seq<u8>
    decreases s.len(),
{
    if from.len() == 0 || s.len() < from.len() {
        s
    } else if s.subrange(0, from.len() as int) == from {
        to + replace_spec(s.skip(from.len() as int), from, to)
    } else {
        seq![s[0]] + replace_spec(s.skip(1), from, to)
    }
}

/// Length of the leading run of non-separator bytes of `s`.
pub open spec fn token_len(s: Seq<u8>) -> int
    decreases s.len(),
{
    if s.len() == 0 || is_ws(s[0]) {
        0
    } else {
        1 + token_len(s.skip(1))
    }
}

pub proof fn lemma_token_len_bounds(s: Seq<u8>)
    ensures
        0 <= token_len(s) <= s.len(),
    decreases s.len(),
{
    if s.len() != 0 && !is_ws(s[0]) {
        lemma_token_len_bounds(s.skip(1));
    }
}

/// The leading run of non-separator bytes has length exactly `k` when
/// the first `k` bytes are non-separators and a separator or the end
/// follows.
pub proof fn lemma_token_len_value(s: Seq<u8>, k: int)
    requires
        0 <= k <= s.len(),
        forall|m: int| 0 <= m < k ==> !is_ws(#[trigger] s[m]),
        k == s.len() || is_ws(s[k]),
    ensures
        token_len(s) == k,
    decreases k,
{
    if k == 0 {
    } else {
        assert(!is_ws(s[0]));
        lemma_token_len_value(s.skip(1), k - 1);
    }
}

/// The maximal whitespace-separated tokens of `s`, in order; the
/// meaning of `str::split_ascii_whitespace`.
pub open spec fn split_ws_spec(s: Seq<u8>) -> Seq<Seq<u8>>
    decreases s.len(),
    via split_ws_spec_dec
{
    if s.len() == 0 {
        seq![]
    } else if is_ws(s[0]) {
        split_ws_spec(s.skip(1))
    } else {
        seq![s.take(token_len(s))] + split_ws_spec(s.skip(token_len(s)))
    }
}

#[via_fn]
proof fn split_ws_spec_dec(s: Seq<u8>) {
    if s.len() != 0 && !is_ws(s[0]) {
        lemma_token_len_bounds(s.skip(1));
    }
}

/// Length of the leading run of `s` free of the byte `stop`; the
/// position of the first `stop`, or the length when none occurs.
pub open spec fn scan_len(s: Seq<u8>, stop: u8) -> int
    decreases s.len(),
{
    if s.len() == 0 || s[0] == stop {
        0
    } else {
        1 + scan_len(s.skip(1), stop)
    }
}

pub proof fn lemma_scan_len_bounds(s: Seq<u8>, stop: u8)
    ensures
        0 <= scan_len(s, stop) <= s.len(),
    decreases s.len(),
{
    if s.len() != 0 && s[0] != stop {
        lemma_scan_len_bounds(s.skip(1), stop);
    }
}

/// The leading `stop`-free run has length exactly `k` when the first
/// `k` bytes differ from `stop` and `stop` or the end follows.
pub proof fn lemma_scan_len_value(s: Seq<u8>, stop: u8, k: int)
    requires
        0 <= k <= s.len(),
        forall|m: int| 0 <= m < k ==> #[trigger] s[m] != stop,
        k == s.len() || s[k] == stop,
    ensures
        scan_len(s, stop) == k,
    decreases k,
{
    if k != 0 {
        assert(s[0] != stop);
        lemma_scan_len_value(s.skip(1), stop, k - 1);
    }
}

/// Position of the first occurrence of `b` in `s`, or the length of `s`
/// when it does not occur; executable form of [`scan_len`].
pub fn scan_byte(s: &[u8], b: u8) -> (r: usize)
    ensures
        r == scan_len(s@, b),
{
    let n: usize = s.len();
    let mut i: usize = 0;
    while i < n && s[i] != b
        invariant
            i <= n,
            n == s@.len(),
            forall|m: int| 0 <= m < i ==> #[trigger] s@[m] != b,
        decreases n - i,
    {
        i += 1;
    }
    proof {
        lemma_scan_len_value(s@, b, i as int);
    }
    i
}

/// `s` with leading and trailing whitespace removed.
pub open spec fn trim_spec(s: Seq<u8>) -> Seq<u8>
    decreases s.len(),
{
    if s.len() == 0 {
        s
    } else if is_ws(s[0]) {
        trim_spec(s.skip(1))
    } else if is_ws(s.last()) {
        trim_spec(s.drop_last())
    } else {
        s
    }
}

/// Removes leading and trailing whitespace, executable form of
/// [`trim_spec`].
pub fn trim(s: &[u8]) -> (r: Vec<u8>)
    ensures
        r@ == trim_spec(s@),
{
    let n: usize = s.len();
    let mut a: usize = 0;
    let mut b: usize = n;
    proof {
        assert(s@.subrange(0, n as int) =~= s@);
    }
    while a < b && is_ws_byte(s[a])
        invariant
            a <= b <= n,
            n == s@.len(),
            trim_spec(s@) == trim_spec(s@.subrange(a as int, b as int)),
        decreases b - a,
    {
        proof {
            assert(s@.subrange(a as int, b as int).skip(1) =~= s@.subrange(a + 1, b as int));
        }
        a += 1;
    }
    while b > a && is_ws_byte(s[b - 1])
        invariant
            a <= b <= n,
            n == s@.len(),
            a < b ==> !is_ws(s@[a as int]),
            trim_spec(s@) == trim_spec(s@.subrange(a as int, b as int)),
        decreases b,
    {
        proof {
            assert(s@.subrange(a as int, b as int).drop_last() =~= s@.subrange(a as int, b - 1));
            assert(s@.subrange(a as int, b as int)[0] == s@[a as int]);
        }
        b -= 1;
    }
    proof {
        if a < b {
            assert(!is_ws(s@.subrange(a as int, b as int)[0]));
            assert(!is_ws(s@.subrange(a as int, b as int).last()));
        }
    }
    copy_range(s, a, b)
}

/// The elements of `ls` joined by the single byte `sep`.
pub open spec fn join_with(ls: Seq<Seq<u8>>, sep: u8) -> Seq<u8>
    decreases ls.len(),
{
    if ls.len() == 0 {
        Seq::empty()
    } else if ls.len() == 1 {
        ls[0]
    } else {
        ls[0] + seq![sep] + join_with(ls.skip(1), sep)
    }
}

/// Peeling the last element off a join.
pub proof fn lemma_join_with_snoc(ls: Seq<Seq<u8>>, sep: u8, i: int)
    requires
        1 <= i < ls.len(),
    ensures
        join_with(ls.take(i + 1), sep) == join_with(ls.take(i), sep) + seq![sep] + ls[i],
    decreases i,
{
    let t = ls.take(i + 1);
    assert(t.skip(1) =~= ls.skip(1).take(i));
    if i == 1 {
        assert(join_with(t.skip(1), sep) == ls[1]);
        assert(ls.take(1) =~= seq![ls[0]]);
    } else {
        lemma_join_with_snoc(ls.skip(1), sep, i - 1);
        assert(ls.skip(1).take(i - 1) =~= ls.take(i).skip(1));
        assert(ls.skip(1)[i - 1] == ls[i]);
        assert(join_with(ls.take(i), sep) == ls.take(i)[0] + seq![sep] + join_with(
            ls.take(i).skip(1),
            sep,
        ));
        let y = join_with(ls.skip(1).take(i - 1), sep);
        assert(ls[0] + seq![sep] + (y + seq![sep] + ls[i]) =~= (ls[0] + seq![sep] + y) + seq![sep]
            + ls[i]);
    }
}

/// Separator test, executable form of [`is_ws`].
pub fn is_ws_byte(b: u8) -> (r: bool)
    ensures
        r == is_ws(b),
{
    b == 32 || b == 9 || b == 10 || b == 13 || b == 12
}

/// Copies `s[a..b]`.
pub fn copy_range(s: &[u8], a: usize, b: usize) -> (r: Vec<u8>)
    requires
        a <= b <= s@.len(),
    ensures
        r@ == s@.subrange(a as int, b as int),
{
    vstd::slice::slice_to_vec(vstd::slice::slice_subrange(s, a, b))
}

/// Splits `s` into its whitespace-separated tokens, executable form of
/// [`split_ws_spec`].
pub fn split_ws(s: &[u8]) -> (r: Vec<Vec<u8>>)
    ensures
        r.deep_view() == split_ws_spec(s@),
{
    let n: usize = s.len();
    let mut out: Vec<Vec<u8>> = Vec::new();
    let mut i: usize = 0;
    proof {
        assert(s@.skip(0) =~= s@);
        assert(out.deep_view() + split_ws_spec(s@) =~= split_ws_spec(s@));
    }
    while i < n
        invariant
            i <= n,
            n == s@.len(),
            split_ws_spec(s@) == out.deep_view() + split_ws_spec(s@.skip(i as int)),
        decreases n - i,
    {
        if is_ws_byte(s[i]) {
            proof {
                assert(s@.skip(i as int).skip(1) =~= s@.skip(i + 1));
            }
            i += 1;
        } else {
            let start = i;
            let mut j = i + 1;
            while j < n && !is_ws_byte(s[j])
                invariant
                    start < j <= n,
                    n == s@.len(),
                    forall|m: int| start <= m < j ==> !is_ws(#[trigger] s@[m]),
                decreases n - j,
            {
                j += 1;
            }
            let tok = copy_range(s, start, j);
            let ghost pre = out.deep_view();
            let ghost rest = s@.skip(start as int);
            proof {
                assert(forall|m: int| 0 <= m < j - start ==> rest[m] == s@[start + m]);
                lemma_token_len_value(rest, j - start);
                assert(rest.take(j - start) =~= s@.subrange(start as int, j as int));
                assert(rest.skip(j - start) =~= s@.skip(j as int));
                assert(split_ws_spec(rest) == seq![tok@] + split_ws_spec(s@.skip(j as int)));
            }
            out.push(tok);
            i = j;
            proof {
                assert(out.deep_view() =~~= pre + seq![tok@]);
                assert((pre + seq![tok@]) + split_ws_spec(s@.skip(i as int)) =~= pre + (seq![tok@]
                    + split_ws_spec(s@.skip(i as int))));
            }
        }
    }
    proof {
        assert(s@.skip(n as int) =~= Seq::<u8>::empty());
        assert(split_ws_spec(Seq::<u8>::empty()) =~= Seq::<Seq<u8>>::empty());
        assert(out.deep_view() + Seq::<Seq<u8>>::empty() =~= out.deep_view());
    }
    out
}

/// The lines of `s`, split at every newline byte; empty lines are kept,
/// and a trailing newline yields a final empty line.
pub open spec fn split_lines_spec(s: Seq<u8>) -> Seq<Seq<u8>>
    decreases s.len(),
    via split_lines_spec_dec
{
    let k = scan_len(s, 10);
    if k == s.len() {
        seq![s]
    } else {
        seq![s.take(k)] + split_lines_spec(s.skip(k + 1))
    }
}

#[via_fn]
proof fn split_lines_spec_dec(s: Seq<u8>) {
    lemma_scan_len_bounds(s, 10);
}

/// Splits `s` at newline bytes, executable form of [`split_lines_spec`].
pub fn split_lines(s: &[u8]) -> (r: Vec<Vec<u8>>)
    ensures
        r.deep_view() == split_lines_spec(s@),
{
    let n: usize = s.len();
    let mut out: Vec<Vec<u8>> = Vec::new();
    let mut i: usize = 0;
    proof {
        assert(s@.skip(0) =~= s@);
        assert(out.deep_view() + split_lines_spec(s@) =~= split_lines_spec(s@));
    }
    loop
        invariant
            i <= n,
            n == s@.len(),
            split_lines_spec(s@) == out.deep_view() + split_lines_spec(s@.skip(i as int)),
        decreases n - i,
    {
        let ghost rest = s@.skip(i as int);
        let ghost pre = out.deep_view();
        let mut j: usize = i;
        while j < n && s[j] != 10
            invariant
                i <= j <= n,
                n == s@.len(),
                forall|m: int| i <= m < j ==> #[trigger] s@[m] != 10,
            decreases n - j,
        {
            j += 1;
        }
        proof {
            assert(forall|m: int| 0 <= m < j - i ==> #[trigger] rest[m] != 10);
            lemma_scan_len_value(rest, 10, j - i);
        }
        let line = copy_range(s, i, j);
        out.push(line);
        proof {
            assert(out.deep_view() =~~= pre + seq![line@]);
        }
        if j == n {
            proof {
                assert(rest =~= line@);
                assert(split_lines_spec(rest) == seq![line@]);
                assert(pre + seq![line@] =~= split_lines_spec(s@));
            }
            return out;
        }
        i = j + 1;
        proof {
            assert(rest.take(scan_len(rest, 10)) =~= line@);
            assert(rest.skip(scan_len(rest, 10) + 1) =~= s@.skip(i as int));
            assert(split_lines_spec(rest) == seq![line@] + split_lines_spec(s@.skip(i as int)));
            assert(pre + (seq![line@] + split_lines_spec(s@.skip(i as int))) =~= (pre + seq![
                line@,
            ]) + split_lines_spec(s@.skip(i as int)));
        }
    }
}

/// Joins byte strings with `sep`, executable form of [`join_with`].
pub fn join_bytes(ls: &Vec<Vec<u8>>, sep: u8) -> (out: Vec<u8>)
    ensures
        out@ == join_with(ls.deep_view(), sep),
{
    let ghost ldv = ls.deep_view();
    let mut out: Vec<u8> = Vec::new();
    let mut i: usize = 0;
    proof {
        assert(join_with(ldv.take(0), sep) =~= Seq::<u8>::empty());
    }
    while i < ls.len()
        invariant
            i <= ls@.len(),
            ldv == ls.deep_view(),
            out@ == join_with(ldv.take(i as int), sep),
        decreases ls@.len() - i,
    {
        let ghost pre = out@;
        if i > 0 {
            out.push(sep);
        }
        append_bytes(&mut out, ls[i].as_slice());
        i += 1;
        proof {
            if i == 1 {
                assert(ldv.take(1) =~= seq![ldv[0]]);
                assert(out@ =~= ldv[0]);
            } else {
                lemma_join_with_snoc(ldv, sep, i - 1);
                assert(out@ =~= (pre + seq![sep]) + ldv[i - 1]);
                assert((join_with(ldv.take(i - 1), sep) + seq![sep]) + ldv[i - 1] =~= join_with(
                    ldv.take(i - 1),
                    sep,
                ) + seq![sep] + ldv[i - 1]);
            }
        }
    }
    proof {
        assert(ldv.take(ldv.len() as int) =~= ldv);
    }
    out
}

/// `s` ending with exactly its content and a final newline: unchanged
/// when it already ends with one, extended by one otherwise.
pub open spec fn ensure_nl(s: Seq<u8>) -> Seq<u8> {
    if s.len() > 0 && s.last() == 10 {
        s
    } else {
        s.push(10u8)
    }
}

/// Converts an ASCII string literal into its byte vector; the bridge
/// between the textual constants of this crate and the byte model.
pub fn lit_bytes(s: &str) -> (r: Vec<u8>)
    requires
        s.is_ascii(),
    ensures
        r@ == ascii_bytes(s@),
{
    broadcast use vstd::string::is_ascii_spec_bytes;

    let v = s.as_bytes_vec();
    proof {
        assert(v@ =~= ascii_bytes(s@));
    }
    v
}

/// Copies a byte vector.
pub fn copy_bytes(v: &[u8]) -> (r: Vec<u8>)
    ensures
        r@ == v@,
{
    vstd::slice::slice_to_vec(v)
}

/// Appends `src` to `dst`.
pub fn append_bytes(dst: &mut Vec<u8>, src: &[u8])
    ensures
        final(dst)@ == old(dst)@ + src@,
{
    let mut j: usize = 0;
    while j < src.len()
        invariant
            j <= src@.len(),
            dst@ == old(dst)@ + src@.subrange(0, j as int),
        decreases src@.len() - j,
    {
        dst.push(src[j]);
        j += 1;
        proof {
            assert(dst@ =~= old(dst)@ + src@.subrange(0, j as int));
        }
    }
    proof {
        assert(dst@ =~= old(dst)@ + src@);
    }
}

/// Byte-for-byte equality of two byte strings.
pub fn bytes_eq(a: &[u8], b: &[u8]) -> (r: bool)
    ensures
        r == (a@ == b@),
{
    if a.len() != b.len() {
        proof {
            assert(a@ != b@);
        }
        return false;
    }
    let mut j: usize = 0;
    while j < a.len()
        invariant
            j <= a@.len(),
            a@.len() == b@.len(),
            forall|k: int| 0 <= k < j ==> a@[k] == b@[k],
        decreases a@.len() - j,
    {
        if a[j] != b[j] {
            proof {
                assert(a@ != b@);
            }
            return false;
        }
        j += 1;
    }
    proof {
        assert(a@ =~= b@);
    }
    true
}

/// `pat` compared against `s` at position `i`.
pub fn eq_at(s: &[u8], i: usize, pat: &[u8]) -> (r: bool)
    requires
        i + pat@.len() <= s@.len(),
    ensures
        r == matches_at(s@, pat@, i as int),
{
    let slen: usize = s.len();
    let mut j: usize = 0;
    while j < pat.len()
        invariant
            j <= pat@.len(),
            i + pat@.len() <= s@.len(),
            slen == s@.len(),
            forall|k: int| 0 <= k < j ==> s@[i + k] == pat@[k],
        decreases pat@.len() - j,
    {
        if s[i + j] != pat[j] {
            proof {
                assert(s@.subrange(i as int, i + pat@.len() as int)[j as int] != pat@[j as int]);
            }
            return false;
        }
        j += 1;
    }
    proof {
        assert(s@.subrange(i as int, i + pat@.len() as int) =~= pat@);
    }
    true
}

/// Whether `pat` occurs anywhere in `s`.
pub fn contains_bytes(s: &[u8], pat: &[u8]) -> (r: bool)
    ensures
        r == contains_bytes_spec(s@, pat@),
{
    if pat.len() > s.len() {
        proof {
            assert(forall|i: int| !matches_at(s@, pat@, i));
        }
        return false;
    }
    let end: usize = s.len() - pat.len();
    let mut i: usize = 0;
    loop
        invariant
            i <= end,
            end == s@.len() - pat@.len(),
            pat@.len() <= s@.len(),
            forall|k: int| 0 <= k < i ==> !matches_at(s@, pat@, k),
        decreases end - i,
    {
        if eq_at(s, i, pat) {
            return true;
        }
        if i == end {
            proof {
                assert(forall|k: int| matches_at(s@, pat@, k) ==> 0 <= k <= end);
            }
            return false;
        }
        i += 1;
    }
}

/// Whether `s` starts with `pat`.
pub fn starts_with(s: &[u8], pat: &[u8]) -> (r: bool)
    ensures
        r == (pat@.len() <= s@.len() && s@.subrange(0, pat@.len() as int) == pat@),
{
    if pat.len() > s.len() {
        return false;
    }
    eq_at(s, 0, pat)
}

/// Leftmost-scan textual substitution, the executable form of
/// [`replace_spec`].
pub fn replace_bytes(s: &[u8], from: &[u8], to: &[u8]) -> (r: Vec<u8>)
    requires
        from@.len() > 0,
    ensures
        r@ == replace_spec(s@, from@, to@),
{
    let mut out: Vec<u8> = Vec::new();
    let mut i: usize = 0;
    proof {
        assert(s@.skip(0) =~= s@);
        assert(Seq::<u8>::empty() + replace_spec(s@, from@, to@) =~= replace_spec(s@, from@, to@));
    }
    while i < s.len()
        invariant
            i <= s@.len(),
            from@.len() > 0,
            replace_spec(s@, from@, to@) == out@ + replace_spec(s@.skip(i as int), from@, to@),
        decreases s@.len() - i,
    {
        let ghost pre = out@;
        let ghost rest = s@.skip(i as int);
        if from.len() <= s.len() - i && eq_at(s, i, from) {
            proof {
                assert(rest.subrange(0, from@.len() as int) =~= s@.subrange(
                    i as int,
                    i + from@.len() as int,
                ));
                assert(rest.skip(from@.len() as int) =~= s@.skip(i + from@.len() as int));
                assert(replace_spec(rest, from@, to@) == to@ + replace_spec(
                    s@.skip(i + from@.len() as int),
                    from@,
                    to@,
                ));
            }
            append_bytes(&mut out, to);
            i += from.len();
            proof {
                assert(out@ + replace_spec(s@.skip(i as int), from@, to@) =~= pre + (to@
                    + replace_spec(s@.skip(i as int), from@, to@)));
            }
        } else {
            proof {
                if rest.len() >= from@.len() {
                    assert(rest.subrange(0, from@.len() as int) =~= s@.subrange(
                        i as int,
                        i + from@.len() as int,
                    ));
                    assert(rest.subrange(0, from@.len() as int) != from@);
                } else {
                    assert(rest =~= seq![s@[i as int]] + rest.skip(1));
                    assert(rest.skip(1).len() < from@.len());
                }
                assert(rest.skip(1) =~= s@.skip(i + 1));
                assert(replace_spec(rest, from@, to@) == seq![s@[i as int]] + replace_spec(
                    s@.skip(i + 1),
                    from@,
                    to@,
                ));
            }
            out.push(s[i]);
            i += 1;
            proof {
                assert(out@ + replace_spec(s@.skip(i as int), from@, to@) =~= pre + (seq![
                    s@[i - 1],
                ] + replace_spec(s@.skip(i as int), from@, to@)));
            }
        }
    }
    proof {
        assert(s@.skip(i as int) =~= Seq::<u8>::empty());
        assert(replace_spec(Seq::<u8>::empty(), from@, to@) == Seq::<u8>::empty());
        assert(out@ + Seq::<u8>::empty() =~= out@);
    }
    out
}

} // verus!
