//! The diff generator: a suffix-array index over the old buffer, a
//! longest-prefix binary search, and the scanning state machine that walks
//! the new buffer, scores candidate matches, extends them in both
//! directions, resolves overlap with the previous record, and emits the
//! patch stream that `apply` consumes.

use vstd::prelude::*;
use core::cmp::Ordering;
use crate::codec::{
    apply_chunked_from, apply_entries, apply_patch, apply_patch_at, chunk_resumes_at,
    declared_size, le_i64, le_u64, lemma_chunk_resumes_init, lemma_chunk_resumes_step,
    lemma_empty_patch_bytes, lemma_entries_no_reads, lemma_entries_window, lemma_resumes_init,
    lemma_resumes_step,
    lemma_wrap_round, magic, patch_header_ok, push_i64_le, push_magic, push_u64_le, rec_diff,
    subpatch_count,
    rec_extra, rec_output, rec_seek, rec_wellformed, resumes_at, shifted,
};

verus! {

/// Why patch generation failed.
#[derive(Debug, Clone, Copy, PartialEq, Eq, Structural)]
pub enum DiffError {
    /// One input buffer is too large for a single patch; use the chunked
    /// generator instead.
    SizeLimit,
    /// The scan reached a state its invariants rule out; indicates a bug,
    /// not bad input.
    Internal,
}

/// Length of the longest common prefix of `a` and `b`.
pub open spec fn match_len_spec(a: Seq<u8>, b: Seq<u8>) -> int
    decreases a.len(),
{
    if a.len() == 0 || b.len() == 0 {
        0
    } else if a[0] == b[0] {
        1 + match_len_spec(a.drop_first(), b.drop_first())
    } else {
        0
    }
}

/// The common prefix is exactly the first run of equal bytes.
pub proof fn lemma_match_len_spec(a: Seq<u8>, b: Seq<u8>, k: int)
    requires
        0 <= k <= a.len(),
        k <= b.len(),
        forall|i: int| 0 <= i < k ==> a[i] == b[i],
        k < a.len() && k < b.len() ==> a[k] != b[k],
    ensures
        match_len_spec(a, b) == k,
    decreases a.len(),
{
    if a.len() == 0 || b.len() == 0 {
    } else if k == 0 {
    } else {
        assert(a[0] == b[0]);
        lemma_match_len_spec(a.drop_first(), b.drop_first(), k - 1);
    }
}

/// Lexicographic order on byte sequences, where a proper prefix is not
/// larger than what extends it.
pub open spec fn lex_le(a: Seq<u8>, b: Seq<u8>) -> bool
    decreases a.len(),
{
    if a.len() == 0 {
        true
    } else if b.len() == 0 {
        false
    } else if a[0] < b[0] {
        true
    } else if a[0] > b[0] {
        false
    } else {
        lex_le(a.drop_first(), b.drop_first())
    }
}

/// Lexicographic comparison of the common part of two byte sequences: only
/// the first `min` of the two lengths bytes decide; one being a prefix of
/// the other counts as equal.
pub open spec fn cmp_common(a: Seq<u8>, b: Seq<u8>) -> Ordering
    decreases a.len(),
{
    if a.len() == 0 || b.len() == 0 {
        Ordering::Equal
    } else if a[0] < b[0] {
        Ordering::Less
    } else if a[0] > b[0] {
        Ordering::Greater
    } else {
        cmp_common(a.drop_first(), b.drop_first())
    }
}

/// Relies on divsufsort::sort: the returned vector lists each suffix start
/// of `old` exactly once, ordered so that the suffixes are lexicographically
/// non-decreasing. divsufsort panics on inputs of 2^31 - 1 bytes or more,
/// so those are excluded here.
#[verifier::external_body]
fn suffix_sort(old_buf: &[u8]) -> (r: Vec<i32>)
    requires
        old_buf@.len() < 0x7fff_ffff,
    ensures
        r@.len() == old_buf@.len(),
        forall|i: int| 0 <= i < r@.len() ==> 0 <= #[trigger] r@[i] < old_buf@.len(),
        forall|i: int, j: int| 0 <= i < j < r@.len() ==> r@[i] != r@[j],
        forall|i: int, j: int|
            0 <= i < j < r@.len() ==> lex_le(
                old_buf@.skip(#[trigger] r@[i] as int),
                old_buf@.skip(#[trigger] r@[j] as int),
            ),
{
    divsufsort::sort(old_buf).into_parts().1
}

/// Length of the longest common prefix of `a` and `b`: the first `r` bytes
/// agree, and either one side ends at `r` or the bytes at `r` differ.
pub fn match_len(a: &[u8], b: &[u8]) -> (r: usize)
    ensures
        r == match_len_spec(a@, b@),
        r <= a@.len() && r <= b@.len(),
        forall|i: int| 0 <= i < r ==> a@[i] == b@[i],
        r < a@.len() && r < b@.len() ==> a@[r as int] != b@[r as int],
{
    let alen: usize = a.len();
    let blen: usize = b.len();
    let n: usize = if alen < blen {
        alen
    } else {
        blen
    };
    let mut i: usize = 0;
    while i < n
        invariant
            0 <= i <= n,
            n <= a@.len() && n <= b@.len(),
            n == a@.len() || n == b@.len(),
            forall|j: int| 0 <= j < i ==> a@[j] == b@[j],
        decreases n - i,
    {
        if *vstd::slice::slice_index_get(a, i) != *vstd::slice::slice_index_get(b, i) {
            proof {
                lemma_match_len_spec(a@, b@, i as int);
            }
            return i;
        }
        i = i + 1;
    }
    proof {
        lemma_match_len_spec(a@, b@, n as int);
    }
    n
}

/// Compares lexicographically the common part of these slices, i.e. takes
/// the smallest length and compares within that.
pub fn min_memcmp(a: &[u8], b: &[u8]) -> (r: Ordering)
    ensures
        r == cmp_common(a@, b@),
{
    let alen: usize = a.len();
    let blen: usize = b.len();
    let n: usize = if alen < blen {
        alen
    } else {
        blen
    };
    let mut i: usize = 0;
    proof {
        assert(a@.skip(0) =~= a@);
        assert(b@.skip(0) =~= b@);
    }
    while i < n
        invariant
            0 <= i <= n,
            n <= a@.len() && n <= b@.len(),
            n == a@.len() || n == b@.len(),
            cmp_common(a@, b@) == cmp_common(a@.skip(i as int), b@.skip(i as int)),
        decreases n - i,
    {
        let x: u8 = *vstd::slice::slice_index_get(a, i);
        let y: u8 = *vstd::slice::slice_index_get(b, i);
        if x < y {
            return Ordering::Less;
        }
        if x > y {
            return Ordering::Greater;
        }
        proof {
            assert(a@.skip(i as int).drop_first() =~= a@.skip(i as int + 1));
            assert(b@.skip(i as int).drop_first() =~= b@.skip(i as int + 1));
        }
        i = i + 1;
    }
    proof {
        assert(a@.skip(i as int).len() == 0 || b@.skip(i as int).len() == 0);
    }
    Ordering::Equal
}

/// The pair (length, position) that the binary search over the suffix
/// array settles on for query `q` and the inclusive interval `[st, en]`:
/// the interval is halved on a common-prefix compare, ties descending into
/// the upper half, until it narrows to two candidates; the result is the
/// longer of the prefix matches at `sorted[st]` and `sorted[en]` of that
/// narrowed interval, ties going to `en`.
///
/// Opaque: callers of `search` that only need its bounds do not unfold it.
#[verifier::opaque]
pub open spec fn search_spec(
    sorted: Seq<i32>,
    old: Seq<u8>,
    q: Seq<u8>,
    st: int,
    en: int,
) -> (int, int)
    decreases en - st,
{
    if en - st < 2 {
        let x = match_len_spec(old.skip(sorted[st] as int), q);
        let y = match_len_spec(old.skip(sorted[en] as int), q);
        if x > y {
            (x, sorted[st] as int)
        } else {
            (y, sorted[en] as int)
        }
    } else {
        let mid = st + (en - st) / 2;
        if cmp_common(old.skip(sorted[mid] as int), q) != Ordering::Greater {
            search_spec(sorted, old, q, mid, en)
        } else {
            search_spec(sorted, old, q, st, mid)
        }
    }
}

/// The position the search settles on is a suffix-array entry of the
/// searched interval.
pub proof fn lemma_search_spec_in_interval(
    sorted: Seq<i32>,
    old: Seq<u8>,
    q: Seq<u8>,
    st: int,
    en: int,
)
    requires
        0 <= st <= en < sorted.len(),
    ensures
        exists|k: int| st <= k <= en && search_spec(sorted, old, q, st, en).1 == #[trigger] sorted[k] as int,
    decreases en - st,
{
    reveal(search_spec);
    if en - st < 2 {
        let x = match_len_spec(old.skip(sorted[st] as int), q);
        let y = match_len_spec(old.skip(sorted[en] as int), q);
        if x > y {
            assert(search_spec(sorted, old, q, st, en).1 == sorted[st] as int);
        } else {
            assert(search_spec(sorted, old, q, st, en).1 == sorted[en] as int);
        }
    } else {
        let mid = st + (en - st) / 2;
        if cmp_common(old.skip(sorted[mid] as int), q) != Ordering::Greater {
            lemma_search_spec_in_interval(sorted, old, q, mid, en);
        } else {
            lemma_search_spec_in_interval(sorted, old, q, st, mid);
        }
    }
}

/// Binary search of the string `new` in the `old` string using the suffix
/// array `sorted`, over the inclusive interval `[st, en]`. Returns the
/// length of the longest prefix of `new` found at the suffix the search
/// settles on, and stores that suffix's start in `*pos`: exactly the pair
/// `search_spec` describes — a locally longest match, not necessarily the
/// globally longest.
pub fn search(sorted: &Vec<i32>, old_buf: &[u8], new_buf: &[u8], st: usize, en: usize, pos: &mut i64) -> (len: i64)
    requires
        old_buf@.len() < 0x7fff_ffff,
        new_buf@.len() < 0x7fff_ffff,
        st <= en < sorted@.len(),
        forall|i: int| 0 <= i < sorted@.len() ==> 0 <= #[trigger] sorted@[i] <= old_buf@.len(),
    ensures
        0 <= *final(pos) <= old_buf@.len(),
        0 <= len <= new_buf@.len(),
        len == match_len_spec(old_buf@.skip(*final(pos) as int), new_buf@),
        (len as int, *final(pos) as int) == search_spec(
            sorted@,
            old_buf@,
            new_buf@,
            st as int,
            en as int,
        ),
    decreases en - st,
{
    proof {
        reveal(search_spec);
    }
    if en - st < 2 {
        let i_st: usize = sorted[st] as usize;
        let i_en: usize = sorted[en] as usize;
        let x: usize = match_len(vstd::slice::slice_subrange(old_buf, i_st, old_buf.len()), new_buf);
        let y: usize = match_len(vstd::slice::slice_subrange(old_buf, i_en, old_buf.len()), new_buf);
        proof {
            assert(old_buf@.subrange(i_st as int, old_buf@.len() as int) =~= old_buf@.skip(i_st as int));
            assert(old_buf@.subrange(i_en as int, old_buf@.len() as int) =~= old_buf@.skip(i_en as int));
        }
        if x > y {
            *pos = sorted[st] as i64;
            x as i64
        } else {
            *pos = sorted[en] as i64;
            y as i64
        }
    } else {
        let x: usize = st + (en - st) / 2;
        let i_x: usize = sorted[x] as usize;
        let c = min_memcmp(vstd::slice::slice_subrange(old_buf, i_x, old_buf.len()), new_buf);
        if !matches!(c, Ordering::Greater) {
            search(sorted, old_buf, new_buf, x, en, pos)
        } else {
            search(sorted, old_buf, new_buf, st, x, pos)
        }
    }
}

} // verus!

verus! {

/// Append a patch header: the magic bytes, then the declared output size.
pub fn write_header(patch: &mut Vec<u8>, len: u64)
    ensures
        final(patch)@.len() == old(patch)@.len() + 16,
        final(patch)@.subrange(0, old(patch)@.len() as int) == old(patch)@,
        final(patch)@.subrange(old(patch)@.len() as int, old(patch)@.len() as int + 8) == magic(),
        le_u64(
            final(patch)@.subrange(old(patch)@.len() as int + 8, old(patch)@.len() as int + 16),
        ) == len,
{
    let ghost pre = patch@;
    push_magic(patch);
    let ghost pm = patch@;
    push_u64_le(patch, len);
    proof {
        assert forall|x: int| 0 <= x < pm.len() implies patch@[x] == pm[x] by {
            assert(patch@.subrange(0, pm.len() as int)[x] == pm[x]);
        };
        assert(patch@.subrange(0, pre.len() as int) =~= pre);
        assert forall|x: int| 0 <= x < 8 implies patch@.subrange(
            pre.len() as int,
            pre.len() as int + 8,
        )[x] == magic()[x] by {
            assert(patch@[pre.len() + x] == pm[pre.len() + x]);
            assert(pm[pre.len() + x] == magic()[x]);
        };
        assert(patch@.subrange(pre.len() as int, pre.len() as int + 8) =~= magic());
        assert(patch@.subrange(pre.len() as int + 8, pre.len() as int + 16) =~= patch@.subrange(
            pm.len() as int,
            patch@.len() as int,
        ));
    }
}

/// Append the all-zero entry record that terminates a patch.
pub fn write_ending(patch: &mut Vec<u8>)
    ensures
        final(patch)@.len() == old(patch)@.len() + 24,
        final(patch)@.subrange(0, old(patch)@.len() as int) == old(patch)@,
        ({
            let term = final(patch)@.skip(old(patch)@.len() as int);
            le_u64(term.subrange(0, 8)) == 0 && le_u64(term.subrange(8, 16)) == 0 && le_i64(
                term.subrange(16, 24),
            ) == 0
        }),
{
    let ghost bfin = patch@;
    push_u64_le(patch, 0);
    let ghost q1 = patch@;
    push_u64_le(patch, 0);
    let ghost q2 = patch@;
    push_i64_le(patch, 0);
    proof {
        assert forall|x: int| 0 <= x < q2.len() implies patch@[x] == q2[x] by {
            assert(patch@.subrange(0, q2.len() as int)[x] == q2[x]);
        };
        assert forall|x: int| 0 <= x < q1.len() implies q2[x] == q1[x] by {
            assert(q2.subrange(0, q1.len() as int)[x] == q1[x]);
        };
        let term = patch@.skip(bfin.len() as int);
        assert(term.subrange(0, 8) =~= q1.subrange(bfin.len() as int, q1.len() as int));
        assert(term.subrange(8, 16) =~= q2.subrange(q1.len() as int, q2.len() as int));
        assert(term.subrange(16, 24) =~= patch@.subrange(q2.len() as int, patch@.len() as int));
        assert(patch@.subrange(0, bfin.len() as int) =~= bfin);
    }
}

/// Append one entry record: the 24-byte triple, then `diff_v` bytes of
/// wrapped differences of `new_buf` against `old_buf` at the two anchors,
/// then the following `extra_v` bytes of `new_buf` verbatim.
#[verifier::loop_isolation(false)]
#[verifier::rlimit(60)]
fn push_record(
    patch: &mut Vec<u8>,
    old_buf: &[u8],
    new_buf: &[u8],
    lastscan: i64,
    lastpos: i64,
    diff_v: i64,
    extra_v: i64,
    seek_v: i64,
)
    requires
        0 <= lastscan,
        0 <= lastpos,
        0 <= diff_v,
        0 <= extra_v,
        lastscan + diff_v + extra_v <= new_buf@.len(),
        lastpos + diff_v <= old_buf@.len(),
        new_buf@.len() < 0x7fff_ffff,
        old_buf@.len() < 0x7fff_ffff,
        !(diff_v == 0 && extra_v == 0 && seek_v == 0),
    ensures
        final(patch)@.len() == old(patch)@.len() + 24 + diff_v + extra_v,
        final(patch)@.subrange(0, old(patch)@.len() as int) == old(patch)@,
        ({
            let rec = final(patch)@.skip(old(patch)@.len() as int);
            &&& rec_wellformed(old_buf@, rec, lastpos as int)
            &&& rec_diff(rec) == diff_v
            &&& rec_extra(rec) == extra_v
            &&& rec_seek(rec) == seek_v
            &&& rec_output(old_buf@, rec, lastpos as int) == new_buf@.subrange(
                lastscan as int,
                lastscan + diff_v + extra_v,
            )
        }),
{
    let ghost bpre = patch@;
    push_u64_le(patch, diff_v as u64);
    let ghost p1 = patch@;
    push_u64_le(patch, extra_v as u64);
    let ghost p2 = patch@;
    push_i64_le(patch, seek_v);
    let ghost p3 = patch@;
    let dlen: usize = diff_v as usize;
    let mut k: usize = 0;
    while k < dlen
        invariant
            0 <= k <= dlen,
            patch@ == p3 + Seq::new(
                k as nat,
                |x: int| new_buf@[lastscan + x].wrapping_sub(old_buf@[lastpos + x]),
            ),
        decreases dlen - k,
    {
        let nb: u8 = *vstd::slice::slice_index_get(new_buf, lastscan as usize + k);
        let ob: u8 = *vstd::slice::slice_index_get(old_buf, lastpos as usize + k);
        patch.push(nb.wrapping_sub(ob));
        k = k + 1;
        proof {
            assert(patch@ =~= p3 + Seq::new(
                k as nat,
                |x: int| new_buf@[lastscan + x].wrapping_sub(old_buf@[lastpos + x]),
            ));
        }
    }
    let ghost p4 = patch@;
    let estart: usize = (lastscan + diff_v) as usize;
    let elen: usize = extra_v as usize;
    let mut j: usize = 0;
    while j < elen
        invariant
            0 <= j <= elen,
            patch@ == p4 + new_buf@.subrange(estart as int, estart as int + j),
        decreases elen - j,
    {
        let nb: u8 = *vstd::slice::slice_index_get(new_buf, estart + j);
        patch.push(nb);
        j = j + 1;
        proof {
            assert(patch@ =~= p4 + new_buf@.subrange(estart as int, estart as int + j));
        }
    }
    proof {
        let rec = patch@.skip(bpre.len() as int);
        assert(p2.subrange(0, p1.len() as int) == p1);
        assert(p3.subrange(0, p2.len() as int) == p2);
        assert(rec.len() == 24 + diff_v + extra_v);
        assert(rec.subrange(0, 8) =~= p1.subrange(bpre.len() as int, p1.len() as int));
        assert(rec.subrange(8, 16) =~= p2.subrange(p1.len() as int, p2.len() as int));
        assert(rec.subrange(16, 24) =~= p3.subrange(p2.len() as int, p3.len() as int));
        assert(rec_diff(rec) == diff_v);
        assert(rec_extra(rec) == extra_v);
        assert(rec_seek(rec) == seek_v);
        assert(forall|x: int|
            0 <= x < diff_v ==> rec[24 + x] == #[trigger] new_buf@[lastscan + x].wrapping_sub(
                old_buf@[lastpos + x],
            ));
        assert(rec.subrange(24 + diff_v, 24 + diff_v + extra_v) =~= new_buf@.subrange(
            lastscan + diff_v,
            lastscan + diff_v + extra_v,
        ));
        assert(rec_wellformed(old_buf@, rec, lastpos as int));
        assert forall|x: int| 0 <= x < diff_v implies old_buf@[lastpos + x].wrapping_add(
            #[trigger] rec[24 + x],
        ) == new_buf@[lastscan + x] by {
            lemma_wrap_round(old_buf@[lastpos + x], new_buf@[lastscan + x]);
        };
        assert(rec_output(old_buf@, rec, lastpos as int) =~= new_buf@.subrange(
            lastscan as int,
            lastscan + diff_v + extra_v,
        ));
        assert(patch@.subrange(0, bpre.len() as int) =~= bpre);
    }
}

/// Generate a delta patch from `old_buf` to `new_buf`, appended to `patch`. Each
/// side is limited to 2^31 - 2 bytes; use [`generate_chunked`] beyond that.
///
/// Succeeds exactly when both inputs are under the size limit, and then the
/// appended bytes form a patch that reconstructs `new_buf` from `old_buf`: the
/// round-trip property, stated through [`apply_patch`].
#[verifier::loop_isolation(false)]
#[verifier::rlimit(100)]
#[verifier::spinoff_prover]
pub fn generate(old_buf: &[u8], new_buf: &[u8], patch: &mut Vec<u8>) -> (r: Result<(), DiffError>)
    ensures
        r is Ok <==> (old_buf@.len() < 0x7fff_ffff && new_buf@.len() < 0x7fff_ffff),
        r is Err ==> final(patch)@ == old(patch)@,
        r is Ok ==> final(patch)@.len() > old(patch)@.len() + 16
            && final(patch)@.subrange(0, old(patch)@.len() as int) == old(patch)@
            && apply_patch(old_buf@, final(patch)@.skip(old(patch)@.len() as int))
                == Some((new_buf@, final(patch)@.len() - old(patch)@.len())),
        r is Ok && new_buf@.len() == 0 ==> final(patch)@.skip(old(patch)@.len() as int)
            == magic() + Seq::new(32, |i: int| 0u8),
        r is Ok && old_buf@.len() == 0 && new_buf@.len() > 0 ==> ({
            let rec = final(patch)@.subrange(
                old(patch)@.len() as int + 16,
                old(patch)@.len() as int + 40 + new_buf@.len() as int,
            );
            &&& final(patch)@.len() == old(patch)@.len() + 64 + new_buf@.len()
            &&& rec_diff(rec) == 0
            &&& rec_extra(rec) == new_buf@.len()
            &&& rec_seek(rec) == 0
            &&& rec.subrange(24, 24 + new_buf@.len() as int) == new_buf@
        }),
{
    if old_buf.len() >= 0x7fff_ffff || new_buf.len() >= 0x7fff_ffff {
        return Err(DiffError::SizeLimit);
    }
    let olen: usize = old_buf.len();
    let nlen: usize = new_buf.len();
    let ghost pre = patch@;
    write_header(patch, nlen as u64);
    let ghost base = patch@.len() as int;
    let mut sorted_v: Vec<i32> = suffix_sort(old_buf);
    sorted_v.push(0);
    let sorted: Vec<i32> = sorted_v;
    let tlen: usize = if olen == 0 {
        0
    } else {
        olen - 1
    };
    let mut scan: i64 = 0;
    let mut len: i64 = 0;
    let mut pos: i64 = 0;
    let mut lastscan: i64 = 0;
    let mut lastpos: i64 = 0;
    let mut lastoffset: i64 = 0;
    proof {
        lemma_resumes_init(old_buf@, nlen as int);
        assert(patch@.subrange(base, patch@.len() as int) =~= Seq::<u8>::empty());
        assert(new_buf@.take(0) =~= Seq::<u8>::empty());
    }
    while scan < nlen as i64
        invariant
            0 <= lastscan <= nlen,
            0 <= lastpos <= olen,
            lastoffset == lastpos - lastscan,
            lastscan <= scan <= nlen,
            scan == nlen || scan + len <= nlen,
            scan == nlen ==> lastscan == nlen,
            0 <= len,
            0 <= pos <= tlen,
            patch@.len() >= base,
            nlen == 0 ==> patch@.len() == base,
            patch@.subrange(0, pre.len() as int) == pre,
            patch@.subrange(pre.len() as int, pre.len() as int + 8) == magic(),
            le_u64(patch@.subrange(pre.len() as int + 8, base)) == nlen,
            resumes_at(
                old_buf@,
                patch@.subrange(base, patch@.len() as int),
                lastpos as int,
                new_buf@.take(lastscan as int),
                nlen as int,
            ),
            olen == 0 ==> len == 0,
            olen == 0 ==> lastpos == 0 && ((lastscan == 0 && patch@.len() == base) || (
                lastscan == nlen && scan == nlen as i64 && patch@.len() == base + 24 + nlen && ({
                    let rec = patch@.subrange(base, patch@.len() as int);
                    rec_diff(rec) == 0 && rec_extra(rec) == nlen && rec_seek(rec) == 0
                        && rec.subrange(24, 24 + nlen as int) == new_buf@
                })
            )),
        decreases nlen - scan, (if len == 0 { 1int } else { 0int }),
    {
        let ghost scan_b = scan;
        scan = scan + len;
        let ghost scan_entry = scan;
        let mut scsc: i64 = scan;
        let mut oldscore: i64 = 0;
        let mut stuck: i64 = 0;
        let mut found: bool = false;
        while scan < nlen as i64 && !found
            invariant
                scan_entry <= scan <= nlen,
                scan_entry <= scsc <= nlen,
                lastscan <= scan_entry,
                oldscore <= scsc,
                oldscore >= -(scan - scan_entry) - (if found { 1int } else { 0int }),
                scan == scan_entry && !found ==> oldscore >= 0,
                0 <= len,
                found ==> scan + len <= nlen,
                found ==> scan > scan_entry || len > 0,
                !found ==> stuck <= scan - scan_entry + 1,
                0 <= stuck,
                0 <= pos <= tlen,
                olen == 0 ==> oldscore == 0 && len == 0,
            decreases nlen - scan, (if found { 0int } else { 1int }),
        {
            let prev_len: i64 = len;
            let prev_oldscore: i64 = oldscore;
            let prev_pos: i64 = pos;
            let t_old: &[u8] = vstd::slice::slice_subrange(old_buf, 0, tlen);
            let q: &[u8] = vstd::slice::slice_subrange(new_buf, scan as usize, nlen);
            len = search(&sorted, t_old, q, 0, olen, &mut pos);
            proof {
                assert(q@ == new_buf@.subrange(scan as int, nlen as int));
                assert(q@.len() == nlen - scan);
                if olen == 0 {
                    assert(t_old@.len() == 0);
                    assert(t_old@.skip(pos as int) =~= Seq::<u8>::empty());
                    assert(len == 0);
                }
            }
            while scsc < scan + len
                invariant
                    scan_entry <= scsc,
                    scsc <= nlen,
                    scan + len <= nlen,
                    oldscore <= scsc,
                    oldscore >= -(scan - scan_entry),
                    scan == scan_entry ==> oldscore >= 0,
                    olen == 0 ==> oldscore == 0,
                decreases scan + len - scsc,
            {
                let off: i64 = scsc + lastoffset;
                if off < olen as i64 {
                    let ob: u8 = *vstd::slice::slice_index_get(old_buf, off as usize);
                    let nb: u8 = *vstd::slice::slice_index_get(new_buf, scsc as usize);
                    if ob == nb {
                        oldscore = oldscore + 1;
                    }
                }
                scsc = scsc + 1;
            }
            if (len == oldscore && len != 0) || (len > oldscore + 8) {
                found = true;
            } else {
                let off: i64 = scan + lastoffset;
                if off < olen as i64 {
                    let ob: u8 = *vstd::slice::slice_index_get(old_buf, off as usize);
                    let nb: u8 = *vstd::slice::slice_index_get(new_buf, scan as usize);
                    if ob == nb {
                        oldscore = oldscore - 1;
                    }
                }
                if prev_len - 8 <= len && len <= prev_len && prev_oldscore - 8 <= oldscore
                    && oldscore <= prev_oldscore && prev_pos <= pos && pos <= prev_pos + 8
                    && oldscore <= len && len <= oldscore + 8 {
                    stuck = stuck + 1;
                } else {
                    stuck = 0;
                }
                if stuck > 100 {
                    found = true;
                } else {
                    scan = scan + 1;
                }
            }
        }
        if len != oldscore || scan == nlen as i64 {
            let mut s: i64 = 0;
            let mut s_f: i64 = 0;
            let mut lenf: i64 = 0;
            let mut i: i64 = 0;
            while lastscan + i < scan && lastpos + i < olen as i64
                invariant
                    0 <= i,
                    lastscan + i <= scan,
                    lastpos + i <= olen,
                    0 <= s <= i,
                    0 <= s_f <= i,
                    0 <= lenf <= i,
                    lastscan + lenf <= scan,
                    lastpos + lenf <= olen,
                    olen == 0 ==> i == 0 && lenf == 0,
                decreases scan - (lastscan + i),
            {
                let ob: u8 = *vstd::slice::slice_index_get(old_buf, (lastpos + i) as usize);
                let nb: u8 = *vstd::slice::slice_index_get(new_buf, (lastscan + i) as usize);
                if ob == nb {
                    s = s + 1;
                }
                i = i + 1;
                if s * 2 - i > s_f * 2 - lenf {
                    s_f = s;
                    lenf = i;
                }
            }
            let mut lenb: i64 = 0;
            if scan < nlen as i64 {
                let mut sb: i64 = 0;
                let mut s_b: i64 = 0;
                let mut ib: i64 = 1;
                while scan >= lastscan + ib && pos >= ib
                    invariant
                        1 <= ib,
                        ib <= pos + 1,
                        0 <= sb <= ib,
                        0 <= s_b <= ib,
                        0 <= lenb,
                        lenb <= ib - 1,
                        lenb <= scan - lastscan,
                        lenb <= pos,
                    decreases scan + 1 - (lastscan + ib),
                {
                    let ob: u8 = *vstd::slice::slice_index_get(old_buf, (pos - ib) as usize);
                    let nb: u8 = *vstd::slice::slice_index_get(new_buf, (scan - ib) as usize);
                    if ob == nb {
                        sb = sb + 1;
                    }
                    if sb * 2 - ib > s_b * 2 - lenb {
                        s_b = sb;
                        lenb = ib;
                    }
                    ib = ib + 1;
                }
            }
            if lastscan + lenf > scan - lenb {
                let overlap: i64 = (lastscan + lenf) - (scan - lenb);
                let mut ss: i64 = 0;
                let mut s_s: i64 = 0;
                let mut lens: i64 = 0;
                let mut io: i64 = 0;
                while io < overlap
                    invariant
                        0 <= io <= overlap,
                        0 <= s_s <= io,
                        0 <= lens <= io,
                        lens <= overlap,
                        -io <= ss <= io,
                    decreases overlap - io,
                {
                    let nb1: u8 = *vstd::slice::slice_index_get(
                        new_buf,
                        (lastscan + lenf - overlap + io) as usize,
                    );
                    let ob1: u8 = *vstd::slice::slice_index_get(
                        old_buf,
                        (lastpos + lenf - overlap + io) as usize,
                    );
                    if nb1 == ob1 {
                        ss = ss + 1;
                    }
                    let nb2: u8 = *vstd::slice::slice_index_get(new_buf, (scan - lenb + io) as usize);
                    let ob2: u8 = *vstd::slice::slice_index_get(old_buf, (pos - lenb + io) as usize);
                    if nb2 == ob2 {
                        ss = ss - 1;
                    }
                    if ss > s_s {
                        s_s = ss;
                        lens = io + 1;
                    }
                    io = io + 1;
                }
                lenf = lenf + lens - overlap;
                lenb = lenb - lens;
            }
            let diff_v: i64 = lenf;
            let extra_v: i64 = (scan - lenb) - (lastscan + lenf);
            let seek_v: i64 = (pos - lenb) - (lastpos + lenf);
            // An all-zero triple would read as the terminator. It can only
            // arise here when the record moves neither anchor, so writing
            // nothing leaves the patch and the scan state the same.
            if diff_v != 0 || extra_v != 0 || seek_v != 0 {
                let ghost bpre = patch@;
                push_record(patch, old_buf, new_buf, lastscan, lastpos, diff_v, extra_v, seek_v);
                proof {
                    let b = bpre.subrange(base, bpre.len() as int);
                    let rec = patch@.skip(bpre.len() as int);
                    lemma_resumes_step(
                        old_buf@,
                        b,
                        rec,
                        lastpos as int,
                        new_buf@.take(lastscan as int),
                        nlen as int,
                    );
                    assert(b + rec =~= patch@.subrange(base, patch@.len() as int));
                    assert(new_buf@.take(lastscan as int) + rec_output(old_buf@, rec, lastpos as int)
                        =~= new_buf@.take(scan - lenb));
                    assert(lastpos + rec_diff(rec) + rec_seek(rec) == pos - lenb);
                    assert forall|x: int| 0 <= x < bpre.len() implies patch@[x] == bpre[x] by {
                        assert(patch@.subrange(0, bpre.len() as int)[x] == bpre[x]);
                    };
                    assert(patch@.subrange(0, pre.len() as int) =~= bpre.subrange(
                        0,
                        pre.len() as int,
                    ));
                    assert(patch@.subrange(pre.len() as int, pre.len() as int + 8) =~= bpre.subrange(
                        pre.len() as int,
                        pre.len() as int + 8,
                    ));
                    assert(patch@.subrange(pre.len() as int + 8, base) =~= bpre.subrange(
                        pre.len() as int + 8,
                        base,
                    ));
                    if olen == 0 {
                        assert(bpre.len() == base);
                        assert(rec =~= patch@.subrange(base, patch@.len() as int));
                        assert(rec.subrange(24, 24 + nlen as int) =~= new_buf@) by {
                            assert(rec_output(old_buf@, rec, lastpos as int) =~= rec.subrange(
                                24,
                                24 + nlen as int,
                            ));
                            assert(new_buf@.subrange(0, nlen as int) =~= new_buf@);
                        };
                    }
                }
            } else {
                proof {
                    assert(lenf == 0);
                    assert(scan - lenb == lastscan);
                    assert(pos - lenb == lastpos);
                }
            }
            lastscan = scan - lenb;
            lastpos = pos - lenb;
            lastoffset = pos - scan;
        }
    }
    let ghost bfin = patch@;
    write_ending(patch);
    proof {
        let body = bfin.subrange(base, bfin.len() as int);
        let term = patch@.skip(bfin.len() as int);
        assert(new_buf@.take(lastscan as int) =~= new_buf@);
        assert(apply_entries(old_buf@, term, lastpos as int, new_buf@, nlen as int) == Some(
            (new_buf@, 24int),
        ));
        assert forall|x: int| 0 <= x < bfin.len() implies patch@[x] == bfin[x] by {
            assert(patch@.subrange(0, bfin.len() as int)[x] == bfin[x]);
        };
        assert(patch@.subrange(base, patch@.len() as int) =~= body + term);
        assert(apply_entries(old_buf@, body + term, 0, Seq::<u8>::empty(), nlen as int) == shifted(
            apply_entries(
                old_buf@,
                term,
                lastpos as int,
                new_buf@.take(lastscan as int),
                nlen as int,
            ),
            body.len() as int,
        ));
        let emitted = patch@.skip(pre.len() as int);
        assert(emitted.subrange(0, 8) =~= bfin.subrange(pre.len() as int, pre.len() as int + 8));
        assert(emitted.subrange(8, 16) =~= bfin.subrange(pre.len() as int + 8, base));
        assert(patch_header_ok(emitted));
        assert(declared_size(emitted) == nlen);
        assert(emitted.skip(16) =~= body + term);
        assert(patch@.subrange(0, pre.len() as int) =~= bfin.subrange(0, pre.len() as int));
        assert(emitted.len() == 16 + body.len() + 24);
        assert(apply_patch(old_buf@, emitted) == Some((new_buf@, emitted.len() as int)));
        if nlen == 0 {
            assert(bfin.len() == base);
            assert(emitted.len() == 40);
            assert(emitted.subrange(16, 24) =~= term.subrange(0, 8));
            assert(emitted.subrange(24, 32) =~= term.subrange(8, 16));
            assert(emitted.subrange(32, 40) =~= term.subrange(16, 24));
            assert(le_u64(term.subrange(16, 24)) == 0) by {
                crate::codec::lemma_le_u64_8(term.subrange(16, 24));
            };
            lemma_empty_patch_bytes(emitted);
        }
        if olen == 0 && nlen > 0 {
            let recb = bfin.subrange(base, bfin.len() as int);
            let recf = patch@.subrange(base, base + 24 + nlen as int);
            assert(recf =~= recb);
            assert(recf.subrange(24, 24 + nlen as int) =~= recb.subrange(24, 24 + nlen as int));
            assert(recf.subrange(0, 8) =~= recb.subrange(0, 8));
            assert(recf.subrange(8, 16) =~= recb.subrange(8, 16));
            assert(recf.subrange(16, 24) =~= recb.subrange(16, 24));
            assert(patch@.len() == pre.len() + 64 + nlen);
        }
    }
    Ok(())
}


/// Generate a delta patch as one or more independent sub-patches, each
/// covering at most `chunk_sizes` bytes of either side (capped at
/// 2^31 - 2; `None` means that cap). Unlike [`generate`] this has no input
/// size limit, but the output must be applied with
/// [`apply_chunked`][crate::patch::apply_chunked], not
/// [`apply`][crate::patch::apply].
///
/// Always succeeds, and the appended bytes reconstruct `new_buf` from
/// `old_buf` under the chunked semantics: the chunked round-trip property,
/// stated through [`apply_chunked_from`].
/// The chunk size the chunked generator actually uses: the given one,
/// capped at 2^31 - 2; `None` means the cap itself.
pub open spec fn spec_chunk(chunk_sizes: Option<usize>) -> int {
    match chunk_sizes {
        Some(c) => if c > 0x7fff_fffe {
            0x7fff_fffe
        } else {
            c as int
        },
        None => 0x7fff_fffe,
    }
}

#[verifier::loop_isolation(false)]
#[verifier::rlimit(60)]
pub fn generate_chunked(
    old_buf: &[u8],
    new_buf: &[u8],
    patch: &mut Vec<u8>,
    chunk_sizes: Option<usize>,
) -> (r: Result<(), DiffError>)
    requires
        chunk_sizes matches Some(c) ==> c >= 1,
    ensures
        r is Ok,
        final(patch)@.len() >= old(patch)@.len(),
        final(patch)@.subrange(0, old(patch)@.len() as int) == old(patch)@,
        apply_chunked_from(
            old_buf@,
            final(patch)@.skip(old(patch)@.len() as int),
            Seq::empty(),
        ) == Some(new_buf@),
        new_buf@.len() == 0 ==> final(patch)@.skip(old(patch)@.len() as int)
            == magic() + Seq::new(32, |i: int| 0u8),
        ({
            let n = subpatch_count(
                old_buf@,
                final(patch)@.skip(old(patch)@.len() as int),
                Seq::empty(),
            );
            if new_buf@.len() == 0 {
                n == 1
            } else {
                (n - 1) * spec_chunk(chunk_sizes) < new_buf@.len()
                    <= n * spec_chunk(chunk_sizes)
            }
        }),
{
    let c: usize = match chunk_sizes {
        Some(c) => if c > 0x7fff_fffe {
            0x7fff_fffe
        } else {
            c
        },
        None => 0x7fff_fffe,
    };
    let olen: usize = old_buf.len();
    let nlen: usize = new_buf.len();
    let ghost pre = patch@;
    if nlen == 0 {
        write_header(patch, 0);
        let ghost h = patch@;
        write_ending(patch);
        proof {
            assert forall|x: int| 0 <= x < h.len() implies patch@[x] == h[x] by {
                assert(patch@.subrange(0, h.len() as int)[x] == h[x]);
            };
            let emitted = patch@.skip(pre.len() as int);
            let term = patch@.skip(h.len() as int);
            assert(emitted.subrange(0, 8) =~= h.subrange(pre.len() as int, pre.len() as int + 8));
            assert(emitted.subrange(8, 16) =~= h.subrange(
                pre.len() as int + 8,
                pre.len() as int + 16,
            ));
            assert(patch_header_ok(emitted));
            assert(declared_size(emitted) == 0);
            assert(emitted.skip(16) =~= term);
            assert(apply_entries(old_buf@, term, 0, Seq::<u8>::empty(), 0) == Some(
                (Seq::<u8>::empty(), 24int),
            ));
            assert(apply_patch_at(old_buf@, emitted, 0) == Some((Seq::<u8>::empty(), 40int)));
            assert(emitted.skip(40) =~= Seq::<u8>::empty());
            assert(Seq::<u8>::empty() + Seq::<u8>::empty() =~= Seq::<u8>::empty());
            assert(apply_chunked_from(old_buf@, Seq::<u8>::empty(), Seq::<u8>::empty()) == Some(
                Seq::<u8>::empty(),
            ));
            assert(apply_chunked_from(old_buf@, emitted, Seq::<u8>::empty()) == Some(
                Seq::<u8>::empty(),
            ));
            assert(new_buf@ =~= Seq::<u8>::empty());
            assert(patch@.subrange(0, pre.len() as int) =~= pre);
            assert(emitted.len() == 40);
            assert(emitted.subrange(16, 24) =~= term.subrange(0, 8));
            assert(emitted.subrange(24, 32) =~= term.subrange(8, 16));
            assert(emitted.subrange(32, 40) =~= term.subrange(16, 24));
            assert(le_u64(term.subrange(16, 24)) == 0) by {
                crate::codec::lemma_le_u64_8(term.subrange(16, 24));
            };
            lemma_empty_patch_bytes(emitted);
            assert(subpatch_count(old_buf@, Seq::<u8>::empty(), Seq::<u8>::empty() + Seq::<u8>::empty()) == 0);
            assert(emitted.skip(40) =~= Seq::<u8>::empty());
            assert(subpatch_count(old_buf@, emitted, Seq::<u8>::empty()) == 1);
        }
        return Ok(());
    }
    let mut off: usize = 0;
    let ghost mut gcount: int = 0;
    proof {
        assert(c as int == spec_chunk(chunk_sizes));
        lemma_chunk_resumes_init(old_buf@);
        assert(patch@.subrange(pre.len() as int, patch@.len() as int) =~= Seq::<u8>::empty());
        assert(new_buf@.take(0) =~= Seq::<u8>::empty());
        assert(patch@.subrange(0, pre.len() as int) =~= pre);
    }
    while off < nlen
        invariant
            0 <= off <= nlen,
            patch@.len() >= pre.len(),
            patch@.subrange(0, pre.len() as int) == pre,
            chunk_resumes_at(
                old_buf@,
                patch@.subrange(pre.len() as int, patch@.len() as int),
                new_buf@.take(off as int),
                gcount,
            ),
            0 <= gcount,
            off == gcount * c || (off == nlen && (gcount - 1) * c < nlen <= gcount * c),
        decreases nlen - off,
    {
        let nrem: usize = nlen - off;
        let ntake: usize = if nrem < c {
            nrem
        } else {
            c
        };
        let hi_n: usize = off + ntake;
        let old_lo: usize = if off < olen {
            off
        } else {
            olen
        };
        let orem: usize = olen - old_lo;
        let otake: usize = if orem < c {
            orem
        } else {
            c
        };
        let old_hi: usize = old_lo + otake;
        let oc: &[u8] = vstd::slice::slice_subrange(old_buf, old_lo, old_hi);
        let nc: &[u8] = vstd::slice::slice_subrange(new_buf, off, hi_n);
        let ghost bpre = patch@;
        match generate(oc, nc, patch) {
            Ok(()) => {},
            Err(e) => {
                proof {
                    assert(false);
                }
                return Err(e);
            },
        }
        proof {
            let b = bpre.subrange(pre.len() as int, bpre.len() as int);
            let sub = patch@.skip(bpre.len() as int);
            let decl = declared_size(sub);
            let rr0 = apply_entries(oc@, sub.skip(16), 0, Seq::<u8>::empty(), decl);
            assert(apply_patch(oc@, sub) == Some((nc@, sub.len() as int)));
            match rr0 {
                Some(r0) => {
                    assert(r0.0 == nc@ && 16 + r0.1 == sub.len());
                    assert(oc@ =~= old_buf@.subrange(old_lo as int, old_hi as int));
                    if off <= olen {
                        lemma_entries_window(
                            old_buf@,
                            old_lo as int,
                            old_hi as int,
                            sub.skip(16),
                            0,
                            Seq::<u8>::empty(),
                            decl,
                            r0,
                        );
                        assert(apply_entries(
                            old_buf@,
                            sub.skip(16),
                            off as int,
                            Seq::<u8>::empty(),
                            decl,
                        ) == Some(r0));
                    } else {
                        assert(old_lo == olen && old_hi == olen);
                        lemma_entries_no_reads(
                            old_buf@,
                            olen as int,
                            sub.skip(16),
                            0,
                            off as int,
                            Seq::<u8>::empty(),
                            decl,
                            r0,
                        );
                    }
                    assert(new_buf@.take(off as int).len() == off);
                    assert(apply_patch_at(old_buf@, sub, off as int) == Some(
                        (nc@, sub.len() as int),
                    ));
                    lemma_chunk_resumes_step(old_buf@, b, sub, new_buf@.take(off as int), nc@, gcount);
                    assert(b + sub =~= patch@.subrange(pre.len() as int, patch@.len() as int));
                    assert(nc@ =~= new_buf@.subrange(off as int, hi_n as int));
                    assert(new_buf@.take(off as int) + nc@ =~= new_buf@.take(hi_n as int));
                    assert forall|x: int| 0 <= x < bpre.len() implies patch@[x] == bpre[x] by {
                        assert(patch@.subrange(0, bpre.len() as int)[x] == bpre[x]);
                    };
                    assert(patch@.subrange(0, pre.len() as int) =~= bpre.subrange(
                        0,
                        pre.len() as int,
                    ));
                },
                None => {
                    assert(false);
                },
            }
        }
        proof {
            assert((gcount + 1) * c == gcount * c + c) by (nonlinear_arith);
            gcount = gcount + 1;
        }
        off = hi_n;
    }
    proof {
        let b = patch@.subrange(pre.len() as int, patch@.len() as int);
        assert(b + Seq::<u8>::empty() =~= b);
        assert(apply_chunked_from(old_buf@, b, Seq::<u8>::empty()) == apply_chunked_from(
            old_buf@,
            Seq::<u8>::empty(),
            new_buf@.take(off as int),
        ));
        assert(new_buf@.take(off as int) =~= new_buf@);
        assert(patch@.skip(pre.len() as int) =~= b);
        assert(subpatch_count(old_buf@, b + Seq::<u8>::empty(), Seq::<u8>::empty())
            == gcount + subpatch_count(old_buf@, Seq::<u8>::empty(), new_buf@.take(off as int)));
        assert(subpatch_count(old_buf@, Seq::<u8>::empty(), new_buf@.take(off as int)) == 0);
        assert((gcount - 1) * c == gcount * c - c) by (nonlinear_arith);
    }
    Ok(())
}

} // verus!
