//! Wire format of a patch and its mathematical semantics.
//!
//! A patch is a 16-byte header (8-byte magic, 8-byte little-endian declared
//! output size) followed by entry records. Each record is a 24-byte triple
//! `(diff, extra, seek)` — two unsigned and one signed little-endian 64-bit
//! integer — followed by `diff` bytes of byte-wise differences against the
//! old buffer and `extra` bytes of literal data. The all-zero triple ends the
//! patch. `apply_entries` gives the meaning of a record stream; the applier
//! and the generator are both specified against it.

use vstd::prelude::*;

verus! {

/// The eight magic bytes `DDELTA40` that open every patch header.
pub open spec fn magic() -> Seq<u8> {
    seq![0x44u8, 0x44u8, 0x45u8, 0x4cu8, 0x54u8, 0x41u8, 0x34u8, 0x30u8]
}

/// Value of a little-endian byte sequence, least significant byte first.
pub open spec fn le_u64(s: Seq<u8>) -> nat
    decreases s.len(),
{
    if s.len() == 0 {
        0
    } else {
        (s[0] + 256 * le_u64(s.drop_first())) as nat
    }
}

/// Value of an 8-byte little-endian sequence read as a two's-complement
/// signed 64-bit integer.
pub open spec fn le_i64(s: Seq<u8>) -> int {
    if le_u64(s) < 0x8000_0000_0000_0000 {
        le_u64(s) as int
    } else {
        le_u64(s) - 0x1_0000_0000_0000_0000
    }
}

/// Closed form of `le_u64` on an 8-byte sequence.
pub proof fn lemma_le_u64_8(t: Seq<u8>)
    requires
        t.len() == 8,
    ensures
        le_u64(t) == t[0] + 0x100 * t[1] + 0x10000 * t[2] + 0x1000000 * t[3]
            + 0x100000000 * t[4] + 0x10000000000 * t[5] + 0x1000000000000 * t[6]
            + 0x100000000000000 * t[7],
        le_u64(t) < 0x1_0000_0000_0000_0000,
{
    let t1 = t.drop_first();
    let t2 = t1.drop_first();
    let t3 = t2.drop_first();
    let t4 = t3.drop_first();
    let t5 = t4.drop_first();
    let t6 = t5.drop_first();
    let t7 = t6.drop_first();
    let t8 = t7.drop_first();
    assert(t8.len() == 0);
    assert(t7[0] == t[7]);
    assert(t6[0] == t[6]);
    assert(t5[0] == t[5]);
    assert(t4[0] == t[4]);
    assert(t3[0] == t[3]);
    assert(t2[0] == t[2]);
    assert(t1[0] == t[1]);
    assert(le_u64(t8) == 0);
    assert(le_u64(t7) == t[7]);
    assert(le_u64(t6) == t[6] + 256 * le_u64(t7));
    assert(le_u64(t5) == t[5] + 256 * le_u64(t6));
    assert(le_u64(t4) == t[4] + 256 * le_u64(t5));
    assert(le_u64(t3) == t[3] + 256 * le_u64(t4));
    assert(le_u64(t2) == t[2] + 256 * le_u64(t3));
    assert(le_u64(t1) == t[1] + 256 * le_u64(t2));
    assert(le_u64(t) == t[0] + 256 * le_u64(t1));
}

/// Eight little-endian bytes with value zero are all zero.
pub proof fn lemma_le_u64_zero(t: Seq<u8>)
    requires
        t.len() == 8,
        le_u64(t) == 0,
    ensures
        forall|i: int| 0 <= i < 8 ==> t[i] == 0,
{
    lemma_le_u64_8(t);
}

/// A 40-byte patch whose declared size and terminator fields are zero is
/// the magic followed by 32 zero bytes: the empty patch, byte for byte.
pub proof fn lemma_empty_patch_bytes(p: Seq<u8>)
    requires
        p.len() == 40,
        p.subrange(0, 8) == magic(),
        le_u64(p.subrange(8, 16)) == 0,
        le_u64(p.subrange(16, 24)) == 0,
        le_u64(p.subrange(24, 32)) == 0,
        le_u64(p.subrange(32, 40)) == 0,
    ensures
        p == magic() + Seq::new(32, |i: int| 0u8),
{
    let zeros = Seq::new(32, |i: int| 0u8);
    lemma_le_u64_zero(p.subrange(8, 16));
    lemma_le_u64_zero(p.subrange(16, 24));
    lemma_le_u64_zero(p.subrange(24, 32));
    lemma_le_u64_zero(p.subrange(32, 40));
    assert forall|i: int| 0 <= i < 40 implies p[i] == (magic() + zeros)[i] by {
        if i < 8 {
            assert(p[i] == p.subrange(0, 8)[i]);
        } else if i < 16 {
            assert(p[i] == p.subrange(8, 16)[i - 8]);
        } else if i < 24 {
            assert(p[i] == p.subrange(16, 24)[i - 16]);
        } else if i < 32 {
            assert(p[i] == p.subrange(24, 32)[i - 24]);
        } else {
            assert(p[i] == p.subrange(32, 40)[i - 32]);
        }
    };
    assert(p =~= magic() + zeros);
}

/// Meaning of a record stream `p`, applied against `old` with the old-file
/// cursor at `cursor` and the output built so far in `acc`. `declared` is the
/// output size promised by the enclosing header, checked at the terminator.
/// Returns the full output together with the number of bytes of `p` consumed
/// (terminator included), or `None` if the stream is malformed: truncated,
/// reading outside `old`, or ending with the wrong output size.
pub open spec fn apply_entries(
    old: Seq<u8>,
    p: Seq<u8>,
    cursor: int,
    acc: Seq<u8>,
    declared: int,
) -> Option<(Seq<u8>, int)>
    decreases p.len(),
{
    if p.len() < 24 {
        None
    } else {
        let diff = le_u64(p.subrange(0, 8)) as int;
        let extra = le_u64(p.subrange(8, 16)) as int;
        let seek = le_i64(p.subrange(16, 24));
        if diff == 0 && extra == 0 && seek == 0 {
            if acc.len() == declared {
                Some((acc, 24))
            } else {
                None
            }
        } else if p.len() < 24 + diff + extra {
            None
        } else if diff > 0 && !(0 <= cursor && cursor + diff <= old.len()) {
            None
        } else {
            let chunk = Seq::new(diff as nat, |i: int| old[cursor + i].wrapping_add(p[24 + i]))
                + p.subrange(24 + diff, 24 + diff + extra);
            match apply_entries(old, p.skip(24 + diff + extra), cursor + diff + seek, acc + chunk, declared) {
                Some(r) => Some((r.0, 24 + diff + extra + r.1)),
                None => None,
            }
        }
    }
}

/// A patch begins with the magic bytes and a declared output size.
pub open spec fn patch_header_ok(p: Seq<u8>) -> bool {
    p.len() >= 16 && p.subrange(0, 8) == magic()
}

/// The output size a patch declares in its header.
pub open spec fn declared_size(p: Seq<u8>) -> int {
    le_u64(p.subrange(8, 16)) as int
}

/// Meaning of one whole patch applied against `old` with the old-file cursor
/// starting at `start`: the reconstructed output and the number of patch
/// bytes consumed. Bytes after the terminator are left to the caller.
pub open spec fn apply_patch_at(old: Seq<u8>, p: Seq<u8>, start: int) -> Option<(Seq<u8>, int)> {
    if patch_header_ok(p) {
        match apply_entries(old, p.skip(16), start, Seq::empty(), declared_size(p)) {
            Some(r) => Some((r.0, 16 + r.1)),
            None => None,
        }
    } else {
        None
    }
}

/// Meaning of a single-patch stream: applied from the start of `old`.
pub open spec fn apply_patch(old: Seq<u8>, p: Seq<u8>) -> Option<(Seq<u8>, int)> {
    apply_patch_at(old, p, 0)
}

/// Meaning of a chunked stream: sub-patches back to back, each applied with
/// the old-file cursor reset to the number of output bytes accumulated so
/// far; running out of bytes exactly at a header boundary is the normal end.
pub open spec fn apply_chunked_from(old: Seq<u8>, p: Seq<u8>, acc: Seq<u8>) -> Option<Seq<u8>>
    decreases p.len(),
{
    if p.len() == 0 {
        Some(acc)
    } else {
        match apply_patch_at(old, p, acc.len() as int) {
            Some(r) => if 0 < r.1 <= p.len() {
                apply_chunked_from(old, p.skip(r.1), acc + r.0)
            } else {
                None
            },
            None => None,
        }
    }
}

/// The number of complete sub-patches a chunked stream consists of: how
/// many header-to-terminator units `apply_chunked_from` walks through.
pub open spec fn subpatch_count(old: Seq<u8>, p: Seq<u8>, acc: Seq<u8>) -> int
    decreases p.len(),
{
    if p.len() == 0 {
        0
    } else {
        match apply_patch_at(old, p, acc.len() as int) {
            Some(r) => if 0 < r.1 <= p.len() {
                1 + subpatch_count(old, p.skip(r.1), acc + r.0)
            } else {
                1
            },
            None => 1,
        }
    }
}

/// The `diff` field of the record starting `rec`.
pub open spec fn rec_diff(rec: Seq<u8>) -> int {
    le_u64(rec.subrange(0, 8)) as int
}

/// The `extra` field of the record starting `rec`.
pub open spec fn rec_extra(rec: Seq<u8>) -> int {
    le_u64(rec.subrange(8, 16)) as int
}

/// The `seek` field of the record starting `rec`.
pub open spec fn rec_seek(rec: Seq<u8>) -> int {
    le_i64(rec.subrange(16, 24))
}

/// `rec` is exactly one non-terminator record whose difference span lies
/// inside `old` when the cursor stands at `cursor`.
pub open spec fn rec_wellformed(old: Seq<u8>, rec: Seq<u8>, cursor: int) -> bool {
    &&& rec.len() >= 24
    &&& rec.len() == 24 + rec_diff(rec) + rec_extra(rec)
    &&& !(rec_diff(rec) == 0 && rec_extra(rec) == 0 && rec_seek(rec) == 0)
    &&& (rec_diff(rec) > 0 ==> 0 <= cursor && cursor + rec_diff(rec) <= old.len())
}

/// The output bytes one record contributes: the difference span added back
/// onto `old` at `cursor`, then the literal span verbatim.
pub open spec fn rec_output(old: Seq<u8>, rec: Seq<u8>, cursor: int) -> Seq<u8> {
    Seq::new(rec_diff(rec) as nat, |i: int| old[cursor + i].wrapping_add(rec[24 + i]))
        + rec.subrange(24 + rec_diff(rec), 24 + rec_diff(rec) + rec_extra(rec))
}

/// `r` with its consumed-bytes count moved forward by `n`.
pub open spec fn shifted(r: Option<(Seq<u8>, int)>, n: int) -> Option<(Seq<u8>, int)> {
    match r {
        Some(p) => Some((p.0, p.1 + n)),
        None => None,
    }
}

/// The record stream `b` parses completely without reaching a terminator,
/// leaving the cursor at `cursor` and the output at `acc`: whatever records
/// follow, parsing `b + rest` is parsing `rest` from that state.
pub open spec fn resumes_at(old: Seq<u8>, b: Seq<u8>, cursor: int, acc: Seq<u8>, declared: int) -> bool {
    forall|rest: Seq<u8>|
        #[trigger] apply_entries(old, b + rest, 0, Seq::empty(), declared)
            == shifted(apply_entries(old, rest, cursor, acc, declared), b.len() as int)
}

/// An empty record stream resumes at the initial state.
pub proof fn lemma_resumes_init(old: Seq<u8>, declared: int)
    ensures
        resumes_at(old, Seq::empty(), 0, Seq::empty(), declared),
{
    assert forall|rest: Seq<u8>|
        #[trigger] apply_entries(old, Seq::<u8>::empty() + rest, 0, Seq::<u8>::empty(), declared)
            == shifted(apply_entries(old, rest, 0, Seq::<u8>::empty(), declared), Seq::<u8>::empty().len() as int)
    by {
        assert(Seq::<u8>::empty() + rest =~= rest);
        let r = apply_entries(old, rest, 0, Seq::<u8>::empty(), declared);
        match r {
            Some(p) => {}
            None => {}
        }
    }
}

/// Parsing one well-formed record then `rest` is parsing `rest` from the
/// advanced state.
pub proof fn lemma_entries_record(
    old: Seq<u8>,
    rec: Seq<u8>,
    rest: Seq<u8>,
    cursor: int,
    acc: Seq<u8>,
    declared: int,
)
    requires
        rec_wellformed(old, rec, cursor),
    ensures
        apply_entries(old, rec + rest, cursor, acc, declared) == shifted(
            apply_entries(
                old,
                rest,
                cursor + rec_diff(rec) + rec_seek(rec),
                acc + rec_output(old, rec, cursor),
                declared,
            ),
            rec.len() as int,
        ),
{
    let p = rec + rest;
    let d = rec_diff(rec);
    let e = rec_extra(rec);
    let s = rec_seek(rec);
    assert(p.subrange(0, 8) =~= rec.subrange(0, 8));
    assert(p.subrange(8, 16) =~= rec.subrange(8, 16));
    assert(p.subrange(16, 24) =~= rec.subrange(16, 24));
    let chunk = Seq::new(d as nat, |i: int| old[cursor + i].wrapping_add(p[24 + i]))
        + p.subrange(24 + d, 24 + d + e);
    assert(chunk =~= rec_output(old, rec, cursor)) by {
        assert(p.subrange(24 + d, 24 + d + e) =~= rec.subrange(24 + d, 24 + d + e));
        assert(forall|i: int| 0 <= i < d ==> #[trigger] p[24 + i] == rec[24 + i]);
    };
    assert(p.skip(24 + d + e) =~= rest);
    let r = apply_entries(old, rest, cursor + d + s, acc + chunk, declared);
    match r {
        Some(q) => {}
        None => {}
    }
}

/// Extending a resumable stream by one well-formed record.
pub proof fn lemma_resumes_step(
    old: Seq<u8>,
    b: Seq<u8>,
    rec: Seq<u8>,
    cursor: int,
    acc: Seq<u8>,
    declared: int,
)
    requires
        resumes_at(old, b, cursor, acc, declared),
        rec_wellformed(old, rec, cursor),
    ensures
        resumes_at(
            old,
            b + rec,
            cursor + rec_diff(rec) + rec_seek(rec),
            acc + rec_output(old, rec, cursor),
            declared,
        ),
{
    let cursor2 = cursor + rec_diff(rec) + rec_seek(rec);
    let acc2 = acc + rec_output(old, rec, cursor);
    assert forall|rest: Seq<u8>|
        #[trigger] apply_entries(old, (b + rec) + rest, 0, Seq::<u8>::empty(), declared)
            == shifted(apply_entries(old, rest, cursor2, acc2, declared), (b + rec).len() as int)
    by {
        assert((b + rec) + rest =~= b + (rec + rest));
        assert(apply_entries(old, b + (rec + rest), 0, Seq::<u8>::empty(), declared)
            == shifted(apply_entries(old, rec + rest, cursor, acc, declared), b.len() as int));
        lemma_entries_record(old, rec, rest, cursor, acc, declared);
        let r = apply_entries(old, rest, cursor2, acc2, declared);
        match r {
            Some(q) => {}
            None => {}
        }
    }
}

/// A stream that parses to completion still does so with more bytes after
/// its terminator, consuming the same prefix.
pub proof fn lemma_entries_extend(
    old: Seq<u8>,
    p: Seq<u8>,
    rest: Seq<u8>,
    cursor: int,
    acc: Seq<u8>,
    declared: int,
    r: (Seq<u8>, int),
)
    requires
        apply_entries(old, p, cursor, acc, declared) == Some(r),
    ensures
        apply_entries(old, p + rest, cursor, acc, declared) == Some(r),
    decreases p.len(),
{
    let q = p + rest;
    assert(q.subrange(0, 8) =~= p.subrange(0, 8));
    assert(q.subrange(8, 16) =~= p.subrange(8, 16));
    assert(q.subrange(16, 24) =~= p.subrange(16, 24));
    let d = le_u64(p.subrange(0, 8)) as int;
    let e = le_u64(p.subrange(8, 16)) as int;
    let s = le_i64(p.subrange(16, 24));
    if d == 0 && e == 0 && s == 0 {
    } else {
        let chunk = Seq::new(d as nat, |i: int| old[cursor + i].wrapping_add(p[24 + i]))
            + p.subrange(24 + d, 24 + d + e);
        let chunk2 = Seq::new(d as nat, |i: int| old[cursor + i].wrapping_add(q[24 + i]))
            + q.subrange(24 + d, 24 + d + e);
        assert(chunk2 =~= chunk) by {
            assert(q.subrange(24 + d, 24 + d + e) =~= p.subrange(24 + d, 24 + d + e));
            assert(forall|i: int| 0 <= i < d ==> #[trigger] q[24 + i] == p[24 + i]);
        };
        assert(q.skip(24 + d + e) =~= p.skip(24 + d + e) + rest);
        let sub = apply_entries(old, p.skip(24 + d + e), cursor + d + s, acc + chunk, declared);
        match sub {
            Some(r2) => {
                lemma_entries_extend(
                    old,
                    p.skip(24 + d + e),
                    rest,
                    cursor + d + s,
                    acc + chunk,
                    declared,
                    r2,
                );
            }
            None => {
                assert(false);
            }
        }
    }
}

/// A stream that applies against a window of `old` applies the same way
/// against the whole of `old` with the cursor moved past the window's start.
pub proof fn lemma_entries_window(
    old: Seq<u8>,
    lo: int,
    hi: int,
    p: Seq<u8>,
    cursor: int,
    acc: Seq<u8>,
    declared: int,
    r: (Seq<u8>, int),
)
    requires
        0 <= lo <= hi <= old.len(),
        apply_entries(old.subrange(lo, hi), p, cursor, acc, declared) == Some(r),
    ensures
        apply_entries(old, p, cursor + lo, acc, declared) == Some(r),
    decreases p.len(),
{
    let w = old.subrange(lo, hi);
    let d = le_u64(p.subrange(0, 8)) as int;
    let e = le_u64(p.subrange(8, 16)) as int;
    let s = le_i64(p.subrange(16, 24));
    if d == 0 && e == 0 && s == 0 {
    } else {
        let chunk = Seq::new(d as nat, |i: int| w[cursor + i].wrapping_add(p[24 + i]))
            + p.subrange(24 + d, 24 + d + e);
        let chunk2 = Seq::new(d as nat, |i: int| old[cursor + lo + i].wrapping_add(p[24 + i]))
            + p.subrange(24 + d, 24 + d + e);
        assert(chunk2 =~= chunk) by {
            assert(forall|i: int| 0 <= i < d ==> #[trigger] old[cursor + lo + i] == w[cursor + i]);
        };
        let sub = apply_entries(old.subrange(lo, hi), p.skip(24 + d + e), cursor + d + s, acc + chunk, declared);
        match sub {
            Some(r2) => {
                lemma_entries_window(
                    old,
                    lo,
                    hi,
                    p.skip(24 + d + e),
                    cursor + d + s,
                    acc + chunk,
                    declared,
                    r2,
                );
            }
            None => {
                assert(false);
            }
        }
    }
}

/// A stream that applies against an empty window reads nothing from `old`,
/// so it applies identically from any cursor.
pub proof fn lemma_entries_no_reads(
    old: Seq<u8>,
    lo: int,
    p: Seq<u8>,
    cursor: int,
    cursor2: int,
    acc: Seq<u8>,
    declared: int,
    r: (Seq<u8>, int),
)
    requires
        0 <= lo <= old.len(),
        apply_entries(old.subrange(lo, lo), p, cursor, acc, declared) == Some(r),
    ensures
        apply_entries(old, p, cursor2, acc, declared) == Some(r),
    decreases p.len(),
{
    let w = old.subrange(lo, lo);
    let d = le_u64(p.subrange(0, 8)) as int;
    let e = le_u64(p.subrange(8, 16)) as int;
    let s = le_i64(p.subrange(16, 24));
    if d == 0 && e == 0 && s == 0 {
    } else {
        assert(d == 0);
        let chunk = Seq::new(d as nat, |i: int| w[cursor + i].wrapping_add(p[24 + i]))
            + p.subrange(24 + d, 24 + d + e);
        let chunk2 = Seq::new(d as nat, |i: int| old[cursor2 + i].wrapping_add(p[24 + i]))
            + p.subrange(24 + d, 24 + d + e);
        assert(chunk2 =~= chunk);
        let sub = apply_entries(w, p.skip(24 + d + e), cursor + d + s, acc + chunk, declared);
        match sub {
            Some(r2) => {
                lemma_entries_no_reads(
                    old,
                    lo,
                    p.skip(24 + d + e),
                    cursor + d + s,
                    cursor2 + d + s,
                    acc + chunk,
                    declared,
                    r2,
                );
            }
            None => {
                assert(false);
            }
        }
    }
}

/// The chunked stream `b` is exactly `n` complete sub-patches whose
/// outputs concatenate to `acc`: whatever sub-patches follow, applying
/// `b + rest` is applying `rest` with `acc` already produced, and `b`
/// contributes `n` to the sub-patch count.
pub open spec fn chunk_resumes_at(old: Seq<u8>, b: Seq<u8>, acc: Seq<u8>, n: int) -> bool {
    forall|rest: Seq<u8>|
        #[trigger] apply_chunked_from(old, b + rest, Seq::empty()) == apply_chunked_from(
            old,
            rest,
            acc,
        ) && subpatch_count(old, b + rest, Seq::empty()) == n + subpatch_count(old, rest, acc)
}

/// An empty chunked stream resumes with nothing produced.
pub proof fn lemma_chunk_resumes_init(old: Seq<u8>)
    ensures
        chunk_resumes_at(old, Seq::empty(), Seq::empty(), 0),
{
    assert forall|rest: Seq<u8>|
        #[trigger] apply_chunked_from(old, Seq::<u8>::empty() + rest, Seq::<u8>::empty())
            == apply_chunked_from(old, rest, Seq::<u8>::empty())
            && subpatch_count(old, Seq::<u8>::empty() + rest, Seq::<u8>::empty())
                == 0 + subpatch_count(old, rest, Seq::<u8>::empty())
    by {
        assert(Seq::<u8>::empty() + rest =~= rest);
    }
}

/// Extending a resumable chunked stream by one complete sub-patch.
pub proof fn lemma_chunk_resumes_step(
    old: Seq<u8>,
    b: Seq<u8>,
    sub: Seq<u8>,
    acc: Seq<u8>,
    out1: Seq<u8>,
    n: int,
)
    requires
        chunk_resumes_at(old, b, acc, n),
        sub.len() > 16,
        apply_patch_at(old, sub, acc.len() as int) == Some((out1, sub.len() as int)),
    ensures
        chunk_resumes_at(old, b + sub, acc + out1, n + 1),
{
    assert forall|rest: Seq<u8>|
        #[trigger] apply_chunked_from(old, (b + sub) + rest, Seq::<u8>::empty())
            == apply_chunked_from(old, rest, acc + out1)
            && subpatch_count(old, (b + sub) + rest, Seq::<u8>::empty())
                == n + 1 + subpatch_count(old, rest, acc + out1)
    by {
        assert((b + sub) + rest =~= b + (sub + rest));
        assert(apply_chunked_from(old, b + (sub + rest), Seq::<u8>::empty())
            == apply_chunked_from(old, sub + rest, acc));
        assert(subpatch_count(old, b + (sub + rest), Seq::<u8>::empty())
            == n + subpatch_count(old, sub + rest, acc));
        let q = sub + rest;
        assert(q.subrange(0, 8) =~= sub.subrange(0, 8));
        assert(q.subrange(8, 16) =~= sub.subrange(8, 16));
        assert(patch_header_ok(q) == patch_header_ok(sub));
        assert(declared_size(q) == declared_size(sub));
        assert(patch_header_ok(sub));
        let rr = apply_entries(old, sub.skip(16), acc.len() as int, Seq::empty(), declared_size(sub));
        match rr {
            Some(r) => {
                assert(r.0 == out1 && 16 + r.1 == sub.len());
                lemma_entries_extend(
                    old,
                    sub.skip(16),
                    rest,
                    acc.len() as int,
                    Seq::empty(),
                    declared_size(sub),
                    r,
                );
                assert(sub.skip(16) + rest =~= q.skip(16));
                assert(apply_patch_at(old, q, acc.len() as int) == Some((out1, sub.len() as int)));
                assert(q.skip(sub.len() as int) =~= rest);
            }
            None => {
                assert(false);
            }
        }
    }
}

/// The literal bytes a record stream inserts through its `extra` channel,
/// up to its terminator.
pub open spec fn extras_only(p: Seq<u8>) -> Seq<u8>
    decreases p.len(),
{
    if p.len() < 24 {
        Seq::empty()
    } else {
        let diff = le_u64(p.subrange(0, 8)) as int;
        let extra = le_u64(p.subrange(8, 16)) as int;
        let seek = le_i64(p.subrange(16, 24));
        if diff == 0 && extra == 0 && seek == 0 {
            Seq::empty()
        } else if p.len() < 24 + diff + extra {
            Seq::empty()
        } else {
            p.subrange(24 + diff, 24 + diff + extra) + extras_only(p.skip(24 + diff + extra))
        }
    }
}

/// With an empty old buffer, a stream that applies has every difference
/// span empty, so its whole output is the extra payloads verbatim.
pub proof fn lemma_empty_old_extras(
    old: Seq<u8>,
    p: Seq<u8>,
    cursor: int,
    acc: Seq<u8>,
    declared: int,
    r: (Seq<u8>, int),
)
    requires
        old.len() == 0,
        apply_entries(old, p, cursor, acc, declared) == Some(r),
    ensures
        r.0 == acc + extras_only(p),
    decreases p.len(),
{
    let d = le_u64(p.subrange(0, 8)) as int;
    let e = le_u64(p.subrange(8, 16)) as int;
    let s = le_i64(p.subrange(16, 24));
    if d == 0 && e == 0 && s == 0 {
        assert(acc + extras_only(p) =~= acc);
    } else {
        assert(d == 0);
        let chunk = Seq::new(d as nat, |i: int| old[cursor + i].wrapping_add(p[24 + i]))
            + p.subrange(24 + d, 24 + d + e);
        assert(chunk =~= p.subrange(24 + d, 24 + d + e));
        let sub = apply_entries(old, p.skip(24 + d + e), cursor + d + s, acc + chunk, declared);
        match sub {
            Some(r2) => {
                lemma_empty_old_extras(
                    old,
                    p.skip(24 + d + e),
                    cursor + d + s,
                    acc + chunk,
                    declared,
                    r2,
                );
                assert((acc + chunk) + extras_only(p.skip(24 + d + e)) =~= acc + extras_only(p));
            }
            None => {
                assert(false);
            }
        }
    }
}

/// Whatever a patch reconstructs has exactly the length its header
/// declares, and the consumed stream ends with the all-zero triple: the
/// terminator is the last record and — since parsing stops at the first
/// all-zero triple — the only one.
pub proof fn lemma_entries_output_len(
    old: Seq<u8>,
    p: Seq<u8>,
    cursor: int,
    acc: Seq<u8>,
    declared: int,
    r: (Seq<u8>, int),
)
    requires
        apply_entries(old, p, cursor, acc, declared) == Some(r),
    ensures
        r.0.len() == declared,
        24 <= r.1 <= p.len(),
        le_u64(p.subrange(r.1 - 24, r.1 - 16)) == 0,
        le_u64(p.subrange(r.1 - 16, r.1 - 8)) == 0,
        le_i64(p.subrange(r.1 - 8, r.1)) == 0,
    decreases p.len(),
{
    let d = le_u64(p.subrange(0, 8)) as int;
    let e = le_u64(p.subrange(8, 16)) as int;
    let s = le_i64(p.subrange(16, 24));
    if d == 0 && e == 0 && s == 0 {
        assert(p.subrange(r.1 - 24, r.1 - 16) =~= p.subrange(0, 8));
        assert(p.subrange(r.1 - 16, r.1 - 8) =~= p.subrange(8, 16));
        assert(p.subrange(r.1 - 8, r.1) =~= p.subrange(16, 24));
    } else {
        let chunk = Seq::new(d as nat, |i: int| old[cursor + i].wrapping_add(p[24 + i]))
            + p.subrange(24 + d, 24 + d + e);
        let sub = apply_entries(old, p.skip(24 + d + e), cursor + d + s, acc + chunk, declared);
        match sub {
            Some(r2) => {
                lemma_entries_output_len(
                    old,
                    p.skip(24 + d + e),
                    cursor + d + s,
                    acc + chunk,
                    declared,
                    r2,
                );
                let n = 24 + d + e;
                assert(p.subrange(r.1 - 24, r.1 - 16) =~= p.skip(n).subrange(r2.1 - 24, r2.1 - 16));
                assert(p.subrange(r.1 - 16, r.1 - 8) =~= p.skip(n).subrange(r2.1 - 16, r2.1 - 8));
                assert(p.subrange(r.1 - 8, r.1) =~= p.skip(n).subrange(r2.1 - 8, r2.1));
            }
            None => {
                assert(false);
            }
        }
    }
}

/// Adding a byte to the wrapped difference of two bytes gives the other back.
pub proof fn lemma_wrap_round(a: u8, b: u8)
    ensures
        a.wrapping_add(b.wrapping_sub(a)) == b,
{
}

/// Append the magic bytes to `v`.
pub fn push_magic(v: &mut Vec<u8>)
    ensures
        final(v)@ == old(v)@ + magic(),
{
    v.push(0x44u8);
    v.push(0x44u8);
    v.push(0x45u8);
    v.push(0x4cu8);
    v.push(0x54u8);
    v.push(0x41u8);
    v.push(0x34u8);
    v.push(0x30u8);
    proof {
        assert(final(v)@ =~= old(v)@ + magic());
    }
}

/// Append `x` to `v` as eight little-endian bytes.
pub fn push_u64_le(v: &mut Vec<u8>, x: u64)
    ensures
        final(v)@.len() == old(v)@.len() + 8,
        final(v)@.subrange(0, old(v)@.len() as int) == old(v)@,
        le_u64(final(v)@.subrange(old(v)@.len() as int, final(v)@.len() as int)) == x,
{
    let b0: u8 = (x % 256) as u8;
    let x1: u64 = x / 256;
    let b1: u8 = (x1 % 256) as u8;
    let x2: u64 = x1 / 256;
    let b2: u8 = (x2 % 256) as u8;
    let x3: u64 = x2 / 256;
    let b3: u8 = (x3 % 256) as u8;
    let x4: u64 = x3 / 256;
    let b4: u8 = (x4 % 256) as u8;
    let x5: u64 = x4 / 256;
    let b5: u8 = (x5 % 256) as u8;
    let x6: u64 = x5 / 256;
    let b6: u8 = (x6 % 256) as u8;
    let x7: u64 = x6 / 256;
    let b7: u8 = (x7 % 256) as u8;
    v.push(b0);
    v.push(b1);
    v.push(b2);
    v.push(b3);
    v.push(b4);
    v.push(b5);
    v.push(b6);
    v.push(b7);
    proof {
        let n = old(v)@.len() as int;
        let t = v@.subrange(n, v@.len() as int);
        assert(v@.subrange(0, n) =~= old(v)@);
        assert(t =~= seq![b0, b1, b2, b3, b4, b5, b6, b7]);
        lemma_le_u64_8(t);
        assert(x7 / 256 == 0) by {
            assert(x < 0x1_0000_0000_0000_0000);
        };
    }
}

/// Append `x` to `v` as eight little-endian bytes of its two's complement.
pub fn push_i64_le(v: &mut Vec<u8>, x: i64)
    ensures
        final(v)@.len() == old(v)@.len() + 8,
        final(v)@.subrange(0, old(v)@.len() as int) == old(v)@,
        le_i64(final(v)@.subrange(old(v)@.len() as int, final(v)@.len() as int)) == x,
{
    if x >= 0 {
        push_u64_le(v, x as u64);
    } else {
        let wide: i128 = (x as i128) + 0x1_0000_0000_0000_0000i128;
        push_u64_le(v, wide as u64);
    }
}

/// Read eight little-endian bytes of `p` starting at `off`.
pub fn read_u64_le(p: &[u8], off: usize) -> (r: u64)
    requires
        off + 8 <= p@.len(),
    ensures
        r == le_u64(p@.subrange(off as int, off as int + 8)),
{
    let plen: usize = p.len();
    let b0: u8 = *vstd::slice::slice_index_get(p, off);
    let b1: u8 = *vstd::slice::slice_index_get(p, off + 1);
    let b2: u8 = *vstd::slice::slice_index_get(p, off + 2);
    let b3: u8 = *vstd::slice::slice_index_get(p, off + 3);
    let b4: u8 = *vstd::slice::slice_index_get(p, off + 4);
    let b5: u8 = *vstd::slice::slice_index_get(p, off + 5);
    let b6: u8 = *vstd::slice::slice_index_get(p, off + 6);
    let b7: u8 = *vstd::slice::slice_index_get(p, off + 7);
    let r: u64 = (b0 as u64) + 0x100u64 * (b1 as u64) + 0x10000u64 * (b2 as u64)
        + 0x1000000u64 * (b3 as u64) + 0x100000000u64 * (b4 as u64)
        + 0x10000000000u64 * (b5 as u64) + 0x1000000000000u64 * (b6 as u64)
        + 0x100000000000000u64 * (b7 as u64);
    proof {
        let t = p@.subrange(off as int, off as int + 8);
        lemma_le_u64_8(t);
        assert(t[0] == b0 && t[1] == b1 && t[2] == b2 && t[3] == b3 && t[4] == b4 && t[5] == b5
            && t[6] == b6 && t[7] == b7);
    }
    r
}

/// Read eight little-endian bytes of `p` starting at `off` as a signed value.
pub fn read_i64_le(p: &[u8], off: usize) -> (r: i64)
    requires
        off + 8 <= p@.len(),
    ensures
        r == le_i64(p@.subrange(off as int, off as int + 8)),
{
    let u: u64 = read_u64_le(p, off);
    if u < 0x8000_0000_0000_0000u64 {
        u as i64
    } else {
        ((u as i128) - 0x1_0000_0000_0000_0000i128) as i64
    }
}

/// Whether `p` starts with the magic bytes.
pub fn magic_matches(p: &[u8]) -> (r: bool)
    requires
        p@.len() >= 8,
    ensures
        r <==> p@.subrange(0, 8) == magic(),
{
    let r = *vstd::slice::slice_index_get(p, 0) == 0x44u8
        && *vstd::slice::slice_index_get(p, 1) == 0x44u8
        && *vstd::slice::slice_index_get(p, 2) == 0x45u8
        && *vstd::slice::slice_index_get(p, 3) == 0x4cu8
        && *vstd::slice::slice_index_get(p, 4) == 0x54u8
        && *vstd::slice::slice_index_get(p, 5) == 0x41u8
        && *vstd::slice::slice_index_get(p, 6) == 0x34u8
        && *vstd::slice::slice_index_get(p, 7) == 0x30u8;
    proof {
        if r {
            assert(p@.subrange(0, 8) =~= magic());
        } else {
            assert(p@.subrange(0, 8) != magic()) by {
                if p@.subrange(0, 8) == magic() {
                    assert(p@.subrange(0, 8)[0] == magic()[0]);
                    assert(p@.subrange(0, 8)[1] == magic()[1]);
                    assert(p@.subrange(0, 8)[2] == magic()[2]);
                    assert(p@.subrange(0, 8)[3] == magic()[3]);
                    assert(p@.subrange(0, 8)[4] == magic()[4]);
                    assert(p@.subrange(0, 8)[5] == magic()[5]);
                    assert(p@.subrange(0, 8)[6] == magic()[6]);
                    assert(p@.subrange(0, 8)[7] == magic()[7]);
                }
            };
        }
    }
    r
}

} // verus!
