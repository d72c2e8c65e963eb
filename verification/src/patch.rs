//! The patch applier: a streaming single-pass reconstruction of the new
//! buffer from the old buffer and a record stream, with a single seek
//! cursor into the old buffer. `apply` takes one patch; `apply_chunked`
//! takes any number of concatenated sub-patches, resetting the cursor to
//! the bytes produced so far before each one.

use vstd::prelude::*;
use crate::codec::{
    apply_chunked_from, apply_entries, apply_patch, apply_patch_at, declared_size, le_i64, le_u64,
    magic_matches, patch_header_ok, read_i64_le, read_u64_le, shifted,
};

verus! {

/// Why patch application failed: a truncated or malformed patch, a
/// difference span outside the old buffer, or an output size different
/// from what the header declared.
#[derive(Debug, Clone, Copy, PartialEq, Eq, Structural)]
pub enum PatchError {
    Internal,
}

/// Append `count` bytes reconstructed from the difference channel: each
/// patch byte at `poff` added (wrapping, modulo 256) to the old byte at
/// `ooff`.
#[verifier::loop_isolation(false)]
pub fn apply_diff(patch: &[u8], poff: usize, old_buf: &[u8], ooff: usize, count: usize, out: &mut Vec<u8>)
    requires
        poff + count <= patch@.len(),
        ooff + count <= old_buf@.len(),
    ensures
        final(out)@ == old(out)@ + Seq::new(
            count as nat,
            |i: int| old_buf@[ooff + i].wrapping_add(patch@[poff + i]),
        ),
{
    let plen: usize = patch.len();
    let olen: usize = old_buf.len();
    let ghost pre = out@;
    let mut k: usize = 0;
    while k < count
        invariant
            0 <= k <= count,
            out@ == pre + Seq::new(
                k as nat,
                |i: int| old_buf@[ooff + i].wrapping_add(patch@[poff + i]),
            ),
        decreases count - k,
    {
        let ob: u8 = *vstd::slice::slice_index_get(old_buf, ooff + k);
        let pb: u8 = *vstd::slice::slice_index_get(patch, poff + k);
        out.push(ob.wrapping_add(pb));
        k = k + 1;
        proof {
            assert(out@ =~= pre + Seq::new(
                k as nat,
                |i: int| old_buf@[ooff + i].wrapping_add(patch@[poff + i]),
            ));
        }
    }
}

/// Append `count` bytes of `src` starting at `off` verbatim.
#[verifier::loop_isolation(false)]
pub fn copy_bytes(src: &[u8], off: usize, count: usize, out: &mut Vec<u8>)
    requires
        off + count <= src@.len(),
    ensures
        final(out)@ == old(out)@ + src@.subrange(off as int, off as int + count),
{
    let slen: usize = src.len();
    let ghost pre = out@;
    let mut k: usize = 0;
    while k < count
        invariant
            0 <= k <= count,
            out@ == pre + src@.subrange(off as int, off as int + k),
        decreases count - k,
    {
        let b: u8 = *vstd::slice::slice_index_get(src, off + k);
        out.push(b);
        k = k + 1;
        proof {
            assert(out@ =~= pre + src@.subrange(off as int, off as int + k));
        }
    }
}

/// Apply the entry records of one sub-patch whose 16-byte header ends at
/// `off` in `patch`, with the old-file cursor starting at `start` and the
/// header's declared output size `declared`. Appends the reconstruction to
/// `out` and returns the offset just past the terminator.
#[verifier::loop_isolation(false)]
#[verifier::rlimit(100)]
pub fn apply_with_header(
    old_buf: &[u8],
    patch: &[u8],
    off: usize,
    start: u64,
    declared: u64,
    out: &mut Vec<u8>,
) -> (r: Result<usize, PatchError>)
    requires
        off <= patch@.len(),
    ensures
        match r {
            Ok(end) => apply_entries(
                old_buf@,
                patch@.skip(off as int),
                start as int,
                Seq::empty(),
                declared as int,
            ) matches Some(rr) && final(out)@ == old(out)@ + rr.0 && end == off + rr.1 && off + 24
                <= end <= patch@.len(),
            Err(e) => apply_entries(
                old_buf@,
                patch@.skip(off as int),
                start as int,
                Seq::empty(),
                declared as int,
            ) is None,
        },
{
    let plen: usize = patch.len();
    let olen: usize = old_buf.len();
    let acc0len: usize = out.len();
    let ghost acc0 = out@;
    let mut cur: usize = off;
    let mut cursor: i128 = start as i128;
    loop
        invariant
            off <= cur <= plen,
            out@.len() >= acc0.len(),
            out@.subrange(0, acc0.len() as int) == acc0,
            acc0len == acc0.len(),
            -0x2_0000_0000_0000_0000int * (cur - off) <= 24 * (cursor - start)
                <= 0x2_0000_0000_0000_0000int * (cur - off),
            apply_entries(
                old_buf@,
                patch@.skip(off as int),
                start as int,
                Seq::empty(),
                declared as int,
            ) == shifted(
                apply_entries(
                    old_buf@,
                    patch@.skip(cur as int),
                    cursor as int,
                    out@.skip(acc0.len() as int),
                    declared as int,
                ),
                cur - off,
            ),
        decreases plen - cur,
    {
        proof {
            assert(patch@.skip(off as int).len() == plen - off);
        }
        if plen - cur < 24 {
            return Err(PatchError::Internal);
        }
        let d: u64 = read_u64_le(patch, cur);
        let e: u64 = read_u64_le(patch, cur + 8);
        let sk: i64 = read_i64_le(patch, cur + 16);
        let ghost p = patch@.skip(cur as int);
        proof {
            assert(p.subrange(0, 8) =~= patch@.subrange(cur as int, cur as int + 8));
            assert(p.subrange(8, 16) =~= patch@.subrange(cur as int + 8, cur as int + 16));
            assert(p.subrange(16, 24) =~= patch@.subrange(cur as int + 16, cur as int + 24));
        }
        if d == 0 && e == 0 && sk == 0 {
            if (out.len() - acc0len) as u64 == declared {
                proof {
                    assert(out@.skip(acc0.len() as int).len() == declared);
                }
                return Ok(cur + 24);
            } else {
                proof {
                    assert(out@.skip(acc0.len() as int).len() != declared);
                }
                return Err(PatchError::Internal);
            }
        }
        let rem: usize = plen - cur - 24;
        if (d as u128) + (e as u128) > rem as u128 {
            proof {
                assert(p.len() < 24 + d + e);
            }
            return Err(PatchError::Internal);
        }
        if d > 0 && (cursor < 0 || cursor + d as i128 > olen as i128) {
            return Err(PatchError::Internal);
        }
        let dd: usize = d as usize;
        let ee: usize = e as usize;
        let ooff: usize = if dd > 0 {
            cursor as usize
        } else {
            0
        };
        let ghost outmid = out@;
        apply_diff(patch, cur + 24, old_buf, ooff, dd, out);
        copy_bytes(patch, cur + 24 + dd, ee, out);
        proof {
            let chunk = Seq::new(d as nat, |i: int| old_buf@[cursor + i].wrapping_add(p[24 + i]))
                + p.subrange(24 + d, 24 + d + e);
            assert(Seq::new(
                d as nat,
                |i: int| old_buf@[ooff + i].wrapping_add(patch@[cur + 24 + i]),
            ) =~= Seq::new(d as nat, |i: int| old_buf@[cursor + i].wrapping_add(p[24 + i])));
            assert(patch@.subrange(cur as int + 24 + dd, cur as int + 24 + dd + ee) =~= p.subrange(
                24 + d,
                24 + d + e,
            ));
            assert(out@ =~= outmid + chunk);
            assert(out@.skip(acc0.len() as int) =~= outmid.skip(acc0.len() as int) + chunk);
            assert(out@.subrange(0, acc0.len() as int) =~= acc0);
            assert(p.skip(24 + d + e) =~= patch@.skip(cur as int + 24 + dd + ee));
        }
        cursor = cursor + d as i128 + sk as i128;
        cur = cur + 24 + dd;
        cur = cur + ee;
    }
}

/// Apply a patch, reconstructing the new buffer from `old_buf`. Succeeds
/// exactly when the patch is meaningful under [`apply_patch`], and then
/// returns exactly the reconstruction it gives.
pub fn apply(old_buf: &[u8], patch: &[u8]) -> (r: Result<Vec<u8>, PatchError>)
    ensures
        r matches Ok(v) ==> apply_patch(old_buf@, patch@) matches Some(p) && v@ == p.0,
        r is Err <==> apply_patch(old_buf@, patch@) is None,
{
    if patch.len() < 16 {
        return Err(PatchError::Internal);
    }
    if !magic_matches(patch) {
        return Err(PatchError::Internal);
    }
    let declared: u64 = read_u64_le(patch, 8);
    proof {
        assert(patch_header_ok(patch@));
        assert(declared == declared_size(patch@));
    }
    let mut out: Vec<u8> = Vec::new();
    match apply_with_header(old_buf, patch, 16, 0, declared, &mut out) {
        Ok(_) => {
            proof {
                assert(Seq::<u8>::empty() + out@ =~= out@);
            }
            Ok(out)
        },
        Err(e) => Err(e),
    }
}

/// Apply a chunked patch: one or more concatenated sub-patches, the
/// old-file cursor reset to the number of bytes already produced before
/// each. Succeeds exactly when the stream is meaningful under
/// [`apply_chunked_from`], and then returns exactly the reconstruction it
/// gives; an empty stream yields an empty output.
#[verifier::loop_isolation(false)]
pub fn apply_chunked(old_buf: &[u8], patch: &[u8]) -> (r: Result<Vec<u8>, PatchError>)
    ensures
        r matches Ok(v) ==> apply_chunked_from(old_buf@, patch@, Seq::empty()) == Some(v@),
        r is Err <==> apply_chunked_from(old_buf@, patch@, Seq::empty()) is None,
{
    let plen: usize = patch.len();
    let mut out: Vec<u8> = Vec::new();
    let mut cur: usize = 0;
    proof {
        assert(patch@.skip(0) =~= patch@);
    }
    while cur < plen
        invariant
            0 <= cur <= plen,
            apply_chunked_from(old_buf@, patch@, Seq::empty()) == apply_chunked_from(
                old_buf@,
                patch@.skip(cur as int),
                out@,
            ),
        decreases plen - cur,
    {
        let p_rest: &[u8] = vstd::slice::slice_subrange(patch, cur, plen);
        if plen - cur < 16 {
            return Err(PatchError::Internal);
        }
        if !magic_matches(p_rest) {
            proof {
                assert(p_rest@.subrange(0, 8) =~= patch@.skip(cur as int).subrange(0, 8));
                assert(!patch_header_ok(patch@.skip(cur as int)));
            }
            return Err(PatchError::Internal);
        }
        let declared: u64 = read_u64_le(p_rest, 8);
        let start_u: u64 = out.len() as u64;
        let ghost acc_pre = out@;
        proof {
            assert(p_rest@ =~= patch@.skip(cur as int));
            assert(patch_header_ok(p_rest@));
            assert(declared == declared_size(p_rest@));
        }
        match apply_with_header(old_buf, p_rest, 16, start_u, declared, &mut out) {
            Ok(end) => {
                proof {
                    assert(p_rest@.skip(16) =~= patch@.skip(cur as int).skip(16));
                    assert(apply_patch_at(old_buf@, patch@.skip(cur as int), acc_pre.len() as int)
                        matches Some(q) && q.1 == end && out@ == acc_pre + q.0);
                    assert(patch@.skip(cur as int).skip(end as int) =~= patch@.skip(
                        cur as int + end,
                    ));
                }
                cur = cur + end;
            },
            Err(e) => {
                return Err(e);
            },
        }
    }
    proof {
        assert(patch@.skip(cur as int).len() == 0);
    }
    Ok(out)
}

} // verus!
