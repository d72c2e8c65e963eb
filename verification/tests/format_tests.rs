use ddelta::codec::{push_i64_le, push_u64_le, read_i64_le, read_u64_le};
use ddelta::{apply, apply_chunked, generate, match_len, min_memcmp, PatchError};
use std::cmp::Ordering;

fn le64(x: u64) -> Vec<u8> {
    let mut v = Vec::new();
    push_u64_le(&mut v, x);
    v
}

#[test]
fn u64_encoding_roundtrip() {
    for x in [0u64, 1, 255, 256, 0xdead_beef, u64::MAX] {
        let mut v = Vec::new();
        push_u64_le(&mut v, x);
        assert_eq!(v.len(), 8);
        assert_eq!(read_u64_le(&v, 0), x);
    }
    assert_eq!(le64(0x0102_0304_0506_0708), vec![8, 7, 6, 5, 4, 3, 2, 1]);
}

#[test]
fn i64_encoding_roundtrip() {
    for x in [0i64, 1, -1, -6, i64::MIN, i64::MAX] {
        let mut v = Vec::new();
        push_i64_le(&mut v, x);
        assert_eq!(v.len(), 8);
        assert_eq!(read_i64_le(&v, 0), x);
    }
    let mut v = Vec::new();
    push_i64_le(&mut v, -1);
    assert_eq!(v, vec![0xff; 8]);
}

#[test]
fn min_memcmp_compares_common_prefix() {
    assert_eq!(min_memcmp(b"abc", b"abd"), Ordering::Less);
    assert_eq!(min_memcmp(b"abd", b"abc"), Ordering::Greater);
    assert_eq!(min_memcmp(b"ab", b"abzzz"), Ordering::Equal);
    assert_eq!(min_memcmp(b"", b"anything"), Ordering::Equal);
}

#[test]
fn match_len_empty_sides() {
    assert_eq!(match_len(b"", b"abc"), 0);
    assert_eq!(match_len(b"abc", b""), 0);
    assert_eq!(match_len(b"same", b"same"), 4);
}

#[test]
fn apply_rejects_bad_magic() {
    let mut p = vec![0u8; 40];
    p[0..8].copy_from_slice(b"NOTDELTA");
    assert_eq!(apply(b"old", &p), Err(PatchError::Internal));
}

#[test]
fn apply_rejects_truncated_patch() {
    let mut p = Vec::new();
    p.extend_from_slice(b"DDELTA40");
    push_u64_le(&mut p, 0);
    p.extend_from_slice(&[0u8; 12]);
    assert_eq!(apply(b"old", &p), Err(PatchError::Internal));
}

#[test]
fn apply_rejects_size_mismatch() {
    let mut p = Vec::new();
    p.extend_from_slice(b"DDELTA40");
    push_u64_le(&mut p, 5);
    p.extend_from_slice(&[0u8; 24]);
    assert_eq!(apply(b"old", &p), Err(PatchError::Internal));
}

#[test]
fn apply_accepts_empty_output_patch() {
    let mut p = Vec::new();
    p.extend_from_slice(b"DDELTA40");
    push_u64_le(&mut p, 0);
    p.extend_from_slice(&[0u8; 24]);
    assert_eq!(apply(b"old", &p).unwrap(), Vec::<u8>::new());
}

#[test]
fn apply_rejects_diff_outside_old() {
    let mut p = Vec::new();
    p.extend_from_slice(b"DDELTA40");
    push_u64_le(&mut p, 4);
    push_u64_le(&mut p, 4);
    push_u64_le(&mut p, 0);
    push_i64_le(&mut p, 0);
    p.extend_from_slice(b"abcd");
    p.extend_from_slice(&[0u8; 24]);
    assert_eq!(apply(b"ab", &p), Err(PatchError::Internal));
}

#[test]
fn apply_ignores_trailing_bytes() {
    let o = b"hello world";
    let n = b"hello there";
    let mut p = Vec::new();
    generate(o, n, &mut p).unwrap();
    p.extend_from_slice(b"garbage after the terminator");
    assert_eq!(apply(o, &p).unwrap(), n.to_vec());
}

#[test]
fn apply_chunked_empty_stream() {
    assert_eq!(apply_chunked(b"old", b"").unwrap(), Vec::<u8>::new());
}

#[test]
fn apply_chunked_rejects_partial_header() {
    assert_eq!(apply_chunked(b"old", b"DDELTA40"), Err(PatchError::Internal));
}
