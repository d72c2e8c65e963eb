use ddelta::{apply, apply_chunked, generate, generate_chunked, match_len, DiffError};

fn rd_u64(p: &[u8], off: usize) -> u64 {
    let mut v: u64 = 0;
    for k in 0..8 {
        v |= (p[off + k] as u64) << (8 * k);
    }
    v
}

fn rd_i64(p: &[u8], off: usize) -> i64 {
    rd_u64(p, off) as i64
}

/// Parse one sub-patch starting at `off`: returns the entry records
/// (diff, extra, seek, diff payload, extra payload) without the terminator,
/// and the offset just past the terminator.
fn parse_sub(p: &[u8], off: usize) -> (Vec<(u64, u64, i64, Vec<u8>, Vec<u8>)>, usize) {
    assert_eq!(&p[off..off + 8], b"DDELTA40");
    let mut cur = off + 16;
    let mut recs = Vec::new();
    loop {
        let d = rd_u64(p, cur);
        let e = rd_u64(p, cur + 8);
        let s = rd_i64(p, cur + 16);
        cur += 24;
        if d == 0 && e == 0 && s == 0 {
            return (recs, cur);
        }
        let dp = p[cur..cur + d as usize].to_vec();
        cur += d as usize;
        let ep = p[cur..cur + e as usize].to_vec();
        cur += e as usize;
        recs.push((d, e, s, dp, ep));
    }
}

fn lcg_bytes(n: usize) -> Vec<u8> {
    let mut x: u64 = 0x1234_5678_9abc_def0;
    let mut v = Vec::with_capacity(n);
    for _ in 0..n {
        x = x.wrapping_mul(6364136223846793005).wrapping_add(1442695040888963407);
        v.push((x >> 33) as u8);
    }
    v
}

#[test]
fn testy() {
    assert_eq!(match_len(b"abcdef", b"abcfed"), 3);
    assert_eq!(match_len(b"abc", b"abcfed"), 3);
    assert_eq!(match_len(b"abcdef", b"abc"), 3);
    assert_eq!(match_len(b"dabcde", b"abcfed"), 0);
}

#[test]
fn identical_inputs_single_record() {
    let o = b"abcdef";
    let mut p = Vec::new();
    generate(o, o, &mut p).unwrap();
    assert_eq!(rd_u64(&p, 8), 6);
    let (recs, end) = parse_sub(&p, 0);
    assert_eq!(end, p.len());
    assert_eq!(recs.len(), 1);
    let (d, e, _s, dp, ep) = &recs[0];
    assert_eq!(*d, 6);
    assert_eq!(*e, 0);
    assert_eq!(dp.as_slice(), &[0u8; 6]);
    assert!(ep.is_empty());
    assert_eq!(apply(o, &p).unwrap(), o.to_vec());
}

#[test]
fn empty_old_pure_insertion() {
    let mut p = Vec::new();
    generate(b"", b"hello", &mut p).unwrap();
    let (recs, end) = parse_sub(&p, 0);
    assert_eq!(end, p.len());
    assert_eq!(recs.len(), 1);
    let (d, e, s, dp, ep) = &recs[0];
    assert_eq!((*d, *e, *s), (0, 5, 0));
    assert!(dp.is_empty());
    assert_eq!(ep.as_slice(), b"hello");
    assert_eq!(apply(b"", &p).unwrap(), b"hello".to_vec());
}

#[test]
fn small_edit_roundtrip() {
    let o = b"abcdef";
    let n = b"ab!def";
    let mut p = Vec::new();
    generate(o, n, &mut p).unwrap();
    assert_eq!(apply(o, &p).unwrap(), n.to_vec());
    assert!(p.len() < 100);
}

#[test]
fn swapped_halves_roundtrip() {
    let o = b"xyzabc";
    let n = b"abcxyz";
    let mut p = Vec::new();
    generate(o, n, &mut p).unwrap();
    assert_eq!(apply(o, &p).unwrap(), b"abcxyz".to_vec());
}

#[test]
fn chunked_random_roundtrip() {
    let data = lcg_bytes(10 * 1024 * 1024);
    let mut p = Vec::new();
    generate_chunked(&data, &data, &mut p, Some(1024 * 1024)).unwrap();
    assert_eq!(apply_chunked(&data, &p).unwrap(), data);
    let mut headers = 0;
    let mut cur = 0;
    while cur < p.len() {
        let (_, end) = parse_sub(&p, cur);
        headers += 1;
        cur = end;
    }
    assert!(headers >= 10);
}

#[test]
fn chunked_chunk_size_one() {
    let o = b"ab";
    let n = b"ab";
    let mut p = Vec::new();
    generate_chunked(o, n, &mut p, Some(1)).unwrap();
    assert_eq!(apply_chunked(o, &p).unwrap(), n.to_vec());
}

#[test]
fn self_patch_has_no_extra() {
    let mut x = Vec::new();
    for i in 0..4096u32 {
        x.push((i % 251) as u8);
    }
    let mut p = Vec::new();
    generate(&x, &x, &mut p).unwrap();
    let (recs, _) = parse_sub(&p, 0);
    let total_extra: u64 = recs.iter().map(|r| r.1).sum();
    assert_eq!(total_extra, 0);
    assert_eq!(apply(&x, &p).unwrap(), x);
}

#[test]
fn empty_new_header_and_terminator_only() {
    let o = b"some old bytes";
    let mut p = Vec::new();
    generate(o, b"", &mut p).unwrap();
    assert_eq!(p.len(), 40);
    assert_eq!(&p[0..8], b"DDELTA40");
    assert_eq!(&p[8..40], &[0u8; 32][..]);
    assert_eq!(apply(o, &p).unwrap(), Vec::<u8>::new());
}

#[test]
fn empty_old_boundary() {
    let n: Vec<u8> = (0..300u32).map(|i| (i * 7 % 256) as u8).collect();
    let mut p = Vec::new();
    generate(b"", &n, &mut p).unwrap();
    let (recs, _) = parse_sub(&p, 0);
    for r in &recs {
        assert_eq!(r.0, 0);
    }
    let total_extra: u64 = recs.iter().map(|r| r.1).sum();
    assert_eq!(total_extra, 300);
    assert_eq!(apply(b"", &p).unwrap(), n);
}

#[test]
fn size_limit_error() {
    let big = vec![0u8; 0x7fff_ffff];
    let mut p = Vec::new();
    assert_eq!(generate(&big, b"x", &mut p), Err(DiffError::SizeLimit));
    assert!(p.is_empty());
}

#[test]
fn compact_patch_for_similar_inputs() {
    let o = lcg_bytes(8192);
    let mut n = o.clone();
    n[4000] ^= 0xff;
    let mut p = Vec::new();
    generate(&o, &n, &mut p).unwrap();
    assert_eq!(apply(&o, &p).unwrap(), n);
    assert!(p.len() < 2 * n.len());
}
