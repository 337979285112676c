use ripemd::Ripemd160;
use ferrous::primitives::hash::{hash160, sha256d, tagged_hash};
use ferrous::primitives::serialize::{read_compact_size, write_compact_size};
use sha2::{Digest, Sha256};

#[test]
fn sha256d_of_empty() {
    let once = Sha256::digest(b"");
    let twice = Sha256::digest(once);
    assert_eq!(sha256d(b"").as_slice(), twice.as_slice());
    assert_eq!(
        sha256d(b""),
        [
            0x5d, 0xf6, 0xe0, 0xe2, 0x76, 0x13, 0x59, 0xd3, 0x0a, 0x82, 0x75, 0x05, 0x8e, 0x29, 0x9f, 0xcc,
            0x03, 0x81, 0x53, 0x45, 0x45, 0xf5, 0x5c, 0xf4, 0x3e, 0x41, 0x98, 0x3f, 0x5d, 0x4c, 0x94, 0x56
        ]
    );
}

#[test]
fn tagged_hash_construction() {
    let tag = Sha256::digest(b"T");
    let mut h = Sha256::new();
    h.update(tag);
    h.update(tag);
    h.update(b"msg");
    assert_eq!(tagged_hash("T", b"msg").as_slice(), h.finalize().as_slice());
}

#[test]
fn hash160_is_ripemd_of_sha() {
    let inner = Sha256::digest(b"abc");
    let expected = Ripemd160::digest(inner);
    assert_eq!(hash160(b"abc").as_slice(), expected.as_slice());
}

#[test]
fn compact_size_roundtrip() {
    for n in [0u64, 1, 0xfc, 0xfd, 0xffff, 0x1_0000, 0xffff_ffff, 0x1_0000_0000, u64::MAX] {
        let mut out = Vec::new();
        write_compact_size(&mut out, n);
        let expected_len = if n < 0xfd { 1 } else if n <= 0xffff { 3 } else if n <= 0xffff_ffff { 5 } else { 9 };
        assert_eq!(out.len(), expected_len);
        assert_eq!(read_compact_size(&out, 0).unwrap(), (n, expected_len));
    }
    assert!(read_compact_size(&[0xfd, 0x01], 0).is_err());
}
