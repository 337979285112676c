use ferrous::consensus::block::U256;
use ferrous::storage::blocks::{height_index_key, max_stored_height, BlockMeta};
use ferrous::storage::schema::{height_to_key, key_to_height};

#[test]
fn height_key_is_big_endian() {
    assert_eq!(height_to_key(0x0102_0304), [1, 2, 3, 4]);
    assert_eq!(key_to_height(&[1, 2, 3, 4]), 0x0102_0304);
}

#[test]
fn height_key_roundtrip() {
    for h in [0u32, 1, 255, 256, 65_535, 1_000_000, u32::MAX] {
        assert_eq!(key_to_height(&height_to_key(h)), h);
    }
}

#[test]
fn height_keys_sort_like_heights() {
    let heights = [0u32, 1, 255, 256, 65_536, 16_777_216, u32::MAX];
    for w in heights.windows(2) {
        assert!(height_to_key(w[0]) < height_to_key(w[1]));
    }
}

#[test]
fn block_meta_roundtrip() {
    let meta = BlockMeta { height: 1234567, hash: [9u8; 32], cumulative_work: U256([3u8; 32]) };
    let bytes = meta.to_bytes();
    assert_eq!(bytes.len(), 72);
    assert_eq!(&bytes[0..8], &1234567u64.to_le_bytes());
    let back = BlockMeta::from_bytes(&bytes).unwrap();
    assert_eq!(back.height, meta.height);
    assert_eq!(back.hash, meta.hash);
    assert_eq!(back.cumulative_work, meta.cumulative_work);
}

#[test]
fn block_meta_too_short() {
    let err = BlockMeta::from_bytes(&[0u8; 71]).err().unwrap();
    assert_eq!(err, "Invalid BlockMeta bytes");
}

#[test]
fn block_meta_ignores_trailing_bytes() {
    let mut bytes = vec![0u8; 80];
    bytes[0] = 5;
    let m = BlockMeta::from_bytes(&bytes).unwrap();
    assert_eq!(m.height, 5);
}

#[test]
fn height_index_keys_are_little_endian() {
    assert_eq!(height_index_key(0x0102_0304_0506_0708), vec![8, 7, 6, 5, 4, 3, 2, 1]);
    assert_eq!(height_index_key(0), vec![0u8; 8]);
}

#[test]
fn highest_stored_height() {
    assert_eq!(max_stored_height(&[]), None);
    let keys = vec![height_index_key(5), height_index_key(300), vec![1, 2, 3], height_index_key(7)];
    assert_eq!(max_stored_height(&keys), Some(300));
    assert_eq!(max_stored_height(&[vec![9]]), Some(0));
    let mut long = height_index_key(12);
    long.push(0xff);
    assert_eq!(max_stored_height(&[long]), Some(12));
}

#[test]
fn height_key_order_matches_height_order_both_ways() {
    let heights = [7u32, 0, 65_535, 256, u32::MAX, 255, 16_777_215, 1];
    for &a in &heights {
        for &b in &heights {
            assert_eq!(height_to_key(a) < height_to_key(b), a < b);
        }
    }
}

#[test]
fn short_block_meta_names_its_error() {
    assert_eq!(BlockMeta::from_bytes(&[0u8; 71]).err(), Some("Invalid BlockMeta bytes".to_string()));
    assert!(BlockMeta::from_bytes(&[0u8; 72]).is_ok());
}
