use sha2::{Digest, Sha256};
use ferrous::consensus::block::{compact_to_target, BlockHeader, Order, TargetError, U256, HEADER_SIZE};
use ferrous::consensus::chain::{block_locator, median_timestamp, should_update_tip, ChainError};
use ferrous::consensus::difficulty::{
    calculate_next_target, u256_to_compact, validate_difficulty, DifficultyError,
    REGTEST_MAX_TARGET,
};
use ferrous::consensus::index::{ChainIndex, Placement};
use ferrous::consensus::params::Network;

fn regtest_header(nonce: u64) -> BlockHeader {
    BlockHeader {
        version: 1,
        prev_block_hash: [0u8; 32],
        merkle_root: [1u8; 32],
        timestamp: 1_700_000_000,
        n_bits: 0x207fffff,
        nonce,
    }
}

fn u256_from_u64(v: u64) -> U256 {
    let mut b = [0u8; 32];
    b[..8].copy_from_slice(&v.to_le_bytes());
    U256(b)
}

#[test]
fn header_encode_decode_roundtrip() {
    let h = regtest_header(42);
    let bytes = h.encode();
    assert_eq!(bytes.len(), HEADER_SIZE);
    assert_eq!(&bytes[0..4], &1u32.to_le_bytes());
    assert_eq!(&bytes[80..88], &42u64.to_le_bytes());
    let (back, used) = BlockHeader::decode(&bytes).unwrap();
    assert_eq!(used, 88);
    assert_eq!(back, h);
    assert!(BlockHeader::decode(&bytes[..87]).is_err());
}

#[test]
fn header_hash_is_double_sha256_of_encoding() {
    let h = regtest_header(7);
    let first = Sha256::digest(h.encode());
    let second = Sha256::digest(first);
    assert_eq!(h.hash().as_slice(), second.as_slice());
}

#[test]
fn compact_target_decodes() {
    let t = compact_to_target(0x207fffff).unwrap();
    assert_eq!(t, U256(REGTEST_MAX_TARGET));
    assert_eq!(u256_to_compact(&t), 0x207fffff);
    let small = compact_to_target(0x03001234).unwrap();
    assert_eq!(small, u256_from_u64(0x1234));
    assert_eq!(compact_to_target(0x04800000), Err(TargetError::NegativeEncoding));
    assert!(compact_to_target(0x22000001).is_err());
}

#[test]
fn compact_roundtrip_of_network_targets() {
    for n in [Network::Mainnet, Network::Testnet, Network::Regtest] {
        let max = n.params().max_target;
        let c = u256_to_compact(&max);
        let t = compact_to_target(c).unwrap();
        assert_ne!(t.compare(&max), Order::Above);
        assert_eq!(u256_to_compact(&t), c);
    }
}

#[test]
fn proof_of_work_against_easy_target() {
    let mut found = false;
    for nonce in 0..64u64 {
        let h = regtest_header(nonce);
        let ok = h.check_proof_of_work().unwrap();
        let hash = U256::from_le_bytes(h.hash());
        assert_eq!(ok, hash.compare(&U256(REGTEST_MAX_TARGET)) != Order::Above);
        found |= ok;
    }
    assert!(found);
}

#[test]
fn invalid_target_fails_pow_check() {
    let mut h = regtest_header(0);
    h.n_bits = 0x21800000;
    assert!(h.check_proof_of_work().is_err());
}

#[test]
fn u256_add_wraps() {
    assert_eq!(u256_from_u64(2).add(&u256_from_u64(3)), u256_from_u64(5));
    let max = U256([0xff; 32]);
    assert_eq!(max.add(&u256_from_u64(1)), U256([0u8; 32]));
    let a = u256_from_u64(u64::MAX);
    let mut expect = [0u8; 32];
    expect[..8].copy_from_slice(&(u64::MAX - 1).to_le_bytes());
    expect[8] = 1;
    assert_eq!(a.add(&a), U256(expect));
}

#[test]
fn u256_compare_by_value() {
    assert_eq!(u256_from_u64(1).compare(&u256_from_u64(2)), Order::Below);
    assert_eq!(u256_from_u64(2).compare(&u256_from_u64(2)), Order::Same);
    let mut hi = [0u8; 32];
    hi[31] = 1;
    assert_eq!(U256(hi).compare(&u256_from_u64(u64::MAX)), Order::Above);
}

#[test]
fn network_prefixes_and_params() {
    assert_eq!(Network::Mainnet.prefix(), 0x00);
    assert_eq!(Network::Testnet.prefix(), 0x6f);
    assert_eq!(Network::Regtest.prefix(), 0x6f);
    assert_eq!(Network::Mainnet.params().target_block_time, 150);
    assert_eq!(Network::Regtest.params().target_block_time, 1);
    assert!(!Network::Regtest.params().difficulty_adjustment);
}

#[test]
fn regtest_target_never_changes() {
    let params = Network::Regtest.params();
    let prev = regtest_header(0);
    let t = calculate_next_target(&prev, prev.timestamp + 1, &params, &[]).unwrap();
    assert_eq!(t, U256(REGTEST_MAX_TARGET));
    assert_eq!(validate_difficulty(Some(&prev), &regtest_header(1), &params, &[]), Ok(()));
    assert_eq!(validate_difficulty(None, &regtest_header(1), &params, &[]), Ok(()));
}

#[test]
fn wrong_target_is_refused() {
    let params = Network::Regtest.params();
    let prev = regtest_header(0);
    let mut cur = regtest_header(1);
    cur.n_bits = 0x1f00ffff;
    match validate_difficulty(Some(&prev), &cur, &params, &[]) {
        Err(DifficultyError::TargetMismatch { .. }) => {}
        other => panic!("unexpected {:?}", other),
    }
}

#[test]
fn median_of_timestamps() {
    assert_eq!(median_timestamp(&[]), 0);
    assert_eq!(median_timestamp(&[5]), 5);
    assert_eq!(median_timestamp(&[3, 1, 2]), 2);
    assert_eq!(median_timestamp(&[4, 1, 3, 2]), 3);
    assert_eq!(median_timestamp(&[10, 10, 1, 10, 1]), 10);
    let ts: Vec<u64> = (0..11).rev().collect();
    assert_eq!(median_timestamp(&ts), 5);
}

#[test]
fn tip_follows_most_work() {
    assert!(should_update_tip(None, &u256_from_u64(1)));
    assert!(should_update_tip(Some(u256_from_u64(1)), &u256_from_u64(2)));
    assert!(!should_update_tip(Some(u256_from_u64(2)), &u256_from_u64(2)));
    assert!(!should_update_tip(Some(u256_from_u64(3)), &u256_from_u64(2)));
}

#[test]
fn chain_error_from_string() {
    let e: ChainError = String::from("disk").into();
    assert_eq!(e, ChainError::DbError("disk".to_string()));
}

#[test]
fn locator_steps_back_then_doubles() {
    let hashes: Vec<[u8; 32]> = (0u8..15).map(|i| [i; 32]).collect();
    let loc = block_locator(&hashes);
    let heights: Vec<u8> = loc.iter().map(|h| h[0]).collect();
    assert_eq!(heights, vec![14, 13, 12, 11, 10, 9, 8, 7, 6, 5, 3, 0]);
}

#[test]
fn locator_of_empty_chain_is_zero_hash() {
    assert_eq!(block_locator(&[]), vec![[0u8; 32]]);
}

#[test]
fn locator_of_genesis_only() {
    assert_eq!(block_locator(&[[7u8; 32]]), vec![[7u8; 32]]);
}

fn indexed_header(prev: [u8; 32], timestamp: u64, n_bits: u32) -> BlockHeader {
    BlockHeader { version: 1, prev_block_hash: prev, merkle_root: [0u8; 32], timestamp, n_bits, nonce: 0 }
}

#[test]
fn chain_index_tracks_best_chain() {
    let params = Network::Regtest.params();
    let g = [1u8; 32];
    let a1 = [2u8; 32];
    let b1 = [3u8; 32];
    let b2 = [4u8; 32];
    let mut index = ChainIndex::new();
    assert_eq!(index.get_height(), 0);
    assert_eq!(index.median_time_past(), 0);
    let r = index.add_block(g, indexed_header([0u8; 32], 100, 0x207fffff), u256_from_u64(10), &params, &[]);
    assert_eq!(r, Ok(Placement::NewTip { reorg: false }));
    let r = index.add_block(a1, indexed_header(g, 200, 0x207fffff), u256_from_u64(10), &params, &[]);
    assert_eq!(r, Ok(Placement::NewTip { reorg: false }));
    let r = index.add_block(b1, indexed_header(g, 200, 0x207fffff), u256_from_u64(5), &params, &[]);
    assert_eq!(r, Ok(Placement::SideChain));
    assert_eq!(index.tip(), Some(a1));
    let r = index.add_block(b2, indexed_header(b1, 300, 0x207fffff), u256_from_u64(10), &params, &[]);
    assert_eq!(r, Ok(Placement::NewTip { reorg: true }));
    assert_eq!(index.tip(), Some(b2));
    assert_eq!(index.get_height(), 2);
    assert_eq!(index.get(&b2).unwrap().cumulative_work, u256_from_u64(25));
    assert_eq!(index.median_time_past(), 200);
    let (ancestor, new_chain) = index.find_fork(&a1, &b2);
    assert_eq!(ancestor, g);
    assert_eq!(new_chain, vec![b2, b1]);
    let (ancestor, new_chain) = index.find_fork(&b2, &b2);
    assert_eq!(ancestor, b2);
    assert!(new_chain.is_empty());
}

#[test]
fn chain_index_refusals_change_nothing() {
    let params = Network::Regtest.params();
    let g = [1u8; 32];
    let mut index = ChainIndex::new();
    index.add_block(g, indexed_header([0u8; 32], 100, 0x207fffff), u256_from_u64(10), &params, &[]).unwrap();
    let r = index.add_block([5u8; 32], indexed_header([9u8; 32], 200, 0x207fffff), u256_from_u64(1), &params, &[]);
    assert_eq!(r, Err(ChainError::OrphanBlock));
    let r = index.add_block([6u8; 32], indexed_header(g, 200, 0x1d00ffff), u256_from_u64(1), &params, &[]);
    assert!(matches!(r, Err(ChainError::InvalidDifficulty(_))));
    assert_eq!(index.len(), 1);
    assert_eq!(index.tip(), Some(g));
    assert!(!index.has_block(&[6u8; 32]));
}

#[test]
fn chain_index_reloads_stored_chain() {
    let g = [1u8; 32];
    let a = [2u8; 32];
    let mut index = ChainIndex::new();
    assert!(index.restore_block(a, indexed_header(g, 200, 0x207fffff), u256_from_u64(3)).is_err());
    index.restore_block(g, indexed_header([0u8; 32], 100, 0x207fffff), u256_from_u64(2)).unwrap();
    index.restore_block(a, indexed_header(g, 200, 0x207fffff), u256_from_u64(3)).unwrap();
    assert_eq!(index.tip(), None);
    assert!(index.restore_tip([7u8; 32]).is_err());
    index.restore_tip(a).unwrap();
    assert_eq!(index.get_height(), 1);
    assert_eq!(index.get_tip().unwrap().cumulative_work, u256_from_u64(5));
}

fn retarget_parent() -> BlockHeader {
    BlockHeader {
        version: 1,
        prev_block_hash: [0u8; 32],
        merkle_root: [1u8; 32],
        timestamp: 1_700_000_000,
        n_bits: 0x1d00ffff,
        nonce: 0,
    }
}

#[test]
fn later_time_never_lowers_target() {
    let prev = retarget_parent();
    let t0 = prev.timestamp;
    let window = [t0 - 300, t0 - 150, t0];
    for n in [Network::Mainnet, Network::Testnet] {
        let params = n.params();
        for w in [&window[..], &[][..]] {
            let mut last: Option<U256> = None;
            for dt in [0u64, 10, 100, 150, 179, 181, 600, 5_000] {
                let t = calculate_next_target(&prev, t0 + dt, &params, w).unwrap();
                if let Some(l) = last {
                    assert_ne!(l.compare(&t), Order::Above);
                }
                last = Some(t);
            }
        }
    }
}

#[test]
fn header_stamped_with_called_for_target_is_accepted() {
    let prev = retarget_parent();
    let t0 = prev.timestamp;
    let window = [t0 - 300, t0 - 150, t0];
    let stamped = |params: &ferrous::consensus::params::ChainParams, dt: u64| {
        let t = calculate_next_target(&prev, t0 + dt, params, &window).unwrap();
        let mut hdr = retarget_parent();
        hdr.prev_block_hash = prev.hash();
        hdr.timestamp = t0 + dt;
        hdr.n_bits = u256_to_compact(&t);
        validate_difficulty(Some(&prev), &hdr, params, &window)
    };
    for dt in [1u64, 150, 181, 10_000] {
        assert_eq!(stamped(&Network::Mainnet.params(), dt), Ok(()));
        assert_eq!(stamped(&Network::Regtest.params(), dt), Ok(()));
    }
    for dt in [1u64, 150, 180] {
        assert_eq!(stamped(&Network::Testnet.params(), dt), Ok(()));
    }
    // The testnet maximum has no exact compact form, so a minimum-difficulty
    // header stamped with it carries a slightly smaller target.
    assert!(matches!(
        stamped(&Network::Testnet.params(), 10_000),
        Err(DifficultyError::TargetMismatch { .. })
    ));
}

#[test]
fn compact_form_keeps_three_leading_bytes() {
    let whole = u256_from_u64(0x7f_ffff);
    assert_eq!(compact_to_target(u256_to_compact(&whole)).unwrap(), whole);
    let c = u256_to_compact(&u256_from_u64(0x1234_5678));
    assert_eq!(c, 0x0412_3456);
    assert_eq!(compact_to_target(c).unwrap(), u256_from_u64(0x1234_5600));
    assert_eq!(u256_to_compact(&u256_from_u64(0x1234_5600)), c);
    let high = u256_from_u64(0x80_0001);
    let c = u256_to_compact(&high);
    assert_eq!(c, 0x0400_8000);
    assert_eq!(compact_to_target(c).unwrap(), u256_from_u64(0x80_0000));
    assert_eq!(u256_to_compact(&U256([0u8; 32])), 0);
}
