use curve25519_dalek_ng::constants::RISTRETTO_BASEPOINT_POINT;
use curve25519_dalek_ng::scalar::Scalar;
use ferrous::consensus::block::{Block, BlockHeader};
use ferrous::consensus::transaction::{
    BlindingFactor, RangeProof, TransactionV2, TxInputV2, TxKind, TxOutputV2, TX_VERSION_V2,
};
use ferrous::consensus::utxo::OutPoint;
use ferrous::crypto::commitments::{
    RANGE_PROOF_LEN,
    commit, decrypt_amount, negated_blinding, encrypt_amount, generate_range_proof, verify_balance, verify_range_proof,
    CommitmentError, AMOUNT_PLAINTEXT_LEN,
};
use ferrous::wallet::scan::{scan_v2_outputs, V2UtxoCache};

fn view_key(seed: u8) -> ([u8; 32], [u8; 32]) {
    let mut wide = [0u8; 64];
    wide[0] = seed;
    wide[63] = seed;
    let s = Scalar::from_bytes_mod_order_wide(&wide);
    (s.to_bytes(), (s * RISTRETTO_BASEPOINT_POINT).compress().to_bytes())
}

#[test]
fn test_commitment_roundtrip() {
    let b = BlindingFactor([3u8; 32]);
    assert_eq!(commit(1000, &b), commit(1000, &b));
    assert_ne!(commit(1000, &b), commit(1001, &b));
}

#[test]
fn test_ecdh_encrypt_decrypt_roundtrip() {
    let (view_scalar, view_pubkey) = view_key(0x42);
    let value = 7_777_777u64;
    let blind = BlindingFactor([13u8; 32]);
    let (enc, eph) = encrypt_amount(value, &blind, &view_pubkey).unwrap();
    assert_eq!(enc.len(), AMOUNT_PLAINTEXT_LEN);
    let (dv, db) = decrypt_amount(&enc, &eph, &view_scalar).expect("decrypt must succeed");
    assert_eq!(dv, value);
    assert_eq!(db, blind);
    let (wrong_scalar, _) = view_key(0x99);
    assert_ne!(decrypt_amount(&enc, &eph, &wrong_scalar), Some((value, blind)));
    assert!(decrypt_amount(&enc[..39], &eph, &view_scalar).is_none());
}

#[test]
fn encrypt_to_invalid_key_fails() {
    assert!(encrypt_amount(1, &BlindingFactor([0u8; 32]), &[0xffu8; 32]).is_none());
}

#[test]
fn test_balance_invalid() {
    let b = BlindingFactor([5u8; 32]);
    let ins = [commit(1000, &b)];
    assert!(verify_balance(&ins, &[commit(900, &b)], 100));
    assert!(!verify_balance(&ins, &[commit(901, &b)], 100));
    assert!(!verify_balance(&ins, &[ferrous::consensus::transaction::PedersenCommitment([0xffu8; 32])], 100));
}

#[test]
fn test_range_proof_valid() {
    let b = BlindingFactor([9u8; 32]);
    let c = commit(1000, &b);
    let proof = generate_range_proof(1000, &b).expect("generate small");
    assert_eq!(verify_range_proof(&c, &proof), Ok(()));
}

#[test]
fn test_range_proof_invalid() {
    let b = BlindingFactor([9u8; 32]);
    let proof = generate_range_proof(1000, &b).expect("generate");
    let other = commit(2000, &b);
    assert_eq!(verify_range_proof(&other, &proof), Err(CommitmentError::ProofVerification));
    assert_eq!(verify_range_proof(&other, &RangeProof(vec![0u8; 31])), Err(CommitmentError::InvalidProofEncoding));
}

#[test]
fn test_v2_scan_finds_output() {
    let (view_scalar, view_pubkey) = view_key(0x55);
    let value = 12_345u64;
    let blind = BlindingFactor([7u8; 32]);
    let commitment = commit(value, &blind);
    let (enc, eph) = encrypt_amount(value, &blind, &view_pubkey).unwrap();
    let tx = TransactionV2 {
        version: TX_VERSION_V2,
        inputs: vec![TxInputV2 { prev_txid: [1u8; 32], prev_index: 0, script_sig: vec![], sequence: 0xFFFF_FFFF }],
        outputs: vec![TxOutputV2 {
            commitment,
            range_proof: RangeProof(vec![]),
            script_pubkey: vec![],
            encrypted_amount: enc,
            ephemeral_pubkey: eph,
        }],
        fee: 0,
        locktime: 0,
    };
    let txid = tx.txid();
    let block = Block {
        header: BlockHeader { version: 1, prev_block_hash: [0u8; 32], merkle_root: [0u8; 32], timestamp: 0, n_bits: 0, nonce: 0 },
        transactions: vec![TxKind::V2(tx)],
    };
    let mut cache = V2UtxoCache::new();
    assert!(cache.is_empty());
    scan_v2_outputs(&block, &view_scalar, &mut cache);
    assert_eq!(cache.len(), 1);
    let found = cache.get(&OutPoint { txid, vout: 0 }).expect("output found");
    assert_eq!(found.0, value);
    assert_eq!(found.1, blind);
    let (wrong_scalar, _) = view_key(0xEE);
    let mut empty = V2UtxoCache::new();
    scan_v2_outputs(&block, &wrong_scalar, &mut empty);
    assert!(empty.is_empty());
}

#[test]
fn range_proofs_have_fixed_length() {
    let b = BlindingFactor([3u8; 32]);
    let p = generate_range_proof(u64::MAX, &b).unwrap();
    assert_eq!(p.0.len(), RANGE_PROOF_LEN);
    assert_eq!(generate_range_proof(0, &b).unwrap().0.len(), 672);
}

#[test]
fn negated_blinding_is_the_additive_inverse() {
    let mut one = [0u8; 32];
    one[0] = 1;
    let minus_one: [u8; 32] = [
        0xec, 0xd3, 0xf5, 0x5c, 0x1a, 0x63, 0x12, 0x58, 0xd6, 0x9c, 0xf7, 0xa2, 0xde, 0xf9, 0xde, 0x14,
        0, 0, 0, 0, 0, 0, 0, 0, 0, 0, 0, 0, 0, 0, 0, 0x10,
    ];
    assert_eq!(negated_blinding(&BlindingFactor(one)).0, minus_one);
    assert_eq!(negated_blinding(&BlindingFactor([0u8; 32])).0, [0u8; 32]);
    assert_eq!(negated_blinding(&BlindingFactor(minus_one)).0, one);
}
