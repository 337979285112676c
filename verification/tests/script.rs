use vstd::seq::Seq;
use ferrous::consensus::transaction::{Transaction, TxInput, TxOutput};
use ferrous::script::engine::{
    execute_script, is_p2dl, is_true, parse_pushdata2, validate_p2dl, verify_p2dl_signature, ScriptContext, ScriptError,
    SignatureCheck, DILITHIUM_PUBKEY_LEN, DILITHIUM_SIG_LEN, MAX_SCRIPT_SIZE,
};
use ferrous::script::sighash::{compute_sighash, SighashError};
use ferrous::primitives::hash::{sha256d, tagged_hash};
use ferrous::wallet::address::dilithium_pubkey_hash;
use ferrous::wallet::builder::p2dl_script_sig;

struct Accept;
impl SignatureCheck for Accept {
    fn accepts(&self, _pubkey: Seq<u8>, _message: Seq<u8>, _signature: Seq<u8>) -> bool {
        true
    }

    fn verify(&self, _pubkey: &[u8], _message: &[u8], _signature: &[u8]) -> bool {
        true
    }
}

struct Reject;
impl SignatureCheck for Reject {
    fn accepts(&self, _pubkey: Seq<u8>, _message: Seq<u8>, _signature: Seq<u8>) -> bool {
        false
    }

    fn verify(&self, _pubkey: &[u8], _message: &[u8], _signature: &[u8]) -> bool {
        false
    }
}

/// A stand-in signature scheme for the tests: a signature is valid when it
/// begins with the double SHA-256 of the key followed by the message.
struct KeyedHash;
impl SignatureCheck for KeyedHash {
    fn accepts(&self, _pubkey: Seq<u8>, _message: Seq<u8>, _signature: Seq<u8>) -> bool {
        unreachable!("a specification, read only by the verifier")
    }

    fn verify(&self, pubkey: &[u8], message: &[u8], signature: &[u8]) -> bool {
        let mut data = pubkey.to_vec();
        data.extend_from_slice(message);
        signature.len() >= 32 && signature[..32] == sha256d(&data)
    }
}

fn keyed_sign(pubkey: &[u8], message: &[u8]) -> Vec<u8> {
    let mut data = pubkey.to_vec();
    data.extend_from_slice(message);
    let mut sig = sha256d(&data).to_vec();
    sig.resize(DILITHIUM_SIG_LEN, 0);
    sig
}

fn one_input_tx() -> Transaction {
    Transaction {
        version: 1,
        inputs: vec![TxInput { prev_txid: [1u8; 32], prev_index: 0, script_sig: vec![], sequence: 0xFFFF_FFFF }],
        outputs: vec![TxOutput { value: 5, script_pubkey: vec![0x51] }],
        witnesses: vec![],
        locktime: 0,
    }
}

fn p2dl_for(pk: &[u8]) -> Vec<u8> {
    let mut s = vec![0xaa, 0x20];
    s.extend_from_slice(&dilithium_pubkey_hash(pk));
    s.push(0x88);
    s.push(0xac);
    s
}

#[test]
fn arithmetic_free_scripts() {
    let tx = one_input_tx();
    let spent = vec![TxOutput { value: 10, script_pubkey: vec![] }];
    let ctx = ScriptContext { transaction: &tx, input_index: 0, spent_outputs: &spent };
    let stack = execute_script(&[0x51, 0x51, 0x87], vec![], &ctx, &Reject).unwrap();
    assert_eq!(stack, vec![vec![1u8]]);
    let stack = execute_script(&[0x52, 0x76], vec![], &ctx, &Reject).unwrap();
    assert_eq!(stack, vec![vec![2u8], vec![2u8]]);
    assert_eq!(execute_script(&[0x75], vec![], &ctx, &Reject), Err(ScriptError::StackUnderflow));
    assert_eq!(execute_script(&[0x6a], vec![], &ctx, &Reject), Err(ScriptError::ExecutionFailed));
    assert_eq!(execute_script(&[0xff], vec![], &ctx, &Reject), Err(ScriptError::InvalidOpcode));
    let big = vec![0x61u8; MAX_SCRIPT_SIZE + 1];
    assert_eq!(execute_script(&big, vec![], &ctx, &Reject), Err(ScriptError::ScriptTooLarge));
}

#[test]
fn truthiness() {
    assert!(!is_true(&[]));
    assert!(!is_true(&[0, 0]));
    assert!(is_true(&[0, 1]));
}

#[test]
fn p2dl_shape() {
    let pk = vec![3u8; DILITHIUM_PUBKEY_LEN];
    assert!(is_p2dl(&p2dl_for(&pk)));
    assert!(!is_p2dl(&[0x51]));
}

#[test]
fn test_valid_p2dl() {
    let pk = vec![3u8; DILITHIUM_PUBKEY_LEN];
    let sig = vec![4u8; DILITHIUM_SIG_LEN];
    let spk = p2dl_for(&pk);
    let tx = one_input_tx();
    let spent = vec![TxOutput { value: 10, script_pubkey: spk.clone() }];
    let ctx = ScriptContext { transaction: &tx, input_index: 0, spent_outputs: &spent };
    let script_sig = p2dl_script_sig(&sig, &pk);
    assert_eq!(validate_p2dl(&script_sig, &spk, &ctx, &Accept), Ok(true));
    assert_eq!(validate_p2dl(&script_sig, &spk, &ctx, &Reject), Ok(false));
    // a signature of this input's signature hash under this key
    let sighash = compute_sighash(&tx, 0, &spent).unwrap();
    let signed = p2dl_script_sig(&keyed_sign(&pk, &sighash), &pk);
    assert_eq!(validate_p2dl(&signed, &spk, &ctx, &KeyedHash), Ok(true));
    // key and message handed over in the other order do not verify
    let swapped = p2dl_script_sig(&keyed_sign(&sighash, &pk), &pk);
    assert_eq!(validate_p2dl(&swapped, &spk, &ctx, &KeyedHash), Ok(false));
}

#[test]
fn test_wrong_pubkey_hash() {
    let pk = vec![3u8; DILITHIUM_PUBKEY_LEN];
    let other = vec![5u8; DILITHIUM_PUBKEY_LEN];
    let sig = vec![4u8; DILITHIUM_SIG_LEN];
    let spk = p2dl_for(&other);
    let script_sig = p2dl_script_sig(&sig, &pk);
    assert_eq!(verify_p2dl_signature(&script_sig, &spk, &[0u8; 32], &Accept), Ok(false));
}

#[test]
fn test_malformed_script_sig() {
    let pk = vec![3u8; DILITHIUM_PUBKEY_LEN];
    let spk = p2dl_for(&pk);
    assert_eq!(verify_p2dl_signature(&[], &spk, &[0u8; 32], &Accept), Err(ScriptError::InvalidPushSize));
    let short_sig = p2dl_script_sig(&vec![4u8; 100], &pk);
    assert_eq!(verify_p2dl_signature(&short_sig, &spk, &[0u8; 32], &Accept), Err(ScriptError::InvalidSignature));
    let short_pk = p2dl_script_sig(&vec![4u8; DILITHIUM_SIG_LEN], &vec![3u8; 100]);
    assert_eq!(verify_p2dl_signature(&short_pk, &spk, &[0u8; 32], &Accept), Err(ScriptError::InvalidPubkey));
}

#[test]
fn sighash_errors() {
    let tx = one_input_tx();
    let spent = vec![TxOutput { value: 10, script_pubkey: vec![] }];
    assert_eq!(compute_sighash(&tx, 1, &spent), Err(SighashError::InputIndexOutOfBounds));
    assert_eq!(compute_sighash(&tx, 0, &[]), Err(SighashError::SpentOutputsMismatch));
    let a = compute_sighash(&tx, 0, &spent).unwrap();
    let mut tx2 = one_input_tx();
    tx2.outputs[0].value = 6;
    assert_ne!(a, compute_sighash(&tx2, 0, &spent).unwrap());
}

#[test]
fn test_wrong_signature() {
    let pk = vec![3u8; DILITHIUM_PUBKEY_LEN];
    let spk = p2dl_for(&pk);
    let tx = one_input_tx();
    let spent = vec![TxOutput { value: 10, script_pubkey: spk.clone() }];
    let ctx = ScriptContext { transaction: &tx, input_index: 0, spent_outputs: &spent };
    // a signature the checker does not accept, padded to the signature size
    let mut bad_sig = b"wrong message".to_vec();
    bad_sig.resize(DILITHIUM_SIG_LEN, 0);
    let script_sig = p2dl_script_sig(&bad_sig, &pk);
    assert_eq!(validate_p2dl(&script_sig, &spk, &ctx, &Reject), Ok(false));
    let signed_wrong = p2dl_script_sig(&keyed_sign(&pk, b"wrong message"), &pk);
    assert_eq!(validate_p2dl(&signed_wrong, &spk, &ctx, &KeyedHash), Ok(false));
}

#[test]
fn checksig_hands_key_message_and_signature_over() {
    let pk = vec![3u8; 40];
    let tx = one_input_tx();
    let spent = vec![TxOutput { value: 10, script_pubkey: vec![] }];
    let ctx = ScriptContext { transaction: &tx, input_index: 0, spent_outputs: &spent };
    let sighash = compute_sighash(&tx, 0, &spent).unwrap();
    let sig = keyed_sign(&pk, &sighash);
    // stack: signature, then key on top; OP_CHECKSIG
    let stack = execute_script(&[0xac], vec![sig.clone(), pk.clone()], &ctx, &KeyedHash).unwrap();
    assert_eq!(stack, vec![vec![1u8]]);
    let stack = execute_script(&[0xac], vec![pk.clone(), sig.clone()], &ctx, &KeyedHash).unwrap();
    assert_eq!(stack, vec![Vec::<u8>::new()]);
    assert_eq!(execute_script(&[0xad], vec![pk, sig], &ctx, &KeyedHash), Err(ScriptError::VerifyFailed));
}

fn mock_p2dl_script() -> Vec<u8> {
    let mut s = vec![0xaa, 0x20];
    s.extend_from_slice(&[0u8; 32]);
    s.push(0x88);
    s.push(0xac);
    s
}

#[test]
fn test_p2dl_sighash_v2_roundtrip() {
    let script_pubkey = mock_p2dl_script();
    assert_eq!(script_pubkey.len(), 36);
    let spent = TxOutput { value: 1_000_000, script_pubkey };
    let tx = Transaction {
        version: 1,
        inputs: vec![TxInput { prev_txid: [1u8; 32], prev_index: 0, script_sig: Vec::new(), sequence: 0xFFFF_FFFF }],
        outputs: vec![TxOutput { value: 999_000, script_pubkey: mock_p2dl_script() }],
        witnesses: Vec::new(),
        locktime: 0,
    };
    let hash = compute_sighash(&tx, 0, &[spent]).expect("sighash failed");
    assert_eq!(hash.len(), 32);
    let v1 = tagged_hash("FerrousSighash", b"ferrous");
    let v2 = tagged_hash("FerrousSighashV2", b"ferrous");
    assert_ne!(v1, v2, "V1 and V2 tags must domain-separate");
}

#[test]
fn pushdata2_reads_back_what_was_pushed() {
    let data = vec![7u8; 300];
    let mut buf = vec![1u8, 2, 3, 0x4d, (300 % 256) as u8, (300 / 256) as u8];
    buf.extend_from_slice(&data);
    buf.extend_from_slice(&[9, 9]);
    assert_eq!(parse_pushdata2(&buf, 3), Ok((&data[..], 306)));
    assert_eq!(parse_pushdata2(&buf, 0), Err(ScriptError::InvalidPushSize));
    assert_eq!(parse_pushdata2(&[0x4d, 1], 0), Err(ScriptError::UnexpectedEof));
    assert_eq!(parse_pushdata2(&[0x4d, 5, 0, 1], 0), Err(ScriptError::InvalidPushSize));
}

#[test]
fn sighash_ignores_filled_in_signatures() {
    let mut tx = one_input_tx();
    let spent = vec![TxOutput { value: 10, script_pubkey: vec![0x51] }];
    let before = compute_sighash(&tx, 0, &spent).unwrap();
    tx.inputs[0].script_sig = vec![1, 2, 3, 4];
    assert_eq!(compute_sighash(&tx, 0, &spent).unwrap(), before);
    tx.outputs[0].value += 1;
    assert_ne!(compute_sighash(&tx, 0, &spent).unwrap(), before);
}
