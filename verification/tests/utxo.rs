use vstd::seq::Seq;
use ferrous::consensus::transaction::{Transaction, TxInput, TxOutput, Witness};
use ferrous::consensus::utxo::{OutPoint, UtxoEntry, UtxoEntryV2, UtxoError, UtxoSet, COINBASE_MATURITY};
use ferrous::consensus::chain::{apply_block_to_utxo, ChainError};
use ferrous::script::engine::{SignatureCheck, DILITHIUM_PUBKEY_LEN, DILITHIUM_SIG_LEN};
use ferrous::wallet::address::dilithium_pubkey_hash;
use ferrous::wallet::builder::p2dl_script_sig;

struct Never;
impl SignatureCheck for Never {
    fn accepts(&self, _pubkey: Seq<u8>, _message: Seq<u8>, _signature: Seq<u8>) -> bool {
        false
    }

    fn verify(&self, _pubkey: &[u8], _message: &[u8], _signature: &[u8]) -> bool {
        false
    }
}

fn tx_spending(prev: &[(u8, u32)], values: &[u64]) -> Transaction {
    Transaction {
        version: 1,
        inputs: prev
            .iter()
            .map(|(t, i)| TxInput { prev_txid: [*t; 32], prev_index: *i, script_sig: vec![], sequence: 0xFFFF_FFFF })
            .collect(),
        outputs: values.iter().map(|v| TxOutput { value: *v, script_pubkey: vec![0x51] }).collect(),
        witnesses: vec![Witness { stack_items: vec![] }],
        locktime: 0,
    }
}

fn entry(value: u64, coinbase: bool, height: u64) -> UtxoEntry {
    UtxoEntry { output: TxOutput { value, script_pubkey: vec![0x51] }, coinbase, height }
}

#[test]
fn add_then_spend() {
    let mut set = UtxoSet::new();
    let tx = tx_spending(&[(1, 0)], &[10, 20]);
    set.add_transaction(&tx, 5, false).unwrap();
    let txid = tx.txid();
    let op0 = OutPoint { txid, vout: 0 };
    let op1 = OutPoint { txid, vout: 1 };
    assert!(set.contains(&op0) && set.contains(&op1));
    assert_eq!(set.get(&op1).unwrap().output.value, 20);
    let spent = set.spend_input(&op0, 6).unwrap();
    assert_eq!(spent.output.value, 10);
    assert!(!set.contains(&op0));
    assert_eq!(set.spend_input(&op0, 6).err(), Some(UtxoError::UtxoNotFound));
}

#[test]
fn duplicate_outputs_are_refused() {
    let mut set = UtxoSet::new();
    let tx = tx_spending(&[(1, 0)], &[10]);
    set.add_transaction(&tx, 1, false).unwrap();
    assert_eq!(set.add_transaction(&tx, 1, false), Err(UtxoError::DuplicateUtxo));
}

#[test]
fn coinbase_maturity() {
    let mut set = UtxoSet::new();
    let op = OutPoint { txid: [2u8; 32], vout: 0 };
    set.insert(op, entry(50, true, 10));
    assert_eq!(set.spend_input(&op, 10 + COINBASE_MATURITY as u32 - 1).err(), Some(UtxoError::CoinbaseNotMature));
    assert!(set.contains(&op));
    assert_eq!(set.spend_input(&op, 5).err(), Some(UtxoError::CoinbaseNotMature));
    assert_eq!(set.spend_input(&op, 10 + COINBASE_MATURITY as u32).unwrap().output.value, 50);
}

#[test]
fn remove_forgets() {
    let mut set = UtxoSet::new();
    let op = OutPoint { txid: [3u8; 32], vout: 7 };
    set.insert(op, entry(1, false, 0));
    set.remove(&op);
    assert!(set.get(&op).is_none());
}

#[test]
fn apply_spends_then_adds() {
    let mut set = UtxoSet::new();
    let a = OutPoint { txid: [4u8; 32], vout: 0 };
    set.insert(a, entry(100, false, 0));
    let tx = tx_spending(&[(4, 0)], &[60, 39]);
    let spent = set.apply_transaction(&tx, 3, false, &Never).unwrap();
    assert_eq!(spent.len(), 1);
    assert_eq!(spent[0].output.value, 100);
    assert!(!set.contains(&a));
    assert!(set.contains(&OutPoint { txid: tx.txid(), vout: 1 }));
}

#[test]
fn apply_missing_input_fails() {
    let mut set = UtxoSet::new();
    let tx = tx_spending(&[(9, 0)], &[1]);
    assert_eq!(set.apply_transaction(&tx, 3, false, &Never).err(), Some(UtxoError::UtxoNotFound));
}

#[test]
fn apply_p2dl_with_bad_script_sig_fails() {
    let mut set = UtxoSet::new();
    let a = OutPoint { txid: [5u8; 32], vout: 0 };
    let mut spk = vec![0xaa, 0x20];
    spk.extend_from_slice(&[0u8; 32]);
    spk.extend_from_slice(&[0x88, 0xac]);
    set.insert(a, UtxoEntry { output: TxOutput { value: 10, script_pubkey: spk }, coinbase: false, height: 0 });
    let tx = tx_spending(&[(5, 0)], &[5]);
    assert_eq!(set.apply_transaction(&tx, 1, false, &Never).err(), Some(UtxoError::ScriptValidationFailed));
    assert!(!set.contains(&a));
}

#[test]
fn coinbase_apply_skips_inputs() {
    let mut set = UtxoSet::new();
    let tx = tx_spending(&[(0, 0xFFFF_FFFF)], &[50]);
    let spent = set.apply_transaction(&tx, 0, true, &Never).unwrap();
    assert!(spent.is_empty());
    assert!(set.get(&OutPoint { txid: tx.txid(), vout: 0 }).unwrap().coinbase);
}

#[test]
fn utxo_v2_encoding_roundtrip() {
    let e = UtxoEntryV2 {
        commitment: [1u8; 32],
        script_pubkey: vec![1, 2, 3],
        encrypted_amount: vec![9; 40],
        ephemeral_pubkey: [2u8; 32],
        coinbase: true,
        height: 77,
    };
    let bytes = e.encode();
    assert_eq!(bytes.len(), e.encoded_size());
    let (d, n) = UtxoEntryV2::decode(&bytes).unwrap();
    assert_eq!(n, bytes.len());
    assert_eq!(d.commitment, e.commitment);
    assert_eq!(d.script_pubkey, e.script_pubkey);
    assert_eq!(d.encrypted_amount, e.encrypted_amount);
    assert_eq!(d.ephemeral_pubkey, e.ephemeral_pubkey);
    assert!(d.coinbase);
    assert_eq!(d.height, 77);
    assert!(UtxoEntryV2::decode(&bytes[..bytes.len() - 1]).is_err());
}

struct Always;
impl SignatureCheck for Always {
    fn accepts(&self, _pubkey: Seq<u8>, _message: Seq<u8>, _signature: Seq<u8>) -> bool {
        true
    }

    fn verify(&self, _pubkey: &[u8], _message: &[u8], _signature: &[u8]) -> bool {
        true
    }
}

fn p2dl_lock(pk: &[u8]) -> Vec<u8> {
    let mut s = vec![0xaa, 0x20];
    s.extend_from_slice(&dilithium_pubkey_hash(pk));
    s.push(0x88);
    s.push(0xac);
    s
}

fn coinbase_tx(value: u64) -> Transaction {
    Transaction {
        version: 1,
        inputs: vec![TxInput { prev_txid: [0u8; 32], prev_index: 0xFFFF_FFFF, script_sig: vec![1, 2], sequence: 0xFFFF_FFFF }],
        outputs: vec![TxOutput { value, script_pubkey: vec![0x51] }],
        witnesses: vec![],
        locktime: 0,
    }
}

fn block_setup() -> (UtxoSet, Transaction) {
    let pk = vec![7u8; DILITHIUM_PUBKEY_LEN];
    let sig = vec![9u8; DILITHIUM_SIG_LEN];
    let mut set = UtxoSet::new();
    let op = OutPoint { txid: [4u8; 32], vout: 1 };
    set.insert(op, UtxoEntry { output: TxOutput { value: 70, script_pubkey: p2dl_lock(&pk) }, coinbase: false, height: 3 });
    let spend = Transaction {
        version: 1,
        inputs: vec![TxInput { prev_txid: [4u8; 32], prev_index: 1, script_sig: p2dl_script_sig(&sig, &pk), sequence: 0xFFFF_FFFF }],
        outputs: vec![TxOutput { value: 30, script_pubkey: vec![0x51] }, TxOutput { value: 40, script_pubkey: vec![0x52] }],
        witnesses: vec![],
        locktime: 0,
    };
    (set, spend)
}

#[test]
fn block_view_lists_created_and_spent() {
    let (set, spend) = block_setup();
    let cb = coinbase_tx(50);
    let cb_txid = cb.txid();
    let spend_txid = spend.txid();
    let txs = vec![cb, spend];
    let (created, spent) = apply_block_to_utxo(&set, &txs, 8, &Always).unwrap();
    assert_eq!(spent, vec![OutPoint { txid: [4u8; 32], vout: 1 }]);
    assert_eq!(created.len(), 3);
    assert_eq!(created[0].0, OutPoint { txid: cb_txid, vout: 0 });
    assert!(created[0].1.coinbase);
    assert_eq!(created[0].1.height, 8);
    assert_eq!(created[2].0, OutPoint { txid: spend_txid, vout: 1 });
    assert_eq!(created[2].1.output.value, 40);
    assert!(!created[2].1.coinbase);
    // the set it reads is left as it was
    assert!(set.contains(&OutPoint { txid: [4u8; 32], vout: 1 }));
}

#[test]
fn block_view_refusals() {
    let (set, spend) = block_setup();
    let txs = vec![coinbase_tx(50), spend];
    assert_eq!(
        apply_block_to_utxo(&set, &txs, 8, &Never).err(),
        Some(ChainError::UtxoError(UtxoError::ScriptValidationFailed))
    );
    let missing = tx_spending(&[(5, 0)], &[1]);
    let txs = vec![coinbase_tx(50), missing];
    assert_eq!(
        apply_block_to_utxo(&set, &txs, 8, &Always).err(),
        Some(ChainError::UtxoError(UtxoError::UtxoNotFound))
    );
    // a coinbase's inputs are never looked up
    let (created, spent) = apply_block_to_utxo(&UtxoSet::new(), &[coinbase_tx(5)], 0, &Never).unwrap();
    assert_eq!(created.len(), 1);
    assert!(spent.is_empty());
}

#[test]
fn default_set_is_empty() {
    let set = UtxoSet::default();
    assert!(!set.contains(&OutPoint { txid: [0u8; 32], vout: 0 }));
}

#[test]
fn test_v1_intrablock_double_spend_rejected() {
    let (set, spend) = block_setup();
    let (_, again) = block_setup();
    let txs = vec![coinbase_tx(50), spend, again];
    assert_eq!(
        apply_block_to_utxo(&set, &txs, 1, &Always).err(),
        Some(ChainError::UtxoError(UtxoError::UtxoAlreadySpent))
    );
}

#[test]
fn coinbase_transaction_applies() {
    let mut set = UtxoSet::new();
    let cb = coinbase_tx(50);
    let txid = cb.txid();
    let spent = set.apply_transaction(&cb, 3, true, &Never).unwrap();
    assert!(spent.is_empty());
    assert!(set.contains(&OutPoint { txid, vout: 0 }));
}
