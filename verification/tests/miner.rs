use ferrous::consensus::block::BlockHeader;
use ferrous::consensus::params::Network;
use ferrous::consensus::transaction::{Transaction, TxInput, TxOutput, Witness};
use ferrous::consensus::utxo::{OutPoint, UtxoEntry, UtxoSet};
use ferrous::mining::miner::{
    next_block_timestamp, search_nonce_range, BlockTemplate, Miner, MiningError, MAX_FUTURE_OFFSET,
};

fn header() -> BlockHeader {
    BlockHeader {
        version: 1,
        prev_block_hash: [0u8; 32],
        merkle_root: [5u8; 32],
        timestamp: 1_000,
        n_bits: 0x207fffff,
        nonce: 0,
    }
}

fn spend(prev: [u8; 32], index: u32, out: u64) -> Transaction {
    Transaction {
        version: 1,
        inputs: vec![TxInput { prev_txid: prev, prev_index: index, script_sig: vec![], sequence: 0xFFFF_FFFF }],
        outputs: vec![TxOutput { value: out, script_pubkey: vec![0x51] }],
        witnesses: vec![],
        locktime: 0,
    }
}

#[test]
fn next_timestamp_nat_less_than_mtp() {
    assert_eq!(next_block_timestamp(1_000, 900), Ok(1_001));
}

#[test]
fn next_timestamp_nat_equal_mtp() {
    assert_eq!(next_block_timestamp(1_000, 1_000), Ok(1_001));
}

#[test]
fn next_timestamp_nat_greater_than_mtp() {
    assert_eq!(next_block_timestamp(1_000, 5_000), Ok(5_000));
}

#[test]
fn next_timestamp_too_far_in_future() {
    assert_eq!(next_block_timestamp(10_000 + MAX_FUTURE_OFFSET, 10_000), Err(MiningError::InvalidTimestamp));
    assert_eq!(next_block_timestamp(10_000 + MAX_FUTURE_OFFSET - 1, 10_000), Ok(10_000 + MAX_FUTURE_OFFSET));
    assert_eq!(next_block_timestamp(u64::MAX, 0), Err(MiningError::InvalidTimestamp));
    assert_eq!(next_block_timestamp(0, u64::MAX), Err(MiningError::InvalidTimestamp));
}

#[test]
fn coinbase_layout() {
    let miner = Miner::new(Network::Regtest.params(), vec![0x51]);
    let cb = miner.create_coinbase_internal(0x0102_0304, 50, 7, vec![0xab]);
    assert_eq!(cb.version, 1);
    assert_eq!(cb.inputs.len(), 1);
    assert_eq!(cb.inputs[0].prev_txid, [0u8; 32]);
    assert_eq!(cb.inputs[0].prev_index, 0xFFFF_FFFF);
    assert_eq!(cb.inputs[0].script_sig, vec![4, 4, 3, 2, 1]);
    assert_eq!(cb.outputs.len(), 1);
    assert_eq!(cb.outputs[0].value, 57);
    assert_eq!(cb.outputs[0].script_pubkey, vec![0xab]);
    assert_eq!(cb.witnesses.len(), 1);
    assert!(cb.witnesses[0].stack_items.is_empty());
}

#[test]
fn weight_counts_base_three_times() {
    let tx = spend([1u8; 32], 0, 5);
    let base = tx.encode_without_witness().len() as u64;
    let full = tx.encode_with_witness().len() as u64;
    assert_eq!(Miner::tx_weight(&tx), 3 * base + full);
}

#[test]
fn fee_from_utxo_set() {
    let mut set = UtxoSet::new();
    set.insert(
        OutPoint { txid: [1u8; 32], vout: 0 },
        UtxoEntry { output: TxOutput { value: 100, script_pubkey: vec![] }, coinbase: false, height: 0 },
    );
    set.insert(
        OutPoint { txid: [2u8; 32], vout: 0 },
        UtxoEntry { output: TxOutput { value: 100, script_pubkey: vec![] }, coinbase: true, height: 50 },
    );
    assert_eq!(Miner::tx_fee(&set, &spend([1u8; 32], 0, 90), 10), Some(10));
    assert_eq!(Miner::tx_fee(&set, &spend([1u8; 32], 0, 101), 10), None);
    assert_eq!(Miner::tx_fee(&set, &spend([3u8; 32], 0, 1), 10), None);
    assert_eq!(Miner::tx_fee(&set, &spend([2u8; 32], 0, 1), 149), None);
    assert_eq!(Miner::tx_fee(&set, &spend([2u8; 32], 0, 1), 150), Some(99));
}

#[test]
fn selection_stops_at_budget_and_skips_unpayable() {
    let mut set = UtxoSet::new();
    for i in 1..=3u8 {
        set.insert(
            OutPoint { txid: [i; 32], vout: 0 },
            UtxoEntry { output: TxOutput { value: 100, script_pubkey: vec![] }, coinbase: false, height: 0 },
        );
    }
    let a = spend([1u8; 32], 0, 90);
    let bad = spend([9u8; 32], 0, 1);
    let b = spend([2u8; 32], 0, 80);
    let c = spend([3u8; 32], 0, 70);
    let w = Miner::tx_weight(&a);
    let (chosen, fees) = Miner::select_transactions(&set, vec![a, bad, b, c], 10, 0, 2 * w);
    assert_eq!(chosen.len(), 2);
    assert_eq!(chosen[0].inputs[0].prev_txid, [1u8; 32]);
    assert_eq!(chosen[1].inputs[0].prev_txid, [2u8; 32]);
    assert_eq!(fees, 30);
}

#[test]
fn nonce_search_finds_easy_target() {
    let h = header();
    let found = search_nonce_range(&h, 0, 1000).expect("an easy target is met quickly");
    assert!(found.check_proof_of_work().unwrap());
    assert_eq!(found.merkle_root, h.merkle_root);
    assert!(found.nonce < 1000);
}

#[test]
fn nonce_search_with_impossible_target() {
    let mut h = header();
    h.n_bits = 0x01010000;
    assert!(search_nonce_range(&h, 5, 50).is_none());
}

#[test]
fn solve_template_returns_valid_header() {
    let miner = Miner::new(Network::Regtest.params(), vec![0x51]);
    let cb = miner.create_coinbase_internal(1, 50, 0, vec![0x51]);
    let template = BlockTemplate { header: header(), transactions: vec![cb], height: 1 };
    let (h, txs) = miner.solve_template(template).unwrap();
    assert!(h.check_proof_of_work().unwrap());
    assert_eq!(txs.len(), 1);
}

#[test]
fn solved_template_is_reported() {
    let miner = Miner::new(Network::Regtest.params(), vec![0x51]);
    let cb = miner.create_coinbase_internal(7, 50, 0, vec![0x51]);
    let template = BlockTemplate { header: header(), transactions: vec![cb], height: 7 };
    let (h, txs, e) = miner.solve_and_report(template).unwrap();
    assert!(h.check_proof_of_work().unwrap());
    assert_eq!(txs.len(), 1);
    assert_eq!(e.height, 7);
    assert_eq!(e.nonce, h.nonce);
    assert_eq!(e.worker_id, 0);
    assert_eq!(e.hash, h.hash());
    assert_eq!(e.hashes_tried, h.nonce + 1);
}
