use ferrous::consensus::transaction::BlindingFactor;
use ferrous::crypto::commitments::{commit, verify_balance};
use ferrous::consensus::transaction::Transaction;
use ferrous::wallet::address::{address_to_script_pubkey, pubkey_to_address};
use ferrous::consensus::transaction::{TransactionV2, TxInputV2};
use ferrous::script::sighash::{compute_sighash, compute_sighash_v2};
use ferrous::wallet::builder::{p2dl_script_sig, sign_transaction, sign_v2_transaction, TransactionBuilder, TxSigner};
use ferrous::consensus::transaction::TxOutput;
use ferrous::consensus::utxo::{OutPoint, UtxoEntry};
use ferrous::wallet::address::AddressError;
use ferrous::wallet::manager::{
    find_address_for_script, is_spendable, owns_script, select_wallet_utxos, total_balance, wallet_scripts,
    wallet_utxos, WalletUtxo,
};

fn utxo(tag: u8, value: u64, script: &[u8]) -> WalletUtxo {
    WalletUtxo { txid: [tag; 32], vout: tag as u32, value, script_pubkey: script.to_vec(), height: 1 }
}

fn addr(tag: u8) -> String {
    pubkey_to_address(&[tag; 1952], 0x6f)
}

#[test]
fn payment_with_change() {
    let to = addr(1);
    let change = addr(2);
    let own = address_to_script_pubkey(&change).unwrap();
    let utxos = vec![utxo(1, 600, &own), utxo(2, 500, &own), utxo(3, 400, &own)];
    let (tx, spent): (Transaction, _) = TransactionBuilder::create_transaction(utxos, &to, &change, 1000, 50).unwrap();
    assert_eq!(tx.inputs.len(), 2);
    assert_eq!(tx.inputs[0].prev_txid, [1u8; 32]);
    assert_eq!(tx.inputs[1].prev_index, 2);
    assert_eq!(tx.inputs[0].sequence, 0xFFFF_FFFF);
    assert!(tx.inputs[0].script_sig.is_empty());
    assert_eq!(tx.outputs.len(), 2);
    assert_eq!(tx.outputs[0].value, 1000);
    assert_eq!(tx.outputs[0].script_pubkey, address_to_script_pubkey(&to).unwrap());
    assert_eq!(tx.outputs[1].value, 50);
    assert_eq!(tx.outputs[1].script_pubkey, own);
    assert_eq!(spent.len(), 2);
    assert_eq!(spent[1].value, 500);
}

#[test]
fn payment_without_change() {
    let to = addr(1);
    let utxos = vec![utxo(1, 1050, &[0x51])];
    let (tx, _) = TransactionBuilder::create_transaction(utxos, &to, "not used", 1000, 50).unwrap();
    assert_eq!(tx.outputs.len(), 1);
}

#[test]
fn payment_refusals() {
    let to = addr(1);
    let err = |r: Result<(Transaction, Vec<ferrous::consensus::transaction::TxOutput>), String>| r.err().unwrap();
    assert_eq!(err(TransactionBuilder::create_transaction(vec![], &to, &to, 0, 1)), "Amount must be positive");
    assert_eq!(err(TransactionBuilder::create_transaction(vec![], &to, &to, u64::MAX, 1)), "Amount overflow");
    assert_eq!(err(TransactionBuilder::create_transaction(vec![utxo(1, 5, &[])], &to, &to, 10, 1)), "Insufficient funds");
    assert_eq!(
        err(TransactionBuilder::create_transaction(vec![utxo(1, u64::MAX - 1, &[]), utxo(2, 5, &[])], &to, &to, u64::MAX - 1, 1)),
        "Coin selection overflow"
    );
    assert_eq!(err(TransactionBuilder::create_transaction(vec![utxo(1, 50, &[])], "bad", &to, 10, 1)), "Invalid bech32m address");
}

#[test]
fn script_sig_pushes() {
    let sig = vec![7u8; 3309];
    let pk = vec![8u8; 1952];
    let s = p2dl_script_sig(&sig, &pk);
    assert_eq!(s.len(), 3 + 3309 + 3 + 1952);
    assert_eq!(&s[0..3], &[0x4d, 0xed, 0x0c]);
    assert_eq!(&s[3312..3315], &[0x4d, 0xa0, 0x07]);
    let short = p2dl_script_sig(&[1, 2], &[]);
    assert_eq!(short, vec![2, 1, 2, 0]);
}

#[test]
fn coinbase_spendability() {
    assert!(is_spendable(false, 10, 0));
    assert!(!is_spendable(true, 10, 108));
    assert!(is_spendable(true, 10, 109));
    assert!(!is_spendable(true, 10, 5));
}

#[test]
fn balance_sum() {
    assert_eq!(total_balance(&[utxo(1, 5, &[]), utxo(2, 7, &[])]), Ok(12));
    assert_eq!(total_balance(&[]), Ok(0));
    assert!(total_balance(&[utxo(1, u64::MAX, &[]), utxo(2, 1, &[])]).is_err());
}

fn entry(tag: u8, value: u64, script: &[u8], coinbase: bool, height: u64) -> (OutPoint, UtxoEntry) {
    (
        OutPoint { txid: [tag; 32], vout: tag as u32 },
        UtxoEntry { output: TxOutput { value, script_pubkey: script.to_vec() }, coinbase, height },
    )
}

#[test]
fn address_found_for_its_script() {
    let a1 = addr(1);
    let a2 = addr(2);
    let addresses = vec!["not-an-address".to_string(), a1.clone(), a2.clone()];
    let s2 = address_to_script_pubkey(&a2).unwrap();
    assert_eq!(find_address_for_script(&addresses, &s2), Some(a2));
    assert!(owns_script(&addresses, &s2));
    let other = address_to_script_pubkey(&addr(3)).unwrap();
    assert_eq!(find_address_for_script(&addresses, &other), None);
    assert!(!owns_script(&addresses, &other));
    assert!(!owns_script(&[], &s2));
}

#[test]
fn wallet_scripts_refuse_a_bad_address() {
    let addresses = vec![addr(1), "frr1qqqq".to_string()];
    assert_eq!(wallet_scripts(&addresses), Err(AddressError::InvalidEncoding));
    let good = vec![addr(1), addr(2)];
    let scripts = wallet_scripts(&good).unwrap();
    assert_eq!(scripts[1], address_to_script_pubkey(&good[1]).unwrap());
}

#[test]
fn wallet_keeps_own_spendable_outputs() {
    let mine = address_to_script_pubkey(&addr(1)).unwrap();
    let theirs = address_to_script_pubkey(&addr(9)).unwrap();
    let utxos = vec![
        entry(1, 10, &mine, false, 5),
        entry(2, 20, &theirs, false, 5),
        entry(3, 30, &mine, true, 100),
        entry(4, 40, &mine, true, 1),
    ];
    // tip 199: the coinbase at 100 has exactly 100 confirmations, the one at 1 has 199.
    let kept = select_wallet_utxos(&[mine.clone()], &utxos, 199);
    let tags: Vec<u8> = kept.iter().map(|w| w.txid[0]).collect();
    assert_eq!(tags, vec![4, 3, 1]);
    assert_eq!(kept[1].value, 30);
    assert_eq!(kept[1].height, 100);
    let kept = select_wallet_utxos(&[mine.clone()], &utxos, 198);
    let tags: Vec<u8> = kept.iter().map(|w| w.txid[0]).collect();
    assert_eq!(tags, vec![4, 1]);
    assert!(select_wallet_utxos(&[], &utxos, 199).is_empty());
}

#[test]
fn wallet_utxos_from_addresses() {
    let a = addr(1);
    let mine = address_to_script_pubkey(&a).unwrap();
    let utxos = vec![entry(1, 10, &mine, false, 5), entry(2, 20, &mine, false, 6)];
    let got = wallet_utxos(&[a], &utxos, 10).unwrap();
    assert_eq!(got.len(), 2);
    assert_eq!(total_balance(&got), Ok(30));
    assert!(wallet_utxos(&[], &utxos, 10).unwrap().is_empty());
    assert_eq!(wallet_utxos(&["bogus".to_string()], &utxos, 10).unwrap_err(), AddressError::InvalidEncoding);
}

/// Signs with the message itself as the signature, for the keys it holds.
struct EchoSigner {
    known: Vec<String>,
}

impl TxSigner for EchoSigner {
    type Key = u8;

    fn load_key(&self, address: &str) -> Result<u8, String> {
        match self.known.iter().position(|a| a == address) {
            Some(i) => Ok(i as u8 + 1),
            None => Err("Private key not found".to_string()),
        }
    }

    fn sign(&self, key: &u8, message: &[u8]) -> (Vec<u8>, Vec<u8>) {
        (message.to_vec(), vec![*key; 100])
    }
}

#[test]
fn signing_fills_every_unlocking_script() {
    let to = addr(1);
    let change = addr(2);
    let own = address_to_script_pubkey(&change).unwrap();
    let utxos = vec![utxo(1, 600, &own), utxo(2, 500, &own)];
    let (mut tx, spent) = TransactionBuilder::create_transaction(utxos, &to, &change, 1000, 50).unwrap();
    let h0 = compute_sighash(&tx, 0, &spent).unwrap();
    let h1 = compute_sighash(&tx, 1, &spent).unwrap();
    let signer = EchoSigner { known: vec![change.clone()] };
    sign_transaction(&mut tx, &spent, &[to.clone(), change.clone()], &signer).unwrap();
    assert_eq!(tx.inputs[0].script_sig, p2dl_script_sig(&h0, &[1u8; 100]));
    assert_eq!(tx.inputs[1].script_sig, p2dl_script_sig(&h1, &[1u8; 100]));
    // the signature hash does not cover the unlocking scripts
    assert_eq!(compute_sighash(&tx, 0, &spent).unwrap(), h0);
}

#[test]
fn signing_refusals_leave_the_transaction() {
    let to = addr(1);
    let change = addr(2);
    let own = address_to_script_pubkey(&change).unwrap();
    let utxos = vec![utxo(1, 600, &own), utxo(2, 500, &own)];
    let (mut tx, spent) = TransactionBuilder::create_transaction(utxos, &to, &change, 1000, 50).unwrap();
    let signer = EchoSigner { known: vec![] };
    assert_eq!(sign_transaction(&mut tx, &spent, &[to.clone()], &signer), Err("Address not in wallet".to_string()));
    assert!(tx.inputs[0].script_sig.is_empty());
    assert_eq!(sign_transaction(&mut tx, &spent, &[change.clone()], &signer), Err("Private key not found".to_string()));
    assert!(tx.inputs[1].script_sig.is_empty());
    let signer = EchoSigner { known: vec![change.clone()] };
    let longer = vec![spent[0].duplicate(), spent[1].duplicate(), spent[1].duplicate()];
    assert_eq!(
        sign_transaction(&mut tx, &longer, &[change.clone()], &signer),
        Err("Sighash error: SpentOutputsMismatch".to_string())
    );
}

#[test]
fn confidential_inputs_are_signed() {
    let mine = addr(2);
    let own = address_to_script_pubkey(&mine).unwrap();
    let mut tx = TransactionV2 {
        version: 2,
        inputs: vec![
            TxInputV2 { prev_txid: [1u8; 32], prev_index: 0, script_sig: vec![], sequence: 0xFFFF_FFFF },
            TxInputV2 { prev_txid: [2u8; 32], prev_index: 3, script_sig: vec![], sequence: 0xFFFF_FFFF },
        ],
        outputs: vec![],
        fee: 5,
        locktime: 0,
    };
    let spent = vec![own.clone(), own.clone()];
    let h1 = compute_sighash_v2(&tx, 1, &own).unwrap();
    let signer = EchoSigner { known: vec![mine.clone()] };
    assert_eq!(
        sign_v2_transaction(&mut tx, &spent, &[addr(1)], &signer),
        Err("Address not in wallet".to_string())
    );
    assert!(tx.inputs[0].script_sig.is_empty());
    sign_v2_transaction(&mut tx, &spent, &[mine.clone()], &signer).unwrap();
    assert_eq!(tx.inputs[1].script_sig, p2dl_script_sig(&h1, &[1u8; 100]));
    assert_eq!(tx.inputs[1].prev_index, 3);
}

#[test]
fn signing_nothing_succeeds() {
    let mut tx = Transaction { version: 1, inputs: vec![], outputs: vec![], witnesses: vec![], locktime: 0 };
    let signer = EchoSigner { known: vec![] };
    assert_eq!(sign_transaction(&mut tx, &[], &[], &signer), Ok(()));
    let mut v2 = TransactionV2 { version: 2, inputs: vec![], outputs: vec![], fee: 0, locktime: 0 };
    assert_eq!(sign_v2_transaction(&mut v2, &[], &[], &signer), Ok(()));
}

#[test]
fn wallet_outputs_come_largest_first() {
    let mine = address_to_script_pubkey(&addr(1)).unwrap();
    let utxos = vec![entry(1, 5, &mine, false, 1), entry(2, 10, &mine, false, 1), entry(3, 7, &mine, false, 1), entry(4, 10, &mine, false, 2)];
    let kept = select_wallet_utxos(&[mine.clone()], &utxos, 10);
    let values: Vec<u64> = kept.iter().map(|w| w.value).collect();
    assert_eq!(values, vec![10, 10, 7, 5]);
    let tags: Vec<u8> = kept.iter().map(|w| w.txid[0]).collect();
    assert_eq!(tags, vec![2, 4, 3, 1]);
}

#[test]
fn large_pushes_use_pushdata4() {
    let big = vec![7u8; 70_000];
    let s = p2dl_script_sig(&big, &[1, 2]);
    assert_eq!(&s[..5], &[0x4e, 0x70, 0x11, 0x01, 0x00]);
    assert_eq!(s.len(), 5 + 70_000 + 3);
    assert_eq!(&s[70_005..], &[2, 1, 2]);
}

#[test]
fn test_v2_builder_balance() {
    let addr1 = addr(1);
    let script = address_to_script_pubkey(&addr1).unwrap();
    let utxo_value = 1_000_000u64;
    let utxos = vec![WalletUtxo { txid: [3u8; 32], vout: 0, value: utxo_value, script_pubkey: script.clone(), height: 0 }];
    let recipient_view_pubkey = commit(7, &BlindingFactor([0x22u8; 32])).0;
    let own_view_pubkey = commit(9, &BlindingFactor([0x33u8; 32])).0;
    let amount = 400_000u64;
    let fee = 1_000u64;
    let (mut tx, scripts) = TransactionBuilder::create_v2_transaction(
        utxos,
        &addr1,
        &addr1,
        &recipient_view_pubkey,
        &own_view_pubkey,
        &BlindingFactor([0x11u8; 32]),
        amount,
        fee,
    )
    .unwrap();
    sign_v2_transaction(&mut tx, &scripts, &[addr1.clone()], &EchoSigner { known: vec![addr1.clone()] }).unwrap();

    assert_eq!(tx.inputs.len(), 1);
    assert_eq!(tx.outputs.len(), 2, "payment + change");
    assert!(!tx.inputs[0].script_sig.is_empty(), "input must be signed");

    let input_commitments = vec![commit(utxo_value, &BlindingFactor([0u8; 32]))];
    let output_commitments: Vec<_> = tx.outputs.iter().map(|o| o.commitment.clone()).collect();
    assert!(verify_balance(&input_commitments, &output_commitments, fee));
}

#[test]
fn confidential_payment_refusals() {
    let to = addr(1);
    let view = commit(7, &BlindingFactor([0x22u8; 32])).0;
    let blind = BlindingFactor([0x11u8; 32]);
    let utxos = vec![utxo(1, 1050, &[0x51])];
    assert_eq!(
        TransactionBuilder::create_v2_transaction(vec![], &to, &to, &view, &view, &blind, 0, 1).err(),
        Some("Amount must be positive".to_string())
    );
    let bad_view = [0xffu8; 32];
    assert_eq!(
        TransactionBuilder::create_v2_transaction(utxos, &to, "not used", &bad_view, &view, &blind, 1000, 50).err(),
        Some("Invalid view public key".to_string())
    );
    let utxos = vec![utxo(1, 1050, &[0x51])];
    let (tx, _) = TransactionBuilder::create_v2_transaction(utxos, &to, "not used", &view, &bad_view, &blind, 1000, 50).unwrap();
    assert_eq!(tx.outputs.len(), 1);
    assert_eq!(tx.outputs[0].commitment, commit(1000, &BlindingFactor([0u8; 32])));
    assert_eq!(tx.outputs[0].range_proof.0.len(), 672);
}
