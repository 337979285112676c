//! Building payments: coin selection, the outputs of a payment and the
//! pushes of an unlocking script.
use vstd::prelude::*;
use crate::consensus::transaction::{
    BlindingFactor, RangeProof, Transaction, TransactionV2, TxInput, TxInputV2, TxOutput, TxOutputV2,
    TxKind, TX_VERSION_V2,
};
use crate::crypto::commitments::{
    amount_plaintext, commit, encrypt_amount, sealed_for, generate_range_proof, negated_blinding, ristretto_basepoint_mul,
    ristretto_point_valid, ristretto_scalar_mul, negated_scalar, spec_commit, spec_keystream, xor_bytes,
    RANGE_PROOF_LEN,
};
use crate::primitives::bytes::{le_bytes, push_le};
use crate::script::engine::spec_parse_pushdata2;
use crate::script::engine::ScriptError;
use crate::wallet::address::{address_to_script_pubkey, spec_address_to_script, AddressError};
use crate::script::sighash::{compute_sighash, compute_sighash_v2, SighashError};
use crate::wallet::scan::pays_to_view;
use crate::wallet::manager::{find_address_for_script, lemma_values_total_monotone, pays_to, values_total, WalletUtxo};

verus! {

pub struct TransactionBuilder;

/// Message of a refused payment of nothing.
pub const ZERO_AMOUNT: &'static str = "Amount must be positive";

/// Message of a payment whose amount and fee do not fit together.
pub const AMOUNT_OVERFLOW: &'static str = "Amount overflow";

/// Message of a coin selection whose running total does not fit.
pub const SELECTION_OVERFLOW: &'static str = "Coin selection overflow";

/// Message of a coin selection that cannot cover the amount.
pub const INSUFFICIENT_FUNDS: &'static str = "Insufficient funds";

/// Why a coin selection failed.
pub enum SelectError {
    Overflow,
    Insufficient,
}

/// Taking outputs from position `i` on, with `total` taken so far, until the
/// total covers `needed`: how many outputs are taken in all and the change,
/// or why not.
pub open spec fn coin_walk(us: Seq<WalletUtxo>, needed: nat, i: nat, total: nat) -> Result<(nat, nat), SelectError>
    decreases us.len() - i,
{
    if i >= us.len() {
        if total < needed {
            Err(SelectError::Insufficient)
        } else {
            Ok((i, (total - needed) as nat))
        }
    } else {
        let t = total + us[i as int].value;
        if t > u64::MAX {
            Err(SelectError::Overflow)
        } else if t >= needed {
            Ok((i + 1, (t - needed) as nat))
        } else {
            coin_walk(us, needed, i + 1, t as nat)
        }
    }
}

proof fn lemma_coin_walk(us: Seq<WalletUtxo>, needed: nat, i: nat, total: nat)
    requires
        i <= us.len(),
        total == values_total(us, i as int),
    ensures
        coin_walk(us, needed, i, total) matches Ok((k, change)) ==> i <= k <= us.len() && values_total(
            us,
            k as int,
        ) == needed + change,
    decreases us.len() - i,
{
    if i < us.len() {
        let t = total + us[i as int].value;
        if t <= u64::MAX && t < needed {
            lemma_coin_walk(us, needed, i + 1, t as nat);
        }
    }
}

/// Coin selection takes no more than it needs: when it succeeds with `k`
/// outputs for a positive amount, the first `k - 1` of them do not cover
/// the amount, and the change is what the `k` taken exceed it by.
pub proof fn lemma_selection_minimal(us: Seq<WalletUtxo>, needed: nat)
    requires
        needed > 0,
    ensures
        coin_walk(us, needed, 0, 0) matches Ok((k, change)) ==> k <= us.len() && values_total(
            us,
            k as int,
        ) == needed + change && (k > 0 ==> values_total(us, k - 1) < needed),
{
    lemma_coin_walk(us, needed, 0, 0);
    lemma_coin_walk_minimal(us, needed, 0, 0);
}

proof fn lemma_coin_walk_minimal(us: Seq<WalletUtxo>, needed: nat, i: nat, total: nat)
    requires
        needed > 0,
        i <= us.len(),
        total == values_total(us, i as int),
        total < needed,
    ensures
        coin_walk(us, needed, i, total) matches Ok((k, change)) ==> (k > 0 ==> values_total(us, k - 1)
            < needed),
    decreases us.len() - i,
{
    if i < us.len() {
        let t = total + us[i as int].value;
        if t <= u64::MAX && t < needed {
            lemma_coin_walk_minimal(us, needed, i + 1, t as nat);
        }
    } else if i > 0 {
        assert(values_total(us, i - 1) <= values_total(us, i as int)) by {
            lemma_values_total_monotone(us, i - 1, i as int);
        }
    }
}

/// Takes outputs in the order given until their values cover
/// `total_needed`: the outputs taken and the change, refused when the
/// running total passes `u64::MAX` or when all of them do not cover it.
fn select_coins(utxos: Vec<WalletUtxo>, total_needed: u64) -> (r: Result<(Vec<WalletUtxo>, u64), String>)
    ensures
        match coin_walk(utxos@, total_needed as nat, 0, 0) {
            Ok((k, change)) => r matches Ok((sel, c)) && sel@ == utxos@.take(k as int) && c == change
                && values_total(utxos@, k as int) == total_needed + change,
            Err(SelectError::Overflow) => r matches Err(e) && e@ == SELECTION_OVERFLOW@,
            Err(SelectError::Insufficient) => r matches Err(e) && e@ == INSUFFICIENT_FUNDS@,
        },
{
    let ghost us = utxos@;
    proof {
        lemma_coin_walk(us, total_needed as nat, 0, 0);
    }
    let mut rest = utxos;
    let mut selected: Vec<WalletUtxo> = Vec::new();
    let mut total: u64 = 0;
    assert(rest@ =~= us.skip(0));
    while rest.len() > 0
        invariant
            us == utxos@,
            selected@ == us.take(selected@.len() as int),
            rest@ == us.skip(selected@.len() as int),
            selected@.len() <= us.len(),
            total == values_total(us, selected@.len() as int),
            total < total_needed || selected@.len() == 0,
            coin_walk(us, total_needed as nat, 0, 0) == coin_walk(
                us,
                total_needed as nat,
                selected@.len() as nat,
                total as nat,
            ),
        decreases rest@.len(),
    {
        let ghost i = selected@.len();
        let u = rest.remove(0);
        proof {
            assert(u == us[i as int]);
            assert(rest@ =~= us.skip(i + 1int));
        }
        let value = u.value;
        selected.push(u);
        proof {
            assert(selected@ =~= us.take(i + 1int));
        }
        match total.checked_add(value) {
            Some(t) => {
                total = t;
            },
            None => {
                return Err(SELECTION_OVERFLOW.to_owned());
            },
        }
        if total >= total_needed {
            return Ok((selected, total - total_needed));
        }
    }
    if total < total_needed {
        return Err(INSUFFICIENT_FUNDS.to_owned());
    }
    Ok((selected, total - total_needed))
}

/// The bytes `push_data` appends for `data`, with the smallest push that
/// holds it: a length byte up to 75 bytes, `OP_PUSHDATA2` (0x4d) and a
/// 2-byte little-endian length up to 65535 bytes, `OP_PUSHDATA4` (0x4e) and
/// a 4-byte little-endian length (the length modulo 2^32) beyond; then the
/// data.
pub open spec fn push_bytes(data: Seq<u8>) -> Seq<u8> {
    if data.len() <= 75 {
        seq![data.len() as u8] + data
    } else if data.len() <= 0xFFFF {
        seq![0x4du8] + le_bytes(data.len(), 2) + data
    } else {
        seq![0x4eu8] + le_bytes(data.len(), 4) + data
    }
}

/// Push `data` onto a script using the minimal valid push opcode.
/// For Dilithium: sig (3309 B) and pubkey (1952 B) both require OP_PUSHDATA2.
fn push_data(script: &mut Vec<u8>, data: &[u8])
    ensures
        final(script)@ == old(script)@ + push_bytes(data@),
{
    if data.len() <= 75 {
        script.push(data.len() as u8);
    } else if data.len() <= 0xFFFF {
        script.push(0x4d);
        push_le(script, data.len() as u64, 2);
    } else {
        script.push(0x4e);
        push_le(script, data.len() as u64, 4);
    }
    script.extend_from_slice(data);
    proof {
        assert(final(script)@ =~= old(script)@ + push_bytes(data@));
    }
}

/// The unlocking script of a P2DL spend: the signature, then the key.
pub fn p2dl_script_sig(signature: &[u8], pubkey: &[u8]) -> (r: Vec<u8>)
    ensures
        r@ == push_bytes(signature@) + push_bytes(pubkey@),
{
    let mut script_sig: Vec<u8> = Vec::new();
    push_data(&mut script_sig, signature);
    push_data(&mut script_sig, pubkey);
    proof {
        assert(script_sig@ =~= push_bytes(signature@) + push_bytes(pubkey@));
    }
    script_sig
}

/// The wallet's Dilithium keys, as the signing of a transaction uses
/// them. Nothing is assumed of its answers.
pub trait TxSigner {
    type Key;

    /// The signing key of `address`, or why it cannot be had (no key in
    /// the wallet, or one that does not load).
    fn load_key(&self, address: &str) -> Result<Self::Key, String>;

    /// The signature of `message` under `key`, and the key's public key.
    fn sign(&self, key: &Self::Key, message: &[u8]) -> (Vec<u8>, Vec<u8>);
}

/// Message of an input whose output pays no address of the wallet.
pub const ADDRESS_NOT_IN_WALLET: &'static str = "Address not in wallet";

/// The message of a signature hash that cannot be computed.
pub fn sighash_error_text(e: SighashError) -> (r: String)
    ensures
        r@ == match e {
            SighashError::InputIndexOutOfBounds => "Sighash error: InputIndexOutOfBounds"@,
            SighashError::SpentOutputsMismatch => "Sighash error: SpentOutputsMismatch"@,
        },
{
    match e {
        SighashError::InputIndexOutOfBounds => "Sighash error: InputIndexOutOfBounds".to_owned(),
        SighashError::SpentOutputsMismatch => "Sighash error: SpentOutputsMismatch".to_owned(),
    }
}

/// Whether an unlocking script is a pushed signature and a pushed key.
pub open spec fn is_signature_script(s: Seq<u8>) -> bool {
    exists|sig: Seq<u8>, pk: Seq<u8>| s == push_bytes(sig) + push_bytes(pk)
}

/// Whether one of `addresses` stands for `script`.
pub open spec fn owned_by(addresses: Seq<String>, script: Seq<u8>) -> bool {
    exists|i: int| 0 <= i < addresses.len() && pays_to(#[trigger] addresses[i]@, script)
}

/// Whether `a` is `b` with new unlocking scripts, each a P2DL one (a
/// pushed signature, then a pushed key).
pub open spec fn signed_version_of(a: Transaction, b: Transaction) -> bool {
    &&& a.version == b.version
    &&& a.outputs == b.outputs
    &&& a.witnesses == b.witnesses
    &&& a.locktime == b.locktime
    &&& a.inputs@.len() == b.inputs@.len()
    &&& forall|i: int|
        0 <= i < a.inputs@.len() ==> {
            &&& (#[trigger] a.inputs@[i]).prev_txid == b.inputs@[i].prev_txid
            &&& a.inputs@[i].prev_index == b.inputs@[i].prev_index
            &&& a.inputs@[i].sequence == b.inputs@[i].sequence
            &&& is_signature_script(a.inputs@[i].script_sig@)
        }
}

/// Signs every input of `tx`, spending `spent_outputs`: the wallet address
/// paying each spent output (`ADDRESS_NOT_IN_WALLET` when none), its key,
/// the input's signature hash, and the signature and key pushed as its
/// unlocking script. The scripts are set only once every input is signed;
/// on any refusal `tx` is left as it was.
pub fn sign_transaction<S: TxSigner>(
    tx: &mut Transaction,
    spent_outputs: &[TxOutput],
    addresses: &[String],
    signer: &S,
) -> (r: Result<(), String>)
    requires
        spent_outputs@.len() >= old(tx).inputs@.len(),
    ensures
        r is Err ==> *final(tx) == *old(tx),
        r is Ok ==> signed_version_of(*final(tx), *old(tx)),
        old(tx).inputs@.len() == 0 ==> r is Ok && *final(tx) == *old(tx),
        old(tx).inputs@.len() > 0 && !owned_by(addresses@, spent_outputs@[0].script_pubkey@) ==> (r matches Err(
            e,
        ) && e@ == ADDRESS_NOT_IN_WALLET@),
        r is Ok ==> old(tx).inputs@.len() == 0 || spent_outputs@.len() == old(tx).inputs@.len(),
        r is Ok ==> forall|i: int|
            0 <= i < old(tx).inputs@.len() ==> owned_by(addresses@, (#[trigger] spent_outputs@[i]).script_pubkey@),
        (exists|i: int|
            0 <= i < old(tx).inputs@.len() && !owned_by(addresses@, (#[trigger] spent_outputs@[i]).script_pubkey@))
            ==> r is Err,
{
    if tx.inputs.len() == 0 {
        return Ok(());
    }
    let mut script_sigs: Vec<Vec<u8>> = Vec::new();
    let mut index: usize = 0;
    while index < tx.inputs.len()
        invariant
            index <= tx.inputs@.len(),
            *tx == *old(tx),
            spent_outputs@.len() >= tx.inputs@.len(),
            tx.inputs@.len() > 0,
            index > 0 ==> spent_outputs@.len() == tx.inputs@.len(),
            script_sigs@.len() == index,
            forall|i: int| 0 <= i < index ==> is_signature_script((#[trigger] script_sigs@[i])@),
            forall|i: int| 0 <= i < index ==> owned_by(addresses@, (#[trigger] spent_outputs@[i]).script_pubkey@),
        decreases tx.inputs@.len() - index,
    {
        let spent_output = &spent_outputs[index];
        let address = match find_address_for_script(addresses, spent_output.script_pubkey.as_slice()) {
            Some(a) => a,
            None => {
                return Err(ADDRESS_NOT_IN_WALLET.to_owned());
            },
        };
        let key = match signer.load_key(address.as_str()) {
            Ok(k) => k,
            Err(e) => {
                return Err(e);
            },
        };
        let sighash = match compute_sighash(tx, index, spent_outputs) {
            Ok(h) => h,
            Err(e) => {
                return Err(sighash_error_text(e));
            },
        };
        let (sig_bytes, pubkey_bytes) = signer.sign(&key, &sighash);
        let script_sig = p2dl_script_sig(sig_bytes.as_slice(), pubkey_bytes.as_slice());
        proof {
            assert(is_signature_script(script_sig@));
        }
        script_sigs.push(script_sig);
        index = index + 1;
    }
    let mut inputs: Vec<TxInput> = Vec::new();
    let mut j: usize = 0;
    while j < tx.inputs.len()
        invariant
            j <= tx.inputs@.len(),
            *tx == *old(tx),
            script_sigs@.len() == tx.inputs@.len(),
            forall|i: int| 0 <= i < script_sigs@.len() ==> is_signature_script((#[trigger] script_sigs@[i])@),
            inputs@.len() == j,
            forall|i: int|
                0 <= i < j ==> {
                    &&& (#[trigger] inputs@[i]).prev_txid == tx.inputs@[i].prev_txid
                    &&& inputs@[i].prev_index == tx.inputs@[i].prev_index
                    &&& inputs@[i].sequence == tx.inputs@[i].sequence
                    &&& inputs@[i].script_sig@ == script_sigs@[i]@
                },
        decreases tx.inputs@.len() - j,
    {
        let input = TxInput {
            prev_txid: tx.inputs[j].prev_txid,
            prev_index: tx.inputs[j].prev_index,
            script_sig: script_sigs[j].clone(),
            sequence: tx.inputs[j].sequence,
        };
        inputs.push(input);
        j = j + 1;
    }
    tx.inputs = inputs;
    proof {
        assert forall|i: int| 0 <= i < tx.inputs@.len() implies is_signature_script((#[trigger] tx.inputs@[i]).script_sig@) by {
            assert(tx.inputs@[i].script_sig@ == script_sigs@[i]@);
        }
    }
    Ok(())
}

/// Whether `a` is the confidential transaction `b` with new unlocking
/// scripts, each a pushed signature and a pushed key.
pub open spec fn signed_v2_version_of(a: TransactionV2, b: TransactionV2) -> bool {
    &&& a.version == b.version
    &&& a.outputs == b.outputs
    &&& a.fee == b.fee
    &&& a.locktime == b.locktime
    &&& a.inputs@.len() == b.inputs@.len()
    &&& forall|i: int|
        0 <= i < a.inputs@.len() ==> {
            &&& (#[trigger] a.inputs@[i]).prev_txid == b.inputs@[i].prev_txid
            &&& a.inputs@[i].prev_index == b.inputs@[i].prev_index
            &&& a.inputs@[i].sequence == b.inputs@[i].sequence
            &&& is_signature_script(a.inputs@[i].script_sig@)
        }
}

/// Signs every input of a confidential transaction, given the locking
/// script each spends, as [`sign_transaction`] does with the confidential
/// signature hash. On any refusal `tx` is left as it was.
pub fn sign_v2_transaction<S: TxSigner>(
    tx: &mut TransactionV2,
    spent_scripts: &[Vec<u8>],
    addresses: &[String],
    signer: &S,
) -> (r: Result<(), String>)
    requires
        spent_scripts@.len() >= old(tx).inputs@.len(),
    ensures
        r is Err ==> *final(tx) == *old(tx),
        r is Ok ==> signed_v2_version_of(*final(tx), *old(tx)),
        old(tx).inputs@.len() == 0 ==> r is Ok,
        old(tx).inputs@.len() > 0 && !owned_by(addresses@, spent_scripts@[0]@) ==> (r matches Err(e) && e@
            == ADDRESS_NOT_IN_WALLET@),
        r is Ok ==> forall|i: int|
            0 <= i < old(tx).inputs@.len() ==> owned_by(addresses@, (#[trigger] spent_scripts@[i])@),
        (exists|i: int| 0 <= i < old(tx).inputs@.len() && !owned_by(addresses@, (#[trigger] spent_scripts@[i])@))
            ==> r is Err,
{
    let mut script_sigs: Vec<Vec<u8>> = Vec::new();
    let mut index: usize = 0;
    while index < tx.inputs.len()
        invariant
            index <= tx.inputs@.len(),
            *tx == *old(tx),
            spent_scripts@.len() >= tx.inputs@.len(),
            script_sigs@.len() == index,
            forall|i: int| 0 <= i < index ==> is_signature_script((#[trigger] script_sigs@[i])@),
            forall|i: int| 0 <= i < index ==> owned_by(addresses@, (#[trigger] spent_scripts@[i])@),
        decreases tx.inputs@.len() - index,
    {
        let spent_script = &spent_scripts[index];
        let address = match find_address_for_script(addresses, spent_script.as_slice()) {
            Some(a) => a,
            None => {
                return Err(ADDRESS_NOT_IN_WALLET.to_owned());
            },
        };
        let key = match signer.load_key(address.as_str()) {
            Ok(k) => k,
            Err(e) => {
                return Err(e);
            },
        };
        let sighash = match compute_sighash_v2(tx, index, spent_script.as_slice()) {
            Ok(h) => h,
            Err(e) => {
                return Err(sighash_error_text(e));
            },
        };
        let (sig_bytes, pubkey_bytes) = signer.sign(&key, &sighash);
        let script_sig = p2dl_script_sig(sig_bytes.as_slice(), pubkey_bytes.as_slice());
        proof {
            assert(is_signature_script(script_sig@));
        }
        script_sigs.push(script_sig);
        index = index + 1;
    }
    let mut inputs: Vec<TxInputV2> = Vec::new();
    let mut j: usize = 0;
    while j < tx.inputs.len()
        invariant
            j <= tx.inputs@.len(),
            *tx == *old(tx),
            script_sigs@.len() == tx.inputs@.len(),
            forall|i: int| 0 <= i < script_sigs@.len() ==> is_signature_script((#[trigger] script_sigs@[i])@),
            inputs@.len() == j,
            forall|i: int|
                0 <= i < j ==> {
                    &&& (#[trigger] inputs@[i]).prev_txid == tx.inputs@[i].prev_txid
                    &&& inputs@[i].prev_index == tx.inputs@[i].prev_index
                    &&& inputs@[i].sequence == tx.inputs@[i].sequence
                    &&& inputs@[i].script_sig@ == script_sigs@[i]@
                },
        decreases tx.inputs@.len() - j,
    {
        let input = TxInputV2 {
            prev_txid: tx.inputs[j].prev_txid,
            prev_index: tx.inputs[j].prev_index,
            script_sig: script_sigs[j].clone(),
            sequence: tx.inputs[j].sequence,
        };
        inputs.push(input);
        j = j + 1;
    }
    tx.inputs = inputs;
    proof {
        assert forall|i: int| 0 <= i < tx.inputs@.len() implies is_signature_script((#[trigger] tx.inputs@[i]).script_sig@) by {
            assert(tx.inputs@[i].script_sig@ == script_sigs@[i]@);
        }
    }
    Ok(())
}

/// Data of 76 to 65535 bytes pushed after `prefix` is read back whole by
/// the `OP_PUSHDATA2` reader at the end of the prefix, whatever follows.
pub proof fn lemma_push_read_back(prefix: Seq<u8>, data: Seq<u8>, rest: Seq<u8>)
    requires
        76 <= data.len() <= 0xFFFF,
    ensures
        spec_parse_pushdata2(prefix + push_bytes(data) + rest, prefix.len() as int) == Ok::<
            (Seq<u8>, int),
            ScriptError,
        >((data, prefix.len() + 3 + data.len() as int)),
{
    let s = prefix + push_bytes(data) + rest;
    let p = prefix.len() as int;
    let n = data.len();
    let lb = le_bytes(n, 2);
    crate::primitives::bytes::lemma_le_bytes_len(n, 2);
    assert(lb[0] == n % 256 && lb[1] == (n / 256) % 256) by {
        reveal_with_fuel(le_bytes, 3);
    }
    assert(s[p] == 0x4d);
    assert(s[p + 1] == lb[0]);
    assert(s[p + 2] == lb[1]);
    assert((n / 256) % 256 == n / 256);
    assert(s[p + 1] as int + 256 * s[p + 2] as int == n);
    assert(s.subrange(p + 3, p + 3 + n) =~= data);
}

/// The outputs, and the spent values and scripts, of a payment.
pub open spec fn payment_outputs_ok(
    outputs: Seq<TxOutput>,
    amount: u64,
    to_script: Seq<u8>,
    change: nat,
    change_script: Seq<u8>,
) -> bool {
    &&& outputs.len() == (if change > 0 { 2int } else { 1int })
    &&& outputs[0].value == amount && outputs[0].script_pubkey@ == to_script
    &&& change > 0 ==> outputs[1].value == change && outputs[1].script_pubkey@ == change_script
}

/// A transaction spending `sel` in order, unsigned, with `sequence` all ones.
pub open spec fn spends_in_order(tx: Transaction, sel: Seq<WalletUtxo>, spent: Seq<TxOutput>) -> bool {
    &&& tx.version == 1
    &&& tx.locktime == 0
    &&& tx.witnesses@.len() == 0
    &&& tx.inputs@.len() == sel.len()
    &&& spent.len() == sel.len()
    &&& forall|i: int|
        0 <= i < sel.len() ==> (#[trigger] tx.inputs@[i]).prev_txid == sel[i].txid
            && tx.inputs@[i].prev_index == sel[i].vout && tx.inputs@[i].script_sig@.len() == 0
            && tx.inputs@[i].sequence == 0xFFFF_FFFF && spent[i].value == sel[i].value
            && spent[i].script_pubkey@ == sel[i].script_pubkey@
}

/// Message of an address that is not a bech32 or bech32m string.
pub const BAD_ENCODING: &'static str = "Invalid bech32m address";

/// Message of an address of an unknown network.
pub const BAD_HRP: &'static str = "Unknown HRP";

/// Message of an address whose payload is not 32 bytes.
pub const BAD_PAYLOAD: &'static str = "Address payload must be exactly 32 bytes";

/// Message of an unknown network prefix.
pub const BAD_PREFIX: &'static str = "Unknown network prefix";

/// The message of an address refusal.
pub open spec fn address_error_text(e: AddressError) -> Seq<char> {
    match e {
        AddressError::InvalidEncoding => BAD_ENCODING@,
        AddressError::UnknownHrp => BAD_HRP@,
        AddressError::InvalidPayloadLength => BAD_PAYLOAD@,
        AddressError::UnknownNetworkPrefix => BAD_PREFIX@,
    }
}

impl AddressError {
    /// A message for the refusal.
    pub fn message(&self) -> (r: String)
        ensures
            r@ == address_error_text(*self),
    {
        match self {
            AddressError::InvalidEncoding => BAD_ENCODING.to_owned(),
            AddressError::UnknownHrp => BAD_HRP.to_owned(),
            AddressError::InvalidPayloadLength => BAD_PAYLOAD.to_owned(),
            AddressError::UnknownNetworkPrefix => BAD_PREFIX.to_owned(),
        }
    }
}

/// Why a payment could not be built.
pub enum PaymentError {
    ZeroAmount,
    AmountOverflow,
    Select(SelectError),
    Address(AddressError),
}

/// The message of a payment refusal.
pub open spec fn payment_error_text(e: PaymentError) -> Seq<char> {
    match e {
        PaymentError::ZeroAmount => ZERO_AMOUNT@,
        PaymentError::AmountOverflow => AMOUNT_OVERFLOW@,
        PaymentError::Select(SelectError::Overflow) => SELECTION_OVERFLOW@,
        PaymentError::Select(SelectError::Insufficient) => INSUFFICIENT_FUNDS@,
        PaymentError::Address(a) => address_error_text(a),
    }
}

/// What a payment of `amount` with `fee` from `us` comes to: how many
/// outputs are spent, the change, the payee's script and the change script
/// (empty without change); or why it is refused, in the order checked.
pub open spec fn spec_payment(
    us: Seq<WalletUtxo>,
    to_address: Seq<char>,
    change_address: Seq<char>,
    amount: u64,
    fee: u64,
) -> Result<(nat, nat, Seq<u8>, Seq<u8>), PaymentError> {
    if amount == 0 {
        Err(PaymentError::ZeroAmount)
    } else if amount + fee > u64::MAX {
        Err(PaymentError::AmountOverflow)
    } else {
        match coin_walk(us, (amount + fee) as nat, 0, 0) {
            Err(e) => Err(PaymentError::Select(e)),
            Ok((k, change)) => match spec_address_to_script(to_address) {
                Err(e) => Err(PaymentError::Address(e)),
                Ok(to_script) => if change > 0 {
                    match spec_address_to_script(change_address) {
                        Err(e) => Err(PaymentError::Address(e)),
                        Ok(cs) => Ok((k, change, to_script, cs)),
                    }
                } else {
                    Ok((k, change, to_script, Seq::empty()))
                },
            },
        }
    }
}

impl TransactionBuilder {
    /// Builds an unsigned payment of `amount` to `to_address`, leaving `fee`:
    /// refused for a zero amount or when amount and fee do not fit together;
    /// then outputs are selected in the order given (see `select_coins`);
    /// the payment goes first and the change, when there is any, to
    /// `change_address` second. Returns the transaction and the outputs it
    /// spends, in input order, for signing.
    pub fn create_transaction(
        utxos: Vec<WalletUtxo>,
        to_address: &str,
        change_address: &str,
        amount: u64,
        fee: u64,
    ) -> (r: Result<(Transaction, Vec<TxOutput>), String>)
        ensures
            match spec_payment(utxos@, to_address@, change_address@, amount, fee) {
                Ok((k, change, to_script, change_script)) => r matches Ok((tx, spent))
                    && spends_in_order(tx, utxos@.take(k as int), spent@) && values_total(
                    utxos@,
                    k as int,
                ) == amount + fee + change && payment_outputs_ok(
                    tx.outputs@,
                    amount,
                    to_script,
                    change,
                    change_script,
                ),
                Err(e) => r matches Err(m) && m@ == payment_error_text(e),
            },
    {
        if amount == 0 {
            return Err(ZERO_AMOUNT.to_owned());
        }
        let total_needed = match amount.checked_add(fee) {
            Some(t) => t,
            None => {
                return Err(AMOUNT_OVERFLOW.to_owned());
            },
        };
        let ghost us = utxos@;
        let (selected, change) = select_coins(utxos, total_needed)?;
        let to_script = match address_to_script_pubkey(to_address) {
            Ok(s) => s,
            Err(e) => {
                return Err(e.message());
            },
        };
        let mut outputs: Vec<TxOutput> = Vec::new();
        outputs.push(TxOutput { value: amount, script_pubkey: to_script });
        if change > 0 {
            let change_script = match address_to_script_pubkey(change_address) {
                Ok(s) => s,
                Err(e) => {
                    return Err(e.message());
                },
            };
            outputs.push(TxOutput { value: change, script_pubkey: change_script });
        }
        let mut inputs: Vec<TxInput> = Vec::new();
        let mut spent_outputs: Vec<TxOutput> = Vec::new();
        let mut i: usize = 0;
        while i < selected.len()
            invariant
                i <= selected@.len(),
                inputs@.len() == i,
                spent_outputs@.len() == i,
                forall|j: int|
                    0 <= j < i ==> (#[trigger] inputs@[j]).prev_txid == selected@[j].txid
                        && inputs@[j].prev_index == selected@[j].vout && inputs@[j].script_sig@.len()
                        == 0 && inputs@[j].sequence == 0xFFFF_FFFF && spent_outputs@[j].value
                        == selected@[j].value && spent_outputs@[j].script_pubkey@
                        == selected@[j].script_pubkey@,
            decreases selected@.len() - i,
        {
            let u = &selected[i];
            inputs.push(
                TxInput {
                    prev_txid: u.txid,
                    prev_index: u.vout,
                    script_sig: Vec::new(),
                    sequence: 0xFFFF_FFFF,
                },
            );
            spent_outputs.push(TxOutput { value: u.value, script_pubkey: u.script_pubkey.clone() });
            i = i + 1;
        }
        let tx = Transaction { version: 1, inputs, outputs, witnesses: Vec::new(), locktime: 0 };
        Ok((tx, spent_outputs))
    }
}


/// Message of a confidential payment whose payment range proof is refused.
pub const RANGE_PROOF_PAYMENT: &'static str = "Range proof (payment): ProofGeneration";

/// Message of a confidential payment whose change range proof is refused.
pub const RANGE_PROOF_CHANGE: &'static str = "Range proof (change): ProofGeneration";

/// Message of a view public key that is no point.
pub const BAD_VIEW_KEY: &'static str = "Invalid view public key";

/// Whether `o` is the confidential output of `value` under the blinding
/// `blind`, locked by `script`, with a range proof, its amount and blinding
/// encrypted to the view key `view` under some ephemeral key, and so sealed
/// for every view scalar whose public point `view` is.
pub open spec fn confidential_output_of(o: TxOutputV2, value: u64, blind: Seq<u8>, script: Seq<u8>, view: Seq<u8>) -> bool {
    &&& o.commitment.0@ == spec_commit(value, blind)
    &&& o.range_proof.0@.len() == RANGE_PROOF_LEN
    &&& o.script_pubkey@ == script
    &&& exists|e: Seq<u8>|
        o.ephemeral_pubkey@ == ristretto_basepoint_mul(e) && o.encrypted_amount@ == xor_bytes(
            amount_plaintext(value, blind),
            spec_keystream(ristretto_scalar_mul(e, view), 40),
        )
    &&& forall|s: Seq<u8>|
        view == ristretto_basepoint_mul(s) ==> #[trigger] sealed_for(
            o.encrypted_amount@,
            o.ephemeral_pubkey@,
            value,
            blind,
            s,
        )
}

/// A confidential output built for the view public key of `view_scalar`,
/// standing at `j` in the confidential transaction at `i` of a block's
/// transactions, pays that view key: the key's scan records it (see
/// `scan_v2_outputs`) with the value and blinding factor it was built with.
pub proof fn lemma_built_output_pays_view(
    txs: Seq<TxKind>,
    i: int,
    j: int,
    value: u64,
    blind: Seq<u8>,
    script: Seq<u8>,
    view_scalar: Seq<u8>,
)
    requires
        0 <= i < txs.len(),
        txs[i] is V2,
        0 <= j < txs[i]->V2_0.outputs@.len() <= 0x1_0000_0000,
        blind.len() == 32,
        confidential_output_of(
            txs[i]->V2_0.outputs@[j],
            value,
            blind,
            script,
            ristretto_basepoint_mul(view_scalar),
        ),
    ensures
        pays_to_view(txs, i, j, value, blind, view_scalar),
{
    let o = txs[i]->V2_0.outputs@[j];
    assert(sealed_for(o.encrypted_amount@, o.ephemeral_pubkey@, value, blind, view_scalar));
}

/// The zero blinding factor's bytes.
pub open spec fn zero_blinding() -> Seq<u8> {
    Seq::new(32, |i: int| 0u8)
}

/// Builds one confidential output; `proof_error` is the message of a
/// refused range proof.
fn confidential_output(
    value: u64,
    blind: &BlindingFactor,
    script: Vec<u8>,
    view: &[u8; 32],
    proof_error: &str,
) -> (r: Result<TxOutputV2, String>)
    ensures
        r matches Ok(o) ==> confidential_output_of(o, value, blind.0@, script@, view@),
        r matches Err(m) ==> m@ == proof_error@ || (m@ == BAD_VIEW_KEY@ && !ristretto_point_valid(view@)),
        !ristretto_point_valid(view@) ==> r is Err,
{
    let commitment = commit(value, blind);
    let range_proof = match generate_range_proof(value, blind) {
        Ok(p) => p,
        Err(_) => {
            return Err(proof_error.to_owned());
        },
    };
    match encrypt_amount(value, blind, view) {
        Some((encrypted_amount, ephemeral_pubkey)) => Ok(
            TxOutputV2 { commitment, range_proof, script_pubkey: script, encrypted_amount, ephemeral_pubkey },
        ),
        None => Err(BAD_VIEW_KEY.to_owned()),
    }
}

impl TransactionBuilder {
    /// Builds an unsigned confidential payment of `amount` to `to_address`,
    /// leaving `fee` in the clear: the outputs are selected and the
    /// addresses read as for [`TransactionBuilder::create_transaction`]
    /// (with its refusals). The payment is committed under `pay_blind`
    /// when there is change, under the zero blinding otherwise, and its
    /// amount encrypted to `recipient_view_pubkey`; the change, when there
    /// is any, goes to `change_address` committed under the negation of
    /// `pay_blind` and encrypted to `own_view_pubkey`. Returns the
    /// transaction and the locking scripts of the outputs it spends, in
    /// input order, for signing.
    pub fn create_v2_transaction(
        utxos: Vec<WalletUtxo>,
        to_address: &str,
        change_address: &str,
        recipient_view_pubkey: &[u8; 32],
        own_view_pubkey: &[u8; 32],
        pay_blind: &BlindingFactor,
        amount: u64,
        fee: u64,
    ) -> (r: Result<(TransactionV2, Vec<Vec<u8>>), String>)
        ensures
            match spec_payment(utxos@, to_address@, change_address@, amount, fee) {
                Err(e) => r matches Err(m) && m@ == payment_error_text(e),
                Ok((k, change, to_script, change_script)) => {
                    let pay_b = if change > 0 {
                        pay_blind.0@
                    } else {
                        zero_blinding()
                    };
                    &&& (!ristretto_point_valid(recipient_view_pubkey@) || (change > 0
                        && !ristretto_point_valid(own_view_pubkey@))) ==> r is Err
                    &&& r matches Err(m) ==> (m@ == RANGE_PROOF_PAYMENT@ || m@ == RANGE_PROOF_CHANGE@ || (m@
                        == BAD_VIEW_KEY@ && (!ristretto_point_valid(recipient_view_pubkey@) || (change > 0
                        && !ristretto_point_valid(own_view_pubkey@)))))
                    &&& r matches Ok((tx, scripts)) ==> {
                        &&& tx.version == TX_VERSION_V2
                        &&& tx.locktime == 0
                        &&& tx.fee == fee
                        &&& values_total(utxos@, k as int) == amount + fee + change
                        &&& tx.inputs@.len() == k && scripts@.len() == k
                        &&& forall|i: int|
                            0 <= i < k ==> (#[trigger] tx.inputs@[i]).prev_txid == utxos@[i].txid
                                && tx.inputs@[i].prev_index == utxos@[i].vout
                                && tx.inputs@[i].script_sig@.len() == 0 && tx.inputs@[i].sequence
                                == 0xFFFF_FFFF && scripts@[i]@ == utxos@[i].script_pubkey@
                        &&& tx.outputs@.len() == (if change > 0 { 2int } else { 1int })
                        &&& confidential_output_of(
                            tx.outputs@[0],
                            amount,
                            pay_b,
                            to_script,
                            recipient_view_pubkey@,
                        )
                        &&& change > 0 ==> confidential_output_of(
                            tx.outputs@[1],
                            change as u64,
                            negated_scalar(pay_blind.0@),
                            change_script,
                            own_view_pubkey@,
                        )
                    }
                },
            },
    {
        let ghost us = utxos@;
        let (base, spent) = match Self::create_transaction(utxos, to_address, change_address, amount, fee) {
            Ok(p) => p,
            Err(m) => {
                return Err(m);
            },
        };
        let mut inputs: Vec<TxInputV2> = Vec::new();
        let mut scripts: Vec<Vec<u8>> = Vec::new();
        let mut i: usize = 0;
        while i < base.inputs.len()
            invariant
                i <= base.inputs@.len(),
                spent@.len() == base.inputs@.len(),
                inputs@.len() == i,
                scripts@.len() == i,
                forall|j: int|
                    0 <= j < i ==> (#[trigger] inputs@[j]).prev_txid == base.inputs@[j].prev_txid
                        && inputs@[j].prev_index == base.inputs@[j].prev_index && inputs@[j].script_sig@.len()
                        == 0 && inputs@[j].sequence == base.inputs@[j].sequence && scripts@[j]@
                        == spent@[j].script_pubkey@,
            decreases base.inputs@.len() - i,
        {
            let input = &base.inputs[i];
            inputs.push(
                TxInputV2 {
                    prev_txid: input.prev_txid,
                    prev_index: input.prev_index,
                    script_sig: Vec::new(),
                    sequence: input.sequence,
                },
            );
            scripts.push(spent[i].script_pubkey.clone());
            i = i + 1;
        }
        proof {
            if let Ok((k, change, ts, cs)) = spec_payment(us, to_address@, change_address@, amount, fee) {
                lemma_coin_walk(us, (amount + fee) as nat, 0, 0);
                assert(values_total(us, 0) == 0);
                assert(k <= us.len());
                let sel = us.take(k as int);
                assert(spends_in_order(base, sel, spent@));
                assert forall|j: int| 0 <= j < k implies (#[trigger] inputs@[j]).prev_txid == us[j].txid
                    && inputs@[j].prev_index == us[j].vout && inputs@[j].script_sig@.len() == 0
                    && inputs@[j].sequence == 0xFFFF_FFFF && scripts@[j]@ == us[j].script_pubkey@ by {
                    assert(sel[j] == us[j]);
                    assert(base.inputs@[j].prev_txid == sel[j].txid);
                }
            }
        }
        let has_change = base.outputs.len() > 1;
        let pay_b = if has_change {
            *pay_blind
        } else {
            BlindingFactor([0u8; 32])
        };
        proof {
            if !has_change {
                assert(pay_b.0@ =~= zero_blinding());
            }
        }
        let mut outputs: Vec<TxOutputV2> = Vec::new();
        let pay = match confidential_output(
            amount,
            &pay_b,
            base.outputs[0].script_pubkey.clone(),
            recipient_view_pubkey,
            RANGE_PROOF_PAYMENT,
        ) {
            Ok(o) => o,
            Err(m) => {
                return Err(m);
            },
        };
        outputs.push(pay);
        if has_change {
            let change_b = negated_blinding(pay_blind);
            let back = match confidential_output(
                base.outputs[1].value,
                &change_b,
                base.outputs[1].script_pubkey.clone(),
                own_view_pubkey,
                RANGE_PROOF_CHANGE,
            ) {
                Ok(o) => o,
                Err(m) => {
                    return Err(m);
                },
            };
            outputs.push(back);
        }
        let tx = TransactionV2 { version: TX_VERSION_V2, inputs, outputs, fee, locktime: 0 };
        Ok((tx, scripts))
    }
}

} // verus!
