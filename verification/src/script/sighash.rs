//! Signature hashes: the message a Dilithium signature commits to for one
//! input of a transaction, under domain-separating tags.
use vstd::prelude::*;
use crate::consensus::transaction::{
    output_bytes, Transaction, TransactionV2, TxInput, TxInputV2, TxOutput, TxOutputV2,
};
use crate::primitives::bytes::{le_bytes, le_value, pow256, push_le};
use crate::primitives::hash::{sha256d, spec_sha256d, spec_tagged_hash, tagged_hash, Hash256};
use crate::primitives::serialize::{
    bytes_field, concat_map, lemma_concat_map_congruent, lemma_concat_map_step, write_bytes,
};
use vstd::string::StringSliceAdditionalSpecFns;

verus! {

pub const SIGHASH_ALL: u8 = 0x01;

/// Tag of transparent-transaction signature hashes.
pub const SIGHASH_TAG: &'static str = "FerrousSighashV2";

/// Tag of confidential-transaction signature hashes.
pub const SIGHASH_TAG_CT: &'static str = "FerrousSighashV2CT";

#[derive(Debug, Clone, Copy, PartialEq, Eq)]
pub enum SighashError {
    InputIndexOutOfBounds,
    SpentOutputsMismatch,
}

pub open spec fn prevouts_data(s: Seq<TxInput>) -> Seq<u8> {
    concat_map(s, |i: TxInput| i.prev_txid@ + le_bytes(i.prev_index as nat, 4))
}

pub open spec fn amounts_data(s: Seq<TxOutput>) -> Seq<u8> {
    concat_map(s, |o: TxOutput| le_bytes(o.value as nat, 8))
}

pub open spec fn scriptpubkeys_data(s: Seq<TxOutput>) -> Seq<u8> {
    concat_map(s, |o: TxOutput| bytes_field(o.script_pubkey@))
}

pub open spec fn sequences_data(s: Seq<TxInput>) -> Seq<u8> {
    concat_map(s, |i: TxInput| le_bytes(i.sequence as nat, 4))
}

pub open spec fn outputs_data(s: Seq<TxOutput>) -> Seq<u8> {
    concat_map(s, |o: TxOutput| output_bytes(o))
}

pub open spec fn prevouts_v2_data(s: Seq<TxInputV2>) -> Seq<u8> {
    concat_map(s, |i: TxInputV2| i.prev_txid@ + le_bytes(i.prev_index as nat, 4))
}

pub open spec fn sequences_v2_data(s: Seq<TxInputV2>) -> Seq<u8> {
    concat_map(s, |i: TxInputV2| le_bytes(i.sequence as nat, 4))
}

/// Each confidential output as the signature sees it: commitment, script,
/// range proof, encrypted amount, ephemeral key.
pub open spec fn outputs_v2_data(s: Seq<TxOutputV2>) -> Seq<u8> {
    concat_map(
        s,
        |o: TxOutputV2|
            o.commitment.0@ + bytes_field(o.script_pubkey@) + bytes_field(o.range_proof.0@)
                + bytes_field(o.encrypted_amount@) + o.ephemeral_pubkey@,
    )
}

/// The message signed for input `input_index` of a transparent transaction.
pub open spec fn sighash_message(tx: Transaction, input_index: nat, spent: Seq<TxOutput>) -> Seq<
    u8,
> {
    le_bytes(tx.version as nat, 4) + le_bytes(tx.locktime as nat, 4) + spec_sha256d(
        prevouts_data(tx.inputs@),
    ) + spec_sha256d(amounts_data(spent)) + spec_sha256d(scriptpubkeys_data(spent))
        + spec_sha256d(sequences_data(tx.inputs@)) + spec_sha256d(outputs_data(tx.outputs@))
        + le_bytes(input_index, 4) + seq![SIGHASH_ALL]
}

/// The message signed for input `input_index` of a confidential transaction.
pub open spec fn sighash_v2_message(
    tx: TransactionV2,
    input_index: nat,
    spent_script_pubkey: Seq<u8>,
) -> Seq<u8> {
    le_bytes(tx.version as nat, 4) + le_bytes(tx.locktime as nat, 4) + spec_sha256d(
        prevouts_v2_data(tx.inputs@),
    ) + spec_sha256d(sequences_v2_data(tx.inputs@)) + spec_sha256d(spent_script_pubkey)
        + spec_sha256d(outputs_v2_data(tx.outputs@)) + le_bytes(tx.fee as nat, 8) + le_bytes(
        input_index,
        4,
    ) + seq![SIGHASH_ALL]
}

/// What [`compute_sighash`] returns, by its view: `None` for either error.
pub open spec fn spec_sighash(tx: Transaction, input_index: nat, spent: Seq<TxOutput>) -> Option<
    Seq<u8>,
> {
    if input_index < tx.inputs@.len() && spent.len() == tx.inputs@.len() {
        Some(spec_tagged_hash(SIGHASH_TAG.spec_bytes(), sighash_message(tx, input_index, spent)))
    } else {
        None
    }
}

/// Compute hash of all previous outputs
fn hash_prevouts(tx: &Transaction) -> (h: Hash256)
    ensures
        h@ == spec_sha256d(prevouts_data(tx.inputs@)),
{
    let mut data: Vec<u8> = Vec::new();
    let mut k: usize = 0;
    while k < tx.inputs.len()
        invariant
            k <= tx.inputs@.len(),
            data@ == prevouts_data(tx.inputs@.take(k as int)),
        decreases tx.inputs@.len() - k,
    {
        data.extend_from_slice(&tx.inputs[k].prev_txid);
        push_le(&mut data, tx.inputs[k].prev_index as u64, 4);
        proof {
            lemma_concat_map_step(
                tx.inputs@,
                |i: TxInput| i.prev_txid@ + le_bytes(i.prev_index as nat, 4),
                k as int,
            );
            assert(data@ =~= prevouts_data(tx.inputs@.take(k + 1)));
        }
        k = k + 1;
    }
    proof {
        assert(tx.inputs@.take(k as int) =~= tx.inputs@);
    }
    sha256d(data.as_slice())
}

/// Compute hash of all input amounts
fn hash_amounts(spent_outputs: &[TxOutput]) -> (h: Hash256)
    ensures
        h@ == spec_sha256d(amounts_data(spent_outputs@)),
{
    let mut data: Vec<u8> = Vec::new();
    let mut k: usize = 0;
    while k < spent_outputs.len()
        invariant
            k <= spent_outputs@.len(),
            data@ == amounts_data(spent_outputs@.take(k as int)),
        decreases spent_outputs@.len() - k,
    {
        push_le(&mut data, spent_outputs[k].value, 8);
        proof {
            lemma_concat_map_step(
                spent_outputs@,
                |o: TxOutput| le_bytes(o.value as nat, 8),
                k as int,
            );
            assert(data@ =~= amounts_data(spent_outputs@.take(k + 1)));
        }
        k = k + 1;
    }
    proof {
        assert(spent_outputs@.take(k as int) =~= spent_outputs@);
    }
    sha256d(data.as_slice())
}

/// Compute hash of all scriptPubKeys being spent
fn hash_scriptpubkeys(spent_outputs: &[TxOutput]) -> (h: Hash256)
    ensures
        h@ == spec_sha256d(scriptpubkeys_data(spent_outputs@)),
{
    let mut data: Vec<u8> = Vec::new();
    let mut k: usize = 0;
    while k < spent_outputs.len()
        invariant
            k <= spent_outputs@.len(),
            data@ == scriptpubkeys_data(spent_outputs@.take(k as int)),
        decreases spent_outputs@.len() - k,
    {
        write_bytes(&mut data, spent_outputs[k].script_pubkey.as_slice());
        proof {
            lemma_concat_map_step(
                spent_outputs@,
                |o: TxOutput| bytes_field(o.script_pubkey@),
                k as int,
            );
            assert(data@ =~= scriptpubkeys_data(spent_outputs@.take(k + 1)));
        }
        k = k + 1;
    }
    proof {
        assert(spent_outputs@.take(k as int) =~= spent_outputs@);
    }
    sha256d(data.as_slice())
}

/// Compute hash of all input sequences
fn hash_sequences(tx: &Transaction) -> (h: Hash256)
    ensures
        h@ == spec_sha256d(sequences_data(tx.inputs@)),
{
    let mut data: Vec<u8> = Vec::new();
    let mut k: usize = 0;
    while k < tx.inputs.len()
        invariant
            k <= tx.inputs@.len(),
            data@ == sequences_data(tx.inputs@.take(k as int)),
        decreases tx.inputs@.len() - k,
    {
        push_le(&mut data, tx.inputs[k].sequence as u64, 4);
        proof {
            lemma_concat_map_step(
                tx.inputs@,
                |i: TxInput| le_bytes(i.sequence as nat, 4),
                k as int,
            );
            assert(data@ =~= sequences_data(tx.inputs@.take(k + 1)));
        }
        k = k + 1;
    }
    proof {
        assert(tx.inputs@.take(k as int) =~= tx.inputs@);
    }
    sha256d(data.as_slice())
}

/// Compute hash of all outputs
fn hash_outputs(tx: &Transaction) -> (h: Hash256)
    ensures
        h@ == spec_sha256d(outputs_data(tx.outputs@)),
{
    let mut data: Vec<u8> = Vec::new();
    let mut k: usize = 0;
    while k < tx.outputs.len()
        invariant
            k <= tx.outputs@.len(),
            data@ == outputs_data(tx.outputs@.take(k as int)),
        decreases tx.outputs@.len() - k,
    {
        tx.outputs[k].encode_into(&mut data);
        proof {
            lemma_concat_map_step(tx.outputs@, |o: TxOutput| output_bytes(o), k as int);
            assert(data@ =~= outputs_data(tx.outputs@.take(k + 1)));
        }
        k = k + 1;
    }
    proof {
        assert(tx.outputs@.take(k as int) =~= tx.outputs@);
    }
    sha256d(data.as_slice())
}

/// Compute signature hash for input: `Err` when the index is out of range or
/// the spent outputs do not match the inputs one for one, otherwise the
/// tagged hash of [`sighash_message`].
pub fn compute_sighash(tx: &Transaction, input_index: usize, spent_outputs: &[TxOutput]) -> (r:
    Result<Hash256, SighashError>)
    ensures
        input_index >= tx.inputs@.len() ==> r == Err::<Hash256, SighashError>(
            SighashError::InputIndexOutOfBounds,
        ),
        input_index < tx.inputs@.len() && spent_outputs@.len() != tx.inputs@.len() ==> r == Err::<
            Hash256,
            SighashError,
        >(SighashError::SpentOutputsMismatch),
        input_index < tx.inputs@.len() && spent_outputs@.len() == tx.inputs@.len() ==> (r matches Ok(
            h,
        ) && h@ == spec_tagged_hash(
            SIGHASH_TAG.spec_bytes(),
            sighash_message(*tx, input_index as nat, spent_outputs@),
        )),
        match r {
            Ok(h) => spec_sighash(*tx, input_index as nat, spent_outputs@) == Some(h@),
            Err(_) => spec_sighash(*tx, input_index as nat, spent_outputs@) is None,
        },
{
    if input_index >= tx.inputs.len() {
        return Err(SighashError::InputIndexOutOfBounds);
    }
    if spent_outputs.len() != tx.inputs.len() {
        return Err(SighashError::SpentOutputsMismatch);
    }
    let mut message: Vec<u8> = Vec::new();
    push_le(&mut message, tx.version as u64, 4);
    push_le(&mut message, tx.locktime as u64, 4);
    let h1 = hash_prevouts(tx);
    message.extend_from_slice(&h1);
    let h2 = hash_amounts(spent_outputs);
    message.extend_from_slice(&h2);
    let h3 = hash_scriptpubkeys(spent_outputs);
    message.extend_from_slice(&h3);
    let h4 = hash_sequences(tx);
    message.extend_from_slice(&h4);
    let h5 = hash_outputs(tx);
    message.extend_from_slice(&h5);
    push_le(&mut message, input_index as u64, 4);
    message.push(SIGHASH_ALL);
    proof {
        assert(message@ =~= sighash_message(*tx, input_index as nat, spent_outputs@));
    }
    Ok(tagged_hash(SIGHASH_TAG, message.as_slice()))
}

fn hash_prevouts_v2(tx: &TransactionV2) -> (h: Hash256)
    ensures
        h@ == spec_sha256d(prevouts_v2_data(tx.inputs@)),
{
    let mut data: Vec<u8> = Vec::new();
    let mut k: usize = 0;
    while k < tx.inputs.len()
        invariant
            k <= tx.inputs@.len(),
            data@ == prevouts_v2_data(tx.inputs@.take(k as int)),
        decreases tx.inputs@.len() - k,
    {
        data.extend_from_slice(&tx.inputs[k].prev_txid);
        push_le(&mut data, tx.inputs[k].prev_index as u64, 4);
        proof {
            lemma_concat_map_step(
                tx.inputs@,
                |i: TxInputV2| i.prev_txid@ + le_bytes(i.prev_index as nat, 4),
                k as int,
            );
            assert(data@ =~= prevouts_v2_data(tx.inputs@.take(k + 1)));
        }
        k = k + 1;
    }
    proof {
        assert(tx.inputs@.take(k as int) =~= tx.inputs@);
    }
    sha256d(data.as_slice())
}

fn hash_sequences_v2(tx: &TransactionV2) -> (h: Hash256)
    ensures
        h@ == spec_sha256d(sequences_v2_data(tx.inputs@)),
{
    let mut data: Vec<u8> = Vec::new();
    let mut k: usize = 0;
    while k < tx.inputs.len()
        invariant
            k <= tx.inputs@.len(),
            data@ == sequences_v2_data(tx.inputs@.take(k as int)),
        decreases tx.inputs@.len() - k,
    {
        push_le(&mut data, tx.inputs[k].sequence as u64, 4);
        proof {
            lemma_concat_map_step(
                tx.inputs@,
                |i: TxInputV2| le_bytes(i.sequence as nat, 4),
                k as int,
            );
            assert(data@ =~= sequences_v2_data(tx.inputs@.take(k + 1)));
        }
        k = k + 1;
    }
    proof {
        assert(tx.inputs@.take(k as int) =~= tx.inputs@);
    }
    sha256d(data.as_slice())
}

fn hash_outputs_v2(tx: &TransactionV2) -> (h: Hash256)
    ensures
        h@ == spec_sha256d(outputs_v2_data(tx.outputs@)),
{
    let mut data: Vec<u8> = Vec::new();
    let mut k: usize = 0;
    while k < tx.outputs.len()
        invariant
            k <= tx.outputs@.len(),
            data@ == outputs_v2_data(tx.outputs@.take(k as int)),
        decreases tx.outputs@.len() - k,
    {
        let o = &tx.outputs[k];
        data.extend_from_slice(&o.commitment.0);
        write_bytes(&mut data, o.script_pubkey.as_slice());
        write_bytes(&mut data, o.range_proof.0.as_slice());
        write_bytes(&mut data, o.encrypted_amount.as_slice());
        data.extend_from_slice(&o.ephemeral_pubkey);
        proof {
            lemma_concat_map_step(
                tx.outputs@,
                |o: TxOutputV2|
                    o.commitment.0@ + bytes_field(o.script_pubkey@) + bytes_field(o.range_proof.0@)
                        + bytes_field(o.encrypted_amount@) + o.ephemeral_pubkey@,
                k as int,
            );
            assert(data@ =~= outputs_v2_data(tx.outputs@.take(k + 1)));
        }
        k = k + 1;
    }
    proof {
        assert(tx.outputs@.take(k as int) =~= tx.outputs@);
    }
    sha256d(data.as_slice())
}

/// Signature hash of input `input_index` of a confidential transaction:
/// `Err` when the index is out of range, otherwise the tagged hash of
/// [`sighash_v2_message`].
pub fn compute_sighash_v2(tx: &TransactionV2, input_index: usize, spent_script_pubkey: &[u8]) -> (r:
    Result<Hash256, SighashError>)
    ensures
        input_index >= tx.inputs@.len() ==> r == Err::<Hash256, SighashError>(
            SighashError::InputIndexOutOfBounds,
        ),
        input_index < tx.inputs@.len() ==> (r matches Ok(h) && h@ == spec_tagged_hash(
            SIGHASH_TAG_CT.spec_bytes(),
            sighash_v2_message(*tx, input_index as nat, spent_script_pubkey@),
        )),
{
    if input_index >= tx.inputs.len() {
        return Err(SighashError::InputIndexOutOfBounds);
    }
    let mut message: Vec<u8> = Vec::new();
    push_le(&mut message, tx.version as u64, 4);
    push_le(&mut message, tx.locktime as u64, 4);
    let h1 = hash_prevouts_v2(tx);
    message.extend_from_slice(&h1);
    let h2 = hash_sequences_v2(tx);
    message.extend_from_slice(&h2);
    let h3 = sha256d(spent_script_pubkey);
    message.extend_from_slice(&h3);
    let h4 = hash_outputs_v2(tx);
    message.extend_from_slice(&h4);
    push_le(&mut message, tx.fee, 8);
    push_le(&mut message, input_index as u64, 4);
    message.push(SIGHASH_ALL);
    proof {
        assert(message@ =~= sighash_v2_message(*tx, input_index as nat, spent_script_pubkey@));
    }
    Ok(tagged_hash(SIGHASH_TAG_CT, message.as_slice()))
}


/// Whether `a` and `b` are one transaction but for the inputs' scripts and
/// the witnesses: the same version, lock time and outputs, and inputs
/// spending the same outpoints with the same sequences.
pub open spec fn same_but_signatures(a: Transaction, b: Transaction) -> bool {
    &&& a.version == b.version
    &&& a.locktime == b.locktime
    &&& a.outputs@ == b.outputs@
    &&& a.inputs@.len() == b.inputs@.len()
    &&& forall|i: int|
        0 <= i < a.inputs@.len() ==> (#[trigger] a.inputs@[i]).prev_txid == b.inputs@[i].prev_txid
            && a.inputs@[i].prev_index == b.inputs@[i].prev_index && a.inputs@[i].sequence
            == b.inputs@[i].sequence
}

/// Whether two lists of spent outputs carry the same values and scripts.
pub open spec fn same_spent(s: Seq<TxOutput>, t: Seq<TxOutput>) -> bool {
    &&& s.len() == t.len()
    &&& forall|i: int|
        0 <= i < s.len() ==> (#[trigger] s[i]).value == t[i].value && s[i].script_pubkey@
            == t[i].script_pubkey@
}

/// Filling in signatures does not change what a signature covers: the
/// message of every input is the same for two transactions that differ
/// only in their inputs' scripts and witnesses, given spent outputs with the
/// same values and scripts.
pub proof fn lemma_sighash_ignores_signatures(
    a: Transaction,
    b: Transaction,
    input_index: nat,
    spent_a: Seq<TxOutput>,
    spent_b: Seq<TxOutput>,
)
    requires
        same_but_signatures(a, b),
        same_spent(spent_a, spent_b),
    ensures
        spec_sighash(a, input_index, spent_a) == spec_sighash(b, input_index, spent_b),
{
    let fp = |i: TxInput| i.prev_txid@ + le_bytes(i.prev_index as nat, 4);
    let fs = |i: TxInput| le_bytes(i.sequence as nat, 4);
    let fa = |o: TxOutput| le_bytes(o.value as nat, 8);
    let fk = |o: TxOutput| bytes_field(o.script_pubkey@);
    assert forall|i: int| 0 <= i < a.inputs@.len() implies #[trigger] fp(a.inputs@[i]) == fp(b.inputs@[i]) by {
        assert(a.inputs@[i].prev_txid@ == b.inputs@[i].prev_txid@);
    }
    assert forall|i: int| 0 <= i < a.inputs@.len() implies #[trigger] fs(a.inputs@[i]) == fs(b.inputs@[i]) by {
        assert(a.inputs@[i].sequence == b.inputs@[i].sequence);
    }
    assert forall|i: int| 0 <= i < spent_a.len() implies #[trigger] fa(spent_a[i]) == fa(spent_b[i]) by {
        assert(spent_a[i].value == spent_b[i].value);
    }
    assert forall|i: int| 0 <= i < spent_a.len() implies #[trigger] fk(spent_a[i]) == fk(spent_b[i]) by {
        assert(spent_a[i].script_pubkey@ == spent_b[i].script_pubkey@);
    }
    lemma_concat_map_congruent(a.inputs@, fp, b.inputs@, fp);
    lemma_concat_map_congruent(a.inputs@, fs, b.inputs@, fs);
    lemma_concat_map_congruent(spent_a, fa, spent_b, fa);
    lemma_concat_map_congruent(spent_a, fk, spent_b, fk);
    assert(prevouts_data(a.inputs@) == prevouts_data(b.inputs@));
    assert(sequences_data(a.inputs@) == sequences_data(b.inputs@));
    assert(amounts_data(spent_a) == amounts_data(spent_b));
    assert(scriptpubkeys_data(spent_a) == scriptpubkeys_data(spent_b));
    assert(sighash_message(a, input_index, spent_a) == sighash_message(b, input_index, spent_b));
}

/// Whether `a` and `b` are one confidential transaction but for the inputs'
/// scripts: the same version, lock time, fee and outputs, and inputs
/// spending the same outpoints with the same sequences.
pub open spec fn same_but_signatures_v2(a: TransactionV2, b: TransactionV2) -> bool {
    &&& a.version == b.version
    &&& a.locktime == b.locktime
    &&& a.fee == b.fee
    &&& a.outputs@ == b.outputs@
    &&& a.inputs@.len() == b.inputs@.len()
    &&& forall|i: int|
        0 <= i < a.inputs@.len() ==> (#[trigger] a.inputs@[i]).prev_txid == b.inputs@[i].prev_txid
            && a.inputs@[i].prev_index == b.inputs@[i].prev_index && a.inputs@[i].sequence
            == b.inputs@[i].sequence
}

/// Filling in signatures does not change what a confidential signature
/// covers.
pub proof fn lemma_sighash_v2_ignores_signatures(
    a: TransactionV2,
    b: TransactionV2,
    input_index: nat,
    spent_script_pubkey: Seq<u8>,
)
    requires
        same_but_signatures_v2(a, b),
    ensures
        sighash_v2_message(a, input_index, spent_script_pubkey) == sighash_v2_message(
            b,
            input_index,
            spent_script_pubkey,
        ),
{
    let fp = |i: TxInputV2| i.prev_txid@ + le_bytes(i.prev_index as nat, 4);
    let fs = |i: TxInputV2| le_bytes(i.sequence as nat, 4);
    assert forall|i: int| 0 <= i < a.inputs@.len() implies #[trigger] fp(a.inputs@[i]) == fp(b.inputs@[i]) by {
        assert(a.inputs@[i].prev_txid@ == b.inputs@[i].prev_txid@);
    }
    assert forall|i: int| 0 <= i < a.inputs@.len() implies #[trigger] fs(a.inputs@[i]) == fs(b.inputs@[i]) by {
        assert(a.inputs@[i].sequence == b.inputs@[i].sequence);
    }
    lemma_concat_map_congruent(a.inputs@, fp, b.inputs@, fp);
    lemma_concat_map_congruent(a.inputs@, fs, b.inputs@, fs);
    assert(prevouts_v2_data(a.inputs@) == prevouts_v2_data(b.inputs@));
    assert(sequences_v2_data(a.inputs@) == sequences_v2_data(b.inputs@));
}

/// The four little-endian bytes of an index below `2^32` read back as it.
proof fn lemma_index_bytes(i: nat)
    requires
        i < 0x1_0000_0000,
    ensures
        le_bytes(i, 4).len() == 4,
        le_value(le_bytes(i, 4)) == i,
{
    crate::primitives::bytes::lemma_le_bytes_len(i, 4);
    assert(pow256(4) == 0x1_0000_0000) by {
        reveal_with_fuel(pow256, 5);
    }
    crate::primitives::bytes::lemma_le_value_of_bytes(i, 4);
}

/// The eight little-endian bytes of a fee read back as it.
proof fn lemma_fee_bytes(f: u64)
    ensures
        le_bytes(f as nat, 8).len() == 8,
        le_value(le_bytes(f as nat, 8)) == f,
{
    crate::primitives::bytes::lemma_le_bytes_len(f as nat, 8);
    assert(pow256(8) == 0x1_0000_0000_0000_0000) by {
        reveal_with_fuel(pow256, 9);
    }
    crate::primitives::bytes::lemma_le_value_of_bytes(f as nat, 8);
}

/// A transparent signature commits to the input it signs: the message for
/// input `i` ends with `i` as four little-endian bytes and then
/// `SIGHASH_ALL`, everything before is the same for every input, and so the
/// messages of two inputs are equal exactly when the inputs are.
pub proof fn lemma_sighash_message_commits_to_index(tx: Transaction, i: nat, j: nat, spent: Seq<TxOutput>)
    requires
        i < 0x1_0000_0000,
        j < 0x1_0000_0000,
    ensures
        ({
            let mi = sighash_message(tx, i, spent);
            let mj = sighash_message(tx, j, spent);
            let n = mi.len();
            &&& n >= 5 && mj.len() == n
            &&& mi[n - 1] == SIGHASH_ALL
            &&& le_value(mi.subrange(n - 5, n - 1)) == i
            &&& mi.subrange(0, n - 5) == mj.subrange(0, n - 5)
            &&& (mi == mj <==> i == j)
        }),
{
    let x = le_bytes(tx.version as nat, 4) + le_bytes(tx.locktime as nat, 4) + spec_sha256d(
        prevouts_data(tx.inputs@),
    ) + spec_sha256d(amounts_data(spent)) + spec_sha256d(scriptpubkeys_data(spent))
        + spec_sha256d(sequences_data(tx.inputs@)) + spec_sha256d(outputs_data(tx.outputs@));
    let mi = sighash_message(tx, i, spent);
    let mj = sighash_message(tx, j, spent);
    lemma_index_bytes(i);
    lemma_index_bytes(j);
    assert(mi == x + le_bytes(i, 4) + seq![SIGHASH_ALL]);
    assert(mj == x + le_bytes(j, 4) + seq![SIGHASH_ALL]);
    let n = mi.len();
    assert(n == x.len() + 5);
    assert(mi.subrange(n - 5, n - 1) =~= le_bytes(i, 4));
    assert(mj.subrange(n - 5, n - 1) =~= le_bytes(j, 4));
    assert(mi.subrange(0, n - 5) =~= x);
    assert(mj.subrange(0, n - 5) =~= x);
    if i == j {
        assert(mi == mj);
    }
    if mi == mj {
        assert(le_bytes(i, 4) == le_bytes(j, 4));
    }
}

/// A confidential signature commits to the fee and to the input it signs:
/// the message ends with the fee as eight little-endian bytes, the input's
/// index as four, and `SIGHASH_ALL`; everything before is the same for
/// another fee and another input of the same transaction, and so two such
/// messages are equal exactly when the fees and the inputs are.
pub proof fn lemma_sighash_v2_message_commits_to_fee(
    tx: TransactionV2,
    fee: u64,
    i: nat,
    j: nat,
    spent_script_pubkey: Seq<u8>,
)
    requires
        i < 0x1_0000_0000,
        j < 0x1_0000_0000,
    ensures
        ({
            let m1 = sighash_v2_message(tx, i, spent_script_pubkey);
            let m2 = sighash_v2_message(TransactionV2 { fee, ..tx }, j, spent_script_pubkey);
            let n = m1.len();
            &&& n >= 13 && m2.len() == n
            &&& m1[n - 1] == SIGHASH_ALL
            &&& le_value(m1.subrange(n - 5, n - 1)) == i
            &&& le_value(m1.subrange(n - 13, n - 5)) == tx.fee
            &&& m1.subrange(0, n - 13) == m2.subrange(0, n - 13)
            &&& (m1 == m2 <==> (tx.fee == fee && i == j))
        }),
{
    let tx2 = TransactionV2 { fee, ..tx };
    let x = le_bytes(tx.version as nat, 4) + le_bytes(tx.locktime as nat, 4) + spec_sha256d(
        prevouts_v2_data(tx.inputs@),
    ) + spec_sha256d(sequences_v2_data(tx.inputs@)) + spec_sha256d(spent_script_pubkey)
        + spec_sha256d(outputs_v2_data(tx.outputs@));
    let m1 = sighash_v2_message(tx, i, spent_script_pubkey);
    let m2 = sighash_v2_message(tx2, j, spent_script_pubkey);
    lemma_index_bytes(i);
    lemma_index_bytes(j);
    lemma_fee_bytes(tx.fee);
    lemma_fee_bytes(fee);
    assert(m1 == x + le_bytes(tx.fee as nat, 8) + le_bytes(i, 4) + seq![SIGHASH_ALL]);
    assert(m2 == x + le_bytes(fee as nat, 8) + le_bytes(j, 4) + seq![SIGHASH_ALL]);
    let n = m1.len();
    assert(n == x.len() + 13);
    assert(m1.subrange(n - 5, n - 1) =~= le_bytes(i, 4));
    assert(m2.subrange(n - 5, n - 1) =~= le_bytes(j, 4));
    assert(m1.subrange(n - 13, n - 5) =~= le_bytes(tx.fee as nat, 8));
    assert(m2.subrange(n - 13, n - 5) =~= le_bytes(fee as nat, 8));
    assert(m1.subrange(0, n - 13) =~= x);
    assert(m2.subrange(0, n - 13) =~= x);
    if tx.fee == fee && i == j {
        assert(m1 =~= m2);
    }
    if m1 == m2 {
        assert(le_bytes(i, 4) == le_bytes(j, 4));
        assert(le_bytes(tx.fee as nat, 8) == le_bytes(fee as nat, 8));
    }
}

/// What the message signed for a transparent input holds, in order: the
/// version and the lock time (four little-endian bytes each), the hashes of
/// the previous outputs, of the spent amounts, of the spent scripts, of the
/// sequences and of the outputs, the input's index (four little-endian
/// bytes) and `SIGHASH_ALL`.
pub proof fn lemma_sighash_message_layout(tx: Transaction, i: nat, spent: Seq<TxOutput>)
    requires
        i < 0x1_0000_0000,
    ensures
        ({
            let m = sighash_message(tx, i, spent);
            let n = m.len();
            &&& n >= 13
            &&& le_value(m.subrange(0, 4)) == tx.version
            &&& le_value(m.subrange(4, 8)) == tx.locktime
            &&& m.subrange(8, n - 5) == spec_sha256d(prevouts_data(tx.inputs@)) + spec_sha256d(
                amounts_data(spent),
            ) + spec_sha256d(scriptpubkeys_data(spent)) + spec_sha256d(sequences_data(tx.inputs@))
                + spec_sha256d(outputs_data(tx.outputs@))
            &&& le_value(m.subrange(n - 5, n - 1)) == i
            &&& m[n - 1] == SIGHASH_ALL
        }),
{
    let hs = spec_sha256d(prevouts_data(tx.inputs@)) + spec_sha256d(amounts_data(spent)) + spec_sha256d(
        scriptpubkeys_data(spent),
    ) + spec_sha256d(sequences_data(tx.inputs@)) + spec_sha256d(outputs_data(tx.outputs@));
    let v = le_bytes(tx.version as nat, 4);
    let l = le_bytes(tx.locktime as nat, 4);
    lemma_index_bytes(i);
    lemma_index_bytes(tx.version as nat);
    lemma_index_bytes(tx.locktime as nat);
    let m = sighash_message(tx, i, spent);
    assert(m =~= v + l + hs + le_bytes(i, 4) + seq![SIGHASH_ALL]);
    let n = m.len();
    assert(m.subrange(0, 4) =~= v);
    assert(m.subrange(4, 8) =~= l);
    assert(m.subrange(8, n - 5) =~= hs);
    assert(m.subrange(n - 5, n - 1) =~= le_bytes(i, 4));
}

/// What the message signed for a confidential input holds, in order: the
/// version and the lock time (four little-endian bytes each), the hashes of
/// the previous outputs, of the sequences, of the spent script and of the
/// outputs, the fee (eight little-endian bytes), the input's index (four)
/// and `SIGHASH_ALL`.
pub proof fn lemma_sighash_v2_message_layout(tx: TransactionV2, i: nat, spent_script_pubkey: Seq<u8>)
    requires
        i < 0x1_0000_0000,
    ensures
        ({
            let m = sighash_v2_message(tx, i, spent_script_pubkey);
            let n = m.len();
            &&& n >= 21
            &&& le_value(m.subrange(0, 4)) == tx.version
            &&& le_value(m.subrange(4, 8)) == tx.locktime
            &&& m.subrange(8, n - 13) == spec_sha256d(prevouts_v2_data(tx.inputs@)) + spec_sha256d(
                sequences_v2_data(tx.inputs@),
            ) + spec_sha256d(spent_script_pubkey) + spec_sha256d(outputs_v2_data(tx.outputs@))
            &&& le_value(m.subrange(n - 13, n - 5)) == tx.fee
            &&& le_value(m.subrange(n - 5, n - 1)) == i
            &&& m[n - 1] == SIGHASH_ALL
        }),
{
    let hs = spec_sha256d(prevouts_v2_data(tx.inputs@)) + spec_sha256d(sequences_v2_data(tx.inputs@))
        + spec_sha256d(spent_script_pubkey) + spec_sha256d(outputs_v2_data(tx.outputs@));
    let v = le_bytes(tx.version as nat, 4);
    let l = le_bytes(tx.locktime as nat, 4);
    lemma_index_bytes(i);
    lemma_index_bytes(tx.version as nat);
    lemma_index_bytes(tx.locktime as nat);
    lemma_fee_bytes(tx.fee);
    let m = sighash_v2_message(tx, i, spent_script_pubkey);
    assert(m =~= v + l + hs + le_bytes(tx.fee as nat, 8) + le_bytes(i, 4) + seq![SIGHASH_ALL]);
    let n = m.len();
    assert(m.subrange(0, 4) =~= v);
    assert(m.subrange(4, 8) =~= l);
    assert(m.subrange(8, n - 13) =~= hs);
    assert(m.subrange(n - 13, n - 5) =~= le_bytes(tx.fee as nat, 8));
    assert(m.subrange(n - 5, n - 1) =~= le_bytes(i, 4));
}

/// Encoding each item of `s` in `w` bytes and concatenating gives `w` bytes
/// per item, item `k` at `w * k`.
proof fn lemma_concat_map_fixed<A>(s: Seq<A>, f: spec_fn(A) -> Seq<u8>, w: nat)
    requires
        forall|i: int| 0 <= i < s.len() ==> (#[trigger] f(s[i])).len() == w,
    ensures
        concat_map(s, f).len() == w * s.len(),
        forall|k: int|
            0 <= k < s.len() ==> concat_map(s, f).subrange(w * k, w * k + w) == f(#[trigger] s[k]),
    decreases s.len(),
{
    if s.len() > 0 {
        let t = s.drop_last();
        assert forall|i: int| 0 <= i < t.len() implies (#[trigger] f(t[i])).len() == w by {
            assert(t[i] == s[i]);
        }
        lemma_concat_map_fixed(t, f, w);
        let c = concat_map(s, f);
        let ct = concat_map(t, f);
        assert(c == ct + f(s.last()));
        assert(w * t.len() + w == w * s.len()) by (nonlinear_arith)
            requires
                t.len() + 1 == s.len(),
        ;
        assert forall|k: int| 0 <= k < s.len() implies c.subrange(w * k, w * k + w) == f(#[trigger] s[k]) by {
            if k < t.len() {
                assert(w * k + w <= w * t.len()) by (nonlinear_arith)
                    requires
                        k + 1 <= t.len(),
                ;
                assert(0 <= w * k) by (nonlinear_arith)
                    requires
                        0 <= k,
                ;
                assert(c.subrange(w * k, w * k + w) =~= ct.subrange(w * k, w * k + w));
                assert(t[k] == s[k]);
            } else {
                assert(w * k == w * t.len());
                assert(c.subrange(w * k, w * k + w) =~= f(s.last()));
            }
        }
    }
}

/// The previous-outputs data of a transparent transaction lists each
/// input's outpoint in 36 bytes: the 32-byte transaction identifier, then
/// the output index as four little-endian bytes.
pub proof fn lemma_prevouts_data_lists_outpoints(s: Seq<TxInput>)
    ensures
        prevouts_data(s).len() == 36 * s.len(),
        forall|k: int|
            0 <= k < s.len() ==> {
                let d = prevouts_data(s);
                &&& d.subrange(36 * k, 36 * k + 32) == (#[trigger] s[k]).prev_txid@
                &&& le_value(d.subrange(36 * k + 32, 36 * k + 36)) == s[k].prev_index
            },
{
    let f = |i: TxInput| i.prev_txid@ + le_bytes(i.prev_index as nat, 4);
    assert forall|i: int| 0 <= i < s.len() implies (#[trigger] f(s[i])).len() == 36 by {
        lemma_index_bytes(s[i].prev_index as nat);
    }
    lemma_concat_map_fixed(s, f, 36);
    assert forall|k: int| 0 <= k < s.len() implies {
        let d = prevouts_data(s);
        &&& d.subrange(36 * k, 36 * k + 32) == (#[trigger] s[k]).prev_txid@
        &&& le_value(d.subrange(36 * k + 32, 36 * k + 36)) == s[k].prev_index
    } by {
        let d = prevouts_data(s);
        lemma_index_bytes(s[k].prev_index as nat);
        let b = d.subrange(36 * k, 36 * k + 36);
        assert(b == f(s[k]));
        assert(d.subrange(36 * k, 36 * k + 32) =~= b.subrange(0, 32));
        assert(d.subrange(36 * k + 32, 36 * k + 36) =~= b.subrange(32, 36));
        assert(b.subrange(32, 36) =~= le_bytes(s[k].prev_index as nat, 4));
    }
}

/// The amounts data lists each spent output's value as eight
/// little-endian bytes.
pub proof fn lemma_amounts_data_lists_values(s: Seq<TxOutput>)
    ensures
        amounts_data(s).len() == 8 * s.len(),
        forall|k: int|
            0 <= k < s.len() ==> le_value(amounts_data(s).subrange(8 * k, 8 * k + 8)) == (#[trigger] s[k]).value,
{
    let f = |o: TxOutput| le_bytes(o.value as nat, 8);
    assert forall|i: int| 0 <= i < s.len() implies (#[trigger] f(s[i])).len() == 8 by {
        lemma_fee_bytes(s[i].value);
    }
    lemma_concat_map_fixed(s, f, 8);
    assert forall|k: int| 0 <= k < s.len() implies le_value(amounts_data(s).subrange(8 * k, 8 * k + 8)) == (
    #[trigger] s[k]).value by {
        lemma_fee_bytes(s[k].value);
        assert(f(s[k]) == le_bytes(s[k].value as nat, 8));
    }
}

/// The sequences data lists each input's sequence number as four
/// little-endian bytes.
pub proof fn lemma_sequences_data_lists_sequences(s: Seq<TxInput>)
    ensures
        sequences_data(s).len() == 4 * s.len(),
        forall|k: int|
            0 <= k < s.len() ==> le_value(sequences_data(s).subrange(4 * k, 4 * k + 4)) == (#[trigger] s[k]).sequence,
{
    let f = |i: TxInput| le_bytes(i.sequence as nat, 4);
    assert forall|i: int| 0 <= i < s.len() implies (#[trigger] f(s[i])).len() == 4 by {
        lemma_index_bytes(s[i].sequence as nat);
    }
    lemma_concat_map_fixed(s, f, 4);
    assert forall|k: int| 0 <= k < s.len() implies le_value(sequences_data(s).subrange(4 * k, 4 * k + 4)) == (
    #[trigger] s[k]).sequence by {
        lemma_index_bytes(s[k].sequence as nat);
        assert(f(s[k]) == le_bytes(s[k].sequence as nat, 4));
    }
}

/// The previous-outputs data of a confidential transaction lists each
/// input's outpoint in 36 bytes: the transaction identifier, then the
/// output index as four little-endian bytes.
pub proof fn lemma_prevouts_v2_data_lists_outpoints(s: Seq<TxInputV2>)
    ensures
        prevouts_v2_data(s).len() == 36 * s.len(),
        forall|k: int|
            0 <= k < s.len() ==> {
                let d = prevouts_v2_data(s);
                &&& d.subrange(36 * k, 36 * k + 32) == (#[trigger] s[k]).prev_txid@
                &&& le_value(d.subrange(36 * k + 32, 36 * k + 36)) == s[k].prev_index
            },
{
    let f = |i: TxInputV2| i.prev_txid@ + le_bytes(i.prev_index as nat, 4);
    assert forall|i: int| 0 <= i < s.len() implies (#[trigger] f(s[i])).len() == 36 by {
        lemma_index_bytes(s[i].prev_index as nat);
    }
    lemma_concat_map_fixed(s, f, 36);
    assert forall|k: int| 0 <= k < s.len() implies {
        let d = prevouts_v2_data(s);
        &&& d.subrange(36 * k, 36 * k + 32) == (#[trigger] s[k]).prev_txid@
        &&& le_value(d.subrange(36 * k + 32, 36 * k + 36)) == s[k].prev_index
    } by {
        let d = prevouts_v2_data(s);
        lemma_index_bytes(s[k].prev_index as nat);
        let b = d.subrange(36 * k, 36 * k + 36);
        assert(b == f(s[k]));
        assert(d.subrange(36 * k, 36 * k + 32) =~= b.subrange(0, 32));
        assert(d.subrange(36 * k + 32, 36 * k + 36) =~= b.subrange(32, 36));
        assert(b.subrange(32, 36) =~= le_bytes(s[k].prev_index as nat, 4));
    }
}

/// The sequences data of a confidential transaction lists each input's
/// sequence number as four little-endian bytes.
pub proof fn lemma_sequences_v2_data_lists_sequences(s: Seq<TxInputV2>)
    ensures
        sequences_v2_data(s).len() == 4 * s.len(),
        forall|k: int|
            0 <= k < s.len() ==> le_value(sequences_v2_data(s).subrange(4 * k, 4 * k + 4)) == (
            #[trigger] s[k]).sequence,
{
    let f = |i: TxInputV2| le_bytes(i.sequence as nat, 4);
    assert forall|i: int| 0 <= i < s.len() implies (#[trigger] f(s[i])).len() == 4 by {
        lemma_index_bytes(s[i].sequence as nat);
    }
    lemma_concat_map_fixed(s, f, 4);
    assert forall|k: int| 0 <= k < s.len() implies le_value(sequences_v2_data(s).subrange(4 * k, 4 * k + 4))
        == (#[trigger] s[k]).sequence by {
        lemma_index_bytes(s[k].sequence as nat);
        assert(f(s[k]) == le_bytes(s[k].sequence as nat, 4));
    }
}

} // verus!
