//! Transactions: the transparent kind (V1) and the confidential kind (V2,
//! amounts hidden in Pedersen commitments), their encodings and identifiers.
use vstd::prelude::*;
use crate::primitives::bytes::{le_bytes, push_le};
use crate::primitives::hash::{sha256d, spec_sha256d, Hash256};
use crate::primitives::serialize::{
    bytes_field, concat_map, lemma_concat_map_step, list_field, write_bytes, write_compact_size,
};

verus! {

/// Version number of confidential transactions.
pub const TX_VERSION_V2: u32 = 2;

#[derive(Debug)]
pub struct TxInput {
    pub prev_txid: Hash256,
    pub prev_index: u32,
    pub script_sig: Vec<u8>,
    pub sequence: u32,
}

#[derive(Debug)]
pub struct TxOutput {
    pub value: u64,
    pub script_pubkey: Vec<u8>,
}

#[derive(Debug)]
pub struct Witness {
    pub stack_items: Vec<Vec<u8>>,
}

#[derive(Debug)]
pub struct Transaction {
    pub version: u32,
    pub inputs: Vec<TxInput>,
    pub outputs: Vec<TxOutput>,
    pub witnesses: Vec<Witness>,
    pub locktime: u32,
}

/// A Pedersen commitment, as the 32 bytes of its compressed Ristretto point.
#[derive(Debug, Clone, Copy, PartialEq, Eq)]
pub struct PedersenCommitment(pub [u8; 32]);

/// A blinding factor, as the 32 bytes of a scalar.
#[derive(Debug, Clone, Copy, PartialEq, Eq)]
pub struct BlindingFactor(pub [u8; 32]);

/// A serialized Bulletproofs range proof.
#[derive(Debug)]
pub struct RangeProof(pub Vec<u8>);

#[derive(Debug)]
pub struct TxInputV2 {
    pub prev_txid: Hash256,
    pub prev_index: u32,
    pub script_sig: Vec<u8>,
    pub sequence: u32,
}

#[derive(Debug)]
pub struct TxOutputV2 {
    pub commitment: PedersenCommitment,
    pub range_proof: RangeProof,
    pub script_pubkey: Vec<u8>,
    pub encrypted_amount: Vec<u8>,
    pub ephemeral_pubkey: [u8; 32],
}

#[derive(Debug)]
pub struct TransactionV2 {
    pub version: u32,
    pub inputs: Vec<TxInputV2>,
    pub outputs: Vec<TxOutputV2>,
    pub fee: u64,
    pub locktime: u32,
}

/// A transaction of either kind.
#[derive(Debug)]
pub enum TxKind {
    V1(Transaction),
    V2(TransactionV2),
}

/// The encoding of a transparent input.
pub open spec fn input_bytes(i: TxInput) -> Seq<u8> {
    i.prev_txid@ + le_bytes(i.prev_index as nat, 4) + bytes_field(i.script_sig@) + le_bytes(
        i.sequence as nat,
        4,
    )
}

/// The encoding of a transparent output: value, then script.
pub open spec fn output_bytes(o: TxOutput) -> Seq<u8> {
    le_bytes(o.value as nat, 8) + bytes_field(o.script_pubkey@)
}

/// The encoding of a witness: its stack items as a list of byte strings.
pub open spec fn witness_bytes(w: Witness) -> Seq<u8> {
    list_field(w.stack_items@, |v: Vec<u8>| bytes_field(v@))
}

/// The encoding of a confidential input.
pub open spec fn input_v2_bytes(i: TxInputV2) -> Seq<u8> {
    i.prev_txid@ + le_bytes(i.prev_index as nat, 4) + bytes_field(i.script_sig@) + le_bytes(
        i.sequence as nat,
        4,
    )
}

/// The encoding of a confidential output.
pub open spec fn output_v2_bytes(o: TxOutputV2) -> Seq<u8> {
    o.commitment.0@ + bytes_field(o.range_proof.0@) + bytes_field(o.script_pubkey@) + bytes_field(
        o.encrypted_amount@,
    ) + o.ephemeral_pubkey@
}

impl TxInput {
    pub fn encode_into(&self, out: &mut Vec<u8>)
        ensures
            final(out)@ == old(out)@ + input_bytes(*self),
    {
        out.extend_from_slice(&self.prev_txid);
        push_le(out, self.prev_index as u64, 4);
        write_bytes(out, self.script_sig.as_slice());
        push_le(out, self.sequence as u64, 4);
        proof {
            assert(final(out)@ =~= old(out)@ + input_bytes(*self));
        }
    }
}

impl TxOutput {
    pub open spec fn spec_encode(self) -> Seq<u8> {
        output_bytes(self)
    }

    pub fn encode_into(&self, out: &mut Vec<u8>)
        ensures
            final(out)@ == old(out)@ + output_bytes(*self),
    {
        push_le(out, self.value, 8);
        write_bytes(out, self.script_pubkey.as_slice());
        proof {
            assert(final(out)@ =~= old(out)@ + output_bytes(*self));
        }
    }

    pub fn encode(&self) -> (out: Vec<u8>)
        ensures
            out@ == output_bytes(*self),
    {
        let mut out: Vec<u8> = Vec::new();
        self.encode_into(&mut out);
        proof {
            assert(out@ =~= output_bytes(*self));
        }
        out
    }

    /// A copy with the same value and script.
    pub fn duplicate(&self) -> (r: TxOutput)
        ensures
            r.value == self.value,
            r.script_pubkey@ == self.script_pubkey@,
    {
        TxOutput { value: self.value, script_pubkey: self.script_pubkey.clone() }
    }
}

impl Witness {
    pub fn encode_into(&self, out: &mut Vec<u8>)
        ensures
            final(out)@ == old(out)@ + witness_bytes(*self),
    {
        let ghost f = |v: Vec<u8>| bytes_field(v@);
        let ghost start = out@;
        write_compact_size(out, self.stack_items.len() as u64);
        let ghost mid = out@;
        let mut i: usize = 0;
        while i < self.stack_items.len()
            invariant
                i <= self.stack_items@.len(),
                out@ == mid + concat_map(self.stack_items@.take(i as int), f),
                forall|x: Vec<u8>| #[trigger] f(x) == bytes_field(x@),
            decreases self.stack_items@.len() - i,
        {
            write_bytes(out, self.stack_items[i].as_slice());
            proof {
                lemma_concat_map_step(self.stack_items@, f, i as int);
                assert(out@ =~= mid + concat_map(self.stack_items@.take(i + 1), f));
            }
            i = i + 1;
        }
        proof {
            assert(self.stack_items@.take(i as int) =~= self.stack_items@);
            assert(out@ =~= start + witness_bytes(*self));
        }
    }
}

impl TxInputV2 {
    pub fn encode_into(&self, out: &mut Vec<u8>)
        ensures
            final(out)@ == old(out)@ + input_v2_bytes(*self),
    {
        out.extend_from_slice(&self.prev_txid);
        push_le(out, self.prev_index as u64, 4);
        write_bytes(out, self.script_sig.as_slice());
        push_le(out, self.sequence as u64, 4);
        proof {
            assert(final(out)@ =~= old(out)@ + input_v2_bytes(*self));
        }
    }
}

impl TxOutputV2 {
    pub fn encode_into(&self, out: &mut Vec<u8>)
        ensures
            final(out)@ == old(out)@ + output_v2_bytes(*self),
    {
        out.extend_from_slice(&self.commitment.0);
        write_bytes(out, self.range_proof.0.as_slice());
        write_bytes(out, self.script_pubkey.as_slice());
        write_bytes(out, self.encrypted_amount.as_slice());
        out.extend_from_slice(&self.ephemeral_pubkey);
        proof {
            assert(final(out)@ =~= old(out)@ + output_v2_bytes(*self));
        }
    }
}

/// Appends the inputs as a list.
fn write_inputs(out: &mut Vec<u8>, inputs: &Vec<TxInput>)
    ensures
        final(out)@ == old(out)@ + list_field(inputs@, |i: TxInput| input_bytes(i)),
{
    let ghost f = |i: TxInput| input_bytes(i);
    let ghost start = out@;
    write_compact_size(out, inputs.len() as u64);
    let ghost mid = out@;
    let mut i: usize = 0;
    while i < inputs.len()
        invariant
            i <= inputs@.len(),
            out@ == mid + concat_map(inputs@.take(i as int), f),
            forall|x: TxInput| #[trigger] f(x) == input_bytes(x),
        decreases inputs@.len() - i,
    {
        inputs[i].encode_into(out);
        proof {
            lemma_concat_map_step(inputs@, f, i as int);
            assert(out@ =~= mid + concat_map(inputs@.take(i + 1), f));
        }
        i = i + 1;
    }
    proof {
        assert(inputs@.take(i as int) =~= inputs@);
        assert(out@ =~= start + list_field(inputs@, f));
    }
}

/// Appends the outputs as a list.
fn write_outputs(out: &mut Vec<u8>, outputs: &Vec<TxOutput>)
    ensures
        final(out)@ == old(out)@ + list_field(outputs@, |o: TxOutput| output_bytes(o)),
{
    let ghost f = |o: TxOutput| output_bytes(o);
    let ghost start = out@;
    write_compact_size(out, outputs.len() as u64);
    let ghost mid = out@;
    let mut i: usize = 0;
    while i < outputs.len()
        invariant
            i <= outputs@.len(),
            out@ == mid + concat_map(outputs@.take(i as int), f),
            forall|x: TxOutput| #[trigger] f(x) == output_bytes(x),
        decreases outputs@.len() - i,
    {
        outputs[i].encode_into(out);
        proof {
            lemma_concat_map_step(outputs@, f, i as int);
            assert(out@ =~= mid + concat_map(outputs@.take(i + 1), f));
        }
        i = i + 1;
    }
    proof {
        assert(outputs@.take(i as int) =~= outputs@);
        assert(out@ =~= start + list_field(outputs@, f));
    }
}

impl Transaction {
    /// The encoding that identifies the transaction: version, inputs,
    /// outputs and locktime.
    pub open spec fn spec_encode_without_witness(self) -> Seq<u8> {
        le_bytes(self.version as nat, 4) + list_field(self.inputs@, |i: TxInput| input_bytes(i))
            + list_field(self.outputs@, |o: TxOutput| output_bytes(o)) + le_bytes(
            self.locktime as nat,
            4,
        )
    }

    /// The full encoding: the witnesses come between the outputs and the
    /// locktime.
    pub open spec fn spec_encode_with_witness(self) -> Seq<u8> {
        le_bytes(self.version as nat, 4) + list_field(self.inputs@, |i: TxInput| input_bytes(i))
            + list_field(self.outputs@, |o: TxOutput| output_bytes(o)) + list_field(
            self.witnesses@,
            |w: Witness| witness_bytes(w),
        ) + le_bytes(self.locktime as nat, 4)
    }

    pub fn encode_without_witness(&self) -> (out: Vec<u8>)
        ensures
            out@ == self.spec_encode_without_witness(),
    {
        let mut out: Vec<u8> = Vec::new();
        push_le(&mut out, self.version as u64, 4);
        write_inputs(&mut out, &self.inputs);
        write_outputs(&mut out, &self.outputs);
        push_le(&mut out, self.locktime as u64, 4);
        proof {
            assert(out@ =~= self.spec_encode_without_witness());
        }
        out
    }

    pub fn encode_with_witness(&self) -> (out: Vec<u8>)
        ensures
            out@ == self.spec_encode_with_witness(),
    {
        let ghost f = |w: Witness| witness_bytes(w);
        let mut out: Vec<u8> = Vec::new();
        push_le(&mut out, self.version as u64, 4);
        write_inputs(&mut out, &self.inputs);
        write_outputs(&mut out, &self.outputs);
        let ghost before = out@;
        write_compact_size(&mut out, self.witnesses.len() as u64);
        let ghost mid = out@;
        let mut i: usize = 0;
        while i < self.witnesses.len()
            invariant
                i <= self.witnesses@.len(),
                out@ == mid + concat_map(self.witnesses@.take(i as int), f),
                forall|x: Witness| #[trigger] f(x) == witness_bytes(x),
            decreases self.witnesses@.len() - i,
        {
            self.witnesses[i].encode_into(&mut out);
            proof {
                lemma_concat_map_step(self.witnesses@, f, i as int);
                assert(out@ =~= mid + concat_map(self.witnesses@.take(i + 1), f));
            }
            i = i + 1;
        }
        proof {
            assert(self.witnesses@.take(i as int) =~= self.witnesses@);
        }
        push_le(&mut out, self.locktime as u64, 4);
        proof {
            assert(out@ =~= self.spec_encode_with_witness());
        }
        out
    }

    pub open spec fn spec_txid(self) -> Seq<u8> {
        spec_sha256d(self.spec_encode_without_witness())
    }

    /// The transaction identifier: double SHA-256 of the encoding without
    /// witnesses.
    pub fn txid(&self) -> (out: Hash256)
        ensures
            out@ == self.spec_txid(),
    {
        let enc = self.encode_without_witness();
        sha256d(enc.as_slice())
    }
}

impl TransactionV2 {
    /// Version, inputs, outputs, fee and locktime.
    pub open spec fn spec_encode(self) -> Seq<u8> {
        le_bytes(self.version as nat, 4) + list_field(
            self.inputs@,
            |i: TxInputV2| input_v2_bytes(i),
        ) + list_field(self.outputs@, |o: TxOutputV2| output_v2_bytes(o)) + le_bytes(
            self.fee as nat,
            8,
        ) + le_bytes(self.locktime as nat, 4)
    }

    pub fn encode(&self) -> (out: Vec<u8>)
        ensures
            out@ == self.spec_encode(),
    {
        let ghost fi = |i: TxInputV2| input_v2_bytes(i);
        let ghost fo = |o: TxOutputV2| output_v2_bytes(o);
        let mut out: Vec<u8> = Vec::new();
        push_le(&mut out, self.version as u64, 4);
        let ghost a = out@;
        write_compact_size(&mut out, self.inputs.len() as u64);
        let ghost a2 = out@;
        let mut i: usize = 0;
        while i < self.inputs.len()
            invariant
                i <= self.inputs@.len(),
                out@ == a2 + concat_map(self.inputs@.take(i as int), fi),
                forall|x: TxInputV2| #[trigger] fi(x) == input_v2_bytes(x),
            decreases self.inputs@.len() - i,
        {
            self.inputs[i].encode_into(&mut out);
            proof {
                lemma_concat_map_step(self.inputs@, fi, i as int);
                assert(out@ =~= a2 + concat_map(self.inputs@.take(i + 1), fi));
            }
            i = i + 1;
        }
        proof {
            assert(self.inputs@.take(i as int) =~= self.inputs@);
        }
        let ghost b = out@;
        write_compact_size(&mut out, self.outputs.len() as u64);
        let ghost b2 = out@;
        let mut j: usize = 0;
        while j < self.outputs.len()
            invariant
                j <= self.outputs@.len(),
                out@ == b2 + concat_map(self.outputs@.take(j as int), fo),
                forall|x: TxOutputV2| #[trigger] fo(x) == output_v2_bytes(x),
            decreases self.outputs@.len() - j,
        {
            self.outputs[j].encode_into(&mut out);
            proof {
                lemma_concat_map_step(self.outputs@, fo, j as int);
                assert(out@ =~= b2 + concat_map(self.outputs@.take(j + 1), fo));
            }
            j = j + 1;
        }
        proof {
            assert(self.outputs@.take(j as int) =~= self.outputs@);
        }
        push_le(&mut out, self.fee, 8);
        push_le(&mut out, self.locktime as u64, 4);
        proof {
            assert(out@ =~= self.spec_encode());
        }
        out
    }

    pub open spec fn spec_txid(self) -> Seq<u8> {
        spec_sha256d(self.spec_encode())
    }

    /// The identifier: double SHA-256 of the encoding.
    pub fn txid(&self) -> (out: Hash256)
        ensures
            out@ == self.spec_txid(),
    {
        let enc = self.encode();
        sha256d(enc.as_slice())
    }
}

impl TxKind {
    pub open spec fn spec_txid(self) -> Seq<u8> {
        match self {
            TxKind::V1(tx) => tx.spec_txid(),
            TxKind::V2(tx) => tx.spec_txid(),
        }
    }

    pub fn txid(&self) -> (out: Hash256)
        ensures
            out@ == self.spec_txid(),
    {
        match self {
            TxKind::V1(tx) => tx.txid(),
            TxKind::V2(tx) => tx.txid(),
        }
    }
}

} // verus!
