//! The set of unspent transaction outputs and how a transaction changes it.
use vstd::prelude::*;
use crate::consensus::block::spec_bytes32;
use crate::consensus::outpoint_map::OutPointMap;
use crate::consensus::transaction::{Transaction, TxInput, TxOutput};
use crate::primitives::bytes::{
    le_bytes, le_value, lemma_le_bytes_len, lemma_le_value_bound, lemma_le_value_of_bytes, pow256,
    push_le, read_array32, read_le,
};
use crate::primitives::hash::Hash256;
use crate::primitives::serialize::{
    bytes_field, lemma_bytes_field_roundtrip, parse_bytes_field, read_bytes, write_bytes, DecodeError,
};
use crate::script::sighash::{lemma_sighash_ignores_signatures, same_spent, spec_sighash};
use crate::script::engine::{
    is_p2dl, is_p2dl_script, spec_p2dl_precheck, validate_p2dl, ScriptContext, ScriptError, SignatureCheck,
};

pub use crate::consensus::outpoint_map::OutPoint;

verus! {

broadcast use vstd::array::group_array_axioms;

/// Blocks a coinbase output must wait before it can be spent.
pub const COINBASE_MATURITY: u64 = 100;

#[derive(Debug)]
pub struct UtxoEntry {
    pub output: TxOutput,
    pub coinbase: bool,
    pub height: u64,
}

/// An unspent output by value.
pub struct UtxoRecord {
    pub value: u64,
    pub script_pubkey: Seq<u8>,
    pub coinbase: bool,
    pub height: u64,
}

impl UtxoEntry {
    pub open spec fn model(self) -> UtxoRecord {
        UtxoRecord {
            value: self.output.value,
            script_pubkey: self.output.script_pubkey@,
            coinbase: self.coinbase,
            height: self.height,
        }
    }

    /// A copy with the same contents.
    pub fn duplicate(&self) -> (r: UtxoEntry)
        ensures
            r.model() == self.model(),
    {
        UtxoEntry { output: self.output.duplicate(), coinbase: self.coinbase, height: self.height }
    }
}

#[derive(Debug)]
pub struct UtxoEntryV2 {
    pub commitment: [u8; 32],
    pub script_pubkey: Vec<u8>,
    pub encrypted_amount: Vec<u8>,
    pub ephemeral_pubkey: [u8; 32],
    pub coinbase: bool,
    pub height: u32,
}

/// The encoding of a confidential unspent output.
pub open spec fn utxo_v2_bytes(
    commitment: Seq<u8>,
    script_pubkey: Seq<u8>,
    encrypted_amount: Seq<u8>,
    ephemeral_pubkey: Seq<u8>,
    coinbase: bool,
    height: u32,
) -> Seq<u8> {
    commitment + bytes_field(script_pubkey) + bytes_field(encrypted_amount) + ephemeral_pubkey
        + seq![if coinbase { 1u8 } else { 0u8 }] + le_bytes(height as nat, 4)
}

/// The fields read from the front of `s`, and the bytes taken, when `s`
/// begins with an encoded confidential unspent output; the coinbase byte
/// reads as true when not zero.
pub open spec fn parse_utxo_v2(s: Seq<u8>) -> Option<
    (Seq<u8>, Seq<u8>, Seq<u8>, Seq<u8>, bool, u32, nat),
> {
    if s.len() < 32 {
        None
    } else {
        match parse_bytes_field(s.subrange(32, s.len() as int)) {
            None => None,
            Some((spk, c2)) => {
                let p3: int = 32 + c2 as int;
                match parse_bytes_field(s.subrange(p3, s.len() as int)) {
                    None => None,
                    Some((enc, c3)) => {
                        let p4: int = p3 + c3 as int;
                        if s.len() < p4 + 37 {
                            None
                        } else {
                            Some(
                                (
                                    s.subrange(0, 32),
                                    spk,
                                    enc,
                                    s.subrange(p4, p4 + 32),
                                    s[p4 + 32] != 0,
                                    le_value(s.subrange(p4 + 33, p4 + 37)) as u32,
                                    (p4 + 37) as nat,
                                ),
                            )
                        }
                    },
                }
            },
        }
    }
}

/// Decoding the encoding of a confidential unspent output gives back its
/// fields and consumes exactly the encoding, whatever follows it.
pub proof fn lemma_utxo_v2_roundtrip(e: UtxoEntryV2, rest: Seq<u8>)
    requires
        e.script_pubkey@.len() < pow256(8),
        e.encrypted_amount@.len() < pow256(8),
    ensures
        parse_utxo_v2(e.spec_encode() + rest) == Some(
            (
                e.commitment@,
                e.script_pubkey@,
                e.encrypted_amount@,
                e.ephemeral_pubkey@,
                e.coinbase,
                e.height,
                e.spec_encode().len(),
            ),
        ),
{
    let c = e.commitment@;
    let f1 = bytes_field(e.script_pubkey@);
    let f2 = bytes_field(e.encrypted_amount@);
    let tail = e.ephemeral_pubkey@ + seq![if e.coinbase { 1u8 } else { 0u8 }] + le_bytes(e.height as nat, 4);
    let s = e.spec_encode() + rest;
    lemma_le_bytes_len(e.height as nat, 4);
    assert(e.spec_encode() =~= c + f1 + f2 + tail);
    assert(s.subrange(32, s.len() as int) =~= f1 + (f2 + tail + rest));
    lemma_bytes_field_roundtrip(e.script_pubkey@, f2 + tail + rest);
    let p3: int = 32 + f1.len() as int;
    assert(s.subrange(p3, s.len() as int) =~= f2 + (tail + rest));
    lemma_bytes_field_roundtrip(e.encrypted_amount@, tail + rest);
    let p4: int = p3 + f2.len() as int;
    assert(s.subrange(0, 32) =~= c);
    assert(s.subrange(p4, p4 + 32) =~= e.ephemeral_pubkey@);
    assert(s[p4 + 32] == (if e.coinbase { 1u8 } else { 0u8 }));
    assert(s.subrange(p4 + 33, p4 + 37) =~= le_bytes(e.height as nat, 4));
    assert(e.height < pow256(4)) by {
        reveal_with_fuel(pow256, 5);
    }
    lemma_le_value_of_bytes(e.height as nat, 4);
}

impl UtxoEntryV2 {
    pub open spec fn spec_encode(self) -> Seq<u8> {
        utxo_v2_bytes(
            self.commitment@,
            self.script_pubkey@,
            self.encrypted_amount@,
            self.ephemeral_pubkey@,
            self.coinbase,
            self.height,
        )
    }

    pub fn encode(&self) -> (out: Vec<u8>)
        ensures
            out@ == self.spec_encode(),
    {
        let mut out: Vec<u8> = Vec::new();
        out.extend_from_slice(&self.commitment);
        write_bytes(&mut out, self.script_pubkey.as_slice());
        write_bytes(&mut out, self.encrypted_amount.as_slice());
        out.extend_from_slice(&self.ephemeral_pubkey);
        out.push(if self.coinbase {
            1u8
        } else {
            0u8
        });
        push_le(&mut out, self.height as u64, 4);
        proof {
            assert(out@ =~= self.spec_encode());
        }
        out
    }

    pub fn encoded_size(&self) -> (n: usize)
        requires
            self.spec_encode().len() <= usize::MAX,
        ensures
            n == self.spec_encode().len(),
    {
        let out = self.encode();
        out.len()
    }

    /// Decodes an entry from the front of `bytes`: `Ok` exactly when
    /// [`parse_utxo_v2`] reads one, with its fields and length.
    pub fn decode(bytes: &[u8]) -> (r: Result<(UtxoEntryV2, usize), DecodeError>)
        ensures
            match r {
                Ok((e, n)) => parse_utxo_v2(bytes@) == Some(
                    (
                        e.commitment@,
                        e.script_pubkey@,
                        e.encrypted_amount@,
                        e.ephemeral_pubkey@,
                        e.coinbase,
                        e.height,
                        n as nat,
                    ),
                ),
                Err(_) => parse_utxo_v2(bytes@) is None,
            },
    {
        if bytes.len() < 32 {
            return Err(DecodeError::UnexpectedEof);
        }
        let commitment = read_array32(bytes, 0);
        let (script_pubkey, p3) = match read_bytes(bytes, 32) {
            Ok(x) => x,
            Err(e) => {
                proof {
                    assert(bytes@.subrange(32, bytes@.len() as int) =~= bytes@.subrange(
                        32,
                        bytes@.len() as int,
                    ));
                }
                return Err(e);
            },
        };
        let (encrypted_amount, p4) = read_bytes(bytes, p3)?;
        if bytes.len() - p4 < 37 {
            return Err(DecodeError::UnexpectedEof);
        }
        let ephemeral_pubkey = read_array32(bytes, p4);
        let cb_byte = bytes[p4 + 32];
        let height64 = read_le(bytes, p4 + 33, 4);
        proof {
            lemma_le_value_bound(bytes@.subrange(p4 + 33, p4 + 37));
            reveal_with_fuel(pow256, 5);
        }
        let height = height64 as u32;
        Ok(
            (
                UtxoEntryV2 {
                    commitment,
                    script_pubkey,
                    encrypted_amount,
                    ephemeral_pubkey,
                    coinbase: cb_byte != 0,
                    height,
                },
                p4 + 37,
            ),
        )
    }
}

#[derive(Debug, Clone, Copy, PartialEq, Eq)]
pub enum UtxoError {
    UtxoNotFound,
    UtxoAlreadySpent,
    DuplicateUtxo,
    CoinbaseNotMature,
    ImmatureCoinbase,
    ScriptValidationFailed,
    InsufficientValue,
    ValueOverflow,
}

/// The unspent outputs, by outpoint.
pub struct UtxoSet {
    pub(crate) utxos: OutPointMap<UtxoEntry>,
}

/// The outpoint an input spends.
pub open spec fn input_outpoint(i: TxInput) -> OutPoint {
    OutPoint { txid: i.prev_txid, vout: i.prev_index }
}

/// The record an output becomes in the set.
pub open spec fn output_record(o: TxOutput, height: u64, coinbase: bool) -> UtxoRecord {
    UtxoRecord { value: o.value, script_pubkey: o.script_pubkey@, coinbase, height }
}

/// Adding outputs `i..` of a transaction with identifier `txid`, one by one:
/// the set afterwards, and whether no outpoint was already present (adding
/// stops at the first that was).
pub open spec fn spec_add_outputs(
    m: Map<OutPoint, UtxoRecord>,
    txid: Hash256,
    outs: Seq<TxOutput>,
    height: u64,
    coinbase: bool,
    i: nat,
) -> (Map<OutPoint, UtxoRecord>, bool)
    decreases outs.len() - i,
{
    if i >= outs.len() {
        (m, true)
    } else {
        let op = OutPoint { txid, vout: i as u32 };
        if m.contains_key(op) {
            (m, false)
        } else {
            spec_add_outputs(
                m.insert(op, output_record(outs[i as int], height, coinbase)),
                txid,
                outs,
                height,
                coinbase,
                i + 1,
            )
        }
    }
}

/// Spending one outpoint at height `h`: refused when absent, or when it is a
/// coinbase output with fewer than `COINBASE_MATURITY` blocks on top.
pub open spec fn spec_spend_one(m: Map<OutPoint, UtxoRecord>, op: OutPoint, h: u64) -> (
    Map<OutPoint, UtxoRecord>,
    Result<UtxoRecord, UtxoError>,
) {
    if !m.contains_key(op) {
        (m, Err(UtxoError::UtxoNotFound))
    } else {
        let e = m[op];
        if e.coinbase && (if h >= e.height {
            h - e.height
        } else {
            0
        }) < COINBASE_MATURITY {
            (m, Err(UtxoError::CoinbaseNotMature))
        } else {
            (m.remove(op), Ok(e))
        }
    }
}

/// Spending the outpoints of the first `k` inputs in order, stopping at the
/// first refusal: the set afterwards and the records spent.
pub open spec fn spec_spend_prefix(
    m: Map<OutPoint, UtxoRecord>,
    ins: Seq<TxInput>,
    h: u64,
    k: nat,
) -> (Map<OutPoint, UtxoRecord>, Result<Seq<UtxoRecord>, UtxoError>)
    decreases k,
{
    if k == 0 {
        (m, Ok(Seq::empty()))
    } else {
        let (m1, r) = spec_spend_prefix(m, ins, h, (k - 1) as nat);
        match r {
            Err(e) => (m1, Err(e)),
            Ok(s) => {
                let (m2, r2) = spec_spend_one(m1, input_outpoint(ins[k - 1]), h);
                match r2 {
                    Err(e) => (m2, Err(e)),
                    Ok(x) => (m2, Ok(s.push(x))),
                }
            },
        }
    }
}

proof fn lemma_spend_prefix_err(m: Map<OutPoint, UtxoRecord>, ins: Seq<TxInput>, h: u64, k: nat, n: nat)
    requires
        k <= n,
        spec_spend_prefix(m, ins, h, k).1 is Err,
    ensures
        spec_spend_prefix(m, ins, h, n) == spec_spend_prefix(m, ins, h, k),
    decreases n - k,
{
    if k < n {
        lemma_spend_prefix_err(m, ins, h, k, (n - 1) as nat);
    }
}

proof fn lemma_spend_prefix_len(m: Map<OutPoint, UtxoRecord>, ins: Seq<TxInput>, h: u64, k: nat)
    ensures
        spec_spend_prefix(m, ins, h, k).1 matches Ok(s) ==> s.len() == k,
    decreases k,
{
    if k > 0 {
        lemma_spend_prefix_len(m, ins, h, (k - 1) as nat);
    }
}

proof fn lemma_add_outputs_err(
    m: Map<OutPoint, UtxoRecord>,
    txid: Hash256,
    outs: Seq<TxOutput>,
    height: u64,
    coinbase: bool,
    i: nat,
)
    requires
        i < outs.len(),
        m.contains_key(OutPoint { txid, vout: i as u32 }),
    ensures
        spec_add_outputs(m, txid, outs, height, coinbase, i) == (m, false),
{
}

/// The outpoint of output `j` of the transaction `txid`.
pub open spec fn vout_key(txid: Hash256, j: nat) -> OutPoint {
    OutPoint { txid, vout: j as u32 }
}

proof fn lemma_add_outputs_fresh(
    m: Map<OutPoint, UtxoRecord>,
    txid: Hash256,
    outs: Seq<TxOutput>,
    height: u64,
    coinbase: bool,
    k: nat,
)
    requires
        k <= outs.len(),
        outs.len() <= 0x1_0000_0000,
        forall|j: nat| k <= j < outs.len() ==> !m.contains_key(#[trigger] vout_key(txid, j)),
    ensures
        spec_add_outputs(m, txid, outs, height, coinbase, k).1,
        forall|op: OutPoint| #[trigger]
            m.contains_key(op) ==> spec_add_outputs(m, txid, outs, height, coinbase, k).0.contains_key(op)
                && spec_add_outputs(m, txid, outs, height, coinbase, k).0[op] == m[op],
        forall|j: nat|
            k <= j < outs.len() ==> spec_add_outputs(m, txid, outs, height, coinbase, k).0.contains_key(
                #[trigger] vout_key(txid, j),
            ) && spec_add_outputs(m, txid, outs, height, coinbase, k).0[vout_key(txid, j)]
                == output_record(outs[j as int], height, coinbase),
    decreases outs.len() - k,
{
    if k < outs.len() {
        let op = OutPoint { txid, vout: k as u32 };
        let m1 = m.insert(op, output_record(outs[k as int], height, coinbase));
        assert forall|j: nat| k + 1 <= j < outs.len() implies !m1.contains_key(vout_key(txid, j)) by {
            assert(j as u32 != k as u32);
            assert(!m.contains_key(#[trigger] vout_key(txid, j)));
        }
        lemma_add_outputs_fresh(m1, txid, outs, height, coinbase, k + 1);
        assert(!m.contains_key(vout_key(txid, k)));
        assert(spec_add_outputs(m, txid, outs, height, coinbase, k) == spec_add_outputs(
            m1,
            txid,
            outs,
            height,
            coinbase,
            k + 1,
        ));
        let r = spec_add_outputs(m1, txid, outs, height, coinbase, k + 1).0;
        assert forall|o: OutPoint| #[trigger] m.contains_key(o) implies r.contains_key(o) && r[o] == m[o] by {
            assert(m1.contains_key(o));
        }
        assert(m1.contains_key(vout_key(txid, k)));
        assert(r.contains_key(vout_key(txid, k)));
    }
}

/// Each output a transaction adds, where none of its outpoints was present,
/// can be spent with its record given back, at once or, for a coinbase, once
/// `COINBASE_MATURITY` blocks have passed; spending removes it.
pub proof fn lemma_add_then_spend(
    m: Map<OutPoint, UtxoRecord>,
    txid: Hash256,
    outs: Seq<TxOutput>,
    height: u64,
    coinbase: bool,
    i: nat,
    spend_height: u64,
)
    requires
        i < outs.len(),
        outs.len() <= 0x1_0000_0000,
        forall|j: nat| j < outs.len() ==> !m.contains_key(#[trigger] vout_key(txid, j)),
        coinbase ==> spend_height >= height + COINBASE_MATURITY,
    ensures
        spec_add_outputs(m, txid, outs, height, coinbase, 0).1,
        ({
            let added = spec_add_outputs(m, txid, outs, height, coinbase, 0).0;
            let op = OutPoint { txid, vout: i as u32 };
            spec_spend_one(added, op, spend_height) == (
                added.remove(op),
                Ok::<UtxoRecord, UtxoError>(output_record(outs[i as int], height, coinbase)),
            )
        }),
{
    lemma_add_outputs_fresh(m, txid, outs, height, coinbase, 0);
    let added = spec_add_outputs(m, txid, outs, height, coinbase, 0).0;
    assert(added.contains_key(vout_key(txid, i)));
}

impl Default for UtxoSet {
    fn default() -> (s: Self)
        ensures
            s.view() == Map::<OutPoint, UtxoRecord>::empty(),
    {
        Self::new()
    }
}

/// Every input of `tx` that spends a P2DL output, of the outputs `outs`
/// spent in order, passes the P2DL checks and has its signature of its
/// signature hash accepted by `checker`.
pub open spec fn p2dl_signatures_accepted<C: SignatureCheck>(
    checker: &C,
    tx: Transaction,
    outs: Seq<TxOutput>,
) -> bool {
    forall|j: int|
        0 <= j < tx.inputs@.len() && j < outs.len() && is_p2dl_script(#[trigger] outs[j].script_pubkey@)
            ==> (spec_p2dl_precheck(tx.inputs@[j].script_sig@, outs[j].script_pubkey@) matches Ok(
            Some((sig, pk)),
        ) && spec_sighash(tx, j as nat, outs) matches Some(h) && checker.accepts(pk, h, sig))
}

/// Every P2DL input of `tx` has its signature accepted by `checker`, the
/// outputs it spends carrying the values and scripts of `spent`.
pub open spec fn signatures_accepted<C: SignatureCheck>(checker: &C, tx: Transaction, spent: Seq<UtxoRecord>) -> bool {
    exists|outs: Seq<TxOutput>| #[trigger] outputs_match(outs, spent) && p2dl_signatures_accepted(checker, tx, outs)
}

/// A P2DL input whose check does not come out `Ok(true)` against outputs
/// carrying the records `spent` rules out that the signatures of `tx` were
/// accepted against them.
pub proof fn lemma_refusal_denies_acceptance<C: SignatureCheck>(
    checker: &C,
    tx: Transaction,
    index: int,
    outs: Seq<TxOutput>,
    spent: Seq<UtxoRecord>,
    verdict: Result<bool, ScriptError>,
)
    requires
        0 <= index < tx.inputs@.len(),
        outs.len() == tx.inputs@.len(),
        outputs_match(outs, spent),
        is_p2dl_script(outs[index].script_pubkey@),
        spec_sighash(tx, index as nat, outs) is Some ==> match spec_p2dl_precheck(
            tx.inputs@[index].script_sig@,
            outs[index].script_pubkey@,
        ) {
            Err(e) => verdict == Err::<bool, ScriptError>(e),
            Ok(None) => verdict == Ok::<bool, ScriptError>(false),
            Ok(Some((sig, pk))) => verdict == Ok::<bool, ScriptError>(
                checker.accepts(pk, spec_sighash(tx, index as nat, outs)->Some_0, sig),
            ),
        },
        !(verdict matches Ok(true)),
    ensures
        !signatures_accepted(checker, tx, spent),
{
    if signatures_accepted(checker, tx, spent) {
        let w = choose|w: Seq<TxOutput>| #[trigger] outputs_match(w, spent) && p2dl_signatures_accepted(checker, tx, w);
        assert(same_spent(w, outs));
        lemma_sighash_ignores_signatures(tx, tx, index as nat, w, outs);
        assert(w[index].script_pubkey@ == outs[index].script_pubkey@);
        assert(is_p2dl_script(w[index].script_pubkey@));
    }
}

/// The outputs `outs` carry the values and scripts of the records `spent`.
pub open spec fn outputs_match(outs: Seq<TxOutput>, spent: Seq<UtxoRecord>) -> bool {
    &&& outs.len() == spent.len()
    &&& forall|i: int|
        0 <= i < outs.len() ==> (#[trigger] outs[i]).value == spent[i].value && outs[i].script_pubkey@
            == spent[i].script_pubkey
}

/// Some input spending a P2DL output fails the P2DL checks made before its
/// signature is checked.
pub open spec fn p2dl_refused(ins: Seq<TxInput>, spent: Seq<UtxoRecord>) -> bool {
    exists|j: int|
        0 <= j < ins.len() && j < spent.len() && is_p2dl_script(spent[j].script_pubkey)
            && !(spec_p2dl_precheck(ins[j].script_sig@, spent[j].script_pubkey) matches Ok(Some(_)))
}

impl UtxoSet {
    /// The unspent outputs by value.
    pub closed spec fn view(&self) -> Map<OutPoint, UtxoRecord> {
        self.utxos.view().map_values(|e: UtxoEntry| e.model())
    }

    pub fn new() -> (s: Self)
        ensures
            s.view() == Map::<OutPoint, UtxoRecord>::empty(),
    {
        let s = Self { utxos: OutPointMap::new() };
        proof {
            assert(s.view() =~= Map::<OutPoint, UtxoRecord>::empty());
        }
        s
    }

    pub fn insert(&mut self, outpoint: OutPoint, entry: UtxoEntry)
        ensures
            final(self).view() == old(self).view().insert(outpoint, entry.model()),
    {
        self.utxos.insert(outpoint, entry);
        proof {
            assert(final(self).view() =~= old(self).view().insert(outpoint, entry.model()));
        }
    }

    pub fn remove(&mut self, outpoint: &OutPoint)
        ensures
            final(self).view() == old(self).view().remove(*outpoint),
    {
        let _ = self.utxos.remove(outpoint);
        proof {
            assert(final(self).view() =~= old(self).view().remove(*outpoint));
        }
    }

    pub fn get(&self, outpoint: &OutPoint) -> (r: Option<&UtxoEntry>)
        ensures
            match r {
                Some(e) => self.view().contains_key(*outpoint) && self.view()[*outpoint]
                    == e.model(),
                None => !self.view().contains_key(*outpoint),
            },
    {
        self.utxos.get(outpoint)
    }

    pub fn contains(&self, outpoint: &OutPoint) -> (r: bool)
        ensures
            r == self.view().contains_key(*outpoint),
    {
        self.utxos.contains(outpoint)
    }

    /// Adds every output of `tx` at `height`, stopping with `DuplicateUtxo`
    /// at the first outpoint already present (those before it stay added).
    pub fn add_transaction(&mut self, tx: &Transaction, height: u32, is_coinbase: bool) -> (r:
        Result<(), UtxoError>)
        ensures
            ({
                let (m, ok) = spec_add_outputs(
                    old(self).view(),
                    spec_bytes32(tx.spec_txid()),
                    tx.outputs@,
                    height as u64,
                    is_coinbase,
                    0,
                );
                final(self).view() == m && (r is Ok) == ok && (r matches Err(e) ==> e
                    == UtxoError::DuplicateUtxo)
            }),
    {
        let txid = tx.txid();
        proof {
            assert(spec_bytes32(tx.spec_txid())@ == txid@);
            assert(spec_bytes32(tx.spec_txid()) =~= txid);
        }
        let ghost outs = tx.outputs@;
        let ghost full = spec_add_outputs(
            old(self).view(),
            txid,
            outs,
            height as u64,
            is_coinbase,
            0,
        );
        let mut index: usize = 0;
        while index < tx.outputs.len()
            invariant
                index <= outs.len(),
                outs == tx.outputs@,
                txid == spec_bytes32(tx.spec_txid()),
                full == spec_add_outputs(
                    old(self).view(),
                    txid,
                    outs,
                    height as u64,
                    is_coinbase,
                    0,
                ),
                full == spec_add_outputs(self.view(), txid, outs, height as u64, is_coinbase, index as nat),
            decreases outs.len() - index,
        {
            let outpoint = OutPoint { txid, vout: index as u32 };
            if self.contains(&outpoint) {
                proof {
                    lemma_add_outputs_err(self.view(), txid, outs, height as u64, is_coinbase, index as nat);
                }
                return Err(UtxoError::DuplicateUtxo);
            }
            let entry = UtxoEntry {
                output: tx.outputs[index].duplicate(),
                height: height as u64,
                coinbase: is_coinbase,
            };
            self.insert(outpoint, entry);
            index = index + 1;
        }
        Ok(())
    }

    /// Spends `outpoint` at `current_height`: `UtxoNotFound` when absent,
    /// `CoinbaseNotMature` (set unchanged) for a coinbase output with fewer
    /// than `COINBASE_MATURITY` confirmations, otherwise removes and returns it.
    pub fn spend_input(&mut self, outpoint: &OutPoint, current_height: u32) -> (r: Result<
        UtxoEntry,
        UtxoError,
    >)
        ensures
            ({
                let (m, res) = spec_spend_one(old(self).view(), *outpoint, current_height as u64);
                final(self).view() == m && match r {
                    Ok(e) => res == Ok::<UtxoRecord, UtxoError>(e.model()),
                    Err(e) => res == Err::<UtxoRecord, UtxoError>(e),
                }
            }),
    {
        let entry = match self.utxos.remove(outpoint) {
            Some(e) => e,
            None => {
                proof {
                    assert(final(self).view() =~= old(self).view());
                }
                return Err(UtxoError::UtxoNotFound);
            },
        };
        proof {
            assert(self.view() =~= old(self).view().remove(*outpoint));
        }
        if entry.coinbase {
            let confirmations = (current_height as u64).saturating_sub(entry.height);
            if confirmations < COINBASE_MATURITY {
                let ghost em = entry.model();
                self.insert(*outpoint, entry);
                proof {
                    assert(self.view() =~= old(self).view());
                }
                return Err(UtxoError::CoinbaseNotMature);
            }
        }
        Ok(entry)
    }

    /// Applies a transaction at `height`: unless it is a coinbase, spends
    /// every input in order, then checks the signature of every input that
    /// spends a P2DL output (any refusal: `ScriptValidationFailed`, the
    /// spends stay), then adds the outputs. Returns the spent entries.
    pub fn apply_transaction<C: SignatureCheck>(
        &mut self,
        tx: &Transaction,
        height: u32,
        is_coinbase: bool,
        checker: &C,
    ) -> (r: Result<Vec<UtxoEntry>, UtxoError>)
        ensures
            ({
                let (m1, rs) = if is_coinbase {
                    (old(self).view(), Ok::<Seq<UtxoRecord>, UtxoError>(Seq::empty()))
                } else {
                    spec_spend_prefix(old(self).view(), tx.inputs@, height as u64, tx.inputs@.len())
                };
                let (m2, added) = spec_add_outputs(
                    m1,
                    spec_bytes32(tx.spec_txid()),
                    tx.outputs@,
                    height as u64,
                    is_coinbase,
                    0,
                );
                match rs {
                    Err(e) => r == Err::<Vec<UtxoEntry>, UtxoError>(e) && final(self).view() == m1,
                    Ok(spent) => {
                        &&& (r is Ok && !is_coinbase) ==> signatures_accepted(checker, *tx, spent)
                        &&& (!is_coinbase && p2dl_refused(tx.inputs@, spent)) ==> r == Err::<
                            Vec<UtxoEntry>,
                            UtxoError,
                        >(UtxoError::ScriptValidationFailed)
                        &&& r == Err::<Vec<UtxoEntry>, UtxoError>(
                            UtxoError::ScriptValidationFailed,
                        ) ==> final(self).view() == m1
                        &&& r == Err::<Vec<UtxoEntry>, UtxoError>(UtxoError::DuplicateUtxo) ==> (
                        final(self).view() == m2 && !added)
                        &&& r is Err ==> (r == Err::<Vec<UtxoEntry>, UtxoError>(
                            UtxoError::ScriptValidationFailed,
                        ) || r == Err::<Vec<UtxoEntry>, UtxoError>(UtxoError::DuplicateUtxo))
                        &&& (is_coinbase || signatures_accepted(checker, *tx, spent)) && added ==> r is Ok
                        &&& r matches Ok(v) ==> (final(self).view() == m2 && added
                            && v@.map_values(|e: UtxoEntry| e.model()) == spent && (is_coinbase
                            || !p2dl_refused(tx.inputs@, spent)))
                    },
                }
            }),
    {
        let mut spent: Vec<UtxoEntry> = Vec::new();
        let ghost m0 = self.view();
        let ghost ins = tx.inputs@;
        proof {
            assert(spent@.map_values(|e: UtxoEntry| e.model()) =~= Seq::<UtxoRecord>::empty());
        }
        if !is_coinbase {
            let mut k: usize = 0;
            while k < tx.inputs.len()
                invariant
                    k <= ins.len(),
                    ins == tx.inputs@,
                    !is_coinbase,
                    m0 == old(self).view(),
                    spec_spend_prefix(m0, ins, height as u64, k as nat) == (
                        self.view(),
                        Ok::<Seq<UtxoRecord>, UtxoError>(spent@.map_values(|e: UtxoEntry| e.model())),
                    ),
                decreases ins.len() - k,
            {
                let input = &tx.inputs[k];
                let outpoint = OutPoint { txid: input.prev_txid, vout: input.prev_index };
                let ghost before = spent@.map_values(|e: UtxoEntry| e.model());
                match self.spend_input(&outpoint, height) {
                    Ok(entry) => {
                        spent.push(entry);
                        proof {
                            assert(spent@.map_values(|e: UtxoEntry| e.model()) =~= before.push(
                                entry.model(),
                            ));
                        }
                    },
                    Err(e) => {
                        proof {
                            lemma_spend_prefix_err(m0, ins, height as u64, (k + 1) as nat, ins.len());
                        }
                        return Err(e);
                    },
                }
                k = k + 1;
            }
        }
        let ghost m1 = self.view();
        let ghost spent_models = spent@.map_values(|e: UtxoEntry| e.model());
        proof {
            if !is_coinbase {
                lemma_spend_prefix_len(m0, ins, height as u64, ins.len());
            }
        }
        let ghost mut outs_w: Seq<TxOutput> = Seq::empty();
        if !is_coinbase && spent.len() > 0 {
            let mut spent_outputs: Vec<TxOutput> = Vec::new();
            let mut j: usize = 0;
            while j < spent.len()
                invariant
                    j <= spent@.len(),
                    spent_outputs@.len() == j,
                    forall|i: int|
                        0 <= i < j ==> (#[trigger] spent_outputs@[i]).value == spent@[i].output.value
                            && spent_outputs@[i].script_pubkey@ == spent@[i].output.script_pubkey@,
                decreases spent@.len() - j,
            {
                spent_outputs.push(spent[j].output.duplicate());
                j = j + 1;
            }
            let mut index: usize = 0;
            while index < tx.inputs.len()
                invariant
                    index <= ins.len(),
                    ins == tx.inputs@,
                    !is_coinbase,
                    m0 == old(self).view(),
                    spec_spend_prefix(m0, ins, height as u64, ins.len()) == (
                        m1,
                        Ok::<Seq<UtxoRecord>, UtxoError>(spent_models),
                    ),
                    ins.len() == spent@.len(),
                    spent_outputs@.len() == spent@.len(),
                    spent_models == spent@.map_values(|e: UtxoEntry| e.model()),
                    m1 == self.view(),
                    forall|i: int|
                        0 <= i < spent@.len() ==> (#[trigger] spent_outputs@[i]).script_pubkey@
                            == spent@[i].output.script_pubkey@ && spent_outputs@[i].value == spent@[i].output.value,
                    forall|i: int|
                        0 <= i < index && is_p2dl_script(#[trigger] spent_models[i].script_pubkey)
                            ==> spec_p2dl_precheck(ins[i].script_sig@, spent_models[i].script_pubkey) matches Ok(Some(_)),
                    forall|j: int|
                        0 <= j < index && is_p2dl_script(#[trigger] spent_outputs@[j].script_pubkey@)
                            ==> (spec_p2dl_precheck(ins[j].script_sig@, spent_outputs@[j].script_pubkey@) matches Ok(
                            Some((sig, pk)),
                        ) && spec_sighash(*tx, j as nat, spent_outputs@) matches Some(h) && checker.accepts(pk, h, sig)),
                decreases ins.len() - index,
            {
                let script_pubkey = spent_outputs[index].script_pubkey.as_slice();
                if is_p2dl(script_pubkey) {
                    let context = ScriptContext {
                        transaction: tx,
                        input_index: index,
                        spent_outputs: spent_outputs.as_slice(),
                    };
                    let input = &tx.inputs[index];
                    let verdict = validate_p2dl(input.script_sig.as_slice(), script_pubkey, &context, checker);
                    match verdict {
                        Ok(true) => {},
                        _ => {
                            proof {
                                lemma_refusal_denies_acceptance(
                                    checker,
                                    *tx,
                                    index as int,
                                    spent_outputs@,
                                    spent_models,
                                    verdict,
                                );
                            }
                            return Err(UtxoError::ScriptValidationFailed);
                        },
                    }
                }
                index = index + 1;
            }
            proof {
                outs_w = spent_outputs@;
                assert(outputs_match(outs_w, spent_models));
            }
        }
        proof {
            if !is_coinbase {
                if spent@.len() == 0 {
                    assert(outputs_match(outs_w, spent_models));
                }
                assert(outputs_match(outs_w, spent_models) && p2dl_signatures_accepted(checker, *tx, outs_w));
            }
        }
        self.add_transaction(tx, height, is_coinbase)?;
        proof {
            if !is_coinbase {
                assert(outputs_match(outs_w, spent_models) && p2dl_signatures_accepted(checker, *tx, outs_w));
                let sp = spec_spend_prefix(old(self).view(), tx.inputs@, height as u64, tx.inputs@.len()).1;
                assert(sp == Ok::<Seq<UtxoRecord>, UtxoError>(spent_models));
                assert(signatures_accepted(checker, *tx, spent_models));
            }
        }
        Ok(spent)
    }
}

} // verus!
