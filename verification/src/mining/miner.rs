//! Block assembly and the proof-of-work search.
use vstd::prelude::*;
use crate::consensus::block::{spec_target, BlockHeader, TargetError};
use crate::consensus::params::ChainParams;
use crate::consensus::transaction::{Transaction, TxInput, TxOutput, Witness};
use crate::consensus::utxo::{input_outpoint, OutPoint, UtxoRecord, UtxoSet, COINBASE_MATURITY};
use crate::primitives::bytes::{le_bytes, le_value, push_le};
use crate::primitives::hash::{spec_sha256d, Hash256};

verus! {

/// How far past the network time a block timestamp may lie, in seconds.
pub const MAX_FUTURE_OFFSET: u64 = 7200;

#[derive(Debug, PartialEq, Eq)]
pub enum MiningError {
    ChainError(String),
    InvalidCoinbase,
    InvalidTimestamp,
}

/// Pre-solved block template: everything needed to run the proof-of-work
/// search.
#[derive(Debug)]
pub struct BlockTemplate {
    pub header: BlockHeader,
    pub transactions: Vec<Transaction>,
    pub height: u32,
}

/// The timestamp for a new block, given the median time past of its parent
/// chain and the network-adjusted time: the later of the network time and
/// one second past the median, refused when that lies more than
/// `MAX_FUTURE_OFFSET` past the network time or when a bound does not fit.
pub open spec fn spec_next_block_timestamp(mtp: u64, network_time: u64) -> Option<u64> {
    if mtp == u64::MAX || network_time + MAX_FUTURE_OFFSET > u64::MAX {
        None
    } else {
        let candidate = if network_time > mtp + 1 {
            network_time
        } else {
            (mtp + 1) as u64
        };
        if candidate > network_time + MAX_FUTURE_OFFSET {
            None
        } else {
            Some(candidate)
        }
    }
}

/// Chooses the timestamp of the next block: `Err(InvalidTimestamp)` exactly
/// when [`spec_next_block_timestamp`] gives none.
pub fn next_block_timestamp(median_time_past: u64, network_time: u64) -> (r: Result<
    u64,
    MiningError,
>)
    ensures
        match spec_next_block_timestamp(median_time_past, network_time) {
            Some(t) => r == Ok::<u64, MiningError>(t),
            None => r == Err::<u64, MiningError>(MiningError::InvalidTimestamp),
        },
{
    let min_time = match median_time_past.checked_add(1) {
        Some(t) => t,
        None => {
            return Err(MiningError::InvalidTimestamp);
        },
    };
    let candidate = if network_time > min_time {
        network_time
    } else {
        min_time
    };
    let max_allowed = match network_time.checked_add(MAX_FUTURE_OFFSET) {
        Some(t) => t,
        None => {
            return Err(MiningError::InvalidTimestamp);
        },
    };
    if candidate > max_allowed {
        return Err(MiningError::InvalidTimestamp);
    }
    Ok(candidate)
}

/// A chosen timestamp lies after the median time past and no further than
/// `MAX_FUTURE_OFFSET` past the network time; and one is chosen whenever
/// one second past the median is within that bound.
pub proof fn lemma_timestamp_rules(mtp: u64, network_time: u64)
    ensures
        spec_next_block_timestamp(mtp, network_time) matches Some(t) ==> mtp < t
            && t <= network_time + MAX_FUTURE_OFFSET && t >= network_time,
        (mtp + 1 <= network_time + MAX_FUTURE_OFFSET && network_time + MAX_FUTURE_OFFSET
            <= u64::MAX) ==> spec_next_block_timestamp(mtp, network_time) is Some,
{
}

/// The header meets its own target: the target decodes and the hash, read
/// as a little-endian number, is at most it.
pub open spec fn meets_target(h: BlockHeader) -> bool {
    spec_target(h.n_bits) matches Ok(t) && le_value(spec_sha256d(h.spec_encode())) <= t
}

/// `h` with its nonce replaced.
pub open spec fn with_nonce(h: BlockHeader, nonce: u64) -> BlockHeader {
    BlockHeader { nonce, ..h }
}

/// Tries the nonces `start`, `start + 1`, ... (wrapping), `count` of them, and
/// returns the header with the first one that meets the target; `None` when
/// none of them does. A target that does not decode counts as not met.
pub fn search_nonce_range(header: &BlockHeader, start: u64, count: u64) -> (r: Option<BlockHeader>)
    ensures
        match r {
            Some(h) => h == with_nonce(*header, h.nonce) && meets_target(h) && (h.nonce - start)
                % 0x1_0000_0000_0000_0000 < count && forall|j: int|
                0 <= j < (h.nonce - start) % 0x1_0000_0000_0000_0000 ==> !meets_target(
                    #[trigger] with_nonce(*header, ((start + j) % 0x1_0000_0000_0000_0000) as u64),
                ),
            None => forall|j: int|
                0 <= j < count ==> !meets_target(
                    #[trigger] with_nonce(*header, ((start + j) % 0x1_0000_0000_0000_0000) as u64),
                ),
        },
{
    let mut local = *header;
    let mut tried: u64 = 0;
    while tried < count
        invariant
            tried <= count,
            local == with_nonce(*header, local.nonce),
            forall|j: int|
                0 <= j < tried ==> !meets_target(
                    #[trigger] with_nonce(*header, ((start + j) % 0x1_0000_0000_0000_0000) as u64),
                ),
        decreases count - tried,
    {
        let nonce = start.wrapping_add(tried);
        local.nonce = nonce;
        assert(nonce == (start + tried) % 0x1_0000_0000_0000_0000);
        let ok = match local.check_proof_of_work() {
            Ok(b) => b,
            Err(_) => false,
        };
        if ok {
            assert((nonce - start) % 0x1_0000_0000_0000_0000 == tried) by (nonlinear_arith)
                requires
                    nonce == (start + tried) % 0x1_0000_0000_0000_0000,
                    0 <= tried < 0x1_0000_0000_0000_0000,
                    0 <= start < 0x1_0000_0000_0000_0000,
            ;
            return Some(local);
        }
        assert(local == with_nonce(*header, ((start + tried) % 0x1_0000_0000_0000_0000) as u64));
        tried = tried + 1;
    }
    None
}

/// The coinbase transaction of a block at `height` paying `value` to
/// `script_pubkey`: one input spending nothing, whose unlocking script holds
/// the height (a 4-byte push, little-endian), and one output.
pub open spec fn coinbase_is(tx: Transaction, height: u32, value: u64, script_pubkey: Seq<u8>) -> bool {
    &&& tx.version == 1
    &&& tx.locktime == 0
    &&& tx.inputs@.len() == 1
    &&& tx.inputs@[0].prev_txid@ == Seq::new(32, |i: int| 0u8)
    &&& tx.inputs@[0].prev_index == 0xFFFF_FFFF
    &&& tx.inputs@[0].sequence == 0xFFFF_FFFF
    &&& tx.inputs@[0].script_sig@ == seq![4u8] + le_bytes(height as nat, 4)
    &&& tx.outputs@.len() == 1
    &&& tx.outputs@[0].value == value
    &&& tx.outputs@[0].script_pubkey@ == script_pubkey
    &&& tx.witnesses@.len() == 1
    &&& tx.witnesses@[0].stack_items@.len() == 0
}

/// The sum of the values of `outs`.
pub open spec fn outputs_total(outs: Seq<TxOutput>) -> nat
    decreases outs.len(),
{
    if outs.len() == 0 {
        0
    } else {
        outputs_total(outs.drop_last()) + outs.last().value as nat
    }
}

/// Whether a coinbase output created at `created` may be spent at `height`.
pub open spec fn coinbase_mature(created: u64, height: u64) -> bool {
    height >= (if created + COINBASE_MATURITY > u64::MAX {
        u64::MAX as int
    } else {
        created + COINBASE_MATURITY
    })
}

/// The sum of the first `k` inputs' spent values, or `None` when one of them
/// is missing from `m`, is an immature coinbase output at `height`, or when
/// the running sum passes `u64::MAX`.
pub open spec fn inputs_total(m: Map<OutPoint, UtxoRecord>, ins: Seq<TxInput>, height: u64, k: nat) -> Option<nat>
    decreases k,
{
    if k == 0 {
        Some(0)
    } else {
        match inputs_total(m, ins, height, (k - 1) as nat) {
            None => None,
            Some(s) => {
                let op = input_outpoint(ins[k - 1]);
                if !m.contains_key(op) {
                    None
                } else if m[op].coinbase && !coinbase_mature(m[op].height, height) {
                    None
                } else if s + m[op].value > u64::MAX {
                    None
                } else {
                    Some(s + m[op].value as nat)
                }
            },
        }
    }
}

/// The fee of a transaction against `m` at `height`: inputs minus outputs,
/// or `None` when the inputs cannot be spent or do not cover the outputs.
pub open spec fn spec_tx_fee(m: Map<OutPoint, UtxoRecord>, tx: Transaction, height: u64) -> Option<u64> {
    match inputs_total(m, tx.inputs@, height, tx.inputs@.len()) {
        None => None,
        Some(s) => if s >= outputs_total(tx.outputs@) {
            Some((s - outputs_total(tx.outputs@)) as u64)
        } else {
            None
        },
    }
}

/// Block weight of a transaction: three times its size without witnesses
/// plus its full size.
pub open spec fn spec_tx_weight(tx: Transaction) -> nat {
    3 * tx.spec_encode_without_witness().len() + tx.spec_encode_with_witness().len()
}

/// `a + b`, or `u64::MAX` when the sum does not fit.
pub open spec fn sat_add(a: nat, b: nat) -> nat {
    if a + b > u64::MAX {
        u64::MAX as nat
    } else {
        a + b
    }
}

/// Which candidates, from the `i`-th on, go into a block template that has
/// `used` weight and `fees` so far: in order, stopping at the first whose
/// weight would pass `budget`, skipping those whose fee is undefined. The
/// positions chosen and the fees collected.
pub open spec fn spec_select(
    m: Map<OutPoint, UtxoRecord>,
    cands: Seq<Transaction>,
    height: u64,
    budget: nat,
    i: nat,
    used: nat,
    fees: nat,
) -> (Seq<int>, nat)
    decreases cands.len() - i,
{
    if i >= cands.len() {
        (Seq::empty(), fees)
    } else if sat_add(used, spec_tx_weight(cands[i as int])) > budget {
        (Seq::empty(), fees)
    } else {
        match spec_tx_fee(m, cands[i as int], height) {
            None => spec_select(m, cands, height, budget, i + 1, used, fees),
            Some(f) => {
                let (rest, total) = spec_select(
                    m,
                    cands,
                    height,
                    budget,
                    i + 1,
                    used + spec_tx_weight(cands[i as int]),
                    sat_add(fees, f as nat),
                );
                (seq![i as int] + rest, total)
            },
        }
    }
}

/// Every position in `idx` is a strictly increasing index into `s`.
pub open spec fn increasing_positions(idx: Seq<int>, lo: int, n: int) -> bool {
    &&& forall|k: int| 0 <= k < idx.len() ==> lo <= #[trigger] idx[k] < n
    &&& forall|a: int, b: int| 0 <= a < b < idx.len() ==> idx[a] < idx[b]
}

/// What the miner reports once a template is solved: the block's height,
/// the winning nonce, the worker that found it, the block's hash and how
/// many hashes were tried.
#[derive(Debug, Clone, Copy, PartialEq, Eq)]
pub struct MiningEvent {
    pub height: u32,
    pub nonce: u64,
    pub worker_id: u64,
    pub hash: Hash256,
    pub hashes_tried: u64,
}

/// The event reporting that `header` solved the template at `height`.
pub fn solved_event(height: u32, header: &BlockHeader, worker_id: u64, hashes_tried: u64) -> (e: MiningEvent)
    ensures
        e.height == height,
        e.nonce == header.nonce,
        e.worker_id == worker_id,
        e.hash@ == spec_sha256d(header.spec_encode()),
        e.hashes_tried == hashes_tried,
{
    MiningEvent { height, nonce: header.nonce, worker_id, hash: header.hash(), hashes_tried }
}

/// A miner: the chain parameters it mines under and the script it pays to.
#[derive(Debug)]
pub struct Miner {
    pub params: ChainParams,
    pub mining_address: Vec<u8>,
}

impl Miner {
    pub fn new(params: ChainParams, mining_address: Vec<u8>) -> (m: Self)
        ensures
            m.params == params,
            m.mining_address@ == mining_address@,
    {
        Miner { params, mining_address }
    }

    pub fn create_coinbase_internal(
        &self,
        height: u32,
        subsidy: u64,
        fees: u64,
        script_pubkey: Vec<u8>,
    ) -> (tx: Transaction)
        requires
            subsidy + fees <= u64::MAX,
        ensures
            coinbase_is(tx, height, (subsidy + fees) as u64, script_pubkey@),
    {
        let mut script_sig: Vec<u8> = Vec::new();
        script_sig.push(4);
        push_le(&mut script_sig, height as u64, 4);
        let mut inputs: Vec<TxInput> = Vec::new();
        inputs.push(
            TxInput {
                prev_txid: [0u8; 32],
                prev_index: 0xFFFF_FFFF,
                script_sig,
                sequence: 0xFFFF_FFFF,
            },
        );
        let mut outputs: Vec<TxOutput> = Vec::new();
        outputs.push(TxOutput { value: subsidy + fees, script_pubkey });
        let mut witnesses: Vec<Witness> = Vec::new();
        witnesses.push(Witness { stack_items: Vec::new() });
        let tx = Transaction { version: 1, inputs, outputs, witnesses, locktime: 0 };
        proof {
            assert(tx.inputs@[0].prev_txid@ =~= Seq::new(32, |i: int| 0u8));
            assert(tx.inputs@[0].script_sig@ =~= seq![4u8] + le_bytes(height as nat, 4));
        }
        tx
    }

    /// Block weight of a transaction: three times its size without witnesses
    /// plus its full size.
    pub fn tx_weight(tx: &Transaction) -> (w: u64)
        requires
            3 * tx.spec_encode_without_witness().len() + tx.spec_encode_with_witness().len()
                <= u64::MAX,
        ensures
            w == 3 * tx.spec_encode_without_witness().len() + tx.spec_encode_with_witness().len(),
    {
        let base = tx.encode_without_witness().len() as u64;
        let total = tx.encode_with_witness().len() as u64;
        base * 3 + total
    }

    /// The fee a transaction pays against the unspent outputs at `height`.
    pub fn tx_fee(utxos: &UtxoSet, tx: &Transaction, height: u64) -> (r: Option<u64>)
        requires
            outputs_total(tx.outputs@) <= u64::MAX,
        ensures
            r == spec_tx_fee(utxos.view(), *tx, height),
    {
        let mut input_sum: u64 = 0;
        let mut k: usize = 0;
        while k < tx.inputs.len()
            invariant
                k <= tx.inputs@.len(),
                inputs_total(utxos.view(), tx.inputs@, height, k as nat) == Some(input_sum as nat),
            decreases tx.inputs@.len() - k,
        {
            let input = &tx.inputs[k];
            let outpoint = OutPoint { txid: input.prev_txid, vout: input.prev_index };
            let utxo = match utxos.get(&outpoint) {
                Some(u) => u,
                None => {
                    proof {
                        lemma_inputs_total_none(utxos.view(), tx.inputs@, height, (k + 1) as nat, tx.inputs@.len());
                    }
                    return None;
                },
            };
            if utxo.coinbase && height < utxo.height.saturating_add(COINBASE_MATURITY) {
                proof {
                    lemma_inputs_total_none(utxos.view(), tx.inputs@, height, (k + 1) as nat, tx.inputs@.len());
                }
                return None;
            }
            input_sum = match input_sum.checked_add(utxo.output.value) {
                Some(s) => s,
                None => {
                    proof {
                        lemma_inputs_total_none(utxos.view(), tx.inputs@, height, (k + 1) as nat, tx.inputs@.len());
                    }
                    return None;
                },
            };
            k = k + 1;
        }
        let mut output_sum: u64 = 0;
        let mut j: usize = 0;
        while j < tx.outputs.len()
            invariant
                j <= tx.outputs@.len(),
                outputs_total(tx.outputs@) <= u64::MAX,
                output_sum == outputs_total(tx.outputs@.take(j as int)),
            decreases tx.outputs@.len() - j,
        {
            proof {
                assert(tx.outputs@.take(j + 1).drop_last() =~= tx.outputs@.take(j as int));
                lemma_outputs_total_prefix(tx.outputs@, j + 1);
            }
            output_sum = output_sum + tx.outputs[j].value;
            j = j + 1;
        }
        proof {
            assert(tx.outputs@.take(j as int) =~= tx.outputs@);
        }
        input_sum.checked_sub(output_sum)
    }

    /// Chooses the transactions of a block template, in the order given:
    /// a candidate whose weight would take the total past `weight_budget`
    /// ends the choice; one whose fee is undefined against `utxos` at
    /// `height` is skipped. Returns the chosen transactions and the fees they
    /// pay (summed without passing `u64::MAX`).
    pub fn select_transactions(
        utxos: &UtxoSet,
        candidates: Vec<Transaction>,
        height: u64,
        coinbase_weight: u64,
        weight_budget: u64,
    ) -> (r: (Vec<Transaction>, u64))
        requires
            weight_budget < u64::MAX,
            forall|k: int|
                0 <= k < candidates@.len() ==> spec_tx_weight(#[trigger] candidates@[k]) <= u64::MAX
                    && outputs_total(candidates@[k].outputs@) <= u64::MAX,
        ensures
            ({
                let (idx, fees) = spec_select(
                    utxos.view(),
                    candidates@,
                    height,
                    weight_budget as nat,
                    0,
                    coinbase_weight as nat,
                    0,
                );
                &&& r.1 == fees
                &&& r.0@.len() == idx.len()
                &&& increasing_positions(idx, 0, candidates@.len() as int)
                &&& forall|k: int| 0 <= k < idx.len() ==> #[trigger] r.0@[k] == candidates@[idx[k]]
            }),
    {
        let ghost cands = candidates@;
        let ghost m = utxos.view();
        assert(cands.len() == candidates.len());
        let mut rest = candidates;
        let mut chosen: Vec<Transaction> = Vec::new();
        let mut used_weight: u64 = coinbase_weight;
        let mut total_fees: u64 = 0;
        let mut i: usize = 0;
        let ghost mut idx_done: Seq<int> = Seq::empty();
        proof {
            lemma_select_positions(m, cands, height, weight_budget as nat, 0, coinbase_weight as nat, 0);
            assert(rest@.skip(0) =~= rest@);
        }
        while rest.len() > 0
            invariant
                cands == candidates@,
                m == utxos.view(),
                i <= cands.len(),
                rest@ == cands.skip(i as int),
                rest@.len() == cands.len() - i,
                cands.len() <= usize::MAX,
                weight_budget < u64::MAX,
                forall|k: int|
                    0 <= k < cands.len() ==> spec_tx_weight(#[trigger] cands[k]) <= u64::MAX
                        && outputs_total(cands[k].outputs@) <= u64::MAX,
                chosen@.len() == idx_done.len(),
                forall|k: int| 0 <= k < idx_done.len() ==> #[trigger] chosen@[k] == cands[idx_done[k]],
                ({
                    let (idx, fees) = spec_select(m, cands, height, weight_budget as nat, 0, coinbase_weight as nat, 0);
                    let (tail, tfees) = spec_select(m, cands, height, weight_budget as nat, i as nat, used_weight as nat, total_fees as nat);
                    idx == idx_done + tail && fees == tfees
                }),
                increasing_positions(idx_done, 0, i as int),
            decreases cands.len() - i,
        {
            let tx = rest.remove(0);
            proof {
                assert(tx == cands[i as int]);
                assert(rest@ =~= cands.skip(i + 1));
            }
            let w = Self::tx_weight(&tx);
            if used_weight.saturating_add(w) > weight_budget {
                proof {
                    lemma_select_positions(m, cands, height, weight_budget as nat, i as nat, used_weight as nat, total_fees as nat);
                    let (tail, tfees) = spec_select(m, cands, height, weight_budget as nat, i as nat, used_weight as nat, total_fees as nat);
                    assert(tail =~= Seq::<int>::empty());
                    assert(idx_done + tail =~= idx_done);
                }
                return (chosen, total_fees);
            }
            let fee = match Self::tx_fee(utxos, &tx, height) {
                Some(f) => f,
                None => {
                    i = i + 1;
                    continue;
                },
            };
            total_fees = total_fees.saturating_add(fee);
            used_weight = used_weight + w;
            chosen.push(tx);
            proof {
                let old_done = idx_done;
                idx_done = idx_done.push(i as int);
                let (tail1, f1) = spec_select(m, cands, height, weight_budget as nat, (i + 1) as nat, used_weight as nat, total_fees as nat);
                assert(old_done + (seq![i as int] + tail1) =~= idx_done + tail1);
            }
            i = i + 1;
        }
        proof {
            let (tail, tfees) = spec_select(m, cands, height, weight_budget as nat, i as nat, used_weight as nat, total_fees as nat);
            assert(tail =~= Seq::<int>::empty());
            assert(idx_done + tail =~= idx_done);
        }
        (chosen, total_fees)
    }

    /// Solves a template as [`Miner::solve_template`] does, one worker
    /// searching from nonce zero, and also gives the event that reports the
    /// solution: the template's height, the nonce, worker 0, the block's
    /// hash, and the hashes tried (one per nonce up to the winning one).
    pub fn solve_and_report(&self, template: BlockTemplate) -> (r: Result<
        (BlockHeader, Vec<Transaction>, MiningEvent),
        MiningError,
    >)
        ensures
            match r {
                Ok((h, txs, e)) => h == with_nonce(template.header, h.nonce) && meets_target(h)
                    && txs@ == template.transactions@ && (forall|n: u64|
                    n < h.nonce ==> !meets_target(#[trigger] with_nonce(template.header, n)))
                    && e.height == template.height && e.nonce == h.nonce && e.worker_id == 0
                    && e.hash@ == spec_sha256d(h.spec_encode()) && e.hashes_tried == (if h.nonce
                    == u64::MAX {
                    u64::MAX
                } else {
                    (h.nonce + 1) as u64
                }),
                Err(_) => forall|n: u64| !meets_target(#[trigger] with_nonce(template.header, n)),
            },
    {
        let height = template.height;
        match self.solve_template(template) {
            Ok((h, txs)) => {
                let tried = h.nonce.saturating_add(1);
                let e = solved_event(height, &h, 0, tried);
                Ok((h, txs, e))
            },
            Err(err) => Err(err),
        }
    }

    /// Runs the proof-of-work search over every nonce, from zero up; returns
    /// the solved header with the least nonce that meets the target and the
    /// template's transactions, or an error when no nonce meets it.
    pub fn solve_template(&self, template: BlockTemplate) -> (r: Result<
        (BlockHeader, Vec<Transaction>),
        MiningError,
    >)
        ensures
            match r {
                Ok((h, txs)) => h == with_nonce(template.header, h.nonce) && meets_target(h)
                    && txs@ == template.transactions@ && forall|n: u64|
                    n < h.nonce ==> !meets_target(#[trigger] with_nonce(template.header, n)),
                Err(_) => forall|n: u64| !meets_target(#[trigger] with_nonce(template.header, n)),
            },
    {
        let header = template.header;
        let found = search_nonce_range(&header, 0, u64::MAX);
        match found {
            Some(h) => {
                proof {
                    assert forall|n: u64| n < h.nonce implies !meets_target(#[trigger] with_nonce(header, n)) by {
                        assert(((0 + n) % 0x1_0000_0000_0000_0000) as u64 == n);
                        assert((h.nonce - 0) % 0x1_0000_0000_0000_0000 == h.nonce);
                        assert(!meets_target(with_nonce(header, ((0 + n) % 0x1_0000_0000_0000_0000) as u64)));
                    }
                }
                Ok((h, template.transactions))
            },
            None => {
                let mut last = header;
                last.nonce = u64::MAX;
                let ok = match last.check_proof_of_work() {
                    Ok(b) => b,
                    Err(_) => false,
                };
                if ok {
                    proof {
                        assert forall|n: u64| n < last.nonce implies !meets_target(#[trigger] with_nonce(header, n)) by {
                            assert(((0 + n) % 0x1_0000_0000_0000_0000) as u64 == n);
                            assert(!meets_target(with_nonce(header, ((0 + n) % 0x1_0000_0000_0000_0000) as u64)));
                        }
                    }
                    return Ok((last, template.transactions));
                }
                proof {
                    assert forall|n: u64| !meets_target(#[trigger] with_nonce(header, n)) by {
                        if n < u64::MAX {
                            assert(((0 + n) % 0x1_0000_0000_0000_0000) as u64 == n);
                            assert(!meets_target(
                                with_nonce(header, ((0 + n) % 0x1_0000_0000_0000_0000) as u64),
                            ));
                        } else {
                            assert(last == with_nonce(header, n));
                        }
                    }
                }
                Err(MiningError::ChainError("PoW verification failed".to_owned()))
            },
        }
    }
}

proof fn lemma_select_positions(
    m: Map<OutPoint, UtxoRecord>,
    cands: Seq<Transaction>,
    height: u64,
    budget: nat,
    i: nat,
    used: nat,
    fees: nat,
)
    ensures
        increasing_positions(spec_select(m, cands, height, budget, i, used, fees).0, i as int, cands.len() as int),
    decreases cands.len() - i,
{
    if i < cands.len() && sat_add(used, spec_tx_weight(cands[i as int])) <= budget {
        match spec_tx_fee(m, cands[i as int], height) {
            None => lemma_select_positions(m, cands, height, budget, i + 1, used, fees),
            Some(f) => {
                lemma_select_positions(m, cands, height, budget, i + 1, used + spec_tx_weight(cands[i as int]), sat_add(fees, f as nat));
            },
        }
    }
}

proof fn lemma_inputs_total_none(m: Map<OutPoint, UtxoRecord>, ins: Seq<TxInput>, height: u64, k: nat, n: nat)
    requires
        k <= n,
        inputs_total(m, ins, height, k) is None,
    ensures
        inputs_total(m, ins, height, n) is None,
    decreases n - k,
{
    if k < n {
        lemma_inputs_total_none(m, ins, height, k, (n - 1) as nat);
    }
}

proof fn lemma_outputs_total_prefix(outs: Seq<TxOutput>, k: int)
    requires
        0 <= k <= outs.len(),
    ensures
        outputs_total(outs.take(k)) <= outputs_total(outs),
    decreases outs.len(),
{
    if k < outs.len() {
        assert(outs.drop_last().take(k) =~= outs.take(k));
        lemma_outputs_total_prefix(outs.drop_last(), k);
    } else {
        assert(outs.take(k) =~= outs);
    }
}

} // verus!
