//! Chain-level rules that do not depend on storage: errors, the median
//! time past and which chain is best.
use vstd::prelude::*;
use vstd::relations::{sorted_by, total_ordering};
use crate::consensus::block::{spec_bytes32, Order, U256};
use crate::consensus::difficulty::DifficultyError;
use crate::consensus::transaction::{Transaction, TxInput, TxOutput};
use crate::consensus::utxo::{
    input_outpoint, lemma_refusal_denies_acceptance, output_record, outputs_match, signatures_accepted,
    vout_key, OutPoint, UtxoEntry,
    UtxoError, UtxoRecord, UtxoSet,
};
use crate::primitives::hash::Hash256;
use crate::script::engine::{is_p2dl_script, spec_p2dl_precheck, validate_p2dl, ScriptContext, SignatureCheck};
use crate::script::sighash::spec_sighash;

verus! {

#[derive(Debug, Clone, PartialEq, Eq)]
pub enum ChainError {
    BlockNotFound,
    InvalidDifficulty(DifficultyError),
    UtxoError(UtxoError),
    OrphanBlock,
    DbError(String),
    GenesisMismatch,
}

impl From<String> for ChainError {
    fn from(e: String) -> (r: Self) {
        ChainError::DbError(e)
    }
}

impl vstd::std_specs::convert::FromSpecImpl<String> for ChainError {
    open spec fn obeys_from_spec() -> bool {
        true
    }

    open spec fn from_spec(e: String) -> ChainError {
        ChainError::DbError(e)
    }
}

/// The outputs a block creates, as outpoints with their entries, and the
/// outpoints it spends.
pub type BlockUtxoView = (Vec<(OutPoint, UtxoEntry)>, Vec<OutPoint>);

/// The outpoints and records the outputs of `tx` become at `height`.
pub open spec fn tx_created(tx: Transaction, height: u64, coinbase: bool) -> Seq<(OutPoint, UtxoRecord)> {
    Seq::new(
        tx.outputs@.len(),
        |j: int|
            (
                vout_key(spec_bytes32(tx.spec_txid()), j as nat),
                output_record(tx.outputs@[j], height, coinbase),
            ),
    )
}

/// The outpoints and records the first `k` transactions of a block create
/// at `height`; the first transaction is the coinbase.
pub open spec fn block_created(txs: Seq<Transaction>, height: u64, k: int) -> Seq<(OutPoint, UtxoRecord)>
    decreases k,
{
    if k <= 0 {
        Seq::empty()
    } else {
        block_created(txs, height, k - 1) + tx_created(txs[k - 1], height, k - 1 == 0)
    }
}

/// The outpoints the inputs of `tx` spend.
pub open spec fn tx_spent(tx: Transaction) -> Seq<OutPoint> {
    tx.inputs@.map_values(|i| input_outpoint(i))
}

/// The outpoints the first `k` transactions of a block spend: those of
/// every input but the coinbase's.
pub open spec fn block_spent(txs: Seq<Transaction>, k: int) -> Seq<OutPoint>
    decreases k,
{
    if k <= 1 {
        Seq::empty()
    } else {
        block_spent(txs, k - 1) + tx_spent(txs[k - 1])
    }
}

/// Whether every input of `tx` spends an output present in `m` whose
/// locking script its unlocking script passes the P2DL checks for, up to
/// the signature itself.
pub open spec fn inputs_pass_prechecks(tx: Transaction, m: Map<OutPoint, UtxoRecord>) -> bool {
    forall|j: int|
        0 <= j < tx.inputs@.len() ==> {
            let op = input_outpoint(#[trigger] tx.inputs@[j]);
            &&& m.contains_key(op)
            &&& spec_p2dl_precheck(tx.inputs@[j].script_sig@, m[op].script_pubkey) is Ok
            &&& spec_p2dl_precheck(tx.inputs@[j].script_sig@, m[op].script_pubkey)->Ok_0 is Some
        }
}

/// The records of the outputs that the inputs of `tx` spend, as `m` holds
/// them.
pub open spec fn spent_records(tx: Transaction, m: Map<OutPoint, UtxoRecord>) -> Seq<UtxoRecord> {
    tx.inputs@.map_values(|i: TxInput| m[input_outpoint(i)])
}

/// Whether the inputs of `tx` pass their P2DL prechecks against the outputs
/// `m` holds and `checker` accepts their signatures.
pub open spec fn tx_acceptable<C: SignatureCheck>(checker: &C, tx: Transaction, m: Map<OutPoint, UtxoRecord>) -> bool {
    inputs_pass_prechecks(tx, m) && signatures_accepted(checker, tx, spent_records(tx, m))
}

/// Whether `op` is among the outpoints of `v`.
fn contains_outpoint(v: &Vec<OutPoint>, op: &OutPoint) -> (r: bool)
    ensures
        r == v@.contains(*op),
{
    let mut i: usize = 0;
    while i < v.len()
        invariant
            i <= v@.len(),
            forall|k: int| 0 <= k < i ==> v@[k] != *op,
        decreases v@.len() - i,
    {
        if v[i].same_as(op) {
            return true;
        }
        i = i + 1;
    }
    false
}

/// The model of a list of created entries.
pub open spec fn created_models(v: Seq<(OutPoint, UtxoEntry)>) -> Seq<(OutPoint, UtxoRecord)> {
    v.map_values(|p: (OutPoint, UtxoEntry)| (p.0, p.1.model()))
}

/// What connecting the transactions of a block at `height` does to the
/// unspent outputs `utxos`, which it reads and leaves as they are: every
/// input but the coinbase's must spend an output of `utxos`
/// (`UtxoNotFound`) that no earlier input of the block spends
/// (`UtxoAlreadySpent`), and every input of a transaction must pass the
/// P2DL check (`ScriptValidationFailed`), a transaction's lookups before
/// its checks; the result lists the outputs created and the outpoints
/// spent. When every spent output is there, none is spent twice, and every
/// transaction but the coinbase passes its checks with its signatures
/// accepted, the block applies.
pub fn apply_block_to_utxo<C: SignatureCheck>(
    utxos: &UtxoSet,
    transactions: &[Transaction],
    height: u64,
    checker: &C,
) -> (r: Result<BlockUtxoView, ChainError>)
    ensures
        r matches Ok((created, spent)) ==> {
            &&& created_models(created@) == block_created(transactions@, height, transactions@.len() as int)
            &&& spent@ == block_spent(transactions@, transactions@.len() as int)
            &&& forall|t: int|
                1 <= t < transactions@.len() ==> inputs_pass_prechecks(#[trigger] transactions@[t], utxos.view())
                    && signatures_accepted(checker, transactions@[t], spent_records(transactions@[t], utxos.view()))
        },
        r matches Err(e) ==> e == ChainError::UtxoError(UtxoError::UtxoNotFound) || e
            == ChainError::UtxoError(UtxoError::UtxoAlreadySpent) || e == ChainError::UtxoError(
            UtxoError::ScriptValidationFailed,
        ),
        r == Err::<BlockUtxoView, ChainError>(ChainError::UtxoError(UtxoError::UtxoAlreadySpent))
            ==> !block_spent(transactions@, transactions@.len() as int).no_duplicates(),
        r == Err::<BlockUtxoView, ChainError>(ChainError::UtxoError(UtxoError::ScriptValidationFailed))
            ==> exists|t: int|
            1 <= t < transactions@.len() && !tx_acceptable(checker, #[trigger] transactions@[t], utxos.view()),
        ({
            let all = block_spent(transactions@, transactions@.len() as int);
            &&& all.no_duplicates()
            &&& forall|k: int| 0 <= k < all.len() ==> utxos.view().contains_key(#[trigger] all[k])
            &&& forall|t: int|
                1 <= t < transactions@.len() ==> tx_acceptable(checker, #[trigger] transactions@[t], utxos.view())
        }) ==> r is Ok,
        r == Err::<BlockUtxoView, ChainError>(ChainError::UtxoError(UtxoError::UtxoNotFound)) ==> exists|k: int|
            0 <= k < block_spent(transactions@, transactions@.len() as int).len()
                && !utxos.view().contains_key(
                #[trigger] block_spent(transactions@, transactions@.len() as int)[k],
            ),
        (exists|k: int|
            0 <= k < block_spent(transactions@, transactions@.len() as int).len()
                && !utxos.view().contains_key(
                #[trigger] block_spent(transactions@, transactions@.len() as int)[k],
            )) ==> r is Err,
{
    let ghost txs = transactions@;
    let ghost m = utxos.view();
    let mut created: Vec<(OutPoint, UtxoEntry)> = Vec::new();
    let mut spent: Vec<OutPoint> = Vec::new();
    let mut t: usize = 0;
    while t < transactions.len()
        invariant
            t <= txs.len(),
            txs == transactions@,
            m == utxos.view(),
            created_models(created@) == block_created(txs, height, t as int),
            spent@ == block_spent(txs, t as int),
            forall|k: int| 0 <= k < spent@.len() ==> m.contains_key(#[trigger] spent@[k]),
            forall|u: int|
                1 <= u < t ==> inputs_pass_prechecks(#[trigger] txs[u], m) && signatures_accepted(
                    checker,
                    txs[u],
                    spent_records(txs[u], m),
                ),
        decreases txs.len() - t,
    {
        let tx = &transactions[t];
        let txid = tx.txid();
        proof {
            assert(spec_bytes32(tx.spec_txid())@ == txid@);
            assert(spec_bytes32(tx.spec_txid()) =~= txid);
        }
        let is_coinbase = t == 0;
        let ghost spent_before = spent@;
        if !is_coinbase {
            let mut spent_outputs: Vec<TxOutput> = Vec::new();
            let mut j: usize = 0;
            while j < tx.inputs.len()
                invariant
                    j <= tx.inputs@.len(),
                    txs == transactions@,
                    tx == txs[t as int],
                    m == utxos.view(),
                    t > 0,
                    t < txs.len(),
                    spent@ == spent_before + tx_spent(*tx).take(j as int),
                    spent_before == block_spent(txs, t as int),
                    forall|k: int| 0 <= k < spent@.len() ==> m.contains_key(#[trigger] spent@[k]),
                    spent_outputs@.len() == j,
                    forall|i: int|
                        0 <= i < j ==> (#[trigger] spent_outputs@[i]).script_pubkey@ == m[input_outpoint(
                            tx.inputs@[i],
                        )].script_pubkey && spent_outputs@[i].value == m[input_outpoint(
                            tx.inputs@[i],
                        )].value,
                decreases tx.inputs@.len() - j,
            {
                let input = &tx.inputs[j];
                let outpoint = OutPoint { txid: input.prev_txid, vout: input.prev_index };
                if contains_outpoint(&spent, &outpoint) {
                    proof {
                        lemma_block_spent_prefix(txs, t as int + 1, txs.len() as int);
                        let all = block_spent(txs, txs.len() as int);
                        let k2 = spent_before.len() + j;
                        assert(block_spent(txs, t as int + 1) =~= spent_before + tx_spent(*tx));
                        assert(all[k2] == outpoint);
                        let k1 = choose|k1: int| 0 <= k1 < spent@.len() && spent@[k1] == outpoint;
                        assert(k1 < k2);
                        assert(all[k1] == block_spent(txs, t as int + 1)[k1]);
                        assert(all[k1] == outpoint);
                    }
                    return Err(ChainError::UtxoError(UtxoError::UtxoAlreadySpent));
                }
                match utxos.get(&outpoint) {
                    Some(entry) => {
                        spent.push(outpoint);
                        spent_outputs.push(entry.output.duplicate());
                        proof {
                            assert(tx_spent(*tx).take(j + 1int) =~= tx_spent(*tx).take(j as int).push(outpoint));
                            assert(spent@ =~= spent_before + tx_spent(*tx).take(j + 1int));
                        }
                    },
                    None => {
                        proof {
                            lemma_block_spent_prefix(txs, t as int + 1, txs.len() as int);
                            let all = block_spent(txs, txs.len() as int);
                            let k = spent_before.len() + j;
                            assert(block_spent(txs, t as int + 1) =~= spent_before + tx_spent(*tx));
                            assert(all[k] == outpoint);
                        }
                        return Err(ChainError::UtxoError(UtxoError::UtxoNotFound));
                    },
                }
                j = j + 1;
            }
            proof {
                assert(tx_spent(*tx).take(j as int) =~= tx_spent(*tx));
            }
            let mut idx: usize = 0;
            while idx < tx.inputs.len()
                invariant
                    idx <= tx.inputs@.len(),
                    tx.inputs@.len() == spent_outputs@.len(),
                    m == utxos.view(),
                    txs == transactions@,
                    tx == txs[t as int],
                    1 <= t < txs.len(),
                    spent@ == spent_before + tx_spent(*tx),
                    forall|k: int| 0 <= k < spent@.len() ==> m.contains_key(#[trigger] spent@[k]),
                    forall|i: int|
                        0 <= i < spent_outputs@.len() ==> (#[trigger] spent_outputs@[i]).script_pubkey@
                            == m[input_outpoint(tx.inputs@[i])].script_pubkey && spent_outputs@[i].value
                            == m[input_outpoint(tx.inputs@[i])].value,
                    forall|i: int|
                        0 <= i < idx ==> {
                            let op = input_outpoint(#[trigger] tx.inputs@[i]);
                            &&& spec_p2dl_precheck(tx.inputs@[i].script_sig@, m[op].script_pubkey) is Ok
                            &&& spec_p2dl_precheck(tx.inputs@[i].script_sig@, m[op].script_pubkey)->Ok_0 is Some
                            &&& spec_p2dl_precheck(tx.inputs@[i].script_sig@, m[op].script_pubkey) matches Ok(
                                Some((sig, pk)),
                            ) && spec_sighash(*tx, i as nat, spent_outputs@) matches Some(h) && checker.accepts(
                                pk,
                                h,
                                sig,
                            )
                        },
                decreases tx.inputs@.len() - idx,
            {
                let input = &tx.inputs[idx];
                let context = ScriptContext {
                    transaction: tx,
                    input_index: idx,
                    spent_outputs: spent_outputs.as_slice(),
                };
                let verdict = validate_p2dl(
                    input.script_sig.as_slice(),
                    spent_outputs[idx].script_pubkey.as_slice(),
                    &context,
                    checker,
                );
                match verdict {
                    Ok(true) => {},
                    _ => {
                        proof {
                            let recs = spent_records(*tx, m);
                            let op = input_outpoint(tx.inputs@[idx as int]);
                            assert(recs.len() == tx.inputs@.len());
                            assert forall|i: int| 0 <= i < spent_outputs@.len() implies (#[trigger] spent_outputs@[i]).value
                                == recs[i].value && spent_outputs@[i].script_pubkey@ == recs[i].script_pubkey by {
                                assert(recs[i] == m[input_outpoint(tx.inputs@[i])]);
                            }
                            assert(outputs_match(spent_outputs@, recs));
                            if spec_p2dl_precheck(tx.inputs@[idx as int].script_sig@, m[op].script_pubkey) matches Ok(
                                Some(_),
                            ) {
                                lemma_refusal_denies_acceptance(
                                    checker,
                                    *tx,
                                    idx as int,
                                    spent_outputs@,
                                    recs,
                                    verdict,
                                );
                            } else {
                                assert(!inputs_pass_prechecks(*tx, m));
                            }
                            assert(!tx_acceptable(checker, txs[t as int], m));
                        }
                        return Err(ChainError::UtxoError(UtxoError::ScriptValidationFailed));
                    },
                }
                idx = idx + 1;
            }
            proof {
                assert forall|i: int| 0 <= i < tx.inputs@.len() implies m.contains_key(input_outpoint(#[trigger] tx.inputs@[i])) by {
                    assert(spent@[spent_before.len() + i] == input_outpoint(tx.inputs@[i]));
                }
                let recs = spent_records(*tx, m);
                assert(outputs_match(spent_outputs@, recs));
                assert forall|jj: int|
                    0 <= jj < tx.inputs@.len() && jj < spent_outputs@.len() && is_p2dl_script(
                        #[trigger] spent_outputs@[jj].script_pubkey@,
                    ) implies (spec_p2dl_precheck(tx.inputs@[jj].script_sig@, spent_outputs@[jj].script_pubkey@) matches Ok(
                    Some((sig, pk)),
                ) && spec_sighash(*tx, jj as nat, spent_outputs@) matches Some(h) && checker.accepts(pk, h, sig)) by {
                    assert(tx.inputs@[jj] == tx.inputs@[jj]);
                }
                assert(signatures_accepted(checker, *tx, recs));
            }
        }
        let ghost created_before = created_models(created@);
        let mut vout: usize = 0;
        while vout < tx.outputs.len()
            invariant
                vout <= tx.outputs@.len(),
                tx == txs[t as int],
                created_models(created@) == created_before + tx_created(*tx, height, is_coinbase).take(vout as int),
                txid == spec_bytes32(tx.spec_txid()),
                is_coinbase == (t == 0),
            decreases tx.outputs@.len() - vout,
        {
            let outpoint = OutPoint { txid, vout: vout as u32 };
            let entry = UtxoEntry { output: tx.outputs[vout].duplicate(), coinbase: is_coinbase, height };
            let ghost cb = created@;
            let ghost em = entry.model();
            created.push((outpoint, entry));
            proof {
                assert(created@ == cb.push((outpoint, entry)));
                assert(created_models(created@) =~= created_models(cb).push((outpoint, em)));
                assert(tx_created(*tx, height, is_coinbase).take(vout + 1int) =~= tx_created(*tx, height, is_coinbase).take(vout as int).push((outpoint, em)));
                assert(created_models(created@) =~= created_before + tx_created(*tx, height, is_coinbase).take(vout + 1int));
            }
            vout = vout + 1;
        }
        proof {
            assert(tx_created(*tx, height, is_coinbase).take(vout as int) =~= tx_created(*tx, height, is_coinbase));
            if t == 0 {
                assert(spent@ =~= block_spent(txs, 1));
            }
        }
        t = t + 1;
    }
    Ok((created, spent))
}

proof fn lemma_block_spent_prefix(txs: Seq<Transaction>, k: int, n: int)
    requires
        k <= n,
    ensures
        block_spent(txs, k).len() <= block_spent(txs, n).len(),
        forall|i: int| 0 <= i < block_spent(txs, k).len() ==> #[trigger] block_spent(txs, n)[i] == block_spent(txs, k)[i],
    decreases n - k,
{
    if k < n {
        lemma_block_spent_prefix(txs, k, n - 1);
        if n > 1 {
            assert forall|i: int| 0 <= i < block_spent(txs, n - 1).len() implies #[trigger] block_spent(txs, n)[i] == block_spent(txs, n - 1)[i] by {}
        }
    }
}

/// Number of blocks whose timestamps make up the median time past.
pub const MEDIAN_TIME_SPAN: usize = 11;

/// The order timestamps are sorted by.
pub open spec fn ts_leq() -> spec_fn(u64, u64) -> bool {
    |a: u64, b: u64| a <= b
}

/// The median of a non-empty list of timestamps: the middle one (the upper
/// of the two middle ones for an even count) once they are sorted.
pub open spec fn spec_median(ts: Seq<u64>) -> u64 {
    if ts.len() == 0 {
        0
    } else {
        ts.sort_by(ts_leq())[ts.len() as int / 2]
    }
}

proof fn lemma_ts_leq_total()
    ensures
        total_ordering(ts_leq()),
{
}

/// The median of a non-empty list of timestamps is the element at position
/// `len / 2` of the list put in ascending order (whichever way it is put in
/// order: that list is unique).
pub proof fn lemma_median_is_middle_of_sorted(ts: Seq<u64>, s: Seq<u64>)
    requires
        ts.len() > 0,
        s.to_multiset() == ts.to_multiset(),
        forall|i: int, j: int| 0 <= i < j < s.len() ==> s[i] <= s[j],
    ensures
        s.len() == ts.len(),
        spec_median(ts) == s[ts.len() as int / 2],
{
    broadcast use vstd::seq_lib::group_to_multiset_ensures;
    lemma_ts_leq_total();
    ts.lemma_sort_by_ensures(ts_leq());
    vstd::seq_lib::to_multiset_len(s);
    vstd::seq_lib::to_multiset_len(ts);
    assert(sorted_by(s, ts_leq()));
    vstd::seq_lib::lemma_sorted_unique(ts.sort_by(ts_leq()), s, ts_leq());
}

/// The median of the timestamps of the last blocks (at most
/// `MEDIAN_TIME_SPAN` of them); 0 when there are none.
pub fn median_timestamp(timestamps: &[u64]) -> (r: u64)
    ensures
        r == spec_median(timestamps@),
{
    if timestamps.len() == 0 {
        return 0;
    }
    let ghost leq = ts_leq();
    let mut sorted: Vec<u64> = Vec::new();
    let mut i: usize = 0;
    proof {
        broadcast use vstd::seq_lib::group_to_multiset_ensures;
        assert(timestamps@.take(0) =~= Seq::<u64>::empty());
        assert(sorted@ =~= Seq::<u64>::empty());
        assert(sorted@.to_multiset() =~= timestamps@.take(0).to_multiset());
    }
    while i < timestamps.len()
        invariant
            i <= timestamps@.len(),
            leq == ts_leq(),
            sorted_by(sorted@, leq),
            sorted@.to_multiset() == timestamps@.take(i as int).to_multiset(),
            sorted@.len() == i,
        decreases timestamps@.len() - i,
    {
        let x = timestamps[i];
        let mut pos: usize = 0;
        while pos < sorted.len() && sorted[pos] <= x
            invariant
                pos <= sorted@.len(),
                forall|k: int| 0 <= k < pos ==> sorted@[k] <= x,
            decreases sorted@.len() - pos,
        {
            pos = pos + 1;
        }
        let ghost before = sorted@;
        sorted.insert(pos, x);
        proof {
            broadcast use vstd::seq_lib::group_to_multiset_ensures;
            vstd::seq_lib::to_multiset_insert(before, pos as int, x);
            assert(timestamps@.take(i + 1) =~= timestamps@.take(i as int).push(x));
            vstd::seq_lib::to_multiset_build(timestamps@.take(i as int), x);
            assert forall|a: int, b: int| 0 <= a < b < sorted@.len() implies #[trigger] leq(sorted@[a], sorted@[b]) by {
                if b < pos {
                    assert(leq(before[a], before[b]));
                } else if a > pos {
                    assert(leq(before[a - 1], before[b - 1]));
                } else if a == pos {
                    assert(pos < before.len() ==> before[pos as int] > x);
                    if b - 1 > pos {
                        assert(leq(before[pos as int], before[b - 1]));
                    }
                } else {
                    assert(before[a] <= x);
                }
            }
        }
        i = i + 1;
    }
    proof {
        assert(timestamps@.take(i as int) =~= timestamps@);
        lemma_ts_leq_total();
        timestamps@.lemma_sort_by_ensures(leq);
        vstd::seq_lib::lemma_sorted_unique(sorted@, timestamps@.sort_by(leq), leq);
    }
    let len = sorted.len();
    sorted[len / 2]
}

/// The median is one of the timestamps, with no more than half of them
/// (rounded down) strictly below it in sorted order: at least half are at
/// least it and at least half at most it.
pub proof fn lemma_median_is_middle(ts: Seq<u64>)
    requires
        ts.len() > 0,
    ensures
        ts.contains(spec_median(ts)),
        forall|i: int| 0 <= i < ts.len() / 2 ==> #[trigger] ts.sort_by(ts_leq())[i] <= spec_median(ts),
        forall|i: int| ts.len() / 2 <= i < ts.len() ==> spec_median(ts) <= #[trigger] ts.sort_by(ts_leq())[i],
{
    broadcast use vstd::seq_lib::group_to_multiset_ensures;
    lemma_ts_leq_total();
    ts.lemma_sort_by_ensures(ts_leq());
    let sorted = ts.sort_by(ts_leq());
    let k = ts.len() as int / 2;
    assert(sorted.to_multiset().len() == ts.to_multiset().len());
    assert(sorted.len() == ts.len());
    assert(sorted.contains(sorted[k]));
    assert(sorted.to_multiset().count(sorted[k]) > 0);
    assert(ts.to_multiset().count(sorted[k]) > 0);
    assert forall|i: int| 0 <= i < k implies #[trigger] sorted[i] <= spec_median(ts) by {
        assert(ts_leq()(sorted[i], sorted[k]));
    }
    assert forall|i: int| k <= i < ts.len() implies spec_median(ts) <= #[trigger] sorted[i] by {
        if i > k {
            assert(ts_leq()(sorted[k], sorted[i]));
        }
    }
}

/// The bytes of the all-zero hash.
pub open spec fn zero_hash() -> Seq<u8> {
    Seq::new(32, |i: int| 0u8)
}

/// Heights a block locator names below height `h`, with the step between
/// them `step` and `n` entries already taken: one step at a time for the
/// first ten entries, then doubling, down to the genesis block.
pub open spec fn locator_heights(h: nat, step: nat, n: nat) -> Seq<nat>
    decreases h,
{
    if h == 0 || step == 0 {
        Seq::empty()
    } else {
        let step2 = if n >= 10 {
            step * 2
        } else {
            step
        };
        let h2: nat = if h < step2 {
            0
        } else {
            (h - step2) as nat
        };
        seq![h2] + locator_heights(h2, step2, n + 1)
    }
}

/// The block locator of a chain whose hashes by height are `hashes`: the
/// tip, then the hashes at the heights [`locator_heights`] names; the zero
/// hash alone for an empty chain.
pub open spec fn spec_locator(hashes: Seq<Hash256>) -> Seq<Seq<u8>> {
    if hashes.len() == 0 {
        seq![zero_hash()]
    } else {
        let tip = (hashes.len() - 1) as nat;
        seq![hashes[tip as int]@] + locator_heights(tip, 1, 1).map_values(|h: nat| hashes[h as int]@)
    }
}

/// The views of a list of hashes.
pub open spec fn hash_views(hs: Seq<Hash256>) -> Seq<Seq<u8>> {
    hs.map_values(|h: Hash256| h@)
}

/// The block locator of the chain whose block hashes, by height, are
/// `hashes`: the tip first, then ten single steps back, then steps that
/// double, ending at the genesis block.
pub fn block_locator(hashes: &[Hash256]) -> (r: Vec<Hash256>)
    requires
        hashes@.len() <= usize::MAX / 2,
    ensures
        hash_views(r@) == spec_locator(hashes@),
{
    if hashes.len() == 0 {
        let mut v: Vec<Hash256> = Vec::new();
        let z: Hash256 = [0u8; 32];
        v.push(z);
        proof {
            assert(z@ =~= zero_hash());
            assert(hash_views(v@) =~= seq![zero_hash()]);
        }
        return v;
    }
    let tip = hashes.len() - 1;
    let ghost f = |h: nat| hashes@[h as int]@;
    let mut out: Vec<Hash256> = Vec::new();
    out.push(hashes[tip]);
    let mut step: usize = 1;
    let mut h: usize = tip;
    proof {
        assert(hash_views(out@) =~= seq![hashes@[tip as int]@] + Seq::<nat>::empty().map_values(f));
    }
    while h > 0
        invariant
            tip == hashes@.len() - 1,
            hashes@.len() <= usize::MAX / 2,
            h <= tip,
            1 <= step <= 2 * tip + 1,
            h > 0 ==> step <= tip,
            forall|x: nat| #[trigger] f(x) == hashes@[x as int]@,
            out@.len() >= 1,
            seq![hashes@[tip as int]@] + locator_heights(tip as nat, 1, 1).map_values(f) == hash_views(out@)
                + locator_heights(h as nat, step as nat, out@.len()).map_values(f),
        decreases h,
    {
        let ghost before = hash_views(out@);
        let ghost h0 = h;
        let ghost s0 = step;
        if out.len() >= 10 {
            step = step * 2;
        }
        if h < step {
            h = 0;
        } else {
            h = h - step;
        }
        out.push(hashes[h]);
        proof {
            let rest = locator_heights(h as nat, step as nat, out@.len());
            assert(locator_heights(h0 as nat, s0 as nat, before.len()) == seq![h as nat] + rest);
            assert((seq![h as nat] + rest).map_values(f) =~= seq![f(h as nat)] + rest.map_values(f));
            assert(before + (seq![f(h as nat)] + rest.map_values(f)) =~= hash_views(out@) + rest.map_values(f));
        }
    }
    proof {
        assert(locator_heights(0, step as nat, out@.len()) =~= Seq::<nat>::empty());
        assert(hash_views(out@) + Seq::<nat>::empty().map_values(f) =~= hash_views(out@));
        assert(locator_heights(tip as nat, 1, 1).map_values(f) =~= locator_heights(tip as nat, 1, 1).map_values(|h: nat| hashes@[h as int]@));
    }
    out
}

/// A block becomes the tip when there is none yet, or when the work behind
/// it is more than the work behind the tip.
pub fn should_update_tip(current_work: Option<U256>, new_work: &U256) -> (r: bool)
    ensures
        r == (match current_work {
            None => true,
            Some(w) => new_work.value() > w.value(),
        }),
{
    match current_work {
        None => true,
        Some(w) => match new_work.compare(&w) {
            Order::Above => true,
            _ => false,
        },
    }
}

} // verus!
