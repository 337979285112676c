//! Unconfirmed transactions waiting for a block.
use vstd::prelude::*;
use crate::consensus::outpoint_map::KeyedMap;
use crate::consensus::transaction::Transaction;
use crate::consensus::utxo::{input_outpoint, OutPoint, UtxoSet};
use crate::primitives::hash::Hash256;
use crate::consensus::block::spec_bytes32;

verus! {

/// Maximum number of unconfirmed transactions held in memory.
/// Transactions beyond this limit are rejected; no eviction is performed.
pub const MEMPOOL_MAX_ENTRIES: usize = 5_000;

/// Message of the refusal of a transaction with an input that is not unspent.
pub const INPUT_UNAVAILABLE: &'static str = "Input already spent or doesn't exist";

/// Message of the refusal of a transaction when the pool is full.
pub const MEMPOOL_FULL: &'static str = "Mempool full (5000 entries): transaction rejected";

/// Unconfirmed transactions by identifier.
pub struct NetworkMempool {
    transactions: KeyedMap<Hash256, Transaction>,
}

/// Every input of `tx` spends an output present in `utxos`.
pub open spec fn inputs_unspent(utxos: Map<OutPoint, crate::consensus::utxo::UtxoRecord>, tx: Transaction) -> bool {
    forall|i: int| 0 <= i < tx.inputs@.len() ==> utxos.contains_key(#[trigger] input_outpoint(tx.inputs@[i]))
}

impl NetworkMempool {
    /// The transactions held, by identifier.
    pub closed spec fn view(&self) -> Map<Hash256, Transaction> {
        self.transactions.view()
    }

    pub fn new() -> (m: Self)
        ensures
            m.view() == Map::<Hash256, Transaction>::empty(),
    {
        NetworkMempool { transactions: KeyedMap::new() }
    }

    /// Adds a transaction: refused when an input does not spend an unspent
    /// output, `Ok(false)` when it is already held, refused when the pool
    /// holds `MEMPOOL_MAX_ENTRIES`, otherwise added and `Ok(true)`. A pool
    /// within its bound stays within it.
    pub fn add_transaction(&mut self, tx: Transaction, utxos: &UtxoSet) -> (r: Result<bool, String>)
        ensures
            ({
                let txid = spec_bytes32(tx.spec_txid());
                if !inputs_unspent(utxos.view(), tx) {
                    r matches Err(e) && e@ == INPUT_UNAVAILABLE@ && final(self).view() == old(self).view()
                } else if old(self).view().contains_key(txid) {
                    r == Ok::<bool, String>(false) && final(self).view() == old(self).view()
                } else if old(self).view().len() >= MEMPOOL_MAX_ENTRIES {
                    r matches Err(e) && e@ == MEMPOOL_FULL@ && final(self).view() == old(self).view()
                } else {
                    r == Ok::<bool, String>(true) && final(self).view() == old(self).view().insert(
                        txid,
                        tx,
                    )
                }
            }),
            old(self).view().len() <= MEMPOOL_MAX_ENTRIES ==> final(self).view().len() <= MEMPOOL_MAX_ENTRIES,
    {
        let txid = tx.txid();
        proof {
            assert(spec_bytes32(tx.spec_txid()) =~= txid);
        }
        let mut k: usize = 0;
        while k < tx.inputs.len()
            invariant
                k <= tx.inputs@.len(),
                forall|i: int| 0 <= i < k ==> utxos.view().contains_key(#[trigger] input_outpoint(tx.inputs@[i])),
            decreases tx.inputs@.len() - k,
        {
            let input = &tx.inputs[k];
            let outpoint = OutPoint { txid: input.prev_txid, vout: input.prev_index };
            if !utxos.contains(&outpoint) {
                assert(outpoint == input_outpoint(tx.inputs@[k as int]));
                assert(!inputs_unspent(utxos.view(), tx));
                return Err(INPUT_UNAVAILABLE.to_owned());
            }
            k = k + 1;
        }
        if self.transactions.contains(&txid) {
            return Ok(false);
        }
        if self.transactions.len() >= MEMPOOL_MAX_ENTRIES {
            return Err(MEMPOOL_FULL.to_owned());
        }
        self.transactions.insert(txid, tx);
        proof {
            assert(self.view().dom() == old(self).view().dom().insert(txid));
        }
        Ok(true)
    }

    /// The transaction held under `txid`, if any.
    pub fn get_transaction(&self, txid: &Hash256) -> (r: Option<&Transaction>)
        ensures
            match r {
                Some(tx) => self.view().contains_key(*txid) && self.view()[*txid] == *tx,
                None => !self.view().contains_key(*txid),
            },
    {
        self.transactions.get(txid)
    }

    /// Drops every transaction.
    pub fn clear(&mut self)
        ensures
            final(self).view() == Map::<Hash256, Transaction>::empty(),
    {
        self.transactions = KeyedMap::new();
    }

    pub fn has_transaction(&self, txid: &Hash256) -> (r: bool)
        ensures
            r == self.view().contains_key(*txid),
    {
        self.transactions.contains(txid)
    }

    /// Remove transaction (after it's mined)
    pub fn remove_transaction(&mut self, txid: &Hash256)
        ensures
            final(self).view() == old(self).view().remove(*txid),
    {
        let _ = self.transactions.remove(txid);
    }

    /// Removes every transaction of a block.
    pub fn remove_block_transactions(&mut self, block_txs: &[Transaction])
        ensures
            final(self).view() == old(self).view().remove_keys(
                Set::new(|h: Hash256| exists|i: int| 0 <= i < block_txs@.len() && h == spec_bytes32(#[trigger] block_txs@[i].spec_txid())),
            ),
    {
        let ghost start = self.view();
        let mut i: usize = 0;
        while i < block_txs.len()
            invariant
                i <= block_txs@.len(),
                self.view() == start.remove_keys(
                    Set::new(|h: Hash256| exists|j: int| 0 <= j < i && h == spec_bytes32(#[trigger] block_txs@[j].spec_txid())),
                ),
            decreases block_txs@.len() - i,
        {
            let txid = block_txs[i].txid();
            let ghost before = self.view();
            self.remove_transaction(&txid);
            proof {
                assert(spec_bytes32(block_txs@[i as int].spec_txid()) =~= txid);
                let s_old = Set::new(|h: Hash256| exists|j: int| 0 <= j < i && h == spec_bytes32(#[trigger] block_txs@[j].spec_txid()));
                let s_new = Set::new(|h: Hash256| exists|j: int| 0 <= j < i + 1 && h == spec_bytes32(#[trigger] block_txs@[j].spec_txid()));
                assert(s_new =~= s_old.insert(txid));
                assert(self.view() =~= start.remove_keys(s_new));
            }
            i = i + 1;
        }
    }

    /// Get mempool size
    pub fn size(&self) -> (n: usize)
        ensures
            n == self.view().len(),
    {
        self.transactions.len()
    }
}

} // verus!
