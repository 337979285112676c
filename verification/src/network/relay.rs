//! What to ask a peer for after it announces inventory.
use vstd::prelude::*;
use crate::consensus::chain::ChainError;
use crate::consensus::index::Placement;
use crate::consensus::outpoint_map::KeyedMap;
use crate::primitives::hash::Hash256;

verus! {

/// Inventory type of a transaction.
pub const INV_TX: u32 = 1;

/// Inventory type of a block.
pub const INV_BLOCK: u32 = 2;

/// One announced item: its type and hash.
#[derive(Debug, Clone, Copy)]
pub struct InvItem {
    pub inv_type: u32,
    pub hash: Hash256,
}

/// The answer to an inventory announcement.
#[derive(Debug)]
pub enum InvPlan {
    /// A block we lack was announced: catch up through a header sync
    /// instead of asking for blocks one by one.
    RequestHeaders,
    /// Ask for these transactions (none: send nothing).
    GetData(Vec<InvItem>),
}

/// Whether item `i` is an unknown block.
pub open spec fn unknown_block(items: Seq<InvItem>, known: Seq<bool>, i: int) -> bool {
    items[i].inv_type == INV_BLOCK && !known[i]
}

/// Decides the answer to an announcement, given for each item whether we
/// already have it (the block in the chain, the transaction in the pool):
/// any unknown block calls for a header sync; otherwise the unknown
/// transactions are requested, in the order announced.
pub fn plan_inv(items: &[InvItem], known: &[bool]) -> (r: InvPlan)
    requires
        items@.len() == known@.len(),
    ensures
        (exists|i: int| 0 <= i < items@.len() && #[trigger] unknown_block(items@, known@, i)) ==> r is RequestHeaders,
        (forall|i: int| 0 <= i < items@.len() ==> !#[trigger] unknown_block(items@, known@, i)) ==> (r matches InvPlan::GetData(req) && req@ == Seq::new(items@.len() as nat, |i: int| i).filter(
            |i: int| items@[i].inv_type == INV_TX && !known@[i],
        ).map_values(|i: int| items@[i])),
{
    let ghost sel = |i: int| items@[i].inv_type == INV_TX && !known@[i];
    let ghost idx = Seq::new(items@.len() as nat, |i: int| i);
    let mut to_request: Vec<InvItem> = Vec::new();
    let mut k: usize = 0;
    while k < items.len()
        invariant
            k <= items@.len(),
            items@.len() == known@.len(),
            idx == Seq::new(items@.len() as nat, |i: int| i),
            forall|i: int| #[trigger] sel(i) == (items@[i].inv_type == INV_TX && !known@[i]),
            forall|i: int| 0 <= i < k ==> !#[trigger] unknown_block(items@, known@, i),
            to_request@ == idx.take(k as int).filter(sel).map_values(|i: int| items@[i]),
        decreases items@.len() - k,
    {
        proof {
            reveal(Seq::filter);
            assert(idx.take(k + 1).drop_last() =~= idx.take(k as int));
            assert(idx.take(k + 1).last() == k);
        }
        let item = items[k];
        if item.inv_type == INV_BLOCK && !known[k] {
            assert(unknown_block(items@, known@, k as int));
            return InvPlan::RequestHeaders;
        }
        if item.inv_type == INV_TX && !known[k] {
            to_request.push(item);
        }
        proof {
            assert(to_request@ =~= idx.take(k + 1).filter(sel).map_values(|i: int| items@[i]));
        }
        k = k + 1;
    }
    proof {
        assert(idx.take(k as int) =~= idx);
    }
    InvPlan::GetData(to_request)
}

/// Whether a block should be announced now: not when it was announced
/// before; the first time, it is recorded as announced.
pub fn mark_announced(announced: &mut KeyedMap<Hash256, ()>, block_hash: Hash256) -> (r: bool)
    ensures
        r == !old(announced).view().contains_key(block_hash),
        final(announced).view().dom() == old(announced).view().dom().insert(block_hash),
{
    if announced.contains(&block_hash) {
        proof {
            assert(announced.view().dom() =~= old(announced).view().dom().insert(block_hash));
        }
        return false;
    }
    announced.insert(block_hash, ());
    proof {
        assert(announced.view().dom() =~= old(announced).view().dom().insert(block_hash));
    }
    true
}

/// What to do after a block from a peer was offered to the chain.
#[derive(Debug, Clone, Copy, PartialEq, Eq)]
pub enum BlockReaction {
    /// The block was accepted: announce it or not, and drop its
    /// transactions from the pool or not.
    Accepted { announce: bool, clear_mempool: bool },
    /// Its parent is unknown: catch up through a header sync.
    RequestHeaders,
    /// It was refused.
    Refused,
}

/// The reaction to the chain's answer for a received block: a block that
/// became the tip has its transactions dropped from the pool and is
/// announced unless a sync is under way; an orphan calls for a header
/// sync; any other refusal is reported.
pub fn react_to_block(result: &Result<Placement, ChainError>, syncing: bool) -> (r: BlockReaction)
    ensures
        match *result {
            Ok(Placement::NewTip { .. }) => r == (BlockReaction::Accepted {
                announce: !syncing,
                clear_mempool: true,
            }),
            Ok(Placement::SideChain) => r == (BlockReaction::Accepted {
                announce: false,
                clear_mempool: false,
            }),
            Err(ChainError::OrphanBlock) => r == BlockReaction::RequestHeaders,
            Err(_) => r == BlockReaction::Refused,
        },
{
    match result {
        Ok(Placement::NewTip { .. }) => BlockReaction::Accepted { announce: !syncing, clear_mempool: true },
        Ok(Placement::SideChain) => BlockReaction::Accepted { announce: false, clear_mempool: false },
        Err(ChainError::OrphanBlock) => BlockReaction::RequestHeaders,
        Err(_) => BlockReaction::Refused,
    }
}

} // verus!
