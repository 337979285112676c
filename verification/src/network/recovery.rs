//! When the node counts as cut off from the network.
use vstd::prelude::*;

verus! {

/// Seconds without peers and without blocks after which the node counts
/// as cut off.
pub const NO_PEERS_TIMEOUT_SECS: u64 = 300;

/// Seconds without a new block after which the node counts as cut off.
pub const NO_BLOCKS_TIMEOUT_SECS: u64 = 1800;

/// Signs of a partition: no active peer for more than five minutes since
/// the last block, no block for more than thirty minutes, or every one of
/// more than three peers gone at once.
pub open spec fn spec_partitioned(peer_count: nat, secs_since_block: nat, last_peer_count: nat) -> bool {
    (peer_count == 0 && secs_since_block > NO_PEERS_TIMEOUT_SECS)
        || secs_since_block > NO_BLOCKS_TIMEOUT_SECS
        || (last_peer_count > 3 && peer_count == 0)
}

pub fn check_partition(peer_count: usize, secs_since_block: u64, last_peer_count: usize) -> (r: bool)
    ensures
        r == spec_partitioned(peer_count as nat, secs_since_block as nat, last_peer_count as nat),
{
    if peer_count == 0 && secs_since_block > NO_PEERS_TIMEOUT_SECS {
        return true;
    }
    if secs_since_block > NO_BLOCKS_TIMEOUT_SECS {
        return true;
    }
    if last_peer_count > 3 && peer_count == 0 {
        return true;
    }
    false
}

/// What a recovery attempt does.
#[derive(Debug, Clone, Copy, PartialEq, Eq)]
pub enum RecoveryStage {
    /// Reconnect to peers that worked before.
    KnownPeers,
    /// Connect to the seed nodes.
    Seeds,
    /// Drop every peer and try many known addresses.
    Aggressive,
    /// Drop every peer, forget the known addresses but the seeds, and
    /// reconnect to the seeds.
    FullReset,
}

/// The stage of the `attempt`-th attempt of a recovery (from 1): known
/// peers, then the seeds, then three aggressive attempts, then resets.
pub open spec fn spec_stage(attempt: nat) -> RecoveryStage {
    if attempt == 1 {
        RecoveryStage::KnownPeers
    } else if attempt == 2 {
        RecoveryStage::Seeds
    } else if attempt <= 5 {
        RecoveryStage::Aggressive
    } else {
        RecoveryStage::FullReset
    }
}

/// Where a recovery stands: whether a partition was detected, how many
/// attempts were made since, and how many peers were active at the last
/// check.
#[derive(Debug, Clone, Copy, PartialEq, Eq)]
pub struct RecoveryStatus {
    pub partition_detected: bool,
    pub recovery_attempts: u32,
    pub last_peer_count: usize,
}

impl RecoveryStatus {
    pub fn new() -> (r: Self)
        ensures
            !r.partition_detected && r.recovery_attempts == 0 && r.last_peer_count == 0,
    {
        RecoveryStatus { partition_detected: false, recovery_attempts: 0, last_peer_count: 0 }
    }

    /// Starts the next recovery attempt: the first after a detection counts
    /// as attempt 1; gives the stage of the attempt.
    pub fn next_stage(&mut self) -> (r: RecoveryStage)
        requires
            old(self).partition_detected ==> old(self).recovery_attempts < u32::MAX,
        ensures
            final(self).partition_detected,
            final(self).recovery_attempts == (if old(self).partition_detected {
                old(self).recovery_attempts as int
            } else {
                0
            }) + 1,
            final(self).last_peer_count == old(self).last_peer_count,
            r == spec_stage(final(self).recovery_attempts as nat),
    {
        if !self.partition_detected {
            self.partition_detected = true;
            self.recovery_attempts = 0;
        }
        self.recovery_attempts = self.recovery_attempts + 1;
        let attempt = self.recovery_attempts;
        if attempt == 1 {
            RecoveryStage::KnownPeers
        } else if attempt == 2 {
            RecoveryStage::Seeds
        } else if attempt <= 5 {
            RecoveryStage::Aggressive
        } else {
            RecoveryStage::FullReset
        }
    }

    /// A check that found no partition, with `peer_count` active peers: a
    /// recovery under way ends once some peer is active.
    pub fn on_healthy(&mut self, peer_count: usize)
        ensures
            peer_count > 0 ==> !final(self).partition_detected && final(self).recovery_attempts == (if old(
                self,
            ).partition_detected {
                0
            } else {
                old(self).recovery_attempts
            }),
            peer_count == 0 ==> final(self).partition_detected == old(self).partition_detected
                && final(self).recovery_attempts == old(self).recovery_attempts,
            final(self).last_peer_count == old(self).last_peer_count,
    {
        if peer_count > 0 && self.partition_detected {
            self.partition_detected = false;
            self.recovery_attempts = 0;
        }
    }

    /// The end of a check: the number of active peers is recorded.
    pub fn record_peer_count(&mut self, peer_count: usize)
        ensures
            final(self).last_peer_count == peer_count,
            final(self).partition_detected == old(self).partition_detected,
            final(self).recovery_attempts == old(self).recovery_attempts,
    {
        self.last_peer_count = peer_count;
    }
}

/// A recovery climbs its stages in order: from a fresh detection, the
/// attempts go to known peers, then the seeds, then three aggressive
/// attempts, and every later attempt is a full reset.
pub proof fn lemma_stages_in_order(attempt: nat)
    requires
        attempt >= 1,
    ensures
        attempt == 1 ==> spec_stage(attempt) == RecoveryStage::KnownPeers,
        attempt == 2 ==> spec_stage(attempt) == RecoveryStage::Seeds,
        3 <= attempt <= 5 ==> spec_stage(attempt) == RecoveryStage::Aggressive,
        attempt > 5 ==> spec_stage(attempt) == RecoveryStage::FullReset,
        spec_stage(attempt) == RecoveryStage::FullReset ==> spec_stage(attempt + 1) == RecoveryStage::FullReset,
{
}

} // verus!
