//! Decisions of block synchronisation: which state a sync session is in,
//! what to do with a block that arrives, when to download blocks and how
//! far ahead to request them.
use vstd::prelude::*;
use crate::consensus::block::{spec_target, two_pow_256, BlockHeader, U256, Order};
use crate::consensus::difficulty::{
    lemma_retarget_inputs_defined, retarget_defined, retarget_inputs_ok, spec_next_target, validate_difficulty,
    DifficultyError, DIFFICULTY_WINDOW,
};
use crate::consensus::outpoint_map::KeyedMap;
use crate::consensus::index::{difficulty_accepts, is_zero, ChainEntry, ChainIndex, Placement};
use crate::consensus::params::ChainParams;
use crate::consensus::chain::{median_timestamp, spec_median, MEDIAN_TIME_SPAN};
use crate::mining::miner::{meets_target, MAX_FUTURE_OFFSET};
use crate::primitives::hash::{spec_sha256d, Hash256};

verus! {

/// Number of blocks to keep in flight at once during block download.
pub const DOWNLOAD_WINDOW: u32 = 64;

#[derive(Debug, Clone, Copy, PartialEq)]
pub enum SyncState {
    Idle,
    DownloadingHeaders {
        peer_id: u64,
        best_header_height: u32,
        best_header_hash: [u8; 32],
        fork_start_height: Option<u32>,
    },
    DownloadingBlocks {
        peer_id: u64,
        /// Next block height that must be applied before advancing.
        next_apply_height: u32,
        /// Highest block height of the peer's chain: the sync target.
        total_height: u32,
    },
    Synced,
}

impl SyncState {
    /// A session is under way while headers or blocks are being downloaded.
    pub fn is_syncing(&self) -> (r: bool)
        ensures
            r == (self is DownloadingHeaders || self is DownloadingBlocks),
    {
        match self {
            SyncState::DownloadingHeaders { .. } => true,
            SyncState::DownloadingBlocks { .. } => true,
            _ => false,
        }
    }
}

/// One past the last height of the download window that starts at
/// `next_apply_height`: `DOWNLOAD_WINDOW` blocks, not past `total_height`.
pub open spec fn spec_window_end(next_apply_height: u32, total_height: u32) -> int {
    if next_apply_height + DOWNLOAD_WINDOW < total_height + 1 {
        next_apply_height + DOWNLOAD_WINDOW
    } else {
        total_height + 1
    }
}

pub fn download_window_end(next_apply_height: u32, total_height: u32) -> (r: u32)
    requires
        next_apply_height + DOWNLOAD_WINDOW <= u32::MAX,
        total_height < u32::MAX,
    ensures
        r == spec_window_end(next_apply_height, total_height),
{
    let a = next_apply_height + DOWNLOAD_WINDOW;
    let b = total_height + 1;
    if a < b {
        a
    } else {
        b
    }
}

/// Whether blocks of the peer's chain should be downloaded, from `start`:
/// never when `start` lies past the peer's best height; always when the
/// local chain is shorter; otherwise when the peer's chain has more work, or
/// as much and forks from ours; without a known peer work, when it forks.
pub open spec fn spec_should_download(
    start: u32,
    best_height: u32,
    local_height: u32,
    peer_work: Option<nat>,
    local_work: nat,
    forks: bool,
) -> bool {
    if start > best_height {
        false
    } else if local_height < best_height {
        true
    } else {
        match peer_work {
            Some(pw) => pw > local_work || (pw == local_work && forks),
            None => forks,
        }
    }
}

/// The work of a chain, when known, as a number.
pub open spec fn work_value(w: Option<U256>) -> Option<nat> {
    match w {
        Some(x) => Some(x.value()),
        None => None,
    }
}

pub fn should_download_blocks(
    start: u32,
    best_height: u32,
    local_height: u32,
    peer_work: Option<U256>,
    local_work: U256,
    fork_start_height: Option<u32>,
) -> (r: bool)
    ensures
        r == spec_should_download(
            start,
            best_height,
            local_height,
            work_value(peer_work),
            local_work.value(),
            fork_start_height is Some,
        ),
{
    if start > best_height {
        false
    } else if local_height < best_height {
        true
    } else {
        match peer_work {
            Some(pw) => match pw.compare(&local_work) {
                Order::Above => true,
                Order::Same => fork_start_height.is_some(),
                Order::Below => false,
            },
            None => fork_start_height.is_some(),
        }
    }
}

/// The first height at which the peer's chain leaves ours, once a header at
/// `new_height` with hash `new_hash` is received: unchanged when already
/// known or when the header lies above our chain; otherwise that height
/// when our block there differs or is missing.
pub fn next_fork_start(
    fork_start_height: Option<u32>,
    new_height: u32,
    canonical_height: u32,
    canonical_hash: Option<Hash256>,
    new_hash: &Hash256,
) -> (r: Option<u32>)
    ensures
        r == (if fork_start_height is None && new_height <= canonical_height && (match canonical_hash {
            Some(h) => h@ != new_hash@,
            None => true,
        }) {
            Some(new_height)
        } else {
            fork_start_height
        }),
{
    if fork_start_height.is_none() && new_height <= canonical_height {
        match canonical_hash {
            Some(h) => {
                if !hashes_equal(&h, new_hash) {
                    return Some(new_height);
                }
            },
            None => {
                return Some(new_height);
            },
        }
    }
    fork_start_height
}

fn hashes_equal(a: &Hash256, b: &Hash256) -> (r: bool)
    ensures
        r == (a@ == b@),
{
    let mut i: usize = 0;
    while i < 32
        invariant
            i <= 32,
            forall|j: int| 0 <= j < i ==> a@[j] == b@[j],
        decreases 32 - i,
    {
        if a[i] != b[i] {
            return false;
        }
        i = i + 1;
    }
    proof {
        assert(a@ =~= b@);
    }
    true
}

/// What to do with a block that arrives during a sync session.
#[derive(Debug, Clone, Copy, PartialEq, Eq)]
pub enum SyncBlockAction {
    /// Not part of the session: handle it as an ordinary block.
    NotTracked,
    /// Keep it until blocks are being downloaded, under its height.
    Buffer { height: u32 },
    /// Already applied: drop it.
    Stale,
    /// Ahead of the next height to apply: keep it under its height and
    /// refill the window; when the buffer is full, request the block that
    /// is awaited again.
    BufferAhead { height: u32, rerequest_awaited: bool },
    /// Not the block the peer announced at this height, or not built on the
    /// one below it: drop it and request the announced one again.
    Rerequest,
    /// The block awaited: apply it.
    Apply { height: u32 },
}

/// The decision for an arriving block with hash `block_hash` and parent
/// `block_prev`, given the height the session announced for it (if any),
/// the session state, the hashes announced at its height and the height
/// below, how many blocks are buffered, and whether one is buffered at
/// its height already (the buffer's size once it is kept decides whether
/// the awaited block is requested again).
pub open spec fn spec_classify_block(
    state: SyncState,
    announced_height: Option<u32>,
    block_hash: Seq<u8>,
    block_prev: Seq<u8>,
    hash_at_height: Option<Seq<u8>>,
    hash_below: Option<Seq<u8>>,
    buffered: nat,
    already_buffered: bool,
) -> SyncBlockAction {
    match announced_height {
        None => SyncBlockAction::NotTracked,
        Some(height) => match state {
            SyncState::DownloadingBlocks { next_apply_height, .. } => {
                if height < next_apply_height {
                    SyncBlockAction::Stale
                } else if height > next_apply_height {
                    SyncBlockAction::BufferAhead {
                        height,
                        rerequest_awaited: (if already_buffered {
                            buffered
                        } else {
                            buffered + 1
                        }) >= DOWNLOAD_WINDOW,
                    }
                } else if hash_at_height != Some(block_hash) {
                    SyncBlockAction::Rerequest
                } else if height > 0 && (hash_below matches Some(p) && p != block_prev) {
                    SyncBlockAction::Rerequest
                } else {
                    SyncBlockAction::Apply { height }
                }
            },
            _ => SyncBlockAction::Buffer { height },
        },
    }
}

pub fn classify_sync_block(
    state: &SyncState,
    announced_height: Option<u32>,
    block_hash: &Hash256,
    block_prev: &Hash256,
    hash_at_height: Option<Hash256>,
    hash_below: Option<Hash256>,
    buffered: usize,
    already_buffered: bool,
) -> (r: SyncBlockAction)
    ensures
        r == spec_classify_block(
            *state,
            announced_height,
            block_hash@,
            block_prev@,
            match hash_at_height {
                Some(h) => Some(h@),
                None => None,
            },
            match hash_below {
                Some(h) => Some(h@),
                None => None,
            },
            buffered as nat,
            already_buffered,
        ),
{
    let height = match announced_height {
        None => {
            return SyncBlockAction::NotTracked;
        },
        Some(h) => h,
    };
    let next_apply_height = match state {
        SyncState::DownloadingBlocks { next_apply_height, .. } => *next_apply_height,
        _ => {
            return SyncBlockAction::Buffer { height };
        },
    };
    if height < next_apply_height {
        return SyncBlockAction::Stale;
    }
    if height > next_apply_height {
        let full = if already_buffered {
            buffered >= DOWNLOAD_WINDOW as usize
        } else {
            buffered >= (DOWNLOAD_WINDOW - 1) as usize
        };
        return SyncBlockAction::BufferAhead { height, rerequest_awaited: full };
    }
    match hash_at_height {
        Some(h) => {
            if !hashes_equal(&h, block_hash) {
                return SyncBlockAction::Rerequest;
            }
        },
        None => {
            return SyncBlockAction::Rerequest;
        },
    }
    if height > 0 {
        match hash_below {
            Some(p) => {
                if !hashes_equal(&p, block_prev) {
                    return SyncBlockAction::Rerequest;
                }
            },
            None => {},
        }
    }
    SyncBlockAction::Apply { height }
}

/// The session state once the block at `applied_height` has been applied:
/// synced past the target, otherwise waiting for the next height.
pub fn state_after_apply(peer_id: u64, applied_height: u32, total_height: u32) -> (r: SyncState)
    requires
        applied_height < u32::MAX,
    ensures
        applied_height + 1 > total_height ==> r == SyncState::Synced,
        applied_height + 1 <= total_height ==> r == (SyncState::DownloadingBlocks {
            peer_id,
            next_apply_height: (applied_height + 1) as u32,
            total_height,
        }),
{
    let next = applied_height + 1;
    if next > total_height {
        SyncState::Synced
    } else {
        SyncState::DownloadingBlocks { peer_id, next_apply_height: next, total_height }
    }
}

/// What filling the download window from height `h` up to `end` requests:
/// each height's hash in the peer's chain, when it has one and the hash is
/// not in flight yet (it then is), and the in-flight set afterwards.
pub open spec fn spec_window_pending(
    peer: Map<u32, Hash256>,
    inflight: Set<Hash256>,
    h: int,
    end: int,
) -> (Seq<Hash256>, Set<Hash256>)
    decreases end - h,
{
    if h >= end || h < 0 || h > u32::MAX {
        (Seq::empty(), inflight)
    } else {
        let hu = h as u32;
        if peer.contains_key(hu) && !inflight.contains(peer[hu]) {
            let (rest, fin) = spec_window_pending(peer, inflight.insert(peer[hu]), h + 1, end);
            (seq![peer[hu]] + rest, fin)
        } else {
            spec_window_pending(peer, inflight, h + 1, end)
        }
    }
}

/// Filling a window never asks twice for a block: the hashes requested
/// are distinct, none was in flight before, each is a block of the peer's
/// chain within the window, and afterwards exactly those and the ones in
/// flight before are in flight.
#[verifier::spinoff_prover]
pub proof fn lemma_window_requests_fresh(peer: Map<u32, Hash256>, inflight: Set<Hash256>, h: int, end: int)
    ensures
        ({
            let (p, fin) = spec_window_pending(peer, inflight, h, end);
            &&& p.no_duplicates()
            &&& forall|i: int| 0 <= i < p.len() ==> !inflight.contains(#[trigger] p[i])
            &&& forall|i: int|
                0 <= i < p.len() ==> exists|k: u32|
                    h <= k < end && peer.contains_key(k) && #[trigger] p[i] == peer[k]
            &&& fin == inflight.union(p.to_set())
        }),
    decreases end - h,
{
    if h >= end || h < 0 || h > u32::MAX {
        assert(inflight.union(Seq::<Hash256>::empty().to_set()) =~= inflight);
    } else {
        let hu = h as u32;
        if peer.contains_key(hu) && !inflight.contains(peer[hu]) {
            let x = peer[hu];
            let inf2 = inflight.insert(x);
            lemma_window_requests_fresh(peer, inf2, h + 1, end);
            let (rest, fin) = spec_window_pending(peer, inf2, h + 1, end);
            let p = seq![x] + rest;
            assert forall|i: int| 0 <= i < p.len() implies !inflight.contains(#[trigger] p[i]) by {
                if i > 0 {
                    assert(p[i] == rest[i - 1]);
                    assert(!inf2.contains(rest[i - 1]));
                }
            }
            assert forall|i: int, j: int| 0 <= i < j < p.len() implies p[i] != p[j] by {
                if i == 0 {
                    assert(p[j] == rest[j - 1]);
                    assert(!inf2.contains(rest[j - 1]));
                } else {
                    assert(p[i] == rest[i - 1] && p[j] == rest[j - 1]);
                }
            }
            assert forall|i: int| 0 <= i < p.len() implies exists|k: u32|
                h <= k < end && peer.contains_key(k) && #[trigger] p[i] == peer[k] by {
                if i == 0 {
                    assert(h <= hu < end && peer.contains_key(hu) && p[0] == peer[hu]);
                } else {
                    assert(p[i] == rest[i - 1]);
                }
            }
            assert(p.to_set() =~= rest.to_set().insert(x)) by {
                assert forall|y: Hash256| p.to_set().contains(y) implies rest.to_set().insert(x).contains(y) by {
                    let i = choose|i: int| 0 <= i < p.len() && p[i] == y;
                    if i > 0 {
                        assert(rest[i - 1] == y);
                    }
                }
                assert forall|y: Hash256| rest.to_set().insert(x).contains(y) implies p.to_set().contains(y) by {
                    if y == x {
                        assert(p[0] == y);
                    } else {
                        let i = choose|i: int| 0 <= i < rest.len() && rest[i] == y;
                        assert(p[i + 1] == y);
                    }
                }
            }
            assert(fin =~= inflight.union(p.to_set()));
        } else {
            lemma_window_requests_fresh(peer, inflight, h + 1, end);
            let (p, fin) = spec_window_pending(peer, inflight, h + 1, end);
            assert forall|i: int| 0 <= i < p.len() implies exists|k: u32|
                h <= k < end && peer.contains_key(k) && #[trigger] p[i] == peer[k] by {
                let k = choose|k: u32| h + 1 <= k < end && peer.contains_key(k) && p[i] == peer[k];
                assert(h <= k < end && peer.contains_key(k) && p[i] == peer[k]);
            }
        }
    }
}

/// Fills the download window of a session at `next_apply_height` towards
/// `total_height`: the hashes to request now, each marked in flight.
pub fn fill_window(
    peer_map: &KeyedMap<u32, Hash256>,
    inflight: &mut KeyedMap<Hash256, ()>,
    next_apply_height: u32,
    total_height: u32,
) -> (pending: Vec<Hash256>)
    requires
        next_apply_height + DOWNLOAD_WINDOW <= u32::MAX,
        total_height < u32::MAX,
    ensures
        ({
            let (p, s) = spec_window_pending(
                peer_map.view(),
                old(inflight).view().dom(),
                next_apply_height as int,
                spec_window_end(next_apply_height, total_height),
            );
            pending@ == p && final(inflight).view().dom() == s
        }),
{
    let end = download_window_end(next_apply_height, total_height);
    let ghost target = spec_window_pending(
        peer_map.view(),
        inflight.view().dom(),
        next_apply_height as int,
        end as int,
    );
    let mut pending: Vec<Hash256> = Vec::new();
    let mut h: u32 = next_apply_height;
    while h < end
        invariant
            next_apply_height <= h,
            h <= end || end <= next_apply_height,
            end <= u32::MAX,
            target.0 == pending@ + spec_window_pending(
                peer_map.view(),
                inflight.view().dom(),
                h as int,
                end as int,
            ).0,
            target.1 == spec_window_pending(peer_map.view(), inflight.view().dom(), h as int, end as int).1,
        decreases end - h,
    {
        let ghost before = pending@;
        let ghost inf0 = inflight.view().dom();
        match peer_map.get(&h) {
            Some(hash) => {
                let hash = *hash;
                if !inflight.contains(&hash) {
                    inflight.insert(hash, ());
                    pending.push(hash);
                    proof {
                        assert(inflight.view().dom() =~= inf0.insert(hash));
                        let rest = spec_window_pending(
                            peer_map.view(),
                            inflight.view().dom(),
                            h + 1,
                            end as int,
                        );
                        assert(before + (seq![hash] + rest.0) =~= pending@ + rest.0);
                    }
                }
            },
            None => {},
        }
        h = h + 1;
    }
    proof {
        assert(pending@ + Seq::<Hash256>::empty() =~= pending@);
    }
    pending
}

/// Rechecks a stalled block download: in a block download session, the
/// block at the height to apply next is no longer counted in flight, and
/// the window is filled again. Gives the peer to ask and the hashes to
/// request; `None` outside a block download session.
pub fn recheck_window(
    state: &SyncState,
    peer_map: &KeyedMap<u32, Hash256>,
    inflight: &mut KeyedMap<Hash256, ()>,
) -> (r: Option<(u64, Vec<Hash256>)>)
    requires
        *state matches SyncState::DownloadingBlocks { next_apply_height, total_height, .. }
            ==> next_apply_height + DOWNLOAD_WINDOW <= u32::MAX && total_height < u32::MAX,
    ensures
        match *state {
            SyncState::DownloadingBlocks { peer_id, next_apply_height, total_height } => {
                let cleared = if peer_map.view().contains_key(next_apply_height) {
                    old(inflight).view().dom().remove(peer_map.view()[next_apply_height])
                } else {
                    old(inflight).view().dom()
                };
                let (p, s) = spec_window_pending(
                    peer_map.view(),
                    cleared,
                    next_apply_height as int,
                    spec_window_end(next_apply_height, total_height),
                );
                r matches Some((id, v)) && id == peer_id && v@ == p && final(inflight).view().dom() == s
            },
            _ => r is None && final(inflight).view() == old(inflight).view(),
        },
{
    match *state {
        SyncState::DownloadingBlocks { peer_id, next_apply_height, total_height } => {
            match peer_map.get(&next_apply_height) {
                Some(stalled) => {
                    let _ = inflight.remove(stalled);
                    proof {
                        assert(inflight.view().dom() =~= old(inflight).view().dom().remove(*stalled));
                    }
                },
                None => {},
            }
            let pending = fill_window(peer_map, inflight, next_apply_height, total_height);
            Some((peer_id, pending))
        },
        _ => None,
    }
}

/// The height of the peer with the most blocks among the first `k` of
/// `peers` (an unknown height counts as 0), and that peer: the first one
/// with that height.
pub open spec fn spec_best_peer(peers: Seq<(u64, Option<u32>)>, k: int) -> Option<(u64, u32)>
    decreases k,
{
    if k <= 0 {
        None
    } else {
        let h = peers[k - 1].1.unwrap_or(0);
        match spec_best_peer(peers, k - 1) {
            None => Some((peers[k - 1].0, h)),
            Some((id, best)) => if h > best {
                Some((peers[k - 1].0, h))
            } else {
                Some((id, best))
            },
        }
    }
}

proof fn lemma_best_peer(peers: Seq<(u64, Option<u32>)>, k: int)
    requires
        0 < k <= peers.len(),
    ensures
        spec_best_peer(peers, k) matches Some((id, best)) && exists|i: int|
            0 <= i < k && peers[i].0 == id && peers[i].1.unwrap_or(0) == best && forall|j: int|
                0 <= j < i ==> (#[trigger] peers[j]).1.unwrap_or(0) < best,
        spec_best_peer(peers, k) matches Some((id, best)) && forall|j: int|
            0 <= j < k ==> (#[trigger] peers[j]).1.unwrap_or(0) <= best,
    decreases k,
{
    let h = peers[k - 1].1.unwrap_or(0);
    if k == 1 {
        assert(peers[0].0 == spec_best_peer(peers, k).unwrap().0);
    } else {
        lemma_best_peer(peers, k - 1);
        let (id0, b0) = spec_best_peer(peers, k - 1).unwrap();
        let i0 = choose|i: int|
            0 <= i < k - 1 && peers[i].0 == id0 && peers[i].1.unwrap_or(0) == b0 && forall|j: int|
                0 <= j < i ==> (#[trigger] peers[j]).1.unwrap_or(0) < b0;
        if h > b0 {
            assert forall|j: int| 0 <= j < k - 1 implies (#[trigger] peers[j]).1.unwrap_or(0) < h by {
                assert(peers[j].1.unwrap_or(0) <= b0);
            }
            assert(peers[k - 1].0 == spec_best_peer(peers, k).unwrap().0);
        } else {
            assert(peers[i0].0 == id0);
        }
    }
}

/// The connected peer to sync from: the one announcing the most blocks (an
/// unknown height counts as 0), the first such; none without peers.
pub fn select_best_peer(peers: &[(u64, Option<u32>)]) -> (r: Option<u64>)
    ensures
        r is None <==> peers@.len() == 0,
        r matches Some(id) ==> exists|i: int|
            0 <= i < peers@.len() && (#[trigger] peers@[i]).0 == id && (forall|j: int|
                0 <= j < peers@.len() ==> (#[trigger] peers@[j]).1.unwrap_or(0) <= peers@[i].1.unwrap_or(0))
                && (forall|j: int| 0 <= j < i ==> (#[trigger] peers@[j]).1.unwrap_or(0) < peers@[i].1.unwrap_or(0)),
{
    let mut best_peer: Option<u64> = None;
    let mut best_height: u32 = 0;
    let mut i: usize = 0;
    while i < peers.len()
        invariant
            i <= peers@.len(),
            match spec_best_peer(peers@, i as int) {
                None => best_peer is None,
                Some((id, b)) => best_peer == Some(id) && best_height == b,
            },
        decreases peers@.len() - i,
    {
        let (peer_id, height) = peers[i];
        let h = match height {
            Some(x) => x,
            None => 0,
        };
        if best_peer.is_none() || h > best_height {
            best_peer = Some(peer_id);
            best_height = h;
        }
        i = i + 1;
    }
    proof {
        if peers@.len() > 0 {
            lemma_best_peer(peers@, peers@.len() as int);
        }
    }
    best_peer
}

/// Where a header download starts, by height and hash view: the best
/// header known, when it is above the local height; otherwise the local tip
/// (height 0 and the zero hash without one). Without a stored best header
/// the tip stands for it.
pub open spec fn spec_sync_start(
    our_height: u32,
    best_header: Option<(u32, Seq<u8>)>,
    tip: Option<(u32, Seq<u8>)>,
) -> (u32, Seq<u8>) {
    let tip_point = match tip {
        Some(t) => t,
        None => (0u32, Seq::new(32, |i: int| 0u8)),
    };
    let best = match best_header {
        Some(b) => b,
        None => tip_point,
    };
    if best.0 > our_height {
        best
    } else {
        tip_point
    }
}

/// A point of a chain as its height and hash view.
pub open spec fn point_view(p: Option<(u32, Hash256)>) -> Option<(u32, Seq<u8>)> {
    match p {
        Some((h, x)) => Some((h, x@)),
        None => None,
    }
}

/// Starts a header download session with `peer_id`: none while headers are
/// already being downloaded; otherwise the session starts at
/// [`spec_sync_start`], with no fork known yet.
pub fn begin_sync(
    state: &SyncState,
    peer_id: u64,
    our_height: u32,
    best_header: Option<(u32, Hash256)>,
    tip: Option<(u32, Hash256)>,
) -> (r: Option<SyncState>)
    ensures
        state is DownloadingHeaders ==> r is None,
        !(state is DownloadingHeaders) ==> {
            let (h, x) = spec_sync_start(our_height, point_view(best_header), point_view(tip));
            r matches Some(SyncState::DownloadingHeaders {
                peer_id: p,
                best_header_height: bh,
                best_header_hash: bx,
                fork_start_height: f,
            }) && p == peer_id && bh == h && bx@ == x && f is None
        },
{
    if let SyncState::DownloadingHeaders { .. } = state {
        return None;
    }
    let zero: Hash256 = [0u8; 32];
    proof {
        assert(zero@ =~= Seq::new(32, |i: int| 0u8));
    }
    let tip_point = match tip {
        Some(t) => t,
        None => (0u32, zero),
    };
    let best = match best_header {
        Some(b) => b,
        None => tip_point,
    };
    let (h, x) = if best.0 > our_height {
        best
    } else {
        tip_point
    };
    Some(
        SyncState::DownloadingHeaders {
            peer_id,
            best_header_height: h,
            best_header_hash: x,
            fork_start_height: None,
        },
    )
}

/// The first height of the peer's chain whose block is missing here, given
/// each height with whether its block is stored: the least such height, or
/// one past `total_height` when none is missing.
pub fn find_first_missing(entries: &[(u32, bool)], total_height: u32) -> (r: u32)
    requires
        total_height < u32::MAX,
    ensures
        (forall|i: int| 0 <= i < entries@.len() ==> (#[trigger] entries@[i]).1) ==> r == total_height + 1,
        (exists|i: int| 0 <= i < entries@.len() && !(#[trigger] entries@[i]).1) ==> {
            &&& exists|i: int| 0 <= i < entries@.len() && !(#[trigger] entries@[i]).1 && entries@[i].0 == r
            &&& forall|i: int| 0 <= i < entries@.len() && !(#[trigger] entries@[i]).1 ==> r <= entries@[i].0
        },
{
    let mut found = false;
    let mut least: u32 = 0;
    let mut i: usize = 0;
    while i < entries.len()
        invariant
            i <= entries@.len(),
            found <==> exists|j: int| 0 <= j < i && !(#[trigger] entries@[j]).1,
            found ==> exists|j: int| 0 <= j < i && !(#[trigger] entries@[j]).1 && entries@[j].0 == least,
            found ==> forall|j: int| 0 <= j < i && !(#[trigger] entries@[j]).1 ==> least <= entries@[j].0,
        decreases entries@.len() - i,
    {
        let (h, have) = entries[i];
        if !have && (!found || h < least) {
            least = h;
            found = true;
        }
        i = i + 1;
    }
    if found {
        least
    } else {
        total_height + 1
    }
}

/// Most headers served in answer to one request.
pub const MAX_HEADERS: usize = 2000;

/// Position of the first hash of `hashes` equal to `h`.
pub open spec fn first_index_of(hashes: Seq<Hash256>, h: Seq<u8>, from: int) -> Option<int>
    decreases hashes.len() - from,
{
    if from < 0 || from >= hashes.len() {
        None
    } else if hashes[from]@ == h {
        Some(from)
    } else {
        first_index_of(hashes, h, from + 1)
    }
}

/// Where serving headers starts for a locator, checking its entries from
/// `i` on: one past the height of the first entry found in our chain, or the
/// genesis block when none is.
pub open spec fn locator_start(hashes: Seq<Hash256>, locator: Seq<Hash256>, i: int) -> int
    decreases locator.len() - i,
{
    if i < 0 || i >= locator.len() {
        0
    } else {
        match first_index_of(hashes, locator[i]@, 0) {
            Some(k) => k + 1,
            None => locator_start(hashes, locator, i + 1),
        }
    }
}

/// Where serving stops: after `MAX_HEADERS` headers, at the end of the
/// chain, or just after the stop hash when one is given.
pub open spec fn serve_end(hashes: Seq<Hash256>, stop: Seq<u8>, h: int, count: nat) -> int
    decreases hashes.len() - h,
{
    if count >= MAX_HEADERS || h < 0 || h >= hashes.len() {
        h
    } else if stop != Seq::new(32, |i: int| 0u8) && hashes[h]@ == stop {
        h + 1
    } else {
        serve_end(hashes, stop, h + 1, count + 1)
    }
}

fn index_of(hashes: &[Hash256], h: &Hash256) -> (r: Option<usize>)
    ensures
        r matches Some(k) ==> k < hashes@.len() && first_index_of(hashes@, h@, 0) == Some(k as int),
        r is None ==> first_index_of(hashes@, h@, 0) is None,
{
    let mut i: usize = 0;
    while i < hashes.len()
        invariant
            i <= hashes@.len(),
            first_index_of(hashes@, h@, 0) == first_index_of(hashes@, h@, i as int),
        decreases hashes@.len() - i,
    {
        if hashes_equal(&hashes[i], h) {
            return Some(i);
        }
        i = i + 1;
    }
    None
}

/// The headers to answer a header request with: the chain's headers (by
/// height, with their hashes alongside) from just after the first locator
/// entry found in the chain, up to `MAX_HEADERS` of them, stopping after the
/// stop hash when it is not zero.
pub fn headers_for_locator(
    hashes: &[Hash256],
    headers: &[BlockHeader],
    locator: &[Hash256],
    stop_hash: &Hash256,
) -> (r: Vec<BlockHeader>)
    requires
        hashes@.len() == headers@.len(),
    ensures
        ({
            let start = locator_start(hashes@, locator@, 0);
            r@ == headers@.subrange(start, serve_end(hashes@, stop_hash@, start, 0))
        }),
{
    let mut start: usize = 0;
    let mut found = false;
    let mut i: usize = 0;
    while i < locator.len() && !found
        invariant
            i <= locator@.len(),
            hashes@.len() == hashes.len(),
            start <= hashes@.len(),
            found ==> start as int == locator_start(hashes@, locator@, 0),
            !found ==> start == 0 && locator_start(hashes@, locator@, 0) == locator_start(
                hashes@,
                locator@,
                i as int,
            ),
        decreases locator@.len() - i,
    {
        let entry = &locator[i];
        match index_of(hashes, entry) {
            Some(k) => {
                assert(entry@ == locator@[i as int]@);
                start = k + 1;
                found = true;
            },
            None => {},
        }
        i = i + 1;
    }
    assert(start as int == locator_start(hashes@, locator@, 0));
    let zero: Hash256 = [0u8; 32];
    let stop_is_zero = hashes_equal(stop_hash, &zero);
    proof {
        assert(zero@ =~= Seq::new(32, |i: int| 0u8));
    }
    let mut out: Vec<BlockHeader> = Vec::new();
    let mut h: usize = start;
    let ghost s0 = start as int;
    while out.len() < MAX_HEADERS && h < hashes.len()
        invariant
            s0 == locator_start(hashes@, locator@, 0),
            hashes@.len() == headers@.len(),
            0 <= s0 <= h <= hashes@.len(),
            stop_is_zero == (stop_hash@ == Seq::new(32, |i: int| 0u8)),
            out@ == headers@.subrange(s0, h as int),
            out@.len() == h - s0,
            serve_end(hashes@, stop_hash@, s0, 0) == serve_end(hashes@, stop_hash@, h as int, out@.len()),
        decreases hashes@.len() - h,
    {
        let hd = headers[h];
        let ghost before = out@;
        assert(hd == headers@[h as int]);
        out.push(hd);
        proof {
            assert(before == headers@.subrange(s0, h as int));
            assert(out@ == before.push(hd));
            assert(headers@.subrange(s0, h + 1) =~= headers@.subrange(s0, h as int).push(headers@[h as int]));
            assert(out@ =~= headers@.subrange(s0, h + 1));
        }
        if !stop_is_zero && hashes_equal(&hashes[h], stop_hash) {
            return out;
        }
        h = h + 1;
    }
    out
}

/// Why a received header was refused.
#[derive(Debug, Clone, Copy, PartialEq, Eq)]
pub enum HeaderError {
    /// It does not build on the header given as its parent.
    NotConnected,
    /// Its target does not decode.
    PowCheckFailed,
    /// Its hash is above its target.
    InvalidPow,
    /// Its target is not the one the chain calls for.
    Difficulty(DifficultyError),
    /// Its timestamp is not after the median time past.
    TimestampTooEarly,
    /// Its timestamp lies more than `MAX_FUTURE_OFFSET` past the network time.
    TimestampTooFar,
}

/// The timestamp rule: a header's timestamp must lie after the median of
/// `past` (the timestamps of the blocks ending at its parent) and at most
/// `MAX_FUTURE_OFFSET` past the network time `now`; the refusal, if any.
pub open spec fn timestamp_refusal(ts: u64, past: Seq<u64>, now: u64) -> Option<HeaderError> {
    if past.len() > 0 && ts <= spec_median(past) {
        Some(HeaderError::TimestampTooEarly)
    } else if ts > now + MAX_FUTURE_OFFSET {
        Some(HeaderError::TimestampTooFar)
    } else {
        None
    }
}

/// A header that passes its check passes it with the unit result.
proof fn lemma_header_check_ok(
    prev: BlockHeader,
    header: BlockHeader,
    params: ChainParams,
    w: Seq<u64>,
    past: Seq<u64>,
    now: u64,
    r: Result<(), HeaderError>,
)
    requires
        header_check(prev, header, params, w, past, now, r),
        r is Ok,
    ensures
        header_check(prev, header, params, w, past, now, Ok(())),
{
    reveal(header_check);
}

/// Applies the timestamp rule of [`timestamp_refusal`].
pub fn check_timestamp(ts: u64, past: &[u64], now: u64) -> (r: Result<(), HeaderError>)
    ensures
        match timestamp_refusal(ts, past@, now) {
            Some(e) => r == Err::<(), HeaderError>(e),
            None => r is Ok,
        },
{
    if past.len() > 0 && ts <= median_timestamp(past) {
        return Err(HeaderError::TimestampTooEarly);
    }
    if ts > now && ts - now > MAX_FUTURE_OFFSET {
        return Err(HeaderError::TimestampTooFar);
    }
    Ok(())
}

/// What checking `header` against its parent `prev` gives: `NotConnected`
/// when it does not name the parent's hash, `PowCheckFailed` when its
/// target does not decode, `InvalidPow` when its hash is above its target,
/// the retarget's error, a `TargetMismatch` carrying the two targets when
/// its target is not the one called for, then the timestamp rule's refusal
/// against the timestamps `past` ending at the parent and the network time
/// `now`; otherwise success.
#[verifier::opaque]
pub open spec fn header_check(
    prev: BlockHeader,
    header: BlockHeader,
    params: ChainParams,
    w: Seq<u64>,
    past: Seq<u64>,
    now: u64,
    r: Result<(), HeaderError>,
) -> bool {
    if header.prev_block_hash@ != spec_sha256d(prev.spec_encode()) {
        r == Err::<(), HeaderError>(HeaderError::NotConnected)
    } else if spec_target(header.n_bits) is Err {
        r == Err::<(), HeaderError>(HeaderError::PowCheckFailed)
    } else if !meets_target(header) {
        r == Err::<(), HeaderError>(HeaderError::InvalidPow)
    } else {
        match spec_next_target(prev, header.timestamp, params, w) {
            Err(e) => r == Err::<(), HeaderError>(HeaderError::Difficulty(e)),
            Ok(expected) => {
                let actual = spec_target(header.n_bits)->Ok_0;
                if expected == actual {
                    match timestamp_refusal(header.timestamp, past, now) {
                        Some(e) => r == Err::<(), HeaderError>(e),
                        None => r is Ok,
                    }
                } else {
                    r matches Err(HeaderError::Difficulty(DifficultyError::TargetMismatch { expected: x, actual: a }))
                        && x.value() == expected && a.value() == actual
                }
            },
        }
    }
}

/// Whether checking `header` against `prev` gets as far as the retarget:
/// it names the parent's hash, and its target decodes and is met.
pub open spec fn reaches_retarget(prev: BlockHeader, header: BlockHeader) -> bool {
    &&& header.prev_block_hash@ == spec_sha256d(prev.spec_encode())
    &&& spec_target(header.n_bits) is Ok
    &&& meets_target(header)
}

/// Checks a received header against its parent: it must name the parent's
/// hash, meet its own target, carry the target the chain calls for after
/// the parent (given the retarget window `window_timestamps`), and pass the
/// timestamp rule against `past_timestamps` (those of the last blocks up to
/// the parent) and the network time `now`; see [`header_check`].
pub fn check_header(
    prev: &BlockHeader,
    header: &BlockHeader,
    params: &ChainParams,
    window_timestamps: &[u64],
    past_timestamps: &[u64],
    now: u64,
) -> (r: Result<(), HeaderError>)
    requires
        reaches_retarget(*prev, *header) ==> retarget_defined(
            *prev,
            header.timestamp,
            *params,
            window_timestamps@,
        ),
    ensures
        header_check(*prev, *header, *params, window_timestamps@, past_timestamps@, now, r),
{
    proof {
        reveal(header_check);
    }
    let prev_hash = prev.hash();
    if !hashes_equal(&prev_hash, &header.prev_block_hash) {
        return Err(HeaderError::NotConnected);
    }
    match header.check_proof_of_work() {
        Ok(true) => {},
        Ok(false) => {
            return Err(HeaderError::InvalidPow);
        },
        Err(_) => {
            return Err(HeaderError::PowCheckFailed);
        },
    }
    match validate_difficulty(Some(prev), header, params, window_timestamps) {
        Ok(()) => {},
        Err(e) => {
            return Err(HeaderError::Difficulty(e));
        },
    }
    check_timestamp(header.timestamp, past_timestamps, now)
}


/// What to ask for once a batch of headers is stored.
#[derive(Debug, Clone, Copy, PartialEq, Eq)]
pub enum HeadersNext {
    /// The batch was full: ask the peer for the headers after this hash.
    RequestMore(Hash256),
    /// Headers are complete: download the blocks at heights `from..=to`
    /// (`from` is one past `to` when every block is already stored).
    Download { from: u32, to: u32 },
}

/// What a batch of received headers gives.
#[derive(Debug, Clone, Copy, PartialEq, Eq)]
pub enum HeadersOutcome {
    /// The batch held no header.
    Empty,
    /// The header at this index was refused for this reason; every header
    /// before it passed.
    Refused(usize, HeaderError),
    /// Every header passed.
    Stored {
        /// The height and hash of the block the first header builds on.
        anchor: (u32, Hash256),
        /// The height of the first header.
        first_height: u32,
        /// The first height at which the batch leaves our chain.
        fork_height: Option<u32>,
        /// The hash and height of the last header.
        best: (Hash256, u32),
        next: HeadersNext,
    },
}

/// The header that header `i` of `batch` builds on: `parent` for the first.
pub open spec fn batch_prev(parent: BlockHeader, batch: Seq<BlockHeader>, i: int) -> BlockHeader {
    if i == 0 {
        parent
    } else {
        batch[i - 1]
    }
}

/// The hash of a header.
pub open spec fn header_hash(h: BlockHeader) -> Seq<u8> {
    spec_sha256d(h.spec_encode())
}

/// Whether our chain holds a block at `height` whose hash is not `hash`.
pub open spec fn leaves_chain(canonical: Seq<Hash256>, height: int, hash: Seq<u8>) -> bool {
    0 <= height < canonical.len() && canonical[height]@ != hash
}

/// The height of the first header of `batch`, from index `i` on, that
/// leaves our chain, header `i` standing at `parent_height + 1 + i`.
pub open spec fn first_fork_from(
    batch: Seq<BlockHeader>,
    canonical: Seq<Hash256>,
    parent_height: int,
    i: int,
) -> Option<int>
    decreases batch.len() - i,
{
    if i < 0 || i >= batch.len() {
        None
    } else if leaves_chain(canonical, parent_height + 1 + i, header_hash(batch[i])) {
        Some(parent_height + 1 + i)
    } else {
        first_fork_from(batch, canonical, parent_height, i + 1)
    }
}

/// The first index from `i` on whose block is missing, or the length when
/// none is.
pub open spec fn first_missing_from(have: Seq<bool>, i: int) -> int
    decreases have.len() - i,
{
    if i < 0 || i >= have.len() {
        have.len() as int
    } else if !have[i] {
        i
    } else {
        first_missing_from(have, i + 1)
    }
}

/// The last `n` entries of `s` (all of them when it is shorter).
pub open spec fn last_n(s: Seq<u64>, n: nat) -> Seq<u64> {
    if s.len() > n {
        s.skip(s.len() - n)
    } else {
        s
    }
}

/// The timestamps header `i` of `batch` is held to: the last
/// `MEDIAN_TIME_SPAN` of `anc` (those of the blocks up to the parent, oldest
/// first) followed by those of the headers before it.
pub open spec fn batch_past(anc: Seq<u64>, batch: Seq<BlockHeader>, i: int) -> Seq<u64> {
    last_n(anc + Seq::new(i as nat, |k: int| batch[k].timestamp), MEDIAN_TIME_SPAN as nat)
}

/// The last `n` entries of `v`, copied.
fn copy_last(v: &Vec<u64>, n: usize) -> (r: Vec<u64>)
    ensures
        r@ == last_n(v@, n as nat),
{
    let start: usize = if v.len() > n {
        v.len() - n
    } else {
        0
    };
    let mut out: Vec<u64> = Vec::new();
    let mut k: usize = start;
    while k < v.len()
        invariant
            start <= k <= v@.len(),
            start == (if v@.len() > n { v@.len() - n } else { 0 }),
            out@ == v@.subrange(start as int, k as int),
        decreases v@.len() - k,
    {
        out.push(v[k]);
        proof {
            assert(out@ =~= v@.subrange(start as int, k + 1));
        }
        k = k + 1;
    }
    proof {
        assert(out@ =~= last_n(v@, n as nat));
    }
    out
}

/// An optional height as an optional integer.
pub open spec fn height_opt(h: Option<u32>) -> Option<int> {
    match h {
        Some(x) => Some(x as int),
        None => None,
    }
}

/// What a batch of headers gives, the first building on `parent` at
/// `parent_height`: `Empty` for no header; `Refused(i, e)` when header `i`
/// fails its check with `e` and every earlier one passes; otherwise
/// `Stored`, with the anchor, the first and last heights, the last hash,
/// the first height that leaves `canonical`, and the next step: more
/// headers after the last when the batch is full, else the blocks from the
/// first height whose block is missing (`have[k]` tells whether the block
/// at `parent_height + k` is stored) up to the last header.
pub open spec fn headers_outcome(
    batch: Seq<BlockHeader>,
    parent: BlockHeader,
    parent_height: u32,
    canonical: Seq<Hash256>,
    have: Seq<bool>,
    params: ChainParams,
    w: Seq<u64>,
    anc: Seq<u64>,
    now: u64,
    r: HeadersOutcome,
) -> bool {
    let n = batch.len();
    if n == 0 {
        r == HeadersOutcome::Empty
    } else {
        match r {
            HeadersOutcome::Empty => false,
            HeadersOutcome::Refused(i, e) => {
                &&& i < n
                &&& forall|j: int|
                    0 <= j < i ==> header_check(
                        batch_prev(parent, batch, j),
                        #[trigger] batch[j],
                        params,
                        w,
                        batch_past(anc, batch, j),
                        now,
                        Ok(()),
                    )
                &&& header_check(
                    batch_prev(parent, batch, i as int),
                    batch[i as int],
                    params,
                    w,
                    batch_past(anc, batch, i as int),
                    now,
                    Err(e),
                )
            },
            HeadersOutcome::Stored { anchor, first_height, fork_height, best, next } => {
                &&& forall|j: int|
                    0 <= j < n ==> header_check(
                        batch_prev(parent, batch, j),
                        #[trigger] batch[j],
                        params,
                        w,
                        batch_past(anc, batch, j),
                        now,
                        Ok(()),
                    )
                &&& anchor.0 == parent_height
                &&& anchor.1 == batch[0].prev_block_hash
                &&& first_height == parent_height + 1
                &&& best.0@ == header_hash(batch[n - 1])
                &&& best.1 == parent_height + n
                &&& height_opt(fork_height) == first_fork_from(batch, canonical, parent_height as int, 0)
                &&& if n >= MAX_HEADERS {
                    next == HeadersNext::RequestMore(best.0)
                } else {
                    next == HeadersNext::Download {
                        from: (parent_height + first_missing_from(have, 0)) as u32,
                        to: best.1,
                    }
                }
            },
        }
    }
}

/// Runs a batch of headers received from a peer, each checked against the
/// one before it (the first against `parent`, at `parent_height`), with
/// `window_timestamps` for every retarget and the timestamp rule applied
/// against `ancestor_timestamps` (those of the blocks up to the parent,
/// oldest first) followed by the batch's own, and the network time `now`;
/// `canonical[h]` is the hash of our block at height `h`, and
/// `have_block[k]` whether the block at `parent_height + k` is stored. See
/// [`headers_outcome`].
#[verifier::rlimit(60)]
pub fn process_headers_batch(
    batch: &[BlockHeader],
    parent: &BlockHeader,
    parent_height: u32,
    canonical: &[Hash256],
    have_block: &[bool],
    params: &ChainParams,
    window_timestamps: &[u64],
    ancestor_timestamps: &[u64],
    now: u64,
) -> (r: HeadersOutcome)
    requires
        retarget_inputs_ok(*params, window_timestamps@),
        have_block@.len() == batch@.len() + 1,
        parent_height + batch@.len() < u32::MAX,
    ensures
        headers_outcome(
            batch@,
            *parent,
            parent_height,
            canonical@,
            have_block@,
            *params,
            window_timestamps@,
            ancestor_timestamps@,
            now,
            r,
        ),
{
    let n: usize = batch.len();
    if n == 0 {
        return HeadersOutcome::Empty;
    }
    let mut times: Vec<u64> = Vec::new();
    let mut a: usize = 0;
    while a < ancestor_timestamps.len()
        invariant
            a <= ancestor_timestamps@.len(),
            times@ == ancestor_timestamps@.take(a as int),
        decreases ancestor_timestamps@.len() - a,
    {
        times.push(ancestor_timestamps[a]);
        proof {
            assert(times@ =~= ancestor_timestamps@.take(a + 1));
        }
        a = a + 1;
    }
    proof {
        assert(times@ =~= ancestor_timestamps@ + Seq::new(0, |k: int| batch@[k].timestamp));
    }
    let ghost ph: int = parent_height as int;
    let mut prev: BlockHeader = *parent;
    let mut fork_height: Option<u32> = None;
    let mut best_hash: Hash256 = batch[0].prev_block_hash;
    let mut i: usize = 0;
    while i < n
        invariant
            n == batch@.len(),
            0 < n,
            i <= n,
            ph == parent_height as int,
            retarget_inputs_ok(*params, window_timestamps@),
            parent_height + n < u32::MAX,
            prev == batch_prev(*parent, batch@, i as int),
            times@ == ancestor_timestamps@ + Seq::new(i as nat, |k: int| batch@[k].timestamp),
            forall|j: int|
                0 <= j < i ==> header_check(
                    batch_prev(*parent, batch@, j),
                    #[trigger] batch@[j],
                    *params,
                    window_timestamps@,
                    batch_past(ancestor_timestamps@, batch@, j),
                    now,
                    Ok(()),
                ),
            i > 0 ==> best_hash@ == header_hash(batch@[i - 1]),
            fork_height is None ==> first_fork_from(batch@, canonical@, ph, 0) == first_fork_from(
                batch@,
                canonical@,
                ph,
                i as int,
            ),
            fork_height is Some ==> first_fork_from(batch@, canonical@, ph, 0) == height_opt(
                fork_height,
            ),
        decreases n - i,
    {
        let header: &BlockHeader = &batch[i];
        proof {
            lemma_retarget_inputs_defined(prev, header.timestamp, *params, window_timestamps@);
        }
        let past: Vec<u64> = copy_last(&times, MEDIAN_TIME_SPAN);
        assert(past@ == batch_past(ancestor_timestamps@, batch@, i as int));
        let res = check_header(&prev, header, params, window_timestamps, past.as_slice(), now);
        match res {
            Ok(()) => {
                proof {
                    lemma_header_check_ok(prev, *header, *params, window_timestamps@, past@, now, res);
                }
            },
            Err(e) => {
                return HeadersOutcome::Refused(i, e);
            },
        }
        let height: u32 = parent_height + 1 + i as u32;
        let hash: Hash256 = header.hash();
        proof {
            assert(first_fork_from(batch@, canonical@, ph, i as int) == if leaves_chain(
                canonical@,
                ph + 1 + i,
                header_hash(batch@[i as int]),
            ) {
                Some(ph + 1 + i)
            } else {
                first_fork_from(batch@, canonical@, ph, i + 1)
            });
        }
        if fork_height.is_none() && (height as usize) < canonical.len() {
            if !hashes_equal(&canonical[height as usize], &hash) {
                fork_height = Some(height);
            }
        }
        best_hash = hash;
        prev = *header;
        times.push(header.timestamp);
        proof {
            assert(times@ =~= ancestor_timestamps@ + Seq::new((i + 1) as nat, |k: int| batch@[k].timestamp));
        }
        i = i + 1;
    }
    let best_height: u32 = parent_height + n as u32;
    let next: HeadersNext = if n >= MAX_HEADERS {
        HeadersNext::RequestMore(best_hash)
    } else {
        let mut k: usize = 0;
        while k < have_block.len() && have_block[k]
            invariant
                k <= have_block@.len(),
                first_missing_from(have_block@, 0) == first_missing_from(have_block@, k as int),
            decreases have_block@.len() - k,
        {
            k = k + 1;
        }
        HeadersNext::Download { from: parent_height + k as u32, to: best_height }
    };
    HeadersOutcome::Stored {
        anchor: (parent_height, batch[0].prev_block_hash),
        first_height: parent_height + 1,
        fork_height,
        best: (best_hash, best_height),
        next,
    }
}


/// A block received during sync: its hash, header and work.
#[derive(Debug, Clone, Copy, PartialEq, Eq)]
pub struct SyncBlock {
    pub hash: Hash256,
    pub header: BlockHeader,
    pub work: U256,
}

/// What a drain reads of a chain index: each known block's header and
/// cumulative work (as a number) by hash, and the tip.
pub open spec fn index_model(m: Map<Hash256, ChainEntry>, tip: Option<Hash256>) -> (
    Map<Hash256, BlockHeader>,
    Map<Hash256, nat>,
    Option<Hash256>,
) {
    (m.map_values(|e: ChainEntry| e.header), m.map_values(|e: ChainEntry| e.cumulative_work.value()), tip)
}

/// Whether the chain index described by `s` takes the block `b`, the
/// retarget using the window `w`: a genesis block, or one whose parent it
/// holds and whose target is the one called for (as `add_block` decides).
pub open spec fn model_takes(
    s: (Map<Hash256, BlockHeader>, Map<Hash256, nat>, Option<Hash256>),
    b: SyncBlock,
    params: ChainParams,
    w: Seq<u64>,
) -> bool {
    let prev = b.header.prev_block_hash;
    is_zero(prev) || (s.0.contains_key(prev) && difficulty_accepts(s.0[prev], b.header, params, w))
}

/// The chain index described by `s` once it has taken `b`, and where `b`
/// went, as `add_block` gives them: `b` is known with its header and its
/// cumulative work (its own, plus its parent's unless it is a genesis
/// block, modulo 2^256); it becomes the tip when there is none or its work
/// is more than the tip's (a reorganisation when it does not build on the
/// tip), and lies on a side chain otherwise.
pub open spec fn model_step(
    s: (Map<Hash256, BlockHeader>, Map<Hash256, nat>, Option<Hash256>),
    b: SyncBlock,
) -> ((Map<Hash256, BlockHeader>, Map<Hash256, nat>, Option<Hash256>), Placement) {
    let prev = b.header.prev_block_hash;
    let cw = if is_zero(prev) {
        b.work.value()
    } else {
        (s.1[prev] + b.work.value()) % two_pow_256()
    };
    let update = match s.2 {
        None => true,
        Some(t) => cw > s.1[t],
    };
    let s2 = (s.0.insert(b.hash, b.header), s.1.insert(b.hash, cw), if update {
        Some(b.hash)
    } else {
        s.2
    });
    let p = if update {
        Placement::NewTip { reorg: (s.2 matches Some(t) && t != prev) }
    } else {
        Placement::SideChain
    };
    (s2, p)
}

/// The chain index described by `s0` once it has taken the first `k`
/// blocks of `a`, in order.
pub open spec fn model_after(
    s0: (Map<Hash256, BlockHeader>, Map<Hash256, nat>, Option<Hash256>),
    a: Seq<SyncBlock>,
    k: int,
) -> (Map<Hash256, BlockHeader>, Map<Hash256, nat>, Option<Hash256>)
    decreases k,
{
    if k <= 0 {
        s0
    } else {
        model_step(model_after(s0, a, k - 1), a[k - 1]).0
    }
}

proof fn lemma_model_after_push(
    s0: (Map<Hash256, BlockHeader>, Map<Hash256, nat>, Option<Hash256>),
    a: Seq<SyncBlock>,
    x: SyncBlock,
    k: int,
)
    requires
        0 <= k <= a.len(),
    ensures
        model_after(s0, a.push(x), k) == model_after(s0, a, k),
    decreases k,
{
    if k > 0 {
        lemma_model_after_push(s0, a, x, k - 1);
        assert(a.push(x)[k - 1] == a[k - 1]);
    }
}

/// Whether every block of a drain was taken by the chain index as it stood
/// after the blocks before it, and went where `placements` says.
pub open spec fn drain_steps_taken(
    s0: (Map<Hash256, BlockHeader>, Map<Hash256, nat>, Option<Hash256>),
    a: Seq<SyncBlock>,
    placements: Seq<Placement>,
    params: ChainParams,
    anc: Seq<u64>,
) -> bool {
    &&& placements.len() == a.len()
    &&& forall|k: int|
        0 <= k < a.len() ==> #[trigger] drain_step_taken(s0, a, params, anc, k) && placements[k]
            == model_step(model_after(s0, a, k), a[k]).1
}

/// Whether the `k`-th block of a drain was taken by the chain index as it
/// stood after the blocks before it.
pub open spec fn drain_step_taken(
    s0: (Map<Hash256, BlockHeader>, Map<Hash256, nat>, Option<Hash256>),
    a: Seq<SyncBlock>,
    params: ChainParams,
    anc: Seq<u64>,
    k: int,
) -> bool {
    model_takes(model_after(s0, a, k), a[k], params, drain_window(anc, a, k))
}

/// The retarget window of the `k`-th block applied in a drain: the last
/// `DIFFICULTY_WINDOW` timestamps of `anc` (those up to the first block's
/// parent) followed by those of the blocks applied before it.
pub open spec fn drain_window(anc: Seq<u64>, applied: Seq<SyncBlock>, k: int) -> Seq<u64> {
    last_n(anc + Seq::new(k as nat, |i: int| applied[i].header.timestamp), DIFFICULTY_WINDOW as nat)
}

/// The buffer without the blocks at heights `lo + 1 ..= hi`.
pub open spec fn drained(b: Map<u32, SyncBlock>, lo: int, hi: int) -> Map<u32, SyncBlock> {
    b.remove_keys(Set::new(|x: u32| lo < x <= hi))
}

/// Whether the `i`-th block applied in a drain from `height` is the one
/// buffered at its height, with the hash announced there.
pub open spec fn run_step_ok(
    b0: Map<u32, SyncBlock>,
    ann: Map<u32, Hash256>,
    height: u32,
    a: Seq<SyncBlock>,
    i: int,
) -> bool {
    let hi = (height + i) as u32;
    b0.contains_key(hi) && a[i] == b0[hi] && ann.contains_key(hi) && ann[hi] == a[i].hash
}

/// Whether every block after the first of a drain from `height` is the one
/// buffered at its height, with the hash announced there.
pub open spec fn buffered_run(b0: Map<u32, SyncBlock>, ann: Map<u32, Hash256>, height: u32, a: Seq<SyncBlock>) -> bool {
    forall|i: int| 1 <= i < a.len() ==> #[trigger] run_step_ok(b0, ann, height, a, i)
}

proof fn lemma_buffered_run_push(
    b0: Map<u32, SyncBlock>,
    ann: Map<u32, Hash256>,
    height: u32,
    a: Seq<SyncBlock>,
    x: SyncBlock,
)
    requires
        buffered_run(b0, ann, height, a),
        a.len() >= 1 ==> run_step_ok(b0, ann, height, a.push(x), a.len() as int),
    ensures
        buffered_run(b0, ann, height, a.push(x)),
{
    let a2 = a.push(x);
    assert forall|i: int| 1 <= i < a2.len() implies #[trigger] run_step_ok(b0, ann, height, a2, i) by {
        if i < a.len() {
            assert(run_step_ok(b0, ann, height, a, i));
            assert(a2[i] == a[i]);
        }
    }
}

/// The session state after a drain from `height` that applied `k` blocks.
pub open spec fn state_after_drain(peer_id: u64, height: u32, total_height: u32, k: nat) -> SyncState {
    if k > 0 && height + k - 1 >= total_height {
        SyncState::Synced
    } else {
        SyncState::DownloadingBlocks { peer_id, next_apply_height: (height + k) as u32, total_height }
    }
}

/// Applies the awaited block `first` at `height` to the chain index with
/// `add_block`, then the buffered blocks at the following heights for as
/// long as each is buffered, is the one the peer announced at its height,
/// and is taken by the index; stops once `total_height` is applied. Returns
/// the blocks applied, in order, where each went (`add_block`'s placement),
/// and the session state after them. Each block's retarget window is
/// [`drain_window`]; a buffered block that is looked at leaves the buffer.
/// The index, taken as [`index_model`], ends as [`model_after`] gives it.
pub fn apply_and_drain(
    index: &mut ChainIndex,
    first: SyncBlock,
    height: u32,
    total_height: u32,
    peer_id: u64,
    buffer: &mut KeyedMap<u32, SyncBlock>,
    announced: &KeyedMap<u32, Hash256>,
    params: &ChainParams,
    ancestor_timestamps: &[u64],
) -> (r: (Vec<SyncBlock>, Vec<Placement>, SyncState))
    requires
        retarget_inputs_ok(*params, ancestor_timestamps@),
        height <= total_height,
        forall|x: Hash256|
            old(index).entries().contains_key(x) ==> #[trigger] old(index).entries()[x].height
                < u32::MAX,
    ensures
        r.0@.len() <= total_height - height + 1,

        r.2 == state_after_drain(peer_id, height, total_height, r.0@.len()),
        r.0@.len() > 0 ==> r.0@[0] == first,
        buffered_run(old(buffer).view(), announced.view(), height, r.0@),
        drain_steps_taken(
            index_model(old(index).entries(), old(index).tip_hash()),
            r.0@,
            r.1@,
            *params,
            ancestor_timestamps@,
        ),
        index_model(final(index).entries(), final(index).tip_hash()) == model_after(
            index_model(old(index).entries(), old(index).tip_hash()),
            r.0@,
            r.0@.len() as int,
        ),
        r.0@.len() == 0 ==> final(index).entries() == old(index).entries() && final(index).tip_hash()
            == old(index).tip_hash() && final(buffer).view() == old(buffer).view(),
        (r.0@.len() == 0 || height + r.0@.len() - 1 < total_height) ==> ({
            let b0 = old(buffer).view();
            let k = r.0@.len();
            let nh = (height + k) as u32;
            let next = if k == 0 {
                first
            } else {
                b0[nh]
            };
            &&& k > 0 ==> final(buffer).view() == drained(b0, height as int, height + k)
            &&& (k == 0 || (b0.contains_key(nh) && announced.view().contains_key(nh)
                && announced.view()[nh] == b0[nh].hash)) ==> !model_takes(
                model_after(index_model(old(index).entries(), old(index).tip_hash()), r.0@, k as int),
                next,
                *params,
                drain_window(ancestor_timestamps@, r.0@, k as int),
            )
        }),
        (r.0@.len() > 0 && height + r.0@.len() - 1 >= total_height) ==> final(buffer).view()
            == drained(old(buffer).view(), height as int, height + r.0@.len() - 1),
{
    let ghost m0 = old(index).entries();
    let ghost s0 = index_model(old(index).entries(), old(index).tip_hash());
    let ghost b0 = old(buffer).view();
    let start_tip: Option<Hash256> = index.tip();
    assert(index.entries() == m0 && buffer.view() == b0 && start_tip == old(index).tip_hash());
    let mut times: Vec<u64> = Vec::new();
    let mut t: usize = 0;
    while t < ancestor_timestamps.len()
        invariant
            t <= ancestor_timestamps@.len(),
            times@ == ancestor_timestamps@.take(t as int),
        decreases ancestor_timestamps@.len() - t,
    {
        times.push(ancestor_timestamps[t]);
        proof {
            assert(times@ =~= ancestor_timestamps@.take(t + 1));
        }
        t = t + 1;
    }
    let mut applied: Vec<SyncBlock> = Vec::new();
    let mut placements: Vec<Placement> = Vec::new();
    let mut current: SyncBlock = first;
    let mut h: u32 = height;
    proof {
        assert(times@ =~= ancestor_timestamps@ + Seq::new(0, |i: int| applied@[i].header.timestamp));
        assert(buffer.view() =~= drained(b0, height as int, height as int));
    }
    loop
        invariant
            b0 == old(buffer).view(),
            m0 == old(index).entries(),
            s0 == index_model(old(index).entries(), old(index).tip_hash()),
            height <= h <= total_height,
            applied@.len() == h - height,
            retarget_inputs_ok(*params, ancestor_timestamps@),
            times@ == ancestor_timestamps@ + Seq::new(
                applied@.len() as nat,
                |i: int| applied@[i].header.timestamp,
            ),
            applied@.len() == 0 ==> current == first && index.entries() == m0 && index.tip_hash()
                == old(index).tip_hash(),
            applied@.len() > 0 ==> applied@[0] == first,
            h > height ==> b0.contains_key(h) && current == b0[h] && announced.view().contains_key(h)
                && announced.view()[h] == current.hash,
            buffered_run(b0, announced.view(), height, applied@),
            index.tip_hash() matches Some(tt) ==> index.entries().contains_key(tt),
            index_model(index.entries(), index.tip_hash()) == model_after(s0, applied@, applied@.len() as int),
            drain_steps_taken(s0, applied@, placements@, *params, ancestor_timestamps@),
            forall|x: Hash256|
                index.entries().contains_key(x) ==> #[trigger] index.entries()[x].height < u32::MAX
                    + applied@.len(),
            buffer.view() == drained(b0, height as int, h as int),
        decreases total_height - h,
    {
        let w: Vec<u64> = copy_last(&times, DIFFICULTY_WINDOW);
        let ghost m_pre = index.entries();
        let ghost tip_pre = index.tip_hash();
        let ghost s_pre = index_model(m_pre, tip_pre);
        proof {
            let prev = current.header.prev_block_hash;
            if !is_zero(prev) && m_pre.contains_key(prev) {
                lemma_retarget_inputs_defined(m_pre[prev].header, current.header.timestamp, *params, w@);
            }
            assert(w@ == drain_window(ancestor_timestamps@, applied@, applied@.len() as int));
            if m_pre.contains_key(prev) {
                assert(s_pre.0[prev] == m_pre[prev].header);
            }
        }
        let placed = match index.add_block(current.hash, current.header, current.work, params, w.as_slice()) {
            Err(_) => {
                proof {
                    if applied@.len() == 0 {
                        assert(drained(b0, height as int, height as int) =~= b0);
                    }
                    assert(!model_takes(s_pre, current, *params, w@));
                }
                let st = if applied.len() == 0 {
                    SyncState::DownloadingBlocks { peer_id, next_apply_height: height, total_height }
                } else {
                    SyncState::DownloadingBlocks { peer_id, next_apply_height: h, total_height }
                };
                return (applied, placements, st);
            },
            Ok(p) => p,
        };
        proof {
            let m2 = index.entries();
            let prev = current.header.prev_block_hash;
            let st = model_step(s_pre, current);
            assert(model_takes(s_pre, current, *params, w@));
            if !is_zero(prev) {
                assert(s_pre.1[prev] == m_pre[prev].cumulative_work.value());
            }
            if let Some(tt) = tip_pre {
                assert(s_pre.1[tt] == m_pre[tt].cumulative_work.value());
            }
            assert(index_model(m2, index.tip_hash()).0 =~= st.0.0);
            assert(index_model(m2, index.tip_hash()).1 =~= st.0.1);
            assert(placed == st.1);
        }
        let ghost before = applied@;
        let ghost before_p = placements@;
        applied.push(current);
        placements.push(placed);
        times.push(current.header.timestamp);
        proof {
            assert(times@ =~= ancestor_timestamps@ + Seq::new(
                applied@.len() as nat,
                |i: int| applied@[i].header.timestamp,
            ));
            assert(applied@ == before.push(current));
            lemma_model_after_push(s0, before, current, before.len() as int);
            assert(model_after(s0, applied@, applied@.len() as int) == model_step(
                model_after(s0, applied@, before.len() as int),
                current,
            ).0);
            assert forall|k: int|
                0 <= k < applied@.len() implies #[trigger] drain_step_taken(
                    s0,
                    applied@,
                    *params,
                    ancestor_timestamps@,
                    k,
                ) && placements@[k] == model_step(model_after(s0, applied@, k), applied@[k]).1 by {
                lemma_model_after_push(s0, before, current, k);
                assert(drain_window(ancestor_timestamps@, applied@, k) =~= drain_window(
                    ancestor_timestamps@,
                    before,
                    k,
                )) by {
                    assert(Seq::new(k as nat, |i: int| applied@[i].header.timestamp) =~= Seq::new(
                        k as nat,
                        |i: int| before[i].header.timestamp,
                    ));
                }
                if k < before.len() {
                    assert(applied@[k] == before[k]);
                    assert(placements@[k] == before_p[k]);
                    assert(drain_step_taken(s0, before, *params, ancestor_timestamps@, k));
                }
            }
            assert(drain_steps_taken(s0, applied@, placements@, *params, ancestor_timestamps@));
            if before.len() >= 1 {
                assert((height + before.len()) as u32 == h);
                assert(run_step_ok(b0, announced.view(), height, before.push(current), before.len() as int));
            }
            lemma_buffered_run_push(b0, announced.view(), height, before, current);
        }
        if h >= total_height {
            return (applied, placements, SyncState::Synced);
        }
        h = h + 1;
        let next = buffer.remove(&h);
        proof {
            assert(buffer.view() =~= drained(b0, height as int, h as int));
        }
        match next {
            None => {
                return (
                    applied,
                    placements,
                    SyncState::DownloadingBlocks { peer_id, next_apply_height: h, total_height },
                );
            },
            Some(b) => {
                let expected = announced.get(&h);
                let matches_announced = match expected {
                    Some(x) => hashes_equal(x, &b.hash),
                    None => false,
                };
                if !matches_announced {
                    return (
                        applied,
                        placements,
                        SyncState::DownloadingBlocks { peer_id, next_apply_height: h, total_height },
                    );
                }
                current = b;
            },
        }
    }
}

} // verus!
