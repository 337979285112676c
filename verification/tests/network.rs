use ferrous::consensus::block::{BlockHeader, U256};
use ferrous::consensus::params::Network;
use ferrous::consensus::transaction::{Transaction, TxInput, TxOutput};
use ferrous::consensus::utxo::{OutPoint, UtxoEntry, UtxoSet};
use ferrous::network::addrman::{get_seed_nodes, AddressManager, PeerAddress};
use ferrous::network::mempool::{NetworkMempool, MEMPOOL_MAX_ENTRIES};
use ferrous::network::peer::{HandshakeError, Peer, PeerState, VersionInfo};
use ferrous::network::peers::{admit_inbound, admit_outbound, is_trusted_peer, outbound_needed, ConnectRefusal, PeerTable};
use ferrous::network::recovery::{check_partition, RecoveryStage, RecoveryStatus};
use ferrous::consensus::chain::ChainError;
use ferrous::consensus::index::Placement;
use ferrous::network::relay::{
    mark_announced, plan_inv, react_to_block, BlockReaction, InvItem, InvPlan, INV_BLOCK, INV_TX,
};
use ferrous::consensus::outpoint_map::KeyedMap;
use ferrous::network::sync::{
    begin_sync, fill_window, find_first_missing, recheck_window, select_best_peer,
    check_header, classify_sync_block, headers_for_locator, download_window_end, next_fork_start, should_download_blocks,
    state_after_apply, process_headers_batch, apply_and_drain, SyncBlock, HeaderError, HeadersNext, HeadersOutcome, SyncBlockAction, SyncState,
};

fn work(v: u64) -> U256 {
    let mut b = [0u8; 32];
    b[..8].copy_from_slice(&v.to_le_bytes());
    U256(b)
}

fn addr(last: u8, port: u16) -> PeerAddress {
    let mut ip = [0u8; 16];
    ip[10] = 0xff;
    ip[11] = 0xff;
    ip[15] = last;
    PeerAddress { ip, port }
}

#[test]
fn sync_state_is_syncing() {
    assert!(!SyncState::Idle.is_syncing());
    assert!(!SyncState::Synced.is_syncing());
    assert!(SyncState::DownloadingBlocks { peer_id: 1, next_apply_height: 1, total_height: 2 }.is_syncing());
    assert!(SyncState::DownloadingHeaders {
        peer_id: 1,
        best_header_height: 0,
        best_header_hash: [0; 32],
        fork_start_height: None
    }
    .is_syncing());
}

#[test]
fn window_end_is_capped() {
    assert_eq!(download_window_end(10, 1_000), 74);
    assert_eq!(download_window_end(10, 20), 21);
}

#[test]
fn download_decision() {
    assert!(!should_download_blocks(11, 10, 0, None, work(0), None));
    assert!(should_download_blocks(5, 10, 4, None, work(0), None));
    assert!(should_download_blocks(5, 10, 10, Some(work(9)), work(8), None));
    assert!(!should_download_blocks(5, 10, 10, Some(work(8)), work(8), None));
    assert!(should_download_blocks(5, 10, 10, Some(work(8)), work(8), Some(7)));
    assert!(!should_download_blocks(5, 10, 10, Some(work(7)), work(8), Some(7)));
    assert!(should_download_blocks(5, 10, 10, None, work(8), Some(7)));
}

#[test]
fn fork_start_detection() {
    assert_eq!(next_fork_start(None, 5, 10, Some([1u8; 32]), &[2u8; 32]), Some(5));
    assert_eq!(next_fork_start(None, 5, 10, Some([2u8; 32]), &[2u8; 32]), None);
    assert_eq!(next_fork_start(None, 11, 10, None, &[2u8; 32]), None);
    assert_eq!(next_fork_start(None, 5, 10, None, &[2u8; 32]), Some(5));
    assert_eq!(next_fork_start(Some(3), 5, 10, None, &[2u8; 32]), Some(3));
}

#[test]
fn sync_block_classification() {
    let downloading = SyncState::DownloadingBlocks { peer_id: 1, next_apply_height: 10, total_height: 20 };
    let h = [7u8; 32];
    let p = [6u8; 32];
    assert_eq!(classify_sync_block(&downloading, None, &h, &p, None, None, 0, false), SyncBlockAction::NotTracked);
    assert_eq!(classify_sync_block(&SyncState::Idle, Some(12), &h, &p, None, None, 0, false), SyncBlockAction::Buffer { height: 12 });
    assert_eq!(classify_sync_block(&downloading, Some(9), &h, &p, None, None, 0, false), SyncBlockAction::Stale);
    assert_eq!(
        classify_sync_block(&downloading, Some(12), &h, &p, None, None, 0, false),
        SyncBlockAction::BufferAhead { height: 12, rerequest_awaited: false }
    );
    assert_eq!(
        classify_sync_block(&downloading, Some(12), &h, &p, None, None, 63, false),
        SyncBlockAction::BufferAhead { height: 12, rerequest_awaited: true }
    );
    assert_eq!(classify_sync_block(&downloading, Some(10), &h, &p, Some([8u8; 32]), None, 0, false), SyncBlockAction::Rerequest);
    assert_eq!(classify_sync_block(&downloading, Some(10), &h, &p, Some(h), Some([5u8; 32]), 0, false), SyncBlockAction::Rerequest);
    assert_eq!(classify_sync_block(&downloading, Some(10), &h, &p, Some(h), Some(p), 0, false), SyncBlockAction::Apply { height: 10 });
    assert_eq!(classify_sync_block(&downloading, Some(10), &h, &p, Some(h), None, 0, false), SyncBlockAction::Apply { height: 10 });
}

#[test]
fn buffer_size_counts_the_kept_block_once() {
    let downloading = SyncState::DownloadingBlocks { peer_id: 3, next_apply_height: 10, total_height: 20 };
    let h = [1u8; 32];
    let p = [2u8; 32];
    assert_eq!(
        classify_sync_block(&downloading, Some(12), &h, &p, None, None, 63, true),
        SyncBlockAction::BufferAhead { height: 12, rerequest_awaited: false }
    );
    assert_eq!(
        classify_sync_block(&downloading, Some(12), &h, &p, None, None, 64, true),
        SyncBlockAction::BufferAhead { height: 12, rerequest_awaited: true }
    );
}

#[test]
fn state_after_applying() {
    assert_eq!(state_after_apply(3, 20, 20), SyncState::Synced);
    assert_eq!(
        state_after_apply(3, 19, 20),
        SyncState::DownloadingBlocks { peer_id: 3, next_apply_height: 20, total_height: 20 }
    );
}

fn header(prev: [u8; 32], nonce: u64) -> BlockHeader {
    BlockHeader { version: 1, prev_block_hash: prev, merkle_root: [0u8; 32], timestamp: 100, n_bits: 0x207fffff, nonce }
}

#[test]
fn header_checks() {
    let params = Network::Regtest.params();
    let parent = header([0u8; 32], 0);
    let mut good = None;
    for n in 0..200u64 {
        let h = header(parent.hash(), n);
        if h.check_proof_of_work().unwrap() {
            good = Some(h);
            break;
        }
    }
    let good = good.unwrap();
    assert_eq!(check_header(&parent, &good, &params, &[], &[], 1_000), Ok(()));
    let unlinked = header([1u8; 32], good.nonce);
    assert_eq!(check_header(&parent, &unlinked, &params, &[], &[], 1_000), Err(HeaderError::NotConnected));
    let mut bad_bits = good;
    bad_bits.n_bits = 0x21800000;
    assert_eq!(check_header(&parent, &bad_bits, &params, &[], &[], 1_000), Err(HeaderError::PowCheckFailed));
}

#[test]
fn handshake_outbound_and_inbound() {
    let info = VersionInfo { version: 70015, services: 1, start_height: 42, nonce: 9 };
    let mut out = Peer::new(1);
    assert_eq!(out.handle_version(&info), Err(HandshakeError::UnexpectedMessage(PeerState::Connecting)));
    out.version_sent();
    assert_eq!(out.handle_version(&info), Ok(()));
    assert_eq!(out.state, PeerState::VersionReceived);
    assert_eq!(out.start_height, 42);
    assert_eq!(out.handle_verack(), Ok(()));
    assert!(out.is_active());

    let mut inb = Peer::new_inbound(2);
    assert_eq!(inb.handle_verack(), Err(HandshakeError::UnexpectedMessage(PeerState::Connected)));
    let old = VersionInfo { version: 70000, ..info };
    assert_eq!(inb.handle_version(&old), Err(HandshakeError::VersionTooLow(70000)));
    assert_eq!(inb.state, PeerState::Connected);
    assert_eq!(inb.handle_version(&info), Ok(()));
    assert_eq!(inb.handle_verack(), Ok(()));
    assert_eq!(inb.state, PeerState::Active);
}

#[test]
fn partition_signs() {
    assert!(check_partition(0, 301, 0));
    assert!(!check_partition(0, 300, 0));
    assert!(check_partition(5, 1801, 5));
    assert!(check_partition(0, 10, 4));
    assert!(!check_partition(0, 10, 3));
    assert!(!check_partition(2, 10, 4));
}

fn pay(prev: [u8; 32], v: u64) -> Transaction {
    Transaction {
        version: 1,
        inputs: vec![TxInput { prev_txid: prev, prev_index: 0, script_sig: vec![], sequence: 0 }],
        outputs: vec![TxOutput { value: v, script_pubkey: vec![] }],
        witnesses: vec![],
        locktime: 0,
    }
}

#[test]
fn test_mempool_lifecycle() {
    let mut utxos = UtxoSet::new();
    utxos.insert(
        OutPoint { txid: [1u8; 32], vout: 0 },
        UtxoEntry { output: TxOutput { value: 10, script_pubkey: vec![] }, coinbase: false, height: 0 },
    );
    let mut pool = NetworkMempool::new();
    let tx = pay([1u8; 32], 5);
    let txid = tx.txid();
    assert_eq!(pool.add_transaction(tx, &utxos), Ok(true));
    assert!(pool.has_transaction(&txid));
    assert_eq!(pool.size(), 1);
    assert_eq!(pool.add_transaction(pay([1u8; 32], 5), &utxos), Ok(false));
    let missing = pool.add_transaction(pay([2u8; 32], 5), &utxos);
    assert_eq!(missing, Err("Input already spent or doesn't exist".to_string()));
    pool.remove_block_transactions(&[pay([1u8; 32], 5)]);
    assert!(!pool.has_transaction(&txid));
    assert_eq!(pool.size(), 0);
    assert_eq!(MEMPOOL_MAX_ENTRIES, 5000);
}

#[test]
fn test_address_manager() {
    let mut addrman = AddressManager::new(10);
    let a = addr(1, 8333);
    addrman.add_address(a, 1, 100);
    assert_eq!(addrman.size(), 1);
    let addrs = addrman.get_random_addresses(1);
    assert_eq!(addrs.len(), 1);
    assert_eq!(addrs[0], a);
    addrman.mark_tried(&a, 200);
    addrman.mark_success(&a, 201);
    let all = addrman.get_all_addresses();
    assert_eq!(all.len(), 1);
    assert_eq!(all[0].addr.port, 8333);
    assert_eq!(all[0].last_success, Some(201));
    assert_eq!(all[0].attempts, 0);
}

#[test]
fn address_manager_limits_and_failures() {
    let mut m = AddressManager::new(2);
    m.add_address(addr(1, 1), 0, 10);
    m.add_address(addr(2, 1), 0, 10);
    m.add_address(addr(3, 1), 0, 10);
    assert_eq!(m.size(), 2);
    m.add_address(addr(1, 1), 5, 20);
    assert_eq!(m.size(), 2);
    assert_eq!(m.first_addresses(1)[0].services, 5);
    for t in 0..3 {
        m.mark_tried(&addr(2, 1), t);
    }
    assert_eq!(m.candidate_addresses(), vec![addr(1, 1)]);
    m.cleanup_old(1, 86_410);
    assert_eq!(m.size(), 1);
    assert_eq!(m.first_addresses(5)[0].addr, addr(1, 1));
    m.cleanup_old(1, 86_420);
    assert_eq!(m.size(), 0);
}

#[test]
fn seeds() {
    let s = get_seed_nodes(Network::Regtest);
    assert_eq!(s.len(), 1);
    assert_eq!(s[0].port, 18444);
    assert_eq!(&s[0].ip[12..], &[127, 0, 0, 1]);
    assert!(get_seed_nodes(Network::Mainnet).is_empty());
}

#[test]
fn inventory_plan() {
    let tx1 = InvItem { inv_type: INV_TX, hash: [1u8; 32] };
    let tx2 = InvItem { inv_type: INV_TX, hash: [2u8; 32] };
    let blk = InvItem { inv_type: INV_BLOCK, hash: [3u8; 32] };
    match plan_inv(&[tx1, tx2, blk], &[false, true, true]) {
        InvPlan::GetData(v) => {
            assert_eq!(v.len(), 1);
            assert_eq!(v[0].hash, [1u8; 32]);
        }
        _ => panic!("expected getdata"),
    }
    assert!(matches!(plan_inv(&[tx1, blk], &[false, false]), InvPlan::RequestHeaders));
}

fn chain_of(n: u8) -> (Vec<[u8; 32]>, Vec<BlockHeader>) {
    let hashes: Vec<[u8; 32]> = (0..n).map(|i| [i + 1; 32]).collect();
    let headers: Vec<BlockHeader> = (0..n).map(|i| header([i; 32], i as u64)).collect();
    (hashes, headers)
}

#[test]
fn headers_served_after_first_known_locator_entry() {
    let (hashes, headers) = chain_of(5);
    let locator = vec![[99u8; 32], [2u8; 32], [1u8; 32]];
    let served = headers_for_locator(&hashes, &headers, &locator, &[0u8; 32]);
    assert_eq!(served, headers[2..].to_vec());
}

#[test]
fn headers_served_up_to_stop_hash() {
    let (hashes, headers) = chain_of(5);
    let served = headers_for_locator(&hashes, &headers, &[[1u8; 32]], &[4u8; 32]);
    assert_eq!(served, headers[1..4].to_vec());
}

#[test]
fn headers_served_from_genesis_for_unknown_locator() {
    let (hashes, headers) = chain_of(3);
    let served = headers_for_locator(&hashes, &headers, &[[42u8; 32]], &[0u8; 32]);
    assert_eq!(served, headers);
}

#[test]
fn headers_served_are_capped() {
    let n: usize = 2100;
    let hashes: Vec<[u8; 32]> = (0..n).map(|i| { let mut h = [0u8; 32]; h[..8].copy_from_slice(&(i as u64 + 1).to_le_bytes()); h }).collect();
    let headers: Vec<BlockHeader> = (0..n).map(|i| header([0u8; 32], i as u64)).collect();
    let served = headers_for_locator(&hashes, &headers, &[], &[0u8; 32]);
    assert_eq!(served.len(), 2000);
    assert_eq!(served[0].nonce, 0);
}

fn peer_chain(n: u32) -> KeyedMap<u32, [u8; 32]> {
    let mut m = KeyedMap::new();
    for h in 1..=n {
        m.insert(h, [h as u8; 32]);
    }
    m
}

#[test]
fn window_requests_blocks_not_in_flight() {
    let peer = peer_chain(100);
    let mut inflight: KeyedMap<[u8; 32], ()> = KeyedMap::new();
    inflight.insert([3u8; 32], ());
    let pending = fill_window(&peer, &mut inflight, 1, 5);
    assert_eq!(pending, vec![[1u8; 32], [2u8; 32], [4u8; 32], [5u8; 32]]);
    assert_eq!(inflight.len(), 5);
    // everything already in flight: nothing more to ask
    assert!(fill_window(&peer, &mut inflight, 1, 5).is_empty());
    // the window holds at most DOWNLOAD_WINDOW heights
    let mut fresh: KeyedMap<[u8; 32], ()> = KeyedMap::new();
    assert_eq!(fill_window(&peer, &mut fresh, 10, 100).len(), 64);
}

#[test]
fn stalled_window_is_asked_again() {
    let peer = peer_chain(10);
    let mut inflight: KeyedMap<[u8; 32], ()> = KeyedMap::new();
    let state = SyncState::DownloadingBlocks { peer_id: 4, next_apply_height: 2, total_height: 3 };
    let first = recheck_window(&state, &peer, &mut inflight).unwrap();
    assert_eq!(first, (4, vec![[2u8; 32], [3u8; 32]]));
    let again = recheck_window(&state, &peer, &mut inflight).unwrap();
    assert_eq!(again, (4, vec![[2u8; 32]]));
    assert_eq!(recheck_window(&SyncState::Synced, &peer, &mut inflight), None);
}

#[test]
fn best_peer_is_first_highest() {
    assert_eq!(select_best_peer(&[]), None);
    assert_eq!(select_best_peer(&[(7, None)]), Some(7));
    assert_eq!(select_best_peer(&[(1, Some(5)), (2, Some(9)), (3, Some(9)), (4, None)]), Some(2));
}

#[test]
fn sync_begins_at_best_known_point() {
    let tip = Some((10u32, [1u8; 32]));
    let best = Some((20u32, [2u8; 32]));
    let s = begin_sync(&SyncState::Idle, 3, 10, best, tip).unwrap();
    assert_eq!(
        s,
        SyncState::DownloadingHeaders { peer_id: 3, best_header_height: 20, best_header_hash: [2u8; 32], fork_start_height: None }
    );
    let s = begin_sync(&SyncState::Synced, 3, 10, Some((5, [2u8; 32])), tip).unwrap();
    assert_eq!(
        s,
        SyncState::DownloadingHeaders { peer_id: 3, best_header_height: 10, best_header_hash: [1u8; 32], fork_start_height: None }
    );
    let s = begin_sync(&SyncState::Idle, 3, 0, None, None).unwrap();
    assert_eq!(
        s,
        SyncState::DownloadingHeaders { peer_id: 3, best_header_height: 0, best_header_hash: [0u8; 32], fork_start_height: None }
    );
    let busy = SyncState::DownloadingHeaders { peer_id: 1, best_header_height: 0, best_header_hash: [0u8; 32], fork_start_height: None };
    assert_eq!(begin_sync(&busy, 3, 0, None, None), None);
}

#[test]
fn first_missing_height() {
    assert_eq!(find_first_missing(&[(3, true), (5, false), (4, false), (9, false)], 9), 4);
    assert_eq!(find_first_missing(&[(1, true), (2, true)], 2), 3);
    assert_eq!(find_first_missing(&[], 7), 8);
}

#[test]
fn random_addresses_come_from_the_candidates() {
    let mut m = AddressManager::new(10);
    for i in 1..=5u8 {
        m.add_address(addr(i, 1), 0, 10);
    }
    for t in 0..3 {
        m.mark_tried(&addr(4, 1), t);
    }
    let mut picked = m.get_random_addresses(10);
    assert_eq!(picked.len(), 4);
    picked.sort_by_key(|a| a.ip[15]);
    assert_eq!(picked, vec![addr(1, 1), addr(2, 1), addr(3, 1), addr(5, 1)]);
    let two = m.get_random_addresses(2);
    assert_eq!(two.len(), 2);
    assert_ne!(two[0], two[1]);
    assert!(two.iter().all(|a| *a != addr(4, 1)));
    assert_eq!(m.get_all_addresses().len(), 5);
}

#[test]
fn blocks_are_announced_once() {
    let mut announced: KeyedMap<[u8; 32], ()> = KeyedMap::new();
    assert!(mark_announced(&mut announced, [1u8; 32]));
    assert!(!mark_announced(&mut announced, [1u8; 32]));
    assert!(mark_announced(&mut announced, [2u8; 32]));
    assert_eq!(announced.len(), 2);
}

#[test]
fn reactions_to_received_blocks() {
    assert_eq!(
        react_to_block(&Ok(Placement::NewTip { reorg: false }), false),
        BlockReaction::Accepted { announce: true, clear_mempool: true }
    );
    assert_eq!(
        react_to_block(&Ok(Placement::NewTip { reorg: true }), true),
        BlockReaction::Accepted { announce: false, clear_mempool: true }
    );
    assert_eq!(
        react_to_block(&Ok(Placement::SideChain), false),
        BlockReaction::Accepted { announce: false, clear_mempool: false }
    );
    assert_eq!(react_to_block(&Err(ChainError::OrphanBlock), false), BlockReaction::RequestHeaders);
    assert_eq!(react_to_block(&Err(ChainError::BlockNotFound), false), BlockReaction::Refused);
}

#[test]
fn recovery_climbs_its_stages() {
    let mut st = RecoveryStatus::new();
    let stages: Vec<RecoveryStage> = (0..7).map(|_| st.next_stage()).collect();
    assert_eq!(
        stages,
        vec![
            RecoveryStage::KnownPeers,
            RecoveryStage::Seeds,
            RecoveryStage::Aggressive,
            RecoveryStage::Aggressive,
            RecoveryStage::Aggressive,
            RecoveryStage::FullReset,
            RecoveryStage::FullReset,
        ]
    );
    assert!(st.partition_detected);
    assert_eq!(st.recovery_attempts, 7);
    st.on_healthy(0);
    assert!(st.partition_detected);
    st.on_healthy(2);
    assert!(!st.partition_detected);
    assert_eq!(st.recovery_attempts, 0);
    assert_eq!(st.next_stage(), RecoveryStage::KnownPeers);
    st.record_peer_count(5);
    assert_eq!(st.last_peer_count, 5);
}

#[test]
fn mempool_lookup_and_clear() {
    let mut utxos = UtxoSet::new();
    utxos.insert(
        OutPoint { txid: [1u8; 32], vout: 0 },
        UtxoEntry { output: TxOutput { value: 10, script_pubkey: vec![] }, coinbase: false, height: 0 },
    );
    let mut pool = NetworkMempool::new();
    let tx = pay([1u8; 32], 7);
    let txid = tx.txid();
    pool.add_transaction(tx, &utxos).unwrap();
    assert_eq!(pool.get_transaction(&txid).unwrap().outputs[0].value, 7);
    assert!(pool.get_transaction(&[9u8; 32]).is_none());
    pool.clear();
    assert_eq!(pool.size(), 0);
    assert!(pool.get_transaction(&txid).is_none());
}

#[test]
fn peer_table_counts_and_updates() {
    let mut table = PeerTable::new();
    let mut a = Peer::new(1);
    a.state = PeerState::Active;
    let mut b = Peer::new(2);
    b.state = PeerState::Active;
    b.inbound = true;
    let c = Peer::new(3);
    table.insert(a);
    table.insert(b);
    table.insert(c);
    assert_eq!(table.get_connected_peers(), vec![1, 2, 3]);
    assert_eq!(table.active_peer_count(), 2);
    assert_eq!(table.outbound_peer_count(), 1);
    table.update_peer_height(2, 50);
    table.update_peer_height(2, 40);
    assert_eq!(table.get_peer_start_height(2), Some(50));
    assert_eq!(table.get_peer_start_height(9), None);
    let mut a2 = Peer::new(1);
    a2.start_height = 7;
    table.insert(a2);
    assert_eq!(table.get_connected_peers(), vec![1, 2, 3]);
    assert_eq!(table.active_peer_count(), 1);
    assert_eq!(table.get_peer(1).unwrap().start_height, 7);
    assert_eq!(table.disconnect_peer(2).unwrap().id, 2);
    assert!(table.disconnect_peer(2).is_none());
    assert_eq!(table.get_connected_peers(), vec![1, 3]);
}

#[test]
fn window_asks_once_for_a_repeated_hash() {
    let mut peer: KeyedMap<u32, [u8; 32]> = KeyedMap::new();
    peer.insert(1, [7u8; 32]);
    peer.insert(2, [7u8; 32]);
    peer.insert(3, [8u8; 32]);
    let mut inflight: KeyedMap<[u8; 32], ()> = KeyedMap::new();
    assert_eq!(fill_window(&peer, &mut inflight, 1, 3), vec![[7u8; 32], [8u8; 32]]);
    assert_eq!(inflight.len(), 2);
}

#[test]
fn mempool_refuses_when_full() {
    let mut utxos = UtxoSet::new();
    let n = MEMPOOL_MAX_ENTRIES + 1;
    for i in 0..n {
        let mut prev = [0u8; 32];
        prev[..8].copy_from_slice(&(i as u64).to_le_bytes());
        utxos.insert(
            OutPoint { txid: prev, vout: 0 },
            UtxoEntry { output: TxOutput { value: 10, script_pubkey: vec![] }, coinbase: false, height: 0 },
        );
    }
    let mut pool = NetworkMempool::new();
    for i in 0..n {
        let mut prev = [0u8; 32];
        prev[..8].copy_from_slice(&(i as u64).to_le_bytes());
        let r = pool.add_transaction(pay(prev, 1), &utxos);
        if i < MEMPOOL_MAX_ENTRIES {
            assert_eq!(r, Ok(true));
        } else {
            assert_eq!(r, Err("Mempool full (5000 entries): transaction rejected".to_string()));
        }
    }
    assert_eq!(pool.size(), MEMPOOL_MAX_ENTRIES);
}

fn mined_child(parent: &BlockHeader) -> BlockHeader {
    for n in 0..1000u64 {
        let mut h = header(parent.hash(), n);
        h.timestamp = parent.timestamp + 1;
        if h.check_proof_of_work().unwrap() {
            return h;
        }
    }
    panic!("no nonce meets the regtest target");
}

#[test]
fn header_batch_tracks_best_fork_and_download_start() {
    let params = Network::Regtest.params();
    let parent = header([0u8; 32], 0);
    let a = mined_child(&parent);
    let b = mined_child(&a);
    let c = mined_child(&b);
    let batch = vec![a, b, c];
    let mut canonical = vec![[9u8; 32]; 7];
    canonical[5] = a.hash();
    let have = vec![true, true, false, false];
    let r = process_headers_batch(&batch, &parent, 4, &canonical, &have, &params, &[], &[100], 10_000);
    assert_eq!(
        r,
        HeadersOutcome::Stored {
            anchor: (4, parent.hash()),
            first_height: 5,
            fork_height: Some(6),
            best: (c.hash(), 7),
            next: HeadersNext::Download { from: 6, to: 7 },
        }
    );
}

#[test]
fn header_batch_on_our_chain_with_every_block_stored() {
    let params = Network::Regtest.params();
    let parent = header([0u8; 32], 0);
    let a = mined_child(&parent);
    let b = mined_child(&a);
    let canonical = vec![[7u8; 32], parent.hash(), a.hash()];
    let have = vec![true, true, true];
    let r = process_headers_batch(&[a, b], &parent, 1, &canonical, &have, &params, &[], &[100], 10_000);
    assert_eq!(
        r,
        HeadersOutcome::Stored {
            anchor: (1, parent.hash()),
            first_height: 2,
            fork_height: None,
            best: (b.hash(), 3),
            next: HeadersNext::Download { from: 4, to: 3 },
        }
    );
}

#[test]
fn header_batch_refuses_at_first_bad_header() {
    let params = Network::Regtest.params();
    let parent = header([0u8; 32], 0);
    let a = mined_child(&parent);
    let stray = header([1u8; 32], 0);
    let have = vec![true, false, false];
    let r = process_headers_batch(&[a, stray], &parent, 0, &[], &have, &params, &[], &[100], 10_000);
    assert_eq!(r, HeadersOutcome::Refused(1, HeaderError::NotConnected));
    let r = process_headers_batch(&[stray, a], &parent, 0, &[], &have, &params, &[], &[100], 10_000);
    assert_eq!(r, HeadersOutcome::Refused(0, HeaderError::NotConnected));
    let r = process_headers_batch(&[], &parent, 0, &[], &[true], &params, &[], &[100], 10_000);
    assert_eq!(r, HeadersOutcome::Empty);
}

#[test]
fn full_header_batch_asks_for_more() {
    let params = Network::Regtest.params();
    let parent = header([0u8; 32], 0);
    let mut batch = Vec::new();
    let mut prev = parent;
    for _ in 0..2000 {
        let h = mined_child(&prev);
        batch.push(h);
        prev = h;
    }
    let have = vec![false; 2001];
    let r = process_headers_batch(&batch, &parent, 0, &[], &have, &params, &[], &[100], 10_000);
    assert_eq!(
        r,
        HeadersOutcome::Stored {
            anchor: (0, parent.hash()),
            first_height: 1,
            fork_height: None,
            best: (prev.hash(), 2000),
            next: HeadersNext::RequestMore(prev.hash()),
        }
    );
}

#[test]
fn outbound_admission_limits() {
    let a = vec![10u8, 0, 0, 1];
    let b = vec![10u8, 0, 0, 2];
    assert_eq!(admit_outbound(&[a.clone()], 1, &b), Err(ConnectRefusal::MaxPeers));
    assert_eq!(admit_outbound(&[a.clone(), b.clone()], 3, &a), Err(ConnectRefusal::AlreadyConnected));
    assert_eq!(admit_outbound(&[a.clone()], 2, &b), Ok(()));
    assert_eq!(admit_outbound(&[], 0, &b), Err(ConnectRefusal::MaxPeers));
    assert_eq!(admit_outbound(&[], 8, &b), Ok(()));
}

#[test]
fn discovery_fills_only_the_outbound_shortfall() {
    assert_eq!(outbound_needed(3, 8), 5);
    assert_eq!(outbound_needed(8, 8), 0);
    assert_eq!(outbound_needed(10, 8), 0);
    assert_eq!(outbound_needed(0, 0), 0);
}

fn mined_at(parent: &BlockHeader, timestamp: u64) -> BlockHeader {
    for n in 0..1000u64 {
        let mut h = header(parent.hash(), n);
        h.timestamp = timestamp;
        if h.check_proof_of_work().unwrap() {
            return h;
        }
    }
    panic!("no nonce meets the regtest target");
}

#[test]
fn header_timestamp_rule() {
    let params = Network::Regtest.params();
    let parent = header([0u8; 32], 0);
    let child = mined_at(&parent, 101);
    assert_eq!(check_header(&parent, &child, &params, &[], &[90, 100, 95], 1_000), Ok(()));
    assert_eq!(
        check_header(&parent, &child, &params, &[], &[101, 50, 120], 1_000),
        Err(HeaderError::TimestampTooEarly)
    );
    let far = mined_at(&parent, 9_000);
    assert_eq!(check_header(&parent, &far, &params, &[], &[100], 1_000), Err(HeaderError::TimestampTooFar));
    assert_eq!(check_header(&parent, &far, &params, &[], &[100], 1_800), Ok(()));
}

#[test]
fn header_batch_refuses_a_stale_timestamp() {
    let params = Network::Regtest.params();
    let parent = header([0u8; 32], 0);
    let a = mined_at(&parent, 101);
    let b = mined_at(&a, 100);
    let have = vec![true, false, false];
    let r = process_headers_batch(&[a, b], &parent, 0, &[], &have, &params, &[], &[100, 100, 100], 10_000);
    assert_eq!(r, HeadersOutcome::Refused(1, HeaderError::TimestampTooEarly));
}

#[test]
fn inbound_admission_limits() {
    let a = vec![10u8, 0, 0, 1];
    let b = vec![10u8, 0, 0, 2];
    assert_eq!(admit_inbound(&[a.clone()], 4, &a, false), Err(ConnectRefusal::AlreadyConnected));
    assert_eq!(admit_inbound(&[a.clone()], 4, &a, true), Ok(()));
    assert_eq!(admit_inbound(&[a.clone()], 1, &a, false), Err(ConnectRefusal::AlreadyConnected));
    assert_eq!(admit_inbound(&[a.clone()], 1, &a, true), Err(ConnectRefusal::MaxPeers));
    assert_eq!(admit_inbound(&[a.clone()], 1, &b, false), Err(ConnectRefusal::MaxPeers));
    assert_eq!(admit_inbound(&[a.clone()], 2, &b, false), Ok(()));
}

fn sync_block(h: BlockHeader) -> SyncBlock {
    let mut w = [0u8; 32];
    w[0] = 1;
    SyncBlock { hash: h.hash(), header: h, work: U256(w) }
}

fn drain_setup() -> (SyncBlock, SyncBlock, SyncBlock) {
    let g = header([0u8; 32], 0);
    let b1 = header(g.hash(), 1);
    let b2 = header(b1.hash(), 2);
    (sync_block(g), sync_block(b1), sync_block(b2))
}

#[test]
fn drain_applies_the_buffered_run() {
    let params = Network::Regtest.params();
    let (g, b1, b2) = drain_setup();
    let mut index = ferrous::consensus::index::ChainIndex::new();
    let mut buffer = KeyedMap::new();
    buffer.insert(1u32, b1);
    buffer.insert(2u32, b2);
    let mut announced = KeyedMap::new();
    announced.insert(1u32, b1.hash);
    announced.insert(2u32, b2.hash);
    let (applied, placed, state) = apply_and_drain(&mut index, g, 0, 2, 5, &mut buffer, &announced, &params, &[]);
    assert_eq!(applied, vec![g, b1, b2]);
    assert_eq!(placed, vec![Placement::NewTip { reorg: false }; 3]);
    assert_eq!(index.tip(), Some(b2.hash));
    assert_eq!(state, SyncState::Synced);
    assert_eq!(buffer.len(), 0);
    assert!(index.has_block(&b2.hash));
}

#[test]
fn drain_stops_at_a_gap_or_a_stranger() {
    let params = Network::Regtest.params();
    let (g, b1, b2) = drain_setup();
    let mut index = ferrous::consensus::index::ChainIndex::new();
    let mut buffer = KeyedMap::new();
    buffer.insert(1u32, b1);
    buffer.insert(2u32, b2);
    let mut announced = KeyedMap::new();
    announced.insert(1u32, b1.hash);
    announced.insert(2u32, [7u8; 32]);
    let (applied, placed, state) = apply_and_drain(&mut index, g, 0, 5, 5, &mut buffer, &announced, &params, &[]);
    assert_eq!(applied, vec![g, b1]);
    assert_eq!(placed.len(), 2);
    assert_eq!(state, SyncState::DownloadingBlocks { peer_id: 5, next_apply_height: 2, total_height: 5 });
    assert_eq!(buffer.len(), 0);
    assert!(!index.has_block(&b2.hash));

    let mut index = ferrous::consensus::index::ChainIndex::new();
    let mut buffer = KeyedMap::new();
    buffer.insert(2u32, b2);
    let (applied, _, state) = apply_and_drain(&mut index, g, 0, 5, 5, &mut buffer, &announced, &params, &[]);
    assert_eq!(applied, vec![g]);
    assert_eq!(state, SyncState::DownloadingBlocks { peer_id: 5, next_apply_height: 1, total_height: 5 });
    assert_eq!(buffer.len(), 1);
}

#[test]
fn drain_with_a_refused_block_applies_nothing() {
    let params = Network::Regtest.params();
    let (_, b1, b2) = drain_setup();
    let mut index = ferrous::consensus::index::ChainIndex::new();
    let mut buffer = KeyedMap::new();
    buffer.insert(2u32, b2);
    let announced: KeyedMap<u32, [u8; 32]> = KeyedMap::new();
    let (applied, placed, state) = apply_and_drain(&mut index, b1, 1, 3, 5, &mut buffer, &announced, &params, &[]);
    assert!(placed.is_empty());
    assert!(applied.is_empty());
    assert_eq!(state, SyncState::DownloadingBlocks { peer_id: 5, next_apply_height: 1, total_height: 3 });
    assert_eq!(buffer.len(), 1);
}

#[test]
fn trusted_seed_addresses() {
    assert!(is_trusted_peer(&[45, 77, 153, 141]));
    assert!(is_trusted_peer(&[45, 77, 64, 221]));
    assert!(!is_trusted_peer(&[45, 77, 153, 142]));
    assert!(!is_trusted_peer(&[45, 77, 64, 141]));
    assert!(!is_trusted_peer(&[10, 0, 0, 1]));
    assert!(!is_trusted_peer(&[45, 77, 153]));
    assert!(!is_trusted_peer(&[]));
    let mapped = [0u8, 0, 0, 0, 0, 0, 0, 0, 0, 0, 0xff, 0xff, 45, 77, 153, 141];
    assert!(!is_trusted_peer(&mapped));
    let seed = vec![45u8, 77, 153, 141];
    let t = is_trusted_peer(&seed);
    assert_eq!(admit_inbound(&[seed.clone()], 4, &seed, t), Ok(()));
}
