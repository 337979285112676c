//! The table of connected peers by identifier, and the counts and
//! updates the peer manager makes on it.
use vstd::prelude::*;
use crate::network::peer::{Peer, PeerState};
use crate::primitives::bytes::bytes_equal;

verus! {

/// The connected peers, each identifier at most once, in the order they
/// joined.
pub struct PeerTable {
    peers: Vec<Peer>,
}

/// Whether a peer has completed its handshake.
pub open spec fn is_active(p: Peer) -> bool {
    p.state == PeerState::Active
}

/// Whether a peer is an active connection we opened.
pub open spec fn is_active_outbound(p: Peer) -> bool {
    !p.inbound && p.state == PeerState::Active
}

/// The number of peers among the first `k` of `s` that satisfy `f`.
pub open spec fn count_where(s: Seq<Peer>, f: spec_fn(Peer) -> bool, k: int) -> nat
    decreases k,
{
    if k <= 0 {
        0
    } else {
        count_where(s, f, k - 1) + if f(s[k - 1]) {
            1nat
        } else {
            0nat
        }
    }
}

/// The position of the peer `id` in `s`, if it is there.
pub open spec fn position_of(s: Seq<Peer>, id: u64) -> Option<int> {
    if exists|i: int| 0 <= i < s.len() && (#[trigger] s[i]).id == id {
        Some(choose|i: int| 0 <= i < s.len() && (#[trigger] s[i]).id == id)
    } else {
        None
    }
}

proof fn lemma_count_bound(s: Seq<Peer>, f: spec_fn(Peer) -> bool, k: int)
    requires
        0 <= k,
    ensures
        count_where(s, f, k) <= k,
    decreases k,
{
    if k > 0 {
        lemma_count_bound(s, f, k - 1);
    }
}

impl PeerTable {
    #[verifier::type_invariant]
    spec fn ids_distinct(self) -> bool {
        forall|i: int, j: int| 0 <= i < j < self.peers@.len() ==> self.peers@[i].id != self.peers@[j].id
    }

    /// The peers, in the order they joined.
    pub closed spec fn view(&self) -> Seq<Peer> {
        self.peers@
    }

    pub fn new() -> (r: Self)
        ensures
            r.view() == Seq::<Peer>::empty(),
    {
        PeerTable { peers: Vec::new() }
    }

    fn find(&self, id: u64) -> (r: Option<usize>)
        ensures
            match r {
                Some(i) => i < self.view().len() && self.view()[i as int].id == id && position_of(
                    self.view(),
                    id,
                ) == Some(i as int),
                None => position_of(self.view(), id) is None,
            },
    {
        proof {
            use_type_invariant(self);
        }
        let mut i: usize = 0;
        while i < self.peers.len()
            invariant
                i <= self.peers@.len(),
                forall|j: int| 0 <= j < i ==> (#[trigger] self.peers@[j]).id != id,
                forall|a: int, b: int| 0 <= a < b < self.peers@.len() ==> self.peers@[a].id != self.peers@[b].id,
            decreases self.peers@.len() - i,
        {
            if self.peers[i].id == id {
                proof {
                    let k = choose|k: int| 0 <= k < self.peers@.len() && (#[trigger] self.peers@[k]).id == id;
                    if k != i {
                        if k < i {
                            assert(self.peers@[k].id != id);
                        } else {
                            assert(self.peers@[i as int].id != self.peers@[k].id);
                        }
                    }
                }
                return Some(i);
            }
            i = i + 1;
        }
        None
    }

    /// Adds a peer; one with the same identifier is replaced in place.
    pub fn insert(&mut self, peer: Peer)
        ensures
            match position_of(old(self).view(), peer.id) {
                Some(i) => final(self).view() == old(self).view().update(i, peer),
                None => final(self).view() == old(self).view().push(peer),
            },
    {
        proof {
            use_type_invariant(&*self);
        }
        let mut peers: Vec<Peer> = Vec::new();
        match self.find(peer.id) {
            Some(i) => {
                std::mem::swap(&mut peers, &mut self.peers);
                peers.set(i, peer);
            },
            None => {
                std::mem::swap(&mut peers, &mut self.peers);
                peers.push(peer);
            },
        }
        *self = PeerTable { peers };
    }

    /// Removes the peer `id`, giving it back when it was there.
    pub fn disconnect_peer(&mut self, id: u64) -> (r: Option<Peer>)
        ensures
            match position_of(old(self).view(), id) {
                Some(i) => r == Some(old(self).view()[i]) && final(self).view() == old(self).view().remove(i),
                None => r is None && final(self).view() == old(self).view(),
            },
    {
        proof {
            use_type_invariant(&*self);
        }
        match self.find(id) {
            Some(i) => {
                let mut peers: Vec<Peer> = Vec::new();
                std::mem::swap(&mut peers, &mut self.peers);
                let p = peers.remove(i);
                proof {
                    assert forall|a: int, b: int| 0 <= a < b < peers@.len() implies peers@[a].id != peers@[b].id by {
                        let old_peers = old(self).view();
                        let a0 = if a < i { a } else { a + 1 };
                        let b0 = if b < i { b } else { b + 1 };
                        assert(peers@[a] == old_peers[a0]);
                        assert(peers@[b] == old_peers[b0]);
                    }
                }
                *self = PeerTable { peers };
                Some(p)
            },
            None => None,
        }
    }

    /// The peer `id`, when it is connected.
    pub fn get_peer(&self, id: u64) -> (r: Option<Peer>)
        ensures
            match position_of(self.view(), id) {
                Some(i) => r == Some(self.view()[i]),
                None => r is None,
            },
    {
        match self.find(id) {
            Some(i) => Some(self.peers[i]),
            None => None,
        }
    }

    /// The height the peer `id` announced, when it is connected.
    pub fn get_peer_start_height(&self, id: u64) -> (r: Option<u32>)
        ensures
            match position_of(self.view(), id) {
                Some(i) => r == Some(self.view()[i].start_height),
                None => r is None,
            },
    {
        match self.find(id) {
            Some(i) => Some(self.peers[i].start_height),
            None => None,
        }
    }

    /// Raises the height known of the peer `id` to `height`, when higher.
    pub fn update_peer_height(&mut self, id: u64, height: u32)
        ensures
            match position_of(old(self).view(), id) {
                Some(i) => {
                    let p = old(self).view()[i];
                    final(self).view() == old(self).view().update(
                        i,
                        Peer {
                            start_height: if height > p.start_height {
                                height
                            } else {
                                p.start_height
                            },
                            ..p
                        },
                    )
                },
                None => final(self).view() == old(self).view(),
            },
    {
        proof {
            use_type_invariant(&*self);
        }
        match self.find(id) {
            Some(i) => {
                let mut p = self.peers[i];
                if height > p.start_height {
                    p.start_height = height;
                }
                let mut peers: Vec<Peer> = Vec::new();
                std::mem::swap(&mut peers, &mut self.peers);
                peers.set(i, p);
                *self = PeerTable { peers };
            },
            None => {},
        }
    }

    /// The identifiers of the connected peers, in the order they joined.
    pub fn get_connected_peers(&self) -> (r: Vec<u64>)
        ensures
            r@ == self.view().map_values(|p: Peer| p.id),
    {
        let mut out: Vec<u64> = Vec::new();
        let mut i: usize = 0;
        while i < self.peers.len()
            invariant
                i <= self.peers@.len(),
                out@ == self.peers@.take(i as int).map_values(|p: Peer| p.id),
            decreases self.peers@.len() - i,
        {
            out.push(self.peers[i].id);
            proof {
                assert(out@ =~= self.peers@.take(i + 1).map_values(|p: Peer| p.id));
            }
            i = i + 1;
        }
        proof {
            assert(self.peers@.take(i as int) =~= self.peers@);
        }
        out
    }

    /// The number of peers that completed their handshake.
    pub fn active_peer_count(&self) -> (n: usize)
        ensures
            n == count_where(self.view(), |p: Peer| is_active(p), self.view().len() as int),
    {
        let ghost f = |p: Peer| is_active(p);
        let mut n: usize = 0;
        let mut i: usize = 0;
        while i < self.peers.len()
            invariant
                i <= self.peers@.len(),
                n == count_where(self.peers@, f, i as int),
                forall|p: Peer| #[trigger] f(p) == is_active(p),
            decreases self.peers@.len() - i,
        {
            proof {
                lemma_count_bound(self.peers@, f, i as int);
            }
            if self.peers[i].state == PeerState::Active {
                n = n + 1;
            }
            i = i + 1;
        }
        proof {
            assert(f =~= (|p: Peer| is_active(p)));
        }
        n
    }

    /// The number of active connections we opened.
    pub fn outbound_peer_count(&self) -> (n: usize)
        ensures
            n == count_where(self.view(), |p: Peer| is_active_outbound(p), self.view().len() as int),
    {
        let ghost f = |p: Peer| is_active_outbound(p);
        let mut n: usize = 0;
        let mut i: usize = 0;
        while i < self.peers.len()
            invariant
                i <= self.peers@.len(),
                n == count_where(self.peers@, f, i as int),
                forall|p: Peer| #[trigger] f(p) == is_active_outbound(p),
            decreases self.peers@.len() - i,
        {
            proof {
                lemma_count_bound(self.peers@, f, i as int);
            }
            if !self.peers[i].inbound && self.peers[i].state == PeerState::Active {
                n = n + 1;
            }
            i = i + 1;
        }
        proof {
            assert(f =~= (|p: Peer| is_active_outbound(p)));
        }
        n
    }
}


/// Why an outbound connection is not opened.
#[derive(Debug, Clone, Copy, PartialEq, Eq)]
pub enum ConnectRefusal {
    /// As many peers as allowed are connected.
    MaxPeers,
    /// A peer at that address is connected already.
    AlreadyConnected,
}

/// Whether an outbound connection to the address `ip` may be opened, given
/// the addresses of the connected peers and the most peers allowed: refused
/// when the limit is reached, then when a peer at that address is
/// connected; otherwise allowed.
pub fn admit_outbound(connected: &[Vec<u8>], max_peers: usize, ip: &[u8]) -> (r: Result<
    (),
    ConnectRefusal,
>)
    ensures
        connected@.len() >= max_peers ==> r == Err::<(), ConnectRefusal>(ConnectRefusal::MaxPeers),
        connected@.len() < max_peers ==> (r == Err::<(), ConnectRefusal>(
            ConnectRefusal::AlreadyConnected,
        ) <==> exists|i: int| 0 <= i < connected@.len() && (#[trigger] connected@[i])@ == ip@),
        r is Ok <==> connected@.len() < max_peers && forall|i: int|
            0 <= i < connected@.len() ==> (#[trigger] connected@[i])@ != ip@,
{
    if connected.len() >= max_peers {
        return Err(ConnectRefusal::MaxPeers);
    }
    let mut i: usize = 0;
    while i < connected.len()
        invariant
            i <= connected@.len(),
            connected@.len() < max_peers,
            forall|j: int| 0 <= j < i ==> (#[trigger] connected@[j])@ != ip@,
        decreases connected@.len() - i,
    {
        if bytes_equal(connected[i].as_slice(), ip) {
            return Err(ConnectRefusal::AlreadyConnected);
        }
        i = i + 1;
    }
    Ok(())
}


/// How many outbound connections the discovery round attempts: the
/// shortfall of `current` below `target`, or none when it is reached.
pub fn outbound_needed(current: usize, target: usize) -> (r: usize)
    ensures
        r == (if current < target {
            target - current
        } else {
            0
        }),
{
    if current < target {
        target - current
    } else {
        0
    }
}


/// Whether `ip` (the octets of an address) is one of the project's seed
/// nodes, 45.77.153.141 and 45.77.64.221, which may reconnect while
/// connected and pass the inbound checks.
pub open spec fn trusted_peer(ip: Seq<u8>) -> bool {
    ip == seq![45u8, 77u8, 153u8, 141u8] || ip == seq![45u8, 77u8, 64u8, 221u8]
}

/// Whether an inbound address is one of the trusted seed nodes.
pub fn is_trusted_peer(ip: &[u8]) -> (r: bool)
    ensures
        r == trusted_peer(ip@),
{
    if ip.len() != 4 || ip[0] != 45 || ip[1] != 77 {
        proof {
            if ip@.len() == 4 {
                assert(ip@[0] != 45u8 || ip@[1] != 77u8);
                assert(ip@ != seq![45u8, 77u8, 153u8, 141u8]);
                assert(ip@ != seq![45u8, 77u8, 64u8, 221u8]);
            }
        }
        return false;
    }
    if ip[2] == 153 && ip[3] == 141 {
        assert(ip@ =~= seq![45u8, 77u8, 153u8, 141u8]);
        return true;
    }
    if ip[2] == 64 && ip[3] == 221 {
        assert(ip@ =~= seq![45u8, 77u8, 64u8, 221u8]);
        return true;
    }
    proof {
        assert(ip@[2] != 153u8 || ip@[3] != 141u8);
        assert(ip@ != seq![45u8, 77u8, 153u8, 141u8]);
        assert(ip@ != seq![45u8, 77u8, 64u8, 221u8]);
    }
    false
}

/// Whether an inbound connection from the address `ip` is taken, given the
/// addresses of the connected peers and the most peers allowed: an address
/// already connected is refused unless it is `trusted`, then the limit
/// applies to every address; otherwise taken.
pub fn admit_inbound(connected: &[Vec<u8>], max_peers: usize, ip: &[u8], trusted: bool) -> (r: Result<
    (),
    ConnectRefusal,
>)
    ensures
        (!trusted && exists|i: int| 0 <= i < connected@.len() && (#[trigger] connected@[i])@ == ip@)
            ==> r == Err::<(), ConnectRefusal>(ConnectRefusal::AlreadyConnected),
        !(!trusted && exists|i: int| 0 <= i < connected@.len() && (#[trigger] connected@[i])@ == ip@)
            ==> r == (if connected@.len() >= max_peers {
            Err::<(), ConnectRefusal>(ConnectRefusal::MaxPeers)
        } else {
            Ok::<(), ConnectRefusal>(())
        }),
{
    if !trusted {
        let mut i: usize = 0;
        while i < connected.len()
            invariant
                !trusted,
                i <= connected@.len(),
                forall|j: int| 0 <= j < i ==> (#[trigger] connected@[j])@ != ip@,
            decreases connected@.len() - i,
        {
            if bytes_equal(connected[i].as_slice(), ip) {
                return Err(ConnectRefusal::AlreadyConnected);
            }
            i = i + 1;
        }
    }
    if connected.len() >= max_peers {
        Err(ConnectRefusal::MaxPeers)
    } else {
        Ok(())
    }
}

} // verus!
