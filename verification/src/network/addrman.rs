//! The table of known peer addresses: which to keep, which to try.
use vstd::prelude::*;
use crate::consensus::params::Network;

verus! {

/// A peer address: an IPv6 (or IPv4-mapped) address and a port.
#[derive(Debug, Clone, Copy, PartialEq, Eq)]
pub struct PeerAddress {
    pub ip: [u8; 16],
    pub port: u16,
}

impl PeerAddress {
    pub fn same_as(&self, other: &PeerAddress) -> (r: bool)
        ensures
            r == (self.ip@ == other.ip@ && self.port == other.port),
    {
        if self.port != other.port {
            return false;
        }
        let mut i: usize = 0;
        while i < 16
            invariant
                i <= 16,
                forall|j: int| 0 <= j < i ==> self.ip@[j] == other.ip@[j],
            decreases 16 - i,
        {
            if self.ip[i] != other.ip[i] {
                return false;
            }
            i = i + 1;
        }
        proof {
            assert(self.ip@ =~= other.ip@);
        }
        true
    }
}

/// What is known of one address.
#[derive(Debug, Clone, Copy)]
pub struct PeerAddressInfo {
    pub addr: PeerAddress,
    pub services: u64,
    pub timestamp: u32,
    pub last_tried: Option<u32>,
    pub last_success: Option<u32>,
    pub attempts: u32,
}

/// Two addresses are the same when their bytes and ports are.
pub open spec fn same_addr(a: PeerAddress, b: PeerAddress) -> bool {
    a.ip@ == b.ip@ && a.port == b.port
}

/// The position of `addr` in `s`, if it is there.
pub open spec fn find_addr(s: Seq<PeerAddressInfo>, addr: PeerAddress) -> Option<int> {
    if exists|i: int| 0 <= i < s.len() && same_addr(#[trigger] s[i].addr, addr) {
        Some(choose|i: int| 0 <= i < s.len() && same_addr(#[trigger] s[i].addr, addr))
    } else {
        None
    }
}

/// Failed attempts after which an address is no longer offered, unless it
/// once succeeded.
pub const MAX_ATTEMPTS: u32 = 3;

/// Whether an address is offered for connecting: fewer than
/// `MAX_ATTEMPTS` attempts, or a success on record.
pub open spec fn offered(info: PeerAddressInfo) -> bool {
    info.attempts < MAX_ATTEMPTS || info.last_success is Some
}

/// Whether an address is kept by a clean-up at `now`: its last success, or
/// without one its announced time, is less than `max_age_secs` ago.
pub open spec fn kept(info: PeerAddressInfo, now: u32, max_age_secs: u32) -> bool {
    let since = match info.last_success {
        Some(t) => t,
        None => info.timestamp,
    };
    (if now >= since { now - since } else { 0 }) < max_age_secs
}

/// The known addresses, each at most once, up to a maximum count.
pub struct AddressManager {
    addresses: Vec<PeerAddressInfo>,
    max_addresses: usize,
}

impl AddressManager {
    #[verifier::type_invariant]
    spec fn addresses_distinct(self) -> bool {
        forall|i: int, j: int|
            0 <= i < j < self.addresses@.len() ==> !same_addr(
                self.addresses@[i].addr,
                self.addresses@[j].addr,
            )
    }

    /// The addresses known, in the order first added. With `max`, the most
    /// it takes, this is all a table is.
    pub closed spec fn known(&self) -> Seq<PeerAddressInfo> {
        self.addresses@
    }

    /// The most addresses the table takes.
    pub closed spec fn max(&self) -> usize {
        self.max_addresses
    }

    pub fn new(max_addresses: usize) -> (m: Self)
        ensures
            m.known() == Seq::<PeerAddressInfo>::empty(),
            m.max() == max_addresses,
    {
        AddressManager { addresses: Vec::new(), max_addresses }
    }

    fn position(&self, addr: &PeerAddress) -> (r: Option<usize>)
        ensures
            match r {
                Some(i) => i < self.known().len() && same_addr(self.known()[i as int].addr, *addr),
                None => find_addr(self.known(), *addr) is None,
            },
    {
        let mut i: usize = 0;
        while i < self.addresses.len()
            invariant
                i <= self.addresses@.len(),
                forall|j: int| 0 <= j < i ==> !same_addr(#[trigger] self.addresses@[j].addr, *addr),
            decreases self.addresses@.len() - i,
        {
            if self.addresses[i].addr.same_as(addr) {
                return Some(i);
            }
            i = i + 1;
        }
        None
    }

    /// Replaces the entry at `i` with one for the same address.
    fn replace_at(&mut self, i: usize, info: PeerAddressInfo)
        requires
            i < old(self).known().len(),
            same_addr(info.addr, old(self).known()[i as int].addr),
        ensures
            final(self).known() == old(self).known().update(i as int, info),
            final(self).max() == old(self).max(),
    {
        proof {
            use_type_invariant(&*self);
        }
        let ghost old_s = self.addresses@;
        let mut v: Vec<PeerAddressInfo> = Vec::new();
        std::mem::swap(&mut v, &mut self.addresses);
        v.set(i, info);
        proof {
            assert forall|a: int, b: int| 0 <= a < b < v@.len() implies !same_addr(v@[a].addr, v@[b].addr) by {
                assert(!same_addr(old_s[a].addr, old_s[b].addr));
            }
        }
        self.addresses = v;
    }

    /// Records an address: a known one gets the new announced time and
    /// services; a new one is added unless the table is full.
    pub fn add_address(&mut self, addr: PeerAddress, services: u64, timestamp: u32)
        ensures
            final(self).max() == old(self).max(),
            match find_addr(old(self).known(), addr) {
                Some(i) => final(self).known() == old(self).known().update(
                    i,
                    PeerAddressInfo { services, timestamp, ..old(self).known()[i] },
                ),
                None => if old(self).known().len() >= old(self).max() {
                    final(self).known() == old(self).known()
                } else {
                    final(self).known() == old(self).known().push(
                        PeerAddressInfo {
                            addr,
                            services,
                            timestamp,
                            last_tried: None,
                            last_success: None,
                            attempts: 0,
                        },
                    )
                },
            },
    {
        proof {
            use_type_invariant(&*self);
        }
        match self.position(&addr) {
            Some(i) => {
                proof {
                    lemma_find_unique(self.addresses@, addr, i as int);
                }
                let mut info = self.addresses[i];
                info.services = services;
                info.timestamp = timestamp;
                self.replace_at(i, info);
            },
            None => {
                if self.addresses.len() >= self.max_addresses {
                    return;
                }
                let ghost old_s = self.addresses@;
                let mut v: Vec<PeerAddressInfo> = Vec::new();
                std::mem::swap(&mut v, &mut self.addresses);
                v.push(
                    PeerAddressInfo {
                        addr,
                        services,
                        timestamp,
                        last_tried: None,
                        last_success: None,
                        attempts: 0,
                    },
                );
                proof {
                    assert forall|i: int| 0 <= i < old_s.len() implies !same_addr(old_s[i].addr, addr) by {
                        if same_addr(old_s[i].addr, addr) {
                            assert(exists|k: int| 0 <= k < old_s.len() && same_addr(#[trigger] old_s[k].addr, addr));
                        }
                    }
                }
                self.addresses = v;
            },
        }
    }

    /// A connection to the address is being tried at `now`.
    pub fn mark_tried(&mut self, addr: &PeerAddress, now: u32)
        requires
            find_addr(old(self).known(), *addr) matches Some(i) ==> old(self).known()[i].attempts < u32::MAX,
        ensures
            final(self).max() == old(self).max(),
            match find_addr(old(self).known(), *addr) {
                Some(i) => final(self).known() == old(self).known().update(
                    i,
                    PeerAddressInfo {
                        last_tried: Some(now),
                        attempts: (old(self).known()[i].attempts + 1) as u32,
                        ..old(self).known()[i]
                    },
                ),
                None => final(self).known() == old(self).known(),
            },
    {
        proof {
            use_type_invariant(&*self);
        }
        if let Some(i) = self.position(addr) {
            proof {
                lemma_find_unique(self.addresses@, *addr, i as int);
            }
            let mut info = self.addresses[i];
            info.last_tried = Some(now);
            info.attempts = info.attempts + 1;
            self.replace_at(i, info);
        }
    }

    /// A connection to the address succeeded at `now`: its failures are
    /// forgotten.
    pub fn mark_success(&mut self, addr: &PeerAddress, now: u32)
        ensures
            final(self).max() == old(self).max(),
            match find_addr(old(self).known(), *addr) {
                Some(i) => final(self).known() == old(self).known().update(
                    i,
                    PeerAddressInfo { last_success: Some(now), attempts: 0, ..old(self).known()[i] },
                ),
                None => final(self).known() == old(self).known(),
            },
    {
        proof {
            use_type_invariant(&*self);
        }
        if let Some(i) = self.position(addr) {
            proof {
                lemma_find_unique(self.addresses@, *addr, i as int);
            }
            let mut info = self.addresses[i];
            info.last_success = Some(now);
            info.attempts = 0;
            self.replace_at(i, info);
        }
    }

    /// The addresses offered for connecting, in table order (the caller
    /// picks among them at random).
    pub fn candidate_addresses(&self) -> (r: Vec<PeerAddress>)
        ensures
            r@ == self.known().filter(|i: PeerAddressInfo| offered(i)).map_values(|i: PeerAddressInfo| i.addr),
    {
        let mut out: Vec<PeerAddress> = Vec::new();
        let mut k: usize = 0;
        while k < self.addresses.len()
            invariant
                k <= self.addresses@.len(),
                out@ == self.addresses@.take(k as int).filter(|i: PeerAddressInfo| offered(i)).map_values(
                    |i: PeerAddressInfo| i.addr,
                ),
            decreases self.addresses@.len() - k,
        {
            proof {
                reveal(Seq::filter);
                assert(self.addresses@.take(k + 1).drop_last() =~= self.addresses@.take(k as int));
            }
            let info = self.addresses[k];
            if info.attempts < MAX_ATTEMPTS || info.last_success.is_some() {
                out.push(info.addr);
            }
            proof {
                assert(out@ =~= self.addresses@.take(k + 1).filter(|i: PeerAddressInfo| offered(i)).map_values(
                    |i: PeerAddressInfo| i.addr,
                ));
            }
            k = k + 1;
        }
        proof {
            assert(self.addresses@.take(k as int) =~= self.addresses@);
        }
        out
    }

    /// Keeps only the addresses seen within `max_age_days` of `now`.
    pub fn cleanup_old(&mut self, max_age_days: u32, now: u32)
        requires
            max_age_days * 86400 <= u32::MAX,
        ensures
            final(self).max() == old(self).max(),
            final(self).known() == old(self).known().filter(
                |i: PeerAddressInfo| kept(i, now, (max_age_days * 86400) as u32),
            ),
    {
        proof {
            use_type_invariant(&*self);
        }
        let max_age_secs = max_age_days * 24 * 3600;
        let ghost old_s = self.addresses@;
        let ghost pred = |i: PeerAddressInfo| kept(i, now, max_age_secs);
        let mut kept_list: Vec<PeerAddressInfo> = Vec::new();
        let mut k: usize = 0;
        while k < self.addresses.len()
            invariant
                old_s == self.addresses@,
                k <= old_s.len(),
                forall|x: PeerAddressInfo| #[trigger] pred(x) == kept(x, now, max_age_secs),
                kept_list@ == old_s.take(k as int).filter(pred),
            decreases old_s.len() - k,
        {
            proof {
                reveal(Seq::filter);
                assert(old_s.take(k + 1).drop_last() =~= old_s.take(k as int));
            }
            let info = self.addresses[k];
            let since = match info.last_success {
                Some(t) => t,
                None => info.timestamp,
            };
            if now.saturating_sub(since) < max_age_secs {
                kept_list.push(info);
            }
            k = k + 1;
        }
        proof {
            assert(old_s.take(k as int) =~= old_s);
            lemma_filter_distinct(old_s, pred);
        }
        self.addresses = kept_list;
    }

    pub fn size(&self) -> (n: usize)
        ensures
            n == self.known().len(),
    {
        self.addresses.len()
    }
}

/// The IPv4 address `a.b.c.d` in its IPv4-mapped IPv6 form.
pub open spec fn v4_mapped(a: u8, b: u8, c: u8, d: u8) -> Seq<u8> {
    seq![0u8, 0, 0, 0, 0, 0, 0, 0, 0, 0, 0xff, 0xff, a, b, c, d]
}

/// The addresses to try first on a network: the local regtest node on
/// regtest, none yet on the other networks.
pub fn get_seed_nodes(network: Network) -> (r: Vec<PeerAddress>)
    ensures
        network == Network::Regtest ==> r@.len() == 1 && r@[0].ip@ == v4_mapped(127, 0, 0, 1)
            && r@[0].port == 18444,
        network != Network::Regtest ==> r@.len() == 0,
{
    let mut out: Vec<PeerAddress> = Vec::new();
    match network {
        Network::Regtest => {
            let ip: [u8; 16] = [0, 0, 0, 0, 0, 0, 0, 0, 0, 0, 0xff, 0xff, 127, 0, 0, 1];
            out.push(PeerAddress { ip, port: 18444 });
            proof {
                assert(ip@ =~= v4_mapped(127, 0, 0, 1));
            }
        },
        Network::Testnet => {},
        Network::Mainnet => {},
    }
    out
}

/// Shuffles the addresses in place through `rand::seq::SliceRandom::shuffle`
/// with the thread's generator (`rand::thread_rng`). The order that comes
/// out rests on chance; what is claimed is that it is a rearrangement of
/// the same addresses (the source swaps pairs of elements in range).
#[verifier::external_body]
fn shuffle_addresses(v: &mut Vec<PeerAddress>)
    ensures
        final(v)@.to_multiset() == old(v)@.to_multiset(),
{
    rand::seq::SliceRandom::shuffle(v.as_mut_slice(), &mut rand::thread_rng());
}

impl AddressManager {
    /// Up to `count` addresses offered for connecting, in random order.
    pub fn get_random_addresses(&self, count: usize) -> (r: Vec<PeerAddress>)
        ensures
            ({
                let cands = self.known().filter(|i: PeerAddressInfo| offered(i)).map_values(
                    |i: PeerAddressInfo| i.addr,
                );
                &&& r@.len() == if count < cands.len() {
                    count as nat
                } else {
                    cands.len()
                }
                &&& r@.to_multiset().subset_of(cands.to_multiset())
            }),
    {
        let mut candidates = self.candidate_addresses();
        let ghost cands = candidates@;
        shuffle_addresses(&mut candidates);
        proof {
            cands.to_multiset_ensures();
            candidates@.to_multiset_ensures();
        }
        let ghost shuffled = candidates@;
        if candidates.len() > count {
            candidates.truncate(count);
            proof {
                assert(candidates@ =~= shuffled.take(count as int));
                let rest = shuffled.skip(count as int);
                assert(shuffled =~= candidates@ + rest);
                vstd::seq_lib::lemma_multiset_commutative(candidates@, rest);
                broadcast use vstd::multiset::group_multiset_axioms;
                assert(candidates@.to_multiset().subset_of(shuffled.to_multiset()));
            }
        }
        candidates
    }

    /// Every known address with what is known of it, in table order.
    pub fn get_all_addresses(&self) -> (r: Vec<PeerAddressInfo>)
        ensures
            r@ == self.known(),
    {
        self.addresses.clone()
    }

    /// The known addresses, at most `count` of them, in table order.
    pub fn first_addresses(&self, count: usize) -> (r: Vec<PeerAddressInfo>)
        ensures
            r@ == self.known().take(if count < self.known().len() { count as int } else { self.known().len() as int }),
    {
        let mut out: Vec<PeerAddressInfo> = Vec::new();
        let mut k: usize = 0;
        while k < self.addresses.len() && k < count
            invariant
                k <= self.addresses@.len(),
                k <= count,
                out@ == self.addresses@.take(k as int),
            decreases self.addresses@.len() - k,
        {
            out.push(self.addresses[k]);
            proof {
                assert(out@ =~= self.addresses@.take(k + 1));
            }
            k = k + 1;
        }
        out
    }
}

/// The table never grows past its maximum: adding an address to a table
/// within its bound keeps it within, and the other updates never add.
pub proof fn lemma_table_bounded(before: Seq<PeerAddressInfo>, max: usize, addr: PeerAddress, services: u64, timestamp: u32)
    requires
        before.len() <= max,
    ensures
        ({
            let after = match find_addr(before, addr) {
                Some(i) => before.update(i, PeerAddressInfo { services, timestamp, ..before[i] }),
                None => if before.len() >= max {
                    before
                } else {
                    before.push(
                        PeerAddressInfo {
                            addr,
                            services,
                            timestamp,
                            last_tried: None,
                            last_success: None,
                            attempts: 0,
                        },
                    )
                },
            };
            after.len() <= max
        }),
{
}

proof fn lemma_find_unique(s: Seq<PeerAddressInfo>, addr: PeerAddress, i: int)
    requires
        0 <= i < s.len(),
        same_addr(s[i].addr, addr),
        forall|a: int, b: int| 0 <= a < b < s.len() ==> !same_addr(s[a].addr, s[b].addr),
    ensures
        find_addr(s, addr) == Some(i),
{
    assert(exists|k: int| 0 <= k < s.len() && same_addr(#[trigger] s[k].addr, addr));
    let j = choose|k: int| 0 <= k < s.len() && same_addr(#[trigger] s[k].addr, addr);
    if j < i {
        assert(!same_addr(s[j].addr, s[i].addr));
    } else if j > i {
        assert(!same_addr(s[i].addr, s[j].addr));
    }
}

proof fn lemma_filter_distinct(s: Seq<PeerAddressInfo>, pred: spec_fn(PeerAddressInfo) -> bool)
    requires
        forall|a: int, b: int| 0 <= a < b < s.len() ==> !same_addr(s[a].addr, s[b].addr),
    ensures
        forall|a: int, b: int|
            0 <= a < b < s.filter(pred).len() ==> !same_addr(s.filter(pred)[a].addr, s.filter(pred)[b].addr),
    decreases s.len(),
{
    reveal(Seq::filter);
    if s.len() > 0 {
        let t = s.drop_last();
        lemma_filter_distinct(t, pred);
        let f = t.filter(pred);
        if pred(s.last()) {
            assert forall|a: int| 0 <= a < f.len() implies !same_addr(f[a].addr, s.last().addr) by {
                let x = f[a];
                assert(f.contains(x));
                t.lemma_filter_contains_rev(pred, x);
                let k = choose|k: int| 0 <= k < t.len() && t[k] == x;
                assert(s[k] == x);
                assert(!same_addr(s[k].addr, s[s.len() - 1].addr));
            }
            assert(s.filter(pred) == f.push(s.last()));
        }
    }
}

} // verus!
