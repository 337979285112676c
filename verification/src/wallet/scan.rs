//! Finding the confidential outputs a view key can open.
use vstd::prelude::*;
use crate::consensus::block::{spec_bytes32, Block};
use crate::consensus::outpoint_map::OutPointMap;
use crate::consensus::transaction::{BlindingFactor, TransactionV2, TxKind, TxOutputV2};
use crate::consensus::utxo::OutPoint;
use crate::crypto::commitments::{commit, decrypt_amount, sealed_for, spec_commit, spec_decrypt};
use crate::primitives::bytes::bytes_equal;
use crate::primitives::hash::Hash256;

verus! {

/// The amounts and blinding factors of the confidential outputs found so far.
pub struct V2UtxoCache {
    entries: OutPointMap<(u64, BlindingFactor)>,
}

/// Scanning one output `o`, output `j` of the transaction `txid`: where
/// its amount decrypts under `view` to a value and blinding factor that
/// commit to the output's commitment, they are recorded under its outpoint.
pub open spec fn scan_one(
    m: Map<OutPoint, (u64, Seq<u8>)>,
    txid: Hash256,
    o: TxOutputV2,
    view: Seq<u8>,
    j: nat,
) -> Map<OutPoint, (u64, Seq<u8>)> {
    match spec_decrypt(o.encrypted_amount@, o.ephemeral_pubkey@, view) {
        None => m,
        Some((v, b)) => if spec_commit(v, b) == o.commitment.0@ {
            m.insert(OutPoint { txid, vout: j as u32 }, (v, b))
        } else {
            m
        },
    }
}

/// Scanning outputs `j..` of a transaction with identifier `txid`, one
/// after another (see [`scan_one`]).
pub open spec fn scan_outputs(
    m: Map<OutPoint, (u64, Seq<u8>)>,
    txid: Hash256,
    outs: Seq<TxOutputV2>,
    view: Seq<u8>,
    j: nat,
) -> Map<OutPoint, (u64, Seq<u8>)>
    decreases outs.len() - j,
{
    if j >= outs.len() {
        m
    } else {
        scan_outputs(scan_one(m, txid, outs[j as int], view, j), txid, outs, view, j + 1)
    }
}

/// Scanning transactions `i..` of a block: confidential ones only.
pub open spec fn scan_txs(m: Map<OutPoint, (u64, Seq<u8>)>, txs: Seq<TxKind>, view: Seq<u8>, i: nat) -> Map<
    OutPoint,
    (u64, Seq<u8>),
>
    decreases txs.len() - i,
{
    if i >= txs.len() {
        m
    } else {
        match txs[i as int] {
            TxKind::V1(_) => scan_txs(m, txs, view, i + 1),
            TxKind::V2(t) => scan_txs(
                scan_outputs(m, spec_bytes32(t.spec_txid()), t.outputs@, view, 0),
                txs,
                view,
                i + 1,
            ),
        }
    }
}

/// The identifier of the confidential transaction at position `i` of
/// `txs`, as the scan records it.
pub open spec fn v2_txid(txs: Seq<TxKind>, i: int) -> Hash256 {
    spec_bytes32(txs[i]->V2_0.spec_txid())
}

/// Whether no confidential transaction after position `i` of `txs` has
/// the identifier of the one at `i`.
pub open spec fn txid_not_repeated(txs: Seq<TxKind>, i: int) -> bool {
    forall|k: int| i < k < txs.len() && (#[trigger] txs[k]) is V2 ==> v2_txid(txs, k) != v2_txid(txs, i)
}

/// Whether an amount sealed in `o` for `view` decrypts under `view` to what
/// was sealed.
pub open spec fn opens_as_sealed(o: TxOutputV2, view: Seq<u8>) -> bool {
    forall|value: u64, blinding: Seq<u8>|
        #[trigger] sealed_for(o.encrypted_amount@, o.ephemeral_pubkey@, value, blinding, view) ==> spec_decrypt(
            o.encrypted_amount@,
            o.ephemeral_pubkey@,
            view,
        ) == Some::<(u64, Seq<u8>)>((value, blinding))
}

/// Scanning outputs `j0..` leaves an outpoint that none of them has as it
/// was.
proof fn lemma_outputs_keep(
    m: Map<OutPoint, (u64, Seq<u8>)>,
    txid: Hash256,
    outs: Seq<TxOutputV2>,
    view: Seq<u8>,
    j0: nat,
    k: OutPoint,
)
    requires
        k.txid != txid || (k.vout < j0 && outs.len() <= 0x1_0000_0000),
    ensures
        scan_outputs(m, txid, outs, view, j0).contains_key(k) == m.contains_key(k),
        m.contains_key(k) ==> scan_outputs(m, txid, outs, view, j0)[k] == m[k],
    decreases outs.len() - j0,
{
    if j0 < outs.len() {
        assert((OutPoint { txid, vout: j0 as u32 }) != k);
        lemma_outputs_keep(scan_one(m, txid, outs[j0 as int], view, j0), txid, outs, view, j0 + 1, k);
    }
}

/// Scanning outputs `j0..` records output `j` (at or after `j0`) with the
/// amount it decrypts to, where that commits to its commitment.
proof fn lemma_outputs_hit(
    m: Map<OutPoint, (u64, Seq<u8>)>,
    txid: Hash256,
    outs: Seq<TxOutputV2>,
    view: Seq<u8>,
    j0: nat,
    j: int,
    v: u64,
    b: Seq<u8>,
)
    requires
        j0 <= j < outs.len() <= 0x1_0000_0000,
        spec_decrypt(outs[j].encrypted_amount@, outs[j].ephemeral_pubkey@, view) == Some::<(u64, Seq<u8>)>((v, b)),
        spec_commit(v, b) == outs[j].commitment.0@,
    ensures
        scan_outputs(m, txid, outs, view, j0).contains_key(OutPoint { txid, vout: j as u32 }),
        scan_outputs(m, txid, outs, view, j0)[OutPoint { txid, vout: j as u32 }] == (v, b),
    decreases outs.len() - j0,
{
    let m2 = scan_one(m, txid, outs[j0 as int], view, j0);
    if j0 < j {
        lemma_outputs_hit(m2, txid, outs, view, j0 + 1, j, v, b);
    } else {
        let k = OutPoint { txid, vout: j as u32 };
        assert(m2 == m.insert(k, (v, b)));
        lemma_outputs_keep(m2, txid, outs, view, j0 + 1, k);
    }
}

/// Scanning transactions `i0..` leaves an outpoint of no confidential
/// transaction among them as it was.
proof fn lemma_txs_keep(m: Map<OutPoint, (u64, Seq<u8>)>, txs: Seq<TxKind>, view: Seq<u8>, i0: nat, k: OutPoint)
    requires
        forall|i: int|
            i0 <= i < txs.len() && (#[trigger] txs[i]) is V2 ==> v2_txid(txs, i) != k.txid,
    ensures
        scan_txs(m, txs, view, i0).contains_key(k) == m.contains_key(k),
        m.contains_key(k) ==> scan_txs(m, txs, view, i0)[k] == m[k],
    decreases txs.len() - i0,
{
    if i0 < txs.len() {
        match txs[i0 as int] {
            TxKind::V1(_) => {
                lemma_txs_keep(m, txs, view, i0 + 1, k);
            },
            TxKind::V2(t) => {
                let txid = spec_bytes32(t.spec_txid());
                assert(v2_txid(txs, i0 as int) == txid);
                lemma_outputs_keep(m, txid, t.outputs@, view, 0, k);
                lemma_txs_keep(scan_outputs(m, txid, t.outputs@, view, 0), txs, view, i0 + 1, k);
            },
        }
    }
}

/// A scan records a confidential output whose amount decrypts under the
/// view key to a value and blinding factor committing to its commitment,
/// under its outpoint and with that value and blinding factor, unless a
/// later confidential transaction of the block has the same identifier.
pub proof fn lemma_scan_records_output(
    m: Map<OutPoint, (u64, Seq<u8>)>,
    txs: Seq<TxKind>,
    view: Seq<u8>,
    i: int,
    j: int,
    v: u64,
    b: Seq<u8>,
)
    requires
        0 <= i < txs.len(),
        txs[i] is V2,
        0 <= j < txs[i]->V2_0.outputs@.len() <= 0x1_0000_0000,
        spec_decrypt(
            txs[i]->V2_0.outputs@[j].encrypted_amount@,
            txs[i]->V2_0.outputs@[j].ephemeral_pubkey@,
            view,
        ) == Some::<(u64, Seq<u8>)>((v, b)),
        spec_commit(v, b) == txs[i]->V2_0.outputs@[j].commitment.0@,
        txid_not_repeated(txs, i),
    ensures
        scan_txs(m, txs, view, 0).contains_key(OutPoint { txid: v2_txid(txs, i), vout: j as u32 }),
        scan_txs(m, txs, view, 0)[OutPoint { txid: v2_txid(txs, i), vout: j as u32 }] == (v, b),
{
    lemma_scan_records_from(m, txs, view, 0, i, j, v, b);
}

proof fn lemma_scan_records_from(
    m: Map<OutPoint, (u64, Seq<u8>)>,
    txs: Seq<TxKind>,
    view: Seq<u8>,
    i0: nat,
    i: int,
    j: int,
    v: u64,
    b: Seq<u8>,
)
    requires
        i0 <= i < txs.len(),
        txs[i] is V2,
        0 <= j < txs[i]->V2_0.outputs@.len() <= 0x1_0000_0000,
        spec_decrypt(
            txs[i]->V2_0.outputs@[j].encrypted_amount@,
            txs[i]->V2_0.outputs@[j].ephemeral_pubkey@,
            view,
        ) == Some::<(u64, Seq<u8>)>((v, b)),
        spec_commit(v, b) == txs[i]->V2_0.outputs@[j].commitment.0@,
        txid_not_repeated(txs, i),
    ensures
        scan_txs(m, txs, view, i0).contains_key(OutPoint { txid: v2_txid(txs, i), vout: j as u32 }),
        scan_txs(m, txs, view, i0)[OutPoint { txid: v2_txid(txs, i), vout: j as u32 }] == (v, b),
    decreases i - i0,
{
    if i0 < i {
        match txs[i0 as int] {
            TxKind::V1(_) => {
                lemma_scan_records_from(m, txs, view, i0 + 1, i, j, v, b);
            },
            TxKind::V2(t) => {
                let m2 = scan_outputs(m, spec_bytes32(t.spec_txid()), t.outputs@, view, 0);
                lemma_scan_records_from(m2, txs, view, i0 + 1, i, j, v, b);
            },
        }
    } else {
        let t = txs[i]->V2_0;
        let txid = v2_txid(txs, i);
        let k = OutPoint { txid, vout: j as u32 };
        lemma_outputs_hit(m, txid, t.outputs@, view, 0, j, v, b);
        lemma_txs_keep(scan_outputs(m, txid, t.outputs@, view, 0), txs, view, (i + 1) as nat, k);
    }
}

impl V2UtxoCache {
    /// The outputs found, with their amounts and blinding factors.
    pub closed spec fn view(&self) -> Map<OutPoint, (u64, Seq<u8>)> {
        self.entries.view().map_values(|e: (u64, BlindingFactor)| (e.0, e.1.0@))
    }

    pub fn new() -> (c: Self)
        ensures
            c.view() == Map::<OutPoint, (u64, Seq<u8>)>::empty(),
    {
        let c = V2UtxoCache { entries: OutPointMap::new() };
        proof {
            assert(c.view() =~= Map::<OutPoint, (u64, Seq<u8>)>::empty());
        }
        c
    }

    pub fn get(&self, outpoint: &OutPoint) -> (r: Option<&(u64, BlindingFactor)>)
        ensures
            match r {
                Some(e) => self.view().contains_key(*outpoint) && self.view()[*outpoint] == (
                    e.0,
                    e.1.0@,
                ),
                None => !self.view().contains_key(*outpoint),
            },
    {
        self.entries.get(outpoint)
    }

    pub fn len(&self) -> (n: usize)
        ensures
            n == self.view().len(),
    {
        let n = self.entries.len();
        proof {
            assert(self.view().dom() =~= self.entries.view().dom());
        }
        n
    }

    pub fn is_empty(&self) -> (r: bool)
        ensures
            r == (self.view().len() == 0),
    {
        self.len() == 0
    }

    fn record(&mut self, outpoint: OutPoint, value: u64, blinding: BlindingFactor)
        ensures
            final(self).view() == old(self).view().insert(outpoint, (value, blinding.0@)),
    {
        self.entries.insert(outpoint, (value, blinding));
        proof {
            assert(final(self).view() =~= old(self).view().insert(outpoint, (value, blinding.0@)));
        }
    }
}

/// Whether output `j` of the confidential transaction at `i` of `txs` seals
/// `value` and `blinding` for the view scalar `view` (as `encrypt_amount`
/// seals them for its public point) and commits to them.
pub open spec fn pays_to_view(txs: Seq<TxKind>, i: int, j: int, value: u64, blinding: Seq<u8>, view: Seq<u8>) -> bool {
    &&& 0 <= i < txs.len()
    &&& txs[i] is V2
    &&& 0 <= j < txs[i]->V2_0.outputs@.len() <= 0x1_0000_0000
    &&& sealed_for(
        txs[i]->V2_0.outputs@[j].encrypted_amount@,
        txs[i]->V2_0.outputs@[j].ephemeral_pubkey@,
        value,
        blinding,
        view,
    )
    &&& txs[i]->V2_0.outputs@[j].commitment.0@ == spec_commit(value, blinding)
}

/// Records every confidential output of `block` that `view_scalar` opens
/// (see [`scan_txs`]). So an output that pays the holder of the view key,
/// sealed for it and committed to what it seals, is recorded under its
/// outpoint with its value and blinding factor, unless a later confidential
/// transaction of the block has the same identifier.
pub fn scan_v2_outputs(block: &Block, view_scalar: &[u8; 32], cache: &mut V2UtxoCache)
    ensures
        final(cache).view() == scan_txs(old(cache).view(), block.transactions@, view_scalar@, 0),
        forall|i: int, j: int, value: u64, blinding: Seq<u8>|
            #[trigger] pays_to_view(block.transactions@, i, j, value, blinding, view_scalar@) && txid_not_repeated(
                block.transactions@,
                i,
            ) ==> {
                let k = OutPoint { txid: v2_txid(block.transactions@, i), vout: j as u32 };
                final(cache).view().contains_key(k) && final(cache).view()[k] == (value, blinding)
            },
{
    let ghost txs = block.transactions@;
    let mut i: usize = 0;
    while i < block.transactions.len()
        invariant
            i <= txs.len(),
            txs == block.transactions@,
            scan_txs(old(cache).view(), txs, view_scalar@, 0) == scan_txs(cache.view(), txs, view_scalar@, i as nat),
            forall|i2: int, j2: int|
                0 <= i2 < i && txs[i2] is V2 && 0 <= j2 < txs[i2]->V2_0.outputs@.len() ==> opens_as_sealed(
                    #[trigger] txs[i2]->V2_0.outputs@[j2],
                    view_scalar@,
                ),
        decreases txs.len() - i,
    {
        match &block.transactions[i] {
            TxKind::V1(_) => {},
            TxKind::V2(v2) => {
                let txid = v2.txid();
                proof {
                    assert(spec_bytes32(v2.spec_txid()) =~= txid);
                }
                let ghost outs = v2.outputs@;
                let mut vout: usize = 0;
                while vout < v2.outputs.len()
                    invariant
                        vout <= outs.len(),
                        outs == v2.outputs@,
                        txs == block.transactions@,
                        i < txs.len(),
                        txs[i as int] == TxKind::V2(*v2),
                        txid == spec_bytes32(v2.spec_txid()),
                        scan_txs(old(cache).view(), txs, view_scalar@, 0) == scan_txs(
                            scan_outputs(cache.view(), txid, outs, view_scalar@, vout as nat),
                            txs,
                            view_scalar@,
                            (i + 1) as nat,
                        ),
                        forall|i2: int, j2: int|
                            0 <= i2 < i && txs[i2] is V2 && 0 <= j2 < txs[i2]->V2_0.outputs@.len() ==> opens_as_sealed(
                                #[trigger] txs[i2]->V2_0.outputs@[j2],
                                view_scalar@,
                            ),
                        forall|j2: int| 0 <= j2 < vout ==> opens_as_sealed(#[trigger] outs[j2], view_scalar@),
                    decreases outs.len() - vout,
                {
                    let output = &v2.outputs[vout];
                    let opened = decrypt_amount(
                        output.encrypted_amount.as_slice(),
                        &output.ephemeral_pubkey,
                        view_scalar,
                    );
                    proof {
                        assert(opens_as_sealed(outs[vout as int], view_scalar@));
                    }
                    match opened {
                        None => {},
                        Some((value, blinding)) => {
                            let c = commit(value, &blinding);
                            if bytes_equal(&c.0, &output.commitment.0) {
                                cache.record(OutPoint { txid, vout: vout as u32 }, value, blinding);
                            }
                        },
                    }
                    vout = vout + 1;
                }
                proof {
                    assert forall|i2: int, j2: int|
                        0 <= i2 < i + 1 && txs[i2] is V2 && 0 <= j2 < txs[i2]->V2_0.outputs@.len() implies opens_as_sealed(
                            #[trigger] txs[i2]->V2_0.outputs@[j2],
                            view_scalar@,
                        ) by {
                        if i2 == i {
                            assert(txs[i2]->V2_0.outputs@[j2] == outs[j2]);
                        }
                    }
                }
            },
        }
        i = i + 1;
    }
    proof {
        assert forall|i2: int, j: int, value: u64, blinding: Seq<u8>|
            #[trigger] pays_to_view(txs, i2, j, value, blinding, view_scalar@) && txid_not_repeated(txs, i2) implies {
                let k = OutPoint { txid: v2_txid(txs, i2), vout: j as u32 };
                cache.view().contains_key(k) && cache.view()[k] == (value, blinding)
            } by {
            let o = txs[i2]->V2_0.outputs@[j];
            assert(opens_as_sealed(o, view_scalar@));
            assert(sealed_for(o.encrypted_amount@, o.ephemeral_pubkey@, value, blinding, view_scalar@));
            lemma_scan_records_output(old(cache).view(), txs, view_scalar@, i2, j, value, blinding);
        }
    }
}

} // verus!
