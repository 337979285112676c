//! The wallet's view of its spendable outputs.
use vstd::prelude::*;
use vstd::multiset::Multiset;
use crate::consensus::utxo::{OutPoint, UtxoEntry};
use crate::primitives::bytes::bytes_equal;
use crate::primitives::hash::Hash256;
use crate::wallet::address::{address_to_script_pubkey, spec_address_to_script, AddressError};

verus! {

/// An output the wallet can spend.
#[derive(Debug)]
pub struct WalletUtxo {
    pub txid: [u8; 32],
    pub vout: u32,
    pub value: u64,
    pub script_pubkey: Vec<u8>,
    pub height: u64,
}

/// Confirmations a coinbase output needs before the wallet spends it.
pub const WALLET_COINBASE_CONFIRMATIONS: u64 = 100;

/// Confirmations of an output created at `height` when the tip is at
/// `tip_height`: the blocks from its own to the tip, none when it lies
/// above the tip.
pub open spec fn confirmations(height: u64, tip_height: u64) -> nat {
    if tip_height >= height {
        (tip_height - height + 1) as nat
    } else {
        0
    }
}

/// Whether the wallet may spend an output: a coinbase output once it has
/// `WALLET_COINBASE_CONFIRMATIONS` confirmations, any other at once.
pub fn is_spendable(coinbase: bool, height: u64, tip_height: u64) -> (r: bool)
    ensures
        r == (!coinbase || confirmations(height, tip_height) >= WALLET_COINBASE_CONFIRMATIONS),
{
    if coinbase {
        let confirmations: u64 = if tip_height >= height {
            if tip_height - height == u64::MAX {
                u64::MAX
            } else {
                tip_height - height + 1
            }
        } else {
            0
        };
        if confirmations < WALLET_COINBASE_CONFIRMATIONS {
            return false;
        }
    }
    true
}

/// The sum of the first `k` values.
pub open spec fn values_total(us: Seq<WalletUtxo>, k: int) -> nat
    decreases k,
{
    if k <= 0 {
        0
    } else {
        values_total(us, k - 1) + us[k - 1].value as nat
    }
}

/// The wallet's balance: the sum of its outputs' values, refused when it
/// passes `u64::MAX`.
pub fn total_balance(utxos: &[WalletUtxo]) -> (r: Result<u64, String>)
    ensures
        values_total(utxos@, utxos@.len() as int) <= u64::MAX ==> r == Ok::<u64, String>(
            values_total(utxos@, utxos@.len() as int) as u64,
        ),
        values_total(utxos@, utxos@.len() as int) > u64::MAX ==> r is Err,
{
    let mut total: u64 = 0;
    let mut i: usize = 0;
    while i < utxos.len()
        invariant
            i <= utxos@.len(),
            total == values_total(utxos@, i as int),
        decreases utxos@.len() - i,
    {
        match total.checked_add(utxos[i].value) {
            Some(t) => {
                total = t;
            },
            None => {
                proof {
                    lemma_values_total_monotone(utxos@, i + 1, utxos@.len() as int);
                }
                return Err("Balance overflow".to_owned());
            },
        }
        i = i + 1;
    }
    Ok(total)
}

pub proof fn lemma_values_total_monotone(us: Seq<WalletUtxo>, a: int, b: int)
    requires
        a <= b,
    ensures
        values_total(us, a) <= values_total(us, b),
    decreases b - a,
{
    if a < b {
        lemma_values_total_monotone(us, a, b - 1);
    }
}

/// Whether `address` stands for the locking script `script`.
pub open spec fn pays_to(address: Seq<char>, script: Seq<u8>) -> bool {
    spec_address_to_script(address) == Ok::<Seq<u8>, AddressError>(script)
}

/// The first of the wallet's addresses, in the order given, that stands
/// for `script_pubkey`; addresses that do not decode are passed over.
pub fn find_address_for_script(addresses: &[String], script_pubkey: &[u8]) -> (r: Option<String>)
    ensures
        r is None <==> forall|i: int|
            0 <= i < addresses@.len() ==> !pays_to(#[trigger] addresses@[i]@, script_pubkey@),
        r matches Some(a) ==> exists|i: int|
            0 <= i < addresses@.len() && a@ == addresses@[i]@ && pays_to(
                #[trigger] addresses@[i]@,
                script_pubkey@,
            ) && forall|j: int| 0 <= j < i ==> !pays_to(#[trigger] addresses@[j]@, script_pubkey@),
{
    let mut i: usize = 0;
    while i < addresses.len()
        invariant
            i <= addresses@.len(),
            forall|j: int| 0 <= j < i ==> !pays_to(#[trigger] addresses@[j]@, script_pubkey@),
        decreases addresses@.len() - i,
    {
        if let Ok(addr_script) = address_to_script_pubkey(addresses[i].as_str()) {
            if bytes_equal(addr_script.as_slice(), script_pubkey) {
                let found = addresses[i].clone();
                assert(pays_to(addresses@[i as int]@, script_pubkey@));
                return Some(found);
            }
        }
        i = i + 1;
    }
    None
}

/// Whether one of the wallet's addresses stands for `script_pubkey`.
pub fn owns_script(addresses: &[String], script_pubkey: &[u8]) -> (r: bool)
    ensures
        r == exists|i: int|
            0 <= i < addresses@.len() && pays_to(#[trigger] addresses@[i]@, script_pubkey@),
{
    let mut i: usize = 0;
    while i < addresses.len()
        invariant
            i <= addresses@.len(),
            forall|j: int| 0 <= j < i ==> !pays_to(#[trigger] addresses@[j]@, script_pubkey@),
        decreases addresses@.len() - i,
    {
        if let Ok(addr_script) = address_to_script_pubkey(addresses[i].as_str()) {
            if bytes_equal(addr_script.as_slice(), script_pubkey) {
                assert(pays_to(addresses@[i as int]@, script_pubkey@));
                return true;
            }
        }
        i = i + 1;
    }
    false
}

/// The locking scripts of the wallet's addresses, in order; the first
/// address that does not decode refuses the whole list.
pub fn wallet_scripts(addresses: &[String]) -> (r: Result<Vec<Vec<u8>>, AddressError>)
    ensures
        r matches Ok(v) ==> v@.len() == addresses@.len() && forall|i: int|
            0 <= i < v@.len() ==> pays_to(addresses@[i]@, #[trigger] v@[i]@),
        r matches Err(e) ==> exists|i: int|
            0 <= i < addresses@.len() && spec_address_to_script(#[trigger] addresses@[i]@)
                == Err::<Seq<u8>, AddressError>(e),
        (forall|i: int|
            0 <= i < addresses@.len() ==> (#[trigger] spec_address_to_script(addresses@[i]@)) is Ok)
            ==> r is Ok,
{
    let mut out: Vec<Vec<u8>> = Vec::new();
    let mut i: usize = 0;
    while i < addresses.len()
        invariant
            i <= addresses@.len(),
            out@.len() == i,
            forall|j: int| 0 <= j < i ==> pays_to(addresses@[j]@, #[trigger] out@[j]@),
        decreases addresses@.len() - i,
    {
        match address_to_script_pubkey(addresses[i].as_str()) {
            Ok(script) => {
                out.push(script);
            },
            Err(e) => {
                assert(spec_address_to_script(addresses@[i as int]@) == Err::<Seq<u8>, AddressError>(e));
                return Err(e);
            },
        }
        i = i + 1;
    }
    Ok(out)
}

/// Whether `script` is one of `scripts`.
pub open spec fn script_listed(scripts: Seq<Vec<u8>>, script: Seq<u8>) -> bool {
    exists|i: int| 0 <= i < scripts.len() && (#[trigger] scripts[i])@ == script
}

/// Whether the wallet lists an output among its own: its script is one of
/// the wallet's and it is spendable at the tip.
pub open spec fn wallet_keeps(scripts: Seq<Vec<u8>>, e: UtxoEntry, tip_height: u64) -> bool {
    script_listed(scripts, e.output.script_pubkey@) && (!e.coinbase || confirmations(
        e.height,
        tip_height,
    ) >= WALLET_COINBASE_CONFIRMATIONS)
}

/// The unspent outputs the wallet keeps, in the order given.
pub open spec fn kept_utxos(
    scripts: Seq<Vec<u8>>,
    utxos: Seq<(OutPoint, UtxoEntry)>,
    tip_height: u64,
) -> Seq<(OutPoint, UtxoEntry)>
    decreases utxos.len(),
{
    if utxos.len() == 0 {
        Seq::empty()
    } else {
        let rest = kept_utxos(scripts, utxos.drop_last(), tip_height);
        if wallet_keeps(scripts, utxos.last().1, tip_height) {
            rest.push(utxos.last())
        } else {
            rest
        }
    }
}

/// Whether a wallet output describes an unspent output.
pub open spec fn describes(w: WalletUtxo, u: (OutPoint, UtxoEntry)) -> bool {
    &&& w.txid == u.0.txid
    &&& w.vout == u.0.vout
    &&& w.value == u.1.output.value
    &&& w.script_pubkey@ == u.1.output.script_pubkey@
    &&& w.height == u.1.height
}

fn script_in(scripts: &[Vec<u8>], script: &[u8]) -> (r: bool)
    ensures
        r == script_listed(scripts@, script@),
{
    let mut i: usize = 0;
    while i < scripts.len()
        invariant
            i <= scripts@.len(),
            forall|j: int| 0 <= j < i ==> (#[trigger] scripts@[j])@ != script@,
        decreases scripts@.len() - i,
    {
        if bytes_equal(scripts[i].as_slice(), script) {
            assert(scripts@[i as int]@ == script@);
            return true;
        }
        i = i + 1;
    }
    false
}

/// What a wallet output records: outpoint, value, script and height.
pub open spec fn wallet_model(w: WalletUtxo) -> (Hash256, u32, u64, Seq<u8>, u64) {
    (w.txid, w.vout, w.value, w.script_pubkey@, w.height)
}

/// What an unspent output becomes in the wallet's list.
pub open spec fn utxo_model(u: (OutPoint, UtxoEntry)) -> (Hash256, u32, u64, Seq<u8>, u64) {
    (u.0.txid, u.0.vout, u.1.output.value, u.1.output.script_pubkey@, u.1.height)
}

/// Whether the outputs are ordered by value, largest first.
pub open spec fn sorted_by_value_desc(s: Seq<WalletUtxo>) -> bool {
    forall|i: int, j: int| 0 <= i < j < s.len() ==> s[i].value >= s[j].value
}

/// The outputs kept by the wallet, as records, in the order given.
pub open spec fn kept_models(scripts: Seq<Vec<u8>>, utxos: Seq<(OutPoint, UtxoEntry)>, tip_height: u64) -> Multiset<
    (Hash256, u32, u64, Seq<u8>, u64),
> {
    kept_utxos(scripts, utxos, tip_height).map_values(|u: (OutPoint, UtxoEntry)| utxo_model(u)).to_multiset()
}

proof fn lemma_empty_to_multiset<A>(s: Seq<A>)
    requires
        s.len() == 0,
    ensures
        s.to_multiset() =~= Multiset::<A>::empty(),
{
    broadcast use vstd::multiset::group_multiset_axioms;
    s.to_multiset_ensures();
    assert forall|a: A| s.to_multiset().count(a) == 0 by {
        assert(!s.contains(a));
    }
}

/// The same outputs, ordered by value, largest first (outputs of equal
/// value keep their order).
fn sort_by_value_desc(v: Vec<WalletUtxo>) -> (r: Vec<WalletUtxo>)
    ensures
        r@.map_values(|w: WalletUtxo| wallet_model(w)).to_multiset() == v@.map_values(
            |w: WalletUtxo| wallet_model(w),
        ).to_multiset(),
        sorted_by_value_desc(r@),
{
    broadcast use vstd::multiset::group_multiset_axioms;
    let ghost f = |w: WalletUtxo| wallet_model(w);
    let ghost total = v@.map_values(f).to_multiset();
    let mut src = v;
    let mut out: Vec<WalletUtxo> = Vec::new();
    proof {
        assert(out@.map_values(f) =~= Seq::<(Hash256, u32, u64, Seq<u8>, u64)>::empty());
        lemma_empty_to_multiset(out@.map_values(f));
        assert(out@.map_values(f).to_multiset().add(src@.map_values(f).to_multiset()) =~= total);
    }
    while src.len() > 0
        invariant
            out@.map_values(f).to_multiset().add(src@.map_values(f).to_multiset()) == total,
            sorted_by_value_desc(out@),
            f == (|w: WalletUtxo| wallet_model(w)),
        decreases src@.len(),
    {
        let ghost src0 = src@;
        let w = match src.pop() {
            Some(x) => x,
            None => {
                proof {
                    assert(false);
                }
                return out;
            },
        };
        proof {
            assert(src0 =~= src@.push(w));
            assert(src0.map_values(f) =~= src@.map_values(f).push(f(w)));
            vstd::seq_lib::to_multiset_build(src@.map_values(f), f(w));
        }
        let mut pos: usize = 0;
        while pos < out.len() && out[pos].value > w.value
            invariant
                pos <= out@.len(),
                forall|k: int| 0 <= k < pos ==> out@[k].value > w.value,
            decreases out@.len() - pos,
        {
            pos = pos + 1;
        }
        let ghost out0 = out@;
        out.insert(pos, w);
        proof {
            assert(out@.map_values(f) =~= out0.map_values(f).insert(pos as int, f(w)));
            vstd::seq_lib::to_multiset_insert(out0.map_values(f), pos as int, f(w));
            assert forall|i: int, j: int| 0 <= i < j < out@.len() implies out@[i].value >= out@[j].value by {
                if j < pos {
                    assert(out@[i] == out0[i] && out@[j] == out0[j]);
                } else if j == pos {
                    assert(out@[i] == out0[i]);
                } else if i < pos {
                    assert(out@[i] == out0[i] && out@[j] == out0[j - 1]);
                    if pos < out0.len() {
                        assert(out0[i].value >= out0[pos as int].value);
                    }
                } else if i == pos {
                    assert(out@[j] == out0[j - 1]);
                    assert(!(out0[pos as int].value > w.value));
                    assert(out0[pos as int].value >= out0[j - 1].value || j - 1 == pos);
                } else {
                    assert(out@[i] == out0[i - 1] && out@[j] == out0[j - 1]);
                }
            }
        }
    }
    proof {
        assert(src@.map_values(f) =~= Seq::<(Hash256, u32, u64, Seq<u8>, u64)>::empty());
        lemma_empty_to_multiset(src@.map_values(f));
        assert(out@.map_values(f).to_multiset() =~= out@.map_values(f).to_multiset().add(src@.map_values(f).to_multiset()));
    }
    out
}

/// The wallet's outputs among the unspent ones given: those paying one of
/// `scripts`, coinbase outputs only once spendable at `tip_height`; ordered
/// by value, largest first, as coin selection takes them.
pub fn select_wallet_utxos(
    scripts: &[Vec<u8>],
    utxos: &[(OutPoint, UtxoEntry)],
    tip_height: u64,
) -> (r: Vec<WalletUtxo>)
    ensures
        r@.len() == kept_utxos(scripts@, utxos@, tip_height).len(),
        r@.map_values(|w: WalletUtxo| wallet_model(w)).to_multiset() == kept_models(scripts@, utxos@, tip_height),
        sorted_by_value_desc(r@),
{
    let mut out: Vec<WalletUtxo> = Vec::new();
    let mut i: usize = 0;
    while i < utxos.len()
        invariant
            i <= utxos@.len(),
            out@.len() == kept_utxos(scripts@, utxos@.take(i as int), tip_height).len(),
            forall|k: int|
                0 <= k < out@.len() ==> describes(
                    #[trigger] out@[k],
                    kept_utxos(scripts@, utxos@.take(i as int), tip_height)[k],
                ),
        decreases utxos@.len() - i,
    {
        let (outpoint, entry) = &utxos[i];
        let ghost prev = utxos@.take(i as int);
        let ghost next = utxos@.take(i + 1int);
        proof {
            assert(next.drop_last() =~= prev);
            assert(next.last() == utxos@[i as int]);
        }
        let keep = script_in(scripts, entry.output.script_pubkey.as_slice())
            && is_spendable(entry.coinbase, entry.height, tip_height);
        if keep {
            let w = WalletUtxo {
                txid: outpoint.txid,
                vout: outpoint.vout,
                value: entry.output.value,
                script_pubkey: entry.output.script_pubkey.clone(),
                height: entry.height,
            };
            out.push(w);
        }
        i = i + 1;
    }
    proof {
        assert(utxos@.take(utxos@.len() as int) =~= utxos@);
        let kept = kept_utxos(scripts@, utxos@, tip_height);
        assert(out@.map_values(|w: WalletUtxo| wallet_model(w)) =~= kept.map_values(
            |u: (OutPoint, UtxoEntry)| utxo_model(u),
        )) by {
            assert forall|k: int| 0 <= k < out@.len() implies wallet_model(#[trigger] out@[k]) == utxo_model(kept[k]) by {
                assert(describes(out@[k], kept[k]));
            }
        }
    }
    let r = sort_by_value_desc(out);
    proof {
        let m = r@.map_values(|w: WalletUtxo| wallet_model(w));
        vstd::seq_lib::to_multiset_len(m);
        let m2 = kept_utxos(scripts@, utxos@, tip_height).map_values(|u: (OutPoint, UtxoEntry)| utxo_model(u));
        vstd::seq_lib::to_multiset_len(m2);
    }
    r
}

/// The wallet's spendable outputs: the scripts of its addresses (the first
/// address that does not decode refuses), then the outputs paying them,
/// ordered by value, largest first.
pub fn wallet_utxos(
    addresses: &[String],
    utxos: &[(OutPoint, UtxoEntry)],
    tip_height: u64,
) -> (r: Result<Vec<WalletUtxo>, AddressError>)
    ensures
        r matches Err(e) ==> exists|i: int|
            0 <= i < addresses@.len() && spec_address_to_script(#[trigger] addresses@[i]@)
                == Err::<Seq<u8>, AddressError>(e),
        (forall|i: int|
            0 <= i < addresses@.len() ==> (#[trigger] spec_address_to_script(addresses@[i]@)) is Ok)
            ==> r is Ok,
        r matches Ok(v) ==> sorted_by_value_desc(v@) && exists|scripts: Seq<Vec<u8>>|
            {
                &&& scripts.len() == addresses@.len()
                &&& forall|i: int| 0 <= i < scripts.len() ==> pays_to(addresses@[i]@, #[trigger] scripts[i]@)
                &&& v@.map_values(|w: WalletUtxo| wallet_model(w)).to_multiset() == kept_models(scripts, utxos@, tip_height)
            },
{
    let scripts = wallet_scripts(addresses)?;
    if scripts.len() == 0 {
        let empty: Vec<WalletUtxo> = Vec::new();
        proof {
            lemma_nothing_kept(scripts@, utxos@, tip_height);
            let kept = kept_utxos(scripts@, utxos@, tip_height);
            assert(kept =~= Seq::<(OutPoint, UtxoEntry)>::empty());
            assert(kept.map_values(|u: (OutPoint, UtxoEntry)| utxo_model(u)) =~= Seq::empty());
            assert(empty@.map_values(|w: WalletUtxo| wallet_model(w)) =~= Seq::empty());
            lemma_empty_to_multiset(kept.map_values(|u: (OutPoint, UtxoEntry)| utxo_model(u)));
            lemma_empty_to_multiset(empty@.map_values(|w: WalletUtxo| wallet_model(w)));
            assert(kept_models(scripts@, utxos@, tip_height) =~= Multiset::empty());
            assert(empty@.map_values(|w: WalletUtxo| wallet_model(w)).to_multiset() == kept_models(scripts@, utxos@, tip_height));
            assert(forall|i: int| 0 <= i < scripts@.len() ==> pays_to(addresses@[i]@, #[trigger] scripts@[i]@));
        }
        return Ok(empty);
    }
    let v = select_wallet_utxos(scripts.as_slice(), utxos, tip_height);
    Ok(v)
}

proof fn lemma_nothing_kept(scripts: Seq<Vec<u8>>, utxos: Seq<(OutPoint, UtxoEntry)>, tip_height: u64)
    requires
        scripts.len() == 0,
    ensures
        kept_utxos(scripts, utxos, tip_height).len() == 0,
    decreases utxos.len(),
{
    if utxos.len() > 0 {
        lemma_nothing_kept(scripts, utxos.drop_last(), tip_height);
    }
}

} // verus!
