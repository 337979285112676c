//! Bech32m addresses over the BLAKE3 hash of a Dilithium public key, and the
//! P2DL locking scripts they stand for.
use vstd::prelude::*;
use crate::primitives::hash::{blake3_digest, blake3_hash};
use crate::script::engine::{is_p2dl, is_p2dl_script};

verus! {

/// Human-readable part of mainnet addresses.
pub const MAINNET_HRP: &'static str = "frr";

/// Human-readable part of testnet addresses.
pub const TESTNET_HRP: &'static str = "tfrr";

/// Network prefix byte of mainnet.
pub const MAINNET_PREFIX: u8 = 0x00;

/// Network prefix byte of testnet.
pub const TESTNET_PREFIX: u8 = 0x6f;

/// Why an address was refused.
#[derive(Debug, Clone, Copy, PartialEq, Eq)]
pub enum AddressError {
    /// Not a well-formed bech32 or bech32m string with a valid checksum.
    InvalidEncoding,
    /// The human-readable part names no known network.
    UnknownHrp,
    /// The payload is not 32 bytes.
    InvalidPayloadLength,
    /// The network prefix byte names no known network.
    UnknownNetworkPrefix,
}

/// What `bech32::encode::<Bech32m>` returns for a human-readable part and data.
pub uninterp spec fn bech32m_encoding(hrp: Seq<char>, data: Seq<u8>) -> Seq<char>;

/// What `bech32::decode` returns for a string: the human-readable part and
/// the data, or `None` when it refuses the string.
pub uninterp spec fn bech32_decoding(s: Seq<char>) -> Option<(Seq<char>, Seq<u8>)>;

/// A human-readable part made of 1 to 83 lowercase ASCII letters.
pub open spec fn is_lowercase_hrp(hrp: Seq<char>) -> bool {
    1 <= hrp.len() <= 83 && forall|i: int| 0 <= i < hrp.len() ==> 'a' <= #[trigger] hrp[i] <= 'z'
}

/// Length of the bech32m string for `hrp` and `n` data bytes: the part,
/// the separator, the data in 5-bit groups, and 6 checksum characters.
pub open spec fn bech32m_length(hrp_len: nat, n: nat) -> nat {
    hrp_len + 1 + (8 * n + 4) / 5 + 6
}

/// Encodes `data` under `hrp` with a bech32m checksum, through
/// `bech32::Hrp::parse_unchecked` and `bech32::encode::<Bech32m>`. Claims: the
/// encoder fails only when the string would pass 1023 characters (its
/// `encoded_length` check); the string is the named encoding; it begins with
/// the part and the separator `1`; and `bech32::decode` gives the part and the
/// data back, the checksum being a valid bech32m one.
#[verifier::external_body]
fn bech32m_encode(hrp: &str, data: &[u8]) -> (r: Option<String>)
    requires
        is_lowercase_hrp(hrp@),
    ensures
        bech32m_length(hrp@.len(), data@.len()) <= 1023 ==> r is Some,
        r matches Some(s) ==> s@ == bech32m_encoding(hrp@, data@),
        r matches Some(s) ==> s@.len() > hrp@.len() && s@.subrange(0, hrp@.len() as int) == hrp@
            && s@[hrp@.len() as int] == '1',
        r matches Some(s) ==> bech32_decoding(s@) == Some((hrp@, data@)),
{
    let parsed = bech32::Hrp::parse_unchecked(hrp);
    match bech32::encode::<bech32::Bech32m>(parsed, data) {
        Ok(s) => Some(s),
        Err(_) => None,
    }
}

/// Decodes a bech32 or bech32m string, through `bech32::decode` and
/// `bech32::Hrp::as_str`: `None` exactly when the named decoding refuses it.
#[verifier::external_body]
fn bech32_decode(s: &str) -> (r: Option<(String, Vec<u8>)>)
    ensures
        match bech32_decoding(s@) {
            None => r is None,
            Some((h, d)) => r matches Some((rh, rd)) && rh@ == h && rd@ == d,
        },
{
    match bech32::decode(s) {
        Ok((hrp, data)) => Some((hrp.as_str().to_string(), data)),
        Err(_) => None,
    }
}

/// The characters of the mainnet part.
pub open spec fn mainnet_hrp() -> Seq<char> {
    seq!['f', 'r', 'r']
}

/// The characters of the testnet part.
pub open spec fn testnet_hrp() -> Seq<char> {
    seq!['t', 'f', 'r', 'r']
}

/// The human-readable part of a network prefix byte.
pub open spec fn spec_hrp(network_prefix: u8) -> Option<Seq<char>> {
    if network_prefix == MAINNET_PREFIX {
        Some(mainnet_hrp())
    } else if network_prefix == TESTNET_PREFIX {
        Some(testnet_hrp())
    } else {
        None
    }
}

/// The network prefix byte of a human-readable part.
pub open spec fn spec_prefix_of_hrp(hrp: Seq<char>) -> Option<u8> {
    if hrp == mainnet_hrp() {
        Some(MAINNET_PREFIX)
    } else if hrp == testnet_hrp() {
        Some(TESTNET_PREFIX)
    } else {
        None
    }
}

/// The address of a 32-byte hash on a network.
pub open spec fn spec_hash_to_address(hash: Seq<u8>, network_prefix: u8) -> Seq<char> {
    bech32m_encoding(spec_hrp(network_prefix).unwrap(), hash)
}

/// What decoding an address gives: its hash and network prefix, or why not.
pub open spec fn spec_address_to_hash(address: Seq<char>) -> Result<(Seq<u8>, u8), AddressError> {
    match bech32_decoding(address) {
        None => Err(AddressError::InvalidEncoding),
        Some((hrp, data)) => match spec_prefix_of_hrp(hrp) {
            None => Err(AddressError::UnknownHrp),
            Some(p) => if data.len() != 32 {
                Err(AddressError::InvalidPayloadLength)
            } else {
                Ok((data, p))
            },
        },
    }
}

/// The P2DL locking script for a 32-byte hash:
/// `OP_HASH256 push32 <hash> OP_EQUALVERIFY OP_CHECKSIG`.
pub open spec fn p2dl_script_bytes(hash: Seq<u8>) -> Seq<u8> {
    seq![0xaau8, 0x20u8] + hash + seq![0x88u8, 0xacu8]
}

/// The locking script an address stands for.
pub open spec fn spec_address_to_script(address: Seq<char>) -> Result<Seq<u8>, AddressError> {
    match spec_address_to_hash(address) {
        Ok((h, _)) => Ok(p2dl_script_bytes(h)),
        Err(e) => Err(e),
    }
}

/// The address a locking script pays to, when it is a P2DL script.
pub open spec fn spec_script_to_address(script: Seq<u8>, network_prefix: u8) -> Option<Seq<char>> {
    if is_p2dl_script(script) {
        Some(spec_hash_to_address(script.subrange(2, 34), network_prefix))
    } else {
        None
    }
}

/// Every address begins with its network's human-readable part and `1`.
pub open spec fn has_network_prefix(address: Seq<char>, network_prefix: u8) -> bool {
    let hrp = spec_hrp(network_prefix).unwrap();
    address.len() > hrp.len() && address.subrange(0, hrp.len() + 1int) == hrp.push('1')
}

/// An address made from a 32-byte hash, once it decodes back to that hash
/// and network, turns into the P2DL script of the hash, and that script
/// turns back into the same address.
pub proof fn lemma_address_script_roundtrip(hash: Seq<u8>, network_prefix: u8)
    requires
        hash.len() == 32,
        spec_hrp(network_prefix) is Some,
        spec_address_to_hash(spec_hash_to_address(hash, network_prefix)) == Ok::<
            (Seq<u8>, u8),
            AddressError,
        >((hash, network_prefix)),
    ensures
        spec_address_to_script(spec_hash_to_address(hash, network_prefix)) == Ok::<
            Seq<u8>,
            AddressError,
        >(p2dl_script_bytes(hash)),
        spec_script_to_address(p2dl_script_bytes(hash), network_prefix) == Some(
            spec_hash_to_address(hash, network_prefix),
        ),
{
    let s = p2dl_script_bytes(hash);
    assert(s.subrange(2, 34) =~= hash);
}

proof fn lemma_known_hrps()
    ensures
        MAINNET_HRP@ == mainnet_hrp(),
        TESTNET_HRP@ == testnet_hrp(),
        is_lowercase_hrp(mainnet_hrp()),
        is_lowercase_hrp(testnet_hrp()),
        mainnet_hrp() != testnet_hrp(),
{
    reveal_strlit("frr");
    reveal_strlit("tfrr");
    assert(MAINNET_HRP@ =~= mainnet_hrp());
    assert(TESTNET_HRP@ =~= testnet_hrp());
}

/// Hash a Dilithium public key (1952 bytes) to a 32-byte address payload.
pub fn dilithium_pubkey_hash(pubkey_bytes: &[u8]) -> (r: [u8; 32])
    ensures
        r@ == blake3_digest(pubkey_bytes@),
{
    blake3_hash(pubkey_bytes)
}

/// The human-readable part for a network prefix byte.
fn hrp_for_prefix(network_prefix: u8) -> (r: Result<&'static str, AddressError>)
    ensures
        match spec_hrp(network_prefix) {
            Some(h) => r matches Ok(s) && s@ == h,
            None => r == Err::<&'static str, AddressError>(AddressError::UnknownNetworkPrefix),
        },
{
    proof {
        lemma_known_hrps();
    }
    if network_prefix == MAINNET_PREFIX {
        Ok(MAINNET_HRP)
    } else if network_prefix == TESTNET_PREFIX {
        Ok(TESTNET_HRP)
    } else {
        Err(AddressError::UnknownNetworkPrefix)
    }
}

/// Encode a 32-byte hash as a bech32m address.
pub fn hash_to_address(hash: &[u8; 32], network_prefix: u8) -> (r: String)
    requires
        spec_hrp(network_prefix) is Some,
    ensures
        r@ == spec_hash_to_address(hash@, network_prefix),
        spec_address_to_hash(r@) == Ok::<(Seq<u8>, u8), AddressError>((hash@, network_prefix)),
        has_network_prefix(r@, network_prefix),
{
    proof {
        lemma_known_hrps();
    }
    let hrp = match hrp_for_prefix(network_prefix) {
        Ok(h) => h,
        Err(_) => {
            proof {
                assert(false);
            }
            MAINNET_HRP
        },
    };
    assert(bech32m_length(hrp@.len(), 32) <= 1023);
    match bech32m_encode(hrp, hash) {
        Some(s) => {
            proof {
                let h = hrp@;
                assert(s@.subrange(0, h.len() + 1int) =~= h.push('1'));
            }
            s
        },
        None => {
            proof {
                assert(false);
            }
            String::new()
        },
    }
}

/// Decode a bech32m address to its 32-byte hash and network prefix byte.
pub fn address_to_hash(address: &str) -> (r: Result<([u8; 32], u8), AddressError>)
    ensures
        match spec_address_to_hash(address@) {
            Ok((h, p)) => r matches Ok((rh, rp)) && rh@ == h && rp == p,
            Err(e) => r == Err::<([u8; 32], u8), AddressError>(e),
        },
{
    proof {
        lemma_known_hrps();
    }
    let (hrp, data) = match bech32_decode(address) {
        Some(x) => x,
        None => {
            return Err(AddressError::InvalidEncoding);
        },
    };
    let prefix = if hrp == MAINNET_HRP.to_owned() {
        MAINNET_PREFIX
    } else if hrp == TESTNET_HRP.to_owned() {
        TESTNET_PREFIX
    } else {
        return Err(AddressError::UnknownHrp);
    };
    if data.len() != 32 {
        return Err(AddressError::InvalidPayloadLength);
    }
    let mut hash = [0u8; 32];
    let mut i: usize = 0;
    while i < 32
        invariant
            i <= 32,
            data@.len() == 32,
            forall|j: int| 0 <= j < i ==> hash@[j] == data@[j],
        decreases 32 - i,
    {
        hash[i] = data[i];
        i = i + 1;
    }
    proof {
        assert(hash@ =~= data@);
    }
    Ok((hash, prefix))
}

/// Full pipeline: Dilithium pubkey bytes → bech32m address string.
pub fn pubkey_to_address(pubkey_bytes: &[u8], network_prefix: u8) -> (r: String)
    requires
        spec_hrp(network_prefix) is Some,
    ensures
        r@ == spec_hash_to_address(blake3_digest(pubkey_bytes@), network_prefix),
        spec_address_to_hash(r@) == Ok::<(Seq<u8>, u8), AddressError>(
            (blake3_digest(pubkey_bytes@), network_prefix),
        ),
        has_network_prefix(r@, network_prefix),
{
    let hash = dilithium_pubkey_hash(pubkey_bytes);
    hash_to_address(&hash, network_prefix)
}

/// Build P2DL scriptPubKey: OP_HASH256 <push 32> <32-byte-hash> OP_EQUALVERIFY OP_CHECKSIG
/// Total: 1 + 1 + 32 + 1 + 1 = 36 bytes
pub fn address_to_script_pubkey(address: &str) -> (r: Result<Vec<u8>, AddressError>)
    ensures
        match spec_address_to_script(address@) {
            Ok(sc) => r matches Ok(s) && s@ == sc,
            Err(e) => r == Err::<Vec<u8>, AddressError>(e),
        },
{
    let (hash, _prefix) = address_to_hash(address)?;
    let mut script: Vec<u8> = Vec::with_capacity(36);
    script.push(0xaa);
    script.push(0x20);
    script.extend_from_slice(&hash);
    script.push(0x88);
    script.push(0xac);
    proof {
        assert(script@ =~= p2dl_script_bytes(hash@));
    }
    Ok(script)
}

/// Reverse: extract 32-byte hash from P2DL script, encode as address.
pub fn script_pubkey_to_address(script: &[u8], network_prefix: u8) -> (r: Option<String>)
    requires
        is_p2dl_script(script@) ==> spec_hrp(network_prefix) is Some,
    ensures
        match spec_script_to_address(script@, network_prefix) {
            Some(a) => r matches Some(s) && s@ == a,
            None => r is None,
        },
{
    if is_p2dl(script) {
        let mut hash = [0u8; 32];
        let mut i: usize = 0;
        while i < 32
            invariant
                i <= 32,
                script@.len() == 36,
                forall|j: int| 0 <= j < i ==> hash@[j] == script@[j + 2],
            decreases 32 - i,
        {
            hash[i] = script[i + 2];
            i = i + 1;
        }
        proof {
            assert(hash@ =~= script@.subrange(2, 34));
        }
        Some(hash_to_address(&hash, network_prefix))
    } else {
        None
    }
}

} // verus!
