//! Hash functions: SHA-256 based identifiers and domain-separated tagged hashes,
//! BLAKE3 and RIPEMD-160 digests.
use vstd::prelude::*;
use sha2::Digest;
use vstd::string::StringSliceAdditionalSpecFns;

verus! {

/// A 256-bit hash value.
pub type Hash256 = [u8; 32];

/// What `sha2::Sha256::digest` returns for `data` (32 bytes).
pub uninterp spec fn sha256_digest(data: Seq<u8>) -> Seq<u8>;

/// What `blake3::hash` returns for `data` (32 bytes).
pub uninterp spec fn blake3_digest(data: Seq<u8>) -> Seq<u8>;

/// What `ripemd::Ripemd160::digest` returns for `data` (20 bytes).
pub uninterp spec fn ripemd160_digest(data: Seq<u8>) -> Seq<u8>;

/// SHA-256 of `data`, through `sha2::Sha256::digest`. The contract only names the
/// result: the digest is a function of the input bytes.
#[verifier::external_body]
pub(crate) fn sha256(data: &[u8]) -> (out: Hash256)
    ensures
        out@ == sha256_digest(data@),
{
    let d = sha2::Sha256::digest(data);
    let mut out = [0u8; 32];
    out.copy_from_slice(&d);
    out
}

/// BLAKE3 of `data`, through `blake3::hash`. The contract only names the result.
#[verifier::external_body]
pub(crate) fn blake3_hash(data: &[u8]) -> (out: Hash256)
    ensures
        out@ == blake3_digest(data@),
{
    blake3::hash(data).into()
}

/// RIPEMD-160 of `data`, through `ripemd::Ripemd160::digest`. The contract only
/// names the result.
#[verifier::external_body]
pub(crate) fn ripemd160(data: &[u8]) -> (out: [u8; 20])
    ensures
        out@ == ripemd160_digest(data@),
{
    let d = ripemd::Ripemd160::digest(data);
    let mut out = [0u8; 20];
    out.copy_from_slice(&d);
    out
}

/// `SHA256(SHA256(data))`.
pub open spec fn spec_sha256d(data: Seq<u8>) -> Seq<u8> {
    sha256_digest(sha256_digest(data))
}

/// `SHA256(SHA256(tag) || SHA256(tag) || msg)`.
pub open spec fn spec_tagged_hash(tag: Seq<u8>, msg: Seq<u8>) -> Seq<u8> {
    sha256_digest(sha256_digest(tag) + sha256_digest(tag) + msg)
}

/// Computes the Bitcoin-style double SHA-256 hash of the provided data.
///
/// Used for transaction identifiers and block hashes.
pub fn sha256d(data: &[u8]) -> (out: Hash256)
    ensures
        out@ == spec_sha256d(data@),
{
    let first = sha256(data);
    sha256(&first)
}

/// Computes a tagged hash used for domain-separated hashing in signatures:
/// `SHA256( SHA256(tag) || SHA256(tag) || msg )`.
pub fn tagged_hash(tag: &str, msg: &[u8]) -> (out: Hash256)
    ensures
        out@ == spec_tagged_hash(tag.spec_bytes(), msg@),
{
    let tag_hash = sha256(tag.as_bytes());
    let mut data: Vec<u8> = Vec::new();
    data.extend_from_slice(&tag_hash);
    data.extend_from_slice(&tag_hash);
    data.extend_from_slice(msg);
    proof {
        assert(data@ =~= tag_hash@ + tag_hash@ + msg@);
    }
    sha256(&data)
}

/// `RIPEMD160(SHA256(data))`.
pub fn hash160(data: &[u8]) -> (out: [u8; 20])
    ensures
        out@ == ripemd160_digest(sha256_digest(data@)),
{
    let sha = sha256(data);
    ripemd160(&sha)
}

} // verus!
