//! Pedersen commitments to amounts, their range proofs, and amounts
//! encrypted to a recipient's view key.
use vstd::prelude::*;
use sha2::Digest;
use rand::RngCore;
use bulletproofs::{BulletproofGens, PedersenGens, RangeProof as BpRangeProof};
use curve25519_dalek_ng::constants::RISTRETTO_BASEPOINT_POINT;
use curve25519_dalek_ng::ristretto::{CompressedRistretto, RistrettoPoint};
use curve25519_dalek_ng::scalar::Scalar;
use merlin::Transcript;
use vstd::string::StringSliceAdditionalSpecFns;
use crate::consensus::transaction::{BlindingFactor, PedersenCommitment, RangeProof};
use crate::primitives::bytes::{le_bytes, le_value, push_le, read_le};

verus! {

/// A domain label that lives as long as the program.
pub type Label = &'static str;

/// Bits of the range proved for an amount.
pub const RANGE_BITS: usize = 64;

/// Bytes of an encoded range proof of `RANGE_BITS` bits.
pub const RANGE_PROOF_LEN: usize = 672;

/// Domain label of range-proof transcripts.
pub const TRANSCRIPT_LABEL: &'static str = "Ferrous/RangeProof";

/// Length of an encrypted amount: 8 bytes of value, 32 of blinding factor.
pub const AMOUNT_PLAINTEXT_LEN: usize = 40;

/// Domain label of the amount key stream.
pub const AMOUNT_KDF_LABEL: &'static str = "Ferrous/amount-kdf";

/// Domain label hashed to the blinding generator.
pub const H_LABEL: &'static str = "Ferrous/H";

#[derive(Debug, Clone, Copy, PartialEq, Eq)]
pub enum CommitmentError {
    ProofGeneration,
    ProofVerification,
    InvalidProofEncoding,
}

/// What `sha2::Sha512::digest` returns (64 bytes).
pub uninterp spec fn sha512_digest(data: Seq<u8>) -> Seq<u8>;

/// The compressed point `RistrettoPoint::from_uniform_bytes` maps 64 bytes to.
pub uninterp spec fn ristretto_uniform_point(wide: Seq<u8>) -> Seq<u8>;

/// Whether 32 bytes are the compressed encoding of a Ristretto point, as
/// `CompressedRistretto::decompress` decides.
pub uninterp spec fn ristretto_point_valid(bytes: Seq<u8>) -> bool;

/// The compressed Pedersen commitment `value·B + blinding·H` that
/// `PedersenGens::commit` computes with the base point `B` and
/// the blinding generator `H` (compressed).
pub uninterp spec fn pedersen_commitment(h: Seq<u8>, value: u64, blinding: Seq<u8>) -> Seq<u8>;

/// The compressed point `scalar·P` for a compressed point `P`.
pub uninterp spec fn ristretto_scalar_mul(scalar: Seq<u8>, point: Seq<u8>) -> Seq<u8>;

/// The compressed point `scalar·B` for the base point `B`.
pub uninterp spec fn ristretto_basepoint_mul(scalar: Seq<u8>) -> Seq<u8>;

/// The compressed sum of two compressed points.
pub uninterp spec fn ristretto_add(a: Seq<u8>, b: Seq<u8>) -> Seq<u8>;

/// The order `ℓ = 2^252 + 27742317777372353535851937790883648493` of the
/// Ristretto group, which scalars are taken modulo.
pub open spec fn group_order() -> nat {
    0x1000000000000000000000000000000014def9dea2f79cd65812631a5cf5d3ednat
}

/// The canonical encoding of a scalar: its value modulo `ℓ`, in 32 bytes,
/// least significant first.
pub open spec fn scalar_bytes(x: nat) -> Seq<u8> {
    le_bytes(x % group_order(), 32)
}

/// The encoding of the negation, modulo `ℓ`, of the scalar whose
/// little-endian bytes are `b`.
pub open spec fn negated_scalar(b: Seq<u8>) -> Seq<u8> {
    scalar_bytes((group_order() - le_value(b) % group_order()) as nat)
}

/// The first `len` bytes of BLAKE3's extendable output for `data`.
pub uninterp spec fn blake3_xof_output(data: Seq<u8>, len: nat) -> Seq<u8>;

/// SHA-512 of `data`, through `sha2::Sha512::digest`; the result is named.
#[verifier::external_body]
fn sha512(data: &[u8]) -> (r: [u8; 64])
    ensures
        r@ == sha512_digest(data@),
{
    let d = sha2::Sha512::digest(data);
    let mut out = [0u8; 64];
    out.copy_from_slice(&d);
    out
}

/// `RistrettoPoint::from_uniform_bytes`, compressed. Claims that the result
/// is named, and that it is the encoding of a point.
#[verifier::external_body]
fn ristretto_uniform(wide: &[u8; 64]) -> (r: [u8; 32])
    ensures
        r@ == ristretto_uniform_point(wide@),
        ristretto_point_valid(r@),
{
    RistrettoPoint::from_uniform_bytes(wide).compress().to_bytes()
}

/// `PedersenGens { B: base point, B_blinding: H }.commit(value, blinding)`,
/// compressed, with `H` decompressed from `h` and the blinding scalar read by
/// `Scalar::from_bytes_mod_order`. `None` exactly when `h` does not decompress.
#[verifier::external_body]
fn pedersen_commit_point(h: &[u8; 32], value: u64, blinding: &[u8; 32]) -> (r: Option<[u8; 32]>)
    ensures
        r is Some <==> ristretto_point_valid(h@),
        r matches Some(c) ==> c@ == pedersen_commitment(h@, value, blinding@),
{
    let hp = match CompressedRistretto(*h).decompress() {
        Some(p) => p,
        None => return None,
    };
    let gens = PedersenGens {
        B: RISTRETTO_BASEPOINT_POINT,
        B_blinding: hp,
    };
    let v = Scalar::from(value);
    let b = Scalar::from_bytes_mod_order(*blinding);
    Some(gens.commit(v, b).compress().to_bytes())
}

/// `scalar · point` on Ristretto points, the scalar read by
/// `Scalar::from_bytes_mod_order`, the point decompressed and the product
/// compressed. `None` exactly when the point does not decompress. Claimed
/// besides, as scalar multiplication in the group gives it: where the point
/// is `e·B` for the base point `B`, the product `scalar·(e·B)` is
/// `e·(scalar·B)` (compression of a point decompresses to that point).
#[verifier::external_body]
fn shared_secret(scalar: &[u8; 32], point: &[u8; 32]) -> (r: Option<[u8; 32]>)
    ensures
        r is Some <==> ristretto_point_valid(point@),
        r matches Some(s) ==> s@ == ristretto_scalar_mul(scalar@, point@),
        r matches Some(s) ==> forall|e: Seq<u8>|
            e.len() == 32 && point@ == #[trigger] ristretto_basepoint_mul(e) ==> s@
                == ristretto_scalar_mul(e, ristretto_basepoint_mul(scalar@)),
{
    let p = match CompressedRistretto(*point).decompress() {
        Some(p) => p,
        None => return None,
    };
    let s = Scalar::from_bytes_mod_order(*scalar);
    Some((s * p).compress().to_bytes())
}

/// `scalar · B` for the Ristretto base point, compressed. Claims the result
/// is named and encodes a point.
#[verifier::external_body]
fn basepoint_mul(scalar: &[u8; 32]) -> (r: [u8; 32])
    ensures
        r@ == ristretto_basepoint_mul(scalar@),
        ristretto_point_valid(r@),
{
    let s = Scalar::from_bytes_mod_order(*scalar);
    (s * RISTRETTO_BASEPOINT_POINT).compress().to_bytes()
}

/// The sum of two compressed Ristretto points, compressed. `None` exactly
/// when one of them does not decompress.
#[verifier::external_body]
fn point_add(a: &[u8; 32], b: &[u8; 32]) -> (r: Option<[u8; 32]>)
    ensures
        (r is Some) == (ristretto_point_valid(a@) && ristretto_point_valid(b@)),
        r matches Some(s) ==> s@ == ristretto_add(a@, b@) && ristretto_point_valid(s@),
{
    let pa = CompressedRistretto(*a).decompress();
    let pb = CompressedRistretto(*b).decompress();
    match (pa, pb) {
        (Some(x), Some(y)) => Some((x + y).compress().to_bytes()),
        _ => None,
    }
}

/// `Scalar::from_bytes_mod_order_wide`, as its 32 canonical bytes: the
/// 512-bit little-endian integer `wide` reduced modulo `ℓ`, as the crate's
/// documentation states, encoded by `to_bytes`.
#[verifier::external_body]
fn reduce_wide(wide: &[u8; 64]) -> (r: [u8; 32])
    ensures
        r@ == scalar_bytes(le_value(wide@)),
{
    Scalar::from_bytes_mod_order_wide(wide).to_bytes()
}

/// 64 bytes from `rand::thread_rng`; nothing is claimed of them.
#[verifier::external_body]
fn random_wide() -> (r: [u8; 64]) {
    let mut wide = [0u8; 64];
    rand::thread_rng().fill_bytes(&mut wide);
    wide
}

/// The first `len` bytes of BLAKE3's extendable output for `data`, through
/// `blake3::Hasher` (`update`, `finalize_xof`, `fill`). Claims the result
/// is named and has `len` bytes.
#[verifier::external_body]
fn blake3_xof(data: &[u8], len: usize) -> (r: Vec<u8>)
    ensures
        r@ == blake3_xof_output(data@, len as nat),
        r@.len() == len,
{
    let mut hasher = blake3::Hasher::new();
    hasher.update(data);
    let mut reader = hasher.finalize_xof();
    let mut out = vec![0u8; len];
    reader.fill(&mut out);
    out
}

/// Whether `bits` is a range size that bulletproofs proves and checks.
pub open spec fn supported_range_bits(bits: nat) -> bool {
    bits == 8 || bits == 16 || bits == 32 || bits == 64
}

/// Bytes of an encoded single-value proof of `bits` bits: seven 32-byte
/// elements, two points per inner-product round (one round per halving of
/// `bits`) and two closing scalars.
pub open spec fn range_proof_len(bits: nat) -> nat {
    if bits == 8 {
        480
    } else if bits == 16 {
        544
    } else if bits == 32 {
        608
    } else {
        672
    }
}

/// A single-value range proof of `bits` bits for `value` under the blinding
/// generator `h`, through `BpRangeProof::prove_single` with a fresh
/// `BulletproofGens::new(bits, 1)` and a transcript labelled `label`. The
/// prover draws random numbers, so the bytes are not claimed, nor is success
/// (a zero challenge drawn from the transcript makes it fail). Claimed from
/// the source: an `h` that does not decompress, or a size other than 8, 16,
/// 32 or 64 (the dealer's `InvalidBitsize`), is refused; a proof comes out
/// of `RangeProof::to_bytes` as four points, three scalars, `log2(bits)`
/// inner-product rounds of two points and two scalars. The generators are
/// built before the size is checked, so sizes over 64 are not admitted.
#[verifier::external_body]
fn prove_range(h: &[u8; 32], label: Label, value: u64, blinding: &[u8; 32], bits: usize) -> (r: Option<Vec<u8>>)
    requires
        bits <= 64,
    ensures
        !ristretto_point_valid(h@) ==> r is None,
        !supported_range_bits(bits as nat) ==> r is None,
        r matches Some(p) ==> p@.len() == range_proof_len(bits as nat),
{
    let hp = CompressedRistretto(*h).decompress()?;
    let pc = PedersenGens { B: RISTRETTO_BASEPOINT_POINT, B_blinding: hp };
    let bp = BulletproofGens::new(bits, 1);
    let mut transcript = Transcript::new(label.as_bytes());
    let b = Scalar::from_bytes_mod_order(*blinding);
    match BpRangeProof::prove_single(&bp, &pc, &mut transcript, value, &b, bits) {
        Ok((proof, _)) => Some(proof.to_bytes()),
        Err(_) => None,
    }
}

/// Checks a range proof of `bits` bits for a commitment, through
/// `bulletproofs::RangeProof::from_bytes` and `verify_single` (generators
/// `BulletproofGens::new(bits, 1)`, transcript labelled `label`). Claims only
/// what the source shows without running the check: a proof whose length is
/// not a multiple of 32 or is under 224 bytes is refused as badly encoded,
/// and a size other than 8, 16, 32 or 64 is refused. The check itself draws
/// random numbers, so its verdict is not claimed.
#[verifier::external_body]
fn verify_range(
    h: &[u8; 32],
    label: Label,
    commitment: &[u8; 32],
    proof: &[u8],
    bits: usize,
) -> (r: Result<(), CommitmentError>)
    requires
        bits <= 64,
    ensures
        (proof@.len() % 32 != 0 || proof@.len() < 224) ==> (r matches Err(
            CommitmentError::InvalidProofEncoding,
        )),
        !supported_range_bits(bits as nat) ==> r is Err,
{
    let Ok(bp_proof) = BpRangeProof::from_bytes(proof) else {
        return Err(CommitmentError::InvalidProofEncoding);
    };
    let Some(hp) = CompressedRistretto(*h).decompress() else {
        return Err(CommitmentError::ProofVerification);
    };
    let pc = PedersenGens { B: RISTRETTO_BASEPOINT_POINT, B_blinding: hp };
    let bp = BulletproofGens::new(bits, 1);
    let mut transcript = Transcript::new(label.as_bytes());
    let v = CompressedRistretto(*commitment);
    bp_proof.verify_single(&bp, &pc, &mut transcript, &v, bits).map_err(|_| CommitmentError::ProofVerification)
}

/// `(-Scalar::from_bytes_mod_order(b)).to_bytes()` of curve25519-dalek-ng:
/// the 256-bit little-endian integer `b` reduced modulo `ℓ`, subtracted
/// from zero modulo `ℓ` (`Neg`), and encoded canonically.
#[verifier::external_body]
fn negate_scalar(b: &[u8; 32]) -> (r: [u8; 32])
    ensures
        r@ == negated_scalar(b@),
{
    (-Scalar::from_bytes_mod_order(*b)).to_bytes()
}

/// The blinding factor that cancels `b`: its negation modulo the group
/// order.
pub fn negated_blinding(b: &BlindingFactor) -> (r: BlindingFactor)
    ensures
        r.0@ == negated_scalar(b.0@),
{
    BlindingFactor(negate_scalar(&b.0))
}

/// The blinding generator `H`: SHA-512 of `H_LABEL`, mapped to a point.
pub open spec fn spec_h_generator() -> Seq<u8> {
    ristretto_uniform_point(sha512_digest(H_LABEL.spec_bytes()))
}

/// The blinding generator, compressed.
fn h_generator() -> (r: [u8; 32])
    ensures
        r@ == spec_h_generator(),
        ristretto_point_valid(r@),
{
    let digest = sha512(H_LABEL.as_bytes());
    ristretto_uniform(&digest)
}

/// The commitment to `value` under `blinding`.
pub open spec fn spec_commit(value: u64, blinding: Seq<u8>) -> Seq<u8> {
    pedersen_commitment(spec_h_generator(), value, blinding)
}

pub fn commit(value: u64, blinding: &BlindingFactor) -> (r: PedersenCommitment)
    ensures
        r.0@ == spec_commit(value, blinding.0@),
{
    let h = h_generator();
    match pedersen_commit_point(&h, value, &blinding.0) {
        Some(c) => PedersenCommitment(c),
        None => {
            proof {
                assert(false);
            }
            PedersenCommitment([0u8; 32])
        },
    }
}

/// The summed points of `cs`, starting from `acc`: `None` once one does
/// not decompress.
pub open spec fn sum_points(acc: Seq<u8>, cs: Seq<PedersenCommitment>) -> Option<Seq<u8>>
    decreases cs.len(),
{
    if cs.len() == 0 {
        Some(acc)
    } else {
        let first = cs[0].0@;
        if !ristretto_point_valid(acc) || !ristretto_point_valid(first) {
            None
        } else {
            sum_points(ristretto_add(acc, first), cs.drop_first())
        }
    }
}

/// The compressed identity point (32 zero bytes).
pub open spec fn identity_point() -> Seq<u8> {
    Seq::new(32, |i: int| 0u8)
}

/// The 32-byte little-endian scalar of a `u64`.
pub open spec fn scalar_of_u64(v: u64) -> Seq<u8> {
    crate::primitives::bytes::le_bytes(v as nat, 32)
}

/// Inputs balance outputs plus the fee: the summed input points equal the
/// summed output points plus `fee·B`; false when a point does not decompress.
pub open spec fn spec_balance(inputs: Seq<PedersenCommitment>, outputs: Seq<PedersenCommitment>, fee: u64) -> bool {
    match (sum_points(identity_point(), inputs), sum_points(identity_point(), outputs)) {
        (Some(si), Some(so)) => {
            let fee_point = ristretto_basepoint_mul(scalar_of_u64(fee));
            ristretto_point_valid(so) && si == ristretto_add(so, fee_point)
        },
        _ => false,
    }
}

/// Sums the points of `cs` onto `acc`.
fn sum_commitments(acc: [u8; 32], cs: &[PedersenCommitment]) -> (r: Option<[u8; 32]>)
    ensures
        match sum_points(acc@, cs@) {
            Some(s) => r matches Some(x) && x@ == s,
            None => r is None,
        },
{
    let mut total = acc;
    let mut i: usize = 0;
    assert(cs@.skip(0) =~= cs@);
    while i < cs.len()
        invariant
            i <= cs@.len(),
            sum_points(acc@, cs@) == sum_points(total@, cs@.skip(i as int)),
        decreases cs@.len() - i,
    {
        proof {
            let rest = cs@.skip(i as int);
            assert(rest[0] == cs@[i as int]);
            assert(rest.drop_first() =~= cs@.skip(i + 1));
        }
        match point_add(&total, &cs[i].0) {
            Some(t) => {
                total = t;
            },
            None => {
                return None;
            },
        }
        i = i + 1;
    }
    proof {
        assert(cs@.skip(i as int) =~= Seq::<PedersenCommitment>::empty());
    }
    Some(total)
}

/// Whether input commitments balance output commitments plus the fee.
pub fn verify_balance(inputs: &[PedersenCommitment], outputs: &[PedersenCommitment], fee: u64) -> (r: bool)
    ensures
        r == spec_balance(inputs@, outputs@, fee),
{
    let zero = [0u8; 32];
    proof {
        assert(zero@ =~= identity_point());
    }
    let sum_in = match sum_commitments(zero, inputs) {
        Some(s) => s,
        None => {
            return false;
        },
    };
    let sum_out = match sum_commitments(zero, outputs) {
        Some(s) => s,
        None => {
            return false;
        },
    };
    let mut fee_scalar: Vec<u8> = Vec::new();
    push_le(&mut fee_scalar, fee, 8);
    let mut k: usize = 0;
    while k < 24
        invariant
            k <= 24,
            fee_scalar@ == crate::primitives::bytes::le_bytes(fee as nat, 8) + Seq::new(k as nat, |i: int| 0u8),
        decreases 24 - k,
    {
        fee_scalar.push(0);
        proof {
            assert(fee_scalar@ =~= crate::primitives::bytes::le_bytes(fee as nat, 8) + Seq::new((k + 1) as nat, |i: int| 0u8));
        }
        k = k + 1;
    }
    proof {
        crate::primitives::bytes::lemma_le_bytes_len(fee as nat, 8);
    }
    let mut fee_bytes = [0u8; 32];
    let mut j: usize = 0;
    while j < 32
        invariant
            j <= 32,
            fee_scalar@.len() == 32,
            forall|i: int| 0 <= i < j ==> fee_bytes@[i] == fee_scalar@[i],
        decreases 32 - j,
    {
        fee_bytes[j] = fee_scalar[j];
        j = j + 1;
    }
    proof {
        crate::primitives::bytes::lemma_le_bytes_len(fee as nat, 8);
        assert(fee_bytes@ =~= fee_scalar@);
        lemma_scalar_of_u64(fee);
    }
    let fee_point = basepoint_mul(&fee_bytes);
    match point_add(&sum_out, &fee_point) {
        Some(expected) => bytes32_equal(&sum_in, &expected),
        None => false,
    }
}

proof fn lemma_scalar_of_u64(v: u64)
    ensures
        scalar_of_u64(v) == crate::primitives::bytes::le_bytes(v as nat, 8) + Seq::new(24, |i: int| 0u8),
{
    crate::primitives::bytes::lemma_le_bytes_split(v as nat, 8, 24);
    assert(crate::primitives::bytes::pow256(8) == 0x1_0000_0000_0000_0000) by {
        reveal_with_fuel(crate::primitives::bytes::pow256, 9);
    }
    vstd::arithmetic::div_mod::lemma_basic_div(v as int, 0x1_0000_0000_0000_0000);
    crate::primitives::bytes::lemma_le_bytes_zero(24);
}

fn bytes32_equal(a: &[u8; 32], b: &[u8; 32]) -> (r: bool)
    ensures
        r == (a@ == b@),
{
    let mut i: usize = 0;
    while i < 32
        invariant
            i <= 32,
            forall|j: int| 0 <= j < i ==> a@[j] == b@[j],
        decreases 32 - i,
    {
        if a[i] != b[i] {
            return false;
        }
        i = i + 1;
    }
    proof {
        assert(a@ =~= b@);
    }
    true
}

/// A range proof for `value` under `blinding`, `RANGE_PROOF_LEN` bytes
/// long; the prover is randomised, so the bytes are not stated, and a
/// refusal is `ProofGeneration`.
pub fn generate_range_proof(value: u64, blinding: &BlindingFactor) -> (r: Result<RangeProof, CommitmentError>)
    ensures
        r matches Err(e) ==> e == CommitmentError::ProofGeneration,
        r matches Ok(p) ==> p.0@.len() == RANGE_PROOF_LEN,
{
    let h = h_generator();
    match prove_range(&h, TRANSCRIPT_LABEL, value, &blinding.0, RANGE_BITS) {
        Some(p) => Ok(RangeProof(p)),
        None => Err(CommitmentError::ProofGeneration),
    }
}

/// Checks a range proof for a commitment; a proof whose length is not a
/// multiple of 32 or is under 224 bytes is refused as badly encoded.
pub fn verify_range_proof(commitment: &PedersenCommitment, proof: &RangeProof) -> (r: Result<(), CommitmentError>)
    ensures
        (proof.0@.len() % 32 != 0 || proof.0@.len() < 224) ==> r == Err::<(), CommitmentError>(
            CommitmentError::InvalidProofEncoding,
        ),
{
    let h = h_generator();
    verify_range(&h, TRANSCRIPT_LABEL, &commitment.0, proof.0.as_slice(), RANGE_BITS)
}

/// The key stream for an amount: BLAKE3's extendable output over the label
/// and the shared secret.
pub open spec fn spec_keystream(shared: Seq<u8>, len: nat) -> Seq<u8> {
    blake3_xof_output(AMOUNT_KDF_LABEL.spec_bytes() + shared, len)
}

fn amount_keystream(shared: &[u8; 32], len: usize) -> (r: Vec<u8>)
    ensures
        r@ == spec_keystream(shared@, len as nat),
        r@.len() == len,
{
    let mut data: Vec<u8> = Vec::new();
    data.extend_from_slice(AMOUNT_KDF_LABEL.as_bytes());
    data.extend_from_slice(shared);
    assert(data@ =~= AMOUNT_KDF_LABEL.spec_bytes() + shared@);
    blake3_xof(data.as_slice(), len)
}

/// Bytewise exclusive or of two strings of equal length.
pub open spec fn xor_bytes(a: Seq<u8>, b: Seq<u8>) -> Seq<u8> {
    Seq::new(a.len(), |i: int| a[i] ^ b[i])
}

fn xor_into(a: &[u8], b: &[u8]) -> (r: Vec<u8>)
    requires
        a@.len() == b@.len(),
    ensures
        r@ == xor_bytes(a@, b@),
{
    let mut out: Vec<u8> = Vec::new();
    let mut i: usize = 0;
    while i < a.len()
        invariant
            i <= a@.len(),
            a@.len() == b@.len(),
            out@.len() == i,
            forall|j: int| 0 <= j < i ==> out@[j] == a@[j] ^ b@[j],
        decreases a@.len() - i,
    {
        out.push(a[i] ^ b[i]);
        i = i + 1;
    }
    proof {
        assert(out@ =~= xor_bytes(a@, b@));
    }
    out
}

/// The 40-byte plaintext of an amount: the value (8 bytes, little-endian)
/// then the blinding factor.
pub open spec fn amount_plaintext(value: u64, blinding: Seq<u8>) -> Seq<u8> {
    crate::primitives::bytes::le_bytes(value as nat, 8) + blinding
}

/// What decrypting an amount with view scalar `view` gives: `None` for a
/// length other than 40 or an ephemeral key that is no point; otherwise the
/// value and blinding read from the ciphertext XOR the key stream.
pub open spec fn spec_decrypt(enc: Seq<u8>, eph: Seq<u8>, view: Seq<u8>) -> Option<(u64, Seq<u8>)> {
    if enc.len() != AMOUNT_PLAINTEXT_LEN || !ristretto_point_valid(eph) {
        None
    } else {
        let pt = xor_bytes(enc, spec_keystream(ristretto_scalar_mul(view, eph), 40));
        Some((le_value(pt.subrange(0, 8)) as u64, pt.subrange(8, 40)))
    }
}

/// The ciphertext of `value` and `blinding` that `encrypt_amount` makes
/// under the ephemeral scalar `e` for the view key whose scalar is `view`.
pub open spec fn sealed_amount(value: u64, blinding: Seq<u8>, e: Seq<u8>, view: Seq<u8>) -> Seq<u8> {
    xor_bytes(
        amount_plaintext(value, blinding),
        spec_keystream(ristretto_scalar_mul(e, ristretto_basepoint_mul(view)), 40),
    )
}

/// Whether the ciphertext `enc` with the ephemeral key `eph` is an amount
/// `value` with a 32-byte `blinding` sealed, as `encrypt_amount` seals it,
/// for the view key whose scalar is `view`: `eph` is the point of some
/// 32-byte ephemeral scalar `e`, and `enc` is `sealed_amount` under `e`.
pub open spec fn sealed_for(enc: Seq<u8>, eph: Seq<u8>, value: u64, blinding: Seq<u8>, view: Seq<u8>) -> bool {
    &&& blinding.len() == 32
    &&& ristretto_point_valid(eph)
    &&& exists|e: Seq<u8>|
        e.len() == 32 && eph == ristretto_basepoint_mul(e) && enc == sealed_amount(value, blinding, e, view)
}

/// Decrypts an amount with the view scalar, as `spec_decrypt` says. An
/// amount sealed for this view scalar (as `encrypt_amount` seals it for
/// the scalar's public point) decrypts to the value and blinding factor
/// that went in.
pub fn decrypt_amount(encrypted_amount: &[u8], ephemeral_pubkey: &[u8; 32], view_scalar: &[u8; 32]) -> (r: Option<(u64, BlindingFactor)>)
    ensures
        match spec_decrypt(encrypted_amount@, ephemeral_pubkey@, view_scalar@) {
            None => r is None,
            Some((v, b)) => r matches Some((rv, rb)) && rv == v && rb.0@ == b,
        },
        forall|value: u64, blinding: Seq<u8>|
            #[trigger] sealed_for(encrypted_amount@, ephemeral_pubkey@, value, blinding, view_scalar@) ==> (r matches Some(
                (rv, rb),
            ) && rv == value && rb.0@ == blinding),
{
    if encrypted_amount.len() != AMOUNT_PLAINTEXT_LEN {
        proof {
            assert forall|value: u64, blinding: Seq<u8>|
                !#[trigger] sealed_for(encrypted_amount@, ephemeral_pubkey@, value, blinding, view_scalar@) by {
                if sealed_for(encrypted_amount@, ephemeral_pubkey@, value, blinding, view_scalar@) {
                    crate::primitives::bytes::lemma_le_bytes_len(value as nat, 8);
                }
            }
        }
        return None;
    }
    let shared = shared_secret(view_scalar, ephemeral_pubkey)?;
    let keystream = amount_keystream(&shared, AMOUNT_PLAINTEXT_LEN);
    let plaintext = xor_into(encrypted_amount, keystream.as_slice());
    let value = read_le(plaintext.as_slice(), 0, 8);
    let blind = crate::primitives::bytes::read_array32(plaintext.as_slice(), 8);
    proof {
        assert forall|v: u64, b: Seq<u8>|
            #[trigger] sealed_for(encrypted_amount@, ephemeral_pubkey@, v, b, view_scalar@) implies value == v
                && blind@ == b by {
            let e = choose|e: Seq<u8>|
                e.len() == 32 && ephemeral_pubkey@ == ristretto_basepoint_mul(e) && encrypted_amount@
                    == sealed_amount(v, b, e, view_scalar@);
            assert(shared@ == ristretto_scalar_mul(e, ristretto_basepoint_mul(view_scalar@)));
            lemma_xor_roundtrip(v, b, keystream@);
        }
    }
    Some((value, BlindingFactor(blind)))
}

/// Encrypts an amount to the holder of the view key whose public point is
/// `recipient_view_pubkey`, under a fresh random ephemeral key: the
/// ciphertext is the plaintext XOR the key stream of the shared point, and
/// the ephemeral public key goes with it. `None` exactly when the
/// recipient's key is no point. What comes out is sealed for the scalar of
/// the recipient's key, so `decrypt_amount` with that scalar opens it.
pub fn encrypt_amount(value: u64, blinding: &BlindingFactor, recipient_view_pubkey: &[u8; 32]) -> (r: Option<(Vec<u8>, [u8; 32])>)
    ensures
        r is Some <==> ristretto_point_valid(recipient_view_pubkey@),
        r matches Some((enc, eph)) ==> forall|view: Seq<u8>|
            recipient_view_pubkey@ == ristretto_basepoint_mul(view) ==> #[trigger] sealed_for(
                enc@,
                eph@,
                value,
                blinding.0@,
                view,
            ),
        r matches Some((enc, eph)) ==> ristretto_point_valid(eph@) && exists|e: Seq<u8>|
            e.len() == 32 && eph@ == ristretto_basepoint_mul(e) && enc@ == xor_bytes(
                amount_plaintext(value, blinding.0@),
                spec_keystream(ristretto_scalar_mul(e, recipient_view_pubkey@), 40),
            ),
{
    let wide = random_wide();
    let ephemeral_scalar = reduce_wide(&wide);
    let ephemeral_pubkey = basepoint_mul(&ephemeral_scalar);
    let shared = shared_secret(&ephemeral_scalar, recipient_view_pubkey)?;
    let keystream = amount_keystream(&shared, AMOUNT_PLAINTEXT_LEN);
    let mut plaintext: Vec<u8> = Vec::new();
    push_le(&mut plaintext, value, 8);
    plaintext.extend_from_slice(&blinding.0);
    proof {
        crate::primitives::bytes::lemma_le_bytes_len(value as nat, 8);
        assert(plaintext@ =~= amount_plaintext(value, blinding.0@));
    }
    let encrypted = xor_into(plaintext.as_slice(), keystream.as_slice());
    proof {
        assert forall|view: Seq<u8>| recipient_view_pubkey@ == ristretto_basepoint_mul(view) implies #[trigger] sealed_for(
            encrypted@,
            ephemeral_pubkey@,
            value,
            blinding.0@,
            view,
        ) by {
            assert(encrypted@ == sealed_amount(value, blinding.0@, ephemeral_scalar@, view));
        }
    }
    Some((encrypted, ephemeral_pubkey))
}

/// Decrypting with the key stream that encrypted gives back the value and
/// the blinding factor: XOR with the same stream twice is the identity, and
/// the value reads back from its 8 bytes.
pub proof fn lemma_xor_roundtrip(value: u64, blinding: Seq<u8>, stream: Seq<u8>)
    requires
        blinding.len() == 32,
        stream.len() == 40,
    ensures
        ({
            let pt = xor_bytes(xor_bytes(amount_plaintext(value, blinding), stream), stream);
            le_value(pt.subrange(0, 8)) == value && pt.subrange(8, 40) == blinding
        }),
{
    crate::primitives::bytes::lemma_le_bytes_len(value as nat, 8);
    let p = amount_plaintext(value, blinding);
    let pt = xor_bytes(xor_bytes(p, stream), stream);
    assert forall|i: int| 0 <= i < 40 implies pt[i] == p[i] by {
        let a = p[i];
        let b = stream[i];
        assert((a ^ b) ^ b == a) by (bit_vector);
    }
    assert(pt =~= p);
    assert(pt.subrange(0, 8) =~= crate::primitives::bytes::le_bytes(value as nat, 8));
    assert(pt.subrange(8, 40) =~= blinding);
    assert(value < crate::primitives::bytes::pow256(8)) by {
        reveal_with_fuel(crate::primitives::bytes::pow256, 9);
    }
    crate::primitives::bytes::lemma_le_value_of_bytes(value as nat, 8);
}

} // verus!
