//! 256-bit targets and the block header: its 88-byte encoding, its hash and
//! its proof-of-work check.
use vstd::prelude::*;
use crate::primitives::bytes::{
    le_bytes, le_value, lemma_le_bytes_len, lemma_le_bytes_of_value, lemma_le_value_append,
    lemma_le_value_bound, lemma_le_value_of_bytes, lemma_le_value_single,
    lemma_le_value_top_differs, lemma_le_value_zeros, pow256, push_le, read_array32, read_le,
    zeros,
};
use crate::consensus::transaction::{Transaction, TxKind};
use crate::primitives::hash::{sha256d, spec_sha256d, Hash256};
use crate::primitives::serialize::DecodeError;

verus! {

/// 256-bit unsigned integer used for difficulty targets and hash comparison,
/// stored as 32 little-endian bytes.
#[derive(Debug, Clone, Copy, PartialEq, Eq)]
pub struct U256(pub [u8; 32]);

/// How two 256-bit integers compare.
#[derive(Debug, Clone, Copy, PartialEq, Eq)]
pub enum Order {
    Below,
    Same,
    Above,
}

/// `2^256`.
pub open spec fn two_pow_256() -> nat {
    pow256(32)
}

impl U256 {
    /// The number this value denotes.
    pub open spec fn value(self) -> nat {
        le_value(self.0@)
    }

    /// Constructs a 256-bit integer from little-endian bytes.
    pub fn from_le_bytes(bytes: [u8; 32]) -> (r: Self)
        ensures
            r.0 == bytes,
    {
        U256(bytes)
    }

    /// Sum modulo 2^256: bytes added from the least significant with carry,
    /// the final carry dropped.
    pub fn add(&self, other: &U256) -> (r: U256)
        ensures
            r.value() == (self.value() + other.value()) % two_pow_256(),
    {
        let mut result = [0u8; 32];
        let mut carry: u16 = 0;
        let mut i: usize = 0;
        while i < 32
            invariant
                i <= 32,
                carry <= 1,
                le_value(result@.subrange(0, i as int)) + carry * pow256(i as nat) == le_value(
                    self.0@.subrange(0, i as int),
                ) + le_value(other.0@.subrange(0, i as int)),
            decreases 32 - i,
        {
            let ghost r0 = result@.subrange(0, i as int);
            let ghost a0 = self.0@.subrange(0, i as int);
            let ghost b0 = other.0@.subrange(0, i as int);
            let ghost c0 = carry;
            let sum: u16 = (self.0[i] as u16) + (other.0[i] as u16) + carry;
            result[i] = (sum % 256) as u8;
            carry = sum / 256;
            proof {
                let byte = result@[i as int];
                assert(result@.subrange(0, i + 1) =~= r0 + seq![byte]);
                assert(self.0@.subrange(0, i + 1) =~= a0 + seq![self.0@[i as int]]);
                assert(other.0@.subrange(0, i + 1) =~= b0 + seq![other.0@[i as int]]);
                lemma_le_value_append(r0, seq![byte]);
                lemma_le_value_append(a0, seq![self.0@[i as int]]);
                lemma_le_value_append(b0, seq![other.0@[i as int]]);
                lemma_le_value_single(byte);
                lemma_le_value_single(self.0@[i as int]);
                lemma_le_value_single(other.0@[i as int]);
                let p = pow256(i as nat);
                assert(pow256((i + 1) as nat) == 256 * p);
                assert(sum == byte + 256 * carry);
                assert(le_value(r0) + p * byte + carry * (256 * p) == le_value(r0) + c0 * p + p
                    * self.0@[i as int] + p * other.0@[i as int]) by (nonlinear_arith)
                    requires
                        sum == byte + 256 * carry,
                        sum == self.0@[i as int] + other.0@[i as int] + c0,
                ;
            }
            i = i + 1;
        }
        proof {
            assert(result@.subrange(0, 32) =~= result@);
            assert(self.0@.subrange(0, 32) =~= self.0@);
            assert(other.0@.subrange(0, 32) =~= other.0@);
            lemma_le_value_bound(result@);
            let big = pow256(32);
            let rv = le_value(result@);
            let total = self.value() + other.value();
            assert(total % big == rv) by (nonlinear_arith)
                requires
                    rv + carry * big == total,
                    0 <= rv < big,
                    carry == 0 || carry == 1,
            ;
        }
        U256(result)
    }

    /// The 256-bit integer with value `v`.
    pub open spec fn spec_from_value(v: nat) -> U256 {
        U256(spec_bytes32(le_bytes(v, 32)))
    }

    /// Compares two values numerically, most significant byte first.
    pub fn compare(&self, other: &U256) -> (r: Order)
        ensures
            (r == Order::Below) == (self.value() < other.value()),
            (r == Order::Above) == (self.value() > other.value()),
            (r == Order::Same) == (self.value() == other.value()),
            (r == Order::Same) == (self.0@ == other.0@),
    {
        let mut i: usize = 32;
        while i > 0
            invariant
                i <= 32,
                self.0@.subrange(i as int, 32) == other.0@.subrange(i as int, 32),
            decreases i,
        {
            let a = self.0[i - 1];
            let b = other.0[i - 1];
            if a < b {
                proof {
                    lemma_le_value_top_differs(self.0@, other.0@, i - 1);
                    assert(self.0@[i - 1] != other.0@[i - 1]);
                }
                return Order::Below;
            } else if a > b {
                proof {
                    lemma_le_value_top_differs(other.0@, self.0@, i - 1);
                    assert(self.0@[i - 1] != other.0@[i - 1]);
                }
                return Order::Above;
            }
            proof {
                assert(self.0@.subrange(i - 1, 32) =~= seq![a] + self.0@.subrange(i as int, 32));
                assert(other.0@.subrange(i - 1, 32) =~= seq![b] + other.0@.subrange(
                    i as int,
                    32,
                ));
            }
            i = i - 1;
        }
        proof {
            assert(self.0@ =~= self.0@.subrange(0, 32));
            assert(other.0@ =~= other.0@.subrange(0, 32));
        }
        Order::Same
    }

    /// `self < other`, numerically.
    pub fn is_less_than(&self, other: &U256) -> (r: bool)
        ensures
            r == (self.value() < other.value()),
    {
        match self.compare(other) {
            Order::Below => true,
            _ => false,
        }
    }

    /// `self <= other`, numerically.
    pub fn is_at_most(&self, other: &U256) -> (r: bool)
        ensures
            r == (self.value() <= other.value()),
    {
        match self.compare(other) {
            Order::Above => false,
            _ => true,
        }
    }

    /// Whether both hold the same bytes (equivalently, the same value).
    pub fn equals(&self, other: &U256) -> (r: bool)
        ensures
            r == (self.0@ == other.0@),
            r == (self.value() == other.value()),
    {
        match self.compare(other) {
            Order::Same => true,
            _ => false,
        }
    }
}

/// The array whose view is `s` (for `s` of length 32).
pub open spec fn spec_bytes32(s: Seq<u8>) -> [u8; 32] {
    choose|a: [u8; 32]| a@ == s
}

/// A 32-byte value is determined by its number.
pub proof fn lemma_u256_value_determines(a: U256, b: U256)
    requires
        a.value() == b.value(),
    ensures
        a.0@ == b.0@,
{
    lemma_le_bytes_of_value(a.0@);
    lemma_le_bytes_of_value(b.0@);
}

/// Every 32-byte value is below `2^256`.
pub proof fn lemma_u256_bound(a: U256)
    ensures
        a.value() < two_pow_256(),
{
    lemma_le_value_bound(a.0@);
}

/// The 32 bytes with `m` (below `2^24`) placed at byte `shift`: the value
/// `m * 256^shift`.
pub fn place_mantissa(m: u32, shift: usize) -> (out: [u8; 32])
    requires
        m < 0x100_0000,
        shift <= 29,
    ensures
        le_value(out@) == m as nat * pow256(shift as nat),
        out@ == zeros(shift as nat) + le_bytes(m as nat, 3) + zeros((29 - shift) as nat),
{
    let mut out = [0u8; 32];
    out[shift] = (m % 256) as u8;
    out[shift + 1] = ((m / 256) % 256) as u8;
    out[shift + 2] = (m / 65536) as u8;
    proof {
        let lo = zeros(shift as nat);
        let mid = le_bytes(m as nat, 3);
        let hi = zeros((29 - shift) as nat);
        reveal_with_fuel(le_bytes, 4);
        lemma_le_bytes_len(m as nat, 3);
        assert(out@ =~= lo + mid + hi);
        lemma_le_value_append(lo + mid, hi);
        lemma_le_value_append(lo, mid);
        lemma_le_value_zeros(shift as nat);
        lemma_le_value_zeros((29 - shift) as nat);
        reveal_with_fuel(pow256, 4);
        lemma_le_value_of_bytes(m as nat, 3);
        assert(le_value(out@) == pow256(shift as nat) * (m as nat));
        assert(pow256(shift as nat) * (m as nat) == m as nat * pow256(shift as nat)) by (nonlinear_arith);
    }
    out
}

/// Errors that can occur while decoding difficulty targets.
#[derive(Debug, Clone, Copy, PartialEq, Eq)]
pub enum TargetError {
    /// Mantissa encodes a negative target (most significant bit set).
    NegativeEncoding,
    /// Exponent exceeds the maximum supported value for a 256-bit target.
    ExponentTooLarge,
    /// The decoded target value does not fit within 256 bits.
    Overflow,
}

/// The exponent byte of a compact target.
pub open spec fn compact_exponent(n_bits: u32) -> nat {
    (n_bits / 0x100_0000) as nat
}

/// The 24-bit mantissa of a compact target.
pub open spec fn compact_mantissa(n_bits: u32) -> nat {
    (n_bits % 0x100_0000) as nat
}

/// The value a compact target denotes: `mantissa * 256^(exponent - 3)`,
/// with the mantissa shifted right instead when the exponent is below 3.
pub open spec fn compact_value(n_bits: u32) -> nat {
    let e = compact_exponent(n_bits);
    let m = compact_mantissa(n_bits);
    if e > 3 {
        m * pow256((e - 3) as nat)
    } else {
        m / pow256((3 - e) as nat)
    }
}

/// What decoding a compact target gives.
pub open spec fn spec_target(n_bits: u32) -> Result<nat, TargetError> {
    if compact_mantissa(n_bits) >= 0x80_0000 {
        Err(TargetError::NegativeEncoding)
    } else if compact_exponent(n_bits) > 32 {
        Err(TargetError::ExponentTooLarge)
    } else {
        Ok(compact_value(n_bits))
    }
}

/// Decodes a compact target into 256 bits: `Ok` with the value of
/// [`compact_value`] unless the mantissa is negative or the exponent above 32.
pub fn compact_to_target(n_bits: u32) -> (r: Result<U256, TargetError>)
    ensures
        match r {
            Ok(t) => spec_target(n_bits) == Ok::<nat, TargetError>(t.value()),
            Err(e) => spec_target(n_bits) == Err::<nat, TargetError>(e),
        },
{
    let exponent = n_bits / 0x100_0000;
    let mantissa = n_bits % 0x100_0000;
    if mantissa >= 0x80_0000 {
        return Err(TargetError::NegativeEncoding);
    }
    if exponent > 32 {
        return Err(TargetError::ExponentTooLarge);
    }
    if exponent > 3 {
        let shift_bytes = (exponent - 3) as usize;
        let bytes = place_mantissa(mantissa, shift_bytes);
        Ok(U256::from_le_bytes(bytes))
    } else {
        let value = if exponent == 3 {
            mantissa
        } else if exponent == 2 {
            mantissa / 256
        } else if exponent == 1 {
            mantissa / 65536
        } else {
            0
        };
        proof {
            reveal_with_fuel(pow256, 4);
            assert(value as nat == compact_value(n_bits));
        }
        let bytes = place_mantissa(value, 0);
        proof {
            assert(pow256(0) == 1);
        }
        Ok(U256::from_le_bytes(bytes))
    }
}

/// Block header used in the consensus layer.
#[derive(Debug, Clone, Copy, PartialEq, Eq)]
pub struct BlockHeader {
    pub version: u32,
    pub prev_block_hash: Hash256,
    pub merkle_root: Hash256,
    pub timestamp: u64,
    pub n_bits: u32,
    pub nonce: u64,
}

/// A header is determined by its encoding: two headers with the same 88
/// bytes are the same header, so decoding an encoded header gives it back.
pub proof fn lemma_header_roundtrip(h: BlockHeader, g: BlockHeader)
    requires
        g.spec_encode() == h.spec_encode(),
    ensures
        g == h,
{
    let e = h.spec_encode();
    lemma_header_fields(h);
    lemma_header_fields(g);
    assert(g.prev_block_hash =~= h.prev_block_hash);
    assert(g.merkle_root =~= h.merkle_root);
}

/// Where each field lies in a header's encoding.
proof fn lemma_header_fields(h: BlockHeader)
    ensures
        h.spec_encode().len() == HEADER_SIZE,
        le_value(h.spec_encode().subrange(0, 4)) == h.version,
        h.spec_encode().subrange(4, 36) == h.prev_block_hash@,
        h.spec_encode().subrange(36, 68) == h.merkle_root@,
        le_value(h.spec_encode().subrange(68, 76)) == h.timestamp,
        le_value(h.spec_encode().subrange(76, 80)) == h.n_bits,
        le_value(h.spec_encode().subrange(80, 88)) == h.nonce,
{
    let e = h.spec_encode();
    lemma_le_bytes_len(h.version as nat, 4);
    lemma_le_bytes_len(h.timestamp as nat, 8);
    lemma_le_bytes_len(h.n_bits as nat, 4);
    lemma_le_bytes_len(h.nonce as nat, 8);
    assert(pow256(4) == 0x1_0000_0000 && pow256(8) == 0x1_0000_0000_0000_0000) by {
        reveal_with_fuel(pow256, 9);
    }
    lemma_le_value_of_bytes(h.version as nat, 4);
    lemma_le_value_of_bytes(h.timestamp as nat, 8);
    lemma_le_value_of_bytes(h.n_bits as nat, 4);
    lemma_le_value_of_bytes(h.nonce as nat, 8);
    assert(e.subrange(0, 4) =~= le_bytes(h.version as nat, 4));
    assert(e.subrange(4, 36) =~= h.prev_block_hash@);
    assert(e.subrange(36, 68) =~= h.merkle_root@);
    assert(e.subrange(68, 76) =~= le_bytes(h.timestamp as nat, 8));
    assert(e.subrange(76, 80) =~= le_bytes(h.n_bits as nat, 4));
    assert(e.subrange(80, 88) =~= le_bytes(h.nonce as nat, 8));
}

/// A block: its header and its transactions.
#[derive(Debug)]
pub struct Block {
    pub header: BlockHeader,
    pub transactions: Vec<TxKind>,
}

impl Block {
    /// The block's identifier: the hash of its header.
    pub fn hash(&self) -> (out: Hash256)
        ensures
            out@ == spec_sha256d(self.header.spec_encode()),
    {
        self.header.hash()
    }
}

/// A block with its position in the chain and the work behind it.
#[derive(Debug)]
pub struct BlockData {
    pub header: BlockHeader,
    pub transactions: Vec<Transaction>,
    pub height: u32,
    pub cumulative_work: u128,
}

/// Encoded size of a block header in bytes.
pub const HEADER_SIZE: usize = 88;

impl BlockHeader {
    /// The 88-byte encoding: version, previous hash, merkle root, timestamp,
    /// compact target and nonce, integers little-endian.
    pub open spec fn spec_encode(self) -> Seq<u8> {
        le_bytes(self.version as nat, 4) + self.prev_block_hash@ + self.merkle_root@ + le_bytes(
            self.timestamp as nat,
            8,
        ) + le_bytes(self.n_bits as nat, 4) + le_bytes(self.nonce as nat, 8)
    }

    pub fn encode(&self) -> (out: Vec<u8>)
        ensures
            out@ == self.spec_encode(),
            out@.len() == HEADER_SIZE,
    {
        let mut out: Vec<u8> = Vec::new();
        push_le(&mut out, self.version as u64, 4);
        out.extend_from_slice(&self.prev_block_hash);
        out.extend_from_slice(&self.merkle_root);
        push_le(&mut out, self.timestamp, 8);
        push_le(&mut out, self.n_bits as u64, 4);
        push_le(&mut out, self.nonce, 8);
        proof {
            lemma_le_bytes_len(self.version as nat, 4);
            lemma_le_bytes_len(self.timestamp as nat, 8);
            lemma_le_bytes_len(self.n_bits as nat, 4);
            lemma_le_bytes_len(self.nonce as nat, 8);
            assert(out@ =~= self.spec_encode());
        }
        out
    }

    pub fn encoded_size(&self) -> (n: usize)
        ensures
            n == self.spec_encode().len(),
    {
        proof {
            lemma_le_bytes_len(self.version as nat, 4);
            lemma_le_bytes_len(self.timestamp as nat, 8);
            lemma_le_bytes_len(self.n_bits as nat, 4);
            lemma_le_bytes_len(self.nonce as nat, 8);
        }
        HEADER_SIZE
    }

    /// Decodes a header from the front of `bytes`: `Ok` with the header whose
    /// encoding is the first 88 bytes, and 88, whenever there are 88 bytes.
    pub fn decode(bytes: &[u8]) -> (r: Result<(BlockHeader, usize), DecodeError>)
        ensures
            bytes@.len() < HEADER_SIZE ==> r == Err::<(BlockHeader, usize), DecodeError>(
                DecodeError::UnexpectedEof,
            ),
            bytes@.len() >= HEADER_SIZE ==> (r matches Ok((h, n)) && n == HEADER_SIZE
                && h.spec_encode() == bytes@.subrange(0, HEADER_SIZE as int)),
    {
        if bytes.len() < HEADER_SIZE {
            return Err(DecodeError::UnexpectedEof);
        }
        let version = read_le(bytes, 0, 4) as u32;
        let prev_block_hash = read_array32(bytes, 4);
        let merkle_root = read_array32(bytes, 36);
        let timestamp = read_le(bytes, 68, 8);
        let n_bits = read_le(bytes, 76, 4) as u32;
        let nonce = read_le(bytes, 80, 8);
        let h = BlockHeader { version, prev_block_hash, merkle_root, timestamp, n_bits, nonce };
        proof {
            let s = bytes@;
            lemma_le_value_bound(s.subrange(0, 4));
            lemma_le_value_bound(s.subrange(76, 80));
            reveal_with_fuel(pow256, 5);
            lemma_le_bytes_of_value(s.subrange(0, 4));
            lemma_le_bytes_of_value(s.subrange(68, 76));
            lemma_le_bytes_of_value(s.subrange(76, 80));
            lemma_le_bytes_of_value(s.subrange(80, 88));
            assert(h.spec_encode() =~= s.subrange(0, 88));
        }
        Ok((h, HEADER_SIZE))
    }

    /// Computes the double SHA-256 hash of the encoded block header.
    pub fn hash(&self) -> (out: Hash256)
        ensures
            out@ == spec_sha256d(self.spec_encode()),
    {
        let encoded = self.encode();
        sha256d(encoded.as_slice())
    }

    /// Decodes the compact difficulty representation (nBits) into a 256-bit
    /// target: `target = mantissa × 256^(exponent - 3)`, refusing a mantissa of
    /// `0x800000` or more and an exponent above 32.
    pub fn target(&self) -> (r: Result<U256, TargetError>)
        ensures
            match r {
                Ok(t) => spec_target(self.n_bits) == Ok::<nat, TargetError>(t.value()),
                Err(e) => spec_target(self.n_bits) == Err::<nat, TargetError>(e),
            },
    {
        compact_to_target(self.n_bits)
    }

    /// Verifies that the block header hash satisfies the proof-of-work target.
    ///
    /// Returns `Ok(true)` when `hash <= target`, `Ok(false)` otherwise.
    pub fn check_proof_of_work(&self) -> (r: Result<bool, TargetError>)
        ensures
            match spec_target(self.n_bits) {
                Ok(t) => r == Ok::<bool, TargetError>(
                    le_value(spec_sha256d(self.spec_encode())) <= t,
                ),
                Err(e) => r == Err::<bool, TargetError>(e),
            },
    {
        let target = self.target()?;
        let hash = self.hash();
        let hash_value = U256::from_le_bytes(hash);
        Ok(hash_value.is_at_most(&target))
    }
}

} // verus!
