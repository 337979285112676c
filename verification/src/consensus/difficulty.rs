//! Difficulty: the compact target encoding and the per-block LWMA retarget,
//! clamped to ±1% per block.
use vstd::prelude::*;
use num_bigint::BigUint;
use crate::consensus::block::{
    compact_exponent, compact_mantissa, compact_value, lemma_u256_bound, two_pow_256, BlockHeader, Order, TargetError, U256,
    spec_target,
};
use crate::consensus::params::ChainParams;
use crate::consensus::block::place_mantissa;
use crate::primitives::bytes::{
    le_value, lemma_le_value_append, lemma_le_value_bound, lemma_le_value_zeros,
    lemma_pow256_add, lemma_pow256_monotone, lemma_pow256_positive, lemma_le_value_single, pow256,
    zeros,
};

verus! {

broadcast use vstd::array::group_array_axioms;

pub const MAINNET_TARGET_BLOCK_TIME: u64 = 150;

/// Trailing block intervals for the LWMA difficulty adjustment.
pub const DIFFICULTY_WINDOW: usize = 45;

/// Mainnet launch target (little-endian bytes): 10 leading zero bits, `2^246 - 1`.
pub const MAINNET_MAX_TARGET: [u8; 32] = [
    0xFF, 0xFF, 0xFF, 0xFF, 0xFF, 0xFF, 0xFF, 0xFF, 0xFF, 0xFF, 0xFF, 0xFF, 0xFF, 0xFF, 0xFF, 0xFF,
    0xFF, 0xFF, 0xFF, 0xFF, 0xFF, 0xFF, 0xFF, 0xFF, 0xFF, 0xFF, 0xFF, 0xFF, 0xFF, 0xFF, 0x3F, 0x00,
];

/// Testnet target (little-endian bytes): `floor(2^256 / 3900)`, compact form `0x1F10CDD9`.
pub const TESTNET_MAX_TARGET: [u8; 32] = [
    0x10, 0x40, 0x34, 0x77, 0xA6, 0x9A, 0xDD, 0x0C, 0x01, 0x44, 0x73, 0x67, 0xAA, 0xD9, 0xCD, 0x10,
    0x40, 0x34, 0x77, 0xA6, 0x9A, 0xDD, 0x0C, 0x01, 0x44, 0x73, 0x67, 0xAA, 0xD9, 0xCD, 0x10, 0x00,
];

/// Regtest target (little-endian bytes): near-trivial (compact `0x207fffff`).
pub const REGTEST_MAX_TARGET: [u8; 32] = [
    0, 0, 0, 0, 0, 0, 0, 0, 0, 0, 0, 0, 0, 0, 0, 0, 0, 0, 0, 0, 0, 0, 0, 0, 0, 0, 0, 0, 0, 0xFF,
    0xFF, 0x7F,
];


/// The number of significant bytes of `v`.
pub open spec fn byte_len(v: nat) -> nat
    decreases v,
{
    if v == 0 {
        0
    } else {
        1 + byte_len(v / 256)
    }
}

/// The compact (nBits) form of `v`: exponent = byte length, mantissa = the top
/// three significant bytes, shifted one byte down (exponent up) when the top
/// bit of the mantissa would be set.
pub open spec fn spec_compact(v: nat) -> nat {
    if v == 0 {
        0
    } else {
        let s = byte_len(v);
        let m = if s <= 3 {
            v * pow256((3 - s) as nat)
        } else {
            v / pow256((s - 3) as nat)
        };
        if m >= 0x80_0000 {
            (s + 1) * 0x100_0000 + m / 256
        } else {
            s * 0x100_0000 + m
        }
    }
}

/// Bytes above `k` are zero: the value is that of the first `k` bytes.
proof fn lemma_value_of_prefix(s: Seq<u8>, k: int)
    requires
        0 <= k <= s.len(),
        s.subrange(k, s.len() as int) == zeros((s.len() - k) as nat),
    ensures
        le_value(s) == le_value(s.subrange(0, k)),
{
    let lo = s.subrange(0, k);
    let hi = s.subrange(k, s.len() as int);
    assert(s =~= lo + hi);
    lemma_le_value_append(lo, hi);
    lemma_le_value_zeros((s.len() - k) as nat);
}

proof fn lemma_zeros_suffix(s: Seq<u8>, k: int, j: int)
    requires
        0 <= k <= j <= s.len(),
        s.subrange(k, s.len() as int) == zeros((s.len() - k) as nat),
    ensures
        s.subrange(j, s.len() as int) == zeros((s.len() - j) as nat),
        forall|i: int| k <= i < s.len() ==> s[i] == 0,
{
    assert forall|i: int| k <= i < s.len() implies s[i] == 0 by {
        assert(s.subrange(k, s.len() as int)[i - k] == s[i]);
    }
    assert(s.subrange(j, s.len() as int) =~= zeros((s.len() - j) as nat));
}

/// A string whose last byte is not zero: its value has exactly that many bytes.
proof fn lemma_byte_len_of_value(p: Seq<u8>)
    requires
        p.len() > 0,
        p[p.len() - 1] != 0,
    ensures
        byte_len(le_value(p)) == p.len(),
        le_value(p) > 0,
    decreases p.len(),
{
    let t = p.drop_first();
    if p.len() == 1 {
        assert(t =~= Seq::<u8>::empty());
        assert(le_value(p) == p[0] as nat);
        assert(byte_len(p[0] as nat / 256) == 0);
    } else {
        assert(t[t.len() - 1] == p[p.len() - 1]);
        lemma_byte_len_of_value(t);
        let v = le_value(p);
        assert(v == p[0] as nat + 256 * le_value(t));
        assert(v / 256 == le_value(t));
    }
}

/// The top three bytes of a string of at least three bytes, as a number:
/// the value divided by `256^(len - 3)`.
proof fn lemma_top_three(p: Seq<u8>)
    requires
        p.len() >= 3,
    ensures
        le_value(p) / pow256((p.len() - 3) as nat) == le_value(p.subrange(p.len() - 3, p.len() as int)),
{
    let k = p.len() - 3;
    let lo = p.subrange(0, k);
    let hi = p.subrange(k, p.len() as int);
    assert(p =~= lo + hi);
    lemma_le_value_append(lo, hi);
    lemma_le_value_bound(lo);
    let a = le_value(lo);
    let b = le_value(hi);
    let q = pow256(k as nat);
    lemma_pow256_positive(k as nat);
    assert((a + q * b) / q == b) by (nonlinear_arith)
        requires
            0 <= a < q,
    ;
}

proof fn lemma_le_value_three(p: Seq<u8>)
    requires
        p.len() == 3,
    ensures
        le_value(p) == p[0] as nat + 256 * p[1] as nat + 65536 * p[2] as nat,
{
    reveal_with_fuel(le_value, 4);
    assert(p.drop_first().drop_first().drop_first() =~= Seq::<u8>::empty());
}

/// The compact (nBits) form of a target.
pub fn u256_to_compact(target: &U256) -> (r: u32)
    ensures
        r as nat == spec_compact(target.value()),
{
    let b = target.0;
    let mut size: usize = 32;
    while size > 0 && b[size - 1] == 0
        invariant
            size <= 32,
            b@.subrange(size as int, 32) == zeros((32 - size) as nat),
        decreases size,
    {
        proof {
            let z = b@.subrange(size - 1, 32);
            assert forall|k: int| 0 <= k < z.len() implies z[k] == 0u8 by {
                if k > 0 {
                    assert(z[k] == b@.subrange(size as int, 32)[k - 1]);
                }
            }
            assert(z =~= zeros((32 - size + 1) as nat));
        }
        size = size - 1;
    }
    proof {
        lemma_value_of_prefix(b@, size as int);
    }
    if size == 0 {
        proof {
            assert(b@.subrange(0, 0) =~= Seq::<u8>::empty());
        }
        return 0;
    }
    let ghost p = b@.subrange(0, size as int);
    proof {
        assert(p[p.len() - 1] == b[size - 1]);
        lemma_byte_len_of_value(p);
    }
    let mantissa: u32 = if size <= 3 {
        let v: u32 = b[0] as u32 + 256 * (b[1] as u32) + 65536 * (b[2] as u32);
        proof {
            lemma_zeros_suffix(b@, size as int, 3);
            lemma_value_of_prefix(b@, 3);
            lemma_le_value_three(b@.subrange(0, 3));
            reveal_with_fuel(pow256, 4);
        }
        proof {
            assert(v as nat == target.value());
        }
        if size == 1 {
            proof {
                lemma_zeros_suffix(b@, 1, 1);
                assert(b@[1] == 0 && b@[2] == 0);
                assert(pow256(2) == 65536);
                assert((v * 65536) as nat == target.value() * pow256((3 - size) as nat));
            }
            v * 65536
        } else if size == 2 {
            proof {
                lemma_zeros_suffix(b@, 2, 2);
                assert(b@[2] == 0);
                assert(b[2] == 0);
                assert(v < 65536);
                assert(v * 256 <= 0xFFFF_FF00) by (nonlinear_arith)
                    requires
                        v < 65536,
                ;
                assert(pow256(1) == 256);
                assert((v * 256) as nat == target.value() * pow256((3 - size) as nat));
            }
            v * 256
        } else {
            proof {
                assert(size == 3);
                assert(pow256(0) == 1);
                assert(target.value() * 1 == target.value()) by (nonlinear_arith);
                assert(v as nat == target.value() * pow256((3 - size) as nat));
            }
            v
        }
    } else {
        proof {
            lemma_top_three(p);
            let top = p.subrange(p.len() - 3, p.len() as int);
            lemma_le_value_three(top);
            assert(top[0] == b@[size - 3] && top[1] == b@[size - 2] && top[2] == b@[size - 1]);
            assert(le_value(p) == target.value());
        }
        let m = (b[size - 1] as u32) * 65536 + (b[size - 2] as u32) * 256 + (b[size - 3] as u32);
        proof {
            assert(m as nat == target.value() / pow256((size - 3) as nat));
        }
        m
    };
    proof {
        let v = target.value();
        assert(byte_len(v) == size);
        assert(mantissa as nat == (if size <= 3 {
            v * pow256((3 - size) as nat)
        } else {
            v / pow256((size - 3) as nat)
        }));
    }
    let exponent: u32 = size as u32;
    if mantissa >= 0x80_0000 {
        (exponent + 1) * 0x100_0000 + mantissa / 256
    } else {
        exponent * 0x100_0000 + mantissa
    }
}


/// A value between `256^(n-1)` and `256^n` has byte length `n`.
proof fn lemma_byte_len_of(v: nat, n: nat)
    requires
        n >= 1,
        pow256((n - 1) as nat) <= v < pow256(n),
    ensures
        byte_len(v) == n,
    decreases n,
{
    lemma_pow256_positive((n - 1) as nat);
    if n == 1 {
        reveal_with_fuel(pow256, 2);
        assert(v / 256 == 0);
        assert(byte_len(0) == 0);
    } else {
        assert(pow256((n - 1) as nat) == 256 * pow256((n - 2) as nat));
        assert(pow256(n) == 256 * pow256((n - 1) as nat));
        lemma_byte_len_of(v / 256, (n - 1) as nat);
    }
}

/// `e * 2^24 + m`, for a mantissa `m` below `0x80_0000` and an exponent `e`
/// of at most 32, decodes to `compact_value` with that exponent and mantissa.
proof fn lemma_compact_fields(e: nat, m: nat)
    requires
        e <= 32,
        m < 0x80_0000,
    ensures
        e * 0x100_0000 + m < 0x1_0000_0000,
        compact_exponent((e * 0x100_0000 + m) as u32) == e,
        compact_mantissa((e * 0x100_0000 + m) as u32) == m,
        spec_target((e * 0x100_0000 + m) as u32) == Ok::<nat, TargetError>(
            compact_value((e * 0x100_0000 + m) as u32),
        ),
{
}

/// A three-byte mantissa as the compact form keeps it: whole below
/// `0x80_0000`, otherwise without its lowest byte.
pub open spec fn kept_mantissa(m: nat) -> nat {
    if m < 0x80_0000 {
        m
    } else {
        (m / 256) * 256
    }
}

/// The compact round trip for values of one to three bytes.
proof fn lemma_compact_roundtrip_small(v: nat)
    requires
        0 < v < 0x100_0000,
    ensures
        0x100_0000 <= spec_compact(v) < 0x1_0000_0000,
        spec_compact(v) / 0x100_0000 <= 32,
        spec_target(spec_compact(v) as u32) == Ok::<nat, TargetError>(
            compact_value(spec_compact(v) as u32),
        ),
        compact_value(spec_compact(v) as u32) <= v,
        (v < 0x80_0000 || v % 256 == 0) ==> compact_value(spec_compact(v) as u32) == v,
        spec_compact(compact_value(spec_compact(v) as u32)) == spec_compact(v),
{
    reveal_with_fuel(pow256, 4);
    lemma_byte_len_bounds(v);
    let s = byte_len(v);
    if s > 3 {
        lemma_pow256_monotone(3, (s - 1) as nat);
        assert(false);
    }
    if s == 1 {
        let m = v * 65536;
        assert(m == v * pow256(2));
        if m >= 0x80_0000 {
            lemma_compact_fields(2, v * 256);
            assert(spec_compact(v) == 2 * 0x100_0000 + v * 256);
            assert(compact_value(spec_compact(v) as u32) == (v * 256) / pow256(1));
        } else {
            lemma_compact_fields(1, m);
            assert(compact_value(spec_compact(v) as u32) == m / pow256(2));
        }
    } else if s == 2 {
        let m = v * 256;
        assert(m == v * pow256(1));
        if m >= 0x80_0000 {
            lemma_compact_fields(3, v);
            assert(compact_value(spec_compact(v) as u32) == v / pow256(0));
        } else {
            lemma_compact_fields(2, m);
            assert(compact_value(spec_compact(v) as u32) == m / pow256(1));
        }
    } else {
        assert(v * pow256(0) == v) by (nonlinear_arith)
            requires
                pow256(0) == 1,
        ;
        if v >= 0x80_0000 {
            let d = (v / 256) * 256;
            lemma_compact_fields(4, v / 256);
            assert(compact_value(spec_compact(v) as u32) == (v / 256) * pow256(1));
            assert(d >= 0x80_0000);
            lemma_byte_len_of(d, 3);
            assert(d * pow256(0) == d) by (nonlinear_arith)
                requires
                    pow256(0) == 1,
            ;
            assert(d / 256 == v / 256);
        } else {
            lemma_compact_fields(3, v);
            assert(compact_value(spec_compact(v) as u32) == v / pow256(0));
        }
    }
}

/// The compact round trip for values of four to thirty-two bytes, below
/// `2^255`.
proof fn lemma_compact_roundtrip_large(v: nat)
    requires
        0x100_0000 <= v < 128 * pow256(31),
    ensures
        0x100_0000 <= spec_compact(v) < 0x1_0000_0000,
        spec_compact(v) / 0x100_0000 <= 32,
        spec_target(spec_compact(v) as u32) == Ok::<nat, TargetError>(
            compact_value(spec_compact(v) as u32),
        ),
        compact_value(spec_compact(v) as u32) <= v,
        spec_compact(compact_value(spec_compact(v) as u32)) == spec_compact(v),
        ({
            let p = pow256((byte_len(v) - 3) as nat);
            v % p == 0 && (v / p < 0x80_0000 || (v / p) % 256 == 0)
        }) ==> compact_value(spec_compact(v) as u32) == v,
{
    lemma_byte_len_bounds(v);
    let s = byte_len(v);
    reveal_with_fuel(pow256, 4);
    if s <= 3 {
        lemma_pow256_monotone(s, 3);
        assert(false);
    }
    if s > 32 {
        lemma_pow256_monotone(32, (s - 1) as nat);
        assert(pow256(32) == 256 * pow256(31));
        assert(false);
    }
    let k = (s - 3) as nat;
    let p = pow256(k);
    lemma_pow256_positive(k);
    lemma_pow256_add(k, 2);
    lemma_pow256_add(k, 3);
    assert((s - 1) as nat == k + 2);
    assert(pow256(k + 2) == p * 65536);
    assert(pow256(k + 3) == p * 0x100_0000);
    let m = v / p;
    assert(65536 <= m < 0x100_0000 && m * p <= v) by (nonlinear_arith)
        requires
            p * 65536 <= v < p * 0x100_0000,
            p >= 1,
            m == v / p,
    ;
    assert(v % p == 0 ==> m * p == v) by (nonlinear_arith)
        requires
            p >= 1,
            m == v / p,
    ;
    if s == 32 {
        lemma_pow256_add(29, 2);
        assert(pow256(31) == pow256(29) * 65536);
        assert(k == 29);
        assert(m < 0x80_0000) by (nonlinear_arith)
            requires
                v < 128 * (p * 65536),
                p >= 1,
                m == v / p,
        ;
    }
    if m >= 0x80_0000 {
        let m2 = (m / 256) * 256;
        let d = m2 * p;
        lemma_compact_fields(s + 1, m / 256);
        assert(spec_compact(v) == (s + 1) * 0x100_0000 + m / 256);
        lemma_pow256_add(k, 1);
        assert(((s + 1) - 3) as nat == k + 1);
        assert(compact_value(spec_compact(v) as u32) == (m / 256) * pow256(k + 1));
        assert(pow256(k + 1) == p * 256);
        assert((m / 256) * (p * 256) == d) by (nonlinear_arith)
            requires
                m2 == (m / 256) * 256,
                d == m2 * p,
        ;
        assert(0x80_0000 <= m2 <= m);
        assert(p * 65536 <= d < p * 0x100_0000 && d <= v && d / p == m2) by (nonlinear_arith)
            requires
                0x80_0000 <= m2 <= m,
                m < 0x100_0000,
                m * p <= v,
                d == m2 * p,
                p >= 1,
        ;
        lemma_byte_len_of(d, s);
        assert(m2 / 256 == m / 256);
    } else {
        let d = m * p;
        lemma_compact_fields(s, m);
        assert(compact_value(spec_compact(v) as u32) == m * pow256(k));
        assert(p * 65536 <= d < p * 0x100_0000 && d / p == m) by (nonlinear_arith)
            requires
                65536 <= m < 0x80_0000,
                d == m * p,
                p >= 1,
        ;
        lemma_byte_len_of(d, s);
    }
}

/// The compact form of a target below `2^255` decodes, to the target with
/// all but its leading significant bytes cleared: never above it, equal to
/// it below `2^23`, zero only for zero, and with the same compact form.
pub proof fn lemma_compact_roundtrip(v: nat)
    requires
        v < 128 * pow256(31),
    ensures
        spec_compact(v) < 0x1_0000_0000,
        (spec_compact(v) == 0) == (v == 0),
        spec_target(spec_compact(v) as u32) == Ok::<nat, TargetError>(
            compact_value(spec_compact(v) as u32),
        ),
        compact_value(spec_compact(v) as u32) <= v,
        v < 0x80_0000 ==> compact_value(spec_compact(v) as u32) == v,
        spec_compact(compact_value(spec_compact(v) as u32)) == spec_compact(v),
{
    if v == 0 {
        lemma_compact_fields(0, 0);
        assert(compact_value(0) == 0) by {
            reveal_with_fuel(pow256, 4);
        }
    } else {
        if v < 0x100_0000 {
            lemma_compact_roundtrip_small(v);
        } else {
            lemma_compact_roundtrip_large(v);
        }
    }
}
/// A mantissa below `0x80_0000` shifted up by `k` whole bytes (at most 29)
/// keeps all of itself through the compact form.
proof fn lemma_compact_exact_shifted(m: nat, k: nat)
    requires
        1 <= m < 0x80_0000,
        1 <= k <= 29,
    ensures
        m * pow256(k) < 128 * pow256(31),
        compact_value(spec_compact(m * pow256(k)) as u32) == m * pow256(k),
{
    let p = pow256(k);
    let x = m * p;
    reveal_with_fuel(pow256, 4);
    lemma_pow256_positive(k);
    lemma_byte_len_bounds(m);
    let b = byte_len(m);
    if b > 3 {
        lemma_pow256_monotone(3, (b - 1) as nat);
        assert(false);
    }
    let pb1 = pow256((b - 1) as nat);
    let pb = pow256(b);
    lemma_pow256_add((b - 1) as nat, k);
    lemma_pow256_add(b, k);
    let s = b + k;
    assert(pb1 * p <= x < pb * p) by (nonlinear_arith)
        requires
            pb1 <= m < pb,
            x == m * p,
            p >= 1,
    ;
    assert((b - 1) as nat + k == (s - 1) as nat);
    lemma_byte_len_of(x, s);
    lemma_pow256_monotone(k, 29);
    lemma_pow256_add(29, 2);
    assert(m * p <= 0x7F_FFFF * p) by (nonlinear_arith)
        requires
            m <= 0x7F_FFFF,
            p >= 0,
    ;
    assert(x < 128 * pow256(31));
    if s <= 3 {
        let p1 = pow256((k - 1) as nat);
        assert(p == 256 * p1);
        assert(x == (m * p1) * 256) by (nonlinear_arith)
            requires
                x == m * p,
                p == 256 * p1,
        ;
        vstd::arithmetic::div_mod::lemma_mod_multiples_basic((m * p1) as int, 256);
        assert(x % 256 == 0);
        assert(x < 0x100_0000);
        lemma_compact_roundtrip_small(x);
    } else {
        let j = (s - 3) as nat;
        let q = pow256(j);
        let r = pow256((3 - b) as nat);
        lemma_pow256_add(j, (3 - b) as nat);
        assert(j + (3 - b) as nat == k);
        assert(p == q * r);
        lemma_pow256_positive(j);
        lemma_pow256_positive((3 - b) as nat);
        assert(x == (m * r) * q && x == q * (m * r)) by (nonlinear_arith)
            requires
                x == m * p,
                p == q * r,
        ;
        vstd::arithmetic::div_mod::lemma_mod_multiples_basic((m * r) as int, q as int);
        vstd::arithmetic::div_mod::lemma_div_multiples_vanish((m * r) as int, q as int);
        assert(x % q == 0);
        assert(x / q == m * r);
        if b < 3 {
            let r1 = pow256((2 - b) as nat);
            assert(r == 256 * r1);
            assert(m * r == (m * r1) * 256) by (nonlinear_arith)
                requires
                    r == 256 * r1,
            ;
            vstd::arithmetic::div_mod::lemma_mod_multiples_basic((m * r1) as int, 256);
            assert((x / q) % 256 == 0);
        } else {
            assert(r == 1);
            assert(m * r == m) by (nonlinear_arith)
                requires
                    r == 1,
            ;
            assert(x / q < 0x80_0000);
        }
        assert(x >= 0x100_0000) by {
            lemma_pow256_monotone(3, (s - 1) as nat);
        }
        assert(byte_len(x) - 3 == j);
        lemma_compact_roundtrip_large(x);
    }
}

/// The value a valid compact target denotes has an exact compact form: it
/// encodes to a compact target that decodes back to it.
proof fn lemma_compact_value_exact(c: u32)
    requires
        spec_target(c) is Ok,
    ensures
        spec_compact(compact_value(c)) < 0x1_0000_0000,
        spec_target(spec_compact(compact_value(c)) as u32) == Ok::<nat, TargetError>(compact_value(c)),
{
    let e = compact_exponent(c);
    let m = compact_mantissa(c);
    let x = compact_value(c);
    reveal_with_fuel(pow256, 4);
    lemma_pow256_monotone(3, 31);
    if e <= 3 {
        let q = pow256((3 - e) as nat);
        lemma_pow256_positive((3 - e) as nat);
        assert(x <= m) by (nonlinear_arith)
            requires
                x == m / q,
                q >= 1,
        ;
        lemma_compact_roundtrip(x);
    } else if m == 0 {
        assert(x == m * pow256((e - 3) as nat));
        assert(m * pow256((e - 3) as nat) == 0) by (nonlinear_arith)
            requires
                m == 0,
        ;
        lemma_compact_roundtrip(x);
    } else {
        lemma_compact_exact_shifted(m, (e - 3) as nat);
        assert(x == m * pow256((e - 3) as nat));
        lemma_compact_roundtrip(x);
    }
}

/// A value of at least `2^255` has a compact exponent above 32.
proof fn lemma_compact_exponent_high(v: nat)
    requires
        128 * pow256(31) <= v < pow256(32),
    ensures
        spec_compact(v) / 0x100_0000 > 32,
{
    reveal_with_fuel(pow256, 4);
    assert(pow256(32) == 256 * pow256(31));
    lemma_pow256_positive(31);
    lemma_byte_len_of(v, 32);
    let p = pow256(29);
    lemma_pow256_positive(29);
    lemma_pow256_add(29, 2);
    lemma_pow256_add(29, 3);
    assert(pow256(31) == p * 65536);
    assert(pow256(32) == p * 0x100_0000);
    let m = v / p;
    assert(0x80_0000 <= m < 0x100_0000) by (nonlinear_arith)
        requires
            p * 0x80_0000 <= v < p * 0x100_0000,
            p >= 1,
            m == v / p,
    ;
}

/// Whether the minimum-difficulty rule answers the retarget from `prev` at
/// time `cur` with the network maximum.
pub open spec fn takes_min_difficulty(prev: BlockHeader, cur: u64, params: ChainParams) -> bool {
    &&& params.difficulty_adjustment
    &&& params.allow_min_difficulty_blocks
    &&& interval(prev.timestamp, cur) > params.target_block_time * 6 / 5
}

/// A header stamped, as the miner stamps it, with the compact form of the
/// target the chain calls for after `prev` carries exactly that target, so
/// the difficulty check accepts it. Where the minimum-difficulty rule
/// answers with the network maximum, that maximum must lie below `2^255`
/// and be exact in compact form; otherwise no condition is needed.
/// `u256_to_compact` gives `spec_compact` and `validate_difficulty` accepts
/// exactly a decoded target equal to the one called for, so a header whose
/// `n_bits` is `u256_to_compact` of `calculate_next_target`'s result passes
/// `validate_difficulty`.
pub proof fn lemma_compact_target_accepted(
    prev: BlockHeader,
    header: BlockHeader,
    params: ChainParams,
    w: Seq<u64>,
    t: nat,
)
    requires
        spec_next_target(prev, header.timestamp, params, w) == Ok::<nat, DifficultyError>(t),
        header.n_bits as nat == spec_compact(t),
        takes_min_difficulty(prev, header.timestamp, params) ==> {
            &&& params.max_target.value() < 128 * pow256(31)
            &&& compact_value(spec_compact(params.max_target.value()) as u32)
                == params.max_target.value()
        },
    ensures
        spec_target(header.n_bits) == Ok::<nat, TargetError>(t),
{
    let pt = spec_target(prev.n_bits)->Ok_0;
    if !params.difficulty_adjustment {
        lemma_compact_value_exact(prev.n_bits);
    } else if takes_min_difficulty(prev, header.timestamp, params) {
        lemma_compact_roundtrip(params.max_target.value());
    } else {
        let v = retarget_value(pt, actual_timespan(prev.timestamp, header.timestamp, w), params);
        let c = spec_compact(v);
        lemma_retarget_bounds(pt, actual_timespan(prev.timestamp, header.timestamp, w), params);
        lemma_u256_bound(params.max_target);
        if v >= 128 * pow256(31) {
            lemma_compact_exponent_high(v);
            assert(false);
        }
        lemma_compact_roundtrip(v);
        assert(t == compact_value(c as u32));
    }
}

/// What the compact form keeps of a value of one to three bytes.
pub proof fn lemma_compact_kept_small(v: nat)
    requires
        0 < v < 0x100_0000,
    ensures
        compact_value(spec_compact(v) as u32) == kept_mantissa(v),
{
    lemma_compact_roundtrip_small(v);
    if v >= 0x80_0000 {
        reveal_with_fuel(pow256, 4);
        lemma_byte_len_of(v, 3);
        assert(v * pow256(0) == v) by (nonlinear_arith)
            requires
                pow256(0) == 1,
        ;
        lemma_compact_fields(4, v / 256);
        assert(spec_compact(v) == 4 * 0x100_0000 + v / 256);
        assert(compact_value(spec_compact(v) as u32) == (v / 256) * pow256(1));
    }
}

/// What the compact form keeps of a value of four to thirty-two bytes,
/// below `2^255`: its top three bytes, kept as a mantissa, in place.
pub proof fn lemma_compact_kept_large(v: nat)
    requires
        0x100_0000 <= v < 128 * pow256(31),
    ensures
        byte_len(v) >= 4,
        compact_value(spec_compact(v) as u32) == kept_mantissa(v / pow256((byte_len(v) - 3) as nat))
            * pow256((byte_len(v) - 3) as nat),
{
    lemma_byte_len_bounds(v);
    let s = byte_len(v);
    reveal_with_fuel(pow256, 4);
    if s <= 3 {
        lemma_pow256_monotone(s, 3);
        assert(false);
    }
    if s > 32 {
        lemma_pow256_monotone(32, (s - 1) as nat);
        assert(pow256(32) == 256 * pow256(31));
        assert(false);
    }
    let k = (s - 3) as nat;
    let p = pow256(k);
    lemma_pow256_positive(k);
    lemma_pow256_add(k, 2);
    lemma_pow256_add(k, 3);
    assert((s - 1) as nat == k + 2);
    let m = v / p;
    assert(65536 <= m < 0x100_0000) by (nonlinear_arith)
        requires
            p * 65536 <= v < p * 0x100_0000,
            p >= 1,
            m == v / p,
    ;
    if s == 32 {
        lemma_pow256_add(29, 2);
        assert(m < 0x80_0000) by (nonlinear_arith)
            requires
                v < 128 * (p * 65536),
                p >= 1,
                m == v / p,
        ;
    }
    if m >= 0x80_0000 {
        lemma_compact_fields(s + 1, m / 256);
        assert(spec_compact(v) == (s + 1) * 0x100_0000 + m / 256);
        lemma_pow256_add(k, 1);
        assert(((s + 1) - 3) as nat == k + 1);
        assert(compact_value(spec_compact(v) as u32) == (m / 256) * pow256(k + 1));
        assert(pow256(k + 1) == p * 256);
        assert((m / 256) * (p * 256) == ((m / 256) * 256) * p) by (nonlinear_arith);
    } else {
        lemma_compact_fields(s, m);
        assert(compact_value(spec_compact(v) as u32) == m * pow256(k));
    }
}

/// What the compact form keeps of a positive value below `2^255` is at
/// least `256^(n-1)`, `n` its byte length.
proof fn lemma_compact_kept_lower(v: nat)
    requires
        0 < v < 128 * pow256(31),
    ensures
        byte_len(v) >= 1,
        compact_value(spec_compact(v) as u32) >= pow256((byte_len(v) - 1) as nat),
{
    lemma_byte_len_bounds(v);
    let s = byte_len(v);
    reveal_with_fuel(pow256, 4);
    if v < 0x100_0000 {
        lemma_compact_kept_small(v);
        if v >= 0x80_0000 {
            lemma_byte_len_of(v, 3);
        }
    } else {
        lemma_compact_kept_large(v);
        let k = (s - 3) as nat;
        let p = pow256(k);
        lemma_pow256_positive(k);
        lemma_pow256_add(k, 2);
        assert((s - 1) as nat == k + 2);
        let m = v / p;
        assert(m >= 65536) by (nonlinear_arith)
            requires
                p * 65536 <= v,
                p >= 1,
                m == v / p,
        ;
        assert(kept_mantissa(m) >= 65536);
        assert(kept_mantissa(m) * p >= 65536 * p) by (nonlinear_arith)
            requires
                kept_mantissa(m) >= 65536,
                p >= 1,
        ;
    }
}

/// Of two values of one byte length below `2^255`, the compact form keeps
/// no more of the smaller.
proof fn lemma_compact_kept_same_len(v1: nat, v2: nat)
    requires
        0 < v1 <= v2 < 128 * pow256(31),
        byte_len(v1) == byte_len(v2),
    ensures
        compact_value(spec_compact(v1) as u32) <= compact_value(spec_compact(v2) as u32),
{
    if v2 < 0x100_0000 {
        lemma_compact_kept_small(v1);
        lemma_compact_kept_small(v2);
    } else {
        lemma_byte_len_bounds(v1);
        lemma_byte_len_bounds(v2);
        reveal_with_fuel(pow256, 4);
        if v1 < 0x100_0000 {
            lemma_byte_len_of(v1, byte_len(v1));
            lemma_pow256_monotone(byte_len(v1), 3);
            lemma_pow256_monotone(3, (byte_len(v2) - 1) as nat);
            assert(false);
        }
        lemma_compact_kept_large(v1);
        lemma_compact_kept_large(v2);
        let p = pow256((byte_len(v1) - 3) as nat);
        lemma_pow256_positive((byte_len(v1) - 3) as nat);
        let m1 = v1 / p;
        let m2 = v2 / p;
        assert(m1 <= m2) by (nonlinear_arith)
            requires
                v1 <= v2,
                p >= 1,
                m1 == v1 / p,
                m2 == v2 / p,
        ;
        assert(kept_mantissa(m1) <= kept_mantissa(m2));
        assert(kept_mantissa(m1) * p <= kept_mantissa(m2) * p) by (nonlinear_arith)
            requires
                kept_mantissa(m1) <= kept_mantissa(m2),
                p >= 1,
        ;
    }
}

/// What the compact form keeps never falls as the value grows.
proof fn lemma_compact_kept_monotone(v1: nat, v2: nat)
    requires
        v1 <= v2 < 128 * pow256(31),
    ensures
        compact_value(spec_compact(v1) as u32) <= compact_value(spec_compact(v2) as u32),
{
    lemma_compact_roundtrip(v1);
    lemma_compact_roundtrip(v2);
    if v1 > 0 {
        lemma_byte_len_bounds(v1);
        lemma_byte_len_bounds(v2);
        let s1 = byte_len(v1);
        let s2 = byte_len(v2);
        if s1 > s2 {
            lemma_pow256_monotone(s2, (s1 - 1) as nat);
            assert(false);
        } else if s1 < s2 {
            lemma_compact_kept_lower(v2);
            lemma_pow256_monotone(s1, (s2 - 1) as nat);
        } else {
            lemma_compact_kept_same_len(v1, v2);
        }
    }
}

proof fn lemma_lwma_sum_monotone(w: Seq<u64>, c1: u64, c2: u64, k: nat)
    requires
        c1 <= c2,
        k <= w.len(),
    ensures
        lwma_sum(w, c1, k) <= lwma_sum(w, c2, k),
    decreases k,
{
    if k > 0 {
        lemma_lwma_sum_monotone(w, c1, c2, (k - 1) as nat);
        let a = interval(window_ts(w, c1, k - 1), window_ts(w, c1, k as int));
        let b = interval(window_ts(w, c2, k - 1), window_ts(w, c2, k as int));
        assert(a <= b);
        assert(k * a <= k * b) by (nonlinear_arith)
            requires
                a <= b,
        ;
    }
}

/// The retarget's timespan never shrinks as the current time grows.
proof fn lemma_timespan_monotone(prev_ts: u64, c1: u64, c2: u64, w: Seq<u64>)
    requires
        c1 <= c2,
    ensures
        actual_timespan(prev_ts, c1, w) <= actual_timespan(prev_ts, c2, w),
{
    if w.len() >= 2 {
        let n = w.len();
        lemma_lwma_sum_monotone(w, c1, c2, n);
        let d = weight_count(n);
        assert(d >= 1) by (nonlinear_arith)
            requires
                n >= 2,
                d == n * (n + 1) / 2,
        ;
        vstd::arithmetic::div_mod::lemma_div_is_ordered(
            lwma_sum(w, c1, n) as int,
            lwma_sum(w, c2, n) as int,
            d as int,
        );
    }
}

/// The retargeted value never falls as the timespan grows.
proof fn lemma_retarget_monotone(prev: nat, ts1: nat, ts2: nat, params: ChainParams)
    requires
        ts1 <= ts2,
    ensures
        retarget_value(prev, ts1, params) <= retarget_value(prev, ts2, params),
{
    let t = params.target_block_time as nat;
    let cap = params.max_target.value();
    lemma_u256_bound(params.max_target);
    let f1 = clamp_timespan(ts1, t);
    let f2 = clamp_timespan(ts2, t);
    assert(f1 <= f2);
    if t > 0 {
        assert(prev * f1 <= prev * f2) by (nonlinear_arith)
            requires
                f1 <= f2,
        ;
        vstd::arithmetic::div_mod::lemma_div_is_ordered((prev * f1) as int, (prev * f2) as int, t as int);
    } else {
        assert(f1 == f2);
    }
    let a1 = mul_div_capped(prev, f1, t, cap);
    let a2 = mul_div_capped(prev, f2, t, cap);
    assert((if a1 < cap { a1 } else { cap }) <= (if a2 < cap { a2 } else { cap }));
}

/// A later timestamp never calls for a smaller target: of two retargets
/// from the same header with the same parameters and window, both
/// computable, the one at the later time gives a target at least as large
/// (a difficulty at most as high). `calculate_next_target` returns exactly
/// what `spec_next_target` gives, so this holds of its results.
pub proof fn lemma_later_time_never_lowers_target(
    prev: BlockHeader,
    c1: u64,
    c2: u64,
    params: ChainParams,
    w: Seq<u64>,
    t1: nat,
    t2: nat,
)
    requires
        c1 <= c2,
        spec_next_target(prev, c1, params, w) == Ok::<nat, DifficultyError>(t1),
        spec_next_target(prev, c2, params, w) == Ok::<nat, DifficultyError>(t2),
    ensures
        t1 <= t2,
{
    if params.difficulty_adjustment {
        let pt = spec_target(prev.n_bits)->Ok_0;
        let cap = params.max_target.value();
        lemma_u256_bound(params.max_target);
        assert(interval(prev.timestamp, c1) <= interval(prev.timestamp, c2));
        if !takes_min_difficulty(prev, c1, params) {
            let ts1 = actual_timespan(prev.timestamp, c1, w);
            let v1 = retarget_value(pt, ts1, params);
            lemma_retarget_bounds(pt, ts1, params);
            if v1 >= 128 * pow256(31) {
                lemma_compact_exponent_high(v1);
                assert(false);
            }
            lemma_compact_roundtrip(v1);
            if !takes_min_difficulty(prev, c2, params) {
                let ts2 = actual_timespan(prev.timestamp, c2, w);
                let v2 = retarget_value(pt, ts2, params);
                lemma_retarget_bounds(pt, ts2, params);
                if v2 >= 128 * pow256(31) {
                    lemma_compact_exponent_high(v2);
                    assert(false);
                }
                lemma_timespan_monotone(prev.timestamp, c1, c2, w);
                lemma_retarget_monotone(pt, ts1, ts2, params);
                lemma_compact_kept_monotone(v1, v2);
            }
        }
    }
}


#[derive(Debug, Clone, Copy, PartialEq, Eq)]
pub enum DifficultyError {
    InvalidTimestamp,
    Overflow,
    TargetError(TargetError),
    TargetMismatch { expected: U256, actual: U256 },
}

/// `to - from`, or 0 when time went backwards.
pub open spec fn interval(from: u64, to: u64) -> nat {
    if to >= from {
        (to - from) as nat
    } else {
        0
    }
}

/// The `i`-th timestamp of the window followed by the current one.
pub open spec fn window_ts(w: Seq<u64>, cur: u64, i: int) -> u64 {
    if i < w.len() {
        w[i]
    } else {
        cur
    }
}

/// Linearly weighted sum of the first `k` intervals of `w` followed by
/// `cur`: the `k`-th interval has weight `k`.
pub open spec fn lwma_sum(w: Seq<u64>, cur: u64, k: nat) -> nat
    decreases k,
{
    if k == 0 {
        0
    } else {
        lwma_sum(w, cur, (k - 1) as nat) + k * interval(
            window_ts(w, cur, k - 1),
            window_ts(w, cur, k as int),
        )
    }
}

/// The number of weight units of `n` intervals.
pub open spec fn weight_count(n: nat) -> nat {
    n * (n + 1) / 2
}

/// The timespan the retarget uses: the single interval since the previous
/// block when the window holds fewer than two timestamps, otherwise the
/// linearly weighted mean of the window's intervals through `cur`.
pub open spec fn actual_timespan(prev_timestamp: u64, cur: u64, w: Seq<u64>) -> nat {
    if w.len() < 2 {
        interval(prev_timestamp, cur)
    } else {
        lwma_sum(w, cur, w.len()) / weight_count(w.len())
    }
}

/// `timespan` held within `[t / 4, 4 t]`.
pub open spec fn clamp_timespan(timespan: nat, t: nat) -> nat {
    if timespan < t / 4 {
        t / 4
    } else if timespan > t * 4 {
        t * 4
    } else {
        timespan
    }
}

/// `v * f / s`, or `cap` when that does not fit in 256 bits.
pub open spec fn mul_div_capped(v: nat, f: nat, s: nat, cap: nat) -> nat {
    let r = v * f / s;
    if r < two_pow_256() {
        r
    } else {
        cap
    }
}

/// The retargeted value before compact rounding: scaled by the timespan
/// over the target block time, held within ±1% of the previous target, at
/// least 1 and at most the network maximum.
pub open spec fn retarget_value(prev: nat, timespan: nat, params: ChainParams) -> nat {
    let t = params.target_block_time as nat;
    let cap = params.max_target.value();
    let a = mul_div_capped(prev, clamp_timespan(timespan, t), t, cap);
    let inc = mul_div_capped(prev, 101, 100, cap);
    let dec = mul_div_capped(prev, 99, 100, cap);
    let b = if a > inc {
        inc
    } else {
        a
    };
    let c = if b < dec {
        dec
    } else {
        b
    };
    let d = if c == 0 {
        1
    } else {
        c
    };
    if d > cap {
        cap
    } else {
        d
    }
}

/// A non-zero value lies between `256^(n-1)` and `256^n` for its byte length `n`.
proof fn lemma_byte_len_bounds(v: nat)
    requires
        v > 0,
    ensures
        byte_len(v) >= 1,
        pow256((byte_len(v) - 1) as nat) <= v < pow256(byte_len(v)),
    decreases v,
{
    if v < 256 {
        assert(v / 256 == 0);
        assert(byte_len(v / 256) == 0);
        assert(pow256(0) == 1 && pow256(1) == 256) by {
            reveal_with_fuel(pow256, 2);
        }
    } else {
        let q = v / 256;
        lemma_byte_len_bounds(q);
        let n = byte_len(q);
        assert(byte_len(v) == 1 + n);
        assert(pow256(n) == 256 * pow256((n - 1) as nat));
        assert(pow256(n + 1) == 256 * pow256(n));
        let p = pow256((n - 1) as nat);
        assert(256 * p <= v) by (nonlinear_arith)
            requires
                p <= q,
                q == v / 256,
        ;
        assert(v < 256 * pow256(n)) by (nonlinear_arith)
            requires
                q < pow256(n),
                q == v / 256,
        ;
    }
}

/// A value below `2^256` has at most 32 bytes.
proof fn lemma_byte_len_at_most_32(v: nat)
    requires
        0 < v < two_pow_256(),
    ensures
        byte_len(v) <= 32,
{
    lemma_byte_len_bounds(v);
    if byte_len(v) > 32 {
        lemma_pow256_monotone(32, (byte_len(v) - 1) as nat);
    }
}

/// The compact form never rounds a target up: for a non-zero value below
/// `2^256`, the compact form fits in 32 bits and, whenever its exponent is
/// at most 32, decodes to a value no greater than `v`.
pub proof fn lemma_compact_rounds_down(v: nat)
    requires
        0 < v < two_pow_256(),
    ensures
        spec_compact(v) <= u32::MAX,
        compact_exponent(spec_compact(v) as u32) <= 32 ==> (spec_target(spec_compact(v) as u32) matches Ok(
            x,
        ) && x <= v),
{
    lemma_byte_len_bounds(v);
    lemma_byte_len_at_most_32(v);
    let s = byte_len(v);
    let c = spec_compact(v);
    assert(pow256(3) == 0x100_0000) by {
        reveal_with_fuel(pow256, 4);
    }
    if s <= 3 {
        let k = (3 - s) as nat;
        let pk = pow256(k);
        let m = v * pk;
        lemma_pow256_add(s, k);
        assert(s + k == 3);
        assert(m < 0x100_0000) by (nonlinear_arith)
            requires
                v < pow256(s),
                pow256(s) * pk == 0x100_0000,
                m == v * pk,
                pk >= 1,
        ;
        lemma_pow256_positive(k);
        if m >= 0x80_0000 {
            let mant = m / 256;
            assert(c == (s + 1) * 0x100_0000 + mant);
            assert(mant < 0x1_0000);
            assert(compact_exponent(c as u32) == s + 1);
            assert(compact_mantissa(c as u32) == mant);
            if s == 3 {
                assert(pk == 1) by {
                    reveal_with_fuel(pow256, 1);
                }
                assert(pow256(1) == 256) by {
                    reveal_with_fuel(pow256, 2);
                }
                assert(mant * 256 <= v) by (nonlinear_arith)
                    requires
                        mant == m / 256,
                        m == v * pk,
                        pk == 1,
                ;
            } else {
                let k2 = (2 - s) as nat;
                assert(pk == 256 * pow256(k2));
                assert(mant / pow256(k2) == v) by (nonlinear_arith)
                    requires
                        mant == m / 256,
                        m == v * pk,
                        pk == 256 * pow256(k2),
                        pow256(k2) >= 1,
                ;
            }
        } else {
            assert(c == s * 0x100_0000 + m);
            assert(compact_exponent(c as u32) == s);
            assert(compact_mantissa(c as u32) == m);
            assert(m / pk == v) by (nonlinear_arith)
                requires
                    m == v * pk,
                    pk >= 1,
            ;
        }
    } else {
        let k = (s - 3) as nat;
        let pk = pow256(k);
        lemma_pow256_positive(k);
        let m = v / pk;
        lemma_pow256_add(k, 3);
        assert(k + 3 == s);
        assert(m < 0x100_0000) by (nonlinear_arith)
            requires
                v < pow256(s),
                pow256(s) == pk * 0x100_0000,
                m == v / pk,
                pk >= 1,
        ;
        assert(m * pk <= v) by (nonlinear_arith)
            requires
                m == v / pk,
                pk >= 1,
        ;
        if m >= 0x80_0000 {
            let mant = m / 256;
            assert(c == (s + 1) * 0x100_0000 + mant);
            assert(mant < 0x1_0000);
            assert(compact_exponent(c as u32) == s + 1);
            assert(compact_mantissa(c as u32) == mant);
            assert(pow256((s + 1 - 3) as nat) == 256 * pk);
            assert(mant * (256 * pk) <= v) by (nonlinear_arith)
                requires
                    mant == m / 256,
                    m * pk <= v,
                    pk >= 1,
            ;
        } else {
            assert(c == s * 0x100_0000 + m);
            assert(compact_exponent(c as u32) == s);
            assert(compact_mantissa(c as u32) == m);
        }
    }
}

/// The retarget never passes the network maximum, never reaches zero while
/// the maximum is positive, and moves a target by at most 1% either way: for
/// a previous target of at least 100 whose 1% increase stays within the
/// maximum, the result lies between 99% and 101% of it.
pub proof fn lemma_retarget_bounds(prev: nat, timespan: nat, params: ChainParams)
    ensures
        retarget_value(prev, timespan, params) <= params.max_target.value(),
        params.max_target.value() >= 1 ==> retarget_value(prev, timespan, params) >= 1,
        (prev >= 100 && prev * 101 / 100 <= params.max_target.value()) ==> prev * 99 / 100
            <= retarget_value(prev, timespan, params) <= prev * 101 / 100,
{
    let cap = params.max_target.value();
    lemma_u256_bound(params.max_target);
    if prev >= 100 && prev * 101 / 100 <= cap {
        assert(prev * 99 / 100 <= prev * 101 / 100) by (nonlinear_arith)
            requires
                prev >= 100,
        ;
        assert(prev * 99 / 100 >= 99) by (nonlinear_arith)
            requires
                prev >= 100,
        ;
        assert(mul_div_capped(prev, 101, 100, cap) == prev * 101 / 100);
        assert(mul_div_capped(prev, 99, 100, cap) == prev * 99 / 100);
    }
}

/// What `calculate_next_target` computes.
pub open spec fn spec_next_target(
    prev: BlockHeader,
    cur: u64,
    params: ChainParams,
    w: Seq<u64>,
) -> Result<nat, DifficultyError> {
    match spec_target(prev.n_bits) {
        Err(_) => Err(DifficultyError::InvalidTimestamp),
        Ok(pt) => if !params.difficulty_adjustment {
            Ok(pt)
        } else if params.allow_min_difficulty_blocks && interval(prev.timestamp, cur)
            > params.target_block_time * 6 / 5 {
            Ok(params.max_target.value())
        } else {
            let v = retarget_value(pt, actual_timespan(prev.timestamp, cur, w), params);
            let c = spec_compact(v);
            if c / 0x100_0000 > 32 {
                Err(DifficultyError::Overflow)
            } else {
                Ok(compact_value(c as u32))
            }
        },
    }
}

/// The inputs on which `calculate_next_target` computes without an
/// arithmetic panic. Only when the previous target decodes and adjustment is
/// on does the arithmetic start: then the minimum-difficulty threshold
/// `target_block_time * 6 / 5` must fit when that rule is on, and, unless
/// that rule returns the maximum target, the target block time must be
/// positive (it divides), four times it must fit, and the window's length
/// must fit in 32 bits.
pub open spec fn retarget_defined(prev: BlockHeader, cur: u64, params: ChainParams, w: Seq<u64>) -> bool {
    (spec_target(prev.n_bits) is Ok && params.difficulty_adjustment) ==> {
        &&& params.allow_min_difficulty_blocks ==> params.target_block_time <= u64::MAX / 6
        &&& !(params.allow_min_difficulty_blocks && interval(prev.timestamp, cur)
            > params.target_block_time * 6 / 5) ==> {
            &&& params.target_block_time > 0
            &&& params.target_block_time <= u64::MAX / 4
            &&& w.len() <= u32::MAX
        }
    }
}

/// Parameters and a window with which every retarget computes.
pub open spec fn retarget_inputs_ok(params: ChainParams, w: Seq<u64>) -> bool {
    &&& w.len() <= u32::MAX
    &&& params.difficulty_adjustment ==> {
        &&& params.target_block_time > 0
        &&& params.target_block_time <= u64::MAX / 4
        &&& params.allow_min_difficulty_blocks ==> params.target_block_time <= u64::MAX / 6
    }
}

/// Parameters and a window fit for every retarget are fit for each one.
pub proof fn lemma_retarget_inputs_defined(prev: BlockHeader, cur: u64, params: ChainParams, w: Seq<u64>)
    requires
        retarget_inputs_ok(params, w),
    ensures
        retarget_defined(prev, cur, params, w),
{
}

/// The bytes of `v * factor / scale`, least significant first, through
/// `num_bigint::BigUint` (`from_bytes_le`, `*`, `/`, `to_bytes_le`). As its
/// source shows, `to_bytes_le` gives `[0]` for zero and otherwise no trailing
/// zero byte; division panics when `scale` is 0, which `requires` rules out.
#[verifier::external_body]
fn big_mul_div(v: &[u8; 32], factor: u64, scale: u64) -> (out: Vec<u8>)
    requires
        scale > 0,
    ensures
        le_value(out@) == le_value(v@) * (factor as nat) / (scale as nat),
        out@.len() >= 1,
        out@.len() > 1 ==> out@[out@.len() - 1] != 0,
{
    let value = BigUint::from_bytes_le(v);
    (value * BigUint::from(factor) / BigUint::from(scale)).to_bytes_le()
}

proof fn lemma_last_nonzero_lower_bound(s: Seq<u8>)
    requires
        s.len() > 0,
        s[s.len() - 1] != 0,
    ensures
        le_value(s) >= pow256((s.len() - 1) as nat),
{
    let k = s.len() - 1;
    let lo = s.subrange(0, k);
    let hi = s.subrange(k, s.len() as int);
    assert(s =~= lo + hi);
    assert(hi =~= seq![s[k]]);
    lemma_le_value_append(lo, hi);
    lemma_le_value_single(s[k]);
    let p = pow256(k as nat);
    assert(p * (s[k] as nat) >= p) by (nonlinear_arith)
        requires
            s[k] as nat >= 1,
            p >= 0,
    ;
}

/// `target * factor / scale` as a 256-bit value, or `max_target` when the
/// product does not fit.
fn multiply_u256_by_factor(target: &U256, factor: u64, scale: u64, max_target: &U256) -> (r: Result<
    U256,
    DifficultyError,
>)
    requires
        scale > 0,
    ensures
        r matches Ok(v) && v.value() == mul_div_capped(
            target.value(),
            factor as nat,
            scale as nat,
            max_target.value(),
        ),
{
    let bytes = big_mul_div(&target.0, factor, scale);
    if bytes.len() > 32 {
        proof {
            lemma_last_nonzero_lower_bound(bytes@);
            lemma_pow256_monotone(32, (bytes@.len() - 1) as nat);
        }
        return Ok(*max_target);
    }
    let mut out = [0u8; 32];
    let mut i: usize = 0;
    while i < bytes.len()
        invariant
            i <= bytes@.len() <= 32,
            forall|k: int| 0 <= k < i ==> out@[k] == bytes@[k],
            forall|k: int| i <= k < 32 ==> out@[k] == 0,
        decreases bytes@.len() - i,
    {
        out[i] = bytes[i];
        i = i + 1;
    }
    proof {
        let n = bytes@.len();
        assert(out@.subrange(0, n as int) =~= bytes@);
        assert(out@.subrange(n as int, 32) =~= zeros((32 - n) as nat));
        assert(out@ =~= out@.subrange(0, n as int) + out@.subrange(n as int, 32));
        lemma_le_value_append(bytes@, zeros((32 - n) as nat));
        lemma_le_value_zeros((32 - n) as nat);
        lemma_le_value_bound(bytes@);
        lemma_pow256_monotone(n, 32);
    }
    Ok(U256(out))
}

/// The 256-bit value of a compact target produced by [`u256_to_compact`]:
/// `None` when its exponent is above 32.
fn expand_compact(n_bits: u32) -> (r: Option<U256>)
    ensures
        match r {
            Some(t) => n_bits / 0x100_0000 <= 32 && t.value() == compact_value(n_bits),
            None => n_bits / 0x100_0000 > 32,
        },
{
    let exponent = n_bits / 0x100_0000;
    let mantissa = n_bits % 0x100_0000;
    if exponent > 3 {
        let shift_bytes = (exponent - 3) as usize;
        if shift_bytes + 3 > 32 {
            return None;
        }
        Some(U256(place_mantissa(mantissa, shift_bytes)))
    } else {
        let value = if exponent == 3 {
            mantissa
        } else if exponent == 2 {
            mantissa / 256
        } else if exponent == 1 {
            mantissa / 65536
        } else {
            mantissa / 16777216
        };
        proof {
            reveal_with_fuel(pow256, 4);
            assert(pow256(0) == 1);
            assert(pow256(1) == 256);
            assert(pow256(2) == 65536);
            assert(pow256(3) == 16777216);
            let e = compact_exponent(n_bits);
            let m = compact_mantissa(n_bits);
            assert(e == exponent as nat);
            assert(m == mantissa as nat);
            assert(compact_value(n_bits) == m / pow256((3 - e) as nat));
            if exponent == 3 {
                assert(m / 1 == m) by (nonlinear_arith);
            } else if exponent == 2 {
                assert(m / pow256(1) == m / 256);
            } else if exponent == 1 {
                assert(m / pow256(2) == m / 65536);
            } else {
                assert(e == 0);
                assert(m / pow256(3) == m / 16777216);
            }
            assert(value as nat == compact_value(n_bits));
        }
        let bytes = place_mantissa(value, 0);
        proof {
            assert(value as nat * 1 == value as nat) by (nonlinear_arith);
        }
        Some(U256(bytes))
    }
}

proof fn lemma_lwma_sum_bound(w: Seq<u64>, cur: u64, k: nat)
    ensures
        lwma_sum(w, cur, k) <= (u64::MAX as nat) * weight_count(k),
    decreases k,
{
    if k > 0 {
        lemma_lwma_sum_bound(w, cur, (k - 1) as nat);
        let m = u64::MAX as nat;
        let iv = interval(window_ts(w, cur, k - 1), window_ts(w, cur, k as int));
        assert(iv <= m);
        let km1 = (k - 1) as nat;
        assert(k * (k + 1) == km1 * (km1 + 1) + 2 * k) by (nonlinear_arith)
            requires
                km1 + 1 == k,
        ;
        let x = km1 * (km1 + 1);
        assert((x + 2 * k) / 2 == x / 2 + k);
        assert(weight_count(k) == weight_count(km1) + k);
        assert(k * iv <= k * m) by (nonlinear_arith)
            requires
                iv <= m,
        ;
        assert(m * weight_count(km1) + k * m == m * (weight_count(km1) + k)) by (nonlinear_arith);
    }
}

/// The weighted mean of the window's intervals through `current_timestamp`.
fn lwma_timespan(window_timestamps: &[u64], current_timestamp: u64) -> (r: u64)
    requires
        2 <= window_timestamps@.len() <= u32::MAX,
    ensures
        r as nat == lwma_sum(window_timestamps@, current_timestamp, window_timestamps@.len())
            / weight_count(window_timestamps@.len()),
{
    let ghost w = window_timestamps@;
    let n = window_timestamps.len();
    let mut weighted_sum: u128 = 0;
    let mut i: usize = 0;
    while i < n
        invariant
            i <= n,
            n == w.len(),
            n <= u32::MAX,
            w == window_timestamps@,
            weighted_sum as nat == lwma_sum(w, current_timestamp, i as nat),
        decreases n - i,
    {
        let prev_ts = window_timestamps[i];
        let ts = if i + 1 < n {
            window_timestamps[i + 1]
        } else {
            current_timestamp
        };
        let step = ts.saturating_sub(prev_ts);
        proof {
            lemma_lwma_sum_bound(w, current_timestamp, i as nat);
            let m = u64::MAX as nat;
            let ii = i as nat;
            assert(ii * (ii + 1) / 2 <= 0x8000_0000_0000_0000) by (nonlinear_arith)
                requires
                    ii < 0x1_0000_0000,
            ;
            assert(m * weight_count(ii) <= m * 0x8000_0000_0000_0000) by (nonlinear_arith)
                requires
                    weight_count(ii) <= 0x8000_0000_0000_0000,
            ;
            assert((ii + 1) * (step as nat) <= 0x1_0000_0000 * m) by (nonlinear_arith)
                requires
                    ii + 1 <= 0x1_0000_0000,
                    step as nat <= m,
            ;
            assert(window_ts(w, current_timestamp, i as int) == prev_ts);
            assert(window_ts(w, current_timestamp, i + 1) == ts);
        }
        weighted_sum = weighted_sum + (i as u128 + 1) * (step as u128);
        i = i + 1;
    }
    let nn = n as u128;
    proof {
        assert(nn * (nn + 1) <= 0x1_0000_0000 * 0x1_0000_0000) by (nonlinear_arith)
            requires
                nn <= 0xFFFF_FFFF,
        ;
    }
    let weighted_count = nn * (nn + 1) / 2;
    proof {
        lemma_lwma_sum_bound(w, current_timestamp, n as nat);
        let m = u64::MAX as nat;
        let c = weight_count(n as nat);
        assert(c >= 1) by (nonlinear_arith)
            requires
                n >= 2,
                c == n * (n + 1) / 2,
        ;
        assert(weighted_sum as nat / c <= m) by (nonlinear_arith)
            requires
                weighted_sum as nat <= m * c,
                c >= 1,
        ;
    }
    (weighted_sum / weighted_count) as u64
}

/// `window_timestamps`: up to `DIFFICULTY_WINDOW` timestamps of the blocks
/// ending at `prev_header`, in chain order (oldest first). n timestamps span
/// n intervals through `current_timestamp`, combined as an LWMA (weight i for
/// the i-th oldest interval, newest weighted highest); fewer than 2 entries
/// falls back to the single prev→current interval.
pub fn calculate_next_target(
    prev_header: &BlockHeader,
    current_timestamp: u64,
    params: &ChainParams,
    window_timestamps: &[u64],
) -> (r: Result<U256, DifficultyError>)
    requires
        retarget_defined(*prev_header, current_timestamp, *params, window_timestamps@),
    ensures
        match r {
            Ok(t) => spec_next_target(*prev_header, current_timestamp, *params, window_timestamps@)
                == Ok::<nat, DifficultyError>(t.value()),
            Err(e) => spec_next_target(*prev_header, current_timestamp, *params, window_timestamps@)
                == Err::<nat, DifficultyError>(e),
        },
{
    let prev_target = match prev_header.target() {
        Ok(t) => t,
        Err(_) => {
            return Err(DifficultyError::InvalidTimestamp);
        },
    };
    if !params.difficulty_adjustment {
        return Ok(prev_target);
    }
    if params.allow_min_difficulty_blocks {
        let time_since_last = current_timestamp.saturating_sub(prev_header.timestamp);
        if time_since_last > params.target_block_time * 6 / 5 {
            return Ok(params.max_target);
        }
    }
    let mut actual_timespan: u64 = if window_timestamps.len() < 2 {
        current_timestamp.saturating_sub(prev_header.timestamp)
    } else {
        lwma_timespan(window_timestamps, current_timestamp)
    };
    let target = params.target_block_time;
    let min_timespan = target / 4;
    let max_timespan = target * 4;
    if actual_timespan < min_timespan {
        actual_timespan = min_timespan;
    } else if actual_timespan > max_timespan {
        actual_timespan = max_timespan;
    }
    let mut new_target = multiply_u256_by_factor(
        &prev_target,
        actual_timespan,
        target,
        &params.max_target,
    )?;
    // Clamp adjustment to max ±1% per block
    let max_increase = multiply_u256_by_factor(&prev_target, 101, 100, &params.max_target)?;
    if max_increase.is_less_than(&new_target) {
        new_target = max_increase;
    }
    let max_decrease = multiply_u256_by_factor(&prev_target, 99, 100, &params.max_target)?;
    if new_target.is_less_than(&max_decrease) {
        new_target = max_decrease;
    }
    let zero = U256([0u8; 32]);
    proof {
        assert(zero.0@ =~= zeros(32));
        lemma_le_value_zeros(32);
    }
    if new_target.equals(&zero) {
        let mut one_bytes = [0u8; 32];
        one_bytes[0] = 1;
        proof {
            assert(one_bytes@.drop_first() =~= zeros(31));
            lemma_le_value_zeros(31);
        }
        new_target = U256::from_le_bytes(one_bytes);
    }
    if params.max_target.is_less_than(&new_target) {
        new_target = params.max_target;
    }
    let n_bits = u256_to_compact(&new_target);
    match expand_compact(n_bits) {
        Some(t) => Ok(t),
        None => Err(DifficultyError::Overflow),
    }
}

/// Checks the header's compact target against the one the chain calls for:
/// `Ok` for the first block, otherwise the retarget from `prev_header` must
/// be computable and equal the header's decoded target.
pub fn validate_difficulty(
    prev_header: Option<&BlockHeader>,
    current_header: &BlockHeader,
    params: &ChainParams,
    window_timestamps: &[u64],
) -> (r: Result<(), DifficultyError>)
    requires
        prev_header matches Some(p) ==> retarget_defined(
            *p,
            current_header.timestamp,
            *params,
            window_timestamps@,
        ),
    ensures
        match prev_header {
            None => r is Ok,
            Some(prev) => match spec_next_target(
                *prev,
                current_header.timestamp,
                *params,
                window_timestamps@,
            ) {
                Err(e) => r == Err::<(), DifficultyError>(e),
                Ok(expected) => match spec_target(current_header.n_bits) {
                    Err(_) => r == Err::<(), DifficultyError>(DifficultyError::InvalidTimestamp),
                    Ok(actual) => if expected == actual {
                        r is Ok
                    } else {
                        r matches Err(DifficultyError::TargetMismatch { expected: e, actual: a })
                            && e.value() == expected && a.value() == actual
                    },
                },
            },
        },
{
    let prev = match prev_header {
        None => {
            return Ok(());
        },
        Some(p) => p,
    };
    let expected = calculate_next_target(prev, current_header.timestamp, params, window_timestamps)?;
    let actual = match current_header.target() {
        Ok(t) => t,
        Err(_) => {
            return Err(DifficultyError::InvalidTimestamp);
        },
    };
    if !expected.equals(&actual) {
        return Err(DifficultyError::TargetMismatch { expected, actual });
    }
    Ok(())
}

} // verus!
