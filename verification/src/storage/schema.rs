//! Key layout of the block store.
use vstd::prelude::*;

verus! {

/// The 4-byte big-endian key of a height.
pub open spec fn spec_height_key(height: u32) -> Seq<u8> {
    seq![
        (height / 0x100_0000) as u8,
        ((height / 0x1_0000) % 0x100) as u8,
        ((height / 0x100) % 0x100) as u8,
        (height % 0x100) as u8,
    ]
}

/// The height a 4-byte big-endian key stands for.
pub open spec fn spec_key_height(key: Seq<u8>) -> int {
    key[0] * 0x100_0000 + key[1] * 0x1_0000 + key[2] * 0x100 + key[3]
}

/// `a` comes before `b` byte by byte: they agree up to some position, where
/// `a` has the smaller byte.
pub open spec fn lex_less(a: Seq<u8>, b: Seq<u8>) -> bool {
    exists|i: int| 0 <= i < a.len() && i < b.len() && #[trigger] a.subrange(0, i) == b.subrange(0, i) && a[i] < b[i]
}

/// Serialize height to bytes (big-endian for proper sorting)
pub fn height_to_key(height: u32) -> (r: [u8; 4])
    ensures
        r@ == spec_height_key(height),
{
    let r = [
        (height / 0x100_0000) as u8,
        ((height / 0x1_0000) % 0x100) as u8,
        ((height / 0x100) % 0x100) as u8,
        (height % 0x100) as u8,
    ];
    proof {
        assert(r@ =~= spec_height_key(height));
    }
    r
}

/// Deserialize height from bytes
pub fn key_to_height(bytes: &[u8]) -> (r: u32)
    requires
        bytes@.len() == 4,
    ensures
        r == spec_key_height(bytes@),
{
    let b0 = bytes[0] as u32;
    let b1 = bytes[1] as u32;
    let b2 = bytes[2] as u32;
    let b3 = bytes[3] as u32;
    b0 * 0x100_0000 + b1 * 0x1_0000 + b2 * 0x100 + b3
}

/// Reading back the key of a height gives the height.
pub proof fn lemma_height_key_roundtrip(height: u32)
    ensures
        spec_height_key(height).len() == 4,
        spec_key_height(spec_height_key(height)) == height,
{
    let h = height as int;
    assert(h == (h / 0x100_0000) * 0x100_0000 + ((h / 0x1_0000) % 0x100) * 0x1_0000 + ((h / 0x100)
        % 0x100) * 0x100 + h % 0x100) by (nonlinear_arith)
        requires
            0 <= h < 0x1_0000_0000,
    ;
}

/// Keys sort as their heights do: a lower height has a key that comes first
/// byte by byte.
pub proof fn lemma_height_key_order(h1: u32, h2: u32)
    requires
        h1 < h2,
    ensures
        lex_less(spec_height_key(h1), spec_height_key(h2)),
{
    lemma_height_key_roundtrip(h1);
    lemma_height_key_roundtrip(h2);
    let a = spec_height_key(h1);
    let b = spec_height_key(h2);
    if a[0] != b[0] {
        assert(a.subrange(0, 0) =~= b.subrange(0, 0));
    } else if a[1] != b[1] {
        assert(a.subrange(0, 1) =~= b.subrange(0, 1));
    } else if a[2] != b[2] {
        assert(a.subrange(0, 2) =~= b.subrange(0, 2));
    } else {
        assert(a.subrange(0, 3) =~= b.subrange(0, 3));
    }
}


/// Keys sort only as their heights do: a key that comes first byte by byte
/// belongs to the lower height.
pub proof fn lemma_height_key_order_converse(h1: u32, h2: u32)
    requires
        lex_less(spec_height_key(h1), spec_height_key(h2)),
    ensures
        h1 < h2,
{
    lemma_height_key_roundtrip(h1);
    lemma_height_key_roundtrip(h2);
    let a = spec_height_key(h1);
    let b = spec_height_key(h2);
    let i = choose|i: int|
        0 <= i < a.len() && i < b.len() && #[trigger] a.subrange(0, i) == b.subrange(0, i) && a[i]
            < b[i];
    assert forall|k: int| 0 <= k < i implies a[k] == b[k] by {
        assert(a.subrange(0, i)[k] == a[k]);
        assert(b.subrange(0, i)[k] == b[k]);
    }
}

} // verus!
