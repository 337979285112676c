//! Index records of stored blocks.
use vstd::prelude::*;
use crate::consensus::block::U256;
use crate::primitives::bytes::{
    le_bytes, le_value, lemma_le_bytes_len, lemma_le_bytes_of_value, lemma_le_value_bound,
    lemma_le_value_of_bytes, pow256, push_le, read_array32, read_le,
};
use crate::primitives::hash::Hash256;

verus! {

/// Block metadata for index (Internal use or if we want to store it separately)
#[derive(Debug, Clone, Copy)]
pub struct BlockMeta {
    pub height: u64,
    pub hash: Hash256,
    pub cumulative_work: U256,
}

/// The 72-byte record: height (8 bytes, little-endian), hash, work.
pub open spec fn block_meta_bytes(height: u64, hash: Seq<u8>, work: Seq<u8>) -> Seq<u8> {
    le_bytes(height as nat, 8) + hash + work
}

impl BlockMeta {
    pub open spec fn spec_bytes(&self) -> Seq<u8> {
        block_meta_bytes(self.height, self.hash@, self.cumulative_work.0@)
    }

    /// Serialize to bytes
    pub fn to_bytes(&self) -> (r: Vec<u8>)
        ensures
            r@ == self.spec_bytes(),
    {
        let mut bytes: Vec<u8> = Vec::new();
        push_le(&mut bytes, self.height, 8);
        bytes.extend_from_slice(&self.hash);
        bytes.extend_from_slice(&self.cumulative_work.0);
        proof {
            assert(bytes@ =~= self.spec_bytes());
        }
        bytes
    }

    /// Deserialize from bytes: `Err` exactly when fewer than 72 bytes are
    /// given; otherwise the first 72 are read and the rest ignored.
    pub fn from_bytes(bytes: &[u8]) -> (r: Result<Self, String>)
        ensures
            bytes@.len() < 72 <==> r is Err,
            r matches Err(e) ==> e@ == "Invalid BlockMeta bytes"@,
            r matches Ok(m) ==> m.height == le_value(bytes@.subrange(0, 8)) && m.hash@
                == bytes@.subrange(8, 40) && m.cumulative_work.0@ == bytes@.subrange(40, 72),
    {
        if bytes.len() < 8 + 32 + 32 {
            return Err("Invalid BlockMeta bytes".to_owned());
        }
        let height = read_le(bytes, 0, 8);
        let hash = read_array32(bytes, 8);
        let work = read_array32(bytes, 40);
        Ok(BlockMeta { height, hash, cumulative_work: U256(work) })
    }
}

/// Reading back a written record gives the same height, hash and work.
pub proof fn lemma_block_meta_roundtrip(m: BlockMeta)
    ensures
        m.spec_bytes().len() == 72,
        le_value(m.spec_bytes().subrange(0, 8)) == m.height,
        m.spec_bytes().subrange(8, 40) == m.hash@,
        m.spec_bytes().subrange(40, 72) == m.cumulative_work.0@,
{
    let s = m.spec_bytes();
    lemma_le_bytes_len(m.height as nat, 8);
    assert(m.height < pow256(8)) by {
        reveal_with_fuel(pow256, 9);
    }
    lemma_le_value_of_bytes(m.height as nat, 8);
    assert(s.subrange(0, 8) =~= le_bytes(m.height as nat, 8));
    assert(s.subrange(8, 40) =~= m.hash@);
    assert(s.subrange(40, 72) =~= m.cumulative_work.0@);
}

/// The height a key of the height index stands for: its first 8 bytes,
/// least significant first; 0 for a shorter key.
pub open spec fn index_key_height(key: Seq<u8>) -> nat {
    if key.len() >= 8 {
        le_value(key.subrange(0, 8))
    } else {
        0
    }
}

/// The key of the height index for a height: its 8 bytes, least
/// significant first.
pub fn height_index_key(height: u64) -> (r: Vec<u8>)
    ensures
        r@ == le_bytes(height as nat, 8),
        index_key_height(r@) == height,
{
    let mut key: Vec<u8> = Vec::new();
    push_le(&mut key, height, 8);
    proof {
        assert(key@ =~= le_bytes(height as nat, 8));
        lemma_le_bytes_len(height as nat, 8);
        assert(key@.subrange(0, 8) =~= key@);
        assert(height < pow256(8)) by {
            reveal_with_fuel(pow256, 9);
        }
        lemma_le_value_of_bytes(height as nat, 8);
    }
    key
}

/// The height of the highest stored block, from the keys of the height
/// index: the greatest height a key stands for; none without keys.
pub fn max_stored_height(keys: &[Vec<u8>]) -> (r: Option<u64>)
    ensures
        r is None <==> keys@.len() == 0,
        r matches Some(h) ==> (exists|i: int| 0 <= i < keys@.len() && index_key_height(#[trigger] keys@[i]@) == h)
            && forall|i: int| 0 <= i < keys@.len() ==> index_key_height(#[trigger] keys@[i]@) <= h,
{
    let mut best: Option<u64> = None;
    let mut i: usize = 0;
    while i < keys.len()
        invariant
            i <= keys@.len(),
            best is None <==> i == 0,
            best matches Some(h) ==> (exists|j: int| 0 <= j < i && index_key_height(#[trigger] keys@[j]@) == h)
                && forall|j: int| 0 <= j < i ==> index_key_height(#[trigger] keys@[j]@) <= h,
        decreases keys@.len() - i,
    {
        let key = &keys[i];
        let h: u64 = if key.len() >= 8 {
            read_le(key.as_slice(), 0, 8)
        } else {
            0
        };
        assert(index_key_height(keys@[i as int]@) == h);
        best = match best {
            None => Some(h),
            Some(b) => if h > b {
                Some(h)
            } else {
                Some(b)
            },
        };
        i = i + 1;
    }
    best
}

} // verus!
