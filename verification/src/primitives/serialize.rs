//! The wire format: fixed-width little-endian integers, raw 32-byte hashes, and
//! byte strings prefixed by their length as a Bitcoin-style CompactSize.
use vstd::prelude::*;
use crate::primitives::bytes::{
    le_bytes, le_value, lemma_le_bytes_len, lemma_le_bytes_of_value, lemma_le_value_bound,
    lemma_le_value_of_bytes, pow256, push_le, read_le,
};

verus! {

/// Errors raised while decoding the wire format.
#[derive(Debug, Clone, Copy, PartialEq, Eq)]
pub enum DecodeError {
    /// The input ended before the value was complete.
    UnexpectedEof,
    /// The input is not a well-formed encoding.
    InvalidData,
}

/// The CompactSize encoding of `n`: one byte below `0xFD`, otherwise a marker
/// byte followed by 2, 4 or 8 little-endian bytes.
pub open spec fn compact_size(n: nat) -> Seq<u8> {
    if n < 0xFD {
        seq![n as u8]
    } else if n <= 0xFFFF {
        seq![0xFDu8] + le_bytes(n, 2)
    } else if n <= 0xFFFF_FFFF {
        seq![0xFEu8] + le_bytes(n, 4)
    } else {
        seq![0xFFu8] + le_bytes(n, 8)
    }
}

/// Reads a canonical CompactSize at the front of `s`: the value and the number
/// of bytes it takes, or `None` when `s` holds no such prefix.
pub open spec fn parse_compact_size(s: Seq<u8>) -> Option<(nat, nat)> {
    if s.len() == 0 {
        None
    } else if s[0] < 0xFD {
        Some((s[0] as nat, 1))
    } else {
        let w: nat = if s[0] == 0xFD {
            2
        } else if s[0] == 0xFE {
            4
        } else {
            8
        };
        let lo: nat = if s[0] == 0xFD {
            0xFD
        } else if s[0] == 0xFE {
            0x1_0000
        } else {
            0x1_0000_0000
        };
        if s.len() < 1 + w {
            None
        } else {
            let v = le_value(s.subrange(1, 1 + w as int));
            if v < lo {
                None
            } else {
                Some((v, 1 + w))
            }
        }
    }
}

/// A length-prefixed byte string.
pub open spec fn bytes_field(data: Seq<u8>) -> Seq<u8> {
    compact_size(data.len()) + data
}

/// Reads a length-prefixed byte string at the front of `s`: its content and
/// the number of bytes it takes.
pub open spec fn parse_bytes_field(s: Seq<u8>) -> Option<(Seq<u8>, nat)> {
    match parse_compact_size(s) {
        None => None,
        Some((n, c)) => if c + n <= s.len() {
            Some((s.subrange(c as int, (c + n) as int), c + n))
        } else {
            None
        },
    }
}

proof fn lemma_compact_size_parts(n: nat, w: nat, lo: nat, marker: u8, rest: Seq<u8>)
    requires
        w == 2 || w == 4 || w == 8,
        lo <= n < pow256(w),
        0xFD <= lo,
        marker >= 0xFD,
        (marker == 0xFD) == (w == 2),
        (marker == 0xFE) == (w == 4),
        lo == (if w == 2 { 0xFDnat } else if w == 4 { 0x1_0000nat } else { 0x1_0000_0000nat }),
    ensures
        parse_compact_size(seq![marker] + le_bytes(n, w) + rest) == Some((n, 1 + w)),
{
    let s = seq![marker] + le_bytes(n, w) + rest;
    lemma_le_bytes_len(n, w);
    assert(s.subrange(1, 1 + w as int) =~= le_bytes(n, w));
    lemma_le_value_of_bytes(n, w);
}

/// A CompactSize followed by anything reads back as the number it encodes.
pub proof fn lemma_parse_compact_size(n: nat, rest: Seq<u8>)
    requires
        n < pow256(8),
    ensures
        parse_compact_size(compact_size(n) + rest) == Some((n, compact_size(n).len())),
{
    reveal_with_fuel(pow256, 9);
    if n < 0xFD {
    } else if n <= 0xFFFF {
        lemma_le_bytes_len(n, 2);
        lemma_compact_size_parts(n, 2, 0xFD, 0xFD, rest);
    } else if n <= 0xFFFF_FFFF {
        lemma_le_bytes_len(n, 4);
        lemma_compact_size_parts(n, 4, 0x1_0000, 0xFE, rest);
    } else {
        lemma_le_bytes_len(n, 8);
        lemma_compact_size_parts(n, 8, 0x1_0000_0000, 0xFF, rest);
    }
}

/// What a successful CompactSize read consumed is the encoding of what it read.
pub proof fn lemma_compact_size_of_parse(s: Seq<u8>)
    requires
        parse_compact_size(s) is Some,
    ensures
        ({
            let (n, c) = parse_compact_size(s).unwrap();
            c <= s.len() && s.subrange(0, c as int) == compact_size(n) && n < pow256(8)
        }),
{
    reveal_with_fuel(pow256, 9);
    let (n, c) = parse_compact_size(s).unwrap();
    if s[0] < 0xFD {
        assert(s.subrange(0, 1) =~= seq![s[0]]);
    } else {
        let w: nat = (c - 1) as nat;
        let body = s.subrange(1, 1 + w as int);
        lemma_le_value_bound(body);
        lemma_le_bytes_of_value(body);
        assert(s.subrange(0, c as int) =~= seq![s[0]] + body);
    }
}

/// A length-prefixed byte string followed by anything reads back as itself.
pub proof fn lemma_bytes_field_roundtrip(data: Seq<u8>, rest: Seq<u8>)
    requires
        data.len() < pow256(8),
    ensures
        parse_bytes_field(bytes_field(data) + rest) == Some((data, bytes_field(data).len())),
{
    let s = bytes_field(data) + rest;
    let cs = compact_size(data.len());
    assert(s =~= cs + (data + rest));
    lemma_parse_compact_size(data.len(), data + rest);
    assert(s.subrange(cs.len() as int, (cs.len() + data.len()) as int) =~= data);
}

/// Appends the CompactSize encoding of `n`.
pub fn write_compact_size(out: &mut Vec<u8>, n: u64)
    ensures
        final(out)@ == old(out)@ + compact_size(n as nat),
{
    if n < 0xFD {
        out.push(n as u8);
        proof { assert(final(out)@ =~= old(out)@ + compact_size(n as nat)); }
    } else if n <= 0xFFFF {
        out.push(0xFD);
        push_le(out, n, 2);
        proof { assert(final(out)@ =~= old(out)@ + compact_size(n as nat)); }
    } else if n <= 0xFFFF_FFFF {
        out.push(0xFE);
        push_le(out, n, 4);
        proof { assert(final(out)@ =~= old(out)@ + compact_size(n as nat)); }
    } else {
        out.push(0xFF);
        push_le(out, n, 8);
        proof { assert(final(out)@ =~= old(out)@ + compact_size(n as nat)); }
    }
}

/// Reads a CompactSize at `pos`: the value and the position just after it.
pub fn read_compact_size(bytes: &[u8], pos: usize) -> (res: Result<(u64, usize), DecodeError>)
    requires
        pos <= bytes@.len(),
    ensures
        match res {
            Ok((v, next)) => parse_compact_size(bytes@.subrange(pos as int, bytes@.len() as int))
                == Some((v as nat, (next - pos) as nat)) && pos < next <= bytes@.len(),
            Err(_) => parse_compact_size(bytes@.subrange(pos as int, bytes@.len() as int)) is None,
        },
{
    let ghost s = bytes@.subrange(pos as int, bytes@.len() as int);
    if pos >= bytes.len() {
        return Err(DecodeError::UnexpectedEof);
    }
    let tag = bytes[pos];
    if tag < 0xFD {
        return Ok((tag as u64, pos + 1));
    }
    let w: usize = if tag == 0xFD {
        2
    } else if tag == 0xFE {
        4
    } else {
        8
    };
    let lo: u64 = if tag == 0xFD {
        0xFD
    } else if tag == 0xFE {
        0x1_0000
    } else {
        0x1_0000_0000
    };
    if bytes.len() - pos < 1 + w {
        return Err(DecodeError::UnexpectedEof);
    }
    let v = read_le(bytes, pos + 1, w);
    proof {
        assert(bytes@.subrange(pos + 1, pos + 1 + w) =~= s.subrange(1, 1 + w as int));
    }
    if v < lo {
        return Err(DecodeError::InvalidData);
    }
    Ok((v, pos + 1 + w))
}

/// Appends `data` with its length in front.
pub fn write_bytes(out: &mut Vec<u8>, data: &[u8])
    ensures
        final(out)@ == old(out)@ + bytes_field(data@),
{
    write_compact_size(out, data.len() as u64);
    out.extend_from_slice(data);
    proof {
        assert(final(out)@ =~= old(out)@ + bytes_field(data@));
    }
}

/// Reads a length-prefixed byte string at `pos`: its content and the position
/// just after it.
pub fn read_bytes(bytes: &[u8], pos: usize) -> (res: Result<(Vec<u8>, usize), DecodeError>)
    requires
        pos <= bytes@.len(),
    ensures
        match res {
            Ok((v, next)) => parse_bytes_field(bytes@.subrange(pos as int, bytes@.len() as int))
                == Some((v@, (next - pos) as nat)) && pos < next <= bytes@.len(),
            Err(_) => parse_bytes_field(bytes@.subrange(pos as int, bytes@.len() as int)) is None,
        },
{
    let ghost s = bytes@.subrange(pos as int, bytes@.len() as int);
    let (n, start) = read_compact_size(bytes, pos)?;
    if n > (bytes.len() - start) as u64 {
        return Err(DecodeError::UnexpectedEof);
    }
    let end = start + n as usize;
    let mut v: Vec<u8> = Vec::new();
    let mut i = start;
    while i < end
        invariant
            start <= i <= end <= bytes@.len(),
            v@ == bytes@.subrange(start as int, i as int),
        decreases end - i,
    {
        v.push(bytes[i]);
        i = i + 1;
        proof {
            assert(v@ =~= bytes@.subrange(start as int, i as int));
        }
    }
    proof {
        assert(s.subrange((start - pos) as int, (end - pos) as int) =~= v@);
    }
    Ok((v, end))
}


/// The encodings `f(x)` of the items of `s`, one after another.
pub open spec fn concat_map<A>(s: Seq<A>, f: spec_fn(A) -> Seq<u8>) -> Seq<u8>
    decreases s.len(),
{
    if s.len() == 0 {
        Seq::empty()
    } else {
        concat_map(s.drop_last(), f) + f(s.last())
    }
}

/// Extending a prefix of `s` by one item appends that item's encoding.
pub proof fn lemma_concat_map_step<A>(s: Seq<A>, f: spec_fn(A) -> Seq<u8>, i: int)
    requires
        0 <= i < s.len(),
    ensures
        concat_map(s.take(i + 1), f) == concat_map(s.take(i), f) + f(s[i]),
{
    assert(s.take(i + 1).drop_last() =~= s.take(i));
}

/// A list: its length as a CompactSize, then the items' encodings.
pub open spec fn list_field<A>(s: Seq<A>, f: spec_fn(A) -> Seq<u8>) -> Seq<u8> {
    compact_size(s.len()) + concat_map(s, f)
}


/// Two lists whose items encode alike, position by position, encode alike.
pub proof fn lemma_concat_map_congruent<A, B>(
    s: Seq<A>,
    f: spec_fn(A) -> Seq<u8>,
    t: Seq<B>,
    g: spec_fn(B) -> Seq<u8>,
)
    requires
        s.len() == t.len(),
        forall|i: int| 0 <= i < s.len() ==> #[trigger] f(s[i]) == g(t[i]),
    ensures
        concat_map(s, f) == concat_map(t, g),
    decreases s.len(),
{
    if s.len() > 0 {
        let n = s.len() - 1;
        assert forall|i: int| 0 <= i < n implies #[trigger] f(s.drop_last()[i]) == g(t.drop_last()[i]) by {
            assert(s.drop_last()[i] == s[i] && t.drop_last()[i] == t[i]);
            assert(f(s[i]) == g(t[i]));
        }
        lemma_concat_map_congruent(s.drop_last(), f, t.drop_last(), g);
        assert(f(s[n]) == g(t[n]));
    }
}

} // verus!
