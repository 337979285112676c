//! Little-endian integers as byte strings: the numeric model used by every
//! encoder and decoder in the crate.
use vstd::prelude::*;

verus! {

/// `256^n`.
pub open spec fn pow256(n: nat) -> nat
    decreases n,
{
    if n == 0 {
        1
    } else {
        256 * pow256((n - 1) as nat)
    }
}

/// The number that `s` denotes when read as a little-endian integer.
pub open spec fn le_value(s: Seq<u8>) -> nat
    decreases s.len(),
{
    if s.len() == 0 {
        0
    } else {
        s[0] as nat + 256 * le_value(s.drop_first())
    }
}

/// The `n` least significant bytes of `x`, least significant first.
pub open spec fn le_bytes(x: nat, n: nat) -> Seq<u8>
    decreases n,
{
    if n == 0 {
        Seq::empty()
    } else {
        seq![(x % 256) as u8] + le_bytes(x / 256, (n - 1) as nat)
    }
}

pub proof fn lemma_pow256_positive(n: nat)
    ensures
        pow256(n) >= 1,
    decreases n,
{
    if n > 0 {
        lemma_pow256_positive((n - 1) as nat);
    }
}

pub proof fn lemma_pow256_monotone(a: nat, b: nat)
    requires
        a <= b,
    ensures
        pow256(a) <= pow256(b),
    decreases b,
{
    if a < b {
        lemma_pow256_monotone(a, (b - 1) as nat);
        lemma_pow256_positive((b - 1) as nat);
    }
}

pub proof fn lemma_pow256_add(a: nat, b: nat)
    ensures
        pow256(a + b) == pow256(a) * pow256(b),
    decreases a,
{
    if a > 0 {
        lemma_pow256_add((a - 1) as nat, b);
        assert(pow256(a + b) == 256 * pow256((a - 1 + b) as nat));
        assert(256 * (pow256((a - 1) as nat) * pow256(b)) == (256 * pow256((a - 1) as nat))
            * pow256(b)) by (nonlinear_arith);
    } else {
        assert(pow256(a) == 1);
        assert(a + b == b);
    }
}

pub proof fn lemma_le_bytes_len(x: nat, n: nat)
    ensures
        le_bytes(x, n).len() == n,
    decreases n,
{
    if n > 0 {
        lemma_le_bytes_len(x / 256, (n - 1) as nat);
    }
}

/// A little-endian string of `n` bytes denotes a number below `256^n`.
pub proof fn lemma_le_value_bound(s: Seq<u8>)
    ensures
        le_value(s) < pow256(s.len()),
    decreases s.len(),
{
    if s.len() > 0 {
        let t = s.drop_first();
        lemma_le_value_bound(t);
        assert(le_value(t) + 1 <= pow256(t.len()));
        assert(256 * (le_value(t) + 1) <= 256 * pow256(t.len())) by (nonlinear_arith)
            requires
                le_value(t) + 1 <= pow256(t.len()),
        ;
        assert(s.len() - 1 == t.len());
    }
}

/// Reading back the `n` bytes of `x` gives `x` when it fits.
pub proof fn lemma_le_value_of_bytes(x: nat, n: nat)
    requires
        x < pow256(n),
    ensures
        le_value(le_bytes(x, n)) == x,
    decreases n,
{
    lemma_le_bytes_len(x, n);
    if n > 0 {
        let rest = le_bytes(x / 256, (n - 1) as nat);
        assert(x / 256 < pow256((n - 1) as nat)) by {
            assert(x < 256 * pow256((n - 1) as nat));
        }
        lemma_le_value_of_bytes(x / 256, (n - 1) as nat);
        let s = le_bytes(x, n);
        assert(s.drop_first() =~= rest);
        assert(s[0] == (x % 256) as u8);
    } else {
        assert(x == 0);
    }
}

/// Writing out the number that `s` denotes, in `s.len()` bytes, gives `s` back.
pub proof fn lemma_le_bytes_of_value(s: Seq<u8>)
    ensures
        le_bytes(le_value(s), s.len()) == s,
    decreases s.len(),
{
    if s.len() > 0 {
        let t = s.drop_first();
        lemma_le_bytes_of_value(t);
        let v = le_value(s);
        assert(v % 256 == s[0] as nat && v / 256 == le_value(t)) by {
            assert(v == s[0] as nat + 256 * le_value(t));
        }
        lemma_le_bytes_len(v / 256, t.len());
        assert(le_bytes(v, s.len()) =~= s);
    } else {
        assert(le_bytes(le_value(s), 0) =~= s);
    }
}

/// The value of a concatenation.
pub proof fn lemma_le_value_append(a: Seq<u8>, b: Seq<u8>)
    ensures
        le_value(a + b) == le_value(a) + pow256(a.len()) * le_value(b),
    decreases a.len(),
{
    if a.len() == 0 {
        assert(a + b =~= b);
        assert(le_value(a) == 0);
        assert(pow256(0) == 1);
        assert(pow256(a.len()) * le_value(b) == le_value(b));
    } else {
        let t = a.drop_first();
        lemma_le_value_append(t, b);
        assert((a + b).drop_first() =~= t + b);
        let vb = le_value(b);
        let p = pow256(t.len());
        assert((a + b)[0] == a[0]);
        assert(le_value(a + b) == a[0] as nat + 256 * le_value(t + b));
        assert(le_value(a) == a[0] as nat + 256 * le_value(t));
        assert(pow256(a.len()) == 256 * p);
        assert(le_value(t + b) == le_value(t) + p * vb);
        assert(a[0] as nat + 256 * (le_value(t) + p * vb) == (a[0] as nat + 256 * le_value(t))
            + (256 * p) * vb) by (nonlinear_arith);
    }
}

pub proof fn lemma_le_value_single(x: u8)
    ensures
        le_value(seq![x]) == x as nat,
{
    assert(seq![x].drop_first() =~= Seq::<u8>::empty());
    assert(le_value(Seq::<u8>::empty()) == 0);
}

/// The first `a + b` bytes of `x` are its first `a` bytes, then the first `b`
/// bytes of what lies above them.
pub proof fn lemma_le_bytes_split(x: nat, a: nat, b: nat)
    ensures
        le_bytes(x, a + b) == le_bytes(x, a) + le_bytes(x / pow256(a), b),
    decreases a,
{
    if a == 0 {
        assert(pow256(0) == 1);
        assert(le_bytes(x, 0) + le_bytes(x, b) =~= le_bytes(x, b));
    } else {
        lemma_le_bytes_split(x / 256, (a - 1) as nat, b);
        assert((a + b - 1) as nat == (a - 1) as nat + b);
        lemma_pow256_positive((a - 1) as nat);
        assert(x / 256 / pow256((a - 1) as nat) == x / (256 * pow256((a - 1) as nat))) by {
            vstd::arithmetic::div_mod::lemma_div_denominator(x as int, 256, pow256((a - 1) as nat) as int);
        }
        assert(le_bytes(x, a + b) =~= le_bytes(x, a) + le_bytes(x / pow256(a), b));
    }
}

/// The bytes of zero are all zero.
pub proof fn lemma_le_bytes_zero(n: nat)
    ensures
        le_bytes(0, n) == Seq::new(n, |i: int| 0u8),
    decreases n,
{
    if n > 0 {
        lemma_le_bytes_zero((n - 1) as nat);
        assert(le_bytes(0, n) =~= Seq::new(n, |i: int| 0u8));
    } else {
        assert(le_bytes(0, n) =~= Seq::new(n, |i: int| 0u8));
    }
}

/// Appends the `n` least significant bytes of `x` to `out`, least significant first.
pub fn push_le(out: &mut Vec<u8>, x: u64, n: usize)
    requires
        n <= 8,
    ensures
        final(out)@ == old(out)@ + le_bytes(x as nat, n as nat),
{
    let ghost start = out@;
    let mut v: u64 = x;
    let mut i: usize = 0;
    while i < n
        invariant
            i <= n,
            start + le_bytes(x as nat, n as nat) == out@ + le_bytes(v as nat, (n - i) as nat),
        decreases n - i,
    {
        let b: u8 = (v % 256) as u8;
        proof {
            let r = le_bytes(v as nat, (n - i) as nat);
            let r2 = le_bytes((v / 256) as nat, (n - i - 1) as nat);
            assert(r =~= seq![b] + r2);
            assert(out@ + r =~= out@.push(b) + r2);
        }
        out.push(b);
        v = v / 256;
        i = i + 1;
    }
    proof {
        assert(le_bytes(v as nat, 0) =~= Seq::<u8>::empty());
        assert(out@ + Seq::<u8>::empty() =~= out@);
    }
}

/// Reads the `n`-byte little-endian integer that starts at `pos`.
pub fn read_le(bytes: &[u8], pos: usize, n: usize) -> (x: u64)
    requires
        n <= 8,
        pos + n <= bytes@.len(),
    ensures
        x as nat == le_value(bytes@.subrange(pos as int, pos + n)),
{
    let mut v: u64 = 0;
    let mut i: usize = n;
    while i > 0
        invariant
            i <= n,
            n <= 8,
            pos + n <= bytes@.len(),
            bytes@.len() == bytes.len(),
            v as nat == le_value(bytes@.subrange(pos + i, pos + n)),
        decreases i,
    {
        let ghost tail = bytes@.subrange(pos + i, pos + n);
        let ghost whole = bytes@.subrange(pos + i - 1, pos + n);
        proof {
            lemma_le_value_bound(tail);
            lemma_pow256_monotone(tail.len(), 7);
            assert(pow256(7) == 72057594037927936) by {
                reveal_with_fuel(pow256, 8);
            }
            assert(whole.drop_first() =~= tail);
        }
        let b = bytes[pos + (i - 1)];
        v = v * 256 + b as u64;
        i = i - 1;
    }
    v
}

} // verus!

verus! {

/// A run of `n` zero bytes.
pub open spec fn zeros(n: nat) -> Seq<u8> {
    Seq::new(n, |i: int| 0u8)
}

pub proof fn lemma_le_value_zeros(n: nat)
    ensures
        le_value(zeros(n)) == 0,
    decreases n,
{
    if n > 0 {
        lemma_le_value_zeros((n - 1) as nat);
        assert(zeros(n).drop_first() =~= zeros((n - 1) as nat));
    }
}

/// Two strings of equal length that agree above position `j` and differ at
/// `j` are ordered by their bytes at `j`.
pub proof fn lemma_le_value_top_differs(s: Seq<u8>, t: Seq<u8>, j: int)
    requires
        s.len() == t.len(),
        0 <= j < s.len(),
        s[j] < t[j],
        s.subrange(j + 1, s.len() as int) == t.subrange(j + 1, t.len() as int),
    ensures
        le_value(s) < le_value(t),
{
    let n = s.len() as int;
    let sl = s.subrange(0, j);
    let tl = t.subrange(0, j);
    let up = s.subrange(j + 1, n);
    let sh = seq![s[j]] + up;
    let th = seq![t[j]] + up;
    assert(s =~= sl + sh);
    assert(t =~= tl + th);
    lemma_le_value_append(sl, sh);
    lemma_le_value_append(tl, th);
    lemma_le_value_append(seq![s[j]], up);
    lemma_le_value_append(seq![t[j]], up);
    lemma_le_value_bound(sl);
    let p = pow256(j as nat);
    let u = le_value(up);
    lemma_le_value_single(s[j]);
    lemma_le_value_single(t[j]);
    assert(pow256(1) == 256) by {
        assert(pow256(0) == 1);
    }
    let a = s[j] as nat;
    let b = t[j] as nat;
    assert(le_value(sl) + p * (a + 256 * u) < p * (b + 256 * u)) by (nonlinear_arith)
        requires
            le_value(sl) < p,
            a + 1 <= b,
    ;
}

/// Copies the 32 bytes that start at `pos`.
pub fn read_array32(bytes: &[u8], pos: usize) -> (out: [u8; 32])
    requires
        pos + 32 <= bytes@.len(),
    ensures
        out@ == bytes@.subrange(pos as int, pos + 32),
{
    let mut out = [0u8; 32];
    let mut i: usize = 0;
    while i < 32
        invariant
            i <= 32,
            pos + 32 <= bytes@.len(),
            bytes@.len() == bytes.len(),
            forall|k: int| 0 <= k < i ==> out@[k] == bytes@[pos + k],
        decreases 32 - i,
    {
        out[i] = bytes[pos + i];
        i = i + 1;
    }
    proof {
        assert(out@ =~= bytes@.subrange(pos as int, pos + 32));
    }
    out
}

/// Whether two byte strings are equal.
pub fn bytes_equal(a: &[u8], b: &[u8]) -> (r: bool)
    ensures
        r == (a@ == b@),
{
    if a.len() != b.len() {
        return false;
    }
    let mut i: usize = 0;
    while i < a.len()
        invariant
            i <= a@.len(),
            a@.len() == b@.len(),
            a@.subrange(0, i as int) == b@.subrange(0, i as int),
        decreases a@.len() - i,
    {
        if a[i] != b[i] {
            proof {
                assert(a@[i as int] != b@[i as int]);
            }
            return false;
        }
        proof {
            assert(a@.subrange(0, i + 1) =~= a@.subrange(0, i as int).push(a@[i as int]));
            assert(b@.subrange(0, i + 1) =~= b@.subrange(0, i as int).push(b@[i as int]));
        }
        i = i + 1;
    }
    proof {
        assert(a@ =~= a@.subrange(0, i as int));
        assert(b@ =~= b@.subrange(0, i as int));
    }
    true
}

} // verus!
