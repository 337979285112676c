//! The in-memory index of the chain: the blocks known by hash, with their
//! height and the work behind them, and the tip of the best chain.
use vstd::prelude::*;
use crate::consensus::block::{two_pow_256, BlockHeader, U256};
use crate::consensus::chain::{median_timestamp, should_update_tip, spec_median, zero_hash, ChainError};
use crate::consensus::difficulty::{retarget_defined, spec_next_target, validate_difficulty, DifficultyError};
use crate::consensus::block::spec_target;
use crate::consensus::outpoint_map::{KeyedMap, MapKey};
use crate::consensus::params::ChainParams;
use crate::primitives::bytes::bytes_equal;
use crate::primitives::hash::Hash256;

verus! {

broadcast use vstd::array::group_array_axioms;

/// What the index keeps of a block: its header, its height and the work
/// of the chain up to and including it.
#[derive(Debug, Clone, Copy)]
pub struct ChainEntry {
    pub header: BlockHeader,
    pub height: u64,
    pub cumulative_work: U256,
}

/// Where an accepted block went: it became the tip (after a
/// reorganisation when it does not build on the former tip), or it lies on
/// a side chain.
#[derive(Debug, Clone, Copy, PartialEq, Eq)]
pub enum Placement {
    NewTip { reorg: bool },
    SideChain,
}

/// The blocks known by hash and the tip of the best chain, which is always
/// one of them.
pub struct ChainIndex {
    blocks: KeyedMap<Hash256, ChainEntry>,
    tip: Option<Hash256>,
}

/// Whether a hash is the all-zero hash, which a genesis block names as its
/// parent.
pub open spec fn is_zero(h: Hash256) -> bool {
    h@ == zero_hash()
}

/// The height of a block of the index, 0 for an unknown one.
pub open spec fn height_or_zero(m: Map<Hash256, ChainEntry>, x: Hash256) -> u64 {
    if m.contains_key(x) {
        m[x].height
    } else {
        0
    }
}

/// The parent hash of a known block.
pub open spec fn parent(m: Map<Hash256, ChainEntry>, x: Hash256) -> Hash256 {
    m[x].header.prev_block_hash
}

/// Whether the difficulty check accepts `header` after `prev`.
pub open spec fn difficulty_accepts(
    prev: BlockHeader,
    header: BlockHeader,
    params: ChainParams,
    window: Seq<u64>,
) -> bool {
    match spec_next_target(prev, header.timestamp, params, window) {
        Err(_) => false,
        Ok(expected) => match spec_target(header.n_bits) {
            Err(_) => false,
            Ok(actual) => expected == actual,
        },
    }
}

/// Whether `e` is the difficulty check's refusal of `header` after
/// `prev`: the retarget's own error, a target that does not decode, or the
/// two targets when they differ.
pub open spec fn difficulty_refusal(
    prev: BlockHeader,
    header: BlockHeader,
    params: ChainParams,
    window: Seq<u64>,
    e: DifficultyError,
) -> bool {
    match spec_next_target(prev, header.timestamp, params, window) {
        Err(x) => e == x,
        Ok(expected) => match spec_target(header.n_bits) {
            Err(_) => e == DifficultyError::InvalidTimestamp,
            Ok(actual) => expected != actual && (e matches DifficultyError::TargetMismatch {
                expected: x,
                actual: a,
            } && x.value() == expected && a.value() == actual),
        },
    }
}

/// The timestamps of up to `n` blocks from `cur` back along the parents,
/// stopping after a genesis block or at an unknown one.
pub open spec fn timestamps_back(m: Map<Hash256, ChainEntry>, cur: Hash256, n: nat) -> Seq<u64>
    decreases n,
{
    if n == 0 || !m.contains_key(cur) {
        Seq::empty()
    } else {
        let e = m[cur];
        seq![e.header.timestamp] + if is_zero(e.header.prev_block_hash) {
            Seq::empty()
        } else {
            timestamps_back(m, e.header.prev_block_hash, (n - 1) as nat)
        }
    }
}

/// Whether the tip is known and no known block has more work behind it;
/// without a tip, no block is known.
pub open spec fn tip_has_most_work(m: Map<Hash256, ChainEntry>, tip: Option<Hash256>) -> bool {
    match tip {
        None => m.dom() == Set::<Hash256>::empty(),
        Some(t) => m.contains_key(t) && forall|k: Hash256|
            #[trigger] m.contains_key(k) ==> m[k].cumulative_work.value() <= m[t].cumulative_work.value(),
    }
}

/// Stepping back from `old` along the parents while it stands higher than
/// `new` (unknown blocks count as height 0), at most `n` steps.
pub open spec fn lower_old(m: Map<Hash256, ChainEntry>, old: Hash256, new: Hash256, n: nat) -> Hash256
    decreases n,
{
    if n == 0 || height_or_zero(m, old) <= height_or_zero(m, new) || !m.contains_key(old) {
        old
    } else {
        lower_old(m, parent(m, old), new, (n - 1) as nat)
    }
}

/// Stepping back from `new` while it stands higher than `old`, at most `n`
/// steps: where it stops and the blocks passed, from `new` down.
pub open spec fn lower_new(m: Map<Hash256, ChainEntry>, new: Hash256, old: Hash256, n: nat) -> (
    Hash256,
    Seq<Hash256>,
)
    decreases n,
{
    if n == 0 || height_or_zero(m, new) <= height_or_zero(m, old) {
        (new, Seq::empty())
    } else if !m.contains_key(new) {
        (new, seq![new])
    } else {
        let (x, s) = lower_new(m, parent(m, new), old, (n - 1) as nat);
        (x, seq![new] + s)
    }
}

/// Stepping back from `old` and `new` together until they meet, at most
/// `n` steps, stopping at the zero hash or an unknown block: where `old`
/// stops and the blocks `new` passed.
pub open spec fn walk_together(m: Map<Hash256, ChainEntry>, old: Hash256, new: Hash256, n: nat) -> (
    Hash256,
    Seq<Hash256>,
)
    decreases n,
{
    if n == 0 || old == new || is_zero(old) || is_zero(new) || !m.contains_key(old) {
        (old, Seq::empty())
    } else if !m.contains_key(new) {
        (parent(m, old), seq![new])
    } else {
        let (a, s) = walk_together(m, parent(m, old), parent(m, new), (n - 1) as nat);
        (a, seq![new] + s)
    }
}

/// The fork between the chains ending at `old_tip` and `new_tip`: bring
/// the higher one down to the other's height, then step both back until
/// they meet. Gives the meeting block and the blocks of the new chain
/// above it, from `new_tip` down; each walk takes at most `n` steps.
pub open spec fn spec_fork(m: Map<Hash256, ChainEntry>, old_tip: Hash256, new_tip: Hash256, n: nat) -> (
    Hash256,
    Seq<Hash256>,
) {
    let old1 = lower_old(m, old_tip, new_tip, n);
    let (new1, chain1) = lower_new(m, new_tip, old1, n);
    let (ancestor, chain2) = walk_together(m, old1, new1, n);
    (ancestor, chain1 + chain2)
}

/// Every known block links to a known parent one lower, or is a genesis
/// block at height 0 whose parent is the zero hash; the zero hash is no
/// block's key.
pub open spec fn well_linked(m: Map<Hash256, ChainEntry>) -> bool {
    &&& forall|k: Hash256| #[trigger] m.contains_key(k) ==> !is_zero(k)
    &&& forall|k: Hash256|
        #[trigger] m.contains_key(k) && is_zero(parent(m, k)) ==> m[k].height == 0
    &&& forall|k: Hash256|
        #[trigger] m.contains_key(k) && !is_zero(parent(m, k)) ==> m.contains_key(parent(m, k))
            && m[parent(m, k)].height + 1 == m[k].height
}

proof fn lemma_parent(m: Map<Hash256, ChainEntry>, x: Hash256)
    requires
        well_linked(m),
        m.contains_key(x),
    ensures
        m[x].height > 0 ==> m.contains_key(parent(m, x)) && m[parent(m, x)].height == m[x].height - 1,
        m[x].height == 0 ==> is_zero(parent(m, x)) || (m.contains_key(parent(m, x)) && false),
        !is_zero(x),
{
    if !is_zero(parent(m, x)) {
        assert(m.contains_key(parent(m, x)));
    }
}

/// The block `i` steps back from `x` along the parents.
pub open spec fn back(m: Map<Hash256, ChainEntry>, x: Hash256, i: nat) -> Hash256
    decreases i,
{
    if i == 0 {
        x
    } else {
        back(m, parent(m, x), (i - 1) as nat)
    }
}

proof fn lemma_back_heights(m: Map<Hash256, ChainEntry>, x: Hash256, i: nat)
    requires
        well_linked(m),
        m.contains_key(x),
        i <= m[x].height + 1,
    ensures
        i <= m[x].height ==> m.contains_key(back(m, x, i)) && m[back(m, x, i)].height == m[x].height - i,
        i == m[x].height + 1 ==> is_zero(back(m, x, i)),
    decreases i,
{
    if i > 0 {
        if is_zero(parent(m, x)) {
            assert(m[x].height == 0);
            assert(back(m, x, i) == back(m, parent(m, x), 0));
        } else {
            lemma_back_heights(m, parent(m, x), (i - 1) as nat);
        }
    }
}

proof fn lemma_back_add(m: Map<Hash256, ChainEntry>, x: Hash256, a: nat, b: nat)
    ensures
        back(m, back(m, x, a), b) == back(m, x, a + b),
    decreases a,
{
    if a > 0 {
        lemma_back_add(m, parent(m, x), (a - 1) as nat, b);
        assert(back(m, x, a + b) == back(m, parent(m, x), (a + b - 1) as nat));
    }
}

/// In a well-linked index every height is below the number of blocks.
proof fn lemma_height_below_len(m: Map<Hash256, ChainEntry>, x: Hash256)
    requires
        well_linked(m),
        m.dom().finite(),
        m.contains_key(x),
    ensures
        m[x].height < m.dom().len(),
{
    let h = m[x].height;
    let s = Seq::new((h + 1) as nat, |i: int| back(m, x, i as nat));
    assert forall|i: int| 0 <= i < s.len() implies m.contains_key(#[trigger] s[i]) && m[s[i]].height == h - i by {
        lemma_back_heights(m, x, i as nat);
    }
    assert forall|i: int, j: int| 0 <= i < s.len() && 0 <= j < s.len() && i != j implies s[i] != s[j] by {
        assert(m[s[i]].height == h - i);
        assert(m[s[j]].height == h - j);
    }
    assert(s.no_duplicates());
    s.unique_seq_to_set();
    assert(s.to_set().subset_of(m.dom()));
    vstd::set_lib::lemma_len_subset(s.to_set(), m.dom());
}

proof fn lemma_lower_old(m: Map<Hash256, ChainEntry>, x: Hash256, nw: Hash256, n: nat)
    requires
        well_linked(m),
        m.contains_key(x),
        m.contains_key(nw),
        n + m[nw].height >= m[x].height,
    ensures
        m[x].height > m[nw].height ==> lower_old(m, x, nw, n) == back(m, x, (m[x].height - m[nw].height) as nat),
        m[x].height <= m[nw].height ==> lower_old(m, x, nw, n) == x,
    decreases n,
{
    if m[x].height > m[nw].height {
        lemma_parent(m, x);
        let p = parent(m, x);
        assert(height_or_zero(m, x) > height_or_zero(m, nw));
        assert(lower_old(m, x, nw, n) == lower_old(m, p, nw, (n - 1) as nat));
        lemma_lower_old(m, p, nw, (n - 1) as nat);
        let d = (m[x].height - m[nw].height) as nat;
        assert(back(m, x, d) == back(m, p, (d - 1) as nat));
        if m[p].height <= m[nw].height {
            assert(back(m, p, 0) == p);
        }
    }
}

proof fn lemma_lower_new(m: Map<Hash256, ChainEntry>, x: Hash256, old: Hash256, n: nat)
    requires
        well_linked(m),
        m.contains_key(x),
        m.contains_key(old),
        m[old].height <= m[x].height,
        n + m[old].height >= m[x].height,
    ensures
        ({
            let d = (m[x].height - m[old].height) as nat;
            lower_new(m, x, old, n) == (back(m, x, d), Seq::new(d, |i: int| back(m, x, i as nat)))
        }),
    decreases n,
{
    let d = (m[x].height - m[old].height) as nat;
    if d == 0 {
        assert(Seq::new(d, |i: int| back(m, x, i as nat)) =~= Seq::<Hash256>::empty());
    } else {
        lemma_parent(m, x);
        let p = parent(m, x);
        lemma_lower_new(m, p, old, (n - 1) as nat);
        assert(back(m, x, d) == back(m, p, (d - 1) as nat));
        assert(seq![x] + Seq::new((d - 1) as nat, |i: int| back(m, p, i as nat)) =~= Seq::new(
            d,
            |i: int| back(m, x, i as nat),
        )) by {
            assert forall|i: int| 1 <= i < d implies #[trigger] back(m, x, i as nat) == back(m, p, (i - 1) as nat) by {}
        }
    }
}

/// Where stepping back together from `x` and `y` first meets: the least
/// `j` with `back(x, j) == back(y, j)`.
proof fn lemma_walk_together(m: Map<Hash256, ChainEntry>, x: Hash256, y: Hash256, n: nat)
    requires
        well_linked(m),
        m.contains_key(x),
        m.contains_key(y),
        m[x].height == m[y].height,
        n >= m[x].height + 1,
    ensures
        exists|j: nat|
            #![trigger back(m, x, j)]
            j <= m[x].height + 1 && back(m, x, j) == back(m, y, j) && (forall|i: nat|
                i < j ==> #[trigger] back(m, x, i) != back(m, y, i)) && walk_together(m, x, y, n) == (
                back(m, x, j),
                Seq::new(j, |i: int| back(m, y, i as nat)),
            ),
    decreases m[x].height,
{
    let px = parent(m, x);
    let py = parent(m, y);
    if x == y {
        assert(Seq::new(0, |i: int| back(m, y, i as nat)) =~= Seq::<Hash256>::empty());
        assert(back(m, x, 0) == back(m, y, 0));
    } else {
        assert(!is_zero(x) && !is_zero(y));
        assert(back(m, x, 1) == back(m, px, 0));
        assert(back(m, y, 1) == back(m, py, 0));
        if m[x].height == 0 {
            assert(is_zero(px) && is_zero(py));
            assert(px =~= py);
            assert(walk_together(m, px, py, (n - 1) as nat) == (px, Seq::<Hash256>::empty()));
            assert(seq![y] =~= Seq::new(1, |i: int| back(m, y, i as nat)));
            assert forall|i: nat| i < 1 implies #[trigger] back(m, x, i) != back(m, y, i) by {}
            assert(back(m, x, 1) == back(m, y, 1));
        } else {
            lemma_walk_together(m, px, py, (n - 1) as nat);
            let j0 = choose|j: nat|
                #![trigger back(m, px, j)]
                j <= m[px].height + 1 && back(m, px, j) == back(m, py, j) && (forall|i: nat|
                    i < j ==> #[trigger] back(m, px, i) != back(m, py, i)) && walk_together(
                    m,
                    px,
                    py,
                    (n - 1) as nat,
                ) == (back(m, px, j), Seq::new(j, |i: int| back(m, py, i as nat)));
            let j = j0 + 1;
            assert(back(m, x, j) == back(m, px, j0));
            assert(back(m, y, j) == back(m, py, j0));
            assert forall|i: nat| i < j implies #[trigger] back(m, x, i) != back(m, y, i) by {
                if i > 0 {
                    assert(back(m, x, i) == back(m, px, (i - 1) as nat));
                    assert(back(m, y, i) == back(m, py, (i - 1) as nat));
                    assert(back(m, px, (i - 1) as nat) != back(m, py, (i - 1) as nat));
                }
            }
            assert(seq![y] + Seq::new(j0, |i: int| back(m, py, i as nat)) =~= Seq::new(
                j,
                |i: int| back(m, y, i as nat),
            )) by {
                assert forall|i: int| 1 <= i < j implies #[trigger] back(m, y, i as nat) == back(m, py, (i - 1) as nat) by {}
            }
        }
    }
}

/// In a well-linked index, the fork of two known tips is where their
/// chains first meet going down: with `hmin` the lower tip's height, both
/// tips are brought down to `hmin`, then `j` more steps reach the same
/// block (the zero hash when the chains share none, after `hmin + 1`
/// steps), the first such; the blocks of the new chain above it are listed
/// from the new tip down. Gives that `j`.
pub proof fn lemma_fork_is_first_meeting(m: Map<Hash256, ChainEntry>, old_tip: Hash256, new_tip: Hash256) -> (j: nat)
    requires
        well_linked(m),
        m.dom().finite(),
        m.contains_key(old_tip),
        m.contains_key(new_tip),
    ensures
        ({
            let (a, chain) = spec_fork(m, old_tip, new_tip, m.dom().len());
            let ho = m[old_tip].height;
            let hn = m[new_tip].height;
            let hmin: nat = if ho <= hn {
                ho as nat
            } else {
                hn as nat
            };
            &&& j <= hmin + 1
            &&& a == back(m, old_tip, (ho - hmin + j) as nat)
            &&& a == back(m, new_tip, (hn - hmin + j) as nat)
            &&& forall|i: nat|
                i < j ==> #[trigger] back(m, old_tip, (ho - hmin + i) as nat) != back(
                    m,
                    new_tip,
                    (hn - hmin + i) as nat,
                )
            &&& chain == Seq::new((hn - hmin + j) as nat, |i: int| back(m, new_tip, i as nat))
        }),
{
    let n = m.dom().len();
    let ho = m[old_tip].height;
    let hn = m[new_tip].height;
    let hmin: nat = if ho <= hn {
        ho as nat
    } else {
        hn as nat
    };
    lemma_height_below_len(m, old_tip);
    lemma_height_below_len(m, new_tip);
    lemma_lower_old(m, old_tip, new_tip, n);
    let d_old = (ho - hmin) as nat;
    let old1 = back(m, old_tip, d_old);
    lemma_back_heights(m, old_tip, d_old);
    assert(lower_old(m, old_tip, new_tip, n) == old1);
    assert(m[old1].height == hmin);
    lemma_lower_new(m, new_tip, old1, n);
    let d_new = (hn - hmin) as nat;
    let new1 = back(m, new_tip, d_new);
    lemma_back_heights(m, new_tip, d_new);
    let chain1 = Seq::new(d_new, |i: int| back(m, new_tip, i as nat));
    assert(lower_new(m, new_tip, old1, n) == (new1, chain1));
    lemma_walk_together(m, old1, new1, n);
    let j = choose|j: nat|
        #![trigger back(m, old1, j)]
        j <= m[old1].height + 1 && back(m, old1, j) == back(m, new1, j) && (forall|i: nat|
            i < j ==> #[trigger] back(m, old1, i) != back(m, new1, i)) && walk_together(m, old1, new1, n)
            == (back(m, old1, j), Seq::new(j, |i: int| back(m, new1, i as nat)));
    lemma_back_add(m, old_tip, d_old, j);
    lemma_back_add(m, new_tip, d_new, j);
    assert forall|i: nat| i < j implies #[trigger] back(m, old_tip, (ho - hmin + i) as nat) != back(
        m,
        new_tip,
        (hn - hmin + i) as nat,
    ) by {
        lemma_back_add(m, old_tip, d_old, i);
        lemma_back_add(m, new_tip, d_new, i);
        assert(back(m, old1, i) != back(m, new1, i));
    }
    let chain2 = Seq::new(j, |i: int| back(m, new1, i as nat));
    assert(chain1 + chain2 =~= Seq::new((hn - hmin + j) as nat, |i: int| back(m, new_tip, i as nat))) by {
        assert forall|i: int| d_new <= i < d_new + j implies #[trigger] back(m, new_tip, i as nat) == chain2[i - d_new] by {
            lemma_back_add(m, new_tip, d_new, (i - d_new) as nat);
        }
    }
    assert(back(m, old_tip, (ho - hmin + j) as nat) == back(m, old1, j));
    assert(spec_fork(m, old_tip, new_tip, n) == (back(m, old1, j), chain1 + chain2));
    assert(j <= hmin + 1);
    let a = back(m, old1, j);
    assert((ho - hmin + j) as nat == d_old + j);
    assert((hn - hmin + j) as nat == d_new + j);
    assert(a == back(m, old_tip, (ho - hmin + j) as nat));
    assert(a == back(m, new_tip, (hn - hmin + j) as nat));
    assert(chain1 + chain2 == Seq::new((hn - hmin + j) as nat, |i: int| back(m, new_tip, i as nat)));
    j
}

fn is_zero_hash(h: &Hash256) -> (r: bool)
    ensures
        r == is_zero(*h),
{
    let zero: Hash256 = [0u8; 32];
    proof {
        assert(zero@ =~= zero_hash());
    }
    bytes_equal(h, &zero)
}

impl ChainIndex {
    #[verifier::type_invariant]
    spec fn tip_known(self) -> bool {
        self.tip matches Some(t) ==> self.blocks.view().contains_key(t)
    }

    /// The blocks known, by hash.
    pub closed spec fn entries(self) -> Map<Hash256, ChainEntry> {
        self.blocks.view()
    }

    /// The hash of the tip, when there is one.
    pub closed spec fn tip_hash(self) -> Option<Hash256> {
        self.tip
    }

    pub fn new() -> (r: Self)
        ensures
            r.entries() == Map::<Hash256, ChainEntry>::empty(),
            r.tip_hash() is None,
            well_linked(r.entries()),
            tip_has_most_work(r.entries(), r.tip_hash()),
    {
        let r = ChainIndex { blocks: KeyedMap::new(), tip: None };
        proof {
            assert(r.entries().dom() =~= Set::<Hash256>::empty());
        }
        r
    }

    pub fn get(&self, hash: &Hash256) -> (r: Option<&ChainEntry>)
        ensures
            match r {
                Some(e) => self.entries().contains_key(*hash) && self.entries()[*hash] == *e,
                None => !self.entries().contains_key(*hash),
            },
    {
        self.blocks.get(hash)
    }

    pub fn has_block(&self, hash: &Hash256) -> (r: bool)
        ensures
            r == self.entries().contains_key(*hash),
    {
        self.blocks.contains(hash)
    }

    pub fn len(&self) -> (n: usize)
        ensures
            n == self.entries().len(),
    {
        self.blocks.len()
    }

    /// The hash of the tip, always a known block.
    pub fn tip(&self) -> (r: Option<Hash256>)
        ensures
            r == self.tip_hash(),
            r matches Some(t) ==> self.entries().contains_key(t),
    {
        proof {
            use_type_invariant(self);
        }
        self.tip
    }

    /// The entry of the tip, when there is one.
    pub fn get_tip(&self) -> (r: Option<ChainEntry>)
        ensures
            match self.tip_hash() {
                None => r is None,
                Some(t) => r == Some(self.entries()[t]),
            },
    {
        proof {
            use_type_invariant(self);
        }
        match self.tip {
            None => None,
            Some(t) => match self.blocks.get(&t) {
                Some(e) => Some(*e),
                None => None,
            },
        }
    }

    /// The height of the tip, 0 without one.
    pub fn get_height(&self) -> (r: u64)
        ensures
            r == match self.tip_hash() {
                None => 0,
                Some(t) => self.entries()[t].height,
            },
    {
        match self.get_tip() {
            Some(e) => e.height,
            None => 0,
        }
    }

    fn height_of(&self, x: &Hash256) -> (r: u64)
        ensures
            r == height_or_zero(self.entries(), *x),
    {
        match self.blocks.get(x) {
            Some(e) => e.height,
            None => 0,
        }
    }

    /// Adds a block under its hash, given the work its header proves. A
    /// genesis block (parent the zero hash) gets height 0; any other needs
    /// its parent known (`OrphanBlock`) and must carry the target the chain
    /// calls for after it (`InvalidDifficulty`), and gets the height after
    /// the parent's and the parent's work plus its own (modulo 2^256). It
    /// becomes the tip when there is none or its work is more than the
    /// tip's, after a reorganisation when it does not build on the tip;
    /// otherwise it lies on a side chain. A refused block changes nothing.
    pub fn add_block(
        &mut self,
        hash: Hash256,
        header: BlockHeader,
        work: U256,
        params: &ChainParams,
        window_timestamps: &[u64],
    ) -> (r: Result<Placement, ChainError>)
        requires
            !is_zero(header.prev_block_hash) && old(self).entries().contains_key(header.prev_block_hash)
                ==> old(self).entries()[header.prev_block_hash].height < u64::MAX && retarget_defined(
                old(self).entries()[header.prev_block_hash].header,
                header.timestamp,
                *params,
                window_timestamps@,
            ),
        ensures
            ({
                let m = old(self).entries();
                let prev = header.prev_block_hash;
                let genesis = is_zero(prev);
                let accepted = genesis || (m.contains_key(prev) && difficulty_accepts(
                    m[prev].header,
                    header,
                    *params,
                    window_timestamps@,
                ));
                let height: u64 = if genesis {
                    0
                } else {
                    (m[prev].height + 1) as u64
                };
                let cw = if genesis {
                    work.value()
                } else {
                    (m[prev].cumulative_work.value() + work.value()) % two_pow_256()
                };
                let update = match old(self).tip_hash() {
                    None => true,
                    Some(t) => cw > m[t].cumulative_work.value(),
                };
                &&& !genesis && !m.contains_key(prev) ==> r == Err::<Placement, ChainError>(
                    ChainError::OrphanBlock,
                )
                &&& !genesis && m.contains_key(prev) && !difficulty_accepts(
                    m[prev].header,
                    header,
                    *params,
                    window_timestamps@,
                ) ==> (r matches Err(ChainError::InvalidDifficulty(e)) && difficulty_refusal(
                    m[prev].header,
                    header,
                    *params,
                    window_timestamps@,
                    e,
                ))
                &&& r is Err ==> final(self).entries() == m && final(self).tip_hash()
                    == old(self).tip_hash()
                &&& tip_has_most_work(m, old(self).tip_hash()) && !m.contains_key(hash)
                    ==> tip_has_most_work(final(self).entries(), final(self).tip_hash())
                &&& well_linked(m) && !m.contains_key(hash) && !is_zero(hash) ==> well_linked(
                    final(self).entries(),
                )
                &&& accepted ==> {
                    &&& final(self).entries().dom() == m.dom().insert(hash)
                    &&& final(self).entries() == m.insert(hash, final(self).entries()[hash])
                    &&& final(self).entries()[hash].header == header
                    &&& final(self).entries()[hash].height == height
                    &&& final(self).entries()[hash].cumulative_work.value() == cw
                    &&& update ==> final(self).tip_hash() == Some(hash) && r == Ok::<
                        Placement,
                        ChainError,
                    >(
                        Placement::NewTip {
                            reorg: (old(self).tip_hash() matches Some(t) && t != prev),
                        },
                    )
                    &&& !update ==> final(self).tip_hash() == old(self).tip_hash() && r == Ok::<
                        Placement,
                        ChainError,
                    >(Placement::SideChain)
                }
            }),
    {
        proof {
            use_type_invariant(&*self);
        }
        let prev = header.prev_block_hash;
        let genesis = is_zero_hash(&prev);
        let (height, cumulative_work) = if genesis {
            (0u64, work)
        } else {
            let parent_entry = match self.blocks.get(&prev) {
                Some(e) => *e,
                None => {
                    return Err(ChainError::OrphanBlock);
                },
            };
            match validate_difficulty(Some(&parent_entry.header), &header, params, window_timestamps) {
                Ok(()) => {},
                Err(e) => {
                    return Err(ChainError::InvalidDifficulty(e));
                },
            }
            (parent_entry.height + 1, parent_entry.cumulative_work.add(&work))
        };
        let current_work = match self.tip {
            None => None,
            Some(t) => match self.blocks.get(&t) {
                Some(e) => Some(e.cumulative_work),
                None => None,
            },
        };
        let update = should_update_tip(current_work, &cumulative_work);
        let placement = if update {
            let reorg = match self.tip {
                Some(t) => !t.same_key(&prev),
                None => false,
            };
            Placement::NewTip { reorg }
        } else {
            Placement::SideChain
        };
        let entry = ChainEntry { header, height, cumulative_work };
        let mut taken = ChainIndex::new();
        std::mem::swap(&mut taken, self);
        let ChainIndex { mut blocks, tip } = taken;
        blocks.insert(hash, entry);
        let new_tip = if update {
            Some(hash)
        } else {
            tip
        };
        proof {
            assert(blocks.view().contains_key(hash));
        }
        *self = ChainIndex { blocks, tip: new_tip };
        proof {
            assert(self.entries().dom() =~= old(self).entries().dom().insert(hash));
            let m0 = old(self).entries();
            let m1 = self.entries();
            if well_linked(m0) && !m0.contains_key(hash) && !is_zero(hash) {
                assert forall|k: Hash256| #[trigger] m1.contains_key(k) && !is_zero(parent(m1, k)) implies m1.contains_key(parent(m1, k))
                    && m1[parent(m1, k)].height + 1 == m1[k].height by {
                    if k != hash {
                        assert(m0.contains_key(k));
                        assert(parent(m1, k) == parent(m0, k));
                        assert(m0.contains_key(parent(m0, k)));
                        assert(parent(m0, k) != hash);
                    }
                }
                assert forall|k: Hash256| #[trigger] m1.contains_key(k) && is_zero(parent(m1, k)) implies m1[k].height == 0 by {
                    if k != hash {
                        assert(m0.contains_key(k));
                    }
                }
                assert forall|k: Hash256| #[trigger] m1.contains_key(k) implies !is_zero(k) by {
                    if k != hash {
                        assert(m0.contains_key(k));
                    }
                }
            }
            if tip_has_most_work(m0, old(self).tip_hash()) && !m0.contains_key(hash) {
                match old(self).tip_hash() {
                    None => {
                        assert forall|k: Hash256| #[trigger] m1.contains_key(k) implies m1[k].cumulative_work.value()
                            <= m1[hash].cumulative_work.value() by {
                            assert(!m0.contains_key(k));
                        }
                    },
                    Some(t) => {
                        if update {
                            assert forall|k: Hash256| #[trigger] m1.contains_key(k) implies m1[k].cumulative_work.value()
                                <= m1[hash].cumulative_work.value() by {
                                if k != hash {
                                    assert(m0.contains_key(k));
                                }
                            }
                        } else {
                            assert forall|k: Hash256| #[trigger] m1.contains_key(k) implies m1[k].cumulative_work.value()
                                <= m1[t].cumulative_work.value() by {
                                if k != hash {
                                    assert(m0.contains_key(k));
                                }
                            }
                        }
                    },
                }
            }
        }
        Ok(placement)
    }

    /// Puts back a stored block while the chain is reloaded, without the
    /// checks of [`Self::add_block`]: a genesis block (parent the zero hash)
    /// gets height 0 and its own work; any other needs its parent reloaded
    /// before it (else the error says so) and gets the height after the
    /// parent's and the parent's work plus its own (modulo 2^256). The tip
    /// is left as it is; a refusal changes nothing.
    pub fn restore_block(&mut self, hash: Hash256, header: BlockHeader, work: U256) -> (r: Result<(), String>)
        requires
            !is_zero(header.prev_block_hash) && old(self).entries().contains_key(header.prev_block_hash)
                ==> old(self).entries()[header.prev_block_hash].height < u64::MAX,
        ensures
            ({
                let m = old(self).entries();
                let prev = header.prev_block_hash;
                let genesis = is_zero(prev);
                &&& r is Ok <==> (genesis || m.contains_key(prev))
                &&& final(self).tip_hash() == old(self).tip_hash()
                &&& r is Err ==> final(self).entries() == m
                &&& r is Ok ==> {
                    &&& final(self).entries() == m.insert(hash, final(self).entries()[hash])
                    &&& final(self).entries()[hash].header == header
                    &&& final(self).entries()[hash].height == if genesis {
                        0
                    } else {
                        (m[prev].height + 1) as u64
                    }
                    &&& final(self).entries()[hash].cumulative_work.value() == if genesis {
                        work.value()
                    } else {
                        (m[prev].cumulative_work.value() + work.value()) % two_pow_256()
                    }
                }
            }),
    {
        proof {
            use_type_invariant(&*self);
        }
        let prev = header.prev_block_hash;
        let (height, cumulative_work) = if is_zero_hash(&prev) {
            (0u64, work)
        } else {
            match self.blocks.get(&prev) {
                Some(p) => (p.height + 1, p.cumulative_work.add(&work)),
                None => {
                    return Err("Previous block not loaded during recovery".to_owned());
                },
            }
        };
        let entry = ChainEntry { header, height, cumulative_work };
        let mut taken = ChainIndex::new();
        std::mem::swap(&mut taken, self);
        let ChainIndex { mut blocks, tip } = taken;
        blocks.insert(hash, entry);
        proof {
            if let Some(t) = tip {
                assert(blocks.view().contains_key(t));
            }
        }
        *self = ChainIndex { blocks, tip };
        Ok(())
    }

    /// Makes a known block the tip once the chain is reloaded; an unknown
    /// one is refused and the tip left as it is.
    pub fn restore_tip(&mut self, hash: Hash256) -> (r: Result<(), String>)
        ensures
            r is Ok <==> old(self).entries().contains_key(hash),
            final(self).entries() == old(self).entries(),
            r is Ok ==> final(self).tip_hash() == Some(hash),
            r is Err ==> final(self).tip_hash() == old(self).tip_hash(),
    {
        if !self.blocks.contains(&hash) {
            return Err("Chain initialized but no tip found".to_owned());
        }
        self.tip = Some(hash);
        Ok(())
    }

    /// The median time past: the median of the timestamps of the tip and
    /// the blocks before it, [`MEDIAN_TIME_SPAN`](crate::consensus::chain::MEDIAN_TIME_SPAN)
    /// at most; 0 without a tip.
    pub fn median_time_past(&self) -> (r: u64)
        ensures
            r == match self.tip_hash() {
                None => 0,
                Some(t) => spec_median(timestamps_back(self.entries(), t, 11)),
            },
    {
        let tip = match self.tip {
            Some(h) => h,
            None => {
                return 0;
            },
        };
        let ghost m = self.entries();
        let mut timestamps: Vec<u64> = Vec::new();
        let mut current = tip;
        let mut left: usize = 11;
        let mut done = false;
        while !done && left > 0
            invariant
                m == self.entries(),
                left <= 11,
                done ==> timestamps@ == timestamps_back(m, tip, 11),
                !done ==> timestamps@ + timestamps_back(m, current, left as nat) == timestamps_back(
                    m,
                    tip,
                    11,
                ),
            decreases left,
        {
            match self.blocks.get(&current) {
                Some(e) => {
                    let ghost before = timestamps@;
                    timestamps.push(e.header.timestamp);
                    if is_zero_hash(&e.header.prev_block_hash) {
                        proof {
                            assert(timestamps_back(m, current, left as nat) =~= seq![e.header.timestamp]);
                            assert(timestamps@ =~= before + seq![e.header.timestamp]);
                        }
                        done = true;
                    } else {
                        proof {
                            let rest = timestamps_back(m, e.header.prev_block_hash, (left - 1) as nat);
                            assert(before + (seq![e.header.timestamp] + rest) =~= timestamps@ + rest);
                        }
                        current = e.header.prev_block_hash;
                    }
                },
                None => {
                    proof {
                        assert(timestamps@ + Seq::<u64>::empty() =~= timestamps@);
                    }
                    done = true;
                },
            }
            left = left - 1;
        }
        proof {
            if !done {
                assert(timestamps@ + Seq::<u64>::empty() =~= timestamps@);
            }
        }
        median_timestamp(timestamps.as_slice())
    }

    /// The fork between the chain ending at `old_tip` and the one ending at
    /// `new_tip`: the block where they meet and the blocks of the new chain
    /// above it, from `new_tip` down (see [`spec_fork`]; each walk takes at
    /// most as many steps as there are blocks in the index).
    pub fn find_fork(&self, old_tip: &Hash256, new_tip: &Hash256) -> (r: (Hash256, Vec<Hash256>))
        ensures
            ({
                let f = spec_fork(self.entries(), *old_tip, *new_tip, self.entries().len());
                r.0 == f.0 && r.1@ == f.1
            }),
    {
        let ghost m = self.entries();
        let n = self.blocks.len();
        let ghost nn = n as nat;
        let mut old_curr = *old_tip;
        let mut new_curr = *new_tip;
        let mut steps: usize = n;
        let mut stopped = false;
        while !stopped && steps > 0 && self.height_of(&old_curr) > self.height_of(&new_curr)
            invariant
                m == self.entries(),
                steps <= n,
                stopped ==> old_curr == lower_old(m, *old_tip, *new_tip, nn),
                !stopped ==> lower_old(m, old_curr, new_curr, steps as nat) == lower_old(m, *old_tip, *new_tip, nn),
                new_curr == *new_tip,
            decreases steps,
        {
            match self.blocks.get(&old_curr) {
                Some(e) => {
                    old_curr = e.header.prev_block_hash;
                },
                None => {
                    stopped = true;
                },
            }
            steps = steps - 1;
        }
        let ghost old1 = old_curr;
        proof {
            assert(old1 == lower_old(m, *old_tip, *new_tip, nn));
        }
        let mut new_chain: Vec<Hash256> = Vec::new();
        let ghost target1 = lower_new(m, *new_tip, old1, nn);
        steps = n;
        stopped = false;
        while !stopped && steps > 0 && self.height_of(&new_curr) > self.height_of(&old_curr)
            invariant
                m == self.entries(),
                steps <= n,
                old_curr == old1,
                stopped ==> new_chain@ == target1.1 && new_curr == target1.0,
                !stopped ==> new_chain@ + lower_new(m, new_curr, old1, steps as nat).1 == target1.1
                    && lower_new(m, new_curr, old1, steps as nat).0 == target1.0,
            decreases steps,
        {
            let ghost before = new_chain@;
            new_chain.push(new_curr);
            match self.blocks.get(&new_curr) {
                Some(e) => {
                    proof {
                        let rest = lower_new(m, e.header.prev_block_hash, old1, (steps - 1) as nat);
                        assert(before + (seq![new_curr] + rest.1) =~= new_chain@ + rest.1);
                    }
                    new_curr = e.header.prev_block_hash;
                },
                None => {
                    proof {
                        assert(new_chain@ =~= before + seq![new_curr]);
                    }
                    stopped = true;
                },
            }
            steps = steps - 1;
        }
        proof {
            if !stopped {
                assert(new_chain@ + Seq::<Hash256>::empty() =~= new_chain@);
            }
        }
        let ghost new1 = new_curr;
        let ghost chain1 = new_chain@;
        let ghost target2 = walk_together(m, old1, new1, nn);
        steps = n;
        stopped = false;
        while !stopped && steps > 0 && !old_curr.same_key(&new_curr)
            invariant
                m == self.entries(),
                steps <= n,
                stopped ==> new_chain@ == chain1 + target2.1 && old_curr == target2.0,
                !stopped ==> new_chain@ + walk_together(m, old_curr, new_curr, steps as nat).1 == chain1
                    + target2.1 && walk_together(m, old_curr, new_curr, steps as nat).0 == target2.0,
            decreases steps,
        {
            if is_zero_hash(&old_curr) || is_zero_hash(&new_curr) {
                proof {
                    assert(new_chain@ + Seq::<Hash256>::empty() =~= new_chain@);
                }
                stopped = true;
            } else {
                match self.blocks.get(&old_curr) {
                    Some(e) => {
                        old_curr = e.header.prev_block_hash;
                        let ghost before = new_chain@;
                        new_chain.push(new_curr);
                        match self.blocks.get(&new_curr) {
                            Some(f) => {
                                proof {
                                    let rest = walk_together(
                                        m,
                                        old_curr,
                                        f.header.prev_block_hash,
                                        (steps - 1) as nat,
                                    );
                                    assert(before + (seq![new_curr] + rest.1) =~= new_chain@ + rest.1);
                                }
                                new_curr = f.header.prev_block_hash;
                            },
                            None => {
                                proof {
                                    assert(new_chain@ =~= before + seq![new_curr]);
                                }
                                stopped = true;
                            },
                        }
                    },
                    None => {
                        proof {
                            assert(new_chain@ + Seq::<Hash256>::empty() =~= new_chain@);
                        }
                        stopped = true;
                    },
                }
            }
            steps = steps - 1;
        }
        proof {
            if !stopped {
                assert(new_chain@ + Seq::<Hash256>::empty() =~= new_chain@);
            }
        }
        (old_curr, new_chain)
    }
}

/// Whether `p` lists known blocks, starting at `cur`, each one followed by
/// its parent: every block but the last has a parent, and it is the next.
pub open spec fn ancestor_path(m: Map<Hash256, ChainEntry>, cur: Hash256, p: Seq<Hash256>) -> bool {
    &&& p.len() > 0
    &&& p[0] == cur
    &&& forall|k: int| 0 <= k < p.len() ==> m.contains_key(#[trigger] p[k])
    &&& forall|k: int|
        0 <= k < p.len() - 1 ==> !is_zero(m[#[trigger] p[k]].header.prev_block_hash) && p[k + 1]
            == m[p[k]].header.prev_block_hash
}

/// Whether the chain of known blocks stops after `h`: `h` is a genesis
/// block, or its parent is not known.
pub open spec fn chain_stops_at(m: Map<Hash256, ChainEntry>, h: Hash256) -> bool {
    is_zero(m[h].header.prev_block_hash) || !m.contains_key(m[h].header.prev_block_hash)
}

/// The timestamps the median time past is taken over are those of the
/// block and its ancestors, nearest first: `n` of them where the chain
/// reaches back that far, and all of them, back to where the chain stops,
/// where it is shorter.
pub proof fn lemma_timestamps_back_lists_ancestors(
    m: Map<Hash256, ChainEntry>,
    cur: Hash256,
    n: nat,
    p: Seq<Hash256>,
)
    requires
        ancestor_path(m, cur, p),
        p.len() == n || (p.len() < n && chain_stops_at(m, p.last())),
    ensures
        timestamps_back(m, cur, n) == Seq::new(p.len(), |k: int| m[p[k]].header.timestamp),
    decreases p.len(),
{
    let e = m[cur];
    assert(m.contains_key(p[0]));
    if p.len() == 1 {
        let prev = e.header.prev_block_hash;
        if !is_zero(prev) {
            if n > 1 {
                assert(!m.contains_key(prev));
            }
            assert(timestamps_back(m, prev, (n - 1) as nat) == Seq::<u64>::empty());
        }
        assert(timestamps_back(m, cur, n) =~= Seq::new(p.len(), |k: int| m[p[k]].header.timestamp));
    } else {
        let q = p.skip(1);
        let prev = e.header.prev_block_hash;
        assert(!is_zero(m[p[0]].header.prev_block_hash) && p[1] == prev);
        assert(ancestor_path(m, prev, q)) by {
            assert forall|k: int| 0 <= k < q.len() implies m.contains_key(#[trigger] q[k]) by {
                assert(q[k] == p[k + 1]);
            }
            assert forall|k: int| 0 <= k < q.len() - 1 implies !is_zero(m[#[trigger] q[k]].header.prev_block_hash)
                && q[k + 1] == m[q[k]].header.prev_block_hash by {
                assert(q[k] == p[k + 1] && q[k + 1] == p[k + 2]);
            }
        }
        assert(q.last() == p.last());
        lemma_timestamps_back_lists_ancestors(m, prev, (n - 1) as nat, q);
        assert(timestamps_back(m, cur, n) =~= Seq::new(p.len(), |k: int| m[p[k]].header.timestamp));
    }
}

/// On a chain reaching back at least eleven blocks from `tip`, the median
/// time past is the sixth smallest of the timestamps of `tip` and the ten
/// blocks before it: the element at position 5 of those eleven timestamps
/// put in ascending order.
pub proof fn lemma_median_time_past_of_eleven(
    m: Map<Hash256, ChainEntry>,
    tip: Hash256,
    p: Seq<Hash256>,
    sorted: Seq<u64>,
)
    requires
        ancestor_path(m, tip, p),
        p.len() == 11,
        sorted.to_multiset() == Seq::new(11, |k: int| m[p[k]].header.timestamp).to_multiset(),
        forall|i: int, j: int| 0 <= i < j < sorted.len() ==> sorted[i] <= sorted[j],
    ensures
        sorted.len() == 11,
        spec_median(timestamps_back(m, tip, 11)) == sorted[5],
{
    lemma_timestamps_back_lists_ancestors(m, tip, 11, p);
    crate::consensus::chain::lemma_median_is_middle_of_sorted(timestamps_back(m, tip, 11), sorted);
}

} // verus!
