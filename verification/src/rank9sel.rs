//! Constant-time rank and hinted select over bit vector data.
//!
//! The index keeps, for every super-block of 512 bits, the cumulative
//! count of set bits to its start, and the seven relative sub-block
//! counts packed as 9-bit fields of one word. Optional hint arrays record
//! the super-block holding every 8192-th bit of a polarity and narrow the
//! binary search a select query performs.

use vstd::prelude::*;

use crate::bit_vector::{lemma_word_index_bound, BitVectorData, BitVectorIndex};
use crate::bitseq::{
    clip, is_select, lemma_pos_decomp, lemma_rank_count, lemma_rank_of_le, lemma_rank_of_monotone,
    lemma_pol_bits_true, lemma_rank_split, lemma_word_pos, pol_bits, rank_of, total_ones,
};
use crate::broadword::{lemma_pop_mask, nth_bit, pop, popcount, select_in_word};

verus! {

/// The number of 512-bit super-blocks needed for `len` bits.
pub open spec fn blocks_for(len: nat) -> nat {
    ((len + 511) / 512) as nat
}

/// The `t`-th 9-bit field of a packed relative-count word.
pub open spec fn field9(x: u64, t: int) -> u64 {
    (x >> ((9 * t) as u64)) & 0x1ff
}

/// The number of bits of polarity `p` among the first `i` positions of
/// `s`, the bound clipped to the length.
pub open spec fn prank(s: Seq<bool>, p: bool, i: int) -> nat {
    let sp = pol_bits(s, p);
    rank_of(sp, clip(sp, i))
}

/// A hint array for polarity `p`: entry `q` names the super-block holding
/// the `8192 q`-th bit of the polarity, and a final entry points past the
/// last super-block.
pub open spec fn hints_ok(s: Seq<bool>, h: Seq<usize>, p: bool, bl: nat) -> bool {
    let n = total_ones(pol_bits(s, p));
    &&& h.len() == (n + 8191) / 8192 + 1
    &&& h[h.len() - 1] == bl
    &&& forall|q: int|
        0 <= q < h.len() - 1 ==> {
            &&& #[trigger] h[q] < bl
            &&& prank(s, p, 512 * h[q]) <= 8192 * q
            &&& 8192 * q < prank(s, p, 512 * (h[q] + 1))
        }
}

/// Rank/select index with per-super-block cumulative counts, packed
/// sub-block counts, and optional select hints per polarity.
pub struct Rank9SelIndex {
    block_rank_pairs: Vec<u64>,
    select1_hints: Option<Vec<usize>>,
    select0_hints: Option<Vec<usize>>,
    num_ones: usize,
}

impl Rank9SelIndex {
    /// The pair array matches the bit sequence `s`: entry `2b` is the
    /// cumulative count to super-block `b`, and the 9-bit fields of entry
    /// `2b + 1` are the relative sub-block counts.
    pub open spec fn pairs_ok(pairs: Seq<u64>, s: Seq<bool>) -> bool {
        let bl = blocks_for(s.len());
        &&& pairs.len() == 2 * bl + 2
        &&& forall|b: int| 0 <= b <= bl ==> #[trigger] pairs[2 * b] == prank(s, true, 512 * b)
        &&& forall|b: int, t: int|
            0 <= b < bl && 1 <= t <= 7 ==> #[trigger] field9(pairs[2 * b + 1], t - 1) == prank(
                s,
                true,
                512 * b + 64 * t,
            ) - prank(s, true, 512 * b)
    }

    /// The index matches the bit sequence `s`.
    pub closed spec fn inv_for(&self, s: Seq<bool>) -> bool {
        let bl = blocks_for(s.len());
        &&& self.num_ones == total_ones(s)
        &&& Self::pairs_ok(self.block_rank_pairs@, s)
        &&& match self.select1_hints {
            Some(h) => hints_ok(s, h@, true, bl),
            None => true,
        }
        &&& match self.select0_hints {
            Some(h) => hints_ok(s, h@, false, bl),
            None => true,
        }
    }

    /// Whether select1 hints were built.
    pub closed spec fn has_select1_hints(&self) -> bool {
        self.select1_hints is Some
    }

    /// Whether select0 hints were built.
    pub closed spec fn has_select0_hints(&self) -> bool {
        self.select0_hints is Some
    }
}

/// Counting with a clipped bound is monotone and stops growing at the
/// length.
proof fn lemma_prank_monotone(s: Seq<bool>, p: bool, a: int, b: int)
    requires
        a <= b,
    ensures
        prank(s, p, a) <= prank(s, p, b),
        prank(s, p, b) - prank(s, p, a) <= b - a,
        prank(s, p, b) <= total_ones(pol_bits(s, p)),
{
    let sp = pol_bits(s, p);
    lemma_rank_of_monotone(sp, clip(sp, a), clip(sp, b));
    lemma_rank_of_monotone(sp, clip(sp, b), sp.len() as int);
}

/// For `p = true` the polarity count is the plain rank.
proof fn lemma_prank_true(s: Seq<bool>, i: int)
    ensures
        prank(s, true, i) == rank_of(s, clip(s, i)),
        0 <= i <= s.len() ==> prank(s, true, i) == rank_of(s, i),
{
    lemma_pol_bits_true(s);
}

/// For `p = false` the polarity count complements the rank.
proof fn lemma_prank_false(s: Seq<bool>, i: int)
    requires
        0 <= i,
    ensures
        prank(s, false, i) == clip(s, i) - rank_of(s, clip(s, i)),
    decreases 0int,
{
    let sp = pol_bits(s, false);
    lemma_rank_split(s, clip(s, i));
    assert(clip(sp, i) == clip(s, i));
}

/// One scanned word advances the polarity count by its population count.
pub proof fn lemma_prank_step(data: &BitVectorData, p: bool, w: int, ew: u64)
    requires
        data.wf(),
        0 <= w,
        64 * w < data@.len() ==> ew == crate::bitseq::eff_word(
            data.words_seq(),
            data@.len(),
            w,
            p,
        ),
        64 * w >= data@.len() ==> ew == 0,
    ensures
        prank(data@, p, 64 * w + 64) == prank(data@, p, 64 * w) + pop(ew),
{
    let s = data@;
    let sp = pol_bits(s, p);
    if 64 * w < s.len() {
        crate::bitseq::lemma_eff_word_bits(data.words_seq(), s.len(), w, p);
        lemma_rank_count(sp, 64 * w, ew, 64);
        assert(clip(sp, 64 * w) == 64 * w);
    } else {
        assert(forall|j: u64| j < 64 ==> !#[trigger] nth_bit(0u64, j)) by (bit_vector);
        crate::broadword::lemma_count_ones_below_zero_range(0u64, 0, 64);
        assert(pop(ew) == 0);
        lemma_rank_of_monotone(sp, clip(sp, 64 * w), clip(sp, 64 * w + 64));
        assert(clip(sp, 64 * w) == sp.len());
        assert(clip(sp, 64 * w + 64) == sp.len());
    }
}

/// Reads the scanned word for word index `w`, or zero past the end.
fn scan_word(data: &BitVectorData, w: usize, p: bool) -> (ew: u64)
    requires
        data.wf(),
    ensures
        64 * w < data@.len() ==> ew == crate::bitseq::eff_word(
            data.words_seq(),
            data@.len(),
            w as int,
            p,
        ),
        64 * w >= data@.len() ==> ew == 0,
        prank(data@, p, 64 * w + 64) == prank(data@, p, 64 * w) + pop(ew),
{
    proof {
        lemma_pos_decomp(data@.len() as int);
    }
    let ew = if w <= data.len() / 64 {
        proof {
            assert(64 * (w as int) <= data@.len()) by (nonlinear_arith)
                requires
                    w <= data@.len() as int / 64,
                    data@.len() as int == 64 * (data@.len() as int / 64) + data@.len() as int % 64,
                    0 <= data@.len() as int % 64,
            ;
        }
        if 64 * w < data.len() {
            proof {
                lemma_word_index_bound(64 * (w as int), data@.len());
                lemma_word_pos(w as int, 0);
            }
            crate::bit_vector::polarity_word(data, w, p)
        } else {
            0
        }
    } else {
        proof {
            assert(64 * (w as int) > data@.len()) by (nonlinear_arith)
                requires
                    w > data@.len() as int / 64,
                    data@.len() as int == 64 * (data@.len() as int / 64) + data@.len() as int % 64,
                    0 <= data@.len() as int % 64 < 64,
            ;
        }
        0
    };
    proof {
        lemma_prank_step(data, p, w as int, ew);
    }
    ew
}

/// Packing a relative count into the next free 9-bit field keeps the
/// fields already written and leaves the higher fields clear.
proof fn lemma_field9_pack(x: u64, v: u64, t: u64)
    by (bit_vector)
    requires
        t < 7,
        v < 512,
        x >> ((9 * t) as u64) == 0,
    ensures
        forall|u: u64|
            u < 7 ==> #[trigger] ((x | (v << ((9 * t) as u64))) >> ((9 * u) as u64)) & 0x1ff == (
            if u == t {
                v
            } else {
                (x >> ((9 * u) as u64)) & 0x1ff
            }),
        (x | (v << ((9 * t) as u64))) >> ((9 * (t + 1)) as u64) == 0,
{
}

impl Rank9SelIndex {
    /// Builds the pair array over the data, returning it together with
    /// the total count of set bits.
    fn build_pairs(data: &BitVectorData) -> (r: (Vec<u64>, usize))
        requires
            data.wf(),
        ensures
            Self::pairs_ok(r.0@, data@),
            r.1 == total_ones(data@),
    {
        let s = Ghost(data@);
        let len = data.len();
        let bl = crate::utils::ceiled_divide(len, 512);
        proof {
            assert(bl == blocks_for(s@.len()));
            lemma_prank_true(s@, 0);
            assert(prank(s@, true, 0) == 0);
        }
        let mut pairs: Vec<u64> = Vec::new();
        let mut next_rank: usize = 0;
        let mut b: usize = 0;
        while b < bl
            invariant
                data.wf(),
                s@ == data@,
                b <= bl,
                bl == blocks_for(s@.len()),
                pairs@.len() == 2 * b,
                next_rank == prank(s@, true, 512 * b),
                forall|bb: int|
                    0 <= bb < b ==> #[trigger] pairs@[2 * bb] == prank(s@, true, 512 * bb),
                forall|bb: int, t: int|
                    0 <= bb < b && 1 <= t <= 7 ==> #[trigger] field9(pairs@[2 * bb + 1], t - 1)
                        == prank(s@, true, 512 * bb + 64 * t) - prank(s@, true, 512 * bb),
            decreases bl - b,
        {
            proof {
                lemma_prank_monotone(s@, true, 0, 512 * b);
                lemma_rank_of_le(pol_bits(s@, true), clip(pol_bits(s@, true), 512 * b));
            }
            pairs.push(next_rank as u64);
            let mut subranks: u64 = 0;
            let mut rel: usize = 0;
            let mut t: usize = 0;
            proof {
                assert(forall|sh: u64| sh < 64 ==> #[trigger] (0u64 >> sh) == 0u64) by (bit_vector);
            }
            while t < 8
                invariant
                    data.wf(),
                    s@ == data@,
                    t <= 8,
                    b < bl,
                    bl == blocks_for(s@.len()),
                    next_rank == prank(s@, true, 512 * b),
                    rel == prank(s@, true, 512 * b + 64 * t) - prank(s@, true, 512 * b),
                    t < 7 ==> subranks >> ((9 * t) as u64) == 0,
                    forall|u: int|
                        0 <= u < t && u < 7 ==> #[trigger] field9(subranks, u) == prank(
                            s@,
                            true,
                            512 * b + 64 * (u + 1),
                        ) - prank(s@, true, 512 * b),
                decreases 8 - t,
            {
                let w = 8 * b + t;
                proof {
                    assert(64 * w == 512 * b + 64 * t) by (nonlinear_arith)
                        requires
                            w == 8 * b + t,
                    ;
                    lemma_prank_monotone(s@, true, 512 * b, 512 * b + 64 * t);
                    lemma_prank_monotone(s@, true, 0, 512 * b);
                    lemma_rank_of_le(pol_bits(s@, true), clip(pol_bits(s@, true), 512 * b + 64 * t));
                }
                let ew = scan_word(data, w, true);
                let cnt = popcount(ew);
                proof {
                    crate::broadword::lemma_count_ones_below_le(ew, 64);
                }
                rel = rel + cnt;
                if t < 7 {
                    proof {
                        assert(rel < 512) by {
                            lemma_prank_monotone(s@, true, 512 * b, 512 * b + 64 * (t + 1));
                        }
                    }
                    let tv = t as u64;
                    let ghost prev = subranks;
                    proof {
                        lemma_field9_pack(prev, rel as u64, tv);
                    }
                    subranks = subranks | ((rel as u64) << (9 * tv));
                    proof {
                        assert forall|u: int| 0 <= u <= t && u < 7 implies #[trigger] field9(
                            subranks,
                            u,
                        ) == (if u == t {
                            rel as u64
                        } else {
                            field9(prev, u)
                        }) by {
                            let uu = u as u64;
                            assert(((prev | ((rel as u64) << ((9 * tv) as u64))) >> ((9
                                * uu) as u64)) & 0x1ff == (if uu == tv {
                                rel as u64
                            } else {
                                (prev >> ((9 * uu) as u64)) & 0x1ff
                            }));
                        }
                        assert(t + 1 < 7 ==> subranks >> ((9 * (t + 1)) as u64) == 0);
                    }
                }
                t = t + 1;
            }
            proof {
                assert(512 * b + 64 * 8 == 512 * (b + 1)) by (nonlinear_arith);
                lemma_prank_monotone(s@, true, 0, 512 * (b + 1));
                lemma_rank_of_le(pol_bits(s@, true), clip(pol_bits(s@, true), 512 * (b + 1)));
            }
            pairs.push(subranks);
            next_rank = next_rank + rel;
            b = b + 1;
            proof {
                assert forall|bb: int| 0 <= bb < b implies #[trigger] pairs@[2 * bb] == prank(
                    s@,
                    true,
                    512 * bb,
                ) by {}
            }
        }
        proof {
            assert(512 * bl >= s@.len()) by (nonlinear_arith)
                requires
                    bl * 512 >= s@.len(),
            ;
            lemma_prank_true(s@, 512 * bl as int);
            assert(clip(s@, 512 * bl as int) == s@.len());
            assert(next_rank == total_ones(s@)) by {
                lemma_pol_bits_true(s@);
            }
        }
        pairs.push(next_rank as u64);
        pairs.push(0);
        proof {
            let bl_i = bl as int;
            assert(pairs@[2 * bl_i] == prank(s@, true, 512 * bl_i));
            assert forall|b2: int| 0 <= b2 <= bl_i implies #[trigger] pairs@[2 * b2] == prank(
                s@,
                true,
                512 * b2,
            ) by {}
        }
        (pairs, next_rank)
    }
}

/// A block index below the block count starts below the length.
proof fn lemma_block_bound(len: nat, b: int)
    requires
        0 <= b < blocks_for(len),
    ensures
        512 * b < len,
{
    vstd::arithmetic::div_mod::lemma_fundamental_div_mod(len as int + 511, 512);
    assert(512 * b < len) by (nonlinear_arith)
        requires
            b < blocks_for(len),
            blocks_for(len) == (len + 511) / 512,
            len as int + 511 == 512 * ((len as int + 511) / 512) + (len as int + 511) % 512,
            0 <= (len as int + 511) % 512 < 512,
    ;
}

/// A block whose start lies below the length is below the block count.
proof fn lemma_block_of(len: nat, b: int)
    requires
        0 <= b,
        512 * b < len,
    ensures
        b < blocks_for(len),
{
    vstd::arithmetic::div_mod::lemma_fundamental_div_mod(len as int + 511, 512);
    assert(b < blocks_for(len)) by (nonlinear_arith)
        requires
            512 * b < len,
            blocks_for(len) == (len + 511) / 512,
            len as int + 511 == 512 * ((len as int + 511) / 512) + (len as int + 511) % 512,
            0 <= (len as int + 511) % 512 < 512,
    ;
}

/// The count of polarity-`p` bits to the start of super-block `b`, read
/// from the pair array.
fn block_count(
    pairs: &Vec<u64>,
    Ghost(s): Ghost<Seq<bool>>,
    len: usize,
    bl: usize,
    b: usize,
    p: bool,
) -> (r: usize)
    requires
        Rank9SelIndex::pairs_ok(pairs@, s),
        len == s.len(),
        bl == blocks_for(s.len()),
        b <= bl,
    ensures
        r == prank(s, p, 512 * b),
{
    proof {
        lemma_prank_monotone(s, true, 512 * b, 512 * bl + 512);
        lemma_prank_true(s, 512 * b);
        lemma_rank_of_le(s, clip(s, 512 * b));
        if b < bl {
            lemma_block_bound(s.len(), b as int);
        } else {
            assert(512 * bl >= s.len()) by (nonlinear_arith)
                requires
                    blocks_for(s.len()) * 512 >= s.len(),
                    bl == blocks_for(s.len()),
            ;
        }
    }
    let ones = pairs[2 * b] as usize;
    if p {
        ones
    } else {
        let pos = if b == bl {
            len
        } else {
            512 * b
        };
        proof {
            assert(pos == clip(s, 512 * b));
            lemma_prank_false(s, 512 * b);
        }
        pos - ones
    }
}

/// Binary search for the super-block whose cumulative polarity count
/// brackets `k`.
fn search_block(
    pairs: &Vec<u64>,
    Ghost(s): Ghost<Seq<bool>>,
    len: usize,
    bl: usize,
    p: bool,
    k: usize,
    lo0: usize,
    hi0: usize,
) -> (b: usize)
    requires
        Rank9SelIndex::pairs_ok(pairs@, s),
        len == s.len(),
        bl == blocks_for(s.len()),
        lo0 < hi0 <= bl + 1,
        prank(s, p, 512 * lo0) <= k,
        k < prank(s, p, 512 * hi0),
    ensures
        b < bl,
        prank(s, p, 512 * b) <= k,
        k < prank(s, p, 512 * (b + 1)),
{
    let mut lo = lo0;
    let mut hi = hi0;
    while hi - lo > 1
        invariant
            Rank9SelIndex::pairs_ok(pairs@, s),
            len == s.len(),
            bl == blocks_for(s.len()),
            lo < hi <= bl + 1,
            prank(s, p, 512 * lo) <= k,
            k < prank(s, p, 512 * hi),
        decreases hi - lo,
    {
        let mid = lo + (hi - lo) / 2;
        let c = block_count(pairs, Ghost(s), len, bl, mid, p);
        if c <= k {
            lo = mid;
        } else {
            hi = mid;
        }
    }
    proof {
        assert(hi == lo + 1);
        if lo >= bl {
            assert(512 * bl <= 512 * lo) by (nonlinear_arith)
                requires
                    bl <= lo,
            ;
            assert(512 * bl >= s.len()) by (nonlinear_arith)
                requires
                    blocks_for(s.len()) * 512 >= s.len(),
                    bl == blocks_for(s.len()),
            ;
            lemma_prank_monotone(s, p, 512 * bl, 512 * lo);
            lemma_prank_monotone(s, p, 512 * lo, 512 * hi);
            let sp = pol_bits(s, p);
            assert(clip(sp, 512 * lo) == sp.len());
            assert(prank(s, p, 512 * lo) == total_ones(sp));
            lemma_rank_of_monotone(sp, clip(sp, 512 * hi), sp.len() as int);
            assert(false);
        }
    }
    lo
}

/// The threshold a select query reads for sub-block `u` of block `b`: the
/// packed relative count for ones, its complement against the sub-block
/// span for zeros. May overcount the polarity bits actually present when
/// the sub-block overruns the length; never undercounts.
spec fn sub_thresh(s: Seq<bool>, b: int, u: int, p: bool) -> int {
    let d1 = prank(s, true, 512 * b + 64 * u) - prank(s, true, 512 * b);
    if p {
        d1
    } else {
        64 * u - d1
    }
}

/// The actual count of polarity-`p` bits in the first `u` sub-blocks of
/// block `b`.
spec fn pdiff(s: Seq<bool>, b: int, u: int, p: bool) -> int {
    prank(s, p, 512 * b + 64 * u) - prank(s, p, 512 * b)
}

/// The threshold equals the actual count while the sub-block boundary is
/// within the length, and never falls below it.
proof fn lemma_sub_thresh(s: Seq<bool>, b: int, u: int, p: bool)
    requires
        0 <= b,
        0 <= u <= 8,
        512 * b <= s.len(),
    ensures
        512 * b + 64 * u <= s.len() ==> sub_thresh(s, b, u, p) == pdiff(s, b, u, p),
        pdiff(s, b, u, p) <= sub_thresh(s, b, u, p),
        0 <= pdiff(s, b, u, p),
        sub_thresh(s, b, u, p) <= 64 * u,
{
    let hi = 512 * b + 64 * u;
    lemma_prank_monotone(s, true, 512 * b, hi);
    lemma_prank_monotone(s, p, 512 * b, hi);
    if p {
        lemma_prank_true(s, 512 * b);
        lemma_prank_true(s, hi);
    } else {
        lemma_prank_false(s, 512 * b);
        lemma_prank_false(s, hi);
        lemma_prank_true(s, 512 * b);
        lemma_prank_true(s, hi);
        assert(clip(s, 512 * b) == 512 * b);
        lemma_rank_of_monotone(s, clip(s, 512 * b), clip(s, hi));
    }
}

/// Beyond the length the polarity count is frozen at its total.
pub proof fn lemma_prank_past_end(s: Seq<bool>, p: bool, i: int)
    requires
        i >= s.len(),
    ensures
        prank(s, p, i) == total_ones(pol_bits(s, p)),
{
    let sp = pol_bits(s, p);
    assert(clip(sp, i) == sp.len());
}

/// Finds the position of the `(k+1)`-th polarity bit inside super-block
/// `b`, which is known to hold it.
fn select_in_block(
    data: &BitVectorData,
    pairs: &Vec<u64>,
    Ghost(s): Ghost<Seq<bool>>,
    bl: usize,
    p: bool,
    b: usize,
    k: usize,
) -> (pos: usize)
    requires
        data.wf(),
        s == data@,
        Rank9SelIndex::pairs_ok(pairs@, s),
        bl == blocks_for(s.len()),
        b < bl,
        prank(s, p, 512 * b) <= k,
        k < prank(s, p, 512 * (b + 1)),
    ensures
        is_select(pol_bits(s, p), k as nat, pos as int),
{
    proof {
        lemma_block_bound(s.len(), b as int);
    }
    let base = block_count(pairs, Ghost(s), data.len(), bl, b, p);
    let r = k - base;
    let e = pairs[2 * b + 1];
    let mut t: usize = 0;
    let mut th_t: usize = 0;
    let mut tt: usize = 1;
    proof {
        assert(sub_thresh(s, b as int, 0, p) == 0);
    }
    while tt < 8
        invariant
            Rank9SelIndex::pairs_ok(pairs@, s),
            bl == blocks_for(s.len()),
            b < bl,
            512 * b < s.len(),
            prank(s, p, 512 * b) <= k,
            k < prank(s, p, 512 * (b + 1)),
            r == k - prank(s, p, 512 * b),
            e == pairs@[2 * b + 1],
            t < tt <= 8,
            th_t == sub_thresh(s, b as int, t as int, p),
            th_t <= r,
            forall|u: int| t < u < tt ==> #[trigger] sub_thresh(s, b as int, u, p) > r,
        decreases 8 - tt,
    {
        proof {
            assert(field9(e, tt - 1) == prank(s, true, 512 * b + 64 * tt) - prank(
                s,
                true,
                512 * b,
            ));
            lemma_prank_monotone(s, true, 512 * b, 512 * b + 64 * tt);
            assert(field9(e, tt - 1) == ((e >> ((9 * (tt - 1)) as u64)) & 0x1ff));
        }
        let f = ((e >> ((9 * (tt - 1)) as u64)) & 0x1ff) as usize;
        let th = if p {
            f
        } else {
            64 * tt - f
        };
        proof {
            assert(th == sub_thresh(s, b as int, tt as int, p));
        }
        if th <= r {
            t = tt;
            th_t = th;
        }
        tt = tt + 1;
    }
    let ghost bi = b as int;
    let ghost ti = t as int;
    proof {
        lemma_sub_thresh(s, bi, ti, p);
        lemma_sub_thresh(s, bi, ti + 1, p);
        // The chosen sub-block boundary lies within the length, so the
        // threshold read is the exact polarity count before it.
        if 512 * bi + 64 * ti > s.len() {
            lemma_prank_past_end(s, p, 512 * bi + 64 * ti);
            lemma_prank_past_end(s, p, 512 * (bi + 1));
            assert(pdiff(s, bi, ti, p) == prank(s, p, 512 * (bi + 1)) - prank(s, p, 512 * bi));
            assert(false);
        }
        assert(th_t == pdiff(s, bi, ti, p));
        // And the count through the next boundary exceeds `r`.
        if ti < 7 {
            if 512 * bi + 64 * (ti + 1) > s.len() {
                lemma_prank_past_end(s, p, 512 * bi + 64 * (ti + 1));
                lemma_prank_past_end(s, p, 512 * (bi + 1));
            }
            assert(pdiff(s, bi, ti + 1, p) > r);
        } else {
            assert(512 * bi + 64 * (ti + 1) == 512 * (bi + 1));
            assert(pdiff(s, bi, ti + 1, p) > r);
        }
    }
    let wi = 8 * b + t;
    proof {
        assert(64 * (wi as int) == 512 * bi + 64 * ti) by (nonlinear_arith)
            requires
                wi == 8 * bi + ti,
        ;
    }
    let ew = scan_word(data, wi, p);
    let kk = r - th_t;
    proof {
        assert(prank(s, p, 64 * (wi as int) + 64) == prank(s, p, 512 * bi + 64 * (ti + 1)));
        assert(kk < pop(ew));
        if 64 * (wi as int) >= s.len() {
            crate::broadword::lemma_count_ones_below_le(ew, 64);
            assert(forall|j: u64| j < 64 ==> !#[trigger] nth_bit(0u64, j)) by (bit_vector);
            crate::broadword::lemma_count_ones_below_zero_range(0u64, 0, 64);
            assert(false);
        }
        crate::bitseq::lemma_eff_word_bits(data.words_seq(), s.len(), wi as int, p);
    }
    let j = select_in_word(ew, kk);
    proof {
        let sp = pol_bits(s, p);
        assert(64 * wi + j < s.len() && sp[64 * (wi as int) + (j as int)]);
        lemma_rank_count(sp, 64 * (wi as int), ew, j as int);
        assert(clip(sp, 64 * (wi as int) + (j as int)) == 64 * (wi as int) + (j as int));
        assert(clip(sp, 64 * (wi as int)) == 64 * (wi as int));
        assert(rank_of(sp, 64 * (wi as int)) == prank(s, p, 64 * (wi as int)));
    }
    let pos = 64 * wi + j;
    proof {
        let sp = pol_bits(s, p);
        assert(rank_of(sp, pos as int) == k);
        assert(is_select(sp, k as nat, pos as int));
    }
    pos
}

/// Builds the hint array for polarity `p`: one entry per 8192 bits of the
/// polarity, naming the super-block that holds the bit, closed by an
/// entry pointing past the last super-block.
fn build_hints(
    pairs: &Vec<u64>,
    Ghost(s): Ghost<Seq<bool>>,
    len: usize,
    bl: usize,
    p: bool,
    total_p: usize,
) -> (h: Vec<usize>)
    requires
        Rank9SelIndex::pairs_ok(pairs@, s),
        len == s.len(),
        bl == blocks_for(s.len()),
        total_p == total_ones(pol_bits(s, p)),
    ensures
        hints_ok(s, h@, p, bl as nat),
{
    let mut h: Vec<usize> = Vec::new();
    let mut threshold: u128 = 0;
    let mut b: usize = 0;
    proof {
        assert(prank(s, p, 0) == 0);
    }
    while b < bl
        invariant
            Rank9SelIndex::pairs_ok(pairs@, s),
            len == s.len(),
            bl == blocks_for(s.len()),
            total_p == total_ones(pol_bits(s, p)),
            b <= bl,
            threshold == 8192 * h@.len(),
            prank(s, p, 512 * b) <= threshold,
            h@.len() == 0 || 8192 * (h@.len() - 1) < total_p,
            forall|q: int|
                0 <= q < h@.len() ==> {
                    &&& #[trigger] h@[q] < bl
                    &&& prank(s, p, 512 * h@[q]) <= 8192 * q
                    &&& 8192 * q < prank(s, p, 512 * (h@[q] + 1))
                },
        decreases bl - b,
    {
        let end = block_count(pairs, Ghost(s), len, bl, b + 1, p);
        proof {
            lemma_prank_monotone(s, p, 512 * (b + 1), 512 * (b + 1));
            lemma_prank_monotone(s, p, 0, 512 * (b + 1));
        }
        while threshold < end as u128
            invariant
                Rank9SelIndex::pairs_ok(pairs@, s),
                len == s.len(),
                bl == blocks_for(s.len()),
                total_p == total_ones(pol_bits(s, p)),
                b < bl,
                end == prank(s, p, 512 * (b + 1)),
                end <= total_p,
                threshold == 8192 * h@.len(),
                prank(s, p, 512 * b) <= threshold,
                h@.len() == 0 || 8192 * (h@.len() - 1) < total_p,
                forall|q: int|
                    0 <= q < h@.len() ==> {
                        &&& #[trigger] h@[q] < bl
                        &&& prank(s, p, 512 * h@[q]) <= 8192 * q
                        &&& 8192 * q < prank(s, p, 512 * (h@[q] + 1))
                    },
            decreases end as int + 8192 - threshold,
        {
            h.push(b);
            threshold = threshold + 8192;
        }
        b = b + 1;
    }
    proof {
        assert(512 * bl >= s.len()) by (nonlinear_arith)
            requires
                blocks_for(s.len()) * 512 >= s.len(),
                bl == blocks_for(s.len()),
        ;
        lemma_prank_past_end(s, p, 512 * (bl as int));
        let n = h@.len() as int;
        assert(total_p <= 8192 * n);
        assert(n == (total_p + 8191) / 8192) by (nonlinear_arith)
            requires
                total_p <= 8192 * n,
                n == 0 || 8192 * (n - 1) < total_p,
                0 <= n,
                0 <= total_p,
        ;
    }
    h.push(bl);
    h
}

impl Rank9SelIndex {
    /// The words of overhead this index accounts for.
    pub closed spec fn size_words_spec(&self) -> nat {
        let h1 = match self.select1_hints {
            Some(h) => h@.len(),
            None => 0,
        };
        let h0 = match self.select0_hints {
            Some(h) => h@.len(),
            None => 0,
        };
        self.block_rank_pairs@.len() + h1 + h0 + 1
    }

    /// Builds the index over the data, with hint arrays per flag.
    pub fn from_data(data: &BitVectorData, with_select1: bool, with_select0: bool) -> (r: Self)
        requires
            data.wf(),
        ensures
            r.inv_for(data@),
            r.has_select1_hints() == with_select1,
            r.has_select0_hints() == with_select0,
    {
        let ghost s = data@;
        let (pairs, ones) = Self::build_pairs(data);
        let len = data.len();
        let bl = crate::utils::ceiled_divide(len, 512);
        proof {
            lemma_pol_bits_true(s);
            lemma_rank_of_le(s, s.len() as int);
        }
        let select1_hints = if with_select1 {
            Some(build_hints(&pairs, Ghost(s), len, bl, true, ones))
        } else {
            None
        };
        let select0_hints = if with_select0 {
            proof {
                lemma_rank_split(s, s.len() as int);
            }
            Some(build_hints(&pairs, Ghost(s), len, bl, false, len - ones))
        } else {
            None
        };
        Rank9SelIndex { block_rank_pairs: pairs, select1_hints, select0_hints, num_ones: ones }
    }

    /// Answers rank within the length: the cumulative super-block count,
    /// the packed sub-block count, and a masked in-word count.
    fn rank1_exec(&self, data: &BitVectorData, pos: usize) -> (r: usize)
        requires
            data.wf(),
            self.inv_for(data@),
            pos <= data@.len(),
        ensures
            r == rank_of(data@, pos as int),
    {
        let ghost s = data@;
        proof {
            lemma_pos_decomp(pos as int);
            lemma_pol_bits_true(s);
        }
        let wi = pos / 64;
        let off = pos % 64;
        proof {
            lemma_pos_decomp(wi as int);
        }
        let b = wi / 8;
        let t = wi % 8;
        let ghost bi = b as int;
        let ghost ti = t as int;
        proof {
            assert(512 * bi + 64 * ti + off == pos) by (nonlinear_arith)
                requires
                    wi == 8 * bi + ti,
                    pos == 64 * (wi as int) + off,
            ;
            assert(512 * bi <= pos);
            vstd::arithmetic::div_mod::lemma_div_is_ordered(512 * bi, s.len() as int, 512);
            assert((512 * bi) / 512 == bi) by (nonlinear_arith);
            vstd::arithmetic::div_mod::lemma_fundamental_div_mod(s.len() as int + 511, 512);
            vstd::arithmetic::div_mod::lemma_div_is_ordered(
                s.len() as int,
                s.len() as int + 511,
                512,
            );
            assert(bi <= blocks_for(s.len()));
        }
        let bl = crate::utils::ceiled_divide(data.len(), 512);
        proof {
            assert(bl == blocks_for(s.len()));
        }
        let base = block_count(&self.block_rank_pairs, Ghost(s), data.len(), bl, b, true);
        proof {
            lemma_prank_true(s, 512 * bi);
            assert(512 * bi <= pos <= s.len());
            assert(clip(s, 512 * bi) == 512 * bi);
            assert(base == rank_of(s, 512 * bi));
        }
        let sub: usize = if t == 0 {
            proof {
                assert(512 * bi == 64 * (wi as int));
            }
            0
        } else {
            proof {
                assert(512 * bi + 64 * ti <= pos);
                lemma_block_of(s.len(), bi);
            }
            let e = self.block_rank_pairs[2 * b + 1];
            proof {
                assert(field9(e, ti - 1) == prank(s, true, 512 * bi + 64 * ti) - prank(
                    s,
                    true,
                    512 * bi,
                ));
                lemma_prank_monotone(s, true, 512 * bi, 512 * bi + 64 * ti);
                assert(field9(e, ti - 1) == ((e >> ((9 * (ti - 1)) as u64)) & 0x1ff));
            }
            ((e >> ((9 * (t - 1)) as u64)) & 0x1ff) as usize
        };
        proof {
            lemma_prank_true(s, 512 * bi + 64 * ti);
            assert(clip(s, 512 * bi + 64 * ti) == 512 * bi + 64 * ti);
            assert(base + sub == rank_of(s, 512 * bi + 64 * ti));
            lemma_rank_of_le(s, 512 * bi + 64 * ti);
        }
        let tail: usize = if off == 0 {
            0
        } else {
            proof {
                lemma_word_index_bound(pos - 1, s.len());
                assert((pos - 1) as int / 64 == wi) by (nonlinear_arith)
                    requires
                        pos == 64 * (wi as int) + off,
                        0 < off < 64,
                        (pos - 1) as int == 64 * ((pos - 1) as int / 64) + (pos - 1) as int % 64,
                        0 <= (pos - 1) as int % 64 < 64,
                ;
            }
            let ew = crate::bit_vector::polarity_word(data, wi, true);
            let m = ew & crate::broadword::low_mask_exec(off as u64);
            proof {
                lemma_pop_mask(ew, off as u64);
                let sp = pol_bits(s, true);
                lemma_rank_count(sp, 64 * (wi as int), ew, off as int);
                assert(clip(sp, 64 * (wi as int) + off) == pos);
                lemma_rank_of_le(sp, pos as int);
            }
            popcount(m)
        };
        proof {
            let sp = pol_bits(s, true);
            lemma_prank_true(s, 512 * bi);
            lemma_prank_true(s, 512 * bi + 64 * ti);
            if off != 0 {
                assert(64 * (wi as int) == 512 * bi + 64 * ti);
            } else {
                assert(pos == 512 * bi + 64 * ti);
            }
            lemma_rank_of_le(s, pos as int);
            lemma_rank_of_monotone(s, 512 * bi, pos as int);
            lemma_rank_of_monotone(s, 512 * bi + 64 * ti, pos as int);
        }
        base + sub + tail
    }

    /// Selects the `(k+1)`-th polarity bit, narrowing the super-block
    /// search through the hint array when one was built.
    fn select_exec(
        &self,
        data: &BitVectorData,
        k: usize,
        p: bool,
        total_p: usize,
        hints: &Option<Vec<usize>>,
    ) -> (pos: usize)
        requires
            data.wf(),
            self.inv_for(data@),
            total_p == total_ones(pol_bits(data@, p)),
            k < total_p,
            match hints {
                Some(h) => hints_ok(data@, h@, p, blocks_for(data@.len())),
                None => true,
            },
        ensures
            is_select(pol_bits(data@, p), k as nat, pos as int),
    {
        let ghost s = data@;
        let len = data.len();
        let bl = crate::utils::ceiled_divide(len, 512);
        proof {
            assert(bl == blocks_for(s.len()));
            assert(prank(s, p, 0) == 0);
            assert(512 * (bl as int + 1) >= s.len()) by (nonlinear_arith)
                requires
                    blocks_for(s.len()) * 512 >= s.len(),
                    bl == blocks_for(s.len()),
            ;
            lemma_prank_past_end(s, p, 512 * (bl as int + 1));
        }
        let (lo, hi) = match hints {
            Some(h) => {
                let q = k / 8192;
                proof {
                    vstd::arithmetic::div_mod::lemma_fundamental_div_mod(k as int, 8192);
                    let n = (total_p + 8191) / 8192;
                    assert(h@.len() == n + 1);
                    assert(total_p <= 8192 * n) by (nonlinear_arith)
                        requires
                            n == (total_p + 8191) / 8192,
                            total_p as int + 8191 == 8192 * ((total_p as int + 8191) / 8192) + (
                            total_p as int + 8191) % 8192,
                            0 <= (total_p as int + 8191) % 8192 < 8192,
                    ;
                    assert((q as int) < n) by (nonlinear_arith)
                        requires
                            k as int == 8192 * (q as int) + k as int % 8192,
                            0 <= k as int % 8192 < 8192,
                            k < total_p,
                            total_p <= 8192 * n,
                    ;
                }
                let lo = h[q];
                let hi_b = h[q + 1];
                proof {
                    let n = h@.len() - 1;
                    if q + 1 < n {
                        assert(8192 * (q as int + 1) < prank(s, p, 512 * (h@[q as int + 1] + 1)));
                        assert(k < 8192 * (q as int + 1));
                        lemma_prank_monotone(
                            s,
                            p,
                            512 * (h@[q as int + 1] + 1),
                            512 * (hi_b as int + 1),
                        );
                    } else {
                        assert(h@[q as int + 1] == bl);
                        lemma_prank_past_end(s, p, 512 * (bl as int + 1));
                    }
                    assert(k < prank(s, p, 512 * (hi_b as int + 1)));
                    assert(hi_b <= bl);
                    assert(8192 * (q as int) <= k);
                    assert(prank(s, p, 512 * (lo as int)) <= k);
                    if lo >= hi_b + 1 {
                        lemma_prank_monotone(s, p, 512 * (hi_b as int + 1), 512 * (lo as int));
                        assert(false);
                    }
                }
                (lo, hi_b + 1)
            },
            None => {
                proof {
                    lemma_prank_past_end(s, p, 512 * (bl as int + 1));
                }
                (0usize, bl + 1)
            },
        };
        let b = search_block(&self.block_rank_pairs, Ghost(s), len, bl, p, k, lo, hi);
        select_in_block(data, &self.block_rank_pairs, Ghost(s), bl, p, b, k)
    }

    /// Returns the number of bytes of the index's arrays plus metadata.
    pub fn size_in_bytes(&self) -> (r: usize)
        ensures
            r == if 8 * self.size_words_spec() <= usize::MAX {
                (8 * self.size_words_spec()) as int
            } else {
                usize::MAX as int
            },
    {
        let h1 = match &self.select1_hints {
            Some(h) => h.len(),
            None => 0,
        };
        let h0 = match &self.select0_hints {
            Some(h) => h.len(),
            None => 0,
        };
        let words = match self.block_rank_pairs.len().checked_add(h1) {
            Some(a) => match a.checked_add(h0) {
                Some(c) => match c.checked_add(1) {
                    Some(d) => d,
                    None => return usize::MAX,
                },
                None => return usize::MAX,
            },
            None => return usize::MAX,
        };
        match words.checked_mul(8) {
            Some(t) => t,
            None => usize::MAX,
        }
    }
}

/// The invariant fixes the index's size: the pair array holds two words
/// per 512-bit super-block plus two, and each hint array one entry per
/// 8192 bits of its polarity plus one, so the space the index reports is
/// a function of the bit length and the counts alone.
pub proof fn lemma_index_size(rs: &Rank9SelIndex, s: Seq<bool>)
    requires
        rs.inv_for(s),
    ensures
        rs.size_words_spec() == 2 * blocks_for(s.len()) + 3 + (if rs.has_select1_hints() {
            ((total_ones(s) + 8191) / 8192 + 1) as int
        } else {
            0int
        }) + (if rs.has_select0_hints() {
            ((s.len() - total_ones(s) + 8191) / 8192 + 1) as int
        } else {
            0int
        }),
{
    lemma_pol_bits_true(s);
    lemma_rank_split(s, s.len() as int);
    lemma_rank_of_le(s, s.len() as int);
    assert(total_ones(pol_bits(s, false)) == s.len() - total_ones(s));
}

impl BitVectorIndex for Rank9SelIndex {
    open spec fn inv(&self, data: &BitVectorData) -> bool {
        self.inv_for(data@)
    }

    fn build(data: &BitVectorData) -> (r: Self) {
        Self::from_data(data, true, true)
    }

    fn num_ones(&self, data: &BitVectorData) -> (r: usize) {
        self.num_ones
    }

    fn num_zeros(&self, data: &BitVectorData) -> (r: usize) {
        proof {
            lemma_rank_of_le(data@, data@.len() as int);
        }
        data.len() - self.num_ones
    }

    fn rank1(&self, data: &BitVectorData, pos: usize) -> (r: Option<usize>) {
        if pos > data.len() {
            None
        } else {
            Some(self.rank1_exec(data, pos))
        }
    }

    fn rank0(&self, data: &BitVectorData, pos: usize) -> (r: Option<usize>) {
        if pos > data.len() {
            None
        } else {
            proof {
                lemma_rank_of_monotone(data@, 0, pos as int);
                lemma_rank_of_le(data@, pos as int);
            }
            Some(pos - self.rank1_exec(data, pos))
        }
    }

    fn select1(&self, data: &BitVectorData, k: usize) -> (r: Option<usize>) {
        proof {
            lemma_pol_bits_true(data@);
        }
        if k >= self.num_ones {
            None
        } else {
            Some(self.select_exec(data, k, true, self.num_ones, &self.select1_hints))
        }
    }

    fn select0(&self, data: &BitVectorData, k: usize) -> (r: Option<usize>) {
        proof {
            lemma_rank_split(data@, data@.len() as int);
            lemma_rank_of_le(data@, data@.len() as int);
        }
        let zeros = data.len() - self.num_ones;
        if k >= zeros {
            None
        } else {
            Some(self.select_exec(data, k, false, zeros, &self.select0_hints))
        }
    }
}

/// Rank/select data structure over a bit vector, with constant-time rank
/// and hint-narrowed logarithmic select.
pub struct Rank9Sel {
    bv: BitVectorData,
    rs: Rank9SelIndex,
}

impl View for Rank9Sel {
    type V = Seq<bool>;

    closed spec fn view(&self) -> Seq<bool> {
        self.bv@
    }
}

impl Rank9Sel {
    /// The data is well formed and the index was built over it.
    pub closed spec fn wf(&self) -> bool {
        self.bv.wf() && self.rs.inv_for(self.bv@)
    }

    /// Whether select1 hints were built.
    pub closed spec fn has_select1_hints(&self) -> bool {
        self.rs.has_select1_hints()
    }

    /// Whether select0 hints were built.
    pub closed spec fn has_select0_hints(&self) -> bool {
        self.rs.has_select0_hints()
    }

    /// Creates a new vector over the given data, without select hints.
    pub fn new(bv: BitVectorData) -> (r: Self)
        requires
            bv.wf(),
        ensures
            r.wf(),
            r@ == bv@,
            !r.has_select1_hints(),
            !r.has_select0_hints(),
    {
        let rs = Rank9SelIndex::from_data(&bv, false, false);
        Self { bv, rs }
    }

    /// Creates a new vector from input bits, without select hints.
    pub fn from_bits(bits: &[bool]) -> (r: Self)
        ensures
            r.wf(),
            r@ == bits@,
            !r.has_select1_hints(),
            !r.has_select0_hints(),
    {
        Self::new(BitVectorData::from_bits(bits))
    }

    /// Returns a reference to the internal bit vector data.
    pub fn bit_vector(&self) -> (r: &BitVectorData)
        ensures
            r@ == self@,
    {
        &self.bv
    }

    /// Returns a reference to the internal rank/select index.
    pub fn rs_index(&self) -> (r: &Rank9SelIndex)
        ensures
            self.wf() ==> r.inv_for(self@),
    {
        &self.rs
    }

    /// Returns the number of bits stored.
    pub fn len(&self) -> (r: usize)
        ensures
            r == self@.len(),
    {
        self.bv.len()
    }

    /// Checks if the vector is empty.
    pub fn is_empty(&self) -> (r: bool)
        ensures
            r == (self@.len() == 0),
    {
        self.len() == 0
    }

    /// The bytes the data and the index occupy.
    pub closed spec fn size_bytes_spec(&self) -> nat {
        8 * (self.bv.words_seq().len() + 2) + 8 * self.rs.size_words_spec()
    }

    /// Returns the number of bytes of the data and the index, saturating.
    pub fn size_in_bytes(&self) -> (r: usize)
        ensures
            r == if self.size_bytes_spec() <= usize::MAX {
                self.size_bytes_spec() as int
            } else {
                usize::MAX as int
            },
    {
        let a = self.bv.size_in_bytes();
        let b = self.rs.size_in_bytes();
        match a.checked_add(b) {
            Some(t) => t,
            None => usize::MAX,
        }
    }
}

impl crate::traits::Build for Rank9Sel {
    /// Creates a new vector from input bits. `with_rank` is accepted for
    /// interface parity; rank support is always built. The select flags
    /// enable the hint arrays. Never fails.
    fn build_from_bits(
        bits: &[bool],
        _with_rank: bool,
        with_select1: bool,
        with_select0: bool,
    ) -> (r: Result<Self, crate::error::Error>)
        ensures
            r.is_ok(),
            match r {
                Ok(v) => {
                    &&& v.wf()
                    &&& v@ == bits@
                    &&& v.has_select1_hints() == with_select1
                    &&& v.has_select0_hints() == with_select0
                },
                Err(_) => false,
            },
    {
        let bv = BitVectorData::from_bits(bits);
        let rs = Rank9SelIndex::from_data(&bv, with_select1, with_select0);
        Ok(Self { bv, rs })
    }
}

impl crate::traits::NumBits for Rank9Sel {
    open spec fn counts_ready(&self) -> bool {
        self.wf()
    }

    fn num_bits(&self) -> (r: usize) {
        self.bv.len()
    }

    fn num_ones(&self) -> (r: usize) {
        self.rs.num_ones(&self.bv)
    }

    fn num_zeros(&self) -> (r: usize) {
        self.rs.num_zeros(&self.bv)
    }
}

impl crate::traits::Access for Rank9Sel {
    open spec fn access_ready(&self) -> bool {
        self.wf()
    }

    fn access(&self, pos: usize) -> (r: Option<bool>) {
        self.bv.access(pos)
    }
}

impl crate::traits::Rank for Rank9Sel {
    open spec fn rank_ready(&self) -> bool {
        self.wf()
    }

    fn rank1(&self, pos: usize) -> (r: Option<usize>) {
        self.rs.rank1(&self.bv, pos)
    }

    fn rank0(&self, pos: usize) -> (r: Option<usize>) {
        self.rs.rank0(&self.bv, pos)
    }
}

impl crate::traits::Select for Rank9Sel {
    open spec fn select1_ready(&self) -> bool {
        self.wf()
    }

    open spec fn select0_ready(&self) -> bool {
        self.wf()
    }

    fn select1(&self, k: usize) -> (r: Option<usize>) {
        self.rs.select1(&self.bv, k)
    }

    fn select0(&self, k: usize) -> (r: Option<usize>) {
        self.rs.select0(&self.bv, k)
    }
}

} // verus!
