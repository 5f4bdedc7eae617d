//! Constant-time select with the dense-array technique.
//!
//! Target positions of one polarity are grouped into super-blocks of 1024.
//! A super-block spanning fewer than 65536 universe bits is "short": its
//! first position is stored negated and one-based in the block inventory,
//! and every 32nd position is sampled as a 16-bit offset from it. A wider
//! super-block is "long": the inventory stores the offset into a dense
//! array holding all of its positions verbatim.

use vstd::prelude::*;

use crate::bit_vector::{BitVectorData, BitVectorIndex};
use crate::bitseq::{
    clip, is_select, lemma_eff_word_bits, lemma_rank_count, lemma_rank_of_le,
    lemma_rank_of_monotone, lemma_pol_bits_true, lemma_select_ordered, pol_bits, rank_of,
    select_answer_ok, total_ones,
};
use crate::broadword::{
    count_ones_below, lemma_count_above, lemma_nth_bit_mask_high, nth_bit, pop, popcount,
    select_in_word,
};
use crate::rank9sel::Rank9SelIndex;

verus! {

/// Target positions per super-block.
pub const BLOCK_LEN: usize = 1024;

/// Sub-sampling period within a short super-block.
pub const SUBBLOCK_LEN: usize = 32;

/// A super-block spanning at least this many universe bits is long.
pub const MAX_IN_BLOCK_DISTANCE: usize = 65536;

/// The number of super-blocks for `np` target positions.
pub open spec fn dblocks_for(np: nat) -> nat {
    ((np + 1023) / 1024) as nat
}

/// The number of target positions falling into super-block `q`.
pub open spec fn dblock_cnt(np: nat, q: int) -> int {
    if np - 1024 * q < 1024 {
        np - 1024 * q
    } else {
        1024
    }
}

/// The inventory entries describing super-block `q` name the positions of
/// its targets: directly for a long block, through the sampled offsets
/// for a short one.
pub open spec fn dblock_ok(
    sp: Seq<bool>,
    binv: Seq<i64>,
    sinv: Seq<u16>,
    over: Seq<usize>,
    q: int,
) -> bool {
    let base = 1024 * q;
    let cnt = dblock_cnt(total_ones(sp), q);
    let e = binv[q];
    if e < 0 {
        let first = -e - 1;
        &&& e > i64::MIN
        &&& is_select(sp, base as nat, first)
        &&& 32 * q + ((cnt + 31) / 32) <= sinv.len()
        &&& forall|j: int|
            0 <= j < ((cnt + 31) / 32) ==> is_select(
                sp,
                (base + 32 * j) as nat,
                first + #[trigger] sinv[32 * q + j],
            )
    } else {
        &&& e + cnt <= over.len()
        &&& forall|i: int|
            0 <= i < cnt ==> is_select(sp, (base + i) as nat, #[trigger] over[e + i] as int)
    }
}

/// Select index for one polarity: ones when `P`, zeros otherwise.
pub struct DArrayIndex<const P: bool> {
    block_inventory: Vec<i64>,
    subblock_inventory: Vec<u16>,
    overflow_positions: Vec<usize>,
    num_positions: usize,
}

impl<const P: bool> DArrayIndex<P> {
    /// The index matches the bit sequence `s`.
    pub closed spec fn inv_for(&self, s: Seq<bool>) -> bool {
        let sp = pol_bits(s, P);
        &&& self.num_positions == total_ones(sp)
        &&& self.block_inventory@.len() == dblocks_for(total_ones(sp))
        &&& forall|q: int|
            0 <= q < self.block_inventory@.len() ==> dblock_ok(
                sp,
                self.block_inventory@,
                self.subblock_inventory@,
                self.overflow_positions@,
                q,
            )
    }

    /// Returns the total count of target-polarity bits.
    pub fn num_positions(&self, Ghost(s): Ghost<Seq<bool>>) -> (r: usize)
        requires
            self.inv_for(s),
        ensures
            r == total_ones(pol_bits(s, P)),
    {
        self.num_positions
    }

    /// The bytes the inventories occupy: eight per block entry, two per
    /// sub-block sample, eight per overflow position, plus a count word.
    pub closed spec fn size_bytes_spec(&self) -> nat {
        8 * self.block_inventory@.len() + 2 * self.subblock_inventory@.len() + 8
            * self.overflow_positions@.len() + 8
    }

    /// Returns the number of bytes of the inventories, saturating.
    pub fn size_in_bytes(&self) -> (r: usize)
        ensures
            r == if self.size_bytes_spec() <= usize::MAX {
                self.size_bytes_spec() as int
            } else {
                usize::MAX as int
            },
    {
        let a = match self.block_inventory.len().checked_mul(8) {
            Some(x) => x,
            None => return usize::MAX,
        };
        let b = match self.subblock_inventory.len().checked_mul(2) {
            Some(x) => x,
            None => return usize::MAX,
        };
        let c = match self.overflow_positions.len().checked_mul(8) {
            Some(x) => x,
            None => return usize::MAX,
        };
        match a.checked_add(b) {
            Some(x) => match x.checked_add(c) {
                Some(y) => match y.checked_add(8) {
                    Some(z) => z,
                    None => usize::MAX,
                },
                None => usize::MAX,
            },
            None => usize::MAX,
        }
    }
}

/// Appends the inventory entries for one completed super-block of target
/// positions.
fn flush_block(
    binv: &mut Vec<i64>,
    sinv: &mut Vec<u16>,
    over: &mut Vec<usize>,
    cur: &Vec<usize>,
    Ghost(sp): Ghost<Seq<bool>>,
)
    requires
        sp.len() <= 0x7fff_ffff_ffff_ffff,
        1 <= cur@.len() <= 1024,
        forall|k: int|
            0 <= k < cur@.len() ==> is_select(
                sp,
                (1024 * old(binv)@.len() + k) as nat,
                (#[trigger] cur@[k]) as int,
            ),
        dblock_cnt(total_ones(sp), old(binv)@.len() as int) == cur@.len(),
        1024 * old(binv)@.len() + cur@.len() <= total_ones(sp),
        old(sinv)@.len() == 32 * old(binv)@.len(),
        old(over)@.len() <= 1024 * old(binv)@.len(),
        forall|q: int|
            0 <= q < old(binv)@.len() ==> dblock_ok(sp, old(binv)@, old(sinv)@, old(over)@, q),
    ensures
        final(binv)@.len() == old(binv)@.len() + 1,
        final(sinv)@.len() <= 32 * final(binv)@.len(),
        cur@.len() == 1024 ==> final(sinv)@.len() == 32 * final(binv)@.len(),
        final(over)@.len() <= 1024 * final(binv)@.len(),
        forall|q: int|
            0 <= q < final(binv)@.len() ==> dblock_ok(
                sp,
                final(binv)@,
                final(sinv)@,
                final(over)@,
                q,
            ),
{
    let ghost q0 = binv@.len() as int;
    let ghost base = 1024 * q0;
    let n = cur.len();
    let first = cur[0];
    let last = cur[n - 1];
    proof {
        lemma_rank_of_le(pol_bits(sp, true), sp.len() as int);
        lemma_pol_bits_true(sp);
        assert(total_ones(sp) <= sp.len());
        assert(cur@[0] == first && cur@[n - 1] == last);
        if n > 1 {
            lemma_select_ordered(sp, base as nat, first as int, (base + n - 1) as nat, last as int);
        }
        assert(first < sp.len());
        assert(last < sp.len());
        assert(first <= last);
    }
    if last - first < MAX_IN_BLOCK_DISTANCE {
        let e: i64 = -(first as i64) - 1;
        binv.push(e);
        let mut i: usize = 0;
        let ghost sinv0 = sinv@;
        while i < n
            invariant
                n == cur@.len(),
                1 <= n <= 1024,
                first == cur@[0],
                last == cur@[n - 1],
                first <= last,
                last < sp.len() <= 0x7fff_ffff_ffff_ffff,
                last - first < 65536,
                base == 1024 * q0,
                0 <= q0,
                forall|k: int|
                    0 <= k < cur@.len() ==> is_select(
                        sp,
                        (base + k) as nat,
                        (#[trigger] cur@[k]) as int,
                    ),
                i % 32 == 0,
                i <= n + 31,
                sinv@.len() == sinv0.len() + i / 32,
                forall|j: int|
                    0 <= j < i / 32 ==> #[trigger] sinv@[sinv0.len() + j] == cur@[32 * j] - first,
                forall|j: int| 0 <= j < sinv0.len() ==> #[trigger] sinv@[j] == sinv0[j],
            decreases n + 32 - i,
        {
            proof {
                if i > 0 {
                    lemma_select_ordered(
                        sp,
                        base as nat,
                        first as int,
                        (base + i) as nat,
                        cur@[i as int] as int,
                    );
                }
                if i < n - 1 {
                    lemma_select_ordered(
                        sp,
                        (base + i) as nat,
                        cur@[i as int] as int,
                        (base + n - 1) as nat,
                        last as int,
                    );
                }
                assert(cur@[i as int] >= first);
                assert(cur@[i as int] <= last);
                vstd::arithmetic::div_mod::lemma_fundamental_div_mod(i as int + 32, 32);
                vstd::arithmetic::div_mod::lemma_div_plus_one(i as int, 32);
                assert((i + 32) / 32 == i / 32 + 1);
                assert(32 * ((i as int) / 32) == i) by (nonlinear_arith)
                    requires
                        i % 32 == 0,
                        i as int == 32 * (i as int / 32) + i as int % 32,
                ;
            }
            sinv.push((cur[i] - first) as u16);
            i = i + 32;
        }
        proof {
            let binv_new = binv@;
            let cnt = dblock_cnt(total_ones(sp), q0);
            assert(cnt == n);
            assert(sinv@.len() == sinv0.len() + (n + 31) / 32) by (nonlinear_arith)
                requires
                    sinv@.len() == sinv0.len() + (i as int) / 32,
                    i % 32 == 0,
                    i as int == 32 * (i as int / 32) + i as int % 32,
                    n <= i <= n + 31,
                    1 <= n,
            ;
            assert((n + 31) / 32 <= 32) by (nonlinear_arith)
                requires
                    1 <= n <= 1024,
            ;
            assert(dblock_ok(sp, binv_new, sinv@, over@, q0)) by {
                assert(binv_new[q0] == e);
                assert(-e - 1 == first);
                assert forall|j: int| 0 <= j < ((cnt + 31) / 32) implies is_select(
                    sp,
                    (base + 32 * j) as nat,
                    (first as int) + #[trigger] sinv@[32 * q0 + j],
                ) by {
                    vstd::arithmetic::div_mod::lemma_fundamental_div_mod(n as int + 31, 32);
                    assert(32 * j < n) by (nonlinear_arith)
                        requires
                            0 <= j < (n as int + 31) / 32,
                            (n as int + 31) == 32 * ((n as int + 31) / 32) + (n as int + 31) % 32,
                            0 <= (n as int + 31) % 32 < 32,
                    ;
                    assert(sinv@[sinv0.len() + j] == cur@[32 * j] - first);
                    assert(32 * q0 + j == sinv0.len() + j);
                }
            }
            assert forall|q: int| 0 <= q < binv_new.len() implies dblock_ok(
                sp,
                binv_new,
                sinv@,
                over@,
                q,
            ) by {
                if q < q0 {
                    assert(dblock_ok(sp, old(binv)@, sinv0, over@, q));
                    assert(binv_new[q] == old(binv)@[q]);
                    if old(binv)@[q] < 0 {
                        assert forall|j: int|
                            0 <= j < ((dblock_cnt(total_ones(sp), q) + 31) / 32) implies is_select(
                            sp,
                            (1024 * q + 32 * j) as nat,
                            (-old(binv)@[q] - 1) + #[trigger] sinv@[32 * q + j],
                        ) by {
                            assert(32 * q + j < sinv0.len());
                            assert(sinv@[32 * q + j] == sinv0[32 * q + j]);
                            assert(is_select(
                                sp,
                                (1024 * q + 32 * j) as nat,
                                (-old(binv)@[q] - 1) + sinv0[32 * q + j],
                            ));
                        }
                    }
                }
            }
        }
    } else {
        proof {
            assert(over@.len() <= sp.len());
        }
        let e: i64 = over.len() as i64;
        binv.push(e);
        let mut i: usize = 0;
        let ghost over0 = over@;
        while i < n
            invariant
                n == cur@.len(),
                1 <= n <= 1024,
                base == 1024 * q0,
                0 <= q0,
                forall|k: int|
                    0 <= k < cur@.len() ==> is_select(
                        sp,
                        (base + k) as nat,
                        (#[trigger] cur@[k]) as int,
                    ),
                i <= n,
                over@.len() == over0.len() + i,
                forall|j: int| 0 <= j < i ==> #[trigger] over@[over0.len() + j] == cur@[j],
                forall|j: int| 0 <= j < over0.len() ==> #[trigger] over@[j] == over0[j],
            decreases n - i,
        {
            over.push(cur[i]);
            i = i + 1;
        }
        let mut pad: usize = 0;
        let ghost sinv0 = sinv@;
        while pad < 32
            invariant
                pad <= 32,
                sinv@.len() == sinv0.len() + pad,
                forall|j: int| 0 <= j < sinv0.len() ==> #[trigger] sinv@[j] == sinv0[j],
            decreases 32 - pad,
        {
            sinv.push(0xffff);
            pad = pad + 1;
        }
        proof {
            let binv_new = binv@;
            let cnt = dblock_cnt(total_ones(sp), q0);
            assert(cnt == n);
            assert(dblock_ok(sp, binv_new, sinv@, over@, q0)) by {
                assert(binv_new[q0] == e);
                assert(e == over0.len());
                assert forall|i2: int| 0 <= i2 < cnt implies is_select(
                    sp,
                    (base + i2) as nat,
                    (#[trigger] over@[e + i2]) as int,
                ) by {
                    assert(over@[over0.len() + i2] == cur@[i2]);
                }
            }
            assert forall|q: int| 0 <= q < binv_new.len() implies dblock_ok(
                sp,
                binv_new,
                sinv@,
                over@,
                q,
            ) by {
                if q < q0 {
                    assert(dblock_ok(sp, old(binv)@, sinv0, over0, q));
                    assert(binv_new[q] == old(binv)@[q]);
                    if old(binv)@[q] < 0 {
                        assert forall|j: int|
                            0 <= j < ((dblock_cnt(total_ones(sp), q) + 31) / 32) implies is_select(
                            sp,
                            (1024 * q + 32 * j) as nat,
                            (-old(binv)@[q] - 1) + #[trigger] sinv@[32 * q + j],
                        ) by {
                            assert(32 * q + j < sinv0.len());
                            assert(sinv@[32 * q + j] == sinv0[32 * q + j]);
                            assert(is_select(
                                sp,
                                (1024 * q + 32 * j) as nat,
                                (-old(binv)@[q] - 1) + sinv0[32 * q + j],
                            ));
                        }
                    } else {
                        assert forall|i2: int|
                            0 <= i2 < dblock_cnt(total_ones(sp), q) implies is_select(
                            sp,
                            (1024 * q + i2) as nat,
                            (#[trigger] over@[old(binv)@[q] + i2]) as int,
                        ) by {
                            assert(old(binv)@[q] + i2 < over0.len());
                            assert(over@[old(binv)@[q] + i2] == over0[old(binv)@[q] + i2]);
                            assert(is_select(
                                sp,
                                (1024 * q + i2) as nat,
                                over0[old(binv)@[q] + i2] as int,
                            ));
                        }
                    }
                }
            }
        }
    }
}

impl<const P: bool> DArrayIndex<P> {
    /// Builds the index over the data by a single pass that buckets the
    /// target positions into super-blocks.
    pub fn build(data: &BitVectorData) -> (r: Self)
        requires
            data.wf(),
            data@.len() <= 0x7fff_ffff_ffff_ffff,
        ensures
            r.inv_for(data@),
    {
        let ghost s = data@;
        let ghost sp = pol_bits(s, P);
        let mut binv: Vec<i64> = Vec::new();
        let mut sinv: Vec<u16> = Vec::new();
        let mut over: Vec<usize> = Vec::new();
        let mut cur: Vec<usize> = Vec::new();
        let mut kd: usize = 0;
        let nw = crate::bit_vector::needed_words(data);
        let mut w: usize = 0;
        proof {
            assert(crate::rank9sel::prank(s, P, 0) == 0);
            lemma_rank_of_le(sp, clip(sp, 0));
        }
        while w < nw
            invariant
                data.wf(),
                s == data@,
                sp == pol_bits(s, P),
                s.len() <= 0x7fff_ffff_ffff_ffff,
                nw == crate::bitseq::words_for(s.len()),
                forall|ww: int| 0 <= ww < nw ==> #[trigger] (64 * ww) < data.len,
                w <= nw,
                kd == crate::rank9sel::prank(s, P, 64 * w),
                kd == 1024 * binv@.len() + cur@.len(),
                cur@.len() < 1024,
                forall|i: int|
                    0 <= i < cur@.len() ==> is_select(
                        sp,
                        (1024 * binv@.len() + i) as nat,
                        (#[trigger] cur@[i]) as int,
                    ),
                sinv@.len() == 32 * binv@.len(),
                over@.len() <= 1024 * binv@.len(),
                forall|q: int| 0 <= q < binv@.len() ==> dblock_ok(sp, binv@, sinv@, over@, q),
            decreases nw - w,
        {
            let ew = crate::bit_vector::polarity_word(data, w, P);
            let mut j: usize = 0;
            proof {
                crate::bitseq::lemma_eff_word_bits(data.words_seq(), s.len(), w as int, P);
                assert(clip(sp, 64 * w) == 64 * w || clip(sp, 64 * w) == sp.len());
            }
            while j < 64
                invariant
                    data.wf(),
                    s == data@,
                    sp == pol_bits(s, P),
                    s.len() <= 0x7fff_ffff_ffff_ffff,
                    w < nw,
                    64 * w < s.len(),
                    nw == crate::bitseq::words_for(s.len()),
                    ew == crate::bitseq::eff_word(data.words_seq(), s.len(), w as int, P),
                    forall|jj: u64|
                        jj < 64 ==> (#[trigger] nth_bit(ew, jj) == (64 * w + jj < s.len()
                            && sp[64 * (w as int) + jj])),
                    j <= 64,
                    kd == crate::rank9sel::prank(s, P, 64 * w) + count_ones_below(ew, j as int),
                    kd == 1024 * binv@.len() + cur@.len(),
                    cur@.len() < 1024,
                    forall|i: int|
                        0 <= i < cur@.len() ==> is_select(
                            sp,
                            (1024 * binv@.len() + i) as nat,
                            (#[trigger] cur@[i]) as int,
                        ),
                    sinv@.len() == 32 * binv@.len(),
                    over@.len() <= 1024 * binv@.len(),
                    forall|q: int| 0 <= q < binv@.len() ==> dblock_ok(sp, binv@, sinv@, over@, q),
                decreases 64 - j,
            {
                proof {
                    assert(count_ones_below(ew, j + 1) == count_ones_below(ew, j as int) + (
                    if nth_bit(ew, j as u64) {
                        1nat
                    } else {
                        0nat
                    }));
                }
                if (ew >> (j as u64)) & 1u64 == 1u64 {
                    proof {
                        assert(nth_bit(ew, j as u64));
                        assert(64 * w + j < s.len());
                        crate::bitseq::lemma_rank_count(sp, 64 * w, ew, j as int);
                        assert(clip(sp, 64 * w) == 64 * w);
                        assert(clip(sp, 64 * (w as int) + (j as int)) == 64 * (w as int) + (
                        j as int));
                        assert(rank_of(sp, 64 * (w as int) + (j as int)) == kd);
                        assert(is_select(sp, kd as nat, 64 * (w as int) + (j as int)));
                        lemma_rank_of_le(sp, 64 * (w as int) + (j as int));
                    }
                    let pos = 64 * w + j;
                    cur.push(pos);
                    kd = kd + 1;
                    if cur.len() == BLOCK_LEN {
                        proof {
                            lemma_rank_of_monotone(sp, clip(sp, 64 * (w as int) + (j as int) + 1), sp.len() as int);
                            crate::bitseq::lemma_rank_count(sp, 64 * w, ew, j + 1);
                            assert(rank_of(sp, clip(sp, 64 * (w as int) + (j as int) + 1)) == kd);
                            assert(kd <= total_ones(sp));
                            assert(dblock_cnt(total_ones(sp), binv@.len() as int) == 1024);
                        }
                        flush_block(&mut binv, &mut sinv, &mut over, &cur, Ghost(sp));
                        cur.clear();
                    }
                }
                j = j + 1;
            }
            proof {
                crate::rank9sel::lemma_prank_step(data, P, w as int, ew);
            }
            w = w + 1;
        }
        proof {
            assert(64 * nw >= s.len());
            crate::rank9sel::lemma_prank_past_end(s, P, 64 * (nw as int));
            assert(kd == total_ones(sp));
        }
        if cur.len() > 0 {
            proof {
                assert(dblock_cnt(total_ones(sp), binv@.len() as int) == cur@.len());
            }
            flush_block(&mut binv, &mut sinv, &mut over, &cur, Ghost(sp));
        }
        proof {
            let np = total_ones(sp);
            vstd::arithmetic::div_mod::lemma_fundamental_div_mod(np as int + 1023, 1024);
            assert(binv@.len() == dblocks_for(np)) by (nonlinear_arith)
                requires
                    np as int + 1023 == 1024 * ((np as int + 1023) / 1024) + (np as int + 1023)
                        % 1024,
                    0 <= (np as int + 1023) % 1024 < 1024,
                    dblocks_for(np) == (np + 1023) / 1024,
                    1024 * (binv@.len() - 1) < np <= 1024 * binv@.len() || (np == 0 && binv@.len()
                        == 0),
            ;
        }
        DArrayIndex { block_inventory: binv, subblock_inventory: sinv, overflow_positions: over, num_positions: kd }
    }

    /// Returns the position of the `(k+1)`-th target-polarity bit, or
    /// `None` if fewer exist.
    pub fn select(&self, data: &BitVectorData, k: usize) -> (r: Option<usize>)
        requires
            data.wf(),
            self.inv_for(data@),
        ensures
            select_answer_ok(pol_bits(data@, P), k as nat, r),
    {
        let ghost s = data@;
        let ghost sp = pol_bits(s, P);
        if k >= self.num_positions {
            return None;
        }
        let ghost np = total_ones(sp);
        let q = k / BLOCK_LEN;
        let rm = k % BLOCK_LEN;
        proof {
            vstd::arithmetic::div_mod::lemma_fundamental_div_mod(k as int, 1024);
            vstd::arithmetic::div_mod::lemma_fundamental_div_mod(np as int + 1023, 1024);
            assert((q as int) < dblocks_for(np)) by (nonlinear_arith)
                requires
                    k as int == 1024 * (q as int) + rm,
                    0 <= rm < 1024,
                    k < np,
                    np as int + 1023 == 1024 * ((np as int + 1023) / 1024) + (np as int + 1023)
                        % 1024,
                    0 <= (np as int + 1023) % 1024 < 1024,
                    dblocks_for(np) == (np + 1023) / 1024,
            ;
            assert(dblock_ok(
                sp,
                self.block_inventory@,
                self.subblock_inventory@,
                self.overflow_positions@,
                q as int,
            ));
            assert(rm < dblock_cnt(np, q as int));
        }
        let e = self.block_inventory[q];
        if e >= 0 {
            proof {
                let ee = self.block_inventory@[q as int];
                assert(is_select(
                    sp,
                    (1024 * (q as int) + rm) as nat,
                    self.overflow_positions@[ee + rm] as int,
                ));
                assert(ee + rm < self.overflow_positions@.len());
            }
            // Reading the length bounds the row index by a machine word.
            let avail: usize = self.overflow_positions.len();
            proof {
                assert((e as usize) + rm < avail);
            }
            let pos = self.overflow_positions[(e as usize) + rm];
            proof {
                assert(pos == self.overflow_positions@[self.block_inventory@[q as int] + rm]);
            }
            return Some(pos);
        }
        let first = ((-e) - 1) as usize;
        proof {
            assert(is_select(sp, (1024 * (q as int)) as nat, first as int));
        }
        if rm == 0 {
            return Some(first);
        }
        let sj = rm / SUBBLOCK_LEN;
        let rr0 = rm % SUBBLOCK_LEN;
        proof {
            vstd::arithmetic::div_mod::lemma_fundamental_div_mod(rm as int, 32);
            let cnt = dblock_cnt(np, q as int);
            vstd::arithmetic::div_mod::lemma_fundamental_div_mod(cnt + 31, 32);
            assert((sj as int) < (cnt + 31) / 32) by (nonlinear_arith)
                requires
                    rm as int == 32 * (sj as int) + rr0,
                    0 <= rr0 < 32,
                    rm < cnt,
                    cnt + 31 == 32 * ((cnt + 31) / 32) + (cnt + 31) % 32,
                    0 <= (cnt + 31) % 32 < 32,
            ;
            assert(32 * (q as int) + sj < self.subblock_inventory@.len());
            assert(32 * (q as int) <= k as int) by (nonlinear_arith)
                requires
                    k as int == 1024 * (q as int) + rm,
                    0 <= rm,
                    0 <= q,
            ;
        }
        let off = self.subblock_inventory[32 * q + sj] as usize;
        let ghost k0 = 1024 * (q as int) + 32 * (sj as int);
        proof {
            assert(is_select(sp, k0 as nat, first + off));
            assert(k as int - rr0 == k0);
        }
        let start = first + off;
        let mut w = start / 64;
        let sh = start % 64;
        let mut rr = rr0;
        proof {
            crate::bitseq::lemma_pos_decomp(start as int);
            crate::bit_vector::lemma_word_index_bound(start as int, s.len());
        }
        let ew0 = crate::bit_vector::polarity_word(data, w, P);
        let mask = crate::broadword::low_mask_exec(sh as u64);
        let mut word = ew0 & !mask;
        let ghost mut anchor: int = start as int;
        proof {
            assert forall|jj: u64| jj < 64 implies (#[trigger] nth_bit(word, jj) == (jj >= sh
                && nth_bit(ew0, jj))) by {
                lemma_nth_bit_mask_high(ew0, sh as u64, jj);
            }
            lemma_count_above(word, ew0, sh as u64, 64);
            crate::bitseq::lemma_eff_word_bits(data.words_seq(), s.len(), w as int, P);
            crate::rank9sel::lemma_prank_step(data, P, w as int, ew0);
            crate::bitseq::lemma_rank_count(sp, 64 * w, ew0, sh as int);
            assert(clip(sp, 64 * w) == 64 * w);
            assert(clip(sp, 64 * (w as int) + (sh as int)) == start);
            assert(rank_of(sp, anchor) == k0);
            assert(pop(word) == rank_of(sp, clip(sp, 64 * (w as int) + 64)) - rank_of(sp, anchor));
            assert(crate::rank9sel::prank(s, P, 64 * w) == rank_of(sp, 64 * w));
        }
        loop
            invariant
                data.wf(),
                s == data@,
                sp == pol_bits(s, P),
                k < total_ones(sp),
                w >= start as int / 64,
                64 * w <= anchor < s.len(),
                anchor < 64 * w + 64,
                w == start as int / 64 ==> anchor == start,
                w > start as int / 64 ==> anchor == 64 * w,
                rr <= k,
                rank_of(sp, anchor) == k as int - rr,
                forall|jj: u64|
                    jj < 64 ==> (#[trigger] nth_bit(word, jj) == (64 * w + jj < s.len() && 64 * w
                        + jj >= anchor && sp[64 * (w as int) + jj])),
                pop(word) == rank_of(sp, clip(sp, 64 * (w as int) + 64)) - rank_of(sp, anchor),
            decreases crate::bitseq::words_for(s.len()) - w,
        {
            let cnt = popcount(word);
            if rr < cnt {
                let j = select_in_word(word, rr);
                proof {
                    assert(nth_bit(word, j as u64));
                    assert(64 * w + j < s.len() && sp[64 * (w as int) + (j as int)]);
                }
                let pos = 64 * w + j;
                proof {
                    // Count the word's bits below `j` against the rank from
                    // the anchor.
                    let ew = crate::bitseq::eff_word(data.words_seq(), s.len(), w as int, P);
                    crate::bitseq::lemma_eff_word_bits(data.words_seq(), s.len(), w as int, P);
                    if anchor == 64 * w {
                        assert forall|jj: u64| jj < 64 implies nth_bit(word, jj) == nth_bit(
                            ew,
                            jj,
                        ) by {}
                        crate::broadword::lemma_count_ones_below_agree(word, ew, j as int);
                        crate::bitseq::lemma_rank_count(sp, 64 * w, ew, j as int);
                        assert(clip(sp, 64 * (w as int) + (j as int)) == pos);
                        assert(rank_of(sp, pos as int) == rank_of(sp, anchor) + count_ones_below(
                            word,
                            j as int,
                        ));
                    } else {
                        let shh = (anchor - 64 * w) as u64;
                        assert forall|jj: u64| jj < 64 implies nth_bit(word, jj) == (jj >= shh
                            && nth_bit(ew, jj)) by {}
                        lemma_count_above(word, ew, shh, j as int);
                        assert(j >= shh);
                        crate::bitseq::lemma_rank_count(sp, 64 * w, ew, j as int);
                        crate::bitseq::lemma_rank_count(sp, 64 * w, ew, shh as int);
                        assert(clip(sp, 64 * (w as int) + (j as int)) == pos);
                        assert(clip(sp, 64 * (w as int) + (shh as int)) == anchor);
                        assert(rank_of(sp, pos as int) == rank_of(sp, anchor) + count_ones_below(
                            word,
                            j as int,
                        ));
                    }
                    assert(rank_of(sp, pos as int) == k);
                    assert(is_select(sp, k as nat, pos as int));
                }
                return Some(pos);
            }
            rr = rr - cnt;
            proof {
                lemma_rank_of_monotone(sp, clip(sp, 64 * (w as int) + 64), sp.len() as int);
                if 64 * (w as int) + 64 >= s.len() {
                    assert(clip(sp, 64 * (w as int) + 64) == sp.len());
                    assert(k as int - rr == total_ones(sp));
                    assert(false);
                }
                assert(clip(sp, 64 * (w as int) + 64) == 64 * (w as int) + 64);
                crate::bit_vector::lemma_word_index_bound(64 * (w as int) + 64 - 1, s.len());
                crate::bitseq::lemma_word_pos(w as int + 1, 0);
                vstd::arithmetic::div_mod::lemma_fundamental_div_mod(
                    64 * (w as int) + 63,
                    64,
                );
                assert((64 * (w as int) + 63) / 64 == w) by (nonlinear_arith)
                    requires
                        64 * (w as int) + 63 == 64 * ((64 * (w as int) + 63) / 64) + (64 * (
                        w as int) + 63) % 64,
                        0 <= (64 * (w as int) + 63) % 64 < 64,
                ;
            }
            w = w + 1;
            proof {
                anchor = 64 * w;
            }
            proof {
                crate::bit_vector::lemma_word_index_bound(anchor, s.len());
                assert((64 * (w as int)) / 64 == w) by (nonlinear_arith);
            }
            let ew = crate::bit_vector::polarity_word(data, w, P);
            word = ew;
            proof {
                crate::bitseq::lemma_eff_word_bits(data.words_seq(), s.len(), w as int, P);
                crate::rank9sel::lemma_prank_step(data, P, w as int, ew);
                assert(crate::rank9sel::prank(s, P, 64 * w) == rank_of(sp, 64 * w));
                assert(pop(word) == rank_of(sp, clip(sp, 64 * (w as int) + 64)) - rank_of(
                    sp,
                    anchor,
                ));
            }
        }
    }
}

/// Constant-time select over a bit vector with the dense-array technique.
/// Select over set bits is always available; rank and select over unset
/// bits are optional sidecars.
pub struct DArray {
    bv: BitVectorData,
    s1: DArrayIndex<true>,
    s0: Option<DArrayIndex<false>>,
    r9: Option<Rank9SelIndex>,
}

impl View for DArray {
    type V = Seq<bool>;

    closed spec fn view(&self) -> Seq<bool> {
        self.bv@
    }
}

impl DArray {
    /// The data is well formed and every index present was built over it.
    pub closed spec fn wf(&self) -> bool {
        &&& self.bv.wf()
        &&& self.bv@.len() <= 0x7fff_ffff_ffff_ffff
        &&& self.s1.inv_for(self.bv@)
        &&& match self.s0 {
            Some(s0) => s0.inv_for(self.bv@),
            None => true,
        }
        &&& match self.r9 {
            Some(r9) => r9.inv_for(self.bv@),
            None => true,
        }
    }

    /// Whether the rank sidecar is present.
    pub closed spec fn rank_enabled(&self) -> bool {
        self.r9 is Some
    }

    /// Whether the zero-polarity select sidecar is present.
    pub closed spec fn select0_enabled(&self) -> bool {
        self.s0 is Some
    }

    /// Creates a new instance from input bits, with select1 support only.
    /// The bit count is bounded by a machine limit: inventory entries
    /// encode positions in signed 64-bit values.
    pub fn from_bits(bits: &[bool]) -> (r: Self)
        requires
            bits@.len() <= 0x7fff_ffff_ffff_ffff,
        ensures
            r.wf(),
            r@ == bits@,
            !r.rank_enabled(),
            !r.select0_enabled(),
    {
        let bv = BitVectorData::from_bits(bits);
        let s1 = DArrayIndex::<true>::build(&bv);
        Self { bv, s1, s0: None, r9: None }
    }

    /// Builds the sidecar enabling rank queries.
    #[must_use]
    pub fn enable_rank(self) -> (r: Self)
        requires
            self.wf(),
        ensures
            r.wf(),
            r@ == self@,
            r.rank_enabled(),
            r.select0_enabled() == self.select0_enabled(),
    {
        let r9 = Some(Rank9SelIndex::from_data(&self.bv, false, false));
        Self { bv: self.bv, s1: self.s1, s0: self.s0, r9 }
    }

    /// Builds the sidecar enabling select over unset bits.
    #[must_use]
    pub fn enable_select0(self) -> (r: Self)
        requires
            self.wf(),
        ensures
            r.wf(),
            r@ == self@,
            r.select0_enabled(),
            r.rank_enabled() == self.rank_enabled(),
    {
        let s0 = Some(DArrayIndex::<false>::build(&self.bv));
        Self { bv: self.bv, s1: self.s1, s0, r9: self.r9 }
    }

    /// Checks if the rank sidecar is present.
    pub fn has_rank(&self) -> (r: bool)
        ensures
            r == self.rank_enabled(),
    {
        self.r9.is_some()
    }

    /// Checks if the zero-polarity select sidecar is present.
    pub fn has_select0(&self) -> (r: bool)
        ensures
            r == self.select0_enabled(),
    {
        self.s0.is_some()
    }

    /// Returns a reference to the internal bit vector data.
    pub fn bit_vector(&self) -> (r: &BitVectorData)
        ensures
            r@ == self@,
    {
        &self.bv
    }

    /// Returns a reference to the internal select1 index.
    pub fn s1_index(&self) -> (r: &DArrayIndex<true>)
        ensures
            self.wf() ==> r.inv_for(self@),
    {
        &self.s1
    }

    /// Returns a reference to the internal select0 index, if present.
    pub fn s0_index(&self) -> (r: Option<&DArrayIndex<false>>)
        ensures
            r is Some <==> self.select0_enabled(),
    {
        self.s0.as_ref()
    }

    /// Returns a reference to the internal rank index, if present.
    pub fn r9_index(&self) -> (r: Option<&Rank9SelIndex>)
        ensures
            r is Some <==> self.rank_enabled(),
    {
        self.r9.as_ref()
    }

    /// Returns the number of bits stored.
    pub fn len(&self) -> (r: usize)
        ensures
            r == self@.len(),
    {
        self.bv.len()
    }

    /// Checks if the vector is empty.
    pub fn is_empty(&self) -> (r: bool)
        ensures
            r == (self@.len() == 0),
    {
        self.len() == 0
    }

    /// The bytes the data and every present index occupy.
    pub closed spec fn size_bytes_spec(&self) -> nat {
        8 * (self.bv.words_seq().len() + 2) + self.s1.size_bytes_spec() + (match self.s0 {
            Some(s0) => s0.size_bytes_spec(),
            None => 0,
        }) + (match self.r9 {
            Some(r9) => 8 * r9.size_words_spec(),
            None => 0,
        })
    }

    /// Returns the number of bytes of the data and all present indexes,
    /// saturating.
    pub fn size_in_bytes(&self) -> (r: usize)
        ensures
            r == if self.size_bytes_spec() <= usize::MAX {
                self.size_bytes_spec() as int
            } else {
                usize::MAX as int
            },
    {
        let mut total = self.bv.size_in_bytes();
        total = match total.checked_add(self.s1.size_in_bytes()) {
            Some(t) => t,
            None => return usize::MAX,
        };
        total = match &self.s0 {
            Some(s0) => match total.checked_add(s0.size_in_bytes()) {
                Some(t) => t,
                None => return usize::MAX,
            },
            None => total,
        };
        match &self.r9 {
            Some(r9) => match total.checked_add(r9.size_in_bytes()) {
                Some(t) => t,
                None => usize::MAX,
            },
            None => total,
        }
    }
}

impl crate::traits::Build for DArray {
    /// Creates a new vector from input bits. `with_select1` is accepted
    /// for interface parity; select1 support is always built. The other
    /// flags attach the rank and select0 sidecars. Never fails.
    fn build_from_bits(
        bits: &[bool],
        with_rank: bool,
        _with_select1: bool,
        with_select0: bool,
    ) -> (r: Result<Self, crate::error::Error>)
        ensures
            r.is_ok(),
            match r {
                Ok(v) => {
                    &&& v.wf()
                    &&& v@ == bits@
                    &&& v.rank_enabled() == with_rank
                    &&& v.select0_enabled() == with_select0
                },
                Err(_) => false,
            },
    {
        let mut da = Self::from_bits(bits);
        if with_rank {
            da = da.enable_rank();
        }
        if with_select0 {
            da = da.enable_select0();
        }
        Ok(da)
    }
}

impl crate::traits::NumBits for DArray {
    open spec fn counts_ready(&self) -> bool {
        self.wf()
    }

    fn num_bits(&self) -> (r: usize) {
        self.bv.len()
    }

    fn num_ones(&self) -> (r: usize) {
        proof {
            lemma_pol_bits_true(self@);
        }
        self.s1.num_positions(Ghost(self.bv@))
    }

    fn num_zeros(&self) -> (r: usize) {
        proof {
            lemma_pol_bits_true(self@);
            lemma_rank_of_le(self@, self@.len() as int);
        }
        let ones = self.s1.num_positions(Ghost(self.bv@));
        self.bv.len() - ones
    }
}

impl crate::traits::Access for DArray {
    open spec fn access_ready(&self) -> bool {
        self.wf()
    }

    fn access(&self, pos: usize) -> (r: Option<bool>) {
        self.bv.access(pos)
    }
}

impl crate::traits::Rank for DArray {
    open spec fn rank_ready(&self) -> bool {
        self.wf() && self.rank_enabled()
    }

    fn rank1(&self, pos: usize) -> (r: Option<usize>) {
        let r9 = self.r9.as_ref().unwrap();
        r9.rank1(&self.bv, pos)
    }

    fn rank0(&self, pos: usize) -> (r: Option<usize>) {
        let r9 = self.r9.as_ref().unwrap();
        r9.rank0(&self.bv, pos)
    }
}

impl crate::traits::Select for DArray {
    open spec fn select1_ready(&self) -> bool {
        self.wf()
    }

    open spec fn select0_ready(&self) -> bool {
        self.wf() && self.select0_enabled()
    }

    fn select1(&self, k: usize) -> (r: Option<usize>) {
        proof {
            lemma_pol_bits_true(self@);
        }
        let r = self.s1.select(&self.bv, k);
        proof {
            assert(pol_bits(self@, true) == self@);
        }
        r
    }

    fn select0(&self, k: usize) -> (r: Option<usize>) {
        let s0 = self.s0.as_ref().unwrap();
        s0.select(&self.bv, k)
    }
}

} // verus!
