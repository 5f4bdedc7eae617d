//! The universal counting laws of rank and select, stated over the
//! mathematical model every query contract in this crate speaks of.
//! Because each implementation's contract pins its answers to these
//! functions of the stored bit sequence alone, the laws carry over to
//! every index.

use vstd::prelude::*;

use crate::bitseq::{
    bits_of, clip, eff_word, is_select, lemma_eff_word_bits, lemma_pol_bits_true,
    lemma_rank_count, lemma_rank_split, lemma_select_answer_unique, lemma_select_exists,
    lemma_select_unique, pol_bits, rank_of, select_answer_ok, total_ones, words_for,
};
use crate::broadword::pop;

verus! {

/// Ones and zeros partition every prefix: for all `i` up to the length,
/// `rank1(i) + rank0(i) == i`.
pub proof fn law_rank_partition(s: Seq<bool>, i: int)
    requires
        0 <= i <= s.len(),
    ensures
        rank_of(s, i) + rank_of(pol_bits(s, false), i) == i,
{
    lemma_rank_split(s, i);
}

/// Rank inverts select: the `(k+1)`-th bit of a polarity is a bit of that
/// polarity, exactly `k` of the polarity precede it, and one more lies
/// below the position after it. Instantiated with the stored bits this is
/// the law for select1; with the complement polarity, for select0.
pub proof fn law_rank_select_inverse(sp: Seq<bool>, k: nat, pos: int)
    requires
        is_select(sp, k, pos),
    ensures
        sp[pos],
        rank_of(sp, pos) == k,
        rank_of(sp, pos + 1) == k + 1,
{
}

/// A select query succeeds exactly on indices below the polarity's total
/// count, and its answer exists and is unique.
pub proof fn law_select_total(sp: Seq<bool>, k: nat)
    requires
        k < total_ones(sp),
    ensures
        exists|pos: int| is_select(sp, k, pos),
        forall|p1: int, p2: int| is_select(sp, k, p1) && is_select(sp, k, p2) ==> p1 == p2,
{
    lemma_select_exists(sp, sp.len() as int, k);
    assert forall|p1: int, p2: int| is_select(sp, k, p1) && is_select(sp, k, p2) implies p1
        == p2 by {
        lemma_select_unique(sp, k, p1, p2);
    }
}

/// Implementations agree: any two answers meeting the select contract for
/// the same bit sequence and index are equal, so every pair of indexes
/// whose contracts pin their answers to the model answers alike.
pub proof fn law_index_agreement(sp: Seq<bool>, k: nat, r1: Option<usize>, r2: Option<usize>)
    requires
        select_answer_ok(sp, k, r1),
        select_answer_ok(sp, k, r2),
    ensures
        r1 == r2,
{
    lemma_select_answer_unique(sp, k, r1, r2);
}

/// Serialization round trip: two word buffers with the same little-endian
/// byte serialization store the same bit sequence at every length, so a
/// bit vector rebuilt from its own serialized bytes is bit-equal to the
/// original.
pub proof fn law_bytes_roundtrip(w1: Seq<u64>, w2: Seq<u64>, len: nat)
    requires
        crate::views::le_bytes_of(w1) == crate::views::le_bytes_of(w2),
    ensures
        bits_of(w1, len) == bits_of(w2, len),
{
    crate::views::lemma_le_bytes_injective(w1, w2);
}

/// The sum of the word population counts over the first `w` scanned words,
/// with bits at or beyond the length masked to zero.
pub open spec fn sum_pops(words: Seq<u64>, len: nat, w: int) -> nat
    decreases w,
{
    if w <= 0 {
        0
    } else {
        sum_pops(words, len, w - 1) + pop(eff_word(words, len, w - 1, true))
    }
}

/// The total count of set bits is the sum of word popcounts with bits at
/// or beyond the length masked to zero.
pub proof fn law_num_ones_popcount(words: Seq<u64>, len: nat)
    requires
        words_for(len) <= words.len(),
    ensures
        total_ones(bits_of(words, len)) == sum_pops(words, len, words_for(len) as int),
{
    let s = bits_of(words, len);
    lemma_pol_bits_true(s);
    law_sum_pops_rec(words, len, words_for(len) as int);
    vstd::arithmetic::div_mod::lemma_fundamental_div_mod(len as int + 63, 64);
    assert(64 * words_for(len) >= len) by (nonlinear_arith)
        requires
            len as int + 63 == 64 * ((len as int + 63) / 64) + (len as int + 63) % 64,
            0 <= (len as int + 63) % 64 < 64,
            words_for(len) == (len + 63) / 64,
    ;
    assert(clip(s, 64 * (words_for(len) as int)) == s.len());
}

proof fn law_sum_pops_rec(words: Seq<u64>, len: nat, w: int)
    requires
        0 <= w,
        words_for(len) <= words.len(),
        w <= words_for(len),
    ensures
        rank_of(bits_of(words, len), clip(bits_of(words, len), 64 * w)) == sum_pops(
            words,
            len,
            w,
        ),
    decreases w,
{
    let s = bits_of(words, len);
    if w > 0 {
        law_sum_pops_rec(words, len, w - 1);
        let ew = eff_word(words, len, w - 1, true);
        if 64 * (w - 1) < len {
            crate::bit_vector::lemma_word_index_bound(64 * (w - 1), len);
            vstd::arithmetic::div_mod::lemma_fundamental_div_mod(64 * (w - 1), 64);
            assert((64 * (w - 1)) / 64 == w - 1) by (nonlinear_arith);
            lemma_eff_word_bits(words, len, w - 1, true);
            lemma_pol_bits_true(s);
            lemma_rank_count(s, 64 * (w - 1), ew, 64);
            assert(clip(s, 64 * (w - 1)) == 64 * (w - 1));
        } else {
            assert(ew == 0u64);
            assert(forall|j: u64| j < 64 ==> !#[trigger] crate::broadword::nth_bit(0u64, j))
                by (bit_vector);
            crate::broadword::lemma_count_ones_below_zero_range(0u64, 0, 64);
            assert(pop(ew) == 0);
            assert(clip(s, 64 * (w - 1)) == s.len());
            assert(clip(s, 64 * w) == s.len());
        }
    }
}

} // verus!
