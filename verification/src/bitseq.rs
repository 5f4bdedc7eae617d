//! The mathematical model of a packed bit sequence: the bit sequence read
//! from a sequence of words, rank and select as functions on `Seq<bool>`,
//! and the lemmas connecting word-level counting to sequence-level rank.

use vstd::prelude::*;

use crate::broadword::{count_ones_below, lemma_nth_bit_mask, lemma_nth_bit_not, low_mask, nth_bit};

verus! {

/// The bit at position `i` of a word sequence, little-endian within words.
pub open spec fn word_at(words: Seq<u64>, i: int) -> bool {
    nth_bit(words[i / 64], (i % 64) as u64)
}

/// The logical bit sequence of length `len` stored in `words`.
pub open spec fn bits_of(words: Seq<u64>, len: nat) -> Seq<bool> {
    Seq::new(len, |i: int| word_at(words, i))
}

/// The number of words needed to hold `len` bits.
pub open spec fn words_for(len: nat) -> nat {
    ((len + 63) / 64) as nat
}

/// The number of `true` bits among positions `[0, n)` of `s`.
pub open spec fn rank_of(s: Seq<bool>, n: int) -> nat
    decreases n,
{
    if n <= 0 {
        0
    } else {
        rank_of(s, n - 1) + (if s[n - 1] {
            1nat
        } else {
            0nat
        })
    }
}

/// The total number of `true` bits of `s`.
pub open spec fn total_ones(s: Seq<bool>) -> nat {
    rank_of(s, s.len() as int)
}

/// The sequence whose bit `i` says whether `s[i]` has polarity `p`.
pub open spec fn pol_bits(s: Seq<bool>, p: bool) -> Seq<bool> {
    Seq::new(s.len(), |i: int| s[i] == p)
}

/// `pos` is the position of the `(k+1)`-th `true` bit of `s` (zero-indexed).
pub open spec fn is_select(s: Seq<bool>, k: nat, pos: int) -> bool {
    &&& 0 <= pos < s.len()
    &&& s[pos]
    &&& rank_of(s, pos) == k
}

/// What a select query must answer: the selected position, or `None`
/// exactly when fewer than `k + 1` bits of the polarity exist.
pub open spec fn select_answer_ok(s: Seq<bool>, k: nat, r: Option<usize>) -> bool {
    match r {
        Some(p) => is_select(s, k, p as int),
        None => k >= total_ones(s),
    }
}

/// `n` clipped to the length of `s`.
pub open spec fn clip(s: Seq<bool>, n: int) -> int {
    if n <= s.len() {
        n
    } else {
        s.len() as int
    }
}

/// Rank never exceeds the number of positions counted.
pub proof fn lemma_rank_of_le(s: Seq<bool>, n: int)
    ensures
        rank_of(s, n) <= if n <= 0 {
            0
        } else {
            n as nat
        },
    decreases n,
{
    if n > 0 {
        lemma_rank_of_le(s, n - 1);
    }
}

/// Rank is monotone, rising by at most one per position.
pub proof fn lemma_rank_of_monotone(s: Seq<bool>, a: int, b: int)
    requires
        a <= b,
    ensures
        rank_of(s, a) <= rank_of(s, b),
        rank_of(s, b) - rank_of(s, a) <= b - a,
    decreases b - a,
{
    if a < b {
        lemma_rank_of_monotone(s, a, b - 1);
    }
}

/// Position arithmetic: a position split into its word and in-word offset.
pub proof fn lemma_pos_decomp(i: int)
    requires
        0 <= i,
    ensures
        i == 64 * (i / 64) + (i % 64),
        0 <= i % 64 < 64,
        0 <= i / 64,
{
    vstd::arithmetic::div_mod::lemma_fundamental_div_mod(i, 64);
    vstd::arithmetic::div_mod::lemma_div_pos_is_pos(i, 64);
}

/// Position arithmetic: word `w` offset `j` is position `64 w + j`.
pub proof fn lemma_word_pos(w: int, j: int)
    by (nonlinear_arith)
    requires
        0 <= w,
        0 <= j < 64,
    ensures
        (64 * w + j) / 64 == w,
        (64 * w + j) % 64 == j,
{
}

/// The word a scan reads for polarity `p` at word index `w`: the raw word
/// for `p = true`, its complement for `p = false`, with bits at or beyond
/// `len` masked to zero.
pub open spec fn eff_word(words: Seq<u64>, len: nat, w: int, p: bool) -> u64 {
    if 64 * w >= len {
        0u64
    } else {
        let raw = if p {
            words[w]
        } else {
            !words[w]
        };
        if 64 * w + 64 <= len {
            raw
        } else {
            raw & low_mask((len - 64 * w) as u64)
        }
    }
}

/// Each bit of the effective word is the polarity of the stored bit at the
/// matching position, and zero beyond `len`.
pub proof fn lemma_eff_word_bits(words: Seq<u64>, len: nat, w: int, p: bool)
    requires
        0 <= w,
        64 * w < len ==> w < words.len(),
    ensures
        forall|j: u64|
            j < 64 ==> (#[trigger] nth_bit(eff_word(words, len, w, p), j) == (64 * w + j < len
                && pol_bits(bits_of(words, len), p)[64 * w + j])),
{
    let ew = eff_word(words, len, w, p);
    let s = pol_bits(bits_of(words, len), p);
    assert forall|j: u64| j < 64 implies (#[trigger] nth_bit(ew, j) == (64 * w + j < len && s[64
        * w + j])) by {
        if 64 * w >= len {
            assert(!nth_bit(0u64, j)) by (bit_vector);
        } else {
            let raw = if p {
                words[w]
            } else {
                !words[w]
            };
            lemma_word_pos(w, j as int);
            if !p {
                lemma_nth_bit_not(words[w], j);
            }
            if 64 * w + 64 <= len {
                assert(nth_bit(ew, j) == nth_bit(raw, j));
                assert(s[64 * w + j] == (word_at(words, 64 * w + j) == p));
            } else {
                let rem = (len - 64 * w) as u64;
                lemma_nth_bit_mask(raw, rem, j);
            }
        }
    }
}

/// The workhorse: counting set bits of a word whose bits mirror `s` from
/// `base` advances rank from `base` by exactly that count.
pub proof fn lemma_rank_count(s: Seq<bool>, base: int, ew: u64, j: int)
    requires
        0 <= base <= s.len(),
        0 <= j <= 64,
        forall|jj: u64|
            jj < 64 ==> (#[trigger] nth_bit(ew, jj) == (base + jj < s.len() && s[base + jj])),
    ensures
        rank_of(s, clip(s, base + j)) == rank_of(s, base) + count_ones_below(ew, j),
    decreases j,
{
    if j > 0 {
        lemma_rank_count(s, base, ew, j - 1);
        assert(nth_bit(ew, (j - 1) as u64) == (base + (j - 1) < s.len() && s[base + j - 1]));
        if base + j <= s.len() {
            assert(clip(s, base + j) == base + j);
            assert(rank_of(s, base + j) == rank_of(s, base + j - 1) + (if s[base + j - 1] {
                1nat
            } else {
                0nat
            }));
        } else {
            assert(clip(s, base + j) == s.len());
            assert(clip(s, base + j - 1) == s.len());
            assert(!nth_bit(ew, (j - 1) as u64));
        }
    }
}

/// A select position is unique.
pub proof fn lemma_select_unique(s: Seq<bool>, k: nat, p1: int, p2: int)
    requires
        is_select(s, k, p1),
        is_select(s, k, p2),
    ensures
        p1 == p2,
{
    if p1 < p2 {
        assert(rank_of(s, p1 + 1) == k + 1);
        lemma_rank_of_monotone(s, p1 + 1, p2);
    }
    if p2 < p1 {
        assert(rank_of(s, p2 + 1) == k + 1);
        lemma_rank_of_monotone(s, p2 + 1, p1);
    }
}

/// Every `k` below the rank of a prefix has a select position in it.
pub proof fn lemma_select_exists(s: Seq<bool>, n: int, k: nat)
    requires
        0 <= n <= s.len(),
        k < rank_of(s, n),
    ensures
        exists|p: int| is_select(s, k, p) && p < n,
    decreases n,
{
    if n > 0 {
        if s[n - 1] && rank_of(s, n - 1) == k {
            assert(is_select(s, k, n - 1));
        } else {
            assert(k < rank_of(s, n - 1));
            lemma_select_exists(s, n - 1, k);
        }
    }
}

/// A selected bit lies strictly below any prefix that counts more than `k`.
pub proof fn lemma_select_below(s: Seq<bool>, k: nat, pos: int, n: int)
    requires
        is_select(s, k, pos),
        0 <= n <= s.len(),
        k < rank_of(s, n),
    ensures
        pos < n,
{
    if pos >= n {
        lemma_rank_of_monotone(s, n, pos);
    }
}

/// A selected bit lies at or beyond any prefix that counts at most `k`.
pub proof fn lemma_select_at_least(s: Seq<bool>, k: nat, pos: int, n: int)
    requires
        is_select(s, k, pos),
        0 <= n <= s.len(),
        rank_of(s, n) <= k,
    ensures
        pos >= n,
{
    if pos < n {
        assert(rank_of(s, pos + 1) == k + 1);
        lemma_rank_of_monotone(s, pos + 1, n);
    }
}

/// Selected positions are ordered as their indices are.
pub proof fn lemma_select_ordered(s: Seq<bool>, k1: nat, p1: int, k2: nat, p2: int)
    requires
        is_select(s, k1, p1),
        is_select(s, k2, p2),
        k1 < k2,
    ensures
        p1 < p2,
{
    if p1 >= p2 {
        lemma_rank_of_monotone(s, p2, p1);
    }
}

/// Any two answers meeting the select contract for the same sequence and
/// index are the same answer: implementations sharing the contract agree.
pub proof fn lemma_select_answer_unique(s: Seq<bool>, k: nat, r1: Option<usize>, r2: Option<usize>)
    requires
        select_answer_ok(s, k, r1),
        select_answer_ok(s, k, r2),
    ensures
        r1 == r2,
{
    match (r1, r2) {
        (Some(p1), Some(p2)) => {
            lemma_select_unique(s, k, p1 as int, p2 as int);
        },
        (Some(p1), None) => {
            assert(rank_of(s, p1 + 1) == k + 1);
            lemma_rank_of_monotone(s, p1 as int + 1, s.len() as int);
        },
        (None, Some(p2)) => {
            assert(rank_of(s, p2 + 1) == k + 1);
            lemma_rank_of_monotone(s, p2 as int + 1, s.len() as int);
        },
        (None, None) => {},
    }
}

/// Selecting with polarity `true` is selecting the bits themselves.
pub proof fn lemma_pol_bits_true(s: Seq<bool>)
    ensures
        pol_bits(s, true) == s,
{
    assert(pol_bits(s, true) =~= s);
}

/// At every prefix, ones and zeros together count the prefix length.
pub proof fn lemma_rank_split(s: Seq<bool>, n: int)
    requires
        0 <= n <= s.len(),
    ensures
        rank_of(s, n) + rank_of(pol_bits(s, false), n) == n,
    decreases n,
{
    if n > 0 {
        lemma_rank_split(s, n - 1);
    }
}

} // verus!
