//! Word-level bit primitives: population count and in-word selection,
//! together with the bit-level specification functions the rest of the
//! crate states its contracts over.

use vstd::prelude::*;

verus! {

/// The number of bits in a machine word.
pub const WORD_LEN: usize = 64;

/// The `i`-th bit of `w`, little-endian: bit `i` is `(w >> i) & 1`.
pub open spec fn nth_bit(w: u64, i: u64) -> bool {
    (w >> i) & 1u64 == 1u64
}

/// The number of set bits of `w` among bit positions `[0, n)`.
pub open spec fn count_ones_below(w: u64, n: int) -> nat
    decreases n,
{
    if n <= 0 {
        0
    } else {
        count_ones_below(w, n - 1) + (if nth_bit(w, (n - 1) as u64) {
            1nat
        } else {
            0nat
        })
    }
}

/// The population count of a word.
pub open spec fn pop(w: u64) -> nat {
    count_ones_below(w, 64)
}

/// A word whose low `n` bits are set and all others clear.
pub open spec fn low_mask(n: u64) -> u64 {
    if n >= 64 {
        u64::MAX
    } else {
        ((1u64 << n) - 1) as u64
    }
}

/// Bits of a masked word: `w & low_mask(n)` keeps exactly the bits below `n`.
pub proof fn lemma_nth_bit_mask(w: u64, n: u64, j: u64)
    by (bit_vector)
    requires
        j < 64,
    ensures
        nth_bit(w & low_mask(n), j) == (j < n && nth_bit(w, j)),
{
}

/// Bits of a complemented word.
pub proof fn lemma_nth_bit_not(w: u64, j: u64)
    by (bit_vector)
    requires
        j < 64,
    ensures
        nth_bit(!w, j) == !nth_bit(w, j),
{
}

/// Bits of a bitwise or.
pub proof fn lemma_nth_bit_or(a: u64, b: u64, j: u64)
    by (bit_vector)
    requires
        j < 64,
    ensures
        nth_bit(a | b, j) == (nth_bit(a, j) || nth_bit(b, j)),
{
}

/// Bits of a left shift.
pub proof fn lemma_nth_bit_shl(w: u64, s: u64, j: u64)
    by (bit_vector)
    requires
        j < 64,
        s < 64,
    ensures
        nth_bit(w << s, j) == (j >= s && nth_bit(w, (j - s) as u64)),
{
}

/// Bits of a right shift.
pub proof fn lemma_nth_bit_shr(w: u64, s: u64, j: u64)
    by (bit_vector)
    requires
        j < 64,
        s < 64,
    ensures
        nth_bit(w >> s, j) == (j + s < 64 && nth_bit(w, (j + s) as u64)),
{
}

/// Returns a word whose low `n` bits are set and all others clear.
pub fn low_mask_exec(n: u64) -> (r: u64)
    ensures
        r == low_mask(n),
{
    if n >= 64 {
        u64::MAX
    } else {
        proof {
            assert(n < 64 ==> (1u64 << n) >= 1) by (bit_vector);
        }
        (1u64 << n) - 1
    }
}

proof fn lemma_word_ext_step(a: u64, b: u64, n: u64)
    by (bit_vector)
    requires
        n < 64,
        a & low_mask(n) == b & low_mask(n),
        ((a >> n) & 1u64) == ((b >> n) & 1u64),
    ensures
        a & low_mask((n + 1) as u64) == b & low_mask((n + 1) as u64),
{
}

proof fn lemma_word_ext_rec(a: u64, b: u64, n: u64)
    requires
        n <= 64,
        forall|j: u64| j < n ==> nth_bit(a, j) == nth_bit(b, j),
    ensures
        a & low_mask(n) == b & low_mask(n),
    decreases n,
{
    if n == 0 {
        assert(a & low_mask(0) == b & low_mask(0)) by (bit_vector);
    } else {
        lemma_word_ext_rec(a, b, (n - 1) as u64);
        let j = (n - 1) as u64;
        assert(nth_bit(a, j) == nth_bit(b, j));
        assert(((a >> j) & 1u64) == ((b >> j) & 1u64)) by (bit_vector)
            requires
                ((a >> j) & 1u64 == 1u64) == ((b >> j) & 1u64 == 1u64),
        ;
        lemma_word_ext_step(a, b, j);
    }
}

/// Two words with the same 64 bits are the same word.
pub proof fn lemma_word_ext(a: u64, b: u64)
    requires
        forall|j: u64| j < 64 ==> nth_bit(a, j) == nth_bit(b, j),
    ensures
        a == b,
{
    lemma_word_ext_rec(a, b, 64);
    assert(a & low_mask(64) == a) by (bit_vector);
    assert(b & low_mask(64) == b) by (bit_vector);
}

/// Counting set bits below `n` never exceeds `n`.
pub proof fn lemma_count_ones_below_le(w: u64, n: int)
    ensures
        count_ones_below(w, n) <= if n <= 0 {
            0
        } else {
            n as nat
        },
    decreases n,
{
    if n > 0 {
        lemma_count_ones_below_le(w, n - 1);
    }
}

/// Counting set bits is monotone in the bound.
pub proof fn lemma_count_ones_below_monotone(w: u64, a: int, b: int)
    requires
        a <= b,
    ensures
        count_ones_below(w, a) <= count_ones_below(w, b),
        count_ones_below(w, b) - count_ones_below(w, a) <= b - a,
    decreases b - a,
{
    if a < b {
        lemma_count_ones_below_monotone(w, a, b - 1);
    }
}

/// Two words that agree on all bits below `n` have the same count below `n`.
pub proof fn lemma_count_ones_below_agree(a: u64, b: u64, n: int)
    requires
        n <= 64,
        forall|j: u64| j < n ==> nth_bit(a, j) == nth_bit(b, j),
    ensures
        count_ones_below(a, n) == count_ones_below(b, n),
    decreases n,
{
    if n > 0 {
        lemma_count_ones_below_agree(a, b, n - 1);
    }
}

/// A word with no set bits in `[a, b)` counts the same below `b` as below `a`.
pub proof fn lemma_count_ones_below_zero_range(w: u64, a: int, b: int)
    requires
        a <= b <= 64,
        forall|j: u64| a <= j < b ==> !nth_bit(w, j),
    ensures
        count_ones_below(w, b) == count_ones_below(w, a),
    decreases b - a,
{
    if a < b {
        lemma_count_ones_below_zero_range(w, a, b - 1);
    }
}

/// The population count of a masked word is the count below the mask width.
pub proof fn lemma_pop_mask(w: u64, n: u64)
    requires
        n <= 64,
    ensures
        pop(w & low_mask(n)) == count_ones_below(w, n as int),
{
    let m = (w & low_mask(n)) as u64;
    assert forall|j: u64| j < n implies nth_bit(m, j) == nth_bit(w, j) by {
        lemma_nth_bit_mask(w, n, j);
    }
    assert forall|j: u64| n <= j < 64 implies !nth_bit(m, j) by {
        lemma_nth_bit_mask(w, n, j);
    }
    lemma_count_ones_below_zero_range(m, n as int, 64);
    lemma_count_ones_below_agree(m, w, n as int);
}

/// Returns the number of set bits in `w`.
pub fn popcount(w: u64) -> (r: usize)
    ensures
        r == pop(w),
        r <= 64,
{
    let mut r: usize = 0;
    let mut i: usize = 0;
    while i < 64
        invariant
            i <= 64,
            r == count_ones_below(w, i as int),
            r <= i,
        decreases 64 - i,
    {
        if (w >> (i as u64)) & 1u64 == 1u64 {
            r = r + 1;
        }
        assert(count_ones_below(w, i + 1) == count_ones_below(w, i as int) + (if nth_bit(w, i as u64) {
            1nat
        } else {
            0nat
        }));
        i = i + 1;
    }
    r
}

/// Returns the position of the `(k+1)`-th set bit of `w` (zero-indexed).
pub fn select_in_word(w: u64, k: usize) -> (r: usize)
    requires
        k < pop(w),
    ensures
        r < 64,
        nth_bit(w, r as u64),
        count_ones_below(w, r as int) == k,
{
    let mut i: usize = 0;
    let mut cnt: usize = 0;
    while i < 64
        invariant
            i <= 64,
            cnt == count_ones_below(w, i as int),
            cnt <= k,
            k < pop(w),
        decreases 64 - i,
    {
        assert(count_ones_below(w, i + 1) == count_ones_below(w, i as int) + (if nth_bit(w, i as u64) {
            1nat
        } else {
            0nat
        }));
        if (w >> (i as u64)) & 1u64 == 1u64 {
            if cnt == k {
                return i;
            }
            cnt = cnt + 1;
        }
        i = i + 1;
    }
    proof {
        assert(false);
    }
    0
}

/// Bits of a word with its low bits masked off.
pub proof fn lemma_nth_bit_mask_high(w: u64, n: u64, j: u64)
    by (bit_vector)
    requires
        j < 64,
    ensures
        nth_bit(w & !low_mask(n), j) == (j >= n && nth_bit(w, j)),
{
}

/// Counting bits of a word whose low bits were masked off: what remains
/// above the cut.
pub proof fn lemma_count_above(a: u64, b: u64, sh: u64, n: int)
    requires
        n <= 64,
        forall|j: u64| j < 64 ==> nth_bit(a, j) == (j >= sh && nth_bit(b, j)),
    ensures
        count_ones_below(a, n) == count_ones_below(b, n) - count_ones_below(
            b,
            if n <= sh {
                n
            } else {
                sh as int
            },
        ),
    decreases n,
{
    if n > 0 {
        lemma_count_above(a, b, sh, n - 1);
    }
}

} // verus!
