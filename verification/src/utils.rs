//! Small numeric helpers: the bit width needed to store a value, and
//! ceiled division.

use vstd::prelude::*;

use vstd::arithmetic::power2::{lemma2_to64, lemma2_to64_rest, lemma_pow2_strictly_increases, pow2};

verus! {

/// The length in bits of `x`: the number of bits up to and including its
/// most significant set bit; zero for zero.
pub open spec fn bit_len(x: u64) -> nat
    decreases x,
{
    if x == 0 {
        0
    } else {
        1 + bit_len(x / 2)
    }
}

/// The number of bits needed to represent `x`, with zero needing one bit.
pub open spec fn needed_bits_of(x: u64) -> nat {
    if x == 0 {
        1
    } else {
        bit_len(x)
    }
}

/// A value is strictly below two to its bit length.
pub proof fn lemma_bit_len_bound(x: u64)
    ensures
        x < pow2(bit_len(x)),
    decreases x,
{
    if x == 0 {
        lemma2_to64();
    } else {
        lemma_bit_len_bound(x / 2);
        assert(pow2(bit_len(x)) == 2 * pow2(bit_len(x / 2))) by {
            vstd::arithmetic::power2::lemma_pow2_unfold(bit_len(x));
        }
    }
}

/// A nonzero value is at least two to one less than its bit length.
pub proof fn lemma_bit_len_lower(x: u64)
    requires
        x != 0,
    ensures
        pow2((bit_len(x) - 1) as nat) <= x,
    decreases x,
{
    if x / 2 == 0 {
        vstd::arithmetic::div_mod::lemma_fundamental_div_mod(x as int, 2);
        assert(x == 1);
        lemma2_to64();
        assert(bit_len(1) == 1 + bit_len(0));
    } else {
        lemma_bit_len_lower(x / 2);
        assert(pow2((bit_len(x) - 1) as nat) == 2 * pow2((bit_len(x / 2) - 1) as nat)) by {
            vstd::arithmetic::power2::lemma_pow2_unfold((bit_len(x) - 1) as nat);
        }
        assert(2 * (x as int / 2) <= x) by {
            vstd::arithmetic::div_mod::lemma_fundamental_div_mod(x as int, 2);
        }
    }
}

/// Bit length is monotone.
pub proof fn lemma_bit_len_monotone(x: u64, y: u64)
    requires
        x <= y,
    ensures
        bit_len(x) <= bit_len(y),
    decreases y,
{
    if x != 0 {
        lemma_bit_len_monotone(x / 2, y / 2);
    }
}

/// A value below two to `n` has bit length at most `n`.
pub proof fn lemma_bit_len_le(x: u64, n: nat)
    requires
        x < pow2(n),
    ensures
        bit_len(x) <= n,
    decreases x,
{
    if x != 0 {
        if n == 0 {
            lemma2_to64();
        } else {
            assert(pow2(n) == 2 * pow2((n - 1) as nat)) by {
                vstd::arithmetic::power2::lemma_pow2_unfold(n);
            }
            lemma_bit_len_le(x / 2, (n - 1) as nat);
        }
    }
}

/// Every value has bit length at most 64.
pub proof fn lemma_bit_len_le_64(x: u64)
    ensures
        bit_len(x) <= 64,
{
    lemma2_to64();
    lemma2_to64_rest();
    lemma_bit_len_le(x, 64);
}

/// A value fits in `w` bits: every bit at or above `w` is clear.
pub open spec fn fits_width(v: u64, w: nat) -> bool {
    v < pow2(w)
}

/// Shifting out `w` low bits is the zero test of `fits_width` for `w < 64`.
pub proof fn lemma_fits_width_shr(v: u64, w: u64)
    requires
        w < 64,
    ensures
        (v >> w == 0) <==> fits_width(v, w as nat),
{
    vstd::bits::lemma_u64_shr_is_div(v, w);
    vstd::arithmetic::power2::lemma_pow2_pos(w as nat);
    if v < pow2(w as nat) {
        vstd::arithmetic::div_mod::lemma_basic_div(v as int, pow2(w as nat) as int);
    }
    if v >= pow2(w as nat) {
        vstd::arithmetic::div_mod::lemma_div_non_zero(v as int, pow2(w as nat) as int);
    }
}

/// Everything fits in 64 bits.
pub proof fn lemma_fits_width_64(v: u64)
    ensures
        fits_width(v, 64),
{
    lemma2_to64();
    lemma2_to64_rest();
}

/// A value fits its own needed width, and the needed width is minimal
/// among widths that fit nonzero values.
pub proof fn lemma_needed_bits_fits(x: u64)
    ensures
        fits_width(x, needed_bits_of(x)),
        1 <= needed_bits_of(x) <= 64,
{
    lemma_bit_len_bound(x);
    lemma_bit_len_le_64(x);
    if x == 0 {
        lemma2_to64();
    }
    if bit_len(x) == 0 {
        lemma2_to64();
        if needed_bits_of(x) == 1 {
            lemma_pow2_strictly_increases(0, 1);
        }
    }
}

/// Returns the number of bits needed to represent `x` (one for zero).
pub fn needed_bits(x: u64) -> (r: usize)
    ensures
        r == needed_bits_of(x),
        1 <= r <= 64,
{
    proof {
        lemma_bit_len_le_64(x);
    }
    let mut w: usize = 0;
    let mut y: u64 = x;
    while y != 0
        invariant
            bit_len(x) == w + bit_len(y),
            w <= 64,
        decreases y,
    {
        assert(y >> 1u64 == y / 2) by (bit_vector);
        proof {
            if w == 64 {
                lemma_bit_len_le_64(x);
            }
        }
        y = y >> 1u64;
        w = w + 1;
    }
    if w == 0 {
        1
    } else {
        w
    }
}

/// Returns `a / b` rounded up.
pub fn ceiled_divide(a: usize, b: usize) -> (r: usize)
    requires
        b > 0,
    ensures
        r == (a + b - 1) / (b as int),
        r * b >= a,
        a > 0 ==> (r - 1) * b < a,
{
    let q = a / b;
    let rem = a % b;
    proof {
        vstd::arithmetic::div_mod::lemma_fundamental_div_mod(a as int, b as int);
        if rem != 0 {
            assert((a + b - 1) / (b as int) == q + 1) by (nonlinear_arith)
                requires
                    b > 0,
                    a == (b as int) * (q as int) + rem,
                    0 < rem < b,
                    q == a as int / b as int,
            ;
            assert((q + 1) * b >= a && q * b < a) by (nonlinear_arith)
                requires
                    b > 0,
                    a == (b as int) * (q as int) + rem,
                    0 < rem < b,
            ;
        } else {
            assert((a + b - 1) / (b as int) == q) by (nonlinear_arith)
                requires
                    b > 0,
                    a == (b as int) * (q as int),
                    q == a as int / b as int,
            ;
            assert(q * b >= a && (a > 0 ==> (q - 1) * b < a)) by (nonlinear_arith)
                requires
                    b > 0,
                    a == (b as int) * (q as int),
            ;
        }
    }
    if rem != 0 {
        proof {
            assert(q < a) by (nonlinear_arith)
                requires
                    b > 0,
                    a == (b as int) * (q as int) + rem,
                    0 < rem < b,
            ;
        }
        q + 1
    } else {
        q
    }
}

} // verus!
