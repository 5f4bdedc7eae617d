//! Compact vector: a packed integer array in which every element occupies
//! the same fixed number of bits.

use vstd::prelude::*;

use crate::bit_vector::{BitVector, BitVectorBuilder, BitVectorData, NoIndex};
use crate::broadword::{lemma_nth_bit_or, lemma_word_ext, nth_bit};
use crate::error::Error;
use crate::utils::{fits_width, lemma_fits_width_64, lemma_fits_width_shr, lemma_needed_bits_fits};
use crate::views::{bytes_seq, bytes_words_ok, le_bytes_of};

verus! {

/// The integer stored in bits `[base, base + n)` of `s`, little-endian.
pub open spec fn int_from_bits(s: Seq<bool>, base: int, n: int) -> u64
    decreases n,
{
    if n <= 0 {
        0u64
    } else {
        int_from_bits(s, base, n - 1) | (if s[base + (n - 1)] {
            1u64 << ((n - 1) as u64)
        } else {
            0u64
        })
    }
}

/// Bit `j` of the stored integer is the stored bit at offset `j`.
pub proof fn lemma_int_from_bits_bit(s: Seq<bool>, base: int, n: int, j: u64)
    requires
        0 <= n <= 64,
        j < 64,
    ensures
        nth_bit(int_from_bits(s, base, n), j) == (j < n && s[base + j]),
    decreases n,
{
    if n <= 0 {
        assert(!nth_bit(0u64, j)) by (bit_vector);
    } else {
        lemma_int_from_bits_bit(s, base, n - 1, j);
        let prev = int_from_bits(s, base, n - 1);
        let m = (n - 1) as u64;
        let one = (1u64 << m) as u64;
        lemma_nth_bit_or(prev, if s[base + (n - 1)] {
            one
        } else {
            0u64
        }, j);
        assert(m < 64 ==> (nth_bit((1u64 << m) as u64, j) == (j == m))) by (bit_vector)
            requires
                j < 64,
        ;
        assert(!nth_bit(0u64, j)) by (bit_vector);
    }
}

/// A value whose bits match the stored bits is the stored integer.
pub proof fn lemma_int_from_bits_eq(s: Seq<bool>, base: int, n: int, v: u64)
    requires
        0 <= n <= 64,
        forall|j: u64| j < 64 ==> (#[trigger] nth_bit(v, j) == (j < n && s[base + j])),
    ensures
        v == int_from_bits(s, base, n),
{
    assert forall|j: u64| j < 64 implies nth_bit(v, j) == nth_bit(int_from_bits(s, base, n), j) by {
        lemma_int_from_bits_bit(s, base, n, j);
    }
    lemma_word_ext(v, int_from_bits(s, base, n));
}

/// The stored integer depends only on the bits of its own range.
pub proof fn lemma_int_from_bits_agree(s1: Seq<bool>, s2: Seq<bool>, base: int, n: int)
    requires
        forall|j: int| 0 <= j < n ==> #[trigger] s1[base + j] == s2[base + j],
    ensures
        int_from_bits(s1, base, n) == int_from_bits(s2, base, n),
    decreases n,
{
    if n > 0 {
        lemma_int_from_bits_agree(s1, s2, base, n - 1);
    }
}

/// A value that fits `n` bits has no set bit at or above `n`.
proof fn lemma_fits_high_bits(v: u64, n: int)
    requires
        0 <= n <= 64,
        fits_width(v, n as nat),
    ensures
        forall|j: u64| j < 64 && j >= n ==> !(#[trigger] nth_bit(v, j)),
{
    if n < 64 {
        lemma_fits_width_shr(v, n as u64);
        let nn = n as u64;
        assert(forall|j: u64|
            (v >> nn == 0 && nn <= j < 64) ==> !(#[trigger] nth_bit(v, j))) by (bit_vector);
    }
}

/// The stored integer fits its own width.
pub proof fn lemma_int_from_bits_fits(s: Seq<bool>, base: int, n: int)
    requires
        0 <= n <= 64,
    ensures
        fits_width(int_from_bits(s, base, n), n as nat),
{
    let v = int_from_bits(s, base, n);
    if n == 64 {
        lemma_fits_width_64(v);
    } else {
        let nn = n as u64;
        let m = (v & !crate::broadword::low_mask(nn)) as u64;
        assert forall|j: u64| j < 64 implies nth_bit(m, j) == nth_bit(0u64, j) by {
            crate::broadword::lemma_nth_bit_mask_high(v, nn, j);
            lemma_int_from_bits_bit(s, base, n, j);
            assert(!nth_bit(0u64, j)) by (bit_vector);
        }
        lemma_word_ext(m, 0);
        assert((v & !crate::broadword::low_mask(nn)) == 0 && nn < 64 ==> v >> nn == 0)
            by (bit_vector);
        lemma_fits_width_shr(v, nn);
    }
}

/// Mutable builder collecting fixed-width integers.
pub struct CompactVectorBuilder {
    chunks: BitVectorBuilder,
    len: usize,
    width: usize,
}

impl View for CompactVectorBuilder {
    type V = Seq<u64>;

    closed spec fn view(&self) -> Seq<u64> {
        Seq::new(
            self.len as nat,
            |p: int| int_from_bits(self.chunks@, p * self.width, self.width as int),
        )
    }
}

impl CompactVectorBuilder {
    /// The chunk buffer is well formed and holds exactly `len` elements
    /// of `width` bits each.
    pub closed spec fn wf(&self) -> bool {
        &&& self.chunks.wf()
        &&& 1 <= self.width <= 64
        &&& self.chunks@.len() == self.len * self.width
    }

    /// The number of bits an element occupies.
    pub closed spec fn width_spec(&self) -> usize {
        self.width
    }

    /// Creates an empty builder storing integers of `width` bits each.
    /// Fails exactly when `width` is outside `1..=64`.
    pub fn new(width: usize) -> (r: Result<Self, Error>)
        ensures
            match r {
                Ok(b) => {
                    &&& 1 <= width <= 64
                    &&& b.wf()
                    &&& b@ == Seq::<u64>::empty()
                    &&& b.width_spec() == width
                },
                Err(e) => {
                    &&& !(1 <= width <= 64)
                    &&& e == (Error::WidthOutOfRange { got: width })
                },
            },
    {
        if width < 1 || width > 64 {
            return Err(Error::WidthOutOfRange { got: width });
        }
        let r = Self { chunks: BitVectorBuilder::new(), len: 0, width };
        proof {
            assert(r@ =~= Seq::<u64>::empty());
        }
        Ok(r)
    }

    /// Creates a new builder reserving space for at least `capa` integers.
    /// The reservation is currently ignored: the builder grows on demand.
    pub fn with_capacity(capa: usize, width: usize) -> (r: Result<Self, Error>)
        ensures
            match r {
                Ok(b) => {
                    &&& 1 <= width <= 64
                    &&& b.wf()
                    &&& b@ == Seq::<u64>::empty()
                    &&& b.width_spec() == width
                },
                Err(e) => {
                    &&& !(1 <= width <= 64)
                    &&& e == (Error::WidthOutOfRange { got: width })
                },
            },
    {
        Self::new(width)
    }

    /// Pushes integer `val` at the end. Fails exactly when `val` does not
    /// fit the builder's width.
    pub fn push_int(&mut self, val: u64) -> (r: Result<(), Error>)
        requires
            old(self).wf(),
            old(self)@.len() * old(self).width_spec() + 64 <= usize::MAX,
            old(self)@.len() < usize::MAX,
        ensures
            final(self).wf(),
            final(self).width_spec() == old(self).width_spec(),
            match r {
                Ok(()) => {
                    &&& fits_width(val, old(self).width_spec() as nat)
                    &&& final(self)@ == old(self)@.push(val)
                },
                Err(e) => {
                    &&& !fits_width(val, old(self).width_spec() as nat)
                    &&& e == (Error::ValueTooWide { width: old(self).width_spec(), val })
                    &&& *final(self) == *old(self)
                },
            },
    {
        proof {
            if self.width == 64 {
                lemma_fits_width_64(val);
            } else {
                lemma_fits_width_shr(val, self.width as u64);
            }
        }
        if self.width != 64 && val >> (self.width as u64) != 0 {
            return Err(Error::ValueTooWide { width: self.width, val });
        }
        let ghost old_bits = self.chunks@;
        let ghost w = self.width as int;
        let ghost old_len = self.len as int;
        match self.chunks.push_bits(val, self.width) {
            Ok(()) => {},
            Err(_) => {
                proof {
                    assert(false);
                }
            },
        }
        self.len = self.len + 1;
        proof {
            lemma_fits_high_bits(val, w);
            let new_bits = self.chunks@;
            assert forall|p: int| 0 <= p < self.len implies #[trigger] int_from_bits(
                new_bits,
                p * w,
                w,
            ) == (if p < old_len {
                old(self)@[p]
            } else {
                val
            }) by {
                if p < old_len {
                    assert((p + 1) * w <= old_len * w) by (nonlinear_arith)
                        requires
                            p + 1 <= old_len,
                            w >= 0,
                    ;
                    assert(p * w >= 0) by (nonlinear_arith)
                        requires
                            p >= 0,
                            w >= 0,
                    ;
                    assert(p * w + w == (p + 1) * w) by (nonlinear_arith);
                    assert forall|j: int| 0 <= j < w implies #[trigger] new_bits[p * w + j]
                        == old_bits[p * w + j] by {
                        assert(p * w + j < old_bits.len());
                    }
                    lemma_int_from_bits_agree(new_bits, old_bits, p * w, w);
                } else {
                    assert(p == old_len);
                    assert(p * w == old_bits.len());
                    assert forall|j: u64| j < 64 implies (#[trigger] nth_bit(val, j) == (j < w
                        && new_bits[p * w + j])) by {
                        if j < w {
                            assert(new_bits[old_bits.len() + j] == nth_bit(val, j));
                        }
                    }
                    lemma_int_from_bits_eq(new_bits, p * w, w, val);
                }
            }
            assert((old_len + 1) * w == old_len * w + w) by (nonlinear_arith);
            assert(final(self)@ =~= old(self)@.push(val));
        }
        Ok(())
    }

    /// Sets the `pos`-th integer to `val`, in place. Fails exactly when
    /// `pos` is out of bounds or `val` does not fit the width.
    pub fn set_int(&mut self, pos: usize, val: u64) -> (r: Result<(), Error>)
        requires
            old(self).wf(),
        ensures
            final(self).wf(),
            final(self).width_spec() == old(self).width_spec(),
            match r {
                Ok(()) => {
                    &&& pos < old(self)@.len()
                    &&& fits_width(val, old(self).width_spec() as nat)
                    &&& final(self)@ == old(self)@.update(pos as int, val)
                },
                Err(e) => {
                    &&& *final(self) == *old(self)
                    &&& if pos >= old(self)@.len() {
                        e == (Error::PosOutOfBounds { len: old(self)@.len() as usize, got: pos })
                    } else {
                        !fits_width(val, old(self).width_spec() as nat) && e == (
                        Error::ValueTooWide { width: old(self).width_spec(), val })
                    }
                },
            },
    {
        if self.len <= pos {
            return Err(Error::PosOutOfBounds { len: self.len, got: pos });
        }
        proof {
            if self.width == 64 {
                lemma_fits_width_64(val);
            } else {
                lemma_fits_width_shr(val, self.width as u64);
            }
        }
        if self.width != 64 && val >> (self.width as u64) != 0 {
            return Err(Error::ValueTooWide { width: self.width, val });
        }
        let ghost old_bits = self.chunks@;
        let ghost w = self.width as int;
        proof {
            assert((pos + 1) * w <= self.len * w) by (nonlinear_arith)
                requires
                    pos + 1 <= self.len,
                    w >= 0,
            ;
            assert(pos * w + w == (pos + 1) * w) by (nonlinear_arith);
            assert(pos * w >= 0) by (nonlinear_arith)
                requires
                    pos >= 0,
                    w >= 0,
            ;
            crate::bit_vector::lemma_builder_len_bound(&self.chunks);
        }
        let base = pos * self.width;
        let mut i: usize = 0;
        while i < self.width
            invariant
                self.chunks.wf(),
                1 <= self.width <= 64,
                self.chunks@.len() == old_bits.len(),
                self.len == old(self).len,
                self.width == old(self).width,
                old_bits.len() == self.len * w,
                w == self.width as int,
                pos < self.len,
                base == pos * w,
                base + w <= old_bits.len(),
                old_bits.len() <= usize::MAX,
                i <= self.width,
                forall|t: int|
                    0 <= t < old_bits.len() ==> #[trigger] self.chunks@[t] == (if base <= t < base
                        + i {
                        nth_bit(val, (t - base) as u64)
                    } else {
                        old_bits[t]
                    }),
            decreases self.width - i,
        {
            let bit = (val >> (i as u64)) & 1u64 == 1u64;
            match self.chunks.set_bit(base + i, bit) {
                Ok(()) => {},
                Err(_) => {
                    proof {
                        assert(false);
                    }
                },
            }
            i = i + 1;
        }
        proof {
            lemma_fits_high_bits(val, w);
            let new_bits = self.chunks@;
            assert forall|p: int| 0 <= p < self.len implies #[trigger] int_from_bits(
                new_bits,
                p * w,
                w,
            ) == (if p == pos {
                val
            } else {
                old(self)@[p]
            }) by {
                assert(p * w >= 0 && (p + 1) * w <= self.len * w) by (nonlinear_arith)
                    requires
                        0 <= p,
                        p + 1 <= self.len,
                        w >= 0,
                ;
                if p == pos {
                    assert forall|j: u64| j < 64 implies (#[trigger] nth_bit(val, j) == (j < w
                        && new_bits[p * w + j])) by {
                        if j < w {
                            assert(new_bits[base + j] == nth_bit(val, j));
                        }
                    }
                    lemma_int_from_bits_eq(new_bits, p * w, w, val);
                } else {
                    assert(p * w + w == (p + 1) * w) by (nonlinear_arith);
                    assert forall|j: int| 0 <= j < w implies #[trigger] new_bits[p * w + j]
                        == old_bits[p * w + j] by {
                        if p < pos {
                            assert(p * w + j < (p + 1) * w <= pos * w) by (nonlinear_arith)
                                requires
                                    j < w,
                                    p + 1 <= pos,
                                    w >= 0,
                                    0 <= p,
                            ;
                        } else {
                            assert(p * w + j >= (pos + 1) * w) by (nonlinear_arith)
                                requires
                                    j >= 0,
                                    p >= pos + 1,
                                    w >= 0,
                            ;
                        }
                    }
                    lemma_int_from_bits_agree(new_bits, old_bits, p * w, w);
                }
            }
            assert(final(self)@ =~= old(self)@.update(pos as int, val));
        }
        Ok(())
    }

    /// Appends integers at the end, stopping at the first that does not
    /// fit the width.
    /// Appends integers at the end. Fails exactly when some value does
    /// not fit the width, naming the first such value, and then leaves the
    /// builder unchanged: no partial result is observable after an error.
    pub fn extend(&mut self, vals: &[u64]) -> (r: Result<(), Error>)
        requires
            old(self).wf(),
            (old(self)@.len() + vals@.len()) * 64 + 64 <= usize::MAX,
        ensures
            final(self).wf(),
            final(self).width_spec() == old(self).width_spec(),
            match r {
                Ok(()) => {
                    &&& forall|i: int|
                        0 <= i < vals@.len() ==> fits_width(
                            #[trigger] vals@[i],
                            old(self).width_spec() as nat,
                        )
                    &&& final(self)@ == old(self)@ + vals@
                },
                Err(e) => {
                    &&& *final(self) == *old(self)
                    &&& exists|i: int|
                        {
                            &&& 0 <= i < vals@.len()
                            &&& !fits_width(#[trigger] vals@[i], old(self).width_spec() as nat)
                            &&& forall|j: int|
                                0 <= j < i ==> fits_width(
                                    #[trigger] vals@[j],
                                    old(self).width_spec() as nat,
                                )
                            &&& e == (Error::ValueTooWide {
                                width: old(self).width_spec(),
                                val: vals@[i],
                            })
                        }
                },
            },
    {
        let n = vals.len();
        let w = self.width;
        let mut i: usize = 0;
        while i < n
            invariant
                self.wf(),
                w == self.width,
                *self == *old(self),
                i <= n,
                n == vals@.len(),
                forall|j: int|
                    0 <= j < i ==> fits_width(#[trigger] vals@[j], old(self).width_spec() as nat),
            decreases n - i,
        {
            proof {
                if w == 64 {
                    lemma_fits_width_64(vals@[i as int]);
                } else {
                    lemma_fits_width_shr(vals@[i as int], w as u64);
                }
            }
            if w != 64 && vals[i] >> (w as u64) != 0 {
                return Err(Error::ValueTooWide { width: w, val: vals[i] });
            }
            i = i + 1;
        }
        let ghost cap = old(self)@.len() + vals@.len();
        let mut i: usize = 0;
        while i < n
            invariant
                self.wf(),
                self.width_spec() == old(self).width_spec(),
                i <= n,
                n == vals@.len(),
                cap == old(self)@.len() + vals@.len(),
                cap * 64 + 64 <= usize::MAX,
                self@ == old(self)@ + vals@.take(i as int),
                forall|j: int|
                    0 <= j < n ==> fits_width(#[trigger] vals@[j], old(self).width_spec() as nat),
            decreases n - i,
        {
            let ghost cur_len = self@.len() as int;
            let ghost cur_w = self.width_spec() as int;
            proof {
                assert(cur_len * cur_w + 64 <= usize::MAX) by (nonlinear_arith)
                    requires
                        cur_len <= cap,
                        1 <= cur_w <= 64,
                        cap * 64 + 64 <= usize::MAX,
                ;
            }
            match self.push_int(vals[i]) {
                Ok(()) => {},
                Err(_) => {
                    proof {
                        assert(false);
                    }
                },
            }
            proof {
                assert(vals@.take(i + 1) =~= vals@.take(i as int).push(vals@[i as int]));
                assert(self@ =~= old(self)@ + vals@.take(i + 1));
            }
            i = i + 1;
        }
        proof {
            assert(vals@.take(n as int) =~= vals@);
        }
        Ok(())
    }

    /// Finalizes the builder into an immutable compact vector.
    pub fn freeze(self) -> (r: CompactVector)
        requires
            self.wf(),
        ensures
            r.wf(),
            r@ == self@,
            r.width_spec() == self.width_spec(),
    {
        let len = self.len;
        let width = self.width;
        let chunks: BitVector<NoIndex> = self.chunks.freeze::<NoIndex>();
        CompactVector { chunks, len, width }
    }
}

/// Metadata accompanying the serialized form of a compact vector.
#[derive(Clone, Copy, Debug, PartialEq, Eq, Structural)]
pub struct CompactVectorMeta {
    /// Number of integers stored.
    pub len: usize,
    /// Bit width of each integer.
    pub width: usize,
}

/// Immutable compact vector of fixed-width integers.
pub struct CompactVector {
    chunks: BitVector<NoIndex>,
    len: usize,
    width: usize,
}

impl View for CompactVector {
    type V = Seq<u64>;

    closed spec fn view(&self) -> Seq<u64> {
        Seq::new(
            self.len as nat,
            |p: int| int_from_bits(self.chunks.data@, p * self.width, self.width as int),
        )
    }
}

impl CompactVector {
    /// The chunk data is well formed and holds exactly `len` elements of
    /// `width` bits each.
    pub closed spec fn wf(&self) -> bool {
        &&& self.chunks.data.wf()
        &&& self.width <= 64
        &&& self.len > 0 ==> self.width >= 1
        &&& self.chunks.data@.len() == self.len * self.width
    }

    /// The number of bits an element occupies.
    pub closed spec fn width_spec(&self) -> usize {
        self.width
    }

    /// The words backing the vector.
    pub closed spec fn words_spec(&self) -> Seq<u64> {
        self.chunks.data.words_seq()
    }

    /// Creates a new empty builder storing integers of `width` bits each.
    pub fn new(width: usize) -> (r: Result<CompactVectorBuilder, Error>)
        ensures
            match r {
                Ok(b) => 1 <= width <= 64 && b.wf() && b@ == Seq::<u64>::empty() && b.width_spec()
                    == width,
                Err(e) => !(1 <= width <= 64) && e == (Error::WidthOutOfRange { got: width }),
            },
    {
        CompactVectorBuilder::new(width)
    }

    /// Creates a new builder reserving space for at least `capa` integers.
    pub fn with_capacity(capa: usize, width: usize) -> (r: Result<CompactVectorBuilder, Error>)
        ensures
            match r {
                Ok(b) => 1 <= width <= 64 && b.wf() && b@ == Seq::<u64>::empty() && b.width_spec()
                    == width,
                Err(e) => !(1 <= width <= 64) && e == (Error::WidthOutOfRange { got: width }),
            },
    {
        CompactVectorBuilder::with_capacity(capa, width)
    }

    /// Creates a vector holding `len` copies of `val` in `width` bits
    /// each. Fails exactly when the width is out of range or the value
    /// does not fit it.
    pub fn from_int(val: u64, len: usize, width: usize) -> (r: Result<Self, Error>)
        requires
            len * 64 + 64 <= usize::MAX,
        ensures
            match r {
                Ok(cv) => {
                    &&& 1 <= width <= 64
                    &&& fits_width(val, width as nat)
                    &&& cv.wf()
                    &&& cv@.len() == len
                    &&& forall|i: int| 0 <= i < len ==> cv@[i] == val
                    &&& cv.width_spec() == width
                },
                Err(e) => {
                    if !(1 <= width <= 64) {
                        e == (Error::WidthOutOfRange { got: width })
                    } else {
                        !fits_width(val, width as nat) && e == (Error::ValueTooWideNew {
                            width,
                            val,
                        })
                    }
                },
            },
    {
        if width < 1 || width > 64 {
            return Err(Error::WidthOutOfRange { got: width });
        }
        proof {
            if width == 64 {
                lemma_fits_width_64(val);
            } else {
                lemma_fits_width_shr(val, width as u64);
            }
        }
        if width < 64 && val >> (width as u64) != 0 {
            return Err(Error::ValueTooWideNew { width, val });
        }
        let mut builder = match CompactVectorBuilder::with_capacity(len, width) {
            Ok(b) => b,
            Err(_) => {
                proof {
                    assert(false);
                }
                return Err(Error::WidthOutOfRange { got: width });
            },
        };
        let mut i: usize = 0;
        while i < len
            invariant
                builder.wf(),
                builder.width_spec() == width,
                1 <= width <= 64,
                fits_width(val, width as nat),
                i <= len,
                len * 64 + 64 <= usize::MAX,
                builder@.len() == i,
                forall|t: int| 0 <= t < i ==> builder@[t] == val,
            decreases len - i,
        {
            proof {
                assert(i * width + 64 <= usize::MAX) by (nonlinear_arith)
                    requires
                        0 <= i < len,
                        1 <= width <= 64,
                        len * 64 + 64 <= usize::MAX,
                ;
            }
            match builder.push_int(val) {
                Ok(()) => {},
                Err(_) => {
                    proof {
                        assert(false);
                    }
                },
            }
            i = i + 1;
        }
        Ok(builder.freeze())
    }

    /// Creates a vector from a slice of integers, fitting the width to
    /// the largest value. Never fails.
    pub fn from_slice(vals: &[u64]) -> (r: Result<Self, Error>)
        requires
            vals@.len() * 64 + 64 <= usize::MAX,
        ensures
            r.is_ok(),
            match r {
                Ok(cv) => {
                    &&& cv.wf()
                    &&& cv@ == vals@
                    &&& vals@.len() > 0 ==> cv.width_spec() == crate::utils::needed_bits_of(
                        max_of(vals@),
                    )
                    &&& vals@.len() == 0 ==> cv.width_spec() == 0
                },
                Err(_) => false,
            },
    {
        if vals.len() == 0 {
            let cv = Self::default();
            proof {
                assert(cv@ =~= vals@);
            }
            return Ok(cv);
        }
        let n = vals.len();
        let mut max_int: u64 = 0;
        let mut i: usize = 0;
        proof {
            assert(max_of(vals@.take(0)) == 0);
        }
        while i < n
            invariant
                i <= n,
                n == vals@.len(),
                max_int == max_of(vals@.take(i as int)),
            decreases n - i,
        {
            proof {
                assert(vals@.take(i + 1).drop_last() =~= vals@.take(i as int));
                assert(vals@.take(i + 1).last() == vals@[i as int]);
            }
            if vals[i] > max_int {
                max_int = vals[i];
            }
            i = i + 1;
        }
        proof {
            assert(vals@.take(n as int) =~= vals@);
        }
        let width = crate::utils::needed_bits(max_int);
        let mut builder = match CompactVectorBuilder::with_capacity(n, width) {
            Ok(b) => b,
            Err(_) => {
                proof {
                    assert(false);
                }
                return Err(Error::WidthOutOfRange { got: width });
            },
        };
        let mut i: usize = 0;
        while i < n
            invariant
                builder.wf(),
                builder.width_spec() == width,
                1 <= width <= 64,
                width == crate::utils::needed_bits_of(max_int),
                i <= n,
                n == vals@.len(),
                n * 64 + 64 <= usize::MAX,
                max_int == max_of(vals@),
                builder@ == vals@.take(i as int),
            decreases n - i,
        {
            proof {
                assert(i * width + 64 <= usize::MAX) by (nonlinear_arith)
                    requires
                        0 <= i < n,
                        1 <= width <= 64,
                        n * 64 + 64 <= usize::MAX,
                ;
                lemma_max_of_bound(vals@, i as int);
                lemma_needed_bits_fits(max_int);
                vstd::arithmetic::power2::lemma_pow2_pos(width as nat);
                assert(fits_width(vals@[i as int], width as nat));
            }
            match builder.push_int(vals[i]) {
                Ok(()) => {},
                Err(_) => {
                    proof {
                        assert(false);
                    }
                },
            }
            proof {
                assert(vals@.take(i + 1) =~= vals@.take(i as int).push(vals@[i as int]));
            }
            i = i + 1;
        }
        proof {
            assert(vals@.take(n as int) =~= vals@);
        }
        Ok(builder.freeze())
    }

    /// Returns the `pos`-th integer, or `None` if out of bounds. A stored
    /// integer always fits the declared width.
    pub fn get_int(&self, pos: usize) -> (r: Option<u64>)
        requires
            self.wf(),
        ensures
            r == if pos < self@.len() {
                Some(self@[pos as int])
            } else {
                None::<u64>
            },
            r matches Some(v) ==> fits_width(v, self.width_spec() as nat),
    {
        if pos >= self.len {
            return None;
        }
        proof {
            assert(pos * self.width >= 0 && (pos + 1) * self.width <= self.len * self.width)
                by (nonlinear_arith)
                requires
                    0 <= pos,
                    pos + 1 <= self.len,
                    self.width >= 0,
            ;
            assert(pos * self.width + self.width == (pos + 1) * self.width) by (nonlinear_arith);
        }
        match self.chunks.data.get_bits(pos * self.width, self.width) {
            Some(v) => {
                proof {
                    let base = pos * self.width as int;
                    let w = self.width as int;
                    assert forall|j: u64| j < 64 implies (#[trigger] nth_bit(v, j) == (j < w
                        && self.chunks.data@[base + j])) by {}
                    lemma_int_from_bits_eq(self.chunks.data@, base, w, v);
                    lemma_int_from_bits_fits(self.chunks.data@, base, w);
                }
                Some(v)
            },
            None => {
                proof {
                    assert(false);
                }
                None
            },
        }
    }

    /// Collects all integers into a vector.
    pub fn to_vec(&self) -> (r: Vec<u64>)
        requires
            self.wf(),
        ensures
            r@ == self@,
    {
        let mut out: Vec<u64> = Vec::new();
        let mut i: usize = 0;
        while i < self.len
            invariant
                self.wf(),
                i <= self.len,
                self.len == self@.len(),
                out@ == self@.take(i as int),
            decreases self.len - i,
        {
            match self.get_int(i) {
                Some(v) => {
                    out.push(v);
                },
                None => {
                    proof {
                        assert(false);
                    }
                },
            }
            proof {
                assert(self@.take(i + 1) =~= self@.take(i as int).push(self@[i as int]));
            }
            i = i + 1;
        }
        proof {
            assert(self@.take(self.len as int) =~= self@);
        }
        out
    }

    /// Gets the number of integers.
    pub fn len(&self) -> (r: usize)
        ensures
            r == self@.len(),
    {
        self.len
    }

    /// Checks if the vector is empty.
    pub fn is_empty(&self) -> (r: bool)
        ensures
            r == (self@.len() == 0),
    {
        self.len == 0
    }

    /// Returns the number of integers the vector can hold without
    /// reallocating; frozen vectors hold exactly their length.
    pub fn capacity(&self) -> (r: usize)
        ensures
            r == self@.len(),
    {
        self.len
    }

    /// Gets the number of bits an integer occupies.
    pub fn width(&self) -> (r: usize)
        ensures
            r == self.width_spec(),
    {
        self.width
    }

    /// Serializes the vector into a zero-copy byte buffer and metadata.
    /// The metadata is consistent and the buffer holds every word the bit
    /// length calls for, so reconstruction from the result succeeds.
    pub fn to_bytes(&self) -> (r: (CompactVectorMeta, anybytes::Bytes))
        requires
            self.wf(),
        ensures
            r.0 == (CompactVectorMeta { len: self@.len() as usize, width: self.width_spec() }),
            bytes_seq(r.1) == le_bytes_of(self.words_spec()),
            bytes_words_ok(r.1),
            self.width_spec() <= 64,
            self@.len() > 0 ==> self.width_spec() >= 1,
            self@.len() * self.width_spec() <= usize::MAX,
            bytes_seq(r.1).len() >= crate::bitseq::words_for(
                (self@.len() * self.width_spec()) as nat,
            ) * 8,
    {
        let (_, bytes) = self.chunks.data.to_bytes();
        proof {
            assert(self.words_spec().len() >= crate::bitseq::words_for(
                (self@.len() * self.width_spec()) as nat,
            ));
            assert(bytes_seq(bytes).len() == self.words_spec().len() * 8);
            assert(self.words_spec().len() * 8 >= crate::bitseq::words_for(
                (self@.len() * self.width_spec()) as nat,
            ) * 8) by (nonlinear_arith)
                requires
                    self.words_spec().len() >= crate::bitseq::words_for(
                        (self@.len() * self.width_spec()) as nat,
                    ),
            ;
        }
        (CompactVectorMeta { len: self.len, width: self.width }, bytes)
    }

    /// Reconstructs a vector from a zero-copy byte buffer and metadata.
    /// Fails exactly when the metadata is inconsistent or the buffer is
    /// misaligned or too short for it.
    pub fn from_bytes(meta: CompactVectorMeta, bytes: anybytes::Bytes) -> (r: Result<Self, Error>)
        ensures
            match r {
                Ok(cv) => {
                    &&& cv.wf()
                    &&& cv@.len() == meta.len
                    &&& cv.width_spec() == meta.width
                    &&& le_bytes_of(cv.words_spec()) == bytes_seq(bytes)
                },
                Err(e) => e == Error::BytesMismatch,
            },
            r.is_ok() <==> {
                &&& meta.width <= 64
                &&& meta.len > 0 ==> meta.width >= 1
                &&& meta.len * meta.width <= usize::MAX
                &&& bytes_words_ok(bytes)
                &&& bytes_seq(bytes).len() >= crate::bitseq::words_for(
                    (meta.len * meta.width) as nat,
                ) * 8
            },
    {
        if meta.width > 64 || (meta.len > 0 && meta.width == 0) {
            return Err(Error::BytesMismatch);
        }
        let nbits = match meta.len.checked_mul(meta.width) {
            Some(n) => n,
            None => return Err(Error::BytesMismatch),
        };
        match BitVectorData::from_bytes(nbits, bytes) {
            Ok(data) => {
                let chunks = BitVector::new(data, NoIndex);
                Ok(Self { chunks, len: meta.len, width: meta.width })
            },
            Err(e) => Err(e),
        }
    }
}

impl Default for CompactVector {
    /// An empty vector of width zero.
    fn default() -> (r: Self)
        ensures
            r.wf(),
            r@ == Seq::<u64>::empty(),
            r.width_spec() == 0,
    {
        let b = BitVectorBuilder::new();
        let chunks: BitVector<NoIndex> = b.freeze::<NoIndex>();
        let r = CompactVector { chunks, len: 0, width: 0 };
        proof {
            assert(r@ =~= Seq::<u64>::empty());
        }
        r
    }
}

impl PartialEq for CompactVector {
    fn eq(&self, other: &Self) -> (r: bool) {
        self.len == other.len && self.width == other.width && self.chunks.data.len()
            == other.chunks.data.len() && crate::bit_vector::eq_words(
            self.chunks.data.words(),
            other.chunks.data.words(),
        )
    }
}

impl vstd::std_specs::cmp::PartialEqSpecImpl for CompactVector {
    open spec fn obeys_eq_spec() -> bool {
        true
    }

    closed spec fn eq_spec(&self, other: &Self) -> bool {
        &&& self.len == other.len
        &&& self.width == other.width
        &&& self.chunks.data.len == other.chunks.data.len
        &&& self.words_spec() == other.words_spec()
    }
}

impl Eq for CompactVector {

}

impl crate::int_vectors::Access for CompactVector {
    open spec fn access_ready(&self) -> bool {
        self.wf()
    }

    fn access(&self, pos: usize) -> (r: Option<u64>) {
        self.get_int(pos)
    }
}

impl crate::int_vectors::NumVals for CompactVector {
    open spec fn counts_ready(&self) -> bool {
        true
    }

    fn num_vals(&self) -> (r: usize) {
        self.len
    }
}

impl crate::int_vectors::Build for CompactVector {
    fn build_from_slice(vals: &[u64]) -> (r: Result<Self, Error>) {
        let n: usize = vals.len();
        if n > (usize::MAX - 64) / 64 {
            return Err(Error::BytesMismatch);
        }
        proof {
            assert(vals@.len() * 64 + 64 <= usize::MAX) by (nonlinear_arith)
                requires
                    vals@.len() <= (usize::MAX - 64) / 64,
                    (usize::MAX - 64) as int == 64 * ((usize::MAX - 64) as int / 64) + (usize::MAX
                        - 64) as int % 64,
                    0 <= (usize::MAX - 64) as int % 64,
            ;
        }
        Self::from_slice(vals)
    }
}

/// Equal representations decode to equal value sequences: two well-formed
/// vectors with the same length, width, and backing words hold the same
/// integers, so a vector rebuilt from a serialized one equals it.
pub proof fn lemma_value_from_repr(a: &CompactVector, b: &CompactVector)
    requires
        a.wf(),
        b.wf(),
        a@.len() == b@.len(),
        a.width_spec() == b.width_spec(),
        a.words_spec() == b.words_spec(),
    ensures
        a@ == b@,
{
    assert(a.chunks.data@ == b.chunks.data@);
    assert(a@ =~= b@);
}

/// The largest value of a sequence, zero for an empty one.
pub open spec fn max_of(s: Seq<u64>) -> u64
    decreases s.len(),
{
    if s.len() == 0 {
        0u64
    } else {
        let m = max_of(s.drop_last());
        if s.last() > m {
            s.last()
        } else {
            m
        }
    }
}

/// The maximum of a nonempty sequence is one of its elements.
pub proof fn lemma_max_of_mem(s: Seq<u64>)
    requires
        s.len() > 0,
    ensures
        exists|i: int| 0 <= i < s.len() && #[trigger] s[i] == max_of(s),
    decreases s.len(),
{
    let m = max_of(s.drop_last());
    if s.len() == 1 || s.last() > m {
        assert(s[s.len() - 1] == max_of(s));
    } else {
        lemma_max_of_mem(s.drop_last());
        let i = choose|i: int| 0 <= i < s.len() - 1 && #[trigger] s.drop_last()[i] == m;
        assert(s[i] == max_of(s));
    }
}

/// Every element is at most the maximum.
pub proof fn lemma_max_of_bound(s: Seq<u64>, i: int)
    requires
        0 <= i < s.len(),
    ensures
        s[i] <= max_of(s),
    decreases s.len(),
{
    if i == s.len() - 1 {
    } else {
        lemma_max_of_bound(s.drop_last(), i);
    }
}

impl Clone for CompactVectorBuilder {
    fn clone(&self) -> (r: Self)
        ensures
            r.wf() == self.wf(),
            r@ == self@,
            r.width_spec() == self.width_spec(),
    {
        CompactVectorBuilder { chunks: self.chunks.clone(), len: self.len, width: self.width }
    }
}

} // verus!
