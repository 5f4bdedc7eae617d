//! Word-packed bit storage: the mutable builder, the immutable zero-copy
//! data, the linear-scan index, and the generic indexed wrapper.

use vstd::prelude::*;

use crate::bitseq::{
    bits_of, clip, eff_word, is_select, lemma_eff_word_bits, lemma_pos_decomp, lemma_rank_count,
    lemma_rank_of_le, lemma_pol_bits_true, lemma_word_pos, pol_bits,
    rank_of, select_answer_ok, total_ones, word_at, words_for,
};
use crate::broadword::{
    lemma_nth_bit_mask, lemma_nth_bit_or, lemma_nth_bit_shl, lemma_nth_bit_shr, lemma_pop_mask,
    nth_bit, popcount, select_in_word,
};
use crate::error::Error;
use crate::views::{
    bytes_seq, bytes_to_word_view, bytes_words_ok, le_bytes_of, word_view_from_vec,
    word_view_seq, word_view_slice, word_view_to_bytes, words_into_bytes, WordView,
};

verus! {

/// A word index valid for some position below `len` is a valid index into
/// any buffer of at least `words_for(len)` words.
pub proof fn lemma_word_index_bound(pos: int, len: nat)
    requires
        0 <= pos < len,
    ensures
        pos / 64 < words_for(len),
        0 <= pos / 64,
{
    lemma_pos_decomp(pos);
    vstd::arithmetic::div_mod::lemma_fundamental_div_mod(len as int + 63, 64);
    vstd::arithmetic::div_mod::lemma_div_is_ordered(pos, len as int + 63, 64);
    if pos / 64 >= words_for(len) {
        assert(false);
    }
}

/// `words_for` grows with the length.
pub proof fn lemma_words_for_monotone(a: nat, b: nat)
    requires
        a <= b,
    ensures
        words_for(a) <= words_for(b),
{
    vstd::arithmetic::div_mod::lemma_div_is_ordered(a as int + 63, b as int + 63, 64);
}

/// Exactly `len / 64` words are full, and a partial word exists if and
/// only if `len % 64 != 0`.
pub proof fn lemma_words_for_split(len: nat)
    ensures
        len % 64 == 0 ==> words_for(len) == len / 64,
        len % 64 != 0 ==> words_for(len) == len / 64 + 1,
        words_for((len + 1) as nat) == if len % 64 == 0 {
            len / 64 + 1
        } else {
            words_for(len)
        },
{
    vstd::arithmetic::div_mod::lemma_fundamental_div_mod(len as int, 64);
    vstd::arithmetic::div_mod::lemma_fundamental_div_mod(len as int + 63, 64);
    vstd::arithmetic::div_mod::lemma_fundamental_div_mod(len as int + 64, 64);
    vstd::arithmetic::div_mod::lemma_div_plus_one(len as int, 64);
    if len % 64 == 0 {
        assert(words_for(len) == len / 64) by (nonlinear_arith)
            requires
                len % 64 == 0,
                len as int == 64 * (len as int / 64) + len as int % 64,
                (len as int + 63) == 64 * ((len as int + 63) / 64) + (len as int + 63) % 64,
                0 <= (len as int + 63) % 64 < 64,
                0 <= len as int % 64 < 64,
        ;
    } else {
        assert(words_for(len) == len / 64 + 1) by (nonlinear_arith)
            requires
                len % 64 != 0,
                len as int == 64 * (len as int / 64) + len as int % 64,
                (len as int + 63) == 64 * ((len as int + 63) / 64) + (len as int + 63) % 64,
                0 <= (len as int + 63) % 64 < 64,
                0 <= len as int % 64 < 64,
        ;
        assert(words_for((len + 1) as nat) == words_for(len)) by (nonlinear_arith)
            requires
                len % 64 != 0,
                len as int == 64 * (len as int / 64) + len as int % 64,
                (len as int + 63) == 64 * ((len as int + 63) / 64) + (len as int + 63) % 64,
                (len as int + 64) == 64 * ((len as int + 64) / 64) + (len as int + 64) % 64,
                0 <= (len as int + 63) % 64 < 64,
                0 <= (len as int + 64) % 64 < 64,
                0 <= len as int % 64 < 64,
        ;
    }
}

/// Immutable bit vector data: a zero-copy word view plus a bit length.
pub struct BitVectorData {
    /// Underlying machine words storing the bits.
    pub words: WordView,
    /// Number of valid bits in `words`.
    pub len: usize,
}

impl View for BitVectorData {
    type V = Seq<bool>;

    open spec fn view(&self) -> Seq<bool> {
        bits_of(self.words_seq(), self.len as nat)
    }
}

impl BitVectorData {
    /// The stored words, as a mathematical sequence.
    pub open spec fn words_seq(&self) -> Seq<u64> {
        word_view_seq(self.words)
    }

    /// The storage holds at least the words the length calls for.
    pub open spec fn wf(&self) -> bool {
        words_for(self.len as nat) <= self.words_seq().len()
    }

    /// Creates bit vector data holding the given bits.
    pub fn from_bits(bits: &[bool]) -> (r: Self)
        ensures
            r.wf(),
            r@ == bits@,
    {
        let mut builder = BitVectorBuilder::new();
        let count: usize = bits.len();
        proof {
            assert(builder@.len() + bits@.len() == count);
        }
        builder.extend_bits(bits);
        proof {
            assert(builder@ =~= bits@);
        }
        builder.into_data()
    }

    /// Reconstructs bit vector data of `len` bits from a zero-copy byte
    /// buffer. Fails exactly when the buffer cannot be viewed as words or
    /// holds fewer words than `len` bits need.
    pub fn from_bytes(len: usize, bytes: anybytes::Bytes) -> (r: Result<Self, Error>)
        ensures
            match r {
                Ok(d) => {
                    &&& d.wf()
                    &&& d.len == len
                    &&& le_bytes_of(d.words_seq()) == bytes_seq(bytes)
                },
                Err(e) => e == Error::BytesMismatch,
            },
            r.is_ok() <==> (bytes_words_ok(bytes) && bytes_seq(bytes).len() >= words_for(
                len as nat,
            ) * 8),
    {
        match bytes_to_word_view(bytes) {
            None => Err(Error::BytesMismatch),
            Some(v) => {
                let nw = crate::utils::ceiled_divide(len, 64);
                let words = word_view_slice(&v);
                if words.len() < nw {
                    proof {
                        assert(bytes_seq(bytes).len() == word_view_seq(v).len() * 8);
                        assert(word_view_seq(v).len() < words_for(len as nat));
                        assert(word_view_seq(v).len() * 8 < words_for(len as nat) * 8)
                            by (nonlinear_arith)
                            requires
                                word_view_seq(v).len() < words_for(len as nat),
                        ;
                    }
                    Err(Error::BytesMismatch)
                } else {
                    proof {
                        assert(bytes_seq(bytes).len() == word_view_seq(v).len() * 8);
                        assert(word_view_seq(v).len() * 8 >= words_for(len as nat) * 8)
                            by (nonlinear_arith)
                            requires
                                word_view_seq(v).len() >= words_for(len as nat),
                        ;
                    }
                    Ok(Self { words: v, len })
                }
            },
        }
    }

    /// Returns the number of bits stored.
    pub fn len(&self) -> (r: usize)
        ensures
            r == self@.len(),
    {
        self.len
    }

    /// Returns the raw word slice.
    pub fn words(&self) -> (r: &[u64])
        ensures
            r@ == self.words_seq(),
    {
        word_view_slice(&self.words)
    }

    /// Returns the number of words stored.
    pub fn num_words(&self) -> (r: usize)
        ensures
            r == self.words_seq().len(),
    {
        word_view_slice(&self.words).len()
    }

    /// Returns the `pos`-th bit, or `None` if out of bounds.
    pub fn access(&self, pos: usize) -> (r: Option<bool>)
        requires
            self.wf(),
        ensures
            r == if pos < self@.len() {
                Some(self@[pos as int])
            } else {
                None::<bool>
            },
    {
        if pos < self.len {
            proof {
                lemma_word_index_bound(pos as int, self.len as nat);
                lemma_pos_decomp(pos as int);
            }
            let block = pos / 64;
            let shift = pos % 64;
            let words = word_view_slice(&self.words);
            Some((words[block] >> (shift as u64)) & 1 == 1)
        } else {
            None
        }
    }

    /// Returns `n` consecutive bits starting at `pos`, as the low bits of
    /// a word, or `None` if `n > 64` or `pos + n` overruns the length.
    pub fn get_bits(&self, pos: usize, n: usize) -> (r: Option<u64>)
        requires
            self.wf(),
        ensures
            match r {
                Some(v) => {
                    &&& n <= 64
                    &&& pos + n <= self@.len()
                    &&& forall|j: u64|
                        j < 64 ==> (#[trigger] nth_bit(v, j) == (j < n && self@[pos + j]))
                },
                None => n > 64 || pos + n > self@.len(),
            },
    {
        if n > 64 || pos > self.len || n > self.len - pos {
            return None;
        }
        if n == 0 {
            proof {
                assert(forall|j: u64| j < 64 ==> !#[trigger] nth_bit(0u64, j)) by (bit_vector);
            }
            return Some(0);
        }
        proof {
            lemma_word_index_bound(pos as int, self.len as nat);
            lemma_pos_decomp(pos as int);
        }
        let block = pos / 64;
        let shift = pos % 64;
        let words = word_view_slice(&self.words);
        let mask = crate::broadword::low_mask_exec(n as u64);
        let a = words[block];
        if shift + n <= 64 {
            let v = (a >> (shift as u64)) & mask;
            proof {
                assert forall|j: u64| j < 64 implies (#[trigger] nth_bit(v, j) == (j < n
                    && self@[pos + j])) by {
                    lemma_nth_bit_mask((a >> (shift as u64)) as u64, n as u64, j);
                    lemma_nth_bit_shr(a, shift as u64, j);
                    if j < n {
                        lemma_word_pos(block as int, shift + j);
                        assert(self@[pos + j] == word_at(self.words_seq(), pos + j));
                    }
                }
            }
            Some(v)
        } else {
            proof {
                lemma_word_index_bound(pos + n - 1, self.len as nat);
                assert((pos + n - 1) / 64 == block + 1) by (nonlinear_arith)
                    requires
                        block == pos as int / 64,
                        shift == pos as int % 64,
                        pos as int == 64 * block + shift,
                        0 <= shift < 64,
                        shift + n > 64,
                        n <= 64,
                ;
            }
            let b = words[block + 1];
            let v = (a >> (shift as u64)) | ((b << ((64 - shift) as u64)) & mask);
            proof {
                let sh = shift as u64;
                let hi = ((b << ((64 - shift) as u64)) & mask) as u64;
                assert forall|j: u64| j < 64 implies (#[trigger] nth_bit(v, j) == (j < n
                    && self@[pos + j])) by {
                    lemma_nth_bit_or((a >> sh) as u64, hi, j);
                    lemma_nth_bit_shr(a, sh, j);
                    lemma_nth_bit_mask((b << ((64 - shift) as u64)) as u64, n as u64, j);
                    lemma_nth_bit_shl(b, (64 - shift) as u64, j);
                    if j < n {
                        if j + sh < 64 {
                            lemma_word_pos(block as int, shift + j);
                        } else {
                            lemma_word_pos(block as int + 1, j + shift - 64);
                        }
                        assert(self@[pos + j] == word_at(self.words_seq(), pos + j));
                    }
                }
            }
            Some(v)
        }
    }

    /// Returns the number of bytes of the words plus legacy metadata.
    pub fn size_in_bytes(&self) -> (r: usize)
        ensures
            r == if 8 * (self.words_seq().len() + 2) <= usize::MAX {
                (8 * (self.words_seq().len() + 2)) as int
            } else {
                usize::MAX as int
            },
    {
        let nw = self.num_words();
        match nw.checked_add(2) {
            Some(s) => match s.checked_mul(8) {
                Some(t) => t,
                None => usize::MAX,
            },
            None => {
                proof {
                    assert(8 * (self.words_seq().len() + 2) > usize::MAX);
                }
                usize::MAX
            },
        }
    }

    /// Serializes the data into a zero-copy byte buffer and its length.
    pub fn to_bytes(&self) -> (r: (usize, anybytes::Bytes))
        ensures
            r.0 == self@.len(),
            bytes_seq(r.1) == le_bytes_of(self.words_seq()),
            bytes_words_ok(r.1),
    {
        (self.len, word_view_to_bytes(&self.words))
    }
}

impl Clone for BitVectorData {
    fn clone(&self) -> (r: Self)
        ensures
            r.words_seq() == self.words_seq(),
            r.len == self.len,
            r@ == self@,
    {
        BitVectorData { words: self.words.clone(), len: self.len }
    }
}

/// Builder that collects raw bits and freezes them into zero-copy data.
pub struct BitVectorBuilder {
    words: Vec<u64>,
    len: usize,
}

impl View for BitVectorBuilder {
    type V = Seq<bool>;

    closed spec fn view(&self) -> Seq<bool> {
        bits_of(self.words_spec(), self.len as nat)
    }
}

impl BitVectorBuilder {
    /// The accumulated words. Canonical: bits beyond the length are zero.
    pub closed spec fn words_spec(&self) -> Seq<u64> {
        self.words@
    }

    /// The word buffer is exactly as long as the bit length calls for, and
    /// every bit at or beyond the length is zero.
    pub closed spec fn wf(&self) -> bool {
        &&& self.words@.len() == words_for(self.len as nat)
        &&& forall|i: int|
            self.len <= i < 64 * self.words@.len() ==> !#[trigger] word_at(self.words@, i)
    }

    /// Creates an empty builder.
    pub fn new() -> (r: Self)
        ensures
            r.wf(),
            r@ == Seq::<bool>::empty(),
    {
        let r = Self { words: Vec::new(), len: 0 };
        proof {
            assert(r@ =~= Seq::<bool>::empty());
        }
        r
    }

    /// Pushes a single bit at the end.
    pub fn push_bit(&mut self, bit: bool)
        requires
            old(self).wf(),
            old(self)@.len() < usize::MAX,
        ensures
            final(self).wf(),
            final(self)@ == old(self)@.push(bit),
    {
        let ghost old_words = self.words@;
        let ghost old_len = self.len as nat;
        proof {
            lemma_words_for_split(old_len);
            lemma_pos_decomp(self.len as int);
        }
        let b: u64 = if bit {
            1
        } else {
            0
        };
        let pos_in_word = self.len % 64;
        if pos_in_word == 0 {
            self.words.push(b);
            proof {
                let nw = self.words@;
                assert forall|i: int| 0 <= i < old_len implies word_at(nw, i) == word_at(
                    old_words,
                    i,
                ) by {
                    lemma_pos_decomp(i);
                    lemma_word_index_bound(i, old_len);
                }
                assert(word_at(nw, old_len as int) == bit) by {
                    lemma_word_pos(old_words.len() as int, 0);
                    assert(b <= 1 ==> nth_bit(b, 0u64) == (b == 1)) by (bit_vector);
                }
                assert forall|i: int| old_len + 1 <= i < 64 * nw.len() implies !word_at(nw, i) by {
                    lemma_pos_decomp(i);
                    if i / 64 < old_words.len() {
                        assert(word_at(old_words, i) == word_at(nw, i));
                    } else {
                        assert(i / 64 == old_words.len()) by (nonlinear_arith)
                            requires
                                i < 64 * (old_words.len() + 1),
                                i == 64 * (i / 64) + i % 64,
                                0 <= i % 64 < 64,
                                i / 64 >= old_words.len(),
                        ;
                        let j = (i % 64) as u64;
                        assert(b <= 1 && j >= 1 ==> !nth_bit(b, j)) by (bit_vector);
                        assert(i % 64 >= 1) by (nonlinear_arith)
                            requires
                                i >= old_len + 1,
                                old_len as int == 64 * (i / 64),
                                i == 64 * (i / 64) + i % 64,
                        ;
                    }
                }
            }
        } else {
            let last = self.words.len() - 1;
            proof {
                assert(self.len as int / 64 == last) by (nonlinear_arith)
                    requires
                        self.len as int == 64 * (self.len as int / 64) + pos_in_word,
                        0 < pos_in_word < 64,
                        last == self.len as int / 64 + 1 - 1,
                        self.words@.len() == self.len as int / 64 + 1,
                ;
            }
            let w = self.words[last];
            let nwv = w | (b << (pos_in_word as u64));
            self.words.set(last, nwv);
            proof {
                let nw = self.words@;
                let p = pos_in_word as u64;
                assert forall|j: u64| j < 64 implies #[trigger] nth_bit(nwv, j) == (nth_bit(w, j)
                    || (j == p && bit)) by {
                    lemma_nth_bit_or(w, (b << p) as u64, j);
                    lemma_nth_bit_shl(b, p, j);
                    assert(b <= 1 ==> nth_bit(b, 0u64) == (b == 1)) by (bit_vector);
                    let t = (j - p) as u64;
                    assert(b <= 1 && t >= 1 ==> !nth_bit(b, t)) by (bit_vector);
                }
                assert forall|i: int| 0 <= i < old_len implies word_at(nw, i) == word_at(
                    old_words,
                    i,
                ) by {
                    lemma_pos_decomp(i);
                    if i / 64 == last {
                        assert(i % 64 < p || i >= old_len) by (nonlinear_arith)
                            requires
                                i == 64 * (i / 64) + i % 64,
                                i / 64 == last,
                                old_len as int == 64 * last + p,
                                0 <= i % 64 < 64,
                        ;
                    }
                }
                assert(word_at(nw, old_len as int) == bit) by {
                    lemma_word_pos(last as int, p as int);
                    assert(!word_at(old_words, old_len as int));
                }
                assert forall|i: int| old_len + 1 <= i < 64 * nw.len() implies !word_at(
                    nw,
                    i,
                ) by {
                    lemma_pos_decomp(i);
                    assert(!word_at(old_words, i));
                    if i / 64 == last {
                        assert(i % 64 != p) by (nonlinear_arith)
                            requires
                                i == 64 * (i / 64) + i % 64,
                                i / 64 == last,
                                old_len as int == 64 * last + p,
                                i >= old_len + 1,
                        ;
                    }
                }
            }
        }
        self.len = self.len + 1;
        proof {
            assert(self@ =~= old(self)@.push(bit));
        }
    }

    /// Pushes the low `n` bits of `bits` at the end; higher bits of the
    /// argument are dropped. Fails exactly when `n` exceeds the word size.
    pub fn push_bits(&mut self, bits: u64, n: usize) -> (r: Result<(), Error>)
        requires
            old(self).wf(),
            old(self)@.len() + 64 <= usize::MAX,
        ensures
            final(self).wf(),
            match r {
                Ok(()) => {
                    &&& n <= 64
                    &&& final(self)@ == old(self)@ + Seq::new(
                        n as nat,
                        |j: int| nth_bit(bits, j as u64),
                    )
                },
                Err(e) => {
                    &&& n > 64
                    &&& e == (Error::PushTooLong { got: n })
                    &&& *final(self) == *old(self)
                },
            },
    {
        if n > 64 {
            return Err(Error::PushTooLong { got: n });
        }
        if n == 0 {
            proof {
                assert(self@ =~= old(self)@ + Seq::new(0, |j: int| nth_bit(bits, j as u64)));
            }
            return Ok(());
        }
        let ghost old_words = self.words@;
        let ghost old_len = self.len as nat;
        proof {
            lemma_words_for_split(old_len);
            lemma_pos_decomp(self.len as int);
        }
        let mask = crate::broadword::low_mask_exec(n as u64);
        let m = bits & mask;
        let pos_in_word = self.len % 64;
        if pos_in_word == 0 {
            self.words.push(m);
            proof {
                let nw = self.words@;
                let base = old_len as int;
                assert forall|i: int| 0 <= i < base implies word_at(nw, i) == word_at(
                    old_words,
                    i,
                ) by {
                    lemma_pos_decomp(i);
                    lemma_word_index_bound(i, old_len);
                }
                assert forall|i: int| base <= i < 64 * nw.len() implies word_at(nw, i) == (i - base
                    < n && nth_bit(bits, (i - base) as u64)) by {
                    lemma_pos_decomp(i);
                    assert(i / 64 == old_words.len() && i % 64 == i - base) by (nonlinear_arith)
                        requires
                            base == 64 * old_words.len(),
                            i == 64 * (i / 64) + i % 64,
                            0 <= i % 64 < 64,
                            base <= i < 64 * (old_words.len() + 1),
                    ;
                    lemma_nth_bit_mask(bits, n as u64, (i - base) as u64);
                }
            }
        } else {
            let last = self.words.len() - 1;
            proof {
                assert(self.len as int / 64 == last) by (nonlinear_arith)
                    requires
                        self.len as int == 64 * (self.len as int / 64) + pos_in_word,
                        0 < pos_in_word < 64,
                        last == self.len as int / 64 + 1 - 1,
                        self.words@.len() == self.len as int / 64 + 1,
                ;
            }
            let w = self.words[last];
            let p = pos_in_word as u64;
            let nwv = w | (m << p);
            self.words.set(last, nwv);
            proof {
                assert forall|j: u64| j < 64 implies #[trigger] nth_bit(nwv, j) == (nth_bit(w, j)
                    || (j >= p && j - p < n && nth_bit(bits, (j - p) as u64))) by {
                    lemma_nth_bit_or(w, (m << p) as u64, j);
                    lemma_nth_bit_shl(m, p, j);
                    if j >= p {
                        lemma_nth_bit_mask(bits, n as u64, (j - p) as u64);
                    }
                }
            }
            if n > 64 - pos_in_word {
                let spill = m >> ((64 - pos_in_word) as u64);
                self.words.push(spill);
                proof {
                    let q = (64 - pos_in_word) as u64;
                    assert forall|j: u64| j < 64 implies #[trigger] nth_bit(spill, j) == (j + q
                        < 64 && j + q < n && nth_bit(bits, (j + q) as u64)) by {
                        lemma_nth_bit_shr(m, q, j);
                        if j + q < 64 {
                            lemma_nth_bit_mask(bits, n as u64, (j + q) as u64);
                        }
                    }
                }
            }
            proof {
                let nw = self.words@;
                let base = old_len as int;
                assert forall|i: int| 0 <= i < base implies word_at(nw, i) == word_at(
                    old_words,
                    i,
                ) by {
                    lemma_pos_decomp(i);
                    if i / 64 == last {
                        assert(i % 64 < p) by (nonlinear_arith)
                            requires
                                i == 64 * (i / 64) + i % 64,
                                i / 64 == last,
                                base == 64 * last + p,
                                0 <= i % 64 < 64,
                                i < base,
                        ;
                    }
                }
                assert forall|i: int| base <= i < 64 * nw.len() implies word_at(nw, i) == (i - base
                    < n && nth_bit(bits, (i - base) as u64)) by {
                    lemma_pos_decomp(i);
                    if i / 64 == last {
                        assert(i % 64 == i - base + p && i - base < 64 - p) by (nonlinear_arith)
                            requires
                                i == 64 * (i / 64) + i % 64,
                                i / 64 == last,
                                base == 64 * last + p,
                                0 <= i % 64 < 64,
                                i >= base,
                        ;
                        assert(!word_at(old_words, i));
                    } else {
                        assert(i / 64 == last + 1 && i % 64 == i - base - (64 - p))
                            by (nonlinear_arith)
                            requires
                                i == 64 * (i / 64) + i % 64,
                                i / 64 != last,
                                base == 64 * last + p,
                                0 <= i % 64 < 64,
                                0 < p < 64,
                                base <= i < 64 * (last + 2),
                        ;
                    }
                }
            }
        }
        let ghost pushed = Seq::new(n as nat, |j: int| nth_bit(bits, j as u64));
        self.len = self.len + n;
        proof {
            lemma_words_for_final(old_len, n as nat, self.words@.len());
            assert(self@ =~= old(self)@ + pushed);
        }
        Ok(())
    }

    /// Sets the `pos`-th bit. Fails exactly when `pos` is out of bounds.
    pub fn set_bit(&mut self, pos: usize, bit: bool) -> (r: Result<(), Error>)
        requires
            old(self).wf(),
        ensures
            final(self).wf(),
            match r {
                Ok(()) => pos < old(self)@.len() && final(self)@ == old(self)@.update(
                    pos as int,
                    bit,
                ),
                Err(e) => {
                    &&& pos >= old(self)@.len()
                    &&& e == (Error::PosOutOfBounds { len: old(self)@.len() as usize, got: pos })
                    &&& *final(self) == *old(self)
                },
            },
    {
        if self.len <= pos {
            return Err(Error::PosOutOfBounds { len: self.len, got: pos });
        }
        let ghost old_words = self.words@;
        proof {
            lemma_word_index_bound(pos as int, self.len as nat);
            lemma_pos_decomp(pos as int);
        }
        let word = pos / 64;
        let p = (pos % 64) as u64;
        let b: u64 = if bit {
            1
        } else {
            0
        };
        let w = self.words[word];
        let nwv = (w & !(1u64 << p)) | (b << p);
        self.words.set(word, nwv);
        proof {
            assert forall|j: u64| j < 64 implies #[trigger] nth_bit(nwv, j) == (if j == p {
                bit
            } else {
                nth_bit(w, j)
            }) by {
                let bb = b;
                assert(nth_bit((w & !(1u64 << p)) | (bb << p), j) == (if j == p {
                    bb == 1
                } else {
                    nth_bit(w, j)
                })) by (bit_vector)
                    requires
                        j < 64,
                        p < 64,
                        bb <= 1,
                ;
            }
            let nw = self.words@;
            assert forall|i: int| 0 <= i < 64 * nw.len() && i != pos implies word_at(nw, i)
                == word_at(old_words, i) by {
                lemma_pos_decomp(i);
                if i / 64 == word {
                    assert(i % 64 != p) by (nonlinear_arith)
                        requires
                            i == 64 * (i / 64) + i % 64,
                            pos as int == 64 * (pos as int / 64) + pos as int % 64,
                            i / 64 == pos as int / 64,
                            i != pos,
                            p == pos as int % 64,
                    ;
                }
            }
            assert(word_at(nw, pos as int) == bit);
            assert(self@ =~= old(self)@.update(pos as int, bit));
        }
        Ok(())
    }

    /// Appends every bit of a slice, in order.
    pub fn extend_bits(&mut self, bits: &[bool])
        requires
            old(self).wf(),
            old(self)@.len() + bits@.len() <= usize::MAX,
        ensures
            final(self).wf(),
            final(self)@ == old(self)@ + bits@,
    {
        let n = bits.len();
        let mut i: usize = 0;
        while i < n
            invariant
                self.wf(),
                i <= n,
                n == bits@.len(),
                self@ == old(self)@ + bits@.take(i as int),
                old(self)@.len() + bits@.len() <= usize::MAX,
            decreases n - i,
        {
            self.push_bit(bits[i]);
            proof {
                assert(bits@.take(i + 1) =~= bits@.take(i as int).push(bits@[i as int]));
                assert(self@ =~= old(self)@ + bits@.take(i + 1));
            }
            i = i + 1;
        }
        proof {
            assert(bits@.take(n as int) =~= bits@);
        }
    }

    /// Publishes the accumulated words as immutable zero-copy data.
    pub fn into_data(self) -> (r: BitVectorData)
        requires
            self.wf(),
        ensures
            r.wf(),
            r@ == self@,
            r.words_seq() == self.words_spec(),
            r.len == self@.len(),
    {
        let len = self.len;
        let view = word_view_from_vec(self.words);
        BitVectorData { words: view, len }
    }

    /// Serializes the accumulated words into a zero-copy byte buffer,
    /// without building any index.
    pub fn into_bytes(self) -> (r: (usize, anybytes::Bytes))
        requires
            self.wf(),
        ensures
            r.0 == self@.len(),
            bytes_seq(r.1) == le_bytes_of(self.words_spec()),
            bytes_seq(r.1).len() == words_for(self@.len()) * 8,
            bytes_words_ok(r.1),
    {
        (self.len, words_into_bytes(self.words))
    }
}

impl Default for BitVectorBuilder {
    fn default() -> (r: Self)
        ensures
            r.wf(),
            r@ == Seq::<bool>::empty(),
    {
        Self::new()
    }
}

impl Clone for BitVectorBuilder {
    fn clone(&self) -> (r: Self)
        ensures
            r.wf() == self.wf(),
            r@ == self@,
            r.words_spec() == self.words_spec(),
    {
        BitVectorBuilder { words: self.words.clone(), len: self.len }
    }
}

/// Builders holding equal bit sequences hold equal word buffers: the
/// packing is canonical, so equal operation histories give byte-equal
/// backing buffers.
pub proof fn lemma_builder_words_canonical(b1: &BitVectorBuilder, b2: &BitVectorBuilder)
    requires
        b1.wf(),
        b2.wf(),
        b1@ == b2@,
    ensures
        b1.words_spec() == b2.words_spec(),
{
    let w1 = b1.words_spec();
    let w2 = b2.words_spec();
    let len = b1@.len();
    assert(bits_of(w1, len).len() == len);
    assert(bits_of(w2, b2@.len()).len() == b2@.len());
    assert(w1.len() == words_for(len) && w2.len() == words_for(len));
    assert forall|k: int| 0 <= k < w1.len() implies w1[k] == w2[k] by {
        assert forall|j: u64| j < 64 implies nth_bit(w1[k], j) == nth_bit(w2[k], j) by {
            let i: int = 64 * k + (j as int);
            lemma_word_pos(k, j as int);
            assert(i < 64 * w1.len()) by (nonlinear_arith)
                requires
                    0 <= k < w1.len(),
                    j < 64,
                    i == 64 * k + (j as int),
            ;
            assert(word_at(w1, i) == nth_bit(w1[k], j));
            assert(word_at(w2, i) == nth_bit(w2[k], j));
            if i < len {
                assert(bits_of(w1, len)[i] == word_at(w1, i));
                assert(bits_of(w2, len)[i] == word_at(w2, i));
                assert(b1@ == bits_of(w1, len));
                assert(b2@ == bits_of(w2, len));
                assert(b1@[i] == b2@[i]);
            } else {
                assert(!word_at(w1, i));
                assert(!word_at(w2, i));
            }
        }
        crate::broadword::lemma_word_ext(w1[k], w2[k]);
    }
    assert(w1 =~= w2);
}

/// Arithmetic for the builder: after pushing `n <= 64` bits starting at a
/// word boundary or into a partial word, the buffer length is again the
/// number of words the new length calls for.
proof fn lemma_words_for_final(old_len: nat, n: nat, new_words: nat)
    requires
        1 <= n <= 64,
        old_len % 64 == 0 ==> new_words == words_for(old_len) + 1,
        old_len % 64 != 0 ==> {
            &&& (n <= 64 - (old_len % 64) ==> new_words == words_for(old_len))
            &&& (n > 64 - (old_len % 64) ==> new_words == words_for(old_len) + 1)
        },
    ensures
        new_words == words_for((old_len + n) as nat),
{
    vstd::arithmetic::div_mod::lemma_fundamental_div_mod(old_len as int, 64);
    vstd::arithmetic::div_mod::lemma_fundamental_div_mod(old_len as int + 63, 64);
    vstd::arithmetic::div_mod::lemma_fundamental_div_mod(old_len as int + n + 63, 64);
    lemma_words_for_split(old_len);
    let q = old_len as int / 64;
    let r = old_len as int % 64;
    if r == 0 {
        assert(words_for((old_len + n) as nat) == q + 1) by (nonlinear_arith)
            requires
                old_len as int == 64 * q,
                1 <= n <= 64,
                (old_len as int + n + 63) == 64 * ((old_len as int + n + 63) / 64) + (old_len
                    as int + n + 63) % 64,
                0 <= (old_len as int + n + 63) % 64 < 64,
                words_for((old_len + n) as nat) == (old_len as int + n + 63) / 64,
        ;
    } else if n <= 64 - r {
        assert(words_for((old_len + n) as nat) == q + 1) by (nonlinear_arith)
            requires
                old_len as int == 64 * q + r,
                0 < r < 64,
                1 <= n <= 64 - r,
                (old_len as int + n + 63) == 64 * ((old_len as int + n + 63) / 64) + (old_len
                    as int + n + 63) % 64,
                0 <= (old_len as int + n + 63) % 64 < 64,
                words_for((old_len + n) as nat) == (old_len as int + n + 63) / 64,
        ;
    } else {
        assert(words_for((old_len + n) as nat) == q + 2) by (nonlinear_arith)
            requires
                old_len as int == 64 * q + r,
                0 < r < 64,
                64 - r < n <= 64,
                (old_len as int + n + 63) == 64 * ((old_len as int + n + 63) / 64) + (old_len
                    as int + n + 63) % 64,
                0 <= (old_len as int + n + 63) % 64 < 64,
                words_for((old_len + n) as nat) == (old_len as int + n + 63) / 64,
        ;
    }
}

/// Returns the number of words a scan over the data visits, with handy
/// bounds on the last word.
pub(crate) fn needed_words(data: &BitVectorData) -> (r: usize)
    ensures
        r == words_for(data.len as nat),
        64 * r >= data.len,
        forall|w: int| 0 <= w < r ==> #[trigger] (64 * w) < data.len,
{
    let r = crate::utils::ceiled_divide(data.len, 64);
    proof {
        assert(64 * r >= data.len) by (nonlinear_arith)
            requires
                r * 64 >= data.len,
        ;
        assert forall|w: int| 0 <= w < r implies #[trigger] (64 * w) < data.len by {
            assert(64 * w <= 64 * (r - 1)) by (nonlinear_arith)
                requires
                    w <= r - 1,
                    w >= 0,
            ;
            assert(64 * (r - 1) < data.len) by (nonlinear_arith)
                requires
                    data.len > 0,
                    (r - 1) * 64 < data.len,
            ;
        }
    }
    r
}

/// Reads the word a polarity scan uses at word index `w`: the raw word for
/// ones, its complement for zeros, bits at or beyond the length masked off.
pub(crate) fn polarity_word(data: &BitVectorData, w: usize, p: bool) -> (ew: u64)
    requires
        data.wf(),
        w < words_for(data.len as nat),
        64 * w < data.len,
    ensures
        ew == eff_word(data.words_seq(), data.len as nat, w as int, p),
        forall|j: u64|
            j < 64 ==> (#[trigger] nth_bit(ew, j) == (64 * w + j < data@.len() && pol_bits(
                data@,
                p,
            )[64 * (w as int) + j])),
{
    let words = word_view_slice(&data.words);
    let raw = if p {
        words[w]
    } else {
        !words[w]
    };
    let rem = data.len - 64 * w;
    let ew = if rem >= 64 {
        raw
    } else {
        raw & crate::broadword::low_mask_exec(rem as u64)
    };
    proof {
        lemma_eff_word_bits(data.words_seq(), data.len as nat, w as int, p);
        let e = eff_word(data.words_seq(), data.len as nat, w as int, p);
        assert(ew == e);
        assert forall|j: u64| j < 64 implies (#[trigger] nth_bit(ew, j) == (64 * w + j
            < data@.len() && pol_bits(data@, p)[64 * (w as int) + j])) by {
            assert(nth_bit(e, j) == (64 * w + j < data@.len() && pol_bits(data@, p)[64 * (
            w as int) + j]));
        }
    }
    ew
}

/// Scans words for the `(k+1)`-th bit of polarity `p`.
fn select_scan(data: &BitVectorData, k: usize, p: bool) -> (r: Option<usize>)
    requires
        data.wf(),
    ensures
        select_answer_ok(pol_bits(data@, p), k as nat, r),
{
    let ghost s = pol_bits(data@, p);
    let nw = needed_words(data);
    let mut w: usize = 0;
    let mut cur: usize = 0;
    while w < nw
        invariant
            data.wf(),
            w <= nw,
            nw == words_for(data.len as nat),
            s == pol_bits(data@, p),
            cur == rank_of(s, clip(s, 64 * w)),
            cur <= k,
            forall|ww: int| 0 <= ww < nw ==> #[trigger] (64 * ww) < data.len,
        decreases nw - w,
    {
        let ew = polarity_word(data, w, p);
        let cnt = popcount(ew);
        proof {
            lemma_rank_count(s, 64 * w, ew, 64);
            lemma_rank_of_le(s, clip(s, 64 * w + 64));
        }
        if k - cur < cnt {
            let j = select_in_word(ew, k - cur);
            proof {
                assert(64 * w + j < data@.len() && s[64 * (w as int) + (j as int)]);
                lemma_rank_count(s, 64 * w, ew, j as int);
            }
            let pos = 64 * w + j;
            proof {
                assert(is_select(s, k as nat, pos as int));
            }
            return Some(pos);
        }
        cur = cur + cnt;
        w = w + 1;
    }
    proof {
        assert(clip(s, 64 * nw) == s.len());
        assert(cur == total_ones(s));
    }
    None
}

/// Index trait for bit vector data: an index is built over frozen data and
/// answers counting queries against the bit sequence the data stores.
pub trait BitVectorIndex: Sized {
    /// The index matches the given data.
    spec fn inv(&self, data: &BitVectorData) -> bool;

    /// Constructs an index from bit vector data.
    fn build(data: &BitVectorData) -> (r: Self)
        requires
            data.wf(),
        ensures
            r.inv(data),
    ;

    /// Counts set bits in the data.
    fn num_ones(&self, data: &BitVectorData) -> (r: usize)
        requires
            data.wf(),
            self.inv(data),
        ensures
            r == total_ones(data@),
    ;

    /// Counts unset bits in the data.
    fn num_zeros(&self, data: &BitVectorData) -> (r: usize)
        requires
            data.wf(),
            self.inv(data),
        ensures
            r == data@.len() - total_ones(data@),
    ;

    /// Counts set bits below `pos`, or `None` if `pos` exceeds the length.
    fn rank1(&self, data: &BitVectorData, pos: usize) -> (r: Option<usize>)
        requires
            data.wf(),
            self.inv(data),
        ensures
            match r {
                Some(c) => pos <= data@.len() && c == rank_of(data@, pos as int),
                None => pos > data@.len(),
            },
    ;

    /// Counts unset bits below `pos`, or `None` if `pos` exceeds the length.
    fn rank0(&self, data: &BitVectorData, pos: usize) -> (r: Option<usize>)
        requires
            data.wf(),
            self.inv(data),
        ensures
            match r {
                Some(c) => pos <= data@.len() && c == pos - rank_of(data@, pos as int),
                None => pos > data@.len(),
            },
    ;

    /// Selects the `(k+1)`-th set bit.
    fn select1(&self, data: &BitVectorData, k: usize) -> (r: Option<usize>)
        requires
            data.wf(),
            self.inv(data),
        ensures
            select_answer_ok(data@, k as nat, r),
    ;

    /// Selects the `(k+1)`-th unset bit.
    fn select0(&self, data: &BitVectorData, k: usize) -> (r: Option<usize>)
        requires
            data.wf(),
            self.inv(data),
        ensures
            select_answer_ok(pol_bits(data@, false), k as nat, r),
    ;
}

/// Placeholder index that answers every query by a linear scan.
#[derive(Clone, Copy, Debug, PartialEq, Eq, Structural)]
pub struct NoIndex;

impl BitVectorIndex for NoIndex {
    open spec fn inv(&self, data: &BitVectorData) -> bool {
        true
    }

    fn build(data: &BitVectorData) -> (r: Self) {
        NoIndex
    }

    fn num_ones(&self, data: &BitVectorData) -> (r: usize) {
        let ghost s = data@;
        proof {
            lemma_pol_bits_true(s);
        }
        let nw = needed_words(data);
        let mut w: usize = 0;
        let mut acc: usize = 0;
        while w < nw
            invariant
                data.wf(),
                w <= nw,
                nw == words_for(data.len as nat),
                s == data@,
                acc == rank_of(s, clip(s, 64 * w)),
                forall|ww: int| 0 <= ww < nw ==> #[trigger] (64 * ww) < data.len,
            decreases nw - w,
        {
            let ew = polarity_word(data, w, true);
            let cnt = popcount(ew);
            proof {
                lemma_rank_count(s, 64 * w, ew, 64);
                lemma_rank_of_le(s, clip(s, 64 * w + 64));
            }
            acc = acc + cnt;
            w = w + 1;
        }
        proof {
            assert(clip(s, 64 * nw) == s.len());
        }
        acc
    }

    fn num_zeros(&self, data: &BitVectorData) -> (r: usize) {
        let ones = self.num_ones(data);
        proof {
            lemma_rank_of_le(data@, data@.len() as int);
        }
        data.len - ones
    }

    fn rank1(&self, data: &BitVectorData, pos: usize) -> (r: Option<usize>) {
        if pos > data.len {
            return None;
        }
        let ghost s = data@;
        proof {
            lemma_pol_bits_true(s);
            lemma_pos_decomp(pos as int);
        }
        let wpos = pos / 64;
        let left = pos % 64;
        let mut w: usize = 0;
        let mut acc: usize = 0;
        proof {
            if pos > 0 {
                lemma_word_index_bound(pos - 1, data.len as nat);
            }
            vstd::arithmetic::div_mod::lemma_div_is_ordered(pos as int, data.len as int, 64);
            lemma_words_for_split(data.len as nat);
        }
        while w < wpos
            invariant
                data.wf(),
                w <= wpos,
                pos <= data.len,
                wpos == pos as int / 64,
                left == pos as int % 64,
                pos as int == 64 * wpos + left,
                wpos <= words_for(data.len as nat),
                s == data@,
                acc == rank_of(s, 64 * w),
            decreases wpos - w,
        {
            proof {
                assert(64 * w + 64 <= 64 * wpos) by (nonlinear_arith)
                    requires
                        w < wpos,
                ;
            }
            let ew = polarity_word(data, w, true);
            let cnt = popcount(ew);
            proof {
                lemma_rank_count(s, 64 * w, ew, 64);
                lemma_rank_of_le(s, 64 * w + 64);
                assert(clip(s, 64 * w + 64) == 64 * w + 64);
            }
            acc = acc + cnt;
            w = w + 1;
        }
        if left != 0 {
            proof {
                lemma_word_index_bound(pos - 1, data.len as nat);
                assert((pos - 1) as int / 64 == wpos) by (nonlinear_arith)
                    requires
                        pos as int == 64 * wpos + left,
                        0 < left < 64,
                        (pos - 1) as int == 64 * ((pos - 1) as int / 64) + (pos - 1) as int % 64,
                        0 <= (pos - 1) as int % 64 < 64,
                ;
            }
            let ew = polarity_word(data, wpos, true);
            let m = ew & crate::broadword::low_mask_exec(left as u64);
            let cnt = popcount(m);
            proof {
                lemma_pop_mask(ew, left as u64);
                lemma_rank_count(s, 64 * wpos, ew, left as int);
                lemma_rank_of_le(s, pos as int);
                assert(clip(s, 64 * wpos + left) == pos);
            }
            acc = acc + cnt;
        }
        Some(acc)
    }

    fn rank0(&self, data: &BitVectorData, pos: usize) -> (r: Option<usize>) {
        match self.rank1(data, pos) {
            Some(c) => {
                proof {
                    lemma_rank_of_le(data@, pos as int);
                }
                Some(pos - c)
            },
            None => None,
        }
    }

    fn select1(&self, data: &BitVectorData, k: usize) -> (r: Option<usize>) {
        let r = select_scan(data, k, true);
        proof {
            lemma_pol_bits_true(data@);
        }
        r
    }

    fn select0(&self, data: &BitVectorData, k: usize) -> (r: Option<usize>) {
        select_scan(data, k, false)
    }
}

/// Immutable bit vector data combined with an auxiliary index.
pub struct BitVector<I> {
    /// Raw data bits.
    pub data: BitVectorData,
    /// Associated index.
    pub index: I,
}

impl<I> View for BitVector<I> {
    type V = Seq<bool>;

    open spec fn view(&self) -> Seq<bool> {
        self.data@
    }
}

impl<I: BitVectorIndex> BitVector<I> {
    /// The data is well formed and the index was built over it.
    pub open spec fn wf(&self) -> bool {
        self.data.wf() && self.index.inv(&self.data)
    }

    /// Creates a new wrapper from data and index.
    pub fn new(data: BitVectorData, index: I) -> (r: Self)
        requires
            data.wf(),
            index.inv(&data),
        ensures
            r.wf(),
            r@ == data@,
            r.data == data,
    {
        Self { data, index }
    }

    /// Returns the number of bits stored.
    pub fn len(&self) -> (r: usize)
        ensures
            r == self@.len(),
    {
        self.data.len()
    }

    /// Returns `n` bits starting at `pos`, or `None` if out of bounds.
    pub fn get_bits(&self, pos: usize, n: usize) -> (r: Option<u64>)
        requires
            self.wf(),
        ensures
            match r {
                Some(v) => {
                    &&& n <= 64
                    &&& pos + n <= self@.len()
                    &&& forall|j: u64|
                        j < 64 ==> (#[trigger] nth_bit(v, j) == (j < n && self@[pos + j]))
                },
                None => n > 64 || pos + n > self@.len(),
            },
    {
        self.data.get_bits(pos, n)
    }
}

impl<I: Clone> Clone for BitVector<I> {
    fn clone(&self) -> (r: Self)
        ensures
            r.data.words_seq() == self.data.words_seq(),
            r.data.len == self.data.len,
            r@ == self@,
    {
        BitVector { data: self.data.clone(), index: self.index.clone() }
    }
}

impl BitVectorBuilder {
    /// Finalizes the builder into an indexed bit vector, publishing the
    /// word buffer zero-copy and building the index over it.
    pub fn freeze<I: BitVectorIndex>(self) -> (r: BitVector<I>)
        requires
            self.wf(),
        ensures
            r.wf(),
            r@ == self@,
            r.data.words_seq() == self.words_spec(),
            r.data.len == self@.len(),
    {
        let data = self.into_data();
        let index = I::build(&data);
        BitVector { data, index }
    }
}

impl<I: BitVectorIndex> crate::traits::NumBits for BitVector<I> {
    open spec fn counts_ready(&self) -> bool {
        self.wf()
    }

    fn num_bits(&self) -> (r: usize) {
        self.data.len()
    }

    fn num_ones(&self) -> (r: usize) {
        self.index.num_ones(&self.data)
    }

    fn num_zeros(&self) -> (r: usize) {
        self.index.num_zeros(&self.data)
    }
}

impl<I: BitVectorIndex> crate::traits::Access for BitVector<I> {
    open spec fn access_ready(&self) -> bool {
        self.data.wf()
    }

    fn access(&self, pos: usize) -> (r: Option<bool>) {
        self.data.access(pos)
    }
}

impl<I: BitVectorIndex> crate::traits::Rank for BitVector<I> {
    open spec fn rank_ready(&self) -> bool {
        self.wf()
    }

    fn rank1(&self, pos: usize) -> (r: Option<usize>) {
        self.index.rank1(&self.data, pos)
    }

    fn rank0(&self, pos: usize) -> (r: Option<usize>) {
        self.index.rank0(&self.data, pos)
    }
}

impl<I: BitVectorIndex> crate::traits::Select for BitVector<I> {
    open spec fn select1_ready(&self) -> bool {
        self.wf()
    }

    open spec fn select0_ready(&self) -> bool {
        self.wf()
    }

    fn select1(&self, k: usize) -> (r: Option<usize>) {
        self.index.select1(&self.data, k)
    }

    fn select0(&self, k: usize) -> (r: Option<usize>) {
        self.index.select0(&self.data, k)
    }
}

/// Compares two word slices element by element.
pub(crate) fn eq_words(a: &[u64], b: &[u64]) -> (r: bool)
    ensures
        r == (a@ == b@),
{
    if a.len() != b.len() {
        proof {
            assert(a@.len() != b@.len());
        }
        return false;
    }
    let n = a.len();
    let mut i: usize = 0;
    while i < n
        invariant
            n == a@.len(),
            n == b@.len(),
            i <= n,
            forall|t: int| 0 <= t < i ==> a@[t] == b@[t],
        decreases n - i,
    {
        if a[i] != b[i] {
            return false;
        }
        i = i + 1;
    }
    proof {
        assert(a@ =~= b@);
    }
    true
}

impl PartialEq for BitVectorData {
    fn eq(&self, other: &Self) -> (r: bool) {
        self.len == other.len && eq_words(self.words(), other.words())
    }
}

impl vstd::std_specs::cmp::PartialEqSpecImpl for BitVectorData {
    open spec fn obeys_eq_spec() -> bool {
        true
    }

    open spec fn eq_spec(&self, other: &Self) -> bool {
        self.len == other.len && self.words_seq() == other.words_seq()
    }
}

impl Eq for BitVectorData {

}

impl PartialEq for BitVector<NoIndex> {
    fn eq(&self, other: &Self) -> (r: bool) {
        self.data.len == other.data.len && eq_words(self.data.words(), other.data.words())
    }
}

impl vstd::std_specs::cmp::PartialEqSpecImpl for BitVector<NoIndex> {
    open spec fn obeys_eq_spec() -> bool {
        true
    }

    open spec fn eq_spec(&self, other: &Self) -> bool {
        self.data.len == other.data.len && self.data.words_seq() == other.data.words_seq()
    }
}

impl Eq for BitVector<NoIndex> {

}

/// A builder's bit count is a machine word.
pub proof fn lemma_builder_len_bound(b: &BitVectorBuilder)
    ensures
        b@.len() <= usize::MAX,
{
}

impl From<BitVectorData> for BitVector<NoIndex> {
    fn from(data: BitVectorData) -> (r: Self) {
        BitVector { data, index: NoIndex }
    }
}

impl vstd::std_specs::convert::FromSpecImpl<BitVectorData> for BitVector<NoIndex> {
    open spec fn obeys_from_spec() -> bool {
        true
    }

    open spec fn from_spec(t: BitVectorData) -> Self {
        BitVector { data: t, index: NoIndex }
    }
}

} // verus!
