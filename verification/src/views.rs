//! Zero-copy backing storage, built on the `anybytes` crate.
//!
//! A frozen container hands its word buffer to a reference-counted byte
//! owner and keeps only a typed view of it; reconstruction wraps an
//! externally owned byte buffer the same way. `anybytes::View` carries
//! `zerocopy` trait bounds in its generics, which Verus cannot declare, so
//! the two concrete views this crate needs are held in opaque structs of
//! our own, and every operation on them is a trusted wrapper whose
//! contract speaks of the named contents below.

use vstd::prelude::*;

verus! {

/// An immutable, reference-counted view of a buffer of 64-bit words.
#[verifier::external_body]
pub struct WordView {
    inner: anybytes::View<[u64]>,
}

/// An immutable, reference-counted view of a byte buffer.
#[verifier::external_body]
pub struct ByteView {
    inner: anybytes::View<[u8]>,
}

#[verifier::external_type_specification]
#[verifier::external_body]
pub struct ExBytes(anybytes::Bytes);

/// The words a [`WordView`] holds.
pub uninterp spec fn word_view_seq(v: WordView) -> Seq<u64>;

/// The bytes a [`ByteView`] holds.
pub uninterp spec fn byte_view_seq(v: ByteView) -> Seq<u8>;

/// The bytes an `anybytes::Bytes` buffer holds.
pub uninterp spec fn bytes_seq(b: anybytes::Bytes) -> Seq<u8>;

/// Whether this particular byte buffer can be reinterpreted as a buffer of
/// 64-bit words: its address is word-aligned and its length is a whole
/// number of words. A property of the buffer value, not of its contents.
pub uninterp spec fn bytes_words_ok(b: anybytes::Bytes) -> bool;

/// The little-endian byte serialization of a word sequence: byte `i` is
/// bits `[8 (i mod 8), 8 (i mod 8) + 8)` of word `i / 8`.
pub open spec fn le_bytes_of(words: Seq<u64>) -> Seq<u8> {
    Seq::new(words.len() * 8, |i: int| (words[i / 8] >> ((8 * (i % 8)) as u64)) as u8)
}

/// Relies on `anybytes::Bytes::from_source` over a `Vec<u64>` and
/// `Bytes::view::<[u64]>`: the view exposes exactly the words of the
/// vector. The vector's buffer is word-aligned and a whole number of
/// words, so the view conversion cannot fail.
#[verifier::external_body]
pub fn word_view_from_vec(words: Vec<u64>) -> (r: WordView)
    ensures
        word_view_seq(r) == words@,
{
    WordView { inner: anybytes::Bytes::from_source(words).view::<[u64]>().unwrap() }
}

/// Relies on `anybytes::View` dereferencing to the viewed slice.
#[verifier::external_body]
pub fn word_view_slice(v: &WordView) -> (r: &[u64])
    ensures
        r@ == word_view_seq(*v),
{
    v.inner.as_ref()
}

/// Relies on `anybytes::View::bytes`: the returned buffer is the same
/// memory as the viewed words, hence their little-endian serialization on
/// this target, and can be re-viewed as words.
#[verifier::external_body]
pub fn word_view_to_bytes(v: &WordView) -> (r: anybytes::Bytes)
    ensures
        bytes_seq(r) == le_bytes_of(word_view_seq(*v)),
        bytes_words_ok(r),
{
    v.inner.clone().bytes()
}

/// Relies on `anybytes::Bytes::from_source` over a `Vec<u64>`: the buffer
/// holds the words' little-endian serialization on this target and is
/// word-aligned.
#[verifier::external_body]
pub fn words_into_bytes(words: Vec<u64>) -> (r: anybytes::Bytes)
    ensures
        bytes_seq(r) == le_bytes_of(words@),
        bytes_words_ok(r),
{
    anybytes::Bytes::from_source(words)
}

/// Relies on `anybytes::Bytes::view::<[u64]>`: it succeeds exactly when
/// the buffer is word-aligned and a whole number of words, and then views
/// the same memory, so the viewed words serialize back to the buffer's
/// bytes on this little-endian target.
#[verifier::external_body]
pub fn bytes_to_word_view(b: anybytes::Bytes) -> (r: Option<WordView>)
    ensures
        match r {
            Some(v) => bytes_words_ok(b) && le_bytes_of(word_view_seq(v)) == bytes_seq(b),
            None => !bytes_words_ok(b),
        },
{
    match b.view::<[u64]>() {
        Ok(v) => Some(WordView { inner: v }),
        Err(_) => None,
    }
}

/// Relies on `anybytes::Bytes::from_source` over a `Vec<u8>` and
/// `Bytes::view::<[u8]>`: a byte view over a byte buffer always succeeds
/// and exposes exactly the vector's bytes.
#[verifier::external_body]
pub fn byte_view_from_vec(bytes: Vec<u8>) -> (r: ByteView)
    ensures
        byte_view_seq(r) == bytes@,
{
    ByteView { inner: anybytes::Bytes::from_source(bytes).view::<[u8]>().unwrap() }
}

/// Relies on `anybytes::View` dereferencing to the viewed slice.
#[verifier::external_body]
pub fn byte_view_slice(v: &ByteView) -> (r: &[u8])
    ensures
        r@ == byte_view_seq(*v),
{
    v.inner.as_ref()
}

impl Clone for WordView {
    /// Relies on `anybytes::View::clone`: a clone views the same memory.
    #[verifier::external_body]
    fn clone(&self) -> (r: Self)
        ensures
            word_view_seq(r) == word_view_seq(*self),
    {
        WordView { inner: self.inner.clone() }
    }
}

impl Clone for ByteView {
    /// Relies on `anybytes::View::clone`: a clone views the same memory.
    #[verifier::external_body]
    fn clone(&self) -> (r: Self)
        ensures
            byte_view_seq(r) == byte_view_seq(*self),
    {
        ByteView { inner: self.inner.clone() }
    }
}

proof fn lemma_le_byte_eq(w1: Seq<u64>, w2: Seq<u64>, k: int, t: int)
    requires
        le_bytes_of(w1) == le_bytes_of(w2),
        w1.len() == w2.len(),
        0 <= k < w1.len(),
        0 <= t < 8,
    ensures
        ((w1[k] >> ((8 * t) as u64)) as u8) == ((w2[k] >> ((8 * t) as u64)) as u8),
{
    let i = 8 * k + t;
    assert(i / 8 == k && i % 8 == t && 0 <= i && i < w1.len() * 8) by (nonlinear_arith)
        requires
            0 <= t < 8,
            0 <= k < w1.len(),
            i == 8 * k + t,
    ;
    assert(le_bytes_of(w1)[i] == ((w1[i / 8] >> ((8 * (i % 8)) as u64)) as u8));
    assert(le_bytes_of(w2)[i] == ((w2[i / 8] >> ((8 * (i % 8)) as u64)) as u8));
    assert(le_bytes_of(w1)[i] == le_bytes_of(w2)[i]);
}

/// Two word sequences with the same little-endian serialization are equal.
pub proof fn lemma_le_bytes_injective(w1: Seq<u64>, w2: Seq<u64>)
    requires
        le_bytes_of(w1) == le_bytes_of(w2),
    ensures
        w1 == w2,
{
    assert(le_bytes_of(w1).len() == w1.len() * 8);
    assert(le_bytes_of(w2).len() == w2.len() * 8);
    assert(w1.len() == w2.len()) by (nonlinear_arith)
        requires
            w1.len() * 8 == w2.len() * 8,
    ;
    assert forall|k: int| 0 <= k < w1.len() implies w1[k] == w2[k] by {
        let a = w1[k];
        let b = w2[k];
        lemma_le_byte_eq(w1, w2, k, 0);
        lemma_le_byte_eq(w1, w2, k, 1);
        lemma_le_byte_eq(w1, w2, k, 2);
        lemma_le_byte_eq(w1, w2, k, 3);
        lemma_le_byte_eq(w1, w2, k, 4);
        lemma_le_byte_eq(w1, w2, k, 5);
        lemma_le_byte_eq(w1, w2, k, 6);
        lemma_le_byte_eq(w1, w2, k, 7);
        assert(((a >> 0u64) as u8) == ((b >> 0u64) as u8));
        assert(((a >> 8u64) as u8) == ((b >> 8u64) as u8));
        assert(((a >> 16u64) as u8) == ((b >> 16u64) as u8));
        assert(((a >> 24u64) as u8) == ((b >> 24u64) as u8));
        assert(((a >> 32u64) as u8) == ((b >> 32u64) as u8));
        assert(((a >> 40u64) as u8) == ((b >> 40u64) as u8));
        assert(((a >> 48u64) as u8) == ((b >> 48u64) as u8));
        assert(((a >> 56u64) as u8) == ((b >> 56u64) as u8));
        assert(a == b) by (bit_vector)
            requires
                ((a >> 0u64) as u8) == ((b >> 0u64) as u8),
                ((a >> 8u64) as u8) == ((b >> 8u64) as u8),
                ((a >> 16u64) as u8) == ((b >> 16u64) as u8),
                ((a >> 24u64) as u8) == ((b >> 24u64) as u8),
                ((a >> 32u64) as u8) == ((b >> 32u64) as u8),
                ((a >> 40u64) as u8) == ((b >> 40u64) as u8),
                ((a >> 48u64) as u8) == ((b >> 48u64) as u8),
                ((a >> 56u64) as u8) == ((b >> 56u64) as u8),
        ;
    }
    assert(w1 =~= w2);
}

} // verus!
