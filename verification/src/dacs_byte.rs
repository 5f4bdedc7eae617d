//! Compressed integer sequence using directly addressable codes at byte
//! granularity.
//!
//! Each level stores one byte of every value that is wide enough to reach
//! it, and a flag bit vector per level (except the last) says whether a
//! value continues into the next level. A value is decoded by walking the
//! levels, using rank over the flags to find its row in the next level.

use vstd::prelude::*;

use crate::bit_vector::{BitVector, BitVectorBuilder};
use crate::bitseq::rank_of;
use crate::broadword::low_mask;
use crate::error::Error;
use crate::rank9sel::Rank9SelIndex;
use crate::utils::fits_width;
use crate::views::{byte_view_from_vec, byte_view_seq, byte_view_slice, ByteView};

verus! {

/// Whether a value is wide enough to reach byte level `j`: every value
/// reaches level zero, and a value reaches a later level exactly when its
/// bits at or above `8 j` are not all zero.
pub open spec fn reaches(x: u64, j: int) -> bool {
    if j <= 0 {
        true
    } else if j >= 8 {
        false
    } else {
        x >> ((8 * j) as u64) != 0
    }
}

/// Reaching a level implies reaching every earlier level.
pub proof fn lemma_reaches_monotone(x: u64, j: int)
    requires
        0 <= j,
    ensures
        reaches(x, j + 1) ==> reaches(x, j),
{
    if 1 <= j < 7 {
        let jj = j as u64;
        assert((x >> ((8 * (jj + 1)) as u64) != 0 ==> x >> ((8 * jj) as u64) != 0))
            by (bit_vector)
            requires
                1 <= jj < 7,
        ;
    }
}

/// The number of values among the first `pos` that reach level `j`.
pub open spec fn count_reach(vs: Seq<u64>, pos: int, j: int) -> nat
    decreases pos,
{
    if pos <= 0 {
        0
    } else {
        count_reach(vs, pos - 1, j) + (if reaches(vs[pos - 1], j) {
            1nat
        } else {
            0nat
        })
    }
}

/// The subsequence of values that reach level `j`, in order.
pub open spec fn level_vals(vs: Seq<u64>, j: int) -> Seq<u64>
    decreases vs.len(),
{
    if vs.len() == 0 {
        Seq::empty()
    } else {
        let prefix = level_vals(vs.drop_last(), j);
        if reaches(vs.last(), j) {
            prefix.push(vs.last())
        } else {
            prefix
        }
    }
}

/// Every value reaches level zero.
pub proof fn lemma_level_zero(vs: Seq<u64>)
    ensures
        level_vals(vs, 0) == vs,
    decreases vs.len(),
{
    if vs.len() > 0 {
        lemma_level_zero(vs.drop_last());
        assert(level_vals(vs, 0) =~= vs);
    } else {
        assert(level_vals(vs, 0) =~= vs);
    }
}

/// Counting depends only on the counted prefix.
pub proof fn lemma_count_reach_agree(vs1: Seq<u64>, vs2: Seq<u64>, pos: int, j: int)
    requires
        forall|i: int| 0 <= i < pos ==> vs1[i] == vs2[i],
    ensures
        count_reach(vs1, pos, j) == count_reach(vs2, pos, j),
    decreases pos,
{
    if pos > 0 {
        lemma_count_reach_agree(vs1, vs2, pos - 1, j);
    }
}

/// Counting is monotone and counts at most one per position.
pub proof fn lemma_count_reach_monotone(vs: Seq<u64>, a: int, b: int, j: int)
    requires
        a <= b,
    ensures
        count_reach(vs, a, j) <= count_reach(vs, b, j),
        count_reach(vs, b, j) - count_reach(vs, a, j) <= b - a,
    decreases b - a,
{
    if a < b {
        lemma_count_reach_monotone(vs, a, b - 1, j);
    }
}

/// A level holds exactly the values counted as reaching it.
pub proof fn lemma_level_len(vs: Seq<u64>, j: int)
    ensures
        level_vals(vs, j).len() == count_reach(vs, vs.len() as int, j),
    decreases vs.len(),
{
    if vs.len() > 0 {
        lemma_level_len(vs.drop_last(), j);
        lemma_count_reach_agree(vs, vs.drop_last(), vs.len() - 1, j);
    }
}

/// The value at position `pos`, if it reaches level `j`, sits in that
/// level's row counted by the values before it.
pub proof fn lemma_level_at(vs: Seq<u64>, pos: int, j: int)
    requires
        0 <= pos < vs.len(),
        reaches(vs[pos], j),
    ensures
        count_reach(vs, pos, j) < level_vals(vs, j).len(),
        level_vals(vs, j)[count_reach(vs, pos, j) as int] == vs[pos],
    decreases vs.len(),
{
    lemma_level_len(vs, j);
    lemma_count_reach_monotone(vs, pos + 1, vs.len() as int, j);
    if pos == vs.len() - 1 {
        lemma_level_len(vs.drop_last(), j);
        lemma_count_reach_agree(vs, vs.drop_last(), pos, j);
    } else {
        lemma_level_at(vs.drop_last(), pos, j);
        lemma_count_reach_agree(vs, vs.drop_last(), pos, j);
        lemma_level_len(vs.drop_last(), j);
        lemma_count_reach_monotone(vs.drop_last(), pos + 1, vs.len() - 1, j);
    }
}

/// The flag bits of a level as a bit sequence: bit `i` says whether the
/// level's `i`-th value continues into the next level.
pub open spec fn level_flags(vs: Seq<u64>, j: int) -> Seq<bool> {
    Seq::new(level_vals(vs, j).len(), |i: int| reaches(level_vals(vs, j)[i], j + 1))
}

/// Rank over a level's flags below a value's row counts the values before
/// it that continue: the value's row in the next level.
pub proof fn lemma_flag_rank(vs: Seq<u64>, pos: int, j: int)
    requires
        0 <= pos <= vs.len(),
        0 <= j,
    ensures
        rank_of(level_flags(vs, j), count_reach(vs, pos, j) as int) == count_reach(vs, pos, j + 1),
    decreases pos,
{
    if pos > 0 {
        lemma_flag_rank(vs, pos - 1, j);
        let c = count_reach(vs, pos - 1, j) as int;
        if reaches(vs[pos - 1], j) {
            lemma_level_at(vs, pos - 1, j);
            assert(level_flags(vs, j)[c] == reaches(vs[pos - 1], j + 1));
            assert(rank_of(level_flags(vs, j), c + 1) == rank_of(level_flags(vs, j), c) + (
            if level_flags(vs, j)[c] {
                1nat
            } else {
                0nat
            }));
        } else {
            lemma_reaches_monotone(vs[pos - 1], j);
        }
    }
}

/// Compressed integer sequence with one byte array per level and
/// continuation flags between levels.
pub struct DacsByte {
    data: Vec<ByteView>,
    flags: Vec<BitVector<Rank9SelIndex>>,
    vals: Ghost<Seq<u64>>,
}

impl View for DacsByte {
    type V = Seq<u64>;

    closed spec fn view(&self) -> Seq<u64> {
        self.vals@
    }
}

impl DacsByte {
    /// The number of byte levels.
    pub closed spec fn num_levels_spec(&self) -> int {
        self.data@.len() as int
    }

    /// The levels store the bytes of exactly the values that reach them,
    /// the flags mark continuation, and every value fits the levels.
    pub closed spec fn wf(&self) -> bool {
        let vs = self.vals@;
        let nlv = self.data@.len() as int;
        &&& 1 <= nlv <= 8
        &&& self.flags@.len() == nlv - 1
        &&& forall|j: int|
            0 <= j < nlv ==> {
                &&& byte_view_seq(#[trigger] self.data@[j]).len() == level_vals(vs, j).len()
                &&& forall|i: int|
                    0 <= i < level_vals(vs, j).len() ==> byte_view_seq(self.data@[j])[i] == ((
                    level_vals(vs, j)[i] >> ((8 * j) as u64)) as u8)
            }
        &&& forall|j: int|
            0 <= j < nlv - 1 ==> {
                &&& (#[trigger] self.flags@[j]).wf()
                &&& self.flags@[j]@ == level_flags(vs, j)
            }
        &&& forall|i: int| 0 <= i < vs.len() ==> !reaches(#[trigger] vs[i], nlv)
        &&& nlv == 1 || level_vals(vs, nlv - 1).len() > 0
    }

    /// Gets the number of integers.
    pub fn len(&self) -> (r: usize)
        requires
            self.wf(),
        ensures
            r == self@.len(),
    {
        proof {
            lemma_level_zero(self@);
        }
        byte_view_slice(&self.data[0]).len()
    }

    /// Checks if the sequence is empty.
    pub fn is_empty(&self) -> (r: bool)
        requires
            self.wf(),
        ensures
            r == (self@.len() == 0),
    {
        self.len() == 0
    }

    /// Gets the number of levels.
    pub fn num_levels(&self) -> (r: usize)
        ensures
            r == self.num_levels_spec(),
    {
        self.data.len()
    }

    /// Gets the number of bits for each level: eight per level.
    pub fn widths(&self) -> (r: Vec<usize>)
        ensures
            r@.len() == self.num_levels_spec(),
            forall|j: int| 0 <= j < r@.len() ==> r@[j] == 8,
    {
        let n = self.data.len();
        let mut out: Vec<usize> = Vec::new();
        let mut i: usize = 0;
        while i < n
            invariant
                i <= n,
                out@.len() == i,
                forall|j: int| 0 <= j < i ==> out@[j] == 8,
            decreases n - i,
        {
            out.push(8);
            i = i + 1;
        }
        out
    }

    /// The bytes of one level, for inspection.
    pub fn level_bytes(&self, j: usize) -> (r: Vec<u8>)
        requires
            self.wf(),
            j < self.num_levels_spec(),
        ensures
            r@.len() == level_vals(self@, j as int).len(),
            forall|i: int|
                0 <= i < r@.len() ==> r@[i] == ((level_vals(self@, j as int)[i] >> ((8 * (
                j as int)) as u64)) as u8),
    {
        let bytes = byte_view_slice(&self.data[j]);
        let n = bytes.len();
        let mut out: Vec<u8> = Vec::new();
        let mut i: usize = 0;
        while i < n
            invariant
                self.wf(),
                j < self.num_levels_spec(),
                bytes@ == byte_view_seq(self.data@[j as int]),
                n == bytes@.len(),
                n == level_vals(self@, j as int).len(),
                i <= n,
                out@.len() == i,
                forall|t: int|
                    0 <= t < i ==> out@[t] == ((level_vals(self@, j as int)[t] >> ((8 * (
                    j as int)) as u64)) as u8),
            decreases n - i,
        {
            out.push(bytes[i]);
            i = i + 1;
        }
        out
    }

    /// Returns the `pos`-th integer, or `None` if out of bounds, by
    /// walking the levels and following the continuation flags.
    pub fn get_int(&self, pos: usize) -> (r: Option<u64>)
        requires
            self.wf(),
        ensures
            r == if pos < self@.len() {
                Some(self@[pos as int])
            } else {
                None::<u64>
            },
    {
        let ghost vs = self@;
        let n = self.len();
        if pos >= n {
            return None;
        }
        let ghost v = vs[pos as int];
        let nlv = self.data.len();
        let mut p = pos;
        let mut x: u64 = 0;
        let mut j: usize = 0;
        proof {
            lemma_level_zero(vs);
            assert(p == count_reach(vs, pos as int, 0)) by {
                lemma_count_eq_pos(vs, pos as int);
            }
            assert(0u64 == (v & low_mask(0u64))) by (bit_vector);
        }
        while j < nlv
            invariant
                self.wf(),
                vs == self@,
                pos < vs.len(),
                v == vs[pos as int],
                nlv == self.num_levels_spec(),
                j <= nlv - 1,
                reaches(v, j as int),
                p == count_reach(vs, pos as int, j as int),
                x == (v & low_mask((8 * j) as u64)),
            decreases nlv - j,
        {
            proof {
                lemma_level_at(vs, pos as int, j as int);
            }
            let bytes = byte_view_slice(&self.data[j]);
            let byte = bytes[p];
            proof {
                assert(byte == ((v >> ((8 * (j as int)) as u64)) as u8));
            }
            let jj = j as u64;
            let ghost old_x = x;
            x = x | ((byte as u64) << (8 * jj));
            proof {
                let b8 = byte;
                assert(old_x | (((((v >> ((8 * jj) as u64)) as u8)) as u64) << ((8 * jj) as u64))
                    == (v & low_mask(((8 * jj) + 8) as u64))) by (bit_vector)
                    requires
                        jj < 8,
                        old_x == (v & low_mask((8 * jj) as u64)),
                ;
            }
            if j == nlv - 1 {
                proof {
                    assert(!reaches(v, nlv as int));
                    lemma_fits_levels(v, nlv as int);
                }
                return Some(x);
            }
            let fb = match crate::traits::Access::access(&self.flags[j], p) {
                Some(b) => b,
                None => {
                    proof {
                        assert(false);
                    }
                    false
                },
            };
            proof {
                assert(level_flags(vs, j as int)[p as int] == reaches(v, j as int + 1));
            }
            if !fb {
                proof {
                    lemma_fits_levels(v, j as int + 1);
                }
                return Some(x);
            }
            let rank = match crate::traits::Rank::rank1(&self.flags[j], p) {
                Some(c) => c,
                None => {
                    proof {
                        assert(false);
                    }
                    0
                },
            };
            proof {
                lemma_flag_rank(vs, pos as int, j as int);
                assert(rank == count_reach(vs, pos as int, j as int + 1));
            }
            p = rank;
            j = j + 1;
        }
        proof {
            assert(false);
        }
        None
    }

    /// Collects all integers into a vector.
    pub fn to_vec(&self) -> (r: Vec<u64>)
        requires
            self.wf(),
        ensures
            r@ == self@,
    {
        let n = self.len();
        let mut out: Vec<u64> = Vec::new();
        let mut i: usize = 0;
        while i < n
            invariant
                self.wf(),
                i <= n,
                n == self@.len(),
                out@ == self@.take(i as int),
            decreases n - i,
        {
            match self.get_int(i) {
                Some(v) => {
                    out.push(v);
                },
                None => {
                    proof {
                        assert(false);
                    }
                },
            }
            proof {
                assert(self@.take(i + 1) =~= self@.take(i as int).push(self@[i as int]));
            }
            i = i + 1;
        }
        proof {
            assert(self@.take(n as int) =~= self@);
        }
        out
    }
}

/// A value that reaches no level past `j` is its own low `8 j` bits.
proof fn lemma_fits_levels(v: u64, j: int)
    requires
        1 <= j <= 8,
        !reaches(v, j),
    ensures
        (v & low_mask((8 * j) as u64)) == v,
{
    if j == 8 {
        assert((v & low_mask(64u64)) == v) by (bit_vector);
    } else {
        let jj = j as u64;
        assert((v >> ((8 * jj) as u64) == 0 && 1 <= jj < 8) ==> ((v & low_mask((8 * jj) as u64))
            == v)) by (bit_vector);
    }
}

/// Counting levels that every position reaches counts every position.
proof fn lemma_count_eq_pos(vs: Seq<u64>, pos: int)
    requires
        0 <= pos,
    ensures
        count_reach(vs, pos, 0) == pos,
    decreases pos,
{
    if pos > 0 {
        lemma_count_eq_pos(vs, pos - 1);
    }
}

/// Appending a value extends exactly the levels it reaches.
proof fn lemma_level_push(vs: Seq<u64>, i: int, j: int)
    requires
        0 <= i < vs.len(),
    ensures
        level_vals(vs.take(i + 1), j) == if reaches(vs[i], j) {
            level_vals(vs.take(i), j).push(vs[i])
        } else {
            level_vals(vs.take(i), j)
        },
        level_flags(vs.take(i + 1), j) == if reaches(vs[i], j) {
            level_flags(vs.take(i), j).push(reaches(vs[i], j + 1))
        } else {
            level_flags(vs.take(i), j)
        },
{
    let prev = vs.take(i);
    let next = vs.take(i + 1);
    assert(next.drop_last() =~= prev);
    assert(next.last() == vs[i]);
    assert(level_vals(next, j) == if reaches(vs[i], j) {
        level_vals(prev, j).push(vs[i])
    } else {
        level_vals(prev, j)
    });
    if reaches(vs[i], j) {
        assert(level_flags(next, j) =~= level_flags(prev, j).push(reaches(vs[i], j + 1)));
    } else {
        assert(level_flags(next, j) =~= level_flags(prev, j));
    }
}

/// When more than one level is needed, the maximum value reaches the top
/// level, so the top level is nonempty.
proof fn lemma_top_level_reached(vs: Seq<u64>, mx: u64, w: usize, nlv: int)
    requires
        vs.len() > 0,
        mx == crate::compact_vector::max_of(vs),
        w == crate::utils::needed_bits_of(mx),
        2 <= nlv <= 8,
        (nlv - 1) * 8 < w,
    ensures
        level_vals(vs, nlv - 1).len() > 0,
{
    crate::compact_vector::lemma_max_of_mem(vs);
    let t = choose|t: int| 0 <= t < vs.len() && #[trigger] vs[t] == mx;
    assert(mx != 0) by {
        if mx == 0 {
            assert(w == 1);
        }
    }
    crate::utils::lemma_bit_len_lower(mx);
    let low = (8 * (nlv - 1)) as nat;
    assert(low <= w - 1);
    if low < (w - 1) as nat {
        vstd::arithmetic::power2::lemma_pow2_strictly_increases(low, (w - 1) as nat);
    }
    assert(vstd::arithmetic::power2::pow2(low) <= mx);
    crate::utils::lemma_fits_width_shr(mx, low as u64);
    assert(mx >> (low as u64) != 0);
    assert((8 * (nlv - 1)) as u64 == low as u64);
    assert(reaches(vs[t], nlv - 1));
    lemma_level_at(vs, t, nlv - 1);
}

/// A value bounded by one that fits the levels reaches none past them.
proof fn lemma_no_reach(v: u64, mx: u64, w: usize, nlv: int)
    requires
        v <= mx,
        fits_width(mx, w as nat),
        1 <= nlv <= 8,
        w <= 8 * nlv,
    ensures
        !reaches(v, nlv),
{
    if nlv < 8 {
        vstd::arithmetic::power2::lemma_pow2_strictly_increases(w as nat, (8 * nlv + 1) as nat);
        if w < 8 * nlv {
            vstd::arithmetic::power2::lemma_pow2_strictly_increases(w as nat, (8 * nlv) as nat);
        }
        assert(fits_width(v, (8 * nlv) as nat));
        crate::utils::lemma_fits_width_shr(v, (8 * nlv) as u64);
    }
}

impl DacsByte {
    /// Builds the sequence by assigning eight bits to each level, the
    /// flag vectors carrying full rank/select support. Never fails.
    pub fn from_slice(vals: &[u64]) -> (r: Result<Self, Error>)
        requires
            vals@.len() < usize::MAX,
        ensures
            r.is_ok(),
            match r {
                Ok(d) => {
                    &&& d.wf()
                    &&& d@ == vals@
                    &&& d.num_levels_spec() == if vals@.len() == 0 {
                        1int
                    } else {
                        ((crate::utils::needed_bits_of(crate::compact_vector::max_of(vals@)) + 7)
                            / 8) as int
                    }
                },
                Err(_) => false,
            },
    {
        let n = vals.len();
        if n == 0 {
            let mut data: Vec<ByteView> = Vec::new();
            data.push(byte_view_from_vec(Vec::new()));
            let d = DacsByte { data, flags: Vec::new(), vals: Ghost(vals@) };
            proof {
                assert(level_vals(vals@, 0).len() == 0);
                assert(d.wf());
            }
            return Ok(d);
        }
        let mut max_int: u64 = 0;
        let mut i: usize = 0;
        proof {
            assert(crate::compact_vector::max_of(vals@.take(0)) == 0);
        }
        while i < n
            invariant
                i <= n,
                n == vals@.len(),
                max_int == crate::compact_vector::max_of(vals@.take(i as int)),
            decreases n - i,
        {
            proof {
                assert(vals@.take(i + 1).drop_last() =~= vals@.take(i as int));
                assert(vals@.take(i + 1).last() == vals@[i as int]);
            }
            if vals[i] > max_int {
                max_int = vals[i];
            }
            i = i + 1;
        }
        proof {
            assert(vals@.take(n as int) =~= vals@);
            assert forall|t: int| 0 <= t < n implies #[trigger] vals@[t] <= max_int by {
                crate::compact_vector::lemma_max_of_bound(vals@, t);
            }
        }
        let width = crate::utils::needed_bits(max_int);
        let num_levels = crate::utils::ceiled_divide(width, 8);
        proof {
            crate::utils::lemma_needed_bits_fits(max_int);
            assert(1 <= num_levels <= 8);
            assert(width <= 8 * num_levels);
            assert((num_levels - 1) * 8 < width);
        }
        let mut data: Vec<ByteView> = Vec::new();
        let mut flags: Vec<BitVector<Rank9SelIndex>> = Vec::new();
        let mut j: usize = 0;
        while j < num_levels
            invariant
                n == vals@.len(),
                n < usize::MAX,
                1 <= num_levels <= 8,
                width <= 8 * num_levels,
                fits_width(max_int, width as nat),
                max_int == crate::compact_vector::max_of(vals@),
                width == crate::utils::needed_bits_of(max_int),
                num_levels == (width + 7) / 8,
                forall|t: int| 0 <= t < n ==> #[trigger] vals@[t] <= max_int,
                j <= num_levels,
                data@.len() == j,
                flags@.len() == if j < num_levels {
                    j as int
                } else {
                    j - 1
                },
                forall|jj: int|
                    0 <= jj < j ==> {
                        &&& byte_view_seq(#[trigger] data@[jj]).len() == level_vals(
                            vals@,
                            jj,
                        ).len()
                        &&& forall|t: int|
                            0 <= t < level_vals(vals@, jj).len() ==> byte_view_seq(data@[jj])[t]
                                == ((level_vals(vals@, jj)[t] >> ((8 * jj) as u64)) as u8)
                    },
                forall|jj: int|
                    0 <= jj < j && jj < num_levels - 1 ==> {
                        &&& (#[trigger] flags@[jj]).wf()
                        &&& flags@[jj]@ == level_flags(vals@, jj)
                    },
            decreases num_levels - j,
        {
            let mut bytes: Vec<u8> = Vec::new();
            let mut i: usize = 0;
            proof {
                assert(vals@.take(0) =~= Seq::<u64>::empty());
            }
            while i < n
                invariant
                    n == vals@.len(),
                    j < num_levels <= 8,
                    i <= n,
                    bytes@.len() == level_vals(vals@.take(i as int), j as int).len(),
                    forall|t: int|
                        0 <= t < bytes@.len() ==> #[trigger] bytes@[t] == ((level_vals(
                            vals@.take(i as int),
                            j as int,
                        )[t] >> ((8 * (j as int)) as u64)) as u8),
                decreases n - i,
            {
                proof {
                    lemma_level_push(vals@, i as int, j as int);
                }
                let v = vals[i];
                if j == 0 || (v >> ((8 * j) as u64)) != 0 {
                    bytes.push(((v >> ((8 * j) as u64)) & 0xff) as u8);
                    proof {
                        let jv = (8 * (j as int)) as u64;
                        assert((((v >> jv) & 0xff) as u8) == ((v >> jv) as u8)) by (bit_vector);
                    }
                }
                i = i + 1;
            }
            proof {
                assert(vals@.take(n as int) =~= vals@);
            }
            data.push(byte_view_from_vec(bytes));
            if j < num_levels - 1 {
                let mut fbuild = BitVectorBuilder::new();
                let mut i: usize = 0;
                proof {
                    assert(vals@.take(0) =~= Seq::<u64>::empty());
                    assert(fbuild@ =~= level_flags(vals@.take(0), j as int));
                }
                while i < n
                    invariant
                        n == vals@.len(),
                        n < usize::MAX,
                        j < num_levels - 1,
                        num_levels <= 8,
                        fbuild.wf(),
                        i <= n,
                        fbuild@ == level_flags(vals@.take(i as int), j as int),
                    decreases n - i,
                {
                    proof {
                        lemma_level_push(vals@, i as int, j as int);
                        lemma_level_len(vals@.take(i as int), j as int);
                        lemma_count_reach_monotone(vals@.take(i as int), 0, i as int, j as int);
                        assert(count_reach(vals@.take(i as int), i as int, j as int) <= i) by {
                            lemma_count_reach_monotone(vals@.take(i as int), 0, i as int, j as int);
                        }
                    }
                    let v = vals[i];
                    if j == 0 || (v >> ((8 * j) as u64)) != 0 {
                        fbuild.push_bit((v >> ((8 * (j + 1)) as u64)) != 0);
                    }
                    i = i + 1;
                }
                proof {
                    assert(vals@.take(n as int) =~= vals@);
                }
                flags.push(fbuild.freeze::<Rank9SelIndex>());
            }
            j = j + 1;
        }
        let d = DacsByte { data, flags, vals: Ghost(vals@) };
        proof {
            assert forall|t: int| 0 <= t < vals@.len() implies !reaches(
                #[trigger] vals@[t],
                num_levels as int,
            ) by {
                lemma_no_reach(vals@[t], max_int, width, num_levels as int);
            }
            if num_levels > 1 {
                lemma_top_level_reached(vals@, max_int, width, num_levels as int);
            }
            assert(d.wf());
        }
        Ok(d)
    }

    /// The bytes the first `k` levels occupy: each level's bytes plus a
    /// length word.
    pub closed spec fn levels_bytes_spec(data: Seq<ByteView>, k: int) -> nat
        decreases k,
    {
        if k <= 0 {
            0
        } else {
            Self::levels_bytes_spec(data, k - 1) + byte_view_seq(data[k - 1]).len() + 8
        }
    }

    /// The bytes the first `k` flag vectors occupy: each vector's data
    /// plus its rank/select index.
    pub closed spec fn flags_bytes_spec(flags: Seq<BitVector<Rank9SelIndex>>, k: int) -> nat
        decreases k,
    {
        if k <= 0 {
            0
        } else {
            Self::flags_bytes_spec(flags, k - 1) + 8 * (flags[k - 1].data.words_seq().len() + 2)
                + 8 * flags[k - 1].index.size_words_spec()
        }
    }

    /// The bytes the whole sequence occupies: a count word, the levels,
    /// and the flag vectors.
    pub closed spec fn size_bytes_spec(&self) -> nat {
        8 + Self::levels_bytes_spec(self.data@, self.data@.len() as int) + Self::flags_bytes_spec(
            self.flags@,
            self.flags@.len() as int,
        )
    }

    /// Returns the number of bytes of the levels and the flag vectors,
    /// saturating.
    pub fn size_in_bytes(&self) -> (r: usize)
        ensures
            r == if self.size_bytes_spec() <= usize::MAX {
                self.size_bytes_spec() as int
            } else {
                usize::MAX as int
            },
    {
        let mut total: usize = 8;
        let nd = self.data.len();
        let mut i: usize = 0;
        while i < nd
            invariant
                i <= nd,
                nd == self.data@.len(),
                total == 8 + Self::levels_bytes_spec(self.data@, i as int),
            decreases nd - i,
        {
            let l = byte_view_slice(&self.data[i]).len();
            total = match total.checked_add(l) {
                Some(t) => match t.checked_add(8) {
                    Some(u) => u,
                    None => {
                        proof {
                            lemma_levels_bytes_mono(self.data@, i + 1, nd as int);
                        }
                        return usize::MAX;
                    },
                },
                None => {
                    proof {
                        lemma_levels_bytes_mono(self.data@, i + 1, nd as int);
                    }
                    return usize::MAX;
                },
            };
            i = i + 1;
        }
        let nf = self.flags.len();
        let mut i: usize = 0;
        while i < nf
            invariant
                i <= nf,
                nf == self.flags@.len(),
                nd == self.data@.len(),
                total == 8 + Self::levels_bytes_spec(self.data@, nd as int)
                    + Self::flags_bytes_spec(self.flags@, i as int),
            decreases nf - i,
        {
            let f = &self.flags[i];
            let a = f.data.size_in_bytes();
            let b = f.index.size_in_bytes();
            proof {
                lemma_flags_bytes_mono(self.flags@, i + 1, nf as int);
            }
            total = match total.checked_add(a) {
                Some(t) => match t.checked_add(b) {
                    Some(u) => u,
                    None => return usize::MAX,
                },
                None => return usize::MAX,
            };
            i = i + 1;
        }
        total
    }
}

/// Level byte sums grow with the level count.
proof fn lemma_levels_bytes_mono(data: Seq<ByteView>, a: int, b: int)
    requires
        a <= b,
    ensures
        DacsByte::levels_bytes_spec(data, a) <= DacsByte::levels_bytes_spec(data, b),
    decreases b - a,
{
    if a < b {
        lemma_levels_bytes_mono(data, a, b - 1);
    }
}

/// Flag vector byte sums grow with the vector count.
proof fn lemma_flags_bytes_mono(flags: Seq<BitVector<Rank9SelIndex>>, a: int, b: int)
    requires
        a <= b,
    ensures
        DacsByte::flags_bytes_spec(flags, a) <= DacsByte::flags_bytes_spec(flags, b),
    decreases b - a,
{
    if a < b {
        lemma_flags_bytes_mono(flags, a, b - 1);
    }
}

impl crate::int_vectors::Access for DacsByte {
    open spec fn access_ready(&self) -> bool {
        self.wf()
    }

    fn access(&self, pos: usize) -> (r: Option<u64>) {
        self.get_int(pos)
    }
}

impl crate::int_vectors::NumVals for DacsByte {
    open spec fn counts_ready(&self) -> bool {
        self.wf()
    }

    fn num_vals(&self) -> (r: usize) {
        proof {
            lemma_level_zero(self@);
        }
        byte_view_slice(&self.data[0]).len()
    }
}

impl crate::int_vectors::Build for DacsByte {
    fn build_from_slice(vals: &[u64]) -> (r: Result<Self, Error>) {
        let n: usize = vals.len();
        if n == usize::MAX {
            return Err(Error::BytesMismatch);
        }
        Self::from_slice(vals)
    }
}

impl DacsByte {
    /// The continuation flag bits of one level, for inspection.
    pub fn flag_bits(&self, j: usize) -> (r: Vec<bool>)
        requires
            self.wf(),
            j < self.num_levels_spec() - 1,
        ensures
            r@ == level_flags(self@, j as int),
    {
        let f = &self.flags[j];
        let n = f.data.len();
        let mut out: Vec<bool> = Vec::new();
        let mut i: usize = 0;
        proof {
            assert(f@.len() == level_flags(self@, j as int).len());
        }
        while i < n
            invariant
                self.wf(),
                j < self.num_levels_spec() - 1,
                f == &self.flags@[j as int],
                f.wf(),
                n == f@.len(),
                f@ == level_flags(self@, j as int),
                i <= n,
                out@ == f@.take(i as int),
            decreases n - i,
        {
            match f.data.access(i) {
                Some(b) => {
                    out.push(b);
                },
                None => {
                    proof {
                        assert(false);
                    }
                },
            }
            proof {
                assert(f@.take(i + 1) =~= f@.take(i as int).push(f@[i as int]));
            }
            i = i + 1;
        }
        proof {
            assert(f@.take(n as int) =~= f@);
        }
        out
    }
}

} // verus!
