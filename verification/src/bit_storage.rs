//! The storage-word capability: a fixed-width unsigned unit holding packed
//! bits, with the constants, bitwise algebra, popcount, trailing-zero count
//! and big-endian byte marshaling the mask is built on.
//!
//! Every word is specified through `bits`, its sequence of bits with the least
//! significant first; each fixed-width implementation proves the word-level
//! facts once with the bit-vector solver.

use vstd::prelude::*;

use crate::error::BitMaskError;
use crate::model::count_trues;

verus! {

/// Bit `j` of a single byte, least significant first.  Byte-level marshaling
/// contracts are stated over this to keep them independent of any one word
/// implementation.
pub open spec fn byte_bit(b: u8, j: int) -> bool {
    ((b >> (j as u8)) & 1u8) == 1u8
}

/// The capability a storage word offers the mask.
///
/// `bits` is the word's mathematical reading: its `wsize` bits, least
/// significant first.  All executable operations are specified against it.
pub trait BitStorage: Sized + Copy {
    /// The number of bits one word holds.
    spec fn wsize() -> nat;

    /// The word as its sequence of bits, least significant first.
    spec fn bits(&self) -> Seq<bool>;

    proof fn lemma_wsize()
        ensures
            8 <= Self::wsize() <= 128,
            Self::wsize() % 8 == 0,
    ;

    proof fn lemma_bits_len(&self)
        ensures
            self.bits().len() == Self::wsize(),
    ;

    /// The bit width, as a run-time value.
    fn size() -> (r: usize)
        ensures
            r == Self::wsize(),
    ;

    /// The additive identity: every bit clear.
    fn zero() -> (r: Self)
        ensures
            forall|j: int| 0 <= j < Self::wsize() ==> !(#[trigger] r.bits()[j]),
    ;

    /// The multiplicative identity: only the lowest bit set.
    fn one() -> (r: Self)
        ensures
            forall|j: int| 0 <= j < Self::wsize() ==> ((#[trigger] r.bits()[j]) <==> j == 0),
    ;

    /// Pointwise OR.
    fn or(&self, other: &Self) -> (r: Self)
        ensures
            forall|j: int|
                0 <= j < Self::wsize() ==> ((#[trigger] r.bits()[j]) <==> (self.bits()[j]
                    || other.bits()[j])),
    ;

    /// Pointwise AND.
    fn and(&self, other: &Self) -> (r: Self)
        ensures
            forall|j: int|
                0 <= j < Self::wsize() ==> ((#[trigger] r.bits()[j]) <==> (self.bits()[j]
                    && other.bits()[j])),
    ;

    /// Pointwise XOR.
    fn xor(&self, other: &Self) -> (r: Self)
        ensures
            forall|j: int|
                0 <= j < Self::wsize() ==> ((#[trigger] r.bits()[j]) <==> (self.bits()[j]
                    != other.bits()[j])),
    ;

    /// Pointwise complement.
    fn not(&self) -> (r: Self)
        ensures
            forall|j: int|
                0 <= j < Self::wsize() ==> ((#[trigger] r.bits()[j]) <==> !self.bits()[j]),
    ;

    /// Shift towards the most significant end; vacated low bits are clear.
    fn shl(&self, k: usize) -> (r: Self)
        requires
            k < Self::wsize(),
        ensures
            forall|j: int|
                0 <= j < Self::wsize() ==> ((#[trigger] r.bits()[j]) <==> (k <= j && self.bits()[j
                    - k])),
    ;

    /// Shift towards the least significant end; vacated high bits are clear.
    fn shr(&self, k: usize) -> (r: Self)
        requires
            k < Self::wsize(),
        ensures
            forall|j: int|
                0 <= j < Self::wsize() ==> ((#[trigger] r.bits()[j]) <==> (j + k < Self::wsize()
                    && self.bits()[j + k])),
    ;

    /// The tail mask `(ONE << k) - ONE`: exactly the low `k` bits set.
    fn low_ones(k: usize) -> (r: Self)
        requires
            k < Self::wsize(),
        ensures
            forall|j: int| 0 <= j < Self::wsize() ==> ((#[trigger] r.bits()[j]) <==> j < k),
    ;

    /// Read one bit.
    fn bit(&self, i: usize) -> (r: bool)
        requires
            i < Self::wsize(),
        ensures
            r == self.bits()[i as int],
    ;

    /// Is every bit clear?
    fn is_zero(&self) -> (r: bool)
        ensures
            r <==> (forall|j: int| 0 <= j < Self::wsize() ==> !(#[trigger] self.bits()[j])),
    ;

    /// The number of trailing clear bits; the full width on an all-zero word.
    fn trailing_zeros(&self) -> (r: usize)
        ensures
            r <= Self::wsize(),
            (r == Self::wsize()) <==> (forall|j: int|
                0 <= j < Self::wsize() ==> !(#[trigger] self.bits()[j])),
            r < Self::wsize() ==> self.bits()[r as int] && (forall|j: int|
                0 <= j < r ==> !(#[trigger] self.bits()[j])),
    ;

    /// The low eight bits, as a byte.
    fn low_byte(&self) -> (r: u8)
        ensures
            forall|j: int| 0 <= j < 8 ==> ((#[trigger] byte_bit(r, j)) <==> self.bits()[j]),
    ;

    /// A word whose low eight bits are the byte's, the rest clear.
    fn from_byte(b: u8) -> (r: Self)
        ensures
            forall|j: int|
                0 <= j < Self::wsize() ==> ((#[trigger] r.bits()[j]) <==> (j < 8 && byte_bit(
                    b,
                    j,
                ))),
    ;

}

/// The popcount loop shared by every word implementation.
pub fn word_count_ones<T: BitStorage>(word: &T) -> (r: usize)
    ensures
        r == count_trues(word.bits()),
{
    proof {
        word.lemma_bits_len();
        T::lemma_wsize();
    }
    let w = T::size();
    let mut c: usize = 0;
    let mut i: usize = 0;
    while i < w
        invariant
            i <= w,
            w == T::wsize(),
            word.bits().len() == T::wsize(),
            c <= i,
            c == count_trues(word.bits().take(i as int)),
        decreases w - i,
    {
        let b = word.bit(i);
        proof {
            crate::model::lemma_count_trues_take_step(word.bits(), i as int);
        }
        if b {
            c = c + 1;
        }
        i = i + 1;
    }
    proof {
        assert(word.bits().take(w as int) =~= word.bits());
    }
    c
}

/// The bit-for-bit comparison shared by every word implementation.
pub fn word_eq<T: BitStorage>(a: &T, b: &T) -> (r: bool)
    ensures
        r <==> a.bits() =~= b.bits(),
{
    proof {
        a.lemma_bits_len();
        b.lemma_bits_len();
    }
    let d = a.xor(b);
    let r = d.is_zero();
    proof {
        if r {
            assert forall|j: int| 0 <= j < a.bits().len() implies a.bits()[j]
                == b.bits()[j] by {
                assert(!d.bits()[j]);
            }
            assert(a.bits() =~= b.bits());
        } else {
            if a.bits() =~= b.bits() {
                assert forall|j: int|
                    0 <= j < T::wsize() implies !(#[trigger] d.bits()[j]) by {
                    assert(a.bits()[j] == b.bits()[j]);
                }
            }
        }
    }
    r
}

/// The big-endian marshaling loop shared by every word implementation.
pub fn word_to_be_bytes<T: BitStorage>(word: &T) -> (r: Vec<u8>)
    ensures
        r@.len() == T::wsize() / 8,
        forall|j: int, b: int|
            0 <= j < T::wsize() / 8 && 0 <= b < 8 ==> ((#[trigger] byte_bit(r@[j], b))
                <==> word.bits()[(T::wsize() / 8 - 1 - j) * 8 + b]),
{
    proof {
        word.lemma_bits_len();
        T::lemma_wsize();
    }
    let w = T::size();
    let n = w / 8;
    let mut out: Vec<u8> = Vec::new();
    let mut j: usize = 0;
    while j < n
        invariant
            j <= n,
            w == T::wsize(),
            n == T::wsize() / 8,
            8 <= w <= 128,
            w % 8 == 0,
            word.bits().len() == T::wsize(),
            out@.len() == j,
            forall|jj: int, b: int|
                0 <= jj < j && 0 <= b < 8 ==> ((#[trigger] byte_bit(out@[jj], b))
                    <==> word.bits()[(n - 1 - jj) * 8 + b]),
        decreases n - j,
    {
        let sh = w - 8 * (j + 1);
        let byte = word.shr(sh).low_byte();
        proof {
            assert forall|b: int|
                0 <= b < 8 implies ((#[trigger] byte_bit(byte, b))
                <==> word.bits()[(n - 1 - j) * 8 + b]) by {
                assert((n - 1 - j) * 8 == (n * 8 - 8 - j * 8)) by (nonlinear_arith);
                assert(n * 8 == w) by {
                    assert(w % 8 == 0);
                    assert(n == w / 8);
                }
            }
        }
        out.push(byte);
        j = j + 1;
    }
    out
}

/// The big-endian parsing loop shared by every word implementation.
pub fn word_from_be_bytes<T: BitStorage>(v: &[u8]) -> (r: Result<T, BitMaskError>)
    ensures
        v@.len() != T::wsize() / 8 ==> r == Err::<T, BitMaskError>(
            BitMaskError::DeserializationFailed,
        ),
        v@.len() == T::wsize() / 8 ==> (r matches Ok(x) && (forall|j: int, b: int|
            0 <= j < v@.len() && 0 <= b < 8 ==> ((#[trigger] x.bits()[(v@.len() - 1 - j) * 8 + b])
                <==> byte_bit(v@[j], b)))),
{
    proof {
        T::lemma_wsize();
    }
    let w = T::size();
    let n = w / 8;
    if v.len() != n {
        return Err(BitMaskError::DeserializationFailed);
    }
    let mut acc = T::from_byte(v[0]);
    proof {
        acc.lemma_bits_len();
    }
    let mut j: usize = 1;
    while j < n
        invariant
            1 <= j <= n,
            w == T::wsize(),
            n == T::wsize() / 8,
            8 <= w <= 128,
            w % 8 == 0,
            v@.len() == n,
            acc.bits().len() == T::wsize(),
            forall|jj: int, b: int|
                0 <= jj < j && 0 <= b < 8 ==> ((#[trigger] acc.bits()[(j - 1 - jj) * 8 + b])
                    <==> byte_bit(v@[jj], b)),
            forall|i: int| j * 8 <= i < w ==> !(#[trigger] acc.bits()[i]),
        decreases n - j,
    {
        let ghost prev = acc;
        let shifted = acc.shl(8);
        let byte_word = T::from_byte(v[j]);
        acc = shifted.or(&byte_word);
        proof {
            acc.lemma_bits_len();
            assert forall|jj: int, b: int|
                0 <= jj < j + 1 && 0 <= b < 8 implies ((#[trigger] acc.bits()[(j + 1 - 1 - jj)
                * 8 + b]) <==> byte_bit(v@[jj], b)) by {
                let pos = (j - jj) * 8 + b;
                assert(0 <= pos < w) by (nonlinear_arith)
                    requires
                        0 <= jj < j + 1,
                        0 <= b < 8,
                        j < n,
                        n * 8 <= w,
                        pos == (j - jj) * 8 + b,
                ;
                if jj == j {
                    assert(acc.bits()[pos] <==> (shifted.bits()[pos] || byte_word.bits()[pos]));
                    assert(!shifted.bits()[pos] || pos >= 8);
                } else {
                    assert(pos >= 8) by (nonlinear_arith)
                        requires
                            0 <= jj < j,
                            0 <= b < 8,
                            pos == (j - jj) * 8 + b,
                    ;
                    assert(acc.bits()[pos] <==> (shifted.bits()[pos] || byte_word.bits()[pos]));
                    assert(shifted.bits()[pos] <==> prev.bits()[pos - 8]);
                    assert(pos - 8 == (j - 1 - jj) * 8 + b) by (nonlinear_arith)
                        requires
                            pos == (j - jj) * 8 + b,
                    ;
                }
            }
            assert forall|i: int| (j + 1) * 8 <= i < w implies !(#[trigger] acc.bits()[i]) by {
                assert((j + 1) * 8 == j * 8 + 8) by (nonlinear_arith);
                assert(acc.bits()[i] <==> (shifted.bits()[i] || byte_word.bits()[i]));
                assert(shifted.bits()[i] <==> (8 <= i && prev.bits()[i - 8]));
            }
        }
        j = j + 1;
    }
    proof {
        assert(n * 8 <= w) by (nonlinear_arith)
            requires
                n == w as int / 8,
                w >= 0,
        ;
    }
    Ok(acc)
}

/// Every bit of a byte is zero or one, and a byte is the weighted sum of its
/// bits, so bytes with the same bits are equal.
proof fn u8_sum_of_bits()
    by (bit_vector)
    ensures
        forall|x: u8, j: u8| ((#[trigger] ((x >> j) & 1u8)) == 0u8) || ((x >> j) & 1u8) == 1u8,
        forall|x: u8|
            x == ((x >> 0u8) & 1u8) + 2 * ((x >> 1u8) & 1u8) + 4 * ((x >> 2u8) & 1u8) + 8 * ((x
                >> 3u8) & 1u8) + 16 * ((x >> 4u8) & 1u8) + 32 * ((x >> 5u8) & 1u8) + 64 * ((x
                >> 6u8) & 1u8) + 128 * ((x >> 7u8) & 1u8),
{
}

/// A byte is determined by its bits.
pub proof fn lemma_byte_bits_determine(x: u8, y: u8)
    requires
        forall|j: int| 0 <= j < 8 ==> byte_bit(x, j) == byte_bit(y, j),
    ensures
        x == y,
{
    u8_sum_of_bits();
    assert forall|j: u8| j < 8 implies ((x >> j) & 1u8) == ((y >> j) & 1u8) by {
        assert(byte_bit(x, j as int) == byte_bit(y, j as int));
    }
    assert((x >> 0u8) & 1u8 == (y >> 0u8) & 1u8);
    assert((x >> 1u8) & 1u8 == (y >> 1u8) & 1u8);
    assert((x >> 2u8) & 1u8 == (y >> 2u8) & 1u8);
    assert((x >> 3u8) & 1u8 == (y >> 3u8) & 1u8);
    assert((x >> 4u8) & 1u8 == (y >> 4u8) & 1u8);
    assert((x >> 5u8) & 1u8 == (y >> 5u8) & 1u8);
    assert((x >> 6u8) & 1u8 == (y >> 6u8) & 1u8);
    assert((x >> 7u8) & 1u8 == (y >> 7u8) & 1u8);
}

/// The word-level bit facts for `u8`, proved once with the bit-vector solver.
proof fn u8_bit_facts()
    by (bit_vector)
    ensures
        forall|j: u8| (#[trigger] ((0u8 >> j) & 1u8)) == 0u8,
        forall|j: u8| j < 8 ==> (((#[trigger] ((1u8 >> j) & 1u8)) == 1u8) <==> j == 0),
        forall|x: u8, y: u8, j: u8|
            ((#[trigger] (((x | y) >> j) & 1u8)) == 1u8) <==> (((x >> j) & 1u8 == 1u8) || ((y >> j)
                & 1u8 == 1u8)),
        forall|x: u8, y: u8, j: u8|
            ((#[trigger] (((x & y) >> j) & 1u8)) == 1u8) <==> (((x >> j) & 1u8 == 1u8) && ((y >> j)
                & 1u8 == 1u8)),
        forall|x: u8, y: u8, j: u8|
            ((#[trigger] (((x ^ y) >> j) & 1u8)) == 1u8) <==> (((x >> j) & 1u8 == 1u8) != ((y >> j)
                & 1u8 == 1u8)),
        forall|x: u8, j: u8|
            j < 8 ==> (((#[trigger] (((!x) >> j) & 1u8)) == 1u8) <==> !((x >> j) & 1u8 == 1u8)),
        forall|x: u8, k: u8, j: u8|
            k < 8 && j < 8 ==> (((#[trigger] (((x << k) >> j) & 1u8)) == 1u8) <==> (k <= j && ((x
                >> vstd::prelude::sub(j, k)) & 1u8 == 1u8))),
        forall|x: u8, k: u8, j: u8|
            k < 8 && j < 8 ==> (((#[trigger] (((x >> k) >> j) & 1u8)) == 1u8) <==> (j + k < 8 && ((
            x >> vstd::prelude::add(j, k)) & 1u8 == 1u8))),
        forall|k: u8, j: u8|
            k < 8 && j < 8 ==> (((#[trigger] ((vstd::prelude::sub(1u8 << k, 1u8) >> j) & 1u8)) == 1u8) <==> j
                < k),
        forall|k: u8| k < 8 ==> (#[trigger] (1u8 << k)) >= 1,
{
}

impl BitStorage for u8 {
    open spec fn wsize() -> nat {
        8
    }

    open spec fn bits(&self) -> Seq<bool> {
        Seq::new(8, |j: int| byte_bit(*self, j))
    }

    proof fn lemma_wsize() {
    }

    proof fn lemma_bits_len(&self) {
    }

    fn size() -> (r: usize) {
        8
    }

    fn zero() -> (r: Self) {
        proof {
            u8_bit_facts();
        }
        0u8
    }

    fn one() -> (r: Self) {
        proof {
            u8_bit_facts();
        }
        1u8
    }

    fn or(&self, other: &Self) -> (r: Self) {
        let r = *self | *other;
        proof {
            u8_bit_facts();
            assert forall|j: int|
                0 <= j < Self::wsize() implies ((#[trigger] r.bits()[j]) <==> (self.bits()[j]
                || other.bits()[j])) by {
                let jj = j as u8;
                assert((((*self | *other) >> jj) & 1u8 == 1u8) <==> (((*self >> jj) & 1u8 == 1u8)
                    || ((*other >> jj) & 1u8 == 1u8)));
            }
        }
        r
    }

    fn and(&self, other: &Self) -> (r: Self) {
        let r = *self & *other;
        proof {
            u8_bit_facts();
            assert forall|j: int|
                0 <= j < Self::wsize() implies ((#[trigger] r.bits()[j]) <==> (self.bits()[j]
                && other.bits()[j])) by {
                let jj = j as u8;
                assert((((*self & *other) >> jj) & 1u8 == 1u8) <==> (((*self >> jj) & 1u8 == 1u8)
                    && ((*other >> jj) & 1u8 == 1u8)));
            }
        }
        r
    }

    fn xor(&self, other: &Self) -> (r: Self) {
        let r = *self ^ *other;
        proof {
            u8_bit_facts();
            assert forall|j: int|
                0 <= j < Self::wsize() implies ((#[trigger] r.bits()[j]) <==> (self.bits()[j]
                != other.bits()[j])) by {
                let jj = j as u8;
                assert((((*self ^ *other) >> jj) & 1u8 == 1u8) <==> (((*self >> jj) & 1u8 == 1u8)
                    != ((*other >> jj) & 1u8 == 1u8)));
            }
        }
        r
    }

    fn not(&self) -> (r: Self) {
        let r = !*self;
        proof {
            u8_bit_facts();
            assert forall|j: int|
                0 <= j < Self::wsize() implies ((#[trigger] r.bits()[j]) <==> !self.bits()[j]) by {
                let jj = j as u8;
                assert(((((!*self) >> jj) & 1u8) == 1u8) <==> !((*self >> jj) & 1u8 == 1u8));
            }
        }
        r
    }

    fn shl(&self, k: usize) -> (r: Self) {
        let r = *self << (k as u8);
        proof {
            u8_bit_facts();
            assert forall|j: int|
                0 <= j < Self::wsize() implies ((#[trigger] r.bits()[j]) <==> (k <= j
                && self.bits()[j - k])) by {
                let jj = j as u8;
                let kk = k as u8;
                assert((((*self << kk) >> jj) & 1u8 == 1u8) <==> (kk <= jj && ((*self >> vstd::prelude::sub(
                    jj,
                    kk,
                )) & 1u8 == 1u8)));
            }
        }
        r
    }

    fn shr(&self, k: usize) -> (r: Self) {
        let r = *self >> (k as u8);
        proof {
            u8_bit_facts();
            assert forall|j: int|
                0 <= j < Self::wsize() implies ((#[trigger] r.bits()[j]) <==> (j + k < Self::wsize()
                && self.bits()[j + k])) by {
                let jj = j as u8;
                let kk = k as u8;
                assert((((*self >> kk) >> jj) & 1u8 == 1u8) <==> (jj + kk < 8 && ((*self >> vstd::prelude::add(
                    jj,
                    kk,
                )) & 1u8 == 1u8)));
            }
        }
        r
    }

    fn low_ones(k: usize) -> (r: Self) {
        proof {
            u8_bit_facts();
        }
        let r = (1u8 << (k as u8)) - 1;
        proof {
            assert forall|j: int| 0 <= j < Self::wsize() implies ((#[trigger] r.bits()[j]) <==> j
                < k) by {
                let jj = j as u8;
                let kk = k as u8;
                assert(((vstd::prelude::sub(1u8 << kk, 1u8) >> jj) & 1u8 == 1u8) <==> jj < kk);
            }
        }
        r
    }

    fn bit(&self, i: usize) -> (r: bool) {
        ((*self >> (i as u8)) & 1u8) == 1u8
    }

    fn is_zero(&self) -> (r: bool) {
        let r = *self == 0u8;
        proof {
            u8_bit_facts();
            if !r {
                vstd::std_specs::bits::axiom_u8_trailing_zeros(*self);
                let t = vstd::std_specs::bits::u8_trailing_zeros(*self) as int;
                assert(self.bits()[t]);
            }
        }
        r
    }

    fn trailing_zeros(&self) -> (r: usize) {
        let t = u8::trailing_zeros(*self);
        proof {
            u8_bit_facts();
            vstd::std_specs::bits::axiom_u8_trailing_zeros(*self);
            if t < 8 {
                assert(self.bits()[t as int]);
                assert forall|j: int| 0 <= j < t implies !(#[trigger] self.bits()[j]) by {
                    assert((*self >> (j as u8)) & 1u8 == 0u8);
                }
            } else {
                assert(*self == 0u8);
            }
            if *self == 0u8 {
                assert(t == 8);
            } else {
                let tz = vstd::std_specs::bits::u8_trailing_zeros(*self) as int;
                assert(self.bits()[tz]);
            }
        }
        t as usize
    }

    fn low_byte(&self) -> (r: u8) {
        *self
    }

    fn from_byte(b: u8) -> (r: Self) {
        b
    }
}

/// The word-level bit facts for `u16`, proved once with the bit-vector solver.
proof fn u16_bit_facts()
    by (bit_vector)
    ensures
        forall|j: u16| (#[trigger] ((0u16 >> j) & 1u16)) == 0u16,
        forall|j: u16| j < 16 ==> (((#[trigger] ((1u16 >> j) & 1u16)) == 1u16) <==> j == 0),
        forall|x: u16, y: u16, j: u16|
            ((#[trigger] (((x | y) >> j) & 1u16)) == 1u16) <==> (((x >> j) & 1u16 == 1u16)
                || ((y >> j) & 1u16 == 1u16)),
        forall|x: u16, y: u16, j: u16|
            ((#[trigger] (((x & y) >> j) & 1u16)) == 1u16) <==> (((x >> j) & 1u16 == 1u16)
                && ((y >> j) & 1u16 == 1u16)),
        forall|x: u16, y: u16, j: u16|
            ((#[trigger] (((x ^ y) >> j) & 1u16)) == 1u16) <==> (((x >> j) & 1u16 == 1u16)
                != ((y >> j) & 1u16 == 1u16)),
        forall|x: u16, j: u16|
            j < 16 ==> (((#[trigger] (((!x) >> j) & 1u16)) == 1u16) <==> !((x >> j) & 1u16
                == 1u16)),
        forall|x: u16, k: u16, j: u16|
            k < 16 && j < 16 ==> (((#[trigger] (((x << k) >> j) & 1u16)) == 1u16) <==> (k <= j
                && ((x >> vstd::prelude::sub(j, k)) & 1u16 == 1u16))),
        forall|x: u16, k: u16, j: u16|
            k < 16 && j < 16 ==> (((#[trigger] (((x >> k) >> j) & 1u16)) == 1u16) <==> (j + k
                < 16 && ((x >> vstd::prelude::add(j, k)) & 1u16 == 1u16))),
        forall|k: u16, j: u16|
            k < 16 && j < 16 ==> (((#[trigger] ((vstd::prelude::sub(1u16 << k, 1u16) >> j)
                & 1u16)) == 1u16) <==> j < k),
        forall|k: u16| k < 16 ==> (#[trigger] (1u16 << k)) >= 1,
        forall|x: u16, j: u8|
            j < 8 ==> (((#[trigger] (((x as u8) >> j) & 1u8)) == 1u8) <==> ((x >> (j as u16))
                & 1u16 == 1u16)),
        forall|b: u8, j: u16|
            j < 16 ==> (((#[trigger] (((b as u16) >> j) & 1u16)) == 1u16) <==> (j < 8 && ((b
                >> (j as u8)) & 1u8 == 1u8))),
{
}

impl BitStorage for u16 {
    open spec fn wsize() -> nat {
        16
    }

    open spec fn bits(&self) -> Seq<bool> {
        Seq::new(16, |j: int| ((*self >> (j as u16)) & 1u16) == 1u16)
    }

    proof fn lemma_wsize() {
    }

    proof fn lemma_bits_len(&self) {
    }

    fn size() -> (r: usize) {
        16
    }

    fn zero() -> (r: Self) {
        proof {
            u16_bit_facts();
        }
        0u16
    }

    fn one() -> (r: Self) {
        proof {
            u16_bit_facts();
        }
        1u16
    }

    fn or(&self, other: &Self) -> (r: Self) {
        let r = *self | *other;
        proof {
            u16_bit_facts();
            assert forall|j: int|
                0 <= j < Self::wsize() implies ((#[trigger] r.bits()[j]) <==> (self.bits()[j]
                || other.bits()[j])) by {
                let jj = j as u16;
                assert((((*self | *other) >> jj) & 1u16 == 1u16) <==> (((*self >> jj) & 1u16
                    == 1u16) || ((*other >> jj) & 1u16 == 1u16)));
            }
        }
        r
    }

    fn and(&self, other: &Self) -> (r: Self) {
        let r = *self & *other;
        proof {
            u16_bit_facts();
            assert forall|j: int|
                0 <= j < Self::wsize() implies ((#[trigger] r.bits()[j]) <==> (self.bits()[j]
                && other.bits()[j])) by {
                let jj = j as u16;
                assert((((*self & *other) >> jj) & 1u16 == 1u16) <==> (((*self >> jj) & 1u16
                    == 1u16) && ((*other >> jj) & 1u16 == 1u16)));
            }
        }
        r
    }

    fn xor(&self, other: &Self) -> (r: Self) {
        let r = *self ^ *other;
        proof {
            u16_bit_facts();
            assert forall|j: int|
                0 <= j < Self::wsize() implies ((#[trigger] r.bits()[j]) <==> (self.bits()[j]
                != other.bits()[j])) by {
                let jj = j as u16;
                assert((((*self ^ *other) >> jj) & 1u16 == 1u16) <==> (((*self >> jj) & 1u16
                    == 1u16) != ((*other >> jj) & 1u16 == 1u16)));
            }
        }
        r
    }

    fn not(&self) -> (r: Self) {
        let r = !*self;
        proof {
            u16_bit_facts();
            assert forall|j: int|
                0 <= j < Self::wsize() implies ((#[trigger] r.bits()[j]) <==> !self.bits()[j]) by {
                let jj = j as u16;
                assert(((((!*self) >> jj) & 1u16) == 1u16) <==> !((*self >> jj) & 1u16
                    == 1u16));
            }
        }
        r
    }

    fn shl(&self, k: usize) -> (r: Self) {
        let r = *self << (k as u16);
        proof {
            u16_bit_facts();
            assert forall|j: int|
                0 <= j < Self::wsize() implies ((#[trigger] r.bits()[j]) <==> (k <= j
                && self.bits()[j - k])) by {
                let jj = j as u16;
                let kk = k as u16;
                assert((((*self << kk) >> jj) & 1u16 == 1u16) <==> (kk <= jj && ((*self
                    >> vstd::prelude::sub(jj, kk)) & 1u16 == 1u16)));
            }
        }
        r
    }

    fn shr(&self, k: usize) -> (r: Self) {
        let r = *self >> (k as u16);
        proof {
            u16_bit_facts();
            assert forall|j: int|
                0 <= j < Self::wsize() implies ((#[trigger] r.bits()[j]) <==> (j + k < Self::wsize()
                && self.bits()[j + k])) by {
                let jj = j as u16;
                let kk = k as u16;
                assert((((*self >> kk) >> jj) & 1u16 == 1u16) <==> (jj + kk < 16 && ((*self
                    >> vstd::prelude::add(jj, kk)) & 1u16 == 1u16)));
            }
        }
        r
    }

    fn low_ones(k: usize) -> (r: Self) {
        proof {
            u16_bit_facts();
        }
        let r = (1u16 << (k as u16)) - 1;
        proof {
            assert forall|j: int| 0 <= j < Self::wsize() implies ((#[trigger] r.bits()[j]) <==> j
                < k) by {
                let jj = j as u16;
                let kk = k as u16;
                assert(((vstd::prelude::sub(1u16 << kk, 1u16) >> jj) & 1u16 == 1u16) <==> jj
                    < kk);
            }
        }
        r
    }

    fn bit(&self, i: usize) -> (r: bool) {
        ((*self >> (i as u16)) & 1u16) == 1u16
    }

    fn trailing_zeros(&self) -> (r: usize) {
        let t = u16::trailing_zeros(*self);
        proof {
            u16_bit_facts();
            vstd::std_specs::bits::axiom_u16_trailing_zeros(*self);
            if t < 16 {
                assert(self.bits()[t as int]);
                assert forall|j: int| 0 <= j < t implies !(#[trigger] self.bits()[j]) by {
                    assert((*self >> (j as u16)) & 1u16 == 0u16);
                }
            } else {
                assert(*self == 0u16);
            }
            if *self == 0u16 {
                assert(t == 16);
            } else {
                let tz = vstd::std_specs::bits::u16_trailing_zeros(*self) as int;
                assert(self.bits()[tz]);
            }
        }
        t as usize
    }

    fn is_zero(&self) -> (r: bool) {
        let r = *self == 0u16;
        proof {
            u16_bit_facts();
            if !r {
                vstd::std_specs::bits::axiom_u16_trailing_zeros(*self);
                let t = vstd::std_specs::bits::u16_trailing_zeros(*self) as int;
                assert(self.bits()[t]);
            }
        }
        r
    }

    fn low_byte(&self) -> (r: u8) {
        let r = *self as u8;
        proof {
            u16_bit_facts();
            assert forall|j: int| 0 <= j < 8 implies ((#[trigger] byte_bit(r, j))
                <==> self.bits()[j]) by {
                let jj = j as u8;
                assert((((*self as u8) >> jj) & 1u8 == 1u8) <==> ((*self >> (jj as u16)) & 1u16
                    == 1u16));
            }
        }
        r
    }

    fn from_byte(b: u8) -> (r: Self) {
        let r = b as u16;
        proof {
            u16_bit_facts();
            assert forall|j: int|
                0 <= j < Self::wsize() implies ((#[trigger] r.bits()[j]) <==> (j < 8 && byte_bit(
                b,
                j,
            ))) by {
                let jj = j as u16;
                assert((((b as u16) >> jj) & 1u16 == 1u16) <==> (jj < 8 && ((b >> (jj as u8))
                    & 1u8 == 1u8)));
            }
        }
        r
    }
}

/// The word-level bit facts for `u32`, proved once with the bit-vector solver.
proof fn u32_bit_facts()
    by (bit_vector)
    ensures
        forall|j: u32| (#[trigger] ((0u32 >> j) & 1u32)) == 0u32,
        forall|j: u32| j < 32 ==> (((#[trigger] ((1u32 >> j) & 1u32)) == 1u32) <==> j == 0),
        forall|x: u32, y: u32, j: u32|
            ((#[trigger] (((x | y) >> j) & 1u32)) == 1u32) <==> (((x >> j) & 1u32 == 1u32)
                || ((y >> j) & 1u32 == 1u32)),
        forall|x: u32, y: u32, j: u32|
            ((#[trigger] (((x & y) >> j) & 1u32)) == 1u32) <==> (((x >> j) & 1u32 == 1u32)
                && ((y >> j) & 1u32 == 1u32)),
        forall|x: u32, y: u32, j: u32|
            ((#[trigger] (((x ^ y) >> j) & 1u32)) == 1u32) <==> (((x >> j) & 1u32 == 1u32)
                != ((y >> j) & 1u32 == 1u32)),
        forall|x: u32, j: u32|
            j < 32 ==> (((#[trigger] (((!x) >> j) & 1u32)) == 1u32) <==> !((x >> j) & 1u32
                == 1u32)),
        forall|x: u32, k: u32, j: u32|
            k < 32 && j < 32 ==> (((#[trigger] (((x << k) >> j) & 1u32)) == 1u32) <==> (k <= j
                && ((x >> vstd::prelude::sub(j, k)) & 1u32 == 1u32))),
        forall|x: u32, k: u32, j: u32|
            k < 32 && j < 32 ==> (((#[trigger] (((x >> k) >> j) & 1u32)) == 1u32) <==> (j + k
                < 32 && ((x >> vstd::prelude::add(j, k)) & 1u32 == 1u32))),
        forall|k: u32, j: u32|
            k < 32 && j < 32 ==> (((#[trigger] ((vstd::prelude::sub(1u32 << k, 1u32) >> j)
                & 1u32)) == 1u32) <==> j < k),
        forall|k: u32| k < 32 ==> (#[trigger] (1u32 << k)) >= 1,
        forall|x: u32, j: u8|
            j < 8 ==> (((#[trigger] (((x as u8) >> j) & 1u8)) == 1u8) <==> ((x >> (j as u32))
                & 1u32 == 1u32)),
        forall|b: u8, j: u32|
            j < 32 ==> (((#[trigger] (((b as u32) >> j) & 1u32)) == 1u32) <==> (j < 8 && ((b
                >> (j as u8)) & 1u8 == 1u8))),
{
}

impl BitStorage for u32 {
    open spec fn wsize() -> nat {
        32
    }

    open spec fn bits(&self) -> Seq<bool> {
        Seq::new(32, |j: int| ((*self >> (j as u32)) & 1u32) == 1u32)
    }

    proof fn lemma_wsize() {
    }

    proof fn lemma_bits_len(&self) {
    }

    fn size() -> (r: usize) {
        32
    }

    fn zero() -> (r: Self) {
        proof {
            u32_bit_facts();
        }
        0u32
    }

    fn one() -> (r: Self) {
        proof {
            u32_bit_facts();
        }
        1u32
    }

    fn or(&self, other: &Self) -> (r: Self) {
        let r = *self | *other;
        proof {
            u32_bit_facts();
            assert forall|j: int|
                0 <= j < Self::wsize() implies ((#[trigger] r.bits()[j]) <==> (self.bits()[j]
                || other.bits()[j])) by {
                let jj = j as u32;
                assert((((*self | *other) >> jj) & 1u32 == 1u32) <==> (((*self >> jj) & 1u32
                    == 1u32) || ((*other >> jj) & 1u32 == 1u32)));
            }
        }
        r
    }

    fn and(&self, other: &Self) -> (r: Self) {
        let r = *self & *other;
        proof {
            u32_bit_facts();
            assert forall|j: int|
                0 <= j < Self::wsize() implies ((#[trigger] r.bits()[j]) <==> (self.bits()[j]
                && other.bits()[j])) by {
                let jj = j as u32;
                assert((((*self & *other) >> jj) & 1u32 == 1u32) <==> (((*self >> jj) & 1u32
                    == 1u32) && ((*other >> jj) & 1u32 == 1u32)));
            }
        }
        r
    }

    fn xor(&self, other: &Self) -> (r: Self) {
        let r = *self ^ *other;
        proof {
            u32_bit_facts();
            assert forall|j: int|
                0 <= j < Self::wsize() implies ((#[trigger] r.bits()[j]) <==> (self.bits()[j]
                != other.bits()[j])) by {
                let jj = j as u32;
                assert((((*self ^ *other) >> jj) & 1u32 == 1u32) <==> (((*self >> jj) & 1u32
                    == 1u32) != ((*other >> jj) & 1u32 == 1u32)));
            }
        }
        r
    }

    fn not(&self) -> (r: Self) {
        let r = !*self;
        proof {
            u32_bit_facts();
            assert forall|j: int|
                0 <= j < Self::wsize() implies ((#[trigger] r.bits()[j]) <==> !self.bits()[j]) by {
                let jj = j as u32;
                assert(((((!*self) >> jj) & 1u32) == 1u32) <==> !((*self >> jj) & 1u32
                    == 1u32));
            }
        }
        r
    }

    fn shl(&self, k: usize) -> (r: Self) {
        let r = *self << (k as u32);
        proof {
            u32_bit_facts();
            assert forall|j: int|
                0 <= j < Self::wsize() implies ((#[trigger] r.bits()[j]) <==> (k <= j
                && self.bits()[j - k])) by {
                let jj = j as u32;
                let kk = k as u32;
                assert((((*self << kk) >> jj) & 1u32 == 1u32) <==> (kk <= jj && ((*self
                    >> vstd::prelude::sub(jj, kk)) & 1u32 == 1u32)));
            }
        }
        r
    }

    fn shr(&self, k: usize) -> (r: Self) {
        let r = *self >> (k as u32);
        proof {
            u32_bit_facts();
            assert forall|j: int|
                0 <= j < Self::wsize() implies ((#[trigger] r.bits()[j]) <==> (j + k < Self::wsize()
                && self.bits()[j + k])) by {
                let jj = j as u32;
                let kk = k as u32;
                assert((((*self >> kk) >> jj) & 1u32 == 1u32) <==> (jj + kk < 32 && ((*self
                    >> vstd::prelude::add(jj, kk)) & 1u32 == 1u32)));
            }
        }
        r
    }

    fn low_ones(k: usize) -> (r: Self) {
        proof {
            u32_bit_facts();
        }
        let r = (1u32 << (k as u32)) - 1;
        proof {
            assert forall|j: int| 0 <= j < Self::wsize() implies ((#[trigger] r.bits()[j]) <==> j
                < k) by {
                let jj = j as u32;
                let kk = k as u32;
                assert(((vstd::prelude::sub(1u32 << kk, 1u32) >> jj) & 1u32 == 1u32) <==> jj
                    < kk);
            }
        }
        r
    }

    fn bit(&self, i: usize) -> (r: bool) {
        ((*self >> (i as u32)) & 1u32) == 1u32
    }

    fn trailing_zeros(&self) -> (r: usize) {
        let t = u32::trailing_zeros(*self);
        proof {
            u32_bit_facts();
            vstd::std_specs::bits::axiom_u32_trailing_zeros(*self);
            if t < 32 {
                assert(self.bits()[t as int]);
                assert forall|j: int| 0 <= j < t implies !(#[trigger] self.bits()[j]) by {
                    assert((*self >> (j as u32)) & 1u32 == 0u32);
                }
            } else {
                assert(*self == 0u32);
            }
            if *self == 0u32 {
                assert(t == 32);
            } else {
                let tz = vstd::std_specs::bits::u32_trailing_zeros(*self) as int;
                assert(self.bits()[tz]);
            }
        }
        t as usize
    }

    fn is_zero(&self) -> (r: bool) {
        let r = *self == 0u32;
        proof {
            u32_bit_facts();
            if !r {
                vstd::std_specs::bits::axiom_u32_trailing_zeros(*self);
                let t = vstd::std_specs::bits::u32_trailing_zeros(*self) as int;
                assert(self.bits()[t]);
            }
        }
        r
    }

    fn low_byte(&self) -> (r: u8) {
        let r = *self as u8;
        proof {
            u32_bit_facts();
            assert forall|j: int| 0 <= j < 8 implies ((#[trigger] byte_bit(r, j))
                <==> self.bits()[j]) by {
                let jj = j as u8;
                assert((((*self as u8) >> jj) & 1u8 == 1u8) <==> ((*self >> (jj as u32)) & 1u32
                    == 1u32));
            }
        }
        r
    }

    fn from_byte(b: u8) -> (r: Self) {
        let r = b as u32;
        proof {
            u32_bit_facts();
            assert forall|j: int|
                0 <= j < Self::wsize() implies ((#[trigger] r.bits()[j]) <==> (j < 8 && byte_bit(
                b,
                j,
            ))) by {
                let jj = j as u32;
                assert((((b as u32) >> jj) & 1u32 == 1u32) <==> (jj < 8 && ((b >> (jj as u8))
                    & 1u8 == 1u8)));
            }
        }
        r
    }
}

/// The word-level bit facts for `u64`, proved once with the bit-vector solver.
proof fn u64_bit_facts()
    by (bit_vector)
    ensures
        forall|j: u64| (#[trigger] ((0u64 >> j) & 1u64)) == 0u64,
        forall|j: u64| j < 64 ==> (((#[trigger] ((1u64 >> j) & 1u64)) == 1u64) <==> j == 0),
        forall|x: u64, y: u64, j: u64|
            ((#[trigger] (((x | y) >> j) & 1u64)) == 1u64) <==> (((x >> j) & 1u64 == 1u64)
                || ((y >> j) & 1u64 == 1u64)),
        forall|x: u64, y: u64, j: u64|
            ((#[trigger] (((x & y) >> j) & 1u64)) == 1u64) <==> (((x >> j) & 1u64 == 1u64)
                && ((y >> j) & 1u64 == 1u64)),
        forall|x: u64, y: u64, j: u64|
            ((#[trigger] (((x ^ y) >> j) & 1u64)) == 1u64) <==> (((x >> j) & 1u64 == 1u64)
                != ((y >> j) & 1u64 == 1u64)),
        forall|x: u64, j: u64|
            j < 64 ==> (((#[trigger] (((!x) >> j) & 1u64)) == 1u64) <==> !((x >> j) & 1u64
                == 1u64)),
        forall|x: u64, k: u64, j: u64|
            k < 64 && j < 64 ==> (((#[trigger] (((x << k) >> j) & 1u64)) == 1u64) <==> (k <= j
                && ((x >> vstd::prelude::sub(j, k)) & 1u64 == 1u64))),
        forall|x: u64, k: u64, j: u64|
            k < 64 && j < 64 ==> (((#[trigger] (((x >> k) >> j) & 1u64)) == 1u64) <==> (j + k
                < 64 && ((x >> vstd::prelude::add(j, k)) & 1u64 == 1u64))),
        forall|k: u64, j: u64|
            k < 64 && j < 64 ==> (((#[trigger] ((vstd::prelude::sub(1u64 << k, 1u64) >> j)
                & 1u64)) == 1u64) <==> j < k),
        forall|k: u64| k < 64 ==> (#[trigger] (1u64 << k)) >= 1,
        forall|x: u64, j: u8|
            j < 8 ==> (((#[trigger] (((x as u8) >> j) & 1u8)) == 1u8) <==> ((x >> (j as u64))
                & 1u64 == 1u64)),
        forall|b: u8, j: u64|
            j < 64 ==> (((#[trigger] (((b as u64) >> j) & 1u64)) == 1u64) <==> (j < 8 && ((b
                >> (j as u8)) & 1u8 == 1u8))),
{
}

impl BitStorage for u64 {
    open spec fn wsize() -> nat {
        64
    }

    open spec fn bits(&self) -> Seq<bool> {
        Seq::new(64, |j: int| ((*self >> (j as u64)) & 1u64) == 1u64)
    }

    proof fn lemma_wsize() {
    }

    proof fn lemma_bits_len(&self) {
    }

    fn size() -> (r: usize) {
        64
    }

    fn zero() -> (r: Self) {
        proof {
            u64_bit_facts();
        }
        0u64
    }

    fn one() -> (r: Self) {
        proof {
            u64_bit_facts();
        }
        1u64
    }

    fn or(&self, other: &Self) -> (r: Self) {
        let r = *self | *other;
        proof {
            u64_bit_facts();
            assert forall|j: int|
                0 <= j < Self::wsize() implies ((#[trigger] r.bits()[j]) <==> (self.bits()[j]
                || other.bits()[j])) by {
                let jj = j as u64;
                assert((((*self | *other) >> jj) & 1u64 == 1u64) <==> (((*self >> jj) & 1u64
                    == 1u64) || ((*other >> jj) & 1u64 == 1u64)));
            }
        }
        r
    }

    fn and(&self, other: &Self) -> (r: Self) {
        let r = *self & *other;
        proof {
            u64_bit_facts();
            assert forall|j: int|
                0 <= j < Self::wsize() implies ((#[trigger] r.bits()[j]) <==> (self.bits()[j]
                && other.bits()[j])) by {
                let jj = j as u64;
                assert((((*self & *other) >> jj) & 1u64 == 1u64) <==> (((*self >> jj) & 1u64
                    == 1u64) && ((*other >> jj) & 1u64 == 1u64)));
            }
        }
        r
    }

    fn xor(&self, other: &Self) -> (r: Self) {
        let r = *self ^ *other;
        proof {
            u64_bit_facts();
            assert forall|j: int|
                0 <= j < Self::wsize() implies ((#[trigger] r.bits()[j]) <==> (self.bits()[j]
                != other.bits()[j])) by {
                let jj = j as u64;
                assert((((*self ^ *other) >> jj) & 1u64 == 1u64) <==> (((*self >> jj) & 1u64
                    == 1u64) != ((*other >> jj) & 1u64 == 1u64)));
            }
        }
        r
    }

    fn not(&self) -> (r: Self) {
        let r = !*self;
        proof {
            u64_bit_facts();
            assert forall|j: int|
                0 <= j < Self::wsize() implies ((#[trigger] r.bits()[j]) <==> !self.bits()[j]) by {
                let jj = j as u64;
                assert(((((!*self) >> jj) & 1u64) == 1u64) <==> !((*self >> jj) & 1u64
                    == 1u64));
            }
        }
        r
    }

    fn shl(&self, k: usize) -> (r: Self) {
        let r = *self << (k as u64);
        proof {
            u64_bit_facts();
            assert forall|j: int|
                0 <= j < Self::wsize() implies ((#[trigger] r.bits()[j]) <==> (k <= j
                && self.bits()[j - k])) by {
                let jj = j as u64;
                let kk = k as u64;
                assert((((*self << kk) >> jj) & 1u64 == 1u64) <==> (kk <= jj && ((*self
                    >> vstd::prelude::sub(jj, kk)) & 1u64 == 1u64)));
            }
        }
        r
    }

    fn shr(&self, k: usize) -> (r: Self) {
        let r = *self >> (k as u64);
        proof {
            u64_bit_facts();
            assert forall|j: int|
                0 <= j < Self::wsize() implies ((#[trigger] r.bits()[j]) <==> (j + k < Self::wsize()
                && self.bits()[j + k])) by {
                let jj = j as u64;
                let kk = k as u64;
                assert((((*self >> kk) >> jj) & 1u64 == 1u64) <==> (jj + kk < 64 && ((*self
                    >> vstd::prelude::add(jj, kk)) & 1u64 == 1u64)));
            }
        }
        r
    }

    fn low_ones(k: usize) -> (r: Self) {
        proof {
            u64_bit_facts();
        }
        let r = (1u64 << (k as u64)) - 1;
        proof {
            assert forall|j: int| 0 <= j < Self::wsize() implies ((#[trigger] r.bits()[j]) <==> j
                < k) by {
                let jj = j as u64;
                let kk = k as u64;
                assert(((vstd::prelude::sub(1u64 << kk, 1u64) >> jj) & 1u64 == 1u64) <==> jj
                    < kk);
            }
        }
        r
    }

    fn bit(&self, i: usize) -> (r: bool) {
        ((*self >> (i as u64)) & 1u64) == 1u64
    }

    fn trailing_zeros(&self) -> (r: usize) {
        let t = u64::trailing_zeros(*self);
        proof {
            u64_bit_facts();
            vstd::std_specs::bits::axiom_u64_trailing_zeros(*self);
            if t < 64 {
                assert(self.bits()[t as int]);
                assert forall|j: int| 0 <= j < t implies !(#[trigger] self.bits()[j]) by {
                    assert((*self >> (j as u64)) & 1u64 == 0u64);
                }
            } else {
                assert(*self == 0u64);
            }
            if *self == 0u64 {
                assert(t == 64);
            } else {
                let tz = vstd::std_specs::bits::u64_trailing_zeros(*self) as int;
                assert(self.bits()[tz]);
            }
        }
        t as usize
    }

    fn is_zero(&self) -> (r: bool) {
        let r = *self == 0u64;
        proof {
            u64_bit_facts();
            if !r {
                vstd::std_specs::bits::axiom_u64_trailing_zeros(*self);
                let t = vstd::std_specs::bits::u64_trailing_zeros(*self) as int;
                assert(self.bits()[t]);
            }
        }
        r
    }

    fn low_byte(&self) -> (r: u8) {
        let r = *self as u8;
        proof {
            u64_bit_facts();
            assert forall|j: int| 0 <= j < 8 implies ((#[trigger] byte_bit(r, j))
                <==> self.bits()[j]) by {
                let jj = j as u8;
                assert((((*self as u8) >> jj) & 1u8 == 1u8) <==> ((*self >> (jj as u64)) & 1u64
                    == 1u64));
            }
        }
        r
    }

    fn from_byte(b: u8) -> (r: Self) {
        let r = b as u64;
        proof {
            u64_bit_facts();
            assert forall|j: int|
                0 <= j < Self::wsize() implies ((#[trigger] r.bits()[j]) <==> (j < 8 && byte_bit(
                b,
                j,
            ))) by {
                let jj = j as u64;
                assert((((b as u64) >> jj) & 1u64 == 1u64) <==> (jj < 8 && ((b >> (jj as u8))
                    & 1u8 == 1u8)));
            }
        }
        r
    }
}

/// The word-level bit facts for `u128`, proved once with the bit-vector solver.
proof fn u128_bit_facts()
    by (bit_vector)
    ensures
        forall|j: u128| (#[trigger] ((0u128 >> j) & 1u128)) == 0u128,
        forall|j: u128| j < 128 ==> (((#[trigger] ((1u128 >> j) & 1u128)) == 1u128) <==> j == 0),
        forall|x: u128, y: u128, j: u128|
            ((#[trigger] (((x | y) >> j) & 1u128)) == 1u128) <==> (((x >> j) & 1u128 == 1u128)
                || ((y >> j) & 1u128 == 1u128)),
        forall|x: u128, y: u128, j: u128|
            ((#[trigger] (((x & y) >> j) & 1u128)) == 1u128) <==> (((x >> j) & 1u128 == 1u128)
                && ((y >> j) & 1u128 == 1u128)),
        forall|x: u128, y: u128, j: u128|
            ((#[trigger] (((x ^ y) >> j) & 1u128)) == 1u128) <==> (((x >> j) & 1u128 == 1u128)
                != ((y >> j) & 1u128 == 1u128)),
        forall|x: u128, j: u128|
            j < 128 ==> (((#[trigger] (((!x) >> j) & 1u128)) == 1u128) <==> !((x >> j) & 1u128
                == 1u128)),
        forall|x: u128, k: u128, j: u128|
            k < 128 && j < 128 ==> (((#[trigger] (((x << k) >> j) & 1u128)) == 1u128) <==> (k <= j
                && ((x >> vstd::prelude::sub(j, k)) & 1u128 == 1u128))),
        forall|x: u128, k: u128, j: u128|
            k < 128 && j < 128 ==> (((#[trigger] (((x >> k) >> j) & 1u128)) == 1u128) <==> (j + k
                < 128 && ((x >> vstd::prelude::add(j, k)) & 1u128 == 1u128))),
        forall|k: u128, j: u128|
            k < 128 && j < 128 ==> (((#[trigger] ((vstd::prelude::sub(1u128 << k, 1u128) >> j)
                & 1u128)) == 1u128) <==> j < k),
        forall|k: u128| k < 128 ==> (#[trigger] (1u128 << k)) >= 1,
        forall|x: u128, j: u8|
            j < 8 ==> (((#[trigger] (((x as u8) >> j) & 1u8)) == 1u8) <==> ((x >> (j as u128))
                & 1u128 == 1u128)),
        forall|b: u8, j: u128|
            j < 128 ==> (((#[trigger] (((b as u128) >> j) & 1u128)) == 1u128) <==> (j < 8 && ((b
                >> (j as u8)) & 1u8 == 1u8))),
{
}

impl BitStorage for u128 {
    open spec fn wsize() -> nat {
        128
    }

    open spec fn bits(&self) -> Seq<bool> {
        Seq::new(128, |j: int| ((*self >> (j as u128)) & 1u128) == 1u128)
    }

    proof fn lemma_wsize() {
    }

    proof fn lemma_bits_len(&self) {
    }

    fn size() -> (r: usize) {
        128
    }

    fn zero() -> (r: Self) {
        proof {
            u128_bit_facts();
        }
        0u128
    }

    fn one() -> (r: Self) {
        proof {
            u128_bit_facts();
        }
        1u128
    }

    fn or(&self, other: &Self) -> (r: Self) {
        let r = *self | *other;
        proof {
            u128_bit_facts();
            assert forall|j: int|
                0 <= j < Self::wsize() implies ((#[trigger] r.bits()[j]) <==> (self.bits()[j]
                || other.bits()[j])) by {
                let jj = j as u128;
                assert((((*self | *other) >> jj) & 1u128 == 1u128) <==> (((*self >> jj) & 1u128
                    == 1u128) || ((*other >> jj) & 1u128 == 1u128)));
            }
        }
        r
    }

    fn and(&self, other: &Self) -> (r: Self) {
        let r = *self & *other;
        proof {
            u128_bit_facts();
            assert forall|j: int|
                0 <= j < Self::wsize() implies ((#[trigger] r.bits()[j]) <==> (self.bits()[j]
                && other.bits()[j])) by {
                let jj = j as u128;
                assert((((*self & *other) >> jj) & 1u128 == 1u128) <==> (((*self >> jj) & 1u128
                    == 1u128) && ((*other >> jj) & 1u128 == 1u128)));
            }
        }
        r
    }

    fn xor(&self, other: &Self) -> (r: Self) {
        let r = *self ^ *other;
        proof {
            u128_bit_facts();
            assert forall|j: int|
                0 <= j < Self::wsize() implies ((#[trigger] r.bits()[j]) <==> (self.bits()[j]
                != other.bits()[j])) by {
                let jj = j as u128;
                assert((((*self ^ *other) >> jj) & 1u128 == 1u128) <==> (((*self >> jj) & 1u128
                    == 1u128) != ((*other >> jj) & 1u128 == 1u128)));
            }
        }
        r
    }

    fn not(&self) -> (r: Self) {
        let r = !*self;
        proof {
            u128_bit_facts();
            assert forall|j: int|
                0 <= j < Self::wsize() implies ((#[trigger] r.bits()[j]) <==> !self.bits()[j]) by {
                let jj = j as u128;
                assert(((((!*self) >> jj) & 1u128) == 1u128) <==> !((*self >> jj) & 1u128
                    == 1u128));
            }
        }
        r
    }

    fn shl(&self, k: usize) -> (r: Self) {
        let r = *self << (k as u128);
        proof {
            u128_bit_facts();
            assert forall|j: int|
                0 <= j < Self::wsize() implies ((#[trigger] r.bits()[j]) <==> (k <= j
                && self.bits()[j - k])) by {
                let jj = j as u128;
                let kk = k as u128;
                assert((((*self << kk) >> jj) & 1u128 == 1u128) <==> (kk <= jj && ((*self
                    >> vstd::prelude::sub(jj, kk)) & 1u128 == 1u128)));
            }
        }
        r
    }

    fn shr(&self, k: usize) -> (r: Self) {
        let r = *self >> (k as u128);
        proof {
            u128_bit_facts();
            assert forall|j: int|
                0 <= j < Self::wsize() implies ((#[trigger] r.bits()[j]) <==> (j + k < Self::wsize()
                && self.bits()[j + k])) by {
                let jj = j as u128;
                let kk = k as u128;
                assert((((*self >> kk) >> jj) & 1u128 == 1u128) <==> (jj + kk < 128 && ((*self
                    >> vstd::prelude::add(jj, kk)) & 1u128 == 1u128)));
            }
        }
        r
    }

    fn low_ones(k: usize) -> (r: Self) {
        proof {
            u128_bit_facts();
        }
        let r = (1u128 << (k as u128)) - 1;
        proof {
            assert forall|j: int| 0 <= j < Self::wsize() implies ((#[trigger] r.bits()[j]) <==> j
                < k) by {
                let jj = j as u128;
                let kk = k as u128;
                assert(((vstd::prelude::sub(1u128 << kk, 1u128) >> jj) & 1u128 == 1u128) <==> jj
                    < kk);
            }
        }
        r
    }

    fn bit(&self, i: usize) -> (r: bool) {
        ((*self >> (i as u128)) & 1u128) == 1u128
    }

    fn trailing_zeros(&self) -> (r: usize) {
        let mut i: usize = 0;
        while i < 128
            invariant
                i <= 128,
                forall|j: int| 0 <= j < i ==> !(#[trigger] self.bits()[j]),
            decreases 128 - i,
        {
            if self.bit(i) {
                return i;
            }
            i = i + 1;
        }
        128
    }

    fn is_zero(&self) -> (r: bool) {
        let mut i: usize = 0;
        while i < 128
            invariant
                i <= 128,
                forall|j: int| 0 <= j < i ==> !(#[trigger] self.bits()[j]),
            decreases 128 - i,
        {
            if self.bit(i) {
                return false;
            }
            i = i + 1;
        }
        true
    }

    fn low_byte(&self) -> (r: u8) {
        let r = *self as u8;
        proof {
            u128_bit_facts();
            assert forall|j: int| 0 <= j < 8 implies ((#[trigger] byte_bit(r, j))
                <==> self.bits()[j]) by {
                let jj = j as u8;
                assert((((*self as u8) >> jj) & 1u8 == 1u8) <==> ((*self >> (jj as u128)) & 1u128
                    == 1u128));
            }
        }
        r
    }

    fn from_byte(b: u8) -> (r: Self) {
        let r = b as u128;
        proof {
            u128_bit_facts();
            assert forall|j: int|
                0 <= j < Self::wsize() implies ((#[trigger] r.bits()[j]) <==> (j < 8 && byte_bit(
                b,
                j,
            ))) by {
                let jj = j as u128;
                assert((((b as u128) >> jj) & 1u128 == 1u128) <==> (jj < 8 && ((b >> (jj as u8))
                    & 1u8 == 1u8)));
            }
        }
        r
    }
}

} // verus!
