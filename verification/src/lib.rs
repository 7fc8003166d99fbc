//! A dynamically sized bitmask: a dense sequence of boolean flags packed into
//! fixed-width storage words, with single-bit access, bulk fill, boolean
//! algebra, shifts, rendering and a byte-level transport record.
//!
//! A mask is modeled as its sequence of logical bits (the view `m@`), and
//! every operation's contract is stated over that model.  The storage itself
//! always holds `length / W + 1` words, and every bit beyond the logical
//! length (the tail padding) reads as zero.

pub mod bit_storage;
pub mod error;
pub mod laws;
pub mod model;
pub mod record;

use vstd::prelude::*;

use bit_storage::BitStorage;
use error::BitMaskError;
use vstd::std_specs::cmp::PartialEqSpec;

verus! {

/// A dense sequence of `length` boolean flags packed into storage words of
/// type `T`, least-significant word first.
#[derive(Clone, Debug)]
pub struct BitMask<T> {
    mask: Vec<T>,
    length: usize,
}

impl<T: BitStorage> BitMask<T> {
    /// The logical bit at flat position `i` of the storage.
    pub closed spec fn bit_at(self, i: int) -> bool {
        self.mask@[i / (T::wsize() as int)].bits()[i % (T::wsize() as int)]
    }

    /// The number of bits the allocated words can hold.
    pub closed spec fn capacity(self) -> int {
        self.mask@.len() * T::wsize() as int
    }

    /// The structural invariant: the word count always equals
    /// `length / W + 1`, every word carries exactly `W` bits, and every bit at
    /// or beyond the logical length reads as zero.
    pub closed spec fn wf(self) -> bool {
        &&& self.mask@.len() == self.length as int / (T::wsize() as int) + 1
        &&& (forall|k: int|
            0 <= k < self.mask@.len() ==> (#[trigger] self.mask@[k].bits()).len() == T::wsize())
        &&& (forall|i: int| self.length <= i < self.capacity() ==> !(#[trigger] self.bit_at(i)))
    }
}

impl<T: BitStorage> View for BitMask<T> {
    type V = Seq<bool>;

    closed spec fn view(&self) -> Seq<bool> {
        Seq::new(self.length as nat, |i: int| self.bit_at(i))
    }
}

/// A well-formed mask's logical length fits strictly inside its capacity.
proof fn lemma_capacity<T: BitStorage>(m: BitMask<T>)
    requires
        m.wf(),
    ensures
        m@.len() == m.length,
        m.length < m.capacity(),
        m.capacity() == m.mask@.len() * T::wsize(),
{
    let w = T::wsize() as int;
    T::lemma_wsize();
    vstd::arithmetic::div_mod::lemma_fundamental_div_mod(m.length as int, w);
    assert((m.length as int / w + 1) * w == (m.length as int / w) * w + w) by (nonlinear_arith);
    assert(m.length as int / w * w + w > m.length);
}

/// Bit `j` of word `k` is the logical bit `k * W + j`, which reads zero when
/// it lies in the tail padding.
proof fn lemma_word_bit<T: BitStorage>(m: BitMask<T>, k: int, j: int)
    requires
        m.wf(),
        0 <= k < m.mask@.len(),
        0 <= j < T::wsize(),
    ensures
        m.mask@[k].bits()[j] == crate::model::ext_bit(m@, k * (T::wsize() as int) + j),
        0 <= k * (T::wsize() as int) + j < m.capacity(),
{
    let w = T::wsize() as int;
    let i = k * w + j;
    T::lemma_wsize();
    crate::model::lemma_index_split(k, j, w);
    assert((k + 1) * w == k * w + w) by (nonlinear_arith);
    crate::model::lemma_mul_le_mono(k + 1, m.mask@.len() as int, w);
    assert(i < m.capacity());
    assert(k * w >= 0) by (nonlinear_arith)
        requires
            k >= 0,
            w > 0,
    ;
    assert(m.bit_at(i) == m.mask@[k].bits()[j]);
    if i < m.length {
        assert(m@[i] == m.bit_at(i));
    } else {
        assert(!m.bit_at(i));
    }
}

/// A logical position below the length lands on a valid word and offset.
proof fn lemma_view_bit<T: BitStorage>(m: BitMask<T>, i: int)
    requires
        m.wf(),
        0 <= i < m.length,
    ensures
        0 <= i / (T::wsize() as int) < m.mask@.len(),
        0 <= i % (T::wsize() as int) < T::wsize(),
        m@[i] == m.mask@[i / (T::wsize() as int)].bits()[i % (T::wsize() as int)],
{
    let w = T::wsize() as int;
    T::lemma_wsize();
    lemma_capacity(m);
    crate::model::lemma_div_bound(i, w, m.mask@.len() as int);
}

impl<T: BitStorage> BitMask<T> {
    /// A mask of `size` bits, all clear.
    pub fn zeros(size: usize) -> (r: BitMask<T>)
        ensures
            r.wf(),
            r@.len() == size,
            forall|i: int| 0 <= i < size ==> !(#[trigger] r@[i]),
    {
        proof {
            T::lemma_wsize();
            vstd::arithmetic::div_mod::lemma_div_is_ordered_by_denominator(
                size as int,
                8,
                T::wsize() as int,
            );
            vstd::arithmetic::div_mod::lemma_div_is_ordered(size as int, usize::MAX as int, 8);
        }
        let w = T::size();
        let n = size / w + 1;
        let mut mask: Vec<T> = Vec::new();
        while mask.len() < n
            invariant
                mask@.len() <= n,
                forall|k: int|
                    0 <= k < mask@.len() ==> (#[trigger] mask@[k].bits()).len() == T::wsize(),
                forall|k: int, j: int|
                    0 <= k < mask@.len() && 0 <= j < T::wsize() ==> !(#[trigger] mask@[k].bits()[j]),
            decreases n - mask.len(),
        {
            let z = T::zero();
            proof {
                z.lemma_bits_len();
            }
            mask.push(z);
        }
        let r = BitMask { mask, length: size };
        proof {
            let w = T::wsize() as int;
            assert forall|i: int| r.length <= i < r.capacity() implies !(#[trigger] r.bit_at(i)) by {
                crate::model::lemma_div_bound(i, w, r.mask@.len() as int);
            }
            assert(r.wf());
            assert forall|i: int| 0 <= i < size implies !(#[trigger] r@[i]) by {
                lemma_view_bit(r, i);
            }
        }
        r
    }

    /// The mask's logical length in bits.
    pub fn length(&self) -> (r: usize)
        ensures
            r == self@.len(),
    {
        self.length
    }

    /// The bit at `index`, or `IndexOutOfBounds` when `index` is not below the
    /// length.
    pub fn get(&self, index: usize) -> (r: Result<bool, BitMaskError>)
        requires
            self.wf(),
        ensures
            index < self@.len() ==> r == Ok::<bool, BitMaskError>(self@[index as int]),
            index >= self@.len() ==> r == Err::<bool, BitMaskError>(BitMaskError::IndexOutOfBounds),
    {
        if index >= self.length {
            return Err(BitMaskError::IndexOutOfBounds);
        }
        proof {
            T::lemma_wsize();
            lemma_view_bit(*self, index as int);
        }
        let w = T::size();
        let i = index / w;
        let offset = index % w;
        let word = self.mask[i];
        Ok(word.bit(offset))
    }

    /// Set or clear the bit at `index`; `IndexOutOfBounds` when `index` is not
    /// below the length, in which case the mask is unchanged.
    pub fn set(&mut self, index: usize, value: bool) -> (r: Result<(), BitMaskError>)
        requires
            old(self).wf(),
        ensures
            final(self).wf(),
            index < old(self)@.len() ==> r == Ok::<(), BitMaskError>(()) && final(self)@ == old(
                self,
            )@.update(index as int, value),
            index >= old(self)@.len() ==> r == Err::<(), BitMaskError>(
                BitMaskError::IndexOutOfBounds,
            ) && final(self)@ == old(self)@,
    {
        if index >= self.length {
            return Err(BitMaskError::IndexOutOfBounds);
        }
        proof {
            T::lemma_wsize();
            lemma_view_bit(*self, index as int);
        }
        let w = T::size();
        let i = index / w;
        let offset = index % w;
        let word = self.mask[i];
        let pick = T::one().shl(offset);
        let updated = if value {
            word.or(&pick)
        } else {
            word.and(&pick.not())
        };
        proof {
            word.lemma_bits_len();
            updated.lemma_bits_len();
        }
        let ghost prev = *self;
        self.mask[i] = updated;
        proof {
            let w = T::wsize() as int;
            let ii = index as int;
            assert(forall|j: int|
                0 <= j < T::wsize() ==> ((#[trigger] updated.bits()[j]) <==> (if j == ii % w {
                    value
                } else {
                    word.bits()[j]
                })));
            assert forall|p: int|
                0 <= p < self.capacity() implies (#[trigger] self.bit_at(p)) == (if p == ii {
                value
            } else {
                prev.bit_at(p)
            }) by {
                crate::model::lemma_div_bound(p, w, self.mask@.len() as int);
                vstd::arithmetic::div_mod::lemma_fundamental_div_mod(p, w);
                vstd::arithmetic::div_mod::lemma_fundamental_div_mod(ii, w);
                if p / w == ii / w {
                    assert(p == ii <==> p % w == ii % w);
                }
            }
            assert forall|p: int|
                self.length <= p < self.capacity() implies !(#[trigger] self.bit_at(p)) by {
                assert(!prev.bit_at(p));
            }
            assert(self.wf());
            lemma_capacity(prev);
            assert forall|p: int| 0 <= p < self.length implies #[trigger] self@[p] == old(
                self,
            )@.update(ii, value)[p] by {
                assert(self@[p] == self.bit_at(p));
                assert(prev@[p] == prev.bit_at(p));
            }
            assert(final(self)@ =~= old(self)@.update(index as int, value));
        }
        Ok(())
    }

    /// Fill every bit of the mask with `value`, then correct the tail so that
    /// padding bits beyond the length stay clear.
    pub fn set_all(&mut self, value: bool)
        requires
            old(self).wf(),
        ensures
            final(self).wf(),
            final(self)@.len() == old(self)@.len(),
            forall|i: int| 0 <= i < final(self)@.len() ==> #[trigger] final(self)@[i] == value,
    {
        proof {
            T::lemma_wsize();
            lemma_capacity(*self);
        }
        let w = T::size();
        let fill = if value {
            T::zero().not()
        } else {
            T::zero()
        };
        proof {
            fill.lemma_bits_len();
            assert(forall|j: int| 0 <= j < T::wsize() ==> #[trigger] fill.bits()[j] == value);
        }
        let n = self.mask.len();
        let mut k: usize = 0;
        while k < n
            invariant
                self.length == old(self).length,
                self.mask@.len() == n,
                k <= n,
                forall|j: int| 0 <= j < T::wsize() ==> #[trigger] fill.bits()[j] == value,
                fill.bits().len() == T::wsize(),
                forall|kk: int| 0 <= kk < k ==> #[trigger] self.mask@[kk] == fill,
                forall|kk: int| k <= kk < n ==> #[trigger] self.mask@[kk] == old(self).mask@[kk],
            decreases n - k,
        {
            self.mask[k] = fill;
            k = k + 1;
        }
        let last = self.length / w;
        let offset = self.length % w;
        let tm = T::low_ones(offset);
        let word = self.mask[last];
        let cut = word.and(&tm);
        proof {
            cut.lemma_bits_len();
        }
        self.mask[last] = cut;
        proof {
            let ww = T::wsize() as int;
            let len = self.length as int;
            vstd::arithmetic::div_mod::lemma_fundamental_div_mod(len, ww);
            assert forall|p: int| 0 <= p < self.capacity() implies #[trigger] self.bit_at(p) == (
            value && p < len) by {
                crate::model::lemma_div_bound(p, ww, self.mask@.len() as int);
                vstd::arithmetic::div_mod::lemma_fundamental_div_mod(p, ww);
                let kk = p / ww;
                let j = p % ww;
                if kk == last {
                    assert(p < len <==> j < offset);
                } else {
                    assert(kk < last);
                    assert((kk + 1) * ww == kk * ww + ww) by (nonlinear_arith);
                    crate::model::lemma_mul_le_mono(kk + 1, last as int, ww);
                    assert(p == ww * kk + j);
                    assert(ww * kk == kk * ww) by (nonlinear_arith);
                    assert(ww * (last as int) == (last as int) * ww) by (nonlinear_arith);
                    assert(p < (kk + 1) * ww);
                    assert((kk + 1) * ww <= (last as int) * ww);
                    assert(ww * (last as int) <= len);
                    assert(p < len);
                }
            }
            assert(self.wf());
            assert forall|i: int| 0 <= i < final(self)@.len() implies #[trigger] final(self)@[i]
                == value by {
                assert(self@[i] == self.bit_at(i));
            }
        }
    }

    /// A mask of `size` bits, all set.
    pub fn ones(size: usize) -> (r: BitMask<T>)
        ensures
            r.wf(),
            r@.len() == size,
            forall|i: int| 0 <= i < size ==> (#[trigger] r@[i]),
    {
        let mut m = Self::zeros(size);
        m.set_all(true);
        m
    }

    /// The number of set bits in the mask, summed word by word.
    pub fn count_ones(&self) -> (r: usize)
        requires
            self.wf(),
        ensures
            r == crate::model::count_trues(self@),
    {
        proof {
            T::lemma_wsize();
            lemma_capacity(*self);
        }
        let ghost full = Seq::new(self.capacity() as nat, |i: int| self.bit_at(i));
        proof {
            assert(full.take(self.length as int) =~= self@);
            crate::model::lemma_count_trues_zero_tail(full, self.length as int);
            crate::model::lemma_count_trues_le_len(self@);
        }
        let w = T::size();
        let n = self.mask.len();
        let mut acc: usize = 0;
        let mut k: usize = 0;
        while k < n
            invariant
                self.wf(),
                w == T::wsize(),
                n == self.mask@.len(),
                k <= n,
                full == Seq::new(self.capacity() as nat, |i: int| self.bit_at(i)),
                full.len() == self.capacity(),
                crate::model::count_trues(full) == crate::model::count_trues(self@),
                crate::model::count_trues(self@) <= self@.len(),
                self@.len() == self.length,
                acc == crate::model::count_trues(full.take(k as int * T::wsize() as int)),
            decreases n - k,
        {
            let word = self.mask[k];
            let wc = crate::bit_storage::word_count_ones(&word);
            proof {
                T::lemma_wsize();
                let ww = T::wsize() as int;
                let lo = k as int * ww;
                let hi = lo + ww;
                assert((k as int + 1) * ww == lo + ww) by (nonlinear_arith)
                    requires
                        lo == k as int * ww,
                ;
                crate::model::lemma_mul_le_mono(k as int + 1, n as int, ww);
                assert(0 <= lo) by (nonlinear_arith)
                    requires
                        k >= 0,
                        ww > 0,
                        lo == k as int * ww,
                ;
                word.lemma_bits_len();
                assert forall|j: int|
                    0 <= j < ww implies full.subrange(lo, hi)[j] == word.bits()[j] by {
                    crate::model::lemma_index_split(k as int, j, ww);
                }
                assert(full.subrange(lo, hi) =~= word.bits());
                assert(full.take(hi) =~= full.take(lo) + full.subrange(lo, hi));
                crate::model::lemma_count_trues_append(full.take(lo), full.subrange(lo, hi));
                crate::model::lemma_count_trues_take_le(full, hi);
            }
            acc = acc + wc;
            k = k + 1;
        }
        proof {
            assert(full.take(n as int * T::wsize() as int) =~= full);
        }
        acc
    }

    /// The number of clear bits before the first set bit; the logical length
    /// when no bit is set.
    pub fn trailing_zeros(&self) -> (r: usize)
        requires
            self.wf(),
        ensures
            r <= self@.len(),
            forall|j: int| 0 <= j < r ==> !(#[trigger] self@[j]),
            r < self@.len() ==> self@[r as int],
    {
        proof {
            T::lemma_wsize();
            lemma_capacity(*self);
        }
        let w = T::size();
        let n = self.mask.len();
        let mut k: usize = 0;
        while k < n
            invariant
                self.wf(),
                w == T::wsize(),
                n == self.mask@.len(),
                k <= n,
                self@.len() == self.length,
                self.length < self.capacity(),
                forall|p: int| 0 <= p < k as int * T::wsize() as int ==> !(#[trigger] self.bit_at(p)),
            decreases n - k,
        {
            let word = self.mask[k];
            proof {
                word.lemma_bits_len();
                let ww = T::wsize() as int;
                assert((k as int + 1) * ww == k as int * ww + ww) by (nonlinear_arith);
                crate::model::lemma_mul_le_mono(k as int + 1, n as int, ww);
                vstd::arithmetic::div_mod::lemma_fundamental_div_mod(self.length as int, ww);
                assert(k as int * ww <= (n as int - 1) * ww) by (nonlinear_arith)
                    requires
                        k as int <= n as int - 1,
                        ww > 0,
                ;
                assert((n as int - 1) * ww == n as int * ww - ww) by (nonlinear_arith);
            }
            let t = word.trailing_zeros();
            if t < w {
                proof {
                    lemma_word_bit(*self, k as int, t as int);
                    assert(crate::model::ext_bit(self@, k as int * T::wsize() as int + t as int));
                }
                let r = k * w + t;
                proof {
                    let ww = T::wsize() as int;
                    assert forall|j: int| 0 <= j < r implies !(#[trigger] self@[j]) by {
                        if j >= k as int * ww {
                            vstd::arithmetic::div_mod::lemma_fundamental_div_mod(j, ww);
                            crate::model::lemma_index_split(k as int, j - k as int * ww, ww);
                            lemma_word_bit(*self, k as int, j - k as int * ww);
                        } else {
                            assert(!self.bit_at(j));
                        }
                    }
                }
                return r;
            }
            k = k + 1;
            proof {
                let ww = T::wsize() as int;
                assert forall|p: int| 0 <= p < k as int * ww implies !(#[trigger] self.bit_at(
                    p,
                )) by {
                    if p >= (k - 1) as int * ww {
                        vstd::arithmetic::div_mod::lemma_fundamental_div_mod(p, ww);
                        crate::model::lemma_index_split(k as int - 1, p - (k as int - 1) * ww, ww);
                        assert(self.mask@[k as int - 1].bits()[p - (k as int - 1) * ww] == self.bit_at(p));
                    }
                }
            }
        }
        proof {
            assert forall|j: int| 0 <= j < self.length implies !(#[trigger] self@[j]) by {
                lemma_capacity(*self);
                assert(!self.bit_at(j));
            }
        }
        self.length
    }

    /// A verified copy: same length, same words.
    fn duplicate(&self) -> (r: Self)
        requires
            self.wf(),
        ensures
            r.wf(),
            r@ == self@,
            r.length == self.length,
            r.mask@ == self.mask@,
    {
        let n = self.mask.len();
        let mut mask: Vec<T> = Vec::new();
        let mut k: usize = 0;
        while k < n
            invariant
                k <= n,
                n == self.mask@.len(),
                mask@.len() == k,
                forall|kk: int| 0 <= kk < k ==> #[trigger] mask@[kk] == self.mask@[kk],
            decreases n - k,
        {
            mask.push(self.mask[k]);
            k = k + 1;
        }
        let r = BitMask { mask, length: self.length };
        proof {
            assert(r.mask@ =~= self.mask@);
            assert forall|kk: int|
                0 <= kk < r.mask@.len() implies (#[trigger] r.mask@[kk].bits()).len()
                == T::wsize() by {
                assert(self.mask@[kk].bits().len() == T::wsize());
            }
            assert forall|i: int| r.length <= i < r.capacity() implies !(#[trigger] r.bit_at(
                i,
            )) by {
                assert(r.bit_at(i) == self.bit_at(i));
                assert(!self.bit_at(i));
            }
            assert(r.wf());
            assert forall|i: int| 0 <= i < r.length implies #[trigger] r@[i] == self@[i] by {
                assert(r.bit_at(i) == self.bit_at(i));
            }
            assert(r@ =~= self@);
        }
        r
    }
}

/// The three word-by-word combining operators.
#[derive(Clone, Copy, Debug)]
enum BitOp {
    Or,
    And,
    Xor,
}

/// The boolean function a combining operator applies at each bit position.
spec fn apply_op(op: BitOp, a: bool, b: bool) -> bool {
    match op {
        BitOp::Or => a || b,
        BitOp::And => a && b,
        BitOp::Xor => a != b,
    }
}

/// Apply a combining operator to one pair of words.
fn apply_word<T: BitStorage>(op: BitOp, a: &T, b: &T) -> (r: T)
    ensures
        forall|j: int|
            0 <= j < T::wsize() ==> ((#[trigger] r.bits()[j]) == apply_op(
                op,
                a.bits()[j],
                b.bits()[j],
            )),
{
    match op {
        BitOp::Or => a.or(b),
        BitOp::And => a.and(b),
        BitOp::Xor => a.xor(b),
    }
}

impl<T: BitStorage> BitMask<T> {
    /// Combine two masks word by word into a fresh mask of `new_len` bits; a
    /// missing word on either side reads as zero.  The caller's length choice
    /// must keep every combined bit at or beyond `new_len` clear, which the
    /// length preconditions guarantee.
    fn combine(a: &BitMask<T>, b: &BitMask<T>, op: BitOp, new_len: usize) -> (r: BitMask<T>)
        requires
            a.wf(),
            b.wf(),
            a@.len() <= new_len,
            op is And || b@.len() <= new_len,
        ensures
            r.wf(),
            r@.len() == new_len,
            forall|i: int|
                0 <= i < new_len ==> ((#[trigger] r@[i]) == apply_op(
                    op,
                    crate::model::ext_bit(a@, i),
                    crate::model::ext_bit(b@, i),
                )),
    {
        proof {
            T::lemma_wsize();
            lemma_capacity(*a);
            lemma_capacity(*b);
            vstd::arithmetic::div_mod::lemma_div_is_ordered_by_denominator(
                new_len as int,
                8,
                T::wsize() as int,
            );
            vstd::arithmetic::div_mod::lemma_div_is_ordered(new_len as int, usize::MAX as int, 8);
        }
        let w = T::size();
        let n = new_len / w + 1;
        let z = T::zero();
        proof {
            z.lemma_bits_len();
        }
        let mut mask: Vec<T> = Vec::new();
        let mut k: usize = 0;
        while k < n
            invariant
                a.wf(),
                b.wf(),
                w == T::wsize(),
                mask@.len() == k,
                k <= n,
                forall|j: int| 0 <= j < T::wsize() ==> !(#[trigger] z.bits()[j]),
                z.bits().len() == T::wsize(),
                forall|kk: int|
                    0 <= kk < k ==> (#[trigger] mask@[kk].bits()).len() == T::wsize(),
                forall|kk: int, j: int|
                    0 <= kk < k && 0 <= j < T::wsize() ==> ((#[trigger] mask@[kk].bits()[j])
                        == apply_op(
                        op,
                        crate::model::ext_bit(a@, kk * T::wsize() as int + j),
                        crate::model::ext_bit(b@, kk * T::wsize() as int + j),
                    )),
            decreases n - k,
        {
            let wa = if k < a.mask.len() {
                a.mask[k]
            } else {
                z
            };
            let wb = if k < b.mask.len() {
                b.mask[k]
            } else {
                z
            };
            let merged = apply_word(op, &wa, &wb);
            proof {
                let ww = T::wsize() as int;
                wa.lemma_bits_len();
                wb.lemma_bits_len();
                merged.lemma_bits_len();
                assert forall|j: int|
                    0 <= j < ww implies ((#[trigger] merged.bits()[j]) == apply_op(
                    op,
                    crate::model::ext_bit(a@, k as int * ww + j),
                    crate::model::ext_bit(b@, k as int * ww + j),
                )) by {
                    let p = k as int * ww + j;
                    assert(p >= 0 && p >= k as int * ww) by (nonlinear_arith)
                        requires
                            k >= 0,
                            ww > 0,
                            0 <= j,
                            p == k as int * ww + j,
                    ;
                    lemma_capacity(*a);
                    lemma_capacity(*b);
                    if k < a.mask@.len() {
                        lemma_word_bit(*a, k as int, j);
                    } else {
                        crate::model::lemma_mul_le_mono(a.mask@.len() as int, k as int, ww);
                        assert(p >= a.capacity());
                        assert(!crate::model::ext_bit(a@, p));
                    }
                    if k < b.mask@.len() {
                        lemma_word_bit(*b, k as int, j);
                    } else {
                        crate::model::lemma_mul_le_mono(b.mask@.len() as int, k as int, ww);
                        assert(p >= b.capacity());
                        assert(!crate::model::ext_bit(b@, p));
                    }
                }
            }
            mask.push(merged);
            k = k + 1;
        }
        let r = BitMask { mask, length: new_len };
        proof {
            T::lemma_wsize();
            lemma_capacity(*a);
            lemma_capacity(*b);
            let ww = T::wsize() as int;
            assert forall|p: int| 0 <= p < r.capacity() implies #[trigger] r.bit_at(p) == apply_op(
                op,
                crate::model::ext_bit(a@, p),
                crate::model::ext_bit(b@, p),
            ) by {
                crate::model::lemma_div_bound(p, ww, r.mask@.len() as int);
                vstd::arithmetic::div_mod::lemma_fundamental_div_mod(p, ww);
                let kk = p / ww;
                let j = p % ww;
                assert(mask@[kk].bits()[j] == apply_op(
                    op,
                    crate::model::ext_bit(a@, kk * ww + j),
                    crate::model::ext_bit(b@, kk * ww + j),
                ));
            }
            assert forall|p: int| r.length <= p < r.capacity() implies !(#[trigger] r.bit_at(
                p,
            )) by {
                assert(!crate::model::ext_bit(a@, p));
                assert(op is And || !crate::model::ext_bit(b@, p));
            }
            assert(r.wf());
            lemma_capacity(r);
            assert forall|i: int|
                0 <= i < new_len implies ((#[trigger] r@[i]) == apply_op(
                op,
                crate::model::ext_bit(a@, i),
                crate::model::ext_bit(b@, i),
            )) by {
                assert(r@[i] == r.bit_at(i));
            }
        }
        r
    }

    /// Pointwise OR; the result's length is the longer operand's, and a
    /// missing word on either side reads as zero.
    pub fn or(&self, rhs: &BitMask<T>) -> (r: BitMask<T>)
        requires
            self.wf(),
            rhs.wf(),
        ensures
            r.wf(),
            r@ == crate::model::or_bits(self@, rhs@),
    {
        let new_len = if self.length >= rhs.length {
            self.length
        } else {
            rhs.length
        };
        proof {
            lemma_capacity(*self);
            lemma_capacity(*rhs);
        }
        let r = Self::combine(self, rhs, BitOp::Or, new_len);
        proof {
            assert(r@ =~= crate::model::or_bits(self@, rhs@));
        }
        r
    }

    /// Pointwise OR in place: the mask grows (zero-extending) to the longer
    /// operand's length.
    pub fn or_assign(&mut self, rhs: &BitMask<T>)
        requires
            old(self).wf(),
            rhs.wf(),
        ensures
            final(self).wf(),
            final(self)@ == crate::model::or_bits(old(self)@, rhs@),
    {
        let new_len = if self.length >= rhs.length {
            self.length
        } else {
            rhs.length
        };
        proof {
            lemma_capacity(*self);
            lemma_capacity(*rhs);
        }
        let r = Self::combine(self, rhs, BitOp::Or, new_len);
        *self = r;
        proof {
            assert(final(self)@ =~= crate::model::or_bits(old(self)@, rhs@));
        }
    }

    /// Pointwise XOR; the result's length is the longer operand's, and a
    /// missing word on either side reads as zero.
    pub fn xor(&self, rhs: &BitMask<T>) -> (r: BitMask<T>)
        requires
            self.wf(),
            rhs.wf(),
        ensures
            r.wf(),
            r@ == crate::model::xor_bits(self@, rhs@),
    {
        let new_len = if self.length >= rhs.length {
            self.length
        } else {
            rhs.length
        };
        proof {
            lemma_capacity(*self);
            lemma_capacity(*rhs);
        }
        let r = Self::combine(self, rhs, BitOp::Xor, new_len);
        proof {
            assert(r@ =~= crate::model::xor_bits(self@, rhs@));
        }
        r
    }

    /// Pointwise XOR in place: the mask grows (zero-extending) to the longer
    /// operand's length.
    pub fn xor_assign(&mut self, rhs: &BitMask<T>)
        requires
            old(self).wf(),
            rhs.wf(),
        ensures
            final(self).wf(),
            final(self)@ == crate::model::xor_bits(old(self)@, rhs@),
    {
        let new_len = if self.length >= rhs.length {
            self.length
        } else {
            rhs.length
        };
        proof {
            lemma_capacity(*self);
            lemma_capacity(*rhs);
        }
        let r = Self::combine(self, rhs, BitOp::Xor, new_len);
        *self = r;
        proof {
            assert(final(self)@ =~= crate::model::xor_bits(old(self)@, rhs@));
        }
    }

    /// Pointwise AND; the result's length is the longer operand's, with every
    /// bit beyond either operand's own length reading as zero.
    pub fn and(&self, rhs: &BitMask<T>) -> (r: BitMask<T>)
        requires
            self.wf(),
            rhs.wf(),
        ensures
            r.wf(),
            r@ == crate::model::and_bits(self@, rhs@),
    {
        let new_len = if self.length >= rhs.length {
            self.length
        } else {
            rhs.length
        };
        proof {
            lemma_capacity(*self);
            lemma_capacity(*rhs);
        }
        let r = Self::combine(self, rhs, BitOp::And, new_len);
        proof {
            assert(r@ =~= crate::model::and_bits(self@, rhs@));
        }
        r
    }

    /// Pointwise AND in place: the mask keeps its own length and storage, so
    /// the longer operand's high bits are simply dropped.
    pub fn and_assign(&mut self, rhs: &BitMask<T>)
        requires
            old(self).wf(),
            rhs.wf(),
        ensures
            final(self).wf(),
            final(self)@ == crate::model::and_keep_bits(old(self)@, rhs@),
    {
        proof {
            lemma_capacity(*self);
            lemma_capacity(*rhs);
        }
        let new_len = self.length;
        let r = Self::combine(self, rhs, BitOp::And, new_len);
        *self = r;
        proof {
            assert(final(self)@ =~= crate::model::and_keep_bits(old(self)@, rhs@));
        }
    }

    /// Pointwise complement over the mask's own length: every word is
    /// inverted, then the tail mask clears the inverted padding bits.
    pub fn not(&self) -> (r: BitMask<T>)
        requires
            self.wf(),
        ensures
            r.wf(),
            r@ == crate::model::not_bits(self@),
    {
        proof {
            T::lemma_wsize();
            lemma_capacity(*self);
        }
        let w = T::size();
        let mut res = self.duplicate();
        let n = res.mask.len();
        let mut k: usize = 0;
        while k < n
            invariant
                self.wf(),
                w == T::wsize(),
                res.length == self.length,
                res.mask@.len() == n,
                n == self.mask@.len(),
                k <= n,
                forall|kk: int|
                    0 <= kk < k ==> (#[trigger] res.mask@[kk].bits()).len() == T::wsize(),
                forall|kk: int, j: int|
                    0 <= kk < k && 0 <= j < T::wsize() ==> ((#[trigger] res.mask@[kk].bits()[j])
                        <==> !self.mask@[kk].bits()[j]),
                forall|kk: int| k <= kk < n ==> #[trigger] res.mask@[kk] == self.mask@[kk],
            decreases n - k,
        {
            let word = res.mask[k];
            let inv = word.not();
            proof {
                word.lemma_bits_len();
                inv.lemma_bits_len();
            }
            res.mask[k] = inv;
            k = k + 1;
        }
        let last = res.length / w;
        let offset = res.length % w;
        let tm = T::low_ones(offset);
        let word = res.mask[last];
        let cut = word.and(&tm);
        proof {
            cut.lemma_bits_len();
        }
        res.mask[last] = cut;
        proof {
            let ww = T::wsize() as int;
            let len = res.length as int;
            vstd::arithmetic::div_mod::lemma_fundamental_div_mod(len, ww);
            assert forall|p: int| 0 <= p < res.capacity() implies #[trigger] res.bit_at(p) == (p
                < len && !self.bit_at(p)) by {
                crate::model::lemma_div_bound(p, ww, res.mask@.len() as int);
                vstd::arithmetic::div_mod::lemma_fundamental_div_mod(p, ww);
                let kk = p / ww;
                let j = p % ww;
                if kk == last {
                    assert(p < len <==> j < offset);
                } else {
                    assert(kk < last);
                    assert((kk + 1) * ww == kk * ww + ww) by (nonlinear_arith);
                    crate::model::lemma_mul_le_mono(kk + 1, last as int, ww);
                    assert(p == ww * kk + j);
                    assert(ww * kk == kk * ww) by (nonlinear_arith);
                    assert(ww * (last as int) == (last as int) * ww) by (nonlinear_arith);
                    assert(p < (kk + 1) * ww);
                    assert((kk + 1) * ww <= (last as int) * ww);
                    assert(ww * (last as int) <= len);
                    assert(p < len);
                }
            }
            assert(res.wf());
            assert forall|i: int| 0 <= i < len implies #[trigger] res@[i] == !self@[i] by {
                assert(res.bit_at(i) == res@[i]);
                assert(self.bit_at(i) == self@[i]);
            }
            assert(res@ =~= crate::model::not_bits(self@));
        }
        res
    }

    /// Shift every bit towards index zero by `n`, in place: bit `i` takes the
    /// value of bit `i + n`, and vacated high positions read zero.
    pub fn shift_right_assign(&mut self, n: usize)
        requires
            old(self).wf(),
        ensures
            final(self).wf(),
            final(self)@ == crate::model::shr_bits(old(self)@, n as nat),
    {
        proof {
            T::lemma_wsize();
            lemma_capacity(*self);
        }
        let w = T::size();
        let nw = self.mask.len();
        let q = n / w;
        let off = n % w;
        let z = T::zero();
        proof {
            z.lemma_bits_len();
            vstd::arithmetic::div_mod::lemma_fundamental_div_mod(n as int, T::wsize() as int);
            assert((T::wsize() as int) * (n as int / (T::wsize() as int)) == (n as int / (
            T::wsize() as int)) * (T::wsize() as int)) by (nonlinear_arith);
        }
        let ghost orig = *self;
        let mut k: usize = 0;
        while k < nw
            invariant
                orig.wf(),
                w == T::wsize(),
                8 <= T::wsize() <= 128,
                z.bits().len() == T::wsize(),
                forall|j: int| 0 <= j < T::wsize() ==> !(#[trigger] z.bits()[j]),
                self.mask@.len() == nw,
                nw == orig.mask@.len(),
                self.length == orig.length,
                q == n as int / (T::wsize() as int),
                off == n as int % (T::wsize() as int),
                n as int == q as int * (T::wsize() as int) + off,
                k <= nw,
                forall|kk: int| k <= kk < nw ==> #[trigger] self.mask@[kk] == orig.mask@[kk],
                forall|kk: int|
                    0 <= kk < k ==> (#[trigger] self.mask@[kk].bits()).len() == T::wsize(),
                forall|kk: int, j: int|
                    0 <= kk < k && 0 <= j < T::wsize() ==> ((#[trigger] self.mask@[kk].bits()[j])
                        == crate::model::ext_bit(orig@, kk * (T::wsize() as int) + j + n)),
            decreases nw - k,
        {
            let wa = if q < nw - k {
                self.mask[k + q]
            } else {
                z
            };
            let has_b = q < nw - k - 1;
            let wb = if has_b {
                self.mask[k + q + 1]
            } else {
                z
            };
            let newword = if off == 0 {
                wa
            } else {
                wa.shr(off).or(&wb.shl(w - off))
            };
            proof {
                let ww = T::wsize() as int;
                lemma_capacity(orig);
                wa.lemma_bits_len();
                wb.lemma_bits_len();
                newword.lemma_bits_len();
                assert((k + q) as int * ww == k as int * ww + q as int * ww) by (nonlinear_arith);
                assert((k + q + 1) as int * ww == (k + q) as int * ww + ww) by (nonlinear_arith);
                assert forall|j: int|
                    0 <= j < ww implies (#[trigger] newword.bits()[j]) == crate::model::ext_bit(
                    orig@,
                    k as int * ww + j + n,
                ) by {
                    let src = k as int * ww + j + n as int;
                    if j + off < ww {
                        assert(src == (k + q) as int * ww + (j + off));
                        if k + q < nw {
                            lemma_word_bit(orig, (k + q) as int, j + off);
                        } else {
                            crate::model::lemma_mul_le_mono(nw as int, (k + q) as int, ww);
                            assert(src >= orig.capacity());
                            assert(!crate::model::ext_bit(orig@, src));
                        }
                    } else {
                        assert(src == (k + q + 1) as int * ww + (j + off - ww));
                        if k + q + 1 < nw {
                            lemma_word_bit(orig, (k + q + 1) as int, j + off - ww);
                        } else {
                            crate::model::lemma_mul_le_mono(nw as int, (k + q + 1) as int, ww);
                            assert(src >= orig.capacity());
                            assert(!crate::model::ext_bit(orig@, src));
                        }
                    }
                }
            }
            self.mask[k] = newword;
            k = k + 1;
        }
        proof {
            let ww = T::wsize() as int;
            lemma_capacity(orig);
            assert forall|p: int|
                0 <= p < self.capacity() implies #[trigger] self.bit_at(p)
                == crate::model::ext_bit(orig@, p + n) by {
                crate::model::lemma_div_bound(p, ww, nw as int);
                vstd::arithmetic::div_mod::lemma_fundamental_div_mod(p, ww);
                let kk = p / ww;
                let j = p % ww;
                assert(ww * kk == kk * ww) by (nonlinear_arith);
                assert(self.mask@[kk].bits()[j] == crate::model::ext_bit(orig@, kk * ww + j + n));
            }
            assert forall|p: int|
                self.length <= p < self.capacity() implies !(#[trigger] self.bit_at(p)) by {
                assert(!crate::model::ext_bit(orig@, p + n));
            }
            assert(self.wf());
            assert forall|i: int|
                0 <= i < self.length implies #[trigger] self@[i] == crate::model::ext_bit(
                orig@,
                i + n,
            ) by {
                assert(self@[i] == self.bit_at(i));
            }
            assert(final(self)@ =~= crate::model::shr_bits(old(self)@, n as nat));
        }
    }

    /// A fresh mask equal to this one shifted towards index zero by `n`.
    pub fn shift_right(&self, n: usize) -> (r: BitMask<T>)
        requires
            self.wf(),
        ensures
            r.wf(),
            r@ == crate::model::shr_bits(self@, n as nat),
    {
        let mut r = self.duplicate();
        r.shift_right_assign(n);
        r
    }

    /// Shift every bit away from index zero by `n`, in place: bit `i` takes
    /// the value of bit `i - n`, vacated low positions read zero, and bits
    /// pushed past the length are lost.  Words are rebuilt from the highest
    /// index downward so a source word is never read after being overwritten,
    /// and the tail mask then clears what was pushed into the padding.
    pub fn shift_left_assign(&mut self, n: usize)
        requires
            old(self).wf(),
        ensures
            final(self).wf(),
            final(self)@ == crate::model::shl_bits(old(self)@, n as nat),
    {
        proof {
            T::lemma_wsize();
            lemma_capacity(*self);
        }
        let w = T::size();
        let nw = self.mask.len();
        let q = n / w;
        let off = n % w;
        let z = T::zero();
        proof {
            z.lemma_bits_len();
            vstd::arithmetic::div_mod::lemma_fundamental_div_mod(n as int, T::wsize() as int);
            assert((T::wsize() as int) * (n as int / (T::wsize() as int)) == (n as int / (
            T::wsize() as int)) * (T::wsize() as int)) by (nonlinear_arith);
        }
        let ghost orig = *self;
        let mut k: usize = nw;
        while k > 0
            invariant
                orig.wf(),
                w == T::wsize(),
                8 <= T::wsize() <= 128,
                z.bits().len() == T::wsize(),
                forall|j: int| 0 <= j < T::wsize() ==> !(#[trigger] z.bits()[j]),
                self.mask@.len() == nw,
                nw == orig.mask@.len(),
                self.length == orig.length,
                q == n as int / (T::wsize() as int),
                off == n as int % (T::wsize() as int),
                n as int == q as int * (T::wsize() as int) + off,
                k <= nw,
                forall|kk: int| 0 <= kk < k ==> #[trigger] self.mask@[kk] == orig.mask@[kk],
                forall|kk: int|
                    k <= kk < nw ==> (#[trigger] self.mask@[kk].bits()).len() == T::wsize(),
                forall|kk: int, j: int|
                    k <= kk < nw && 0 <= j < T::wsize() ==> ((#[trigger] self.mask@[kk].bits()[j])
                        == (kk * (T::wsize() as int) + j >= n && crate::model::ext_bit(
                        orig@,
                        kk * (T::wsize() as int) + j - n,
                    ))),
            decreases k,
        {
            let d = k - 1;
            let wa = if d >= q {
                self.mask[d - q]
            } else {
                z
            };
            let wb = if d > q {
                self.mask[d - q - 1]
            } else {
                z
            };
            let newword = if off == 0 {
                wa
            } else {
                wa.shl(off).or(&wb.shr(w - off))
            };
            proof {
                let ww = T::wsize() as int;
                lemma_capacity(orig);
                wa.lemma_bits_len();
                wb.lemma_bits_len();
                newword.lemma_bits_len();
                if d >= q {
                    assert(d as int * ww == (d - q) as int * ww + q as int * ww)
                        by (nonlinear_arith)
                        requires
                            d >= q,
                    ;
                }
                if d > q {
                    assert((d - q) as int * ww == (d - q - 1) as int * ww + ww)
                        by (nonlinear_arith)
                        requires
                            d > q,
                    ;
                }
                assert forall|j: int|
                    0 <= j < ww implies (#[trigger] newword.bits()[j]) == (d as int * ww + j
                    >= n && crate::model::ext_bit(orig@, d as int * ww + j - n)) by {
                    let pos = d as int * ww + j - n as int;
                    if j >= off {
                        if d >= q {
                            assert(pos == (d - q) as int * ww + (j - off));
                            lemma_word_bit(orig, (d - q) as int, j - off);
                        } else {
                            assert(q as int * ww <= n);
                            assert(d as int * ww + ww <= q as int * ww) by (nonlinear_arith)
                                requires
                                    d as int + 1 <= q as int,
                                    ww > 0,
                            ;
                            assert(d as int * ww + j < n);
                        }
                    } else {
                        if d > q {
                            assert(pos == (d - q - 1) as int * ww + (j + ww - off));
                            lemma_word_bit(orig, (d - q - 1) as int, j + ww - off);
                        } else {
                            assert(d as int * ww <= q as int * ww) by (nonlinear_arith)
                                requires
                                    d as int <= q as int,
                                    ww > 0,
                            ;
                            assert(d as int * ww + j < n);
                        }
                    }
                }
            }
            self.mask[d] = newword;
            k = d;
        }
        let last = self.length / w;
        let offlen = self.length % w;
        let tm = T::low_ones(offlen);
        let word = self.mask[last];
        let cut = word.and(&tm);
        proof {
            cut.lemma_bits_len();
            word.lemma_bits_len();
        }
        self.mask[last] = cut;
        proof {
            let ww = T::wsize() as int;
            let len = self.length as int;
            lemma_capacity(orig);
            vstd::arithmetic::div_mod::lemma_fundamental_div_mod(len, ww);
            assert forall|p: int|
                0 <= p < self.capacity() implies #[trigger] self.bit_at(p) == (p < len && p
                >= n && crate::model::ext_bit(orig@, p - n)) by {
                crate::model::lemma_div_bound(p, ww, nw as int);
                vstd::arithmetic::div_mod::lemma_fundamental_div_mod(p, ww);
                let kk = p / ww;
                let j = p % ww;
                assert(ww * kk == kk * ww) by (nonlinear_arith);
                if kk == last {
                    assert(p < len <==> j < offlen);
                    assert(word.bits()[j] == (kk * ww + j >= n && crate::model::ext_bit(
                        orig@,
                        kk * ww + j - n,
                    )));
                } else {
                    assert(kk < last);
                    assert((kk + 1) * ww == kk * ww + ww) by (nonlinear_arith);
                    crate::model::lemma_mul_le_mono(kk + 1, last as int, ww);
                    assert(ww * (last as int) == (last as int) * ww) by (nonlinear_arith);
                    assert(p < len);
                    assert(self.mask@[kk].bits()[j] == (kk * ww + j >= n
                        && crate::model::ext_bit(orig@, kk * ww + j - n)));
                }
            }
            assert(self.wf());
            assert forall|i: int|
                0 <= i < len implies #[trigger] self@[i] == (i >= n && crate::model::ext_bit(
                orig@,
                i - n,
            )) by {
                assert(self@[i] == self.bit_at(i));
            }
            assert forall|i: int|
                0 <= i < len implies #[trigger] self@[i] == crate::model::shl_bits(
                orig@,
                n as nat,
            )[i] by {
                if i >= n {
                    assert(crate::model::ext_bit(orig@, i - n) == orig@[i - n]);
                }
            }
            assert(final(self)@ =~= crate::model::shl_bits(old(self)@, n as nat));
        }
    }

    /// A fresh mask equal to this one shifted away from index zero by `n`.
    pub fn shift_left(&self, n: usize) -> (r: BitMask<T>)
        requires
            self.wf(),
        ensures
            r.wf(),
            r@ == crate::model::shl_bits(self@, n as nat),
    {
        let mut r = self.duplicate();
        r.shift_left_assign(n);
        r
    }

    /// Render the mask as text: one character per logical bit, index zero
    /// first, `'1'` for set and `'0'` for clear.
    pub fn render(&self) -> (r: String)
        requires
            self.wf(),
        ensures
            r@.len() == self@.len(),
            forall|i: int|
                0 <= i < self@.len() ==> (#[trigger] r@[i]) == (if self@[i] {
                    '1'
                } else {
                    '0'
                }),
    {
        let mut s = String::new();
        let mut i: usize = 0;
        while i < self.length
            invariant
                self.wf(),
                i <= self.length,
                self@.len() == self.length,
                s@.len() == i,
                forall|p: int|
                    0 <= p < i ==> (#[trigger] s@[p]) == (if self@[p] {
                        '1'
                    } else {
                        '0'
                    }),
            decreases self.length - i,
        {
            let b = match self.get(i) {
                Ok(b) => b,
                Err(_) => false,
            };
            s.push(if b {
                '1'
            } else {
                '0'
            });
            i = i + 1;
        }
        s
    }
}

/// Relies on String::push: appends the given character to the end of the
/// string.
pub assume_specification [ String::push ](s: &mut String, c: char)
    ensures
        final(s)@ == old(s)@.push(c),
;

impl<T: BitStorage> vstd::std_specs::cmp::PartialEqSpecImpl for BitMask<T> {
    open spec fn obeys_eq_spec() -> bool {
        true
    }

    open spec fn eq_spec(&self, other: &Self) -> bool {
        &&& self@.len() == other@.len()
        &&& self.capacity() == other.capacity()
        &&& (forall|i: int|
            0 <= i < self.capacity() ==> (#[trigger] self.bit_at(i)) == other.bit_at(i))
    }
}

impl<T: BitStorage> PartialEq for BitMask<T> {
    /// Masks are equal when their lengths agree and their word sequences
    /// agree bit for bit; identical logical bits under a different length are
    /// not equal.
    fn eq(&self, other: &Self) -> (r: bool) {
        proof {
            T::lemma_wsize();
        }
        if self.length != other.length {
            return false;
        }
        if self.mask.len() != other.mask.len() {
            proof {
                assert(self.capacity() != other.capacity()) by (nonlinear_arith)
                    requires
                        self.capacity() == self.mask@.len() * T::wsize() as int,
                        other.capacity() == other.mask@.len() * T::wsize() as int,
                        self.mask@.len() != other.mask@.len(),
                        T::wsize() > 0,
                ;
            }
            return false;
        }
        let n = self.mask.len();
        let mut k: usize = 0;
        while k < n
            invariant
                n == self.mask@.len(),
                n == other.mask@.len(),
                self.length == other.length,
                k <= n,
                forall|kk: int, j: int|
                    0 <= kk < k && 0 <= j < T::wsize() ==> ((#[trigger] self.mask@[kk].bits()[j])
                        == other.mask@[kk].bits()[j]),
            decreases n - k,
        {
            let a = self.mask[k];
            let b = other.mask[k];
            if !crate::bit_storage::word_eq(&a, &b) {
                proof {
                    T::lemma_wsize();
                    a.lemma_bits_len();
                    b.lemma_bits_len();
                    let w = T::wsize() as int;
                    assert(exists|j: int|
                        0 <= j < w && (#[trigger] a.bits()[j]) != b.bits()[j]) by {
                        if forall|j: int| 0 <= j < w ==> (#[trigger] a.bits()[j]) == b.bits()[j] {
                            assert(a.bits() =~= b.bits());
                        }
                    }
                    let j = choose|j: int| 0 <= j < w && (#[trigger] a.bits()[j]) != b.bits()[j];
                    crate::model::lemma_index_split(k as int, j, w);
                    crate::model::lemma_mul_le_mono(k as int + 1, n as int, w);
                    assert((k as int + 1) * w == k as int * w + w) by (nonlinear_arith);
                    assert(k as int * w >= 0) by (nonlinear_arith)
                        requires
                            k >= 0,
                            w > 0,
                    ;
                    let pos = k as int * w + j;
                    assert(0 <= pos < self.capacity());
                    assert(self.bit_at(pos) == a.bits()[j]);
                    assert(other.bit_at(pos) == b.bits()[j]);
                    assert(self.bit_at(pos) != other.bit_at(pos));
                }
                return false;
            }
            k = k + 1;
        }
        proof {
            T::lemma_wsize();
            assert forall|i: int|
                0 <= i < self.capacity() implies (#[trigger] self.bit_at(i)) == other.bit_at(i) by {
                crate::model::lemma_div_bound(i, T::wsize() as int, n as int);
            }
        }
        true
    }
}

impl<T: BitStorage> Eq for BitMask<T> {

}

/// What the equality operator decides, read at the level of the model: two
/// well-formed masks compare equal exactly when their logical bit sequences
/// are equal.
pub proof fn lemma_eq_spec_is_view_eq<T: BitStorage>(a: &BitMask<T>, b: &BitMask<T>)
    requires
        a.wf(),
        b.wf(),
    ensures
        a.eq_spec(b) <==> a@ == b@,
{
    T::lemma_wsize();
    lemma_capacity(*a);
    lemma_capacity(*b);
    let w = T::wsize() as int;
    if a.eq_spec(b) {
        assert forall|i: int| 0 <= i < a@.len() implies #[trigger] a@[i] == b@[i] by {
            assert(a.bit_at(i) == b.bit_at(i));
        }
        assert(a@ =~= b@);
    }
    if a@ == b@ {
        assert(a.mask@.len() == b.mask@.len());
        assert forall|i: int|
            0 <= i < a.capacity() implies (#[trigger] a.bit_at(i)) == b.bit_at(i) by {
            crate::model::lemma_div_bound(i, w, a.mask@.len() as int);
            if i < a.length {
                assert(a@[i] == a.bit_at(i));
                assert(b@[i] == b.bit_at(i));
            } else {
                assert(!a.bit_at(i));
                assert(!b.bit_at(i));
            }
        }
    }
}

} // verus!
