//! The mathematical model of a mask: sequences of bits, the combinators the
//! operation contracts are stated over, and counting.

use vstd::prelude::*;

verus! {

/// Does position `i` of `s` read as a set bit, with every position outside the
/// sequence reading as zero?  Mismatched-length operands combine through this.
pub open spec fn ext_bit(s: Seq<bool>, i: int) -> bool {
    0 <= i < s.len() && s[i]
}

/// Pointwise OR, extended to the longer operand's length.
pub open spec fn or_bits(a: Seq<bool>, b: Seq<bool>) -> Seq<bool> {
    Seq::new(
        if a.len() >= b.len() { a.len() } else { b.len() },
        |i: int| ext_bit(a, i) || ext_bit(b, i),
    )
}

/// Pointwise XOR, extended to the longer operand's length.
pub open spec fn xor_bits(a: Seq<bool>, b: Seq<bool>) -> Seq<bool> {
    Seq::new(
        if a.len() >= b.len() { a.len() } else { b.len() },
        |i: int| ext_bit(a, i) != ext_bit(b, i),
    )
}

/// Pointwise AND, extended to the longer operand's length (positions beyond
/// either operand read as zero, so the extension is all zeros).
pub open spec fn and_bits(a: Seq<bool>, b: Seq<bool>) -> Seq<bool> {
    Seq::new(
        if a.len() >= b.len() { a.len() } else { b.len() },
        |i: int| ext_bit(a, i) && ext_bit(b, i),
    )
}

/// Pointwise AND that keeps the left operand's length, as the in-place form does.
pub open spec fn and_keep_bits(a: Seq<bool>, b: Seq<bool>) -> Seq<bool> {
    Seq::new(a.len(), |i: int| a[i] && ext_bit(b, i))
}

/// Pointwise complement over the sequence's own length.
pub open spec fn not_bits(s: Seq<bool>) -> Seq<bool> {
    Seq::new(s.len(), |i: int| !s[i])
}

/// Logical shift towards lower indices by `n`; vacated high positions read zero.
pub open spec fn shr_bits(s: Seq<bool>, n: nat) -> Seq<bool> {
    Seq::new(s.len(), |i: int| ext_bit(s, i + n))
}

/// Logical shift towards higher indices by `n`; vacated low positions read
/// zero, and bits pushed past the length are lost.
pub open spec fn shl_bits(s: Seq<bool>, n: nat) -> Seq<bool> {
    Seq::new(s.len(), |i: int| i >= n && s[i - n])
}

/// The number of set bits in `s`.
pub open spec fn count_trues(s: Seq<bool>) -> nat
    decreases s.len(),
{
    if s.len() == 0 {
        0
    } else {
        count_trues(s.drop_last()) + if s.last() {
            1nat
        } else {
            0nat
        }
    }
}

pub proof fn lemma_count_trues_le_len(s: Seq<bool>)
    ensures
        count_trues(s) <= s.len(),
    decreases s.len(),
{
    if s.len() > 0 {
        lemma_count_trues_le_len(s.drop_last());
    }
}

/// Extending a sequence by one position adds that position's contribution.
pub proof fn lemma_count_trues_take_step(s: Seq<bool>, i: int)
    requires
        0 <= i < s.len(),
    ensures
        count_trues(s.take(i + 1)) == count_trues(s.take(i)) + if s[i] {
            1nat
        } else {
            0nat
        },
{
    assert(s.take(i + 1).drop_last() =~= s.take(i));
    assert(s.take(i + 1).last() == s[i]);
}

pub proof fn lemma_count_trues_all_false(s: Seq<bool>)
    requires
        forall|i: int| 0 <= i < s.len() ==> !s[i],
    ensures
        count_trues(s) == 0,
    decreases s.len(),
{
    if s.len() > 0 {
        lemma_count_trues_all_false(s.drop_last());
    }
}

pub proof fn lemma_count_trues_all_true(s: Seq<bool>)
    requires
        forall|i: int| 0 <= i < s.len() ==> s[i],
    ensures
        count_trues(s) == s.len(),
    decreases s.len(),
{
    if s.len() > 0 {
        lemma_count_trues_all_true(s.drop_last());
    }
}

/// Counting distributes over concatenation.
pub proof fn lemma_count_trues_append(a: Seq<bool>, b: Seq<bool>)
    ensures
        count_trues(a + b) == count_trues(a) + count_trues(b),
    decreases b.len(),
{
    if b.len() == 0 {
        assert(a + b =~= a);
    } else {
        assert((a + b).drop_last() =~= a + b.drop_last());
        assert((a + b).last() == b.last());
        lemma_count_trues_append(a, b.drop_last());
    }
}

/// A prefix never holds more set bits than the whole.
pub proof fn lemma_count_trues_take_le(s: Seq<bool>, k: int)
    requires
        0 <= k <= s.len(),
    ensures
        count_trues(s.take(k)) <= count_trues(s),
{
    assert(s =~= s.take(k) + s.skip(k));
    lemma_count_trues_append(s.take(k), s.skip(k));
}

/// Positions that all read zero do not change the count when dropped.
pub proof fn lemma_count_trues_zero_tail(s: Seq<bool>, k: int)
    requires
        0 <= k <= s.len(),
        forall|i: int| k <= i < s.len() ==> !s[i],
    ensures
        count_trues(s) == count_trues(s.take(k)),
    decreases s.len() - k,
{
    if k < s.len() {
        assert(s.take(s.len() as int) =~= s);
        lemma_count_trues_take_step(s, s.len() as int - 1);
        assert(s.take(s.len() as int - 1) =~= s.drop_last());
        lemma_count_trues_zero_tail(s.drop_last(), k);
        assert(s.drop_last().take(k) =~= s.take(k));
    } else {
        assert(s.take(k) =~= s);
    }
}

/// Word-index arithmetic: splitting a flat bit position into a word index and
/// an in-word offset.
pub proof fn lemma_index_split(k: int, j: int, w: int)
    by (nonlinear_arith)
    requires
        w > 0,
        0 <= j < w,
        0 <= k,
    ensures
        (k * w + j) / w == k,
        (k * w + j) % w == j,
{
}

pub proof fn lemma_div_bound(i: int, w: int, n: int)
    by (nonlinear_arith)
    requires
        w > 0,
        0 <= i < n * w,
    ensures
        0 <= i / w < n,
{
}

pub proof fn lemma_mul_le_mono(a: int, b: int, w: int)
    by (nonlinear_arith)
    requires
        w >= 0,
        a <= b,
    ensures
        a * w <= b * w,
{
}

} // verus!
