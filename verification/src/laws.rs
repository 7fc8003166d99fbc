//! Algebraic laws of the mask operations, stated and proved over the bit
//! sequences that the operation contracts use.

use vstd::prelude::*;

use crate::model::{and_bits, count_trues, ext_bit, not_bits, or_bits, shl_bits, shr_bits, xor_bits};

verus! {

/// A mask with every bit clear counts no set bits, whatever its length.
pub proof fn lemma_all_clear_counts_zero(s: Seq<bool>)
    requires
        forall|i: int| 0 <= i < s.len() ==> !s[i],
    ensures
        count_trues(s) == 0,
{
    crate::model::lemma_count_trues_all_false(s);
}

/// A mask with every bit set counts exactly its length.
pub proof fn lemma_all_set_counts_length(s: Seq<bool>)
    requires
        forall|i: int| 0 <= i < s.len() ==> s[i],
    ensures
        count_trues(s) == s.len(),
{
    crate::model::lemma_count_trues_all_true(s);
}

/// Double complement: inverting every bit twice restores the original bits.
pub proof fn lemma_not_involutive(s: Seq<bool>)
    ensures
        not_bits(not_bits(s)) == s,
{
    assert(not_bits(not_bits(s)) =~= s);
}

/// XOR of a mask with itself keeps the length and clears every bit.
pub proof fn lemma_xor_self_is_zeros(s: Seq<bool>)
    ensures
        xor_bits(s, s).len() == s.len(),
        forall|i: int| 0 <= i < s.len() ==> !(#[trigger] xor_bits(s, s)[i]),
{
}

/// XOR with an all-clear mask of at least the same length only extends the
/// length: every bit of the operand keeps its value and the extension stays
/// clear.
pub proof fn lemma_xor_zeros_extends(s: Seq<bool>, z: Seq<bool>)
    requires
        z.len() >= s.len(),
        forall|i: int| 0 <= i < z.len() ==> !z[i],
    ensures
        xor_bits(s, z).len() == z.len(),
        forall|i: int| 0 <= i < s.len() ==> (#[trigger] xor_bits(s, z)[i]) == s[i],
        forall|i: int| s.len() <= i < z.len() ==> !(#[trigger] xor_bits(s, z)[i]),
{
}

/// OR is commutative.
pub proof fn lemma_or_commutative(a: Seq<bool>, b: Seq<bool>)
    ensures
        or_bits(a, b) == or_bits(b, a),
{
    assert(or_bits(a, b) =~= or_bits(b, a));
}

/// AND is commutative.
pub proof fn lemma_and_commutative(a: Seq<bool>, b: Seq<bool>)
    ensures
        and_bits(a, b) == and_bits(b, a),
{
    assert(and_bits(a, b) =~= and_bits(b, a));
}

/// OR is associative on operands of equal length.
pub proof fn lemma_or_associative(a: Seq<bool>, b: Seq<bool>, c: Seq<bool>)
    requires
        a.len() == b.len(),
        b.len() == c.len(),
    ensures
        or_bits(or_bits(a, b), c) == or_bits(a, or_bits(b, c)),
{
    assert(or_bits(or_bits(a, b), c) =~= or_bits(a, or_bits(b, c)));
}

/// AND is associative on operands of equal length.
pub proof fn lemma_and_associative(a: Seq<bool>, b: Seq<bool>, c: Seq<bool>)
    requires
        a.len() == b.len(),
        b.len() == c.len(),
    ensures
        and_bits(and_bits(a, b), c) == and_bits(a, and_bits(b, c)),
{
    assert(and_bits(and_bits(a, b), c) =~= and_bits(a, and_bits(b, c)));
}

/// OR with an all-clear mask of the same length is the identity.
pub proof fn lemma_or_zeros_identity(s: Seq<bool>, z: Seq<bool>)
    requires
        z.len() == s.len(),
        forall|i: int| 0 <= i < z.len() ==> !z[i],
    ensures
        or_bits(s, z) == s,
{
    assert(or_bits(s, z) =~= s);
}

/// AND with an all-set mask of the same length is the identity.
pub proof fn lemma_and_ones_identity(s: Seq<bool>, o: Seq<bool>)
    requires
        o.len() == s.len(),
        forall|i: int| 0 <= i < o.len() ==> o[i],
    ensures
        and_bits(s, o) == s,
{
    assert(and_bits(s, o) =~= s);
}

/// Shifting towards index zero by at least the length clears every bit.
pub proof fn lemma_shift_right_all_out(s: Seq<bool>, n: nat)
    requires
        n >= s.len(),
    ensures
        shr_bits(s, n).len() == s.len(),
        forall|i: int| 0 <= i < s.len() ==> !(#[trigger] shr_bits(s, n)[i]),
{
}

/// Shifting by zero, in either direction, changes nothing.
pub proof fn lemma_shift_zero_identity(s: Seq<bool>)
    ensures
        shr_bits(s, 0) == s,
        shl_bits(s, 0) == s,
{
    assert(shr_bits(s, 0) =~= s);
    assert(shl_bits(s, 0) =~= s);
}

/// Shifting away from index zero and back by the same amount reproduces every
/// bit that was not pushed out over the length; the rest read clear.
pub proof fn lemma_shift_left_then_right(s: Seq<bool>, n: nat)
    ensures
        shr_bits(shl_bits(s, n), n).len() == s.len(),
        forall|i: int|
            0 <= i < s.len() ==> (#[trigger] shr_bits(shl_bits(s, n), n)[i]) == (i + n < s.len()
                && s[i]),
{
    assert forall|i: int|
        0 <= i < s.len() implies (#[trigger] shr_bits(shl_bits(s, n), n)[i]) == (i + n < s.len()
        && s[i]) by {
        assert(shr_bits(shl_bits(s, n), n)[i] == ext_bit(shl_bits(s, n), i + n));
    }
}

} // verus!
