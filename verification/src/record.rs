//! The transport record: a mask serialized as base-64 text over its words'
//! big-endian bytes, together with the logical bit count, and the way back.

use vstd::prelude::*;

use crate::BitMask;
use crate::bit_storage::{
    BitStorage, byte_bit, lemma_byte_bits_determine, word_from_be_bytes, word_to_be_bytes,
};
use crate::error::BitMaskError;
use crate::model::ext_bit;

verus! {

/// The base-64 text the outside encoder produces for a byte sequence.
pub uninterp spec fn base64_of(bytes: Seq<u8>) -> Seq<char>;

/// Relies on base64::encode (standard alphabet, with padding): the returned
/// text is a function of the input bytes alone.  The encoder panics only when
/// the encoded size overflows `usize`, which the precondition rules out.
#[verifier::external_body]
fn b64_encode(bytes: &Vec<u8>) -> (r: String)
    requires
        bytes@.len() <= usize::MAX / 8 + 16,
    ensures
        r@ == base64_of(bytes@),
{
    base64::encode(bytes)
}

/// Relies on base64::decode (standard alphabet): decoding any text that
/// base64::encode produced yields exactly the bytes that were encoded.  On
/// text that is no such encoding the call may fail.
#[verifier::external_body]
fn b64_decode(text: &str) -> (r: Option<Vec<u8>>)
    ensures
        match r {
            Some(b) => forall|bs: Seq<u8>| text@ == #[trigger] base64_of(bs) ==> b@ == bs,
            None => forall|bs: Seq<u8>| text@ != #[trigger] base64_of(bs),
        },
{
    base64::decode(text).ok()
}

/// The transport record: the words' bytes as base-64 text plus the logical
/// bit count.
pub struct BitMaskRecord {
    pub mask: String,
    pub length: usize,
}

/// Bit `i` of the word sequence spelled out in `bs`: each word occupies
/// `W / 8` bytes in big-endian order, words in storage order.
pub open spec fn stream_bit<T: BitStorage>(bs: Seq<u8>, i: int) -> bool {
    let w = T::wsize() as int;
    let nb = w / 8;
    let k = i / w;
    let t = i % w;
    byte_bit(bs[k * nb + (nb - 1 - t / 8)], t % 8)
}

/// Does `bs` spell out exactly the mask whose logical bits are `view`: the
/// byte count of `view.len() / W + 1` words, every logical bit in place, and
/// every padding bit clear?
pub open spec fn stream_ok<T: BitStorage>(bs: Seq<u8>, view: Seq<bool>) -> bool {
    let w = T::wsize() as int;
    let nb = w / 8;
    &&& bs.len() == (view.len() as int / w + 1) * nb
    &&& (forall|i: int|
        0 <= i < bs.len() * 8 ==> (#[trigger] stream_bit::<T>(bs, i)) == ext_bit(view, i))
}

/// What rebuilding a mask from a byte stream and a length tag yields: the bit
/// sequence read out of the stream, or nothing when the byte count is not
/// exactly that of a mask of the tagged length.
pub open spec fn decoded_view<T: BitStorage>(bs: Seq<u8>, length: usize) -> Option<Seq<bool>> {
    let w = T::wsize() as int;
    let nb = w / 8;
    if bs.len() as int % nb == 0 && bs.len() as int / nb == length as int / w + 1 {
        Some(Seq::new(length as nat, |i: int| stream_bit::<T>(bs, i)))
    } else {
        None
    }
}

/// The byte count of a mask's stream stays within the encoder's safe range.
proof fn lemma_stream_len_bound(len: int, w: int, mx: int)
    requires
        8 <= w <= 128,
        w % 8 == 0,
        0 <= len <= mx,
    ensures
        (len / w + 1) * (w / 8) <= mx / 8 + 16,
{
    let q = len / w;
    let nb = w / 8;
    vstd::arithmetic::div_mod::lemma_fundamental_div_mod(w, 8);
    assert(nb * 8 == w);
    vstd::arithmetic::div_mod::lemma_fundamental_div_mod(len, w);
    vstd::arithmetic::div_mod::lemma_div_pos_is_pos(len, w);
    assert((q + 1) * nb == q * nb + nb) by (nonlinear_arith);
    assert(q * nb * 8 == q * w) by (nonlinear_arith)
        requires
            nb * 8 == w,
    ;
    assert(w * q == q * w) by (nonlinear_arith);
    assert(q * w <= len);
    vstd::arithmetic::div_mod::lemma_div_multiples_vanish(q * nb, 8);
    assert(8 * (q * nb) == q * nb * 8) by (nonlinear_arith);
    assert(q * nb == (q * nb * 8) / 8);
    vstd::arithmetic::div_mod::lemma_div_is_ordered(q * w, len, 8);
    assert(q * nb <= len / 8);
    vstd::arithmetic::div_mod::lemma_div_is_ordered(len, mx, 8);
}

impl<T: BitStorage> BitMask<T> {
    /// Serialize the mask into a transport record: every word's big-endian
    /// bytes in storage order, base-64 encoded, beside the logical bit count.
    pub fn to_record(&self) -> (r: BitMaskRecord)
        requires
            self.wf(),
        ensures
            r.length == self@.len(),
            exists|bs: Seq<u8>|
                r.mask@ == #[trigger] base64_of(bs) && stream_ok::<T>(bs, self@),
    {
        proof {
            T::lemma_wsize();
            crate::lemma_capacity(*self);
        }
        let w = T::size();
        let nb = w / 8;
        let n = self.mask.len();
        let mut bytes: Vec<u8> = Vec::new();
        let mut k: usize = 0;
        while k < n
            invariant
                self.wf(),
                w == T::wsize(),
                8 <= w <= 128,
                w % 8 == 0,
                nb == w / 8,
                n == self.mask@.len(),
                k <= n,
                bytes@.len() == k * nb,
                forall|kk: int, j: int, b: int|
                    0 <= kk < k && 0 <= j < nb && 0 <= b < 8 ==> ((#[trigger] byte_bit(
                        bytes@[kk * nb + j],
                        b,
                    )) == self.mask@[kk].bits()[(nb - 1 - j) * 8 + b]),
            decreases n - k,
        {
            let word = self.mask[k];
            let mut wb = word_to_be_bytes(&word);
            let ghost old_bytes = bytes@;
            let ghost wb0 = wb@;
            proof {
                word.lemma_bits_len();
                assert((k + 1) as int * nb == k as int * nb + nb) by (nonlinear_arith);
                assert(k as int * nb >= 0) by (nonlinear_arith)
                    requires
                        k >= 0,
                        nb > 0,
                ;
            }
            bytes.append(&mut wb);
            proof {
                assert forall|kk: int, j: int, b: int|
                    0 <= kk < k + 1 && 0 <= j < nb && 0 <= b < 8 implies ((#[trigger] byte_bit(
                    bytes@[kk * nb + j],
                    b,
                )) == self.mask@[kk].bits()[(nb - 1 - j) * 8 + b]) by {
                    assert(kk * nb + j >= 0) by (nonlinear_arith)
                        requires
                            kk >= 0,
                            j >= 0,
                            nb > 0,
                    ;
                    if kk < k {
                        assert((kk + 1) * nb == kk * nb + nb) by (nonlinear_arith);
                        crate::model::lemma_mul_le_mono(kk + 1, k as int, nb as int);
                        assert(bytes@[kk * nb + j] == old_bytes[kk * nb + j]);
                    } else {
                        assert(kk * nb + j == k as int * nb + j);
                        assert(bytes@[k as int * nb + j] == wb0[j]);
                    }
                }
            }
            k = k + 1;
        }
        proof {
            lemma_stream_len_bound(self.length as int, w as int, usize::MAX as int);
            assert(bytes@.len() == (self@.len() as int / (w as int) + 1) * nb);
        }
        let text = b64_encode(&bytes);
        let r = BitMaskRecord { mask: text, length: self.length };
        proof {
            let ww = T::wsize() as int;
            assert forall|i: int|
                0 <= i < bytes@.len() * 8 implies (#[trigger] stream_bit::<T>(bytes@, i))
                == ext_bit(self@, i) by {
                vstd::arithmetic::div_mod::lemma_fundamental_div_mod(ww, 8);
                assert((ww / 8) * 8 == ww) by (nonlinear_arith)
                    requires
                        8 * (ww / 8) + ww % 8 == ww,
                        ww % 8 == 0,
                ;
                assert(bytes@.len() * 8 == n as int * ww) by (nonlinear_arith)
                    requires
                        bytes@.len() == n as int * (ww / 8),
                        (ww / 8) * 8 == ww,
                ;
                crate::model::lemma_div_bound(i, ww, n as int);
                vstd::arithmetic::div_mod::lemma_fundamental_div_mod(i, ww);
                let kk = i / ww;
                let t = i % ww;
                vstd::arithmetic::div_mod::lemma_fundamental_div_mod(t, 8);
                let j = nb - 1 - t / 8;
                let b = t % 8;
                assert(0 <= t / 8 < nb) by {
                    crate::model::lemma_div_bound(t, 8, nb as int);
                }
                assert(byte_bit(bytes@[kk * nb + j], b) == self.mask@[kk].bits()[(nb - 1 - j) * 8
                    + b]);
                assert((nb - 1 - j) * 8 + b == t);
                crate::lemma_word_bit(*self, kk, t);
                assert(ww * kk == kk * ww) by (nonlinear_arith);
            }
            assert(stream_ok::<T>(bytes@, self@));
        }
        r
    }

    /// Rebuild a mask from a raw byte stream plus a length tag: re-chunk the
    /// bytes into words by big-endian parsing, check that the byte count is
    /// exactly that of a mask of the tagged length, and clear the final
    /// word's padding with the tail mask.
    pub fn from_bytes(bytes: &Vec<u8>, length: usize) -> (r: Result<BitMask<T>, BitMaskError>)
        ensures
            match decoded_view::<T>(bytes@, length) {
                Some(v) => r matches Ok(m) && m.wf() && m@ == v,
                None => r == Err::<BitMask<T>, BitMaskError>(BitMaskError::DeserializationFailed),
            },
    {
        proof {
            T::lemma_wsize();
            vstd::arithmetic::div_mod::lemma_div_is_ordered_by_denominator(
                length as int,
                8,
                T::wsize() as int,
            );
            vstd::arithmetic::div_mod::lemma_div_is_ordered(length as int, usize::MAX as int, 8);
        }
        let w = T::size();
        let nb = w / 8;
        if bytes.len() % nb != 0 {
            return Err(BitMaskError::DeserializationFailed);
        }
        let expect = length / w + 1;
        if bytes.len() / nb != expect {
            return Err(BitMaskError::DeserializationFailed);
        }
        proof {
            vstd::arithmetic::div_mod::lemma_fundamental_div_mod(bytes@.len() as int, nb as int);
        }
        let ghost ww = T::wsize() as int;
        let total = bytes.len();
        let mut mask: Vec<T> = Vec::new();
        let mut k: usize = 0;
        while k < expect
            invariant
                w == T::wsize(),
                8 <= w <= 128,
                w % 8 == 0,
                nb == w / 8,
                ww == T::wsize() as int,
                expect == length as int / (w as int) + 1,
                bytes@.len() == expect * nb,
                total == bytes@.len(),
                k <= expect,
                mask@.len() == k,
                forall|kk: int| 0 <= kk < k ==> (#[trigger] mask@[kk].bits()).len() == T::wsize(),
                forall|kk: int, t: int|
                    0 <= kk < k && 0 <= t < T::wsize() ==> ((#[trigger] mask@[kk].bits()[t])
                        == stream_bit::<T>(bytes@, kk * (T::wsize() as int) + t)),
            decreases expect - k,
        {
            proof {
                assert((k + 1) as int * nb == k as int * nb + nb) by (nonlinear_arith);
                crate::model::lemma_mul_le_mono(k as int + 1, expect as int, nb as int);
                assert(k as int * nb >= 0) by (nonlinear_arith)
                    requires
                        k >= 0,
                        nb > 0,
                ;
                assert(k as int * nb + nb <= total);
            }
            let lo = k * nb;
            let hi = lo + nb;
            let chunk = vstd::slice::slice_subrange(bytes.as_slice(), lo, hi);
            let word = match word_from_be_bytes::<T>(chunk) {
                Ok(x) => x,
                Err(_) => T::zero(),
            };
            proof {
                word.lemma_bits_len();
                assert forall|t: int|
                    0 <= t < T::wsize() implies (#[trigger] word.bits()[t]) == stream_bit::<T>(
                    bytes@,
                    k as int * ww + t,
                ) by {
                    vstd::arithmetic::div_mod::lemma_fundamental_div_mod(t, 8);
                    crate::model::lemma_div_bound(t, 8, nb as int);
                    let j = nb as int - 1 - t / 8;
                    let b = t % 8;
                    assert((nb as int - 1 - j) * 8 + b == t);
                    assert(word.bits()[(nb as int - 1 - j) * 8 + b] == byte_bit(chunk@[j], b));
                    assert(chunk@[j] == bytes@[k as int * nb + j]);
                    crate::model::lemma_index_split(k as int, t, ww);
                }
            }
            mask.push(word);
            k = k + 1;
        }
        let last = length / w;
        let offset = length % w;
        let tm = T::low_ones(offset);
        let word2 = mask[last];
        let cut = word2.and(&tm);
        proof {
            word2.lemma_bits_len();
            cut.lemma_bits_len();
        }
        mask[last] = cut;
        let m = BitMask { mask, length };
        proof {
            let len = length as int;
            vstd::arithmetic::div_mod::lemma_fundamental_div_mod(len, ww);
            assert forall|p: int|
                0 <= p < m.capacity() implies #[trigger] m.bit_at(p) == (p < len
                && stream_bit::<T>(bytes@, p)) by {
                crate::model::lemma_div_bound(p, ww, expect as int);
                vstd::arithmetic::div_mod::lemma_fundamental_div_mod(p, ww);
                let kk = p / ww;
                let t = p % ww;
                assert(ww * kk == kk * ww) by (nonlinear_arith);
                if kk == last {
                    assert(p < len <==> t < offset);
                    assert(cut.bits()[t] == (word2.bits()[t] && t < offset));
                    assert(word2.bits()[t] == stream_bit::<T>(bytes@, kk * ww + t));
                } else {
                    assert(kk < last);
                    assert((kk + 1) * ww == kk * ww + ww) by (nonlinear_arith);
                    crate::model::lemma_mul_le_mono(kk + 1, last as int, ww);
                    assert(ww * (last as int) == (last as int) * ww) by (nonlinear_arith);
                    assert(p < (kk + 1) * ww);
                    assert(p < len);
                    assert(m.mask@[kk].bits()[t] == stream_bit::<T>(bytes@, kk * ww + t));
                }
            }
            assert(m.wf());
            crate::lemma_capacity(m);
            let v = Seq::new(length as nat, |i: int| stream_bit::<T>(bytes@, i));
            assert forall|i: int| 0 <= i < len implies #[trigger] m@[i] == v[i] by {
                assert(m@[i] == m.bit_at(i));
            }
            assert(m@ =~= v);
        }
        Ok(m)
    }

    /// Deserialize a transport record: decode the base-64 text and rebuild
    /// the mask from the bytes and the record's length tag.  Fails with
    /// `DeserializationFailed` when the text decoding fails or the byte count
    /// does not fit the tagged length.
    pub fn try_from_record(rec: &BitMaskRecord) -> (r: Result<BitMask<T>, BitMaskError>)
        ensures
            r matches Ok(m) ==> m.wf() && m@.len() == rec.length,
            r is Err ==> r == Err::<BitMask<T>, BitMaskError>(BitMaskError::DeserializationFailed),
            forall|bs: Seq<u8>|
                rec.mask@ == #[trigger] base64_of(bs) ==> match decoded_view::<T>(bs, rec.length) {
                    Some(v) => r matches Ok(m) && m@ == v,
                    None => r is Err,
                },
    {
        let bytes = match b64_decode(rec.mask.as_str()) {
            Some(b) => b,
            None => {
                return Err(BitMaskError::DeserializationFailed);
            },
        };
        Self::from_bytes(&bytes, rec.length)
    }
}

/// Round trip: a byte stream that spells out a well-formed mask's bits,
/// decoded with the mask's own length tag, reads back as exactly those bits,
/// so deserializing what `to_record` produced restores the mask.
pub proof fn lemma_record_round_trip<T: BitStorage>(bs: Seq<u8>, view: Seq<bool>, length: usize)
    requires
        stream_ok::<T>(bs, view),
        view.len() == length,
    ensures
        decoded_view::<T>(bs, length) == Some(view),
{
    T::lemma_wsize();
    let w = T::wsize() as int;
    let nb = w / 8;
    let q = length as int / w;
    vstd::arithmetic::div_mod::lemma_fundamental_div_mod(w, 8);
    assert(nb * 8 == w);
    vstd::arithmetic::div_mod::lemma_mod_multiples_basic(q + 1, nb);
    assert((q + 1) * nb == nb * (q + 1)) by (nonlinear_arith);
    vstd::arithmetic::div_mod::lemma_div_multiples_vanish(q + 1, nb);
    assert(bs.len() as int % nb == 0);
    assert(bs.len() as int / nb == q + 1);
    assert(bs.len() * 8 == (q + 1) * w) by (nonlinear_arith)
        requires
            bs.len() == (q + 1) * nb,
            nb * 8 == w,
    ;
    assert(q * w <= length) by {
        vstd::arithmetic::div_mod::lemma_fundamental_div_mod(length as int, w);
        assert(w * q == q * w) by (nonlinear_arith);
    }
    assert((q + 1) * w == q * w + w) by (nonlinear_arith);
    assert(length < bs.len() * 8) by {
        vstd::arithmetic::div_mod::lemma_fundamental_div_mod(length as int, w);
        assert(w * q == q * w) by (nonlinear_arith);
    }
    let v = Seq::new(length as nat, |i: int| stream_bit::<T>(bs, i));
    assert forall|i: int| 0 <= i < length implies #[trigger] v[i] == view[i] by {
        assert(stream_bit::<T>(bs, i) == ext_bit(view, i));
    }
    assert(v =~= view);
}


/// The serialized byte stream of a mask is uniquely determined by the mask's
/// bits: two streams that both spell out the same view are equal, so the
/// record text `to_record` promises is the text of exactly one byte sequence.
pub proof fn lemma_stream_unique<T: BitStorage>(bs1: Seq<u8>, bs2: Seq<u8>, view: Seq<bool>)
    requires
        stream_ok::<T>(bs1, view),
        stream_ok::<T>(bs2, view),
    ensures
        bs1 == bs2,
{
    T::lemma_wsize();
    let w = T::wsize() as int;
    let nb = w / 8;
    let q = view.len() as int / w;
    vstd::arithmetic::div_mod::lemma_fundamental_div_mod(w, 8);
    assert(nb * 8 == w);
    assert(bs1.len() == bs2.len());
    assert(bs1.len() * 8 == (q + 1) * w) by (nonlinear_arith)
        requires
            bs1.len() == (q + 1) * nb,
            nb * 8 == w,
    ;
    assert forall|p: int| 0 <= p < bs1.len() implies #[trigger] bs1[p] == bs2[p] by {
        crate::model::lemma_div_bound(p, nb, q + 1);
        vstd::arithmetic::div_mod::lemma_fundamental_div_mod(p, nb);
        let k = p / nb;
        let j = p % nb;
        assert(nb * k == k * nb) by (nonlinear_arith);
        assert forall|b: int| 0 <= b < 8 implies #[trigger] byte_bit(bs1[p], b) == byte_bit(
            bs2[p],
            b,
        ) by {
            let t = (nb - 1 - j) * 8 + b;
            crate::model::lemma_index_split(nb - 1 - j, b, 8);
            assert(0 <= t < w) by (nonlinear_arith)
                requires
                    t == (nb - 1 - j) * 8 + b,
                    0 <= j < nb,
                    0 <= b < 8,
                    nb * 8 == w,
            ;
            let i = k * w + t;
            crate::model::lemma_index_split(k, t, w);
            assert((k + 1) * w == k * w + w) by (nonlinear_arith);
            crate::model::lemma_mul_le_mono(k + 1, q + 1, w);
            assert(0 <= i < bs1.len() * 8);
            assert(k * nb + (nb - 1 - t / 8) == p);
            assert(stream_bit::<T>(bs1, i) == byte_bit(bs1[p], b));
            assert(stream_bit::<T>(bs2, i) == byte_bit(bs2[p], b));
            assert(stream_bit::<T>(bs1, i) == ext_bit(view, i));
            assert(stream_bit::<T>(bs2, i) == ext_bit(view, i));
        }
        lemma_byte_bits_determine(bs1[p], bs2[p]);
    }
    assert(bs1 =~= bs2);
}

} // verus!
