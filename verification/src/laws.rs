//! Laws tying the cursor contracts together.
//!
//! The masks of [`crate::bits::Bits`] are pinned bit by bit, and packing
//! widths and values into a bit stream and reading the same widths back
//! returns every value masked to its width.

use vstd::prelude::*;
use crate::bits::{bits_of, Bits};
use crate::bitseq::{
    bit_val, lemma_concat_take_skip, lemma_low_bits_inj, low_bits, mask_val,
};

verus! {

/// The mask of a width covers exactly that many low bits: bit `i` of
/// `mask_val(w)` is set when `i < w` and clear above, so `not_mask`,
/// its complement, covers exactly the rest.
pub proof fn lemma_mask_low_bits(w: u8, i: u8)
    requires
        1 <= w <= 8,
        i < 8,
    ensures
        (mask_val(w as int) >> i) & 1 == if i < w {
            1u8
        } else {
            0u8
        },
{
    assert(((((1u16 << (w as u16)) - 1) as u8) >> i) & 1 == if i < w {
        1u8
    } else {
        0u8
    }) by (bit_vector)
        requires
            1 <= w <= 8,
            i < 8,
    ;
}

/// The bit mask of a width is a single-bit mask: only bit `w - 1` of
/// `bit_val(w)` is set.
pub proof fn lemma_bit_single(w: u8, i: u8)
    requires
        1 <= w <= 8,
        i < 8,
    ensures
        (bit_val(w as int) >> i) & 1 == if i == w - 1 {
            1u8
        } else {
            0u8
        },
{
    let d: u8 = (w - 1) as u8;
    assert(((1u8 << d) >> i) & 1 == if i == d {
        1u8
    } else {
        0u8
    }) by (bit_vector)
        requires
            d < 8,
            i < 8,
    ;
}

/// The reciprocal of a width is reciprocal: taking what is left of a
/// byte twice gives the width back, for every width below the full one
/// (the full width has no reciprocal).
pub proof fn lemma_recip_involutive(b: Bits)
    requires
        b != Bits::B8,
    ensures
        bits_of(8 - bits_of(8 - b.as_int()).as_int()) == b,
{
}

/// The bits of a sequence of width/value pairs, packed in order: for
/// each pair, the low bits of the value, at the given width.
pub open spec fn packed_bits(pairs: Seq<(Bits, u8)>) -> Seq<bool>
    decreases pairs.len(),
{
    if pairs.len() <= 0 {
        Seq::empty()
    } else {
        low_bits(pairs[0].0.as_int(), pairs[0].1) + packed_bits(pairs.skip(1))
    }
}

/// Dropping the packed bits of the first `k` pairs leaves the packed
/// bits of the rest, and the packed lengths add up.
pub proof fn lemma_packed_skip(pairs: Seq<(Bits, u8)>, k: int)
    requires
        0 <= k <= pairs.len(),
    ensures
        packed_bits(pairs.take(k)).len() + packed_bits(pairs.skip(k)).len() == packed_bits(
            pairs,
        ).len(),
        packed_bits(pairs).skip(packed_bits(pairs.take(k)).len() as int) == packed_bits(
            pairs.skip(k),
        ),
    decreases k,
{
    if k == 0 {
        assert(pairs.take(0) =~= Seq::<(Bits, u8)>::empty());
        assert(pairs.skip(0) =~= pairs);
        assert(packed_bits(pairs).skip(0) =~= packed_bits(pairs));
    } else {
        let w0 = pairs[0].0.as_int();
        let v0 = pairs[0].1;
        let tail = pairs.skip(1);
        lemma_packed_skip(tail, k - 1);
        assert(pairs.take(k).skip(1) =~= tail.take(k - 1));
        assert(pairs.take(k)[0] == pairs[0]);
        assert(packed_bits(pairs.take(k)) == low_bits(w0, v0) + packed_bits(tail.take(k - 1)));
        let m = packed_bits(tail.take(k - 1)).len() as int;
        lemma_concat_take_skip(low_bits(w0, v0), packed_bits(tail), m);
        assert(tail.skip(k - 1) =~= pairs.skip(k));
    }
}

/// Round trip: after packing a sequence of width/value pairs into a bit
/// stream, reading the widths back in order returns each value masked to
/// its width.
///
/// The `k`-th read starts after the packed bits of the first `k` pairs
/// and takes the `k`-th width; a read whose low bits match that span (as
/// the readers' contracts guarantee) agrees with the original value
/// after masking.  A writer extracts such a stream of whole bytes
/// whenever the total width is a multiple of eight.
pub proof fn lemma_round_trip(pairs: Seq<(Bits, u8)>, k: int, r: u8)
    requires
        0 <= k < pairs.len(),
        low_bits(pairs[k].0.as_int(), r) == packed_bits(pairs).skip(
            packed_bits(pairs.take(k)).len() as int,
        ).take(pairs[k].0.as_int()),
    ensures
        r & mask_val(pairs[k].0.as_int()) == pairs[k].1 & mask_val(pairs[k].0.as_int()),
{
    let w = pairs[k].0.as_int();
    let v = pairs[k].1;
    lemma_packed_skip(pairs, k);
    let rest = pairs.skip(k);
    assert(rest[0] == pairs[k]);
    assert(packed_bits(rest) == low_bits(w, v) + packed_bits(rest.skip(1)));
    assert(packed_bits(rest).take(w) == low_bits(w, v)) by {
        assert(packed_bits(rest).take(w) =~= low_bits(w, v));
    }
    let wb: u8 = w as u8;
    lemma_low_bits_inj(wb, r, v);
}

} // verus!
