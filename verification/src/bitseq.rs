//! The mathematical model of bit streams.
//!
//! Every cursor in this crate is specified against a `Seq<bool>`: the bits
//! it still has to hand out, or the bits it has taken in so far, most
//! significant bit first.  This module defines how a byte, the low bits of
//! a byte, and a sequence of bytes denote such a bit sequence, and proves
//! the lemmas that connect the executable shift/mask arithmetic to the
//! model.

use vstd::prelude::*;

verus! {

/// True when bit `i` of `b` is set, counting the most significant bit as
/// bit 0.
pub open spec fn u8_bit(b: u8, i: int) -> bool {
    (b >> ((7 - i) as u8)) & 1 == 1
}

/// The first `n` bits of `b`, most significant bit first.
pub open spec fn byte_prefix(b: u8, n: int) -> Seq<bool> {
    Seq::new(n as nat, |i: int| u8_bit(b, i))
}

/// All eight bits of `b`, most significant bit first.
pub open spec fn byte_bits(b: u8) -> Seq<bool> {
    byte_prefix(b, 8)
}

/// The low `w` bits of `v`, most significant bit first.
pub open spec fn low_bits(w: int, v: u8) -> Seq<bool> {
    Seq::new(w as nat, |i: int| u8_bit(v, 8 - w + i))
}

/// The bits of a byte sequence, in order.
pub open spec fn bytes_bits(s: Seq<u8>) -> Seq<bool>
    decreases s.len(),
{
    if s.len() <= 0 {
        Seq::empty()
    } else {
        byte_bits(s[0]) + bytes_bits(s.skip(1))
    }
}

/// The mask covering the low `w` bits of a byte.
pub open spec fn mask_val(w: int) -> u8 {
    (((1u16 << (w as u16)) - 1) as u8)
}

/// The mask covering exactly bit `w`, counting from 1 at the least
/// significant end.
pub open spec fn bit_val(w: int) -> u8 {
    1u8 << ((w - 1) as u8)
}

/// A byte's full bit sequence is also its low eight bits.
pub proof fn lemma_byte_bits_low(b: u8)
    ensures
        byte_bits(b) == low_bits(8, b),
{
    assert(byte_bits(b) =~= low_bits(8, b));
}

/// Dropping the leading `k` of the low `w` bits leaves the low `w - k`
/// bits.
pub proof fn lemma_low_bits_skip(w: int, k: int, v: u8)
    requires
        0 <= k <= w <= 8,
    ensures
        low_bits(w, v).skip(k) == low_bits(w - k, v),
{
    assert(low_bits(w, v).skip(k) =~= low_bits(w - k, v));
}

/// Shifting out the `c - w` trailing bits moves the leading `w` of the low
/// `c` bits of `b` into the low bits of the result.
pub proof fn lemma_read_take(c: u8, w: u8, b: u8)
    requires
        1 <= w <= c <= 8,
    ensures
        low_bits(w as int, b >> ((c - w) as u8)) == low_bits(c as int, b).take(w as int),
{
    let d: u8 = (c - w) as u8;
    assert(low_bits(w as int, b >> ((c - w) as u8)) =~= low_bits(c as int, b).take(w as int)) by {
        assert forall|i: int| 0 <= i < w as int implies #[trigger] low_bits(
            w as int,
            b >> ((c - w) as u8),
        )[i] == low_bits(c as int, b).take(w as int)[i] by {
            let s: u8 = (7 - (8 - (w as int) + i)) as u8;
            let t: u8 = (7 - (8 - (c as int) + i)) as u8;
            assert(((b >> d) >> s) & 1 == (b >> t) & 1) by (bit_vector)
                requires
                    d == c - w,
                    t == s + d,
                    s < w,
                    1 <= w <= c <= 8,
            ;
        }
    }
}

/// Two values with the same low `w` bits agree after masking to `w` bits.
pub proof fn lemma_low_bits_inj(w: u8, x: u8, y: u8)
    requires
        1 <= w <= 8,
        low_bits(w as int, x) == low_bits(w as int, y),
    ensures
        x & mask_val(w as int) == y & mask_val(w as int),
{
    assert forall|s: u8| s < w implies (((x >> s) & 1 == 1) <==> ((y >> s) & 1 == 1)) by {
        let idx: int = w as int - 1 - s as int;
        assert(0 <= idx < w as int);
        assert(low_bits(w as int, x)[idx] == u8_bit(x, 8 - w as int + idx));
        assert(low_bits(w as int, x)[idx] == low_bits(w as int, y)[idx]);
        assert(u8_bit(x, 8 - w as int + idx) == u8_bit(y, 8 - w as int + idx));
        assert((7 - (8 - w as int + idx)) as u8 == s);
        assert(u8_bit(x, 8 - w as int + idx) == ((x >> s) & 1 == 1));
    }
    assert(x & (((1u16 << (w as u16)) - 1) as u8) == y & (((1u16 << (w as u16)) - 1) as u8))
        by (bit_vector)
        requires
            1 <= w <= 8,
            0 < w ==> (((x >> 0u8) & 1 == 1) <==> ((y >> 0u8) & 1 == 1)),
            1 < w ==> (((x >> 1u8) & 1 == 1) <==> ((y >> 1u8) & 1 == 1)),
            2 < w ==> (((x >> 2u8) & 1 == 1) <==> ((y >> 2u8) & 1 == 1)),
            3 < w ==> (((x >> 3u8) & 1 == 1) <==> ((y >> 3u8) & 1 == 1)),
            4 < w ==> (((x >> 4u8) & 1 == 1) <==> ((y >> 4u8) & 1 == 1)),
            5 < w ==> (((x >> 5u8) & 1 == 1) <==> ((y >> 5u8) & 1 == 1)),
            6 < w ==> (((x >> 6u8) & 1 == 1) <==> ((y >> 6u8) & 1 == 1)),
            7 < w ==> (((x >> 7u8) & 1 == 1) <==> ((y >> 7u8) & 1 == 1)),
    ;
}

/// Splicing across a byte boundary: the result combines the `a` pending
/// bits of `buf` with the leading `w - a` bits of the next byte `nxt`.
pub proof fn lemma_splice(a: u8, w: u8, buf: u8, nxt: u8)
    requires
        a < w <= 8,
        w - a <= 7,
    ensures
        low_bits(w as int, (buf << ((w - a) as u8)) | (nxt >> ((8 - (w - a)) as u8))) == low_bits(
            a as int,
            buf,
        ) + byte_bits(nxt).take((w - a) as int),
{
    let need: u8 = (w - a) as u8;
    let e: u8 = (8 - need) as u8;
    let r: u8 = (buf << need) | (nxt >> e);
    assert(low_bits(w as int, r) =~= low_bits(a as int, buf) + byte_bits(nxt).take(
        need as int,
    )) by {
        assert forall|i: int| 0 <= i < w as int implies #[trigger] low_bits(w as int, r)[i] == (
        low_bits(a as int, buf) + byte_bits(nxt).take(need as int))[i] by {
            let s: u8 = (7 - (8 - (w as int) + i)) as u8;
            if i < a as int {
                let t: u8 = (7 - (8 - (a as int) + i)) as u8;
                assert((((buf << need) | (nxt >> e)) >> s) & 1 == (buf >> t) & 1) by (bit_vector)
                    requires
                        need == w - a,
                        e == 8 - need,
                        a < w <= 8,
                        need <= 7,
                        s == t + need,
                        t < a,
                ;
            } else {
                let u: u8 = (7 - (i - a as int)) as u8;
                assert((((buf << need) | (nxt >> e)) >> s) & 1 == (nxt >> u) & 1) by (bit_vector)
                    requires
                        need == w - a,
                        e == 8 - need,
                        a < w <= 8,
                        need <= 7,
                        s < need,
                        u == e + s,
                ;
            }
        }
    }
}

/// Writing `w` bits into a byte with room for them: the masked value,
/// shifted up against the already written prefix, extends that prefix.
pub proof fn lemma_write_fit(c: u8, w: u8, buf: u8, v: u8)
    requires
        1 <= w <= c <= 8,
        buf & mask_val(c as int) == 0,
    ensures
        byte_prefix((buf | ((v & mask_val(w as int)) << ((c - w) as u8))), 8 - (c - w) as int)
            == byte_prefix(buf, 8 - c as int) + low_bits(w as int, v),
        (buf | ((v & mask_val(w as int)) << ((c - w) as u8))) & mask_val((c - w) as int) == 0,
{
    let d: u8 = (c - w) as u8;
    let m: u8 = (v & mask_val(w as int)) << d;
    let nb: u8 = buf | m;
    let n: int = 8 - d as int;
    assert(byte_prefix(nb, n) =~= byte_prefix(buf, 8 - c as int) + low_bits(w as int, v)) by {
        assert forall|i: int| 0 <= i < n implies #[trigger] byte_prefix(nb, n)[i] == (byte_prefix(
            buf,
            8 - c as int,
        ) + low_bits(w as int, v))[i] by {
            let s: u8 = (7 - i) as u8;
            if i < 8 - c as int {
                assert(((buf | ((v & (((1u16 << (w as u16)) - 1) as u8)) << d)) >> s) & 1 == (buf
                    >> s) & 1) by (bit_vector)
                    requires
                        d == c - w,
                        1 <= w <= c <= 8,
                        s >= c,
                        s < 8,
                ;
            } else {
                let u: u8 = (s - d) as u8;
                assert(((buf | ((v & (((1u16 << (w as u16)) - 1) as u8)) << d)) >> s) & 1 == (v
                    >> u) & 1) by (bit_vector)
                    requires
                        d == c - w,
                        1 <= w <= c <= 8,
                        buf & (((1u16 << (c as u16)) - 1) as u8) == 0,
                        s < c,
                        d <= s,
                        u == s - d,
                ;
            }
        }
    }
    assert((buf | ((v & (((1u16 << (w as u16)) - 1) as u8)) << d)) & (((1u16 << (d as u16))
        - 1) as u8) == 0) by (bit_vector)
        requires
            d == c - w,
            1 <= w <= c <= 8,
            buf & (((1u16 << (c as u16)) - 1) as u8) == 0,
    ;
}

/// Writing `w` bits into a byte with room for only `c` of them: the top
/// `c` bits of the value fill the byte completely.
pub proof fn lemma_write_part(c: u8, w: u8, buf: u8, v: u8)
    requires
        1 <= c < w <= 8,
        buf & mask_val(c as int) == 0,
    ensures
        byte_prefix((buf | ((v & mask_val(w as int)) >> ((w - c) as u8))), 8) == byte_prefix(
            buf,
            8 - c as int,
        ) + low_bits(w as int, v).take(c as int),
{
    let d: u8 = (w - c) as u8;
    let m: u8 = (v & mask_val(w as int)) >> d;
    let nb: u8 = buf | m;
    assert(byte_prefix(nb, 8) =~= byte_prefix(buf, 8 - c as int) + low_bits(w as int, v).take(
        c as int,
    )) by {
        assert forall|i: int| 0 <= i < 8 implies #[trigger] byte_prefix(nb, 8)[i] == (byte_prefix(
            buf,
            8 - c as int,
        ) + low_bits(w as int, v).take(c as int))[i] by {
            let s: u8 = (7 - i) as u8;
            if i < 8 - c as int {
                assert(((buf | ((v & (((1u16 << (w as u16)) - 1) as u8)) >> d)) >> s) & 1 == (buf
                    >> s) & 1) by (bit_vector)
                    requires
                        d == w - c,
                        1 <= c < w <= 8,
                        s >= c,
                        s < 8,
                ;
            } else {
                let u: u8 = (s + d) as u8;
                assert(((buf | ((v & (((1u16 << (w as u16)) - 1) as u8)) >> d)) >> s) & 1 == (v
                    >> u) & 1) by (bit_vector)
                    requires
                        d == w - c,
                        1 <= c < w <= 8,
                        buf & (((1u16 << (c as u16)) - 1) as u8) == 0,
                        s < c,
                        u == s + d,
                ;
            }
        }
    }
}

/// Setting the single bit at the cursor extends the written prefix by one
/// bit.
pub proof fn lemma_write_bit(c: u8, buf: u8, bit: bool)
    requires
        1 <= c <= 8,
        buf & mask_val(c as int) == 0,
    ensures
        byte_prefix(
            if bit {
                buf ^ bit_val(c as int)
            } else {
                buf
            },
            8 - c as int + 1,
        ) == byte_prefix(buf, 8 - c as int).push(bit),
        (if bit {
            buf ^ bit_val(c as int)
        } else {
            buf
        }) & mask_val(c as int - 1) == 0,
{
    let d: u8 = (c - 1) as u8;
    let nb: u8 = if bit {
        buf ^ (1u8 << d)
    } else {
        buf
    };
    assert((buf ^ (1u8 << d)) == (buf | ((1u8 & (((1u16 << 1u16) - 1) as u8)) << d))) by (bit_vector)
        requires
            d < 8,
            buf & (((1u16 << ((d + 1) as u16)) - 1) as u8) == 0,
    ;
    lemma_write_fit(c, 1, buf, if bit { 1u8 } else { 0u8 });
    if bit {
        assert(byte_prefix(nb, 8 - c as int + 1) =~= byte_prefix(buf, 8 - c as int).push(bit)) by {
            lemma_write_fit(c, 1, buf, 1u8);
            assert(low_bits(1, 1u8) =~= seq![true]) by {
                assert((1u8 >> 0u8) & 1 == 1) by (bit_vector);
            }
            assert(byte_prefix(buf, 8 - c as int) + seq![true] =~= byte_prefix(
                buf,
                8 - c as int,
            ).push(true));
        }
    } else {
        assert((0u8 & (((1u16 << 1u16) - 1) as u8)) << d == 0u8) by (bit_vector);
        assert(buf | ((0u8 & mask_val(1)) << d) == buf) by {
            assert(buf | 0u8 == buf) by (bit_vector);
        }
        assert(byte_prefix(nb, 8 - c as int + 1) =~= byte_prefix(buf, 8 - c as int).push(bit)) by {
            lemma_write_fit(c, 1, buf, 0u8);
            assert(low_bits(1, 0u8) =~= seq![false]) by {
                assert((0u8 >> 0u8) & 1 == 0) by (bit_vector);
            }
            assert(byte_prefix(buf, 8 - c as int) + seq![false] =~= byte_prefix(
                buf,
                8 - c as int,
            ).push(false));
        }
    }
}

/// A zero byte is clear below every cursor width.
pub proof fn lemma_zero_blank(c: u8)
    requires
        c <= 8,
    ensures
        0u8 & mask_val(c as int) == 0,
{
    assert(0u8 & (((1u16 << (c as u16)) - 1) as u8) == 0) by (bit_vector);
}

/// The two one-bit values denote the two bits.
pub proof fn lemma_bit01()
    ensures
        low_bits(1, 1u8) == seq![true],
        low_bits(1, 0u8) == seq![false],
{
    assert((1u8 >> 0u8) & 1 == 1 && (0u8 >> 0u8) & 1 == 0) by (bit_vector);
    assert(low_bits(1, 1u8) =~= seq![true]);
    assert(low_bits(1, 0u8) =~= seq![false]);
}

/// Below a clear cursor the low bits of the buffer read as zeros.
pub proof fn lemma_low_bits_blank(c: u8, buf: u8)
    requires
        c <= 8,
        buf & mask_val(c as int) == 0,
    ensures
        low_bits(c as int, buf) == low_bits(c as int, 0),
{
    assert(low_bits(c as int, buf) =~= low_bits(c as int, 0)) by {
        assert forall|i: int| 0 <= i < c as int implies #[trigger] low_bits(c as int, buf)[i]
            == low_bits(c as int, 0)[i] by {
            let s: u8 = (7 - (8 - (c as int) + i)) as u8;
            assert((buf >> s) & 1 == (0u8 >> s) & 1) by (bit_vector)
                requires
                    s < c,
                    c <= 8,
                    buf & (((1u16 << (c as u16)) - 1) as u8) == 0,
            ;
        }
    }
}

/// The trailing bits of a byte are its full bit sequence without the
/// leading ones.
pub proof fn lemma_byte_suffix(k: u8, b: u8)
    requires
        k <= 8,
    ensures
        low_bits(8 - k as int, b) == byte_bits(b).skip(k as int),
{
    lemma_byte_bits_low(b);
    lemma_low_bits_skip(8, k as int, b);
}

/// Taking or dropping `a.len() + k` elements of `a + b` takes or drops
/// `k` elements of `b`.
pub proof fn lemma_concat_take_skip(a: Seq<bool>, b: Seq<bool>, k: int)
    requires
        0 <= k <= b.len(),
    ensures
        (a + b).take(a.len() + k) == a + b.take(k),
        (a + b).skip(a.len() + k) == b.skip(k),
{
    assert((a + b).take(a.len() + k) =~= a + b.take(k));
    assert((a + b).skip(a.len() + k) =~= b.skip(k));
}

/// A bit sequence of bytes is eight bits per byte.
pub proof fn lemma_bytes_bits_len(s: Seq<u8>)
    ensures
        bytes_bits(s).len() == 8 * s.len(),
    decreases s.len(),
{
    if s.len() > 0 {
        lemma_bytes_bits_len(s.skip(1));
    }
}

/// Appending a byte appends its eight bits.
pub proof fn lemma_bytes_bits_push(s: Seq<u8>, b: u8)
    ensures
        bytes_bits(s.push(b)) == bytes_bits(s) + byte_bits(b),
    decreases s.len(),
{
    if s.len() == 0 {
        assert(s.push(b).skip(1) =~= Seq::<u8>::empty());
        assert(s.push(b)[0] == b);
        assert(bytes_bits(s.push(b)) == byte_bits(b) + bytes_bits(s.push(b).skip(1)));
        assert(bytes_bits(s.push(b)) =~= bytes_bits(s) + byte_bits(b));
    } else {
        lemma_bytes_bits_push(s.skip(1), b);
        assert(s.push(b).skip(1) =~= s.skip(1).push(b));
        assert(s.push(b)[0] == s[0]);
        assert(bytes_bits(s.push(b)) == byte_bits(s[0]) + bytes_bits(s.skip(1).push(b)));
        assert(bytes_bits(s.push(b)) == byte_bits(s[0]) + (bytes_bits(s.skip(1)) + byte_bits(b)));
        assert(byte_bits(s[0]) + (bytes_bits(s.skip(1)) + byte_bits(b)) =~= (byte_bits(s[0])
            + bytes_bits(s.skip(1))) + byte_bits(b));
    }
}

} // verus!
