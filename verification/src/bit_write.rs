//! Bitwise writing into a single byte, a fixed buffer, or a growing one.

use vstd::prelude::*;
use crate::bits::{bits_of, width_val, Bits};
use crate::bitseq::{
    byte_bits, bit_val, byte_prefix, bytes_bits, lemma_bytes_bits_push, lemma_low_bits_skip,
    lemma_write_bit, lemma_write_fit, lemma_write_part, low_bits, mask_val,
};
use crate::UnalignedError;

pub mod bit_writer;

verus! {

/// A trait for bitwise writing.
///
/// `written()` models the bits a writer has taken in so far, most
/// significant bit first.  A successful write appends exactly the given
/// low bits of the value; a short write appends a prefix of them and
/// reports how many bits were left over.
pub trait BitWrite: Sized {
    /// The error type when writing bits, which should include the number
    /// of bits left unwritten.
    type Error;

    /// The bits this writer has taken in so far.
    spec fn written(&self) -> Seq<bool>;

    /// Clean ground: every bit of the backing store not yet written is
    /// zero, so that writes land exactly.  Writers that allocate their
    /// own storage are always on clean ground.
    spec fn clean(&self) -> bool;

    /// Returns `true` if this writer is aligned to a byte.
    fn is_aligned(&self) -> (r: bool)
        ensures
            r ==> self.written().len() % 8 == 0,
    ;

    /// Writes a single bit to the output.
    fn write_bit(&mut self, bit: bool) -> (r: Result<(), Self::Error>)
        ensures
            (r matches Ok(_) && old(self).clean()) ==> (final(self).written() == old(self).written().push(bit) && final(self).clean()),
    ;

    /// Writes a full byte to the output.
    ///
    /// If an error is returned it could mean that there is not enough
    /// space for a full byte.
    fn write_byte(&mut self, byte: u8) -> (r: Result<(), Self::Error>)
        ensures
            (r matches Ok(_) && old(self).clean()) ==> (final(self).written() == old(self).written() + byte_bits(byte) && final(self).clean()),
    ;

    /// Writes the low `bits` of `buf` to the output; the higher bits are
    /// ignored.
    ///
    /// Attempting to write too many bits should return how many bits were
    /// not written.
    fn write_bits(&mut self, bits: Bits, buf: u8) -> (r: Result<Bits, Self::Error>)
        ensures
            r matches Ok(n) ==> n == bits,
            (r matches Ok(_) && old(self).clean()) ==> (final(self).written() == old(self).written() + low_bits(bits.as_int(), buf) && final(self).clean()),
    ;
}

/// Progressively fill a byte from high bits to low bits.
///
/// The cursor holds the number of bits of room left: the bits already
/// taken in are the high bits of the buffer, and the next bit lands just
/// below them.
#[derive(Clone, Copy, Debug)]
pub struct WriteByte {
    /// The store of bits being written.
    buffer: u8,
    /// The cursor over the next bit to be written.
    cursor: Option<Bits>,
}

impl WriteByte {
    /// The byte being filled.
    pub closed spec fn spec_buffer(&self) -> u8 {
        self.buffer
    }

    /// The number of bits of room left.
    pub closed spec fn spec_cursor(&self) -> Option<Bits> {
        self.cursor
    }

    /// The bits taken in so far: the high bits of the buffer above the
    /// cursor.
    pub open spec fn written_bits(&self) -> Seq<bool> {
        byte_prefix(self.spec_buffer(), 8 - width_val(self.spec_cursor()))
    }

    /// A well-formed writer keeps the bits below the cursor zero, so that
    /// further writes land on clear ground.
    pub open spec fn wf(&self) -> bool {
        self.spec_buffer() & mask_val(width_val(self.spec_cursor())) == 0
    }

    /// True when the byte is untouched or completely filled.
    pub open spec fn spec_aligned(&self) -> bool {
        width_val(self.spec_cursor()) == 0 || width_val(self.spec_cursor()) == 8
    }

    /// A new empty writer with all eight bits of room.
    pub fn empty() -> (r: Self)
        ensures
            r.spec_buffer() == 0,
            r.spec_cursor() == Some(Bits::B8),
            r.wf(),
            r.written_bits().len() == 0,
    {
        let r = WriteByte { buffer: 0, cursor: Some(Bits::B8) };
        proof {
            crate::bitseq::lemma_zero_blank(8);
        }
        r
    }

    /// Starts filling on top of the given byte.
    ///
    /// With a zero byte the writer starts on clear ground; with any other
    /// byte, writes blend into the bits already there.
    pub fn new(buffer: u8) -> (r: Self)
        ensures
            r.spec_buffer() == buffer,
            r.spec_cursor() == Some(Bits::B8),
            buffer == 0 ==> r.wf(),
    {
        let r = WriteByte { buffer, cursor: Some(Bits::B8) };
        proof {
            crate::bitseq::lemma_zero_blank(8);
        }
        r
    }

    /// The internal buffer is returned and the writer reset.
    pub fn reset(&mut self) -> (r: u8)
        ensures
            r == old(self).spec_buffer(),
            final(self).spec_buffer() == 0,
            final(self).spec_cursor() == Some(Bits::B8),
            final(self).wf(),
            final(self).written_bits().len() == 0,
        no_unwind
    {
        let r: u8 = self.buffer;
        self.buffer = 0;
        self.cursor = Some(Bits::B8);
        proof {
            crate::bitseq::lemma_zero_blank(8);
        }
        r
    }

    /// Returns the number of bits left to write.
    pub fn to_write(&self) -> (r: Option<Bits>)
        ensures
            r == self.spec_cursor(),
        no_unwind
    {
        self.cursor
    }

    /// The byte being filled, as it stands.
    pub(crate) fn byte(&self) -> (r: u8)
        ensures
            r == self.spec_buffer(),
        no_unwind
    {
        self.buffer
    }

    /// Pads the internal buffer with zeros so that the writer is aligned.
    pub fn pad_zeros(&mut self)
        ensures
            final(self).spec_buffer() == old(self).spec_buffer(),
            final(self).spec_cursor() is None,
            old(self).wf() ==> final(self).written_bits() == old(self).written_bits() + low_bits(
                width_val(old(self).spec_cursor()),
                0,
            ) && final(self).wf(),
        no_unwind
    {
        proof {
            let c: u8 = width_val(self.spec_cursor()) as u8;
            let buf: u8 = self.buffer;
            assert(byte_prefix(buf, 8) =~= byte_prefix(buf, 8 - c as int) + low_bits(
                c as int,
                buf,
            ));
            if self.wf() {
                crate::bitseq::lemma_low_bits_blank(c, buf);
                assert(buf & (((1u16 << 0u16) - 1) as u8) == 0) by (bit_vector);
            }
        }
        self.cursor = None;
    }

    /// Unwraps the inner buffer if the writer is aligned.
    pub fn into_buffer(self) -> (r: Result<u8, UnalignedError<Self>>)
        ensures
            self.spec_aligned() ==> r == Ok::<u8, UnalignedError<Self>>(self.spec_buffer()),
            !self.spec_aligned() ==> (r matches Err(e) && e.inner() == self && Some(e.width())
                == self.spec_cursor()),
    {
        match self.cursor {
            None => Ok(self.buffer),
            Some(Bits::B8) => Ok(self.buffer),
            Some(misalign) => Err(UnalignedError(self, misalign)),
        }
    }

    /// Returns `true` if this writer is aligned to a byte.
    pub fn is_aligned(&self) -> (r: bool)
        ensures
            r == self.spec_aligned(),
        no_unwind
    {
        match self.cursor {
            None => true,
            Some(Bits::B8) => true,
            Some(_) => false,
        }
    }

    /// Writes a single bit just below the ones taken in before.
    pub fn write_bit(&mut self, bit: bool) -> (r: Result<(), Bits>)
        ensures
            width_val(old(self).spec_cursor()) == 0 ==> r == Err::<(), Bits>(Bits::B1)
                && *final(self) == *old(self),
            width_val(old(self).spec_cursor()) >= 1 ==> ({
                let c = width_val(old(self).spec_cursor());
                &&& r == Ok::<(), Bits>(())
                &&& final(self).spec_buffer() == if bit {
                    old(self).spec_buffer() ^ bit_val(c)
                } else {
                    old(self).spec_buffer()
                }
                &&& width_val(final(self).spec_cursor()) == c - 1
                &&& (old(self).wf() ==> final(self).written_bits() == old(self).written_bits().push(bit) && final(self).wf())
            }),
        no_unwind
    {
        let cursor = match self.cursor {
            Some(v) => v,
            None => {
                return Err(Bits::B1);
            },
        };
        let c: u8 = cursor.get();
        if bit {
            self.buffer = self.buffer ^ cursor.bit();
        }
        self.cursor = Bits::from_u8(c - 1);
        proof {
            if old(self).wf() {
                lemma_write_bit(c, old(self).spec_buffer(), bit);
            }
        }
        Ok(())
    }

    /// Writes the low `bits` of `buf` just below the ones taken in
    /// before; the higher bits are masked off.
    ///
    /// With enough room the full width goes in.  With some but not enough
    /// room, the top of the value fills the byte completely and the error
    /// reports the width that was not written, so the caller can retry
    /// the remainder against a fresh byte.
    pub fn write_bits(&mut self, bits: Bits, buf: u8) -> (r: Result<Bits, Bits>)
        ensures
            width_val(old(self).spec_cursor()) == 0 ==> r == Err::<Bits, Bits>(bits) && *final(self) == *old(self),
            width_val(old(self).spec_cursor()) >= bits.as_int() ==> ({
                let c = width_val(old(self).spec_cursor());
                let w = bits.as_int();
                &&& r == Ok::<Bits, Bits>(bits)
                &&& final(self).spec_buffer() == old(self).spec_buffer() | ((buf & mask_val(w))
                    << ((c - w) as u8))
                &&& width_val(final(self).spec_cursor()) == c - w
                &&& (old(self).wf() ==> final(self).written_bits() == old(self).written_bits()
                    + low_bits(w, buf) && final(self).wf())
            }),
            0 < width_val(old(self).spec_cursor()) < bits.as_int() ==> ({
                let c = width_val(old(self).spec_cursor());
                let w = bits.as_int();
                &&& r == Err::<Bits, Bits>(bits_of(w - c))
                &&& final(self).spec_buffer() == old(self).spec_buffer() | ((buf & mask_val(w))
                    >> ((w - c) as u8))
                &&& final(self).spec_cursor() is None
                &&& (old(self).wf() ==> final(self).written_bits() == old(self).written_bits()
                    + low_bits(w, buf).take(c) && final(self).wf())
            }),
        no_unwind
    {
        let to_write = match self.cursor {
            Some(v) => v,
            None => {
                return Err(bits);
            },
        };
        let c: u8 = to_write.get();
        let w: u8 = bits.get();
        let masked: u8 = buf & bits.mask();
        if c >= w {
            let shift: u8 = c - w;
            self.cursor = Bits::from_u8(shift);
            self.buffer = self.buffer | (masked << shift);
            proof {
                if old(self).wf() {
                    lemma_write_fit(c, w, old(self).spec_buffer(), buf);
                }
            }
            Ok(bits)
        } else {
            let shift: u8 = w - c;
            self.cursor = None;
            self.buffer = self.buffer | (masked >> shift);
            proof {
                if old(self).wf() {
                    lemma_write_part(c, w, old(self).spec_buffer(), buf);
                    let nb: u8 = self.buffer;
                    assert(nb & (((1u16 << 0u16) - 1) as u8) == 0) by (bit_vector);
                    assert(byte_prefix(nb, 8) =~= self.written_bits());
                }
            }
            match Bits::from_u8(shift) {
                Some(b) => Err(b),
                None => Err(bits),
            }
        }
    }

    /// Writes a full byte, which requires an untouched buffer.
    pub fn write_byte(&mut self, byte: u8) -> (r: Result<(), Bits>)
        ensures
            old(self).spec_cursor() == Some(Bits::B8) ==> ({
                &&& r == Ok::<(), Bits>(())
                &&& final(self).spec_buffer() == (old(self).spec_buffer() | byte)
                &&& final(self).spec_cursor() is None
                &&& (old(self).wf() ==> final(self).written_bits() == byte_bits(byte) && final(self).wf())
            }),
            width_val(old(self).spec_cursor()) == 0 ==> r == Err::<(), Bits>(Bits::B8) && *final(self) == *old(self),
            0 < width_val(old(self).spec_cursor()) < 8 ==> r matches Err(_),
        no_unwind
    {
        let r = self.write_bits(Bits::B8, byte);
        proof {
            if old(self).spec_cursor() == Some(Bits::B8) {
                assert(((byte & (((1u16 << 8u16) - 1) as u8)) << 0u8) == byte) by (bit_vector);
                if old(self).wf() {
                    crate::bitseq::lemma_byte_bits_low(byte);
                    assert(old(self).written_bits() + low_bits(8, byte) =~= byte_bits(byte));
                }
            }
        }
        match r {
            Ok(_) => Ok(()),
            Err(e) => Err(e),
        }
    }
}

/// Progressively fill a fixed buffer of bytes from high bits to low bits.
///
/// The buffer is filled slot by slot from the front; a write that does
/// not fit in what is left of the buffer reports how many bits could not
/// be written, so the caller can retry the remainder elsewhere.
#[derive(Debug)]
pub struct WriteSlice {
    /// The store of bits being written.
    data: Vec<u8>,
    /// How many slots are completely filled.
    pos: usize,
    /// The room left in the current slot; full width means a fresh slot.
    cursor: Bits,
}

impl WriteSlice {
    /// The invariant: the write position never passes the end, and a
    /// partially filled slot exists.
    #[verifier::type_invariant]
    spec fn inv(&self) -> bool {
        &&& self.pos <= self.data.len()
        &&& (self.cursor.as_int() < 8 ==> self.pos < self.data.len())
    }

    /// The whole buffer, filled and unfilled slots alike.
    pub closed spec fn spec_data(&self) -> Seq<u8> {
        self.data@
    }

    /// How many slots are completely filled.
    pub closed spec fn spec_pos(&self) -> int {
        self.pos as int
    }

    /// The room left in the current slot.
    pub closed spec fn spec_cursor(&self) -> Bits {
        self.cursor
    }

    /// Clean ground: from the write position on, every bit not yet
    /// written is zero, so that writes land exactly.
    pub open spec fn clean(&self) -> bool {
        &&& (self.spec_pos() < self.spec_data().len() ==> self.spec_data()[self.spec_pos()]
            & mask_val(self.spec_cursor().as_int()) == 0)
        &&& (forall|j: int|
            self.spec_pos() < j < self.spec_data().len() ==> self.spec_data()[j] == 0)
    }

    /// The bits taken in so far: the filled slots, then the filled top of
    /// the current slot.
    pub open spec fn written_bits(&self) -> Seq<bool> {
        bytes_bits(self.spec_data().take(self.spec_pos())) + if self.spec_cursor().as_int() < 8 {
            byte_prefix(self.spec_data()[self.spec_pos()], 8 - self.spec_cursor().as_int())
        } else {
            Seq::<bool>::empty()
        }
    }

    /// Creates a new writer filling the given buffer from the front.
    ///
    /// Writes blend into the bits already there; over a zeroed buffer
    /// they land exactly.
    pub fn new(data: Vec<u8>) -> (r: Self)
        ensures
            r.spec_data() == data@,
            r.spec_pos() == 0,
            r.spec_cursor() == Bits::B8,
            r.written_bits().len() == 0,
            (forall|i: int| 0 <= i < data@.len() ==> data@[i] == 0) ==> r.clean(),
    {
        let r = WriteSlice { data, pos: 0, cursor: Bits::B8 };
        proof {
            crate::bitseq::lemma_zero_blank(8);
        }
        r
    }

    /// Returns the number of bits left to write before the writer is byte
    /// aligned.
    pub fn to_write(&self) -> (r: Option<Bits>)
        ensures
            self.spec_cursor() == Bits::B8 ==> r is None,
            self.spec_cursor() != Bits::B8 ==> r == Some(self.spec_cursor()),
    {
        match self.cursor {
            Bits::B8 => None,
            c => Some(c),
        }
    }

    /// Returns `true` if this writer is aligned to a byte.
    pub fn is_aligned(&self) -> (r: bool)
        ensures
            r == (self.spec_cursor() == Bits::B8),
    {
        match self.cursor {
            Bits::B8 => true,
            _ => false,
        }
    }

    /// The whole buffer, as a fresh vector.
    pub fn to_vec(&self) -> (r: Vec<u8>)
        ensures
            r@ == self.spec_data(),
    {
        let mut out: Vec<u8> = Vec::new();
        let mut i: usize = 0;
        while i < self.data.len()
            invariant
                i <= self.data.len(),
                out@ == self.data@.subrange(0, i as int),
            decreases self.data.len() - i,
        {
            out.push(self.data[i]);
            proof {
                assert(out@ =~= self.data@.subrange(0, i as int + 1));
            }
            i = i + 1;
        }
        proof {
            assert(out@ =~= self.spec_data());
        }
        out
    }

    /// Pads the current slot with zeros so that the writer is aligned.
    pub fn pad_zeros(&mut self)
        ensures
            final(self).spec_cursor() == Bits::B8,
            final(self).spec_data().len() == old(self).spec_data().len(),
            old(self).clean() ==> final(self).written_bits() == old(self).written_bits()
                + low_bits(
                if old(self).spec_cursor() == Bits::B8 {
                    0
                } else {
                    old(self).spec_cursor().as_int()
                },
                0,
            ) && final(self).clean(),
    {
        let pad = match self.to_write() {
            Some(b) => b,
            None => {
                proof {
                    assert(old(self).written_bits() + low_bits(0, 0) =~= old(self).written_bits());
                }
                return ;
            },
        };
        proof {
            use_type_invariant(&*self);
        }
        let _ = self.write_bits(pad, 0);
    }

    /// Unwraps the unfilled portion of the inner buffer if the writer is
    /// aligned; `None` if the buffer is completely filled.
    pub fn into_slice(self) -> (r: Result<Option<Vec<u8>>, UnalignedError<Self>>)
        ensures
            self.spec_cursor() == Bits::B8 && self.spec_pos() == self.spec_data().len() ==> r
                == Ok::<Option<Vec<u8>>, UnalignedError<Self>>(None),
            self.spec_cursor() == Bits::B8 && self.spec_pos() < self.spec_data().len() ==> (
            r matches Ok(Some(v)) && v@ == self.spec_data().skip(self.spec_pos())),
            self.spec_cursor() != Bits::B8 ==> (r matches Err(e) && e.inner() == self
                && e.width() == self.spec_cursor()),
    {
        match self.cursor {
            Bits::B8 => {
                proof {
                    use_type_invariant(&self);
                }
                if self.pos == self.data.len() {
                    Ok(None)
                } else {
                    let mut out: Vec<u8> = Vec::new();
                    let mut i: usize = self.pos;
                    while i < self.data.len()
                        invariant
                            self.pos <= i <= self.data.len(),
                            out@ == self.data@.subrange(self.pos as int, i as int),
                        decreases self.data.len() - i,
                    {
                        out.push(self.data[i]);
                        proof {
                            assert(out@ =~= self.data@.subrange(self.pos as int, i as int + 1));
                        }
                        i = i + 1;
                    }
                    proof {
                        assert(out@ =~= self.spec_data().skip(self.spec_pos()));
                    }
                    Ok(Some(out))
                }
            },
            misalign => Err(UnalignedError(self, misalign)),
        }
    }

    /// Writes a single bit to the buffer.
    pub fn write_bit(&mut self, bit: bool) -> (r: Result<(), Bits>)
        ensures
            old(self).spec_pos() == old(self).spec_data().len() ==> r == Err::<(), Bits>(Bits::B1)
                && *final(self) == *old(self),
            old(self).spec_pos() < old(self).spec_data().len() ==> ({
                let c = old(self).spec_cursor().as_int();
                &&& r == Ok::<(), Bits>(())
                &&& final(self).spec_data().len() == old(self).spec_data().len()
                &&& (c == 1 ==> final(self).spec_pos() == old(self).spec_pos() + 1 && final(self).spec_cursor() == Bits::B8)
                &&& (c > 1 ==> final(self).spec_pos() == old(self).spec_pos() && final(self).spec_cursor().as_int() == c - 1)
                &&& ((old(self).clean() ==> final(self).written_bits() == old(self).written_bits().push(bit) && final(self).clean()))
            }),
    {
        let v: u8 = if bit {
            1
        } else {
            0
        };
        let r = self.write_bits(Bits::B1, v);
        proof {
            if old(self).spec_pos() < old(self).spec_data().len() && old(self).clean() {
                crate::bitseq::lemma_bit01();
                assert(low_bits(1, v) =~= seq![bit]);
                assert(old(self).written_bits() + seq![bit] =~= old(self).written_bits().push(
                    bit,
                ));
            }
        }
        match r {
            Ok(_) => Ok(()),
            Err(e) => Err(e),
        }
    }

    /// Writes a full byte to the buffer.
    ///
    /// If an error is returned, the buffer ran out of room and the error
    /// carries the width that was not written.
    pub fn write_byte(&mut self, byte: u8) -> (r: Result<(), Bits>)
        ensures
            old(self).spec_pos() == old(self).spec_data().len() ==> r == Err::<(), Bits>(Bits::B8)
                && *final(self) == *old(self),
            old(self).spec_pos() < old(self).spec_data().len() ==> final(self).spec_data().len()
                == old(self).spec_data().len() && final(self).spec_pos() == old(self).spec_pos()
                + 1,
            old(self).spec_pos() < old(self).spec_data().len() && old(self).spec_cursor()
                == Bits::B8 ==> final(self).spec_cursor() == Bits::B8,
            old(self).spec_pos() + 1 < old(self).spec_data().len() && old(self).spec_cursor()
                != Bits::B8 ==> final(self).spec_cursor() == old(self).spec_cursor(),
            old(self).spec_pos() < old(self).spec_data().len() && (old(self).spec_cursor()
                == Bits::B8 || old(self).spec_pos() + 1 < old(self).spec_data().len()) ==> ({
                &&& r == Ok::<(), Bits>(())
                &&& (old(self).clean() ==> final(self).written_bits() == old(self).written_bits()
                    + byte_bits(byte) && final(self).clean())
            }),
            old(self).spec_pos() + 1 == old(self).spec_data().len() && old(self).spec_cursor()
                != Bits::B8 ==> ({
                let c = old(self).spec_cursor().as_int();
                &&& r == Err::<(), Bits>(bits_of(8 - c))
                &&& final(self).spec_cursor() == Bits::B8
                &&& (old(self).clean() ==> final(self).written_bits() == old(self).written_bits()
                    + byte_bits(byte).take(c) && final(self).clean())
            }),
    {
        let r = self.write_bits(Bits::B8, byte);
        proof {
            crate::bitseq::lemma_byte_bits_low(byte);
            if old(self).spec_pos() + 1 < old(self).spec_data().len() && old(self).spec_cursor()
                != Bits::B8 {
                assert(bits_of(old(self).spec_cursor().as_int()) == old(self).spec_cursor());
            }
        }
        match r {
            Ok(_) => Ok(()),
            Err(e) => Err(e),
        }
    }

    /// Writes the low `bits` of `buf` to the buffer; the higher bits are
    /// ignored.
    ///
    /// A write that crosses into a fresh slot advances the buffer by
    /// exactly one slot; one that finds no room left reports the width
    /// that could not be written.
    #[verifier::rlimit(100)]
    pub fn write_bits(&mut self, bits: Bits, buf: u8) -> (r: Result<Bits, Bits>)
        ensures
            old(self).spec_pos() == old(self).spec_data().len() ==> r == Err::<Bits, Bits>(bits)
                && *final(self) == *old(self),
            old(self).spec_pos() < old(self).spec_data().len() && old(self).spec_cursor().as_int()
                >= bits.as_int() ==> ({
                let c = old(self).spec_cursor().as_int();
                let w = bits.as_int();
                &&& r == Ok::<Bits, Bits>(bits)
                &&& final(self).spec_data().len() == old(self).spec_data().len()
                &&& (c == w ==> final(self).spec_pos() == old(self).spec_pos() + 1 && final(self).spec_cursor() == Bits::B8)
                &&& (c > w ==> final(self).spec_pos() == old(self).spec_pos() && final(self).spec_cursor().as_int() == c - w)
                &&& (old(self).clean() ==> final(self).written_bits() == old(self).written_bits()
                    + low_bits(w, buf) && final(self).clean())
            }),
            old(self).spec_pos() < old(self).spec_data().len() && old(self).spec_cursor().as_int()
                < bits.as_int() ==> ({
                let c = old(self).spec_cursor().as_int();
                let w = bits.as_int();
                &&& final(self).spec_data().len() == old(self).spec_data().len()
                &&& (old(self).spec_pos() + 1 == old(self).spec_data().len() ==> ({
                    &&& r == Err::<Bits, Bits>(bits_of(w - c))
                    &&& final(self).spec_pos() == old(self).spec_pos() + 1
                    &&& final(self).spec_cursor() == Bits::B8
                    &&& (old(self).clean() ==> final(self).written_bits() == old(self).written_bits() + low_bits(w, buf).take(c) && final(self).clean())
                }))
                &&& (old(self).spec_pos() + 1 < old(self).spec_data().len() ==> ({
                    &&& r == Ok::<Bits, Bits>(bits)
                    &&& final(self).spec_pos() == old(self).spec_pos() + 1
                    &&& final(self).spec_cursor().as_int() == 8 - (w - c)
                    &&& (old(self).clean() ==> final(self).written_bits() == old(self).written_bits() + low_bits(w, buf) && final(self).clean())
                }))
            }),
    {
        proof {
            use_type_invariant(&*self);
        }
        if self.pos == self.data.len() {
            return Err(bits);
        }
        let c: u8 = self.cursor.get();
        let w: u8 = bits.get();
        let masked: u8 = buf & bits.mask();
        let ghost t0 = old(self).spec_data().take(old(self).spec_pos());
        if c >= w {
            let shift: u8 = c - w;
            let slot: u8 = self.data[self.pos];
            let nb: u8 = slot | (masked << shift);
            if shift == 0 {
                self.cursor = Bits::B8;
                self.data[self.pos] = nb;
                self.pos = self.pos + 1;
                proof {
                    assert(((masked << 0u8)) == masked) by (bit_vector);
                    if old(self).clean() {
                        lemma_write_fit(c, w, slot, buf);
                        assert(self.spec_data().take(self.spec_pos()) =~= t0.push(nb));
                        lemma_bytes_bits_push(t0, nb);
                        assert(byte_bits(nb) == byte_prefix(nb, 8 - (c - w)));
                        assert(self.written_bits() =~= old(self).written_bits() + low_bits(
                            w as int,
                            buf,
                        ));
                        assert forall|j: int|
                            self.spec_pos() < j < self.spec_data().len() implies self.spec_data()[j]
                            == 0 by {}
                        if self.spec_pos() < self.spec_data().len() {
                            assert(self.spec_data()[self.spec_pos()] == 0);
                            crate::bitseq::lemma_zero_blank(8);
                        }
                    }
                }
                Ok(bits)
            } else {
                self.cursor = match Bits::from_u8(shift) {
                    Some(b) => b,
                    None => Bits::B8,
                };
                self.data[self.pos] = nb;
                proof {
                    if old(self).clean() {
                        lemma_write_fit(c, w, slot, buf);
                        assert(self.spec_data().take(self.spec_pos()) =~= t0);
                        assert(self.written_bits() =~= old(self).written_bits() + low_bits(
                            w as int,
                            buf,
                        ));
                    }
                }
                Ok(bits)
            }
        } else {
            let rest: u8 = w - c;
            let rest_bits: Bits = match Bits::from_u8(rest) {
                Some(b) => b,
                None => Bits::B8,
            };
            let slot: u8 = self.data[self.pos];
            let nb: u8 = slot | (masked >> rest);
            self.cursor = Bits::B8;
            self.data[self.pos] = nb;
            self.pos = self.pos + 1;
            proof {
                if old(self).clean() {
                    lemma_write_part(c, w, slot, buf);
                    assert(self.spec_data().take(self.spec_pos()) =~= t0.push(nb));
                    lemma_bytes_bits_push(t0, nb);
                    assert(self.written_bits() =~= old(self).written_bits() + low_bits(
                        w as int,
                        buf,
                    ).take(c as int));
                }
            }
            if self.pos == self.data.len() {
                proof {
                    if old(self).clean() {
                        assert forall|j: int|
                            self.spec_pos() < j < self.spec_data().len() implies self.spec_data()[j]
                            == 0 by {}
                    }
                }
                Err(rest_bits)
            } else {
                let ghost mid = *self;
                let shift2: u8 = 8 - rest;
                let slot2: u8 = self.data[self.pos];
                let masked2: u8 = buf & rest_bits.mask();
                let nb2: u8 = slot2 | (masked2 << shift2);
                self.cursor = match Bits::from_u8(shift2) {
                    Some(b) => b,
                    None => Bits::B8,
                };
                self.data[self.pos] = nb2;
                proof {
                    if old(self).clean() {
                        assert(slot2 == 0);
                        crate::bitseq::lemma_zero_blank(8);
                        lemma_write_fit(8, rest, slot2, buf);
                        assert(byte_prefix(slot2, 0) =~= Seq::<bool>::empty());
                        assert(self.spec_data().take(self.spec_pos()) =~= mid.spec_data().take(
                            mid.spec_pos(),
                        ));
                        lemma_low_bits_skip(w as int, c as int, buf);
                        assert(low_bits(w as int, buf).take(c as int) + low_bits(
                            rest as int,
                            buf,
                        ) =~= low_bits(w as int, buf));
                        assert(byte_prefix(nb2, 8 - (8 - rest as int)) =~= byte_prefix(
                            nb2,
                            8 - self.spec_cursor().as_int(),
                        ));
                        assert(self.written_bits() =~= old(self).written_bits() + low_bits(
                            w as int,
                            buf,
                        ));
                    }
                }
                Ok(bits)
            }
        }
    }
}

/// Progressively fill a growing vector of bytes from high bits to low
/// bits.
///
/// Instead of running out of room, the writer allocates a new trailing
/// byte on demand; writing therefore never fails.
#[derive(Debug)]
pub struct WriteVec {
    /// The store of bits being written.
    vec: Vec<u8>,
    /// The room left in the trailing byte; full width means the next
    /// write starts a fresh byte.
    cursor: Bits,
}

impl WriteVec {
    /// The invariant: a partially filled byte exists and is zero below
    /// the cursor, so that writes land exactly.
    #[verifier::type_invariant]
    spec fn inv(&self) -> bool {
        self.cursor.as_int() < 8 ==> self.vec@.len() > 0 && self.vec@.last() & mask_val(
            self.cursor.as_int(),
        ) == 0
    }

    /// The bytes accumulated so far, the trailing one possibly partial.
    pub closed spec fn spec_vec(&self) -> Seq<u8> {
        self.vec@
    }

    /// The room left in the trailing byte.
    pub closed spec fn spec_cursor(&self) -> Bits {
        self.cursor
    }

    /// The bits taken in so far: the complete bytes, then the filled top
    /// of the trailing byte.
    pub open spec fn written_bits(&self) -> Seq<bool> {
        if self.spec_cursor() == Bits::B8 {
            bytes_bits(self.spec_vec())
        } else {
            bytes_bits(self.spec_vec().take(self.spec_vec().len() - 1)) + byte_prefix(
                self.spec_vec().last(),
                8 - self.spec_cursor().as_int(),
            )
        }
    }

    /// Creates a new empty writer.
    pub fn new() -> (r: Self)
        ensures
            r.spec_vec().len() == 0,
            r.spec_cursor() == Bits::B8,
            r.written_bits().len() == 0,
    {
        WriteVec { cursor: Bits::B8, vec: Vec::new() }
    }

    /// Returns the number of bits left to write before the writer is byte
    /// aligned.
    pub fn to_write(&self) -> (r: Option<Bits>)
        ensures
            self.spec_cursor() == Bits::B8 ==> r is None,
            self.spec_cursor() != Bits::B8 ==> r == Some(self.spec_cursor()),
    {
        match self.cursor {
            Bits::B8 => None,
            c => Some(c),
        }
    }

    /// Returns `true` if this writer is aligned to a byte.
    pub fn is_aligned(&self) -> (r: bool)
        ensures
            r == (self.spec_cursor() == Bits::B8),
    {
        match self.cursor {
            Bits::B8 => true,
            _ => false,
        }
    }

    /// Pads the trailing byte with zeros so that the writer is aligned.
    pub fn pad_zeros(&mut self)
        ensures
            final(self).spec_cursor() == Bits::B8,
            final(self).written_bits() == old(self).written_bits() + low_bits(
                if old(self).spec_cursor() == Bits::B8 {
                    0
                } else {
                    old(self).spec_cursor().as_int()
                },
                0,
            ),
    {
        let pad = match self.to_write() {
            Some(b) => b,
            None => {
                proof {
                    assert(old(self).written_bits() + low_bits(0, 0) =~= old(self).written_bits());
                }
                return ;
            },
        };
        let _ = self.write_bits(pad, 0);
    }

    /// Unwraps the inner vector if the writer is aligned.
    pub fn into_vec(self) -> (r: Result<Vec<u8>, UnalignedError<Self>>)
        ensures
            self.spec_cursor() == Bits::B8 ==> (r matches Ok(v) && v@ == self.spec_vec()
                && bytes_bits(v@) == self.written_bits()),
            self.spec_cursor() != Bits::B8 ==> (r matches Err(e) && e.inner() == self
                && e.width() == self.spec_cursor()),
    {
        match self.cursor {
            Bits::B8 => Ok(self.vec),
            misalign => Err(UnalignedError(self, misalign)),
        }
    }

    /// Writes a single bit to the vector; never fails.
    pub fn write_bit(&mut self, bit: bool) -> (r: Result<(), NoError>)
        ensures
            r == Ok::<(), NoError>(()),
            final(self).written_bits() == old(self).written_bits().push(bit),
            final(self).spec_cursor() == if old(self).spec_cursor().as_int() == 1 {
                Bits::B8
            } else {
                bits_of(old(self).spec_cursor().as_int() - 1)
            },
    {
        let v: u8 = if bit {
            1
        } else {
            0
        };
        let _ = self.write_bits(Bits::B1, v);
        proof {
            crate::bitseq::lemma_bit01();
            assert(low_bits(1, v) =~= seq![bit]);
            assert(old(self).written_bits() + seq![bit] =~= old(self).written_bits().push(bit));
        }
        Ok(())
    }

    /// Writes a full byte to the vector; never fails, and always comes
    /// back as aligned as it started.
    pub fn write_byte(&mut self, byte: u8) -> (r: Result<(), NoError>)
        ensures
            r == Ok::<(), NoError>(()),
            final(self).written_bits() == old(self).written_bits() + byte_bits(byte),
            final(self).spec_cursor() == old(self).spec_cursor(),
    {
        let _ = self.write_bits(Bits::B8, byte);
        proof {
            crate::bitseq::lemma_byte_bits_low(byte);
            if old(self).spec_cursor() != Bits::B8 {
                assert(bits_of(old(self).spec_cursor().as_int()) == old(self).spec_cursor());
            }
        }
        Ok(())
    }

    /// Writes the low `bits` of `buf` to the vector; the higher bits are
    /// ignored.  Never fails: a fresh byte is allocated whenever the
    /// trailing one fills up.
    #[verifier::rlimit(100)]
    pub fn write_bits(&mut self, bits: Bits, buf: u8) -> (r: Result<Bits, NoError>)
        ensures
            r == Ok::<Bits, NoError>(bits),
            final(self).written_bits() == old(self).written_bits() + low_bits(
                bits.as_int(),
                buf,
            ),
            final(self).written_bits().len() == old(self).written_bits().len() + bits.as_int(),
            final(self).spec_cursor() == ({
                let c = old(self).spec_cursor().as_int();
                let w = bits.as_int();
                if c >= w {
                    if c == w {
                        Bits::B8
                    } else {
                        bits_of(c - w)
                    }
                } else {
                    bits_of(8 - (w - c))
                }
            }),
    {
        proof {
            use_type_invariant(&*self);
        }
        let c: u8 = self.cursor.get();
        let w: u8 = bits.get();
        let masked: u8 = buf & bits.mask();
        let fresh: bool = c == 8;
        self.cursor = Bits::B8;
        let mut v: Vec<u8> = Vec::new();
        core::mem::swap(&mut v, &mut self.vec);
        if fresh {
            v.push(0);
        }
        let ghost base = old(self).written_bits();
        let ghost whole = v@.take(v@.len() - 1);
        proof {
            if fresh {
                assert(whole =~= old(self).spec_vec());
            }
            assert(base == bytes_bits(whole) + byte_prefix(v@.last(), 8 - c as int)) by {
                assert(byte_prefix(v@.last(), 0) =~= Seq::<bool>::empty());
                if fresh {
                    assert(base + Seq::<bool>::empty() =~= base);
                } else {
                    assert(bytes_bits(whole) + byte_prefix(v@.last(), 8 - c as int) =~= old(self).written_bits());
                }
            }
            if fresh {
                assert(0u8 & (((1u16 << (c as u16)) - 1) as u8) == 0) by (bit_vector);
            }
        }
        let last: usize = v.len() - 1;
        let slot: u8 = v[last];
        if c >= w {
            let shift: u8 = c - w;
            let nb: u8 = slot | (masked << shift);
            v[last] = nb;
            proof {
                lemma_write_fit(c, w, slot, buf);
                let mc: u8 = mask_val(c as int);
                let ms: u8 = mask_val(shift as int);
                assert(slot & mc == 0 ==> slot & ms == 0) by (bit_vector)
                    requires
                        mc == (((1u16 << (c as u16)) - 1) as u8),
                        ms == (((1u16 << (shift as u16)) - 1) as u8),
                        shift <= c <= 8,
                ;
            }
            core::mem::swap(&mut v, &mut self.vec);
            self.cursor = match Bits::from_u8(shift) {
                Some(b) => b,
                None => Bits::B8,
            };
            proof {
                if shift == 0 {
                    assert(self.spec_vec() =~= whole.push(nb));
                    lemma_bytes_bits_push(whole, nb);
                    assert(byte_bits(nb) == byte_prefix(nb, 8 - (c - w)));
                    assert(self.written_bits() =~= base + low_bits(w as int, buf));
                } else {
                    assert(self.spec_vec().take(self.spec_vec().len() - 1) =~= whole);
                    assert(self.written_bits() =~= base + low_bits(w as int, buf));
                }
            }
            Ok(bits)
        } else {
            let rest: u8 = w - c;
            let rest_bits: Bits = match Bits::from_u8(rest) {
                Some(b) => b,
                None => Bits::B8,
            };
            let nb: u8 = slot | (masked >> rest);
            v[last] = nb;
            v.push(0);
            let ghost mid = v@;
            proof {
                lemma_write_part(c, w, slot, buf);
                assert(mid.take(mid.len() - 1) =~= whole.push(nb));
                lemma_bytes_bits_push(whole, nb);
            }
            let last2: usize = v.len() - 1;
            let shift2: u8 = 8 - rest;
            let masked2: u8 = buf & rest_bits.mask();
            let nb2: u8 = masked2 << shift2;
            v[last2] = nb2;
            proof {
                let m2: u8 = mask_val(shift2 as int);
                assert(0u8 & m2 == 0) by (bit_vector);
                crate::bitseq::lemma_zero_blank(8);
                lemma_write_fit(8, rest, 0u8, buf);
                assert(nb2 == 0u8 | nb2) by (bit_vector);
                assert(nb2 & mask_val(shift2 as int) == 0);
            }
            core::mem::swap(&mut v, &mut self.vec);
            self.cursor = match Bits::from_u8(shift2) {
                Some(b) => b,
                None => Bits::B8,
            };
            proof {
                assert(self.spec_vec().take(self.spec_vec().len() - 1) =~= whole.push(nb));
                assert(byte_prefix(0u8, 0) =~= Seq::<bool>::empty());
                assert(byte_prefix(nb2, 8 - shift2 as int) == Seq::<bool>::empty() + low_bits(
                    rest as int,
                    buf,
                ));
                assert(Seq::<bool>::empty() + low_bits(rest as int, buf) =~= low_bits(
                    rest as int,
                    buf,
                ));
                lemma_low_bits_skip(w as int, c as int, buf);
                assert(low_bits(w as int, buf).take(c as int) + low_bits(rest as int, buf) =~=
                low_bits(w as int, buf));
                assert(self.written_bits() =~= base + low_bits(w as int, buf));
            }
            Ok(bits)
        }
    }
}

/// Progressively fill a row of byte slots handed out one at a time,
/// from high bits to low bits.
///
/// The slots are filled in order; a write that does not fit in the slots
/// left reports how many bits could not be written.
#[derive(Debug)]
pub struct WriteIter {
    /// The slots being filled, and how far they are filled.
    inner: WriteSlice,
}

impl WriteIter {
    /// The writer over the slots.
    pub closed spec fn spec_inner(&self) -> WriteSlice {
        self.inner
    }

    /// The slots, filled and unfilled alike.
    pub open spec fn spec_data(&self) -> Seq<u8> {
        self.spec_inner().spec_data()
    }

    /// How many slots are completely filled.
    pub open spec fn spec_pos(&self) -> int {
        self.spec_inner().spec_pos()
    }

    /// The room left in the current slot.
    pub open spec fn spec_cursor(&self) -> Bits {
        self.spec_inner().spec_cursor()
    }

    /// Clean ground: see [`WriteSlice::clean`].
    pub open spec fn clean(&self) -> bool {
        self.spec_inner().clean()
    }

    /// The bits taken in so far.
    pub open spec fn written_bits(&self) -> Seq<bool> {
        self.spec_inner().written_bits()
    }

    /// Creates a new writer filling the given slots in order.
    pub fn new(slots: Vec<u8>) -> (r: Self)
        ensures
            r.spec_data() == slots@,
            r.spec_pos() == 0,
            r.spec_cursor() == Bits::B8,
            r.written_bits().len() == 0,
            (forall|i: int| 0 <= i < slots@.len() ==> slots@[i] == 0) ==> r.clean(),
    {
        WriteIter { inner: WriteSlice::new(slots) }
    }

    /// Returns the number of bits left to write before the writer is byte
    /// aligned.
    pub fn to_write(&self) -> (r: Option<Bits>)
        ensures
            self.spec_cursor() == Bits::B8 ==> r is None,
            self.spec_cursor() != Bits::B8 ==> r == Some(self.spec_cursor()),
    {
        self.inner.to_write()
    }

    /// Returns `true` if this writer is aligned to a byte.
    pub fn is_aligned(&self) -> (r: bool)
        ensures
            r == (self.spec_cursor() == Bits::B8),
    {
        self.inner.is_aligned()
    }

    /// Pads the current slot with zeros so that the writer is aligned.
    pub fn pad_zeros(&mut self)
        ensures
            final(self).spec_cursor() == Bits::B8,
            final(self).spec_data().len() == old(self).spec_data().len(),
            old(self).clean() ==> final(self).written_bits() == old(self).written_bits()
                + low_bits(
                if old(self).spec_cursor() == Bits::B8 {
                    0
                } else {
                    old(self).spec_cursor().as_int()
                },
                0,
            ) && final(self).clean(),
    {
        self.inner.pad_zeros()
    }

    /// Unwraps the slots not yet touched, if the writer is aligned.
    pub fn into_iter(self) -> (r: Result<Vec<u8>, UnalignedError<Self>>)
        ensures
            self.spec_cursor() == Bits::B8 ==> (r matches Ok(v) && v@ == self.spec_data().skip(
                self.spec_pos(),
            )),
            self.spec_cursor() != Bits::B8 ==> (r matches Err(e) && e.inner() == self
                && e.width() == self.spec_cursor()),
    {
        let ghost me = self;
        proof {
            use_type_invariant(&self.inner);
        }
        match self.inner.into_slice() {
            Ok(Some(v)) => Ok(v),
            Ok(None) => {
                proof {
                    assert(Seq::<u8>::empty() =~= me.spec_data().skip(me.spec_pos()));
                }
                Ok(Vec::new())
            },
            Err(e) => {
                let m = e.misalign();
                Err(UnalignedError(WriteIter { inner: e.into_inner() }, m))
            },
        }
    }

    /// Writes a single bit to the slots.
    pub fn write_bit(&mut self, bit: bool) -> (r: Result<(), Bits>)
        ensures
            old(self).spec_pos() == old(self).spec_data().len() ==> r == Err::<(), Bits>(Bits::B1)
                && *final(self) == *old(self),
            old(self).spec_pos() < old(self).spec_data().len() ==> ({
                let c = old(self).spec_cursor().as_int();
                &&& r == Ok::<(), Bits>(())
                &&& final(self).spec_data().len() == old(self).spec_data().len()
                &&& (c == 1 ==> final(self).spec_pos() == old(self).spec_pos() + 1 && final(self).spec_cursor() == Bits::B8)
                &&& (c > 1 ==> final(self).spec_pos() == old(self).spec_pos() && final(self).spec_cursor().as_int() == c - 1)
                &&& ((old(self).clean() ==> final(self).written_bits() == old(self).written_bits().push(bit) && final(self).clean()))
            }),
    {
        self.inner.write_bit(bit)
    }

    /// Writes a full byte to the slots.
    pub fn write_byte(&mut self, byte: u8) -> (r: Result<(), Bits>)
        ensures
            old(self).spec_pos() == old(self).spec_data().len() ==> r == Err::<(), Bits>(Bits::B8)
                && *final(self) == *old(self),
            old(self).spec_pos() < old(self).spec_data().len() ==> final(self).spec_data().len()
                == old(self).spec_data().len() && final(self).spec_pos() == old(self).spec_pos()
                + 1,
            old(self).spec_pos() < old(self).spec_data().len() && old(self).spec_cursor()
                == Bits::B8 ==> final(self).spec_cursor() == Bits::B8,
            old(self).spec_pos() + 1 < old(self).spec_data().len() && old(self).spec_cursor()
                != Bits::B8 ==> final(self).spec_cursor() == old(self).spec_cursor(),
            old(self).spec_pos() < old(self).spec_data().len() && (old(self).spec_cursor()
                == Bits::B8 || old(self).spec_pos() + 1 < old(self).spec_data().len()) ==> ({
                &&& r == Ok::<(), Bits>(())
                &&& (old(self).clean() ==> final(self).written_bits() == old(self).written_bits()
                    + byte_bits(byte) && final(self).clean())
            }),
            old(self).spec_pos() + 1 == old(self).spec_data().len() && old(self).spec_cursor()
                != Bits::B8 ==> ({
                let c = old(self).spec_cursor().as_int();
                &&& r == Err::<(), Bits>(bits_of(8 - c))
                &&& final(self).spec_cursor() == Bits::B8
                &&& (old(self).clean() ==> final(self).written_bits() == old(self).written_bits()
                    + byte_bits(byte).take(c) && final(self).clean())
            }),
    {
        self.inner.write_byte(byte)
    }

    /// Writes the low `bits` of `buf` to the slots; the higher bits are
    /// ignored.
    ///
    /// A write that crosses into a fresh slot pulls exactly one slot; one
    /// that finds no slot left reports the width that could not be
    /// written.
    pub fn write_bits(&mut self, bits: Bits, buf: u8) -> (r: Result<Bits, Bits>)
        ensures
            old(self).spec_pos() == old(self).spec_data().len() ==> r == Err::<Bits, Bits>(bits)
                && *final(self) == *old(self),
            old(self).spec_pos() < old(self).spec_data().len() ==> final(self).spec_data().len()
                == old(self).spec_data().len(),
            old(self).spec_pos() < old(self).spec_data().len() && old(self).spec_cursor().as_int()
                >= bits.as_int() ==> ({
                let c = old(self).spec_cursor().as_int();
                let w = bits.as_int();
                &&& r == Ok::<Bits, Bits>(bits)
                &&& (c == w ==> final(self).spec_pos() == old(self).spec_pos() + 1 && final(self).spec_cursor() == Bits::B8)
                &&& (c > w ==> final(self).spec_pos() == old(self).spec_pos() && final(self).spec_cursor().as_int() == c - w)
                &&& (old(self).clean() ==> final(self).written_bits() == old(self).written_bits()
                    + low_bits(w, buf) && final(self).clean())
            }),
            old(self).spec_pos() < old(self).spec_data().len() && old(self).spec_cursor().as_int()
                < bits.as_int() && old(self).spec_pos() + 1 == old(self).spec_data().len() ==> ({
                let c = old(self).spec_cursor().as_int();
                let w = bits.as_int();
                &&& r == Err::<Bits, Bits>(bits_of(w - c))
                &&& (old(self).clean() ==> final(self).written_bits() == old(self).written_bits()
                    + low_bits(w, buf).take(c) && final(self).clean())
            }),
            old(self).spec_pos() < old(self).spec_data().len() && old(self).spec_cursor().as_int()
                < bits.as_int() && old(self).spec_pos() + 1 < old(self).spec_data().len() ==> ({
                let c = old(self).spec_cursor().as_int();
                let w = bits.as_int();
                &&& r == Ok::<Bits, Bits>(bits)
                &&& final(self).spec_cursor().as_int() == 8 - (w - c)
                &&& (old(self).clean() ==> final(self).written_bits() == old(self).written_bits()
                    + low_bits(w, buf) && final(self).clean())
            }),
    {
        self.inner.write_bits(bits, buf)
    }
}

impl BitWrite for WriteByte {
    type Error = Bits;

    /// The filled high bits of the byte.
    open spec fn written(&self) -> Seq<bool> {
        self.written_bits()
    }

    /// Clean ground below the cursor.
    open spec fn clean(&self) -> bool {
        self.wf()
    }

    fn is_aligned(&self) -> (r: bool) {
        WriteByte::is_aligned(self)
    }

    fn write_bit(&mut self, bit: bool) -> (r: Result<(), Bits>) {
        WriteByte::write_bit(self, bit)
    }

    fn write_byte(&mut self, byte: u8) -> (r: Result<(), Bits>) {
        let r = WriteByte::write_byte(self, byte);
        proof {
            if r is Ok && old(self).wf() {
                assert(old(self).written_bits() + byte_bits(byte) =~= byte_bits(byte));
            }
        }
        r
    }

    fn write_bits(&mut self, bits: Bits, buf: u8) -> (r: Result<Bits, Bits>) {
        WriteByte::write_bits(self, bits, buf)
    }
}

impl BitWrite for WriteSlice {
    type Error = Bits;

    /// The filled slots, then the filled top of the current slot.
    open spec fn written(&self) -> Seq<bool> {
        self.written_bits()
    }

    /// Clean ground from the write position on.
    open spec fn clean(&self) -> bool {
        WriteSlice::clean(self)
    }

    fn is_aligned(&self) -> (r: bool) {
        proof {
            use_type_invariant(self);
            crate::bit_read::lemma_aligned_width(0, self.spec_data().take(self.spec_pos()));
        }
        WriteSlice::is_aligned(self)
    }

    fn write_bit(&mut self, bit: bool) -> (r: Result<(), Bits>) {
        proof {
            use_type_invariant(&*self);
        }
        WriteSlice::write_bit(self, bit)
    }

    fn write_byte(&mut self, byte: u8) -> (r: Result<(), Bits>) {
        proof {
            use_type_invariant(&*self);
        }
        WriteSlice::write_byte(self, byte)
    }

    fn write_bits(&mut self, bits: Bits, buf: u8) -> (r: Result<Bits, Bits>) {
        proof {
            use_type_invariant(&*self);
        }
        WriteSlice::write_bits(self, bits, buf)
    }
}

impl BitWrite for WriteIter {
    type Error = Bits;

    /// The filled slots, then the filled top of the current slot.
    open spec fn written(&self) -> Seq<bool> {
        self.written_bits()
    }

    /// Clean ground from the write position on.
    open spec fn clean(&self) -> bool {
        WriteIter::clean(self)
    }

    fn is_aligned(&self) -> (r: bool) {
        proof {
            use_type_invariant(&self.inner);
            crate::bit_read::lemma_aligned_width(
                0,
                self.spec_inner().spec_data().take(self.spec_inner().spec_pos()),
            );
        }
        WriteIter::is_aligned(self)
    }

    fn write_bit(&mut self, bit: bool) -> (r: Result<(), Bits>) {
        proof {
            use_type_invariant(&self.inner);
        }
        WriteIter::write_bit(self, bit)
    }

    fn write_byte(&mut self, byte: u8) -> (r: Result<(), Bits>) {
        proof {
            use_type_invariant(&self.inner);
        }
        WriteIter::write_byte(self, byte)
    }

    fn write_bits(&mut self, bits: Bits, buf: u8) -> (r: Result<Bits, Bits>) {
        proof {
            use_type_invariant(&self.inner);
        }
        WriteIter::write_bits(self, bits, buf)
    }
}

/// The error type of a writer that cannot fail: no function of this
/// crate returns it.
#[derive(Clone, Copy, Debug, PartialEq, Eq, Structural)]
pub struct NoError;

impl BitWrite for WriteVec {
    type Error = NoError;

    /// The accumulated bytes, the trailing one possibly partial.
    open spec fn written(&self) -> Seq<bool> {
        self.written_bits()
    }

    /// A growing vector is always clean ground.
    open spec fn clean(&self) -> bool {
        true
    }

    fn is_aligned(&self) -> (r: bool) {
        proof {
            crate::bit_read::lemma_aligned_width(0, self.spec_vec());
        }
        WriteVec::is_aligned(self)
    }

    fn write_bit(&mut self, bit: bool) -> (r: Result<(), NoError>) {
        WriteVec::write_bit(self, bit)
    }

    fn write_byte(&mut self, byte: u8) -> (r: Result<(), NoError>) {
        WriteVec::write_byte(self, byte)
    }

    fn write_bits(&mut self, bits: Bits, buf: u8) -> (r: Result<Bits, NoError>) {
        WriteVec::write_bits(self, bits, buf)
    }
}

} // verus!
