//! Bitwise writing to a byte stream collaborator.

use vstd::prelude::*;
use crate::bit_write::{BitWrite, WriteByte};
use crate::bits::{width_val, Bits};
use crate::bitseq::{
    byte_bits, bytes_bits, lemma_byte_bits_low, lemma_bytes_bits_push, low_bits,
};
use crate::stream::{ByteSink, StreamError};
use crate::UnalignedError;

verus! {

/// Wraps a byte stream and writes to it bitwise, high bits first.
///
/// Bits collect in an embedded [`WriteByte`]; each completed byte is
/// pushed to the stream with exactly one stream write.
#[derive(Debug)]
pub struct WriteIO<W> where W: ByteSink {
    /// The current byte being filled.
    buffer: WriteByte,
    /// The stream of bytes to write to.
    writer: W,
}

impl<W> WriteIO<W> where W: ByteSink {
    /// The embedded byte cursor.
    pub closed spec fn spec_buf(&self) -> WriteByte {
        self.buffer
    }

    /// The underlying stream.
    pub closed spec fn spec_writer(&self) -> W {
        self.writer
    }

    /// The bits taken in so far: the bytes the stream holds, then the
    /// filled top of the byte still being collected.
    pub open spec fn written_bits(&self) -> Seq<bool> {
        bytes_bits(self.spec_writer().sunk()) + self.spec_buf().written_bits()
    }

    /// A well-formed writer keeps the unwritten bits of its pending byte
    /// zero.
    pub open spec fn wf(&self) -> bool {
        self.spec_buf().wf()
    }

    /// Constructs a new `WriteIO` over the stream.
    pub fn new(writer: W) -> (r: Self)
        ensures
            r.spec_writer() == writer,
            r.spec_buf().spec_cursor() == Some(Bits::B8),
            r.wf(),
            r.written_bits() == bytes_bits(writer.sunk()),
    {
        let r = WriteIO { writer, buffer: WriteByte::empty() };
        proof {
            assert(r.written_bits() =~= bytes_bits(r.spec_writer().sunk()));
        }
        r
    }

    /// The number of bits before the writer is byte aligned.
    pub fn to_write(&self) -> (r: Option<Bits>)
        ensures
            self.spec_buf().spec_cursor() == Some(Bits::B8) ==> r is None,
            self.spec_buf().spec_cursor() != Some(Bits::B8) ==> r == self.spec_buf().spec_cursor(),
    {
        match self.buffer.to_write() {
            Some(Bits::B8) => None,
            other => other,
        }
    }

    /// Returns `true` if this writer is aligned to a byte, with nothing
    /// collected and nothing waiting to be flushed.
    pub fn is_aligned(&self) -> (r: bool)
        ensures
            r == (self.spec_buf().spec_cursor() == Some(Bits::B8)),
    {
        match self.buffer.to_write() {
            Some(Bits::B8) => true,
            _ => false,
        }
    }

    /// Attempts to push the pending byte to the stream if it is full.
    ///
    /// On success the embedded cursor is fresh again; the bits taken in
    /// are unchanged either way, only their place moves.
    pub fn flush(&mut self) -> (r: Result<(), StreamError>)
        ensures
            old(self).wf() ==> final(self).wf() && final(self).written_bits() == old(self).written_bits(),
            old(self).spec_buf().spec_cursor() is Some ==> r == Ok::<(), StreamError>(()) && *final(self) == *old(self),
            old(self).spec_buf().spec_cursor() is None && r is Ok ==> final(self).spec_buf().spec_cursor() == Some(Bits::B8) && final(self).spec_writer().sunk() == old(self).spec_writer().sunk().push(old(self).spec_buf().spec_buffer()),
            r matches Err(_) ==> final(self).spec_buf() == old(self).spec_buf() && final(self).spec_writer().sunk() == old(self).spec_writer().sunk(),
    {
        let full: bool = match self.buffer.to_write() {
            None => true,
            Some(_) => false,
        };
        if full {
            let b: u8 = self.buffer.byte();
            match self.writer.write_one(b) {
                Ok(_) => {
                    let _ = self.buffer.reset();
                    proof {
                        if old(self).wf() {
                            lemma_bytes_bits_push(old(self).spec_writer().sunk(), b);
                            lemma_byte_bits_low(b);
                            assert(old(self).spec_buf().written_bits() =~= byte_bits(b));
                            assert(self.written_bits() =~= old(self).written_bits());
                        }
                    }
                    Ok(())
                },
                Err(e) => Err(e),
            }
        } else {
            Ok(())
        }
    }

    /// Clears the internal buffer, returning its current state.
    pub fn clear_buffer(&mut self) -> (r: WriteByte)
        ensures
            r == old(self).spec_buf(),
            final(self).spec_writer() == old(self).spec_writer(),
            final(self).spec_buf().spec_cursor() == Some(Bits::B8),
            final(self).wf(),
    {
        let mut fresh: WriteByte = WriteByte::empty();
        core::mem::swap(&mut fresh, &mut self.buffer);
        fresh
    }

    /// Pads the pending byte with zeros so that the writer is aligned; a
    /// byte completed by the padding is pushed to the stream.
    pub fn pad_zeros(&mut self)
        ensures
            old(self).wf() ==> final(self).wf() && final(self).written_bits() == old(self).written_bits() + low_bits(
                ({
                    let c = width_val(old(self).spec_buf().spec_cursor());
                    if c == 8 {
                        0
                    } else {
                        c
                    }
                }),
                0,
            ),
    {
        let pad = match self.to_write() {
            Some(b) => b,
            None => {
                proof {
                    assert(old(self).written_bits() + low_bits(0, 0) =~= old(self).written_bits());
                }
                return ;
            },
        };
        let _ = self.write_bits(pad, 0);
        proof {
            if old(self).wf() {
                let c = width_val(old(self).spec_buf().spec_cursor());
                assert(low_bits(c, 0).take(c) =~= low_bits(c, 0));
            }
        }
    }

    /// Unwraps the inner stream if nothing is pending.
    ///
    /// A full byte not yet pushed is flushed first; if that flush fails,
    /// the error reports a misalignment of the full width.
    pub fn into_writer(self) -> (r: Result<W, UnalignedError<Self>>)
        ensures
            self.spec_buf().spec_cursor() == Some(Bits::B8) ==> r == Ok::<W, UnalignedError<Self>>(
                self.spec_writer(),
            ),
            self.spec_buf().spec_cursor() matches Some(m) ==> (m != Bits::B8 ==> (r matches Err(
                e,
            ) && e.width() == m && e.inner() == self)),
            self.spec_buf().spec_cursor() is None ==> ((r matches Ok(w2) && w2.sunk()
                == self.spec_writer().sunk().push(self.spec_buf().spec_buffer())) || (
            r matches Err(e) && e.width() == Bits::B8)),
    {
        let mut me = self;
        let full: bool = match me.buffer.to_write() {
            None => true,
            Some(_) => false,
        };
        if full {
            let _ = me.flush();
        }
        match me.buffer.to_write() {
            Some(Bits::B8) => Ok(me.writer),
            Some(misalign) => Err(UnalignedError(me, misalign)),
            None => Err(UnalignedError(me, Bits::B8)),
        }
    }

    /// Writes a single bit to the stream.
    pub fn write_bit(&mut self, bit: bool) -> (r: Result<(), (Option<Bits>, StreamError)>)
        ensures
            old(self).wf() ==> final(self).wf(),
            (r matches Ok(_) && old(self).wf()) ==> final(self).written_bits() == old(self).written_bits().push(bit),
            width_val(old(self).spec_buf().spec_cursor()) >= 2 ==> r is Ok && final(self).spec_writer() == old(self).spec_writer(),
    {
        let v: u8 = if bit {
            1
        } else {
            0
        };
        let r = match self.write_bits(Bits::B1, v) {
            Ok(_) => Ok(()),
            Err(e) => Err(e),
        };
        proof {
            if r is Ok && old(self).wf() {
                crate::bitseq::lemma_bit01();
                assert(low_bits(1, v) =~= seq![bit]);
                assert(old(self).written_bits() + seq![bit] =~= old(self).written_bits().push(
                    bit,
                ));
            }
        }
        r
    }

    /// Writes a full byte to the stream.
    pub fn write_byte(&mut self, byte: u8) -> (r: Result<(), (Option<Bits>, StreamError)>)
        ensures
            old(self).wf() ==> final(self).wf(),
            (r matches Ok(_) && old(self).wf()) ==> final(self).written_bits() == old(self).written_bits() + byte_bits(byte),
    {
        let r = match self.write_bits(Bits::B8, byte) {
            Ok(_) => Ok(()),
            Err(e) => Err(e),
        };
        proof {
            lemma_byte_bits_low(byte);
        }
        r
    }

    /// Writes the low `bits` of `buf` to the stream; the higher bits are
    /// ignored.
    ///
    /// Completing a byte triggers exactly one stream write.  On a stream
    /// error the width that crossed into the failed byte is reported:
    /// `None` when every bit was taken in and only the flush failed, or
    /// the unwritten width when the stream would not take a fresh byte.
    #[verifier::rlimit(100)]
    pub fn write_bits(&mut self, bits: Bits, buf: u8) -> (r: Result<
        Bits,
        (Option<Bits>, StreamError),
    >)
        ensures
            old(self).wf() ==> final(self).wf(),
            r matches Ok(n) ==> n == bits,
            (r matches Ok(_) && old(self).wf()) ==> final(self).written_bits() == old(self).written_bits() + low_bits(bits.as_int(), buf),
            (r matches Err(p) && p.0 is None && old(self).wf()) ==> final(self).written_bits()
                == old(self).written_bits() + low_bits(bits.as_int(), buf),
            r matches Err(p) ==> (p.0 matches Some(t) ==> (old(self).wf() ==> t.as_int()
                <= bits.as_int() && final(self).written_bits() == old(self).written_bits()
                + low_bits(bits.as_int(), buf).take(bits.as_int() - t.as_int()))),
            r matches Err(p) ==> (p.0 matches Some(t) ==> t.as_int() == bits.as_int() - width_val(
                old(self).spec_buf().spec_cursor(),
            )),
            width_val(old(self).spec_buf().spec_cursor()) > bits.as_int() ==> r is Ok && final(self).spec_writer() == old(self).spec_writer(),
            r matches Err(_) ==> final(self).spec_buf().spec_cursor() is None && final(self).spec_writer().sunk() == old(self).spec_writer().sunk(),
    {
        match self.buffer.write_bits(bits, buf) {
            Ok(n) => {
                proof {
                    if old(self).wf() {
                        assert((bytes_bits(old(self).spec_writer().sunk()) + (old(self).spec_buf().written_bits() + low_bits(bits.as_int(), buf))) =~= old(self).written_bits() + low_bits(bits.as_int(), buf));
                    }
                }
                match self.flush() {
                    Ok(_) => Ok(n),
                    Err(e) => Err((None, e)),
                }
            },
            Err(to_write) => {
                proof {
                    if width_val(old(self).spec_buf().spec_cursor()) == 0 {
                        assert(low_bits(bits.as_int(), buf).take(0) =~= Seq::<bool>::empty());
                        assert(old(self).written_bits() + Seq::<bool>::empty() =~= old(self).written_bits());
                    }
                }
                match self.flush() {
                    Err(e) => Err((Some(to_write), e)),
                    Ok(_) => {
                        if self.is_aligned() {
                            let ghost before = *self;
                            let r2 = self.buffer.write_bits(to_write, buf);
                            proof {
                                if old(self).wf() {
                                    let w = bits.as_int();
                                    let c = width_val(old(self).spec_buf().spec_cursor());
                                    let t = to_write.as_int();
                                    assert(self.written_bits() =~= before.written_bits()
                                        + low_bits(t, buf));
                                    if c > 0 {
                                        crate::bitseq::lemma_low_bits_skip(w, c, buf);
                                        assert(low_bits(w, buf).take(c) + low_bits(t, buf) =~=
                                        low_bits(w, buf));
                                        assert(before.written_bits() =~= old(self).written_bits()
                                            + low_bits(w, buf).take(c));
                                    } else {
                                        assert(before.written_bits() =~= old(self).written_bits());
                                    }
                                    assert(self.written_bits() =~= old(self).written_bits()
                                        + low_bits(w, buf));
                                }
                            }
                            match r2 {
                                Ok(_) => Ok(bits),
                                Err(_) => Err((Some(to_write), StreamError)),
                            }
                        } else {
                            Err((Some(to_write), StreamError))
                        }
                    },
                }
            },
        }
    }
}

impl<W> BitWrite for WriteIO<W> where W: ByteSink {
    type Error = (Option<Bits>, StreamError);

    /// The bytes the stream holds, then the pending top of the current
    /// byte.
    open spec fn written(&self) -> Seq<bool> {
        self.written_bits()
    }

    /// Clean ground in the pending byte.
    open spec fn clean(&self) -> bool {
        self.wf()
    }

    fn is_aligned(&self) -> (r: bool) {
        proof {
            crate::bit_read::lemma_aligned_width(
                8 - width_val(self.spec_buf().spec_cursor()),
                self.spec_writer().sunk(),
            );
        }
        WriteIO::is_aligned(self)
    }

    fn write_bit(&mut self, bit: bool) -> (r: Result<(), (Option<Bits>, StreamError)>) {
        WriteIO::write_bit(self, bit)
    }

    fn write_byte(&mut self, byte: u8) -> (r: Result<(), (Option<Bits>, StreamError)>) {
        WriteIO::write_byte(self, byte)
    }

    fn write_bits(&mut self, bits: Bits, buf: u8) -> (r: Result<
        Bits,
        (Option<Bits>, StreamError),
    >) {
        WriteIO::write_bits(self, bits, buf)
    }
}

} // verus!
