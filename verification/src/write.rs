//! Bitwise writing to a buffered byte sink.

use vstd::prelude::*;
use crate::bits::{width_val, Bits};
use crate::bitseq::{
    byte_bits, byte_prefix, bytes_bits, lemma_byte_bits_low, lemma_bytes_bits_push,
    lemma_low_bits_skip, lemma_write_fit, lemma_write_part, low_bits, mask_val,
};
use crate::stream::{ByteSink, StreamError};

verus! {

/// Allows bitwise writing to an inner byte sink.
///
/// Bits collect in an internal byte; each completed byte is pushed to the
/// sink at once, so the writer holds at most one byte of lookahead.
#[derive(Debug)]
pub struct BitWrite<W> where W: ByteSink {
    /// The internal writer.
    inner: W,
    /// The buffer of bits pending writing.
    buffer: u8,
    /// The room left in the buffer; `None` when the buffer is full but
    /// could not yet be pushed to the sink.
    cursor: Option<Bits>,
}

/// An error returned if the internal buffer cannot be flushed when
/// calling `into_inner` on a [`BitWrite`].
#[derive(Debug)]
pub struct IntoInnerError<W> {
    /// The writer whose flush failed.
    inner: W,
    /// The error the sink reported.
    error: StreamError,
}

impl<W> IntoInnerError<W> {
    /// The writer carried by the error.
    pub closed spec fn spec_writer(&self) -> W {
        self.inner
    }

    /// Returns the inner writer.
    pub fn into_inner(self) -> (r: W)
        ensures
            r == self.spec_writer(),
    {
        self.inner
    }

    /// The error the sink reported.
    pub fn error(&self) -> (r: StreamError)
    {
        self.error
    }
}

impl<W> BitWrite<W> where W: ByteSink {
    /// The byte being filled.
    pub closed spec fn spec_buffer(&self) -> u8 {
        self.buffer
    }

    /// The room left in the byte being filled.
    pub closed spec fn spec_cursor(&self) -> Option<Bits> {
        self.cursor
    }

    /// The underlying sink.
    pub closed spec fn spec_writer(&self) -> W {
        self.inner
    }

    /// The bits taken in so far: the bytes the sink holds, then the
    /// filled top of the pending byte.
    pub open spec fn written_bits(&self) -> Seq<bool> {
        bytes_bits(self.spec_writer().sunk()) + byte_prefix(
            self.spec_buffer(),
            8 - width_val(self.spec_cursor()),
        )
    }

    /// A well-formed writer keeps the unwritten bits of its pending byte
    /// zero.
    pub open spec fn wf(&self) -> bool {
        self.spec_buffer() & mask_val(width_val(self.spec_cursor())) == 0
    }

    /// Starts writing to the sink in a bitwise fashion.
    pub fn new(inner: W) -> (r: Self)
        ensures
            r.spec_writer() == inner,
            r.spec_cursor() == Some(Bits::B8),
            r.wf(),
            r.written_bits() == bytes_bits(inner.sunk()),
    {
        let r = BitWrite { inner, buffer: 0, cursor: Some(Bits::B8) };
        proof {
            crate::bitseq::lemma_zero_blank(8);
            assert(r.written_bits() =~= bytes_bits(r.spec_writer().sunk()));
        }
        r
    }

    /// Writes the internal buffer as is to the inner writer.
    fn flush_buf(&mut self) -> (r: Result<(), StreamError>)
        ensures
            r matches Ok(_) ==> ({
                &&& final(self).spec_writer().sunk() == old(self).spec_writer().sunk().push(
                    old(self).spec_buffer(),
                )
                &&& final(self).spec_buffer() == 0
                &&& final(self).spec_cursor() == old(self).spec_cursor()
            }),
            r matches Err(_) ==> final(self).spec_buffer() == old(self).spec_buffer() && final(self).spec_cursor() == old(self).spec_cursor() && final(self).spec_writer().sunk() == old(self).spec_writer().sunk(),
    {
        match self.inner.write_one(self.buffer) {
            Ok(_) => {
                self.buffer = 0;
                Ok(())
            },
            Err(e) => Err(e),
        }
    }

    /// Checks if the buffer has been filled and if so, flushes and resets
    /// the writer state for the next byte.
    fn check_cursor(&mut self) -> (r: Result<(), StreamError>)
        ensures
            old(self).spec_cursor() is Some ==> r == Ok::<(), StreamError>(()) && *final(self)
                == *old(self),
            old(self).spec_cursor() is None && r is Ok ==> ({
                &&& final(self).spec_cursor() == Some(Bits::B8)
                &&& final(self).spec_buffer() == 0
                &&& final(self).spec_writer().sunk() == old(self).spec_writer().sunk().push(
                    old(self).spec_buffer(),
                )
            }),
            r matches Err(_) ==> final(self).spec_buffer() == old(self).spec_buffer() && final(self).spec_cursor() == old(self).spec_cursor() && final(self).spec_writer().sunk() == old(self).spec_writer().sunk(),
            old(self).wf() ==> final(self).wf() && final(self).written_bits() == old(self).written_bits(),
    {
        let full: bool = match self.cursor {
            None => true,
            Some(_) => false,
        };
        if full {
            let ghost b = self.spec_buffer();
            match self.flush_buf() {
                Ok(_) => {
                    self.cursor = Some(Bits::B8);
                    proof {
                        crate::bitseq::lemma_zero_blank(8);
                        if old(self).wf() {
                            lemma_bytes_bits_push(old(self).spec_writer().sunk(), b);
                            lemma_byte_bits_low(b);
                            assert(byte_prefix(b, 8) =~= byte_bits(b));
                            assert(self.written_bits() =~= old(self).written_bits());
                        }
                    }
                    Ok(())
                },
                Err(e) => Err(e),
            }
        } else {
            Ok(())
        }
    }

    /// Returns `true` if the writer is byte aligned.
    pub fn aligned(&self) -> (r: bool)
        ensures
            r == (self.spec_cursor() == Some(Bits::B8)),
    {
        match self.cursor {
            Some(Bits::B8) => true,
            _ => false,
        }
    }

    /// Returns the number of bits which need to be written before the
    /// writer is byte aligned; zero when it already is.
    pub fn to_write(&self) -> (r: u8)
        ensures
            self.spec_cursor() matches Some(c) ==> (c != Bits::B8 ==> r == c.as_int()),
            self.spec_cursor() == Some(Bits::B8) || self.spec_cursor() is None ==> r == 0,
    {
        match self.cursor {
            Some(Bits::B8) => 0,
            Some(c) => c.get(),
            None => 0,
        }
    }

    /// Writes a bit to the internal writer.
    ///
    /// With at least two bits of room the byte cannot complete, no sink
    /// call happens, and the write must succeed.
    pub fn write_bit(&mut self, bit: bool) -> (r: Result<(), StreamError>)
        ensures
            (r matches Ok(_) && old(self).wf()) ==> (final(self).written_bits() == old(self).written_bits().push(bit) && final(self).wf()),
            old(self).wf() ==> final(self).wf(),
            old(self).spec_cursor() matches Some(c) ==> (c.as_int() >= 2 ==> r == Ok::<
                (),
                StreamError,
            >(()) && final(self).spec_writer().sunk() == old(self).spec_writer().sunk()),
    {
        let v: u8 = if bit {
            1
        } else {
            0
        };
        let r = self.write_bits(v, 1);
        proof {
            if r is Ok && old(self).wf() {
                crate::bitseq::lemma_bit01();
                assert(low_bits(1, v) =~= seq![bit]);
                assert(old(self).written_bits() + seq![bit] =~= old(self).written_bits().push(
                    bit,
                ));
            }
        }
        r
    }

    /// Writes the low `bits` of `buffer` to the internal writer; the
    /// higher bits are ignored, and a width of zero writes nothing.
    ///
    /// Completing a byte pushes it to the sink at once; on a sink error
    /// some leading part of the requested bits may have been taken in,
    /// and the rest is dropped.
    #[verifier::rlimit(100)]
    pub fn write_bits(&mut self, buffer: u8, bits: u8) -> (r: Result<(), StreamError>)
        requires
            bits <= 8,
        ensures
            bits == 0 ==> r == Ok::<(), StreamError>(()) && *final(self) == *old(self),
            old(self).wf() ==> final(self).wf(),
            old(self).spec_cursor() matches Some(c) ==> (0 < bits < c.as_int() ==> r == Ok::<
                (),
                StreamError,
            >(()) && final(self).spec_writer().sunk() == old(self).spec_writer().sunk()),
            (r matches Ok(_) && old(self).wf()) ==> final(self).written_bits() == old(self).written_bits() + low_bits(bits as int, buffer),
            (r matches Err(_) && old(self).spec_cursor() is Some) ==> final(self).spec_cursor()
                is None && final(self).spec_writer().sunk() == old(self).spec_writer().sunk(),
            (r matches Err(_) && old(self).spec_cursor() is None) ==> final(self).spec_cursor()
                is None && (final(self).spec_writer().sunk() == old(self).spec_writer().sunk()
                || final(self).spec_writer().sunk() == old(self).spec_writer().sunk().push(
                old(self).spec_buffer(),
            )),
            (r matches Err(_) && old(self).wf()) ==> (match old(self).spec_cursor() {
                Some(c) => c.as_int() <= bits && final(self).written_bits() == old(self).written_bits() + low_bits(bits as int, buffer).take(c.as_int()),
                None => final(self).written_bits() == old(self).written_bits() || final(self).written_bits() == old(self).written_bits() + low_bits(bits as int, buffer),
            }),
    {
        if bits == 0 {
            return Ok(());
        }
        let ghost pre = *self;
        match self.check_cursor() {
            Ok(_) => (),
            Err(e) => {
                proof {
                    if old(self).wf() {
                        assert(low_bits(bits as int, buffer).take(0) =~= Seq::<bool>::empty());
                        assert(old(self).written_bits() + Seq::<bool>::empty() =~= old(self).written_bits());
                    }
                }
                return Err(e);
            },
        }
        let ghost mid = *self;
        let c: u8 = match self.cursor {
            Some(b) => b.get(),
            None => 8,
        };
        let w: u8 = bits;
        let wb: Bits = match Bits::from_u8(w) {
            Some(b) => b,
            None => Bits::B8,
        };
        let masked: u8 = buffer & wb.mask();
        if c >= w {
            let shift: u8 = c - w;
            self.cursor = Bits::from_u8(shift);
            self.buffer = self.buffer | (masked << shift);
            proof {
                if old(self).wf() {
                    lemma_write_fit(c, w, mid.spec_buffer(), buffer);
                    assert(self.written_bits() =~= mid.written_bits() + low_bits(
                        w as int,
                        buffer,
                    ));
                }
            }
            let r = self.check_cursor();
            proof {
                if old(self).wf() {
                    assert(low_bits(w as int, buffer).take(w as int) =~= low_bits(
                        w as int,
                        buffer,
                    ));
                }
            }
            match r {
                Ok(_) => Ok(()),
                Err(e) => Err(e),
            }
        } else {
            let rest: u8 = w - c;
            self.cursor = None;
            self.buffer = self.buffer | (masked >> rest);
            proof {
                if old(self).wf() {
                    lemma_write_part(c, w, mid.spec_buffer(), buffer);
                    assert(self.buffer & (((1u16 << 0u16) - 1) as u8) == 0) by (bit_vector);
                    assert(byte_prefix(self.spec_buffer(), 8) =~= self.written_bits().skip(
                        bytes_bits(self.spec_writer().sunk()).len() as int,
                    ));
                    assert(self.written_bits() =~= mid.written_bits() + low_bits(
                        w as int,
                        buffer,
                    ).take(c as int));
                }
            }
            let ghost half = *self;
            match self.check_cursor() {
                Ok(_) => (),
                Err(e) => {
                    return Err(e);
                },
            }
            let e2: u8 = 8 - rest;
            let nb2: u8 = masked << e2;
            self.cursor = Bits::from_u8(e2);
            self.buffer = nb2;
            proof {
                if old(self).wf() {
                    let rb: u8 = mask_val(rest as int) as u8;
                    assert(nb2 == 0u8 | ((buffer & (((1u16 << (rest as u16)) - 1) as u8)) << e2))
                        by (bit_vector)
                        requires
                            nb2 == (buffer & (((1u16 << (w as u16)) - 1) as u8)) << e2,
                            e2 == 8 - rest,
                            0 < rest < w <= 8,
                    ;
                    crate::bitseq::lemma_zero_blank(8);
                    lemma_write_fit(8, rest, 0u8, buffer);
                    assert(byte_prefix(0u8, 0) =~= Seq::<bool>::empty());
                    assert(byte_prefix(nb2, 8 - e2 as int) == Seq::<bool>::empty() + low_bits(
                        rest as int,
                        buffer,
                    ));
                    assert(Seq::<bool>::empty() + low_bits(rest as int, buffer) =~= low_bits(
                        rest as int,
                        buffer,
                    ));
                    lemma_low_bits_skip(w as int, c as int, buffer);
                    assert(low_bits(w as int, buffer).take(c as int) + low_bits(
                        rest as int,
                        buffer,
                    ) =~= low_bits(w as int, buffer));
                    assert(self.written_bits() =~= old(self).written_bits() + low_bits(
                        w as int,
                        buffer,
                    ));
                }
            }
            Ok(())
        }
    }

    /// Returns the inner writer, flushing any pending bits in the buffer
    /// right padded with zeros.
    pub fn into_inner(self) -> (r: Result<W, IntoInnerError<W>>)
        ensures
            self.spec_cursor() == Some(Bits::B8) ==> r == Ok::<W, IntoInnerError<W>>(
                self.spec_writer(),
            ),
            self.spec_cursor() != Some(Bits::B8) ==> ((r matches Ok(w2) && w2.sunk()
                == self.spec_writer().sunk().push(self.spec_buffer())) || (r matches Err(e)
                && e.spec_writer().sunk() == self.spec_writer().sunk())),
    {
        let mut me = self;
        let aligned: bool = me.aligned();
        if !aligned {
            match me.flush_buf() {
                Ok(_) => (),
                Err(error) => {
                    return Err(IntoInnerError { inner: me.inner, error });
                },
            }
        }
        Ok(me.inner)
    }
}

} // verus!
