//! Bitwise reading from a byte stream collaborator.

use vstd::prelude::*;
use crate::bit_read::{BitRead, ReadByte};
use crate::bits::{width_val, Bits};
use crate::bitseq::{
    byte_bits, bytes_bits, lemma_byte_bits_low, lemma_byte_suffix, lemma_bytes_bits_len,
    lemma_splice, low_bits,
};
use crate::stream::{ByteSource, StreamError};
use crate::UnalignedError;

verus! {

/// Wraps a byte stream and reads from it bitwise, high bits first.
///
/// One byte at a time is pulled from the stream into an embedded
/// [`ReadByte`]; a request that crosses a byte boundary performs exactly
/// one stream read.
#[derive(Debug)]
pub struct ReadIO<R> where R: ByteSource {
    /// The current byte being read.
    buffer: ReadByte,
    /// The stream of bytes to read.
    reader: R,
}

impl<R> ReadIO<R> where R: ByteSource {
    /// The embedded byte cursor.
    pub closed spec fn spec_buf(&self) -> ReadByte {
        self.buffer
    }

    /// The underlying stream.
    pub closed spec fn spec_reader(&self) -> R {
        self.reader
    }

    /// The bits still to be handed out: what is left of the current byte,
    /// then the bits of the bytes the stream still has.
    pub open spec fn pending_bits(&self) -> Seq<bool> {
        self.spec_buf().pending_bits() + bytes_bits(self.spec_reader().remaining())
    }

    /// Constructs a new `ReadIO` over the stream.
    pub fn new(reader: R) -> (r: Self)
        ensures
            r.spec_reader() == reader,
            r.spec_buf().spec_cursor() is None,
            r.pending_bits() == bytes_bits(reader.remaining()),
    {
        let r = ReadIO { reader, buffer: ReadByte::empty() };
        proof {
            assert(r.pending_bits() =~= bytes_bits(r.spec_reader().remaining()));
        }
        r
    }

    /// Returns the number of bits left to read before this reader is
    /// aligned.
    pub fn to_read(&self) -> (r: Option<Bits>)
        ensures
            self.spec_buf().spec_cursor() == Some(Bits::B8) ==> r is None,
            self.spec_buf().spec_cursor() != Some(Bits::B8) ==> r == self.spec_buf().spec_cursor(),
    {
        match self.buffer.to_read() {
            Some(Bits::B8) => None,
            other => other,
        }
    }

    /// Drains the partially read byte so that this reader is aligned.
    pub fn clear_buf(&mut self)
        ensures
            final(self).spec_reader() == old(self).spec_reader(),
            final(self).spec_buf().spec_cursor() is None,
            final(self).pending_bits() == bytes_bits(old(self).spec_reader().remaining()),
    {
        self.buffer.clear_buf();
        proof {
            assert(self.pending_bits() =~= bytes_bits(old(self).spec_reader().remaining()));
        }
    }

    /// Unwraps the inner stream if the inner buffer is empty.
    pub fn into_reader(self) -> (r: Result<R, UnalignedError<Self>>)
        ensures
            self.spec_buf().spec_cursor() is None ==> r == Ok::<R, UnalignedError<Self>>(
                self.spec_reader(),
            ),
            self.spec_buf().spec_cursor() matches Some(m) ==> (r matches Err(e) && e.inner()
                == self && e.width() == m),
    {
        match self.buffer.to_read() {
            None => Ok(self.reader),
            Some(misalign) => Err(UnalignedError(self, misalign)),
        }
    }

    /// Returns `true` if this reader is aligned to a byte.
    pub fn is_aligned(&self) -> (r: bool)
        ensures
            r == self.spec_buf().spec_aligned(),
    {
        self.buffer.is_aligned()
    }

    /// Reads a single bit from the input.
    pub fn read_bit(&mut self) -> (r: Result<bool, (Option<Bits>, StreamError)>)
        ensures
            r matches Ok(b) ==> ({
                &&& old(self).pending_bits().len() >= 1
                &&& b == old(self).pending_bits()[0]
                &&& final(self).pending_bits() == old(self).pending_bits().skip(1)
            }),
            r matches Err(p) ==> final(self).pending_bits() == old(self).pending_bits()
                && p.0 == old(self).spec_buf().spec_cursor(),
            width_val(old(self).spec_buf().spec_cursor()) >= 1 ==> r is Ok && final(self).spec_reader() == old(self).spec_reader(),
    {
        match self.read_bits(Bits::B1) {
            Ok(v) => {
                let b: bool = v & 1 != 0;
                proof {
                    assert((v & 1u8 != 0) <==> ((v >> 0u8) & 1 == 1)) by (bit_vector);
                    assert(low_bits(1, v)[0] == old(self).pending_bits().take(1)[0]);
                }
                Ok(b)
            },
            Err(e) => Err(e),
        }
    }

    /// Reads a full byte from the input.
    pub fn read_byte(&mut self) -> (r: Result<u8, (Option<Bits>, StreamError)>)
        ensures
            r matches Ok(b) ==> ({
                &&& old(self).pending_bits().len() >= 8
                &&& byte_bits(b) == old(self).pending_bits().take(8)
                &&& final(self).pending_bits() == old(self).pending_bits().skip(8)
            }),
            r matches Err(p) ==> final(self).pending_bits() == old(self).pending_bits()
                && p.0 == old(self).spec_buf().spec_cursor(),
            old(self).spec_buf().spec_cursor() == Some(Bits::B8) ==> r is Ok && final(self).spec_reader() == old(self).spec_reader(),
    {
        match self.read_bits(Bits::B8) {
            Ok(v) => {
                proof {
                    lemma_byte_bits_low(v);
                }
                Ok(v)
            },
            Err(e) => Err(e),
        }
    }

    /// Reads in bits without returning them.
    pub fn skip(&mut self, bits: Bits) -> (r: Result<(), (Option<Bits>, StreamError)>)
        ensures
            r matches Ok(_) ==> ({
                &&& old(self).pending_bits().len() >= bits.as_int()
                &&& final(self).pending_bits() == old(self).pending_bits().skip(bits.as_int())
            }),
            r matches Err(p) ==> final(self).pending_bits() == old(self).pending_bits()
                && p.0 == old(self).spec_buf().spec_cursor(),
            width_val(old(self).spec_buf().spec_cursor()) >= bits.as_int() ==> r is Ok && final(self).spec_reader() == old(self).spec_reader(),
    {
        match self.read_bits(bits) {
            Ok(_) => Ok(()),
            Err(e) => Err(e),
        }
    }

    /// Reads several bits from the input at once, into the low bits of the
    /// returned byte; the state of the higher bits is not enforced.
    ///
    /// A request within the current byte touches the stream not at all; a
    /// request past its end performs exactly one stream read, and a failed
    /// one removes nothing and reports in the error how many bits the
    /// buffer held.
    pub fn read_bits(&mut self, bits: Bits) -> (r: Result<u8, (Option<Bits>, StreamError)>)
        ensures
            r matches Ok(v) ==> ({
                let w = bits.as_int();
                &&& old(self).pending_bits().len() >= w
                &&& low_bits(w, v) == old(self).pending_bits().take(w)
                &&& final(self).pending_bits() == old(self).pending_bits().skip(w)
            }),
            r matches Err(p) ==> ({
                &&& final(self).pending_bits() == old(self).pending_bits()
                &&& p.0 == old(self).spec_buf().spec_cursor()
                &&& width_val(old(self).spec_buf().spec_cursor()) < bits.as_int()
            }),
            width_val(old(self).spec_buf().spec_cursor()) >= bits.as_int() ==> r is Ok
                && final(self).spec_reader() == old(self).spec_reader(),
            (r matches Ok(_) && width_val(old(self).spec_buf().spec_cursor()) < bits.as_int())
                ==> final(self).spec_reader().remaining() == old(self).spec_reader().remaining().skip(1),
            r matches Ok(_) ==> width_val(final(self).spec_buf().spec_cursor()) == ({
                let h = width_val(old(self).spec_buf().spec_cursor());
                if h >= bits.as_int() {
                    h - bits.as_int()
                } else {
                    8 - (bits.as_int() - h)
                }
            }),
    {
        proof {
            lemma_bytes_bits_len(old(self).spec_reader().remaining());
        }
        let ghost rem = old(self).spec_reader().remaining();
        let have: u8 = Bits::as_u8(self.buffer.to_read());
        let w: u8 = bits.get();
        if have >= w {
            let r = match self.buffer.read_bits(bits) {
                Ok(v) => Ok(v),
                Err(e) => Err((e, StreamError)),
            };
            proof {
                let a = old(self).spec_buf().pending_bits();
                assert(a.take(w as int) == (a + bytes_bits(rem)).take(w as int)) by {
                    assert(a.take(w as int) =~= (a + bytes_bits(rem)).take(w as int));
                }
                assert((a + bytes_bits(rem)).skip(w as int) =~= a.skip(w as int) + bytes_bits(
                    rem,
                ));
            }
            r
        } else {
            let ghost a = old(self).spec_buf().pending_bits();
            let available: Option<Bits> = self.buffer.to_read();
            let next: u8 = match self.reader.read_one() {
                Ok(b) => b,
                Err(e) => {
                    return Err((available, e));
                },
            };
            proof {
                assert(rem[0] == next);
                assert(bytes_bits(rem) == byte_bits(next) + bytes_bits(rem.skip(1)));
            }
            if have == 0 && w == 8 {
                self.buffer.set(next);
                let r = match self.buffer.read_bits(bits) {
                    Ok(v) => Ok(v),
                    Err(e) => Err((e, StreamError)),
                };
                proof {
                    let wi = bits.as_int();
                    let rest = bytes_bits(rem.skip(1));
                    assert(a.len() == 0);
                    assert(old(self).pending_bits() =~= byte_bits(next) + rest);
                    assert(byte_bits(next).take(wi) == old(self).pending_bits().take(wi)) by {
                        assert(byte_bits(next).take(wi) =~= (byte_bits(next) + rest).take(wi));
                    }
                    assert(self.pending_bits() == old(self).pending_bits().skip(wi)) by {
                        assert(self.spec_buf().pending_bits() + rest =~= (byte_bits(next)
                            + rest).skip(wi));
                    }
                }
                r
            } else {
                let need: u8 = w - have;
                let high: u8 = self.buffer.byte() << need;
                let low: u8 = next >> (8 - need);
                let out: u8 = high | low;
                self.buffer.set(next);
                let nb: Bits = match Bits::from_u8(need) {
                    Some(b) => b,
                    None => Bits::B1,
                };
                let _ = self.buffer.skip(nb);
                proof {
                    let wi = bits.as_int();
                    let rest = bytes_bits(rem.skip(1));
                    lemma_splice(have, w, old(self).spec_buf().spec_buffer(), next);
                    assert(low_bits(wi, out) == a + byte_bits(next).take(need as int));
                    assert(old(self).pending_bits() == a + (byte_bits(next) + rest));
                    assert(old(self).pending_bits().take(wi) == a + byte_bits(next).take(
                        need as int,
                    )) by {
                        assert(old(self).pending_bits().take(wi) =~= a + byte_bits(next).take(
                            need as int,
                        ));
                    }
                    lemma_byte_suffix(need, next);
                    assert(self.pending_bits() == old(self).pending_bits().skip(wi)) by {
                        assert(byte_bits(next).skip(need as int) + rest =~= old(self).pending_bits().skip(wi));
                    }
                }
                Ok(out)
            }
        }
    }
}

impl<R> BitRead for ReadIO<R> where R: ByteSource {
    type Error = (Option<Bits>, StreamError);

    /// What is left of the current byte, then the bytes the stream still
    /// has.
    open spec fn pending(&self) -> Seq<bool> {
        self.pending_bits()
    }

    fn is_aligned(&self) -> (r: bool) {
        proof {
            crate::bit_read::lemma_aligned_width(
                width_val(self.spec_buf().spec_cursor()),
                self.spec_reader().remaining(),
            );
        }
        ReadIO::is_aligned(self)
    }

    fn read_bit(&mut self) -> (r: Result<bool, (Option<Bits>, StreamError)>) {
        ReadIO::read_bit(self)
    }

    fn read_byte(&mut self) -> (r: Result<u8, (Option<Bits>, StreamError)>) {
        ReadIO::read_byte(self)
    }

    fn skip(&mut self, bits: Bits) -> (r: Result<(), (Option<Bits>, StreamError)>) {
        ReadIO::skip(self, bits)
    }

    fn read_bits(&mut self, bits: Bits) -> (r: Result<u8, (Option<Bits>, StreamError)>) {
        ReadIO::read_bits(self, bits)
    }
}

} // verus!
