//! Bitwise reading from a single byte or from a sequence of bytes.

use vstd::prelude::*;
use crate::bits::{width_val, Bits};
use crate::bitseq::{
    byte_bits, bit_val, bytes_bits, lemma_byte_bits_low, lemma_byte_suffix, lemma_bytes_bits_len,
    lemma_concat_take_skip, lemma_low_bits_skip, lemma_read_take, lemma_splice, low_bits,
};
use crate::UnalignedError;

pub mod bit_reader;

verus! {

/// A trait for bitwise reading.
///
/// `pending()` models the bits a reader still has to hand out, most
/// significant bit first.  A successful read hands out a prefix of the
/// pending bits; a failed one hands out none.
pub trait BitRead: Sized {
    /// The error type when reading bits, which should include the number
    /// of bits available.
    type Error;

    /// The bits this reader still has to hand out.
    spec fn pending(&self) -> Seq<bool>;

    /// Returns `true` if this reader is aligned to a byte.
    fn is_aligned(&self) -> (r: bool)
        ensures
            r == (self.pending().len() % 8 == 0),
    ;

    /// Reads a single bit from the input.
    fn read_bit(&mut self) -> (r: Result<bool, Self::Error>)
        ensures
            r matches Ok(b) ==> old(self).pending().len() >= 1 && b == old(self).pending()[0]
                && final(self).pending() == old(self).pending().skip(1),
            r matches Err(_) ==> final(self).pending() == old(self).pending(),
    ;

    /// Reads a full byte from the input.
    ///
    /// If an error is returned it could mean that less than a full byte is
    /// available.
    fn read_byte(&mut self) -> (r: Result<u8, Self::Error>)
        ensures
            r matches Ok(b) ==> old(self).pending().len() >= 8 && byte_bits(b) == old(
                self,
            ).pending().take(8) && final(self).pending() == old(self).pending().skip(8),
            r matches Err(_) ==> final(self).pending() == old(self).pending(),
    ;

    /// Reads in bits without returning them.
    fn skip(&mut self, bits: Bits) -> (r: Result<(), Self::Error>)
        ensures
            r matches Ok(_) ==> if bits.as_int() <= old(self).pending().len() {
                final(self).pending() == old(self).pending().skip(bits.as_int())
            } else {
                final(self).pending().len() == 0
            },
            r matches Err(_) ==> final(self).pending() == old(self).pending(),
    ;

    /// Reads several bits from the input at once.
    ///
    /// The bits occupy the low bits of the returned byte; the state of the
    /// higher bits is not enforced.
    fn read_bits(&mut self, bits: Bits) -> (r: Result<u8, Self::Error>)
        ensures
            r matches Ok(v) ==> old(self).pending().len() >= bits.as_int() && low_bits(
                bits.as_int(),
                v,
            ) == old(self).pending().take(bits.as_int()) && final(self).pending() == old(
                self,
            ).pending().skip(bits.as_int()),
            r matches Err(_) ==> final(self).pending() == old(self).pending(),
    ;
}

/// Wraps a byte and reads from it high bits first.
///
/// The cursor holds the number of unread bits: those are the low bits of
/// the buffer, and the next bit to be handed out is the highest of them.
#[derive(Clone, Copy, Debug)]
pub struct ReadByte {
    /// The bits being read from.
    buffer: u8,
    /// The cursor over the next bit to be read.
    cursor: Option<Bits>,
}

impl ReadByte {
    /// The byte being read from.
    pub closed spec fn spec_buffer(&self) -> u8 {
        self.buffer
    }

    /// The number of bits left to read.
    pub closed spec fn spec_cursor(&self) -> Option<Bits> {
        self.cursor
    }

    /// The bits still to be handed out: the low cursor bits of the buffer,
    /// most significant first.
    pub open spec fn pending_bits(&self) -> Seq<bool> {
        low_bits(width_val(self.spec_cursor()), self.spec_buffer())
    }

    /// True when no byte is partially consumed.
    pub open spec fn spec_aligned(&self) -> bool {
        width_val(self.spec_cursor()) == 0 || width_val(self.spec_cursor()) == 8
    }

    /// An empty reader with nothing to hand out.
    pub fn empty() -> (r: Self)
        ensures
            r.spec_buffer() == 0,
            r.spec_cursor() is None,
            r.pending_bits().len() == 0,
    {
        ReadByte { buffer: 0, cursor: None }
    }

    /// Reads the bits from `buffer`, freshest first.
    pub fn new(buffer: u8) -> (r: Self)
        ensures
            r.spec_buffer() == buffer,
            r.spec_cursor() == Some(Bits::B8),
            r.pending_bits() == byte_bits(buffer),
    {
        let r = ReadByte { cursor: Some(Bits::B8), buffer };
        proof {
            lemma_byte_bits_low(buffer);
        }
        r
    }

    /// The byte currently held, whatever the cursor.
    pub(crate) fn byte(&self) -> (r: u8)
        ensures
            r == self.spec_buffer(),
    {
        self.buffer
    }

    /// Returns the number of bits left to read.
    pub fn to_read(&self) -> (r: Option<Bits>)
        ensures
            r == self.spec_cursor(),
    {
        self.cursor
    }

    /// Resets the reader and sets the buffer.
    pub fn set(&mut self, buffer: u8)
        ensures
            final(self).spec_buffer() == buffer,
            final(self).spec_cursor() == Some(Bits::B8),
            final(self).pending_bits() == byte_bits(buffer),
        no_unwind
    {
        self.buffer = buffer;
        self.cursor = Some(Bits::B8);
        proof {
            lemma_byte_bits_low(buffer);
        }
    }

    /// Drains the internal byte buffer so that this reader is aligned.
    pub fn clear_buf(&mut self)
        ensures
            final(self).spec_buffer() == old(self).spec_buffer(),
            final(self).spec_cursor() is None,
            final(self).pending_bits().len() == 0,
        no_unwind
    {
        self.cursor = None;
    }

    /// Unwraps the inner buffer if the reader is aligned.
    pub fn into_buffer(self) -> (r: Result<u8, UnalignedError<Self>>)
        ensures
            self.spec_aligned() ==> r == Ok::<u8, UnalignedError<Self>>(self.spec_buffer()),
            !self.spec_aligned() ==> (r matches Err(e) && e.inner() == self && Some(e.width())
                == self.spec_cursor()),
    {
        match self.cursor {
            None => Ok(self.buffer),
            Some(Bits::B8) => Ok(self.buffer),
            Some(misalign) => Err(UnalignedError(self, misalign)),
        }
    }

    /// Returns `true` if this reader is aligned to a byte.
    pub fn is_aligned(&self) -> (r: bool)
        ensures
            r == self.spec_aligned(),
    {
        match self.cursor {
            None => true,
            Some(Bits::B8) => true,
            Some(_) => false,
        }
    }

    /// Reads a single bit: the highest unread bit of the buffer.
    pub fn read_bit(&mut self) -> (r: Result<bool, Option<Bits>>)
        ensures
            width_val(old(self).spec_cursor()) == 0 ==> r == Err::<bool, Option<Bits>>(None)
                && *final(self) == *old(self),
            width_val(old(self).spec_cursor()) >= 1 ==> ({
                &&& r == Ok::<bool, Option<Bits>>(
                    old(self).spec_buffer() & bit_val(width_val(old(self).spec_cursor())) != 0,
                )
                &&& r matches Ok(b) && b == old(self).pending_bits()[0]
                &&& final(self).spec_buffer() == old(self).spec_buffer()
                &&& width_val(final(self).spec_cursor()) == width_val(old(self).spec_cursor()) - 1
                &&& final(self).pending_bits() == old(self).pending_bits().skip(1)
            }),
        no_unwind
    {
        let cursor = match self.cursor {
            Some(v) => v,
            None => {
                return Err(None);
            },
        };
        let c: u8 = cursor.get();
        let res: bool = self.buffer & cursor.bit() != 0;
        self.cursor = Bits::from_u8(c - 1);
        proof {
            let buf: u8 = self.buffer;
            let d: u8 = (c - 1) as u8;
            assert((buf & (1u8 << d) != 0) <==> ((buf >> d) & 1 == 1)) by (bit_vector)
                requires
                    d < 8,
            ;
            assert(old(self).pending_bits()[0] == ((buf >> d) & 1 == 1));
            lemma_low_bits_skip(c as int, 1, buf);
        }
        Ok(res)
    }

    /// Reads a full byte, which requires a fresh, untouched buffer.
    pub fn read_byte(&mut self) -> (r: Result<u8, Option<Bits>>)
        ensures
            old(self).spec_cursor() == Some(Bits::B8) ==> ({
                &&& r == Ok::<u8, Option<Bits>>(old(self).spec_buffer())
                &&& final(self).spec_buffer() == old(self).spec_buffer()
                &&& final(self).spec_cursor() is None
                &&& r matches Ok(b) && byte_bits(b) == old(self).pending_bits()
                &&& final(self).pending_bits().len() == 0
            }),
            old(self).spec_cursor() != Some(Bits::B8) ==> r == Err::<u8, Option<Bits>>(
                old(self).spec_cursor(),
            ) && *final(self) == *old(self),
        no_unwind
    {
        match self.cursor {
            Some(Bits::B8) => {
                self.cursor = None;
                proof {
                    lemma_byte_bits_low(self.buffer);
                }
                Ok(self.buffer)
            },
            remaining => Err(remaining),
        }
    }

    /// Reads in bits without returning them; over-skipping past the
    /// available bits saturates instead of failing.
    pub fn skip(&mut self, bits: Bits) -> (r: Result<(), Option<Bits>>)
        ensures
            r == Ok::<(), Option<Bits>>(()),
            final(self).spec_buffer() == old(self).spec_buffer(),
            bits.as_int() <= width_val(old(self).spec_cursor()) ==> ({
                &&& width_val(final(self).spec_cursor()) == width_val(old(self).spec_cursor())
                    - bits.as_int()
                &&& final(self).pending_bits() == old(self).pending_bits().skip(bits.as_int())
            }),
            bits.as_int() > width_val(old(self).spec_cursor()) ==> final(self).spec_cursor()
                is None && final(self).pending_bits().len() == 0,
        no_unwind
    {
        let c: u8 = Bits::as_u8(self.cursor);
        let w: u8 = bits.get();
        if c >= w {
            self.cursor = Bits::from_u8(c - w);
            proof {
                lemma_low_bits_skip(c as int, w as int, self.buffer);
            }
        } else {
            self.cursor = None;
        }
        Ok(())
    }

    /// Reads several bits at once: the leading `bits` of the unread low
    /// bits of the buffer, shifted down to the low end of the result.
    ///
    /// Attempting to read too many bits removes nothing and instead
    /// reports how many bits are available.
    pub fn read_bits(&mut self, bits: Bits) -> (r: Result<u8, Option<Bits>>)
        ensures
            bits.as_int() <= width_val(old(self).spec_cursor()) ==> ({
                let c = width_val(old(self).spec_cursor());
                let w = bits.as_int();
                &&& r == Ok::<u8, Option<Bits>>(old(self).spec_buffer() >> ((c - w) as u8))
                &&& r matches Ok(v) && low_bits(w, v) == old(self).pending_bits().take(w)
                &&& final(self).spec_buffer() == old(self).spec_buffer()
                &&& width_val(final(self).spec_cursor()) == c - w
                &&& final(self).pending_bits() == old(self).pending_bits().skip(w)
            }),
            bits.as_int() > width_val(old(self).spec_cursor()) ==> r == Err::<u8, Option<Bits>>(
                old(self).spec_cursor(),
            ) && *final(self) == *old(self),
        no_unwind
    {
        let c: u8 = Bits::as_u8(self.cursor);
        let w: u8 = bits.get();
        if c >= w {
            let shift: u8 = c - w;
            let out: u8 = self.buffer >> shift;
            self.cursor = Bits::from_u8(shift);
            proof {
                lemma_read_take(c, w, self.buffer);
                lemma_low_bits_skip(c as int, w as int, self.buffer);
            }
            Ok(out)
        } else {
            Err(self.cursor)
        }
    }
}

/// Wraps a sequence of bytes and reads from it bitwise, high bits first.
///
/// One byte at a time is pulled out of the sequence into an embedded
/// [`ReadByte`]; a request that crosses a byte boundary splices the bits
/// of two consecutive bytes together.
#[derive(Debug)]
pub struct ReadIter {
    /// The bytes to read.
    bytes: Vec<u8>,
    /// How many bytes were already pulled into the buffer.
    pos: usize,
    /// The current byte being read.
    buffer: ReadByte,
}

impl ReadIter {
    /// The invariant: the read position never passes the end.
    #[verifier::type_invariant]
    spec fn wf(&self) -> bool {
        self.pos <= self.bytes.len()
    }

    /// The backing bytes.
    pub closed spec fn spec_bytes(&self) -> Seq<u8> {
        self.bytes@
    }

    /// How many bytes were already pulled into the buffer.
    pub closed spec fn spec_pos(&self) -> int {
        self.pos as int
    }

    /// The embedded byte cursor.
    pub closed spec fn spec_buf(&self) -> ReadByte {
        self.buffer
    }

    /// The bits still to be handed out: what is left of the current byte,
    /// then the bits of the bytes not yet pulled.
    pub open spec fn pending_bits(&self) -> Seq<bool> {
        self.spec_buf().pending_bits() + bytes_bits(self.spec_bytes().skip(self.spec_pos()))
    }

    /// Constructs a new `ReadIter` over the bytes.
    pub fn new(bytes: Vec<u8>) -> (r: Self)
        ensures
            r.spec_bytes() == bytes@,
            r.spec_pos() == 0,
            r.spec_buf().spec_cursor() is None,
            r.pending_bits() == bytes_bits(bytes@),
    {
        let r = ReadIter { bytes, pos: 0, buffer: ReadByte::empty() };
        proof {
            assert(r.spec_bytes().skip(0) =~= r.spec_bytes());
            assert(r.pending_bits() =~= bytes_bits(r.spec_bytes()));
        }
        r
    }

    /// Returns the number of bits left to read before this reader is
    /// aligned.
    pub fn to_read(&self) -> (r: Option<Bits>)
        ensures
            r == self.spec_buf().spec_cursor(),
    {
        self.buffer.to_read()
    }

    /// Returns `true` if this reader is aligned to a byte.
    pub fn is_aligned(&self) -> (r: bool)
        ensures
            r == self.spec_buf().spec_aligned(),
    {
        self.buffer.is_aligned()
    }

    /// Drains the partially read byte so that this reader is aligned.
    pub fn clear_buf(&mut self)
        ensures
            final(self).spec_bytes() == old(self).spec_bytes(),
            final(self).spec_pos() == old(self).spec_pos(),
            final(self).spec_buf().spec_cursor() is None,
            final(self).pending_bits() == bytes_bits(
                old(self).spec_bytes().skip(old(self).spec_pos()),
            ),
    {
        proof {
            use_type_invariant(&*self);
        }
        self.buffer.clear_buf();
        proof {
            assert(self.pending_bits() =~= bytes_bits(
                old(self).spec_bytes().skip(old(self).spec_pos()),
            ));
        }
    }

    /// Unwraps the bytes not yet pulled, if the reader is aligned.
    pub fn into_iter(self) -> (r: Result<Vec<u8>, UnalignedError<Self>>)
        ensures
            self.spec_buf().spec_cursor() is None ==> (r matches Ok(v) && v@ == self.spec_bytes(
            ).skip(self.spec_pos())),
            self.spec_buf().spec_cursor() matches Some(m) ==> (r matches Err(e) && e.inner()
                == self && e.width() == m),
    {
        match self.buffer.to_read() {
            Some(misalign) => Err(UnalignedError(self, misalign)),
            None => {
                proof {
                    use_type_invariant(&self);
                }
                let mut out: Vec<u8> = Vec::new();
                let mut i: usize = self.pos;
                while i < self.bytes.len()
                    invariant
                        self.pos <= i <= self.bytes.len(),
                        out@ == self.bytes@.subrange(self.pos as int, i as int),
                    decreases self.bytes.len() - i,
                {
                    out.push(self.bytes[i]);
                    proof {
                        assert(out@ =~= self.bytes@.subrange(self.pos as int, i as int + 1));
                    }
                    i = i + 1;
                }
                proof {
                    assert(out@ =~= self.spec_bytes().skip(self.spec_pos()));
                }
                Ok(out)
            },
        }
    }

    /// Reads a single bit from the input.
    pub fn read_bit(&mut self) -> (r: Result<bool, Option<Bits>>)
        ensures
            old(self).pending_bits().len() >= 1 ==> ({
                &&& r matches Ok(b) && b == old(self).pending_bits()[0]
                &&& final(self).pending_bits() == old(self).pending_bits().skip(1)
                &&& final(self).spec_bytes() == old(self).spec_bytes()
            }),
            old(self).pending_bits().len() == 0 ==> r == Err::<bool, Option<Bits>>(
                old(self).spec_buf().spec_cursor(),
            ) && *final(self) == *old(self),
    {
        let r = self.read_bits(Bits::B1);
        proof {
            lemma_bytes_bits_len(old(self).spec_bytes().skip(old(self).spec_pos()));
        }
        match r {
            Ok(v) => {
                let b: bool = v & 1 != 0;
                proof {
                    assert((v & 1u8 != 0) <==> ((v >> 0u8) & 1 == 1)) by (bit_vector);
                    assert(low_bits(1, v)[0] == old(self).pending_bits().take(1)[0]);
                }
                Ok(b)
            },
            Err(e) => Err(e),
        }
    }

    /// Reads a full byte from the input.
    pub fn read_byte(&mut self) -> (r: Result<u8, Option<Bits>>)
        ensures
            old(self).pending_bits().len() >= 8 ==> ({
                &&& r matches Ok(b) && byte_bits(b) == old(self).pending_bits().take(8)
                &&& final(self).pending_bits() == old(self).pending_bits().skip(8)
                &&& final(self).spec_bytes() == old(self).spec_bytes()
            }),
            old(self).pending_bits().len() < 8 ==> (r matches Err(_) && final(self).pending_bits()
                == old(self).pending_bits()),
    {
        let r = self.read_bits(Bits::B8);
        proof {
            lemma_bytes_bits_len(old(self).spec_bytes().skip(old(self).spec_pos()));
        }
        match r {
            Ok(v) => {
                proof {
                    lemma_byte_bits_low(v);
                }
                Ok(v)
            },
            Err(e) => Err(e),
        }
    }

    /// Reads in bits without returning them.
    pub fn skip(&mut self, bits: Bits) -> (r: Result<(), Option<Bits>>)
        ensures
            old(self).pending_bits().len() >= bits.as_int() ==> ({
                &&& r == Ok::<(), Option<Bits>>(())
                &&& final(self).pending_bits() == old(self).pending_bits().skip(bits.as_int())
                &&& final(self).spec_bytes() == old(self).spec_bytes()
            }),
            old(self).pending_bits().len() < bits.as_int() ==> r == Err::<(), Option<Bits>>(
                old(self).spec_buf().spec_cursor(),
            ) && *final(self) == *old(self),
    {
        match self.read_bits(bits) {
            Ok(_) => Ok(()),
            Err(e) => Err(e),
        }
    }

    /// Reads several bits from the input at once, into the low bits of the
    /// returned byte; the state of the higher bits is not enforced.
    ///
    /// Attempting to read too many bits removes nothing from the input and
    /// instead reports how many bits are available.  A request within the
    /// current byte pulls no new byte; a request past its end pulls
    /// exactly one.
    pub fn read_bits(&mut self, bits: Bits) -> (r: Result<u8, Option<Bits>>)
        ensures
            old(self).pending_bits().len() >= bits.as_int() ==> ({
                let w = bits.as_int();
                &&& r matches Ok(v) && low_bits(w, v) == old(self).pending_bits().take(w)
                &&& final(self).pending_bits() == old(self).pending_bits().skip(w)
                &&& final(self).spec_bytes() == old(self).spec_bytes()
                &&& (width_val(old(self).spec_buf().spec_cursor()) >= w ==> final(self).spec_pos()
                    == old(self).spec_pos())
                &&& (width_val(old(self).spec_buf().spec_cursor()) < w ==> final(self).spec_pos()
                    == old(self).spec_pos() + 1)
            }),
            old(self).pending_bits().len() < bits.as_int() ==> r == Err::<u8, Option<Bits>>(
                old(self).spec_buf().spec_cursor(),
            ) && *final(self) == *old(self),
            old(self).pending_bits().len() >= bits.as_int() ==> width_val(
                final(self).spec_buf().spec_cursor(),
            ) == ({
                let h = width_val(old(self).spec_buf().spec_cursor());
                if h >= bits.as_int() {
                    h - bits.as_int()
                } else {
                    8 - (bits.as_int() - h)
                }
            }),
    {
        proof {
            use_type_invariant(&*self);
            lemma_bytes_bits_len(old(self).spec_bytes().skip(old(self).spec_pos()));
        }
        let ghost tail = old(self).spec_bytes().skip(old(self).spec_pos());
        let have: u8 = Bits::as_u8(self.buffer.to_read());
        let w: u8 = bits.get();
        if have >= w {
            let r = self.buffer.read_bits(bits);
            proof {
                let a = old(self).spec_buf().pending_bits();
                assert(a.take(w as int) == (a + bytes_bits(tail)).take(w as int)) by {
                    assert(a.take(w as int) =~= (a + bytes_bits(tail)).take(w as int));
                }
                assert((a + bytes_bits(tail)).skip(w as int) =~= a.skip(w as int) + bytes_bits(
                    tail,
                ));
            }
            r
        } else if self.pos == self.bytes.len() {
            proof {
                if tail.len() == 0 {
                    assert(bytes_bits(tail).len() == 0);
                }
            }
            Err(self.buffer.to_read())
        } else {
            let ghost a = old(self).spec_buf().pending_bits();
            let next: u8 = self.bytes[self.pos];
            self.pos = self.pos + 1;
            proof {
                assert(tail[0] == next);
                assert(tail.skip(1) =~= old(self).spec_bytes().skip(old(self).spec_pos() + 1));
                assert(bytes_bits(tail) == byte_bits(next) + bytes_bits(tail.skip(1)));
            }
            if have == 0 && w == 8 {
                self.buffer.set(next);
                let r = self.buffer.read_bits(bits);
                proof {
                    let w = bits.as_int();
                    let rest = bytes_bits(tail.skip(1));
                    assert(a.len() == 0);
                    assert(old(self).pending_bits() =~= byte_bits(next) + rest);
                    lemma_concat_take_skip(byte_bits(next), rest, 0);
                    assert(byte_bits(next).take(w) == old(self).pending_bits().take(w)) by {
                        assert(byte_bits(next).take(w) =~= (byte_bits(next) + rest).take(w));
                    }
                    assert(self.pending_bits() == old(self).pending_bits().skip(w)) by {
                        assert(self.spec_buf().pending_bits() + rest =~= (byte_bits(next)
                            + rest).skip(w));
                    }
                }
                r
            } else {
                let need: u8 = w - have;
                let high: u8 = self.buffer.buffer << need;
                let low: u8 = next >> (8 - need);
                let out: u8 = high | low;
                self.buffer.buffer = next;
                self.buffer.cursor = Bits::from_u8(8 - need);
                proof {
                    let wi = bits.as_int();
                    let rest = bytes_bits(tail.skip(1));
                    lemma_splice(have, w, old(self).spec_buf().spec_buffer(), next);
                    assert(low_bits(wi, out) == a + byte_bits(next).take(need as int));
                    assert(old(self).pending_bits() == a + (byte_bits(next) + rest));
                    assert(old(self).pending_bits().take(wi) == a + byte_bits(next).take(
                        need as int,
                    )) by {
                        assert(old(self).pending_bits().take(wi) =~= a + byte_bits(next).take(
                            need as int,
                        ));
                    }
                    lemma_byte_suffix(need, next);
                    assert(self.pending_bits() == old(self).pending_bits().skip(wi)) by {
                        assert(byte_bits(next).skip(need as int) + rest =~= old(
                            self,
                        ).pending_bits().skip(wi));
                    }
                }
                Ok(out)
            }
        }
    }
}

impl BitRead for ReadByte {
    type Error = Option<Bits>;

    /// The unread low bits of the buffer.
    open spec fn pending(&self) -> Seq<bool> {
        self.pending_bits()
    }

    fn is_aligned(&self) -> (r: bool) {
        ReadByte::is_aligned(self)
    }

    fn read_bit(&mut self) -> (r: Result<bool, Option<Bits>>) {
        ReadByte::read_bit(self)
    }

    fn read_byte(&mut self) -> (r: Result<u8, Option<Bits>>) {
        let r = ReadByte::read_byte(self);
        proof {
            if old(self).spec_cursor() == Some(Bits::B8) {
                assert(old(self).pending_bits().take(8) =~= old(self).pending_bits());
                assert(self.pending_bits() =~= old(self).pending_bits().skip(8));
            }
        }
        r
    }

    fn skip(&mut self, bits: Bits) -> (r: Result<(), Option<Bits>>) {
        ReadByte::skip(self, bits)
    }

    fn read_bits(&mut self, bits: Bits) -> (r: Result<u8, Option<Bits>>) {
        ReadByte::read_bits(self, bits)
    }
}

impl BitRead for ReadIter {
    type Error = Option<Bits>;

    /// What is left of the current byte, then the bytes not yet pulled.
    open spec fn pending(&self) -> Seq<bool> {
        self.pending_bits()
    }

    fn is_aligned(&self) -> (r: bool) {
        proof {
            use_type_invariant(self);
            lemma_aligned_width(
                width_val(self.spec_buf().spec_cursor()),
                self.spec_bytes().skip(self.spec_pos()),
            );
        }
        ReadIter::is_aligned(self)
    }

    fn read_bit(&mut self) -> (r: Result<bool, Option<Bits>>) {
        ReadIter::read_bit(self)
    }

    fn read_byte(&mut self) -> (r: Result<u8, Option<Bits>>) {
        ReadIter::read_byte(self)
    }

    fn skip(&mut self, bits: Bits) -> (r: Result<(), Option<Bits>>) {
        ReadIter::skip(self, bits)
    }

    fn read_bits(&mut self, bits: Bits) -> (r: Result<u8, Option<Bits>>) {
        ReadIter::read_bits(self, bits)
    }
}

/// Alignment in the bit model: with a whole number of bytes behind it,
/// a cursor width is a multiple of eight exactly when it is none or full.
pub(crate) proof fn lemma_aligned_width(width: int, rest: Seq<u8>)
    requires
        0 <= width <= 8,
    ensures
        ((width + bytes_bits(rest).len()) % 8 == 0) == (width == 0 || width == 8),
{
    lemma_bytes_bits_len(rest);
    let k = rest.len() as int;
    assert((width + 8 * k) % 8 == width % 8) by (nonlinear_arith)
        requires
            k >= 0,
            0 <= width <= 8,
    ;
}

} // verus!
