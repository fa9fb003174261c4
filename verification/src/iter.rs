//! An iterator-style reader that hands out bits instead of bytes.

use vstd::prelude::*;
use crate::bits::Bits;
use crate::bitseq::{
    byte_bits, bytes_bits, lemma_byte_suffix, lemma_bytes_bits_len, lemma_low_bits_skip,
    lemma_read_take, lemma_splice, low_bits,
};

verus! {

/// A reader over bits instead of bytes, most significant bit first.
///
/// The byte being read stays in the backing sequence until its last bit
/// is handed out; only then does the reader step past it.
#[derive(Debug)]
pub struct BitIter {
    /// The bytes to read.
    bytes: Vec<u8>,
    /// How many bytes were completely read.
    pos: usize,
    /// How many bits of the current byte are still unread; zero when the
    /// reader stands aligned before an untouched byte.
    width: u8,
}

impl BitIter {
    /// The invariant: the position never passes the end, and a partially
    /// read byte exists.
    #[verifier::type_invariant]
    spec fn inv(&self) -> bool {
        &&& self.pos <= self.bytes.len()
        &&& self.width <= 7
        &&& (self.width >= 1 ==> self.pos < self.bytes.len())
    }

    /// The backing bytes.
    pub closed spec fn spec_bytes(&self) -> Seq<u8> {
        self.bytes@
    }

    /// How many bytes were completely read.
    pub closed spec fn spec_pos(&self) -> int {
        self.pos as int
    }

    /// How many bits of the current byte are still unread.
    pub closed spec fn spec_width(&self) -> int {
        self.width as int
    }

    /// The bits still to be handed out: what is left of the current byte,
    /// then the bytes after it.
    pub open spec fn pending_bits(&self) -> Seq<bool> {
        if self.spec_width() >= 1 && self.spec_pos() < self.spec_bytes().len() {
            low_bits(self.spec_width(), self.spec_bytes()[self.spec_pos()]) + bytes_bits(
                self.spec_bytes().skip(self.spec_pos() + 1),
            )
        } else {
            bytes_bits(self.spec_bytes().skip(self.spec_pos()))
        }
    }

    /// Creates a new `BitIter` over the bytes.
    pub fn new(bytes: Vec<u8>) -> (r: Self)
        ensures
            r.spec_bytes() == bytes@,
            r.spec_pos() == 0,
            r.spec_width() == 0,
            r.pending_bits() == bytes_bits(bytes@),
    {
        let r = BitIter { bytes, pos: 0, width: 0 };
        proof {
            assert(r.spec_bytes().skip(0) =~= r.spec_bytes());
        }
        r
    }

    /// Returns `true` if the reader is byte aligned.
    pub fn aligned(&self) -> (r: bool)
        ensures
            r == (self.spec_width() == 0),
    {
        self.width == 0
    }

    /// Returns the number of bits which need to be read from the current
    /// byte for the reader to be byte aligned; zero when it already is.
    pub fn to_read(&self) -> (r: u8)
        ensures
            r == self.spec_width(),
    {
        self.width
    }

    /// The number of unread bits of the current byte, counting a fresh
    /// byte as full.
    fn avail(&self) -> (r: u8)
        ensures
            r == if self.spec_width() == 0 {
                8int
            } else {
                self.spec_width()
            },
    {
        if self.width == 0 {
            8
        } else {
            self.width
        }
    }

    /// Restates the pending bits of a reader standing before a byte.
    proof fn lemma_pending_split(&self)
        requires
            self.inv(),
            self.spec_pos() < self.spec_bytes().len(),
        ensures
            self.pending_bits() == low_bits(
                if self.spec_width() == 0 {
                    8int
                } else {
                    self.spec_width()
                },
                self.spec_bytes()[self.spec_pos()],
            ) + bytes_bits(self.spec_bytes().skip(self.spec_pos() + 1)),
            self.pending_bits().len() == (if self.spec_width() == 0 {
                8int
            } else {
                self.spec_width()
            }) + 8 * (self.spec_bytes().len() - self.spec_pos() - 1),
    {
        let tail = self.spec_bytes().skip(self.spec_pos());
        lemma_bytes_bits_len(self.spec_bytes().skip(self.spec_pos() + 1));
        if self.spec_width() == 0 {
            assert(tail[0] == self.spec_bytes()[self.spec_pos()]);
            assert(tail.skip(1) =~= self.spec_bytes().skip(self.spec_pos() + 1));
            assert(bytes_bits(tail) == byte_bits(tail[0]) + bytes_bits(tail.skip(1)));
            crate::bitseq::lemma_byte_bits_low(tail[0]);
        }
    }

    /// Reads the next bit.
    pub fn read_bit(&mut self) -> (r: Option<bool>)
        ensures
            old(self).pending_bits().len() >= 1 ==> ({
                let h = if old(self).spec_width() == 0 {
                    8int
                } else {
                    old(self).spec_width()
                };
                &&& r matches Some(b) && b == old(self).pending_bits()[0]
                &&& final(self).pending_bits() == old(self).pending_bits().skip(1)
                &&& final(self).spec_bytes() == old(self).spec_bytes()
                &&& (h == 1 ==> final(self).spec_width() == 0 && final(self).spec_pos() == old(
                    self,
                ).spec_pos() + 1)
                &&& (h > 1 ==> final(self).spec_width() == h - 1 && final(self).spec_pos() == old(
                    self,
                ).spec_pos())
            }),
            old(self).pending_bits().len() == 0 ==> r is None && *final(self) == *old(self),
    {
        proof {
            use_type_invariant(&*self);
            if old(self).spec_pos() < old(self).spec_bytes().len() {
                old(self).lemma_pending_split();
            } else {
                assert(old(self).pending_bits().len() == 0) by {
                    assert(old(self).spec_bytes().skip(old(self).spec_pos()) =~= Seq::<
                        u8,
                    >::empty());
                }
            }
        }
        if self.pos == self.bytes.len() {
            return None;
        }
        let wdt: u8 = self.avail();
        let byte: u8 = self.bytes[self.pos];
        let bit: bool = (byte >> (wdt - 1)) & 1 == 1;
        proof {
            let d: u8 = (wdt - 1) as u8;
            assert(low_bits(wdt as int, byte)[0] == ((byte >> d) & 1 == 1));
            lemma_low_bits_skip(wdt as int, 1, byte);
        }
        if wdt == 1 {
            self.width = 0;
            self.pos = self.pos + 1;
            proof {
                assert(self.pending_bits() =~= old(self).pending_bits().skip(1));
            }
        } else {
            self.width = wdt - 1;
            proof {
                assert(self.pending_bits() =~= old(self).pending_bits().skip(1));
            }
        }
        Some(bit)
    }

    /// Reads some bits, into the low bits of the returned byte; the
    /// higher bits of the byte are not guaranteed to be zeroed.
    ///
    /// When fewer bits than requested are left, the reader hands out
    /// nothing, but what was left of the current byte is dropped.
    pub fn read_bits(&mut self, bits: Bits) -> (r: Option<u8>)
        ensures
            old(self).pending_bits().len() >= bits.as_int() ==> ({
                let w = bits.as_int();
                &&& r matches Some(v) && low_bits(w, v) == old(self).pending_bits().take(w)
                &&& final(self).pending_bits() == old(self).pending_bits().skip(w)
                &&& final(self).spec_bytes() == old(self).spec_bytes()
            }),
            old(self).pending_bits().len() < bits.as_int() ==> r is None && final(self).pending_bits().len() == 0,
            old(self).pending_bits().len() == 0 ==> *final(self) == *old(self),
            old(self).pending_bits().len() >= bits.as_int() ==> final(self).spec_pos() == ({
                let h = if old(self).spec_width() == 0 {
                    8int
                } else {
                    old(self).spec_width()
                };
                if h > bits.as_int() {
                    old(self).spec_pos()
                } else {
                    old(self).spec_pos() + 1
                }
            }),
            old(self).pending_bits().len() >= bits.as_int() ==> final(self).spec_width() == ({
                let h = if old(self).spec_width() == 0 {
                    8int
                } else {
                    old(self).spec_width()
                };
                if h >= bits.as_int() {
                    h - bits.as_int()
                } else {
                    8 - (bits.as_int() - h)
                }
            }),
    {
        proof {
            use_type_invariant(&*self);
            if old(self).spec_pos() < old(self).spec_bytes().len() {
                old(self).lemma_pending_split();
            } else {
                assert(old(self).pending_bits().len() == 0) by {
                    assert(old(self).spec_bytes().skip(old(self).spec_pos()) =~= Seq::<
                        u8,
                    >::empty());
                }
            }
        }
        if self.pos == self.bytes.len() {
            return None;
        }
        let w: u8 = bits.get();
        let have: u8 = self.avail();
        let byte: u8 = self.bytes[self.pos];
        let ghost a = low_bits(have as int, byte);
        let ghost rest = bytes_bits(old(self).spec_bytes().skip(old(self).spec_pos() + 1));
        if have >= w {
            let shift: u8 = have - w;
            let out: u8 = byte >> shift;
            proof {
                lemma_read_take(have, w, byte);
                lemma_low_bits_skip(have as int, w as int, byte);
                assert(a.take(w as int) == (a + rest).take(w as int)) by {
                    assert(a.take(w as int) =~= (a + rest).take(w as int));
                }
            }
            if shift == 0 {
                self.width = 0;
                self.pos = self.pos + 1;
                proof {
                    assert(self.pending_bits() =~= old(self).pending_bits().skip(w as int));
                }
            } else {
                self.width = shift;
                proof {
                    assert(self.pending_bits() =~= old(self).pending_bits().skip(w as int));
                }
            }
            Some(out)
        } else {
            let need: u8 = w - have;
            let high: u8 = byte << need;
            self.width = 0;
            self.pos = self.pos + 1;
            if self.pos == self.bytes.len() {
                proof {
                    lemma_bytes_bits_len(self.spec_bytes().skip(self.spec_pos()));
                    assert(self.spec_bytes().skip(self.spec_pos()) =~= Seq::<u8>::empty());
                }
                return None;
            }
            let nxt: u8 = self.bytes[self.pos];
            let low: u8 = nxt >> (8 - need);
            self.width = 8 - need;
            let out: u8 = high | low;
            proof {
                let wi = bits.as_int();
                lemma_splice(have, w, byte, nxt);
                let tail1 = old(self).spec_bytes().skip(old(self).spec_pos() + 1);
                assert(tail1[0] == nxt);
                assert(tail1.skip(1) =~= old(self).spec_bytes().skip(old(self).spec_pos() + 2));
                assert(bytes_bits(tail1) == byte_bits(nxt) + bytes_bits(tail1.skip(1)));
                assert(old(self).pending_bits().take(wi) == a + byte_bits(nxt).take(
                    need as int,
                )) by {
                    assert(old(self).pending_bits().take(wi) =~= a + byte_bits(nxt).take(
                        need as int,
                    ));
                }
                lemma_byte_suffix(need, nxt);
                assert(self.pending_bits() == old(self).pending_bits().skip(wi)) by {
                    assert(byte_bits(nxt).skip(need as int) + bytes_bits(tail1.skip(1)) =~= old(self).pending_bits().skip(wi));
                }
            }
            Some(out)
        }
    }

    /// Drops the bits which need to be read for the reader to be byte
    /// aligned.
    pub fn align(&mut self) -> (r: Option<()>)
        ensures
            old(self).spec_width() == 0 ==> r == Some(()) && *final(self) == *old(self),
            old(self).spec_width() >= 1 ==> ({
                &&& r == Some(())
                &&& final(self).spec_width() == 0
                &&& final(self).pending_bits() == old(self).pending_bits().skip(
                    old(self).spec_width(),
                )
            }),
    {
        proof {
            use_type_invariant(&*self);
            if old(self).spec_pos() < old(self).spec_bytes().len() {
                old(self).lemma_pending_split();
            }
        }
        let tr: u8 = self.to_read();
        if tr == 0 {
            return Some(());
        }
        let bits = match Bits::from_u8(tr) {
            Some(b) => b,
            None => Bits::B1,
        };
        match self.read_bits(bits) {
            Some(_) => Some(()),
            None => None,
        }
    }

    /// Returns the bytes not yet completely read.
    pub fn into_inner(self) -> (r: Vec<u8>)
        ensures
            r@ == self.spec_bytes().skip(self.spec_pos()),
    {
        proof {
            use_type_invariant(&self);
        }
        let mut out: Vec<u8> = Vec::new();
        let mut i: usize = self.pos;
        while i < self.bytes.len()
            invariant
                self.pos <= i <= self.bytes.len(),
                out@ == self.bytes@.subrange(self.pos as int, i as int),
            decreases self.bytes.len() - i,
        {
            out.push(self.bytes[i]);
            proof {
                assert(out@ =~= self.bytes@.subrange(self.pos as int, i as int + 1));
            }
            i = i + 1;
        }
        proof {
            assert(out@ =~= self.spec_bytes().skip(self.spec_pos()));
        }
        out
    }
}

} // verus!
