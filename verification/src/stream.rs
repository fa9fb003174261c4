//! The byte stream collaborators beneath the stream cursors.
//!
//! A blocking byte stream is specified only at its interface: a source
//! hands out one byte at a time, a sink takes one byte at a time, and
//! either operation may fail.  The traits model a source by the bytes it
//! still has to hand out and a sink by the bytes it has taken in, so that
//! the cursors built on top can account for every bit.  Adapters around
//! actual I/O live outside this crate and implement these traits for
//! their own types; verified in-memory implementations are provided here.

use vstd::prelude::*;

verus! {

/// The error returned when a byte stream collaborator fails: it ran out
/// of data or room, or an underlying transfer failed.
#[derive(Clone, Copy, Debug, PartialEq, Eq, Structural)]
pub struct StreamError;

/// A collaborator that hands out one byte at a time.
///
/// `remaining()` models the bytes still to come.  An implementation may
/// fail at any point, but a byte it hands out is always the next
/// remaining one.
pub trait ByteSource: Sized {
    /// The bytes this source still has to hand out; a source whose
    /// implementation gives no model is taken as having none.
    open spec fn remaining(&self) -> Seq<u8> {
        Seq::empty()
    }

    /// Reads exactly one byte.
    fn read_one(&mut self) -> (r: Result<u8, StreamError>)
        ensures
            r matches Ok(b) ==> old(self).remaining().len() > 0 && b == old(self).remaining()[0]
                && final(self).remaining() == old(self).remaining().skip(1),
            r matches Err(_) ==> final(self).remaining() == old(self).remaining(),
    ;
}

/// A collaborator that takes in one byte at a time.
///
/// `sunk()` models the bytes taken in so far.  An implementation may fail
/// at any point, but a byte it accepts is appended to what it took in
/// before.
pub trait ByteSink: Sized {
    /// The bytes this sink has taken in so far; a sink whose
    /// implementation gives no model is taken as holding none.
    open spec fn sunk(&self) -> Seq<u8> {
        Seq::empty()
    }

    /// Writes exactly one byte.
    fn write_one(&mut self, byte: u8) -> (r: Result<(), StreamError>)
        ensures
            r matches Ok(_) ==> final(self).sunk() == old(self).sunk().push(byte),
            r matches Err(_) ==> final(self).sunk() == old(self).sunk(),
    ;
}

/// An in-memory byte source: hands out the bytes of a vector in order,
/// and fails once they are exhausted.
#[derive(Debug)]
pub struct VecSource {
    /// The bytes to hand out.
    bytes: Vec<u8>,
    /// How many were already handed out.
    pos: usize,
}

impl VecSource {
    /// The invariant: the position never passes the end.
    #[verifier::type_invariant]
    spec fn wf(&self) -> bool {
        self.pos <= self.bytes.len()
    }

    /// The bytes this source was built over.
    pub closed spec fn spec_bytes(&self) -> Seq<u8> {
        self.bytes@
    }

    /// How many bytes were already handed out.
    pub closed spec fn spec_pos(&self) -> int {
        self.pos as int
    }

    /// A source over the given bytes.
    pub fn new(bytes: Vec<u8>) -> (r: Self)
        ensures
            r.spec_bytes() == bytes@,
            r.spec_pos() == 0,
            r.remaining() == bytes@,
    {
        let r = VecSource { bytes, pos: 0 };
        proof {
            assert(r.spec_bytes().skip(0) =~= r.spec_bytes());
        }
        r
    }

    /// The bytes not yet handed out, as a fresh vector.
    pub fn rest(&self) -> (r: Vec<u8>)
        ensures
            r@ == self.remaining(),
    {
        proof {
            use_type_invariant(self);
        }
        let mut out: Vec<u8> = Vec::new();
        let mut i: usize = self.pos;
        while i < self.bytes.len()
            invariant
                self.pos <= i <= self.bytes.len(),
                out@ == self.bytes@.subrange(self.pos as int, i as int),
            decreases self.bytes.len() - i,
        {
            out.push(self.bytes[i]);
            proof {
                assert(out@ =~= self.bytes@.subrange(self.pos as int, i as int + 1));
            }
            i = i + 1;
        }
        proof {
            assert(out@ =~= self.spec_bytes().skip(self.spec_pos()));
        }
        out
    }
}

impl ByteSource for VecSource {
    /// The suffix of the vector that was not yet handed out.
    open spec fn remaining(&self) -> Seq<u8> {
        self.spec_bytes().skip(self.spec_pos())
    }

    fn read_one(&mut self) -> (r: Result<u8, StreamError>) {
        proof {
            use_type_invariant(&*self);
        }
        if self.pos < self.bytes.len() {
            let b: u8 = self.bytes[self.pos];
            self.pos = self.pos + 1;
            proof {
                assert(old(self).remaining()[0] == b);
                assert(self.remaining() =~= old(self).remaining().skip(1));
            }
            Ok(b)
        } else {
            Err(StreamError)
        }
    }
}

/// An in-memory byte sink with a fixed capacity: fills its buffer from
/// the front, and fails once every slot was written.
#[derive(Debug)]
pub struct SliceSink {
    /// The buffer being filled.
    data: Vec<u8>,
    /// How many bytes were already taken in.
    pos: usize,
}

impl SliceSink {
    /// The invariant: the position never passes the end.
    #[verifier::type_invariant]
    spec fn wf(&self) -> bool {
        self.pos <= self.data.len()
    }

    /// The whole buffer, filled and unfilled slots alike.
    pub closed spec fn spec_data(&self) -> Seq<u8> {
        self.data@
    }

    /// How many bytes were already taken in.
    pub closed spec fn spec_pos(&self) -> int {
        self.pos as int
    }

    /// A sink over the given buffer, overwriting it from the front.
    pub fn new(data: Vec<u8>) -> (r: Self)
        ensures
            r.spec_data() == data@,
            r.spec_pos() == 0,
            r.sunk().len() == 0,
    {
        SliceSink { data, pos: 0 }
    }

    /// The whole buffer, as a fresh vector.
    pub fn to_vec(&self) -> (r: Vec<u8>)
        ensures
            r@ == self.spec_data(),
    {
        proof {
            use_type_invariant(self);
        }
        let mut out: Vec<u8> = Vec::new();
        let mut i: usize = 0;
        while i < self.data.len()
            invariant
                i <= self.data.len(),
                out@ == self.data@.subrange(0, i as int),
            decreases self.data.len() - i,
        {
            out.push(self.data[i]);
            proof {
                assert(out@ =~= self.data@.subrange(0, i as int + 1));
            }
            i = i + 1;
        }
        proof {
            assert(out@ =~= self.spec_data());
        }
        out
    }

    /// How many slots are still unfilled.
    pub fn room(&self) -> (r: usize)
        ensures
            r == self.spec_data().len() - self.spec_pos(),
    {
        proof {
            use_type_invariant(self);
        }
        self.data.len() - self.pos
    }
}

impl ByteSink for SliceSink {
    /// The filled prefix of the buffer.
    open spec fn sunk(&self) -> Seq<u8> {
        self.spec_data().take(self.spec_pos())
    }

    fn write_one(&mut self, byte: u8) -> (r: Result<(), StreamError>) {
        proof {
            use_type_invariant(&*self);
        }
        if self.pos < self.data.len() {
            self.data[self.pos] = byte;
            self.pos = self.pos + 1;
            proof {
                assert(self.sunk() =~= old(self).sunk().push(byte));
            }
            Ok(())
        } else {
            Err(StreamError)
        }
    }
}

/// A growing byte sink: appends every byte to a vector and never fails.
#[derive(Debug)]
pub struct VecSink {
    /// The bytes taken in so far.
    data: Vec<u8>,
}

impl VecSink {
    /// The bytes taken in so far.
    pub closed spec fn spec_data(&self) -> Seq<u8> {
        self.data@
    }

    /// An empty sink.
    pub fn new() -> (r: Self)
        ensures
            r.sunk().len() == 0,
    {
        VecSink { data: Vec::new() }
    }

    /// Unwraps the bytes taken in.
    pub fn into_vec(self) -> (r: Vec<u8>)
        ensures
            r@ == self.sunk(),
    {
        self.data
    }
}

impl ByteSink for VecSink {
    /// Everything taken in so far.
    open spec fn sunk(&self) -> Seq<u8> {
        self.spec_data()
    }

    fn write_one(&mut self, byte: u8) -> (r: Result<(), StreamError>) {
        self.data.push(byte);
        Ok(())
    }
}

} // verus!
