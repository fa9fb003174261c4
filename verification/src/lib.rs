//! Bit level reading and writing on top of byte oriented storage.
//!
//! The unit of work is a *bit width*, a number of bits between 1 and 8,
//! represented by [`bits::Bits`].  Cursors consume or fill one byte at a
//! time, most significant bit first, and splice values across byte
//! boundaries; every cursor tracks how many bits of its current byte are
//! still pending so that alignment can be checked before a backing store
//! is unwrapped.

use vstd::prelude::*;

pub mod bit_read;
pub mod bit_write;
pub mod bits;
pub mod bitseq;
pub mod iter;
pub mod laws;
pub mod read;
pub mod stream;
pub mod write;

pub use bit_read::bit_reader::ReadIO;
pub use bit_read::{BitRead, ReadByte, ReadIter};
pub use bit_write::bit_writer::WriteIO;
pub use bit_write::{BitWrite, NoError, WriteByte, WriteIter, WriteSlice, WriteVec};
pub use bits::Bits;

verus! {

/// The error returned when trying to unwrap an unaligned reader/writer.
///
/// It carries the reader/writer itself, so that the caller can recover the
/// partially consumed state, together with the width of the misalignment.
#[derive(Debug, Hash)]
pub struct UnalignedError<R>(pub(crate) R, pub(crate) bits::Bits);

impl<R> UnalignedError<R> {
    /// The reader/writer carried for recovery.
    pub closed spec fn inner(self) -> R {
        self.0
    }

    /// The width of the misalignment carried by the error.
    pub closed spec fn width(self) -> bits::Bits {
        self.1
    }

    /// Return how far from aligned the reader/writer was.
    pub fn misalign(&self) -> (r: bits::Bits)
        ensures
            r == self.width(),
    {
        self.1
    }

    /// Unwraps the reader from the error.
    pub fn into_inner(self) -> (r: R)
        ensures
            r == self.inner(),
    {
        self.0
    }
}

} // verus!
