//! The bounded bit-width type: the different numbers of bits making up a
//! byte.

use vstd::prelude::*;
use crate::bitseq::{bit_val, mask_val};

pub mod iter;

verus! {

/// A number of bits between 1 and 8, used both as "width requested" and as
/// "bits remaining in a partial byte".
#[derive(Clone, Copy, Debug, PartialEq, Eq, Structural, Hash)]
pub enum Bits {
    /// 1
    B1,
    /// 2
    B2,
    /// 3
    B3,
    /// 4
    B4,
    /// 5
    B5,
    /// 6
    B6,
    /// 7
    B7,
    /// 8
    B8,
}

/// Error when a `u8` cannot be converted to a [`Bits`] value.
#[derive(Clone, Copy, Debug, PartialEq, Eq, Structural)]
pub struct FromU8Error;

/// The width denoted by `v`, for `v` between 1 and 8.
pub open spec fn bits_of(v: int) -> Bits {
    if v == 1 {
        Bits::B1
    } else if v == 2 {
        Bits::B2
    } else if v == 3 {
        Bits::B3
    } else if v == 4 {
        Bits::B4
    } else if v == 5 {
        Bits::B5
    } else if v == 6 {
        Bits::B6
    } else if v == 7 {
        Bits::B7
    } else {
        Bits::B8
    }
}

impl Bits {
    /// The number this width stands for.
    pub open spec fn as_int(self) -> int {
        match self {
            Bits::B1 => 1,
            Bits::B2 => 2,
            Bits::B3 => 3,
            Bits::B4 => 4,
            Bits::B5 => 5,
            Bits::B6 => 6,
            Bits::B7 => 7,
            Bits::B8 => 8,
        }
    }

    /// The width as a `u8`.
    pub fn get(self) -> (r: u8)
        ensures
            r == self.as_int(),
        no_unwind
    {
        match self {
            Bits::B1 => 1,
            Bits::B2 => 2,
            Bits::B3 => 3,
            Bits::B4 => 4,
            Bits::B5 => 5,
            Bits::B6 => 6,
            Bits::B7 => 7,
            Bits::B8 => 8,
        }
    }

    /// Converts a `u8` into a `Bits` value, failing with a range error when
    /// the value is 0 or exceeds 8.
    pub fn try_from(from: u8) -> (r: Result<Bits, FromU8Error>)
        ensures
            1 <= from <= 8 ==> r == Ok::<Bits, FromU8Error>(bits_of(from as int)),
            !(1 <= from <= 8) ==> r == Err::<Bits, FromU8Error>(FromU8Error),
        no_unwind
    {
        match from {
            1 => Ok(Bits::B1),
            2 => Ok(Bits::B2),
            3 => Ok(Bits::B3),
            4 => Ok(Bits::B4),
            5 => Ok(Bits::B5),
            6 => Ok(Bits::B6),
            7 => Ok(Bits::B7),
            8 => Ok(Bits::B8),
            _ => Err(FromU8Error),
        }
    }

    /// Converts a `u8` into a `Bits` value when it is in range.
    pub fn from_u8(from: u8) -> (r: Option<Bits>)
        ensures
            1 <= from <= 8 ==> r == Some(bits_of(from as int)),
            !(1 <= from <= 8) ==> r is None,
        no_unwind
    {
        match Bits::try_from(from) {
            Ok(b) => Some(b),
            Err(_) => None,
        }
    }

    /// Returns the reciprocal value of `self`: the `Bits` value such that
    /// `self.as_int() + r.as_int() == 8`, or `None` for the full width.
    pub fn recip(self) -> (r: Option<Bits>)
        ensures
            self.as_int() < 8 ==> r == Some(bits_of(8 - self.as_int())),
            self.as_int() == 8 ==> r is None,
    {
        Bits::from_u8(8 - self.get())
    }

    /// Creates a bit mask which covers the number of low bits.
    ///
    /// This is the inverse of `not_mask`.
    pub fn mask(self) -> (r: u8)
        ensures
            r == mask_val(self.as_int()),
        no_unwind
    {
        let n: u8 = self.get();
        let r: u8 = 255u8 >> (8 - n);
        proof {
            let d: u8 = (8 - self.as_int()) as u8;
            assert(d == 8 - n && 1 <= n <= 8 ==> 255u8 >> d == (((1u16 << (n as u16)) - 1) as u8))
                by (bit_vector)
                requires
                    d == 8 - n,
                    1 <= n <= 8,
            ;
        }
        r
    }

    /// Creates a bit mask which covers everything but the number of low
    /// bits.
    ///
    /// This is the inverse of `mask`.
    pub fn not_mask(self) -> (r: u8)
        ensures
            r == !mask_val(self.as_int()),
    {
        !self.mask()
    }

    /// Creates a bit mask which covers exactly this bit, counting from 1 at
    /// the least significant end.
    pub fn bit(self) -> (r: u8)
        ensures
            r == bit_val(self.as_int()),
        no_unwind
    {
        let n: u8 = self.get();
        1u8 << (n - 1)
    }

    /// Converts an optional `Bits` value into a `u8`, with 0 for `None`.
    pub fn as_u8(from: Option<Bits>) -> (r: u8)
        ensures
            r == width_val(from),
        no_unwind
    {
        match from {
            Some(b) => b.get(),
            None => 0,
        }
    }

    /// The number of leading zero bits of `byte`, as a width.
    ///
    /// This is the inverse of `used_bits`.
    pub fn unused_bits(byte: u8) -> (r: Option<Bits>)
        ensures
            1 <= leading_zeros(byte) <= 8 ==> r == Some(bits_of(leading_zeros(byte))),
            leading_zeros(byte) == 0 ==> r is None,
    {
        Bits::from_u8(count_leading_zeros(byte))
    }

    /// The number of occupied low bits of `byte`, as a width.
    ///
    /// This is the inverse of `unused_bits`.
    pub fn used_bits(byte: u8) -> (r: Option<Bits>)
        ensures
            leading_zeros(byte) < 8 ==> r == Some(bits_of(8 - leading_zeros(byte))),
            leading_zeros(byte) == 8 ==> r is None,
    {
        Bits::from_u8(8 - count_leading_zeros(byte))
    }

    /// Returns the smaller of the two values.
    pub fn min(self, rhs: Self) -> (r: Self)
        ensures
            r.as_int() == if self.as_int() <= rhs.as_int() {
                self.as_int()
            } else {
                rhs.as_int()
            },
    {
        if self.get() <= rhs.get() {
            self
        } else {
            rhs
        }
    }

    /// Returns the larger of the two values.
    pub fn max(self, rhs: Self) -> (r: Self)
        ensures
            r.as_int() == if self.as_int() >= rhs.as_int() {
                self.as_int()
            } else {
                rhs.as_int()
            },
    {
        if self.get() >= rhs.get() {
            self
        } else {
            rhs
        }
    }
}

/// The width denoted by an optional `Bits` value, with 0 for `None`.
pub open spec fn width_val(from: Option<Bits>) -> int {
    match from {
        Some(b) => b.as_int(),
        None => 0,
    }
}

/// The number of leading zero bits of a byte.
pub open spec fn leading_zeros(byte: u8) -> int {
    if byte >= 128 {
        0
    } else if byte >= 64 {
        1
    } else if byte >= 32 {
        2
    } else if byte >= 16 {
        3
    } else if byte >= 8 {
        4
    } else if byte >= 4 {
        5
    } else if byte >= 2 {
        6
    } else if byte >= 1 {
        7
    } else {
        8
    }
}

/// Counts the leading zero bits of a byte.
fn count_leading_zeros(byte: u8) -> (r: u8)
    ensures
        r == leading_zeros(byte),
{
    if byte >= 128 {
        0
    } else if byte >= 64 {
        1
    } else if byte >= 32 {
        2
    } else if byte >= 16 {
        3
    } else if byte >= 8 {
        4
    } else if byte >= 4 {
        5
    } else if byte >= 2 {
        6
    } else if byte >= 1 {
        7
    } else {
        8
    }
}

} // verus!
