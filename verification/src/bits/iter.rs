//! Cursors that step through all of the bit widths in order.

use vstd::prelude::*;
use crate::bits::{bits_of, width_val, Bits};

verus! {

/// A cursor which steps through all of the bits from `B1` to `B8`.
#[derive(PartialEq, Eq, Structural, Clone, Copy, Debug)]
pub struct Cycle(pub(crate) Option<Bits>);

impl Cycle {
    /// The current state of the cursor.
    pub closed spec fn state(self) -> Option<Bits> {
        self.0
    }

    /// A new `Cycle` instance, standing on `B1`.
    pub fn new() -> (r: Self)
        ensures
            r.state() == Some(Bits::B1),
    {
        Cycle(Some(Bits::B1))
    }

    /// Gets the current state of the `Cycle`.
    pub fn into(self) -> (r: Option<Bits>)
        ensures
            r == self.state(),
    {
        self.0
    }

    /// Hands out the current width and steps up to the next one; exhausted
    /// after `B8`.
    pub fn next(&mut self) -> (r: Option<Bits>)
        ensures
            r == old(self).state(),
            width_val(old(self).state()) < 8 && old(self).state() is Some ==> final(self).state() == Some(
                bits_of(width_val(old(self).state()) + 1),
            ),
            width_val(old(self).state()) == 8 || old(self).state() is None ==> final(self).state() is None,
    {
        let cur: Option<Bits> = self.0;
        self.0 = match cur {
            Some(b) => Bits::from_u8(b.get() + 1),
            None => None,
        };
        cur
    }

    /// The number of widths still to be handed out.
    pub fn len(&self) -> (r: usize)
        ensures
            r == if self.state() is Some {
                9 - width_val(self.state())
            } else {
                0int
            },
    {
        match self.0 {
            Some(b) => (9 - b.get()) as usize,
            None => 0,
        }
    }
}

/// A cursor which steps through all of the bits from `B8` down to `B1`.
#[derive(PartialEq, Eq, Structural, Clone, Copy, Debug)]
pub struct RevCycle(pub(crate) Option<Bits>);

impl RevCycle {
    /// The current state of the cursor.
    pub closed spec fn state(self) -> Option<Bits> {
        self.0
    }

    /// A new `RevCycle` instance, standing on `B8`.
    pub fn new() -> (r: Self)
        ensures
            r.state() == Some(Bits::B8),
    {
        RevCycle(Some(Bits::B8))
    }

    /// Gets the current state of the `RevCycle`.
    pub fn into(self) -> (r: Option<Bits>)
        ensures
            r == self.state(),
    {
        self.0
    }

    /// Hands out the current width and steps down to the next one;
    /// exhausted after `B1`.
    pub fn next(&mut self) -> (r: Option<Bits>)
        ensures
            r == old(self).state(),
            width_val(old(self).state()) > 1 ==> final(self).state() == Some(
                bits_of(width_val(old(self).state()) - 1),
            ),
            width_val(old(self).state()) <= 1 ==> final(self).state() is None,
    {
        let cur: Option<Bits> = self.0;
        self.0 = match cur {
            Some(b) => Bits::from_u8(b.get() - 1),
            None => None,
        };
        cur
    }

    /// The number of widths still to be handed out.
    pub fn len(&self) -> (r: usize)
        ensures
            r == width_val(self.state()),
    {
        Bits::as_u8(self.0) as usize
    }
}

} // verus!
