//! A bit-flag set over a `u32`, with flags counted from the least
//! significant bit to the most significant bit.

use vstd::prelude::*;
use crate::utils::traits::Unsigned;

verus! {

/// A set of 32 single-bit flags.
#[derive(Debug)]
pub struct U32Flag {
    flag: u32,
}

impl U32Flag {
    /// Flag `i` of the set.
    pub closed spec fn spec_read(self, i: nat) -> bool {
        self.flag.bit(i)
    }

    /// Creates a new `U32Flag` with all flags set to `false`.
    pub fn new() -> (r: U32Flag)
        ensures
            forall|j: nat| j < 32 ==> !(#[trigger] r.spec_read(j)),
    {
        U32Flag { flag: u32::zero() }
    }

    /// Sets the flag at `index`, leaving every other flag unchanged.
    pub fn set(&mut self, index: u8)
        requires
            index < 32,
        ensures
            forall|j: nat|
                j < 32 ==> (#[trigger] final(self).spec_read(j)) == (j == index as nat
                    || old(self).spec_read(j)),
    {
        self.flag = self.flag.set_bit(index as usize);
    }

    /// Clears the flag at `index`, leaving every other flag unchanged.
    pub fn clear(&mut self, index: u8)
        requires
            index < 32,
        ensures
            forall|j: nat|
                j < 32 ==> (#[trigger] final(self).spec_read(j)) == (j != index as nat
                    && old(self).spec_read(j)),
    {
        self.flag = self.flag.clear_bit(index as usize);
    }

    /// Reads the flag at `index`.
    pub fn read(&self, index: u8) -> (r: bool)
        requires
            index < 32,
        ensures
            r == self.spec_read(index as nat),
    {
        self.flag.get_bit(index as usize)
    }
}

} // verus!
