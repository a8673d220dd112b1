//! A bit-flag set over any unsigned machine integer.
//!
//! Flags are counted from the least significant bit to the most
//! significant bit.

use vstd::prelude::*;
use crate::utils::traits::Unsigned;

verus! {

/// A set of single-bit flags stored in one unsigned integer.
#[derive(Debug, Clone, Copy)]
pub struct BitFlag<T: Unsigned> {
    flag: T,
}

impl<T: Unsigned> BitFlag<T> {
    /// Flag `i` of the set.
    pub closed spec fn spec_read(self, i: nat) -> bool {
        self.flag.bit(i)
    }

    /// Creates a new `BitFlag` with all flags set to `false`.
    pub fn new() -> (r: Self)
        ensures
            forall|j: nat| j < T::bit_count() ==> !(#[trigger] r.spec_read(j)),
    {
        BitFlag { flag: T::zero() }
    }

    /// Sets the flag at `index`, leaving every other flag unchanged.
    pub fn set(&mut self, index: usize)
        requires
            index < T::bit_count(),
        ensures
            forall|j: nat|
                j < T::bit_count() ==> (#[trigger] final(self).spec_read(j)) == (j == index
                    || old(self).spec_read(j)),
    {
        self.flag = self.flag.set_bit(index);
    }

    /// Clears the flag at `index`, leaving every other flag unchanged.
    pub fn clear(&mut self, index: usize)
        requires
            index < T::bit_count(),
        ensures
            forall|j: nat|
                j < T::bit_count() ==> (#[trigger] final(self).spec_read(j)) == (j != index
                    && old(self).spec_read(j)),
    {
        self.flag = self.flag.clear_bit(index);
    }

    /// Reads the flag at `index`.
    pub fn read(&self, index: usize) -> (r: bool)
        requires
            index < T::bit_count(),
        ensures
            r == self.spec_read(index as nat),
    {
        self.flag.get_bit(index)
    }
}

impl<T: Unsigned> Default for BitFlag<T> {
    /// The empty flag set.
    fn default() -> (r: Self)
        ensures
            forall|j: nat| j < T::bit_count() ==> !(#[trigger] r.spec_read(j)),
    {
        BitFlag::new()
    }
}

} // verus!
