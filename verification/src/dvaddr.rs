//! Device virtual addresses: where a block lies on the device.

use vstd::prelude::*;

verus! {

/// A device virtual address: the sector a block starts at and the number
/// of sectors allocated to it. Two addresses are equal where both fields are.
#[derive(Clone, Copy, Debug, PartialEq, Eq, Structural, Hash)]
pub struct DVAddr {
    pub sector: u64,
    pub asize: u64,
}

impl DVAddr {
    /// The address of `asize` sectors from `sector` on.
    pub fn new(sector: u64, asize: u64) -> (r: DVAddr)
        ensures
            r == (DVAddr { sector, asize }),
    {
        DVAddr { sector, asize }
    }

    /// First sector of the block.
    pub fn sector(&self) -> (r: u64)
        ensures
            r == self.sector,
    {
        self.sector
    }

    /// Number of sectors allocated to the block.
    pub fn asize(&self) -> (r: u64)
        ensures
            r == self.asize,
    {
        self.asize
    }
}

} // verus!
