use vstd::prelude::*;

verus! {

/// An address in the guest's physical address space.
#[derive(Clone, Copy, Debug, PartialEq, Eq, Structural, PartialOrd, Ord, Hash)]
pub struct GuestAddress(pub u64);

/// An offset from the start of one memory region.
#[derive(Clone, Copy, Debug, PartialEq, Eq, Structural, PartialOrd, Ord, Hash)]
pub struct MemoryRegionAddress(pub u64);

impl GuestAddress {
    /// The address as a plain integer.
    pub fn raw_value(&self) -> (r: u64)
        ensures
            r == self.0,
    {
        self.0
    }
}

impl MemoryRegionAddress {
    /// The offset as a plain integer.
    pub fn raw_value(&self) -> (r: u64)
        ensures
            r == self.0,
    {
        self.0
    }
}

} // verus!
