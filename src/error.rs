use vstd::prelude::*;
use crate::address::GuestAddress;

verus! {

#[verifier::external_type_specification]
#[verifier::external_body]
pub struct ExIoError(std::io::Error);

#[verifier::external_type_specification]
#[verifier::external_body]
pub struct ExMmapRegionError(vm_memory::mmap::MmapRegionError);

/// Failures while building or reshaping a set of memory regions.
#[derive(Debug)]
pub enum Error {
    /// The region would reach past the end of the address space,
    /// or no region matches the one to remove.
    InvalidGuestRegion,
    /// The host mapping could not be created.
    MmapRegion(vm_memory::mmap::MmapRegionError),
    /// No memory region was given.
    NoMemoryRegion,
    /// Two memory regions intersect.
    MemoryRegionOverlap,
    /// The memory regions are not sorted by start address.
    UnsortedMemoryRegions,
}

/// Failures while accessing guest memory.
#[derive(Debug)]
pub enum GuestMemoryError {
    /// No memory region holds this guest address.
    InvalidGuestAddress(GuestAddress),
    /// The byte source or sink of a transfer failed.
    IOError(std::io::Error),
    /// Only part of an all-or-nothing transfer was done.
    PartialBuffer { expected: usize, completed: usize },
    /// The offset lies outside the region.
    InvalidBackendAddress,
    /// The operation is not offered on this memory.
    HostAddressNotAvailable,
}

} // verus!
