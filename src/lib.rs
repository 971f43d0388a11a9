//! Guest physical memory for a virtual machine monitor: host-mapped regions,
//! an ordered non-overlapping collection of them, bounds-checked byte access
//! and per-region dirty page tracking.

mod address;
mod bitmap;

pub use address::{GuestAddress, MemoryRegionAddress};
pub use bitmap::Bitmap;
mod error;
mod region;

pub use error::{Error, GuestMemoryError};
pub use region::GuestRegionMmap;
mod memory;

pub use memory::{GuestMemoryMmap, Progress, Transfer, MAX_ACCESS_CHUNK};
mod event_fd;

pub use event_fd::{EventFd, EventFdTrigger};
