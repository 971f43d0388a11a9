use vstd::prelude::*;
use crate::address::{GuestAddress, MemoryRegionAddress};
use crate::bitmap::{Bitmap, page_count, mark_pages};
use crate::error::{Error, GuestMemoryError};

verus! {

#[verifier::external_type_specification]
#[verifier::external_body]
pub struct ExMmapRegion(vm_memory::MmapRegion);

#[verifier::external_type_specification]
#[verifier::external_body]
pub struct ExVolatileMemoryError(vm_memory::VolatileMemoryError);

#[verifier::external_type_specification]
#[verifier::external_body]
pub struct ExFileOffset(vm_memory::FileOffset);

/// The bytes that a host mapping holds, in order. Only a private mapping that
/// nothing else writes keeps them from one access to the next.
pub uninterp spec fn mapped_bytes(m: vm_memory::MmapRegion) -> Seq<u8>;

/// Whether the mapping is private anonymous memory that only its holder writes.
pub uninterp spec fn private_mapping(m: vm_memory::MmapRegion) -> bool;

/// The protection the mapping was made with (the `prot` argument of `mmap`).
pub uninterp spec fn mapping_prot(m: vm_memory::MmapRegion) -> i32;

/// `PROT_READ | PROT_WRITE` on Linux.
pub const PROT_READ_WRITE: i32 = 3;

/// Whether protection `prot` lets the mapping be both read and written.
pub open spec fn allows_read_write(prot: i32) -> bool {
    prot & PROT_READ_WRITE == PROT_READ_WRITE
}

/// The file and offset backing the mapping, if any.
pub uninterp spec fn backing_file(m: vm_memory::MmapRegion) -> Option<vm_memory::FileOffset>;

/// `s` with the bytes from `off` on replaced by `data`.
pub open spec fn overwrite(s: Seq<u8>, off: int, data: Seq<u8>) -> Seq<u8> {
    Seq::new(s.len(), |i: int| if off <= i < off + data.len() { data[i - off] } else { s[i] })
}

pub open spec fn min(a: int, b: int) -> int {
    if a <= b { a } else { b }
}

/// Relies on `MmapRegion::new`: a fresh `MAP_PRIVATE | MAP_ANONYMOUS` mapping of
/// `size` bytes, backed by no file.
#[verifier::external_body]
pub(crate) fn map_anonymous(size: usize) -> (r: Result<vm_memory::MmapRegion, vm_memory::mmap::MmapRegionError>)
    ensures
        r is Ok ==> mapped_bytes(r->Ok_0).len() == size,
        r is Ok ==> private_mapping(r->Ok_0),
        r is Ok ==> backing_file(r->Ok_0) is None,
        r is Ok ==> mapping_prot(r->Ok_0) == PROT_READ_WRITE,
{
    vm_memory::MmapRegion::new(size)
}

/// Relies on `MmapRegion::from_file`: a shared mapping of `size` bytes of a file,
/// which keeps the file offset it was given.
#[verifier::external_body]
pub(crate) fn map_file(file_offset: vm_memory::FileOffset, size: usize) -> (r: Result<
    vm_memory::MmapRegion,
    vm_memory::mmap::MmapRegionError,
>)
    ensures
        r is Ok ==> mapped_bytes(r->Ok_0).len() == size,
        r is Ok ==> backing_file(r->Ok_0) == Some(file_offset),
        r is Ok ==> mapping_prot(r->Ok_0) == PROT_READ_WRITE,
{
    vm_memory::MmapRegion::from_file(file_offset, size)
}

/// Relies on `MmapRegion::file_offset`: the file and offset backing the mapping, if any.
#[verifier::external_body]
fn mapping_file_offset(m: &vm_memory::MmapRegion) -> (r: Option<&vm_memory::FileOffset>)
    ensures
        r is Some <==> backing_file(*m) is Some,
        r matches Some(f) ==> backing_file(*m) == Some(*f),
{
    m.file_offset()
}

/// Relies on `MmapRegion::prot`: the protection the mapping was made with.
#[verifier::external_body]
fn mapping_prot_of(m: &vm_memory::MmapRegion) -> (r: i32)
    ensures
        r == mapping_prot(*m),
{
    m.prot()
}

/// Relies on `MmapRegion::size`: the length of the mapping.
#[verifier::external_body]
fn mapping_len(m: &vm_memory::MmapRegion) -> (r: usize)
    ensures
        r == mapped_bytes(*m).len(),
{
    m.size()
}

/// Relies on `Bytes::write` of the mapping's whole `VolatileSlice`: an offset inside
/// the mapping takes as many bytes of `buf` as fit from there, any other fails. The
/// bytes are known afterwards only for a private mapping. The mapping must allow
/// reading and writing, else the copy faults; a file-backed mapping must also keep
/// its file at least as long as the mapping, which `from_file` checks when mapping.
#[verifier::external_body]
fn mapping_write(m: &mut vm_memory::MmapRegion, buf: &[u8], off: usize) -> (r: Result<
    usize,
    vm_memory::VolatileMemoryError,
>)
    requires
        allows_read_write(mapping_prot(*old(m))),
    ensures
        mapping_prot(*final(m)) == mapping_prot(*old(m)),
        off < mapped_bytes(*old(m)).len() ==> {
            let n = min(buf@.len() as int, mapped_bytes(*old(m)).len() - off);
            &&& r == Ok::<usize, vm_memory::VolatileMemoryError>(n as usize)
            &&& private_mapping(*old(m)) ==> mapped_bytes(*final(m)) == overwrite(
                mapped_bytes(*old(m)),
                off as int,
                buf@.subrange(0, n),
            )
        },
        off >= mapped_bytes(*old(m)).len() ==> r is Err,
        private_mapping(*old(m)) && off >= mapped_bytes(*old(m)).len() ==> mapped_bytes(*final(m))
            == mapped_bytes(*old(m)),
        mapped_bytes(*final(m)).len() == mapped_bytes(*old(m)).len(),
        private_mapping(*final(m)) == private_mapping(*old(m)),
        backing_file(*final(m)) == backing_file(*old(m)),
{
    vm_memory::Bytes::write(&vm_memory::VolatileMemory::as_volatile_slice(&*m), buf, off)
}

/// Relies on `Bytes::read` of the mapping's whole `VolatileSlice`: an offset inside
/// the mapping fills as much of `buf` as the mapping holds from there, any other fails.
/// What is read is known only for a private mapping. The mapping must allow reading
/// and writing, as for `mapping_write`.
#[verifier::external_body]
fn mapping_read(m: &vm_memory::MmapRegion, buf: &mut [u8], off: usize) -> (r: Result<
    usize,
    vm_memory::VolatileMemoryError,
>)
    requires
        allows_read_write(mapping_prot(*m)),
    ensures
        off < mapped_bytes(*m).len() ==> {
            let n = min(old(buf)@.len() as int, mapped_bytes(*m).len() - off);
            &&& r == Ok::<usize, vm_memory::VolatileMemoryError>(n as usize)
            &&& final(buf)@.len() == old(buf)@.len()
            &&& private_mapping(*m) ==> final(buf)@ == overwrite(
                old(buf)@,
                0,
                mapped_bytes(*m).subrange(off as int, off + n),
            )
        },
        off >= mapped_bytes(*m).len() ==> r is Err && final(buf)@ == old(buf)@,
{
    vm_memory::Bytes::read(&vm_memory::VolatileMemory::as_volatile_slice(m), buf, off)
}

/// Reading back, into a buffer of the same length, the bytes just written at `off`
/// gives the bytes written.
pub proof fn lemma_write_then_read(bytes: Seq<u8>, off: int, data: Seq<u8>, buf: Seq<u8>)
    requires
        0 <= off,
        off + data.len() <= bytes.len(),
        buf.len() == data.len(),
    ensures
        overwrite(buf, 0, overwrite(bytes, off, data).subrange(off, off + data.len())) == data,
{
    assert(overwrite(buf, 0, overwrite(bytes, off, data).subrange(off, off + data.len())) =~= data);
}

/// One contiguous span of guest physical memory backed by a host mapping.
#[derive(Debug)]
pub struct GuestRegionMmap {
    mapping: vm_memory::MmapRegion,
    guest_base: GuestAddress,
    size: usize,
    accessible: bool,
    dirty_bitmap: Option<Bitmap>,
}

impl GuestRegionMmap {
    /// First guest address of the region.
    pub closed spec fn base(&self) -> nat {
        self.guest_base.0 as nat
    }

    /// Length of the region in bytes.
    pub closed spec fn size(&self) -> nat {
        self.size as nat
    }

    /// One past the last guest address of the region.
    pub open spec fn end(&self) -> nat {
        self.base() + self.size()
    }

    /// Whether guest address `a` lies in the region.
    pub open spec fn contains(&self, a: int) -> bool {
        self.base() <= a < self.end()
    }

    /// The bytes the region holds.
    pub closed spec fn bytes(&self) -> Seq<u8> {
        mapped_bytes(self.mapping)
    }

    /// Whether the region is private anonymous memory, whose bytes change only
    /// through this region.
    pub closed spec fn private(&self) -> bool {
        private_mapping(self.mapping)
    }

    /// Whether the region's mapping lets it be read and written.
    pub closed spec fn accessible(&self) -> bool {
        self.accessible
    }

    /// The file and offset backing the region, if any.
    pub closed spec fn file(&self) -> Option<vm_memory::FileOffset> {
        backing_file(self.mapping)
    }

    /// The dirty flags of the region's pages, where tracking is enabled.
    pub closed spec fn dirty(&self) -> Option<Seq<bool>> {
        match self.dirty_bitmap {
            Some(b) => Some(b@),
            None => None,
        }
    }

    /// The page size of the dirty tracking, where it is enabled.
    pub closed spec fn tracking_page_size(&self) -> nat {
        match self.dirty_bitmap {
            Some(b) => b.spec_page_size(),
            None => 0,
        }
    }

    pub closed spec fn wf(&self) -> bool {
        &&& self.size == mapped_bytes(self.mapping).len()
        &&& self.guest_base.0 + self.size <= u64::MAX
        &&& self.accessible == allows_read_write(mapping_prot(self.mapping))
        &&& (self.dirty_bitmap matches Some(b) ==> b.wf() && b.spec_byte_len() == self.size)
    }

    /// The dirty flags after bytes `[start, start + len)` were written.
    pub open spec fn dirty_after(&self, start: nat, len: nat) -> Option<Seq<bool>> {
        match self.dirty() {
            Some(d) => Some(mark_pages(d, start, len, self.tracking_page_size())),
            None => None,
        }
    }

    /// A well-formed region holds one byte per address and ends inside the address space.
    pub proof fn lemma_bounds(&self)
        requires
            self.wf(),
        ensures
            self.bytes().len() == self.size(),
            self.end() <= u64::MAX,
            self.dirty() matches Some(d) ==> d.len() == page_count(self.size(), self.tracking_page_size())
                && self.tracking_page_size() > 0,
    {
        if let Some(b) = self.dirty_bitmap {
            b.lemma_wf();
        }
    }

    /// Whether the region's mapping lets it be read and written; the byte access
    /// functions ask for it.
    pub fn is_accessible(&self) -> (r: bool)
        ensures
            r == self.accessible(),
    {
        self.accessible
    }

    /// A region without dirty tracking records nothing when written.
    pub proof fn lemma_untracked_write_records_nothing(&self, start: nat, len: nat)
        requires
            self.dirty() is None,
        ensures
            self.dirty_after(start, len) is None,
    {
    }

    /// A region over `mapping` starting at guest address `guest_base`, with dirty
    /// tracking disabled. Fails where the mapping would reach past the end of the
    /// address space.
    pub fn new(mapping: vm_memory::MmapRegion, guest_base: GuestAddress) -> (r: Result<
        GuestRegionMmap,
        Error,
    >)
        ensures
            guest_base.0 + mapped_bytes(mapping).len() <= u64::MAX <==> r is Ok,
            r is Err ==> r == Err::<GuestRegionMmap, Error>(Error::InvalidGuestRegion),
            r matches Ok(g) ==> {
                &&& g.wf()
                &&& g.base() == guest_base.0
                &&& g.size() == mapped_bytes(mapping).len()
                &&& g.bytes() == mapped_bytes(mapping)
                &&& g.private() == private_mapping(mapping)
                &&& g.file() == backing_file(mapping)
                &&& g.accessible() == allows_read_write(mapping_prot(mapping))
                &&& g.dirty() is None
            },
    {
        let size = mapping_len(&mapping);
        if size as u64 > u64::MAX - guest_base.0 {
            return Err(Error::InvalidGuestRegion);
        }
        let prot = mapping_prot_of(&mapping);
        let accessible = prot & PROT_READ_WRITE == PROT_READ_WRITE;
        Ok(GuestRegionMmap { mapping, guest_base, size, accessible, dirty_bitmap: None })
    }

    /// Gives the region a dirty page bitmap over pages of `page_size` bytes, all clean.
    /// A region that already tracks dirty pages is left as it is.
    pub fn enable_dirty_page_tracking(&mut self, page_size: usize)
        requires
            old(self).wf(),
            page_size > 0,
        ensures
            final(self).wf(),
            final(self).base() == old(self).base(),
            final(self).private() == old(self).private(),
            final(self).accessible() == old(self).accessible(),
            final(self).file() == old(self).file(),
            final(self).size() == old(self).size(),
            final(self).bytes() == old(self).bytes(),
            old(self).dirty() is Some ==> final(self).dirty() == old(self).dirty()
                && final(self).tracking_page_size() == old(self).tracking_page_size(),
            old(self).dirty() is None ==> {
                &&& final(self).dirty() matches Some(d)
                &&& d.len() == page_count(old(self).size(), page_size as nat)
                &&& forall|i: int| 0 <= i < d.len() ==> !d[i]
                &&& final(self).tracking_page_size() == page_size
            },
    {
        if self.dirty_bitmap.is_none() {
            self.dirty_bitmap = Some(Bitmap::new(self.size, page_size));
        }
    }

    /// Drops the region's dirty page bitmap.
    pub fn disable_dirty_page_tracking(&mut self)
        requires
            old(self).wf(),
        ensures
            final(self).wf(),
            final(self).base() == old(self).base(),
            final(self).private() == old(self).private(),
            final(self).accessible() == old(self).accessible(),
            final(self).file() == old(self).file(),
            final(self).size() == old(self).size(),
            final(self).bytes() == old(self).bytes(),
            final(self).dirty() is None,
    {
        self.dirty_bitmap = None;
    }

    /// The region's dirty page bitmap, where tracking is enabled.
    pub fn dirty_bitmap(&self) -> (r: Option<&Bitmap>)
        ensures
            r is Some == self.dirty() is Some,
            r matches Some(b) ==> self.dirty() == Some(b@),
    {
        self.dirty_bitmap.as_ref()
    }

    /// Marks dirty the pages that bytes `[start, start + len)` of the region touch.
    pub fn mark_dirty_pages(&mut self, start: usize, len: usize)
        requires
            old(self).wf(),
            start + len <= old(self).size(),
        ensures
            final(self).wf(),
            final(self).base() == old(self).base(),
            final(self).private() == old(self).private(),
            final(self).accessible() == old(self).accessible(),
            final(self).file() == old(self).file(),
            final(self).bytes() == old(self).bytes(),
            final(self).tracking_page_size() == old(self).tracking_page_size(),
            final(self).dirty() == old(self).dirty_after(start as nat, len as nat),
    {
        match &mut self.dirty_bitmap {
            Some(b) => {
                b.set_addr_range(start, len);
                proof {
                    assert(b@ =~= old(self).dirty_after(start as nat, len as nat)->Some_0);
                }
            }
            None => {},
        }
    }

    /// Length of the region in bytes.
    pub fn len(&self) -> (r: u64)
        requires
            self.wf(),
        ensures
            r == self.size(),
    {
        self.size as u64
    }

    /// First guest address of the region.
    pub fn start_addr(&self) -> (r: GuestAddress)
        ensures
            r.0 == self.base(),
    {
        self.guest_base
    }

    /// The file and offset backing the region, if any.
    pub fn file_offset(&self) -> (r: Option<&vm_memory::FileOffset>)
        ensures
            r is Some <==> self.file() is Some,
            r matches Some(f) ==> self.file() == Some(*f),
    {
        mapping_file_offset(&self.mapping)
    }

    /// Last guest address of a region that is not empty.
    pub fn last_addr(&self) -> (r: GuestAddress)
        requires
            self.wf(),
            self.size() > 0,
        ensures
            r.0 == self.end() - 1,
    {
        GuestAddress(self.guest_base.0 + (self.size as u64 - 1))
    }

    /// Writes, into a region whose mapping allows it, as much of `buf` as fits from region offset `addr` on, marks dirty the
    /// pages of the bytes written, and returns their number.
    pub fn write(&mut self, buf: &[u8], addr: MemoryRegionAddress) -> (r: Result<
        usize,
        GuestMemoryError,
    >)
        requires
            old(self).wf(),
            old(self).accessible(),
        ensures
            final(self).wf(),
            final(self).base() == old(self).base(),
            final(self).private() == old(self).private(),
            final(self).accessible() == old(self).accessible(),
            final(self).file() == old(self).file(),
            final(self).size() == old(self).size(),
            final(self).tracking_page_size() == old(self).tracking_page_size(),
            addr.0 < old(self).size() ==> {
                let n = min(buf@.len() as int, old(self).size() - addr.0);
                &&& r == Ok::<usize, GuestMemoryError>(n as usize)
                &&& old(self).private() ==> final(self).bytes() == overwrite(
                    old(self).bytes(),
                    addr.0 as int,
                    buf@.subrange(0, n),
                )
                &&& final(self).dirty() == old(self).dirty_after(addr.0 as nat, n as nat)
            },
            addr.0 >= old(self).size() ==> r == Err::<usize, GuestMemoryError>(
                GuestMemoryError::InvalidBackendAddress,
            ) && *final(self) == *old(self),
    {
        if addr.0 >= self.size as u64 {
            return Err(GuestMemoryError::InvalidBackendAddress);
        }
        let maddr = addr.0 as usize;
        match mapping_write(&mut self.mapping, buf, maddr) {
            Ok(n) => {
                self.mark_dirty_pages(maddr, n);
                Ok(n)
            },
            Err(_) => Err(GuestMemoryError::InvalidBackendAddress),
        }
    }

    /// Reads into `buf` as many bytes as the region holds from offset `addr` on, and
    /// returns their number.
    pub fn read(&self, buf: &mut [u8], addr: MemoryRegionAddress) -> (r: Result<
        usize,
        GuestMemoryError,
    >)
        requires
            self.wf(),
            self.accessible(),
        ensures
            addr.0 < self.size() ==> {
                let n = min(old(buf)@.len() as int, self.size() - addr.0);
                &&& r == Ok::<usize, GuestMemoryError>(n as usize)
                &&& final(buf)@.len() == old(buf)@.len()
                &&& self.private() ==> final(buf)@ == overwrite(
                    old(buf)@,
                    0,
                    self.bytes().subrange(addr.0 as int, addr.0 + n),
                )
            },
            addr.0 >= self.size() ==> r == Err::<usize, GuestMemoryError>(
                GuestMemoryError::InvalidBackendAddress,
            ) && final(buf)@ == old(buf)@,
    {
        if addr.0 >= self.size as u64 {
            return Err(GuestMemoryError::InvalidBackendAddress);
        }
        match mapping_read(&self.mapping, buf, addr.0 as usize) {
            Ok(n) => Ok(n),
            Err(_) => Err(GuestMemoryError::InvalidBackendAddress),
        }
    }

    /// Writes all of `buf` from region offset `addr` on. Where it does not fit, the
    /// part that fits is still written and marked dirty, and the result says how much.
    pub fn write_slice(&mut self, buf: &[u8], addr: MemoryRegionAddress) -> (r: Result<
        (),
        GuestMemoryError,
    >)
        requires
            old(self).wf(),
            old(self).accessible(),
        ensures
            final(self).wf(),
            final(self).base() == old(self).base(),
            final(self).private() == old(self).private(),
            final(self).accessible() == old(self).accessible(),
            final(self).file() == old(self).file(),
            final(self).size() == old(self).size(),
            final(self).tracking_page_size() == old(self).tracking_page_size(),
            addr.0 < old(self).size() ==> {
                let n = min(buf@.len() as int, old(self).size() - addr.0);
                &&& old(self).private() ==> final(self).bytes() == overwrite(
                    old(self).bytes(),
                    addr.0 as int,
                    buf@.subrange(0, n),
                )
                &&& final(self).dirty() == old(self).dirty_after(addr.0 as nat, n as nat)
                &&& n == buf@.len() ==> r == Ok::<(), GuestMemoryError>(())
                &&& n < buf@.len() ==> r == Err::<(), GuestMemoryError>(
                    GuestMemoryError::PartialBuffer { expected: buf@.len() as usize, completed: n as usize },
                )
            },
            addr.0 >= old(self).size() ==> r == Err::<(), GuestMemoryError>(
                GuestMemoryError::InvalidBackendAddress,
            ) && *final(self) == *old(self),
    {
        let n = self.write(buf, addr)?;
        if n != buf.len() {
            return Err(GuestMemoryError::PartialBuffer { expected: buf.len(), completed: n });
        }
        Ok(())
    }

    /// Fills all of `buf` from region offset `addr` on. Where the region ends first,
    /// the part it holds is still read, and the result says how much.
    pub fn read_slice(&self, buf: &mut [u8], addr: MemoryRegionAddress) -> (r: Result<
        (),
        GuestMemoryError,
    >)
        requires
            self.wf(),
            self.accessible(),
        ensures
            addr.0 < self.size() ==> {
                let n = min(old(buf)@.len() as int, self.size() - addr.0);
                &&& final(buf)@.len() == old(buf)@.len()
                &&& self.private() ==> final(buf)@ == overwrite(
                    old(buf)@,
                    0,
                    self.bytes().subrange(addr.0 as int, addr.0 + n),
                )
                &&& n == old(buf)@.len() ==> r == Ok::<(), GuestMemoryError>(())
                &&& n < old(buf)@.len() ==> r == Err::<(), GuestMemoryError>(
                    GuestMemoryError::PartialBuffer {
                        expected: old(buf)@.len() as usize,
                        completed: n as usize,
                    },
                )
            },
            addr.0 >= self.size() ==> r == Err::<(), GuestMemoryError>(
                GuestMemoryError::InvalidBackendAddress,
            ) && final(buf)@ == old(buf)@,
    {
        let expected = buf.len();
        let n = self.read(buf, addr)?;
        if n != expected {
            return Err(GuestMemoryError::PartialBuffer { expected, completed: n });
        }
        Ok(())
    }
}

} // verus!
