use vstd::prelude::*;
use crate::address::{GuestAddress, MemoryRegionAddress};
use crate::error::{Error, GuestMemoryError};
use crate::bitmap::page_count;
use crate::region::{PROT_READ_WRITE, GuestRegionMmap, min, overwrite, map_anonymous, map_file};

verus! {

/// The largest number of bytes moved from a byte source in one step.
pub const MAX_ACCESS_CHUNK: usize = 4096;

/// Regions that are well formed, sorted by start address and pairwise disjoint.
pub open spec fn valid_layout(rs: Seq<GuestRegionMmap>) -> bool {
    &&& forall|i: int| 0 <= i < rs.len() ==> #[trigger] rs[i].wf()
    &&& forall|i: int, j: int|
        #![trigger rs[i], rs[j]]
        0 <= i < j < rs.len() ==> rs[i].end() <= rs[j].base()
}

/// Regions `k` and `k + 1` are in order and apart.
pub open spec fn adjacent_ok(rs: Seq<GuestRegionMmap>, k: int) -> bool {
    rs[k].end() <= rs[k + 1].base()
}

/// Regions `k` and `k + 1` are the first neighbours that are out of order or intersect.
pub open spec fn first_fault(rs: Seq<GuestRegionMmap>, k: int) -> bool {
    &&& 0 <= k < rs.len() - 1
    &&& !adjacent_ok(rs, k)
    &&& forall|j: int| 0 <= j < k ==> #[trigger] adjacent_ok(rs, j)
}

/// The two regions share no address.
pub open spec fn disjoint(a: GuestRegionMmap, b: GuestRegionMmap) -> bool {
    a.end() <= b.base() || b.end() <= a.base()
}

/// Placed among the sorted regions `rs` after those that start at or below it,
/// region `x` ends before the next one starts, and the one before it ends first.
pub open spec fn fits(rs: Seq<GuestRegionMmap>, x: GuestRegionMmap) -> bool {
    forall|i: int|
        0 <= i < rs.len() ==> {
            &&& (#[trigger] rs[i]).base() <= x.base() ==> rs[i].end() <= x.base()
            &&& rs[i].base() > x.base() ==> x.end() <= rs[i].base()
        }
}

/// Two regions cover the same span and hold the same bytes.
pub open spec fn same_span(a: GuestRegionMmap, b: GuestRegionMmap) -> bool {
    a.base() == b.base() && a.size() == b.size() && a.bytes() == b.bytes()
}

/// A list of ranges `(base, size, file)` to map.
pub type Ranges = Seq<(GuestAddress, usize, Option<vm_memory::FileOffset>)>;

/// Range `i` ends inside the address space.
pub open spec fn range_fits(ranges: Ranges, i: int) -> bool {
    ranges[i].0.0 + ranges[i].1 <= u64::MAX
}

/// All ranges before range `j` end inside the address space.
pub open spec fn fit_before(ranges: Ranges, j: int) -> bool {
    forall|i: int| 0 <= i < j ==> #[trigger] range_fits(ranges, i)
}

/// Range `j` is the first that does not end inside the address space.
pub open spec fn first_unfit(ranges: Ranges, j: int) -> bool {
    &&& 0 <= j < ranges.len()
    &&& !range_fits(ranges, j)
    &&& forall|i: int| 0 <= i < j ==> #[trigger] range_fits(ranges, i)
}

/// Ranges `k` and `k + 1` are in order and apart.
pub open spec fn ranges_apart(ranges: Ranges, k: int) -> bool {
    ranges[k].0.0 + ranges[k].1 <= ranges[k + 1].0.0
}

/// Ranges `k` and `k + 1` are the first neighbours that are out of order or intersect.
pub open spec fn first_range_fault(ranges: Ranges, k: int) -> bool {
    &&& 0 <= k < ranges.len() - 1
    &&& !ranges_apart(ranges, k)
    &&& forall|j: int| 0 <= j < k ==> #[trigger] ranges_apart(ranges, j)
}

/// The ranges as mapped anonymously, backed by no file.
pub open spec fn anonymous(pairs: Seq<(GuestAddress, usize)>) -> Ranges {
    pairs.map_values(|r: (GuestAddress, usize)| (r.0, r.1, None::<vm_memory::FileOffset>))
}

/// A memory built from `ranges` has one region per range, in order, at its base,
/// of its size and backed by its file (private anonymous memory where it names
/// none), tracking dirty pages of `page_size` bytes, all clean, exactly where
/// `track` is set.
pub open spec fn built_from(m: GuestMemoryMmap, ranges: Ranges, track: bool, page_size: nat) -> bool {
    &&& m.wf()
    &&& m.regions().len() == ranges.len()
    &&& forall|i: int| 0 <= i < ranges.len() ==> region_from(#[trigger] m.regions()[i], ranges[i], track, page_size)
}

/// Region `g` was made from the range `(base, size, file)`.
pub open spec fn region_from(
    g: GuestRegionMmap,
    range: (GuestAddress, usize, Option<vm_memory::FileOffset>),
    track: bool,
    page_size: nat,
) -> bool {
    &&& g.wf()
    &&& g.base() == range.0.0
    &&& g.size() == range.1
    &&& g.file() == range.2
    &&& g.accessible()
    &&& range.2 is None ==> g.private()
    &&& track ==> (g.dirty() matches Some(d) && g.tracking_page_size() == page_size && d.len()
        == page_count(range.1 as nat, page_size) && forall|p: int| 0 <= p < d.len() ==> !d[p])
    &&& !track ==> g.dirty() is None
}

/// What building a memory from `ranges` gives. The ranges are mapped in order, and
/// the first whose mapping fails gives `MmapRegion`; otherwise the first that ends
/// past the address space gives `InvalidGuestRegion`; otherwise the regions are
/// checked as `from_arc_regions` does.
pub open spec fn build_outcome(r: Result<GuestMemoryMmap, Error>, ranges: Ranges, track: bool, page_size: nat) -> bool {
    &&& r matches Err(Error::MmapRegion(_)) ==> exists|j: int|
        0 <= j < ranges.len() && #[trigger] fit_before(ranges, j)
    &&& r matches Ok(m) ==> built_from(m, ranges, track, page_size)
    &&& !(r matches Err(Error::MmapRegion(_))) ==> {
        &&& r == Err::<GuestMemoryMmap, Error>(Error::InvalidGuestRegion) <==> exists|j: int|
            first_unfit(ranges, j)
        &&& (forall|i: int| 0 <= i < ranges.len() ==> #[trigger] range_fits(ranges, i)) ==> {
            &&& ranges.len() == 0 <==> r == Err::<GuestMemoryMmap, Error>(Error::NoMemoryRegion)
            &&& r == Err::<GuestMemoryMmap, Error>(Error::UnsortedMemoryRegions) <==> exists|k: int|
                first_range_fault(ranges, k) && ranges[k].0.0 > ranges[k + 1].0.0
            &&& r == Err::<GuestMemoryMmap, Error>(Error::MemoryRegionOverlap) <==> exists|k: int|
                first_range_fault(ranges, k) && ranges[k].0.0 <= ranges[k + 1].0.0
            &&& r is Ok <==> ranges.len() > 0 && forall|k: int|
                0 <= k < ranges.len() - 1 ==> #[trigger] ranges_apart(ranges, k)
        }
    }
}

/// Inserting region `x` into the regions `before` and then removing the region
/// with the start address and size of `x` gives back `before`; that removal
/// always finds its region. This holds for a region that is not empty.
pub proof fn lemma_insert_then_remove(
    before: Seq<GuestRegionMmap>,
    mid: Seq<GuestRegionMmap>,
    x: GuestRegionMmap,
    after: Seq<GuestRegionMmap>,
)
    requires
        valid_layout(mid),
        x.size() > 0,
        exists|p: int|
            0 <= p <= before.len() && mid == before.insert(p, mid[p]) && same_span(#[trigger] mid[p], x),
        exists|i: int|
            0 <= i < mid.len() && (#[trigger] mid[i]).base() == x.base() && mid[i].size() == x.size()
                && after == mid.remove(i),
    ensures
        after == before,
        exists|i: int| 0 <= i < mid.len() && (#[trigger] mid[i]).base() == x.base() && mid[i].size() == x.size(),
{
    let p = choose|p: int|
        0 <= p <= before.len() && mid == before.insert(p, mid[p]) && same_span(#[trigger] mid[p], x);
    let i = choose|i: int|
        0 <= i < mid.len() && (#[trigger] mid[i]).base() == x.base() && mid[i].size() == x.size()
            && after == mid.remove(i);
    mid[p].lemma_bounds();
    mid[i].lemma_bounds();
    if i < p {
        assert(mid[i].end() <= mid[p].base());
    }
    if p < i {
        assert(mid[p].end() <= mid[i].base());
    }
    assert(after =~= before);
}

/// What a transfer from a byte source asks for next.
pub enum Transfer {
    /// Read at most this many bytes from the source and hand them over.
    Request(usize),
    /// The transfer is over, with this outcome.
    Finished(Result<usize, GuestMemoryError>),
}

/// What became of bytes handed to a transfer.
pub enum Progress {
    /// They were stored; this many bytes are done in all, and more are wanted.
    Continue(usize),
    /// The transfer is over, and this many bytes were stored in all.
    Finished(usize),
}

/// The guest's whole physical memory: its regions, sorted and disjoint.
///
/// The memory owns its regions and is changed in place through `&mut self`. The
/// exclusive borrow keeps every reader from seeing a change half done, which is
/// what handing out a new memory beside the old one would otherwise guarantee.
/// Regions are not shared behind `Arc`: their bytes and dirty flags are tracked as
/// values and change only through `&mut`, and a clone of an `Arc` has no contract
/// here, so a memory that shared regions with another could state nothing of them.
#[derive(Debug)]
pub struct GuestMemoryMmap {
    regions: Vec<GuestRegionMmap>,
}

impl Default for GuestMemoryMmap {
    fn default() -> (r: GuestMemoryMmap)
        ensures
            r.wf(),
            r.regions().len() == 0,
    {
        GuestMemoryMmap::new()
    }
}

impl GuestMemoryMmap {
    /// The regions in ascending address order.
    pub closed spec fn regions(&self) -> Seq<GuestRegionMmap> {
        self.regions@
    }

    pub open spec fn wf(&self) -> bool {
        valid_layout(self.regions())
    }

    /// Region `i` holds guest address `a`.
    pub open spec fn holds(&self, i: int, a: int) -> bool {
        0 <= i < self.regions().len() && self.regions()[i].contains(a)
    }

    /// Every region's mapping lets it be read and written.
    pub open spec fn accessible(&self) -> bool {
        forall|i: int| 0 <= i < self.regions().len() ==> (#[trigger] self.regions()[i]).accessible()
    }

    /// Every region tracks dirty pages.
    pub open spec fn tracking(&self) -> bool {
        forall|i: int| 0 <= i < self.regions().len() ==> (#[trigger] self.regions()[i]).dirty() is Some
    }

    /// An empty memory.
    pub fn new() -> (r: GuestMemoryMmap)
        ensures
            r.wf(),
            r.regions().len() == 0,
    {
        GuestMemoryMmap { regions: Vec::new() }
    }

    /// The number of regions.
    pub fn num_regions(&self) -> (r: usize)
        ensures
            r == self.regions().len(),
    {
        self.regions.len()
    }

    /// Region `index` in ascending address order.
    pub fn region(&self, index: usize) -> (r: Option<&GuestRegionMmap>)
        ensures
            index < self.regions().len() ==> r == Some(&self.regions()[index as int]),
            index >= self.regions().len() ==> r is None,
    {
        if index < self.regions.len() {
            Some(&self.regions[index])
        } else {
            None
        }
    }

    /// The number of regions that start at or below `a`.
    fn partition_point(&self, a: u64) -> (r: usize)
        requires
            self.wf(),
        ensures
            r <= self.regions().len(),
            forall|j: int| 0 <= j < r ==> (#[trigger] self.regions()[j]).base() <= a,
            forall|j: int| r <= j < self.regions().len() ==> (#[trigger] self.regions()[j]).base() > a,
    {
        let mut lo: usize = 0;
        let mut hi: usize = self.regions.len();
        while lo < hi
            invariant
                self.wf(),
                lo <= hi <= self.regions().len(),
                forall|j: int| 0 <= j < lo ==> (#[trigger] self.regions()[j]).base() <= a,
                forall|j: int| hi <= j < self.regions().len() ==> (#[trigger] self.regions()[j]).base() > a,
            decreases hi - lo,
        {
            let mid = lo + (hi - lo) / 2;
            if self.regions[mid].start_addr().0 <= a {
                assert forall|j: int| 0 <= j <= mid implies (#[trigger] self.regions()[j]).base() <= a by {
                    if j < mid {
                        assert(self.regions()[j].end() <= self.regions()[mid as int].base());
                    }
                }
                lo = mid + 1;
            } else {
                assert forall|j: int| mid <= j < self.regions().len() implies (
                #[trigger] self.regions()[j]).base() > a by {
                    if j > mid {
                        assert(self.regions()[mid as int].end() <= self.regions()[j].base());
                    }
                }
                hi = mid;
            }
        }
        lo
    }

    /// The index of the region that holds guest address `a`.
    fn region_index(&self, a: u64) -> (r: Option<usize>)
        requires
            self.wf(),
        ensures
            r matches Some(i) ==> self.holds(i as int, a as int),
            r is None ==> forall|i: int| !self.holds(i, a as int),
    {
        let p = self.partition_point(a);
        if p == 0 {
            return None;
        }
        let g = &self.regions[p - 1];
        proof {
            g.lemma_bounds();
        }
        if a - g.start_addr().0 < g.len() {
            Some(p - 1)
        } else {
            assert forall|i: int| !self.holds(i, a as int) by {
                if 0 <= i < p - 1 {
                    assert(self.regions()[i].end() <= self.regions()[p - 1].base());
                }
            }
            None
        }
    }

    /// The region that holds guest address `addr`, if any.
    pub fn find_region(&self, addr: GuestAddress) -> (r: Option<&GuestRegionMmap>)
        requires
            self.wf(),
        ensures
            r is Some <==> exists|i: int| self.holds(i, addr.0 as int),
            r matches Some(g) ==> exists|i: int| self.holds(i, addr.0 as int) && *g == self.regions()[i],
    {
        match self.region_index(addr.0) {
            Some(i) => Some(&self.regions[i]),
            None => None,
        }
    }

    /// Builds a memory from `regions`, which must be non-empty, sorted by start
    /// address and pairwise disjoint; the first pair of neighbours that is not
    /// decides the error.
    pub fn from_arc_regions(regions: Vec<GuestRegionMmap>) -> (r: Result<GuestMemoryMmap, Error>)
        requires
            forall|i: int| 0 <= i < regions@.len() ==> #[trigger] regions@[i].wf(),
        ensures
            regions@.len() == 0 <==> r == Err::<GuestMemoryMmap, Error>(Error::NoMemoryRegion),
            r is Ok <==> regions@.len() > 0 && valid_layout(regions@),
            r matches Ok(m) ==> m.wf() && m.regions() == regions@,
            r is Err ==> r == Err::<GuestMemoryMmap, Error>(Error::NoMemoryRegion) || r == Err::<
                GuestMemoryMmap,
                Error,
            >(Error::UnsortedMemoryRegions) || r == Err::<GuestMemoryMmap, Error>(
                Error::MemoryRegionOverlap,
            ),
            r == Err::<GuestMemoryMmap, Error>(Error::UnsortedMemoryRegions) <==> exists|k: int|
                first_fault(regions@, k) && regions@[k].base() > regions@[k + 1].base(),
            r == Err::<GuestMemoryMmap, Error>(Error::MemoryRegionOverlap) <==> exists|k: int|
                first_fault(regions@, k) && regions@[k].base() <= regions@[k + 1].base(),
    {
        let n = regions.len();
        if n == 0 {
            return Err(Error::NoMemoryRegion);
        }
        let mut k: usize = 1;
        while k < n
            invariant
                1 <= k <= n,
                n == regions@.len(),
                forall|i: int| 0 <= i < regions@.len() ==> #[trigger] regions@[i].wf(),
                forall|j: int| 0 <= j < k - 1 ==> #[trigger] adjacent_ok(regions@, j),
                forall|i: int, j: int|
                    #![trigger regions@[i], regions@[j]]
                    0 <= i < j < k ==> regions@[i].end() <= regions@[j].base(),
            decreases n - k,
        {
            let prev = &regions[k - 1];
            let next = &regions[k];
            proof {
                prev.lemma_bounds();
                next.lemma_bounds();
            }
            if prev.start_addr().0 > next.start_addr().0 {
                proof {
                    assert(first_fault(regions@, k - 1));
                    assert forall|k2: int| first_fault(regions@, k2) implies k2 == k - 1 by {
                        if k2 < k - 1 {
                            assert(adjacent_ok(regions@, k2));
                        }
                        if k2 > k - 1 {
                            assert(adjacent_ok(regions@, k - 1));
                        }
                    }
                }
                return Err(Error::UnsortedMemoryRegions);
            }
            if prev.start_addr().0 + prev.len() > next.start_addr().0 {
                proof {
                    assert(first_fault(regions@, k - 1));
                    assert forall|k2: int| first_fault(regions@, k2) implies k2 == k - 1 by {
                        if k2 < k - 1 {
                            assert(adjacent_ok(regions@, k2));
                        }
                        if k2 > k - 1 {
                            assert(adjacent_ok(regions@, k - 1));
                        }
                    }
                }
                return Err(Error::MemoryRegionOverlap);
            }
            assert(adjacent_ok(regions@, k - 1));
            assert forall|i: int, j: int|
                #![trigger regions@[i], regions@[j]]
                0 <= i < j < k + 1 implies regions@[i].end() <= regions@[j].base() by {
                if j == k && i < k - 1 {
                    assert(regions@[i].end() <= regions@[k - 1].base());
                }
            }
            k = k + 1;
        }
        assert forall|k2: int| !first_fault(regions@, k2) by {
            if 0 <= k2 < n - 1 {
                assert(adjacent_ok(regions@, k2));
            }
        }
        Ok(GuestMemoryMmap { regions })
    }

    /// Builds a memory from `regions`; see `from_arc_regions`.
    pub fn from_regions(regions: Vec<GuestRegionMmap>) -> (r: Result<GuestMemoryMmap, Error>)
        requires
            forall|i: int| 0 <= i < regions@.len() ==> #[trigger] regions@[i].wf(),
        ensures
            regions@.len() == 0 <==> r == Err::<GuestMemoryMmap, Error>(Error::NoMemoryRegion),
            r is Ok <==> regions@.len() > 0 && valid_layout(regions@),
            r matches Ok(m) ==> m.wf() && m.regions() == regions@,
            r is Err ==> r == Err::<GuestMemoryMmap, Error>(Error::NoMemoryRegion) || r == Err::<
                GuestMemoryMmap,
                Error,
            >(Error::UnsortedMemoryRegions) || r == Err::<GuestMemoryMmap, Error>(
                Error::MemoryRegionOverlap,
            ),
            r == Err::<GuestMemoryMmap, Error>(Error::UnsortedMemoryRegions) <==> exists|k: int|
                first_fault(regions@, k) && regions@[k].base() > regions@[k + 1].base(),
            r == Err::<GuestMemoryMmap, Error>(Error::MemoryRegionOverlap) <==> exists|k: int|
                first_fault(regions@, k) && regions@[k].base() <= regions@[k + 1].base(),
    {
        Self::from_arc_regions(regions)
    }

    /// Whether every region's mapping lets it be read and written.
    pub fn is_accessible(&self) -> (r: bool)
        ensures
            r == self.accessible(),
    {
        let mut i: usize = 0;
        while i < self.regions.len()
            invariant
                i <= self.regions().len(),
                forall|j: int| 0 <= j < i ==> (#[trigger] self.regions()[j]).accessible(),
            decreases self.regions().len() - i,
        {
            if !self.regions[i].is_accessible() {
                return false;
            }
            i = i + 1;
        }
        true
    }

    /// Whether every region tracks dirty pages.
    pub fn is_dirty_tracking_enabled(&self) -> (r: bool)
        ensures
            r == self.tracking(),
    {
        let mut i: usize = 0;
        while i < self.regions.len()
            invariant
                i <= self.regions().len(),
                forall|j: int| 0 <= j < i ==> (#[trigger] self.regions()[j]).dirty() is Some,
            decreases self.regions().len() - i,
        {
            if self.regions[i].dirty_bitmap().is_none() {
                return false;
            }
            i = i + 1;
        }
        true
    }

    /// Adds `region`, with dirty tracking (over pages of `page_size` bytes) made to
    /// match the memory's. Fails, leaving the memory as it was, where the region
    /// does not fit between the regions present; a region that is not empty fits
    /// exactly where it intersects none of them.
    pub fn insert_region(&mut self, region: GuestRegionMmap, page_size: usize) -> (r: Result<(), Error>)
        requires
            old(self).wf(),
            region.wf(),
            page_size > 0,
        ensures
            final(self).wf(),
            r is Ok <==> fits(old(self).regions(), region),
            region.size() > 0 ==> (r is Ok <==> forall|i: int|
                0 <= i < old(self).regions().len() ==> disjoint(#[trigger] old(self).regions()[i], region)),
            r is Err ==> r == Err::<(), Error>(Error::MemoryRegionOverlap),
            r is Err ==> final(self).regions() == old(self).regions(),
            r is Ok ==> exists|p: int|
                {
                    &&& 0 <= p <= old(self).regions().len()
                    &&& final(self).regions() == old(self).regions().insert(p, final(self).regions()[p])
                    &&& same_span(#[trigger] final(self).regions()[p], region)
                    &&& old(self).tracking() ==> final(self).regions()[p].dirty() is Some
                    &&& old(self).tracking() && region.dirty() is Some ==> final(self).regions()[p].dirty()
                        == region.dirty()
                    &&& !old(self).tracking() ==> final(self).regions()[p].dirty() is None
                },
    {
        let tracking = self.is_dirty_tracking_enabled();
        let mut region = region;
        if tracking {
            region.enable_dirty_page_tracking(page_size);
        } else {
            region.disable_dirty_page_tracking();
        }
        proof {
            region.lemma_bounds();
        }
        let b = region.start_addr().0;
        let p = self.partition_point(b);
        let n = self.regions.len();
        if p > 0 {
            proof {
                self.regions()[p - 1].lemma_bounds();
            }
            if self.regions[p - 1].start_addr().0 + self.regions[p - 1].len() > b {
                assert(!fits(self.regions(), region) && region.size() > 0 ==> !disjoint(self.regions()[p - 1], region));
                return Err(Error::MemoryRegionOverlap);
            }
        }
        if p < n {
            if b + region.len() > self.regions[p].start_addr().0 {
                proof {
                    self.regions()[p as int].lemma_bounds();
                }
                assert(!fits(self.regions(), region));
                assert(region.size() > 0 ==> !disjoint(self.regions()[p as int], region));
                return Err(Error::MemoryRegionOverlap);
            }
        }
        assert forall|i: int|
            0 <= i < old(self).regions().len() implies disjoint(#[trigger] old(self).regions()[i], region)
                && (old(self).regions()[i].base() <= region.base() ==> old(self).regions()[i].end() <= region.base())
                && (old(self).regions()[i].base() > region.base() ==> region.end() <= old(self).regions()[i].base()) by {
            if i < p - 1 {
                assert(self.regions()[i].end() <= self.regions()[p - 1].base());
            }
            if i > p {
                assert(self.regions()[p as int].end() <= self.regions()[i].base());
            }
        }
        let ghost before = self.regions();
        self.regions.insert(p, region);
        proof {
            let after = self.regions();
            assert(after[p as int] == region);
            assert forall|i: int, j: int|
                #![trigger after[i], after[j]]
                0 <= i < j < after.len() implies after[i].end() <= after[j].base() by {
                if j == p && i < p - 1 {
                    assert(before[i].end() <= before[p - 1].base());
                }
                if i == p && j > p + 1 {
                    assert(before[p as int].end() <= before[j - 1].base());
                }
                if i < p && j > p {
                    assert(before[i].end() <= before[j - 1].base());
                }
                if i > p {
                    assert(before[i - 1].end() <= before[j - 1].base());
                }
                if j < p {
                    assert(before[i].end() <= before[j].base());
                }
            }
            assert(after == before.insert(p as int, after[p as int]));
        }
        Ok(())
    }

    /// Takes out the region that starts at `base` and is `size` bytes long, and
    /// returns it. Fails, leaving the memory as it was, where there is none.
    pub fn remove_region(&mut self, base: GuestAddress, size: u64) -> (r: Result<GuestRegionMmap, Error>)
        requires
            old(self).wf(),
        ensures
            final(self).wf(),
            r is Ok <==> exists|i: int|
                0 <= i < old(self).regions().len() && (#[trigger] old(self).regions()[i]).base()
                    == base.0 && old(self).regions()[i].size() == size,
            r matches Ok(g) ==> exists|i: int|
                {
                    &&& 0 <= i < old(self).regions().len()
                    &&& #[trigger] old(self).regions()[i] == g
                    &&& g.base() == base.0
                    &&& g.size() == size
                    &&& final(self).regions() == old(self).regions().remove(i)
                },
            r is Err ==> r == Err::<GuestRegionMmap, Error>(Error::InvalidGuestRegion),
            r is Err ==> final(self).regions() == old(self).regions(),
    {
        let p = self.partition_point(base.0);
        let mut j: usize = p;
        while j > 0 && self.regions[j - 1].start_addr().0 == base.0
            invariant
                self.wf(),
                self.regions() == old(self).regions(),
                j <= p <= self.regions().len(),
                forall|k: int| 0 <= k < p ==> (#[trigger] self.regions()[k]).base() <= base.0,
                forall|k: int| p <= k < self.regions().len() ==> (#[trigger] self.regions()[k]).base() > base.0,
                forall|k: int|
                    j <= k < p ==> (#[trigger] self.regions()[k]).base() == base.0 && self.regions()[k].size()
                        != size,
            decreases j,
        {
            let q = j - 1;
            if self.regions[q].len() == size {
                let ghost before = self.regions();
                let g = self.regions.remove(q);
                proof {
                    let after = self.regions();
                    assert forall|i: int, k: int|
                        #![trigger after[i], after[k]]
                        0 <= i < k < after.len() implies after[i].end() <= after[k].base() by {
                        if k >= q && i < q {
                            assert(before[i].end() <= before[k + 1].base());
                        } else if i >= q {
                            assert(before[i + 1].end() <= before[k + 1].base());
                        } else {
                            assert(before[i].end() <= before[k].base());
                        }
                    }
                }
                return Ok(g);
            }
            j = q;
        }
        assert forall|i: int|
            0 <= i < old(self).regions().len() && (#[trigger] old(self).regions()[i]).base() == base.0
                implies old(self).regions()[i].size() != size by {
            if i < j - 1 {
                assert(self.regions()[i].end() <= self.regions()[j - 1].base());
            }
        }
        Err(Error::InvalidGuestRegion)
    }

    /// The next step of a transfer from a byte source into guest memory starting at
    /// `addr`, of at most `count` bytes, of which `total` are done. A step asks for as
    /// many bytes as the region at `addr + total` holds from there on, no more than
    /// are still wanted and no more than `MAX_ACCESS_CHUNK`. The transfer ends once
    /// all are done or no region holds the next address; it fails where nothing was
    /// done and no region holds `addr`.
    pub fn read_from_next(&self, addr: GuestAddress, count: usize, total: usize) -> (r: Transfer)
        requires
            self.wf(),
            total <= count,
        ensures
            total > 0 && total == count ==> r == Transfer::Finished(Ok(total)),
            !(total > 0 && total == count) ==> {
                let cur = addr.0 + total;
                &&& (forall|i: int| !self.holds(i, cur)) ==> r == Transfer::Finished(
                    if total == 0 {
                        Err(GuestMemoryError::InvalidGuestAddress(addr))
                    } else {
                        Ok(total)
                    },
                )
                &&& forall|i: int|
                    self.holds(i, cur) ==> r == Transfer::Request(
                        min(
                            min(self.regions()[i].end() - cur, count - total),
                            MAX_ACCESS_CHUNK as int,
                        ) as usize,
                    )
            },
    {
        if total > 0 && total == count {
            return Transfer::Finished(Ok(total));
        }
        let found = if total as u64 <= u64::MAX - addr.0 {
            self.region_index(addr.0 + total as u64)
        } else {
            proof {
                assert forall|i: int| !#[trigger] self.holds(i, addr.0 + total) by {
                    if 0 <= i < self.regions().len() {
                        self.regions()[i].lemma_bounds();
                    }
                }
            }
            None
        };
        match found {
            None => {
                if total == 0 {
                    Transfer::Finished(Err(GuestMemoryError::InvalidGuestAddress(addr)))
                } else {
                    Transfer::Finished(Ok(total))
                }
            },
            Some(i) => {
                let cur = addr.0 + total as u64;
                let g = &self.regions[i];
                proof {
                    g.lemma_bounds();
                    assert forall|j: int| self.holds(j, cur as int) implies j == i by {
                        if j < i {
                            assert(self.regions()[j].end() <= self.regions()[i as int].base());
                        }
                        if j > i {
                            assert(self.regions()[i as int].end() <= self.regions()[j].base());
                        }
                    }
                }
                let cap = g.start_addr().0 + g.len() - cur;
                let want = (count - total) as u64;
                let len = if cap < want { cap } else { want };
                let len = if len < MAX_ACCESS_CHUNK as u64 { len } else { MAX_ACCESS_CHUNK as u64 };
                Transfer::Request(len as usize)
            },
        }
    }

    /// Stores `data`, into a memory whose regions can all be read and written, read
    /// from the byte source for the step that `read_from_next`
    /// asked for, at `addr + total`, marking dirty the pages written. An empty `data`
    /// means the source is exhausted and ends the transfer.
    pub fn read_from_accept(&mut self, addr: GuestAddress, count: usize, total: usize, data: &[u8]) -> (r:
        Progress)
        requires
            old(self).accessible(),
            old(self).wf(),
            total <= count,
            data@.len() > 0 ==> exists|i: int|
                old(self).holds(i, addr.0 + total) && data@.len() <= min(
                    old(self).regions()[i].end() - (addr.0 + total),
                    count - total,
                ),
        ensures
            final(self).accessible(),
            final(self).wf(),
            final(self).regions().len() == old(self).regions().len(),
            data@.len() == 0 ==> r == Progress::Finished(total),
            data@.len() == 0 ==> final(self).regions() == old(self).regions(),
            data@.len() > 0 ==> {
                let cur = addr.0 + total;
                let done = total + data@.len();
                &&& done == count ==> r == Progress::Finished(done as usize)
                &&& done < count ==> r == Progress::Continue(done as usize)
                &&& exists|i: int|
                    {
                        &&& old(self).holds(i, cur)
                        &&& forall|j: int|
                            0 <= j < old(self).regions().len() && j != i
                                ==> #[trigger] final(self).regions()[j] == old(self).regions()[j]
                        &&& final(self).regions()[i].base() == old(self).regions()[i].base()
                        &&& final(self).regions()[i].size() == old(self).regions()[i].size()
                        &&& final(self).regions()[i].private() == old(self).regions()[i].private()
                        &&& final(self).regions()[i].file() == old(self).regions()[i].file()
                        &&& old(self).regions()[i].private() ==> final(self).regions()[i].bytes() == overwrite(
                            old(self).regions()[i].bytes(),
                            cur - old(self).regions()[i].base(),
                            data@,
                        )
                        &&& final(self).regions()[i].dirty() == old(self).regions()[i].dirty_after(
                            (cur - old(self).regions()[i].base()) as nat,
                            data@.len(),
                        )
                    }
            },
    {
        if data.len() == 0 {
            return Progress::Finished(total);
        }
        let ghost before = self.regions();
        let ghost cur = addr.0 + total;
        let ghost k = choose|i: int|
            old(self).holds(i, cur) && data@.len() <= min(
                old(self).regions()[i].end() - cur,
                count - total,
            );
        proof {
            before[k].lemma_bounds();
        }
        let cur = addr.0 + total as u64;
        let i = match self.region_index(cur) {
            Some(i) => i,
            None => {
                proof {
                    assert(self.holds(k, cur as int));
                }
                return Progress::Finished(total);
            },
        };
        proof {
            assert forall|j: int| self.holds(j, cur as int) implies j == i by {
                if j < i {
                    assert(before[j].end() <= before[i as int].base());
                }
                if j > i {
                    assert(before[i as int].end() <= before[j].base());
                }
            }
        }
        let mut g = self.regions.remove(i);
        let off = cur - g.start_addr().0;
        assert(data@.subrange(0, data@.len() as int) =~= data@);
        let res = g.write(data, MemoryRegionAddress(off));
        self.regions.insert(i, g);
        proof {
            let after = self.regions();
            assert(after =~= before.update(i as int, g));
            assert forall|a: int, b: int|
                #![trigger after[a], after[b]]
                0 <= a < b < after.len() implies after[a].end() <= after[b].base() by {
                assert(before[a].end() <= before[b].base());
            }
        }
        let done = total + data.len();
        if done == count {
            Progress::Finished(done)
        } else {
            Progress::Continue(done)
        }
    }

    /// The outcome of a transfer that had to move exactly `count` bytes and moved
    /// `completed`.
    pub fn check_exact_transfer(count: usize, completed: usize) -> (r: Result<(), GuestMemoryError>)
        ensures
            completed == count ==> r == Ok::<(), GuestMemoryError>(()),
            completed != count ==> r == Err::<(), GuestMemoryError>(
                GuestMemoryError::PartialBuffer { expected: count, completed },
            ),
    {
        if completed != count {
            return Err(GuestMemoryError::PartialBuffer { expected: count, completed });
        }
        Ok(())
    }

    /// Maps anonymous memory for each `(base, size)` range and builds a memory of it.
    pub fn from_ranges(ranges: &[(GuestAddress, usize)]) -> (r: Result<GuestMemoryMmap, Error>)
        ensures
            build_outcome(r, anonymous(ranges@), false, 1),
    {
        let v = Self::anonymous_ranges(ranges);
        Self::from_ranges_with_files(v, false, 1)
    }

    /// Maps anonymous memory for each `(base, size)` range and builds a memory of it
    /// that tracks dirty pages of `page_size` bytes.
    pub fn from_ranges_with_tracking(ranges: &[(GuestAddress, usize)], page_size: usize) -> (r:
        Result<GuestMemoryMmap, Error>)
        requires
            page_size > 0,
        ensures
            build_outcome(r, anonymous(ranges@), true, page_size as nat),
    {
        let v = Self::anonymous_ranges(ranges);
        Self::from_ranges_with_files(v, true, page_size)
    }

    fn anonymous_ranges(ranges: &[(GuestAddress, usize)]) -> (r: Vec<(GuestAddress, usize, Option<vm_memory::FileOffset>)>)
        ensures
            r@ == anonymous(ranges@),
    {
        let mut v: Vec<(GuestAddress, usize, Option<vm_memory::FileOffset>)> = Vec::new();
        let mut k: usize = 0;
        while k < ranges.len()
            invariant
                k <= ranges@.len(),
                v@.len() == k,
                forall|i: int|
                    0 <= i < k ==> #[trigger] v@[i] == (ranges@[i].0, ranges@[i].1, None::<vm_memory::FileOffset>),
            decreases ranges@.len() - k,
        {
            let (a, n) = ranges[k];
            v.push((a, n, None));
            k = k + 1;
        }
        assert(v@ =~= anonymous(ranges@));
        v
    }

    /// Maps each `(base, size, file)` range, from the file where one is given and
    /// anonymous memory otherwise, and builds a memory of it, which tracks dirty pages
    /// of `page_size` bytes where `track_dirty_pages` is set.
    pub fn from_ranges_with_files(
        ranges: Vec<(GuestAddress, usize, Option<vm_memory::FileOffset>)>,
        track_dirty_pages: bool,
        page_size: usize,
    ) -> (r: Result<GuestMemoryMmap, Error>)
        requires
            page_size > 0,
        ensures
            build_outcome(r, ranges@, track_dirty_pages, page_size as nat),
    {
        let ghost orig = ranges@;
        let n = ranges.len();
        let mut rest = ranges;
        let mut regions: Vec<GuestRegionMmap> = Vec::new();
        let mut k: usize = 0;
        let mut failure: Option<Error> = None;
        while k < n
            invariant_except_break
                failure is None,
                rest@.len() == n - k,
                forall|i: int| 0 <= i < n - k ==> #[trigger] rest@[i] == orig[k + i],
            invariant
                page_size > 0,
                k <= n,
                n == orig.len(),
                regions@.len() == k,
                forall|i: int|
                    0 <= i < k ==> region_from(#[trigger] regions@[i], orig[i], track_dirty_pages, page_size as nat),
                forall|i: int| 0 <= i < k ==> #[trigger] range_fits(orig, i),
            ensures
                failure matches Some(e) ==> k < n && (e matches Error::MmapRegion(_) || (e
                    == Error::InvalidGuestRegion && first_unfit(orig, k as int))),
                failure is None ==> k == n,
                k <= n,
                regions@.len() == k,
                forall|i: int|
                    0 <= i < k ==> region_from(#[trigger] regions@[i], orig[i], track_dirty_pages, page_size as nat),
                forall|i: int| 0 <= i < k ==> #[trigger] range_fits(orig, i),
            decreases n - k,
        {
            let ghost before = rest@;
            let (base, size, file) = rest.remove(0);
            proof {
                assert(before[0] == orig[k as int]);
                assert forall|i: int| 0 <= i < n - (k + 1) implies #[trigger] rest@[i] == orig[k + 1 + i] by {
                    assert(rest@[i] == before[i + 1]);
                }
            }
            let ghost f = file;
            let mapped = match file {
                Some(fo) => map_file(fo, size),
                None => map_anonymous(size),
            };
            let mapping = match mapped {
                Ok(m) => m,
                Err(e) => {
                    failure = Some(Error::MmapRegion(e));
                    break;
                },
            };
            let mut g = match GuestRegionMmap::new(mapping, base) {
                Ok(g) => g,
                Err(e) => {
                    failure = Some(e);
                    break;
                },
            };
            if track_dirty_pages {
                g.enable_dirty_page_tracking(page_size);
            }
            assert(PROT_READ_WRITE & PROT_READ_WRITE == PROT_READ_WRITE) by (bit_vector);
            assert(region_from(g, orig[k as int], track_dirty_pages, page_size as nat));
            regions.push(g);
            k = k + 1;
        }
        if let Some(e) = failure {
            proof {
                assert(fit_before(orig, k as int));
                if !(e matches Error::MmapRegion(_)) {
                    assert forall|j: int| first_unfit(orig, j) implies j == k by {
                        if j < k {
                            assert(range_fits(orig, j));
                        }
                        if j > k {
                            assert(range_fits(orig, k as int));
                        }
                    }
                }
            }
            return Err(e);
        }
        assert forall|i: int| 0 <= i < n implies #[trigger] range_fits(orig, i) by {
            assert(range_fits(orig, i));
        }
        assert forall|j: int| !first_unfit(orig, j) by {
            if 0 <= j < n {
                assert(range_fits(orig, j));
            }
        }
        proof {
            assert forall|k2: int| 0 <= k2 < n - 1 implies (adjacent_ok(regions@, k2) <==> #[trigger] ranges_apart(orig, k2)) by {
                assert(region_from(regions@[k2], orig[k2], track_dirty_pages, page_size as nat));
                assert(region_from(regions@[k2 + 1], orig[k2 + 1], track_dirty_pages, page_size as nat));
            }
            assert forall|k2: int| first_fault(regions@, k2) <==> #[trigger] first_range_fault(orig, k2) by {
                if 0 <= k2 < n - 1 {
                    assert(region_from(regions@[k2], orig[k2], track_dirty_pages, page_size as nat));
                    assert(region_from(regions@[k2 + 1], orig[k2 + 1], track_dirty_pages, page_size as nat));
                    if first_fault(regions@, k2) {
                        assert forall|j: int| 0 <= j < k2 implies #[trigger] ranges_apart(orig, j) by {
                            assert(adjacent_ok(regions@, j));
                        }
                    }
                    if first_range_fault(orig, k2) {
                        assert forall|j: int| 0 <= j < k2 implies #[trigger] adjacent_ok(regions@, j) by {
                            assert(ranges_apart(orig, j));
                        }
                    }
                }
            }
            if valid_layout(regions@) {
                assert forall|k2: int| 0 <= k2 < n - 1 implies #[trigger] ranges_apart(orig, k2) by {
                    assert(adjacent_ok(regions@, k2));
                }
            }
            if n > 0 && forall|k2: int| 0 <= k2 < n - 1 ==> #[trigger] ranges_apart(orig, k2) {
                assert forall|k2: int| !first_fault(regions@, k2) by {
                    if 0 <= k2 < n - 1 {
                        assert(ranges_apart(orig, k2));
                    }
                }
            }
        }
        let ghost rs = regions@;
        let r = Self::from_regions(regions);
        proof {
            if r is Ok {
                assert(r->Ok_0.regions() == rs);
                assert(built_from(r->Ok_0, orig, track_dirty_pages, page_size as nat));
            }
            if r == Err::<GuestMemoryMmap, Error>(Error::MemoryRegionOverlap) {
                let k = choose|k: int| first_fault(rs, k) && rs[k].base() <= rs[k + 1].base();
                assert(first_range_fault(orig, k));
                assert(region_from(rs[k], orig[k], track_dirty_pages, page_size as nat));
                assert(region_from(rs[k + 1], orig[k + 1], track_dirty_pages, page_size as nat));
            }
            if exists|k: int| first_range_fault(orig, k) && orig[k].0.0 <= orig[k + 1].0.0 {
                let k = choose|k: int| first_range_fault(orig, k) && orig[k].0.0 <= orig[k + 1].0.0;
                assert(first_fault(rs, k));
                assert(region_from(rs[k], orig[k], track_dirty_pages, page_size as nat));
                assert(region_from(rs[k + 1], orig[k + 1], track_dirty_pages, page_size as nat));
            }
            if r == Err::<GuestMemoryMmap, Error>(Error::UnsortedMemoryRegions) {
                let k = choose|k: int| first_fault(rs, k) && rs[k].base() > rs[k + 1].base();
                assert(first_range_fault(orig, k));
                assert(region_from(rs[k], orig[k], track_dirty_pages, page_size as nat));
                assert(region_from(rs[k + 1], orig[k + 1], track_dirty_pages, page_size as nat));
            }
            if exists|k: int| first_range_fault(orig, k) && orig[k].0.0 > orig[k + 1].0.0 {
                let k = choose|k: int| first_range_fault(orig, k) && orig[k].0.0 > orig[k + 1].0.0;
                assert(first_fault(rs, k));
                assert(region_from(rs[k], orig[k], track_dirty_pages, page_size as nat));
                assert(region_from(rs[k + 1], orig[k + 1], track_dirty_pages, page_size as nat));
            }
        }
        r
    }

    /// In a well-formed memory at most one region holds any address.
    pub proof fn lemma_holder_unique(&self, a: int, i: int, j: int)
        requires
            self.wf(),
            self.holds(i, a),
            self.holds(j, a),
        ensures
            i == j,
    {
        if i < j {
            assert(self.regions()[i].end() <= self.regions()[j].base());
        }
        if j < i {
            assert(self.regions()[j].end() <= self.regions()[i].base());
        }
    }

    /// Calls `cb` on each region with its index, in ascending address order,
    /// stopping at and returning the first failure.
    pub fn with_regions<F, E>(&self, cb: F) -> (r: Result<(), E>) where
        F: Fn(usize, &GuestRegionMmap) -> Result<(), E>,

        requires
            forall|i: usize, g: &GuestRegionMmap| #[trigger] cb.requires((i, g)),
        ensures
            r is Ok ==> forall|i: int|
                0 <= i < self.regions().len() ==> cb.ensures(
                    (i as usize, &#[trigger] self.regions()[i]),
                    Ok::<(), E>(()),
                ),
            r matches Err(e) ==> exists|k: int|
                {
                    &&& 0 <= k < self.regions().len()
                    &&& cb.ensures((k as usize, &#[trigger] self.regions()[k]), Err::<(), E>(e))
                    &&& forall|i: int|
                        0 <= i < k ==> cb.ensures(
                            (i as usize, &#[trigger] self.regions()[i]),
                            Ok::<(), E>(()),
                        )
                },
    {
        let mut i: usize = 0;
        while i < self.regions.len()
            invariant
                i <= self.regions().len(),
                forall|i: usize, g: &GuestRegionMmap| #[trigger] cb.requires((i, g)),
                forall|j: int|
                    0 <= j < i ==> cb.ensures(
                        (j as usize, &#[trigger] self.regions()[j]),
                        Ok::<(), E>(()),
                    ),
            decreases self.regions().len() - i,
        {
            let res = cb(i, &self.regions[i]);
            match res {
                Ok(_unit) => {
                    assert(res == Ok::<(), E>(()));
                },
                Err(e) => {
                    return Err(e);
                },
            }
            i = i + 1;
        }
        Ok(())
    }

    /// Maps each region, with its index and in ascending address order, through
    /// `mapf`, and folds the results into `init` with `foldf`.
    pub fn map_and_fold<F, G, T>(&self, init: T, mapf: F, foldf: G) -> (r: T) where
        F: Fn((usize, &GuestRegionMmap)) -> T,
        G: Fn(T, T) -> T,

        requires
            forall|x: (usize, &GuestRegionMmap)| #[trigger] mapf.requires((x,)),
            forall|a: T, b: T| #[trigger] foldf.requires((a, b)),
        ensures
            exists|acc: Seq<T>, mapped: Seq<T>|
                {
                    &&& acc.len() == self.regions().len() + 1
                    &&& mapped.len() == self.regions().len()
                    &&& acc[0] == init
                    &&& r == acc[self.regions().len() as int]
                    &&& forall|k: int|
                        0 <= k < self.regions().len() ==> mapf.ensures(
                            ((k as usize, &#[trigger] self.regions()[k]),),
                            mapped[k],
                        ) && foldf.ensures((acc[k], mapped[k]), acc[k + 1])
                },
    {
        let ghost mut acc: Seq<T> = seq![init];
        let ghost mut mapped: Seq<T> = Seq::empty();
        let mut cur = init;
        let mut i: usize = 0;
        while i < self.regions.len()
            invariant
                i <= self.regions().len(),
                forall|x: (usize, &GuestRegionMmap)| #[trigger] mapf.requires((x,)),
                forall|a: T, b: T| #[trigger] foldf.requires((a, b)),
                acc.len() == i + 1,
                mapped.len() == i,
                acc[0] == init,
                acc[i as int] == cur,
                forall|k: int|
                    0 <= k < i ==> mapf.ensures(((k as usize, &#[trigger] self.regions()[k]),), mapped[k])
                        && foldf.ensures((acc[k], mapped[k]), acc[k + 1]),
            decreases self.regions().len() - i,
        {
            let m = mapf((i, &self.regions[i]));
            let next = foldf(cur, m);
            proof {
                acc = acc.push(next);
                mapped = mapped.push(m);
            }
            cur = next;
            i = i + 1;
        }
        cur
    }
}

} // verus!
