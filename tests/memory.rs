use guest_memory::{
    Bitmap, Error, EventFd, EventFdTrigger, GuestAddress, GuestMemoryError, GuestMemoryMmap,
    GuestRegionMmap, MemoryRegionAddress, Progress, Transfer, MAX_ACCESS_CHUNK,
};
use vm_memory::MmapRegion;

const PAGE: usize = 0x1000;

fn region(base: u64, size: usize) -> GuestRegionMmap {
    GuestRegionMmap::new(MmapRegion::new(size).unwrap(), GuestAddress(base)).unwrap()
}

fn spans(m: &GuestMemoryMmap) -> Vec<(u64, u64)> {
    let mut v = Vec::new();
    for i in 0..m.num_regions() {
        let g = m.region(i).unwrap();
        v.push((g.start_addr().0, g.len()));
    }
    v
}

/// Drives a transfer from `src` into `mem`, as a caller with a byte stream does.
fn transfer(mem: &mut GuestMemoryMmap, addr: GuestAddress, src: &[u8], count: usize) -> Result<usize, GuestMemoryError> {
    let mut pos = 0;
    let mut total = 0;
    loop {
        match mem.read_from_next(addr, count, total) {
            Transfer::Finished(r) => return r,
            Transfer::Request(len) => {
                let n = std::cmp::min(len, src.len() - pos);
                let chunk = &src[pos..pos + n];
                pos += n;
                match mem.read_from_accept(addr, count, total, chunk) {
                    Progress::Continue(t) => total = t,
                    Progress::Finished(t) => return Ok(t),
                }
            }
        }
    }
}

#[test]
fn write_in_second_page_marks_only_that_page() {
    let mut g = region(0x1000, 0x2000);
    g.enable_dirty_page_tracking(PAGE);
    assert_eq!(g.write(&[1, 2, 3, 4], MemoryRegionAddress(0x1005)).unwrap(), 4);
    let b = g.dirty_bitmap().unwrap();
    assert_eq!(b.len(), 2);
    assert!(!b.is_page_dirty(0));
    assert!(b.is_page_dirty(1));
}

#[test]
fn write_then_read_round_trip() {
    let mut g = region(0, 0x2000);
    let data: Vec<u8> = (0..100u8).collect();
    assert_eq!(g.write(&data, MemoryRegionAddress(0x1ff0)).unwrap(), 16);
    g.write_slice(&data, MemoryRegionAddress(0x10)).unwrap();
    let mut back = vec![0u8; 100];
    g.read_slice(&mut back, MemoryRegionAddress(0x10)).unwrap();
    assert_eq!(back, data);
    let mut tail = vec![0u8; 32];
    assert_eq!(g.read(&mut tail, MemoryRegionAddress(0x1ff0)).unwrap(), 16);
    assert_eq!(&tail[..16], &data[..16]);
    assert_eq!(&tail[16..], &[0u8; 16][..]);
}

#[test]
fn write_past_end_fails() {
    let mut g = region(0, PAGE);
    assert!(matches!(g.write(&[1], MemoryRegionAddress(PAGE as u64)), Err(GuestMemoryError::InvalidBackendAddress)));
    let mut buf = [0u8; 4];
    assert!(matches!(g.read(&mut buf, MemoryRegionAddress(PAGE as u64 + 7)), Err(GuestMemoryError::InvalidBackendAddress)));
}

#[test]
fn partial_write_slice_marks_written_part() {
    let mut g = region(0, 2 * PAGE);
    g.enable_dirty_page_tracking(PAGE);
    let r = g.write_slice(&[9u8; 8], MemoryRegionAddress(2 * PAGE as u64 - 3));
    assert!(matches!(r, Err(GuestMemoryError::PartialBuffer { expected: 8, completed: 3 })));
    let b = g.dirty_bitmap().unwrap();
    assert!(!b.is_page_dirty(0));
    assert!(b.is_page_dirty(1));
    let mut buf = [0u8; 5];
    let r = g.read_slice(&mut buf, MemoryRegionAddress(2 * PAGE as u64 - 3));
    assert!(matches!(r, Err(GuestMemoryError::PartialBuffer { expected: 5, completed: 3 })));
    assert_eq!(buf, [9, 9, 9, 0, 0]);
}

#[test]
fn untracked_region_writes_the_same_and_records_nothing() {
    let mut a = region(0, PAGE);
    let mut b = region(0, PAGE);
    b.enable_dirty_page_tracking(PAGE);
    a.write_slice(&[5, 6, 7], MemoryRegionAddress(10)).unwrap();
    b.write_slice(&[5, 6, 7], MemoryRegionAddress(10)).unwrap();
    assert!(a.dirty_bitmap().is_none());
    let (mut x, mut y) = ([0u8; 3], [0u8; 3]);
    a.read_slice(&mut x, MemoryRegionAddress(10)).unwrap();
    b.read_slice(&mut y, MemoryRegionAddress(10)).unwrap();
    assert_eq!(x, y);
    assert!(b.dirty_bitmap().unwrap().is_page_dirty(0));
}

#[test]
fn enabling_tracking_twice_keeps_bitmap() {
    let mut g = region(0, 2 * PAGE);
    g.enable_dirty_page_tracking(PAGE);
    g.write(&[1], MemoryRegionAddress(0)).unwrap();
    g.enable_dirty_page_tracking(PAGE);
    assert!(g.dirty_bitmap().unwrap().is_page_dirty(0));
}

#[test]
fn disjoint_writers_lose_no_dirty_page() {
    let mut g = region(0, 8 * PAGE);
    g.enable_dirty_page_tracking(PAGE);
    let ranges = [(0usize, 10usize), (3 * PAGE - 1, 2), (6 * PAGE, PAGE)];
    for (off, len) in ranges.iter() {
        g.write_slice(&vec![1u8; *len], MemoryRegionAddress(*off as u64)).unwrap();
    }
    let b = g.dirty_bitmap().unwrap();
    let dirty: Vec<bool> = (0..8).map(|i| b.is_page_dirty(i)).collect();
    assert_eq!(dirty, vec![true, false, true, true, false, false, true, false]);
}

#[test]
fn region_overflowing_address_space_is_refused() {
    let r = GuestRegionMmap::new(MmapRegion::new(PAGE).unwrap(), GuestAddress(u64::MAX - 10));
    assert!(matches!(r, Err(Error::InvalidGuestRegion)));
    let g = region(u64::MAX - PAGE as u64, PAGE);
    assert_eq!(g.last_addr(), GuestAddress(u64::MAX - 1));
}

#[test]
fn find_region_in_regions_and_gaps() {
    let m = GuestMemoryMmap::from_regions(vec![region(0, PAGE), region(0x4000, 2 * PAGE), region(0x8000, PAGE)]).unwrap();
    assert_eq!(m.num_regions(), 3);
    for (addr, base) in [(0u64, Some(0u64)), (0xfff, Some(0)), (0x1000, None), (0x3fff, None), (0x4000, Some(0x4000)), (0x5fff, Some(0x4000)), (0x6000, None), (0x8abc, Some(0x8000)), (0x9000, None)] {
        assert_eq!(m.find_region(GuestAddress(addr)).map(|g| g.start_addr().0), base, "address {:#x}", addr);
    }
}

#[test]
fn from_regions_errors() {
    assert!(matches!(GuestMemoryMmap::from_regions(vec![]), Err(Error::NoMemoryRegion)));
    assert!(matches!(GuestMemoryMmap::from_regions(vec![region(0x4000, PAGE), region(0, PAGE)]), Err(Error::UnsortedMemoryRegions)));
    assert!(matches!(GuestMemoryMmap::from_regions(vec![region(0, 2 * PAGE), region(PAGE as u64, PAGE)]), Err(Error::MemoryRegionOverlap)));
    assert!(GuestMemoryMmap::from_regions(vec![region(0, PAGE), region(PAGE as u64, PAGE)]).is_ok());
}

#[test]
fn from_ranges_builds_regions() {
    let m = GuestMemoryMmap::from_ranges(&[(GuestAddress(0), PAGE), (GuestAddress(0x10000), 2 * PAGE)]).unwrap();
    assert_eq!(spans(&m), vec![(0, PAGE as u64), (0x10000, 2 * PAGE as u64)]);
    assert!(!m.is_dirty_tracking_enabled());
    let t = GuestMemoryMmap::from_ranges_with_tracking(&[(GuestAddress(0), PAGE)], PAGE).unwrap();
    assert!(t.is_dirty_tracking_enabled());
    assert!(matches!(GuestMemoryMmap::from_ranges(&[]), Err(Error::NoMemoryRegion)));
    assert!(matches!(GuestMemoryMmap::from_ranges(&[(GuestAddress(0), 2 * PAGE), (GuestAddress(PAGE as u64), PAGE)]), Err(Error::MemoryRegionOverlap)));
    assert!(matches!(GuestMemoryMmap::from_ranges(&[(GuestAddress(u64::MAX - 5), PAGE)]), Err(Error::InvalidGuestRegion)));
}

#[test]
fn overlapping_insert_fails_and_leaves_memory() {
    let mut m = GuestMemoryMmap::from_regions(vec![region(0, PAGE), region(0x4000, PAGE)]).unwrap();
    let before = spans(&m);
    assert!(matches!(m.insert_region(region(0x3800, PAGE), PAGE), Err(Error::MemoryRegionOverlap)));
    assert!(matches!(m.insert_region(region(0, PAGE), PAGE), Err(Error::MemoryRegionOverlap)));
    assert_eq!(spans(&m), before);
    assert!(m.find_region(GuestAddress(0x4000)).is_some());
}

#[test]
fn insert_then_remove_restores() {
    let mut m = GuestMemoryMmap::from_regions(vec![region(0, PAGE), region(0x4000, PAGE)]).unwrap();
    let before = spans(&m);
    m.insert_region(region(0x2000, PAGE), PAGE).unwrap();
    assert_eq!(spans(&m), vec![(0, 0x1000), (0x2000, 0x1000), (0x4000, 0x1000)]);
    let g = m.remove_region(GuestAddress(0x2000), PAGE as u64).unwrap();
    assert_eq!(g.start_addr(), GuestAddress(0x2000));
    assert_eq!(spans(&m), before);
}

#[test]
fn insert_matches_tracking_of_memory() {
    let mut t = GuestMemoryMmap::from_ranges_with_tracking(&[(GuestAddress(0), PAGE)], PAGE).unwrap();
    t.insert_region(region(0x8000, PAGE), PAGE).unwrap();
    assert!(t.is_dirty_tracking_enabled());
    let mut u = GuestMemoryMmap::from_ranges(&[(GuestAddress(0), PAGE)]).unwrap();
    let mut g = region(0x8000, PAGE);
    g.enable_dirty_page_tracking(PAGE);
    u.insert_region(g, PAGE).unwrap();
    assert!(u.find_region(GuestAddress(0x8000)).unwrap().dirty_bitmap().is_none());
}

#[test]
fn remove_with_wrong_size_fails() {
    let mut m = GuestMemoryMmap::from_regions(vec![region(0, PAGE), region(0x4000, PAGE)]).unwrap();
    let before = spans(&m);
    assert!(matches!(m.remove_region(GuestAddress(0x4000), 2 * PAGE as u64), Err(Error::InvalidGuestRegion)));
    assert!(matches!(m.remove_region(GuestAddress(0x5000), PAGE as u64), Err(Error::InvalidGuestRegion)));
    assert_eq!(spans(&m), before);
}

#[test]
fn short_source_gives_partial_buffer() {
    let mut m = GuestMemoryMmap::from_ranges_with_tracking(&[(GuestAddress(0x1000), 2 * PAGE)], PAGE).unwrap();
    let src = [7u8; 10];
    let done = transfer(&mut m, GuestAddress(0x1ffc), &src, 20).unwrap();
    assert_eq!(done, 10);
    let r = GuestMemoryMmap::check_exact_transfer(20, done);
    assert!(matches!(r, Err(GuestMemoryError::PartialBuffer { expected: 20, completed: 10 })));
    assert!(GuestMemoryMmap::check_exact_transfer(20, 20).is_ok());
    let g = m.find_region(GuestAddress(0x1ffc)).unwrap();
    let mut back = [0u8; 12];
    g.read_slice(&mut back, MemoryRegionAddress(0xffc)).unwrap();
    assert_eq!(back, [7, 7, 7, 7, 7, 7, 7, 7, 7, 7, 0, 0]);
    let b = g.dirty_bitmap().unwrap();
    assert!(b.is_page_dirty(0) && b.is_page_dirty(1));
}

#[test]
fn transfer_spans_regions_and_chunks() {
    let mut m = GuestMemoryMmap::from_ranges(&[(GuestAddress(0), 2 * PAGE), (GuestAddress(2 * PAGE as u64), 2 * PAGE)]).unwrap();
    assert!(matches!(m.read_from_next(GuestAddress(0x10), 10000, 0), Transfer::Request(MAX_ACCESS_CHUNK)));
    assert!(matches!(m.read_from_next(GuestAddress(0x10), 10000, 8000), Transfer::Request(176)));
    let src: Vec<u8> = (0..3 * PAGE).map(|i| (i % 251) as u8).collect();
    assert_eq!(transfer(&mut m, GuestAddress(0x800), &src, src.len()).unwrap(), src.len());
    let mut back = vec![0u8; 0x800];
    m.find_region(GuestAddress(0x2800)).unwrap().read_slice(&mut back, MemoryRegionAddress(0x800)).unwrap();
    assert_eq!(&back[..], &src[2 * PAGE..2 * PAGE + 0x800]);
}

#[test]
fn transfer_outside_memory_fails() {
    let mut m = GuestMemoryMmap::from_ranges(&[(GuestAddress(0), PAGE)]).unwrap();
    assert!(matches!(transfer(&mut m, GuestAddress(0x5000), &[1, 2], 2), Err(GuestMemoryError::InvalidGuestAddress(GuestAddress(0x5000)))));
    assert_eq!(transfer(&mut m, GuestAddress(0xffe), &[1, 2, 3, 4], 4).unwrap(), 2);
    assert_eq!(transfer(&mut m, GuestAddress(0), &[], 0).unwrap(), 0);
}

#[test]
fn bitmap_pages_and_reset() {
    let mut b = Bitmap::new(0x2001, PAGE);
    assert_eq!(b.len(), 3);
    b.set_addr_range(0xfff, 2);
    assert!(b.is_page_dirty(0) && b.is_page_dirty(1) && !b.is_page_dirty(2));
    assert!(b.is_addr_set(0x1800));
    assert!(!b.is_addr_set(0x2000));
    b.set_addr_range(0x2000, 0);
    assert!(!b.is_page_dirty(2));
    b.reset();
    assert!(!b.is_page_dirty(0) && !b.is_page_dirty(1));
    assert_eq!(Bitmap::new(0, PAGE).len(), 0);
}

#[test]
fn event_fd_counts() {
    let evt = EventFd::new(0).unwrap();
    evt.write(3).unwrap();
    evt.write(4).unwrap();
    assert_eq!(evt.read().unwrap(), 7);
    let trig = EventFdTrigger::new(evt.try_clone().unwrap());
    trig.trigger().unwrap();
    let other = trig.try_clone().unwrap();
    other.trigger().unwrap();
    assert_eq!(trig.get_event().unwrap().read().unwrap(), 2);
}

#[test]
fn with_regions_visits_in_order_and_stops_at_failure() {
    let m = GuestMemoryMmap::from_regions(vec![region(0, PAGE), region(0x4000, 2 * PAGE), region(0x8000, PAGE)]).unwrap();
    let seen = std::cell::RefCell::new(Vec::new());
    let r: Result<(), u64> = m.with_regions(|i, g| {
        seen.borrow_mut().push((i, g.start_addr().0));
        if g.len() > PAGE as u64 { Err(g.start_addr().0) } else { Ok(()) }
    });
    assert_eq!(r, Err(0x4000));
    assert_eq!(*seen.borrow(), vec![(0, 0), (1, 0x4000)]);
    assert!(m.with_regions(|_, _| Ok::<(), ()>(())).is_ok());
}

#[test]
fn map_and_fold_sums_sizes() {
    let m = GuestMemoryMmap::from_regions(vec![region(0, PAGE), region(0x4000, 2 * PAGE)]).unwrap();
    let total = m.map_and_fold(0u64, |(_, g)| g.len(), |a, b| a + b);
    assert_eq!(total, 3 * PAGE as u64);
    let indices = m.map_and_fold(0usize, |(i, _)| i + 1, |a, b| a * 10 + b);
    assert_eq!(indices, 12);
}

#[test]
fn anonymous_region_has_no_file() {
    assert!(region(0, PAGE).file_offset().is_none());
}

#[test]
fn default_memory_is_empty() {
    let m = GuestMemoryMmap::default();
    assert_eq!(m.num_regions(), 0);
    assert!(m.find_region(GuestAddress(0)).is_none());
    assert_eq!(GuestMemoryMmap::new().num_regions(), 0);
}

#[test]
fn from_ranges_first_bad_range_decides() {
    let r = GuestMemoryMmap::from_ranges(&[(GuestAddress(0x4000), PAGE), (GuestAddress(0), PAGE), (GuestAddress(0x5000), 2 * PAGE), (GuestAddress(0x5800), PAGE)]);
    assert!(matches!(r, Err(Error::UnsortedMemoryRegions)));
    let r = GuestMemoryMmap::from_ranges(&[(GuestAddress(0), 2 * PAGE), (GuestAddress(PAGE as u64), PAGE), (GuestAddress(0), PAGE)]);
    assert!(matches!(r, Err(Error::MemoryRegionOverlap)));
    let r = GuestMemoryMmap::from_ranges(&[(GuestAddress(0x4000), PAGE), (GuestAddress(0), PAGE), (GuestAddress(u64::MAX - 5), PAGE)]);
    assert!(matches!(r, Err(Error::InvalidGuestRegion)));
}

#[test]
fn mapped_regions_are_accessible() {
    assert!(region(0, PAGE).is_accessible());
    let m = GuestMemoryMmap::from_ranges(&[(GuestAddress(0), PAGE), (GuestAddress(0x4000), PAGE)]).unwrap();
    assert!(m.is_accessible());
}

#[test]
fn read_only_mapping_is_not_accessible() {
    let m = MmapRegion::build(None, PAGE, libc::PROT_READ, libc::MAP_ANONYMOUS | libc::MAP_PRIVATE).unwrap();
    let g = GuestRegionMmap::new(m, GuestAddress(0)).unwrap();
    assert!(!g.is_accessible());
    let mem = GuestMemoryMmap::from_regions(vec![g, region(0x4000, PAGE)]).unwrap();
    assert!(!mem.is_accessible());
}
