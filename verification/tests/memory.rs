use slate::frame_alloc::BootInfoFrameAllocator;
use slate::frame_alloc::MemoryRegion;
use slate::heap::init_heap;
use slate::heap::HEAP_SIZE;
use slate::heap::HEAP_START;
use slate::heap::KernelHeap;
use slate::paging::MapError;
use slate::paging::Mapper;

fn boot_regions() -> Vec<MemoryRegion> {
    vec![
        MemoryRegion { start: 0x1000, end: 0x5000, usable: true },
        MemoryRegion { start: 0x5000, end: 0x8000, usable: false },
        MemoryRegion { start: 0x8800, end: 0xB000, usable: true },
    ]
}

#[test]
fn frames_come_out_distinct_aligned_and_in_order() {
    let regions = boot_regions();
    let mut alloc = BootInfoFrameAllocator::init(&regions);
    let expected = [0x1000u64, 0x2000, 0x3000, 0x4000, 0x9000, 0xA000];
    let mut seen: Vec<u64> = Vec::new();
    for e in expected {
        let f = alloc.allocate_frame().unwrap();
        assert_eq!(f, e);
        assert_eq!(f % 4096, 0);
        assert!(!seen.contains(&f));
        seen.push(f);
    }
    assert_eq!(alloc.allocate_frame(), None);
    assert_eq!(alloc.allocate_frame(), None);
}

#[test]
fn reserved_regions_contribute_nothing() {
    let regions = vec![MemoryRegion { start: 0x1000, end: 0x100000, usable: false }];
    let mut alloc = BootInfoFrameAllocator::init(&regions);
    assert_eq!(alloc.allocate_frame(), None);
}

fn table_regions() -> Vec<MemoryRegion> {
    vec![MemoryRegion { start: 0x10_0000, end: 0x20_0000, usable: true }]
}

#[test]
fn fresh_mapper_translates_nothing() {
    let mapper = Mapper::new(0x1000);
    assert_eq!(mapper.translate_addr(0), None);
    assert_eq!(mapper.translate_addr(0x2000_0000), None);
    assert_eq!(mapper.translate_addr(HEAP_START), None);
}

#[test]
fn mapping_then_translating_gives_frame_plus_offset() {
    let regions = table_regions();
    let mut alloc = BootInfoFrameAllocator::init(&regions);
    let mut mapper = Mapper::new(0x1000);
    let page: u64 = 0x2000_0000;
    let frame: u64 = 0x5555_5000;
    mapper.map_page(page, frame, true, &mut alloc).unwrap();
    assert_eq!(mapper.translate_addr(page), Some(frame));
    assert_eq!(mapper.translate_addr(page + 0x123), Some(frame + 0x123));
    assert_eq!(mapper.translate_addr(page + 4095), Some(frame + 4095));
    // The neighbouring pages stay unmapped.
    assert_eq!(mapper.translate_addr(page - 0x1000), None);
    assert_eq!(mapper.translate_addr(page + 0x1000), None);
}

#[test]
fn round_trip_covers_the_page_contiguously() {
    let regions = table_regions();
    let mut alloc = BootInfoFrameAllocator::init(&regions);
    let mut mapper = Mapper::new(0x1000);
    let page: u64 = 0x4000_0000;
    let frame: u64 = 0x7777_7000;
    mapper.map_page(page, frame, true, &mut alloc).unwrap();
    let mut prev: Option<u64> = None;
    for off in 0..4096u64 {
        let pa = mapper.translate_addr(page + off).unwrap();
        assert_eq!(pa, frame + off);
        if let Some(p) = prev {
            assert_eq!(pa, p + 1);
        }
        prev = Some(pa);
    }
}

#[test]
fn remapping_a_mapped_page_is_refused() {
    let regions = table_regions();
    let mut alloc = BootInfoFrameAllocator::init(&regions);
    let mut mapper = Mapper::new(0x1000);
    let page: u64 = 0x2000_0000;
    mapper.map_page(page, 0x5555_5000, true, &mut alloc).unwrap();
    let r = mapper.map_page(page, 0x6666_6000, true, &mut alloc);
    assert_eq!(r, Err(MapError::PageAlreadyMapped));
    // The original mapping is untouched.
    assert_eq!(mapper.translate_addr(page), Some(0x5555_5000));
}

#[test]
fn two_pages_can_share_intermediate_tables() {
    let regions = table_regions();
    let mut alloc = BootInfoFrameAllocator::init(&regions);
    let mut mapper = Mapper::new(0x1000);
    mapper.map_page(0x2000_0000, 0x5555_5000, true, &mut alloc).unwrap();
    mapper.map_page(0x2000_1000, 0x6666_6000, false, &mut alloc).unwrap();
    assert_eq!(mapper.translate_addr(0x2000_0000), Some(0x5555_5000));
    assert_eq!(mapper.translate_addr(0x2000_1777), Some(0x6666_6777));
}

#[test]
fn frame_exhaustion_fails_the_mapping() {
    // One frame is not enough for the three missing tables.
    let regions = vec![MemoryRegion { start: 0x10_0000, end: 0x10_1000, usable: true }];
    let mut alloc = BootInfoFrameAllocator::init(&regions);
    let mut mapper = Mapper::new(0x1000);
    let r = mapper.map_page(0x2000_0000, 0x5555_5000, true, &mut alloc);
    assert_eq!(r, Err(MapError::FrameAllocationFailed));
}

#[test]
fn heap_bootstrap_maps_the_whole_region() {
    let regions = table_regions();
    let mut alloc = BootInfoFrameAllocator::init(&regions);
    let mut mapper = Mapper::new(0x1000);
    let heap = init_heap(&mut mapper, &mut alloc).unwrap();
    let _ = heap;
    assert!(mapper.translate_addr(HEAP_START).is_some());
    assert!(mapper.translate_addr(HEAP_START + HEAP_SIZE - 1).is_some());
    assert_eq!(mapper.translate_addr(HEAP_START + HEAP_SIZE), None);
    assert_eq!(mapper.translate_addr(HEAP_START - 1), None);
}

#[test]
fn heap_bootstrap_fails_without_frames() {
    let regions = vec![MemoryRegion { start: 0x10_0000, end: 0x10_2000, usable: true }];
    let mut alloc = BootInfoFrameAllocator::init(&regions);
    let mut mapper = Mapper::new(0x1000);
    let r = init_heap(&mut mapper, &mut alloc);
    assert_eq!(r.err(), Some(MapError::FrameAllocationFailed));
}

#[test]
fn live_allocations_never_overlap() {
    let mut heap = KernelHeap::new(HEAP_START, HEAP_SIZE);
    let a = heap.allocate(100).unwrap();
    let b = heap.allocate(200).unwrap();
    let c = heap.allocate(50).unwrap();
    assert_eq!(a, HEAP_START);
    assert_eq!(b, HEAP_START + 100);
    assert_eq!(c, HEAP_START + 300);
    // Free the middle allocation and carve a smaller one out of the hole.
    assert!(heap.deallocate(b));
    let d = heap.allocate(102050).unwrap();
    assert_eq!(d, HEAP_START + 350);
    let e = heap.allocate(180).unwrap();
    assert_eq!(e, HEAP_START + 100);
    // Live ranges now: a=[0,100) e=[100,280) c=[300,350) d=[350,..): disjoint.
    let live = [(a, 100u64), (e, 180), (c, 50), (d, 102050)];
    for (i, &(s1, l1)) in live.iter().enumerate() {
        for &(s2, l2) in live.iter().skip(i + 1) {
            assert!(s1 + l1 <= s2 || s2 + l2 <= s1);
        }
    }
    // Nothing big enough is left.
    assert_eq!(heap.allocate(50), None);
    assert_eq!(heap.allocate(20), Some(HEAP_START + 280));
}

#[test]
fn deallocating_an_unknown_address_frees_nothing() {
    let mut heap = KernelHeap::new(HEAP_START, HEAP_SIZE);
    let a = heap.allocate(64).unwrap();
    assert!(!heap.deallocate(a + 1));
    assert!(!heap.deallocate(0));
    assert!(heap.deallocate(a));
    assert!(!heap.deallocate(a));
}

#[test]
fn churn_reuses_freed_space_without_corruption() {
    let mut heap = KernelHeap::new(HEAP_START, HEAP_SIZE);
    let mut live: Vec<(u64, u64)> = Vec::new();
    for round in 0..8u64 {
        let size = 32 + round * 17;
        let base = heap.allocate(size).unwrap();
        for &(s, l) in &live {
            assert!(s + l <= base || base + size <= s);
        }
        live.push((base, size));
        if round % 2 == 1 {
            let (s, _) = live.remove(0);
            assert!(heap.deallocate(s));
        }
    }
}
