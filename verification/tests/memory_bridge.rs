use rust_os::allocator::{init_heap, map_heap_region, Heap, HeapRegion, MapError, HEAP_SIZE, HEAP_START};
use rust_os::global_alloc::GlobalAlloc;
use rust_os::memory::{translate_addr, BootInfoFrameAllocator, MemoryRegion, PageTable, PAGE_SIZE};

fn region(start: u64, end: u64, usable: bool) -> MemoryRegion {
    MemoryRegion { start, end, usable }
}

#[test]
fn frame_source_offers_usable_frames_in_order() {
    let memory_map = vec![
        region(0, 2 * PAGE_SIZE, true),
        region(2 * PAGE_SIZE, 3 * PAGE_SIZE, false),
        region(3 * PAGE_SIZE, 4 * PAGE_SIZE, true),
    ];
    let mut fa = BootInfoFrameAllocator::init(&memory_map);
    assert_eq!(fa.allocate_frame(), Some(0));
    assert_eq!(fa.allocate_frame(), Some(PAGE_SIZE));
    assert_eq!(fa.allocate_frame(), Some(3 * PAGE_SIZE));
    assert_eq!(fa.allocate_frame(), None);
    assert_eq!(fa.allocate_frame(), None);
}

#[test]
fn empty_and_reserved_regions_offer_nothing() {
    let memory_map = vec![
        region(0, 0, true),
        region(PAGE_SIZE, 6 * PAGE_SIZE, false),
    ];
    let mut fa = BootInfoFrameAllocator::init(&memory_map);
    assert_eq!(fa.allocate_frame(), None);
}

#[test]
fn translation_keeps_the_page_offset() {
    let mut pt = PageTable::new();
    pt.map_to(0x2000, 0x5000, true);
    assert_eq!(translate_addr(&pt, 0x2abc), Some(0x5abc));
    assert_eq!(translate_addr(&pt, 0x2000), Some(0x5000));
    assert_eq!(translate_addr(&pt, 0x3000), None);
    assert_eq!(translate_addr(&pt, 0x1fff), None);
}

#[test]
fn heap_mapping_maps_every_page_and_hands_off() {
    let mut pt = PageTable::new();
    // exactly as many frames as the heap needs: 25 pages of 4 KiB for 100 KiB
    let memory_map = vec![region(0, HEAP_SIZE, true)];
    let mut fa = BootInfoFrameAllocator::init(&memory_map);
    let mut heap = Heap::empty();
    assert_eq!(init_heap(&mut pt, &mut fa, &mut heap), Ok(()));
    assert_eq!(heap.region, HeapRegion { start: HEAP_START, size: HEAP_SIZE });
    // the first heap page is backed by the first frame, offsets pass through
    assert_eq!(translate_addr(&pt, HEAP_START + 5), Some(5));
    assert_eq!(translate_addr(&pt, HEAP_START + PAGE_SIZE + 7), Some(PAGE_SIZE + 7));
    // the whole frame supply was consumed
    assert_eq!(fa.allocate_frame(), None);
    // and the allocator serves from the mapped region
    assert_eq!(heap.allocate(64, 8), Some(HEAP_START));
}

#[test]
fn mappings_outside_the_heap_range_survive_the_bootstrap() {
    let mut pt = PageTable::new();
    pt.map_to(0x2000, 40 * PAGE_SIZE, true);
    let memory_map = vec![region(0, HEAP_SIZE, true)];
    let mut fa = BootInfoFrameAllocator::init(&memory_map);
    let mut heap = Heap::empty();
    assert_eq!(init_heap(&mut pt, &mut fa, &mut heap), Ok(()));
    // the unrelated mapping is neither changed nor removed
    assert_eq!(translate_addr(&pt, 0x2abc), Some(40 * PAGE_SIZE + 0xabc));
    // and the heap pages are mapped to the frames drawn in order
    assert_eq!(translate_addr(&pt, HEAP_START), Some(0));
}

#[test]
fn frame_exhaustion_abandons_the_region_without_rollback() {
    let mut pt = PageTable::new();
    // ten frames cannot back twenty-five pages
    let memory_map = vec![region(0, 10 * PAGE_SIZE, true)];
    let mut fa = BootInfoFrameAllocator::init(&memory_map);
    let mut heap = Heap::empty();
    assert_eq!(init_heap(&mut pt, &mut fa, &mut heap), Err(MapError::FrameExhausted));
    // the allocator was never handed the region
    assert_eq!(heap.region, HeapRegion { start: 0, size: 0 });
    assert_eq!(heap.allocate(1, 1), None);
    // the mappings already installed stay in place
    assert_eq!(translate_addr(&pt, HEAP_START), Some(0));
    assert_eq!(translate_addr(&pt, HEAP_START + 9 * PAGE_SIZE), Some(9 * PAGE_SIZE));
    assert_eq!(translate_addr(&pt, HEAP_START + 10 * PAGE_SIZE), None);
    // the frame source ran dry
    assert_eq!(fa.allocate_frame(), None);
}

#[test]
fn mapping_a_general_region_counts_pages_from_boundaries() {
    let mut pt = PageTable::new();
    let memory_map = vec![region(PAGE_SIZE, 4 * PAGE_SIZE, true)];
    let mut fa = BootInfoFrameAllocator::init(&memory_map);
    let mut heap = Heap::empty();
    // two bytes straddling a page boundary need two pages
    let r = map_heap_region(0x10_0FFF, 2, &mut pt, &mut fa, &mut heap);
    assert_eq!(r, Ok(()));
    assert_eq!(translate_addr(&pt, 0x10_0FFF), Some(PAGE_SIZE + 0xFFF));
    assert_eq!(translate_addr(&pt, 0x10_1000), Some(2 * PAGE_SIZE));
    assert_eq!(fa.allocate_frame(), Some(3 * PAGE_SIZE));
}
