use rust_os::allocator::{Dummy, Heap, HeapRegion};
use rust_os::global_alloc::GlobalAlloc;

const BASE: u64 = 0x1000;

fn heap_of(size: u64) -> Heap {
    let mut heap = Heap::empty();
    heap.init(BASE, size);
    heap
}

#[test]
fn allocation_unavailable_before_init() {
    let mut heap = Heap::empty();
    assert_eq!(heap.allocate(1, 1), None);
}

#[test]
fn first_fit_serves_the_lowest_aligned_address() {
    let mut heap = heap_of(1024);
    assert_eq!(heap.allocate(100, 8), Some(BASE));
    // the next request starts after the first allocation, padded to align 16:
    // 0x1064 needs 12 bytes of padding to reach 0x1070
    assert_eq!(heap.allocate(50, 16), Some(0x1070));
}

#[test]
fn allocations_are_aligned_and_disjoint() {
    let mut heap = heap_of(4096);
    let mut live: Vec<(u64, u64)> = Vec::new();
    for (size, align) in [(1u64, 1u64), (3, 2), (100, 8), (17, 16), (64, 64), (5, 4)] {
        let addr = heap.allocate(size, align).unwrap();
        assert_eq!(addr % align, 0);
        assert!(BASE <= addr && addr + size <= BASE + 4096);
        for &(b, bs) in live.iter() {
            assert!(addr + size <= b || b + bs <= addr);
        }
        live.push((addr, size));
    }
}

#[test]
fn request_beyond_capacity_fails() {
    let mut heap = heap_of(1024);
    assert_eq!(heap.allocate(2000, 1), None);
    assert_eq!(heap.allocate(1024, 1), Some(BASE));
    assert_eq!(heap.allocate(1, 1), None);
}

#[test]
fn freed_address_is_reused_for_equal_or_smaller_request() {
    let mut heap = heap_of(4096);
    let a = heap.allocate(128, 8).unwrap();
    assert_eq!(a, BASE);
    heap.deallocate(a, 128, 8);
    assert_eq!(heap.allocate(128, 8), Some(BASE));
    heap.deallocate(BASE, 128, 8);
    assert_eq!(heap.allocate(64, 8), Some(BASE));
}

#[test]
fn repeated_alloc_free_never_grows_the_footprint() {
    let mut heap = heap_of(4096);
    for _ in 0..10_000 {
        let a = heap.allocate(128, 8).unwrap();
        assert_eq!(a, BASE);
        heap.deallocate(a, 128, 8);
    }
}

#[test]
fn freed_neighbours_coalesce() {
    let mut heap = heap_of(1024);
    let a = heap.allocate(100, 1).unwrap();
    let b = heap.allocate(100, 1).unwrap();
    let c = heap.allocate(100, 1).unwrap();
    assert_eq!((a, b, c), (BASE, BASE + 100, BASE + 200));
    heap.deallocate(a, 100, 1);
    heap.deallocate(c, 100, 1);
    heap.deallocate(b, 100, 1);
    // only full coalescing makes the whole region one block again
    assert_eq!(heap.allocate(1024, 1), Some(BASE));
}

#[test]
fn hole_is_filled_first() {
    let mut heap = heap_of(1024);
    let a = heap.allocate(100, 1).unwrap();
    let _b = heap.allocate(100, 1).unwrap();
    heap.deallocate(a, 100, 1);
    // first fit prefers the freed hole at the region's start
    assert_eq!(heap.allocate(40, 1), Some(BASE));
    assert_eq!(heap.region, HeapRegion { start: BASE, size: 1024 });
}

#[test]
fn reallocate_moves_and_frees_the_old_block() {
    let mut heap = heap_of(4096);
    let a = heap.allocate(100, 8).unwrap();
    let moved = heap.reallocate(a, 100, 8, 200).unwrap();
    // the new block is fresh — never the old address — and inside the region
    assert_ne!(a, moved);
    assert!(BASE <= moved && moved + 200 <= BASE + 4096);
    // the old block is free again: an equal request gets its address back
    assert_eq!(heap.allocate(100, 8), Some(a));
}

#[test]
fn reallocate_failure_keeps_the_old_block() {
    let mut heap = heap_of(512);
    let a = heap.allocate(100, 8).unwrap();
    assert_eq!(heap.reallocate(a, 100, 8, 4096), None);
    // the old allocation still stands: freeing and reallocating works
    heap.deallocate(a, 100, 8);
    assert_eq!(heap.allocate(100, 8), Some(a));
}

#[test]
fn allocate_zeroed_follows_the_allocation_contract() {
    let mut heap = heap_of(1024);
    let a = heap.allocate_zeroed(32, 32).unwrap();
    assert_eq!(a % 32, 0);
    // the zeroed path stays inside the owned region and keeps it
    assert!(BASE <= a && a + 32 <= BASE + 1024);
    assert_eq!(heap.region, HeapRegion { start: BASE, size: 1024 });
}

#[test]
fn dummy_allocator_always_fails() {
    let mut dummy = Dummy;
    assert_eq!(dummy.allocate(1, 1), None);
    assert_eq!(dummy.allocate(100, 8), None);
    assert_eq!(dummy.allocate_zeroed(8, 8), None);
}
