//! Tests of the buddy frame allocator: initialization, allocation,
//! freeing, coalescing, exhaustion and the address arithmetic helpers.

use kmem::buddy::{
    alloc_frame, alloc_zero, allocated_pages, free, get_frame_size, get_order, init,
    FLAG_ZONE_TYPE_DMA, FLAG_ZONE_TYPE_KERNEL, FLAG_ZONE_TYPE_USER, MemmapInfo,
};
use kmem::memory::PAGE_SIZE;

/// A memory map whose kernel zone holds exactly one mebibyte below the
/// kernel zone limit and whose user zone holds one mebibyte above it.
/// Each zone then has 255 allocatable pages, and its data region starts
/// one page past the zone's begin.
fn test_map() -> MemmapInfo {
    MemmapInfo { phys_alloc_begin: 0x3ff0_0000, available_memory: 0x20_0000 }
}

const KERNEL_DATA_BEGIN: usize = 0x3ff0_1000;
const USER_DATA_BEGIN: usize = 0x4000_1000;
const ZONE_PAGES: usize = 255;

#[test]
fn frame_size_values() {
    assert_eq!(get_frame_size(0), 4096);
    assert_eq!(get_frame_size(1), 8192);
    assert_eq!(get_frame_size(17), 4096 << 17);
}

#[test]
fn order_values() {
    assert_eq!(get_order(0), 0);
    assert_eq!(get_order(1), 0);
    assert_eq!(get_order(2), 1);
    assert_eq!(get_order(3), 2);
    assert_eq!(get_order(4), 2);
    assert_eq!(get_order(5), 3);
    assert_eq!(get_order(1000), 10);
    assert_eq!(get_order(1024), 10);
}

#[test]
fn init_zones_empty() {
    let zones = init(&test_map());
    assert_eq!(allocated_pages(&zones), 0);
}

#[test]
fn first_allocation_addresses() {
    let mut zones = init(&test_map());
    // The only order-0 block of a freshly filled 255-page zone is its
    // last page.
    let p = alloc_frame(&mut zones, 0, FLAG_ZONE_TYPE_KERNEL).unwrap();
    assert_eq!(p, KERNEL_DATA_BEGIN + 254 * PAGE_SIZE);
    let q = alloc_frame(&mut zones, 0, FLAG_ZONE_TYPE_USER).unwrap();
    assert_eq!(q, USER_DATA_BEGIN + 254 * PAGE_SIZE);
    assert_eq!(allocated_pages(&zones), 2);
}

#[test]
fn alloc_zero_behaves_like_alloc() {
    let mut zones = init(&test_map());
    let p = alloc_zero(&mut zones, 0, FLAG_ZONE_TYPE_KERNEL).unwrap();
    assert_eq!(p, KERNEL_DATA_BEGIN + 254 * PAGE_SIZE);
    assert_eq!(allocated_pages(&zones), 1);
}

#[test]
fn allocation_alignment() {
    // A successful allocation of order `o` is aligned to `2^o` pages
    // relative to the start of the zone's data region.
    let mut zones = init(&test_map());
    for o in 0..6u8 {
        let p = alloc_frame(&mut zones, o, FLAG_ZONE_TYPE_KERNEL).unwrap();
        assert_eq!((p - KERNEL_DATA_BEGIN) % (PAGE_SIZE << o), 0);
    }
}

#[test]
fn invalid_zone_flags_fail() {
    let mut zones = init(&test_map());
    assert!(alloc_frame(&mut zones, 0, 0b11).is_err());
    assert_eq!(allocated_pages(&zones), 0);
}

#[test]
fn dma_zone_is_empty() {
    let mut zones = init(&test_map());
    assert!(alloc_frame(&mut zones, 0, FLAG_ZONE_TYPE_DMA).is_err());
}

#[test]
fn alloc_free_round_trip() {
    // Allocating and immediately freeing a block restores the allocated
    // page count and the free-list shape: the next allocation of the same
    // order returns the same address again.
    let mut zones = init(&test_map());
    let p = alloc_frame(&mut zones, 2, FLAG_ZONE_TYPE_KERNEL).unwrap();
    assert_eq!(allocated_pages(&zones), 4);
    free(&mut zones, p, 2);
    assert_eq!(allocated_pages(&zones), 0);
    let q = alloc_frame(&mut zones, 2, FLAG_ZONE_TYPE_KERNEL).unwrap();
    assert_eq!(q, p);
}

#[test]
fn round_trip_after_split() {
    // An order-0 allocation that splits a larger block is also undone
    // exactly by the matching free.
    let mut zones = init(&test_map());
    // Take the only order-0 block first, so the next order-0 allocation
    // has to split the order-1 block.
    let p1 = alloc_frame(&mut zones, 0, FLAG_ZONE_TYPE_KERNEL).unwrap();
    let p2 = alloc_frame(&mut zones, 0, FLAG_ZONE_TYPE_KERNEL).unwrap();
    assert_eq!(p2, KERNEL_DATA_BEGIN + 252 * PAGE_SIZE);
    free(&mut zones, p2, 0);
    let p3 = alloc_frame(&mut zones, 0, FLAG_ZONE_TYPE_KERNEL).unwrap();
    assert_eq!(p3, p2);
    free(&mut zones, p3, 0);
    free(&mut zones, p1, 0);
    assert_eq!(allocated_pages(&zones), 0);
}

#[test]
fn buddy_coalescing() {
    // Allocate two order-0 buddy sibling blocks, free both: they merge
    // into one order-1 block, which the next order-1 allocation returns
    // without splitting any higher order.
    let mut zones = init(&test_map());
    let _last = alloc_frame(&mut zones, 0, FLAG_ZONE_TYPE_KERNEL).unwrap();
    let lower = alloc_frame(&mut zones, 0, FLAG_ZONE_TYPE_KERNEL).unwrap();
    let upper = alloc_frame(&mut zones, 0, FLAG_ZONE_TYPE_KERNEL).unwrap();
    // The two blocks are buddy siblings of order 0.
    assert_eq!(lower, KERNEL_DATA_BEGIN + 252 * PAGE_SIZE);
    assert_eq!(upper, KERNEL_DATA_BEGIN + 253 * PAGE_SIZE);
    free(&mut zones, lower, 0);
    free(&mut zones, upper, 0);
    let merged = alloc_frame(&mut zones, 1, FLAG_ZONE_TYPE_KERNEL).unwrap();
    assert_eq!(merged, lower);
}

#[test]
fn exhaustion_counts_every_page() {
    // Repeated order-0 allocations on an empty zone of N pages succeed
    // exactly N times, then fail; freeing everything restores the zone.
    let mut zones = init(&test_map());
    let mut ptrs = Vec::new();
    loop {
        match alloc_frame(&mut zones, 0, FLAG_ZONE_TYPE_KERNEL) {
            Ok(p) => ptrs.push(p),
            Err(_) => break,
        }
    }
    assert_eq!(ptrs.len(), ZONE_PAGES);
    assert_eq!(allocated_pages(&zones), ZONE_PAGES);
    assert!(alloc_frame(&mut zones, 0, FLAG_ZONE_TYPE_KERNEL).is_err());
    // No address is handed out twice.
    let mut sorted = ptrs.clone();
    sorted.sort();
    for w in sorted.windows(2) {
        assert!(w[0] != w[1]);
    }
    for p in ptrs {
        free(&mut zones, p, 0);
    }
    assert_eq!(allocated_pages(&zones), 0);
    assert!(alloc_frame(&mut zones, 0, FLAG_ZONE_TYPE_KERNEL).is_ok());
}

#[test]
fn large_order_out_of_reach() {
    // No block of order 8 (256 pages) fits a 255-page zone.
    let mut zones = init(&test_map());
    assert!(alloc_frame(&mut zones, 8, FLAG_ZONE_TYPE_KERNEL).is_err());
    assert!(alloc_frame(&mut zones, 7, FLAG_ZONE_TYPE_KERNEL).is_ok());
}
