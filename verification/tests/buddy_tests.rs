use kernel_core::buddy::BuddyAllocator;
use kernel_core::consts::PHYS_MEM_OFFSET;

const MIB: u64 = 0x100000;

fn fresh_allocator() -> BuddyAllocator {
    // 64 MiB direct-mapped region starting at the direct-map base.
    BuddyAllocator::init(PHYS_MEM_OFFSET, 64 * MIB)
}

// The first top-order block lands past the bitmaps, aligned to 4 MiB.
const FIRST_BLOCK: u64 = PHYS_MEM_OFFSET + 4 * MIB;

#[test]
fn alloc_then_free_restores_every_order() {
    let mut buddy = fresh_allocator();
    for order in 0..=10usize {
        let first = buddy.alloc_pages_order(order).unwrap();
        buddy.free_pages_order(first, order);
        let second = buddy.alloc_pages_order(order).unwrap();
        assert_eq!(first, second, "round trip changed the block at this order");
        buddy.free_pages_order(second, order);
    }
}

#[test]
fn buddies_merge_when_freed_in_order() {
    let mut buddy = fresh_allocator();
    let a = buddy.alloc_pages_order(0).unwrap();
    let b = buddy.alloc_pages_order(0).unwrap();
    assert_eq!(a, FIRST_BLOCK);
    assert_eq!(b, FIRST_BLOCK + 4096);
    buddy.free_pages_order(a, 0);
    buddy.free_pages_order(b, 0);
    // both halves free: they must have merged upward, so an order-1
    // request is served from the merged block, not a fresh split
    let merged = buddy.alloc_pages_order(1).unwrap();
    assert_eq!(merged, a);
}

#[test]
fn buddies_merge_when_freed_in_reverse_order() {
    let mut buddy = fresh_allocator();
    let a = buddy.alloc_pages_order(0).unwrap();
    let b = buddy.alloc_pages_order(0).unwrap();
    buddy.free_pages_order(b, 0);
    buddy.free_pages_order(a, 0);
    let merged = buddy.alloc_pages_order(1).unwrap();
    assert_eq!(merged, a);
}

#[test]
fn merge_recurses_upward() {
    let mut buddy = fresh_allocator();
    let a = buddy.alloc_pages_order(1).unwrap();
    let b = buddy.alloc_pages_order(1).unwrap();
    let c = buddy.alloc_pages_order(0).unwrap();
    assert_eq!(b, a + 2 * 4096);
    assert_eq!(c, a + 4 * 4096);
    buddy.free_pages_order(a, 1);
    buddy.free_pages_order(b, 1);
    // a and b merged to order 2; an order-2 request gets that block back
    let merged = buddy.alloc_pages_order(2).unwrap();
    assert_eq!(merged, a);
    buddy.free_pages_order(merged, 2);
    buddy.free_pages_order(c, 0);
}

#[test]
fn split_serves_distinct_halves() {
    let mut buddy = fresh_allocator();
    let a = buddy.alloc_pages_order(3).unwrap();
    let b = buddy.alloc_pages_order(3).unwrap();
    assert_ne!(a, b);
    assert_eq!(b - a, 8 * 4096);
}

#[test]
fn exhaustion_returns_nothing() {
    // a region smaller than one top-order block can never serve anything
    let mut buddy = BuddyAllocator::init(PHYS_MEM_OFFSET, MIB);
    assert!(buddy.alloc_pages_order(0).is_none());
    assert!(buddy.alloc_pages_order(10).is_none());
}

#[test]
fn alloc_pages_rounds_to_covering_order() {
    let mut buddy = fresh_allocator();
    // 3 pages round up to order 2 (4 pages)
    let a = buddy.alloc_pages(3).unwrap();
    let b = buddy.alloc_pages(1).unwrap();
    assert_eq!(b - a, 4 * 4096);
    buddy.free_pages(a, 3);
    buddy.free_pages(b, 1);
}

#[test]
fn top_order_round_trip() {
    let mut buddy = fresh_allocator();
    let a = buddy.alloc_pages_order(10).unwrap();
    let b = buddy.alloc_pages_order(10).unwrap();
    assert_eq!(a, FIRST_BLOCK);
    assert_eq!(b, FIRST_BLOCK + 4 * MIB);
    buddy.free_pages_order(a, 10);
    let c = buddy.alloc_pages_order(10).unwrap();
    assert_eq!(c, a);
}
