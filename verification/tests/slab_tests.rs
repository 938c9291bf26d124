use kernel_core::buddy::BuddyAllocator;
use kernel_core::consts::PHYS_MEM_OFFSET;
use kernel_core::slab::{SlabAllocator, SlabAllocatorWrapper};

const MIB: u64 = 0x100000;

fn fresh_buddy() -> BuddyAllocator {
    BuddyAllocator::init(PHYS_MEM_OFFSET, 64 * MIB)
}

#[test]
fn class_allocations_are_aligned_to_their_class() {
    let mut buddy = fresh_buddy();
    let mut slab = SlabAllocator::new();
    let classes: [(u64, u64, u64); 8] = [
        (1, 16, 16),
        (17, 32, 32),
        (33, 64, 64),
        (65, 128, 128),
        (129, 256, 256),
        (257, 512, 512),
        (513, 1024, 1024),
        (1025, 2048, 2048),
    ];
    for (lo, hi, obj) in classes {
        for size in [lo, (lo + hi) / 2, hi] {
            let p = slab.allocate(&mut buddy, size).unwrap();
            assert_eq!(p % obj, 0, "object not aligned to its class size");
        }
    }
}

#[test]
fn free_then_allocate_returns_same_object() {
    let mut buddy = fresh_buddy();
    let mut slab = SlabAllocator::new();
    let a = slab.allocate(&mut buddy, 100).unwrap();
    let b = slab.allocate(&mut buddy, 100).unwrap();
    slab.dealloc(&mut buddy, a, 100);
    // the freed object heads its class's freelist; the same size takes it
    // back without touching the other live object
    let c = slab.allocate(&mut buddy, 100).unwrap();
    assert_eq!(c, a);
    let d = slab.allocate(&mut buddy, 100).unwrap();
    assert_ne!(d, b);
}

#[test]
fn realloc_same_basket_keeps_pointer() {
    let mut buddy = fresh_buddy();
    let mut slab = SlabAllocator::new();
    let p = slab.allocate(&mut buddy, 100).unwrap();
    // 100 and 128 share the 128-byte class
    let q = slab.realloc(&mut buddy, p, 100, 128).unwrap();
    assert_eq!(p, q);
}

#[test]
fn realloc_different_basket_moves() {
    let mut buddy = fresh_buddy();
    let mut slab = SlabAllocator::new();
    let p = slab.allocate(&mut buddy, 100).unwrap();
    let q = slab.realloc(&mut buddy, p, 100, 600).unwrap();
    assert_ne!(p, q);
    assert_eq!(q % 1024, 0);
    // the old object is back on its freelist
    let r = slab.allocate(&mut buddy, 128).unwrap();
    assert_eq!(r, p);
}

#[test]
fn oversize_requests_bypass_the_slab_layer() {
    let mut buddy = fresh_buddy();
    let mut slab = SlabAllocator::new();
    let p = slab.allocate(&mut buddy, 6000).unwrap();
    // two pages straight from the buddy allocator: page aligned
    assert_eq!(p % 4096, 0);
    slab.dealloc(&mut buddy, p, 6000);
    let q = slab.allocate(&mut buddy, 6000).unwrap();
    assert_eq!(q, p);
}

#[test]
fn distinct_objects_within_one_slab() {
    let mut buddy = fresh_buddy();
    let mut slab = SlabAllocator::new();
    let a = slab.allocate(&mut buddy, 16).unwrap();
    let b = slab.allocate(&mut buddy, 16).unwrap();
    let c = slab.allocate(&mut buddy, 16).unwrap();
    assert_ne!(a, b);
    assert_ne!(b, c);
    assert_ne!(a, c);
    assert_eq!(a - b, 16);
    assert_eq!(b - c, 16);
}

#[test]
fn calculate_order_covers_the_request() {
    assert_eq!(SlabAllocator::calculate_order(1), 0);
    assert_eq!(SlabAllocator::calculate_order(4096), 0);
    assert_eq!(SlabAllocator::calculate_order(4097), 1);
    assert_eq!(SlabAllocator::calculate_order(8192), 1);
    assert_eq!(SlabAllocator::calculate_order(8193), 2);
}

#[test]
fn same_basket_judgement() {
    let slab = SlabAllocator::new();
    assert!(slab.check_same_basket(100, 128));
    assert!(!slab.check_same_basket(128, 129));
    assert!(slab.check_same_basket(5000, 8192));
    assert!(!slab.check_same_basket(2048, 2049));
    assert!(!slab.check_same_basket(8192, 8193));
}

#[test]
fn wrapper_folds_alignment_into_the_request() {
    let mut buddy = fresh_buddy();
    let mut wrapper = SlabAllocatorWrapper::new();
    // size 8 with alignment 64 is served from the 64-byte class
    let p = wrapper.allocate(&mut buddy, 8, 64).unwrap();
    assert_eq!(p % 64, 0);
    wrapper.dealloc(&mut buddy, p, 8, 64);
    let q = wrapper.allocate(&mut buddy, 64, 1).unwrap();
    assert_eq!(q, p);
    let r = wrapper.realloc(&mut buddy, q, 64, 1, 33).unwrap();
    assert_eq!(r, q);
}
