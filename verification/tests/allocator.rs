use bluesimalloc::engine::{BuddyEngine, ORDER};
use bluesimalloc::heap::RegionHeap;
use bluesimalloc::region::{HeapRegion, InitState};

fn free_counts(e: &BuddyEngine) -> Vec<usize> {
    let mut v = Vec::new();
    let mut k: usize = 0;
    while k < ORDER {
        v.push(e.free_count(k));
        k += 1;
    }
    v
}

#[test]
fn fresh_engine_is_empty_until_init() {
    let e = BuddyEngine::new(8);
    assert!(!e.is_initialized());
    assert_eq!(e.capacity_bytes(), 0);
    assert_eq!(e.min_block_bytes(), 8);
}

#[test]
fn init_seeds_one_top_block() {
    let mut e = BuddyEngine::new(64);
    assert!(e.region_size_ok(1024));
    e.init(1024);
    assert!(e.is_initialized());
    assert_eq!(e.capacity_bytes(), 1024);
    // orders 0..4 hold 64..1024 bytes; only the top one is seeded
    assert_eq!(e.free_count(4), 1);
    assert_eq!(e.free_block(4, 0), 0);
    for k in 0..4 {
        assert_eq!(e.free_count(k), 0);
    }
}

#[test]
fn scenario_split_and_coalesce_1024_region() {
    // Region of 1024 bytes, minimum block 64: allocating 100 bytes rounds
    // up to a 128-byte block; the top block splits 1024 -> 512 -> 256 ->
    // 128, leaving one free block each of 128, 256 and 512 bytes.
    let mut e = BuddyEngine::new(64);
    e.init(1024);
    let off = e.allocate(100, 8).expect("must fit");
    assert_eq!(off, 0);
    assert_eq!(e.free_count(0), 0);
    assert_eq!(e.free_count(1), 1);
    assert_eq!(e.free_block(1, 0), 128);
    assert_eq!(e.free_count(2), 1);
    assert_eq!(e.free_block(2, 0), 256);
    assert_eq!(e.free_count(3), 1);
    assert_eq!(e.free_block(3, 0), 512);
    assert_eq!(e.free_count(4), 0);
    // Freeing the block coalesces 128+128 -> 256, 256+256 -> 512,
    // 512+512 -> 1024: a single free top block again.
    e.deallocate(off, 100, 8);
    for k in 0..4 {
        assert_eq!(e.free_count(k), 0);
    }
    assert_eq!(e.free_count(4), 1);
    assert_eq!(e.free_block(4, 0), 0);
}

#[test]
fn allocate_then_deallocate_restores_state_repeatedly() {
    let mut e = BuddyEngine::new(64);
    e.init(1024);
    let before = free_counts(&e);
    for _ in 0..10 {
        let off = e.allocate(100, 8).expect("must fit");
        e.deallocate(off, 100, 8);
        assert_eq!(free_counts(&e), before);
        assert_eq!(e.free_block(4, 0), 0);
    }
}

#[test]
fn oversized_request_fails_without_mutation() {
    let mut e = BuddyEngine::new(64);
    e.init(1024);
    let before = free_counts(&e);
    assert_eq!(e.allocate(1025, 8), None);
    assert_eq!(e.allocate(usize::MAX, 8), None);
    assert_eq!(free_counts(&e), before);
    assert_eq!(e.free_block(4, 0), 0);
}

#[test]
fn allocation_respects_alignment() {
    let mut e = BuddyEngine::new(8);
    e.init(4096);
    let a = e.allocate(1, 8).expect("fits");
    let b = e.allocate(1, 256).expect("fits");
    assert_eq!(a % 8, 0);
    assert_eq!(b % 256, 0);
}

#[test]
fn exhaustion_returns_none_and_full_free_restores_top_block() {
    let mut e = BuddyEngine::new(64);
    e.init(1024);
    let mut offs = Vec::new();
    for _ in 0..16 {
        offs.push(e.allocate(64, 8).expect("sixteen blocks of 64 fit"));
    }
    assert_eq!(e.allocate(64, 8), None);
    // every returned block is distinct and within the region
    let mut sorted = offs.clone();
    sorted.sort();
    for i in 0..16 {
        assert_eq!(sorted[i], i * 64);
    }
    // freeing every leaf coalesces all the way back to one top block
    for off in offs {
        e.deallocate(off, 64, 8);
    }
    for k in 0..4 {
        assert_eq!(e.free_count(k), 0);
    }
    assert_eq!(e.free_count(4), 1);
    assert_eq!(e.free_block(4, 0), 0);
}

#[test]
fn order_for_rounds_to_smallest_sufficient_class() {
    let mut e = BuddyEngine::new(64);
    e.init(1024);
    assert_eq!(e.order_for(1, 1), Some(0));
    assert_eq!(e.order_for(64, 8), Some(0));
    assert_eq!(e.order_for(65, 8), Some(1));
    assert_eq!(e.order_for(100, 8), Some(1));
    assert_eq!(e.order_for(128, 8), Some(1));
    assert_eq!(e.order_for(129, 8), Some(2));
    assert_eq!(e.order_for(1024, 8), Some(4));
    assert_eq!(e.order_for(1, 512), Some(3));
    assert_eq!(e.order_for(1025, 8), None);
}

#[test]
fn power_of_two_and_region_size_checks() {
    assert!(BuddyEngine::power_of_two_check(1));
    assert!(BuddyEngine::power_of_two_check(8));
    assert!(BuddyEngine::power_of_two_check(4096));
    assert!(!BuddyEngine::power_of_two_check(0));
    assert!(!BuddyEngine::power_of_two_check(12));
    assert!(!BuddyEngine::power_of_two_check(1023));
    let e = BuddyEngine::new(64);
    assert!(e.region_size_ok(64));
    assert!(e.region_size_ok(1024));
    assert!(!e.region_size_ok(0));
    assert!(!e.region_size_ok(96));
    assert!(!e.region_size_ok(32));
}

#[test]
fn zeroed_allocation_is_all_zero() {
    let mut h = RegionHeap::new(64, 1024);
    // dirty a block, free it, then ask for zeroed memory that reuses it
    let off = h.allocate(100, 8).expect("fits");
    for i in 0..100 {
        h.write_byte(off + i, 0xAB);
    }
    h.deallocate(off, 100, 8);
    let z = h.allocate_zeroed(100, 8).expect("fits");
    assert_eq!(z, off);
    for i in 0..100 {
        assert_eq!(h.read_byte(z + i), 0);
    }
}

#[test]
fn reallocate_in_place_when_class_unchanged() {
    let mut h = RegionHeap::new(64, 1024);
    let off = h.allocate(100, 8).expect("fits");
    h.write_byte(off, 7);
    // 100 and 120 both round up to a 128-byte block
    let r = h.reallocate(off, 100, 8, 120).expect("fits");
    assert_eq!(r, off);
    assert_eq!(h.read_byte(off), 7);
}

#[test]
fn reallocate_moves_and_preserves_prefix() {
    let mut h = RegionHeap::new(64, 1024);
    let off = h.allocate(100, 8).expect("fits");
    for i in 0..100 {
        h.write_byte(off + i, (i % 251) as u8);
    }
    // 300 needs a 512-byte block: the data moves
    let r = h.reallocate(off, 100, 8, 300).expect("fits");
    assert_ne!(r, off);
    for i in 0..100 {
        assert_eq!(h.read_byte(r + i), (i % 251) as u8);
    }
}

#[test]
fn reallocate_shrink_preserves_new_length() {
    let mut h = RegionHeap::new(64, 1024);
    let off = h.allocate(300, 8).expect("fits");
    for i in 0..300 {
        h.write_byte(off + i, (i % 13) as u8 + 1);
    }
    // 60 needs only a 64-byte block: min(300, 60) = 60 bytes survive
    let r = h.reallocate(off, 300, 8, 60).expect("fits");
    for i in 0..60 {
        assert_eq!(h.read_byte(r + i), (i % 13) as u8 + 1);
    }
}

#[test]
fn reallocate_failure_leaves_heap_untouched() {
    let mut h = RegionHeap::new(64, 1024);
    let off = h.allocate(100, 8).expect("fits");
    h.write_byte(off, 42);
    assert_eq!(h.reallocate(off, 100, 8, 2048), None);
    assert_eq!(h.read_byte(off), 42);
    // the old block is still live: freeing it coalesces back to the top
    h.deallocate(off, 100, 8);
    assert_eq!(h.free_count(4), 1);
}

#[test]
fn fresh_region_heap_is_zeroed() {
    let h = RegionHeap::new(64, 1024);
    assert_eq!(h.capacity_bytes(), 1024);
    assert_eq!(h.min_block_bytes(), 64);
    for i in 0..1024 {
        assert_eq!(h.read_byte(i), 0);
    }
}

#[test]
fn heap_region_descriptor_validation() {
    let r = HeapRegion::new(0x7f7e8e600000, 64 * 1024 * 1024).expect("valid");
    assert_eq!(r.base(), 0x7f7e8e600000);
    assert_eq!(r.size(), 64 * 1024 * 1024);
    assert_eq!(r.offset_of(0x7f7e8e600000 + 128), 128);
    assert_eq!(r.address_of(128), 0x7f7e8e600000 + 128);
    assert!(HeapRegion::new(0, 12345).is_none());
    assert!(HeapRegion::new(usize::MAX, 4096).is_none());
}

#[test]
fn init_protocol_goes_one_way() {
    let mut st = InitState::start();
    assert!(!st.allocation_allowed());
    st.begin_mapping();
    assert!(!st.allocation_allowed());
    st.finish();
    assert!(st.allocation_allowed());
}
