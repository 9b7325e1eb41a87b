use lib::buddy_alloc::{BuddyAllocator, BuddyState};

fn heap(start: usize, end: usize) -> BuddyAllocator {
    let mut a = BuddyAllocator::new();
    a.init_buddy_alloc(start, end);
    a
}

#[test]
fn fresh_allocator_is_not_initialized() {
    let a = BuddyAllocator::new();
    assert!(!a.is_initialized());
    assert_eq!(a.free_bytes(), 0);
}

#[test]
fn init_makes_the_whole_heap_free() {
    let a = heap(0x1000, 0x2000);
    assert!(a.is_initialized());
    assert_eq!(a.free_bytes(), 0x1000);
}

#[test]
fn init_rounds_the_bounds_inward() {
    // [0x1001, 0x13e9) becomes [0x1040, 0x13c0): 896 bytes.
    let a = heap(0x1001, 0x1001 + 1000);
    assert_eq!(a.free_bytes(), 896);
}

#[test]
fn init_of_a_tiny_heap_leaves_nothing_free() {
    let mut a = heap(0x1001, 0x1010);
    assert_eq!(a.free_bytes(), 0);
    assert!(!a.is_initialized());
    assert_eq!(a.allocate(8, 8), 0);
}

#[test]
fn allocation_splits_the_smallest_fitting_block() {
    let mut a = heap(0x1000, 0x2000);
    // 100 bytes need a 128-byte block, split off the start of the 4096-byte block.
    let p = a.allocate(100, 8);
    assert_eq!(p, 0x1000);
    assert_eq!(a.free_bytes(), 0x1000 - 128);
    // The next 128-byte request takes the buddy left over by the split.
    let q = a.allocate(128, 8);
    assert_eq!(q, 0x1080);
    assert_eq!(a.free_bytes(), 0x1000 - 256);
}

#[test]
fn small_requests_use_the_smallest_block() {
    let mut a = heap(0x1000, 0x2000);
    let p = a.allocate(1, 1);
    assert_eq!(p, 0x1000);
    assert_eq!(a.free_bytes(), 0x1000 - 64);
}

#[test]
fn alignment_counts_toward_the_block_size() {
    let mut a = heap(0x1000, 0x2000);
    let p = a.allocate(8, 512);
    assert_eq!(p, 0x1000);
    assert_eq!(a.free_bytes(), 0x1000 - 512);
}

#[test]
fn too_large_requests_fail() {
    let mut a = heap(0x1000, 0x2000);
    assert_eq!(a.allocate(0x1001, 8), 0);
    assert_eq!(a.free_bytes(), 0x1000);
}

#[test]
fn exhausted_heap_fails() {
    let mut a = heap(0x1000, 0x2000);
    assert_eq!(a.allocate(0x1000, 8), 0x1000);
    assert_eq!(a.free_bytes(), 0);
    assert_eq!(a.allocate(1, 1), 0);
}

#[test]
fn freeing_merges_buddies_back() {
    let mut a = heap(0x1000, 0x2000);
    let p = a.allocate(100, 8);
    let q = a.allocate(100, 8);
    a.dealloc(p, 100, 8);
    assert_eq!(a.free_bytes(), 0x1000 - 128);
    a.dealloc(q, 100, 8);
    assert_eq!(a.free_bytes(), 0x1000);
    // Everything merged back into one block: the whole heap can be handed out again.
    assert_eq!(a.allocate(0x1000, 8), 0x1000);
}

#[test]
fn allocate_then_free_restores_free_bytes() {
    let mut a = heap(0x1001, 0x1001 + 1000);
    let before = a.free_bytes();
    let p = a.allocate(200, 16);
    assert_ne!(p, 0);
    assert_eq!(a.free_bytes(), before - 256);
    a.dealloc(p, 200, 16);
    assert_eq!(a.free_bytes(), before);
}

#[test]
fn freeing_null_is_ignored() {
    let mut a = heap(0x1000, 0x2000);
    a.dealloc(0, 100, 8);
    assert_eq!(a.free_bytes(), 0x1000);
}

#[test]
fn blocks_handed_out_do_not_overlap() {
    let mut a = heap(0x1000, 0x2000);
    let mut got: Vec<usize> = Vec::new();
    loop {
        let p = a.allocate(64, 8);
        if p == 0 {
            break;
        }
        got.push(p);
    }
    assert_eq!(got.len(), 64);
    got.sort();
    for w in got.windows(2) {
        assert!(w[0] + 64 <= w[1]);
    }
    assert_eq!(a.free_bytes(), 0);
}

#[test]
fn init_at_the_top_of_the_address_space_leaves_nothing_free() {
    let mut a = heap(usize::MAX - 63, usize::MAX);
    assert!(a.is_initialized());
    assert_eq!(a.free_bytes(), 0);
    assert_eq!(a.allocate(8, 8), 0);
}

#[test]
fn smallest_request_after_init_takes_the_heap_start() {
    let mut a = heap(0x1000, 0x1100);
    assert_eq!(a.allocate(64, 8), 0x1000);
    assert_eq!(a.free_bytes(), 0x100 - 64);
}

#[test]
fn a_block_stays_freeable_across_other_requests() {
    let mut a = heap(0x1000, 0x2000);
    let p = a.allocate(64, 8);
    let q = a.allocate(256, 8);
    let r = a.allocate(64, 8);
    a.dealloc(q, 256, 8);
    a.dealloc(r, 64, 8);
    assert_eq!(a.free_bytes(), 0x1000 - 64);
    a.dealloc(p, 64, 8);
    assert_eq!(a.free_bytes(), 0x1000);
    assert_eq!(a.allocate(0x1000, 8), 0x1000);
}

#[test]
fn buddy_flips_the_size_bit_of_the_offset() {
    let s = BuddyState::new();
    assert_eq!(s.buddy_of(0x40, 0), 0);
    assert_eq!(s.buddy_of(0, 0), 0x40);
    assert_eq!(s.buddy_of(0x80, 1), 0);
    assert_eq!(s.buddy_of(0x100, 1), 0x180);
    assert_eq!(s.buddy_of(s.buddy_of(0x300, 2), 2), 0x300);
}

#[test]
fn popping_an_empty_list_gives_nothing() {
    let mut s = BuddyState::new();
    assert_eq!(s.pop_free(3), None);
    assert_eq!(s.pop_free(0), None);
}
