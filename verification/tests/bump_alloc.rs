use lib::bump_alloc::{bump_reserve, BumpAllocator};

#[test]
fn fresh_bump_allocator_hands_out_nothing() {
    let mut b = BumpAllocator::new();
    assert!(!b.is_initialized());
    assert_eq!(b.allocate_raw(16, 8), 0);
}

#[test]
fn bump_allocations_are_aligned_and_increasing() {
    let mut b = BumpAllocator::new();
    b.init_bump_alloc(0x1001, 0x2000);
    assert!(b.is_initialized());
    let p = b.allocate_raw(10, 16);
    assert_eq!(p, 0x1010);
    assert_eq!(b.used_bytes(), 0x1a - 1);
    let q = b.allocate_raw(4, 8);
    assert_eq!(q, 0x1020);
    assert_eq!(b.used_bytes() + b.remaining_bytes(), 0x2000 - 0x1001);
}

#[test]
fn bump_zero_size_fails() {
    let mut b = BumpAllocator::new();
    b.init_bump_alloc(0x1000, 0x2000);
    assert_eq!(b.allocate_raw(0, 8), 0);
    assert_eq!(b.used_bytes(), 0);
}

#[test]
fn bump_request_past_the_end_fails() {
    let mut b = BumpAllocator::new();
    b.init_bump_alloc(0x1000, 0x1100);
    assert_eq!(b.allocate_raw(0x100, 1), 0x1000);
    assert_eq!(b.remaining_bytes(), 0);
    assert_eq!(b.allocate_raw(1, 1), 0);
}

#[test]
fn bump_reserve_detects_overflow() {
    assert_eq!(bump_reserve(usize::MAX - 2, usize::MAX, 1, 8), None);
    assert_eq!(bump_reserve(usize::MAX - 7, usize::MAX, 8, 8), None);
    assert_eq!(bump_reserve(0x13, 0x100, 8, 4), Some((0x14, 0x1c)));
}
