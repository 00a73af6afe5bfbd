use alloc_core::allocator::EMPTY;
use alloc_core::raw_vec::RawVec;

#[test]
fn new_buffer_is_the_sentinel() {
    let r: RawVec<u32> = RawVec::new();
    assert_eq!(r.cap(), 0);
    assert_eq!(r.ptr(), EMPTY);
}

#[test]
fn with_capacity_allocates_exactly() {
    let r: RawVec<u32> = RawVec::with_capacity(7);
    assert_eq!(r.cap(), 7);
    assert_ne!(r.ptr(), 0);
    let zero: RawVec<u32> = RawVec::with_capacity(0);
    assert_eq!(zero.cap(), 0);
    assert_eq!(zero.ptr(), EMPTY);
}

#[test]
fn zero_sized_elements_never_allocate() {
    let r: RawVec<()> = RawVec::with_capacity(5);
    assert_eq!(r.cap(), usize::MAX);
    assert_eq!(r.ptr(), EMPTY);
    let fresh: RawVec<()> = RawVec::new();
    assert_eq!(fresh.cap(), usize::MAX);
}

#[test]
fn zero_sized_elements_keep_the_maximum_capacity_through_shrink() {
    let mut r: RawVec<()> = RawVec::with_capacity(5);
    r.shrink_to_fit(2);
    assert_eq!(r.cap(), usize::MAX);
    r.free();
    assert_eq!(r.cap(), usize::MAX);
}

#[test]
fn double_jumps_to_four_then_doubles() {
    let mut r: RawVec<u32> = RawVec::new();
    r.double();
    assert_eq!(r.cap(), 4);
    r.double();
    assert_eq!(r.cap(), 8);
    r.double();
    assert_eq!(r.cap(), 16);
    r.free();
}

#[test]
fn reserve_over_provisions_to_twice_the_need() {
    let mut r: RawVec<u32> = RawVec::new();
    r.reserve(0, 5);
    assert_eq!(r.cap(), 10);
    assert!(r.cap() >= 5);
    r.free();
}

#[test]
fn reserve_with_enough_capacity_changes_nothing() {
    let mut r: RawVec<u32> = RawVec::new();
    r.reserve(0, 5);
    let cap = r.cap();
    let ptr = r.ptr();
    // a non-increasing requirement neither shrinks nor reallocates
    r.reserve(5, 2);
    assert_eq!(r.cap(), cap);
    assert_eq!(r.ptr(), ptr);
    r.reserve(0, 1);
    assert_eq!(r.cap(), cap);
    assert_eq!(r.ptr(), ptr);
    r.free();
}

#[test]
fn reserve_exact_grows_without_overshoot() {
    let mut r: RawVec<u32> = RawVec::with_capacity(5);
    r.reserve_exact(5, 3);
    assert_eq!(r.cap(), 8);
    r.reserve_exact(4, 2);
    assert_eq!(r.cap(), 8);
    r.free();
}

#[test]
fn shrink_to_fit_reaches_the_exact_capacity() {
    let mut r: RawVec<u64> = RawVec::with_capacity(8);
    r.shrink_to_fit(3);
    assert_eq!(r.cap(), 3);
    r.shrink_to_fit(3);
    assert_eq!(r.cap(), 3);
    r.shrink_to_fit(0);
    assert_eq!(r.cap(), 0);
    assert_eq!(r.ptr(), EMPTY);
}

#[test]
fn free_returns_the_buffer_to_the_sentinel() {
    let mut r: RawVec<u16> = RawVec::with_capacity(12);
    r.free();
    assert_eq!(r.cap(), 0);
    assert_eq!(r.ptr(), EMPTY);
}
