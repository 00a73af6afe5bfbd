use alloc_core::allocator::{Alloc, DefaultAlloc, Kind, SuperAlloc};
use alloc_core::bump_alloc;

#[test]
fn allocate_returns_distinct_nonzero_addresses() {
    let mut a: DefaultAlloc = Default::default();
    let k = Kind::from_size_align(8, 8);
    let p = a.allocate(k);
    let q = a.allocate(k);
    assert_ne!(p, 0);
    assert_ne!(q, 0);
    assert_ne!(p, q);
    assert_eq!(p % 8, 0);
    assert_eq!(q % 8, 0);
    a.deallocate(p, k);
    a.deallocate(q, k);
}

#[test]
fn allocate_failure_is_a_value() {
    let mut a: DefaultAlloc = Default::default();
    let p = a.allocate(Kind::from_size_align(usize::MAX, 1));
    assert_eq!(p, 0);
    // a failed allocation leaves everything usable
    let q = a.allocate(Kind::from_size_align(4, 4));
    assert_ne!(q, 0);
}

#[test]
fn alloc_array_failure_reports_alloc_error() {
    let mut a: DefaultAlloc = Default::default();
    let r = a.alloc_array::<u8>(usize::MAX);
    assert!(r.is_err());
    let ok = a.alloc_array::<u8>(16);
    assert!(ok.is_ok());
}

#[test]
fn bytes_written_survive_growing_realloc() {
    let mut a: DefaultAlloc = Default::default();
    let k = Kind::from_size_align(4, 1);
    let p = a.allocate(k);
    assert_ne!(p, 0);
    for i in 0..4 {
        a.write_byte(p, i, (i as u8) + 1);
    }
    let q = a.realloc(p, k, 9);
    assert_ne!(q, 0);
    for i in 0..4 {
        assert_eq!(a.read_byte(q, i), (i as u8) + 1);
    }
    a.deallocate(q, Kind::from_size_align(9, 1));
}

#[test]
fn realloc_that_fits_stays_in_place() {
    let mut a: DefaultAlloc = Default::default();
    let k = Kind::from_size_align(16, 4);
    let p = a.allocate(k);
    // a fitting request returns the address unchanged and never shrinks
    assert_eq!(a.realloc(p, k, 10), p);
    assert_eq!(a.realloc(p, k, 16), p);
    a.deallocate(p, k);
}

#[test]
fn usable_size_reports_no_slack() {
    let a: DefaultAlloc = Default::default();
    assert_eq!(a.usable_size(Kind::from_size_align(40, 8)), 40);
}

#[test]
fn alloc_excess_reports_address_and_usable_size() {
    let mut a: DefaultAlloc = Default::default();
    let e = a.alloc_excess(Kind::from_size_align(24, 8));
    assert_ne!(e.0, 0);
    assert_eq!(e.1, 24);
}

#[test]
fn alloc_one_and_dealloc_one_round_trip() {
    let mut a: DefaultAlloc = Default::default();
    let p = a.alloc_one::<u64>().unwrap();
    assert_ne!(p, 0);
    assert_eq!(p % 8, 0);
    a.dealloc_one::<u64>(p);
}

#[test]
fn bump_lifo_rolls_the_cursor_back_entry_by_entry() {
    let mut bmp = bump_alloc::Alloc::new(1024);
    assert_eq!(bmp.cursor(), 0);
    let kx = Kind::from_size_align(10, 1);
    let ky = Kind::from_size_align(20, 4);
    let kz = Kind::from_size_align(5, 2);
    let x = bmp.allocate(kx);
    assert_eq!(bmp.cursor(), 16);
    let y = bmp.allocate(ky);
    assert_eq!(bmp.cursor(), 48);
    let z = bmp.allocate(kz);
    assert_eq!(bmp.cursor(), 64);
    // each deallocation in reverse order retreats the cursor to the start
    // of the entry just freed
    bmp.deallocate(z, kz);
    assert_eq!(bmp.cursor(), 48);
    bmp.deallocate(y, ky);
    assert_eq!(bmp.cursor(), 16);
    bmp.deallocate(x, kx);
    assert_eq!(bmp.cursor(), 0);
}

#[test]
fn bump_non_lifo_leaves_the_cursor_and_wastes_the_slot() {
    let mut bmp = bump_alloc::Alloc::new(1024);
    let k = Kind::from_size_align(10, 1);
    let _x = bmp.allocate(k);
    let y = bmp.allocate(k);
    let _z = bmp.allocate(k);
    assert_eq!(bmp.cursor(), 48);
    bmp.deallocate(y, k);
    // the cursor does not move, and a request of the same size is placed
    // past the live entries, not in the freed slot
    assert_eq!(bmp.cursor(), 48);
    let w = bmp.allocate(k);
    assert_ne!(w, y);
    assert_eq!(w, bmp.block_start() + 48);
}

#[test]
fn bump_coalesces_a_trailing_run_of_freed_entries() {
    let mut bmp = bump_alloc::Alloc::new(1024);
    let k = Kind::from_size_align(8, 1);
    let x = bmp.allocate(k);
    let y = bmp.allocate(k);
    let z = bmp.allocate(k);
    bmp.deallocate(y, k);
    assert_eq!(bmp.cursor(), 48);
    // freeing the last entry walks back over the freed middle one too
    bmp.deallocate(z, k);
    assert_eq!(bmp.cursor(), 16);
    bmp.deallocate(x, k);
    assert_eq!(bmp.cursor(), 0);
}

#[test]
fn bump_overaligned_request_delegates_untouched() {
    let mut bmp = bump_alloc::Alloc::new(1024);
    let k = Kind::from_size_align(8, 64);
    let p = bmp.allocate(k);
    assert_ne!(p, 0);
    assert_eq!(p % 64, 0);
    // the arena did not move: the fallback served the request
    assert_eq!(bmp.cursor(), 0);
    bmp.deallocate(p, k);
    assert_eq!(bmp.cursor(), 0);
    // the arena still works afterwards
    let q = bmp.allocate(Kind::from_size_align(4, 1));
    assert_eq!(q, bmp.block_start());
}

#[test]
fn bump_oversized_request_delegates_untouched() {
    let mut bmp = bump_alloc::Alloc::new(64);
    let k = Kind::from_size_align(100, 1);
    let p = bmp.allocate(k);
    assert_ne!(p, 0);
    assert_eq!(bmp.cursor(), 0);
    bmp.deallocate(p, k);
    assert_eq!(bmp.cursor(), 0);
    let q = bmp.allocate(Kind::from_size_align(4, 1));
    assert_eq!(q, bmp.block_start());
}

#[test]
fn bump_serves_bytes_it_handed_out() {
    let mut bmp = bump_alloc::Alloc::new(1024);
    let k = Kind::from_size_align(3, 1);
    let p = bmp.allocate(k);
    bmp.write_byte(p, 0, 7);
    bmp.write_byte(p, 1, 8);
    bmp.write_byte(p, 2, 9);
    assert_eq!(bmp.read_byte(p, 0), 7);
    assert_eq!(bmp.read_byte(p, 1), 8);
    assert_eq!(bmp.read_byte(p, 2), 9);
    bmp.deallocate(p, k);
}
