use alloc_core::allocator::{Alloc, DefaultAlloc, SuperAlloc};
use alloc_core::boxing::Boxing;
use alloc_core::bump_alloc;

#[test]
fn demo_direct_in_place() {
    let std_alloc: DefaultAlloc = Default::default();
    let place = Boxing(std_alloc).make_place::<i32>();
    let b = place.finalize(3);
    println!("at end of demo_direct b: {:?}", b.get());
    let (value, _alloc) = b.free();
    assert_eq!(value, 3);
}

#[test]
fn demo_bump_calls() {
    let mut bmp = bump_alloc::Alloc::new(4 * 1024 * 1024);
    let p = bmp.alloc_one::<u32>().unwrap();
    bmp.write_byte(p, 0, 3);
    println!("at end of demo_bump_calls *p: {:?}", bmp.read_byte(p, 0));
    assert_eq!(bmp.read_byte(p, 0), 3);
    bmp.dealloc_one::<u32>(p);
    assert_eq!(bmp.cursor(), 0);
}

#[test]
fn demo_bump_in_place() {
    {
        println!("start of demo_bump_in_place");
        let bmp = bump_alloc::Alloc::new(4 * 1024 * 1024);
        let place = Boxing(bmp).make_place::<i32>();
        let addr = place.pointer();
        let b = place.finalize(3);
        println!(
            "at end of dump_bump_in_place alloc scope b: {:?} 0x{:x}",
            b.get(),
            addr
        );
        let (value, _bmp) = b.free();
        assert_eq!(value, 3);
    }
    println!("at end of demo_bump_in_place");
}

#[test]
fn box_round_trip_through_parts() {
    let a: DefaultAlloc = Default::default();
    let place = Boxing(a).make_place::<u64>();
    let mut b = place.finalize(41);
    *b.get_mut() += 1;
    assert_eq!(*b.get(), 42);
    let (value, raw, mut alloc) = b.value_alloc();
    assert_eq!(value, 42);
    assert_ne!(raw, 0);
    // the record is still live: its owner must release it
    alloc.dealloc_one::<u64>(raw);
}
