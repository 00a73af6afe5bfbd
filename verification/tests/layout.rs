use alloc_core::allocator::Kind;

#[test]
fn kind_of_primitive_types() {
    let k = Kind::new::<u64>();
    assert_eq!(k.size(), 8);
    assert_eq!(k.align(), 8);
    let b = Kind::new::<u8>();
    assert_eq!(b.size(), 1);
    assert_eq!(b.align(), 1);
}

#[test]
fn from_size_align_keeps_parts() {
    let k = Kind::from_size_align(24, 8);
    assert_eq!(k.size(), 24);
    assert_eq!(k.align(), 8);
}

#[test]
fn extend_pads_to_the_larger_alignment() {
    let a = Kind::from_size_align(10, 4);
    let b = Kind::from_size_align(8, 8);
    let (k, offset) = a.extend(b);
    // the second record starts past the first, at the next 8-aligned spot
    assert!(offset >= 10);
    assert_eq!(offset, 16);
    assert_eq!(k.align(), 8);
    assert_eq!(k.size(), 24);
}

#[test]
fn extend_aligned_input_needs_no_padding() {
    let a = Kind::from_size_align(16, 8);
    let b = Kind::from_size_align(4, 4);
    let (k, offset) = a.extend(b);
    assert_eq!(offset, 16);
    assert_eq!(k.align(), 8);
    assert_eq!(k.size(), 20);
}

#[test]
fn extend_packed_ignores_the_second_alignment() {
    let a = Kind::from_size_align(10, 4);
    let b = Kind::from_size_align(8, 8);
    let (k, offset) = a.extend_packed(b);
    assert_eq!(offset, 10);
    assert_eq!(k.size(), 18);
    assert_eq!(k.align(), 4);
}

#[test]
fn align_to_only_raises() {
    let a = Kind::from_size_align(10, 4);
    let raised = a.align_to(16);
    assert_eq!(raised.align(), 16);
    assert_eq!(raised.size(), 10);
    let kept = a.align_to(2);
    assert_eq!(kept.align(), 4);
    assert_eq!(kept.size(), 10);
}

#[test]
fn array_pads_each_element() {
    let a = Kind::from_size_align(12, 8);
    let k = a.array(3);
    // each element stretches to 16 bytes before the next begins
    assert_eq!(k.size(), 48);
    assert_eq!(k.align(), 8);
    let zero = a.array(0);
    assert_eq!(zero.size(), 0);
}

#[test]
fn array_packed_lays_back_to_back() {
    let a = Kind::from_size_align(12, 8);
    let k = a.array_packed(3);
    assert_eq!(k.size(), 36);
    assert_eq!(k.align(), 8);
}
