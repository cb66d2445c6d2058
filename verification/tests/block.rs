use objc_encode::block::BLOCK_HAS_COPY_DISPOSE;
use objc_encode::block::ConcreteBlock;

#[test]
fn test_flags_without_destructor() {
    // a closure with a trivial destructor gets an empty flags word and no
    // copy/dispose helpers
    let b = ConcreteBlock::new(7i32, false, 16);
    assert_eq!(b.header.flags, 0);
    assert!(b.header.is_stack_class);
    assert!(b.header.has_invoke);
    assert_eq!(b.header.reserved, 0);
    assert_eq!(b.header.descriptor.reserved, 0);
    assert_eq!(b.header.descriptor.size, 16);
    assert!(!b.header.descriptor.has_copy);
    assert!(!b.header.descriptor.has_dispose);
    assert_eq!(b.closure, 7);
}

#[test]
fn test_flags_with_destructor() {
    // a closure that needs dropping sets the copy/dispose bit and stores
    // both helpers in the descriptor
    let captured = String::from("owned");
    let b = ConcreteBlock::new(captured, true, 48);
    assert_eq!(b.header.flags, BLOCK_HAS_COPY_DISPOSE);
    assert_eq!(b.header.flags, 1 << 25);
    assert_eq!(b.header.descriptor.size, 48);
    assert!(b.header.descriptor.has_copy);
    assert!(b.header.descriptor.has_dispose);
    assert_eq!(b.closure, "owned");
}

#[test]
fn test_with_invoke_matches_new() {
    let a = ConcreteBlock::new(3u8, false, 24);
    let b = ConcreteBlock::with_invoke(3u8, false, 24);
    assert_eq!(a.header.flags, b.header.flags);
    assert_eq!(a.header.descriptor.size, b.header.descriptor.size);
    assert_eq!(a.closure, b.closure);
}
