use flo_talk::allocator::TalkStandardAllocator;
use flo_talk::reference::TalkDataHandle;

#[test]
fn store_and_retrieve() {
    let mut allocator = TalkStandardAllocator::<usize>::empty();
    let handle = allocator.store(42);
    let handle_2 = allocator.store(43);

    assert!(handle.0 == 0);
    assert!(handle_2.0 == 1);
    assert!(allocator.retrieve(handle) == &mut 42);
    assert!(allocator.retrieve(handle_2) == &mut 43);

    *allocator.retrieve(handle) = 44;
    assert_eq!(*allocator.retrieve(handle), 44);
}

#[test]
fn release_frees_when_count_reaches_zero() {
    let mut allocator = TalkStandardAllocator::<String>::empty();
    let handle = allocator.store("value".to_string());

    allocator.retain(handle);
    assert_eq!(allocator.release(handle), None);
    assert_eq!(allocator.release(handle), Some("value".to_string()));

    // Releasing again does nothing
    assert_eq!(allocator.release(handle), None);
}

#[test]
fn freed_slots_are_reused_last_first() {
    let mut allocator = TalkStandardAllocator::<u32>::empty();
    let a = allocator.store(1);
    let b = allocator.store(2);
    let c = allocator.store(3);

    assert_eq!(allocator.release(a), Some(1));
    assert_eq!(allocator.release(c), Some(3));

    assert_eq!(allocator.store(4), c);
    assert_eq!(allocator.store(5), a);
    assert_eq!(allocator.store(6), TalkDataHandle(3));
    assert_eq!(*allocator.retrieve(b), 2);
    assert_eq!(*allocator.retrieve(a), 5);
}

#[test]
fn retaining_a_released_handle_does_nothing() {
    let mut allocator = TalkStandardAllocator::<u32>::empty();
    let a = allocator.store(1);
    assert_eq!(allocator.release(a), Some(1));
    allocator.retain(a);
    assert_eq!(allocator.release(a), None);
    assert_eq!(allocator.store(7), a);
}
