use flo_talk::read_write_queue::ReadWriteLocks;

#[test]
fn readers_share_the_lock() {
    let mut locks = ReadWriteLocks::<&'static str>::new();
    let first = locks.try_read();
    let second = locks.try_read();
    assert_eq!(first, Some(0));
    assert_eq!(second, Some(1));
    assert!(locks.is_held(0) && locks.is_held(1));
    assert_eq!(locks.try_write(), None);
}

#[test]
fn writers_are_exclusive() {
    let mut locks = ReadWriteLocks::<&'static str>::new();
    assert_eq!(locks.try_write(), Some(0));
    assert_eq!(locks.try_read(), None);
    assert_eq!(locks.try_write(), None);

    assert_eq!(locks.release(0), Vec::<&'static str>::new());
    assert_eq!(locks.try_write(), Some(3));
}

#[test]
fn requests_are_granted_in_order() {
    let mut locks = ReadWriteLocks::<&'static str>::new();
    let (reader, granted) = locks.read();
    assert!(granted);

    // A writer waits for the reader
    let (writer, granted) = locks.write();
    assert!(!granted);

    // A later reader waits behind the writer, even though a read lock is held
    let (late_reader, granted) = locks.read();
    assert!(!granted);
    let (late_reader_2, granted) = locks.read();
    assert!(!granted);

    assert!(!locks.poll(writer, "writer"));
    assert!(!locks.poll(late_reader, "late reader"));

    // Releasing the reader grants the writer and wakes it
    assert_eq!(locks.release(reader), vec!["writer"]);
    assert!(locks.poll(writer, "unused"));
    assert!(!locks.is_held(late_reader));

    // Releasing the writer grants both waiting readers together
    assert_eq!(locks.release(writer), vec!["late reader"]);
    assert!(locks.is_held(late_reader));
    assert!(locks.is_held(late_reader_2));

    assert_eq!(locks.release(late_reader_2), Vec::<&'static str>::new());
    assert_eq!(locks.release(late_reader), Vec::<&'static str>::new());
    assert!(!locks.is_held(late_reader));

    // Nothing is locked any more
    assert!(locks.try_write().is_some());
}

#[test]
fn writes_queue_behind_each_other() {
    let mut locks = ReadWriteLocks::<u32>::new();
    let (first, granted) = locks.write();
    assert!(granted);
    let (second, granted) = locks.write();
    assert!(!granted);
    let (third, granted) = locks.write();
    assert!(!granted);

    assert!(!locks.poll(third, 3));
    assert!(!locks.poll(second, 2));

    assert_eq!(locks.release(first), vec![2]);
    assert_eq!(locks.release(second), vec![3]);
    assert!(locks.is_held(third));
}
