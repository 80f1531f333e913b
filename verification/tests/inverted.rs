use flo_talk::class::TalkClass;
use flo_talk::inverted::{TalkInverted, TalkInvertedClassAllocator, TalkInvertedTarget, TalkPriority, TalkProcessWhen};
use flo_talk::error::TalkError;
use flo_talk::inverted_delivery::{prioritise_targets, TalkInvertedDelivery, TalkInvertedReply};
use flo_talk::message::TalkMessageSignatureId;
use flo_talk::reference::{TalkDataHandle, TalkReference};
use std::collections::HashMap;

fn reference(class: usize, handle: usize) -> TalkReference {
    TalkReference(TalkClass(class), TalkDataHandle(handle))
}

fn target(class: usize, handle: usize, priority: usize, when: TalkProcessWhen) -> TalkInvertedTarget {
    (reference(class, handle), TalkPriority(priority, when))
}

const MESSAGE: TalkMessageSignatureId = TalkMessageSignatureId(7);

#[test]
fn message_without_responder_class_is_not_inverted() {
    let responders = TalkInvertedClassAllocator::empty();
    assert!(responders.collect_targets(MESSAGE, reference(1, 0), None).is_none());
    assert!(responders.inverted_targets(MESSAGE, reference(1, 0), None).is_none());
}

#[test]
fn responder_class_with_no_receivers_has_no_targets() {
    let mut responders = TalkInvertedClassAllocator::empty();
    responders.add_responder_class(MESSAGE, TalkClass(3));
    assert_eq!(responders.collect_targets(MESSAGE, reference(1, 0), None), Some(vec![]));
    assert_eq!(responders.inverted_targets(MESSAGE, reference(1, 0), None), Some(vec![]));
}

#[test]
fn priorities_count_up_from_zero() {
    let mut responders = TalkInvertedClassAllocator::empty();
    assert_eq!(responders.take_priority(TalkProcessWhen::Always), TalkPriority(0, TalkProcessWhen::Always));
    assert_eq!(responders.take_priority(TalkProcessWhen::Unreceived), TalkPriority(1, TalkProcessWhen::Unreceived));
}

#[test]
fn receivers_registered_later_are_sent_first() {
    let mut responders = TalkInvertedClassAllocator::empty();
    responders.add_responder_class(MESSAGE, TalkClass(3));
    responders.receive_from_all(reference(3, 1), TalkProcessWhen::Always);
    responders.receive_from_all(reference(3, 2), TalkProcessWhen::Always);

    let targets = responders.inverted_targets(MESSAGE, reference(1, 0), None).unwrap();
    assert_eq!(
        targets,
        vec![target(3, 1, 0, TalkProcessWhen::Always), target(3, 2, 1, TalkProcessWhen::Always)]
    );

    let mut delivery = TalkInvertedDelivery::<i64>::new(targets);
    assert_eq!(delivery.next_target(), Some((reference(3, 2), true)));
    assert_eq!(delivery.next_target(), Some((reference(3, 1), true)));
    assert_eq!(delivery.next_target(), None);
}

#[test]
fn adding_a_responder_class_twice_keeps_one_entry() {
    let mut responders = TalkInvertedClassAllocator::empty();
    responders.add_responder_class(MESSAGE, TalkClass(3));
    responders.add_responder_class(MESSAGE, TalkClass(3));
    responders.receive_from_all(reference(3, 1), TalkProcessWhen::Always);

    assert_eq!(
        responders.collect_targets(MESSAGE, reference(1, 0), None),
        Some(vec![target(3, 1, 0, TalkProcessWhen::Always)])
    );
}

#[test]
fn receivers_are_collected_by_responder_class() {
    let mut responders = TalkInvertedClassAllocator::empty();
    responders.add_responder_class(MESSAGE, TalkClass(4));
    responders.add_responder_class(MESSAGE, TalkClass(2));
    responders.receive_from_all(reference(2, 1), TalkProcessWhen::Always);
    responders.receive_from_all(reference(4, 1), TalkProcessWhen::Always);
    responders.receive_from_all(reference(5, 1), TalkProcessWhen::Always);

    // Class 4 was declared first, so its receivers come first; class 5 does not respond
    assert_eq!(
        responders.collect_targets(MESSAGE, reference(1, 0), None),
        Some(vec![target(4, 1, 1, TalkProcessWhen::Always), target(2, 1, 0, TalkProcessWhen::Always)])
    );
}

#[test]
fn specific_receivers_only_hear_their_source() {
    let mut responders = TalkInvertedClassAllocator::empty();
    responders.add_responder_class(MESSAGE, TalkClass(3));
    responders.receive_from_specific(reference(1, 5), reference(3, 1), TalkProcessWhen::Always);
    // A receiver whose class does not respond to the message is left out
    responders.receive_from_specific(reference(1, 5), reference(6, 1), TalkProcessWhen::Always);

    assert_eq!(
        responders.collect_targets(MESSAGE, reference(1, 5), None),
        Some(vec![target(3, 1, 0, TalkProcessWhen::Always)])
    );
    assert_eq!(responders.collect_targets(MESSAGE, reference(1, 6), None), Some(vec![]));
    assert_eq!(responders.collect_targets(MESSAGE, reference(2, 5), None), Some(vec![]));
}

#[test]
fn local_receivers_come_last() {
    let mut responders = TalkInvertedClassAllocator::empty();
    responders.add_responder_class(MESSAGE, TalkClass(3));
    responders.receive_from_all(reference(3, 1), TalkProcessWhen::Always);
    responders.receive_from_specific(reference(1, 5), reference(3, 2), TalkProcessWhen::Always);

    let mut local: HashMap<usize, Vec<TalkInvertedTarget>> = HashMap::new();
    local.insert(3, vec![target(3, 9, 10, TalkProcessWhen::Unreceived)]);
    local.insert(8, vec![target(8, 9, 11, TalkProcessWhen::Always)]);

    assert_eq!(
        responders.collect_targets(MESSAGE, reference(1, 5), Some(&local)),
        Some(vec![
            target(3, 1, 0, TalkProcessWhen::Always),
            target(3, 2, 1, TalkProcessWhen::Always),
            target(3, 9, 10, TalkProcessWhen::Unreceived),
        ])
    );
}

#[test]
fn a_receiver_registered_twice_receives_once() {
    let mut responders = TalkInvertedClassAllocator::empty();
    responders.add_responder_class(MESSAGE, TalkClass(3));
    responders.receive_from_all(reference(3, 1), TalkProcessWhen::Always);
    responders.receive_from_specific(reference(1, 5), reference(3, 1), TalkProcessWhen::Unreceived);

    // The highest priority is kept, and 'always' wins over 'unreceived'
    assert_eq!(
        responders.inverted_targets(MESSAGE, reference(1, 5), None),
        Some(vec![target(3, 1, 1, TalkProcessWhen::Always)])
    );
}

#[test]
fn prioritising_sorts_by_priority_then_reference() {
    let sorted = prioritise_targets(vec![
        target(5, 1, 3, TalkProcessWhen::Always),
        target(2, 7, 3, TalkProcessWhen::Unreceived),
        target(2, 4, 3, TalkProcessWhen::Always),
        target(9, 9, 1, TalkProcessWhen::Always),
        target(5, 1, 2, TalkProcessWhen::Unreceived),
    ]);

    assert_eq!(
        sorted,
        vec![
            target(9, 9, 1, TalkProcessWhen::Always),
            target(2, 4, 3, TalkProcessWhen::Always),
            target(2, 7, 3, TalkProcessWhen::Unreceived),
            target(5, 1, 3, TalkProcessWhen::Always),
        ]
    );
}

#[test]
fn unreceived_duplicates_stay_unreceived() {
    let sorted = prioritise_targets(vec![
        target(1, 1, 4, TalkProcessWhen::Unreceived),
        target(1, 1, 8, TalkProcessWhen::Unreceived),
    ]);
    assert_eq!(sorted, vec![target(1, 1, 8, TalkProcessWhen::Unreceived)]);
    assert_eq!(prioritise_targets(vec![]), vec![]);
}

#[test]
fn unreceived_receivers_are_skipped_once_handled() {
    let mut delivery = TalkInvertedDelivery::<i64>::new(vec![
        target(3, 1, 0, TalkProcessWhen::Unreceived),
        target(3, 2, 1, TalkProcessWhen::Always),
        target(3, 3, 2, TalkProcessWhen::Unreceived),
    ]);

    // Nothing has handled the message yet, so the first receiver gets it
    assert_eq!(delivery.next_target(), Some((reference(3, 3), true)));
    delivery.record_reply(TalkInvertedReply::Unhandled);
    assert!(!delivery.is_received());

    // 'Always' receivers get the message whatever happened before
    assert_eq!(delivery.next_target(), Some((reference(3, 2), true)));
    delivery.record_reply(TalkInvertedReply::Other);
    assert!(delivery.is_received());

    // Handled now, so the unreceived receiver is skipped
    assert_eq!(delivery.next_target(), Some((reference(3, 1), false)));
    assert_eq!(delivery.next_target(), None);
}

#[test]
fn dropped_responders_receive_nothing() {
    let mut responders = TalkInvertedClassAllocator::empty();
    responders.add_responder_class(MESSAGE, TalkClass(3));
    responders.receive_from_all(reference(3, 1), TalkProcessWhen::Always);
    responders.receive_from_all(reference(3, 2), TalkProcessWhen::Always);
    responders.receive_from_specific(reference(1, 5), reference(3, 1), TalkProcessWhen::Always);

    responders.drop_responder(reference(3, 1));

    assert_eq!(
        responders.collect_targets(MESSAGE, reference(1, 5), None),
        Some(vec![target(3, 2, 1, TalkProcessWhen::Always)])
    );
}

#[test]
fn dropped_sources_lose_their_receivers() {
    let mut responders = TalkInvertedClassAllocator::empty();
    responders.add_responder_class(MESSAGE, TalkClass(3));
    responders.receive_from_specific(reference(1, 5), reference(3, 1), TalkProcessWhen::Always);
    responders.receive_from_specific(reference(1, 6), reference(3, 2), TalkProcessWhen::Always);

    responders.on_dropped_reference(reference(1, 5));

    assert_eq!(responders.collect_targets(MESSAGE, reference(1, 5), None), Some(vec![]));
    assert_eq!(
        responders.collect_targets(MESSAGE, reference(1, 6), None),
        Some(vec![target(3, 2, 1, TalkProcessWhen::Always)])
    );
}

#[test]
fn inverted_instances_are_reference_counted() {
    let mut allocator = TalkInvertedClassAllocator::empty();
    let first = allocator.store(TalkInverted {});
    let second = allocator.store(TalkInverted {});
    assert_eq!(first, TalkDataHandle(0));
    assert_eq!(second, TalkDataHandle(1));

    allocator.retain(first);
    assert!(allocator.release(first).is_none());
    assert!(allocator.release(first).is_some());
    // A freed handle stays freed
    assert!(allocator.release(first).is_none());

    // The freed slot is used again
    assert_eq!(allocator.store(TalkInverted {}), first);
    let _ = allocator.retrieve(second);
}

#[test]
fn latest_receiver_for_a_sender_is_sent_first() {
    let mut responders = TalkInvertedClassAllocator::empty();
    responders.add_responder_class(MESSAGE, TalkClass(3));
    responders.receive_from_specific(reference(1, 5), reference(3, 1), TalkProcessWhen::Always);
    responders.receive_from_all(reference(3, 2), TalkProcessWhen::Always);
    responders.receive_from_specific(reference(1, 5), reference(3, 3), TalkProcessWhen::Unreceived);

    let targets = responders.inverted_targets(MESSAGE, reference(1, 5), None).unwrap();
    let mut delivery = TalkInvertedDelivery::<i64>::new(targets);
    assert_eq!(delivery.next_target(), Some((reference(3, 3), true)));
    delivery.record_reply(TalkInvertedReply::Other);
    assert_eq!(delivery.next_target(), Some((reference(3, 2), true)));
    assert_eq!(delivery.next_target(), Some((reference(3, 1), true)));
    assert_eq!(delivery.next_target(), None);
}

#[test]
fn inverted_message_without_responder_class_is_not_supported() {
    let responders = TalkInvertedClassAllocator::empty();
    let result = responders.send_inverted_message::<i64>(MESSAGE, reference(1, 0), None);
    assert!(matches!(result, Err(TalkError::MessageNotSupported(id)) if id == MESSAGE));
}

#[test]
fn inverted_message_with_no_receivers_answers_nil() {
    let mut responders = TalkInvertedClassAllocator::empty();
    responders.add_responder_class(MESSAGE, TalkClass(3));
    let mut delivery = responders.send_inverted_message::<i64>(MESSAGE, reference(1, 0), None).ok().unwrap();
    assert!(delivery.is_finished());
    assert_eq!(delivery.next_target(), None);
    assert_eq!(delivery.finish(), None);
}

#[test]
fn first_handled_reply_is_the_answer() {
    let mut responders = TalkInvertedClassAllocator::empty();
    responders.add_responder_class(MESSAGE, TalkClass(3));
    responders.receive_from_all(reference(3, 1), TalkProcessWhen::Always);
    responders.receive_from_all(reference(3, 2), TalkProcessWhen::Always);
    responders.receive_from_all(reference(3, 3), TalkProcessWhen::Always);

    let mut delivery = responders.send_inverted_message::<i64>(MESSAGE, reference(1, 0), None).ok().unwrap();
    assert_eq!(delivery.next_target(), Some((reference(3, 3), true)));
    delivery.record_reply(TalkInvertedReply::Unhandled);
    assert_eq!(delivery.next_target(), Some((reference(3, 2), true)));
    delivery.record_reply(TalkInvertedReply::Handled(42));
    assert_eq!(delivery.next_target(), Some((reference(3, 1), true)));
    delivery.record_reply(TalkInvertedReply::Handled(7));
    assert!(delivery.is_finished());
    assert_eq!(delivery.finish(), Some(42));
}

#[test]
fn replies_without_handled_answer_nil() {
    let mut delivery = TalkInvertedDelivery::<i64>::new(vec![target(3, 1, 0, TalkProcessWhen::Always)]);
    assert_eq!(delivery.next_target(), Some((reference(3, 1), true)));
    delivery.record_reply(TalkInvertedReply::Other);
    assert!(delivery.is_received());
    assert_eq!(delivery.finish(), None);
}
