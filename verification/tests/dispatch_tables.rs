use flo_talk::error::TalkError;
use flo_talk::dispatch_table::{TalkDispatch, TalkMessageDispatchTable, TalkSupport};
use flo_talk::message::TalkMessageSignatureId;

type Table = TalkMessageDispatchTable<&'static str, &'static str, &'static str>;

#[test]
fn defined_messages_are_dispatched() {
    let table = Table::empty()
        .with_message(TalkMessageSignatureId(1), "first")
        .with_message(TalkMessageSignatureId(2), "second");

    match table.send_message(TalkMessageSignatureId(1)) {
        TalkDispatch::Action(action) => assert_eq!(*action, "first"),
        _ => panic!("message 1 should be dispatched to its action"),
    }
    match table.send_message(TalkMessageSignatureId(3)) {
        TalkDispatch::Error(TalkError::MessageNotSupported(id)) => assert_eq!(id, TalkMessageSignatureId(3)),
        _ => panic!("message 3 should use the default not supported action"),
    }
    assert_eq!(table.try_send_message(TalkMessageSignatureId(2)).map(|a| *a), Some("second"));
    assert!(table.try_send_message(TalkMessageSignatureId(3)).is_none());
}

#[test]
fn redefining_replaces_action() {
    let mut table = Table::empty().with_message(TalkMessageSignatureId(1), "old");
    table.define_message(TalkMessageSignatureId(1), "new");
    assert_eq!(table.try_send_message(TalkMessageSignatureId(1)).map(|a| *a), Some("new"));
}

#[test]
fn not_supported_and_also_supported() {
    let table = Table::empty()
        .with_message(TalkMessageSignatureId(1), "action")
        .with_not_supported("fallback")
        .with_is_also_supported("test");

    match table.send_message(TalkMessageSignatureId(5)) {
        TalkDispatch::NotSupported(handler) => assert_eq!(*handler, "fallback"),
        _ => panic!("message 5 should use the custom not supported action"),
    }
    assert!(matches!(table.responds_to(TalkMessageSignatureId(1)), TalkSupport::Supported));
    match table.responds_to(TalkMessageSignatureId(5)) {
        TalkSupport::AskAlsoSupported(test) => assert_eq!(*test, "test"),
        _ => panic!("message 5 should be checked by the also supported test"),
    }
    assert!(matches!(Table::empty().responds_to(TalkMessageSignatureId(5)), TalkSupport::NotSupported));
}

#[test]
fn messages_copied_from_other_table() {
    let base = Table::empty()
        .with_message(TalkMessageSignatureId(1), "base one")
        .with_message(TalkMessageSignatureId(2), "base two");
    let extra = Table::empty()
        .with_message(TalkMessageSignatureId(2), "extra two")
        .with_message(TalkMessageSignatureId(3), "extra three");

    let combined = base.with_messages_from(&extra);
    assert_eq!(combined.try_send_message(TalkMessageSignatureId(1)).map(|a| *a), Some("base one"));
    assert_eq!(combined.try_send_message(TalkMessageSignatureId(2)).map(|a| *a), Some("extra two"));
    assert_eq!(combined.try_send_message(TalkMessageSignatureId(3)).map(|a| *a), Some("extra three"));
}

#[test]
fn mapped_messages_are_converted() {
    let source = Table::empty()
        .with_message(TalkMessageSignatureId(1), "one")
        .with_message(TalkMessageSignatureId(2), "three");
    let target: TalkMessageDispatchTable<usize, &'static str, &'static str> = TalkMessageDispatchTable::empty()
        .with_message(TalkMessageSignatureId(2), 0)
        .with_message(TalkMessageSignatureId(5), 55)
        .with_mapped_messages_from(&source, |action: std::sync::Arc<&'static str>| action.len());

    assert_eq!(target.try_send_message(TalkMessageSignatureId(1)).map(|a| *a), Some(3));
    assert_eq!(target.try_send_message(TalkMessageSignatureId(2)).map(|a| *a), Some(5));
    assert_eq!(target.try_send_message(TalkMessageSignatureId(5)).map(|a| *a), Some(55));
    assert!(target.try_send_message(TalkMessageSignatureId(6)).is_none());
}
