use flo_talk::class::TalkClass;
use flo_talk::dictionary::{dictionary_handle, hash_reply, TalkDictionary, TalkHashReply, TalkLookupStep};
use flo_talk::reference::{TalkDataHandle, TalkReference};
use flo_talk::error::TalkError;

type Dictionary = TalkDictionary<i64, &'static str>;

fn found(step: TalkLookupStep<'_, &'static str>) -> Option<&'static str> {
    match step {
        TalkLookupStep::Found(value) => Some(*value),
        _ => None,
    }
}

#[test]
fn empty_dictionary_finds_nothing() {
    let dictionary = Dictionary::new();
    assert!(matches!(dictionary.lookup_start(3, 1), TalkLookupStep::NotFound));
}

#[test]
fn added_value_is_found_by_identical_key() {
    let mut dictionary = Dictionary::new();
    assert!(dictionary.add_value(3, 1, "one").is_empty());
    assert_eq!(found(dictionary.lookup_start(3, 1)), Some("one"));
}

#[test]
fn adding_an_identical_key_replaces_its_value() {
    let mut dictionary = Dictionary::new();
    dictionary.add_value(3, 1, "one");
    dictionary.add_value(3, 2, "two");
    // An identical key was removed, so no comparisons are needed
    assert!(dictionary.add_value(3, 1, "uno").is_empty());
    assert_eq!(found(dictionary.lookup_start(3, 1)), Some("uno"));
    assert_eq!(found(dictionary.lookup_start(3, 2)), Some("two"));
}

#[test]
fn new_key_in_shared_bucket_is_compared_with_the_others() {
    let mut dictionary = Dictionary::new();
    dictionary.add_value(3, 1, "one");
    dictionary.add_value(3, 2, "two");
    let to_compare = dictionary.add_value(3, 5, "five");
    assert_eq!(to_compare, vec![1, 0]);

    // Suppose `5 = 2` answers true: that entry goes
    dictionary.remove_if_equal(3, 1, true);
    dictionary.remove_if_equal(3, 0, false);
    assert_eq!(found(dictionary.lookup_start(3, 1)), Some("one"));
    assert_eq!(found(dictionary.lookup_start(3, 5)), Some("five"));
    assert!(matches!(dictionary.lookup_start(3, 2), TalkLookupStep::CompareWith(0)));
}

#[test]
fn lookup_compares_each_entry_in_turn() {
    let mut dictionary = Dictionary::new();
    dictionary.add_value(4, 10, "ten");
    dictionary.add_value(4, 20, "twenty");

    assert!(matches!(dictionary.lookup_start(4, 30), TalkLookupStep::CompareWith(0)));
    assert!(matches!(dictionary.lookup_reply(4, 0, false), TalkLookupStep::CompareWith(1)));
    assert_eq!(found(dictionary.lookup_reply(4, 1, true)), Some("twenty"));
    assert!(matches!(dictionary.lookup_reply(4, 1, false), TalkLookupStep::NotFound));
}

#[test]
fn other_buckets_are_untouched() {
    let mut dictionary = Dictionary::new();
    dictionary.add_value(1, 7, "seven");
    dictionary.add_value(2, 7, "other seven");
    assert_eq!(found(dictionary.lookup_start(1, 7)), Some("seven"));
    assert_eq!(found(dictionary.lookup_start(2, 7)), Some("other seven"));
    assert!(matches!(dictionary.lookup_start(5, 7), TalkLookupStep::NotFound));
}

#[test]
fn hash_replies() {
    assert_eq!(hash_reply(TalkHashReply::Int(42)), Ok(42));
    assert_eq!(hash_reply(TalkHashReply::Int(-1)), Ok(usize::MAX));
    assert_eq!(hash_reply(TalkHashReply::Other), Err(TalkError::NotAnInteger));
    assert_eq!(hash_reply(TalkHashReply::Error(TalkError::Busy)), Err(TalkError::Busy));
}

#[test]
fn only_dictionaries_have_dictionary_data() {
    let dictionary_class = TalkClass(4);
    assert_eq!(
        dictionary_handle(TalkReference(TalkClass(4), TalkDataHandle(9)), dictionary_class),
        Ok(TalkDataHandle(9))
    );
    assert_eq!(
        dictionary_handle(TalkReference(TalkClass(5), TalkDataHandle(9)), dictionary_class),
        Err(TalkError::UnexpectedClass)
    );
}

#[test]
fn equal_key_finds_value_after_replacement() {
    // Keys 1 and 101 stand for two values that `=` says are equal
    let mut dictionary = Dictionary::new();
    dictionary.add_value(1, 1, "old");
    dictionary.add_value(1, 2, "other");
    let to_compare = dictionary.add_value(1, 101, "new");
    assert_eq!(to_compare, vec![1, 0]);
    dictionary.remove_if_equal(1, 1, false);
    dictionary.remove_if_equal(1, 0, true);

    // Looking up 1 again: no identical key is left, so compare in turn
    assert!(matches!(dictionary.lookup_start(1, 1), TalkLookupStep::CompareWith(0)));
    assert!(matches!(dictionary.lookup_reply(1, 0, false), TalkLookupStep::CompareWith(1)));
    assert_eq!(found(dictionary.lookup_reply(1, 1, true)), Some("new"));
}
