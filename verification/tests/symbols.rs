use flo_talk::symbol::{is_binary_character, str_chars, TalkSymbol, TalkSymbolRegistry};

#[test]
fn same_name_gives_same_symbol() {
    let mut registry = TalkSymbolRegistry::new();
    let first = registry.symbol_for("foo");
    let second = registry.symbol_for("bar");
    let again = registry.symbol_for("foo");

    assert_eq!(first, again);
    assert_ne!(first, second);
    assert_eq!(first.id(), 0);
    assert_eq!(second.id(), 1);
    assert_eq!(registry.len(), 2);
}

#[test]
fn symbol_names_round_trip() {
    let mut registry = TalkSymbolRegistry::new();
    let symbol = registry.symbol_for("someSymbol:");
    assert_eq!(symbol.name(&registry), "someSymbol:".to_string());
}

#[test]
fn unnamed_symbols_have_generated_names() {
    let mut registry = TalkSymbolRegistry::new();
    let _named = registry.symbol_for("x");
    let unnamed = TalkSymbol::new_unnamed(&mut registry);

    assert_eq!(unnamed.id(), 1);
    assert_eq!(unnamed.name(&registry), " <UNNAMED#1> ".to_string());

    // Looking up the generated name finds a different symbol
    let lookalike = registry.symbol_for(" <UNNAMED#1> ");
    assert_ne!(lookalike, unnamed);
}

#[test]
fn unnamed_names_use_all_digits() {
    let mut registry = TalkSymbolRegistry::new();
    let mut last = TalkSymbol::new_unnamed(&mut registry);
    for _ in 0..120 {
        last = TalkSymbol::new_unnamed(&mut registry);
    }
    assert_eq!(last.id(), 120);
    assert_eq!(last.name(&registry), " <UNNAMED#120> ".to_string());
}

#[test]
fn keywords_are_recognised() {
    let mut registry = TalkSymbolRegistry::new();
    let keyword = registry.symbol_for("foo:");
    let plain = registry.symbol_for("foo");
    let empty = registry.symbol_for("");

    assert!(keyword.is_keyword(&registry));
    assert!(!plain.is_keyword(&registry));
    assert!(!empty.is_keyword(&registry));
}

#[test]
fn keyword_to_symbol_removes_colon() {
    let mut registry = TalkSymbolRegistry::new();
    let keyword = registry.symbol_for("foo:");
    let plain = registry.symbol_for("foo");

    assert_eq!(keyword.keyword_to_symbol(&mut registry), plain);
    assert_eq!(plain.keyword_to_symbol(&mut registry), plain);

    let other = registry.symbol_for("bar:");
    let converted = other.keyword_to_symbol(&mut registry);
    assert_eq!(converted.name(&registry), "bar".to_string());
    assert_eq!(registry.len(), 4);
}

#[test]
fn binary_symbols_are_recognised() {
    let mut registry = TalkSymbolRegistry::new();
    let plus = registry.symbol_for("+");
    let less_equal = registry.symbol_for("<=");
    let word = registry.symbol_for("value");
    let empty = registry.symbol_for("");

    assert!(plus.is_binary(&registry));
    assert!(less_equal.is_binary(&registry));
    assert!(!word.is_binary(&registry));
    assert!(!empty.is_binary(&registry));
}

#[test]
fn binary_characters() {
    for chr in "!%&*+,/<=>?@\\~|-".chars() {
        assert!(is_binary_character(chr), "{:?}", chr);
    }
    for chr in "aZ0:_ #".chars() {
        assert!(!is_binary_character(chr), "{:?}", chr);
    }
}

#[test]
fn non_ascii_names() {
    let mut registry = TalkSymbolRegistry::new();
    let symbol = registry.symbol_for("größe:");
    assert_eq!(str_chars("größe:").len(), 6);
    assert!(symbol.is_keyword(&registry));
    assert_eq!(symbol.name(&registry), "größe:".to_string());
}

#[test]
fn symbols_are_numbered_in_creation_order() {
    let mut registry = TalkSymbolRegistry::new();
    let first = registry.symbol_for("first");
    let unnamed = TalkSymbol::new_unnamed(&mut registry);
    let second = registry.symbol_for("second");
    assert!(first.id() < unnamed.id());
    assert!(unnamed.id() < second.id());
    // An existing name keeps its number
    assert_eq!(registry.symbol_for("first").id(), first.id());
}
