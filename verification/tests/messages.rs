use flo_talk::message::{
    capitalized, value_message_signature, TalkArgument, TalkMessageSignature, TalkMessageSignatureId,
    TalkMessageSignatures, TalkSignatureRemainder,
};
use flo_talk::symbol::{str_chars, TalkSymbolRegistry};

#[test]
fn signatures_get_stable_ids() {
    let mut symbols = TalkSymbolRegistry::new();
    let mut signatures = TalkMessageSignatures::new();
    let value = symbols.symbol_for("value");
    let at = symbols.symbol_for("at:");
    let put = symbols.symbol_for("put:");

    let unary = TalkMessageSignature::unary(value).id(&mut signatures);
    let two_args = TalkMessageSignature::with_arguments(vec![at, put]).id(&mut signatures);
    let unary_again = TalkMessageSignature::unary(value).id(&mut signatures);
    let two_args_again = TalkMessageSignature::with_arguments(vec![at, put]).id(&mut signatures);

    assert_eq!(unary, unary_again);
    assert_eq!(two_args, two_args_again);
    assert_ne!(unary, two_args);
    assert_eq!(signatures.len(), 2);

    assert_eq!(unary.len(&signatures), 0);
    assert_eq!(two_args.len(&signatures), 2);
    assert!(unary.to_signature(&signatures).is_unary());
    assert_eq!(two_args.to_signature(&signatures).first_symbol(), at);
}

#[test]
fn signature_ids_from_symbols() {
    let mut symbols = TalkSymbolRegistry::new();
    let mut signatures = TalkMessageSignatures::new();
    let keyword = symbols.symbol_for("add:");
    let binary = symbols.symbol_for("+");
    let unary = symbols.symbol_for("size");

    let keyword_id = TalkMessageSignatureId::from_symbol(keyword, &mut signatures, &symbols);
    let binary_id = TalkMessageSignatureId::from_symbol(binary, &mut signatures, &symbols);
    let unary_id = TalkMessageSignatureId::from_symbol(unary, &mut signatures, &symbols);

    assert_eq!(keyword_id.len(&signatures), 1);
    assert_eq!(binary_id.len(&signatures), 1);
    assert_eq!(unary_id.len(&signatures), 0);

    let list_id = TalkMessageSignatureId::from_symbols(vec![keyword, binary], &mut signatures, &symbols);
    assert_eq!(list_id.len(&signatures), 2);
    let single = TalkMessageSignatureId::from_symbols(vec![keyword], &mut signatures, &symbols);
    assert_eq!(single, keyword_id);
}

#[test]
fn extra_parameter_on_keyword_message() {
    let mut symbols = TalkSymbolRegistry::new();
    let mut signatures = TalkMessageSignatures::new();
    let foo = symbols.symbol_for("foo:");
    let bar = symbols.symbol_for("bar:");

    let foo_id = TalkMessageSignature::with_arguments(vec![foo]).id(&mut signatures);
    let extended = foo_id.with_extra_parameter(bar, &mut signatures, &mut symbols);
    let expected = TalkMessageSignature::with_arguments(vec![foo, bar]).id(&mut signatures);
    assert_eq!(extended, expected);
    assert_eq!(extended.len(&signatures), 2);
}

#[test]
fn extra_parameter_on_unary_message() {
    let mut symbols = TalkSymbolRegistry::new();
    let mut signatures = TalkMessageSignatures::new();
    let foo = symbols.symbol_for("foo");
    let bar = symbols.symbol_for("bar:");

    let foo_id = TalkMessageSignature::unary(foo).id(&mut signatures);
    let extended = foo_id.with_extra_parameter(bar, &mut signatures, &mut symbols);
    let signature = extended.to_signature(&signatures);
    assert_eq!(signature.len(), 1);
    assert_eq!(signature.first_symbol().name(&symbols), "fooBar:".to_string());

    let foo_bar = symbols.symbol_for("fooBar:");
    assert_eq!(signature.first_symbol(), foo_bar);

    // Asking again gives the same ID
    let again = foo_id.with_extra_parameter(bar, &mut signatures, &mut symbols);
    assert_eq!(again, extended);
}

#[test]
fn signature_with_extra_parameter() {
    let mut symbols = TalkSymbolRegistry::new();
    let mut signatures = TalkMessageSignatures::new();
    let at = symbols.symbol_for("at:");
    let put = symbols.symbol_for("put:");

    let signature = TalkMessageSignature::with_arguments(vec![at]);
    let extended = signature.with_extra_parameter(put, &mut signatures, &mut symbols);
    assert_eq!(extended.len(), 2);
    assert_eq!(extended.first_symbol(), at);
}

#[test]
fn capitalize_names() {
    assert_eq!(capitalized(&str_chars("bar:")), str_chars("Bar:"));
    assert_eq!(capitalized(&str_chars("Bar")), str_chars("Bar"));
    assert_eq!(capitalized(&str_chars("")), str_chars(""));
    assert_eq!(capitalized(&str_chars("1x")), str_chars("1x"));
    assert_eq!(capitalized(&str_chars("ßx")), str_chars("SSx"));
}

#[test]
fn expression_arguments() {
    let mut symbols = TalkSymbolRegistry::new();
    let value = symbols.symbol_for("value");
    let at = symbols.symbol_for("at:");
    let put = symbols.symbol_for("put:");

    let unary = vec![TalkArgument { name: value, has_value: false }];
    let keyword = vec![TalkArgument { name: at, has_value: true }, TalkArgument { name: put, has_value: true }];
    let empty: Vec<TalkArgument> = vec![];

    assert!(TalkMessageSignature::arguments_are_unary(&unary));
    assert!(!TalkMessageSignature::arguments_are_unary(&keyword));
    assert!(!TalkMessageSignature::arguments_are_unary(&empty));

    let unary_sig = TalkMessageSignature::from_expression_arguments(&unary);
    assert!(unary_sig.is_unary());
    assert_eq!(unary_sig.first_symbol(), value);

    let keyword_sig = TalkMessageSignature::from_expression_arguments(&keyword);
    assert!(!keyword_sig.is_unary());
    assert_eq!(keyword_sig.len(), 2);
}

#[test]
fn selectors_match_the_start_of_signatures() {
    let mut symbols = TalkSymbolRegistry::new();
    let at = symbols.symbol_for("at:");
    let put = symbols.symbol_for("put:");
    let value = symbols.symbol_for("value");
    let other = symbols.symbol_for("other");

    let at_put = TalkMessageSignature::with_arguments(vec![at, put]);
    let at_only = TalkMessageSignature::with_arguments(vec![at]);
    let put_only = TalkMessageSignature::with_arguments(vec![put]);

    assert!(at_put.starts_with(&at_only));
    assert!(at_put.starts_with(&at_put));
    assert!(!at_only.starts_with(&at_put));
    assert!(!at_put.starts_with(&put_only));
    assert!(TalkMessageSignature::unary(value).starts_with(&TalkMessageSignature::unary(value)));
    assert!(!TalkMessageSignature::unary(value).starts_with(&TalkMessageSignature::unary(other)));
    assert!(!TalkMessageSignature::unary(value).starts_with(&at_only));
}

#[test]
fn arguments_after_a_selector() {
    let mut symbols = TalkSymbolRegistry::new();
    let at = symbols.symbol_for("at:");
    let put = symbols.symbol_for("put:");
    let value = symbols.symbol_for("value");

    let at_put = TalkMessageSignature::with_arguments(vec![at, put]);
    let at_only = TalkMessageSignature::with_arguments(vec![at]);

    match at_put.after(&at_only) {
        TalkSignatureRemainder::Remaining(rest) => {
            assert_eq!(rest.len(), 1);
            assert_eq!(rest.first_symbol(), put);
        }
        _ => panic!("at:put: should continue after at:"),
    }
    assert!(matches!(at_put.after(&at_put), TalkSignatureRemainder::Complete));
    assert!(matches!(at_only.after(&at_put), TalkSignatureRemainder::DoesNotMatch));
    assert!(matches!(
        TalkMessageSignature::unary(value).after(&TalkMessageSignature::unary(value)),
        TalkSignatureRemainder::Complete
    ));
    assert!(matches!(TalkMessageSignature::unary(value).after(&at_only), TalkSignatureRemainder::DoesNotMatch));
}

#[test]
fn combined_signatures() {
    let mut symbols = TalkSymbolRegistry::new();
    let at = symbols.symbol_for("at:");
    let put = symbols.symbol_for("put:");
    let value = symbols.symbol_for("value");
    let other = symbols.symbol_for("other");

    let combined = TalkMessageSignature::with_arguments(vec![at])
        .combined_with(&TalkMessageSignature::with_arguments(vec![put]));
    assert_eq!(combined.len(), 2);
    assert_eq!(combined.first_symbol(), at);
    assert!(combined.starts_with(&TalkMessageSignature::with_arguments(vec![at, put])));

    let unary_first = TalkMessageSignature::unary(value).combined_with(&TalkMessageSignature::with_arguments(vec![put]));
    assert_eq!(unary_first.len(), 1);
    assert_eq!(unary_first.first_symbol(), put);

    let unary_second = TalkMessageSignature::with_arguments(vec![at]).combined_with(&TalkMessageSignature::unary(value));
    assert_eq!(unary_second.len(), 1);
    assert_eq!(unary_second.first_symbol(), at);

    let both_unary = TalkMessageSignature::unary(value).combined_with(&TalkMessageSignature::unary(other));
    assert!(both_unary.is_unary());
    assert_eq!(both_unary.first_symbol(), value);
}

#[test]
fn value_message_signatures() {
    let mut symbols = TalkSymbolRegistry::new();
    let mut signatures = TalkMessageSignatures::new();

    let no_args = value_message_signature(0, &mut signatures, &mut symbols);
    let one_arg = value_message_signature(1, &mut signatures, &mut symbols);
    let three_args = value_message_signature(3, &mut signatures, &mut symbols);

    assert_eq!(no_args.len(&signatures), 0);
    assert_eq!(one_arg.len(&signatures), 1);
    assert_eq!(three_args.len(&signatures), 3);
    assert_eq!(no_args.to_signature(&signatures).first_symbol().name(&symbols), "value");
    assert_eq!(three_args.to_signature(&signatures).first_symbol().name(&symbols), "value:");
    assert_eq!(value_message_signature(1, &mut signatures, &mut symbols), one_arg);
    assert_ne!(no_args, one_arg);

    let value_keyword = symbols.symbol_for("value:");
    assert_eq!(
        TalkMessageSignature::with_arguments(vec![value_keyword, value_keyword, value_keyword]).id(&mut signatures),
        three_args
    );
}
