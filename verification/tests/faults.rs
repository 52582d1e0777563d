//! Texts that are no documents, and why.
use noyalib::cst::parse_document_with_config;
use noyalib::syntax::Fault;
use noyalib::{from_str, Error, ParserConfig};

/// Why a text is no document, and where that shows.
fn fault_under(source: &str, config: &ParserConfig) -> (Fault, usize) {
    match parse_document_with_config(source, config) {
        Err(Error::Syntax(flaw)) => (flaw.fault, flaw.at),
        other => panic!("{source:?}: {other:?}"),
    }
}

fn fault(source: &str) -> Fault {
    fault_under(source, &ParserConfig::new()).0
}

#[test]
fn each_fault_has_its_text() {
    let cases = [
        ("a: 'x", Fault::UnclosedQuote),
        ("a: \"x", Fault::UnclosedQuote),
        ("a: [1", Fault::UnclosedFlow),
        ("a: {b: 1", Fault::UnclosedFlow),
        ("a: [1}", Fault::MismatchedFlow),
        ("a: [1,,2]", Fault::EmptyMember),
        ("a: \"\\q\"", Fault::BadEscape),
        ("a: @x", Fault::Unexpected),
        ("[1] x", Fault::Trailing),
        ("a: 'x' y", Fault::Trailing),
        ("a: ['x' 'y']", Fault::SecondValue),
        ("a: *x", Fault::UnknownAnchor),
        ("<<: 1\n", Fault::BadMerge),
    ];
    let mut wrong = Vec::new();
    for (source, expected) in cases {
        let found = fault(source);
        if found != expected {
            wrong.push(format!("{source:?}: {found:?}, not {expected:?}"));
        }
    }
    assert!(wrong.is_empty(), "{wrong:?}");
}

#[test]
fn limits_are_kept() {
    let config = ParserConfig::new().max_depth(1);
    assert_eq!(fault_under("a:\n  b: 1\n", &config).0, Fault::TooDeep);
    let config = ParserConfig::new().alias_anchor_ratio(None).max_alias_expansions(1);
    let source = "a: &x 1\nb: *x\nc: *x\n";
    assert_eq!(fault_under(source, &config).0, Fault::TooManyAliases);
    let config = ParserConfig::new().alias_anchor_ratio(Some(1));
    assert_eq!(fault_under(source, &config).0, Fault::AliasRatio);
}

#[test]
fn messages_say_what_and_where() {
    let err = from_str("a: *x").unwrap_err();
    assert_eq!(err.message(), "unknown anchor at byte 3");
    let err = from_str("a: [1").unwrap_err();
    assert!(err.message().starts_with("a flow collection is never closed at byte "));
}
