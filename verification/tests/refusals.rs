//! Edits that are refused, and why.
use noyalib::cst::{parse_document, Document};
use noyalib::{Error, Operation, Refusal, Value};

fn doc(src: &str) -> Document {
    parse_document(src).unwrap_or_else(|e| panic!("{src:?}: {}", e.message()))
}

fn text(s: &str) -> Value {
    Value::String(s.to_string())
}

/// Holds an edit to its refusal, and the document to its source.
fn refused(
    wrong: &mut Vec<String>,
    source: &str,
    edit: fn(&mut Document) -> Result<(), Error>,
    expected: (Operation, Refusal),
) {
    let mut d = doc(source);
    let r = edit(&mut d);
    if d.source() != source {
        wrong.push(format!("{source:?} became {:?}", d.source()));
    }
    match r {
        Err(Error::Edit(op, why)) if (op, why) == expected => {}
        other => wrong.push(format!("{source:?}: {other:?}, not {expected:?}")),
    }
}

#[test]
fn each_refusal_has_its_edit() {
    let mut w: Vec<String> = Vec::new();
    refused(&mut w, "a: 1\n", |d| d.remove(""), (Operation::Remove, Refusal::EmptyPath));
    refused(
        &mut w,
        "a:\n  - 1\n",
        |d| d.rename_key("a[0]", "b"),
        (Operation::RenameKey, Refusal::NotAKey),
    );
    refused(&mut w, "a: 1\n", |d| d.push_back("a", "x"), (Operation::PushBack, Refusal::NotASequence));
    refused(
        &mut w,
        "a: 1\n",
        |d| d.insert_entry("a", "k", "x"),
        (Operation::InsertEntry, Refusal::NotAMapping),
    );
    refused(
        &mut w,
        "a: &x 1\n",
        |d| d.set_value("a", &text("s")),
        (Operation::SetValue, Refusal::NotAScalarSite),
    );
    refused(
        &mut w,
        "a: &x k\n*x : 1\n",
        |d| d.rename_key("k", "b"),
        (Operation::RenameKey, Refusal::NotAScalarKey),
    );
    refused(
        &mut w,
        "a:\n  - 1\n",
        |d| d.push_back_value("a", &Value::Tagged(Box::new(noyalib::TaggedValue {
            tag: "!t".to_owned(),
            value: Value::Null,
        }))),
        (Operation::PushBackValue, Refusal::NoSpelling),
    );
    refused(
        &mut w,
        "a:\n  - 1\n",
        |d| d.push_back_value("a", &Value::Number(noyalib::Number::Float("x: y".to_owned()))),
        (Operation::PushBackValue, Refusal::IntegrityCheck),
    );
    refused(
        &mut w,
        "a: 1\nb: 2\n",
        |d| {
            let odd = Value::Number(noyalib::Number::Float("\"\\q\"".to_owned()));
            d.insert_entry_value("", "a", &odd)
        },
        (Operation::InsertEntryValue, Refusal::NotReparsed),
    );
    refused(
        &mut w,
        "a: &x\n  - 1\n",
        |d| d.push_back_value("a", &Value::Number(noyalib::Number::Float("*z".to_owned()))),
        (Operation::PushBackValue, Refusal::NotSpliced),
    );
    refused(
        &mut w,
        "a: &x {k: 1}\nb:\n  <<: *x\n",
        |d| d.insert_entry("b", "z", "1"),
        (Operation::InsertEntry, Refusal::NoAnchor),
    );
    assert!(w.is_empty(), "{w:#?}");
}

#[test]
fn a_document_that_no_longer_parses_resolves_no_path() {
    let mut d = doc("a: 1\nb: 2\n");
    d.set("a", "[").unwrap();
    assert!(d.validate().is_err());
    let before = d.source().to_owned();
    let r = d.remove("b");
    assert!(
        matches!(r, Err(Error::Edit(Operation::Remove, Refusal::DoesNotParse))),
        "{r:?}"
    );
    assert_eq!(d.source(), before);
}
