//! Reading documents: text, tree, values and spans.
use noyalib::cst::{parse_document, parse_stream, Document, SyntaxKind};
use noyalib::{from_str, FlowStyle, ScalarStyle, Value};

fn at<'a>(doc: &'a Document, path: &str) -> &'a str {
    let (s, e) = doc.span_at(path).unwrap();
    &doc.source()[s..e]
}

#[test]
fn parsing_keeps_every_byte() {
    for src in [
        "name: noyalib  # the project\nversion: 0.0.1\n",
        "",
        "\n",
        "# only a comment\n",
        "a: 1",
        "---\nfoo: 1\n...\n",
        "%YAML 1.2\n---\nfoo: 1\n",
        "\u{feff}a: 1\n",
        "a: |\n  one\n\n  two\nb: >-\n  folded\n  text\n",
        "a: &x {k: v, 'q': [1, \"two\"]}\nb: *x\n",
        "- - 1\n  - 2\n-\n  k: v\n",
        "? explicit\n: value\n",
        "key: \"multi\n  line\"\nother: plain\n  continued\n",
        "a:\r\n  b: 1\r\n",
        "t: !tag value\nu: !!str 1\n",
        "\"quoted key\": 1\n'single': 2\n",
        "é: ü\n",
    ] {
        let doc = parse_document(src).unwrap_or_else(|e| panic!("{src:?}: {}", e.message()));
        assert_eq!(doc.to_string(), src);
        assert_eq!(doc.source(), src);
        assert_eq!(doc.syntax().text(src.as_bytes()), src.as_bytes());
    }
}

#[test]
fn the_root_of_the_tree_is_a_document() {
    let doc = parse_document("foo: 1\n").unwrap();
    assert_eq!(doc.syntax().kind(), SyntaxKind::Document);
}

#[test]
fn values_are_typed() {
    let doc = parse_document(
        "s: text\ni: -42\nf: 1.5\nt: true\nn: null\nq: \"8080\"\ne:\nh: 0x1F\no: 0o17\n",
    )
    .unwrap();
    let v = doc.as_value();
    assert_eq!(v.get("s").unwrap().as_str(), Some("text"));
    assert_eq!(v.get("i").unwrap().as_i64(), Some(-42));
    assert_eq!(v.get("t"), Some(&Value::Bool(true)));
    assert_eq!(v.get("n"), Some(&Value::Null));
    assert_eq!(v.get("q").unwrap().as_str(), Some("8080"));
    assert_eq!(v.get("e"), Some(&Value::Null));
    assert_eq!(v.get("h").unwrap().as_i64(), Some(31));
    assert_eq!(v.get("o").unwrap().as_i64(), Some(15));
    assert!(matches!(v.get("f"), Some(Value::Number(_))));
}

#[test]
fn scalars_are_decoded() {
    let v = from_str("a: 'it''s'\nb: \"tab\\there \\u00e9 \\x41\"\nc: |\n  one\n  two\nd: >\n  x\n  y\ne: |-\n  z\n")
        .unwrap();
    assert_eq!(v.get("a").unwrap().as_str(), Some("it's"));
    assert_eq!(v.get("b").unwrap().as_str(), Some("tab\there é A"));
    assert_eq!(v.get("c").unwrap().as_str(), Some("one\ntwo\n"));
    assert_eq!(v.get("d").unwrap().as_str(), Some("x y\n"));
    assert_eq!(v.get("e").unwrap().as_str(), Some("z"));
}

#[test]
fn spans_are_the_bytes_of_values() {
    let doc = parse_document("name: noyalib\nversion: 0.0.1\n").unwrap();
    assert_eq!(at(&doc, "version"), "0.0.1");
    let doc = parse_document("items:\n  - one\n  - two\n").unwrap();
    assert_eq!(doc.get("items[1]"), Some("two"));
    assert_eq!(doc.get("items[2]"), None);
    assert_eq!(doc.get("nope"), None);
    let doc = parse_document("a: {x: [1, 22], y: 'q'}\n").unwrap();
    assert_eq!(at(&doc, "a.x[1]"), "22");
    assert_eq!(at(&doc, "a.y"), "'q'");
    assert_eq!(at(&doc, "a"), "{x: [1, 22], y: 'q'}");
}

#[test]
fn the_last_of_two_equal_keys_counts() {
    let doc = parse_document("k: one\nk: two\n").unwrap();
    assert_eq!(at(&doc, "k"), "two");
    assert_eq!(doc.get("k"), Some("two"));
    assert_eq!(doc.as_value().get("k").unwrap().as_str(), Some("two"));
}

#[test]
fn key_spans_include_quotes() {
    let doc = parse_document("name: foo\n\"quoted key\": 1\n").unwrap();
    let (s, e) = doc.key_span("name").unwrap();
    assert_eq!(&doc.source()[s..e], "name");
    let (s, e) = doc.key_span("quoted key").unwrap();
    assert_eq!(&doc.source()[s..e], "\"quoted key\"");
    assert_eq!(doc.key_span("missing"), None);
}

#[test]
fn aliases_lead_to_their_anchor() {
    let doc = parse_document("a: &x 1\nb: *x\n").unwrap();
    assert_eq!(doc.as_value().get("b").unwrap().as_i64(), Some(1));
}

#[test]
fn validation_reports_a_document_that_no_longer_parses() {
    let mut doc = parse_document("name: foo\n").unwrap();
    assert!(doc.validate().is_ok());
    doc.set("name", "[").unwrap();
    assert!(doc.validate().is_err());
}

#[test]
fn indentation_units_are_detected() {
    let two = parse_document("metadata:\n  labels:\n    app: noyalib\n").unwrap();
    assert_eq!(two.indent_unit(), 2);
    let four = parse_document("metadata:\n    labels:\n        app: noyalib\n").unwrap();
    assert_eq!(four.indent_unit(), 4);
    let flat = parse_document("a: 1\nb: 2\n").unwrap();
    assert_eq!(flat.indent_unit(), 2);
}

#[test]
fn quote_styles_are_detected() {
    let single = parse_document("a: 'one'\nb: 'two'\n").unwrap();
    assert_eq!(single.dominant_quote_style(), ScalarStyle::SingleQuoted);
    let double = parse_document("a: \"one\"\nb: \"two\"\n").unwrap();
    assert_eq!(double.dominant_quote_style(), ScalarStyle::DoubleQuoted);
    let tied = parse_document("a: \"one\"\nb: 'two'\n").unwrap();
    assert_eq!(tied.dominant_quote_style(), ScalarStyle::SingleQuoted);
    let plain = parse_document("a: one\nb: two\n").unwrap();
    assert_eq!(plain.dominant_quote_style(), ScalarStyle::Plain);
}

#[test]
fn collection_styles_are_detected() {
    let block = parse_document("a:\n  - 1\n  - 2\n").unwrap();
    assert_eq!(block.dominant_flow_style(), FlowStyle::Block);
    let flow = parse_document("a: [1, 2, 3]\nb: [4, 5]\n").unwrap();
    assert_eq!(flow.dominant_flow_style(), FlowStyle::Auto);
}

#[test]
fn streams_split_into_documents() {
    let src = "---\nfoo: 1\n";
    let docs = parse_stream(src).unwrap();
    assert_eq!(docs.len(), 1);
    assert_eq!(docs[0].to_string(), src);

    let src = "---\nfoo: 1\n---\nbar: 2\n";
    let docs = parse_stream(src).unwrap();
    assert_eq!(docs.len(), 2);
    assert_eq!(docs[0].as_value().get("foo").unwrap().as_i64(), Some(1));
    assert_eq!(docs[1].as_value().get("bar").unwrap().as_i64(), Some(2));
    let joined: String = docs.iter().map(Document::source).collect();
    assert_eq!(joined, src);
}

#[test]
fn trivia_around_documents_keeps_its_place() {
    for (src, pieces) in [
        ("a: 1\n...\n# prologue\n---\nb: 2\n", vec!["a: 1\n...\n", "# prologue\n---\nb: 2\n"]),
        ("a: 1\n...\n\n# trailing\n", vec!["a: 1\n...\n\n# trailing\n"]),
        ("a: 1\n# tail\n---\nb: 2\n", vec!["a: 1\n# tail\n", "---\nb: 2\n"]),
        ("\u{feff}---\na: 1\n---\nb: 2\n", vec!["\u{feff}---\na: 1\n", "---\nb: 2\n"]),
        ("", vec![""]),
    ] {
        let docs = parse_stream(src).unwrap_or_else(|e| panic!("{src:?}: {}", e.message()));
        let got: Vec<&str> = docs.iter().map(Document::source).collect();
        assert_eq!(got, pieces);
    }
}

#[test]
fn broken_texts_are_refused() {
    for src in [
        "a: [unclosed",
        "a: 'open\n",
        "a: \"open\n",
        "a: {x: 1]\n",
        "a: *missing\n",
        "a: 1\n b: 2\n",
        "a: [1,,2]\n",
        "a: \"\\q\"\n",
        "job:\n  <<: 1\n",
        "job:\n  <<: *missing\n",
    ] {
        assert!(parse_document(src).is_err(), "{src:?}");
        assert!(from_str(src).is_err(), "{src:?}");
    }
}

#[test]
fn merges_fill_in_what_is_not_there() {
    let defaults = "defaults: &defaults\n  retries: 3\n  timeout: 30\nlong: &long 300\n";
    for job in [
        "job:\n  <<: *defaults\n  timeout: *long\n",
        "job:\n  timeout: *long\n  <<: *defaults\n",
        "job:\n  retries: 3\n  timeout: *long\n",
    ] {
        let v = from_str(&format!("{defaults}{job}")).unwrap();
        let job = v.get("job").unwrap();
        assert_eq!(job.get("retries").unwrap().as_i64(), Some(3));
        assert_eq!(job.get("timeout").unwrap().as_i64(), Some(300));
        assert_eq!(job.as_mapping().unwrap().len(), 2);
    }
    let v = from_str(
        "base: &base\n  x: 1\njob:\n  <<: *base\n  spec: &spec\n    cpu: 2\ncopy: *spec\n",
    )
    .unwrap();
    assert_eq!(v.get("copy").unwrap().as_mapping().unwrap().len(), 1);
}
