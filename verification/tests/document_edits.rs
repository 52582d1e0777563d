//! Edits, byte for byte.
use noyalib::cst::{parse_document, Document};
use noyalib::{Error, Mapping, Operation, Refusal, Value};

fn doc(src: &str) -> Document {
    parse_document(src).unwrap_or_else(|e| panic!("{src:?}: {}", e.message()))
}

fn text(s: &str) -> Value {
    Value::String(s.to_string())
}

fn why(r: Result<(), Error>) -> (Operation, Refusal) {
    match r {
        Err(Error::Edit(op, why)) => (op, why),
        other => panic!("expected a refusal, got {other:?}"),
    }
}

fn fine(r: Result<(), Error>) {
    if let Err(e) = r {
        panic!("{}", e.message());
    }
}

#[test]
fn replace_span_splices_bytes() {
    let mut d = doc("a: 1\n");
    let (s, e) = d.span_at("a").unwrap();
    fine(d.replace_span(s, e, "42"));
    assert_eq!(d.to_string(), "a: 42\n");
    assert!(d.last_repair_scope().is_some());
    assert_eq!(why(d.replace_span(3, 99, "x")).1, Refusal::OutOfBounds);
    let mut d = doc("é: 1\n");
    assert_eq!(why(d.replace_span(1, 2, "x")).1, Refusal::NotABoundary);
    assert_eq!(d.to_string(), "é: 1\n");
}

#[test]
fn a_fresh_document_has_no_repair_scope() {
    let d = doc("a: 1\n");
    assert_eq!(d.last_repair_scope(), None);
}

#[test]
fn edits_with_anchors_parse_the_whole_document_again() {
    let mut d = doc("a: &x 1\nb: *x\n");
    fine(d.set("a", "&x 2"));
    assert_eq!(d.last_repair_scope(), None);
}

#[test]
fn set_replaces_values() {
    let mut d = doc("name: foo\nversion: 0.0.1\n");
    fine(d.set("version", "0.0.2"));
    assert_eq!(d.to_string(), "name: foo\nversion: 0.0.2\n");
    let mut d = doc("service: api\nport: 8080  # bumped for the load test\n");
    fine(d.set("port", "9090"));
    assert_eq!(d.source(), "service: api\nport: 9090  # bumped for the load test\n");
    let mut d = doc("a: &x 1\nb: *x\n");
    assert_eq!(why(d.set("b.c", "2")).1, Refusal::PathNotFound);
}

#[test]
fn set_value_fits_in_with_its_site() {
    let mut d = doc("name: noyalib\nversion: 0.0.1\n");
    fine(d.set_value("version", &text("0.0.2")));
    assert_eq!(d.to_string(), "name: noyalib\nversion: 0.0.2\n");
    let mut d = doc("a: 'one'\n");
    fine(d.set_value("a", &text("it's")));
    assert_eq!(d.to_string(), "a: 'it''s'\n");
    let mut d = doc("a: \"one\"\n");
    fine(d.set_value("a", &text("two")));
    assert_eq!(d.to_string(), "a: \"two\"\n");
    let mut d = doc("a: one\n");
    fine(d.set_value("a", &text("true")));
    assert_eq!(d.to_string(), "a: \"true\"\n");
    assert_eq!(d.as_value().get("a").unwrap().as_str(), Some("true"));
    let mut d = doc("a: one\n");
    fine(d.set_value("a", &text("two\nthree\n")));
    assert_eq!(d.to_string(), "a: |\n  two\n  three\n");
    assert_eq!(d.as_value().get("a").unwrap().as_str(), Some("two\nthree\n"));
    let mut d = doc("a: 1\n");
    fine(d.set_value("a", &Value::from(7)));
    assert_eq!(d.to_string(), "a: 7\n");
    assert_eq!(
        why(d.set_value("a", &Value::Sequence(vec![]))),
        (Operation::SetValue, Refusal::CollectionValue)
    );
}

#[test]
fn set_value_replaces_neither_collections_nor_block_scalars() {
    for (source, path, expected) in [
        ("a: |\n  one\n", "a", Refusal::BlockScalarTarget),
        ("a: >-\n  one\n", "a", Refusal::BlockScalarTarget),
        ("a: {x: 1}\n", "a", Refusal::CollectionTarget),
        ("a: []\n", "a", Refusal::CollectionTarget),
        ("a:\n  x: 1\n", "a", Refusal::CollectionTarget),
        ("a:\n  - 1\n", "a", Refusal::CollectionTarget),
        ("- - 1\n", "[0]", Refusal::CollectionTarget),
    ] {
        let mut d = doc(source);
        assert_eq!(why(d.set_value(path, &text("s"))), (Operation::SetValue, expected));
        assert_eq!(why(d.set_value(path, &Value::from(1))), (Operation::SetValue, expected));
        assert_eq!(d.to_string(), source);
    }
}

#[test]
fn remove_takes_what_the_entry_owns() {
    let mut d = doc("# connection settings\ndatabase:\n  host: x\ncache: 1\n");
    fine(d.remove("database"));
    assert_eq!(d.to_string(), "cache: 1\n");
    let mut d = doc("outer:\n  a: 1\n  # note for next\nnext: 2\n");
    fine(d.remove("outer"));
    assert_eq!(d.to_string(), "  # note for next\nnext: 2\n");
    let mut d = doc("a: 1\nb: 2\nc: 3\n");
    fine(d.remove("b"));
    assert_eq!(d.to_string(), "a: 1\nc: 3\n");
    let mut d = doc("keep: 1\nserver:\n  host: 0.0.0.0\n  port: 8080\ntrailer: 2\n");
    fine(d.remove("server"));
    assert_eq!(d.source(), "keep: 1\ntrailer: 2\n");
}

#[test]
fn a_wrapped_flow_member_takes_its_line() {
    for (src, path, want) in [
        ("ports: [\n  80,\n  443,\n]\n", "ports[0]", "ports: [\n  443,\n]\n"),
        ("cfg: {\n  a: 1,\n  b: 2,\n}\n", "cfg.a", "cfg: {\n  b: 2,\n}\n"),
        ("ports: [80,\n  443,\n]\n", "ports[0]", "ports: [\n  443,\n]\n"),
        ("ports: [\n  80, 443,\n  8080,\n]\n", "ports[0]", "ports: [\n  443,\n  8080,\n]\n"),
        (
            "ports: [\n  80, # why this port\n  443,\n]\n",
            "ports[0]",
            "ports: [\n  # why this port\n  443,\n]\n",
        ),
        ("ports: [80, 443]\n", "ports[0]", "ports: [443]\n"),
        ("ports:\n  - 80\n  - 443\n", "ports[0]", "ports:\n  - 443\n"),
    ] {
        let mut d = doc(src);
        fine(d.remove(path));
        assert_eq!(d.source(), want, "removing {path} from {src:?}");
    }
}

#[test]
fn rename_key_keeps_value_and_comment() {
    let mut d = doc("name: foo  # the project\nversion: 0.0.1\n");
    fine(d.rename_key("name", "title"));
    assert_eq!(d.to_string(), "title: foo  # the project\nversion: 0.0.1\n");
    let mut d = doc("name: foo\n");
    fine(d.rename_key("name", "a: b"));
    assert_eq!(d.to_string(), "\"a: b\": foo\n");
    assert_eq!(d.as_value().get("a: b").unwrap().as_str(), Some("foo"));
    let mut d = doc("'name': foo\n");
    fine(d.rename_key("name", "it's"));
    assert_eq!(d.to_string(), "'it''s': foo\n");
}

#[test]
fn rename_key_refuses_what_it_cannot_keep() {
    let op = Operation::RenameKey;
    let mut d = doc("a: 1\nb: 2\n");
    assert_eq!(why(d.rename_key("a", "b")), (op, Refusal::DuplicateKey));
    assert_eq!(why(d.rename_key("a", "<<")), (op, Refusal::MergeKeyName));
    assert_eq!(why(d.rename_key("a", "x\u{1}")), (op, Refusal::NonPrintable(1)));
    assert_eq!(why(d.rename_key("a[x]", "c")), (op, Refusal::BracketWithoutIndex));
    assert_eq!(why(d.rename_key("nope", "c")), (op, Refusal::MissingKey));
    fine(d.rename_key("a", "a"));
    assert_eq!(d.source(), "a: 1\nb: 2\n");
    let mut d = doc("m: {a: 1, b: 2}\n");
    assert_eq!(why(d.rename_key("m.a", "c")), (op, Refusal::FlowKey));
    let mut d = doc("a: &x\n  k: 1\nb: *x\n");
    assert_eq!(why(d.rename_key("a.k", "j")), (op, Refusal::InsideAnchor(1)));
    let mut d = doc("d: &d\n  k: 1\ne:\n  <<: *d\n  j: 2\n");
    assert_eq!(why(d.rename_key("e.k", "i")), (op, Refusal::ProvidedByMerge));
    assert_eq!(why(d.rename_key("e.j", "k")), (op, Refusal::OverridesMerge));
}

#[test]
fn swapping_and_moving_items() {
    let mut d = doc("- a\n- b\n- c\n");
    fine(d.swap_items("", 0, 2));
    assert_eq!(d.source(), "- c\n- b\n- a\n");
    fine(d.swap_items("", 0, 2));
    assert_eq!(d.source(), "- a\n- b\n- c\n");
    fine(d.swap_items("", 1, 1));
    assert_eq!(d.source(), "- a\n- b\n- c\n");
    let mut d = doc("- a\n- b\n- c\n- d\n");
    fine(d.move_item("", 0, 2));
    assert_eq!(d.source(), "- b\n- c\n- a\n- d\n");
    let mut d = doc("order:\n  - first\n  - second\n  - third\n");
    fine(d.swap_items("order", 0, 2));
    assert_eq!(d.source(), "order:\n  - third\n  - second\n  - first\n");
    fine(d.move_item("order", 2, 0));
    assert_eq!(d.source(), "order:\n  - first\n  - third\n  - second\n");
}

#[test]
fn swapping_equal_items_changes_nothing() {
    let mut d = doc("- a\n- 'a'\n");
    fine(d.swap_items("", 0, 1));
    assert_eq!(d.source(), "- a\n- 'a'\n");
}

#[test]
fn flow_collections_are_not_grown_or_reordered() {
    let mut d = doc("s: &x [1, 2]\nm: {a: 1}\n");
    assert_eq!(why(d.swap_items("s", 0, 1)), (Operation::SwapItems, Refusal::NotABlockSequence));
    assert_eq!(why(d.move_item("s", 0, 1)), (Operation::MoveItem, Refusal::StepRefused));
    assert_eq!(
        why(d.insert_entry("m", "b", "2")),
        (Operation::InsertEntry, Refusal::NotABlockMapping)
    );
    fine(d.insert_entry("m", "a", "2"));
    assert_eq!(d.source(), "s: &x [1, 2]\nm: {a: 2}\n");
    let mut d = doc("[1, 2]\n");
    assert_eq!(why(d.swap_items("", 0, 1)), (Operation::SwapItems, Refusal::NotABlockSequence));
    let mut d = doc("{a: 1}\n");
    assert_eq!(
        why(d.insert_entry("", "b", "2")),
        (Operation::InsertEntry, Refusal::NotABlockMapping)
    );
}

#[test]
fn growing_collections_verbatim() {
    let mut d = doc("items:\n  - one\n  - two\n");
    fine(d.push_back("items", "three"));
    assert_eq!(d.to_string(), "items:\n  - one\n  - two\n  - three\n");
    let mut d = doc("items:\n  - one\n  - three\n");
    fine(d.insert_after("items[0]", "two"));
    assert_eq!(d.to_string(), "items:\n  - one\n  - two\n  - three\n");
    let mut d = doc("features:\n  - auth\n  - api\n");
    fine(d.push_back("features", "metrics"));
    fine(d.insert_after("features[0]", "tracing"));
    assert_eq!(d.source(), "features:\n  - auth\n  - tracing\n  - api\n  - metrics\n");
    fine(d.insert_entry("", "enabled", "true"));
    assert_eq!(
        d.source(),
        "features:\n  - auth\n  - tracing\n  - api\n  - metrics\nenabled: true\n"
    );
    let mut d = doc("metadata:\n  labels:\n    app: noyalib\n");
    fine(d.insert_entry("metadata.labels", "env", "prod"));
    assert_eq!(d.to_string(), "metadata:\n  labels:\n    app: noyalib\n    env: prod\n");
    fine(d.insert_entry("metadata.labels", "env", "test"));
    assert_eq!(d.to_string(), "metadata:\n  labels:\n    app: noyalib\n    env: test\n");
    fine(d.insert_entry("metadata", "extra", "a: 1\nb: 2"));
    assert_eq!(
        d.to_string(),
        "metadata:\n  labels:\n    app: noyalib\n    env: test\n  extra:\n    a: 1\n    b: 2\n"
    );
}

#[test]
fn growing_a_last_line_without_a_break() {
    let mut d = doc("a: 1");
    fine(d.insert_entry("", "b", "2"));
    assert_eq!(d.source(), "a: 1\nb: 2\n");
    let mut d = doc("- a");
    fine(d.push_back("", "b"));
    assert_eq!(d.source(), "- a\n- b\n");
}

#[test]
fn growing_collections_by_value() {
    let mut d = doc("labels:\n  app: noyalib\n");
    fine(d.insert_entry_value("labels", "version", "8080"));
    assert_eq!(d.to_string(), "labels:\n  app: noyalib\n  version: \"8080\"\n");
    let mut d = doc("items:\n  - one\n");
    fine(d.push_back_value("items", "two: 2"));
    assert_eq!(d.to_string(), "items:\n  - one\n  - \"two: 2\"\n");
    let mut d = doc("items:\n  - one\n  - three\n");
    fine(d.insert_after_value("items[0]", "two"));
    assert_eq!(d.to_string(), "items:\n  - one\n  - two\n  - three\n");
    let mut d = doc("features:\n  - auth\n");
    fine(d.push_back_value("features", "- not an item"));
    assert_eq!(d.source(), "features:\n  - auth\n  - \"- not an item\"\n");
    fine(d.insert_entry_value("", "version", "8080"));
    assert_eq!(d.as_value().get("version"), Some(&text("8080")));
    fine(d.insert_entry_value("", "version", &9090_i64));
    assert_eq!(d.as_value().get("version"), Some(&Value::from(9090)));
    fine(d.insert_entry_value("", "on", &true));
    assert_eq!(d.as_value().get("on"), Some(&Value::Bool(true)));
}

#[test]
fn growing_collections_by_nested_values() {
    let nested = Value::Mapping(Mapping {
        entries: vec![
            ("x".to_string(), Value::from(1)),
            ("y".to_string(), Value::Sequence(vec![text("a: b"), Value::Null])),
        ],
    });
    let mut d = doc("top:\n  k: v\n");
    fine(d.insert_entry_value("top", "n", &nested));
    assert_eq!(d.as_value().get("top").unwrap().get("n"), Some(&nested));
    assert!(d.source().starts_with("top:\n  k: v\n  n:\n"));
    let mut d = doc("- 1\n");
    fine(d.push_back_value("", &nested));
    assert_eq!(d.as_value().as_sequence().unwrap()[1], nested);
    let mut d = doc("a: 1\n");
    fine(d.insert_entry_value("", "b", "line one\nline two\n"));
    assert_eq!(d.as_value().get("b"), Some(&text("line one\nline two\n")));
    assert_eq!(
        why(d.insert_entry_value("", "a", &nested)),
        (Operation::InsertEntryValue, Refusal::GrowsCollection)
    );
}

#[test]
fn dotted_keys_can_be_added_but_not_replaced() {
    let mut d = doc("labels:\n  app: x\n");
    fine(d.insert_entry_value("labels", "app.io/name", "y"));
    assert_eq!(d.source(), "labels:\n  app: x\n  app.io/name: y\n");
    assert_eq!(
        why(d.insert_entry_value("labels", "app.io/name", "z")),
        (Operation::InsertEntryValue, Refusal::NotAddressable)
    );
}

#[test]
fn a_refused_edit_changes_nothing() {
    let src = "m: {}\nseq: []\nflow: [1, 2]\nmap: {a: 1}\nd: &d\n  k: 1\n  s:\n    - 1\nuse: *d\n";
    let refused: Vec<(Operation, Refusal)> = {
        let mut d = doc(src);
        let list = vec![
            why(d.push_back("seq", "1")),
            why(d.push_back("flow", "3")),
            why(d.push_back_value("seq", &1_i64)),
            why(d.push_back_value("flow", &3_i64)),
            why(d.push_back_value("d.s", &2_i64)),
            why(d.insert_entry("m", "k", "1")),
            why(d.insert_entry_value("m", "k", "1")),
            why(d.insert_entry_value("d", "j", "1")),
            why(d.insert_entry_value("d", "<<", "1")),
            why(d.insert_entry_value("d", "\u{7}", "1")),
            why(d.insert_after("m", "1")),
            why(d.insert_after("flow[0]", "1")),
            why(d.insert_after_value("flow[0]", "1")),
            why(d.swap_items("flow", 0, 9)),
            why(d.move_item("flow", 0, 9)),
            why(d.set("use.k", "2")),
            why(d.set_value("use.k", &Value::from(2))),
        ];
        assert_eq!(d.source(), src);
        list
    };
    assert_eq!(
        refused,
        vec![
            (Operation::PushBack, Refusal::EmptyCollection),
            (Operation::PushBack, Refusal::NotABlockSequence),
            (Operation::PushBackValue, Refusal::EmptyCollection),
            (Operation::PushBackValue, Refusal::NotABlockSequence),
            (Operation::PushBackValue, Refusal::InsideAnchor(1)),
            (Operation::InsertEntry, Refusal::EmptyCollection),
            (Operation::InsertEntryValue, Refusal::EmptyCollection),
            (Operation::InsertEntryValue, Refusal::InsideAnchor(1)),
            (Operation::InsertEntryValue, Refusal::MergeKeyName),
            (Operation::InsertEntryValue, Refusal::NonPrintable(7)),
            (Operation::InsertAfter, Refusal::NotAnIndex),
            (Operation::InsertAfter, Refusal::NotABlockSequence),
            (Operation::InsertAfterValue, Refusal::NotABlockSequence),
            (Operation::SwapItems, Refusal::IndexOutOfBounds),
            (Operation::MoveItem, Refusal::IndexOutOfBounds),
            (Operation::SetFragment, Refusal::ThroughAlias),
            (Operation::SetValue, Refusal::ThroughAlias),
        ]
    );
}

#[test]
fn written_scalars_are_read_back() {
    let values = [
        Value::Null,
        Value::Bool(true),
        Value::Bool(false),
        Value::from(0),
        Value::from(-12),
        Value::from(i64::MIN),
        Value::from(i64::MAX),
        text("plain"),
        text(""),
        text("null"),
        text("12"),
        text("it's"),
        text("\"quoted\" \\ \t end "),
        text("# no comment"),
        text("a: b"),
        text("\u{e9}\u{1f600}"),
    ];
    for site in ["a: old\nb: 1\n", "a: 'old'\nb: 1\n", "a: \"old\" # c\nb: 1\n", "a: 'o'\nb: 'p'\nc: q\n"] {
        for value in &values {
            let mut d = doc(site);
            fine(d.set_value("a", value));
            assert_eq!(d.as_value().get("a"), Some(value), "{:?}", d.source());
        }
    }
}
