//! Edits of documents in every layout, and what they are read back as.
use noyalib::cst::{parse_document, parse_stream, Document};
use noyalib::{
    from_str, Diagnostic, DiagnosticCode, DiagnosticLabel, DiagnosticSeverity, Error, Operation, Refusal,
    ScalarStyle, SourceSpan, Value,
};

fn doc(src: &str) -> Document {
    parse_document(src).unwrap_or_else(|e| panic!("{src:?}: {}", e.message()))
}

fn text(s: &str) -> Value {
    Value::String(s.to_string())
}

fn fine(r: Result<(), Error>) {
    if let Err(e) = r {
        panic!("{}", e.message());
    }
}

fn why(r: Result<(), Error>) -> (Operation, Refusal) {
    match r {
        Err(Error::Edit(op, why)) => (op, why),
        other => panic!("expected a refusal, got {other:?}"),
    }
}

fn loads_to(d: &Document, src: &str) {
    assert_eq!(d.validate().is_ok(), true, "{:?}", d.source());
    assert_eq!(d.as_value(), doc(src).as_value(), "{:?}", d.source());
}

#[test]
fn a_trailing_colon_is_quoted() {
    let mut d = doc("- x\n");
    fine(d.set_value("[0]", &text("a:")));
    assert_eq!(d.source(), "- \"a:\"\n");
    loads_to(&d, "- \"a:\"\n");
    let mut d = doc("- x\n");
    fine(d.push_back_value("", "a:"));
    loads_to(&d, "- x\n- \"a:\"\n");
    let mut d = doc("k: x\n");
    fine(d.rename_key("k", "a:"));
    loads_to(&d, "\"a:\": x\n");
}

#[test]
fn what_flow_collections_reserve_is_quoted_there() {
    let mut d = doc("s: [x, y]\n");
    fine(d.set_value("s[0]", &text("a, b")));
    loads_to(&d, "s: [\"a, b\", y]\n");
    let mut d = doc("m: {k: v}\n");
    fine(d.set_value("m.k", &text("a]{}")));
    loads_to(&d, "m: {k: \"a]{}\"}\n");
    let mut d = doc("s: [x]\n");
    fine(d.set_value("s[0]", &text("one\ntwo\n")));
    loads_to(&d, "s: [\"one\\ntwo\\n\"]\n");
    let mut d = doc("s: x\n");
    fine(d.set_value("s", &text("a, b")));
    assert_eq!(d.source(), "s: a, b\n");
}

#[test]
fn entries_go_to_the_column_of_their_siblings() {
    let mut d = doc("m:\n  k:\n  - x\n");
    fine(d.insert_entry("m", "z", "1"));
    assert_eq!(d.source(), "m:\n  k:\n  - x\n  z: 1\n");
    let mut d = doc("k:\n- x\n");
    fine(d.insert_entry("", "z", "1"));
    assert_eq!(d.source(), "k:\n- x\nz: 1\n");
    let mut d = doc("- a: 1\n  b:\n    c: 2\n- x\n");
    fine(d.insert_entry("[0]", "z", "1"));
    assert_eq!(d.source(), "- a: 1\n  b:\n    c: 2\n  z: 1\n- x\n");
    let mut d = doc("m:\n  k:\n  - x\n");
    fine(d.insert_entry_value("m", "z", "1"));
    assert_eq!(d.source(), "m:\n  k:\n  - x\n  z: \"1\"\n");
    let mut d = doc("m:\n  \"k\":\n    - x\n");
    fine(d.insert_entry("m", "z", "1"));
    assert_eq!(d.source(), "m:\n  \"k\":\n    - x\n  z: 1\n");
    let mut d = doc("m:\n  a: |+\n    t\n\nn: 1\n");
    fine(d.insert_entry("m", "z", "1"));
    assert_eq!(d.source(), "m:\n  a: |+\n    t\n\n  z: 1\nn: 1\n");
    let mut d = doc("\u{feff}a: 1\n");
    fine(d.insert_entry("", "z", "1"));
    assert_eq!(d.source(), "\u{feff}a: 1\nz: 1\n");
}

#[test]
fn keys_are_looked_up_in_their_mapping() {
    let mut d = doc("a:\n  b: 1\n");
    fine(d.insert_entry("", "a.b", "2"));
    assert_eq!(d.source(), "a:\n  b: 1\na.b: 2\n");
    fine(d.insert_entry("", "z", "3"));
    assert_eq!(d.source(), "a:\n  b: 1\na.b: 2\nz: 3\n");
    fine(d.insert_entry("", "a.b", "4"));
    assert_eq!(d.source(), "a:\n  b: 1\na.b: 4\nz: 3\n");
    fine(d.insert_entry("a", "b", "5"));
    assert_eq!(d.source(), "a:\n  b: 5\na.b: 4\nz: 3\n");
    let mut d = doc("a:\n  b: 1\n");
    fine(d.insert_entry_value("", "a.b", "x"));
    loads_to(&d, "a:\n  b: 1\na.b: x\n");
    let mut d = doc("k[0]: 1\n");
    fine(d.insert_entry("", "z", "2"));
    assert_eq!(d.source(), "k[0]: 1\nz: 2\n");
}

#[test]
fn an_entry_without_a_value_is_filled() {
    let mut d = doc("a:  # note\nb: 1\n");
    fine(d.insert_entry("", "a", "2"));
    assert_eq!(d.source(), "a: 2  # note\nb: 1\n");
    let mut d = doc("m:\n  a:\n  b: 1\n");
    fine(d.insert_entry_value("m", "a", "x"));
    assert_eq!(d.source(), "m:\n  a: x\n  b: 1\n");
    let mut d = doc("m:\n  b: 1\n  a:\n");
    fine(d.insert_entry("m", "z", "2"));
    assert_eq!(d.source(), "m:\n  b: 1\n  a:\n  z: 2\n");
    let mut d = doc("? a\n");
    assert_eq!(why(d.insert_entry("", "a", "1")).1, Refusal::PathNotFound);
    assert_eq!(d.source(), "? a\n");
}

#[test]
fn merged_keys_get_an_entry_of_their_own() {
    let mut d = doc("b: &b\n  x: 1\nm:\n  <<: *b\n  y: 2\n");
    fine(d.insert_entry("m", "x", "3"));
    assert_eq!(d.source(), "b: &b\n  x: 1\nm:\n  <<: *b\n  y: 2\n  x: 3\n");
    let base = "b: &b\n  x: 1\n  w: 2\nm:\n  <<: *b\n  y: 3\n";
    let mut d = doc(base);
    fine(d.insert_entry_value("m", "w", "o"));
    fine(d.insert_entry_value("m", "z", "p"));
    assert_eq!(d.source(), format!("{base}  w: o\n  z: p\n"));
    let keys: Vec<&str> = match d.as_value().get("m") {
        Some(Value::Mapping(m)) => m.entries.iter().map(|e| e.0.as_str()).collect(),
        other => panic!("{other:?}"),
    };
    assert_eq!(keys, ["y", "w", "z", "x"]);
    let mut d = doc("m:\n  a: 1\n");
    fine(d.set("m.a", "&x 1"));
    assert_eq!(d.get("m.a"), Some("&x 1"));
    assert_eq!(d.last_repair_scope(), None);
}

#[test]
fn set_value_inside_an_anchor_changes_what_aliases_refer_to() {
    let mut d = doc("a: &x\n  k: 1\nb: *x\n");
    fine(d.set_value("a.k", &text("v")));
    assert_eq!(d.source(), "a: &x\n  k: v\nb: *x\n");
    loads_to(&d, "a:\n  k: v\nb:\n  k: v\n");
    assert_eq!(why(d.set_value("b.k", &text("w"))), (Operation::SetValue, Refusal::ThroughAlias));
    let mut d = doc("a: &x 1\nb: *x\n");
    assert!(d.set_value("a", &text("v")).is_err());
    assert_eq!(d.source(), "a: &x 1\nb: *x\n");
}

#[test]
fn an_edit_that_declares_an_anchor_records_no_repair() {
    let mut d = doc("a: 1\nb: 2\n");
    fine(d.set("b", "3"));
    assert!(d.last_repair_scope().is_some());
    fine(d.set("a", "&x 1"));
    assert_eq!(d.source(), "a: &x 1\nb: 3\n");
    assert_eq!(d.last_repair_scope(), None);
}

#[test]
fn items_below_their_dash_are_grown_and_removed() {
    let mut d = doc("-\n  a: 1\n");
    fine(d.push_back("", "x"));
    assert_eq!(d.source(), "-\n  a: 1\n- x\n");
    fine(d.push_back_value("", "y"));
    assert_eq!(d.source(), "-\n  a: 1\n- x\n- y\n");
    fine(d.insert_after("[0]", "z"));
    assert_eq!(d.source(), "-\n  a: 1\n- z\n- x\n- y\n");
    fine(d.remove("[0]"));
    assert_eq!(d.source(), "- z\n- x\n- y\n");
    let mut d = doc("s:\n  - x\n  -\n    - y\n");
    fine(d.push_back("s", "z"));
    assert_eq!(d.source(), "s:\n  - x\n  -\n    - y\n  - z\n");
    fine(d.remove("s[1]"));
    assert_eq!(d.source(), "s:\n  - x\n  - z\n");
    let mut d = doc("- - x\n  - y\n- z\n");
    fine(d.push_back("[0]", "w"));
    assert_eq!(d.source(), "- - x\n  - y\n  - w\n- z\n");
}

#[test]
fn items_after_an_empty_one_or_an_alias() {
    let mut d = doc("- x\n-\n");
    fine(d.push_back("", "y"));
    assert_eq!(d.source(), "- x\n-\n- y\n");
    let mut d = doc("- &a x\n- *a\n");
    fine(d.push_back("", "y"));
    assert_eq!(d.source(), "- &a x\n- *a\n- y\n");
    let mut d = doc("s: [x, y]\n");
    assert_eq!(why(d.push_back("s", "z")), (Operation::PushBack, Refusal::NotABlockSequence));
    let mut d = doc("- [x, y]\n");
    assert_eq!(why(d.push_back("[0]", "z")), (Operation::PushBack, Refusal::NotABlockSequence));
    let mut d = doc("k: {a: 1}\n");
    assert_eq!(
        why(d.insert_entry("k", "b", "2")),
        (Operation::InsertEntry, Refusal::NotABlockMapping)
    );
}

#[test]
fn the_first_entry_of_an_item_leaves_its_place_to_the_next() {
    let mut d = doc("- a: 1\n  b: 2\n");
    fine(d.remove("[0].a"));
    assert_eq!(d.source(), "- b: 2\n");
    let mut d = doc("- a: 1  # one\n  b: 2\n  c: 3\n- x\n");
    fine(d.remove("[0].a"));
    loads_to(&d, "- b: 2\n  c: 3\n- x\n");
    let mut d = doc("- a:\n    x: 1\n  b: 2\n");
    fine(d.remove("[0].a"));
    assert_eq!(d.source(), "- b: 2\n");
    let mut d = doc("- a: 1\n  b: 2\n");
    fine(d.remove("[0].b"));
    assert_eq!(d.source(), "- a: 1\n");
    fine(d.remove("[0].a"));
    assert_eq!(d.source(), "- {}\n");
    let mut d = doc("- - x\n  - y\n");
    fine(d.remove("[0][0]"));
    assert_eq!(d.source(), "- - y\n");
}

#[test]
fn keys_of_flow_mappings_have_no_span() {
    let d = doc("m: {a: 1}\nk: 2\n");
    assert_eq!(d.key_span("m.a"), None);
    assert_eq!(d.key_span("k"), Some((10, 11)));
    let d = doc("s: [a: 1]\n? 'x y'\n: 1\n");
    assert_eq!(d.key_span("s[0].a"), None);
    let (a, b) = d.key_span("x y").unwrap();
    assert_eq!(&d.source()[a..b], "'x y'");
    assert_eq!(d.key_span(""), None);
    assert_eq!(d.key_span("s[0]"), None);
}

#[test]
fn renaming_rewrites_the_span_of_the_key() {
    let mut d = doc("é: 1\n'old name' : 2  # note\n? plain\n: 3\n");
    for (path, name, now) in [
        ("old name", "it's", "'it''s'"),
        ("plain", "other", "other"),
        ("é", "a: b", "\"a: b\""),
    ] {
        let (a, b) = d.key_span(path).unwrap();
        let expected = format!("{}{}{}", &d.source()[..a], now, &d.source()[b..]);
        fine(d.rename_key(path, name));
        assert_eq!(d.source(), expected);
        assert!(d.key_span(name).is_some());
    }
    let before = d.to_string();
    fine(d.rename_key("other", "other"));
    assert_eq!(d.source(), before);
    let mut d = doc("m: {'a': 1}\n");
    fine(d.rename_key("m.a", "a"));
    assert_eq!(d.source(), "m: {'a': 1}\n");
    assert_eq!(why(d.rename_key("m.a", "b")).1, Refusal::FlowKey);
}

#[test]
fn get_is_the_text_between_the_ends_of_a_span() {
    let d = doc("é: ü ö  # ñ\nk: 'ß'\ns:\n  - \"日本\"\nm: {a: é, b: 1}\n");
    for path in ["é", "k", "s", "s[0]", "m", "m.a", "m.b"] {
        let (a, b) = d.span_at(path).unwrap();
        assert_eq!(d.get(path), Some(&d.source()[a..b]), "{path}");
    }
    assert_eq!(d.get("é"), Some("ü ö"));
    assert_eq!(d.get("s[0]"), Some("\"日本\""));
    assert_eq!(d.get("m.a"), Some("é"));
    assert_eq!(d.get("missing"), None);
}

#[test]
fn spans_follow_the_typed_value() {
    let d = doc("a: 1\na: 2\n");
    assert_eq!(d.get("a"), Some("2"));
    let d = doc("x: &a [1, 2]\ny: *a\n");
    assert_eq!(d.get("y[1]"), Some("2"));
    let mut d = doc("m:\n  a: 1\n  b: 2\n");
    fine(d.set("m.a", "3"));
    assert_eq!(d.get("m.b"), Some("2"));
    loads_to(&d, "m:\n  a: 3\n  b: 2\n");
}

#[test]
fn the_quote_style_is_that_of_most_values() {
    assert_eq!(doc("a: one\nb: two\nc: 'x'\n").dominant_quote_style(), ScalarStyle::Plain);
    assert_eq!(doc("a: 'one'\nb: 'two'\nc: x\n").dominant_quote_style(), ScalarStyle::SingleQuoted);
    assert_eq!(doc("'a': \"x\"\n'b': 1\n'c': 2\n").dominant_quote_style(), ScalarStyle::Plain);
    assert_eq!(doc("a: \"x\"\nb: 1\n").dominant_quote_style(), ScalarStyle::Plain);
}

#[test]
fn the_primary_label_comes_first() {
    let diag = Diagnostic::new(DiagnosticCode::Parse, DiagnosticSeverity::Error, "m")
        .with_label(DiagnosticLabel::secondary(SourceSpan::new(0, 1), "context"))
        .with_label(DiagnosticLabel::primary(SourceSpan::new(2, 1), "here"))
        .with_label(DiagnosticLabel::secondary(SourceSpan::new(4, 1), "more"))
        .with_label(DiagnosticLabel::primary(SourceSpan::new(6, 1), "and here"));
    let order: Vec<&str> = diag.labels().iter().map(|l| l.message()).collect();
    assert_eq!(order, ["here", "and here", "context", "more"]);
    assert_eq!(diag.primary_label().unwrap().message(), "here");
    let copy = diag.clone();
    assert_eq!(copy.labels().len(), 4);
    assert!(copy.labels()[0].is_primary());
}

#[test]
fn block_text_is_indented_past_what_holds_it() {
    let mut d = doc("b:\n  - x: 1\n    y: 2\n");
    fine(d.set_value("b[0].x", &text("one\ntwo\n")));
    assert_eq!(d.source(), "b:\n  - x: |\n      one\n      two\n    y: 2\n");
    loads_to(&d, "b:\n  - x: \"one\\ntwo\\n\"\n    y: 2\n");
    let mut d = doc("- - y\n  - z\n");
    fine(d.set_value("[0][0]", &text("one\ntwo\n")));
    loads_to(&d, "- - \"one\\ntwo\\n\"\n  - z\n");
    let mut d = doc("a: 1 # note\n");
    fine(d.set_value("a", &text("one\ntwo\n")));
    assert_eq!(d.source(), "a: \"one\\ntwo\\n\" # note\n");
}

#[test]
fn the_last_item_of_an_unindented_sequence_leaves_it_empty() {
    let mut d = doc("k:\n- x\nz: 1\n");
    fine(d.remove("k[0]"));
    loads_to(&d, "k: []\nz: 1\n");
}

#[test]
fn values_behind_an_explicit_key() {
    let d = doc("? a\n: - x\n  - y\n? b\n: k: 1\n  l: 2\n");
    loads_to(&d, "a: [x, y]\nb: {k: 1, l: 2}\n");
    assert_eq!(d.get("a[1]"), Some("y"));
    let mut d = doc("? a\n: - x\n");
    fine(d.push_back("a", "y"));
    assert_eq!(d.source(), "? a\n: - x\n  - y\n");
}

#[test]
fn kept_lines_end_before_the_next_entry() {
    let mut d = doc("a: |+\n  t\n\nb: 1\n");
    assert_eq!(d.as_value().get("a"), Some(&text("t\n\n")));
    fine(d.set("b", "2"));
    assert_eq!(d.source(), "a: |+\n  t\n\nb: 2\n");
}

#[test]
fn only_a_plain_double_less_is_a_merge_key() {
    for (src, keys) in [
        ("base: &base\n  x: 1\nout:\n  <<: *base\n", vec!["x"]),
        ("out:\n  \"<<\": 1\n  x: 1\n", vec!["<<", "x"]),
        ("out:\n  '<<': 1\n  x: 1\n", vec!["<<", "x"]),
        ("k: &k \"<<\"\nout:\n  *k : 1\n  x: 1\n", vec!["<<", "x"]),
        ("k: &k <<\nout:\n  *k : 1\n  x: 1\n", vec!["<<", "x"]),
        ("b: &b {x: 1}\nout: {<<: *b, y: 2}\n", vec!["y", "x"]),
        ("out: {\"<<\": 1}\n", vec!["<<"]),
    ] {
        let v = from_str(src).unwrap_or_else(|e| panic!("{src:?}: {}", e.message()));
        let found: Vec<&str> = match v.get("out") {
            Some(Value::Mapping(m)) => m.entries.iter().map(|e| e.0.as_str()).collect(),
            other => panic!("{src:?}: {other:?}"),
        };
        assert_eq!(found, keys, "{src:?}");
        assert_eq!(doc(src).as_value(), &v);
    }
    let d = doc("b: &b {x: 1}\nout: [<<: *b]\n");
    loads_to(&d, "b: {x: 1}\nout: [{x: 1}]\n");
    assert!(from_str("out: [<<: 1]\n").is_err());
    assert!(from_str("job:\n  <<: 1\n").is_err());
    let mut d = doc("\"<<\": 1\n");
    assert_eq!(d.get("<<"), Some("1"));
    fine(d.rename_key("<<", "new"));
    assert_eq!(d.source(), "\"new\": 1\n");
    assert_eq!(why(d.rename_key("new", "<<")), (Operation::RenameKey, Refusal::MergeKeyName));
    let mut d = doc("- x\n");
    let inner = from_str("\"<<\": v\nk: w\n").unwrap();
    fine(d.push_back_value("", &inner));
    assert_eq!(d.source(), "- x\n- \"<<\": v\n  k: w\n");
    let mut d = doc("s:\n  - [1]\n  - {a: [2]}\n");
    fine(d.push_back_value("s", &inner));
    loads_to(&d, "s: [[1], {a: [2]}, {\"<<\": v, k: w}]\n");
}

#[test]
fn single_quotes_give_way_to_line_breaks() {
    let mut d = doc("a: 'x'\n");
    fine(d.set_value("a", &text("one\n two")));
    assert_eq!(d.as_value().get("a"), Some(&text("one\n two")));
    let mut d = doc("a: 'x'\n");
    fine(d.set_value("a", &text(" one\ntwo")));
    assert_eq!(d.source(), "a: \" one\\ntwo\"\n");
    let mut d = doc("a: 'x'\n");
    fine(d.set_value("a", &text("one\rtwo")));
    assert_eq!(d.source(), "a: \"one\\rtwo\"\n");
    let mut d = doc("a: 'x'\n");
    fine(d.set_value("a", &text("one\ttwo")));
    assert_eq!(d.source(), "a: 'one\ttwo'\n");
    let mut d = doc("s: ['x']\n");
    fine(d.set_value("s[0]", &text("one\ntwo\n")));
    assert_eq!(d.source(), "s: [\"one\\ntwo\\n\"]\n");
    let mut d = doc("a: 'p'\nb: 'q'\nc: x\n");
    fine(d.set_value("c", &text("one\rtwo")));
    assert_eq!(d.source(), "a: 'p'\nb: 'q'\nc: \"one\\rtwo\"\n");
}

#[test]
fn the_sources_of_a_stream_join_to_it() {
    let src = "\u{feff}a: 1\n---\nfoo: 1\n---\nbar: 2\n...\n# end\n";
    let docs = parse_stream(src).unwrap_or_else(|e| panic!("{}", e.message()));
    assert_eq!(docs.len(), 3);
    assert_eq!(docs.iter().map(|d| d.source()).collect::<String>(), src);
    loads_to(&docs[2], "bar: 2\n");
}

#[test]
fn the_indent_unit_is_the_smallest_increase() {
    assert_eq!(doc("a:\n    b:\n      c: 1\nd:\n   e: 1\n").indent_unit(), 2);
    assert_eq!(doc("a:\n   b: 1\n\n# c\nd: 1\n").indent_unit(), 3);
    assert_eq!(doc("a: 1\n").indent_unit(), 2);
}
