//! Documents keep the limits they were parsed under.
use noyalib::ParserConfig;
use noyalib::cst::{parse_document, parse_document_with_config, parse_stream_with_config};

/// `anchors` default blocks, merged into
/// `aliases` tenant entries round-robin.
fn tenants_file(anchors: usize, aliases: usize) -> String {
    let mut s = String::from("defaults:\n");
    for i in 0..anchors {
        s.push_str(&format!("  d{i}: &a{i}\n    k: v{i}\n"));
    }
    s.push_str("tenants:\n");
    for i in 0..aliases {
        s.push_str(&format!("  t{i}:\n    <<: *a{}\n", i % anchors));
    }
    s
}

#[test]
fn ratio_tripping_values_file_gets_its_lossless_path_back() {
    // 221 aliases over 22 anchors is 10.05 — just past the default
    // heuristic. The defaults must keep refusing it, unchanged.
    let src = tenants_file(22, 221);
    let err = parse_document(&src).expect_err("defaults must still trip the ratio");
    assert!(
        err.message().contains("alias_anchor_ratio"),
        "expected the ratio heuristic, got: {}",
        err.message()
    );

    let cfg = ParserConfig::new().alias_anchor_ratio(None);
    let doc = parse_document_with_config(&src, &cfg).expect("relaxed config must open it");
    assert_eq!(doc.to_string(), src, "byte-preserving read");
}

#[test]
fn relaxed_document_survives_edit_then_read() {
    // A read after an edit parses again.
    let src = tenants_file(22, 221);
    let cfg = ParserConfig::new().alias_anchor_ratio(None);
    let mut doc = parse_document_with_config(&src, &cfg).unwrap();

    doc.set("defaults.d0.k", "edited").expect("edit must apply");
    let v = doc.as_value();
    assert_eq!(
        v.get("defaults").unwrap().get("d0").unwrap().get("k").unwrap().as_str(),
        Some("edited"),
        "read after edit re-parses under the document's own config"
    );
    doc.validate().expect("validate honors the config too");
}

#[test]
fn stream_documents_keep_the_config() {
    let one = tenants_file(22, 221);
    let src = format!("---\n{one}---\n{one}");
    let cfg = ParserConfig::new().alias_anchor_ratio(None);
    let docs = parse_stream_with_config(&src, &cfg).expect("stream under relaxed config");
    assert_eq!(docs.len(), 2);
    for mut doc in docs {
        doc.set("defaults.d1.k", "x").expect("edit");
        let _ = doc.as_value(); // must not panic
    }
}

#[test]
fn disabling_the_ratio_does_not_disable_amplification_budgets() {
    // With the ratio off, the
    // absolute `max_alias_expansions` budget (default 1024) still
    // refuses 1025 merges.
    let src = tenants_file(22, 1025);
    let cfg = ParserConfig::new().alias_anchor_ratio(None);
    let err = parse_document_with_config(&src, &cfg)
        .expect_err("1025 alias expansions must exceed the absolute budget");
    assert!(
        err.message().contains("alias") || err.message().contains("expansion"),
        "expected the expansion budget, got: {}",
        err.message()
    );
}

#[test]
fn default_entry_points_are_unchanged() {
    // 220 aliases over 22 anchors is exactly 10.0 — not past the
    // strict `>` comparison — and must keep parsing on defaults.
    let src = tenants_file(22, 220);
    let doc = parse_document(&src).expect("at-threshold file parses on defaults");
    assert_eq!(doc.to_string(), src);
}
