//! Reports drawn by other crates.
use noyalib::diagnostic::{spanned_error, spanned_error_with_context};
use noyalib::report::{diagnostic_to_ariadne_report, error_to_ariadne_report, label_span};
use noyalib::{
    from_str, Diagnostic, DiagnosticCode, DiagnosticLabel, DiagnosticSeverity, Error, Location,
    SourceSpan, Spanned,
};

/// The value in a range of bytes.
fn at<T>(source: &str, value: T, start: usize, end: usize) -> Spanned<T> {
    Spanned {
        value,
        start: Location::from_index(source, start),
        end: Location::from_index(source, end),
    }
}

/// A text without the sequences that set colours.
fn plain(bytes: Vec<u8>) -> String {
    let text = String::from_utf8(bytes).unwrap();
    let mut out = String::new();
    let mut skipping = false;
    for c in text.chars() {
        if c == '\u{1b}' {
            skipping = true;
        } else if skipping {
            skipping = c != 'm';
        } else {
            out.push(c);
        }
    }
    out
}

#[test]
fn spanned_error_creates_report() {
    let yaml = "port: 80\n";
    let port = at(yaml, 80u16, 6, 8);
    let report = spanned_error(yaml, &port, "port must be >= 1024");
    let msg = format!("{report}");
    assert!(msg.contains("port must be >= 1024"));
}

#[test]
fn spanned_error_diagnostic_has_labels() {
    let yaml = "value: 42\n";
    let value = at(yaml, 42i32, 7, 9);
    let report = spanned_error(yaml, &value, "too small");

    let diag: &dyn miette::Diagnostic = report.as_ref();
    assert!(diag.labels().is_some());
    assert!(diag.code().is_some());
    assert!(diag.source_code().is_some());
}

#[test]
fn a_spanned_error_marks_its_value() {
    let yaml = "value: 42\n";
    let report = spanned_error(yaml, &at(yaml, 42i32, 7, 9), "too small");
    assert_eq!(report.to_string(), "too small");
    assert_eq!(report.code().unwrap().to_string(), "noyalib::validation");
    let labels: Vec<miette::LabeledSpan> = report.labels().unwrap().collect();
    assert_eq!(labels.len(), 1);
    assert_eq!(labels[0].label(), Some("too small"));
    assert_eq!((labels[0].offset(), labels[0].len()), (7, 2));
    let span: miette::SourceSpan = (0, yaml.len()).into();
    let read = report.source_code().unwrap().read_span(&span, 0, 0).unwrap();
    assert_eq!(read.data(), yaml.as_bytes());
}

#[test]
fn a_value_without_bytes_is_marked_by_one() {
    let yaml = "value:\n";
    let report = spanned_error(yaml, &at(yaml, (), 6, 6), "missing");
    let labels: Vec<miette::LabeledSpan> = report.labels().unwrap().collect();
    assert_eq!((labels[0].offset(), labels[0].len()), (6, 1));
    let report = spanned_error(yaml, &at(yaml, (), 6, 2), "missing");
    let labels: Vec<miette::LabeledSpan> = report.labels().unwrap().collect();
    assert_eq!((labels[0].offset(), labels[0].len()), (6, 1));
}

#[test]
fn context_comes_second() {
    let yaml = "anchor: &a 1\nalias: *a";
    let report = spanned_error_with_context(
        yaml,
        &at(yaml, "a", 20, 22),
        "circular reference",
        &at(yaml, 1u8, 8, 12),
        "defined here",
    );
    assert_eq!(report.to_string(), "circular reference");
    assert_eq!(report.code().unwrap().to_string(), "noyalib::validation");
    let labels: Vec<miette::LabeledSpan> = report.labels().unwrap().collect();
    assert_eq!(labels.len(), 2);
    assert_eq!(labels[0].label(), Some("circular reference"));
    assert_eq!((labels[0].offset(), labels[0].len()), (20, 2));
    assert_eq!(labels[1].label(), Some("defined here"));
    assert_eq!((labels[1].offset(), labels[1].len()), (8, 4));
}

#[test]
fn a_syntax_error_is_drawn_over_its_source() {
    let source = "a: [unclosed";
    let err = from_str(source).unwrap_err();
    let text = plain(error_to_ariadne_report(&err, "input.yaml", source).write(source));
    assert!(text.starts_with("[noyalib::parse] Error:"), "{text}");
    assert!(text.contains(&err.message()), "{text}");
    assert!(text.contains("input.yaml:1:"), "{text}");
    assert!(text.contains("a: [unclosed"), "{text}");
    assert!(text.contains("a flow collection is never closed"), "{text}");
}

#[test]
fn an_error_without_a_place_is_a_heading() {
    let err = Error::Custom("nothing to see".to_owned());
    let text = plain(error_to_ariadne_report(&err, "input.yaml", "a: 1\n").write("a: 1\n"));
    assert_eq!(text.trim_end(), "[noyalib::error] Error: nothing to see");
}

#[test]
fn severities_become_kinds() {
    for (severity, word) in [
        (DiagnosticSeverity::Error, "Error"),
        (DiagnosticSeverity::Warning, "Warning"),
        (DiagnosticSeverity::Information, "Advice"),
        (DiagnosticSeverity::Hint, "Advice"),
    ] {
        let d = Diagnostic::new(DiagnosticCode::Io, severity, "m");
        let text = plain(diagnostic_to_ariadne_report(&d, "f", "").write(""));
        assert_eq!(text.trim_end(), format!("[noyalib::io] {word}: m"));
    }
}

#[test]
fn primary_labels_are_red_and_others_yellow() {
    // the heading of a warning is yellow, that of an error red
    let source = "one\n";
    let primary = DiagnosticLabel::primary(SourceSpan::new(0, 3), "here");
    let d = Diagnostic::new(DiagnosticCode::Parse, DiagnosticSeverity::Warning, "m");
    let r = diagnostic_to_ariadne_report(&d.with_label(primary), "f", source);
    let text = String::from_utf8(r.write(source)).unwrap();
    assert!(text.contains("\u{1b}[31m"), "{text}");
    let secondary = DiagnosticLabel::secondary(SourceSpan::new(0, 3), "there");
    let d = Diagnostic::new(DiagnosticCode::Parse, DiagnosticSeverity::Error, "m");
    let r = diagnostic_to_ariadne_report(&d.with_label(secondary), "f", source);
    let text = String::from_utf8(r.write(source)).unwrap();
    assert!(text.contains("\u{1b}[33m"), "{text}");
}

#[test]
fn labels_are_cut_to_the_source_and_widened_to_characters() {
    let s = "a\u{e9}b";
    assert_eq!(label_span(SourceSpan::new(0, 1), s), (0, 1));
    assert_eq!(label_span(SourceSpan::new(1, 1), s), (1, 3));
    assert_eq!(label_span(SourceSpan::new(2, 1), s), (1, 3));
    assert_eq!(label_span(SourceSpan::new(2, 0), s), (1, 3));
    assert_eq!(label_span(SourceSpan::new(3, 9), s), (3, 4));
    assert_eq!(label_span(SourceSpan::new(0, 0), s), (0, 1));
    assert_eq!(label_span(SourceSpan::new(4, 1), s), (4, 4));
    assert_eq!(label_span(SourceSpan::new(usize::MAX, usize::MAX), s), (4, 4));
    assert_eq!(label_span(SourceSpan::new(0, usize::MAX), s), (0, 4));
    assert_eq!(label_span(SourceSpan::new(0, 1), ""), (0, 0));
}

#[test]
fn a_report_can_be_drawn_for_every_place() {
    let sources = [
        "", "\n", "a", "a\n", "a\nb", "\r\n", "a\r\nb\r\n", "\u{e9}", "\u{e9}\u{1f600}\n\u{e9}",
        "\ta\n\n\n", "a\u{2028}b\u{85}c", "\u{200b}\u{301}", "one\ntwo\nthree\nfour\nfive\nsix\n",
    ];
    for source in sources {
        for offset in 0..source.len() + 3 {
            for length in 0..source.len() + 3 {
                let d = Diagnostic::new(DiagnosticCode::Parse, DiagnosticSeverity::Error, "m")
                    .with_label(DiagnosticLabel::primary(SourceSpan::new(offset, length), "x"))
                    .with_label(DiagnosticLabel::secondary(SourceSpan::new(length, offset), "y\nz"));
                let text = plain(diagnostic_to_ariadne_report(&d, "f", source).write(source));
                assert!(text.starts_with("[noyalib::parse] Error: m\n"), "{text}");
            }
        }
    }
}
