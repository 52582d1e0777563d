//! Reports for terminals: diagnostics handed to the `ariadne` and `miette`
//! crates, which draw them over the source.
use crate::diagnostic::{
    code_text, diagnosis, tags, Diagnostic, DiagnosticCode, DiagnosticLabel, DiagnosticSeverity,
    Finding, SourceSpan, Tag,
};
use crate::error::{Error, Location};
use crate::value::bytes;
use vstd::prelude::*;
use vstd::string::*;
use vstd::utf8::*;

verus! {

/// Where the last character starts that starts at or before `i`.
pub open spec fn floor(s: Seq<u8>, i: int) -> int
    decreases i,
{
    if i <= 0 || is_char_boundary(s, i) {
        i
    } else {
        floor(s, i - 1)
    }
}

/// Where the first character ends that ends at or behind `i`.
pub open spec fn ceiling(s: Seq<u8>, i: int) -> int
    decreases s.len() - i,
{
    if i >= s.len() || is_char_boundary(s, i) {
        i
    } else {
        ceiling(s, i + 1)
    }
}

/// The smaller of two numbers.
pub open spec fn least(a: int, b: int) -> int {
    if a < b {
        a
    } else {
        b
    }
}

/// The bytes of a source that a label on `span` marks: whole characters, at
/// least one of them, and none at the end of the source.
pub open spec fn marked(span: (int, int), s: Seq<u8>) -> (int, int) {
    let start = floor(s, least(span.0, s.len() as int));
    let end = least(span.0 + span.1, s.len() as int);
    if start >= s.len() {
        (start, start)
    } else if end <= start {
        (start, ceiling(s, start + 1))
    } else {
        (start, ceiling(s, end))
    }
}

/// The bytes of a source that a label on `span` marks.
pub fn label_span(span: SourceSpan, source: &str) -> (r: (usize, usize))
    ensures
        (r.0 as int, r.1 as int) == marked(span@, source.spec_bytes()),
        r.0 <= r.1 <= source.spec_bytes().len(),
{
    let ghost s = source.spec_bytes();
    let n: usize = source.as_bytes().len();
    let mut start: usize = if span.offset() < n {
        span.offset()
    } else {
        n
    };
    let ghost from = start as int;
    while start > 0 && !source.is_char_boundary(start)
        invariant
            start <= n == s.len(),
            s == source.spec_bytes(),
            floor(s, start as int) == floor(s, from),
        decreases start,
    {
        start -= 1;
    }
    if start >= n {
        return (start, start);
    }
    let last: usize = if span.end() < n {
        span.end()
    } else {
        n
    };
    let mut end: usize = if last <= start {
        start + 1
    } else {
        last
    };
    let ghost to = end as int;
    while end < n && !source.is_char_boundary(end)
        invariant
            start < end <= n == s.len(),
            s == source.spec_bytes(),
            ceiling(s, end as int) == ceiling(s, to),
        decreases n - end,
    {
        end += 1;
    }
    (start, end)
}

/// The last start of a character is one, and lies where it should.
proof fn floors_are_boundaries(s: Seq<u8>, i: int)
    requires
        valid_utf8(s),
        0 <= i <= s.len(),
    ensures
        0 <= floor(s, i) <= i,
        is_char_boundary(s, floor(s, i)),
    decreases i,
{
    if i > 0 && !is_char_boundary(s, i) {
        floors_are_boundaries(s, i - 1);
    }
}

/// The first end of a character is one, and lies where it should.
proof fn ceilings_are_boundaries(s: Seq<u8>, i: int)
    requires
        valid_utf8(s),
        0 <= i <= s.len(),
    ensures
        i <= ceiling(s, i) <= s.len(),
        is_char_boundary(s, ceiling(s, i)),
    decreases s.len() - i,
{
    is_char_boundary_start_end_of_seq(s);
    if i < s.len() && !is_char_boundary(s, i) {
        ceilings_are_boundaries(s, i + 1);
    }
}

/// Whatever a label is on, it marks whole characters of the source, and at
/// least one unless it marks the end.
pub proof fn labels_mark_whole_characters(span: (int, int), s: Seq<u8>)
    requires
        valid_utf8(s),
        0 <= span.0,
        0 <= span.1,
    ensures
        0 <= marked(span, s).0 <= marked(span, s).1 <= s.len(),
        is_char_boundary(s, marked(span, s).0),
        is_char_boundary(s, marked(span, s).1),
        marked(span, s).0 == marked(span, s).1 ==> marked(span, s).0 == s.len(),
{
    let start = floor(s, least(span.0, s.len() as int));
    let end = least(span.0 + span.1, s.len() as int);
    floors_are_boundaries(s, least(span.0, s.len() as int));
    if start < s.len() {
        if end <= start {
            ceilings_are_boundaries(s, start + 1);
        } else {
            ceilings_are_boundaries(s, end);
        }
    }
}

/// The kinds of reports that `ariadne` tells apart.
#[derive(Clone, Copy, PartialEq, Eq, Structural, Debug)]
pub enum Kind {
    Error,
    Warning,
    Advice,
}

/// The colours of labels.
#[derive(Clone, Copy, PartialEq, Eq, Structural, Debug)]
pub enum Hue {
    Red,
    Yellow,
}

/// A label of a report: the bytes it marks, its text and its colour.
pub struct Mark {
    pub start: usize,
    pub end: usize,
    pub message: String,
    pub hue: Hue,
}

/// The model of a label of a report.
pub struct Spotlight {
    pub start: int,
    pub end: int,
    pub message: Seq<u8>,
    pub hue: Hue,
}

/// The model of a report: its kind, the source it is about and how long that
/// is, its code, message and labels.
pub struct Layout {
    pub kind: Kind,
    pub filename: Seq<u8>,
    pub length: int,
    pub code: Seq<u8>,
    pub message: Seq<u8>,
    pub labels: Seq<Spotlight>,
}

/// A report that `ariadne` can draw.
#[verifier::external_body]
pub struct AriadneReport {
    filename: String,
    report: ariadne::Report<'static, (String, core::ops::Range<usize>)>,
}

/// What an `ariadne` report holds.
pub uninterp spec fn layout(report: AriadneReport) -> Layout;

/// The models of a list of labels.
pub open spec fn spotlights(marks: Seq<Mark>) -> Seq<Spotlight> {
    Seq::new(
        marks.len(),
        |i: int|
            Spotlight {
                start: marks[i].start as int,
                end: marks[i].end as int,
                message: bytes(marks[i].message),
                hue: marks[i].hue,
            },
    )
}

/// `ariadne::Report::build` and the methods of the builder that it returns:
/// the report holds what it is given, the labels in their order. A label
/// whose end is before its start makes `ariadne` panic, and a code of less
/// than two characters would be padded.
#[verifier::external_body]
fn built(kind: Kind, filename: &str, length: usize, code: &str, message: &str, marks: Vec<Mark>) -> (r:
    AriadneReport)
    requires
        code@.len() >= 2,
        forall|i: int| 0 <= i < marks@.len() ==> (#[trigger] marks@[i]).start <= marks@[i].end,
    ensures
        layout(r) == (Layout {
            kind,
            filename: filename.spec_bytes(),
            length: length as int,
            code: code.spec_bytes(),
            message: message.spec_bytes(),
            labels: spotlights(marks@),
        }),
{
    let kind = match kind {
        Kind::Error => ariadne::ReportKind::Error,
        Kind::Warning => ariadne::ReportKind::Warning,
        Kind::Advice => ariadne::ReportKind::Advice,
    };
    let label = |m: Mark| ariadne::Label::new((filename.to_owned(), m.start..m.end))
        .with_message(m.message)
        .with_color(match m.hue { Hue::Red => ariadne::Color::Red, Hue::Yellow => ariadne::Color::Yellow });
    let report = ariadne::Report::build(kind, (filename.to_owned(), 0..length))
        .with_code(code)
        .with_message(message)
        .with_labels(marks.into_iter().map(label))
        .finish();
    AriadneReport { filename: filename.to_owned(), report }
}

/// The kind of report that goes with a severity.
pub open spec fn report_kind(severity: DiagnosticSeverity) -> Kind {
    match severity {
        DiagnosticSeverity::Error => Kind::Error,
        DiagnosticSeverity::Warning => Kind::Warning,
        DiagnosticSeverity::Information => Kind::Advice,
        DiagnosticSeverity::Hint => Kind::Advice,
    }
}

/// The label of a report that a label of a diagnostic becomes.
pub open spec fn spotlight(tag: Tag, s: Seq<u8>) -> Spotlight {
    Spotlight {
        start: marked(tag.span, s).0,
        end: marked(tag.span, s).1,
        message: tag.message,
        hue: if tag.primary {
            Hue::Red
        } else {
            Hue::Yellow
        },
    }
}

/// The report on a diagnostic.
pub open spec fn report_on(finding: Finding, filename: Seq<u8>, s: Seq<u8>) -> Layout {
    Layout {
        kind: report_kind(finding.severity),
        filename,
        length: s.len() as int,
        code: code_text(finding.code).spec_bytes(),
        message: finding.message,
        labels: Seq::new(finding.labels.len(), |i: int| spotlight(finding.labels[i], s)),
    }
}

/// Every code is longer than one character.
proof fn codes_are_long(code: DiagnosticCode)
    ensures
        code_text(code)@.len() >= 2,
{
    reveal_strlit("noyalib::parse");
    reveal_strlit("noyalib::serialize");
    reveal_strlit("noyalib::deserialize");
    reveal_strlit("noyalib::type_mismatch");
    reveal_strlit("noyalib::missing_field");
    reveal_strlit("noyalib::unknown_field");
    reveal_strlit("noyalib::recursion_limit");
    reveal_strlit("noyalib::repetition_limit");
    reveal_strlit("noyalib::budget");
    reveal_strlit("noyalib::unknown_anchor");
    reveal_strlit("noyalib::duplicate_key");
    reveal_strlit("noyalib::key_collision");
    reveal_strlit("noyalib::integer_overflow");
    reveal_strlit("noyalib::non_scalar_key");
    reveal_strlit("noyalib::eof");
    reveal_strlit("noyalib::multi_document");
    reveal_strlit("noyalib::io");
    reveal_strlit("noyalib::error");
}

/// The report on a diagnostic, for the source with the given name. A label
/// that reaches beyond the source is cut to it.
#[must_use]
pub fn diagnostic_to_ariadne_report(diagnostic: &Diagnostic, filename: &str, source: &str) -> (r:
    AriadneReport)
    ensures
        layout(r) == report_on(diagnostic@, filename.spec_bytes(), source.spec_bytes()),
{
    let ghost s = source.spec_bytes();
    let kind: Kind = match diagnostic.severity() {
        DiagnosticSeverity::Error => Kind::Error,
        DiagnosticSeverity::Warning => Kind::Warning,
        DiagnosticSeverity::Information => Kind::Advice,
        DiagnosticSeverity::Hint => Kind::Advice,
    };
    let labels: &[DiagnosticLabel] = diagnostic.labels();
    let mut marks: Vec<Mark> = Vec::new();
    let mut i: usize = 0;
    while i < labels.len()
        invariant
            i <= labels@.len(),
            s == source.spec_bytes(),
            tags(labels@) == diagnostic@.labels,
            marks@.len() == i,
            forall|k: int| 0 <= k < i ==> (#[trigger] marks@[k]).start <= marks@[k].end,
            forall|k: int|
                0 <= k < i ==> #[trigger] spotlights(marks@)[k] == spotlight(
                    diagnostic@.labels[k],
                    s,
                ),
        decreases labels@.len() - i,
    {
        let label: &DiagnosticLabel = &labels[i];
        assert(tags(labels@)[i as int] == label@);
        let (start, end) = label_span(label.span(), source);
        let hue: Hue = if label.is_primary() {
            Hue::Red
        } else {
            Hue::Yellow
        };
        let ghost before = marks@;
        marks.push(Mark { start, end, message: label.message().to_owned(), hue });
        assert forall|k: int| 0 <= k < i + 1 implies #[trigger] spotlights(marks@)[k] == spotlight(
            diagnostic@.labels[k],
            s,
        ) by {
            if k < i {
                assert(spotlights(before)[k] == spotlight(diagnostic@.labels[k], s));
            }
        }
        i += 1;
    }
    proof {
        codes_are_long(diagnostic@.code);
        assert(spotlights(marks@) =~= report_on(diagnostic@, filename.spec_bytes(), s).labels);
    }
    built(
        kind,
        filename,
        source.as_bytes().len(),
        diagnostic.code().as_str(),
        diagnostic.message(),
        marks,
    )
}

/// The report on an error, for the source with the given name. An error
/// without a location gives a report without labels.
#[must_use]
pub fn error_to_ariadne_report(err: &Error, filename: &str, source: &str) -> (r: AriadneReport)
    ensures
        layout(r) == report_on(diagnosis(*err), filename.spec_bytes(), source.spec_bytes()),
{
    diagnostic_to_ariadne_report(&err.diagnostic(), filename, source)
}

/// Whether `part` stands in `s`.
pub open spec fn holds(s: Seq<u8>, part: Seq<u8>) -> bool {
    exists|i: int|
        0 <= i && i + part.len() <= s.len() && #[trigger] s.subrange(i, i + part.len()) == part
}

/// The word for a kind of report.
pub open spec fn kind_text(kind: Kind) -> &'static str {
    match kind {
        Kind::Error => "Error",
        Kind::Warning => "Warning",
        Kind::Advice => "Advice",
    }
}

/// What a drawn report starts with: its code and its kind.
pub open spec fn heading(l: Layout) -> Seq<u8> {
    "[".spec_bytes() + l.code + "] ".spec_bytes() + kind_text(l.kind).spec_bytes()
        + ":".spec_bytes()
}

/// `ariadne::Report::write` on a buffer: what comes out holds the heading and
/// the message of the report as they are. How the lines of the source are drawn
/// with the labels over them takes pages and depends on a switch for colours
/// that the whole process shares; nothing is said of it. A source of a thousand million lines
/// would make `ariadne` overflow.
#[verifier::external_body]
fn written(report: &AriadneReport, source: &str) -> (r: Vec<u8>)
    requires
        source.spec_bytes().len() < 1_000_000_000,
    ensures
        holds(r@, heading(layout(*report))),
        holds(r@, layout(*report).message),
{
    let mut out: Vec<u8> = Vec::new();
    let cache = (report.filename.clone(), ariadne::Source::from(source));
    let _ = report.report.write(cache, &mut out);
    out
}

impl AriadneReport {
    /// The report, drawn over the source for a terminal. What is drawn of the
    /// source depends on a switch for colours that the whole process shares;
    /// the heading and the message do not.
    pub fn write(&self, source: &str) -> (r: Vec<u8>)
        requires
            source.spec_bytes().len() < 1_000_000_000,
        ensures
            holds(r@, heading(layout(*self))),
            holds(r@, layout(*self).message),
    {
        written(self, source)
    }
}

/// A value, and where in a source it starts and ends.
#[derive(Debug, Clone, Copy, PartialEq, Eq)]
pub struct Spanned<T> {
    pub value: T,
    pub start: Location,
    pub end: Location,
}

/// A report of the `miette` crate.
#[verifier::external_type_specification]
#[verifier::external_body]
pub struct ExMietteReport(miette::Report);

/// The texts of a `miette` report: its message, its code and its source.
pub uninterp spec fn report_texts(report: miette::Report) -> Seq<Seq<u8>>;

/// The labels of a `miette` report: the text of each, the byte it starts at
/// and the number of bytes it marks.
pub uninterp spec fn report_labels(report: miette::Report) -> Seq<(Seq<u8>, int, int)>;

/// The models of a list of labels.
pub open spec fn captions(labels: Seq<(String, usize, usize)>) -> Seq<(Seq<u8>, int, int)> {
    Seq::new(
        labels.len(),
        |i: int| (bytes(labels[i].0), labels[i].1 as int, labels[i].2 as int),
    )
}

/// `miette::Report::new` on a `miette::MietteDiagnostic`, and
/// `with_source_code`: the report has the message, the code and the source it
/// is given, and the labels in their order.
#[verifier::external_body]
fn assembled(message: &str, code: &str, labels: Vec<(String, usize, usize)>, source: &str) -> (r:
    miette::Report)
    ensures
        report_texts(r) == seq![message.spec_bytes(), code.spec_bytes(), source.spec_bytes()],
        report_labels(r) == captions(labels@),
{
    let label = |l: (String, usize, usize)| miette::LabeledSpan::new(Some(l.0), l.1, l.2);
    let diagnostic = miette::MietteDiagnostic::new(message)
        .with_code(code)
        .with_labels(labels.into_iter().map(label));
    miette::Report::new(diagnostic).with_source_code(source.to_owned())
}

/// The label on a value. One that takes no bytes is marked as if it took one.
pub open spec fn caption(message: Seq<u8>, start: Location, end: Location) -> (
    Seq<u8>,
    int,
    int,
) {
    (
        message,
        start.index as int,
        if end.index > start.index {
            end.index - start.index
        } else {
            1
        },
    )
}

/// The label on a value.
fn caption_of(message: &str, start: Location, end: Location) -> (r: (String, usize, usize))
    ensures
        (bytes(r.0), r.1 as int, r.2 as int) == caption(message.spec_bytes(), start, end),
{
    let n: usize = if end.index > start.index {
        end.index - start.index
    } else {
        1
    };
    (message.to_owned(), start.index, n)
}

/// A report that points at a value in its source.
pub fn spanned_error<T>(source: &str, span: &Spanned<T>, message: &str) -> (r: miette::Report)
    ensures
        report_texts(r) == seq![
            message.spec_bytes(),
            "noyalib::validation".spec_bytes(),
            source.spec_bytes(),
        ],
        report_labels(r) == seq![caption(message.spec_bytes(), span.start, span.end)],
{
    let mut labels: Vec<(String, usize, usize)> = Vec::new();
    labels.push(caption_of(message, span.start, span.end));
    assert(captions(labels@) =~= seq![caption(message.spec_bytes(), span.start, span.end)]);
    assembled(message, "noyalib::validation", labels, source)
}

/// A report that points at a value in its source, and at another one that
/// gives context.
pub fn spanned_error_with_context<T, U>(
    source: &str,
    primary_span: &Spanned<T>,
    primary_message: &str,
    context_span: &Spanned<U>,
    context_message: &str,
) -> (r: miette::Report)
    ensures
        report_texts(r) == seq![
            primary_message.spec_bytes(),
            "noyalib::validation".spec_bytes(),
            source.spec_bytes(),
        ],
        report_labels(r) == seq![
            caption(primary_message.spec_bytes(), primary_span.start, primary_span.end),
            caption(context_message.spec_bytes(), context_span.start, context_span.end),
        ],
{
    let mut labels: Vec<(String, usize, usize)> = Vec::new();
    labels.push(caption_of(primary_message, primary_span.start, primary_span.end));
    labels.push(caption_of(context_message, context_span.start, context_span.end));
    assert(captions(labels@) =~= seq![
        caption(primary_message.spec_bytes(), primary_span.start, primary_span.end),
        caption(context_message.spec_bytes(), context_span.start, context_span.end),
    ]);
    assembled(primary_message, "noyalib::validation", labels, source)
}

proof fn floors_are_last(s: Seq<u8>, i: int)
    requires
        0 <= i,
    ensures
        0 <= floor(s, i) <= i,
        forall|x: int| floor(s, i) < x <= i ==> !#[trigger] is_char_boundary(s, x),
    decreases i,
{
    if i > 0 && !is_char_boundary(s, i) {
        floors_are_last(s, i - 1);
    }
}

proof fn ceilings_are_first(s: Seq<u8>, i: int)
    requires
        i <= s.len(),
    ensures
        i <= ceiling(s, i) <= s.len(),
        forall|x: int| i <= x < ceiling(s, i) ==> !#[trigger] is_char_boundary(s, x),
    decreases s.len() - i,
{
    if i < s.len() && !is_char_boundary(s, i) {
        ceilings_are_first(s, i + 1);
    }
}

/// A label marks all of the bytes it is on, as far as the source has them, and of
/// the bytes around them only those that complete its first and its last
/// character. One that is on no byte marks the character there.
pub proof fn labels_mark_what_they_are_on(span: (int, int), s: Seq<u8>)
    requires
        0 <= span.0,
        0 <= span.1,
    ensures
        ({
            let (a, b) = marked(span, s);
            &&& a <= span.0
            &&& span.0 + span.1 <= b || b == s.len()
            &&& forall|x: int| a < x <= span.0 && x <= s.len() ==> !#[trigger] is_char_boundary(s, x)
            &&& forall|x: int|
                a < x < b && span.0 + span.1 <= x ==> !#[trigger] is_char_boundary(s, x)
        }),
{
    let n = s.len() as int;
    floors_are_last(s, least(span.0, n));
    let start = floor(s, least(span.0, n));
    let end = least(span.0 + span.1, n);
    if start < n {
        if end <= start {
            ceilings_are_first(s, start + 1);
        } else {
            ceilings_are_first(s, end);
        }
    }
}

} // verus!
