//! Structured diagnostics: what went wrong, where, and what to do about it,
//! independent of how it is rendered.
use crate::error::{error_message, fault_text, Error};
use crate::syntax::Fault;
use crate::text::{append_all, string_of};
use crate::value::bytes;
pub use crate::report::{spanned_error, spanned_error_with_context};
use vstd::prelude::*;
use vstd::string::*;
use vstd::utf8::*;

verus! {

/// Stable code of a diagnostic, independent of its wording.
#[derive(Debug, Clone, Copy, PartialEq, Eq, Structural, Hash)]
#[non_exhaustive]
pub enum DiagnosticCode {
    /// The text is not a document, or an edit of it was refused.
    Parse,
    /// A value could not be written.
    Serialize,
    /// A text could not be read into the type that was asked for.
    Deserialize,
    /// A value has another type than the one that was asked for.
    TypeMismatch,
    /// A required field is not there.
    MissingField,
    /// A field is there that was not declared.
    UnknownField,
    /// Collections are nested deeper than the limit.
    RecursionLimit,
    /// Aliases are expanded more often than the limit.
    RepetitionLimit,
    /// Some other limit was exceeded.
    Budget,
    /// An alias refers to an anchor that is not there.
    UnknownAnchor,
    /// A mapping has a key twice.
    DuplicateKey,
    /// Two keys became one string.
    KeyCollision,
    /// An integer is too large.
    IntegerOverflow,
    /// A key is not a scalar.
    NonScalarKey,
    /// The text ended too early.
    EndOfStream,
    /// There is more than one document.
    MoreThanOneDocument,
    /// Reading or writing failed.
    Io,
    /// Anything else.
    Other,
}

/// The spelling of a code.
pub open spec fn code_text(code: DiagnosticCode) -> &'static str {
    match code {
        DiagnosticCode::Parse => "noyalib::parse",
        DiagnosticCode::Serialize => "noyalib::serialize",
        DiagnosticCode::Deserialize => "noyalib::deserialize",
        DiagnosticCode::TypeMismatch => "noyalib::type_mismatch",
        DiagnosticCode::MissingField => "noyalib::missing_field",
        DiagnosticCode::UnknownField => "noyalib::unknown_field",
        DiagnosticCode::RecursionLimit => "noyalib::recursion_limit",
        DiagnosticCode::RepetitionLimit => "noyalib::repetition_limit",
        DiagnosticCode::Budget => "noyalib::budget",
        DiagnosticCode::UnknownAnchor => "noyalib::unknown_anchor",
        DiagnosticCode::DuplicateKey => "noyalib::duplicate_key",
        DiagnosticCode::KeyCollision => "noyalib::key_collision",
        DiagnosticCode::IntegerOverflow => "noyalib::integer_overflow",
        DiagnosticCode::NonScalarKey => "noyalib::non_scalar_key",
        DiagnosticCode::EndOfStream => "noyalib::eof",
        DiagnosticCode::MoreThanOneDocument => "noyalib::multi_document",
        DiagnosticCode::Io => "noyalib::io",
        DiagnosticCode::Other => "noyalib::error",
    }
}

impl DiagnosticCode {
    /// The spelling of the code, the same in every version.
    #[must_use]
    pub fn as_str(self) -> (r: &'static str)
        ensures
            r == code_text(self),
    {
        match self {
            DiagnosticCode::Parse => "noyalib::parse",
            DiagnosticCode::Serialize => "noyalib::serialize",
            DiagnosticCode::Deserialize => "noyalib::deserialize",
            DiagnosticCode::TypeMismatch => "noyalib::type_mismatch",
            DiagnosticCode::MissingField => "noyalib::missing_field",
            DiagnosticCode::UnknownField => "noyalib::unknown_field",
            DiagnosticCode::RecursionLimit => "noyalib::recursion_limit",
            DiagnosticCode::RepetitionLimit => "noyalib::repetition_limit",
            DiagnosticCode::Budget => "noyalib::budget",
            DiagnosticCode::UnknownAnchor => "noyalib::unknown_anchor",
            DiagnosticCode::DuplicateKey => "noyalib::duplicate_key",
            DiagnosticCode::KeyCollision => "noyalib::key_collision",
            DiagnosticCode::IntegerOverflow => "noyalib::integer_overflow",
            DiagnosticCode::NonScalarKey => "noyalib::non_scalar_key",
            DiagnosticCode::EndOfStream => "noyalib::eof",
            DiagnosticCode::MoreThanOneDocument => "noyalib::multi_document",
            DiagnosticCode::Io => "noyalib::io",
            DiagnosticCode::Other => "noyalib::error",
        }
    }
}

/// How serious a diagnostic is.
#[derive(Debug, Clone, Copy, PartialEq, Eq, Structural, Hash)]
#[non_exhaustive]
pub enum DiagnosticSeverity {
    /// The value in question cannot be processed.
    Error,
    /// It was processed, but is risky or discouraged.
    Warning,
    /// Nothing needs to be done.
    Information,
    /// A suggestion.
    Hint,
}

/// A range of bytes of a source.
#[derive(Debug, Clone, Copy, PartialEq, Eq, Structural, Hash)]
pub struct SourceSpan {
    offset: usize,
    length: usize,
}

impl View for SourceSpan {
    type V = (int, int);

    closed spec fn view(&self) -> (int, int) {
        (self.offset as int, self.length as int)
    }
}

impl SourceSpan {
    /// The range of `length` bytes from `offset` on.
    #[must_use]
    pub fn new(offset: usize, length: usize) -> (r: SourceSpan)
        ensures
            r@ == (offset as int, length as int),
    {
        SourceSpan { offset, length }
    }

    /// Where the range starts.
    #[must_use]
    pub fn offset(self) -> (r: usize)
        ensures
            r == self@.0,
    {
        self.offset
    }

    /// How many bytes it holds.
    #[must_use]
    pub fn length(self) -> (r: usize)
        ensures
            r == self@.1,
    {
        self.length
    }

    /// Where it ends, or the largest offset there is.
    #[must_use]
    pub fn end(self) -> (r: usize)
        ensures
            r == if self@.0 + self@.1 <= usize::MAX {
                self@.0 + self@.1
            } else {
                usize::MAX as int
            },
    {
        match self.offset.checked_add(self.length) {
            Some(end) => end,
            None => usize::MAX,
        }
    }
}

/// The model of a label: its range, its text, and whether it is the primary
/// one.
pub struct Tag {
    pub span: (int, int),
    pub message: Seq<u8>,
    pub primary: bool,
}

/// A text attached to a range of the source.
#[derive(Debug, PartialEq, Eq)]
pub struct DiagnosticLabel {
    span: SourceSpan,
    message: String,
    primary: bool,
}

impl View for DiagnosticLabel {
    type V = Tag;

    closed spec fn view(&self) -> Tag {
        Tag { span: self.span@, message: bytes(self.message), primary: self.primary }
    }
}

impl Clone for DiagnosticLabel {
    fn clone(&self) -> (r: Self)
        ensures
            r@ == self@,
    {
        DiagnosticLabel { span: self.span, message: self.message.clone(), primary: self.primary }
    }
}

impl DiagnosticLabel {
    /// The label that says what is wrong.
    #[must_use]
    pub fn primary(span: SourceSpan, message: &str) -> (r: DiagnosticLabel)
        ensures
            r@ == (Tag { span: span@, message: message.spec_bytes(), primary: true }),
    {
        DiagnosticLabel { span, message: message.to_owned(), primary: true }
    }

    /// A label that gives context.
    #[must_use]
    pub fn secondary(span: SourceSpan, message: &str) -> (r: DiagnosticLabel)
        ensures
            r@ == (Tag { span: span@, message: message.spec_bytes(), primary: false }),
    {
        DiagnosticLabel { span, message: message.to_owned(), primary: false }
    }

    /// The range.
    #[must_use]
    pub fn span(&self) -> (r: SourceSpan)
        ensures
            r@ == self@.span,
    {
        self.span
    }

    /// The text.
    #[must_use]
    pub fn message(&self) -> (r: &str)
        ensures
            r.spec_bytes() == self@.message,
    {
        self.message.as_str()
    }

    /// Whether the label says what is wrong.
    #[must_use]
    pub fn is_primary(&self) -> (r: bool)
        ensures
            r == self@.primary,
    {
        self.primary
    }
}

/// The model of a diagnostic.
pub struct Finding {
    pub code: DiagnosticCode,
    pub severity: DiagnosticSeverity,
    pub message: Seq<u8>,
    pub help: Option<Seq<u8>>,
    pub labels: Seq<Tag>,
}

/// A diagnostic.
#[derive(Debug, PartialEq, Eq)]
pub struct Diagnostic {
    code: DiagnosticCode,
    severity: DiagnosticSeverity,
    message: String,
    help: Option<String>,
    labels: Vec<DiagnosticLabel>,
}

/// The models of a list of labels.
pub open spec fn tags(labels: Seq<DiagnosticLabel>) -> Seq<Tag> {
    Seq::new(labels.len(), |i: int| labels[i]@)
}

impl View for Diagnostic {
    type V = Finding;

    closed spec fn view(&self) -> Finding {
        Finding {
            code: self.code,
            severity: self.severity,
            message: bytes(self.message),
            help: match self.help {
                Some(h) => Some(bytes(h)),
                None => None,
            },
            labels: tags(self.labels@),
        }
    }
}

/// Index of the first label at or behind `i` that is not primary, or the end.
pub open spec fn first_secondary(labels: Seq<Tag>, i: int) -> int
    decreases labels.len() - i,
{
    if 0 <= i < labels.len() && labels[i].primary {
        first_secondary(labels, i + 1)
    } else {
        i
    }
}

/// Labels with one more: a primary one before the first secondary one, any
/// other at the end.
pub open spec fn with_tag(labels: Seq<Tag>, tag: Tag) -> Seq<Tag> {
    if tag.primary {
        labels.insert(first_secondary(labels, 0), tag)
    } else {
        labels.push(tag)
    }
}

/// Whether every primary label stands before every other one.
pub open spec fn primary_first(labels: Seq<Tag>) -> bool {
    forall|i: int, j: int|
        0 <= i < j < labels.len() && (#[trigger] labels[j]).primary ==> (#[trigger] labels[i]).primary
}

/// The first label that is not primary is found, and those before it are.
proof fn first_secondary_is_first(labels: Seq<Tag>, i: int)
    requires
        0 <= i <= labels.len(),
    ensures
        i <= first_secondary(labels, i) <= labels.len(),
        forall|k: int| i <= k < first_secondary(labels, i) ==> (#[trigger] labels[k]).primary,
        first_secondary(labels, i) < labels.len() ==> !labels[first_secondary(labels, i)].primary,
    decreases labels.len() - i,
{
    if i < labels.len() && labels[i].primary {
        first_secondary_is_first(labels, i + 1);
    }
}

/// Adding a label keeps the primary ones in front.
pub proof fn labels_stay_primary_first(labels: Seq<Tag>, tag: Tag)
    requires
        primary_first(labels),
    ensures
        primary_first(with_tag(labels, tag)),
        with_tag(labels, tag).len() == labels.len() + 1,
{
    first_secondary_is_first(labels, 0);
    let m = first_secondary(labels, 0);
    let new = with_tag(labels, tag);
    if tag.primary {
        assert forall|i: int, j: int|
            0 <= i < j < new.len() && (#[trigger] new[j]).primary implies (#[trigger] new[i]).primary by {
            if j > m {
                assert(new[j] == labels[j - 1]);
                assert(labels[m].primary);
            } else if i < m {
                assert(new[i] == labels[i]);
            }
        }
    }
}

impl Clone for Diagnostic {
    fn clone(&self) -> (r: Self)
        ensures
            r@ == self@,
    {
        proof {
            use_type_invariant(self);
        }
        let mut labels: Vec<DiagnosticLabel> = Vec::new();
        let mut i: usize = 0;
        while i < self.labels.len()
            invariant
                i <= self.labels@.len(),
                tags(labels@) =~= tags(self.labels@).subrange(0, i as int),
            decreases self.labels@.len() - i,
        {
            let copy: DiagnosticLabel = self.labels[i].clone();
            let ghost before = labels@;
            labels.push(copy);
            assert(tags(labels@) =~= tags(before).push(tags(self.labels@)[i as int]));
            i += 1;
        }
        assert(tags(labels@) =~= tags(self.labels@));
        let help: Option<String> = match &self.help {
            Some(h) => Some(h.clone()),
            None => None,
        };
        Diagnostic {
            code: self.code,
            severity: self.severity,
            message: self.message.clone(),
            help,
            labels,
        }
    }
}

impl Diagnostic {
    #[verifier::type_invariant]
    spec fn inv(self) -> bool {
        primary_first(tags(self.labels@))
    }

    /// A diagnostic without help and labels.
    #[must_use]
    pub fn new(code: DiagnosticCode, severity: DiagnosticSeverity, message: &str) -> (r: Diagnostic)
        ensures
            r@ == (Finding {
                code,
                severity,
                message: message.spec_bytes(),
                help: None,
                labels: Seq::empty(),
            }),
    {
        let r: Diagnostic = Diagnostic {
            code,
            severity,
            message: message.to_owned(),
            help: None,
            labels: Vec::new(),
        };
        assert(r@.labels =~= Seq::empty());
        r
    }

    /// The same diagnostic with a help text.
    #[must_use]
    pub fn with_help(self, help: &str) -> (r: Diagnostic)
        ensures
            r@ == (Finding { help: Some(help.spec_bytes()), ..self@ }),
    {
        proof {
            use_type_invariant(&self);
        }
        Diagnostic { help: Some(help.to_owned()), ..self }
    }

    /// The same diagnostic with one more label. A primary label goes behind the
    /// primary ones that are there and before the others, a secondary one to
    /// the end.
    #[must_use]
    pub fn with_label(self, label: DiagnosticLabel) -> (r: Diagnostic)
        ensures
            r@ == (Finding { labels: with_tag(self@.labels, label@), ..self@ }),
    {
        proof {
            use_type_invariant(&self);
            labels_stay_primary_first(self@.labels, label@);
        }
        let ghost before = self@;
        let mut labels: Vec<DiagnosticLabel> = self.labels;
        let mut i: usize = 0;
        if label.primary {
            while i < labels.len() && labels[i].primary
                invariant
                    i <= labels@.len(),
                    tags(labels@) == before.labels,
                    first_secondary(before.labels, i as int) == first_secondary(before.labels, 0),
                decreases labels@.len() - i,
            {
                assert(before.labels[i as int] == labels@[i as int]@);
                i += 1;
            }
            assert(i < labels@.len() ==> before.labels[i as int] == labels@[i as int]@);
        } else {
            i = labels.len();
        }
        labels.insert(i, label);
        assert(tags(labels@) =~= with_tag(before.labels, label@));
        Diagnostic {
            code: self.code,
            severity: self.severity,
            message: self.message,
            help: self.help,
            labels,
        }
    }

    /// The code.
    #[must_use]
    pub fn code(&self) -> (r: DiagnosticCode)
        ensures
            r == self@.code,
    {
        self.code
    }

    /// The severity.
    #[must_use]
    pub fn severity(&self) -> (r: DiagnosticSeverity)
        ensures
            r == self@.severity,
    {
        self.severity
    }

    /// The message.
    #[must_use]
    pub fn message(&self) -> (r: &str)
        ensures
            r.spec_bytes() == self@.message,
    {
        self.message.as_str()
    }

    /// The help text.
    #[must_use]
    pub fn help(&self) -> (r: Option<&str>)
        ensures
            match self@.help {
                Some(h) => r is Some && r->0.spec_bytes() == h,
                None => r is None,
            },
    {
        match &self.help {
            Some(h) => Some(h.as_str()),
            None => None,
        }
    }

    /// The labels, primary ones first, otherwise in the order they were added.
    #[must_use]
    pub fn labels(&self) -> (r: &[DiagnosticLabel])
        ensures
            tags(r@) == self@.labels,
            primary_first(self@.labels),
    {
        proof {
            use_type_invariant(self);
        }
        self.labels.as_slice()
    }

    /// The first primary label, if there is one.
    #[must_use]
    pub fn primary_label(&self) -> (r: Option<&DiagnosticLabel>)
        ensures
            match r {
                Some(label) => exists|i: int|
                    0 <= i < self@.labels.len() && label@ == #[trigger] self@.labels[i]
                        && self@.labels[i].primary && forall|j: int|
                        0 <= j < i ==> !(#[trigger] self@.labels[j]).primary,
                None => forall|j: int|
                    0 <= j < self@.labels.len() ==> !(#[trigger] self@.labels[j]).primary,
            },
    {
        let mut i: usize = 0;
        while i < self.labels.len()
            invariant
                i <= self.labels@.len(),
                self@.labels == tags(self.labels@),
                forall|j: int| 0 <= j < i ==> !(#[trigger] self@.labels[j]).primary,
            decreases self.labels@.len() - i,
        {
            assert(self@.labels[i as int] == self.labels@[i as int]@);
            if self.labels[i].primary {
                return Some(&self.labels[i]);
            }
            i += 1;
        }
        None
    }
}

/// The code that goes with a fault.
pub open spec fn fault_code(fault: Fault) -> DiagnosticCode {
    match fault {
        Fault::TooDeep => DiagnosticCode::RecursionLimit,
        Fault::UnknownAnchor => DiagnosticCode::UnknownAnchor,
        Fault::TooManyAliases => DiagnosticCode::RepetitionLimit,
        Fault::AliasRatio => DiagnosticCode::Budget,
        _ => DiagnosticCode::Parse,
    }
}

/// The label on the single byte at `offset`.
pub open spec fn mark(offset: usize, message: Seq<u8>, primary: bool) -> Tag {
    Tag { span: (offset as int, 1), message, primary }
}

/// What the label on the anchor that was perhaps meant says.
pub open spec fn suggestion_text(name: Seq<u8>) -> Seq<u8> {
    "did you mean &".spec_bytes() + name + "?".spec_bytes()
}

/// The diagnostic of an error.
pub open spec fn diagnosis(e: Error) -> Finding {
    let plain = Finding {
        code: DiagnosticCode::Parse,
        severity: DiagnosticSeverity::Error,
        message: error_message(e),
        help: None,
        labels: Seq::empty(),
    };
    match e {
        Error::Syntax(flaw) => Finding {
            code: fault_code(flaw.fault),
            labels: seq![mark(flaw.at, fault_text(flaw.fault).spec_bytes(), true)],
            ..plain
        },
        Error::Edit(_, _) => plain,
        Error::UnknownAnchorAt { name, location, suggestion } => Finding {
            code: DiagnosticCode::UnknownAnchor,
            help: Some("define the anchor before its first alias".spec_bytes()),
            labels: match suggestion {
                Some((other, there)) => seq![
                    mark(location.index, "unknown anchor".spec_bytes(), true),
                    mark(there.index, suggestion_text(bytes(other)), false),
                ],
                None => seq![mark(location.index, "unknown anchor".spec_bytes(), true)],
            },
            ..plain
        },
        Error::DuplicateKeyAt { key, path, location } => Finding {
            code: DiagnosticCode::DuplicateKey,
            help: Some("remove or rename one of the entries".spec_bytes()),
            labels: seq![mark(location.index, "duplicate key".spec_bytes(), true)],
            ..plain
        },
        Error::Custom(_) => Finding { code: DiagnosticCode::Other, ..plain },
    }
}

/// The code that goes with a fault.
fn code_of(fault: Fault) -> (r: DiagnosticCode)
    ensures
        r == fault_code(fault),
{
    match fault {
        Fault::TooDeep => DiagnosticCode::RecursionLimit,
        Fault::UnknownAnchor => DiagnosticCode::UnknownAnchor,
        Fault::TooManyAliases => DiagnosticCode::RepetitionLimit,
        Fault::AliasRatio => DiagnosticCode::Budget,
        _ => DiagnosticCode::Parse,
    }
}

/// What the label on the anchor that was perhaps meant says.
fn suggestion_of(name: &String) -> (r: String)
    ensures
        bytes(r) == suggestion_text(bytes(*name)),
{
    let mut out: Vec<u8> = Vec::new();
    append_all(&mut out, "did you mean &".as_bytes());
    append_all(&mut out, name.as_str().as_bytes());
    append_all(&mut out, "?".as_bytes());
    proof {
        broadcast use encode_utf8_valid_utf8;

        let a = "did you mean &".spec_bytes();
        valid_utf8_concat(a, bytes(*name));
        valid_utf8_concat(a + bytes(*name), "?".spec_bytes());
    }
    string_of(out)
}

impl Error {
    /// The diagnostic of the error. An error without a location has no
    /// labels.
    #[must_use]
    pub fn diagnostic(&self) -> (r: Diagnostic)
        ensures
            r@ == diagnosis(*self),
    {
        let severity: DiagnosticSeverity = DiagnosticSeverity::Error;
        let message: String = self.message();
        let text: &str = message.as_str();
        let r: Diagnostic = match self {
            Error::Syntax(flaw) => Diagnostic::new(
                code_of(flaw.fault),
                severity,
                text,
            ).with_label(
                DiagnosticLabel::primary(SourceSpan::new(flaw.at, 1), flaw.fault.describe()),
            ),
            Error::Edit(_, _) => Diagnostic::new(DiagnosticCode::Parse, severity, text),
            Error::UnknownAnchorAt { location, suggestion, .. } => {
                let d: Diagnostic = Diagnostic::new(
                    DiagnosticCode::UnknownAnchor,
                    severity,
                    text,
                ).with_help("define the anchor before its first alias").with_label(
                    DiagnosticLabel::primary(SourceSpan::new(location.index, 1), "unknown anchor"),
                );
                match suggestion {
                    Some((other, there)) => d.with_label(
                        DiagnosticLabel::secondary(
                            SourceSpan::new(there.index, 1),
                            suggestion_of(other).as_str(),
                        ),
                    ),
                    None => d,
                }
            },
            Error::DuplicateKeyAt { location, .. } => Diagnostic::new(
                DiagnosticCode::DuplicateKey,
                severity,
                text,
            ).with_help("remove or rename one of the entries").with_label(
                DiagnosticLabel::primary(SourceSpan::new(location.index, 1), "duplicate key"),
            ),
            Error::Custom(_) => Diagnostic::new(DiagnosticCode::Other, severity, text),
        };
        proof {
            reveal_with_fuel(first_secondary, 2);
            assert(r@.labels =~= diagnosis(*self).labels);
        }
        r
    }
}

proof fn secondaries_follow(labels: Seq<Tag>, i: int)
    requires
        0 <= i <= labels.len(),
        primary_first(labels),
    ensures
        i <= first_secondary(labels, i) <= labels.len(),
        forall|k: int| i <= k < first_secondary(labels, i) ==> (#[trigger] labels[k]).primary,
        forall|k: int|
            first_secondary(labels, i) <= k < labels.len() ==> !(#[trigger] labels[k]).primary,
    decreases labels.len() - i,
{
    if i < labels.len() && labels[i].primary {
        secondaries_follow(labels, i + 1);
    }
}

/// A label that is added comes behind all labels of its own sort, and the others
/// keep their order.
pub proof fn labels_keep_their_order(labels: Seq<Tag>, tag: Tag)
    requires
        primary_first(labels),
    ensures
        exists|k: int|
            0 <= k <= labels.len() && with_tag(labels, tag) == #[trigger] labels.insert(k, tag)
                && forall|i: int|
                k <= i < labels.len() ==> (#[trigger] labels[i]).primary != tag.primary,
{
    if tag.primary {
        secondaries_follow(labels, 0);
        let k = first_secondary(labels, 0);
        assert(with_tag(labels, tag) == labels.insert(k, tag));
    } else {
        let k = labels.len() as int;
        assert(labels.push(tag) =~= labels.insert(k, tag));
    }
}

} // verus!
