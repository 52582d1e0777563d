//! Errors.
use crate::lines::{line_start, start_of_line};
use crate::path::{decimal, decimals_are_digits, push_decimal};
use crate::syntax::{Fault, Flaw};
use crate::text::{append_all, ascii_is_text, string_of, NL};
use crate::value::bytes;
use vstd::prelude::*;
use vstd::string::*;
use vstd::utf8::*;

verus! {

/// The edit that was refused.
#[derive(Clone, Copy, PartialEq, Eq, Structural, Debug)]
pub enum Operation {
    ReplaceSpan,
    SetFragment,
    SetValue,
    Remove,
    RenameKey,
    SwapItems,
    MoveItem,
    PushBack,
    InsertEntry,
    InsertAfter,
    InsertEntryValue,
    PushBackValue,
    InsertAfterValue,
}

/// Why an edit was refused. A refused edit leaves the document as it was.
#[derive(Clone, Copy, PartialEq, Eq, Structural, Debug)]
pub enum Refusal {
    /// The byte range lies outside the source.
    OutOfBounds,
    /// The byte range does not start and end at a character.
    NotABoundary,
    /// The document does not parse, so no path can be resolved.
    DoesNotParse,
    /// The path leads to nothing.
    PathNotFound,
    /// A mapping on the path lacks a key.
    MissingKey,
    /// A sequence on the path is too short.
    IndexOutOfBounds,
    /// The path is empty.
    EmptyPath,
    /// The path leads through an alias, whose bytes belong to its anchor.
    ThroughAlias,
    /// A bracket on the path holds no sequence index.
    BracketWithoutIndex,
    /// The path ends in a sequence index where a key is wanted.
    NotAKey,
    /// The path does not end in a sequence index.
    NotAnIndex,
    /// The value at the path is not a sequence.
    NotASequence,
    /// The value at the path is not a mapping.
    NotAMapping,
    /// The collection is empty and offers nothing to align with.
    EmptyCollection,
    /// An item or entry to align with has no bytes of its own.
    NoAnchor,
    /// The item is not introduced by a `-`.
    NotABlockSequence,
    /// The mapping is written in flow style.
    NotABlockMapping,
    /// No token stands at the target.
    NoToken,
    /// The target is not a scalar.
    NotAScalarSite,
    /// The target is a collection.
    CollectionTarget,
    /// The target is a block scalar.
    BlockScalarTarget,
    /// A collection cannot take the place of a scalar.
    CollectionValue,
    /// The string cannot take the place of a block scalar.
    NotABlockLiteral,
    /// `<<` is the name of merge keys.
    MergeKeyName,
    /// A key holds a control character.
    NonPrintable(u8),
    /// The key comes from a merge and has no entry of its own.
    ProvidedByMerge,
    /// The new key would override one that comes from a merge.
    OverridesMerge,
    /// The mapping has the new key already.
    DuplicateKey,
    /// The key belongs to a flow mapping.
    FlowKey,
    /// The key does not belong to a block mapping entry.
    NotABlockKey,
    /// The key is not a scalar.
    NotAScalarKey,
    /// The site lies inside an anchored value with this many aliases.
    InsideAnchor(usize),
    /// A key with `.` or `[` cannot be addressed by a path.
    NotAddressable,
    /// An existing value cannot be replaced by a collection in place.
    GrowsCollection,
    /// The value has no spelling.
    NoSpelling,
    /// The edited source is not a document.
    NotSpliced,
    /// The edited source has no value.
    NotReparsed,
    /// The edit would have changed more than it should.
    IntegrityCheck,
    /// One of the steps of the edit was refused.
    StepRefused,
}

/// A position in a source: byte offset, line and column, the latter two
/// counted from one.
#[derive(Clone, Copy, PartialEq, Eq, Structural, Debug)]
pub struct Location {
    pub index: usize,
    pub line: usize,
    pub column: usize,
}

/// How many line feeds stand before offset `k`.
pub open spec fn feeds_before(s: Seq<u8>, k: int) -> nat
    decreases k,
{
    if k <= 0 {
        0
    } else {
        feeds_before(s, k - 1) + if s[k - 1] == NL {
            1nat
        } else {
            0nat
        }
    }
}

/// How many characters start in `s[a..k]`.
pub open spec fn characters_in(s: Seq<u8>, a: int, k: int) -> nat
    decreases k - a,
{
    if k <= a {
        0
    } else {
        characters_in(s, a, k - 1) + if is_continuation_byte(s[k - 1]) {
            0nat
        } else {
            1nat
        }
    }
}

impl Location {
    /// The position of a byte of a source. One past the end stands for the
    /// end.
    pub fn from_index(source: &str, index: usize) -> (r: Location)
        requires
            source.spec_bytes().len() < usize::MAX,
        ensures
            ({
                let s = source.spec_bytes();
                let k = if index < s.len() {
                    index as int
                } else {
                    s.len() as int
                };
                &&& r.index == index
                &&& r.line == 1 + feeds_before(s, k)
                &&& r.column == 1 + characters_in(s, line_start(s, k), k)
            }),
    {
        let s: &[u8] = source.as_bytes();
        let k: usize = if index < s.len() {
            index
        } else {
            s.len()
        };
        let mut line: usize = 1;
        let mut i: usize = 0;
        while i < k
            invariant
                i <= k <= s@.len() < usize::MAX,
                line == 1 + feeds_before(s@, i as int),
                line <= 1 + i,
            decreases k - i,
        {
            if s[i] == NL {
                line += 1;
            }
            i += 1;
        }
        let from: usize = start_of_line(s, k);
        let mut column: usize = 1;
        let mut j: usize = from;
        while j < k
            invariant
                from <= j <= k <= s@.len() < usize::MAX,
                column == 1 + characters_in(s@, from as int, j as int),
                column <= 1 + j,
            decreases k - j,
        {
            if !(128 <= s[j] && s[j] < 192) {
                column += 1;
            }
            j += 1;
        }
        Location { index, line, column }
    }
}

/// What can go wrong.
#[derive(Debug)]
pub enum Error {
    /// The source is not a document.
    Syntax(Flaw),
    /// An edit was refused.
    Edit(Operation, Refusal),
    /// An alias refers to an anchor that is not there, with a similar one if
    /// there is any.
    UnknownAnchorAt { name: String, location: Location, suggestion: Option<(String, Location)> },
    /// A key occurs twice.
    DuplicateKeyAt { key: String, path: String, location: Location },
    /// Any other failure.
    Custom(String),
}

/// The name of an edit.
pub open spec fn operation_name(op: Operation) -> &'static str {
    match op {
        Operation::ReplaceSpan => "replace_span",
        Operation::SetFragment => "set",
        Operation::SetValue => "set_value",
        Operation::Remove => "remove",
        Operation::RenameKey => "rename_key",
        Operation::SwapItems => "swap_items",
        Operation::MoveItem => "move_item",
        Operation::PushBack => "push_back",
        Operation::InsertEntry => "insert_entry",
        Operation::InsertAfter => "insert_after",
        Operation::InsertEntryValue => "insert_entry_value",
        Operation::PushBackValue => "push_back_value",
        Operation::InsertAfterValue => "insert_after_value",
    }
}

impl Operation {
    /// The name of an edit.
    pub fn name(self) -> (r: &'static str)
        ensures
            r == operation_name(self),
    {
        match self {
            Operation::ReplaceSpan => "replace_span",
            Operation::SetFragment => "set",
            Operation::SetValue => "set_value",
            Operation::Remove => "remove",
            Operation::RenameKey => "rename_key",
            Operation::SwapItems => "swap_items",
            Operation::MoveItem => "move_item",
            Operation::PushBack => "push_back",
            Operation::InsertEntry => "insert_entry",
            Operation::InsertAfter => "insert_after",
            Operation::InsertEntryValue => "insert_entry_value",
            Operation::PushBackValue => "push_back_value",
            Operation::InsertAfterValue => "insert_after_value",
        }
    }
}

/// Why an edit was refused, in words.
pub open spec fn refusal_text(why: Refusal) -> &'static str {
    match why {
        Refusal::OutOfBounds => "the byte range lies outside the source",
        Refusal::NotABoundary => "the byte range does not start and end at a character",
        Refusal::DoesNotParse => "the document does not parse, so no path can be resolved",
        Refusal::PathNotFound => "path not found",
        Refusal::MissingKey => "path not found: a mapping on the path lacks a key",
        Refusal::IndexOutOfBounds => "index out of bounds for the sequence",
        Refusal::EmptyPath => "the path is empty",
        Refusal::ThroughAlias => "the path leads through an alias, whose bytes belong to its anchor",
        Refusal::BracketWithoutIndex => "a bracket on the path holds no sequence index",
        Refusal::NotAKey => "the path ends in a sequence index, not in a key",
        Refusal::NotAnIndex => "the path must end with a sequence index",
        Refusal::NotASequence => "the target path is not a sequence",
        Refusal::NotAMapping => "the target path is not a mapping",
        Refusal::EmptyCollection => "the collection is empty and has no anchor for indentation",
        Refusal::NoAnchor => "no sibling with bytes of its own to align with",
        Refusal::NotABlockSequence => "only block sequences are supported",
        Refusal::NotABlockMapping => "only block mappings are supported",
        Refusal::NoToken => "no token stands at the target",
        Refusal::NotAScalarSite => "the target is not a scalar",
        Refusal::CollectionTarget => "the target is a collection",
        Refusal::BlockScalarTarget => "the target is a block scalar",
        Refusal::CollectionValue => "a collection cannot take the place of a scalar",
        Refusal::NotABlockLiteral => "the string cannot be written as a block scalar",
        Refusal::MergeKeyName => "`<<` cannot be used as a key name",
        Refusal::NonPrintable(_) => "the key contains a non-printable character",
        Refusal::ProvidedByMerge => "the key comes from a merge and has no entry of its own",
        Refusal::OverridesMerge => "the new key would override one that comes from a merge",
        Refusal::DuplicateKey => "the mapping has the new key already",
        Refusal::FlowKey => "the key belongs to a flow mapping",
        Refusal::NotABlockKey => "the key does not belong to a block mapping entry",
        Refusal::NotAScalarKey => "the key is not a scalar",
        Refusal::InsideAnchor(_) => "the site is inside an anchored value that has alias references",
        Refusal::NotAddressable => "a key containing `.` or `[` cannot be addressed by a path",
        Refusal::GrowsCollection => "a value cannot be replaced by a collection in place",
        Refusal::NoSpelling => "the value has no spelling",
        Refusal::NotSpliced => "the edit could not be spliced; the document was left unchanged",
        Refusal::NotReparsed => "the edit left the document unable to re-parse; the document was left unchanged",
        Refusal::IntegrityCheck => "the edit failed the integrity check; the document was left unchanged",
        Refusal::StepRefused => "a step of the edit was refused; the document was left unchanged",
    }
}

impl Refusal {
    /// Why an edit was refused, in words.
    pub fn describe(self) -> (r: &'static str)
        ensures
            r == refusal_text(self),
    {
        match self {
            Refusal::OutOfBounds => "the byte range lies outside the source",
            Refusal::NotABoundary => "the byte range does not start and end at a character",
            Refusal::DoesNotParse => "the document does not parse, so no path can be resolved",
            Refusal::PathNotFound => "path not found",
            Refusal::MissingKey => "path not found: a mapping on the path lacks a key",
            Refusal::IndexOutOfBounds => "index out of bounds for the sequence",
            Refusal::EmptyPath => "the path is empty",
            Refusal::ThroughAlias => "the path leads through an alias, whose bytes belong to its anchor",
            Refusal::BracketWithoutIndex => "a bracket on the path holds no sequence index",
            Refusal::NotAKey => "the path ends in a sequence index, not in a key",
            Refusal::NotAnIndex => "the path must end with a sequence index",
            Refusal::NotASequence => "the target path is not a sequence",
            Refusal::NotAMapping => "the target path is not a mapping",
            Refusal::EmptyCollection => "the collection is empty and has no anchor for indentation",
            Refusal::NoAnchor => "no sibling with bytes of its own to align with",
            Refusal::NotABlockSequence => "only block sequences are supported",
            Refusal::NotABlockMapping => "only block mappings are supported",
            Refusal::NoToken => "no token stands at the target",
            Refusal::NotAScalarSite => "the target is not a scalar",
            Refusal::CollectionTarget => "the target is a collection",
            Refusal::BlockScalarTarget => "the target is a block scalar",
        Refusal::CollectionValue => "a collection cannot take the place of a scalar",
            Refusal::NotABlockLiteral => "the string cannot be written as a block scalar",
            Refusal::MergeKeyName => "`<<` cannot be used as a key name",
            Refusal::NonPrintable(_) => "the key contains a non-printable character",
            Refusal::ProvidedByMerge => "the key comes from a merge and has no entry of its own",
            Refusal::OverridesMerge => "the new key would override one that comes from a merge",
            Refusal::DuplicateKey => "the mapping has the new key already",
            Refusal::FlowKey => "the key belongs to a flow mapping",
            Refusal::NotABlockKey => "the key does not belong to a block mapping entry",
            Refusal::NotAScalarKey => "the key is not a scalar",
            Refusal::InsideAnchor(_) => "the site is inside an anchored value that has alias references",
            Refusal::NotAddressable => "a key containing `.` or `[` cannot be addressed by a path",
            Refusal::GrowsCollection => "a value cannot be replaced by a collection in place",
            Refusal::NoSpelling => "the value has no spelling",
            Refusal::NotSpliced => "the edit could not be spliced; the document was left unchanged",
            Refusal::NotReparsed => "the edit left the document unable to re-parse; the document was left unchanged",
            Refusal::IntegrityCheck => "the edit failed the integrity check; the document was left unchanged",
            Refusal::StepRefused => "a step of the edit was refused; the document was left unchanged",
        }
    }
}

/// Why a text is not a document, in words.
pub open spec fn fault_text(fault: Fault) -> &'static str {
    match fault {
        Fault::TooDeep => "collections are nested too deep",
        Fault::Unexpected => "unexpected character",
        Fault::Trailing => "content after the end of the document",
        Fault::UnclosedQuote => "a quoted scalar is never closed",
        Fault::UnclosedFlow => "a flow collection is never closed",
        Fault::MismatchedFlow => "a flow collection is closed by the wrong bracket",
        Fault::EmptyMember => "a flow collection holds an empty member",
        Fault::BadEscape => "an escape sequence stands for nothing",
        Fault::SecondValue => "a value is followed by another one",
        Fault::UnknownAnchor => "unknown anchor",
        Fault::TooManyAliases => "too many alias expansions",
        Fault::AliasRatio => "too many aliases for the number of anchors (alias_anchor_ratio)",
        Fault::BadMerge => "a merge key needs a mapping or a list of mappings",
        Fault::TooLong => "the text is too long",
        Fault::Tangled => "the text does not form a tree",
    }
}

impl Fault {
    /// Why a text is not a document, in words.
    pub fn describe(self) -> (r: &'static str)
        ensures
            r == fault_text(self),
    {
        match self {
            Fault::TooDeep => "collections are nested too deep",
            Fault::Unexpected => "unexpected character",
            Fault::Trailing => "content after the end of the document",
            Fault::UnclosedQuote => "a quoted scalar is never closed",
            Fault::UnclosedFlow => "a flow collection is never closed",
            Fault::MismatchedFlow => "a flow collection is closed by the wrong bracket",
            Fault::EmptyMember => "a flow collection holds an empty member",
            Fault::BadEscape => "an escape sequence stands for nothing",
            Fault::SecondValue => "a value is followed by another one",
            Fault::UnknownAnchor => "unknown anchor",
            Fault::TooManyAliases => "too many alias expansions",
            Fault::AliasRatio => "too many aliases for the number of anchors (alias_anchor_ratio)",
            Fault::BadMerge => "a merge key needs a mapping or a list of mappings",
            Fault::TooLong => "the text is too long",
            Fault::Tangled => "the text does not form a tree",
        }
    }
}

/// The message of an error.
pub open spec fn error_message(e: Error) -> Seq<u8> {
    match e {
        Error::Syntax(flaw) => fault_text(flaw.fault).spec_bytes() + " at byte ".spec_bytes() + decimal(
            flaw.at as nat,
        ),
        Error::Edit(op, why) => operation_name(op).spec_bytes() + ": ".spec_bytes() + refusal_text(
            why,
        ).spec_bytes(),
        Error::UnknownAnchorAt { name, location, suggestion } => "unknown anchor: ".spec_bytes()
            + bytes(name),
        Error::DuplicateKeyAt { key, path, location } => "duplicate key: ".spec_bytes() + bytes(
            key,
        ),
        Error::Custom(text) => bytes(text),
    }
}

/// Messages are valid text.
proof fn messages_are_text(e: Error)
    ensures
        valid_utf8(error_message(e)),
{
    broadcast use encode_utf8_valid_utf8;

    match e {
        Error::Syntax(flaw) => {
            let a = fault_text(flaw.fault).spec_bytes();
            let b = " at byte ".spec_bytes();
            decimals_are_digits(flaw.at as nat);
            ascii_is_text(decimal(flaw.at as nat));
            valid_utf8_concat(a, b);
            valid_utf8_concat(a + b, decimal(flaw.at as nat));
        },
        Error::Edit(op, why) => {
            let a = operation_name(op).spec_bytes();
            let b = ": ".spec_bytes();
            valid_utf8_concat(a, b);
            valid_utf8_concat(a + b, refusal_text(why).spec_bytes());
        },
        Error::UnknownAnchorAt { name, .. } => {
            valid_utf8_concat("unknown anchor: ".spec_bytes(), bytes(name));
        },
        Error::DuplicateKeyAt { key, .. } => {
            valid_utf8_concat("duplicate key: ".spec_bytes(), bytes(key));
        },
        Error::Custom(_) => {},
    }
}

impl Error {
    /// The message.
    pub fn message(&self) -> (r: String)
        ensures
            bytes(r) == error_message(*self),
    {
        let mut out: Vec<u8> = Vec::new();
        match self {
            Error::Syntax(flaw) => {
                append_all(&mut out, flaw.fault.describe().as_bytes());
                append_all(&mut out, " at byte ".as_bytes());
                push_decimal(&mut out, flaw.at as u64);
            },
            Error::Edit(op, why) => {
                append_all(&mut out, op.name().as_bytes());
                append_all(&mut out, ": ".as_bytes());
                append_all(&mut out, why.describe().as_bytes());
            },
            Error::UnknownAnchorAt { name, .. } => {
                append_all(&mut out, "unknown anchor: ".as_bytes());
                append_all(&mut out, name.as_str().as_bytes());
            },
            Error::DuplicateKeyAt { key, .. } => {
                append_all(&mut out, "duplicate key: ".as_bytes());
                append_all(&mut out, key.as_str().as_bytes());
            },
            Error::Custom(text) => {
                append_all(&mut out, text.as_str().as_bytes());
            },
        }
        assert(out@ =~= error_message(*self));
        proof {
            messages_are_text(*self);
        }
        string_of(out)
    }
}

proof fn further_bytes_do_not_count(s: Seq<u8>, a: int, k: int, n: int)
    requires
        a <= k,
        0 <= n,
        forall|j: int| k <= j < k + n ==> is_continuation_byte(#[trigger] s[j]),
    ensures
        characters_in(s, a, k + n) == characters_in(s, a, k),
    decreases n,
{
    if n > 0 {
        assert(is_continuation_byte(s[k + n - 1]));
        further_bytes_do_not_count(s, a, k, n - 1);
    }
}

/// A character counts once in a column, however many bytes it has.
pub proof fn characters_count_once(s: Seq<u8>, a: int, k: int, n: int)
    requires
        0 <= a <= k,
        k + n <= s.len(),
        n > 0,
        valid_first_scalar(s.subrange(k, k + n)),
        length_of_first_scalar(s.subrange(k, k + n)) == n,
    ensures
        characters_in(s, a, k + n) == characters_in(s, a, k) + 1,
{
    let c = s.subrange(k, k + n);
    assert(c[0] == s[k]);
    assert forall|j: int| k + 1 <= j < k + n implies is_continuation_byte(#[trigger] s[j]) by {
        assert(s[j] == c[j - k]);
    }
    further_bytes_do_not_count(s, a, k + 1, n - 1);
}

/// A line break starts a new line, and nothing else does.
pub proof fn lines_are_counted(s: Seq<u8>, k: int)
    requires
        0 <= k < s.len(),
    ensures
        feeds_before(s, 0) == 0,
        s[k] == NL ==> feeds_before(s, k + 1) == feeds_before(s, k) + 1,
        s[k] != NL ==> feeds_before(s, k + 1) == feeds_before(s, k),
{
}

} // verus!
