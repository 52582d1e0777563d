//! The vocabulary of the concrete syntax tree.
use vstd::prelude::*;

verus! {

/// The kinds of syntax nodes and tokens.
#[derive(Clone, Copy, PartialEq, Eq, Structural, Debug)]
pub enum SyntaxKind {
    /// Root of the tree.
    Document,
    /// A mapping written in indented style.
    BlockMapping,
    /// A sequence written in indented style.
    BlockSequence,
    /// A `{…}` mapping. Its content is kept flat: keys, values and indicators
    /// are direct children.
    FlowMapping,
    /// A `[…]` sequence, kept flat like a flow mapping.
    FlowSequence,
    /// One `key: value` pair of a block mapping.
    MappingEntry,
    /// One `- value` item of a block sequence.
    SequenceItem,
    /// Spaces and tabs.
    Whitespace,
    /// One line break.
    Newline,
    /// A comment up to the end of its line.
    Comment,
    /// The byte order mark.
    Bom,
    /// A `%…` directive line.
    Directive,
    /// `---`.
    DocumentStart,
    /// `...`.
    DocumentEnd,
    /// `?` before an explicit key.
    QuestionIndicator,
    /// `:` between a key and its value.
    ColonIndicator,
    /// `-` before a sequence item.
    DashIndicator,
    /// `,` between flow members.
    CommaIndicator,
    /// `[` or `{`.
    FlowOpen,
    /// `]` or `}`.
    FlowClose,
    /// `&name`.
    AnchorMark,
    /// `*name`.
    AliasMark,
    /// `!tag`.
    TagMark,
    /// An unquoted scalar.
    PlainScalar,
    /// A `'…'` scalar.
    SingleQuotedScalar,
    /// A `"…"` scalar.
    DoubleQuotedScalar,
    /// A `|` block scalar.
    LiteralScalar,
    /// A `>` block scalar.
    FoldedScalar,
}

/// Whether a kind stands for an inner node rather than a token.
pub open spec fn node_kind(k: SyntaxKind) -> bool {
    ||| k == SyntaxKind::Document
    ||| k == SyntaxKind::BlockMapping
    ||| k == SyntaxKind::BlockSequence
    ||| k == SyntaxKind::FlowMapping
    ||| k == SyntaxKind::FlowSequence
    ||| k == SyntaxKind::MappingEntry
    ||| k == SyntaxKind::SequenceItem
}

/// Whether a kind stands for an inner node rather than a token.
pub fn is_node_kind(k: SyntaxKind) -> (r: bool)
    ensures
        r == node_kind(k),
{
    k == SyntaxKind::Document || k == SyntaxKind::BlockMapping || k == SyntaxKind::BlockSequence
        || k == SyntaxKind::FlowMapping || k == SyntaxKind::FlowSequence || k
        == SyntaxKind::MappingEntry || k == SyntaxKind::SequenceItem
}

/// Whether a kind carries no content of its own.
pub open spec fn trivia_kind(k: SyntaxKind) -> bool {
    ||| k == SyntaxKind::Whitespace
    ||| k == SyntaxKind::Newline
    ||| k == SyntaxKind::Comment
    ||| k == SyntaxKind::Bom
    ||| k == SyntaxKind::Directive
}

/// Whether a kind carries no content of its own.
pub fn is_trivia_kind(k: SyntaxKind) -> (r: bool)
    ensures
        r == trivia_kind(k),
{
    k == SyntaxKind::Whitespace || k == SyntaxKind::Newline || k == SyntaxKind::Comment || k
        == SyntaxKind::Bom || k == SyntaxKind::Directive
}

/// Whether a kind is a property of the value that follows it: an anchor or a
/// tag.
pub open spec fn property_kind(k: SyntaxKind) -> bool {
    k == SyntaxKind::AnchorMark || k == SyntaxKind::TagMark
}

/// Whether a kind is a property of the value that follows it.
pub fn is_value_property_kind(k: SyntaxKind) -> (r: bool)
    ensures
        r == property_kind(k),
{
    k == SyntaxKind::AnchorMark || k == SyntaxKind::TagMark
}

/// Whether a kind is a collection written in indented style.
pub open spec fn block_collection(k: SyntaxKind) -> bool {
    k == SyntaxKind::BlockMapping || k == SyntaxKind::BlockSequence
}

/// Whether a kind is a collection written in indented style.
pub fn is_block_collection(k: SyntaxKind) -> (r: bool)
    ensures
        r == block_collection(k),
{
    k == SyntaxKind::BlockMapping || k == SyntaxKind::BlockSequence
}

/// Whether a kind is a collection written in flow style.
pub open spec fn flow_collection(k: SyntaxKind) -> bool {
    k == SyntaxKind::FlowMapping || k == SyntaxKind::FlowSequence
}

/// Whether a kind is a collection written in flow style.
pub fn is_flow_collection(k: SyntaxKind) -> (r: bool)
    ensures
        r == flow_collection(k),
{
    k == SyntaxKind::FlowMapping || k == SyntaxKind::FlowSequence
}

/// Whether a kind is a scalar token.
pub open spec fn scalar_kind(k: SyntaxKind) -> bool {
    ||| k == SyntaxKind::PlainScalar
    ||| k == SyntaxKind::SingleQuotedScalar
    ||| k == SyntaxKind::DoubleQuotedScalar
    ||| k == SyntaxKind::LiteralScalar
    ||| k == SyntaxKind::FoldedScalar
}

/// Whether a kind is a scalar token. Any of these can be replaced by a
/// literal block scalar.
pub fn is_block_site(k: SyntaxKind) -> (r: bool)
    ensures
        r == scalar_kind(k),
{
    k == SyntaxKind::PlainScalar || k == SyntaxKind::SingleQuotedScalar || k
        == SyntaxKind::DoubleQuotedScalar || k == SyntaxKind::LiteralScalar || k
        == SyntaxKind::FoldedScalar
}

/// One node or token of a syntax tree in preorder: its byte range, and how
/// many elements its subtree holds, itself included.
#[derive(Clone, Copy, PartialEq, Eq, Structural, Debug)]
pub struct Elem {
    pub kind: SyntaxKind,
    pub start: usize,
    pub end: usize,
    pub size: usize,
}

/// Why a text is not a document.
#[derive(Clone, Copy, PartialEq, Eq, Structural, Debug)]
pub enum Fault {
    /// Collections are nested deeper than the limit.
    TooDeep,
    /// A character cannot start anything here.
    Unexpected,
    /// Content follows where the document should end.
    Trailing,
    /// A quoted scalar is never closed.
    UnclosedQuote,
    /// A flow collection is never closed.
    UnclosedFlow,
    /// A flow collection is closed by the wrong bracket.
    MismatchedFlow,
    /// A flow collection holds an empty member.
    EmptyMember,
    /// An escape sequence stands for nothing.
    BadEscape,
    /// A value is followed by another one.
    SecondValue,
    /// An alias names an anchor that is not defined before it.
    UnknownAnchor,
    /// Expanding the aliases would repeat too many nodes.
    TooManyAliases,
    /// There are too many aliases for the number of anchors.
    AliasRatio,
    /// A merge key's value is not a mapping or a list of mappings.
    BadMerge,
    /// The text is longer than offsets can address.
    TooLong,
    /// The elements do not nest.
    Tangled,
}

/// A fault and the offset where it was found.
#[derive(Clone, Copy, PartialEq, Eq, Structural, Debug)]
pub struct Flaw {
    pub fault: Fault,
    pub at: usize,
}

} // verus!
