//! What every edit makes of a document.
use crate::document::{replaced_span, span_of, write_range, Doc};
use crate::decode::{double_text, single_unquoted};
use crate::emit::{key_for_site, key_text, spelled, value_for_site, EmitCtx, SiteContext};
use crate::entry::{key_site, removal_site};
use crate::error::{Error, Operation, Refusal};
use crate::lines::{
    after_line, indent_step, needs_break, past_properties, reindented, text_follows, value_end,
};
use crate::load::{count_of, SpanKind, SpanNode};
use crate::oracle::{
    put, after_insert_entry, after_insert_item, after_remove, after_rename, after_swap, at, length_at, Miss,
};
use crate::path::{brackets_hold_indices, item_path, parent_path, path_steps, Seg};
use crate::resolve::{nth_span, typed_spot};
use crate::scalar::non_printable;
use crate::site::{covering_aliases, dash_column, holder_column, key_column, kind_at, leaf_at, neighbour_style, FlowStyle, ScalarStyle};
use crate::syntax::{block_collection, flow_collection, trivia_kind, Elem, SyntaxKind};
use crate::text::{run, spaces, Class, COLON, DASH, DOT, LBRACKET, NL, SPACE};
use crate::value::{find, Data};
use vstd::prelude::*;
use vstd::string::*;

verus! {

/// A refused edit.
pub open spec fn no<T>(op: Operation, why: Refusal) -> Result<T, Error> {
    Err(Error::Edit(op, why))
}

/// The refusal for a path that misses.
pub open spec fn missed(m: Miss, kind: Refusal) -> Refusal {
    match m {
        Miss::Key => Refusal::MissingKey,
        Miss::Index => Refusal::IndexOutOfBounds,
        Miss::Kind => kind,
    }
}

/// The outcome of an edit that is held to the value it should produce: the
/// edited document must load, and load to exactly that value.
pub open spec fn held_to(n: Result<Doc, Error>, expected: Data, op: Operation) -> Result<Doc, Error> {
    match n {
        Ok(d) => match d.value() {
            Ok((v, _)) => if v == expected {
                Ok(d)
            } else {
                no(op, Refusal::IntegrityCheck)
            },
            Err(_) => no(op, Refusal::NotReparsed),
        },
        Err(_) => no(op, Refusal::NotSpliced),
    }
}

/// The document after the value at a path is replaced by a fragment.
pub open spec fn after_set(d: Doc, path: Seq<u8>, fragment: Seq<u8>) -> Result<Doc, Error> {
    match write_range(d, path_steps(path), Operation::SetFragment) {
        Ok((a, b)) => replaced_span(d, a, b, fragment),
        Err(x) => Err(x),
    }
}

/// What a new scalar in place of the one at `a..b` has to fit in with.
pub open spec fn site_context(d: Doc, a: int, b: int, kind: SyntaxKind) -> SiteContext {
    SiteContext {
        kind,
        neighbour: if kind == SyntaxKind::PlainScalar {
            neighbour_style(d.green, a)
        } else {
            None
        },
        column: holder_column(d.source, d.green, a) as usize,
        flow: inside_flow(d.green, a),
        followed: text_follows(d.source, b),
    }
}

/// Whether byte `a` lies inside a flow collection.
pub open spec fn inside_flow(t: Seq<Elem>, a: int) -> bool {
    exists|i: int|
        0 <= i < t.len() && flow_collection((#[trigger] t[i]).kind) && t[i].start < a < t[i].end
}

/// What is written of a value: what stands under its tags.
pub open spec fn untagged(d: Data) -> Data
    decreases d,
{
    match d {
        Data::Tagged(_, inner) => untagged(*inner),
        _ => d,
    }
}

/// Whether a collection starts in the range `a..b`.
pub open spec fn collection_in(t: Seq<Elem>, a: int, b: int) -> bool {
    exists|i: int|
        0 <= i < t.len() && (block_collection((#[trigger] t[i]).kind) || flow_collection(t[i].kind))
            && a <= t[i].start < b
}

/// The outcome of an edit after which a document must load and have a value at
/// a path.
pub open spec fn read_back(n: Doc, p: Seq<Seg>, v: Data, op: Operation) -> Result<Doc, Error> {
    match n.value() {
        Ok((w, _)) => if at(w, p, 0, p.len() as int) == Ok::<Data, Miss>(v) {
            Ok(n)
        } else {
            no(op, Refusal::IntegrityCheck)
        },
        Err(_) => no(op, Refusal::NotReparsed),
    }
}

/// The document after the scalar at a path is replaced by a value. Collections
/// and block scalars are not replaced. The edited document must load, and load
/// to the old value with the new one in its place. Inside the value of an anchor
/// that aliases refer to, what they refer to changes too; there the new value
/// must be the one at the path.
pub open spec fn after_set_value(d: Doc, path: Seq<u8>, v: Data) -> Result<Doc, Error> {
    let op = Operation::SetValue;
    match write_range(d, path_steps(path), op) {
        Ok((a, b)) => match kind_at(d.green, a) {
            Some(kind) => if kind == SyntaxKind::LiteralScalar || kind == SyntaxKind::FoldedScalar {
                no(op, Refusal::BlockScalarTarget)
            } else if collection_in(d.green, a, b) {
                no(op, Refusal::CollectionTarget)
            } else {
                match value_for_site(v, site_context(d, a, b, kind)) {
                    Ok(t) => match (replaced_span(d, a, b, t), d.value()) {
                        (Ok(n), Ok((old, _))) => if covering_aliases(d.source, d.green, 0, a)
                            > 0 {
                            read_back(n, path_steps(path), untagged(v), op)
                        } else {
                            held_to(
                                Ok(n),
                                put(
                                    old,
                                    path_steps(path),
                                    0,
                                    path_steps(path).len() as int,
                                    untagged(v),
                                ),
                                op,
                            )
                        },
                        (r, _) => r,
                    },
                    Err(x) => no(op, x),
                }
            },
            None => no(op, Refusal::NoToken),
        },
        Err(x) => Err(x),
    }
}

/// The document after what a path addresses is removed.
pub open spec fn after_removal(d: Doc, path: Seq<u8>) -> Result<Doc, Error> {
    let op = Operation::Remove;
    let p = path_steps(path);
    match d.value() {
        Ok((v, sp)) => match removal_site(d.source, d.green, v, sp, 0, p, 0) {
            Ok((a, b, t)) => match after_remove(v, p) {
                Ok(expected) => held_to(replaced_span(d, a, b, t), expected, op),
                Err(x) => no(op, missed(x, Refusal::PathNotFound)),
            },
            Err(x) => no(op, x),
        },
        Err(_) => no(op, Refusal::DoesNotParse),
    }
}

/// The string that the spelling of a key denotes.
pub open spec fn key_meaning(raw: Seq<u8>, kind: SyntaxKind) -> Option<Seq<u8>> {
    if kind == SyntaxKind::PlainScalar {
        Some(raw)
    } else if kind == SyntaxKind::SingleQuotedScalar {
        single_unquoted(raw)
    } else if kind == SyntaxKind::DoubleQuotedScalar && raw.len() >= 2 {
        double_text(raw, 1, raw.len() - 1, Seq::empty())
    } else {
        None
    }
}

/// Whether a kind is a scalar that a key can be written as.
pub open spec fn key_scalar(k: SyntaxKind) -> bool {
    k == SyntaxKind::PlainScalar || k == SyntaxKind::SingleQuotedScalar || k
        == SyntaxKind::DoubleQuotedScalar
}

/// Whether the range `a..b` is that of a key of a block mapping: a scalar token
/// that an entry holds directly.
pub open spec fn block_key(d: Doc, a: int, b: int) -> bool {
    match leaf_at(d.green, a) {
        Some((c, parent)) => a < b && d.green[c].start == a && d.green[c].end == b && key_scalar(
            d.green[c].kind,
        ) && d.green[parent].kind == SyntaxKind::MappingEntry,
        None => false,
    }
}

/// The range of the key of the block mapping entry that the steps `p` lead to,
/// as it is written.
pub open spec fn key_span_of(d: Doc, p: Seq<Seg>) -> Option<(int, int)> {
    match d.value() {
        Ok((v, sp)) => match key_site(v, sp, 0, p, 0, None) {
            Ok((a, b)) => if block_key(d, a, b) {
                Some((a, b))
            } else {
                None
            },
            Err(_) => None,
        },
        Err(_) => None,
    }
}

/// The document after the key at `a..b` is renamed, which is token `c`, a child
/// of the node `parent`.
pub open spec fn after_key_rename(
    d: Doc,
    v: Data,
    p: Seq<Seg>,
    new_key: Seq<u8>,
    a: int,
    b: int,
    c: int,
    parent: int,
) -> Result<Doc, Error> {
    let op = Operation::RenameKey;
    let kind = d.green[c].kind;
    if d.green[parent].kind == SyntaxKind::FlowMapping {
        no(op, Refusal::FlowKey)
    } else if d.green[parent].kind != SyntaxKind::MappingEntry {
        no(op, Refusal::NotABlockKey)
    } else if !key_scalar(kind) {
        no(op, Refusal::NotAScalarKey)
    } else if !(d.green[c].start == a && d.green[c].end == b) {
        no(op, Refusal::NoToken)
    } else if covering_aliases(d.source, d.green, 0, a) > 0 {
        no(op, Refusal::InsideAnchor(covering_aliases(d.source, d.green, 0, a) as usize))
    } else {
        match after_rename(v, p, new_key) {
            Ok(expected) => held_to(
                replaced_span(d, a, b, key_for_site(new_key, kind)),
                expected,
                op,
            ),
            Err(x) => no(op, missed(x, Refusal::PathNotFound)),
        }
    }
}

/// The document after the key of the entry at a path is renamed. Renaming a key
/// to what it is already changes nothing, however it is written.
pub open spec fn after_rename_key(d: Doc, path: Seq<u8>, new_key: Seq<u8>) -> Result<Doc, Error> {
    let op = Operation::RenameKey;
    let p = path_steps(path);
    match d.value() {
        Ok((v, sp)) => if !brackets_hold_indices(path, 0) {
            no(op, Refusal::BracketWithoutIndex)
        } else if new_key == "<<".spec_bytes() {
            no(op, Refusal::MergeKeyName)
        } else if non_printable(new_key, 0) is Some {
            no(op, Refusal::NonPrintable(non_printable(new_key, 0)->0))
        } else {
            match key_site(v, sp, 0, p, 0, Some(new_key)) {
                Ok((ks, ke)) => if ks >= ke {
                    no(op, Refusal::NotAScalarKey)
                } else if p.last() == Seg::Key(new_key) {
                    Ok(d)
                } else {
                    match leaf_at(d.green, ks) {
                        Some((c, parent)) => after_key_rename(
                            d,
                            v,
                            p,
                            new_key,
                            ks,
                            ke,
                            c,
                            parent,
                        ),
                        None => no(op, Refusal::NoToken),
                    }
                },
                Err(x) => no(op, x),
            }
        },
        Err(_) => no(op, Refusal::DoesNotParse),
    }
}

/// Whether the value at a path is a collection of the given kind as a whole,
/// anchors and tags aside.
pub open spec fn written_as(d: Doc, p: Seq<Seg>, kind: SyntaxKind) -> bool {
    match span_of(d, p) {
        Some((a, b)) => exists|i: int|
            0 <= i < d.green.len() && (#[trigger] d.green[i]).kind == kind && d.green[i].start
                == past_properties(d.source, a, b) && d.green[i].end == b,
        None => false,
    }
}

/// The document after the bytes of two items are exchanged, the later ones
/// first.
pub open spec fn after_exchange(d: Doc, x: (int, int), y: (int, int)) -> Result<Doc, Error> {
    let (lo, hi) = if x.0 < y.0 {
        (x, y)
    } else {
        (y, x)
    };
    match replaced_span(d, hi.0, hi.1, d.source.subrange(lo.0, lo.1)) {
        Ok(n) => replaced_span(n, lo.0, lo.1, d.source.subrange(hi.0, hi.1)),
        Err(e) => Err(e),
    }
}

/// The document after two items of the sequence at a path are exchanged.
/// Nothing changes when the two are equal.
pub open spec fn after_swap_items(d: Doc, path: Seq<u8>, i: int, j: int) -> Result<Doc, Error> {
    let op = Operation::SwapItems;
    let p = path_steps(path);
    match d.value() {
        Ok((v, _)) => match length_at(v, p) {
            Ok(n) => if i >= n || j >= n {
                no(op, Refusal::IndexOutOfBounds)
            } else if at(v, p, 0, p.len() as int)->Ok_0->List_0[i] == at(
                v,
                p,
                0,
                p.len() as int,
            )->Ok_0->List_0[j] {
                Ok(d)
            } else if written_as(d, p, SyntaxKind::FlowSequence) {
                no(op, Refusal::NotABlockSequence)
            } else {
                match (
                    span_of(d, path_steps(item_path(path, i))),
                    span_of(d, path_steps(item_path(path, j))),
                ) {
                    (Some(x), Some(y)) => match after_swap(v, p, i, j) {
                        Ok(expected) => held_to(after_exchange(d, x, y), expected, op),
                        Err(m) => no(op, missed(m, Refusal::NotASequence)),
                    },
                    _ => no(op, Refusal::NoAnchor),
                }
            },
            Err(m) => no(op, missed(m, Refusal::NotASequence)),
        },
        Err(_) => no(op, Refusal::DoesNotParse),
    }
}

/// The document after the item at `k` is carried up to index `to` by swapping
/// it with one neighbour after the other.
pub open spec fn carried_up(d: Doc, path: Seq<u8>, k: int, to: int) -> Result<Doc, Error>
    decreases to - k,
{
    if k >= to {
        Ok(d)
    } else {
        match after_swap_items(d, path, k, k + 1) {
            Ok(n) => carried_up(n, path, k + 1, to),
            Err(_) => no(Operation::MoveItem, Refusal::StepRefused),
        }
    }
}

/// The document after the item at `k` is carried down to index `to`.
pub open spec fn carried_down(d: Doc, path: Seq<u8>, k: int, to: int) -> Result<Doc, Error>
    decreases k - to,
{
    if k <= to {
        Ok(d)
    } else {
        match after_swap_items(d, path, k, k - 1) {
            Ok(n) => carried_down(n, path, k - 1, to),
            Err(_) => no(Operation::MoveItem, Refusal::StepRefused),
        }
    }
}

/// The document after an item of the sequence at a path is moved.
pub open spec fn after_move_item(d: Doc, path: Seq<u8>, from: int, to: int) -> Result<Doc, Error> {
    let op = Operation::MoveItem;
    match d.value() {
        Ok((v, _)) => match length_at(v, path_steps(path)) {
            Ok(n) => if from >= n || to >= n {
                no(op, Refusal::IndexOutOfBounds)
            } else if from < to {
                carried_up(d, path, from, to)
            } else {
                carried_down(d, path, from, to)
            },
            Err(m) => no(op, missed(m, Refusal::NotASequence)),
        },
        Err(_) => no(op, Refusal::DoesNotParse),
    }
}

/// A line break where text spliced in at `pos` needs one.
pub open spec fn lead(s: Seq<u8>, pos: int) -> Seq<u8> {
    if needs_break(s, pos) {
        seq![NL]
    } else {
        Seq::empty()
    }
}

/// The line of a new sequence item in column `c`, spliced in at `pos`.
pub open spec fn item_line(s: Seq<u8>, pos: int, c: int, fragment: Seq<u8>) -> Seq<u8> {
    lead(s, pos) + spaces(c) + seq![DASH, SPACE] + fragment + seq![NL]
}

/// The bytes of the value with span `x`, without the separating white space at
/// their end.
pub open spec fn placed(d: Doc, x: SpanNode) -> Option<(int, int)> {
    if x.start <= x.end <= d.source.len() {
        Some((x.start as int, value_end(d.source, x.start as int, x.end as int)))
    } else {
        None
    }
}

/// The bytes of item `n` of the sequence that the steps `p` lead to. An item
/// that is an alias has the bytes of the alias.
pub open spec fn item_site(d: Doc, p: Seq<Seg>, n: int) -> Option<(int, int)> {
    match d.value() {
        Ok((v, sp)) => match typed_spot(v, sp, 0, p, 0, false) {
            Some((i, _)) => if sp[i].kind == SpanKind::List {
                match nth_span(sp, i + 1, i + sp[i].size, n) {
                    Some(c) => placed(d, sp[c]),
                    None => None,
                }
            } else {
                None
            },
            None => None,
        },
        Err(_) => span_of(d, p.push(Seg::Index(n))),
    }
}

/// Column of the `-` of the item whose value starts at `a`, if it is one of a
/// block sequence.
pub open spec fn block_item_column(d: Doc, a: int) -> Option<int> {
    if inside_flow(d.green, a) {
        None
    } else {
        dash_column(d.source, d.green, a)
    }
}

/// The document after an item is added on the line below the one whose value
/// is at `a..b`.
pub open spec fn item_added(d: Doc, a: int, b: int, fragment: Seq<u8>, op: Operation) -> Result<
    Doc,
    Error,
> {
    match block_item_column(d, a) {
        Some(c) => {
            let pos = after_line(d.source, b);
            replaced_span(d, pos, pos, item_line(d.source, pos, c, fragment))
        },
        None => no(op, Refusal::NotABlockSequence),
    }
}

/// The document after a fragment is appended to the sequence at a path.
pub open spec fn after_push_back(d: Doc, path: Seq<u8>, fragment: Seq<u8>) -> Result<Doc, Error> {
    let op = Operation::PushBack;
    match d.value() {
        Ok((v, _)) => match length_at(v, path_steps(path)) {
            Ok(n) => if n == 0 {
                no(op, Refusal::EmptyCollection)
            } else {
                match item_site(d, path_steps(path), n - 1) {
                    Some((a, b)) => item_added(d, a, b, fragment, op),
                    None => no(op, Refusal::NoAnchor),
                }
            },
            Err(m) => no(op, missed(m, Refusal::NotASequence)),
        },
        Err(_) => no(op, Refusal::DoesNotParse),
    }
}

/// The document after a fragment is inserted as an item below the one at a
/// path.
pub open spec fn after_insert_after(d: Doc, path: Seq<u8>, fragment: Seq<u8>) -> Result<
    Doc,
    Error,
> {
    let op = Operation::InsertAfter;
    let p = path_steps(path);
    if !(p.len() > 0 && p[p.len() - 1] is Index) {
        no(op, Refusal::NotAnIndex)
    } else {
        match item_site(d, p.drop_last(), p[p.len() - 1]->Index_0) {
            Some((a, b)) => item_added(d, a, b, fragment, op),
            None => no(op, Refusal::PathNotFound),
        }
    }
}

/// The lines of `s[i..]`, each ended by a line break and each but the empty
/// ones indented by `pad` spaces, appended to `acc`.
pub open spec fn indented_lines(s: Seq<u8>, i: int, pad: int, acc: Seq<u8>) -> Seq<u8>
    decreases s.len() - i,
{
    let n = s.len() as int;
    let e = run(s, i, n, Class::Line);
    if !(0 <= i <= n) || e < i {
        acc
    } else {
        let one = if e == i {
            acc.push(NL)
        } else {
            (acc + spaces(pad) + s.subrange(i, e)).push(NL)
        };
        if e < n {
            indented_lines(s, e + 1, pad, one)
        } else {
            one
        }
    }
}

/// Offset of the first byte of `s[i..]` that is not a line feed.
pub open spec fn past_feeds(s: Seq<u8>, i: int) -> int
    decreases s.len() - i,
{
    if 0 <= i < s.len() && s[i] == NL {
        past_feeds(s, i + 1)
    } else {
        i
    }
}

/// The line or lines of a new mapping entry in column `c`, for a document
/// with indentation step `unit`.
pub open spec fn entry_text(key: Seq<u8>, fragment: Seq<u8>, c: int, unit: int) -> Seq<u8> {
    if fragment.contains(NL) {
        indented_lines(
            fragment,
            past_feeds(fragment, 0),
            c + unit,
            spaces(c) + key + seq![COLON, NL],
        )
    } else {
        spaces(c) + key + seq![COLON, SPACE] + fragment + seq![NL]
    }
}

/// Index of the span among the children from `c` up to `hi`, and `best`, that
/// starts last in the source.
pub open spec fn lowest(sp: Seq<SpanNode>, c: int, hi: int, best: Option<int>) -> Option<int>
    decreases hi - c,
{
    if !(0 <= c < hi && hi <= sp.len() && 1 <= sp[c].size && c + sp[c].size <= hi) {
        best
    } else {
        lowest(
            sp,
            c + sp[c].size,
            hi,
            match best {
                Some(b) => if sp[b].start > sp[c].start {
                    Some(b)
                } else {
                    Some(c)
                },
                None => Some(c),
            },
        )
    }
}

/// Number of children from `c` up to `hi`.
pub open spec fn children(sp: Seq<SpanNode>, c: int, hi: int) -> int
    decreases hi - c,
{
    if !(0 <= c < hi && hi <= sp.len() && 1 <= sp[c].size && c + sp[c].size <= hi) {
        0
    } else {
        1 + children(sp, c + sp[c].size, hi)
    }
}

/// The bytes of the value of the entry that comes last in the mapping with span
/// `i`.
pub open spec fn lowest_entry(d: Doc, sp: Seq<SpanNode>, i: int) -> Option<(int, int)> {
    match lowest(sp, i + 1, i + sp[i].size, None) {
        Some(c) => placed(d, sp[c]),
        None => None,
    }
}

/// The span of the value under a key of the mapping `m` with span `i`, if the
/// mapping has the key itself and not from a merge.
pub open spec fn own_entry(
    sp: Seq<SpanNode>,
    i: int,
    m: Seq<(Seq<u8>, Data)>,
    key: Seq<u8>,
) -> Option<int> {
    match find(m, key) {
        Some(x) => if sp[i].kind == SpanKind::Dict {
            nth_span(sp, i + 1, i + sp[i].size, x)
        } else {
            None
        },
        None => None,
    }
}

/// The document after the value with span `x`, which the steps `q` lead to, is
/// replaced by a fragment. One without bytes gets them behind its `:`.
pub open spec fn refilled(d: Doc, q: Seq<Seg>, x: SpanNode, through: bool, fragment: Seq<u8>) -> Result<
    Doc,
    Error,
> {
    let op = Operation::SetFragment;
    let a = x.start as int;
    if span_of(d, q) is None && !through && x.kind == SpanKind::Leaf && a == x.end && 0 < a
        <= d.source.len() && d.source[a - 1] == COLON {
        replaced_span(d, a, a, seq![SPACE] + fragment)
    } else {
        match write_range(d, q, op) {
            Ok((a, b)) => replaced_span(d, a, b, fragment),
            Err(e) => Err(e),
        }
    }
}

/// The document after a fragment is set under a key in the mapping `m` with
/// span `i`: in place when the mapping has the key itself, below the entry that
/// comes last when it does not. The steps `q` lead to the value under the key.
pub open spec fn entry_text_set(
    d: Doc,
    sp: Seq<SpanNode>,
    i: int,
    through: bool,
    m: Seq<(Seq<u8>, Data)>,
    key: Seq<u8>,
    q: Seq<Seg>,
    fragment: Seq<u8>,
) -> Result<Doc, Error> {
    let op = Operation::InsertEntry;
    match own_entry(sp, i, m, key) {
        Some(c) => refilled(d, q, sp[c], through, fragment),
        None => if m.len() == 0 {
            no(op, Refusal::EmptyCollection)
        } else {
            match lowest_entry(d, sp, i) {
                Some((a, b)) => if inside_flow(d.green, a) {
                    no(op, Refusal::NotABlockMapping)
                } else {
                    let pos = after_line(d.source, b);
                    replaced_span(
                        d,
                        pos,
                        pos,
                        lead(d.source, pos) + entry_text(
                            key,
                            fragment,
                            key_column(d.source, d.green, a),
                            indent_step(d.source, 0, None, None),
                        ),
                    )
                },
                None => no(op, Refusal::NoAnchor),
            }
        },
    }
}

/// The document after a fragment is set under a key in the mapping at a path.
/// While the source does not load, only a value that is there can be replaced.
pub open spec fn after_insert_entry_text(
    d: Doc,
    path: Seq<u8>,
    key: Seq<u8>,
    fragment: Seq<u8>,
) -> Result<Doc, Error> {
    let op = Operation::InsertEntry;
    let p = path_steps(path);
    let q = p.push(Seg::Key(key));
    match d.value() {
        Ok((v, sp)) => match at(v, p, 0, p.len() as int) {
            Ok(Data::Dict(m)) => match typed_spot(v, sp, 0, p, 0, false) {
                Some((i, through)) => entry_text_set(d, sp, i, through, m, key, q, fragment),
                None => no(op, Refusal::NoAnchor),
            },
            Ok(_) => no(op, Refusal::NotAMapping),
            Err(_) => no(op, Refusal::PathNotFound),
        },
        Err(_) => match write_range(d, q, op) {
            Ok((a, b)) => replaced_span(d, a, b, fragment),
            Err(x) => Err(x),
        },
    }
}

/// Index of the first element at or behind `i` that is not trivia, or the end.
pub open spec fn past_trivia(t: Seq<Elem>, i: int) -> int
    decreases t.len() - i,
{
    if 0 <= i < t.len() && trivia_kind(t[i].kind) {
        past_trivia(t, i + 1)
    } else {
        i
    }
}

/// Whether element `i` is a scalar of the given kind that no `:` follows: a
/// value, not a key.
pub open spec fn value_of_kind(t: Seq<Elem>, i: int, kind: SyntaxKind) -> bool {
    let j = past_trivia(t, i + 1);
    t[i].kind == kind && !(j < t.len() && t[j].kind == SyntaxKind::ColonIndicator)
}

/// Number of scalar values of a kind among the first `n` elements.
pub open spec fn values_of(t: Seq<Elem>, kind: SyntaxKind, n: int) -> int
    decreases n,
{
    if n <= 0 {
        0
    } else {
        values_of(t, kind, n - 1) + if value_of_kind(t, n - 1, kind) {
            1int
        } else {
            0int
        }
    }
}

/// How most scalar values of a tree are written; the simpler way where there
/// is a tie.
pub open spec fn quote_style(t: Seq<Elem>) -> ScalarStyle {
    let n = t.len() as int;
    let plain = values_of(t, SyntaxKind::PlainScalar, n);
    let single = values_of(t, SyntaxKind::SingleQuotedScalar, n);
    let double = values_of(t, SyntaxKind::DoubleQuotedScalar, n);
    if plain >= single && plain >= double {
        ScalarStyle::Plain
    } else if single >= double {
        ScalarStyle::SingleQuoted
    } else {
        ScalarStyle::DoubleQuoted
    }
}

/// The style of most of the collections of a tree.
pub open spec fn collection_style(t: Seq<Elem>) -> FlowStyle {
    let n = t.len() as int;
    let block = count_of(t, SyntaxKind::BlockMapping, n) + count_of(t, SyntaxKind::BlockSequence, n);
    let flow = count_of(t, SyntaxKind::FlowMapping, n) + count_of(t, SyntaxKind::FlowSequence, n);
    if flow > block {
        FlowStyle::Auto
    } else {
        FlowStyle::Block
    }
}

/// How a document writes its values.
pub open spec fn emit_style(d: Doc) -> EmitCtx {
    EmitCtx {
        quote: quote_style(d.green),
        flow: collection_style(d.green),
        unit: indent_step(d.source, 0, None, None) as usize,
    }
}

/// The spelling of a value as a sequence item whose `-` is in column `c`.
pub open spec fn item_spelling(d: Doc, v: Data, c: int) -> Option<Seq<u8>> {
    match spelled(v, emit_style(d)) {
        Some(t) => Some(reindented(t, 0, c + 2, Seq::empty())),
        None => None,
    }
}

/// Column of the `-` of item `i` of the sequence that the steps `p` lead to,
/// and where the item's value starts.
pub open spec fn item_anchor(d: Doc, p: Seq<Seg>, i: int, op: Operation) -> Result<
    (int, int),
    Error,
> {
    match item_site(d, p, i) {
        Some((a, _)) => match block_item_column(d, a) {
            Some(c) => Ok((c, a)),
            None => no(op, Refusal::NotABlockSequence),
        },
        None => no(op, Refusal::NoAnchor),
    }
}

/// The document after a value is appended to the sequence at a path.
pub open spec fn after_push_back_value(d: Doc, path: Seq<u8>, new: Data) -> Result<Doc, Error> {
    let op = Operation::PushBackValue;
    let p = path_steps(path);
    match d.value() {
        Ok((v, _)) => match length_at(v, p) {
            Ok(n) => match after_insert_item(v, p, n, new) {
                Ok(expected) => if n == 0 {
                    no(op, Refusal::EmptyCollection)
                } else {
                    match item_anchor(d, p, n - 1, op) {
                        Ok((c, a)) => if covering_aliases(d.source, d.green, 0, a) > 0 {
                            no(
                                op,
                                Refusal::InsideAnchor(
                                    covering_aliases(d.source, d.green, 0, a) as usize,
                                ),
                            )
                        } else {
                            match item_spelling(d, new, c) {
                                Some(t) => held_to(after_push_back(d, path, t), expected, op),
                                None => no(op, Refusal::NoSpelling),
                            }
                        },
                        Err(x) => Err(x),
                    }
                },
                Err(m) => no(op, missed(m, Refusal::NotASequence)),
            },
            Err(m) => no(op, missed(m, Refusal::NotASequence)),
        },
        Err(_) => no(op, Refusal::DoesNotParse),
    }
}

/// The document after a value is inserted as an item below the one at a path.
pub open spec fn after_insert_after_value(d: Doc, path: Seq<u8>, new: Data) -> Result<Doc, Error> {
    let op = Operation::InsertAfterValue;
    let p = path_steps(path);
    let parent = parent_path(path);
    match d.value() {
        Ok((v, _)) => if !(p.len() > 0 && p[p.len() - 1] is Index) {
            no(op, Refusal::NotAnIndex)
        } else {
            let i = p[p.len() - 1]->Index_0;
            match after_insert_item(v, path_steps(parent), i + 1, new) {
                Ok(expected) => match item_anchor(d, path_steps(parent), i, op) {
                    Ok((c, a)) => if covering_aliases(d.source, d.green, 0, a) > 0 {
                        no(
                            op,
                            Refusal::InsideAnchor(
                                covering_aliases(d.source, d.green, 0, a) as usize,
                            ),
                        )
                    } else {
                        match item_spelling(d, new, c) {
                            Some(t) => held_to(after_insert_after(d, path, t), expected, op),
                            None => no(op, Refusal::NoSpelling),
                        }
                    },
                    Err(x) => Err(x),
                },
                Err(m) => no(op, missed(m, Refusal::NotASequence)),
            }
        },
        Err(_) => no(op, Refusal::DoesNotParse),
    }
}

/// Whether a path can address a key.
pub open spec fn addressable(key: Seq<u8>) -> bool {
    !key.contains(DOT) && !key.contains(LBRACKET)
}

/// The lines of a new entry with a spelled value.
pub open spec fn value_entry_text(key: Seq<u8>, t: Seq<u8>, collection: bool, c: int, unit: int) -> Seq<
    u8,
> {
    if collection {
        indented_lines(t, 0, c + unit, spaces(c) + key_text(key) + seq![COLON, NL])
    } else {
        spaces(c) + key_text(key) + seq![COLON, SPACE] + reindented(t, 0, c, Seq::empty()) + seq![NL]
    }
}

/// The document after a value is set under a key in the mapping `m` with span
/// `i`, where the whole must load to `expected`. The steps `q` lead to the value
/// under the key.
pub open spec fn entry_value_set(
    d: Doc,
    sp: Seq<SpanNode>,
    i: int,
    through: bool,
    m: Seq<(Seq<u8>, Data)>,
    key: Seq<u8>,
    q: Seq<Seg>,
    new: Data,
    expected: Data,
) -> Result<Doc, Error> {
    let op = Operation::InsertEntryValue;
    let collection = new is List || new is Dict;
    let own = own_entry(sp, i, m, key);
    let site = match own {
        Some(c) => placed(d, sp[c]),
        None => lowest_entry(d, sp, i),
    };
    if find(m, key) is Some && !addressable(key) {
        no(op, Refusal::NotAddressable)
    } else if own is Some && collection {
        no(op, Refusal::GrowsCollection)
    } else if m.len() == 0 {
        no(op, Refusal::EmptyCollection)
    } else {
        match site {
            Some((a, b)) => if covering_aliases(d.source, d.green, 0, a) > 0 {
                no(
                    op,
                    Refusal::InsideAnchor(covering_aliases(d.source, d.green, 0, a) as usize),
                )
            } else if own is None && inside_flow(d.green, a) {
                no(op, Refusal::NotABlockMapping)
            } else {
                let c = key_column(d.source, d.green, a);
                let pos = after_line(d.source, b);
                match spelled(new, emit_style(d)) {
                    Some(t) => match own {
                        Some(x) => held_to(
                            refilled(d, q, sp[x], through, reindented(t, 0, c, Seq::empty())),
                            expected,
                            op,
                        ),
                        None => held_to(
                            replaced_span(
                                d,
                                pos,
                                pos,
                                lead(d.source, pos) + value_entry_text(
                                    key,
                                    t,
                                    collection,
                                    c,
                                    emit_style(d).unit as int,
                                ),
                            ),
                            expected,
                            op,
                        ),
                    },
                    None => no(op, Refusal::NoSpelling),
                }
            },
            None => no(op, Refusal::NoAnchor),
        }
    }
}

/// The document after a value is set under a key in the mapping at a path.
pub open spec fn after_insert_entry_value(d: Doc, path: Seq<u8>, key: Seq<u8>, new: Data) -> Result<
    Doc,
    Error,
> {
    let op = Operation::InsertEntryValue;
    let p = path_steps(path);
    match d.value() {
        Ok((v, sp)) => if key == "<<".spec_bytes() {
            no(op, Refusal::MergeKeyName)
        } else if non_printable(key, 0) is Some {
            no(op, Refusal::NonPrintable(non_printable(key, 0)->0))
        } else {
            match at(v, p, 0, p.len() as int) {
                Ok(Data::Dict(m)) => match typed_spot(v, sp, 0, p, 0, false) {
                    Some((i, through)) => entry_value_set(
                        d,
                        sp,
                        i,
                        through,
                        m,
                        key,
                        p.push(Seg::Key(key)),
                        new,
                        after_insert_entry(
                            v,
                            p,
                            key,
                            new,
                            children(sp, i + 1, i + sp[i].size),
                        )->Ok_0,
                    ),
                    None => no(op, Refusal::NoAnchor),
                },
                Ok(_) => no(op, Refusal::NotAMapping),
                Err(_) => no(op, Refusal::PathNotFound),
            }
        },
        Err(_) => no(op, Refusal::DoesNotParse),
    }
}

} // verus!
