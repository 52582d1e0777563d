//! Loads the typed value of a document from its syntax tree, together with
//! the byte range of every value and key.
use crate::decode::{block_text, decode_block, decode_double, decode_plain, decode_single, double_text};
use crate::decode::{plain_text, single_text};
use crate::config::ParserConfig;
use crate::error::Error;
use crate::green::{build_tree, built_trees_cover, covering_trees_are_sound, covers, sound, tree, MAX_SOURCE};
use crate::lexis::{flaw, token};
use crate::scalar::{resolve_plain, resolved, Plain};
use crate::siblings::{
    content, enclosing_end, find_content, find_enclosing_end, find_first, first_of, is_vacant,
    next, steps_to, vacant,
};
use crate::syntax::{scalar_kind, is_block_site, Elem, Fault, Flaw, SyntaxKind};
use crate::text::{copy, is_word, slice_is, string_of, utf8_text, BANG};
use crate::value::{
    bytes, data, dicts_are_pointwise, duplicate, find, list, lists_are_pointwise, push_entry,
    push_item, same_string, Data, Mapping, Number, TaggedValue, Value,
};
use vstd::prelude::*;
use vstd::string::*;
use vstd::utf8::*;

verus! {

/// What a span covers.
#[derive(Clone, Copy, PartialEq, Eq, Structural, Debug)]
pub enum SpanKind {
    /// A scalar.
    Leaf,
    /// A sequence.
    List,
    /// A mapping.
    Dict,
    /// An alias; the anchored value's spans follow.
    Alias,
}

/// Where a value stands in the source: its range, the range of its key when
/// it is a mapping value, and how many spans its subtree holds. The spans of
/// a document form a preorder list.
#[derive(Clone, Copy, PartialEq, Eq, Structural, Debug)]
pub struct SpanNode {
    pub kind: SpanKind,
    pub start: usize,
    pub end: usize,
    pub key_start: usize,
    pub key_end: usize,
    pub size: usize,
}

/// A value, its spans and the number of aliases expanded so far.
pub type Loaded = Result<(Data, Seq<SpanNode>, int), Flaw>;

pub open spec fn span(kind: SpanKind, start: int, end: int) -> SpanNode {
    SpanNode { kind, start: start as usize, end: end as usize, key_start: 0, key_end: 0, size: 1 }
}

/// `acc` with the span opened at `at` closed over what follows it.
pub open spec fn sized(acc: Seq<SpanNode>, at: int) -> Seq<SpanNode> {
    if 0 <= at < acc.len() {
        acc.update(
            at,
            SpanNode {
                kind: acc[at].kind,
                start: acc[at].start,
                end: acc[at].end,
                key_start: acc[at].key_start,
                key_end: acc[at].key_end,
                size: (acc.len() - at) as usize,
            },
        )
    } else {
        acc
    }
}

fn size_span(spans: &mut Vec<SpanNode>, at: usize)
    ensures
        final(spans)@ == sized(old(spans)@, at as int),
{
    if at < spans.len() {
        let x: SpanNode = spans[at];
        let n: usize = spans.len();
        spans.set(
            at,
            SpanNode {
                kind: x.kind,
                start: x.start,
                end: x.end,
                key_start: x.key_start,
                key_end: x.key_end,
                size: n - at,
            },
        );
    }
}

/// A value's spans with the range of its key put on the first of them.
pub open spec fn keyed(spans: Seq<SpanNode>, ks: int, ke: int) -> Seq<SpanNode> {
    if spans.len() > 0 {
        spans.update(
            0,
            SpanNode {
                kind: spans[0].kind,
                start: spans[0].start,
                end: spans[0].end,
                key_start: ks as usize,
                key_end: ke as usize,
                size: spans[0].size,
            },
        )
    } else {
        spans
    }
}

fn key_span(spans: &mut Vec<SpanNode>, ks: usize, ke: usize)
    ensures
        final(spans)@ == keyed(old(spans)@, ks as int, ke as int),
{
    if spans.len() > 0 {
        let x: SpanNode = spans[0];
        spans.set(
            0,
            SpanNode {
                kind: x.kind,
                start: x.start,
                end: x.end,
                key_start: ks,
                key_end: ke,
                size: x.size,
            },
        );
    }
}

/// The text a scalar token denotes.
pub open spec fn scalar_text(s: Seq<u8>, e: Elem) -> Option<Seq<u8>> {
    let a = e.start as int;
    let b = e.end as int;
    if e.kind == SyntaxKind::PlainScalar {
        Some(plain_text(s, a, b, Seq::empty()))
    } else if b - a < 2 {
        None
    } else if e.kind == SyntaxKind::SingleQuotedScalar {
        Some(single_text(s, a + 1, b - 1, Seq::empty()))
    } else if e.kind == SyntaxKind::DoubleQuotedScalar {
        double_text(s, a + 1, b - 1, Seq::empty())
    } else {
        Some(block_text(s, a, b))
    }
}

/// Decodes a scalar token.
pub fn decode_scalar(s: &[u8], e: Elem) -> (r: Option<Vec<u8>>)
    requires
        e.start <= e.end <= s@.len(),
        s@.len() <= MAX_SOURCE,
    ensures
        match scalar_text(s@, e) {
            Some(b) => r is Some && r->0@ == b,
            None => r is None,
        },
{
    if e.kind == SyntaxKind::PlainScalar {
        return Some(decode_plain(s, e.start, e.end));
    }
    if e.end - e.start < 2 {
        return None;
    }
    if e.kind == SyntaxKind::SingleQuotedScalar {
        Some(decode_single(s, e.start + 1, e.end - 1))
    } else if e.kind == SyntaxKind::DoubleQuotedScalar {
        decode_double(s, e.start + 1, e.end - 1)
    } else {
        Some(decode_block(s, e.start, e.end))
    }
}

/// Whether a tag makes a string of whatever it marks.
pub open spec fn string_tag(tag: Seq<u8>) -> bool {
    tag == "!!str".spec_bytes() || tag == "!".spec_bytes()
}

/// Whether a tag is one of the core schema, `!!…`.
pub open spec fn core_tag(tag: Seq<u8>) -> bool {
    tag.len() < 2 || tag[1] == BANG
}

/// A value under a tag. The tags of the core schema leave no trace.
pub open spec fn tagged(d: Data, tag: Seq<u8>) -> Data {
    if core_tag(tag) {
        d
    } else {
        Data::Tagged(utf8_text(tag), Box::new(d))
    }
}

fn tag_value(v: Value, tag: &[u8]) -> (r: Value)
    ensures
        r@ == tagged(v@, tag@),
{
    if tag.len() < 2 || tag[1] == BANG {
        return v;
    }
    let name: String = string_of(copy(tag, 0, tag.len()));
    assert(tag@.subrange(0, tag@.len() as int) =~= tag@);
    Value::Tagged(Box::new(TaggedValue { tag: name, value: v }))
}

/// The value of a scalar with text `text`, written plain or not, under a tag.
pub open spec fn scalar_data(text: Seq<u8>, plain: bool, tag: Seq<u8>) -> Data {
    let d = if !plain || string_tag(tag) {
        Data::Text(utf8_text(text))
    } else {
        match resolved(text) {
            Plain::Null => Data::Null,
            Plain::Bool(b) => Data::Bool(b),
            Plain::Int(i) => Data::Int(i),
            Plain::Float => Data::Float(utf8_text(text)),
            Plain::Text => Data::Text(utf8_text(text)),
        }
    };
    tagged(d, tag)
}

fn scalar_value(text: Vec<u8>, plain: bool, tag: &[u8]) -> (r: Value)
    ensures
        r@ == scalar_data(text@, plain, tag@),
{
    let v: Value = if !plain || is_word(tag, "!!str") || is_word(tag, "!") {
        Value::String(string_of(text))
    } else {
        match resolve_plain(text.as_slice()) {
            Plain::Null => Value::Null,
            Plain::Bool(b) => Value::Bool(b),
            Plain::Int(i) => Value::Number(Number::Integer(i)),
            Plain::Float => Value::Number(Number::Float(string_of(text))),
            Plain::Text => Value::String(string_of(text)),
        }
    };
    tag_value(v, tag)
}

/// The tag among the siblings in `lo..hi`; empty when there is none.
pub open spec fn tag_text(s: Seq<u8>, t: Seq<Elem>, lo: int, hi: int) -> Seq<u8> {
    let g = first_of(t, lo, hi, SyntaxKind::TagMark);
    if g < hi {
        s.subrange(t[g].start as int, t[g].end as int)
    } else {
        Seq::empty()
    }
}

fn tag_in(s: &[u8], t: &Vec<Elem>, lo: usize, hi: usize) -> (r: Vec<u8>)
    requires
        lo <= hi <= t@.len(),
        sound(t@, s@.len() as int),
    ensures
        r@ == tag_text(s@, t@, lo as int, hi as int),
{
    let g: usize = find_first(t, lo, hi, SyntaxKind::TagMark);
    if g < hi {
        let e: Elem = t[g];
        assert(t@[g as int] == e);
        copy(s, e.start, e.end)
    } else {
        Vec::new()
    }
}

/// Index of the last anchor before `i` whose name is `name`.
pub open spec fn anchor_before(s: Seq<u8>, t: Seq<Elem>, i: int, name: Seq<u8>) -> Option<int>
    decreases i,
{
    if i <= 0 {
        None
    } else {
        let e = t[i - 1];
        if e.kind == SyntaxKind::AnchorMark && e.end > e.start && s.subrange(
            e.start + 1,
            e.end as int,
        ) == name {
            Some(i - 1)
        } else {
            anchor_before(s, t, i - 1, name)
        }
    }
}

fn find_anchor_before(s: &[u8], t: &Vec<Elem>, hi: usize, name: &[u8]) -> (r: Option<usize>)
    requires
        hi <= t@.len(),
        sound(t@, s@.len() as int),
    ensures
        match anchor_before(s@, t@, hi as int, name@) {
            Some(a) => r is Some && r->0 == a && 0 <= a < hi,
            None => r is None,
        },
{
    let mut i: usize = hi;
    while i > 0
        invariant
            i <= hi <= t@.len(),
            sound(t@, s@.len() as int),
            anchor_before(s@, t@, i as int, name@) == anchor_before(s@, t@, hi as int, name@),
        decreases i,
    {
        let e: Elem = t[i - 1];
        assert(t@[i - 1] == e);
        if e.kind == SyntaxKind::AnchorMark && e.end > e.start && slice_is(
            s,
            e.start + 1,
            e.end,
            name,
        ) {
            return Some(i - 1);
        }
        i -= 1;
    }
    None
}

/// Whether a kind can be the content of a value.
pub open spec fn value_kind(k: SyntaxKind) -> bool {
    ||| scalar_kind(k)
    ||| k == SyntaxKind::AliasMark
    ||| k == SyntaxKind::BlockMapping
    ||| k == SyntaxKind::BlockSequence
    ||| k == SyntaxKind::FlowMapping
    ||| k == SyntaxKind::FlowSequence
}

fn is_value_kind(k: SyntaxKind) -> (r: bool)
    ensures
        r == value_kind(k),
{
    is_block_site(k) || k == SyntaxKind::AliasMark || k == SyntaxKind::BlockMapping || k
        == SyntaxKind::BlockSequence || k == SyntaxKind::FlowMapping || k
        == SyntaxKind::FlowSequence
}

/// End of the element range that the anchor at `a` marks; `a + 1` when it
/// marks nothing.
pub open spec fn anchored_end(t: Seq<Elem>, a: int) -> int {
    let limit = enclosing_end(t, a, a);
    let c = content(t, a + 1, limit);
    if c < limit && value_kind(t[c].kind) {
        next(t, c)
    } else {
        a + 1
    }
}

fn find_anchored_end(t: &Vec<Elem>, a: usize, n: usize) -> (r: usize)
    requires
        a < t@.len(),
        sound(t@, n as int),
    ensures
        r == anchored_end(t@, a as int),
        a < r <= t@.len(),
{
    let limit: usize = find_enclosing_end(t, a, n);
    let c: usize = find_content(t, a + 1, limit);
    if c < limit && is_value_kind(t[c].kind) {
        c + t[c].size
    } else {
        a + 1
    }
}

/// Offset that stands for a value without bytes of its own, whose elements
/// would start at `lo`.
pub open spec fn empty_at(t: Seq<Elem>, lo: int) -> int {
    if 1 < lo <= t.len() {
        t[lo - 1].end as int
    } else {
        0
    }
}

fn offset_of_empty(t: &Vec<Elem>, lo: usize) -> (r: usize)
    ensures
        r == empty_at(t@, lo as int),
{
    if 1 < lo && lo <= t.len() {
        t[lo - 1].end
    } else {
        0
    }
}

/// The key that the elements `lo..hi` spell, and its range. A key that is no
/// scalar has an empty range.
pub open spec fn key_text(s: Seq<u8>, t: Seq<Elem>, lo: int, hi: int) -> Result<
    (Seq<u8>, int, int),
    Flaw,
> {
    let c = content(t, lo, hi);
    if c >= hi {
        Ok((Seq::empty(), empty_at(t, lo), empty_at(t, lo)))
    } else if scalar_kind(t[c].kind) {
        match scalar_text(s, t[c]) {
            Some(b) => Ok((utf8_text(b), t[c].start as int, t[c].end as int)),
            None => Err(flaw(Fault::BadEscape, t[c].start as int)),
        }
    } else if t[c].kind == SyntaxKind::AliasMark && t[c].end > t[c].start {
        match anchor_before(s, t, c, s.subrange(t[c].start + 1, t[c].end as int)) {
            Some(a) => {
                let k = content(t, a + 1, anchored_end(t, a));
                if k < anchored_end(t, a) && scalar_kind(t[k].kind) {
                    match scalar_text(s, t[k]) {
                        Some(b) => Ok((utf8_text(b), t[c].start as int, t[c].start as int)),
                        None => Err(flaw(Fault::BadEscape, t[k].start as int)),
                    }
                } else {
                    Ok((Seq::empty(), t[c].start as int, t[c].start as int))
                }
            },
            None => Err(flaw(Fault::UnknownAnchor, t[c].start as int)),
        }
    } else {
        Ok(
            (
                utf8_text(s.subrange(t[c].start as int, t[c].end as int)),
                t[c].start as int,
                t[c].start as int,
            ),
        )
    }
}

/// Whether the elements `lo..hi` are a plain scalar, as a merge key has to be: a
/// `<<` in quotes, or one that an alias stands for, is an ordinary key.
pub open spec fn plain_key(t: Seq<Elem>, lo: int, hi: int) -> bool {
    let c = content(t, lo, hi);
    c < hi && t[c].kind == SyntaxKind::PlainScalar
}

fn is_plain_key(t: &Vec<Elem>, lo: usize, hi: usize) -> (r: bool)
    requires
        lo <= hi <= t@.len(),
    ensures
        r == plain_key(t@, lo as int, hi as int),
{
    let c: usize = find_content(t, lo, hi);
    c < hi && t[c].kind == SyntaxKind::PlainScalar
}

fn load_key(s: &[u8], t: &Vec<Elem>, lo: usize, hi: usize) -> (r: Result<
    (String, usize, usize),
    Flaw,
>)
    requires
        lo <= hi <= t@.len(),
        sound(t@, s@.len() as int),
        s@.len() <= MAX_SOURCE,
    ensures
        match key_text(s@, t@, lo as int, hi as int) {
            Ok((k, a, b)) => r is Ok && bytes(r->Ok_0.0) == k && r->Ok_0.1 == a && r->Ok_0.2 == b,
            Err(x) => r is Err && r->Err_0 == x,
        },
{
    let c: usize = find_content(t, lo, hi);
    if c >= hi {
        let at: usize = offset_of_empty(t, lo);
        let empty: Vec<u8> = Vec::new();
        let name: String = string_of(empty);
        proof {
            assert(empty@ =~= Seq::empty());
            assert(utf8_text(empty@) =~= Seq::empty());
        }
        return Ok((name, at, at));
    }
    let e: Elem = t[c];
    assert(t@[c as int] == e);
    if is_block_site(e.kind) {
        return match decode_scalar(s, e) {
            Some(b) => Ok((string_of(b), e.start, e.end)),
            None => Err(Flaw { fault: Fault::BadEscape, at: e.start }),
        };
    }
    if e.kind == SyntaxKind::AliasMark && e.end > e.start {
        let name: Vec<u8> = copy(s, e.start + 1, e.end);
        return match find_anchor_before(s, t, c, name.as_slice()) {
            Some(a) => {
                let limit: usize = find_anchored_end(t, a, s.len());
                let k: usize = find_content(t, a + 1, limit);
                if k < limit && is_block_site(t[k].kind) {
                    let f: Elem = t[k];
                    assert(t@[k as int] == f);
                    match decode_scalar(s, f) {
                        Some(b) => Ok((string_of(b), e.start, e.start)),
                        None => Err(Flaw { fault: Fault::BadEscape, at: f.start }),
                    }
                } else {
                    let empty: Vec<u8> = Vec::new();
                    let none: String = string_of(empty);
                    proof {
                        assert(empty@ =~= Seq::empty());
                        assert(utf8_text(empty@) =~= Seq::empty());
                    }
                    Ok((none, e.start, e.start))
                }
            },
            None => Err(Flaw { fault: Fault::UnknownAnchor, at: e.start }),
        };
    }
    Ok((string_of(copy(s, e.start, e.end)), e.start, e.start))
}

/// The concatenation of span lists.
pub open spec fn flattened(trees: Seq<Seq<SpanNode>>) -> Seq<SpanNode>
    decreases trees.len(),
{
    if trees.len() == 0 {
        Seq::empty()
    } else {
        flattened(trees.drop_last()) + trees.last()
    }
}

/// The model of a list of span lists.
pub open spec fn forest(v: Seq<Vec<SpanNode>>) -> Seq<Seq<SpanNode>> {
    v.map_values(|x: Vec<SpanNode>| x@)
}

/// Entries and their spans with one more pair. A key that is there already
/// keeps its place and takes the new value.
pub open spec fn with_pair(
    m: Seq<(Seq<u8>, Data)>,
    trees: Seq<Seq<SpanNode>>,
    key: Seq<u8>,
    d: Data,
    spans: Seq<SpanNode>,
) -> (Seq<(Seq<u8>, Data)>, Seq<Seq<SpanNode>>) {
    match find(m, key) {
        Some(i) => (m.update(i, (key, d)), trees.update(i, spans)),
        None => (m.push((key, d)), trees.push(spans)),
    }
}

fn add_pair(m: &mut Mapping, trees: &mut Vec<Vec<SpanNode>>, key: String, v: Value, spans: Vec<SpanNode>)
    requires
        old(m).entries@.len() == old(trees)@.len(),
    ensures
        (final(m)@, forest(final(trees)@)) == with_pair(
            old(m)@,
            forest(old(trees)@),
            bytes(key),
            v@,
            spans@,
        ),
        final(m).entries@.len() == final(trees)@.len(),
{
    proof {
        dicts_are_pointwise(m.entries@);
    }
    match m.position(key.as_str().as_bytes()) {
        Some(i) => {
            m.entries.set(i, (key, v));
            trees.set(i, spans);
            proof {
                dicts_are_pointwise(m.entries@);
                assert(m@ =~= old(m)@.update(i as int, (bytes(key), v@)));
                assert(forest(trees@) =~= forest(old(trees)@).update(i as int, spans@));
            }
        },
        None => {
            push_entry(&mut m.entries, key, v);
            trees.push(spans);
            proof {
                assert(forest(trees@) =~= forest(old(trees)@).push(spans@));
            }
        },
    }
}

/// A mapping with the entries of `from[i..]` whose keys it lacks added at its
/// end.
pub open spec fn absorbed(
    m: Seq<(Seq<u8>, Data)>,
    from: Seq<(Seq<u8>, Data)>,
    i: int,
) -> Seq<(Seq<u8>, Data)>
    decreases from.len() - i,
{
    if i >= from.len() {
        m
    } else if find(m, from[i].0) is None {
        absorbed(m.push(from[i]), from, i + 1)
    } else {
        absorbed(m, from, i + 1)
    }
}

fn absorb(m: &mut Mapping, from: &Mapping)
    ensures
        final(m)@ == absorbed(old(m)@, from@, 0),
{
    proof {
        dicts_are_pointwise(from.entries@);
    }
    let mut i: usize = 0;
    while i < from.entries.len()
        invariant
            i <= from.entries@.len(),
            from@.len() == from.entries@.len(),
            forall|k: int|
                0 <= k < from.entries@.len() ==> #[trigger] from@[k] == (
                    bytes(from.entries@[k].0),
                    data(from.entries@[k].1),
                ),
            absorbed(m@, from@, i as int) == absorbed(old(m)@, from@, 0),
        decreases from.entries@.len() - i,
    {
        let (k, v) = &from.entries[i];
        assert(from@[i as int] == (bytes(*k), data(*v)));
        if m.position(k.as_str().as_bytes()).is_none() {
            let name: String = same_string(k);
            let copy: Value = duplicate(v);
            push_entry(&mut m.entries, name, copy);
        }
        i += 1;
    }
}

/// A mapping with the mappings in `from[i..]` merged in one after the other;
/// `None` when one of them is no mapping.
pub open spec fn absorbed_all(m: Seq<(Seq<u8>, Data)>, from: Seq<Data>, i: int) -> Option<
    Seq<(Seq<u8>, Data)>,
>
    decreases from.len() - i,
{
    if i >= from.len() {
        Some(m)
    } else {
        match from[i] {
            Data::Dict(x) => absorbed_all(absorbed(m, x, 0), from, i + 1),
            _ => None,
        }
    }
}

/// A mapping with the values of its merge keys merged in.
pub open spec fn merged(m: Seq<(Seq<u8>, Data)>, merges: Seq<Data>, i: int) -> Option<
    Seq<(Seq<u8>, Data)>,
>
    decreases merges.len() - i,
{
    if i >= merges.len() {
        Some(m)
    } else {
        let step = match merges[i] {
            Data::Dict(x) => Some(absorbed(m, x, 0)),
            Data::List(l) => absorbed_all(m, l, 0),
            _ => None,
        };
        match step {
            Some(n) => merged(n, merges, i + 1),
            None => None,
        }
    }
}

fn absorb_all(m: &mut Mapping, from: &Vec<Value>) -> (r: bool)
    ensures
        match absorbed_all(old(m)@, list(from@), 0) {
            Some(x) => r && final(m)@ == x,
            None => !r,
        },
{
    proof {
        lists_are_pointwise(from@);
    }
    let mut i: usize = 0;
    while i < from.len()
        invariant
            i <= from@.len(),
            list(from@).len() == from@.len(),
            forall|k: int| 0 <= k < from@.len() ==> #[trigger] list(from@)[k] == data(from@[k]),
            absorbed_all(m@, list(from@), i as int) == absorbed_all(old(m)@, list(from@), 0),
        decreases from@.len() - i,
    {
        assert(list(from@)[i as int] == data(from@[i as int]));
        match &from[i] {
            Value::Mapping(x) => {
                absorb(m, x);
            },
            _ => {
                return false;
            },
        }
        i += 1;
    }
    true
}

fn merge(m: &mut Mapping, merges: &Vec<Value>) -> (r: bool)
    ensures
        match merged(old(m)@, list(merges@), 0) {
            Some(x) => r && final(m)@ == x,
            None => !r,
        },
{
    proof {
        lists_are_pointwise(merges@);
    }
    let mut i: usize = 0;
    while i < merges.len()
        invariant
            i <= merges@.len(),
            list(merges@).len() == merges@.len(),
            forall|k: int|
                0 <= k < merges@.len() ==> #[trigger] list(merges@)[k] == data(merges@[k]),
            merged(m@, list(merges@), i as int) == merged(old(m)@, list(merges@), 0),
        decreases merges@.len() - i,
    {
        assert(list(merges@)[i as int] == data(merges@[i as int]));
        match &merges[i] {
            Value::Mapping(x) => {
                absorb(m, x);
            },
            Value::Sequence(l) => {
                if !absorb_all(m, l) {
                    return false;
                }
            },
            _ => {
                return false;
            },
        }
        i += 1;
    }
    true
}

/// The entries of a mapping, their spans, the values of its merge keys and
/// the number of aliases expanded so far.
pub type Pairs = Result<(Seq<(Seq<u8>, Data)>, Seq<Seq<SpanNode>>, Seq<Data>, int), Flaw>;

/// The entries read so far with one more key and value. A plain `<<` is a merge
/// key.
pub open spec fn with_member(
    m: Seq<(Seq<u8>, Data)>,
    trees: Seq<Seq<SpanNode>>,
    merges: Seq<Data>,
    key: Result<(Seq<u8>, int, int), Flaw>,
    plain: bool,
    v: Loaded,
) -> Pairs {
    match (key, v) {
        (Ok((k, a, b)), Ok((d, spans, u))) => if plain && k == "<<".spec_bytes() {
            Ok((m, trees, merges.push(d), u))
        } else {
            let (m2, trees2) = with_pair(m, trees, k, d, keyed(spans, a, b));
            Ok((m2, trees2, merges, u))
        },
        (Err(x), _) => Err(x),
        (_, Err(x)) => Err(x),
    }
}

/// The value that the elements `lo..hi` spell.
pub open spec fn load(
    s: Seq<u8>,
    t: Seq<Elem>,
    lo: int,
    hi: int,
    max: int,
    used: int,
    acc: Seq<SpanNode>,
) -> Loaded
    decreases hi, hi - lo, 3int,
{
    let c = content(t, lo, hi);
    let e = t[c];
    let tag = tag_text(s, t, lo, c);
    let end = next(t, c);
    if !(0 <= lo <= hi <= t.len()) {
        Err(flaw(Fault::Tangled, 0))
    } else if c >= hi {
        Ok(
            (
                scalar_data(Seq::empty(), true, tag),
                acc.push(span(SpanKind::Leaf, empty_at(t, lo), empty_at(t, lo))),
                used,
            ),
        )
    } else if !(lo <= c && steps_to(t, c, hi)) {
        Err(flaw(Fault::Tangled, 0))
    } else if content(t, end, hi) < hi {
        Err(flaw(Fault::SecondValue, t[content(t, end, hi)].start as int))
    } else if scalar_kind(e.kind) {
        match scalar_text(s, e) {
            Some(b) => Ok(
                (
                    scalar_data(b, e.kind == SyntaxKind::PlainScalar, tag),
                    acc.push(span(SpanKind::Leaf, e.start as int, e.end as int)),
                    used,
                ),
            ),
            None => Err(flaw(Fault::BadEscape, e.start as int)),
        }
    } else if e.kind == SyntaxKind::AliasMark && e.end > e.start {
        match anchor_before(s, t, c, s.subrange(e.start + 1, e.end as int)) {
            Some(a) => {
                let h = anchored_end(t, a);
                if h > c || a < 0 || h <= a {
                    Err(flaw(Fault::UnknownAnchor, e.start as int))
                } else if used >= max {
                    Err(flaw(Fault::TooManyAliases, e.start as int))
                } else {
                    match load(
                        s,
                        t,
                        a + 1,
                        h,
                        max,
                        used + 1,
                        acc.push(span(SpanKind::Alias, e.start as int, e.end as int)),
                    ) {
                        Ok((d, spans, u)) => Ok((d, sized(spans, acc.len() as int), u)),
                        Err(x) => Err(x),
                    }
                }
            },
            None => Err(flaw(Fault::UnknownAnchor, e.start as int)),
        }
    } else if e.kind == SyntaxKind::BlockMapping {
        finished(
            pairs(s, t, c + 1, end, max, used, Seq::empty(), Seq::empty(), Seq::empty()),
            e,
            tag,
            acc,
        )
    } else if e.kind == SyntaxKind::BlockSequence {
        match items(
            s,
            t,
            c + 1,
            end,
            max,
            used,
            Seq::empty(),
            acc.push(span(SpanKind::List, e.start as int, e.end as int)),
        ) {
            Ok((d, spans, u)) => Ok((tagged(d, tag), sized(spans, acc.len() as int), u)),
            Err(x) => Err(x),
        }
    } else if e.kind == SyntaxKind::FlowMapping || e.kind == SyntaxKind::FlowSequence {
        let close = first_of(t, c + 1, end, SyntaxKind::FlowClose);
        if close >= end || close < c + 2 {
            Err(flaw(Fault::UnclosedFlow, e.start as int))
        } else if e.kind == SyntaxKind::FlowMapping {
            finished(
                flow_pairs(
                    s,
                    t,
                    c + 2,
                    close,
                    max,
                    used,
                    Seq::empty(),
                    Seq::empty(),
                    Seq::empty(),
                ),
                e,
                tag,
                acc,
            )
        } else {
            match flow_items(
                s,
                t,
                c + 2,
                close,
                max,
                used,
                Seq::empty(),
                acc.push(span(SpanKind::List, e.start as int, e.end as int)),
            ) {
                Ok((d, spans, u)) => Ok((tagged(d, tag), sized(spans, acc.len() as int), u)),
                Err(x) => Err(x),
            }
        }
    } else {
        Err(flaw(Fault::Unexpected, e.start as int))
    }
}

/// A mapping made of its entries once its merge keys are resolved.
pub open spec fn finished(p: Pairs, e: Elem, tag: Seq<u8>, acc: Seq<SpanNode>) -> Loaded {
    match p {
        Ok((m, trees, merges, u)) => match merged(m, merges, 0) {
            Some(x) => Ok(
                (
                    tagged(Data::Dict(x), tag),
                    sized(
                        acc.push(span(SpanKind::Dict, e.start as int, e.end as int)) + flattened(
                            trees,
                        ),
                        acc.len() as int,
                    ),
                    u,
                ),
            ),
            None => Err(flaw(Fault::BadMerge, e.start as int)),
        },
        Err(x) => Err(x),
    }
}

/// The entries of a block mapping from the element at `i` on.
pub open spec fn pairs(
    s: Seq<u8>,
    t: Seq<Elem>,
    i: int,
    hi: int,
    max: int,
    used: int,
    m: Seq<(Seq<u8>, Data)>,
    trees: Seq<Seq<SpanNode>>,
    merges: Seq<Data>,
) -> Pairs
    decreases hi, hi - i, 2int,
{
    let end = next(t, i);
    if !steps_to(t, i, hi) {
        Ok((m, trees, merges, used))
    } else if t[i].kind != SyntaxKind::MappingEntry {
        pairs(s, t, end, hi, max, used, m, trees, merges)
    } else {
        let x = first_of(t, i + 1, end, SyntaxKind::ColonIndicator);
        let from = if x < end {
            x + 1
        } else {
            end
        };
        if !(i < from) {
            Err(flaw(Fault::Tangled, 0))
        } else {
            match with_member(
                m,
                trees,
                merges,
                key_text(s, t, i + 1, x),
                plain_key(t, i + 1, x),
                load(s, t, from, end, max, used, Seq::empty()),
            ) {
                Ok((m2, trees2, merges2, u)) => pairs(
                    s,
                    t,
                    end,
                    hi,
                    max,
                    u,
                    m2,
                    trees2,
                    merges2,
                ),
                Err(y) => Err(y),
            }
        }
    }
}

/// The items of a block sequence from the element at `i` on.
pub open spec fn items(
    s: Seq<u8>,
    t: Seq<Elem>,
    i: int,
    hi: int,
    max: int,
    used: int,
    l: Seq<Data>,
    acc: Seq<SpanNode>,
) -> Loaded
    decreases hi, hi - i, 2int,
{
    let end = next(t, i);
    if !steps_to(t, i, hi) {
        Ok((Data::List(l), acc, used))
    } else if t[i].kind != SyntaxKind::SequenceItem {
        items(s, t, end, hi, max, used, l, acc)
    } else {
        let x = first_of(t, i + 1, end, SyntaxKind::DashIndicator);
        let from = if x < end {
            x + 1
        } else {
            end
        };
        if !(i < from) {
            Err(flaw(Fault::Tangled, 0))
        } else {
            match load(s, t, from, end, max, used, acc) {
                Ok((d, spans, u)) => items(s, t, end, hi, max, u, l.push(d), spans),
                Err(y) => Err(y),
            }
        }
    }
}

/// The members of a flow mapping from the element at `i` up to its closing
/// bracket.
pub open spec fn flow_pairs(
    s: Seq<u8>,
    t: Seq<Elem>,
    i: int,
    close: int,
    max: int,
    used: int,
    m: Seq<(Seq<u8>, Data)>,
    trees: Seq<Seq<SpanNode>>,
    merges: Seq<Data>,
) -> Pairs
    decreases close, close - i, 2int,
{
    let j = first_of(t, i, close, SyntaxKind::CommaIndicator);
    if i >= close || vacant(t, i, j) {
        if j < close && i < close {
            Err(flaw(Fault::EmptyMember, t[j].start as int))
        } else {
            Ok((m, trees, merges, used))
        }
    } else {
        let x = first_of(t, i, j, SyntaxKind::ColonIndicator);
        let from = if x < j {
            x + 1
        } else {
            j
        };
        if !(0 <= i < from <= j <= close) {
            Err(flaw(Fault::Tangled, 0))
        } else {
            match with_member(
                m,
                trees,
                merges,
                key_text(s, t, i, x),
                plain_key(t, i, x),
                load(s, t, from, j, max, used, Seq::empty()),
            ) {
                Ok((m2, trees2, merges2, u)) => if j < close {
                    flow_pairs(s, t, j + 1, close, max, u, m2, trees2, merges2)
                } else {
                    Ok((m2, trees2, merges2, u))
                },
                Err(y) => Err(y),
            }
        }
    }
}

/// The members of a flow sequence from the element at `i` up to its closing
/// bracket. A member with a `:` is a mapping of one entry.
pub open spec fn flow_items(
    s: Seq<u8>,
    t: Seq<Elem>,
    i: int,
    close: int,
    max: int,
    used: int,
    l: Seq<Data>,
    acc: Seq<SpanNode>,
) -> Loaded
    decreases close, close - i, 5int,
{
    let j = first_of(t, i, close, SyntaxKind::CommaIndicator);
    if i >= close || vacant(t, i, j) {
        if j < close && i < close {
            Err(flaw(Fault::EmptyMember, t[j].start as int))
        } else {
            Ok((Data::List(l), acc, used))
        }
    } else {
        let x = first_of(t, i, j, SyntaxKind::ColonIndicator);
        if !(0 <= i <= x && x <= j <= close) {
            Err(flaw(Fault::Tangled, 0))
        } else {
            let one: Loaded = if x < j {
                single_pair(
                    key_text(s, t, i, x),
                    plain_key(t, i, x),
                    load(s, t, x + 1, j, max, used, Seq::empty()),
                    acc,
                )
            } else {
                load(s, t, i, j, max, used, acc)
            };
            match one {
                Ok((d, spans, u)) => if j < close {
                    flow_items(s, t, j + 1, close, max, u, l.push(d), spans)
                } else {
                    Ok((Data::List(l.push(d)), spans, u))
                },
                Err(y) => Err(y),
            }
        }
    }
}

/// A mapping of one entry inside a flow sequence.
pub open spec fn single_pair(
    key: Result<(Seq<u8>, int, int), Flaw>,
    plain: bool,
    v: Loaded,
    acc: Seq<SpanNode>,
) -> Loaded {
    match (key, v) {
        (Ok((k, a, b)), Ok((d, spans, u))) => {
            let end = if spans.len() > 0 {
                spans[0].end as int
            } else {
                b
            };
            finished(
                with_member(Seq::empty(), Seq::empty(), Seq::empty(), key, plain, v),
                token(SyntaxKind::FlowMapping, a, end),
                Seq::empty(),
                acc,
            )
        },
        (Err(x), _) => Err(x),
        (_, Err(x)) => Err(x),
    }
}

/// Whether a run of the loader agrees with its model.
pub open spec fn loads(
    r: Result<Value, Flaw>,
    spans: Seq<SpanNode>,
    used: usize,
    model: Loaded,
    max: int,
) -> bool {
    match model {
        Ok((d, sp, u)) => r is Ok && r->Ok_0@ == d && spans == sp && used == u && used <= max,
        Err(x) => r is Err && r->Err_0 == x,
    }
}

fn append_spans(out: &mut Vec<SpanNode>, spans: &Vec<SpanNode>)
    ensures
        final(out)@ == old(out)@ + spans@,
{
    let mut i: usize = 0;
    while i < spans.len()
        invariant
            i <= spans@.len(),
            out@ =~= old(out)@ + spans@.subrange(0, i as int),
        decreases spans@.len() - i,
    {
        out.push(spans[i]);
        i += 1;
    }
    assert(spans@.subrange(0, spans@.len() as int) =~= spans@);
}

fn append_forest(out: &mut Vec<SpanNode>, trees: &Vec<Vec<SpanNode>>)
    ensures
        final(out)@ == old(out)@ + flattened(forest(trees@)),
{
    let mut i: usize = 0;
    assert(forest(trees@).subrange(0, 0) =~= Seq::empty());
    while i < trees.len()
        invariant
            i <= trees@.len(),
            out@ =~= old(out)@ + flattened(forest(trees@).subrange(0, i as int)),
        decreases trees@.len() - i,
    {
        let ghost before = out@;
        append_spans(out, &trees[i]);
        proof {
            let next_part = forest(trees@).subrange(0, i + 1);
            assert(next_part.drop_last() =~= forest(trees@).subrange(0, i as int));
            assert(next_part.last() == trees@[i as int]@);
            assert(out@ =~= old(out)@ + flattened(next_part));
        }
        i += 1;
    }
    assert(forest(trees@).subrange(0, trees@.len() as int) =~= forest(trees@));
}

fn fail(fault: Fault, at: usize) -> (r: Result<Value, Flaw>)
    ensures
        r is Err,
        r->Err_0 == flaw(fault, at as int),
{
    Err(Flaw { fault, at })
}

fn load_value(
    s: &[u8],
    t: &Vec<Elem>,
    lo: usize,
    hi: usize,
    max: usize,
    used: &mut usize,
    spans: &mut Vec<SpanNode>,
) -> (r: Result<Value, Flaw>)
    requires
        lo <= hi <= t@.len(),
        sound(t@, s@.len() as int),
        s@.len() <= MAX_SOURCE,
        *old(used) <= max,
    ensures
        loads(
            r,
            final(spans)@,
            *final(used),
            load(
                s@,
                t@,
                lo as int,
                hi as int,
                max as int,
                *old(used) as int,
                old(spans)@,
            ),
            max as int,
        ),
    decreases hi, hi - lo, 3int,
{
    let c: usize = find_content(t, lo, hi);
    let tag: Vec<u8> = tag_in(s, t, lo, c);
    if c >= hi {
        let at: usize = offset_of_empty(t, lo);
        spans.push(
            SpanNode { kind: SpanKind::Leaf, start: at, end: at, key_start: 0, key_end: 0, size: 1 },
        );
        let empty: Vec<u8> = Vec::new();
        assert(empty@ =~= Seq::empty());
        return Ok(scalar_value(empty, true, tag.as_slice()));
    }
    let e: Elem = t[c];
    assert(t@[c as int] == e);
    let end: usize = c + e.size;
    let second: usize = find_content(t, end, hi);
    if second < hi {
        return fail(Fault::SecondValue, t[second].start);
    }
    if is_block_site(e.kind) {
        return match decode_scalar(s, e) {
            Some(b) => {
                spans.push(
                    SpanNode {
                        kind: SpanKind::Leaf,
                        start: e.start,
                        end: e.end,
                        key_start: 0,
                        key_end: 0,
                        size: 1,
                    },
                );
                Ok(scalar_value(b, e.kind == SyntaxKind::PlainScalar, tag.as_slice()))
            },
            None => fail(Fault::BadEscape, e.start),
        };
    }
    let at: usize = spans.len();
    if e.kind == SyntaxKind::AliasMark && e.end > e.start {
        let name: Vec<u8> = copy(s, e.start + 1, e.end);
        return match find_anchor_before(s, t, c, name.as_slice()) {
            Some(a) => {
                let h: usize = find_anchored_end(t, a, s.len());
                if h > c {
                    fail(Fault::UnknownAnchor, e.start)
                } else if *used >= max {
                    fail(Fault::TooManyAliases, e.start)
                } else {
                    *used = *used + 1;
                    spans.push(
                        SpanNode {
                            kind: SpanKind::Alias,
                            start: e.start,
                            end: e.end,
                            key_start: 0,
                            key_end: 0,
                            size: 1,
                        },
                    );
                    match load_value(s, t, a + 1, h, max, used, spans) {
                        Ok(v) => {
                            size_span(spans, at);
                            Ok(v)
                        },
                        Err(x) => Err(x),
                    }
                }
            },
            None => fail(Fault::UnknownAnchor, e.start),
        };
    }
    if e.kind == SyntaxKind::BlockMapping {
        let mut m: Mapping = Mapping { entries: Vec::new() };
        let mut trees: Vec<Vec<SpanNode>> = Vec::new();
        let mut merges: Vec<Value> = Vec::new();
        proof {
            assert(forest(trees@) =~= Seq::empty());
        }
        return match load_pairs(s, t, c + 1, end, max, used, &mut m, &mut trees, &mut merges) {
            Some(x) => Err(x),
            None => finish(m, trees, merges, e, tag.as_slice(), spans),
        };
    }
    if e.kind == SyntaxKind::BlockSequence {
        spans.push(
            SpanNode {
                kind: SpanKind::List,
                start: e.start,
                end: e.end,
                key_start: 0,
                key_end: 0,
                size: 1,
            },
        );
        return match load_items(s, t, c + 1, end, max, used, spans) {
            Ok(v) => {
                size_span(spans, at);
                Ok(tag_value(v, tag.as_slice()))
            },
            Err(x) => Err(x),
        };
    }
    if e.kind == SyntaxKind::FlowMapping || e.kind == SyntaxKind::FlowSequence {
        let close: usize = find_first(t, c + 1, end, SyntaxKind::FlowClose);
        if close >= end || close < c + 2 {
            return fail(Fault::UnclosedFlow, e.start);
        }
        if e.kind == SyntaxKind::FlowMapping {
            let mut m: Mapping = Mapping { entries: Vec::new() };
            let mut trees: Vec<Vec<SpanNode>> = Vec::new();
            let mut merges: Vec<Value> = Vec::new();
            proof {
                assert(forest(trees@) =~= Seq::empty());
            }
            return match load_flow_pairs(
                s,
                t,
                c + 2,
                close,
                max,
                used,
                &mut m,
                &mut trees,
                &mut merges,
            ) {
                Some(x) => Err(x),
                None => finish(m, trees, merges, e, tag.as_slice(), spans),
            };
        }
        spans.push(
            SpanNode {
                kind: SpanKind::List,
                start: e.start,
                end: e.end,
                key_start: 0,
                key_end: 0,
                size: 1,
            },
        );
        return match load_flow_items(s, t, c + 2, close, max, used, spans) {
            Ok(v) => {
                size_span(spans, at);
                Ok(tag_value(v, tag.as_slice()))
            },
            Err(x) => Err(x),
        };
    }
    fail(Fault::Unexpected, e.start)
}

fn finish(
    m: Mapping,
    trees: Vec<Vec<SpanNode>>,
    merges: Vec<Value>,
    e: Elem,
    tag: &[u8],
    spans: &mut Vec<SpanNode>,
) -> (r: Result<Value, Flaw>)
    ensures
        forall|u: int| #![trigger finished(Ok((m@, forest(trees@), list(merges@), u)), e, tag@, old(spans)@)]
            match finished(Ok((m@, forest(trees@), list(merges@), u)), e, tag@, old(spans)@) {
                Ok((d, sp, w)) => r is Ok && r->Ok_0@ == d && final(spans)@ == sp && w == u,
                Err(x) => r is Err && r->Err_0 == x,
            },
{
    let mut whole: Mapping = m;
    if !merge(&mut whole, &merges) {
        return fail(Fault::BadMerge, e.start);
    }
    let at: usize = spans.len();
    spans.push(
        SpanNode {
            kind: SpanKind::Dict,
            start: e.start,
            end: e.end,
            key_start: 0,
            key_end: 0,
            size: 1,
        },
    );
    append_forest(spans, &trees);
    size_span(spans, at);
    Ok(tag_value(Value::Mapping(whole), tag))
}

/// Whether reading the entries of a mapping agrees with its model.
pub open spec fn reads(
    r: Option<Flaw>,
    m: Mapping,
    trees: Seq<Vec<SpanNode>>,
    merges: Seq<Value>,
    used: usize,
    model: Pairs,
    max: int,
) -> bool {
    match model {
        Ok((x, y, z, u)) => r is None && m@ == x && forest(trees) == y && list(merges) == z && used
            == u && used <= max,
        Err(e) => r == Some(e),
    }
}

/// Reads one key and its value.
fn load_member(
    s: &[u8],
    t: &Vec<Elem>,
    key_lo: usize,
    key_hi: usize,
    lo: usize,
    hi: usize,
    max: usize,
    used: &mut usize,
    m: &mut Mapping,
    trees: &mut Vec<Vec<SpanNode>>,
    merges: &mut Vec<Value>,
) -> (r: Option<Flaw>)
    requires
        key_lo <= key_hi <= t@.len(),
        lo <= hi <= t@.len(),
        sound(t@, s@.len() as int),
        s@.len() <= MAX_SOURCE,
        *old(used) <= max,
        old(m).entries@.len() == old(trees)@.len(),
    ensures
        final(m).entries@.len() == final(trees)@.len(),
        reads(
            r,
            *final(m),
            final(trees)@,
            final(merges)@,
            *final(used),
            with_member(
                old(m)@,
                forest(old(trees)@),
                list(old(merges)@),
                key_text(s@, t@, key_lo as int, key_hi as int),
                plain_key(t@, key_lo as int, key_hi as int),
                load(
                    s@,
                    t@,
                    lo as int,
                    hi as int,
                    max as int,
                    *old(used) as int,
                    Seq::empty(),
                ),
            ),
            max as int,
        ),
    decreases hi, hi - lo, 4int,
{
    match load_key(s, t, key_lo, key_hi) {
        Ok((k, a, b)) => {
            let mut spans: Vec<SpanNode> = Vec::new();
            assert(spans@ =~= Seq::empty());
            match load_value(s, t, lo, hi, max, used, &mut spans) {
                Ok(v) => {
                    if is_plain_key(t, key_lo, key_hi) && is_word(k.as_str().as_bytes(), "<<") {
                        push_item(merges, v);
                    } else {
                        key_span(&mut spans, a, b);
                        add_pair(m, trees, k, v, spans);
                    }
                    None
                },
                Err(x) => Some(x),
            }
        },
        Err(x) => Some(x),
    }
}

fn load_pairs(
    s: &[u8],
    t: &Vec<Elem>,
    lo: usize,
    hi: usize,
    max: usize,
    used: &mut usize,
    m: &mut Mapping,
    trees: &mut Vec<Vec<SpanNode>>,
    merges: &mut Vec<Value>,
) -> (r: Option<Flaw>)
    requires
        lo <= hi <= t@.len(),
        sound(t@, s@.len() as int),
        s@.len() <= MAX_SOURCE,
        *old(used) <= max,
        old(m).entries@.len() == old(trees)@.len(),
    ensures
        reads(
            r,
            *final(m),
            final(trees)@,
            final(merges)@,
            *final(used),
            pairs(
                s@,
                t@,
                lo as int,
                hi as int,
                max as int,
                *old(used) as int,
                old(m)@,
                forest(old(trees)@),
                list(old(merges)@),
            ),
            max as int,
        ),
    decreases hi, hi - lo, 2int,
{
    let ghost model = pairs(
        s@,
        t@,
        lo as int,
        hi as int,
        max as int,
        *used as int,
        m@,
        forest(trees@),
        list(merges@),
    );
    let mut i: usize = lo;
    while i < hi
        invariant
            lo <= i <= hi <= t@.len(),
            sound(t@, s@.len() as int),
            s@.len() <= MAX_SOURCE,
            *used <= max,
            m.entries@.len() == trees@.len(),
            model == pairs(
                s@,
                t@,
                i as int,
                hi as int,
                max as int,
                *used as int,
                m@,
                forest(trees@),
                list(merges@),
            ),
            model == pairs(
                s@,
                t@,
                lo as int,
                hi as int,
                max as int,
                *old(used) as int,
                old(m)@,
                forest(old(trees)@),
                list(old(merges)@),
            ),
        decreases hi - i,
    {
        let e: Elem = t[i];
        assert(t@[i as int] == e);
        if e.size > hi - i {
            return None;
        }
        let end: usize = i + e.size;
        if e.kind == SyntaxKind::MappingEntry {
            let x: usize = find_first(t, i + 1, end, SyntaxKind::ColonIndicator);
            let from: usize = if x < end {
                x + 1
            } else {
                end
            };
            if let Some(y) = load_member(s, t, i + 1, x, from, end, max, used, m, trees, merges) {
                return Some(y);
            }
        }
        i = end;
    }
    None
}

fn load_items(
    s: &[u8],
    t: &Vec<Elem>,
    lo: usize,
    hi: usize,
    max: usize,
    used: &mut usize,
    spans: &mut Vec<SpanNode>,
) -> (r: Result<Value, Flaw>)
    requires
        lo <= hi <= t@.len(),
        sound(t@, s@.len() as int),
        s@.len() <= MAX_SOURCE,
        *old(used) <= max,
    ensures
        loads(
            r,
            final(spans)@,
            *final(used),
            items(
                s@,
                t@,
                lo as int,
                hi as int,
                max as int,
                *old(used) as int,
                Seq::empty(),
                old(spans)@,
            ),
            max as int,
        ),
    decreases hi, hi - lo, 2int,
{
    let mut l: Vec<Value> = Vec::new();
    assert(list(l@) =~= Seq::empty());
    let ghost model = items(
        s@,
        t@,
        lo as int,
        hi as int,
        max as int,
        *used as int,
        Seq::empty(),
        spans@,
    );
    let mut i: usize = lo;
    while i < hi
        invariant
            lo <= i <= hi <= t@.len(),
            sound(t@, s@.len() as int),
            s@.len() <= MAX_SOURCE,
            *used <= max,
            model == items(
                s@,
                t@,
                i as int,
                hi as int,
                max as int,
                *used as int,
                list(l@),
                spans@,
            ),
            model == items(
                s@,
                t@,
                lo as int,
                hi as int,
                max as int,
                *old(used) as int,
                Seq::empty(),
                old(spans)@,
            ),
        decreases hi - i,
    {
        let e: Elem = t[i];
        assert(t@[i as int] == e);
        if e.size > hi - i {
            return Ok(Value::Sequence(l));
        }
        let end: usize = i + e.size;
        if e.kind == SyntaxKind::SequenceItem {
            let x: usize = find_first(t, i + 1, end, SyntaxKind::DashIndicator);
            let from: usize = if x < end {
                x + 1
            } else {
                end
            };
            match load_value(s, t, from, end, max, used, spans) {
                Ok(v) => {
                    push_item(&mut l, v);
                },
                Err(y) => {
                    return Err(y);
                },
            }
        }
        i = end;
    }
    Ok(Value::Sequence(l))
}

fn load_flow_pairs(
    s: &[u8],
    t: &Vec<Elem>,
    lo: usize,
    close: usize,
    max: usize,
    used: &mut usize,
    m: &mut Mapping,
    trees: &mut Vec<Vec<SpanNode>>,
    merges: &mut Vec<Value>,
) -> (r: Option<Flaw>)
    requires
        lo <= close < t@.len(),
        sound(t@, s@.len() as int),
        s@.len() <= MAX_SOURCE,
        *old(used) <= max,
        old(m).entries@.len() == old(trees)@.len(),
    ensures
        reads(
            r,
            *final(m),
            final(trees)@,
            final(merges)@,
            *final(used),
            flow_pairs(
                s@,
                t@,
                lo as int,
                close as int,
                max as int,
                *old(used) as int,
                old(m)@,
                forest(old(trees)@),
                list(old(merges)@),
            ),
            max as int,
        ),
    decreases close, close - lo, 2int,
{
    let ghost model = flow_pairs(
        s@,
        t@,
        lo as int,
        close as int,
        max as int,
        *used as int,
        m@,
        forest(trees@),
        list(merges@),
    );
    let mut i: usize = lo;
    while i < close
        invariant
            lo <= i <= close < t@.len(),
            sound(t@, s@.len() as int),
            s@.len() <= MAX_SOURCE,
            *used <= max,
            m.entries@.len() == trees@.len(),
            model == flow_pairs(
                s@,
                t@,
                i as int,
                close as int,
                max as int,
                *used as int,
                m@,
                forest(trees@),
                list(merges@),
            ),
            model == flow_pairs(
                s@,
                t@,
                lo as int,
                close as int,
                max as int,
                *old(used) as int,
                old(m)@,
                forest(old(trees)@),
                list(old(merges)@),
            ),
        decreases close - i,
    {
        let j: usize = find_first(t, i, close, SyntaxKind::CommaIndicator);
        if is_vacant(t, i, j) {
            if j < close {
                return Some(Flaw { fault: Fault::EmptyMember, at: t[j].start });
            }
            return None;
        }
        assert(i < j);
        let x: usize = find_first(t, i, j, SyntaxKind::ColonIndicator);
        let from: usize = if x < j {
            x + 1
        } else {
            j
        };
        if let Some(y) = load_member(s, t, i, x, from, j, max, used, m, trees, merges) {
            return Some(y);
        }
        if j >= close {
            return None;
        }
        i = j + 1;
    }
    None
}

fn load_flow_items(
    s: &[u8],
    t: &Vec<Elem>,
    lo: usize,
    close: usize,
    max: usize,
    used: &mut usize,
    spans: &mut Vec<SpanNode>,
) -> (r: Result<Value, Flaw>)
    requires
        lo <= close < t@.len(),
        sound(t@, s@.len() as int),
        s@.len() <= MAX_SOURCE,
        *old(used) <= max,
    ensures
        loads(
            r,
            final(spans)@,
            *final(used),
            flow_items(
                s@,
                t@,
                lo as int,
                close as int,
                max as int,
                *old(used) as int,
                Seq::empty(),
                old(spans)@,
            ),
            max as int,
        ),
    decreases close, close - lo, 5int,
{
    let mut l: Vec<Value> = Vec::new();
    assert(list(l@) =~= Seq::empty());
    let ghost model = flow_items(
        s@,
        t@,
        lo as int,
        close as int,
        max as int,
        *used as int,
        Seq::empty(),
        spans@,
    );
    let mut i: usize = lo;
    while i < close
        invariant
            lo <= i <= close < t@.len(),
            sound(t@, s@.len() as int),
            s@.len() <= MAX_SOURCE,
            *used <= max,
            model == flow_items(
                s@,
                t@,
                i as int,
                close as int,
                max as int,
                *used as int,
                list(l@),
                spans@,
            ),
            model == flow_items(
                s@,
                t@,
                lo as int,
                close as int,
                max as int,
                *old(used) as int,
                Seq::empty(),
                old(spans)@,
            ),
        decreases close - i,
    {
        let j: usize = find_first(t, i, close, SyntaxKind::CommaIndicator);
        if is_vacant(t, i, j) {
            if j < close {
                return fail(Fault::EmptyMember, t[j].start);
            }
            return Ok(Value::Sequence(l));
        }
        assert(i < j);
        let x: usize = find_first(t, i, j, SyntaxKind::ColonIndicator);
        let one: Result<Value, Flaw> = if x < j {
            load_single_pair(s, t, i, x, j, max, used, spans)
        } else {
            load_value(s, t, i, j, max, used, spans)
        };
        match one {
            Ok(v) => {
                push_item(&mut l, v);
            },
            Err(y) => {
                return Err(y);
            },
        }
        if j >= close {
            return Ok(Value::Sequence(l));
        }
        i = j + 1;
    }
    Ok(Value::Sequence(l))
}

/// Reads a mapping of one entry inside a flow sequence.
fn load_single_pair(
    s: &[u8],
    t: &Vec<Elem>,
    i: usize,
    x: usize,
    j: usize,
    max: usize,
    used: &mut usize,
    spans: &mut Vec<SpanNode>,
) -> (r: Result<Value, Flaw>)
    requires
        i <= x < j <= t@.len(),
        sound(t@, s@.len() as int),
        s@.len() <= MAX_SOURCE,
        *old(used) <= max,
    ensures
        loads(
            r,
            final(spans)@,
            *final(used),
            single_pair(
                key_text(s@, t@, i as int, x as int),
                plain_key(t@, i as int, x as int),
                load(
                    s@,
                    t@,
                    x + 1,
                    j as int,
                    max as int,
                    *old(used) as int,
                    Seq::empty(),
                ),
                old(spans)@,
            ),
            max as int,
        ),
    decreases j, j - x, 1int,
{
    match load_key(s, t, i, x) {
        Ok((k, a, b)) => {
            let mut inner: Vec<SpanNode> = Vec::new();
            assert(inner@ =~= Seq::empty());
            match load_value(s, t, x + 1, j, max, used, &mut inner) {
                Ok(v) => {
                    let end: usize = if inner.len() > 0 {
                        inner[0].end
                    } else {
                        b
                    };
                    let mut m: Mapping = Mapping { entries: Vec::new() };
                    let mut trees: Vec<Vec<SpanNode>> = Vec::new();
                    let mut merges: Vec<Value> = Vec::new();
                    proof {
                        assert(m@ =~= Seq::empty());
                        assert(forest(trees@) =~= Seq::empty());
                        assert(list(merges@) =~= Seq::empty());
                    }
                    if is_plain_key(t, i, x) && is_word(k.as_str().as_bytes(), "<<") {
                        push_item(&mut merges, v);
                    } else {
                        key_span(&mut inner, a, b);
                        add_pair(&mut m, &mut trees, k, v, inner);
                    }
                    let none: Vec<u8> = Vec::new();
                    assert(none@ =~= Seq::empty());
                    let e: Elem = Elem { kind: SyntaxKind::FlowMapping, start: a, end, size: 1 };
                    finish(m, trees, merges, e, none.as_slice(), spans)
                },
                Err(y) => Err(y),
            }
        },
        Err(y) => Err(y),
    }
}

/// Number of elements of a kind among the first `i`.
pub open spec fn count_of(t: Seq<Elem>, kind: SyntaxKind, i: int) -> int
    decreases i,
{
    if i <= 0 {
        0
    } else {
        count_of(t, kind, i - 1) + if t[i - 1].kind == kind {
            1int
        } else {
            0int
        }
    }
}

/// Counts the elements of a kind.
pub fn count_kind(t: &Vec<Elem>, kind: SyntaxKind) -> (r: usize)
    ensures
        r == count_of(t@, kind, t@.len() as int),
        r <= t@.len(),
{
    let mut i: usize = 0;
    let mut n: usize = 0;
    while i < t.len()
        invariant
            i <= t@.len(),
            n == count_of(t@, kind, i as int),
            n <= i,
        decreases t@.len() - i,
    {
        if t[i].kind == kind {
            n += 1;
        }
        i += 1;
    }
    n
}

/// Whether a tree has more aliases than its anchors allow. Without an anchor
/// there is nothing to allow any, and each alias is wrong by itself.
pub open spec fn over_ratio(t: Seq<Elem>, ratio: Option<usize>) -> bool {
    let anchors = count_of(t, SyntaxKind::AnchorMark, t.len() as int);
    match ratio {
        Some(k) => anchors > 0 && count_of(t, SyntaxKind::AliasMark, t.len() as int) > k * anchors,
        None => false,
    }
}

fn is_over_ratio(t: &Vec<Elem>, ratio: Option<usize>) -> (r: bool)
    ensures
        r == over_ratio(t@, ratio),
{
    match ratio {
        Some(k) => {
            let aliases: usize = count_kind(t, SyntaxKind::AliasMark);
            let anchors: usize = count_kind(t, SyntaxKind::AnchorMark);
            assert(0 <= k * anchors <= 0xffff_ffff_ffff_ffff * 0xffff_ffff_ffff_ffff)
                by (nonlinear_arith)
                requires
                    0 <= k <= 0xffff_ffff_ffff_ffff,
                    0 <= anchors <= 0xffff_ffff_ffff_ffff,
            ;
            anchors > 0 && (aliases as u128) > (k as u128) * (anchors as u128)
        },
        None => false,
    }
}

/// The value and spans that a syntax tree spells.
#[verifier::opaque]
pub open spec fn tree_value(s: Seq<u8>, t: Seq<Elem>, config: ParserConfig) -> Result<
    (Data, Seq<SpanNode>),
    Flaw,
> {
    if over_ratio(t, config.alias_anchor_ratio) {
        Err(flaw(Fault::AliasRatio, 0))
    } else {
        match load(
            s,
            t,
            1,
            t.len() as int,
            config.max_alias_expansions as int,
            0,
            Seq::empty(),
        ) {
            Ok((d, spans, _)) => Ok((d, spans)),
            Err(x) => Err(x),
        }
    }
}

/// The value and spans of a source, or why it has none.
pub open spec fn source_value(s: Seq<u8>, config: ParserConfig) -> Result<(Data, Seq<SpanNode>), Flaw> {
    match tree(s, config.max_depth as nat) {
        Ok(t) => tree_value(s, t, config),
        Err(x) => Err(x),
    }
}

/// Loads the value of a syntax tree.
pub fn load_tree(s: &[u8], t: &Vec<Elem>, config: &ParserConfig) -> (r: Result<
    (Value, Vec<SpanNode>),
    Flaw,
>)
    requires
        covers(t@, s@.len() as int),
        s@.len() <= MAX_SOURCE,
    ensures
        match tree_value(s@, t@, *config) {
            Ok((d, spans)) => r is Ok && r->Ok_0.0@ == d && r->Ok_0.1@ == spans,
            Err(x) => r is Err && r->Err_0 == x,
        },
{
    proof {
        reveal(tree_value);
        covering_trees_are_sound(t@, s@.len() as int);
    }
    if is_over_ratio(t, config.alias_anchor_ratio) {
        return Err(Flaw { fault: Fault::AliasRatio, at: 0 });
    }
    let mut used: usize = 0;
    let mut spans: Vec<SpanNode> = Vec::new();
    assert(spans@ =~= Seq::empty());
    match load_value(s, t, 1, t.len(), config.max_alias_expansions, &mut used, &mut spans) {
        Ok(v) => Ok((v, spans)),
        Err(x) => Err(x),
    }
}

/// Loads the value of a source.
pub fn load_source(s: &[u8], config: &ParserConfig) -> (r: Result<(Value, Vec<SpanNode>), Flaw>)
    ensures
        match source_value(s@, *config) {
            Ok((d, spans)) => r is Ok && r->Ok_0.0@ == d && r->Ok_0.1@ == spans,
            Err(x) => r is Err && r->Err_0 == x,
        },
{
    proof {
        built_trees_cover(s@, config.max_depth as nat);
    }
    match build_tree(s, config.max_depth) {
        Ok(g) => load_tree(s, g.elems(), config),
        Err(x) => Err(x),
    }
}

/// The typed value of a text, under the given limits.
pub fn from_str_with_config(input: &str, config: &ParserConfig) -> (r: Result<Value, Error>)
    ensures
        match source_value(input.spec_bytes(), *config) {
            Ok((d, _)) => r is Ok && r->Ok_0@ == d,
            Err(x) => r is Err && r->Err_0 == Error::Syntax(x),
        },
{
    match load_source(input.as_bytes(), config) {
        Ok((v, _)) => Ok(v),
        Err(x) => Err(Error::Syntax(x)),
    }
}

/// The typed value of a text.
pub fn from_str(input: &str) -> (r: Result<Value, Error>)
    ensures
        match source_value(input.spec_bytes(), ParserConfig::defaults()) {
            Ok((d, _)) => r is Ok && r->Ok_0@ == d,
            Err(x) => r is Err && r->Err_0 == Error::Syntax(x),
        },
{
    from_str_with_config(input, &ParserConfig::new())
}

} // verus!
