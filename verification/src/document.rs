//! A document: its source, the syntax tree that reproduces it byte for byte,
//! and the typed value it loads to.
use crate::config::ParserConfig;
use crate::emit::{format_key_for_site, format_value_for_site, SiteContext};
use crate::entry::{entry_key_site, entry_line_span};
use crate::error::{Error, Operation, Refusal};
use crate::green::{
    build_tree, built_trees_cover, covering_trees_are_sound, covering_trees_reproduce_the_text, covers, sound, tree,
    GreenNode, MAX_SOURCE,
};
use crate::lexis::flaw;
use crate::lines::{
    is_followed, past_properties, skip_value_property_prefix, trim_value_span, value_end,
};
use crate::load::{load_tree, source_value, tree_value, SpanKind, SpanNode};
use crate::model::{
    after_exchange, after_key_rename, after_removal, after_rename_key, after_set, after_set_value,
    after_swap_items, collection_in, held_to, inside_flow, key_scalar, key_span_of, missed, read_back, untagged, site_context, written_as,
};
use crate::oracle::{expected_after_remove, expected_after_rename, expected_after_swap, path_value, replaced, sequence_len_at, Miss};
use crate::path::{item_child_path, parse_query_path, parse_rename_path, path_steps, segs, QuerySegment, Seg};
use crate::repair::{repaired, repaired_trees_cover, try_local_repair_green, RepairScope};
use crate::resolve::{
    denotes, green_range, is_denoted, resolve_path_in_green, resolve_span, typed_spot,
};
use crate::scalar::first_non_printable;
use crate::site::{
    aliased_anchor_covering, column_of_holder, leaf_kind_at, sibling_dominant_scalar_kind, token_at_with_parent,
};
use crate::syntax::{
    block_collection, flow_collection, is_block_collection, is_flow_collection, Elem, Fault, Flaw,
    SyntaxKind,
};
use crate::text::{append, append_all, bytes_eq, copy, is_word, string_of};
use crate::value::{bytes, duplicate, lists_are_pointwise, same, Data, Value};
use vstd::prelude::*;
use vstd::string::*;
use vstd::utf8::*;

verus! {

/// The model of a document.
pub struct Doc {
    /// The source text.
    pub source: Seq<u8>,
    /// The syntax tree.
    pub green: Seq<Elem>,
    /// How the latest edit was repaired.
    pub scope: Option<RepairScope>,
    /// The limits the document is parsed under.
    pub config: ParserConfig,
}

impl Doc {
    /// The typed value and its spans, or why there are none.
    pub open spec fn value(self) -> Result<(Data, Seq<SpanNode>), Flaw> {
        source_value(self.source, self.config)
    }

    /// What holds of every document: its tree covers its source, and is the one
    /// that the source is parsed to whenever it can be parsed.
    pub open spec fn wf(self) -> bool {
        &&& covers(self.green, self.source.len() as int)
        &&& tree(self.source, self.config.max_depth as nat) matches Ok(t) ==> self.green == t
        &&& self.source.len() <= MAX_SOURCE
        &&& valid_utf8(self.source)
    }
}

/// A YAML document with byte-faithful source, typed access and edits that are
/// addressed by path.
#[derive(Debug)]
pub struct Document {
    source: String,
    green: GreenNode,
    typed: Result<(Value, Vec<SpanNode>), Flaw>,
    scope: Option<RepairScope>,
    config: ParserConfig,
}

/// Whether a loaded value agrees with its model.
pub open spec fn typed_as(
    typed: Result<(Value, Vec<SpanNode>), Flaw>,
    model: Result<(Data, Seq<SpanNode>), Flaw>,
) -> bool {
    match model {
        Ok((d, sp)) => typed is Ok && typed->Ok_0.0@ == d && typed->Ok_0.1@ == sp,
        Err(x) => typed is Err && typed->Err_0 == x,
    }
}

impl View for Document {
    type V = Doc;

    closed spec fn view(&self) -> Doc {
        Doc {
            source: bytes(self.source),
            green: self.green@,
            scope: self.scope,
            config: self.config,
        }
    }
}

/// The document that a source parses to.
pub open spec fn parsed(s: Seq<u8>, config: ParserConfig) -> Result<Doc, Flaw> {
    match tree(s, config.max_depth as nat) {
        Ok(t) => match tree_value(s, t, config) {
            Ok(_) => Ok(Doc { source: s, green: t, scope: None, config }),
            Err(x) => Err(x),
        },
        Err(x) => Err(x),
    }
}

/// A text with the bytes `a..b` replaced.
pub open spec fn splice(s: Seq<u8>, a: int, b: int, text: Seq<u8>) -> Seq<u8> {
    s.subrange(0, a) + text + s.subrange(b, s.len() as int)
}

/// The tree of a text that a repair has found a tree for: the one it is parsed
/// to, and the repaired one when it cannot be parsed.
pub open spec fn settled(s: Seq<u8>, repaired: Seq<Elem>, depth: nat) -> Seq<Elem> {
    match tree(s, depth) {
        Ok(t) => t,
        Err(_) => repaired,
    }
}

/// A document with the bytes `a..b` of its source replaced by `text`.
///
/// The tree is repaired around the edit where that is possible; the new
/// source then need not load. Otherwise the whole of it is parsed again and
/// must load, and no repair is recorded.
pub open spec fn replaced_span(d: Doc, a: int, b: int, text: Seq<u8>) -> Result<Doc, Error> {
    let new = splice(d.source, a, b, text);
    if a > b || b > d.source.len() {
        Err(Error::Edit(Operation::ReplaceSpan, Refusal::OutOfBounds))
    } else if !is_char_boundary(d.source, a) || !is_char_boundary(d.source, b) || !valid_utf8(new) {
        Err(Error::Edit(Operation::ReplaceSpan, Refusal::NotABoundary))
    } else if new.len() > MAX_SOURCE {
        Err(Error::Syntax(flaw(Fault::TooLong, MAX_SOURCE as int)))
    } else {
        match repaired(d.green, d.source, new, a, b, text, d.config.max_depth as nat) {
            Some((g, scope)) => Ok(
                Doc {
                    source: new,
                    green: settled(new, g, d.config.max_depth as nat),
                    scope: Some(scope),
                    config: d.config,
                },
            ),
            None => match parsed(new, d.config) {
                Ok(n) => Ok(n),
                Err(x) => Err(Error::Syntax(x)),
            },
        }
    }
}

/// A start of a character in a text is one in any part of it that ends at one.
proof fn boundaries_inside(s: Seq<u8>, a: int, b: int)
    requires
        valid_utf8(s),
        0 <= a <= b <= s.len(),
        is_char_boundary(s, a),
        is_char_boundary(s, b),
    ensures
        valid_utf8(s.subrange(0, b)),
        is_char_boundary(s.subrange(0, b), a),
{
    let f = s.subrange(0, b);
    valid_utf8_split(s, b);
    if a < b {
        is_char_boundary_iff_not_is_continuation_byte(s, a);
        assert(f[a] == s[a]);
        is_char_boundary_iff_not_is_continuation_byte(f, a);
    } else {
        is_char_boundary_start_end_of_seq(f);
    }
}

/// The range of the value with span `x`, where the tree alone gave `g`: what
/// the tree gave when it is that value's range, with its anchor and tag, and
/// the bytes of the value otherwise.
pub open spec fn own_range(d: Doc, g: Option<(int, int)>, x: SpanNode) -> Option<(int, int)> {
    match g {
        Some((a, b)) => if denotes(d.green, a, b, x) {
            Some((a, b))
        } else {
            bytes_of(d, x)
        },
        None => bytes_of(d, x),
    }
}

/// The bytes of the value with span `x`, if it has any.
pub open spec fn bytes_of(d: Doc, x: SpanNode) -> Option<(int, int)> {
    if x.kind == SpanKind::Leaf && x.start == x.end {
        None
    } else if x.start <= x.end <= d.source.len() {
        Some((x.start as int, x.end as int))
    } else {
        None
    }
}

/// A range without the separating white space at its end, if it starts and
/// ends at a character.
pub open spec fn cut(s: Seq<u8>, g: Option<(int, int)>) -> Option<(int, int)> {
    match g {
        Some((a, b)) => if is_char_boundary(s, a) && is_char_boundary(s, value_end(s, a, b)) {
            Some((a, value_end(s, a, b)))
        } else {
            None
        },
        None => None,
    }
}

/// The range of the value at a path, and whether an alias leads to it. While
/// the source does not load, the tree alone decides.
pub open spec fn range_at(d: Doc, p: Seq<Seg>) -> Option<(int, int, bool)> {
    let g = green_range(d.source, d.green, p);
    match d.value() {
        Ok((v, sp)) => match typed_spot(v, sp, 0, p, 0, false) {
            Some((c, through)) => match cut(
                d.source,
                own_range(
                    d,
                    if through {
                        None
                    } else {
                        g
                    },
                    sp[c],
                ),
            ) {
                Some((a, b)) => Some((a, b, through)),
                None => None,
            },
            None => None,
        },
        Err(_) => match cut(d.source, g) {
            Some((a, b)) => Some((a, b, false)),
            None => None,
        },
    }
}

/// The range of the value at a path.
pub open spec fn span_of(d: Doc, p: Seq<Seg>) -> Option<(int, int)> {
    match range_at(d, p) {
        Some((a, b, _)) => Some((a, b)),
        None => None,
    }
}

/// The range that writing the value at a path replaces.
pub open spec fn write_range(d: Doc, p: Seq<Seg>, op: Operation) -> Result<(int, int), Error> {
    match range_at(d, p) {
        Some((a, b, through)) => if through {
            Err(Error::Edit(op, Refusal::ThroughAlias))
        } else {
            Ok((a, b))
        },
        None => if d.value() is Ok {
            Err(Error::Edit(op, Refusal::PathNotFound))
        } else {
            Err(Error::Edit(op, Refusal::DoesNotParse))
        },
    }
}

/// Whether the outcome of an edit agrees with its model: on success the
/// document becomes the one given, on failure it stays as it was.
pub open spec fn edits(
    r: Result<(), Error>,
    before: Doc,
    after: Doc,
    model: Result<Doc, Error>,
) -> bool {
    match model {
        Ok(n) => r is Ok && after == n,
        Err(x) => r is Err && r->Err_0 == x && after == before,
    }
}

/// Whether the outcome of computing an edited document agrees with its model.
pub open spec fn yields(r: Result<Document, Error>, model: Result<Doc, Error>) -> bool {
    match model {
        Ok(n) => r is Ok && r->Ok_0@ == n,
        Err(x) => r is Err && r->Err_0 == x,
    }
}

/// Whether the outcome of an edit, where `None` stands for the document as it
/// was, agrees with its model.
pub open spec fn settles(
    r: Result<Option<Document>, Error>,
    before: Doc,
    model: Result<Doc, Error>,
) -> bool {
    match model {
        Ok(n) => match r {
            Ok(Some(d)) => d@ == n,
            Ok(None) => before == n,
            Err(_) => false,
        },
        Err(x) => r is Err && r->Err_0 == x,
    }
}

pub(crate) fn refuse<T>(op: Operation, why: Refusal) -> (r: Result<T, Error>)
    ensures
        r is Err,
        r->Err_0 == Error::Edit(op, why),
{
    Err(Error::Edit(op, why))
}

/// A copy of a list of spans.
fn duplicate_spans(sp: &Vec<SpanNode>) -> (r: Vec<SpanNode>)
    ensures
        r@ == sp@,
{
    let mut out: Vec<SpanNode> = Vec::new();
    let mut i: usize = 0;
    while i < sp.len()
        invariant
            i <= sp@.len(),
            out@ =~= sp@.subrange(0, i as int),
        decreases sp@.len() - i,
    {
        out.push(sp[i]);
        i += 1;
    }
    assert(out@ =~= sp@);
    out
}

impl Clone for Document {
    fn clone(&self) -> (r: Self)
        ensures
            r@ == self@,
    {
        proof {
            use_type_invariant(self);
        }
        let typed: Result<(Value, Vec<SpanNode>), Flaw> = match &self.typed {
            Ok((v, sp)) => Ok((duplicate(v), duplicate_spans(sp))),
            Err(x) => Err(*x),
        };
        Document {
            source: self.source.clone(),
            green: self.green.duplicate(),
            typed,
            scope: self.scope,
            config: self.config,
        }
    }
}

impl Document {
    #[verifier::type_invariant]
    spec fn inv(self) -> bool {
        &&& self@.wf()
        &&& typed_as(self.typed, self@.value())
    }

    /// The parts of a document put together.
    fn assemble(
        source: String,
        green: GreenNode,
        typed: Result<(Value, Vec<SpanNode>), Flaw>,
        scope: Option<RepairScope>,
        config: ParserConfig,
    ) -> (r: Document)
        requires
            covers(green@, bytes(source).len() as int),
            bytes(source).len() <= MAX_SOURCE,
            typed_as(typed, source_value(bytes(source), config)),
            tree(bytes(source), config.max_depth as nat) matches Ok(t) ==> green@ == t,
        ensures
            r@ == (Doc { source: bytes(source), green: green@, scope, config }),
    {
        proof {
            encode_utf8_valid_utf8(source@);
        }
        Document { source, green, typed, scope, config }
    }

    /// The root of the syntax tree.
    pub fn syntax(&self) -> (r: &GreenNode)
        ensures
            r@ == self@.green,
    {
        &self.green
    }

    /// The source text.
    pub fn source(&self) -> (r: &str)
        ensures
            r.spec_bytes() == self@.source,
    {
        self.source.as_str()
    }

    /// The text that the tokens of the syntax tree spell: the source, byte for
    /// byte.
    pub fn to_string(&self) -> (r: String)
        ensures
            bytes(r) == self@.source,
    {
        proof {
            use_type_invariant(self);
            covering_trees_are_sound(self@.green, self@.source.len() as int);
            covering_trees_reproduce_the_text(self@.green, self@.source);
        }
        string_of(self.green.text(self.source.as_str().as_bytes()))
    }

    /// How the latest edit was repaired; `None` when there was none, and when
    /// the whole document was parsed again.
    pub fn last_repair_scope(&self) -> (r: Option<RepairScope>)
        ensures
            r == self@.scope,
    {
        self.scope
    }

    /// Whether the source loads. An edit repaired locally may leave it in a
    /// state in which it does not.
    pub fn validate(&self) -> (r: Result<(), Error>)
        ensures
            match self@.value() {
                Ok(_) => r is Ok,
                Err(x) => r is Err && r->Err_0 == Error::Syntax(x),
            },
    {
        proof {
            use_type_invariant(self);
        }
        match &self.typed {
            Ok(_) => Ok(()),
            Err(x) => Err(Error::Syntax(*x)),
        }
    }

    /// The typed value.
    pub fn as_value(&self) -> (r: &Value)
        requires
            self@.value() is Ok,
        ensures
            r@ == self@.value()->Ok_0.0,
    {
        self.loaded().unwrap()
    }

    /// The source and the tree, with what holds of them.
    pub(crate) fn parts(&self) -> (r: (&[u8], &Vec<Elem>))
        ensures
            r.0@ == self@.source,
            r.1@ == self@.green,
            self@.wf(),
            sound(self@.green, self@.source.len() as int),
    {
        proof {
            use_type_invariant(self);
            covering_trees_are_sound(self@.green, self@.source.len() as int);
        }
        (self.source.as_str().as_bytes(), self.green.elems())
    }

    /// The typed value, if the source loads.
    pub(crate) fn loaded(&self) -> (r: Option<&Value>)
        ensures
            match self@.value() {
                Ok((v, _)) => r is Some && r->0@ == v,
                Err(_) => r is None,
            },
    {
        proof {
            use_type_invariant(self);
        }
        match &self.typed {
            Ok((v, _)) => Some(v),
            Err(_) => None,
        }
    }

    /// The typed value and its spans, if the source loads.
    pub(crate) fn loaded_with_spans(&self) -> (r: Option<(&Value, &Vec<SpanNode>)>)
        ensures
            match self@.value() {
                Ok((v, sp)) => r is Some && (r->0).0@ == v && (r->0).1@ == sp,
                Err(_) => r is None,
            },
    {
        proof {
            use_type_invariant(self);
        }
        match &self.typed {
            Ok((v, sp)) => Some((v, sp)),
            Err(_) => None,
        }
    }

    /// The range of the value at a path, and whether an alias leads to it.
    fn locate(&self, p: &Vec<QuerySegment>) -> (r: Option<(usize, usize, bool)>)
        ensures
            match range_at(self@, segs(p@)) {
                Some((a, b, x)) => r is Some && (r->0).0 == a && (r->0).1 == b && (r->0).2 == x && a
                    <= b <= self@.source.len(),
                None => r is None,
            },
    {
        proof {
            use_type_invariant(self);
            covering_trees_are_sound(self@.green, self@.source.len() as int);
        }
        let s: &[u8] = self.source.as_str().as_bytes();
        let t: &Vec<Elem> = self.green.elems();
        let g: Option<(usize, usize)> = resolve_path_in_green(s, t, p);
        let (range, through) = match &self.typed {
            Ok((v, sp)) => match resolve_span(v, sp, p) {
                Some((c, through)) => {
                    let x: SpanNode = sp[c];
                    let own: Option<(usize, usize)> = if x.kind == SpanKind::Leaf && x.start == x.end {
                        None
                    } else if x.start <= x.end && x.end <= s.len() {
                        Some((x.start, x.end))
                    } else {
                        None
                    };
                    let range: Option<(usize, usize)> = match g {
                        Some((a, b)) => if !through && is_denoted(t, a, b, x) {
                            Some((a, b))
                        } else {
                            own
                        },
                        None => own,
                    };
                    (range, through)
                },
                None => (None, false),
            },
            Err(_) => (g, false),
        };
        match range {
            Some((a, b)) => {
                let (_, e) = trim_value_span(s, a, b);
                if self.source.as_str().is_char_boundary(a) && self.source.as_str().is_char_boundary(
                    e,
                ) {
                    Some((a, e, through))
                } else {
                    None
                }
            },
            None => None,
        }
    }

    pub(crate) fn resolve(&self, p: &Vec<QuerySegment>) -> (r: Option<(usize, usize)>)
        ensures
            match span_of(self@, segs(p@)) {
                Some((a, b)) => r is Some && (r->0).0 == a && (r->0).1 == b && a <= b
                    <= self@.source.len(),
                None => r is None,
            },
    {
        match self.locate(p) {
            Some((a, b, _)) => Some((a, b)),
            None => None,
        }
    }

    /// The byte range of the value at a path. A key that occurs twice stands
    /// for its last occurrence, as in the typed value. An alias leads to the
    /// range of its anchor's value.
    pub fn span_at(&self, path: &str) -> (r: Option<(usize, usize)>)
        ensures
            match span_of(self@, path_steps(path.spec_bytes())) {
                Some((a, b)) => r is Some && (r->0).0 == a && (r->0).1 == b && a <= b
                    <= self@.source.len(),
                None => r is None,
            },
    {
        let p: Vec<QuerySegment> = parse_query_path(path.as_bytes());
        self.resolve(&p)
    }

    /// The source text of the value at a path.
    pub fn get(&self, path: &str) -> (r: Option<&str>)
        ensures
            match span_of(self@, path_steps(path.spec_bytes())) {
                Some((a, b)) => r is Some && r->0.spec_bytes() == self@.source.subrange(a, b) && 0
                    <= a <= b <= self@.source.len(),
                None => r is None,
            },
    {
        match self.span_at(path) {
            Some((a, b)) => {
                proof {
                    use_type_invariant(self);
                    boundaries_inside(self@.source, a as int, b as int);
                }
                let (front, _) = self.source.as_str().split_at(b);
                let (_, text) = front.split_at(a);
                assert(text.spec_bytes() =~= self@.source.subrange(a as int, b as int));
                Some(text)
            },
            None => None,
        }
    }

    /// The range that writing the value at a path replaces. Writing through an
    /// alias is refused: the bytes belong to the anchor.
    pub(crate) fn write_span(&self, p: &Vec<QuerySegment>, op: Operation) -> (r: Result<(usize, usize), Error>)
        ensures
            match write_range(self@, segs(p@), op) {
                Ok((a, b)) => r is Ok && r->Ok_0.0 == a && r->Ok_0.1 == b && a <= b
                    <= self@.source.len(),
                Err(x) => r is Err && r->Err_0 == x,
            },
    {
        match self.locate(p) {
            Some((a, b, through)) => if through {
                refuse(op, Refusal::ThroughAlias)
            } else {
                Ok((a, b))
            },
            None => if self.loaded().is_some() {
                refuse(op, Refusal::PathNotFound)
            } else {
                refuse(op, Refusal::DoesNotParse)
            },
        }
    }

    /// The document with the bytes `a..b` of its source replaced.
    pub(crate) fn spliced(&self, a: usize, b: usize, text: &[u8]) -> (r: Result<Document, Error>)
        ensures
            yields(r, replaced_span(self@, a as int, b as int, text@)),
    {
        proof {
            use_type_invariant(self);
            covering_trees_are_sound(self@.green, self@.source.len() as int);
        }
        let s: &[u8] = self.source.as_str().as_bytes();
        if a > b || b > s.len() {
            return refuse(Operation::ReplaceSpan, Refusal::OutOfBounds);
        }
        if !self.source.as_str().is_char_boundary(a) || !self.source.as_str().is_char_boundary(b) {
            return refuse(Operation::ReplaceSpan, Refusal::NotABoundary);
        }
        let mut new: Vec<u8> = Vec::new();
        append(&mut new, s, 0, a);
        append_all(&mut new, text);
        append(&mut new, s, b, s.len());
        let ghost goal = splice(self@.source, a as int, b as int, text@);
        assert(new@ =~= goal);
        let text_of_new: String = match String::from_utf8(new) {
            Ok(x) => x,
            Err(_) => {
                return refuse(Operation::ReplaceSpan, Refusal::NotABoundary);
            },
        };
        let n: &[u8] = text_of_new.as_str().as_bytes();
        assert(n@ == goal);
        if n.len() > MAX_SOURCE {
            return Err(Error::Syntax(Flaw { fault: Fault::TooLong, at: MAX_SOURCE }));
        }
        proof {
            repaired_trees_cover(
                self@.green,
                self@.source,
                goal,
                a as int,
                b as int,
                text@,
                self@.config.max_depth as nat,
            );
        }
        match try_local_repair_green(
            self.green.elems(),
            s,
            n,
            a,
            b,
            text,
            self.config.max_depth,
        ) {
            Some((elems, scope)) => {
                proof {
                    built_trees_cover(n@, self@.config.max_depth as nat);
                }
                let (green, typed): (GreenNode, Result<(Value, Vec<SpanNode>), Flaw>) =
                    match build_tree(n, self.config.max_depth) {
                    Ok(g) => {
                        let typed: Result<(Value, Vec<SpanNode>), Flaw> = load_tree(
                            n,
                            g.elems(),
                            &self.config,
                        );
                        (g, typed)
                    },
                    Err(x) => (GreenNode::of(elems), Err(x)),
                };
                Ok(Document::assemble(text_of_new, green, typed, Some(scope), self.config))
            },
            None => match parse_text(text_of_new, &self.config) {
                Ok(d) => Ok(d),
                Err(x) => Err(Error::Syntax(x)),
            },
        }
    }

    /// Takes over the outcome of an edit.
    pub(crate) fn commit(&mut self, r: Result<Option<Document>, Error>) -> (o: Result<(), Error>)
        ensures
            match r {
                Ok(Some(d)) => o is Ok && final(self)@ == d@,
                Ok(None) => o is Ok && final(self)@ == old(self)@,
                Err(x) => o is Err && o->Err_0 == x && final(self)@ == old(self)@,
            },
    {
        match r {
            Ok(Some(d)) => {
                *self = d;
                Ok(())
            },
            Ok(None) => Ok(()),
            Err(x) => Err(x),
        }
    }

    /// Holds an edited document to the value it should have.
    pub(crate) fn held(next: Result<Document, Error>, expected: &Value, op: Operation) -> (r: Result<
        Option<Document>,
        Error,
    >)
        ensures
            forall|m: Result<Doc, Error>| #[trigger]
                yields(next, m) ==> match held_to(m, expected@, op) {
                    Ok(n) => r is Ok && r->Ok_0 is Some && r->Ok_0->0@ == n,
                    Err(x) => r is Err && r->Err_0 == x,
                },
    {
        match next {
            Ok(d) => {
                proof {
                    use_type_invariant(&d);
                }
                let fine: Result<bool, Flaw> = match &d.typed {
                    Ok((v, _)) => Ok(same(v, expected)),
                    Err(x) => Err(*x),
                };
                match fine {
                    Ok(true) => Ok(Some(d)),
                    Ok(false) => refuse(op, Refusal::IntegrityCheck),
                    Err(_) => refuse(op, Refusal::NotReparsed),
                }
            },
            Err(_) => refuse(op, Refusal::NotSpliced),
        }
    }

    /// Replaces the bytes `start..end` of the source. On failure the document
    /// stays as it was.
    pub fn replace_span(&mut self, start: usize, end: usize, replacement: &str) -> (r: Result<
        (),
        Error,
    >)
        ensures
            edits(
                r,
                old(self)@,
                final(self)@,
                replaced_span(
                    old(self)@,
                    start as int,
                    end as int,
                    replacement.spec_bytes(),
                ),
            ),
    {
        match self.spliced(start, end, replacement.as_bytes()) {
            Ok(d) => {
                *self = d;
                Ok(())
            },
            Err(x) => Err(x),
        }
    }
}

impl Document {
    pub(crate) fn setting(&self, path: &[u8], fragment: &[u8]) -> (r: Result<Document, Error>)
        ensures
            yields(r, after_set(self@, path@, fragment@)),
    {
        let p: Vec<QuerySegment> = parse_query_path(path);
        match self.write_span(&p, Operation::SetFragment) {
            Ok((a, b)) => self.spliced(a, b, fragment),
            Err(x) => Err(x),
        }
    }

    /// Replaces the value at a path by a fragment, verbatim.
    pub fn set(&mut self, path: &str, fragment: &str) -> (r: Result<(), Error>)
        ensures
            edits(
                r,
                old(self)@,
                final(self)@,
                after_set(old(self)@, path.spec_bytes(), fragment.spec_bytes()),
            ),
    {
        match self.setting(path.as_bytes(), fragment.as_bytes()) {
            Ok(d) => {
                *self = d;
                Ok(())
            },
            Err(x) => Err(x),
        }
    }

    /// Replaces the scalar at a path by a value, spelled to fit in with what
    /// was there. A collection or a block scalar at the path is refused, and so
    /// is an edit after which the document would not load to the old value with
    /// the new one in its place. Inside the value of an anchor, what aliases
    /// refer to changes too.
    pub fn set_value(&mut self, path: &str, value: &Value) -> (r: Result<(), Error>)
        ensures
            edits(
                r,
                old(self)@,
                final(self)@,
                after_set_value(old(self)@, path.spec_bytes(), value@),
            ),
    {
        let o: Result<Option<Document>, Error> = self.setting_value(path.as_bytes(), value);
        self.commit(o)
    }

    fn setting_value(&self, path: &[u8], value: &Value) -> (r: Result<Option<Document>, Error>)
        ensures
            settles(r, self@, after_set_value(self@, path@, value@)),
    {
        let op: Operation = Operation::SetValue;
        let p: Vec<QuerySegment> = parse_query_path(path);
        let (a, b) = match self.write_span(&p, op) {
            Ok(x) => x,
            Err(x) => {
                return Err(x);
            },
        };
        proof {
            use_type_invariant(self);
            covering_trees_are_sound(self@.green, self@.source.len() as int);
        }
        let s: &[u8] = self.source.as_str().as_bytes();
        let t: &Vec<Elem> = self.green.elems();
        let kind: SyntaxKind = match leaf_kind_at(t, a) {
            Some(k) => k,
            None => {
                return refuse(op, Refusal::NoToken);
            },
        };
        if kind == SyntaxKind::LiteralScalar || kind == SyntaxKind::FoldedScalar {
            return refuse(op, Refusal::BlockScalarTarget);
        }
        if starts_collection(t, a, b) {
            return refuse(op, Refusal::CollectionTarget);
        }
        let neighbour: Option<SyntaxKind> = if kind == SyntaxKind::PlainScalar {
            sibling_dominant_scalar_kind(t, a, s.len())
        } else {
            None
        };
        let column: usize = column_of_holder(s, t, a);
        let flow: bool = lies_in_flow(t, a);
        let ctx: SiteContext = SiteContext {
            kind,
            neighbour,
            column,
            flow,
            followed: is_followed(s, b),
        };
        assert(ctx == site_context(self@, a as int, b as int, kind));
        match format_value_for_site(value, &ctx) {
            Ok(text) => {
                let next: Result<Document, Error> = self.spliced(a, b, text.as_slice());
                let ghost m = replaced_span(self@, a as int, b as int, text@);
                assert(yields(next, m));
                match (next, &self.typed) {
                    (Ok(d), Ok((old, _))) => {
                        if aliased_anchor_covering(s, t, a) > 0 {
                            return d.reading_back(&p, &written(value), op);
                        }
                        let expected: Value = replaced(old, &p, 0, p.len(), written(value));
                        let next: Result<Document, Error> = Ok(d);
                        assert(yields(next, m));
                        Document::held(next, &expected, op)
                    },
                    (Ok(d), Err(_)) => Ok(Some(d)),
                    (Err(x), _) => Err(x),
                }
            },
            Err(x) => refuse(op, x),
        }
    }

    /// Holds an edited document to the value it should have at a path.
    fn reading_back(self, p: &Vec<QuerySegment>, expected: &Value, op: Operation) -> (r: Result<
        Option<Document>,
        Error,
    >)
        ensures
            match read_back(self@, segs(p@), expected@, op) {
                Ok(n) => r is Ok && r->Ok_0 is Some && r->Ok_0->0@ == n,
                Err(x) => r is Err && r->Err_0 == x,
            },
    {
        assert(segs(p@).len() == p@.len());
        let fine: bool = match self.loaded() {
            Some(v) => match path_value(v, p, p.len()) {
                Ok(x) => same(x, expected),
                Err(_) => false,
            },
            None => {
                return refuse(op, Refusal::NotReparsed);
            },
        };
        if fine {
            Ok(Some(self))
        } else {
            refuse(op, Refusal::IntegrityCheck)
        }
    }

    /// Removes what a path addresses: a block entry with the lines it owns, a
    /// flow member with one of its commas. The only child of a collection
    /// leaves an empty collection behind.
    pub fn remove(&mut self, path: &str) -> (r: Result<(), Error>)
        ensures
            edits(r, old(self)@, final(self)@, after_removal(old(self)@, path.spec_bytes())),
    {
        let o: Result<Option<Document>, Error> = self.removing(path.as_bytes());
        self.commit(o)
    }

    fn removing(&self, path: &[u8]) -> (r: Result<Option<Document>, Error>)
        ensures
            settles(r, self@, after_removal(self@, path@)),
    {
        let op: Operation = Operation::Remove;
        let p: Vec<QuerySegment> = parse_query_path(path);
        proof {
            use_type_invariant(self);
        }
        let s: &[u8] = self.source.as_str().as_bytes();
        match &self.typed {
            Ok((v, sp)) => match entry_line_span(s, self.green.elems(), v, sp, &p) {
                Ok((a, b, text)) => match expected_after_remove(v, &p) {
                    Ok(expected) => {
                        let next: Result<Document, Error> = self.spliced(a, b, text.as_slice());
                        assert(yields(
                            next,
                            replaced_span(self@, a as int, b as int, text@),
                        ));
                        Document::held(next, &expected, op)
                    },
                    Err(x) => refuse(op, refusal_of(x, Refusal::PathNotFound)),
                },
                Err(x) => refuse(op, x),
            },
            Err(_) => refuse(op, Refusal::DoesNotParse),
        }
    }

    /// The byte range of the key of the block mapping entry at a path, quotes
    /// included: what [`Document::rename_key`] rewrites. `None` when the path
    /// leads to no such entry with a scalar key of its own.
    pub fn key_span(&self, path: &str) -> (r: Option<(usize, usize)>)
        ensures
            match key_span_of(self@, path_steps(path.spec_bytes())) {
                Some((a, b)) => r is Some && (r->0).0 == a && (r->0).1 == b,
                None => r is None,
            },
    {
        proof {
            use_type_invariant(self);
            covering_trees_are_sound(self@.green, self@.source.len() as int);
        }
        let p: Vec<QuerySegment> = parse_query_path(path.as_bytes());
        let (a, b) = match &self.typed {
            Ok((v, sp)) => match entry_key_site(v, sp, &p, None) {
                Ok(x) => x,
                Err(_) => {
                    return None;
                },
            },
            Err(_) => {
                return None;
            },
        };
        let t: &Vec<Elem> = self.green.elems();
        match token_at_with_parent(t, a) {
            Some((c, parent)) => {
                let token: Elem = t[c];
                assert(self@.green[c as int] == token);
                if a < b && token.start == a && token.end == b && is_key_scalar(token.kind)
                    && t[parent].kind == SyntaxKind::MappingEntry {
                    Some((a, b))
                } else {
                    None
                }
            },
            None => None,
        }
    }

    /// Renames the key of the entry at a path; every other byte stays.
    pub fn rename_key(&mut self, path: &str, new_key: &str) -> (r: Result<(), Error>)
        ensures
            edits(
                r,
                old(self)@,
                final(self)@,
                after_rename_key(old(self)@, path.spec_bytes(), new_key.spec_bytes()),
            ),
    {
        let o: Result<Option<Document>, Error> = self.renaming(path.as_bytes(), new_key);
        self.commit(o)
    }

    fn renaming(&self, path: &[u8], new_key: &str) -> (r: Result<Option<Document>, Error>)
        ensures
            settles(r, self@, after_rename_key(self@, path@, new_key.spec_bytes())),
    {
        let op: Operation = Operation::RenameKey;
        let name: &[u8] = new_key.as_bytes();
        proof {
            use_type_invariant(self);
            covering_trees_are_sound(self@.green, self@.source.len() as int);
        }
        let (v, sp) = match &self.typed {
            Ok((v, sp)) => (v, sp),
            Err(_) => {
                return refuse(op, Refusal::DoesNotParse);
            },
        };
        let p: Vec<QuerySegment> = match parse_rename_path(path) {
            Some(p) => p,
            None => {
                return refuse(op, Refusal::BracketWithoutIndex);
            },
        };
        if is_word(name, "<<") {
            return refuse(op, Refusal::MergeKeyName);
        }
        if let Some(c) = first_non_printable(name) {
            return refuse(op, Refusal::NonPrintable(c));
        }
        let (ks, ke) = match entry_key_site(v, sp, &p, Some(name)) {
            Ok(x) => x,
            Err(x) => {
                return refuse(op, x);
            },
        };
        if ks >= ke {
            return refuse(op, Refusal::NotAScalarKey);
        }
        if ends_in_key(&p, name) {
            return Ok(None);
        }
        match token_at_with_parent(self.green.elems(), ks) {
            Some((c, parent)) => self.renaming_token(v, &p, new_key, ks, ke, c, parent),
            None => refuse(op, Refusal::NoToken),
        }
    }

    fn renaming_token(
        &self,
        v: &Value,
        p: &Vec<QuerySegment>,
        new_key: &str,
        a: usize,
        b: usize,
        c: usize,
        parent: usize,
    ) -> (r: Result<Option<Document>, Error>)
        requires
            c < self@.green.len(),
            parent < self@.green.len(),
        ensures
            settles(
                r,
                self@,
                after_key_rename(
                    self@,
                    v@,
                    segs(p@),
                    new_key.spec_bytes(),
                    a as int,
                    b as int,
                    c as int,
                    parent as int,
                ),
            ),
    {
        let op: Operation = Operation::RenameKey;
        let name: &[u8] = new_key.as_bytes();
        proof {
            use_type_invariant(self);
            covering_trees_are_sound(self@.green, self@.source.len() as int);
        }
        let s: &[u8] = self.source.as_str().as_bytes();
        let t: &Vec<Elem> = self.green.elems();
        let token: Elem = t[c];
        assert(self@.green[c as int] == token);
        let around: SyntaxKind = t[parent].kind;
        if around == SyntaxKind::FlowMapping {
            return refuse(op, Refusal::FlowKey);
        }
        if around != SyntaxKind::MappingEntry {
            return refuse(op, Refusal::NotABlockKey);
        }
        if !is_key_scalar(token.kind) {
            return refuse(op, Refusal::NotAScalarKey);
        }
        if !(token.start == a && token.end == b) {
            return refuse(op, Refusal::NoToken);
        }
        let shared: usize = aliased_anchor_covering(s, t, a);
        if shared > 0 {
            return refuse(op, Refusal::InsideAnchor(shared));
        }
        let text: Vec<u8> = format_key_for_site(name, token.kind);
        let owned: String = new_key.to_owned();
        match expected_after_rename(v, p, &owned) {
            Ok(expected) => {
                let next: Result<Document, Error> = self.spliced(a, b, text.as_slice());
                assert(yields(next, replaced_span(self@, a as int, b as int, text@)));
                Document::held(next, &expected, op)
            },
            Err(x) => refuse(op, refusal_of(x, Refusal::PathNotFound)),
        }
    }

    /// Exchanges two items of the block sequence at a path; only the bytes of
    /// the two values change places.
    pub fn swap_items(&mut self, path: &str, i: usize, j: usize) -> (r: Result<(), Error>)
        ensures
            edits(
                r,
                old(self)@,
                final(self)@,
                after_swap_items(old(self)@, path.spec_bytes(), i as int, j as int),
            ),
    {
        let o: Result<Option<Document>, Error> = self.swapping(path.as_bytes(), i, j);
        self.commit(o)
    }

    pub(crate) fn swapping(&self, path: &[u8], i: usize, j: usize) -> (r: Result<Option<Document>, Error>)
        ensures
            settles(r, self@, after_swap_items(self@, path@, i as int, j as int)),
    {
        let op: Operation = Operation::SwapItems;
        proof {
            use_type_invariant(self);
        }
        let p: Vec<QuerySegment> = parse_query_path(path);
        let v: &Value = match &self.typed {
            Ok((v, _)) => v,
            Err(_) => {
                return refuse(op, Refusal::DoesNotParse);
            },
        };
        let n: usize = match sequence_len_at(v, &p) {
            Ok(n) => n,
            Err(m) => {
                return refuse(op, refusal_of(m, Refusal::NotASequence));
            },
        };
        if i >= n || j >= n {
            return refuse(op, Refusal::IndexOutOfBounds);
        }
        let items: &Vec<Value> = match path_value(v, &p, p.len()) {
            Ok(Value::Sequence(items)) => items,
            _ => {
                return refuse(op, Refusal::NotASequence);
            },
        };
        proof {
            lists_are_pointwise(items@);
        }
        if same(&items[i], &items[j]) {
            return Ok(None);
        }
        if self.is_written_as(&p, SyntaxKind::FlowSequence) {
            return refuse(op, Refusal::NotABlockSequence);
        }
        let pi: Vec<QuerySegment> = parse_query_path(item_child_path(path, i).as_slice());
        let pj: Vec<QuerySegment> = parse_query_path(item_child_path(path, j).as_slice());
        match (self.resolve(&pi), self.resolve(&pj)) {
            (Some(x), Some(y)) => match expected_after_swap(v, &p, i, j) {
                Ok(expected) => {
                    let next: Result<Document, Error> = self.exchanged(x, y);
                    assert(yields(
                        next,
                        after_exchange(
                            self@,
                            (x.0 as int, x.1 as int),
                            (y.0 as int, y.1 as int),
                        ),
                    ));
                    Document::held(next, &expected, op)
                },
                Err(m) => refuse(op, refusal_of(m, Refusal::NotASequence)),
            },
            _ => refuse(op, Refusal::NoAnchor),
        }
    }

    /// Whether the value at a path is a collection of the given kind as a
    /// whole, anchors and tags aside.
    pub(crate) fn is_written_as(&self, p: &Vec<QuerySegment>, kind: SyntaxKind) -> (r: bool)
        ensures
            r == written_as(self@, segs(p@), kind),
    {
        let (s, t) = self.parts();
        match self.resolve(p) {
            Some((a, b)) => {
                let c: usize = skip_value_property_prefix(s, a, b);
                let mut i: usize = 0;
                while i < t.len()
                    invariant
                        i <= t@.len(),
                        t@ == self@.green,
                        span_of(self@, segs(p@)) == Some((a as int, b as int)),
                        c == past_properties(self@.source, a as int, b as int),
                        forall|k: int|
                            0 <= k < i ==> !((#[trigger] t@[k]).kind == kind && t@[k].start == c
                                && t@[k].end == b),
                    decreases t@.len() - i,
                {
                    if t[i].kind == kind && t[i].start == c && t[i].end == b {
                        assert(self@.green[i as int] == t@[i as int]);
                        return true;
                    }
                    i += 1;
                }
                false
            },
            None => false,
        }
    }

    fn exchanged(&self, x: (usize, usize), y: (usize, usize)) -> (r: Result<Document, Error>)
        requires
            x.0 <= x.1 <= self@.source.len(),
            y.0 <= y.1 <= self@.source.len(),
        ensures
            yields(
                r,
                after_exchange(self@, (x.0 as int, x.1 as int), (y.0 as int, y.1 as int)),
            ),
    {
        let s: &[u8] = self.source.as_str().as_bytes();
        let (lo, hi) = if x.0 < y.0 {
            (x, y)
        } else {
            (y, x)
        };
        let low: Vec<u8> = copy(s, lo.0, lo.1);
        let high: Vec<u8> = copy(s, hi.0, hi.1);
        match self.spliced(hi.0, hi.1, low.as_slice()) {
            Ok(d) => d.spliced(lo.0, lo.1, high.as_slice()),
            Err(e) => Err(e),
        }
    }
}

/// What is written of a value: what stands under its tags.
fn written(v: &Value) -> (r: Value)
    ensures
        r@ == untagged(v@),
    decreases v,
{
    match v {
        Value::Tagged(t) => written(&t.value),
        _ => duplicate(v),
    }
}

/// Whether byte `a` lies inside a flow collection.
pub(crate) fn lies_in_flow(t: &Vec<Elem>, a: usize) -> (r: bool)
    ensures
        r == inside_flow(t@, a as int),
{
    let mut i: usize = 0;
    while i < t.len()
        invariant
            i <= t@.len(),
            forall|k: int|
                0 <= k < i ==> !(flow_collection((#[trigger] t@[k]).kind) && t@[k].start < a
                    < t@[k].end),
        decreases t@.len() - i,
    {
        let e: Elem = t[i];
        assert(t@[i as int] == e);
        if is_flow_collection(e.kind) && e.start < a && a < e.end {
            return true;
        }
        i += 1;
    }
    false
}

/// Whether a collection starts in the range `a..b`.
fn starts_collection(t: &Vec<Elem>, a: usize, b: usize) -> (r: bool)
    ensures
        r == collection_in(t@, a as int, b as int),
{
    let mut i: usize = 0;
    while i < t.len()
        invariant
            i <= t@.len(),
            forall|k: int|
                0 <= k < i ==> !((block_collection((#[trigger] t@[k]).kind) || flow_collection(
                    t@[k].kind,
                )) && a <= t@[k].start < b),
        decreases t@.len() - i,
    {
        let e: Elem = t[i];
        assert(t@[i as int] == e);
        if (is_block_collection(e.kind) || is_flow_collection(e.kind)) && a <= e.start && e.start
            < b {
            return true;
        }
        i += 1;
    }
    false
}

/// The refusal for a path that misses.
pub(crate) fn refusal_of(m: Miss, kind: Refusal) -> (r: Refusal)
    ensures
        r == missed(m, kind),
{
    match m {
        Miss::Key => Refusal::MissingKey,
        Miss::Index => Refusal::IndexOutOfBounds,
        Miss::Kind => kind,
    }
}

/// Whether a kind is a scalar that a key can be written as.
fn is_key_scalar(k: SyntaxKind) -> (r: bool)
    ensures
        r == key_scalar(k),
{
    k == SyntaxKind::PlainScalar || k == SyntaxKind::SingleQuotedScalar || k
        == SyntaxKind::DoubleQuotedScalar
}

/// Whether the last step of a path is the given key.
fn ends_in_key(p: &Vec<QuerySegment>, name: &[u8]) -> (r: bool)
    ensures
        p@.len() > 0 ==> r == (segs(p@).last() == Seg::Key(name@)),
{
    let n: usize = p.len();
    if n == 0 {
        return false;
    }
    match &p[n - 1] {
        QuerySegment::Key(k) => bytes_eq(k.as_str().as_bytes(), name),
        _ => false,
    }
}

/// Parses a text as a document.
fn parse_text(text: String, config: &ParserConfig) -> (r: Result<Document, Flaw>)
    ensures
        match parsed(bytes(text), *config) {
            Ok(d) => r is Ok && r->Ok_0@ == d,
            Err(x) => r is Err && r->Err_0 == x,
        },
{
    let s: &[u8] = text.as_str().as_bytes();
    proof {
        built_trees_cover(s@, config.max_depth as nat);
    }
    match build_tree(s, config.max_depth) {
        Ok(g) => match load_tree(s, g.elems(), config) {
            Ok((v, sp)) => Ok(Document::assemble(text, g, Ok((v, sp)), None, *config)),
            Err(x) => Err(x),
        },
        Err(x) => Err(x),
    }
}

/// Parses a document under the given limits.
pub fn parse_document_with_config(input: &str, config: &ParserConfig) -> (r: Result<
    Document,
    Error,
>)
    ensures
        match parsed(input.spec_bytes(), *config) {
            Ok(d) => r is Ok && r->Ok_0@ == d,
            Err(x) => r is Err && r->Err_0 == Error::Syntax(x),
        },
{
    match parse_text(input.to_owned(), config) {
        Ok(d) => Ok(d),
        Err(x) => Err(Error::Syntax(x)),
    }
}

/// Parses a document.
pub fn parse_document(input: &str) -> (r: Result<Document, Error>)
    ensures
        match parsed(input.spec_bytes(), ParserConfig::defaults()) {
            Ok(d) => r is Ok && r->Ok_0@ == d,
            Err(x) => r is Err && r->Err_0 == Error::Syntax(x),
        },
{
    parse_document_with_config(input, &ParserConfig::new())
}

} // verus!
