//! Edits that move or add items and entries.
use crate::document::{
    edits, lies_in_flow, refusal_of, refuse, replaced_span, settles, yields, Document,
};
use crate::emit::{emit_key, emit_value, Emit, EmitCtx};
use crate::entry::end_of_span;
use crate::error::{Error, Operation, Refusal};
use crate::lines::{
    detect_indent_unit, indent_continuation_lines, indent_step, leading_break_for_splice,
    start_after_line, trim_value_span,
};
use crate::load::{count_kind, SpanKind, SpanNode};
use crate::model::{
    after_insert_after, after_insert_after_value, after_insert_entry_text,
    after_insert_entry_value, after_move_item, after_push_back, after_push_back_value,
    block_item_column, carried_down, carried_up, children, collection_style, emit_style, entry_text,
    entry_text_set, entry_value_set, indented_lines, item_added, item_anchor, item_line, item_site,
    item_spelling, lead, lowest, lowest_entry, own_entry, past_feeds, past_trivia, placed,
    quote_style, refilled, value_entry_text, values_of,
};
use crate::oracle::{
    expected_after_insert_entry, expected_after_insert_item, path_value, sequence_len_at,
};
use crate::path::{
    parse_query_path, path_steps, segs, sequence_parent_path, QuerySegment, Seg,
};
use crate::resolve::{find_nth_span, nth_span, resolve_span};
use crate::scalar::first_non_printable;
use crate::site::{
    aliased_anchor_covering, column_of_key_at, column_of_preceding_dash, covering_aliases, opt,
    FlowStyle, ScalarStyle,
};
use crate::syntax::{is_trivia_kind, Elem, SyntaxKind};
use crate::text::{
    append, append_all, append_spaces, contains_byte, is_word, scan, spaces, Class, COLON, DASH,
    DOT, LBRACKET, NL, SPACE,
};
use crate::value::{Mapping, Value};
use vstd::prelude::*;
use vstd::string::*;

verus! {

/// Counts the scalar values of a kind.
fn count_values(t: &Vec<Elem>, kind: SyntaxKind) -> (r: usize)
    ensures
        r == values_of(t@, kind, t@.len() as int),
{
    let mut i: usize = 0;
    let mut n: usize = 0;
    let len: usize = t.len();
    while i < len
        invariant
            i <= len == t@.len(),
            n == values_of(t@, kind, i as int),
            n <= i,
        decreases len - i,
    {
        let mut j: usize = i + 1;
        while j < len && is_trivia_kind(t[j].kind)
            invariant
                i < j <= len == t@.len(),
                past_trivia(t@, j as int) == past_trivia(t@, i + 1),
            decreases len - j,
        {
            j += 1;
        }
        if t[i].kind == kind && !(j < len && t[j].kind == SyntaxKind::ColonIndicator) {
            n += 1;
        }
        i += 1;
    }
    n
}

/// The line of a new sequence item.
fn new_item_line(s: &[u8], pos: usize, c: usize, fragment: &[u8]) -> (r: Vec<u8>)
    requires
        pos <= s@.len(),
    ensures
        r@ == item_line(s@, pos as int, c as int, fragment@),
{
    let mut out: Vec<u8> = Vec::new();
    if leading_break_for_splice(s, pos) {
        out.push(NL);
    }
    assert(out@ =~= lead(s@, pos as int));
    append_spaces(&mut out, c);
    out.push(DASH);
    out.push(SPACE);
    append_all(&mut out, fragment);
    out.push(NL);
    assert(out@ =~= item_line(s@, pos as int, c as int, fragment@));
    out
}

/// Appends the lines of `s[from..]`, each indented.
fn append_indented(out: &mut Vec<u8>, s: &[u8], from: usize, pad: usize)
    requires
        from <= s@.len(),
    ensures
        final(out)@ == indented_lines(s@, from as int, pad as int, old(out)@),
{
    let mut i: usize = from;
    loop
        invariant_except_break
            i <= s@.len(),
            indented_lines(s@, i as int, pad as int, out@) == indented_lines(
                s@,
                from as int,
                pad as int,
                old(out)@,
            ),
        ensures
            out@ == indented_lines(s@, from as int, pad as int, old(out)@),
        decreases s@.len() - i,
    {
        let e: usize = scan(s, i, s.len(), Class::Line);
        let ghost before = out@;
        if e > i {
            append_spaces(out, pad);
            append(out, s, i, e);
        }
        out.push(NL);
        assert(out@ =~= if e == i {
            before.push(NL)
        } else {
            (before + spaces(pad as int) + s@.subrange(i as int, e as int)).push(NL)
        });
        if e >= s.len() {
            break;
        }
        i = e + 1;
    }
}

/// The lines of a new mapping entry.
fn new_entry_text(key: &[u8], fragment: &[u8], c: usize, unit: usize) -> (r: Vec<u8>)
    requires
        c + unit <= usize::MAX,
    ensures
        r@ == entry_text(key@, fragment@, c as int, unit as int),
{
    let mut out: Vec<u8> = Vec::new();
    append_spaces(&mut out, c);
    append_all(&mut out, key);
    out.push(COLON);
    assert(out@ =~= spaces(c as int) + key@ + seq![COLON]);
    if contains_byte(fragment, NL) {
        out.push(NL);
        assert(out@ =~= spaces(c as int) + key@ + seq![COLON, NL]);
        let mut i: usize = 0;
        while i < fragment.len() && fragment[i] == NL
            invariant
                i <= fragment@.len(),
                past_feeds(fragment@, i as int) == past_feeds(fragment@, 0),
            decreases fragment@.len() - i,
        {
            i += 1;
        }
        append_indented(&mut out, fragment, i, c + unit);
    } else {
        out.push(SPACE);
        append_all(&mut out, fragment);
        out.push(NL);
        assert(out@ =~= spaces(c as int) + key@ + seq![COLON, SPACE] + fragment@ + seq![NL]);
    }
    out
}

/// The lines of a new entry with a spelled value.
fn new_value_entry(key: &[u8], t: &[u8], collection: bool, c: usize, unit: usize) -> (r: Vec<u8>)
    requires
        c + unit <= usize::MAX,
    ensures
        r@ == value_entry_text(key@, t@, collection, c as int, unit as int),
{
    let spelled_key: Vec<u8> = emit_key(key);
    let mut out: Vec<u8> = Vec::new();
    append_spaces(&mut out, c);
    append_all(&mut out, spelled_key.as_slice());
    out.push(COLON);
    if collection {
        out.push(NL);
        assert(out@ =~= spaces(c as int) + spelled_key@ + seq![COLON, NL]);
        append_indented(&mut out, t, 0, c + unit);
    } else {
        let inline: Vec<u8> = indent_continuation_lines(t, c);
        out.push(SPACE);
        append_all(&mut out, inline.as_slice());
        out.push(NL);
        assert(out@ =~= spaces(c as int) + spelled_key@ + seq![COLON, SPACE] + inline@ + seq![NL]);
    }
    out
}

/// Text put behind a line break where one is needed.
fn led(s: &[u8], pos: usize, text: &[u8]) -> (r: Vec<u8>)
    requires
        pos <= s@.len(),
    ensures
        r@ == lead(s@, pos as int) + text@,
{
    let mut out: Vec<u8> = Vec::new();
    if leading_break_for_splice(s, pos) {
        out.push(NL);
    }
    assert(out@ =~= lead(s@, pos as int));
    append_all(&mut out, text);
    out
}

impl Document {
    /// Moves an item of the block sequence at a path to another index; the
    /// items between close the gap. Comments stay where they are.
    pub fn move_item(&mut self, path: &str, from: usize, to: usize) -> (r: Result<(), Error>)
        ensures
            edits(
                r,
                old(self)@,
                final(self)@,
                after_move_item(old(self)@, path.spec_bytes(), from as int, to as int),
            ),
    {
        let o: Result<Option<Document>, Error> = self.moving(path.as_bytes(), from, to);
        self.commit(o)
    }

    fn moving(&self, path: &[u8], from: usize, to: usize) -> (r: Result<Option<Document>, Error>)
        ensures
            settles(r, self@, after_move_item(self@, path@, from as int, to as int)),
    {
        let op: Operation = Operation::MoveItem;
        let p: Vec<QuerySegment> = parse_query_path(path);
        let v: &Value = match self.loaded() {
            Some(v) => v,
            None => {
                return refuse(op, Refusal::DoesNotParse);
            },
        };
        let n: usize = match sequence_len_at(v, &p) {
            Ok(n) => n,
            Err(m) => {
                return refuse(op, refusal_of(m, Refusal::NotASequence));
            },
        };
        if from >= n || to >= n {
            return refuse(op, Refusal::IndexOutOfBounds);
        }
        if from == to {
            return Ok(None);
        }
        let mut cur: Document = self.clone();
        let mut k: usize = from;
        if from < to {
            while k < to
                invariant
                    from <= k <= to,
                    carried_up(cur@, path@, k as int, to as int) == carried_up(
                        self@,
                        path@,
                        from as int,
                        to as int,
                    ),
                    after_move_item(self@, path@, from as int, to as int) == carried_up(
                        self@,
                        path@,
                        from as int,
                        to as int,
                    ),
                    op == Operation::MoveItem,
                decreases to - k,
            {
                match cur.swapping(path, k, k + 1) {
                    Ok(Some(d)) => {
                        cur = d;
                    },
                    Ok(None) => {},
                    Err(_) => {
                        return refuse(op, Refusal::StepRefused);
                    },
                }
                k += 1;
            }
        } else {
            while k > to
                invariant
                    to <= k <= from,
                    carried_down(cur@, path@, k as int, to as int) == carried_down(
                        self@,
                        path@,
                        from as int,
                        to as int,
                    ),
                    after_move_item(self@, path@, from as int, to as int) == carried_down(
                        self@,
                        path@,
                        from as int,
                        to as int,
                    ),
                    op == Operation::MoveItem,
                decreases k - to,
            {
                match cur.swapping(path, k, k - 1) {
                    Ok(Some(d)) => {
                        cur = d;
                    },
                    Ok(None) => {},
                    Err(_) => {
                        return refuse(op, Refusal::StepRefused);
                    },
                }
                k -= 1;
            }
        }
        Ok(Some(cur))
    }

    /// The number of spaces by which the source indents its collections: the
    /// smallest step between two lines, or 2 where there is none.
    pub fn indent_unit(&self) -> (r: usize)
        ensures
            r == indent_step(self@.source, 0, None, None),
    {
        detect_indent_unit(self.source().as_bytes())
    }

    /// How most scalar values of the document are written; keys do not count,
    /// and a tie goes to the simpler way.
    pub fn dominant_quote_style(&self) -> (r: ScalarStyle)
        ensures
            r == quote_style(self@.green),
    {
        let t: &Vec<Elem> = self.syntax().elems();
        let plain: usize = count_values(t, SyntaxKind::PlainScalar);
        let single: usize = count_values(t, SyntaxKind::SingleQuotedScalar);
        let double: usize = count_values(t, SyntaxKind::DoubleQuotedScalar);
        if plain >= single && plain >= double {
            ScalarStyle::Plain
        } else if single >= double {
            ScalarStyle::SingleQuoted
        } else {
            ScalarStyle::DoubleQuoted
        }
    }

    /// Whether most collections of the document are written in flow style.
    pub fn dominant_flow_style(&self) -> (r: FlowStyle)
        ensures
            r == collection_style(self@.green),
    {
        let t: &Vec<Elem> = self.syntax().elems();
        let block: (usize, usize) = (
            count_kind(t, SyntaxKind::BlockMapping),
            count_kind(t, SyntaxKind::BlockSequence),
        );
        let flow: (usize, usize) = (
            count_kind(t, SyntaxKind::FlowMapping),
            count_kind(t, SyntaxKind::FlowSequence),
        );
        if flow.0 as u128 + flow.1 as u128 > block.0 as u128 + block.1 as u128 {
            FlowStyle::Auto
        } else {
            FlowStyle::Block
        }
    }

    /// How the document writes its values.
    fn emit_ctx(&self) -> (r: EmitCtx)
        ensures
            r == emit_style(self@),
    {
        EmitCtx {
            quote: self.dominant_quote_style(),
            flow: self.dominant_flow_style(),
            unit: self.indent_unit(),
        }
    }

    /// The bytes of the value with span `x`.
    fn place_of(&self, x: SpanNode) -> (r: Option<(usize, usize)>)
        ensures
            match placed(self@, x) {
                Some((a, b)) => r is Some && (r->0).0 == a && (r->0).1 == b && a <= b
                    <= self@.source.len(),
                None => r is None,
            },
    {
        let (s, _) = self.parts();
        if x.start <= x.end && x.end <= s.len() {
            Some(trim_value_span(s, x.start, x.end))
        } else {
            None
        }
    }

    /// The bytes of item `n` of the sequence at a path.
    fn find_item(&self, p: Vec<QuerySegment>, n: usize) -> (r: Option<(usize, usize)>)
        ensures
            match item_site(self@, segs(p@), n as int) {
                Some((a, b)) => r is Some && (r->0).0 == a && (r->0).1 == b && a <= b
                    <= self@.source.len(),
                None => r is None,
            },
    {
        match self.loaded_with_spans() {
            Some((v, sp)) => match resolve_span(v, sp, &p) {
                Some((i, _)) => {
                    if sp[i].kind != SpanKind::List {
                        return None;
                    }
                    match end_of_span(sp, i) {
                        Some(hi) => match find_nth_span(sp, i + 1, hi, n) {
                            Some(c) => self.place_of(sp[c]),
                            None => None,
                        },
                        None => {
                            assert(nth_span(sp@, i + 1, i + sp@[i as int].size, n as int) is None);
                            None
                        },
                    }
                },
                None => None,
            },
            None => {
                let ghost before = segs(p@);
                let mut q: Vec<QuerySegment> = p;
                q.push(QuerySegment::Index(n));
                assert(segs(q@) =~= before.push(Seg::Index(n as int)));
                self.resolve(&q)
            },
        }
    }

    /// Column of the `-` of the block sequence item whose value starts at `a`.
    fn column_of_block_item(&self, a: usize) -> (r: Option<usize>)
        requires
            a <= self@.source.len(),
        ensures
            match block_item_column(self@, a as int) {
                Some(c) => r is Some && r->0 == c && c <= self@.source.len(),
                None => r is None,
            },
    {
        let (s, t) = self.parts();
        if lies_in_flow(t, a) {
            None
        } else {
            column_of_preceding_dash(s, t, a)
        }
    }

    fn adding_item(&self, a: usize, b: usize, fragment: &[u8], op: Operation) -> (r: Result<
        Document,
        Error,
    >)
        requires
            a <= b <= self@.source.len(),
        ensures
            yields(r, item_added(self@, a as int, b as int, fragment@, op)),
    {
        let (s, _) = self.parts();
        match self.column_of_block_item(a) {
            Some(c) => {
                let pos: usize = start_after_line(s, b);
                let text: Vec<u8> = new_item_line(s, pos, c, fragment);
                self.spliced(pos, pos, text.as_slice())
            },
            None => refuse(op, Refusal::NotABlockSequence),
        }
    }

    /// Appends a fragment, verbatim, to the block sequence at a path.
    pub fn push_back(&mut self, path: &str, fragment: &str) -> (r: Result<(), Error>)
        ensures
            edits(
                r,
                old(self)@,
                final(self)@,
                after_push_back(old(self)@, path.spec_bytes(), fragment.spec_bytes()),
            ),
    {
        match self.pushing(path.as_bytes(), fragment.as_bytes()) {
            Ok(d) => {
                *self = d;
                Ok(())
            },
            Err(x) => Err(x),
        }
    }

    fn pushing(&self, path: &[u8], fragment: &[u8]) -> (r: Result<Document, Error>)
        ensures
            yields(r, after_push_back(self@, path@, fragment@)),
    {
        let op: Operation = Operation::PushBack;
        let p: Vec<QuerySegment> = parse_query_path(path);
        let n: usize = match self.loaded() {
            Some(v) => match sequence_len_at(v, &p) {
                Ok(n) => n,
                Err(m) => {
                    return refuse(op, refusal_of(m, Refusal::NotASequence));
                },
            },
            None => {
                return refuse(op, Refusal::DoesNotParse);
            },
        };
        if n == 0 {
            return refuse(op, Refusal::EmptyCollection);
        }
        match self.find_item(p, n - 1) {
            Some((a, b)) => self.adding_item(a, b, fragment, op),
            None => refuse(op, Refusal::NoAnchor),
        }
    }

    /// Inserts a fragment, verbatim, as an item below the one at a path.
    pub fn insert_after(&mut self, item_path: &str, fragment: &str) -> (r: Result<(), Error>)
        ensures
            edits(
                r,
                old(self)@,
                final(self)@,
                after_insert_after(old(self)@, item_path.spec_bytes(), fragment.spec_bytes()),
            ),
    {
        match self.inserting_after(item_path.as_bytes(), fragment.as_bytes()) {
            Ok(d) => {
                *self = d;
                Ok(())
            },
            Err(x) => Err(x),
        }
    }

    fn inserting_after(&self, path: &[u8], fragment: &[u8]) -> (r: Result<Document, Error>)
        ensures
            yields(r, after_insert_after(self@, path@, fragment@)),
    {
        let op: Operation = Operation::InsertAfter;
        let p: Vec<QuerySegment> = parse_query_path(path);
        let i: usize = match last_index(&p) {
            Some(i) => i,
            None => {
                return refuse(op, Refusal::NotAnIndex);
            },
        };
        let ghost steps = segs(p@);
        let mut parent: Vec<QuerySegment> = p;
        parent.pop();
        assert(segs(parent@) =~= steps.drop_last());
        match self.find_item(parent, i) {
            Some((a, b)) => self.adding_item(a, b, fragment, op),
            None => refuse(op, Refusal::PathNotFound),
        }
    }

    /// Sets a fragment, verbatim, under a key of the block mapping at a path:
    /// in place when the key is there, on a new line below the last entry
    /// when it is not.
    pub fn insert_entry(&mut self, mapping_path: &str, key: &str, fragment: &str) -> (r: Result<
        (),
        Error,
    >)
        ensures
            edits(
                r,
                old(self)@,
                final(self)@,
                after_insert_entry_text(
                    old(self)@,
                    mapping_path.spec_bytes(),
                    key.spec_bytes(),
                    fragment.spec_bytes(),
                ),
            ),
    {
        match self.inserting_entry(mapping_path.as_bytes(), key, fragment.as_bytes()) {
            Ok(d) => {
                *self = d;
                Ok(())
            },
            Err(x) => Err(x),
        }
    }

    fn inserting_entry(&self, path: &[u8], key: &str, fragment: &[u8]) -> (r: Result<
        Document,
        Error,
    >)
        ensures
            yields(r, after_insert_entry_text(self@, path@, key.spec_bytes(), fragment@)),
    {
        let op: Operation = Operation::InsertEntry;
        let p: Vec<QuerySegment> = parse_query_path(path);
        let q: Vec<QuerySegment> = path_to_key(path, key);
        let (v, sp) = match self.loaded_with_spans() {
            Some(x) => x,
            None => {
                return match self.write_span(&q, op) {
                    Ok((a, b)) => self.spliced(a, b, fragment),
                    Err(x) => Err(x),
                };
            },
        };
        assert(segs(p@).len() == p@.len());
        let m: &Mapping = match path_value(v, &p, p.len()) {
            Ok(Value::Mapping(m)) => m,
            Ok(_) => {
                return refuse(op, Refusal::NotAMapping);
            },
            Err(_) => {
                return refuse(op, Refusal::PathNotFound);
            },
        };
        match resolve_span(v, sp, &p) {
            Some((i, through)) => self.setting_entry(
                sp,
                i,
                through,
                m,
                key.as_bytes(),
                &q,
                fragment,
            ),
            None => refuse(op, Refusal::NoAnchor),
        }
    }

    fn setting_entry(
        &self,
        sp: &Vec<SpanNode>,
        i: usize,
        through: bool,
        m: &Mapping,
        key: &[u8],
        q: &Vec<QuerySegment>,
        fragment: &[u8],
    ) -> (r: Result<Document, Error>)
        requires
            i < sp@.len(),
        ensures
            yields(
                r,
                entry_text_set(self@, sp@, i as int, through, m@, key@, segs(q@), fragment@),
            ),
    {
        let op: Operation = Operation::InsertEntry;
        if let Some(c) = find_own_entry(sp, i, m, key) {
            return self.refilling(q, sp[c], through, fragment);
        }
        if m.is_empty() {
            return refuse(op, Refusal::EmptyCollection);
        }
        let (s, t) = self.parts();
        match self.mapping_insert_anchor(sp, i) {
            Some((a, b)) => {
                if lies_in_flow(t, a) {
                    return refuse(op, Refusal::NotABlockMapping);
                }
                let c: usize = column_of_key_at(s, t, a).unwrap();
                let pos: usize = start_after_line(s, b);
                let text: Vec<u8> = led(
                    s,
                    pos,
                    new_entry_text(key, fragment, c, detect_indent_unit(s)).as_slice(),
                );
                self.spliced(pos, pos, text.as_slice())
            },
            None => refuse(op, Refusal::NoAnchor),
        }
    }

    /// The document with the value of an entry replaced.
    fn refilling(&self, q: &Vec<QuerySegment>, x: SpanNode, through: bool, fragment: &[u8]) -> (r:
        Result<Document, Error>)
        ensures
            yields(r, refilled(self@, segs(q@), x, through, fragment@)),
    {
        let (s, _) = self.parts();
        let a: usize = x.start;
        if self.resolve(q).is_none() && !through && x.kind == SpanKind::Leaf && a == x.end && 0 < a
            && a <= s.len() && s[a - 1] == COLON {
            let mut text: Vec<u8> = Vec::new();
            text.push(SPACE);
            append_all(&mut text, fragment);
            assert(text@ =~= seq![SPACE] + fragment@);
            self.spliced(a, a, text.as_slice())
        } else {
            match self.write_span(q, Operation::SetFragment) {
                Ok((a, b)) => self.spliced(a, b, fragment),
                Err(e) => Err(e),
            }
        }
    }
}

/// The steps of the path to a key of the mapping at a path.
fn path_to_key(path: &[u8], key: &str) -> (r: Vec<QuerySegment>)
    ensures
        segs(r@) == path_steps(path@).push(Seg::Key(key.spec_bytes())),
{
    let mut q: Vec<QuerySegment> = parse_query_path(path);
    let ghost before = segs(q@);
    q.push(QuerySegment::Key(key.to_owned()));
    assert(segs(q@) =~= before.push(Seg::Key(key.spec_bytes())));
    q
}

/// Finds the span of the value under a key that the mapping has itself.
fn find_own_entry(sp: &Vec<SpanNode>, i: usize, m: &Mapping, key: &[u8]) -> (r: Option<usize>)
    requires
        i < sp@.len(),
    ensures
        match own_entry(sp@, i as int, m@, key@) {
            Some(c) => r is Some && r->0 == c && c < sp@.len(),
            None => r is None,
        },
{
    match m.position(key) {
        Some(x) => {
            if sp[i].kind != SpanKind::Dict {
                return None;
            }
            match end_of_span(sp, i) {
                Some(hi) => find_nth_span(sp, i + 1, hi, x),
                None => {
                    assert(nth_span(sp@, i + 1, i + sp@[i as int].size, x as int) is None);
                    None
                },
            }
        },
        None => None,
    }
}

/// Counts the children of a span.
fn count_children(sp: &Vec<SpanNode>, i: usize) -> (r: usize)
    requires
        i < sp@.len(),
    ensures
        r == children(sp@, i + 1, i + sp@[i as int].size),
{
    let hi: usize = match end_of_span(sp, i) {
        Some(hi) => hi,
        None => {
            return 0;
        },
    };
    let mut c: usize = i + 1;
    let mut n: usize = 0;
    while c < hi && hi <= sp.len()
        invariant
            i < c <= hi == i + sp@[i as int].size,
            n <= c,
            n + children(sp@, c as int, hi as int) == children(sp@, i + 1, hi as int),
        decreases hi - c,
    {
        let x: SpanNode = sp[c];
        if x.size < 1 || x.size > hi - c {
            return n;
        }
        n += 1;
        c += x.size;
    }
    n
}

/// Finds the child of a span that starts last in the source.
fn find_lowest(sp: &Vec<SpanNode>, i: usize) -> (r: Option<usize>)
    requires
        i < sp@.len(),
    ensures
        match lowest(sp@, i + 1, i + sp@[i as int].size, None) {
            Some(c) => r is Some && r->0 == c && c < sp@.len(),
            None => r is None,
        },
{
    let hi: usize = match end_of_span(sp, i) {
        Some(hi) => hi,
        None => {
            return None;
        },
    };
    let mut c: usize = i + 1;
    let mut best: Option<usize> = None;
    while c < hi && hi <= sp.len()
        invariant
            c <= hi == i + sp@[i as int].size,
            best matches Some(b) ==> b < sp@.len(),
            lowest(sp@, c as int, hi as int, opt(best)) == lowest(
                sp@,
                i + 1,
                hi as int,
                None,
            ),
        decreases hi - c,
    {
        let x: SpanNode = sp[c];
        if x.size < 1 || x.size > hi - c {
            return best;
        }
        best = match best {
            Some(b) => if sp[b].start > x.start {
                Some(b)
            } else {
                Some(c)
            },
            None => Some(c),
        };
        c += x.size;
    }
    best
}

/// The index that a path ends in.
fn last_index(p: &Vec<QuerySegment>) -> (r: Option<usize>)
    ensures
        match r {
            Some(i) => p@.len() > 0 && segs(p@)[p@.len() - 1] is Index && segs(p@)[p@.len()
                - 1]->Index_0 == i,
            None => !(p@.len() > 0 && segs(p@)[p@.len() - 1] is Index),
        },
        segs(p@).len() == p@.len(),
{
    let n: usize = p.len();
    if n == 0 {
        return None;
    }
    match &p[n - 1] {
        QuerySegment::Index(i) => Some(*i),
        _ => None,
    }
}

impl Document {
    /// The spelling of a value for an item whose `-` is in column `c`.
    fn emit_sequence_item(&self, v: &Value, c: usize) -> (r: Option<Vec<u8>>)
        requires
            c + 2 <= usize::MAX,
        ensures
            match item_spelling(self@, v@, c as int) {
                Some(t) => r is Some && r->0@ == t,
                None => r is None,
            },
    {
        let ctx: EmitCtx = self.emit_ctx();
        match emit_value(v, &ctx) {
            Some(t) => Some(indent_continuation_lines(t.as_slice(), c + 2)),
            None => None,
        }
    }

    /// Column of the `-` of an item, and where its value starts.
    fn sequence_item_anchor(&self, p: Vec<QuerySegment>, i: usize, op: Operation) -> (r: Result<
        (usize, usize),
        Error,
    >)
        ensures
            match item_anchor(self@, segs(p@), i as int, op) {
                Ok((c, a)) => r is Ok && r->Ok_0.0 == c && r->Ok_0.1 == a && c <= self@.source.len()
                    && a <= self@.source.len() && self@.wf(),
                Err(x) => r is Err && r->Err_0 == x,
            },
    {
        let (_, _) = self.parts();
        match self.find_item(p, i) {
            Some((a, _)) => match self.column_of_block_item(a) {
                Some(c) => Ok((c, a)),
                None => refuse(op, Refusal::NotABlockSequence),
            },
            None => refuse(op, Refusal::NoAnchor),
        }
    }

    /// How many aliases refer to the anchored value that byte `pos` lies in.
    fn aliases_covering(&self, pos: usize) -> (r: usize)
        ensures
            r == covering_aliases(self@.source, self@.green, 0, pos as int),
    {
        let (s, t) = self.parts();
        aliased_anchor_covering(s, t, pos)
    }

    /// Appends a value to the block sequence at a path, spelled so that it
    /// loads to exactly that value.
    pub fn push_back_value<E: Emit + ?Sized>(&mut self, path: &str, value: &E) -> (r: Result<
        (),
        Error,
    >)
        ensures
            edits(
                r,
                old(self)@,
                final(self)@,
                after_push_back_value(old(self)@, path.spec_bytes(), value.model()),
            ),
    {
        let v: Value = value.expected_value();
        let o: Result<Option<Document>, Error> = self.pushing_value(path.as_bytes(), &v);
        self.commit(o)
    }

    fn pushing_value(&self, path: &[u8], new: &Value) -> (r: Result<Option<Document>, Error>)
        ensures
            settles(r, self@, after_push_back_value(self@, path@, new@)),
    {
        let op: Operation = Operation::PushBackValue;
        let p: Vec<QuerySegment> = parse_query_path(path);
        let v: &Value = match self.loaded() {
            Some(v) => v,
            None => {
                return refuse(op, Refusal::DoesNotParse);
            },
        };
        let n: usize = match sequence_len_at(v, &p) {
            Ok(n) => n,
            Err(m) => {
                return refuse(op, refusal_of(m, Refusal::NotASequence));
            },
        };
        let expected: Value = match expected_after_insert_item(v, &p, n, new) {
            Ok(x) => x,
            Err(m) => {
                return refuse(op, refusal_of(m, Refusal::NotASequence));
            },
        };
        if n == 0 {
            return refuse(op, Refusal::EmptyCollection);
        }
        let (c, a) = match self.sequence_item_anchor(p, n - 1, op) {
            Ok(x) => x,
            Err(x) => {
                return Err(x);
            },
        };
        let shared: usize = self.aliases_covering(a);
        if shared > 0 {
            return refuse(op, Refusal::InsideAnchor(shared));
        }
        match self.emit_sequence_item(new, c) {
            Some(t) => {
                let next: Result<Document, Error> = self.pushing(path, t.as_slice());
                assert(yields(next, after_push_back(self@, path@, t@)));
                Document::held(next, &expected, op)
            },
            None => refuse(op, Refusal::NoSpelling),
        }
    }

    /// Inserts a value as an item below the one at a path, spelled so that it
    /// loads to exactly that value.
    pub fn insert_after_value<E: Emit + ?Sized>(&mut self, item_path: &str, value: &E) -> (r:
        Result<(), Error>)
        ensures
            edits(
                r,
                old(self)@,
                final(self)@,
                after_insert_after_value(old(self)@, item_path.spec_bytes(), value.model()),
            ),
    {
        let v: Value = value.expected_value();
        let o: Result<Option<Document>, Error> = self.inserting_value_after(
            item_path.as_bytes(),
            &v,
        );
        self.commit(o)
    }

    fn inserting_value_after(&self, path: &[u8], new: &Value) -> (r: Result<
        Option<Document>,
        Error,
    >)
        ensures
            settles(r, self@, after_insert_after_value(self@, path@, new@)),
    {
        let op: Operation = Operation::InsertAfterValue;
        let p: Vec<QuerySegment> = parse_query_path(path);
        let v: &Value = match self.loaded() {
            Some(v) => v,
            None => {
                return refuse(op, Refusal::DoesNotParse);
            },
        };
        let i: usize = match last_index(&p) {
            Some(i) => i,
            None => {
                return refuse(op, Refusal::NotAnIndex);
            },
        };
        let parent: Vec<u8> = sequence_parent_path(path);
        let pp: Vec<QuerySegment> = parse_query_path(parent.as_slice());
        match sequence_len_at(v, &pp) {
            Ok(n) => {
                if i >= n {
                    return refuse(op, Refusal::IndexOutOfBounds);
                }
            },
            Err(m) => {
                return refuse(op, refusal_of(m, Refusal::NotASequence));
            },
        }
        let expected: Value = match expected_after_insert_item(v, &pp, i + 1, new) {
            Ok(x) => x,
            Err(m) => {
                return refuse(op, refusal_of(m, Refusal::NotASequence));
            },
        };
        let (c, a) = match self.sequence_item_anchor(pp, i, op) {
            Ok(x) => x,
            Err(x) => {
                return Err(x);
            },
        };
        let shared: usize = self.aliases_covering(a);
        if shared > 0 {
            return refuse(op, Refusal::InsideAnchor(shared));
        }
        match self.emit_sequence_item(new, c) {
            Some(t) => {
                let next: Result<Document, Error> = self.inserting_after(path, t.as_slice());
                assert(yields(next, after_insert_after(self@, path@, t@)));
                Document::held(next, &expected, op)
            },
            None => refuse(op, Refusal::NoSpelling),
        }
    }

    /// The bytes of the value of the entry that comes last in a mapping.
    fn mapping_insert_anchor(&self, sp: &Vec<SpanNode>, i: usize) -> (r: Option<(usize, usize)>)
        requires
            i < sp@.len(),
        ensures
            match lowest_entry(self@, sp@, i as int) {
                Some((a, b)) => r is Some && (r->0).0 == a && (r->0).1 == b && a <= b
                    <= self@.source.len(),
                None => r is None,
            },
    {
        match find_lowest(sp, i) {
            Some(c) => self.place_of(sp[c]),
            None => None,
        }
    }

    /// Sets a value under a key of the block mapping at a path, both spelled
    /// so that they load to exactly what is given: in place when the key is
    /// there, on a new line below the last entry when it is not.
    pub fn insert_entry_value<E: Emit + ?Sized>(
        &mut self,
        mapping_path: &str,
        key: &str,
        value: &E,
    ) -> (r: Result<(), Error>)
        ensures
            edits(
                r,
                old(self)@,
                final(self)@,
                after_insert_entry_value(
                    old(self)@,
                    mapping_path.spec_bytes(),
                    key.spec_bytes(),
                    value.model(),
                ),
            ),
    {
        let v: Value = value.expected_value();
        let o: Result<Option<Document>, Error> = self.inserting_entry_value(
            mapping_path.as_bytes(),
            key,
            &v,
        );
        self.commit(o)
    }

    fn inserting_entry_value(&self, path: &[u8], key: &str, new: &Value) -> (r: Result<
        Option<Document>,
        Error,
    >)
        ensures
            settles(r, self@, after_insert_entry_value(self@, path@, key.spec_bytes(), new@)),
    {
        let op: Operation = Operation::InsertEntryValue;
        let name: &[u8] = key.as_bytes();
        let p: Vec<QuerySegment> = parse_query_path(path);
        let (v, sp) = match self.loaded_with_spans() {
            Some(x) => x,
            None => {
                return refuse(op, Refusal::DoesNotParse);
            },
        };
        if is_word(name, "<<") {
            return refuse(op, Refusal::MergeKeyName);
        }
        if let Some(c) = first_non_printable(name) {
            return refuse(op, Refusal::NonPrintable(c));
        }
        assert(segs(p@).len() == p@.len());
        let m: &Mapping = match path_value(v, &p, p.len()) {
            Ok(Value::Mapping(m)) => m,
            Ok(_) => {
                return refuse(op, Refusal::NotAMapping);
            },
            Err(_) => {
                return refuse(op, Refusal::PathNotFound);
            },
        };
        let (i, through) = match resolve_span(v, sp, &p) {
            Some(x) => x,
            None => {
                return refuse(op, Refusal::NoAnchor);
            },
        };
        let owned: String = key.to_owned();
        let own: usize = count_children(sp, i);
        match expected_after_insert_entry(v, &p, &owned, new, own) {
            Ok(expected) => self.setting_entry_value(
                sp,
                i,
                through,
                m,
                name,
                &path_to_key(path, key),
                new,
                &expected,
            ),
            Err(_) => refuse(op, Refusal::NotAMapping),
        }
    }

    fn setting_entry_value(
        &self,
        sp: &Vec<SpanNode>,
        i: usize,
        through: bool,
        m: &Mapping,
        name: &[u8],
        q: &Vec<QuerySegment>,
        new: &Value,
        expected: &Value,
    ) -> (r: Result<Option<Document>, Error>)
        requires
            i < sp@.len(),
        ensures
            settles(
                r,
                self@,
                entry_value_set(
                    self@,
                    sp@,
                    i as int,
                    through,
                    m@,
                    name@,
                    segs(q@),
                    new@,
                    expected@,
                ),
            ),
    {
        let op: Operation = Operation::InsertEntryValue;
        let (s, t) = self.parts();
        if m.position(name).is_some() && (contains_byte(name, DOT) || contains_byte(
            name,
            LBRACKET,
        )) {
            return refuse(op, Refusal::NotAddressable);
        }
        let own: Option<usize> = find_own_entry(sp, i, m, name);
        let collection: bool = matches!(new, Value::Sequence(_) | Value::Mapping(_));
        if own.is_some() && collection {
            return refuse(op, Refusal::GrowsCollection);
        }
        if m.is_empty() {
            return refuse(op, Refusal::EmptyCollection);
        }
        let site: Option<(usize, usize)> = match own {
            Some(c) => self.place_of(sp[c]),
            None => self.mapping_insert_anchor(sp, i),
        };
        let (a, b) = match site {
            Some(x) => x,
            None => {
                return refuse(op, Refusal::NoAnchor);
            },
        };
        let shared: usize = self.aliases_covering(a);
        if shared > 0 {
            return refuse(op, Refusal::InsideAnchor(shared));
        }
        if own.is_none() && lies_in_flow(t, a) {
            return refuse(op, Refusal::NotABlockMapping);
        }
        let c: usize = column_of_key_at(s, t, a).unwrap();
        let ctx: EmitCtx = self.emit_ctx();
        let unit: usize = detect_indent_unit(s);
        assert(unit == emit_style(self@).unit);
        let spelling: Vec<u8> = match emit_value(new, &ctx) {
            Some(x) => x,
            None => {
                return refuse(op, Refusal::NoSpelling);
            },
        };
        match own {
            Some(x) => {
                let inline: Vec<u8> = indent_continuation_lines(spelling.as_slice(), c);
                let next: Result<Document, Error> = self.refilling(
                    q,
                    sp[x],
                    through,
                    inline.as_slice(),
                );
                assert(yields(
                    next,
                    refilled(self@, segs(q@), sp@[x as int], through, inline@),
                ));
                Document::held(next, expected, op)
            },
            None => {
                let pos: usize = start_after_line(s, b);
                let entry: Vec<u8> = new_value_entry(
                    name,
                    spelling.as_slice(),
                    collection,
                    c,
                    unit,
                );
                let text: Vec<u8> = led(s, pos, entry.as_slice());
                let next: Result<Document, Error> = self.spliced(pos, pos, text.as_slice());
                assert(yields(next, replaced_span(self@, pos as int, pos as int, text@)));
                Document::held(next, expected, op)
            },
        }
    }
}

} // verus!
