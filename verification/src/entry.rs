//! Locating entries: the bytes of a key, and the bytes to delete when an
//! entry or item is removed.
use crate::error::Refusal;
use crate::lexis::{end_of_gap, gap};
use crate::lines::{
    end_of_line, entry_indent_column, indent_column, line_end, line_start, owned_end,
    owned_entry_range, owned_lines, owned_value_end, start_of_line,
};
use crate::load::{SpanNode, SpanKind};
use crate::path::{segs, QuerySegment, Seg};
use crate::resolve::{find_nth_span, nth_span};
use crate::site::{find_owner, owner};
use crate::syntax::{Elem, SyntaxKind};
use crate::text::{
    append_spaces, back, bytes_eq, is_break, line_break, run, scan, scan_back, spaces, Class, AMP, BANG, COMMA, LBRACE,
    LBRACKET, NL, RBRACE, RBRACKET,
};
use crate::value::{
    data, dicts_are_pointwise, find, list, lists_are_pointwise, Data, Mapping, Value,
};
use vstd::prelude::*;
use vstd::string::*;

verus! {

/// The child that a step leads to from the value `d` with span `i`, or why it
/// leads nowhere.
pub open spec fn child_site(d: Data, sp: Seq<SpanNode>, i: int, step: Seg) -> Result<
    (Data, int),
    Refusal,
> {
    let hi = i + sp[i].size;
    match (step, d) {
        (Seg::Key(k), Data::Dict(m)) => if sp[i].kind != SpanKind::Dict {
            Err(Refusal::PathNotFound)
        } else {
            match find(m, k) {
                Some(x) => match nth_span(sp, i + 1, hi, x) {
                    Some(c) => Ok((m[x].1, c)),
                    None => Err(Refusal::ProvidedByMerge),
                },
                None => Err(Refusal::MissingKey),
            }
        },
        (Seg::Index(n), Data::List(v)) => if sp[i].kind != SpanKind::List {
            Err(Refusal::PathNotFound)
        } else if !(0 <= n < v.len()) {
            Err(Refusal::IndexOutOfBounds)
        } else {
            match nth_span(sp, i + 1, hi, n) {
                Some(c) => Ok((v[n], c)),
                None => Err(Refusal::IndexOutOfBounds),
            }
        },
        _ => Err(Refusal::PathNotFound),
    }
}

/// End of the spans below span `i`.
pub(crate) fn end_of_span(sp: &Vec<SpanNode>, i: usize) -> (r: Option<usize>)
    requires
        i < sp@.len(),
    ensures
        match r {
            Some(hi) => hi == i + sp@[i as int].size && i < hi,
            None => (sp@[i as int].size < 1 || i + sp@[i as int].size > sp@.len()) && forall|n: int|
                #[trigger] nth_span(sp@, i + 1, i + sp@[i as int].size, n) is None,
        },
{
    let n: usize = sp.len();
    let x: SpanNode = sp[i];
    if x.size < 1 || x.size > n - i {
        None
    } else {
        Some(i + x.size)
    }
}

/// Finds the child that a step leads to.
fn find_child_site<'a>(v: &'a Value, sp: &Vec<SpanNode>, i: usize, step: &QuerySegment) -> (r: Result<
    (&'a Value, usize),
    Refusal,
>)
    requires
        i < sp@.len(),
    ensures
        match child_site(v@, sp@, i as int, step@) {
            Ok((d, c)) => r is Ok && r->Ok_0.0@ == d && r->Ok_0.1 == c && i < c < sp@.len(),
            Err(x) => r is Err && r->Err_0 == x,
        },
{
    let kind: SpanKind = sp[i].kind;
    match (step, v) {
        (QuerySegment::Key(k), Value::Mapping(m)) => {
            if kind != SpanKind::Dict {
                return Err(Refusal::PathNotFound);
            }
            proof {
                dicts_are_pointwise(m.entries@);
            }
            match m.position(k.as_str().as_bytes()) {
                Some(y) => {
                    assert(m@[y as int].1 == data(m.entries@[y as int].1));
                    match end_of_span(sp, i) {
                        Some(hi) => match find_nth_span(sp, i + 1, hi, y) {
                            Some(c) => Ok((&m.entries[y].1, c)),
                            None => Err(Refusal::ProvidedByMerge),
                        },
                        None => {
                            assert(nth_span(sp@, i + 1, i + sp@[i as int].size, y as int) is None);
                            Err(Refusal::ProvidedByMerge)
                        },
                    }
                },
                None => Err(Refusal::MissingKey),
            }
        },
        (QuerySegment::Index(y), Value::Sequence(l)) => {
            if kind != SpanKind::List {
                return Err(Refusal::PathNotFound);
            }
            proof {
                lists_are_pointwise(l@);
            }
            if *y >= l.len() {
                return Err(Refusal::IndexOutOfBounds);
            }
            assert(list(l@)[*y as int] == data(l@[*y as int]));
            match end_of_span(sp, i) {
                Some(hi) => match find_nth_span(sp, i + 1, hi, *y) {
                    Some(c) => Ok((&l[*y], c)),
                    None => Err(Refusal::IndexOutOfBounds),
                },
                None => {
                    assert(nth_span(sp@, i + 1, i + sp@[i as int].size, *y as int) is None);
                    Err(Refusal::IndexOutOfBounds)
                },
            }
        },
        _ => Err(Refusal::PathNotFound),
    }
}

/// The range of the key of the entry that the last step of a path leads to
/// from the value `d` with span `i`. A new name for the key is refused when
/// the mapping has another entry of that name.
pub open spec fn own_key(
    d: Data,
    sp: Seq<SpanNode>,
    i: int,
    step: Seg,
    new_key: Option<Seq<u8>>,
) -> Result<(int, int), Refusal> {
    let hi = i + sp[i].size;
    match (step, d) {
        (Seg::Key(k), Data::Dict(m)) => if sp[i].kind != SpanKind::Dict {
            Err(Refusal::PathNotFound)
        } else {
            match find(m, k) {
                Some(x) => if new_key is Some && new_key->0 != k && find(m, new_key->0) is Some {
                    if nth_span(sp, i + 1, hi, find(m, new_key->0)->0) is None {
                        Err(Refusal::OverridesMerge)
                    } else {
                        Err(Refusal::DuplicateKey)
                    }
                } else {
                    match nth_span(sp, i + 1, hi, x) {
                        Some(c) => Ok((sp[c].key_start as int, sp[c].key_end as int)),
                        None => Err(Refusal::ProvidedByMerge),
                    }
                },
                None => Err(Refusal::MissingKey),
            }
        },
        (Seg::Index(_), _) => Err(Refusal::NotAKey),
        _ => Err(Refusal::PathNotFound),
    }
}

/// The range of the key of the entry that the steps `p[k..]` lead to.
pub open spec fn key_site(
    d: Data,
    sp: Seq<SpanNode>,
    i: int,
    p: Seq<Seg>,
    k: int,
    new_key: Option<Seq<u8>>,
) -> Result<(int, int), Refusal>
    decreases p.len() - k,
{
    if !(0 <= i < sp.len()) {
        Err(Refusal::PathNotFound)
    } else if sp[i].kind == SpanKind::Alias {
        Err(Refusal::ThroughAlias)
    } else if k >= p.len() {
        Err(Refusal::EmptyPath)
    } else if k + 1 < p.len() {
        match child_site(d, sp, i, p[k]) {
            Ok((e, c)) => key_site(e, sp, c, p, k + 1, new_key),
            Err(x) => Err(x),
        }
    } else {
        own_key(d, sp, i, p[k], new_key)
    }
}

fn find_own_key(
    v: &Value,
    sp: &Vec<SpanNode>,
    i: usize,
    step: &QuerySegment,
    new_key: Option<&[u8]>,
) -> (r: Result<(usize, usize), Refusal>)
    requires
        i < sp@.len(),
    ensures
        match own_key(
            v@,
            sp@,
            i as int,
            step@,
            match new_key {
                Some(n) => Some(n@),
                None => None,
            },
        ) {
            Ok((a, b)) => r is Ok && r->Ok_0.0 == a && r->Ok_0.1 == b,
            Err(x) => r is Err && r->Err_0 == x,
        },
{
    let kind: SpanKind = sp[i].kind;
    match (step, v) {
        (QuerySegment::Key(k), Value::Mapping(m)) => {
            if kind != SpanKind::Dict {
                return Err(Refusal::PathNotFound);
            }
            let x: usize = match m.position(k.as_str().as_bytes()) {
                Some(x) => x,
                None => {
                    return Err(Refusal::MissingKey);
                },
            };
            let end: Option<usize> = end_of_span(sp, i);
            if let Some(n) = new_key {
                if !bytes_eq(n, k.as_str().as_bytes()) {
                    if let Some(y) = m.position(n) {
                        let there: bool = match end {
                            Some(hi) => find_nth_span(sp, i + 1, hi, y).is_some(),
                            None => {
                                assert(nth_span(
                                    sp@,
                                    i + 1,
                                    i + sp@[i as int].size,
                                    y as int,
                                ) is None);
                                false
                            },
                        };
                        return if there {
                            Err(Refusal::DuplicateKey)
                        } else {
                            Err(Refusal::OverridesMerge)
                        };
                    }
                }
            }
            match end {
                Some(hi) => match find_nth_span(sp, i + 1, hi, x) {
                    Some(c) => Ok((sp[c].key_start, sp[c].key_end)),
                    None => Err(Refusal::ProvidedByMerge),
                },
                None => {
                    assert(nth_span(sp@, i + 1, i + sp@[i as int].size, x as int) is None);
                    Err(Refusal::ProvidedByMerge)
                },
            }
        },
        (QuerySegment::Index(_), _) => Err(Refusal::NotAKey),
        _ => Err(Refusal::PathNotFound),
    }
}

/// Finds the range of the key of the entry at a path.
pub fn entry_key_site(
    v: &Value,
    sp: &Vec<SpanNode>,
    p: &Vec<QuerySegment>,
    new_key: Option<&[u8]>,
) -> (r: Result<(usize, usize), Refusal>)
    ensures
        match key_site(
            v@,
            sp@,
            0,
            segs(p@),
            0,
            match new_key {
                Some(n) => Some(n@),
                None => None,
            },
        ) {
            Ok((a, b)) => r is Ok && r->Ok_0.0 == a && r->Ok_0.1 == b,
            Err(x) => r is Err && r->Err_0 == x,
        },
{
    let ghost name = match new_key {
        Some(n) => Some(n@),
        None => None,
    };
    assert(segs(p@).len() == p@.len());
    let mut cur: &Value = v;
    let mut i: usize = 0;
    let mut k: usize = 0;
    loop
        invariant
            k <= p@.len(),
            segs(p@).len() == p@.len(),
            name == (match new_key {
                Some(n) => Some(n@),
                None => None,
            }),
            key_site(cur@, sp@, i as int, segs(p@), k as int, name) == key_site(
                v@,
                sp@,
                0,
                segs(p@),
                0,
                name,
            ),
        decreases p@.len() - k,
    {
        if i >= sp.len() {
            return Err(Refusal::PathNotFound);
        }
        if sp[i].kind == SpanKind::Alias {
            return Err(Refusal::ThroughAlias);
        }
        if k >= p.len() {
            return Err(Refusal::EmptyPath);
        }
        assert(segs(p@)[k as int] == p@[k as int]@);
        if k + 1 < p.len() {
            match find_child_site(cur, sp, i, &p[k]) {
                Ok((w, c)) => {
                    cur = w;
                    i = c;
                    k += 1;
                },
                Err(x) => {
                    return Err(x);
                },
            }
        } else {
            return find_own_key(cur, sp, i, &p[k], new_key);
        }
    }
}

/// `at`, moved back over the anchors and tags that precede it on its line, no
/// further than `lo`.
pub open spec fn marks_before(s: Seq<u8>, lo: int, at: int) -> int
    decreases at - lo,
{
    let w = back(s, lo, at, Class::Blank);
    let x = back(s, lo, w, Class::Name);
    if lo <= x < w && w <= at && (s[x] == AMP || s[x] == BANG) {
        marks_before(s, lo, x)
    } else {
        at
    }
}

fn start_of_marks(s: &[u8], lo: usize, at: usize) -> (r: usize)
    requires
        lo <= at <= s@.len(),
    ensures
        r == marks_before(s@, lo as int, at as int),
        lo <= r <= at,
{
    let mut p: usize = at;
    loop
        invariant
            lo <= p <= at <= s@.len(),
            marks_before(s@, lo as int, p as int) == marks_before(s@, lo as int, at as int),
        decreases p,
    {
        let w: usize = scan_back(s, lo, p, Class::Blank);
        let x: usize = scan_back(s, lo, w, Class::Name);
        if x < w && (s[x] == AMP || s[x] == BANG) {
            p = x;
        } else {
            return p;
        }
    }
}

/// The bytes to delete so that the flow member `a..b` goes with one of the
/// commas around it. A member alone on its line takes the line along.
pub open spec fn member_range(s: Seq<u8>, lo: int, a: int, b: int) -> (int, int) {
    let n = s.len() as int;
    let q = gap(s, b);
    let e = run(s, q + 1, n, Class::Blank);
    let line = line_start(s, a);
    let w = back(s, lo, a, Class::White);
    if q < n && s[q] == COMMA {
        if run(s, line, a, Class::Blank) == a && (e >= n || line_break(s[e])) {
            (line, line_end(s, e))
        } else {
            (a, e)
        }
    } else if lo < w && s[w - 1] == COMMA {
        (w - 1, b)
    } else {
        (a, b)
    }
}

fn member_bytes(s: &[u8], lo: usize, a: usize, b: usize) -> (r: (usize, usize))
    requires
        lo <= a <= s@.len(),
        b <= s@.len(),
    ensures
        (r.0 as int, r.1 as int) == member_range(s@, lo as int, a as int, b as int),
{
    let n: usize = s.len();
    let q: usize = end_of_gap(s, b);
    if q < n && s[q] == COMMA {
        let e: usize = scan(s, q + 1, n, Class::Blank);
        let line: usize = start_of_line(s, a);
        if scan(s, line, a, Class::Blank) == a && (e >= n || is_break(s[e])) {
            return (line, end_of_line(s, e));
        }
        return (a, e);
    }
    let w: usize = scan_back(s, lo, a, Class::White);
    if lo < w && s[w - 1] == COMMA {
        (w - 1, b)
    } else {
        (a, b)
    }
}

/// An empty collection.
pub open spec fn empty_braces(map: bool) -> Seq<u8> {
    if map {
        seq![LBRACE, RBRACE]
    } else {
        seq![LBRACKET, RBRACKET]
    }
}

/// Whether the child at `e` is in the column of the key that its collection is
/// the value of.
pub open spec fn unindented(s: Seq<u8>, t: Seq<Elem>, e: int) -> bool {
    match owner(t, SyntaxKind::MappingEntry, e) {
        Some(k) => k - line_start(s, k) == e - line_start(s, e),
        None => false,
    }
}

/// What an empty collection in place of the child at `e` is moved to the right
/// by: it has to be to the right of its key.
pub open spec fn shift(s: Seq<u8>, t: Seq<Elem>, e: int) -> Seq<u8> {
    if unindented(s, t, e) {
        spaces(2)
    } else {
        Seq::empty()
    }
}

/// Whether the child at `e` is in the column of the key of its collection.
fn level_with_key(s: &[u8], t: &Vec<Elem>, e: usize) -> (r: bool)
    requires
        e <= s@.len(),
    ensures
        r == unindented(s@, t@, e as int),
{
    match find_owner(t, SyntaxKind::MappingEntry, e) {
        Some(k) => k - start_of_line(s, k) == e - start_of_line(s, e),
        None => false,
    }
}

/// The bytes to replace, and by what, to remove the child with span `child`
/// from the collection with span `parent`. A flow member goes with a comma, a
/// block entry with the lines it owns; one that shares its line with what it
/// stands in leaves its place to the next one. The only child of a collection
/// leaves an empty collection behind.
pub open spec fn removal(
    s: Seq<u8>,
    t: Seq<Elem>,
    parent: SpanNode,
    child: SpanNode,
    map: bool,
    sole: bool,
) -> Result<(int, int, Seq<u8>), Refusal> {
    let n = s.len() as int;
    let ps = parent.start as int;
    if !(parent.start < parent.end <= n && child.start <= child.end <= n && child.key_start <= n) {
        Err(Refusal::PathNotFound)
    } else if s[ps] == (if map {
        LBRACE
    } else {
        LBRACKET
    }) {
        let at = if map {
            child.key_start as int
        } else {
            child.start as int
        };
        if sole {
            Ok((ps, parent.end as int, empty_braces(map)))
        } else if at <= ps {
            Err(Refusal::PathNotFound)
        } else {
            let (a, b) = member_range(s, ps + 1, marks_before(s, ps + 1, at), child.end as int);
            Ok((a, b, Seq::empty()))
        }
    } else {
        match owner(
            t,
            if map {
                SyntaxKind::MappingEntry
            } else {
                SyntaxKind::SequenceItem
            },
            child.start as int,
        ) {
            Some(e) => {
                let (a, b) = owned_lines(s, e, child.start as int, child.end as int);
                let alone = run(s, line_start(s, e), e, Class::Blank) == e;
                let tail = if 0 < b && s[b - 1] == NL {
                    seq![NL]
                } else {
                    Seq::empty()
                };
                if e > n {
                    Err(Refusal::PathNotFound)
                } else if !sole && alone {
                    Ok((a, b, Seq::empty()))
                } else if !sole {
                    Ok((e, run(s, b, n, Class::Blank), Seq::empty()))
                } else if alone {
                    Ok(
                        (
                            a,
                            b,
                            spaces(indent_column(s, e)) + shift(s, t, e) + empty_braces(map) + tail,
                        ),
                    )
                } else {
                    Ok((e, owned_end(s, child.start as int, child.end as int), empty_braces(map)))
                }
            },
            None => Err(
                if map {
                    Refusal::NotABlockMapping
                } else {
                    Refusal::NotABlockSequence
                },
            ),
        }
    }
}

fn push_braces(out: &mut Vec<u8>, map: bool)
    ensures
        final(out)@ == old(out)@ + empty_braces(map),
{
    if map {
        out.push(LBRACE);
        out.push(RBRACE);
    } else {
        out.push(LBRACKET);
        out.push(RBRACKET);
    }
    assert(out@ =~= old(out)@ + empty_braces(map));
}

fn removal_bytes(
    s: &[u8],
    t: &Vec<Elem>,
    parent: SpanNode,
    child: SpanNode,
    map: bool,
    sole: bool,
) -> (r: Result<(usize, usize, Vec<u8>), Refusal>)
    ensures
        match removal(s@, t@, parent, child, map, sole) {
            Ok((a, b, t)) => r is Ok && r->Ok_0.0 == a && r->Ok_0.1 == b && r->Ok_0.2@ == t,
            Err(x) => r is Err && r->Err_0 == x,
        },
{
    let n: usize = s.len();
    if !(parent.start < parent.end && parent.end <= n && child.start <= child.end && child.end <= n
        && child.key_start <= n) {
        return Err(Refusal::PathNotFound);
    }
    let opener: u8 = if map {
        LBRACE
    } else {
        LBRACKET
    };
    let mut text: Vec<u8> = Vec::new();
    assert(text@ =~= Seq::empty());
    if s[parent.start] == opener {
        if sole {
            push_braces(&mut text, map);
            assert(text@ =~= empty_braces(map));
            return Ok((parent.start, parent.end, text));
        }
        let at: usize = if map {
            child.key_start
        } else {
            child.start
        };
        if at <= parent.start {
            return Err(Refusal::PathNotFound);
        }
        let from: usize = start_of_marks(s, parent.start + 1, at);
        let (a, b) = member_bytes(s, parent.start + 1, from, child.end);
        return Ok((a, b, text));
    }
    let kind: SyntaxKind = if map {
        SyntaxKind::MappingEntry
    } else {
        SyntaxKind::SequenceItem
    };
    match find_owner(t, kind, child.start) {
        Some(e) => {
            let (a, b, _) = owned_entry_range(s, e, child.start, child.end);
            let line: usize = start_of_line(s, e);
            let alone: bool = scan(s, line, e, Class::Blank) == e;
            if !sole {
                if alone {
                    return Ok((a, b, text));
                }
                return Ok((e, scan(s, b, n, Class::Blank), text));
            }
            if alone {
                let indent: usize = entry_indent_column(s, e);
                append_spaces(&mut text, indent);
                if level_with_key(s, t, e) {
                    append_spaces(&mut text, 2);
                }
                push_braces(&mut text, map);
                let ghost so_far = text@;
                if 0 < b && s[b - 1] == NL {
                    text.push(NL);
                    assert(text@ =~= so_far + seq![NL]);
                } else {
                    assert(so_far =~= so_far + Seq::<u8>::empty());
                }
                assert(so_far =~= spaces(indent as int) + shift(s@, t@, e as int) + empty_braces(
                    map,
                ));
                Ok((a, b, text))
            } else {
                let end: usize = owned_value_end(s, child.start, child.end);
                push_braces(&mut text, map);
                assert(text@ =~= empty_braces(map));
                Ok((e, end, text))
            }
        },
        None => if map {
            Err(Refusal::NotABlockMapping)
        } else {
            Err(Refusal::NotABlockSequence)
        },
    }
}

/// How many children a collection has.
pub open spec fn width(d: Data) -> int {
    match d {
        Data::Dict(m) => m.len() as int,
        Data::List(v) => v.len() as int,
        _ => 0,
    }
}

/// The bytes to replace, and by what, to remove what the steps `p[k..]` lead
/// to from the value `d` with span `i`.
pub open spec fn removal_site(
    s: Seq<u8>,
    t: Seq<Elem>,
    d: Data,
    sp: Seq<SpanNode>,
    i: int,
    p: Seq<Seg>,
    k: int,
) -> Result<(int, int, Seq<u8>), Refusal>
    decreases p.len() - k,
{
    if !(0 <= i < sp.len()) {
        Err(Refusal::PathNotFound)
    } else if k >= p.len() {
        Err(Refusal::EmptyPath)
    } else {
        match child_site(d, sp, i, p[k]) {
            Ok((e, c)) => if k + 1 < p.len() {
                removal_site(s, t, e, sp, c, p, k + 1)
            } else {
                removal(s, t, sp[i], sp[c], d is Dict, width(d) <= 1)
            },
            Err(x) => Err(x),
        }
    }
}

/// Finds the bytes to replace, and by what, to remove what a path addresses.
pub fn entry_line_span(
    s: &[u8],
    t: &Vec<Elem>,
    v: &Value,
    sp: &Vec<SpanNode>,
    p: &Vec<QuerySegment>,
) -> (r: Result<(usize, usize, Vec<u8>), Refusal>)
    ensures
        match removal_site(s@, t@, v@, sp@, 0, segs(p@), 0) {
            Ok((a, b, t)) => r is Ok && r->Ok_0.0 == a && r->Ok_0.1 == b && r->Ok_0.2@ == t,
            Err(x) => r is Err && r->Err_0 == x,
        },
{
    assert(segs(p@).len() == p@.len());
    let mut cur: &Value = v;
    let mut i: usize = 0;
    let mut k: usize = 0;
    loop
        invariant
            k <= p@.len(),
            segs(p@).len() == p@.len(),
            removal_site(s@, t@, cur@, sp@, i as int, segs(p@), k as int) == removal_site(
                s@,
                t@,
                v@,
                sp@,
                0,
                segs(p@),
                0,
            ),
        decreases p@.len() - k,
    {
        if i >= sp.len() {
            return Err(Refusal::PathNotFound);
        }
        if k >= p.len() {
            return Err(Refusal::EmptyPath);
        }
        assert(segs(p@)[k as int] == p@[k as int]@);
        match find_child_site(cur, sp, i, &p[k]) {
            Ok((w, c)) => {
                if k + 1 < p.len() {
                    cur = w;
                    i = c;
                    k += 1;
                } else {
                    let (map, count) = match cur {
                        Value::Mapping(m) => (true, m.len()),
                        Value::Sequence(l) => {
                            proof {
                                lists_are_pointwise(l@);
                            }
                            (false, l.len())
                        },
                        _ => (false, 0),
                    };
                    return removal_bytes(s, t, sp[i], sp[c], map, count <= 1);
                }
            },
            Err(x) => {
                return Err(x);
            },
        }
    }
}

} // verus!
