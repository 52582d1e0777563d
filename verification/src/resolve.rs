//! From a path to the bytes it addresses: in the syntax tree where that is
//! conclusive, and otherwise in the spans recorded with the typed value.
use crate::decode::{decode_single_quoted, single_unquoted};
use crate::green::sound;
use crate::lines::{extend_to_line_start, with_indent};
use crate::load::{SpanNode, SpanKind};
use crate::oracle::{at, below, Miss};
use crate::path::{segs, QuerySegment, Seg};
use crate::siblings::{next, steps_to};
use crate::syntax::{
    block_collection, flow_collection, is_block_collection, is_flow_collection, is_node_kind, is_trivia_kind,
    is_value_property_kind, node_kind, property_kind, trivia_kind, Elem, SyntaxKind,
};
use crate::text::{bytes_eq, copy};
use crate::value::{
    data, dicts_are_pointwise, find, find_is_exact, list, lists_are_pointwise, Data, Mapping, Value,
};
use vstd::prelude::*;
use vstd::string::*;

verus! {

/// Index of the first collection among the siblings in `i..hi`.
pub open spec fn first_collection(t: Seq<Elem>, i: int, hi: int) -> Option<int>
    decreases hi - i,
{
    if !steps_to(t, i, hi) {
        None
    } else if block_collection(t[i].kind) || flow_collection(t[i].kind) {
        Some(i)
    } else {
        first_collection(t, next(t, i), hi)
    }
}

/// Finds the first collection among the siblings in `lo..hi`.
pub fn first_collection_child(t: &Vec<Elem>, lo: usize, hi: usize) -> (r: Option<usize>)
    requires
        lo <= hi <= t@.len(),
    ensures
        match first_collection(t@, lo as int, hi as int) {
            Some(i) => r is Some && r->0 == i && lo <= i < hi,
            None => r is None,
        },
{
    let mut i: usize = lo;
    while i < hi
        invariant
            lo <= i <= hi <= t@.len(),
            first_collection(t@, i as int, hi as int) == first_collection(
                t@,
                lo as int,
                hi as int,
            ),
        decreases hi - i,
    {
        let e: Elem = t[i];
        if e.size < 1 || e.size > hi - i {
            return None;
        }
        if is_block_collection(e.kind) || is_flow_collection(e.kind) {
            return Some(i);
        }
        i += e.size;
    }
    None
}

/// Whether a kind may stand before the key of an entry.
pub open spec fn before_key(k: SyntaxKind) -> bool {
    ||| k == SyntaxKind::QuestionIndicator
    ||| k == SyntaxKind::Whitespace
    ||| k == SyntaxKind::Newline
    ||| k == SyntaxKind::Comment
    ||| k == SyntaxKind::AnchorMark
    ||| k == SyntaxKind::TagMark
}

/// The key that the children `i..hi` of an entry start with, where its
/// spelling shows it: a plain scalar verbatim, a single-quoted one undoubled.
pub open spec fn shown_key(s: Seq<u8>, t: Seq<Elem>, i: int, hi: int) -> Option<Seq<u8>>
    decreases hi - i,
{
    if !steps_to(t, i, hi) {
        None
    } else if before_key(t[i].kind) {
        shown_key(s, t, next(t, i), hi)
    } else if t[i].kind == SyntaxKind::PlainScalar {
        Some(s.subrange(t[i].start as int, t[i].end as int))
    } else if t[i].kind == SyntaxKind::SingleQuotedScalar {
        single_unquoted(s.subrange(t[i].start as int, t[i].end as int))
    } else {
        None
    }
}

/// Reads the key of the entry whose children are `lo..hi`.
pub fn entry_key_text(s: &[u8], t: &Vec<Elem>, lo: usize, hi: usize) -> (r: Option<Vec<u8>>)
    requires
        lo <= hi <= t@.len(),
        sound(t@, s@.len() as int),
    ensures
        match shown_key(s@, t@, lo as int, hi as int) {
            Some(k) => r is Some && r->0@ == k,
            None => r is None,
        },
{
    let mut i: usize = lo;
    while i < hi
        invariant
            lo <= i <= hi <= t@.len(),
            sound(t@, s@.len() as int),
            shown_key(s@, t@, i as int, hi as int) == shown_key(s@, t@, lo as int, hi as int),
        decreases hi - i,
    {
        let e: Elem = t[i];
        assert(t@[i as int] == e);
        if e.size > hi - i {
            return None;
        }
        let k: SyntaxKind = e.kind;
        if k == SyntaxKind::QuestionIndicator || k == SyntaxKind::Whitespace || k
            == SyntaxKind::Newline || k == SyntaxKind::Comment || k == SyntaxKind::AnchorMark || k
            == SyntaxKind::TagMark {
            i += e.size;
        } else if k == SyntaxKind::PlainScalar {
            return Some(copy(s, e.start, e.end));
        } else if k == SyntaxKind::SingleQuotedScalar {
            let raw: Vec<u8> = copy(s, e.start, e.end);
            return decode_single_quoted(raw.as_slice());
        } else {
            return None;
        }
    }
    None
}

/// Index of the last entry among the siblings `i..hi` with the given key;
/// `None` when there is none, or when some key cannot be told from its
/// spelling.
pub open spec fn last_entry(
    s: Seq<u8>,
    t: Seq<Elem>,
    i: int,
    hi: int,
    key: Seq<u8>,
    found: Option<int>,
) -> Option<int>
    decreases hi - i,
{
    if !steps_to(t, i, hi) {
        found
    } else if t[i].kind != SyntaxKind::MappingEntry {
        last_entry(s, t, next(t, i), hi, key, found)
    } else {
        match shown_key(s, t, i + 1, next(t, i)) {
            Some(k) => last_entry(
                s,
                t,
                next(t, i),
                hi,
                key,
                if k == key {
                    Some(i)
                } else {
                    found
                },
            ),
            None => None,
        }
    }
}

fn find_last_entry(s: &[u8], t: &Vec<Elem>, lo: usize, hi: usize, key: &[u8]) -> (r: Option<usize>)
    requires
        lo <= hi <= t@.len(),
        sound(t@, s@.len() as int),
    ensures
        match last_entry(s@, t@, lo as int, hi as int, key@, None) {
            Some(i) => r is Some && r->0 == i && lo <= i < hi && next(t@, i) <= hi,
            None => r is None,
        },
{
    let mut i: usize = lo;
    let mut found: Option<usize> = None;
    while i < hi
        invariant
            lo <= i <= hi <= t@.len(),
            sound(t@, s@.len() as int),
            found matches Some(f) ==> lo <= f < hi && next(t@, f as int) <= hi,
            last_entry(
                s@,
                t@,
                i as int,
                hi as int,
                key@,
                match found {
                    Some(f) => Some(f as int),
                    None => None,
                },
            ) == last_entry(s@, t@, lo as int, hi as int, key@, None),
        decreases hi - i,
    {
        let e: Elem = t[i];
        assert(t@[i as int] == e);
        if e.size > hi - i {
            return found;
        }
        if e.kind == SyntaxKind::MappingEntry {
            match entry_key_text(s, t, i + 1, i + e.size) {
                Some(k) => {
                    if bytes_eq(k.as_slice(), key) {
                        found = Some(i);
                    }
                },
                None => {
                    return None;
                },
            }
        }
        i += e.size;
    }
    found
}

/// Index of item `n` among the sequence items in `i..hi`.
pub open spec fn nth_item(t: Seq<Elem>, i: int, hi: int, n: int) -> Option<int>
    decreases hi - i,
{
    if !steps_to(t, i, hi) {
        None
    } else if t[i].kind != SyntaxKind::SequenceItem {
        nth_item(t, next(t, i), hi, n)
    } else if n == 0 {
        Some(i)
    } else {
        nth_item(t, next(t, i), hi, n - 1)
    }
}

fn find_nth_item(t: &Vec<Elem>, lo: usize, hi: usize, n: usize) -> (r: Option<usize>)
    requires
        lo <= hi <= t@.len(),
    ensures
        match nth_item(t@, lo as int, hi as int, n as int) {
            Some(i) => r is Some && r->0 == i && lo <= i < hi && next(t@, i) <= hi,
            None => r is None,
        },
{
    let mut i: usize = lo;
    let mut left: usize = n;
    while i < hi
        invariant
            lo <= i <= hi <= t@.len(),
            nth_item(t@, i as int, hi as int, left as int) == nth_item(
                t@,
                lo as int,
                hi as int,
                n as int,
            ),
        decreases hi - i,
    {
        let e: Elem = t[i];
        if e.size < 1 || e.size > hi - i {
            return None;
        }
        if e.kind == SyntaxKind::SequenceItem {
            if left == 0 {
                return Some(i);
            }
            left -= 1;
        }
        i += e.size;
    }
    None
}

/// A value found in the tree: the kind of its content, its range with the
/// anchors and tags before it, and its node when it is a collection.
pub struct Site {
    pub kind: SyntaxKind,
    pub start: int,
    pub end: int,
    pub node: Option<int>,
}

/// The value that follows the indicator `mark` among the children `i..hi` of
/// an entry or item ending at `end`. An alias has no value of its own.
pub open spec fn site(
    t: Seq<Elem>,
    i: int,
    hi: int,
    mark: SyntaxKind,
    after: bool,
    prefix: Option<int>,
    end: int,
) -> Option<Site>
    decreases hi - i,
{
    let from = match prefix {
        Some(p) => p,
        None => t[i].start as int,
    };
    if !steps_to(t, i, hi) {
        match prefix {
            Some(p) => Some(Site { kind: SyntaxKind::PlainScalar, start: p, end, node: None }),
            None => None,
        }
    } else if !after {
        site(t, next(t, i), hi, mark, t[i].kind == mark, prefix, end)
    } else if node_kind(t[i].kind) {
        Some(Site { kind: t[i].kind, start: from, end: t[i].end as int, node: Some(i) })
    } else if t[i].kind == SyntaxKind::AliasMark {
        None
    } else if property_kind(t[i].kind) {
        site(t, next(t, i), hi, mark, true, Some(from), end)
    } else if trivia_kind(t[i].kind) {
        site(t, next(t, i), hi, mark, true, prefix, end)
    } else {
        Some(Site { kind: t[i].kind, start: from, end: t[i].end as int, node: None })
    }
}

/// The executable form of a [`Site`].
#[derive(Clone, Copy)]
pub struct Place {
    pub kind: SyntaxKind,
    pub start: usize,
    pub end: usize,
    pub node: Option<usize>,
}

impl View for Place {
    type V = Site;

    open spec fn view(&self) -> Site {
        Site {
            kind: self.kind,
            start: self.start as int,
            end: self.end as int,
            node: match self.node {
                Some(i) => Some(i as int),
                None => None,
            },
        }
    }
}

/// Finds the value of an entry or item.
pub fn entry_value(
    t: &Vec<Elem>,
    lo: usize,
    hi: usize,
    mark: SyntaxKind,
    end: usize,
    n: usize,
) -> (r: Option<Place>)
    requires
        lo <= hi <= t@.len(),
        sound(t@, n as int),
        end <= n,
    ensures
        match site(t@, lo as int, hi as int, mark, false, None, end as int) {
            Some(x) => r is Some && r->0@ == x && x.start <= n && x.end <= n && (x.node matches Some(
                i,
            ) ==> lo <= i < hi),
            None => r is None,
        },
{
    let mut i: usize = lo;
    let mut after: bool = false;
    let mut prefix: Option<usize> = None;
    while i < hi
        invariant
            lo <= i <= hi <= t@.len(),
            sound(t@, n as int),
            end <= n,
            prefix matches Some(p) ==> p <= n,
            site(
                t@,
                i as int,
                hi as int,
                mark,
                after,
                match prefix {
                    Some(p) => Some(p as int),
                    None => None,
                },
                end as int,
            ) == site(t@, lo as int, hi as int, mark, false, None, end as int),
        decreases hi - i,
    {
        let e: Elem = t[i];
        assert(t@[i as int] == e);
        if e.size > hi - i {
            return match prefix {
                Some(p) => Some(
                    Place { kind: SyntaxKind::PlainScalar, start: p, end, node: None },
                ),
                None => None,
            };
        }
        let from: usize = match prefix {
            Some(p) => p,
            None => e.start,
        };
        if !after {
            after = e.kind == mark;
        } else if is_node_kind(e.kind) {
            return Some(Place { kind: e.kind, start: from, end: e.end, node: Some(i) });
        } else if e.kind == SyntaxKind::AliasMark {
            return None;
        } else if is_value_property_kind(e.kind) {
            prefix = Some(from);
        } else if !is_trivia_kind(e.kind) {
            return Some(Place { kind: e.kind, start: from, end: e.end, node: None });
        }
        i += e.size;
    }
    match prefix {
        Some(p) => Some(Place { kind: SyntaxKind::PlainScalar, start: p, end, node: None }),
        None => None,
    }
}

/// The entry or item of the collection at `i` that a step leads to.
pub open spec fn stepped(s: Seq<u8>, t: Seq<Elem>, i: int, step: Seg) -> Option<int> {
    let k = t[i].kind;
    match step {
        Seg::Key(key) => if k == SyntaxKind::BlockMapping || k == SyntaxKind::FlowMapping {
            last_entry(s, t, i + 1, next(t, i), key, None)
        } else {
            None
        },
        Seg::Index(n) => if k == SyntaxKind::BlockSequence || k == SyntaxKind::FlowSequence {
            nth_item(t, i + 1, next(t, i), n)
        } else {
            None
        },
        _ => None,
    }
}

/// The range of the value that the steps `p[k..]` lead to from the collection
/// at `i`.
pub open spec fn walk(s: Seq<u8>, t: Seq<Elem>, i: int, p: Seq<Seg>, k: int) -> Option<(int, int)>
    decreases p.len() - k,
{
    if k >= p.len() {
        Some((t[i].start as int, t[i].end as int))
    } else {
        match stepped(s, t, i, p[k]) {
            Some(e) => {
                let mark = if p[k] is Key {
                    SyntaxKind::ColonIndicator
                } else {
                    SyntaxKind::DashIndicator
                };
                match site(t, e + 1, next(t, e), mark, false, None, t[e].end as int) {
                    Some(x) => if k + 1 >= p.len() {
                        if block_collection(x.kind) {
                            Some((with_indent(s, x.start), x.end))
                        } else {
                            Some((x.start, x.end))
                        }
                    } else {
                        match x.node {
                            Some(n) => walk(s, t, n, p, k + 1),
                            None => None,
                        }
                    },
                    None => None,
                }
            },
            None => None,
        }
    }
}

/// The range of the value at a path, found in the tree alone. `None` when the
/// tree does not settle it.
pub open spec fn green_range(s: Seq<u8>, t: Seq<Elem>, p: Seq<Seg>) -> Option<(int, int)> {
    match first_collection(t, 1, t.len() as int) {
        Some(i) => match walk(s, t, i, p, 0) {
            Some((a, b)) => if 0 <= a <= b <= s.len() {
                Some((a, b))
            } else {
                None
            },
            None => None,
        },
        None => None,
    }
}

/// Finds the value at a path in the tree alone.
pub fn resolve_path_in_green(s: &[u8], t: &Vec<Elem>, p: &Vec<QuerySegment>) -> (r: Option<
    (usize, usize),
>)
    requires
        t@.len() > 0,
        sound(t@, s@.len() as int),
    ensures
        match green_range(s@, t@, segs(p@)) {
            Some((a, b)) => r is Some && (r->0).0 == a && (r->0).1 == b && a <= b <= s@.len(),
            None => r is None,
        },
{
    let mut i: usize = match first_collection_child(t, 1, t.len()) {
        Some(i) => i,
        None => {
            return None;
        },
    };
    let ghost top = i as int;
    let n: usize = s.len();
    let len: usize = t.len();
    assert(segs(p@).len() == p@.len());
    let mut k: usize = 0;
    while k < p.len()
        invariant
            k <= p@.len(),
            segs(p@).len() == p@.len(),
            i < t@.len(),
            n == s@.len(),
            len == t@.len(),
            sound(t@, n as int),
            walk(s@, t@, i as int, segs(p@), k as int) == walk(s@, t@, top, segs(p@), 0),
            first_collection(t@, 1, t@.len() as int) == Some(top),
        decreases p@.len() - k,
    {
        assert(segs(p@)[k as int] == p@[k as int]@);
        let c: Elem = t[i];
        assert(t@[i as int] == c);
        let end: usize = i + c.size;
        let (found, mark) = match &p[k] {
            QuerySegment::Key(key) => (
                if c.kind == SyntaxKind::BlockMapping || c.kind == SyntaxKind::FlowMapping {
                    find_last_entry(s, t, i + 1, end, key.as_str().as_bytes())
                } else {
                    None
                },
                SyntaxKind::ColonIndicator,
            ),
            QuerySegment::Index(x) => (
                if c.kind == SyntaxKind::BlockSequence || c.kind == SyntaxKind::FlowSequence {
                    find_nth_item(t, i + 1, end, *x)
                } else {
                    None
                },
                SyntaxKind::DashIndicator,
            ),
            _ => (None, SyntaxKind::DashIndicator),
        };
        let e: usize = match found {
            Some(e) => e,
            None => {
                return None;
            },
        };
        let f: Elem = t[e];
        assert(t@[e as int] == f);
        match entry_value(t, e + 1, e + f.size, mark, f.end, n) {
            Some(x) => {
                if k + 1 >= p.len() {
                    let start: usize = if is_block_collection(x.kind) {
                        extend_to_line_start(s, x.start)
                    } else {
                        x.start
                    };
                    return if start <= x.end {
                        Some((start, x.end))
                    } else {
                        None
                    };
                }
                match x.node {
                    Some(m) => {
                        i = m;
                    },
                    None => {
                        return None;
                    },
                }
            },
            None => {
                return None;
            },
        }
        k += 1;
    }
    let c: Elem = t[i];
    assert(t@[i as int] == c);
    Some((c.start, c.end))
}

/// Index of child `n` among the spans from `c` up to `hi`.
pub open spec fn nth_span(sp: Seq<SpanNode>, c: int, hi: int, n: int) -> Option<int>
    decreases hi - c,
{
    if !(0 <= c < hi && hi <= sp.len() && 1 <= sp[c].size && c + sp[c].size <= hi) {
        None
    } else if n <= 0 {
        Some(c)
    } else {
        nth_span(sp, c + sp[c].size, hi, n - 1)
    }
}

pub fn find_nth_span(sp: &Vec<SpanNode>, lo: usize, hi: usize, n: usize) -> (r: Option<usize>)
    requires
        lo <= hi,
    ensures
        match nth_span(sp@, lo as int, hi as int, n as int) {
            Some(i) => r is Some && r->0 == i && lo <= i < sp@.len() && i < hi,
            None => r is None,
        },
{
    let mut c: usize = lo;
    let mut left: usize = n;
    while c < hi && hi <= sp.len()
        invariant
            lo <= c <= hi,
            nth_span(sp@, c as int, hi as int, left as int) == nth_span(
                sp@,
                lo as int,
                hi as int,
                n as int,
            ),
        decreases hi - c,
    {
        let x: SpanNode = sp[c];
        if x.size < 1 || x.size > hi - c {
            return None;
        }
        if left == 0 {
            return Some(c);
        }
        left -= 1;
        c += x.size;
    }
    None
}

/// The span of the child that a step leads to from the value `d` with span
/// `i`.
pub open spec fn child_span(d: Data, sp: Seq<SpanNode>, i: int, step: Seg) -> Option<(Data, int)> {
    let hi = i + sp[i].size;
    match (step, d) {
        (Seg::Key(k), Data::Dict(m)) => if sp[i].kind == SpanKind::Dict {
            match find(m, k) {
                Some(x) => match nth_span(sp, i + 1, hi, x) {
                    Some(c) => Some((m[x].1, c)),
                    None => None,
                },
                None => None,
            }
        } else {
            None
        },
        (Seg::Index(n), Data::List(v)) => if sp[i].kind == SpanKind::List && 0 <= n < v.len() {
            match nth_span(sp, i + 1, hi, n) {
                Some(c) => Some((v[n], c)),
                None => None,
            }
        } else {
            None
        },
        _ => None,
    }
}

/// The span of the value that the steps `p[k..]` lead to from the value `d`
/// with span `i`, and whether an alias was passed on the way.
pub open spec fn typed_spot(
    d: Data,
    sp: Seq<SpanNode>,
    i: int,
    p: Seq<Seg>,
    k: int,
    through: bool,
) -> Option<(int, bool)>
    decreases sp.len() - i,
{
    if !(0 <= i < sp.len()) {
        None
    } else if sp[i].kind == SpanKind::Alias {
        typed_spot(d, sp, i + 1, p, k, true)
    } else if k >= p.len() {
        Some((i, through))
    } else {
        match child_span(d, sp, i, p[k]) {
            Some((e, c)) => if i < c < sp.len() {
                typed_spot(e, sp, c, p, k + 1, through)
            } else {
                None
            },
            None => None,
        }
    }
}

/// A span that is found is one of the spans, and belongs to the value that the
/// steps select.
pub proof fn spots_belong_to_selected_values(
    d: Data,
    sp: Seq<SpanNode>,
    i: int,
    p: Seq<Seg>,
    k: int,
    through: bool,
)
    requires
        typed_spot(d, sp, i, p, k, through) is Some,
        0 <= k,
    ensures
        0 <= (typed_spot(d, sp, i, p, k, through)->0).0 < sp.len(),
        at(d, p, k, p.len() as int) is Ok,
    decreases sp.len() - i,
{
    if sp[i].kind == SpanKind::Alias {
        spots_belong_to_selected_values(d, sp, i + 1, p, k, true);
    } else if k < p.len() {
        let (e, c) = child_span(d, sp, i, p[k])->0;
        match (p[k], d) {
            (Seg::Key(key), Data::Dict(m)) => {
                find_is_exact(m, key, 0);
            },
            _ => {},
        }
        assert(below(d, p[k]) == Ok::<Data, Miss>(e));
        spots_belong_to_selected_values(e, sp, c, p, k + 1, through);
    }
}

/// Finds the child that a step leads to from a value with span `i`.
fn find_child_span<'a>(v: &'a Value, sp: &Vec<SpanNode>, i: usize, step: &QuerySegment) -> (r: Option<
    (&'a Value, usize),
>)
    requires
        i < sp@.len(),
    ensures
        match child_span(v@, sp@, i as int, step@) {
            Some((d, c)) => r is Some && (r->0).0@ == d && (r->0).1 == c && i < c < sp@.len(),
            None => r is None,
        },
{
    let x: SpanNode = sp[i];
    let n: usize = sp.len();
    if x.size < 1 || x.size > n - i {
        proof {
            assert(nth_span_needs_room(sp@, i as int));
        }
        return None;
    }
    let hi: usize = i + x.size;
    match (step, v) {
        (QuerySegment::Key(k), Value::Mapping(m)) => {
            if x.kind != SpanKind::Dict {
                return None;
            }
            proof {
                dicts_are_pointwise(m.entries@);
            }
            match m.position(k.as_str().as_bytes()) {
                Some(y) => match find_nth_span(sp, i + 1, hi, y) {
                    Some(c) => {
                        assert(m@[y as int].1 == data(m.entries@[y as int].1));
                        Some((&m.entries[y].1, c))
                    },
                    None => None,
                },
                None => None,
            }
        },
        (QuerySegment::Index(y), Value::Sequence(l)) => {
            proof {
                lists_are_pointwise(l@);
            }
            if x.kind != SpanKind::List || *y >= l.len() {
                return None;
            }
            match find_nth_span(sp, i + 1, hi, *y) {
                Some(c) => {
                    assert(list(l@)[*y as int] == data(l@[*y as int]));
                    Some((&l[*y], c))
                },
                None => None,
            }
        },
        _ => None,
    }
}

spec fn nth_span_needs_room(sp: Seq<SpanNode>, i: int) -> bool {
    forall|hi: int, n: int|
        hi > sp.len() || hi <= i + 1 ==> #[trigger] nth_span(sp, i + 1, hi, n) is None
}

/// Finds the span of the value at a path.
pub fn resolve_span(v: &Value, sp: &Vec<SpanNode>, p: &Vec<QuerySegment>) -> (r: Option<
    (usize, bool),
>)
    ensures
        match typed_spot(v@, sp@, 0, segs(p@), 0, false) {
            Some((c, x)) => r is Some && (r->0).0 == c && (r->0).1 == x && 0 <= c < sp@.len(),
            None => r is None,
        },
{
    let mut cur: &Value = v;
    let mut i: usize = 0;
    let mut k: usize = 0;
    let mut through: bool = false;
    assert(segs(p@).len() == p@.len());
    while i < sp.len()
        invariant
            segs(p@).len() == p@.len(),
            k <= p@.len(),
            typed_spot(cur@, sp@, i as int, segs(p@), k as int, through) == typed_spot(
                v@,
                sp@,
                0,
                segs(p@),
                0,
                false,
            ),
        decreases sp@.len() - i,
    {
        let x: SpanNode = sp[i];
        if x.kind == SpanKind::Alias {
            through = true;
            i += 1;
        } else if k >= p.len() {
            return Some((i, through));
        } else {
            assert(segs(p@)[k as int] == p@[k as int]@);
            match find_child_span(cur, sp, i, &p[k]) {
                Some((w, c)) => {
                    cur = w;
                    i = c;
                    k += 1;
                },
                None => {
                    return None;
                },
            }
        }
    }
    None
}

/// Whether nothing but trivia, anchors and tags starts in `a..b`.
pub open spec fn bare(t: Seq<Elem>, a: int, b: int) -> bool {
    forall|i: int|
        0 <= i < t.len() && a <= (#[trigger] t[i]).start < b ==> trivia_kind(t[i].kind)
            || property_kind(t[i].kind)
}

/// Whether the range `a..b` is that of the value with span `x`: it ends where
/// the value does, and only the value's anchor and tag come before it. A value
/// without bytes of its own has these at most.
pub open spec fn denotes(t: Seq<Elem>, a: int, b: int, x: SpanNode) -> bool {
    ||| x.end == b && a <= x.start && bare(t, a, x.start as int)
    ||| x.kind == SpanKind::Leaf && x.start == x.end && bare(t, a, b)
}

fn is_bare(t: &Vec<Elem>, a: usize, b: usize) -> (r: bool)
    ensures
        r == bare(t@, a as int, b as int),
{
    let mut i: usize = 0;
    while i < t.len()
        invariant
            i <= t@.len(),
            forall|k: int|
                0 <= k < i && a <= (#[trigger] t@[k]).start < b ==> trivia_kind(t@[k].kind)
                    || property_kind(t@[k].kind),
        decreases t@.len() - i,
    {
        let e: Elem = t[i];
        assert(t@[i as int] == e);
        if a <= e.start && e.start < b && !is_trivia_kind(e.kind) && !is_value_property_kind(
            e.kind,
        ) {
            return false;
        }
        i += 1;
    }
    true
}

/// Whether the range `a..b` is that of the value with span `x`.
pub fn is_denoted(t: &Vec<Elem>, a: usize, b: usize, x: SpanNode) -> (r: bool)
    ensures
        r == denotes(t@, a as int, b as int, x),
{
    (x.end == b && a <= x.start && is_bare(t, a, x.start)) || (x.kind == SpanKind::Leaf && x.start
        == x.end && is_bare(t, a, b))
}

} // verus!
