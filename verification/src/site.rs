//! What surrounds a byte of the source: the token that holds it, the entry
//! and mapping around it, and the anchored value it lies in.
use crate::green::sound;
use crate::siblings::{next, steps_to};
use crate::syntax::{is_block_site, is_node_kind, node_kind, scalar_kind, Elem, SyntaxKind};
use crate::text::copy;
use crate::lexis::{column, column_of, fits};
use crate::lines::{entry_indent_column, indent_column};
use vstd::prelude::*;

verus! {

/// The token that holds byte `target` among the children of the node at `i`
/// from `c` on, and the node it is a child of.
pub open spec fn leaf(t: Seq<Elem>, i: int, c: int, hi: int, target: int) -> Option<(int, int)>
    decreases t.len() - c,
{
    if !steps_to(t, c, hi) {
        None
    } else if t[c].start <= target < t[c].end {
        if node_kind(t[c].kind) {
            leaf(t, c, c + 1, next(t, c), target)
        } else {
            Some((c, i))
        }
    } else {
        leaf(t, i, next(t, c), hi, target)
    }
}

/// The token that holds a byte, and its parent.
pub open spec fn leaf_at(t: Seq<Elem>, target: int) -> Option<(int, int)> {
    leaf(t, 0, 1, t.len() as int, target)
}

/// Finds the token that holds a byte, and its parent.
pub fn token_at_with_parent(t: &Vec<Elem>, target: usize) -> (r: Option<(usize, usize)>)
    requires
        t@.len() > 0,
    ensures
        match leaf_at(t@, target as int) {
            Some((c, i)) => r is Some && (r->0).0 == c && (r->0).1 == i && c < t@.len() && i
                < t@.len(),
            None => r is None,
        },
{
    let mut i: usize = 0;
    let mut c: usize = 1;
    let mut hi: usize = t.len();
    while c < hi
        invariant
            i < t@.len(),
            c <= t@.len(),
            hi <= t@.len(),
            leaf(t@, i as int, c as int, hi as int, target as int) == leaf_at(
                t@,
                target as int,
            ),
        decreases t@.len() - c,
    {
        let e: Elem = t[c];
        if e.size < 1 || e.size > hi - c {
            return None;
        }
        if e.start <= target && target < e.end {
            if is_node_kind(e.kind) {
                i = c;
                hi = c + e.size;
                c = c + 1;
            } else {
                return Some((c, i));
            }
        } else {
            c = c + e.size;
        }
    }
    None
}

/// The kind of the token that holds a byte.
pub open spec fn kind_at(t: Seq<Elem>, target: int) -> Option<SyntaxKind> {
    match leaf_at(t, target) {
        Some((c, _)) => Some(t[c].kind),
        None => None,
    }
}

/// The kind of the token that holds a byte.
pub fn leaf_kind_at(t: &Vec<Elem>, target: usize) -> (r: Option<SyntaxKind>)
    requires
        t@.len() > 0,
    ensures
        r == kind_at(t@, target as int),
{
    match token_at_with_parent(t, target) {
        Some((c, _)) => Some(t[c].kind),
        None => None,
    }
}

/// The innermost block mapping and mapping entry around byte `target`, found
/// among the siblings `c..hi` inside the mapping `m` and the entry `e`.
pub open spec fn enclosing(
    t: Seq<Elem>,
    c: int,
    hi: int,
    target: int,
    m: Option<int>,
    e: Option<int>,
) -> Option<(int, int)>
    decreases t.len() - c,
{
    if !steps_to(t, c, hi) {
        None
    } else if t[c].start <= target < t[c].end {
        if node_kind(t[c].kind) {
            let m2 = if t[c].kind == SyntaxKind::BlockMapping {
                Some(c)
            } else {
                m
            };
            let e2 = if t[c].kind == SyntaxKind::MappingEntry {
                Some(c)
            } else {
                e
            };
            match enclosing(t, c + 1, next(t, c), target, m2, e2) {
                Some(x) => Some(x),
                None => enclosing(t, next(t, c), hi, target, m, e),
            }
        } else {
            match (m, e) {
                (Some(a), Some(b)) => Some((a, b)),
                _ => None,
            }
        }
    } else {
        enclosing(t, next(t, c), hi, target, m, e)
    }
}

pub open spec fn opt(x: Option<usize>) -> Option<int> {
    match x {
        Some(i) => Some(i as int),
        None => None,
    }
}

/// Finds the innermost block mapping and mapping entry around a byte.
pub fn enclosing_mapping_and_entry(
    t: &Vec<Elem>,
    lo: usize,
    hi: usize,
    target: usize,
    m: Option<usize>,
    e: Option<usize>,
) -> (r: Option<(usize, usize)>)
    requires
        lo <= hi <= t@.len(),
        m matches Some(x) ==> x < t@.len(),
        e matches Some(x) ==> x < t@.len(),
    ensures
        match enclosing(t@, lo as int, hi as int, target as int, opt(m), opt(e)) {
            Some((a, b)) => r is Some && (r->0).0 == a && (r->0).1 == b && a < t@.len() && b
                < t@.len(),
            None => r is None,
        },
    decreases t@.len() - lo,
{
    let mut c: usize = lo;
    while c < hi
        invariant
            lo <= c <= hi <= t@.len(),
            m matches Some(x) ==> x < t@.len(),
            e matches Some(x) ==> x < t@.len(),
            enclosing(t@, c as int, hi as int, target as int, opt(m), opt(e)) == enclosing(
                t@,
                lo as int,
                hi as int,
                target as int,
                opt(m),
                opt(e),
            ),
        decreases hi - c,
    {
        let x: Elem = t[c];
        if x.size < 1 || x.size > hi - c {
            return None;
        }
        if x.start <= target && target < x.end {
            if is_node_kind(x.kind) {
                let m2: Option<usize> = if x.kind == SyntaxKind::BlockMapping {
                    Some(c)
                } else {
                    m
                };
                let e2: Option<usize> = if x.kind == SyntaxKind::MappingEntry {
                    Some(c)
                } else {
                    e
                };
                if let Some(found) = enclosing_mapping_and_entry(
                    t,
                    c + 1,
                    c + x.size,
                    target,
                    m2,
                    e2,
                ) {
                    return Some(found);
                }
            } else {
                return match (m, e) {
                    (Some(a), Some(b)) => Some((a, b)),
                    _ => None,
                };
            }
        }
        c += x.size;
    }
    None
}

/// The kind of the scalar that follows the `:` among the children `c..hi` of
/// an entry; `None` when the value is not a single scalar.
pub open spec fn value_scalar(t: Seq<Elem>, c: int, hi: int, after: bool) -> Option<SyntaxKind>
    decreases hi - c,
{
    if !steps_to(t, c, hi) {
        None
    } else if node_kind(t[c].kind) {
        if after {
            None
        } else {
            value_scalar(t, next(t, c), hi, after)
        }
    } else if t[c].kind == SyntaxKind::ColonIndicator {
        value_scalar(t, next(t, c), hi, true)
    } else if after && scalar_kind(t[c].kind) {
        Some(t[c].kind)
    } else {
        value_scalar(t, next(t, c), hi, after)
    }
}

/// The kind of the scalar that is the value of an entry.
pub fn entry_value_scalar_kind(t: &Vec<Elem>, lo: usize, hi: usize) -> (r: Option<SyntaxKind>)
    requires
        lo <= hi <= t@.len(),
    ensures
        r == value_scalar(t@, lo as int, hi as int, false),
{
    let mut c: usize = lo;
    let mut after: bool = false;
    while c < hi
        invariant
            lo <= c <= hi <= t@.len(),
            value_scalar(t@, c as int, hi as int, after) == value_scalar(
                t@,
                lo as int,
                hi as int,
                false,
            ),
        decreases hi - c,
    {
        let x: Elem = t[c];
        if x.size < 1 || x.size > hi - c {
            return None;
        }
        if is_node_kind(x.kind) {
            if after {
                return None;
            }
        } else if x.kind == SyntaxKind::ColonIndicator {
            after = true;
        } else if after && is_block_site(x.kind) {
            return Some(x.kind);
        }
        c += x.size;
    }
    None
}

/// How many entries among the siblings `c..hi`, the one at `exclude` left
/// out, have a scalar value of the given kind.
pub open spec fn tally(t: Seq<Elem>, c: int, hi: int, exclude: int, kind: SyntaxKind) -> int
    decreases hi - c,
{
    if !steps_to(t, c, hi) {
        0
    } else {
        tally(t, next(t, c), hi, exclude, kind) + if t[c].kind == SyntaxKind::MappingEntry && c
            != exclude && value_scalar(t, c + 1, next(t, c), false) == Some(kind) {
            1int
        } else {
            0int
        }
    }
}

/// The quoted style that the values of the other entries of a mapping agree
/// on: used at least twice, and more often than the other one and than none.
pub open spec fn dominant_style(t: Seq<Elem>, m: int, exclude: int) -> Option<SyntaxKind> {
    let plain = tally(t, m + 1, next(t, m), exclude, SyntaxKind::PlainScalar);
    let single = tally(t, m + 1, next(t, m), exclude, SyntaxKind::SingleQuotedScalar);
    let double = tally(t, m + 1, next(t, m), exclude, SyntaxKind::DoubleQuotedScalar);
    if single >= 2 && single > double && single > plain {
        Some(SyntaxKind::SingleQuotedScalar)
    } else if double >= 2 && double > single && double > plain {
        Some(SyntaxKind::DoubleQuotedScalar)
    } else {
        None
    }
}

fn count_style(t: &Vec<Elem>, lo: usize, hi: usize, exclude: usize, kind: SyntaxKind) -> (r: usize)
    requires
        lo <= hi <= t@.len(),
    ensures
        r == tally(t@, lo as int, hi as int, exclude as int, kind),
        r <= hi - lo,
    decreases hi - lo,
{
    if lo >= hi {
        return 0;
    }
    let x: Elem = t[lo];
    if x.size < 1 || x.size > hi - lo {
        return 0;
    }
    let rest: usize = count_style(t, lo + x.size, hi, exclude, kind);
    if x.kind == SyntaxKind::MappingEntry && lo != exclude {
        match entry_value_scalar_kind(t, lo + 1, lo + x.size) {
            Some(k) => if k == kind {
                return rest + 1;
            },
            None => {},
        }
    }
    rest
}

/// The quoted style that the other entries of a mapping agree on.
pub fn dominant_sibling_value_kind(t: &Vec<Elem>, m: usize, exclude: usize, n: usize) -> (r: Option<
    SyntaxKind,
>)
    requires
        m < t@.len(),
        sound(t@, n as int),
    ensures
        r == dominant_style(t@, m as int, exclude as int),
{
    let len: usize = t.len();
    let size: usize = t[m].size;
    assert(t@[m as int].size == size);
    let hi: usize = m + size;
    let plain: usize = count_style(t, m + 1, hi, exclude, SyntaxKind::PlainScalar);
    let single: usize = count_style(t, m + 1, hi, exclude, SyntaxKind::SingleQuotedScalar);
    let double: usize = count_style(t, m + 1, hi, exclude, SyntaxKind::DoubleQuotedScalar);
    if single >= 2 && single > double && single > plain {
        return Some(SyntaxKind::SingleQuotedScalar);
    }
    if double >= 2 && double > single && double > plain {
        return Some(SyntaxKind::DoubleQuotedScalar);
    }
    None
}

/// The quoted style that the neighbours of the value at `target` agree on.
pub open spec fn neighbour_style(t: Seq<Elem>, target: int) -> Option<SyntaxKind> {
    match enclosing(t, 1, t.len() as int, target, None, None) {
        Some((m, e)) => dominant_style(t, m, e),
        None => None,
    }
}

/// The quoted style that the neighbours of the value at `target` agree on.
pub fn sibling_dominant_scalar_kind(t: &Vec<Elem>, target: usize, n: usize) -> (r: Option<
    SyntaxKind,
>)
    requires
        t@.len() > 0,
        sound(t@, n as int),
    ensures
        r == neighbour_style(t@, target as int),
{
    match enclosing_mapping_and_entry(t, 1, t.len(), target, None, None) {
        Some((m, e)) => dominant_sibling_value_kind(t, m, e, n),
        None => None,
    }
}

/// Whether a kind may stand between an anchor and what it marks.
pub open spec fn after_anchor(k: SyntaxKind) -> bool {
    k == SyntaxKind::Whitespace || k == SyntaxKind::Newline || k == SyntaxKind::Comment || k
        == SyntaxKind::TagMark
}

/// Index of the first of the siblings `c..hi` that an anchor before them
/// marks.
pub open spec fn marked(t: Seq<Elem>, c: int, hi: int) -> Option<int>
    decreases hi - c,
{
    if !steps_to(t, c, hi) {
        None
    } else if after_anchor(t[c].kind) {
        marked(t, next(t, c), hi)
    } else {
        Some(c)
    }
}

/// The range of the value that the anchor at byte `mark` marks, found among
/// the siblings `c..hi`.
pub open spec fn anchored_span(t: Seq<Elem>, c: int, hi: int, mark: int) -> Option<(int, int)>
    decreases t.len() - c,
{
    if !steps_to(t, c, hi) {
        None
    } else if t[c].kind == SyntaxKind::AnchorMark && t[c].start == mark {
        match marked(t, next(t, c), hi) {
            Some(x) => Some((t[x].start as int, t[x].end as int)),
            None => None,
        }
    } else if node_kind(t[c].kind) && t[c].start <= mark < t[c].end {
        anchored_span(t, c + 1, next(t, c), mark)
    } else {
        anchored_span(t, next(t, c), hi, mark)
    }
}

/// Finds the range of the value that the anchor at byte `mark` marks.
pub fn anchored_content_span(t: &Vec<Elem>, mark: usize) -> (r: Option<(usize, usize)>)
    requires
        t@.len() > 0,
    ensures
        match anchored_span(t@, 1, t@.len() as int, mark as int) {
            Some((a, b)) => r is Some && (r->0).0 == a && (r->0).1 == b,
            None => r is None,
        },
{
    let mut c: usize = 1;
    let mut hi: usize = t.len();
    while c < hi
        invariant
            c <= t@.len(),
            hi <= t@.len(),
            anchored_span(t@, c as int, hi as int, mark as int) == anchored_span(
                t@,
                1,
                t@.len() as int,
                mark as int,
            ),
        decreases t@.len() - c,
    {
        let x: Elem = t[c];
        if x.size < 1 || x.size > hi - c {
            return None;
        }
        if x.kind == SyntaxKind::AnchorMark && x.start == mark {
            let lo: usize = c + x.size;
            let mut k: usize = lo;
            while k < hi
                invariant
                    lo <= k <= hi <= t@.len(),
                    marked(t@, k as int, hi as int) == marked(t@, lo as int, hi as int),
                    anchored_span(t@, 1, t@.len() as int, mark as int) == (match marked(
                        t@,
                        lo as int,
                        hi as int,
                    ) {
                        Some(y) => Some((t@[y].start as int, t@[y].end as int)),
                        None => None,
                    }),
                decreases hi - k,
            {
                let y: Elem = t[k];
                if y.size < 1 || y.size > hi - k {
                    return None;
                }
                if !(y.kind == SyntaxKind::Whitespace || y.kind == SyntaxKind::Newline || y.kind
                    == SyntaxKind::Comment || y.kind == SyntaxKind::TagMark) {
                    return Some((y.start, y.end));
                }
                k += y.size;
            }
            return None;
        }
        if is_node_kind(x.kind) && x.start <= mark && mark < x.end {
            hi = c + x.size;
            c = c + 1;
        } else {
            c = c + x.size;
        }
    }
    None
}

/// The name of an anchor or alias.
pub open spec fn mark_name(s: Seq<u8>, e: Elem) -> Seq<u8> {
    if e.end > e.start {
        s.subrange(e.start + 1, e.end as int)
    } else {
        Seq::empty()
    }
}

/// How many of the aliases among the first `i` elements have the given name.
pub open spec fn alias_count(s: Seq<u8>, t: Seq<Elem>, name: Seq<u8>, i: int) -> int
    decreases i,
{
    if i <= 0 {
        0
    } else {
        alias_count(s, t, name, i - 1) + if t[i - 1].kind == SyntaxKind::AliasMark && mark_name(
            s,
            t[i - 1],
        ) == name {
            1int
        } else {
            0int
        }
    }
}

fn aliases_of(s: &[u8], t: &Vec<Elem>, name: &[u8]) -> (r: usize)
    requires
        sound(t@, s@.len() as int),
    ensures
        r == alias_count(s@, t@, name@, t@.len() as int),
        r <= t@.len(),
{
    let mut i: usize = 0;
    let mut n: usize = 0;
    while i < t.len()
        invariant
            i <= t@.len(),
            n <= i,
            sound(t@, s@.len() as int),
            n == alias_count(s@, t@, name@, i as int),
        decreases t@.len() - i,
    {
        let e: Elem = t[i];
        assert(t@[i as int] == e);
        if e.kind == SyntaxKind::AliasMark {
            let own: Vec<u8> = if e.end > e.start {
                copy(s, e.start + 1, e.end)
            } else {
                Vec::new()
            };
            proof {
                assert(own@ =~= mark_name(s@, e));
            }
            if crate::text::bytes_eq(own.as_slice(), name) {
                n += 1;
            }
        }
        i += 1;
    }
    n
}

/// How many aliases refer to the first anchored value, among the elements
/// from `i` on, that holds byte `pos` and is referred to at all; zero when
/// there is no such value.
pub open spec fn covering_aliases(s: Seq<u8>, t: Seq<Elem>, i: int, pos: int) -> int
    decreases t.len() - i,
{
    if i >= t.len() {
        0
    } else if t[i].kind != SyntaxKind::AnchorMark {
        covering_aliases(s, t, i + 1, pos)
    } else {
        match anchored_span(t, 1, t.len() as int, t[i].start as int) {
            Some((a, b)) => if a <= pos < b && alias_count(
                s,
                t,
                mark_name(s, t[i]),
                t.len() as int,
            ) > 0 {
                alias_count(s, t, mark_name(s, t[i]), t.len() as int)
            } else {
                covering_aliases(s, t, i + 1, pos)
            },
            None => covering_aliases(s, t, i + 1, pos),
        }
    }
}

/// How many aliases share the bytes at `pos` through an anchor.
pub fn aliased_anchor_covering(s: &[u8], t: &Vec<Elem>, pos: usize) -> (r: usize)
    requires
        t@.len() > 0,
        sound(t@, s@.len() as int),
    ensures
        r == covering_aliases(s@, t@, 0, pos as int),
{
    let mut i: usize = 0;
    while i < t.len()
        invariant
            i <= t@.len(),
            t@.len() > 0,
            sound(t@, s@.len() as int),
            covering_aliases(s@, t@, i as int, pos as int) == covering_aliases(
                s@,
                t@,
                0,
                pos as int,
            ),
        decreases t@.len() - i,
    {
        let e: Elem = t[i];
        assert(t@[i as int] == e);
        if e.kind == SyntaxKind::AnchorMark {
            if let Some((a, b)) = anchored_content_span(t, e.start) {
                if a <= pos && pos < b {
                    let name: Vec<u8> = if e.end > e.start {
                        copy(s, e.start + 1, e.end)
                    } else {
                        Vec::new()
                    };
                    proof {
                        assert(name@ =~= mark_name(s@, e));
                    }
                    let n: usize = aliases_of(s, t, name.as_slice());
                    if n > 0 {
                        return n;
                    }
                }
            }
        }
        i += 1;
    }
    0
}

/// The scalar styles a document can prefer.
#[derive(Clone, Copy, PartialEq, Eq, Structural, Debug)]
pub enum ScalarStyle {
    Plain,
    SingleQuoted,
    DoubleQuoted,
}

/// The collection styles a document can prefer.
#[derive(Clone, Copy, PartialEq, Eq, Structural, Debug)]
pub enum FlowStyle {
    Block,
    Auto,
}

/// Index of the innermost element of a kind that byte `x` lies in, among the
/// first `n`: elements are in preorder, so it is the last one.
pub open spec fn around(t: Seq<Elem>, kind: SyntaxKind, x: int, n: int) -> Option<int>
    decreases n,
{
    if n <= 0 {
        None
    } else if t[n - 1].kind == kind && t[n - 1].start <= x < t[n - 1].end {
        Some(n - 1)
    } else {
        around(t, kind, x, n - 1)
    }
}

/// Where the innermost element of a kind starts that holds the byte before
/// `value`: the entry or item that a value belongs to.
pub open spec fn owner(t: Seq<Elem>, kind: SyntaxKind, value: int) -> Option<int> {
    match around(t, kind, value - 1, t.len() as int) {
        Some(i) => Some(t[i].start as int),
        None => None,
    }
}

/// Finds the entry or item that a value belongs to.
pub fn find_owner(t: &Vec<Elem>, kind: SyntaxKind, value: usize) -> (r: Option<usize>)
    ensures
        match owner(t@, kind, value as int) {
            Some(i) => r is Some && r->0 == i && i < value,
            None => r is None,
        },
{
    let mut n: usize = t.len();
    while n > 0
        invariant
            n <= t@.len(),
            around(t@, kind, value - 1, n as int) == around(
                t@,
                kind,
                value - 1,
                t@.len() as int,
            ),
        decreases n,
    {
        let e: Elem = t[n - 1];
        assert(t@[n - 1] == e);
        if e.kind == kind && e.start < value && value <= e.end {
            return Some(e.start);
        }
        n -= 1;
    }
    None
}

/// Finds the `-` of the block sequence item whose value starts at `value`.
pub fn locate_preceding_dash(t: &Vec<Elem>, value: usize) -> (r: Option<usize>)
    ensures
        match owner(t@, SyntaxKind::SequenceItem, value as int) {
            Some(i) => r is Some && r->0 == i && i < value,
            None => r is None,
        },
{
    find_owner(t, SyntaxKind::SequenceItem, value)
}

/// Column of the `-` of the block sequence item whose value starts at `value`.
pub open spec fn dash_column(s: Seq<u8>, t: Seq<Elem>, value: int) -> Option<int> {
    match owner(t, SyntaxKind::SequenceItem, value) {
        Some(i) => Some(column(s, i, 0)),
        None => None,
    }
}

/// Column of the `-` of the block sequence item whose value starts at `value`.
pub fn column_of_preceding_dash(s: &[u8], t: &Vec<Elem>, value: usize) -> (r: Option<usize>)
    requires
        value <= s@.len(),
        fits(s@, 0),
    ensures
        match dash_column(s@, t@, value as int) {
            Some(c) => r is Some && r->0 == c && c <= s@.len(),
            None => r is None,
        },
{
    match locate_preceding_dash(t, value) {
        Some(i) => Some(column_of(s, i, 0)),
        None => None,
    }
}

/// Column of the key whose value starts at `value`: where its entry starts, and
/// the indentation of its line for an entry in flow style.
pub open spec fn key_column(s: Seq<u8>, t: Seq<Elem>, value: int) -> int {
    match owner(t, SyntaxKind::MappingEntry, value) {
        Some(i) => column(s, i, 0),
        None => indent_column(s, value),
    }
}

/// Column of the key whose value starts at `value`, or `None` when `value` lies
/// past the end of the text.
pub fn column_of_key_at(s: &[u8], t: &Vec<Elem>, value: usize) -> (r: Option<usize>)
    requires
        fits(s@, 0),
    ensures
        value > s@.len() <==> r is None,
        r matches Some(c) ==> c == key_column(s@, t@, value as int) && c <= s@.len(),
{
    if value > s.len() {
        return None;
    }
    match find_owner(t, SyntaxKind::MappingEntry, value) {
        Some(i) => Some(column_of(s, i, 0)),
        None => Some(entry_indent_column(s, value)),
    }
}

/// Column of what the value at `value` stands in: the innermost entry or item
/// that holds the byte before it, and the indentation of its line where there
/// is none.
pub open spec fn holder_column(s: Seq<u8>, t: Seq<Elem>, value: int) -> int {
    match (owner(t, SyntaxKind::MappingEntry, value), owner(t, SyntaxKind::SequenceItem, value)) {
        (Some(e), Some(i)) => column(
            s,
            if e > i {
                e
            } else {
                i
            },
            0,
        ),
        (Some(e), None) => column(s, e, 0),
        (None, Some(i)) => column(s, i, 0),
        (None, None) => indent_column(s, value),
    }
}

/// Column of what the value at `value` stands in.
pub fn column_of_holder(s: &[u8], t: &Vec<Elem>, value: usize) -> (r: usize)
    requires
        value <= s@.len(),
        fits(s@, 0),
    ensures
        r == holder_column(s@, t@, value as int),
        r <= s@.len(),
{
    match (
        find_owner(t, SyntaxKind::MappingEntry, value),
        find_owner(t, SyntaxKind::SequenceItem, value),
    ) {
        (Some(e), Some(i)) => if e > i {
            column_of(s, e, 0)
        } else {
            column_of(s, i, 0)
        },
        (Some(e), None) => column_of(s, e, 0),
        (None, Some(i)) => column_of(s, i, 0),
        (None, None) => entry_indent_column(s, value),
    }
}

} // verus!
