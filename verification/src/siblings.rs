//! Walking the children of a syntax node.
use crate::green::sound;
use crate::syntax::{is_trivia_kind, is_value_property_kind, property_kind, trivia_kind, Elem, SyntaxKind};
use vstd::prelude::*;

verus! {

/// Index of the sibling after the one at `i`.
pub open spec fn next(t: Seq<Elem>, i: int) -> int {
    i + t[i].size
}

/// Whether `i` is an element of the siblings that end at `hi`, and the next
/// one lies after it and not past `hi`.
pub open spec fn steps_to(t: Seq<Elem>, i: int, hi: int) -> bool {
    0 <= i < hi && hi <= t.len() && i < next(t, i) <= hi
}

/// Index of the first sibling of the given kind in `i..hi`, or `hi`.
pub open spec fn first_of(t: Seq<Elem>, i: int, hi: int, kind: SyntaxKind) -> int
    decreases hi - i,
{
    if !steps_to(t, i, hi) || t[i].kind == kind {
        if i < hi && steps_to(t, i, hi) {
            i
        } else {
            hi
        }
    } else {
        first_of(t, next(t, i), hi, kind)
    }
}

/// Finds the first sibling of the given kind.
pub fn find_first(t: &Vec<Elem>, lo: usize, hi: usize, kind: SyntaxKind) -> (r: usize)
    requires
        lo <= hi <= t@.len(),
    ensures
        r == first_of(t@, lo as int, hi as int, kind),
        lo <= r <= hi,
        r < hi ==> steps_to(t@, r as int, hi as int) && t@[r as int].kind == kind,
{
    let mut i: usize = lo;
    while i < hi
        invariant
            lo <= i <= hi <= t@.len(),
            first_of(t@, i as int, hi as int, kind) == first_of(t@, lo as int, hi as int, kind),
        decreases hi - i,
    {
        let e: Elem = t[i];
        if e.size < 1 || e.size > hi - i {
            return hi;
        }
        if e.kind == kind {
            return i;
        }
        i += e.size;
    }
    hi
}

/// Whether a kind is passed over when looking for the content of a value.
pub open spec fn passed_over(k: SyntaxKind) -> bool {
    ||| trivia_kind(k)
    ||| property_kind(k)
    ||| k == SyntaxKind::QuestionIndicator
    ||| k == SyntaxKind::DocumentStart
    ||| k == SyntaxKind::DocumentEnd
}

fn is_passed_over(k: SyntaxKind) -> (r: bool)
    ensures
        r == passed_over(k),
{
    is_trivia_kind(k) || is_value_property_kind(k) || k == SyntaxKind::QuestionIndicator || k
        == SyntaxKind::DocumentStart || k == SyntaxKind::DocumentEnd
}

/// Index of the first sibling in `i..hi` that is content, or `hi`.
pub open spec fn content(t: Seq<Elem>, i: int, hi: int) -> int
    decreases hi - i,
{
    if !steps_to(t, i, hi) {
        hi
    } else if passed_over(t[i].kind) {
        content(t, next(t, i), hi)
    } else {
        i
    }
}

/// Finds the content of a value.
pub fn find_content(t: &Vec<Elem>, lo: usize, hi: usize) -> (r: usize)
    requires
        lo <= hi <= t@.len(),
    ensures
        r == content(t@, lo as int, hi as int),
        lo <= r <= hi,
        r < hi ==> steps_to(t@, r as int, hi as int) && !passed_over(t@[r as int].kind),
{
    let mut i: usize = lo;
    while i < hi
        invariant
            lo <= i <= hi <= t@.len(),
            content(t@, i as int, hi as int) == content(t@, lo as int, hi as int),
        decreases hi - i,
    {
        let e: Elem = t[i];
        if e.size < 1 || e.size > hi - i {
            return hi;
        }
        if !is_passed_over(e.kind) {
            return i;
        }
        i += e.size;
    }
    hi
}

/// Whether the siblings in `i..hi` are nothing but white space and comments.
pub open spec fn vacant(t: Seq<Elem>, i: int, hi: int) -> bool
    decreases hi - i,
{
    if !steps_to(t, i, hi) {
        true
    } else if trivia_kind(t[i].kind) {
        vacant(t, next(t, i), hi)
    } else {
        false
    }
}

/// Whether the siblings are nothing but white space and comments.
pub fn is_vacant(t: &Vec<Elem>, lo: usize, hi: usize) -> (r: bool)
    requires
        lo <= hi <= t@.len(),
    ensures
        r == vacant(t@, lo as int, hi as int),
{
    let mut i: usize = lo;
    while i < hi
        invariant
            lo <= i <= hi <= t@.len(),
            vacant(t@, i as int, hi as int) == vacant(t@, lo as int, hi as int),
        decreases hi - i,
    {
        let e: Elem = t[i];
        if e.size < 1 || e.size > hi - i {
            return true;
        }
        if !is_trivia_kind(e.kind) {
            return false;
        }
        i += e.size;
    }
    true
}

/// Index just past the innermost node around the element at `a`, looking
/// among the elements before `i`.
pub open spec fn enclosing_end(t: Seq<Elem>, a: int, i: int) -> int
    decreases i,
{
    if i <= 0 {
        t.len() as int
    } else if i - 1 + t[i - 1].size > a {
        i - 1 + t[i - 1].size
    } else {
        enclosing_end(t, a, i - 1)
    }
}

/// Finds the end of the innermost node around an element.
pub fn find_enclosing_end(t: &Vec<Elem>, a: usize, n: usize) -> (r: usize)
    requires
        a < t@.len(),
        sound(t@, n as int),
    ensures
        r == enclosing_end(t@, a as int, a as int),
        a < r <= t@.len(),
{
    let len: usize = t.len();
    let mut i: usize = a;
    while i > 0
        invariant
            i <= a < len,
            len == t@.len(),
            sound(t@, n as int),
            enclosing_end(t@, a as int, i as int) == enclosing_end(t@, a as int, a as int),
        decreases i,
    {
        let e: Elem = t[i - 1];
        assert(t@[i - 1] == e);
        if i - 1 + e.size > a {
            return i - 1 + e.size;
        }
        i -= 1;
    }
    len
}

} // verus!
