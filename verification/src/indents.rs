//! How far the lines of a text are indented.
use crate::blocks::starts_line;
use crate::growth::lines_end_behind_feeds;
use crate::lines::{indent_step, least, line_end};
use crate::text::{run, run_is_maximal, Class, CR, HASH, NL, SPACE, TAB};
use vstd::prelude::*;

verus! {

/// Whether the line at `line` has content in column `c`, behind spaces alone: what
/// is there is neither a line break nor a tab nor a comment.
pub open spec fn content_in(s: Seq<u8>, line: int, c: int) -> bool {
    let x = line + c;
    &&& starts_line(s, line)
    &&& 0 <= c
    &&& x < s.len()
    &&& forall|k: int| line <= k < x ==> #[trigger] s[k] == SPACE
    &&& s[x] != SPACE && s[x] != TAB && s[x] != NL && s[x] != HASH
    &&& !(s[x] == CR && x + 1 < s.len() && s[x + 1] == NL)
}

/// Whether the line at `a` has content in column `c`, the next line that has
/// content has it in column `d`, further right, and is the one at `b`.
pub open spec fn rises(s: Seq<u8>, a: int, c: int, b: int, d: int) -> bool {
    &&& content_in(s, a, c)
    &&& content_in(s, b, d)
    &&& a < b
    &&& c < d
    &&& forall|x: int, w: int| a < x < b ==> !#[trigger] content_in(s, x, w)
}

/// Whether `m` is the smallest of the rises up to a line before `i`; `None` if
/// there are none.
pub open spec fn smallest_before(s: Seq<u8>, i: int, m: Option<int>) -> bool {
    &&& forall|a: int, c: int, b: int, d: int| #[trigger]
        rises(s, a, c, b, d) && b < i ==> m is Some && m->0 <= d - c
    &&& m is Some ==> exists|a: int, c: int, b: int, d: int| #[trigger]
        rises(s, a, c, b, d) && b < i && m->0 == d - c
}

/// Whether the last line before `i` that has content is the one at `last`, with its
/// content in the column given; `None` if no line before `i` has content.
spec fn last_before(s: Seq<u8>, i: int, last: int, c: Option<int>) -> bool {
    match c {
        Some(w) => content_in(s, last, w) && last < i && forall|x: int, y: int|
            last < x < i ==> !#[trigger] content_in(s, x, y),
        None => forall|x: int, y: int| x < i ==> !#[trigger] content_in(s, x, y),
    }
}

proof fn content_has_one_column(s: Seq<u8>, line: int, c: int, d: int)
    requires
        content_in(s, line, c),
        content_in(s, line, d),
    ensures
        c == d,
{
    if c < d {
        assert(s[line + c] == SPACE);
    }
    if d < c {
        assert(s[line + d] == SPACE);
    }
}

proof fn lines_have_content(s: Seq<u8>, i: int)
    requires
        starts_line(s, i),
    ensures
        ({
            let e = run(s, i, s.len() as int, Class::Line);
            let stop = if e < s.len() && i < e && s[e - 1] == CR {
                e - 1
            } else {
                e
            };
            let k = run(s, i, stop, Class::Space);
            if k >= stop || s[k] == TAB || s[k] == HASH {
                forall|c: int| !#[trigger] content_in(s, i, c)
            } else {
                content_in(s, i, k - i)
            }
        }),
        forall|x: int, c: int| i < x < line_end(s, i) ==> !#[trigger] content_in(s, x, c),
        i < line_end(s, i) <= s.len(),
        line_end(s, i) < s.len() ==> starts_line(s, line_end(s, i)),
{
    let n = s.len() as int;
    let e = run(s, i, n, Class::Line);
    run_is_maximal(s, i, n, Class::Line);
    lines_end_behind_feeds(s, i);
    let stop = if e < n && i < e && s[e - 1] == CR {
        e - 1
    } else {
        e
    };
    let k = run(s, i, stop, Class::Space);
    run_is_maximal(s, i, stop, Class::Space);
    if k >= stop || s[k] == TAB || s[k] == HASH {
        assert forall|c: int| !#[trigger] content_in(s, i, c) by {
            if content_in(s, i, c) {
                let x = i + c;
                if x < k {
                    assert(s[x] == SPACE);
                }
                if x > k {
                    assert(s[k] == SPACE);
                }
            }
        }
    }
    assert forall|x: int, c: int| i < x < line_end(s, i) implies !#[trigger] content_in(s, x, c) by {
        if content_in(s, x, c) {
            assert(s[x - 1] == NL);
        }
    }
}

proof fn one_more_rise(s: Seq<u8>, i: int, e: int, prev: Option<int>, last: int, seen: Option<int>, w: int)
    requires
        last_before(s, i, last, prev),
        smallest_before(s, i, seen),
        content_in(s, i, w),
        i < e,
        forall|x: int, c: int| i < x < e ==> !#[trigger] content_in(s, x, c),
    ensures
        smallest_before(
            s,
            e,
            if prev is Some && w > prev->0 {
                Some(least(w - prev->0, seen))
            } else {
                seen
            },
        ),
{
    let now = if prev is Some && w > prev->0 {
        Some(least(w - prev->0, seen))
    } else {
        seen
    };
    assert forall|a: int, c: int, b: int, d: int| #[trigger] rises(s, a, c, b, d) && b < e implies now
        is Some && now->0 <= d - c by {
        if b >= i {
            assert(b == i);
            content_has_one_column(s, i, w, d);
            if a < last {
                assert(!content_in(s, last, prev->0));
            }
            assert(a == last);
            content_has_one_column(s, last, prev->0, c);
        }
    }
    if now is Some {
        if now == seen {
            let (a, c, b, d) = choose|a: int, c: int, b: int, d: int| #[trigger]
                rises(s, a, c, b, d) && b < i && seen->0 == d - c;
            assert(rises(s, a, c, b, d) && b < e);
        } else {
            assert(rises(s, last, prev->0, i, w));
        }
    }
}

proof fn steps_are_measured(
    s: Seq<u8>,
    i: int,
    prev: Option<int>,
    last: int,
    seen: Option<int>,
)
    requires
        i == s.len() || starts_line(s, i),
        last_before(s, i, last, prev),
        smallest_before(s, i, seen),
    ensures
        ({
            let r = indent_step(s, i, prev, seen);
            smallest_before(s, s.len() as int, Some(r)) || (r == 2 && smallest_before(
                s,
                s.len() as int,
                None,
            ))
        }),
    decreases s.len() - i,
{
    if i < s.len() {
        lines_have_content(s, i);
        let n = s.len() as int;
        let e = run(s, i, n, Class::Line);
        let next = line_end(s, i);
        let stop = if e < n && i < e && s[e - 1] == CR {
            e - 1
        } else {
            e
        };
        let k = run(s, i, stop, Class::Space);
        if k >= stop || s[k] == TAB || s[k] == HASH {
            assert(smallest_before(s, next, seen)) by {
                if seen is Some {
                    let (a, c, b, d) = choose|a: int, c: int, b: int, d: int| #[trigger]
                        rises(s, a, c, b, d) && b < i && seen->0 == d - c;
                    assert(rises(s, a, c, b, d) && b < next);
                }
            }
            steps_are_measured(s, next, prev, last, seen);
        } else {
            one_more_rise(s, i, next, prev, last, seen, k - i);
            let now = if prev is Some && k - i > prev->0 {
                Some(least(k - i - prev->0, seen))
            } else {
                seen
            };
            steps_are_measured(s, next, Some(k - i), i, now);
        }
    }
}

/// The indentation step of a text is the smallest of its rises, from one line that
/// has content to the next: no rise is smaller, and one is as small. It is two for
/// a text without any. Blank lines and comments do not count.
pub proof fn steps_are_the_smallest_rise(s: Seq<u8>)
    ensures
        ({
            let r = indent_step(s, 0, None, None);
            &&& forall|a: int, c: int, b: int, d: int| #[trigger] rises(s, a, c, b, d) ==> r <= d - c
            &&& (exists|a: int, c: int, b: int, d: int| #[trigger]
                rises(s, a, c, b, d) && r == d - c) || (r == 2 && forall|
                a: int,
                c: int,
                b: int,
                d: int,
            |
                !#[trigger] rises(s, a, c, b, d))
        }),
{
    steps_are_measured(s, 0, None, 0, None);
    let n = s.len() as int;
    let r = indent_step(s, 0, None, None);
    assert forall|a: int, c: int, b: int, d: int| #[trigger] rises(s, a, c, b, d) implies b < n by {}
    if smallest_before(s, n, Some(r)) {
        let (a, c, b, d) = choose|a: int, c: int, b: int, d: int| #[trigger]
            rises(s, a, c, b, d) && b < n && r == d - c;
        assert(rises(s, a, c, b, d) && r == d - c);
    }
}

} // verus!
