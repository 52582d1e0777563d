//! How far comments, block scalars and plain scalars reach.
use crate::blocks::starts_line;
use crate::grammar::block_extent;
use crate::growth::white;
use crate::lexis::{column, gap, marker, plain_line, plain_more, plain_stop, trivia_end};
use crate::text::{
    back_is_maximal, blank, in_class, line_break, run, run_is_maximal, Class, CR, HASH, NL, SPACE,
};
use vstd::prelude::*;

verus! {

/// Whether a comment starts at `h`: a `#` that opens the text or has white space in
/// front of it.
pub open spec fn comment_from(s: Seq<u8>, h: int) -> bool {
    0 <= h < s.len() && s[h] == HASH && (h == 0 || white(s[h - 1]))
}

/// Whether byte `x` is part of a comment that starts at `p` or behind it.
pub open spec fn in_comment(s: Seq<u8>, p: int, x: int) -> bool {
    exists|h: int|
        p <= h <= x && #[trigger] comment_from(s, h) && forall|k: int|
            h <= k <= x ==> !line_break(#[trigger] s[k])
}

/// What stands between two pieces of content is white space and comments, and it
/// is all of it: content starts with neither.
pub proof fn gaps_are_white_space_and_comments(s: Seq<u8>, p: int)
    requires
        0 <= p <= s.len(),
    ensures
        p <= gap(s, p) <= s.len(),
        forall|x: int| p <= x < gap(s, p) ==> white(#[trigger] s[x]) || in_comment(s, p, x),
        gap(s, p) < s.len() ==> !white(s[gap(s, p)]) && !comment_from(s, gap(s, p)),
    decreases s.len() - p,
{
    let n = s.len() as int;
    let e = trivia_end(s, p);
    if p < n {
        run_is_maximal(s, p, n, Class::Blank);
        run_is_maximal(s, p, n, Class::Text);
    }
    if p < e <= n {
        gaps_are_white_space_and_comments(s, e);
        assert forall|x: int| p <= x < gap(s, p) implies white(#[trigger] s[x]) || in_comment(
            s,
            p,
            x,
        ) by {
            if x >= e {
                if in_comment(s, e, x) {
                    let h = choose|h: int|
                        e <= h <= x && #[trigger] comment_from(s, h) && forall|k: int|
                            h <= k <= x ==> !line_break(#[trigger] s[k]);
                    assert(p <= h <= x && comment_from(s, h));
                }
            } else if !blank(s[p]) && !line_break(s[p]) {
                assert(comment_from(s, p));
                assert forall|k: int| p <= k <= x implies !line_break(#[trigger] s[k]) by {
                    assert(in_class(s[k], Class::Text));
                }
            } else if blank(s[p]) {
                assert(in_class(s[x], Class::Blank));
            }
        }
    }
}

/// Whether the line at `line` holds spaces alone.
pub open spec fn is_blank_line(s: Seq<u8>, line: int) -> bool {
    exists|e: int| #[trigger] spaces_up_to(s, line, e)
}

/// Whether the line at `line` holds spaces up to where it ends, at `e`.
pub open spec fn spaces_up_to(s: Seq<u8>, line: int, e: int) -> bool {
    &&& line <= e <= s.len()
    &&& forall|k: int| line <= k < e ==> #[trigger] s[k] == SPACE
    &&& e < s.len() ==> s[e] == NL || (s[e] == CR && (e + 1 == s.len() || s[e + 1] == NL))
}

/// Whether the line at `line` has content behind `c` spaces.
pub open spec fn indented_to(s: Seq<u8>, line: int, c: int) -> bool {
    &&& 0 <= c
    &&& line + c < s.len()
    &&& forall|k: int| line <= k < line + c ==> #[trigger] s[k] == SPACE
    &&& s[line + c] != SPACE
    &&& !is_blank_line(s, line)
}

proof fn lines_are_blank_or_not(s: Seq<u8>, i: int)
    requires
        0 <= i < s.len(),
    ensures
        ({
            let e = run(s, i, s.len() as int, Class::Line);
            let t = if i < e && s[e - 1] == CR {
                e - 1
            } else {
                e
            };
            let k = run(s, i, t, Class::Space);
            &&& i <= t <= e <= s.len()
            &&& k >= t ==> is_blank_line(s, i)
            &&& k < t ==> indented_to(s, i, k - i)
            &&& e < s.len() ==> s[e] == NL
            &&& forall|x: int| i <= x < e ==> #[trigger] s[x] != NL
            &&& forall|x: int| t <= x < e ==> white(#[trigger] s[x])
            &&& k >= t ==> forall|x: int| i <= x < t ==> #[trigger] s[x] == SPACE
        }),
{
    let n = s.len() as int;
    let e = run(s, i, n, Class::Line);
    run_is_maximal(s, i, n, Class::Line);
    let t = if i < e && s[e - 1] == CR {
        e - 1
    } else {
        e
    };
    let k = run(s, i, t, Class::Space);
    run_is_maximal(s, i, t, Class::Space);
    if k >= t {
        assert(spaces_up_to(s, i, t));
    } else {
        assert forall|x: int| !#[trigger] spaces_up_to(s, i, x) by {
            if spaces_up_to(s, i, x) {
                if x > k {
                    assert(s[k] == SPACE);
                }
                if x < k {
                    assert(s[x] == SPACE);
                }
                assert(x == k);
                if s[k] == CR {
                    if k + 1 < n {
                        assert(s[k + 1] == NL);
                        if e > k + 1 {
                            assert(s[k + 1] != NL);
                        }
                    }
                    assert(e == k + 1);
                }
            }
        }
    }
}

/// The lines of a block scalar are the blank ones and those that are indented as
/// far as its content, up to the first that is neither, or that ends the document.
/// Only white space comes behind its last content.
pub proof fn block_scalars_end_with_their_lines(s: Seq<u8>, i: int, indent: int, last: int)
    requires
        0 <= last <= i <= s.len(),
        i == s.len() || starts_line(s, i),
        forall|x: int| last <= x < i ==> white(#[trigger] s[x]),
    ensures
        ({
            let (end, stop) = block_extent(s, i, indent, last);
            &&& last <= end <= s.len()
            &&& i <= stop <= s.len()
            &&& forall|line: int|
                i <= line < stop && #[trigger] starts_line(s, line) ==> is_blank_line(s, line) || (
                !marker(s, line) && exists|c: int| indent <= c && #[trigger] indented_to(s, line, c))
            &&& stop < s.len() ==> starts_line(s, stop) && (marker(s, stop) || exists|c: int|
                c < indent && #[trigger] indented_to(s, stop, c))
            &&& forall|x: int| end <= x < stop ==> white(#[trigger] s[x])
        }),
    decreases s.len() - i,
{
    let n = s.len() as int;
    let (end, stop) = block_extent(s, i, indent, last);
    if i < n {
        lines_are_blank_or_not(s, i);
        let e = run(s, i, n, Class::Line);
        let t = if i < e && s[e - 1] == CR {
            e - 1
        } else {
            e
        };
        let k = run(s, i, t, Class::Space);
        let next = if e < n {
            e + 1
        } else {
            e
        };
        if k >= t {
            block_scalars_end_with_their_lines(s, next, indent, last);
        } else if k - i >= indent && !marker(s, i) {
            block_scalars_end_with_their_lines(s, next, indent, t);
            assert(indent <= k - i && indented_to(s, i, k - i));
        } else {
            assert(indented_to(s, i, k - i));
        }
        assert forall|line: int|
            i <= line < stop && #[trigger] starts_line(s, line) implies is_blank_line(s, line) || (
        !marker(s, line) && exists|c: int| indent <= c && #[trigger] indented_to(s, line, c)) by {
            if i < line < next {
                assert(s[line - 1] != NL);
            }
        }
    }
}

/// Whether a line of a plain scalar goes on at or behind `x`, before `r`: behind
/// white space, in column `least` or further right unless it is in a flow
/// collection, and with neither a comment nor a mark between documents.
pub open spec fn goes_on(
    s: Seq<u8>,
    x: int,
    r: int,
    least: int,
    base: int,
    flow: bool,
) -> bool {
    exists|q: int| x <= q < r && #[trigger] continues_at(s, x, q, least, base, flow)
}

/// Whether a plain scalar can go on at `q`, with only white space from `x` on.
pub open spec fn continues_at(
    s: Seq<u8>,
    x: int,
    q: int,
    least: int,
    base: int,
    flow: bool,
) -> bool {
    &&& forall|k: int| x <= k < q ==> white(#[trigger] s[k])
    &&& !white(s[q])
    &&& s[q] != HASH
    &&& !marker(s, q)
    &&& flow || column(s, q, base) >= least
}

proof fn plain_stops_before_breaks(s: Seq<u8>, lo: int, i: int, flow: bool)
    requires
        0 <= lo <= i <= s.len(),
    ensures
        i <= plain_stop(s, lo, i, flow) <= s.len(),
        forall|k: int| i <= k < plain_stop(s, lo, i, flow) ==> !line_break(#[trigger] s[k]),
    decreases s.len() - i,
{
    if i < s.len() && plain_stop(s, lo, i, flow) != i {
        plain_stops_before_breaks(s, lo, i + 1, flow);
    }
}

/// Every further line of a plain scalar is indented as far as it has to be, and
/// none is a comment or a mark between documents. It ends where no such line
/// follows.
pub proof fn plain_scalars_go_on_in_their_column(
    s: Seq<u8>,
    e: int,
    least: int,
    base: int,
    flow: bool,
)
    requires
        0 <= e <= s.len(),
    ensures
        ({
            let r = plain_more(s, e, least, base, flow);
            &&& e <= r <= s.len()
            &&& forall|x: int|
                e < x <= r && #[trigger] starts_line(s, x) ==> goes_on(s, x, r, least, base, flow)
            &&& forall|x: int, q: int|
                r <= x <= q < s.len() && line_break(s[x]) && (forall|k: int|
                    r <= k < x ==> blank(#[trigger] s[k])) && #[trigger] continues_at(
                    s,
                    x,
                    q,
                    least,
                    base,
                    flow,
                ) ==> plain_line(s, q, flow) <= q
        }),
    decreases s.len() - e,
{
    let n = s.len() as int;
    let w = run(s, e, n, Class::Blank);
    let q = run(s, w, n, Class::White);
    let f = plain_line(s, q, flow);
    let r = plain_more(s, e, least, base, flow);
    run_is_maximal(s, e, n, Class::Blank);
    run_is_maximal(s, w, n, Class::White);
    if w < n && line_break(s[w]) && q < n && !marker(s, q) && s[q] != HASH && (flow || column(
        s,
        q,
        base,
    ) >= least) && e < f <= n && q < f {
        plain_scalars_go_on_in_their_column(s, f, least, base, flow);
        plain_stops_before_breaks(s, q, q, flow);
        back_is_maximal(s, q, plain_stop(s, q, q, flow), Class::Blank);
        assert forall|x: int| e < x <= r && #[trigger] starts_line(s, x) implies goes_on(
            s,
            x,
            r,
            least,
            base,
            flow,
        ) by {
            if x <= f {
                if x > q {
                    assert(!line_break(s[x - 1]));
                }
                assert forall|k: int| x <= k < q implies white(#[trigger] s[k]) by {
                    if k < w {
                        assert(in_class(s[k], Class::Blank));
                    }
                }
                assert(continues_at(s, x, q, least, base, flow));
            }
        }
    } else {
        assert(r == e);
        assert forall|x: int, y: int|
            r <= x <= y < s.len() && line_break(s[x]) && (forall|k: int|
                r <= k < x ==> blank(#[trigger] s[k])) && #[trigger] continues_at(
                s,
                x,
                y,
                least,
                base,
                flow,
            ) implies plain_line(s, y, flow) <= y by {
            if w < x {
                assert(blank(s[w]));
            }
            if x < w {
                assert(blank(s[x]));
            }
            assert(x == w);
            if y < q {
                assert(white(s[y]));
            }
            if q < y {
                assert(white(s[q]));
            }
            assert(y == q);
            plain_stops_before_breaks(s, q, q, flow);
            back_is_maximal(s, q, plain_stop(s, q, q, flow), Class::Blank);
        }
    }
}

} // verus!
