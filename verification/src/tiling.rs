//! Every tree that the grammar builds tiles its text: tokens follow one
//! another without gap or overlap, nodes start where their first token does,
//! and nodes are nested.
use crate::decode::{double_end, single_end};
use crate::grammar::{
    block_end, block_extent, entries, entry, flat, flow, item, items, mapping, members, node, sequence, value, opens_line};
use crate::lexis::{
    closed, column, entry_start, fresh, gap, indicator, key_colon, key_end, marker, plain_end, plain_line, plain_more,
    plain_start, plain_stop, property, property_token, scalar_token, token, trivia_end, trivia_token, with_blanks,
    with_properties, with_trivia, Built,
};
use crate::syntax::{node_kind, Elem, SyntaxKind};
use crate::text::{
    back_is_maximal, run, run_is_maximal, Class, AMP, BANG, COLON, COMMA, CR, DASH, DQUOTE, GREATER, LBRACE, LBRACKET,
    PIPE, QUESTION, RBRACE, RBRACKET, SQUOTE, STAR,
};
use vstd::prelude::*;

verus! {

/// The offset that the first `k` elements reach.
pub open spec fn reach(t: Seq<Elem>, k: int) -> int
    decreases k,
{
    if k <= 0 {
        0
    } else if node_kind(t[k - 1].kind) {
        reach(t, k - 1)
    } else {
        t[k - 1].end as int
    }
}

/// Whether element `k` starts where those before it end, ends where the last
/// of those inside it ends, and stays inside the text and the list.
pub open spec fn in_place(t: Seq<Elem>, k: int, n: int) -> bool {
    let e = t[k];
    &&& e.start == reach(t, k)
    &&& e.start <= e.end && e.end <= n
    &&& 1 <= e.size && k + e.size <= t.len()
    &&& e.end == reach(t, k + e.size)
    &&& node_kind(e.kind) || e.size == 1
}

/// Whether the elements tile the text of length `n` from its start to `pos`,
/// and no two of them overlap without one holding the other.
pub open spec fn laid(t: Seq<Elem>, pos: int, n: int) -> bool {
    &&& reach(t, t.len() as int) == pos
    &&& pos <= n <= usize::MAX
    &&& forall|k: int| 0 <= k < t.len() ==> #[trigger] in_place(t, k, n)
    &&& forall|j: int, i: int|
        0 <= j < i < t.len() && i < j + (#[trigger] t[j]).size ==> i + (#[trigger] t[i]).size <= j
            + t[j].size
}

/// Whether a list begins with another one.
pub open spec fn extends(acc: Seq<Elem>, a: Seq<Elem>) -> bool {
    acc.len() <= a.len() && forall|k: int| 0 <= k < acc.len() ==> #[trigger] a[k] == acc[k]
}

/// Whether what was built on `acc` tiles the text up to where it ends.
pub open spec fn built_on(s: Seq<u8>, p: int, acc: Seq<Elem>, r: Built) -> bool {
    r matches Ok((a, e)) ==> a.len() <= usize::MAX ==> extends(acc, a) && laid(
        a,
        e,
        s.len() as int,
    ) && p <= e
}

/// The same, where nothing is known of how long the list may get.
pub open spec fn grown(acc: Seq<Elem>, r: Built) -> bool {
    r matches Ok((a, _)) ==> acc.len() <= a.len()
}

proof fn reach_is_local(t: Seq<Elem>, u: Seq<Elem>, k: int)
    requires
        0 <= k <= t.len(),
        k <= u.len(),
        forall|j: int|
            0 <= j < k ==> (#[trigger] u[j]).kind == t[j].kind && (node_kind(t[j].kind) || u[j].end
                == t[j].end),
    ensures
        reach(u, k) == reach(t, k),
    decreases k,
{
    if k > 0 {
        reach_is_local(t, u, k - 1);
        assert(u[k - 1].kind == t[k - 1].kind);
    }
}

/// A token or a node laid down next.
pub proof fn laid_next(t: Seq<Elem>, kind: SyntaxKind, p: int, e: int, n: int)
    requires
        laid(t, p, n),
        0 <= p <= e <= n,
        node_kind(kind) ==> e == p,
    ensures
        laid(t.push(token(kind, p, e)), e, n),
        extends(t, t.push(token(kind, p, e))),
{
    let u = t.push(token(kind, p, e));
    assert forall|k: int| 0 <= k <= t.len() implies #[trigger] reach(u, k) == reach(t, k) by {
        reach_is_local(t, u, k);
    }
    assert forall|k: int| 0 <= k < u.len() implies #[trigger] in_place(u, k, n) by {
        assert(reach(u, k) == reach(t, k));
        if k < t.len() {
            assert(in_place(t, k, n));
            assert(u[k] == t[k]);
            assert(reach(u, k + t[k].size) == reach(t, k + t[k].size));
        }
    }
    assert forall|j: int, i: int|
        0 <= j < i < u.len() && i < j + (#[trigger] u[j]).size implies i + (#[trigger] u[i]).size
        <= j + u[j].size by {
        assert(in_place(t, j, n));
        assert(u[j] == t[j]);
    }
    assert(reach(u, t.len() as int) == reach(t, t.len() as int));
}

/// A node closed at the end of what is laid down.
pub proof fn laid_closed(acc: Seq<Elem>, a: Seq<Elem>, p: int, e: int, n: int)
    requires
        laid(acc, p, n),
        acc.len() < a.len() <= usize::MAX,
        extends(acc, a),
        laid(a, e, n),
        0 <= p <= e,
        node_kind(a[acc.len() as int].kind),
        a[acc.len() as int].start == p,
    ensures
        laid(closed(a, acc.len() as int, e), e, n),
        extends(acc, closed(a, acc.len() as int, e)),
        closed(a, acc.len() as int, e).len() == a.len(),
{
    let at = acc.len() as int;
    let u = closed(a, at, e);
    assert forall|k: int| 0 <= k <= a.len() implies #[trigger] reach(u, k) == reach(a, k) by {
        reach_is_local(a, u, k);
    }
    assert forall|k: int| 0 <= k < u.len() implies #[trigger] in_place(u, k, n) by {
        assert(in_place(a, k, n));
        assert(reach(u, k) == reach(a, k));
        assert(reach(u, k + u[k].size) == reach(a, k + u[k].size));
    }
    assert forall|j: int, i: int|
        0 <= j < i < u.len() && i < j + (#[trigger] u[j]).size implies i + (#[trigger] u[i]).size
        <= j + u[j].size by {
        assert(in_place(a, i, n));
        if j < at {
            assert(in_place(acc, j, n));
            assert(a[j] == acc[j]);
            assert(u[j] == a[j]);
        } else if j > at {
            assert(u[j] == a[j] && u[i] == a[i]);
        }
    }
    assert(reach(u, a.len() as int) == reach(a, a.len() as int));
}

pub proof fn extends_in_turn(a: Seq<Elem>, b: Seq<Elem>, c: Seq<Elem>)
    requires
        extends(a, b),
        extends(b, c),
    ensures
        extends(a, c),
{
    assert forall|k: int| 0 <= k < a.len() implies #[trigger] c[k] == a[k] by {
        assert(b[k] == a[k]);
    }
}

/// White space and comments, laid down as tokens.
pub proof fn laid_trivia(s: Seq<u8>, p: int, acc: Seq<Elem>)
    requires
        0 <= p <= s.len(),
        laid(acc, p, s.len() as int),
    ensures
        p <= gap(s, p) <= s.len(),
        laid(with_trivia(s, p, acc), gap(s, p), s.len() as int),
        extends(acc, with_trivia(s, p, acc)),
    decreases s.len() - p,
{
    let e = trivia_end(s, p);
    if p < e <= s.len() {
        let next = acc.push(token(trivia_token(s[p]), p, e));
        laid_next(acc, trivia_token(s[p]), p, e, s.len() as int);
        laid_trivia(s, e, next);
        extends_in_turn(acc, next, with_trivia(s, e, next));
    }
}

proof fn laid_blanks(a: Seq<Elem>, p: int, q: int, n: int)
    requires
        laid(a, p, n),
        0 <= p <= q <= n,
    ensures
        laid(with_blanks(a, p, q), q, n),
        extends(a, with_blanks(a, p, q)),
{
    if p < q {
        laid_next(a, SyntaxKind::Whitespace, p, q, n);
    }
}

proof fn laid_properties(s: Seq<u8>, p: int, acc: Seq<Elem>)
    requires
        0 <= p <= s.len(),
        laid(acc, p, s.len() as int),
    ensures
        ({
            let (a, e) = with_properties(s, p, acc);
            &&& p <= e <= s.len()
            &&& laid(a, e, s.len() as int)
            &&& extends(acc, a)
            &&& property(s, p) ==> p < e
        }),
    decreases s.len() - p,
{
    let n = s.len() as int;
    if property(s, p) {
        let e = run(s, p + 1, n, Class::Name);
        run_is_maximal(s, p + 1, n, Class::Name);
        let w = run(s, e, n, Class::Blank);
        run_is_maximal(s, e, n, Class::Blank);
        let one = acc.push(token(property_token(s[p]), p, e));
        laid_next(acc, property_token(s[p]), p, e, n);
        if property(s, w) && p < w {
            let two = with_blanks(one, e, w);
            laid_blanks(one, e, w, n);
            extends_in_turn(acc, one, two);
            laid_properties(s, w, two);
            extends_in_turn(acc, two, with_properties(s, w, two).0);
        }
    }
}

proof fn single_end_bounds(s: Seq<u8>, i: int)
    requires
        0 <= i,
    ensures
        single_end(s, i) matches Some(e) ==> i < e <= s.len(),
    decreases s.len() - i,
{
    if i < s.len() {
        if s[i] != SQUOTE {
            single_end_bounds(s, i + 1);
        } else if i + 1 < s.len() && s[i + 1] == SQUOTE {
            single_end_bounds(s, i + 2);
        }
    }
}

proof fn double_end_bounds(s: Seq<u8>, i: int)
    requires
        0 <= i,
    ensures
        double_end(s, i) matches Some(e) ==> i < e <= s.len(),
    decreases s.len() - i,
{
    if i < s.len() {
        double_end_bounds(s, i + 1);
        if i + 1 < s.len() {
            double_end_bounds(s, i + 2);
        }
    }
}

proof fn block_extent_bounds(s: Seq<u8>, i: int, indent: int, last: int)
    requires
        0 <= last <= i <= s.len(),
    ensures
        last <= block_extent(s, i, indent, last).0 <= s.len(),
        i <= block_extent(s, i, indent, last).1 <= s.len(),
    decreases s.len() - i,
{
    let n = s.len() as int;
    let e = run(s, i, n, Class::Line);
    run_is_maximal(s, i, n, Class::Line);
    let t = if i < e && s[e - 1] == CR {
        e - 1
    } else {
        e
    };
    let k = run(s, i, t, Class::Space);
    run_is_maximal(s, i, t, Class::Space);
    let next = if e < n {
        e + 1
    } else {
        e
    };
    if i >= n || next <= i || next > n {
    } else if k >= t {
        block_extent_bounds(s, next, indent, last);
    } else if k - i >= indent && !marker(s, i) {
        block_extent_bounds(s, next, indent, t);
    }
}

proof fn block_end_bounds(s: Seq<u8>, p: int, least: int)
    requires
        0 <= p < s.len(),
    ensures
        p <= block_end(s, p, least) <= s.len(),
{
    let n = s.len() as int;
    let e = run(s, p, n, Class::Line);
    run_is_maximal(s, p, n, Class::Line);
    let t = if p < e && s[e - 1] == CR {
        e - 1
    } else {
        e
    };
    let start = if e < n {
        e + 1
    } else {
        n
    };
    block_extent_bounds(s, start, crate::grammar::content_indent(s, p, least), t);
}

proof fn plain_line_bounds(s: Seq<u8>, lo: int, i: int, flow: bool)
    requires
        0 <= lo <= i <= s.len(),
    ensures
        i <= plain_stop(s, lo, i, flow) <= s.len(),
    decreases s.len() - i,
{
    if i < s.len() {
        plain_line_bounds(s, lo, i + 1, flow);
    }
}

proof fn plain_end_bounds(s: Seq<u8>, p: int, least: int, base: int, flow: bool)
    requires
        0 <= p <= s.len(),
    ensures
        p <= plain_line(s, p, flow) <= s.len(),
        p <= plain_end(s, p, least, base, flow) <= s.len(),
{
    plain_line_bounds(s, p, p, flow);
    back_is_maximal(s, p, plain_stop(s, p, p, flow), Class::Blank);
    plain_more_bounds(s, plain_line(s, p, flow), least, base, flow);
}

proof fn plain_more_bounds(s: Seq<u8>, e: int, least: int, base: int, flow: bool)
    requires
        0 <= e <= s.len(),
    ensures
        e <= plain_more(s, e, least, base, flow) <= s.len(),
    decreases s.len() - e,
{
    let n = s.len() as int;
    let w = run(s, e, n, Class::Blank);
    let q = run(s, w, n, Class::White);
    let f = plain_line(s, q, flow);
    if w < n && q < n && e < f <= n {
        plain_more_bounds(s, f, least, base, flow);
    }
}

proof fn key_bounds(s: Seq<u8>, p: int)
    requires
        0 <= p <= s.len(),
    ensures
        key_end(s, p) matches Some(e) ==> p <= e <= s.len(),
        key_colon(s, p) matches Some(w) ==> key_end(s, p) is Some && p < key_end(s, p)->0 <= w
            < s.len(),
{
    if p < s.len() {
        double_end_bounds(s, p + 1);
        single_end_bounds(s, p + 1);
        run_is_maximal(s, p + 1, s.len() as int, Class::Name);
        plain_end_bounds(s, p, 0, 0, false);
        if let Some(e) = key_end(s, p) {
            run_is_maximal(s, e, s.len() as int, Class::Blank);
        }
    }
}

pub proof fn trivia_grows(s: Seq<u8>, p: int, acc: Seq<Elem>)
    ensures
        acc.len() <= with_trivia(s, p, acc).len(),
    decreases s.len() - p,
{
    let e = trivia_end(s, p);
    if p < e <= s.len() {
        trivia_grows(s, e, acc.push(token(trivia_token(s[p]), p, e)));
    }
}

proof fn properties_grow(s: Seq<u8>, p: int, acc: Seq<Elem>)
    ensures
        acc.len() <= with_properties(s, p, acc).0.len(),
    decreases s.len() - p,
{
    let n = s.len() as int;
    let e = run(s, p + 1, n, Class::Name);
    let w = run(s, e, n, Class::Blank);
    if property(s, p) && property(s, w) && p < w {
        properties_grow(
            s,
            w,
            with_blanks(acc.push(token(property_token(s[p]), p, e)), e, w),
        );
    }
}

proof fn flat_grows(s: Seq<u8>, p: int, least: int, base: int, depth: nat, acc: Seq<Elem>)
    ensures
        grown(acc, flat(s, p, least, base, depth, acc)),
    decreases depth, 4int, 0int,
{
    flow_grows(s, p, base, depth, acc);
}

proof fn flow_grows(s: Seq<u8>, p: int, base: int, depth: nat, acc: Seq<Elem>)
    ensures
        grown(acc, flow(s, p, base, depth, acc)),
    decreases depth, 3int, 0int,
{
    if depth > 0 {
        let kind = if s[p] == LBRACKET {
            SyntaxKind::FlowSequence
        } else {
            SyntaxKind::FlowMapping
        };
        let closer = if s[p] == LBRACKET {
            RBRACKET
        } else {
            RBRACE
        };
        let opened = acc.push(token(kind, p, p)).push(token(SyntaxKind::FlowOpen, p, p + 1));
        members_grow(s, p + 1, closer, false, base, depth, opened);
    }
}

/// What comes next in a flow collection that goes on: where it goes on, after
/// what kind of member, and the list so far.
spec fn next_member(s: Seq<u8>, p: int, closer: u8, json: bool, base: int, depth: nat, acc: Seq<Elem>) -> Option<
    (int, bool, Seq<Elem>),
> {
    let n = s.len() as int;
    let q = gap(s, p);
    let a = with_trivia(s, p, acc);
    if q < p || q >= n || marker(s, q) || depth == 0 || s[q] == closer || s[q] == RBRACKET || s[q]
        == RBRACE {
        None
    } else if s[q] == COMMA {
        Some((q + 1, false, a.push(token(SyntaxKind::CommaIndicator, q, q + 1))))
    } else if s[q] == LBRACKET || s[q] == LBRACE {
        match flow(s, q, base, (depth - 1) as nat, a) {
            Ok((b, e)) => if q < e <= n {
                Some((e, true, b))
            } else {
                None
            },
            Err(_) => None,
        }
    } else if s[q] == DQUOTE || s[q] == SQUOTE {
        let end = if s[q] == DQUOTE {
            double_end(s, q + 1)
        } else {
            single_end(s, q + 1)
        };
        match end {
            Some(e) => if q < e <= n {
                Some((e, true, a.push(token(scalar_token(s[q]), q, e))))
            } else {
                None
            },
            None => None,
        }
    } else if s[q] == STAR || s[q] == AMP || s[q] == BANG {
        let e = run(s, q + 1, n, Class::Name);
        let kind = if s[q] == STAR {
            SyntaxKind::AliasMark
        } else {
            property_token(s[q])
        };
        if q < e <= n {
            Some((e, false, a.push(token(kind, q, e))))
        } else {
            None
        }
    } else if indicator(s, q, QUESTION) {
        Some((q + 1, false, a.push(token(SyntaxKind::QuestionIndicator, q, q + 1))))
    } else if s[q] == COLON && (json || indicator(s, q, COLON) || (q + 1 < n
        && crate::text::flow_indicator(s[q + 1]))) {
        Some((q + 1, false, a.push(token(SyntaxKind::ColonIndicator, q, q + 1))))
    } else if plain_start(s, q, true) {
        let e = plain_end(s, q, 0, base, true);
        if q < e <= n {
            Some((e, false, a.push(token(SyntaxKind::PlainScalar, q, e))))
        } else {
            None
        }
    } else {
        None
    }
}

/// A flow collection either goes on with its next member or ends here.
proof fn members_go_on(s: Seq<u8>, p: int, closer: u8, json: bool, base: int, depth: nat, acc: Seq<Elem>)
    ensures
        ({
            let n = s.len() as int;
            let q = gap(s, p);
            let all = members(s, p, closer, json, base, depth, acc);
            match next_member(s, p, closer, json, base, depth, acc) {
                Some((e, after, b)) => p < e <= n && all == members(
                    s,
                    e,
                    closer,
                    after,
                    base,
                    depth,
                    b,
                ),
                None => {
                    ||| all is Err
                    ||| all == Ok::<(Seq<Elem>, int), crate::syntax::Flaw>((acc, p))
                    ||| p <= q < n && all == Ok::<(Seq<Elem>, int), crate::syntax::Flaw>(
                        (with_trivia(s, p, acc).push(token(SyntaxKind::FlowClose, q, q + 1)), q + 1),
                    )
                },
            }
        }),
{
}

proof fn members_grow(s: Seq<u8>, p: int, closer: u8, json: bool, base: int, depth: nat, acc: Seq<Elem>)
    ensures
        grown(acc, members(s, p, closer, json, base, depth, acc)),
    decreases depth, 2int, s.len() - p,
{
    members_go_on(s, p, closer, json, base, depth, acc);
    trivia_grows(s, p, acc);
    let q = gap(s, p);
    let a = with_trivia(s, p, acc);
    if let Some((e, after, b)) = next_member(s, p, closer, json, base, depth, acc) {
        if depth > 0 {
            flow_grows(s, q, base, (depth - 1) as nat, a);
        }
        members_grow(s, e, closer, after, base, depth, b);
    }
}

proof fn node_grows(
    s: Seq<u8>,
    p: int,
    least: int,
    dash: int,
    block: bool,
    base: int,
    depth: nat,
    acc: Seq<Elem>,
)
    ensures
        grown(acc, node(s, p, least, dash, block, base, depth, acc)),
    decreases depth, 5int, 0int,
{
    if depth > 0 {
        sequence_grows(s, p, column(s, p, base), base, depth, acc);
        mapping_grows(s, p, column(s, p, base), base, depth, acc);
        flat_grows(s, p, least, base, depth, acc);
        let (a, e) = with_properties(s, p, acc);
        properties_grow(s, p, acc);
        let q = gap(s, e);
        trivia_grows(s, e, a);
        flat_grows(s, q, least, base, depth, with_trivia(s, e, a));
        node_grows(s, q, least, dash, true, base, (depth - 1) as nat, with_trivia(s, e, a));
    }
}

proof fn value_grows(s: Seq<u8>, p: int, c: int, pair: bool, base: int, depth: nat, acc: Seq<Elem>)
    ensures
        grown(acc, value(s, p, c, pair, base, depth, acc)),
    decreases depth, 0int, 0int,
{
    if depth > 0 {
        let q = gap(s, p);
        let dash = if pair {
            c
        } else {
            c + 1
        };
        let a = with_trivia(s, p, acc);
        trivia_grows(s, p, acc);
        node_grows(s, q, c + 1, dash, !pair, base, (depth - 1) as nat, a);
        node_grows(s, q, c + 1, dash, true, base, (depth - 1) as nat, a);
    }
}

proof fn entry_grows(s: Seq<u8>, p: int, c: int, base: int, depth: nat, acc: Seq<Elem>)
    ensures
        grown(acc, entry(s, p, c, base, depth, acc)),
    decreases depth, 1int, 0int,
{
    let n = s.len() as int;
    let opened = acc.push(token(SyntaxKind::MappingEntry, p, p));
    if indicator(s, p, QUESTION) {
        let asked = opened.push(token(SyntaxKind::QuestionIndicator, p, p + 1));
        value_grows(s, p + 1, c, false, base, depth, asked);
        if let Ok((a, q)) = value(s, p + 1, c, false, base, depth, asked) {
            let g = gap(s, q);
            trivia_grows(s, q, a);
            value_grows(
                s,
                g + 1,
                c,
                true,
                base,
                depth,
                with_trivia(s, q, a).push(token(SyntaxKind::ColonIndicator, g, g + 1)),
            );
        }
    } else if indicator(s, p, COLON) {
        value_grows(
            s,
            p + 1,
            c,
            true,
            base,
            depth,
            opened.push(token(SyntaxKind::ColonIndicator, p, p + 1)),
        );
    } else {
        let (a, e) = with_properties(s, p, opened);
        properties_grow(s, p, opened);
        let w = run(s, e, n, Class::Blank);
        if let Some(x) = key_colon(s, w) {
            let f = key_end(s, w)->0;
            let keyed = with_blanks(
                with_blanks(a, e, w).push(token(scalar_token(s[w]), w, f)),
                f,
                x,
            ).push(token(SyntaxKind::ColonIndicator, x, x + 1));
            value_grows(s, x + 1, c, true, base, depth, keyed);
        }
    }
}

proof fn entries_grow(s: Seq<u8>, p: int, c: int, base: int, depth: nat, acc: Seq<Elem>)
    ensures
        grown(acc, entries(s, p, c, base, depth, acc)),
    decreases depth, 2int, s.len() - p,
{
    entry_grows(s, p, c, base, depth, acc);
    if let Ok((a, q)) = entry(s, p, c, base, depth, acc) {
        let g = gap(s, q);
        if p < g < s.len() {
            trivia_grows(s, q, a);
            entries_grow(s, g, c, base, depth, with_trivia(s, q, a));
        }
    }
}

proof fn mapping_grows(s: Seq<u8>, p: int, c: int, base: int, depth: nat, acc: Seq<Elem>)
    ensures
        grown(acc, mapping(s, p, c, base, depth, acc)),
    decreases depth, 3int, 0int,
{
    entries_grow(s, p, c, base, depth, acc.push(token(SyntaxKind::BlockMapping, p, p)));
}

proof fn item_grows(s: Seq<u8>, p: int, c: int, base: int, depth: nat, acc: Seq<Elem>)
    ensures
        grown(acc, item(s, p, c, base, depth, acc)),
    decreases depth, 1int, 0int,
{
    value_grows(
        s,
        p + 1,
        c,
        false,
        base,
        depth,
        acc.push(token(SyntaxKind::SequenceItem, p, p)).push(
            token(SyntaxKind::DashIndicator, p, p + 1),
        ),
    );
}

proof fn items_grow(s: Seq<u8>, p: int, c: int, base: int, depth: nat, acc: Seq<Elem>)
    ensures
        grown(acc, items(s, p, c, base, depth, acc)),
    decreases depth, 2int, s.len() - p,
{
    item_grows(s, p, c, base, depth, acc);
    if let Ok((a, q)) = item(s, p, c, base, depth, acc) {
        let g = gap(s, q);
        if p < g < s.len() {
            trivia_grows(s, q, a);
            items_grow(s, g, c, base, depth, with_trivia(s, q, a));
        }
    }
}

proof fn sequence_grows(s: Seq<u8>, p: int, c: int, base: int, depth: nat, acc: Seq<Elem>)
    ensures
        grown(acc, sequence(s, p, c, base, depth, acc)),
    decreases depth, 3int, 0int,
{
    items_grow(s, p, c, base, depth, acc.push(token(SyntaxKind::BlockSequence, p, p)));
}

proof fn flat_tiles(s: Seq<u8>, p: int, least: int, base: int, depth: nat, acc: Seq<Elem>)
    requires
        0 <= p <= s.len(),
        laid(acc, p, s.len() as int),
    ensures
        built_on(s, p, acc, flat(s, p, least, base, depth, acc)),
    decreases depth, 4int, 0int,
{
    let n = s.len() as int;
    if p < n {
        if s[p] == LBRACKET || s[p] == LBRACE {
            flow_tiles(s, p, base, depth, acc);
        } else if s[p] == STAR {
            run_is_maximal(s, p + 1, n, Class::Name);
            laid_next(acc, SyntaxKind::AliasMark, p, run(s, p + 1, n, Class::Name), n);
        } else if s[p] == DQUOTE {
            double_end_bounds(s, p + 1);
            if let Some(e) = double_end(s, p + 1) {
                laid_next(acc, SyntaxKind::DoubleQuotedScalar, p, e, n);
            }
        } else if s[p] == SQUOTE {
            single_end_bounds(s, p + 1);
            if let Some(e) = single_end(s, p + 1) {
                laid_next(acc, SyntaxKind::SingleQuotedScalar, p, e, n);
            }
        } else if s[p] == PIPE {
            block_end_bounds(s, p, least);
            laid_next(acc, SyntaxKind::LiteralScalar, p, block_end(s, p, least), n);
        } else if s[p] == GREATER {
            block_end_bounds(s, p, least);
            laid_next(acc, SyntaxKind::FoldedScalar, p, block_end(s, p, least), n);
        } else if plain_start(s, p, false) {
            plain_end_bounds(s, p, least, base, false);
            laid_next(acc, SyntaxKind::PlainScalar, p, plain_end(s, p, least, base, false), n);
        }
    }
}

proof fn flow_tiles(s: Seq<u8>, p: int, base: int, depth: nat, acc: Seq<Elem>)
    requires
        0 <= p < s.len(),
        laid(acc, p, s.len() as int),
    ensures
        built_on(s, p, acc, flow(s, p, base, depth, acc)),
    decreases depth, 3int, 0int,
{
    let n = s.len() as int;
    if depth > 0 {
        let kind = if s[p] == LBRACKET {
            SyntaxKind::FlowSequence
        } else {
            SyntaxKind::FlowMapping
        };
        let closer = if s[p] == LBRACKET {
            RBRACKET
        } else {
            RBRACE
        };
        let one = acc.push(token(kind, p, p));
        let opened = one.push(token(SyntaxKind::FlowOpen, p, p + 1));
        laid_next(acc, kind, p, p, n);
        laid_next(one, SyntaxKind::FlowOpen, p, p + 1, n);
        extends_in_turn(acc, one, opened);
        members_tile(s, p + 1, closer, false, base, depth, opened);
        members_grow(s, p + 1, closer, false, base, depth, opened);
        if let Ok((a, e)) = members(s, p + 1, closer, false, base, depth, opened) {
            close_tiles(s, acc, opened, a, p, e, kind);
        }
    }
}

/// A node that was opened on `acc`, filled, and is closed.
proof fn close_tiles(
    s: Seq<u8>,
    acc: Seq<Elem>,
    opened: Seq<Elem>,
    a: Seq<Elem>,
    p: int,
    e: int,
    kind: SyntaxKind,
)
    requires
        laid(acc, p, s.len() as int),
        0 <= p <= s.len(),
        extends(acc, opened),
        acc.len() < opened.len() <= a.len(),
        opened[acc.len() as int] == token(kind, p, p),
        node_kind(kind),
        a.len() <= usize::MAX ==> extends(opened, a) && laid(a, e, s.len() as int) && p <= e,
    ensures
        built_on(
            s,
            p,
            acc,
            Ok::<(Seq<Elem>, int), crate::syntax::Flaw>((closed(a, acc.len() as int, e), e)),
        ),
{
    if a.len() <= usize::MAX {
        extends_in_turn(acc, opened, a);
        assert(a[acc.len() as int] == opened[acc.len() as int]);
        laid_closed(acc, a, p, e, s.len() as int);
    }
}

proof fn members_tile(s: Seq<u8>, p: int, closer: u8, json: bool, base: int, depth: nat, acc: Seq<Elem>)
    requires
        0 <= p <= s.len(),
        laid(acc, p, s.len() as int),
    ensures
        built_on(s, p, acc, members(s, p, closer, json, base, depth, acc)),
    decreases depth, 2int, s.len() - p,
{
    let n = s.len() as int;
    let q = gap(s, p);
    let a = with_trivia(s, p, acc);
    members_go_on(s, p, closer, json, base, depth, acc);
    laid_trivia(s, p, acc);
    match next_member(s, p, closer, json, base, depth, acc) {
        Some((e, after, b)) => {
            if s[q] == LBRACKET || s[q] == LBRACE {
                flow_tiles(s, q, base, (depth - 1) as nat, a);
                flow_grows(s, q, base, (depth - 1) as nat, a);
            } else {
                let kind = b.last().kind;
                assert(b == a.push(token(kind, q, e)));
                laid_next(a, kind, q, e, n);
            }
            members_grow(s, e, closer, after, base, depth, b);
            if b.len() <= usize::MAX {
                extends_in_turn(acc, a, b);
                members_tile(s, e, closer, after, base, depth, b);
                if let Ok((f, _)) = members(s, e, closer, after, base, depth, b) {
                    if f.len() <= usize::MAX {
                        extends_in_turn(acc, b, f);
                    }
                }
            }
        },
        None => {
            if q < n {
                laid_next(a, SyntaxKind::FlowClose, q, q + 1, n);
                extends_in_turn(acc, a, a.push(token(SyntaxKind::FlowClose, q, q + 1)));
            }
        },
    }
}

pub proof fn node_tiles(
    s: Seq<u8>,
    p: int,
    least: int,
    dash: int,
    block: bool,
    base: int,
    depth: nat,
    acc: Seq<Elem>,
)
    requires
        0 <= p <= s.len(),
        laid(acc, p, s.len() as int),
    ensures
        built_on(s, p, acc, node(s, p, least, dash, block, base, depth, acc)),
    decreases depth, 5int, 0int,
{
    let n = s.len() as int;
    if depth > 0 {
        if block && indicator(s, p, DASH) {
            sequence_tiles(s, p, column(s, p, base), base, depth, acc);
        } else if block && entry_start(s, p) {
            mapping_tiles(s, p, column(s, p, base), base, depth, acc);
        } else if property(s, p) {
            let (a, e) = with_properties(s, p, acc);
            laid_properties(s, p, acc);
            let q = gap(s, e);
            let b = with_trivia(s, e, a);
            laid_trivia(s, e, a);
            extends_in_turn(acc, a, b);
            if q < n && !marker(s, q) {
                if !fresh(s, e, q) {
                    flat_tiles(s, q, least, base, depth, b);
                    if let Ok((f, _)) = flat(s, q, least, base, depth, b) {
                        if f.len() <= usize::MAX {
                            extends_in_turn(acc, b, f);
                        }
                    }
                } else {
                    node_tiles(s, q, least, dash, true, base, (depth - 1) as nat, b);
                    if let Ok((f, _)) = node(
                        s,
                        q,
                        least,
                        dash,
                        true,
                        base,
                        (depth - 1) as nat,
                        b,
                    ) {
                        if f.len() <= usize::MAX {
                            extends_in_turn(acc, b, f);
                        }
                    }
                }
            }
        } else {
            flat_tiles(s, p, least, base, depth, acc);
        }
    }
}

proof fn value_tiles(s: Seq<u8>, p: int, c: int, pair: bool, base: int, depth: nat, acc: Seq<Elem>)
    requires
        0 <= p <= s.len(),
        laid(acc, p, s.len() as int),
    ensures
        built_on(s, p, acc, value(s, p, c, pair, base, depth, acc)),
    decreases depth, 0int, 0int,
{
    if depth > 0 {
        let q = gap(s, p);
        let dash = if pair {
            c
        } else {
            c + 1
        };
        let a = with_trivia(s, p, acc);
        laid_trivia(s, p, acc);
        let block = if fresh(s, p, q) {
            true
        } else {
            !pair || opens_line(s, p, c, base)
        };
        node_tiles(s, q, c + 1, dash, block, base, (depth - 1) as nat, a);
        if let Ok((f, _)) = node(s, q, c + 1, dash, block, base, (depth - 1) as nat, a) {
            if f.len() <= usize::MAX {
                extends_in_turn(acc, a, f);
            }
        }
    }
}

pub proof fn entry_tiles(s: Seq<u8>, p: int, c: int, base: int, depth: nat, acc: Seq<Elem>)
    requires
        0 <= p <= s.len(),
        laid(acc, p, s.len() as int),
    ensures
        built_on(s, p, acc, entry(s, p, c, base, depth, acc)),
    decreases depth, 1int, 0int,
{
    let n = s.len() as int;
    let kind = SyntaxKind::MappingEntry;
    let opened = acc.push(token(kind, p, p));
    laid_next(acc, kind, p, p, n);
    if indicator(s, p, QUESTION) {
        let asked = opened.push(token(SyntaxKind::QuestionIndicator, p, p + 1));
        laid_next(opened, SyntaxKind::QuestionIndicator, p, p + 1, n);
        extends_in_turn(acc, opened, asked);
        value_tiles(s, p + 1, c, false, base, depth, asked);
        value_grows(s, p + 1, c, false, base, depth, asked);
        if let Ok((a, q)) = value(s, p + 1, c, false, base, depth, asked) {
            close_tiles(s, acc, asked, a, p, q, kind);
            let g = gap(s, q);
            let b = with_trivia(s, q, a);
            let next = b.push(token(SyntaxKind::ColonIndicator, g, g + 1));
            trivia_grows(s, q, a);
            value_grows(s, g + 1, c, true, base, depth, next);
            if g < n && a.len() <= usize::MAX {
                laid_trivia(s, q, a);
                laid_next(b, SyntaxKind::ColonIndicator, g, g + 1, n);
                extends_in_turn(asked, a, b);
                extends_in_turn(asked, b, next);
                value_tiles(s, g + 1, c, true, base, depth, next);
                if let Ok((f, e)) = value(s, g + 1, c, true, base, depth, next) {
                    if f.len() <= usize::MAX {
                        extends_in_turn(asked, next, f);
                    }
                    close_tiles(s, acc, asked, f, p, e, kind);
                }
            }
        }
    } else if indicator(s, p, COLON) {
        let next = opened.push(token(SyntaxKind::ColonIndicator, p, p + 1));
        laid_next(opened, SyntaxKind::ColonIndicator, p, p + 1, n);
        extends_in_turn(acc, opened, next);
        value_tiles(s, p + 1, c, true, base, depth, next);
        value_grows(s, p + 1, c, true, base, depth, next);
        if let Ok((a, e)) = value(s, p + 1, c, true, base, depth, next) {
            close_tiles(s, acc, next, a, p, e, kind);
        }
    } else {
        let (a, e) = with_properties(s, p, opened);
        laid_properties(s, p, opened);
        let w = run(s, e, n, Class::Blank);
        run_is_maximal(s, e, n, Class::Blank);
        key_bounds(s, w);
        if let Some(x) = key_colon(s, w) {
            let f = key_end(s, w)->0;
            let k1 = with_blanks(a, e, w);
            let k2 = k1.push(token(scalar_token(s[w]), w, f));
            let k3 = with_blanks(k2, f, x);
            let keyed = k3.push(token(SyntaxKind::ColonIndicator, x, x + 1));
            laid_blanks(a, e, w, n);
            laid_next(k1, scalar_token(s[w]), w, f, n);
            laid_blanks(k2, f, x, n);
            laid_next(k3, SyntaxKind::ColonIndicator, x, x + 1, n);
            extends_in_turn(opened, a, k1);
            extends_in_turn(opened, k1, k2);
            extends_in_turn(opened, k2, k3);
            extends_in_turn(opened, k3, keyed);
            extends_in_turn(acc, opened, keyed);
            assert(keyed[acc.len() as int] == opened[acc.len() as int]);
            value_tiles(s, x + 1, c, true, base, depth, keyed);
            value_grows(s, x + 1, c, true, base, depth, keyed);
            if let Ok((b, y)) = value(s, x + 1, c, true, base, depth, keyed) {
                close_tiles(s, acc, keyed, b, p, y, kind);
            }
        }
    }
}

proof fn entries_tile(s: Seq<u8>, p: int, c: int, base: int, depth: nat, acc: Seq<Elem>)
    requires
        0 <= p <= s.len(),
        laid(acc, p, s.len() as int),
    ensures
        built_on(s, p, acc, entries(s, p, c, base, depth, acc)),
    decreases depth, 2int, s.len() - p,
{
    entry_tiles(s, p, c, base, depth, acc);
    if let Ok((a, q)) = entry(s, p, c, base, depth, acc) {
        let g = gap(s, q);
        let b = with_trivia(s, q, a);
        trivia_grows(s, q, a);
        entries_grow(s, g, c, base, depth, b);
        if p < g < s.len() && a.len() <= usize::MAX {
            laid_trivia(s, q, a);
            extends_in_turn(acc, a, b);
            entries_tile(s, g, c, base, depth, b);
            if let Ok((f, _)) = entries(s, g, c, base, depth, b) {
                if f.len() <= usize::MAX {
                    extends_in_turn(acc, b, f);
                }
            }
        }
    }
}

pub proof fn mapping_tiles(s: Seq<u8>, p: int, c: int, base: int, depth: nat, acc: Seq<Elem>)
    requires
        0 <= p <= s.len(),
        laid(acc, p, s.len() as int),
    ensures
        built_on(s, p, acc, mapping(s, p, c, base, depth, acc)),
    decreases depth, 3int, 0int,
{
    let kind = SyntaxKind::BlockMapping;
    let opened = acc.push(token(kind, p, p));
    laid_next(acc, kind, p, p, s.len() as int);
    entries_tile(s, p, c, base, depth, opened);
    entries_grow(s, p, c, base, depth, opened);
    if let Ok((a, e)) = entries(s, p, c, base, depth, opened) {
        close_tiles(s, acc, opened, a, p, e, kind);
    }
}

pub proof fn item_tiles(s: Seq<u8>, p: int, c: int, base: int, depth: nat, acc: Seq<Elem>)
    requires
        0 <= p <= s.len(),
        laid(acc, p, s.len() as int),
    ensures
        built_on(s, p, acc, item(s, p, c, base, depth, acc)),
    decreases depth, 1int, 0int,
{
    let n = s.len() as int;
    if indicator(s, p, DASH) {
        let kind = SyntaxKind::SequenceItem;
        let one = acc.push(token(kind, p, p));
        let opened = one.push(token(SyntaxKind::DashIndicator, p, p + 1));
        laid_next(acc, kind, p, p, n);
        laid_next(one, SyntaxKind::DashIndicator, p, p + 1, n);
        extends_in_turn(acc, one, opened);
        value_tiles(s, p + 1, c, false, base, depth, opened);
        value_grows(s, p + 1, c, false, base, depth, opened);
        if let Ok((a, e)) = value(s, p + 1, c, false, base, depth, opened) {
            close_tiles(s, acc, opened, a, p, e, kind);
        }
    }
}

proof fn items_tile(s: Seq<u8>, p: int, c: int, base: int, depth: nat, acc: Seq<Elem>)
    requires
        0 <= p <= s.len(),
        laid(acc, p, s.len() as int),
    ensures
        built_on(s, p, acc, items(s, p, c, base, depth, acc)),
    decreases depth, 2int, s.len() - p,
{
    item_tiles(s, p, c, base, depth, acc);
    if let Ok((a, q)) = item(s, p, c, base, depth, acc) {
        let g = gap(s, q);
        let b = with_trivia(s, q, a);
        trivia_grows(s, q, a);
        items_grow(s, g, c, base, depth, b);
        if p < g < s.len() && a.len() <= usize::MAX {
            laid_trivia(s, q, a);
            extends_in_turn(acc, a, b);
            items_tile(s, g, c, base, depth, b);
            if let Ok((f, _)) = items(s, g, c, base, depth, b) {
                if f.len() <= usize::MAX {
                    extends_in_turn(acc, b, f);
                }
            }
        }
    }
}

pub proof fn sequence_tiles(s: Seq<u8>, p: int, c: int, base: int, depth: nat, acc: Seq<Elem>)
    requires
        0 <= p <= s.len(),
        laid(acc, p, s.len() as int),
    ensures
        built_on(s, p, acc, sequence(s, p, c, base, depth, acc)),
    decreases depth, 3int, 0int,
{
    let kind = SyntaxKind::BlockSequence;
    let opened = acc.push(token(kind, p, p));
    laid_next(acc, kind, p, p, s.len() as int);
    items_tile(s, p, c, base, depth, opened);
    items_grow(s, p, c, base, depth, opened);
    if let Ok((a, e)) = items(s, p, c, base, depth, opened) {
        close_tiles(s, acc, opened, a, p, e, kind);
    }
}

/// An element moved by `by` bytes.
pub open spec fn displaced(e: Elem, by: int) -> Elem {
    Elem { kind: e.kind, start: (e.start + by) as usize, end: (e.end + by) as usize, size: e.size }
}

/// Element `j` of a tree after the subtree at `i` was replaced by one of `m`
/// elements that is `delta` bytes longer: what stands before stays, what holds
/// the subtree grows, what stands behind moves.
pub open spec fn adjusted(t: Seq<Elem>, j: int, i: int, m: int, delta: int) -> Elem {
    let e = t[j];
    if j >= i {
        displaced(e, delta)
    } else if i < j + e.size {
        Elem {
            kind: e.kind,
            start: e.start,
            end: (e.end + delta) as usize,
            size: (e.size - t[i].size + m) as usize,
        }
    } else {
        e
    }
}

/// A tree with the subtree at `i` replaced by `sub`, which is `delta` bytes
/// longer.
pub open spec fn spliced_tree(t: Seq<Elem>, i: int, sub: Seq<Elem>, delta: int) -> Seq<Elem> {
    let m = sub.len() as int;
    let after = i + t[i].size;
    Seq::new(i as nat, |j: int| adjusted(t, j, i, m, delta)) + Seq::new(
        sub.len(),
        |j: int| displaced(sub[j], t[i].start as int),
    ) + Seq::new((t.len() - after) as nat, |j: int| adjusted(t, after + j, i, m, delta))
}

proof fn reach_in_sub(t: Seq<Elem>, i: int, sub: Seq<Elem>, delta: int, n: int, l: int, k: int)
    requires
        laid(t, n, n),
        0 <= i < t.len(),
        laid(sub, l, l),
        t[i].start + l <= usize::MAX,
        0 <= k <= sub.len(),
        reach(spliced_tree(t, i, sub, delta), i) == t[i].start,
    ensures
        reach(spliced_tree(t, i, sub, delta), i + k) == t[i].start + reach(sub, k),
    decreases k,
{
    let u = spliced_tree(t, i, sub, delta);
    if k > 0 {
        reach_in_sub(t, i, sub, delta, n, l, k - 1);
        assert(in_place(sub, k - 1, l));
        assert(u[i + k - 1] == displaced(sub[k - 1], t[i].start as int));
    }
}

proof fn reach_behind(
    t: Seq<Elem>,
    i: int,
    sub: Seq<Elem>,
    delta: int,
    n: int,
    from: int,
    k: int,
)
    requires
        laid(t, n, n),
        0 <= i < t.len(),
        from == i + sub.len(),
        0 <= k <= t.len() - i - t[i].size,
        n + delta <= usize::MAX,
        t[i].end + delta >= 0,
        reach(spliced_tree(t, i, sub, delta), from) == t[i].end + delta,
        i + t[i].size <= t.len(),
        reach(t, i + t[i].size) == t[i].end,
    ensures
        reach(spliced_tree(t, i, sub, delta), from + k) == reach(t, i + t[i].size + k) + delta,
        reach(t, i + t[i].size + k) >= t[i].end,
    decreases k,
{
    let u = spliced_tree(t, i, sub, delta);
    let after = i + t[i].size;
    if k > 0 {
        reach_behind(t, i, sub, delta, n, from, k - 1);
        assert(in_place(t, after + k - 1, n));
        assert(u[from + k - 1] == adjusted(t, after + k - 1, i, sub.len() as int, delta));
        assert(u[from + k - 1] == displaced(t[after + k - 1], delta));
    }
}

/// A tree stays a tree that tiles its text when one of its subtrees is
/// replaced by one that tiles the new text of the subtree.
pub proof fn spliced_trees_tile(t: Seq<Elem>, i: int, sub: Seq<Elem>, old_len: int, new_len: int)
    requires
        laid(t, old_len, old_len),
        0 <= i < t.len(),
        sub.len() > 0,
        laid(
            sub,
            t[i].end - t[i].start + new_len - old_len,
            t[i].end - t[i].start + new_len - old_len,
        ),
        0 <= t[i].end - t[i].start + new_len - old_len,
        0 <= new_len <= usize::MAX,
        t.len() + sub.len() <= usize::MAX,
    ensures
        laid(spliced_tree(t, i, sub, new_len - old_len), new_len, new_len),
        spliced_tree(t, i, sub, new_len - old_len).len() == t.len() - t[i].size + sub.len(),
        i > 0 && t[0].size == t.len() ==> {
            let u = spliced_tree(t, i, sub, new_len - old_len);
            u[0].kind == t[0].kind && u[0].size == u.len()
        },
{
    let delta = new_len - old_len;
    let u = spliced_tree(t, i, sub, delta);
    let m = sub.len() as int;
    let after = i + t[i].size;
    assert(in_place(t, i, old_len));
    splice_reaches(t, i, sub, old_len, new_len);
    assert(u.len() == i + m + (t.len() - after));
    assert forall|k: int| 0 <= k < u.len() implies #[trigger] in_place(u, k, new_len) by {
        if k < i {
            spliced_before(t, i, sub, old_len, new_len, k);
        } else if k < i + m {
            spliced_inside(t, i, sub, old_len, new_len, k - i);
        } else {
            spliced_behind(t, i, sub, old_len, new_len, k - i - m);
        }
    }
    assert forall|j: int, k: int|
        0 <= j < k < u.len() && k < j + (#[trigger] u[j]).size implies k + (#[trigger] u[k]).size
        <= j + u[j].size by {
        spliced_nesting(t, i, sub, old_len, new_len, j, k);
    }
    reach_behind(t, i, sub, delta, old_len, i + m, t.len() - after);
    if i > 0 && t[0].size == t.len() {
        assert(u[0] == adjusted(t, 0, i, m, delta));
    }
}

/// What a spliced tree reaches before and right behind the new subtree.
proof fn splice_reaches(t: Seq<Elem>, i: int, sub: Seq<Elem>, old_len: int, new_len: int)
    requires
        laid(t, old_len, old_len),
        0 <= i < t.len(),
        sub.len() > 0,
        laid(
            sub,
            t[i].end - t[i].start + new_len - old_len,
            t[i].end - t[i].start + new_len - old_len,
        ),
        0 <= new_len <= usize::MAX,
        t.len() + sub.len() <= usize::MAX,
    ensures
        ({
            let u = spliced_tree(t, i, sub, new_len - old_len);
            &&& forall|x: int| 0 <= x <= i ==> #[trigger] reach(u, x) == reach(t, x)
            &&& reach(u, i) == t[i].start
            &&& reach(u, i + sub.len()) == t[i].end + new_len - old_len
        }),
{
    let delta = new_len - old_len;
    let u = spliced_tree(t, i, sub, delta);
    let m = sub.len() as int;
    let l = t[i].end - t[i].start + delta;
    assert(in_place(t, i, old_len));
    assert forall|k: int| 0 <= k < i implies (#[trigger] u[k]).kind == t[k].kind && (node_kind(
        t[k].kind,
    ) || u[k].end == t[k].end) by {
        assert(in_place(t, k, old_len));
        assert(u[k] == adjusted(t, k, i, m, delta));
    }
    assert forall|k: int| 0 <= k <= i implies #[trigger] reach(u, k) == reach(t, k) by {
        reach_is_local(t, u, k);
    }
    reach_in_sub(t, i, sub, delta, old_len, l, m);
}

/// An element of the new subtree is in place.
proof fn spliced_inside(t: Seq<Elem>, i: int, sub: Seq<Elem>, old_len: int, new_len: int, x: int)
    requires
        laid(t, old_len, old_len),
        0 <= i < t.len(),
        0 <= x < sub.len(),
        laid(
            sub,
            t[i].end - t[i].start + new_len - old_len,
            t[i].end - t[i].start + new_len - old_len,
        ),
        0 <= new_len <= usize::MAX,
        t.len() + sub.len() <= usize::MAX,
    ensures
        in_place(spliced_tree(t, i, sub, new_len - old_len), i + x, new_len),
{
    let delta = new_len - old_len;
    let u = spliced_tree(t, i, sub, delta);
    let l = t[i].end - t[i].start + delta;
    assert(in_place(t, i, old_len));
    splice_reaches(t, i, sub, old_len, new_len);
    assert(in_place(sub, x, l));
    assert(u[i + x] == displaced(sub[x], t[i].start as int));
    reach_in_sub(t, i, sub, delta, old_len, l, x);
    reach_in_sub(t, i, sub, delta, old_len, l, x + sub[x].size);
    assert(i + x + sub[x].size == i + (x + sub[x].size));
}

/// An element behind the replaced subtree is in place.
proof fn spliced_behind(t: Seq<Elem>, i: int, sub: Seq<Elem>, old_len: int, new_len: int, x: int)
    requires
        laid(t, old_len, old_len),
        0 <= i < t.len(),
        sub.len() > 0,
        0 <= x < t.len() - i - t[i].size,
        laid(
            sub,
            t[i].end - t[i].start + new_len - old_len,
            t[i].end - t[i].start + new_len - old_len,
        ),
        0 <= t[i].end - t[i].start + new_len - old_len,
        0 <= new_len <= usize::MAX,
        t.len() + sub.len() <= usize::MAX,
    ensures
        in_place(spliced_tree(t, i, sub, new_len - old_len), i + sub.len() + x, new_len),
{
    let delta = new_len - old_len;
    let u = spliced_tree(t, i, sub, delta);
    let m = sub.len() as int;
    let after = i + t[i].size;
    let e = t[after + x];
    assert(in_place(t, i, old_len));
    assert(in_place(t, after + x, old_len));
    splice_reaches(t, i, sub, old_len, new_len);
    assert(u[i + m + x] == displaced(e, delta));
    reach_behind(t, i, sub, delta, old_len, i + m, x);
    reach_behind(t, i, sub, delta, old_len, i + m, x + e.size);
    assert(i + m + x + e.size == i + m + (x + e.size));
    assert(after + x + e.size == after + (x + e.size));
}

/// An element before the replaced subtree is in place.
proof fn spliced_before(t: Seq<Elem>, i: int, sub: Seq<Elem>, old_len: int, new_len: int, k: int)
    requires
        laid(t, old_len, old_len),
        0 <= k < i < t.len(),
        0 <= t[i].end - t[i].start + new_len - old_len,
        0 <= new_len <= usize::MAX,
        t.len() + sub.len() <= usize::MAX,
        sub.len() > 0,
        ({
            let u = spliced_tree(t, i, sub, new_len - old_len);
            let after = i + t[i].size;
            &&& forall|x: int| 0 <= x <= i ==> #[trigger] reach(u, x) == reach(t, x)
            &&& reach(u, i + sub.len()) == t[i].end + new_len - old_len
        }),
    ensures
        in_place(spliced_tree(t, i, sub, new_len - old_len), k, new_len),
{
    let delta = new_len - old_len;
    let u = spliced_tree(t, i, sub, delta);
    let m = sub.len() as int;
    let after = i + t[i].size;
    let e = t[k];
    assert(in_place(t, k, old_len));
    assert(in_place(t, i, old_len));
    assert(u[k] == adjusted(t, k, i, m, delta));
    assert(reach(u, k) == reach(t, k));
    if i < k + e.size {
        assert(i + t[i].size <= k + e.size);
        let x = k + e.size - after;
        reach_behind(t, i, sub, delta, old_len, i + m, x);
        assert(k + u[k].size == i + m + x);
        reach_grows(t, old_len, k, i);
    } else {
        assert(reach(u, k + e.size) == reach(t, k + e.size));
        reach_grows(t, old_len, k + e.size, i);
    }
}

/// Later elements reach further.
pub proof fn reach_grows(t: Seq<Elem>, n: int, j: int, k: int)
    requires
        laid(t, n, n),
        0 <= j <= k <= t.len(),
    ensures
        reach(t, j) <= reach(t, k),
    decreases k - j,
{
    if j < k {
        reach_grows(t, n, j, k - 1);
        assert(in_place(t, k - 1, n));
    }
}

/// The elements of a spliced tree are nested.
proof fn spliced_nesting(
    t: Seq<Elem>,
    i: int,
    sub: Seq<Elem>,
    old_len: int,
    new_len: int,
    j: int,
    k: int,
)
    requires
        laid(t, old_len, old_len),
        0 <= i < t.len(),
        laid(
            sub,
            t[i].end - t[i].start + new_len - old_len,
            t[i].end - t[i].start + new_len - old_len,
        ),
        t.len() + sub.len() <= usize::MAX,
        sub.len() > 0,
        0 <= j < k < spliced_tree(t, i, sub, new_len - old_len).len(),
        k < j + spliced_tree(t, i, sub, new_len - old_len)[j].size,
    ensures
        k + spliced_tree(t, i, sub, new_len - old_len)[k].size <= j + spliced_tree(
            t,
            i,
            sub,
            new_len - old_len,
        )[j].size,
{
    let delta = new_len - old_len;
    let u = spliced_tree(t, i, sub, delta);
    let m = sub.len() as int;
    let after = i + t[i].size;
    let l = t[i].end - t[i].start + delta;
    assert(in_place(t, i, old_len));
    if j < i {
        assert(in_place(t, j, old_len));
        assert(u[j] == adjusted(t, j, i, m, delta));
        if i < j + t[j].size {
            assert(after <= j + t[j].size);
            if k < i {
                assert(in_place(t, k, old_len));
                assert(u[k] == adjusted(t, k, i, m, delta));
                assert(k + t[k].size <= j + t[j].size);
                if i < k + t[k].size {
                    assert(after <= k + t[k].size);
                }
            } else if k < i + m {
                assert(in_place(sub, k - i, l));
                assert(u[k] == displaced(sub[k - i], t[i].start as int));
            } else {
                let x = k - i - m;
                assert(in_place(t, after + x, old_len));
                assert(u[k] == displaced(t[after + x], delta));
                assert(after + x < j + t[j].size);
                assert(t[after + x].size + after + x <= j + t[j].size);
            }
        } else {
            assert(k < i);
            assert(in_place(t, k, old_len));
            assert(u[k] == adjusted(t, k, i, m, delta));
            assert(k + t[k].size <= j + t[j].size);
        }
    } else if j < i + m {
        assert(in_place(sub, j - i, l));
        assert(u[j] == displaced(sub[j - i], t[i].start as int));
        assert(k < i + m);
        assert(in_place(sub, k - i, l));
        assert(u[k] == displaced(sub[k - i], t[i].start as int));
        assert(sub[k - i].size + (k - i) <= (j - i) + sub[j - i].size);
    } else {
        let x = j - i - m;
        let y = k - i - m;
        assert(u[j] == displaced(t[after + x], delta));
        assert(u[k] == displaced(t[after + y], delta));
        assert(after + y + t[after + y].size <= after + x + t[after + x].size);
    }
}

/// What is built for an entry, an item or a block collection holds at least
/// the node itself.
pub proof fn subtrees_are_not_empty(
    s: Seq<u8>,
    p: int,
    c: int,
    base: int,
    depth: nat,
    acc: Seq<Elem>,
)
    ensures
        entry(s, p, c, base, depth, acc) matches Ok((a, _)) ==> acc.len() < a.len(),
        item(s, p, c, base, depth, acc) matches Ok((a, _)) ==> acc.len() < a.len(),
        mapping(s, p, c, base, depth, acc) matches Ok((a, _)) ==> acc.len() < a.len(),
        sequence(s, p, c, base, depth, acc) matches Ok((a, _)) ==> acc.len() < a.len(),
{
    let n = s.len() as int;
    let opened = acc.push(token(SyntaxKind::MappingEntry, p, p));
    let asked = opened.push(token(SyntaxKind::QuestionIndicator, p, p + 1));
    value_grows(s, p + 1, c, false, base, depth, asked);
    if let Ok((a, q)) = value(s, p + 1, c, false, base, depth, asked) {
        let g = gap(s, q);
        trivia_grows(s, q, a);
        value_grows(
            s,
            g + 1,
            c,
            true,
            base,
            depth,
            with_trivia(s, q, a).push(token(SyntaxKind::ColonIndicator, g, g + 1)),
        );
    }
    value_grows(
        s,
        p + 1,
        c,
        true,
        base,
        depth,
        opened.push(token(SyntaxKind::ColonIndicator, p, p + 1)),
    );
    let (a, e) = with_properties(s, p, opened);
    properties_grow(s, p, opened);
    let w = run(s, e, n, Class::Blank);
    if let Some(x) = key_colon(s, w) {
        let f = key_end(s, w)->0;
        let keyed = with_blanks(
            with_blanks(a, e, w).push(token(scalar_token(s[w]), w, f)),
            f,
            x,
        ).push(token(SyntaxKind::ColonIndicator, x, x + 1));
        value_grows(s, x + 1, c, true, base, depth, keyed);
    }
    value_grows(
        s,
        p + 1,
        c,
        false,
        base,
        depth,
        acc.push(token(SyntaxKind::SequenceItem, p, p)).push(
            token(SyntaxKind::DashIndicator, p, p + 1),
        ),
    );
    entries_grow(s, p, c, base, depth, acc.push(token(SyntaxKind::BlockMapping, p, p)));
    items_grow(s, p, c, base, depth, acc.push(token(SyntaxKind::BlockSequence, p, p)));
}

} // verus!
