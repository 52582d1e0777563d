//! Builds the concrete syntax tree of a YAML text.
//!
//! The tree is a flat preorder list of elements with absolute offsets. Every
//! node ends at its last byte of content; white space and comments between
//! two pieces of content belong to the innermost node that continues after
//! them.
use crate::decode::{
    asked_indent, asked_indent_of, chomping, chomping_of, double_end, find_double_end, find_single_end, first_indent,
    first_indent_of, indent_base, indent_base_of, single_end, Chomp,
};
use crate::lexis::{
    agrees, close, closed, colon_of_key, column, column_of, end_of_gap, end_of_key, end_of_plain,
    entry_start, fits, flaw, fresh, gap, indicator, is_entry_start, is_fresh, is_indicator,
    is_marker, is_plain_start, is_property, key_colon, key_end, marker, plain_end, plain_start,
    property, property_token, push_blanks, push_properties, push_token, push_trivia, scalar_token,
    scalar_token_of, token, with_blanks, with_properties, with_trivia, Built,
};
use crate::lines::{line_start, start_of_line};
use crate::syntax::{Elem, Fault, Flaw, SyntaxKind};
use crate::text::{
    flow_indicator, is_flow_indicator, run, scan, Class, AMP, BANG, COLON, COMMA, CR, DASH, DQUOTE,
    GREATER, LBRACE, LBRACKET, PIPE, QUESTION, RBRACE, RBRACKET, SQUOTE, STAR,
};
use vstd::prelude::*;

verus! {

/// The lines of a block scalar from `i` on that are blank or indented by at
/// least `indent`: the end of the last one with content (`last` when there is
/// none), and where the lines stop.
pub open spec fn block_extent(s: Seq<u8>, i: int, indent: int, last: int) -> (int, int)
    decreases s.len() - i,
{
    let n = s.len() as int;
    let e = run(s, i, n, Class::Line);
    let t = if i < e && s[e - 1] == CR {
        e - 1
    } else {
        e
    };
    let k = run(s, i, t, Class::Space);
    let next = if e < n {
        e + 1
    } else {
        e
    };
    if i >= n || next <= i || next > n {
        (last, i)
    } else if k >= t {
        block_extent(s, next, indent, last)
    } else if k - i >= indent && !marker(s, i) {
        block_extent(s, next, indent, t)
    } else {
        (last, i)
    }
}

/// The indentation of the block scalar headed at `p`, whose lines must be
/// indented by at least `least`.
pub open spec fn content_indent(s: Seq<u8>, p: int, least: int) -> int {
    let n = s.len() as int;
    let h = run(s, p + 1, n, Class::Word);
    let e = run(s, p, n, Class::Line);
    let start = if e < n {
        e + 1
    } else {
        n
    };
    match asked_indent(s, p + 1, h) {
        Some(d) => d + indent_base(s, line_start(s, p), line_start(s, p), p, 0),
        None => {
            let c = first_indent(s, start, n);
            if c < least {
                least
            } else {
                c
            }
        },
    }
}

/// End of the block scalar headed at `p`. Trailing blank lines belong to it
/// only when its header keeps them.
pub open spec fn block_end(s: Seq<u8>, p: int, least: int) -> int {
    let n = s.len() as int;
    let h = run(s, p + 1, n, Class::Word);
    let e = run(s, p, n, Class::Line);
    let t = if p < e && s[e - 1] == CR {
        e - 1
    } else {
        e
    };
    let start = if e < n {
        e + 1
    } else {
        n
    };
    let (last, stop) = block_extent(s, start, content_indent(s, p, least), t);
    if chomping(s, p + 1, h) == Chomp::Keep {
        stop
    } else {
        last
    }
}

fn end_of_block(s: &[u8], p: usize, least: usize) -> (r: usize)
    requires
        p < s@.len(),
        s[p as int] == PIPE || s[p as int] == GREATER,
        fits(s@, 0),
    ensures
        r == block_end(s@, p as int, least as int),
        p < r <= s@.len(),
{
    let n: usize = s.len();
    let h: usize = scan(s, p + 1, n, Class::Word);
    let e: usize = scan(s, p, n, Class::Line);
    let t: usize = if p < e && s[e - 1] == CR {
        e - 1
    } else {
        e
    };
    let start: usize = if e < n {
        e + 1
    } else {
        n
    };
    let line: usize = start_of_line(s, p);
    let indent: usize = match asked_indent_of(s, p + 1, h) {
        Some(d) => {
            let base: usize = indent_base_of(s, line, p);
            d + base
        },
        None => {
            let c: usize = first_indent_of(s, start, n);
            if c < least {
                least
            } else {
                c
            }
        },
    };
    assert(p < t) by {
        assert(run(s@, p as int, n as int, Class::Line) == run(s@, p + 1, n as int, Class::Line));
        crate::text::run_is_maximal(s@, p + 1, n as int, Class::Line);
    }
    let mut last: usize = t;
    let mut i: usize = start;
    let stop: usize;
    loop
        invariant_except_break
            block_extent(s@, i as int, indent as int, last as int) == block_extent(
                s@,
                start as int,
                indent as int,
                t as int,
            ),
        invariant
            p < t <= start <= i <= n,
            t <= last <= n,
            n == s@.len(),
        ensures
            (last as int, i as int) == block_extent(
                s@,
                start as int,
                indent as int,
                t as int,
            ),
        decreases n - i,
    {
        if i >= n {
            break ;
        }
        let f: usize = scan(s, i, n, Class::Line);
        let u: usize = if i < f && s[f - 1] == CR {
            f - 1
        } else {
            f
        };
        let k: usize = scan(s, i, u, Class::Space);
        let next: usize = if f < n {
            f + 1
        } else {
            f
        };
        assert(next > i);
        if k < u {
            if k - i < indent || is_marker(s, i) {
                break ;
            }
            last = u;
        }
        i = next;
    }
    stop = i;
    match chomping_of(s, p + 1, h) {
        Chomp::Keep => stop,
        _ => last,
    }
}

/// A scalar, alias or flow collection at `p`.
pub open spec fn flat(
    s: Seq<u8>,
    p: int,
    least: int,
    base: int,
    depth: nat,
    acc: Seq<Elem>,
) -> Built
    decreases depth, 4int, 0int,
{
    let n = s.len() as int;
    if !(0 <= p < n) {
        Err(flaw(Fault::Unexpected, p))
    } else if s[p] == LBRACKET || s[p] == LBRACE {
        flow(s, p, base, depth, acc)
    } else if s[p] == STAR {
        let e = run(s, p + 1, n, Class::Name);
        Ok((acc.push(token(SyntaxKind::AliasMark, p, e)), e))
    } else if s[p] == DQUOTE {
        match double_end(s, p + 1) {
            Some(e) => Ok((acc.push(token(SyntaxKind::DoubleQuotedScalar, p, e)), e)),
            None => Err(flaw(Fault::UnclosedQuote, p)),
        }
    } else if s[p] == SQUOTE {
        match single_end(s, p + 1) {
            Some(e) => Ok((acc.push(token(SyntaxKind::SingleQuotedScalar, p, e)), e)),
            None => Err(flaw(Fault::UnclosedQuote, p)),
        }
    } else if s[p] == PIPE {
        let e = block_end(s, p, least);
        Ok((acc.push(token(SyntaxKind::LiteralScalar, p, e)), e))
    } else if s[p] == GREATER {
        let e = block_end(s, p, least);
        Ok((acc.push(token(SyntaxKind::FoldedScalar, p, e)), e))
    } else if plain_start(s, p, false) {
        let e = plain_end(s, p, least, base, false);
        Ok((acc.push(token(SyntaxKind::PlainScalar, p, e)), e))
    } else {
        Err(flaw(Fault::Unexpected, p))
    }
}

/// The flow collection whose bracket opens at `p`.
pub open spec fn flow(s: Seq<u8>, p: int, base: int, depth: nat, acc: Seq<Elem>) -> Built
    decreases depth, 3int, 0int,
{
    if depth == 0 {
        Err(flaw(Fault::TooDeep, p))
    } else {
        let kind = if s[p] == LBRACKET {
            SyntaxKind::FlowSequence
        } else {
            SyntaxKind::FlowMapping
        };
        let closer = if s[p] == LBRACKET {
            RBRACKET
        } else {
            RBRACE
        };
        let opened = acc.push(token(kind, p, p)).push(token(SyntaxKind::FlowOpen, p, p + 1));
        match members(s, p + 1, closer, false, base, depth, opened) {
            Ok((a, e)) => Ok((closed(a, acc.len() as int, e), e)),
            Err(x) => Err(x),
        }
    }
}

/// The content of a flow collection from `p` on, up to its closing bracket or
/// the end of the text. After a quoted scalar or a nested collection
/// (`json`), a `:` separates key and value without white space.
pub open spec fn members(
    s: Seq<u8>,
    p: int,
    closer: u8,
    json: bool,
    base: int,
    depth: nat,
    acc: Seq<Elem>,
) -> Built
    decreases depth, 2int, s.len() - p,
{
    let n = s.len() as int;
    let q = gap(s, p);
    let a = with_trivia(s, p, acc);
    if q < p || q >= n || marker(s, q) || depth == 0 {
        Ok((acc, p))
    } else if s[q] == closer {
        Ok((a.push(token(SyntaxKind::FlowClose, q, q + 1)), q + 1))
    } else if s[q] == RBRACKET || s[q] == RBRACE {
        Err(flaw(Fault::MismatchedFlow, q))
    } else if s[q] == COMMA {
        members(
            s,
            q + 1,
            closer,
            false,
            base,
            depth,
            a.push(token(SyntaxKind::CommaIndicator, q, q + 1)),
        )
    } else if s[q] == LBRACKET || s[q] == LBRACE {
        match flow(s, q, base, (depth - 1) as nat, a) {
            Ok((b, e)) => if q < e <= n {
                members(s, e, closer, true, base, depth, b)
            } else {
                Err(flaw(Fault::Unexpected, q))
            },
            Err(x) => Err(x),
        }
    } else if s[q] == DQUOTE || s[q] == SQUOTE {
        let end = if s[q] == DQUOTE {
            double_end(s, q + 1)
        } else {
            single_end(s, q + 1)
        };
        match end {
            Some(e) => if q < e <= n {
                members(s, e, closer, true, base, depth, a.push(token(scalar_token(s[q]), q, e)))
            } else {
                Err(flaw(Fault::Unexpected, q))
            },
            None => Err(flaw(Fault::UnclosedQuote, q)),
        }
    } else if s[q] == STAR || s[q] == AMP || s[q] == BANG {
        let e = run(s, q + 1, n, Class::Name);
        let kind = if s[q] == STAR {
            SyntaxKind::AliasMark
        } else {
            property_token(s[q])
        };
        if q < e <= n {
            members(s, e, closer, false, base, depth, a.push(token(kind, q, e)))
        } else {
            Err(flaw(Fault::Unexpected, q))
        }
    } else if indicator(s, q, QUESTION) {
        members(
            s,
            q + 1,
            closer,
            false,
            base,
            depth,
            a.push(token(SyntaxKind::QuestionIndicator, q, q + 1)),
        )
    } else if s[q] == COLON && (json || indicator(s, q, COLON) || (q + 1 < n && flow_indicator(
        s[q + 1],
    ))) {
        members(
            s,
            q + 1,
            closer,
            false,
            base,
            depth,
            a.push(token(SyntaxKind::ColonIndicator, q, q + 1)),
        )
    } else if plain_start(s, q, true) {
        let e = plain_end(s, q, 0, base, true);
        if q < e <= n {
            members(s, e, closer, false, base, depth, a.push(token(SyntaxKind::PlainScalar, q, e)))
        } else {
            Err(flaw(Fault::Unexpected, q))
        }
    } else {
        Err(flaw(Fault::Unexpected, q))
    }
}

/// The node at `p`. Its content must not start left of column `least`, except
/// that a `-` may stand at column `dash`; `block` tells whether a block
/// collection may start right here.
pub open spec fn node(
    s: Seq<u8>,
    p: int,
    least: int,
    dash: int,
    block: bool,
    base: int,
    depth: nat,
    acc: Seq<Elem>,
) -> Built
    decreases depth, 5int, 0int,
{
    let n = s.len() as int;
    if depth == 0 {
        Err(flaw(Fault::TooDeep, p))
    } else if block && indicator(s, p, DASH) {
        sequence(s, p, column(s, p, base), base, depth, acc)
    } else if block && entry_start(s, p) {
        mapping(s, p, column(s, p, base), base, depth, acc)
    } else if property(s, p) {
        let (a, e) = with_properties(s, p, acc);
        let q = gap(s, e);
        let c = column(s, q, base);
        if q >= n || marker(s, q) {
            Ok((a, e))
        } else if !fresh(s, e, q) {
            flat(s, q, least, base, depth, with_trivia(s, e, a))
        } else if c >= least || (indicator(s, q, DASH) && c >= dash) {
            node(s, q, least, dash, true, base, (depth - 1) as nat, with_trivia(s, e, a))
        } else {
            Ok((a, e))
        }
    } else {
        flat(s, p, least, base, depth, acc)
    }
}

/// Whether the indicator ending at `p` is in column `c`, as the `:` of an entry
/// is whose key is behind a `?` or missing. A block collection may then start on
/// the line.
pub open spec fn opens_line(s: Seq<u8>, p: int, c: int, base: int) -> bool {
    0 < p && column(s, p - 1, base) == c
}

/// The value that follows the indicator ending at `p`, in a collection in
/// column `c`. `pair` tells the `:` of a mapping entry from `-` and `?`.
pub open spec fn value(
    s: Seq<u8>,
    p: int,
    c: int,
    pair: bool,
    base: int,
    depth: nat,
    acc: Seq<Elem>,
) -> Built
    decreases depth, 0int, 0int,
{
    let n = s.len() as int;
    let q = gap(s, p);
    let dash = if pair {
        c
    } else {
        c + 1
    };
    let d = column(s, q, base);
    if depth == 0 {
        Err(flaw(Fault::TooDeep, p))
    } else if q >= n || marker(s, q) {
        Ok((acc, p))
    } else if !fresh(s, p, q) {
        node(
            s,
            q,
            c + 1,
            dash,
            !pair || opens_line(s, p, c, base),
            base,
            (depth - 1) as nat,
            with_trivia(s, p, acc),
        )
    } else if d > c || (indicator(s, q, DASH) && d >= dash) {
        node(s, q, c + 1, dash, true, base, (depth - 1) as nat, with_trivia(s, p, acc))
    } else {
        Ok((acc, p))
    }
}

/// One entry of a block mapping in column `c`.
pub open spec fn entry(s: Seq<u8>, p: int, c: int, base: int, depth: nat, acc: Seq<Elem>) -> Built
    decreases depth, 1int, 0int,
{
    let n = s.len() as int;
    let at = acc.len() as int;
    let opened = acc.push(token(SyntaxKind::MappingEntry, p, p));
    if indicator(s, p, QUESTION) {
        match value(
            s,
            p + 1,
            c,
            false,
            base,
            depth,
            opened.push(token(SyntaxKind::QuestionIndicator, p, p + 1)),
        ) {
            Ok((a, q)) => {
                let g = gap(s, q);
                if g < n && fresh(s, q, g) && column(s, g, base) == c && indicator(s, g, COLON) {
                    match value(
                        s,
                        g + 1,
                        c,
                        true,
                        base,
                        depth,
                        with_trivia(s, q, a).push(token(SyntaxKind::ColonIndicator, g, g + 1)),
                    ) {
                        Ok((b, e)) => Ok((closed(b, at, e), e)),
                        Err(x) => Err(x),
                    }
                } else {
                    Ok((closed(a, at, q), q))
                }
            },
            Err(x) => Err(x),
        }
    } else if indicator(s, p, COLON) {
        match value(
            s,
            p + 1,
            c,
            true,
            base,
            depth,
            opened.push(token(SyntaxKind::ColonIndicator, p, p + 1)),
        ) {
            Ok((b, e)) => Ok((closed(b, at, e), e)),
            Err(x) => Err(x),
        }
    } else {
        let (a, e) = with_properties(s, p, opened);
        let w = run(s, e, n, Class::Blank);
        match key_colon(s, w) {
            Some(x) => {
                let f = key_end(s, w)->0;
                let keyed = with_blanks(
                    with_blanks(a, e, w).push(token(scalar_token(s[w]), w, f)),
                    f,
                    x,
                ).push(token(SyntaxKind::ColonIndicator, x, x + 1));
                match value(s, x + 1, c, true, base, depth, keyed) {
                    Ok((b, y)) => Ok((closed(b, at, y), y)),
                    Err(z) => Err(z),
                }
            },
            None => Err(flaw(Fault::Unexpected, p)),
        }
    }
}

/// The entries of a block mapping in column `c`, from the one at `p` on.
pub open spec fn entries(
    s: Seq<u8>,
    p: int,
    c: int,
    base: int,
    depth: nat,
    acc: Seq<Elem>,
) -> Built
    decreases depth, 2int, s.len() - p,
{
    match entry(s, p, c, base, depth, acc) {
        Ok((a, q)) => {
            let g = gap(s, q);
            if p < g < s.len() && !marker(s, g) && fresh(s, q, g) && column(s, g, base) == c
                && entry_start(s, g) {
                entries(s, g, c, base, depth, with_trivia(s, q, a))
            } else {
                Ok((a, q))
            }
        },
        Err(x) => Err(x),
    }
}

/// The block mapping whose first entry is at `p`, in column `c`.
pub open spec fn mapping(
    s: Seq<u8>,
    p: int,
    c: int,
    base: int,
    depth: nat,
    acc: Seq<Elem>,
) -> Built
    decreases depth, 3int, 0int,
{
    match entries(s, p, c, base, depth, acc.push(token(SyntaxKind::BlockMapping, p, p))) {
        Ok((a, e)) => Ok((closed(a, acc.len() as int, e), e)),
        Err(x) => Err(x),
    }
}

/// One item of a block sequence in column `c`.
pub open spec fn item(s: Seq<u8>, p: int, c: int, base: int, depth: nat, acc: Seq<Elem>) -> Built
    decreases depth, 1int, 0int,
{
    if indicator(s, p, DASH) {
        match value(
            s,
            p + 1,
            c,
            false,
            base,
            depth,
            acc.push(token(SyntaxKind::SequenceItem, p, p)).push(
                token(SyntaxKind::DashIndicator, p, p + 1),
            ),
        ) {
            Ok((a, e)) => Ok((closed(a, acc.len() as int, e), e)),
            Err(x) => Err(x),
        }
    } else {
        Err(flaw(Fault::Unexpected, p))
    }
}

/// The items of a block sequence in column `c`, from the one at `p` on.
pub open spec fn items(s: Seq<u8>, p: int, c: int, base: int, depth: nat, acc: Seq<Elem>) -> Built
    decreases depth, 2int, s.len() - p,
{
    match item(s, p, c, base, depth, acc) {
        Ok((a, q)) => {
            let g = gap(s, q);
            if p < g < s.len() && !marker(s, g) && fresh(s, q, g) && column(s, g, base) == c
                && indicator(s, g, DASH) {
                items(s, g, c, base, depth, with_trivia(s, q, a))
            } else {
                Ok((a, q))
            }
        },
        Err(x) => Err(x),
    }
}

/// The block sequence whose first item is at `p`, in column `c`.
pub open spec fn sequence(
    s: Seq<u8>,
    p: int,
    c: int,
    base: int,
    depth: nat,
    acc: Seq<Elem>,
) -> Built
    decreases depth, 3int, 0int,
{
    match items(s, p, c, base, depth, acc.push(token(SyntaxKind::BlockSequence, p, p))) {
        Ok((a, e)) => Ok((closed(a, acc.len() as int, e), e)),
        Err(x) => Err(x),
    }
}

fn err(fault: Fault, at: usize) -> (r: Result<usize, Flaw>)
    ensures
        r == Err::<usize, Flaw>(flaw(fault, at as int)),
{
    Err(Flaw { fault, at })
}

fn build_flat(
    s: &[u8],
    p: usize,
    least: usize,
    base: usize,
    depth: usize,
    out: &mut Vec<Elem>,
) -> (r: Result<usize, Flaw>)
    requires
        p < s@.len(),
        fits(s@, base as int),
    ensures
        agrees(
            r,
            final(out)@,
            flat(s@, p as int, least as int, base as int, depth as nat, old(out)@),
            p + 1,
            s@.len() as int,
        ),
    decreases depth, 4int, 0int,
{
    let n: usize = s.len();
    let b: u8 = s[p];
    if b == LBRACKET || b == LBRACE {
        return build_flow(s, p, base, depth, out);
    }
    if b == STAR {
        let e: usize = scan(s, p + 1, n, Class::Name);
        push_token(out, SyntaxKind::AliasMark, p, e);
        return Ok(e);
    }
    if b == DQUOTE {
        return match find_double_end(s, p + 1) {
            Some(e) => {
                push_token(out, SyntaxKind::DoubleQuotedScalar, p, e);
                Ok(e)
            },
            None => err(Fault::UnclosedQuote, p),
        };
    }
    if b == SQUOTE {
        return match find_single_end(s, p + 1) {
            Some(e) => {
                push_token(out, SyntaxKind::SingleQuotedScalar, p, e);
                Ok(e)
            },
            None => err(Fault::UnclosedQuote, p),
        };
    }
    if b == PIPE {
        let e: usize = end_of_block(s, p, least);
        push_token(out, SyntaxKind::LiteralScalar, p, e);
        return Ok(e);
    }
    if b == GREATER {
        let e: usize = end_of_block(s, p, least);
        push_token(out, SyntaxKind::FoldedScalar, p, e);
        return Ok(e);
    }
    if is_plain_start(s, p, false) {
        let e: usize = end_of_plain(s, p, least, base, false);
        proof {
            plain_scalars_are_not_empty(s@, p as int, least as int, base as int, false);
        }
        push_token(out, SyntaxKind::PlainScalar, p, e);
        return Ok(e);
    }
    err(Fault::Unexpected, p)
}

proof fn plain_scalars_are_not_empty(s: Seq<u8>, p: int, least: int, base: int, flow: bool)
    requires
        plain_start(s, p, flow),
    ensures
        p < plain_end(s, p, least, base, flow),
{
    stops_do_not_go_back(s, p, p, flow);
    stops_do_not_go_back(s, p, p + 1, flow);
    let stop = crate::lexis::plain_stop(s, p, p, flow);
    assert(stop >= p + 1);
    first_byte_stays(s, p, stop);
    continuing_goes_forward(s, crate::lexis::plain_line(s, p, flow), least, base, flow);
}

proof fn stops_do_not_go_back(s: Seq<u8>, lo: int, i: int, flow: bool)
    ensures
        crate::lexis::plain_stop(s, lo, i, flow) >= i,
    decreases s.len() - i,
{
    if i < s.len() {
        stops_do_not_go_back(s, lo, i + 1, flow);
    }
}

proof fn first_byte_stays(s: Seq<u8>, p: int, stop: int)
    requires
        0 <= p < stop,
        p < s.len(),
        !crate::text::blank(s[p]),
    ensures
        p < crate::text::back(s, p, stop, Class::Blank),
    decreases stop,
{
    if stop > p + 1 {
        first_byte_stays(s, p, stop - 1);
    }
}

proof fn continuing_goes_forward(s: Seq<u8>, e: int, least: int, base: int, flow: bool)
    ensures
        e <= crate::lexis::plain_more(s, e, least, base, flow),
    decreases s.len() - e,
{
    let n = s.len() as int;
    let w = run(s, e, n, Class::Blank);
    let q = run(s, w, n, Class::White);
    let f = crate::lexis::plain_line(s, q, flow);
    if e < f <= n {
        continuing_goes_forward(s, f, least, base, flow);
    }
}

fn build_flow(s: &[u8], p: usize, base: usize, depth: usize, out: &mut Vec<Elem>) -> (r: Result<
    usize,
    Flaw,
>)
    requires
        p < s@.len(),
        fits(s@, base as int),
    ensures
        agrees(
            r,
            final(out)@,
            flow(s@, p as int, base as int, depth as nat, old(out)@),
            p + 1,
            s@.len() as int,
        ),
    decreases depth, 3int, 0int,
{
    if depth == 0 {
        return err(Fault::TooDeep, p);
    }
    let sequence: bool = s[p] == LBRACKET;
    let at: usize = out.len();
    let kind: SyntaxKind = if sequence {
        SyntaxKind::FlowSequence
    } else {
        SyntaxKind::FlowMapping
    };
    let closer: u8 = if sequence {
        RBRACKET
    } else {
        RBRACE
    };
    push_token(out, kind, p, p);
    push_token(out, SyntaxKind::FlowOpen, p, p + 1);
    match build_members(s, p + 1, closer, base, depth, out) {
        Ok(e) => {
            close(out, at, e);
            Ok(e)
        },
        Err(x) => Err(x),
    }
}

fn build_members(
    s: &[u8],
    p: usize,
    closer: u8,
    base: usize,
    depth: usize,
    out: &mut Vec<Elem>,
) -> (r: Result<usize, Flaw>)
    requires
        p <= s@.len(),
        depth > 0,
        fits(s@, base as int),
    ensures
        agrees(
            r,
            final(out)@,
            members(s@, p as int, closer, false, base as int, depth as nat, old(out)@),
            p as int,
            s@.len() as int,
        ),
    decreases depth, 2int, 0int,
{
    let n: usize = s.len();
    let ghost model = members(s@, p as int, closer, false, base as int, depth as nat, out@);
    let mut i: usize = p;
    let mut json: bool = false;
    loop
        invariant
            p <= i <= n,
            n == s@.len(),
            depth > 0,
            fits(s@, base as int),
            model == members(s@, i as int, closer, json, base as int, depth as nat, out@),
            model == members(
                s@,
                p as int,
                closer,
                false,
                base as int,
                depth as nat,
                old(out)@,
            ),
        decreases n - i,
    {
        let q: usize = end_of_gap(s, i);
        if q >= n || is_marker(s, q) {
            return Ok(i);
        }
        push_trivia(s, i, out);
        let b: u8 = s[q];
        if b == closer {
            push_token(out, SyntaxKind::FlowClose, q, q + 1);
            return Ok(q + 1);
        }
        if b == RBRACKET || b == RBRACE {
            return err(Fault::MismatchedFlow, q);
        }
        if b == COMMA {
            push_token(out, SyntaxKind::CommaIndicator, q, q + 1);
            json = false;
            i = q + 1;
        } else if b == LBRACKET || b == LBRACE {
            match build_flow(s, q, base, depth - 1, out) {
                Ok(e) => {
                    json = true;
                    i = e;
                },
                Err(x) => {
                    return Err(x);
                },
            }
        } else if b == DQUOTE || b == SQUOTE {
            let end: Option<usize> = if b == DQUOTE {
                find_double_end(s, q + 1)
            } else {
                find_single_end(s, q + 1)
            };
            match end {
                Some(e) => {
                    push_token(out, scalar_token_of(b), q, e);
                    json = true;
                    i = e;
                },
                None => {
                    return err(Fault::UnclosedQuote, q);
                },
            }
        } else if b == STAR || b == AMP || b == BANG {
            let e: usize = scan(s, q + 1, n, Class::Name);
            let kind: SyntaxKind = if b == STAR {
                SyntaxKind::AliasMark
            } else if b == AMP {
                SyntaxKind::AnchorMark
            } else {
                SyntaxKind::TagMark
            };
            push_token(out, kind, q, e);
            json = false;
            i = e;
        } else if is_indicator(s, q, QUESTION) {
            push_token(out, SyntaxKind::QuestionIndicator, q, q + 1);
            json = false;
            i = q + 1;
        } else if b == COLON && (json || is_indicator(s, q, COLON) || (q + 1 < n
            && is_flow_indicator(s[q + 1]))) {
            push_token(out, SyntaxKind::ColonIndicator, q, q + 1);
            json = false;
            i = q + 1;
        } else if is_plain_start(s, q, true) {
            let e: usize = end_of_plain(s, q, 0, base, true);
            proof {
                plain_scalars_are_not_empty(s@, q as int, 0, base as int, true);
            }
            push_token(out, SyntaxKind::PlainScalar, q, e);
            json = false;
            i = e;
        } else {
            return err(Fault::Unexpected, q);
        }
    }
}

pub fn build_node(
    s: &[u8],
    p: usize,
    least: usize,
    dash: usize,
    block: bool,
    base: usize,
    depth: usize,
    out: &mut Vec<Elem>,
) -> (r: Result<usize, Flaw>)
    requires
        p < s@.len(),
        fits(s@, base as int),
    ensures
        agrees(
            r,
            final(out)@,
            node(
                s@,
                p as int,
                least as int,
                dash as int,
                block,
                base as int,
                depth as nat,
                old(out)@,
            ),
            p + 1,
            s@.len() as int,
        ),
    decreases depth, 5int, 0int,
{
    if depth == 0 {
        return err(Fault::TooDeep, p);
    }
    if block && is_indicator(s, p, DASH) {
        let c: usize = column_of(s, p, base);
        return build_sequence(s, p, c, base, depth, out);
    }
    if block && is_entry_start(s, p) {
        let c: usize = column_of(s, p, base);
        return build_mapping(s, p, c, base, depth, out);
    }
    if is_property(s, p) {
        proof {
            properties_are_not_empty(s@, p as int, out@);
        }
        let e: usize = push_properties(s, p, out);
        let q: usize = end_of_gap(s, e);
        if q >= s.len() || is_marker(s, q) {
            return Ok(e);
        }
        if !is_fresh(s, e, q) {
            push_trivia(s, e, out);
            return build_flat(s, q, least, base, depth, out);
        }
        let c: usize = column_of(s, q, base);
        if c >= least || (is_indicator(s, q, DASH) && c >= dash) {
            push_trivia(s, e, out);
            return build_node(s, q, least, dash, true, base, depth - 1, out);
        }
        return Ok(e);
    }
    build_flat(s, p, least, base, depth, out)
}

proof fn properties_are_not_empty(s: Seq<u8>, p: int, acc: Seq<Elem>)
    requires
        property(s, p),
    ensures
        p < with_properties(s, p, acc).1,
    decreases s.len() - p,
{
    let n = s.len() as int;
    let e = run(s, p + 1, n, Class::Name);
    let w = run(s, e, n, Class::Blank);
    crate::text::run_is_maximal(s, p + 1, n, Class::Name);
    if property(s, w) && p < w {
        properties_are_not_empty(
            s,
            w,
            with_blanks(acc.push(token(property_token(s[p]), p, e)), e, w),
        );
    }
}

fn build_value(
    s: &[u8],
    p: usize,
    c: usize,
    pair: bool,
    base: usize,
    depth: usize,
    out: &mut Vec<Elem>,
) -> (r: Result<usize, Flaw>)
    requires
        p <= s@.len(),
        c < usize::MAX,
        fits(s@, base as int),
    ensures
        agrees(
            r,
            final(out)@,
            value(s@, p as int, c as int, pair, base as int, depth as nat, old(out)@),
            p as int,
            s@.len() as int,
        ),
    decreases depth, 0int, 0int,
{
    let q: usize = end_of_gap(s, p);
    let dash: usize = if pair {
        c
    } else {
        c + 1
    };
    if depth == 0 {
        return err(Fault::TooDeep, p);
    }
    if q >= s.len() || is_marker(s, q) {
        return Ok(p);
    }
    if !is_fresh(s, p, q) {
        push_trivia(s, p, out);
        let block: bool = !pair || (0 < p && column_of(s, p - 1, base) == c);
        return build_node(s, q, c + 1, dash, block, base, depth - 1, out);
    }
    let d: usize = column_of(s, q, base);
    if d > c || (is_indicator(s, q, DASH) && d >= dash) {
        push_trivia(s, p, out);
        return build_node(s, q, c + 1, dash, true, base, depth - 1, out);
    }
    Ok(p)
}

pub fn build_entry(
    s: &[u8],
    p: usize,
    c: usize,
    base: usize,
    depth: usize,
    out: &mut Vec<Elem>,
) -> (r: Result<usize, Flaw>)
    requires
        p < s@.len(),
        c < usize::MAX,
        fits(s@, base as int),
    ensures
        agrees(
            r,
            final(out)@,
            entry(s@, p as int, c as int, base as int, depth as nat, old(out)@),
            p + 1,
            s@.len() as int,
        ),
    decreases depth, 1int, 0int,
{
    let n: usize = s.len();
    let at: usize = out.len();
    push_token(out, SyntaxKind::MappingEntry, p, p);
    if is_indicator(s, p, QUESTION) {
        push_token(out, SyntaxKind::QuestionIndicator, p, p + 1);
        return match build_value(s, p + 1, c, false, base, depth, out) {
            Ok(q) => {
                let g: usize = end_of_gap(s, q);
                if g < n && is_fresh(s, q, g) && column_of(s, g, base) == c && is_indicator(
                    s,
                    g,
                    COLON,
                ) {
                    push_trivia(s, q, out);
                    push_token(out, SyntaxKind::ColonIndicator, g, g + 1);
                    match build_value(s, g + 1, c, true, base, depth, out) {
                        Ok(e) => {
                            close(out, at, e);
                            Ok(e)
                        },
                        Err(x) => Err(x),
                    }
                } else {
                    close(out, at, q);
                    Ok(q)
                }
            },
            Err(x) => Err(x),
        };
    }
    if is_indicator(s, p, COLON) {
        push_token(out, SyntaxKind::ColonIndicator, p, p + 1);
        return match build_value(s, p + 1, c, true, base, depth, out) {
            Ok(e) => {
                close(out, at, e);
                Ok(e)
            },
            Err(x) => Err(x),
        };
    }
    let e: usize = push_properties(s, p, out);
    let w: usize = scan(s, e, n, Class::Blank);
    match colon_of_key(s, w) {
        Some(x) => {
            match end_of_key(s, w) {
                Some(f) => {
                    push_blanks(out, e, w);
                    push_token(out, scalar_token_of(s[w]), w, f);
                    push_blanks(out, f, x);
                    push_token(out, SyntaxKind::ColonIndicator, x, x + 1);
                    match build_value(s, x + 1, c, true, base, depth, out) {
                        Ok(y) => {
                            close(out, at, y);
                            Ok(y)
                        },
                        Err(z) => Err(z),
                    }
                },
                None => err(Fault::Unexpected, p),
            }
        },
        None => err(Fault::Unexpected, p),
    }
}

fn build_entries(
    s: &[u8],
    p: usize,
    c: usize,
    base: usize,
    depth: usize,
    out: &mut Vec<Elem>,
) -> (r: Result<usize, Flaw>)
    requires
        p < s@.len(),
        c < usize::MAX,
        fits(s@, base as int),
    ensures
        agrees(
            r,
            final(out)@,
            entries(s@, p as int, c as int, base as int, depth as nat, old(out)@),
            p + 1,
            s@.len() as int,
        ),
    decreases depth, 2int, 0int,
{
    let ghost model = entries(s@, p as int, c as int, base as int, depth as nat, out@);
    let mut i: usize = p;
    loop
        invariant
            p <= i < s@.len(),
            c < usize::MAX,
            fits(s@, base as int),
            model == entries(s@, i as int, c as int, base as int, depth as nat, out@),
            model == entries(s@, p as int, c as int, base as int, depth as nat, old(out)@),
        decreases s@.len() - i,
    {
        match build_entry(s, i, c, base, depth, out) {
            Ok(q) => {
                let g: usize = end_of_gap(s, q);
                if g < s.len() && !is_marker(s, g) && is_fresh(s, q, g) && column_of(s, g, base)
                    == c && is_entry_start(s, g) {
                    push_trivia(s, q, out);
                    i = g;
                } else {
                    return Ok(q);
                }
            },
            Err(x) => {
                return Err(x);
            },
        }
    }
}

pub fn build_mapping(
    s: &[u8],
    p: usize,
    c: usize,
    base: usize,
    depth: usize,
    out: &mut Vec<Elem>,
) -> (r: Result<usize, Flaw>)
    requires
        p < s@.len(),
        c < usize::MAX,
        fits(s@, base as int),
    ensures
        agrees(
            r,
            final(out)@,
            mapping(s@, p as int, c as int, base as int, depth as nat, old(out)@),
            p + 1,
            s@.len() as int,
        ),
    decreases depth, 3int, 0int,
{
    let at: usize = out.len();
    push_token(out, SyntaxKind::BlockMapping, p, p);
    match build_entries(s, p, c, base, depth, out) {
        Ok(e) => {
            close(out, at, e);
            Ok(e)
        },
        Err(x) => Err(x),
    }
}

pub fn build_item(
    s: &[u8],
    p: usize,
    c: usize,
    base: usize,
    depth: usize,
    out: &mut Vec<Elem>,
) -> (r: Result<usize, Flaw>)
    requires
        p < s@.len(),
        c < usize::MAX,
        fits(s@, base as int),
    ensures
        agrees(
            r,
            final(out)@,
            item(s@, p as int, c as int, base as int, depth as nat, old(out)@),
            p + 1,
            s@.len() as int,
        ),
    decreases depth, 1int, 0int,
{
    if !is_indicator(s, p, DASH) {
        return err(Fault::Unexpected, p);
    }
    let at: usize = out.len();
    push_token(out, SyntaxKind::SequenceItem, p, p);
    push_token(out, SyntaxKind::DashIndicator, p, p + 1);
    match build_value(s, p + 1, c, false, base, depth, out) {
        Ok(e) => {
            close(out, at, e);
            Ok(e)
        },
        Err(x) => Err(x),
    }
}

fn build_items(
    s: &[u8],
    p: usize,
    c: usize,
    base: usize,
    depth: usize,
    out: &mut Vec<Elem>,
) -> (r: Result<usize, Flaw>)
    requires
        p < s@.len(),
        c < usize::MAX,
        fits(s@, base as int),
    ensures
        agrees(
            r,
            final(out)@,
            items(s@, p as int, c as int, base as int, depth as nat, old(out)@),
            p + 1,
            s@.len() as int,
        ),
    decreases depth, 2int, 0int,
{
    let ghost model = items(s@, p as int, c as int, base as int, depth as nat, out@);
    let mut i: usize = p;
    loop
        invariant
            p <= i < s@.len(),
            c < usize::MAX,
            fits(s@, base as int),
            model == items(s@, i as int, c as int, base as int, depth as nat, out@),
            model == items(s@, p as int, c as int, base as int, depth as nat, old(out)@),
        decreases s@.len() - i,
    {
        match build_item(s, i, c, base, depth, out) {
            Ok(q) => {
                let g: usize = end_of_gap(s, q);
                if g < s.len() && !is_marker(s, g) && is_fresh(s, q, g) && column_of(s, g, base)
                    == c && is_indicator(s, g, DASH) {
                    push_trivia(s, q, out);
                    i = g;
                } else {
                    return Ok(q);
                }
            },
            Err(x) => {
                return Err(x);
            },
        }
    }
}

pub fn build_sequence(
    s: &[u8],
    p: usize,
    c: usize,
    base: usize,
    depth: usize,
    out: &mut Vec<Elem>,
) -> (r: Result<usize, Flaw>)
    requires
        p < s@.len(),
        c < usize::MAX,
        fits(s@, base as int),
    ensures
        agrees(
            r,
            final(out)@,
            sequence(s@, p as int, c as int, base as int, depth as nat, old(out)@),
            p + 1,
            s@.len() as int,
        ),
    decreases depth, 3int, 0int,
{
    let at: usize = out.len();
    push_token(out, SyntaxKind::BlockSequence, p, p);
    match build_items(s, p, c, base, depth, out) {
        Ok(e) => {
            close(out, at, e);
            Ok(e)
        },
        Err(x) => Err(x),
    }
}

} // verus!
