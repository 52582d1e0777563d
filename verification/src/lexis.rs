//! What stands at an offset of a YAML text: white space, markers, indicators,
//! properties, keys and plain scalars.
use crate::decode::{double_end, find_double_end, find_single_end, single_end};
use crate::lines::{line_start, start_of_line};
use crate::scalar::opening_indicator;
use crate::syntax::{Elem, Fault, Flaw, SyntaxKind};
use crate::text::{
    back, blank, flow_indicator, is_blank, is_break, is_flow_indicator, line_break, run, scan, scan_back, Class, AMP,
    BANG, COLON, COMMA, CR, DASH, DOT, DQUOTE, GREATER, HASH, LBRACE, LBRACKET, NL, PERCENT, PIPE, QUESTION, RBRACE,
    RBRACKET, SQUOTE, STAR,
};
use vstd::prelude::*;

verus! {

/// The elements built so far and the offset reached, or what went wrong.
pub type Built = Result<(Seq<Elem>, int), Flaw>;

/// Whether a run of the builder agrees with its model.
pub open spec fn agrees(r: Result<usize, Flaw>, out: Seq<Elem>, model: Built, p: int, n: int) -> bool {
    match model {
        Ok((a, q)) => r == Ok::<usize, Flaw>(q as usize) && out == a && p <= q <= n,
        Err(e) => r == Err::<usize, Flaw>(e),
    }
}

/// Whether the offsets and columns of a text fit the machine.
pub open spec fn fits(s: Seq<u8>, base: int) -> bool {
    0 <= base && base + s.len() + 16 <= usize::MAX
}

pub open spec fn flaw(fault: Fault, at: int) -> Flaw {
    Flaw { fault, at: at as usize }
}

/// A token over `a..b`.
pub open spec fn token(kind: SyntaxKind, a: int, b: int) -> Elem {
    Elem { kind, start: a as usize, end: b as usize, size: 1 }
}

pub fn push_token(out: &mut Vec<Elem>, kind: SyntaxKind, a: usize, b: usize)
    ensures
        final(out)@ == old(out)@.push(token(kind, a as int, b as int)),
{
    out.push(Elem { kind, start: a, end: b, size: 1 });
}

/// `acc` with the node opened at index `at` closed at offset `end`.
pub open spec fn closed(acc: Seq<Elem>, at: int, end: int) -> Seq<Elem> {
    if 0 <= at < acc.len() {
        acc.update(
            at,
            Elem {
                kind: acc[at].kind,
                start: acc[at].start,
                end: end as usize,
                size: (acc.len() - at) as usize,
            },
        )
    } else {
        acc
    }
}

pub fn close(out: &mut Vec<Elem>, at: usize, end: usize)
    ensures
        final(out)@ == closed(old(out)@, at as int, end as int),
{
    if at < out.len() {
        let e: Elem = out[at];
        let n: usize = out.len();
        out.set(at, Elem { kind: e.kind, start: e.start, end, size: n - at });
    }
}

/// White space over `a..b`, when there is any.
pub open spec fn with_blanks(acc: Seq<Elem>, a: int, b: int) -> Seq<Elem> {
    if a < b {
        acc.push(token(SyntaxKind::Whitespace, a, b))
    } else {
        acc
    }
}

pub fn push_blanks(out: &mut Vec<Elem>, a: usize, b: usize)
    ensures
        final(out)@ == with_blanks(old(out)@, a as int, b as int),
{
    if a < b {
        push_token(out, SyntaxKind::Whitespace, a, b);
    }
}

/// Whether the text starts with a byte order mark.
pub open spec fn has_bom(s: Seq<u8>) -> bool {
    s.len() >= 3 && s[0] == 0xef && s[1] == 0xbb && s[2] == 0xbf
}

pub fn starts_with_bom(s: &[u8]) -> (r: bool)
    ensures
        r == has_bom(s@),
{
    s.len() >= 3 && s[0] == 0xef && s[1] == 0xbb && s[2] == 0xbf
}

/// Column of offset `p` in a text whose first line is preceded by `base`
/// columns.
pub open spec fn column(s: Seq<u8>, p: int, base: int) -> int {
    let line = line_start(s, p);
    if line > 0 {
        p - line
    } else if has_bom(s) && p >= 3 {
        base + p - 3
    } else {
        base + p
    }
}

pub fn column_of(s: &[u8], p: usize, base: usize) -> (r: usize)
    requires
        p <= s@.len(),
        fits(s@, base as int),
    ensures
        r == column(s@, p as int, base as int),
        r <= base + s@.len(),
{
    let line: usize = start_of_line(s, p);
    if line > 0 {
        p - line
    } else if starts_with_bom(s) && p >= 3 {
        base + (p - 3)
    } else {
        base + p
    }
}

/// End of the white space, line break or comment that starts at `p`; `p`
/// itself when there is none.
pub open spec fn trivia_end(s: Seq<u8>, p: int) -> int {
    let n = s.len() as int;
    if p >= n {
        p
    } else if blank(s[p]) {
        run(s, p, n, Class::Blank)
    } else if s[p] == CR && p + 1 < n && s[p + 1] == NL {
        p + 2
    } else if line_break(s[p]) {
        p + 1
    } else if s[p] == HASH && (p == 0 || blank(s[p - 1]) || line_break(s[p - 1])) {
        run(s, p, n, Class::Text)
    } else {
        p
    }
}

fn end_of_trivia(s: &[u8], p: usize) -> (r: usize)
    requires
        p <= s@.len(),
    ensures
        r == trivia_end(s@, p as int),
        p <= r <= s@.len(),
{
    let n: usize = s.len();
    if p >= n {
        p
    } else if is_blank(s[p]) {
        scan(s, p, n, Class::Blank)
    } else if s[p] == CR && p + 1 < n && s[p + 1] == NL {
        p + 2
    } else if is_break(s[p]) {
        p + 1
    } else if s[p] == HASH && (p == 0 || is_blank(s[p - 1]) || is_break(s[p - 1])) {
        scan(s, p, n, Class::Text)
    } else {
        p
    }
}

/// The kind of the white space, line break or comment that starts with `b`.
pub open spec fn trivia_token(b: u8) -> SyntaxKind {
    if blank(b) {
        SyntaxKind::Whitespace
    } else if line_break(b) {
        SyntaxKind::Newline
    } else {
        SyntaxKind::Comment
    }
}

/// Offset of the first content at or after `p`.
pub open spec fn gap(s: Seq<u8>, p: int) -> int
    decreases s.len() - p,
{
    let e = trivia_end(s, p);
    if p < e <= s.len() {
        gap(s, e)
    } else {
        p
    }
}

/// Finds the first content at or after `p`.
pub fn end_of_gap(s: &[u8], p: usize) -> (r: usize)
    requires
        p <= s@.len(),
    ensures
        r == gap(s@, p as int),
        p <= r <= s@.len(),
{
    let mut i: usize = p;
    loop
        invariant
            p <= i <= s@.len(),
            gap(s@, i as int) == gap(s@, p as int),
        decreases s@.len() - i,
    {
        let e: usize = end_of_trivia(s, i);
        if e == i {
            return i;
        }
        i = e;
    }
}

/// The white space, line breaks and comments from `p` up to the next content,
/// as tokens.
pub open spec fn with_trivia(s: Seq<u8>, p: int, acc: Seq<Elem>) -> Seq<Elem>
    decreases s.len() - p,
{
    let e = trivia_end(s, p);
    if p < e <= s.len() {
        with_trivia(s, e, acc.push(token(trivia_token(s[p]), p, e)))
    } else {
        acc
    }
}

pub fn push_trivia(s: &[u8], p: usize, out: &mut Vec<Elem>)
    requires
        p <= s@.len(),
    ensures
        final(out)@ == with_trivia(s@, p as int, old(out)@),
{
    let mut i: usize = p;
    loop
        invariant
            p <= i <= s@.len(),
            with_trivia(s@, i as int, out@) == with_trivia(s@, p as int, old(out)@),
        decreases s@.len() - i,
    {
        let e: usize = end_of_trivia(s, i);
        if e == i {
            return ;
        }
        let kind: SyntaxKind = if is_blank(s[i]) {
            SyntaxKind::Whitespace
        } else if is_break(s[i]) {
            SyntaxKind::Newline
        } else {
            SyntaxKind::Comment
        };
        push_token(out, kind, i, e);
        i = e;
    }
}

/// Whether a line break stands between `p` and `q`, or right before `p`.
pub open spec fn fresh(s: Seq<u8>, p: int, q: int) -> bool {
    run(s, p, q, Class::Text) < q || (0 < p && line_break(s[p - 1]))
}

pub fn is_fresh(s: &[u8], p: usize, q: usize) -> (r: bool)
    requires
        p <= q <= s@.len(),
    ensures
        r == fresh(s@, p as int, q as int),
{
    scan(s, p, q, Class::Text) < q || (0 < p && is_break(s[p - 1]))
}

/// Whether `p` is the end of the text or at white space.
pub open spec fn ended(s: Seq<u8>, p: int) -> bool {
    p >= s.len() || blank(s[p]) || line_break(s[p])
}

pub fn is_ended(s: &[u8], p: usize) -> (r: bool)
    ensures
        r == ended(s@, p as int),
{
    p >= s.len() || is_blank(s[p]) || is_break(s[p])
}

/// Whether three `b` form a marker line of their own at `p`.
pub open spec fn triple(s: Seq<u8>, p: int, b: u8) -> bool {
    &&& 0 <= p && p + 3 <= s.len()
    &&& s[p] == b && s[p + 1] == b && s[p + 2] == b
    &&& p == 0 || s[p - 1] == NL || (p == 3 && has_bom(s))
    &&& ended(s, p + 3)
}

pub fn is_triple(s: &[u8], p: usize, b: u8) -> (r: bool)
    requires
        p <= s@.len(),
    ensures
        r == triple(s@, p as int, b),
{
    s.len() - p >= 3 && s[p] == b && s[p + 1] == b && s[p + 2] == b && (p == 0 || s[p - 1] == NL || (
    p == 3 && starts_with_bom(s))) && is_ended(s, p + 3)
}

/// Whether a document marker (`---` or `...`) stands at `p`.
pub open spec fn marker(s: Seq<u8>, p: int) -> bool {
    triple(s, p, DASH) || triple(s, p, DOT)
}

pub fn is_marker(s: &[u8], p: usize) -> (r: bool)
    requires
        p <= s@.len(),
    ensures
        r == marker(s@, p as int),
{
    is_triple(s, p, DASH) || is_triple(s, p, DOT)
}

/// Whether the indicator `b` stands at `p`, set off by white space.
pub open spec fn indicator(s: Seq<u8>, p: int, b: u8) -> bool {
    0 <= p < s.len() && s[p] == b && ended(s, p + 1)
}

pub fn is_indicator(s: &[u8], p: usize, b: u8) -> (r: bool)
    requires
        p <= s@.len(),
    ensures
        r == indicator(s@, p as int, b),
{
    p < s.len() && s[p] == b && is_ended(s, p + 1)
}

/// Whether a plain scalar can start at `p`.
pub open spec fn plain_start(s: Seq<u8>, p: int, flow: bool) -> bool {
    &&& 0 <= p < s.len()
    &&& !line_break(s[p])
    &&& !opening_indicator(s[p]) || ((s[p] == DASH || s[p] == QUESTION || s[p] == COLON) && !ended(
        s,
        p + 1,
    ) && !(flow && flow_indicator(s[p + 1])))
}

pub fn is_plain_start(s: &[u8], p: usize, flow: bool) -> (r: bool)
    requires
        p <= s@.len(),
    ensures
        r == plain_start(s@, p as int, flow),
{
    if p >= s.len() {
        return false;
    }
    let b: u8 = s[p];
    if is_break(b) {
        return false;
    }
    if b == DASH || b == QUESTION || b == COLON {
        return !is_ended(s, p + 1) && !(flow && is_flow_indicator(s[p + 1]));
    }
    !(b == COMMA || b == LBRACKET || b == RBRACKET || b == LBRACE || b == RBRACE || b == HASH || b
        == AMP || b == STAR || b == BANG || b == PIPE || b == GREATER || b == SQUOTE || b == DQUOTE
        || b == PERCENT || b == crate::text::AT || b == crate::text::TICK || is_blank(b))
}

/// Where the text of a plain scalar that starts at `lo` stops on its line,
/// looking from `i` on.
pub open spec fn plain_stop(s: Seq<u8>, lo: int, i: int, flow: bool) -> int
    decreases s.len() - i,
{
    if i >= s.len() || line_break(s[i]) {
        i
    } else if s[i] == COLON && (ended(s, i + 1) || (flow && flow_indicator(s[i + 1]))) {
        i
    } else if s[i] == HASH && lo < i && blank(s[i - 1]) {
        i
    } else if flow && flow_indicator(s[i]) {
        i
    } else {
        plain_stop(s, lo, i + 1, flow)
    }
}

/// End of the text of a plain scalar on the line where it starts.
pub open spec fn plain_line(s: Seq<u8>, p: int, flow: bool) -> int {
    back(s, p, plain_stop(s, p, p, flow), Class::Blank)
}

pub fn end_of_plain_line(s: &[u8], p: usize, flow: bool) -> (r: usize)
    requires
        p <= s@.len(),
    ensures
        r == plain_line(s@, p as int, flow),
        p <= r <= s@.len(),
{
    let mut i: usize = p;
    while i < s.len() && !is_break(s[i]) && !(s[i] == COLON && (is_ended(s, i + 1) || (flow
        && is_flow_indicator(s[i + 1])))) && !(s[i] == HASH && p < i && is_blank(s[i - 1])) && !(flow
        && is_flow_indicator(s[i]))
        invariant
            p <= i <= s@.len(),
            plain_stop(s@, p as int, i as int, flow) == plain_stop(s@, p as int, p as int, flow),
        decreases s@.len() - i,
    {
        i += 1;
    }
    scan_back(s, p, i, Class::Blank)
}

/// End of a plain scalar whose text so far ends at `e`, once the lines that
/// continue it are taken in.
pub open spec fn plain_more(s: Seq<u8>, e: int, least: int, base: int, flow: bool) -> int
    decreases s.len() - e,
{
    let n = s.len() as int;
    let w = run(s, e, n, Class::Blank);
    let q = run(s, w, n, Class::White);
    let f = plain_line(s, q, flow);
    if w < n && line_break(s[w]) && q < n && !marker(s, q) && s[q] != HASH && (flow || column(
        s,
        q,
        base,
    ) >= least) && e < f <= n && q < f {
        plain_more(s, f, least, base, flow)
    } else {
        e
    }
}

/// End of the plain scalar that starts at `p`.
pub open spec fn plain_end(s: Seq<u8>, p: int, least: int, base: int, flow: bool) -> int {
    plain_more(s, plain_line(s, p, flow), least, base, flow)
}

pub fn end_of_plain(s: &[u8], p: usize, least: usize, base: usize, flow: bool) -> (r: usize)
    requires
        p <= s@.len(),
        fits(s@, base as int),
    ensures
        r == plain_end(s@, p as int, least as int, base as int, flow),
        p <= r <= s@.len(),
{
    let n: usize = s.len();
    let mut e: usize = end_of_plain_line(s, p, flow);
    loop
        invariant
            p <= e <= n,
            n == s@.len(),
            fits(s@, base as int),
            plain_more(s@, e as int, least as int, base as int, flow) == plain_end(
                s@,
                p as int,
                least as int,
                base as int,
                flow,
            ),
        decreases n - e,
    {
        let w: usize = scan(s, e, n, Class::Blank);
        if w >= n || !is_break(s[w]) {
            return e;
        }
        let q: usize = scan(s, w, n, Class::White);
        if q >= n || is_marker(s, q) || s[q] == HASH {
            return e;
        }
        if !flow {
            let c: usize = column_of(s, q, base);
            if c < least {
                return e;
            }
        }
        let f: usize = end_of_plain_line(s, q, flow);
        if f <= q {
            return e;
        }
        e = f;
    }
}

/// End of the one-line scalar or alias that starts at `p`, for use as a key.
pub open spec fn key_end(s: Seq<u8>, p: int) -> Option<int> {
    if !(0 <= p < s.len()) {
        None
    } else if s[p] == DQUOTE {
        double_end(s, p + 1)
    } else if s[p] == SQUOTE {
        single_end(s, p + 1)
    } else if s[p] == STAR {
        Some(run(s, p + 1, s.len() as int, Class::Name))
    } else if plain_start(s, p, false) {
        Some(plain_line(s, p, false))
    } else {
        None
    }
}

pub fn end_of_key(s: &[u8], p: usize) -> (r: Option<usize>)
    requires
        p <= s@.len(),
    ensures
        match key_end(s@, p as int) {
            Some(e) => r == Some(e as usize) && p <= e <= s@.len(),
            None => r is None,
        },
{
    if p >= s.len() {
        None
    } else if s[p] == DQUOTE {
        find_double_end(s, p + 1)
    } else if s[p] == SQUOTE {
        find_single_end(s, p + 1)
    } else if s[p] == STAR {
        Some(scan(s, p + 1, s.len(), Class::Name))
    } else if is_plain_start(s, p, false) {
        Some(end_of_plain_line(s, p, false))
    } else {
        None
    }
}

/// The kind of the scalar token that starts with `b`.
pub open spec fn scalar_token(b: u8) -> SyntaxKind {
    if b == DQUOTE {
        SyntaxKind::DoubleQuotedScalar
    } else if b == SQUOTE {
        SyntaxKind::SingleQuotedScalar
    } else if b == STAR {
        SyntaxKind::AliasMark
    } else {
        SyntaxKind::PlainScalar
    }
}

pub fn scalar_token_of(b: u8) -> (r: SyntaxKind)
    ensures
        r == scalar_token(b),
{
    if b == DQUOTE {
        SyntaxKind::DoubleQuotedScalar
    } else if b == SQUOTE {
        SyntaxKind::SingleQuotedScalar
    } else if b == STAR {
        SyntaxKind::AliasMark
    } else {
        SyntaxKind::PlainScalar
    }
}

/// Offset of the `:` that makes the text at `p` an implicit key.
pub open spec fn key_colon(s: Seq<u8>, p: int) -> Option<int> {
    match key_end(s, p) {
        Some(e) => {
            let w = run(s, e, s.len() as int, Class::Blank);
            if p < e && e <= run(s, p, s.len() as int, Class::Text) && indicator(s, w, COLON) {
                Some(w)
            } else {
                None
            }
        },
        None => None,
    }
}

pub fn colon_of_key(s: &[u8], p: usize) -> (r: Option<usize>)
    requires
        p <= s@.len(),
    ensures
        match key_colon(s@, p as int) {
            Some(w) => r == Some(w as usize) && p < w < s@.len() && key_end(s@, p as int) is Some
                && key_end(s@, p as int)->0 <= w,
            None => r is None,
        },
{
    match end_of_key(s, p) {
        Some(e) => {
            let w: usize = scan(s, e, s.len(), Class::Blank);
            if p < e && e <= scan(s, p, s.len(), Class::Text) && is_indicator(s, w, COLON) {
                Some(w)
            } else {
                None
            }
        },
        None => None,
    }
}

/// Whether an anchor or a tag starts at `p`.
pub open spec fn property(s: Seq<u8>, p: int) -> bool {
    0 <= p < s.len() && (s[p] == AMP || s[p] == BANG)
}

pub fn is_property(s: &[u8], p: usize) -> (r: bool)
    ensures
        r == property(s@, p as int),
{
    p < s.len() && (s[p] == AMP || s[p] == BANG)
}

/// The kind of the property that starts with `b`.
pub open spec fn property_token(b: u8) -> SyntaxKind {
    if b == AMP {
        SyntaxKind::AnchorMark
    } else {
        SyntaxKind::TagMark
    }
}

/// The anchors and tags that stand at `p` on one line, as tokens, and the end
/// of the last of them.
pub open spec fn with_properties(s: Seq<u8>, p: int, acc: Seq<Elem>) -> (Seq<Elem>, int)
    decreases s.len() - p,
{
    let n = s.len() as int;
    let e = run(s, p + 1, n, Class::Name);
    let w = run(s, e, n, Class::Blank);
    if !property(s, p) {
        (acc, p)
    } else if property(s, w) && p < w {
        with_properties(s, w, with_blanks(acc.push(token(property_token(s[p]), p, e)), e, w))
    } else {
        (acc.push(token(property_token(s[p]), p, e)), e)
    }
}

pub fn push_properties(s: &[u8], p: usize, out: &mut Vec<Elem>) -> (r: usize)
    requires
        p <= s@.len(),
    ensures
        (final(out)@, r as int) == with_properties(s@, p as int, old(out)@),
        p <= r <= s@.len(),
{
    let n: usize = s.len();
    let mut i: usize = p;
    while is_property(s, i)
        invariant
            p <= i <= n,
            n == s@.len(),
            with_properties(s@, i as int, out@) == with_properties(s@, p as int, old(out)@),
        decreases n - i,
    {
        let e: usize = scan(s, i + 1, n, Class::Name);
        let w: usize = scan(s, e, n, Class::Blank);
        let kind: SyntaxKind = if s[i] == AMP {
            SyntaxKind::AnchorMark
        } else {
            SyntaxKind::TagMark
        };
        push_token(out, kind, i, e);
        if !is_property(s, w) {
            return e;
        }
        push_blanks(out, e, w);
        i = w;
    }
    i
}

/// Offset of what follows the anchors and tags at `p` on their line.
pub open spec fn past_marks(s: Seq<u8>, p: int) -> int
    decreases s.len() - p,
{
    let n = s.len() as int;
    let w = run(s, run(s, p + 1, n, Class::Name), n, Class::Blank);
    if property(s, p) && p < w <= n {
        past_marks(s, w)
    } else {
        p
    }
}

pub fn end_of_marks(s: &[u8], p: usize) -> (r: usize)
    requires
        p <= s@.len(),
    ensures
        r == past_marks(s@, p as int),
        p <= r <= s@.len(),
{
    let n: usize = s.len();
    let mut i: usize = p;
    while is_property(s, i)
        invariant
            p <= i <= n,
            n == s@.len(),
            past_marks(s@, i as int) == past_marks(s@, p as int),
        decreases n - i,
    {
        let e: usize = scan(s, i + 1, n, Class::Name);
        i = scan(s, e, n, Class::Blank);
    }
    i
}

/// Whether a block mapping entry starts at `p`.
pub open spec fn entry_start(s: Seq<u8>, p: int) -> bool {
    indicator(s, p, QUESTION) || indicator(s, p, COLON) || key_colon(s, past_marks(s, p)) is Some
}

pub fn is_entry_start(s: &[u8], p: usize) -> (r: bool)
    requires
        p <= s@.len(),
    ensures
        r == entry_start(s@, p as int),
{
    if is_indicator(s, p, QUESTION) || is_indicator(s, p, COLON) {
        return true;
    }
    let w: usize = end_of_marks(s, p);
    colon_of_key(s, w).is_some()
}

} // verus!
