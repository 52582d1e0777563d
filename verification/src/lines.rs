//! Lines, columns and indentation.
use crate::text::{append_spaces, back, is_break, line_break, run, scan, scan_back, spaces, Class, AMP, BANG, CR, GREATER, HASH, NL, PIPE, PLUS, TAB};
use vstd::prelude::*;

verus! {

/// Offset of the first byte of the line that holds `pos`.
pub open spec fn line_start(s: Seq<u8>, pos: int) -> int {
    back(s, 0, if pos < s.len() { pos } else { s.len() as int }, Class::Line)
}

/// Offset just past the line break that ends the line holding `pos`, or the
/// end of the text.
pub open spec fn line_end(s: Seq<u8>, pos: int) -> int {
    let e = run(s, pos, s.len() as int, Class::Line);
    if e < s.len() {
        e + 1
    } else {
        e
    }
}

/// Offset of the first byte of the line that holds `pos`.
pub fn start_of_line(s: &[u8], pos: usize) -> (r: usize)
    ensures
        r == line_start(s@, pos as int),
        r <= pos,
        r <= s@.len(),
{
    let p: usize = if pos < s.len() { pos } else { s.len() };
    scan_back(s, 0, p, Class::Line)
}

/// Offset just past the line break that ends the line holding `pos`.
pub fn end_of_line(s: &[u8], pos: usize) -> (r: usize)
    requires
        pos <= s@.len(),
    ensures
        r == line_end(s@, pos as int),
        pos <= r <= s@.len(),
{
    let e: usize = scan(s, pos, s.len(), Class::Line);
    if e < s.len() {
        e + 1
    } else {
        e
    }
}

/// Column of the first byte that is neither a space nor a tab on the line
/// that holds `pos`.
pub open spec fn indent_column(s: Seq<u8>, pos: int) -> int {
    run(s, line_start(s, pos), s.len() as int, Class::Blank) - line_start(s, pos)
}

/// Column of the first byte that is neither a space nor a tab on the line
/// that holds `pos`.
pub fn entry_indent_column(s: &[u8], pos: usize) -> (r: usize)
    ensures
        r == indent_column(s@, pos as int),
        r <= s@.len(),
{
    let ls: usize = start_of_line(s, pos);
    let e: usize = scan(s, ls, s.len(), Class::Blank);
    e - ls
}

/// Where the white space ending `start..end` begins.
pub open spec fn trimmed(s: Seq<u8>, start: int, end: int) -> int {
    back(s, start, end, Class::White)
}

/// `start..end` without its trailing white space.
pub fn trim_trailing_blank(s: &[u8], start: usize, end: usize) -> (r: (usize, usize))
    requires
        end <= s@.len(),
    ensures
        r.0 == start,
        r.1 == (if start <= end { trimmed(s@, start as int, end as int) } else { end as int }),
        r.1 <= end,
        start <= end ==> start <= r.1,
{
    if start <= end {
        (start, scan_back(s, start, end, Class::White))
    } else {
        (start, end)
    }
}

/// Where the content of a value begins once the anchors, tags and blanks that
/// open `start..end` are skipped.
pub open spec fn past_properties(s: Seq<u8>, start: int, end: int) -> int
    decreases end - start,
{
    let p = run(s, start, end, Class::Blank);
    if start <= p < end && (s[p] == AMP || s[p] == BANG) {
        let q = run(s, p + 1, end, Class::Word);
        if p < q <= end {
            past_properties(s, q, end)
        } else {
            p
        }
    } else {
        p
    }
}

/// Skips the anchors, tags and blanks that open `start..end`.
pub fn skip_value_property_prefix(s: &[u8], start: usize, end: usize) -> (r: usize)
    requires
        start <= end <= s@.len(),
    ensures
        r == past_properties(s@, start as int, end as int),
        start <= r <= end,
{
    let mut p: usize = start;
    loop
        invariant
            start <= p <= end <= s@.len(),
            past_properties(s@, p as int, end as int) == past_properties(s@, start as int, end as int),
        decreases end - p,
    {
        let q: usize = scan(s, p, end, Class::Blank);
        if q < end && (s[q] == AMP || s[q] == BANG) {
            let w: usize = scan(s, q + 1, end, Class::Word);
            p = w;
        } else {
            return q;
        }
    }
}

/// Whether `start..end` is a block scalar whose header asks for its trailing
/// line breaks to be kept.
pub open spec fn keep_chomped(s: Seq<u8>, start: int, end: int) -> bool {
    let p = past_properties(s, start, end);
    let k = run(s, p + 1, end, Class::Unkept);
    p < end && (s[p] == PIPE || s[p] == GREATER) && k < end && s[k] == PLUS
}

/// Whether `start..end` is a block scalar that keeps its trailing line breaks.
pub fn is_keep_chomped_block_scalar(s: &[u8], start: usize, end: usize) -> (r: bool)
    requires
        start <= end <= s@.len(),
    ensures
        r == keep_chomped(s@, start as int, end as int),
{
    let p: usize = skip_value_property_prefix(s, start, end);
    if p >= end || (s[p] != PIPE && s[p] != GREATER) {
        return false;
    }
    let k: usize = scan(s, p + 1, end, Class::Unkept);
    k < end && s[k] == PLUS
}

/// End of a value span once separating white space is trimmed; white space
/// that a keep-chomped scalar owns is content and stays.
pub open spec fn value_end(s: Seq<u8>, start: int, end: int) -> int {
    if keep_chomped(s, start, end) {
        end
    } else {
        trimmed(s, start, end)
    }
}

/// A value span without the separating white space that follows it.
pub fn trim_value_span(s: &[u8], start: usize, end: usize) -> (r: (usize, usize))
    requires
        start <= end <= s@.len(),
    ensures
        r.0 == start,
        r.1 == value_end(s@, start as int, end as int),
        start <= r.1 <= end,
{
    if is_keep_chomped_block_scalar(s, start, end) {
        (start, end)
    } else {
        trim_trailing_blank(s, start, end)
    }
}

/// `start`, moved back over the indentation before it when nothing else
/// precedes it on its line.
pub open spec fn with_indent(s: Seq<u8>, start: int) -> int {
    let i = back(s, 0, start, Class::Blank);
    if i == 0 || line_break(s[i - 1]) {
        i
    } else {
        start
    }
}

/// Moves `start` back over the indentation of a value that begins its line.
pub fn extend_to_line_start(s: &[u8], start: usize) -> (r: usize)
    requires
        start <= s@.len(),
    ensures
        r == with_indent(s@, start as int),
        r <= start,
{
    let i: usize = scan_back(s, 0, start, Class::Blank);
    if i == 0 || is_break(s[i - 1]) {
        i
    } else {
        start
    }
}

/// Where the line after a text that ends at `e` starts.
pub open spec fn after_line(s: Seq<u8>, e: int) -> int {
    if e > 0 && s[e - 1] == NL {
        e
    } else {
        line_end(s, e)
    }
}

/// Where the line after a text that ends at `e` starts.
pub fn start_after_line(s: &[u8], e: usize) -> (r: usize)
    requires
        e <= s@.len(),
    ensures
        r == after_line(s@, e as int),
        e <= r <= s@.len(),
{
    if e > 0 && s[e - 1] == NL {
        e
    } else {
        end_of_line(s, e)
    }
}

/// Whether `pos` lies before the end of its line.
pub open spec fn text_follows(s: Seq<u8>, pos: int) -> bool {
    pos < s.len() && !line_break(s[pos])
}

/// Whether `pos` lies before the end of its line.
pub fn is_followed(s: &[u8], pos: usize) -> (r: bool)
    ensures
        r == text_follows(s@, pos as int),
{
    pos < s.len() && !is_break(s[pos])
}

/// Whether text spliced in at `pos` has to open with a line break of its own.
pub open spec fn needs_break(s: Seq<u8>, pos: int) -> bool {
    !(pos == 0 || s[pos - 1] == NL)
}

/// Whether text spliced in at `pos` has to open with a line break of its own.
pub fn leading_break_for_splice(s: &[u8], pos: usize) -> (r: bool)
    requires
        pos <= s@.len(),
    ensures
        r == needs_break(s@, pos as int),
{
    !(pos == 0 || s[pos - 1] == NL)
}

/// Start of the run of comment lines that ends where the line at `start`
/// begins: each is a full line whose `#` stands in column `indent`.
pub open spec fn head_comments(s: Seq<u8>, start: int, indent: int) -> int
    decreases start,
{
    if start <= 0 {
        start
    } else {
        let prev = line_start(s, start - 1);
        let stop = back(s, prev, start - 1, Class::Return);
        let hash = run(s, prev, stop, Class::Blank);
        if 0 <= prev < start && hash < stop && s[hash] == HASH && hash - prev == indent {
            head_comments(s, prev, indent)
        } else {
            start
        }
    }
}

/// Moves `start` up over the comment lines that belong to the entry there.
pub fn absorb_head_comments(s: &[u8], start: usize, indent: usize) -> (r: usize)
    requires
        start <= s@.len(),
    ensures
        r == head_comments(s@, start as int, indent as int),
        r <= start,
{
    let mut at: usize = start;
    while at > 0
        invariant
            at <= start <= s@.len(),
            head_comments(s@, at as int, indent as int) == head_comments(
                s@,
                start as int,
                indent as int,
            ),
        decreases at,
    {
        let prev: usize = start_of_line(s, at - 1);
        let stop: usize = scan_back(s, prev, at - 1, Class::Return);
        let hash: usize = scan(s, prev, stop, Class::Blank);
        if hash < stop && s[hash] == HASH && hash - prev == indent {
            at = prev;
        } else {
            return at;
        }
    }
    at
}

/// Whether `line..end` holds nothing but blanks and then a comment.
pub open spec fn comment_line(s: Seq<u8>, line: int, end: int) -> bool {
    let k = run(s, line, end, Class::White);
    k < end && s[k] == HASH
}

/// End of the content that a value owns: separating white space and comment
/// lines after its last content line do not belong to it.
pub open spec fn content_end(s: Seq<u8>, value: int, end: int) -> int
    decreases end - value,
{
    let e = back(s, value, end, Class::White);
    let line = line_start(s, e);
    if line <= value || !comment_line(s, line, e) || line >= end {
        e
    } else {
        content_end(s, value, line)
    }
}

/// End of the text that an entry's value owns.
pub open spec fn owned_end(s: Seq<u8>, value: int, end: int) -> int {
    if keep_chomped(s, value, end) {
        end
    } else {
        content_end(s, value, end)
    }
}

/// End of the text that an entry's value owns.
pub fn owned_value_end(s: &[u8], value: usize, raw_end: usize) -> (r: usize)
    requires
        value <= raw_end <= s@.len(),
    ensures
        r == owned_end(s@, value as int, raw_end as int),
        value <= r <= raw_end,
{
    if is_keep_chomped_block_scalar(s, value, raw_end) {
        return raw_end;
    }
    let mut end: usize = raw_end;
    loop
        invariant
            value <= end <= raw_end <= s@.len(),
            !keep_chomped(s@, value as int, raw_end as int),
            content_end(s@, value as int, end as int) == content_end(
                s@,
                value as int,
                raw_end as int,
            ),
        decreases end,
    {
        let e: usize = scan_back(s, value, end, Class::White);
        let line: usize = start_of_line(s, e);
        if line <= value || line >= end {
            return e;
        }
        let k: usize = scan(s, line, e, Class::White);
        if !(k < e && s[k] == HASH) {
            return e;
        }
        end = line;
    }
}

/// The whole lines that an entry owns, as `start..end`.
pub open spec fn owned_lines(s: Seq<u8>, entry: int, value: int, raw_end: int) -> (int, int) {
    let ve = owned_end(s, value, raw_end);
    (
        head_comments(s, line_start(s, entry), indent_column(s, entry)),
        if ve > 0 && s[ve - 1] == NL {
            ve
        } else {
            line_end(s, ve)
        },
    )
}

/// Whether `start..end` holds a line feed anywhere but at its very end.
pub open spec fn spans_lines(s: Seq<u8>, start: int, end: int) -> bool {
    exists|k: int| start <= k < end - 1 && #[trigger] s[k] == NL
}

/// The whole lines that an entry owns, and whether they are more than one.
pub fn owned_entry_range(s: &[u8], entry: usize, value: usize, raw_end: usize) -> (r: (
    usize,
    usize,
    bool,
))
    requires
        entry <= s@.len(),
        value <= raw_end <= s@.len(),
    ensures
        (r.0 as int, r.1 as int) == owned_lines(
            s@,
            entry as int,
            value as int,
            raw_end as int,
        ),
        r.0 <= entry,
        value <= r.1 <= s@.len(),
        r.2 == spans_lines(s@, r.0 as int, r.1 as int),
{
    let ve: usize = owned_value_end(s, value, raw_end);
    let end: usize = if ve > 0 && s[ve - 1] == NL {
        ve
    } else {
        end_of_line(s, ve)
    };
    let first: usize = start_of_line(s, entry);
    let indent: usize = entry_indent_column(s, entry);
    let start: usize = absorb_head_comments(s, first, indent);
    let mut k: usize = start;
    let mut multi: bool = false;
    while k < end && k < end - 1
        invariant_except_break
            !multi,
            forall|m: int| start <= m < k ==> s@[m] != NL,
        invariant
            start <= s@.len(),
            start <= k,
            end <= s@.len(),
        ensures
            multi == spans_lines(s@, start as int, end as int),
        decreases end - k,
    {
        if s[k] == NL {
            multi = true;
            break ;
        }
        k += 1;
    }
    (start, end, multi)
}

/// The smaller of a step and the smallest step seen so far.
pub open spec fn least(step: int, seen: Option<int>) -> int {
    match seen {
        Some(m) => if m < step {
            m
        } else {
            step
        },
        None => step,
    }
}

/// The indentation step of the lines from `i` on, given the indent of the
/// content line before them and the smallest step found so far. Blank lines,
/// comment lines and lines indented with a tab do not take part.
pub open spec fn indent_step(
    s: Seq<u8>,
    i: int,
    prev: Option<int>,
    seen: Option<int>,
) -> int
    decreases s.len() - i,
{
    let e = run(s, i, s.len() as int, Class::Line);
    let next = line_end(s, i);
    if i >= s.len() || next <= i || next > s.len() {
        match seen {
            Some(m) => m,
            None => 2,
        }
    } else {
        let stop = if e < s.len() && i < e && s[e - 1] == CR {
            e - 1
        } else {
            e
        };
        let k = run(s, i, stop, Class::Space);
        if k >= stop || s[k] == TAB || s[k] == HASH {
            indent_step(s, next, prev, seen)
        } else {
            let now = match prev {
                Some(p) if k - i > p => Some(least(k - i - p, seen)),
                _ => seen,
            };
            indent_step(s, next, Some(k - i), now)
        }
    }
}

/// The indentations of the content lines of `s[i..]`, in their order.
pub open spec fn content_indents(s: Seq<u8>, i: int) -> Seq<int>
    decreases s.len() - i,
{
    let e = run(s, i, s.len() as int, Class::Line);
    let next = line_end(s, i);
    if i >= s.len() || next <= i || next > s.len() {
        Seq::empty()
    } else {
        let stop = if e < s.len() && i < e && s[e - 1] == CR {
            e - 1
        } else {
            e
        };
        let k = run(s, i, stop, Class::Space);
        if k >= stop || s[k] == TAB || s[k] == HASH {
            content_indents(s, next)
        } else {
            seq![k - i] + content_indents(s, next)
        }
    }
}

/// Whether a list of indentations increases from place `k` to the next.
pub open spec fn increases(c: Seq<int>, k: int) -> bool {
    0 <= k && k + 1 < c.len() && c[k] < c[k + 1]
}

/// Whether `r` is the smallest increase between consecutive indentations and
/// `seen`, and 2 where there is neither.
pub open spec fn smallest_increase(c: Seq<int>, seen: Option<int>, r: int) -> bool {
    &&& forall|k: int| #[trigger] increases(c, k) ==> r <= c[k + 1] - c[k]
    &&& seen matches Some(m) ==> r <= m
    &&& seen == Some(r) || (exists|k: int| #[trigger] increases(c, k) && r == c[k + 1] - c[k]) || (
    seen is None && r == 2 && forall|k: int| !#[trigger] increases(c, k))
}

proof fn step_is_smallest_from(s: Seq<u8>, i: int, prev: Option<int>, seen: Option<int>)
    ensures
        smallest_increase(
            match prev {
                Some(p) => seq![p] + content_indents(s, i),
                None => content_indents(s, i),
            },
            seen,
            indent_step(s, i, prev, seen),
        ),
    decreases s.len() - i,
{
    let c = match prev {
        Some(p) => seq![p] + content_indents(s, i),
        None => content_indents(s, i),
    };
    let r = indent_step(s, i, prev, seen);
    let e = run(s, i, s.len() as int, Class::Line);
    let next = line_end(s, i);
    if !(i >= s.len() || next <= i || next > s.len()) {
        let stop = if e < s.len() && i < e && s[e - 1] == CR {
            e - 1
        } else {
            e
        };
        let k = run(s, i, stop, Class::Space);
        if k >= stop || s[k] == TAB || s[k] == HASH {
            step_is_smallest_from(s, next, prev, seen);
            assert(content_indents(s, i) == content_indents(s, next));
        } else {
            let now = match prev {
                Some(p) if k - i > p => Some(least(k - i - p, seen)),
                _ => seen,
            };
            step_is_smallest_from(s, next, Some(k - i), now);
            let rest = seq![k - i] + content_indents(s, next);
            assert(smallest_increase(rest, now, r));
            if let Some(p) = prev {
                assert(c =~= seq![p] + rest);
                assert forall|j: int| #[trigger] increases(c, j) implies r <= c[j + 1] - c[j] by {
                    if j > 0 {
                        assert(increases(rest, j - 1));
                    }
                }
                if k - i > p {
                    assert(increases(c, 0));
                }
                if exists|j: int| #[trigger] increases(rest, j) && r == rest[j + 1] - rest[j] {
                    let j = choose|j: int| #[trigger] increases(rest, j) && r == rest[j + 1] - rest[j];
                    assert(increases(c, j + 1));
                } else if now is None {
                    assert forall|j: int| !#[trigger] increases(c, j) by {
                        if j > 0 {
                            assert(!increases(rest, j - 1));
                        }
                    }
                }
            } else {
                assert(c =~= rest);
            }
        }
    }
}

/// The indentation step of a text is the smallest increase in indentation
/// between two consecutive content lines, and 2 when there is none.
pub proof fn indent_steps_are_smallest_increases(s: Seq<u8>)
    ensures
        smallest_increase(content_indents(s, 0), None, indent_step(s, 0, None, None)),
{
    step_is_smallest_from(s, 0, None, None);
}

/// The indentation step a text uses: the smallest increase in indentation
/// between two consecutive content lines, or 2 when there is none.
pub fn detect_indent_unit(s: &[u8]) -> (r: usize)
    ensures
        r == indent_step(s@, 0, None, None),
        r <= s@.len() || r == 2,
{
    let mut i: usize = 0;
    let mut prev: Option<usize> = None;
    let mut seen: Option<usize> = None;
    while i < s.len()
        invariant
            i <= s@.len(),
            prev matches Some(p) ==> p <= s@.len(),
            seen matches Some(m) ==> m <= s@.len(),
            indent_step(
                s@,
                i as int,
                match prev {
                    Some(p) => Some(p as int),
                    None => None,
                },
                match seen {
                    Some(m) => Some(m as int),
                    None => None,
                },
            ) == indent_step(s@, 0, None, None),
        decreases s@.len() - i,
    {
        let e: usize = scan(s, i, s.len(), Class::Line);
        let next: usize = end_of_line(s, i);
        let stop: usize = if e < s.len() && i < e && s[e - 1] == CR {
            e - 1
        } else {
            e
        };
        let k: usize = scan(s, i, stop, Class::Space);
        assert(next > i);
        if !(k >= stop || s[k] == TAB || s[k] == HASH) {
            let column: usize = k - i;
            if let Some(p) = prev {
                if column > p {
                    let step: usize = column - p;
                    seen = match seen {
                        Some(m) => if m < step {
                            Some(m)
                        } else {
                            Some(step)
                        },
                        None => Some(step),
                    };
                }
            }
            prev = Some(column);
        }
        i = next;
    }
    match seen {
        Some(m) => m,
        None => 2,
    }
}

/// `s[i..]` with every non-empty line after the first indented by `indent`
/// spaces, appended to `acc`.
pub open spec fn reindented(s: Seq<u8>, i: int, indent: int, acc: Seq<u8>) -> Seq<u8>
    decreases s.len() - i,
{
    if i >= s.len() {
        acc
    } else if s[i] == NL && i + 1 < s.len() && s[i + 1] != NL {
        reindented(s, i + 1, indent, acc.push(NL) + spaces(indent))
    } else {
        reindented(s, i + 1, indent, acc.push(s[i]))
    }
}

/// Indents every non-empty line after the first by `indent` spaces.
pub fn indent_continuation_lines(s: &[u8], indent: usize) -> (r: Vec<u8>)
    ensures
        r@ == reindented(s@, 0, indent as int, Seq::empty()),
{
    let mut out: Vec<u8> = Vec::new();
    let mut i: usize = 0;
    while i < s.len()
        invariant
            i <= s@.len(),
            reindented(s@, i as int, indent as int, out@) == reindented(
                s@,
                0,
                indent as int,
                Seq::empty(),
            ),
        decreases s@.len() - i,
    {
        out.push(s[i]);
        if s[i] == NL && i + 1 < s.len() && s[i + 1] != NL {
            append_spaces(&mut out, indent);
        }
        i += 1;
    }
    out
}

/// A text without line breaks is left as it is.
pub proof fn reindenting_one_line_changes_nothing(s: Seq<u8>, i: int, indent: int, acc: Seq<u8>)
    requires
        0 <= i <= s.len(),
        !s.contains(NL),
    ensures
        reindented(s, i, indent, acc) == acc + s.subrange(i, s.len() as int),
    decreases s.len() - i,
{
    if i < s.len() {
        assert(s.contains(s[i]));
        reindenting_one_line_changes_nothing(s, i + 1, indent, acc.push(s[i]));
        assert(acc.push(s[i]) + s.subrange(i + 1, s.len() as int) =~= acc + s.subrange(
            i,
            s.len() as int,
        ));
    } else {
        assert(acc + s.subrange(i, s.len() as int) =~= acc);
    }
}

} // verus!
