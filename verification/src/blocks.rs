//! What block scalars denote.
use crate::decode::{
    asked_indent, block_indent, block_lines, block_start, block_text, chomping, feeds,
    first_indent, indent_base, separator, Chomp, Joint,
};
use crate::lines::line_start;
use crate::scalar::{block_body, block_literal, block_literal_safe, control, padded};
use crate::text::{
    blank, in_class, run, run_is_maximal, spaces, Class, CR, DASH, GREATER, NL, PIPE, PLUS, SPACE,
    TAB,
};
use vstd::prelude::*;

verus! {

/// Whether a line starts at `i`.
pub open spec fn starts_line(b: Seq<u8>, i: int) -> bool {
    0 <= i < b.len() && (i == 0 || b[i - 1] == NL)
}

/// Whether a text can be laid out in lines that are all indented alike: no line
/// starts with a blank, the last one is not empty, and there is no carriage
/// return.
pub open spec fn in_lines(b: Seq<u8>) -> bool {
    &&& b.len() > 0
    &&& b[b.len() - 1] != NL
    &&& forall|i: int| 0 <= i < b.len() ==> #[trigger] b[i] != CR
    &&& forall|i: int| #[trigger] starts_line(b, i) ==> !blank(b[i])
}

/// A block scalar with the given first line whose content is `b`, every line of
/// it indented by `pad` spaces.
pub open spec fn laid_out(head: Seq<u8>, b: Seq<u8>, pad: int) -> Seq<u8> {
    padded(b, 0, pad, head + spaces(pad))
}

/// End of the line of `b` that starts at `i`.
spec fn stop(b: Seq<u8>, i: int) -> int {
    run(b, i, b.len() as int, Class::Line)
}

/// What is in front is kept.
pub(crate) proof fn padding_appends(b: Seq<u8>, i: int, pad: int, acc: Seq<u8>)
    ensures
        padded(b, i, pad, acc) == acc + padded(b, i, pad, Seq::empty()),
    decreases b.len() - i,
{
    if i >= b.len() {
        assert(acc + Seq::<u8>::empty() =~= acc);
    } else if b[i] == NL {
        let one = Seq::<u8>::empty().push(NL) + spaces(pad);
        padding_appends(b, i + 1, pad, acc.push(NL) + spaces(pad));
        padding_appends(b, i + 1, pad, one);
        assert((acc.push(NL) + spaces(pad)) + padded(b, i + 1, pad, Seq::empty()) =~= acc + (one
            + padded(b, i + 1, pad, Seq::empty())));
    } else {
        let one = Seq::<u8>::empty().push(b[i]);
        padding_appends(b, i + 1, pad, acc.push(b[i]));
        padding_appends(b, i + 1, pad, one);
        assert(acc.push(b[i]) + padded(b, i + 1, pad, Seq::empty()) =~= acc + (one + padded(
            b,
            i + 1,
            pad,
            Seq::empty(),
        )));
    }
}

/// One line of a text is laid out as it is.
proof fn padding_takes_a_line(b: Seq<u8>, i: int, pad: int, acc: Seq<u8>)
    requires
        0 <= i <= b.len(),
    ensures
        i <= stop(b, i) <= b.len(),
        stop(b, i) < b.len() ==> b[stop(b, i)] == NL,
        forall|k: int| i <= k < stop(b, i) ==> #[trigger] b[k] != NL,
        padded(b, i, pad, acc) == if stop(b, i) < b.len() {
            padded(
                b,
                stop(b, i) + 1,
                pad,
                acc + b.subrange(i, stop(b, i)) + seq![NL] + spaces(pad),
            )
        } else {
            acc + b.subrange(i, b.len() as int)
        },
    decreases b.len() - i,
{
    run_is_maximal(b, i, b.len() as int, Class::Line);
    let e = stop(b, i);
    if i < b.len() && b[i] != NL {
        padding_takes_a_line(b, i + 1, pad, acc.push(b[i]));
        assert(e == stop(b, i + 1));
        assert(acc.push(b[i]) + b.subrange(i + 1, e) =~= acc + b.subrange(i, e));
    } else if i < b.len() {
        assert(e == i);
        assert(acc + b.subrange(i, i) + seq![NL] + spaces(pad) =~= acc.push(NL) + spaces(pad));
    } else {
        assert(acc + b.subrange(i, i) =~= acc);
    }
}

/// A line of a laid-out text, found in it.
proof fn a_line_is_found(f: Seq<u8>, a: Seq<u8>, b: Seq<u8>, i: int, pad: int)
    requires
        in_lines(b),
        0 <= pad,
        starts_line(b, i),
        f == padded(b, i, pad, a + spaces(pad)),
    ensures
        ({
            let e = stop(b, i);
            let p = a.len() as int;
            let n = f.len() as int;
            let q = p + pad + (e - i);
            &&& i <= e <= b.len()
            &&& q <= n
            &&& e < b.len() ==> b[e] == NL && q < n && f[q] == NL && e + 1 < b.len() && f == padded(
                b,
                e + 1,
                pad,
                f.subrange(0, q + 1) + spaces(pad),
            )
            &&& e == b.len() ==> q == n
            &&& run(f, p, n, Class::Line) == q
            &&& run(f, p, q, Class::Space) == p + pad
            &&& f.subrange(p + pad, q) == b.subrange(i, e)
            &&& forall|k: int| p <= k < q ==> #[trigger] f[k] != CR
            &&& q > p + pad ==> !blank(f[p + pad])
        }),
{
    let e = stop(b, i);
    let p = a.len() as int;
    let q = p + pad + (e - i);
    let front = a + spaces(pad) + b.subrange(i, e);
    padding_takes_a_line(b, i, pad, a + spaces(pad));
    if e < b.len() {
        padding_appends(b, e + 1, pad, front + seq![NL] + spaces(pad));
        assert(f.subrange(0, q + 1) =~= front + seq![NL]);
        if e + 1 == b.len() {
            assert(b[b.len() - 1] == NL);
        }
    }
    assert(f.subrange(0, q) =~= front);
    assert forall|k: int| p <= k < q implies #[trigger] f[k] != NL && f[k] != CR && (k < p + pad
        ==> f[k] == SPACE) && (k >= p + pad ==> f[k] == b[i + k - p - pad]) by {
        assert(f[k] == f.subrange(0, q)[k]);
    }
    assert(f.subrange(p + pad, q) =~= b.subrange(i, e));
    runs_over(f, p, f.len() as int, Class::Line, q);
    runs_over(f, p, q, Class::Space, p + pad);
}

/// A run ends where a byte that is not in its class stops it.
proof fn runs_over(s: Seq<u8>, i: int, hi: int, class: Class, e: int)
    requires
        i <= e <= hi,
        forall|k: int| i <= k < e ==> in_class(#[trigger] s[k], class),
        e < hi ==> !in_class(s[e], class),
    ensures
        run(s, i, hi, class) == e,
    decreases e - i,
{
    if i < e {
        runs_over(s, i + 1, hi, class, e);
    }
}

/// The lines of a literal block scalar are its text.
proof fn literal_lines(
    f: Seq<u8>,
    a: Seq<u8>,
    b: Seq<u8>,
    i: int,
    pad: int,
    joint: Joint,
    pending: int,
    acc: Seq<u8>,
)
    requires
        in_lines(b),
        0 <= pad,
        0 <= pending,
        starts_line(b, i),
        f == padded(b, i, pad, a + spaces(pad)),
        joint != Joint::Text,
    ensures
        block_lines(f, a.len() as int, f.len() as int, pad, true, joint, pending, acc) == (
            acc + feeds(pending) + b.subrange(i, b.len() as int),
            Joint::Kept,
            0int,
        ),
    decreases b.len() - i,
{
    a_line_is_found(f, a, b, i, pad);
    let e = stop(b, i);
    let n = b.len() as int;
    let p = a.len() as int;
    let q = p + pad + (e - i);
    let next = f.subrange(0, q + 1);
    let m = f.len() as int;
    if e == i {
        assert(next.len() == q + 1);
        assert(block_lines(f, p, m, pad, true, joint, pending, acc) == block_lines(
            f,
            q + 1,
            m,
            pad,
            true,
            joint,
            pending + 1,
            acc,
        ));
        literal_lines(f, next, b, e + 1, pad, joint, pending + 1, acc);
        assert(acc + feeds(pending + 1) + b.subrange(i + 1, n) =~= acc + feeds(pending)
            + b.subrange(i, n));
    } else {
        let more = acc + separator(joint, Joint::Kept, pending) + f.subrange(p + pad, q);
        if e < n {
            assert(next.len() == q + 1);
            assert(block_lines(f, p, m, pad, true, joint, pending, acc) == block_lines(
                f,
                q + 1,
                m,
                pad,
                true,
                Joint::Kept,
                1,
                more,
            ));
            literal_lines(f, next, b, e + 1, pad, Joint::Kept, 1, more);
            assert(more + feeds(1) + b.subrange(e + 1, n) =~= acc + feeds(pending) + b.subrange(
                i,
                n,
            ));
        } else {
            assert(block_lines(f, q, f.len() as int, pad, true, Joint::Kept, 0, more) == (
                more,
                Joint::Kept,
                0int,
            ));
            assert(more =~= acc + feeds(pending) + b.subrange(i, n));
        }
    }
}

/// The indentation of a laid-out text is the one it was laid out with.
proof fn indent_is_found(f: Seq<u8>, a: Seq<u8>, b: Seq<u8>, i: int, pad: int)
    requires
        in_lines(b),
        0 <= pad,
        starts_line(b, i),
        f == padded(b, i, pad, a + spaces(pad)),
    ensures
        first_indent(f, a.len() as int, f.len() as int) == pad,
    decreases b.len() - i,
{
    a_line_is_found(f, a, b, i, pad);
    let e = stop(b, i);
    if e == i {
        indent_is_found(f, f.subrange(0, a.len() + pad + 1), b, e + 1, pad);
    }
}

/// The header of a laid-out text, found in it.
proof fn header_is_found(head: Seq<u8>, b: Seq<u8>, pad: int)
    requires
        in_lines(b),
        0 <= pad,
        head.len() == 2 || (head.len() == 3 && head[1] == DASH),
        head[0] == PIPE || head[0] == GREATER,
        head[head.len() - 1] == NL,
    ensures
        ({
            let f = laid_out(head, b, pad);
            let n = f.len() as int;
            let h = run(f, 1, n, Class::Word);
            &&& f[0] == head[0]
            &&& h == head.len() - 1
            &&& block_start(f, 0, n) == head.len()
            &&& block_indent(f, 0, n) == pad
            &&& chomping(f, 1, h) == if head.len() == 3 {
                Chomp::Strip
            } else {
                Chomp::Clip
            }
        }),
{
    let f = laid_out(head, b, pad);
    let n = f.len() as int;
    let w = head.len() as int;
    padding_appends(b, 0, pad, head + spaces(pad));
    assert forall|k: int| 0 <= k < w implies #[trigger] f[k] == head[k] by {}
    runs_over(f, 0, n, Class::Line, w - 1);
    runs_over(f, 1, n, Class::Word, w - 1);
    reveal_with_fuel(chomping, 3);
    reveal_with_fuel(asked_indent, 3);
    indent_is_found(f, head, b, 0, pad);
}

/// A literal block scalar denotes its lines, each without the indentation and
/// with every line break between them. With a `-` it ends there; otherwise with
/// one line feed.
pub proof fn literal_blocks_denote_their_lines(b: Seq<u8>, pad: int)
    requires
        in_lines(b),
        0 <= pad,
    ensures
        ({
            let clip = laid_out(seq![PIPE, NL], b, pad);
            let strip = laid_out(seq![PIPE, DASH, NL], b, pad);
            &&& block_text(clip, 0, clip.len() as int) == b.push(NL)
            &&& block_text(strip, 0, strip.len() as int) == b
        }),
{
    let clip = seq![PIPE, NL];
    let strip = seq![PIPE, DASH, NL];
    header_is_found(clip, b, pad);
    header_is_found(strip, b, pad);
    let none = Seq::<u8>::empty();
    literal_lines(laid_out(clip, b, pad), clip, b, 0, pad, Joint::Open, 0, none);
    literal_lines(laid_out(strip, b, pad), strip, b, 0, pad, Joint::Open, 0, none);
    assert(none + feeds(0) + b.subrange(0, b.len() as int) =~= b);
}

/// What is written as a literal block scalar is read back, whatever the column:
/// with all its lines, blank ones among them, and with or without the line feed
/// that ends it. A text that is one line feed and nothing else has no such
/// spelling.
pub proof fn literal_blocks_are_read_back(t: Seq<u8>, column: int)
    requires
        block_literal_safe(t),
        t != seq![NL],
        0 <= column,
    ensures
        block_text(block_literal(t, column), 0, block_literal(t, column).len() as int) == t,
{
    let b = block_body(t);
    if b.len() == 0 {
        assert(t =~= seq![NL]);
    }
    assert forall|i: int| 0 <= i < b.len() implies #[trigger] b[i] != CR by {
        assert(b[i] == t[i]);
        assert(!control(t[i]) || t[i] == NL || t[i] == TAB);
    }
    literal_blocks_denote_their_lines(b, column + 2);
    if b != t {
        assert(b.push(NL) =~= t);
    }
}

/// Number of line feeds in a text.
pub open spec fn feed_count(s: Seq<u8>) -> int
    decreases s.len(),
{
    if s.len() == 0 {
        0
    } else {
        feed_count(s.drop_last()) + if s.last() == NL {
            1int
        } else {
            0int
        }
    }
}

proof fn feed_counts_add(a: Seq<u8>, b: Seq<u8>)
    ensures
        feed_count(a + b) == feed_count(a) + feed_count(b),
    decreases b.len(),
{
    if b.len() == 0 {
        assert(a + b =~= a);
    } else {
        assert((a + b).drop_last() =~= a + b.drop_last());
        feed_counts_add(a, b.drop_last());
    }
}

proof fn feeds_are_counted(n: int)
    requires
        0 <= n,
    ensures
        feed_count(feeds(n)) == n,
    decreases n,
{
    if n > 0 {
        assert(feeds(n).drop_last() =~= feeds(n - 1));
        feeds_are_counted(n - 1);
    }
}

proof fn no_feeds_are_counted(s: Seq<u8>)
    requires
        forall|k: int| 0 <= k < s.len() ==> #[trigger] s[k] != NL,
    ensures
        feed_count(s) == 0,
    decreases s.len(),
{
    if s.len() > 0 {
        no_feeds_are_counted(s.drop_last());
    }
}

/// The content of a literal block scalar keeps every line break it has, however
/// its lines are indented: each is in the text, or comes after its last line.
pub proof fn literal_blocks_keep_every_break(
    s: Seq<u8>,
    i: int,
    hi: int,
    indent: int,
    joint: Joint,
    pending: int,
    acc: Seq<u8>,
)
    requires
        0 <= i <= hi <= s.len(),
        0 <= indent,
        0 <= pending,
        joint != Joint::Text,
    ensures
        ({
            let (text, _, left) = block_lines(s, i, hi, indent, true, joint, pending, acc);
            &&& 0 <= left
            &&& feed_count(text) + left == feed_count(acc) + pending + feed_count(s.subrange(i, hi))
        }),
    decreases hi - i,
{
    let e = run(s, i, hi, Class::Line);
    run_is_maximal(s, i, hi, Class::Line);
    if i < hi {
        let t = if i < e && s[e - 1] == CR {
            e - 1
        } else {
            e
        };
        let k = run(s, i, t, Class::Space);
        let next = if e < hi {
            e + 1
        } else {
            e
        };
        let broken = if e < hi {
            1int
        } else {
            0int
        };
        let line = s.subrange(i, e);
        assert forall|j: int| 0 <= j < line.len() implies #[trigger] line[j] != NL by {
            assert(line[j] == s[i + j]);
        }
        no_feeds_are_counted(line);
        feeds_are_counted(broken);
        feeds_are_counted(pending);
        assert(s.subrange(i, next) =~= line + feeds(broken));
        assert(s.subrange(i, hi) =~= s.subrange(i, next) + s.subrange(next, hi));
        feed_counts_add(line, feeds(broken));
        feed_counts_add(s.subrange(i, next), s.subrange(next, hi));
        if k >= t && t - i <= indent {
            literal_blocks_keep_every_break(s, next, hi, indent, joint, pending + broken, acc);
        } else {
            let from = if i + indent <= t {
                i + indent
            } else {
                t
            };
            let part = s.subrange(from, t);
            assert forall|j: int| 0 <= j < part.len() implies #[trigger] part[j] != NL by {
                assert(part[j] == s[from + j]);
            }
            no_feeds_are_counted(part);
            feed_counts_add(acc, feeds(pending));
            feed_counts_add(acc + feeds(pending), part);
            literal_blocks_keep_every_break(
                s,
                next,
                hi,
                indent,
                Joint::Kept,
                broken,
                acc + separator(joint, Joint::Kept, pending) + part,
            );
        }
    } else {
        assert(s.subrange(i, hi) =~= Seq::empty());
    }
}

/// What `n` line breaks between two lines of a folded text denote.
pub open spec fn fold(n: int) -> Seq<u8> {
    if n == 1 {
        seq![SPACE]
    } else {
        feeds(n - 1)
    }
}

/// Where the line feeds at `i` end.
pub open spec fn past_breaks(b: Seq<u8>, i: int) -> int
    decreases b.len() - i,
{
    if 0 <= i < b.len() && b[i] == NL {
        past_breaks(b, i + 1)
    } else {
        i
    }
}

/// The text `b[i..]` with its line breaks folded: one is a space, and of several
/// in a row the first goes.
pub open spec fn folded_breaks(b: Seq<u8>, i: int) -> Seq<u8>
    decreases b.len() - i,
{
    let j = past_breaks(b, i);
    if i < 0 || i >= b.len() {
        Seq::empty()
    } else if b[i] != NL || j <= i || j > b.len() {
        seq![b[i]] + folded_breaks(b, i + 1)
    } else {
        fold(j - i) + folded_breaks(b, j)
    }
}

proof fn breaks_end(b: Seq<u8>, i: int)
    requires
        0 <= i <= b.len(),
    ensures
        i <= past_breaks(b, i) <= b.len(),
        i < b.len() && b[i] == NL ==> past_breaks(b, i) == past_breaks(b, i + 1) && past_breaks(
            b,
            i,
        ) > i,
    decreases b.len() - i,
{
    if i < b.len() && b[i] == NL {
        breaks_end(b, i + 1);
    }
}

proof fn lines_fold_to_themselves(b: Seq<u8>, i: int, e: int)
    requires
        0 <= i <= e <= b.len(),
        forall|k: int| i <= k < e ==> #[trigger] b[k] != NL,
    ensures
        folded_breaks(b, i) == b.subrange(i, e) + folded_breaks(b, e),
    decreases e - i,
{
    if i < e {
        lines_fold_to_themselves(b, i + 1, e);
        assert(seq![b[i]] + (b.subrange(i + 1, e) + folded_breaks(b, e)) =~= b.subrange(i, e)
            + folded_breaks(b, e));
    } else {
        assert(b.subrange(i, e) + folded_breaks(b, e) =~= folded_breaks(b, e));
    }
}

/// The lines of a folded block scalar, behind one that came before.
proof fn folded_lines(
    f: Seq<u8>,
    a: Seq<u8>,
    b: Seq<u8>,
    i: int,
    pad: int,
    joint: Joint,
    pending: int,
    acc: Seq<u8>,
)
    requires
        in_lines(b),
        0 <= pad,
        starts_line(b, i),
        f == padded(b, i, pad, a + spaces(pad)),
        (joint == Joint::Text && pending >= 1) || (joint == Joint::Open && pending == 0 && b[i]
            != NL),
    ensures
        block_lines(f, a.len() as int, f.len() as int, pad, false, joint, pending, acc) == (
            acc + (if joint == Joint::Open {
                Seq::empty()
            } else {
                fold(pending + past_breaks(b, i) - i)
            }) + folded_breaks(b, past_breaks(b, i)),
            Joint::Text,
            0int,
        ),
    decreases b.len() - i,
{
    a_line_is_found(f, a, b, i, pad);
    breaks_end(b, i);
    let e = stop(b, i);
    let n = b.len() as int;
    let p = a.len() as int;
    let q = p + pad + (e - i);
    let next = f.subrange(0, q + 1);
    if e == i {
        folded_lines(f, next, b, e + 1, pad, joint, pending + 1, acc);
    } else {
        run_is_maximal(b, i, n, Class::Line);
        let front = if joint == Joint::Open {
            Seq::empty()
        } else {
            fold(pending)
        };
        assert(separator(joint, Joint::Text, pending) =~= front);
        let more = acc + separator(joint, Joint::Text, pending) + f.subrange(p + pad, q);
        lines_fold_to_themselves(b, i, e);
        assert(past_breaks(b, i) == i);
        if e < n {
            breaks_end(b, e);
            folded_lines(f, next, b, e + 1, pad, Joint::Text, 1, more);
            let j = past_breaks(b, e + 1);
            assert(folded_breaks(b, e) == fold(j - e) + folded_breaks(b, j));
            assert(more + fold(1 + j - (e + 1)) + folded_breaks(b, j) =~= acc + front
                + folded_breaks(b, i));
        } else {
            assert(block_lines(f, q, f.len() as int, pad, false, Joint::Text, 0, more) == (
                more,
                Joint::Text,
                0int,
            ));
            assert(folded_breaks(b, e) =~= Seq::empty());
            assert(more =~= acc + front + folded_breaks(b, i));
        }
    }
}

/// A folded block scalar denotes its lines, with one line break between two of
/// them read as a space and each further one as a line feed.
pub proof fn folded_blocks_denote_their_lines(b: Seq<u8>, pad: int)
    requires
        in_lines(b),
        b[0] != NL,
        0 <= pad,
    ensures
        ({
            let clip = laid_out(seq![GREATER, NL], b, pad);
            let strip = laid_out(seq![GREATER, DASH, NL], b, pad);
            &&& block_text(clip, 0, clip.len() as int) == folded_breaks(b, 0).push(NL)
            &&& block_text(strip, 0, strip.len() as int) == folded_breaks(b, 0)
        }),
{
    let clip = seq![GREATER, NL];
    let strip = seq![GREATER, DASH, NL];
    header_is_found(clip, b, pad);
    header_is_found(strip, b, pad);
    let none = Seq::<u8>::empty();
    folded_lines(laid_out(clip, b, pad), clip, b, 0, pad, Joint::Open, 0, none);
    folded_lines(laid_out(strip, b, pad), strip, b, 0, pad, Joint::Open, 0, none);
    assert(none + none + folded_breaks(b, 0) =~= folded_breaks(b, 0));
}

/// Line breaks behind a text.
pub open spec fn followed(s: Seq<u8>, n: int) -> Seq<u8> {
    s + feeds(n)
}

proof fn breaks_are_pending(
    s: Seq<u8>,
    hi: int,
    i: int,
    n: int,
    indent: int,
    literal: bool,
    joint: Joint,
    pending: int,
    acc: Seq<u8>,
)
    requires
        0 <= hi <= i <= s.len() == hi + n,
        0 <= n,
        0 <= indent,
        forall|k: int| hi <= k < s.len() ==> #[trigger] s[k] == NL,
    ensures
        block_lines(s, i, hi + n, indent, literal, joint, pending, acc) == (
            acc,
            joint,
            pending + hi + n - i,
        ),
    decreases hi + n - i,
{
    if i < hi + n {
        assert(s[i] == NL);
        breaks_are_pending(s, hi, i + 1, n, indent, literal, joint, pending + 1, acc);
    }
}

proof fn later_breaks_are_pending(
    s: Seq<u8>,
    i: int,
    n: int,
    indent: int,
    literal: bool,
    joint: Joint,
    pending: int,
    acc: Seq<u8>,
)
    requires
        0 <= i <= s.len(),
        0 <= n,
        0 <= indent,
    ensures
        ({
            let hi = s.len() as int;
            let (text, last, left) = block_lines(s, i, hi, indent, literal, joint, pending, acc);
            block_lines(followed(s, n), i, hi + n, indent, literal, joint, pending, acc) == (
                text,
                last,
                left + n,
            )
        }),
    decreases s.len() - i,
{
    let hi = s.len() as int;
    let f = followed(s, n);
    if i == hi {
        breaks_are_pending(f, hi, i, n, indent, literal, joint, pending, acc);
    } else {
        let e = run(s, i, hi, Class::Line);
        run_is_maximal(s, i, hi, Class::Line);
        runs_over(f, i, hi + n, Class::Line, e);
        let t = if i < e && s[e - 1] == CR {
            e - 1
        } else {
            e
        };
        let k = run(s, i, t, Class::Space);
        run_is_maximal(s, i, t, Class::Space);
        runs_over(f, i, t, Class::Space, k);
        let next = if e < hi {
            e + 1
        } else {
            e
        };
        let broken = if e < hi {
            1int
        } else {
            0int
        };
        let from = if i + indent <= t {
            i + indent
        } else {
            t
        };
        let now = if literal || (from < t && blank(s[from])) {
            Joint::Kept
        } else {
            Joint::Text
        };
        let more = acc + separator(joint, now, pending) + s.subrange(from, t);
        assert(f.subrange(from, t) =~= s.subrange(from, t));
        assert(f[i] == s[i]);
        assert(i < e ==> f[e - 1] == s[e - 1]);
        assert(from < t ==> f[from] == s[from]);
        assert(block_lines(s, hi, hi, indent, literal, joint, pending, acc) == (
            acc,
            joint,
            pending,
        ));
        assert(block_lines(s, hi, hi, indent, literal, now, 0, more) == (more, now, 0int));
        if k >= t && t - i <= indent {
            if e < hi {
                later_breaks_are_pending(s, next, n, indent, literal, joint, pending + broken, acc);
            } else if n > 0 {
                breaks_are_pending(f, hi, hi + 1, n, indent, literal, joint, pending + 1, acc);
            } else {
                assert(f =~= s);
            }
        } else {
            if e < hi {
                later_breaks_are_pending(s, next, n, indent, literal, now, broken, more);
            } else if n > 0 {
                breaks_are_pending(f, hi, hi + 1, n, indent, literal, now, 1, more);
            } else {
                assert(f =~= s);
            }
        }
    }
}

proof fn later_breaks_set_no_indent(s: Seq<u8>, i: int, n: int)
    requires
        0 <= i <= s.len(),
        0 <= n,
    ensures
        first_indent(followed(s, n), i, s.len() + n) == first_indent(s, i, s.len() as int),
    decreases s.len() - i,
{
    let hi = s.len() as int;
    let f = followed(s, n);
    if i < hi {
        let e = run(s, i, hi, Class::Line);
        run_is_maximal(s, i, hi, Class::Line);
        runs_over(f, i, hi + n, Class::Line, e);
        let k = run(s, i, e, Class::Space);
        run_is_maximal(s, i, e, Class::Space);
        runs_over(f, i, e, Class::Space, k);
        if !(k < e && s[k] != CR) {
            if e < hi {
                later_breaks_set_no_indent(s, e + 1, n);
            } else if n > 0 {
                breaks_set_no_indent(f, hi + 1, hi);
            }
        }
    } else {
        breaks_set_no_indent(f, i, hi);
    }
}

proof fn breaks_set_no_indent(f: Seq<u8>, i: int, hi: int)
    requires
        0 <= hi <= i,
        forall|k: int| hi <= k < f.len() ==> #[trigger] f[k] == NL,
    ensures
        first_indent(f, i, f.len() as int) == 0,
    decreases f.len() - i,
{
    if i < f.len() {
        assert(f[i] == NL);
        breaks_set_no_indent(f, i + 1, hi);
    }
}

proof fn indicators_are_local(s: Seq<u8>, f: Seq<u8>, i: int, h: int)
    requires
        0 <= i <= h <= s.len() <= f.len(),
        forall|k: int| i <= k < h ==> #[trigger] f[k] == s[k],
    ensures
        chomping(f, i, h) == chomping(s, i, h),
        asked_indent(f, i, h) == asked_indent(s, i, h),
        chomping(s, i, h) == Chomp::Keep ==> exists|k: int| i <= k < h && #[trigger] s[k] == PLUS,
        (exists|k: int| i <= k < h && #[trigger] s[k] == PLUS) && (forall|k: int|
            i <= k < h ==> #[trigger] s[k] != DASH) ==> chomping(s, i, h) == Chomp::Keep,
    decreases h - i,
{
    if i < h {
        assert(f[i] == s[i]);
        indicators_are_local(s, f, i + 1, h);
        if chomping(s, i, h) == Chomp::Keep && s[i] != PLUS {
            let k = choose|k: int| i + 1 <= k < h && #[trigger] s[k] == PLUS;
            assert(i <= k < h && s[k] == PLUS);
        }
    }
}

/// Whether one of the indicators of the block scalar headed at `lo` is `b`.
pub open spec fn indicated(s: Seq<u8>, lo: int, b: u8) -> bool {
    exists|k: int|
        lo < k < s.len() && #[trigger] s[k] == b && forall|j: int|
            lo < j < k ==> in_class(#[trigger] s[j], Class::Word)
}

/// Line breaks at the end of a block scalar are part of its text with a `+`, and
/// change nothing otherwise.
pub proof fn breaks_at_the_end_are_kept_with_a_plus(s: Seq<u8>, lo: int, n: int)
    requires
        0 <= lo < s.len(),
        0 <= n,
        exists|k: int| lo < k < s.len() && #[trigger] s[k] == NL,
    ensures
        ({
            let f = followed(s, n);
            let before = block_text(s, lo, s.len() as int);
            let after = block_text(f, lo, f.len() as int);
            &&& !indicated(s, lo, PLUS) ==> after == before
            &&& indicated(s, lo, PLUS) && !indicated(s, lo, DASH) ==> after == before + feeds(n)
        }),
{
    let f = followed(s, n);
    let hi = s.len() as int;
    let h = run(s, lo + 1, hi, Class::Word);
    let nl = choose|k: int| lo < k < s.len() && #[trigger] s[k] == NL;
    run_is_maximal(s, lo + 1, hi, Class::Word);
    if h > nl {
        assert(in_class(s[nl], Class::Word));
    }
    runs_over(f, lo + 1, hi + n, Class::Word, h);
    let e = run(s, lo, hi, Class::Line);
    run_is_maximal(s, lo, hi, Class::Line);
    if e > nl {
        assert(in_class(s[nl], Class::Line));
    }
    runs_over(f, lo, hi + n, Class::Line, e);
    indicators_are_local(s, f, lo + 1, h);
    later_breaks_set_no_indent(s, e + 1, n);
    if asked_indent(s, lo + 1, h) is Some {
        asked_indents_are_digits(s, lo + 1, h);
        lines_start_alike(s, f, lo);
        indent_bases_are_local(s, f, line_start(s, lo), line_start(s, lo), lo, 0);
    }
    assert(0 <= block_indent(s, lo, hi)) by {
        first_indents_are_counted(s, e + 1, hi);
    }
    later_breaks_are_pending(
        s,
        e + 1,
        n,
        block_indent(s, lo, hi),
        s[lo] != GREATER,
        Joint::Open,
        0,
        Seq::empty(),
    );
    assert forall|b: u8| indicated(s, lo, b) && (b == PLUS || b == DASH) implies exists|k: int|
        lo + 1 <= k < h && #[trigger] s[k] == b by {
        let k = choose|k: int|
            lo < k < s.len() && #[trigger] s[k] == b && forall|j: int|
                lo < j < k ==> in_class(#[trigger] s[j], Class::Word);
        if k >= h {
            assert(k == h);
            assert(in_class(s[h], Class::Word));
        }
    }
    assert forall|k: int| lo + 1 <= k < h implies indicated(s, lo, #[trigger] s[k]) by {}
    let (_, _, left) = block_lines(
        s,
        e + 1,
        hi,
        block_indent(s, lo, hi),
        s[lo] != GREATER,
        Joint::Open,
        0,
        Seq::empty(),
    );
    pending_is_counted(
        s,
        e + 1,
        hi,
        block_indent(s, lo, hi),
        s[lo] != GREATER,
        Joint::Open,
        0,
        Seq::empty(),
    );
    assert(feeds(left + n) =~= feeds(left) + feeds(n));
    let text = block_lines(
        s,
        e + 1,
        hi,
        block_indent(s, lo, hi),
        s[lo] != GREATER,
        Joint::Open,
        0,
        Seq::empty(),
    ).0;
    assert(text + (feeds(left) + feeds(n)) =~= text + feeds(left) + feeds(n));
}

proof fn pending_is_counted(
    s: Seq<u8>,
    i: int,
    hi: int,
    indent: int,
    literal: bool,
    joint: Joint,
    pending: int,
    acc: Seq<u8>,
)
    requires
        0 <= pending,
    ensures
        0 <= block_lines(s, i, hi, indent, literal, joint, pending, acc).2,
    decreases hi - i,
{
    let e = run(s, i, hi, Class::Line);
    let t = if i < e && s[e - 1] == CR {
        e - 1
    } else {
        e
    };
    let k = run(s, i, t, Class::Space);
    let next = if e < hi {
        e + 1
    } else {
        e
    };
    let broken = if e < hi {
        1int
    } else {
        0int
    };
    if i >= hi || next <= i || next > hi {
    } else if k >= t && t - i <= indent {
        pending_is_counted(s, next, hi, indent, literal, joint, pending + broken, acc);
    } else {
        let from = if i + indent <= t {
            i + indent
        } else {
            t
        };
        let now = if literal || (from < t && blank(s[from])) {
            Joint::Kept
        } else {
            Joint::Text
        };
        pending_is_counted(
            s,
            next,
            hi,
            indent,
            literal,
            now,
            broken,
            acc + separator(joint, now, pending) + s.subrange(from, t),
        );
    }
}

proof fn first_indents_are_counted(s: Seq<u8>, i: int, hi: int)
    ensures
        0 <= first_indent(s, i, hi),
    decreases hi - i,
{
    let e = run(s, i, hi, Class::Line);
    if i < hi {
        run_is_maximal(s, i, hi, Class::Line);
        run_is_maximal(s, i, e, Class::Space);
        if i <= e < hi {
            first_indents_are_counted(s, e + 1, hi);
        }
    }
}

proof fn asked_indents_are_digits(s: Seq<u8>, i: int, h: int)
    ensures
        asked_indent(s, i, h) matches Some(d) ==> 0 <= d <= 9,
    decreases h - i,
{
    if i < h {
        asked_indents_are_digits(s, i + 1, h);
    }
}

proof fn lines_start_alike(s: Seq<u8>, f: Seq<u8>, pos: int)
    requires
        0 <= pos <= s.len() <= f.len(),
        forall|k: int| 0 <= k < s.len() ==> #[trigger] f[k] == s[k],
    ensures
        line_start(f, pos) == line_start(s, pos),
        0 <= line_start(s, pos) <= pos,
    decreases pos,
{
    if pos > 0 {
        lines_start_alike(s, f, pos - 1);
    }
}

proof fn indent_bases_are_local(s: Seq<u8>, f: Seq<u8>, line: int, i: int, pos: int, base: int)
    requires
        0 <= line <= i,
        0 <= base,
        pos <= s.len() <= f.len(),
        forall|k: int| 0 <= k < s.len() ==> #[trigger] f[k] == s[k],
    ensures
        indent_base(f, line, i, pos, base) == indent_base(s, line, i, pos, base),
        0 <= indent_base(s, line, i, pos, base),
    decreases pos - i,
{
    if i <= pos {
        let k = run(s, i, pos, Class::Blank);
        run_is_maximal(s, i, pos, Class::Blank);
        runs_over(f, i, pos, Class::Blank, k);
        if k < pos && s[k] == DASH && k + 1 < pos && blank(s[k + 1]) {
            indent_bases_are_local(s, f, line, k + 1, pos, k - line);
        }
    }
}

/// Whether the line at `line` is no longer than the indentation, and blank.
pub open spec fn is_short(s: Seq<u8>, line: int, indent: int) -> bool {
    exists|e: int| e <= line + indent && #[trigger] blank_up_to(s, line, e)
}

/// Whether the line at `line` holds spaces alone and ends at `e`.
pub open spec fn blank_up_to(s: Seq<u8>, line: int, e: int) -> bool {
    &&& line <= e <= s.len()
    &&& e < s.len() ==> s[e] == NL
    &&& forall|k: int| line <= k < e ==> #[trigger] s[k] == SPACE
}

/// Whether the line at `line` has a blank behind the indentation.
pub open spec fn is_deep(s: Seq<u8>, line: int, indent: int) -> bool {
    &&& line + indent < s.len()
    &&& blank(s[line + indent])
    &&& forall|k: int| line <= k <= line + indent ==> #[trigger] s[k] != NL
}

/// Lines that are indented further than the first one are not folded: a folded
/// block scalar that has no others is read like a literal one.
pub proof fn deep_lines_are_not_folded(
    s: Seq<u8>,
    i: int,
    indent: int,
    joint: Joint,
    pending: int,
    acc: Seq<u8>,
)
    requires
        0 <= i <= s.len(),
        0 <= indent,
        i == 0 || i == s.len() || s[i - 1] == NL,
        joint != Joint::Text,
        forall|line: int|
            i <= line && #[trigger] starts_line(s, line) ==> is_short(s, line, indent) || is_deep(
                s,
                line,
                indent,
            ),
    ensures
        block_lines(s, i, s.len() as int, indent, false, joint, pending, acc) == block_lines(
            s,
            i,
            s.len() as int,
            indent,
            true,
            joint,
            pending,
            acc,
        ),
    decreases s.len() - i,
{
    let hi = s.len() as int;
    if i < hi {
        assert(starts_line(s, i));
        let e = run(s, i, hi, Class::Line);
        run_is_maximal(s, i, hi, Class::Line);
        let next = if e < hi {
            e + 1
        } else {
            e
        };
        let broken = if e < hi {
            1int
        } else {
            0int
        };
        if is_short(s, i, indent) {
            let x = choose|x: int| x <= i + indent && #[trigger] blank_up_to(s, i, x);
            runs_over(s, i, hi, Class::Line, x);
            runs_over(s, i, x, Class::Space, x);
            deep_lines_are_not_folded(s, next, indent, joint, pending + broken, acc);
        } else {
            assert(blank(s[i + indent]));
            if e <= i + indent {
                assert(s[e] != NL);
            }
            let t = if i < e && s[e - 1] == CR {
                e - 1
            } else {
                e
            };
            assert(i + indent < t);
            deep_lines_are_not_folded(
                s,
                next,
                indent,
                Joint::Kept,
                broken,
                acc + feeds(pending) + s.subrange(i + indent, t),
            );
        }
    }
}

/// Whether a `-` that stands for an item is at `k`, before `pos`.
pub open spec fn dash_at(s: Seq<u8>, k: int, pos: int) -> bool {
    s[k] == DASH && k + 1 < pos && blank(s[k + 1])
}

/// Whether `k` is where what holds a block scalar at `pos` stands, on the line at
/// `line`: the first byte that is neither a blank nor the `-` of an item, or the
/// last such `-` where there is none.
pub open spec fn holder_at(s: Seq<u8>, line: int, k: int, pos: int) -> bool {
    &&& line <= k < pos
    &&& !blank(s[k])
    &&& forall|x: int| line <= x < k ==> blank(#[trigger] s[x]) || dash_at(s, x, pos)
    &&& dash_at(s, k, pos) ==> forall|x: int| k < x < pos ==> blank(#[trigger] s[x])
}

proof fn bases_are_holders(s: Seq<u8>, line: int, i: int, pos: int, base: int, from: int)
    requires
        line <= i <= pos,
        forall|x: int| line <= x < i ==> blank(#[trigger] s[x]) || dash_at(s, x, pos),
        if from < line {
            base == 0 && forall|x: int| line <= x < i ==> blank(#[trigger] s[x])
        } else {
            from < i && base == from - line && dash_at(s, from, pos) && forall|x: int|
                from < x < i ==> blank(#[trigger] s[x])
        },
    ensures
        ({
            let r = indent_base(s, line, i, pos, base);
            holder_at(s, line, line + r, pos) || (r == 0 && forall|x: int|
                line <= x < pos ==> blank(#[trigger] s[x]))
        }),
    decreases pos - i,
{
    let k = run(s, i, pos, Class::Blank);
    run_is_maximal(s, i, pos, Class::Blank);
    assert forall|x: int| i <= x < k implies blank(#[trigger] s[x]) by {
        assert(in_class(s[x], Class::Blank));
    }
    if k >= pos {
        if from >= line {
            assert(holder_at(s, line, from, pos));
        }
    } else {
        assert(!in_class(s[k], Class::Blank));
        if dash_at(s, k, pos) {
            bases_are_holders(s, line, k + 1, pos, k - line, k);
        } else {
            assert(holder_at(s, line, k, pos));
        }
    }
}

/// An indentation that a block scalar asks for counts from the column of what holds
/// it: the key on its line, or the `-` of the item where there is no key.
pub proof fn asked_indents_count_from_the_holder(s: Seq<u8>, line: int, pos: int)
    requires
        line <= pos,
    ensures
        ({
            let r = indent_base(s, line, line, pos, 0);
            holder_at(s, line, line + r, pos) || (r == 0 && forall|x: int|
                line <= x < pos ==> blank(#[trigger] s[x]))
        }),
{
    bases_are_holders(s, line, line, pos, 0, line - 1);
}

} // verus!
