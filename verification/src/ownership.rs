//! Which bytes a removal takes.
use crate::blocks::starts_line;
use crate::document::{splice, Doc};
use crate::entry::{child_site, empty_braces, marks_before, removal, removal_site, shift, width};
use crate::green::covering_trees_are_sound;
use crate::growth::{
    innermost, lines_end_behind_feeds, lines_start_behind_feeds, owners_are_innermost, white,
};
use crate::lexis::{gap, trivia_end};
use crate::lines::{
    comment_line, content_end, head_comments, indent_column, keep_chomped, line_end, line_start,
    owned_end, owned_lines,
};
use crate::load::{SpanKind, SpanNode};
use crate::model::after_removal;
use crate::oracle::{at, below, Miss};
use crate::path::{path_steps, Seg};
use crate::resolve::{child_span, nth_span, typed_spot};
use crate::site::owner;
use crate::syntax::{Elem, SyntaxKind};
use crate::text::{
    back, back_is_maximal, blank, in_class, line_break, run, run_is_maximal, spaces, Class, AMP,
    BANG, COMMA, CR, HASH, LBRACE, LBRACKET, NL, RBRACE, RBRACKET,
};
use crate::value::{find_is_exact, Data};
use vstd::prelude::*;

verus! {

/// Whether `s[a..b]` opens with something that is neither white space nor a
/// comment.
pub open spec fn has_content(s: Seq<u8>, a: int, b: int) -> bool {
    exists|j: int|
        a <= j < b && !white(#[trigger] s[j]) && s[j] != HASH && forall|k: int|
            a <= k < j ==> white(#[trigger] s[k])
}

/// Whether byte `x` is part of a comment that has its line to itself.
pub open spec fn in_comment_line(s: Seq<u8>, x: int) -> bool {
    exists|h: int, line: int|
        #![trigger s[h], starts_line(s, line)]
        starts_line(s, line) && line <= h <= x && s[h] == HASH && (forall|k: int|
            line <= k < h ==> white(#[trigger] s[k])) && forall|k: int|
            line <= k < x ==> #[trigger] s[k] != NL
}

/// Whether lines that end at `b` are those that the value at `start..end` ends
/// in: nothing of the value is left but white space and comments, no line below
/// the value goes, and neither does an empty line or a comment line at its end.
pub open spec fn ends_with_value(s: Seq<u8>, start: int, end: int, b: int) -> bool {
    &&& start <= b <= s.len()
    &&& b == s.len() || (b > 0 && s[b - 1] == NL)
    &&& forall|j: int| end <= j < b - 1 ==> #[trigger] s[j] != NL
    &&& forall|x: int| b <= x < end ==> white(#[trigger] s[x]) || in_comment_line(s, x)
    &&& !keep_chomped(s, start, end) ==> forall|line: int|
        start < line < b && #[trigger] starts_line(s, line) && (forall|k: int|
            line <= k < b - 1 ==> #[trigger] s[k] != NL) ==> has_content(s, line, b)
}

proof fn content_ends(s: Seq<u8>, value: int, end: int)
    requires
        0 <= value <= end <= s.len(),
    ensures
        ({
            let r = content_end(s, value, end);
            &&& value <= r <= end
            &&& r == value || !white(s[r - 1])
            &&& line_start(s, r) > value ==> has_content(s, line_start(s, r), r)
            &&& forall|x: int| r <= x < end ==> white(#[trigger] s[x]) || in_comment_line(s, x)
        }),
    decreases end - value,
{
    let e = back(s, value, end, Class::White);
    back_is_maximal(s, value, end, Class::White);
    let line = line_start(s, e);
    lines_start_behind_feeds(s, e);
    if line > value {
        run_is_maximal(s, line, e, Class::White);
        let k = run(s, line, e, Class::White);
        assert(!white(s[e - 1]));
        if !comment_line(s, line, e) {
            assert(!white(s[k]) && s[k] != HASH);
        } else if line < end {
            content_ends(s, value, line);
            let r = content_end(s, value, line);
            assert(starts_line(s, line));
            assert forall|x: int| r <= x < end implies white(#[trigger] s[x]) || in_comment_line(
                s,
                x,
            ) by {
                if line <= x < e {
                    if x >= k {
                        assert(s[k] == HASH && starts_line(s, line));
                    }
                }
            }
        }
    }
}

proof fn owned_values_end(s: Seq<u8>, value: int, end: int)
    requires
        0 <= value <= end <= s.len(),
    ensures
        ({
            let ve = owned_end(s, value, end);
            let b = if ve > 0 && s[ve - 1] == NL {
                ve
            } else {
                line_end(s, ve)
            };
            ends_with_value(s, value, end, b)
        }),
{
    let ve = owned_end(s, value, end);
    content_ends(s, value, end);
    lines_end_behind_feeds(s, ve);
    lines_start_behind_feeds(s, ve);
    let b = if ve > 0 && s[ve - 1] == NL {
        ve
    } else {
        line_end(s, ve)
    };
    if !keep_chomped(s, value, end) {
        assert forall|line: int|
            value < line < b && #[trigger] starts_line(s, line) && (forall|k: int|
                line <= k < b - 1 ==> #[trigger] s[k] != NL) implies has_content(s, line, b) by {
            assert(s[line - 1] == NL);
            if ve == value && value > 0 && s[value - 1] == NL {
                assert(b == value);
            }
            if line > ve {
                assert(s[line - 1] != NL);
            }
            let own = line_start(s, ve);
            if own < line {
                assert(s[line - 1] != NL);
            }
            if line < own {
                assert(s[own - 1] == NL);
                assert(own - 1 < b - 1);
            }
            assert(has_content(s, own, ve));
            let j = choose|j: int|
                own <= j < ve && !white(#[trigger] s[j]) && s[j] != HASH && forall|k: int|
                    own <= k < j ==> white(#[trigger] s[k]);
            assert(!white(s[j]));
        }
    }
}

/// Whether the line at `line` holds a comment in column `indent` and nothing in
/// front of it.
pub open spec fn comment_at(s: Seq<u8>, line: int, indent: int) -> bool {
    &&& starts_line(s, line)
    &&& line + indent < s.len()
    &&& s[line + indent] == HASH
    &&& forall|k: int| line <= k < line + indent ==> blank(#[trigger] s[k])
}

/// Whether `a` is where the comments above the line at `first` start that stand
/// in column `indent`: one below the other, with no other line between.
pub open spec fn starts_with_comments(s: Seq<u8>, first: int, indent: int, a: int) -> bool {
    &&& 0 <= a <= first
    &&& a == first || starts_line(s, a)
    &&& forall|line: int|
        a <= line < first && #[trigger] starts_line(s, line) ==> comment_at(s, line, indent)
    &&& forall|line: int|
        0 <= line < a && #[trigger] starts_line(s, line) && (forall|k: int|
            line <= k < a - 1 ==> #[trigger] s[k] != NL) ==> !comment_at(s, line, indent)
}

proof fn comments_above(s: Seq<u8>, start: int, indent: int)
    requires
        0 <= start <= s.len(),
        start == 0 || s[start - 1] == NL,
        0 <= indent,
    ensures
        starts_with_comments(s, start, indent, head_comments(s, start, indent)),
    decreases start,
{
    if start > 0 {
        let prev = line_start(s, start - 1);
        lines_start_behind_feeds(s, start - 1);
        let stop = back(s, prev, start - 1, Class::Return);
        back_is_maximal(s, prev, start - 1, Class::Return);
        let hash = run(s, prev, stop, Class::Blank);
        run_is_maximal(s, prev, stop, Class::Blank);
        assert(starts_line(s, prev));
        if hash < stop && s[hash] == HASH && hash - prev == indent {
            comments_above(s, prev, indent);
            assert(comment_at(s, prev, indent));
            assert forall|line: int|
                head_comments(s, prev, indent) <= line < start && #[trigger] starts_line(
                    s,
                    line,
                ) implies comment_at(s, line, indent) by {
                if line > prev {
                    assert(s[line - 1] != NL);
                }
            }
        } else {
            assert forall|line: int|
                0 <= line < start && #[trigger] starts_line(s, line) && (forall|k: int|
                    line <= k < start - 1 ==> #[trigger] s[k] != NL) implies !comment_at(
                s,
                line,
                indent,
            ) by {
                if line > prev {
                    assert(s[line - 1] != NL);
                }
                if line < prev {
                    assert(s[prev - 1] == NL);
                }
                if comment_at(s, prev, indent) {
                    let h = prev + indent;
                    assert(s[h] == HASH);
                    if h >= start {
                        assert(blank(s[start - 1]));
                    }
                    if h == start - 1 {
                        assert(s[h] == NL);
                    }
                    if h >= stop {
                        assert(in_class(s[h], Class::Return));
                    }
                    if hash < h {
                        assert(blank(s[hash]));
                    }
                }
            }
        }
    }
}

/// Whether only blanks stand before `e` on its line.
pub open spec fn opens_its_line(s: Seq<u8>, e: int) -> bool {
    exists|line: int|
        #![trigger starts_line(s, line)]
        starts_line(s, line) && line <= e && forall|k: int|
            line <= k < e ==> blank(#[trigger] s[k])
}

/// Whether removing `a..b` removes a member of a block collection with what it
/// owns, where its entry or item starts at `e` and its value is at `start..end`.
///
/// One that opens its line goes with its lines and the comments above it in its
/// own column. One that shares its line goes from where it starts, up to where
/// the next one starts.
pub open spec fn takes_what_it_owns(
    s: Seq<u8>,
    e: int,
    start: int,
    end: int,
    a: int,
    b: int,
) -> bool {
    if opens_its_line(s, e) {
        &&& exists|line: int, c: int|
            #![trigger starts_with_comments(s, line, c, a)]
            starts_line(s, line) && line <= e <= line + c <= s.len() && (forall|k: int|
                line <= k < line + c ==> blank(#[trigger] s[k])) && (line + c < s.len() ==> !blank(
                s[line + c],
            )) && starts_with_comments(s, line, c, a)
        &&& ends_with_value(s, start, end, b)
    } else {
        &&& a == e
        &&& exists|stop: int| #[trigger]
            ends_with_value(s, start, end, stop) && stop <= b <= s.len() && (forall|k: int|
                stop <= k < b ==> blank(#[trigger] s[k])) && (b < s.len() ==> !blank(s[b]))
    }
}

/// What holds a member of a block collection.
pub open spec fn member_kind(map: bool) -> SyntaxKind {
    if map {
        SyntaxKind::MappingEntry
    } else {
        SyntaxKind::SequenceItem
    }
}

proof fn owned_bytes(s: Seq<u8>, e: int, vs: int, ve: int)
    requires
        0 <= e < s.len(),
        0 <= vs <= ve <= s.len(),
    ensures
        ({
            let (a, b) = owned_lines(s, e, vs, ve);
            let alone = run(s, line_start(s, e), e, Class::Blank) == e;
            &&& alone == opens_its_line(s, e)
            &&& alone ==> takes_what_it_owns(s, e, vs, ve, a, b)
            &&& !alone ==> takes_what_it_owns(
                s,
                e,
                vs,
                ve,
                e,
                run(s, b, s.len() as int, Class::Blank),
            )
        }),
{
    let (a, b) = owned_lines(s, e, vs, ve);
    let line = line_start(s, e);
    lines_start_behind_feeds(s, e);
    assert(starts_line(s, line));
    owned_values_end(s, vs, ve);
    run_is_maximal(s, line, e, Class::Blank);
    if run(s, line, e, Class::Blank) == e {
        assert(opens_its_line(s, e));
        run_is_maximal(s, line, s.len() as int, Class::Blank);
        let col = run(s, line, s.len() as int, Class::Blank);
        if col < e {
            assert(in_class(s[col], Class::Blank));
        }
        assert(indent_column(s, e) == col - line);
        comments_above(s, line, col - line);
        assert(starts_with_comments(s, line, col - line, a));
    } else {
        assert(!opens_its_line(s, e)) by {
            if opens_its_line(s, e) {
                let other = choose|other: int|
                    #![trigger starts_line(s, other)]
                    starts_line(s, other) && other <= e && forall|j: int|
                        other <= j < e ==> blank(#[trigger] s[j]);
                if other < line {
                    assert(s[line - 1] == NL);
                }
                if other > line {
                    assert(s[other - 1] != NL);
                }
                let r = run(s, line, e, Class::Blank);
                assert(blank(s[r]));
            }
        }
        run_is_maximal(s, b, s.len() as int, Class::Blank);
        assert(ends_with_value(s, vs, ve, b));
    }
}

/// A member of a block collection that has others beside it is removed with what
/// it owns and no more: nothing is written in its place, no line below its value
/// goes, and no comment but those right above it in its column.
pub proof fn block_members_go_with_what_they_own(
    s: Seq<u8>,
    t: Seq<Elem>,
    parent: SpanNode,
    child: SpanNode,
    map: bool,
)
    requires
        removal(s, t, parent, child, map, false) is Ok,
        s[parent.start as int] != (if map {
            LBRACE
        } else {
            LBRACKET
        }),
        forall|k: int| 0 <= k < t.len() ==> (#[trigger] t[k]).end <= s.len(),
    ensures
        ({
            let (a, b, text) = removal(s, t, parent, child, map, false)->Ok_0;
            &&& text.len() == 0
            &&& exists|k: int| #[trigger]
                innermost(t, member_kind(map), child.start - 1, k) && takes_what_it_owns(
                    s,
                    t[k].start as int,
                    child.start as int,
                    child.end as int,
                    a,
                    b,
                )
        }),
{
    let (a, b, text) = removal(s, t, parent, child, map, false)->Ok_0;
    let kind = member_kind(map);
    let vs = child.start as int;
    let ve = child.end as int;
    owners_are_innermost(t, kind, vs);
    let e = owner(t, kind, vs)->0;
    let k = choose|k: int| #[trigger] innermost(t, kind, vs - 1, k) && t[k].start == e;
    assert(text =~= Seq::empty());
    owned_bytes(s, e, vs, ve);
    assert(takes_what_it_owns(s, e, vs, ve, a, b));
    assert(text.len() == 0);
    assert(takes_what_it_owns(
        s,
        t[k].start as int,
        child.start as int,
        child.end as int,
        a,
        b,
    ));
    assert(innermost(t, member_kind(map), child.start - 1, k));
}

/// An empty collection.
pub open spec fn braces(map: bool) -> Seq<u8> {
    if map {
        seq![LBRACE, RBRACE]
    } else {
        seq![LBRACKET, RBRACKET]
    }
}

/// Whether the text is an empty collection in column `column` of a line, with the
/// line's break where there is one.
pub open spec fn empty_in(text: Seq<u8>, map: bool, column: int, ended: bool) -> bool {
    text == spaces(column) + braces(map) + if ended {
        seq![NL]
    } else {
        Seq::empty()
    }
}

/// Whether replacing `a..b` by the text puts an empty collection where the only
/// member of a block collection was. One that opens its line goes with what it
/// owns, and the empty collection stands no further left. One that shares its
/// line leaves what follows its value alone.
pub open spec fn leaves_empty(
    s: Seq<u8>,
    e: int,
    start: int,
    end: int,
    map: bool,
    a: int,
    b: int,
    text: Seq<u8>,
) -> bool {
    if opens_its_line(s, e) {
        &&& takes_what_it_owns(s, e, start, end, a, b)
        &&& exists|column: int| #[trigger]
            not_right_of(s, e, column) && empty_in(text, map, column, b > 0 && s[b - 1] == NL)
    } else {
        &&& text == braces(map)
        &&& a == e
        &&& start <= b <= s.len()
        &&& forall|x: int| b <= x < end ==> white(#[trigger] s[x]) || in_comment_line(s, x)
    }
}

/// Whether what stands at `e` is no further right than `column`.
pub open spec fn not_right_of(s: Seq<u8>, e: int, column: int) -> bool {
    exists|line: int| #[trigger]
        starts_line(s, line) && line <= e && e - line <= column && forall|k: int|
            line <= k < e ==> #[trigger] s[k] != NL
}

proof fn empty_collections_stand_in(s: Seq<u8>, t: Seq<Elem>, e: int, map: bool, ended: bool)
    requires
        0 <= e < s.len(),
        run(s, line_start(s, e), e, Class::Blank) == e,
    ensures
        exists|column: int| #[trigger]
            not_right_of(s, e, column) && empty_in(
                spaces(indent_column(s, e)) + shift(s, t, e) + empty_braces(map) + if ended {
                    seq![NL]
                } else {
                    Seq::empty()
                },
                map,
                column,
                ended,
            ),
{
    let line = line_start(s, e);
    lines_start_behind_feeds(s, e);
    run_is_maximal(s, line, s.len() as int, Class::Blank);
    run_is_maximal(s, line, e, Class::Blank);
    let col = run(s, line, s.len() as int, Class::Blank);
    if col < e {
        assert(in_class(s[col], Class::Blank));
    }
    let tail = if ended {
        seq![NL]
    } else {
        Seq::empty()
    };
    let column = indent_column(s, e) + shift(s, t, e).len();
    let text = spaces(indent_column(s, e)) + shift(s, t, e) + empty_braces(map) + tail;
    assert(spaces(indent_column(s, e)) + shift(s, t, e) =~= spaces(column));
    assert(empty_braces(map) =~= braces(map));
    assert(starts_line(s, line));
    assert(not_right_of(s, e, column));
    assert(empty_in(text, map, column, ended));
}

/// The only member of a block collection leaves an empty collection behind, of
/// the same kind and in its place.
pub proof fn the_only_block_member_leaves_an_empty_collection(
    s: Seq<u8>,
    t: Seq<Elem>,
    parent: SpanNode,
    child: SpanNode,
    map: bool,
)
    requires
        removal(s, t, parent, child, map, true) is Ok,
        s[parent.start as int] != (if map {
            LBRACE
        } else {
            LBRACKET
        }),
        forall|k: int| 0 <= k < t.len() ==> (#[trigger] t[k]).end <= s.len(),
    ensures
        ({
            let (a, b, text) = removal(s, t, parent, child, map, true)->Ok_0;
            exists|k: int| #[trigger]
                innermost(t, member_kind(map), child.start - 1, k) && leaves_empty(
                    s,
                    t[k].start as int,
                    child.start as int,
                    child.end as int,
                    map,
                    a,
                    b,
                    text,
                )
        }),
{
    let (a, b, text) = removal(s, t, parent, child, map, true)->Ok_0;
    let kind = member_kind(map);
    let vs = child.start as int;
    let ve = child.end as int;
    owners_are_innermost(t, kind, vs);
    let e = owner(t, kind, vs)->0;
    let k = choose|k: int| #[trigger] innermost(t, kind, vs - 1, k) && t[k].start == e;
    owned_bytes(s, e, vs, ve);
    content_ends(s, vs, ve);
    if opens_its_line(s, e) {
        empty_collections_stand_in(s, t, e, map, b > 0 && s[b - 1] == NL);
    } else {
        assert(text =~= braces(map));
    }
    assert(leaves_empty(s, e, vs, ve, map, a, b, text));
    assert(innermost(t, member_kind(map), child.start - 1, k));
}

/// Whether a carriage return stands in `s[a..b]`.
pub open spec fn has_return(s: Seq<u8>, a: int, b: int) -> bool {
    exists|k: int| a <= k < b && #[trigger] s[k] == CR
}

/// Whether removing `a..b` removes the flow member at `start..end` with one comma
/// and the white space around it: the comma behind it, or, for one that has none,
/// the comma in front of it.
pub open spec fn takes_one_comma(s: Seq<u8>, start: int, end: int, a: int, b: int) -> bool {
    let q = gap(s, end);
    if q < s.len() && s[q] == COMMA {
        &&& a <= start
        &&& q < b <= s.len()
        &&& forall|k: int| a <= k < start ==> blank(#[trigger] s[k])
        &&& forall|k: int| q < k < b ==> white(#[trigger] s[k]) || has_return(s, q, k)
        &&& forall|k: int| q < k < b - 1 ==> #[trigger] s[k] != NL
    } else {
        &&& b == end
        &&& a <= start
        &&& a < start ==> s[a] == COMMA
        &&& forall|k: int| a < k < start ==> white(#[trigger] s[k])
    }
}

/// A member of a flow collection that has others beside it goes with one comma,
/// and nothing is written in its place. The only one leaves an empty collection
/// behind.
pub proof fn flow_members_go_with_one_comma(
    s: Seq<u8>,
    t: Seq<Elem>,
    parent: SpanNode,
    child: SpanNode,
    map: bool,
    sole: bool,
)
    requires
        removal(s, t, parent, child, map, sole) is Ok,
        s[parent.start as int] == (if map {
            LBRACE
        } else {
            LBRACKET
        }),
    ensures
        ({
            let (a, b, text) = removal(s, t, parent, child, map, sole)->Ok_0;
            let own = if map {
                child.key_start as int
            } else {
                child.start as int
            };
            if sole {
                a == parent.start && b == parent.end && text == braces(map)
            } else {
                let start = marks_before(s, parent.start + 1, own);
                &&& text.len() == 0
                &&& parent.start < start <= own
                &&& takes_one_comma(s, start, child.end as int, a, b)
            }
        }),
{
    let (a, b, text) = removal(s, t, parent, child, map, sole)->Ok_0;
    let own = if map {
        child.key_start as int
    } else {
        child.start as int
    };
    let lo = parent.start + 1;
    if sole {
        assert(text =~= braces(map));
    } else {
        marks_lie_before(s, lo, own);
        let start = marks_before(s, lo, own);
        let n = s.len() as int;
        let end = child.end as int;
        gaps_lie_behind(s, end);
        let q = gap(s, end);
        lines_start_behind_feeds(s, start);
        back_is_maximal(s, lo, start, Class::White);
        if q < n && s[q] == COMMA {
            run_is_maximal(s, q + 1, n, Class::Blank);
            let e = run(s, q + 1, n, Class::Blank);
            lines_end_behind_feeds(s, e);
            run_is_maximal(s, line_start(s, start), start, Class::Blank);
            assert forall|k: int| q < k < b implies white(#[trigger] s[k]) || has_return(s, q, k) by {
                if k > e && e < n && line_break(s[e]) {
                    assert(s[e] == CR);
                }
            }
        }
    }
}

proof fn gaps_lie_behind(s: Seq<u8>, p: int)
    ensures
        p <= gap(s, p),
    decreases s.len() - p,
{
    let e = trivia_end(s, p);
    if p < e <= s.len() {
        gaps_lie_behind(s, e);
    }
}

proof fn marks_lie_before(s: Seq<u8>, lo: int, at: int)
    requires
        lo <= at,
    ensures
        lo <= marks_before(s, lo, at) <= at,
    decreases at - lo,
{
    let w = back(s, lo, at, Class::Blank);
    let x = back(s, lo, w, Class::Name);
    if lo <= x < w && w <= at && (s[x] == AMP || s[x] == BANG) {
        marks_lie_before(s, lo, x);
    }
}

/// What a path that is removed leads to: the last step goes from the span of a
/// collection, which no alias stands for, to the span of one of its members.
proof fn removals_have_a_member(
    s: Seq<u8>,
    t: Seq<Elem>,
    d: Data,
    sp: Seq<SpanNode>,
    i: int,
    p: Seq<Seg>,
    k: int,
)
    requires
        0 <= k,
        removal_site(s, t, d, sp, i, p, k) is Ok,
    ensures
        p.len() > k,
        ({
            let spot = typed_spot(d, sp, i, p.drop_last(), k, false);
            let j = (spot->0).0;
            let e = at(d, p, k, p.len() - 1)->Ok_0;
            let child = child_site(e, sp, j, p.last());
            &&& spot is Some
            &&& !(spot->0).1
            &&& 0 <= j < sp.len()
            &&& at(d, p, k, p.len() - 1) is Ok
            &&& child is Ok
            &&& removal_site(s, t, d, sp, i, p, k) == removal(
                s,
                t,
                sp[j],
                sp[child->Ok_0.1],
                e is Dict,
                width(e) <= 1,
            )
        }),
    decreases p.len() - k,
{
    let q = p.drop_last();
    let (e, c) = child_site(d, sp, i, p[k])->Ok_0;
    assert(sp[i].kind != SpanKind::Alias);
    if k + 1 < p.len() {
        removals_have_a_member(s, t, e, sp, c, p, k + 1);
        match (p[k], d) {
            (Seg::Key(key), Data::Dict(m)) => {
                find_is_exact(m, key, 0);
            },
            _ => {},
        }
        assert(below(d, p[k]) == Ok::<Data, Miss>(e));
        assert(q[k] == p[k]);
        assert(child_span(d, sp, i, q[k]) == Some((e, c)));
        children_come_later(sp, i + 1, i + sp[i].size);
    } else {
        assert(p.last() == p[k]);
    }
}

proof fn children_come_later(sp: Seq<SpanNode>, lo: int, hi: int)
    ensures
        forall|n: int|
            (#[trigger] nth_span(sp, lo, hi, n) matches Some(x) ==> lo <= x
                < sp.len()),
    decreases hi - lo,
{
    if 0 <= lo < hi && hi <= sp.len() && 1 <= sp[lo].size && lo + sp[lo].size <= hi {
        children_come_later(sp, lo + sp[lo].size, hi);
        assert forall|n: int|
            (#[trigger] nth_span(sp, lo, hi, n) matches Some(x) ==> lo <= x
                < sp.len()) by {
            if n > 0 {
                let m = n - 1;
                assert(nth_span(sp, lo, hi, n) == nth_span(
                    sp,
                    lo + sp[lo].size,
                    hi,
                    m,
                ));
            }
        }
    }
}

/// Whether a document is another one without the member with span `child` of the
/// collection with span `parent`.
pub open spec fn member_removed(
    d: Doc,
    n: Doc,
    parent: SpanNode,
    child: SpanNode,
    map: bool,
    sole: bool,
) -> bool {
    exists|a: int, b: int, text: Seq<u8>|
        n.source == #[trigger] splice(d.source, a, b, text) && (sole || text.len() == 0) && (if d.source[parent.start as int]
            == (if map {
            LBRACE
        } else {
            LBRACKET
        }) {
            if sole {
                a == parent.start && b == parent.end && text == braces(map)
            } else {
                takes_one_comma(
                    d.source,
                    marks_before(
                        d.source,
                        parent.start + 1,
                        if map {
                            child.key_start as int
                        } else {
                            child.start as int
                        },
                    ),
                    child.end as int,
                    a,
                    b,
                )
            }
        } else {
            exists|k: int| #[trigger]
                innermost(d.green, member_kind(map), child.start - 1, k) && if sole {
                    leaves_empty(
                        d.source,
                        d.green[k].start as int,
                        child.start as int,
                        child.end as int,
                        map,
                        a,
                        b,
                        text,
                    )
                } else {
                    takes_what_it_owns(
                        d.source,
                        d.green[k].start as int,
                        child.start as int,
                        child.end as int,
                        a,
                        b,
                    )
                }
        })
}

/// A removal that succeeds takes the bytes that the member at the path owns, and
/// no others: the lines of a block entry or item, with the comments right above
/// it and none of those below it, and a flow member with one comma. Where it was
/// the only one, an empty collection takes its place.
pub proof fn a_removal_takes_what_its_member_owns(d: Doc, path: Seq<u8>)
    requires
        d.wf(),
        after_removal(d, path) is Ok,
    ensures
        ({
            let p = path_steps(path);
            let (v, sp) = d.value()->Ok_0;
            let n = after_removal(d, path)->Ok_0;
            let spot = typed_spot(v, sp, 0, p.drop_last(), 0, false);
            let j = (spot->0).0;
            let e = at(v, p, 0, p.len() - 1)->Ok_0;
            let c = child_site(e, sp, j, p.last())->Ok_0.1;
            &&& d.value() is Ok
            &&& p.len() > 0
            &&& spot is Some
            &&& at(v, p, 0, p.len() - 1) is Ok
            &&& child_site(e, sp, j, p.last()) is Ok
            &&& match e {
                Data::Dict(m) => member_removed(d, n, sp[j], sp[c], true, m.len() <= 1),
                Data::List(l) => member_removed(d, n, sp[j], sp[c], false, l.len() <= 1),
                _ => false,
            }
        }),
{
    let p = path_steps(path);
    let (v, sp) = d.value()->Ok_0;
    let s = d.source;
    let n = after_removal(d, path)->Ok_0;
    removals_have_a_member(s, d.green, v, sp, 0, p, 0);
    let j = (typed_spot(v, sp, 0, p.drop_last(), 0, false)->0).0;
    let e = at(v, p, 0, p.len() - 1)->Ok_0;
    let c = child_site(e, sp, j, p.last())->Ok_0.1;
    let map = e is Dict;
    let sole = width(e) <= 1;
    let (a, b, text) = removal_site(s, d.green, v, sp, 0, p, 0)->Ok_0;
    covering_trees_are_sound(d.green, s.len() as int);
    assert(n.source == splice(s, a, b, text));
    if s[sp[j].start as int] == (if map {
        LBRACE
    } else {
        LBRACKET
    }) {
        flow_members_go_with_one_comma(s, d.green, sp[j], sp[c], map, sole);
    } else if sole {
        the_only_block_member_leaves_an_empty_collection(s, d.green, sp[j], sp[c], map);
    } else {
        block_members_go_with_what_they_own(s, d.green, sp[j], sp[c], map);
    }
    assert(member_removed(d, n, sp[j], sp[c], map, sole));
}

/// Whether byte `x` is part of an anchor or a tag that starts at `a` or behind it.
pub open spec fn in_mark(s: Seq<u8>, a: int, x: int) -> bool {
    exists|h: int|
        a <= h <= x && (#[trigger] s[h] == AMP || s[h] == BANG) && forall|k: int|
            h <= k <= x ==> in_class(#[trigger] s[k], Class::Name)
}

/// Whether an anchor or a tag, and blanks behind it, stand right before `r`: it
/// starts at `h`, and nothing of it lies before `lo`.
pub open spec fn mark_before(s: Seq<u8>, lo: int, h: int, w: int, r: int) -> bool {
    &&& lo <= h < w <= r
    &&& s[h] == AMP || s[h] == BANG
    &&& h == lo || !in_class(s[h - 1], Class::Name)
    &&& forall|k: int| h <= k < w ==> in_class(#[trigger] s[k], Class::Name)
    &&& forall|k: int| w <= k < r ==> blank(#[trigger] s[k])
}

/// A flow member starts with its anchor and its tag: these, and the blanks behind
/// them, are all that lies between its start and its key or value, and there is no
/// other before them.
pub proof fn members_start_with_their_marks(s: Seq<u8>, lo: int, at: int)
    requires
        0 <= lo <= at <= s.len(),
    ensures
        ({
            let r = marks_before(s, lo, at);
            &&& lo <= r <= at
            &&& forall|x: int| r <= x < at ==> blank(#[trigger] s[x]) || in_mark(s, r, x)
            &&& forall|h: int, w: int| !#[trigger] mark_before(s, lo, h, w, r)
        }),
    decreases at - lo,
{
    let w = back(s, lo, at, Class::Blank);
    back_is_maximal(s, lo, at, Class::Blank);
    let x = back(s, lo, w, Class::Name);
    back_is_maximal(s, lo, w, Class::Name);
    if x < w && (s[x] == AMP || s[x] == BANG) {
        members_start_with_their_marks(s, lo, x);
        let r = marks_before(s, lo, x);
        assert forall|k: int| r <= k < at implies blank(#[trigger] s[k]) || in_mark(s, r, k) by {
            if k >= w {
                assert(in_class(s[k], Class::Blank));
            } else if k >= x {
                assert(s[x] == AMP || s[x] == BANG);
                assert forall|j: int| x <= j <= k implies in_class(#[trigger] s[j], Class::Name) by {}
            }
        }
    } else {
        assert forall|h: int, v: int| !#[trigger] mark_before(s, lo, h, v, at) by {
            if mark_before(s, lo, h, v, at) {
                if v < w {
                    assert(blank(s[w - 1]));
                }
                if w < v {
                    assert(in_class(s[v - 1], Class::Blank));
                    assert(in_class(s[v - 1], Class::Name));
                }
                assert(v == w);
                if h < x {
                    assert(in_class(s[x - 1], Class::Name));
                }
                if x < h {
                    assert(in_class(s[h - 1], Class::Name));
                }
            }
        }
    }
}

} // verus!
