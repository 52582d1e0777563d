//! What added items and entries do to the bytes of a document.
use crate::blocks::starts_line;
use crate::document::{span_of, splice, Doc};
use crate::error::Operation;
use crate::lexis::{column, has_bom};
use crate::lines::{after_line, indent_step, keep_chomped, least, line_end, line_start, value_end};
use crate::load::{SpanKind, SpanNode};
use crate::model::{
    after_insert_after, after_insert_entry_text, after_push_back, block_item_column, entry_text,
    indented_lines, item_added, lead, lowest, past_feeds, placed,
};
use crate::oracle::at;
use crate::path::{path_steps, Seg};
use crate::resolve::{child_span, nth_span, typed_spot};
use crate::site::{around, key_column, owner};
use crate::syntax::{Elem, SyntaxKind};
use crate::text::{
    back_is_maximal, in_class, run, run_is_maximal, spaces, Class, COLON, DASH, NL, SPACE,
};
use crate::value::{find, Data};
use vstd::prelude::*;

verus! {

/// Whether `s[x..x + n]` is there and holds spaces only.
pub open spec fn spaces_at(s: Seq<u8>, x: int, n: int) -> bool {
    &&& 0 <= x
    &&& x + n <= s.len()
    &&& forall|j: int| x <= j < x + n ==> #[trigger] s[j] == SPACE
}

/// Whether every line that starts in `s` is empty or indented by `n` spaces at
/// least.
pub open spec fn indented_by(s: Seq<u8>, n: int) -> bool {
    forall|x: int| #[trigger] starts_line(s, x) && s[x] != NL ==> spaces_at(s, x, n)
}

/// A text whose lines that are not empty lose their first `n` bytes.
pub open spec fn dedented(s: Seq<u8>, n: int) -> Seq<u8>
    decreases s.len(),
{
    let e = run(s, 0, s.len() as int, Class::Line);
    if s.len() == 0 || e < 0 || e > s.len() {
        Seq::empty()
    } else {
        let line = if 0 <= n <= e {
            s.subrange(n, e)
        } else {
            Seq::empty()
        };
        if e < s.len() {
            line + seq![NL] + dedented(s.subrange(e + 1, s.len() as int), n)
        } else {
            line
        }
    }
}

pub(crate) proof fn runs_over(s: Seq<u8>, i: int, hi: int, class: Class, e: int)
    requires
        i <= e <= hi,
        forall|k: int| i <= k < e ==> in_class(#[trigger] s[k], class),
        e < hi ==> !in_class(s[e], class),
    ensures
        run(s, i, hi, class) == e,
    decreases e - i,
{
    if i < e {
        runs_over(s, i + 1, hi, class, e);
    }
}

pub(crate) proof fn indenting_appends(s: Seq<u8>, i: int, pad: int, acc: Seq<u8>)
    requires
        0 <= i <= s.len(),
    ensures
        indented_lines(s, i, pad, acc) == acc + indented_lines(s, i, pad, Seq::empty()),
    decreases s.len() - i,
{
    let n = s.len() as int;
    let e = run(s, i, n, Class::Line);
    run_is_maximal(s, i, n, Class::Line);
    let none = Seq::<u8>::empty();
    let one = if e == i {
        none.push(NL)
    } else {
        (none + spaces(pad) + s.subrange(i, e)).push(NL)
    };
    let more = if e == i {
        acc.push(NL)
    } else {
        (acc + spaces(pad) + s.subrange(i, e)).push(NL)
    };
    assert(more =~= acc + one);
    if e < n {
        indenting_appends(s, e + 1, pad, more);
        indenting_appends(s, e + 1, pad, one);
        let rest = indented_lines(s, e + 1, pad, none);
        assert((acc + one) + rest =~= acc + (one + rest));
    }
}

/// A line in front of indented lines.
pub(crate) proof fn indented_lines_follow(a: Seq<u8>, b: Seq<u8>, n: int)
    requires
        indented_by(b, n),
        a.len() > 0,
        a[a.len() - 1] == NL,
        a == seq![NL] || spaces_at(a, 0, n),
        forall|k: int| 0 <= k < a.len() - 1 ==> #[trigger] a[k] != NL,
    ensures
        indented_by(a + b, n),
{
    let s = a + b;
    assert forall|x: int| #[trigger] starts_line(s, x) && s[x] != NL implies spaces_at(s, x, n) by {
        if x < a.len() {
            if x > 0 {
                assert(s[x - 1] == a[x - 1]);
            }
            assert(s[0] == a[0]);
            assert forall|j: int| 0 <= j < n implies #[trigger] s[j] == SPACE by {
                assert(s[j] == a[j]);
            }
        } else {
            let y = x - a.len();
            assert(s[x] == b[y]);
            if y > 0 {
                assert(s[x - 1] == b[y - 1]);
            }
            assert(starts_line(b, y));
            assert forall|j: int| x <= j < x + n implies #[trigger] s[j] == SPACE by {
                assert(s[j] == b[j - a.len()]);
            }
        }
    }
}

/// Indented lines are indented, and are the lines they were once the indentation
/// is taken away.
pub(crate) proof fn lines_are_indented(s: Seq<u8>, i: int, pad: int)
    requires
        0 <= i <= s.len(),
        0 <= pad,
    ensures
        ({
            let t = indented_lines(s, i, pad, Seq::empty());
            &&& indented_by(t, pad)
            &&& dedented(t, pad) == s.subrange(i, s.len() as int).push(NL)
            &&& t.len() > 0
            &&& t[t.len() - 1] == NL
        }),
    decreases s.len() - i,
{
    let n = s.len() as int;
    let e = run(s, i, n, Class::Line);
    run_is_maximal(s, i, n, Class::Line);
    let none = Seq::<u8>::empty();
    let t = indented_lines(s, i, pad, none);
    let line = s.subrange(i, e);
    let one = if e == i {
        none.push(NL)
    } else {
        (none + spaces(pad) + line).push(NL)
    };
    let w = one.len() - 1;
    assert(one[w] == NL);
    assert forall|k: int| 0 <= k < w implies #[trigger] one[k] != NL by {
        if k >= pad {
            assert(one[k] == s[i + k - pad]);
        }
    }
    assert(e == i ==> one =~= seq![NL]);
    assert(e != i ==> spaces_at(one, 0, pad));
    if e < n {
        lines_are_indented(s, e + 1, pad);
        indenting_appends(s, e + 1, pad, one);
        let rest = indented_lines(s, e + 1, pad, none);
        assert(t == one + rest);
        indented_lines_follow(one, rest, pad);
        assert forall|k: int| 0 <= k < w implies #[trigger] t[k] != NL by {
            assert(t[k] == one[k]);
        }
        runs_over(t, 0, t.len() as int, Class::Line, w as int);
        assert(t.subrange(w + 1, t.len() as int) =~= rest);
        assert(e != i ==> t.subrange(pad, w as int) =~= line);
        assert(line + seq![NL] + s.subrange(e + 1, n).push(NL) =~= s.subrange(i, n).push(NL));
    } else {
        assert(t == one);
        assert(indented_by(none, pad));
        indented_lines_follow(one, none, pad);
        assert(one + none =~= one);
        runs_over(t, 0, t.len() as int, Class::Line, w as int);
        assert(t.subrange(w + 1, t.len() as int) =~= none);
        assert(dedented(none, pad) =~= none);
        assert(e != i ==> t.subrange(pad, w as int) =~= line);
        assert(line + seq![NL] + none =~= s.subrange(i, n).push(NL));
    }
    if e == i {
        assert(dedented(t, pad) =~= s.subrange(i, n).push(NL)) by {
            if pad == 0 {
                assert(t.subrange(0, 0) =~= none);
            }
        }
    }
}

/// Whether `text` is the entry for a key in column `c` with a fragment of one or
/// more lines. What follows the key's line is indented by `unit` more than the
/// key, and is the fragment, without the empty lines in front of it, once that
/// indentation is taken away.
pub open spec fn entry_of(text: Seq<u8>, key: Seq<u8>, fragment: Seq<u8>, c: int, unit: int) -> bool {
    let head = spaces(c) + key + seq![COLON];
    if fragment.contains(NL) {
        exists|below: Seq<u8>, k: int|
            text == head + seq![NL] + below && #[trigger] indented_by(below, c + unit)
                && #[trigger] dedented(below, c + unit) == (#[trigger] fragment.subrange(
                k,
                fragment.len() as int,
            )).push(NL) && 0 <= k <= fragment.len() && (k < fragment.len() ==> fragment[k] != NL)
                && forall|j: int| 0 <= j < k ==> fragment[j] == NL
    } else {
        text == head + seq![SPACE] + fragment + seq![NL]
    }
}

proof fn feeds_are_passed(s: Seq<u8>, i: int)
    requires
        0 <= i <= s.len(),
    ensures
        i <= past_feeds(s, i) <= s.len(),
        past_feeds(s, i) < s.len() ==> s[past_feeds(s, i)] != NL,
        forall|j: int| i <= j < past_feeds(s, i) ==> s[j] == NL,
    decreases s.len() - i,
{
    if i < s.len() && s[i] == NL {
        feeds_are_passed(s, i + 1);
    }
}

/// A new entry is its key in the column that is asked for, and its fragment: on
/// the line of the key, or on the lines below it, every one that is not empty in
/// a column to the right of the key's.
pub proof fn new_entries_hold_their_fragment(key: Seq<u8>, fragment: Seq<u8>, c: int, unit: int)
    requires
        0 <= c,
        0 < unit,
    ensures
        entry_of(entry_text(key, fragment, c, unit), key, fragment, c, unit),
{
    let head = spaces(c) + key + seq![COLON];
    let text = entry_text(key, fragment, c, unit);
    if fragment.contains(NL) {
        let k = past_feeds(fragment, 0);
        feeds_are_passed(fragment, 0);
        let front = spaces(c) + key + seq![COLON, NL];
        indenting_appends(fragment, k, c + unit, front);
        lines_are_indented(fragment, k, c + unit);
        let below = indented_lines(fragment, k, c + unit, Seq::empty());
        assert(front =~= head + seq![NL]);
        assert(text == head + seq![NL] + below);
        assert(indented_by(below, c + unit));
        let body = fragment.subrange(k, fragment.len() as int);
        assert(dedented(below, c + unit) == body.push(NL));
    } else {
        assert(text =~= head + seq![SPACE] + fragment + seq![NL]);
    }
}

/// Whether `s2` is `s` with one more text at `pos`, on a line of its own.
pub open spec fn grown_at(s: Seq<u8>, s2: Seq<u8>, pos: int, text: Seq<u8>) -> bool {
    &&& 0 <= pos <= s.len()
    &&& s2 == s.subrange(0, pos) + (if pos == 0 || s[pos - 1] == NL {
        Seq::empty()
    } else {
        seq![NL]
    }) + text + s.subrange(pos, s.len() as int)
}

/// Whether a byte is white space.
pub open spec fn white(b: u8) -> bool {
    in_class(b, Class::White)
}

/// Whether `pos` is where the line after the value at `start..end` starts: all of
/// the value but white space stands before it, and no line between the two.
pub open spec fn below_value(s: Seq<u8>, start: int, end: int, pos: int) -> bool {
    &&& start <= pos <= s.len()
    &&& pos == s.len() || (pos > 0 && s[pos - 1] == NL)
    &&& forall|j: int| pos <= j < end ==> white(#[trigger] s[j])
    &&& forall|j: int| end <= j < pos - 1 ==> #[trigger] s[j] != NL
    &&& !keep_chomped(s, start, end) ==> forall|j: int|
        start <= j < pos - 1 && #[trigger] s[j] == NL ==> exists|k: int|
            j < k < end && !white(#[trigger] s[k])
}

/// Whether byte `x` is in column `c` of its line; a mark in front of the text is
/// not counted.
pub open spec fn in_column(s: Seq<u8>, x: int, c: int) -> bool {
    let line = x - c;
    &&& 0 <= c <= x
    &&& line == 0 || s[line - 1] == NL || (line == 3 && has_bom(s))
    &&& forall|j: int| line <= j < x ==> #[trigger] s[j] != NL
}

/// Whether element `k` is the innermost one of a kind that holds byte `x`.
pub open spec fn innermost(t: Seq<Elem>, kind: SyntaxKind, x: int, k: int) -> bool {
    &&& 0 <= k < t.len()
    &&& t[k].kind == kind
    &&& t[k].start <= x < t[k].end
    &&& forall|j: int|
        k < j < t.len() ==> !((#[trigger] t[j]).kind == kind && t[j].start <= x < t[j].end)
}

proof fn around_is_innermost(t: Seq<Elem>, kind: SyntaxKind, x: int, n: int)
    requires
        0 <= n <= t.len(),
        forall|j: int|
            n <= j < t.len() ==> !((#[trigger] t[j]).kind == kind && t[j].start <= x < t[j].end),
    ensures
        match around(t, kind, x, n) {
            Some(k) => innermost(t, kind, x, k),
            None => forall|j: int|
                0 <= j < t.len() ==> !((#[trigger] t[j]).kind == kind && t[j].start <= x < t[j].end),
        },
    decreases n,
{
    if n > 0 && !(t[n - 1].kind == kind && t[n - 1].start <= x < t[n - 1].end) {
        around_is_innermost(t, kind, x, n - 1);
    }
}

/// The entry or item that a value belongs to is the innermost element of its kind
/// around the byte before it.
pub proof fn owners_are_innermost(t: Seq<Elem>, kind: SyntaxKind, value: int)
    ensures
        owner(t, kind, value) matches Some(a) ==> exists|k: int| #[trigger]
            innermost(t, kind, value - 1, k) && t[k].start == a,
        owner(t, kind, value) is None ==> forall|k: int| !#[trigger] innermost(t, kind, value - 1, k),
{
    around_is_innermost(t, kind, value - 1, t.len() as int);
    if let Some(k) = around(t, kind, value - 1, t.len() as int) {
        assert(innermost(t, kind, value - 1, k));
    }
}

/// A line starts behind the line feed before it.
pub proof fn lines_start_behind_feeds(s: Seq<u8>, pos: int)
    requires
        0 <= pos <= s.len(),
    ensures
        0 <= line_start(s, pos) <= pos,
        line_start(s, pos) == 0 || s[line_start(s, pos) - 1] == NL,
        forall|j: int| line_start(s, pos) <= j < pos ==> #[trigger] s[j] != NL,
{
    back_is_maximal(s, 0, pos, Class::Line);
}

/// A line ends behind the first line feed in it, or with the text.
pub proof fn lines_end_behind_feeds(s: Seq<u8>, pos: int)
    requires
        0 <= pos <= s.len(),
    ensures
        pos <= line_end(s, pos) <= s.len(),
        line_end(s, pos) == s.len() || s[line_end(s, pos) - 1] == NL,
        forall|j: int| pos <= j < line_end(s, pos) - 1 ==> #[trigger] s[j] != NL,
        pos < s.len() ==> pos < line_end(s, pos),
{
    run_is_maximal(s, pos, s.len() as int, Class::Line);
}

pub(crate) proof fn columns_are_counted(s: Seq<u8>, x: int)
    requires
        0 <= x <= s.len(),
    ensures
        in_column(s, x, column(s, x, 0)),
{
    lines_start_behind_feeds(s, x);
}

pub(crate) proof fn values_end_below(s: Seq<u8>, start: int, end: int)
    requires
        0 <= start <= end <= s.len(),
    ensures
        start <= value_end(s, start, end) <= end,
        below_value(s, start, end, after_line(s, value_end(s, start, end))),
{
    back_is_maximal(s, start, end, Class::White);
    let e = value_end(s, start, end);
    lines_end_behind_feeds(s, e);
    let pos = after_line(s, e);
    if !keep_chomped(s, start, end) {
        assert forall|j: int| start <= j < pos - 1 && #[trigger] s[j] == NL implies exists|k: int|
            j < k < end && !white(#[trigger] s[k]) by {
            if j >= e {
                assert(false);
            }
            assert(!white(s[e - 1]));
        }
    }
}

/// The last step of a path leads from the span of its collection to the span of
/// the value.
pub(crate) proof fn spots_are_children(
    d: Data,
    sp: Seq<SpanNode>,
    i: int,
    p: Seq<Seg>,
    last: Seg,
    k: int,
    through: bool,
)
    requires
        0 <= k <= p.len(),
        typed_spot(d, sp, i, p.push(last), k, through) matches Some((_, x)) && !x,
    ensures
        !through,
        ({
            let c = (typed_spot(d, sp, i, p.push(last), k, through)->0).0;
            let spot = typed_spot(d, sp, i, p, k, through);
            let e = at(d, p, k, p.len() as int);
            &&& spot is Some
            &&& !(spot->0).1
            &&& 0 <= (spot->0).0 < c < sp.len()
            &&& e is Ok
            &&& child_span(e->Ok_0, sp, (spot->0).0, last) is Some
            &&& (child_span(e->Ok_0, sp, (spot->0).0, last)->0).1 == c
        }),
    decreases sp.len() - i,
{
    let q = p.push(last);
    if sp[i].kind == SpanKind::Alias {
        passing_an_alias_shows(d, sp, i + 1, q, k);
    } else {
        let step = q[k];
        let (e, c) = child_span(d, sp, i, step)->0;
        if k < p.len() {
            assert(step == p[k]);
            spots_are_children(e, sp, c, p, last, k + 1, through);
            match (step, d) {
                (Seg::Key(key), Data::Dict(m)) => {
                    crate::value::find_is_exact(m, key, 0);
                },
                _ => {},
            }
            assert(crate::oracle::below(d, step) == Ok::<Data, crate::oracle::Miss>(e));
        } else if sp[c].kind == SpanKind::Alias {
            passing_an_alias_shows(e, sp, c + 1, q, k + 1);
        } else {
            assert(q[k] == last);
        }
    }
}

pub(crate) proof fn passing_an_alias_shows(d: Data, sp: Seq<SpanNode>, i: int, p: Seq<Seg>, k: int)
    requires
        0 <= k,
    ensures
        typed_spot(d, sp, i, p, k, true) matches Some((_, x)) ==> x,
    decreases sp.len() - i,
{
    if 0 <= i < sp.len() {
        if sp[i].kind == SpanKind::Alias {
            passing_an_alias_shows(d, sp, i + 1, p, k);
        } else if k < p.len() {
            if let Some((e, c)) = child_span(d, sp, i, p[k]) {
                if i < c < sp.len() {
                    passing_an_alias_shows(e, sp, c, p, k + 1);
                }
            }
        }
    }
}

/// Whether a document is another one with one more item line: below the value
/// with span `x`, with its `-` in the column of the item that the value belongs
/// to, and with nothing else changed.
pub open spec fn item_below(d: Doc, n: Doc, x: SpanNode, fragment: Seq<u8>) -> bool {
    exists|pos: int, k: int, c: int|
        #[trigger] below_value(d.source, x.start as int, x.end as int, pos) && #[trigger] innermost(
            d.green,
            SyntaxKind::SequenceItem,
            x.start - 1,
            k,
        ) && #[trigger] in_column(d.source, d.green[k].start as int, c) && grown_at(
            d.source,
            n.source,
            pos,
            spaces(c) + seq![DASH, SPACE] + fragment + seq![NL],
        )
}

pub(crate) proof fn added_items_stand_below(d: Doc, x: SpanNode, fragment: Seq<u8>, op: Operation)
    requires
        placed(d, x) is Some,
        item_added(d, (placed(d, x)->0).0, (placed(d, x)->0).1, fragment, op) is Ok,
        d.wf(),
    ensures
        item_below(
            d,
            item_added(d, (placed(d, x)->0).0, (placed(d, x)->0).1, fragment, op)->Ok_0,
            x,
            fragment,
        ),
{
    let s = d.source;
    let (a, b) = placed(d, x)->0;
    values_end_below(s, x.start as int, x.end as int);
    let pos = after_line(s, b);
    owners_are_innermost(d.green, SyntaxKind::SequenceItem, a);
    let e = owner(d.green, SyntaxKind::SequenceItem, a)->0;
    let k = choose|k: int| #[trigger]
        innermost(d.green, SyntaxKind::SequenceItem, a - 1, k) && d.green[k].start == e;
    let c = block_item_column(d, a)->0;
    crate::green::covering_trees_are_sound(d.green, s.len() as int);
    columns_are_counted(s, e);
    let n = item_added(d, a, b, fragment, op)->Ok_0;
    assert(lead(s, pos) + spaces(c) + seq![DASH, SPACE] + fragment + seq![NL] =~= lead(s, pos) + (
    spaces(c) + seq![DASH, SPACE] + fragment + seq![NL]));
    assert(n.source =~= s.subrange(0, pos) + lead(s, pos) + (spaces(c) + seq![DASH, SPACE]
        + fragment + seq![NL]) + s.subrange(pos, s.len() as int));
    assert(grown_at(s, n.source, pos, spaces(c) + seq![DASH, SPACE] + fragment + seq![NL]));
    assert(below_value(s, x.start as int, x.end as int, pos));
    assert(in_column(s, d.green[k].start as int, c));
}

/// Inserting a fragment verbatim below an item writes one line where the line
/// after that item starts, with a `-` in the column of the item's own, and takes
/// no byte away. The item is the one whose range the path has.
pub proof fn an_inserted_item_stands_below_the_one_addressed(
    d: Doc,
    path: Seq<u8>,
    fragment: Seq<u8>,
)
    requires
        d.wf(),
        d.value() is Ok,
        after_insert_after(d, path, fragment) is Ok,
    ensures
        ({
            let p = path_steps(path);
            let (v, sp) = d.value()->Ok_0;
            let n = after_insert_after(d, path, fragment)->Ok_0;
            &&& p.len() > 0
            &&& p.last() is Index
            &&& typed_spot(v, sp, 0, p, 0, false) matches Some((c, through)) ==> !through
                ==> item_below(d, n, sp[c], fragment)
        }),
{
    let p = path_steps(path);
    let (v, sp) = d.value()->Ok_0;
    let parent = p.drop_last();
    assert(p =~= parent.push(p.last()));
    if let Some((c, through)) = typed_spot(v, sp, 0, p, 0, false) {
        if !through {
            spots_are_children(v, sp, 0, parent, p.last(), 0, false);
            added_items_stand_below(d, sp[c], fragment, Operation::InsertAfter);
        }
    }
}

/// Appending a fragment verbatim to a sequence writes one line where the line
/// after its last item starts, with a `-` in the column of that item's own, and
/// takes no byte away.
pub proof fn an_appended_item_stands_below_the_last(d: Doc, path: Seq<u8>, fragment: Seq<u8>)
    requires
        d.wf(),
        after_push_back(d, path, fragment) is Ok,
    ensures
        ({
            let p = path_steps(path);
            let (v, sp) = d.value()->Ok_0;
            let n = after_push_back(d, path, fragment)->Ok_0;
            let list = at(v, p, 0, p.len() as int);
            &&& d.value() is Ok
            &&& list matches Ok(Data::List(l)) && l.len() > 0 && (typed_spot(
                v,
                sp,
                0,
                p.push(Seg::Index(l.len() - 1)),
                0,
                false,
            ) matches Some((c, through)) ==> !through ==> item_below(d, n, sp[c], fragment))
        }),
{
    let p = path_steps(path);
    let (v, sp) = d.value()->Ok_0;
    let l = at(v, p, 0, p.len() as int)->Ok_0->List_0;
    let last = Seg::Index(l.len() - 1);
    if let Some((c, through)) = typed_spot(v, sp, 0, p.push(last), 0, false) {
        if !through {
            spots_are_children(v, sp, 0, p, last, 0, false);
            added_items_stand_below(d, sp[c], fragment, Operation::PushBack);
        }
    }
}

/// Whether span `c` is a child of span `i`.
pub open spec fn is_child(sp: Seq<SpanNode>, i: int, c: int) -> bool {
    exists|k: int| 0 <= k && #[trigger] nth_span(sp, i + 1, i + sp[i].size, k) == Some(c)
}

/// The children that are looked through for the lowest one.
pub(crate) proof fn lowest_among(sp: Seq<SpanNode>, c: int, hi: int, best: Option<int>)
    ensures
        match lowest(sp, c, hi, best) {
            Some(x) => (best == Some(x) || exists|k: int|
                0 <= k && #[trigger] nth_span(sp, c, hi, k) == Some(x)) && (best matches Some(b)
                ==> sp[b].start <= sp[x].start) && forall|k: int|
                0 <= k ==> (#[trigger] nth_span(sp, c, hi, k) matches Some(y) ==> sp[y].start
                    <= sp[x].start),
            None => best is None && forall|k: int|
                0 <= k ==> #[trigger] nth_span(sp, c, hi, k) is None,
        },
    decreases hi - c,
{
    if 0 <= c < hi && hi <= sp.len() && 1 <= sp[c].size && c + sp[c].size <= hi {
        let next = match best {
            Some(b) => if sp[b].start > sp[c].start {
                Some(b)
            } else {
                Some(c)
            },
            None => Some(c),
        };
        let far = c + sp[c].size;
        lowest_among(sp, far, hi, next);
        let r = lowest(sp, far, hi, next);
        assert(nth_span(sp, c, hi, 0) == Some(c));
        assert forall|k: int| 0 < k implies #[trigger] nth_span(sp, c, hi, k) == nth_span(
            sp,
            far,
            hi,
            k - 1,
        ) by {}
        if let Some(x) = r {
            if next != Some(x) {
                let k = choose|k: int| 0 <= k && #[trigger] nth_span(sp, far, hi, k) == Some(x);
                assert(nth_span(sp, c, hi, k + 1) == Some(x));
            }
            assert forall|k: int| 0 <= k implies (#[trigger] nth_span(sp, c, hi, k) matches Some(
                y,
            ) ==> sp[y].start <= sp[x].start) by {
                if k > 0 {
                    assert(nth_span(sp, far, hi, k - 1) == nth_span(sp, c, hi, k));
                }
            }
        }
    }
}

/// The indentation step is never zero.
pub proof fn steps_are_positive(s: Seq<u8>, i: int, prev: Option<int>, seen: Option<int>)
    requires
        seen matches Some(m) ==> m > 0,
    ensures
        indent_step(s, i, prev, seen) > 0,
    decreases s.len() - i,
{
    crate::lines::indent_steps_are_smallest_increases(s);
    let e = run(s, i, s.len() as int, Class::Line);
    let next = line_end(s, i);
    if !(i >= s.len() || next <= i || next > s.len()) {
        let stop = if e < s.len() && i < e && s[e - 1] == crate::text::CR {
            e - 1
        } else {
            e
        };
        let k = run(s, i, stop, Class::Space);
        if k >= stop || s[k] == crate::text::TAB || s[k] == crate::text::HASH {
            steps_are_positive(s, next, prev, seen);
        } else {
            let now = match prev {
                Some(p) if k - i > p => Some(least(k - i - p, seen)),
                _ => seen,
            };
            steps_are_positive(s, next, Some(k - i), now);
        }
    }
}

/// Whether a document is another one with one more entry: below the entry of the
/// mapping with span `i` whose value starts last, its key in the column of that
/// entry, what is below the key one step to the right, and with nothing else
/// changed.
pub open spec fn entry_below(
    d: Doc,
    n: Doc,
    sp: Seq<SpanNode>,
    i: int,
    key: Seq<u8>,
    fragment: Seq<u8>,
) -> bool {
    let unit = indent_step(d.source, 0, None, None);
    exists|x: int, pos: int, k: int, c: int, text: Seq<u8>|
        is_child(sp, i, x) && (forall|y: int| #[trigger]
            is_child(sp, i, y) ==> sp[y].start <= sp[x].start) && #[trigger] below_value(
            d.source,
            sp[x].start as int,
            sp[x].end as int,
            pos,
        ) && #[trigger] innermost(d.green, SyntaxKind::MappingEntry, sp[x].start - 1, k)
            && #[trigger] in_column(d.source, d.green[k].start as int, c)
            && #[trigger] entry_of(text, key, fragment, c, unit) && grown_at(
            d.source,
            n.source,
            pos,
            text,
        )
}

/// A key that a mapping does not have is added below the mapping's other entries,
/// in their column, with the fragment to the right of it, and no byte is taken
/// away.
pub proof fn an_inserted_entry_stands_below_the_others(
    d: Doc,
    path: Seq<u8>,
    key: Seq<u8>,
    fragment: Seq<u8>,
)
    requires
        d.wf(),
        d.value() is Ok,
        after_insert_entry_text(d, path, key, fragment) is Ok,
    ensures
        ({
            let p = path_steps(path);
            let (v, sp) = d.value()->Ok_0;
            let n = after_insert_entry_text(d, path, key, fragment)->Ok_0;
            let spot = typed_spot(v, sp, 0, p, 0, false);
            let (i, through) = spot->0;
            let m = at(v, p, 0, p.len() as int)->Ok_0->Dict_0;
            let low = lowest(sp, i + 1, i + sp[i].size, None)->0;
            &&& spot is Some
            &&& at(v, p, 0, p.len() as int) matches Ok(Data::Dict(_))
            &&& find(m, key) is None && owner(
                d.green,
                SyntaxKind::MappingEntry,
                sp[low].start as int,
            ) is Some ==> entry_below(d, n, sp, i, key, fragment)
        }),
{
    let p = path_steps(path);
    let (v, sp) = d.value()->Ok_0;
    let (i, through) = typed_spot(v, sp, 0, p, 0, false)->0;
    let m = at(v, p, 0, p.len() as int)->Ok_0->Dict_0;
    let s = d.source;
    let x = lowest(sp, i + 1, i + sp[i].size, None)->0;
    if find(m, key) is None && owner(d.green, SyntaxKind::MappingEntry, sp[x].start as int) is Some {
        lowest_among(sp, i + 1, i + sp[i].size, None);
        assert(is_child(sp, i, x));
        assert forall|y: int| #[trigger] is_child(sp, i, y) implies sp[y].start <= sp[x].start by {
            let k = choose|k: int|
                0 <= k && #[trigger] nth_span(sp, i + 1, i + sp[i].size, k) == Some(y);
        }
        let (a, b) = placed(d, sp[x])->0;
        values_end_below(s, sp[x].start as int, sp[x].end as int);
        let pos = after_line(s, b);
        owners_are_innermost(d.green, SyntaxKind::MappingEntry, a);
        let e = owner(d.green, SyntaxKind::MappingEntry, a)->0;
        let k = choose|k: int| #[trigger]
            innermost(d.green, SyntaxKind::MappingEntry, a - 1, k) && d.green[k].start == e;
        crate::green::covering_trees_are_sound(d.green, s.len() as int);
        columns_are_counted(s, e);
        let c = key_column(s, d.green, a);
        let unit = indent_step(s, 0, None, None);
        steps_are_positive(s, 0, None, None);
        new_entries_hold_their_fragment(key, fragment, c, unit);
        let text = entry_text(key, fragment, c, unit);
        let n = after_insert_entry_text(d, path, key, fragment)->Ok_0;
        assert(n.source =~= s.subrange(0, pos) + lead(s, pos) + text + s.subrange(
            pos,
            s.len() as int,
        ));
        assert(grown_at(s, n.source, pos, text));
        assert(below_value(s, sp[x].start as int, sp[x].end as int, pos));
        assert(in_column(s, d.green[k].start as int, c));
    }
}

/// A fragment set under a key that the mapping has itself takes the place of the
/// value there, as [`crate::document::Document::set`] would put it, and every
/// other byte stays. A value without bytes gets them behind its `:`.
pub proof fn an_entry_that_is_there_gets_the_fragment(
    d: Doc,
    path: Seq<u8>,
    key: Seq<u8>,
    fragment: Seq<u8>,
)
    requires
        d.value() is Ok,
        after_insert_entry_text(d, path, key, fragment) is Ok,
    ensures
        ({
            let p = path_steps(path);
            let q = p.push(Seg::Key(key));
            let (v, sp) = d.value()->Ok_0;
            let n = after_insert_entry_text(d, path, key, fragment)->Ok_0;
            typed_spot(v, sp, 0, q, 0, false) matches Some((c, through)) ==> !through ==> match span_of(
                d,
                q,
            ) {
                Some((a, b)) => n.source == splice(d.source, a, b, fragment),
                None => {
                    let a = sp[c].start as int;
                    &&& sp[c].start == sp[c].end
                    &&& 0 < a <= d.source.len()
                    &&& d.source[a - 1] == COLON
                    &&& n.source == splice(d.source, a, a, seq![SPACE] + fragment)
                },
            }
        }),
{
    let p = path_steps(path);
    let q = p.push(Seg::Key(key));
    let (v, sp) = d.value()->Ok_0;
    if let Some((c, through)) = typed_spot(v, sp, 0, q, 0, false) {
        if !through {
            spots_are_children(v, sp, 0, p, Seg::Key(key), 0, false);
        }
    }
}

} // verus!
