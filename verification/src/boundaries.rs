//! Where the documents of a stream begin.
use crate::growth::lines_end_behind_feeds;
use crate::lexis::{has_bom, triple};
use crate::lines::line_end;
use crate::stream::{cuts, document_cuts, trivia_line};
use crate::text::{DASH, DOT, NL, PERCENT};
use vstd::prelude::*;

verus! {

/// Where the first line of a stream starts: behind the mark in front of it, if
/// there is one.
pub open spec fn first_line(s: Seq<u8>) -> int {
    if has_bom(s) {
        3
    } else {
        0
    }
}

/// Whether a line of the stream starts at `i`.
pub open spec fn is_line(s: Seq<u8>, i: int) -> bool {
    &&& first_line(s) <= i < s.len()
    &&& i == first_line(s) || s[i - 1] == NL
}

/// Whether the line at `i` is part of a document: a `---`, or neither a `...` nor
/// a directive nor blank.
pub open spec fn opens(s: Seq<u8>, i: int) -> bool {
    triple(s, i, DASH) || !(triple(s, i, DOT) || trivia_line(s, i) || s[i] == PERCENT)
}

/// Whether `c` is one of the cuts.
pub open spec fn cut_at(at: Seq<int>, c: int) -> bool {
    exists|k: int| 0 <= k < at.len() && #[trigger] at[k] == c
}

/// Whether one of the cuts lies behind `j` and not behind `i`.
pub open spec fn cut_between(at: Seq<int>, j: int, i: int) -> bool {
    exists|k: int| 0 <= k < at.len() && j < #[trigger] at[k] <= i
}

/// Whether the line at `i` shares its document with an earlier line that is part
/// of one.
pub open spec fn continues(s: Seq<u8>, at: Seq<int>, i: int) -> bool {
    exists|j: int| #[trigger] is_line(s, j) && j < i && opens(s, j) && !cut_between(at, j, i)
}

/// Whether the line before `c` is a `...`.
pub open spec fn behind_dots(s: Seq<u8>, c: int) -> bool {
    exists|j: int| #[trigger] is_line(s, j) && triple(s, j, DOT) && line_end(s, j) == c
}

/// What is known of the cuts found before line `i`.
spec fn known(s: Seq<u8>, i: int, open: bool, acc: Seq<int>) -> bool {
    &&& forall|k: int|
        0 <= k < acc.len() ==> (#[trigger] acc[k]) <= i && (triple(s, acc[k], DASH) || behind_dots(
            s,
            acc[k],
        ))
    &&& forall|j: int, k: int| 0 <= j < k < acc.len() ==> #[trigger] acc[j] < #[trigger] acc[k]
    &&& open ==> forall|k: int| 0 <= k < acc.len() ==> (#[trigger] acc[k]) < i
    &&& open == continues(s, acc, i)
    &&& forall|j: int|
        #[trigger] is_line(s, j) && j < i && triple(s, j, DASH) ==> cut_at(acc, j) || !continues(
            s,
            acc,
            j,
        )
    &&& forall|j: int|
        #[trigger] is_line(s, j) && j < i && triple(s, j, DOT) && continues(s, acc, j) ==> cut_at(
            acc,
            line_end(s, j),
        ) || line_end(s, j) >= s.len()
}

proof fn later_cuts_change_nothing(s: Seq<u8>, acc: Seq<int>, c: int, i: int)
    requires
        i < c,
    ensures
        continues(s, acc.push(c), i) == continues(s, acc, i),
{
    let more = acc.push(c);
    assert forall|j: int| cut_between(more, j, i) == cut_between(acc, j, i) by {
        if cut_between(more, j, i) {
            let k = choose|k: int| 0 <= k < more.len() && j < #[trigger] more[k] <= i;
            assert(acc[k] == more[k]);
        }
        if cut_between(acc, j, i) {
            let k = choose|k: int| 0 <= k < acc.len() && j < #[trigger] acc[k] <= i;
            assert(more[k] == acc[k]);
        }
    }
}

proof fn cuts_stay(acc: Seq<int>, c: int, x: int)
    requires
        cut_at(acc, x),
    ensures
        cut_at(acc.push(c), x),
{
    let k = choose|k: int| 0 <= k < acc.len() && #[trigger] acc[k] == x;
    assert(acc.push(c)[k] == x);
}

/// The lines before the one after `i` are those before `i`, and `i`.
proof fn one_line_further(s: Seq<u8>, i: int)
    requires
        is_line(s, i),
    ensures
        i < line_end(s, i) <= s.len(),
        line_end(s, i) < s.len() ==> is_line(s, line_end(s, i)),
        forall|j: int| #[trigger] is_line(s, j) && j < line_end(s, i) ==> j <= i,
{
    lines_end_behind_feeds(s, i);
    assert forall|j: int| #[trigger] is_line(s, j) && j < line_end(s, i) implies j <= i by {
        if j > i {
            assert(s[j - 1] == NL);
        }
    }
}

/// Whether the next line still shares a document with an earlier one, if no cut is
/// made at its start.
proof fn documents_go_on(s: Seq<u8>, acc: Seq<int>, i: int)
    requires
        is_line(s, i),
        forall|k: int| 0 <= k < acc.len() ==> (#[trigger] acc[k]) <= i,
    ensures
        continues(s, acc, line_end(s, i)) == (continues(s, acc, i) || opens(s, i)),
{
    let e = line_end(s, i);
    one_line_further(s, i);
    assert forall|j: int| cut_between(acc, j, e) == cut_between(acc, j, i) by {
        if cut_between(acc, j, e) {
            let k = choose|k: int| 0 <= k < acc.len() && j < #[trigger] acc[k] <= e;
            assert(j < acc[k] <= i);
        }
        if cut_between(acc, j, i) {
            let k = choose|k: int| 0 <= k < acc.len() && j < #[trigger] acc[k] <= i;
            assert(j < acc[k] <= e);
        }
    }
    if opens(s, i) {
        assert(!cut_between(acc, i, e)) by {
            if cut_between(acc, i, i) {
                let k = choose|k: int| 0 <= k < acc.len() && i < #[trigger] acc[k] <= i;
            }
        }
        assert(is_line(s, i) && i < e);
    }
    if continues(s, acc, e) {
        let j = choose|j: int| #[trigger]
            is_line(s, j) && j < e && opens(s, j) && !cut_between(acc, j, e);
        if j < i {
            assert(continues(s, acc, i));
        }
    }
    if continues(s, acc, i) {
        let j = choose|j: int| #[trigger]
            is_line(s, j) && j < i && opens(s, j) && !cut_between(acc, j, i);
        assert(is_line(s, j) && j < e);
    }
}

proof fn one_more_cut(s: Seq<u8>, i: int, acc: Seq<int>, c: int)
    requires
        known(s, i, true, acc),
        is_line(s, i),
        c == i && triple(s, i, DASH) || c == line_end(s, i) && triple(s, i, DOT),
    ensures
        known(s, line_end(s, i), triple(s, i, DASH) && c == i, acc.push(c)),
{
    let more = acc.push(c);
    let e = line_end(s, i);
    one_line_further(s, i);
    assert(more[acc.len() as int] == c);
    assert forall|k: int| 0 <= k < more.len() implies (#[trigger] more[k]) <= e && (triple(
        s,
        more[k],
        DASH,
    ) || behind_dots(s, more[k])) by {
        if k < acc.len() {
            assert(more[k] == acc[k]);
        }
    }
    assert forall|j: int, k: int| 0 <= j < k < more.len() implies #[trigger] more[j]
        < #[trigger] more[k] by {
        assert(more[j] == acc[j]);
        if k < acc.len() {
            assert(more[k] == acc[k]);
        }
    }
    assert forall|j: int|
        #[trigger] is_line(s, j) && j < e && triple(s, j, DASH) implies cut_at(more, j)
        || !continues(s, more, j) by {
        if j < i {
            later_cuts_change_nothing(s, acc, c, j);
            if cut_at(acc, j) {
                cuts_stay(acc, c, j);
            }
        } else if c == i {
            assert(more[acc.len() as int] == j);
        }
    }
    assert forall|j: int|
        #[trigger] is_line(s, j) && j < e && triple(s, j, DOT) && continues(s, more, j) implies cut_at(
        more,
        line_end(s, j),
    ) || line_end(s, j) >= s.len() by {
        if j < i {
            later_cuts_change_nothing(s, acc, c, j);
            if cut_at(acc, line_end(s, j)) {
                cuts_stay(acc, c, line_end(s, j));
            }
        } else if c == e {
            assert(more[acc.len() as int] == line_end(s, j));
        }
    }
    if c == i && triple(s, i, DASH) {
        documents_go_on(s, more, i);
    } else {
        assert(!continues(s, more, e)) by {
            if continues(s, more, e) {
                let j = choose|j: int| #[trigger]
                    is_line(s, j) && j < e && opens(s, j) && !cut_between(more, j, e);
                assert(j < more[acc.len() as int] <= e);
            }
        }
    }
}

proof fn no_more_cut(s: Seq<u8>, i: int, open: bool, acc: Seq<int>)
    requires
        known(s, i, open, acc),
        is_line(s, i),
        triple(s, i, DASH) ==> !open,
        triple(s, i, DOT) && open ==> line_end(s, i) >= s.len(),
    ensures
        known(s, line_end(s, i), open || opens(s, i), acc),
{
    let e = line_end(s, i);
    one_line_further(s, i);
    documents_go_on(s, acc, i);
    assert forall|j: int|
        #[trigger] is_line(s, j) && j < e && triple(s, j, DASH) implies cut_at(acc, j) || !continues(
        s,
        acc,
        j,
    ) by {
        if j == i {
            assert(!open);
        }
    }
    assert forall|j: int|
        #[trigger] is_line(s, j) && j < e && triple(s, j, DOT) && continues(s, acc, j) implies cut_at(
        acc,
        line_end(s, j),
    ) || line_end(s, j) >= s.len() by {}
}

/// What holds of the cuts of a stream: each is at a `---` or behind a `...`. A
/// `---` that is not at a cut is the first line of its document to be part of it.
/// A `...` in a document has a cut behind it, or nothing behind it that is part of
/// a document.
pub open spec fn well_cut(s: Seq<u8>, at: Seq<int>) -> bool {
    &&& forall|k: int|
        0 <= k < at.len() ==> triple(s, #[trigger] at[k], DASH) || behind_dots(s, at[k])
    &&& forall|j: int|
        #[trigger] is_line(s, j) && triple(s, j, DASH) ==> cut_at(at, j) || !continues(s, at, j)
    &&& forall|j: int|
        #[trigger] is_line(s, j) && triple(s, j, DOT) && continues(s, at, j) ==> cut_at(
            at,
            line_end(s, j),
        ) || forall|x: int| #[trigger] is_line(s, x) && line_end(s, j) <= x ==> !opens(s, x)
}

proof fn last_cuts_hold(s: Seq<u8>, i: int, open: bool, acc: Seq<int>)
    requires
        known(s, i, open, acc),
        i >= s.len(),
    ensures
        well_cut(
            s,
            if open || acc.len() == 0 {
                acc
            } else {
                acc.drop_last()
            },
        ),
{
    let at = acc.drop_last();
    if !(open || acc.len() == 0) {
        let last = acc.len() - 1;
        let c = acc[last];
        // Nothing at or behind the last cut is part of a document.
        assert forall|x: int| #[trigger] is_line(s, x) && c <= x implies !opens(s, x) by {
            if opens(s, x) {
                assert(!cut_between(acc, x, i)) by {
                    if cut_between(acc, x, i) {
                        let k = choose|k: int| 0 <= k < acc.len() && x < #[trigger] acc[k] <= i;
                        assert(acc[k] <= acc[last]);
                    }
                }
                assert(continues(s, acc, i));
            }
        }
        assert forall|k: int| 0 <= k < at.len() implies triple(s, #[trigger] at[k], DASH)
            || behind_dots(s, at[k]) by {
            assert(at[k] == acc[k]);
        }
        assert forall|j: int, x: int|
            cut_between(acc, j, x) && !cut_between(at, j, x) implies j < c <= x by {
            let k = choose|k: int| 0 <= k < acc.len() && j < #[trigger] acc[k] <= x;
            if k < last {
                assert(at[k] == acc[k]);
            }
        }
        assert forall|j: int| #[trigger] is_line(s, j) && triple(s, j, DASH) implies cut_at(at, j)
            || !continues(s, at, j) by {
            assert(j < c);
            if cut_at(acc, j) {
                let k = choose|k: int| 0 <= k < acc.len() && #[trigger] acc[k] == j;
                assert(at[k] == j);
            } else if continues(s, at, j) {
                let y = choose|y: int| #[trigger]
                    is_line(s, y) && y < j && opens(s, y) && !cut_between(at, y, j);
                assert(cut_between(acc, y, j));
            }
        }
        assert forall|j: int|
            #[trigger] is_line(s, j) && triple(s, j, DOT) && continues(s, at, j) implies cut_at(
            at,
            line_end(s, j),
        ) || forall|x: int| #[trigger] is_line(s, x) && line_end(s, j) <= x ==> !opens(s, x) by {
            one_line_further(s, j);
            if continues(s, acc, j) {
                if cut_at(acc, line_end(s, j)) {
                    let k = choose|k: int| 0 <= k < acc.len() && #[trigger] acc[k] == line_end(s, j);
                    if k < last {
                        assert(at[k] == line_end(s, j));
                    }
                }
            } else {
                let y = choose|y: int| #[trigger]
                    is_line(s, y) && y < j && opens(s, y) && !cut_between(at, y, j);
                assert(cut_between(acc, y, j));
                assert(c <= j);
            }
        }
    }
}

proof fn cuts_are_known(s: Seq<u8>, i: int, open: bool, acc: Seq<int>)
    requires
        known(s, i, open, acc),
        i >= s.len() || is_line(s, i),
        0 <= i,
    ensures
        well_cut(s, cuts(s, i, open, acc)),
    decreases s.len() - i,
{
    let e = line_end(s, i);
    if i >= s.len() {
        last_cuts_hold(s, i, open, acc);
    } else {
        one_line_further(s, i);
        if triple(s, i, DASH) {
            if open {
                one_more_cut(s, i, acc, i);
                cuts_are_known(s, e, true, acc.push(i));
            } else {
                no_more_cut(s, i, open, acc);
                cuts_are_known(s, e, true, acc);
            }
        } else if triple(s, i, DOT) {
            if open && e < s.len() {
                one_more_cut(s, i, acc, e);
                cuts_are_known(s, e, false, acc.push(e));
            } else {
                no_more_cut(s, i, open, acc);
                cuts_are_known(s, e, open && e >= s.len(), acc);
            }
        } else {
            no_more_cut(s, i, open, acc);
            cuts_are_known(s, e, open || opens(s, i), acc);
        }
    }
}

/// A stream is cut where its marks say: at each `---` that something of a document
/// stands before, and behind each `...` that something of a document stands
/// behind, and nowhere else.
pub proof fn streams_are_cut_at_their_marks(s: Seq<u8>)
    ensures
        well_cut(s, document_cuts(s)),
{
    let i = first_line(s);
    let none = Seq::<int>::empty();
    assert(!continues(s, none, i));
    cuts_are_known(s, i, false, none);
}

} // verus!
