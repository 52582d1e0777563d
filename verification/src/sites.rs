//! What an edit finds around the value that it replaces.
use crate::green::{covers, sound};
use crate::growth::{columns_are_counted, in_column, innermost, owners_are_innermost};
use crate::siblings::{next, steps_to};
use crate::site::{
    alias_count, anchored_span, covering_aliases, dominant_style, enclosing, holder_column, leaf,
    leaf_at, mark_name, neighbour_style, owner, tally, value_scalar,
};
use crate::syntax::{node_kind, Elem, SyntaxKind};
use crate::tiling::laid;
use vstd::prelude::*;

verus! {

/// The siblings from `c` up to `hi`.
pub open spec fn siblings(t: Seq<Elem>, c: int, hi: int) -> Seq<int>
    decreases hi - c,
{
    if !steps_to(t, c, hi) {
        Seq::empty()
    } else {
        seq![c] + siblings(t, next(t, c), hi)
    }
}

/// Whether a sibling is an entry, other than `exclude`, with a scalar of the kind
/// as its value.
pub open spec fn has_scalar(t: Seq<Elem>, exclude: int, kind: SyntaxKind) -> spec_fn(int) -> bool {
    |c: int|
        t[c].kind == SyntaxKind::MappingEntry && c != exclude && value_scalar(
            t,
            c + 1,
            next(t, c),
            false,
        ) == Some(kind)
}

/// Those among the siblings that are entries, other than `exclude`, with a scalar
/// of the kind as their value.
pub open spec fn written_in(t: Seq<Elem>, all: Seq<int>, exclude: int, kind: SyntaxKind) -> Seq<int> {
    all.filter(has_scalar(t, exclude, kind))
}

proof fn tallies_count(t: Seq<Elem>, c: int, hi: int, exclude: int, kind: SyntaxKind)
    ensures
        tally(t, c, hi, exclude, kind) == written_in(t, siblings(t, c, hi), exclude, kind).len(),
    decreases hi - c,
{
    let all = siblings(t, c, hi);
    let pred = has_scalar(t, exclude, kind);
    if steps_to(t, c, hi) {
        tallies_count(t, next(t, c), hi, exclude, kind);
        let rest = siblings(t, next(t, c), hi);
        Seq::filter_distributes_over_add(seq![c], rest, pred);
        assert(seq![c].filter(pred) =~= if pred(c) {
            seq![c]
        } else {
            Seq::empty()
        }) by {
            reveal(Seq::filter);
            assert(seq![c].drop_last() =~= Seq::empty());
            assert(seq![c].last() == c);
            assert(Seq::<int>::empty().filter(pred) =~= Seq::empty());
        }
    } else {
        reveal(Seq::filter);
        assert(all.filter(pred) =~= Seq::empty());
    }
}

/// The other entries of a mapping agree on quotes of a kind exactly if two of them
/// at least have values in such quotes, more than have plain ones and more than
/// have them in the others.
pub proof fn neighbours_agree_by_majority(t: Seq<Elem>, m: int, exclude: int)
    ensures
        ({
            let all = siblings(t, m + 1, next(t, m));
            let plain = written_in(t, all, exclude, SyntaxKind::PlainScalar).len();
            let single = written_in(t, all, exclude, SyntaxKind::SingleQuotedScalar).len();
            let double = written_in(t, all, exclude, SyntaxKind::DoubleQuotedScalar).len();
            let style = dominant_style(t, m, exclude);
            &&& style == Some(SyntaxKind::SingleQuotedScalar) <==> single >= 2 && single > plain
                && single > double
            &&& style == Some(SyntaxKind::DoubleQuotedScalar) <==> double >= 2 && double > plain
                && double > single
            &&& style matches Some(k) ==> k == SyntaxKind::SingleQuotedScalar || k
                == SyntaxKind::DoubleQuotedScalar
        }),
{
    let hi = next(t, m);
    tallies_count(t, m + 1, hi, exclude, SyntaxKind::PlainScalar);
    tallies_count(t, m + 1, hi, exclude, SyntaxKind::SingleQuotedScalar);
    tallies_count(t, m + 1, hi, exclude, SyntaxKind::DoubleQuotedScalar);
}

/// Whether element `j` is an alias with the name of the anchor at `i`.
pub open spec fn refers_to(s: Seq<u8>, t: Seq<Elem>, j: int, i: int) -> bool {
    &&& 0 <= j < t.len()
    &&& t[j].kind == SyntaxKind::AliasMark
    &&& mark_name(s, t[j]) == mark_name(s, t[i])
}

/// Whether byte `pos` is part of what the anchor at `i` marks, and an alias refers
/// to it.
pub open spec fn shared_through(s: Seq<u8>, t: Seq<Elem>, i: int, pos: int) -> bool {
    &&& 0 <= i < t.len()
    &&& t[i].kind == SyntaxKind::AnchorMark
    &&& anchored_span(t, 1, t.len() as int, t[i].start as int) matches Some((a, b)) && a <= pos < b
    &&& exists|j: int| #[trigger] refers_to(s, t, j, i)
}

proof fn aliases_are_counted(s: Seq<u8>, t: Seq<Elem>, name: Seq<u8>, n: int)
    requires
        0 <= n <= t.len(),
    ensures
        0 <= alias_count(s, t, name, n),
        alias_count(s, t, name, n) > 0 <==> exists|j: int|
            0 <= j < n && (#[trigger] t[j]).kind == SyntaxKind::AliasMark && mark_name(s, t[j])
                == name,
    decreases n,
{
    if n > 0 {
        aliases_are_counted(s, t, name, n - 1);
        if t[n - 1].kind == SyntaxKind::AliasMark && mark_name(s, t[n - 1]) == name {
            assert(t[n - 1].kind == SyntaxKind::AliasMark);
        }
    }
}

proof fn shared_from(s: Seq<u8>, t: Seq<Elem>, i: int, pos: int)
    requires
        0 <= i <= t.len(),
    ensures
        0 <= covering_aliases(s, t, i, pos),
        covering_aliases(s, t, i, pos) > 0 <==> exists|k: int|
            i <= k && #[trigger] shared_through(s, t, k, pos),
    decreases t.len() - i,
{
    if i < t.len() {
        shared_from(s, t, i + 1, pos);
        aliases_are_counted(s, t, mark_name(s, t[i]), t.len() as int);
        let here = shared_through(s, t, i, pos);
        let count = alias_count(s, t, mark_name(s, t[i]), t.len() as int);
        if count > 0 {
            let j = choose|j: int|
                0 <= j < t.len() && (#[trigger] t[j]).kind == SyntaxKind::AliasMark && mark_name(
                    s,
                    t[j],
                ) == mark_name(s, t[i]);
            assert(refers_to(s, t, j, i));
        }
        if here {
            let j = choose|j: int| #[trigger] refers_to(s, t, j, i);
            assert(t[j].kind == SyntaxKind::AliasMark);
            assert(count > 0);
        }
        if exists|k: int| i <= k && #[trigger] shared_through(s, t, k, pos) {
            let k = choose|k: int| i <= k && #[trigger] shared_through(s, t, k, pos);
            if k != i {
                assert(i + 1 <= k && shared_through(s, t, k, pos));
            }
        }
    }
}

/// Bytes are shared through aliases exactly if they are part of what an anchor
/// marks that an alias refers to.
pub proof fn bytes_are_shared_through_aliases(s: Seq<u8>, t: Seq<Elem>, pos: int)
    ensures
        covering_aliases(s, t, 0, pos) > 0 <==> exists|i: int| #[trigger]
            shared_through(s, t, i, pos),
{
    shared_from(s, t, 0, pos);
    if exists|i: int| #[trigger] shared_through(s, t, i, pos) {
        let i = choose|i: int| #[trigger] shared_through(s, t, i, pos);
        assert(0 <= i && shared_through(s, t, i, pos));
    }
}

/// What a value stands in is the innermost entry or item around it, and its column
/// that of the key or the `-` there.
pub proof fn values_stand_in_the_innermost_holder(s: Seq<u8>, t: Seq<Elem>, value: int)
    requires
        sound(t, s.len() as int),
        owner(t, SyntaxKind::MappingEntry, value) is Some || owner(
            t,
            SyntaxKind::SequenceItem,
            value,
        ) is Some,
    ensures
        exists|k: int| #[trigger]
            holds_it(t, value, k) && in_column(s, t[k].start as int, holder_column(s, t, value)),
{
    owners_are_innermost(t, SyntaxKind::MappingEntry, value);
    owners_are_innermost(t, SyntaxKind::SequenceItem, value);
    let entry = owner(t, SyntaxKind::MappingEntry, value);
    let item = owner(t, SyntaxKind::SequenceItem, value);
    let x = choose|k: int| #[trigger]
        innermost(t, SyntaxKind::MappingEntry, value - 1, k) && Some(t[k].start as int) == entry;
    let y = choose|k: int| #[trigger]
        innermost(t, SyntaxKind::SequenceItem, value - 1, k) && Some(t[k].start as int) == item;
    let k = if item is None || (entry is Some && entry->0 > item->0) {
        x
    } else {
        y
    };
    columns_are_counted(s, t[k].start as int);
    assert(holds_it(t, value, k));
}

/// Whether element `k` is the entry or item, of all around the byte before `value`,
/// that starts last.
pub open spec fn holds_it(t: Seq<Elem>, value: int, k: int) -> bool {
    &&& innermost(t, SyntaxKind::MappingEntry, value - 1, k) || innermost(
        t,
        SyntaxKind::SequenceItem,
        value - 1,
        k,
    )
    &&& forall|j: int|
        innermost(t, SyntaxKind::MappingEntry, value - 1, j) || innermost(
            t,
            SyntaxKind::SequenceItem,
            value - 1,
            j,
        ) ==> (#[trigger] t[j]).start <= t[k].start
}

/// Whether element `j` is a node around element `x`.
pub open spec fn around_element(t: Seq<Elem>, j: int, x: int) -> bool {
    0 <= j < x < next(t, j)
}

/// Whether element `x` is a token that holds byte `target`.
pub open spec fn token_with(t: Seq<Elem>, x: int, target: int) -> bool {
    &&& 0 <= x < t.len()
    &&& !node_kind(t[x].kind)
    &&& t[x].start <= target < t[x].end
}

/// Whether `m` is the last node of the kind around element `x`.
pub open spec fn last_around(t: Seq<Elem>, kind: SyntaxKind, x: int, m: int) -> bool {
    &&& around_element(t, m, x)
    &&& t[m].kind == kind
    &&& forall|j: int| m < j && #[trigger] around_element(t, j, x) ==> t[j].kind != kind
}

proof fn tokens_are_found(t: Seq<Elem>, n: int, i: int, c: int, hi: int, target: int)
    requires
        laid(t, n, n),
        0 <= i < c,
        hi == next(t, i),
        forall|j: int| i < j < c ==> next(t, j) <= c,
    ensures
        leaf(t, i, c, hi, target) matches Some((x, p)) ==> token_with(t, x, target) && around_element(
            t,
            p,
            x,
        ) && forall|j: int| p < j ==> !#[trigger] around_element(t, j, x),
    decreases t.len() - c,
{
    if steps_to(t, c, hi) {
        let far = next(t, c);
        if t[c].start <= target < t[c].end {
            if node_kind(t[c].kind) {
                tokens_are_found(t, n, c, c + 1, far, target);
            } else {
                assert(token_with(t, c, target));
                assert forall|j: int| i < j implies !#[trigger] around_element(t, j, c) by {
                    if around_element(t, j, c) {
                        assert(next(t, j) <= c);
                    }
                }
            }
        } else {
            assert forall|j: int| i < j < far implies next(t, j) <= far by {
                if j > c {
                    assert(j + t[j].size <= c + t[c].size);
                }
            }
            tokens_are_found(t, n, i, far, hi, target);
        }
    }
}

/// The token at a byte holds that byte, and its parent is the innermost node around
/// it.
pub proof fn tokens_hold_their_bytes(t: Seq<Elem>, n: int, target: int)
    requires
        covers(t, n),
    ensures
        leaf_at(t, target) matches Some((x, p)) ==> token_with(t, x, target) && around_element(
            t,
            p,
            x,
        ) && forall|j: int| p < j ==> !#[trigger] around_element(t, j, x),
{
    tokens_are_found(t, n, 0, 1, t.len() as int, target);
}

/// Whether `m` is the last node of the kind that is open at `c`, and stays open up
/// to `hi`.
spec fn last_open(t: Seq<Elem>, kind: SyntaxKind, c: int, hi: int, m: Option<int>) -> bool {
    &&& m matches Some(a) ==> 0 <= a < c && t[a].kind == kind && hi <= next(t, a)
    &&& forall|j: int|
        0 <= j < c && (#[trigger] t[j]).kind == kind && next(t, j) > c ==> m is Some && j <= m->0
}

proof fn nodes_close(t: Seq<Elem>, n: int, kind: SyntaxKind, c: int, hi: int, m: Option<int>)
    requires
        laid(t, n, n),
        last_open(t, kind, c, hi, m),
        0 <= c,
        steps_to(t, c, hi),
    ensures
        last_open(t, kind, next(t, c), hi, m),
        last_open(
            t,
            kind,
            c + 1,
            next(t, c),
            if t[c].kind == kind {
                Some(c)
            } else {
                m
            },
        ),
{
    let far = next(t, c);
    assert forall|j: int|
        0 <= j < far && (#[trigger] t[j]).kind == kind && next(t, j) > far implies m is Some && j
        <= m->0 by {
        if j > c {
            assert(j + t[j].size <= c + t[c].size);
        }
    }
}

proof fn enclosing_is_innermost(
    t: Seq<Elem>,
    n: int,
    c: int,
    hi: int,
    target: int,
    m: Option<int>,
    e: Option<int>,
)
    requires
        laid(t, n, n),
        0 <= c,
        last_open(t, SyntaxKind::BlockMapping, c, hi, m),
        last_open(t, SyntaxKind::MappingEntry, c, hi, e),
    ensures
        enclosing(t, c, hi, target, m, e) matches Some((a, b)) ==> exists|x: int| #[trigger]
            token_with(t, x, target) && last_around(t, SyntaxKind::BlockMapping, x, a)
                && last_around(t, SyntaxKind::MappingEntry, x, b),
    decreases t.len() - c,
{
    if steps_to(t, c, hi) {
        let far = next(t, c);
        nodes_close(t, n, SyntaxKind::BlockMapping, c, hi, m);
        nodes_close(t, n, SyntaxKind::MappingEntry, c, hi, e);
        if t[c].start <= target < t[c].end {
            if node_kind(t[c].kind) {
                let m2 = if t[c].kind == SyntaxKind::BlockMapping {
                    Some(c)
                } else {
                    m
                };
                let e2 = if t[c].kind == SyntaxKind::MappingEntry {
                    Some(c)
                } else {
                    e
                };
                enclosing_is_innermost(t, n, c + 1, far, target, m2, e2);
                enclosing_is_innermost(t, n, far, hi, target, m, e);
            } else if m is Some && e is Some {
                assert(token_with(t, c, target));
                assert forall|j: int| m->0 < j && #[trigger] around_element(t, j, c) implies t[j].kind
                    != SyntaxKind::BlockMapping by {}
                assert forall|j: int| e->0 < j && #[trigger] around_element(t, j, c) implies t[j].kind
                    != SyntaxKind::MappingEntry by {}
                assert(last_around(t, SyntaxKind::BlockMapping, c, m->0));
                assert(last_around(t, SyntaxKind::MappingEntry, c, e->0));
            }
        } else {
            enclosing_is_innermost(t, n, far, hi, target, m, e);
        }
    }
}

/// The neighbours of a value are the other entries of the innermost block mapping
/// around it: that whose style counts for it.
pub proof fn neighbours_are_in_the_innermost_mapping(t: Seq<Elem>, n: int, target: int)
    requires
        covers(t, n),
        neighbour_style(t, target) is Some,
    ensures
        exists|x: int, m: int, e: int|
            #![trigger token_with(t, x, target), dominant_style(t, m, e)]
            token_with(t, x, target) && last_around(t, SyntaxKind::BlockMapping, x, m)
                && last_around(t, SyntaxKind::MappingEntry, x, e) && neighbour_style(t, target)
                == dominant_style(t, m, e),
{
    let hi = t.len() as int;
    enclosing_is_innermost(t, n, 1, hi, target, None, None);
    let (m, e) = enclosing(t, 1, hi, target, None, None)->0;
    let x = choose|x: int| #[trigger]
        token_with(t, x, target) && last_around(t, SyntaxKind::BlockMapping, x, m) && last_around(
            t,
            SyntaxKind::MappingEntry,
            x,
            e,
        );
    assert(token_with(t, x, target) && neighbour_style(t, target) == dominant_style(t, m, e));
}

} // verus!
