//! Repairing the syntax tree after an edit by parsing again no more than the
//! smallest block node around it.
use crate::green::{
    covering_trees_are_sound, covers, parse_subtree, rebuild_with_splice, replaced_subtree, replaced_subtrees_cover,
    sound, subtrees_tile, whole_subtree, MAX_SOURCE,
};
use crate::lines::{entry_indent_column, indent_column};
use crate::siblings::{next, steps_to};
use crate::syntax::{is_node_kind, node_kind, Elem, SyntaxKind};
use crate::text::{copy, AMP, BANG, STAR};
use vstd::prelude::*;

verus! {

/// How much of a document was parsed again for its latest edit.
#[derive(Clone, Copy, PartialEq, Eq, Structural, Debug)]
pub enum RepairScope {
    /// One scalar.
    Scalar,
    /// One mapping entry or sequence item.
    Entry,
    /// One collection.
    Collection,
    /// The whole document.
    Document,
}

/// The scope of a repair at a node of the given kind.
pub open spec fn scope_of(kind: SyntaxKind) -> RepairScope {
    if kind == SyntaxKind::MappingEntry || kind == SyntaxKind::SequenceItem {
        RepairScope::Entry
    } else if kind == SyntaxKind::BlockMapping || kind == SyntaxKind::BlockSequence || kind
        == SyntaxKind::FlowMapping || kind == SyntaxKind::FlowSequence {
        RepairScope::Collection
    } else {
        RepairScope::Document
    }
}

/// The scope of a repair at a node of the given kind.
pub fn scope_for_kind(kind: SyntaxKind) -> (r: RepairScope)
    ensures
        r == scope_of(kind),
{
    if kind == SyntaxKind::MappingEntry || kind == SyntaxKind::SequenceItem {
        RepairScope::Entry
    } else if kind == SyntaxKind::BlockMapping || kind == SyntaxKind::BlockSequence || kind
        == SyntaxKind::FlowMapping || kind == SyntaxKind::FlowSequence {
        RepairScope::Collection
    } else {
        RepairScope::Document
    }
}

/// Whether a node of the given kind can be parsed again on its own.
pub open spec fn repairable(kind: SyntaxKind) -> bool {
    kind == SyntaxKind::BlockMapping || kind == SyntaxKind::BlockSequence || kind
        == SyntaxKind::MappingEntry || kind == SyntaxKind::SequenceItem
}

/// Whether a node of the given kind can be parsed again on its own.
pub fn is_repairable(kind: SyntaxKind) -> (r: bool)
    ensures
        r == repairable(kind),
{
    kind == SyntaxKind::BlockMapping || kind == SyntaxKind::BlockSequence || kind
        == SyntaxKind::MappingEntry || kind == SyntaxKind::SequenceItem
}

/// Whether an anchor, alias or tag of the tree overlaps the bytes `a..b`.
pub open spec fn region_marked(t: Seq<Elem>, a: int, b: int) -> bool {
    exists|i: int|
        0 <= i < t.len() && marks(#[trigger] t[i]) && t[i].start < b && t[i].end > a
}

/// Whether an element is an anchor, an alias or a tag.
pub open spec fn marks(e: Elem) -> bool {
    e.kind == SyntaxKind::AnchorMark || e.kind == SyntaxKind::AliasMark || e.kind
        == SyntaxKind::TagMark
}

/// Whether an anchor, alias or tag overlaps the bytes `a..b`.
pub fn region_has_anchor_alias_or_tag(t: &Vec<Elem>, a: usize, b: usize) -> (r: bool)
    ensures
        r == region_marked(t@, a as int, b as int),
{
    let mut i: usize = 0;
    while i < t.len()
        invariant
            i <= t@.len(),
            forall|k: int|
                0 <= k < i ==> !(marks(#[trigger] t@[k]) && t@[k].start < b && t@[k].end > a),
        decreases t@.len() - i,
    {
        let e: Elem = t[i];
        assert(t@[i as int] == e);
        if (e.kind == SyntaxKind::AnchorMark || e.kind == SyntaxKind::AliasMark || e.kind
            == SyntaxKind::TagMark) && e.start < b && e.end > a {
            assert(marks(t@[i as int]));
            return true;
        }
        i += 1;
    }
    false
}

/// Whether a text holds a byte that could introduce an anchor, alias or tag.
pub open spec fn text_marked(s: Seq<u8>) -> bool {
    s.contains(AMP) || s.contains(STAR) || s.contains(BANG)
}

/// Whether a text holds a byte that could introduce an anchor, alias or tag.
pub fn replacement_introduces_anchor_alias_or_tag(s: &[u8]) -> (r: bool)
    ensures
        r == text_marked(s@),
{
    crate::text::contains_byte(s, AMP) || crate::text::contains_byte(s, STAR)
        || crate::text::contains_byte(s, BANG)
}

/// Index of the first of the siblings `c..hi` that contains the bytes `a..b`.
pub open spec fn containing(t: Seq<Elem>, c: int, hi: int, a: int, b: int) -> Option<int>
    decreases hi - c,
{
    if !steps_to(t, c, hi) {
        None
    } else if t[c].start <= a && b <= t[c].end {
        Some(c)
    } else {
        containing(t, next(t, c), hi, a, b)
    }
}

fn find_containing(t: &Vec<Elem>, lo: usize, hi: usize, a: usize, b: usize) -> (r: Option<usize>)
    requires
        lo <= hi <= t@.len(),
    ensures
        match containing(t@, lo as int, hi as int, a as int, b as int) {
            Some(c) => r is Some && r->0 == c && lo <= c < hi,
            None => r is None,
        },
{
    let mut c: usize = lo;
    while c < hi
        invariant
            lo <= c <= hi <= t@.len(),
            containing(t@, c as int, hi as int, a as int, b as int) == containing(
                t@,
                lo as int,
                hi as int,
                a as int,
                b as int,
            ),
        decreases hi - c,
    {
        let e: Elem = t[c];
        if e.size < 1 || e.size > hi - c {
            return None;
        }
        if e.start <= a && b <= e.end {
            return Some(c);
        }
        c += e.size;
    }
    None
}

/// The nodes from the one at `i` down that contain the bytes `a..b`,
/// outermost first, appended to `acc`.
pub open spec fn ancestors(t: Seq<Elem>, i: int, a: int, b: int, acc: Seq<int>) -> Seq<int>
    decreases t.len() - i,
{
    if !(0 <= i < t.len()) || !(t[i].start <= a && b <= t[i].end) {
        acc
    } else {
        match containing(t, i + 1, next(t, i), a, b) {
            Some(c) => if i < c < t.len() && node_kind(t[c].kind) {
                ancestors(t, c, a, b, acc.push(i))
            } else {
                acc.push(i)
            },
            None => acc.push(i),
        }
    }
}

/// The model of a list of indices.
pub open spec fn ints(v: Seq<usize>) -> Seq<int> {
    v.map_values(|x: usize| x as int)
}

/// Collects the nodes that contain the bytes `a..b`, outermost first.
pub fn ancestor_candidates(t: &Vec<Elem>, a: usize, b: usize, n: usize) -> (r: Vec<usize>)
    requires
        sound(t@, n as int),
    ensures
        ints(r@) == ancestors(t@, 0, a as int, b as int, Seq::empty()),
        forall|k: int| 0 <= k < r@.len() ==> #[trigger] r@[k] < t@.len(),
{
    let len: usize = t.len();
    let mut out: Vec<usize> = Vec::new();
    assert(ints(out@) =~= Seq::empty());
    let mut i: usize = 0;
    while i < len && t[i].start <= a && b <= t[i].end
        invariant_except_break
            i <= len,
            ancestors(t@, i as int, a as int, b as int, ints(out@)) == ancestors(
                t@,
                0,
                a as int,
                b as int,
                Seq::empty(),
            ),
        invariant
            len == t@.len(),
            sound(t@, n as int),
            forall|k: int| 0 <= k < out@.len() ==> #[trigger] out@[k] < t@.len(),
        ensures
            ints(out@) == ancestors(t@, 0, a as int, b as int, Seq::empty()),
        decreases len - i,
    {
        let e: Elem = t[i];
        assert(t@[i as int] == e);
        let ghost before = out@;
        out.push(i);
        assert(ints(out@) =~= ints(before).push(i as int));
        match find_containing(t, i + 1, i + e.size, a, b) {
            Some(c) => {
                if is_node_kind(t[c].kind) {
                    i = c;
                } else {
                    break ;
                }
            },
            None => {
                break ;
            },
        }
    }
    out
}

/// The tree after the node at `i` is parsed again in the new text, where the
/// text changed inside that node only.
#[verifier::opaque]
pub open spec fn attempt(t: Seq<Elem>, old_text: Seq<u8>, new_text: Seq<u8>, i: int, depth: nat) -> Option<
    Seq<Elem>,
> {
    let e = t[i];
    let new_end = e.end + new_text.len() - old_text.len();
    if !repairable(e.kind) || new_end < e.start || new_end > new_text.len() || indent_column(
        old_text,
        e.start as int,
    ) > e.start {
        None
    } else {
        let fragment = new_text.subrange(e.start as int, new_end);
        match whole_subtree(fragment, e.kind, indent_column(old_text, e.start as int), depth) {
            Some(sub) => replaced_subtree(t, i, sub, new_text.len() - old_text.len()),
            None => None,
        }
    }
}

/// The first repair that works among the candidates `cands[..k]`, tried from
/// the last one on.
pub open spec fn repaired_from(
    t: Seq<Elem>,
    old_text: Seq<u8>,
    new_text: Seq<u8>,
    cands: Seq<int>,
    k: int,
    depth: nat,
) -> Option<(Seq<Elem>, RepairScope)>
    decreases k,
{
    if k <= 0 {
        None
    } else {
        match attempt(t, old_text, new_text, cands[k - 1], depth) {
            Some(u) => Some((u, scope_of(t[cands[k - 1]].kind))),
            None => repaired_from(t, old_text, new_text, cands, k - 1, depth),
        }
    }
}

/// The tree after the bytes `a..b` were replaced by `text`, when parsing a
/// part of it again is enough. Anything near an anchor, alias or tag is not
/// repaired this way.
#[verifier::opaque]
pub open spec fn repaired(
    t: Seq<Elem>,
    old_text: Seq<u8>,
    new_text: Seq<u8>,
    a: int,
    b: int,
    text: Seq<u8>,
    depth: nat,
) -> Option<(Seq<Elem>, RepairScope)> {
    let cands = ancestors(t, 0, a, b, Seq::empty());
    if region_marked(t, a, b) || text_marked(text) {
        None
    } else {
        repaired_from(t, old_text, new_text, cands, cands.len() as int, depth)
    }
}

fn try_attempt(
    t: &Vec<Elem>,
    old_text: &[u8],
    new_text: &[u8],
    i: usize,
    depth: usize,
) -> (r: Option<Vec<Elem>>)
    requires
        i < t@.len(),
        covers(t@, old_text@.len() as int),
        old_text@.len() <= MAX_SOURCE,
        new_text@.len() <= MAX_SOURCE,
    ensures
        match attempt(t@, old_text@, new_text@, i as int, depth as nat) {
            Some(u) => r is Some && r->0@ == u,
            None => r is None,
        },
{
    reveal(attempt);
    let e: Elem = t[i];
    proof {
        assert(t@[i as int] == e);
        covering_trees_are_sound(t@, old_text@.len() as int);
    }
    if !is_repairable(e.kind) || e.end + new_text.len() < old_text.len() {
        return None;
    }
    let new_end: usize = e.end + new_text.len() - old_text.len();
    if new_end < e.start || new_end > new_text.len() {
        return None;
    }
    let fragment: Vec<u8> = copy(new_text, e.start, new_end);
    let indent: usize = entry_indent_column(old_text, e.start);
    if indent > e.start {
        return None;
    }
    match parse_subtree(fragment.as_slice(), e.kind, indent, depth) {
        Some(sub) => {
            proof {
                subtrees_tile(fragment@, e.kind, indent as int, depth as nat);
            }
            rebuild_with_splice(t, i, &sub, old_text.len(), new_text.len())
        },
        None => None,
    }
}

/// Repairs a tree after the bytes `a..b` were replaced by `text`.
pub fn try_local_repair_green(
    t: &Vec<Elem>,
    old_text: &[u8],
    new_text: &[u8],
    a: usize,
    b: usize,
    text: &[u8],
    depth: usize,
) -> (r: Option<(Vec<Elem>, RepairScope)>)
    requires
        covers(t@, old_text@.len() as int),
        old_text@.len() <= MAX_SOURCE,
        new_text@.len() <= MAX_SOURCE,
    ensures
        match repaired(
            t@,
            old_text@,
            new_text@,
            a as int,
            b as int,
            text@,
            depth as nat,
        ) {
            Some((u, scope)) => r is Some && (r->0).0@ == u && (r->0).1 == scope,
            None => r is None,
        },
{
    reveal(repaired);
    proof {
        covering_trees_are_sound(t@, old_text@.len() as int);
    }
    if region_has_anchor_alias_or_tag(t, a, b) || replacement_introduces_anchor_alias_or_tag(text) {
        return None;
    }
    let cands: Vec<usize> = ancestor_candidates(t, a, b, old_text.len());
    let ghost model = ints(cands@);
    assert(model.len() == cands@.len());
    let mut k: usize = cands.len();
    while k > 0
        invariant
            k <= cands@.len(),
            model == ints(cands@),
            model == ancestors(t@, 0, a as int, b as int, Seq::empty()),
            !region_marked(t@, a as int, b as int),
            !text_marked(text@),
            model.len() == cands@.len(),
            forall|j: int| 0 <= j < cands@.len() ==> #[trigger] cands@[j] < t@.len(),
            covers(t@, old_text@.len() as int),
            old_text@.len() <= MAX_SOURCE,
            new_text@.len() <= MAX_SOURCE,
            repaired_from(t@, old_text@, new_text@, model, k as int, depth as nat)
                == repaired_from(
                t@,
                old_text@,
                new_text@,
                model,
                model.len() as int,
                depth as nat,
            ),
        decreases k,
    {
        let i: usize = cands[k - 1];
        assert(model[k - 1] == cands@[k - 1]);
        match try_attempt(t, old_text, new_text, i, depth) {
            Some(u) => {
                reveal(repaired);
                return Some((u, scope_for_kind(t[i].kind)));
            },
            None => {},
        }
        k -= 1;
    }
    None
}

/// A repaired tree covers the new text.
pub proof fn repaired_trees_cover(
    t: Seq<Elem>,
    old_text: Seq<u8>,
    new_text: Seq<u8>,
    a: int,
    b: int,
    text: Seq<u8>,
    depth: nat,
)
    requires
        covers(t, old_text.len() as int),
        new_text.len() <= MAX_SOURCE,
    ensures
        repaired(t, old_text, new_text, a, b, text, depth) matches Some((u, _)) ==> covers(
            u,
            new_text.len() as int,
        ),
{
    reveal(repaired);
    let cands = ancestors(t, 0, a, b, Seq::empty());
    ancestors_are_elements(t, 0, a, b, Seq::empty());
    repairs_cover_from(t, old_text, new_text, cands, cands.len() as int, depth);
}

/// Whether every index of a list is below `n`.
spec fn all_below(v: Seq<int>, n: int) -> bool {
    forall|k: int| 0 <= k < v.len() ==> 0 <= #[trigger] v[k] < n
}

proof fn ancestors_are_elements(t: Seq<Elem>, i: int, a: int, b: int, acc: Seq<int>)
    requires
        all_below(acc, t.len() as int),
    ensures
        all_below(ancestors(t, i, a, b, acc), t.len() as int),
    decreases t.len() - i,
{
    if 0 <= i < t.len() && t[i].start <= a && b <= t[i].end {
        let more = acc.push(i);
        assert forall|k: int| 0 <= k < more.len() implies 0 <= #[trigger] more[k] < t.len() by {
            if k < acc.len() {
                assert(more[k] == acc[k]);
            }
        }
        match containing(t, i + 1, next(t, i), a, b) {
            Some(c) => {
                if i < c < t.len() && node_kind(t[c].kind) {
                    ancestors_are_elements(t, c, a, b, more);
                }
            },
            None => {},
        }
    }
}

proof fn repairs_cover_from(
    t: Seq<Elem>,
    old_text: Seq<u8>,
    new_text: Seq<u8>,
    cands: Seq<int>,
    k: int,
    depth: nat,
)
    requires
        covers(t, old_text.len() as int),
        new_text.len() <= MAX_SOURCE,
        k <= cands.len(),
        all_below(cands, t.len() as int),
    ensures
        repaired_from(t, old_text, new_text, cands, k, depth) matches Some((u, _)) ==> covers(
            u,
            new_text.len() as int,
        ),
    decreases k,
{
    if k > 0 {
        let i = cands[k - 1];
        attempts_cover(t, old_text, new_text, i, depth);
        repairs_cover_from(t, old_text, new_text, cands, k - 1, depth);
    }
}

proof fn attempts_cover(t: Seq<Elem>, old_text: Seq<u8>, new_text: Seq<u8>, i: int, depth: nat)
    requires
        covers(t, old_text.len() as int),
        new_text.len() <= MAX_SOURCE,
        0 <= i < t.len(),
    ensures
        attempt(t, old_text, new_text, i, depth) matches Some(u) ==> covers(
            u,
            new_text.len() as int,
        ),
{
    reveal(attempt);
    let e = t[i];
    let new_end = e.end + new_text.len() - old_text.len();
    if repairable(e.kind) && e.start <= new_end <= new_text.len() {
        let fragment = new_text.subrange(e.start as int, new_end);
        let c = indent_column(old_text, e.start as int);
        subtrees_tile(fragment, e.kind, c, depth);
        if let Some(sub) = whole_subtree(fragment, e.kind, c, depth) {
            replaced_subtrees_cover(
                t,
                i,
                sub,
                old_text.len() as int,
                new_text.len() as int,
            );
        }
    }
}

/// Whether every candidate holds the bytes `a..b`.
spec fn all_around(t: Seq<Elem>, v: Seq<int>, a: int, b: int) -> bool {
    forall|k: int|
        0 <= k < v.len() ==> 0 <= (#[trigger] v[k]) < t.len() && t[v[k]].start <= a && b
            <= t[v[k]].end
}

proof fn ancestors_are_around(t: Seq<Elem>, i: int, a: int, b: int, acc: Seq<int>)
    requires
        all_around(t, acc, a, b),
    ensures
        all_around(t, ancestors(t, i, a, b, acc), a, b),
    decreases t.len() - i,
{
    if 0 <= i < t.len() && t[i].start <= a && b <= t[i].end {
        assert(all_around(t, acc.push(i), a, b));
        if let Some(c) = containing(t, i + 1, next(t, i), a, b) {
            if i < c < t.len() && node_kind(t[c].kind) {
                ancestors_are_around(t, c, a, b, acc.push(i));
            }
        }
    }
}

/// Whether element `i` holds the bytes `a..b` and can be parsed again on its own
/// as what the scope says.
pub open spec fn repairs_at(t: Seq<Elem>, i: int, a: int, b: int, scope: RepairScope) -> bool {
    &&& 0 <= i < t.len()
    &&& t[i].start <= a
    &&& b <= t[i].end
    &&& match scope {
        RepairScope::Entry => t[i].kind == SyntaxKind::MappingEntry || t[i].kind
            == SyntaxKind::SequenceItem,
        RepairScope::Collection => t[i].kind == SyntaxKind::BlockMapping || t[i].kind
            == SyntaxKind::BlockSequence,
        RepairScope::Scalar => false,
        RepairScope::Document => false,
    }
}

proof fn candidates_are_repaired(
    t: Seq<Elem>,
    old_text: Seq<u8>,
    new_text: Seq<u8>,
    cands: Seq<int>,
    k: int,
    depth: nat,
    a: int,
    b: int,
)
    requires
        all_around(t, cands, a, b),
        k <= cands.len(),
    ensures
        repaired_from(t, old_text, new_text, cands, k, depth) matches Some((_, scope))
            ==> exists|i: int| #[trigger] repairs_at(t, i, a, b, scope),
    decreases k,
{
    if k > 0 {
        candidates_are_repaired(t, old_text, new_text, cands, k - 1, depth, a, b);
        let i = cands[k - 1];
        if attempt(t, old_text, new_text, i, depth) is Some {
            reveal(attempt);
            assert(repairable(t[i].kind));
            assert(0 <= i < t.len() && t[i].start <= a && b <= t[i].end);
            assert(repairs_at(t, i, a, b, scope_of(t[i].kind)));
        }
    }
}

/// A repair parses an entry, an item or a block collection again that holds what
/// was edited, and says which of these it was. Nothing is repaired where an
/// anchor, an alias or a tag is edited or could come in.
pub proof fn repairs_are_local(
    t: Seq<Elem>,
    old_text: Seq<u8>,
    new_text: Seq<u8>,
    a: int,
    b: int,
    text: Seq<u8>,
    depth: nat,
)
    ensures
        repaired(t, old_text, new_text, a, b, text, depth) matches Some((_, scope)) ==> {
            &&& exists|i: int| #[trigger] repairs_at(t, i, a, b, scope)
            &&& !text.contains(AMP) && !text.contains(STAR) && !text.contains(BANG)
            &&& forall|k: int|
                0 <= k < t.len() && (#[trigger] t[k]).start < b && a < t[k].end ==> t[k].kind
                    != SyntaxKind::AnchorMark && t[k].kind != SyntaxKind::AliasMark && t[k].kind
                    != SyntaxKind::TagMark
        },
{
    reveal(repaired);
    let cands = ancestors(t, 0, a, b, Seq::empty());
    ancestors_are_around(t, 0, a, b, Seq::empty());
    candidates_are_repaired(t, old_text, new_text, cands, cands.len() as int, depth, a, b);
    if !region_marked(t, a, b) {
        assert forall|k: int|
            0 <= k < t.len() && (#[trigger] t[k]).start < b && a < t[k].end implies !marks(t[k]) by {}
    }
}

} // verus!
