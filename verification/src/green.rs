//! The lossless syntax tree: building it from a text, checking that it covers
//! the text, and replacing one of its subtrees.
use crate::grammar::{
    build_entry, build_item, build_mapping, build_node, build_sequence, entry, item, mapping, node, sequence,
};
use crate::lexis::{
    close, closed, end_of_gap, fits, flaw, fresh, gap, has_bom, is_fresh, is_marker, is_triple, marker, push_token,
    push_trivia, starts_with_bom, token, triple, with_trivia, Built,
};
use crate::syntax::{is_node_kind, node_kind, Elem, Fault, Flaw, SyntaxKind};
use crate::tiling::{
    adjusted, displaced, entry_tiles, extends, extends_in_turn, in_place, item_tiles, laid, laid_closed, laid_next,
    laid_trivia, mapping_tiles, node_tiles, reach, reach_grows, sequence_tiles, spliced_tree, spliced_trees_tile,
    subtrees_are_not_empty, trivia_grows,
};
use crate::text::{append, run, scan, Class, DASH, DOT, NL, PERCENT};
use vstd::prelude::*;

verus! {

/// The longest text that is accepted: no string is longer than this, so that
/// offsets and columns always fit the machine.
pub const MAX_SOURCE: usize = usize::MAX / 2;

/// The directives before a document, as tokens, and where they end.
pub open spec fn prologue(s: Seq<u8>, p: int, acc: Seq<Elem>) -> (Seq<Elem>, int)
    decreases s.len() - p,
{
    let n = s.len() as int;
    let q = gap(s, p);
    let e = run(s, q, n, Class::Text);
    if p <= q < n && s[q] == PERCENT && (q == 0 || s[q - 1] == NL) && p < e <= n {
        prologue(s, e, with_trivia(s, p, acc).push(token(SyntaxKind::Directive, q, e)))
    } else {
        (acc, p)
    }
}

fn push_prologue(s: &[u8], p: usize, out: &mut Vec<Elem>) -> (r: usize)
    requires
        p <= s@.len(),
    ensures
        (final(out)@, r as int) == prologue(s@, p as int, old(out)@),
        p <= r <= s@.len(),
{
    let n: usize = s.len();
    let mut i: usize = p;
    loop
        invariant
            p <= i <= n,
            n == s@.len(),
            prologue(s@, i as int, out@) == prologue(s@, p as int, old(out)@),
        decreases n - i,
    {
        let q: usize = end_of_gap(s, i);
        if !(q < n && s[q] == PERCENT && (q == 0 || s[q - 1] == NL)) {
            return i;
        }
        let e: usize = scan(s, q, n, Class::Text);
        if e <= i {
            return i;
        }
        push_trivia(s, i, out);
        push_token(out, SyntaxKind::Directive, q, e);
        i = e;
    }
}

/// The elements of a whole document.
pub open spec fn document(s: Seq<u8>, depth: nat) -> Result<Seq<Elem>, Flaw> {
    let n = s.len() as int;
    let root = seq![token(SyntaxKind::Document, 0, 0)];
    let (a0, p0) = if has_bom(s) {
        (root.push(token(SyntaxKind::Bom, 0, 3)), 3int)
    } else {
        (root, 0int)
    };
    let (a1, p1) = prologue(s, p0, a0);
    let q1 = gap(s, p1);
    let explicit = triple(s, q1, DASH);
    let (a2, p2) = if explicit {
        (with_trivia(s, p1, a1).push(token(SyntaxKind::DocumentStart, q1, q1 + 3)), q1 + 3)
    } else {
        (a1, p1)
    };
    let q2 = gap(s, p2);
    let content: Built = if q2 >= n || marker(s, q2) {
        Ok((a2, p2))
    } else {
        node(s, q2, 0, 0, !explicit || fresh(s, p2, q2), 0, depth, with_trivia(s, p2, a2))
    };
    match content {
        Err(x) => Err(x),
        Ok((a3, p3)) => {
            let q3 = gap(s, p3);
            let (a4, p4) = if triple(s, q3, DOT) {
                (with_trivia(s, p3, a3).push(token(SyntaxKind::DocumentEnd, q3, q3 + 3)), q3 + 3)
            } else {
                (a3, p3)
            };
            let q4 = gap(s, p4);
            if q4 < n {
                Err(flaw(Fault::Trailing, q4))
            } else {
                Ok(closed(with_trivia(s, p4, a4), 0, n))
            }
        },
    }
}

fn build_document(s: &[u8], depth: usize) -> (r: Result<Vec<Elem>, Flaw>)
    requires
        fits(s@, 0),
    ensures
        match document(s@, depth as nat) {
            Ok(t) => r is Ok && r->Ok_0@ == t,
            Err(x) => r is Err && r->Err_0 == x,
        },
{
    let n: usize = s.len();
    let mut out: Vec<Elem> = Vec::new();
    push_token(&mut out, SyntaxKind::Document, 0, 0);
    assert(out@ =~= seq![token(SyntaxKind::Document, 0, 0)]);
    let p0: usize = if starts_with_bom(s) {
        push_token(&mut out, SyntaxKind::Bom, 0, 3);
        3
    } else {
        0
    };
    let p1: usize = push_prologue(s, p0, &mut out);
    let q1: usize = end_of_gap(s, p1);
    let explicit: bool = is_triple(s, q1, DASH);
    let p2: usize = if explicit {
        push_trivia(s, p1, &mut out);
        push_token(&mut out, SyntaxKind::DocumentStart, q1, q1 + 3);
        q1 + 3
    } else {
        p1
    };
    let q2: usize = end_of_gap(s, p2);
    let p3: usize = if q2 >= n || is_marker(s, q2) {
        p2
    } else {
        let inline: bool = !explicit || is_fresh(s, p2, q2);
        push_trivia(s, p2, &mut out);
        match build_node(s, q2, 0, 0, inline, 0, depth, &mut out) {
            Ok(e) => e,
            Err(x) => {
                return Err(x);
            },
        }
    };
    let q3: usize = end_of_gap(s, p3);
    let p4: usize = if is_triple(s, q3, DOT) {
        push_trivia(s, p3, &mut out);
        push_token(&mut out, SyntaxKind::DocumentEnd, q3, q3 + 3);
        q3 + 3
    } else {
        p3
    };
    let q4: usize = end_of_gap(s, p4);
    if q4 < n {
        return Err(Flaw { fault: Fault::Trailing, at: q4 });
    }
    push_trivia(s, p4, &mut out);
    close(&mut out, 0, n);
    Ok(out)
}

/// Whether a tree is rooted in a document node and tiles a text of length
/// `n`: its tokens follow one another without gap or overlap, and its nodes
/// are nested.
pub open spec fn covers(t: Seq<Elem>, n: int) -> bool {
    t.len() > 0 && t[0].kind == SyntaxKind::Document && t[0].size == t.len() && laid(t, n, n)
}

/// Whether the elements of a tree stay inside the tree and inside the text.
pub open spec fn sound(t: Seq<Elem>, n: int) -> bool {
    forall|i: int|
        0 <= i < t.len() ==> 1 <= (#[trigger] t[i]).size && i + t[i].size <= t.len() && t[i].start
            <= t[i].end && t[i].end <= n
}

/// A tree that covers a text is sound for it.
pub proof fn covering_trees_are_sound(t: Seq<Elem>, n: int)
    requires
        covers(t, n),
    ensures
        sound(t, n),
{
    assert forall|i: int| 0 <= i < t.len() implies 1 <= (#[trigger] t[i]).size && i + t[i].size
        <= t.len() && t[i].start <= t[i].end && t[i].end <= n by {
        assert(in_place(t, i, n));
    }
}

/// The text of the tokens from index `i` on, appended to `acc`.
pub open spec fn text_from(t: Seq<Elem>, i: int, s: Seq<u8>, acc: Seq<u8>) -> Seq<u8>
    decreases t.len() - i,
{
    if i >= t.len() {
        acc
    } else if node_kind(t[i].kind) {
        text_from(t, i + 1, s, acc)
    } else {
        text_from(t, i + 1, s, acc + s.subrange(t[i].start as int, t[i].end as int))
    }
}

proof fn tiling_reproduces(t: Seq<Elem>, i: int, s: Seq<u8>)
    requires
        laid(t, s.len() as int, s.len() as int),
        0 <= i <= t.len(),
        0 <= reach(t, i) <= s.len(),
    ensures
        text_from(t, i, s, s.subrange(0, reach(t, i))) == s,
    decreases t.len() - i,
{
    if i < t.len() {
        let e = t[i];
        assert(in_place(t, i, s.len() as int));
        assert(reach(t, i + 1) == if node_kind(e.kind) {
            reach(t, i)
        } else {
            e.end as int
        });
        tiling_reproduces(t, i + 1, s);
        if !node_kind(e.kind) {
            assert(s.subrange(0, reach(t, i)) + s.subrange(e.start as int, e.end as int)
                =~= s.subrange(0, e.end as int));
        }
    } else {
        assert(s.subrange(0, reach(t, i)) =~= s);
    }
}

/// The tokens of a tree that covers a text spell that text, byte for byte.
pub proof fn covering_trees_reproduce_the_text(t: Seq<Elem>, s: Seq<u8>)
    requires
        covers(t, s.len() as int),
    ensures
        text_from(t, 0, s, Seq::empty()) == s,
{
    tiling_reproduces(t, 0, s);
    assert(s.subrange(0, 0) =~= Seq::empty());
}

proof fn prologue_tiles(s: Seq<u8>, p: int, acc: Seq<Elem>)
    requires
        0 <= p <= s.len(),
        laid(acc, p, s.len() as int),
    ensures
        ({
            let (a, e) = prologue(s, p, acc);
            &&& p <= e <= s.len()
            &&& laid(a, e, s.len() as int)
            &&& extends(acc, a)
        }),
    decreases s.len() - p,
{
    let n = s.len() as int;
    let q = gap(s, p);
    let e = run(s, q, n, Class::Text);
    let a = with_trivia(s, p, acc);
    laid_trivia(s, p, acc);
    if p <= q < n && s[q] == PERCENT && (q == 0 || s[q - 1] == NL) && p < e <= n {
        crate::text::run_is_maximal(s, q, n, Class::Text);
        let b = a.push(token(SyntaxKind::Directive, q, e));
        laid_next(a, SyntaxKind::Directive, q, e, n);
        extends_in_turn(acc, a, b);
        prologue_tiles(s, e, b);
        extends_in_turn(acc, b, prologue(s, e, b).0);
    }
}

/// Every byte of a text that has a tree is in that tree: trees cover their
/// texts.
pub proof fn documents_cover(s: Seq<u8>, depth: nat)
    requires
        s.len() <= MAX_SOURCE,
    ensures
        document(s, depth) matches Ok(t) ==> t.len() <= usize::MAX ==> covers(t, s.len() as int),
{
    let n = s.len() as int;
    let root = seq![token(SyntaxKind::Document, 0, 0)];
    laid_next(Seq::empty(), SyntaxKind::Document, 0, 0, n);
    assert(Seq::<Elem>::empty().push(token(SyntaxKind::Document, 0, 0)) =~= root);
    let (a0, p0) = if has_bom(s) {
        (root.push(token(SyntaxKind::Bom, 0, 3)), 3int)
    } else {
        (root, 0int)
    };
    if has_bom(s) {
        laid_next(root, SyntaxKind::Bom, 0, 3, n);
    }
    let (a1, p1) = prologue(s, p0, a0);
    prologue_tiles(s, p0, a0);
    extends_in_turn(root, a0, a1);
    let q1 = gap(s, p1);
    let explicit = triple(s, q1, DASH);
    let t1 = with_trivia(s, p1, a1);
    laid_trivia(s, p1, a1);
    extends_in_turn(root, a1, t1);
    let (a2, p2) = if explicit {
        (t1.push(token(SyntaxKind::DocumentStart, q1, q1 + 3)), q1 + 3)
    } else {
        (a1, p1)
    };
    if explicit {
        laid_next(t1, SyntaxKind::DocumentStart, q1, q1 + 3, n);
        extends_in_turn(root, t1, a2);
    }
    let q2 = gap(s, p2);
    let t2 = with_trivia(s, p2, a2);
    laid_trivia(s, p2, a2);
    extends_in_turn(root, a2, t2);
    let block = !explicit || fresh(s, p2, q2);
    let content: Built = if q2 >= n || marker(s, q2) {
        Ok((a2, p2))
    } else {
        node(s, q2, 0, 0, block, 0, depth, t2)
    };
    node_tiles(s, q2, 0, 0, block, 0, depth, t2);
    if let Ok((a3, p3)) = content {
        document_end_covers(s, root, a2, t2, a3, p3);
    }
}

/// The end of a document, once its content is laid down.
proof fn document_end_covers(
    s: Seq<u8>,
    root: Seq<Elem>,
    a2: Seq<Elem>,
    t2: Seq<Elem>,
    a3: Seq<Elem>,
    p3: int,
)
    requires
        s.len() <= MAX_SOURCE,
        root == seq![token(SyntaxKind::Document, 0, 0)],
        laid(root, 0, s.len() as int),
        extends(root, a2),
        extends(root, t2),
        a3.len() <= usize::MAX ==> (extends(t2, a3) || a3 == a2) && laid(a3, p3, s.len() as int)
            && 0 <= p3,
    ensures
        ({
            let n = s.len() as int;
            let q3 = gap(s, p3);
            let (a4, p4) = if triple(s, q3, DOT) {
                (with_trivia(s, p3, a3).push(token(SyntaxKind::DocumentEnd, q3, q3 + 3)), q3 + 3)
            } else {
                (a3, p3)
            };
            let q4 = gap(s, p4);
            let t = closed(with_trivia(s, p4, a4), 0, n);
            q4 >= n && t.len() <= usize::MAX ==> covers(t, n)
        }),
{
    let n = s.len() as int;
    let q3 = gap(s, p3);
    let t3 = with_trivia(s, p3, a3);
    let (a4, p4) = if triple(s, q3, DOT) {
        (t3.push(token(SyntaxKind::DocumentEnd, q3, q3 + 3)), q3 + 3)
    } else {
        (a3, p3)
    };
    let q4 = gap(s, p4);
    let t4 = with_trivia(s, p4, a4);
    trivia_grows(s, p3, a3);
    trivia_grows(s, p4, a4);
    if q4 >= n && t4.len() <= usize::MAX {
        if extends(t2, a3) {
            extends_in_turn(root, t2, a3);
        }
        laid_trivia(s, p3, a3);
        extends_in_turn(root, a3, t3);
        if triple(s, q3, DOT) {
            laid_next(t3, SyntaxKind::DocumentEnd, q3, q3 + 3, n);
            extends_in_turn(root, t3, a4);
        }
        laid_trivia(s, p4, a4);
        extends_in_turn(root, a4, t4);
        assert(t4[0] == root[0]);
        laid_closed(Seq::empty(), t4, 0, n, n);
    }
}

/// The syntax tree of a text, or why it has none.
#[verifier::opaque]
pub open spec fn tree(s: Seq<u8>, depth: nat) -> Result<Seq<Elem>, Flaw> {
    if s.len() > MAX_SOURCE {
        Err(flaw(Fault::TooLong, MAX_SOURCE as int))
    } else {
        match document(s, depth) {
            Ok(t) => if t.len() <= usize::MAX {
                Ok(t)
            } else {
                Err(flaw(Fault::TooLong, MAX_SOURCE as int))
            },
            Err(x) => Err(x),
        }
    }
}

/// A lossless syntax tree.
#[derive(Debug)]
pub struct GreenNode {
    elems: Vec<Elem>,
}

impl View for GreenNode {
    type V = Seq<Elem>;

    closed spec fn view(&self) -> Seq<Elem> {
        self.elems@
    }
}

impl GreenNode {
    pub(crate) fn of(elems: Vec<Elem>) -> (r: GreenNode)
        ensures
            r@ == elems@,
    {
        GreenNode { elems }
    }

    /// The elements of the tree in preorder.
    pub fn elems(&self) -> (r: &Vec<Elem>)
        ensures
            r@ == self@,
    {
        &self.elems
    }

    /// The kind of the root.
    pub fn kind(&self) -> (r: SyntaxKind)
        ensures
            self@.len() > 0 ==> r == self@[0].kind,
            self@.len() == 0 ==> r == SyntaxKind::Document,
    {
        if self.elems.len() > 0 {
            self.elems[0].kind
        } else {
            SyntaxKind::Document
        }
    }

    /// The text that the tokens of the tree select from `source`.
    pub fn text(&self, source: &[u8]) -> (r: Vec<u8>)
        requires
            sound(self@, source@.len() as int),
        ensures
            r@ == text_from(self@, 0, source@, Seq::empty()),
    {
        let mut out: Vec<u8> = Vec::new();
        let mut i: usize = 0;
        while i < self.elems.len()
            invariant
                i <= self@.len(),
                self@ == self.elems@,
                sound(self@, source@.len() as int),
                text_from(self@, i as int, source@, out@) == text_from(
                    self@,
                    0,
                    source@,
                    Seq::empty(),
                ),
            decreases self@.len() - i,
        {
            let e: Elem = self.elems[i];
            assert(e == self@[i as int]);
            if !is_node_kind(e.kind) {
                append(&mut out, source, e.start, e.end);
            }
            i += 1;
        }
        out
    }

    /// A copy of the tree.
    pub fn duplicate(&self) -> (r: GreenNode)
        ensures
            r@ == self@,
    {
        let mut elems: Vec<Elem> = Vec::new();
        let mut i: usize = 0;
        while i < self.elems.len()
            invariant
                i <= self.elems@.len(),
                elems@ == self.elems@.subrange(0, i as int),
            decreases self.elems@.len() - i,
        {
            elems.push(self.elems[i]);
            assert(self.elems@.subrange(0, i + 1) =~= self.elems@.subrange(0, i as int).push(
                self.elems@[i as int],
            ));
            i += 1;
        }
        assert(elems@ =~= self.elems@);
        GreenNode { elems }
    }
}

/// Builds the syntax tree of a text.
pub fn build_tree(s: &[u8], depth: usize) -> (r: Result<GreenNode, Flaw>)
    ensures
        match tree(s@, depth as nat) {
            Ok(t) => r is Ok && r->Ok_0@ == t,
            Err(x) => r is Err && r->Err_0 == x,
        },
{
    reveal(tree);
    if s.len() > MAX_SOURCE {
        return Err(Flaw { fault: Fault::TooLong, at: MAX_SOURCE });
    }
    match build_document(s, depth) {
        Ok(elems) => {
            let count: usize = elems.len();
            assert(count == elems@.len());
            Ok(GreenNode::of(elems))
        },
        Err(x) => Err(x),
    }
}

/// A built tree covers its text.
pub proof fn built_trees_cover(s: Seq<u8>, depth: nat)
    ensures
        tree(s, depth) matches Ok(t) ==> covers(t, s.len() as int) && s.len() <= MAX_SOURCE,
{
    reveal(tree);
    if s.len() <= MAX_SOURCE {
        documents_cover(s, depth);
    }
}

/// The subtree of the given kind that a fragment in column `c` spells.
pub open spec fn subtree(s: Seq<u8>, kind: SyntaxKind, c: int, depth: nat) -> Built {
    if s.len() == 0 {
        Err(flaw(Fault::Unexpected, 0))
    } else if kind == SyntaxKind::MappingEntry {
        entry(s, 0, c, c, depth, Seq::empty())
    } else if kind == SyntaxKind::SequenceItem {
        item(s, 0, c, c, depth, Seq::empty())
    } else if kind == SyntaxKind::BlockMapping {
        mapping(s, 0, c, c, depth, Seq::empty())
    } else {
        sequence(s, 0, c, c, depth, Seq::empty())
    }
}

/// The elements of the subtree that a whole fragment spells.
#[verifier::opaque]
pub open spec fn whole_subtree(s: Seq<u8>, kind: SyntaxKind, c: int, depth: nat) -> Option<
    Seq<Elem>,
> {
    match subtree(s, kind, c, depth) {
        Ok((a, e)) => if e == s.len() {
            Some(a)
        } else {
            None
        },
        Err(_) => None,
    }
}

/// Parses a fragment as a subtree of the given kind in column `c`; `None`
/// when the fragment is not exactly one.
pub fn parse_subtree(s: &[u8], kind: SyntaxKind, c: usize, depth: usize) -> (r: Option<Vec<Elem>>)
    requires
        fits(s@, c as int),
    ensures
        match whole_subtree(s@, kind, c as int, depth as nat) {
            Some(a) => r is Some && r->0@ == a,
            None => r is None,
        },
{
    reveal(whole_subtree);
    if s.len() == 0 {
        return None;
    }
    let mut out: Vec<Elem> = Vec::new();
    let end: Result<usize, Flaw> = if kind == SyntaxKind::MappingEntry {
        build_entry(s, 0, c, c, depth, &mut out)
    } else if kind == SyntaxKind::SequenceItem {
        build_item(s, 0, c, c, depth, &mut out)
    } else if kind == SyntaxKind::BlockMapping {
        build_mapping(s, 0, c, c, depth, &mut out)
    } else {
        build_sequence(s, 0, c, c, depth, &mut out)
    };
    match end {
        Ok(e) => if e == s.len() {
            Some(out)
        } else {
            None
        },
        Err(_) => None,
    }
}

/// A subtree tiles the fragment it spells.
pub proof fn subtrees_tile(s: Seq<u8>, kind: SyntaxKind, c: int, depth: nat)
    requires
        s.len() <= usize::MAX,
    ensures
        whole_subtree(s, kind, c, depth) matches Some(a) ==> a.len() > 0 && (a.len() <= usize::MAX
            ==> laid(a, s.len() as int, s.len() as int)),
{
    reveal(whole_subtree);
    let none = Seq::<Elem>::empty();
    assert(laid(none, 0, s.len() as int));
    entry_tiles(s, 0, c, c, depth, none);
    item_tiles(s, 0, c, c, depth, none);
    mapping_tiles(s, 0, c, c, depth, none);
    sequence_tiles(s, 0, c, c, depth, none);
    subtrees_are_not_empty(s, 0, c, c, depth, none);
}

/// A tree with the subtree at `i` replaced by `sub`, in a text that is `delta`
/// bytes longer. `None` only where the machine could not hold the result.
pub open spec fn replaced_subtree(t: Seq<Elem>, i: int, sub: Seq<Elem>, delta: int) -> Option<
    Seq<Elem>,
> {
    if t.len() + sub.len() <= usize::MAX {
        Some(spliced_tree(t, i, sub, delta))
    } else {
        None
    }
}

/// A tree in which a subtree is replaced covers the new text.
pub proof fn replaced_subtrees_cover(
    t: Seq<Elem>,
    i: int,
    sub: Seq<Elem>,
    old_len: int,
    new_len: int,
)
    requires
        covers(t, old_len),
        0 < i < t.len(),
        sub.len() > 0,
        0 <= t[i].end - t[i].start + new_len - old_len,
        sub.len() <= usize::MAX ==> laid(
            sub,
            t[i].end - t[i].start + new_len - old_len,
            t[i].end - t[i].start + new_len - old_len,
        ),
        0 <= new_len <= usize::MAX,
    ensures
        replaced_subtree(t, i, sub, new_len - old_len) matches Some(u) ==> covers(u, new_len),
{
    if t.len() + sub.len() <= usize::MAX {
        spliced_trees_tile(t, i, sub, old_len, new_len);
        assert(in_place(t, i, old_len));
    }
}

/// Appends the elements `lo..hi` of a tree as they read once the subtree at
/// `i` is replaced.
fn push_adjusted(
    t: &Vec<Elem>,
    lo: usize,
    hi: usize,
    i: usize,
    m: usize,
    old_len: usize,
    new_len: usize,
    out: &mut Vec<Elem>,
)
    requires
        lo <= hi <= t@.len(),
        hi <= i || lo >= i + t@[i as int].size,
        i < t@.len(),
        covers(t@, old_len as int),
        t@.len() + m <= usize::MAX,
        t@[i as int].end + new_len >= old_len,
    ensures
        final(out)@ == old(out)@ + Seq::new(
            (hi - lo) as nat,
            |j: int| adjusted(t@, lo + j, i as int, m as int, new_len - old_len),
        ),
{
    let gone: Elem = t[i];
    assert(t@[i as int] == gone);
    let mut j: usize = lo;
    while j < hi
        invariant
            lo <= j <= hi <= t@.len(),
            hi <= i || lo >= i + gone.size,
            i < t@.len(),
            gone == t@[i as int],
            covers(t@, old_len as int),
            t@.len() + m <= usize::MAX,
            gone.end + new_len >= old_len,
            out@ =~= old(out)@ + Seq::new(
                (j - lo) as nat,
                |k: int| adjusted(t@, lo + k, i as int, m as int, new_len - old_len),
            ),
        decreases hi - j,
    {
        let e: Elem = t[j];
        proof {
            assert(t@[j as int] == e);
            assert(in_place(t@, j as int, old_len as int));
            assert(in_place(t@, i as int, old_len as int));
            ends_lie_behind(t@, i as int, j as int, old_len as int);
        }
        let next: Elem = if j >= i {
            Elem {
                kind: e.kind,
                start: new_len - (old_len - e.start),
                end: new_len - (old_len - e.end),
                size: e.size,
            }
        } else if i - j < e.size {
            Elem {
                kind: e.kind,
                start: e.start,
                end: new_len - (old_len - e.end),
                size: e.size - gone.size + m,
            }
        } else {
            e
        };
        out.push(next);
        assert(out@.last() == adjusted(t@, j as int, i as int, m as int, new_len - old_len));
        j += 1;
    }
}

/// What holds an element, or stands behind it, does not end before it.
proof fn ends_lie_behind(t: Seq<Elem>, i: int, j: int, n: int)
    requires
        laid(t, n, n),
        0 <= i < t.len(),
        0 <= j < t.len(),
    ensures
        j < i < j + t[j].size ==> i + t[i].size <= j + t[j].size && t[i].end <= t[j].end,
        j >= i + t[i].size ==> t[i].end <= t[j].start,
{
    assert(in_place(t, i, n));
    assert(in_place(t, j, n));
    if j < i < j + t[j].size {
        assert(i + t[i].size <= j + t[j].size);
        reach_grows(t, n, i + t[i].size, j + t[j].size);
    }
    if j >= i + t[i].size {
        reach_grows(t, n, i + t[i].size, j);
    }
}

/// Replaces the subtree at `i` of a tree whose text became `new_len` bytes
/// long.
pub fn rebuild_with_splice(
    t: &Vec<Elem>,
    i: usize,
    sub: &Vec<Elem>,
    old_len: usize,
    new_len: usize,
) -> (r: Option<Vec<Elem>>)
    requires
        i < t@.len(),
        covers(t@, old_len as int),
        t@[i as int].start + old_len <= t@[i as int].end + new_len,
        laid(
            sub@,
            t@[i as int].end - t@[i as int].start + new_len - old_len,
            t@[i as int].end - t@[i as int].start + new_len - old_len,
        ),
    ensures
        match replaced_subtree(t@, i as int, sub@, new_len - old_len) {
            Some(v) => r is Some && r->0@ == v,
            None => r is None,
        },
{
    let gone: Elem = t[i];
    let m: usize = sub.len();
    proof {
        assert(t@[i as int] == gone);
        assert(in_place(t@, i as int, old_len as int));
    }
    if t.len() > usize::MAX - m {
        return None;
    }
    let mut out: Vec<Elem> = Vec::new();
    push_adjusted(t, 0, i, i, m, old_len, new_len, &mut out);
    let ghost left = out@;
    let mut j: usize = 0;
    let ghost l = gone.end - gone.start + new_len - old_len;
    while j < m
        invariant
            j <= m,
            m == sub@.len(),
            gone == t@[i as int],
            laid(sub@, l, l),
            l == gone.end - gone.start + new_len - old_len,
            gone.end <= old_len,
            out@ =~= left + Seq::new(j as nat, |k: int| displaced(sub@[k], gone.start as int)),
        decreases m - j,
    {
        let e: Elem = sub[j];
        assert(sub@[j as int] == e);
        assert(in_place(sub@, j as int, l));
        out.push(
            Elem { kind: e.kind, start: e.start + gone.start, end: e.end + gone.start, size: e.size },
        );
        j += 1;
    }
    push_adjusted(t, i + gone.size, t.len(), i, m, old_len, new_len, &mut out);
    proof {
        let goal = spliced_tree(t@, i as int, sub@, new_len - old_len);
        assert(out@ =~= goal);
    }
    Some(out)
}

} // verus!
