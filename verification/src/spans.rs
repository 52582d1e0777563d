//! Where the values of a document stand.
use crate::document::Doc;
use crate::entry::{child_site, key_site};
use crate::load::{
    finished, flattened, flow_items, flow_pairs, items, key_text, keyed, load, merged, pairs,
    plain_key, scalar_data, scalar_text, single_pair, sized, span, tagged, tree_value, with_member,
    SpanKind, SpanNode,
};
use crate::mappings::merges_fill_up;
use crate::model::key_span_of;
use crate::oracle::{at, below, Miss};
use crate::path::{path_steps, Seg};
use crate::resolve::{
    child_span, last_entry, nth_item, nth_span, shown_key, site, stepped, typed_spot, Site,
};
use crate::siblings::{content, first_of, next, steps_to, vacant};
use crate::sites::siblings;
use crate::syntax::{node_kind, property_kind, scalar_kind, trivia_kind, Elem, SyntaxKind};
use crate::text::utf8_text;
use crate::value::{find, find_is_exact, Data};
use vstd::prelude::*;
use vstd::string::*;

verus! {

/// Whether element `k` is a scalar in the range of `x` that is read, under the tag,
/// as `d`.
pub open spec fn reads_at(
    s: Seq<u8>,
    t: Seq<Elem>,
    k: int,
    tag: Seq<u8>,
    x: SpanNode,
    d: Data,
) -> bool {
    &&& 0 <= k < t.len()
    &&& scalar_kind(t[k].kind)
    &&& t[k].start == x.start
    &&& t[k].end == x.end
    &&& scalar_text(s, t[k]) is Some
    &&& d == scalar_data(scalar_text(s, t[k])->0, t[k].kind == SyntaxKind::PlainScalar, tag)
}

/// Whether nothing, under the tag, is read as `d`.
pub open spec fn nothing_reads(tag: Seq<u8>, d: Data) -> bool {
    d == scalar_data(Seq::empty(), true, tag)
}

/// Whether the span is that of a scalar that spells `d`, or is empty and `d` is
/// what nothing spells.
pub open spec fn spells_leaf(s: Seq<u8>, t: Seq<Elem>, x: SpanNode, d: Data) -> bool {
    ||| exists|k: int, tag: Seq<u8>| #[trigger] reads_at(s, t, k, tag, x, d)
    ||| x.start == x.end && exists|tag: Seq<u8>| #[trigger] nothing_reads(tag, d)
}

/// Whether element `k` is a scalar in the range `a..b` that is read as the key.
pub open spec fn key_reads_at(s: Seq<u8>, t: Seq<Elem>, k: int, a: int, b: int, key: Seq<u8>) -> bool {
    &&& 0 <= k < t.len()
    &&& scalar_kind(t[k].kind)
    &&& t[k].start == a
    &&& t[k].end == b
    &&& scalar_text(s, t[k]) is Some
    &&& utf8_text(scalar_text(s, t[k])->0) == key
}

/// Whether the range of the key, where it has one, is that of a scalar that spells
/// it.
pub open spec fn spells_key(s: Seq<u8>, t: Seq<Elem>, x: SpanNode, key: Seq<u8>) -> bool {
    x.key_start < x.key_end ==> exists|k: int| #[trigger]
        key_reads_at(s, t, k, x.key_start as int, x.key_end as int, key)
}

/// Whether a span is that of a sequence in the tree.
pub open spec fn is_sequence_at(t: Seq<Elem>, x: SpanNode) -> bool {
    exists|k: int|
        0 <= k < t.len() && ((#[trigger] t[k]).kind == SyntaxKind::BlockSequence || t[k].kind
            == SyntaxKind::FlowSequence) && t[k].start == x.start && t[k].end == x.end
}

/// Whether the spans are those of the value: of a scalar where it is written, of
/// an alias in front of those of what it stands for, and of a collection in front
/// of those of its members, one after the other. Members that a merge gives have
/// none.
pub open spec fn mirrors(s: Seq<u8>, t: Seq<Elem>, d: Data, sub: Seq<SpanNode>) -> bool
    decreases d, sub.len(),
{
    let inner = match d {
        Data::Tagged(_, x) => *x,
        _ => d,
    };
    &&& sub.len() > 0
    &&& sub[0].size == sub.len()
    &&& match sub[0].kind {
        SpanKind::Leaf => sub.len() == 1 && spells_leaf(s, t, sub[0], d),
        SpanKind::Alias => sub.len() > 1 && mirrors(s, t, d, sub.skip(1)),
        SpanKind::List => is_sequence_at(t, sub[0]) && match inner {
            Data::List(l) => exists|trees: Seq<Seq<SpanNode>>|
                #[trigger] flattened(trees) == sub.skip(1) && trees.len() == l.len() && forall|k: int|
                    0 <= k < l.len() ==> mirrors(s, t, l[k], #[trigger] trees[k]),
            _ => false,
        },
        SpanKind::Dict => match inner {
            Data::Dict(m) => exists|trees: Seq<Seq<SpanNode>>|
                #[trigger] flattened(trees) == sub.skip(1) && trees.len() <= m.len() && forall|k: int|
                    0 <= k < trees.len() ==> mirrors(s, t, m[k].1, #[trigger] trees[k]) && spells_key(
                        s,
                        t,
                        trees[k][0],
                        m[k].0,
                    ),
            _ => false,
        },
    }
}

/// Whether the spans are those of the value, as far as they can be counted.
spec fn stands(s: Seq<u8>, t: Seq<Elem>, d: Data, sub: Seq<SpanNode>) -> bool {
    sub.len() > 0 && (sub.len() <= usize::MAX ==> mirrors(s, t, d, sub))
}

spec fn all_stand(s: Seq<u8>, t: Seq<Elem>, l: Seq<Data>, trees: Seq<Seq<SpanNode>>) -> bool {
    trees.len() == l.len() && forall|k: int|
        0 <= k < l.len() ==> stands(s, t, l[k], #[trigger] trees[k])
}

spec fn entries_stand(
    s: Seq<u8>,
    t: Seq<Elem>,
    m: Seq<(Seq<u8>, Data)>,
    trees: Seq<Seq<SpanNode>>,
) -> bool {
    trees.len() == m.len() && forall|k: int|
        0 <= k < m.len() ==> stands(s, t, m[k].1, #[trigger] trees[k]) && spells_key(
            s,
            t,
            trees[k][0],
            m[k].0,
        )
}

/// Whether the spans of the items of a list stand behind `base`.
spec fn list_stands(
    s: Seq<u8>,
    t: Seq<Elem>,
    base: Seq<SpanNode>,
    d: Data,
    all: Seq<SpanNode>,
) -> bool {
    d is List && exists|trees: Seq<Seq<SpanNode>>| #[trigger]
        all_stand(s, t, d->List_0, trees) && all == base + flattened(trees)
}

proof fn a_list_stands(
    s: Seq<u8>,
    t: Seq<Elem>,
    base: Seq<SpanNode>,
    l: Seq<Data>,
    trees: Seq<Seq<SpanNode>>,
)
    requires
        all_stand(s, t, l, trees),
    ensures
        list_stands(s, t, base, Data::List(l), base + flattened(trees)),
{
    let d = Data::List(l);
    assert(d->List_0 == l);
    assert(all_stand(s, t, d->List_0, trees));
}

proof fn parts_are_smaller(trees: Seq<Seq<SpanNode>>)
    ensures
        forall|k: int| 0 <= k < trees.len() ==> (#[trigger] trees[k]).len() <= flattened(trees).len(),
    decreases trees.len(),
{
    if trees.len() > 0 {
        parts_are_smaller(trees.drop_last());
        assert forall|k: int| 0 <= k < trees.len() implies (#[trigger] trees[k]).len() <= flattened(
            trees,
        ).len() by {
            if k < trees.len() - 1 {
                assert(trees.drop_last()[k] == trees[k]);
            }
        }
    }
}

proof fn keys_change_no_value(s: Seq<u8>, t: Seq<Elem>, d: Data, sub: Seq<SpanNode>, a: int, b: int)
    requires
        stands(s, t, d, sub),
    ensures
        stands(s, t, d, keyed(sub, a, b)),
{
    let new = keyed(sub, a, b);
    assert(new.skip(1) =~= sub.skip(1));
    assert(new[0].start == sub[0].start && new[0].end == sub[0].end);
    if sub.len() <= usize::MAX {
        if sub[0].kind == SpanKind::Leaf {
            if exists|k: int, tag: Seq<u8>| #[trigger] reads_at(s, t, k, tag, sub[0], d) {
                let (k, tag) = choose|k: int, tag: Seq<u8>| #[trigger]
                    reads_at(s, t, k, tag, sub[0], d);
                assert(reads_at(s, t, k, tag, new[0], d));
            }
        }
        if sub[0].kind == SpanKind::List {
            let k = choose|k: int|
                0 <= k < t.len() && ((#[trigger] t[k]).kind == SyntaxKind::BlockSequence || t[k].kind
                    == SyntaxKind::FlowSequence) && t[k].start == sub[0].start && t[k].end
                    == sub[0].end;
            assert(t[k].start == new[0].start);
        }
    }
}

proof fn content_is_there(t: Seq<Elem>, i: int, hi: int)
    ensures
        content(t, i, hi) < hi ==> steps_to(t, content(t, i, hi), hi),
    decreases hi - i,
{
    if steps_to(t, i, hi) && crate::siblings::passed_over(t[i].kind) {
        content_is_there(t, next(t, i), hi);
    }
}

proof fn keys_have_their_range(s: Seq<u8>, t: Seq<Elem>, lo: int, hi: int, x: SpanNode)
    requires
        key_text(s, t, lo, hi) is Ok,
        x.key_start == key_text(s, t, lo, hi)->Ok_0.1,
        x.key_end == key_text(s, t, lo, hi)->Ok_0.2,
    ensures
        spells_key(s, t, x, key_text(s, t, lo, hi)->Ok_0.0),
{
    let c = content(t, lo, hi);
    content_is_there(t, lo, hi);
    if x.key_start < x.key_end {
        assert(c < hi && scalar_kind(t[c].kind));
        assert(key_reads_at(
            s,
            t,
            c,
            x.key_start as int,
            x.key_end as int,
            key_text(s, t, lo, hi)->Ok_0.0,
        ));
    }
}

proof fn key_ranges_fit(s: Seq<u8>, t: Seq<Elem>, lo: int, hi: int)
    requires
        key_text(s, t, lo, hi) is Ok,
    ensures
        0 <= key_text(s, t, lo, hi)->Ok_0.1 <= usize::MAX,
        0 <= key_text(s, t, lo, hi)->Ok_0.2 <= usize::MAX,
{
}

proof fn one_more_stands(
    s: Seq<u8>,
    t: Seq<Elem>,
    m: Seq<(Seq<u8>, Data)>,
    trees: Seq<Seq<SpanNode>>,
    merges: Seq<Data>,
    lo: int,
    hi: int,
    plain: bool,
    v: crate::load::Loaded,
)
    requires
        entries_stand(s, t, m, trees),
        with_member(m, trees, merges, key_text(s, t, lo, hi), plain, v) is Ok,
        v matches Ok((d, spans, _)) ==> stands(s, t, d, spans),
    ensures
        ({
            let (m2, trees2, _, _) = with_member(
                m,
                trees,
                merges,
                key_text(s, t, lo, hi),
                plain,
                v,
            )->Ok_0;
            entries_stand(s, t, m2, trees2)
        }),
{
    let (key, a, b) = key_text(s, t, lo, hi)->Ok_0;
    let (d, spans, _) = v->Ok_0;
    let (m2, trees2, _, _) = with_member(m, trees, merges, key_text(s, t, lo, hi), plain, v)->Ok_0;
    let one = keyed(spans, a, b);
    keys_change_no_value(s, t, d, spans, a, b);
    key_ranges_fit(s, t, lo, hi);
    keys_have_their_range(s, t, lo, hi, one[0]);
    find_is_exact(m, key, 0);
    assert forall|k: int| 0 <= k < m2.len() implies stands(s, t, m2[k].1, #[trigger] trees2[k])
        && spells_key(s, t, trees2[k][0], m2[k].0) by {
        if k < m.len() && m2[k] == m[k] && trees2[k] == trees[k] {
            assert(stands(s, t, m[k].1, trees[k]));
        }
    }
}

proof fn mappings_stand(
    s: Seq<u8>,
    t: Seq<Elem>,
    p: crate::load::Pairs,
    e: Elem,
    tag: Seq<u8>,
    acc: Seq<SpanNode>,
)
    requires
        finished(p, e, tag, acc) is Ok,
        p matches Ok((m, trees, _, _)) ==> entries_stand(s, t, m, trees),
    ensures
        ({
            let (d, spans, _) = finished(p, e, tag, acc)->Ok_0;
            &&& acc.len() < spans.len()
            &&& spans.subrange(0, acc.len() as int) == acc
            &&& stands(s, t, d, spans.skip(acc.len() as int))
        }),
{
    let (m, trees, merges, _) = p->Ok_0;
    let (d, spans, _) = finished(p, e, tag, acc)->Ok_0;
    let all = merged(m, merges, 0)->0;
    merges_fill_up(m, merges);
    let sub = spans.skip(acc.len() as int);
    let root = span(SpanKind::Dict, e.start as int, e.end as int);
    let whole = acc.push(root) + flattened(trees);
    assert(spans.subrange(0, acc.len() as int) =~= acc);
    assert(sub.skip(1) =~= flattened(trees));
    parts_are_smaller(trees);
    if sub.len() <= usize::MAX {
        assert(sub[0].size == sub.len());
        assert(flattened(trees) == sub.skip(1));
        assert forall|k: int| 0 <= k < trees.len() implies mirrors(s, t, all[k].1, #[trigger] trees[k])
            && spells_key(s, t, trees[k][0], all[k].0) by {
            assert(stands(s, t, m[k].1, trees[k]));
            assert(all[k] == m[k]);
        }
        assert(mirrors(s, t, d, sub));
    }
}

proof fn lists_stand(
    s: Seq<u8>,
    t: Seq<Elem>,
    c: int,
    l: Seq<Data>,
    tag: Seq<u8>,
    trees: Seq<Seq<SpanNode>>,
    acc: Seq<SpanNode>,
    spans: Seq<SpanNode>,
)
    requires
        all_stand(s, t, l, trees),
        0 <= c < t.len(),
        t[c].kind == SyntaxKind::BlockSequence || t[c].kind == SyntaxKind::FlowSequence,
        spans == acc.push(span(SpanKind::List, t[c].start as int, t[c].end as int)) + flattened(
            trees,
        ),
    ensures
        ({
            let r = sized(spans, acc.len() as int);
            &&& acc.len() < r.len()
            &&& r.subrange(0, acc.len() as int) == acc
            &&& stands(s, t, tagged(Data::List(l), tag), r.skip(acc.len() as int))
        }),
{
    let r = sized(spans, acc.len() as int);
    let sub = r.skip(acc.len() as int);
    let d = tagged(Data::List(l), tag);
    assert(r.subrange(0, acc.len() as int) =~= acc);
    assert(sub.skip(1) =~= flattened(trees));
    parts_are_smaller(trees);
    if sub.len() <= usize::MAX {
        assert(sub[0].size == sub.len());
        assert(t[c].start == sub[0].start && t[c].end == sub[0].end);
        assert(is_sequence_at(t, sub[0]));
        assert(flattened(trees) == sub.skip(1));
        assert forall|k: int| 0 <= k < l.len() implies mirrors(s, t, l[k], #[trigger] trees[k]) by {
            assert(stands(s, t, l[k], trees[k]));
        }
        assert(mirrors(s, t, d, sub));
    }
}

proof fn one_more_item_stands(
    s: Seq<u8>,
    t: Seq<Elem>,
    base: Seq<SpanNode>,
    l: Seq<Data>,
    trees: Seq<Seq<SpanNode>>,
    d: Data,
    one: Seq<SpanNode>,
)
    requires
        all_stand(s, t, l, trees),
        stands(s, t, d, one),
    ensures
        all_stand(s, t, l.push(d), trees.push(one)),
        base + flattened(trees.push(one)) == base + flattened(trees) + one,
{
    assert(trees.push(one).drop_last() =~= trees);
    assert(base + flattened(trees.push(one)) =~= base + flattened(trees) + one);
    let more = l.push(d);
    assert forall|k: int| 0 <= k < more.len() implies stands(
        s,
        t,
        more[k],
        #[trigger] trees.push(one)[k],
    ) by {
        if k < l.len() {
            assert(stands(s, t, l[k], trees[k]));
        }
    }
}

proof fn single_pairs_stand(
    s: Seq<u8>,
    t: Seq<Elem>,
    i: int,
    x: int,
    plain: bool,
    v: crate::load::Loaded,
    acc: Seq<SpanNode>,
)
    requires
        single_pair(key_text(s, t, i, x), plain, v, acc) is Ok,
        v matches Ok((d, spans, _)) ==> stands(s, t, d, spans),
    ensures
        ({
            let (d, spans, _) = single_pair(key_text(s, t, i, x), plain, v, acc)->Ok_0;
            &&& acc.len() < spans.len()
            &&& spans.subrange(0, acc.len() as int) == acc
            &&& stands(s, t, d, spans.skip(acc.len() as int))
        }),
{
    let none = Seq::<(Seq<u8>, Data)>::empty();
    one_more_stands(s, t, none, Seq::empty(), Seq::empty(), i, x, plain, v);
    let p = with_member(none, Seq::empty(), Seq::empty(), key_text(s, t, i, x), plain, v);
    let (_, a, b) = key_text(s, t, i, x)->Ok_0;
    let end = v->Ok_0.1[0].end as int;
    mappings_stand(
        s,
        t,
        p,
        crate::lexis::token(SyntaxKind::FlowMapping, a, end),
        Seq::empty(),
        acc,
    );
}

proof fn loaded_values_stand(
    s: Seq<u8>,
    t: Seq<Elem>,
    lo: int,
    hi: int,
    max: int,
    used: int,
    acc: Seq<SpanNode>,
)
    requires
        load(s, t, lo, hi, max, used, acc) is Ok,
    ensures
        ({
            let (d, spans, _) = load(s, t, lo, hi, max, used, acc)->Ok_0;
            &&& acc.len() < spans.len()
            &&& spans.subrange(0, acc.len() as int) == acc
            &&& stands(s, t, d, spans.skip(acc.len() as int))
        }),
    decreases hi, hi - lo, 3int,
{
    let c = content(t, lo, hi);
    let e = t[c];
    let tag = crate::load::tag_text(s, t, lo, c);
    let end = next(t, c);
    let (d, spans, _) = load(s, t, lo, hi, max, used, acc)->Ok_0;
    let n = acc.len() as int;
    let sub = spans.skip(n);
    if c >= hi {
        assert(spans.subrange(0, n) =~= acc);
        assert(nothing_reads(tag, d));
        assert(sub.len() == 1);
    } else if scalar_kind(e.kind) {
        assert(spans.subrange(0, n) =~= acc);
        assert(reads_at(s, t, c, tag, sub[0], d));
        assert(sub.len() == 1);
    } else if e.kind == SyntaxKind::AliasMark {
        let a = crate::load::anchor_before(s, t, c, s.subrange(e.start + 1, e.end as int))->0;
        let h = crate::load::anchored_end(t, a);
        let root = span(SpanKind::Alias, e.start as int, e.end as int);
        loaded_values_stand(s, t, a + 1, h, max, used + 1, acc.push(root));
        let inner = load(s, t, a + 1, h, max, used + 1, acc.push(root))->Ok_0.1;
        assert(inner.subrange(0, n + 1) == acc.push(root));
        assert(inner[n] == inner.subrange(0, n + 1)[n]);
        assert(spans.subrange(0, n) =~= acc) by {
            assert forall|k: int| 0 <= k < n implies spans[k] == acc[k] by {
                assert(inner.subrange(0, n + 1)[k] == acc.push(root)[k]);
            }
        }
        assert(sub.skip(1) =~= inner.skip(n + 1));
        if sub.len() <= usize::MAX {
            assert(mirrors(s, t, d, sub.skip(1)));
            assert(sub[0].size == sub.len());
            assert(mirrors(s, t, d, sub));
        }
    } else if e.kind == SyntaxKind::BlockMapping {
        let p = pairs(s, t, c + 1, end, max, used, Seq::empty(), Seq::empty(), Seq::empty());
        pairs_stand(s, t, c + 1, end, max, used, Seq::empty(), Seq::empty(), Seq::empty());
        mappings_stand(s, t, p, e, tag, acc);
    } else if e.kind == SyntaxKind::BlockSequence {
        let root = span(SpanKind::List, e.start as int, e.end as int);
        let none = Seq::<Seq<SpanNode>>::empty();
        assert(acc.push(root) + flattened(none) =~= acc.push(root));
        items_stand(s, t, c + 1, end, max, used, Seq::empty(), acc.push(root), acc.push(root), none);
        let (l, all, _) = items(s, t, c + 1, end, max, used, Seq::empty(), acc.push(root))->Ok_0;
        let trees = choose|trees: Seq<Seq<SpanNode>>| #[trigger]
            all_stand(s, t, l->List_0, trees) && all == acc.push(root) + flattened(trees);
        lists_stand(s, t, c, l->List_0, tag, trees, acc, all);
    } else {
        let close = first_of(t, c + 1, end, SyntaxKind::FlowClose);
        if e.kind == SyntaxKind::FlowMapping {
            let p = flow_pairs(
                s,
                t,
                c + 2,
                close,
                max,
                used,
                Seq::empty(),
                Seq::empty(),
                Seq::empty(),
            );
            flow_pairs_stand(s, t, c + 2, close, max, used, Seq::empty(), Seq::empty(), Seq::empty());
            mappings_stand(s, t, p, e, tag, acc);
        } else {
            let root = span(SpanKind::List, e.start as int, e.end as int);
            let none = Seq::<Seq<SpanNode>>::empty();
            assert(acc.push(root) + flattened(none) =~= acc.push(root));
            flow_items_stand(
                s,
                t,
                c + 2,
                close,
                max,
                used,
                Seq::empty(),
                acc.push(root),
                acc.push(root),
                none,
            );
            let (l, all, _) = flow_items(
                s,
                t,
                c + 2,
                close,
                max,
                used,
                Seq::empty(),
                acc.push(root),
            )->Ok_0;
            let trees = choose|trees: Seq<Seq<SpanNode>>| #[trigger]
                all_stand(s, t, l->List_0, trees) && all == acc.push(root) + flattened(trees);
            lists_stand(s, t, c, l->List_0, tag, trees, acc, all);
        }
    }
}

proof fn pairs_stand(
    s: Seq<u8>,
    t: Seq<Elem>,
    i: int,
    hi: int,
    max: int,
    used: int,
    m: Seq<(Seq<u8>, Data)>,
    trees: Seq<Seq<SpanNode>>,
    merges: Seq<Data>,
)
    requires
        entries_stand(s, t, m, trees),
    ensures
        pairs(s, t, i, hi, max, used, m, trees, merges) matches Ok((x, y, _, _)) ==> entries_stand(
            s,
            t,
            x,
            y,
        ),
    decreases hi, hi - i, 2int,
{
    let end = next(t, i);
    if steps_to(t, i, hi) && pairs(s, t, i, hi, max, used, m, trees, merges) is Ok {
        if t[i].kind != SyntaxKind::MappingEntry {
            pairs_stand(s, t, end, hi, max, used, m, trees, merges);
        } else {
            let x = first_of(t, i + 1, end, SyntaxKind::ColonIndicator);
            let from = if x < end {
                x + 1
            } else {
                end
            };
            let v = load(s, t, from, end, max, used, Seq::empty());
            loaded_values_stand(s, t, from, end, max, used, Seq::empty());
            assert(v->Ok_0.1.skip(0) =~= v->Ok_0.1);
            one_more_stands(s, t, m, trees, merges, i + 1, x, plain_key(t, i + 1, x), v);
            let (m2, trees2, merges2, u) = with_member(
                m,
                trees,
                merges,
                key_text(s, t, i + 1, x),
                plain_key(t, i + 1, x),
                v,
            )->Ok_0;
            pairs_stand(s, t, end, hi, max, u, m2, trees2, merges2);
        }
    }
}

proof fn flow_pairs_stand(
    s: Seq<u8>,
    t: Seq<Elem>,
    i: int,
    close: int,
    max: int,
    used: int,
    m: Seq<(Seq<u8>, Data)>,
    trees: Seq<Seq<SpanNode>>,
    merges: Seq<Data>,
)
    requires
        entries_stand(s, t, m, trees),
    ensures
        flow_pairs(s, t, i, close, max, used, m, trees, merges) matches Ok((x, y, _, _))
            ==> entries_stand(s, t, x, y),
    decreases close, close - i, 2int,
{
    let j = first_of(t, i, close, SyntaxKind::CommaIndicator);
    if i < close && !vacant(t, i, j) && flow_pairs(s, t, i, close, max, used, m, trees, merges) is Ok {
        let x = first_of(t, i, j, SyntaxKind::ColonIndicator);
        let from = if x < j {
            x + 1
        } else {
            j
        };
        let v = load(s, t, from, j, max, used, Seq::empty());
        loaded_values_stand(s, t, from, j, max, used, Seq::empty());
        assert(v->Ok_0.1.skip(0) =~= v->Ok_0.1);
        one_more_stands(s, t, m, trees, merges, i, x, plain_key(t, i, x), v);
        let (m2, trees2, merges2, u) = with_member(
            m,
            trees,
            merges,
            key_text(s, t, i, x),
            plain_key(t, i, x),
            v,
        )->Ok_0;
        if j < close {
            flow_pairs_stand(s, t, j + 1, close, max, u, m2, trees2, merges2);
        }
    }
}

proof fn items_stand(
    s: Seq<u8>,
    t: Seq<Elem>,
    i: int,
    hi: int,
    max: int,
    used: int,
    l: Seq<Data>,
    acc: Seq<SpanNode>,
    base: Seq<SpanNode>,
    trees: Seq<Seq<SpanNode>>,
)
    requires
        all_stand(s, t, l, trees),
        acc == base + flattened(trees),
        items(s, t, i, hi, max, used, l, acc) is Ok,
    ensures
        ({
            let (d, all, _) = items(s, t, i, hi, max, used, l, acc)->Ok_0;
            list_stands(s, t, base, d, all)
        }),
    decreases hi, hi - i, 2int,
{
    let end = next(t, i);
    if !steps_to(t, i, hi) {
        a_list_stands(s, t, base, l, trees);
    } else if t[i].kind != SyntaxKind::SequenceItem {
        items_stand(s, t, end, hi, max, used, l, acc, base, trees);
    } else {
        let x = first_of(t, i + 1, end, SyntaxKind::DashIndicator);
        let from = if x < end {
            x + 1
        } else {
            end
        };
        loaded_values_stand(s, t, from, end, max, used, acc);
        let (d, spans, u) = load(s, t, from, end, max, used, acc)->Ok_0;
        let one = spans.skip(acc.len() as int);
        one_more_item_stands(s, t, base, l, trees, d, one);
        assert(spans =~= spans.subrange(0, acc.len() as int) + one);
        items_stand(s, t, end, hi, max, u, l.push(d), spans, base, trees.push(one));
    }
}

proof fn flow_items_stand(
    s: Seq<u8>,
    t: Seq<Elem>,
    i: int,
    close: int,
    max: int,
    used: int,
    l: Seq<Data>,
    acc: Seq<SpanNode>,
    base: Seq<SpanNode>,
    trees: Seq<Seq<SpanNode>>,
)
    requires
        all_stand(s, t, l, trees),
        acc == base + flattened(trees),
        flow_items(s, t, i, close, max, used, l, acc) is Ok,
    ensures
        ({
            let (d, all, _) = flow_items(s, t, i, close, max, used, l, acc)->Ok_0;
            list_stands(s, t, base, d, all)
        }),
    decreases close, close - i, 5int,
{
    let j = first_of(t, i, close, SyntaxKind::CommaIndicator);
    if i >= close || vacant(t, i, j) {
        a_list_stands(s, t, base, l, trees);
    } else {
        let x = first_of(t, i, j, SyntaxKind::ColonIndicator);
        let read = if x < j {
            single_pair(
                key_text(s, t, i, x),
                plain_key(t, i, x),
                load(s, t, x + 1, j, max, used, Seq::empty()),
                acc,
            )
        } else {
            load(s, t, i, j, max, used, acc)
        };
        let (d, spans, u) = read->Ok_0;
        if x < j {
            let v = load(s, t, x + 1, j, max, used, Seq::empty());
            loaded_values_stand(s, t, x + 1, j, max, used, Seq::empty());
            assert(v->Ok_0.1.skip(0) =~= v->Ok_0.1);
            single_pairs_stand(s, t, i, x, plain_key(t, i, x), v, acc);
        } else {
            loaded_values_stand(s, t, i, j, max, used, acc);
        }
        let one = spans.skip(acc.len() as int);
        one_more_item_stands(s, t, base, l, trees, d, one);
        assert(spans =~= spans.subrange(0, acc.len() as int) + one);
        a_list_stands(s, t, base, l.push(d), trees.push(one));
        if j < close {
            flow_items_stand(s, t, j + 1, close, max, u, l.push(d), spans, base, trees.push(one));
        }
    }
}

/// The spans of the subtree at `i`.
pub open spec fn subtree(sp: Seq<SpanNode>, i: int) -> Seq<SpanNode> {
    sp.subrange(i, i + sp[i].size)
}

proof fn flattened_from_the_front(trees: Seq<Seq<SpanNode>>)
    requires
        trees.len() > 0,
    ensures
        flattened(trees) == trees[0] + flattened(trees.drop_first()),
    decreases trees.len(),
{
    let rest = trees.drop_first();
    if trees.len() == 1 {
        assert(flattened(trees.drop_last()) =~= Seq::empty());
        assert(flattened(rest) =~= Seq::empty());
        assert(flattened(trees) =~= trees[0] + flattened(rest));
    } else {
        flattened_from_the_front(trees.drop_last());
        assert(trees.drop_last().drop_first() =~= rest.drop_last());
        assert(flattened(trees) =~= trees[0] + flattened(rest));
    }
}

proof fn children_are_parts(
    sp: Seq<SpanNode>,
    lo: int,
    hi: int,
    trees: Seq<Seq<SpanNode>>,
    n: int,
)
    requires
        0 <= lo <= hi <= sp.len(),
        sp.subrange(lo, hi) == flattened(trees),
        forall|k: int|
            0 <= k < trees.len() ==> (#[trigger] trees[k]).len() > 0 && trees[k][0].size
                == trees[k].len(),
        0 <= n,
    ensures
        match nth_span(sp, lo, hi, n) {
            Some(c) => n < trees.len() && lo <= c && c + sp[c].size <= hi && c < sp.len() && subtree(
                sp,
                c,
            ) == trees[n],
            None => n >= trees.len(),
        },
    decreases trees.len(),
{
    let all = sp.subrange(lo, hi);
    if trees.len() == 0 {
        assert(all.len() == 0);
    } else {
        flattened_from_the_front(trees);
        let one = trees[0];
        let rest = trees.drop_first();
        assert(all.len() == one.len() + flattened(rest).len());
        assert(all[0] == one[0]);
        assert(sp[lo] == all[0]);
        let far = lo + sp[lo].size;
        assert(sp.subrange(far, hi) =~= flattened(rest)) by {
            assert forall|k: int| 0 <= k < hi - far implies sp.subrange(far, hi)[k] == flattened(
                rest,
            )[k] by {
                assert(all[k + one.len()] == sp[far + k]);
            }
        }
        assert(subtree(sp, lo) =~= one) by {
            assert forall|k: int| 0 <= k < one.len() implies subtree(sp, lo)[k] == one[k] by {
                assert(all[k] == sp[lo + k]);
            }
        }
        if n > 0 {
            assert forall|k: int| 0 <= k < rest.len() implies (#[trigger] rest[k]).len() > 0
                && rest[k][0].size == rest[k].len() by {
                assert(rest[k] == trees[k + 1]);
            }
            children_are_parts(sp, far, hi, rest, n - 1);
        }
    }
}

/// Whether the spans at `i` are those of the value.
pub open spec fn mirrors_at(s: Seq<u8>, t: Seq<Elem>, d: Data, sp: Seq<SpanNode>, i: int) -> bool {
    &&& 0 <= i < sp.len()
    &&& i + sp[i].size <= sp.len()
    &&& mirrors(s, t, d, subtree(sp, i))
}

proof fn aliases_stand_in_front(s: Seq<u8>, t: Seq<Elem>, d: Data, sp: Seq<SpanNode>, i: int)
    requires
        mirrors_at(s, t, d, sp, i),
        sp[i].kind == SpanKind::Alias,
    ensures
        mirrors_at(s, t, d, sp, i + 1),
{
    let sub = subtree(sp, i);
    reveal_with_fuel(mirrors, 2);
    assert(sub[0] == sp[i]);
    assert(sub.skip(1)[0] == sp[i + 1]);
    assert(subtree(sp, i + 1) =~= sub.skip(1));
}

proof fn members_stand_behind(
    s: Seq<u8>,
    t: Seq<Elem>,
    d: Data,
    sp: Seq<SpanNode>,
    i: int,
    step: Seg,
)
    requires
        mirrors_at(s, t, d, sp, i),
        child_span(d, sp, i, step) is Some,
    ensures
        ({
            let (e, c) = child_span(d, sp, i, step)->0;
            &&& i < c
            &&& mirrors_at(s, t, e, sp, c)
            &&& step matches Seg::Key(k) ==> spells_key(s, t, sp[c], k)
            &&& below(d, step) == Ok::<Data, Miss>(e)
        }),
{
    let sub = subtree(sp, i);
    let hi = i + sp[i].size;
    let (e, c) = child_span(d, sp, i, step)->0;
    reveal_with_fuel(mirrors, 2);
    assert(sub[0] == sp[i]);
    assert(sp.subrange(i + 1, hi) =~= sub.skip(1));
    match (step, d) {
        (Seg::Key(key), Data::Dict(m)) => {
            find_is_exact(m, key, 0);
            let trees = choose|trees: Seq<Seq<SpanNode>>|
                #[trigger] flattened(trees) == sub.skip(1) && trees.len() <= m.len() && forall|k: int|
                    0 <= k < trees.len() ==> mirrors(s, t, m[k].1, #[trigger] trees[k]) && spells_key(
                        s,
                        t,
                        trees[k][0],
                        m[k].0,
                    );
            let x = find(m, key)->0;
            children_are_parts(sp, i + 1, hi, trees, x);
            assert(trees[x][0] == sp[c]);
        },
        (Seg::Index(n), Data::List(l)) => {
            let trees = choose|trees: Seq<Seq<SpanNode>>|
                #[trigger] flattened(trees) == sub.skip(1) && trees.len() == l.len() && forall|k: int|
                    0 <= k < l.len() ==> mirrors(s, t, l[k], #[trigger] trees[k]);
            children_are_parts(sp, i + 1, hi, trees, n);
            assert(trees[n][0] == sp[c]);
        },
        _ => {},
    }
}

proof fn spots_mirror(
    s: Seq<u8>,
    t: Seq<Elem>,
    d: Data,
    sp: Seq<SpanNode>,
    i: int,
    p: Seq<Seg>,
    k: int,
    through: bool,
)
    requires
        mirrors_at(s, t, d, sp, i),
        typed_spot(d, sp, i, p, k, through) is Some,
        0 <= k <= p.len(),
    ensures
        at(d, p, k, p.len() as int) is Ok,
        mirrors_at(
            s,
            t,
            at(d, p, k, p.len() as int)->Ok_0,
            sp,
            (typed_spot(d, sp, i, p, k, through)->0).0,
        ),
    decreases sp.len() - i,
{
    if sp[i].kind == SpanKind::Alias {
        aliases_stand_in_front(s, t, d, sp, i);
        spots_mirror(s, t, d, sp, i + 1, p, k, true);
    } else if k < p.len() {
        members_stand_behind(s, t, d, sp, i, p[k]);
        let (e, c) = child_span(d, sp, i, p[k])->0;
        spots_mirror(s, t, e, sp, c, p, k + 1, through);
    }
}

proof fn documents_mirror(d: Doc)
    requires
        d.wf(),
        d.value() is Ok,
        d.value()->Ok_0.1.len() <= usize::MAX,
    ensures
        ({
            let (v, sp) = d.value()->Ok_0;
            mirrors_at(d.source, d.green, v, sp, 0)
        }),
{
    reveal(tree_value);
    let (v, sp) = d.value()->Ok_0;
    let t = d.green;
    let max = d.config.max_alias_expansions as int;
    loaded_values_stand(d.source, t, 1, t.len() as int, max, 0, Seq::empty());
    assert(sp.skip(0) =~= sp);
    assert(subtree(sp, 0) =~= sp);
}

/// A path leads to where its value is written: the spans there are those of the
/// value, that of a scalar is the range of the token that spells it, and every
/// member of a collection has its spans in its place.
pub proof fn values_stand_where_they_are_written(d: Doc, path: Seq<u8>)
    requires
        d.wf(),
        d.value() is Ok,
        d.value()->Ok_0.1.len() <= usize::MAX,
    ensures
        ({
            let p = path_steps(path);
            let (v, sp) = d.value()->Ok_0;
            typed_spot(v, sp, 0, p, 0, false) matches Some((c, _)) ==> (at(
                v,
                p,
                0,
                p.len() as int,
            ) matches Ok(e) && mirrors_at(d.source, d.green, e, sp, c))
        }),
{
    let p = path_steps(path);
    let (v, sp) = d.value()->Ok_0;
    documents_mirror(d);
    if typed_spot(v, sp, 0, p, 0, false) is Some {
        spots_mirror(d.source, d.green, v, sp, 0, p, 0, false);
    }
}

proof fn sites_of_keys_spell_them(
    s: Seq<u8>,
    t: Seq<Elem>,
    d: Data,
    sp: Seq<SpanNode>,
    i: int,
    p: Seq<Seg>,
    k: int,
)
    requires
        mirrors_at(s, t, d, sp, i),
        0 <= k,
        key_site(d, sp, i, p, k, None) is Ok,
    ensures
        p.len() > 0,
        p.last() is Key,
        ({
            let (a, b) = key_site(d, sp, i, p, k, None)->Ok_0;
            a < b ==> exists|x: int| #[trigger] key_reads_at(s, t, x, a, b, p.last()->Key_0)
        }),
    decreases p.len() - k,
{
    if k + 1 < p.len() {
        let (e, c) = child_site(d, sp, i, p[k])->Ok_0;
        assert(child_span(d, sp, i, p[k]) == Some((e, c)));
        members_stand_behind(s, t, d, sp, i, p[k]);
        sites_of_keys_spell_them(s, t, e, sp, c, p, k + 1);
    } else {
        assert(p.last() == p[k]);
        assert(child_span(d, sp, i, p[k]) is Some);
        members_stand_behind(s, t, d, sp, i, p[k]);
    }
}

/// The range of a key is that of a scalar that spells it.
pub proof fn keys_stand_where_they_are_written(d: Doc, path: Seq<u8>)
    requires
        d.wf(),
        d.value() is Ok,
        d.value()->Ok_0.1.len() <= usize::MAX,
        key_span_of(d, path_steps(path)) is Some,
    ensures
        ({
            let p = path_steps(path);
            let (a, b) = key_span_of(d, p)->0;
            &&& p.len() > 0
            &&& p.last() matches Seg::Key(key) && exists|x: int| #[trigger]
                key_reads_at(d.source, d.green, x, a, b, key)
        }),
{
    let p = path_steps(path);
    let (v, sp) = d.value()->Ok_0;
    documents_mirror(d);
    sites_of_keys_spell_them(d.source, d.green, v, sp, 0, p, 0);
    let (a, b) = key_span_of(d, p)->0;
    assert(a < b);
    let key = p.last()->Key_0;
    let x = choose|x: int| #[trigger] key_reads_at(d.source, d.green, x, a, b, key);
    assert(key_reads_at(d.source, d.green, x, a, b, key));
    assert(p.last() == Seg::Key(key));
}

proof fn entries_are_the_last(
    s: Seq<u8>,
    t: Seq<Elem>,
    i: int,
    hi: int,
    key: Seq<u8>,
    found: Option<int>,
)
    ensures
        ({
            let all = siblings(t, i, hi);
            match last_entry(s, t, i, hi, key, found) {
                Some(e) => {
                    ||| found == Some(e) && forall|k: int|
                        0 <= k < all.len() ==> !#[trigger] shows_key(s, t, all[k], key)
                    ||| exists|k: int| #[trigger] last_to_show(s, t, all, k, key) && all[k] == e
                },
                None => true,
            }
        }),
    decreases hi - i,
{
    if steps_to(t, i, hi) {
        let all = siblings(t, i, hi);
        let rest = siblings(t, next(t, i), hi);
        let here = shows_key(s, t, i, key);
        let now = if here {
            Some(i)
        } else {
            found
        };
        assert(all =~= seq![i] + rest);
        assert forall|k: int| 0 < k < all.len() implies #[trigger] all[k] == rest[k - 1] by {}
        entries_are_the_last(s, t, next(t, i), hi, key, now);
        if let Some(e) = last_entry(s, t, i, hi, key, found) {
            if exists|k: int| #[trigger] last_to_show(s, t, rest, k, key) && rest[k] == e {
                let k = choose|k: int| #[trigger] last_to_show(s, t, rest, k, key) && rest[k] == e;
                assert forall|x: int| k + 1 < x < all.len() implies !#[trigger] shows_key(
                    s,
                    t,
                    all[x],
                    key,
                ) by {
                    assert(!shows_key(s, t, rest[x - 1], key));
                }
                assert(last_to_show(s, t, all, k + 1, key) && all[k + 1] == e);
            } else {
                assert forall|x: int| 0 < x < all.len() implies !#[trigger] shows_key(
                    s,
                    t,
                    all[x],
                    key,
                ) by {
                    assert(!shows_key(s, t, rest[x - 1], key));
                }
                if here {
                    assert(last_to_show(s, t, all, 0, key) && all[0] == e);
                }
            }
        }
    }
}

/// Whether element `e` is an entry that shows the key.
pub open spec fn shows_key(s: Seq<u8>, t: Seq<Elem>, e: int, key: Seq<u8>) -> bool {
    t[e].kind == SyntaxKind::MappingEntry && shown_key(s, t, e + 1, next(t, e)) == Some(key)
}

/// Whether sibling `k` is the last that shows the key.
pub open spec fn last_to_show(
    s: Seq<u8>,
    t: Seq<Elem>,
    all: Seq<int>,
    k: int,
    key: Seq<u8>,
) -> bool {
    &&& 0 <= k < all.len()
    &&& shows_key(s, t, all[k], key)
    &&& forall|x: int| k < x < all.len() ==> !#[trigger] shows_key(s, t, all[x], key)
}

/// In a tree alone a key leads to the last entry that shows it.
pub proof fn keys_lead_to_the_last_entry(s: Seq<u8>, t: Seq<Elem>, i: int, key: Seq<u8>)
    ensures
        stepped(s, t, i, Seg::Key(key)) matches Some(e) ==> exists|k: int| #[trigger]
            last_to_show(s, t, siblings(t, i + 1, next(t, i)), k, key) && siblings(
                t,
                i + 1,
                next(t, i),
            )[k] == e,
{
    entries_are_the_last(s, t, i + 1, next(t, i), key, None);
}

/// Whether sibling `k` is an item with `n` items before it.
pub open spec fn is_item_number(t: Seq<Elem>, all: Seq<int>, k: int, n: int) -> bool {
    &&& 0 <= k < all.len()
    &&& t[all[k]].kind == SyntaxKind::SequenceItem
    &&& all.take(k).filter(|e: int| t[e].kind == SyntaxKind::SequenceItem).len() == n
}

proof fn items_are_counted(t: Seq<Elem>, i: int, hi: int, n: int)
    requires
        0 <= n,
    ensures
        nth_item(t, i, hi, n) matches Some(e) ==> exists|k: int| #[trigger]
            is_item_number(t, siblings(t, i, hi), k, n) && siblings(t, i, hi)[k] == e,
    decreases hi - i,
{
    let pred = |e: int| t[e].kind == SyntaxKind::SequenceItem;
    if steps_to(t, i, hi) {
        let all = siblings(t, i, hi);
        let rest = siblings(t, next(t, i), hi);
        assert(all =~= seq![i] + rest);
        let item = t[i].kind == SyntaxKind::SequenceItem;
        if item && n == 0 {
            assert(all.take(0) =~= Seq::empty());
            assert(Seq::<int>::empty().filter(pred) =~= Seq::empty()) by {
                reveal(Seq::filter);
            }
            assert(is_item_number(t, all, 0, 0) && all[0] == i);
        } else {
            let m = if item {
                n - 1
            } else {
                n
            };
            items_are_counted(t, next(t, i), hi, m);
            if let Some(e) = nth_item(t, i, hi, n) {
                let k = choose|k: int| #[trigger] is_item_number(t, rest, k, m) && rest[k] == e;
                assert(all.take(k + 1) =~= seq![i] + rest.take(k));
                Seq::filter_distributes_over_add(seq![i], rest.take(k), pred);
                assert(seq![i].filter(pred) =~= if item {
                    seq![i]
                } else {
                    Seq::empty()
                }) by {
                    reveal(Seq::filter);
                    assert(seq![i].drop_last() =~= Seq::empty());
                    assert(seq![i].last() == i);
                    assert(Seq::<int>::empty().filter(pred) =~= Seq::empty());
                }
                assert(is_item_number(t, all, k + 1, n) && all[k + 1] == e);
            }
        }
    }
}

/// In a tree alone an index leads to the item with as many items before it.
pub proof fn indices_lead_to_their_item(s: Seq<u8>, t: Seq<Elem>, i: int, n: int)
    requires
        0 <= n,
    ensures
        stepped(s, t, i, Seg::Index(n)) matches Some(e) ==> exists|k: int| #[trigger]
            is_item_number(t, siblings(t, i + 1, next(t, i)), k, n) && siblings(
                t,
                i + 1,
                next(t, i),
            )[k] == e,
{
    items_are_counted(t, i + 1, next(t, i), n);
}

/// Whether an element is trivia, an anchor or a tag.
pub open spec fn passed(t: Seq<Elem>, e: int) -> bool {
    trivia_kind(t[e].kind) || property_kind(t[e].kind)
}

/// Whether sibling `k` is the first from number `j` on that is neither trivia nor
/// an anchor nor a tag, or there is none and `k` is their number.
pub open spec fn first_content(t: Seq<Elem>, all: Seq<int>, j: int, k: int) -> bool {
    &&& j <= k <= all.len()
    &&& forall|y: int| j <= y < k ==> #[trigger] passed(t, all[y])
    &&& k < all.len() ==> !passed(t, all[k])
}

/// Whether what stands from sibling `j` on starts with sibling `f`: the first anchor
/// or tag before sibling `k`, or `k` itself where there is none.
pub open spec fn first_mark(t: Seq<Elem>, all: Seq<int>, j: int, k: int, f: int) -> bool {
    &&& j <= f <= k
    &&& forall|y: int| j <= y < f ==> !property_kind(#[trigger] t[all[y]].kind)
    &&& f < k ==> property_kind(t[all[f]].kind)
}

/// Whether a site is what stands from sibling `j` on: its anchor and its tag, and
/// the value behind them.
pub open spec fn is_site(t: Seq<Elem>, all: Seq<int>, j: int, end: int, x: Site) -> bool {
    exists|k: int, f: int|
        #![trigger first_mark(t, all, j, k, f)]
        first_content(t, all, j, k) && first_mark(t, all, j, k, f) && f < all.len() && x.start
            == t[all[f]].start && if k < all.len() {
            x.end == t[all[k]].end && x.kind == t[all[k]].kind && t[all[k]].kind
                != SyntaxKind::AliasMark && x.node == if node_kind(t[all[k]].kind) {
                Some(all[k])
            } else {
                None
            }
        } else {
            x.end == end && x.node is None
        }
}

spec fn all_trivia(t: Seq<Elem>, all: Seq<int>) -> bool {
    forall|y: int| 0 <= y < all.len() ==> trivia_kind(#[trigger] t[all[y]].kind)
}

proof fn sites_stand_behind(
    t: Seq<Elem>,
    i: int,
    hi: int,
    mark: SyntaxKind,
    prefix: Option<int>,
    end: int,
)
    ensures
        site(t, i, hi, mark, true, None, end) matches Some(x) ==> is_site(
            t,
            siblings(t, i, hi),
            0,
            end,
            x,
        ),
        prefix is Some ==> match (
            site(t, i, hi, mark, true, prefix, end),
            site(t, i, hi, mark, true, None, end),
        ) {
            (Some(x), Some(y)) => x == (Site { start: prefix->0, ..y }),
            (Some(x), None) => x == (Site {
                kind: SyntaxKind::PlainScalar,
                start: prefix->0,
                end,
                node: None,
            }) && all_trivia(t, siblings(t, i, hi)),
            (None, r) => r is None && !all_trivia(t, siblings(t, i, hi)),
        },
    decreases hi - i,
{
    if steps_to(t, i, hi) {
        let all = siblings(t, i, hi);
        let rest = siblings(t, next(t, i), hi);
        assert(all =~= seq![i] + rest);
        assert forall|y: int| 0 < y < all.len() implies #[trigger] all[y] == rest[y - 1] by {}
        let here = t[i].kind;
        assert(all_trivia(t, all) == (trivia_kind(here) && all_trivia(t, rest))) by {
            assert(all[0] == i);
            if all_trivia(t, all) {
                assert forall|y: int| 0 <= y < rest.len() implies trivia_kind(
                    #[trigger] t[rest[y]].kind,
                ) by {
                    assert(trivia_kind(t[all[y + 1]].kind));
                }
            }
        }
        if node_kind(here) || !passed(t, i) {
            assert(first_content(t, all, 0, 0));
            assert(first_mark(t, all, 0, 0, 0));
        } else if property_kind(here) {
            let from = t[i].start as int;
            sites_stand_behind(t, next(t, i), hi, mark, Some(from), end);
            sites_stand_behind(t, next(t, i), hi, mark, prefix, end);
            assert(site(t, i, hi, mark, true, None, end) == site(
                t,
                next(t, i),
                hi,
                mark,
                true,
                Some(from),
                end,
            ));
            if prefix is Some {
                assert(site(t, i, hi, mark, true, prefix, end) == site(
                    t,
                    next(t, i),
                    hi,
                    mark,
                    true,
                    prefix,
                    end,
                ));
            }
            if let Some(x) = site(t, i, hi, mark, true, None, end) {
                let inner = site(t, next(t, i), hi, mark, true, None, end);
                if let Some(y) = inner {
                    let (k, f) = choose|k: int, f: int|
                        #![trigger first_mark(t, rest, 0, k, f)]
                        first_content(t, rest, 0, k) && first_mark(t, rest, 0, k, f) && f
                            < rest.len() && y.start == t[rest[f]].start && if k < rest.len() {
                            y.end == t[rest[k]].end && y.kind == t[rest[k]].kind && t[rest[k]].kind
                                != SyntaxKind::AliasMark && y.node == if node_kind(
                                t[rest[k]].kind,
                            ) {
                                Some(rest[k])
                            } else {
                                None
                            }
                        } else {
                            y.end == end && y.node is None
                        };
                    content_is_further(t, all, rest, k);
                    assert(first_mark(t, all, 0, k + 1, 0));
                } else {
                    let k = rest.len() as int;
                    assert(all_trivia(t, rest));
                    assert forall|y: int| 0 <= y < k implies #[trigger] passed(t, rest[y]) by {
                        assert(trivia_kind(t[rest[y]].kind));
                    }
                    content_is_further(t, all, rest, k);
                    assert(first_mark(t, all, 0, k + 1, 0));
                }
            }
        } else {
            sites_stand_behind(t, next(t, i), hi, mark, prefix, end);
            if let Some(x) = site(t, i, hi, mark, true, None, end) {
                let (k, f) = choose|k: int, f: int|
                    #![trigger first_mark(t, rest, 0, k, f)]
                    first_content(t, rest, 0, k) && first_mark(t, rest, 0, k, f) && f < rest.len()
                        && x.start == t[rest[f]].start && if k < rest.len() {
                        x.end == t[rest[k]].end && x.kind == t[rest[k]].kind && t[rest[k]].kind
                            != SyntaxKind::AliasMark && x.node == if node_kind(t[rest[k]].kind) {
                            Some(rest[k])
                        } else {
                            None
                        }
                    } else {
                        x.end == end && x.node is None
                    };
                content_is_further(t, all, rest, k);
                assert forall|y: int| 0 <= y < f + 1 implies !property_kind(
                    #[trigger] t[all[y]].kind,
                ) by {
                    if y > 0 {
                        assert(!property_kind(t[rest[y - 1]].kind));
                    }
                }
                assert(first_mark(t, all, 0, k + 1, f + 1));
            }
        }
    }
}

proof fn content_is_further(t: Seq<Elem>, all: Seq<int>, rest: Seq<int>, k: int)
    requires
        all.len() == rest.len() + 1,
        forall|y: int| 0 < y < all.len() ==> #[trigger] all[y] == rest[y - 1],
        first_content(t, rest, 0, k),
        passed(t, all[0]),
    ensures
        first_content(t, all, 0, k + 1),
{
    assert forall|y: int| 0 <= y < k + 1 implies #[trigger] passed(t, all[y]) by {
        if y > 0 {
            assert(passed(t, rest[y - 1]));
        }
    }
}

/// The value of an entry or an item, in the tree alone, is what stands behind the
/// first mark of its kind: with its anchor and its tag, and none at all for an
/// alias.
pub proof fn values_stand_behind_their_mark(
    t: Seq<Elem>,
    i: int,
    hi: int,
    mark: SyntaxKind,
    end: int,
)
    ensures
        site(t, i, hi, mark, false, None, end) matches Some(x) ==> exists|j: int| #[trigger]
            is_first_mark(t, siblings(t, i, hi), j, mark) && is_site(
                t,
                siblings(t, i, hi),
                j + 1,
                end,
                x,
            ),
    decreases hi - i,
{
    if steps_to(t, i, hi) {
        let all = siblings(t, i, hi);
        let rest = siblings(t, next(t, i), hi);
        assert(all =~= seq![i] + rest);
        assert forall|y: int| 0 < y < all.len() implies #[trigger] all[y] == rest[y - 1] by {}
        if t[i].kind == mark {
            sites_stand_behind(t, next(t, i), hi, mark, None, end);
            if let Some(x) = site(t, i, hi, mark, false, None, end) {
                sites_are_further(t, all, rest, 0, end, x);
                assert(is_first_mark(t, all, 0, mark));
            }
        } else {
            values_stand_behind_their_mark(t, next(t, i), hi, mark, end);
            if let Some(x) = site(t, i, hi, mark, false, None, end) {
                let j = choose|j: int| #[trigger]
                    is_first_mark(t, rest, j, mark) && is_site(t, rest, j + 1, end, x);
                sites_are_further(t, all, rest, j + 1, end, x);
                assert forall|y: int| 0 <= y < j + 1 implies #[trigger] t[all[y]].kind != mark by {
                    if y > 0 {
                        assert(t[rest[y - 1]].kind != mark);
                    }
                }
                assert(is_first_mark(t, all, j + 1, mark));
            }
        }
    }
}

/// Whether sibling `j` is the first of a kind.
pub open spec fn is_first_mark(t: Seq<Elem>, all: Seq<int>, j: int, mark: SyntaxKind) -> bool {
    &&& 0 <= j < all.len()
    &&& t[all[j]].kind == mark
    &&& forall|y: int| 0 <= y < j ==> #[trigger] t[all[y]].kind != mark
}

proof fn sites_are_further(t: Seq<Elem>, all: Seq<int>, rest: Seq<int>, j: int, end: int, x: Site)
    requires
        0 <= j,
        all.len() == rest.len() + 1,
        forall|y: int| 0 < y < all.len() ==> #[trigger] all[y] == rest[y - 1],
        is_site(t, rest, j, end, x),
    ensures
        is_site(t, all, j + 1, end, x),
{
    let (k, f) = choose|k: int, f: int|
        #![trigger first_mark(t, rest, j, k, f)]
        first_content(t, rest, j, k) && first_mark(t, rest, j, k, f) && f < rest.len() && x.start
            == t[rest[f]].start && if k < rest.len() {
            x.end == t[rest[k]].end && x.kind == t[rest[k]].kind && t[rest[k]].kind
                != SyntaxKind::AliasMark && x.node == if node_kind(t[rest[k]].kind) {
                Some(rest[k])
            } else {
                None
            }
        } else {
            x.end == end && x.node is None
        };
    assert forall|y: int| j + 1 <= y < k + 1 implies #[trigger] passed(t, all[y]) by {
        assert(passed(t, rest[y - 1]));
    }
    assert(first_content(t, all, j + 1, k + 1));
    assert forall|y: int| j + 1 <= y < f + 1 implies !property_kind(#[trigger] t[all[y]].kind) by {
        assert(!property_kind(t[rest[y - 1]].kind));
    }
    assert(first_mark(t, all, j + 1, k + 1, f + 1));
}

} // verus!
