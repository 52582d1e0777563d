//! Where edits succeed.
use crate::document::{replaced_span, span_of, Doc};
use crate::emit::{key_for_site, value_for_site};
use crate::entry::{child_site, key_site, removal, removal_site, width};
use crate::error::{Error, Refusal};
use crate::green::covering_trees_are_sound;
use crate::growth::{innermost, owners_are_innermost, passing_an_alias_shows, spots_are_children};
use crate::laws::key_sites_stay;
use crate::load::{SpanKind, SpanNode};
use crate::model::{
    after_exchange, after_insert_after, after_insert_entry_text, after_push_back, after_removal,
    after_rename_key, after_set, after_set_value, after_swap_items, collection_in, key_span_of,
    lowest, site_context, written_as,
};
use crate::oracle::{after_remove, after_rename, after_swap, at, below, put, Miss};
use crate::ownership::member_kind;
use crate::path::{brackets_hold_indices, item_path, path_steps, Seg};
use crate::refusals::{flow_is_seen, part_of_flow, shared};
use crate::resolve::{child_span, typed_spot};
use crate::scalar::non_printable;
use crate::site::{kind_at, leaf_at};
use crate::sites::bytes_are_shared_through_aliases;
use crate::syntax::{block_collection, flow_collection, Elem, SyntaxKind};
use crate::text::{LBRACE, LBRACKET};
use crate::value::{find, find_is_exact, Data};
use vstd::prelude::*;
use vstd::string::*;

verus! {

/// Whether the value with span `x` is in the source, is part of no flow collection,
/// and belongs to an element of the kind.
pub open spec fn in_block_of(d: Doc, kind: SyntaxKind, x: SpanNode) -> bool {
    &&& x.start <= x.end <= d.source.len()
    &&& !part_of_flow(d.green, x.start as int)
    &&& exists|k: int| #[trigger] innermost(d.green, kind, x.start - 1, k)
}

/// Whether the outcome of an edit is that of putting some text in at some place,
/// with nothing taken away.
pub open spec fn is_insertion(d: Doc, r: Result<Doc, Error>) -> bool {
    exists|pos: int, text: Seq<u8>| r == #[trigger] replaced_span(d, pos, pos, text)
}

/// A fragment is appended to every sequence in block style that has an item: the
/// edit fails only where the new text cannot be taken.
pub proof fn fragments_are_appended(d: Doc, path: Seq<u8>, fragment: Seq<u8>)
    requires
        d.value() is Ok,
        ({
            let p = path_steps(path);
            let (v, sp) = d.value()->Ok_0;
            at(v, p, 0, p.len() as int) matches Ok(Data::List(l)) && l.len() > 0 && (typed_spot(
                v,
                sp,
                0,
                p.push(Seg::Index(l.len() - 1)),
                0,
                false,
            ) matches Some((c, through)) && !through && in_block_of(
                d,
                SyntaxKind::SequenceItem,
                sp[c],
            ))
        }),
    ensures
        is_insertion(d, after_push_back(d, path, fragment)),
{
    let p = path_steps(path);
    let (v, sp) = d.value()->Ok_0;
    let l = at(v, p, 0, p.len() as int)->Ok_0->List_0;
    let last = Seg::Index(l.len() - 1);
    let (c, _) = typed_spot(v, sp, 0, p.push(last), 0, false)->0;
    spots_are_children(v, sp, 0, p, last, 0, false);
    flow_is_seen(d.green, sp[c].start as int);
    owners_are_innermost(d.green, SyntaxKind::SequenceItem, sp[c].start as int);
}

/// A fragment is inserted below every item of a sequence in block style: the edit
/// fails only where the new text cannot be taken.
pub proof fn fragments_are_inserted(d: Doc, path: Seq<u8>, fragment: Seq<u8>)
    requires
        d.value() is Ok,
        path_steps(path).len() > 0,
        path_steps(path).last() is Index,
        ({
            let (v, sp) = d.value()->Ok_0;
            typed_spot(v, sp, 0, path_steps(path), 0, false) matches Some((c, through)) && !through
                && in_block_of(d, SyntaxKind::SequenceItem, sp[c])
        }),
    ensures
        is_insertion(d, after_insert_after(d, path, fragment)),
{
    let p = path_steps(path);
    let (v, sp) = d.value()->Ok_0;
    let parent = p.drop_last();
    assert(p =~= parent.push(p.last()));
    let (c, _) = typed_spot(v, sp, 0, p, 0, false)->0;
    spots_are_children(v, sp, 0, parent, p.last(), 0, false);
    flow_is_seen(d.green, sp[c].start as int);
    owners_are_innermost(d.green, SyntaxKind::SequenceItem, sp[c].start as int);
}

/// A fragment is set under every key that a mapping in block style with an entry of
/// its own lacks: the edit fails only where the new text cannot be taken.
pub proof fn fragments_are_set_under_new_keys(
    d: Doc,
    path: Seq<u8>,
    key: Seq<u8>,
    fragment: Seq<u8>,
)
    requires
        d.value() is Ok,
        ({
            let p = path_steps(path);
            let (v, sp) = d.value()->Ok_0;
            &&& at(v, p, 0, p.len() as int) matches Ok(Data::Dict(m)) && m.len() > 0 && find(m, key)
                is None
            &&& typed_spot(v, sp, 0, p, 0, false) matches Some((i, _)) && (lowest(
                sp,
                i + 1,
                i + sp[i].size,
                None,
            ) matches Some(x) && sp[x].start <= sp[x].end <= d.source.len() && !part_of_flow(
                d.green,
                sp[x].start as int,
            ))
        }),
    ensures
        is_insertion(d, after_insert_entry_text(d, path, key, fragment)),
{
    let p = path_steps(path);
    let (v, sp) = d.value()->Ok_0;
    let (i, _) = typed_spot(v, sp, 0, p, 0, false)->0;
    let x = lowest(sp, i + 1, i + sp[i].size, None)->0;
    flow_is_seen(d.green, sp[x].start as int);
}

/// A fragment is set in the place of every value that its path shows and that no
/// alias leads to: the edit fails only where the new text cannot be taken.
pub proof fn fragments_are_set(d: Doc, path: Seq<u8>, fragment: Seq<u8>)
    requires
        d.value() is Ok,
        span_of(d, path_steps(path)) is Some,
        ({
            let (v, sp) = d.value()->Ok_0;
            typed_spot(v, sp, 0, path_steps(path), 0, false) matches Some((_, through)) && !through
        }),
    ensures
        ({
            let (a, b) = span_of(d, path_steps(path))->0;
            after_set(d, path, fragment) == replaced_span(d, a, b, fragment)
        }),
{
}

/// Whether the outcome of an edit is that of replacing some bytes, held to the value
/// that the document must have then.
pub open spec fn is_replacement(d: Doc, expected: Data, r: Result<Doc, Error>) -> bool {
    exists|a: int, b: int, text: Seq<u8>|
        match #[trigger] replaced_span(d, a, b, text) {
            Ok(n) => (r is Ok <==> n.value() is Ok && n.value()->Ok_0.0 == expected) && (r is Ok ==> r
                == Ok::<Doc, Error>(n)),
            Err(_) => r is Err,
        }
}

proof fn members_have_a_site(
    s: Seq<u8>,
    t: Seq<Elem>,
    d: Data,
    sp: Seq<SpanNode>,
    i: int,
    p: Seq<Seg>,
    k: int,
)
    requires
        0 <= k < p.len(),
        typed_spot(d, sp, i, p, k, false) matches Some((_, through)) && !through,
    ensures
        ({
            let c = (typed_spot(d, sp, i, p, k, false)->0).0;
            let spot = typed_spot(d, sp, i, p.drop_last(), k, false);
            let e = at(d, p, k, p.len() - 1);
            &&& spot is Some
            &&& e is Ok
            &&& e->Ok_0 is Dict || e->Ok_0 is List
            &&& removal_site(s, t, d, sp, i, p, k) == removal(
                s,
                t,
                sp[(spot->0).0],
                sp[c],
                e->Ok_0 is Dict,
                width(e->Ok_0) <= 1,
            )
        }),
    decreases p.len() - k,
{
    let q = p.drop_last();
    if sp[i].kind == SpanKind::Alias {
        passing_an_alias_shows(d, sp, i + 1, p, k);
    } else {
        let (e, c) = child_span(d, sp, i, p[k])->0;
        assert(child_site(d, sp, i, p[k]) == Ok::<(Data, int), Refusal>((e, c)));
        if k + 1 < p.len() {
            members_have_a_site(s, t, e, sp, c, p, k + 1);
            match (p[k], d) {
                (Seg::Key(key), Data::Dict(m)) => {
                    find_is_exact(m, key, 0);
                },
                _ => {},
            }
            assert(below(d, p[k]) == Ok::<Data, Miss>(e));
            assert(q[k] == p[k]);
        } else if sp[c].kind == SpanKind::Alias {
            passing_an_alias_shows(e, sp, c + 1, p, k + 1);
        }
    }
}

/// Whether a member with span `child` can be cut out of the collection with span
/// `parent`: in flow style it stands behind the bracket, in block style it belongs
/// to an entry or an item.
pub open spec fn can_be_cut_out(
    d: Doc,
    map: bool,
    parent: SpanNode,
    child: SpanNode,
) -> bool {
    &&& parent.start < parent.end <= d.source.len()
    &&& child.start <= child.end <= d.source.len()
    &&& child.key_start <= d.source.len()
    &&& if d.source[parent.start as int] == (if map {
        LBRACE
    } else {
        LBRACKET
    }) {
        parent.start < if map {
            child.key_start
        } else {
            child.start
        }
    } else {
        exists|k: int| #[trigger] innermost(d.green, member_kind(map), child.start - 1, k)
    }
}

/// Every member of a collection that can be cut out is removed: the edit fails only
/// where the new text cannot be taken, or would not have the value that is left.
pub proof fn members_are_removed(d: Doc, path: Seq<u8>)
    requires
        d.wf(),
        d.value() is Ok,
        path_steps(path).len() > 0,
        ({
            let p = path_steps(path);
            let (v, sp) = d.value()->Ok_0;
            let e = at(v, p, 0, p.len() - 1);
            let parent = typed_spot(v, sp, 0, p.drop_last(), 0, false);
            &&& typed_spot(v, sp, 0, p, 0, false) matches Some((c, through)) && !through
                && can_be_cut_out(d, e->Ok_0 is Dict, sp[(parent->0).0], sp[c])
            &&& after_remove(v, p) is Ok
        }),
    ensures
        is_replacement(
            d,
            after_remove(d.value()->Ok_0.0, path_steps(path))->Ok_0,
            after_removal(d, path),
        ),
{
    let p = path_steps(path);
    let (v, sp) = d.value()->Ok_0;
    let s = d.source;
    let t = d.green;
    let (c, _) = typed_spot(v, sp, 0, p, 0, false)->0;
    members_have_a_site(s, t, v, sp, 0, p, 0);
    let e = at(v, p, 0, p.len() - 1)->Ok_0;
    let j = (typed_spot(v, sp, 0, p.drop_last(), 0, false)->0).0;
    let map = e is Dict;
    owners_are_innermost(t, member_kind(map), sp[c].start as int);
    covering_trees_are_sound(t, s.len() as int);
    let site = removal(s, t, sp[j], sp[c], map, width(e) <= 1);
    assert(site is Ok);
    let (a, b, text) = site->Ok_0;
    assert(replaced_span(d, a, b, text) == replaced_span(d, a, b, text));
}

/// Every scalar that its path shows is replaced by another one: the edit fails only
/// where the new text cannot be taken, or would not have the new value in the place
/// of the old one.
pub proof fn scalars_are_replaced(d: Doc, path: Seq<u8>, new: Data)
    requires
        d.value() is Ok,
        span_of(d, path_steps(path)) is Some,
        ({
            let p = path_steps(path);
            let (v, sp) = d.value()->Ok_0;
            let (a, b) = span_of(d, p)->0;
            &&& typed_spot(v, sp, 0, p, 0, false) matches Some((_, through)) && !through
            &&& leaf_at(d.green, a) matches Some((k, _)) && (d.green[k].kind
                == SyntaxKind::PlainScalar || d.green[k].kind == SyntaxKind::SingleQuotedScalar
                || d.green[k].kind == SyntaxKind::DoubleQuotedScalar)
            &&& !shared(d, a)
            &&& forall|i: int|
                0 <= i < d.green.len() && a <= (#[trigger] d.green[i]).start < b
                    ==> !block_collection(d.green[i].kind) && !flow_collection(d.green[i].kind)
        }),
        new is Null || new is Bool || new is Int || new is Float || new is Text,
    ensures
        ({
            let p = path_steps(path);
            is_replacement(
                d,
                put(d.value()->Ok_0.0, p, 0, p.len() as int, new),
                after_set_value(d, path, new),
            )
        }),
{
    let p = path_steps(path);
    let (a, b) = span_of(d, p)->0;
    bytes_are_shared_through_aliases(d.source, d.green, a);
    let kind = kind_at(d.green, a)->0;
    let text = value_for_site(new, site_context(d, a, b, kind));
    assert(text is Ok);
    assert(!collection_in(d.green, a, b));
    assert(replaced_span(d, a, b, text->Ok_0) == replaced_span(d, a, b, text->Ok_0));
}

/// Every key that can have the new name is renamed: the edit fails only where the
/// new text cannot be taken, or would not have the renamed key in the place of the
/// old one.
pub proof fn keys_are_renamed(d: Doc, path: Seq<u8>, new_key: Seq<u8>)
    requires
        d.value() is Ok,
        brackets_hold_indices(path, 0),
        new_key != "<<".spec_bytes(),
        non_printable(new_key, 0) is None,
        ({
            let p = path_steps(path);
            let (v, sp) = d.value()->Ok_0;
            &&& key_site(v, sp, 0, p, 0, Some(new_key)) is Ok
            &&& key_span_of(d, p) matches Some((a, _)) && !shared(d, a)
            &&& p.last() != Seg::Key(new_key)
            &&& after_rename(v, p, new_key) is Ok
        }),
    ensures
        is_replacement(
            d,
            after_rename(d.value()->Ok_0.0, path_steps(path), new_key)->Ok_0,
            after_rename_key(d, path, new_key),
        ),
{
    let p = path_steps(path);
    let (v, sp) = d.value()->Ok_0;
    let (a, b) = key_span_of(d, p)->0;
    key_sites_stay(v, sp, 0, p, 0, new_key);
    bytes_are_shared_through_aliases(d.source, d.green, a);
    let (c, _) = leaf_at(d.green, a)->0;
    let text = key_for_site(new_key, d.green[c].kind);
    assert(replaced_span(d, a, b, text) == replaced_span(d, a, b, text));
}

/// Two items of a sequence in block style are exchanged wherever both have bytes:
/// the edit fails only where the new text cannot be taken, or would not have the
/// two in each other's place. Where the two are equal nothing changes.
pub proof fn items_are_exchanged(d: Doc, path: Seq<u8>, i: int, j: int)
    requires
        d.value() is Ok,
        ({
            let p = path_steps(path);
            let v = d.value()->Ok_0.0;
            &&& at(v, p, 0, p.len() as int) matches Ok(Data::List(l)) && 0 <= i < l.len() && 0 <= j
                < l.len()
            &&& span_of(d, path_steps(item_path(path, i))) is Some
            &&& span_of(d, path_steps(item_path(path, j))) is Some
            &&& !written_as(d, p, SyntaxKind::FlowSequence)
            &&& after_swap(v, p, i, j) is Ok
        }),
    ensures
        ({
            let p = path_steps(path);
            let v = d.value()->Ok_0.0;
            let l = at(v, p, 0, p.len() as int)->Ok_0->List_0;
            let r = after_swap_items(d, path, i, j);
            if l[i] == l[j] {
                r == Ok::<Doc, Error>(d)
            } else {
                match after_exchange(
                    d,
                    span_of(d, path_steps(item_path(path, i)))->0,
                    span_of(d, path_steps(item_path(path, j)))->0,
                ) {
                    Ok(n) => r is Ok <==> n.value() is Ok && n.value()->Ok_0.0 == after_swap(
                        v,
                        p,
                        i,
                        j,
                    )->Ok_0,
                    Err(_) => r is Err,
                }
            }
        }),
{
}

} // verus!
