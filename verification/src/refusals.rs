//! What edits leave alone: where they succeed, nothing of this is in their way.
use crate::document::{write_range, Doc};
use crate::error::Operation;
use crate::growth::spots_are_children;
use crate::laws::key_sites_stay;
use crate::model::{
    after_insert_after, after_insert_entry_text, after_insert_entry_value, after_push_back,
    after_push_back_value, after_rename_key, after_set, after_set_value, inside_flow, key_span_of,
    lowest,
};
use crate::oracle::at;
use crate::path::{path_steps, Seg};
use crate::resolve::typed_spot;
use crate::scalar::non_printable;
use crate::site::leaf_at;
use crate::sites::{bytes_are_shared_through_aliases, shared_through};
use crate::syntax::{Elem, SyntaxKind};
use crate::value::{find, Data};
use vstd::prelude::*;
use vstd::string::*;

verus! {

/// Whether what starts at `a` is part of a flow collection.
pub open spec fn part_of_flow(t: Seq<Elem>, a: int) -> bool {
    exists|i: int|
        0 <= i < t.len() && ((#[trigger] t[i]).kind == SyntaxKind::FlowMapping || t[i].kind
            == SyntaxKind::FlowSequence) && t[i].start < a < t[i].end
}

/// A value that a path reaches through an alias is not written: its bytes belong
/// to the anchor.
pub proof fn nothing_is_written_through_an_alias(d: Doc, path: Seq<u8>, fragment: Seq<u8>, new: Data)
    requires
        d.value() is Ok,
    ensures
        ({
            let p = path_steps(path);
            let (v, sp) = d.value()->Ok_0;
            let spot = typed_spot(v, sp, 0, p, 0, false);
            &&& after_set(d, path, fragment) is Ok ==> spot is Some && !(spot->0).1
            &&& after_set_value(d, path, new) is Ok ==> spot is Some && !(spot->0).1
        }),
{
}

/// Items are added verbatim to block sequences alone.
pub proof fn items_are_added_to_block_sequences(d: Doc, path: Seq<u8>, fragment: Seq<u8>)
    requires
        d.value() is Ok,
    ensures
        ({
            let p = path_steps(path);
            let (v, sp) = d.value()->Ok_0;
            &&& after_insert_after(d, path, fragment) is Ok ==> (typed_spot(
                v,
                sp,
                0,
                p,
                0,
                false,
            ) matches Some((c, through)) ==> !through ==> !part_of_flow(
                d.green,
                sp[c].start as int,
            ))
            &&& after_push_back(d, path, fragment) is Ok ==> (at(
                v,
                p,
                0,
                p.len() as int,
            ) matches Ok(Data::List(l)) && l.len() > 0 && (typed_spot(
                v,
                sp,
                0,
                p.push(Seg::Index(l.len() - 1)),
                0,
                false,
            ) matches Some((c, through)) ==> !through ==> !part_of_flow(
                d.green,
                sp[c].start as int,
            )))
        }),
{
    let p = path_steps(path);
    let (v, sp) = d.value()->Ok_0;
    if after_insert_after(d, path, fragment) is Ok {
        let parent = p.drop_last();
        assert(p =~= parent.push(p.last()));
        if let Some((c, through)) = typed_spot(v, sp, 0, p, 0, false) {
            if !through {
                spots_are_children(v, sp, 0, parent, p.last(), 0, false);
                flow_is_seen(d.green, sp[c].start as int);
            }
        }
    }
    if after_push_back(d, path, fragment) is Ok {
        let l = at(v, p, 0, p.len() as int)->Ok_0->List_0;
        let last = Seg::Index(l.len() - 1);
        if let Some((c, through)) = typed_spot(v, sp, 0, p.push(last), 0, false) {
            if !through {
                spots_are_children(v, sp, 0, p, last, 0, false);
                flow_is_seen(d.green, sp[c].start as int);
            }
        }
    }
}

pub(crate) proof fn flow_is_seen(t: Seq<Elem>, a: int)
    ensures
        part_of_flow(t, a) == inside_flow(t, a),
{
    if part_of_flow(t, a) {
        let i = choose|i: int|
            0 <= i < t.len() && ((#[trigger] t[i]).kind == SyntaxKind::FlowMapping || t[i].kind
                == SyntaxKind::FlowSequence) && t[i].start < a < t[i].end;
        assert(t[i].start < a);
    }
}

/// Entries are added to block mappings alone, verbatim and by value.
pub proof fn entries_are_added_to_block_mappings(
    d: Doc,
    path: Seq<u8>,
    key: Seq<u8>,
    fragment: Seq<u8>,
    new: Data,
)
    requires
        d.value() is Ok,
        after_insert_entry_text(d, path, key, fragment) is Ok || after_insert_entry_value(
            d,
            path,
            key,
            new,
        ) is Ok,
    ensures
        ({
            let p = path_steps(path);
            let (v, sp) = d.value()->Ok_0;
            let spot = typed_spot(v, sp, 0, p, 0, false);
            let (i, _) = spot->0;
            &&& spot is Some
            &&& at(v, p, 0, p.len() as int) matches Ok(Data::Dict(m)) && m.len() > 0 && (find(m, key)
                is None ==> (lowest(sp, i + 1, i + sp[i].size, None) matches Some(x)
                && !part_of_flow(d.green, sp[x].start as int)))
        }),
{
    let p = path_steps(path);
    let (v, sp) = d.value()->Ok_0;
    let (i, _) = typed_spot(v, sp, 0, p, 0, false)->0;
    let m = at(v, p, 0, p.len() as int)->Ok_0->Dict_0;
    crate::value::find_is_exact(m, key, 0);
    if find(m, key) is None {
        let x = lowest(sp, i + 1, i + sp[i].size, None)->0;
        flow_is_seen(d.green, sp[x].start as int);
    }
}

/// Whether byte `pos` is shared through an alias.
pub open spec fn shared(d: Doc, pos: int) -> bool {
    exists|i: int| #[trigger] shared_through(d.source, d.green, i, pos)
}

/// Values are not added where aliases would show them in other places: next to an
/// item or an entry that is shared through one.
pub proof fn values_are_not_added_to_what_is_shared(
    d: Doc,
    path: Seq<u8>,
    new: Data,
)
    requires
        d.value() is Ok,
    ensures
        ({
            let p = path_steps(path);
            let (v, sp) = d.value()->Ok_0;
            &&& after_push_back_value(d, path, new) is Ok ==> (at(
                v,
                p,
                0,
                p.len() as int,
            ) matches Ok(Data::List(l)) && l.len() > 0 && (typed_spot(
                v,
                sp,
                0,
                p.push(Seg::Index(l.len() - 1)),
                0,
                false,
            ) matches Some((c, through)) ==> !through ==> !shared(d, sp[c].start as int)))
        }),
{
    let p = path_steps(path);
    let (v, sp) = d.value()->Ok_0;
    if after_push_back_value(d, path, new) is Ok {
        let l = at(v, p, 0, p.len() as int)->Ok_0->List_0;
        let last = Seg::Index(l.len() - 1);
        if let Some((c, through)) = typed_spot(v, sp, 0, p.push(last), 0, false) {
            if !through {
                spots_are_children(v, sp, 0, p, last, 0, false);
                bytes_are_shared_through_aliases(d.source, d.green, sp[c].start as int);
            }
        }
    }
}

/// A key that is shared through an alias is not renamed, and no key becomes a merge
/// or gets a character that cannot be printed.
pub proof fn keys_get_names_they_can_have(d: Doc, path: Seq<u8>, new_key: Seq<u8>)
    requires
        d.value() is Ok,
        after_rename_key(d, path, new_key) is Ok,
        path_steps(path).last() != Seg::Key(new_key),
    ensures
        new_key != "<<".spec_bytes(),
        forall|k: int|
            0 <= k < new_key.len() ==> (32 <= #[trigger] new_key[k] || new_key[k] == 9)
                && new_key[k] != 127,
        key_span_of(d, path_steps(path)) matches Some((a, _)) ==> !shared(d, a),
{
    let p = path_steps(path);
    let (v, sp) = d.value()->Ok_0;
    key_sites_stay(v, sp, 0, p, 0, new_key);
    printable_throughout(new_key, 0);
    if let Some((a, b)) = key_span_of(d, p) {
        bytes_are_shared_through_aliases(d.source, d.green, a);
    }
}

proof fn printable_throughout(s: Seq<u8>, i: int)
    requires
        0 <= i <= s.len(),
        non_printable(s, i) is None,
    ensures
        forall|k: int| i <= k < s.len() ==> (32 <= #[trigger] s[k] || s[k] == 9) && s[k] != 127,
    decreases s.len() - i,
{
    if i < s.len() {
        printable_throughout(s, i + 1);
    }
}

/// Only scalars that are no block scalars are replaced by value: no collection
/// starts in what is replaced, and the token there is of another kind.
pub proof fn values_replace_scalars_alone(d: Doc, path: Seq<u8>, new: Data)
    requires
        after_set_value(d, path, new) is Ok,
    ensures
        ({
            let range = write_range(d, path_steps(path), Operation::SetValue);
            let (a, b) = range->Ok_0;
            let token = leaf_at(d.green, a);
            let kind = d.green[(token->0).0].kind;
            &&& range is Ok
            &&& token is Some
            &&& kind != SyntaxKind::LiteralScalar && kind != SyntaxKind::FoldedScalar
            &&& forall|i: int|
                0 <= i < d.green.len() && a <= (#[trigger] d.green[i]).start < b ==> d.green[i].kind
                    != SyntaxKind::BlockMapping && d.green[i].kind != SyntaxKind::BlockSequence
                    && d.green[i].kind != SyntaxKind::FlowMapping && d.green[i].kind
                    != SyntaxKind::FlowSequence
        }),
{
}

} // verus!
