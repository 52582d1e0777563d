//! What holds of the library as a whole.
use crate::census::{
    nodes, removing_an_entry_takes_its_nodes, removing_an_item_takes_its_nodes, replacing_a_value_changes_its_nodes_only,
    replacing_an_item_changes_its_nodes_only,
};
use crate::decode::{double_quoting_round_trips, single_quoting_round_trips};
use crate::resolve::{denotes, green_range, spots_belong_to_selected_values, typed_spot};
use crate::document::{own_range, parsed, span_of, replaced_span, splice, write_range, Doc};
use crate::emit::{has_control, key_for_site};
use crate::entry::{child_site, key_site, removal_site};
use crate::load::SpanNode;
use crate::error::{Error, Operation};
use crate::green::{built_trees_cover, covering_trees_reproduce_the_text, text_from, MAX_SOURCE};
use crate::model::{
    after_exchange, after_insert_after, after_insert_after_value, after_insert_entry_text,
    after_insert_entry_value, after_move_item, after_push_back, after_push_back_value,
    after_removal, after_rename_key, after_set, after_set_value, after_swap_items, carried_down,
    carried_up, children, held_to, item_line, item_site, key_meaning, key_span_of,
};
use crate::oracle::{after_swap, at, below, length_at, put, with_child, with_entry, without};
use crate::lines::{after_line, value_end};
use crate::path::{brackets_hold_indices, parent_path, path_steps, Seg};
use crate::repair::repaired_trees_cover;
use crate::scalar::{non_printable, plain_safe, plain_safe_strings_stay_strings, resolved, Plain};
use crate::site::{covering_aliases, dash_column, kind_at};
use crate::syntax::SyntaxKind;
use crate::value::{find, find_from, find_is_exact, Data};
use vstd::prelude::*;
use vstd::string::*;
use vstd::utf8::*;

verus! {

/// Whether an edit that succeeds leaves a whole document: one whose tree
/// spells its source, byte for byte, and is the tree that a fresh parse of the
/// source gives whenever there is one, under the same limits as before.
pub open spec fn keeps_whole(d: Doc, r: Result<Doc, Error>) -> bool {
    r matches Ok(n) ==> n.wf() && n.config == d.config && text_from(
        n.green,
        0,
        n.source,
        Seq::empty(),
    ) == n.source
}

proof fn whole(d: Doc)
    requires
        d.wf(),
    ensures
        text_from(d.green, 0, d.source, Seq::empty()) == d.source,
{
    covering_trees_reproduce_the_text(d.green, d.source);
}

/// A parsed document is whole, and its source is the text it was parsed from.
pub proof fn parsing_is_lossless(s: Seq<u8>, config: crate::config::ParserConfig)
    requires
        valid_utf8(s),
        parsed(s, config) is Ok,
    ensures
        parsed(s, config)->Ok_0.source == s,
        parsed(s, config)->Ok_0.wf(),
        text_from(parsed(s, config)->Ok_0.green, 0, s, Seq::empty()) == s,
        parsed(s, config)->Ok_0.value() is Ok,
{
    built_trees_cover(s, config.max_depth as nat);
    whole(parsed(s, config)->Ok_0);
    reveal(crate::load::tree_value);
}

/// Replacing a range of bytes changes that range and nothing else.
pub proof fn splices_change_only_their_range(d: Doc, a: int, b: int, text: Seq<u8>)
    requires
        0 <= a,
        replaced_span(d, a, b, text) is Ok,
    ensures
        ({
            let n = replaced_span(d, a, b, text)->Ok_0.source;
            &&& n.len() == d.source.len() - (b - a) + text.len()
            &&& n.subrange(0, a) == d.source.subrange(0, a)
            &&& n.subrange(a, a + text.len()) == text
            &&& n.subrange(a + text.len(), n.len() as int) == d.source.subrange(
                b,
                d.source.len() as int,
            )
        }),
{
    let n = splice(d.source, a, b, text);
    assert(n.subrange(0, a) =~= d.source.subrange(0, a));
    assert(n.subrange(a, a + text.len()) =~= text);
    assert(n.subrange(a + text.len(), n.len() as int) =~= d.source.subrange(
        b,
        d.source.len() as int,
    ));
}

proof fn replacing_keeps_whole(d: Doc, a: int, b: int, text: Seq<u8>)
    requires
        d.wf(),
    ensures
        keeps_whole(d, replaced_span(d, a, b, text)),
{
    let new = splice(d.source, a, b, text);
    if new.len() <= MAX_SOURCE {
        repaired_trees_cover(d.green, d.source, new, a, b, text, d.config.max_depth as nat);
    }
    built_trees_cover(new, d.config.max_depth as nat);
    if let Ok(n) = replaced_span(d, a, b, text) {
        whole(n);
    }
}

/// Every edit that succeeds leaves a whole document under the same limits:
/// splices, verbatim edits and edits by value alike.
pub proof fn every_edit_keeps_a_document_whole(
    d: Doc,
    path: Seq<u8>,
    key: Seq<u8>,
    text: Seq<u8>,
    v: Data,
    i: int,
    j: int,
)
    requires
        d.wf(),
    ensures
        keeps_whole(d, replaced_span(d, i, j, text)),
        keeps_whole(d, after_set(d, path, text)),
        keeps_whole(d, after_set_value(d, path, v)),
        keeps_whole(d, after_removal(d, path)),
        keeps_whole(d, after_rename_key(d, path, key)),
        keeps_whole(d, after_swap_items(d, path, i, j)),
        keeps_whole(d, after_move_item(d, path, i, j)),
        keeps_whole(d, after_push_back(d, path, text)),
        keeps_whole(d, after_push_back_value(d, path, v)),
        keeps_whole(d, after_insert_after(d, path, text)),
        keeps_whole(d, after_insert_after_value(d, path, v)),
        keeps_whole(d, after_insert_entry_text(d, path, key, text)),
        keeps_whole(d, after_insert_entry_value(d, path, key, v)),
{
    whole(d);
    assert forall|a: int, b: int, t: Seq<u8>| keeps_whole(d, #[trigger] replaced_span(d, a, b, t)) by {
        replacing_keeps_whole(d, a, b, t);
    }
    swapping_keeps_whole(d, path, i, j);
    moving_keeps_whole(d, path, i, j);
}

proof fn swapping_keeps_whole(d: Doc, path: Seq<u8>, i: int, j: int)
    requires
        d.wf(),
    ensures
        keeps_whole(d, after_swap_items(d, path, i, j)),
{
    whole(d);
    assert forall|m: Doc, a: int, b: int, t: Seq<u8>|
        m.wf() implies keeps_whole(m, #[trigger] replaced_span(m, a, b, t)) by {
        replacing_keeps_whole(m, a, b, t);
    }
    assert forall|x: (int, int), y: (int, int)|
        keeps_whole(d, #[trigger] after_exchange(d, x, y)) by {
        let (lo, hi) = if x.0 < y.0 {
            (x, y)
        } else {
            (y, x)
        };
        let first = replaced_span(d, hi.0, hi.1, d.source.subrange(lo.0, lo.1));
        assert(keeps_whole(d, first));
        if let Ok(n) = first {
            assert(keeps_whole(
                n,
                replaced_span(n, lo.0, lo.1, d.source.subrange(hi.0, hi.1)),
            ));
        }
    }
}

proof fn moving_keeps_whole(d: Doc, path: Seq<u8>, from: int, to: int)
    requires
        d.wf(),
    ensures
        keeps_whole(d, after_move_item(d, path, from, to)),
{
    carrying_up_keeps_whole(d, path, from, to);
    carrying_down_keeps_whole(d, path, from, to);
}

proof fn carrying_up_keeps_whole(d: Doc, path: Seq<u8>, k: int, to: int)
    requires
        d.wf(),
    ensures
        keeps_whole(d, carried_up(d, path, k, to)),
    decreases to - k,
{
    whole(d);
    if k < to {
        swapping_keeps_whole(d, path, k, k + 1);
        if let Ok(n) = after_swap_items(d, path, k, k + 1) {
            carrying_up_keeps_whole(n, path, k + 1, to);
        }
    }
}

proof fn carrying_down_keeps_whole(d: Doc, path: Seq<u8>, k: int, to: int)
    requires
        d.wf(),
    ensures
        keeps_whole(d, carried_down(d, path, k, to)),
    decreases k - to,
{
    whole(d);
    if k > to {
        swapping_keeps_whole(d, path, k, k - 1);
        if let Ok(n) = after_swap_items(d, path, k, k - 1) {
            carrying_down_keeps_whole(n, path, k - 1, to);
        }
    }
}

/// Exchanging two items changes no byte outside the two, and none of those
/// between them: each takes the other's place.
pub proof fn an_exchange_moves_only_the_two_items(d: Doc, x: (int, int), y: (int, int))
    requires
        0 <= x.0 <= x.1 <= y.0 <= y.1 <= d.source.len(),
        x.0 < y.0,
        after_exchange(d, x, y) is Ok,
    ensures
        after_exchange(d, x, y)->Ok_0.source == d.source.subrange(0, x.0) + d.source.subrange(
            y.0,
            y.1,
        ) + d.source.subrange(x.1, y.0) + d.source.subrange(x.0, x.1) + d.source.subrange(
            y.1,
            d.source.len() as int,
        ),
{
    let s = d.source;
    let n = replaced_span(d, y.0, y.1, s.subrange(x.0, x.1))->Ok_0;
    let m = splice(n.source, x.0, x.1, s.subrange(y.0, y.1));
    assert(n.source == splice(s, y.0, y.1, s.subrange(x.0, x.1)));
    assert(m =~= s.subrange(0, x.0) + s.subrange(y.0, y.1) + s.subrange(x.1, y.0) + s.subrange(
        x.0,
        x.1,
    ) + s.subrange(y.1, s.len() as int));
}

/// Replacing the value of an entry moves no key.
proof fn updates_keep_keys(m: Seq<(Seq<u8>, Data)>, i: int, new: Data, key: Seq<u8>, k: int)
    requires
        0 <= i < m.len(),
        0 <= k <= m.len(),
    ensures
        find_from(m.update(i, (m[i].0, new)), key, k) == find_from(m, key, k),
    decreases m.len() - k,
{
    if k < m.len() {
        updates_keep_keys(m, i, new, key, k + 1);
    }
}

/// One step below a value whose child was replaced: the new child behind the
/// step to it, the old ones behind every other step.
proof fn replaced_children(d: Data, step: Seg, new: Data, other: Seg)
    requires
        below(d, step) is Ok,
    ensures
        below(with_child(d, step, new), step) == Ok::<Data, crate::oracle::Miss>(new),
        other != step ==> below(with_child(d, step, new), other) == below(d, other),
{
    match (step, d) {
        (Seg::Key(k), Data::Dict(m)) => {
            find_is_exact(m, k, 0);
            let i = find(m, k)->0;
            updates_keep_keys(m, i, new, k, 0);
            if let Seg::Key(o) = other {
                find_is_exact(m, o, 0);
                updates_keep_keys(m, i, new, o, 0);
            }
        },
        _ => {},
    }
}

/// What is put at a path is what is read back there.
pub proof fn what_is_put_is_read_back(d: Data, p: Seq<Seg>, k: int, hi: int, new: Data)
    requires
        at(d, p, k, hi) is Ok,
    ensures
        at(put(d, p, k, hi, new), p, k, hi) == Ok::<Data, crate::oracle::Miss>(new),
    decreases hi - k,
{
    if k < hi {
        let e = below(d, p[k])->Ok_0;
        what_is_put_is_read_back(e, p, k + 1, hi, new);
        replaced_children(d, p[k], put(e, p, k + 1, hi, new), p[k]);
    }
}

/// Putting a value at a path leaves alone what every path that branches off
/// before its end leads to.
pub proof fn what_is_put_stays_in_its_place(
    d: Data,
    p: Seq<Seg>,
    k: int,
    hi: int,
    new: Data,
    q: Seq<Seg>,
    fork: int,
)
    requires
        at(d, p, k, hi) is Ok,
        k <= fork < hi,
        fork < q.len(),
        forall|j: int| k <= j < fork ==> q[j] == p[j],
        q[fork] != p[fork],
    ensures
        at(put(d, p, k, hi, new), q, k, q.len() as int) == at(d, q, k, q.len() as int),
    decreases hi - k,
{
    let e = below(d, p[k])->Ok_0;
    let inner = put(e, p, k + 1, hi, new);
    replaced_children(d, p[k], inner, q[k]);
    if k < fork {
        assert(q[k] == p[k]);
        what_is_put_stays_in_its_place(e, p, k + 1, hi, new, q, fork);
    }
}

/// Putting a value changes the number of nodes by what is put and what was
/// there.
proof fn nodes_after_put(d: Data, p: Seq<Seg>, k: int, hi: int, new: Data)
    requires
        at(d, p, k, hi) is Ok,
    ensures
        nodes(put(d, p, k, hi, new)) + nodes(at(d, p, k, hi)->Ok_0) == nodes(d) + nodes(new),
    decreases hi - k,
{
    if k < hi {
        let e = below(d, p[k])->Ok_0;
        let inner = put(e, p, k + 1, hi, new);
        nodes_after_put(e, p, k + 1, hi, new);
        match (p[k], d) {
            (Seg::Key(key), Data::Dict(m)) => {
                find_is_exact(m, key, 0);
                let i = find(m, key)->0;
                replacing_a_value_changes_its_nodes_only(m, i, (m[i].0, inner), m.len() as int);
            },
            (Seg::Index(i), Data::List(v)) => {
                replacing_an_item_changes_its_nodes_only(v, i, inner, v.len() as int);
            },
            _ => {},
        }
    }
}

proof fn held(n: Result<Doc, Error>, expected: Data, op: Operation)
    ensures
        held_to(n, expected, op) matches Ok(d) ==> n == Ok::<Doc, Error>(d) && d.value() is Ok
            && d.value()->Ok_0.0 == expected,
{
}

/// A removal that succeeds takes exactly what the path leads to: the collection
/// it was in keeps its kind and its other members, whatever else a path leads
/// to stays, and the value has fewer nodes than before.
pub proof fn a_removal_takes_exactly_its_path(d: Doc, path: Seq<u8>, q: Seq<Seg>, fork: int)
    requires
        after_removal(d, path) is Ok,
    ensures
        ({
            let p = path_steps(path);
            let hi = p.len() - 1;
            let n = after_removal(d, path)->Ok_0;
            &&& d.value() is Ok
            &&& n.value() is Ok
            &&& {
                let v = d.value()->Ok_0.0;
                let w = n.value()->Ok_0.0;
                &&& at(v, p, 0, hi) is Ok
                &&& without(at(v, p, 0, hi)->Ok_0, p[hi]) is Ok
                &&& at(w, p, 0, hi) == without(at(v, p, 0, hi)->Ok_0, p[hi])
                &&& nodes(w) < nodes(v)
                &&& (0 <= fork < hi && fork < q.len() && q[fork] != p[fork] && forall|j: int|
                    0 <= j < fork ==> q[j] == p[j]) ==> at(w, q, 0, q.len() as int) == at(
                    v,
                    q,
                    0,
                    q.len() as int,
                )
            }
        }),
{
    let p = path_steps(path);
    let hi = p.len() - 1;
    let v = d.value()->Ok_0.0;
    let e = at(v, p, 0, hi)->Ok_0;
    let f = without(e, p[hi])->Ok_0;
    what_is_put_is_read_back(v, p, 0, hi, f);
    nodes_after_put(v, p, 0, hi, f);
    match (p[hi], e) {
        (Seg::Key(key), Data::Dict(m)) => {
            find_is_exact(m, key, 0);
            let i = find(m, key)->0;
            removing_an_entry_takes_its_nodes(m, i, m.len() - 1);
        },
        (Seg::Index(i), Data::List(l)) => {
            removing_an_item_takes_its_nodes(l, i, l.len() - 1);
        },
        _ => {},
    }
    if 0 <= fork < hi && fork < q.len() && q[fork] != p[fork] && (forall|j: int|
        0 <= j < fork ==> q[j] == p[j]) {
        what_is_put_stays_in_its_place(v, p, 0, hi, f, q, fork);
    }
}

/// A key that has a site is a key of the mapping its path leads to, and a new
/// name for it is not taken.
proof fn key_sites_are_keys(
    d: Data,
    sp: Seq<SpanNode>,
    i: int,
    p: Seq<Seg>,
    k: int,
    new_key: Option<Seq<u8>>,
)
    requires
        0 <= k,
        key_site(d, sp, i, p, k, new_key) is Ok,
    ensures
        p.len() > k,
        at(d, p, k, p.len() - 1) is Ok,
        ({
            let e = at(d, p, k, p.len() - 1)->Ok_0;
            &&& p.last() is Key
            &&& e is Dict
            &&& find(e->Dict_0, p.last()->Key_0) is Some
            &&& new_key is Some && new_key->0 != p.last()->Key_0 ==> find(
                e->Dict_0,
                new_key->0,
            ) is None
        }),
    decreases p.len() - k,
{
    if k + 1 < p.len() {
        let (e, c) = child_site(d, sp, i, p[k])->Ok_0;
        assert(below(d, p[k]) == Ok::<Data, crate::oracle::Miss>(e));
        key_sites_are_keys(e, sp, c, p, k + 1, new_key);
        assert(at(d, p, k, p.len() - 1) == at(e, p, k + 1, p.len() - 1));
    } else {
        assert(at(d, p, k, p.len() - 1) == Ok::<Data, crate::oracle::Miss>(d));
    }
}

/// An entry that gets a name which is not taken is found under it.
proof fn renamed_entries_are_found(m: Seq<(Seq<u8>, Data)>, i: int, new_key: Seq<u8>)
    requires
        0 <= i < m.len(),
        find(m, new_key) is None || find(m, new_key) == Some(i),
    ensures
        find(m.update(i, (new_key, m[i].1)), new_key) == Some(i),
{
    let u = m.update(i, (new_key, m[i].1));
    find_is_exact(m, new_key, 0);
    find_is_exact(u, new_key, 0);
    assert(u[i].0 == new_key);
    if let Some(k) = find(u, new_key) {
        if k != i {
            assert(u[k] == m[k]);
        }
    }
}

/// A renaming that succeeds gives the entry its new name: at its old place, with
/// its old value, every other entry as it was. A key that has that name already
/// keeps it.
pub proof fn a_renaming_changes_one_key(d: Doc, path: Seq<u8>, new_key: Seq<u8>)
    requires
        after_rename_key(d, path, new_key) is Ok,
    ensures
        d.value() is Ok,
        ({
            let p = path_steps(path);
            let hi = p.len() - 1;
            let n = after_rename_key(d, path, new_key)->Ok_0;
            let v = d.value()->Ok_0.0;
            let m = at(v, p, 0, hi)->Ok_0->Dict_0;
            let i = find(m, p[hi]->Key_0)->0;
            let u = m.update(i, (new_key, m[i].1));
            &&& p.len() > 0
            &&& p[hi] is Key
            &&& at(v, p, 0, hi) == Ok::<Data, crate::oracle::Miss>(Data::Dict(m))
            &&& find(m, p[hi]->Key_0) == Some(i)
            &&& n.value() is Ok
            &&& n.value()->Ok_0.0 == put(v, p, 0, hi, Data::Dict(u))
            &&& at(n.value()->Ok_0.0, p, 0, hi) == Ok::<Data, crate::oracle::Miss>(Data::Dict(u))
            &&& find(u, new_key) == Some(i)
        }),
{
    let p = path_steps(path);
    let hi = p.len() - 1;
    let (v, sp) = d.value()->Ok_0;
    key_sites_are_keys(v, sp, 0, p, 0, Some(new_key));
    let m = at(v, p, 0, hi)->Ok_0->Dict_0;
    let i = find(m, p[hi]->Key_0)->0;
    find_is_exact(m, p[hi]->Key_0, 0);
    renamed_entries_are_found(m, i, new_key);
    what_is_put_is_read_back(v, p, 0, hi, Data::Dict(m.update(i, (new_key, m[i].1))));
    if p.last() == Seg::Key(new_key) {
        assert(m.update(i, (new_key, m[i].1)) =~= m);
        putting_back_restores(v, p, 0, hi);
    }
}

/// The site of a key does not depend on the name it is to get.
pub(crate) proof fn key_sites_stay(d: Data, sp: Seq<SpanNode>, i: int, p: Seq<Seg>, k: int, new_key: Seq<u8>)
    requires
        0 <= k,
        key_site(d, sp, i, p, k, Some(new_key)) is Ok,
    ensures
        key_site(d, sp, i, p, k, None) == key_site(d, sp, i, p, k, Some(new_key)),
    decreases p.len() - k,
{
    if k + 1 < p.len() {
        let (e, c) = child_site(d, sp, i, p[k])->Ok_0;
        key_sites_stay(e, sp, c, p, k + 1, new_key);
    }
}

/// Exchanging two items twice gives back the list.
pub proof fn swapping_twice_restores(d: Data, p: Seq<Seg>, i: int, j: int)
    requires
        after_swap(d, p, i, j) is Ok,
    ensures
        after_swap(after_swap(d, p, i, j)->Ok_0, p, i, j) == Ok::<Data, crate::oracle::Miss>(d),
{
    let hi = p.len() as int;
    let v = at(d, p, 0, hi)->Ok_0->List_0;
    let w = v.update(i, v[j]).update(j, v[i]);
    let once = after_swap(d, p, i, j)->Ok_0;
    what_is_put_is_read_back(d, p, 0, hi, Data::List(w));
    assert(w.update(i, w[j]).update(j, w[i]) =~= v);
    putting_again_forgets(d, p, 0, hi, Data::List(w), Data::List(v));
    putting_back_restores(d, p, 0, hi);
}

/// A value put at a path takes the place of the one put there before.
pub proof fn putting_again_forgets(d: Data, p: Seq<Seg>, k: int, hi: int, a: Data, b: Data)
    requires
        at(d, p, k, hi) is Ok,
    ensures
        put(put(d, p, k, hi, a), p, k, hi, b) == put(d, p, k, hi, b),
    decreases hi - k,
{
    if k < hi {
        let e = below(d, p[k])->Ok_0;
        let x = put(e, p, k + 1, hi, a);
        let y = put(e, p, k + 1, hi, b);
        putting_again_forgets(e, p, k + 1, hi, a, b);
        replaced_children(d, p[k], x, p[k]);
        match (p[k], d) {
            (Seg::Key(key), Data::Dict(m)) => {
                find_is_exact(m, key, 0);
                let i = find(m, key)->0;
                updates_keep_keys(m, i, x, key, 0);
                let u = m.update(i, (m[i].0, x));
                assert(u.update(i, (u[i].0, y)) =~= m.update(i, (m[i].0, y)));
            },
            (Seg::Index(i), Data::List(v)) => {
                assert(v.update(i, x).update(i, y) =~= v.update(i, y));
            },
            _ => {},
        }
    }
}

/// Putting a value where it is changes nothing.
pub proof fn putting_back_restores(d: Data, p: Seq<Seg>, k: int, hi: int)
    requires
        at(d, p, k, hi) is Ok,
    ensures
        put(d, p, k, hi, at(d, p, k, hi)->Ok_0) == d,
    decreases hi - k,
{
    if k < hi {
        let e = below(d, p[k])->Ok_0;
        putting_back_restores(e, p, k + 1, hi);
        match (p[k], d) {
            (Seg::Key(key), Data::Dict(m)) => {
                find_is_exact(m, key, 0);
                let i = find(m, key)->0;
                assert(m.update(i, (m[i].0, e)) =~= m);
            },
            (Seg::Index(i), Data::List(v)) => {
                assert(v.update(i, e) =~= v);
            },
            _ => {},
        }
    }
}

/// The list at a path, if there is one.
pub open spec fn list_at(d: Doc, path: Seq<u8>) -> Seq<Data> {
    at(d.value()->Ok_0.0, path_steps(path), 0, path_steps(path).len() as int)->Ok_0->List_0
}

/// Whether the value of a document is that of another one with the list at a
/// path replaced.
pub open spec fn only_list_changed(d: Doc, n: Doc, path: Seq<u8>, l: Seq<Data>) -> bool {
    let p = path_steps(path);
    let hi = p.len() as int;
    &&& d.value() is Ok
    &&& n.value() is Ok
    &&& at(d.value()->Ok_0.0, p, 0, hi) is Ok
    &&& at(d.value()->Ok_0.0, p, 0, hi)->Ok_0 is List
    &&& n.value()->Ok_0.0 == put(d.value()->Ok_0.0, p, 0, hi, Data::List(l))
    &&& at(n.value()->Ok_0.0, p, 0, hi) == Ok::<Data, crate::oracle::Miss>(Data::List(l))
}

/// A swap that succeeds exchanges the two items and nothing else.
pub proof fn a_swap_exchanges_two_items(d: Doc, path: Seq<u8>, i: int, j: int)
    requires
        0 <= i,
        0 <= j,
        after_swap_items(d, path, i, j) is Ok,
    ensures
        i < list_at(d, path).len(),
        j < list_at(d, path).len(),
        only_list_changed(
            d,
            after_swap_items(d, path, i, j)->Ok_0,
            path,
            list_at(d, path).update(i, list_at(d, path)[j]).update(j, list_at(d, path)[i]),
        ),
{
    let p = path_steps(path);
    let hi = p.len() as int;
    let v = d.value()->Ok_0.0;
    let l = list_at(d, path);
    let w = l.update(i, l[j]).update(j, l[i]);
    what_is_put_is_read_back(v, p, 0, hi, Data::List(w));
    if l[i] == l[j] {
        assert(w =~= l);
        putting_back_restores(v, p, 0, hi);
    }
}

/// A move that succeeds takes the item out and puts it in at its new place;
/// the others keep their order, and nothing else changes.
pub proof fn a_move_carries_one_item(d: Doc, path: Seq<u8>, from: int, to: int)
    requires
        0 <= from,
        0 <= to,
        after_move_item(d, path, from, to) is Ok,
    ensures
        from < list_at(d, path).len(),
        to < list_at(d, path).len(),
        only_list_changed(
            d,
            after_move_item(d, path, from, to)->Ok_0,
            path,
            list_at(d, path).remove(from).insert(to, list_at(d, path)[from]),
        ),
{
    if from < to {
        carried_up_in_order(d, path, from, to);
    } else {
        carried_down_in_order(d, path, from, to);
    }
}

proof fn nothing_changed(d: Doc, path: Seq<u8>)
    requires
        d.value() is Ok,
        length_at(d.value()->Ok_0.0, path_steps(path)) is Ok,
    ensures
        only_list_changed(d, d, path, list_at(d, path)),
{
    putting_back_restores(
        d.value()->Ok_0.0,
        path_steps(path),
        0,
        path_steps(path).len() as int,
    );
}

proof fn changed_in_turn(d: Doc, n: Doc, m: Doc, path: Seq<u8>, l: Seq<Data>, k: Seq<Data>)
    requires
        only_list_changed(d, n, path, l),
        only_list_changed(n, m, path, k),
    ensures
        only_list_changed(d, m, path, k),
{
    putting_again_forgets(
        d.value()->Ok_0.0,
        path_steps(path),
        0,
        path_steps(path).len() as int,
        Data::List(l),
        Data::List(k),
    );
}

proof fn one_place_up(l: Seq<Data>, k: int, to: int)
    requires
        0 <= k < to < l.len(),
    ensures
        ({
            let w = l.update(k, l[k + 1]).update(k + 1, l[k]);
            w.remove(k + 1).insert(to, w[k + 1]) == l.remove(k).insert(to, l[k])
        }),
{
    let w = l.update(k, l[k + 1]).update(k + 1, l[k]);
    assert(w.remove(k + 1).insert(to, w[k + 1]) =~= l.remove(k).insert(to, l[k]));
}

proof fn one_place_down(l: Seq<Data>, k: int, to: int)
    requires
        0 <= to < k < l.len(),
    ensures
        ({
            let w = l.update(k, l[k - 1]).update(k - 1, l[k]);
            w.remove(k - 1).insert(to, w[k - 1]) == l.remove(k).insert(to, l[k])
        }),
{
    let w = l.update(k, l[k - 1]).update(k - 1, l[k]);
    assert(w.remove(k - 1).insert(to, w[k - 1]) =~= l.remove(k).insert(to, l[k]));
}

proof fn carried_up_in_order(d: Doc, path: Seq<u8>, k: int, to: int)
    requires
        0 <= k <= to,
        d.value() is Ok,
        length_at(d.value()->Ok_0.0, path_steps(path)) is Ok,
        to < list_at(d, path).len(),
        carried_up(d, path, k, to) is Ok,
    ensures
        only_list_changed(
            d,
            carried_up(d, path, k, to)->Ok_0,
            path,
            list_at(d, path).remove(k).insert(to, list_at(d, path)[k]),
        ),
    decreases to - k,
{
    let l = list_at(d, path);
    if k == to {
        assert(l.remove(k).insert(to, l[k]) =~= l);
        nothing_changed(d, path);
    } else {
        a_swap_exchanges_two_items(d, path, k, k + 1);
        let n = after_swap_items(d, path, k, k + 1)->Ok_0;
        let w = l.update(k, l[k + 1]).update(k + 1, l[k]);
        carried_up_in_order(n, path, k + 1, to);
        one_place_up(l, k, to);
        changed_in_turn(
            d,
            n,
            carried_up(n, path, k + 1, to)->Ok_0,
            path,
            w,
            l.remove(k).insert(to, l[k]),
        );
    }
}

proof fn carried_down_in_order(d: Doc, path: Seq<u8>, k: int, to: int)
    requires
        0 <= to <= k,
        d.value() is Ok,
        length_at(d.value()->Ok_0.0, path_steps(path)) is Ok,
        k < list_at(d, path).len(),
        carried_down(d, path, k, to) is Ok,
    ensures
        only_list_changed(
            d,
            carried_down(d, path, k, to)->Ok_0,
            path,
            list_at(d, path).remove(k).insert(to, list_at(d, path)[k]),
        ),
    decreases k - to,
{
    let l = list_at(d, path);
    if k == to {
        assert(l.remove(k).insert(to, l[k]) =~= l);
        nothing_changed(d, path);
    } else {
        a_swap_exchanges_two_items(d, path, k, k - 1);
        let n = after_swap_items(d, path, k, k - 1)->Ok_0;
        let w = l.update(k, l[k - 1]).update(k - 1, l[k]);
        carried_down_in_order(n, path, k - 1, to);
        one_place_down(l, k, to);
        changed_in_turn(
            d,
            n,
            carried_down(n, path, k - 1, to)->Ok_0,
            path,
            w,
            l.remove(k).insert(to, l[k]),
        );
    }
}

/// A value that is appended is read back as the last item; nothing else
/// changes.
pub proof fn an_appended_value_is_read_back(d: Doc, path: Seq<u8>, new: Data)
    requires
        after_push_back_value(d, path, new) is Ok,
    ensures
        only_list_changed(
            d,
            after_push_back_value(d, path, new)->Ok_0,
            path,
            list_at(d, path).push(new),
        ),
{
    let p = path_steps(path);
    let hi = p.len() as int;
    let l = list_at(d, path);
    assert(l.insert(l.len() as int, new) =~= l.push(new));
    what_is_put_is_read_back(d.value()->Ok_0.0, p, 0, hi, Data::List(l.push(new)));
}

/// A value that is inserted below an item is read back behind it; nothing
/// else changes.
pub proof fn an_inserted_value_is_read_back(d: Doc, path: Seq<u8>, new: Data)
    requires
        after_insert_after_value(d, path, new) is Ok,
    ensures
        path_steps(path).last() is Index,
        only_list_changed(
            d,
            after_insert_after_value(d, path, new)->Ok_0,
            parent_path(path),
            list_at(d, parent_path(path)).insert(path_steps(path).last()->Index_0 + 1, new),
        ),
{
    let p = path_steps(parent_path(path));
    let hi = p.len() as int;
    let l = list_at(d, parent_path(path));
    let i = path_steps(path).last()->Index_0;
    what_is_put_is_read_back(d.value()->Ok_0.0, p, 0, hi, Data::List(l.insert(i + 1, new)));
}

/// The entries of a mapping but for the one with a given key.
pub open spec fn others(m: Seq<(Seq<u8>, Data)>, key: Seq<u8>) -> Seq<(Seq<u8>, Data)> {
    match find(m, key) {
        Some(i) => m.remove(i),
        None => m,
    }
}

/// An entry that is set is found under its key, with its value, and the other
/// entries stay in their order.
proof fn set_entries_are_found(m: Seq<(Seq<u8>, Data)>, key: Seq<u8>, new: Data, own: int)
    ensures
        ({
            let w = with_entry(m, key, new, own);
            let i = find(w, key)->0;
            &&& find(w, key) is Some
            &&& 0 <= i < w.len()
            &&& w[i] == (key, new)
            &&& others(w, key) == others(m, key)
        }),
{
    let w = with_entry(m, key, new, own);
    let k = if 0 <= own <= m.len() {
        own
    } else {
        m.len() as int
    };
    find_is_exact(m, key, 0);
    find_is_exact(w, key, 0);
    let at = match find(m, key) {
        Some(i) => if i < k {
            i
        } else {
            k
        },
        None => k,
    };
    assert(w[at] == (key, new));
    assert(w.remove(at) =~= others(m, key));
    let f = find(w, key)->0;
    if f < at {
        assert(w[f] == m[f]);
    }
}

/// A value that is set under a key is read back under that key; the other
/// entries keep their order and values, and nothing else changes. Keys that come
/// from a merge stay behind the mapping's own.
pub proof fn a_set_entry_is_read_back(d: Doc, path: Seq<u8>, key: Seq<u8>, new: Data)
    requires
        after_insert_entry_value(d, path, key, new) is Ok,
    ensures
        ({
            let p = path_steps(path);
            let hi = p.len() as int;
            let n = after_insert_entry_value(d, path, key, new)->Ok_0;
            let (v, sp) = d.value()->Ok_0;
            let m = at(v, p, 0, hi)->Ok_0->Dict_0;
            let x = (typed_spot(v, sp, 0, p, 0, false)->0).0;
            let w = with_entry(m, key, new, children(sp, x + 1, x + sp[x].size));
            &&& d.value() is Ok
            &&& n.value() is Ok
            &&& at(v, p, 0, hi) == Ok::<Data, crate::oracle::Miss>(Data::Dict(m))
            &&& n.value()->Ok_0.0 == put(v, p, 0, hi, Data::Dict(w))
            &&& at(n.value()->Ok_0.0, p, 0, hi) == Ok::<Data, crate::oracle::Miss>(Data::Dict(w))
            &&& find(w, key) is Some
            &&& w[find(w, key)->0] == (key, new)
            &&& others(w, key) == others(m, key)
        }),
{
    let p = path_steps(path);
    let hi = p.len() as int;
    let (v, sp) = d.value()->Ok_0;
    let m = at(v, p, 0, hi)->Ok_0->Dict_0;
    let x = (typed_spot(v, sp, 0, p, 0, false)->0).0;
    let own = children(sp, x + 1, x + sp[x].size);
    what_is_put_is_read_back(v, p, 0, hi, Data::Dict(with_entry(m, key, new, own)));
    set_entries_are_found(m, key, new, own);
}

/// What [`crate::document::Document::set_value`] writes is read back: the
/// document loads, and the new value is the one at the path. Nothing else in the
/// value has changed, unless the bytes belong to an anchor that aliases refer to.
pub proof fn what_set_value_writes_is_read_back(d: Doc, path: Seq<u8>, v: Data)
    requires
        !(v is Tagged),
        d.value() is Ok,
        after_set_value(d, path, v) is Ok,
    ensures
        ({
            let n = after_set_value(d, path, v)->Ok_0;
            let p = path_steps(path);
            let hi = p.len() as int;
            let (a, b) = span_of(d, p)->0;
            &&& n.value() is Ok
            &&& at(n.value()->Ok_0.0, p, 0, hi) == Ok::<Data, crate::oracle::Miss>(v)
            &&& span_of(d, p) is Some
            &&& covering_aliases(d.source, d.green, 0, a) == 0 ==> n.value()->Ok_0.0 == put(
                d.value()->Ok_0.0,
                p,
                0,
                hi,
                v,
            )
        }),
{
    let p = path_steps(path);
    let (old, sp) = d.value()->Ok_0;
    spots_belong_to_selected_values(old, sp, 0, p, 0, false);
    what_is_put_is_read_back(old, p, 0, p.len() as int, v);
}

/// Setting a fragment writes it, byte for byte, over the value it replaces,
/// and leaves every other byte alone.
pub proof fn a_set_fragment_takes_the_place_of_a_value(d: Doc, path: Seq<u8>, fragment: Seq<u8>)
    requires
        after_set(d, path, fragment) is Ok,
    ensures
        ({
            let site = write_range(d, path_steps(path), Operation::SetFragment);
            &&& site is Ok
            &&& after_set(d, path, fragment)->Ok_0.source == splice(
                d.source,
                site->Ok_0.0,
                site->Ok_0.1,
                fragment,
            )
        }),
{
}

/// A removal deletes the bytes of its site, or writes an empty collection
/// there, and leaves every other byte alone.
pub proof fn a_removal_touches_only_its_site(d: Doc, path: Seq<u8>)
    requires
        after_removal(d, path) is Ok,
    ensures
        ({
            let (v, sp) = d.value()->Ok_0;
            let site = removal_site(d.source, d.green, v, sp, 0, path_steps(path), 0);
            let (a, b, text) = site->Ok_0;
            &&& d.value() is Ok
            &&& site is Ok
            &&& after_removal(d, path)->Ok_0.source == splice(d.source, a, b, text)
        }),
{
}

/// A renaming to another name rewrites the bytes that
/// [`crate::document::Document::key_span`] gives and leaves every other byte
/// alone.
pub proof fn a_renaming_touches_only_the_key(d: Doc, path: Seq<u8>, new_key: Seq<u8>)
    requires
        after_rename_key(d, path, new_key) is Ok,
        path_steps(path).last() != Seg::Key(new_key),
    ensures
        ({
            let p = path_steps(path);
            let (a, b) = key_span_of(d, p)->0;
            &&& key_span_of(d, p) is Some
            &&& kind_at(d.green, a) is Some
            &&& after_rename_key(d, path, new_key)->Ok_0.source == splice(
                d.source,
                a,
                b,
                key_for_site(new_key, kind_at(d.green, a)->0),
            )
        }),
{
    let (v, sp) = d.value()->Ok_0;
    key_sites_stay(v, sp, 0, path_steps(path), 0, new_key);
}

/// Renaming a key to the name it has changes nothing, however it is written and
/// whatever mapping it is in.
pub proof fn renaming_to_the_same_name_changes_nothing(d: Doc, path: Seq<u8>, name: Seq<u8>)
    requires
        d.value() is Ok,
        brackets_hold_indices(path, 0),
        name != "<<".spec_bytes(),
        non_printable(name, 0) is None,
        path_steps(path).len() > 0,
        path_steps(path).last() == Seg::Key(name),
        ({
            let (v, sp) = d.value()->Ok_0;
            let site = key_site(v, sp, 0, path_steps(path), 0, None);
            &&& site is Ok
            &&& site->Ok_0.0 < site->Ok_0.1
        }),
    ensures
        after_rename_key(d, path, name) == Ok::<Doc, Error>(d),
{
    let (v, sp) = d.value()->Ok_0;
    own_names_are_free(v, sp, 0, path_steps(path), 0, name);
}

/// The name that a key has is none that another key takes.
proof fn own_names_are_free(d: Data, sp: Seq<SpanNode>, i: int, p: Seq<Seg>, k: int, name: Seq<u8>)
    requires
        0 <= k < p.len(),
        p.last() == Seg::Key(name),
    ensures
        key_site(d, sp, i, p, k, Some(name)) == key_site(d, sp, i, p, k, None),
    decreases p.len() - k,
{
    if k + 1 < p.len() {
        if let Ok((e, c)) = child_site(d, sp, i, p[k]) {
            own_names_are_free(e, sp, c, p, k + 1, name);
        }
    }
}

/// The kind of token that the spelling of a key is.
pub open spec fn spelling_kind(key: Seq<u8>, kind: SyntaxKind) -> SyntaxKind {
    if kind == SyntaxKind::SingleQuotedScalar && !has_control(key) {
        SyntaxKind::SingleQuotedScalar
    } else if kind == SyntaxKind::DoubleQuotedScalar || !plain_safe(key) {
        SyntaxKind::DoubleQuotedScalar
    } else {
        SyntaxKind::PlainScalar
    }
}

/// The spelling of a key, whatever key it replaces, denotes that key; and a
/// plain one is read as a string.
pub proof fn spelled_keys_denote_themselves(key: Seq<u8>, kind: SyntaxKind)
    ensures
        key_meaning(key_for_site(key, kind), spelling_kind(key, kind)) == Some(key),
        spelling_kind(key, kind) == SyntaxKind::PlainScalar ==> resolved(key) == Plain::Text,
{
    single_quoting_round_trips(key);
    double_quoting_round_trips(key);
    if spelling_kind(key, kind) == SyntaxKind::PlainScalar {
        plain_safe_strings_stay_strings(key);
    }
}

/// Appending an item verbatim writes one line below the last item, at its
/// column, and takes no byte away.
pub proof fn an_appended_item_takes_nothing_away(d: Doc, path: Seq<u8>, fragment: Seq<u8>)
    requires
        after_push_back(d, path, fragment) is Ok,
    ensures
        d.value() is Ok,
        length_at(d.value()->Ok_0.0, path_steps(path)) is Ok,
        ({
            let last = length_at(d.value()->Ok_0.0, path_steps(path))->Ok_0 - 1;
            let item = item_site(d, path_steps(path), last);
            let (a, b) = item->0;
            let pos = after_line(d.source, b);
            &&& item is Some
            &&& dash_column(d.source, d.green, a) is Some
            &&& after_push_back(d, path, fragment)->Ok_0.source == splice(
                d.source,
                pos,
                pos,
                item_line(d.source, pos, dash_column(d.source, d.green, a)->0, fragment),
            )
        }),
{
}

/// The range of a value and the typed value agree: while a document loads, a path
/// that has a range leads to a value, and the range is that of the value's span.
pub proof fn ranges_belong_to_selected_values(d: Doc, path: Seq<u8>)
    requires
        d.value() is Ok,
        span_of(d, path_steps(path)) is Some,
    ensures
        ({
            let p = path_steps(path);
            let (v, sp) = d.value()->Ok_0;
            let (a, b) = span_of(d, p)->0;
            let spot = typed_spot(v, sp, 0, p, 0, false);
            let x = sp[(spot->0).0];
            &&& at(v, p, 0, p.len() as int) is Ok
            &&& spot is Some
            &&& 0 <= (spot->0).0 < sp.len()
            &&& exists|e: int|
                b == #[trigger] value_end(d.source, a, e) && (denotes(d.green, a, e, x) || (a
                    == x.start && e == x.end))
        }),
{
    let p = path_steps(path);
    let (v, sp) = d.value()->Ok_0;
    spots_belong_to_selected_values(v, sp, 0, p, 0, false);
    let (i, through) = typed_spot(v, sp, 0, p, 0, false)->0;
    let g = if through {
        None
    } else {
        green_range(d.source, d.green, p)
    };
    let (a, e) = own_range(d, g, sp[i])->0;
    assert(span_of(d, p) == Some((a, value_end(d.source, a, e))));
}

} // verus!
