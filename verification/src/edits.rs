//! What edits do to the bytes of a document.
use crate::decode::escaped_appends;
use crate::document::{replaced_span, span_of, splice, Doc};
use crate::emit::{key_text, spelled};
use crate::green::{covering_trees_are_sound, tree};
use crate::growth::{
    an_appended_item_stands_below_the_last, an_inserted_item_stands_below_the_one_addressed,
    below_value, columns_are_counted, grown_at, in_column, indenting_appends, innermost, is_child,
    item_below, lines_are_indented, lowest_among, owners_are_innermost, spots_are_children,
    values_end_below, white,
};
use crate::lines::{after_line, keep_chomped, past_properties, reindented, value_end};
use crate::load::{source_value, SpanNode};
use crate::model::{
    after_insert_after_value, after_insert_entry_value, after_push_back_value, after_set,
    after_set_value, emit_style, lead, lowest, placed, value_entry_text,
};
use crate::oracle::at;
use crate::path::{parent_path, path_steps, Seg};
use crate::resolve::{nth_span, typed_spot};
use crate::site::{key_column, owner};
use crate::syntax::SyntaxKind;
use crate::text::{
    back_is_maximal, blank, in_class, line_break, run, run_is_maximal, spaces, Class, AMP, BANG,
    COLON, DQUOTE, GREATER, NL, PIPE, PLUS, SPACE,
};
use crate::value::{find, Data};
use vstd::prelude::*;
use vstd::utf8::*;

verus! {

/// Appending a value adds one item below the last, with its `-` in the column of
/// that item's own, and takes no byte away.
pub proof fn an_appended_value_takes_nothing_away(d: Doc, path: Seq<u8>, new: Data)
    requires
        d.wf(),
        after_push_back_value(d, path, new) is Ok,
    ensures
        ({
            let p = path_steps(path);
            let (v, sp) = d.value()->Ok_0;
            let n = after_push_back_value(d, path, new)->Ok_0;
            &&& d.value() is Ok
            &&& at(v, p, 0, p.len() as int) matches Ok(Data::List(l)) && l.len() > 0 && (typed_spot(
                v,
                sp,
                0,
                p.push(Seg::Index(l.len() - 1)),
                0,
                false,
            ) matches Some((c, through)) ==> !through ==> exists|fragment: Seq<u8>|
                #[trigger] item_below(d, n, sp[c], fragment))
        }),
{
    let p = path_steps(path);
    let (v, sp) = d.value()->Ok_0;
    let l = at(v, p, 0, p.len() as int)->Ok_0->List_0;
    let (c, _) = crate::model::item_anchor(
        d,
        p,
        l.len() - 1,
        crate::error::Operation::PushBackValue,
    )->Ok_0;
    let fragment = crate::model::item_spelling(d, new, c)->0;
    an_appended_item_stands_below_the_last(d, path, fragment);
}

/// Inserting a value adds one item below the one addressed, with its `-` in the
/// column of that item's own, and takes no byte away.
pub proof fn an_inserted_value_takes_nothing_away(d: Doc, path: Seq<u8>, new: Data)
    requires
        d.wf(),
        after_insert_after_value(d, path, new) is Ok,
    ensures
        ({
            let p = path_steps(path);
            let (v, sp) = d.value()->Ok_0;
            let n = after_insert_after_value(d, path, new)->Ok_0;
            &&& d.value() is Ok
            &&& p.len() > 0
            &&& p.last() is Index
            &&& typed_spot(v, sp, 0, p, 0, false) matches Some((c, through)) ==> !through
                ==> exists|fragment: Seq<u8>| #[trigger] item_below(d, n, sp[c], fragment)
        }),
{
    let p = path_steps(path);
    let (v, sp) = d.value()->Ok_0;
    let (c, _) = crate::model::item_anchor(
        d,
        path_steps(parent_path(path)),
        p.last()->Index_0,
        crate::error::Operation::InsertAfterValue,
    )->Ok_0;
    let fragment = crate::model::item_spelling(d, new, c)->0;
    an_inserted_item_stands_below_the_one_addressed(d, path, fragment);
}

/// Replacing a scalar by a value rewrites the bytes that the scalar's path has,
/// and no others.
pub proof fn a_set_value_touches_only_its_range(d: Doc, path: Seq<u8>, new: Data)
    requires
        after_set_value(d, path, new) is Ok,
    ensures
        ({
            let range = span_of(d, path_steps(path));
            let n = after_set_value(d, path, new)->Ok_0;
            &&& range is Some
            &&& exists|text: Seq<u8>|
                n.source == #[trigger] splice(d.source, (range->0).0, (range->0).1, text)
        }),
{
    let (a, b) = span_of(d, path_steps(path))->0;
    let n = after_set_value(d, path, new)->Ok_0;
    let kind = crate::site::kind_at(d.green, a)->0;
    let text = crate::emit::value_for_site(
        new,
        crate::model::site_context(d, a, b, kind),
    )->Ok_0;
    assert(n.source == splice(d.source, a, b, text));
}

/// What is set takes the place of exactly what the path shows.
pub proof fn a_set_fragment_replaces_what_is_shown(d: Doc, path: Seq<u8>, fragment: Seq<u8>)
    requires
        after_set(d, path, fragment) is Ok,
    ensures
        ({
            let range = span_of(d, path_steps(path));
            let (a, b) = range->0;
            &&& range is Some
            &&& after_set(d, path, fragment)->Ok_0.source == d.source.subrange(0, a) + fragment
                + d.source.subrange(b, d.source.len() as int)
        }),
{
}

/// Whether a text is an entry in column `c`: the indentation, what starts with a
/// key, and a line break at the end.
pub open spec fn entry_in(text: Seq<u8>, c: int) -> bool {
    &&& 0 <= c < text.len()
    &&& forall|k: int| 0 <= k < c ==> #[trigger] text[k] == SPACE
    &&& text[c] != SPACE
    &&& text.last() == NL
}

/// Whether a document is another one with one more entry, in the column of the
/// entry of the mapping with span `i` whose value starts last and below it, and
/// with nothing else changed.
pub open spec fn some_entry_below(d: Doc, n: Doc, sp: Seq<SpanNode>, i: int) -> bool {
    exists|x: int, pos: int, k: int, c: int, text: Seq<u8>|
        is_child(sp, i, x) && (forall|y: int| #[trigger]
            is_child(sp, i, y) ==> sp[y].start <= sp[x].start) && #[trigger] below_value(
            d.source,
            sp[x].start as int,
            sp[x].end as int,
            pos,
        ) && #[trigger] innermost(d.green, SyntaxKind::MappingEntry, sp[x].start - 1, k)
            && #[trigger] in_column(d.source, d.green[k].start as int, c) && #[trigger] entry_in(
            text,
            c,
        ) && grown_at(d.source, n.source, pos, text)
}

proof fn value_entries_stand_in_their_column(
    key: Seq<u8>,
    t: Seq<u8>,
    collection: bool,
    c: int,
    unit: int,
)
    requires
        0 <= c,
        0 <= unit,
    ensures
        entry_in(value_entry_text(key, t, collection, c, unit), c),
{
    let k = key_text(key);
    let text = value_entry_text(key, t, collection, c, unit);
    escaped_appends(key, 0, seq![DQUOTE]);
    assert(k.len() > 0 && k[0] != SPACE);
    if collection {
        let front = spaces(c) + k + seq![COLON, NL];
        indenting_appends(t, 0, c + unit, front);
        lines_are_indented(t, 0, c + unit);
    }
    assert(text[c] == k[0]);
}

/// A value under a key that a mapping does not have is added below the mapping's
/// other entries, in their column, and no byte is taken away. Under one that it
/// has itself, the value takes the place of what the path shows, and every other
/// byte stays.
pub proof fn a_value_under_a_key_takes_nothing_else_away(
    d: Doc,
    path: Seq<u8>,
    key: Seq<u8>,
    new: Data,
)
    requires
        d.wf(),
        after_insert_entry_value(d, path, key, new) is Ok,
    ensures
        ({
            let p = path_steps(path);
            let q = p.push(Seg::Key(key));
            let (v, sp) = d.value()->Ok_0;
            let n = after_insert_entry_value(d, path, key, new)->Ok_0;
            let spot = typed_spot(v, sp, 0, p, 0, false);
            let (i, _) = spot->0;
            &&& d.value() is Ok
            &&& spot is Some
            &&& at(v, p, 0, p.len() as int) matches Ok(Data::Dict(m)) && (find(m, key) is None
                && owner(
                d.green,
                SyntaxKind::MappingEntry,
                sp[lowest(sp, i + 1, i + sp[i].size, None)->0].start as int,
            ) is Some ==> some_entry_below(d, n, sp, i))
            &&& typed_spot(v, sp, 0, q, 0, false) matches Some((_, through)) ==> !through
                ==> exists|a: int, b: int, text: Seq<u8>|
                n.source == #[trigger] splice(d.source, a, b, text) && (span_of(d, q) == Some(
                    (a, b),
                ) || (span_of(d, q) is None && a == b))
        }),
{
    let p = path_steps(path);
    let q = p.push(Seg::Key(key));
    let (v, sp) = d.value()->Ok_0;
    let (i, through) = typed_spot(v, sp, 0, p, 0, false)->0;
    let m = at(v, p, 0, p.len() as int)->Ok_0->Dict_0;
    let s = d.source;
    let x = lowest(sp, i + 1, i + sp[i].size, None)->0;
    let n = after_insert_entry_value(d, path, key, new)->Ok_0;
    let t = spelled(new, emit_style(d))->0;
    if find(m, key) is None && owner(d.green, SyntaxKind::MappingEntry, sp[x].start as int) is Some {
        lowest_among(sp, i + 1, i + sp[i].size, None);
        assert(is_child(sp, i, x));
        assert forall|y: int| #[trigger] is_child(sp, i, y) implies sp[y].start <= sp[x].start by {
            let k = choose|k: int|
                0 <= k && #[trigger] nth_span(sp, i + 1, i + sp[i].size, k) == Some(y);
        }
        let (a, b) = placed(d, sp[x])->0;
        values_end_below(s, sp[x].start as int, sp[x].end as int);
        let pos = after_line(s, b);
        owners_are_innermost(d.green, SyntaxKind::MappingEntry, a);
        let e = owner(d.green, SyntaxKind::MappingEntry, a)->0;
        let k = choose|k: int| #[trigger]
            innermost(d.green, SyntaxKind::MappingEntry, a - 1, k) && d.green[k].start == e;
        covering_trees_are_sound(d.green, s.len() as int);
        columns_are_counted(s, e);
        let c = key_column(s, d.green, a);
        let unit = emit_style(d).unit as int;
        let collection = new is List || new is Dict;
        value_entries_stand_in_their_column(key, t, collection, c, unit);
        let text = value_entry_text(key, t, collection, c, unit);
        assert(n.source =~= s.subrange(0, pos) + lead(s, pos) + text + s.subrange(
            pos,
            s.len() as int,
        ));
        assert(grown_at(s, n.source, pos, text));
        assert(below_value(s, sp[x].start as int, sp[x].end as int, pos));
        assert(in_column(s, d.green[k].start as int, c));
        assert(entry_in(text, c));
    }
    if let Some((c, beyond)) = typed_spot(v, sp, 0, q, 0, false) {
        if !beyond {
            spots_are_children(v, sp, 0, p, Seg::Key(key), 0, false);
            let column = key_column(s, d.green, (placed(d, sp[c])->0).0);
            let text = reindented(t, 0, column, Seq::empty());
            match span_of(d, q) {
                Some((a, b)) => {
                    assert(n.source == splice(s, a, b, text));
                },
                None => {
                    let a = sp[c].start as int;
                    assert(n.source == splice(s, a, a, seq![SPACE] + text));
                },
            }
        }
    }
}

/// Where the range of a value ends: with its last byte that is no white space. Only
/// a block scalar with a `+` in its header ends with the line breaks it keeps.
pub proof fn ranges_end_with_content(s: Seq<u8>, start: int, end: int)
    requires
        0 <= start <= end <= s.len(),
    ensures
        ({
            let e = value_end(s, start, end);
            &&& start <= e <= end
            &&& forall|k: int| e <= k < end ==> white(#[trigger] s[k])
            &&& e == start || !white(s[e - 1]) || (e == end && (exists|h: int|
                start <= h < end && (#[trigger] s[h] == PIPE || s[h] == GREATER)) && exists|k: int|
                start < k < end && #[trigger] s[k] == PLUS)
            &&& start < end && (s[start] == PIPE || s[start] == GREATER) && (exists|k: int|
                start < k < end && #[trigger] s[k] == PLUS && forall|j: int|
                    start < j < k ==> !line_break(#[trigger] s[j])) ==> e == end
        }),
{
    back_is_maximal(s, start, end, Class::White);
    let p = past_properties(s, start, end);
    properties_are_passed(s, start, end);
    let k = run(s, p + 1, end, Class::Unkept);
    if p < end {
        run_is_maximal(s, p + 1, end, Class::Unkept);
    }
    if keep_chomped(s, start, end) {
        assert(s[p] == PIPE || s[p] == GREATER);
        assert(s[k] == PLUS);
    }
    if start < end && (s[start] == PIPE || s[start] == GREATER) && (exists|k: int|
        start < k < end && #[trigger] s[k] == PLUS && forall|j: int|
            start < j < k ==> !line_break(#[trigger] s[j])) {
        let x = choose|k: int|
            start < k < end && #[trigger] s[k] == PLUS && forall|j: int|
                start < j < k ==> !line_break(#[trigger] s[j]);
        assert(!blank(s[start]));
        assert(run(s, start, end, Class::Blank) == start);
        assert(p == start);
        if k > x {
            assert(in_class(s[x], Class::Unkept));
        }
        if k < x {
            assert(!line_break(s[k]));
        }
    }
}

proof fn properties_are_passed(s: Seq<u8>, start: int, end: int)
    requires
        0 <= start <= end <= s.len(),
    ensures
        start <= past_properties(s, start, end) <= end,
    decreases end - start,
{
    run_is_maximal(s, start, end, Class::Blank);
    let p = run(s, start, end, Class::Blank);
    if p < end && (s[p] == AMP || s[p] == BANG) {
        run_is_maximal(s, p + 1, end, Class::Word);
        let q = run(s, p + 1, end, Class::Word);
        properties_are_passed(s, q, end);
    }
}

/// A splice succeeds whenever its range lies in the source, cuts no character in
/// two, and the new text loads. The new text is then the source.
pub proof fn splices_that_load_succeed(d: Doc, a: int, b: int, text: Seq<u8>)
    requires
        0 <= a <= b <= d.source.len(),
        is_char_boundary(d.source, a),
        is_char_boundary(d.source, b),
        valid_utf8(splice(d.source, a, b, text)),
        source_value(splice(d.source, a, b, text), d.config) is Ok,
    ensures
        replaced_span(d, a, b, text) matches Ok(n) && n.source == splice(d.source, a, b, text)
            && n.value() == source_value(n.source, d.config),
{
    reveal(tree);
}

/// A splice that runs out of the source or cuts a character in two is refused.
pub proof fn splices_keep_characters_whole(d: Doc, a: int, b: int, text: Seq<u8>)
    requires
        replaced_span(d, a, b, text) is Ok,
    ensures
        a <= b <= d.source.len(),
        is_char_boundary(d.source, a),
        is_char_boundary(d.source, b),
        valid_utf8(replaced_span(d, a, b, text)->Ok_0.source),
{
}

} // verus!
