//! What holds of the values that inclusions put in place.
use crate::composition::{
    answered, complete, complete_values_stay, composed, composed_entries, composed_items, inserted,
    Spot, Step,
};
use crate::config::ParserConfig;
use crate::error::Error;
use crate::inclusion::{fragment_split, path_and_fragment_join, IncludeRequest, InputSource};
use crate::load::source_value;
use crate::text::HASH;
use crate::value::{bytes, find_is_exact, Data};
use vstd::prelude::*;
use vstd::string::*;

verus! {

/// Whether `x` is what a mapping holds under a key: in the first entry of that
/// name.
pub open spec fn held_under(w: Data, key: Seq<u8>, x: Data) -> bool {
    w matches Data::Dict(m) && exists|i: int|
        0 <= i < m.len() && (#[trigger] m[i]) == (key, x) && forall|j: int|
            0 <= j < i ==> (#[trigger] m[j]).0 != key
}

/// Whether a value is the part of `w` that the text of an inclusion names: all of
/// it when the text holds no `#`, and otherwise what `w` has under the key behind
/// the first one.
pub open spec fn named_part(text: Seq<u8>, w: Data, part: Data) -> bool {
    &&& !text.contains(HASH) ==> part == w
    &&& forall|path: Seq<u8>, key: Seq<u8>|
        #![trigger path.push(HASH) + key]
        text == path.push(HASH) + key && !path.contains(HASH) ==> held_under(w, key, part)
}

/// There is one way to split a text at its first `#`.
proof fn splits_are_unique(text: Seq<u8>, path: Seq<u8>, key: Seq<u8>)
    requires
        text == path.push(HASH) + key,
        !path.contains(HASH),
    ensures
        fragment_split(text) == (path, Some(key)),
{
    path_and_fragment_join(text);
    let n = path.len() as int;
    assert(text[n] == HASH);
    let (p, f) = fragment_split(text);
    let k = f->0;
    assert(text == p.push(HASH) + k);
    assert(text[p.len() as int] == HASH);
    if p.len() < n {
        assert(text[p.len() as int] == path[p.len() as int]);
        assert(path.contains(HASH));
    }
    if n < p.len() {
        assert(text[n] == p[n]);
        assert(p.contains(HASH));
    }
    assert(p =~= text.subrange(0, n));
    assert(path =~= text.subrange(0, n));
    assert(k =~= text.subrange(n + 1, text.len() as int));
    assert(key =~= text.subrange(n + 1, text.len() as int));
}

/// Whether `x` can come of a source that answers a request for `text` from `at`:
/// the source is none of those around the request, it parses, and `x` is the part
/// of its value that `text` names, with what that asks for in its place. Requests
/// from that part come from one level further down, from a source whose number
/// was not in use.
pub open spec fn comes_of<F: Fn(IncludeRequest<'_>) -> Result<InputSource, Error>>(
    f: F,
    config: ParserConfig,
    text: Seq<u8>,
    at: Spot,
    last: nat,
    source: InputSource,
    part: Data,
    spot: Spot,
    x: Data,
    now: nat,
) -> bool {
    &&& answered(f, text, at, Ok(source))
    &&& !at.trail.contains(bytes(source.name))
    &&& source_value(bytes(source.bytes), config) is Ok
    &&& named_part(text, source_value(bytes(source.bytes), config)->Ok_0.0, part)
    &&& spot.depth == at.depth + 1
    &&& spot.depth <= config.max_include_depth
    &&& spot.trail == at.trail.push(bytes(source.name))
    &&& last < usize::MAX ==> spot.id > last
    &&& composed(f, config, part, spot, spot.id, Ok(x), now)
    &&& complete(part) ==> x == part
}

/// An inclusion that succeeds puts in place what the source that was found holds
/// under the name behind the `#`, and the whole of its value where there is no
/// `#`. Where that asks for no other source, it is put in place as it is.
pub proof fn inclusions_put_in_place_what_they_name<
    F: Fn(IncludeRequest<'_>) -> Result<InputSource, Error>,
>(f: F, config: ParserConfig, text: Seq<u8>, at: Spot, last: nat, x: Data, now: nat)
    requires
        composed(
            f,
            config,
            Data::Tagged("!include".spec_bytes(), Box::new(Data::Text(text))),
            at,
            last,
            Ok(x),
            now,
        ),
    ensures
        exists|source: InputSource, part: Data, spot: Spot| #[trigger]
            comes_of(f, config, text, at, last, source, part, spot, x, now),
{
    let inner = Data::Text(text);
    let r = Ok::<Data, Error>(x);
    let answer = choose|answer: Result<InputSource, Error>| #[trigger]
        answered(f, text, at, answer) && inserted(f, config, inner, answer, at, last, r, now);
    let source = answer->Ok_0;
    let name = bytes(source.name);
    let w = source_value(bytes(source.bytes), config)->Ok_0.0;
    let fragment = fragment_split(text).1;
    let part = crate::composition::narrowed(w, fragment)->0;
    let id = crate::composition::fresh(last);
    let spot = Spot { id, depth: at.depth + 1, trail: at.trail.push(name) };
    path_and_fragment_join(text);
    assert forall|path: Seq<u8>, key: Seq<u8>|
        #![trigger path.push(HASH) + key]
        text == path.push(HASH) + key && !path.contains(HASH) implies held_under(w, key, part) by {
        splits_are_unique(text, path, key);
        let m = w->Dict_0;
        find_is_exact(m, key, 0);
        let i = crate::value::find(m, key)->0;
        assert(m[i] == (key, part));
    }
    if complete(part) {
        complete_values_stay(f, config, part, spot, spot.id, r, now);
    }
    assert(comes_of(f, config, text, at, last, source, part, spot, x, now));
}

/// An inclusion that is nested as deep as sources may be is refused, and no
/// source is asked for.
pub proof fn deep_inclusions_are_refused<F: Fn(IncludeRequest<'_>) -> Result<InputSource, Error>>(
    f: F,
    config: ParserConfig,
    inner: Data,
    at: Spot,
    last: nat,
    r: Result<Data, Error>,
    now: nat,
)
    requires
        composed(
            f,
            config,
            Data::Tagged("!include".spec_bytes(), Box::new(inner)),
            at,
            last,
            r,
            now,
        ),
        at.depth >= config.max_include_depth || !(inner is Text),
    ensures
        r is Err,
        now == last,
{
}

/// Whether `x` can come of a value that stands at `at`.
pub open spec fn can_become<F: Fn(IncludeRequest<'_>) -> Result<InputSource, Error>>(
    f: F,
    config: ParserConfig,
    d: Data,
    at: Spot,
    x: Data,
) -> bool {
    exists|step: Step, from: nat|
        step.outcome == Ok::<Data, Error>(x) && #[trigger] composed(
            f,
            config,
            d,
            at,
            from,
            step.outcome,
            step.last,
        )
}

/// Whether every item comes of the one in its place.
pub open spec fn item_by_item<F: Fn(IncludeRequest<'_>) -> Result<InputSource, Error>>(
    f: F,
    config: ParserConfig,
    items: Seq<Data>,
    at: Spot,
    v: Seq<Data>,
    n: int,
) -> bool {
    forall|i: int| 0 <= i < n ==> can_become(f, config, items[i], at, #[trigger] v[i])
}

/// Inclusions change no collection: a list keeps its length, and each item is
/// what comes of the one in its place, in the same source.
pub proof fn lists_are_composed_item_by_item<
    F: Fn(IncludeRequest<'_>) -> Result<InputSource, Error>,
>(f: F, config: ParserConfig, items: Seq<Data>, at: Spot, last: nat, x: Data, now: nat)
    requires
        composed(f, config, Data::List(items), at, last, Ok(x), now),
    ensures
        x is List,
        x->List_0.len() == items.len(),
        item_by_item(f, config, items, at, x->List_0, items.len() as int),
{
    let v = x->List_0;
    items_in_turn(f, config, items, 0, at, last, Seq::empty(), v, now);
}

proof fn items_in_turn<F: Fn(IncludeRequest<'_>) -> Result<InputSource, Error>>(
    f: F,
    config: ParserConfig,
    items: Seq<Data>,
    k: int,
    at: Spot,
    last: nat,
    done: Seq<Data>,
    v: Seq<Data>,
    now: nat,
)
    requires
        0 <= k <= items.len(),
        done.len() == k,
        item_by_item(f, config, items, at, done, k),
        composed_items(f, config, items, k, at, last, done, Ok(v), now),
    ensures
        v.len() == items.len(),
        item_by_item(f, config, items, at, v, items.len() as int),
    decreases items.len() - k,
{
    let r = Ok::<Seq<Data>, Error>(v);
    if k < items.len() {
        let step = choose|step: Step|
            composed(f, config, items[k], at, last, step.outcome, #[trigger] step.last)
                && match step.outcome {
                Err(e) => r == Err::<Seq<Data>, Error>(e) && now == step.last,
                Ok(x) => composed_items(f, config, items, k + 1, at, step.last, done.push(x), r, now),
            };
        let x = step.outcome->Ok_0;
        let more = done.push(x);
        assert forall|i: int| 0 <= i < k + 1 implies can_become(
            f,
            config,
            items[i],
            at,
            #[trigger] more[i],
        ) by {
            if i < k {
                assert(more[i] == done[i]);
            } else {
                assert(composed(f, config, items[i], at, last, step.outcome, step.last));
            }
        }
        items_in_turn(f, config, items, k + 1, at, step.last, more, v, now);
    }
}

/// Whether every entry keeps its key and comes of the one in its place.
pub open spec fn entry_by_entry<F: Fn(IncludeRequest<'_>) -> Result<InputSource, Error>>(
    f: F,
    config: ParserConfig,
    entries: Seq<(Seq<u8>, Data)>,
    at: Spot,
    m: Seq<(Seq<u8>, Data)>,
    n: int,
) -> bool {
    forall|i: int|
        0 <= i < n ==> (#[trigger] m[i]).0 == entries[i].0 && can_become(
            f,
            config,
            entries[i].1,
            at,
            m[i].1,
        )
}

/// Inclusions change no key: a mapping keeps its keys in their order, and each
/// value is what comes of the one in its place, in the same source.
pub proof fn mappings_are_composed_entry_by_entry<
    F: Fn(IncludeRequest<'_>) -> Result<InputSource, Error>,
>(
    f: F,
    config: ParserConfig,
    entries: Seq<(Seq<u8>, Data)>,
    at: Spot,
    last: nat,
    x: Data,
    now: nat,
)
    requires
        composed(f, config, Data::Dict(entries), at, last, Ok(x), now),
    ensures
        x is Dict,
        x->Dict_0.len() == entries.len(),
        entry_by_entry(f, config, entries, at, x->Dict_0, entries.len() as int),
{
    let m = x->Dict_0;
    entries_in_turn(f, config, entries, 0, at, last, Seq::empty(), m, now);
}

proof fn entries_in_turn<F: Fn(IncludeRequest<'_>) -> Result<InputSource, Error>>(
    f: F,
    config: ParserConfig,
    entries: Seq<(Seq<u8>, Data)>,
    k: int,
    at: Spot,
    last: nat,
    done: Seq<(Seq<u8>, Data)>,
    m: Seq<(Seq<u8>, Data)>,
    now: nat,
)
    requires
        0 <= k <= entries.len(),
        done.len() == k,
        entry_by_entry(f, config, entries, at, done, k),
        composed_entries(f, config, entries, k, at, last, done, Ok(m), now),
    ensures
        m.len() == entries.len(),
        entry_by_entry(f, config, entries, at, m, entries.len() as int),
    decreases entries.len() - k,
{
    let r = Ok::<Seq<(Seq<u8>, Data)>, Error>(m);
    if k < entries.len() {
        let step = choose|step: Step|
            composed(f, config, entries[k].1, at, last, step.outcome, #[trigger] step.last)
                && match step.outcome {
                Err(e) => r == Err::<Seq<(Seq<u8>, Data)>, Error>(e) && now == step.last,
                Ok(x) => composed_entries(
                    f,
                    config,
                    entries,
                    k + 1,
                    at,
                    step.last,
                    done.push((entries[k].0, x)),
                    r,
                    now,
                ),
            };
        let x = step.outcome->Ok_0;
        let more = done.push((entries[k].0, x));
        assert forall|i: int| 0 <= i < k + 1 implies (#[trigger] more[i]).0 == entries[i].0
            && can_become(f, config, entries[i].1, at, more[i].1) by {
            if i < k {
                assert(more[i] == done[i]);
            } else {
                assert(composed(f, config, entries[i].1, at, last, step.outcome, step.last));
            }
        }
        entries_in_turn(f, config, entries, k + 1, at, step.last, more, m, now);
    }
}

/// Whether an outcome is what an answer to the request for `text` calls for, where
/// nothing in the source asks for another one: the part of the source that is
/// named, if the source can be read, has such a part and does not stand around
/// the request already, and an error otherwise.
pub open spec fn called_for(
    config: ParserConfig,
    text: Seq<u8>,
    at: Spot,
    answer: Result<InputSource, Error>,
    r: Result<Data, Error>,
) -> bool {
    match answer {
        Err(e) => r == Err::<Data, Error>(e),
        Ok(source) => {
            let v = source_value(bytes(source.bytes), config);
            if at.trail.contains(bytes(source.name)) {
                r is Err
            } else if v is Err {
                r == Err::<Data, Error>(Error::Syntax(v->Err_0))
            } else {
                &&& !text.contains(HASH) && complete(v->Ok_0.0) ==> r == Ok::<Data, Error>(
                    v->Ok_0.0,
                )
                &&& forall|path: Seq<u8>, key: Seq<u8>|
                    #![trigger path.push(HASH) + key]
                    text == path.push(HASH) + key && !path.contains(HASH) ==> part_or_error(
                        v->Ok_0.0,
                        key,
                        r,
                    )
            }
        },
    }
}

/// Whether an outcome is what a value holds under a key, or an error where it holds
/// nothing under it.
pub open spec fn part_or_error(w: Data, key: Seq<u8>, r: Result<Data, Error>) -> bool {
    &&& forall|x: Data| #[trigger] held_under(w, key, x) && complete(x) ==> r == Ok::<Data, Error>(x)
    &&& (forall|x: Data| !#[trigger] held_under(w, key, x)) ==> r is Err
}

/// An inclusion succeeds whenever it can: where a source is found for it that can
/// be read, has what is named and is not being read already.
pub proof fn inclusions_succeed_where_they_can<
    F: Fn(IncludeRequest<'_>) -> Result<InputSource, Error>,
>(f: F, config: ParserConfig, text: Seq<u8>, at: Spot, last: nat, r: Result<Data, Error>, now: nat)
    requires
        composed(
            f,
            config,
            Data::Tagged("!include".spec_bytes(), Box::new(Data::Text(text))),
            at,
            last,
            r,
            now,
        ),
        at.depth < config.max_include_depth,
    ensures
        exists|answer: Result<InputSource, Error>| #[trigger]
            answered(f, text, at, answer) && called_for(config, text, at, answer, r),
{
    let inner = Data::Text(text);
    let answer = choose|answer: Result<InputSource, Error>| #[trigger]
        answered(f, text, at, answer) && inserted(f, config, inner, answer, at, last, r, now);
    if let Ok(source) = answer {
        let name = bytes(source.name);
        let v = source_value(bytes(source.bytes), config);
        if !at.trail.contains(name) && v is Ok {
            let w = v->Ok_0.0;
            let fragment = fragment_split(text).1;
            let id = crate::composition::fresh(last);
            let spot = Spot { id, depth: at.depth + 1, trail: at.trail.push(name) };
            path_and_fragment_join(text);
            if let Some(part) = crate::composition::narrowed(w, fragment) {
                if complete(part) {
                    complete_values_stay(f, config, part, spot, spot.id, r, now);
                }
            }
            assert forall|path: Seq<u8>, key: Seq<u8>|
                #![trigger path.push(HASH) + key]
                text == path.push(HASH) + key && !path.contains(HASH) implies part_or_error(
                w,
                key,
                r,
            ) by {
                splits_are_unique(text, path, key);
                if let Data::Dict(m) = w {
                    find_is_exact(m, key, 0);
                    if let Some(i) = crate::value::find(m, key) {
                        assert(m[i] == (key, m[i].1));
                        assert(held_under(w, key, m[i].1));
                        assert forall|x: Data| #[trigger] held_under(w, key, x) implies x == m[i].1 by {
                            let j = choose|j: int|
                                0 <= j < m.len() && (#[trigger] m[j]) == (key, x) && forall|y: int|
                                    0 <= y < j ==> (#[trigger] m[y]).0 != key;
                            assert(j == i);
                        }
                    }
                }
            }
        }
    }
    assert(called_for(config, text, at, answer, r));
}

/// A tag that asks for nothing stays on what comes of the value under it.
pub proof fn other_tags_stay<F: Fn(IncludeRequest<'_>) -> Result<InputSource, Error>>(
    f: F,
    config: ParserConfig,
    tag: Seq<u8>,
    inner: Data,
    at: Spot,
    last: nat,
    x: Data,
    now: nat,
)
    requires
        tag != "!include".spec_bytes(),
        composed(f, config, Data::Tagged(tag, Box::new(inner)), at, last, Ok(x), now),
    ensures
        x matches Data::Tagged(name, y) && name == tag && can_become(f, config, inner, at, *y),
{
    let y = *(x->Tagged_1);
    let step = Step { outcome: Ok(y), last: now };
    assert(composed(f, config, inner, at, last, step.outcome, step.last));
}

} // verus!
