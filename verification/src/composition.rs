//! Putting the values of other sources in the places that ask for them.
use crate::config::ParserConfig;
use crate::error::Error;
use crate::inclusion::{fragment_split, split_fragment, IncludeRequest, IncludeResolver, InputSource};
use crate::load::{from_str_with_config, source_value};
use crate::text::{append_all, is_word, string_of};
use crate::value::{
    bytes, dict, dicts_are_pointwise, duplicate, find, list, lists_are_pointwise, push_entry,
    push_item, same_string, strings_eq, Data, Mapping, TaggedValue, Value,
};
use vstd::prelude::*;
use vstd::string::*;
use vstd::utf8::*;

verus! {

/// Where a value stands: the number of its source, how deep that source is
/// nested, and the names of the sources around it, the outermost first.
pub struct Spot {
    pub id: nat,
    pub depth: nat,
    pub trail: Seq<Seq<u8>>,
}

/// The first source.
pub open spec fn first_spot() -> Spot {
    Spot { id: 0, depth: 0, trail: Seq::empty() }
}

/// The number after `last`. The largest one is handed out more than once.
pub open spec fn fresh(last: nat) -> nat {
    if last < usize::MAX {
        last + 1
    } else {
        last
    }
}

/// Whether `answer` can be what `f` says to a request for `text` from `at`.
pub open spec fn answered<F: Fn(IncludeRequest<'_>) -> Result<InputSource, Error>>(
    f: F,
    text: Seq<u8>,
    at: Spot,
    answer: Result<InputSource, Error>,
) -> bool {
    exists|req: IncludeRequest<'_>|
        req.spec.spec_bytes() == text && req.from_id == at.id && req.depth == at.depth
            && #[trigger] call_ensures(f, (req,), answer)
}

/// Whether `r` is a failure with the given message.
pub open spec fn failed(r: Result<Data, Error>, message: Seq<u8>) -> bool {
    r is Err && r->Err_0 is Custom && bytes(r->Err_0->Custom_0) == message
}

/// What is said of a source that asks for itself.
pub open spec fn cycle_message(name: Seq<u8>) -> Seq<u8> {
    "include cycle through ".spec_bytes() + name
}

/// What is said of a fragment that a source does not have.
pub open spec fn fragment_message(fragment: Seq<u8>, name: Seq<u8>) -> Seq<u8> {
    "no fragment ".spec_bytes() + fragment + " in ".spec_bytes() + name
}

/// What a fragment denotes: the whole value without one, and what a mapping
/// has under that key with one.
pub open spec fn narrowed(d: Data, fragment: Option<Seq<u8>>) -> Option<Data> {
    match fragment {
        None => Some(d),
        Some(key) => match d {
            Data::Dict(m) => match find(m, key) {
                Some(i) => Some(m[i].1),
                None => None,
            },
            _ => None,
        },
    }
}

/// An outcome on the way.
pub struct Step {
    /// What came of one value.
    pub outcome: Result<Data, Error>,
    /// The last number in use then.
    pub last: nat,
}

/// Whether `r` can come of putting sources into `d`, when `last` is the last
/// number in use before and `now` the last one after.
pub open spec fn composed<F: Fn(IncludeRequest<'_>) -> Result<InputSource, Error>>(
    f: F,
    config: ParserConfig,
    d: Data,
    at: Spot,
    last: nat,
    r: Result<Data, Error>,
    now: nat,
) -> bool
    decreases config.max_include_depth - at.depth, d, 0int,
{
    match d {
        Data::List(items) => match r {
            Ok(Data::List(v)) => composed_items(f, config, items, 0, at, last, Seq::empty(), Ok(v), now),
            Ok(_) => false,
            Err(e) => composed_items(f, config, items, 0, at, last, Seq::empty(), Err(e), now),
        },
        Data::Dict(entries) => match r {
            Ok(Data::Dict(v)) => composed_entries(f, config, entries, 0, at, last, Seq::empty(), Ok(v), now),
            Ok(_) => false,
            Err(e) => composed_entries(f, config, entries, 0, at, last, Seq::empty(), Err(e), now),
        },
        Data::Tagged(tag, inner) => if tag != "!include".spec_bytes() {
            match r {
                Ok(Data::Tagged(t, x)) => t == tag && composed(
                    f,
                    config,
                    *inner,
                    at,
                    last,
                    Ok(*x),
                    now,
                ),
                Ok(_) => false,
                Err(e) => composed(f, config, *inner, at, last, Err(e), now),
            }
        } else if !(*inner is Text) {
            failed(r, "an include needs a string".spec_bytes()) && now == last
        } else if at.depth >= config.max_include_depth {
            failed(r, "includes are nested too deep".spec_bytes()) && now == last
        } else {
            exists|answer: Result<InputSource, Error>| #[trigger]
                answered(f, inner->Text_0, at, answer) && inserted(
                    f,
                    config,
                    *inner,
                    answer,
                    at,
                    last,
                    r,
                    now,
                )
        },
        _ => r == Ok::<Data, Error>(d) && now == last,
    }
}

/// Whether `r` can come of an answer to a request for what `text` holds.
pub open spec fn inserted<F: Fn(IncludeRequest<'_>) -> Result<InputSource, Error>>(
    f: F,
    config: ParserConfig,
    text: Data,
    answer: Result<InputSource, Error>,
    at: Spot,
    last: nat,
    r: Result<Data, Error>,
    now: nat,
) -> bool
    decreases config.max_include_depth - at.depth, text, 0int,
{
    match answer {
        Err(e) => r == Err::<Data, Error>(e) && now == last,
        Ok(source) => {
            let name = bytes(source.name);
            let fragment = fragment_split(text->Text_0).1;
            if at.trail.contains(name) {
                failed(r, cycle_message(name)) && now == last
            } else {
                match source_value(bytes(source.bytes), config) {
                    Err(flaw) => r == Err::<Data, Error>(Error::Syntax(flaw)) && now == last,
                    Ok((d, _)) => match narrowed(d, fragment) {
                        None => failed(r, fragment_message(fragment->0, name)) && now == last,
                        Some(x) => at.depth < config.max_include_depth && composed(
                            f,
                            config,
                            x,
                            Spot { id: fresh(last), depth: at.depth + 1, trail: at.trail.push(name) },
                            fresh(last),
                            r,
                            now,
                        ),
                    },
                }
            }
        },
    }
}

/// Whether `r` can come of putting sources into the items from `k` on, with
/// `done` in front of them.
pub open spec fn composed_items<F: Fn(IncludeRequest<'_>) -> Result<InputSource, Error>>(
    f: F,
    config: ParserConfig,
    items: Seq<Data>,
    k: int,
    at: Spot,
    last: nat,
    done: Seq<Data>,
    r: Result<Seq<Data>, Error>,
    now: nat,
) -> bool
    decreases config.max_include_depth - at.depth, items, items.len() - k,
{
    if k < 0 || k >= items.len() {
        r == Ok::<Seq<Data>, Error>(done) && now == last
    } else {
        exists|step: Step|
            composed(f, config, items[k], at, last, step.outcome, #[trigger] step.last)
                && match step.outcome {
                Err(e) => r == Err::<Seq<Data>, Error>(e) && now == step.last,
                Ok(x) => composed_items(f, config, items, k + 1, at, step.last, done.push(x), r, now),
            }
    }
}

/// Whether `r` can come of putting sources into the entries from `k` on, with
/// `done` in front of them.
pub open spec fn composed_entries<F: Fn(IncludeRequest<'_>) -> Result<InputSource, Error>>(
    f: F,
    config: ParserConfig,
    entries: Seq<(Seq<u8>, Data)>,
    k: int,
    at: Spot,
    last: nat,
    done: Seq<(Seq<u8>, Data)>,
    r: Result<Seq<(Seq<u8>, Data)>, Error>,
    now: nat,
) -> bool
    decreases config.max_include_depth - at.depth, entries, entries.len() - k,
{
    if k < 0 || k >= entries.len() {
        r == Ok::<Seq<(Seq<u8>, Data)>, Error>(done) && now == last
    } else {
        exists|step: Step|
            composed(f, config, entries[k].1, at, last, step.outcome, #[trigger] step.last)
                && match step.outcome {
                Err(e) => r == Err::<Seq<(Seq<u8>, Data)>, Error>(e) && now == step.last,
                Ok(x) => composed_entries(
                    f,
                    config,
                    entries,
                    k + 1,
                    at,
                    step.last,
                    done.push((entries[k].0, x)),
                    r,
                    now,
                ),
            }
    }
}

/// The model of an outcome.
pub open spec fn outcome(r: Result<Value, Error>) -> Result<Data, Error> {
    match r {
        Ok(v) => Ok(v@),
        Err(e) => Err(e),
    }
}

/// The model of an outcome that is a list of items.
pub open spec fn items_outcome(r: Result<Vec<Value>, Error>) -> Result<Seq<Data>, Error> {
    match r {
        Ok(v) => Ok(list(v@)),
        Err(e) => Err(e),
    }
}

/// The model of an outcome that is a list of entries.
pub open spec fn entries_outcome(r: Result<Vec<(String, Value)>, Error>) -> Result<
    Seq<(Seq<u8>, Data)>,
    Error,
> {
    match r {
        Ok(v) => Ok(dict(v@)),
        Err(e) => Err(e),
    }
}

/// The bytes of a list of strings.
pub open spec fn names(trail: Seq<String>) -> Seq<Seq<u8>> {
    Seq::new(trail.len(), |i: int| bytes(trail[i]))
}

/// The error with the given message.
fn failure(message: Vec<u8>) -> (r: Error)
    requires
        valid_utf8(message@),
    ensures
        r is Custom && bytes(r->Custom_0) == message@,
{
    Error::Custom(string_of(message))
}

/// The error for a source that asks for itself.
fn cycle(name: &String) -> (r: Error)
    ensures
        r is Custom && bytes(r->Custom_0) == cycle_message(bytes(*name)),
{
    let mut out: Vec<u8> = Vec::new();
    append_all(&mut out, "include cycle through ".as_bytes());
    append_all(&mut out, name.as_str().as_bytes());
    proof {
        broadcast use encode_utf8_valid_utf8;

        valid_utf8_concat("include cycle through ".spec_bytes(), bytes(*name));
        assert(out@ =~= cycle_message(bytes(*name)));
    }
    failure(out)
}

/// The error for a fragment that a source does not have.
fn no_fragment(fragment: &str, name: &String) -> (r: Error)
    ensures
        r is Custom && bytes(r->Custom_0) == fragment_message(fragment.spec_bytes(), bytes(*name)),
{
    let mut out: Vec<u8> = Vec::new();
    append_all(&mut out, "no fragment ".as_bytes());
    append_all(&mut out, fragment.as_bytes());
    append_all(&mut out, " in ".as_bytes());
    append_all(&mut out, name.as_str().as_bytes());
    proof {
        broadcast use encode_utf8_valid_utf8;

        let a = "no fragment ".spec_bytes();
        let b = fragment.spec_bytes();
        let c = " in ".spec_bytes();
        valid_utf8_concat(a, b);
        valid_utf8_concat(a + b, c);
        valid_utf8_concat(a + b + c, bytes(*name));
        assert(out@ =~= fragment_message(b, bytes(*name)));
    }
    failure(out)
}

/// Whether a source is among those around a value.
fn is_among(trail: &Vec<String>, name: &String) -> (r: bool)
    ensures
        r == names(trail@).contains(bytes(*name)),
{
    let mut i: usize = 0;
    while i < trail.len()
        invariant
            i <= trail@.len(),
            forall|j: int| 0 <= j < i ==> #[trigger] names(trail@)[j] != bytes(*name),
        decreases trail@.len() - i,
    {
        if strings_eq(&trail[i], name) {
            assert(names(trail@)[i as int] == bytes(*name));
            return true;
        }
        i += 1;
    }
    false
}

/// The trail one source further in.
fn further(trail: &Vec<String>, name: &String) -> (r: Vec<String>)
    ensures
        names(r@) == names(trail@).push(bytes(*name)),
{
    let mut out: Vec<String> = Vec::new();
    let mut i: usize = 0;
    while i < trail.len()
        invariant
            i <= trail@.len(),
            out@.len() == i,
            forall|j: int| 0 <= j < i ==> #[trigger] names(out@)[j] == names(trail@)[j],
        decreases trail@.len() - i,
    {
        let copy: String = same_string(&trail[i]);
        let ghost before = out@;
        out.push(copy);
        assert forall|j: int| 0 <= j < i + 1 implies #[trigger] names(out@)[j] == names(
            trail@,
        )[j] by {
            if j < i {
                assert(names(before)[j] == names(trail@)[j]);
            }
        }
        i += 1;
    }
    let ghost before = out@;
    out.push(same_string(name));
    assert forall|j: int| 0 <= j < trail@.len() implies #[trigger] names(out@)[j] == names(
        trail@,
    )[j] by {
        assert(names(before)[j] == names(trail@)[j]);
    }
    assert(names(out@) =~= names(trail@).push(bytes(*name)));
    out
}

/// What a fragment of the source with the given name denotes.
fn narrow(v: Value, fragment: Option<&str>, name: &String) -> (r: Result<Value, Error>)
    ensures
        ({
            let key = match fragment {
                Some(f) => Some(f.spec_bytes()),
                None => None,
            };
            match narrowed(v@, key) {
                Some(d) => r is Ok && r->Ok_0@ == d,
                None => failed(outcome(r), fragment_message(key->0, bytes(*name))),
            }
        }),
{
    match fragment {
        None => Ok(v),
        Some(key) => match v.get(key) {
            Some(x) => Ok(duplicate(x)),
            None => Err(no_fragment(key, name)),
        },
    }
}

/// Puts sources into a value.
fn compose<F: Fn(IncludeRequest<'_>) -> Result<InputSource, Error>>(
    resolver: &IncludeResolver<F>,
    config: &ParserConfig,
    v: &Value,
    id: usize,
    depth: usize,
    trail: &Vec<String>,
    last: &mut usize,
) -> (r: Result<Value, Error>)
    requires
        forall|req: IncludeRequest<'_>| #[trigger] call_requires(resolver.function(), (req,)),
    ensures
        composed(
            resolver.function(),
            *config,
            v@,
            (Spot { id: id as nat, depth: depth as nat, trail: names(trail@) }),
            *old(last) as nat,
            outcome(r),
            *final(last) as nat,
        ),
    decreases config.max_include_depth - depth, v, 0int,
{
    let ghost f = resolver.function();
    let ghost at = Spot { id: id as nat, depth: depth as nat, trail: names(trail@) };
    match v {
        Value::Sequence(items) => {
            let r: Result<Vec<Value>, Error> = compose_items(
                resolver,
                config,
                items,
                id,
                depth,
                trail,
                last,
            );
            match r {
                Ok(out) => Ok(Value::Sequence(out)),
                Err(e) => Err(e),
            }
        },
        Value::Mapping(m) => {
            let r: Result<Vec<(String, Value)>, Error> = compose_entries(
                resolver,
                config,
                &m.entries,
                id,
                depth,
                trail,
                last,
            );
            match r {
                Ok(out) => Ok(Value::Mapping(Mapping { entries: out })),
                Err(e) => Err(e),
            }
        },
        Value::Tagged(t) => {
            if !is_word(t.tag.as_str().as_bytes(), "!include") {
                let one: Result<Value, Error> = compose(
                    resolver,
                    config,
                    &t.value,
                    id,
                    depth,
                    trail,
                    last,
                );
                let r: Result<Value, Error> = match one {
                    Ok(x) => Ok(
                        Value::Tagged(Box::new(TaggedValue { tag: same_string(&t.tag), value: x })),
                    ),
                    Err(e) => Err(e),
                };
                return r;
            }
            match &t.value {
                Value::String(text) => {
                    if depth >= config.max_include_depth {
                        return Err(Error::Custom("includes are nested too deep".to_owned()));
                    }
                    let req: IncludeRequest<'_> = IncludeRequest {
                        spec: text.as_str(),
                        from_id: id,
                        depth,
                    };
                    let answer: Result<InputSource, Error> = resolver.resolve(req);
                    assert(answered(f, bytes(*text), at, answer)) by {
                        assert(call_ensures(f, (req,), answer));
                    }
                    let ghost said = answer;
                    let r: Result<Value, Error> = match answer {
                        Err(e) => Err(e),
                        Ok(source) => {
                            if is_among(trail, &source.name) {
                                Err(cycle(&source.name))
                            } else {
                                match from_str_with_config(source.bytes.as_str(), config) {
                                    Err(e) => Err(e),
                                    Ok(whole) => {
                                        let fragment: Option<&str> = split_fragment(text.as_str()).1;
                                        match narrow(whole, fragment, &source.name) {
                                            Err(e) => Err(e),
                                            Ok(x) => {
                                                if *last < usize::MAX {
                                                    *last = *last + 1;
                                                }
                                                let number: usize = *last;
                                                let inner: Vec<String> = further(
                                                    trail,
                                                    &source.name,
                                                );
                                                compose(
                                                    resolver,
                                                    config,
                                                    &x,
                                                    number,
                                                    depth + 1,
                                                    &inner,
                                                    last,
                                                )
                                            },
                                        }
                                    },
                                }
                            }
                        },
                    };
                    assert(inserted(
                        f,
                        *config,
                        t.value@,
                        said,
                        at,
                        *old(last) as nat,
                        outcome(r),
                        *last as nat,
                    ));
                    r
                },
                _ => Err(Error::Custom("an include needs a string".to_owned())),
            }
        },
        _ => Ok(duplicate(v)),
    }
}

/// Puts sources into the items of a sequence.
fn compose_items<F: Fn(IncludeRequest<'_>) -> Result<InputSource, Error>>(
    resolver: &IncludeResolver<F>,
    config: &ParserConfig,
    items: &Vec<Value>,
    id: usize,
    depth: usize,
    trail: &Vec<String>,
    last: &mut usize,
) -> (r: Result<Vec<Value>, Error>)
    requires
        forall|req: IncludeRequest<'_>| #[trigger] call_requires(resolver.function(), (req,)),
    ensures
        composed_items(
            resolver.function(),
            *config,
            list(items@),
            0,
            (Spot { id: id as nat, depth: depth as nat, trail: names(trail@) }),
            *old(last) as nat,
            Seq::empty(),
            items_outcome(r),
            *final(last) as nat,
        ),
    decreases config.max_include_depth - depth, items, 0int,
{
    let ghost f = resolver.function();
    let ghost at = Spot { id: id as nat, depth: depth as nat, trail: names(trail@) };
    let ghost all = list(items@);
    let ghost first = *last as nat;
    let mut out: Vec<Value> = Vec::new();
    let mut i: usize = 0;
    proof {
        lists_are_pointwise(items@);
    }
    while i < items.len()
        invariant
            i <= items@.len(),
            all == list(items@),
            all.len() == items@.len(),
            forall|k: int| 0 <= k < items@.len() ==> #[trigger] all[k] == items@[k]@,
            f == resolver.function(),
            at == (Spot { id: id as nat, depth: depth as nat, trail: names(trail@) }),
            first == *old(last) as nat,
            forall|req: IncludeRequest<'_>| #[trigger] call_requires(f, (req,)),
            forall|r: Result<Seq<Data>, Error>, now: nat| #[trigger]
                composed_items(
                    f,
                    *config,
                    all,
                    i as int,
                    at,
                    *last as nat,
                    list(out@),
                    r,
                    now,
                ) ==> composed_items(f, *config, all, 0, at, first, Seq::empty(), r, now),
        decreases items@.len() - i,
    {
        let ghost before = *last as nat;
        let ghost done = list(out@);
        let one: Result<Value, Error> = compose(resolver, config, &items[i], id, depth, trail, last);
        assert(all[i as int] == items@[i as int]@);
        let ghost step = Step { outcome: outcome(one), last: *last as nat };
        assert(step.last == *last as nat);
        match one {
            Err(e) => {
                assert(composed_items(
                    f,
                    *config,
                    all,
                    i as int,
                    at,
                    before,
                    done,
                    Err(e),
                    *last as nat,
                ));
                return Err(e);
            },
            Ok(x) => {
                push_item(&mut out, x);
                assert forall|r: Result<Seq<Data>, Error>, now: nat| #[trigger]
                    composed_items(
                        f,
                        *config,
                        all,
                        i + 1,
                        at,
                        *last as nat,
                        list(out@),
                        r,
                        now,
                    ) implies composed_items(f, *config, all, 0, at, first, Seq::empty(), r, now) by {
                    assert(composed_items(f, *config, all, i as int, at, before, done, r, now));
                }
            },
        }
        i += 1;
    }
    assert(composed_items(
        f,
        *config,
        all,
        i as int,
        at,
        *last as nat,
        list(out@),
        Ok(list(out@)),
        *last as nat,
    ));
    Ok(out)
}

/// Puts sources into the entries of a mapping.
fn compose_entries<F: Fn(IncludeRequest<'_>) -> Result<InputSource, Error>>(
    resolver: &IncludeResolver<F>,
    config: &ParserConfig,
    entries: &Vec<(String, Value)>,
    id: usize,
    depth: usize,
    trail: &Vec<String>,
    last: &mut usize,
) -> (r: Result<Vec<(String, Value)>, Error>)
    requires
        forall|req: IncludeRequest<'_>| #[trigger] call_requires(resolver.function(), (req,)),
    ensures
        composed_entries(
            resolver.function(),
            *config,
            dict(entries@),
            0,
            (Spot { id: id as nat, depth: depth as nat, trail: names(trail@) }),
            *old(last) as nat,
            Seq::empty(),
            entries_outcome(r),
            *final(last) as nat,
        ),
    decreases config.max_include_depth - depth, entries, 0int,
{
    let ghost f = resolver.function();
    let ghost at = Spot { id: id as nat, depth: depth as nat, trail: names(trail@) };
    let ghost all = dict(entries@);
    let ghost first = *last as nat;
    let mut out: Vec<(String, Value)> = Vec::new();
    let mut i: usize = 0;
    proof {
        dicts_are_pointwise(entries@);
    }
    while i < entries.len()
        invariant
            i <= entries@.len(),
            all == dict(entries@),
            all.len() == entries@.len(),
            forall|k: int|
                0 <= k < entries@.len() ==> #[trigger] all[k] == (
                    bytes(entries@[k].0),
                    entries@[k].1@,
                ),
            f == resolver.function(),
            at == (Spot { id: id as nat, depth: depth as nat, trail: names(trail@) }),
            first == *old(last) as nat,
            forall|req: IncludeRequest<'_>| #[trigger] call_requires(f, (req,)),
            forall|r: Result<Seq<(Seq<u8>, Data)>, Error>, now: nat| #[trigger]
                composed_entries(
                    f,
                    *config,
                    all,
                    i as int,
                    at,
                    *last as nat,
                    dict(out@),
                    r,
                    now,
                ) ==> composed_entries(f, *config, all, 0, at, first, Seq::empty(), r, now),
        decreases entries@.len() - i,
    {
        let ghost before = *last as nat;
        let ghost done = dict(out@);
        let (key, value) = &entries[i];
        let one: Result<Value, Error> = compose(resolver, config, value, id, depth, trail, last);
        assert(all[i as int] == (bytes(entries@[i as int].0), entries@[i as int].1@));
        let ghost step = Step { outcome: outcome(one), last: *last as nat };
        assert(step.last == *last as nat);
        match one {
            Err(e) => {
                assert(composed_entries(
                    f,
                    *config,
                    all,
                    i as int,
                    at,
                    before,
                    done,
                    Err(e),
                    *last as nat,
                ));
                return Err(e);
            },
            Ok(x) => {
                push_entry(&mut out, same_string(key), x);
                assert forall|r: Result<Seq<(Seq<u8>, Data)>, Error>, now: nat| #[trigger]
                    composed_entries(
                        f,
                        *config,
                        all,
                        i + 1,
                        at,
                        *last as nat,
                        dict(out@),
                        r,
                        now,
                    ) implies composed_entries(f, *config, all, 0, at, first, Seq::empty(), r, now) by {
                    assert(composed_entries(f, *config, all, i as int, at, before, done, r, now));
                }
            },
        }
        i += 1;
    }
    assert(composed_entries(
        f,
        *config,
        all,
        i as int,
        at,
        *last as nat,
        dict(out@),
        Ok(dict(out@)),
        *last as nat,
    ));
    Ok(out)
}

/// Whether nothing in a value asks for a source.
pub open spec fn complete(d: Data) -> bool
    decreases d,
{
    match d {
        Data::List(v) => forall|i: int| 0 <= i < v.len() ==> complete(#[trigger] v[i]),
        Data::Dict(m) => forall|i: int| 0 <= i < m.len() ==> complete((#[trigger] m[i]).1),
        Data::Tagged(tag, inner) => tag != "!include".spec_bytes() && complete(*inner),
        _ => true,
    }
}

/// A value in which nothing asks for a source stays as it is, and no request
/// is made.
pub proof fn complete_values_stay<F: Fn(IncludeRequest<'_>) -> Result<InputSource, Error>>(
    f: F,
    config: ParserConfig,
    d: Data,
    at: Spot,
    last: nat,
    r: Result<Data, Error>,
    now: nat,
)
    requires
        complete(d),
        composed(f, config, d, at, last, r, now),
    ensures
        r == Ok::<Data, Error>(d),
        now == last,
    decreases d, 0int,
{
    match d {
        Data::List(items) => {
            let out = match r {
                Ok(x) => Ok::<Seq<Data>, Error>(x->List_0),
                Err(e) => Err(e),
            };
            assert(items.subrange(0, 0) =~= Seq::empty());
            complete_items_stay(f, config, items, 0, at, last, Seq::empty(), out, now);
        },
        Data::Dict(entries) => {
            let out = match r {
                Ok(x) => Ok::<Seq<(Seq<u8>, Data)>, Error>(x->Dict_0),
                Err(e) => Err(e),
            };
            assert(entries.subrange(0, 0) =~= Seq::empty());
            complete_entries_stay(f, config, entries, 0, at, last, Seq::empty(), out, now);
        },
        Data::Tagged(tag, inner) => {
            let one = match r {
                Ok(x) => Ok::<Data, Error>(*x->Tagged_1),
                Err(e) => Err(e),
            };
            complete_values_stay(f, config, *inner, at, last, one, now);
        },
        _ => {},
    }
}

/// Items in which nothing asks for a source stay as they are.
proof fn complete_items_stay<F: Fn(IncludeRequest<'_>) -> Result<InputSource, Error>>(
    f: F,
    config: ParserConfig,
    items: Seq<Data>,
    k: int,
    at: Spot,
    last: nat,
    done: Seq<Data>,
    r: Result<Seq<Data>, Error>,
    now: nat,
)
    requires
        0 <= k <= items.len(),
        forall|i: int| 0 <= i < items.len() ==> complete(#[trigger] items[i]),
        done == items.subrange(0, k),
        composed_items(f, config, items, k, at, last, done, r, now),
    ensures
        r == Ok::<Seq<Data>, Error>(items),
        now == last,
    decreases items, items.len() - k,
{
    if k < items.len() {
        let step = choose|step: Step|
            composed(f, config, items[k], at, last, step.outcome, #[trigger] step.last)
                && match step.outcome {
                Err(e) => r == Err::<Seq<Data>, Error>(e) && now == step.last,
                Ok(x) => composed_items(f, config, items, k + 1, at, step.last, done.push(x), r, now),
            };
        complete_values_stay(f, config, items[k], at, last, step.outcome, step.last);
        assert(done.push(items[k]) =~= items.subrange(0, k + 1));
        complete_items_stay(f, config, items, k + 1, at, step.last, done.push(items[k]), r, now);
    } else {
        assert(done =~= items);
    }
}

/// Entries in which nothing asks for a source stay as they are.
proof fn complete_entries_stay<F: Fn(IncludeRequest<'_>) -> Result<InputSource, Error>>(
    f: F,
    config: ParserConfig,
    entries: Seq<(Seq<u8>, Data)>,
    k: int,
    at: Spot,
    last: nat,
    done: Seq<(Seq<u8>, Data)>,
    r: Result<Seq<(Seq<u8>, Data)>, Error>,
    now: nat,
)
    requires
        0 <= k <= entries.len(),
        forall|i: int| 0 <= i < entries.len() ==> complete((#[trigger] entries[i]).1),
        done == entries.subrange(0, k),
        composed_entries(f, config, entries, k, at, last, done, r, now),
    ensures
        r == Ok::<Seq<(Seq<u8>, Data)>, Error>(entries),
        now == last,
    decreases entries, entries.len() - k,
{
    if k < entries.len() {
        let step = choose|step: Step|
            composed(f, config, entries[k].1, at, last, step.outcome, #[trigger] step.last)
                && match step.outcome {
                Err(e) => r == Err::<Seq<(Seq<u8>, Data)>, Error>(e) && now == step.last,
                Ok(x) => composed_entries(
                    f,
                    config,
                    entries,
                    k + 1,
                    at,
                    step.last,
                    done.push((entries[k].0, x)),
                    r,
                    now,
                ),
            };
        complete_values_stay(f, config, entries[k].1, at, last, step.outcome, step.last);
        assert(done.push(entries[k]) =~= entries.subrange(0, k + 1));
        complete_entries_stay(f, config, entries, k + 1, at, step.last, done.push(entries[k]), r, now);
    } else {
        assert(done =~= entries);
    }
}

/// When everything that is asked for is found, nothing in the outcome asks
/// for a source any more.
pub proof fn outcomes_are_complete<F: Fn(IncludeRequest<'_>) -> Result<InputSource, Error>>(
    f: F,
    config: ParserConfig,
    d: Data,
    at: Spot,
    last: nat,
    r: Result<Data, Error>,
    now: nat,
)
    requires
        composed(f, config, d, at, last, r, now),
    ensures
        r matches Ok(x) ==> complete(x),
    decreases config.max_include_depth - at.depth, d, 0int,
{
    match d {
        Data::List(items) => {
            if let Ok(x) = r {
                let out = Ok::<Seq<Data>, Error>(x->List_0);
                item_outcomes_are_complete(f, config, items, 0, at, last, Seq::empty(), out, now);
                assert forall|i: int| 0 <= i < x->List_0.len() implies complete(
                    #[trigger] x->List_0[i],
                ) by {
                    assert(complete(out->Ok_0[i]));
                }
            }
        },
        Data::Dict(entries) => {
            if let Ok(x) = r {
                let out = Ok::<Seq<(Seq<u8>, Data)>, Error>(x->Dict_0);
                entry_outcomes_are_complete(
                    f,
                    config,
                    entries,
                    0,
                    at,
                    last,
                    Seq::empty(),
                    out,
                    now,
                );
                assert forall|i: int| 0 <= i < x->Dict_0.len() implies complete(
                    (#[trigger] x->Dict_0[i]).1,
                ) by {
                    assert(complete(out->Ok_0[i].1));
                }
            }
        },
        Data::Tagged(tag, inner) => {
            if tag != "!include".spec_bytes() {
                let one = match r {
                    Ok(x) => Ok::<Data, Error>(*x->Tagged_1),
                    Err(e) => Err(e),
                };
                outcomes_are_complete(f, config, *inner, at, last, one, now);
            } else if *inner is Text && at.depth < config.max_include_depth {
                let answer = choose|answer: Result<InputSource, Error>| #[trigger]
                    answered(f, inner->Text_0, at, answer) && inserted(
                        f,
                        config,
                        *inner,
                        answer,
                        at,
                        last,
                        r,
                        now,
                    );
                inserted_outcomes_are_complete(f, config, *inner, answer, at, last, r, now);
            }
        },
        _ => {},
    }
}

/// Nothing in what an answer leads to asks for a source any more.
proof fn inserted_outcomes_are_complete<
    F: Fn(IncludeRequest<'_>) -> Result<InputSource, Error>,
>(
    f: F,
    config: ParserConfig,
    text: Data,
    answer: Result<InputSource, Error>,
    at: Spot,
    last: nat,
    r: Result<Data, Error>,
    now: nat,
)
    requires
        at.depth < config.max_include_depth,
        inserted(f, config, text, answer, at, last, r, now),
    ensures
        r matches Ok(x) ==> complete(x),
    decreases config.max_include_depth - at.depth, text, 0int,
{
    match answer {
        Err(_) => {},
        Ok(source) => {
            let name = bytes(source.name);
            let fragment = fragment_split(text->Text_0).1;
            if !at.trail.contains(name) {
                match source_value(bytes(source.bytes), config) {
                    Err(_) => {},
                    Ok((d, _)) => match narrowed(d, fragment) {
                        None => {},
                        Some(x) => {
                            outcomes_are_complete(
                                f,
                                config,
                                x,
                                Spot {
                                    id: fresh(last),
                                    depth: at.depth + 1,
                                    trail: at.trail.push(name),
                                },
                                fresh(last),
                                r,
                                now,
                            );
                        },
                    },
                }
            }
        },
    }
}

/// Nothing in the items of an outcome asks for a source any more.
proof fn item_outcomes_are_complete<F: Fn(IncludeRequest<'_>) -> Result<InputSource, Error>>(
    f: F,
    config: ParserConfig,
    items: Seq<Data>,
    k: int,
    at: Spot,
    last: nat,
    done: Seq<Data>,
    r: Result<Seq<Data>, Error>,
    now: nat,
)
    requires
        0 <= k <= items.len(),
        forall|i: int| 0 <= i < done.len() ==> complete(#[trigger] done[i]),
        composed_items(f, config, items, k, at, last, done, r, now),
    ensures
        r matches Ok(v) ==> forall|i: int| 0 <= i < v.len() ==> complete(#[trigger] v[i]),
    decreases config.max_include_depth - at.depth, items, items.len() - k,
{
    if k < items.len() {
        let step = choose|step: Step|
            composed(f, config, items[k], at, last, step.outcome, #[trigger] step.last)
                && match step.outcome {
                Err(e) => r == Err::<Seq<Data>, Error>(e) && now == step.last,
                Ok(x) => composed_items(f, config, items, k + 1, at, step.last, done.push(x), r, now),
            };
        outcomes_are_complete(f, config, items[k], at, last, step.outcome, step.last);
        if step.outcome is Ok {
            item_outcomes_are_complete(
                f,
                config,
                items,
                k + 1,
                at,
                step.last,
                done.push(step.outcome->Ok_0),
                r,
                now,
            );
        }
    }
}

/// Nothing in the entries of an outcome asks for a source any more.
proof fn entry_outcomes_are_complete<F: Fn(IncludeRequest<'_>) -> Result<InputSource, Error>>(
    f: F,
    config: ParserConfig,
    entries: Seq<(Seq<u8>, Data)>,
    k: int,
    at: Spot,
    last: nat,
    done: Seq<(Seq<u8>, Data)>,
    r: Result<Seq<(Seq<u8>, Data)>, Error>,
    now: nat,
)
    requires
        0 <= k <= entries.len(),
        forall|i: int| 0 <= i < done.len() ==> complete((#[trigger] done[i]).1),
        composed_entries(f, config, entries, k, at, last, done, r, now),
    ensures
        r matches Ok(m) ==> forall|i: int| 0 <= i < m.len() ==> complete((#[trigger] m[i]).1),
    decreases config.max_include_depth - at.depth, entries, entries.len() - k,
{
    if k < entries.len() {
        let step = choose|step: Step|
            composed(f, config, entries[k].1, at, last, step.outcome, #[trigger] step.last)
                && match step.outcome {
                Err(e) => r == Err::<Seq<(Seq<u8>, Data)>, Error>(e) && now == step.last,
                Ok(x) => composed_entries(
                    f,
                    config,
                    entries,
                    k + 1,
                    at,
                    step.last,
                    done.push((entries[k].0, x)),
                    r,
                    now,
                ),
            };
        outcomes_are_complete(f, config, entries[k].1, at, last, step.outcome, step.last);
        if step.outcome is Ok {
            entry_outcomes_are_complete(
                f,
                config,
                entries,
                k + 1,
                at,
                step.last,
                done.push((entries[k].0, step.outcome->Ok_0)),
                r,
                now,
            );
        }
    }
}

/// The typed value of a text, with what it asks for in its place. The request
/// for a source carries the number and the depth of the source that asks; a
/// source that asks for one of those around it, a fragment that is not there,
/// and nesting beyond the limit are errors, and what the resolver or the parse
/// of a source reports is handed on.
pub fn from_str_with_resolver<F: Fn(IncludeRequest<'_>) -> Result<InputSource, Error>>(
    input: &str,
    config: &ParserConfig,
    resolver: &IncludeResolver<F>,
) -> (r: Result<Value, Error>)
    requires
        forall|req: IncludeRequest<'_>| #[trigger] call_requires(resolver.function(), (req,)),
    ensures
        match source_value(input.spec_bytes(), *config) {
            Err(flaw) => r is Err && r->Err_0 == Error::Syntax(flaw),
            Ok((d, _)) => exists|now: nat| #[trigger]
                composed(resolver.function(), *config, d, first_spot(), 0, outcome(r), now),
        },
{
    match from_str_with_config(input, config) {
        Err(e) => Err(e),
        Ok(v) => {
            let trail: Vec<String> = Vec::new();
            let mut last: usize = 0;
            assert(names(trail@) =~= Seq::empty());
            assert((Spot { id: 0, depth: 0, trail: names(trail@) }) == first_spot());
            compose(resolver, config, &v, 0, 0, &trail, &mut last)
        },
    }
}

} // verus!
