//! What a document's value must be after an edit.
//!
//! Every guarded edit compares the value it produced with the one computed
//! here from the value before the edit, and is rolled back when they differ.
use crate::path::{segs, QuerySegment, Seg};
use crate::value::{
    bytes, data, dict, dicts_are_pointwise, duplicate, find, list, lists_are_pointwise, push_entry,
    push_item, same_string, Data, Mapping, Value, duplicate_mapping};
use vstd::prelude::*;
use vstd::string::*;

verus! {

/// Why a path does not lead to a value.
#[derive(Clone, Copy, PartialEq, Eq, Structural, Debug)]
pub enum Miss {
    /// A mapping lacks the key.
    Key,
    /// A sequence is too short for the index.
    Index,
    /// The step does not fit the value it is applied to.
    Kind,
}

/// The value one step below `d`.
pub open spec fn below(d: Data, step: Seg) -> Result<Data, Miss> {
    match (step, d) {
        (Seg::Key(k), Data::Dict(m)) => match find(m, k) {
            Some(i) => Ok(m[i].1),
            None => Err(Miss::Key),
        },
        (Seg::Index(i), Data::List(v)) => if 0 <= i < v.len() {
            Ok(v[i])
        } else {
            Err(Miss::Index)
        },
        _ => Err(Miss::Kind),
    }
}

/// The value that the steps `p[k..hi]` lead to from `d`.
pub open spec fn at(d: Data, p: Seq<Seg>, k: int, hi: int) -> Result<Data, Miss>
    decreases hi - k,
{
    if k >= hi {
        Ok(d)
    } else {
        match below(d, p[k]) {
            Ok(e) => at(e, p, k + 1, hi),
            Err(x) => Err(x),
        }
    }
}

/// `d` with the child that `step` leads to replaced.
pub open spec fn with_child(d: Data, step: Seg, new: Data) -> Data {
    match (step, d) {
        (Seg::Key(k), Data::Dict(m)) => match find(m, k) {
            Some(i) => Data::Dict(m.update(i, (m[i].0, new))),
            None => d,
        },
        (Seg::Index(i), Data::List(v)) => if 0 <= i < v.len() {
            Data::List(v.update(i, new))
        } else {
            d
        },
        _ => d,
    }
}

/// `d` with the value that the steps `p[k..hi]` lead to replaced.
pub open spec fn put(d: Data, p: Seq<Seg>, k: int, hi: int, new: Data) -> Data
    decreases hi - k,
{
    if k >= hi {
        new
    } else {
        match below(d, p[k]) {
            Ok(e) => with_child(d, p[k], put(e, p, k + 1, hi, new)),
            Err(_) => d,
        }
    }
}

/// The child one step below a value.
pub fn child<'a>(v: &'a Value, step: &QuerySegment) -> (r: Result<&'a Value, Miss>)
    ensures
        match below(v@, step@) {
            Ok(d) => r is Ok && r->Ok_0@ == d,
            Err(x) => r is Err && r->Err_0 == x,
        },
{
    match (step, v) {
        (QuerySegment::Key(k), Value::Mapping(m)) => {
            proof {
                dicts_are_pointwise(m.entries@);
            }
            match m.position(k.as_str().as_bytes()) {
                Some(i) => {
                    assert(m@[i as int].1 == data(m.entries@[i as int].1));
                    Ok(&m.entries[i].1)
                },
                None => Err(Miss::Key),
            }
        },
        (QuerySegment::Index(i), Value::Sequence(items)) => {
            proof {
                lists_are_pointwise(items@);
            }
            if *i < items.len() {
                assert(list(items@)[*i as int] == data(items@[*i as int]));
                Ok(&items[*i])
            } else {
                Err(Miss::Index)
            }
        },
        _ => Err(Miss::Kind),
    }
}

/// The value that the first `hi` steps of a path lead to.
pub fn path_value<'a>(v: &'a Value, p: &Vec<QuerySegment>, hi: usize) -> (r: Result<
    &'a Value,
    Miss,
>)
    requires
        hi <= p@.len(),
    ensures
        match at(v@, segs(p@), 0, hi as int) {
            Ok(d) => r is Ok && r->Ok_0@ == d,
            Err(x) => r is Err && r->Err_0 == x,
        },
{
    let mut cur: &'a Value = v;
    let mut k: usize = 0;
    while k < hi
        invariant
            k <= hi <= p@.len(),
            at(cur@, segs(p@), k as int, hi as int) == at(v@, segs(p@), 0, hi as int),
        decreases hi - k,
    {
        assert(segs(p@)[k as int] == p@[k as int]@);
        match child(cur, &p[k]) {
            Ok(next) => {
                cur = next;
            },
            Err(x) => {
                return Err(x);
            },
        }
        k += 1;
    }
    Ok(cur)
}

/// A copy of a list with the item at `at` replaced.
fn list_with(items: &Vec<Value>, i: usize, new: Value) -> (r: Vec<Value>)
    requires
        i < items@.len(),
    ensures
        list(r@) == list(items@).update(i as int, new@),
{
    let n: usize = items.len();
    let mut out: Vec<Value> = Vec::new();
    let mut k: usize = 0;
    proof {
        lists_are_pointwise(items@);
        lists_are_pointwise(out@);
    }
    while k < i
        invariant
            k <= i < items@.len(),
            list(items@).len() == items@.len(),
            forall|j: int|
                0 <= j < items@.len() ==> #[trigger] list(items@)[j] == data(items@[j]),
            list(out@) =~= list(items@).subrange(0, k as int),
        decreases i - k,
    {
        assert(list(items@)[k as int] == data(items@[k as int]));
        let copy: Value = duplicate(&items[k]);
        push_item(&mut out, copy);
        k += 1;
    }
    push_item(&mut out, new);
    k = i + 1;
    while k < n
        invariant
            i < k <= items@.len(),
            n == items@.len(),
            list(items@).len() == items@.len(),
            forall|j: int|
                0 <= j < items@.len() ==> #[trigger] list(items@)[j] == data(items@[j]),
            list(out@) =~= list(items@).subrange(0, k as int).update(i as int, new@),
        decreases items@.len() - k,
    {
        assert(list(items@)[k as int] == data(items@[k as int]));
        let copy: Value = duplicate(&items[k]);
        push_item(&mut out, copy);
        k += 1;
    }
    assert(list(out@) =~= list(items@).update(i as int, new@));
    out
}

/// A copy of a list of entries with the entry at `i` replaced.
fn dict_with(entries: &Vec<(String, Value)>, i: usize, key: String, new: Value) -> (r: Vec<
    (String, Value),
>)
    requires
        i < entries@.len(),
    ensures
        dict(r@) == dict(entries@).update(i as int, (bytes(key), new@)),
{
    let n: usize = entries.len();
    let mut out: Vec<(String, Value)> = Vec::new();
    let mut k: usize = 0;
    proof {
        dicts_are_pointwise(entries@);
        dicts_are_pointwise(out@);
    }
    while k < i
        invariant
            k <= i < entries@.len(),
            dict(entries@).len() == entries@.len(),
            forall|j: int|
                0 <= j < entries@.len() ==> #[trigger] dict(entries@)[j] == (
                    bytes(entries@[j].0),
                    data(entries@[j].1),
                ),
            dict(out@) =~= dict(entries@).subrange(0, k as int),
        decreases i - k,
    {
        assert(dict(entries@)[k as int] == (
            bytes(entries@[k as int].0),
            data(entries@[k as int].1),
        ));
        let name: String = same_string(&entries[k].0);
        let copy: Value = duplicate(&entries[k].1);
        push_entry(&mut out, name, copy);
        k += 1;
    }
    push_entry(&mut out, key, new);
    k = i + 1;
    while k < n
        invariant
            i < k <= entries@.len(),
            n == entries@.len(),
            dict(entries@).len() == entries@.len(),
            forall|j: int|
                0 <= j < entries@.len() ==> #[trigger] dict(entries@)[j] == (
                    bytes(entries@[j].0),
                    data(entries@[j].1),
                ),
            dict(out@) =~= dict(entries@).subrange(0, k as int).update(
                i as int,
                (bytes(key), new@),
            ),
        decreases entries@.len() - k,
    {
        assert(dict(entries@)[k as int] == (
            bytes(entries@[k as int].0),
            data(entries@[k as int].1),
        ));
        let name: String = same_string(&entries[k].0);
        let copy: Value = duplicate(&entries[k].1);
        push_entry(&mut out, name, copy);
        k += 1;
    }
    assert(dict(out@) =~= dict(entries@).update(i as int, (bytes(key), new@)));
    out
}

/// A copy of a value with the one that the steps `k..hi` lead to replaced.
pub fn replaced(v: &Value, p: &Vec<QuerySegment>, k: usize, hi: usize, new: Value) -> (r: Value)
    requires
        k <= hi <= p@.len(),
    ensures
        r@ == put(v@, segs(p@), k as int, hi as int, new@),
    decreases hi - k,
{
    if k >= hi {
        return new;
    }
    assert(segs(p@)[k as int] == p@[k as int]@);
    match (&p[k], v) {
        (QuerySegment::Key(key), Value::Mapping(m)) => {
            proof {
                dicts_are_pointwise(m.entries@);
            }
            match m.position(key.as_str().as_bytes()) {
                Some(i) => {
                    assert(m@[i as int] == (
                        bytes(m.entries@[i as int].0),
                        data(m.entries@[i as int].1),
                    ));
                    let inner: Value = replaced(&m.entries[i].1, p, k + 1, hi, new);
                    let name: String = same_string(&m.entries[i].0);
                    Value::Mapping(Mapping { entries: dict_with(&m.entries, i, name, inner) })
                },
                None => duplicate(v),
            }
        },
        (QuerySegment::Index(i), Value::Sequence(items)) => {
            proof {
                lists_are_pointwise(items@);
            }
            if *i < items.len() {
                assert(list(items@)[*i as int] == data(items@[*i as int]));
                let inner: Value = replaced(&items[*i], p, k + 1, hi, new);
                Value::Sequence(list_with(items, *i, inner))
            } else {
                duplicate(v)
            }
        },
        _ => duplicate(v),
    }
}

/// A value without the child that a step leads to.
pub open spec fn without(d: Data, step: Seg) -> Result<Data, Miss> {
    match (step, d) {
        (Seg::Key(k), Data::Dict(m)) => match find(m, k) {
            Some(i) => Ok(Data::Dict(m.remove(i))),
            None => Err(Miss::Key),
        },
        (Seg::Index(i), Data::List(v)) => if 0 <= i < v.len() {
            Ok(Data::List(v.remove(i)))
        } else {
            Err(Miss::Index)
        },
        _ => Err(Miss::Kind),
    }
}

/// A document's value once the one at a path is removed.
pub open spec fn after_remove(d: Data, p: Seq<Seg>) -> Result<Data, Miss> {
    let hi = p.len() - 1;
    if p.len() == 0 {
        Err(Miss::Kind)
    } else {
        match at(d, p, 0, hi) {
            Ok(e) => match without(e, p[hi]) {
                Ok(f) => Ok(put(d, p, 0, hi, f)),
                Err(x) => Err(x),
            },
            Err(x) => Err(x),
        }
    }
}

fn list_without(items: &Vec<Value>, i: usize) -> (r: Vec<Value>)
    requires
        i < items@.len(),
    ensures
        list(r@) == list(items@).remove(i as int),
{
    let mut out: Vec<Value> = Vec::new();
    let mut k: usize = 0;
    proof {
        lists_are_pointwise(items@);
        lists_are_pointwise(out@);
    }
    while k < items.len()
        invariant
            k <= items@.len(),
            i < items@.len(),
            list(items@).len() == items@.len(),
            forall|j: int|
                0 <= j < items@.len() ==> #[trigger] list(items@)[j] == data(items@[j]),
            k <= i ==> list(out@) =~= list(items@).subrange(0, k as int),
            k > i ==> list(out@) =~= list(items@).subrange(0, i as int) + list(items@).subrange(
                i + 1,
                k as int,
            ),
        decreases items@.len() - k,
    {
        assert(list(items@)[k as int] == data(items@[k as int]));
        if k != i {
            let copy: Value = duplicate(&items[k]);
            push_item(&mut out, copy);
        }
        k += 1;
    }
    assert(list(out@) =~= list(items@).remove(i as int));
    out
}

fn dict_without(entries: &Vec<(String, Value)>, i: usize) -> (r: Vec<(String, Value)>)
    requires
        i < entries@.len(),
    ensures
        dict(r@) == dict(entries@).remove(i as int),
{
    let mut out: Vec<(String, Value)> = Vec::new();
    let mut k: usize = 0;
    proof {
        dicts_are_pointwise(entries@);
        dicts_are_pointwise(out@);
    }
    while k < entries.len()
        invariant
            k <= entries@.len(),
            i < entries@.len(),
            dict(entries@).len() == entries@.len(),
            forall|j: int|
                0 <= j < entries@.len() ==> #[trigger] dict(entries@)[j] == (
                    bytes(entries@[j].0),
                    data(entries@[j].1),
                ),
            k <= i ==> dict(out@) =~= dict(entries@).subrange(0, k as int),
            k > i ==> dict(out@) =~= dict(entries@).subrange(0, i as int) + dict(
                entries@,
            ).subrange(i + 1, k as int),
        decreases entries@.len() - k,
    {
        assert(dict(entries@)[k as int] == (
            bytes(entries@[k as int].0),
            data(entries@[k as int].1),
        ));
        if k != i {
            let name: String = same_string(&entries[k].0);
            let copy: Value = duplicate(&entries[k].1);
            push_entry(&mut out, name, copy);
        }
        k += 1;
    }
    assert(dict(out@) =~= dict(entries@).remove(i as int));
    out
}

/// The value a document must have after the one at a path is removed.
pub fn expected_after_remove(v: &Value, p: &Vec<QuerySegment>) -> (r: Result<Value, Miss>)
    ensures
        match after_remove(v@, segs(p@)) {
            Ok(d) => r is Ok && r->Ok_0@ == d,
            Err(x) => r is Err && r->Err_0 == x,
        },
{
    if p.len() == 0 {
        return Err(Miss::Kind);
    }
    let hi: usize = p.len() - 1;
    assert(segs(p@)[hi as int] == p@[hi as int]@);
    match path_value(v, p, hi) {
        Ok(parent) => match (&p[hi], parent) {
            (QuerySegment::Key(k), Value::Mapping(m)) => match m.position(k.as_str().as_bytes()) {
                Some(i) => {
                    let rest: Value = Value::Mapping(
                        Mapping { entries: dict_without(&m.entries, i) },
                    );
                    Ok(replaced(v, p, 0, hi, rest))
                },
                None => Err(Miss::Key),
            },
            (QuerySegment::Index(i), Value::Sequence(items)) => {
                proof {
                    lists_are_pointwise(items@);
                }
                if *i < items.len() {
                    let rest: Value = Value::Sequence(list_without(items, *i));
                    Ok(replaced(v, p, 0, hi, rest))
                } else {
                    Err(Miss::Index)
                }
            },
            _ => Err(Miss::Kind),
        },
        Err(x) => Err(x),
    }
}

/// A document's value once the key of the entry at a path is renamed.
pub open spec fn after_rename(d: Data, p: Seq<Seg>, new_key: Seq<u8>) -> Result<Data, Miss> {
    let hi = p.len() - 1;
    if p.len() == 0 {
        Err(Miss::Kind)
    } else {
        match at(d, p, 0, hi) {
            Ok(e) => match (p[hi], e) {
                (Seg::Key(k), Data::Dict(m)) => match find(m, k) {
                    Some(i) => Ok(put(d, p, 0, hi, Data::Dict(m.update(i, (new_key, m[i].1))))),
                    None => Err(Miss::Key),
                },
                _ => Err(Miss::Kind),
            },
            Err(x) => Err(x),
        }
    }
}

/// The value a document must have after the key of the entry at a path is
/// renamed: the entry keeps its place and its value.
pub fn expected_after_rename(v: &Value, p: &Vec<QuerySegment>, new_key: &String) -> (r: Result<
    Value,
    Miss,
>)
    ensures
        match after_rename(v@, segs(p@), bytes(*new_key)) {
            Ok(d) => r is Ok && r->Ok_0@ == d,
            Err(x) => r is Err && r->Err_0 == x,
        },
{
    if p.len() == 0 {
        return Err(Miss::Kind);
    }
    let hi: usize = p.len() - 1;
    assert(segs(p@)[hi as int] == p@[hi as int]@);
    match path_value(v, p, hi) {
        Ok(parent) => match (&p[hi], parent) {
            (QuerySegment::Key(k), Value::Mapping(m)) => match m.position(k.as_str().as_bytes()) {
                Some(i) => {
                    proof {
                        dicts_are_pointwise(m.entries@);
                    }
                    assert(m@[i as int].1 == data(m.entries@[i as int].1));
                    let copy: Value = duplicate(&m.entries[i].1);
                    let name: String = same_string(new_key);
                    let rest: Value = Value::Mapping(
                        Mapping { entries: dict_with(&m.entries, i, name, copy) },
                    );
                    Ok(replaced(v, p, 0, hi, rest))
                },
                None => Err(Miss::Key),
            },
            _ => Err(Miss::Kind),
        },
        Err(x) => Err(x),
    }
}

/// A document's value once two items of the sequence at a path are exchanged.
pub open spec fn after_swap(d: Data, p: Seq<Seg>, i: int, j: int) -> Result<Data, Miss> {
    match at(d, p, 0, p.len() as int) {
        Ok(Data::List(v)) => if 0 <= i < v.len() && 0 <= j < v.len() {
            Ok(put(d, p, 0, p.len() as int, Data::List(v.update(i, v[j]).update(j, v[i]))))
        } else {
            Err(Miss::Index)
        },
        Ok(_) => Err(Miss::Kind),
        Err(x) => Err(x),
    }
}

/// The value a document must have after two items of a sequence are
/// exchanged.
pub fn expected_after_swap(v: &Value, p: &Vec<QuerySegment>, i: usize, j: usize) -> (r: Result<
    Value,
    Miss,
>)
    ensures
        match after_swap(v@, segs(p@), i as int, j as int) {
            Ok(d) => r is Ok && r->Ok_0@ == d,
            Err(x) => r is Err && r->Err_0 == x,
        },
{
    assert(segs(p@).len() == p@.len());
    match path_value(v, p, p.len()) {
        Ok(Value::Sequence(items)) => {
            proof {
                lists_are_pointwise(items@);
            }
            if i >= items.len() || j >= items.len() {
                return Err(Miss::Index);
            }
            assert(list(items@)[i as int] == data(items@[i as int]));
            assert(list(items@)[j as int] == data(items@[j as int]));
            let a: Value = duplicate(&items[i]);
            let b: Value = duplicate(&items[j]);
            let once: Vec<Value> = list_with(items, i, b);
            proof {
                lists_are_pointwise(once@);
            }
            let twice: Vec<Value> = list_with(&once, j, a);
            Ok(replaced(v, p, 0, p.len(), Value::Sequence(twice)))
        },
        Ok(_) => Err(Miss::Kind),
        Err(x) => Err(x),
    }
}

/// A mapping with the value under a key set, where the first `own` entries are
/// the mapping's own and the others come from merges: in place when the mapping
/// has the key itself, behind its own entries when it does not.
pub open spec fn with_entry(
    m: Seq<(Seq<u8>, Data)>,
    key: Seq<u8>,
    new: Data,
    own: int,
) -> Seq<(Seq<u8>, Data)> {
    let k = if 0 <= own <= m.len() {
        own
    } else {
        m.len() as int
    };
    match find(m, key) {
        Some(i) => if i < k {
            m.update(i, (key, new))
        } else {
            m.remove(i).insert(k, (key, new))
        },
        None => m.insert(k, (key, new)),
    }
}

/// A document's value once an entry is set in the mapping at a path, which has
/// `own` entries itself.
pub open spec fn after_insert_entry(
    d: Data,
    p: Seq<Seg>,
    key: Seq<u8>,
    new: Data,
    own: int,
) -> Result<Data, Miss> {
    match at(d, p, 0, p.len() as int) {
        Ok(Data::Dict(m)) => Ok(
            put(d, p, 0, p.len() as int, Data::Dict(with_entry(m, key, new, own))),
        ),
        Ok(_) => Err(Miss::Kind),
        Err(x) => Err(x),
    }
}

/// Inserts an entry into a list of entries.
fn insert_entry_at(out: &mut Vec<(String, Value)>, k: usize, key: String, new: Value)
    requires
        k <= old(out)@.len(),
    ensures
        dict(final(out)@) == dict(old(out)@).insert(k as int, (bytes(key), new@)),
{
    let ghost before = out@;
    out.insert(k, (key, new));
    proof {
        dicts_are_pointwise(before);
        dicts_are_pointwise(out@);
        assert(dict(out@) =~= dict(before).insert(k as int, (bytes(key), new@)));
    }
}

/// The value a document must have after an entry is set in a mapping.
pub fn expected_after_insert_entry(
    v: &Value,
    p: &Vec<QuerySegment>,
    key: &String,
    new: &Value,
    own: usize,
) -> (r: Result<Value, Miss>)
    ensures
        match after_insert_entry(v@, segs(p@), bytes(*key), new@, own as int) {
            Ok(d) => r is Ok && r->Ok_0@ == d,
            Err(x) => r is Err && r->Err_0 == x,
        },
{
    assert(segs(p@).len() == p@.len());
    match path_value(v, p, p.len()) {
        Ok(Value::Mapping(m)) => {
            proof {
                dicts_are_pointwise(m.entries@);
            }
            let n: usize = m.entries.len();
            let k: usize = if own <= n {
                own
            } else {
                n
            };
            let copy: Value = duplicate(new);
            let name: String = same_string(key);
            let entries: Vec<(String, Value)> = match m.position(key.as_str().as_bytes()) {
                Some(i) => if i < k {
                    dict_with(&m.entries, i, name, copy)
                } else {
                    let mut out: Vec<(String, Value)> = dict_without(&m.entries, i);
                    proof {
                        dicts_are_pointwise(out@);
                    }
                    insert_entry_at(&mut out, k, name, copy);
                    out
                },
                None => {
                    let mut out: Vec<(String, Value)> = duplicate_mapping(m).entries;
                    proof {
                        dicts_are_pointwise(out@);
                    }
                    insert_entry_at(&mut out, k, name, copy);
                    out
                },
            };
            let rest: Mapping = Mapping { entries };
            Ok(replaced(v, p, 0, p.len(), Value::Mapping(rest)))
        },
        Ok(_) => Err(Miss::Kind),
        Err(x) => Err(x),
    }
}

/// A document's value once an item is inserted into the sequence at a path.
pub open spec fn after_insert_item(d: Data, p: Seq<Seg>, i: int, new: Data) -> Result<Data, Miss> {
    match at(d, p, 0, p.len() as int) {
        Ok(Data::List(v)) => if 0 <= i <= v.len() {
            Ok(put(d, p, 0, p.len() as int, Data::List(v.insert(i, new))))
        } else {
            Err(Miss::Index)
        },
        Ok(_) => Err(Miss::Kind),
        Err(x) => Err(x),
    }
}

/// The value a document must have after an item is inserted into a sequence.
pub fn expected_after_insert_item(v: &Value, p: &Vec<QuerySegment>, i: usize, new: &Value) -> (r:
    Result<Value, Miss>)
    ensures
        match after_insert_item(v@, segs(p@), i as int, new@) {
            Ok(d) => r is Ok && r->Ok_0@ == d,
            Err(x) => r is Err && r->Err_0 == x,
        },
{
    assert(segs(p@).len() == p@.len());
    match path_value(v, p, p.len()) {
        Ok(Value::Sequence(items)) => {
            let mut out: Vec<Value> = Vec::new();
            let mut k: usize = 0;
            proof {
                lists_are_pointwise(items@);
                lists_are_pointwise(out@);
            }
            if i > items.len() {
                return Err(Miss::Index);
            }
            while k < i
                invariant
                    k <= i <= items@.len(),
                    list(items@).len() == items@.len(),
                    forall|j: int|
                        0 <= j < items@.len() ==> #[trigger] list(items@)[j] == data(items@[j]),
                    list(out@) =~= list(items@).subrange(0, k as int),
                decreases i - k,
            {
                assert(list(items@)[k as int] == data(items@[k as int]));
                let copy: Value = duplicate(&items[k]);
                push_item(&mut out, copy);
                k += 1;
            }
            let copy: Value = duplicate(new);
            push_item(&mut out, copy);
            while k < items.len()
                invariant
                    i <= k <= items@.len(),
                    list(items@).len() == items@.len(),
                    forall|j: int|
                        0 <= j < items@.len() ==> #[trigger] list(items@)[j] == data(items@[j]),
                    list(out@) =~= list(items@).subrange(0, k as int).insert(i as int, new@),
                decreases items@.len() - k,
            {
                assert(list(items@)[k as int] == data(items@[k as int]));
                let copy: Value = duplicate(&items[k]);
                push_item(&mut out, copy);
                k += 1;
            }
            assert(list(out@) =~= list(items@).insert(i as int, new@));
            Ok(replaced(v, p, 0, p.len(), Value::Sequence(out)))
        },
        Ok(_) => Err(Miss::Kind),
        Err(x) => Err(x),
    }
}

/// Length of the sequence at a path.
pub open spec fn length_at(d: Data, p: Seq<Seg>) -> Result<int, Miss> {
    match at(d, p, 0, p.len() as int) {
        Ok(Data::List(v)) => Ok(v.len() as int),
        Ok(_) => Err(Miss::Kind),
        Err(x) => Err(x),
    }
}

/// Length of the sequence at a path.
pub fn sequence_len_at(v: &Value, p: &Vec<QuerySegment>) -> (r: Result<usize, Miss>)
    ensures
        match length_at(v@, segs(p@)) {
            Ok(n) => r is Ok && r->Ok_0 == n,
            Err(x) => r is Err && r->Err_0 == x,
        },
{
    assert(segs(p@).len() == p@.len());
    match path_value(v, p, p.len()) {
        Ok(Value::Sequence(items)) => {
            proof {
                lists_are_pointwise(items@);
            }
            Ok(items.len())
        },
        Ok(_) => Err(Miss::Kind),
        Err(x) => Err(x),
    }
}

} // verus!
