//! Typed values, and what a document's value becomes after an edit.
use crate::text::bytes_eq;
use vstd::prelude::*;
use vstd::string::*;
use vstd::utf8::*;

verus! {

/// A number. Anything that is not a 64-bit integer is kept as it was spelled.
#[derive(Debug, PartialEq)]
pub enum Number {
    Integer(i64),
    Float(String),
}

/// A mapping from string keys, in the order of the source.
#[derive(Debug, PartialEq)]
pub struct Mapping {
    pub entries: Vec<(String, Value)>,
}

/// A value under a tag of its own.
#[derive(Debug, PartialEq)]
pub struct TaggedValue {
    pub tag: String,
    pub value: Value,
}

impl TaggedValue {
    /// The tag.
    pub fn tag(&self) -> (r: &String)
        ensures
            *r == self.tag,
    {
        &self.tag
    }
}

/// A typed value.
#[derive(Debug, PartialEq)]
pub enum Value {
    Null,
    Bool(bool),
    Number(Number),
    String(String),
    Sequence(Vec<Value>),
    Mapping(Mapping),
    Tagged(Box<TaggedValue>),
}

/// The model of a typed value.
pub enum Data {
    Null,
    Bool(bool),
    Int(i64),
    Float(Seq<u8>),
    Text(Seq<u8>),
    List(Seq<Data>),
    Dict(Seq<(Seq<u8>, Data)>),
    Tagged(Seq<u8>, Box<Data>),
}

/// The bytes of a string.
pub open spec fn bytes(s: String) -> Seq<u8> {
    encode_utf8(s@)
}

impl View for Value {
    type V = Data;

    open spec fn view(&self) -> Data {
        data(*self)
    }
}

/// The model of a value.
pub open spec fn data(v: Value) -> Data
    decreases v,
{
    match v {
        Value::Null => Data::Null,
        Value::Bool(b) => Data::Bool(b),
        Value::Number(Number::Integer(i)) => Data::Int(i),
        Value::Number(Number::Float(s)) => Data::Float(bytes(s)),
        Value::String(s) => Data::Text(bytes(s)),
        Value::Sequence(items) => Data::List(list(items@)),
        Value::Mapping(m) => Data::Dict(dict(m.entries@)),
        Value::Tagged(t) => Data::Tagged(bytes(t.tag), Box::new(data(t.value))),
    }
}

/// The model of a list of values.
pub open spec fn list(items: Seq<Value>) -> Seq<Data>
    decreases items,
{
    if items.len() == 0 {
        Seq::empty()
    } else {
        list(items.drop_last()).push(data(items.last()))
    }
}

/// The model of a list of entries.
pub open spec fn dict(entries: Seq<(String, Value)>) -> Seq<(Seq<u8>, Data)>
    decreases entries,
{
    if entries.len() == 0 {
        Seq::empty()
    } else {
        dict(entries.drop_last()).push((bytes(entries.last().0), data(entries.last().1)))
    }
}

impl View for Mapping {
    type V = Seq<(Seq<u8>, Data)>;

    open spec fn view(&self) -> Seq<(Seq<u8>, Data)> {
        dict(self.entries@)
    }
}

/// The model of a list holds the models of its items.
pub proof fn lists_are_pointwise(items: Seq<Value>)
    ensures
        list(items).len() == items.len(),
        forall|i: int| 0 <= i < items.len() ==> #[trigger] list(items)[i] == data(items[i]),
    decreases items.len(),
{
    if items.len() > 0 {
        lists_are_pointwise(items.drop_last());
        assert forall|i: int| 0 <= i < items.len() implies #[trigger] list(items)[i] == data(
            items[i],
        ) by {
            if i < items.len() - 1 {
                assert(list(items.drop_last())[i] == data(items.drop_last()[i]));
            }
        }
    }
}

/// The model of a list of entries holds the models of its entries.
pub proof fn dicts_are_pointwise(entries: Seq<(String, Value)>)
    ensures
        dict(entries).len() == entries.len(),
        forall|i: int|
            0 <= i < entries.len() ==> #[trigger] dict(entries)[i] == (
                bytes(entries[i].0),
                data(entries[i].1),
            ),
    decreases entries.len(),
{
    if entries.len() > 0 {
        dicts_are_pointwise(entries.drop_last());
        assert forall|i: int| 0 <= i < entries.len() implies #[trigger] dict(entries)[i] == (
            bytes(entries[i].0),
            data(entries[i].1),
        ) by {
            if i < entries.len() - 1 {
                assert(dict(entries.drop_last())[i] == (
                    bytes(entries.drop_last()[i].0),
                    data(entries.drop_last()[i].1),
                ));
            }
        }
    }
}

proof fn list_push(items: Seq<Value>, v: Value)
    ensures
        list(items.push(v)) == list(items).push(data(v)),
{
    assert(items.push(v).drop_last() =~= items);
}

proof fn dict_push(entries: Seq<(String, Value)>, e: (String, Value))
    ensures
        dict(entries.push(e)) == dict(entries).push((bytes(e.0), data(e.1))),
{
    assert(entries.push(e).drop_last() =~= entries);
}

/// Appends an item.
pub fn push_item(items: &mut Vec<Value>, v: Value)
    ensures
        list(final(items)@) == list(old(items)@).push(v@),
        final(items)@.len() == old(items)@.len() + 1,
{
    proof {
        list_push(items@, v);
    }
    items.push(v);
}

/// Appends an entry.
pub fn push_entry(entries: &mut Vec<(String, Value)>, k: String, v: Value)
    ensures
        dict(final(entries)@) == dict(old(entries)@).push((bytes(k), v@)),
        final(entries)@.len() == old(entries)@.len() + 1,
{
    proof {
        dict_push(entries@, (k, v));
    }
    entries.push((k, v));
}

/// A copy of a string.
pub fn same_string(s: &String) -> (r: String)
    ensures
        r@ == s@,
        bytes(r) == bytes(*s),
{
    s.clone()
}

/// Whether two strings are equal.
pub fn strings_eq(a: &String, b: &String) -> (r: bool)
    ensures
        r == (bytes(*a) == bytes(*b)),
{
    bytes_eq(a.as_str().as_bytes(), b.as_str().as_bytes())
}

/// A deep copy of a value.
pub fn duplicate(v: &Value) -> (r: Value)
    ensures
        r@ == v@,
    decreases v,
{
    match v {
        Value::Null => Value::Null,
        Value::Bool(b) => Value::Bool(*b),
        Value::Number(Number::Integer(i)) => Value::Number(Number::Integer(*i)),
        Value::Number(Number::Float(s)) => Value::Number(Number::Float(same_string(s))),
        Value::String(s) => Value::String(same_string(s)),
        Value::Sequence(items) => {
            let mut out: Vec<Value> = Vec::new();
            let mut i: usize = 0;
            while i < items.len()
                invariant
                    i <= items@.len(),
                    decreases_to!(v => items),
                    list(out@) == list(items@.subrange(0, i as int)),
                decreases items@.len() - i,
            {
                proof {
                    list_push(items@.subrange(0, i as int), items@[i as int]);
                    assert(items@.subrange(0, i + 1) =~= items@.subrange(0, i as int).push(
                        items@[i as int],
                    ));
                }
                let copy: Value = duplicate(&items[i]);
                push_item(&mut out, copy);
                i += 1;
            }
            assert(items@.subrange(0, items@.len() as int) =~= items@);
            Value::Sequence(out)
        },
        Value::Mapping(m) => Value::Mapping(duplicate_mapping(m)),
        Value::Tagged(t) => Value::Tagged(
            Box::new(TaggedValue { tag: same_string(&t.tag), value: duplicate(&t.value) }),
        ),
    }
}

/// A deep copy of a mapping.
pub fn duplicate_mapping(m: &Mapping) -> (r: Mapping)
    ensures
        r@ == m@,
    decreases m,
{
    let mut out: Vec<(String, Value)> = Vec::new();
    let mut i: usize = 0;
    while i < m.entries.len()
        invariant
            i <= m.entries@.len(),
            dict(out@) == dict(m.entries@.subrange(0, i as int)),
        decreases m.entries@.len() - i,
    {
        proof {
            dict_push(m.entries@.subrange(0, i as int), m.entries@[i as int]);
            assert(m.entries@.subrange(0, i + 1) =~= m.entries@.subrange(0, i as int).push(
                m.entries@[i as int],
            ));
        }
        let (k, v) = &m.entries[i];
        let key: String = same_string(k);
        let copy: Value = duplicate(v);
        push_entry(&mut out, key, copy);
        i += 1;
    }
    assert(m.entries@.subrange(0, m.entries@.len() as int) =~= m.entries@);
    Mapping { entries: out }
}

/// Whether two values are equal, the order of mapping entries taken into
/// account.
pub fn same(a: &Value, b: &Value) -> (r: bool)
    ensures
        r == (a@ == b@),
    decreases a,
{
    match (a, b) {
        (Value::Null, Value::Null) => true,
        (Value::Bool(x), Value::Bool(y)) => *x == *y,
        (Value::Number(Number::Integer(x)), Value::Number(Number::Integer(y))) => *x == *y,
        (Value::Number(Number::Float(x)), Value::Number(Number::Float(y))) => strings_eq(x, y),
        (Value::String(x), Value::String(y)) => strings_eq(x, y),
        (Value::Sequence(x), Value::Sequence(y)) => {
            proof {
                lists_are_pointwise(x@);
                lists_are_pointwise(y@);
            }
            if x.len() != y.len() {
                return false;
            }
            let mut i: usize = 0;
            while i < x.len()
                invariant
                    i <= x@.len(),
                    x@.len() == y@.len(),
                    decreases_to!(a => x),
                    list(x@).len() == x@.len(),
                    list(y@).len() == y@.len(),
                    forall|k: int|
                        0 <= k < x@.len() ==> #[trigger] list(x@)[k] == data(x@[k]),
                    forall|k: int|
                        0 <= k < y@.len() ==> #[trigger] list(y@)[k] == data(y@[k]),
                    forall|k: int| 0 <= k < i ==> #[trigger] list(x@)[k] == list(y@)[k],
                    *a == Value::Sequence(*x),
                    *b == Value::Sequence(*y),
                decreases x@.len() - i,
            {
                if !same(&x[i], &y[i]) {
                    assert(list(x@)[i as int] != list(y@)[i as int]);
                    return false;
                }
                assert(list(x@)[i as int] == list(y@)[i as int]);
                i += 1;
            }
            assert(list(x@) =~= list(y@));
            true
        },
        (Value::Mapping(x), Value::Mapping(y)) => same_mapping(x, y),
        (Value::Tagged(x), Value::Tagged(y)) => {
            let tags: bool = strings_eq(&x.tag, &y.tag);
            let values: bool = same(&x.value, &y.value);
            tags && values
        },
        _ => false,
    }
}

/// Whether two mappings have the same entries in the same order.
pub fn same_mapping(x: &Mapping, y: &Mapping) -> (r: bool)
    ensures
        r == (x@ == y@),
    decreases x,
{
    proof {
        dicts_are_pointwise(x.entries@);
        dicts_are_pointwise(y.entries@);
    }
    if x.entries.len() != y.entries.len() {
        return false;
    }
    let mut i: usize = 0;
    while i < x.entries.len()
        invariant
            i <= x.entries@.len(),
            x.entries@.len() == y.entries@.len(),
            x@.len() == x.entries@.len(),
            y@.len() == y.entries@.len(),
            forall|k: int|
                0 <= k < x.entries@.len() ==> #[trigger] x@[k] == (
                    bytes(x.entries@[k].0),
                    data(x.entries@[k].1),
                ),
            forall|k: int|
                0 <= k < y.entries@.len() ==> #[trigger] y@[k] == (
                    bytes(y.entries@[k].0),
                    data(y.entries@[k].1),
                ),
            forall|k: int| 0 <= k < i ==> #[trigger] x@[k] == y@[k],
        decreases x.entries@.len() - i,
    {
        let (k, v) = &x.entries[i];
        let (l, w) = &y.entries[i];
        if !strings_eq(k, l) || !same(v, w) {
            assert(x@[i as int] != y@[i as int]);
            return false;
        }
        assert(x@[i as int] == y@[i as int]);
        i += 1;
    }
    assert(x@ =~= y@);
    true
}

/// Index of the entry with the given key, from `i` on.
pub open spec fn find_from(m: Seq<(Seq<u8>, Data)>, key: Seq<u8>, i: int) -> Option<int>
    decreases m.len() - i,
{
    if i >= m.len() {
        None
    } else if m[i].0 == key {
        Some(i)
    } else {
        find_from(m, key, i + 1)
    }
}

/// Index of the entry with the given key.
pub open spec fn find(m: Seq<(Seq<u8>, Data)>, key: Seq<u8>) -> Option<int> {
    find_from(m, key, 0)
}

/// What is found lies in the mapping and has the key; what is not found is
/// not there.
pub proof fn find_is_exact(m: Seq<(Seq<u8>, Data)>, key: Seq<u8>, i: int)
    requires
        0 <= i <= m.len(),
    ensures
        match find_from(m, key, i) {
            Some(k) => i <= k < m.len() && m[k].0 == key && forall|j: int|
                i <= j < k ==> (#[trigger] m[j]).0 != key,
            None => forall|j: int| i <= j < m.len() ==> (#[trigger] m[j]).0 != key,
        },
    decreases m.len() - i,
{
    if i < m.len() && m[i].0 != key {
        find_is_exact(m, key, i + 1);
    }
}

impl Mapping {
    /// Index of the entry with the given key.
    pub fn position(&self, key: &[u8]) -> (r: Option<usize>)
        ensures
            match find(self@, key@) {
                Some(i) => r is Some && r->0 == i && 0 <= i < self.entries@.len(),
                None => r is None,
            },
    {
        proof {
            dicts_are_pointwise(self.entries@);
        }
        let mut i: usize = 0;
        while i < self.entries.len()
            invariant
                i <= self.entries@.len(),
                self@.len() == self.entries@.len(),
                forall|k: int|
                    0 <= k < self.entries@.len() ==> #[trigger] self@[k] == (
                        bytes(self.entries@[k].0),
                        data(self.entries@[k].1),
                    ),
                find_from(self@, key@, i as int) == find(self@, key@),
            decreases self.entries@.len() - i,
        {
            let (k, v) = &self.entries[i];
            assert(self@[i as int].0 == bytes(*k));
            if bytes_eq(k.as_str().as_bytes(), key) {
                return Some(i);
            }
            i += 1;
        }
        None
    }

    /// The value under a key.
    pub fn get(&self, key: &str) -> (r: Option<&Value>)
        ensures
            match find(self@, key.spec_bytes()) {
                Some(i) => r is Some && r->0@ == self@[i].1,
                None => r is None,
            },
    {
        proof {
            dicts_are_pointwise(self.entries@);
        }
        match self.position(key.as_bytes()) {
            Some(i) => {
                assert(self@[i as int].1 == data(self.entries@[i as int].1));
                Some(&self.entries[i].1)
            },
            None => None,
        }
    }

    /// How many entries the mapping has.
    pub fn len(&self) -> (r: usize)
        ensures
            r == self@.len(),
    {
        proof {
            dicts_are_pointwise(self.entries@);
        }
        self.entries.len()
    }

    /// Whether the mapping has no entry.
    pub fn is_empty(&self) -> (r: bool)
        ensures
            r == (self@.len() == 0),
    {
        proof {
            dicts_are_pointwise(self.entries@);
        }
        self.entries.len() == 0
    }
}

impl Value {
    /// The text of a string value.
    pub fn as_str(&self) -> (r: Option<&str>)
        ensures
            match self@ {
                Data::Text(t) => r is Some && r->0.spec_bytes() == t,
                _ => r is None,
            },
    {
        match self {
            Value::String(s) => Some(s.as_str()),
            _ => None,
        }
    }

    /// The number of an integer value.
    pub fn as_i64(&self) -> (r: Option<i64>)
        ensures
            match self@ {
                Data::Int(i) => r == Some(i),
                _ => r is None,
            },
    {
        match self {
            Value::Number(Number::Integer(i)) => Some(*i),
            _ => None,
        }
    }

    /// The mapping of a mapping value.
    pub fn as_mapping(&self) -> (r: Option<&Mapping>)
        ensures
            match self@ {
                Data::Dict(m) => r is Some && r->0@ == m,
                _ => r is None,
            },
    {
        match self {
            Value::Mapping(m) => Some(m),
            _ => None,
        }
    }

    /// The items of a sequence value.
    pub fn as_sequence(&self) -> (r: Option<&Vec<Value>>)
        ensures
            match self@ {
                Data::List(l) => r is Some && list(r->0@) == l,
                _ => r is None,
            },
    {
        match self {
            Value::Sequence(v) => Some(v),
            _ => None,
        }
    }

    /// Whether the value is a sequence.
    pub fn is_sequence(&self) -> (r: bool)
        ensures
            r == (self@ is List),
    {
        matches!(self, Value::Sequence(_))
    }

    /// The tagged value of a value under a tag.
    pub fn as_tagged(&self) -> (r: Option<&TaggedValue>)
        ensures
            match self@ {
                Data::Tagged(t, d) => r is Some && bytes(r->0.tag) == t && r->0.value@ == *d,
                _ => r is None,
            },
    {
        match self {
            Value::Tagged(t) => Some(t),
            _ => None,
        }
    }

    /// The value under a key of a mapping value.
    pub fn get(&self, key: &str) -> (r: Option<&Value>)
        ensures
            match self@ {
                Data::Dict(m) => match find(m, key.spec_bytes()) {
                    Some(i) => r is Some && r->0@ == m[i].1,
                    None => r is None,
                },
                _ => r is None,
            },
    {
        match self {
            Value::Mapping(m) => m.get(key),
            _ => None,
        }
    }
}

impl From<i64> for Value {
    fn from(i: i64) -> (r: Value) {
        Value::Number(Number::Integer(i))
    }
}

impl vstd::std_specs::convert::FromSpecImpl<i64> for Value {
    open spec fn obeys_from_spec() -> bool {
        true
    }

    open spec fn from_spec(i: i64) -> Value {
        Value::Number(Number::Integer(i))
    }
}

} // verus!
