//! What the collections of a text denote.
use crate::config::ParserConfig;
use crate::load::{
    absorbed, absorbed_all, anchor_before, anchored_end, flow_items, flow_pairs, items, key_text,
    load, merged, pairs, plain_key, single_pair, tree_value, with_member, SpanKind, SpanNode,
};
use crate::siblings::{content, first_of, next, steps_to, vacant};
use crate::styles::{kinds_are_counted, of_kind};
use crate::syntax::{Elem, SyntaxKind};
use crate::value::{find, find_is_exact, Data};
use vstd::prelude::*;
use vstd::string::*;

verus! {

/// A key with its value in a syntax tree: the key is spelled by the elements
/// `lo..colon`, the value by `from..to`.
pub struct Member {
    pub lo: int,
    pub colon: int,
    pub from: int,
    pub to: int,
}

/// Whether the elements `from..to` spell the value `d`.
#[verifier::opaque]
pub open spec fn spells(s: Seq<u8>, t: Seq<Elem>, max: int, from: int, to: int, d: Data) -> bool {
    exists|used: int, acc: Seq<SpanNode>| #[trigger]
        load(s, t, from, to, max, used, acc) is Ok && load(s, t, from, to, max, used, acc)->Ok_0.0
            == d
}

proof fn loading_spells(
    s: Seq<u8>,
    t: Seq<Elem>,
    max: int,
    from: int,
    to: int,
    used: int,
    acc: Seq<SpanNode>,
)
    requires
        load(s, t, from, to, max, used, acc) is Ok,
    ensures
        spells(s, t, max, from, to, load(s, t, from, to, max, used, acc)->Ok_0.0),
{
    reveal(spells);
}

/// The key of a member.
pub open spec fn key_of(s: Seq<u8>, t: Seq<Elem>, m: Member) -> Seq<u8> {
    key_text(s, t, m.lo, m.colon)->Ok_0.0
}

/// Whether a member merges its value into the mapping it is in.
pub open spec fn merges_in(s: Seq<u8>, t: Seq<Elem>, m: Member) -> bool {
    plain_key(t, m.lo, m.colon) && key_of(s, t, m) == "<<".spec_bytes()
}

/// Whether a member has the given key, and is no merge.
pub open spec fn has_key(s: Seq<u8>, t: Seq<Elem>, m: Member, key: Seq<u8>) -> bool {
    !merges_in(s, t, m) && key_of(s, t, m) == key
}

/// Whether member `q` is the last one with the key.
pub open spec fn is_last(s: Seq<u8>, t: Seq<Elem>, ms: Seq<Member>, q: int, key: Seq<u8>) -> bool {
    &&& 0 <= q < ms.len()
    &&& has_key(s, t, ms[q], key)
    &&& forall|r: int| q < r < ms.len() ==> !has_key(s, t, #[trigger] ms[r], key)
}

/// Whether the first member with key `a` comes before every one with key `b`.
pub open spec fn comes_before(
    s: Seq<u8>,
    t: Seq<Elem>,
    ms: Seq<Member>,
    a: Seq<u8>,
    b: Seq<u8>,
) -> bool {
    exists|q: int|
        0 <= q < ms.len() && has_key(s, t, #[trigger] ms[q], a) && forall|r: int|
            0 <= r <= q ==> !has_key(s, t, #[trigger] ms[r], b)
}

/// Whether the value of the last member with the key is `d`.
pub open spec fn last_value(
    s: Seq<u8>,
    t: Seq<Elem>,
    max: int,
    ms: Seq<Member>,
    key: Seq<u8>,
    d: Data,
) -> bool {
    exists|q: int| #[trigger]
        is_last(s, t, ms, q, key) && spells(s, t, max, ms[q].from, ms[q].to, d)
}

/// The members that merge their value in.
pub open spec fn merging(s: Seq<u8>, t: Seq<Elem>, ms: Seq<Member>) -> Seq<Member> {
    ms.filter(|m: Member| merges_in(s, t, m))
}

/// Whether every member has its key among the entries.
pub open spec fn keys_are_there(
    s: Seq<u8>,
    t: Seq<Elem>,
    ms: Seq<Member>,
    m: Seq<(Seq<u8>, Data)>,
) -> bool {
    forall|q: int|
        0 <= q < ms.len() ==> merges_in(s, t, #[trigger] ms[q]) || holds_key(m, key_of(s, t, ms[q]))
}

/// Whether every entry has the value that its key is given last.
pub open spec fn values_are_last(
    s: Seq<u8>,
    t: Seq<Elem>,
    max: int,
    ms: Seq<Member>,
    m: Seq<(Seq<u8>, Data)>,
) -> bool {
    forall|x: int|
        0 <= x < m.len() ==> last_value(s, t, max, ms, (#[trigger] m[x]).0, m[x].1)
}

/// Whether the entries have different keys, in the order in which they are met
/// first.
pub open spec fn keys_are_in_order(
    s: Seq<u8>,
    t: Seq<Elem>,
    ms: Seq<Member>,
    m: Seq<(Seq<u8>, Data)>,
) -> bool {
    forall|x: int, y: int|
        0 <= x < y < m.len() ==> (#[trigger] m[x]).0 != (#[trigger] m[y]).0 && comes_before(
            s,
            t,
            ms,
            m[x].0,
            m[y].0,
        )
}

/// Whether the values are those of the members that merge theirs in.
pub open spec fn values_are_merged(
    s: Seq<u8>,
    t: Seq<Elem>,
    max: int,
    ms: Seq<Member>,
    merges: Seq<Data>,
) -> bool {
    &&& merges.len() == merging(s, t, ms).len()
    &&& forall|r: int|
        0 <= r < merges.len() ==> spells(
            s,
            t,
            max,
            merging(s, t, ms)[r].from,
            merging(s, t, ms)[r].to,
            #[trigger] merges[r],
        )
}

/// Whether the entries are those that the members spell: each key once, in the
/// order in which they are met first, with the value that is met last; and
/// whether `merges` are the values to merge in.
pub open spec fn entries_of(
    s: Seq<u8>,
    t: Seq<Elem>,
    max: int,
    ms: Seq<Member>,
    m: Seq<(Seq<u8>, Data)>,
    merges: Seq<Data>,
) -> bool {
    &&& keys_are_there(s, t, ms, m)
    &&& values_are_last(s, t, max, ms, m)
    &&& keys_are_in_order(s, t, ms, m)
    &&& values_are_merged(s, t, max, ms, merges)
}

proof fn merging_grows(s: Seq<u8>, t: Seq<Elem>, ms: Seq<Member>, one: Member)
    ensures
        merging(s, t, ms.push(one)) == if merges_in(s, t, one) {
            merging(s, t, ms).push(one)
        } else {
            merging(s, t, ms)
        },
{
    reveal(Seq::filter);
    assert(ms.push(one).drop_last() =~= ms);
}

/// Whether `m2` is `m` after one more member with the value `d`.
spec fn one_more(
    s: Seq<u8>,
    t: Seq<Elem>,
    one: Member,
    d: Data,
    m: Seq<(Seq<u8>, Data)>,
    m2: Seq<(Seq<u8>, Data)>,
) -> bool {
    if merges_in(s, t, one) {
        m2 == m
    } else {
        match find(m, key_of(s, t, one)) {
            Some(i) => m2 == m.update(i, (key_of(s, t, one), d)),
            None => m2 == m.push((key_of(s, t, one), d)),
        }
    }
}

proof fn keys_stay_there(
    s: Seq<u8>,
    t: Seq<Elem>,
    ms: Seq<Member>,
    one: Member,
    d: Data,
    m: Seq<(Seq<u8>, Data)>,
    m2: Seq<(Seq<u8>, Data)>,
)
    requires
        keys_are_there(s, t, ms, m),
        one_more(s, t, one, d, m, m2),
    ensures
        keys_are_there(s, t, ms.push(one), m2),
{
    let key = key_of(s, t, one);
    let ns = ms.push(one);
    find_is_exact(m, key, 0);
    assert forall|q: int| 0 <= q < ns.len() implies merges_in(s, t, #[trigger] ns[q]) || holds_key(
        m2,
        key_of(s, t, ns[q]),
    ) by {
        if q < ms.len() {
            assert(ns[q] == ms[q]);
            if !merges_in(s, t, ms[q]) {
                let x = choose|x: int|
                    0 <= x < m.len() && (#[trigger] m[x]).0 == key_of(s, t, ms[q]);
                assert(m2[x].0 == m[x].0);
            }
        } else if !merges_in(s, t, one) {
            match find(m, key) {
                Some(i) => {
                    assert(m2[i].0 == key);
                },
                None => {
                    assert(m2[m.len() as int].0 == key);
                },
            }
        }
    }
}

proof fn values_stay_last(
    s: Seq<u8>,
    t: Seq<Elem>,
    max: int,
    ms: Seq<Member>,
    one: Member,
    d: Data,
    m: Seq<(Seq<u8>, Data)>,
    m2: Seq<(Seq<u8>, Data)>,
)
    requires
        values_are_last(s, t, max, ms, m),
        keys_are_in_order(s, t, ms, m),
        one_more(s, t, one, d, m, m2),
        spells(s, t, max, one.from, one.to, d),
    ensures
        values_are_last(s, t, max, ms.push(one), m2),
{
    let key = key_of(s, t, one);
    let ns = ms.push(one);
    let last = ms.len() as int;
    find_is_exact(m, key, 0);
    assert(ns[last] == one);
    assert forall|x: int| 0 <= x < m2.len() implies last_value(
        s,
        t,
        max,
        ns,
        (#[trigger] m2[x]).0,
        m2[x].1,
    ) by {
        if has_key(s, t, one, m2[x].0) {
            assert(is_last(s, t, ns, last, m2[x].0));
            if x < m.len() {
                assert(m[x].0 == m2[x].0);
                let i = find(m, key)->0;
                assert(m[i].0 == m[x].0);
                assert(i == x);
            }
            assert(m2[x].1 == d);
        } else {
            assert(x < m.len());
            assert(m[x] == m2[x]);
            assert(last_value(s, t, max, ms, m[x].0, m[x].1));
            let q = choose|q: int| #[trigger]
                is_last(s, t, ms, q, m[x].0) && spells(s, t, max, ms[q].from, ms[q].to, m[x].1);
            assert(ns[q] == ms[q]);
            assert(is_last(s, t, ns, q, m2[x].0));
        }
    }
}

proof fn order_stays(
    s: Seq<u8>,
    t: Seq<Elem>,
    ms: Seq<Member>,
    one: Member,
    a: Seq<u8>,
    b: Seq<u8>,
)
    requires
        comes_before(s, t, ms, a, b),
    ensures
        comes_before(s, t, ms.push(one), a, b),
{
    let ns = ms.push(one);
    let q = choose|q: int|
        0 <= q < ms.len() && has_key(s, t, #[trigger] ms[q], a) && forall|r: int|
            0 <= r <= q ==> !has_key(s, t, #[trigger] ms[r], b);
    assert(has_key(s, t, ns[q], a));
    assert forall|r: int| 0 <= r <= q implies !has_key(s, t, #[trigger] ns[r], b) by {
        assert(ns[r] == ms[r]);
    }
}

proof fn new_keys_come_last(
    s: Seq<u8>,
    t: Seq<Elem>,
    max: int,
    ms: Seq<Member>,
    one: Member,
    m: Seq<(Seq<u8>, Data)>,
    x: int,
)
    requires
        keys_are_there(s, t, ms, m),
        values_are_last(s, t, max, ms, m),
        0 <= x < m.len(),
        !holds_key(m, key_of(s, t, one)),
    ensures
        comes_before(s, t, ms.push(one), m[x].0, key_of(s, t, one)),
{
    let ns = ms.push(one);
    let key = key_of(s, t, one);
    assert(last_value(s, t, max, ms, m[x].0, m[x].1));
    let q = choose|q: int| #[trigger]
        is_last(s, t, ms, q, m[x].0) && spells(s, t, max, ms[q].from, ms[q].to, m[x].1);
    assert(has_key(s, t, ns[q], m[x].0));
    assert forall|r: int| 0 <= r <= q implies !has_key(s, t, #[trigger] ns[r], key) by {
        assert(ns[r] == ms[r]);
    }
}

proof fn keys_stay_in_order(
    s: Seq<u8>,
    t: Seq<Elem>,
    max: int,
    ms: Seq<Member>,
    one: Member,
    d: Data,
    m: Seq<(Seq<u8>, Data)>,
    m2: Seq<(Seq<u8>, Data)>,
)
    requires
        keys_are_there(s, t, ms, m),
        values_are_last(s, t, max, ms, m),
        keys_are_in_order(s, t, ms, m),
        one_more(s, t, one, d, m, m2),
    ensures
        keys_are_in_order(s, t, ms.push(one), m2),
{
    let key = key_of(s, t, one);
    let ns = ms.push(one);
    find_is_exact(m, key, 0);
    assert forall|x: int, y: int| 0 <= x < y < m2.len() implies (#[trigger] m2[x]).0 != (
    #[trigger] m2[y]).0 && comes_before(s, t, ns, m2[x].0, m2[y].0) by {
        assert(m2[x].0 == m[x].0);
        if y < m.len() {
            assert(m2[y].0 == m[y].0);
            order_stays(s, t, ms, one, m[x].0, m[y].0);
        } else {
            assert(m2[y].0 == key);
            assert(!holds_key(m, key));
            new_keys_come_last(s, t, max, ms, one, m, x);
        }
    }
}

proof fn one_more_entry(
    s: Seq<u8>,
    t: Seq<Elem>,
    max: int,
    ms: Seq<Member>,
    one: Member,
    m: Seq<(Seq<u8>, Data)>,
    merges: Seq<Data>,
    d: Data,
    m2: Seq<(Seq<u8>, Data)>,
    merges2: Seq<Data>,
)
    requires
        entries_of(s, t, max, ms, m, merges),
        spells(s, t, max, one.from, one.to, d),
        one_more(s, t, one, d, m, m2),
        merges2 == if merges_in(s, t, one) {
            merges.push(d)
        } else {
            merges
        },
    ensures
        entries_of(s, t, max, ms.push(one), m2, merges2),
{
    keys_stay_there(s, t, ms, one, d, m, m2);
    values_stay_last(s, t, max, ms, one, d, m, m2);
    keys_stay_in_order(s, t, max, ms, one, d, m, m2);
    merging_grows(s, t, ms, one);
    assert forall|r: int| 0 <= r < merges2.len() implies spells(
        s,
        t,
        max,
        merging(s, t, ms.push(one))[r].from,
        merging(s, t, ms.push(one))[r].to,
        #[trigger] merges2[r],
    ) by {
        if r < merges.len() {
            assert(merges2[r] == merges[r]);
        }
    }
}

proof fn one_more_member(
    s: Seq<u8>,
    t: Seq<Elem>,
    max: int,
    used: int,
    ms: Seq<Member>,
    one: Member,
    m: Seq<(Seq<u8>, Data)>,
    trees: Seq<Seq<SpanNode>>,
    merges: Seq<Data>,
)
    requires
        entries_of(s, t, max, ms, m, merges),
        with_member(
            m,
            trees,
            merges,
            key_text(s, t, one.lo, one.colon),
            plain_key(t, one.lo, one.colon),
            load(s, t, one.from, one.to, max, used, Seq::empty()),
        ) is Ok,
    ensures
        ({
            let (m2, _, merges2, _) = with_member(
                m,
                trees,
                merges,
                key_text(s, t, one.lo, one.colon),
                plain_key(t, one.lo, one.colon),
                load(s, t, one.from, one.to, max, used, Seq::empty()),
            )->Ok_0;
            entries_of(s, t, max, ms.push(one), m2, merges2)
        }),
{
    let d = load(s, t, one.from, one.to, max, used, Seq::empty())->Ok_0.0;
    let (m2, _, merges2, _) = with_member(
        m,
        trees,
        merges,
        key_text(s, t, one.lo, one.colon),
        plain_key(t, one.lo, one.colon),
        load(s, t, one.from, one.to, max, used, Seq::empty()),
    )->Ok_0;
    loading_spells(s, t, max, one.from, one.to, used, Seq::empty());
    one_more_entry(s, t, max, ms, one, m, merges, d, m2, merges2);
}

/// The entries among the siblings `i..hi`, in their order.
pub open spec fn block_members(t: Seq<Elem>, i: int, hi: int) -> Seq<Member>
    decreases hi - i,
{
    let end = next(t, i);
    if !steps_to(t, i, hi) {
        Seq::empty()
    } else if t[i].kind != SyntaxKind::MappingEntry {
        block_members(t, end, hi)
    } else {
        let colon = first_of(t, i + 1, end, SyntaxKind::ColonIndicator);
        let from = if colon < end {
            colon + 1
        } else {
            end
        };
        seq![Member { lo: i + 1, colon, from, to: end }] + block_members(t, end, hi)
    }
}

proof fn block_entries_are_read(
    s: Seq<u8>,
    t: Seq<Elem>,
    i: int,
    hi: int,
    max: int,
    used: int,
    m: Seq<(Seq<u8>, Data)>,
    trees: Seq<Seq<SpanNode>>,
    merges: Seq<Data>,
    ms: Seq<Member>,
)
    requires
        entries_of(s, t, max, ms, m, merges),
        pairs(s, t, i, hi, max, used, m, trees, merges) is Ok,
    ensures
        ({
            let (x, _, y, _) = pairs(s, t, i, hi, max, used, m, trees, merges)->Ok_0;
            entries_of(s, t, max, ms + block_members(t, i, hi), x, y)
        }),
    decreases hi - i,
{
    let end = next(t, i);
    if !steps_to(t, i, hi) {
        assert(ms + block_members(t, i, hi) =~= ms);
    } else if t[i].kind != SyntaxKind::MappingEntry {
        block_entries_are_read(s, t, end, hi, max, used, m, trees, merges, ms);
    } else {
        let colon = first_of(t, i + 1, end, SyntaxKind::ColonIndicator);
        let from = if colon < end {
            colon + 1
        } else {
            end
        };
        let one = Member { lo: i + 1, colon, from, to: end };
        one_more_member(s, t, max, used, ms, one, m, trees, merges);
        let (m2, trees2, merges2, u) = with_member(
            m,
            trees,
            merges,
            key_text(s, t, one.lo, one.colon),
            plain_key(t, one.lo, one.colon),
            load(s, t, one.from, one.to, max, used, Seq::empty()),
        )->Ok_0;
        block_entries_are_read(s, t, end, hi, max, u, m2, trees2, merges2, ms.push(one));
        assert(ms + block_members(t, i, hi) =~= ms.push(one) + block_members(t, end, hi));
    }
}

/// The members of a flow mapping in `i..close`, in their order: what stands
/// between its commas.
pub open spec fn flow_members(t: Seq<Elem>, i: int, close: int) -> Seq<Member>
    decreases close - i,
{
    let comma = first_of(t, i, close, SyntaxKind::CommaIndicator);
    if i >= close || vacant(t, i, comma) || !(i <= comma <= close) {
        Seq::empty()
    } else {
        let colon = first_of(t, i, comma, SyntaxKind::ColonIndicator);
        let from = if colon < comma {
            colon + 1
        } else {
            comma
        };
        seq![Member { lo: i, colon, from, to: comma }] + if comma < close {
            flow_members(t, comma + 1, close)
        } else {
            Seq::empty()
        }
    }
}

proof fn flow_entries_are_read(
    s: Seq<u8>,
    t: Seq<Elem>,
    i: int,
    close: int,
    max: int,
    used: int,
    m: Seq<(Seq<u8>, Data)>,
    trees: Seq<Seq<SpanNode>>,
    merges: Seq<Data>,
    ms: Seq<Member>,
)
    requires
        entries_of(s, t, max, ms, m, merges),
        flow_pairs(s, t, i, close, max, used, m, trees, merges) is Ok,
    ensures
        ({
            let (x, _, y, _) = flow_pairs(s, t, i, close, max, used, m, trees, merges)->Ok_0;
            entries_of(s, t, max, ms + flow_members(t, i, close), x, y)
        }),
    decreases close - i,
{
    let comma = first_of(t, i, close, SyntaxKind::CommaIndicator);
    if i >= close || vacant(t, i, comma) {
        assert(ms + flow_members(t, i, close) =~= ms);
    } else {
        let colon = first_of(t, i, comma, SyntaxKind::ColonIndicator);
        let from = if colon < comma {
            colon + 1
        } else {
            comma
        };
        let one = Member { lo: i, colon, from, to: comma };
        one_more_member(s, t, max, used, ms, one, m, trees, merges);
        let (m2, trees2, merges2, u) = with_member(
            m,
            trees,
            merges,
            key_text(s, t, one.lo, one.colon),
            plain_key(t, one.lo, one.colon),
            load(s, t, one.from, one.to, max, used, Seq::empty()),
        )->Ok_0;
        if comma < close {
            flow_entries_are_read(s, t, comma + 1, close, max, u, m2, trees2, merges2, ms.push(one));
            assert(ms + flow_members(t, i, close) =~= ms.push(one) + flow_members(
                t,
                comma + 1,
                close,
            ));
        } else {
            assert(ms + flow_members(t, i, close) =~= ms.push(one));
        }
    }
}

/// The entries that a list of values to merge in holds, one mapping after the
/// other; `None` when one of them is no mapping.
pub open spec fn given_by(l: Seq<Data>) -> Option<Seq<(Seq<u8>, Data)>>
    decreases l.len(),
{
    if l.len() == 0 {
        Some(Seq::empty())
    } else {
        match (given_by(l.drop_last()), l.last()) {
            (Some(f), Data::Dict(x)) => Some(f + x),
            _ => None,
        }
    }
}

/// The entries that the merges of a mapping give it: each merges one mapping in,
/// or the mappings of a list.
pub open spec fn given(merges: Seq<Data>) -> Option<Seq<(Seq<u8>, Data)>>
    decreases merges.len(),
{
    if merges.len() == 0 {
        Some(Seq::empty())
    } else {
        match (given(merges.drop_last()), merges.last()) {
            (Some(f), Data::Dict(x)) => Some(f + x),
            (Some(f), Data::List(l)) => match given_by(l) {
                Some(x) => Some(f + x),
                None => None,
            },
            _ => None,
        }
    }
}

/// Whether an entry is the first of its name in `f`.
pub open spec fn first_in(f: Seq<(Seq<u8>, Data)>, e: (Seq<u8>, Data)) -> bool {
    exists|i: int|
        0 <= i < f.len() && #[trigger] f[i] == e && forall|j: int|
            0 <= j < i ==> (#[trigger] f[j]).0 != e.0
}

/// Whether a mapping has the key.
pub open spec fn holds_key(m: Seq<(Seq<u8>, Data)>, key: Seq<u8>) -> bool {
    exists|x: int| 0 <= x < m.len() && (#[trigger] m[x]).0 == key
}

/// Whether `all` is `own` with what `f` has beside it: its own entries stay as
/// they are, and each other key takes the first value that `f` has for it.
pub open spec fn filled_up(
    own: Seq<(Seq<u8>, Data)>,
    f: Seq<(Seq<u8>, Data)>,
    all: Seq<(Seq<u8>, Data)>,
) -> bool {
    &&& own.len() <= all.len()
    &&& forall|x: int| 0 <= x < own.len() ==> #[trigger] all[x] == own[x]
    &&& forall|x: int|
        own.len() <= x < all.len() ==> first_in(f, #[trigger] all[x]) && !holds_key(own, all[x].0)
    &&& forall|x: int, y: int|
        own.len() <= x < y < all.len() ==> (#[trigger] all[x]).0 != (#[trigger] all[y]).0
    &&& forall|i: int| 0 <= i < f.len() ==> holds_key(all, (#[trigger] f[i]).0)
}

proof fn filled_up_further(
    own: Seq<(Seq<u8>, Data)>,
    f: Seq<(Seq<u8>, Data)>,
    all: Seq<(Seq<u8>, Data)>,
    from: Seq<(Seq<u8>, Data)>,
    i: int,
)
    requires
        filled_up(own, f, all),
        0 <= i <= from.len(),
    ensures
        filled_up(own, f + from.skip(i), absorbed(all, from, i)),
    decreases from.len() - i,
{
    if i >= from.len() {
        assert(f + from.skip(i) =~= f);
    } else {
        let e = from[i];
        let g = f.push(e);
        find_is_exact(all, e.0, 0);
        assert(f + from.skip(i) =~= g + from.skip(i + 1));
        let more = if find(all, e.0) is None {
            all.push(e)
        } else {
            all
        };
        assert forall|x: int| own.len() <= x < more.len() implies first_in(g, #[trigger] more[x])
            && !holds_key(own, more[x].0) by {
            if x < all.len() {
                assert(first_in(f, all[x]));
                let k = choose|k: int|
                    0 <= k < f.len() && #[trigger] f[k] == all[x] && forall|j: int|
                        0 <= j < k ==> (#[trigger] f[j]).0 != all[x].0;
                assert(g[k] == more[x]);
            } else {
                let k = f.len() as int;
                assert(g[k] == e);
                assert forall|j: int| 0 <= j < k implies (#[trigger] g[j]).0 != e.0 by {
                    assert(holds_key(all, f[j].0));
                }
                if holds_key(own, e.0) {
                    let z = choose|z: int| 0 <= z < own.len() && (#[trigger] own[z]).0 == e.0;
                    assert(all[z].0 == e.0);
                }
            }
        }
        assert forall|k: int| 0 <= k < g.len() implies holds_key(more, (#[trigger] g[k]).0) by {
            if k < f.len() {
                assert(holds_key(all, f[k].0));
                let z = choose|z: int| 0 <= z < all.len() && (#[trigger] all[z]).0 == f[k].0;
                assert(more[z].0 == g[k].0);
            } else if find(all, e.0) is None {
                assert(more[all.len() as int].0 == e.0);
            } else {
                assert(more[find(all, e.0)->0].0 == e.0);
            }
        }
        filled_up_further(own, g, more, from, i + 1);
    }
}

proof fn lists_fill_up(
    own: Seq<(Seq<u8>, Data)>,
    f: Seq<(Seq<u8>, Data)>,
    all: Seq<(Seq<u8>, Data)>,
    l: Seq<Data>,
    i: int,
    g: Seq<(Seq<u8>, Data)>,
)
    requires
        filled_up(own, f + g, all),
        0 <= i <= l.len(),
        given_by(l.take(i)) == Some(g),
    ensures
        (given_by(l) is Some) == (absorbed_all(all, l, i) is Some),
        given_by(l) is Some ==> filled_up(own, f + given_by(l)->0, absorbed_all(all, l, i)->0),
    decreases l.len() - i,
{
    if i >= l.len() {
        assert(l.take(i) =~= l);
    } else {
        let one = l.take(i + 1);
        assert(one.drop_last() =~= l.take(i));
        assert(one.last() == l[i]);
        match l[i] {
            Data::Dict(x) => {
                filled_up_further(own, f + g, all, x, 0);
                assert(x.skip(0) =~= x);
                assert(f + g + x =~= f + (g + x));
                lists_fill_up(own, f, absorbed(all, x, 0), l, i + 1, g + x);
            },
            _ => {
                a_bad_one_spoils_all(l, i + 1);
            },
        }
    }
}

proof fn a_bad_one_spoils_all(l: Seq<Data>, i: int)
    requires
        0 <= i <= l.len(),
        given_by(l.take(i)) is None,
    ensures
        given_by(l) is None,
    decreases l.len() - i,
{
    if i < l.len() {
        assert(l.take(i + 1).drop_last() =~= l.take(i));
        a_bad_one_spoils_all(l, i + 1);
    } else {
        assert(l.take(i) =~= l);
    }
}

proof fn a_bad_merge_spoils_all(l: Seq<Data>, i: int)
    requires
        0 <= i <= l.len(),
        given(l.take(i)) is None,
    ensures
        given(l) is None,
    decreases l.len() - i,
{
    if i < l.len() {
        assert(l.take(i + 1).drop_last() =~= l.take(i));
        a_bad_merge_spoils_all(l, i + 1);
    } else {
        assert(l.take(i) =~= l);
    }
}

proof fn merges_fill_up_from(
    own: Seq<(Seq<u8>, Data)>,
    all: Seq<(Seq<u8>, Data)>,
    merges: Seq<Data>,
    i: int,
    g: Seq<(Seq<u8>, Data)>,
)
    requires
        filled_up(own, g, all),
        0 <= i <= merges.len(),
        given(merges.take(i)) == Some(g),
    ensures
        (given(merges) is Some) == (merged(all, merges, i) is Some),
        given(merges) is Some ==> filled_up(own, given(merges)->0, merged(all, merges, i)->0),
    decreases merges.len() - i,
{
    if i >= merges.len() {
        assert(merges.take(i) =~= merges);
    } else {
        let one = merges.take(i + 1);
        assert(one.drop_last() =~= merges.take(i));
        assert(one.last() == merges[i]);
        match merges[i] {
            Data::Dict(x) => {
                filled_up_further(own, g, all, x, 0);
                assert(x.skip(0) =~= x);
                merges_fill_up_from(own, absorbed(all, x, 0), merges, i + 1, g + x);
            },
            Data::List(l) => {
                assert(l.take(0) =~= Seq::empty());
                assert(g + Seq::empty() =~= g);
                lists_fill_up(own, g, all, l, 0, Seq::empty());
                match given_by(l) {
                    Some(x) => {
                        merges_fill_up_from(own, absorbed_all(all, l, 0)->0, merges, i + 1, g + x);
                    },
                    None => {
                        a_bad_merge_spoils_all(merges, i + 1);
                    },
                }
            },
            _ => {
                a_bad_merge_spoils_all(merges, i + 1);
            },
        }
    }
}

/// Merging adds the keys that a mapping does not have itself, each with the first
/// value it is given, and changes none of its own entries. It fails exactly where
/// something to merge in is neither a mapping nor a list of mappings.
pub proof fn merges_fill_up(own: Seq<(Seq<u8>, Data)>, merges: Seq<Data>)
    ensures
        (given(merges) is Some) == (merged(own, merges, 0) is Some),
        given(merges) is Some ==> filled_up(own, given(merges)->0, merged(own, merges, 0)->0),
{
    assert(merges.take(0) =~= Seq::empty());
    merges_fill_up_from(own, own, merges, 0, Seq::empty());
}

/// A value without the tag it is under.
pub open spec fn untagged(d: Data) -> Data {
    match d {
        Data::Tagged(_, x) => *x,
        _ => d,
    }
}

/// Whether a value is the mapping that the members spell.
pub open spec fn is_mapping_of(s: Seq<u8>, t: Seq<Elem>, max: int, ms: Seq<Member>, d: Data) -> bool {
    untagged(d) matches Data::Dict(all) && exists|own: Seq<(Seq<u8>, Data)>, merges: Seq<Data>|
        #[trigger] entries_of(s, t, max, ms, own, merges) && given(merges) is Some && filled_up(
            own,
            given(merges)->0,
            all,
        )
}

/// A block mapping that loads has the entries that it is written with, and those
/// that its merges give it.
pub proof fn block_mappings_hold_their_entries(
    s: Seq<u8>,
    t: Seq<Elem>,
    lo: int,
    hi: int,
    max: int,
    used: int,
    acc: Seq<SpanNode>,
)
    requires
        load(s, t, lo, hi, max, used, acc) is Ok,
        content(t, lo, hi) < hi,
        t[content(t, lo, hi)].kind == SyntaxKind::BlockMapping,
    ensures
        ({
            let c = content(t, lo, hi);
            is_mapping_of(
                s,
                t,
                max,
                block_members(t, c + 1, next(t, c)),
                load(s, t, lo, hi, max, used, acc)->Ok_0.0,
            )
        }),
{
    let c = content(t, lo, hi);
    let end = next(t, c);
    block_entries_are_read(
        s,
        t,
        c + 1,
        end,
        max,
        used,
        Seq::empty(),
        Seq::empty(),
        Seq::empty(),
        Seq::empty(),
    );
    assert(Seq::<Member>::empty() + block_members(t, c + 1, end) =~= block_members(t, c + 1, end));
    let (own, _, merges, _) = pairs(
        s,
        t,
        c + 1,
        end,
        max,
        used,
        Seq::empty(),
        Seq::empty(),
        Seq::empty(),
    )->Ok_0;
    merges_fill_up(own, merges);
}

/// A flow mapping that loads has the entries that it is written with, and those
/// that its merges give it.
pub proof fn flow_mappings_hold_their_entries(
    s: Seq<u8>,
    t: Seq<Elem>,
    lo: int,
    hi: int,
    max: int,
    used: int,
    acc: Seq<SpanNode>,
)
    requires
        load(s, t, lo, hi, max, used, acc) is Ok,
        content(t, lo, hi) < hi,
        t[content(t, lo, hi)].kind == SyntaxKind::FlowMapping,
    ensures
        ({
            let c = content(t, lo, hi);
            let close = first_of(t, c + 1, next(t, c), SyntaxKind::FlowClose);
            is_mapping_of(
                s,
                t,
                max,
                flow_members(t, c + 2, close),
                load(s, t, lo, hi, max, used, acc)->Ok_0.0,
            )
        }),
{
    let c = content(t, lo, hi);
    let close = first_of(t, c + 1, next(t, c), SyntaxKind::FlowClose);
    flow_entries_are_read(
        s,
        t,
        c + 2,
        close,
        max,
        used,
        Seq::empty(),
        Seq::empty(),
        Seq::empty(),
        Seq::empty(),
    );
    assert(Seq::<Member>::empty() + flow_members(t, c + 2, close) =~= flow_members(t, c + 2, close));
    let (own, _, merges, _) = flow_pairs(
        s,
        t,
        c + 2,
        close,
        max,
        used,
        Seq::empty(),
        Seq::empty(),
        Seq::empty(),
    )->Ok_0;
    merges_fill_up(own, merges);
}

/// Where the values of the items among the siblings `i..hi` stand, in their
/// order.
pub open spec fn block_items(t: Seq<Elem>, i: int, hi: int) -> Seq<(int, int)>
    decreases hi - i,
{
    let end = next(t, i);
    if !steps_to(t, i, hi) {
        Seq::empty()
    } else if t[i].kind != SyntaxKind::SequenceItem {
        block_items(t, end, hi)
    } else {
        let dash = first_of(t, i + 1, end, SyntaxKind::DashIndicator);
        seq![
            (
                if dash < end {
                    dash + 1
                } else {
                    end
                },
                end,
            ),
        ] + block_items(t, end, hi)
    }
}

/// Whether a list holds the values that stand at the given places, one each.
pub open spec fn is_list_of(
    s: Seq<u8>,
    t: Seq<Elem>,
    max: int,
    places: Seq<(int, int)>,
    l: Seq<Data>,
) -> bool {
    &&& l.len() == places.len()
    &&& forall|x: int|
        0 <= x < l.len() ==> spells(s, t, max, places[x].0, places[x].1, #[trigger] l[x])
}

proof fn block_items_are_read(
    s: Seq<u8>,
    t: Seq<Elem>,
    i: int,
    hi: int,
    max: int,
    used: int,
    l: Seq<Data>,
    acc: Seq<SpanNode>,
    places: Seq<(int, int)>,
)
    requires
        is_list_of(s, t, max, places, l),
        items(s, t, i, hi, max, used, l, acc) is Ok,
    ensures
        items(s, t, i, hi, max, used, l, acc)->Ok_0.0 matches Data::List(all) && is_list_of(
            s,
            t,
            max,
            places + block_items(t, i, hi),
            all,
        ),
    decreases hi - i,
{
    let end = next(t, i);
    if !steps_to(t, i, hi) {
        assert(places + block_items(t, i, hi) =~= places);
    } else if t[i].kind != SyntaxKind::SequenceItem {
        block_items_are_read(s, t, end, hi, max, used, l, acc, places);
    } else {
        let dash = first_of(t, i + 1, end, SyntaxKind::DashIndicator);
        let from = if dash < end {
            dash + 1
        } else {
            end
        };
        let (d, spans, u) = load(s, t, from, end, max, used, acc)->Ok_0;
        loading_spells(s, t, max, from, end, used, acc);
        let more = places.push((from, end));
        assert(is_list_of(s, t, max, more, l.push(d)));
        block_items_are_read(s, t, end, hi, max, u, l.push(d), spans, more);
        assert(places + block_items(t, i, hi) =~= more + block_items(t, end, hi));
    }
}

/// A block sequence that loads has one item for each that it is written with, in
/// their order.
pub proof fn block_sequences_hold_their_items(
    s: Seq<u8>,
    t: Seq<Elem>,
    lo: int,
    hi: int,
    max: int,
    used: int,
    acc: Seq<SpanNode>,
)
    requires
        load(s, t, lo, hi, max, used, acc) is Ok,
        content(t, lo, hi) < hi,
        t[content(t, lo, hi)].kind == SyntaxKind::BlockSequence,
    ensures
        ({
            let c = content(t, lo, hi);
            untagged(load(s, t, lo, hi, max, used, acc)->Ok_0.0) matches Data::List(l) && is_list_of(
                s,
                t,
                max,
                block_items(t, c + 1, next(t, c)),
                l,
            )
        }),
{
    let c = content(t, lo, hi);
    let end = next(t, c);
    let e = t[c];
    let inner = acc.push(crate::load::span(SpanKind::List, e.start as int, e.end as int));
    block_items_are_read(s, t, c + 1, end, max, used, Seq::empty(), inner, Seq::empty());
    assert(Seq::<(int, int)>::empty() + block_items(t, c + 1, end) =~= block_items(t, c + 1, end));
}

/// Whether a list holds one item for each member of a flow sequence: a mapping of
/// one entry where the member has a `:`, and otherwise the value it spells.
pub open spec fn is_flow_list_of(
    s: Seq<u8>,
    t: Seq<Elem>,
    max: int,
    ms: Seq<Member>,
    l: Seq<Data>,
) -> bool {
    &&& l.len() == ms.len()
    &&& forall|x: int| 0 <= x < l.len() ==> is_flow_item(s, t, max, ms[x], #[trigger] l[x])
}

/// Whether a value is that of a member of a flow sequence.
pub open spec fn is_flow_item(s: Seq<u8>, t: Seq<Elem>, max: int, m: Member, d: Data) -> bool {
    if m.colon < m.to {
        is_mapping_of(s, t, max, seq![m], d)
    } else {
        spells(s, t, max, m.lo, m.to, d)
    }
}

proof fn single_pairs_are_mappings(
    s: Seq<u8>,
    t: Seq<Elem>,
    max: int,
    used: int,
    one: Member,
    acc: Seq<SpanNode>,
)
    requires
        single_pair(
            key_text(s, t, one.lo, one.colon),
            plain_key(t, one.lo, one.colon),
            load(s, t, one.from, one.to, max, used, Seq::empty()),
            acc,
        ) is Ok,
    ensures
        is_mapping_of(
            s,
            t,
            max,
            seq![one],
            single_pair(
                key_text(s, t, one.lo, one.colon),
                plain_key(t, one.lo, one.colon),
                load(s, t, one.from, one.to, max, used, Seq::empty()),
                acc,
            )->Ok_0.0,
        ),
{
    let none = Seq::<(Seq<u8>, Data)>::empty();
    let p = with_member(
        none,
        Seq::empty(),
        Seq::empty(),
        key_text(s, t, one.lo, one.colon),
        plain_key(t, one.lo, one.colon),
        load(s, t, one.from, one.to, max, used, Seq::empty()),
    );
    assert(merging(s, t, Seq::<Member>::empty()) =~= Seq::empty()) by {
        reveal(Seq::filter);
    }
    one_more_member(s, t, max, used, Seq::empty(), one, none, Seq::empty(), Seq::empty());
    assert(Seq::<Member>::empty().push(one) =~= seq![one]);
    let (own, _, merges, _) = p->Ok_0;
    merges_fill_up(own, merges);
}

proof fn flow_items_are_read(
    s: Seq<u8>,
    t: Seq<Elem>,
    i: int,
    close: int,
    max: int,
    used: int,
    l: Seq<Data>,
    acc: Seq<SpanNode>,
    ms: Seq<Member>,
)
    requires
        is_flow_list_of(s, t, max, ms, l),
        flow_items(s, t, i, close, max, used, l, acc) is Ok,
    ensures
        flow_items(s, t, i, close, max, used, l, acc)->Ok_0.0 matches Data::List(all)
            && is_flow_list_of(s, t, max, ms + flow_members(t, i, close), all),
    decreases close - i,
{
    let comma = first_of(t, i, close, SyntaxKind::CommaIndicator);
    if i >= close || vacant(t, i, comma) {
        assert(ms + flow_members(t, i, close) =~= ms);
    } else {
        let colon = first_of(t, i, comma, SyntaxKind::ColonIndicator);
        let from = if colon < comma {
            colon + 1
        } else {
            comma
        };
        let one = Member { lo: i, colon, from, to: comma };
        let read = if colon < comma {
            single_pair(
                key_text(s, t, i, colon),
                plain_key(t, i, colon),
                load(s, t, colon + 1, comma, max, used, Seq::empty()),
                acc,
            )
        } else {
            load(s, t, i, comma, max, used, acc)
        };
        let (d, spans, u) = read->Ok_0;
        if colon < comma {
            single_pairs_are_mappings(s, t, max, used, one, acc);
        } else {
            loading_spells(s, t, max, i, comma, used, acc);
        }
        assert(is_flow_item(s, t, max, one, d));
        let more = ms.push(one);
        assert(is_flow_list_of(s, t, max, more, l.push(d)));
        if comma < close {
            flow_items_are_read(s, t, comma + 1, close, max, u, l.push(d), spans, more);
            assert(ms + flow_members(t, i, close) =~= more + flow_members(t, comma + 1, close));
        } else {
            assert(ms + flow_members(t, i, close) =~= more);
        }
    }
}

/// A flow sequence that loads has one item for each that it is written with, in
/// their order.
pub proof fn flow_sequences_hold_their_items(
    s: Seq<u8>,
    t: Seq<Elem>,
    lo: int,
    hi: int,
    max: int,
    used: int,
    acc: Seq<SpanNode>,
)
    requires
        load(s, t, lo, hi, max, used, acc) is Ok,
        content(t, lo, hi) < hi,
        t[content(t, lo, hi)].kind == SyntaxKind::FlowSequence,
    ensures
        ({
            let c = content(t, lo, hi);
            let close = first_of(t, c + 1, next(t, c), SyntaxKind::FlowClose);
            untagged(load(s, t, lo, hi, max, used, acc)->Ok_0.0) matches Data::List(l)
                && is_flow_list_of(s, t, max, flow_members(t, c + 2, close), l)
        }),
{
    let c = content(t, lo, hi);
    let close = first_of(t, c + 1, next(t, c), SyntaxKind::FlowClose);
    let e = t[c];
    let inner = acc.push(crate::load::span(SpanKind::List, e.start as int, e.end as int));
    flow_items_are_read(s, t, c + 2, close, max, used, Seq::empty(), inner, Seq::empty());
    assert(Seq::<Member>::empty() + flow_members(t, c + 2, close) =~= flow_members(t, c + 2, close));
}

/// An alias that loads stands for the value behind the last anchor of its name
/// that comes before it.
pub proof fn aliases_stand_for_the_last_anchor(
    s: Seq<u8>,
    t: Seq<Elem>,
    lo: int,
    hi: int,
    max: int,
    used: int,
    acc: Seq<SpanNode>,
)
    requires
        load(s, t, lo, hi, max, used, acc) is Ok,
        content(t, lo, hi) < hi,
        t[content(t, lo, hi)].kind == SyntaxKind::AliasMark,
    ensures
        ({
            let c = content(t, lo, hi);
            exists|a: int| #[trigger]
                last_anchor(s, t, c, a) && spells(
                    s,
                    t,
                    max,
                    a + 1,
                    anchored_end(t, a),
                    load(s, t, lo, hi, max, used, acc)->Ok_0.0,
                )
        }),
{
    let c = content(t, lo, hi);
    let e = t[c];
    let name = s.subrange(e.start + 1, e.end as int);
    anchors_are_last(s, t, c, name);
    let a = anchor_before(s, t, c, name)->0;
    assert(last_anchor(s, t, c, a));
    let inner = acc.push(crate::load::span(SpanKind::Alias, e.start as int, e.end as int));
    let h = anchored_end(t, a);
    loading_spells(s, t, max, a + 1, h, used + 1, inner);
}

/// Whether the anchor at `a` is the last one before the alias at `c` that has its
/// name.
pub open spec fn last_anchor(s: Seq<u8>, t: Seq<Elem>, c: int, a: int) -> bool {
    &&& 0 <= a < c
    &&& same_name(s, t, c, a)
    &&& forall|b: int| a < b < c ==> !#[trigger] same_name(s, t, c, b)
}

/// Whether the element at `a` is an anchor with the name of the alias at `c`.
pub open spec fn same_name(s: Seq<u8>, t: Seq<Elem>, c: int, a: int) -> bool {
    &&& t[a].kind == SyntaxKind::AnchorMark
    &&& t[a].start < t[a].end
    &&& s.subrange(t[a].start + 1, t[a].end as int) == s.subrange(t[c].start + 1, t[c].end as int)
}

proof fn anchors_are_last(s: Seq<u8>, t: Seq<Elem>, i: int, name: Seq<u8>)
    ensures
        match anchor_before(s, t, i, name) {
            Some(a) => {
                &&& 0 <= a < i
                &&& t[a].kind == SyntaxKind::AnchorMark
                &&& t[a].start < t[a].end
                &&& s.subrange(t[a].start + 1, t[a].end as int) == name
                &&& forall|b: int|
                    a < b < i && (#[trigger] t[b]).kind == SyntaxKind::AnchorMark && t[b].start
                        < t[b].end ==> s.subrange(t[b].start + 1, t[b].end as int) != name
            },
            None => true,
        },
    decreases i,
{
    if i > 0 {
        anchors_are_last(s, t, i - 1, name);
    }
}

/// An alias is refused once as many have been expanded as the limits allow.
pub proof fn alias_limits_hold(
    s: Seq<u8>,
    t: Seq<Elem>,
    lo: int,
    hi: int,
    max: int,
    used: int,
    acc: Seq<SpanNode>,
)
    requires
        0 <= lo <= hi <= t.len(),
        content(t, lo, hi) < hi,
        t[content(t, lo, hi)].kind == SyntaxKind::AliasMark,
        used >= max,
    ensures
        load(s, t, lo, hi, max, used, acc) is Err,
{
}

/// A text with more aliases than its anchors allow is refused, and one with fewer
/// is not refused for them. Without an anchor nothing is counted.
pub proof fn aliases_stay_within_their_ratio(s: Seq<u8>, t: Seq<Elem>, config: ParserConfig)
    ensures
        ({
            let anchors = of_kind(t, SyntaxKind::AnchorMark).len();
            let aliases = of_kind(t, SyntaxKind::AliasMark).len();
            let max = config.max_alias_expansions as int;
            match config.alias_anchor_ratio {
                Some(k) => if anchors > 0 && aliases > k * anchors {
                    tree_value(s, t, config) is Err
                } else {
                    tree_value(s, t, config) is Ok <==> load(
                        s,
                        t,
                        1,
                        t.len() as int,
                        max,
                        0,
                        Seq::empty(),
                    ) is Ok
                },
                None => tree_value(s, t, config) is Ok <==> load(
                    s,
                    t,
                    1,
                    t.len() as int,
                    max,
                    0,
                    Seq::empty(),
                ) is Ok,
            }
        }),
{
    reveal(tree_value);
    assert(t.take(t.len() as int) =~= t);
    kinds_are_counted(t, SyntaxKind::AnchorMark, t.len() as int);
    kinds_are_counted(t, SyntaxKind::AliasMark, t.len() as int);
}

} // verus!
