//! How many nodes a value has.
use crate::value::{data, dict, dicts_are_pointwise, list, lists_are_pointwise, Data, Value};
use vstd::prelude::*;

verus! {

/// Number of nodes of a value, collections and scalars alike. What stands
/// under a tag counts as one.
pub open spec fn nodes(d: Data) -> nat
    decreases d, 0int,
{
    match d {
        Data::List(v) => 1 + nodes_in_list(v, v.len() as int),
        Data::Dict(m) => 1 + nodes_in_dict(m, m.len() as int),
        _ => 1,
    }
}

/// Number of nodes of the first `k` items of a list.
pub open spec fn nodes_in_list(v: Seq<Data>, k: int) -> nat
    decreases v, k,
{
    if 0 < k <= v.len() {
        nodes_in_list(v, k - 1) + nodes(v[k - 1])
    } else {
        0
    }
}

/// Number of nodes of the first `k` values of a mapping.
pub open spec fn nodes_in_dict(m: Seq<(Seq<u8>, Data)>, k: int) -> nat
    decreases m, k,
{
    if 0 < k <= m.len() {
        nodes_in_dict(m, k - 1) + nodes(m[k - 1].1)
    } else {
        0
    }
}

/// The nodes of a list after one item is replaced.
pub proof fn replacing_an_item_changes_its_nodes_only(v: Seq<Data>, i: int, new: Data, k: int)
    requires
        0 <= i < v.len(),
        0 <= k <= v.len(),
    ensures
        nodes_in_list(v.update(i, new), k) + (if i < k {
            nodes(v[i])
        } else {
            0
        }) == nodes_in_list(v, k) + (if i < k {
            nodes(new)
        } else {
            0
        }),
    decreases k,
{
    if k > 0 {
        replacing_an_item_changes_its_nodes_only(v, i, new, k - 1);
    }
}

/// The nodes of a mapping after one value is replaced.
pub proof fn replacing_a_value_changes_its_nodes_only(
    m: Seq<(Seq<u8>, Data)>,
    i: int,
    new: (Seq<u8>, Data),
    k: int,
)
    requires
        0 <= i < m.len(),
        0 <= k <= m.len(),
    ensures
        nodes_in_dict(m.update(i, new), k) + (if i < k {
            nodes(m[i].1)
        } else {
            0
        }) == nodes_in_dict(m, k) + (if i < k {
            nodes(new.1)
        } else {
            0
        }),
    decreases k,
{
    if k > 0 {
        replacing_a_value_changes_its_nodes_only(m, i, new, k - 1);
    }
}

/// The nodes of a list after one item is removed.
pub proof fn removing_an_item_takes_its_nodes(v: Seq<Data>, i: int, k: int)
    requires
        0 <= i < v.len(),
        0 <= k < v.len(),
    ensures
        nodes_in_list(v.remove(i), k) + (if i <= k {
            nodes(v[i])
        } else {
            0
        }) == nodes_in_list(v, if i <= k {
            k + 1
        } else {
            k
        }),
    decreases k,
{
    if k > 0 {
        removing_an_item_takes_its_nodes(v, i, k - 1);
        assert(v.remove(i)[k - 1] == if i <= k - 1 {
            v[k]
        } else {
            v[k - 1]
        });
        assert(nodes_in_list(v, k) == nodes_in_list(v, k - 1) + nodes(v[k - 1]));
    }
    assert(nodes_in_list(v, 0) == 0 && nodes_in_list(v.remove(i), 0) == 0);
    assert(nodes_in_list(v, k + 1) == nodes_in_list(v, k) + nodes(v[k]));
}

/// The nodes of a mapping after one entry is removed.
pub proof fn removing_an_entry_takes_its_nodes(m: Seq<(Seq<u8>, Data)>, i: int, k: int)
    requires
        0 <= i < m.len(),
        0 <= k < m.len(),
    ensures
        nodes_in_dict(m.remove(i), k) + (if i <= k {
            nodes(m[i].1)
        } else {
            0
        }) == nodes_in_dict(m, if i <= k {
            k + 1
        } else {
            k
        }),
    decreases k,
{
    if k > 0 {
        removing_an_entry_takes_its_nodes(m, i, k - 1);
        assert(m.remove(i)[k - 1] == if i <= k - 1 {
            m[k]
        } else {
            m[k - 1]
        });
        assert(nodes_in_dict(m, k) == nodes_in_dict(m, k - 1) + nodes(m[k - 1].1));
    }
    assert(nodes_in_dict(m, 0) == 0 && nodes_in_dict(m.remove(i), 0) == 0);
    assert(nodes_in_dict(m, k + 1) == nodes_in_dict(m, k) + nodes(m[k].1));
}

/// The nodes of a prefix are not more than those of the whole.
proof fn prefixes_have_fewer_nodes(v: Seq<Data>, j: int, k: int)
    requires
        0 <= j <= k <= v.len(),
    ensures
        nodes_in_list(v, j) <= nodes_in_list(v, k),
    decreases k,
{
    if j < k {
        prefixes_have_fewer_nodes(v, j, k - 1);
    }
}

proof fn entry_prefixes_have_fewer_nodes(m: Seq<(Seq<u8>, Data)>, j: int, k: int)
    requires
        0 <= j <= k <= m.len(),
    ensures
        nodes_in_dict(m, j) <= nodes_in_dict(m, k),
    decreases k,
{
    if j < k {
        entry_prefixes_have_fewer_nodes(m, j, k - 1);
    }
}

/// Total number of nodes of a value, collections and scalars alike.
pub fn count_nodes(v: &Value) -> (r: usize)
    requires
        nodes(v@) <= usize::MAX,
    ensures
        r == nodes(v@),
    decreases v,
{
    match v {
        Value::Sequence(items) => {
            proof {
                lists_are_pointwise(items@);
            }
            let mut n: usize = 1;
            let mut i: usize = 0;
            while i < items.len()
                invariant
                    i <= items@.len(),
                    v@ == Data::List(list(items@)),
                    list(items@).len() == items@.len(),
                    forall|k: int|
                        0 <= k < items@.len() ==> #[trigger] list(items@)[k] == data(items@[k]),
                    nodes(v@) <= usize::MAX,
                    n == 1 + nodes_in_list(list(items@), i as int),
                    decreases_to!(v => items),
                decreases items@.len() - i,
            {
                proof {
                    prefixes_have_fewer_nodes(list(items@), i + 1, items@.len() as int);
                    assert(list(items@)[i as int] == items@[i as int]@);
                }
                assert(decreases_to!(v => items@[i as int]));
                n += count_nodes(&items[i]);
                i += 1;
            }
            n
        },
        Value::Mapping(m) => {
            proof {
                dicts_are_pointwise(m.entries@);
            }
            let mut n: usize = 1;
            let mut i: usize = 0;
            while i < m.entries.len()
                invariant
                    i <= m.entries@.len(),
                    v@ == Data::Dict(dict(m.entries@)),
                    dict(m.entries@).len() == m.entries@.len(),
                    forall|k: int|
                        0 <= k < m.entries@.len() ==> (#[trigger] dict(m.entries@)[k]).1 == data(
                            m.entries@[k].1,
                        ),
                    nodes(v@) <= usize::MAX,
                    n == 1 + nodes_in_dict(dict(m.entries@), i as int),
                    decreases_to!(v => m.entries),
                decreases m.entries@.len() - i,
            {
                proof {
                    entry_prefixes_have_fewer_nodes(
                        dict(m.entries@),
                        i + 1,
                        m.entries@.len() as int,
                    );
                    assert(dict(m.entries@)[i as int].1 == m.entries@[i as int].1@);
                }
                assert(decreases_to!(v => m.entries@[i as int].1));
                n += count_nodes(&m.entries[i].1);
                i += 1;
            }
            n
        },
        _ => 1,
    }
}

} // verus!
