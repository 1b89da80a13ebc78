//! Maps written as two sequences: names, and the value kept under each.

use vstd::prelude::*;

verus! {

/// The map that takes each name to the value at the same position.
pub open spec fn paired<V>(names: Seq<Seq<char>>, values: Seq<V>) -> Map<Seq<char>, V> {
    Map::new(|k: Seq<char>| names.contains(k), |k: Seq<char>| values[names.index_of(k)])
}

/// Where no name occurs twice, the map holds each position's value under
/// that position's name.
pub proof fn lemma_paired_at<V>(names: Seq<Seq<char>>, values: Seq<V>, i: int)
    requires
        names.no_duplicates(),
        0 <= i < names.len(),
    ensures
        names.index_of(names[i]) == i,
        paired(names, values).dom().contains(names[i]),
        paired(names, values)[names[i]] == values[i],
{
    assert(names.contains(names[i]));
}

/// The names are the map's keys.
pub proof fn lemma_paired_dom<V>(names: Seq<Seq<char>>, values: Seq<V>)
    ensures
        paired(names, values).dom() == names.to_set(),
{
    assert(paired(names, values).dom() =~= names.to_set());
}

/// A new name put in with its value is a new key put into the map.
pub proof fn lemma_paired_insert<V>(
    names: Seq<Seq<char>>,
    values: Seq<V>,
    at: int,
    name: Seq<char>,
    value: V,
)
    requires
        names.insert(at, name).no_duplicates(),
        names.len() == values.len(),
        0 <= at <= names.len(),
    ensures
        paired(names.insert(at, name), values.insert(at, value)) == paired(names, values).insert(
            name,
            value,
        ),
{
    let names2 = names.insert(at, name);
    let values2 = values.insert(at, value);
    let before = paired(names, values);
    let after = paired(names2, values2);
    assert(names.no_duplicates()) by {
        assert forall|i: int, j: int| 0 <= i < names.len() && 0 <= j < names.len() && i != j
            implies names[i] != names[j] by {
            let i2 = if i < at { i } else { i + 1 };
            let j2 = if j < at { j } else { j + 1 };
            assert(names2[i2] == names[i]);
            assert(names2[j2] == names[j]);
        }
    }
    assert forall|k: Seq<char>| after.dom().contains(k)
        <==> before.insert(name, value).dom().contains(
        k,
    ) by {
        if names2.contains(k) {
            let i = choose|i: int| 0 <= i < names2.len() && names2[i] == k;
            if i < at {
                assert(names[i] == k);
            } else if i > at {
                assert(names[i - 1] == k);
            }
        }
        if names.contains(k) {
            let i = choose|i: int| 0 <= i < names.len() && names[i] == k;
            let i2 = if i < at { i } else { i + 1 };
            assert(names2[i2] == k);
        }
        if k == name {
            assert(names2[at] == k);
        }
    }
    assert forall|k: Seq<char>| after.dom().contains(k)
        implies after[k] == before.insert(name, value)[k] by {
        let i2 = choose|i: int| 0 <= i < names2.len() && names2[i] == k;
        lemma_paired_at(names2, values2, i2);
        if i2 == at {
        } else {
            let i = if i2 < at { i2 } else { i2 - 1 };
            assert(names[i] == k);
            assert(names2[at] == name);
            lemma_paired_at(names, values, i);
        }
    }
    assert(after =~= before.insert(name, value));
}

/// A value replaced at a position is a value replaced under that
/// position's name.
pub proof fn lemma_paired_update<V>(names: Seq<Seq<char>>, values: Seq<V>, at: int, value: V)
    requires
        names.no_duplicates(),
        names.len() == values.len(),
        0 <= at < names.len(),
    ensures
        paired(names, values.update(at, value)) == paired(names, values).insert(names[at], value),
{
    let values2 = values.update(at, value);
    let before = paired(names, values);
    let after = paired(names, values2);
    assert(names.contains(names[at]));
    assert forall|k: Seq<char>| after.dom().contains(k)
        implies after[k] == before.insert(names[at], value)[k] by {
        let i = choose|i: int| 0 <= i < names.len() && names[i] == k;
        lemma_paired_at(names, values, i);
        lemma_paired_at(names, values2, i);
    }
    assert(after =~= before.insert(names[at], value));
}

} // verus!
