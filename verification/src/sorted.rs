//! Strictly ascending sequences of names, and searching them.

use crate::order::{lemma_name_lt_total, lemma_name_lt_transitive, name_lt, rank, Rank};
use vstd::prelude::*;

verus! {

/// Each name comes before every later one: ascending, nothing twice.
pub open spec fn strictly_sorted(names: Seq<Seq<char>>) -> bool {
    forall|i: int, j: int| 0 <= i < j < names.len()
        ==> name_lt(#[trigger] names[i], #[trigger] names[j])
}

/// The members of a finite set of names in ascending order.
pub open spec fn listed(names: Set<Seq<char>>) -> Seq<Seq<char>> {
    choose|q: Seq<Seq<char>>| strictly_sorted(q) && q.to_set() == names
}

/// A strictly ascending sequence holds no name twice.
pub proof fn lemma_sorted_no_duplicates(names: Seq<Seq<char>>)
    requires
        strictly_sorted(names),
    ensures
        names.no_duplicates(),
{
    assert forall|i: int, j: int| 0 <= i < names.len() && 0 <= j < names.len() && i != j
        implies names[i] != names[j] by {
        lemma_name_lt_total(names[i], names[j]);
    }
}

/// Two strictly ascending sequences with the same members are the same sequence.
pub proof fn lemma_sorted_unique(a: Seq<Seq<char>>, b: Seq<Seq<char>>)
    requires
        strictly_sorted(a),
        strictly_sorted(b),
        a.to_set() == b.to_set(),
    ensures
        a == b,
    decreases a.len(),
{
    if a.len() == 0 {
        if b.len() > 0 {
            assert(b.to_set().contains(b[0]));
            assert(a.contains(b[0]));
        }
        assert(a =~= b);
    } else if b.len() == 0 {
        assert(a.to_set().contains(a[0]));
        assert(b.contains(a[0]));
    } else {
        assert(a.to_set().contains(a[0]));
        assert(b.contains(a[0]));
        let k = choose|k: int| 0 <= k < b.len() && b[k] == a[0];
        assert(b.to_set().contains(b[0]));
        assert(a.contains(b[0]));
        let m = choose|m: int| 0 <= m < a.len() && a[m] == b[0];
        lemma_name_lt_total(a[0], b[0]);
        assert(a[0] == b[0]);
        let ta = a.drop_first();
        let tb = b.drop_first();
        assert forall|x: Seq<char>| ta.to_set().contains(x) <==> tb.to_set().contains(x) by {
            if ta.contains(x) {
                let i = choose|i: int| 0 <= i < ta.len() && ta[i] == x;
                assert(a[i + 1] == x);
                assert(name_lt(a[0], a[i + 1]));
                lemma_name_lt_total(a[0], x);
                assert(a.to_set().contains(x));
                assert(b.contains(x));
                let j = choose|j: int| 0 <= j < b.len() && b[j] == x;
                assert(tb[j - 1] == x);
            }
            if tb.contains(x) {
                let i = choose|i: int| 0 <= i < tb.len() && tb[i] == x;
                assert(b[i + 1] == x);
                assert(name_lt(b[0], b[i + 1]));
                lemma_name_lt_total(b[0], x);
                assert(b.to_set().contains(x));
                assert(a.contains(x));
                let j = choose|j: int| 0 <= j < a.len() && a[j] == x;
                assert(ta[j - 1] == x);
            }
        }
        assert(ta.to_set() =~= tb.to_set());
        assert(strictly_sorted(ta)) by {
            assert forall|i: int, j: int| 0 <= i < j < ta.len() implies name_lt(
                #[trigger] ta[i],
                #[trigger] ta[j],
            ) by {
                assert(name_lt(a[i + 1], a[j + 1]));
            }
        }
        assert(strictly_sorted(tb)) by {
            assert forall|i: int, j: int| 0 <= i < j < tb.len() implies name_lt(
                #[trigger] tb[i],
                #[trigger] tb[j],
            ) by {
                assert(name_lt(b[i + 1], b[j + 1]));
            }
        }
        lemma_sorted_unique(ta, tb);
        assert(a =~= seq![a[0]] + ta);
        assert(b =~= seq![b[0]] + tb);
    }
}

/// A strictly ascending sequence is the listing of its own members.
pub proof fn lemma_listed(names: Seq<Seq<char>>)
    requires
        strictly_sorted(names),
    ensures
        listed(names.to_set()) == names,
        names.to_set().finite(),
        names.to_set().len() == names.len(),
{
    let q = listed(names.to_set());
    assert(strictly_sorted(q) && q.to_set() == names.to_set());
    lemma_sorted_unique(q, names);
    lemma_sorted_no_duplicates(names);
    names.unique_seq_to_set();
    vstd::seq_lib::seq_to_set_is_finite(names);
}

/// Putting a new name at its place keeps a sequence strictly ascending.
pub proof fn lemma_insert_sorted(names: Seq<Seq<char>>, at: int, name: Seq<char>)
    requires
        strictly_sorted(names),
        0 <= at <= names.len(),
        forall|i: int| 0 <= i < at ==> name_lt(#[trigger] names[i], name),
        forall|i: int| at <= i < names.len() ==> name_lt(name, #[trigger] names[i]),
    ensures
        strictly_sorted(names.insert(at, name)),
        names.insert(at, name).to_set() == names.to_set().insert(name),
        !names.contains(name),
{
    let after = names.insert(at, name);
    assert forall|i: int, j: int| 0 <= i < j < after.len() implies name_lt(
        #[trigger] after[i],
        #[trigger] after[j],
    ) by {
        if j < at {
            assert(name_lt(names[i], names[j]));
        } else if j == at {
            assert(name_lt(names[i], name));
        } else if i < at {
            assert(name_lt(names[i], names[j - 1]));
        } else if i == at {
            assert(name_lt(name, names[j - 1]));
        } else {
            assert(name_lt(names[i - 1], names[j - 1]));
        }
    }
    assert forall|x: Seq<char>| after.to_set().contains(x)
        <==> names.to_set().insert(name).contains(x) by {
        if after.contains(x) {
            let i = choose|i: int| 0 <= i < after.len() && after[i] == x;
            if i < at {
                assert(names[i] == x);
            } else if i > at {
                assert(names[i - 1] == x);
            }
        }
        if names.contains(x) {
            let i = choose|i: int| 0 <= i < names.len() && names[i] == x;
            if i < at {
                assert(after[i] == x);
            } else {
                assert(after[i + 1] == x);
            }
        }
        if x == name {
            assert(after[at] == x);
        }
    }
    assert(after.to_set() =~= names.to_set().insert(name));
    if names.contains(name) {
        let i = choose|i: int| 0 <= i < names.len() && names[i] == name;
        lemma_name_lt_total(names[i], name);
    }
}

/// Taking a name out keeps a sequence strictly ascending.
pub proof fn lemma_remove_sorted(names: Seq<Seq<char>>, at: int)
    requires
        strictly_sorted(names),
        0 <= at < names.len(),
    ensures
        strictly_sorted(names.remove(at)),
        names.remove(at).to_set() == names.to_set().remove(names[at]),
{
    let after = names.remove(at);
    assert forall|i: int, j: int| 0 <= i < j < after.len() implies name_lt(
        #[trigger] after[i],
        #[trigger] after[j],
    ) by {
        let bi = if i < at { i } else { i + 1 };
        let bj = if j < at { j } else { j + 1 };
        assert(name_lt(names[bi], names[bj]));
    }
    assert forall|x: Seq<char>| after.to_set().contains(x)
        <==> names.to_set().remove(names[at]).contains(
        x,
    ) by {
        if after.contains(x) {
            let i = choose|i: int| 0 <= i < after.len() && after[i] == x;
            let bi = if i < at { i } else { i + 1 };
            assert(names[bi] == x);
            lemma_name_lt_total(names[bi], names[at]);
            if bi < at {
                assert(name_lt(names[bi], names[at]));
            } else {
                assert(name_lt(names[at], names[bi]));
            }
        }
        if names.contains(x) && x != names[at] {
            let i = choose|i: int| 0 <= i < names.len() && names[i] == x;
            if i < at {
                assert(after[i] == x);
            } else {
                assert(after[i - 1] == x);
            }
        }
    }
    assert(after.to_set() =~= names.to_set().remove(names[at]));
}

/// Every name that is not in a strictly ascending sequence has a place in it.
proof fn lemma_place_exists(names: Seq<Seq<char>>, name: Seq<char>) -> (at: int)
    requires
        strictly_sorted(names),
        !names.contains(name),
    ensures
        0 <= at <= names.len(),
        forall|i: int| 0 <= i < at ==> name_lt(#[trigger] names[i], name),
        forall|i: int| at <= i < names.len() ==> name_lt(name, #[trigger] names[i]),
    decreases names.len(),
{
    if names.len() == 0 {
        0
    } else {
        let last = names.len() - 1;
        lemma_name_lt_total(names[last], name);
        assert(names[last] != name);
        if name_lt(names[last], name) {
            assert forall|i: int| 0 <= i < names.len()
                implies name_lt(#[trigger] names[i], name) by {
                if i < last {
                    lemma_name_lt_transitive(names[i], names[last], name);
                }
            }
            names.len() as int
        } else {
            let shorter = names.drop_last();
            assert forall|i: int, j: int| 0 <= i < j < shorter.len() implies name_lt(
                #[trigger] shorter[i],
                #[trigger] shorter[j],
            ) by {
                assert(name_lt(names[i], names[j]));
            }
            if shorter.contains(name) {
                let i = choose|i: int| 0 <= i < shorter.len() && shorter[i] == name;
                assert(names[i] == name);
            }
            let at = lemma_place_exists(shorter, name);
            assert forall|i: int| 0 <= i < at implies name_lt(#[trigger] names[i], name) by {
                assert(name_lt(shorter[i], name));
            }
            assert forall|i: int| at <= i < names.len()
                implies name_lt(name, #[trigger] names[i]) by {
                if i < last {
                    assert(name_lt(name, shorter[i]));
                }
            }
            at
        }
    }
}

/// Every finite set of names can be written in ascending order.
proof fn lemma_sorted_exists(names: Set<Seq<char>>) -> (q: Seq<Seq<char>>)
    requires
        names.finite(),
    ensures
        strictly_sorted(q),
        q.to_set() == names,
    decreases names.len(),
{
    if names.len() == 0 {
        let q = Seq::<Seq<char>>::empty();
        assert(q.to_set() =~= names);
        q
    } else {
        let x = names.choose();
        let rest = lemma_sorted_exists(names.remove(x));
        assert(!rest.contains(x)) by {
            if rest.contains(x) {
                assert(rest.to_set().contains(x));
            }
        }
        let at = lemma_place_exists(rest, x);
        lemma_insert_sorted(rest, at, x);
        assert(names.remove(x).insert(x) =~= names);
        rest.insert(at, x)
    }
}

/// The listing of a finite set is strictly ascending and holds exactly the
/// members of the set.
pub proof fn lemma_listing(names: Set<Seq<char>>)
    requires
        names.finite(),
    ensures
        strictly_sorted(listed(names)),
        listed(names).to_set() == names,
        listed(names).len() == names.len(),
        listed(names).no_duplicates(),
{
    let q = lemma_sorted_exists(names);
    lemma_listed(q);
    lemma_sorted_no_duplicates(q);
}

/// Where `name` stands among `names`, or where it would have to be put.
///
/// The flag says whether the name is there; the index is that of the first
/// entry that does not come before `name`.
pub(crate) fn locate(names: &Vec<String>, name: &str) -> (r: (usize, bool))
    requires
        strictly_sorted(names.deep_view()),
    ensures
        r.0 <= names.len(),
        forall|i: int| 0 <= i < r.0 ==> name_lt(#[trigger] names.deep_view()[i], name@),
        forall|i: int| r.0 + (if r.1 { 1int } else { 0int }) <= i < names.len()
            ==> name_lt(name@, #[trigger] names.deep_view()[i]),
        r.1 ==> r.0 < names.len() && names.deep_view()[r.0 as int] == name@,
        r.1 == names.deep_view().contains(name@),
{
    let ghost all = names.deep_view();
    let mut lo: usize = 0;
    let mut hi: usize = names.len();
    while lo < hi
        invariant
            lo <= hi <= names.len(),
            all == names.deep_view(),
            strictly_sorted(all),
            forall|i: int| 0 <= i < lo ==> name_lt(#[trigger] all[i], name@),
            forall|i: int| hi <= i < all.len() ==> name_lt(name@, #[trigger] all[i]),
        decreases hi - lo,
    {
        let mid = lo + (hi - lo) / 2;
        assert(all[mid as int] == names[mid as int]@);
        match rank(names[mid].as_str(), name) {
            Rank::Before => {
                assert forall|i: int| 0 <= i < mid + 1
                    implies name_lt(#[trigger] all[i], name@) by {
                    if i < mid {
                        lemma_name_lt_transitive(all[i], all[mid as int], name@);
                    }
                }
                lo = mid + 1;
            },
            Rank::Same => {
                assert forall|i: int| 0 <= i < mid implies name_lt(#[trigger] all[i], name@) by {
                    assert(name_lt(all[i], all[mid as int]));
                }
                assert forall|i: int| mid + 1 <= i < all.len()
                    implies name_lt(name@, #[trigger] all[i]) by {
                    assert(name_lt(all[mid as int], all[i]));
                }
                return (mid, true);
            },
            Rank::After => {
                assert forall|i: int| mid <= i < all.len()
                    implies name_lt(name@, #[trigger] all[i]) by {
                    if mid < i {
                        lemma_name_lt_transitive(name@, all[mid as int], all[i]);
                    }
                }
                hi = mid;
            },
        }
    }
    proof {
        if all.contains(name@) {
            let i = choose|i: int| 0 <= i < all.len() && all[i] == name@;
            lemma_name_lt_total(all[i], name@);
        }
    }
    (lo, false)
}

} // verus!
