//! What holds of change requests, whatever the roster and the request.

use crate::change::{added, granted, removed, revoked, targeted, targets, ChangeView, Target};
use crate::filter::{accepts, folded, lowercase, selected};
use crate::permissions::RosterView;
use vstd::prelude::*;

verus! {

/// A change leaves the groups and the environments of a roster as they
/// were, so it is aimed at the same sets after it as before.
pub proof fn lemma_targets_kept(roster: RosterView, change: ChangeView)
    ensures
        added(roster, change).dom() == roster.dom(),
        removed(roster, change).dom() == roster.dom(),
        forall|g: Seq<char>| #[trigger]
            roster.dom().contains(g) ==> added(roster, change)[g].dom() == roster[g].dom(),
        forall|g: Seq<char>| #[trigger]
            roster.dom().contains(g) ==> removed(roster, change)[g].dom() == roster[g].dom(),
        targets(added(roster, change), change) == targets(roster, change),
        targets(removed(roster, change), change) == targets(roster, change),
{
    assert(added(roster, change).dom() =~= roster.dom());
    assert(removed(roster, change).dom() =~= roster.dom());
    assert forall|g: Seq<char>| #[trigger] roster.dom().contains(g) implies {
        &&& added(roster, change)[g].dom() == roster[g].dom()
        &&& removed(roster, change)[g].dom() == roster[g].dom()
    } by {
        assert(added(roster, change)[g].dom() =~= roster[g].dom());
        assert(removed(roster, change)[g].dom() =~= roster[g].dom());
    }
    assert(targets(added(roster, change), change) =~= targets(roster, change));
    assert(targets(removed(roster, change), change) =~= targets(roster, change));
}

/// Adding is idempotent: a request to add, carried out twice, leaves the
/// roster that it leaves when carried out once.
pub proof fn lemma_add_idempotent(roster: RosterView, change: ChangeView)
    ensures
        added(added(roster, change), change) == added(roster, change),
{
    lemma_targets_kept(roster, change);
    let once = added(roster, change);
    let twice = added(once, change);
    assert forall|g: Seq<char>| #[trigger] twice.dom().contains(g)
        implies twice[g] =~~= once[g] by {
        assert forall|e: Seq<char>| #[trigger] twice[g].dom().contains(e)
            implies twice[g][e] =~= once[g][e] by {
        }
    }
    assert(twice =~~= once);
}

/// Removing is idempotent: a request to remove, carried out twice, leaves
/// the roster that it leaves when carried out once.
pub proof fn lemma_remove_idempotent(roster: RosterView, change: ChangeView)
    ensures
        removed(removed(roster, change), change) == removed(roster, change),
{
    lemma_targets_kept(roster, change);
    let once = removed(roster, change);
    let twice = removed(once, change);
    assert forall|g: Seq<char>| #[trigger] twice.dom().contains(g)
        implies twice[g] =~~= once[g] by {
        assert forall|e: Seq<char>| #[trigger] twice[g].dom().contains(e)
            implies twice[g][e] =~= once[g][e] by {
        }
    }
    assert(twice =~~= once);
}

/// None of the request's users is in any of the sets that the request is
/// aimed at.
pub open spec fn users_absent(roster: RosterView, change: ChangeView) -> bool {
    forall|t: Target| #[trigger]
        targets(roster, change).contains(t) ==> roster[t.0][t.1].disjoint(change.users.to_set())
}

/// Removing users that are absent changes nothing.
pub proof fn lemma_remove_absent(roster: RosterView, change: ChangeView)
    requires
        users_absent(roster, change),
    ensures
        removed(roster, change) == roster,
{
    let after = removed(roster, change);
    assert forall|g: Seq<char>| #[trigger] after.dom().contains(g)
        implies after[g] =~~= roster[g] by {
        assert forall|e: Seq<char>| #[trigger] after[g].dom().contains(e)
            implies after[g][e] =~= roster[g][e] by {
            if targets(roster, change).contains((g, e)) {
                assert(roster[g][e].disjoint(change.users.to_set()));
            }
        }
    }
    assert(after =~~= roster);
}

/// Adding users that were absent and then removing them, with the same
/// request, gives the roster back.
pub proof fn lemma_add_then_remove(roster: RosterView, change: ChangeView)
    requires
        users_absent(roster, change),
    ensures
        removed(added(roster, change), change) == roster,
{
    lemma_targets_kept(roster, change);
    let after = removed(added(roster, change), change);
    assert forall|g: Seq<char>| #[trigger] after.dom().contains(g)
        implies after[g] =~~= roster[g] by {
        assert forall|e: Seq<char>| #[trigger] after[g].dom().contains(e)
            implies after[g][e] =~= roster[g][e] by {
            if targets(roster, change).contains((g, e)) {
                assert(roster[g][e].disjoint(change.users.to_set()));
            }
        }
    }
    assert(after =~~= roster);
}

/// A request that names no group and no environment is aimed at every set
/// of the roster: each one gains the users on adding and loses them on
/// removing.
pub proof fn lemma_empty_filters_select_all(roster: RosterView, change: ChangeView)
    requires
        change.groups.len() == 0,
        change.environments.len() == 0,
    ensures
        forall|g: Seq<char>, e: Seq<char>| targeted(change, g, e),
        forall|g: Seq<char>, e: Seq<char>|
            roster.dom().contains(g) && roster[g].dom().contains(e) ==> {
                &&& #[trigger] added(roster, change)[g][e] == roster[g][e].union(
                    change.users.to_set(),
                )
                &&& removed(roster, change)[g][e] == roster[g][e].difference(change.users.to_set())
            },
{
    assert forall|g: Seq<char>, e: Seq<char>| targeted(change, g, e) by {
        assert(folded(change.groups).len() == 0);
        assert(folded(change.environments).len() == 0);
    }
    assert forall|g: Seq<char>, e: Seq<char>|
        roster.dom().contains(g) && roster[g].dom().contains(e) implies {
        &&& #[trigger] added(roster, change)[g][e] == roster[g][e].union(change.users.to_set())
        &&& removed(roster, change)[g][e] == roster[g][e].difference(change.users.to_set())
    } by {
        assert(targets(roster, change).contains((g, e)));
    }
}

/// A request is blind to case: two names with the same lower-case form are
/// selected together or not at all, and a request that holds a name selects
/// every name with the same lower-case form.
pub proof fn lemma_selection_ignores_case(requested: Seq<Seq<char>>, a: Seq<char>, b: Seq<char>)
    ensures
        lowercase(a) == lowercase(b) ==> selected(requested, a) == selected(requested, b),
        lowercase(a) == lowercase(b) && requested.contains(a) ==> selected(requested, b),
{
    if lowercase(a) == lowercase(b) && requested.contains(a) {
        let i = choose|i: int| 0 <= i < requested.len() && requested[i] == a;
        assert(folded(requested)[i] == lowercase(b));
        assert(accepts(folded(requested), lowercase(b)));
    }
}

/// A request that is aimed at no set of the roster changes nothing.
pub proof fn lemma_no_target_no_change(roster: RosterView, change: ChangeView)
    requires
        targets(roster, change) == Set::<Target>::empty(),
    ensures
        added(roster, change) == roster,
        removed(roster, change) == roster,
{
    assert(granted(roster, Set::empty(), change.users.to_set()) =~~= roster);
    assert(revoked(roster, Set::empty(), change.users.to_set()) =~~= roster);
}

/// A request without users changes nothing.
pub proof fn lemma_no_user_no_change(roster: RosterView, change: ChangeView)
    requires
        change.users.len() == 0,
    ensures
        added(roster, change) == roster,
        removed(roster, change) == roster,
{
    let none = change.users.to_set();
    assert(none =~= Set::empty());
    let more = added(roster, change);
    let less = removed(roster, change);
    assert forall|g: Seq<char>| #[trigger] roster.dom().contains(g)
        implies more[g] =~~= roster[g] && less[g]
        =~~= roster[g] by {
        assert forall|e: Seq<char>| #[trigger] roster[g].dom().contains(e)
            implies more[g][e] =~= roster[g][e]
            && less[g][e] =~= roster[g][e] by {
        }
    }
    assert(more =~~= roster);
    assert(less =~~= roster);
}

} // verus!
