//! Change requests: adding users to, and removing them from, the sets that a
//! request selects by group and environment.

use crate::filter::{folded, selected, Filter};
use crate::order::name_lt;
use crate::permissions::{roster_with_users, roster_without_users, Permissions, RosterView};
use crate::sorted::{lemma_listing, strictly_sorted};
use vstd::prelude::*;

verus! {

/// A request to add or remove users. An empty list of groups stands for all
/// groups, an empty list of environments for all environments.
#[derive(Clone, Debug)]
pub struct Change {
    /// The users to add or remove.
    pub users: Vec<String>,
    /// The environments to change, by name; all of them where none is named.
    pub environments: Vec<String>,
    /// The groups to change, by name; all of them where none is named.
    pub groups: Vec<String>,
}

/// What a change request holds.
pub struct ChangeView {
    /// The users to add or remove.
    pub users: Seq<Seq<char>>,
    /// The requested environments.
    pub environments: Seq<Seq<char>>,
    /// The requested groups.
    pub groups: Seq<Seq<char>>,
}

impl View for Change {
    type V = ChangeView;

    open spec fn view(&self) -> ChangeView {
        ChangeView {
            users: self.users.deep_view(),
            environments: self.environments.deep_view(),
            groups: self.groups.deep_view(),
        }
    }
}

/// A group and an environment, by name.
pub type Target = (Seq<char>, Seq<char>);

/// Whether the request is aimed at that environment of that group.
pub open spec fn targeted(change: ChangeView, group: Seq<char>, environment: Seq<char>) -> bool {
    selected(change.groups, group) && selected(change.environments, environment)
}

/// The sets of the roster that the request is aimed at.
pub open spec fn targets(roster: RosterView, change: ChangeView) -> Set<Target> {
    Set::new(
        |t: Target|
            roster.dom().contains(t.0) && roster[t.0].dom().contains(t.1)
                && targeted(change, t.0, t.1),
    )
}

/// The roster with `users` added to each of the sets `at`, every other set
/// and all groups and environments as they were.
pub open spec fn granted(roster: RosterView, at: Set<Target>, users: Set<Seq<char>>) -> RosterView {
    Map::new(
        |g: Seq<char>| roster.dom().contains(g),
        |g: Seq<char>|
            Map::new(
                |e: Seq<char>| roster[g].dom().contains(e),
                |e: Seq<char>|
                    if at.contains((g, e)) {
                        roster[g][e].union(users)
                    } else {
                        roster[g][e]
                    },
            ),
    )
}

/// The roster with `users` taken out of each of the sets `at`, every other
/// set and all groups and environments as they were.
pub open spec fn revoked(roster: RosterView, at: Set<Target>, users: Set<Seq<char>>) -> RosterView {
    Map::new(
        |g: Seq<char>| roster.dom().contains(g),
        |g: Seq<char>|
            Map::new(
                |e: Seq<char>| roster[g].dom().contains(e),
                |e: Seq<char>|
                    if at.contains((g, e)) {
                        roster[g][e].difference(users)
                    } else {
                        roster[g][e]
                    },
            ),
    )
}

/// The roster after the request's users were added to the sets it is aimed
/// at.
pub open spec fn added(roster: RosterView, change: ChangeView) -> RosterView {
    granted(roster, targets(roster, change), change.users.to_set())
}

/// The roster after the request's users were removed from the sets it is
/// aimed at.
pub open spec fn removed(roster: RosterView, change: ChangeView) -> RosterView {
    revoked(roster, targets(roster, change), change.users.to_set())
}

/// The order of targets: by group, then by environment.
pub open spec fn target_lt(a: Target, b: Target) -> bool {
    name_lt(a.0, b.0) || (a.0 == b.0 && name_lt(a.1, b.1))
}

/// Each target comes before every later one.
pub open spec fn targets_ascending(targets: Seq<Target>) -> bool {
    forall|k: int, m: int| 0 <= k < m < targets.len()
        ==> target_lt(#[trigger] targets[k], #[trigger] targets[m])
}

/// The sets that the request is aimed at, named by group and environment, in
/// ascending order.
pub fn filter_user_listings(change: &Change, permissions: &Permissions)
    -> (found: Vec<(String, String)>)
    ensures
        found.deep_view().to_set() == targets(permissions@, change@),
        targets_ascending(found.deep_view()),
{
    let group_filter = Filter::from_entries(&change.groups);
    let environment_filter = Filter::from_entries(&change.environments);
    let groups = permissions.groups();
    let ghost roster = permissions@;
    let ghost want = targets(roster, change@);
    let ghost names = groups.deep_view();
    proof {
        lemma_listing(roster.dom());
    }
    let mut found: Vec<(String, String)> = Vec::new();
    let mut i: usize = 0;
    while i < groups.len()
        invariant
            i <= groups.len(),
            roster == permissions@,
            want == targets(roster, change@),
            names == groups.deep_view(),
            strictly_sorted(names),
            names.to_set() == roster.dom(),
            group_filter@ == folded(change@.groups),
            environment_filter@ == folded(change@.environments),
            targets_ascending(found.deep_view()),
            forall|k: int| 0 <= k < found.len() ==> want.contains(#[trigger] found.deep_view()[k]),
            forall|k: int, n: int|
                0 <= k < found.len() && i <= n < names.len() ==> name_lt(
                    (#[trigger] found.deep_view()[k]).0,
                    #[trigger] names[n],
                ),
            forall|n: int, e: Seq<char>|
                0 <= n < i && #[trigger] want.contains((names[n], e))
                    ==> found.deep_view().contains(
                    (names[n], e),
                ),
        decreases groups.len() - i,
    {
        let ghost g = names[i as int];
        assert(g == groups[i as int]@);
        assert(names.to_set().contains(g));
        if group_filter.filter(groups[i].as_str()) {
            match permissions.get(groups[i].as_str()) {
                Some(group) => {
                    let environments = group.environments();
                    let ghost inner = environments.deep_view();
                    proof {
                        lemma_listing(roster[g].dom());
                    }
                    let mut j: usize = 0;
                    while j < environments.len()
                        invariant
                            j <= environments.len(),
                            i < groups.len(),
                            g == names[i as int],
                            g == groups[i as int]@,
                            roster.dom().contains(g),
                            selected(change@.groups, g),
                            want == targets(roster, change@),
                            names == groups.deep_view(),
                            strictly_sorted(names),
                            inner == environments.deep_view(),
                            strictly_sorted(inner),
                            inner.to_set() == roster[g].dom(),
                            environment_filter@ == folded(change@.environments),
                            targets_ascending(found.deep_view()),
                            forall|k: int|
                                0 <= k < found.len()
                                    ==> want.contains(#[trigger] found.deep_view()[k]),
                            forall|k: int, n: int|
                                0 <= k < found.len() && i < n < names.len() ==> name_lt(
                                    (#[trigger] found.deep_view()[k]).0,
                                    #[trigger] names[n],
                                ),
                            forall|k: int, m: int|
                                0 <= k < found.len() && j <= m < inner.len() ==> target_lt(
                                    #[trigger] found.deep_view()[k],
                                    (g, #[trigger] inner[m]),
                                ),
                            forall|n: int, e: Seq<char>|
                                0 <= n < i && #[trigger] want.contains((names[n], e))
                                    ==> found.deep_view().contains((names[n], e)),
                            forall|m: int|
                                0 <= m < j && want.contains((g, #[trigger] inner[m]))
                                    ==> found.deep_view().contains((g, inner[m])),
                        decreases environments.len() - j,
                    {
                        let ghost e = inner[j as int];
                        assert(e == environments[j as int]@);
                        assert(inner.to_set().contains(e));
                        if environment_filter.filter(environments[j].as_str()) {
                            let ghost before = found.deep_view();
                            found.push((groups[i].clone(), environments[j].clone()));
                            proof {
                                let after = found.deep_view();
                                assert(after =~= before.push((g, e)));
                                assert(want.contains((g, e)));
                                assert forall|n: int, x: Seq<char>|
                                    0 <= n < i && #[trigger] want.contains((names[n], x))
                                        implies after.contains(
                                    (names[n], x),
                                ) by {
                                    let k = choose|k: int|
                                        0 <= k < before.len() && before[k] == (names[n], x);
                                    assert(after[k] == (names[n], x));
                                }
                                assert forall|m: int|
                                    0 <= m < j + 1 && want.contains((g, #[trigger] inner[m]))
                                        implies after.contains(
                                    (g, inner[m]),
                                ) by {
                                    if m < j {
                                        let k = choose|k: int|
                                            0 <= k < before.len() && before[k] == (g, inner[m]);
                                        assert(after[k] == (g, inner[m]));
                                    } else {
                                        assert(after[before.len() as int] == (g, e));
                                    }
                                }
                            }
                        }
                        j = j + 1;
                    }
                },
                None => {},
            }
        }
        i = i + 1;
    }
    assert(found.deep_view().to_set() =~= want);
    found
}

/// Adding users to one set of a roster that has had them added to the sets
/// `at` is adding them to the sets `at` and that one.
proof fn lemma_grant_one(
    roster: RosterView,
    at: Set<Target>,
    group: Seq<char>,
    environment: Seq<char>,
    users: Set<Seq<char>>,
)
    requires
        roster.dom().contains(group),
        roster[group].dom().contains(environment),
    ensures
        roster_with_users(granted(roster, at, users), group, environment, users) == granted(
            roster,
            at.insert((group, environment)),
            users,
        ),
{
    let left = roster_with_users(granted(roster, at, users), group, environment, users);
    let right = granted(roster, at.insert((group, environment)), users);
    assert forall|g: Seq<char>| #[trigger] left.dom().contains(g) implies left[g] =~~= right[g] by {
        if g == group {
            assert forall|e: Seq<char>| #[trigger] left[g].dom().contains(e)
                implies left[g][e] =~= right[g][e] by {
            }
        }
    }
    assert(left =~~= right);
}

/// Taking users out of one set of a roster that has had them taken out of
/// the sets `at` is taking them out of the sets `at` and that one.
proof fn lemma_revoke_one(
    roster: RosterView,
    at: Set<Target>,
    group: Seq<char>,
    environment: Seq<char>,
    users: Set<Seq<char>>,
)
    requires
        roster.dom().contains(group),
        roster[group].dom().contains(environment),
    ensures
        roster_without_users(revoked(roster, at, users), group, environment, users) == revoked(
            roster,
            at.insert((group, environment)),
            users,
        ),
{
    let left = roster_without_users(revoked(roster, at, users), group, environment, users);
    let right = revoked(roster, at.insert((group, environment)), users);
    assert forall|g: Seq<char>| #[trigger] left.dom().contains(g) implies left[g] =~~= right[g] by {
        if g == group {
            assert forall|e: Seq<char>| #[trigger] left[g].dom().contains(e)
                implies left[g][e] =~= right[g][e] by {
            }
        }
    }
    assert(left =~~= right);
}

/// Changing none of its sets leaves a roster as it was.
proof fn lemma_grant_none(roster: RosterView, users: Set<Seq<char>>)
    ensures
        granted(roster, Set::empty(), users) == roster,
        revoked(roster, Set::empty(), users) == roster,
{
    assert(granted(roster, Set::empty(), users) =~~= roster);
    assert(revoked(roster, Set::empty(), users) =~~= roster);
}

/// Adds the request's users to every set that the request is aimed at.
pub fn add_user(permissions: &mut Permissions, add: &Change)
    ensures
        final(permissions)@ == added(old(permissions)@, add@),
{
    let found = filter_user_listings(add, permissions);
    let ghost before = permissions@;
    let ghost at = found.deep_view();
    let ghost users = add.users.deep_view().to_set();
    proof {
        lemma_grant_none(before, users);
        assert(at.take(0).to_set() =~= Set::empty());
    }
    let mut t: usize = 0;
    while t < found.len()
        invariant
            t <= found.len(),
            at == found.deep_view(),
            at.to_set() == targets(before, add@),
            users == add.users.deep_view().to_set(),
            permissions@ == granted(before, at.take(t as int).to_set(), users),
        decreases found.len() - t,
    {
        proof {
            let (g, e) = at[t as int];
            assert(at.to_set().contains(at[t as int]));
            assert(at.take(t + 1) =~= at.take(t as int).push(at[t as int]));
            at.take(t as int).lemma_push_to_set_commute(at[t as int]);
            lemma_grant_one(before, at.take(t as int).to_set(), g, e, users);
        }
        permissions.add_users(found[t].0.as_str(), found[t].1.as_str(), &add.users);
        t = t + 1;
    }
    assert(at.take(at.len() as int) =~= at);
}

/// Removes the request's users from every set that the request is aimed at.
pub fn remove_user(permissions: &mut Permissions, change: &Change)
    ensures
        final(permissions)@ == removed(old(permissions)@, change@),
{
    let found = filter_user_listings(change, permissions);
    let ghost before = permissions@;
    let ghost at = found.deep_view();
    let ghost users = change.users.deep_view().to_set();
    proof {
        lemma_grant_none(before, users);
        assert(at.take(0).to_set() =~= Set::empty());
    }
    let mut t: usize = 0;
    while t < found.len()
        invariant
            t <= found.len(),
            at == found.deep_view(),
            at.to_set() == targets(before, change@),
            users == change.users.deep_view().to_set(),
            permissions@ == revoked(before, at.take(t as int).to_set(), users),
        decreases found.len() - t,
    {
        proof {
            let (g, e) = at[t as int];
            assert(at.to_set().contains(at[t as int]));
            assert(at.take(t + 1) =~= at.take(t as int).push(at[t as int]));
            at.take(t as int).lemma_push_to_set_commute(at[t as int]);
            lemma_revoke_one(before, at.take(t as int).to_set(), g, e, users);
        }
        permissions.remove_users(found[t].0.as_str(), found[t].1.as_str(), &change.users);
        t = t + 1;
    }
    assert(at.take(at.len() as int) =~= at);
}

} // verus!
