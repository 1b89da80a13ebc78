//! The roster: groups, their environments, and the users authorised for each.

use crate::canonical::{lemma_roster_of, roster_finite};
use crate::group::{
    entry_names, group_canonical, group_entries, group_of, group_users, with_users, without_users,
    DevGroup, GroupView,
};
use crate::listing::Listing;
use crate::sorted::{
    lemma_insert_sorted, lemma_listed, lemma_sorted_no_duplicates, listed, locate, strictly_sorted,
};
use crate::table::{lemma_paired_at, lemma_paired_dom, lemma_paired_insert, lemma_paired_update,
    paired};
use vstd::prelude::*;

verus! {

/// What a roster is, as a map from group name to group.
pub type RosterView = Map<Seq<char>, GroupView>;

/// A roster written out: groups, environments and users as nested sequences.
pub type RosterEntries = Seq<(Seq<char>, Seq<(Seq<char>, Seq<Seq<char>>)>)>;

/// The groups that a sequence of `DevGroup` values stands for.
spec fn group_views(groups: Seq<DevGroup>) -> Seq<GroupView> {
    groups.map_values(|g: DevGroup| g@)
}

/// The roster that a sequence of entries describes: each group with its
/// environments, a later entry taking the place of an earlier one of the
/// same name.
pub open spec fn roster_of(entries: RosterEntries) -> RosterView
    decreases entries.len(),
{
    if entries.len() == 0 {
        Map::empty()
    } else {
        roster_of(entries.drop_last()).insert(entries.last().0, group_of(entries.last().1))
    }
}

/// The entries of a roster in canonical order: groups ascending by name,
/// within each its environments ascending, within each its users ascending.
pub open spec fn roster_entries(roster: RosterView) -> RosterEntries {
    listed(roster.dom()).map_values(|g: Seq<char>| (g, group_entries(roster[g])))
}

/// The entries are in canonical order: the groups ascend by name, and the
/// entries of each group are in canonical order.
pub open spec fn canonical(entries: RosterEntries) -> bool {
    &&& strictly_sorted(entry_names(entries))
    &&& forall|i: int| 0 <= i < entries.len() ==> group_canonical((#[trigger] entries[i]).1)
}

/// The users of a roster: whoever is in the set of one environment of one
/// of its groups.
pub open spec fn all_users(roster: RosterView) -> Set<Seq<char>> {
    Set::new(
        |u: Seq<char>| exists|g: Seq<char>| roster.dom().contains(g)
            && group_users(roster[g]).contains(u),
    )
}

/// The roster with `users` added to `environment` of `group`; the roster
/// itself where it has no such group or the group no such environment.
pub open spec fn roster_with_users(
    roster: RosterView,
    group: Seq<char>,
    environment: Seq<char>,
    users: Set<Seq<char>>,
) -> RosterView {
    if roster.dom().contains(group) {
        roster.insert(group, with_users(roster[group], environment, users))
    } else {
        roster
    }
}

/// The roster with `users` taken out of `environment` of `group`; the roster
/// itself where it has no such group or the group no such environment.
pub open spec fn roster_without_users(
    roster: RosterView,
    group: Seq<char>,
    environment: Seq<char>,
    users: Set<Seq<char>>,
) -> RosterView {
    if roster.dom().contains(group) {
        roster.insert(group, without_users(roster[group], environment, users))
    } else {
        roster
    }
}

/// The roster, its groups kept in ascending order of their names.
#[derive(Debug)]
pub struct Permissions {
    names: Vec<String>,
    groups: Vec<DevGroup>,
}

impl View for Permissions {
    type V = RosterView;

    closed spec fn view(&self) -> RosterView {
        paired(self.names.deep_view(), group_views(self.groups@))
    }
}

impl Permissions {
    #[verifier::type_invariant]
    spec fn ascending(&self) -> bool {
        &&& self.names.len() == self.groups.len()
        &&& strictly_sorted(self.names.deep_view())
    }

    /// A roster without groups.
    pub fn new() -> (permissions: Permissions)
        ensures
            permissions@ == Map::<Seq<char>, GroupView>::empty(),
    {
        let permissions = Permissions { names: Vec::new(), groups: Vec::new() };
        assert(permissions@ =~= Map::empty());
        permissions
    }

    /// The number of groups.
    pub fn len(&self) -> (n: usize)
        ensures
            self@.dom().finite(),
            n == self@.dom().len(),
    {
        proof {
            use_type_invariant(self);
            lemma_paired_dom(self.names.deep_view(), group_views(self.groups@));
            lemma_listed(self.names.deep_view());
        }
        self.names.len()
    }

    /// The names of the groups, in ascending order.
    pub fn groups(&self) -> (names: Vec<String>)
        ensures
            self@.dom().finite(),
            names.deep_view() == listed(self@.dom()),
            strictly_sorted(names.deep_view()),
            names.deep_view().to_set() == self@.dom(),
    {
        proof {
            use_type_invariant(self);
            lemma_paired_dom(self.names.deep_view(), group_views(self.groups@));
            lemma_listed(self.names.deep_view());
        }
        let names = self.names.clone();
        assert(names.deep_view() =~= self.names.deep_view());
        names
    }

    /// The group of that name, if the roster has it.
    pub fn get(&self, group: &str) -> (found: Option<&DevGroup>)
        ensures
            found is Some <==> self@.dom().contains(group@),
            found matches Some(g) ==> g@ == self@[group@],
    {
        proof {
            use_type_invariant(self);
            lemma_sorted_no_duplicates(self.names.deep_view());
        }
        let (at, found) = locate(&self.names, group);
        if found {
            proof {
                lemma_paired_at(self.names.deep_view(), group_views(self.groups@), at as int);
            }
            Some(&self.groups[at])
        } else {
            None
        }
    }

    /// Puts `group` into the roster under `name`, in place of what the
    /// roster held under that name.
    pub fn insert(&mut self, name: String, group: DevGroup)
        ensures
            final(self)@ == old(self)@.insert(name@, group@),
    {
        proof {
            use_type_invariant(&*self);
            lemma_sorted_no_duplicates(self.names.deep_view());
        }
        let ghost names_before = self.names.deep_view();
        let ghost views_before = group_views(self.groups@);
        let (at, found) = locate(&self.names, name.as_str());
        let mut taken = Permissions::new();
        std::mem::swap(self, &mut taken);
        let Permissions { mut names, mut groups } = taken;
        if found {
            proof {
                lemma_paired_update(names_before, views_before, at as int, group@);
            }
            groups.set(at, group);
            assert(group_views(groups@) =~= views_before.update(at as int, groups[at as int]@));
        } else {
            proof {
                lemma_insert_sorted(names_before, at as int, name@);
                lemma_sorted_no_duplicates(names_before.insert(at as int, name@));
                lemma_paired_insert(names_before, views_before, at as int, name@, group@);
            }
            let ghost key = name@;
            names.insert(at, name);
            groups.insert(at, group);
            assert(names.deep_view() =~= names_before.insert(at as int, key));
            assert(group_views(groups@) =~= views_before.insert(at as int, groups[at as int]@));
        }
        *self = Permissions { names, groups };
    }

    /// Adds `users` to `environment` of `group`, if the roster has them;
    /// says whether it has.
    pub fn add_users(&mut self, group: &str, environment: &str, users: &Vec<String>)
        -> (found: bool)
        ensures
            final(self)@ == roster_with_users(
                old(self)@,
                group@,
                environment@,
                users.deep_view().to_set(),
            ),
            found == (old(self)@.dom().contains(group@) && old(self)@[group@].dom().contains(
                environment@,
            )),
    {
        proof {
            use_type_invariant(&*self);
            lemma_sorted_no_duplicates(self.names.deep_view());
        }
        let ghost names = self.names.deep_view();
        let ghost views_before = group_views(self.groups@);
        let (at, found) = locate(&self.names, group);
        if !found {
            return false;
        }
        let mut taken = Permissions::new();
        std::mem::swap(self, &mut taken);
        let Permissions { names: kept, mut groups } = taken;
        let found = groups[at].add_users(environment, users);
        proof {
            let changed = with_users(views_before[at as int], environment@,
                users.deep_view().to_set());
            lemma_paired_at(names, views_before, at as int);
            assert(group_views(groups@) =~= views_before.update(at as int, changed));
            lemma_paired_update(names, views_before, at as int, changed);
        }
        *self = Permissions { names: kept, groups };
        found
    }

    /// Takes `users` out of `environment` of `group`, if the roster has
    /// them; says whether it has.
    pub fn remove_users(&mut self, group: &str, environment: &str, users: &Vec<String>) -> (found:
        bool)
        ensures
            final(self)@ == roster_without_users(
                old(self)@,
                group@,
                environment@,
                users.deep_view().to_set(),
            ),
            found == (old(self)@.dom().contains(group@) && old(self)@[group@].dom().contains(
                environment@,
            )),
    {
        proof {
            use_type_invariant(&*self);
            lemma_sorted_no_duplicates(self.names.deep_view());
        }
        let ghost names = self.names.deep_view();
        let ghost views_before = group_views(self.groups@);
        let (at, found) = locate(&self.names, group);
        if !found {
            return false;
        }
        let mut taken = Permissions::new();
        std::mem::swap(self, &mut taken);
        let Permissions { names: kept, mut groups } = taken;
        let found = groups[at].remove_users(environment, users);
        proof {
            let changed = without_users(
                views_before[at as int],
                environment@,
                users.deep_view().to_set(),
            );
            lemma_paired_at(names, views_before, at as int);
            assert(group_views(groups@) =~= views_before.update(at as int, changed));
            lemma_paired_update(names, views_before, at as int, changed);
        }
        *self = Permissions { names: kept, groups };
        found
    }

    /// The users of the roster: whoever is authorised anywhere in it.
    pub fn users(&self) -> (users: Listing)
        ensures
            users@ == all_users(self@),
    {
        proof {
            use_type_invariant(self);
            lemma_sorted_no_duplicates(self.names.deep_view());
        }
        let ghost names = self.names.deep_view();
        let ghost views = group_views(self.groups@);
        let mut users = Listing::new();
        let mut i: usize = 0;
        while i < self.groups.len()
            invariant
                i <= self.groups.len(),
                self.names.len() == self.groups.len(),
                names == self.names.deep_view(),
                names.no_duplicates(),
                views == group_views(self.groups@),
                forall|u: Seq<char>| #[trigger] users@.contains(u) ==> all_users(self@).contains(u),
                forall|n: int, u: Seq<char>|
                    0 <= n < i && #[trigger] group_users(views[n]).contains(u)
                        ==> users@.contains(u),
            decreases self.groups.len() - i,
        {
            proof {
                lemma_paired_at(names, views, i as int);
                assert forall|u: Seq<char>| #[trigger]
                    group_users(views[i as int]).contains(u)
                        implies all_users(self@).contains(u) by {
                    assert(self@.dom().contains(names[i as int]) && group_users(
                        self@[names[i as int]],
                    ).contains(u));
                }
            }
            self.groups[i].collect_users(&mut users);
            i = i + 1;
        }
        proof {
            assert forall|u: Seq<char>| all_users(self@).contains(u) implies users@.contains(u) by {
                let g = choose|g: Seq<char>| self@.dom().contains(g)
                    && group_users(self@[g]).contains(u);
                let n = choose|n: int| 0 <= n < names.len() && names[n] == g;
                lemma_paired_at(names, views, n);
                assert(group_users(views[n]).contains(u));
            }
            assert(users@ =~= all_users(self@));
        }
        users
    }

    /// The roster that the entries describe.
    pub fn from_entries(entries: Vec<(String, Vec<(String, Vec<String>)>)>)
        -> (permissions: Permissions)
        ensures
            permissions@ == roster_of(entries.deep_view()),
    {
        let ghost all = entries.deep_view();
        let mut permissions = Permissions::new();
        for entry in it: entries
            invariant
                it.seq().len() == all.len(),
                forall|i: int| 0 <= i < all.len()
                    ==> (#[trigger] it.seq()[i]).deep_view() == all[i],
                permissions@ == roster_of(all.take(it.index() as int)),
        {
            proof {
                let k = it.index() as int;
                assert(all.take(k + 1).drop_last() =~= all.take(k));
            }
            let (name, environments) = entry;
            permissions.insert(name, DevGroup::from_entries(environments));
        }
        assert(all.take(all.len() as int) =~= all);
        permissions
    }

    /// The roster in canonical order.
    pub fn to_entries(&self) -> (entries: Vec<(String, Vec<(String, Vec<String>)>)>)
        ensures
            entries.deep_view() == roster_entries(self@),
            canonical(entries.deep_view()),
            roster_of(entries.deep_view()) == self@,
            roster_finite(self@),
    {
        proof {
            use_type_invariant(self);
            lemma_paired_dom(self.names.deep_view(), group_views(self.groups@));
            lemma_listed(self.names.deep_view());
            lemma_sorted_no_duplicates(self.names.deep_view());
        }
        let mut entries: Vec<(String, Vec<(String, Vec<String>)>)> = Vec::new();
        let mut i: usize = 0;
        while i < self.names.len()
            invariant
                i <= self.names.len(),
                self.names.len() == self.groups.len(),
                self.names.deep_view().no_duplicates(),
                self.names.deep_view() == listed(self@.dom()),
                entries.len() == i,
                forall|k: int| 0 <= k < i
                    ==> (#[trigger] entries[k]).deep_view() == roster_entries(self@)[k],
                forall|k: int| 0 <= k < i
                    ==> group_canonical((#[trigger] entries[k]).deep_view().1),
                forall|k: int| 0 <= k < i
                    ==> group_of((#[trigger] entries[k]).deep_view().1) == self.groups[k]@,
            decreases self.names.len() - i,
        {
            proof {
                lemma_paired_at(self.names.deep_view(), group_views(self.groups@), i as int);
            }
            let name = self.names[i].clone();
            let environments = self.groups[i].to_entries();
            entries.push((name, environments));
            i = i + 1;
        }
        assert(entries.deep_view() =~= roster_entries(self@));
        proof {
            let written = entries.deep_view();
            let names = self.names.deep_view();
            let views = group_views(self.groups@);
            assert(entry_names(written) =~= names);
            lemma_roster_of(written);
            assert forall|g: Seq<char>| #[trigger] self@.dom().contains(g)
                implies roster_of(written)[g] == self@[g] by {
                let i = choose|i: int| 0 <= i < names.len() && names[i] == g;
                lemma_paired_at(names, views, i);
                assert(written[i].0 == g);
                assert(written[i] == entries[i].deep_view());
                assert forall|k: int| i < k < written.len()
                    implies written[k].0 != written[i].0 by {
                    assert(names[k] != names[i]);
                }
            }
            assert(roster_of(written) =~= self@);
        }
        entries
    }
}

} // verus!
