//! A group: its environments, each with the users authorised for it.

use crate::canonical::{group_finite, lemma_group_of};
use crate::listing::Listing;
use crate::sorted::{
    lemma_insert_sorted, lemma_listed, lemma_sorted_no_duplicates, listed, locate, strictly_sorted,
};
use crate::table::{lemma_paired_at, lemma_paired_dom, lemma_paired_insert, lemma_paired_update,
    paired};
use vstd::prelude::*;

verus! {

/// What a group is, as a map from environment name to set of users.
pub type GroupView = Map<Seq<char>, Set<Seq<char>>>;

/// The sets that a sequence of listings stands for.
spec fn listing_views(listings: Seq<Listing>) -> Seq<Set<Seq<char>>> {
    listings.map_values(|l: Listing| l@)
}

/// The environments of one group, kept in ascending order of their names.
#[derive(Debug)]
pub struct DevGroup {
    names: Vec<String>,
    listings: Vec<Listing>,
}

impl View for DevGroup {
    type V = GroupView;

    closed spec fn view(&self) -> GroupView {
        paired(self.names.deep_view(), listing_views(self.listings@))
    }
}

impl DevGroup {
    #[verifier::type_invariant]
    spec fn ascending(&self) -> bool {
        &&& self.names.len() == self.listings.len()
        &&& strictly_sorted(self.names.deep_view())
    }

    /// A group without environments.
    pub fn new() -> (group: DevGroup)
        ensures
            group@ == Map::<Seq<char>, Set<Seq<char>>>::empty(),
    {
        let group = DevGroup { names: Vec::new(), listings: Vec::new() };
        assert(group@ =~= Map::empty());
        group
    }

    /// The number of environments.
    pub fn len(&self) -> (n: usize)
        ensures
            self@.dom().finite(),
            n == self@.dom().len(),
    {
        proof {
            use_type_invariant(self);
            lemma_paired_dom(self.names.deep_view(), listing_views(self.listings@));
            lemma_listed(self.names.deep_view());
        }
        self.names.len()
    }

    /// The names of the environments, in ascending order.
    pub fn environments(&self) -> (names: Vec<String>)
        ensures
            self@.dom().finite(),
            names.deep_view() == listed(self@.dom()),
            strictly_sorted(names.deep_view()),
            names.deep_view().to_set() == self@.dom(),
    {
        proof {
            use_type_invariant(self);
            lemma_paired_dom(self.names.deep_view(), listing_views(self.listings@));
            lemma_listed(self.names.deep_view());
        }
        let names = self.names.clone();
        assert(names.deep_view() =~= self.names.deep_view());
        names
    }

    /// The users of `environment`, if the group has it.
    pub fn get(&self, environment: &str) -> (found: Option<&Listing>)
        ensures
            found is Some <==> self@.dom().contains(environment@),
            found matches Some(listing) ==> listing@ == self@[environment@],
    {
        proof {
            use_type_invariant(self);
            lemma_sorted_no_duplicates(self.names.deep_view());
        }
        let (at, found) = locate(&self.names, environment);
        if found {
            proof {
                lemma_paired_at(self.names.deep_view(), listing_views(self.listings@), at as int);
            }
            Some(&self.listings[at])
        } else {
            None
        }
    }

    /// Puts `environment` into the group with the given users, in place of
    /// what the group held under that name.
    pub fn insert(&mut self, environment: String, listing: Listing)
        ensures
            final(self)@ == old(self)@.insert(environment@, listing@),
    {
        proof {
            use_type_invariant(&*self);
            lemma_sorted_no_duplicates(self.names.deep_view());
        }
        let ghost names_before = self.names.deep_view();
        let ghost sets_before = listing_views(self.listings@);
        let (at, found) = locate(&self.names, environment.as_str());
        let mut taken = DevGroup::new();
        std::mem::swap(self, &mut taken);
        let DevGroup { mut names, mut listings } = taken;
        if found {
            listings.set(at, listing);
            proof {
                assert(listing_views(listings@) =~= sets_before.update(at as int, listing@));
                lemma_paired_update(names_before, sets_before, at as int, listing@);
            }
        } else {
            let ghost name = environment@;
            names.insert(at, environment);
            listings.insert(at, listing);
            proof {
                assert(names.deep_view() =~= names_before.insert(at as int, name));
                assert(listing_views(listings@) =~= sets_before.insert(at as int, listing@));
                lemma_insert_sorted(names_before, at as int, name);
                lemma_sorted_no_duplicates(names.deep_view());
                lemma_paired_insert(names_before, sets_before, at as int, name, listing@);
            }
        }
        *self = DevGroup { names, listings };
    }

    /// The group that the entries describe: each environment with its users,
    /// a later entry taking the place of an earlier one of the same name.
    pub fn from_entries(entries: Vec<(String, Vec<String>)>) -> (group: DevGroup)
        ensures
            group@ == group_of(entries.deep_view()),
    {
        let ghost all = entries.deep_view();
        let mut group = DevGroup::new();
        for entry in it: entries
            invariant
                it.seq().len() == all.len(),
                forall|i: int| 0 <= i < all.len()
                    ==> (#[trigger] it.seq()[i]).deep_view() == all[i],
                group@ == group_of(all.take(it.index() as int)),
        {
            proof {
                let k = it.index() as int;
                assert(all.take(k + 1).drop_last() =~= all.take(k));
            }
            let (environment, users) = entry;
            group.insert(environment, Listing::from_users(users));
        }
        assert(all.take(all.len() as int) =~= all);
        group
    }

    /// The environments in ascending order, each with its users in
    /// ascending order.
    pub fn to_entries(&self) -> (entries: Vec<(String, Vec<String>)>)
        ensures
            entries.deep_view() == group_entries(self@),
            group_canonical(entries.deep_view()),
            group_of(entries.deep_view()) == self@,
            group_finite(self@),
    {
        proof {
            use_type_invariant(self);
            lemma_paired_dom(self.names.deep_view(), listing_views(self.listings@));
            lemma_listed(self.names.deep_view());
            lemma_sorted_no_duplicates(self.names.deep_view());
        }
        let mut entries: Vec<(String, Vec<String>)> = Vec::new();
        let mut j: usize = 0;
        while j < self.names.len()
            invariant
                j <= self.names.len(),
                self.names.len() == self.listings.len(),
                self.names.deep_view().no_duplicates(),
                self.names.deep_view() == listed(self@.dom()),
                entries.len() == j,
                forall|i: int| 0 <= i < j
                    ==> (#[trigger] entries[i]).deep_view() == group_entries(self@)[i],
                forall|i: int| 0 <= i < j
                    ==> strictly_sorted((#[trigger] entries[i]).deep_view().1),
                forall|i: int|
                    0 <= i < j
                        ==> (#[trigger] entries[i]).deep_view().1.to_set() == self.listings[i]@,
            decreases self.names.len() - j,
        {
            proof {
                lemma_paired_at(self.names.deep_view(), listing_views(self.listings@), j as int);
            }
            let name = self.names[j].clone();
            let users = self.listings[j].users();
            entries.push((name, users));
            j = j + 1;
        }
        assert(entries.deep_view() =~= group_entries(self@));
        proof {
            let written = entries.deep_view();
            let names = self.names.deep_view();
            let sets = listing_views(self.listings@);
            assert(entry_names(written) =~= names);
            lemma_group_of(written);
            assert forall|e: Seq<char>| #[trigger] self@.dom().contains(e)
                implies group_of(written)[e] == self@[e] by {
                let i = choose|i: int| 0 <= i < names.len() && names[i] == e;
                lemma_paired_at(names, sets, i);
                assert(written[i].0 == e);
                assert(written[i] == entries[i].deep_view());
                assert forall|k: int| i < k < written.len()
                    implies written[k].0 != written[i].0 by {
                    assert(names[k] != names[i]);
                }
            }
            assert(group_of(written) =~= self@);
        }
        entries
    }

    /// Puts every user of the group into `into`.
    pub fn collect_users(&self, into: &mut Listing)
        ensures
            final(into)@ == old(into)@.union(group_users(self@)),
    {
        proof {
            use_type_invariant(self);
            lemma_sorted_no_duplicates(self.names.deep_view());
        }
        let ghost before = into@;
        let ghost names = self.names.deep_view();
        let ghost sets = listing_views(self.listings@);
        let mut j: usize = 0;
        while j < self.listings.len()
            invariant
                j <= self.listings.len(),
                self.names.len() == self.listings.len(),
                names == self.names.deep_view(),
                names.no_duplicates(),
                sets == listing_views(self.listings@),
                forall|u: Seq<char>| #[trigger]
                    into@.contains(u) ==> before.contains(u) || group_users(self@).contains(u),
                forall|u: Seq<char>| #[trigger] before.contains(u) ==> into@.contains(u),
                forall|m: int, u: Seq<char>| 0 <= m < j && #[trigger] sets[m].contains(u)
                    ==> into@.contains(u),
            decreases self.listings.len() - j,
        {
            proof {
                lemma_paired_at(names, sets, j as int);
                assert forall|u: Seq<char>| #[trigger] sets[j as int].contains(u)
                    implies group_users(
                    self@,
                ).contains(u) by {
                    assert(self@.dom().contains(names[j as int])
                        && self@[names[j as int]].contains(u));
                }
            }
            into.absorb(&self.listings[j]);
            j = j + 1;
        }
        proof {
            assert forall|u: Seq<char>| group_users(self@).contains(u)
                implies into@.contains(u) by {
                let e = choose|e: Seq<char>| self@.dom().contains(e) && self@[e].contains(u);
                let m = choose|m: int| 0 <= m < names.len() && names[m] == e;
                lemma_paired_at(names, sets, m);
                assert(sets[m].contains(u));
            }
            assert(into@ =~= before.union(group_users(self@)));
        }
    }

    /// Adds `users` to `environment`, if the group has it; says whether it
    /// has.
    pub fn add_users(&mut self, environment: &str, users: &Vec<String>) -> (found: bool)
        ensures
            final(self)@ == with_users(old(self)@, environment@, users.deep_view().to_set()),
            found == old(self)@.dom().contains(environment@),
    {
        proof {
            use_type_invariant(&*self);
            lemma_sorted_no_duplicates(self.names.deep_view());
        }
        let ghost names = self.names.deep_view();
        let ghost sets_before = listing_views(self.listings@);
        let (at, found) = locate(&self.names, environment);
        if !found {
            return false;
        }
        let mut taken = DevGroup::new();
        std::mem::swap(self, &mut taken);
        let DevGroup { names: kept, mut listings } = taken;
        listings[at].extend(users);
        proof {
            let changed = sets_before[at as int].union(users.deep_view().to_set());
            lemma_paired_at(names, sets_before, at as int);
            assert(listing_views(listings@) =~= sets_before.update(at as int, changed));
            lemma_paired_update(names, sets_before, at as int, changed);
        }
        *self = DevGroup { names: kept, listings };
        true
    }

    /// Takes `users` out of `environment`, if the group has it; says whether
    /// it has.
    pub fn remove_users(&mut self, environment: &str, users: &Vec<String>) -> (found: bool)
        ensures
            final(self)@ == without_users(old(self)@, environment@, users.deep_view().to_set()),
            found == old(self)@.dom().contains(environment@),
    {
        proof {
            use_type_invariant(&*self);
            lemma_sorted_no_duplicates(self.names.deep_view());
        }
        let ghost names = self.names.deep_view();
        let ghost sets_before = listing_views(self.listings@);
        let (at, found) = locate(&self.names, environment);
        if !found {
            return false;
        }
        let mut taken = DevGroup::new();
        std::mem::swap(self, &mut taken);
        let DevGroup { names: kept, mut listings } = taken;
        listings[at].remove_all(users);
        proof {
            let changed = sets_before[at as int].difference(users.deep_view().to_set());
            lemma_paired_at(names, sets_before, at as int);
            assert(listing_views(listings@) =~= sets_before.update(at as int, changed));
            lemma_paired_update(names, sets_before, at as int, changed);
        }
        *self = DevGroup { names: kept, listings };
        true
    }
}

/// The names of a sequence of entries, in the order of the entries.
pub open spec fn entry_names<V>(entries: Seq<(Seq<char>, V)>) -> Seq<Seq<char>> {
    entries.map_values(|entry: (Seq<char>, V)| entry.0)
}

/// The entries of a group are in canonical order: the environments ascend by
/// name, and so do the users of each.
pub open spec fn group_canonical(entries: Seq<(Seq<char>, Seq<Seq<char>>)>) -> bool {
    &&& strictly_sorted(entry_names(entries))
    &&& forall|j: int| 0 <= j < entries.len() ==> strictly_sorted((#[trigger] entries[j]).1)
}

/// The users of a group: whoever is in the set of one of its environments.
pub open spec fn group_users(group: GroupView) -> Set<Seq<char>> {
    Set::new(|u: Seq<char>| exists|e: Seq<char>| group.dom().contains(e) && group[e].contains(u))
}

/// The group that a sequence of entries describes.
pub open spec fn group_of(entries: Seq<(Seq<char>, Seq<Seq<char>>)>) -> GroupView
    decreases entries.len(),
{
    if entries.len() == 0 {
        Map::empty()
    } else {
        group_of(entries.drop_last()).insert(entries.last().0, entries.last().1.to_set())
    }
}

/// The entries of a group: its environments in ascending order, each with
/// its users in ascending order.
pub open spec fn group_entries(group: GroupView) -> Seq<(Seq<char>, Seq<Seq<char>>)> {
    listed(group.dom()).map_values(|e: Seq<char>| (e, listed(group[e])))
}

/// The group with `users` added to `environment`; the group itself where it
/// has no such environment.
pub open spec fn with_users(group: GroupView, environment: Seq<char>, users: Set<Seq<char>>)
    -> GroupView {
    if group.dom().contains(environment) {
        group.insert(environment, group[environment].union(users))
    } else {
        group
    }
}

/// The group with `users` taken out of `environment`; the group itself where
/// it has no such environment.
pub open spec fn without_users(
    group: GroupView,
    environment: Seq<char>,
    users: Set<Seq<char>>,
) -> GroupView {
    if group.dom().contains(environment) {
        group.insert(environment, group[environment].difference(users))
    } else {
        group
    }
}

} // verus!
