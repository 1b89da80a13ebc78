//! The set of users authorised for one group and environment.

use crate::sorted::{
    lemma_insert_sorted, lemma_listed, lemma_remove_sorted, listed, locate, strictly_sorted,
};
use vstd::prelude::*;

verus! {

/// A set of user identifiers, kept in ascending order.
#[derive(Debug)]
pub struct Listing {
    users: Vec<String>,
}

impl View for Listing {
    type V = Set<Seq<char>>;

    closed spec fn view(&self) -> Set<Seq<char>> {
        self.users.deep_view().to_set()
    }
}

impl Listing {
    #[verifier::type_invariant]
    spec fn ascending(&self) -> bool {
        strictly_sorted(self.users.deep_view())
    }

    /// The empty set.
    pub fn new() -> (listing: Listing)
        ensures
            listing@ == Set::<Seq<char>>::empty(),
    {
        let listing = Listing { users: Vec::new() };
        assert(listing.users.deep_view().to_set() =~= Set::empty());
        listing
    }

    /// The number of users in the set.
    pub fn len(&self) -> (n: usize)
        ensures
            self@.finite(),
            n == self@.len(),
    {
        proof {
            use_type_invariant(self);
            lemma_listed(self.users.deep_view());
        }
        self.users.len()
    }

    /// Whether `user` is in the set.
    pub fn contains(&self, user: &str) -> (found: bool)
        ensures
            found == self@.contains(user@),
    {
        proof {
            use_type_invariant(self);
        }
        let (_, found) = locate(&self.users, user);
        found
    }

    /// Puts `user` into the set; says whether it was new.
    pub fn insert(&mut self, user: String) -> (added: bool)
        ensures
            final(self)@ == old(self)@.insert(user@),
            added == !old(self)@.contains(user@),
            !added ==> final(self)@ == old(self)@,
    {
        proof {
            use_type_invariant(&*self);
        }
        let ghost before = self.users.deep_view();
        let (at, found) = locate(&self.users, user.as_str());
        if found {
            assert(before.to_set().insert(user@) =~= before.to_set());
            return false;
        }
        let ghost name = user@;
        let mut users: Vec<String> = Vec::new();
        std::mem::swap(&mut self.users, &mut users);
        users.insert(at, user);
        proof {
            assert(users.deep_view() =~= before.insert(at as int, name));
            lemma_insert_sorted(before, at as int, name);
        }
        std::mem::swap(&mut self.users, &mut users);
        true
    }

    /// Takes `user` out of the set; says whether it was there.
    pub fn remove(&mut self, user: &str) -> (removed: bool)
        ensures
            final(self)@ == old(self)@.remove(user@),
            removed == old(self)@.contains(user@),
            !removed ==> final(self)@ == old(self)@,
    {
        proof {
            use_type_invariant(&*self);
        }
        let ghost before = self.users.deep_view();
        let (at, found) = locate(&self.users, user);
        if !found {
            assert(before.to_set().remove(user@) =~= before.to_set());
            return false;
        }
        let mut users: Vec<String> = Vec::new();
        std::mem::swap(&mut self.users, &mut users);
        users.remove(at);
        proof {
            assert(users.deep_view() =~= before.remove(at as int));
            lemma_remove_sorted(before, at as int);
        }
        std::mem::swap(&mut self.users, &mut users);
        true
    }

    /// The set of the given users.
    pub fn from_users(users: Vec<String>) -> (listing: Listing)
        ensures
            listing@ == users.deep_view().to_set(),
    {
        let ghost all = users.deep_view();
        let mut listing = Listing::new();
        for user in it: users
            invariant
                it.seq().len() == all.len(),
                forall|i: int| 0 <= i < all.len() ==> (#[trigger] it.seq()[i])@ == all[i],
                listing@ == all.take(it.index() as int).to_set(),
        {
            proof {
                let k = it.index() as int;
                assert(all.take(k + 1) =~= all.take(k).push(all[k]));
                all.take(k).lemma_push_to_set_commute(all[k]);
            }
            listing.insert(user);
        }
        assert(all.take(all.len() as int) =~= all);
        listing
    }

    /// Puts every one of `users` into the set.
    pub fn extend(&mut self, users: &Vec<String>)
        ensures
            final(self)@ == old(self)@.union(users.deep_view().to_set()),
    {
        let ghost before = self@;
        let ghost all = users.deep_view();
        let mut k: usize = 0;
        assert(before.union(all.take(0).to_set()) =~= before);
        while k < users.len()
            invariant
                k <= users.len(),
                all == users.deep_view(),
                self@ == before.union(all.take(k as int).to_set()),
            decreases users.len() - k,
        {
            proof {
                assert(all.take(k + 1) =~= all.take(k as int).push(all[k as int]));
                all.take(k as int).lemma_push_to_set_commute(all[k as int]);
                let seen = all.take(k as int).to_set();
                assert(before.union(seen).insert(all[k as int]) =~= before.union(
                    seen.insert(all[k as int]),
                ));
            }
            self.insert(users[k].clone());
            k = k + 1;
        }
        assert(all.take(all.len() as int) =~= all);
    }

    /// Takes every one of `users` out of the set.
    pub fn remove_all(&mut self, users: &Vec<String>)
        ensures
            final(self)@ == old(self)@.difference(users.deep_view().to_set()),
    {
        let ghost before = self@;
        let ghost all = users.deep_view();
        let mut k: usize = 0;
        assert(before.difference(all.take(0).to_set()) =~= before);
        while k < users.len()
            invariant
                k <= users.len(),
                all == users.deep_view(),
                self@ == before.difference(all.take(k as int).to_set()),
            decreases users.len() - k,
        {
            proof {
                assert(all.take(k + 1) =~= all.take(k as int).push(all[k as int]));
                all.take(k as int).lemma_push_to_set_commute(all[k as int]);
                let seen = all.take(k as int).to_set();
                assert(before.difference(seen).remove(all[k as int]) =~= before.difference(
                    seen.insert(all[k as int]),
                ));
            }
            self.remove(users[k].as_str());
            k = k + 1;
        }
        assert(all.take(all.len() as int) =~= all);
    }

    /// Puts every user of `other` into the set.
    pub fn absorb(&mut self, other: &Listing)
        ensures
            final(self)@ == old(self)@.union(other@),
    {
        self.extend(&other.users);
    }

    /// The users of the set, in ascending order.
    pub fn users(&self) -> (users: Vec<String>)
        ensures
            users.deep_view() == listed(self@),
            strictly_sorted(users.deep_view()),
            users.deep_view().to_set() == self@,
    {
        proof {
            use_type_invariant(self);
            lemma_listed(self.users.deep_view());
        }
        let users = self.users.clone();
        assert(users.deep_view() =~= self.users.deep_view());
        users
    }
}

} // verus!
