//! The canonical form: writing a roster out and reading it back.

use crate::group::{entry_names, group_canonical, group_entries, group_of, GroupView};
use crate::permissions::{canonical, roster_entries, roster_of, RosterEntries, RosterView};
use crate::sorted::{lemma_listing, listed, strictly_sorted};
use vstd::prelude::*;

verus! {

/// The group has finitely many environments, each with finitely many users.
pub open spec fn group_finite(group: GroupView) -> bool {
    &&& group.dom().finite()
    &&& forall|e: Seq<char>| #[trigger] group.dom().contains(e) ==> group[e].finite()
}

/// The roster has finitely many groups, each of them finite.
pub open spec fn roster_finite(roster: RosterView) -> bool {
    &&& roster.dom().finite()
    &&& forall|g: Seq<char>| #[trigger] roster.dom().contains(g) ==> group_finite(roster[g])
}

/// No later entry has the name of the entry at `i`.
pub open spec fn last_of_its_name<V>(entries: Seq<(Seq<char>, V)>, i: int) -> bool {
    forall|j: int| i < j < entries.len() ==> (#[trigger] entries[j]).0 != entries[i].0
}

/// The group that entries describe has the entries' names for its
/// environments, and under each name the users of the last entry of that
/// name.
pub proof fn lemma_group_of(entries: Seq<(Seq<char>, Seq<Seq<char>>)>)
    ensures
        group_of(entries).dom() == entry_names(entries).to_set(),
        group_finite(group_of(entries)),
        forall|i: int|
            0 <= i < entries.len() && last_of_its_name(entries, i) ==> group_of(entries)[(
            #[trigger] entries[i]).0] == entries[i].1.to_set(),
    decreases entries.len(),
{
    let names = entry_names(entries);
    if entries.len() == 0 {
        assert(group_of(entries).dom() =~= names.to_set());
    } else {
        let front = entries.drop_last();
        let last = entries.last();
        lemma_group_of(front);
        assert(names =~= entry_names(front).push(last.0));
        entry_names(front).lemma_push_to_set_commute(last.0);
        assert(group_of(entries).dom() =~= names.to_set());
        vstd::seq_lib::seq_to_set_is_finite(names);
        vstd::seq_lib::seq_to_set_is_finite(last.1);
        assert forall|i: int| 0 <= i < entries.len() && last_of_its_name(entries, i)
            implies group_of(
            entries,
        )[(#[trigger] entries[i]).0] == entries[i].1.to_set() by {
            if i < entries.len() - 1 {
                assert(front[i] == entries[i]);
                assert(entries[entries.len() - 1].0 != entries[i].0);
                assert forall|j: int| i < j < front.len() implies front[j].0 != front[i].0 by {
                    assert(front[j] == entries[j]);
                }
            }
        }
    }
}

/// The roster that entries describe has the entries' names for its groups,
/// and under each name the group of the last entry of that name.
pub proof fn lemma_roster_of(entries: RosterEntries)
    ensures
        roster_of(entries).dom() == entry_names(entries).to_set(),
        roster_finite(roster_of(entries)),
        forall|i: int|
            0 <= i < entries.len() && last_of_its_name(entries, i) ==> roster_of(entries)[(
            #[trigger] entries[i]).0] == group_of(entries[i].1),
    decreases entries.len(),
{
    let names = entry_names(entries);
    if entries.len() == 0 {
        assert(roster_of(entries).dom() =~= names.to_set());
    } else {
        let front = entries.drop_last();
        let last = entries.last();
        lemma_roster_of(front);
        lemma_group_of(last.1);
        assert(names =~= entry_names(front).push(last.0));
        entry_names(front).lemma_push_to_set_commute(last.0);
        assert(roster_of(entries).dom() =~= names.to_set());
        vstd::seq_lib::seq_to_set_is_finite(names);
        assert forall|i: int| 0 <= i < entries.len() && last_of_its_name(entries, i)
            implies roster_of(
            entries,
        )[(#[trigger] entries[i]).0] == group_of(entries[i].1) by {
            if i < entries.len() - 1 {
                assert(front[i] == entries[i]);
                assert(entries[entries.len() - 1].0 != entries[i].0);
                assert forall|j: int| i < j < front.len() implies front[j].0 != front[i].0 by {
                    assert(front[j] == entries[j]);
                }
            }
        }
    }
}

/// The entries of a finite group are in canonical order.
pub proof fn lemma_group_entries_canonical(group: GroupView)
    requires
        group_finite(group),
    ensures
        group_canonical(group_entries(group)),
{
    let names = listed(group.dom());
    let entries = group_entries(group);
    lemma_listing(group.dom());
    assert(entry_names(entries) =~= names);
    assert forall|j: int| 0 <= j < entries.len()
        implies strictly_sorted((#[trigger] entries[j]).1) by {
        assert(names.to_set().contains(names[j]));
        lemma_listing(group[names[j]]);
    }
}

/// The entries of a finite roster are in canonical order: groups ascend by
/// name, within each group the environments, within each of these the
/// users.
pub proof fn lemma_roster_entries_canonical(roster: RosterView)
    requires
        roster_finite(roster),
    ensures
        canonical(roster_entries(roster)),
{
    let names = listed(roster.dom());
    let entries = roster_entries(roster);
    lemma_listing(roster.dom());
    assert(entry_names(entries) =~= names);
    assert forall|i: int| 0 <= i < entries.len()
        implies group_canonical((#[trigger] entries[i]).1) by {
        assert(names.to_set().contains(names[i]));
        lemma_group_entries_canonical(roster[names[i]]);
    }
}

/// A finite group is the group that its own entries describe.
pub proof fn lemma_group_round_trip(group: GroupView)
    requires
        group_finite(group),
    ensures
        group_of(group_entries(group)) == group,
{
    let names = listed(group.dom());
    let entries = group_entries(group);
    lemma_listing(group.dom());
    lemma_group_of(entries);
    assert(entry_names(entries) =~= names);
    let back = group_of(entries);
    assert forall|e: Seq<char>| #[trigger] group.dom().contains(e) implies back[e] == group[e] by {
        assert(names.to_set().contains(e));
        let i = choose|i: int| 0 <= i < names.len() && names[i] == e;
        assert(entries[i].0 == e);
        assert forall|j: int| i < j < entries.len() implies entries[j].0 != entries[i].0 by {
            assert(names[j] != names[i]);
        }
        lemma_listing(group[e]);
    }
    assert(back =~= group);
}

/// A finite roster is the roster that its own entries describe.
pub proof fn lemma_roster_round_trip(roster: RosterView)
    requires
        roster_finite(roster),
    ensures
        roster_of(roster_entries(roster)) == roster,
{
    let names = listed(roster.dom());
    let entries = roster_entries(roster);
    lemma_listing(roster.dom());
    lemma_roster_of(entries);
    assert(entry_names(entries) =~= names);
    let back = roster_of(entries);
    assert forall|g: Seq<char>| #[trigger] roster.dom().contains(g) implies back[g]
        == roster[g] by {
        assert(names.to_set().contains(g));
        let i = choose|i: int| 0 <= i < names.len() && names[i] == g;
        assert(entries[i].0 == g);
        assert forall|j: int| i < j < entries.len() implies entries[j].0 != entries[i].0 by {
            assert(names[j] != names[i]);
        }
        lemma_group_round_trip(roster[g]);
    }
    assert(back =~= roster);
}

/// The canonical form is stable: the roster that entries describe, written
/// out in canonical order and read back, is written out the same again.
pub proof fn lemma_canonical_form_stable(entries: RosterEntries)
    ensures
        roster_entries(roster_of(roster_entries(roster_of(entries)))) == roster_entries(
            roster_of(entries),
        ),
{
    lemma_roster_of(entries);
    lemma_roster_round_trip(roster_of(entries));
}

} // verus!
