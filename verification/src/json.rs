//! The roster as JSON text: an object keyed by group, each group an object
//! keyed by environment, each environment an array of users.
//!
//! Reading and writing the text is the work of `serde_json`. What it reads
//! and writes is named here and otherwise taken on trust.

use crate::canonical::lemma_canonical_form_stable;
use crate::permissions::{canonical, roster_entries, roster_of, Permissions};
use std::collections::{BTreeMap, BTreeSet};
use vstd::prelude::*;

verus! {

/// `serde_json::Error`: what went wrong in reading or writing, carried
/// through as it comes.
#[verifier::external_type_specification]
#[verifier::external_body]
pub struct ExJsonError(serde_json::Error);

/// Why a roster could not be read or written.
#[derive(Debug)]
pub enum RosterError {
    /// The text is not JSON, or not an object of objects of arrays of
    /// strings.
    Parse(serde_json::Error),
    /// The roster could not be written as JSON.
    Serialization(serde_json::Error),
}

/// The entries that `serde_json` reads from a text, where it accepts the
/// text as an object of objects of arrays of strings.
pub uninterp spec fn json_entries(text: Seq<char>) -> Option<
    Seq<(Seq<char>, Seq<(Seq<char>, Seq<Seq<char>>)>)>,
>;

/// The pretty-printed JSON text that `serde_json` writes for a roster given
/// by its entries, where it writes one.
pub uninterp spec fn json_text(
    entries: Seq<(Seq<char>, Seq<(Seq<char>, Seq<Seq<char>>)>)>,
) -> Option<Seq<char>>;

/// `serde_json::from_str`, asked for a map of maps of sets of strings. The
/// call succeeds or fails, and gives what it gives, by the text alone; the
/// groups, environments and users come out in the order in which the maps
/// and sets hand them over.
#[verifier::external_body]
fn read_entries(text: &str) -> (read: Result<
    Vec<(String, Vec<(String, Vec<String>)>)>,
    serde_json::Error,
>)
    ensures
        read is Ok <==> json_entries(text@) is Some,
        read matches Ok(entries) ==> json_entries(text@) == Some(entries.deep_view()),
{
    let roster: BTreeMap<String, BTreeMap<String, BTreeSet<String>>> = serde_json::from_str(text)?;
    Ok(
        roster.into_iter().map(
            |(g, group)|
                (g, group.into_iter().map(|(e, users)| (e, users.into_iter().collect())).collect()),
        ).collect(),
    )
}

/// `serde_json::to_string_pretty`, given the roster as a map of maps of sets
/// of strings. The entries are in canonical order, so the maps and sets hold
/// them one for one and in that order; the text, or the failure, depends on
/// the entries alone.
#[verifier::external_body]
fn write_entries(entries: Vec<(String, Vec<(String, Vec<String>)>)>) -> (written: Result<
    String,
    serde_json::Error,
>)
    requires
        canonical(entries.deep_view()),
    ensures
        written is Ok <==> json_text(entries.deep_view()) is Some,
        written matches Ok(text) ==> json_text(entries.deep_view()) == Some(text@),
{
    let roster: BTreeMap<String, BTreeMap<String, BTreeSet<String>>> = entries.into_iter().map(
        |(g, group)|
            (g, group.into_iter().map(|(e, users)| (e, users.into_iter().collect())).collect()),
    ).collect();
    serde_json::to_string_pretty(&roster)
}

/// Printing is stable: where the text written for a roster reads back as
/// the entries that were written, the roster read from it is written as
/// that same text again.
pub proof fn lemma_print_stable(entries: Seq<(Seq<char>, Seq<(Seq<char>, Seq<Seq<char>>)>)>)
    ensures
        ({
            let written = roster_entries(roster_of(entries));
            forall|text: Seq<char>|
                json_text(written) == Some(text) && #[trigger] json_entries(text) == Some(written)
                    ==> json_text(roster_entries(roster_of(json_entries(text).unwrap()))) == Some(
                    text,
                )
        }),
{
    lemma_canonical_form_stable(entries);
}

/// Reads a roster from JSON text.
pub fn from_str(text: &str) -> (parsed: Result<Permissions, RosterError>)
    ensures
        json_entries(text@) matches Some(entries) ==> (parsed matches Ok(permissions)
            && permissions@ == roster_of(entries)),
        json_entries(text@) is None ==> parsed matches Err(RosterError::Parse(_)),
{
    match read_entries(text) {
        Ok(entries) => Ok(Permissions::from_entries(entries)),
        Err(error) => Err(RosterError::Parse(error)),
    }
}

/// Writes a roster as pretty-printed JSON text: the text that `serde_json`
/// writes for the roster's entries in canonical order.
pub fn to_string_pretty(permissions: &Permissions) -> (written: Result<String, RosterError>)
    ensures
        canonical(roster_entries(permissions@)),
        json_text(roster_entries(permissions@)) matches Some(text) ==> (written matches Ok(s) && s@
            == text),
        json_text(roster_entries(permissions@)) is None ==> written matches Err(
            RosterError::Serialization(_),
        ),
{
    match write_entries(permissions.to_entries()) {
        Ok(text) => Ok(text),
        Err(error) => Err(RosterError::Serialization(error)),
    }
}

} // verus!
