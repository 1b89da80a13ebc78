//! The commands of the roster tool, and what each one comes to for a given
//! file content.

use crate::change::{add_user, added, remove_user, removed, Change};
use crate::json::{from_str, json_entries, json_text, to_string_pretty, RosterError};
use crate::permissions::{all_users, roster_entries, roster_of, Permissions, RosterView};
use crate::sorted::listed;
use vstd::prelude::*;

verus! {

/// What to do with the roster.
#[derive(Clone, Debug)]
pub enum Command {
    /// Add users.
    Add(Change),
    /// List all users.
    List,
    /// Write the roster out in canonical form.
    Print,
    /// Remove users.
    Remove(Change),
}

/// One invocation: the file, the command, and whether the file is to be
/// overwritten.
#[derive(Clone, Debug)]
pub struct Opts {
    /// The file that holds the roster.
    pub path: String,
    /// What to do with the roster.
    pub command: Command,
    /// Whether to overwrite the file rather than print the roster.
    pub force: bool,
}

/// What an invocation asks of its surroundings once it has succeeded.
#[derive(Debug)]
pub enum Effect {
    /// Print these users to standard output, one per line, and leave the
    /// file alone.
    PrintUsers(Vec<String>),
    /// Print this text to standard output, and leave the file alone.
    PrintDocument(String),
    /// Overwrite the file at `path` with `text`.
    WriteFile { path: String, text: String },
}

/// The roster that a command leaves behind.
pub open spec fn applied(roster: RosterView, command: Command) -> RosterView {
    match command {
        Command::Add(change) => added(roster, change@),
        Command::Remove(change) => removed(roster, change@),
        Command::List => roster,
        Command::Print => roster,
    }
}

/// Whether `effect` hands over the document `text` as the invocation asks:
/// to its file where `force` is set, to standard output where it is not.
pub open spec fn delivers(effect: Effect, opts: Opts, text: Seq<char>) -> bool {
    match effect {
        Effect::WriteFile { path, text: written } => {
            opts.force && path@ == opts.path@ && written@ == text
        },
        Effect::PrintDocument(printed) => !opts.force && printed@ == text,
        Effect::PrintUsers(_) => false,
    }
}

/// All users of the roster, each once, in ascending order.
pub fn list_users(permissions: &Permissions) -> (users: Vec<String>)
    ensures
        users.deep_view() == listed(all_users(permissions@)),
{
    permissions.users().users()
}

/// Carries out what a command changes in the roster: `Add` and `Remove`
/// change it, `List` and `Print` leave it as it is.
pub fn apply(permissions: &mut Permissions, command: &Command)
    ensures
        final(permissions)@ == applied(old(permissions)@, *command),
{
    match command {
        Command::Add(add) => add_user(permissions, add),
        Command::Remove(remove) => remove_user(permissions, remove),
        Command::List => {},
        Command::Print => {},
    }
}

/// Where a written document goes: into the invocation's file where `force`
/// is set, to standard output where it is not.
pub fn deliver(opts: &Opts, text: String) -> (effect: Effect)
    ensures
        delivers(effect, *opts, text@),
{
    if opts.force {
        Effect::WriteFile { path: opts.path.clone(), text }
    } else {
        Effect::PrintDocument(text)
    }
}

/// What an invocation comes to for a roster already read: for `List` the
/// users to print, for every other command the roster after the command,
/// written out in canonical form and sent where `force` says.
pub fn execute(opts: &Opts, permissions: Permissions) -> (outcome: Result<Effect, RosterError>)
    ensures
        opts.command is List ==> (outcome matches Ok(Effect::PrintUsers(users)) && users.deep_view()
            == listed(all_users(permissions@))),
        !(opts.command is List) ==> match json_text(
            roster_entries(applied(permissions@, opts.command)),
        ) {
            Some(text) => (outcome matches Ok(effect) && delivers(effect, *opts, text)),
            None => outcome matches Err(RosterError::Serialization(_)),
        },
{
    let mut permissions = permissions;
    match &opts.command {
        Command::List => Ok(Effect::PrintUsers(list_users(&permissions))),
        command => {
            apply(&mut permissions, command);
            match to_string_pretty(&permissions) {
                Ok(text) => Ok(deliver(opts, text)),
                Err(error) => Err(error),
            }
        },
    }
}

/// What an invocation comes to, given the content of its file: a failure
/// where the content is no roster, else what the invocation comes to for the
/// roster read from it.
pub fn run(opts: &Opts, content: &str) -> (outcome: Result<Effect, RosterError>)
    ensures
        json_entries(content@) is None ==> outcome matches Err(RosterError::Parse(_)),
        json_entries(content@) matches Some(entries) ==> {
            let roster = roster_of(entries);
            if opts.command is List {
                (outcome matches Ok(Effect::PrintUsers(users)) && users.deep_view() == listed(
                    all_users(roster),
                ))
            } else {
                match json_text(roster_entries(applied(roster, opts.command))) {
                    Some(text) => (outcome matches Ok(effect) && delivers(effect, *opts, text)),
                    None => outcome matches Err(RosterError::Serialization(_)),
                }
            }
        },
{
    match from_str(content) {
        Ok(permissions) => execute(opts, permissions),
        Err(error) => Err(error),
    }
}

} // verus!
