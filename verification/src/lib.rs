//! An access-control roster: which users are authorised for each
//! environment of each group.
//!
//! The roster is a [`permissions::Permissions`]: a map from group name to
//! [`group::DevGroup`], itself a map from environment name to
//! [`listing::Listing`], a set of users. A [`change::Change`] adds users to,
//! or removes them from, the sets that it selects by group and environment,
//! names being matched without regard to case and an empty list of names
//! selecting all. The module [`command`] says what each command of the tool
//! comes to for a given file content; [`json`] reads and writes the file's
//! text; [`laws`] and [`canonical`] hold what is proved of changes and of the
//! canonical form.

pub mod canonical;
pub mod change;
pub mod codepoint;
pub mod command;
pub mod filter;
pub mod group;
pub mod json;
pub mod laws;
pub mod listing;
pub mod order;
pub mod permissions;
pub mod sorted;
pub mod table;
