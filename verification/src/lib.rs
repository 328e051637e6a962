//! Installs the skills and agents that a repo ships into opencode's roots.
//!
//! The library holds the decisions: which names are valid, how a `SKILL.md`
//! frontmatter is read, which entries of a repo are skills, agents or
//! commands and in what order, where things are installed, and the install
//! protocol as a state machine that asks its caller for one file system or
//! git step at a time.
use vstd::prelude::*;

pub mod agents;
pub mod commands;
pub mod install;
pub mod listing;
pub mod skills;
pub mod target;
pub mod text;

verus! {

/// The repo installed from when none is named.
pub const DEFAULT_REPO: &'static str = "https://github.com/sheltonsuen/oh-my-harness";

} // verus!
