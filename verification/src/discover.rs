//! The files that are linted.
use crate::path::FilePath;
use vstd::prelude::*;

verus! {

/// What kind of instruction file a target is.
#[derive(Debug, Clone, Copy, PartialEq, Eq, Structural)]
pub enum Kind {
    /// An `AGENTS.md`.
    Agents,
    /// A `SKILL.md`.
    Skill,
}

/// One file to lint.
#[derive(Debug, Clone)]
pub struct Target {
    /// The file, as it is reported.
    pub path: String,
    pub kind: Kind,
    /// The directory that the file was found under.
    pub root: FilePath,
}

} // verus!
