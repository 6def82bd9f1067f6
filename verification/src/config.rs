//! The thresholds and switches of a run.
use crate::discover::Kind;
use vstd::prelude::*;

verus! {

/// The longest name that the skill format allows, in characters.
pub const MAX_NAME_CHARS: usize = 64;

/// The longest description that the skill format allows, in characters.
pub const MAX_DESCRIPTION_CHARS: usize = 1024;

/// The default body token budget for `AGENTS.md`.
pub const DEFAULT_MAX_AGENTS_TOKENS: i64 = 2500;

/// The default body token budget for `SKILL.md`.
pub const DEFAULT_MAX_SKILL_TOKENS: i64 = 5000;

/// The default token budget for a skill's name.
pub const DEFAULT_MAX_SKILL_NAME_TOKENS: i64 = 16;

/// The default token budget for a skill's description.
pub const DEFAULT_MAX_SKILL_DESCRIPTION_TOKENS: i64 = 100;

/// Holds the thresholds and switches that shape a run.
#[derive(Debug, Clone)]
pub struct Config {
    /// Body token budgets, one per file kind. Zero disables the check for
    /// that kind.
    pub max_agents_tokens: i64,
    pub max_skill_tokens: i64,
    /// Skill-only budgets. Zero disables the check.
    pub max_skill_name_tokens: i64,
    pub max_skill_description_tokens: i64,
    /// Rule ids to skip.
    pub disabled: Vec<String>,
    /// Treat warnings as errors.
    pub strict: bool,
}

impl Default for Config {
    /// Zero means "check disabled", so all-zero budgets would make a linter
    /// that silently enforces nothing. The real budgets are spelled out
    /// instead, so the value reached by accident is the safe one.
    fn default() -> (r: Self)
        ensures
            r.max_agents_tokens == DEFAULT_MAX_AGENTS_TOKENS,
            r.max_skill_tokens == DEFAULT_MAX_SKILL_TOKENS,
            r.max_skill_name_tokens == DEFAULT_MAX_SKILL_NAME_TOKENS,
            r.max_skill_description_tokens == DEFAULT_MAX_SKILL_DESCRIPTION_TOKENS,
            r.disabled@.len() == 0,
            !r.strict,
            r.max_agents_tokens == 2500,
            r.max_skill_tokens == 5000,
            r.max_skill_name_tokens == 16,
            r.max_skill_description_tokens == 100,
            r.max_agents_tokens > 0,
            r.max_skill_tokens > 0,
            r.max_skill_name_tokens > 0,
            r.max_skill_description_tokens > 0,
    {
        Config {
            max_agents_tokens: DEFAULT_MAX_AGENTS_TOKENS,
            max_skill_tokens: DEFAULT_MAX_SKILL_TOKENS,
            max_skill_name_tokens: DEFAULT_MAX_SKILL_NAME_TOKENS,
            max_skill_description_tokens: DEFAULT_MAX_SKILL_DESCRIPTION_TOKENS,
            disabled: Vec::new(),
            strict: false,
        }
    }
}

impl Config {
    /// The body token budget for a kind of file.
    pub open spec fn body_budget(self, kind: Kind) -> i64 {
        match kind {
            Kind::Agents => self.max_agents_tokens,
            Kind::Skill => self.max_skill_tokens,
        }
    }

    /// Returns the body token budget for a kind of file.
    pub fn content_limit(&self, kind: Kind) -> (r: i64)
        ensures
            r == self.body_budget(kind),
    {
        if kind == Kind::Agents {
            self.max_agents_tokens
        } else {
            self.max_skill_tokens
        }
    }
}

} // verus!
