//! Lints agent instruction files (AGENTS.md and SKILL.md) for front-matter
//! correctness, dangling file references and token budget overruns.
pub mod config;
pub mod discover;
pub mod fence;
pub mod finding;
pub mod format;
pub mod laws;
pub mod lint;
pub mod parse;
pub mod path;
pub mod patterns;
pub mod reference;
pub mod report;
pub mod rules;
pub mod text;
pub mod tokens;
pub mod verdicts;
