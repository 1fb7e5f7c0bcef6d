//! Types that describe custom prompts to clients.
//!
//! Prompt files are simple Markdown files. They may optionally begin with a
//! YAML frontmatter block delimited by lines containing exactly `---`. When
//! present, known string keys from the frontmatter are surfaced in
//! `CustomPromptMeta` (`description`, `argument_hint`, `model`).

use vstd::prelude::*;

use crate::paths::PromptPath;

verus! {

/// A custom prompt: its name, where it was found, and its full text.
#[derive(Debug)]
pub struct CustomPrompt {
    pub name: String,
    pub path: PromptPath,
    pub content: String,
}

/// Scope for a discovered custom prompt.
#[derive(Debug, Clone, Copy, PartialEq, Eq, Structural)]
pub enum PromptScope {
    Project,
    User,
}

/// Metadata for a discovered custom prompt, enriched with scope and namespace.
///
/// The `description`, `argument_hint` and `model` fields may be extracted
/// from optional YAML frontmatter in the prompt file. When no frontmatter is
/// present or keys are missing, `description` and `argument_hint` remain
/// `None`, and `model` holds the default model.
#[derive(Debug)]
pub struct CustomPromptMeta {
    pub name: String,
    pub path: PromptPath,
    pub scope: PromptScope,
    /// Subdirectory components under the root prompts folder.
    pub namespace: Vec<String>,
    /// Optional summary extracted from YAML frontmatter.
    pub description: Option<String>,
    /// Optional argument hint extracted from YAML frontmatter.
    pub argument_hint: Option<String>,
    /// Model preset for the prompt: the frontmatter's `model` when it is an
    /// allowed preset, else the default preset.
    pub model: Option<String>,
}

} // verus!
