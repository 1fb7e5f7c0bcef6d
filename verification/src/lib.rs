//! Verified core of custom prompt handling and output-style overrides.

pub mod aggregate;
pub mod arguments;
pub mod cli;
pub mod discovery;
pub mod frontmatter;
pub mod paths;
pub mod protocol;
pub mod style;
pub mod text;
