//! Validation of commit messages against the conventional-commit grammar
//! and a configurable set of rules.
pub mod body;
pub mod diagnostic;
pub mod header;
pub mod parser;
pub mod rules;
pub mod text;
