//! Keeps a directory of plain-text notes, cross-referenced by `[[wikilinks]]`,
//! consistent: it parses every note, indexes the links between them, answers
//! questions about the resulting graph and computes the rewritten note texts.
pub mod collection;
pub mod commands;
pub mod config;
pub mod laws;
pub mod lines;
pub mod link;
pub mod mdparse;
pub mod note;
pub mod pattern;
pub mod text;
