//! What one run is asked to do.
use vstd::prelude::*;

verus! {

/// The settings of one run: how notes are recognised and parsed, where they
/// lie, and which command is carried out on them.
#[derive(Debug)]
pub struct Config {
    /// Regular expression that an identifier matches.
    pub id_pattern: String,
    /// The line that opens a backlinks section.
    pub backlinks_heading: String,
    /// File extension of note files, without the dot.
    pub extension: String,
    /// Directory that holds the notes.
    pub path: String,
    /// Name of the command.
    pub command: String,
    /// Carry out renames without asking.
    pub force: bool,
}

} // verus!
