//! What the program decides between reading the notes and touching the
//! disk: which command a name stands for, and what becomes of a file whose
//! name does not fit its note.
use crate::note::NoteMeta;
use crate::text::{matches_at, str_equal, to_chars};
use vstd::prelude::*;
use vstd::string::*;

verus! {

/// What the program can be asked to do.
#[derive(Clone, Copy, Debug, PartialEq, Eq, Structural)]
pub enum Command {
    ListBrokenLinks,
    ListSources,
    ListSinks,
    ListIsolated,
    ListTasks,
    RemoveBacklinks,
    UpdateBacklinks,
    UpdateFilenames,
    /// Any other name asks for the statistics.
    Stats,
}

/// The command that a name stands for.
pub open spec fn command_named(name: Seq<char>) -> Command {
    if name == "list-broken-links"@ {
        Command::ListBrokenLinks
    } else if name == "list-sources"@ {
        Command::ListSources
    } else if name == "list-sinks"@ {
        Command::ListSinks
    } else if name == "list-isolated"@ {
        Command::ListIsolated
    } else if name == "list-tasks"@ {
        Command::ListTasks
    } else if name == "remove-backlinks"@ {
        Command::RemoveBacklinks
    } else if name == "update-backlinks"@ {
        Command::UpdateBacklinks
    } else if name == "update-filenames"@ {
        Command::UpdateFilenames
    } else {
        Command::Stats
    }
}

/// The command that a name stands for.
pub fn command_of(name: &str) -> (r: Command)
    ensures
        r == command_named(name@),
{
    if str_equal(name, "list-broken-links") {
        Command::ListBrokenLinks
    } else if str_equal(name, "list-sources") {
        Command::ListSources
    } else if str_equal(name, "list-sinks") {
        Command::ListSinks
    } else if str_equal(name, "list-isolated") {
        Command::ListIsolated
    } else if str_equal(name, "list-tasks") {
        Command::ListTasks
    } else if str_equal(name, "remove-backlinks") {
        Command::RemoveBacklinks
    } else if str_equal(name, "update-backlinks") {
        Command::UpdateBacklinks
    } else if str_equal(name, "update-filenames") {
        Command::UpdateFilenames
    } else {
        Command::Stats
    }
}

/// What becomes of a file whose name does not fit its note.
#[derive(Clone, Copy, Debug, PartialEq, Eq, Structural)]
pub enum RenameAction {
    /// The file is renamed.
    Rename,
    /// The file stays as it is: the answer was no.
    Skip,
    /// The file stays as it is: its path does not end in its own name.
    PathMismatch,
}

/// The name of a file: its stem, a dot and its extension.
pub open spec fn file_name(stem: Seq<char>, extension: Seq<char>) -> Seq<char> {
    stem + "."@ + extension
}

/// Whether an answer agrees to a renaming: `y`, or nothing at all.
pub open spec fn is_yes(reply: Seq<char>) -> bool {
    reply == "y"@ || reply.len() == 0
}

/// Whether a text ends with another.
pub open spec fn ends_with(s: Seq<char>, suffix: Seq<char>) -> bool {
    s.len() >= suffix.len() && s.subrange(s.len() - suffix.len(), s.len() as int) == suffix
}

/// What becomes of a file, given the answer to the question whether it is
/// to be renamed.
pub open spec fn rename_action(note: crate::note::MetaView, reply: Seq<char>) -> RenameAction {
    if !is_yes(reply) {
        RenameAction::Skip
    } else if ends_with(note.path, file_name(note.stem, note.extension)) {
        RenameAction::Rename
    } else {
        RenameAction::PathMismatch
    }
}

/// The name of a file with the given stem and extension.
pub fn file_name_of(stem: &str, extension: &str) -> (r: String)
    ensures
        r@ == file_name(stem@, extension@),
{
    let mut name = stem.to_owned();
    name.append(".");
    name.append(extension);
    name
}

/// What becomes of the file of a note, given the answer to the question
/// whether it is to be renamed.
pub fn next_rename_action(note: &NoteMeta, reply: &str) -> (r: RenameAction)
    ensures
        r == rename_action(note@, reply@),
{
    if !(str_equal(reply, "y") || reply.is_empty()) {
        return RenameAction::Skip;
    }
    let path = to_chars(note.path.as_str());
    let name = to_chars(file_name_of(note.stem.as_str(), note.extension.as_str()).as_str());
    if path.len() >= name.len() && matches_at(&path, path.len() - name.len(), &name) {
        RenameAction::Rename
    } else {
        RenameAction::PathMismatch
    }
}

/// Whether renaming a note leaves backlinks sections out of date: the note
/// links to others, which list it by its file name since it has no
/// identifier.
pub fn affects_backlinks(has_links: bool, id: &Option<String>) -> (r: bool)
    ensures
        r == (has_links && *id is None),
{
    has_links && id.is_none()
}

} // verus!
