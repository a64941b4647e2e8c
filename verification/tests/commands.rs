use noteexplorer::commands::{
    affects_backlinks, command_of, file_name_of, next_rename_action, Command, RenameAction,
};
use noteexplorer::note::NoteMeta;

fn meta(path: &str, stem: &str) -> NoteMeta {
    NoteMeta {
        path: path.to_string(),
        stem: stem.to_string(),
        extension: "md".to_string(),
        title: "Title".to_string(),
        id: None,
    }
}

#[test]
fn commands_by_name() {
    assert_eq!(command_of("list-broken-links"), Command::ListBrokenLinks);
    assert_eq!(command_of("list-sources"), Command::ListSources);
    assert_eq!(command_of("list-sinks"), Command::ListSinks);
    assert_eq!(command_of("list-isolated"), Command::ListIsolated);
    assert_eq!(command_of("list-tasks"), Command::ListTasks);
    assert_eq!(command_of("remove-backlinks"), Command::RemoveBacklinks);
    assert_eq!(command_of("update-backlinks"), Command::UpdateBacklinks);
    assert_eq!(command_of("update-filenames"), Command::UpdateFilenames);
    assert_eq!(command_of(""), Command::Stats);
    assert_eq!(command_of("List-Tasks"), Command::Stats);
    assert_eq!(command_of("anything else"), Command::Stats);
}

#[test]
fn renames_follow_the_answer() {
    let note = meta("/notes/old name.md", "old name");
    assert_eq!(next_rename_action(&note, "y"), RenameAction::Rename);
    assert_eq!(next_rename_action(&note, ""), RenameAction::Rename);
    assert_eq!(next_rename_action(&note, "n"), RenameAction::Skip);
    assert_eq!(next_rename_action(&note, "Y"), RenameAction::Skip);
    assert_eq!(next_rename_action(&note, "yes"), RenameAction::Skip);
}

#[test]
fn renames_need_a_path_that_ends_in_the_file_name() {
    assert_eq!(
        next_rename_action(&meta("/notes/other.md", "old name"), "y"),
        RenameAction::PathMismatch
    );
    assert_eq!(
        next_rename_action(&meta("e.md", "old name"), "y"),
        RenameAction::PathMismatch
    );
    assert_eq!(
        next_rename_action(&meta("old name.md", "old name"), "y"),
        RenameAction::Rename
    );
    assert_eq!(
        next_rename_action(&meta("/notes/ünï.md", "ünï"), ""),
        RenameAction::Rename
    );
}

#[test]
fn file_names_and_backlinks() {
    assert_eq!(file_name_of("A note", "md"), "A note.md");
    assert_eq!(file_name_of("", ""), ".");
    assert!(affects_backlinks(true, &None));
    assert!(!affects_backlinks(false, &None));
    assert!(!affects_backlinks(true, &Some("20210104073402".to_string())));
}
