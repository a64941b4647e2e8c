use noteexplorer::collection::{NoteCollection, NoteUpdate};
use noteexplorer::link::WikiLink;
use noteexplorer::mdparse::NoteParser;
use noteexplorer::note::{NoteFile, NoteMeta};

fn parser() -> NoteParser {
    NoteParser::new(r"\d{14}", "## Backlinks").unwrap()
}

fn note_file(stem: &str, content: &str) -> NoteFile {
    NoteFile {
        path: format!("/notes/{}.md", stem),
        stem: stem.to_string(),
        extension: "md".to_string(),
        content: content.to_string(),
    }
}

fn stems(notes: &[NoteMeta]) -> Vec<String> {
    notes.iter().map(|n| n.stem.clone()).collect()
}

fn example_graph() -> NoteCollection {
    NoteCollection::collect_files(
        vec![
            note_file("A", "# A\n[[B]]\n"),
            note_file("B", "# B\n[[A]]\n"),
            note_file("C", "# C\n[[A]] and [[B]]\n"),
        ],
        parser(),
    )
}

/// Writes the updates to the files, as saving them and reading them again
/// would.
fn saved(files: &[NoteFile], updates: &[NoteUpdate]) -> Vec<NoteFile> {
    files
        .iter()
        .map(|f| match updates.iter().find(|u| u.note.path == f.path) {
            Some(u) => f.replace_contents(&NoteFile::text_to_save(&u.contents)),
            None => f.clone(),
        })
        .collect()
}

#[test]
fn example_graph_is_classified() {
    let notes = example_graph();
    assert_eq!(notes.count(), 3);
    assert_eq!(notes.count_with_id(), 0);
    assert_eq!(notes.count_links(), 2);
    assert_eq!(stems(&notes.get_sources()), vec!["C"]);
    assert!(notes.get_sinks().is_empty());
    assert!(notes.get_isolated().is_empty());
    assert!(notes.get_broken_links().is_empty());
    assert_eq!(stems(&notes.into_meta_vec()), vec!["A", "B", "C"]);
}

#[test]
fn notes_are_listed_by_title_then_stem() {
    let notes = NoteCollection::collect_files(
        vec![
            note_file("z", "# beta\n"),
            note_file("y", "# Alpha\n"),
            note_file("x", "# alpha\n"),
            note_file("w", "# Émile\n"),
            note_file("v", "# BETA\n"),
        ],
        parser(),
    );
    assert_eq!(stems(&notes.into_meta_vec()), vec!["x", "y", "v", "z", "w"]);
    assert_eq!(notes.get_sorted_notes().len(), 5);
    assert_eq!(stems(&notes.get_isolated()), vec!["x", "y", "v", "z", "w"]);
}

#[test]
fn sources_sinks_and_isolated_notes() {
    let notes = NoteCollection::collect_files(
        vec![
            note_file("Source", "[[Sink]] [[Both]]"),
            note_file("Sink", "nothing"),
            note_file("Both", "[[sink]]"),
            note_file("Alone", "nothing either"),
            note_file("20210104073402 With Id", "no links"),
            note_file("By Id", "[[20210104073402]] [[Nowhere]]"),
        ],
        parser(),
    );
    assert_eq!(notes.count(), 6);
    assert_eq!(notes.count_with_id(), 1);
    assert_eq!(notes.count_links(), 4);
    assert_eq!(stems(&notes.get_sources()), vec!["By Id", "Source"]);
    assert_eq!(stems(&notes.get_sinks()), vec!["Sink", "20210104073402 With Id"]);
    assert_eq!(stems(&notes.get_isolated()), vec!["Alone"]);
    let broken = notes.get_broken_links();
    assert_eq!(broken.len(), 1);
    assert_eq!(broken[0].0, WikiLink::FileName("Nowhere".to_string()));
    assert_eq!(broken[0].0.to_string(), "[[Nowhere]]");
    assert_eq!(stems(&broken[0].1), vec!["By Id"]);
}

#[test]
fn classes_share_no_note() {
    let notes = NoteCollection::collect_files(
        vec![
            note_file("Source", "[[Sink]] [[Both]]"),
            note_file("Sink", "nothing"),
            note_file("Both", "[[sink]]"),
            note_file("Alone", "nothing either"),
            note_file("Loop A", "[[Loop B]]"),
            note_file("Loop B", "[[Loop A]]"),
        ],
        parser(),
    );
    let sources = stems(&notes.get_sources());
    let sinks = stems(&notes.get_sinks());
    let isolated = stems(&notes.get_isolated());
    for note in notes.into_meta_vec() {
        let classes = [&sources, &sinks, &isolated]
            .iter()
            .filter(|class| class.contains(&note.stem))
            .count();
        let both_ways = ["Both", "Loop A", "Loop B"].contains(&note.stem.as_str());
        assert_eq!(classes, if both_ways { 0 } else { 1 });
    }
    assert_eq!(sources, vec!["Source"]);
    assert_eq!(sinks, vec!["Sink"]);
    assert_eq!(isolated, vec!["Alone"]);
}

#[test]
fn second_pass_after_sections_were_replaced_and_removed() {
    let files = vec![
        note_file("A", "# A\n[[B]]\n\n## Backlinks\n\n- [[Gone]]\n"),
        note_file("B", "# B\ntext\n"),
        note_file("C", "# C\ntext\n\n## Backlinks\n\n- [[A]]\n"),
    ];
    let notes = NoteCollection::collect_files(files.clone(), parser());
    let updated = notes.update_backlinks();
    assert_eq!(stems(&updated_notes(&updated)), vec!["A", "B", "C"]);
    assert_eq!(updated[0].contents, "# A\n[[B]]\n\n");
    assert_eq!(updated[1].contents, "# B\ntext\n\n## Backlinks\n\n- [[A]]");
    assert_eq!(updated[2].contents, "# C\ntext\n\n");

    let again = NoteCollection::collect_files(saved(&files, &updated), parser());
    assert!(again.update_backlinks().is_empty());
}

#[test]
fn second_pass_after_a_section_in_the_middle_was_replaced() {
    let files = vec![
        note_file("A", "# A\ntext\n\n## Backlinks\n\n- [[Gone]]\n\nA tail with [[B]]\n- [ ] and a task\n"),
        note_file("B", "# B\n[[A]]\n"),
    ];
    let notes = NoteCollection::collect_files(files.clone(), parser());
    let updated = notes.update_backlinks();
    assert_eq!(stems(&updated_notes(&updated)), vec!["A", "B"]);
    assert_eq!(
        updated[0].contents,
        "# A\ntext\n\n## Backlinks\n\n- [[B]]\n\nA tail with [[B]]\n- [ ] and a task"
    );
    assert_eq!(updated[1].contents, "# B\n[[A]]\n\n## Backlinks\n\n- [[A]]");

    let again = NoteCollection::collect_files(saved(&files, &updated), parser());
    assert!(again.update_backlinks().is_empty());
    assert_eq!(again.get_tasks().len(), 1);
}

#[test]
fn tasks_are_listed_by_note() {
    let notes = NoteCollection::collect_files(
        vec![
            note_file("B", "- [ ] second\n- [ ] third\n"),
            note_file("A", "- [ ] first\n"),
            note_file("C", "no tasks\n"),
        ],
        parser(),
    );
    let tasks = notes.get_tasks();
    assert_eq!(tasks.len(), 2);
    assert_eq!(tasks[0].0.stem, "A");
    assert_eq!(tasks[0].1, vec!["first".to_string()]);
    assert_eq!(tasks[1].0.stem, "B");
    assert_eq!(tasks[1].1, vec!["second".to_string(), "third".to_string()]);
}

#[test]
fn mismatched_filenames_are_found() {
    let notes = NoteCollection::collect_files(
        vec![
            note_file("fine title", "# Fine Title\n"),
            note_file("old name", "# New: Name?\n"),
            note_file("20210104073402", "# With Id\n"),
            note_file("20210104073403 Right", "# Right\n"),
        ],
        parser(),
    );
    let found = notes.get_mismatched_filenames();
    assert_eq!(found.len(), 2);
    assert_eq!(found[0].0.stem, "old name");
    assert_eq!(found[0].1, "New Name");
    assert_eq!(found[1].0.stem, "20210104073402");
    assert_eq!(found[1].1, "20210104073402 With Id");
}

#[test]
fn later_note_wins_an_identifier() {
    let notes = NoteCollection::collect_files(
        vec![
            note_file("20210104073402 First", "# First\n"),
            note_file("Second", "# Second\n20210104073402\n"),
            note_file("Third", "[[20210104073402]]\n"),
        ],
        parser(),
    );
    assert_eq!(notes.count(), 3);
    assert_eq!(notes.count_with_id(), 2);
    let collisions = notes.id_collisions();
    assert_eq!(collisions.len(), 1);
    assert_eq!(collisions[0].0.stem, "Second");
    assert_eq!(collisions[0].1.stem, "20210104073402 First");
    assert!(notes.get_broken_links().is_empty());
}

#[test]
fn later_note_wins_a_file_name() {
    let notes = NoteCollection::collect_files(
        vec![
            NoteFile {
                path: "/notes/a/Same.md".to_string(),
                stem: "Same".to_string(),
                extension: "md".to_string(),
                content: "# First\n20210104073402\n".to_string(),
            },
            NoteFile {
                path: "/notes/b/same.md".to_string(),
                stem: "same".to_string(),
                extension: "md".to_string(),
                content: "# Second\n".to_string(),
            },
            note_file("Other", "[[20210104073402]] [[SAME]]\n"),
        ],
        parser(),
    );
    assert_eq!(notes.count(), 2);
    let listed = notes.into_meta_vec();
    assert_eq!(listed[0].path, "/notes/Other.md");
    assert_eq!(listed[1].path, "/notes/b/same.md");
    assert_eq!(notes.count_with_id(), 0);
    let broken = notes.get_broken_links();
    assert_eq!(broken.len(), 1);
    assert_eq!(broken[0].0, WikiLink::Id("20210104073402".to_string()));
}

#[test]
fn backlinks_are_removed() {
    let files = vec![
        note_file("A", "# A\n\n## Backlinks\n\n- [[B]]\n"),
        note_file("B", "# B\n[[A]]\n"),
    ];
    let notes = NoteCollection::collect_files(files.clone(), parser());
    let removed = notes.remove_backlinks();
    assert_eq!(removed.len(), 1);
    assert_eq!(removed[0].note.stem, "A");
    assert_eq!(removed[0].contents, "# A\n\n");

    let again = NoteCollection::collect_files(saved(&files, &removed), parser());
    assert!(again.remove_backlinks().is_empty());
}

#[test]
fn backlinks_are_updated() {
    let files = vec![
        note_file("A", "# A\n[[B]]\n"),
        note_file("B", "# B\n[[A]]\n"),
        note_file("C", "# C\n[[A]] and [[B]]\n"),
        note_file("D", "# D\n\n## Backlinks\n\n- [[Gone]]\n\nTail\n"),
        note_file("20210104073402 E", "# E Title\n[[a]] [[A]]\n"),
    ];
    let notes = NoteCollection::collect_files(files.clone(), parser());
    let updated = notes.update_backlinks();
    assert_eq!(stems(&updated_notes(&updated)), vec!["A", "B", "D"]);
    assert_eq!(
        updated[0].contents,
        "# A\n[[B]]\n\n## Backlinks\n\n- [[B]]\n- [[C]]\n- [[20210104073402]] E Title"
    );
    assert_eq!(updated[1].contents, "# B\n[[A]]\n\n## Backlinks\n\n- [[A]]\n- [[C]]");
    assert_eq!(updated[2].contents, "# D\n\nTail\n");

    // A second pass finds everything up to date
    let again = NoteCollection::collect_files(saved(&files, &updated), parser());
    assert!(again.update_backlinks().is_empty());
}

fn updated_notes(updates: &[NoteUpdate]) -> Vec<NoteMeta> {
    updates
        .iter()
        .map(|u| NoteMeta {
            path: u.note.path.clone(),
            stem: u.note.stem.clone(),
            extension: u.note.extension.clone(),
            title: u.note.title.clone(),
            id: u.note.id.clone(),
        })
        .collect()
}

#[test]
fn renaming_rewrites_links() {
    let files = vec![
        note_file("Old Name", "# Old Name\nText\n"),
        note_file("Referrer", "See [[Old Name]] and again [[Old Name]].\n"),
        note_file("Bystander", "See [[Referrer]].\n"),
    ];
    let notes = NoteCollection::collect_files(files, parser());
    let target = notes
        .into_meta_vec()
        .into_iter()
        .find(|n| n.stem == "Old Name")
        .unwrap();
    let (notes, updates) = notes.rename_note(&target, "/notes/New Name.md", "New Name");
    let updates = updates.unwrap();
    assert_eq!(updates.len(), 1);
    assert_eq!(updates[0].note.stem, "Referrer");
    assert!(updates[0].contents.contains("[[New Name]]"));
    assert!(!updates[0].contents.contains("[[Old Name]]"));
    assert_eq!(updates[0].contents, "See [[New Name]] and again [[New Name]].\n");

    assert_eq!(notes.count(), 3);
    assert!(notes.get_broken_links().is_empty());
    let listed = notes.into_meta_vec();
    assert_eq!(stems(&listed), vec!["Bystander", "New Name", "Referrer"]);
    assert_eq!(listed[1].path, "/notes/New Name.md");
    assert_eq!(listed[1].title, "Old Name");
    assert_eq!(stems(&notes.get_sinks()), vec!["New Name"]);
}

#[test]
fn renaming_an_unknown_note_changes_nothing() {
    let notes = example_graph();
    let unknown = NoteMeta {
        path: "/notes/Nope.md".to_string(),
        stem: "Nope".to_string(),
        extension: "md".to_string(),
        title: "Nope".to_string(),
        id: None,
    };
    let (notes, updates) = notes.rename_note(&unknown, "/notes/Other.md", "Other");
    assert!(updates.is_none());
    assert_eq!(stems(&notes.into_meta_vec()), vec!["A", "B", "C"]);
}

#[test]
fn renaming_leaves_links_of_other_case_alone() {
    let files = vec![
        note_file("Old Name", "text\n"),
        note_file("Referrer", "See [[old name]].\n"),
    ];
    let notes = NoteCollection::collect_files(files, parser());
    let target = notes.into_meta_vec().remove(0);
    assert_eq!(target.stem, "Old Name");
    let (notes, updates) = notes.rename_note(&target, "/notes/New Name.md", "New Name");
    assert!(updates.unwrap().is_empty());
    assert_eq!(notes.get_broken_links().len(), 1);
}

#[test]
fn renaming_all_mismatched_files() {
    let files = vec![
        note_file("noteexplorer-test-rename-1", "# Rename This 1\r\nHere is a link to another file: [[Noteexplorer-test-rename-2]]. And some text after. [[Backlink-File]]"),
        note_file("noteexplorer-test-rename-2", "# Rename Then 2\r\nHere is a link to another file: [[noteexplorer-TEST-rename-1]]. And some text after. [[Backlink-File]]"),
        note_file("noteexplorer-test-rename-3", "# Rename That 3\r\nHere are the links: [[noteexplorer-test-rename-1]] and [[noteexplorer-test-rename-2]]. And some text after"),
        note_file("backlink-file", "## Backlinks\n\n- [[noteexplorer-TEST-rename-1]]\n\n- [[noteexplorer-TEST-rename-2]]"),
    ];
    let mut notes_before = NoteCollection::collect_files(files, parser());

    // No extra notes should be found
    assert_eq!(notes_before.count(), 4);
    // No broken links in the test data
    assert_eq!(notes_before.get_broken_links().len(), 0);

    for (note, new_stem) in notes_before.get_mismatched_filenames() {
        let new_path = format!("/notes/{}.{}", new_stem, note.extension);
        let (next, updates) = notes_before.rename_note(&note, &new_path, &new_stem);
        assert!(updates.is_some());
        notes_before = next;
    }
    let notes_after = notes_before;

    for note in notes_after.into_meta_vec() {
        match note.title.as_str() {
            "Rename This 1" => {
                assert_eq!(note.stem, "Rename This 1");
            }
            "Rename Then 2" => {
                assert_eq!(note.stem, "Rename Then 2");
            }
            "Rename That 3" => {
                assert_eq!(note.stem, "Rename That 3");
            }
            "backlink-file" => {
                assert_eq!(note.stem, "backlink-file");
            }
            _ => {
                panic!("Unrecognized note title");
            }
        };
    }

    assert_eq!(notes_after.count(), 4);
    assert_eq!(notes_after.get_isolated().len(), 0);
    assert_eq!(notes_after.get_sources().len(), 1);
    assert_eq!(notes_after.get_sinks().len(), 1);
}

#[test]
fn notes_are_reached_by_slot() {
    let notes = example_graph();
    assert_eq!(notes.slot_count(), 3);
    assert_eq!(notes.note(1).unwrap().title(), "B");
    assert!(notes.note(3).is_none());
    assert_eq!(notes.parser().backlinks_heading(), "## Backlinks");
}

#[test]
fn notes_with_links_are_told_by_path() {
    let notes = NoteCollection::collect_files(
        vec![
            note_file("Linking", "# Linking\n[[Plain]]\n"),
            note_file("Plain", "# Plain\nNo links here.\n"),
        ],
        parser(),
    );
    let metas = notes.into_meta_vec();
    assert_eq!(stems(&metas), vec!["Linking", "Plain"]);
    assert!(notes.has_links(&metas[0]));
    assert!(!notes.has_links(&metas[1]));

    let elsewhere = NoteMeta {
        path: "/other/Linking.md".to_string(),
        stem: "Linking".to_string(),
        extension: "md".to_string(),
        title: "Linking".to_string(),
        id: None,
    };
    assert!(!notes.has_links(&elsewhere));
}

#[test]
fn second_pass_where_lines_end_in_spaces() {
    let files = vec![
        note_file("A", "# A  \n[[B]]  \n"),
        note_file("B", "# B\ntext  \n  \n\n## Backlinks\n\n- [[Gone]]\n   \n"),
        note_file("C", "text \t\n\n## Backlinks\n\n- [[Gone]]\n\nA tail with [[A]]  \n \n"),
    ];
    let notes = NoteCollection::collect_files(files.clone(), parser());
    let updated = notes.update_backlinks();
    assert_eq!(stems(&updated_notes(&updated)), vec!["A", "B", "C"]);
    assert_eq!(updated[0].contents, "# A  \n[[B]]\n\n## Backlinks\n\n- [[C]]");
    assert_eq!(updated[1].contents, "# B\ntext\n\n## Backlinks\n\n- [[A]]");
    assert_eq!(updated[2].contents, "text \t\n\nA tail with [[A]]  \n \n");

    let again = NoteCollection::collect_files(saved(&files, &updated), parser());
    assert!(again.update_backlinks().is_empty());
}

#[test]
fn identifier_that_saving_cuts_short() {
    // the identifier of the first note ends in the spaces that saving cuts
    // from the end of its text
    let parser = || NoteParser::new("a +", "## Backlinks").unwrap();
    let files = vec![note_file("N", "a  "), note_file("M", "[[a  ]]\n")];
    let notes = NoteCollection::collect_files(files.clone(), parser());
    assert_eq!(notes.count_with_id(), 1);
    let updated = notes.update_backlinks();
    assert_eq!(stems(&updated_notes(&updated)), vec!["N"]);
    assert_eq!(updated[0].contents, "a\n\n## Backlinks\n\n- [[M]]");

    let again = NoteCollection::collect_files(saved(&files, &updated), parser());
    assert_eq!(again.count_with_id(), 0);
    let second = again.update_backlinks();
    assert_eq!(stems(&updated_notes(&second)), vec!["N"]);
    assert_eq!(second[0].contents, "a\n\n");
}
