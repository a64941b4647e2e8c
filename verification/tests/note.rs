use noteexplorer::link::WikiLink;
use noteexplorer::mdparse::NoteParser;
use noteexplorer::note::{get_wikilink, Note, NoteFile, NoteMeta};
use std::collections::HashMap;

fn get_default_parser() -> NoteParser {
    NoteParser::new(r"\d{11,14}", "**Links to this note**").expect("Test parser failed")
}

fn note_file(stem: &str, content: &str) -> NoteFile {
    NoteFile {
        path: format!("testdata/{}.md", stem),
        stem: stem.to_string(),
        extension: "md".to_string(),
        content: content.to_string(),
    }
}

const BACKLINKS_NOTE: &str = "# Backlinks test case\r\n\r\nSome note text\r\n\r\n**Links to this note**\r\n\r\n- [[§An outline note]]\r\n- [[20201012145848]] Another note\r\n* Not a link\r\n\r\n<!-- Here be dragons -->\r\n";

#[test]
fn title_and_id_parser() {
    let parser = get_default_parser();
    let note = Note::new(
        note_file(
            "File Name Title",
            "# The Title In the Note Contents\r\n\r\nThe ID is 1234567890123 and then 9876543210987.\r\n",
        ),
        &parser,
    );

    assert_eq!(note.file().stem, "File Name Title");
    assert_eq!(note.id().clone().unwrap(), "1234567890123");
    assert_eq!(note.title(), "The Title In the Note Contents");
}

#[test]
fn yaml1_title_parser() {
    let parser = get_default_parser();
    let note = Note::new(
        note_file("yaml1", "---\ntitle: Plain YAML title\nauthor: Someone\n---\n\nSome text\n"),
        &parser,
    );

    assert_eq!(note.title(), "Plain YAML title");
    assert!(note.id().is_none());
}

#[test]
fn yaml2_title_parser() {
    let parser = get_default_parser();
    let note = Note::new(
        note_file(
            "yaml2",
            "---\ntitle: \"Plein: YAML title\"\nid: 123123123123\n...\n\n# A heading that comes second\n",
        ),
        &parser,
    );

    assert_eq!(note.title(), "Plein: YAML title");
    assert_eq!(note.id().clone().unwrap(), "123123123123");
}

#[test]
fn empty_file_parser() {
    let parser = get_default_parser();
    let note = Note::new(note_file("Empty File With Name", ""), &parser);

    assert_eq!(note.file().stem, "Empty File With Name");
    assert_eq!(*note.id(), None);
    assert_eq!(note.title(), "Empty File With Name");
}

#[test]
fn title_parser() {
    let parser = get_default_parser();
    let note = Note::new(
        note_file("12345678901 Test Note 1", "This is the ID: 112233445566\n"),
        &parser,
    );

    assert_eq!(note.title(), "Test Note 1");
}

#[test]
fn id_in_the_file_name_wins() {
    let parser = get_default_parser();
    let note = Note::new(
        note_file("12345678901 Test Note 1", "This is the ID: 112233445566\n"),
        &parser,
    );
    assert_eq!(*note.id(), Some("12345678901".to_string()));
    assert_eq!(note.title_lower(), "test note 1");
}

#[test]
fn note_oneliner_parser() {
    let parser = get_default_parser();
    let note = Note::new(note_file("One-liner", "# Just a Heading"), &parser);

    assert_eq!(note.title(), "Just a Heading");
}

#[test]
fn task_parser() {
    let parser = get_default_parser();
    let note = Note::new(
        note_file(
            "Tasks",
            "# Tasks\r\n\r\n- [ ] Don't forget to remember\r\n* [ ] Buy milk!\r\n- [x] Done\r\n    - [ ] Nested\r\n\t- [ ] Tabbed with [[link]]\r\n\r\n```\r\n- [ ] In a code block\r\n```\r\n\r\n+ [ ] Final line",
        ),
        &parser,
    );

    assert!(note.tasks().contains(&"Don't forget to remember".to_string()));
    assert!(note.tasks().contains(&"Buy milk!".to_string()));
    assert!(note.tasks().contains(&"Nested".to_string()));
    assert!(note.tasks().contains(&"Tabbed with [[link]]".to_string()));
    assert!(note.tasks().contains(&"Final line".to_string()));
    assert_eq!(note.tasks().len(), 5);

    assert!(note.links().contains(&WikiLink::FileName(String::from("link"))));
}

#[test]
fn wikilink_traits() {
    assert_ne!(
        WikiLink::Id("1234567890".to_string()),
        WikiLink::Id("0987654321".to_string())
    );
    assert_ne!(
        WikiLink::FileName("The name".to_string()),
        WikiLink::Id("Le nom".to_string())
    );
    assert_ne!(
        WikiLink::FileName("1234567890".to_string()),
        WikiLink::Id("1234567890".to_string())
    );
    assert_eq!(
        WikiLink::Id("1234567890".to_string()),
        WikiLink::Id("1234567890".to_string())
    );
    assert_eq!(
        WikiLink::FileName("AÉÖÜÅÑ".to_string()),
        WikiLink::FileName("aéöüåñ".to_string())
    );

    let mut map = HashMap::new();
    map.insert(WikiLink::Id("1234567890".to_string()), "Some value");
    map.insert(WikiLink::Id("9876543210".to_string()), "Some value");
    map.insert(WikiLink::FileName("1234567890".to_string()), "Some value");
    map.insert(WikiLink::FileName("ÅSTRÖM".to_string()), "Some value");
    map.insert(WikiLink::FileName("åström".to_string()), "Some value");
    map.insert(WikiLink::FileName("Astrom".to_string()), "Some value");
    assert_eq!(map.len(), 5);
}

#[test]
fn wikilink_equality_ignores_case_only() {
    assert_eq!(
        WikiLink::FileName("ÅSTRÖM".to_string()),
        WikiLink::FileName("åström".to_string())
    );
    assert_ne!(
        WikiLink::FileName("ÅSTRÖM".to_string()),
        WikiLink::FileName("Astrom".to_string())
    );
    assert_ne!(
        WikiLink::FileName("åström".to_string()),
        WikiLink::Id("åström".to_string())
    );
}

#[test]
fn wikilink_text_and_form() {
    let link = WikiLink::FileName("Some Note".to_string());
    assert_eq!(link.text(), "Some Note");
    assert!(!link.is_id());
    assert_eq!(link.to_string(), "[[Some Note]]");
    let id = WikiLink::Id("20210104073402".to_string());
    assert!(id.is_id());
    assert_eq!(id.to_string(), "[[20210104073402]]");
    assert_eq!(id.clone(), id);
}

#[test]
fn backlinks() {
    let parser = get_default_parser();
    let note = Note::new(note_file("BackLinks", BACKLINKS_NOTE), &parser);

    // All links in this file is in the backlinks section
    assert_eq!(note.links().len(), 0);
    assert!(note.has_backlinks());
    assert!(!note.has_outgoing_links());
}

#[test]
fn replace_backlinks() {
    let parser = get_default_parser();
    let note = Note::new(note_file("BackLinks", BACKLINKS_NOTE), &parser);

    let c1 = note.get_contents_without_backlinks();
    assert_eq!(
        c1,
        "# Backlinks test case\r\n\r\nSome note text\r\n\r\n<!-- Here be dragons -->\r\n"
    );

    let c2 = note.get_backlinks_section_without_heading().unwrap();
    assert_eq!(
        c2.trim(),
        "- [[§An outline note]]\r\n- [[20201012145848]] Another note\r\n* Not a link"
    );

    let c3 = note.get_contents_with_new_backlinks("## Links to this note", "- [[The one and only]]");
    assert_eq!(c3, "# Backlinks test case\r\n\r\nSome note text\n\n## Links to this note\n\n- [[The one and only]]\n\n<!-- Here be dragons -->");
}

#[test]
fn add_backlinks1() {
    let parser = get_default_parser();
    let note = Note::new(note_file("One-liner", "# Just a Heading"), &parser);

    let c1 = note.get_contents_without_backlinks();
    assert_eq!(c1, "# Just a Heading");

    assert!(note.get_backlinks_section_without_heading().is_none());

    let c3 = note.get_contents_with_new_backlinks(
        "## Links to this note",
        "- [[Link one]]\n- [[Link two]]",
    );
    assert_eq!(
        c3,
        "# Just a Heading\n\n## Links to this note\n\n- [[Link one]]\n- [[Link two]]"
    );
}

#[test]
fn add_backlinks2() {
    let parser = get_default_parser();
    let note = Note::new(
        note_file("12345678901 Test Note 1", "This is the ID: 112233445566\n"),
        &parser,
    );

    assert!(note.get_backlinks_section_without_heading().is_none());

    let c3 = note.get_contents_with_new_backlinks(
        "## Links to this note",
        "- [[Link one]]\n- [[Link two]]",
    );
    assert_eq!(
        c3,
        "This is the ID: 112233445566\n\n## Links to this note\n\n- [[Link one]]\n- [[Link two]]"
    );
}

#[test]
fn new_backlinks_are_found_again() {
    let parser = get_default_parser();
    let note = Note::new(note_file("A", "# A\n\nText with [[B]]\n"), &parser);
    let body = "- [[B]] Bee\n- [[C]]";
    let written = note.get_contents_with_new_backlinks(parser.backlinks_heading(), body);
    let again = Note::new(note_file("A", &NoteFile::text_to_save(&written)), &parser);
    assert_eq!(again.get_backlinks_section_without_heading(), Some(body.to_string()));
    assert_eq!(again.links(), note.links());
    assert_eq!(
        again.get_contents_with_new_backlinks(parser.backlinks_heading(), body),
        written
    );
    assert_eq!(again.get_contents_without_backlinks(), "# A\n\nText with [[B]]\n\n");
}

#[test]
fn backlinks_section_at_the_end_of_the_note() {
    let parser = get_default_parser();
    let note = Note::new(
        note_file("Z", "Text\n**Links to this note**\n- [[A]]\n- [[B]]"),
        &parser,
    );
    assert_eq!(note.get_contents_without_backlinks(), "Text\n");
    assert_eq!(
        note.get_backlinks_section_without_heading(),
        Some("- [[A]]\n- [[B]]".to_string())
    );
    assert_eq!(
        note.get_contents_with_new_backlinks("**Links to this note**", "- [[C]]"),
        "Text\n\n**Links to this note**\n\n- [[C]]"
    );
}

#[test]
fn clean_filename() {
    assert_eq!(
        NoteFile::clean_filename("Just a normal file name"),
        "Just a normal file name"
    );
    assert_eq!(
        NoteFile::clean_filename("<Is/this\\a::regular?*?*?file>"),
        "Is this a regular file"
    );
    assert_eq!(NoteFile::clean_filename(".hidden file"), "hidden file");
    assert_eq!(
        NoteFile::clean_filename("illegal in windows."),
        "illegal in windows"
    );
    assert_eq!(
        NoteFile::clean_filename("a . in the middle"),
        "a . in the middle"
    );
    assert_eq!(
        NoteFile::clean_filename("pipe | is also forbidden"),
        "pipe is also forbidden"
    );
    assert_eq!(
        NoteFile::clean_filename("Try some whitespace: \t\r\n--"),
        "Try some whitespace --"
    );
    assert_eq!(
        NoteFile::clean_filename("C# is a nice language!"),
        "C# is a nice language!"
    );
    assert_eq!(NoteFile::clean_filename(".:/?."), "");
}

#[test]
fn clean_filename_of_a_hidden_file() {
    assert_eq!(NoteFile::clean_filename(".hidden  file."), "hidden file");
}

#[test]
fn clean_filename_edge_cases() {
    assert_eq!(NoteFile::clean_filename(""), "");
    assert_eq!(NoteFile::clean_filename("."), "");
    assert_eq!(NoteFile::clean_filename(".."), "");
    assert_eq!(NoteFile::clean_filename("..."), "");
    assert_eq!(NoteFile::clean_filename("..a.."), "a");
    assert_eq!(NoteFile::clean_filename("...a.b..."), "a.b");
    assert_eq!(NoteFile::clean_filename(". .a"), ".a");
    assert_eq!(NoteFile::clean_filename(".hidden  file."), "hidden file");
    assert_eq!(NoteFile::clean_filename("a\u{0}b\u{7f}c\u{85}d"), "a b c d");
    assert_eq!(NoteFile::clean_filename("  Ünï  cödé  "), "Ünï cödé");
    assert_eq!(NoteFile::clean_filename("quote\"d"), "quote d");
}

#[test]
fn file_encodings_utf8_bom() {
    let parser = get_default_parser();
    let note = Note::new(note_file("BOM", "\u{feff}# Title after the mark\r\n"), &parser);

    assert_eq!(note.file().content.chars().next().unwrap(), '\u{feff}');
    assert_eq!(note.title(), "Title after the mark");
}

#[test]
fn saved_text_ends_with_one_newline() {
    assert_eq!(NoteFile::text_to_save("abc"), "abc\n");
    assert_eq!(NoteFile::text_to_save("abc\n\n\r\n  "), "abc\n");
    assert_eq!(NoteFile::text_to_save(""), "\n");
}

#[test]
fn superseding_files() {
    let file = note_file("Old", "text");
    let renamed = file.rename("testdata/New.md", "New");
    assert_eq!(renamed.path, "testdata/New.md");
    assert_eq!(renamed.stem, "New");
    assert_eq!(renamed.extension, "md");
    assert_eq!(renamed.content, "text");
    let rewritten = file.replace_contents("other");
    assert_eq!(rewritten.path, "testdata/Old.md");
    assert_eq!(rewritten.stem, "Old");
    assert_eq!(rewritten.content, "other");
}

#[test]
fn self_links_are_dropped() {
    let parser = get_default_parser();
    let note = Note::new(
        note_file(
            "My Note",
            "# Title\n12345678901\n[[my note]] [[MY NOTE]] [[12345678901]] [[Other]] [[other]] [[OTHER]] [[98765432109]]\n",
        ),
        &parser,
    );
    assert_eq!(
        *note.links(),
        vec![
            WikiLink::FileName("Other".to_string()),
            WikiLink::Id("98765432109".to_string()),
        ]
    );
    assert!(note.is_link_to(&WikiLink::FileName("MY note".to_string())));
    assert!(note.is_link_to(&WikiLink::Id("12345678901".to_string())));
    assert!(!note.is_link_to(&WikiLink::Id("My Note".to_string())));
    assert!(!note.is_link_to(&WikiLink::FileName("Other".to_string())));
    assert_eq!(note.get_filename_link(), WikiLink::FileName("My Note".to_string()));
}

#[test]
fn notes_are_told_apart_by_their_paths() {
    let parser = get_default_parser();
    let a = Note::new(note_file("A", "# One\n"), &parser);
    let same_path = Note::new(note_file("A", "# Other contents\n"), &parser);
    let b = Note::new(note_file("B", "# One\n"), &parser);
    assert!(a == same_path);
    assert!(a != b);
    let mut map = HashMap::new();
    map.insert(a, 1);
    map.insert(same_path, 2);
    map.insert(b, 3);
    assert_eq!(map.len(), 2);
}

#[test]
fn wikilink_to_a_note() {
    assert_eq!(get_wikilink(&None, "Title", "Stem"), "[[Stem]] Title");
    assert_eq!(get_wikilink(&None, "Stem", "Stem"), "[[Stem]]");
    assert_eq!(
        get_wikilink(&Some("20210104073402".to_string()), "Title", "Stem"),
        "[[20210104073402]] Title"
    );
    assert_eq!(get_wikilink(&None, "", "Stem"), "[[Stem]]");

    let parser = get_default_parser();
    let note = Note::new(note_file("20210104073402 Stem", "# Title\n"), &parser);
    assert_eq!(note.get_wikilink_to(), "[[20210104073402]] Title");
    let meta: NoteMeta = note.get_meta();
    assert_eq!(meta.get_wikilink_to(), "[[20210104073402]] Title");
    assert_eq!(meta.path, "testdata/20210104073402 Stem.md");
    assert_eq!(meta.stem, "20210104073402 Stem");
    assert_eq!(meta.extension, "md");
    assert_eq!(meta.title, "Title");
    assert_eq!(meta.id, Some("20210104073402".to_string()));
}

#[test]
fn new_backlinks_under_a_heading_that_ends_in_a_space() {
    let parser = NoteParser::new(r"\d{14}", "## Links ").unwrap();
    let note = Note::new(note_file("Plain", "# Plain\nSome text.  \n"), &parser);
    assert!(!note.has_backlinks());

    let written =
        note.get_contents_with_new_backlinks(parser.backlinks_heading(), "\n- [[A]]\n- [[B]] \n");
    assert_eq!(written, "# Plain\nSome text.\n\n## Links \n\n\n- [[A]]\n- [[B]]");
    let again = Note::new(note_file("Plain", &written), &parser);
    assert_eq!(
        again.get_backlinks_section_without_heading(),
        Some("- [[A]]\n- [[B]]".to_string())
    );

    // a blank body leaves the heading without the space at its end, and the
    // section is not found
    let bare = note.get_contents_with_new_backlinks(parser.backlinks_heading(), " \n");
    assert_eq!(bare, "# Plain\nSome text.\n\n## Links");
    assert!(!Note::new(note_file("Plain", &bare), &parser).has_backlinks());
}

#[test]
fn rewriting_a_section_in_place_twice() {
    let parser = get_default_parser();
    let heading = parser.backlinks_heading().to_string();
    let content = format!("# A\ntext  \n\n{}\n- [[Old]]\n\nA tail with [[B]]  \n \n", heading);
    let note = Note::new(note_file("A", &content), &parser);
    let body = "- [[B]] Bee\n- [[C]]";
    let written = note.get_contents_with_new_backlinks(&heading, body);
    assert_eq!(
        written,
        format!("# A\ntext\n\n{}\n\n{}\n\nA tail with [[B]]", heading, body)
    );
    let again = Note::new(note_file("A", &written), &parser);
    assert_eq!(again.get_backlinks_section_without_heading(), Some(body.to_string()));
    assert_eq!(again.get_contents_with_new_backlinks(&heading, body), written);
    assert_eq!(again.links(), note.links());

    let bare = note.get_contents_with_new_backlinks(&heading, "");
    assert_eq!(bare, format!("# A\ntext\n\n{}\n\n\n\nA tail with [[B]]", heading));
    let again = Note::new(note_file("A", &bare), &parser);
    assert_eq!(again.get_contents_with_new_backlinks(&heading, ""), bare);
}
