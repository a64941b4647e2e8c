use noteexplorer::link::WikiLink;
use noteexplorer::mdparse::{escape_markdown, NoteParser};
use regex::Regex;

#[test]
fn strip_attributes() {
    assert_eq!(NoteParser::strip_heading_attributes("My heading"), "My heading");
    assert_eq!(NoteParser::strip_heading_attributes("My heading {#foo}"), "My heading ");
    assert_eq!(
        NoteParser::strip_heading_attributes("My {heading} {#foo}"),
        "My {heading} "
    );

    // Only remove {} at the end!
    assert_eq!(
        NoteParser::strip_heading_attributes("{-} My heading"),
        "{-} My heading"
    );

    assert_eq!(NoteParser::strip_heading_attributes("My }{ heading"), "My }{ heading");
}

#[test]
fn strip_attributes_edge_cases() {
    assert_eq!(NoteParser::strip_heading_attributes(""), "");
    assert_eq!(NoteParser::strip_heading_attributes("}"), "}");
    assert_eq!(NoteParser::strip_heading_attributes("{}"), "");
    assert_eq!(NoteParser::strip_heading_attributes("Å {x} é}"), "Å {x} é}".split_at(3).0);
}

#[test]
fn parse_md1() {
    let text = "\u{feff}---\r\ntitle: \"Markdown: A markup language\"\r\n# a comment in the front matter\r\nid: 123123123123\r\n---\r\n\r\n# Markdown Test File\r\n\r\nThe first paragraph, 1111111111110, links to [[Related note1]] and [[Related note2]].\r\n\r\n```\r\n# Not a heading, 5555555555555\r\n[[Inside a fence]]\r\n```\r\n\r\nAn identifier 1234567891011 and a link to it: [[1234567891011]].\r\n\r\n<!--\r\n# This is a heading inside a comment\r\n-->\r\n\r\n    indented code with [[no link]] and 7777777777777\r\n\r\n# Then another heading\r\n\r\nAgain 1212121212121, and [[should this count as a link]]?\r\n\r\n## Links to this note {#backlinks .unnumbered}\r\n\r\n- [[A backlink]] 8888888888888\r\n\r\nAt last 9900021212121 and [[One last link]].\r\n";
    let parser = NoteParser::new(
        r"\d{12,14}",
        "## Links to this note {#backlinks .unnumbered}",
    )
    .unwrap();
    let data = parser.parse(&text);

    let expected_ids = [
        "123123123123",
        "1111111111110",
        "1234567891011",
        "1212121212121",
        "9900021212121",
    ];

    assert_eq!(data.ids.len(), expected_ids.len());
    for (expected, actual) in expected_ids.iter().zip(data.ids.iter()) {
        assert_eq!(actual, expected);
    }

    let expected_titles = [
        "Markdown: A markup language",
        "Markdown Test File",
        "This is a heading inside a comment",
        "Then another heading",
    ];

    assert_eq!(data.titles.len(), expected_titles.len());
    for (expected, actual) in expected_titles.iter().zip(data.titles.iter()) {
        assert_eq!(actual, expected);
    }

    let expected_links = [
        WikiLink::FileName("Related note1".to_owned()),
        WikiLink::FileName("Related note2".to_owned()),
        WikiLink::Id("1234567891011".to_owned()),
        WikiLink::FileName("should this count as a link".to_owned()),
        WikiLink::FileName("One last link".to_owned()),
    ];

    assert_eq!(data.links.len(), expected_links.len());
    for (expected, actual) in expected_links.iter().zip(data.links.iter()) {
        assert_eq!(actual, expected);
    }
}

#[test]
fn mdparse_oneliner_parser() {
    let text = r"# Just a heading \#";
    let parser = NoteParser::new(r"\d{14}", "## Links to this note").unwrap();
    let data = parser.parse(&text);

    assert!(data.titles.contains(&"Just a heading #".to_owned()));
    assert_eq!(data.titles.len(), 1);
    assert_eq!(data.links.len(), 0);
    assert_eq!(data.ids.len(), 0);
    assert_eq!(data.tasks.len(), 0);
    assert!(data.backlinks_start.is_none());
    assert!(data.backlinks_end.is_none());
}

#[test]
fn escaped_characters() {
    assert_eq!(escape_markdown(r"C\#\! \{ 0 \+\- 1 \}"), "C#! { 0 +- 1 }");
    assert_eq!(
        escape_markdown(r"Escape\.\`\(\\\[\|\*\]\)"),
        r"Escape.`(\[|*])"
    );
}

#[test]
fn escaped_characters_agree_with_the_expression() {
    let expr = Regex::new(r"\\([\\`\*_{}\[\]<>()#+-\.!|])").unwrap();
    let samples = [
        r"",
        r"\",
        r"\\",
        r"\\\",
        r"a\b",
        r"a\,b",
        r"a\-b\+c\.d",
        r"\a\\b\\\c",
        r"tr\ailing \",
        r"\é \# é\#",
        r"\/ \: \; \= \? \@ \^ \~ \$ \% \& \' \0",
        "\\\n\\[",
    ];
    for sample in samples.iter() {
        assert_eq!(escape_markdown(sample), expr.replace_all(sample, "$1"));
    }
}

#[test]
fn invalid_id_pattern_is_refused() {
    assert!(NoteParser::new(r"(\d{14}", "## Links").is_err());
    assert_eq!(
        NoteParser::new(r"(\d{14}", "## Links").err(),
        Some("Cannot parse ID format as regular expression")
    );
    assert_eq!(
        NoteParser::new("[", "").err(),
        Some("Cannot parse ID format as regular expression")
    );
    assert!(NoteParser::new(r"\d{14}", "## Links").is_ok());
}

#[test]
fn id_functions() {
    let parser = NoteParser::new(r"\d{11,14}", "**Links to this note**").unwrap();
    assert_eq!(parser.get_id("12345678901 Test Note 1"), Some("12345678901".to_string()));
    assert_eq!(parser.get_id("Test 12345678901"), Some("12345678901".to_string()));
    assert_eq!(parser.get_id("Test12345678901"), None);
    assert_eq!(parser.get_id("No id here"), None);
    assert!(parser.is_id("20210104073402"));
    assert!(!parser.is_id("Filename Link"));
    assert_eq!(parser.remove_id("12345678901 Test Note 1"), "Test Note 1");
    assert_eq!(parser.remove_id("Empty File With Name"), "Empty File With Name");
    assert_eq!(parser.backlinks_heading(), "**Links to this note**");
}

fn file_name(text: &str) -> WikiLink {
    WikiLink::FileName(text.to_owned())
}

#[test]
fn wiki_links_of_a_line() {
    let parser = NoteParser::new(r"\d{11,14}", "**Links to this note**").unwrap();
    assert_eq!(parser.get_wiki_links("no links here"), None);
    assert_eq!(parser.get_wiki_links("[[]]"), None);
    assert_eq!(parser.get_wiki_links("[[a]"), None);
    assert_eq!(
        parser.get_wiki_links("See [[Filename Link]] and [[20210104073402]]."),
        Some(vec![file_name("Filename Link"), WikiLink::Id("20210104073402".to_owned())])
    );
    assert_eq!(
        parser.get_wiki_links("[[Org-Mode Link Text][Org-Mode Link]]"),
        Some(vec![file_name("Org-Mode Link Text][Org-Mode Link")])
    );
    assert_eq!(
        parser.get_wiki_links("[[using labelled links|labelling wiki links]] [[the filename first#section then]]"),
        Some(vec![
            file_name("using labelled links|labelling wiki links"),
            file_name("the filename first#section then"),
        ])
    );
    assert_eq!(
        parser.get_wiki_links("[[my [not so pretty] link]]"),
        Some(vec![file_name("my [not so pretty] link")])
    );
    assert_eq!(parser.get_wiki_links("[[]]]"), Some(vec![file_name("]")]));
    assert_eq!(parser.get_wiki_links("[[[[a]]"), Some(vec![file_name("[[a")]));
    assert_eq!(parser.get_wiki_links("[[Ünïcödé ✓]]"), Some(vec![file_name("Ünïcödé ✓")]));
}

#[test]
fn malformed_wiki_links_are_dropped() {
    let parser = NoteParser::new(r"\d{11,14}", "**Links to this note**").unwrap();
    assert_eq!(parser.get_wiki_links("[[ leading space]]"), Some(vec![]));
    assert_eq!(parser.get_wiki_links("[[trailing space ]]"), Some(vec![]));
    assert_eq!(parser.get_wiki_links("[[.hidden]]"), Some(vec![]));
    assert_eq!(parser.get_wiki_links("[[ends with dot.]]"), Some(vec![]));
    assert_eq!(
        parser.get_wiki_links("[[ bad]] then [[good]]"),
        Some(vec![file_name("good")])
    );
    assert_eq!(
        parser.get_wiki_links("[[ 20210104073402]]"),
        Some(vec![WikiLink::Id(" 20210104073402".to_owned())])
    );
}

#[test]
fn wiki_link_spans_agree_with_the_expression() {
    let parser = NoteParser::new(r"\d{11,14}", "**Links to this note**").unwrap();
    let expr = Regex::new("\\[\\[(.+?)\\]\\]").unwrap();
    let samples = [
        "[[a]]",
        "[[a]][[b]]",
        "[[a]]]]",
        "[[[a]]]",
        "[[a]b]]",
        "[[a\nb]] [[c]]",
        "[[\n]] [[c]]",
        "x[[é]]y[[ü]z]]",
        "[[a] ] [[b]]",
        "[[[[[[x]]]]]]",
        "[[]] [[y]]",
        "[ [a]] [[b]",
        "[[a]]\n[[b]]",
    ];
    for sample in samples.iter() {
        let expected: Vec<String> = expr
            .captures_iter(sample)
            .map(|c| c[1].to_string())
            .filter(|t| !(t.starts_with(' ') || t.starts_with('.') || t.ends_with(' ') || t.ends_with('.')))
            .collect();
        let found: Vec<String> = parser
            .get_wiki_links(sample)
            .unwrap_or_default()
            .iter()
            .map(|l| l.text().to_string())
            .collect();
        assert_eq!(found, expected);
        assert_eq!(parser.get_wiki_links(sample).is_some(), expr.is_match(sample));
    }
}

#[test]
fn example_parse() {
    let parser = NoteParser::new(r"\d{14}", "## Links to this note").unwrap();
    let data = parser.parse("# Title\n\n[[Other]]\n");
    assert_eq!(data.titles, vec!["Title".to_string()]);
    assert!(data.ids.is_empty());
    assert_eq!(data.links, vec![file_name("Other")]);
    assert!(data.tasks.is_empty());
    assert_eq!(data.backlinks_start, None);
    assert_eq!(data.backlinks_end, None);
}

#[test]
fn empty_text_parses_to_nothing() {
    let parser = NoteParser::new(r"\d{14}", "## Links to this note").unwrap();
    for text in ["", "\n\r\n", "\u{feff}", "\u{feff}\n"].iter() {
        let data = parser.parse(text);
        assert!(data.titles.is_empty());
        assert!(data.ids.is_empty());
        assert!(data.links.is_empty());
        assert!(data.tasks.is_empty());
        assert_eq!(data.backlinks_start, None);
        assert_eq!(data.backlinks_end, None);
    }
}

#[test]
fn front_matter_is_read() {
    let parser = NoteParser::new(r"\d{11,14}", "**Links to this note**").unwrap();
    let text = "---\ntitle: Plain YAML title\n# a comment with [[Ignored]]\nkeywords: [[Topic]]\n...\n# Heading\n";
    let data = parser.parse(text);
    assert_eq!(data.titles, vec!["Plain YAML title".to_string(), "Heading".to_string()]);
    assert_eq!(data.links, vec![file_name("Topic")]);

    let text = "\u{feff}---\r\ntitle: 'Plein: YAML title'\r\nid: 123123123123\r\n---\r\nBody 1111111111110\r\n";
    let data = parser.parse(text);
    assert_eq!(data.titles, vec!["Plein: YAML title".to_string()]);
    assert_eq!(data.ids, vec!["123123123123".to_string(), "1111111111110".to_string()]);
}

#[test]
fn code_is_skipped() {
    let parser = NoteParser::new(r"\d{11,14}", "**Links to this note**").unwrap();
    let text = "Intro [[One]]\n```rust\n[[Inside Fenced Code Block]]\n~~~\n```\n~~~\n[[Also fenced]]\n~~~still fenced? no, this closes\n    [[indented code]]\n\t[[tabbed code]]\n    - [[indented list item]]\n    1. [[numbered item]]\nOutro [[Two]]\n";
    let data = parser.parse(text);
    assert_eq!(
        data.links,
        vec![
            file_name("One"),
            file_name("indented list item"),
            file_name("numbered item"),
            file_name("Two"),
        ]
    );
}

#[test]
fn tasks_are_found_in_the_body() {
    let parser = NoteParser::new(r"\d{11,14}", "**Links to this note**").unwrap();
    let text = "---\n- [ ] not a task in front matter\n---\n- [ ] Don't forget to remember\n* [ ] Buy milk!\n    + [ ] Nested\n\t- [ ] Tabbed with [[link]]\n- [x] Done already\n```\n- [ ] Inside code\n```\n- [ ] Final line";
    let data = parser.parse(text);
    assert_eq!(
        data.tasks,
        vec![
            "Don't forget to remember".to_string(),
            "Buy milk!".to_string(),
            "Nested".to_string(),
            "Tabbed with [[link]]".to_string(),
            "Final line".to_string(),
        ]
    );
    assert_eq!(data.links, vec![file_name("link")]);
}

#[test]
fn backlinks_section_is_located() {
    let parser = NoteParser::new(r"\d{11,14}", "## Backlinks").unwrap();
    let text = "# Note\n\nText [[A]]\n\n## Backlinks\n\n- [[B]]\n* [[C]]\n\nAfter [[D]]\n";
    let data = parser.parse(text);
    assert_eq!(data.backlinks_start, Some(text.find("## Backlinks").unwrap()));
    assert_eq!(data.backlinks_end, Some(text.find("After").unwrap()));
    assert_eq!(data.links, vec![file_name("A"), file_name("D")]);

    let text = "# Note\n## Backlinks\n- [[B]]\n";
    let data = parser.parse(text);
    assert_eq!(data.backlinks_start, Some(7));
    assert_eq!(data.backlinks_end, None);
    assert!(data.links.is_empty());

    let text = "## Backlinks\n- [[B]]\ntext\n## Backlinks\n- [[C]]\n";
    let data = parser.parse(text);
    assert_eq!(data.backlinks_start, Some(26));
    assert_eq!(data.backlinks_end, None);
}

#[test]
fn closing_sequences_are_stripped_from_titles() {
    let parser = NoteParser::new(r"\d{11,14}", "## Backlinks").unwrap();
    let data = parser.parse("# Closed ##  \n# C#\n# Escaped \\#\n# Both {#x} #\n# Tab\t#\n# #\n# Unicode é ###\n");
    assert_eq!(
        data.titles,
        vec![
            "Closed".to_string(),
            "C#".to_string(),
            "Escaped #".to_string(),
            "Both {#x}".to_string(),
            "Tab".to_string(),
            "#".to_string(),
            "Unicode é".to_string(),
        ]
    );
}

#[test]
fn heading_attributes_are_stripped_from_titles() {
    let parser = NoteParser::new(r"\d{11,14}", "## Backlinks").unwrap();
    let data = parser.parse("# Markdown: A markup language {#intro .unnumbered}\nText\n# Then another heading #1 12345678901\n");
    assert_eq!(
        data.titles,
        vec![
            "Markdown: A markup language".to_string(),
            "Then another heading #1 12345678901".to_string(),
        ]
    );
    assert_eq!(data.ids, vec!["12345678901".to_string()]);
}
