use noteexplorer::lines;

#[test]
fn trim_bom() {
    let with_bom = "\u{feff}# Markdown Test File\r\n\r\nSome text";

    assert!(with_bom.starts_with('\u{feff}'));
    assert_eq!(lines::starts_with_bom(with_bom), 3);

    assert_eq!(lines::starts_with_bom("Hello, world!"), 0);
    assert_eq!(lines::starts_with_bom("."), 0);
}

#[test]
fn find_first_line() {
    assert_eq!(lines::find_first_line("", 0), None);
    assert_eq!(lines::find_first_line("\r", 0), None);
    assert_eq!(lines::find_first_line("\n", 0), None);

    let text = "Lorem ipsum dolor sit amet";
    let (s1, e1) = lines::find_first_line(text, 0).unwrap();
    assert_eq!(s1, 0);
    assert_eq!(&text[s1..e1], "Lorem ipsum dolor sit amet");

    let text = "Lorem ipsum dolor sit amet\r\n";
    let (s1, e1) = lines::find_first_line(text, 0).unwrap();
    assert_eq!(s1, 0);
    assert_eq!(&text[s1..e1], "Lorem ipsum dolor sit amet");

    let text = "\r\r\n\nLorem ipsum dolor sit amet";
    let (s1, e1) = lines::find_first_line(text, 0).unwrap();
    assert_eq!(s1, 4);
    assert_eq!(&text[s1..e1], "Lorem ipsum dolor sit amet");

    let text = "\rLorem\ripsum\ndolor\r\nsit\namet\r\n";
    let (s1, e1) = lines::find_first_line(text, 0).unwrap();
    assert_eq!(s1, 1);
    assert_eq!(&text[s1..e1], "Lorem");

    let text = "🔥";
    let (s1, e1) = lines::find_first_line(text, 0).unwrap();
    assert_eq!(s1, 0);
    assert_eq!(&text[s1..e1], "🔥");
}

#[test]
fn find_next_line() {
    assert_eq!(lines::find_next_line("", 0), None);
    assert_eq!(lines::find_next_line("\r", 0), None);
    assert_eq!(lines::find_next_line("\n", 0), None);
    assert_eq!(lines::find_next_line("Lorem ipsum dolor sit amet", 0), None);
    assert_eq!(lines::find_next_line("🔥", 0), None);

    let text = "\rLorem\ripsum\ndolor\r\nsit\namet\r\n";
    let (s1, e1) = lines::find_next_line(text, 0).unwrap();
    println!("1. {}..{} = {}", s1, e1, &text[s1..e1]);
    assert_eq!(s1, 1);
    assert_eq!(&text[s1..e1], "Lorem");

    let (s1, e1) = lines::find_next_line(text, s1).unwrap();
    assert_eq!(s1, 7);
    assert_eq!(&text[s1..e1], "ipsum");

    let (s1, e1) = lines::find_next_line(text, s1).unwrap();
    assert_eq!(s1, 13);
    assert_eq!(&text[s1..e1], "dolor");

    let text = "🔥\n🔥\n";
    let (s1, e1) = lines::find_next_line(text, 0).unwrap();
    assert_eq!(s1, 5);
    assert_eq!(&text[s1..e1], "🔥");
}

#[test]
fn find_newline_positions() {
    assert_eq!(lines::find_newline("abc", 0), None);
    assert_eq!(lines::find_newline("abc\ndef", 0), Some(3));
    assert_eq!(lines::find_newline("abc\ndef\r", 4), Some(7));
    assert_eq!(lines::find_newline("abc", 10), None);
}

#[test]
fn line_search_past_the_end() {
    assert_eq!(lines::find_first_line("abc", 3), None);
    assert_eq!(lines::find_first_line("abc", 7), None);
    assert_eq!(lines::find_next_line("abc\n", 9), None);
}
