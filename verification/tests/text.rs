use noteexplorer::text::{
    bytes_equal, bytes_less, is_blank_char, replace, str_equal, to_chars, trim, trim_end,
};

#[test]
fn whitespace_is_what_the_standard_library_takes_for_it() {
    let mut count = 0;
    for code in 0..=0x10ffffu32 {
        if let Some(c) = char::from_u32(code) {
            assert_eq!(is_blank_char(c), c.is_whitespace(), "U+{:04X}", code);
            if is_blank_char(c) {
                count += 1;
            }
        }
    }
    assert_eq!(count, 25);
    assert!(is_blank_char('\u{a0}'));
    assert!(is_blank_char('\u{3000}'));
    assert!(!is_blank_char('\u{200b}'));
    assert!(!is_blank_char('\u{feff}'));
    assert!(!is_blank_char('a'));
}

#[test]
fn trimming_agrees_with_the_standard_library() {
    let samples = [
        "",
        " ",
        "\n",
        "a",
        "  a",
        "a  ",
        "  a  b  ",
        "\t\r\n text \u{a0}\u{2003}\n",
        "\u{feff} kept mark ",
        "é\u{3000}",
        "\u{85}x\u{85}",
        "no whitespace",
    ];
    for sample in samples.iter() {
        assert_eq!(trim(sample), sample.trim());
        assert_eq!(trim_end(sample), sample.trim_end());
    }
}

#[test]
fn trimming_exact_values() {
    assert_eq!(trim("  a  b  "), "a  b");
    assert_eq!(trim_end("  a  b  "), "  a  b");
    assert_eq!(trim(" \n\t"), "");
    assert_eq!(trim_end(" \n\t"), "");
}

#[test]
fn replacing_agrees_with_the_standard_library() {
    let cases = [
        ("", "a", "b"),
        ("aaa", "a", "b"),
        ("aaa", "aa", "b"),
        ("abcabc", "bc", ""),
        ("[[Old]] and [[Old]] and [[old]]", "[[Old]]", "[[New]]"),
        ("ünï [[ö]] [[ö]]", "[[ö]]", "[[ø ø]]"),
        ("short", "much longer than the text", "x"),
        ("tail match xx", "xx", "y"),
        ("xxhead match", "xx", "y"),
        ("overlap aaaa", "aa", "a"),
    ];
    for (text, from, to) in cases.iter() {
        assert_eq!(replace(text, from, to), text.replace(from, to));
    }
}

#[test]
fn replacing_exact_values() {
    assert_eq!(replace("a-b-c", "-", "+"), "a+b+c");
    assert_eq!(replace("aaa", "aa", "b"), "ba");
    assert_eq!(replace("abc", "", "x"), "abc");
}

#[test]
fn texts_are_compared_by_their_bytes() {
    assert!(bytes_equal(b"abc", b"abc"));
    assert!(!bytes_equal(b"abc", b"abd"));
    assert!(!bytes_equal(b"abc", b"ab"));
    assert!(str_equal("åström", "åström"));
    assert!(!str_equal("åström", "Åström"));
    assert!(str_equal("", ""));

    let words = ["", "a", "A", "ab", "b", "é", "z", "aa", "Z"];
    for x in words.iter() {
        for y in words.iter() {
            assert_eq!(bytes_less(x.as_bytes(), y.as_bytes()), x < y);
        }
    }
}

#[test]
fn characters_of_a_text() {
    assert_eq!(to_chars("aé🔥"), vec!['a', 'é', '🔥']);
    assert_eq!(to_chars(""), Vec::<char>::new());
}
