use logic_gates::text::{
    chars_of, is_blank, is_whitespace, join_words, matches_at, parse_number, same_text, slice,
    split_fields, split_lines, split_words, strip_prefix, text_of, trim,
};

fn v(s: &str) -> Vec<char> {
    s.chars().collect()
}

fn strings(parts: Vec<Vec<char>>) -> Vec<String> {
    parts.iter().map(|part| part.iter().collect()).collect()
}

#[test]
fn chars_and_text_convert_both_ways() {
    assert_eq!(chars_of("héllo ≠"), v("héllo ≠"));
    assert_eq!(text_of(&v("héllo ≠")), "héllo ≠");
    assert_eq!(text_of(&Vec::new()), "");
    assert_eq!(chars_of(""), Vec::<char>::new());
}

#[test]
fn white_space_is_what_the_standard_library_calls_white_space() {
    for code in 0..=0x11_0000u32 {
        if let Some(c) = char::from_u32(code) {
            assert_eq!(is_whitespace(c), c.is_whitespace(), "U+{:04X}", code);
        }
    }
}

#[test]
fn blank_texts() {
    assert!(is_blank(&v("")));
    assert!(is_blank(&v(" \t\r\u{a0}")));
    assert!(!is_blank(&v("  x ")));
}

#[test]
fn trim_strips_both_ends() {
    for s in ["", " ", "a", "  a b  ", "\t\u{3000}x\n", "x  ", "  x", " \r\n "] {
        assert_eq!(text_of(&trim(&v(s))), s.trim(), "{:?}", s);
    }
}

#[test]
fn slice_copies_a_range() {
    assert_eq!(slice(&v("abcdef"), 2, 4), v("cd"));
    assert_eq!(slice(&v("abcdef"), 3, 3), v(""));
    assert_eq!(slice(&v("abcdef"), 0, 6), v("abcdef"));
}

#[test]
fn same_text_compares_all_characters() {
    assert!(same_text(&v("abc"), &v("abc")));
    assert!(!same_text(&v("abc"), &v("abd")));
    assert!(!same_text(&v("abc"), &v("ab")));
    assert!(same_text(&v(""), &v("")));
}

#[test]
fn words_as_split_whitespace() {
    for s in ["", "   ", "a", " a  bb\tccc ", "x\u{2003}y", "one two three four", "\n\na\n"] {
        let expected: Vec<String> = s.split_whitespace().map(|w| w.to_string()).collect();
        assert_eq!(strings(split_words(&v(s))), expected, "{:?}", s);
    }
}

#[test]
fn fields_are_trimmed_and_never_empty() {
    for (s, pattern) in [
        ("a => b", "=>"),
        ("a=>b=>c", "=>"),
        ("=>", "=>"),
        ("", "=>"),
        ("a, b,c ,  , d, ", ", "),
        ("x = y", "="),
        ("x==y", "="),
        (" x ", "="),
        ("a ,b", ", "),
        ("a,, b", ", "),
        ("===", "=="),
    ] {
        let expected: Vec<String> = s
            .split(pattern)
            .map(|part| part.trim())
            .filter(|part| !part.is_empty())
            .map(|part| part.to_string())
            .collect();
        assert_eq!(strings(split_fields(&v(s), &v(pattern))), expected, "{:?} at {:?}", s, pattern);
    }
}

#[test]
fn lines_that_are_not_blank() {
    for s in [
        "",
        "\n",
        "a",
        "a\n",
        "a\nb",
        "a\r\nb\r\n",
        "a\rb\n",
        "a\r",
        "\r\n\r\n",
        "  \nx\n\t\n y \n",
        "a\n\nb\n\n",
        "a \r\n",
    ] {
        let expected: Vec<String> =
            s.lines().filter(|l| !l.trim().is_empty()).map(|l| l.to_string()).collect();
        assert_eq!(strings(split_lines(&v(s))), expected, "{:?}", s);
    }
}

#[test]
fn prefix_is_stripped_only_where_it_stands() {
    assert_eq!(strip_prefix(&v("inputs a b"), "inputs "), Some(v("a b")));
    assert_eq!(strip_prefix(&v("inputs "), "inputs "), Some(v("")));
    assert_eq!(strip_prefix(&v("inputs"), "inputs "), None);
    assert_eq!(strip_prefix(&v(" inputs a"), "inputs "), None);
    assert_eq!(strip_prefix(&v("abc"), ""), Some(v("abc")));
}

#[test]
fn pattern_is_matched_at_a_position() {
    assert!(matches_at(&v("a => b"), 2, &v("=>")));
    assert!(!matches_at(&v("a => b"), 1, &v("=>")));
    assert!(!matches_at(&v("a ="), 2, &v("=>")));
    assert!(matches_at(&v("abc"), 3, &v("")));
}

#[test]
fn words_are_joined_with_single_spaces() {
    let parts = vec![v("g"), v("1"), v("2"), v("some"), v("name")];
    assert_eq!(text_of(&join_words(&parts, 3)), "some name");
    assert_eq!(text_of(&join_words(&parts, 2)), "2 some name");
    assert_eq!(text_of(&join_words(&parts, 4)), "name");
    assert_eq!(text_of(&join_words(&parts, 5)), "");
    assert_eq!(text_of(&join_words(&parts, 0)), "g 1 2 some name");
}

#[test]
fn numbers_as_the_standard_library_reads_them() {
    for s in [
        "0",
        "7",
        "42",
        "007",
        "+5",
        "+",
        "",
        "-1",
        "1 ",
        " 1",
        "12a",
        "a12",
        "1.5",
        "++1",
        "18446744073709551615",
        "18446744073709551616",
        "99999999999999999999999",
        "000000000000000000000000000001",
        "١٢٣",
        "1_000",
    ] {
        assert_eq!(parse_number(&v(s)), s.parse::<usize>().ok(), "{:?}", s);
    }
}
