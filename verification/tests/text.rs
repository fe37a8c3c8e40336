use templar::text::{
    chars_of, is_identifier, is_spacer, noneify_blank_string, scan, split_lines, string_of,
    trim_bounds, CharClass,
};

fn chars(s: &str) -> Vec<char> {
    s.chars().collect()
}

fn lines(s: &str) -> Vec<String> {
    split_lines(&chars(s)).iter().map(|l| l.iter().collect()).collect()
}

#[test]
fn chars_of_keeps_every_character_in_order() {
    assert_eq!(chars_of("a\u{e9}\u{4e16}!"), vec!['a', '\u{e9}', '\u{4e16}', '!']);
    assert_eq!(chars_of(""), Vec::<char>::new());
}

#[test]
fn string_of_takes_the_given_range() {
    let s = chars("hello world");
    assert_eq!(string_of(&s, 6, 11), "world");
    assert_eq!(string_of(&s, 3, 3), "");
    assert_eq!(string_of(&chars("\u{e9}t\u{e9}"), 1, 3), "t\u{e9}");
}

#[test]
fn identifier_characters() {
    assert!(is_identifier('a'));
    assert!(is_identifier('Z'));
    assert!(is_identifier('7'));
    assert!(is_identifier('-'));
    assert!(is_identifier('_'));
    assert!(is_identifier('\u{e9}'));
    assert!(!is_identifier('.'));
    assert!(!is_identifier('#'));
    assert!(!is_identifier(' '));
    assert!(!is_identifier('='));
}

#[test]
fn spacer_characters() {
    assert!(is_spacer(' '));
    assert!(is_spacer('\t'));
    assert!(is_spacer('\u{a0}'));
    assert!(!is_spacer('x'));
    assert!(!is_spacer('"'));
}

#[test]
fn scan_stops_at_the_first_character_outside_the_class() {
    let s = chars("abc-1_ x");
    assert_eq!(scan(&s, 0, CharClass::Identifier), 6);
    assert_eq!(scan(&s, 6, CharClass::Identifier), 6);
    assert_eq!(scan(&s, 6, CharClass::Whitespace), 7);
    assert_eq!(scan(&s, 7, CharClass::Identifier), 8);
    assert_eq!(scan(&s, 8, CharClass::Identifier), 8);
    assert_eq!(scan(&s, 0, CharClass::NonWhitespace), 6);
    assert_eq!(scan(&s, 0, CharClass::Except('1')), 4);
    assert_eq!(scan(&chars(" \t\r\nx"), 0, CharClass::Separator), 4);
    assert_eq!(scan(&chars("\u{a0}x"), 0, CharClass::Separator), 0);
}

#[test]
fn trim_bounds_drops_white_space_at_both_ends() {
    let s = chars("  a b \t");
    assert_eq!(trim_bounds(&s, 0, s.len()), (2, 5));
    assert_eq!(trim_bounds(&s, 3, s.len()), (4, 5));
    let blank = chars("   ");
    let (from, to) = trim_bounds(&blank, 0, 3);
    assert_eq!(from, to);
    assert_eq!(trim_bounds(&chars("x"), 0, 1), (0, 1));
    assert_eq!(trim_bounds(&chars(""), 0, 0), (0, 0));
}

#[test]
fn blank_strings_become_none() {
    assert_eq!(noneify_blank_string(String::new()), None);
    assert_eq!(noneify_blank_string("x".to_string()), Some("x".to_string()));
    assert_eq!(noneify_blank_string(" ".to_string()), Some(" ".to_string()));
}

#[test]
fn lines_end_at_line_feeds() {
    assert_eq!(lines("a\nb\nc"), vec!["a", "b", "c"]);
    assert_eq!(lines("a\nb\n"), vec!["a", "b"]);
    assert_eq!(lines("a\n\nb"), vec!["a", "", "b"]);
    assert_eq!(lines("\n"), vec![""]);
    assert_eq!(lines("\n\n"), vec!["", ""]);
    assert_eq!(lines(""), Vec::<String>::new());
    assert_eq!(lines("one"), vec!["one"]);
}

#[test]
fn a_carriage_return_before_a_line_feed_is_dropped() {
    assert_eq!(lines("a\r\nb\r\n"), vec!["a", "b"]);
    assert_eq!(lines("a\r\r\nb"), vec!["a\r", "b"]);
    assert_eq!(lines("a\rb\n"), vec!["a\rb"]);
    assert_eq!(lines("a\r"), vec!["a\r"]);
    assert_eq!(lines("\r\n"), vec![""]);
}

#[test]
fn lines_agree_with_the_standard_library() {
    for text in ["", "a", "a\n", "\n", "a\r\nb", "x\n\ny\n", "  p\n    q\r\n", "a\rb\r\n\r\n"] {
        let expected: Vec<String> = text.lines().map(|l| l.to_string()).collect();
        assert_eq!(lines(text), expected, "{:?}", text);
    }
}
