use templar::grammar::{
    line_p, read_attribute, read_attributes, read_class_ids, word_at, ClassId, HtmlElement,
    LineContent,
};

fn chars(s: &str) -> Vec<char> {
    s.chars().collect()
}

fn line(s: &str) -> Option<LineContent> {
    line_p(&chars(s))
}

fn element(s: &str) -> HtmlElement {
    match line(s) {
        Some(LineContent::Element(e)) => e,
        other => panic!("{:?} is no element line: {:?}", s, other),
    }
}

fn tokens(e: &HtmlElement) -> Vec<String> {
    e.classes_ids
        .iter()
        .map(|t| match t {
            ClassId::Id(s) => format!("#{}", s),
            ClassId::Class(s) => format!(".{}", s),
        })
        .collect()
}

fn pairs(list: &[(&str, &str)]) -> Vec<(String, String)> {
    list.iter().map(|(k, v)| (k.to_string(), v.to_string())).collect()
}

#[test]
fn doctype_line_keeps_the_trimmed_remainder() {
    assert!(matches!(line("doctype html"), Some(LineContent::Doctype(d)) if d == "html"));
    assert!(matches!(line("doctype   html 5  "), Some(LineContent::Doctype(d)) if d == "html 5"));
    assert!(matches!(line("doctype\thtml"), Some(LineContent::Doctype(d)) if d == "html"));
    assert!(matches!(line("doctype "), Some(LineContent::Doctype(d)) if d.is_empty()));
}

#[test]
fn doctype_without_separator_is_an_element() {
    let e = element("doctype");
    assert_eq!(e.tag.as_deref(), Some("doctype"));
    let e = element("doctypehtml");
    assert_eq!(e.tag.as_deref(), Some("doctypehtml"));
    assert_eq!(e.inner_text, None);
}

#[test]
fn raw_text_opener_discards_the_rest_of_its_line() {
    assert!(matches!(line(":javascript"), Some(LineContent::Javascript)));
    assert!(matches!(line(":javascript anything"), Some(LineContent::Javascript)));
    assert!(line(":java").is_none());
}

#[test]
fn tag_alone() {
    let e = element("html");
    assert_eq!(e.tag.as_deref(), Some("html"));
    assert!(e.classes_ids.is_empty());
    assert!(e.attributes.is_empty());
    assert_eq!(e.inner_text, None);
}

#[test]
fn tag_names_take_letters_digits_hyphens_and_underscores() {
    assert_eq!(element("my-tag_2 x").tag.as_deref(), Some("my-tag_2"));
    assert_eq!(element("h1").tag.as_deref(), Some("h1"));
    assert_eq!(element("\u{e9}t\u{e9}").tag.as_deref(), Some("\u{e9}t\u{e9}"));
}

#[test]
fn ids_and_classes_in_any_order() {
    let e = element("p.greeting#main Welcome");
    assert_eq!(e.tag.as_deref(), Some("p"));
    assert_eq!(tokens(&e), vec![".greeting", "#main"]);
    assert_eq!(e.inner_text.as_deref(), Some("Welcome"));
    let e = element("p#main.a.b");
    assert_eq!(tokens(&e), vec!["#main", ".a", ".b"]);
    assert_eq!(e.inner_text, None);
    let e = element("p#a#b");
    assert_eq!(tokens(&e), vec!["#a", "#b"]);
}

#[test]
fn class_or_id_only_line_has_no_tag() {
    let e = element(".box");
    assert_eq!(e.tag, None);
    assert_eq!(tokens(&e), vec![".box"]);
    let e = element("#top.wide text here");
    assert_eq!(e.tag, None);
    assert_eq!(tokens(&e), vec!["#top", ".wide"]);
    assert_eq!(e.inner_text.as_deref(), Some("text here"));
}

#[test]
fn a_dot_or_hash_without_a_name_is_no_token() {
    assert!(line(".").is_none());
    assert!(line("#").is_none());
    assert!(line(". x").is_none());
    let e = element("p. x");
    assert!(e.classes_ids.is_empty());
    assert_eq!(e.inner_text.as_deref(), Some(". x"));
    let e = element("p.a.");
    assert_eq!(tokens(&e), vec![".a"]);
    assert_eq!(e.inner_text.as_deref(), Some("."));
}

#[test]
fn unquoted_attribute_values_stop_at_white_space() {
    let e = element("a href=/index.html target=_blank Home page");
    assert_eq!(e.attributes, pairs(&[("href", "/index.html"), ("target", "_blank")]));
    assert_eq!(e.inner_text.as_deref(), Some("Home page"));
}

#[test]
fn quoted_attribute_values_may_hold_white_space() {
    let e = element("img alt=\"a small cat\" src=cat.png");
    assert_eq!(e.attributes, pairs(&[("alt", "a small cat"), ("src", "cat.png")]));
    assert_eq!(e.inner_text, None);
    let e = element("p title=\"\" x");
    assert_eq!(e.attributes, pairs(&[("title", "")]));
    assert_eq!(e.inner_text.as_deref(), Some("x"));
}

#[test]
fn a_quote_that_is_never_closed_belongs_to_an_unquoted_value() {
    let e = element("p title=\"open end");
    assert_eq!(e.attributes, pairs(&[("title", "\"open")]));
    assert_eq!(e.inner_text.as_deref(), Some("end"));
}

#[test]
fn an_attribute_may_follow_a_quoted_value_directly() {
    let e = element("p a=\"1\"b=2");
    assert_eq!(e.attributes, pairs(&[("a", "1"), ("b", "2")]));
}

#[test]
fn an_empty_unquoted_value_is_a_value() {
    let e = element("p a= b=1");
    assert_eq!(e.attributes, pairs(&[("a", ""), ("b", "1")]));
    let e = element("p a=");
    assert_eq!(e.attributes, pairs(&[("a", "")]));
    assert_eq!(e.inner_text, None);
}

#[test]
fn attributes_follow_ids_and_classes() {
    let e = element(".card#one data-x=1 hello");
    assert_eq!(tokens(&e), vec![".card", "#one"]);
    assert_eq!(e.attributes, pairs(&[("data-x", "1")]));
    assert_eq!(e.inner_text.as_deref(), Some("hello"));
}

#[test]
fn what_follows_the_first_text_is_text() {
    let e = element("p hello a=b .c #d");
    assert!(e.attributes.is_empty());
    assert!(e.classes_ids.is_empty());
    assert_eq!(e.inner_text.as_deref(), Some("hello a=b .c #d"));
    let e = element("p a=b .c");
    assert_eq!(e.attributes, pairs(&[("a", "b")]));
    assert_eq!(e.inner_text.as_deref(), Some(".c"));
    let e = element("title | Hello");
    assert_eq!(e.inner_text.as_deref(), Some("| Hello"));
}

#[test]
fn a_name_without_equals_sign_is_text() {
    let e = element("p class");
    assert!(e.attributes.is_empty());
    assert_eq!(e.inner_text.as_deref(), Some("class"));
}

#[test]
fn inner_text_is_trimmed() {
    assert_eq!(element("p    spaced out   ").inner_text.as_deref(), Some("spaced out"));
    assert_eq!(element("p    ").inner_text, None);
}

#[test]
fn directive_line_is_kept_whole() {
    assert!(matches!(line("= yield"), Some(LineContent::Directive(d)) if d == "yield"));
    assert!(matches!(line("=x  y.z#w a=b "), Some(LineContent::Directive(d)) if d == "x  y.z#w a=b"));
    assert!(matches!(line("="), Some(LineContent::Directive(d)) if d.is_empty()));
}

#[test]
fn text_line_is_trimmed() {
    assert!(matches!(line("| Hello <b>"), Some(LineContent::Text(t)) if t == "Hello <b>"));
    assert!(matches!(line("|x"), Some(LineContent::Text(t)) if t == "x"));
    assert!(matches!(line("|"), Some(LineContent::Text(t)) if t.is_empty()));
}

#[test]
fn lines_outside_the_language() {
    assert!(line("").is_none());
    assert!(line("!").is_none());
    assert!(line("<p>").is_none());
    assert!(line("\"quoted\"").is_none());
    assert!(line(": javascript").is_none());
    assert!(line("@x").is_none());
}

#[test]
fn word_at_compares_at_the_position() {
    let s = chars("a doctype");
    assert!(word_at(&s, 2, "doctype"));
    assert!(!word_at(&s, 0, "doctype"));
    assert!(!word_at(&s, 3, "doctype"));
    assert!(word_at(&s, 9, ""));
    assert!(!word_at(&s, 8, "ee"));
}

#[test]
fn read_class_ids_reports_where_it_stopped() {
    let s = chars("p.a#b.c rest");
    let (tokens, end) = read_class_ids(&s, 1);
    assert_eq!(tokens.len(), 3);
    assert_eq!(end, 7);
    let (tokens, end) = read_class_ids(&s, 0);
    assert!(tokens.is_empty());
    assert_eq!(end, 0);
}

#[test]
fn read_attribute_reports_where_it_stopped() {
    let s = chars("k=\"a b\" z");
    let ((key, value), end) = read_attribute(&s, 0).unwrap();
    assert_eq!((key.as_str(), value.as_str(), end), ("k", "a b", 7));
    assert!(read_attribute(&s, 1).is_none());
    assert!(read_attribute(&chars("k v"), 0).is_none());
    assert!(read_attribute(&chars("=v"), 0).is_none());
    let ((key, value), end) = read_attribute(&chars("k=v w"), 0).unwrap();
    assert_eq!((key.as_str(), value.as_str(), end), ("k", "v", 3));
}

#[test]
fn read_attributes_skips_separators_around_each() {
    let s = chars("  a=1 \t b=2   text c=3");
    let (found, end) = read_attributes(&s, 0);
    assert_eq!(found, pairs(&[("a", "1"), ("b", "2")]));
    assert_eq!(end, 14);
    let s = chars("  text");
    let (found, end) = read_attributes(&s, 0);
    assert!(found.is_empty());
    assert_eq!(end, 0);
}
