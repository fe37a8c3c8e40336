use templar::directive::{command_for, doctype_text, Command};
use templar::escape::escape_default;
use templar::output::{
    has_separate_close_tag, open_tag_of, write_node, write_out, write_str, DirectiveHandler, DirectivePrinter, WriteError,
};
use templar::parse::parse;
use templar::text::str_eq;
use templar::{element, Node, TemplateContext};

/// A handler in the manner of a site's: documents are kept by name.
struct Documents {
    named: Vec<(String, Vec<Node>)>,
}

impl DirectiveHandler for Documents {
    type DirectiveError = String;

    fn handle(
        &self,
        context: &TemplateContext,
        command: &str,
        children: &[Node],
        out: &mut Vec<u8>,
    ) -> Result<(), String> {
        match command_for(command) {
            Command::Yield => {
                write_out(&context.nodes, context, out, self).map_err(|e| format!("{:?}", e))
            }
            Command::Include(name) => {
                let nodes = match self.named.iter().find(|(n, _)| *n == name) {
                    Some((_, nodes)) => nodes,
                    None => return Err(format!("no document {}", name)),
                };
                let inner = TemplateContext { nodes: children.to_vec() };
                write_out(nodes, &inner, out, self).map_err(|e| format!("{:?}", e))
            }
            Command::Doctype => {
                out.extend_from_slice(doctype_text().as_bytes());
                Ok(())
            }
            Command::Unrecognized => Err(format!("unrecognized: {}", command)),
        }
    }
}

fn documents(list: &[(&str, &str)]) -> Documents {
    Documents {
        named: list.iter().map(|(name, source)| (name.to_string(), parse(source).unwrap())).collect(),
    }
}

fn render_with<DH: DirectiveHandler>(source: &str, handler: &DH) -> (String, bool) {
    let nodes = parse(source).unwrap();
    let mut out = Vec::new();
    let r = write_out(&nodes, &TemplateContext::empty(), &mut out, handler);
    assert!(!matches!(r, Err(WriteError::IO(_))));
    (String::from_utf8(out).unwrap(), r.is_ok())
}

fn render(source: &str) -> String {
    let (out, ok) = render_with(source, &DirectivePrinter {});
    assert!(ok);
    out
}

#[test]
fn empty_document_renders_to_nothing() {
    assert_eq!(render(""), "");
    assert_eq!(render("\n  \n"), "");
    let mut out = b"kept".to_vec();
    let r = write_out(&[], &TemplateContext::empty(), &mut out, &DirectivePrinter {});
    assert!(r.is_ok());
    assert_eq!(out, b"kept");
}

#[test]
fn end_to_end_example_renders_nested_tags() {
    let source = "html\n  head\n    title | Hello\n  body\n    p.greeting#main Welcome\n";
    assert_eq!(
        render(source),
        "<html ><head ><title >| Hello</title></head><body ><p class=\"greeting\" id=\"main\" >Welcome</p></body></html>"
    );
}

#[test]
fn text_is_written_unescaped() {
    assert_eq!(render("title a < b & \"c\"\np\n  | <i>x</i>"),
        "<title >a < b & \"c\"</title><p ><i>x</i></p>");
}

#[test]
fn doctype_is_written_on_a_line_of_its_own() {
    assert_eq!(render("doctype html\nhtml"), "<!DOCTYPE html>\n<html />");
}

#[test]
fn elements_without_children_close_themselves() {
    assert_eq!(render("br"), "<br />");
    assert_eq!(render("img src=a.png"), "<img src=\"a.png\" />");
    assert_eq!(render("div\n  hr"), "<div ><hr /></div>");
}

#[test]
fn script_and_a_never_close_themselves() {
    assert_eq!(render("script src=x.js"), "<script src=\"x.js\" ></script>");
    assert_eq!(render("a"), "<a ></a>");
    assert_eq!(render("a href=#"), "<a href=\"#\" ></a>");
    assert_eq!(render("abbr"), "<abbr />");
    assert_eq!(render("scripts"), "<scripts />");
    assert_eq!(render("A"), "<A />");
}

#[test]
fn raw_text_lines_end_with_a_line_feed() {
    assert_eq!(
        render(":javascript\n  var a = 1;\n  f(a);\np"),
        "<script type=\"javascript\" >var a = 1;\nf(a);\n</script><p />"
    );
    assert_eq!(render(":javascript"), "<script type=\"javascript\" ></script>");
}

#[test]
fn attribute_values_are_escaped() {
    assert_eq!(render("p title=\"a 'b' \\ c\""), "<p title=\"a \\'b\\' \\\\ c\" />");
    assert_eq!(render("p t=caf\u{e9}"), "<p t=\"caf\\u{e9}\" />");
    assert_eq!(render("p t=a\"b"), "<p t=\"a\\\"b\" />");
}

#[test]
fn escape_default_escapes_quotes_backslash_and_what_is_not_printable_ascii() {
    assert_eq!(escape_default(""), "");
    assert_eq!(escape_default("plain text ~!"), "plain text ~!");
    assert_eq!(escape_default("\"q\""), "\\\"q\\\"");
    assert_eq!(escape_default("it's"), "it\\'s");
    assert_eq!(escape_default("a\\b"), "a\\\\b");
    assert_eq!(escape_default("\t\r\n"), "\\t\\r\\n");
    assert_eq!(escape_default("\u{0}"), "\\u{0}");
    assert_eq!(escape_default("\u{1f}\u{7f}"), "\\u{1f}\\u{7f}");
    assert_eq!(escape_default("\u{e9}\u{4e16}\u{1f600}"), "\\u{e9}\\u{4e16}\\u{1f600}");
    assert_eq!(escape_default("\u{10ffff}\u{100}"), "\\u{10ffff}\\u{100}");
}

#[test]
fn escape_default_agrees_with_the_standard_library() {
    for text in ["", "abc", "a\"b'c\\d", "\t\n\r\u{b}", "\u{7f}\u{80}\u{ff}\u{fffd}\u{10000}", " ~"] {
        let expected: String = text.escape_default().to_string();
        assert_eq!(escape_default(text), expected);
    }
}

#[test]
fn open_tag_lists_the_attributes_in_order() {
    let mut e = element("p", vec![("b", "2"), ("a", "1"), ("b", "3")]);
    assert_eq!(open_tag_of(&e), "<p b=\"2\" a=\"1\" b=\"3\" />");
    e.children.push(Node::Text(String::new()));
    assert_eq!(open_tag_of(&e), "<p b=\"2\" a=\"1\" b=\"3\" >");
    assert_eq!(open_tag_of(&element("a", vec![])), "<a >");
    assert_eq!(open_tag_of(&element("br", vec![])), "<br />");
}

#[test]
fn which_elements_get_a_closing_tag() {
    assert!(has_separate_close_tag(&element("script", vec![])));
    assert!(has_separate_close_tag(&element("a", vec![("href", "/")])));
    assert!(!has_separate_close_tag(&element("p", vec![])));
    assert!(!has_separate_close_tag(&element("", vec![])));
    let mut p = element("p", vec![]);
    p.children.push(Node::Directive("x".to_string(), vec![]));
    assert!(has_separate_close_tag(&p));
}

#[test]
fn write_str_appends_utf8() {
    let mut out = vec![1u8];
    write_str(&mut out, "\u{e9}x");
    assert_eq!(out, vec![1u8, 0xc3, 0xa9, b'x']);
}

#[test]
fn str_eq_compares_characters() {
    assert!(str_eq("", ""));
    assert!(str_eq("script", "script"));
    assert!(!str_eq("script", "scripT"));
    assert!(!str_eq("a", "ab"));
    assert!(str_eq("\u{e9}", "\u{e9}"));
}

#[test]
fn write_node_writes_one_node() {
    let mut out = Vec::new();
    let node = Node::RawText("x".to_string());
    assert!(write_node(&node, &TemplateContext::empty(), &mut out, &DirectivePrinter {}).is_ok());
    assert_eq!(out, b"x\n");
    let node = Node::Doctype("html".to_string());
    assert!(write_node(&node, &TemplateContext::empty(), &mut out, &DirectivePrinter {}).is_ok());
    assert_eq!(out, b"x\n<!DOCTYPE html>\n");
}

#[test]
fn the_printer_resolves_directives_to_nothing() {
    assert_eq!(render("div\n  = anything at all\n    p\n  | x"), "<div >x</div>");
    // An element whose only child is a directive still has a child.
    assert_eq!(render("div\n  = gone"), "<div ></div>");
}

#[test]
fn rendering_twice_gives_the_same_bytes() {
    let nodes = parse("doctype html\nhtml\n  = head\n  body.x#y a=\"b c\"\n    | text\n    :javascript\n      x\n").unwrap();
    let mut first = Vec::new();
    let mut second = Vec::new();
    let context = TemplateContext::empty();
    let other = TemplateContext { nodes: parse("p").unwrap() };
    assert!(write_out(&nodes, &context, &mut first, &DirectivePrinter {}).is_ok());
    assert!(write_out(&nodes, &other, &mut second, &DirectivePrinter {}).is_ok());
    assert_eq!(first, second);
    assert_eq!(
        String::from_utf8(first).unwrap(),
        "<!DOCTYPE html>\n<html ><body a=\"b c\" class=\"x\" id=\"y\" >text<script type=\"javascript\" >x\n</script></body></html>"
    );
}

#[test]
fn yield_places_the_nested_content_in_the_layout() {
    let site = documents(&[("layout", "html\n  body\n    main.page\n      = yield\n    footer | end")]);
    let (out, ok) = render_with("= include layout\n  h1 Title\n  p Body", &site);
    assert!(ok);
    assert_eq!(
        out,
        "<html ><body ><main class=\"page\" ><h1 >Title</h1><p >Body</p></main><footer >| end</footer></body></html>"
    );
    // The layout alone, with nothing handed to it.
    let (alone, ok) = render_with("= include layout", &site);
    assert!(ok);
    assert_eq!(
        alone,
        "<html ><body ><main class=\"page\" ></main><footer >| end</footer></body></html>"
    );
}

#[test]
fn nested_includes_each_see_their_own_block() {
    let site = documents(&[
        ("outer", "section\n  = yield"),
        ("inner", "em\n  = yield"),
    ]);
    let source = "= include outer\n  | a\n  = include inner\n    | b\n  | c";
    let (out, ok) = render_with(source, &site);
    assert!(ok);
    assert_eq!(out, "<section >a<em >b</em>c</section>");
}

#[test]
fn a_yield_used_twice_writes_the_block_twice() {
    let site = documents(&[("twice", "= yield\nhr\n= yield")]);
    let (out, ok) = render_with("= include twice\n  | x", &site);
    assert!(ok);
    assert_eq!(out, "x<hr />x");
}

#[test]
fn the_doctype_directive_writes_the_declaration() {
    let site = documents(&[]);
    let (out, ok) = render_with("= doctype\nhtml", &site);
    assert!(ok);
    assert_eq!(out, "<!DOCTYPE html><html />");
}

#[test]
fn a_failing_directive_stops_the_rendering() {
    let site = documents(&[]);
    let nodes = parse("div\n  p before\n  = nonsense\n  p after").unwrap();
    let mut out = Vec::new();
    let r = write_out(&nodes, &TemplateContext::empty(), &mut out, &site);
    match r {
        Err(WriteError::DirectiveError(e)) => assert_eq!(e, "unrecognized: nonsense"),
        other => panic!("{:?}", other),
    }
    // What was written before the failure stays.
    assert_eq!(String::from_utf8(out).unwrap(), "<div ><p >before</p>");
}

#[test]
fn an_unknown_document_fails() {
    let site = documents(&[]);
    let (out, ok) = render_with("p\n= include missing", &site);
    assert!(!ok);
    assert_eq!(out, "<p />");
}

#[test]
fn io_errors_convert_into_write_errors() {
    let e: WriteError<String> = std::io::Error::new(std::io::ErrorKind::Other, "full").into();
    assert!(matches!(e, WriteError::IO(_)));
}
