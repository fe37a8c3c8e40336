use templar::grammar::{ClassId, HtmlElement};
use templar::parse::{
    element_for, indentation, join_words, parse, push_child, Builder, ErrorReason, ParseMode,
};
use templar::{clone_node, contains, element, Element, Node, TemplateContext};

fn chars(s: &str) -> Vec<char> {
    s.chars().collect()
}

fn show_node(node: &Node, out: &mut String) {
    match node {
        Node::Doctype(d) => out.push_str(&format!("(doctype {:?})", d)),
        Node::Directive(c, children) => {
            out.push_str(&format!("(= {:?}", c));
            show_nodes(children, out);
            out.push(')');
        }
        Node::Text(t) => out.push_str(&format!("(text {:?})", t)),
        Node::RawText(t) => out.push_str(&format!("(raw {:?})", t)),
        Node::Element(e) => {
            out.push_str(&format!("({}", e.name));
            for (k, v) in &e.attributes {
                out.push_str(&format!(" {}={:?}", k, v));
            }
            show_nodes(&e.children, out);
            out.push(')');
        }
    }
}

fn show_nodes(nodes: &[Node], out: &mut String) {
    for node in nodes {
        out.push(' ');
        show_node(node, out);
    }
}

fn show(source: &str) -> String {
    let nodes = parse(source).unwrap();
    let mut out = String::new();
    show_nodes(&nodes, &mut out);
    out.trim().to_string()
}

fn failure(source: &str) -> (usize, ErrorReason) {
    let e = parse(source).unwrap_err();
    assert_eq!(e.character, None);
    (e.line, e.reason)
}

#[test]
fn empty_document_has_no_nodes() {
    assert!(parse("").unwrap().is_empty());
    assert!(parse("\n").unwrap().is_empty());
    assert!(parse("   \n\t\n\n").unwrap().is_empty());
}

#[test]
fn end_to_end_example() {
    let source = "html\n  head\n    title | Hello\n  body\n    p.greeting#main Welcome\n";
    let nodes = parse(source).unwrap();
    assert_eq!(nodes.len(), 1);
    let html = match &nodes[0] {
        Node::Element(e) => e,
        other => panic!("{:?}", other),
    };
    assert_eq!(html.name, "html");
    assert!(html.attributes.is_empty());
    assert_eq!(html.children.len(), 2);
    let head = match &html.children[0] {
        Node::Element(e) => e,
        other => panic!("{:?}", other),
    };
    assert_eq!(head.name, "head");
    assert_eq!(head.children.len(), 1);
    let title = match &head.children[0] {
        Node::Element(e) => e,
        other => panic!("{:?}", other),
    };
    assert_eq!(title.name, "title");
    assert_eq!(title.children.len(), 1);
    // What follows the tag is the inner text as it stands, the bar included.
    assert!(matches!(&title.children[0], Node::Text(t) if t == "| Hello"));
    let body = match &html.children[1] {
        Node::Element(e) => e,
        other => panic!("{:?}", other),
    };
    assert_eq!(body.name, "body");
    assert_eq!(body.children.len(), 1);
    let p = match &body.children[0] {
        Node::Element(e) => e,
        other => panic!("{:?}", other),
    };
    assert_eq!(p.name, "p");
    assert_eq!(
        p.attributes,
        vec![("class".to_string(), "greeting".to_string()), ("id".to_string(), "main".to_string())]
    );
    assert_eq!(p.children.len(), 1);
    assert!(matches!(&p.children[0], Node::Text(t) if t == "Welcome"));
}

#[test]
fn a_text_line_below_a_tag_is_its_text_child() {
    assert_eq!(show("title\n  | Hello"), "(title (text \"Hello\"))");
}

#[test]
fn children_follow_indentation() {
    assert_eq!(show("a\n b\n  c\n d\ne"), "(a (b (c)) (d)) (e)");
}

#[test]
fn siblings_keep_source_order() {
    assert_eq!(show("ul\n  li one\n  li two\n  li three"),
        "(ul (li (text \"one\")) (li (text \"two\")) (li (text \"three\")))");
    assert_eq!(show("a\nb\nc"), "(a) (b) (c)");
    assert_eq!(show("p\n  | x\n  b\n  | y\n  = z\n  | w"),
        "(p (text \"x\") (b) (text \"y\") (= \"z\") (text \"w\"))");
}

#[test]
fn dedent_closes_two_levels() {
    // `c` lies at depth 4 below `b` at depth 2; `d` at depth 2 closes both `c` and `b`.
    assert_eq!(show("a\n  b\n    c\n  d"), "(a (b (c)) (d))");
    assert_eq!(show("a\n  b\n    c\n      x\n  d"), "(a (b (c (x))) (d))");
    // A line at depth 2 after one at depth 4, with no line at depth 2 before.
    assert_eq!(show("a\n    b\n  c"), "(a (b) (c))");
    assert_eq!(show("a\n  b\n    c\nd"), "(a (b (c))) (d)");
}

#[test]
fn a_line_indented_less_than_every_open_line_becomes_a_root() {
    assert_eq!(show("    a\n  b\nc"), "(a) (b) (c)");
}

#[test]
fn a_line_is_the_child_of_the_nearest_open_line_indented_less() {
    assert_eq!(show("a\n      b\n   c\n    d\n  e"), "(a (b) (c (d)) (e))");
}

#[test]
fn blank_lines_close_nothing() {
    assert_eq!(show("a\n  b\n\n  c\n"), "(a (b) (c))");
    assert_eq!(show("a\n\n\n  b"), "(a (b))");
    assert_eq!(show("a\n  b\n \n    c"), "(a (b (c)))");
}

#[test]
fn text_and_doctype_hold_no_lines() {
    // The deeper line lies below the element, not below the text before it.
    assert_eq!(show("p\n  | one\n    | two"), "(p (text \"one\") (text \"two\"))");
    assert_eq!(show("| one\n  | two"), "(text \"one\") (text \"two\")");
    assert_eq!(show("doctype html\n  p"), "(doctype \"html\") (p)");
}

#[test]
fn inner_text_is_the_first_child() {
    assert_eq!(show("p Hello\n  b bold\n  | tail"),
        "(p (text \"Hello\") (b (text \"bold\")) (text \"tail\"))");
}

#[test]
fn lines_below_a_directive_are_its_children() {
    assert_eq!(show("= include layout\n  h1 Title\n  p Body\nfooter"),
        "(= \"include layout\" (h1 (text \"Title\")) (p (text \"Body\"))) (footer)");
    assert_eq!(show("div\n  = yield\np"), "(div (= \"yield\")) (p)");
    assert_eq!(show("= a\n  = b\n    | c"), "(= \"a\" (= \"b\" (text \"c\")))");
}

#[test]
fn class_and_id_only_lines_are_divs() {
    assert_eq!(show(".box#one"), "(div class=\"box\" id=\"one\")");
    assert_eq!(show("#one"), "(div id=\"one\")");
}

#[test]
fn classes_are_joined_and_come_before_the_id() {
    assert_eq!(show("p#x.a.b.c"), "(p class=\"a b c\" id=\"x\")");
    assert_eq!(show("p.a#x.b"), "(p class=\"a b\" id=\"x\")");
    assert_eq!(show("a.link href=/ go"), "(a href=\"/\" class=\"link\" (text \"go\"))");
    assert_eq!(show("p class=x .y"), "(p class=\"x\" (text \".y\"))");
}

#[test]
fn two_ids_are_refused() {
    assert_eq!(failure("p#a#b"), (0, ErrorReason::MultipleIds));
    assert_eq!(failure("html\n  body\n    #a.x#b text"), (2, ErrorReason::MultipleIds));
    assert_eq!(failure("p\n\n  p#a.b#c#d\n= never"), (2, ErrorReason::MultipleIds));
}

#[test]
fn doctype_below_an_open_node_is_refused() {
    assert_eq!(failure("html\n  doctype html"), (1, ErrorReason::MisplacedDocType));
    assert_eq!(failure("a\n  b\n    c\n  doctype x"), (3, ErrorReason::MisplacedDocType));
    assert_eq!(failure("= layout\n  doctype html"), (1, ErrorReason::MisplacedDocType));
}

#[test]
fn doctype_at_the_root_is_kept() {
    assert_eq!(show("doctype html\nhtml"), "(doctype \"html\") (html)");
    assert_eq!(show("html\n  body\ndoctype late"), "(html (body)) (doctype \"late\")");
    assert_eq!(show("  html\ndoctype html"), "(html) (doctype \"html\")");
}

#[test]
fn lines_outside_the_language_are_refused() {
    assert_eq!(failure("!"), (0, ErrorReason::Parse));
    assert_eq!(failure("p\n  <b>"), (1, ErrorReason::Parse));
    assert_eq!(failure("p\n\n\n  ?\n#a#b"), (3, ErrorReason::Parse));
}

#[test]
fn the_first_failure_is_reported() {
    assert_eq!(failure("p#a#b\n!"), (0, ErrorReason::MultipleIds));
    assert_eq!(failure("!\np#a#b"), (0, ErrorReason::Parse));
    assert_eq!(failure("a\n doctype x\n!"), (1, ErrorReason::MisplacedDocType));
}

#[test]
fn raw_text_block_captures_deeper_lines() {
    assert_eq!(
        show("div\n  :javascript\n    var x = 1;\n      if (x) { y(); }\n    p#a#b\n  p"),
        "(div (script type=\"javascript\" (raw \"var x = 1;\") (raw \"if (x) { y(); }\") (raw \"p#a#b\")) (p))"
    );
}

#[test]
fn raw_text_keeps_what_follows_the_indentation() {
    assert_eq!(show(":javascript\n  a  b  \n  | c"),
        "(script type=\"javascript\" (raw \"a  b  \") (raw \"| c\"))");
}

#[test]
fn raw_text_block_ends_at_a_dedent() {
    assert_eq!(show(":javascript\n  x\n:javascript\n  y\np"),
        "(script type=\"javascript\" (raw \"x\")) (script type=\"javascript\" (raw \"y\")) (p)");
    assert_eq!(failure(":javascript\n  <ok>\n<bad>"), (2, ErrorReason::Parse));
}

#[test]
fn blank_lines_in_a_raw_text_block_are_dropped() {
    assert_eq!(show(":javascript\n  a\n\n  b"), "(script type=\"javascript\" (raw \"a\") (raw \"b\"))");
}

#[test]
fn carriage_returns_before_line_feeds_are_dropped() {
    assert_eq!(show("a\r\n  b\r\n"), "(a (b))");
}

#[test]
fn indentation_counts_white_space() {
    assert_eq!(indentation(&chars("p")), Some(0));
    assert_eq!(indentation(&chars("   p ")), Some(3));
    assert_eq!(indentation(&chars("\t p")), Some(2));
    assert_eq!(indentation(&chars("\u{a0}\u{a0}p")), Some(2));
    assert_eq!(indentation(&chars("    ")), None);
    assert_eq!(indentation(&chars("")), None);
}

#[test]
fn words_are_joined_with_one_space() {
    assert_eq!(join_words(&vec![]), "");
    assert_eq!(join_words(&vec!["a".to_string()]), "a");
    assert_eq!(join_words(&vec!["a".to_string(), "b".to_string(), "c".to_string()]), "a b c");
    assert_eq!(join_words(&vec!["".to_string(), "".to_string()]), " ");
}

#[test]
fn element_for_folds_the_tokens() {
    let line = HtmlElement {
        tag: None,
        classes_ids: vec![
            ClassId::Class("a".to_string()),
            ClassId::Id("i".to_string()),
            ClassId::Class("b".to_string()),
        ],
        attributes: vec![("k".to_string(), "v".to_string())],
        inner_text: Some("t".to_string()),
    };
    let e = element_for(line).unwrap();
    assert_eq!(e.name, "div");
    assert_eq!(
        e.attributes,
        vec![
            ("k".to_string(), "v".to_string()),
            ("class".to_string(), "a b".to_string()),
            ("id".to_string(), "i".to_string()),
        ]
    );
    assert_eq!(e.children.len(), 1);
    assert!(matches!(&e.children[0], Node::Text(t) if t == "t"));
}

#[test]
fn element_for_refuses_a_second_id() {
    let line = HtmlElement {
        tag: Some("p".to_string()),
        classes_ids: vec![ClassId::Id("a".to_string()), ClassId::Id("b".to_string())],
        attributes: vec![],
        inner_text: None,
    };
    assert_eq!(element_for(line).unwrap_err(), ErrorReason::MultipleIds);
}

#[test]
fn element_for_without_tokens() {
    let line = HtmlElement {
        tag: Some("p".to_string()),
        classes_ids: vec![],
        attributes: vec![],
        inner_text: None,
    };
    let e = element_for(line).unwrap();
    assert_eq!(e.name, "p");
    assert!(e.attributes.is_empty());
    assert!(e.children.is_empty());
}

#[test]
fn push_child_appends_to_elements_and_directives() {
    let parent = Node::Element(element("p", vec![]));
    let parent = push_child(parent, Node::Text("a".to_string()));
    let parent = push_child(parent, Node::Text("b".to_string()));
    match &parent {
        Node::Element(e) => {
            assert_eq!(e.children.len(), 2);
            assert!(matches!(&e.children[1], Node::Text(t) if t == "b"));
        }
        other => panic!("{:?}", other),
    }
    let d = push_child(Node::Directive("x".to_string(), vec![]), Node::Text("a".to_string()));
    assert!(matches!(&d, Node::Directive(_, children) if children.len() == 1));
    let t = push_child(Node::Text("x".to_string()), Node::Text("a".to_string()));
    assert!(matches!(&t, Node::Text(x) if x == "x"));
}

#[test]
fn builder_takes_lines_one_by_one() {
    let mut builder = Builder::new();
    assert!(builder.stack.is_empty());
    assert!(builder.feed(0, &chars("a")).is_ok());
    assert!(builder.feed(1, &chars("  b")).is_ok());
    assert!(builder.feed(2, &chars("    c")).is_ok());
    assert_eq!(builder.stack.len(), 3);
    assert_eq!(builder.stack[2].depth, 4);
    assert!(builder.feed(3, &chars("")).is_ok());
    assert_eq!(builder.stack.len(), 3);
    assert!(builder.feed(4, &chars("  d")).is_ok());
    assert_eq!(builder.stack.len(), 2);
    assert_eq!(builder.mode, ParseMode::Normal);
    let e = builder.feed(5, &chars("  ?")).unwrap_err();
    assert_eq!((e.line, e.reason), (5, ErrorReason::Parse));
    let roots = builder.finish();
    assert_eq!(roots.len(), 1);
}

#[test]
fn builder_switches_to_raw_text_and_back() {
    let mut builder = Builder::new();
    assert!(builder.feed(0, &chars(":javascript")).is_ok());
    assert_eq!(builder.mode, ParseMode::InlineJavascript);
    assert!(builder.feed(1, &chars("  x")).is_ok());
    assert_eq!(builder.mode, ParseMode::InlineJavascript);
    assert!(builder.feed(2, &chars("p")).is_ok());
    assert_eq!(builder.mode, ParseMode::Normal);
    assert_eq!(builder.finish().len(), 2);
}

#[test]
fn raw_text_with_no_open_node_is_refused() {
    let mut builder = Builder { roots: vec![], stack: vec![], mode: ParseMode::InlineJavascript };
    let e = builder.feed(7, &chars("x")).unwrap_err();
    assert_eq!((e.line, e.reason), (7, ErrorReason::Parse));
}

#[test]
fn close_to_closes_what_is_indented_as_far() {
    let mut builder = Builder::new();
    for (i, line) in ["a", " b", "  c", "   d"].iter().enumerate() {
        builder.feed(i, &chars(line)).unwrap();
    }
    builder.close_to(2);
    assert_eq!(builder.stack.len(), 2);
    builder.close_to(2);
    assert_eq!(builder.stack.len(), 2);
    builder.close_to(0);
    assert!(builder.stack.is_empty());
    assert_eq!(builder.roots.len(), 1);
}

#[test]
fn element_builder_copies_name_and_attributes() {
    let e: Element = element("script", vec![("type", "javascript"), ("defer", "")]);
    assert_eq!(e.name, "script");
    assert_eq!(
        e.attributes,
        vec![("type".to_string(), "javascript".to_string()), ("defer".to_string(), "".to_string())]
    );
    assert!(e.children.is_empty());
}

#[test]
fn contains_tests_the_value_if_there_is_one() {
    assert!(contains(Some(3), |n: &i32| *n > 2));
    assert!(!contains(Some(1), |n: &i32| *n > 2));
    assert!(!contains(None, |n: &i32| *n > 2));
    let stack = vec![(1usize, 'a'), (4, 'b')];
    assert!(contains(stack.last(), |&&(n, _)| n >= 4));
    assert!(!contains(stack.last(), |&&(n, _)| n >= 5));
}

#[test]
fn clones_are_deep() {
    let nodes = parse("a x=1\n  b\n    | t\n  = d\n    c").unwrap();
    let copy = clone_node(&nodes[0]);
    assert_eq!(format!("{:?}", copy), format!("{:?}", nodes[0]));
    let copy = nodes[0].clone();
    assert_eq!(format!("{:?}", copy), format!("{:?}", nodes[0]));
    let context = TemplateContext { nodes };
    assert_eq!(format!("{:?}", context.clone()), format!("{:?}", context));
    assert!(TemplateContext::empty().nodes.is_empty());
}
