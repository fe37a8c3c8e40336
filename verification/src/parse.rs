//! The builder that turns indented lines into a forest of nodes.
//!
//! The builder keeps a stack of open nodes, each with the indentation of the
//! line that opened it. A line first closes every open node that is indented at
//! least as far as the line itself; what the line says is then attached to the
//! innermost node that is still open, or to the roots where none is.
use vstd::prelude::*;
use crate::grammar::{
    line_grammar, line_p, ClassId, ClassIdView, HtmlElement, HtmlElementView, LineContent,
    LineView,
};
use crate::nesting::{lemma_parsed_is_meaning, meaning};
use crate::text::{chars_of, lines_of, run_end, scan, split_lines, string_of, CharClass};
use crate::{forest_view, Element, ElementView, Node, NodeView};

verus! {

/// Why a document was refused.
#[derive(Debug, Clone, Copy, PartialEq, Eq, Structural)]
pub enum ErrorReason {
    /// A doctype line below an open node.
    MisplacedDocType,
    /// More than one `#id` token on one element line.
    MultipleIds,
    /// A line that is not in the language.
    Parse,
}

/// The first failure of a parse, with the zero-based index of its line.
#[derive(Debug)]
pub struct ParseError {
    pub line: usize,
    pub character: Option<u64>,
    pub reason: ErrorReason,
}

pub type ParseResult = Result<Vec<Node>, ParseError>;

/// How the lines under the innermost open node are read.
#[derive(Debug, Clone, Copy, PartialEq, Eq, Structural)]
pub enum ParseMode {
    /// By the grammar.
    Normal,
    /// Verbatim, as the body of a raw-text block.
    InlineJavascript,
}

/// A node that is still open, with the indentation of its line.
#[derive(Debug)]
pub struct Frame {
    pub node: Node,
    pub depth: usize,
}

/// The state of a parse between two lines.
#[derive(Debug)]
pub struct Builder {
    pub roots: Vec<Node>,
    pub stack: Vec<Frame>,
    pub mode: ParseMode,
}

/// What a `Frame` is.
pub struct FrameView {
    pub node: NodeView,
    pub depth: int,
}

/// What a `Builder` is.
pub struct BuilderView {
    pub roots: Seq<NodeView>,
    pub stack: Seq<FrameView>,
    pub mode: ParseMode,
}

impl View for Frame {
    type V = FrameView;

    open spec fn view(&self) -> FrameView {
        FrameView { node: self.node@, depth: self.depth as int }
    }
}

/// The frames as their models, from the outermost to the innermost.
pub open spec fn stack_view(stack: Seq<Frame>) -> Seq<FrameView> {
    Seq::new(stack.len(), |i: int| stack[i]@)
}

impl View for Builder {
    type V = BuilderView;

    open spec fn view(&self) -> BuilderView {
        BuilderView {
            roots: forest_view(self.roots@),
            stack: stack_view(self.stack@),
            mode: self.mode,
        }
    }
}

/// The names of the `#id` tokens, in order.
pub open spec fn ids_of(tokens: Seq<ClassIdView>) -> Seq<Seq<char>>
    decreases tokens.len(),
{
    if tokens.len() == 0 {
        Seq::empty()
    } else {
        match tokens.last() {
            ClassIdView::Id(name) => ids_of(tokens.drop_last()).push(name),
            ClassIdView::Class(_) => ids_of(tokens.drop_last()),
        }
    }
}

/// The names of the `.class` tokens, in order.
pub open spec fn classes_of(tokens: Seq<ClassIdView>) -> Seq<Seq<char>>
    decreases tokens.len(),
{
    if tokens.len() == 0 {
        Seq::empty()
    } else {
        match tokens.last() {
            ClassIdView::Class(name) => classes_of(tokens.drop_last()).push(name),
            ClassIdView::Id(_) => classes_of(tokens.drop_last()),
        }
    }
}

/// The words with one space between each two.
pub open spec fn joined(words: Seq<Seq<char>>) -> Seq<char>
    decreases words.len(),
{
    if words.len() == 0 {
        Seq::empty()
    } else if words.len() == 1 {
        words[0]
    } else {
        joined(words.drop_last()) + seq![' '] + words.last()
    }
}

/// The attributes that the `#id` and `.class` tokens stand for: one `class`
/// attribute that holds all the classes, then one `id` attribute.
pub open spec fn token_attributes(tokens: Seq<ClassIdView>) -> Seq<(Seq<char>, Seq<char>)> {
    let class = if classes_of(tokens).len() > 0 {
        seq![("class"@, joined(classes_of(tokens)))]
    } else {
        Seq::empty()
    };
    let id = if ids_of(tokens).len() > 0 {
        seq![("id"@, ids_of(tokens)[0])]
    } else {
        Seq::empty()
    };
    class + id
}

/// The element that an element line stands for. Its attributes are those
/// written as `key=value`, then those of the tokens; its inner text, if any, is
/// its first child. A line with more than one `#id` token stands for none.
pub open spec fn folded(line: HtmlElementView) -> Result<ElementView, ErrorReason> {
    if ids_of(line.classes_ids).len() > 1 {
        Err(ErrorReason::MultipleIds)
    } else {
        Ok(
            ElementView {
                name: match line.tag {
                    Some(tag) => tag,
                    None => "div"@,
                },
                attributes: line.attributes + token_attributes(line.classes_ids),
                children: match line.inner_text {
                    Some(text) => seq![NodeView::Text(text)],
                    None => Seq::empty(),
                },
            },
        )
    }
}

/// The element that holds a raw-text block.
pub open spec fn script_element() -> ElementView {
    ElementView {
        name: "script"@,
        attributes: seq![("type"@, "javascript"@)],
        children: Seq::empty(),
    }
}

/// What a line does once it has closed what it closes.
pub enum Step {
    /// It adds a node that holds no lines.
    Leaf(NodeView),
    /// It opens a node, and says how the lines below that node are read.
    Open(NodeView, ParseMode),
    /// It fails the document.
    Fail(ErrorReason),
}

/// The indentation of a line: the number of white-space characters it begins with.
pub open spec fn indent_of(line: Seq<char>) -> int {
    run_end(line, 0, CharClass::Whitespace)
}

/// Whether a line holds nothing but white space.
pub open spec fn is_blank(line: Seq<char>) -> bool {
    !(0 <= indent_of(line) < line.len())
}

/// What a line does, its indentation taken off. `raw` says whether the line
/// lies in a raw-text block, `below` whether it lies below an open node. In a
/// raw-text block the line is taken as it stands; raw text below no node is
/// refused. Elsewhere the grammar reads the line.
pub open spec fn line_step(raw: bool, below: bool, rest: Seq<char>) -> Step {
    if raw {
        if below {
            Step::Leaf(NodeView::RawText(rest))
        } else {
            Step::Fail(ErrorReason::Parse)
        }
    } else {
        match line_grammar(rest) {
            None => Step::Fail(ErrorReason::Parse),
            Some(LineView::Javascript) => Step::Open(
                NodeView::Element(script_element()),
                ParseMode::InlineJavascript,
            ),
            Some(LineView::Doctype(doctype)) => if below {
                Step::Fail(ErrorReason::MisplacedDocType)
            } else {
                Step::Leaf(NodeView::Doctype(doctype))
            },
            Some(LineView::Element(line)) => match folded(line) {
                Err(reason) => Step::Fail(reason),
                Ok(e) => Step::Open(NodeView::Element(e), ParseMode::Normal),
            },
            Some(LineView::Directive(command)) => Step::Open(
                NodeView::Directive(command, Seq::empty()),
                ParseMode::Normal,
            ),
            Some(LineView::Text(text)) => Step::Leaf(NodeView::Text(text)),
        }
    }
}

/// Whether lines can be nested under a node.
pub open spec fn can_hold(node: NodeView) -> bool {
    node is Element || node is Directive
}

/// `node` with `child` as its new last child.
pub open spec fn with_child(node: NodeView, child: NodeView) -> NodeView {
    match node {
        NodeView::Element(e) => NodeView::Element(
            ElementView { name: e.name, attributes: e.attributes, children: e.children.push(child) },
        ),
        NodeView::Directive(command, children) => NodeView::Directive(
            command,
            children.push(child),
        ),
        _ => node,
    }
}

impl BuilderView {
    /// The state before the first line.
    pub open spec fn initial() -> BuilderView {
        BuilderView { roots: Seq::empty(), stack: Seq::empty(), mode: ParseMode::Normal }
    }

    /// Every open node can hold children and lies deeper than the one that
    /// encloses it, and raw text is only read below an open node.
    pub open spec fn wf(self) -> bool {
        &&& forall|i: int| 0 <= i < self.stack.len() ==> can_hold((#[trigger] self.stack[i]).node)
        &&& forall|i: int| 0 <= i < self.stack.len() ==> 0 <= (#[trigger] self.stack[i]).depth
        &&& forall|i: int, j: int|
            0 <= i < j < self.stack.len() ==> (#[trigger] self.stack[i]).depth < (
            #[trigger] self.stack[j]).depth
        &&& self.mode == ParseMode::InlineJavascript ==> self.stack.len() > 0
    }

    /// `node` as the new last child of the innermost open node, or as the new
    /// last root where no node is open.
    pub open spec fn attach(self, node: NodeView) -> BuilderView {
        if self.stack.len() == 0 {
            BuilderView { roots: self.roots.push(node), stack: self.stack, mode: self.mode }
        } else {
            let top = self.stack.last();
            BuilderView {
                roots: self.roots,
                stack: self.stack.drop_last().push(
                    FrameView { node: with_child(top.node, node), depth: top.depth },
                ),
                mode: self.mode,
            }
        }
    }

    /// The innermost open node closed: it becomes a child of the node that
    /// encloses it, or a root. A raw-text block ends with it.
    pub open spec fn close_top(self) -> BuilderView {
        BuilderView {
            roots: self.roots,
            stack: self.stack.drop_last(),
            mode: ParseMode::Normal,
        }.attach(self.stack.last().node)
    }

    /// Every open node closed that is indented at least as far as `depth`.
    pub open spec fn close_to(self, depth: int) -> BuilderView
        decreases self.stack.len(),
    {
        if self.stack.len() > 0 && self.stack.last().depth >= depth {
            self.close_top().close_to(depth)
        } else {
            self
        }
    }

    /// `node` as the new innermost open node.
    pub open spec fn open(self, node: NodeView, depth: int, mode: ParseMode) -> BuilderView {
        BuilderView {
            roots: self.roots,
            stack: self.stack.push(FrameView { node, depth }),
            mode,
        }
    }

    /// What a line does to the state that is left once the line has closed
    /// what it closes. `rest` is the line without its indentation.
    pub open spec fn step(self, rest: Seq<char>) -> Step {
        line_step(self.mode == ParseMode::InlineJavascript, self.stack.len() > 0, rest)
    }

    /// The state after one more line, or the failure that the line is. A blank
    /// line changes nothing. Any other line closes every open node that is
    /// indented at least as far as itself, and then takes its step.
    pub open spec fn feed(self, index: int, line: Seq<char>) -> Result<BuilderView, ParseError> {
        let indent = indent_of(line);
        if is_blank(line) {
            Ok(self)
        } else {
            let closed = self.close_to(indent);
            match closed.step(line.skip(indent)) {
                Step::Leaf(node) => Ok(closed.attach(node)),
                Step::Open(node, mode) => Ok(closed.open(node, indent, mode)),
                Step::Fail(reason) => Err(failure(index, reason)),
            }
        }
    }

    /// The roots once every open node is closed.
    pub open spec fn finish(self) -> Seq<NodeView> {
        self.close_to(0).roots
    }
}

/// The failure of the line with the given index.
pub open spec fn failure(index: int, reason: ErrorReason) -> ParseError {
    ParseError { line: index as usize, character: None, reason }
}

/// The state after the first `upto` lines, or the first failure among them.
pub open spec fn fed(lines: Seq<Seq<char>>, upto: int) -> Result<BuilderView, ParseError>
    decreases upto,
{
    if upto <= 0 {
        Ok(BuilderView::initial())
    } else {
        match fed(lines, upto - 1) {
            Ok(state) => state.feed(upto - 1, lines[upto - 1]),
            Err(e) => Err(e),
        }
    }
}

/// The forest that the lines stand for, or the first failure among them.
pub open spec fn built(lines: Seq<Seq<char>>) -> Result<Seq<NodeView>, ParseError> {
    match fed(lines, lines.len() as int) {
        Ok(state) => Ok(state.finish()),
        Err(e) => Err(e),
    }
}

/// The forest that a text stands for, or its first failure.
pub open spec fn parsed(text: Seq<char>) -> Result<Seq<NodeView>, ParseError> {
    built(lines_of(text))
}

/// A failure stays the result, however many lines follow.
pub proof fn lemma_failure_is_final(lines: Seq<Seq<char>>, at: int, upto: int)
    requires
        0 <= at <= upto,
        fed(lines, at) is Err,
    ensures
        fed(lines, upto) == fed(lines, at),
    decreases upto - at,
{
    if at < upto {
        lemma_failure_is_final(lines, at, upto - 1);
    }
}

/// Closing keeps a state well formed, and leaves no open node that is indented
/// at least as far as `depth`.
pub proof fn lemma_close_to(state: BuilderView, depth: int)
    requires
        state.wf(),
    ensures
        state.close_to(depth).wf(),
        state.close_to(depth).stack.len() <= state.stack.len(),
        state.close_to(depth).stack.len() > 0 ==> state.close_to(depth).stack.last().depth < depth,
        state.close_to(depth).stack.len() == state.stack.len() ==> state.close_to(depth) == state,
        state.close_to(depth).stack.len() < state.stack.len() ==> state.close_to(depth).mode
            == ParseMode::Normal,
    decreases state.stack.len(),
{
    if state.stack.len() > 0 && state.stack.last().depth >= depth {
        let next = state.close_top();
        assert(next.wf()) by {
            let popped = state.stack.drop_last();
            if popped.len() > 0 {
                assert(can_hold(popped.last().node));
                assert(can_hold(with_child(popped.last().node, state.stack.last().node)));
                assert(forall|i: int| 0 <= i < next.stack.len() - 1 ==> next.stack[i] == state.stack[i]);
            }
        }
        lemma_close_to(next, depth);
    }
}

/// A line keeps a state well formed.
pub proof fn lemma_feed_wf(state: BuilderView, index: int, line: Seq<char>)
    requires
        state.wf(),
    ensures
        match state.feed(index, line) {
            Ok(next) => next.wf(),
            Err(e) => e.line == index as usize && e.character is None,
        },
{
    let indent = run_end(line, 0, CharClass::Whitespace);
    if 0 <= indent < line.len() {
        lemma_close_to(state, indent);
        let closed = state.close_to(indent);
        if closed.mode == ParseMode::InlineJavascript {
            let next = closed.attach(NodeView::RawText(line.skip(indent)));
            assert(forall|i: int| 0 <= i < next.stack.len() - 1 ==> next.stack[i] == closed.stack[i]);
        } else {
            match state.feed(index, line) {
                Ok(next) => {
                    if next.stack.len() == closed.stack.len() && closed.stack.len() > 0 {
                        assert(forall|i: int|
                            0 <= i < next.stack.len() - 1 ==> next.stack[i] == closed.stack[i]);
                    } else if next.stack.len() > closed.stack.len() {
                        assert(forall|i: int|
                            0 <= i < next.stack.len() - 1 ==> next.stack[i] == closed.stack[i]);
                    }
                },
                Err(e) => {},
            }
        }
    }
}

/// The first `upto` lines leave a well-formed state.
pub proof fn lemma_fed_wf(lines: Seq<Seq<char>>, upto: int)
    ensures
        fed(lines, upto) is Ok ==> fed(lines, upto)->Ok_0.wf(),
    decreases upto,
{
    if upto > 0 {
        lemma_fed_wf(lines, upto - 1);
        match fed(lines, upto - 1) {
            Ok(state) => lemma_feed_wf(state, upto - 1, lines[upto - 1]),
            Err(e) => {},
        }
    }
}

/// A sequence of nodes with one more node has the models of both.
pub proof fn lemma_forest_push(nodes: Seq<Node>, node: Node)
    ensures
        forest_view(nodes.push(node)) == forest_view(nodes).push(node@),
{
    assert(forest_view(nodes.push(node)) =~= forest_view(nodes).push(node@));
}

/// Puts `child` below `node` as its new last child.
pub fn push_child(node: Node, child: Node) -> (r: Node)
    ensures
        r@ == with_child(node@, child@),
{
    match node {
        Node::Element(e) => {
            let Element { name, attributes, mut children } = e;
            proof {
                crate::lemma_nodes_view(children);
                lemma_forest_push(children@, child);
            }
            children.push(child);
            proof {
                crate::lemma_nodes_view(children);
            }
            Node::Element(Element { name, attributes, children })
        },
        Node::Directive(command, mut children) => {
            proof {
                crate::lemma_nodes_view(children);
                lemma_forest_push(children@, child);
            }
            children.push(child);
            proof {
                crate::lemma_nodes_view(children);
            }
            Node::Directive(command, children)
        },
        other => other,
    }
}

/// The offset of the first character of `line` that is not white space;
/// `None` for a blank line.
pub fn indentation(line: &[char]) -> (r: Option<usize>)
    ensures
        match r {
            Some(indent) => indent == run_end(line@, 0, CharClass::Whitespace) && indent
                < line@.len(),
            None => run_end(line@, 0, CharClass::Whitespace) == line@.len(),
        },
{
    let indent = scan(line, 0, CharClass::Whitespace);
    if indent < line.len() {
        Some(indent)
    } else {
        None
    }
}

/// Joins the words with one space between each two.
pub fn join_words(words: &Vec<String>) -> (r: String)
    ensures
        r@ == joined(Seq::new(words@.len(), |i: int| words@[i]@)),
{
    let ghost all = Seq::new(words@.len(), |i: int| words@[i]@);
    let mut r = String::new();
    let mut i: usize = 0;
    while i < words.len()
        invariant
            i <= words@.len(),
            all == Seq::new(words@.len(), |i: int| words@[i]@),
            r@ == joined(all.take(i as int)),
        decreases words@.len() - i,
    {
        proof {
            let upto = all.take(i + 1);
            assert(upto.drop_last() =~= all.take(i as int));
            assert(upto.last() == words@[i as int]@);
            reveal_strlit(" ");
            assert(" "@ =~= seq![' ']);
            if i == 0 {
                assert(all.take(0).len() == 0);
                assert(r@ + words@[0]@ =~= words@[0]@);
            }
        }
        if i > 0 {
            r.append(" ");
        }
        r.append(words[i].as_str());
        i += 1;
    }
    assert(all.take(words@.len() as int) =~= all);
    r
}

/// Folds the tokens of an element line into its attributes and makes the element.
pub fn element_for(html_element: HtmlElement) -> (r: Result<Element, ErrorReason>)
    ensures
        match r {
            Ok(e) => folded(html_element@) == Ok::<ElementView, ErrorReason>(e@),
            Err(reason) => folded(html_element@) == Err::<ElementView, ErrorReason>(reason),
        },
{
    let HtmlElement { tag, classes_ids, attributes, inner_text } = html_element;
    let ghost tokens = crate::grammar::class_ids_view(classes_ids@);
    let mut attributes = attributes;
    let ghost written = crate::pairs_view(attributes@);
    let mut id: Option<String> = None;
    let mut classes: Vec<String> = Vec::new();
    let mut i: usize = 0;
    while i < classes_ids.len()
        invariant
            i <= classes_ids@.len(),
            tokens == crate::grammar::class_ids_view(classes_ids@),
            tokens == html_element@.classes_ids,
            Seq::new(classes@.len(), |k: int| classes@[k]@) == classes_of(tokens.take(i as int)),
            ids_of(tokens.take(i as int)).len() <= 1,
            id is Some <==> ids_of(tokens.take(i as int)).len() == 1,
            id is Some ==> id->0@ == ids_of(tokens.take(i as int))[0],
        decreases classes_ids@.len() - i,
    {
        proof {
            let upto = tokens.take(i + 1);
            assert(upto.drop_last() =~= tokens.take(i as int));
            assert(upto.last() == classes_ids@[i as int]@);
        }
        match &classes_ids[i] {
            ClassId::Id(name) => {
                if id.is_some() {
                    proof {
                        assert(tokens.take(i + 1).last() == ClassIdView::Id(name@));
                        assert(ids_of(tokens.take(i + 1)) == ids_of(tokens.take(i as int)).push(
                            name@,
                        ));
                        lemma_ids_grow(tokens, i + 1);
                    }
                    return Err(ErrorReason::MultipleIds);
                }
                id = Some(name.clone());
            },
            ClassId::Class(name) => {
                let ghost before = Seq::new(classes@.len(), |k: int| classes@[k]@);
                classes.push(name.clone());
                assert(Seq::new(classes@.len(), |k: int| classes@[k]@) =~= before.push(name@));
            },
        }
        i += 1;
    }
    proof {
        assert(tokens.take(classes_ids@.len() as int) =~= tokens);
        reveal_strlit("class");
        reveal_strlit("id");
    }
    if classes.len() > 0 {
        let ghost before = crate::pairs_view(attributes@);
        let all = join_words(&classes);
        attributes.push(("class".to_owned(), all));
        assert(crate::pairs_view(attributes@) =~= before.push(("class"@, joined(classes_of(tokens)))));
    }
    if let Some(name) = id {
        let ghost before = crate::pairs_view(attributes@);
        attributes.push(("id".to_owned(), name));
        assert(crate::pairs_view(attributes@) =~= before.push(("id"@, ids_of(tokens)[0])));
    }
    assert(crate::pairs_view(attributes@) =~= written + token_attributes(tokens));
    let name = match tag {
        Some(tag) => tag,
        None => "div".to_owned(),
    };
    let mut children: Vec<Node> = Vec::new();
    if let Some(text) = inner_text {
        children.push(Node::Text(text));
    }
    let e = Element { name, attributes, children };
    assert(e@.children =~= folded(html_element@)->Ok_0.children);
    Ok(e)
}

/// The `#id` tokens of a part of a line are among those of the whole line.
pub proof fn lemma_ids_grow(tokens: Seq<ClassIdView>, upto: int)
    requires
        0 <= upto <= tokens.len(),
    ensures
        ids_of(tokens.take(upto)).len() <= ids_of(tokens).len(),
    decreases tokens.len() - upto,
{
    if upto < tokens.len() {
        let next = tokens.take(upto + 1);
        assert(next.drop_last() =~= tokens.take(upto));
        lemma_ids_grow(tokens, upto + 1);
    } else {
        assert(tokens.take(upto) =~= tokens);
    }
}

impl Builder {
    /// The builder before the first line.
    pub fn new() -> (builder: Builder)
        ensures
            builder@ == BuilderView::initial(),
    {
        let builder = Builder { roots: Vec::new(), stack: Vec::new(), mode: ParseMode::Normal };
        assert(builder@.roots =~= Seq::<NodeView>::empty());
        assert(builder@.stack =~= Seq::<FrameView>::empty());
        builder
    }

    /// Attaches `node` to the innermost open node, or to the roots.
    pub fn attach(&mut self, node: Node)
        ensures
            final(self)@ == old(self)@.attach(node@),
    {
        match self.stack.pop() {
            Some(top) => {
                let Frame { node: parent, depth } = top;
                self.stack.push(Frame { node: push_child(parent, node), depth });
                assert(stack_view(self.stack@) =~= old(self)@.attach(node@).stack);
            },
            None => {
                proof {
                    lemma_forest_push(self.roots@, node);
                }
                self.roots.push(node);
                assert(stack_view(self.stack@) =~= old(self)@.stack);
            },
        }
    }

    /// Closes every open node that is indented at least as far as `depth`.
    pub fn close_to(&mut self, depth: usize)
        ensures
            final(self)@ == old(self)@.close_to(depth as int),
    {
        loop
            invariant
                self@.close_to(depth as int) == old(self)@.close_to(depth as int),
            ensures
                self@ == old(self)@.close_to(depth as int),
            decreases self.stack@.len(),
        {
            let n = self.stack.len();
            if n == 0 || self.stack[n - 1].depth < depth {
                break ;
            }
            let ghost before = self@;
            let top = self.stack.pop();
            self.mode = ParseMode::Normal;
            match top {
                Some(frame) => {
                    assert(stack_view(self.stack@) =~= before.stack.drop_last());
                    assert(frame@ == before.stack.last());
                    self.attach(frame.node);
                    assert(self@ == before.close_top());
                },
                None => {},
            }
        }
    }

    /// Opens `node` at the given indentation.
    pub fn open(&mut self, node: Node, depth: usize, mode: ParseMode)
        ensures
            final(self)@ == old(self)@.open(node@, depth as int, mode),
    {
        self.stack.push(Frame { node, depth });
        self.mode = mode;
        assert(stack_view(self.stack@) =~= old(self)@.stack.push(
            FrameView { node: node@, depth: depth as int },
        ));
    }

    /// Takes in the line with the given index.
    pub fn feed(&mut self, index: usize, line: &[char]) -> (r: Result<(), ParseError>)
        ensures
            match r {
                Ok(()) => old(self)@.feed(index as int, line@) == Ok::<BuilderView, ParseError>(
                    final(self)@,
                ),
                Err(e) => old(self)@.feed(index as int, line@) == Err::<BuilderView, ParseError>(e),
            },
    {
        let indent = match indentation(line) {
            Some(indent) => indent,
            None => {
                return Ok(());
            },
        };
        self.close_to(indent);
        assert(line@.skip(indent as int) =~= line@.subrange(indent as int, line@.len() as int));
        if self.mode == ParseMode::InlineJavascript {
            if self.stack.len() == 0 {
                return Err(ParseError { line: index, character: None, reason: ErrorReason::Parse });
            }
            let text = string_of(line, indent, line.len());
            self.attach(Node::RawText(text));
            return Ok(());
        }
        let rest = vstd::slice::slice_subrange(line, indent, line.len());
        match line_p(rest) {
            None => Err(ParseError { line: index, character: None, reason: ErrorReason::Parse }),
            Some(LineContent::Javascript) => {
                let mut attributes: Vec<(&str, &str)> = Vec::new();
                attributes.push(("type", "javascript"));
                let script = crate::element("script", attributes);
                assert(script@.attributes =~= script_element().attributes);
                proof {
                    crate::lemma_nodes_view(script.children);
                }
                self.open(Node::Element(script), indent, ParseMode::InlineJavascript);
                Ok(())
            },
            Some(LineContent::Doctype(doctype)) => {
                if self.stack.len() > 0 {
                    return Err(
                        ParseError {
                            line: index,
                            character: None,
                            reason: ErrorReason::MisplacedDocType,
                        },
                    );
                }
                self.attach(Node::Doctype(doctype));
                Ok(())
            },
            Some(LineContent::Element(parsed)) => match element_for(parsed) {
                Ok(e) => {
                    proof {
                        crate::lemma_nodes_view(e.children);
                    }
                    self.open(Node::Element(e), indent, ParseMode::Normal);
                    Ok(())
                },
                Err(reason) => Err(ParseError { line: index, character: None, reason }),
            },
            Some(LineContent::Directive(command)) => {
                let children: Vec<Node> = Vec::new();
                assert(crate::nodes_view(children) =~= Seq::<NodeView>::empty());
                self.open(Node::Directive(command, children), indent, ParseMode::Normal);
                Ok(())
            },
            Some(LineContent::Text(text)) => {
                self.attach(Node::Text(text));
                Ok(())
            },
        }
    }

    /// Closes every open node and hands out the roots.
    pub fn finish(self) -> (roots: Vec<Node>)
        ensures
            forest_view(roots@) == self@.finish(),
    {
        let mut builder = self;
        builder.close_to(0);
        builder.roots
    }
}

/// Parses a document into its forest of nodes, or reports its first failure.
/// The result is what the builder makes of the lines, and that is what the
/// lines mean.
pub fn parse(content: &str) -> (r: ParseResult)
    ensures
        match r {
            Ok(nodes) => parsed(content@) == Ok::<Seq<NodeView>, ParseError>(forest_view(nodes@)),
            Err(e) => parsed(content@) == Err::<Seq<NodeView>, ParseError>(e),
        },
        parsed(content@) == meaning(lines_of(content@)),
{
    let chars = chars_of(content);
    let lines = split_lines(chars.as_slice());
    let ghost all = lines_of(content@);
    proof {
        lemma_parsed_is_meaning(content@);
    }
    let mut builder = Builder::new();
    let mut i: usize = 0;
    while i < lines.len()
        invariant
            i <= lines@.len(),
            all == lines_of(content@),
            parsed(content@) == meaning(all),
            lines@.len() == all.len(),
            forall|k: int| 0 <= k < lines@.len() ==> (#[trigger] lines@[k])@ == all[k],
            fed(all, i as int) == Ok::<BuilderView, ParseError>(builder@),
        decreases lines@.len() - i,
    {
        match builder.feed(i, lines[i].as_slice()) {
            Ok(()) => {},
            Err(e) => {
                proof {
                    assert(fed(all, i + 1) == Err::<BuilderView, ParseError>(e));
                    lemma_failure_is_final(all, i + 1, all.len() as int);
                }
                return Err(e);
            },
        }
        i += 1;
    }
    Ok(builder.finish())
}

} // verus!
