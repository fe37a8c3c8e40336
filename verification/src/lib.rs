//! An indentation-delimited markup language: its line grammar, the builder that
//! turns indented lines into a tree of nodes, and the serializer that writes the
//! tree out as markup while a host-supplied handler resolves the directives.
use vstd::prelude::*;

pub mod directive;
pub mod escape;
pub mod grammar;
pub mod laws;
pub mod nesting;
pub mod output;
pub mod parse;
pub mod server;
pub mod site;
pub mod text;

verus! {

/// A tag with its attributes, in the order they were given, and its children.
#[derive(Debug)]
pub struct Element {
    pub name: String,
    pub attributes: Vec<(String, String)>,
    pub children: Vec<Node>,
}

/// One node of a document.
#[derive(Debug)]
pub enum Node {
    /// A doctype declaration.
    Doctype(String),
    /// A command for the host, with the nodes of the lines nested under it.
    Directive(String, Vec<Node>),
    /// Literal text.
    Text(String),
    /// A line captured verbatim inside a raw-text block.
    RawText(String),
    /// An element.
    Element(Element),
}

/// The block that a document hands to the document it pulls in.
#[derive(Debug)]
pub struct TemplateContext {
    pub nodes: Vec<Node>,
}

/// What an `Element` is: its name, its attributes and its children as plain sequences.
pub struct ElementView {
    pub name: Seq<char>,
    pub attributes: Seq<(Seq<char>, Seq<char>)>,
    pub children: Seq<NodeView>,
}

/// What a `Node` is.
pub enum NodeView {
    Doctype(Seq<char>),
    Directive(Seq<char>, Seq<NodeView>),
    Text(Seq<char>),
    RawText(Seq<char>),
    Element(ElementView),
}

/// The attributes as pairs of character sequences.
pub open spec fn pairs_view(pairs: Seq<(String, String)>) -> Seq<(Seq<char>, Seq<char>)> {
    Seq::new(pairs.len(), |i: int| (pairs[i].0@, pairs[i].1@))
}

/// The model of a node.
pub open spec fn node_view(node: Node) -> NodeView
    decreases node,
{
    match node {
        Node::Doctype(s) => NodeView::Doctype(s@),
        Node::Directive(s, children) => NodeView::Directive(s@, nodes_view(children)),
        Node::Text(s) => NodeView::Text(s@),
        Node::RawText(s) => NodeView::RawText(s@),
        Node::Element(e) => NodeView::Element(
            ElementView {
                name: e.name@,
                attributes: pairs_view(e.attributes@),
                children: nodes_view(e.children),
            },
        ),
    }
}

/// The models of a vector of nodes, in order.
pub open spec fn nodes_view(nodes: Vec<Node>) -> Seq<NodeView>
    decreases nodes,
{
    Seq::new(
        nodes@.len(),
        |i: int|
            if 0 <= i < nodes@.len() {
                node_view(nodes@[i])
            } else {
                NodeView::Text(Seq::empty())
            },
    )
}

/// The models of a sequence of nodes, in order.
pub open spec fn forest_view(nodes: Seq<Node>) -> Seq<NodeView> {
    Seq::new(nodes.len(), |i: int| node_view(nodes[i]))
}

/// The model of a vector of nodes is the model of the sequence it holds.
pub proof fn lemma_nodes_view(nodes: Vec<Node>)
    ensures
        nodes_view(nodes) == forest_view(nodes@),
{
    assert(nodes_view(nodes) =~= forest_view(nodes@));
}

impl View for Node {
    type V = NodeView;

    open spec fn view(&self) -> NodeView {
        node_view(*self)
    }
}

impl View for Element {
    type V = ElementView;

    open spec fn view(&self) -> ElementView {
        ElementView {
            name: self.name@,
            attributes: pairs_view(self.attributes@),
            children: forest_view(self.children@),
        }
    }
}

impl View for TemplateContext {
    type V = Seq<NodeView>;

    open spec fn view(&self) -> Seq<NodeView> {
        forest_view(self.nodes@)
    }
}

impl TemplateContext {
    /// The context that hands over nothing.
    pub fn empty() -> (context: TemplateContext)
        ensures
            context@ == Seq::<NodeView>::empty(),
    {
        let context = TemplateContext { nodes: Vec::new() };
        assert(context@ =~= Seq::<NodeView>::empty());
        context
    }
}

/// A copy of the attributes.
pub fn clone_pairs(pairs: &Vec<(String, String)>) -> (copy: Vec<(String, String)>)
    ensures
        pairs_view(copy@) == pairs_view(pairs@),
{
    let mut copy: Vec<(String, String)> = Vec::new();
    let mut i: usize = 0;
    while i < pairs.len()
        invariant
            i <= pairs@.len(),
            copy@.len() == i,
            forall|j: int| 0 <= j < i ==> #[trigger] copy@[j] == pairs@[j],
        decreases pairs@.len() - i,
    {
        copy.push((pairs[i].0.clone(), pairs[i].1.clone()));
        i += 1;
    }
    assert(pairs_view(copy@) =~= pairs_view(pairs@));
    copy
}

/// A copy of a node and of all that hangs below it.
pub fn clone_node(node: &Node) -> (copy: Node)
    ensures
        copy@ == node@,
    decreases node,
{
    match node {
        Node::Doctype(s) => Node::Doctype(s.clone()),
        Node::Directive(s, children) => {
            let copies = clone_nodes(children);
            proof {
                lemma_nodes_view(copies);
                lemma_nodes_view(*children);
            }
            Node::Directive(s.clone(), copies)
        },
        Node::Text(s) => Node::Text(s.clone()),
        Node::RawText(s) => Node::RawText(s.clone()),
        Node::Element(e) => {
            let copies = clone_nodes(&e.children);
            proof {
                lemma_nodes_view(copies);
                lemma_nodes_view(e.children);
            }
            Node::Element(
                Element {
                    name: e.name.clone(),
                    attributes: clone_pairs(&e.attributes),
                    children: copies,
                },
            )
        },
    }
}

/// A copy of each node, in order.
pub fn clone_nodes(nodes: &Vec<Node>) -> (copy: Vec<Node>)
    ensures
        forest_view(copy@) == forest_view(nodes@),
    decreases nodes,
{
    let mut copy: Vec<Node> = Vec::new();
    let mut i: usize = 0;
    while i < nodes.len()
        invariant
            i <= nodes@.len(),
            copy@.len() == i,
            forall|j: int| 0 <= j < i ==> (#[trigger] copy@[j])@ == nodes@[j]@,
        decreases nodes@.len() - i,
    {
        copy.push(clone_node(&nodes[i]));
        i += 1;
    }
    assert(forest_view(copy@) =~= forest_view(nodes@));
    copy
}

impl Clone for Node {
    fn clone(&self) -> (copy: Node)
        ensures
            copy@ == self@,
    {
        clone_node(self)
    }
}

impl Clone for Element {
    fn clone(&self) -> (copy: Element)
        ensures
            copy@ == self@,
    {
        Element {
            name: self.name.clone(),
            attributes: clone_pairs(&self.attributes),
            children: clone_nodes(&self.children),
        }
    }
}

impl Clone for TemplateContext {
    fn clone(&self) -> (copy: TemplateContext)
        ensures
            copy@ == self@,
    {
        TemplateContext { nodes: clone_nodes(&self.nodes) }
    }
}

/// An element without children.
pub fn element(name: &str, attributes: Vec<(&str, &str)>) -> (e: Element)
    ensures
        e@.name == name@,
        e@.attributes == Seq::new(
            attributes@.len(),
            |i: int| (attributes@[i].0@, attributes@[i].1@),
        ),
        e@.children == Seq::<NodeView>::empty(),
{
    let mut owned: Vec<(String, String)> = Vec::new();
    let mut i: usize = 0;
    while i < attributes.len()
        invariant
            i <= attributes@.len(),
            owned@.len() == i,
            forall|j: int|
                0 <= j < i ==> (#[trigger] owned@[j]).0@ == attributes@[j].0@ && owned@[j].1@
                    == attributes@[j].1@,
        decreases attributes@.len() - i,
    {
        let pair = attributes[i];
        owned.push((pair.0.to_owned(), pair.1.to_owned()));
        i += 1;
    }
    let e = Element { name: name.to_owned(), attributes: owned, children: Vec::new() };
    assert(e@.attributes =~= Seq::new(
        attributes@.len(),
        |i: int| (attributes@[i].0@, attributes@[i].1@),
    ));
    assert(e@.children =~= Seq::<NodeView>::empty());
    e
}

/// Whether `opt` holds a value of which `f` is true.
pub fn contains<T, F: Fn(&T) -> bool>(opt: Option<T>, f: F) -> (found: bool)
    requires
        opt is Some ==> call_requires(f, (&opt->0,)),
    ensures
        opt is None ==> !found,
        opt is Some ==> call_ensures(f, (&opt->0,), found),
{
    match opt {
        Some(value) => f(&value),
        None => false,
    }
}

} // verus!
