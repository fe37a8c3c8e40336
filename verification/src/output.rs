//! The serializer: from a forest of nodes to markup.
//!
//! Directives are not resolved here. Each is handed to a handler that the host
//! supplies, together with the block that the document was given and the nodes
//! nested under the directive.
use vstd::prelude::*;
use vstd::utf8::encode_utf8;
use crate::escape::{escape_default, escaped};
use crate::text::str_eq;
use crate::{forest_view, Element, ElementView, Node, NodeView, TemplateContext};

verus! {

/// `std::io::Error`: the failure of a sink. Nothing is said of what it holds.
#[verifier::external_type_specification]
#[verifier::external_body]
pub struct ExIoError(std::io::Error);

/// Why a document could not be written out.
#[derive(Debug)]
pub enum WriteError<DE> {
    /// The handler refused a directive.
    DirectiveError(DE),
    /// The sink refused the bytes.
    IO(std::io::Error),
}

impl<DE> From<std::io::Error> for WriteError<DE> {
    fn from(err: std::io::Error) -> (r: Self) {
        WriteError::IO(err)
    }
}

impl<DE> vstd::std_specs::convert::FromSpecImpl<std::io::Error> for WriteError<DE> {
    open spec fn obeys_from_spec() -> bool {
        true
    }

    open spec fn from_spec(err: std::io::Error) -> Self {
        WriteError::IO(err)
    }
}

/// What a handler, or the serializer, has written, and the failure that
/// stopped it, if one did.
pub struct Written<E> {
    pub bytes: Seq<u8>,
    pub failure: Option<E>,
}

/// The capability that resolves directives.
pub trait DirectiveHandler {
    type DirectiveError;

    /// What the handler does with a directive: the bytes it appends to the
    /// output, and the failure it reports after them, if any. It depends on
    /// the handler and on what it is handed, and on nothing else. A handler
    /// that is not verified leaves this as it stands here: nothing is then
    /// known of what it writes.
    open spec fn resolved(
        &self,
        context: Seq<NodeView>,
        command: Seq<char>,
        children: Seq<NodeView>,
    ) -> Written<Self::DirectiveError> {
        arbitrary()
    }

    /// Resolves the directive `command`, with the nodes nested under it, and
    /// appends what it stands for to `out`.
    fn handle(
        &self,
        context: &TemplateContext,
        command: &str,
        children: &[Node],
        out: &mut Vec<u8>,
    ) -> (r: Result<(), Self::DirectiveError>)
        ensures
            final(out)@ == old(out)@ + self.resolved(
                context@,
                command@,
                forest_view(children@),
            ).bytes,
            match r {
                Ok(()) => self.resolved(context@, command@, forest_view(children@)).failure is None,
                Err(e) => self.resolved(context@, command@, forest_view(children@)).failure
                    == Some(e),
            },
    ;
}

/// The handler that resolves every directive to nothing.
#[derive(Debug)]
pub struct DirectivePrinter {}

impl DirectiveHandler for DirectivePrinter {
    type DirectiveError = String;

    open spec fn resolved(
        &self,
        context: Seq<NodeView>,
        command: Seq<char>,
        children: Seq<NodeView>,
    ) -> Written<String> {
        Written { bytes: Seq::empty(), failure: None }
    }

    fn handle(
        &self,
        context: &TemplateContext,
        command: &str,
        children: &[Node],
        out: &mut Vec<u8>,
    ) -> (r: Result<(), String>) {
        assert(out@ =~= old(out)@ + Seq::<u8>::empty());
        Ok(())
    }
}

/// Whether an element gets a closing tag of its own: one with children does,
/// and so do `script` and `a` even without.
pub open spec fn separate_close_tag(e: ElementView) -> bool {
    e.children.len() > 0 || e.name == "script"@ || e.name == "a"@
}

/// One attribute as it stands in a tag: a space, the key, and the escaped value in double quotes.
pub open spec fn attribute_markup(pair: (Seq<char>, Seq<char>)) -> Seq<char> {
    " "@ + pair.0 + "=\""@ + escaped(pair.1) + "\""@
}

/// The attributes as they stand in a tag, in order.
pub open spec fn attributes_markup(pairs: Seq<(Seq<char>, Seq<char>)>) -> Seq<char>
    decreases pairs.len(),
{
    if pairs.len() == 0 {
        Seq::empty()
    } else {
        attributes_markup(pairs.drop_last()) + attribute_markup(pairs.last())
    }
}

/// The opening tag of an element, or its only tag where it gets no closing tag.
pub open spec fn open_tag(e: ElementView) -> Seq<char> {
    "<"@ + e.name + attributes_markup(e.attributes) + (if separate_close_tag(e) {
        " >"@
    } else {
        " />"@
    })
}

/// The closing tag of an element.
pub open spec fn close_tag(e: ElementView) -> Seq<char> {
    "</"@ + e.name + ">"@
}

/// What one node is written as.
pub open spec fn rendered_node<DH: DirectiveHandler>(
    handler: &DH,
    context: Seq<NodeView>,
    node: NodeView,
) -> Written<DH::DirectiveError>
    decreases node, 0nat,
{
    match node {
        NodeView::Doctype(doctype) => Written {
            bytes: encode_utf8("<!DOCTYPE "@ + doctype + ">\n"@),
            failure: None,
        },
        NodeView::Directive(command, children) => handler.resolved(context, command, children),
        NodeView::Text(text) => Written { bytes: encode_utf8(text), failure: None },
        NodeView::RawText(text) => Written { bytes: encode_utf8(text + "\n"@), failure: None },
        NodeView::Element(e) => if separate_close_tag(e) {
            let inner = rendered(handler, context, e.children);
            Written {
                bytes: encode_utf8(open_tag(e)) + inner.bytes + (if inner.failure is None {
                    encode_utf8(close_tag(e))
                } else {
                    Seq::empty()
                }),
                failure: inner.failure,
            }
        } else {
            Written { bytes: encode_utf8(open_tag(e)), failure: None }
        },
    }
}

/// What a forest is written as: its nodes one after the other, up to the
/// first failure.
pub open spec fn rendered<DH: DirectiveHandler>(
    handler: &DH,
    context: Seq<NodeView>,
    nodes: Seq<NodeView>,
) -> Written<DH::DirectiveError>
    decreases nodes, 1nat,
{
    if nodes.len() == 0 {
        Written { bytes: Seq::empty(), failure: None }
    } else {
        let before = rendered(handler, context, nodes.drop_last());
        if before.failure is Some {
            before
        } else {
            let last = rendered_node(handler, context, nodes.last());
            Written { bytes: before.bytes + last.bytes, failure: last.failure }
        }
    }
}

/// Appends the UTF-8 bytes of `text` to `out`.
pub fn write_str(out: &mut Vec<u8>, text: &str)
    ensures
        final(out)@ == old(out)@ + encode_utf8(text@),
{
    out.extend_from_slice(text.as_bytes());
}

/// Whether an element gets a closing tag of its own.
pub fn has_separate_close_tag(e: &Element) -> (separate: bool)
    ensures
        separate == separate_close_tag(e@),
{
    e.children.len() > 0 || str_eq(e.name.as_str(), "script") || str_eq(e.name.as_str(), "a")
}

/// Builds the opening tag of an element.
pub fn open_tag_of(e: &Element) -> (tag: String)
    ensures
        tag@ == open_tag(e@),
{
    let mut tag = String::new();
    tag.append("<");
    tag.append(e.name.as_str());
    let ghost pairs = e@.attributes;
    let ghost head = tag@;
    let mut i: usize = 0;
    while i < e.attributes.len()
        invariant
            i <= e.attributes@.len(),
            pairs == e@.attributes,
            pairs.len() == e.attributes@.len(),
            tag@ == head + attributes_markup(pairs.take(i as int)),
        decreases e.attributes@.len() - i,
    {
        proof {
            let upto = pairs.take(i + 1);
            assert(upto.drop_last() =~= pairs.take(i as int));
            assert(upto.last() == (e.attributes@[i as int].0@, e.attributes@[i as int].1@));
        }
        let ghost before = tag@;
        let value = escape_default(e.attributes[i].1.as_str());
        tag.append(" ");
        tag.append(e.attributes[i].0.as_str());
        tag.append("=\"");
        tag.append(value.as_str());
        tag.append("\"");
        assert(tag@ =~= before + attribute_markup(pairs.take(i + 1).last()));
        assert(tag@ =~= head + attributes_markup(pairs.take(i + 1)));
        i += 1;
    }
    assert(pairs.take(e.attributes@.len() as int) =~= pairs);
    if has_separate_close_tag(e) {
        tag.append(" >");
    } else {
        tag.append(" />");
    }
    assert(tag@ =~= open_tag(e@));
    tag
}

/// Writes one node to `out`.
pub fn write_node<DH: DirectiveHandler>(
    node: &Node,
    context: &TemplateContext,
    out: &mut Vec<u8>,
    directive_handler: &DH,
) -> (r: Result<(), WriteError<DH::DirectiveError>>)
    ensures
        final(out)@ == old(out)@ + rendered_node(directive_handler, context@, node@).bytes,
        match r {
            Ok(()) => rendered_node(directive_handler, context@, node@).failure is None,
            Err(WriteError::DirectiveError(e)) => rendered_node(
                directive_handler,
                context@,
                node@,
            ).failure == Some(e),
            Err(WriteError::IO(_)) => false,
        },
    decreases node, 0nat,
{
    match node {
        Node::Doctype(doctype) => {
            let mut line = String::new();
            line.append("<!DOCTYPE ");
            line.append(doctype.as_str());
            line.append(">\n");
            assert(line@ =~= "<!DOCTYPE "@ + doctype@ + ">\n"@);
            write_str(out, line.as_str());
            Ok(())
        },
        Node::Directive(command, children) => {
            proof {
                crate::lemma_nodes_view(*children);
            }
            match directive_handler.handle(context, command.as_str(), children.as_slice(), out) {
                Ok(()) => Ok(()),
                Err(e) => Err(WriteError::DirectiveError(e)),
            }
        },
        Node::Text(text) => {
            write_str(out, text.as_str());
            Ok(())
        },
        Node::RawText(text) => {
            let mut line = String::new();
            line.append(text.as_str());
            line.append("\n");
            assert(line@ =~= text@ + "\n"@);
            write_str(out, line.as_str());
            Ok(())
        },
        Node::Element(e) => {
            proof {
                crate::lemma_nodes_view(e.children);
            }
            let tag = open_tag_of(e);
            write_str(out, tag.as_str());
            if has_separate_close_tag(e) {
                let inner = write_out(e.children.as_slice(), context, out, directive_handler);
                match inner {
                    Ok(()) => {
                        let mut closing = String::new();
                        closing.append("</");
                        closing.append(e.name.as_str());
                        closing.append(">");
                        assert(closing@ =~= close_tag(e@));
                        write_str(out, closing.as_str());
                        assert(out@ =~= old(out)@ + rendered_node(
                            directive_handler,
                            context@,
                            node@,
                        ).bytes);
                        Ok(())
                    },
                    Err(e) => {
                        assert(out@ =~= old(out)@ + rendered_node(
                            directive_handler,
                            context@,
                            node@,
                        ).bytes);
                        Err(e)
                    },
                }
            } else {
                Ok(())
            }
        },
    }
}

/// Writes the nodes to `out`, one after the other, and stops at the first
/// failure. What was written before a failure stays in `out`.
pub fn write_out<DH: DirectiveHandler>(
    nodes: &[Node],
    context: &TemplateContext,
    out: &mut Vec<u8>,
    directive_handler: &DH,
) -> (r: Result<(), WriteError<DH::DirectiveError>>)
    ensures
        final(out)@ == old(out)@ + rendered(
            directive_handler,
            context@,
            forest_view(nodes@),
        ).bytes,
        match r {
            Ok(()) => rendered(directive_handler, context@, forest_view(nodes@)).failure is None,
            Err(WriteError::DirectiveError(e)) => rendered(
                directive_handler,
                context@,
                forest_view(nodes@),
            ).failure == Some(e),
            Err(WriteError::IO(_)) => false,
        },
    decreases nodes@, 1nat,
{
    let ghost all = forest_view(nodes@);
    let mut i: usize = 0;
    while i < nodes.len()
        invariant
            i <= nodes@.len(),
            all == forest_view(nodes@),
            out@ == old(out)@ + rendered(directive_handler, context@, all.take(i as int)).bytes,
            rendered(directive_handler, context@, all.take(i as int)).failure is None,
        decreases nodes@.len() - i,
    {
        proof {
            let upto = all.take(i + 1);
            assert(upto.drop_last() =~= all.take(i as int));
            assert(upto.last() == nodes@[i as int]@);
        }
        match write_node(&nodes[i], context, out, directive_handler) {
            Ok(()) => {
                assert(out@ =~= old(out)@ + rendered(
                    directive_handler,
                    context@,
                    all.take(i + 1),
                ).bytes);
            },
            Err(e) => {
                proof {
                    assert(out@ =~= old(out)@ + rendered(
                        directive_handler,
                        context@,
                        all.take(i + 1),
                    ).bytes);
                    lemma_failure_is_final(directive_handler, context@, all, i + 1);
                }
                return Err(e);
            },
        }
        i += 1;
    }
    assert(all.take(nodes@.len() as int) =~= all);
    Ok(())
}

/// Once a node has failed, the nodes after it add nothing.
pub proof fn lemma_failure_is_final<DH: DirectiveHandler>(
    handler: &DH,
    context: Seq<NodeView>,
    nodes: Seq<NodeView>,
    upto: int,
)
    requires
        0 <= upto <= nodes.len(),
        rendered(handler, context, nodes.take(upto)).failure is Some,
    ensures
        rendered(handler, context, nodes) == rendered(handler, context, nodes.take(upto)),
    decreases nodes.len() - upto,
{
    if upto < nodes.len() {
        assert(nodes.take(upto + 1).drop_last() =~= nodes.take(upto));
        lemma_failure_is_final(handler, context, nodes, upto + 1);
    } else {
        assert(nodes.take(upto) =~= nodes);
    }
}

} // verus!
