//! What holds of every document: the failures that a line brings about, the
//! empty document, and the output of the handler that resolves nothing. The
//! failures are stated over the lines alone.
use vstd::prelude::*;
use crate::grammar::{line_grammar, LineView};
use crate::output::{rendered, rendered_node, DirectiveHandler, DirectivePrinter, Written};
use crate::nesting::{
    enclosing, failure_before, in_raw_text, items_upto, lemma_built_is_meaning,
    lemma_first_failure_is_final, outcome, Outcome,
};
use crate::parse::{
    built, failure, fed, ids_of, indent_of, is_blank, parsed, BuilderView, ErrorReason,
    ParseError,
};
use crate::text::lines_of;
use crate::NodeView;

verus! {

/// Whether the grammar reads the line with the given index: no line before it
/// fails, it is not blank, and it does not lie in a raw-text block.
pub open spec fn read_by_grammar(lines: Seq<Seq<char>>, index: int) -> bool {
    &&& 0 <= index < lines.len()
    &&& failure_before(lines, index) is None
    &&& !is_blank(lines[index])
    &&& !in_raw_text(items_upto(lines, index), indent_of(lines[index]))
}

/// Whether the line with the given index lies below a line that is still open.
pub open spec fn below_open_line(lines: Seq<Seq<char>>, index: int) -> bool {
    enclosing(items_upto(lines, index), indent_of(lines[index])) is Some
}

/// What the line with the given index says, its indentation taken off.
pub open spec fn said(lines: Seq<Seq<char>>, index: int) -> Option<LineView> {
    line_grammar(lines[index].skip(indent_of(lines[index])))
}

/// A line that fails where no line before it does, fails the document.
pub proof fn lemma_line_fails(lines: Seq<Seq<char>>, index: int, reason: ErrorReason)
    requires
        0 <= index < lines.len(),
        failure_before(lines, index) is None,
        outcome(items_upto(lines, index), lines[index]) == Outcome::Fails(reason),
    ensures
        built(lines) == Err::<Seq<NodeView>, ParseError>(failure(index, reason)),
{
    assert(failure_before(lines, index + 1) == Some(failure(index, reason)));
    lemma_first_failure_is_final(lines, index + 1, lines.len() as int);
    lemma_built_is_meaning(lines);
}

/// An element line with two or more `#id` tokens fails the document with
/// `MultipleIds` at the index of that line, wherever the grammar reads the line.
pub proof fn lemma_second_id_fails(lines: Seq<Seq<char>>, index: int)
    requires
        read_by_grammar(lines, index),
        said(lines, index) matches Some(LineView::Element(line)) && ids_of(line.classes_ids).len()
            >= 2,
    ensures
        built(lines) == Err::<Seq<NodeView>, ParseError>(
            failure(index, ErrorReason::MultipleIds),
        ),
{
    lemma_line_fails(lines, index, ErrorReason::MultipleIds);
}

/// A doctype line that lies below a line that is still open fails the
/// document with `MisplacedDocType` at the index of that line, wherever the
/// grammar reads the line.
pub proof fn lemma_doctype_below_open_line_fails(lines: Seq<Seq<char>>, index: int)
    requires
        read_by_grammar(lines, index),
        below_open_line(lines, index),
        said(lines, index) is Some,
        said(lines, index)->0 is Doctype,
    ensures
        built(lines) == Err::<Seq<NodeView>, ParseError>(
            failure(index, ErrorReason::MisplacedDocType),
        ),
{
    lemma_line_fails(lines, index, ErrorReason::MisplacedDocType);
}

/// A line that is not in the language fails the document with `Parse` at the
/// index of that line, wherever the grammar reads the line.
pub proof fn lemma_unknown_line_fails(lines: Seq<Seq<char>>, index: int)
    requires
        read_by_grammar(lines, index),
        said(lines, index) is None,
    ensures
        built(lines) == Err::<Seq<NodeView>, ParseError>(failure(index, ErrorReason::Parse)),
{
    lemma_line_fails(lines, index, ErrorReason::Parse);
}

/// The empty document has no nodes, and no nodes are written as no bytes.
pub proof fn lemma_empty_document<DH: DirectiveHandler>(handler: &DH, context: Seq<NodeView>)
    ensures
        parsed(Seq::<char>::empty()) == Ok::<Seq<NodeView>, ParseError>(Seq::empty()),
        rendered(handler, context, Seq::empty()) == (Written::<DH::DirectiveError> {
            bytes: Seq::empty(),
            failure: None,
        }),
{
    assert(lines_of(Seq::<char>::empty()) =~= Seq::<Seq<char>>::empty());
    assert(fed(Seq::<Seq<char>>::empty(), 0) == Ok::<BuilderView, ParseError>(
        BuilderView::initial(),
    ));
    assert(BuilderView::initial().close_to(0) == BuilderView::initial());
}

/// With the handler that resolves nothing a node is always written out in
/// full, and as the same bytes whatever block the document was given.
pub proof fn lemma_printer_node(
    printer: &DirectivePrinter,
    context: Seq<NodeView>,
    other: Seq<NodeView>,
    node: NodeView,
)
    ensures
        rendered_node(printer, context, node).failure is None,
        rendered_node(printer, context, node) == rendered_node(printer, other, node),
    decreases node, 0nat,
{
    match node {
        NodeView::Element(e) => {
            lemma_printer(printer, context, other, e.children);
        },
        _ => {},
    }
}

/// With the handler that resolves nothing a forest is always written out in
/// full, and as the same bytes whatever block the document was given: writing
/// it out a second time gives the first output again.
pub proof fn lemma_printer(
    printer: &DirectivePrinter,
    context: Seq<NodeView>,
    other: Seq<NodeView>,
    nodes: Seq<NodeView>,
)
    ensures
        rendered(printer, context, nodes).failure is None,
        rendered(printer, context, nodes) == rendered(printer, other, nodes),
    decreases nodes, 1nat,
{
    if nodes.len() > 0 {
        lemma_printer(printer, context, other, nodes.drop_last());
        lemma_printer_node(printer, context, other, nodes.last());
    }
}

} // verus!
