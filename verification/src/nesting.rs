//! The meaning of a document, stated over its lines alone.
//!
//! A line that is not blank adds a node to the document. The node lies below
//! the nearest line before it that opens a node, is indented less, and has no
//! line indented as little as itself between the two. Lines below one node keep
//! the order they have in the source. A line below the opener of a raw-text
//! block is raw text; any other line is read by the grammar. The builder's
//! stack computes exactly this.
use vstd::prelude::*;
use crate::parse::{
    built, can_hold, failure, fed, indent_of, is_blank, lemma_close_to,
    lemma_fed_wf, line_step, with_child, BuilderView, ErrorReason, ParseError, ParseMode, Step,
};
use crate::{ElementView, NodeView};

verus! {

/// What a line adds to a document.
pub struct Item {
    /// The indentation of the line.
    pub depth: int,
    /// The node that the line stands for, without the lines below it.
    pub node: NodeView,
    /// Whether lines can lie below it.
    pub opens: bool,
    /// Whether the lines below it are raw text.
    pub raw: bool,
}

/// What a line does to a document.
pub enum Outcome {
    /// Nothing: the line is blank.
    Blank,
    /// It adds a node.
    Adds(Item),
    /// It fails the document.
    Fails(ErrorReason),
}

/// Whether the line `outer` is still open when the line `inner` is read, and
/// indented less: it opens a node, and every line after it up to `inner` is
/// indented further than it.
pub open spec fn encloses(items: Seq<Option<Item>>, outer: int, inner: int) -> bool {
    &&& 0 <= outer < inner < items.len()
    &&& items[outer] is Some
    &&& items[outer]->0.opens
    &&& items[inner] is Some
    &&& forall|k: int|
        outer < k <= inner && (#[trigger] items[k]) is Some ==> items[k]->0.depth
            > items[outer]->0.depth
}

/// The last line before `below` that encloses `inner`.
pub open spec fn nearest(items: Seq<Option<Item>>, inner: int, below: int) -> Option<int>
    decreases below,
{
    if below <= 0 {
        None
    } else if encloses(items, below - 1, inner) {
        Some(below - 1)
    } else {
        nearest(items, inner, below - 1)
    }
}

/// The line that a line lies below: the nearest line that encloses it.
pub open spec fn parent_of(items: Seq<Option<Item>>, index: int) -> Option<int> {
    nearest(items, index, index)
}

/// `node` with `more` after the children it has.
pub open spec fn extended(node: NodeView, more: Seq<NodeView>) -> NodeView {
    match node {
        NodeView::Element(e) => NodeView::Element(
            ElementView { name: e.name, attributes: e.attributes, children: e.children + more },
        ),
        NodeView::Directive(command, children) => NodeView::Directive(command, children + more),
        _ => node,
    }
}

/// The index of a line, and -1 for the document itself.
pub open spec fn position(parent: Option<int>) -> int {
    match parent {
        Some(index) => index,
        None => -1,
    }
}

/// The trees of the lines before `upto` that lie below `parent`, in the order
/// of the lines. `None` stands for the document itself.
pub open spec fn children_of(items: Seq<Option<Item>>, parent: Option<int>, upto: int) -> Seq<
    NodeView,
>
    decreases items.len() - position(parent), 0nat, upto,
{
    let last = upto - 1;
    if -1 <= position(parent) < last < items.len() {
        let before = children_of(items, parent, last);
        if items[last] is Some && parent_of(items, last) == parent {
            before.push(subtree(items, last))
        } else {
            before
        }
    } else {
        Seq::empty()
    }
}

/// The tree of a line: its node, with the trees of the lines that lie below it.
pub open spec fn subtree(items: Seq<Option<Item>>, index: int) -> NodeView
    decreases items.len() - index, 1nat, 0int,
{
    if 0 <= index < items.len() && items[index] is Some {
        extended(items[index]->0.node, children_of(items, Some(index), items.len() as int))
    } else {
        NodeView::Text(Seq::empty())
    }
}

/// The forest of a document: the trees of the lines that lie below no line.
pub open spec fn forest_of(items: Seq<Option<Item>>) -> Seq<NodeView> {
    children_of(items, None, items.len() as int)
}

/// A line of the given indentation of which nothing else is known.
pub open spec fn placed(depth: int) -> Option<Item> {
    Some(Item { depth, node: NodeView::Text(Seq::empty()), opens: false, raw: false })
}

/// The line that a line of the given indentation lies below, given what the
/// lines before it add: the nearest that encloses it.
pub open spec fn enclosing(before: Seq<Option<Item>>, depth: int) -> Option<int> {
    parent_of(before.push(placed(depth)), before.len() as int)
}

/// Whether a line of the given indentation lies in a raw-text block: the line
/// that it lies below opens one.
pub open spec fn in_raw_text(before: Seq<Option<Item>>, depth: int) -> bool {
    enclosing(before, depth) is Some && before[enclosing(before, depth)->0]->0.raw
}

/// What a line does to a document, given what the lines before it add.
pub open spec fn outcome(before: Seq<Option<Item>>, line: Seq<char>) -> Outcome {
    let depth = indent_of(line);
    if is_blank(line) {
        Outcome::Blank
    } else {
        match line_step(
            in_raw_text(before, depth),
            enclosing(before, depth) is Some,
            line.skip(depth),
        ) {
            Step::Leaf(node) => Outcome::Adds(Item { depth, node, opens: false, raw: false }),
            Step::Open(node, mode) => Outcome::Adds(
                Item { depth, node, opens: true, raw: mode == ParseMode::InlineJavascript },
            ),
            Step::Fail(reason) => Outcome::Fails(reason),
        }
    }
}

/// What each of the first `upto` lines adds; nothing for a blank line.
pub open spec fn items_upto(lines: Seq<Seq<char>>, upto: int) -> Seq<Option<Item>>
    decreases upto,
{
    if upto <= 0 {
        Seq::empty()
    } else {
        let before = items_upto(lines, upto - 1);
        before.push(
            match outcome(before, lines[upto - 1]) {
                Outcome::Adds(item) => Some(item),
                _ => None,
            },
        )
    }
}

/// What each line of a document adds.
pub open spec fn items_of(lines: Seq<Seq<char>>) -> Seq<Option<Item>> {
    items_upto(lines, lines.len() as int)
}

/// The first failure among the first `upto` lines.
pub open spec fn failure_before(lines: Seq<Seq<char>>, upto: int) -> Option<ParseError>
    decreases upto,
{
    if upto <= 0 {
        None
    } else {
        match failure_before(lines, upto - 1) {
            Some(e) => Some(e),
            None => match outcome(items_upto(lines, upto - 1), lines[upto - 1]) {
                Outcome::Fails(reason) => Some(failure(upto - 1, reason)),
                _ => None,
            },
        }
    }
}

/// What a document means: the failure of its first line that fails, or else
/// the forest of what its lines add.
pub open spec fn meaning(lines: Seq<Seq<char>>) -> Result<Seq<NodeView>, ParseError> {
    match failure_before(lines, lines.len() as int) {
        Some(e) => Err(e),
        None => Ok(forest_of(items_of(lines))),
    }
}

/// The lines before `upto` that lie below `parent`, in the order of the source.
pub open spec fn lines_below(items: Seq<Option<Item>>, parent: Option<int>, upto: int) -> Seq<int>
    decreases upto,
{
    let last = upto - 1;
    if -1 <= position(parent) < last < items.len() {
        let before = lines_below(items, parent, last);
        if items[last] is Some && parent_of(items, last) == parent {
            before.push(last)
        } else {
            before
        }
    } else {
        Seq::empty()
    }
}

/// The children of a line, or the roots of the document, are the trees of
/// exactly the lines that lie below it, each once, in the order of the source.
pub proof fn lemma_children_are_lines_below(
    items: Seq<Option<Item>>,
    parent: Option<int>,
    upto: int,
)
    requires
        -1 <= position(parent),
        upto <= items.len(),
    ensures
        forall|c: int|
            #[trigger] lines_below(items, parent, upto).contains(c) <==> (position(parent) < c
                < upto && items[c] is Some && parent_of(items, c) == parent),
        forall|x: int, y: int|
            0 <= x < y < lines_below(items, parent, upto).len() ==> lines_below(
                items,
                parent,
                upto,
            )[x] < lines_below(items, parent, upto)[y],
        children_of(items, parent, upto).len() == lines_below(items, parent, upto).len(),
        forall|x: int|
            0 <= x < lines_below(items, parent, upto).len() ==> children_of(items, parent, upto)[x]
                == subtree(items, #[trigger] lines_below(items, parent, upto)[x]),
    decreases upto,
{
    let last = upto - 1;
    let all = lines_below(items, parent, upto);
    if position(parent) < last {
        let before = lines_below(items, parent, last);
        lemma_children_are_lines_below(items, parent, last);
        let added = items[last] is Some && parent_of(items, last) == parent;
        assert forall|c: int| #[trigger]
            all.contains(c) <==> (position(parent) < c < upto && items[c] is Some && parent_of(
                items,
                c,
            ) == parent) by {
            if all.contains(c) {
                let x = choose|x: int| 0 <= x < all.len() && all[x] == c;
                if x < before.len() {
                    assert(before[x] == c);
                    assert(before.contains(c));
                }
            }
            if position(parent) < c < upto && items[c] is Some && parent_of(items, c) == parent {
                if c < last {
                    assert(before.contains(c));
                    let x = choose|x: int| 0 <= x < before.len() && before[x] == c;
                    assert(all[x] == c);
                } else {
                    assert(all[all.len() - 1] == c);
                }
            }
        }
        assert forall|x: int, y: int| 0 <= x < y < all.len() implies all[x] < all[y] by {
            if added {
                assert(all == before.push(last));
                assert(before[x] == all[x]);
                if y == before.len() {
                    assert(before.contains(before[x]));
                    assert(before[x] < last);
                    assert(all[y] == last);
                } else {
                    assert(before[y] == all[y]);
                    assert(before[x] < before[y]);
                }
            } else {
                assert(all == before);
                assert(before[x] < before[y]);
            }
        }
    } else {
        assert forall|c: int| #[trigger]
            all.contains(c) <==> (position(parent) < c < upto && items[c] is Some && parent_of(
                items,
                c,
            ) == parent) by {}
    }
}

/// `nearest` is the last line before `below` that encloses `inner`, and there
/// is none where no line before `below` does.
pub proof fn lemma_nearest(items: Seq<Option<Item>>, inner: int, below: int)
    ensures
        match nearest(items, inner, below) {
            Some(outer) => 0 <= outer < below && encloses(items, outer, inner) && forall|j: int|
                outer < j < below ==> !encloses(items, j, inner),
            None => forall|j: int| 0 <= j < below ==> !encloses(items, j, inner),
        },
    decreases below,
{
    if below > 0 && !encloses(items, below - 1, inner) {
        lemma_nearest(items, inner, below - 1);
    }
}

/// A line lies below the line that encloses it and that no later line does.
pub proof fn lemma_parent_is(items: Seq<Option<Item>>, index: int, parent: Option<int>)
    requires
        0 <= index < items.len(),
        parent is Some ==> encloses(items, parent->0, index),
        forall|j: int| position(parent) < j < index ==> !encloses(items, j, index),
    ensures
        parent_of(items, index) == parent,
{
    lemma_nearest(items, index, index);
    match parent_of(items, index) {
        Some(found) => {
            if position(parent) < found {
                assert(!encloses(items, found, index));
            }
        },
        None => {},
    }
}

/// Lines that do not lie below `parent` add nothing to its children.
pub proof fn lemma_children_stable(
    items: Seq<Option<Item>>,
    parent: Option<int>,
    from: int,
    upto: int,
)
    requires
        -1 <= position(parent) < from <= upto <= items.len(),
        forall|c: int|
            from <= c < upto ==> !((#[trigger] items[c]) is Some && parent_of(items, c) == parent),
    ensures
        children_of(items, parent, from) == children_of(items, parent, upto),
    decreases upto - from,
{
    if from < upto {
        lemma_children_stable(items, parent, from, upto - 1);
        assert(!(items[upto - 1] is Some && parent_of(items, upto - 1) == parent));
    }
}

/// Whether every line after `index` and before `upto` is indented further than it.
pub open spec fn open_before(items: Seq<Option<Item>>, index: int, upto: int) -> bool {
    forall|k: int|
        index < k < upto && (#[trigger] items[k]) is Some ==> items[k]->0.depth
            > items[index]->0.depth
}

/// `open` without the lines at its end that are indented at least as far as `depth`.
pub open spec fn popped(items: Seq<Option<Item>>, open: Seq<int>, depth: int) -> Seq<int>
    decreases open.len(),
{
    if open.len() > 0 && items[open.last()]->0.depth >= depth {
        popped(items, open.drop_last(), depth)
    } else {
        open
    }
}

/// The lines that are open once the first `upto` lines are read, the outermost first.
pub open spec fn open_lines(items: Seq<Option<Item>>, upto: int) -> Seq<int>
    decreases upto,
{
    if upto <= 0 {
        Seq::empty()
    } else {
        let before = open_lines(items, upto - 1);
        match items[upto - 1] {
            None => before,
            Some(item) => {
                let kept = popped(items, before, item.depth);
                if item.opens {
                    kept.push(upto - 1)
                } else {
                    kept
                }
            },
        }
    }
}

/// What remains after popping is the front part of `open`; every line that
/// went is indented at least as far as `depth`, and the last that stays is not.
pub proof fn lemma_popped(items: Seq<Option<Item>>, open: Seq<int>, depth: int)
    ensures
        popped(items, open, depth).len() <= open.len(),
        popped(items, open, depth) == open.take(popped(items, open, depth).len() as int),
        forall|x: int|
            popped(items, open, depth).len() <= x < open.len() ==> items[#[trigger] open[x]]->0.depth
                >= depth,
        popped(items, open, depth).len() > 0 ==> items[popped(items, open, depth).last()]->0.depth
            < depth,
    decreases open.len(),
{
    if open.len() > 0 && items[open.last()]->0.depth >= depth {
        let rest = open.drop_last();
        lemma_popped(items, rest, depth);
        let kept = popped(items, rest, depth);
        assert(kept =~= open.take(kept.len() as int));
        assert forall|x: int| kept.len() <= x < open.len() implies items[#[trigger] open[x]]->0.depth
            >= depth by {
            if x < rest.len() {
                assert(rest[x] == open[x]);
            }
        }
    } else {
        assert(open =~= open.take(open.len() as int));
    }
}

/// Where the children of the open line `x` end that the builder has seen: at
/// the next open line, or at `upto` for the innermost.
pub open spec fn bound(open: Seq<int>, x: int, upto: int) -> int {
    if 0 <= x + 1 < open.len() {
        open[x + 1]
    } else {
        upto
    }
}

/// Whether the frame `x` of the stack is the open line `open[x]`; with
/// `trees`, also whether it holds the children that lie before the next open line.
pub open spec fn frame_tracks(
    state: BuilderView,
    items: Seq<Option<Item>>,
    open: Seq<int>,
    upto: int,
    trees: bool,
    x: int,
) -> bool {
    let line = open[x];
    &&& 0 <= line < upto
    &&& items[line] is Some
    &&& items[line]->0.opens
    &&& can_hold(items[line]->0.node)
    &&& state.stack[x].depth == items[line]->0.depth
    &&& x > 0 ==> open[x - 1] < line
    &&& x + 1 < open.len() ==> !items[line]->0.raw
    &&& open_before(items, line, upto)
    &&& trees ==> state.stack[x].node == extended(
        items[line]->0.node,
        children_of(items, Some(line), bound(open, x, upto)),
    )
    &&& trees ==> parent_of(items, line) == (if x == 0 {
        None
    } else {
        Some(open[x - 1])
    })
}

/// Whether the state holds what the first `upto` lines have built: the stack is
/// the open lines, and raw text is read exactly below the opener of a raw-text
/// block; with `trees`, each open line has the children seen so far, and the
/// roots are the trees that lie below no line.
pub open spec fn tracks(
    state: BuilderView,
    items: Seq<Option<Item>>,
    open: Seq<int>,
    upto: int,
    trees: bool,
) -> bool {
    &&& 0 <= upto <= items.len()
    &&& state.stack.len() == open.len()
    &&& forall|x: int|
        0 <= x < open.len() ==> #[trigger] frame_tracks(state, items, open, upto, trees, x)
    &&& (state.mode == ParseMode::InlineJavascript) <==> (open.len() > 0 && items[open.last()]->0.raw)
    &&& trees ==> state.roots == children_of(items, None, bound(open, -1, upto))
}

/// Whether `open` holds every line before `upto` that is still open.
pub open spec fn complete(items: Seq<Option<Item>>, open: Seq<int>, upto: int) -> bool {
    forall|j: int|
        0 <= j < upto && (#[trigger] items[j]) is Some && items[j]->0.opens && open_before(
            items,
            j,
            upto,
        ) ==> open.contains(j)
}

/// What holds of a state and of what the lines add, holds of the state and
/// of anything that agrees with what the first `upto` lines add.
pub proof fn lemma_tracks_agree(
    state: BuilderView,
    items: Seq<Option<Item>>,
    other: Seq<Option<Item>>,
    open: Seq<int>,
    upto: int,
    trees: bool,
)
    requires
        tracks(state, items, open, upto, trees),
        complete(items, open, upto),
        upto <= other.len(),
        forall|k: int| 0 <= k < upto ==> other[k] == items[k],
    ensures
        tracks(state, other, open, upto, false),
        complete(other, open, upto),
        popped(other, open, other[upto]->0.depth) == popped(items, open, other[upto]->0.depth),
{
    assert forall|x: int| 0 <= x < open.len() implies #[trigger] frame_tracks(
        state,
        other,
        open,
        upto,
        false,
        x,
    ) by {
        assert(frame_tracks(state, items, open, upto, trees, x));
    }
    if open.len() > 0 {
        assert(frame_tracks(state, items, open, upto, trees, open.len() - 1));
    }
    assert forall|j: int|
        0 <= j < upto && (#[trigger] other[j]) is Some && other[j]->0.opens && open_before(
            other,
            j,
            upto,
        ) implies open.contains(j) by {
        assert(items[j] is Some);
        assert forall|k: int| j < k < upto && (#[trigger] items[k]) is Some implies items[k]->0.depth
            > items[j]->0.depth by {
            assert(other[k] is Some);
        }
        assert(open_before(items, j, upto));
    }
    assert forall|x: int| 0 <= x < open.len() implies other[#[trigger] open[x]] == items[open[x]] by {
        assert(frame_tracks(state, items, open, upto, trees, x));
    }
    lemma_popped_agree(items, other, open, other[upto]->0.depth);
}

/// Popping looks at the open lines alone.
pub proof fn lemma_popped_agree(
    items: Seq<Option<Item>>,
    other: Seq<Option<Item>>,
    open: Seq<int>,
    depth: int,
)
    requires
        forall|x: int| 0 <= x < open.len() ==> other[#[trigger] open[x]] == items[open[x]],
    ensures
        popped(other, open, depth) == popped(items, open, depth),
    decreases open.len(),
{
    if open.len() > 0 {
        assert(open[open.len() - 1] == open.last());
        let rest = open.drop_last();
        assert forall|x: int| 0 <= x < rest.len() implies other[#[trigger] rest[x]]
            == items[rest[x]] by {
            assert(rest[x] == open[x]);
        }
        lemma_popped_agree(items, other, rest, depth);
    }
}

/// What the first lines add does not depend on the lines after them.
pub proof fn lemma_items_prefix(lines: Seq<Seq<char>>, upto: int, all: int)
    requires
        0 <= upto <= all,
    ensures
        items_upto(lines, all).len() == all,
        items_upto(lines, all).take(upto) == items_upto(lines, upto),
    decreases all,
{
    if all > 0 {
        if upto < all {
            lemma_items_prefix(lines, upto, all - 1);
            assert(items_upto(lines, all).take(upto) =~= items_upto(lines, all - 1).take(upto));
        } else {
            lemma_items_prefix(lines, all - 1, all - 1);
            assert(items_upto(lines, all).take(all) =~= items_upto(lines, all));
        }
    } else {
        assert(items_upto(lines, all).take(upto) =~= items_upto(lines, upto));
    }
}

/// The open lines stand in the order of the source.
pub proof fn lemma_open_ascends(
    state: BuilderView,
    items: Seq<Option<Item>>,
    open: Seq<int>,
    upto: int,
    trees: bool,
    x: int,
    y: int,
)
    requires
        tracks(state, items, open, upto, trees),
        0 <= x <= y < open.len(),
    ensures
        open[x] <= open[y],
    decreases y - x,
{
    if x < y {
        assert(frame_tracks(state, items, open, upto, trees, y));
        lemma_open_ascends(state, items, open, upto, trees, x, y - 1);
    }
}

/// A child added to a node that was extended is the node extended by one more.
pub proof fn lemma_with_child_extends(node: NodeView, more: Seq<NodeView>, child: NodeView)
    requires
        can_hold(node),
    ensures
        with_child(extended(node, more), child) == extended(node, more.push(child)),
{
    match node {
        NodeView::Element(e) => {
            assert((e.children + more).push(child) =~= e.children + more.push(child));
        },
        NodeView::Directive(command, children) => {
            assert((children + more).push(child) =~= children + more.push(child));
        },
        _ => {},
    }
}

/// A node extended by nothing is the node.
pub proof fn lemma_extended_by_nothing(node: NodeView)
    ensures
        extended(node, Seq::empty()) == node,
{
    match node {
        NodeView::Element(e) => {
            assert(e.children + Seq::<NodeView>::empty() =~= e.children);
        },
        NodeView::Directive(command, children) => {
            assert(children + Seq::<NodeView>::empty() =~= children);
        },
        _ => {},
    }
}

/// Closing the innermost open line leaves a state that holds what the lines
/// have built; with `trees`, where no line from `upto` on lies below it.
pub proof fn lemma_close_top_tracks(
    state: BuilderView,
    items: Seq<Option<Item>>,
    open: Seq<int>,
    upto: int,
    trees: bool,
)
    requires
        state.wf(),
        tracks(state, items, open, upto, trees),
        open.len() > 0,
        trees ==> forall|c: int| upto <= c < items.len() ==> !encloses(items, open.last(), c),
    ensures
        tracks(state.close_top(), items, open.drop_last(), upto, trees),
{
    let m = open.len() - 1;
    let line = open[m];
    let next = state.close_top();
    let rest = open.drop_last();
    assert(frame_tracks(state, items, open, upto, trees, m));
    if m > 0 {
        assert(frame_tracks(state, items, open, upto, trees, m - 1));
        assert(rest.last() == open[m - 1]);
    }
    let parent = if m == 0 {
        None::<int>
    } else {
        Some(open[m - 1])
    };
    if trees {
        // The closed line has all its children.
        assert forall|c: int| upto <= c < items.len() implies !((#[trigger] items[c]) is Some
            && parent_of(items, c) == Some(line)) by {
            lemma_nearest(items, c, c);
            assert(line == open.last());
            assert(!encloses(items, open.last(), c));
        }
        lemma_children_stable(items, Some(line), upto, items.len() as int);
        assert(state.stack[m].node == subtree(items, line));
        // No line after it and before `upto` lies below the line that encloses it.
        assert forall|c: int| line + 1 <= c < upto implies !((#[trigger] items[c]) is Some
            && parent_of(items, c) == parent) by {
            if items[c] is Some {
                assert forall|k: int| line < k <= c && (#[trigger] items[k]) is Some implies items[k]->0.depth
                    > items[line]->0.depth by {}
                assert(encloses(items, line, c));
                lemma_nearest(items, c, c);
            }
        }
        lemma_children_stable(items, parent, line + 1, upto);
        assert(children_of(items, parent, line + 1) == children_of(items, parent, line).push(
            subtree(items, line),
        ));
    }
    if m == 0 {
        assert(next.stack =~= state.stack.drop_last());
    } else {
        assert(next.stack.len() == m);
        if trees {
            lemma_with_child_extends(
                items[open[m - 1]]->0.node,
                children_of(items, parent, line),
                subtree(items, line),
            );
            assert(next.stack[m - 1].node == extended(
                items[open[m - 1]]->0.node,
                children_of(items, parent, upto),
            ));
        }
    }
    assert forall|x: int| 0 <= x < rest.len() implies #[trigger] frame_tracks(
        next,
        items,
        rest,
        upto,
        trees,
        x,
    ) by {
        assert(frame_tracks(state, items, open, upto, trees, x));
        if x < m - 1 {
            assert(next.stack[x] == state.stack[x]);
            assert(bound(rest, x, upto) == bound(open, x, upto));
        }
    }
    if m > 0 {
        assert(bound(rest, -1, upto) == bound(open, -1, upto));
    }
}

/// Closing every open line that is indented at least as far as `depth` leaves
/// a state that holds what the lines have built; with `trees`, where no line
/// from `upto` on lies below any of them.
pub proof fn lemma_close_tracks(
    state: BuilderView,
    items: Seq<Option<Item>>,
    open: Seq<int>,
    upto: int,
    trees: bool,
    depth: int,
)
    requires
        state.wf(),
        tracks(state, items, open, upto, trees),
        trees ==> forall|x: int, c: int|
            0 <= x < open.len() && items[#[trigger] open[x]]->0.depth >= depth && upto <= c
                < items.len() ==> !#[trigger] encloses(items, open[x], c),
    ensures
        tracks(state.close_to(depth), items, popped(items, open, depth), upto, trees),
    decreases open.len(),
{
    if open.len() > 0 {
        assert(frame_tracks(state, items, open, upto, trees, open.len() - 1));
    }
    if state.stack.len() > 0 && state.stack.last().depth >= depth {
        let next = state.close_top();
        let rest = open.drop_last();
        if trees {
            assert forall|c: int| upto <= c < items.len() implies !encloses(
                items,
                open.last(),
                c,
            ) by {
                assert(open[open.len() - 1] == open.last());
            }
        }
        lemma_close_top_tracks(state, items, open, upto, trees);
        lemma_close_to(state, depth);
        assert(next.wf()) by {
            let kept = state.stack.drop_last();
            if kept.len() > 0 {
                assert(can_hold(kept.last().node));
                assert(forall|i: int|
                    0 <= i < next.stack.len() - 1 ==> next.stack[i] == state.stack[i]);
            }
        }
        if trees {
            assert forall|x: int, c: int|
                0 <= x < rest.len() && items[#[trigger] rest[x]]->0.depth >= depth && upto <= c
                    < items.len() implies !#[trigger] encloses(items, rest[x], c) by {
                assert(rest[x] == open[x]);
            }
        }
        lemma_close_tracks(next, items, rest, upto, trees, depth);
    }
}

/// Once a line has closed what it closes, the innermost line that stays open
/// is the line it lies below.
pub proof fn lemma_parent_is_innermost(
    state: BuilderView,
    items: Seq<Option<Item>>,
    open: Seq<int>,
    index: int,
    trees: bool,
)
    requires
        0 <= index < items.len(),
        items[index] is Some,
        state.wf(),
        tracks(state, items, open, index, trees),
        complete(items, open, index),
    ensures
        parent_of(items, index) == (if popped(items, open, items[index]->0.depth).len() > 0 {
            Some(popped(items, open, items[index]->0.depth).last())
        } else {
            None
        }),
{
    let depth = items[index]->0.depth;
    let kept = popped(items, open, depth);
    lemma_popped(items, open, depth);
    let parent = if kept.len() > 0 {
        Some(kept.last())
    } else {
        None::<int>
    };
    if kept.len() > 0 {
        let top = kept.len() - 1;
        assert(kept[top] == open[top]);
        assert(frame_tracks(state, items, open, index, trees, top));
        assert(encloses(items, kept.last(), index));
    }
    assert forall|j: int| position(parent) < j < index implies !encloses(items, j, index) by {
        if encloses(items, j, index) {
            assert(open_before(items, j, index));
            assert(open.contains(j));
            let x = choose|x: int| 0 <= x < open.len() && open[x] == j;
            if x < kept.len() {
                assert(kept[x] == open[x]);
                lemma_open_ascends(state, items, open, index, trees, x, kept.len() - 1);
                assert(kept[kept.len() - 1] == open[kept.len() - 1]);
            } else {
                assert(items[open[x]]->0.depth >= depth);
                assert(items[index]->0.depth > items[j]->0.depth);
            }
        }
    }
    lemma_parent_is(items, index, parent);
}

/// The open lines that stay once a line has closed what it closes are indented
/// less than the line, and stay open after it.
pub proof fn lemma_kept_stay_open(
    state: BuilderView,
    items: Seq<Option<Item>>,
    open: Seq<int>,
    index: int,
    trees: bool,
    x: int,
)
    requires
        0 <= index < items.len(),
        items[index] is Some,
        state.wf(),
        tracks(state, items, open, index, trees),
        0 <= x < popped(items, open, items[index]->0.depth).len(),
    ensures
        open_before(items, open[x], index + 1),
        items[open[x]]->0.depth < items[index]->0.depth,
{
    let depth = items[index]->0.depth;
    let kept = popped(items, open, depth);
    lemma_popped(items, open, depth);
    let top = kept.len() - 1;
    assert(kept[top] == open[top]);
    assert(frame_tracks(state, items, open, index, trees, top));
    assert(frame_tracks(state, items, open, index, trees, x));
    if x < top {
        assert(state.stack[x].depth < state.stack[top].depth);
    }
}

/// After a line, `open_lines` still holds every line that is open.
pub proof fn lemma_complete_step(state: BuilderView, items: Seq<Option<Item>>, index: int)
    requires
        0 <= index < items.len(),
        state.wf(),
        tracks(state, items, open_lines(items, index), index, true),
        complete(items, open_lines(items, index), index),
    ensures
        complete(items, open_lines(items, index + 1), index + 1),
{
    let open = open_lines(items, index);
    let after = open_lines(items, index + 1);
    match items[index] {
        None => {
            assert forall|j: int|
                0 <= j < index + 1 && (#[trigger] items[j]) is Some && items[j]->0.opens
                    && open_before(items, j, index + 1) implies after.contains(j) by {
                assert(open_before(items, j, index));
            }
        },
        Some(item) => {
            let kept = popped(items, open, item.depth);
            lemma_popped(items, open, item.depth);
            assert forall|j: int|
                0 <= j < index + 1 && (#[trigger] items[j]) is Some && items[j]->0.opens
                    && open_before(items, j, index + 1) implies after.contains(j) by {
                if j == index {
                    assert(after[after.len() - 1] == j);
                } else {
                    assert(open_before(items, j, index));
                    assert(open.contains(j));
                    let x = choose|x: int| 0 <= x < open.len() && open[x] == j;
                    assert(items[index]->0.depth > items[j]->0.depth);
                    assert(x < kept.len());
                    assert(kept[x] == j);
                    assert(after[x] == j);
                }
            }
        },
    }
}

/// After a line that adds nothing the state still holds what the lines have built.
pub proof fn lemma_blank_tracks(
    state: BuilderView,
    items: Seq<Option<Item>>,
    open: Seq<int>,
    index: int,
)
    requires
        0 <= index < items.len(),
        items[index] is None,
        tracks(state, items, open, index, true),
    ensures
        tracks(state, items, open, index + 1, true),
{
    assert forall|x: int| 0 <= x < open.len() implies #[trigger] frame_tracks(
        state,
        items,
        open,
        index + 1,
        true,
        x,
    ) by {
        assert(frame_tracks(state, items, open, index, true, x));
    }
}

/// After a line that adds a node which holds no lines, the state still holds
/// what the lines have built.
pub proof fn lemma_leaf_tracks(
    closed: BuilderView,
    items: Seq<Option<Item>>,
    kept: Seq<int>,
    index: int,
)
    requires
        0 <= index < items.len(),
        items[index] is Some,
        !items[index]->0.opens,
        !can_hold(items[index]->0.node),
        tracks(closed, items, kept, index, true),
        parent_of(items, index) == (if kept.len() > 0 {
            Some(kept.last())
        } else {
            None
        }),
        forall|x: int| 0 <= x < kept.len() ==> open_before(items, #[trigger] kept[x], index + 1),
    ensures
        tracks(closed.attach(items[index]->0.node), items, kept, index + 1, true),
{
    let node = items[index]->0.node;
    let next = closed.attach(node);
    assert(subtree(items, index) == node);
    if kept.len() > 0 {
        let top = kept.len() - 1;
        assert(frame_tracks(closed, items, kept, index, true, top));
        lemma_with_child_extends(
            items[kept[top]]->0.node,
            children_of(items, Some(kept[top]), index),
            node,
        );
    }
    assert forall|x: int| 0 <= x < kept.len() implies #[trigger] frame_tracks(
        next,
        items,
        kept,
        index + 1,
        true,
        x,
    ) by {
        assert(frame_tracks(closed, items, kept, index, true, x));
        if x < kept.len() - 1 {
            assert(next.stack[x] == closed.stack[x]);
        }
    }
}

/// After a line that opens a node, the state still holds what the lines have built.
pub proof fn lemma_open_tracks(
    closed: BuilderView,
    items: Seq<Option<Item>>,
    kept: Seq<int>,
    index: int,
    mode: ParseMode,
)
    requires
        0 <= index < items.len(),
        items[index] is Some,
        items[index]->0.opens,
        items[index]->0.raw == (mode == ParseMode::InlineJavascript),
        can_hold(items[index]->0.node),
        closed.mode == ParseMode::Normal,
        tracks(closed, items, kept, index, true),
        parent_of(items, index) == (if kept.len() > 0 {
            Some(kept.last())
        } else {
            None
        }),
        forall|x: int| 0 <= x < kept.len() ==> open_before(items, #[trigger] kept[x], index + 1),
    ensures
        tracks(
            closed.open(items[index]->0.node, items[index]->0.depth, mode),
            items,
            kept.push(index),
            index + 1,
            true,
        ),
{
    let node = items[index]->0.node;
    let next = closed.open(node, items[index]->0.depth, mode);
    let open = kept.push(index);
    lemma_extended_by_nothing(node);
    assert forall|x: int| 0 <= x < open.len() implies #[trigger] frame_tracks(
        next,
        items,
        open,
        index + 1,
        true,
        x,
    ) by {
        if x < kept.len() {
            assert(frame_tracks(closed, items, kept, index, true, x));
            assert(next.stack[x] == closed.stack[x]);
            assert(open[x] == kept[x]);
            assert(bound(open, x, index + 1) == bound(kept, x, index));
            if x == kept.len() - 1 {
                assert(kept.last() == kept[x]);
            }
        } else {
            if x > 0 {
                assert(frame_tracks(closed, items, kept, index, true, x - 1));
            }
        }
    }
    assert(bound(open, -1, index + 1) == bound(kept, -1, index));
    assert(open.last() == index);
}

/// Once a line has closed what it closes, the state tells of the line what
/// the lines before it tell: whether it lies below an open node, and whether
/// it lies in a raw-text block.
pub proof fn lemma_step_is_outcome(
    state: BuilderView,
    lines: Seq<Seq<char>>,
    index: int,
)
    requires
        0 <= index < lines.len(),
        !is_blank(lines[index]),
        state.wf(),
        tracks(
            state,
            items_of(lines),
            open_lines(items_of(lines), index),
            index,
            true,
        ),
        complete(items_of(lines), open_lines(items_of(lines), index), index),
    ensures
        match state.close_to(indent_of(lines[index])).step(
            lines[index].skip(indent_of(lines[index])),
        ) {
            Step::Leaf(node) => outcome(items_upto(lines, index), lines[index]) == Outcome::Adds(
                Item { depth: indent_of(lines[index]), node, opens: false, raw: false },
            ),
            Step::Open(node, mode) => outcome(items_upto(lines, index), lines[index])
                == Outcome::Adds(
                Item {
                    depth: indent_of(lines[index]),
                    node,
                    opens: true,
                    raw: mode == ParseMode::InlineJavascript,
                },
            ),
            Step::Fail(reason) => outcome(items_upto(lines, index), lines[index])
                == Outcome::Fails(reason),
        },
{
    let items = items_of(lines);
    let open = open_lines(items, index);
    let depth = indent_of(lines[index]);
    let before = items_upto(lines, index);
    let probe = before.push(placed(depth));
    lemma_items_prefix(lines, index, lines.len() as int);
    assert forall|k: int| 0 <= k < index implies probe[k] == items[k] by {
        assert(items.take(index)[k] == items[k]);
    }
    lemma_tracks_agree(state, items, probe, open, index, true);
    let kept = popped(probe, open, depth);
    lemma_close_tracks(state, probe, open, index, false, depth);
    lemma_parent_is_innermost(state, probe, open, index, false);
    lemma_popped(probe, open, depth);
    let closed = state.close_to(depth);
    if kept.len() > 0 {
        assert(kept.last() == open[kept.len() - 1]);
        assert(frame_tracks(state, probe, open, index, false, kept.len() - 1));
        assert(before[kept.last()] == probe[kept.last()]);
    }
}

/// The builder and the meaning of the lines agree on the first `upto` lines:
/// on their first failure, if there is one, and else on what they have built.
pub proof fn lemma_fed_tracks(lines: Seq<Seq<char>>, upto: int)
    requires
        0 <= upto <= lines.len(),
    ensures
        match failure_before(lines, upto) {
            Some(e) => fed(lines, upto) == Err::<BuilderView, ParseError>(e),
            None => fed(lines, upto) is Ok && tracks(
                fed(lines, upto)->Ok_0,
                items_of(lines),
                open_lines(items_of(lines), upto),
                upto,
                true,
            ) && complete(items_of(lines), open_lines(items_of(lines), upto), upto),
        },
    decreases upto,
{
    let items = items_of(lines);
    lemma_items_prefix(lines, upto, lines.len() as int);
    if upto > 0 {
        let index = upto - 1;
        lemma_fed_tracks(lines, index);
        if failure_before(lines, index) is None {
            let state = fed(lines, index)->Ok_0;
            let open = open_lines(items, index);
            lemma_fed_wf(lines, index);
            lemma_items_prefix(lines, index, lines.len() as int);
            lemma_items_prefix(lines, index + 1, lines.len() as int);
            assert(items[index] == items.take(index + 1)[index]);
            let line = lines[index];
            if is_blank(line) {
                lemma_complete_step(state, items, index);
                lemma_blank_tracks(state, items, open, index);
            } else {
                let depth = indent_of(line);
                let closed = state.close_to(depth);
                lemma_step_is_outcome(state, lines, index);
                match closed.step(line.skip(depth)) {
                    Step::Fail(reason) => {},
                    _ => {
                        lemma_complete_step(state, items, index);
                        let kept = popped(items, open, depth);
                        lemma_close_to(state, depth);
                        lemma_popped(items, open, depth);
                        assert forall|x: int, c: int|
                            0 <= x < open.len() && items[#[trigger] open[x]]->0.depth >= depth
                                && index <= c < items.len() implies !#[trigger] encloses(
                            items,
                            open[x],
                            c,
                        ) by {
                            assert(frame_tracks(state, items, open, index, true, x));
                            assert(items[index] is Some);
                        }
                        lemma_close_tracks(state, items, open, index, true, depth);
                        lemma_parent_is_innermost(state, items, open, index, true);
                        assert forall|x: int| 0 <= x < kept.len() implies open_before(
                            items,
                            #[trigger] kept[x],
                            index + 1,
                        ) by {
                            lemma_kept_stay_open(state, items, open, index, true, x);
                            assert(kept[x] == open[x]);
                        }
                        match closed.step(line.skip(depth)) {
                            Step::Leaf(node) => {
                                lemma_leaf_tracks(closed, items, kept, index);
                            },
                            Step::Open(node, mode) => {
                                lemma_open_tracks(closed, items, kept, index, mode);
                            },
                            Step::Fail(_) => {},
                        }
                    },
                }
            }
        }
    }
}

/// A failure stays the first failure, however many lines follow.
pub proof fn lemma_first_failure_is_final(lines: Seq<Seq<char>>, at: int, upto: int)
    requires
        0 <= at <= upto,
        failure_before(lines, at) is Some,
    ensures
        failure_before(lines, upto) == failure_before(lines, at),
    decreases upto - at,
{
    if at < upto {
        lemma_first_failure_is_final(lines, at, upto - 1);
    }
}

/// The forest that the builder makes of a document is what the document
/// means. A line lies below the nearest line before it that is still open and
/// indented less, the lines below one line, or below none, stand in the order
/// of the source, and the first line that fails, fails the document.
pub proof fn lemma_built_is_meaning(lines: Seq<Seq<char>>)
    ensures
        built(lines) == meaning(lines),
{
    let items = items_of(lines);
    let upto = lines.len() as int;
    lemma_fed_tracks(lines, upto);
    if failure_before(lines, upto) is None {
        let state = fed(lines, upto)->Ok_0;
        let open = open_lines(items, upto);
        lemma_fed_wf(lines, upto);
        lemma_items_prefix(lines, upto, upto);
        lemma_close_tracks(state, items, open, upto, true, 0);
        lemma_close_to(state, 0);
    }
}

/// The forest that `parse` makes of a text is what its lines mean.
pub proof fn lemma_parsed_is_meaning(text: Seq<char>)
    ensures
        crate::parse::parsed(text) == meaning(crate::text::lines_of(text)),
{
    lemma_built_is_meaning(crate::text::lines_of(text));
}

} // verus!
