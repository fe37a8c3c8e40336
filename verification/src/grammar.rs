//! The grammar of one line, taken after its indentation.
//!
//! The alternatives are tried in a fixed order and the first that matches wins:
//! a doctype line, the opener of a raw-text block, an element line, a directive
//! line, a text line. A line that matches none of them is not in the language.
use vstd::prelude::*;
use crate::text::{
    char_is_whitespace, lemma_run_end, lemma_trimmed, noneify_blank_string, run_end, scan,
    string_of, trim_bounds, trimmed, CharClass,
};

verus! {

/// One `#id` or `.class` token of an element line.
#[derive(Debug)]
pub enum ClassId {
    Id(String),
    Class(String),
}

/// An element line, taken apart.
#[derive(Debug)]
pub struct HtmlElement {
    pub tag: Option<String>,
    pub classes_ids: Vec<ClassId>,
    pub attributes: Vec<(String, String)>,
    pub inner_text: Option<String>,
}

/// What a line says.
#[derive(Debug)]
pub enum LineContent {
    Javascript,
    Doctype(String),
    Element(HtmlElement),
    Directive(String),
    Text(String),
}

/// What a `ClassId` is.
pub enum ClassIdView {
    Id(Seq<char>),
    Class(Seq<char>),
}

/// What an `HtmlElement` is.
pub struct HtmlElementView {
    pub tag: Option<Seq<char>>,
    pub classes_ids: Seq<ClassIdView>,
    pub attributes: Seq<(Seq<char>, Seq<char>)>,
    pub inner_text: Option<Seq<char>>,
}

/// What a `LineContent` is.
pub enum LineView {
    Javascript,
    Doctype(Seq<char>),
    Element(HtmlElementView),
    Directive(Seq<char>),
    Text(Seq<char>),
}

impl View for ClassId {
    type V = ClassIdView;

    open spec fn view(&self) -> ClassIdView {
        match *self {
            ClassId::Id(s) => ClassIdView::Id(s@),
            ClassId::Class(s) => ClassIdView::Class(s@),
        }
    }
}

/// The tokens as their models, in order.
pub open spec fn class_ids_view(tokens: Seq<ClassId>) -> Seq<ClassIdView> {
    Seq::new(tokens.len(), |i: int| tokens[i]@)
}

/// An optional string as an optional sequence of characters.
pub open spec fn option_view(s: Option<String>) -> Option<Seq<char>> {
    match s {
        Some(s) => Some(s@),
        None => None,
    }
}

impl View for HtmlElement {
    type V = HtmlElementView;

    open spec fn view(&self) -> HtmlElementView {
        HtmlElementView {
            tag: option_view(self.tag),
            classes_ids: class_ids_view(self.classes_ids@),
            attributes: crate::pairs_view(self.attributes@),
            inner_text: option_view(self.inner_text),
        }
    }
}

impl View for LineContent {
    type V = LineView;

    open spec fn view(&self) -> LineView {
        match *self {
            LineContent::Javascript => LineView::Javascript,
            LineContent::Doctype(s) => LineView::Doctype(s@),
            LineContent::Element(e) => LineView::Element(e@),
            LineContent::Directive(s) => LineView::Directive(s@),
            LineContent::Text(s) => LineView::Text(s@),
        }
    }
}

/// Whether `word` stands in `s` at position `at`.
pub open spec fn has_word_at(s: Seq<char>, at: int, word: Seq<char>) -> bool {
    0 <= at && at + word.len() <= s.len() && s.subrange(at, at + word.len()) == word
}

/// The keyword of a doctype line.
pub open spec fn doctype_word() -> Seq<char> {
    "doctype"@
}

/// The marker that opens a raw-text block.
pub open spec fn javascript_word() -> Seq<char> {
    ":javascript"@
}

/// A doctype line: the keyword, a space or a tab, and the declaration, trimmed.
pub open spec fn doctype_line(s: Seq<char>) -> Option<LineView> {
    let after = doctype_word().len() as int;
    if has_word_at(s, 0, doctype_word()) && after < s.len() && (s[after] == ' ' || s[after]
        == '\t') {
        Some(LineView::Doctype(trimmed(s.skip(after + 1))))
    } else {
        None
    }
}

/// The tokens that a scan has read and the position at which it stopped.
pub struct Scanned<T> {
    pub items: Seq<T>,
    pub end: int,
}

/// The `#id` or `.class` token that starts at `at`, with the position after it.
pub open spec fn class_id_at(s: Seq<char>, at: int) -> Option<(ClassIdView, int)> {
    let end = run_end(s, at + 1, CharClass::Identifier);
    if 0 <= at < s.len() && (s[at] == '.' || s[at] == '#') && at + 1 < end <= s.len() {
        let name = s.subrange(at + 1, end);
        if s[at] == '.' {
            Some((ClassIdView::Class(name), end))
        } else {
            Some((ClassIdView::Id(name), end))
        }
    } else {
        None
    }
}

/// The `#id` and `.class` tokens that follow one another from `at` on.
pub open spec fn class_ids_from(s: Seq<char>, at: int) -> Scanned<ClassIdView>
    decreases s.len() - at,
{
    match class_id_at(s, at) {
        Some((token, end)) => {
            let rest = class_ids_from(s, end);
            Scanned { items: seq![token] + rest.items, end: rest.end }
        },
        None => Scanned { items: Seq::empty(), end: at },
    }
}

/// The `key=value` token that starts at `at`, with the position after it. The
/// value is what stands between two double quotes, or else what stands before
/// the next white space.
pub open spec fn attribute_at(s: Seq<char>, at: int) -> Option<((Seq<char>, Seq<char>), int)> {
    let equals = run_end(s, at, CharClass::Identifier);
    if 0 <= at < equals < s.len() && s[equals] == '=' {
        let key = s.subrange(at, equals);
        let start = equals + 1;
        let closing = run_end(s, start + 1, CharClass::Except('"'));
        if start < s.len() && s[start] == '"' && closing < s.len() {
            Some(((key, s.subrange(start + 1, closing)), closing + 1))
        } else {
            let end = run_end(s, start, CharClass::NonWhitespace);
            Some(((key, s.subrange(start, end)), end))
        }
    } else {
        None
    }
}

/// The `key=value` tokens from `at` on. Separators may stand before and after
/// each. `end` is where the first text begins that is no such token.
pub open spec fn attributes_from(s: Seq<char>, at: int) -> Scanned<(Seq<char>, Seq<char>)>
    decreases s.len() - at,
    via attributes_from_decreases
{
    let start = run_end(s, at, CharClass::Separator);
    match attribute_at(s, start) {
        Some((pair, end)) => {
            let rest = attributes_from(s, run_end(s, end, CharClass::Separator));
            Scanned { items: seq![pair] + rest.items, end: rest.end }
        },
        None => Scanned { items: Seq::empty(), end: at },
    }
}

#[via_fn]
proof fn attributes_from_decreases(s: Seq<char>, at: int) {
    let start = run_end(s, at, CharClass::Separator);
    if attribute_at(s, start) is Some {
        lemma_attribute_at(s, start);
        if 0 <= at <= s.len() {
            lemma_run_end(s, at, CharClass::Separator);
        }
        lemma_run_end(s, (attribute_at(s, start)->0).1, CharClass::Separator);
    }
}

/// A `key=value` token is not empty and ends inside the line.
pub proof fn lemma_attribute_at(s: Seq<char>, at: int)
    requires
        attribute_at(s, at) is Some,
    ensures
        0 <= at < (attribute_at(s, at)->0).1 <= s.len(),
{
    let equals = run_end(s, at, CharClass::Identifier);
    lemma_run_end(s, equals + 1, CharClass::NonWhitespace);
    if equals + 2 <= s.len() {
        lemma_run_end(s, equals + 2, CharClass::Except('"'));
    }
}

/// `None` for no characters, the characters otherwise.
pub open spec fn noneify_blank(s: Seq<char>) -> Option<Seq<char>> {
    if s.len() == 0 {
        None
    } else {
        Some(s)
    }
}

/// An element line: a tag name, then `#id` and `.class` tokens, then
/// `key=value` tokens, then the inner text. The tag name may be missing where
/// at least one `#id` or `.class` token stands.
pub open spec fn element_line(s: Seq<char>) -> Option<LineView> {
    let tag_end = run_end(s, 0, CharClass::Identifier);
    let tokens = class_ids_from(s, tag_end);
    let attributes = attributes_from(s, tokens.end);
    if 0 < tag_end <= s.len() || tokens.items.len() > 0 {
        Some(
            LineView::Element(
                HtmlElementView {
                    tag: if tag_end > 0 {
                        Some(s.take(tag_end))
                    } else {
                        None
                    },
                    classes_ids: tokens.items,
                    attributes: attributes.items,
                    inner_text: noneify_blank(trimmed(s.skip(attributes.end))),
                },
            ),
        )
    } else {
        None
    }
}

/// What a line says, its indentation taken off; `None` where it is not in the language.
pub open spec fn line_grammar(s: Seq<char>) -> Option<LineView> {
    if doctype_line(s) is Some {
        doctype_line(s)
    } else if has_word_at(s, 0, javascript_word()) {
        Some(LineView::Javascript)
    } else if element_line(s) is Some {
        element_line(s)
    } else if s.len() > 0 && s[0] == '=' {
        Some(LineView::Directive(trimmed(s.skip(1))))
    } else if s.len() > 0 && s[0] == '|' {
        Some(LineView::Text(trimmed(s.skip(1))))
    } else {
        None
    }
}

/// The inner text of an element line, where it has one, is not empty and
/// neither starts nor ends with white space.
pub proof fn lemma_inner_text_is_trimmed(s: Seq<char>)
    requires
        element_line(s) is Some,
    ensures
        element_line(s)->0 matches LineView::Element(e) && match e.inner_text {
            Some(text) => text.len() > 0 && !char_is_whitespace(text.first())
                && !char_is_whitespace(text.last()),
            None => true,
        },
{
    let tokens = class_ids_from(s, run_end(s, 0, CharClass::Identifier));
    lemma_trimmed(s.skip(attributes_from(s, tokens.end).end));
}

/// The scans stop inside the line, at or after the position they began at.
pub proof fn lemma_scans_in_bounds(s: Seq<char>, at: int)
    requires
        0 <= at <= s.len(),
    ensures
        at <= class_ids_from(s, at).end <= s.len(),
        at <= attributes_from(s, at).end <= s.len(),
    decreases s.len() - at,
{
    match class_id_at(s, at) {
        Some((token, end)) => {
            lemma_scans_in_bounds(s, end);
        },
        None => {},
    }
    lemma_run_end(s, at, CharClass::Separator);
    let start = run_end(s, at, CharClass::Separator);
    match attribute_at(s, start) {
        Some((pair, end)) => {
            lemma_attribute_at(s, start);
            lemma_run_end(s, end, CharClass::Separator);
            lemma_scans_in_bounds(s, run_end(s, end, CharClass::Separator));
        },
        None => {},
    }
}

/// Whether `word` stands in `s` at position `at`.
pub fn word_at(s: &[char], at: usize, word: &str) -> (found: bool)
    requires
        at <= s@.len(),
    ensures
        found == has_word_at(s@, at as int, word@),
{
    let n = word.unicode_len();
    let len = s.len();
    if n > len - at {
        return false;
    }
    let mut i: usize = 0;
    while i < n
        invariant
            i <= n,
            len == s@.len(),
            n == word@.len(),
            at + n <= s@.len(),
            forall|j: int| 0 <= j < i ==> s@[at + j] == #[trigger] word@[j],
        decreases n - i,
    {
        if s[at + i] != word.get_char(i) {
            assert(s@.subrange(at as int, at + n)[i as int] != word@[i as int]);
            return false;
        }
        i += 1;
    }
    assert(s@.subrange(at as int, at + n) =~= word@);
    true
}

/// The trimmed text of `s` from `from` on, as a string.
pub fn trimmed_rest(s: &[char], from: usize) -> (r: String)
    requires
        from <= s@.len(),
    ensures
        r@ == trimmed(s@.skip(from as int)),
{
    let bounds = trim_bounds(s, from, s.len());
    assert(s@.skip(from as int) =~= s@.subrange(from as int, s@.len() as int));
    string_of(s, bounds.0, bounds.1)
}

/// Reads the `#id` and `.class` tokens from `at` on.
pub fn read_class_ids(s: &[char], at: usize) -> (r: (Vec<ClassId>, usize))
    requires
        at <= s@.len(),
    ensures
        class_ids_view(r.0@) == class_ids_from(s@, at as int).items,
        r.1 == class_ids_from(s@, at as int).end,
        at <= r.1 <= s@.len(),
{
    let mut tokens: Vec<ClassId> = Vec::new();
    let mut pos: usize = at;
    proof {
        lemma_scans_in_bounds(s@, at as int);
        assert(class_ids_view(tokens@) + class_ids_from(s@, pos as int).items =~= class_ids_from(
            s@,
            at as int,
        ).items);
    }
    loop
        invariant
            at <= pos <= s@.len(),
            class_ids_view(tokens@) + class_ids_from(s@, pos as int).items == class_ids_from(
                s@,
                at as int,
            ).items,
            class_ids_from(s@, pos as int).end == class_ids_from(s@, at as int).end,
        ensures
            class_ids_view(tokens@) == class_ids_from(s@, at as int).items,
            pos == class_ids_from(s@, at as int).end,
            at <= pos <= s@.len(),
        decreases s@.len() - pos,
    {
        if pos >= s.len() || (s[pos] != '.' && s[pos] != '#') {
            assert(class_id_at(s@, pos as int) is None);
            assert(class_ids_view(tokens@) + Seq::<ClassIdView>::empty() =~= class_ids_view(
                tokens@,
            ));
            break ;
        }
        let end = scan(s, pos + 1, CharClass::Identifier);
        if end == pos + 1 {
            assert(class_id_at(s@, pos as int) is None);
            assert(class_ids_view(tokens@) + Seq::<ClassIdView>::empty() =~= class_ids_view(
                tokens@,
            ));
            break ;
        }
        let name = string_of(s, pos + 1, end);
        let token = if s[pos] == '.' {
            ClassId::Class(name)
        } else {
            ClassId::Id(name)
        };
        proof {
            let rest = class_ids_from(s@, end as int);
            assert(class_id_at(s@, pos as int) == Some((token@, end as int)));
            assert(class_ids_from(s@, pos as int).items == seq![token@] + rest.items);
            assert(class_ids_view(tokens@.push(token)) =~= class_ids_view(tokens@) + seq![token@]);
            assert(class_ids_view(tokens@.push(token)) + rest.items =~= class_ids_view(tokens@) + (
            seq![token@] + rest.items));
        }
        tokens.push(token);
        pos = end;
    }
    (tokens, pos)
}

/// Reads the `key=value` token that starts at `at`.
pub fn read_attribute(s: &[char], at: usize) -> (r: Option<((String, String), usize)>)
    requires
        at <= s@.len(),
    ensures
        match r {
            Some((pair, end)) => attribute_at(s@, at as int) == Some(
                ((pair.0@, pair.1@), end as int),
            ) && at < end <= s@.len(),
            None => attribute_at(s@, at as int) is None,
        },
{
    let equals = scan(s, at, CharClass::Identifier);
    if equals == at || equals >= s.len() || s[equals] != '=' {
        return None;
    }
    let key = string_of(s, at, equals);
    let start = equals + 1;
    if start < s.len() && s[start] == '"' {
        let closing = scan(s, start + 1, CharClass::Except('"'));
        if closing < s.len() {
            let value = string_of(s, start + 1, closing);
            return Some(((key, value), closing + 1));
        }
    }
    let end = scan(s, start, CharClass::NonWhitespace);
    let value = string_of(s, start, end);
    Some(((key, value), end))
}

/// Reads the `key=value` tokens from `at` on.
pub fn read_attributes(s: &[char], at: usize) -> (r: (Vec<(String, String)>, usize))
    requires
        at <= s@.len(),
    ensures
        crate::pairs_view(r.0@) == attributes_from(s@, at as int).items,
        r.1 == attributes_from(s@, at as int).end,
        at <= r.1 <= s@.len(),
{
    let mut pairs: Vec<(String, String)> = Vec::new();
    let mut pos: usize = at;
    proof {
        lemma_scans_in_bounds(s@, at as int);
        assert(crate::pairs_view(pairs@) + attributes_from(s@, pos as int).items
            =~= attributes_from(s@, at as int).items);
    }
    loop
        invariant
            at <= pos <= s@.len(),
            crate::pairs_view(pairs@) + attributes_from(s@, pos as int).items == attributes_from(
                s@,
                at as int,
            ).items,
            attributes_from(s@, pos as int).end == attributes_from(s@, at as int).end,
        ensures
            crate::pairs_view(pairs@) == attributes_from(s@, at as int).items,
            pos == attributes_from(s@, at as int).end,
            at <= pos <= s@.len(),
        decreases s@.len() - pos,
    {
        let start = scan(s, pos, CharClass::Separator);
        match read_attribute(s, start) {
            None => {
                assert(crate::pairs_view(pairs@) + Seq::<(Seq<char>, Seq<char>)>::empty()
                    =~= crate::pairs_view(pairs@));
                break ;
            },
            Some((pair, end)) => {
                let next = scan(s, end, CharClass::Separator);
                proof {
                    let rest = attributes_from(s@, next as int);
                    let item = (pair.0@, pair.1@);
                    assert(attributes_from(s@, pos as int).items == seq![item] + rest.items);
                    assert(crate::pairs_view(pairs@.push(pair)) =~= crate::pairs_view(pairs@)
                        + seq![item]);
                    assert(crate::pairs_view(pairs@.push(pair)) + rest.items =~= crate::pairs_view(
                        pairs@,
                    ) + (seq![item] + rest.items));
                }
                pairs.push(pair);
                pos = next;
            },
        }
    }
    (pairs, pos)
}

/// Reads one line, its indentation taken off.
pub fn line_p(s: &[char]) -> (r: Option<LineContent>)
    ensures
        match r {
            Some(content) => line_grammar(s@) == Some(content@),
            None => line_grammar(s@) is None,
        },
{
    if word_at(s, 0, "doctype") {
        let after = "doctype".unicode_len();
        if after < s.len() && (s[after] == ' ' || s[after] == '\t') {
            return Some(LineContent::Doctype(trimmed_rest(s, after + 1)));
        }
    }
    if word_at(s, 0, ":javascript") {
        return Some(LineContent::Javascript);
    }
    let tag_end = scan(s, 0, CharClass::Identifier);
    let (tokens, tokens_end) = read_class_ids(s, tag_end);
    if tag_end > 0 || tokens.len() > 0 {
        let (attributes, attributes_end) = read_attributes(s, tokens_end);
        let tag = if tag_end > 0 {
            assert(s@.take(tag_end as int) =~= s@.subrange(0, tag_end as int));
            Some(string_of(s, 0, tag_end))
        } else {
            None
        };
        let inner_text = noneify_blank_string(trimmed_rest(s, attributes_end));
        let parsed = HtmlElement { tag, classes_ids: tokens, attributes, inner_text };
        return Some(LineContent::Element(parsed));
    }
    if s.len() > 0 && s[0] == '=' {
        return Some(LineContent::Directive(trimmed_rest(s, 1)));
    }
    if s.len() > 0 && s[0] == '|' {
        return Some(LineContent::Text(trimmed_rest(s, 1)));
    }
    None
}

} // verus!
