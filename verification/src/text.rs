//! Characters, runs of characters, trimming and line splitting.
//!
//! Source text is handled as a sequence of Unicode scalar values. Everything the
//! grammar needs from a line is phrased over "runs": the longest stretch of
//! characters of one class that starts at a given position.
use vstd::prelude::*;

verus! {

/// Whether `c` is white space in the sense of Unicode, as `char::is_whitespace` reports it.
pub uninterp spec fn char_is_whitespace(c: char) -> bool;

/// Whether `c` is alphabetic or numeric in Unicode's sense, as `char::is_alphanumeric` reports it.
pub uninterp spec fn char_is_alphanumeric(c: char) -> bool;

/// `char::is_whitespace` of std: the result is a function of the character alone,
/// named here by `char_is_whitespace`.
pub assume_specification[ char::is_whitespace ](c: char) -> (b: bool)
    ensures
        b == char_is_whitespace(c),
;

/// `char::is_alphanumeric` of std: the result is a function of the character alone,
/// named here by `char_is_alphanumeric`.
pub assume_specification[ char::is_alphanumeric ](c: char) -> (b: bool)
    ensures
        b == char_is_alphanumeric(c),
;

/// `String::from_iter` of std on a slice of characters: the string holds exactly
/// those characters, in order.
#[verifier::external_body]
pub(crate) fn string_from_chars(chars: &[char]) -> (s: String)
    ensures
        s@ == chars@,
{
    String::from_iter(chars)
}

/// The classes of characters that the grammar scans runs of.
#[derive(Clone, Copy, Debug, PartialEq, Eq, Structural)]
pub enum CharClass {
    /// Unicode white space.
    Whitespace,
    /// Anything but Unicode white space.
    NonWhitespace,
    /// Space, tab, carriage return and line feed: what may stand between attributes.
    Separator,
    /// Alphanumeric characters, `-` and `_`: what a name is made of.
    Identifier,
    /// Anything but the given character.
    Except(char),
}

/// Whether `c` may stand in a tag name, an id, a class or an attribute key.
pub open spec fn is_identifier_char(c: char) -> bool {
    char_is_alphanumeric(c) || c == '-' || c == '_'
}

/// Whether `c` may separate one attribute from the next.
pub open spec fn is_separator_char(c: char) -> bool {
    c == ' ' || c == '\t' || c == '\r' || c == '\n'
}

impl CharClass {
    /// Membership of `c` in the class.
    pub open spec fn holds(self, c: char) -> bool {
        match self {
            CharClass::Whitespace => char_is_whitespace(c),
            CharClass::NonWhitespace => !char_is_whitespace(c),
            CharClass::Separator => is_separator_char(c),
            CharClass::Identifier => is_identifier_char(c),
            CharClass::Except(other) => c != other,
        }
    }

    /// Tests membership of `c` in the class.
    pub fn test(self, c: char) -> (b: bool)
        ensures
            b == self.holds(c),
    {
        match self {
            CharClass::Whitespace => c.is_whitespace(),
            CharClass::NonWhitespace => !c.is_whitespace(),
            CharClass::Separator => c == ' ' || c == '\t' || c == '\r' || c == '\n',
            CharClass::Identifier => c.is_alphanumeric() || c == '-' || c == '_',
            CharClass::Except(other) => c != other,
        }
    }
}

/// Whether `c` may stand in a name.
pub fn is_identifier(c: char) -> (b: bool)
    ensures
        b == is_identifier_char(c),
{
    CharClass::Identifier.test(c)
}

/// Whether `c` ends an unquoted attribute value.
pub fn is_spacer(c: char) -> (b: bool)
    ensures
        b == char_is_whitespace(c),
{
    c.is_whitespace()
}

/// Where the run of `class` that starts at `from` ends: the first position at or
/// after `from` that holds no character of the class, or the length of `s`.
pub open spec fn run_end(s: Seq<char>, from: int, class: CharClass) -> int
    decreases s.len() - from,
{
    if 0 <= from < s.len() && class.holds(s[from]) {
        run_end(s, from + 1, class)
    } else {
        from
    }
}

/// `run_end` is the one position that bounds a run: every character before it
/// belongs to the class, and the character at it, if any, does not.
pub proof fn lemma_run_end(s: Seq<char>, from: int, class: CharClass)
    requires
        0 <= from <= s.len(),
    ensures
        from <= run_end(s, from, class) <= s.len(),
        forall|i: int| from <= i < run_end(s, from, class) ==> class.holds(#[trigger] s[i]),
        run_end(s, from, class) < s.len() ==> !class.holds(s[run_end(s, from, class)]),
    decreases s.len() - from,
{
    if from < s.len() && class.holds(s[from]) {
        lemma_run_end(s, from + 1, class);
    }
}

/// A position that bounds a run is its end.
pub proof fn lemma_run_end_unique(s: Seq<char>, from: int, class: CharClass, end: int)
    requires
        0 <= from <= end <= s.len(),
        forall|i: int| from <= i < end ==> class.holds(#[trigger] s[i]),
        end < s.len() ==> !class.holds(s[end]),
    ensures
        run_end(s, from, class) == end,
    decreases end - from,
{
    if from < end {
        assert(class.holds(s[from]));
        lemma_run_end_unique(s, from + 1, class, end);
    }
}

/// Scans the run of `class` that starts at `from` and returns where it ends.
pub fn scan(s: &[char], from: usize, class: CharClass) -> (end: usize)
    requires
        from <= s@.len(),
    ensures
        end == run_end(s@, from as int, class),
        from <= end <= s@.len(),
{
    let mut end: usize = from;
    while end < s.len() && class.test(s[end])
        invariant
            from <= end <= s@.len(),
            forall|i: int| from <= i < end ==> class.holds(#[trigger] s@[i]),
        decreases s@.len() - end,
    {
        end += 1;
    }
    proof {
        lemma_run_end_unique(s@, from as int, class, end as int);
    }
    end
}

/// Where trailing white space begins: one past the last character that is not
/// white space, or 0 where there is none.
pub open spec fn trimmed_end(s: Seq<char>) -> int
    decreases s.len(),
{
    if s.len() > 0 && char_is_whitespace(s.last()) {
        trimmed_end(s.drop_last())
    } else {
        s.len() as int
    }
}

/// Where leading white space ends, never past `trimmed_end`.
pub open spec fn trimmed_start(s: Seq<char>) -> int {
    run_end(s.take(trimmed_end(s)), 0, CharClass::Whitespace)
}

/// `s` without its leading and trailing white space.
pub open spec fn trimmed(s: Seq<char>) -> Seq<char> {
    s.subrange(trimmed_start(s), trimmed_end(s))
}

/// `trimmed_end` is the one position after which all is white space and before
/// which stands a character that is not.
pub proof fn lemma_trimmed_end(s: Seq<char>)
    ensures
        0 <= trimmed_end(s) <= s.len(),
        forall|i: int| trimmed_end(s) <= i < s.len() ==> char_is_whitespace(#[trigger] s[i]),
        trimmed_end(s) > 0 ==> !char_is_whitespace(s[trimmed_end(s) - 1]),
    decreases s.len(),
{
    if s.len() > 0 && char_is_whitespace(s.last()) {
        let t = s.drop_last();
        lemma_trimmed_end(t);
        assert forall|i: int| trimmed_end(s) <= i < s.len() implies char_is_whitespace(
            #[trigger] s[i],
        ) by {
            if i < t.len() {
                assert(t[i] == s[i]);
            }
        }
        if trimmed_end(s) > 0 {
            assert(t[trimmed_end(s) - 1] == s[trimmed_end(s) - 1]);
        }
    }
}

/// A position that bounds the trailing white space is `trimmed_end`.
pub proof fn lemma_trimmed_end_unique(s: Seq<char>, end: int)
    requires
        0 <= end <= s.len(),
        forall|i: int| end <= i < s.len() ==> char_is_whitespace(#[trigger] s[i]),
        end > 0 ==> !char_is_whitespace(s[end - 1]),
    ensures
        trimmed_end(s) == end,
    decreases s.len(),
{
    if end < s.len() {
        assert(char_is_whitespace(s[s.len() - 1]));
        lemma_trimmed_end_unique(s.drop_last(), end);
    }
}

/// The bounds of a trimmed text lie in order inside it, and what lies between
/// them neither starts nor ends with white space.
pub proof fn lemma_trimmed(s: Seq<char>)
    ensures
        0 <= trimmed_start(s) <= trimmed_end(s) <= s.len(),
        trimmed(s).len() > 0 ==> !char_is_whitespace(trimmed(s).first())
            && !char_is_whitespace(trimmed(s).last()),
        trimmed(s).len() == 0 <==> (forall|i: int|
            0 <= i < s.len() ==> char_is_whitespace(#[trigger] s[i])),
{
    lemma_trimmed_end(s);
    let e = trimmed_end(s);
    lemma_run_end(s.take(e), 0, CharClass::Whitespace);
    let a = trimmed_start(s);
    if a < e {
        assert(s.take(e)[a] == s[a]);
        assert(trimmed(s).first() == s[a]);
        assert(trimmed(s).last() == s[e - 1]);
        assert(!char_is_whitespace(s[a]));
    } else {
        assert forall|i: int| 0 <= i < s.len() implies char_is_whitespace(#[trigger] s[i]) by {
            if i < e {
                assert(s.take(e)[i] == s[i]);
                assert(CharClass::Whitespace.holds(s.take(e)[i]));
            }
        }
    }
}

/// Trims the part of `s` from `from` to `to` and returns the bounds of what is left.
pub fn trim_bounds(s: &[char], from: usize, to: usize) -> (r: (usize, usize))
    requires
        from <= to <= s@.len(),
    ensures
        from <= r.0 <= r.1 <= to,
        r.0 == from + trimmed_start(s@.subrange(from as int, to as int)),
        r.1 == from + trimmed_end(s@.subrange(from as int, to as int)),
        s@.subrange(r.0 as int, r.1 as int) == trimmed(s@.subrange(from as int, to as int)),
{
    let ghost part = s@.subrange(from as int, to as int);
    let mut end: usize = to;
    while end > from && s[end - 1].is_whitespace()
        invariant
            from <= end <= to <= s@.len(),
            part == s@.subrange(from as int, to as int),
            forall|i: int| end - from <= i < part.len() ==> char_is_whitespace(#[trigger] part[i]),
        decreases end,
    {
        end -= 1;
    }
    proof {
        lemma_trimmed_end_unique(part, end - from);
    }
    let ghost head = part.take(end - from);
    let mut start: usize = from;
    while start < end && s[start].is_whitespace()
        invariant
            from <= start <= end <= to <= s@.len(),
            part == s@.subrange(from as int, to as int),
            head == part.take(end - from),
            forall|i: int| 0 <= i < start - from ==> CharClass::Whitespace.holds(#[trigger] head[i]),
        decreases end - start,
    {
        start += 1;
    }
    proof {
        lemma_run_end_unique(head, 0, CharClass::Whitespace, start - from);
        assert(s@.subrange(start as int, end as int) =~= part.subrange(start - from, end - from));
    }
    (start, end)
}

/// The string made of the characters of `s` from `from` to `to`.
pub fn string_of(s: &[char], from: usize, to: usize) -> (r: String)
    requires
        from <= to <= s@.len(),
    ensures
        r@ == s@.subrange(from as int, to as int),
{
    string_from_chars(vstd::slice::slice_subrange(s, from, to))
}

/// The characters of `s`, in order.
pub fn chars_of(s: &str) -> (v: Vec<char>)
    ensures
        v@ == s@,
{
    let mut v: Vec<char> = Vec::new();
    for c in it: s.chars()
        invariant
            v@ == it.seq().take(it.index()),
    {
        v.push(c);
    }
    v
}

/// Whether two strings hold the same characters.
pub fn str_eq(a: &str, b: &str) -> (same: bool)
    ensures
        same == (a@ == b@),
{
    let n = a.unicode_len();
    if n != b.unicode_len() {
        return false;
    }
    let mut i: usize = 0;
    while i < n
        invariant
            i <= n,
            n == a@.len(),
            n == b@.len(),
            forall|j: int| 0 <= j < i ==> a@[j] == b@[j],
        decreases n - i,
    {
        if a.get_char(i) != b.get_char(i) {
            return false;
        }
        i += 1;
    }
    assert(a@ =~= b@);
    true
}

/// `None` for the empty string, the string itself otherwise.
pub fn noneify_blank_string(s: String) -> (r: Option<String>)
    ensures
        s@.len() == 0 ==> r is None,
        s@.len() > 0 ==> r == Some(s),
{
    if s.as_str().is_empty() {
        None
    } else {
        Some(s)
    }
}

/// Where the first line of `s` ends: the position of its first line feed, or its length.
pub open spec fn line_end(s: Seq<char>) -> int
    decreases s.len(),
{
    if s.len() > 0 && s[0] != '\n' {
        1 + line_end(s.drop_first())
    } else {
        0
    }
}

/// A line as it was cut at a line feed, without the carriage return before that
/// line feed, if there was one.
pub open spec fn without_carriage_return(line: Seq<char>) -> Seq<char> {
    if line.len() > 0 && line.last() == '\r' {
        line.drop_last()
    } else {
        line
    }
}

/// The lines of a text. A line ends at a line feed, or at a carriage return
/// directly followed by one; neither belongs to the line. What follows the last
/// line feed is a line of its own unless it is empty.
pub open spec fn lines_of(s: Seq<char>) -> Seq<Seq<char>>
    decreases s.len(),
{
    if s.len() == 0 {
        Seq::empty()
    } else {
        let end = line_end(s);
        if end == s.len() {
            seq![s]
        } else if 0 <= end < s.len() {
            seq![without_carriage_return(s.take(end))] + lines_of(s.skip(end + 1))
        } else {
            Seq::empty()
        }
    }
}

/// `line_end` is the position of the first line feed, or the length.
pub proof fn lemma_line_end(s: Seq<char>)
    ensures
        0 <= line_end(s) <= s.len(),
        forall|i: int| 0 <= i < line_end(s) ==> #[trigger] s[i] != '\n',
        line_end(s) < s.len() ==> s[line_end(s)] == '\n',
    decreases s.len(),
{
    if s.len() > 0 && s[0] != '\n' {
        let t = s.drop_first();
        lemma_line_end(t);
        assert forall|i: int| 0 <= i < line_end(s) implies #[trigger] s[i] != '\n' by {
            if i > 0 {
                assert(t[i - 1] == s[i]);
            }
        }
        if line_end(s) < s.len() {
            assert(t[line_end(t)] == s[line_end(s)]);
        }
    }
}

/// No line holds a line feed.
pub proof fn lemma_lines_hold_no_line_feed(s: Seq<char>)
    ensures
        forall|i: int, j: int|
            0 <= i < lines_of(s).len() && 0 <= j < lines_of(s)[i].len() ==> (
            #[trigger] lines_of(s)[i][j]) != '\n',
    decreases s.len(),
{
    if s.len() > 0 {
        lemma_line_end(s);
        let end = line_end(s);
        if end < s.len() {
            let rest = s.skip(end + 1);
            lemma_lines_hold_no_line_feed(rest);
            let first = without_carriage_return(s.take(end));
            assert forall|i: int, j: int|
                0 <= i < lines_of(s).len() && 0 <= j < lines_of(s)[i].len() implies (
            #[trigger] lines_of(s)[i][j]) != '\n' by {
                if i == 0 {
                    assert(lines_of(s)[0] == first);
                    assert(first[j] == s[j]);
                } else {
                    assert(lines_of(s)[i] == lines_of(rest)[i - 1]);
                }
            }
        }
    }
}

/// A position that no line feed precedes and that holds one, or the length, is `line_end`.
pub proof fn lemma_line_end_unique(s: Seq<char>, end: int)
    requires
        0 <= end <= s.len(),
        forall|i: int| 0 <= i < end ==> #[trigger] s[i] != '\n',
        end < s.len() ==> s[end] == '\n',
    ensures
        line_end(s) == end,
    decreases s.len(),
{
    if end > 0 {
        assert(s[0] != '\n');
        let t = s.drop_first();
        assert forall|i: int| 0 <= i < end - 1 implies #[trigger] t[i] != '\n' by {
            assert(t[i] == s[i + 1]);
        }
        lemma_line_end_unique(t, end - 1);
    }
}

/// Splits a text into its lines.
pub fn split_lines(s: &[char]) -> (lines: Vec<Vec<char>>)
    ensures
        lines@.len() == lines_of(s@).len(),
        forall|i: int| 0 <= i < lines@.len() ==> (#[trigger] lines@[i])@ == lines_of(s@)[i],
{
    let mut lines: Vec<Vec<char>> = Vec::new();
    let mut start: usize = 0;
    proof {
        assert(s@.skip(0) =~= s@);
        assert(lines@.map_values(|l: Vec<char>| l@) + lines_of(s@) =~= lines_of(s@));
    }
    while start < s.len()
        invariant
            start <= s@.len(),
            lines_of(s@) == lines@.map_values(|l: Vec<char>| l@) + lines_of(s@.skip(start as int)),
        decreases s@.len() - start,
    {
        let ghost rest = s@.skip(start as int);
        let mut end: usize = start;
        while end < s.len() && s[end] != '\n'
            invariant
                start <= end <= s@.len(),
                rest == s@.skip(start as int),
                forall|i: int| 0 <= i < end - start ==> #[trigger] rest[i] != '\n',
            decreases s@.len() - end,
        {
            end += 1;
        }
        proof {
            lemma_line_end_unique(rest, end - start);
        }
        let terminated = end < s.len();
        let mut stop: usize = end;
        if terminated && end > start && s[end - 1] == '\r' {
            stop = end - 1;
        }
        let line = vstd::slice::slice_to_vec(vstd::slice::slice_subrange(s, start, stop));
        proof {
            let cut = rest.take(end - start);
            assert(cut =~= s@.subrange(start as int, end as int));
            if terminated {
                assert(line@ =~= without_carriage_return(cut));
                assert(rest.skip(end - start + 1) =~= s@.skip(end + 1));
                assert(lines_of(rest) == seq![without_carriage_return(cut)] + lines_of(
                    s@.skip(end + 1),
                ));
            } else {
                assert(line@ =~= rest);
                assert(s@.skip(s@.len() as int) =~= Seq::<char>::empty());
                assert(lines_of(rest) =~= seq![rest] + lines_of(s@.skip(s@.len() as int)));
            }
            let before = lines@.map_values(|l: Vec<char>| l@);
            let after = lines@.push(line).map_values(|l: Vec<char>| l@);
            assert(after =~= before + seq![line@]);
        }
        lines.push(line);
        start = if terminated {
            end + 1
        } else {
            end
        };
    }
    proof {
        assert(s@.skip(start as int).len() == 0);
        let mapped = lines@.map_values(|l: Vec<char>| l@);
        assert(lines_of(s@) =~= mapped);
        assert forall|i: int| 0 <= i < lines@.len() implies (#[trigger] lines@[i])@ == lines_of(
            s@,
        )[i] by {
            assert(mapped[i] == lines@[i]@);
        }
    }
    lines
}

} // verus!
