//! The commands of the directives that a site's documents use, as the host's
//! handler tells them apart.
//!
//! A command is cut at each single space. Its first word picks what is done:
//! `yield` writes out the block that the document was given, `include` pulls in
//! the document that the second word names and gives it the nodes nested under
//! the directive, `doctype` writes a doctype declaration.
use vstd::prelude::*;
use crate::text::{chars_of, run_end, scan, str_eq, string_of, CharClass};

verus! {

/// What a directive asks for.
#[derive(Debug)]
pub enum Command {
    /// Write out the block that the document was given.
    Yield,
    /// Pull in the document of this name.
    Include(String),
    /// Write the doctype declaration.
    Doctype,
    /// None of these.
    Unrecognized,
}

/// What a `Command` is.
pub enum CommandView {
    Yield,
    Include(Seq<char>),
    Doctype,
    Unrecognized,
}

impl View for Command {
    type V = CommandView;

    open spec fn view(&self) -> CommandView {
        match *self {
            Command::Yield => CommandView::Yield,
            Command::Include(name) => CommandView::Include(name@),
            Command::Doctype => CommandView::Doctype,
            Command::Unrecognized => CommandView::Unrecognized,
        }
    }
}

/// Where the first word of a command ends: at its first space, or at its end.
pub open spec fn first_word_end(command: Seq<char>) -> int {
    run_end(command, 0, CharClass::Except(' '))
}

/// The first word of a command.
pub open spec fn first_word(command: Seq<char>) -> Seq<char> {
    command.take(first_word_end(command))
}

/// The second word of a command: what stands between its first space and its
/// second. It is empty where the second space follows the first directly, and
/// there is none where the command holds no space.
pub open spec fn second_word(command: Seq<char>) -> Option<Seq<char>> {
    let start = first_word_end(command) + 1;
    if 0 < start <= command.len() {
        Some(command.subrange(start, run_end(command, start, CharClass::Except(' '))))
    } else {
        None
    }
}

/// What a command asks for.
pub open spec fn command_of(command: Seq<char>) -> CommandView {
    if first_word(command) == "yield"@ {
        CommandView::Yield
    } else if first_word(command) == "include"@ {
        match second_word(command) {
            Some(name) => CommandView::Include(name),
            None => CommandView::Unrecognized,
        }
    } else if first_word(command) == "doctype"@ {
        CommandView::Doctype
    } else {
        CommandView::Unrecognized
    }
}

/// The declaration that the `doctype` directive writes.
pub open spec fn doctype_declaration() -> Seq<char> {
    "<!DOCTYPE html>"@
}

/// The declaration that the `doctype` directive writes.
pub fn doctype_text() -> (text: &'static str)
    ensures
        text@ == doctype_declaration(),
{
    "<!DOCTYPE html>"
}

/// Tells what a command asks for.
pub fn command_for(command: &str) -> (r: Command)
    ensures
        r@ == command_of(command@),
{
    let chars = chars_of(command);
    let end = scan(chars.as_slice(), 0, CharClass::Except(' '));
    let first = string_of(chars.as_slice(), 0, end);
    assert(first@ =~= first_word(command@));
    if str_eq(first.as_str(), "yield") {
        Command::Yield
    } else if str_eq(first.as_str(), "include") {
        if end < chars.len() {
            let stop = scan(chars.as_slice(), end + 1, CharClass::Except(' '));
            Command::Include(string_of(chars.as_slice(), end + 1, stop))
        } else {
            Command::Unrecognized
        }
    } else if str_eq(first.as_str(), "doctype") {
        Command::Doctype
    } else {
        Command::Unrecognized
    }
}

} // verus!
