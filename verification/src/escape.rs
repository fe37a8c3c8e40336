//! Escaping of attribute values.
//!
//! A value is written between double quotes, so the double quote, the backslash
//! and everything that is not printable ASCII is written as an escape.
use vstd::prelude::*;
use crate::text::string_from_chars;

verus! {

/// The sixteen hexadecimal digits, in order.
pub open spec fn hex_alphabet() -> Seq<char> {
    "0123456789abcdef"@
}

/// `n` in hexadecimal: lower case, without leading zeros, at least one digit.
pub open spec fn hex_digits(n: nat) -> Seq<char>
    decreases n,
{
    if n < 16 {
        seq![hex_alphabet()[n as int]]
    } else {
        hex_digits(n / 16).push(hex_alphabet()[(n % 16) as int])
    }
}

/// Whether `c` is written as it is: the printable ASCII characters but the
/// quotes and the backslash.
pub open spec fn is_plain(c: char) -> bool {
    0x20 <= c as u32 <= 0x7e && c != '"' && c != '\'' && c != '\\'
}

/// How one character of a value is written.
pub open spec fn escaped_char(c: char) -> Seq<char> {
    if c == '\t' {
        seq!['\\', 't']
    } else if c == '\r' {
        seq!['\\', 'r']
    } else if c == '\n' {
        seq!['\\', 'n']
    } else if c == '\'' || c == '"' || c == '\\' {
        seq!['\\', c]
    } else if is_plain(c) {
        seq![c]
    } else {
        seq!['\\', 'u', '{'] + hex_digits(c as u32 as nat) + seq!['}']
    }
}

/// How a value is written: each of its characters escaped, in order.
pub open spec fn escaped(value: Seq<char>) -> Seq<char>
    decreases value.len(),
{
    if value.len() == 0 {
        Seq::empty()
    } else {
        escaped(value.drop_last()) + escaped_char(value.last())
    }
}

/// Appends `n` in hexadecimal to `out`.
pub fn push_hex(out: &mut Vec<char>, n: u32)
    ensures
        final(out)@ == old(out)@ + hex_digits(n as nat),
    decreases n,
{
    proof {
        reveal_strlit("0123456789abcdef");
    }
    if n >= 16 {
        push_hex(out, n / 16);
    }
    let digit: usize = (n % 16) as usize;
    out.push("0123456789abcdef".get_char(digit));
    proof {
        if n >= 16 {
            assert(out@ =~= old(out)@ + hex_digits((n / 16) as nat).push(
                hex_alphabet()[(n % 16) as int],
            ));
        } else {
            assert(out@ =~= old(out)@ + seq![hex_alphabet()[n as int]]);
        }
    }
}

/// Appends the escape of `c` to `out`.
pub fn push_escaped(out: &mut Vec<char>, c: char)
    ensures
        final(out)@ == old(out)@ + escaped_char(c),
{
    if c == '\t' {
        out.push('\\');
        out.push('t');
        assert(out@ =~= old(out)@ + seq!['\\', 't']);
    } else if c == '\r' {
        out.push('\\');
        out.push('r');
        assert(out@ =~= old(out)@ + seq!['\\', 'r']);
    } else if c == '\n' {
        out.push('\\');
        out.push('n');
        assert(out@ =~= old(out)@ + seq!['\\', 'n']);
    } else if c == '\'' || c == '"' || c == '\\' {
        out.push('\\');
        out.push(c);
        assert(out@ =~= old(out)@ + seq!['\\', c]);
    } else if ' ' <= c && c <= '~' {
        out.push(c);
        assert(out@ =~= old(out)@ + seq![c]);
    } else {
        out.push('\\');
        out.push('u');
        out.push('{');
        push_hex(out, c as u32);
        out.push('}');
        assert(out@ =~= old(out)@ + (seq!['\\', 'u', '{'] + hex_digits(c as u32 as nat) + seq![
            '}',
        ]));
    }
}

/// Escapes a value for writing between double quotes.
pub fn escape_default(value: &str) -> (r: String)
    ensures
        r@ == escaped(value@),
{
    let mut out: Vec<char> = Vec::new();
    for c in it: value.chars()
        invariant
            out@ == escaped(it.seq().take(it.index())),
    {
        proof {
            let upto = it.seq().take(it.index() + 1);
            assert(upto.drop_last() =~= it.seq().take(it.index()));
            assert(upto.last() == c);
        }
        push_escaped(&mut out, c);
    }
    proof {
        assert(value@.take(value@.len() as int) =~= value@);
    }
    string_from_chars(out.as_slice())
}

} // verus!
