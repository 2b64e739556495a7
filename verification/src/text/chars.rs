//! Character classes of the lexical grammar.

use vstd::prelude::*;

verus! {

/// Blank characters: space, horizontal tab, line feed and carriage return.
pub open spec fn space(c: char) -> bool {
    c == ' ' || c == '\t' || c == '\n' || c == '\r'
}

/// ASCII decimal digits.
pub open spec fn digit(c: char) -> bool {
    '0' <= c <= '9'
}

/// ASCII hexadecimal digits, in either case.
pub open spec fn hex_digit(c: char) -> bool {
    digit(c) || 'a' <= c <= 'f' || 'A' <= c <= 'F'
}

/// ASCII lowercase letters.
pub open spec fn lower(c: char) -> bool {
    'a' <= c <= 'z'
}

/// The punctuation that may occur inside identifiers, keywords and reserved words.
pub open spec fn idpunct(c: char) -> bool {
    c == '!' || c == '#' || c == '$' || c == '%' || c == '&' || c == '\'' || c == '*' || c == '+'
        || c == '-' || c == '.' || c == '/' || c == ':' || c == '<' || c == '=' || c == '>'
        || c == '?' || c == '@' || c == '\\' || c == '^' || c == '_' || c == '`' || c == '|'
        || c == '~'
}

/// The characters of identifiers, keywords and reserved words: ASCII letters and
/// digits together with [`idpunct`].
pub open spec fn idchar(c: char) -> bool {
    digit(c) || lower(c) || 'A' <= c <= 'Z' || idpunct(c)
}

/// The number a decimal or hexadecimal digit stands for.
pub open spec fn digit_value(c: char) -> nat {
    if digit(c) {
        (c as nat - '0' as nat) as nat
    } else if 'a' <= c <= 'f' {
        (c as nat - 'a' as nat + 10) as nat
    } else {
        (c as nat - 'A' as nat + 10) as nat
    }
}

pub fn is_space(c: char) -> (b: bool)
    ensures
        b == space(c),
{
    c == ' ' || c == '\t' || c == '\n' || c == '\r'
}

pub fn is_digit(c: char) -> (b: bool)
    ensures
        b == digit(c),
{
    '0' <= c && c <= '9'
}

pub fn is_hex_digit(c: char) -> (b: bool)
    ensures
        b == hex_digit(c),
{
    is_digit(c) || ('a' <= c && c <= 'f') || ('A' <= c && c <= 'F')
}

pub fn is_lower(c: char) -> (b: bool)
    ensures
        b == lower(c),
{
    'a' <= c && c <= 'z'
}

pub fn is_idchar(c: char) -> (b: bool)
    ensures
        b == idchar(c),
{
    is_digit(c) || is_lower(c) || ('A' <= c && c <= 'Z') || c == '!' || c == '#' || c == '$'
        || c == '%' || c == '&' || c == '\'' || c == '*' || c == '+' || c == '-' || c == '.'
        || c == '/' || c == ':' || c == '<' || c == '=' || c == '>' || c == '?' || c == '@'
        || c == '\\' || c == '^' || c == '_' || c == '`' || c == '|' || c == '~'
}

/// The character classes whose runs the grammar reads.
#[derive(Debug, Clone, Copy, PartialEq, Eq)]
pub enum Class {
    /// Blank space, see [`space`].
    Blank,
    /// Identifier characters, see [`idchar`].
    IdChar,
}

impl Class {
    /// Whether `c` belongs to the class.
    pub open spec fn has(self, c: char) -> bool {
        match self {
            Class::Blank => space(c),
            Class::IdChar => idchar(c),
        }
    }
}

impl Class {
    /// Tests whether `c` belongs to the class.
    pub fn contains(&self, c: char) -> (b: bool)
        ensures
            b == self.has(c),
    {
        match self {
            Class::Blank => is_space(c),
            Class::IdChar => is_idchar(c),
        }
    }
}

/// The value of a hexadecimal digit (which covers the decimal ones).
pub fn hex_digit_value(c: char) -> (v: u32)
    requires
        hex_digit(c),
    ensures
        v == digit_value(c),
        v < 16,
        digit(c) ==> v < 10,
{
    if is_digit(c) {
        c as u32 - '0' as u32
    } else if 'a' <= c && c <= 'f' {
        c as u32 - 'a' as u32 + 10
    } else {
        c as u32 - 'A' as u32 + 10
    }
}

} // verus!
