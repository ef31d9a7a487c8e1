//! Character classes used by the parser.
use vstd::prelude::*;

verus! {

/// Characters that can never be part of a URL.
pub open spec fn illegal_char(c: char) -> bool {
    ('\u{00}' <= c <= '\u{1F}') || ('\u{7F}' <= c <= '\u{9F}') || c == '<' || c == '>' || c == '"'
        || c == ' ' || ('{' <= c <= '}') || c == '\\' || c == '^' || c == '⟨' || c == '⟩'
        || c == '`'
}

/// Returns whether `c` can never appear inside a URL.
pub fn is_illegal(c: char) -> (r: bool)
    ensures
        r == illegal_char(c),
{
    match c {
        '\u{00}'..='\u{1F}' | '\u{7F}'..='\u{9F}' | '<' | '>' | '"' | ' ' | '{'..='}' | '\\' | '^'
        | '⟨' | '⟩' | '`' => true,
        _ => false,
    }
}

/// Characters that end a sentence or a clause, and so cannot end a URL.
pub open spec fn terminator_char(c: char) -> bool {
    c == '.' || c == ',' || (':' <= c <= ';') || c == '?' || c == '!' || c == '('
}

/// ASCII letters, the only characters a scheme is made of.
pub open spec fn ascii_letter(c: char) -> bool {
    ('a' <= c <= 'z') || ('A' <= c <= 'Z')
}

/// The member of a surround pair that is met first when text is read backwards.
pub open spec fn surround_start(c: char) -> bool {
    c == ')' || c == ']' || c == '\''
}

/// The member of a surround pair that is met last when text is read backwards.
pub open spec fn surround_end(c: char) -> bool {
    c == '(' || c == '[' || c == '\''
}

/// Brackets and quotes that may wrap a URL.
pub open spec fn surround_char(c: char) -> bool {
    surround_start(c) || surround_end(c)
}

/// The character that closes the surround opened (backwards) by `c`.
pub open spec fn counterpart(c: char) -> char {
    if c == ')' {
        '('
    } else if c == ']' {
        '['
    } else {
        c
    }
}

/// A pair of characters that may wrap a URL.
#[derive(Copy, Clone, Debug, PartialEq, Eq, PartialOrd, Ord, Hash)]
pub enum SurroundCharacter {
    /// A bracket, as its opening and closing character.
    Bracket(char, char),
    /// A quote, which both opens and closes.
    Quote(char),
}

/// Number of recognised surround pairs.
pub const SURROUND_COUNT: usize = 3;

/// The surround pair with index `i`.
pub open spec fn surround_pair(i: int) -> SurroundCharacter {
    if i == 0 {
        SurroundCharacter::Bracket('(', ')')
    } else if i == 1 {
        SurroundCharacter::Bracket('[', ']')
    } else {
        SurroundCharacter::Quote('\'')
    }
}

/// Returns the surround pair with index `i`; pairs are tried in index order.
pub fn surround_character(i: usize) -> (r: SurroundCharacter)
    requires
        i < SURROUND_COUNT,
    ensures
        r == surround_pair(i as int),
{
    if i == 0 {
        SurroundCharacter::Bracket('(', ')')
    } else if i == 1 {
        SurroundCharacter::Bracket('[', ']')
    } else {
        SurroundCharacter::Quote('\'')
    }
}

impl SurroundCharacter {
    /// The member met first when reading backwards.
    pub open spec fn start_spec(&self) -> char {
        match self {
            SurroundCharacter::Bracket(_end, start) => *start,
            SurroundCharacter::Quote(quote) => *quote,
        }
    }

    /// The member met last when reading backwards.
    pub open spec fn end_spec(&self) -> char {
        match self {
            SurroundCharacter::Bracket(end, _start) => *end,
            SurroundCharacter::Quote(quote) => *quote,
        }
    }

    /// Returns the member met first when reading backwards.
    pub fn start(&self) -> (r: &char)
        ensures
            *r == self.start_spec(),
    {
        match self {
            SurroundCharacter::Bracket(_end, start) => start,
            SurroundCharacter::Quote(quote) => quote,
        }
    }

    /// Returns the member met last when reading backwards.
    pub fn end(&self) -> (r: &char)
        ensures
            *r == self.end_spec(),
    {
        match self {
            SurroundCharacter::Bracket(end, _start) => end,
            SurroundCharacter::Quote(quote) => quote,
        }
    }
}

} // verus!
