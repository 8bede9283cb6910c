//! Character classes of the two boundary scans.
//!
//! Each scan looks at one character at a time and only ever asks which class
//! the character belongs to. The classes are stated on `char`; the executable
//! classifiers take the code point, which is what decoding yields.
use vstd::prelude::*;
use vstd::utf8::*;

verus! {

/// The three kinds of bracket whose nesting the forward scan follows.
#[derive(Clone, Copy, Debug, PartialEq, Eq, Structural)]
pub enum Bracket {
    Round,
    Square,
    Curly,
}

/// What a character means to the forward scan, which looks for the end of a
/// URL.
#[derive(Clone, Copy, Debug, PartialEq, Eq, Structural)]
pub enum EndClass {
    /// Never part of a URL: controls, space, `"`, `<`, `>`, `` ` `` and
    /// U+007F to U+009F.
    Forbidden,
    /// May stand inside a URL but never at its end: `?`, `!`, `.`, `,`, `:`
    /// and `;`.
    Soft,
    /// `/`, which may end a URL only behind a character that may.
    Slash,
    /// An opening bracket.
    Open(Bracket),
    /// A closing bracket.
    Close(Bracket),
    /// The single quote `'`.
    Quote,
    /// Any other character.
    Plain,
}

/// What a character means to the backward scan, which looks for the start of
/// a scheme or host.
#[derive(Clone, Copy, Debug, PartialEq, Eq, Structural)]
pub enum StartClass {
    /// `a` to `z` and `A` to `Z`.
    Letter,
    /// `0` to `9`.
    Digit,
    /// `/`.
    Slash,
    /// `:`.
    Colon,
    /// `+`, `-` and `.`, which a scheme may hold.
    Punct,
    /// Any other character.
    Other,
}

/// The class of `c` in the forward scan.
pub open spec fn end_class(c: char) -> EndClass {
    match c {
        '\u{00}'..='\u{1F}' | ' ' | '"' | '<' | '>' | '`' | '\u{7F}'..='\u{9F}' => {
            EndClass::Forbidden
        },
        '?' | '!' | '.' | ',' | ':' | ';' => EndClass::Soft,
        '/' => EndClass::Slash,
        '(' => EndClass::Open(Bracket::Round),
        ')' => EndClass::Close(Bracket::Round),
        '[' => EndClass::Open(Bracket::Square),
        ']' => EndClass::Close(Bracket::Square),
        '{' => EndClass::Open(Bracket::Curly),
        '}' => EndClass::Close(Bracket::Curly),
        '\'' => EndClass::Quote,
        _ => EndClass::Plain,
    }
}

/// The class of `c` in the backward scan.
pub open spec fn start_class(c: char) -> StartClass {
    match c {
        'a'..='z' | 'A'..='Z' => StartClass::Letter,
        '0'..='9' => StartClass::Digit,
        '/' => StartClass::Slash,
        ':' => StartClass::Colon,
        '+' | '-' | '.' => StartClass::Punct,
        _ => StartClass::Other,
    }
}

/// Classifies the scalar value `code` for the forward scan.
pub fn classify_end(code: u32) -> (class: EndClass)
    ensures
        is_scalar(code) ==> class == end_class(code as char),
        !is_scalar(code) ==> class == EndClass::Plain,
{
    if code < 0x80 {
        let c: char = (code as u8) as char;
        match c {
            '\u{00}'..='\u{1F}' | ' ' | '"' | '<' | '>' | '`' | '\u{7F}' => EndClass::Forbidden,
            '?' | '!' | '.' | ',' | ':' | ';' => EndClass::Soft,
            '/' => EndClass::Slash,
            '(' => EndClass::Open(Bracket::Round),
            ')' => EndClass::Close(Bracket::Round),
            '[' => EndClass::Open(Bracket::Square),
            ']' => EndClass::Close(Bracket::Square),
            '{' => EndClass::Open(Bracket::Curly),
            '}' => EndClass::Close(Bracket::Curly),
            '\'' => EndClass::Quote,
            _ => EndClass::Plain,
        }
    } else if code <= 0x9F {
        EndClass::Forbidden
    } else {
        EndClass::Plain
    }
}

/// Classifies the scalar value `code` for the backward scan.
pub fn classify_start(code: u32) -> (class: StartClass)
    ensures
        is_scalar(code) ==> class == start_class(code as char),
        !is_scalar(code) ==> class == StartClass::Other,
{
    if code < 0x80 {
        let c: char = (code as u8) as char;
        match c {
            'a'..='z' | 'A'..='Z' => StartClass::Letter,
            '0'..='9' => StartClass::Digit,
            '/' => StartClass::Slash,
            ':' => StartClass::Colon,
            '+' | '-' | '.' => StartClass::Punct,
            _ => StartClass::Other,
        }
    } else {
        StartClass::Other
    }
}

} // verus!
