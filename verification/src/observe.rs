//! Direct observation of single characters: case state, character class,
//! UTF-8 width, and the primitive stream position built from them.

use vstd::prelude::*;

verus! {

/// The case state of a character position, directly observed.
/// Upper vs lower is an observation, not a judgment.
#[derive(Debug, Clone, Copy, PartialEq, Eq, Hash, Structural)]
pub enum CaseState {
    Lower,
    Upper,
    NonAlpha,
}

/// The character class of a position, directly observed from the character itself.
#[derive(Debug, Clone, Copy, PartialEq, Eq, Hash, Structural)]
pub enum CharClass {
    Alpha,
    Digit,
    Whitespace,
    Period,
    Question,
    Exclamation,
    Comma,
    Semicolon,
    Colon,
    Apostrophe,
    Hyphen,
    QuoteDouble,
    QuoteSingle,
    ParenOpen,
    ParenClose,
    BracketOpen,
    BracketClose,
    BraceOpen,
    BraceClose,
    Newline,
    Other,
}

/// Number of character classes.
pub const CLASS_COUNT: usize = 21;

/// Number of case states.
pub const CASE_COUNT: usize = 3;

/// ASCII letter `a`..=`z`.
pub open spec fn is_ascii_lower(c: char) -> bool {
    'a' <= c && c <= 'z'
}

/// ASCII letter `A`..=`Z`.
pub open spec fn is_ascii_upper(c: char) -> bool {
    'A' <= c && c <= 'Z'
}

/// The case state observed at a character.
pub open spec fn case_of(c: char) -> CaseState {
    if is_ascii_lower(c) {
        CaseState::Lower
    } else if is_ascii_upper(c) {
        CaseState::Upper
    } else {
        CaseState::NonAlpha
    }
}

/// The class observed at a character.
pub open spec fn class_of(c: char) -> CharClass {
    if is_ascii_lower(c) || is_ascii_upper(c) {
        CharClass::Alpha
    } else if '0' <= c && c <= '9' {
        CharClass::Digit
    } else if c == '\n' {
        CharClass::Newline
    } else if c == ' ' || c == '\t' || c == '\r' {
        CharClass::Whitespace
    } else if c == '.' {
        CharClass::Period
    } else if c == '?' {
        CharClass::Question
    } else if c == '!' {
        CharClass::Exclamation
    } else if c == ',' {
        CharClass::Comma
    } else if c == ';' {
        CharClass::Semicolon
    } else if c == ':' {
        CharClass::Colon
    } else if c == '\'' || c == '\u{2019}' {
        CharClass::Apostrophe
    } else if c == '-' || c == '\u{2013}' || c == '\u{2014}' {
        CharClass::Hyphen
    } else if c == '"' || c == '\u{201C}' || c == '\u{201D}' {
        CharClass::QuoteDouble
    } else if c == '\u{2018}' {
        CharClass::QuoteSingle
    } else if c == '(' {
        CharClass::ParenOpen
    } else if c == ')' {
        CharClass::ParenClose
    } else if c == '[' {
        CharClass::BracketOpen
    } else if c == ']' {
        CharClass::BracketClose
    } else if c == '{' {
        CharClass::BraceOpen
    } else if c == '}' {
        CharClass::BraceClose
    } else {
        CharClass::Other
    }
}

/// Each class is observed on exactly its declared characters: letters a-z and
/// A-Z are Alpha, 0-9 Digit, the newline Newline, space, tab and carriage
/// return Whitespace, each mark its own class (with the curly apostrophe,
/// the dashes and the curly double quotes in their families), and every other
/// character Other.
pub proof fn law_class_of(c: char)
    ensures
        class_of(c) == CharClass::Alpha <==> ('a' <= c <= 'z' || 'A' <= c <= 'Z'),
        class_of(c) == CharClass::Digit <==> '0' <= c <= '9',
        class_of(c) == CharClass::Newline <==> c == '\n',
        class_of(c) == CharClass::Whitespace <==> (c == ' ' || c == '\t' || c == '\r'),
        class_of(c) == CharClass::Period <==> c == '.',
        class_of(c) == CharClass::Question <==> c == '?',
        class_of(c) == CharClass::Exclamation <==> c == '!',
        class_of(c) == CharClass::Comma <==> c == ',',
        class_of(c) == CharClass::Semicolon <==> c == ';',
        class_of(c) == CharClass::Colon <==> c == ':',
        class_of(c) == CharClass::Apostrophe <==> (c == '\'' || c == '\u{2019}'),
        class_of(c) == CharClass::Hyphen <==> (c == '-' || c == '\u{2013}' || c == '\u{2014}'),
        class_of(c) == CharClass::QuoteDouble <==> (c == '"' || c == '\u{201C}' || c == '\u{201D}'),
        class_of(c) == CharClass::QuoteSingle <==> c == '\u{2018}',
        class_of(c) == CharClass::ParenOpen <==> c == '(',
        class_of(c) == CharClass::ParenClose <==> c == ')',
        class_of(c) == CharClass::BracketOpen <==> c == '[',
        class_of(c) == CharClass::BracketClose <==> c == ']',
        class_of(c) == CharClass::BraceOpen <==> c == '{',
        class_of(c) == CharClass::BraceClose <==> c == '}',
{
}

/// Case states: a-z are Lower, A-Z are Upper, and every other character is
/// NonAlpha; so a character has a case state other than NonAlpha exactly when
/// its class is Alpha.
pub proof fn law_case_of(c: char)
    ensures
        case_of(c) == CaseState::Lower <==> 'a' <= c <= 'z',
        case_of(c) == CaseState::Upper <==> 'A' <= c <= 'Z',
        case_of(c) == CaseState::NonAlpha <==> !('a' <= c <= 'z' || 'A' <= c <= 'Z'),
        case_of(c) != CaseState::NonAlpha <==> class_of(c) == CharClass::Alpha,
{
}

/// Position of a class in the declaration order of `CharClass`.
pub open spec fn class_index(c: CharClass) -> nat {
    match c {
        CharClass::Alpha => 0,
        CharClass::Digit => 1,
        CharClass::Whitespace => 2,
        CharClass::Period => 3,
        CharClass::Question => 4,
        CharClass::Exclamation => 5,
        CharClass::Comma => 6,
        CharClass::Semicolon => 7,
        CharClass::Colon => 8,
        CharClass::Apostrophe => 9,
        CharClass::Hyphen => 10,
        CharClass::QuoteDouble => 11,
        CharClass::QuoteSingle => 12,
        CharClass::ParenOpen => 13,
        CharClass::ParenClose => 14,
        CharClass::BracketOpen => 15,
        CharClass::BracketClose => 16,
        CharClass::BraceOpen => 17,
        CharClass::BraceClose => 18,
        CharClass::Newline => 19,
        CharClass::Other => 20,
    }
}

/// Position of a case state in the declaration order of `CaseState`.
pub open spec fn case_index(c: CaseState) -> nat {
    match c {
        CaseState::Lower => 0,
        CaseState::Upper => 1,
        CaseState::NonAlpha => 2,
    }
}

/// The class at a given position of the declaration order.
pub open spec fn class_at_index(k: nat) -> CharClass {
    if k == 0 { CharClass::Alpha }
    else if k == 1 { CharClass::Digit }
    else if k == 2 { CharClass::Whitespace }
    else if k == 3 { CharClass::Period }
    else if k == 4 { CharClass::Question }
    else if k == 5 { CharClass::Exclamation }
    else if k == 6 { CharClass::Comma }
    else if k == 7 { CharClass::Semicolon }
    else if k == 8 { CharClass::Colon }
    else if k == 9 { CharClass::Apostrophe }
    else if k == 10 { CharClass::Hyphen }
    else if k == 11 { CharClass::QuoteDouble }
    else if k == 12 { CharClass::QuoteSingle }
    else if k == 13 { CharClass::ParenOpen }
    else if k == 14 { CharClass::ParenClose }
    else if k == 15 { CharClass::BracketOpen }
    else if k == 16 { CharClass::BracketClose }
    else if k == 17 { CharClass::BraceOpen }
    else if k == 18 { CharClass::BraceClose }
    else if k == 19 { CharClass::Newline }
    else { CharClass::Other }
}

impl CharClass {
    /// Classify a character directly from its identity.
    /// No context required: a pure character-level observation.
    pub fn from_char(c: char) -> (r: CharClass)
        ensures
            r == class_of(c),
    {
        if ('a' <= c && c <= 'z') || ('A' <= c && c <= 'Z') {
            CharClass::Alpha
        } else if '0' <= c && c <= '9' {
            CharClass::Digit
        } else if c == '\n' {
            CharClass::Newline
        } else if c == ' ' || c == '\t' || c == '\r' {
            CharClass::Whitespace
        } else if c == '.' {
            CharClass::Period
        } else if c == '?' {
            CharClass::Question
        } else if c == '!' {
            CharClass::Exclamation
        } else if c == ',' {
            CharClass::Comma
        } else if c == ';' {
            CharClass::Semicolon
        } else if c == ':' {
            CharClass::Colon
        } else if c == '\'' || c == '\u{2019}' {
            CharClass::Apostrophe
        } else if c == '-' || c == '\u{2013}' || c == '\u{2014}' {
            CharClass::Hyphen
        } else if c == '"' || c == '\u{201C}' || c == '\u{201D}' {
            CharClass::QuoteDouble
        } else if c == '\u{2018}' {
            CharClass::QuoteSingle
        } else if c == '(' {
            CharClass::ParenOpen
        } else if c == ')' {
            CharClass::ParenClose
        } else if c == '[' {
            CharClass::BracketOpen
        } else if c == ']' {
            CharClass::BracketClose
        } else if c == '{' {
            CharClass::BraceOpen
        } else if c == '}' {
            CharClass::BraceClose
        } else {
            CharClass::Other
        }
    }

    /// Position of this class in the declaration order (`Alpha` is 0, `Other` is 20).
    pub fn index(&self) -> (r: usize)
        ensures
            r == class_index(*self),
            r < CLASS_COUNT,
    {
        match self {
            CharClass::Alpha => 0,
            CharClass::Digit => 1,
            CharClass::Whitespace => 2,
            CharClass::Period => 3,
            CharClass::Question => 4,
            CharClass::Exclamation => 5,
            CharClass::Comma => 6,
            CharClass::Semicolon => 7,
            CharClass::Colon => 8,
            CharClass::Apostrophe => 9,
            CharClass::Hyphen => 10,
            CharClass::QuoteDouble => 11,
            CharClass::QuoteSingle => 12,
            CharClass::ParenOpen => 13,
            CharClass::ParenClose => 14,
            CharClass::BracketOpen => 15,
            CharClass::BracketClose => 16,
            CharClass::BraceOpen => 17,
            CharClass::BraceClose => 18,
            CharClass::Newline => 19,
            CharClass::Other => 20,
        }
    }

    /// The class at position `k` of the declaration order.
    pub fn from_index(k: usize) -> (r: CharClass)
        requires
            k < CLASS_COUNT,
        ensures
            r == class_at_index(k as nat),
            class_index(r) == k,
    {
        if k == 0 { CharClass::Alpha }
        else if k == 1 { CharClass::Digit }
        else if k == 2 { CharClass::Whitespace }
        else if k == 3 { CharClass::Period }
        else if k == 4 { CharClass::Question }
        else if k == 5 { CharClass::Exclamation }
        else if k == 6 { CharClass::Comma }
        else if k == 7 { CharClass::Semicolon }
        else if k == 8 { CharClass::Colon }
        else if k == 9 { CharClass::Apostrophe }
        else if k == 10 { CharClass::Hyphen }
        else if k == 11 { CharClass::QuoteDouble }
        else if k == 12 { CharClass::QuoteSingle }
        else if k == 13 { CharClass::ParenOpen }
        else if k == 14 { CharClass::ParenClose }
        else if k == 15 { CharClass::BracketOpen }
        else if k == 16 { CharClass::BracketClose }
        else if k == 17 { CharClass::BraceOpen }
        else if k == 18 { CharClass::BraceClose }
        else if k == 19 { CharClass::Newline }
        else { CharClass::Other }
    }
}

impl CaseState {
    /// Position of this case state in the declaration order (`Lower` is 0).
    pub fn index(&self) -> (r: usize)
        ensures
            r == case_index(*self),
            r < CASE_COUNT,
    {
        match self {
            CaseState::Lower => 0,
            CaseState::Upper => 1,
            CaseState::NonAlpha => 2,
        }
    }
}

/// Observe the case state of a character.
pub fn case_state_of(c: char) -> (r: CaseState)
    ensures
        r == case_of(c),
{
    if 'a' <= c && c <= 'z' {
        CaseState::Lower
    } else if 'A' <= c && c <= 'Z' {
        CaseState::Upper
    } else {
        CaseState::NonAlpha
    }
}

/// Number of bytes in the UTF-8 encoding of a character.
pub open spec fn utf8_width(c: char) -> nat {
    vstd::utf8::encode_scalar(c as u32).len()
}

/// Number of bytes in the UTF-8 encoding of a character (as `char::len_utf8`).
pub fn utf8_len(c: char) -> (r: usize)
    ensures
        r == utf8_width(c),
        1 <= r <= 4,
{
    let v: u32 = c as u32;
    if v <= 0x7f {
        1
    } else if v <= 0x7ff {
        2
    } else if v <= 0xffff {
        3
    } else {
        4
    }
}

/// ASCII lower-casing of a character: `A`..=`Z` map to `a`..=`z`, all else is kept.
pub open spec fn ascii_lower(c: char) -> char {
    if is_ascii_upper(c) {
        ((c as u32) + 32) as char
    } else {
        c
    }
}

/// ASCII lower-casing of a character (as `char::to_ascii_lowercase`).
pub fn to_ascii_lower(c: char) -> (r: char)
    ensures
        r == ascii_lower(c),
{
    if 'A' <= c && c <= 'Z' {
        let b: u8 = c as u8;
        let l: u8 = b + 32;
        l as char
    } else {
        c
    }
}

/// A single position in the complete observable communication stream.
#[derive(Debug, Clone)]
pub struct StreamPosition {
    /// Absolute index in the full concatenated stream (across all corpus files).
    pub position: usize,
    /// The raw character at this position.
    pub character: char,
    /// Case state, observed directly from the character.
    pub case_state: CaseState,
    /// Character class, observed directly from the character.
    pub char_class: CharClass,
    /// Byte offset within the source file.
    pub byte_offset: usize,
    /// Index into the source file list (0 = first file).
    pub source_file_index: usize,
}

/// The position that `StreamPosition::new` builds from its arguments.
pub open spec fn observed_position(
    position: usize,
    character: char,
    byte_offset: usize,
    source_file_index: usize,
) -> StreamPosition {
    StreamPosition {
        position,
        character,
        case_state: case_of(character),
        char_class: class_of(character),
        byte_offset,
        source_file_index,
    }
}

impl StreamPosition {
    /// Construct a stream position from a character and its context.
    pub fn new(
        position: usize,
        character: char,
        byte_offset: usize,
        source_file_index: usize,
    ) -> (r: StreamPosition)
        ensures
            r == observed_position(position, character, byte_offset, source_file_index),
    {
        let case_state = case_state_of(character);
        let char_class = CharClass::from_char(character);
        StreamPosition { position, character, case_state, char_class, byte_offset, source_file_index }
    }

    /// Reconstruct the original character from this position.
    pub fn reconstruct(&self) -> (r: char)
        ensures
            r == self.character,
    {
        self.character
    }
}

} // verus!
