//! The metrics table: the typeset width of each recognised character, the glue
//! that stands for a space and for the punctuation that ends a phrase, and the
//! penalty of a hyphen.
//!
//! 'a' through 'z' are respectively (9, 10, 8, 10, 8, 6, 9, 10, 5, 6, 10, 5,
//! 15, 10, 9, 10, 10, 7, 7, 7, 10, 9, 13, 10, 10, 8) units wide and the
//! characters 'C', 'I', and '-' have respective widths of 13, 6, and 6 units.
//! Commas, semicolons, periods, and apostrophes occupy 5 units each. Glue has
//! specifications (w, y, z) = (6, 3, 2) between words, except that it is
//! (6, 4, 2) after a comma, (6, 4, 1) after a semicolon, and (8, 6, 1) after a
//! period. A penalty of 50 has been assessed for every line that ends with a
//! hyphen.
//!      ---Donald E. Knuth, "Breaking Paragraphs Into Lines"

use vstd::prelude::*;

verus! {

/// An unbreakable unit of content with a fixed width.
#[derive(Debug, Clone, Copy, PartialEq, Eq, Structural)]
pub struct Box {
    pub width: u32,
}

/// A breakable separator: its width may grow by up to `stretchability` and
/// contract by up to `shrinkability` when a line is justified.
#[derive(Debug, Clone, Copy, PartialEq, Eq, Structural)]
pub struct Glue {
    pub width: u32,
    pub stretchability: u32,
    pub shrinkability: u32,
}

/// An optional break point: `penalty` is the extra cost of breaking here, and
/// `flagged` marks the kind of break that should not end two lines in a row.
#[derive(Debug, Clone, Copy, PartialEq, Eq, Structural)]
pub struct Penalty {
    pub width: u32,
    pub penalty: i32,
    pub flagged: bool,
}

/// The line width that is used when the caller names none.
pub const TARGET_LINE_LENGTH: u32 = 60;

/// The loosest adjustment ratio that is accepted when the caller names none.
pub const RATIO_MAX: u16 = 10;

/// The cost of ending a line at a hyphen when the caller names none.
pub const HYPHEN_PENALTY_VALUE: i32 = 50;

/// The table of box widths. Upper-case letters are as wide as their lower-case
/// forms, but for 'C' and 'I'.
pub open spec fn box_width(grapheme: char) -> Option<u32> {
    match grapheme {
        'a' | 'A' => Some(9u32),
        'b' | 'B' => Some(10u32),
        'c' => Some(8u32),
        'C' => Some(13u32),
        'd' | 'D' => Some(10u32),
        'e' | 'E' => Some(8u32),
        'f' | 'F' => Some(6u32),
        'g' | 'G' => Some(9u32),
        'h' | 'H' => Some(10u32),
        'i' => Some(5u32),
        'I' => Some(6u32),
        'j' | 'J' => Some(6u32),
        'k' | 'K' => Some(10u32),
        'l' | 'L' => Some(5u32),
        'm' | 'M' => Some(15u32),
        'n' | 'N' => Some(10u32),
        'o' | 'O' => Some(9u32),
        'p' | 'P' => Some(10u32),
        'q' | 'Q' => Some(10u32),
        'r' | 'R' => Some(7u32),
        's' | 'S' => Some(7u32),
        't' | 'T' => Some(7u32),
        'u' | 'U' => Some(10u32),
        'v' | 'V' => Some(9u32),
        'w' | 'W' => Some(13u32),
        'x' | 'X' => Some(10u32),
        'y' | 'Y' => Some(10u32),
        'z' | 'Z' => Some(8u32),
        '-' => Some(6u32),
        ',' | ';' | '.' | '\'' | ' ' => Some(5u32),
        _ => None,
    }
}

/// The table of glue: what follows a word, a comma, a semicolon and a period.
pub open spec fn glue_spec(grapheme: char) -> Option<Glue> {
    match grapheme {
        ' ' => Some(Glue { width: 6, stretchability: 3, shrinkability: 2 }),
        ',' => Some(Glue { width: 6, stretchability: 4, shrinkability: 2 }),
        ';' => Some(Glue { width: 6, stretchability: 4, shrinkability: 1 }),
        '.' => Some(Glue { width: 8, stretchability: 6, shrinkability: 1 }),
        _ => None,
    }
}

/// The penalty that stands for a hyphen that costs `value` to break at. It is
/// flagged, so that two hyphenated lines in a row can be told.
pub open spec fn hyphen_penalty_spec(value: i32) -> Penalty {
    Penalty { width: 0, penalty: value, flagged: true }
}

/// The box of `grapheme`, if the table holds one.
pub fn box_for(grapheme: char) -> (found: Option<Box>)
    ensures
        found == match box_width(grapheme) {
            Some(width) => Some(Box { width }),
            None => None,
        },
{
    let width: Option<u32> = match grapheme {
        'a' | 'A' => Some(9),
        'b' | 'B' => Some(10),
        'c' => Some(8),
        'C' => Some(13),
        'd' | 'D' => Some(10),
        'e' | 'E' => Some(8),
        'f' | 'F' => Some(6),
        'g' | 'G' => Some(9),
        'h' | 'H' => Some(10),
        'i' => Some(5),
        'I' => Some(6),
        'j' | 'J' => Some(6),
        'k' | 'K' => Some(10),
        'l' | 'L' => Some(5),
        'm' | 'M' => Some(15),
        'n' | 'N' => Some(10),
        'o' | 'O' => Some(9),
        'p' | 'P' => Some(10),
        'q' | 'Q' => Some(10),
        'r' | 'R' => Some(7),
        's' | 'S' => Some(7),
        't' | 'T' => Some(7),
        'u' | 'U' => Some(10),
        'v' | 'V' => Some(9),
        'w' | 'W' => Some(13),
        'x' | 'X' => Some(10),
        'y' | 'Y' => Some(10),
        'z' | 'Z' => Some(8),
        '-' => Some(6),
        ',' | ';' | '.' | '\'' | ' ' => Some(5),
        _ => None,
    };
    match width {
        Some(width) => Some(Box { width }),
        None => None,
    }
}

/// The width of the box of `grapheme`, if the table holds one.
pub fn width_of(grapheme: char) -> (width: Option<u32>)
    ensures
        width == box_width(grapheme),
{
    match box_for(grapheme) {
        Some(found) => Some(found.width),
        None => None,
    }
}

/// The glue between words.
pub fn word_glue() -> (glue: Glue)
    ensures
        Some(glue) == glue_spec(' '),
{
    Glue { width: 6, stretchability: 3, shrinkability: 2 }
}

/// The glue after a comma.
pub fn comma_glue() -> (glue: Glue)
    ensures
        Some(glue) == glue_spec(','),
{
    Glue { width: 6, stretchability: 4, shrinkability: 2 }
}

/// The glue after a semicolon.
pub fn semicolon_glue() -> (glue: Glue)
    ensures
        Some(glue) == glue_spec(';'),
{
    Glue { width: 6, stretchability: 4, shrinkability: 1 }
}

/// The glue after a period.
pub fn period_glue() -> (glue: Glue)
    ensures
        Some(glue) == glue_spec('.'),
{
    Glue { width: 8, stretchability: 6, shrinkability: 1 }
}

/// The glue that stands for `grapheme`, if it is a space, a comma, a
/// semicolon or a period.
pub fn glue_for(grapheme: char) -> (glue: Option<Glue>)
    ensures
        glue == glue_spec(grapheme),
{
    match grapheme {
        ' ' => Some(word_glue()),
        ',' => Some(comma_glue()),
        ';' => Some(semicolon_glue()),
        '.' => Some(period_glue()),
        _ => None,
    }
}

/// The penalty of a hyphen that costs `value` to break at.
pub fn hyphen_penalty(value: i32) -> (penalty: Penalty)
    ensures
        penalty == hyphen_penalty_spec(value),
{
    Penalty { width: 0, penalty: value, flagged: true }
}

} // verus!
