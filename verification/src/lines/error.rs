//! What can go wrong while a paragraph is broken.

use vstd::prelude::*;

verus! {

/// Why a paragraph was not broken. Nothing is annotated when one of these is
/// returned.
#[derive(Debug, Clone, Copy, PartialEq, Eq, Structural)]
pub enum BreakError {
    /// The grapheme at `position` (counted in graphemes from the start of the
    /// text) has no entry in the metrics table, and the caller asked for such
    /// text to be rejected.
    UnrecognizedCharacter { position: usize },
    /// No sequence of line ends reaches the end of the paragraph with every
    /// line within the tolerance `ratio_max`.
    NoFeasibleBreak { ratio_max: u16 },
}

} // verus!
