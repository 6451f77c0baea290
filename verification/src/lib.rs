//! Paragraph line breaking after Knuth and Plass.
//!
//! A text is turned into a sequence of boxes, glue and penalties; the places
//! where a line may end are found; and among them the line ends are chosen
//! that make every line reach the target width with the least stretching
//! and shrinking in all. The chosen line ends are marked in the text with
//! soft hyphens.
//!
//! Widths, stretch and shrink are whole numbers, and an adjustment ratio is
//! an exact fraction of two of them. The modules, leaves first:
//!
//! - `lines::constants`: the metrics table
//! - `lines::nodes`: boxes, glue and penalties
//! - `lines::segment`: the split of a text into grapheme clusters
//! - `lines::builder`: from clusters to nodes
//! - `lines::scanner`: the feasible breakpoints
//! - `lines::ratio`: adjustment ratios and their demerits
//! - `lines::optimizer`: the search for the cheapest line ends
//! - `lines::annotate`: the chosen positions, and the text with its markers
//! - `lines::paragraph`: the whole way, with its settings
//! - `lines::graf`: a paragraph that keeps what was parsed out of it
//! - `lines::laws`: what holds of every result

use vstd::prelude::*;
use crate::lines::error::BreakError;
use crate::lines::graf::Graf;
use crate::lines::paragraph::{default_config, is_outcome, outcome};
use crate::lines::segment::grapheme_clusters;

pub mod lines;

verus! {

/// Breaks a paragraph into lines of the usual width and returns its text
/// with the marker `&shy;` at each chosen line end.
pub fn break_lines(lines: &str) -> (result: Result<String, BreakError>)
    ensures
        is_outcome(result, outcome(lines@, grapheme_clusters(lines@), default_config())),
        lines@.len() == 0 ==> is_outcome(result, Ok(lines@)),
{
    let mut g: Graf = Graf::new(lines.to_string());
    g.get_hyphens()
}

} // verus!
