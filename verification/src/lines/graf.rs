//! A paragraph with what was worked out of it: its nodes and its feasible
//! breakpoints.

use vstd::prelude::*;
use crate::lines::annotate::{lemma_breaks_ascend, reconstruct};
use crate::lines::builder::{build_nodes, nodes_of};
use crate::lines::constants::HYPHEN_PENALTY_VALUE;
use crate::lines::error::BreakError;
use crate::lines::nodes::Node;
use crate::lines::optimizer::{lemma_table_ascends, optimize, problem};
use crate::lines::paragraph::{
    default_config, is_outcome, lemma_empty_outcome, mark_breaks, outcome, Config,
};
use crate::lines::ratio::{adjustment_ratio, line_ratio, Ratio};
use crate::lines::scanner::{feasible_breakpoints, lemma_feasible_breakpoints, scan};
use crate::lines::segment::{clusters_view, grapheme_clusters, graphemes, joined};

pub use crate::lines::scanner::Breakpoint;

verus! {

/// A paragraph: its text, and the nodes and feasible breakpoints that were
/// last parsed out of it.
#[derive(Debug, Clone)]
pub struct Graf {
    plain_text: String,
    nodes: Vec<Node>,
    breakpoints: Vec<Breakpoint>,
}

/// The nodes of a text as a `Graf` parses it: a hyphen costs the usual
/// penalty, and a cluster that the metrics table does not know is a box of no
/// width.
pub open spec fn parsed_nodes(clusters: Seq<Seq<char>>) -> Seq<Node> {
    nodes_of(clusters, HYPHEN_PENALTY_VALUE, false)->Ok_0
}

impl Graf {
    /// The text of the paragraph.
    pub closed spec fn text(&self) -> Seq<char> {
        self.plain_text@
    }

    /// The nodes that were parsed last; none before the first parse.
    pub closed spec fn nodes(&self) -> Seq<Node> {
        self.nodes@
    }

    /// The feasible breakpoints that were parsed last; none before the first
    /// parse.
    pub closed spec fn breakpoints(&self) -> Seq<Breakpoint> {
        self.breakpoints@
    }

    /// The breakpoints are the feasible set of the nodes.
    pub open spec fn wf(&self) -> bool {
        &&& self.nodes().len() <= usize::MAX
        &&& self.breakpoints() == feasible_breakpoints(self.nodes())
    }

    pub fn new(plain_text: String) -> (graf: Graf)
        ensures
            graf.text() == plain_text@,
            graf.nodes() == Seq::<Node>::empty(),
            graf.breakpoints() == Seq::<Breakpoint>::empty(),
            graf.wf(),
    {
        Graf { plain_text, nodes: Vec::new(), breakpoints: Vec::new() }
    }

    /// Parses the text once more and hands the clusters of the text out.
    fn parse(&mut self) -> (clusters: Vec<Vec<char>>)
        ensures
            final(self).text() == old(self).text(),
            clusters_view(clusters@) == grapheme_clusters(old(self).text()),
            joined(clusters_view(clusters@), clusters.len() as int) == old(self).text(),
            old(self).text().len() == 0 ==> clusters.len() == 0,
            nodes_of(grapheme_clusters(old(self).text()), HYPHEN_PENALTY_VALUE, false) == Ok::<
                Seq<Node>,
                BreakError,
            >(final(self).nodes()),
            final(self).wf(),
    {
        let clusters: Vec<Vec<char>> = graphemes(self.plain_text.as_str());
        proof {
            if clusters.len() > 0 {
                let last = clusters.len() - 1;
                assert(clusters_view(clusters@)[last] == clusters[last]@);
            }
        }
        match build_nodes(&clusters, HYPHEN_PENALTY_VALUE, false) {
            Ok(nodes) => {
                self.breakpoints = scan(&nodes);
                assert(nodes@.len() == nodes.len());
                self.nodes = nodes;
            },
            Err(_) => {
                // Nothing is rejected, so building cannot fail.
                assert(false);
            },
        }
        clusters
    }

    /// Builds the nodes of the text and scans them for the places where a
    /// line may end. What an earlier parse left is replaced.
    pub fn parse_nodes(&mut self)
        ensures
            final(self).text() == old(self).text(),
            final(self).nodes() == parsed_nodes(grapheme_clusters(old(self).text())),
            final(self).breakpoints() == feasible_breakpoints(final(self).nodes()),
            final(self).wf(),
    {
        let _ = self.parse();
    }

    /// The adjustment ratio of the line from the feasible breakpoint of index
    /// `from` to that of index `to`, for lines of `target_width`.
    pub fn calculate_adjustment_ratio(&self, from: usize, to: usize, target_width: u32) -> (ratio:
        Ratio)
        requires
            self.wf(),
            from <= to < self.breakpoints().len(),
        ensures
            ratio == line_ratio(
                self.breakpoints()[from as int],
                self.breakpoints()[to as int],
                target_width,
            ),
    {
        proof {
            lemma_feasible_breakpoints(self.nodes@);
            let problem = problem(self.nodes@, self.breakpoints@, target_width, 0);
            crate::lines::optimizer::lemma_points_ordered(problem, from + 1, to + 1);
        }
        adjustment_ratio(&self.breakpoints[from], &self.breakpoints[to], target_width)
    }

    /// The text with the marker `&shy;` at each line end that is chosen for
    /// lines of the usual width and tolerance. The text is parsed anew.
    pub fn get_hyphens(&mut self) -> (result: Result<String, BreakError>)
        ensures
            final(self).text() == old(self).text(),
            final(self).nodes() == parsed_nodes(grapheme_clusters(old(self).text())),
            final(self).breakpoints() == feasible_breakpoints(final(self).nodes()),
            final(self).wf(),
            is_outcome(
                result,
                outcome(old(self).text(), grapheme_clusters(old(self).text()), default_config()),
            ),
            old(self).text().len() == 0 ==> is_outcome(result, Ok(old(self).text())),
    {
        let clusters: Vec<Vec<char>> = self.parse();
        let config: Config = Config::default();
        proof {
            lemma_feasible_breakpoints(self.nodes@);
            if self.text().len() == 0 {
                assert(clusters_view(clusters@) =~= Seq::<Seq<char>>::empty());
                lemma_empty_outcome(self.text(), config);
            }
        }
        match optimize(&self.nodes, &self.breakpoints, config.target_width, config.ratio_max) {
            Ok(table) => {
                proof {
                    let pb = problem(
                        self.nodes@,
                        self.breakpoints@,
                        config.target_width,
                        config.ratio_max,
                    );
                    lemma_table_ascends(pb);
                    lemma_breaks_ascend(table@, table.len() - 1);
                }
                let breaks: Vec<usize> = reconstruct(&table);
                proof {
                    assert forall|k: int| 0 <= k < breaks.len() implies breaks[k]
                        <= clusters.len() by {
                        assert(breaks[k] < table[table.len() - 1].position);
                    }
                }
                Ok(mark_breaks(self.plain_text.as_str(), &clusters, &breaks))
            },
            Err(error) => Err(error),
        }
    }

    /// The feasible breakpoints of the text, which is parsed anew: every
    /// place where a line may end, in ascending order, with the totals of
    /// the nodes before it.
    pub fn get_feasible_breakpoints(&mut self) -> (breakpoints: Vec<Breakpoint>)
        ensures
            final(self).text() == old(self).text(),
            final(self).nodes() == parsed_nodes(grapheme_clusters(old(self).text())),
            final(self).wf(),
            breakpoints@ == final(self).breakpoints(),
            breakpoints@ == feasible_breakpoints(final(self).nodes()),
    {
        self.parse_nodes();
        self.breakpoints.clone()
    }

    pub fn get_plain_text(&mut self) -> (text: &String)
        ensures
            text@ == old(self).text(),
            *final(self) == *old(self),
    {
        &self.plain_text
    }
}

} // verus!
