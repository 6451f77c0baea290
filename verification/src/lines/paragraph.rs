//! The whole way from a text to the text with its line ends marked.

use vstd::prelude::*;
use crate::lines::annotate::{
    annotate, annotated, ascending_within, chosen_positions, reconstruct, strictly_ascending,
};
use crate::lines::builder::{build_nodes, nodes_of};
use crate::lines::constants::{HYPHEN_PENALTY_VALUE, RATIO_MAX, TARGET_LINE_LENGTH};
use crate::lines::error::BreakError;
use crate::lines::nodes::Node;
use crate::lines::laws::{
    is_cheapest, is_way, lemma_cheapest, lemma_chosen_breaks_ascend,
    lemma_chosen_lines_admissible, lemma_empty_paragraph, lemma_no_cheaper_way, ratio_of_line,
};
use crate::lines::optimizer::{optimize, problem};
use crate::lines::scanner::{
    feasible_breakpoints, is_feasible_position, lemma_feasible_breakpoints, scan,
};
use crate::lines::segment::{
    byte_length, chars_before, clusters_view, grapheme_clusters, graphemes, joined,
    lemma_chars_before_monotone,
};

verus! {

/// What a caller can set.
#[derive(Debug, Clone, Copy, PartialEq, Eq, Structural)]
pub struct Config {
    /// The width that every line is adjusted to.
    pub target_width: u32,
    /// The loosest adjustment ratio that a line may have.
    pub ratio_max: u16,
    /// The cost of ending a line at a hyphen.
    pub hyphen_penalty_value: i32,
    /// Whether a character that the metrics table does not know ends the
    /// work. If not, it is set as a box of no width.
    pub reject_unrecognized: bool,
}

/// The settings that are used when the caller names none.
pub open spec fn default_config() -> Config {
    Config {
        target_width: TARGET_LINE_LENGTH,
        ratio_max: RATIO_MAX,
        hyphen_penalty_value: HYPHEN_PENALTY_VALUE,
        reject_unrecognized: false,
    }
}

impl Default for Config {
    fn default() -> (config: Config)
        ensures
            config == default_config(),
    {
        Config {
            target_width: TARGET_LINE_LENGTH,
            ratio_max: RATIO_MAX,
            hyphen_penalty_value: HYPHEN_PENALTY_VALUE,
            reject_unrecognized: false,
        }
    }
}

/// The line ends that are chosen for `nodes`: the positions of the feasible
/// breakpoints on the cheapest way from the start of the paragraph to its
/// end, in ascending order. There are none to choose if no line can end at
/// the end of the paragraph.
pub open spec fn chosen_breaks(nodes: Seq<Node>, target_width: u32, ratio_max: u16) -> Option<
    Seq<usize>,
> {
    let pb = problem(nodes, feasible_breakpoints(nodes), target_width, ratio_max);
    if pb.reached(pb.last()) {
        Some(chosen_positions(pb.table()))
    } else {
        None
    }
}

/// Where in the text each of `breaks` stands: a break at node `p` stands
/// before the first character of cluster `p`.
pub open spec fn offsets(clusters: Seq<Seq<char>>, breaks: Seq<usize>) -> Seq<usize> {
    Seq::new(breaks.len(), |k: int| chars_before(clusters, breaks[k] as int) as usize)
}

/// What breaking a text comes to, given the clusters that it was split into:
/// the text with a marker at each chosen line end, or the reason why no line
/// ends were chosen.
pub open spec fn outcome(text: Seq<char>, clusters: Seq<Seq<char>>, config: Config) -> Result<
    Seq<char>,
    BreakError,
> {
    match nodes_of(clusters, config.hyphen_penalty_value, config.reject_unrecognized) {
        Ok(nodes) => match chosen_breaks(nodes, config.target_width, config.ratio_max) {
            Some(breaks) => Ok(annotated(text, offsets(clusters, breaks))),
            None => Err(BreakError::NoFeasibleBreak { ratio_max: config.ratio_max }),
        },
        Err(error) => Err(error),
    }
}

/// `result` is `expected`, but for holding a string in place of its
/// characters.
pub open spec fn is_outcome(result: Result<String, BreakError>, expected: Result<
    Seq<char>,
    BreakError,
>) -> bool {
    match result {
        Ok(text) => expected == Ok::<Seq<char>, BreakError>(text@),
        Err(error) => expected == Err::<Seq<char>, BreakError>(error),
    }
}

/// The line ends of a paragraph of `nodes`: the positions, in strictly
/// ascending order, of the nodes at which the lines end, but for the last
/// line, which ends with the paragraph. Every line has an adjustment ratio
/// between -1 and `ratio_max`, unless it is infinitely loose, and no way
/// through the feasible breakpoints that the active set admits costs less in
/// all. Where there is no such way at all, the tolerance is returned that
/// was too strict.
pub fn break_nodes(nodes: &Vec<Node>, target_width: u32, ratio_max: u16) -> (result: Result<
    Vec<usize>,
    BreakError,
>)
    ensures
        match result {
            Ok(breaks) => {
                &&& chosen_breaks(nodes@, target_width, ratio_max) == Some(breaks@)
                &&& strictly_ascending(breaks@)
                &&& forall|k: int|
                    0 <= k < breaks.len() ==> is_feasible_position(
                        nodes@,
                        (#[trigger] breaks[k]) as int,
                    )
                &&& forall|k: int|
                    0 <= k <= breaks.len() ==> {
                        let ratio = #[trigger] ratio_of_line(nodes@, breaks@, target_width, k);
                        ratio is PosInfinity || ratio.within(ratio_max)
                    }
                &&& is_cheapest(
                    problem(nodes@, feasible_breakpoints(nodes@), target_width, ratio_max),
                    breaks@,
                )
            },
            Err(error) => {
                &&& chosen_breaks(nodes@, target_width, ratio_max) is None
                &&& error == (BreakError::NoFeasibleBreak { ratio_max })
                &&& forall|way: Seq<int>|
                    !#[trigger] is_way(
                        problem(nodes@, feasible_breakpoints(nodes@), target_width, ratio_max),
                        way,
                        (feasible_breakpoints(nodes@).len() + 1) as int,
                    )
            },
        },
{
    let feasible = scan(nodes);
    proof {
        assert(nodes@.len() == nodes.len());
        lemma_feasible_breakpoints(nodes@);
    }
    match optimize(nodes, &feasible, target_width, ratio_max) {
        Ok(table) => {
            let breaks: Vec<usize> = reconstruct(&table);
            proof {
                lemma_cheapest(problem(nodes@, feasible@, target_width, ratio_max));
                lemma_chosen_breaks_ascend(nodes@, target_width, ratio_max);
                assert forall|k: int| 0 <= k <= breaks.len() implies {
                    let ratio = #[trigger] ratio_of_line(nodes@, breaks@, target_width, k);
                    ratio is PosInfinity || ratio.within(ratio_max)
                } by {
                    lemma_chosen_lines_admissible(nodes@, target_width, ratio_max, k);
                }
            }
            Ok(breaks)
        },
        Err(error) => {
            proof {
                let pb = problem(nodes@, feasible@, target_width, ratio_max);
                assert forall|way: Seq<int>| !#[trigger] is_way(pb, way, pb.last()) by {
                    if is_way(pb, way, pb.last()) {
                        lemma_no_cheaper_way(pb, way, pb.last());
                    }
                }
            }
            Err(error)
        },
    }
}

/// Where in the text each of `breaks` stands, counted in characters.
pub fn offsets_of(clusters: &Vec<Vec<char>>, breaks: &Vec<usize>) -> (places: Vec<usize>)
    requires
        strictly_ascending(breaks@),
        forall|k: int| 0 <= k < breaks.len() ==> breaks[k] <= clusters.len(),
        chars_before(clusters_view(clusters@), clusters.len() as int) <= usize::MAX,
    ensures
        places@ == offsets(clusters_view(clusters@), breaks@),
        ascending_within(
            places@,
            chars_before(clusters_view(clusters@), clusters.len() as int),
        ),
{
    let ghost view = clusters_view(clusters@);
    let mut places: Vec<usize> = Vec::new();
    let mut cluster: usize = 0;
    let mut offset: usize = 0;
    let mut k: usize = 0;
    while k < breaks.len()
        invariant
            view == clusters_view(clusters@),
            strictly_ascending(breaks@),
            forall|i: int| 0 <= i < breaks.len() ==> breaks[i] <= clusters.len(),
            chars_before(view, clusters.len() as int) <= usize::MAX,
            k <= breaks.len(),
            cluster <= clusters.len(),
            k < breaks.len() ==> cluster <= breaks[k as int],
            k > 0 ==> cluster == breaks[k - 1],
            offset == chars_before(view, cluster as int),
            places.len() == k,
            forall|i: int|
                0 <= i < k ==> #[trigger] places[i] == chars_before(view, breaks[i] as int),
        decreases breaks.len() - k,
    {
        let to: usize = breaks[k];
        while cluster < to
            invariant
                view == clusters_view(clusters@),
                chars_before(view, clusters.len() as int) <= usize::MAX,
                cluster <= to <= clusters.len(),
                offset == chars_before(view, cluster as int),
            decreases to - cluster,
        {
            proof {
                lemma_chars_before_monotone(view, cluster + 1, clusters.len() as int);
                assert(view[cluster as int] == clusters[cluster as int]@);
            }
            offset = offset + clusters[cluster].len();
            cluster = cluster + 1;
        }
        places.push(offset);
        k = k + 1;
        proof {
            if k < breaks.len() {
                assert(breaks[k - 1] < breaks[k as int]);
            }
        }
    }
    proof {
        assert(places@ =~= offsets(view, breaks@));
        assert forall|i: int, j: int| 0 <= i <= j < places.len() implies places[i]
            <= places[j] by {
            if i < j {
                assert(breaks[i] < breaks[j]);
            }
            lemma_chars_before_monotone(view, breaks[i] as int, breaks[j] as int);
        }
        assert forall|i: int| 0 <= i < places.len() implies places[i] <= chars_before(
            view,
            clusters.len() as int,
        ) by {
            lemma_chars_before_monotone(view, breaks[i] as int, clusters.len() as int);
        }
    }
    places
}

/// `text` with a marker before each of the clusters whose indices `breaks`
/// holds, where `clusters` are the pieces that `text` is made of.
pub fn mark_breaks(text: &str, clusters: &Vec<Vec<char>>, breaks: &Vec<usize>) -> (marked: String)
    requires
        joined(clusters_view(clusters@), clusters.len() as int) == text@,
        strictly_ascending(breaks@),
        forall|k: int| 0 <= k < breaks.len() ==> breaks[k] <= clusters.len(),
    ensures
        marked@ == annotated(text@, offsets(clusters_view(clusters@), breaks@)),
        breaks.len() == 0 ==> marked@ == text@,
{
    let limit: usize = byte_length(text);
    let places: Vec<usize> = offsets_of(clusters, breaks);
    annotate(text, &places)
}

/// Breaks `text`, which `clusters` are the grapheme clusters of: builds the
/// nodes, chooses the line ends, and puts a marker into the text where each
/// chosen line ends. Where the text is not in the table and is to be
/// rejected, or where no line ends can be chosen, the reason is returned and
/// nothing of the text.
pub fn break_clusters(text: &str, clusters: &Vec<Vec<char>>, config: &Config) -> (result: Result<
    String,
    BreakError,
>)
    requires
        joined(clusters_view(clusters@), clusters.len() as int) == text@,
    ensures
        is_outcome(result, outcome(text@, clusters_view(clusters@), *config)),
{
    let nodes: Vec<Node> = match build_nodes(
        clusters,
        config.hyphen_penalty_value,
        config.reject_unrecognized,
    ) {
        Ok(nodes) => nodes,
        Err(error) => {
            return Err(error);
        },
    };
    let breaks: Vec<usize> = match break_nodes(&nodes, config.target_width, config.ratio_max) {
        Ok(breaks) => breaks,
        Err(error) => {
            return Err(error);
        },
    };
    assert forall|k: int| 0 <= k < breaks.len() implies breaks[k] <= clusters.len() by {
        assert(is_feasible_position(nodes@, breaks[k] as int));
    }
    Ok(mark_breaks(text, clusters, &breaks))
}

/// A text without clusters comes back as it is, whatever the settings.
pub proof fn lemma_empty_outcome(text: Seq<char>, config: Config)
    ensures
        outcome(text, Seq::<Seq<char>>::empty(), config) == Ok::<Seq<char>, BreakError>(text),
{
    let clusters = Seq::<Seq<char>>::empty();
    let nodes = nodes_of(clusters, config.hyphen_penalty_value, config.reject_unrecognized);
    assert(nodes->Ok_0 =~= Seq::<Node>::empty());
    lemma_empty_paragraph(config.target_width, config.ratio_max);
    assert(offsets(clusters, Seq::<usize>::empty()) =~= Seq::<usize>::empty());
}

/// Breaks `text` with the settings of `config`: the text is split into its
/// extended grapheme clusters, and the clusters are broken as
/// `break_clusters` does. An empty text comes back as it is.
pub fn break_paragraph_with(text: &str, config: &Config) -> (result: Result<String, BreakError>)
    ensures
        is_outcome(result, outcome(text@, grapheme_clusters(text@), *config)),
        text@.len() == 0 ==> is_outcome(result, Ok(text@)),
{
    let clusters: Vec<Vec<char>> = graphemes(text);
    proof {
        if text@.len() == 0 {
            if clusters.len() > 0 {
                let last = clusters.len() - 1;
                assert(clusters_view(clusters@)[last] == clusters[last]@);
            }
            assert(clusters_view(clusters@) =~= Seq::<Seq<char>>::empty());
            lemma_empty_outcome(text@, *config);
        }
    }
    break_clusters(text, &clusters, config)
}

/// Breaks `text` into lines of `target_width` whose adjustment ratio is at
/// most `ratio_max`, and returns it with the marker `&shy;` at each chosen
/// line end. A hyphen costs the usual penalty, and a character that the
/// metrics table does not know is set as a box of no width. An empty text
/// comes back as it is.
pub fn break_paragraph(text: &str, target_width: u32, ratio_max: u16) -> (result: Result<
    String,
    BreakError,
>)
    ensures
        is_outcome(
            result,
            outcome(
                text@,
                grapheme_clusters(text@),
                Config { target_width, ratio_max, ..default_config() },
            ),
        ),
        text@.len() == 0 ==> is_outcome(result, Ok(text@)),
{
    let config: Config = Config {
        target_width,
        ratio_max,
        hyphen_penalty_value: HYPHEN_PENALTY_VALUE,
        reject_unrecognized: false,
    };
    break_paragraph_with(text, &config)
}

} // verus!
