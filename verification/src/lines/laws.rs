//! What holds of every paragraph: of the lines that are chosen, and of the
//! paragraphs for which none can be.

use vstd::prelude::*;
use crate::lines::annotate::{breaks_on_way, chosen_positions, link, strictly_ascending};
use crate::lines::builder::nodes_of;
use crate::lines::nodes::{total_shrinkability, total_width, Node};
use crate::lines::optimizer::{
    lemma_choice, lemma_point, lemma_table_ascends, problem, valid_breakpoints, Problem,
};
use crate::lines::paragraph::chosen_breaks;
use crate::lines::ratio::{line_ratio, Ratio};
use crate::lines::scanner::{
    breakpoint_at, feasible_breakpoints, is_feasible_position, lemma_feasible_breakpoints,
    lemma_totals_in_range, Breakpoint,
};

verus! {

/// Where line `k` of a paragraph starts, given the positions at which its
/// lines are broken: line 0 starts with the paragraph, line `k` at break
/// `k - 1`, and what follows the last line starts at `end`.
pub open spec fn line_bound(breaks: Seq<usize>, end: int, k: int) -> int {
    if k <= 0 {
        0
    } else if k <= breaks.len() {
        breaks[k - 1] as int
    } else {
        end
    }
}

/// The adjustment ratio of line `k` of `nodes` when broken at `breaks`.
pub open spec fn ratio_of_line(
    nodes: Seq<Node>,
    breaks: Seq<usize>,
    target_width: u32,
    k: int,
) -> Ratio {
    line_ratio(
        breakpoint_at(nodes, line_bound(breaks, nodes.len() as int, k)),
        breakpoint_at(nodes, line_bound(breaks, nodes.len() as int, k + 1)),
        target_width,
    )
}

/// Valid breakpoints are no more than the nodes.
pub proof fn lemma_valid_count(nodes: Seq<Node>, breakpoints: Seq<Breakpoint>, i: int)
    requires
        valid_breakpoints(nodes, breakpoints),
        0 <= i < breakpoints.len(),
    ensures
        breakpoints[i].position >= i,
        breakpoints.len() <= nodes.len(),
    decreases breakpoints.len() - i,
{
    if i > 0 {
        lemma_position_at_least(nodes, breakpoints, i);
    }
    let last = breakpoints.len() - 1;
    lemma_position_at_least(nodes, breakpoints, last);
}

/// The breakpoint of index `i` stands at position `i` or behind it.
proof fn lemma_position_at_least(nodes: Seq<Node>, breakpoints: Seq<Breakpoint>, i: int)
    requires
        valid_breakpoints(nodes, breakpoints),
        0 <= i < breakpoints.len(),
    ensures
        breakpoints[i].position >= i,
    decreases i,
{
    if i > 0 {
        lemma_position_at_least(nodes, breakpoints, i - 1);
        assert(breakpoints[i - 1].position < breakpoints[i].position);
    }
}

/// In the table of a search, a reached point is linked to the point before
/// it on its cheapest way, and no other point is linked at all.
pub proof fn lemma_link(pb: Problem, b: int)
    requires
        pb.wf(),
        0 <= b <= pb.last(),
    ensures
        link(pb.table(), b) == if b > 0 && pb.reached(b) {
            Some(pb.choice(b).unwrap().predecessor)
        } else {
            None
        },
{
    lemma_point(pb, b);
    if pb.breakpoints.len() > 0 {
        lemma_valid_count(pb.nodes, pb.breakpoints, 0);
    }
    if b > 0 && pb.reached(b) {
        lemma_choice(pb, b);
    }
}

/// Every line on the cheapest way to a reached point is admissible: its
/// adjustment ratio lies between -1 and the tolerance, or it is infinitely
/// loose.
pub proof fn lemma_way_lines(pb: Problem, b: int, k: int)
    requires
        pb.wf(),
        0 <= b <= pb.last(),
        pb.reached(b),
        0 <= k <= breaks_on_way(pb.table(), b).len(),
    ensures
        line_ratio(
            breakpoint_at(
                pb.nodes,
                line_bound(breaks_on_way(pb.table(), b), pb.point(b).position as int, k),
            ),
            breakpoint_at(
                pb.nodes,
                line_bound(breaks_on_way(pb.table(), b), pb.point(b).position as int, k + 1),
            ),
            pb.target_width,
        ).admissible(pb.ratio_max),
    decreases b,
{
    let table = pb.table();
    let way = breaks_on_way(table, b);
    let end = pb.point(b).position as int;
    lemma_link(pb, b);
    lemma_point(pb, b);
    lemma_point(pb, 0);
    if b == 0 {
        assert(way.len() == 0);
    } else {
        lemma_choice(pb, b);
        let p = pb.choice(b).unwrap().predecessor;
        lemma_link(pb, p);
        lemma_point(pb, p);
        assert(table[p] == pb.solved(p));
        assert(table[p].position == pb.point(p).position);
        if p == 0 {
            assert(way.len() == 0);
            assert(pb.ratio(0, b).admissible(pb.ratio_max));
        } else {
            let before = breaks_on_way(table, p);
            let middle = pb.point(p).position as int;
            assert(way == before.push(table[p].position));
            if k < way.len() {
                lemma_way_lines(pb, p, k);
                assert(line_bound(way, end, k) == line_bound(before, middle, k));
                assert(line_bound(way, end, k + 1) == line_bound(before, middle, k + 1));
            } else {
                assert(line_bound(way, end, k) == middle);
                assert(line_bound(way, end, k + 1) == end);
                assert(pb.ratio(p, b).admissible(pb.ratio_max));
            }
        }
    }
}

/// Every position on the cheapest way to a reached point is the position of
/// one of the breakpoints.
pub proof fn lemma_way_positions(pb: Problem, b: int, k: int)
    requires
        pb.wf(),
        0 <= b <= pb.last(),
        pb.reached(b),
        0 <= k < breaks_on_way(pb.table(), b).len(),
    ensures
        exists|i: int|
            0 <= i < pb.breakpoints.len() && (#[trigger] pb.breakpoints[i]).position
                == breaks_on_way(pb.table(), b)[k],
    decreases b,
{
    let table = pb.table();
    lemma_link(pb, b);
    if b > 0 {
        lemma_choice(pb, b);
        let p = pb.choice(b).unwrap().predecessor;
        lemma_link(pb, p);
        if p > 0 {
            let before = breaks_on_way(table, p);
            assert(breaks_on_way(table, b) == before.push(table[p].position));
            if k < before.len() {
                lemma_way_positions(pb, p, k);
            } else {
                assert(table[p] == pb.solved(p));
                assert(pb.breakpoints[p - 1].position == table[p].position);
            }
        }
    }
}

/// The chosen line ends are strictly ascending, and each of them is a place
/// where a line may end.
pub proof fn lemma_chosen_breaks_ascend(nodes: Seq<Node>, target_width: u32, ratio_max: u16)
    requires
        nodes.len() <= usize::MAX,
        chosen_breaks(nodes, target_width, ratio_max) is Some,
    ensures
        strictly_ascending(chosen_breaks(nodes, target_width, ratio_max).unwrap()),
        forall|k: int|
            0 <= k < chosen_breaks(nodes, target_width, ratio_max).unwrap().len()
                ==> is_feasible_position(
                nodes,
                (#[trigger] chosen_breaks(nodes, target_width, ratio_max).unwrap()[k]) as int,
            ),
{
    let pb = problem(nodes, feasible_breakpoints(nodes), target_width, ratio_max);
    let breaks = chosen_breaks(nodes, target_width, ratio_max).unwrap();
    lemma_feasible_breakpoints(nodes);
    lemma_table_ascends(pb);
    crate::lines::annotate::lemma_breaks_ascend(pb.table(), pb.last());
    assert forall|k: int| 0 <= k < breaks.len() implies is_feasible_position(
        nodes,
        (#[trigger] breaks[k]) as int,
    ) by {
        lemma_way_positions(pb, pb.last(), k);
    }
}

/// Every chosen line has an adjustment ratio between -1 and `ratio_max`,
/// unless it is infinitely loose: too narrow, with nothing in it that
/// stretches.
pub proof fn lemma_chosen_lines_admissible(
    nodes: Seq<Node>,
    target_width: u32,
    ratio_max: u16,
    k: int,
)
    requires
        nodes.len() <= usize::MAX,
        chosen_breaks(nodes, target_width, ratio_max) is Some,
        0 <= k <= chosen_breaks(nodes, target_width, ratio_max).unwrap().len(),
    ensures
        ({
            let ratio = ratio_of_line(
                nodes,
                chosen_breaks(nodes, target_width, ratio_max).unwrap(),
                target_width,
                k,
            );
            ratio is PosInfinity || ratio.within(ratio_max)
        }),
{
    let pb = problem(nodes, feasible_breakpoints(nodes), target_width, ratio_max);
    lemma_feasible_breakpoints(nodes);
    lemma_table_ascends(pb);
    lemma_point(pb, pb.last());
    lemma_way_lines(pb, pb.last(), k);
}

/// A paragraph in which no line may end anywhere is set on one line if that
/// line is admissible, and cannot be broken if it is not.
pub proof fn lemma_unbroken(nodes: Seq<Node>, target_width: u32, ratio_max: u16)
    requires
        nodes.len() <= usize::MAX,
        forall|p: int| !is_feasible_position(nodes, p),
    ensures
        chosen_breaks(nodes, target_width, ratio_max) == if line_ratio(
            breakpoint_at(nodes, 0),
            breakpoint_at(nodes, nodes.len() as int),
            target_width,
        ).admissible(ratio_max) {
            Some(Seq::<usize>::empty())
        } else {
            None
        },
{
    let pb = problem(nodes, feasible_breakpoints(nodes), target_width, ratio_max);
    lemma_feasible_breakpoints(nodes);
    if feasible_breakpoints(nodes).len() > 0 {
        let b = feasible_breakpoints(nodes)[0];
        assert(is_feasible_position(nodes, b.position as int));
    }
    assert(pb.last() == 1);
    reveal_with_fuel(Problem::best_before, 3);
    assert(pb.survives(0, 1));
    lemma_link(pb, 1);
    lemma_link(pb, 0);
    if pb.reached(1) {
        assert(chosen_positions(pb.table()) =~= Seq::<usize>::empty());
    }
}

/// A paragraph in which no line may end anywhere, and which is wider than
/// the line by more than it can shrink, cannot be broken.
pub proof fn lemma_too_wide_to_break(nodes: Seq<Node>, target_width: u32, ratio_max: u16)
    requires
        nodes.len() <= usize::MAX,
        forall|p: int| !is_feasible_position(nodes, p),
        total_width(nodes, nodes.len() as int) > target_width + total_shrinkability(
            nodes,
            nodes.len() as int,
        ),
    ensures
        chosen_breaks(nodes, target_width, ratio_max) is None,
{
    lemma_unbroken(nodes, target_width, ratio_max);
    lemma_totals_in_range(nodes, nodes.len() as int);
}

/// Boxes do not shrink.
pub proof fn lemma_boxes_do_not_shrink(nodes: Seq<Node>, end: int)
    requires
        forall|i: int| 0 <= i < nodes.len() ==> (#[trigger] nodes[i]) is Box,
        0 <= end <= nodes.len(),
    ensures
        total_shrinkability(nodes, end) == 0,
    decreases end,
{
    if end > 0 {
        lemma_boxes_do_not_shrink(nodes, end - 1);
    }
}

/// A paragraph of boxes only, with no glue and no penalty anywhere, is set
/// on one line while it is no wider than the line, and cannot be broken once
/// it is wider, whatever the tolerance.
pub proof fn lemma_boxes_only(nodes: Seq<Node>, target_width: u32, ratio_max: u16)
    requires
        nodes.len() <= usize::MAX,
        forall|i: int| 0 <= i < nodes.len() ==> (#[trigger] nodes[i]) is Box,
    ensures
        chosen_breaks(nodes, target_width, ratio_max) == if total_width(
            nodes,
            nodes.len() as int,
        ) > target_width {
            None
        } else {
            Some(Seq::<usize>::empty())
        },
{
    lemma_unbroken(nodes, target_width, ratio_max);
    lemma_boxes_do_not_shrink(nodes, nodes.len() as int);
    lemma_totals_in_range(nodes, nodes.len() as int);
    crate::lines::nodes::lemma_totals_monotone(nodes, 0, nodes.len() as int);
    let ratio = line_ratio(
        breakpoint_at(nodes, 0),
        breakpoint_at(nodes, nodes.len() as int),
        target_width,
    );
    if total_width(nodes, nodes.len() as int) < target_width {
        lemma_boxes_do_not_stretch(nodes, nodes.len() as int);
        assert(ratio is PosInfinity);
    }
}

/// Boxes do not stretch.
pub proof fn lemma_boxes_do_not_stretch(nodes: Seq<Node>, end: int)
    requires
        forall|i: int| 0 <= i < nodes.len() ==> (#[trigger] nodes[i]) is Box,
        0 <= end <= nodes.len(),
    ensures
        crate::lines::nodes::total_stretchability(nodes, end) == 0,
    decreases end,
{
    if end > 0 {
        lemma_boxes_do_not_stretch(nodes, end - 1);
    }
}

/// An empty paragraph has no line ends, and is no error.
pub proof fn lemma_empty_paragraph(target_width: u32, ratio_max: u16)
    ensures
        chosen_breaks(Seq::<Node>::empty(), target_width, ratio_max) == Some(
            Seq::<usize>::empty(),
        ),
{
    lemma_boxes_only(Seq::<Node>::empty(), target_width, ratio_max);
}

/// A way through the points to point `b`: it starts at the start of the
/// paragraph, ascends, and each of its steps is an admissible line from a
/// point that is still active when the line ends.
pub open spec fn is_way(pb: Problem, way: Seq<int>, b: int) -> bool {
    &&& way.len() >= 1
    &&& way[0] == 0
    &&& way[way.len() - 1] == b
    &&& forall|i: int|
        0 <= i < way.len() - 1 ==> {
            &&& 0 <= #[trigger] way[i] < way[i + 1]
            &&& pb.survives(way[i], way[i + 1])
            &&& pb.ratio(way[i], way[i + 1]).admissible(pb.ratio_max)
        }
}

/// The demerits of all lines of a way.
pub open spec fn way_demerits(pb: Problem, way: Seq<int>) -> int
    decreases way.len(),
{
    if way.len() <= 1 {
        0
    } else {
        way_demerits(pb, way.drop_last()) + pb.line_demerits(
            way[way.len() - 2],
            way[way.len() - 1],
        )
    }
}

/// The way that the search chooses to point `b`.
pub open spec fn chosen_way(pb: Problem, b: int) -> Seq<int>
    decreases b,
{
    if b > 0 && pb.reached(b) && 0 <= pb.choice(b).unwrap().predecessor < b {
        chosen_way(pb, pb.choice(b).unwrap().predecessor).push(b)
    } else {
        seq![b]
    }
}

/// No way to a point costs less than what the search records for it; and
/// where there is a way to a point, the search reaches it.
pub proof fn lemma_no_cheaper_way(pb: Problem, way: Seq<int>, b: int)
    requires
        is_way(pb, way, b),
    ensures
        pb.reached(b),
        pb.cost(b) <= way_demerits(pb, way),
    decreases way.len(),
{
    if way.len() > 1 {
        let a = way[way.len() - 2];
        let before = way.drop_last();
        assert(way[way.len() - 2] < way[way.len() - 2 + 1]);
        assert forall|i: int| 0 <= i < before.len() - 1 implies {
            &&& 0 <= #[trigger] before[i] < before[i + 1]
            &&& pb.survives(before[i], before[i + 1])
            &&& pb.ratio(before[i], before[i + 1]).admissible(pb.ratio_max)
        } by {
            assert(before[i] == way[i]);
            assert(before[i + 1] == way[i + 1]);
        }
        lemma_no_cheaper_way(pb, before, a);
        assert(pb.usable(a, b));
        if !pb.reached(b) {
            crate::lines::optimizer::lemma_not_reached(pb, b);
        }
        lemma_choice(pb, b);
    }
}

/// What the search records for a reached point is the cost of a way to it:
/// of the way that it chooses.
pub proof fn lemma_chosen_way(pb: Problem, b: int)
    requires
        0 <= b,
        pb.reached(b),
    ensures
        is_way(pb, chosen_way(pb, b), b),
        way_demerits(pb, chosen_way(pb, b)) == pb.cost(b),
    decreases b,
{
    if b > 0 {
        lemma_choice(pb, b);
        let p = pb.choice(b).unwrap().predecessor;
        lemma_chosen_way(pb, p);
        let before = chosen_way(pb, p);
        let way = chosen_way(pb, b);
        assert(way == before.push(b));
        assert(way.drop_last() =~= before);
        assert forall|i: int| 0 <= i < way.len() - 1 implies {
            &&& 0 <= #[trigger] way[i] < way[i + 1]
            &&& pb.survives(way[i], way[i + 1])
            &&& pb.ratio(way[i], way[i + 1]).admissible(pb.ratio_max)
        } by {
            if i < before.len() - 1 {
                assert(way[i] == before[i]);
                assert(way[i + 1] == before[i + 1]);
            }
        }
    }
}

/// The chosen line ends are the positions of the points on the chosen way,
/// but for its two ends.
pub proof fn lemma_breaks_are_the_way(pb: Problem, b: int, k: int)
    requires
        pb.wf(),
        0 <= b <= pb.last(),
        pb.reached(b),
        0 <= k < breaks_on_way(pb.table(), b).len(),
    ensures
        breaks_on_way(pb.table(), b).len() == chosen_way(pb, b).len() - 2,
        breaks_on_way(pb.table(), b)[k] == pb.point(chosen_way(pb, b)[k + 1]).position,
    decreases b,
{
    lemma_way_length(pb, b);
    let table = pb.table();
    lemma_link(pb, b);
    if b > 0 {
        lemma_choice(pb, b);
        let p = pb.choice(b).unwrap().predecessor;
        lemma_link(pb, p);
        lemma_way_length(pb, p);
        if p > 0 {
            let before = breaks_on_way(table, p);
            assert(breaks_on_way(table, b) == before.push(table[p].position));
            assert(table[p] == pb.solved(p));
            lemma_chosen_way(pb, p);
            if k < before.len() {
                lemma_breaks_are_the_way(pb, p, k);
            }
        }
    }
}

/// The chosen way to a reached point has two points more than there are line
/// ends on it, or is the start alone.
pub proof fn lemma_way_length(pb: Problem, b: int)
    requires
        pb.wf(),
        0 <= b <= pb.last(),
        pb.reached(b),
    ensures
        b == 0 ==> chosen_way(pb, b).len() == 1 && breaks_on_way(pb.table(), b).len() == 0,
        b > 0 ==> breaks_on_way(pb.table(), b).len() == chosen_way(pb, b).len() - 2,
    decreases b,
{
    let table = pb.table();
    lemma_link(pb, b);
    if b > 0 {
        lemma_choice(pb, b);
        let p = pb.choice(b).unwrap().predecessor;
        lemma_link(pb, p);
        lemma_way_length(pb, p);
        if p > 0 {
            assert(breaks_on_way(table, b) == breaks_on_way(table, p).push(table[p].position));
        }
    }
}

/// `breaks` are the line ends of a cheapest way through the points: they
/// are the positions of the points of a way from the start to the end, but
/// for its two ends, and no way from the start to the end costs less.
pub open spec fn is_cheapest(pb: Problem, breaks: Seq<usize>) -> bool {
    let chosen = chosen_way(pb, pb.last());
    &&& is_way(pb, chosen, pb.last())
    &&& breaks.len() == chosen.len() - 2
    &&& forall|k: int|
        0 <= k < breaks.len() ==> #[trigger] breaks[k] == pb.point(chosen[k + 1]).position
    &&& forall|way: Seq<int>| #[trigger]
        is_way(pb, way, pb.last()) ==> way_demerits(pb, chosen) <= way_demerits(pb, way)
}

/// Where the end of the paragraph is reached, the chosen line ends are the
/// line ends of a cheapest way.
pub proof fn lemma_cheapest(pb: Problem)
    requires
        pb.wf(),
        pb.reached(pb.last()),
    ensures
        is_cheapest(pb, chosen_positions(pb.table())),
{
    let last = pb.last();
    let chosen = chosen_way(pb, last);
    let breaks = chosen_positions(pb.table());
    lemma_chosen_way(pb, last);
    lemma_way_length(pb, last);
    assert(pb.table().len() - 1 == last);
    assert forall|k: int| 0 <= k < breaks.len() implies #[trigger] breaks[k] == pb.point(
        chosen[k + 1],
    ).position by {
        lemma_breaks_are_the_way(pb, last, k);
    }
    assert forall|way: Seq<int>| #[trigger] is_way(pb, way, last) implies way_demerits(
        pb,
        chosen,
    ) <= way_demerits(pb, way) by {
        lemma_no_cheaper_way(pb, way, last);
    }
}

/// The nodes that are built from the metrics table have no glue that
/// shrinks by more than its width.
pub proof fn lemma_built_nodes_shrink_within_width(
    clusters: Seq<Seq<char>>,
    hyphen_cost: i32,
    reject: bool,
)
    requires
        nodes_of(clusters, hyphen_cost, reject) is Ok,
    ensures
        shrink_within_width(nodes_of(clusters, hyphen_cost, reject)->Ok_0),
{
}

/// No glue of `nodes` can shrink by more than its width.
pub open spec fn shrink_within_width(nodes: Seq<Node>) -> bool {
    forall|i: int|
        0 <= i < nodes.len() ==> (#[trigger] nodes[i]).spec_shrinkability()
            <= nodes[i].spec_width()
}

/// Where no glue shrinks by more than its width, the least width that the
/// first `end` nodes can be set to never falls as `end` grows.
pub proof fn lemma_least_width_monotone(nodes: Seq<Node>, from: int, to: int)
    requires
        shrink_within_width(nodes),
        0 <= from <= to <= nodes.len(),
    ensures
        total_width(nodes, from) - total_shrinkability(nodes, from) <= total_width(nodes, to)
            - total_shrinkability(nodes, to),
    decreases to - from,
{
    if from < to {
        lemma_least_width_monotone(nodes, from, to - 1);
        assert(nodes[to - 1].spec_shrinkability() <= nodes[to - 1].spec_width());
    }
}

/// Where no glue shrinks by more than its width, a line that is too tight
/// stays too tight however far it is drawn out: to drop a point from the
/// active set loses no admissible line.
pub proof fn lemma_tight_stays_tight(pb: Problem, a: int, k: int, b: int)
    requires
        pb.wf(),
        shrink_within_width(pb.nodes),
        0 <= a <= k <= b <= pb.last(),
        pb.ratio(a, k).too_tight(),
    ensures
        pb.ratio(a, b).too_tight(),
{
    lemma_point(pb, a);
    lemma_point(pb, k);
    lemma_point(pb, b);
    crate::lines::optimizer::lemma_points_ordered(pb, a, k);
    crate::lines::optimizer::lemma_points_ordered(pb, k, b);
    crate::lines::optimizer::lemma_points_ordered(pb, a, b);
    lemma_least_width_monotone(
        pb.nodes,
        pb.point(k).position as int,
        pb.point(b).position as int,
    );
}

/// A breaking of the paragraph: a way from its start to its end through
/// some of the points, each line of which is admissible.
pub open spec fn is_breaking(pb: Problem, way: Seq<int>) -> bool {
    &&& way.len() >= 1
    &&& way[0] == 0
    &&& way[way.len() - 1] == pb.last()
    &&& forall|i: int|
        0 <= i < way.len() - 1 ==> {
            &&& 0 <= #[trigger] way[i] < way[i + 1]
            &&& pb.ratio(way[i], way[i + 1]).admissible(pb.ratio_max)
        }
}

/// Where no glue shrinks by more than its width, the search finds a
/// breaking whenever there is one, and no breaking costs less than the one
/// it chooses.
pub proof fn lemma_no_cheaper_breaking(pb: Problem, way: Seq<int>)
    requires
        pb.wf(),
        shrink_within_width(pb.nodes),
        is_breaking(pb, way),
    ensures
        pb.reached(pb.last()),
        is_breaking(pb, chosen_way(pb, pb.last())),
        way_demerits(pb, chosen_way(pb, pb.last())) <= way_demerits(pb, way),
{
    lemma_way_bounded(way, pb.last());
    assert forall|i: int| 0 <= i < way.len() - 1 implies pb.survives(
        #[trigger] way[i],
        way[i + 1],
    ) by {
        let a = way[i];
        let b = way[i + 1];
        assert(way[i + 1] <= pb.last()) by {
            lemma_way_bounded(way, pb.last());
        }
        assert forall|k: int| a < k < b implies !(#[trigger] pb.ratio(a, k)).too_tight() by {
            if pb.ratio(a, k).too_tight() {
                lemma_tight_stays_tight(pb, a, k, b);
            }
        }
    }
    lemma_no_cheaper_way(pb, way, pb.last());
    lemma_chosen_way(pb, pb.last());
}

/// The points of an ascending way lie at or below its last point.
pub proof fn lemma_way_bounded(way: Seq<int>, last: int)
    requires
        way.len() >= 1,
        way[way.len() - 1] == last,
        forall|i: int| 0 <= i < way.len() - 1 ==> #[trigger] way[i] < way[i + 1],
    ensures
        forall|i: int| 0 <= i < way.len() ==> #[trigger] way[i] <= last,
    decreases way.len(),
{
    if way.len() > 1 {
        let before = way.drop_last();
        assert(way[way.len() - 2] < way[way.len() - 2 + 1]);
        assert forall|i: int| 0 <= i < before.len() - 1 implies #[trigger] before[i] < before[i
            + 1] by {
            assert(before[i] == way[i]);
            assert(before[i + 1] == way[i + 1]);
        }
        lemma_way_bounded(before, way[way.len() - 2]);
        assert forall|i: int| 0 <= i < way.len() implies #[trigger] way[i] <= last by {
            if i < way.len() - 1 {
                assert(before[i] == way[i]);
            }
        }
    }
}

} // verus!
