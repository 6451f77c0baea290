//! The breakpoint scanner: one walk over the nodes that finds every place
//! where a line may end, with the totals of what stands before it.

use vstd::prelude::*;
use crate::lines::nodes::{
    lemma_totals_bounded, lemma_totals_monotone, total_shrinkability, total_stretchability,
    total_width, Node,
};

verus! {

/// A place where a line may end, or does end.
///
/// The three totals are measured from the start of the paragraph up to, and
/// not including, the node at `position`. The scanner leaves `line_number`
/// and `total_demerits` at 0 and `predecessor` empty; the optimizer fills
/// them in in a table of its own, where `predecessor` is an index into that
/// table.
#[derive(Debug, Clone, Copy, PartialEq, Eq, Structural)]
pub struct Breakpoint {
    pub position: usize,
    pub line_number: usize,
    pub total_width: u128,
    pub total_stretchability: u128,
    pub total_shrinkability: u128,
    pub total_demerits: i128,
    pub predecessor: Option<usize>,
}

impl Breakpoint {
    /// Whether `later` can end a line that starts here: none of its totals
    /// is below the total here.
    pub open spec fn precedes(self, later: Breakpoint) -> bool {
        &&& self.total_width <= later.total_width
        &&& self.total_stretchability <= later.total_stretchability
        &&& self.total_shrinkability <= later.total_shrinkability
    }
}

/// A line may end at `position` if the node there is glue that follows a box,
/// or a flagged penalty.
pub open spec fn is_feasible_position(nodes: Seq<Node>, position: int) -> bool {
    &&& 0 <= position < nodes.len()
    &&& match nodes[position] {
        Node::Glue { .. } => position > 0 && nodes[position - 1] is Box,
        Node::Penalty { flagged, .. } => flagged,
        Node::Box { .. } => false,
    }
}

/// The breakpoint that the scanner makes for `position`: the totals are the
/// sums over the nodes before `position`.
pub open spec fn breakpoint_at(nodes: Seq<Node>, position: int) -> Breakpoint {
    Breakpoint {
        position: position as usize,
        line_number: 0,
        total_width: total_width(nodes, position) as u128,
        total_stretchability: total_stretchability(nodes, position) as u128,
        total_shrinkability: total_shrinkability(nodes, position) as u128,
        total_demerits: 0,
        predecessor: None,
    }
}

/// The breakpoints of the feasible positions below `end`, in ascending order.
pub open spec fn feasible_prefix(nodes: Seq<Node>, end: int) -> Seq<Breakpoint>
    decreases end,
{
    if end <= 0 {
        Seq::empty()
    } else if is_feasible_position(nodes, end - 1) {
        feasible_prefix(nodes, end - 1).push(breakpoint_at(nodes, end - 1))
    } else {
        feasible_prefix(nodes, end - 1)
    }
}

/// The feasible set of a paragraph.
pub open spec fn feasible_breakpoints(nodes: Seq<Node>) -> Seq<Breakpoint> {
    feasible_prefix(nodes, nodes.len() as int)
}

/// What the feasible set of the first `end` nodes holds: a breakpoint for each
/// feasible position and for no other, each with its prefix sums, in strictly
/// ascending order of position.
pub proof fn lemma_feasible_prefix(nodes: Seq<Node>, end: int)
    requires
        0 <= end <= nodes.len() <= usize::MAX,
    ensures
        feasible_prefix(nodes, end).len() <= end,
        forall|i: int|
            0 <= i < feasible_prefix(nodes, end).len() ==> {
                let b = #[trigger] feasible_prefix(nodes, end)[i];
                &&& b.position < end
                &&& is_feasible_position(nodes, b.position as int)
                &&& b == breakpoint_at(nodes, b.position as int)
            },
        forall|i: int, j: int|
            0 <= i < j < feasible_prefix(nodes, end).len() ==> (#[trigger] feasible_prefix(
                nodes,
                end,
            )[i]).position < (#[trigger] feasible_prefix(nodes, end)[j]).position,
        forall|p: int|
            0 <= p < end && #[trigger] is_feasible_position(nodes, p) ==> exists|i: int|
                0 <= i < feasible_prefix(nodes, end).len() && (#[trigger] feasible_prefix(
                    nodes,
                    end,
                )[i]).position == p,
    decreases end,
{
    if end > 0 {
        lemma_feasible_prefix(nodes, end - 1);
        let before = feasible_prefix(nodes, end - 1);
        let all = feasible_prefix(nodes, end);
        if is_feasible_position(nodes, end - 1) {
            assert(all[before.len() as int].position == end - 1);
            assert forall|p: int| 0 <= p < end && #[trigger] is_feasible_position(
                nodes,
                p,
            ) implies exists|i: int|
                0 <= i < all.len() && (#[trigger] all[i]).position == p by {
                if p < end - 1 {
                    let i = choose|i: int|
                        0 <= i < before.len() && (#[trigger] before[i]).position == p;
                    assert(all[i].position == p);
                } else {
                    assert(all[before.len() as int].position == p);
                }
            }
        }
    }
}

/// Every breakpoint of the feasible set holds the sum of the node widths from
/// the start of the paragraph up to its position, and likewise for stretch
/// and shrink; the set holds each feasible position once, in ascending order.
pub proof fn lemma_feasible_breakpoints(nodes: Seq<Node>)
    requires
        nodes.len() <= usize::MAX,
    ensures
        feasible_breakpoints(nodes).len() <= nodes.len(),
        forall|i: int|
            0 <= i < feasible_breakpoints(nodes).len() ==> {
                let b = #[trigger] feasible_breakpoints(nodes)[i];
                &&& b.position < nodes.len()
                &&& is_feasible_position(nodes, b.position as int)
                &&& b == breakpoint_at(nodes, b.position as int)
                &&& b.total_width == total_width(nodes, b.position as int)
                &&& b.total_stretchability == total_stretchability(nodes, b.position as int)
                &&& b.total_shrinkability == total_shrinkability(nodes, b.position as int)
            },
        forall|i: int, j: int|
            0 <= i < j < feasible_breakpoints(nodes).len() ==> (#[trigger] feasible_breakpoints(
                nodes,
            )[i]).position < (#[trigger] feasible_breakpoints(nodes)[j]).position,
        forall|p: int| #[trigger]
            is_feasible_position(nodes, p) ==> exists|i: int|
                0 <= i < feasible_breakpoints(nodes).len() && (#[trigger] feasible_breakpoints(
                    nodes,
                )[i]).position == p,
{
    lemma_feasible_prefix(nodes, nodes.len() as int);
    assert forall|i: int| 0 <= i < feasible_breakpoints(nodes).len() implies {
        let b = #[trigger] feasible_breakpoints(nodes)[i];
        &&& b.total_width == total_width(nodes, b.position as int)
        &&& b.total_stretchability == total_stretchability(nodes, b.position as int)
        &&& b.total_shrinkability == total_shrinkability(nodes, b.position as int)
    } by {
        let b = feasible_breakpoints(nodes)[i];
        lemma_totals_bounded(nodes, b.position as int);
        assert(b.position * u32::MAX <= usize::MAX * u32::MAX) by (nonlinear_arith)
            requires
                b.position <= usize::MAX,
        ;
    }
}

/// The breakpoint that stands before the first node of any paragraph.
pub open spec fn paragraph_start() -> Breakpoint {
    Breakpoint {
        position: 0,
        line_number: 0,
        total_width: 0,
        total_stretchability: 0,
        total_shrinkability: 0,
        total_demerits: 0,
        predecessor: None,
    }
}

/// The breakpoint that stands before the first node.
pub fn start_breakpoint() -> (start: Breakpoint)
    ensures
        start == paragraph_start(),
        forall|nodes: Seq<Node>| start == #[trigger] breakpoint_at(nodes, 0),
{
    Breakpoint {
        position: 0,
        line_number: 0,
        total_width: 0,
        total_stretchability: 0,
        total_shrinkability: 0,
        total_demerits: 0,
        predecessor: None,
    }
}

/// Whether a line may end at `position`.
pub fn is_feasible(nodes: &Vec<Node>, position: usize) -> (feasible: bool)
    ensures
        feasible == is_feasible_position(nodes@, position as int),
{
    if position >= nodes.len() {
        return false;
    }
    match nodes[position] {
        Node::Glue { .. } => {
            if position == 0 {
                false
            } else {
                match nodes[position - 1] {
                    Node::Box { .. } => true,
                    _ => false,
                }
            }
        },
        Node::Penalty { flagged, .. } => flagged,
        Node::Box { .. } => false,
    }
}

/// The breakpoint at `position`, from the breakpoint before it: the totals of
/// `previous` and the nodes between the two, so that no node is summed twice.
pub fn calculate_breakpoint(nodes: &Vec<Node>, previous: &Breakpoint, position: usize) -> (next:
    Breakpoint)
    requires
        previous.position <= position <= nodes.len(),
        *previous == breakpoint_at(nodes@, previous.position as int),
    ensures
        next == breakpoint_at(nodes@, position as int),
{
    let mut width: u128 = previous.total_width;
    let mut stretch: u128 = previous.total_stretchability;
    let mut shrink: u128 = previous.total_shrinkability;
    let mut index: usize = previous.position;
    proof {
        lemma_totals_in_range(nodes@, index as int);
    }
    while index < position
        invariant
            previous.position <= index <= position <= nodes.len(),
            width == total_width(nodes@, index as int),
            stretch == total_stretchability(nodes@, index as int),
            shrink == total_shrinkability(nodes@, index as int),
        decreases position - index,
    {
        proof {
            lemma_totals_in_range(nodes@, index + 1);
        }
        let node: &Node = &nodes[index];
        width = width + node.width() as u128;
        stretch = stretch + node.stretchability() as u128;
        shrink = shrink + node.shrinkability() as u128;
        index = index + 1;
    }
    Breakpoint {
        position,
        line_number: 0,
        total_width: width,
        total_stretchability: stretch,
        total_shrinkability: shrink,
        total_demerits: 0,
        predecessor: None,
    }
}

/// The totals of a paragraph that a `Vec` can hold fit the fields of a
/// breakpoint with room to spare.
pub proof fn lemma_totals_in_range(nodes: Seq<Node>, end: int)
    requires
        0 <= end <= usize::MAX,
    ensures
        total_width(nodes, end) <= usize::MAX * u32::MAX < u128::MAX,
        total_stretchability(nodes, end) <= usize::MAX * u32::MAX,
        total_shrinkability(nodes, end) <= usize::MAX * u32::MAX,
{
    lemma_totals_bounded(nodes, end);
    assert(end * u32::MAX <= usize::MAX * u32::MAX) by (nonlinear_arith)
        requires
            0 <= end <= usize::MAX,
    ;
}

/// The feasible set of `nodes`: every position where a line may end, in
/// ascending order, each with the sums of width, stretch and shrink of the
/// nodes before it.
pub fn scan(nodes: &Vec<Node>) -> (feasible: Vec<Breakpoint>)
    ensures
        feasible@ == feasible_breakpoints(nodes@),
        forall|i: int|
            0 <= i < feasible.len() ==> {
                let b = #[trigger] feasible[i];
                &&& is_feasible_position(nodes@, b.position as int)
                &&& b.total_width == total_width(nodes@, b.position as int)
                &&& b.total_stretchability == total_stretchability(nodes@, b.position as int)
                &&& b.total_shrinkability == total_shrinkability(nodes@, b.position as int)
                &&& b.line_number == 0
                &&& b.total_demerits == 0
                &&& b.predecessor is None
            },
        forall|i: int, j: int|
            0 <= i < j < feasible.len() ==> (#[trigger] feasible[i]).position
                < (#[trigger] feasible[j]).position,
        forall|i: int, j: int|
            0 <= i <= j < feasible.len() ==> (#[trigger] feasible[i]).precedes(
                #[trigger] feasible[j],
            ),
        forall|p: int| #[trigger]
            is_feasible_position(nodes@, p) ==> exists|i: int|
                0 <= i < feasible.len() && (#[trigger] feasible[i]).position == p,
{
    let mut feasible: Vec<Breakpoint> = Vec::new();
    let mut previous: Breakpoint = start_breakpoint();
    let mut position: usize = 0;
    assert(previous == breakpoint_at(nodes@, 0));
    while position < nodes.len()
        invariant
            position <= nodes.len(),
            previous.position <= position,
            previous == breakpoint_at(nodes@, previous.position as int),
            feasible@ == feasible_prefix(nodes@, position as int),
        decreases nodes.len() - position,
    {
        if is_feasible(nodes, position) {
            let next: Breakpoint = calculate_breakpoint(nodes, &previous, position);
            feasible.push(next);
            previous = next;
        }
        position = position + 1;
    }
    proof {
        lemma_feasible_breakpoints(nodes@);
        assert forall|i: int, j: int| 0 <= i <= j < feasible.len() implies (
        #[trigger] feasible[i]).precedes(#[trigger] feasible[j]) by {
            if i < j {
                assert(feasible[i].position < feasible[j].position);
            }
            lemma_totals_monotone(nodes@, feasible[i].position as int, feasible[j].position as int);
        }
    }
    feasible
}

} // verus!
