//! The node model: a paragraph is a sequence of boxes, glue and penalties.

use vstd::prelude::*;
use crate::lines::constants::{box_width, glue_for, glue_spec, width_of, Glue};

verus! {

/// One typesetting primitive of a paragraph.
#[derive(Debug, Clone, Copy, PartialEq, Eq, Structural)]
pub enum Node {
    /// An unbreakable unit, typically one character.
    Box { width: u32 },
    /// A breakable separator that can stretch and shrink.
    Glue { width: u32, stretchability: u32, shrinkability: u32 },
    /// An optional break point that costs `penalty` when it is taken.
    Penalty { width: u32, penalty: i32, flagged: bool },
}

impl Node {
    /// The natural width that the node adds to a line.
    pub open spec fn spec_width(self) -> nat {
        match self {
            Node::Box { width } => width as nat,
            Node::Glue { width, .. } => width as nat,
            Node::Penalty { width, .. } => width as nat,
        }
    }

    /// By how much the node can grow: nothing, unless it is glue.
    pub open spec fn spec_stretchability(self) -> nat {
        match self {
            Node::Glue { stretchability, .. } => stretchability as nat,
            _ => 0,
        }
    }

    /// By how much the node can contract: nothing, unless it is glue.
    pub open spec fn spec_shrinkability(self) -> nat {
        match self {
            Node::Glue { shrinkability, .. } => shrinkability as nat,
            _ => 0,
        }
    }

    /// The cost of ending a line at the node: nothing, unless it is a penalty.
    pub open spec fn spec_penalty(self) -> int {
        match self {
            Node::Penalty { penalty, .. } => penalty as int,
            _ => 0,
        }
    }

    /// Whether the node is a flagged penalty.
    pub open spec fn spec_flagged(self) -> bool {
        match self {
            Node::Penalty { flagged, .. } => flagged,
            _ => false,
        }
    }

    pub fn width(&self) -> (width: u32)
        ensures
            width == self.spec_width(),
    {
        match self {
            Node::Box { width } => *width,
            Node::Glue { width, .. } => *width,
            Node::Penalty { width, .. } => *width,
        }
    }

    pub fn stretchability(&self) -> (stretchability: u32)
        ensures
            stretchability == self.spec_stretchability(),
    {
        match self {
            Node::Glue { stretchability, .. } => *stretchability,
            _ => 0,
        }
    }

    pub fn shrinkability(&self) -> (shrinkability: u32)
        ensures
            shrinkability == self.spec_shrinkability(),
    {
        match self {
            Node::Glue { shrinkability, .. } => *shrinkability,
            _ => 0,
        }
    }

    pub fn penalty(&self) -> (penalty: i32)
        ensures
            penalty == self.spec_penalty(),
    {
        match self {
            Node::Penalty { penalty, .. } => *penalty,
            _ => 0,
        }
    }

    pub fn is_flagged(&self) -> (flagged: bool)
        ensures
            flagged == self.spec_flagged(),
    {
        match self {
            Node::Penalty { flagged, .. } => *flagged,
            _ => false,
        }
    }
}

/// The box of one character, with the character it stands for.
#[derive(Debug, Clone, Copy, PartialEq, Eq, Structural)]
pub struct BoxNode {
    pub width: u32,
    pub grapheme: char,
}

impl BoxNode {
    /// The box of `grapheme` as the metrics table measures it. A character
    /// that the table does not hold gets a box of width 0.
    pub fn from_char(grapheme: char) -> (node: BoxNode)
        ensures
            node.grapheme == grapheme,
            node.width == match box_width(grapheme) {
                Some(width) => width,
                None => 0u32,
            },
    {
        match width_of(grapheme) {
            Some(width) => BoxNode { grapheme, width },
            _ => BoxNode { grapheme, width: 0 },
        }
    }

    pub fn from_values(width: u32, grapheme: char) -> (node: BoxNode)
        ensures
            node == (BoxNode { width, grapheme }),
    {
        BoxNode { width, grapheme }
    }

    pub fn width(&self) -> (width: u32)
        ensures
            width == self.width,
    {
        self.width
    }

    /// The node that the box is in a paragraph.
    pub fn node(&self) -> (node: Node)
        ensures
            node == (Node::Box { width: self.width }),
    {
        Node::Box { width: self.width }
    }
}

/// The glue of one character, with the character it stands for.
#[derive(Debug, Clone, Copy, PartialEq, Eq, Structural)]
pub struct GlueNode {
    pub width: u32,
    pub stretchability: u32,
    pub shrinkability: u32,
    pub grapheme: char,
}

impl GlueNode {
    /// The glue of `grapheme` as the metrics table gives it. A character that
    /// the table has no glue for gets glue of width 0 that neither stretches
    /// nor shrinks.
    pub fn from_char(grapheme: char) -> (node: GlueNode)
        ensures
            node.grapheme == grapheme,
            match glue_spec(grapheme) {
                Some(glue) => node.width == glue.width && node.stretchability
                    == glue.stretchability && node.shrinkability == glue.shrinkability,
                None => node.width == 0 && node.stretchability == 0 && node.shrinkability == 0,
            },
    {
        match glue_for(grapheme) {
            Some(Glue { width, stretchability, shrinkability }) => GlueNode {
                width,
                stretchability,
                shrinkability,
                grapheme,
            },
            _ => GlueNode { width: 0, stretchability: 0, shrinkability: 0, grapheme },
        }
    }

    pub fn from_values(
        width: u32,
        stretchability: u32,
        shrinkability: u32,
        grapheme: char,
    ) -> (node: GlueNode)
        ensures
            node == (GlueNode { width, stretchability, shrinkability, grapheme }),
    {
        GlueNode { width, stretchability, shrinkability, grapheme }
    }

    pub fn width(&self) -> (width: u32)
        ensures
            width == self.width,
    {
        self.width
    }

    /// The node that the glue is in a paragraph.
    pub fn node(&self) -> (node: Node)
        ensures
            node == (Node::Glue {
                width: self.width,
                stretchability: self.stretchability,
                shrinkability: self.shrinkability,
            }),
    {
        Node::Glue {
            width: self.width,
            stretchability: self.stretchability,
            shrinkability: self.shrinkability,
        }
    }
}

/// The sum of the widths of the first `end` nodes.
pub open spec fn total_width(nodes: Seq<Node>, end: int) -> nat
    decreases end,
{
    if end <= 0 {
        0
    } else {
        total_width(nodes, end - 1) + nodes[end - 1].spec_width()
    }
}

/// The sum of the stretchabilities of the first `end` nodes.
pub open spec fn total_stretchability(nodes: Seq<Node>, end: int) -> nat
    decreases end,
{
    if end <= 0 {
        0
    } else {
        total_stretchability(nodes, end - 1) + nodes[end - 1].spec_stretchability()
    }
}

/// The sum of the shrinkabilities of the first `end` nodes.
pub open spec fn total_shrinkability(nodes: Seq<Node>, end: int) -> nat
    decreases end,
{
    if end <= 0 {
        0
    } else {
        total_shrinkability(nodes, end - 1) + nodes[end - 1].spec_shrinkability()
    }
}

/// No node is wider than a `u32`, so the totals of `end` nodes stay below
/// `end` times that.
pub proof fn lemma_totals_bounded(nodes: Seq<Node>, end: int)
    requires
        0 <= end,
    ensures
        total_width(nodes, end) <= end * u32::MAX,
        total_stretchability(nodes, end) <= end * u32::MAX,
        total_shrinkability(nodes, end) <= end * u32::MAX,
    decreases end,
{
    if end > 0 {
        lemma_totals_bounded(nodes, end - 1);
    }
}

/// The totals never fall as more nodes are taken in.
pub proof fn lemma_totals_monotone(nodes: Seq<Node>, from: int, to: int)
    requires
        from <= to,
    ensures
        total_width(nodes, from) <= total_width(nodes, to),
        total_stretchability(nodes, from) <= total_stretchability(nodes, to),
        total_shrinkability(nodes, from) <= total_shrinkability(nodes, to),
    decreases to - from,
{
    if from < to {
        lemma_totals_monotone(nodes, from, to - 1);
    }
}

} // verus!
