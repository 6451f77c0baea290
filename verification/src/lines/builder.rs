//! The node builder: one node for each grapheme cluster of the text, so that
//! the index of a node is the index of its cluster.
//!
//! Glue and penalties take the place of the box of their character: a space
//! and a hyphen have no box of their own.

use vstd::prelude::*;
use crate::lines::constants::{
    box_width, glue_for, glue_spec, hyphen_penalty, hyphen_penalty_spec, width_of,
};
use crate::lines::error::BreakError;
use crate::lines::nodes::Node;
use crate::lines::segment::{clusters_view, grapheme_clusters, graphemes};

verus! {

/// The node of a cluster that the metrics table knows: glue for a space, a
/// comma, a semicolon and a period, a flagged penalty for a hyphen, and a
/// box for every other character of the table. A cluster of more than one
/// character is not in the table.
pub open spec fn node_for(cluster: Seq<char>, hyphen_cost: i32) -> Option<Node> {
    if cluster.len() == 1 {
        let grapheme = cluster[0];
        match glue_spec(grapheme) {
            Some(glue) => Some(
                Node::Glue {
                    width: glue.width,
                    stretchability: glue.stretchability,
                    shrinkability: glue.shrinkability,
                },
            ),
            None => if grapheme == '-' {
                Some(
                    Node::Penalty {
                        width: hyphen_penalty_spec(hyphen_cost).width,
                        penalty: hyphen_penalty_spec(hyphen_cost).penalty,
                        flagged: hyphen_penalty_spec(hyphen_cost).flagged,
                    },
                )
            } else {
                match box_width(grapheme) {
                    Some(width) => Some(Node::Box { width }),
                    None => None,
                }
            },
        }
    } else {
        None
    }
}

/// The node that stands for a cluster that is not in the table, when such
/// clusters are let through: a box of no width.
pub open spec fn unknown_box() -> Node {
    Node::Box { width: 0 }
}

/// The index of the first cluster from `from` on that is not in the table.
pub open spec fn first_unrecognized(
    clusters: Seq<Seq<char>>,
    hyphen_cost: i32,
    from: int,
) -> Option<int>
    decreases clusters.len() - from,
{
    if from < 0 || from >= clusters.len() {
        None
    } else if node_for(clusters[from], hyphen_cost) is None {
        Some(from)
    } else {
        first_unrecognized(clusters, hyphen_cost, from + 1)
    }
}

/// The nodes of a segmented text: the node of each cluster, with the
/// box of no width for a cluster that is not in the table. With `reject` set,
/// the first such cluster is an error instead.
pub open spec fn nodes_of(clusters: Seq<Seq<char>>, hyphen_cost: i32, reject: bool) -> Result<
    Seq<Node>,
    BreakError,
> {
    match first_unrecognized(clusters, hyphen_cost, 0) {
        Some(position) if reject => Err(
            BreakError::UnrecognizedCharacter { position: position as usize },
        ),
        _ => Ok(
            Seq::new(
                clusters.len(),
                |i: int|
                    match node_for(clusters[i], hyphen_cost) {
                        Some(node) => node,
                        None => unknown_box(),
                    },
            ),
        ),
    }
}

/// `first_unrecognized` finds the least index that is not in the table.
pub proof fn lemma_first_unrecognized(clusters: Seq<Seq<char>>, hyphen_cost: i32, from: int)
    requires
        0 <= from,
    ensures
        match first_unrecognized(clusters, hyphen_cost, from) {
            Some(position) => {
                &&& from <= position < clusters.len()
                &&& node_for(clusters[position], hyphen_cost) is None
                &&& forall|i: int|
                    from <= i < position ==> (#[trigger] node_for(clusters[i], hyphen_cost))
                        is Some
            },
            None => forall|i: int|
                from <= i < clusters.len() ==> (#[trigger] node_for(clusters[i], hyphen_cost))
                    is Some,
        },
    decreases clusters.len() - from,
{
    if from < clusters.len() && node_for(clusters[from], hyphen_cost) is Some {
        lemma_first_unrecognized(clusters, hyphen_cost, from + 1);
    }
}

/// The node of one cluster, if the metrics table knows it.
pub fn node_of(cluster: &Vec<char>, hyphen_cost: i32) -> (node: Option<Node>)
    ensures
        node == node_for(cluster@, hyphen_cost),
{
    if cluster.len() != 1 {
        return None;
    }
    let grapheme: char = cluster[0];
    match glue_for(grapheme) {
        Some(glue) => Some(
            Node::Glue {
                width: glue.width,
                stretchability: glue.stretchability,
                shrinkability: glue.shrinkability,
            },
        ),
        None => if grapheme == '-' {
            let hyphen = hyphen_penalty(hyphen_cost);
            Some(
                Node::Penalty {
                    width: hyphen.width,
                    penalty: hyphen.penalty,
                    flagged: hyphen.flagged,
                },
            )
        } else {
            match width_of(grapheme) {
                Some(width) => Some(Node::Box { width }),
                None => None,
            }
        },
    }
}

/// The nodes of a text that is already split into grapheme clusters: one
/// node for each cluster, in order. A cluster that the metrics table does
/// not know becomes a box of no width, or, with `reject` set, ends the work
/// with the index of the first such cluster.
pub fn build_nodes(clusters: &Vec<Vec<char>>, hyphen_cost: i32, reject: bool) -> (result: Result<
    Vec<Node>,
    BreakError,
>)
    ensures
        match result {
            Ok(nodes) => nodes_of(clusters_view(clusters@), hyphen_cost, reject) == Ok::<
                Seq<Node>,
                BreakError,
            >(nodes@),
            Err(error) => nodes_of(clusters_view(clusters@), hyphen_cost, reject) == Err::<
                Seq<Node>,
                BreakError,
            >(error),
        },
{
    let ghost view = clusters_view(clusters@);
    let mut nodes: Vec<Node> = Vec::new();
    let mut index: usize = 0;
    proof {
        lemma_first_unrecognized(view, hyphen_cost, 0);
    }
    while index < clusters.len()
        invariant
            view == clusters_view(clusters@),
            index <= clusters.len(),
            nodes.len() == index,
            forall|i: int|
                0 <= i < index ==> #[trigger] nodes[i] == match node_for(view[i], hyphen_cost) {
                    Some(node) => node,
                    None => unknown_box(),
                },
            reject ==> forall|i: int|
                0 <= i < index ==> (#[trigger] node_for(view[i], hyphen_cost)) is Some,
        decreases clusters.len() - index,
    {
        assert(view[index as int] == clusters[index as int]@);
        match node_of(&clusters[index], hyphen_cost) {
            Some(node) => {
                nodes.push(node);
            },
            None => {
                if reject {
                    proof {
                        lemma_first_unrecognized(view, hyphen_cost, 0);
                        assert(first_unrecognized(view, hyphen_cost, 0) == Some(index as int));
                    }
                    return Err(BreakError::UnrecognizedCharacter { position: index });
                }
                nodes.push(Node::Box { width: 0 });
            },
        }
        index = index + 1;
    }
    proof {
        lemma_first_unrecognized(view, hyphen_cost, 0);
        assert(nodes@ =~= nodes_of(view, hyphen_cost, reject)->Ok_0);
    }
    Ok(nodes)
}

/// The nodes of `text`: the text is split into its extended grapheme
/// clusters, and each cluster gives one node.
pub fn build(text: &str, hyphen_cost: i32, reject: bool) -> (result: Result<Vec<Node>, BreakError>)
    ensures
        match result {
            Ok(nodes) => nodes_of(grapheme_clusters(text@), hyphen_cost, reject) == Ok::<
                Seq<Node>,
                BreakError,
            >(nodes@),
            Err(error) => nodes_of(grapheme_clusters(text@), hyphen_cost, reject) == Err::<
                Seq<Node>,
                BreakError,
            >(error),
        },
{
    let clusters: Vec<Vec<char>> = graphemes(text);
    build_nodes(&clusters, hyphen_cost, reject)
}

} // verus!
