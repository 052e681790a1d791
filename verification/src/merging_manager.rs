use vstd::prelude::*;
use crate::node::Node;
use crate::node_type::NodeType;
use crate::object::NodeId;

verus! {

/// The node that anchors the cluster of `node`: a tree node anchors its own
/// cluster, any other node is anchored at its parent.
pub open spec fn anchor_of(nodes: Seq<Node>, node: NodeId) -> Option<NodeId> {
    if nodes[node as int].node_type == NodeType::TreeNode {
        Some(node)
    } else {
        nodes[node as int].parent
    }
}

/// The nodes that the three-level descent check reads are in the arena: the
/// descendant, and each parent or grandparent it goes on to.
pub open spec fn descent_in_range(
    nodes: Seq<Node>,
    descendant: Option<NodeId>,
    ancestor: Option<NodeId>,
) -> bool {
    match descendant {
        None => true,
        Some(d) => {
            &&& d < nodes.len()
            &&& nodes[d as int].parent != ancestor ==> match nodes[d as int].parent {
                None => true,
                Some(p) => {
                    &&& p < nodes.len()
                    &&& nodes[p as int].parent != ancestor ==> match nodes[p as int].parent {
                        None => true,
                        Some(g) => g < nodes.len(),
                    }
                },
            }
        },
    }
}

/// `ancestor` is the parent, the grandparent or the great-grandparent of
/// `descendant` (a missing node counting as `None`).
pub open spec fn descends_within_three(
    nodes: Seq<Node>,
    descendant: Option<NodeId>,
    ancestor: Option<NodeId>,
) -> bool {
    match descendant {
        None => false,
        Some(d) => {
            let parent = nodes[d as int].parent;
            ||| parent == ancestor
            ||| match parent {
                None => false,
                Some(p) => {
                    let grandparent = nodes[p as int].parent;
                    ||| grandparent == ancestor
                    ||| match grandparent {
                        None => false,
                        Some(g) => nodes[g as int].parent == ancestor,
                    }
                },
            }
        },
    }
}

/// `from` may be merged into `into`: the two have one parent, or `from`
/// lies at most three levels below the anchor of `into`.
pub open spec fn can_merge_into(nodes: Seq<Node>, from: NodeId, into: NodeId) -> bool {
    ||| nodes[from as int].parent == nodes[into as int].parent
    ||| descends_within_three(nodes, Some(from), anchor_of(nodes, into))
}

/// The nodes that choosing a merge direction reads are in the arena, and
/// the two nodes can be merged one way or the other.
pub open spec fn merge_direction_defined(nodes: Seq<Node>, node0: NodeId, node1: NodeId) -> bool {
    &&& node0 < nodes.len()
    &&& node1 < nodes.len()
    &&& nodes[node0 as int].node_type.merge_precedence() == nodes[node1 as int].node_type.merge_precedence()
        ==> {
        &&& nodes[node0 as int].parent != nodes[node1 as int].parent ==> {
            &&& descent_in_range(nodes, Some(node0), anchor_of(nodes, node1))
            &&& descent_in_range(nodes, Some(node1), anchor_of(nodes, node0))
        }
        &&& can_merge_into(nodes, node0, node1) || can_merge_into(nodes, node1, node0)
    }
}

/// The merge direction, as `(merged away, merged into)`: a node of lower
/// precedence (a named node first) survives; between nodes of equal
/// precedence, the one that can be merged into the other's cluster goes, and
/// when both can, the one with fewer positive atomic concepts goes.
pub open spec fn merge_direction(nodes: Seq<Node>, node0: NodeId, node1: NodeId) -> (NodeId, NodeId) {
    let p0 = nodes[node0 as int].node_type.merge_precedence();
    let p1 = nodes[node1 as int].node_type.merge_precedence();
    if p0 < p1 {
        (node1, node0)
    } else if p0 > p1 {
        (node0, node1)
    } else {
        let c01 = can_merge_into(nodes, node0, node1);
        let c10 = can_merge_into(nodes, node1, node0);
        if c01 && c10 {
            if nodes[node0 as int].number_of_positive_atomic_concepts
                > nodes[node1 as int].number_of_positive_atomic_concepts {
                (node1, node0)
            } else {
                (node0, node1)
            }
        } else if c01 {
            (node0, node1)
        } else {
            (node1, node0)
        }
    }
}

/// The merge precedence of `node`.
pub fn merge_precedence(nodes: &[Node], node: NodeId) -> (r: i32)
    requires
        node < nodes@.len(),
    ensures
        r == nodes@[node as int].node_type.merge_precedence(),
{
    nodes[node].get_node_type().get_merge_precedence()
}

/// The anchor of the cluster of `node`.
pub fn cluster_anchor(nodes: &[Node], node: NodeId) -> (r: Option<NodeId>)
    requires
        node < nodes@.len(),
    ensures
        r == anchor_of(nodes@, node),
{
    if nodes[node].get_node_type() == NodeType::TreeNode {
        Some(node)
    } else {
        nodes[node].parent
    }
}

/// Whether `ancestor` is the parent, grandparent or great-grandparent of
/// `descendant`.
pub fn is_descendant_of_at_most_three_levels(
    nodes: &[Node],
    descendant: Option<NodeId>,
    ancestor: Option<NodeId>,
) -> (r: bool)
    requires
        descent_in_range(nodes@, descendant, ancestor),
    ensures
        r == descends_within_three(nodes@, descendant, ancestor),
{
    if let Some(descendant) = descendant {
        let parent = nodes[descendant].parent;
        if parent == ancestor {
            return true;
        }
        if let Some(parent) = parent {
            let grandparent = nodes[parent].parent;
            if grandparent == ancestor {
                return true;
            }
            if let Some(grandparent) = grandparent {
                let great = nodes[grandparent].parent;
                if great == ancestor {
                    return true;
                }
            }
        }
    }
    false
}

/// Whether `from` may be merged into `into`.
fn can_merge(nodes: &[Node], from: NodeId, into: NodeId, same_parent: bool) -> (r: bool)
    requires
        from < nodes@.len(),
        into < nodes@.len(),
        same_parent == (nodes@[from as int].parent == nodes@[into as int].parent),
        !same_parent ==> descent_in_range(nodes@, Some(from), anchor_of(nodes@, into)),
    ensures
        r == can_merge_into(nodes@, from, into),
{
    if same_parent {
        true
    } else {
        let anchor = cluster_anchor(nodes, into);
        is_descendant_of_at_most_three_levels(nodes, Some(from), anchor)
    }
}

/// Which of `node0` and `node1` is merged into the other, as `(merged away,
/// merged into)`.
pub fn choose_merge_direction(nodes: &[Node], node0: NodeId, node1: NodeId) -> (r: (NodeId, NodeId))
    requires
        merge_direction_defined(nodes@, node0, node1),
    ensures
        r == merge_direction(nodes@, node0, node1),
{
    let p0 = merge_precedence(nodes, node0);
    let p1 = merge_precedence(nodes, node1);
    if p0 < p1 {
        (node1, node0)
    } else if p0 > p1 {
        (node0, node1)
    } else {
        let same_parent = nodes[node0].parent == nodes[node1].parent;
        let can_0_into_1 = can_merge(nodes, node0, node1, same_parent);
        let can_1_into_0 = can_merge(nodes, node1, node0, same_parent);
        if can_0_into_1 && can_1_into_0 {
            if nodes[node0].number_of_positive_atomic_concepts
                > nodes[node1].number_of_positive_atomic_concepts {
                (node1, node0)
            } else {
                (node0, node1)
            }
        } else if can_0_into_1 {
            (node0, node1)
        } else {
            (node1, node0)
        }
    }
}

/// A merge never lets a node of higher precedence survive one of lower
/// precedence: the node merged away has at least the precedence of the node
/// it is merged into, and the two are the given nodes.
pub proof fn lemma_merge_keeps_the_lower_precedence(nodes: Seq<Node>, node0: NodeId, node1: NodeId)
    requires
        merge_direction_defined(nodes, node0, node1),
    ensures
        ({
            let (from, into) = merge_direction(nodes, node0, node1);
            &&& (from == node0 && into == node1) || (from == node1 && into == node0)
            &&& nodes[from as int].node_type.merge_precedence() >= nodes[into as int].node_type.merge_precedence()
        }),
{
}

/// Between two nodes of equal merge precedence that may each be merged into
/// the other, the node with fewer positive atomic concepts is merged away:
/// the node merged away never has more of them than the node it is merged
/// into.
pub proof fn lemma_merge_keeps_the_richer_node(nodes: Seq<Node>, node0: NodeId, node1: NodeId)
    requires
        merge_direction_defined(nodes, node0, node1),
        nodes[node0 as int].node_type.merge_precedence() == nodes[node1 as int].node_type.merge_precedence(),
        can_merge_into(nodes, node0, node1),
        can_merge_into(nodes, node1, node0),
    ensures
        ({
            let (from, into) = merge_direction(nodes, node0, node1);
            &&& (from == node0 && into == node1) || (from == node1 && into == node0)
            &&& nodes[from as int].number_of_positive_atomic_concepts
                <= nodes[into as int].number_of_positive_atomic_concepts
        }),
{
}

/// Two siblings of one kind can each be merged into the other, so the one
/// with fewer positive atomic concepts is merged into the other.
pub proof fn lemma_siblings_merge_into_the_richer_node(nodes: Seq<Node>, node0: NodeId, node1: NodeId)
    requires
        merge_direction_defined(nodes, node0, node1),
        nodes[node0 as int].node_type == nodes[node1 as int].node_type,
        nodes[node0 as int].parent == nodes[node1 as int].parent,
    ensures
        ({
            let (from, into) = merge_direction(nodes, node0, node1);
            &&& (from == node0 && into == node1) || (from == node1 && into == node0)
            &&& nodes[from as int].number_of_positive_atomic_concepts
                <= nodes[into as int].number_of_positive_atomic_concepts
            &&& nodes[node0 as int].number_of_positive_atomic_concepts
                < nodes[node1 as int].number_of_positive_atomic_concepts ==> from == node0
            &&& nodes[node1 as int].number_of_positive_atomic_concepts
                < nodes[node0 as int].number_of_positive_atomic_concepts ==> from == node1
        }),
{
}

/// A merge never sends a node into one of a later kind class: a named node
/// is only merged into a named node, and a nominal-introduced or root
/// constant node only into a named, nominal-introduced or root constant
/// node, never into a tree, graph or concrete node.
pub proof fn lemma_merge_respects_kind_classes(nodes: Seq<Node>, node0: NodeId, node1: NodeId)
    requires
        merge_direction_defined(nodes, node0, node1),
    ensures
        ({
            let (from, into) = merge_direction(nodes, node0, node1);
            &&& nodes[from as int].node_type is NamedNode ==> nodes[into as int].node_type is NamedNode
            &&& (nodes[from as int].node_type is NiNode || nodes[from as int].node_type is RootConstantNode)
                ==> (nodes[into as int].node_type is NamedNode || nodes[into as int].node_type is NiNode
                || nodes[into as int].node_type is RootConstantNode)
            &&& (nodes[into as int].node_type is TreeNode || nodes[into as int].node_type is GraphNode
                || nodes[into as int].node_type is ConcreteNode) ==> (nodes[from as int].node_type is TreeNode
                || nodes[from as int].node_type is GraphNode || nodes[from as int].node_type is ConcreteNode)
        }),
{
}

} // verus!
