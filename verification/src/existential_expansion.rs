use vstd::prelude::*;
use crate::node::Node;
use crate::object::NodeId;

verus! {

/// `to_node` satisfies an existential of `for_node` for good: it is the node
/// itself, its parent or its child, or a root, none of which the
/// nominal-introduction rule can merge away.
pub open spec fn permanent_satisfier(nodes: Seq<Node>, for_node: NodeId, to_node: NodeId) -> bool {
    ||| for_node == to_node
    ||| nodes[for_node as int].parent == Some(to_node)
    ||| nodes[to_node as int].parent == Some(for_node)
    ||| nodes[to_node as int].parent is None
}

/// Whether `to_node` satisfies an existential of `for_node` for good.
pub fn is_permanent_satisfier(nodes: &[Node], for_node: NodeId, to_node: NodeId) -> (r: bool)
    requires
        for_node != to_node ==> for_node < nodes@.len(),
        for_node != to_node && nodes@[for_node as int].parent != Some(to_node) ==> to_node
            < nodes@.len(),
    ensures
        r == permanent_satisfier(nodes@, for_node, to_node),
{
    for_node == to_node || nodes[for_node].get_parent() == Some(to_node)
        || nodes[to_node].get_parent() == Some(for_node) || nodes[to_node].is_root_node()
}

} // verus!
