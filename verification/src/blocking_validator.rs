use vstd::prelude::*;
use crate::object::NodeId;

verus! {

/// The binding of a clause's variables to tableau nodes while the blocking
/// validator matches it.
#[derive(Clone, Debug)]
pub struct ClauseBinding {
    pub x_node: NodeId,
    pub y_nodes: Vec<Option<NodeId>>,
    pub z_nodes: Vec<Option<NodeId>>,
}

} // verus!
