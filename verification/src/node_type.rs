use vstd::prelude::*;

verus! {

/// The kind of a tableau node.
#[derive(Clone, Copy, Debug, PartialEq, Eq, Structural, Hash)]
pub enum NodeType {
    NamedNode,
    NiNode,
    RootConstantNode,
    TreeNode,
    GraphNode,
    ConcreteNode,
}

impl NodeType {
    /// The precedence used to choose the merge direction: named nodes first,
    /// then nominal-introduced and root constants, then the rest.
    pub open spec fn merge_precedence(self) -> i32 {
        match self {
            NodeType::NamedNode => 0,
            NodeType::NiNode | NodeType::RootConstantNode => 1,
            NodeType::TreeNode | NodeType::GraphNode | NodeType::ConcreteNode => 2,
        }
    }

    pub fn get_merge_precedence(self) -> (r: i32)
        ensures
            r == self.merge_precedence(),
            self is NamedNode ==> r == 0,
            (self is NiNode || self is RootConstantNode) ==> r == 1,
            (self is TreeNode || self is GraphNode || self is ConcreteNode) ==> r == 2,
    {
        match self {
            NodeType::NamedNode => 0,
            NodeType::NiNode | NodeType::RootConstantNode => 1,
            NodeType::TreeNode | NodeType::GraphNode | NodeType::ConcreteNode => 2,
        }
    }

    pub fn is_ni_target(self) -> (r: bool)
        ensures
            r <==> (self is TreeNode || self is GraphNode),
    {
        matches!(self, NodeType::TreeNode | NodeType::GraphNode)
    }

    pub fn is_abstract(self) -> (r: bool)
        ensures
            r <==> (self is NamedNode || self is NiNode || self is TreeNode || self is GraphNode),
    {
        matches!(self, NodeType::NamedNode | NodeType::NiNode | NodeType::TreeNode | NodeType::GraphNode)
    }

    /// The constant name of the node type, as the debugger lists it.
    pub fn name(self) -> (r: &'static str)
        ensures
            r@ == node_type_name(self),
    {
        match self {
            NodeType::NamedNode => "NAMED_NODE",
            NodeType::NiNode => "NI_NODE",
            NodeType::RootConstantNode => "ROOT_CONSTANT_NODE",
            NodeType::TreeNode => "TREE_NODE",
            NodeType::GraphNode => "GRAPH_NODE",
            NodeType::ConcreteNode => "CONCRETE_NODE",
        }
    }
}

/// Merge precedence ranks the kinds in three classes: named nodes first
/// (0), then nominal-introduced and root constant nodes (1), then tree, graph
/// and concrete nodes (2); a lower precedence survives a merge.
pub proof fn lemma_merge_precedence_classes(t: NodeType)
    ensures
        t is NamedNode ==> t.merge_precedence() == 0,
        (t is NiNode || t is RootConstantNode) ==> t.merge_precedence() == 1,
        (t is TreeNode || t is GraphNode || t is ConcreteNode) ==> t.merge_precedence() == 2,
        NodeType::NamedNode.merge_precedence() < NodeType::RootConstantNode.merge_precedence(),
        NodeType::RootConstantNode.merge_precedence() < NodeType::ConcreteNode.merge_precedence(),
        NodeType::RootConstantNode.merge_precedence() < NodeType::TreeNode.merge_precedence(),
        NodeType::RootConstantNode.merge_precedence() < NodeType::GraphNode.merge_precedence(),
{
}

pub open spec fn node_type_name(t: NodeType) -> Seq<char> {
    match t {
        NodeType::NamedNode => "NAMED_NODE"@,
        NodeType::NiNode => "NI_NODE"@,
        NodeType::RootConstantNode => "ROOT_CONSTANT_NODE"@,
        NodeType::TreeNode => "TREE_NODE"@,
        NodeType::GraphNode => "GRAPH_NODE"@,
        NodeType::ConcreteNode => "CONCRETE_NODE"@,
    }
}

} // verus!
