use hermit_tableau::merging_manager::{
    choose_merge_direction, cluster_anchor, is_descendant_of_at_most_three_levels, merge_precedence,
};
use hermit_tableau::node::Node;
use hermit_tableau::node_type::NodeType;

fn node(node_type: NodeType, parent: Option<usize>, positive: i32) -> Node {
    let mut n = Node::new_empty();
    n.node_type = node_type;
    n.parent = parent;
    n.number_of_positive_atomic_concepts = positive;
    n
}

/// 0: named root; 1: tree child of 0; 2: tree child of 1; 3: tree child of 2;
/// 4: tree child of 3; 5: NI node under 0; 6: named root.
fn arena() -> Vec<Node> {
    vec![
        node(NodeType::NamedNode, None, 0),
        node(NodeType::TreeNode, Some(0), 2),
        node(NodeType::TreeNode, Some(1), 1),
        node(NodeType::TreeNode, Some(2), 0),
        node(NodeType::TreeNode, Some(3), 0),
        node(NodeType::NiNode, Some(0), 0),
        node(NodeType::NamedNode, None, 3),
    ]
}

#[test]
fn precedence_and_anchor() {
    let nodes = arena();
    assert_eq!(merge_precedence(&nodes, 0), 0);
    assert_eq!(merge_precedence(&nodes, 5), 1);
    assert_eq!(merge_precedence(&nodes, 2), 2);
    assert_eq!(cluster_anchor(&nodes, 2), Some(2));
    assert_eq!(cluster_anchor(&nodes, 5), Some(0));
    assert_eq!(cluster_anchor(&nodes, 0), None);
}

#[test]
fn descent_is_checked_up_to_three_levels() {
    let nodes = arena();
    assert!(is_descendant_of_at_most_three_levels(&nodes, Some(2), Some(1)));
    assert!(is_descendant_of_at_most_three_levels(&nodes, Some(3), Some(1)));
    assert!(is_descendant_of_at_most_three_levels(&nodes, Some(4), Some(1)));
    assert!(!is_descendant_of_at_most_three_levels(&nodes, Some(4), Some(0)));
    assert!(!is_descendant_of_at_most_three_levels(&nodes, None, Some(0)));
    assert!(is_descendant_of_at_most_three_levels(&nodes, Some(0), None));
}

#[test]
fn the_lower_precedence_survives() {
    let nodes = arena();
    assert_eq!(choose_merge_direction(&nodes, 0, 2), (2, 0));
    assert_eq!(choose_merge_direction(&nodes, 2, 0), (2, 0));
    assert_eq!(choose_merge_direction(&nodes, 5, 0), (5, 0));
}

#[test]
fn between_equal_precedence_the_poorer_node_goes() {
    let nodes = arena();
    // Two named roots share the parent `None`: the one with fewer positive
    // atomic concepts is merged away.
    assert_eq!(choose_merge_direction(&nodes, 0, 6), (0, 6));
    assert_eq!(choose_merge_direction(&nodes, 6, 0), (0, 6));
    // Tree nodes 2 and 3: 3 lies below the anchor of 2 (2 itself), while 2
    // does not lie below the anchor of 3, so only 3 can go.
    assert_eq!(choose_merge_direction(&nodes, 3, 2), (3, 2));
    assert_eq!(choose_merge_direction(&nodes, 2, 3), (3, 2));
}
