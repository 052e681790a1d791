use hermit_tableau::dependency_set::{DependencySet, DependencySetFactory, DependencySetOps};
use hermit_tableau::description_graph_manager::DescriptionGraphManager;
use hermit_tableau::node::{
    add_canonical_node_dependency_set, allocate_node, destroy_node, get_canonical_node, get_node,
    initialize_node, is_ancestor_of, Node, NodeState,
};
use hermit_tableau::node_type::NodeType;

#[test]
fn signature_cache_block_counts_as_blocked() {
    let mut node = Node::new_empty();

    // Unblocked.
    node.set_blocked(None, false);
    assert!(!node.is_blocked());
    assert!(!node.is_directly_blocked());
    assert!(!node.is_indirectly_blocked());

    // Signature-cache block.
    node.set_blocked(None, true);
    assert!(node.is_blocked(), "cache-blocked node must be blocked");
    assert!(node.is_directly_blocked());
    assert!(!node.is_indirectly_blocked());

    // Directly blocked by a concrete node.
    node.set_blocked(Some(0), true);
    assert!(node.is_blocked());
    assert!(node.is_directly_blocked());
    assert!(!node.is_indirectly_blocked());

    // Indirectly blocked (parent blocked).
    node.set_blocked(Some(0), false);
    assert!(node.is_blocked());
    assert!(!node.is_directly_blocked());
    assert!(node.is_indirectly_blocked());
}

#[test]
fn a_fresh_node_is_an_unplaced_tree_node() {
    let node = Node::new_empty();
    assert_eq!(node.get_node_id(), -1);
    assert!(node.is_root_node());
    assert_eq!(node.get_node_type(), NodeType::TreeNode);
    assert!(!node.is_active());
    assert!(!node.is_merged());
    assert!(!node.is_pruned());
    assert!(!node.has_unprocessed_existentials());
    assert!(node.get_some_unprocessed_existential().is_none());
    assert_eq!(node.get_blocker(), None);
}

#[test]
fn node_state_answers() {
    let mut node = Node::new_empty();
    node.node_state = Some(NodeState::Merged);
    node.merged_into = Some(4);
    assert!(node.is_merged());
    assert!(!node.is_active());
    assert_eq!(node.get_merged_into(), Some(4));
    node.node_state = Some(NodeState::Active);
    assert!(node.is_active());
}

#[test]
fn invalidating_the_blocking_cache_marks_a_change() {
    let mut node = Node::new_empty();
    node.blocking_label_cache = Some(Vec::new());
    node.invalidate_blocking_cache();
    assert!(node.blocking_label_cache.is_none());
    assert!(node.has_blocking_info_changed);
    assert!(node.has_changed_since_validation);
}

#[test]
fn node_fields_are_read_back() {
    let mut node = Node::new_empty();
    node.parent = Some(2);
    node.tree_depth = 3;
    node.number_of_positive_atomic_concepts = 5;
    node.previous_tableau_node = Some(1);
    node.next_tableau_node = Some(7);
    assert_eq!(node.get_parent(), Some(2));
    assert!(!node.is_root_node());
    assert_eq!(node.get_tree_depth(), 3);
    assert_eq!(node.get_number_of_positive_atomic_concepts(), 5);
    assert_eq!(node.get_previous_tableau_node(), Some(1));
    assert_eq!(node.get_next_tableau_node(), Some(7));
    assert!(node.get_merged_into_dependency_set().is_none());
    assert!(node.get_unprocessed_existentials().is_empty());
}

#[test]
fn ancestors_are_found_along_parent_links() {
    let mut nodes: Vec<Node> = (0..4).map(|_| Node::new_empty()).collect();
    nodes[1].parent = Some(0);
    nodes[2].parent = Some(1);
    nodes[3].parent = Some(2);
    assert!(is_ancestor_of(&nodes, 0, 3));
    assert!(is_ancestor_of(&nodes, 2, 3));
    assert!(!is_ancestor_of(&nodes, 3, 3));
    assert!(!is_ancestor_of(&nodes, 3, 0));
    assert!(!is_ancestor_of(&nodes, 1, 0));
}

#[test]
fn the_canonical_node_ends_the_merge_chain() {
    let mut nodes: Vec<Node> = (0..4).map(|_| Node::new_empty()).collect();
    nodes[0].merged_into = Some(2);
    nodes[2].merged_into = Some(3);
    assert_eq!(get_canonical_node(&nodes, 0), 3);
    assert_eq!(get_canonical_node(&nodes, 2), 3);
    assert_eq!(get_canonical_node(&nodes, 1), 1);
    assert_eq!(get_canonical_node(&nodes, 3), 3);
}

#[test]
fn nodes_are_found_by_id_along_the_node_list() {
    let mut nodes: Vec<Node> = (0..4).map(|_| Node::new_empty()).collect();
    // The list runs 2, 0, 3; node 1 is not on it.
    nodes[2].node_id = 10;
    nodes[0].node_id = 11;
    nodes[3].node_id = 12;
    nodes[1].node_id = 13;
    nodes[2].next_tableau_node = Some(0);
    nodes[0].next_tableau_node = Some(3);
    assert_eq!(get_node(&nodes, Some(2), 11), Some(0));
    assert_eq!(get_node(&nodes, Some(2), 12), Some(3));
    assert_eq!(get_node(&nodes, Some(2), 13), None);
    assert_eq!(get_node(&nodes, None, 10), None);
}

#[test]
fn the_canonical_dependency_set_gathers_the_merge_chain() {
    let mut factory = DependencySetFactory::new();
    let empty = factory.empty_set();
    let one = factory.add_branching_point(&DependencySet::Permanent(empty.clone()), 1);
    let five = factory.add_branching_point(&DependencySet::Permanent(empty.clone()), 5);
    let three = factory.add_branching_point(&DependencySet::Permanent(empty.clone()), 3);
    let mut nodes: Vec<Node> = (0..3).map(|_| Node::new_empty()).collect();
    nodes[0].merged_into = Some(1);
    nodes[0].merged_into_dependency_set = Some(one.clone());
    nodes[1].merged_into = Some(2);
    nodes[1].merged_into_dependency_set = Some(five.clone());
    let gathered = add_canonical_node_dependency_set(&nodes, &mut factory, 0, &DependencySet::Permanent(three.clone()));
    assert_eq!(gathered.get_maximum_branching_point(), 5);
    assert!(gathered.contains_branching_point(1));
    assert!(gathered.contains_branching_point(3));
    assert!(!gathered.contains_branching_point(2));
    let alone = add_canonical_node_dependency_set(&nodes, &mut factory, 2, &DependencySet::Permanent(three.clone()));
    assert!(alone.ptr_eq(&three));
}

#[test]
fn slots_come_from_the_free_list_first() {
    let mut nodes: Vec<Node> = (0..3).map(|_| Node::new_empty()).collect();
    nodes[1].next_free_node = Some(2);
    let mut first_free = Some(1);
    let mut allocated = 3;
    assert_eq!(allocate_node(&mut nodes, &mut first_free, &mut allocated), 1);
    assert_eq!(first_free, Some(2));
    assert_eq!(nodes[1].next_free_node, None);
    assert_eq!(allocate_node(&mut nodes, &mut first_free, &mut allocated), 2);
    assert_eq!(first_free, None);
    assert_eq!(allocated, 3);
    assert_eq!(allocate_node(&mut nodes, &mut first_free, &mut allocated), 3);
    assert_eq!(nodes.len(), 4);
    assert_eq!(allocated, 4);
    assert_eq!(nodes[3].node_id, -1);
}

#[test]
fn initialising_and_destroying_a_node() {
    let mut factory = DependencySetFactory::new();
    let mut manager = DescriptionGraphManager::new(&[], false);
    let mut nodes: Vec<Node> = (0..2).map(|_| Node::new_empty()).collect();
    initialize_node(&mut nodes, &mut manager, 1, 7, Some(0), NodeType::NamedNode, 2);
    assert_eq!(nodes[1].get_node_id(), 7);
    assert!(nodes[1].is_active());
    assert_eq!(nodes[1].get_parent(), Some(0));
    assert_eq!(nodes[1].get_node_type(), NodeType::NamedNode);
    assert_eq!(nodes[1].get_tree_depth(), 2);
    assert_eq!(nodes[0].get_node_id(), -1);
    // Merged under a used set, then destroyed: the use is released.
    let empty = factory.empty_set();
    let set = factory.add_branching_point(&DependencySet::Permanent(empty), 9);
    factory.add_usage(&set);
    nodes[1].merged_into = Some(0);
    nodes[1].merged_into_dependency_set = Some(set.clone());
    destroy_node(&mut nodes, &mut manager, &mut factory, 1);
    assert_eq!(nodes[1].get_node_id(), -1);
    assert!(nodes[1].node_state.is_none());
    assert_eq!(nodes[1].get_parent(), None);
    assert_eq!(nodes[1].get_merged_into(), None);
    assert_eq!(nodes[1].get_node_type(), NodeType::NamedNode);
    factory.remove_unused_sets();
    let again = factory.add_branching_point(&DependencySet::Permanent(factory.empty_set()), 9);
    assert!(!again.ptr_eq(&set));
}
