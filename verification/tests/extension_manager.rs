use hermit_tableau::dependency_set::DependencySetFactory;
use hermit_tableau::extension_manager::{
    binary_contains, binary_tuple_active, create_binary_retrieval, create_ternary_retrieval,
    ternary_contains, ternary_tuple_active,
};
use hermit_tableau::extension_table::{new_binary_extension_table, new_ternary_extension_table, ExtensionView};
use hermit_tableau::node::{Node, NodeState};
use hermit_tableau::object::{AtLeastKind, Concept, DLPredicate, TableauObject};

fn concept(id: usize) -> TableauObject {
    TableauObject::Concept(Concept { id })
}

fn role(id: usize) -> TableauObject {
    TableauObject::DLPredicate(DLPredicate { id, arity: 2, at_least: AtLeastKind::NotAtLeast })
}

/// Nodes 0 to 3, all active but node 2.
fn nodes() -> Vec<Node> {
    (0..4)
        .map(|i| {
            let mut n = Node::new_empty();
            n.node_state = Some(if i == 2 { NodeState::Merged } else { NodeState::Active });
            n
        })
        .collect()
}

#[test]
fn tuples_are_active_when_their_nodes_are() {
    let nodes = nodes();
    assert!(binary_tuple_active(&nodes, 1));
    assert!(!binary_tuple_active(&nodes, 2));
    assert!(ternary_tuple_active(&nodes, 0, 1));
    assert!(!ternary_tuple_active(&nodes, 0, 2));
    assert!(!ternary_tuple_active(&nodes, 2, 0));
}

#[test]
fn binary_retrieval_skips_inactive_nodes_and_unmatched_columns() {
    let nodes = nodes();
    let mut factory = DependencySetFactory::new();
    let mut table = new_binary_extension_table(false);
    let empty = factory.empty_set();
    table.store_tuple(&[concept(1), TableauObject::Node(0)], empty.clone(), true, &mut factory);
    table.store_tuple(&[concept(1), TableauObject::Node(2)], empty.clone(), true, &mut factory);
    table.store_tuple(&[concept(2), TableauObject::Node(0)], empty.clone(), true, &mut factory);
    table.store_tuple(&[concept(1), TableauObject::Node(3)], empty.clone(), true, &mut factory);
    // Nothing bound: a scan of the view, ascending, without the inactive node.
    let all = create_binary_retrieval(&table, &nodes, &[-1, -1], &[], ExtensionView::Total);
    assert_eq!(all.tuple_indices, vec![0, 2, 3]);
    assert_eq!(all.position, 0);
    assert_eq!(all.view, ExtensionView::Total);
    // The concept bound: along the index, in its order.
    let bindings = [Some(concept(1))];
    let ones = create_binary_retrieval(&table, &nodes, &[0, -1], &bindings, ExtensionView::Total);
    assert_eq!(ones.tuple_indices, vec![3, 0]);
    // The node bound.
    let bindings = [Some(TableauObject::Node(0))];
    let on_zero = create_binary_retrieval(&table, &nodes, &[-1, 0], &bindings, ExtensionView::Total);
    assert_eq!(on_zero.tuple_indices, vec![2, 0]);
    // The view limits the scan.
    let none = create_binary_retrieval(&table, &nodes, &[-1, -1], &[], ExtensionView::ExtensionThis);
    assert!(none.tuple_indices.is_empty());
}

#[test]
fn ternary_retrieval_needs_both_nodes_active() {
    let nodes = nodes();
    let mut factory = DependencySetFactory::new();
    let mut table = new_ternary_extension_table(false);
    let empty = factory.empty_set();
    table.store_tuple(&[role(7), TableauObject::Node(0), TableauObject::Node(1)], empty.clone(), true, &mut factory);
    table.store_tuple(&[role(7), TableauObject::Node(0), TableauObject::Node(2)], empty.clone(), true, &mut factory);
    table.store_tuple(&[role(8), TableauObject::Node(3), TableauObject::Node(1)], empty.clone(), true, &mut factory);
    let all = create_ternary_retrieval(&table, &nodes, &[-1, -1, -1], &[], ExtensionView::Total);
    assert_eq!(all.tuple_indices, vec![0, 2]);
    let bindings = [Some(role(8))];
    let eights = create_ternary_retrieval(&table, &nodes, &[0, -1, -1], &bindings, ExtensionView::Total);
    assert_eq!(eights.tuple_indices, vec![2]);
}

#[test]
fn containment_asks_for_active_nodes() {
    let nodes = nodes();
    let mut factory = DependencySetFactory::new();
    let mut binary = new_binary_extension_table(false);
    let mut ternary = new_ternary_extension_table(false);
    let empty = factory.empty_set();
    binary.store_tuple(&[concept(1), TableauObject::Node(0)], empty.clone(), true, &mut factory);
    binary.store_tuple(&[concept(1), TableauObject::Node(2)], empty.clone(), true, &mut factory);
    ternary.store_tuple(&[role(7), TableauObject::Node(0), TableauObject::Node(1)], empty.clone(), true, &mut factory);
    ternary.store_tuple(&[role(7), TableauObject::Node(1), TableauObject::Node(2)], empty.clone(), true, &mut factory);
    assert!(binary_contains(&binary, &nodes, &[concept(1), TableauObject::Node(0)]));
    assert!(!binary_contains(&binary, &nodes, &[concept(1), TableauObject::Node(2)]));
    assert!(!binary_contains(&binary, &nodes, &[concept(1), TableauObject::Node(1)]));
    assert!(ternary_contains(&ternary, &nodes, &[role(7), TableauObject::Node(0), TableauObject::Node(1)]));
    assert!(!ternary_contains(&ternary, &nodes, &[role(7), TableauObject::Node(1), TableauObject::Node(2)]));
    assert!(!ternary_contains(&ternary, &nodes, &[role(7), TableauObject::Node(1), TableauObject::Node(0)]));
}
