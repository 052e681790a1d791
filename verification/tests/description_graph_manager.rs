use hermit_tableau::dependency_set::DependencySetFactory;
use hermit_tableau::description_graph_manager::{DescriptionGraphManager, OccurrenceManager};
use hermit_tableau::node::{Node, NodeState};
use hermit_tableau::object::{DescriptionGraph, ExistsDescriptionGraph, TableauObject};

#[test]
fn allocates_initializes_and_reuses_records() {
    let mut occ = OccurrenceManager::new();

    // Allocate two records, prepending the second to the first's list.
    let a = occ.new_list_node();
    occ.initialize_list_node(a, 1, 10, 2, -1);
    let b = occ.new_list_node();
    occ.initialize_list_node(b, 1, 11, 3, a as i32);
    assert_ne!(a, b);

    // Components read back correctly.
    assert_eq!(occ.graph_index(b), 1);
    assert_eq!(occ.tuple_index(b), 11);
    assert_eq!(occ.position_in_tuple(b), 3);
    assert_eq!(occ.next_node(b), a as i32);
    assert_eq!(occ.next_node(a), -1);

    // Walk the list b -> a.
    let mut node = b as i32;
    let mut visited = Vec::new();
    while node != -1 {
        visited.push(occ.tuple_index(node as usize));
        node = occ.next_node(node as usize);
    }
    assert_eq!(visited, vec![11, 10]);

    // Deleting a record returns it to the free list; the next allocation
    // reuses it.
    occ.delete_list_node(b);
    let c = occ.new_list_node();
    assert_eq!(c, b);
}

#[test]
fn fresh_records_follow_each_other() {
    let mut occ = OccurrenceManager::new();
    let a = occ.new_list_node();
    let b = occ.new_list_node();
    let c = occ.new_list_node();
    assert_eq!((a, b, c), (0, 4, 8));
    assert_eq!(occ.next_node(c + 4), -1);
}

#[test]
fn clear_starts_the_free_list_again() {
    let mut occ = OccurrenceManager::new();
    let _ = occ.new_list_node();
    let _ = occ.new_list_node();
    occ.clear();
    assert_eq!(occ.new_list_node(), 0);
}

#[test]
fn set_component_writes_one_cell() {
    let mut occ = OccurrenceManager::new();
    let a = occ.new_list_node();
    occ.initialize_list_node(a, 5, 6, 7, -1);
    occ.set_component(a, 1, 42);
    assert_eq!(occ.get_component(a, 0), 5);
    assert_eq!(occ.get_component(a, 1), 42);
    assert_eq!(occ.get_component(a, 2), 7);
}

fn add_graph_tuple(
    manager: &mut DescriptionGraphManager,
    graph: &DescriptionGraph,
    graph_index: usize,
    nodes: &[usize],
    factory: &mut DependencySetFactory,
) {
    let mut tuple = vec![TableauObject::DescriptionGraph(*graph)];
    for &node in nodes {
        tuple.push(TableauObject::Node(node));
    }
    let permanent = factory.empty_set();
    manager.add_tuple(graph_index, tuple, permanent, true, factory);
}

#[test]
fn backtracking_removes_graph_tuple_and_occurrences() {
    let mut factory = DependencySetFactory::new();
    let (a, b) = (0usize, 1usize);
    let graph = DescriptionGraph { id: 3, number_of_vertices: 2 };
    let mut manager = DescriptionGraphManager::new(std::slice::from_ref(&graph), true);
    let exists_v0 = ExistsDescriptionGraph { description_graph: graph, vertex: 0 };

    manager.branching_point_pushed(1);
    add_graph_tuple(&mut manager, &graph, 0, &[a, b], &mut factory);
    assert!(manager.is_satisfied(&exists_v0, a));

    manager.backtrack(1, &mut factory);
    assert!(!manager.is_satisfied(&exists_v0, a), "a backtracked graph tuple must not persist");

    let cc = 2usize;
    add_graph_tuple(&mut manager, &graph, 0, &[a, cc], &mut factory);
    assert!(manager.is_satisfied(&exists_v0, a));
}

#[test]
fn occurrences_name_graph_and_vertex() {
    let mut factory = DependencySetFactory::new();
    let first = DescriptionGraph { id: 10, number_of_vertices: 2 };
    let second = DescriptionGraph { id: 11, number_of_vertices: 3 };
    let mut manager = DescriptionGraphManager::new(&[first, second], false);
    assert!(manager.has_description_graphs());
    add_graph_tuple(&mut manager, &second, 1, &[4, 5, 6], &mut factory);
    let second_v1 = ExistsDescriptionGraph { description_graph: second, vertex: 1 };
    let second_v0 = ExistsDescriptionGraph { description_graph: second, vertex: 0 };
    let first_v1 = ExistsDescriptionGraph { description_graph: first, vertex: 1 };
    assert!(manager.is_satisfied(&second_v1, 5));
    assert!(!manager.is_satisfied(&second_v0, 5));
    assert!(!manager.is_satisfied(&first_v1, 5));
    assert!(manager.is_satisfied(&second_v0, 4));
    // Storing the same tuple again adds no occurrence.
    add_graph_tuple(&mut manager, &second, 1, &[4, 5, 6], &mut factory);
    manager.destroy_node(5);
    assert!(!manager.is_satisfied(&second_v1, 5));
    assert!(manager.is_satisfied(&second_v0, 4));
    manager.initialize_node(4);
    assert!(!manager.is_satisfied(&second_v0, 4));
}

#[test]
fn an_empty_manager_satisfies_nothing() {
    let manager = DescriptionGraphManager::new(&[], true);
    assert!(!manager.has_description_graphs());
    let graph = DescriptionGraph { id: 1, number_of_vertices: 1 };
    let exists = ExistsDescriptionGraph { description_graph: graph, vertex: 0 };
    assert!(!manager.is_satisfied(&exists, 0));
}

#[test]
fn clearing_forgets_tuples_and_occurrences() {
    let mut factory = DependencySetFactory::new();
    let graph = DescriptionGraph { id: 2, number_of_vertices: 1 };
    let mut manager = DescriptionGraphManager::new(&[graph], true);
    add_graph_tuple(&mut manager, &graph, 0, &[8], &mut factory);
    assert!(manager.propagate_delta_new());
    assert!(!manager.propagate_delta_new());
    let exists = ExistsDescriptionGraph { description_graph: graph, vertex: 0 };
    assert!(manager.is_satisfied(&exists, 8));
    manager.clear();
    assert!(!manager.is_satisfied(&exists, 8));
    add_graph_tuple(&mut manager, &graph, 0, &[9], &mut factory);
    assert!(manager.is_satisfied(&exists, 9));
    assert!(!manager.is_satisfied(&exists, 8));
}

#[test]
fn backtracking_pops_occurrences_most_recent_first() {
    let mut factory = DependencySetFactory::new();
    let graph = DescriptionGraph { id: 5, number_of_vertices: 2 };
    let mut manager = DescriptionGraphManager::new(&[graph], true);
    let v0 = ExistsDescriptionGraph { description_graph: graph, vertex: 0 };
    let v1 = ExistsDescriptionGraph { description_graph: graph, vertex: 1 };
    add_graph_tuple(&mut manager, &graph, 0, &[1, 2], &mut factory);
    manager.propagate_delta_new();
    manager.branching_point_pushed(0);
    add_graph_tuple(&mut manager, &graph, 0, &[2, 1], &mut factory);
    add_graph_tuple(&mut manager, &graph, 0, &[3, 3], &mut factory);
    assert!(manager.is_satisfied(&v0, 2));
    assert!(manager.is_satisfied(&v1, 3));
    manager.backtrack(0, &mut factory);
    assert!(manager.is_satisfied(&v0, 1));
    assert!(manager.is_satisfied(&v1, 2));
    assert!(!manager.is_satisfied(&v0, 2));
    assert!(!manager.is_satisfied(&v1, 1));
    assert!(!manager.is_satisfied(&v0, 3));
    assert!(!manager.is_satisfied(&v1, 3));
}

#[test]
fn a_graph_tuple_is_active_while_all_its_nodes_are() {
    let mut factory = DependencySetFactory::new();
    let graph = DescriptionGraph { id: 4, number_of_vertices: 2 };
    let mut manager = DescriptionGraphManager::new(std::slice::from_ref(&graph), false);
    add_graph_tuple(&mut manager, &graph, 0, &[0, 1], &mut factory);
    let mut nodes: Vec<Node> = (0..2)
        .map(|_| {
            let mut n = Node::new_empty();
            n.node_state = Some(NodeState::Active);
            n
        })
        .collect();
    assert!(manager.tuple_is_active(0, 0, &nodes));
    nodes[1].node_state = Some(NodeState::Merged);
    assert!(!manager.tuple_is_active(0, 0, &nodes));
}
