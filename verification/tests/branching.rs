use hermit_tableau::branching::{
    add_ground_disjunction, can_forget_annotation, destroy_ground_disjunction,
    ground_disjunction_is_pruned, is_parent_of, GroundDisjunctionData,
};
use hermit_tableau::dependency_set::{DependencySet, DependencySetFactory};
use hermit_tableau::node::{Node, NodeState};

/// 0 and 1: roots; 2 and 3: children of 0; 4: child of 1.
fn arena() -> Vec<Node> {
    let mut nodes: Vec<Node> = (0..5).map(|_| Node::new_empty()).collect();
    nodes[2].parent = Some(0);
    nodes[3].parent = Some(0);
    nodes[4].parent = Some(1);
    nodes
}

#[test]
fn parents_are_read_from_the_child() {
    let nodes = arena();
    assert!(is_parent_of(&nodes, 0, 2));
    assert!(!is_parent_of(&nodes, 1, 2));
    assert!(!is_parent_of(&nodes, 0, 0));
}

#[test]
fn an_annotation_is_kept_only_off_a_foreign_root() {
    let nodes = arena();
    // A root among the two nodes: forgettable.
    assert!(can_forget_annotation(&nodes, 0, 2, 1));
    // The owner is not a root: forgettable.
    assert!(can_forget_annotation(&nodes, 2, 3, 4));
    // Both are children of the root owner: forgettable.
    assert!(can_forget_annotation(&nodes, 2, 3, 0));
    // The root owner is not the parent of both: kept.
    assert!(!can_forget_annotation(&nodes, 2, 4, 0));
    assert!(!can_forget_annotation(&nodes, 2, 3, 1));
}

#[test]
fn a_ground_disjunction_is_pruned_when_an_argument_is() {
    let factory = DependencySetFactory::new();
    let mut nodes = arena();
    let gd = GroundDisjunctionData {
        header_index: 0,
        arguments: vec![2, 3],
        is_core: vec![true, true],
        dependency_set: factory.empty_set(),
        previous: None,
        next: None,
    };
    let disjunctions = vec![None, Some(gd)];
    assert!(!ground_disjunction_is_pruned(&disjunctions, &nodes, 1));
    nodes[3].node_state = Some(NodeState::Pruned);
    assert!(ground_disjunction_is_pruned(&disjunctions, &nodes, 1));
}

#[test]
fn destroying_a_ground_disjunction_releases_its_dependency_set() {
    let mut factory = DependencySetFactory::new();
    let empty = factory.empty_set();
    let set = factory.add_branching_point(&DependencySet::Permanent(empty), 4);
    factory.add_usage(&set);
    let gd = GroundDisjunctionData {
        header_index: 0,
        arguments: vec![0],
        is_core: vec![true],
        dependency_set: set.clone(),
        previous: None,
        next: None,
    };
    let mut disjunctions = vec![Some(gd)];
    destroy_ground_disjunction(&mut disjunctions, &mut factory, 0);
    assert!(disjunctions[0].is_none());
    // The set lost its only use: removing unused sets drops it, so adding the
    // point again interns a new allocation.
    factory.remove_unused_sets();
    let again = factory.add_branching_point(&DependencySet::Permanent(factory.empty_set()), 4);
    assert!(!again.ptr_eq(&set));
    // Destroying an empty slot changes nothing.
    destroy_ground_disjunction(&mut disjunctions, &mut factory, 0);
    assert!(disjunctions[0].is_none());
}

#[test]
fn ground_disjunctions_are_pushed_in_front() {
    let factory = DependencySetFactory::new();
    let data = |header_index: usize| GroundDisjunctionData {
        header_index,
        arguments: vec![0],
        is_core: vec![true],
        dependency_set: factory.empty_set(),
        previous: None,
        next: None,
    };
    let mut disjunctions = vec![Some(data(0)), Some(data(1))];
    let mut first = None;
    let mut first_unprocessed = None;
    add_ground_disjunction(&mut disjunctions, &mut first, &mut first_unprocessed, 0);
    assert_eq!(first, Some(0));
    assert_eq!(first_unprocessed, Some(0));
    assert_eq!(disjunctions[0].as_ref().unwrap().next, None);
    add_ground_disjunction(&mut disjunctions, &mut first, &mut first_unprocessed, 1);
    assert_eq!(first, Some(1));
    assert_eq!(first_unprocessed, Some(0));
    assert_eq!(disjunctions[1].as_ref().unwrap().next, Some(0));
    assert_eq!(disjunctions[1].as_ref().unwrap().previous, None);
    assert_eq!(disjunctions[0].as_ref().unwrap().previous, Some(1));
    assert_eq!(disjunctions[1].as_ref().unwrap().header_index, 1);
}
