use hermit_tableau::dependency_set::{DependencySet, DependencySetFactory};
use hermit_tableau::extension_table::{
    new_binary_extension_table, new_ternary_extension_table, ExtensionView, Retrieval,
    StoreOutcome,
};
use hermit_tableau::object::{AtLeastKind, Concept, DLPredicate, TableauObject};

fn concept(id: usize) -> TableauObject {
    TableauObject::Concept(Concept { id })
}

#[test]
fn storing_twice_finds_the_first_tuple() {
    let mut factory = DependencySetFactory::new();
    let mut table = new_binary_extension_table(true);
    let dependency_set = factory.empty_set();
    let tuple = [concept(1), TableauObject::Node(3)];
    let outcome = table.store_tuple(&tuple, dependency_set.clone(), true, &mut factory);
    assert_eq!(outcome, StoreOutcome::Added(0));
    let outcome = table.store_tuple(&tuple, dependency_set.clone(), false, &mut factory);
    assert_eq!(outcome, StoreOutcome::AlreadyPresent(0));
    assert_eq!(table.get_tuple_index(&tuple), 0);
    assert_eq!(table.get_tuple_index(&[concept(2), TableauObject::Node(3)]), -1);
    assert!(table.is_core(0));
    assert!(!table.is_core(1));
    assert_eq!(table.get_tuple_object(0, 1), &TableauObject::Node(3));
    assert!(table.get_dependency_set(0, &dependency_set).ptr_eq(&dependency_set));
}

#[test]
fn marks_move_on_with_the_delta() {
    let mut factory = DependencySetFactory::new();
    let mut table = new_binary_extension_table(false);
    let empty = factory.empty_set();
    table.store_tuple(&[concept(1), TableauObject::Node(0)], empty.clone(), true, &mut factory);
    assert_eq!(table.view_range(ExtensionView::Total), (0, 1));
    assert_eq!(table.view_range(ExtensionView::ExtensionThis), (0, 0));
    assert!(table.propagate_delta_new());
    assert_eq!(table.view_range(ExtensionView::ExtensionThis), (0, 1));
    assert_eq!(table.view_range(ExtensionView::DeltaOld), (0, 1));
    assert!(!table.propagate_delta_new());
    assert_eq!(table.view_range(ExtensionView::ExtensionOld), (0, 1));
    table.branching_point_pushed(3);
    table.clear();
    assert_eq!(table.view_range(ExtensionView::Total), (0, 0));
    assert_eq!(table.get_tuple_index(&[concept(1), TableauObject::Node(0)]), -1);
}

#[test]
fn upgrading_to_core_happens_once() {
    let mut factory = DependencySetFactory::new();
    let mut table = new_binary_extension_table(false);
    let empty = factory.empty_set();
    table.store_tuple(&[concept(1), TableauObject::Node(0)], empty, false, &mut factory);
    assert!(!table.is_core(0));
    assert!(table.upgrade_core(0, true));
    assert!(table.is_core(0));
    assert!(!table.upgrade_core(0, true));
    assert!(!table.upgrade_core(0, false));
}

#[test]
fn ternary_tables_keep_no_core_flags() {
    let mut factory = DependencySetFactory::new();
    let mut table = new_ternary_extension_table(false);
    assert_eq!(table.arity(), 3);
    let role = TableauObject::DLPredicate(DLPredicate { id: 4, arity: 2, at_least: AtLeastKind::NotAtLeast });
    let empty = factory.empty_set();
    table.store_tuple(&[role, TableauObject::Node(1), TableauObject::Node(2)], empty, false, &mut factory);
    assert!(table.is_core(0));
}

#[test]
fn indexed_retrieval_follows_the_longest_bound_prefix() {
    let mut factory = DependencySetFactory::new();
    let mut table = new_binary_extension_table(false);
    let empty = factory.empty_set();
    table.store_tuple(&[concept(1), TableauObject::Node(5)], empty.clone(), true, &mut factory);
    table.store_tuple(&[concept(2), TableauObject::Node(5)], empty.clone(), true, &mut factory);
    table.store_tuple(&[concept(1), TableauObject::Node(6)], empty.clone(), true, &mut factory);
    table.propagate_delta_new();
    // Column 1 (the node) bound to node 5: the first index leads with it.
    let bindings = [Some(TableauObject::Node(5))];
    let found = table.indexed_tuple_indices(&[-1, 0], &bindings, ExtensionView::ExtensionThis);
    assert_eq!(found, Some(vec![1, 0]));
    // Column 0 (the concept) bound to concept 1.
    let bindings = [Some(concept(1))];
    let found = table.indexed_tuple_indices(&[0, -1], &bindings, ExtensionView::ExtensionThis);
    assert_eq!(found, Some(vec![2, 0]));
    // Both bound.
    let bindings = [Some(concept(2)), Some(TableauObject::Node(5))];
    let found = table.indexed_tuple_indices(&[0, 1], &bindings, ExtensionView::Total);
    assert_eq!(found, Some(vec![1]));
    // Nothing bound.
    let found = table.indexed_tuple_indices(&[-1, -1], &[], ExtensionView::Total);
    assert_eq!(found, None);
    // The old extension is empty.
    let bindings = [Some(concept(1))];
    let found = table.indexed_tuple_indices(&[0, -1], &bindings, ExtensionView::ExtensionOld);
    assert_eq!(found, Some(Vec::new()));
}

#[test]
fn a_materialised_retrieval_walks_its_indices() {
    let mut retrieval = Retrieval { tuple_indices: vec![4, 2], position: 0, view: ExtensionView::Total };
    assert!(!retrieval.after_last());
    assert_eq!(retrieval.get_current_tuple_index(), 4);
    retrieval.next();
    assert_eq!(retrieval.get_current_tuple_index(), 2);
    retrieval.next();
    assert!(retrieval.after_last());
    assert_eq!(retrieval.view(), ExtensionView::Total);
}

#[test]
fn backtracking_removes_the_tuples_stored_since_the_branching_point() {
    let mut factory = DependencySetFactory::new();
    let mut table = new_binary_extension_table(true);
    let empty = factory.empty_set();
    table.store_tuple(&[concept(1), TableauObject::Node(0)], empty.clone(), true, &mut factory);
    table.propagate_delta_new();
    table.branching_point_pushed(0);
    let marks_before = (
        table.view_range(ExtensionView::ExtensionOld),
        table.view_range(ExtensionView::ExtensionThis),
        table.view_range(ExtensionView::Total),
    );
    table.store_tuple(&[concept(2), TableauObject::Node(0)], empty.clone(), false, &mut factory);
    table.store_tuple(&[concept(3), TableauObject::Node(1)], empty.clone(), true, &mut factory);
    table.propagate_delta_new();
    let removed = table.backtrack(0, &mut factory);
    assert_eq!(
        removed,
        vec![
            (vec![concept(3), TableauObject::Node(1)], true),
            (vec![concept(2), TableauObject::Node(0)], false),
        ]
    );
    assert_eq!(
        (
            table.view_range(ExtensionView::ExtensionOld),
            table.view_range(ExtensionView::ExtensionThis),
            table.view_range(ExtensionView::Total),
        ),
        marks_before
    );
    assert_eq!(table.get_tuple_index(&[concept(1), TableauObject::Node(0)]), 0);
    assert_eq!(table.get_tuple_index(&[concept(2), TableauObject::Node(0)]), -1);
    assert_eq!(table.get_tuple_index(&[concept(3), TableauObject::Node(1)]), -1);
    let outcome = table.store_tuple(&[concept(3), TableauObject::Node(1)], empty.clone(), true, &mut factory);
    assert_eq!(outcome, StoreOutcome::Added(1));
}

#[test]
fn backtracking_releases_dependency_sets() {
    let mut factory = DependencySetFactory::new();
    let mut table = new_binary_extension_table(true);
    let empty = factory.empty_set();
    let with_point = factory.add_branching_point(&DependencySet::Permanent(empty.clone()), 4);
    table.branching_point_pushed(1);
    table.store_tuple(&[concept(1), TableauObject::Node(0)], with_point.clone(), true, &mut factory);
    factory.remove_unused_sets();
    assert!(table.get_dependency_set(0, &empty).ptr_eq(&with_point));
    let removed = table.backtrack(1, &mut factory);
    assert_eq!(removed.len(), 1);
    assert!(table.get_dependency_set(0, &empty).ptr_eq(&empty));
    factory.remove_unused_sets();
    let again = factory.add_branching_point(&DependencySet::Permanent(empty.clone()), 4);
    assert!(!again.ptr_eq(&with_point));
    assert!(again == with_point);
}

#[test]
fn a_fresh_table_holds_nothing() {
    let factory = DependencySetFactory::new();
    let binary = new_binary_extension_table(true);
    let ternary = new_ternary_extension_table(true);
    let empty = factory.empty_set();
    assert_eq!(binary.get_tuple_index(&[concept(1), TableauObject::Node(0)]), -1);
    assert!(!binary.is_core(5));
    assert!(binary.get_dependency_set(3, &empty).ptr_eq(&empty));
    assert_eq!(binary.view_range(ExtensionView::Total), (0, 0));
    assert!(ternary.is_core(5));
    assert_eq!(
        ternary.get_tuple_index(&[concept(1), TableauObject::Node(0), TableauObject::Node(1)]),
        -1
    );
}

#[test]
fn view_ranges_after_two_stores_around_a_propagation() {
    let mut factory = DependencySetFactory::new();
    let mut table = new_binary_extension_table(true);
    let empty = factory.empty_set();
    table.store_tuple(&[concept(1), TableauObject::Node(1)], empty.clone(), true, &mut factory);
    table.propagate_delta_new();
    table.store_tuple(&[concept(2), TableauObject::Node(1)], empty.clone(), true, &mut factory);
    assert_eq!(table.view_range(ExtensionView::ExtensionThis), (0, 1));
    assert_eq!(table.view_range(ExtensionView::ExtensionOld), (0, 0));
    assert_eq!(table.view_range(ExtensionView::DeltaOld), (0, 1));
    assert_eq!(table.view_range(ExtensionView::Total), (0, 2));
}
