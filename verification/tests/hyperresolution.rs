use hermit_tableau::hyperresolution::GroundDisjunctionHeaderManager;
use hermit_tableau::object::{AtLeastKind, DLPredicate};

fn predicate(id: usize, arity: usize, at_least: AtLeastKind) -> DLPredicate {
    DLPredicate { id, arity, at_least }
}

#[test]
fn a_new_manager_holds_no_header() {
    let manager = GroundDisjunctionHeaderManager::new();
    assert_eq!(manager.len(), 0);
    assert!(manager.is_empty());
}

#[test]
fn equal_predicates_share_one_header() {
    let mut manager = GroundDisjunctionHeaderManager::new();
    let first = vec![predicate(0, 1, AtLeastKind::NotAtLeast), predicate(1, 2, AtLeastKind::Other)];
    let second = vec![predicate(1, 2, AtLeastKind::Other), predicate(0, 1, AtLeastKind::NotAtLeast)];
    assert_eq!(manager.get(first.clone()), 0);
    assert_eq!(manager.get(second.clone()), 1);
    assert_eq!(manager.get(first.clone()), 0);
    assert_eq!(manager.get(second.clone()), 1);
    assert_eq!(manager.len(), 2);
    assert!(!manager.is_empty());
    assert_eq!(manager.header(0).dl_predicates(), first.as_slice());
    assert_eq!(manager.header(1).dl_predicates(), second.as_slice());
    assert_eq!(manager.header(1).disjunct_start(1), 2);
}

#[test]
fn a_header_changed_in_place_keeps_its_new_order() {
    let mut manager = GroundDisjunctionHeaderManager::new();
    let index = manager.get(vec![
        predicate(0, 1, AtLeastKind::NotAtLeast),
        predicate(1, 1, AtLeastKind::NotAtLeast),
    ]);
    assert_eq!(manager.header(index).get_sorted_disjunct_indexes(), vec![0, 1]);
    manager.header_mut(index).increase_number_of_backtrackings(0);
    assert_eq!(manager.header(index).get_sorted_disjunct_indexes(), vec![1, 0]);
    let again = manager.get(vec![
        predicate(0, 1, AtLeastKind::NotAtLeast),
        predicate(1, 1, AtLeastKind::NotAtLeast),
    ]);
    assert_eq!(again, index);
    assert_eq!(manager.header(again).get_sorted_disjunct_indexes(), vec![1, 0]);
}
