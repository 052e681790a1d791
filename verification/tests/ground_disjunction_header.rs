use hermit_tableau::ground_disjunction_header::GroundDisjunctionHeader;
use hermit_tableau::object::{AtLeastKind, DLPredicate};

fn predicate(id: usize, arity: usize, at_least: AtLeastKind) -> DLPredicate {
    DLPredicate { id, arity, at_least }
}

fn header() -> GroundDisjunctionHeader {
    GroundDisjunctionHeader::new(vec![
        predicate(0, 1, AtLeastKind::Other),
        predicate(1, 1, AtLeastKind::NotAtLeast),
        predicate(2, 2, AtLeastKind::OverNegatedAtomic),
        predicate(3, 1, AtLeastKind::NotAtLeast),
        predicate(4, 1, AtLeastKind::Other),
    ])
}

#[test]
fn disjuncts_are_grouped_atomic_negative_positive() {
    let header = header();
    assert_eq!(header.get_sorted_disjunct_indexes(), vec![1, 3, 2, 0, 4]);
    assert_eq!(header.disjunct_start(0), 0);
    assert_eq!(header.disjunct_start(3), 4);
    assert_eq!(header.disjunct_start(4), 5);
    assert_eq!(header.dl_predicates().len(), 5);
}

#[test]
fn backtracking_moves_a_disjunct_later_within_its_group() {
    let mut header = header();
    header.increase_number_of_backtrackings(1);
    assert_eq!(header.get_sorted_disjunct_indexes(), vec![3, 1, 2, 0, 4]);
    header.increase_number_of_backtrackings(0);
    assert_eq!(header.get_sorted_disjunct_indexes(), vec![3, 1, 2, 4, 0]);
    header.increase_number_of_backtrackings(2);
    assert_eq!(header.get_sorted_disjunct_indexes(), vec![3, 1, 2, 4, 0]);
    header.increase_number_of_backtrackings(9);
    assert_eq!(header.get_sorted_disjunct_indexes(), vec![3, 1, 2, 4, 0]);
}

#[test]
fn equal_headers_compare_equal() {
    let header = header();
    let same = vec![
        predicate(0, 1, AtLeastKind::Other),
        predicate(1, 1, AtLeastKind::NotAtLeast),
        predicate(2, 2, AtLeastKind::OverNegatedAtomic),
        predicate(3, 1, AtLeastKind::NotAtLeast),
        predicate(4, 1, AtLeastKind::Other),
    ];
    assert!(header.is_equal(&same));
    assert!(!header.is_equal(&same[..4]));
}

#[test]
fn the_text_shows_each_disjunct_with_its_count() {
    let mut header = GroundDisjunctionHeader::new(vec![
        predicate(0, 1, AtLeastKind::NotAtLeast),
        predicate(1, 1, AtLeastKind::NotAtLeast),
    ]);
    header.increase_number_of_backtrackings(0);
    header.increase_number_of_backtrackings(0);
    let texts = vec![String::from("A"), String::from("B")];
    assert_eq!(header.to_string_prefixes(&texts), "A (2) \\/ B (0)");
}
