use hermit_tableau::dependency_set::{
    DependencySet, DependencySetFactory, DependencySetOps, PermanentDependencySet,
    UnionDependencySet,
};

fn permanent(factory: &mut DependencySetFactory, points: &[i32]) -> PermanentDependencySet {
    let mut set = factory.empty_set();
    for &point in points {
        set = factory.add_branching_point(&DependencySet::Permanent(set), point);
    }
    set
}

#[test]
fn the_empty_set_reports_minus_one() {
    let factory = DependencySetFactory::new();
    let empty = factory.empty_set();
    assert!(empty.is_empty());
    assert_eq!(empty.get_maximum_branching_point(), -1);
    assert!(empty.contains_branching_point(-1));
    assert!(!empty.contains_branching_point(0));
}

#[test]
fn added_points_are_kept_largest_first() {
    let mut factory = DependencySetFactory::new();
    let set = permanent(&mut factory, &[3, 7, 1, 7]);
    assert_eq!(set.get_maximum_branching_point(), 7);
    assert!(set.contains_branching_point(1));
    assert!(set.contains_branching_point(3));
    assert!(!set.contains_branching_point(2));
    assert!(!set.is_empty());
}

#[test]
fn interning_shares_equal_sets() {
    let mut factory = DependencySetFactory::new();
    let a = permanent(&mut factory, &[1, 2]);
    let b = permanent(&mut factory, &[2, 1]);
    assert!(a.ptr_eq(&b));
    assert!(a == b);
    let c = permanent(&mut factory, &[1]);
    assert!(!a.ptr_eq(&c));
    assert!(a != c);
}

#[test]
fn adding_minus_one_changes_nothing() {
    let mut factory = DependencySetFactory::new();
    let a = permanent(&mut factory, &[4]);
    let b = factory.add_branching_point(&DependencySet::Permanent(a.clone()), -1);
    assert!(a.ptr_eq(&b));
}

#[test]
fn removing_a_point() {
    let mut factory = DependencySetFactory::new();
    let a = permanent(&mut factory, &[4, 5, 6]);
    let b = factory.remove_branching_point(&DependencySet::Permanent(a.clone()), 5);
    assert!(b.contains_branching_point(4));
    assert!(!b.contains_branching_point(5));
    assert_eq!(b.get_maximum_branching_point(), 6);
    let c = factory.remove_branching_point(&DependencySet::Permanent(b.clone()), 9);
    assert!(b.ptr_eq(&c));
    let d = factory.remove_branching_point(&DependencySet::Permanent(c), 6);
    assert_eq!(d.get_maximum_branching_point(), 4);
}

#[test]
fn unions_answer_as_their_constituents() {
    let mut factory = DependencySetFactory::new();
    let a = permanent(&mut factory, &[1, 4]);
    let b = permanent(&mut factory, &[2]);
    let mut union = UnionDependencySet::new(2);
    assert_eq!(union.get_maximum_branching_point(), -1);
    assert!(union.is_empty());
    assert!(!union.contains_branching_point(-1));
    union.add_constituent(DependencySet::Permanent(a.clone()));
    union.add_constituent(DependencySet::Permanent(b.clone()));
    assert_eq!(union.number_of_constituents(), 2);
    assert_eq!(union.get_maximum_branching_point(), 4);
    assert!(union.contains_branching_point(2));
    assert!(!union.contains_branching_point(3));
    let whole = DependencySet::Union(union);
    assert_eq!(whole.get_maximum_branching_point(), 4);
    let flat = factory.get_permanent(&whole);
    assert_eq!(flat.get_maximum_branching_point(), 4);
    assert!(flat.contains_branching_point(1) && flat.contains_branching_point(2));
    let direct = factory.union_with(
        &DependencySet::Permanent(a.clone()),
        &DependencySet::Permanent(b.clone()),
    );
    assert!(direct.ptr_eq(&flat));
}

#[test]
fn union_constituents_can_be_replaced_and_cleared() {
    let mut factory = DependencySetFactory::new();
    let a = permanent(&mut factory, &[1]);
    let b = permanent(&mut factory, &[8]);
    let mut union = UnionDependencySet::new(1);
    union.add_constituent(DependencySet::Permanent(a));
    union.set_constituent(0, DependencySet::Permanent(b));
    assert_eq!(union.get_maximum_branching_point(), 8);
    assert_eq!(union.constituent(0).get_maximum_branching_point(), 8);
    union.clear_constituents();
    assert_eq!(union.number_of_constituents(), 0);
}

#[test]
fn the_permanent_union_skips_absent_constituents() {
    let mut factory = DependencySetFactory::new();
    let a = permanent(&mut factory, &[1]);
    let b = permanent(&mut factory, &[3]);
    let all = factory.permanent_union_of(&[Some(a), None, Some(b)]);
    assert_eq!(all.get_maximum_branching_point(), 3);
    assert!(all.contains_branching_point(1));
    assert!(!all.contains_branching_point(2));
}

#[test]
fn unused_sets_are_dropped_and_used_ones_kept() {
    let mut factory = DependencySetFactory::new();
    assert_eq!(factory.size_in_memory(), 64);
    let a = permanent(&mut factory, &[1]);
    let b = permanent(&mut factory, &[2]);
    factory.add_usage(&a);
    assert_eq!(factory.size_in_memory(), 64 + 2 * 20);
    factory.remove_unused_sets();
    assert_eq!(factory.size_in_memory(), 64 + 20);
    let again = permanent(&mut factory, &[1]);
    assert!(again.ptr_eq(&a));
    let fresh = permanent(&mut factory, &[2]);
    assert!(!fresh.ptr_eq(&b));
    factory.remove_usage(&a);
    factory.remove_usage(&a);
    factory.remove_unused_sets();
    assert_eq!(factory.size_in_memory(), 64);
    factory.clear();
    assert_eq!(factory.size_in_memory(), 64);
}

#[test]
fn the_table_capacity_doubles_at_three_quarters() {
    let mut factory = DependencySetFactory::new();
    let mut i = 0;
    while i < 12 {
        let _ = permanent(&mut factory, &[100 + i]);
        i += 1;
    }
    assert_eq!(factory.size_in_memory(), 32 * 4 + 12 * 20);
}

#[test]
fn removing_a_point_just_added_gives_back_the_set() {
    let mut factory = DependencySetFactory::new();
    let a = permanent(&mut factory, &[1, 2]);
    let b = factory.add_branching_point(&DependencySet::Permanent(a.clone()), 5);
    assert!(b.contains_branching_point(5));
    assert_eq!(b.get_maximum_branching_point(), 5);
    let c = factory.remove_branching_point(&DependencySet::Permanent(b.clone()), 5);
    assert!(c.ptr_eq(&a));
    assert!(c == a);
    assert!(!c.contains_branching_point(5));
}

#[test]
fn sets_convert_into_dependency_sets() {
    let mut factory = DependencySetFactory::new();
    let set = permanent(&mut factory, &[2]);
    let wrapped: DependencySet = set.clone().into();
    assert!(wrapped.contains_branching_point(2));
    let mut union = UnionDependencySet::new(0);
    union.add_constituent(DependencySet::Permanent(set));
    let wrapped_union: DependencySet = union.into();
    assert!(wrapped_union.contains_branching_point(2));
    assert!(!wrapped_union.contains_branching_point(3));
}

#[test]
fn the_text_lists_points_largest_first() {
    let mut factory = DependencySetFactory::new();
    let set = permanent(&mut factory, &[3, 12, -4]);
    assert_eq!(set.debug_text(), "{ 12,3,-4 }");
    assert_eq!(factory.empty_set().debug_text(), "{  }");
}

#[test]
fn a_union_answers_as_its_constituents() {
    let mut factory = DependencySetFactory::new();
    let mut union = UnionDependencySet::new(2);
    assert!(union.is_empty());
    assert_eq!(union.get_maximum_branching_point(), -1);
    assert!(!union.contains_branching_point(-1));
    union.add_constituent(DependencySet::Permanent(permanent(&mut factory, &[2])));
    union.add_constituent(DependencySet::Permanent(permanent(&mut factory, &[5, 1])));
    assert!(!union.is_empty());
    assert_eq!(union.get_maximum_branching_point(), 5);
    assert!(union.contains_branching_point(1));
    assert!(union.contains_branching_point(2));
    assert!(!union.contains_branching_point(3));
}
