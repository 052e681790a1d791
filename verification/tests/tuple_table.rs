use hermit_tableau::tuple_table::TupleTable;

#[test]
fn added_tuples_are_retrieved_and_compared() {
    let mut table: TupleTable<i32> = TupleTable::new(2);
    assert_eq!(table.arity(), 2);
    assert_eq!(table.add_tuple(&[1, 2]), 0);
    assert_eq!(table.add_tuple(&[3, 4]), 1);
    assert_eq!(table.get_first_free_tuple_index(), 2);
    assert_eq!(table.retrieve_tuple(1), vec![Some(3), Some(4)]);
    assert_eq!(table.get_tuple_object(0, 1), Some(&2));
    assert!(table.tuple_equals(&[3, 4], 1, 2));
    assert!(!table.tuple_equals(&[3, 5], 1, 2));
    assert!(table.tuple_equals(&[3, 5], 1, 1));
    assert!(table.tuple_equals_indexed(&[4, 3], &[1, 0], 1, 2));
}

#[test]
fn a_full_page_grows_the_table() {
    let mut table: TupleTable<i32> = TupleTable::new(1);
    let mut i = 0;
    while i < 600 {
        assert_eq!(table.add_tuple(&[i]), i as usize);
        i += 1;
    }
    assert_eq!(table.get_tuple_object(599, 0), Some(&599));
}

#[test]
fn nullify_and_truncate_forget_tuples() {
    let mut table: TupleTable<i32> = TupleTable::new(2);
    table.add_tuple(&[1, 2]);
    table.add_tuple(&[3, 4]);
    table.nullify_tuple(1);
    assert_eq!(table.retrieve_tuple(1), vec![None, None]);
    table.truncate(1);
    assert_eq!(table.get_first_free_tuple_index(), 1);
    assert_eq!(table.add_tuple(&[5, 6]), 1);
    table.set_tuple_object(0, 0, Some(9));
    assert_eq!(table.retrieve_tuple(0), vec![Some(9), Some(2)]);
    table.clear();
    assert_eq!(table.get_first_free_tuple_index(), 0);
}
