use hermit_tableau::tuple_index::{TupleIndex, TupleIndexRetrieval, NONE};

fn retrieve(index: &TupleIndex<i32>, bindings: &[Option<i32>], selection: &[usize]) -> Vec<i32> {
    let mut retrieval = TupleIndexRetrieval::new(index, bindings, selection);
    retrieval.open();
    let mut found = Vec::new();
    while !retrieval.after_last() {
        found.push(retrieval.get_current_tuple_index());
        retrieval.next();
    }
    found
}

#[test]
fn a_recorded_path_keeps_its_tuple_index() {
    let mut index: TupleIndex<i32> = TupleIndex::new(vec![0, 1]);
    assert_eq!(index.add_tuple(&[1, 2], 0), 0);
    assert_eq!(index.add_tuple(&[1, 2], 7), 0);
    assert_eq!(index.add_tuple(&[1, 3], 1), 1);
    assert_eq!(index.get_tuple_index(&[1, 3]), 1);
    assert_eq!(index.get_tuple_index(&[1, 2]), 0);
    assert_eq!(index.get_tuple_index(&[2, 2]), NONE);
    assert_eq!(index.get_indexing_sequence(), &[0, 1]);
}

#[test]
fn the_indexing_sequence_picks_the_columns() {
    let mut index: TupleIndex<i32> = TupleIndex::new(vec![1]);
    assert_eq!(index.add_tuple(&[5, 9], 3), 3);
    assert_eq!(index.get_tuple_index(&[6, 9]), 3);
    assert_eq!(index.get_tuple_index(&[5, 8]), NONE);
}

#[test]
fn retrieval_walks_the_run_of_the_bound_prefix_newest_child_first() {
    let mut index: TupleIndex<i32> = TupleIndex::new(vec![0, 1]);
    index.add_tuple(&[1, 2], 0);
    index.add_tuple(&[2, 2], 1);
    index.add_tuple(&[1, 3], 2);
    index.add_tuple(&[1, 4], 3);
    let bindings = [Some(1)];
    assert_eq!(retrieve(&index, &bindings, &[0]), vec![3, 2, 0]);
    let bindings = [Some(2)];
    assert_eq!(retrieve(&index, &bindings, &[0]), vec![1]);
    let bindings = [Some(7)];
    assert_eq!(retrieve(&index, &bindings, &[0]), Vec::<i32>::new());
    assert_eq!(retrieve(&index, &[], &[]), vec![1, 3, 2, 0]);
    let bindings = [Some(1), Some(3)];
    assert_eq!(retrieve(&index, &bindings, &[0, 1]), vec![2]);
}

#[test]
fn an_empty_index_retrieves_nothing() {
    let index: TupleIndex<i32> = TupleIndex::new(vec![0]);
    assert_eq!(retrieve(&index, &[], &[]), Vec::<i32>::new());
}

#[test]
fn clear_forgets_every_tuple() {
    let mut index: TupleIndex<i32> = TupleIndex::new(vec![0, 1]);
    index.add_tuple(&[1, 2], 0);
    index.clear();
    assert_eq!(index.get_tuple_index(&[1, 2]), NONE);
    assert_eq!(index.add_tuple(&[1, 2], 5), 5);
}

#[test]
fn many_tuples_survive_bucket_growth() {
    let mut index: TupleIndex<i32> = TupleIndex::new(vec![0, 1]);
    let mut i = 0;
    while i < 2000 {
        assert_eq!(index.add_tuple(&[i % 37, i], i), i);
        i += 1;
    }
    let mut j = 0;
    while j < 2000 {
        assert_eq!(index.get_tuple_index(&[j % 37, j]), j);
        j += 1;
    }
}

#[test]
fn removing_a_tuple_answers_its_index_and_forgets_it() {
    let mut index: TupleIndex<i32> = TupleIndex::new(vec![0, 1]);
    index.add_tuple(&[1, 2], 0);
    index.add_tuple(&[1, 3], 1);
    index.add_tuple(&[2, 2], 2);
    assert_eq!(index.remove_tuple(&[1, 3]), 1);
    assert_eq!(index.get_tuple_index(&[1, 3]), NONE);
    assert_eq!(index.get_tuple_index(&[1, 2]), 0);
    assert_eq!(index.get_tuple_index(&[2, 2]), 2);
    assert_eq!(index.remove_tuple(&[1, 3]), NONE);
    assert_eq!(index.remove_tuple(&[5, 5]), NONE);
    let bindings = [Some(1)];
    assert_eq!(retrieve(&index, &bindings, &[0]), vec![0]);
}

#[test]
fn removing_the_last_tuple_of_a_branch_prunes_it() {
    let mut index: TupleIndex<i32> = TupleIndex::new(vec![0, 1, 2]);
    index.add_tuple(&[1, 2, 3], 4);
    index.add_tuple(&[7, 8, 9], 5);
    assert_eq!(index.remove_tuple(&[1, 2, 3]), 4);
    assert_eq!(retrieve(&index, &[], &[]), vec![5]);
    let bindings = [Some(1)];
    assert_eq!(retrieve(&index, &bindings, &[0]), Vec::<i32>::new());
    assert_eq!(index.remove_tuple(&[7, 8, 9]), 5);
    assert_eq!(retrieve(&index, &[], &[]), Vec::<i32>::new());
    assert_eq!(index.add_tuple(&[1, 2, 3], 6), 6);
    assert_eq!(index.get_tuple_index(&[1, 2, 3]), 6);
}

#[test]
fn adding_then_removing_restores_the_index() {
    let mut index: TupleIndex<i32> = TupleIndex::new(vec![0, 1]);
    index.add_tuple(&[1, 2], 0);
    index.add_tuple(&[3, 4], 1);
    let before = retrieve(&index, &[], &[]);
    assert_eq!(index.add_tuple(&[1, 9], 2), 2);
    assert_eq!(index.get_tuple_index(&[1, 9]), 2);
    assert_eq!(index.remove_tuple(&[1, 9]), 2);
    assert_eq!(retrieve(&index, &[], &[]), before);
}

#[test]
fn removals_survive_many_tuples() {
    let mut index: TupleIndex<i32> = TupleIndex::new(vec![0, 1]);
    for i in 0..2000 {
        assert_eq!(index.add_tuple(&[i % 37, i], i), i);
    }
    for i in (0..2000).rev() {
        if i % 3 == 0 {
            assert_eq!(index.remove_tuple(&[i % 37, i]), i);
        }
    }
    for i in 0..2000 {
        let expected = if i % 3 == 0 { NONE } else { i };
        assert_eq!(index.get_tuple_index(&[i % 37, i]), expected);
    }
}
