use vstd::prelude::*;
use crate::extension_table::{
    best_index, occupied, retrieved, selection_of, stored_tuple, ExtensionTable, ExtensionView,
    Retrieval,
};
use crate::node::{Node, NodeState};
use crate::object::{NodeId, TableauObject};
use crate::tuple_index::{key_path, lookup, selected_path, TupleIndex};

verus! {

/// Node `node` is active.
pub open spec fn node_active(nodes: Seq<Node>, node: NodeId) -> bool {
    nodes[node as int].node_state == Some(NodeState::Active)
}

/// Whether a binary tuple over `node` is active: its node is.
pub fn binary_tuple_active(nodes: &[Node], node: NodeId) -> (r: bool)
    requires
        node < nodes@.len(),
    ensures
        r == node_active(nodes@, node),
{
    nodes[node].is_active()
}

/// Whether a ternary tuple over `node0` and `node1` is active: both nodes
/// are.
pub fn ternary_tuple_active(nodes: &[Node], node0: NodeId, node1: NodeId) -> (r: bool)
    requires
        node0 < nodes@.len(),
        node_active(nodes@, node0) ==> node1 < nodes@.len(),
    ensures
        r == (node_active(nodes@, node0) && node_active(nodes@, node1)),
{
    nodes[node0].is_active() && nodes[node1].is_active()
}

/// Each column of `tuple` that `binding_positions` binds holds what the bound
/// slot of `bindings_buffer` holds.
pub open spec fn selection_holds(
    tuple: Seq<TableauObject>,
    binding_positions: Seq<i32>,
    bindings_buffer: Seq<Option<TableauObject>>,
) -> bool {
    forall|c: int|
        0 <= c < binding_positions.len() && binding_positions[c] != -1 ==> bindings_buffer[
            #[trigger] binding_positions[c] as int] == Some(tuple[c])
}

/// Every column that `binding_positions` binds names a slot of
/// `bindings_buffer`, and the slot holds an object.
pub open spec fn bindings_valid(
    binding_positions: Seq<i32>,
    bindings_buffer: Seq<Option<TableauObject>>,
) -> bool {
    forall|c: int|
        0 <= c < binding_positions.len() && #[trigger] binding_positions[c] != -1 ==> 0
            <= binding_positions[c] < bindings_buffer.len() && bindings_buffer[binding_positions[c] as int] is Some
}

/// Whether stored tuple `tuple_index` of `table` holds, in each column that
/// `binding_positions` binds, the object of the bound slot.
fn selection_matches(
    table: &ExtensionTable,
    tuple_index: usize,
    binding_positions: &[i32],
    bindings_buffer: &[Option<TableauObject>],
) -> (r: bool)
    requires
        table.wf(),
        occupied(table.table(), tuple_index as int),
        binding_positions@.len() <= table.spec_arity(),
        bindings_valid(binding_positions@, bindings_buffer@),
    ensures
        r == selection_holds(stored_tuple(table.table(), tuple_index as int), binding_positions@, bindings_buffer@),
{
    let ghost tuple = stored_tuple(table.table(), tuple_index as int);
    let mut column: usize = 0;
    while column < binding_positions.len()
        invariant
            table.wf(),
            occupied(table.table(), tuple_index as int),
            binding_positions@.len() <= table.spec_arity(),
            bindings_valid(binding_positions@, bindings_buffer@),
            tuple == stored_tuple(table.table(), tuple_index as int),
            column <= binding_positions@.len(),
            forall|c: int|
                0 <= c < column && binding_positions@[c] != -1 ==> bindings_buffer@[
                    #[trigger] binding_positions@[c] as int] == Some(tuple[c]),
        decreases binding_positions@.len() - column,
    {
        let position = binding_positions[column];
        if position != -1 {
            proof {
                table.lemma_stored_object(tuple_index as int, column as int);
            }
            let stored = table.get_tuple_object(tuple_index, column);
            match &bindings_buffer[position as usize] {
                Some(expected) => {
                    if *stored != *expected {
                        return false;
                    }
                },
                None => {
                    return false;
                },
            }
        }
        column = column + 1;
    }
    true
}

/// The tuple indices that a retrieval from `table` considers: those that the
/// best index yields for the bound columns, or, when no index has a bound
/// first column, every tuple index of the view in ascending order.
pub open spec fn retrieval_candidates(
    table: ExtensionTable,
    binding_positions: Seq<i32>,
    bindings_buffer: Seq<Option<TableauObject>>,
    view: ExtensionView,
) -> Seq<usize> {
    let sequences = table.indexes().map_values(
        |t: TupleIndex<TableauObject>| t.spec_indexing_sequence(),
    );
    let best = best_index(sequences, binding_positions, 0);
    let range = table.range_of(view);
    if best.1 == 0 {
        index_range(range.0 as int, range.1 as int)
    } else {
        retrieved(
            table.indexes()[best.0].entries(),
            selected_path(
                bindings_buffer,
                selection_of(sequences[best.0], binding_positions, best.1 as int),
            ),
            range.0 as int,
            range.1 as int,
        )
    }
}

/// The tuple indices from `start` up to `after_last`, ascending.
pub open spec fn index_range(start: int, after_last: int) -> Seq<usize> {
    if start < after_last {
        Seq::new((after_last - start) as nat, |i: int| (start + i) as usize)
    } else {
        Seq::empty()
    }
}

/// A retrieval keeps tuple `t` when its nodes are active (the first node
/// column, and the second when the table is ternary) and it matches the
/// bound columns.
pub open spec fn kept(
    table: ExtensionTable,
    nodes: Seq<Node>,
    binding_positions: Seq<i32>,
    bindings_buffer: Seq<Option<TableauObject>>,
    t: usize,
) -> bool {
    let tuple = stored_tuple(table.table(), t as int);
    &&& node_active(nodes, tuple[1]->Node_0)
    &&& table.spec_arity() == 3 ==> node_active(nodes, tuple[2]->Node_0)
    &&& selection_holds(tuple, binding_positions, bindings_buffer)
}

/// `kept` as a predicate on tuple indices.
pub open spec fn keeps(
    table: ExtensionTable,
    nodes: Seq<Node>,
    binding_positions: Seq<i32>,
    bindings_buffer: Seq<Option<TableauObject>>,
) -> spec_fn(usize) -> bool {
    |t: usize| kept(table, nodes, binding_positions, bindings_buffer, t)
}

/// What a retrieval reads of tuple `t` is there: the tuple is stored, its
/// node columns hold nodes of the arena (the second one only read when the
/// first is active).
pub open spec fn readable(table: ExtensionTable, nodes: Seq<Node>, t: usize) -> bool {
    let tuple = stored_tuple(table.table(), t as int);
    &&& occupied(table.table(), t as int)
    &&& tuple[1] is Node
    &&& tuple[1]->Node_0 < nodes.len()
    &&& table.spec_arity() == 3 ==> {
        &&& tuple[2] is Node
        &&& node_active(nodes, tuple[1]->Node_0) ==> tuple[2]->Node_0 < nodes.len()
    }
}

/// Whether a retrieval keeps tuple `t`.
fn tuple_kept(
    table: &ExtensionTable,
    nodes: &[Node],
    binding_positions: &[i32],
    bindings_buffer: &[Option<TableauObject>],
    t: usize,
) -> (r: bool)
    requires
        table.wf(),
        table.spec_arity() == 2 || table.spec_arity() == 3,
        binding_positions@.len() <= table.spec_arity(),
        bindings_valid(binding_positions@, bindings_buffer@),
        readable(*table, nodes@, t),
    ensures
        r == kept(*table, nodes@, binding_positions@, bindings_buffer@, t),
{
    proof {
        table.lemma_stored_object(t as int, 1);
    }
    let n1 = table.get_tuple_object(t, 1).as_node().unwrap();
    if table.arity() == 3 {
        proof {
            table.lemma_stored_object(t as int, 2);
        }
        let n2 = table.get_tuple_object(t, 2).as_node().unwrap();
        nodes[n1].is_active() && nodes[n2].is_active() && selection_matches(
            table,
            t,
            binding_positions,
            bindings_buffer,
        )
    } else {
        nodes[n1].is_active() && selection_matches(table, t, binding_positions, bindings_buffer)
    }
}

/// The retrieval of the tuples of `view` that `keeps` accepts, among the
/// retrieval candidates, in their order.
fn kept_retrieval(
    table: &ExtensionTable,
    nodes: &[Node],
    binding_positions: &[i32],
    bindings_buffer: &[Option<TableauObject>],
    view: ExtensionView,
) -> (r: Retrieval)
    requires
        table.wf(),
        table.spec_arity() == 2 || table.spec_arity() == 3,
        binding_positions@.len() == table.spec_arity(),
        bindings_valid(binding_positions@, bindings_buffer@),
        forall|i: int|
            0 <= i < retrieval_candidates(*table, binding_positions@, bindings_buffer@, view).len()
                ==> readable(
                *table,
                nodes@,
                #[trigger] retrieval_candidates(*table, binding_positions@, bindings_buffer@, view)[i],
            ),
    ensures
        r.tuple_indices@ == retrieval_candidates(*table, binding_positions@, bindings_buffer@, view).filter(
            keeps(*table, nodes@, binding_positions@, bindings_buffer@),
        ),
        r.position == 0,
        r.view == view,
{
    let ghost keep = keeps(*table, nodes@, binding_positions@, bindings_buffer@);
    let ghost candidates = retrieval_candidates(*table, binding_positions@, bindings_buffer@, view);
    let mut tuple_indices: Vec<usize> = Vec::new();
    match table.indexed_tuple_indices(binding_positions, bindings_buffer, view) {
        Some(found) => {
            let mut i: usize = 0;
            while i < found.len()
                invariant
                    table.wf(),
                    table.spec_arity() == 2 || table.spec_arity() == 3,
                    binding_positions@.len() == table.spec_arity(),
                    bindings_valid(binding_positions@, bindings_buffer@),
                    found@ == candidates,
                    forall|k: int| 0 <= k < candidates.len() ==> readable(*table, nodes@, #[trigger] candidates[k]),
                    keep == keeps(*table, nodes@, binding_positions@, bindings_buffer@),
                    i <= found@.len(),
                    tuple_indices@ == found@.take(i as int).filter(keep),
                decreases found@.len() - i,
            {
                let t = found[i];
                let k = tuple_kept(table, nodes, binding_positions, bindings_buffer, t);
                proof {
                    reveal(Seq::filter);
                    assert(found@.take(i + 1).drop_last() =~= found@.take(i as int));
                    assert(found@.take(i + 1).last() == t);
                }
                if k {
                    tuple_indices.push(t);
                }
                i = i + 1;
            }
            proof {
                assert(found@.take(found@.len() as int) =~= found@);
            }
        },
        None => {
            let (start, after_last) = table.view_range(view);
            let mut t: usize = start;
            while t < after_last
                invariant
                    table.wf(),
                    table.spec_arity() == 2 || table.spec_arity() == 3,
                    binding_positions@.len() == table.spec_arity(),
                    bindings_valid(binding_positions@, bindings_buffer@),
                    candidates == index_range(start as int, after_last as int),
                    forall|k: int| 0 <= k < candidates.len() ==> readable(*table, nodes@, #[trigger] candidates[k]),
                    keep == keeps(*table, nodes@, binding_positions@, bindings_buffer@),
                    start <= after_last ==> start <= t <= after_last,
                    start > after_last ==> t == start,
                    tuple_indices@ == index_range(start as int, t as int).filter(keep),
                decreases after_last - t,
            {
                proof {
                    assert(candidates[t - start] == t);
                }
                let k = tuple_kept(table, nodes, binding_positions, bindings_buffer, t);
                proof {
                    reveal(Seq::filter);
                    assert(index_range(start as int, t + 1).drop_last() =~= index_range(start as int, t as int));
                    assert(index_range(start as int, t + 1).last() == t);
                }
                if k {
                    tuple_indices.push(t);
                }
                t = t + 1;
            }
            proof {
                if start <= after_last {
                    assert(t == after_last);
                } else {
                    assert(index_range(start as int, t as int) =~= Seq::<usize>::empty());
                    assert(candidates =~= Seq::<usize>::empty());
                }
            }
        },
    }
    Retrieval { tuple_indices, position: 0, view }
}

/// The retrieval of the binary tuples of `view` that match the bound columns
/// and whose node is active: along the best index when a leading column is
/// bound, else by a scan of the view.
pub fn create_binary_retrieval(
    table: &ExtensionTable,
    nodes: &[Node],
    binding_positions: &[i32],
    bindings_buffer: &[Option<TableauObject>],
    view: ExtensionView,
) -> (r: Retrieval)
    requires
        table.wf(),
        table.spec_arity() == 2,
        binding_positions@.len() == 2,
        bindings_valid(binding_positions@, bindings_buffer@),
        forall|i: int|
            0 <= i < retrieval_candidates(*table, binding_positions@, bindings_buffer@, view).len()
                ==> readable(
                *table,
                nodes@,
                #[trigger] retrieval_candidates(*table, binding_positions@, bindings_buffer@, view)[i],
            ),
    ensures
        r.tuple_indices@ == retrieval_candidates(*table, binding_positions@, bindings_buffer@, view).filter(
            keeps(*table, nodes@, binding_positions@, bindings_buffer@),
        ),
        r.position == 0,
        r.view == view,
{
    kept_retrieval(table, nodes, binding_positions, bindings_buffer, view)
}

/// The retrieval of the ternary tuples of `view` that match the bound
/// columns and whose two nodes are active.
pub fn create_ternary_retrieval(
    table: &ExtensionTable,
    nodes: &[Node],
    binding_positions: &[i32],
    bindings_buffer: &[Option<TableauObject>],
    view: ExtensionView,
) -> (r: Retrieval)
    requires
        table.wf(),
        table.spec_arity() == 3,
        binding_positions@.len() == 3,
        bindings_valid(binding_positions@, bindings_buffer@),
        forall|i: int|
            0 <= i < retrieval_candidates(*table, binding_positions@, bindings_buffer@, view).len()
                ==> readable(
                *table,
                nodes@,
                #[trigger] retrieval_candidates(*table, binding_positions@, bindings_buffer@, view)[i],
            ),
    ensures
        r.tuple_indices@ == retrieval_candidates(*table, binding_positions@, bindings_buffer@, view).filter(
            keeps(*table, nodes@, binding_positions@, bindings_buffer@),
        ),
        r.position == 0,
        r.view == view,
{
    kept_retrieval(table, nodes, binding_positions, bindings_buffer, view)
}

/// The tuple index recorded for `tuple` by the primary index of `table`.
pub open spec fn recorded_index(table: ExtensionTable, tuple: Seq<TableauObject>) -> i32 {
    lookup(table.indexes()[0].entries(), key_path(table.indexes()[0].spec_indexing_sequence(), tuple))
}

/// Whether the binary table holds `tuple` with an active node.
pub fn binary_contains(table: &ExtensionTable, nodes: &[Node], tuple: &[TableauObject]) -> (r: bool)
    requires
        table.wf(),
        tuple@.len() == table.spec_arity(),
        table.spec_arity() == 2,
        recorded_index(*table, tuple@) != -1 ==> tuple@[1] is Node && tuple@[1]->Node_0 < nodes@.len(),
    ensures
        r == (recorded_index(*table, tuple@) != -1 && node_active(nodes@, tuple@[1]->Node_0)),
{
    let index = table.get_tuple_index(tuple);
    index != -1 && nodes[tuple[1].as_node().unwrap()].is_active()
}

/// Whether the ternary table holds `tuple` with both nodes active.
pub fn ternary_contains(table: &ExtensionTable, nodes: &[Node], tuple: &[TableauObject]) -> (r: bool)
    requires
        table.wf(),
        tuple@.len() == table.spec_arity(),
        table.spec_arity() == 3,
        recorded_index(*table, tuple@) != -1 ==> {
            &&& tuple@[1] is Node
            &&& tuple@[1]->Node_0 < nodes@.len()
            &&& node_active(nodes@, tuple@[1]->Node_0) ==> tuple@[2] is Node && tuple@[2]->Node_0
                < nodes@.len()
        },
    ensures
        r == (recorded_index(*table, tuple@) != -1 && node_active(nodes@, tuple@[1]->Node_0)
            && node_active(nodes@, tuple@[2]->Node_0)),
{
    let index = table.get_tuple_index(tuple);
    index != -1 && nodes[tuple[1].as_node().unwrap()].is_active()
        && nodes[tuple[2].as_node().unwrap()].is_active()
}

} // verus!
