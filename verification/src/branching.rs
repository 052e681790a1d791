use vstd::prelude::*;
use crate::dependency_set::{DependencySetFactory, PermanentDependencySet};
use crate::extension_table::usage_removed;
use crate::node::{Node, NodeState};
use crate::object::{AnnotatedEquality, AtLeastConcept, NodeId};

verus! {

/// A ground disjunction of the tableau: an instance of a header's predicates
/// over nodes, kept in a doubly linked list by index.
pub struct GroundDisjunctionData {
    pub header_index: usize,
    pub arguments: Vec<NodeId>,
    pub is_core: Vec<bool>,
    pub dependency_set: PermanentDependencySet,
    pub previous: Option<usize>,
    pub next: Option<usize>,
}

/// A branching point: the state to go back to, and the choice being tried.
#[derive(Clone)]
pub struct BranchingPointData {
    pub level: i32,
    pub last_tableau_node: Option<NodeId>,
    pub last_merged_or_pruned_node: Option<NodeId>,
    pub first_ground_disjunction: Option<usize>,
    pub first_unprocessed_ground_disjunction: Option<usize>,
    pub ground_disjunction: usize,
    pub sorted_disjunct_indexes: Vec<usize>,
    pub current_index: usize,
    /// Set for the branching point of the nominal-introduction rule.
    pub nominal_introduction: Option<NIBranchingData>,
    /// Set for the branching point of reusing an existing witness.
    pub reuse: Option<ReuseBranchingData>,
}

/// A reused witness for the existential on `for_node`; on backtracking a
/// fresh successor is created instead.
#[derive(Clone, Copy)]
pub struct ReuseBranchingData {
    pub existential: AtLeastConcept,
    pub for_node: NodeId,
    /// Whether the parent was reused (otherwise the concept's representative).
    pub was_parent_reuse: bool,
}

/// The choice of the nominal-introduction rule: the target is tried against
/// each candidate root node in turn.
#[derive(Clone, Copy)]
pub struct NIBranchingData {
    pub root_node: NodeId,
    pub ni_target_node: NodeId,
    pub other_node: NodeId,
    pub annotated_equality: AnnotatedEquality,
    pub current_root_node: i32,
}

/// A derived annotated equality waiting for the nominal-introduction rule.
#[derive(Clone)]
pub struct BufferedAnnotatedEquality {
    pub annotated_equality: AnnotatedEquality,
    pub node0: NodeId,
    pub node1: NodeId,
    pub node2: NodeId,
    pub dependency_set: PermanentDependencySet,
}

/// Whether `parent` is the parent of `child`.
pub fn is_parent_of(nodes: &[Node], parent: NodeId, child: NodeId) -> (r: bool)
    requires
        child < nodes@.len(),
    ensures
        r == (nodes@[child as int].parent == Some(parent)),
{
    nodes[child].get_parent() == Some(parent)
}

/// The annotation of an equality between `node0` and `node1` owned by
/// `node2` can be dropped, unless `node2` is a root that is not the parent of
/// both nodes and neither node is itself a root.
pub open spec fn annotation_forgettable(nodes: Seq<Node>, node0: NodeId, node1: NodeId, node2: NodeId) -> bool {
    ||| nodes[node0 as int].parent is None
    ||| nodes[node1 as int].parent is None
    ||| nodes[node2 as int].parent is Some
    ||| (nodes[node0 as int].parent == Some(node2) && nodes[node1 as int].parent == Some(node2))
}

/// Whether the annotated equality between `node0` and `node1`, annotated
/// with `node2`, can be treated as a plain equality.
pub fn can_forget_annotation(nodes: &[Node], node0: NodeId, node1: NodeId, node2: NodeId) -> (r: bool)
    requires
        node0 < nodes@.len(),
        nodes@[node0 as int].parent is Some ==> node1 < nodes@.len(),
        nodes@[node0 as int].parent is Some && nodes@[node1 as int].parent is Some ==> node2
            < nodes@.len(),
    ensures
        r == annotation_forgettable(nodes@, node0, node1, node2),
{
    nodes[node0].is_root_node() || nodes[node1].is_root_node() || !nodes[node2].is_root_node()
        || (is_parent_of(nodes, node2, node0) && is_parent_of(nodes, node2, node1))
}

/// Node `n` was pruned.
pub open spec fn pruned(nodes: Seq<Node>, n: NodeId) -> bool {
    nodes[n as int].node_state == Some(NodeState::Pruned)
}

/// Whether an argument node of ground disjunction `gd_index` was pruned.
pub fn ground_disjunction_is_pruned(
    ground_disjunctions: &[Option<GroundDisjunctionData>],
    nodes: &[Node],
    gd_index: usize,
) -> (r: bool)
    requires
        gd_index < ground_disjunctions@.len(),
        ground_disjunctions@[gd_index as int] is Some,
        forall|k: int|
            0 <= k < ground_disjunctions@[gd_index as int]->Some_0.arguments@.len() && (forall|j: int|
                0 <= j < k ==> !pruned(
                    nodes@,
                    #[trigger] ground_disjunctions@[gd_index as int]->Some_0.arguments@[j],
                )) ==> #[trigger] ground_disjunctions@[gd_index as int]->Some_0.arguments@[k]
                < nodes@.len(),
    ensures
        r == exists|k: int|
            0 <= k < ground_disjunctions@[gd_index as int]->Some_0.arguments@.len() && pruned(
                nodes@,
                #[trigger] ground_disjunctions@[gd_index as int]->Some_0.arguments@[k],
            ),
{
    let gd = match &ground_disjunctions[gd_index] {
        Some(gd) => gd,
        None => {
            proof {
                assert(false);
            }
            return false;
        },
    };
    let ghost arguments = gd.arguments@;
    let mut k: usize = 0;
    while k < gd.arguments.len()
        invariant
            arguments == gd.arguments@,
            gd == ground_disjunctions@[gd_index as int]->Some_0,
            k <= arguments.len(),
            forall|j: int| 0 <= j < k ==> !pruned(nodes@, #[trigger] arguments[j]),
            forall|i: int|
                0 <= i < arguments.len() && (forall|j: int| 0 <= j < i ==> !pruned(nodes@, #[trigger] arguments[j]))
                    ==> #[trigger] arguments[i] < nodes@.len(),
        decreases arguments.len() - k,
    {
        let n = gd.arguments[k];
        if nodes[n].node_state == Some(NodeState::Pruned) {
            return true;
        }
        k = k + 1;
    }
    false
}

/// Forgets ground disjunction `gd_index`, releasing the use of its
/// dependency set.
pub fn destroy_ground_disjunction(
    ground_disjunctions: &mut Vec<Option<GroundDisjunctionData>>,
    factory: &mut DependencySetFactory,
    gd_index: usize,
)
    requires
        gd_index < old(ground_disjunctions)@.len(),
        old(factory).wf(),
    ensures
        final(ground_disjunctions)@ == old(ground_disjunctions)@.update(gd_index as int, None),
        final(factory).wf(),
        final(factory).interned() == match old(ground_disjunctions)@[gd_index as int] {
            Some(gd) => usage_removed(old(factory).interned(), gd.dependency_set.points()),
            None => old(factory).interned(),
        },
{
    let taken = ground_disjunctions[gd_index].take();
    if let Some(gd) = taken {
        factory.remove_usage(&gd.dependency_set);
    }
}

/// Puts ground disjunction `gd_index` in front of the list of ground
/// disjunctions, and makes it the first unprocessed one when there is none.
pub fn add_ground_disjunction(
    ground_disjunctions: &mut Vec<Option<GroundDisjunctionData>>,
    first_ground_disjunction: &mut Option<usize>,
    first_unprocessed_ground_disjunction: &mut Option<usize>,
    gd_index: usize,
)
    requires
        gd_index < old(ground_disjunctions)@.len(),
        old(ground_disjunctions)@[gd_index as int] is Some,
        match *old(first_ground_disjunction) {
            Some(first) => first < old(ground_disjunctions)@.len() && old(ground_disjunctions)@[first as int] is Some,
            None => true,
        },
    ensures
        final(ground_disjunctions)@.len() == old(ground_disjunctions)@.len(),
        ({
            let added = old(ground_disjunctions)@[gd_index as int]->Some_0;
            let first = *old(first_ground_disjunction);
            let linked = old(ground_disjunctions)@.update(
                gd_index as int,
                Some(GroundDisjunctionData { next: first, previous: None, ..added }),
            );
            final(ground_disjunctions)@ == match first {
                Some(f) => linked.update(
                    f as int,
                    Some(GroundDisjunctionData { previous: Some(gd_index), ..linked[f as int]->Some_0 }),
                ),
                None => linked,
            }
        }),
        *final(first_ground_disjunction) == Some(gd_index),
        *final(first_unprocessed_ground_disjunction) == match *old(first_unprocessed_ground_disjunction) {
            Some(u) => Some(u),
            None => Some(gd_index),
        },
{
    let first = *first_ground_disjunction;
    let mut gd = match ground_disjunctions[gd_index].take() {
        Some(gd) => gd,
        None => {
            proof {
                assert(false);
            }
            return;
        },
    };
    gd.next = first;
    gd.previous = None;
    ground_disjunctions[gd_index] = Some(gd);
    if let Some(first) = first {
        let mut head = match ground_disjunctions[first].take() {
            Some(head) => head,
            None => {
                proof {
                    assert(false);
                }
                return;
            },
        };
        head.previous = Some(gd_index);
        ground_disjunctions[first] = Some(head);
    }
    *first_ground_disjunction = Some(gd_index);
    if first_unprocessed_ground_disjunction.is_none() {
        *first_unprocessed_ground_disjunction = Some(gd_index);
    }
}

} // verus!
