use vstd::prelude::*;
use crate::dependency_set::{
    canonical_of, lemma_permanent_set_points, only_adds_unused, set_points, strictly_descending,
    DependencySet, DependencySetFactory, PermanentDependencySet,
};
use crate::description_graph_manager::DescriptionGraphManager;
use crate::extension_table::usage_removed;
use crate::node_type::NodeType;
use crate::object::{AtomicConcept, AtomicRole, Constant, ExistentialConcept, NodeId};

verus! {

/// The life-cycle state of a tableau node.
#[derive(Clone, Copy, Debug, PartialEq, Eq, Structural, Hash)]
pub enum NodeState {
    Active,
    Merged,
    Pruned,
}

/// A node of the tableau, kept in the tableau's arena and referred to by its
/// `NodeId`; the links to other nodes are ids into that arena.
pub struct Node {
    pub node_id: i32,
    pub node_state: Option<NodeState>,
    pub parent: Option<NodeId>,
    pub node_type: NodeType,
    pub tree_depth: i32,
    pub number_of_positive_atomic_concepts: i32,
    pub number_of_negated_atomic_concepts: i32,
    pub number_of_negated_role_assertions: i32,
    pub unprocessed_existentials: Vec<ExistentialConcept>,
    pub previous_tableau_node: Option<NodeId>,
    pub next_tableau_node: Option<NodeId>,
    pub previous_merged_or_pruned_node: Option<NodeId>,
    pub merged_into: Option<NodeId>,
    pub merged_into_dependency_set: Option<PermanentDependencySet>,
    /// The node that blocks this one. A block by the signature cache has no
    /// blocking node: it is `blocker == None` with `directly_blocked` set.
    pub blocker: Option<NodeId>,
    pub directly_blocked: bool,
    pub first_graph_occurrence_node: i32,
    /// The next free slot of the arena, while this slot is free.
    pub next_free_node: Option<NodeId>,
    /// The constant that a node for a data constant stands for.
    pub constant_value: Option<Constant>,
    /// Validated blocking: whether this node's block violates its parent's
    /// constraints, and whether its parent was checked in this pass.
    pub block_violates_parent_constraints: bool,
    pub has_already_been_checked: bool,
    /// The cached labels that direct blocking compares; `None` until fetched
    /// or after the node's blocking information changed.
    pub blocking_label_cache: Option<Vec<AtomicConcept>>,
    pub blocking_core_label_cache: Option<Vec<AtomicConcept>>,
    pub blocking_from_parent_cache: Option<Vec<AtomicRole>>,
    pub blocking_to_parent_cache: Option<Vec<AtomicRole>>,
    /// Set when the node's blocking-relevant label changed, cleared once a
    /// blocking pass reprocessed it.
    pub has_blocking_info_changed: bool,
    /// Set when the node's validation-relevant state changed after the last
    /// validation of blocks.
    pub has_changed_since_validation: bool,
}

impl Node {
    /// The state of a node slot before it is initialised.
    pub open spec fn is_fresh(&self) -> bool {
        &&& self.node_id == -1
        &&& self.node_state is None
        &&& self.parent is None
        &&& self.node_type == NodeType::TreeNode
        &&& self.tree_depth == 0
        &&& self.number_of_positive_atomic_concepts == 0
        &&& self.number_of_negated_atomic_concepts == 0
        &&& self.number_of_negated_role_assertions == 0
        &&& self.unprocessed_existentials@.len() == 0
        &&& self.previous_tableau_node is None
        &&& self.next_tableau_node is None
        &&& self.previous_merged_or_pruned_node is None
        &&& self.merged_into is None
        &&& self.merged_into_dependency_set is None
        &&& self.blocker is None
        &&& !self.directly_blocked
        &&& self.first_graph_occurrence_node == -1
        &&& self.next_free_node is None
        &&& self.constant_value is None
        &&& !self.block_violates_parent_constraints
        &&& !self.has_already_been_checked
        &&& self.blocking_label_cache is None
        &&& self.blocking_core_label_cache is None
        &&& self.blocking_from_parent_cache is None
        &&& self.blocking_to_parent_cache is None
        &&& !self.has_blocking_info_changed
        &&& !self.has_changed_since_validation
    }

    pub fn new_empty() -> (r: Node)
        ensures
            r.is_fresh(),
    {
        Node {
            node_id: -1,
            node_state: None,
            parent: None,
            node_type: NodeType::TreeNode,
            tree_depth: 0,
            number_of_positive_atomic_concepts: 0,
            number_of_negated_atomic_concepts: 0,
            number_of_negated_role_assertions: 0,
            unprocessed_existentials: Vec::new(),
            previous_tableau_node: None,
            next_tableau_node: None,
            previous_merged_or_pruned_node: None,
            merged_into: None,
            merged_into_dependency_set: None,
            blocker: None,
            directly_blocked: false,
            first_graph_occurrence_node: -1,
            next_free_node: None,
            constant_value: None,
            block_violates_parent_constraints: false,
            has_already_been_checked: false,
            blocking_label_cache: None,
            blocking_core_label_cache: None,
            blocking_from_parent_cache: None,
            blocking_to_parent_cache: None,
            has_blocking_info_changed: false,
            has_changed_since_validation: false,
        }
    }

    /// Drops the cached blocking labels and marks the node's blocking
    /// information changed, so that the next blocking pass fetches them again.
    pub fn invalidate_blocking_cache(&mut self)
        ensures
            *final(self) == (Node {
                blocking_label_cache: None,
                blocking_core_label_cache: None,
                blocking_from_parent_cache: None,
                blocking_to_parent_cache: None,
                has_blocking_info_changed: true,
                has_changed_since_validation: true,
                ..*old(self)
            }),
    {
        self.blocking_label_cache = None;
        self.blocking_core_label_cache = None;
        self.blocking_from_parent_cache = None;
        self.blocking_to_parent_cache = None;
        self.has_blocking_info_changed = true;
        self.has_changed_since_validation = true;
    }

    pub fn constant_value(&self) -> (r: Option<&Constant>)
        ensures
            r == match self.constant_value {
                Some(c) => Some(&c),
                None => None,
            },
    {
        match &self.constant_value {
            Some(c) => Some(c),
            None => None,
        }
    }

    pub fn get_node_id(&self) -> (r: i32)
        ensures
            r == self.node_id,
    {
        self.node_id
    }

    pub fn get_parent(&self) -> (r: Option<NodeId>)
        ensures
            r == self.parent,
    {
        self.parent
    }

    pub fn is_root_node(&self) -> (r: bool)
        ensures
            r <==> self.parent is None,
    {
        self.parent.is_none()
    }

    pub fn get_node_type(&self) -> (r: NodeType)
        ensures
            r == self.node_type,
    {
        self.node_type
    }

    pub fn get_tree_depth(&self) -> (r: i32)
        ensures
            r == self.tree_depth,
    {
        self.tree_depth
    }

    /// A node is blocked when it has a blocker, or when it is directly
    /// blocked by the signature cache, which names no blocking node.
    pub open spec fn blocked(&self) -> bool {
        self.blocker is Some || self.directly_blocked
    }

    pub fn is_blocked(&self) -> (r: bool)
        ensures
            r == self.blocked(),
    {
        self.blocker.is_some() || self.directly_blocked
    }

    pub fn is_directly_blocked(&self) -> (r: bool)
        ensures
            r == self.directly_blocked,
    {
        self.directly_blocked
    }

    /// Blocked through a blocked ancestor: a blocker, but not a direct block.
    pub fn is_indirectly_blocked(&self) -> (r: bool)
        ensures
            r <==> (self.blocker is Some && !self.directly_blocked),
    {
        self.blocker.is_some() && !self.directly_blocked
    }

    pub fn get_blocker(&self) -> (r: Option<NodeId>)
        ensures
            r == self.blocker,
    {
        self.blocker
    }

    pub fn set_blocked(&mut self, blocker: Option<NodeId>, directly_blocked: bool)
        ensures
            *final(self) == (Node { blocker, directly_blocked, ..*old(self) }),
    {
        self.blocker = blocker;
        self.directly_blocked = directly_blocked;
    }

    pub fn get_number_of_positive_atomic_concepts(&self) -> (r: i32)
        ensures
            r == self.number_of_positive_atomic_concepts,
    {
        self.number_of_positive_atomic_concepts
    }

    pub fn is_active(&self) -> (r: bool)
        ensures
            r <==> self.node_state == Some(NodeState::Active),
    {
        matches!(self.node_state, Some(NodeState::Active))
    }

    pub fn is_merged(&self) -> (r: bool)
        ensures
            r <==> self.node_state == Some(NodeState::Merged),
    {
        matches!(self.node_state, Some(NodeState::Merged))
    }

    pub fn get_merged_into(&self) -> (r: Option<NodeId>)
        ensures
            r == self.merged_into,
    {
        self.merged_into
    }

    pub fn get_merged_into_dependency_set(&self) -> (r: Option<&PermanentDependencySet>)
        ensures
            r == match self.merged_into_dependency_set {
                Some(d) => Some(&d),
                None => None,
            },
    {
        match &self.merged_into_dependency_set {
            Some(d) => Some(d),
            None => None,
        }
    }

    pub fn is_pruned(&self) -> (r: bool)
        ensures
            r <==> self.node_state == Some(NodeState::Pruned),
    {
        matches!(self.node_state, Some(NodeState::Pruned))
    }

    pub fn get_previous_tableau_node(&self) -> (r: Option<NodeId>)
        ensures
            r == self.previous_tableau_node,
    {
        self.previous_tableau_node
    }

    pub fn get_next_tableau_node(&self) -> (r: Option<NodeId>)
        ensures
            r == self.next_tableau_node,
    {
        self.next_tableau_node
    }

    pub fn has_unprocessed_existentials(&self) -> (r: bool)
        ensures
            r <==> self.unprocessed_existentials@.len() > 0,
    {
        self.unprocessed_existentials.len() > 0
    }

    /// The existential that was added last among those still unprocessed.
    pub fn get_some_unprocessed_existential(&self) -> (r: Option<&ExistentialConcept>)
        ensures
            r == if self.unprocessed_existentials@.len() == 0 {
                None
            } else {
                Some(&self.unprocessed_existentials@.last())
            },
    {
        let n = self.unprocessed_existentials.len();
        if n == 0 {
            None
        } else {
            Some(&self.unprocessed_existentials[n - 1])
        }
    }

    pub fn get_unprocessed_existentials(&self) -> (r: &[ExistentialConcept])
        ensures
            r@ == self.unprocessed_existentials@,
    {
        self.unprocessed_existentials.as_slice()
    }
}

/// The node reached from `node` by following `k` parent links; `None` once a
/// root was passed or a link leaves the arena.
pub open spec fn nth_parent(nodes: Seq<Node>, node: NodeId, k: nat) -> Option<NodeId>
    decreases k,
{
    if k == 0 {
        Some(node)
    } else {
        match nth_parent(nodes, node, (k - 1) as nat) {
            Some(n) => if n < nodes.len() {
                nodes[n as int].parent
            } else {
                None
            },
            None => None,
        }
    }
}

/// Walking up from `node` stays in the arena and, after `s` links, either
/// reaches a root or has `ancestor` as the next parent.
pub open spec fn ancestor_walk_stops(nodes: Seq<Node>, ancestor: NodeId, node: NodeId, s: nat) -> bool {
    &&& forall|k: nat|
        k <= s ==> match #[trigger] nth_parent(nodes, node, k) {
            Some(n) => n < nodes.len(),
            None => false,
        }
    &&& nth_parent(nodes, node, s + 1) is None || nth_parent(nodes, node, s + 1) == Some(ancestor)
}

/// Once the walk up has ended, it stays ended.
proof fn lemma_nth_parent_ended(nodes: Seq<Node>, node: NodeId, k1: nat, k2: nat)
    requires
        k1 <= k2,
        nth_parent(nodes, node, k1) is None,
    ensures
        nth_parent(nodes, node, k2) is None,
    decreases k2 - k1,
{
    if k1 < k2 {
        lemma_nth_parent_ended(nodes, node, k1, (k2 - 1) as nat);
    }
}

/// Whether `ancestor` is a proper ancestor of `potential_descendant`: it is
/// reached by following one or more parent links.
pub fn is_ancestor_of(nodes: &[Node], ancestor: NodeId, potential_descendant: NodeId) -> (r: bool)
    requires
        exists|s: nat| ancestor_walk_stops(nodes@, ancestor, potential_descendant, s),
    ensures
        r == exists|k: nat| 1 <= k && #[trigger] nth_parent(nodes@, potential_descendant, k) == Some(
            ancestor,
        ),
{
    let ghost s = choose|s: nat| ancestor_walk_stops(nodes@, ancestor, potential_descendant, s);
    let mut node = potential_descendant;
    let ghost mut i: nat = 0;
    loop
        invariant
            ancestor_walk_stops(nodes@, ancestor, potential_descendant, s),
            i <= s,
            nth_parent(nodes@, potential_descendant, i) == Some(node),
            forall|k: nat|
                1 <= k <= i ==> #[trigger] nth_parent(nodes@, potential_descendant, k) != Some(
                    ancestor,
                ),
        decreases s - i,
    {
        assert(nth_parent(nodes@, potential_descendant, i) is Some);
        match nodes[node].parent {
            None => {
                proof {
                    assert(nth_parent(nodes@, potential_descendant, i + 1) is None);
                    assert forall|k: nat| 1 <= k implies #[trigger] nth_parent(
                        nodes@,
                        potential_descendant,
                        k,
                    ) != Some(ancestor) by {
                        if k > i {
                            lemma_nth_parent_ended(nodes@, potential_descendant, i + 1, k);
                        }
                    }
                }
                return false;
            },
            Some(parent) => {
                assert(nth_parent(nodes@, potential_descendant, i + 1) == Some(parent));
                if parent == ancestor {
                    return true;
                }
                node = parent;
                proof {
                    i = i + 1;
                }
            },
        }
    }
}

/// The node reached from `node` by following `k` merge links; `None` once an
/// unmerged node was passed or a link leaves the arena.
pub open spec fn nth_merge(nodes: Seq<Node>, node: NodeId, k: nat) -> Option<NodeId>
    decreases k,
{
    if k == 0 {
        Some(node)
    } else {
        match nth_merge(nodes, node, (k - 1) as nat) {
            Some(n) => if n < nodes.len() {
                nodes[n as int].merged_into
            } else {
                None
            },
            None => None,
        }
    }
}

/// Following the merge links from `node` stays in the arena and, after `s`
/// links, reaches a node that was not merged.
pub open spec fn merge_chain_ends(nodes: Seq<Node>, node: NodeId, s: nat) -> bool {
    &&& forall|k: nat|
        k <= s ==> match #[trigger] nth_merge(nodes, node, k) {
            Some(n) => n < nodes.len(),
            None => false,
        }
    &&& nth_merge(nodes, node, s + 1) is None
}

/// The node that `node` was finally merged into: the node at the end of its
/// chain of merge links, itself when it was not merged.
pub fn get_canonical_node(nodes: &[Node], node: NodeId) -> (r: NodeId)
    requires
        exists|s: nat| merge_chain_ends(nodes@, node, s),
    ensures
        r < nodes@.len(),
        nodes@[r as int].merged_into is None,
        exists|k: nat| #[trigger] nth_merge(nodes@, node, k) == Some(r),
{
    let ghost s = choose|s: nat| merge_chain_ends(nodes@, node, s);
    let mut result = node;
    let ghost mut i: nat = 0;
    loop
        invariant
            merge_chain_ends(nodes@, node, s),
            i <= s,
            nth_merge(nodes@, node, i) == Some(result),
        decreases s - i,
    {
        assert(nth_merge(nodes@, node, i) is Some);
        match nodes[result].merged_into {
            None => {
                return result;
            },
            Some(merged_into) => {
                assert(nth_merge(nodes@, node, i + 1) == Some(merged_into));
                result = merged_into;
                proof {
                    i = i + 1;
                }
            },
        }
    }
}

/// Once the merge chain has ended, it stays ended.
proof fn lemma_nth_merge_ended(nodes: Seq<Node>, node: NodeId, k1: nat, k2: nat)
    requires
        k1 <= k2,
        nth_merge(nodes, node, k1) is None,
    ensures
        nth_merge(nodes, node, k2) is None,
    decreases k2 - k1,
{
    if k1 < k2 {
        lemma_nth_merge_ended(nodes, node, k1, (k2 - 1) as nat);
    }
}

/// A node has one canonical node: two unmerged nodes of the arena on its
/// chain of merge links are the same node.
pub proof fn lemma_canonical_node_unique(
    nodes: Seq<Node>,
    node: NodeId,
    k1: nat,
    k2: nat,
    a: NodeId,
    b: NodeId,
)
    requires
        nth_merge(nodes, node, k1) == Some(a),
        nth_merge(nodes, node, k2) == Some(b),
        a < nodes.len(),
        b < nodes.len(),
        nodes[a as int].merged_into is None,
        nodes[b as int].merged_into is None,
    ensures
        a == b,
{
    if k1 < k2 {
        assert(nth_merge(nodes, node, k1 + 1) is None);
        lemma_nth_merge_ended(nodes, node, k1 + 1, k2);
    } else if k2 < k1 {
        assert(nth_merge(nodes, node, k2 + 1) is None);
        lemma_nth_merge_ended(nodes, node, k2 + 1, k1);
    }
}

/// Node `node`'s chain of merge links passes, after `k` links, a merged node
/// that was merged under a dependency set with branching point `v`.
pub open spec fn merged_at_holds(nodes: Seq<Node>, node: NodeId, k: nat, v: i32) -> bool {
    match nth_merge(nodes, node, k) {
        Some(n) => n < nodes.len() && nodes[n as int].merged_into is Some && match nodes[n as int].merged_into_dependency_set {
            Some(d) => d.points().contains(v),
            None => false,
        },
        None => false,
    }
}

/// Every merged node on the merge chain of `node` keeps the dependency set
/// it was merged under.
pub open spec fn merge_sets_recorded(nodes: Seq<Node>, node: NodeId) -> bool {
    forall|k: nat|
        match #[trigger] nth_merge(nodes, node, k) {
            Some(n) => n < nodes.len() && nodes[n as int].merged_into is Some
                ==> nodes[n as int].merged_into_dependency_set is Some,
            None => true,
        }
}

/// A change of interned sets that only adds unused sets, followed by another,
/// only adds unused sets.
proof fn lemma_only_adds_unused_chains(a: Map<Seq<i32>, nat>, b: Map<Seq<i32>, nat>, c: Map<Seq<i32>, nat>)
    requires
        only_adds_unused(a, b),
        only_adds_unused(b, c),
    ensures
        only_adds_unused(a, c),
{
    assert forall|k: Seq<i32>| #[trigger] c.contains_key(k) && !a.contains_key(k) implies c[k] == 0 by {
        if b.contains_key(k) {
            assert(b[k] == 0);
        }
    }
}

/// The interned set of `dependency_set`'s branching points together with
/// those of every dependency set under which a node on `node`'s chain of
/// merge links was merged.
pub fn add_canonical_node_dependency_set(
    nodes: &[Node],
    factory: &mut DependencySetFactory,
    node: NodeId,
    dependency_set: &DependencySet,
) -> (r: PermanentDependencySet)
    requires
        old(factory).wf(),
        exists|s: nat| merge_chain_ends(nodes@, node, s),
        merge_sets_recorded(nodes@, node),
    ensures
        final(factory).wf(),
        only_adds_unused(old(factory).interned(), final(factory).interned()),
        canonical_of(
            r,
            |v: i32|
                set_points(*dependency_set).contains(v) || exists|k: nat| #[trigger] merged_at_holds(nodes@, node, k, v),
        ),
{
    let ghost s = choose|s: nat| merge_chain_ends(nodes@, node, s);
    let ghost pre = old(factory).interned();
    let mut result = factory.get_permanent(dependency_set);
    proof {
        lemma_permanent_set_points(result);
        if dependency_set is Union {
            let f = |v: i32| set_points(*dependency_set).contains(v);
            assert forall|v: i32| result.points().contains(v) <==> set_points(*dependency_set).contains(v) by {
                assert(result.points().contains(v) <==> f(v));
            }
        }
    }
    let mut current = node;
    let ghost mut i: nat = 0;
    loop
        invariant
            factory.wf(),
            pre == old(factory).interned(),
            only_adds_unused(pre, factory.interned()),
            merge_chain_ends(nodes@, node, s),
            merge_sets_recorded(nodes@, node),
            i <= s,
            nth_merge(nodes@, node, i) == Some(current),
            strictly_descending(result.points()),
            forall|v: i32|
                result.points().contains(v) <==> (set_points(*dependency_set).contains(v)
                    || exists|k: nat| k < i && #[trigger] merged_at_holds(nodes@, node, k, v)),
        decreases s - i,
    {
        assert(nth_merge(nodes@, node, i) is Some);
        match nodes[current].merged_into {
            None => {
                proof {
                    assert forall|v: i32|
                        result.points().contains(v) <==> (set_points(*dependency_set).contains(v)
                            || exists|k: nat| #[trigger] merged_at_holds(nodes@, node, k, v)) by {
                        if exists|k: nat| #[trigger] merged_at_holds(nodes@, node, k, v) {
                            let k = choose|k: nat| #[trigger] merged_at_holds(nodes@, node, k, v);
                            if k > i {
                                assert(nth_merge(nodes@, node, i + 1) is None);
                                lemma_nth_merge_ended(nodes@, node, i + 1, k);
                            }
                            assert(k < i);
                        }
                    }
                    let holds = |v: i32|
                        set_points(*dependency_set).contains(v) || exists|k: nat| #[trigger] merged_at_holds(nodes@, node, k, v);
                    assert forall|v: i32| result.points().contains(v) <==> #[trigger] holds(v) by {}
                }
                return result;
            },
            Some(merged_into) => {
                proof {
                    assert(nth_merge(nodes@, node, i + 1) == Some(merged_into));
                    assert(nodes@[current as int].merged_into_dependency_set is Some);
                }
                let merged_dependency_set = match &nodes[current].merged_into_dependency_set {
                    Some(d) => d.clone(),
                    None => {
                        proof {
                            assert(false);
                        }
                        result.clone()
                    },
                };
                let ghost before = factory.interned();
                let ghost previous = result;
                result = factory.union_with(
                    &DependencySet::Permanent(result),
                    &DependencySet::Permanent(merged_dependency_set),
                );
                proof {
                    lemma_only_adds_unused_chains(pre, before, factory.interned());
                    lemma_permanent_set_points(previous);
                    lemma_permanent_set_points(merged_dependency_set);
                    let f = |v: i32|
                        set_points(DependencySet::Permanent(previous)).contains(v) || set_points(
                            DependencySet::Permanent(merged_dependency_set),
                        ).contains(v);
                    assert forall|v: i32|
                        result.points().contains(v) <==> (set_points(*dependency_set).contains(v)
                            || exists|k: nat| k < i + 1 && #[trigger] merged_at_holds(nodes@, node, k, v)) by {
                        assert(result.points().contains(v) <==> f(v));
                        assert(merged_at_holds(nodes@, node, i, v) <==> merged_dependency_set.points().contains(
                            v,
                        ));
                        if exists|k: nat| k < i + 1 && #[trigger] merged_at_holds(nodes@, node, k, v) {
                            let k = choose|k: nat| k < i + 1 && #[trigger] merged_at_holds(nodes@, node, k, v);
                            if k < i {
                            } else {
                                assert(k == i);
                            }
                        }
                    }
                    i = i + 1;
                }
                current = merged_into;
            },
        }
    }
}

/// The node reached by following `k` links of the tableau's node list from
/// `first`; `None` once the list ended or a link left the arena.
pub open spec fn nth_listed(nodes: Seq<Node>, first: Option<NodeId>, k: nat) -> Option<NodeId>
    decreases k,
{
    if k == 0 {
        first
    } else {
        match nth_listed(nodes, first, (k - 1) as nat) {
            Some(n) => if n < nodes.len() {
                nodes[n as int].next_tableau_node
            } else {
                None
            },
            None => None,
        }
    }
}

/// The walk along the node list from `first` stays in the arena until,
/// after `s` links, the list ends or a node with id `node_id` is met.
pub open spec fn list_walk_stops(nodes: Seq<Node>, first: Option<NodeId>, node_id: i32, s: nat) -> bool {
    &&& forall|k: nat|
        k <= s ==> match #[trigger] nth_listed(nodes, first, k) {
            Some(n) => n < nodes.len(),
            None => k == s,
        }
    &&& match nth_listed(nodes, first, s) {
        Some(n) => nodes[n as int].node_id == node_id,
        None => true,
    }
}

/// The node at place `k` of the list does not have id `node_id`.
pub open spec fn listed_other(nodes: Seq<Node>, first: Option<NodeId>, node_id: i32, k: nat) -> bool {
    match nth_listed(nodes, first, k) {
        Some(n) => n < nodes.len() && nodes[n as int].node_id != node_id,
        None => false,
    }
}

/// Once the list has ended, it stays ended.
proof fn lemma_nth_listed_ended(nodes: Seq<Node>, first: Option<NodeId>, k1: nat, k2: nat)
    requires
        k1 <= k2,
        nth_listed(nodes, first, k1) is None,
    ensures
        nth_listed(nodes, first, k2) is None,
    decreases k2 - k1,
{
    if k1 < k2 {
        lemma_nth_listed_ended(nodes, first, k1, (k2 - 1) as nat);
    }
}

/// The first node of the tableau's node list, starting at
/// `first_tableau_node`, whose id is `node_id`; `None` when there is none.
pub fn get_node(nodes: &[Node], first_tableau_node: Option<NodeId>, node_id: i32) -> (r: Option<NodeId>)
    requires
        exists|s: nat| list_walk_stops(nodes@, first_tableau_node, node_id, s),
    ensures
        match r {
            Some(id) => exists|k: nat|
                {
                    &&& #[trigger] nth_listed(nodes@, first_tableau_node, k) == Some(id)
                    &&& id < nodes@.len()
                    &&& nodes@[id as int].node_id == node_id
                    &&& forall|j: nat| j < k ==> #[trigger] listed_other(nodes@, first_tableau_node, node_id, j)
                },
            None => forall|k: nat|
                #[trigger] nth_listed(nodes@, first_tableau_node, k) is Some ==> listed_other(
                    nodes@,
                    first_tableau_node,
                    node_id,
                    k,
                ),
        },
{
    let ghost s = choose|s: nat| list_walk_stops(nodes@, first_tableau_node, node_id, s);
    let mut node = first_tableau_node;
    let ghost mut i: nat = 0;
    loop
        invariant
            list_walk_stops(nodes@, first_tableau_node, node_id, s),
            i <= s,
            nth_listed(nodes@, first_tableau_node, i) == node,
            forall|j: nat| j < i ==> #[trigger] listed_other(nodes@, first_tableau_node, node_id, j),
        decreases s - i,
    {
        match node {
            None => {
                proof {
                    assert forall|k: nat| #[trigger]
                        nth_listed(nodes@, first_tableau_node, k) is Some implies listed_other(
                        nodes@,
                        first_tableau_node,
                        node_id,
                        k,
                    ) by {
                        if k >= i {
                            lemma_nth_listed_ended(nodes@, first_tableau_node, i, k);
                        }
                    }
                }
                return None;
            },
            Some(id) => {
                assert(nth_listed(nodes@, first_tableau_node, i) == Some(id));
                if nodes[id].node_id == node_id {
                    return Some(id);
                }
                proof {
                    assert(listed_other(nodes@, first_tableau_node, node_id, i));
                    assert(nth_listed(nodes@, first_tableau_node, i + 1) == nodes@[id as int].next_tableau_node);
                    i = i + 1;
                }
                node = nodes[id].next_tableau_node;
            },
        }
    }
}

/// `post` is `pre` made an active node with the given id, parent, type and
/// depth: its counts, links, merge, block and constant cleared, and its
/// remaining fields kept.
pub open spec fn initialized(
    pre: Node,
    post: Node,
    node_id: i32,
    parent: Option<NodeId>,
    node_type: NodeType,
    tree_depth: i32,
) -> bool {
    &&& post.node_id == node_id
    &&& post.node_state == Some(NodeState::Active)
    &&& post.parent == parent
    &&& post.node_type == node_type
    &&& post.tree_depth == tree_depth
    &&& post.number_of_positive_atomic_concepts == 0
    &&& post.number_of_negated_atomic_concepts == 0
    &&& post.number_of_negated_role_assertions == 0
    &&& post.unprocessed_existentials@.len() == 0
    &&& post.previous_tableau_node is None
    &&& post.next_tableau_node is None
    &&& post.previous_merged_or_pruned_node is None
    &&& post.merged_into is None
    &&& post.merged_into_dependency_set is None
    &&& post.blocker is None
    &&& !post.directly_blocked
    &&& post.constant_value is None
    &&& kept_aside(pre, post)
}

/// The fields that neither initialising nor destroying a node touches.
pub open spec fn kept_aside(pre: Node, post: Node) -> bool {
    &&& post.first_graph_occurrence_node == pre.first_graph_occurrence_node
    &&& post.next_free_node == pre.next_free_node
    &&& post.block_violates_parent_constraints == pre.block_violates_parent_constraints
    &&& post.has_already_been_checked == pre.has_already_been_checked
    &&& post.blocking_label_cache == pre.blocking_label_cache
    &&& post.blocking_core_label_cache == pre.blocking_core_label_cache
    &&& post.blocking_from_parent_cache == pre.blocking_from_parent_cache
    &&& post.blocking_to_parent_cache == pre.blocking_to_parent_cache
    &&& post.has_blocking_info_changed == pre.has_blocking_info_changed
    &&& post.has_changed_since_validation == pre.has_changed_since_validation
}

/// `post` is `pre` destroyed: no id, no state, no parent, its links, merge
/// and blocker cleared, and its remaining fields kept.
pub open spec fn destroyed(pre: Node, post: Node) -> bool {
    &&& post.node_id == -1
    &&& post.node_state is None
    &&& post.parent is None
    &&& post.unprocessed_existentials@.len() == 0
    &&& post.previous_tableau_node is None
    &&& post.next_tableau_node is None
    &&& post.previous_merged_or_pruned_node is None
    &&& post.merged_into is None
    &&& post.merged_into_dependency_set is None
    &&& post.blocker is None
    &&& post.node_type == pre.node_type
    &&& post.tree_depth == pre.tree_depth
    &&& post.number_of_positive_atomic_concepts == pre.number_of_positive_atomic_concepts
    &&& post.number_of_negated_atomic_concepts == pre.number_of_negated_atomic_concepts
    &&& post.number_of_negated_role_assertions == pre.number_of_negated_role_assertions
    &&& post.directly_blocked == pre.directly_blocked
    &&& post.constant_value == pre.constant_value
    &&& kept_aside(pre, post)
}

/// A node slot for a new node: the first slot of the free list, taken off
/// it, or else a fresh slot at the end of the arena.
pub fn allocate_node(
    nodes: &mut Vec<Node>,
    first_free_node: &mut Option<NodeId>,
    allocated_nodes: &mut i32,
) -> (r: NodeId)
    requires
        match *old(first_free_node) {
            Some(reused) => reused < old(nodes)@.len(),
            None => *old(allocated_nodes) < i32::MAX,
        },
    ensures
        r < final(nodes)@.len(),
        match *old(first_free_node) {
            Some(reused) => {
                &&& r == reused
                &&& *final(first_free_node) == old(nodes)@[reused as int].next_free_node
                &&& *final(allocated_nodes) == *old(allocated_nodes)
                &&& final(nodes)@.len() == old(nodes)@.len()
                &&& forall|j: int| 0 <= j < old(nodes)@.len() && j != r ==> #[trigger] final(nodes)@[j] == old(nodes)@[j]
                &&& final(nodes)@[r as int] == (Node { next_free_node: None, ..old(nodes)@[r as int] })
            },
            None => {
                &&& r == old(nodes)@.len()
                &&& *final(first_free_node) is None
                &&& *final(allocated_nodes) == *old(allocated_nodes) + 1
                &&& final(nodes)@.len() == old(nodes)@.len() + 1
                &&& forall|j: int| 0 <= j < old(nodes)@.len() ==> #[trigger] final(nodes)@[j] == old(nodes)@[j]
                &&& final(nodes)@[r as int].is_fresh()
            },
        },
{
    match *first_free_node {
        Some(reused) => {
            *first_free_node = nodes[reused].next_free_node;
            nodes[reused].next_free_node = None;
            reused
        },
        None => {
            *allocated_nodes = *allocated_nodes + 1;
            nodes.push(Node::new_empty());
            nodes.len() - 1
        },
    }
}

/// Makes slot `node` an active node with id `node_id`, parent, type and
/// depth, and forgets its graph occurrences.
pub fn initialize_node(
    nodes: &mut Vec<Node>,
    description_graph_manager: &mut DescriptionGraphManager,
    node: NodeId,
    node_id: i32,
    parent: Option<NodeId>,
    node_type: NodeType,
    tree_depth: i32,
)
    requires
        node < old(nodes)@.len(),
        old(description_graph_manager).wf(),
    ensures
        final(nodes)@.len() == old(nodes)@.len(),
        forall|j: int| 0 <= j < old(nodes)@.len() && j != node ==> #[trigger] final(nodes)@[j] == old(nodes)@[j],
        initialized(old(nodes)@[node as int], final(nodes)@[node as int], node_id, parent, node_type, tree_depth),
        final(description_graph_manager).wf(),
        final(description_graph_manager).occurrence_lists() == old(description_graph_manager).occurrence_lists().remove(node),
        final(description_graph_manager).tables() == old(description_graph_manager).tables(),
        final(description_graph_manager).graph_list() == old(description_graph_manager).graph_list(),
        final(description_graph_manager).graph_indices() == old(description_graph_manager).graph_indices(),
        final(description_graph_manager).frontier() == old(description_graph_manager).frontier(),
{
    let n = &mut nodes[node];
    n.node_id = node_id;
    n.node_state = Some(NodeState::Active);
    n.parent = parent;
    n.node_type = node_type;
    n.tree_depth = tree_depth;
    n.number_of_positive_atomic_concepts = 0;
    n.number_of_negated_atomic_concepts = 0;
    n.number_of_negated_role_assertions = 0;
    n.unprocessed_existentials.clear();
    n.previous_tableau_node = None;
    n.next_tableau_node = None;
    n.previous_merged_or_pruned_node = None;
    n.merged_into = None;
    n.merged_into_dependency_set = None;
    n.blocker = None;
    n.directly_blocked = false;
    n.constant_value = None;
    description_graph_manager.initialize_node(node);
}

/// Empties slot `node`: releases the use of the dependency set it was merged
/// under, clears its id, state, parent and links, and returns its graph
/// occurrence records.
pub fn destroy_node(
    nodes: &mut Vec<Node>,
    description_graph_manager: &mut DescriptionGraphManager,
    factory: &mut DependencySetFactory,
    node: NodeId,
)
    requires
        node < old(nodes)@.len(),
        old(description_graph_manager).wf(),
        old(factory).wf(),
    ensures
        final(nodes)@.len() == old(nodes)@.len(),
        forall|j: int| 0 <= j < old(nodes)@.len() && j != node ==> #[trigger] final(nodes)@[j] == old(nodes)@[j],
        destroyed(old(nodes)@[node as int], final(nodes)@[node as int]),
        final(factory).wf(),
        final(factory).interned() == match old(nodes)@[node as int].merged_into_dependency_set {
            Some(d) => usage_removed(old(factory).interned(), d.points()),
            None => old(factory).interned(),
        },
        final(description_graph_manager).wf(),
        final(description_graph_manager).occurrence_lists() == old(description_graph_manager).occurrence_lists().remove(node),
        final(description_graph_manager).tables() == old(description_graph_manager).tables(),
        final(description_graph_manager).graph_list() == old(description_graph_manager).graph_list(),
        final(description_graph_manager).graph_indices() == old(description_graph_manager).graph_indices(),
        final(description_graph_manager).frontier() == old(description_graph_manager).frontier(),
{
    match &nodes[node].merged_into_dependency_set {
        Some(dependency_set) => {
            factory.remove_usage(dependency_set);
        },
        None => {},
    }
    let n = &mut nodes[node];
    n.node_id = -1;
    n.node_state = None;
    n.parent = None;
    n.unprocessed_existentials.clear();
    n.previous_tableau_node = None;
    n.next_tableau_node = None;
    n.previous_merged_or_pruned_node = None;
    n.merged_into = None;
    n.merged_into_dependency_set = None;
    n.blocker = None;
    description_graph_manager.destroy_node(node);
}

} // verus!
