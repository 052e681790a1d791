use hermit_tableau::object::{AtLeastKind, Concept, DLPredicate, DescriptionGraph, NegatedAtomicRole, TableauObject};
use hermit_tableau::node_type::NodeType;

#[test]
fn unique_keys_put_the_variant_in_the_top_bits() {
    assert_eq!(TableauObject::Node(5).unique_key(), (4u64 << 61) | 5);
    assert_eq!(TableauObject::Concept(Concept { id: 7 }).unique_key(), 7);
    let p = DLPredicate { id: 9, arity: 2, at_least: AtLeastKind::NotAtLeast };
    assert_eq!(TableauObject::DLPredicate(p).unique_key(), (1u64 << 61) | 9);
    assert_ne!(
        TableauObject::Node(3).unique_key(),
        TableauObject::Concept(Concept { id: 3 }).unique_key()
    );
}

#[test]
fn raw_keys_spread_by_variant() {
    assert_eq!(TableauObject::Node(2).raw_key(), 34);
    assert_eq!(TableauObject::Concept(Concept { id: 2 }).raw_key(), 10);
}

#[test]
fn views_of_an_object() {
    let node = TableauObject::Node(8);
    assert!(node.is_node());
    assert_eq!(node.as_node(), Some(8));
    assert!(node.as_concept().is_none());
    let concept = TableauObject::Concept(Concept { id: 1 });
    assert!(!concept.is_node());
    assert_eq!(concept.as_concept(), Some(&Concept { id: 1 }));
    assert!(concept.as_dl_predicate().is_none());
}

#[test]
fn node_types() {
    assert_eq!(NodeType::NamedNode.get_merge_precedence(), 0);
    assert_eq!(NodeType::NiNode.get_merge_precedence(), 1);
    assert_eq!(NodeType::ConcreteNode.get_merge_precedence(), 2);
    assert!(NodeType::TreeNode.is_ni_target());
    assert!(!NodeType::NamedNode.is_ni_target());
    assert!(!NodeType::ConcreteNode.is_abstract());
    assert_eq!(NodeType::RootConstantNode.name(), "ROOT_CONSTANT_NODE");
}

#[test]
fn graph_and_negated_role_views() {
    let graph = TableauObject::DescriptionGraph(DescriptionGraph { id: 3, number_of_vertices: 2 });
    assert_eq!(graph.as_description_graph(), Some(&DescriptionGraph { id: 3, number_of_vertices: 2 }));
    assert!(graph.as_negated_atomic_role().is_none());
    let role = TableauObject::NegatedAtomicRole(NegatedAtomicRole { id: 4 });
    assert_eq!(role.as_negated_atomic_role(), Some(&NegatedAtomicRole { id: 4 }));
    assert!(role.as_description_graph().is_none());
}

#[test]
fn objects_convert_into_tableau_objects() {
    let from_concept: TableauObject = Concept { id: 2 }.into();
    assert_eq!(from_concept, TableauObject::Concept(Concept { id: 2 }));
    let predicate = DLPredicate { id: 5, arity: 1, at_least: AtLeastKind::NotAtLeast };
    let from_predicate: TableauObject = predicate.into();
    assert_eq!(from_predicate, TableauObject::DLPredicate(predicate));
    let from_role: TableauObject = NegatedAtomicRole { id: 6 }.into();
    assert_eq!(from_role.as_negated_atomic_role(), Some(&NegatedAtomicRole { id: 6 }));
    let graph = DescriptionGraph { id: 1, number_of_vertices: 3 };
    let from_graph: TableauObject = graph.into();
    assert_eq!(from_graph.as_description_graph(), Some(&graph));
}

#[test]
fn unique_keys_tell_variants_and_ids_apart() {
    let objects = [
        TableauObject::Concept(Concept { id: 3 }),
        TableauObject::Concept(Concept { id: 4 }),
        TableauObject::Node(3),
        TableauObject::NegatedAtomicRole(NegatedAtomicRole { id: 3 }),
        TableauObject::DescriptionGraph(DescriptionGraph { id: 3, number_of_vertices: 1 }),
    ];
    for (i, a) in objects.iter().enumerate() {
        for (j, b) in objects.iter().enumerate() {
            assert_eq!(a.unique_key() == b.unique_key(), i == j);
        }
    }
}
