use hermit_tableau::existential_expansion::is_permanent_satisfier;
use hermit_tableau::node::Node;

#[test]
fn permanent_satisfiers_are_the_node_its_neighbours_and_roots() {
    // 0: root; 1: child of 0; 2: child of 1; 3: child of 1.
    let mut nodes: Vec<Node> = (0..4).map(|_| Node::new_empty()).collect();
    nodes[1].parent = Some(0);
    nodes[2].parent = Some(1);
    nodes[3].parent = Some(1);
    assert!(is_permanent_satisfier(&nodes, 2, 2));
    assert!(is_permanent_satisfier(&nodes, 2, 1));
    assert!(is_permanent_satisfier(&nodes, 1, 2));
    assert!(is_permanent_satisfier(&nodes, 2, 0));
    assert!(!is_permanent_satisfier(&nodes, 2, 3));
}
