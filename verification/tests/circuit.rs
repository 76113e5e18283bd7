use kompyle::circuit::circuit::{Circuit, Node};
use kompyle::circuit::literal_variable;

fn xor() -> Circuit {
    Circuit {
        nodes: vec![
            Node::Leaf(1),
            Node::Leaf(-2),
            Node::And(vec![0, 1]),
            Node::Leaf(-1),
            Node::Leaf(2),
            Node::And(vec![3, 4]),
            Node::Or(vec![2, 5]),
        ],
    }
}

#[test]
fn variable_of_a_literal() {
    assert_eq!(literal_variable(5), 5);
    assert_eq!(literal_variable(-5), 5);
    assert_eq!(literal_variable(0), 0);
    assert_eq!(literal_variable(i32::MIN), 2147483648);
}

#[test]
fn add_child_appends() {
    let mut node = Node::Or(vec![1]);
    node.add_child(4);
    assert_eq!(node, Node::Or(vec![1, 4]));
    let mut node = Node::And(vec![]);
    node.add_child(0);
    node.add_child(0);
    assert_eq!(node, Node::And(vec![0, 0]));
}

#[test]
fn node_clone_is_equal() {
    for node in [Node::Or(vec![1, 2]), Node::And(vec![]), Node::Leaf(-3)] {
        assert_eq!(node.clone(), node);
    }
}

#[test]
fn size_of_a_circuit() {
    assert_eq!(xor().nb_nodes(), 7);
    assert_eq!(xor().nb_vars(), 2);
    assert_eq!(Circuit { nodes: vec![] }.nb_nodes(), 0);
    assert_eq!(Circuit { nodes: vec![] }.nb_vars(), 0);
    assert_eq!(Circuit { nodes: vec![Node::Or(vec![])] }.nb_vars(), 0);
    assert_eq!(Circuit { nodes: vec![Node::Leaf(-9), Node::Leaf(4)] }.nb_vars(), 9);
}

#[test]
fn well_formed_circuits() {
    assert!(xor().is_well_formed());
    assert!(Circuit { nodes: vec![] }.is_well_formed());
    assert!(!Circuit { nodes: vec![Node::Or(vec![0])] }.is_well_formed());
    assert!(!Circuit { nodes: vec![Node::Leaf(1), Node::And(vec![0, 2]), Node::Leaf(2)] }
        .is_well_formed());
}

#[test]
fn depth_and_width() {
    assert_eq!(xor().depth_width(), (3, vec![0, 4, 2, 1]));
    assert_eq!(Circuit { nodes: vec![Node::Leaf(1)] }.depth_width(), (1, vec![0, 1]));
    assert_eq!(Circuit { nodes: vec![Node::And(vec![])] }.depth_width(), (1, vec![0, 1]));
    let chain = Circuit {
        nodes: vec![Node::Leaf(1), Node::Or(vec![0]), Node::Leaf(2), Node::And(vec![2, 1])],
    };
    assert_eq!(chain.depth_width(), (3, vec![0, 2, 1, 1]));
}

#[test]
fn node_width_is_the_largest_fan_in() {
    assert_eq!(xor().node_width(), 2);
    assert_eq!(Circuit { nodes: vec![Node::Leaf(1)] }.node_width(), 0);
    let wide = Circuit {
        nodes: vec![Node::Leaf(1), Node::Leaf(2), Node::Leaf(3), Node::Or(vec![0, 1, 2])],
    };
    assert_eq!(wide.node_width(), 3);
}

#[test]
fn model_count() {
    assert_eq!(xor().mc(), 2);
    assert_eq!(Circuit { nodes: vec![Node::Leaf(1)] }.mc(), 1);
    assert_eq!(Circuit { nodes: vec![Node::Or(vec![])] }.mc(), 0);
    assert_eq!(Circuit { nodes: vec![Node::And(vec![])] }.mc(), 1);
}

#[test]
fn transform_of_xor() {
    let transformed = xor().circuit_transform();
    assert_eq!(
        transformed.nodes,
        vec![
            Node::Or(vec![]),
            Node::And(vec![]),
            Node::Leaf(1),
            Node::Leaf(-1),
            Node::Leaf(2),
            Node::Leaf(-2),
            Node::And(vec![2, 5]),
            Node::And(vec![3, 4]),
            Node::Or(vec![6, 7]),
        ]
    );
    assert!(transformed.is_well_formed());
    assert_eq!(transformed.mc(), 2);
}

#[test]
fn transform_of_gates_without_children() {
    let circuit = Circuit {
        nodes: vec![Node::Or(vec![]), Node::And(vec![]), Node::Leaf(1), Node::And(vec![0, 1, 2])],
    };
    assert_eq!(
        circuit.circuit_transform().nodes,
        vec![
            Node::Or(vec![]),
            Node::And(vec![]),
            Node::Leaf(1),
            Node::Leaf(-1),
            Node::And(vec![0, 1, 2]),
        ]
    );
    assert_eq!(
        Circuit { nodes: vec![] }.circuit_transform().nodes,
        vec![Node::Or(vec![]), Node::And(vec![])]
    );
}

#[test]
fn bool_backprop_of_a_conjunction() {
    let circuit = Circuit { nodes: vec![Node::Leaf(1), Node::Leaf(2), Node::And(vec![0, 1])] };
    let (value, pos, neg) = circuit._bool_grad(vec![true, true], vec![false, false]);
    assert!(value);
    assert_eq!(pos, vec![true, true]);
    assert_eq!(neg, vec![false, false]);
}

#[test]
fn bool_backprop_of_xor() {
    let (value, pos, neg) = xor()._bool_grad(vec![true, false], vec![false, true]);
    assert!(value);
    assert_eq!(pos, vec![true, false]);
    assert_eq!(neg, vec![false, true]);
    let (value, pos, neg) = xor()._bool_grad(vec![true, true], vec![false, false]);
    assert!(!value);
    assert_eq!(pos, vec![false, false]);
    assert_eq!(neg, vec![true, true]);
}
