use std::rc::Rc;

use kompyle::circuit::circuit::{Circuit, Node};
use kompyle::circuit::compile::to_dimacs;
use kompyle::circuit::parser::{parse_d4, parse_dimacs, ParseError};
use kompyle::circuit::rcircuit::{RCircuit, RNode};

fn val(v: i32) -> Rc<RNode> {
    Rc::new(RNode::Val(v))
}

fn cnf(clauses: &[&[i32]]) -> RCircuit {
    RCircuit::from(RNode::Prod(
        clauses
            .iter()
            .map(|c| Rc::new(RNode::Sum(c.iter().map(|l| val(*l)).collect())))
            .collect(),
    ))
}

const XOR_NNF: &str = "o 1 0\no 2 0\nt 3 0\n2 3 -1 2 0\n2 3 1 -2 0\n1 2 0\n";

#[test]
fn d4_single_edge_with_literal() {
    let circuit = parse_d4("o 1 0\nt 2 0\n1 2 1 0\n").unwrap();
    assert_eq!(
        circuit.nodes,
        vec![Node::And(vec![]), Node::Leaf(1), Node::And(vec![1, 0]), Node::Or(vec![2])]
    );
}

#[test]
fn d4_xor() {
    let circuit = parse_d4(XOR_NNF).unwrap();
    assert_eq!(
        circuit.nodes,
        vec![
            Node::And(vec![]),
            Node::Leaf(-1),
            Node::Leaf(2),
            Node::And(vec![1, 2, 0]),
            Node::Leaf(1),
            Node::Leaf(-2),
            Node::And(vec![4, 5, 0]),
            Node::Or(vec![3, 6]),
            Node::Or(vec![7]),
        ]
    );
    assert_eq!(circuit.mc(), 2);
}

#[test]
fn d4_without_final_line_feed_and_with_carriage_returns() {
    let circuit = parse_d4("o 1 0\r\nt 2 0\r\n1 2 1 0").unwrap();
    assert_eq!(circuit.nodes.len(), 4);
}

#[test]
fn d4_kinds_of_introduction() {
    let circuit = parse_d4("f 1 0\na 2 0\n1 2 0\n").unwrap();
    assert_eq!(circuit.nodes, vec![Node::And(vec![]), Node::Or(vec![0])]);
}

#[test]
fn d4_edge_without_closing_zero() {
    let circuit = parse_d4("o 1 0\nt 2 0\n1 2 -3 +4").unwrap();
    assert_eq!(
        circuit.nodes,
        vec![
            Node::And(vec![]),
            Node::Leaf(-3),
            Node::Leaf(4),
            Node::And(vec![1, 2, 0]),
            Node::Or(vec![3])
        ]
    );
}

fn is_topological(circuit: &Circuit) -> bool {
    circuit.nodes.iter().enumerate().all(|(i, node)| match node {
        Node::Or(cs) | Node::And(cs) => cs.iter().all(|c| *c < i),
        Node::Leaf(_) => true,
    })
}

#[test]
fn d4_circuits_are_in_topological_order_with_the_root_last() {
    let text = "o 1 0\no 2 0\no 3 0\nt 4 0\n3 4 1 0\n3 4 -1 2 0\n2 3 3 0\n2 4 -3 0\n1 2 0\n";
    let circuit = parse_d4(text).unwrap();
    assert!(is_topological(&circuit));
    assert_eq!(circuit.nodes.last(), Some(&Node::Or(vec![circuit.nodes.len() - 2])));
    assert_eq!(circuit.nb_nodes(), circuit.nodes.len());
}

#[test]
fn d4_circuits_share_their_leaves() {
    let text = "o 1 0\no 2 0\nt 3 0\n2 3 1 2 0\n2 3 1 -2 0\n1 2 2 0\n";
    let circuit = parse_d4(text).unwrap();
    let mut leaves: Vec<i32> = circuit
        .nodes
        .iter()
        .filter_map(|n| match n {
            Node::Leaf(l) => Some(*l),
            _ => None,
        })
        .collect();
    leaves.sort();
    assert_eq!(leaves, vec![-2, 1, 2]);
}

#[test]
fn d4_malformed_lines() {
    assert_eq!(parse_d4("o 1 0\n\n").err(), Some(ParseError::Malformed(1)));
    assert_eq!(parse_d4("o x 0\n").err(), Some(ParseError::Malformed(0)));
    assert_eq!(parse_d4("o\n").err(), Some(ParseError::Malformed(0)));
    assert_eq!(parse_d4("o 1 0\nt 2 0\n1 2 x 0\n").err(), Some(ParseError::Malformed(2)));
    assert_eq!(parse_d4("o 1 0\nt 2 0\n1 0\n").err(), Some(ParseError::Malformed(2)));
    assert_eq!(
        parse_d4("o 1 0\nt 2 0\n1 2 99999999999 0\n").err(),
        Some(ParseError::Malformed(2))
    );
    assert_eq!(parse_d4("o 1 0\nt 2 0\n-1 2 0\n").err(), Some(ParseError::Malformed(2)));
}

#[test]
fn d4_zero_is_no_literal() {
    assert_eq!(parse_d4("o 1 0\nt 2 0\n1 2 00 0\n").err(), Some(ParseError::Malformed(2)));
    assert_eq!(parse_d4("o 1 0\nt 2 0\n1 2 1 -0 0\n").err(), Some(ParseError::Malformed(2)));
}

#[test]
fn d4_edges_to_unknown_nodes() {
    assert_eq!(parse_d4("o 1 0\n1 3 0\n").err(), Some(ParseError::Malformed(1)));
    assert_eq!(parse_d4("o 1 0\n1 0 0\n").err(), Some(ParseError::Malformed(1)));
    assert_eq!(parse_d4("o 1 0\nt 2 0\n3 2 0\n").err(), Some(ParseError::Malformed(2)));
    assert_eq!(parse_d4("o 1 0\n1 1 0\n").err(), Some(ParseError::Malformed(1)));
    assert_eq!(
        parse_d4("o 1 0\no 2 0\nt 3 0\n2 3 0\n1 2 0\n2 3 1 0\n").err(),
        Some(ParseError::Malformed(5))
    );
}

#[test]
fn d4_missing_root_and_dangling_nodes() {
    assert_eq!(parse_d4("").err(), Some(ParseError::MissingRoot));
    assert_eq!(parse_d4("o 2 0\n").err(), Some(ParseError::MissingRoot));
    assert_eq!(parse_d4("o 1 0\no 2 0\n").err(), Some(ParseError::DanglingNodes));
    let root_only = parse_d4("o 1 0\n").unwrap();
    assert_eq!(root_only.nodes, vec![Node::Or(vec![])]);
}

#[test]
fn dimacs_clauses() {
    let text = "c a comment\np cnf 3 2\n1 -2 0\n2 3 -1 0\n";
    assert_eq!(parse_dimacs(text), Ok(cnf(&[&[1, -2], &[2, 3, -1]])));
}

#[test]
fn dimacs_stops_each_clause_at_the_first_zero() {
    assert_eq!(parse_dimacs("1 2 0 3 x\n-4"), Ok(cnf(&[&[1, 2], &[-4]])));
    assert_eq!(parse_dimacs("1 00 5\n"), Ok(cnf(&[&[1]])));
}

#[test]
fn dimacs_empty_texts_and_lines() {
    assert_eq!(parse_dimacs(""), Ok(cnf(&[])));
    assert_eq!(parse_dimacs("p cnf 0 0\n"), Ok(cnf(&[])));
    assert_eq!(parse_dimacs("1 0\n\n2 0\n"), Ok(cnf(&[&[1], &[], &[2]])));
}

#[test]
fn dimacs_malformed_lines() {
    assert_eq!(parse_dimacs("p cnf 1 1\n1 x 0\n"), Err(ParseError::Malformed(1)));
    assert_eq!(parse_dimacs("1 0\n2 0\n3 2147483648 0\n"), Err(ParseError::Malformed(2)));
    assert_eq!(parse_dimacs(" c 1 0\n"), Err(ParseError::Malformed(0)));
}

#[test]
fn dimacs_round_trip() {
    let node = Rc::new(RNode::Prod(vec![
        Rc::new(RNode::Sum(vec![val(1), val(-2), val(30)])),
        Rc::new(RNode::Sum(vec![val(-1)])),
        Rc::new(RNode::Sum(vec![])),
        Rc::new(RNode::Sum(vec![val(i32::MAX), val(i32::MIN)])),
    ]));
    let text = to_dimacs(node);
    assert_eq!(
        parse_dimacs(&text),
        Ok(cnf(&[&[1, -2, 30], &[-1], &[], &[i32::MAX, i32::MIN]]))
    );
}

#[test]
fn dimacs_round_trip_makes_clauses_of_literals() {
    let node = Rc::new(RNode::Prod(vec![val(3), Rc::new(RNode::Sum(vec![val(1), val(2)]))]));
    assert_eq!(parse_dimacs(&to_dimacs(node)), Ok(cnf(&[&[3], &[1, 2]])));
}
