use std::rc::Rc;

use kompyle::circuit::lit;
use kompyle::circuit::rcircuit::RNode;
use kompyle::circuit::tseitin::{can_transform, tseitin_transform};

fn val(v: i32) -> Rc<RNode> {
    Rc::new(RNode::Val(v))
}

fn sum(vs: Vec<Rc<RNode>>) -> Rc<RNode> {
    Rc::new(RNode::Sum(vs))
}

fn prod(vs: Vec<Rc<RNode>>) -> Rc<RNode> {
    Rc::new(RNode::Prod(vs))
}

fn neg(v: Rc<RNode>) -> Rc<RNode> {
    Rc::new(RNode::Neg(v))
}

fn cnf(clauses: &[&[i32]]) -> Rc<RNode> {
    prod(clauses.iter().map(|c| sum(c.iter().map(|l| val(*l)).collect())).collect())
}

fn xor() -> Rc<RNode> {
    sum(vec![prod(vec![val(1), neg(val(2))]), prod(vec![neg(val(1)), val(2)])])
}

#[test]
fn tseitin_of_a_disjunction() {
    let node = sum(vec![val(1), val(2)]);
    assert_eq!(
        tseitin_transform(node, 2),
        cnf(&[&[3, -1], &[3, -2], &[1, 2, -3], &[3]])
    );
}

#[test]
fn tseitin_of_a_conjunction_of_a_conjunction() {
    let node = prod(vec![val(-1), prod(vec![val(2)])]);
    assert_eq!(
        tseitin_transform(node, 5),
        cnf(&[&[-6, 2], &[-2, 6], &[-7, -1], &[-7, 6], &[1, -6, 7], &[7]])
    );
}

#[test]
fn tseitin_of_a_negation() {
    assert_eq!(
        tseitin_transform(neg(val(4)), 4),
        cnf(&[&[5, 4], &[-5, -4], &[5]])
    );
}

#[test]
fn tseitin_of_a_literal() {
    assert_eq!(tseitin_transform(val(-3), 3), cnf(&[&[-3]]));
}

#[test]
fn tseitin_of_xor() {
    assert_eq!(
        tseitin_transform(xor(), 2),
        cnf(&[
            &[3, 2],
            &[-3, -2],
            &[-4, 1],
            &[-4, 3],
            &[-1, -3, 4],
            &[5, 1],
            &[-5, -1],
            &[-6, 5],
            &[-6, 2],
            &[-5, -2, 6],
            &[7, -4],
            &[7, -6],
            &[4, 6, -7],
            &[7],
        ])
    );
}

#[test]
fn tseitin_numbers_new_variables_after_nb_vars() {
    assert_eq!(
        tseitin_transform(sum(vec![val(1), val(2)]), 10),
        cnf(&[&[11, -1], &[11, -2], &[1, 2, -11], &[11]])
    );
}

#[test]
fn tseitin_hands_a_cnf_back() {
    let node = cnf(&[&[1, -2], &[2]]);
    let same = tseitin_transform(node.clone(), 2);
    assert!(Rc::ptr_eq(&node, &same));
    let with_literal = prod(vec![val(1), sum(vec![val(2), val(3)])]);
    assert_eq!(tseitin_transform(with_literal.clone(), 3), with_literal);
}

#[test]
fn tseitin_of_an_empty_disjunction() {
    assert_eq!(tseitin_transform(sum(vec![]), 0), cnf(&[&[-1], &[1]]));
}

#[test]
fn can_transform_says_what_tseitin_accepts() {
    assert!(can_transform(&xor(), 2));
    assert!(can_transform(&cnf(&[&[1]]), 0));
    assert!(!can_transform(&sum(vec![val(1), Rc::new(RNode::One)]), 1));
    assert!(!can_transform(&neg(Rc::new(RNode::Zero)), 0));
    assert!(!can_transform(&RNode::One, 0));
    assert!(!can_transform(&neg(val(i32::MIN)), 0));
    assert!(can_transform(&neg(val(1)), 2147483646));
    assert!(!can_transform(&neg(val(1)), 2147483647));
    assert!(!can_transform(&neg(val(1)), u32::MAX));
}

fn holds(node: &RNode, assignment: &[bool]) -> bool {
    match node {
        RNode::Prod(vs) => vs.iter().all(|v| holds(v, assignment)),
        RNode::Sum(vs) => vs.iter().any(|v| holds(v, assignment)),
        RNode::Neg(v) => !holds(v, assignment),
        RNode::Val(l) => {
            let value = assignment[l.unsigned_abs() as usize];
            if *l > 0 {
                value
            } else {
                !value
            }
        }
        RNode::One => true,
        RNode::Zero => false,
    }
}

fn assignment(bits: u32, nb_vars: usize) -> Vec<bool> {
    let mut a = vec![false];
    for v in 0..nb_vars {
        a.push(bits & (1 << v) != 0);
    }
    a
}

#[test]
fn tseitin_keeps_satisfiability_in_the_given_variables() {
    let node = sum(vec![
        prod(vec![val(1), neg(sum(vec![val(2), val(-3)]))]),
        neg(prod(vec![val(-1), val(3)])),
    ]);
    let nb_vars = 3;
    let transformed = tseitin_transform(node.clone(), nb_vars as u32);
    let all_vars = transformed.nb_vars() as usize;
    assert_eq!(all_vars, 9);
    for given in 0..(1u32 << nb_vars) {
        let mut satisfiable = false;
        for extra in 0..(1u32 << (all_vars - nb_vars)) {
            let bits = given | (extra << nb_vars);
            if holds(&transformed, &assignment(bits, all_vars)) {
                satisfiable = true;
            }
        }
        assert_eq!(satisfiable, holds(&node, &assignment(given, nb_vars)));
    }
}

#[test]
fn rcircuit_tseitin_and_clauses() {
    let f = lit(1).__or__(&lit(2));
    assert_eq!(
        f.tseitin(2).to_dimacs(),
        Ok("p cnf 3 4\n3 -1 0\n3 -2 0\n1 2 -3 0\n3 0".to_string())
    );
    assert_eq!(f.clauses(), vec![vec![3, -1], vec![3, -2], vec![1, 2, -3], vec![3]]);
    let cnf = lit(1).__and__(&lit(-2).__or__(&lit(3)));
    assert_eq!(cnf.clauses(), vec![vec![1], vec![-2, 3]]);
}
