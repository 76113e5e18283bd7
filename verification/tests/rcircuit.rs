use std::rc::Rc;

use kompyle::circuit::compile::to_dimacs;
use kompyle::circuit::rcircuit::{NotCnf, RCircuit, RNode};
use kompyle::circuit::{lit, one, zero};

fn val(v: i32) -> Rc<RNode> {
    Rc::new(RNode::Val(v))
}

fn sum(vs: Vec<Rc<RNode>>) -> Rc<RNode> {
    Rc::new(RNode::Sum(vs))
}

fn prod(vs: Vec<Rc<RNode>>) -> Rc<RNode> {
    Rc::new(RNode::Prod(vs))
}

fn neg(v: Rc<RNode>) -> Rc<RNode> {
    Rc::new(RNode::Neg(v))
}

fn xor() -> Rc<RNode> {
    sum(vec![prod(vec![val(1), val(2).negate()]), prod(vec![val(1).negate(), val(2)])])
}

#[test]
fn leaves_and_constants() {
    assert!(RNode::Val(3).is_leaf());
    assert!(RNode::One.is_leaf());
    assert!(RNode::Zero.is_leaf());
    assert!(!RNode::Sum(vec![]).is_leaf());
    assert!(!RNode::Neg(val(1)).is_leaf());
    assert!(RNode::One.is_true());
    assert!(!RNode::Zero.is_true());
    assert!(!RNode::Val(1).is_true());
    assert!(RNode::Zero.is_false());
    assert!(!RNode::One.is_false());
}

#[test]
fn clauses_and_terms() {
    assert!(sum(vec![val(1), Rc::new(RNode::One)]).is_clause());
    assert!(sum(vec![]).is_clause());
    assert!(!sum(vec![val(1), neg(val(2))]).is_clause());
    assert!(!prod(vec![val(1)]).is_clause());
    assert!(prod(vec![val(1), val(-2)]).is_term());
    assert!(!sum(vec![val(1)]).is_term());
}

#[test]
fn conjunctive_normal_form() {
    assert!(prod(vec![sum(vec![val(1), val(-2)]), sum(vec![val(3)])]).is_cnf());
    assert!(prod(vec![]).is_cnf());
    assert!(prod(vec![val(1), sum(vec![val(1), val(2)])]).is_cnf());
    assert!(!prod(vec![sum(vec![val(1), Rc::new(RNode::One)])]).is_cnf());
    assert!(!prod(vec![prod(vec![val(1)])]).is_cnf());
    assert!(!sum(vec![val(1)]).is_cnf());
    assert!(!val(1).is_cnf());
}

#[test]
fn disjunctive_normal_form() {
    assert!(sum(vec![prod(vec![val(1), val(-2)]), val(3)]).is_dnf());
    assert!(sum(vec![]).is_dnf());
    assert!(!sum(vec![sum(vec![val(1)])]).is_dnf());
    assert!(!prod(vec![val(1)]).is_dnf());
}

#[test]
fn nb_vars_is_the_largest_variable() {
    assert_eq!(RNode::One.nb_vars(), 0);
    assert_eq!(RNode::Val(-7).nb_vars(), 7);
    assert_eq!(xor().nb_vars(), 2);
    assert_eq!(sum(vec![val(2), neg(val(-5)), val(3)]).nb_vars(), 5);
    assert_eq!(sum(vec![]).nb_vars(), 0);
    assert_eq!(RNode::Val(i32::MIN).nb_vars(), 2147483648);
}

#[test]
fn children_are_the_direct_parts() {
    assert_eq!(sum(vec![val(1), val(2)]).children(), vec![val(1), val(2)]);
    assert_eq!(prod(vec![val(3)]).children(), vec![val(3)]);
    assert_eq!(neg(val(4)).children(), vec![val(4)]);
    assert_eq!(val(1).children(), Vec::<Rc<RNode>>::new());
    assert_eq!(RNode::One.children(), Vec::<Rc<RNode>>::new());
}

#[test]
fn children_are_shared_not_copied() {
    let part = val(1);
    let whole = sum(vec![part.clone(), val(2)]);
    let children = whole.children();
    assert!(Rc::ptr_eq(&children[0], &part));
}

#[test]
fn value_of_a_literal() {
    assert_eq!(RNode::Val(-4).value(), -4);
}

#[test]
fn negate_pushes_the_sign_inwards() {
    assert_eq!(val(3).negate(), val(-3));
    assert_eq!(val(-3).negate(), val(3));
    assert_eq!(neg(sum(vec![val(1)])).negate(), sum(vec![val(1)]));
    assert_eq!(Rc::new(RNode::One).negate(), Rc::new(RNode::Zero));
    assert_eq!(Rc::new(RNode::Zero).negate(), Rc::new(RNode::One));
    assert_eq!(sum(vec![val(1), val(2)]).negate(), neg(sum(vec![val(1), val(2)])));
    assert_eq!(prod(vec![]).negate(), neg(prod(vec![])));
}

#[test]
fn negate_twice_gives_the_node_back() {
    for node in [val(5), sum(vec![val(1), val(2)]), Rc::new(RNode::One)] {
        assert_eq!(node.clone().negate().negate(), node);
    }
}

#[test]
fn simplify_drops_the_neutral_constants() {
    let one = Rc::new(RNode::One);
    let zero = Rc::new(RNode::Zero);
    assert_eq!(
        sum(vec![val(1), zero.clone(), val(2)]).simplify(),
        sum(vec![val(1), val(2)])
    );
    assert_eq!(
        prod(vec![one.clone(), val(1), val(2), one.clone()]).simplify(),
        prod(vec![val(1), val(2)])
    );
}

#[test]
fn simplify_collapses_on_the_absorbing_constants() {
    let one = Rc::new(RNode::One);
    let zero = Rc::new(RNode::Zero);
    assert_eq!(sum(vec![val(1), one.clone()]).simplify(), one);
    assert_eq!(prod(vec![val(1), zero.clone(), val(2)]).simplify(), zero);
}

#[test]
fn simplify_of_empty_sum_is_zero_and_of_empty_product_is_one() {
    assert_eq!(sum(vec![]).simplify(), Rc::new(RNode::Zero));
    assert_eq!(prod(vec![]).simplify(), Rc::new(RNode::One));
    assert_eq!(sum(vec![Rc::new(RNode::Zero)]).simplify(), Rc::new(RNode::Zero));
    assert_eq!(prod(vec![Rc::new(RNode::One)]).simplify(), Rc::new(RNode::One));
}

#[test]
fn simplify_replaces_a_single_child_by_itself() {
    assert_eq!(sum(vec![val(4)]).simplify(), val(4));
    assert_eq!(prod(vec![val(4), Rc::new(RNode::One)]).simplify(), val(4));
}

#[test]
fn simplify_works_from_the_leaves_up() {
    let inner = prod(vec![val(1), Rc::new(RNode::Zero)]);
    let node = sum(vec![inner, sum(vec![val(2)]), neg(prod(vec![val(3)]))]);
    assert_eq!(node.simplify(), sum(vec![val(2), neg(val(3))]));
}

#[test]
fn simplify_keeps_leaves_and_constants_under_a_negation() {
    assert_eq!(val(1).simplify(), val(1));
    assert_eq!(neg(Rc::new(RNode::One)).simplify(), neg(Rc::new(RNode::One)));
}

fn holds(node: &RNode, assignment: &[bool]) -> bool {
    match node {
        RNode::Prod(vs) => vs.iter().all(|v| holds(v, assignment)),
        RNode::Sum(vs) => vs.iter().any(|v| holds(v, assignment)),
        RNode::Neg(v) => !holds(v, assignment),
        RNode::Val(l) => {
            let value = assignment[l.unsigned_abs() as usize];
            if *l > 0 {
                value
            } else {
                !value
            }
        }
        RNode::One => true,
        RNode::Zero => false,
    }
}

fn assignments(nb_vars: usize) -> Vec<Vec<bool>> {
    let mut all = vec![];
    for bits in 0..(1u32 << nb_vars) {
        let mut a = vec![false];
        for v in 0..nb_vars {
            a.push(bits & (1 << v) != 0);
        }
        all.push(a);
    }
    all
}

#[test]
fn simplify_keeps_the_meaning() {
    let node = sum(vec![
        prod(vec![val(1), Rc::new(RNode::One), neg(val(2))]),
        Rc::new(RNode::Zero),
        prod(vec![sum(vec![val(-1), Rc::new(RNode::Zero)]), val(3)]),
        sum(vec![]),
    ]);
    let simple = node.clone().simplify();
    for a in assignments(3) {
        assert_eq!(holds(&simple, &a), holds(&node, &a));
    }
}

#[test]
fn condition_replaces_the_literals() {
    let node = sum(vec![val(1), val(-2), val(3)]);
    assert_eq!(
        node.condition(&vec![1, 2]),
        sum(vec![Rc::new(RNode::One), Rc::new(RNode::Zero), val(3)])
    );
    assert_eq!(val(-1).condition(&vec![-1]), Rc::new(RNode::One));
    assert_eq!(val(-1).condition(&vec![1]), Rc::new(RNode::Zero));
    assert_eq!(val(i32::MIN).condition(&vec![1]), val(i32::MIN));
    assert_eq!(
        neg(prod(vec![val(1), val(2)])).condition(&vec![2]),
        neg(prod(vec![val(1), Rc::new(RNode::One)]))
    );
}

#[test]
fn condition_is_a_partial_assignment() {
    let node = xor();
    let conditioned = node.clone().condition(&vec![1]);
    for a in assignments(2) {
        if a[1] {
            assert_eq!(holds(&conditioned, &a), holds(&node, &a));
        }
    }
}

#[test]
fn xor_via_conditioning() {
    let first = xor().condition(&vec![1]).simplify();
    assert_eq!(first, val(2).negate());
    assert_eq!(first, val(-2));
    let second = first.condition(&vec![-2]).simplify();
    assert_eq!(second, Rc::new(RNode::One));
}

#[test]
fn equality_is_structural() {
    assert_eq!(xor(), xor());
    assert_ne!(sum(vec![val(1), val(2)]), sum(vec![val(2), val(1)]));
    assert_ne!(sum(vec![val(1)]), prod(vec![val(1)]));
}

#[test]
fn constructors_of_formulas() {
    assert_eq!(lit(5), RCircuit::from(RNode::Val(5)));
    assert_eq!(zero(), RCircuit::from(RNode::Zero));
    assert_eq!(one(), RCircuit::from(RNode::One));
}

#[test]
fn rcircuit_operators() {
    let a = lit(1);
    let b = lit(2);
    assert_eq!(a.__and__(&b), RCircuit::from(RNode::Prod(vec![val(1), val(2)])));
    assert_eq!(a.__or__(&b), RCircuit::from(RNode::Sum(vec![val(1), val(2)])));
    assert_eq!(a.__invert__(), lit(-1));
    assert_eq!(a.__or__(&b).__invert__().__invert__(), a.__or__(&b));
    assert_eq!(a.__int__(), 1);
    assert_eq!(a.__and__(&b.__invert__()).nb_vars(), 2);
}

#[test]
fn rcircuit_normal_forms() {
    let clause = lit(1).__or__(&lit(-2));
    let cnf = clause.__and__(&lit(3));
    assert!(cnf.is_cnf());
    assert!(!cnf.is_dnf());
    assert!(clause.is_dnf());
    assert!(!clause.is_cnf());
}

#[test]
fn rcircuit_simplify_and_condition() {
    let f = lit(1).__and__(&one()).__or__(&zero());
    assert_eq!(f.simplify(), lit(1));
    let g = lit(1).__or__(&lit(2));
    assert_eq!(g.condition(vec![-1]).simplify(), lit(2));
}

#[test]
fn dimacs_text_of_a_cnf() {
    let cnf = prod(vec![sum(vec![val(1), val(-2)]), sum(vec![val(2), val(3), val(-10)])]);
    assert_eq!(to_dimacs(cnf), "p cnf 10 2\n1 -2 0\n2 3 -10 0");
}

#[test]
fn dimacs_text_of_unit_and_empty_clauses() {
    let cnf = prod(vec![val(3), sum(vec![]), sum(vec![val(-1)])]);
    assert_eq!(to_dimacs(cnf), "p cnf 3 3\n3 0\n 0\n-1 0");
    assert_eq!(to_dimacs(prod(vec![])), "p cnf 0 0\n");
}

#[test]
fn dimacs_text_of_the_largest_literals() {
    let cnf = prod(vec![sum(vec![val(i32::MAX), val(i32::MIN)])]);
    assert_eq!(to_dimacs(cnf), "p cnf 2147483648 1\n2147483647 -2147483648 0");
}

#[test]
fn rcircuit_to_dimacs_wants_a_cnf() {
    let cnf = lit(1).__or__(&lit(2)).__and__(&lit(-1).__or__(&lit(-2)));
    assert_eq!(cnf.to_dimacs(), Ok("p cnf 2 2\n1 2 0\n-1 -2 0".to_string()));
    assert_eq!(lit(1).__or__(&lit(2)).to_dimacs(), Err(NotCnf));
}
