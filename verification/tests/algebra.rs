use kompyle::algebra::circuit::CircuitContext;
use kompyle::algebra::{product, sum, BoolSemiring, CircuitSemiring, Field, Ring, Semiring};
use kompyle::circuit::circuit::Node;

#[test]
fn bool_semiring_operations() {
    let t = BoolSemiring(true);
    let f = BoolSemiring(false);
    assert_eq!(BoolSemiring::zero(), f);
    assert_eq!(BoolSemiring::one(), t);
    assert_eq!(f.add(&t), t);
    assert_eq!(f.add(&f), f);
    assert_eq!(t.mul(&f), f);
    assert_eq!(t.mul(&t), t);
    assert_eq!(t.negate(), f);
    assert_eq!(f.negate(), t);
    assert!(t.has_inverse());
    assert!(!f.has_inverse());
    assert!(f.is_zero());
    assert!(!t.is_zero());
    assert_eq!(t.div(&t), t);
    assert!(t.equals(&t.duplicate()));
    assert!(!t.equals(&f));
}

#[test]
fn bool_sum_is_idempotent() {
    assert!(<BoolSemiring as Semiring>::IDEMPOTENT);
    for x in [BoolSemiring(false), BoolSemiring(true)] {
        assert_eq!(x.add(&x), x);
    }
}

#[test]
fn integer_semiring_operations() {
    assert_eq!(<i32 as Semiring>::zero(), 0);
    assert_eq!(<i32 as Semiring>::one(), 1);
    assert_eq!(Semiring::add(3i32, &4), 7);
    assert_eq!(Semiring::mul(3i32, &4), 12);
    assert_eq!(Ring::sub(3i32, &4), -1);
    assert_eq!(Ring::negate(&3i32), -2);
    assert_eq!(Field::div(7i32, &2), 3);
    assert_eq!(Field::div(-7i32, &2), -3);
    assert_eq!(Field::div(7i32, &-2), -3);
    assert_eq!(Field::div(-7i32, &-2), 3);
    assert!(Semiring::has_inverse(&5i32));
    assert!(!Semiring::has_inverse(&0i32));
    assert!(Semiring::is_zero(&0i32));
    assert!(!<i32 as Semiring>::IDEMPOTENT);
}

#[test]
fn integer_semiring_wraps() {
    assert_eq!(Semiring::add(i32::MAX, &1), i32::MIN);
    assert_eq!(Semiring::mul(65536i32, &65536), 0);
    assert_eq!(Ring::sub(i32::MIN, &1), i32::MAX);
}

#[test]
fn circuit_semiring_constants() {
    assert_eq!(CircuitSemiring::zero(), CircuitSemiring { ix: 0, context: None });
    assert_eq!(CircuitSemiring::one(), CircuitSemiring { ix: 1, context: None });
}

fn fresh_context(id: usize) -> CircuitContext {
    CircuitContext::new(id, vec![Node::Or(vec![]), Node::And(vec![]), Node::Leaf(1), Node::Leaf(-1)])
}

#[test]
fn circuit_semiring_appends_gates() {
    let mut context = fresh_context(7);
    let a = context.handle(2);
    let b = context.handle(3);
    assert_eq!(a, CircuitSemiring { ix: 2, context: Some(7) });
    let sum = context.add(a, &b);
    assert_eq!(sum, CircuitSemiring { ix: 4, context: Some(7) });
    let product = context.mul(sum, &CircuitSemiring::one());
    assert_eq!(product, CircuitSemiring { ix: 5, context: Some(7) });
    assert_eq!(context.len(), 6);
    let nodes = context.into_nodes();
    assert_eq!(nodes[4], Node::Or(vec![2, 3]));
    assert_eq!(nodes[5], Node::And(vec![4, 1]));
}

#[test]
fn circuit_semiring_sum_and_product_of_many() {
    let mut context = fresh_context(1);
    let items = vec![context.handle(2), context.handle(3), CircuitSemiring::zero()];
    let sum = context.sum(&items);
    assert_eq!(sum, CircuitSemiring { ix: 4, context: Some(1) });
    let product = context.product(&items);
    assert_eq!(product, CircuitSemiring { ix: 5, context: Some(1) });
    let nodes = context.into_nodes();
    assert_eq!(nodes[4], Node::Or(vec![2, 3, 0]));
    assert_eq!(nodes[5], Node::And(vec![2, 3, 0]));
}

#[test]
fn circuit_semiring_empty_sum_is_zero_and_empty_product_is_one() {
    let mut context = fresh_context(1);
    assert_eq!(context.sum(&vec![]), CircuitSemiring::zero());
    assert_eq!(context.product(&vec![]), CircuitSemiring::one());
    assert_eq!(context.len(), 4);
}

#[test]
fn circuit_context_accepts_its_own_elements_and_the_constants() {
    let context = fresh_context(3);
    assert!(context.accepts(context.handle(2)));
    assert!(context.accepts(CircuitSemiring::zero()));
    assert!(context.accepts(CircuitSemiring::one()));
    assert!(!context.accepts(CircuitSemiring { ix: 2, context: Some(4) }));
}

#[test]
fn sums_and_products_of_many() {
    assert_eq!(sum::<i32>(&vec![1, 2, 3, 4]), 10);
    assert_eq!(product::<i32>(&vec![1, 2, 3, 4]), 24);
    let t = BoolSemiring(true);
    let f = BoolSemiring(false);
    assert_eq!(sum(&vec![f, t, f]), t);
    assert_eq!(sum(&vec![f, f]), f);
    assert_eq!(product(&vec![t, t]), t);
    assert_eq!(product(&vec![t, f, t]), f);
}

#[test]
fn empty_sum_is_zero_and_empty_product_is_one_in_every_semiring() {
    assert_eq!(sum::<i32>(&vec![]), 0);
    assert_eq!(product::<i32>(&vec![]), 1);
    assert_eq!(sum::<BoolSemiring>(&vec![]), BoolSemiring(false));
    assert_eq!(product::<BoolSemiring>(&vec![]), BoolSemiring(true));
}
