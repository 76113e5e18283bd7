use kompyle::algebra::{BoolSemiring, Field, Ring, Semiring};
use kompyle::circuit::amc::{
    amc, amc1, amc_backprop_alg1, amc_backprop_cancel, amc_backprop_cancel_order,
    amc_backprop_naive, amc_backprop_order,
};
use kompyle::circuit::circuit::{Circuit, Node};
use kompyle::circuit::weights::{PosNegWeights, PosOnlyWeights};

#[derive(Debug, Clone, Copy, PartialEq)]
struct Real(f64);

impl Semiring for Real {
    const IDEMPOTENT: bool = false;

    fn zero() -> Self {
        Real(0.0)
    }

    fn one() -> Self {
        Real(1.0)
    }

    fn add(self, rhs: &Self) -> Self {
        Real(self.0 + rhs.0)
    }

    fn mul(self, rhs: &Self) -> Self {
        Real(self.0 * rhs.0)
    }

    fn has_inverse(&self) -> bool {
        self.0 != 0.0
    }

    fn is_zero(&self) -> bool {
        self.0 == 0.0
    }

    fn duplicate(&self) -> Self {
        *self
    }

    fn equals(&self, other: &Self) -> bool {
        self.0 == other.0
    }
}

impl Ring for Real {
    fn sub(self, rhs: &Self) -> Self {
        Real(self.0 - rhs.0)
    }

    fn negate(&self) -> Self {
        Real(1.0 - self.0)
    }
}

impl Field for Real {
    fn div(self, rhs: &Self) -> Self {
        Real(self.0 / rhs.0)
    }
}

#[derive(Debug, Clone, Copy, PartialEq)]
struct Fuzzy(f32);

impl Semiring for Fuzzy {
    const IDEMPOTENT: bool = true;

    fn zero() -> Self {
        Fuzzy(0.0)
    }

    fn one() -> Self {
        Fuzzy(1.0)
    }

    fn add(self, rhs: &Self) -> Self {
        Fuzzy(self.0.max(rhs.0))
    }

    fn mul(self, rhs: &Self) -> Self {
        Fuzzy(self.0.min(rhs.0))
    }

    fn has_inverse(&self) -> bool {
        false
    }

    fn is_zero(&self) -> bool {
        self.0 == 0.0
    }

    fn duplicate(&self) -> Self {
        *self
    }

    fn equals(&self, other: &Self) -> bool {
        self.0 == other.0
    }
}

impl Ring for Fuzzy {
    fn sub(self, _rhs: &Self) -> Self {
        panic!("Fuzzy sub")
    }

    fn negate(&self) -> Self {
        Fuzzy(1.0 - self.0)
    }
}

impl Field for Fuzzy {
    fn div(self, _rhs: &Self) -> Self {
        panic!("Fuzzy div")
    }
}

#[derive(Debug, Clone, Copy, PartialEq)]
struct Log(f64);

impl Semiring for Log {
    const IDEMPOTENT: bool = false;

    fn zero() -> Self {
        Log(f64::NEG_INFINITY)
    }

    fn one() -> Self {
        Log(0.0)
    }

    fn add(self, rhs: &Self) -> Self {
        let (x, y) = (self.0, rhs.0);
        if x == f64::NEG_INFINITY {
            Log(y)
        } else if y == f64::NEG_INFINITY {
            Log(x)
        } else if x > y {
            Log(x + (y - x).exp().ln_1p())
        } else {
            Log(y + (x - y).exp().ln_1p())
        }
    }

    fn mul(self, rhs: &Self) -> Self {
        Log(self.0 + rhs.0)
    }

    fn has_inverse(&self) -> bool {
        self.0 != f64::NEG_INFINITY
    }

    fn is_zero(&self) -> bool {
        self.0 == f64::NEG_INFINITY
    }

    fn duplicate(&self) -> Self {
        *self
    }

    fn equals(&self, other: &Self) -> bool {
        self.0 == other.0
    }
}

fn xor() -> Circuit {
    Circuit {
        nodes: vec![
            Node::Leaf(1),
            Node::Leaf(-2),
            Node::And(vec![0, 1]),
            Node::Leaf(-1),
            Node::Leaf(2),
            Node::And(vec![3, 4]),
            Node::Or(vec![2, 5]),
        ],
    }
}

fn three() -> Circuit {
    Circuit {
        nodes: vec![
            Node::Leaf(1),
            Node::Leaf(2),
            Node::Leaf(3),
            Node::And(vec![0, 1, 2]),
            Node::Leaf(-1),
            Node::And(vec![4, 1]),
            Node::Or(vec![3, 5]),
        ],
    }
}

fn reals(values: &[f64]) -> Vec<Real> {
    values.iter().map(|v| Real(*v)).collect()
}

fn close(a: f64, b: f64) -> bool {
    (a - b).abs() < 1e-9
}

fn all_close(a: &[Real], b: &[f64]) -> bool {
    a.len() == b.len() && a.iter().zip(b).all(|(x, y)| close(x.0, *y))
}

#[test]
fn values_of_all_gates() {
    let weights: PosNegWeights<i32> = PosNegWeights::from_vecs(vec![2, 3], vec![5, 7]);
    assert_eq!(amc::<i32, _>(&xor(), &weights), vec![2, 7, 14, 5, 3, 15, 29]);
    assert_eq!(amc1::<i32, _>(&xor(), &weights), 29);
    let empty = Circuit { nodes: vec![] };
    assert_eq!(amc::<i32, _>(&empty, &weights), Vec::<i32>::new());
}

#[test]
fn value_in_the_boolean_semiring() {
    let t = BoolSemiring(true);
    let f = BoolSemiring(false);
    let weights = PosNegWeights::from_vecs(vec![t, f], vec![f, t]);
    assert_eq!(amc1::<BoolSemiring, _>(&xor(), &weights), t);
    let weights = PosNegWeights::from_vecs(vec![t, t], vec![f, f]);
    assert_eq!(amc1::<BoolSemiring, _>(&xor(), &weights), f);
}

#[test]
fn unknown_literals_count_as_one() {
    let weights: PosNegWeights<i32> = PosNegWeights::from_vecs(vec![2], vec![5]);
    assert_eq!(amc::<i32, _>(&xor(), &weights), vec![2, 1, 2, 5, 1, 5, 7]);
    let none: PosOnlyWeights<i32> = PosOnlyWeights::from_vec(vec![]);
    assert_eq!(amc1::<i32, _>(&xor(), &none), 2);
    let zero_leaf = Circuit { nodes: vec![Node::Leaf(0)] };
    assert_eq!(amc1::<i32, _>(&zero_leaf, &weights), 1);
}

#[test]
fn empty_sum_is_zero_and_empty_product_is_one() {
    let weights: PosNegWeights<i32> = PosNegWeights::from_vecs(vec![], vec![]);
    let circuit = Circuit { nodes: vec![Node::Or(vec![]), Node::And(vec![])] };
    assert_eq!(amc::<i32, _>(&circuit, &weights), vec![0, 1]);
    let t = BoolSemiring(true);
    let f = BoolSemiring(false);
    let weights: PosNegWeights<BoolSemiring> = PosNegWeights::from_vecs(vec![], vec![]);
    assert_eq!(amc::<BoolSemiring, _>(&circuit, &weights), vec![f, t]);
}

#[test]
fn weighted_model_count_of_xor() {
    let weights = PosNegWeights::from_vecs(reals(&[0.3, 0.6]), reals(&[0.7, 0.4]));
    let value = amc1::<Real, _>(&xor(), &weights);
    assert!(close(value.0, 0.3 * 0.4 + 0.7 * 0.6));
    let value = xor()._amc2::<Real>(reals(&[0.3, 0.6]), reals(&[0.7, 0.4]));
    assert!(close(value.0, 0.54));
    let value = xor()._amc::<Real>(reals(&[0.3, 0.6]));
    assert!(close(value.0, 0.54));
}

#[test]
fn naive_gradient_of_xor() {
    let weights = PosNegWeights::from_vecs(reals(&[0.3, 0.6]), reals(&[0.7, 0.4]));
    let mut grads: PosNegWeights<Real> = PosNegWeights::new(2);
    let value = amc_backprop_naive::<Real, _, _>(&xor(), &weights, &mut grads);
    assert!(close(value.0, 0.54));
    let (pos, neg) = grads.into_vecs();
    assert_eq!(pos, reals(&[0.4, 0.7]));
    assert_eq!(neg, reals(&[0.6, 0.3]));
}

#[test]
fn integer_gradients_by_every_rule_without_division() {
    let weights: PosNegWeights<i32> = PosNegWeights::from_vecs(vec![2, 3, 5], vec![7, 11, 13]);
    let expected = (vec![15, 17, 6], vec![3, 0, 0]);
    let mut grads: PosNegWeights<i32> = PosNegWeights::new(3);
    assert_eq!(amc_backprop_naive::<i32, _, _>(&three(), &weights, &mut grads), 51);
    assert_eq!(grads.into_vecs(), expected);
    let mut grads: PosNegWeights<i32> = PosNegWeights::new(3);
    assert_eq!(amc_backprop_alg1::<i32, _, _>(&three(), &weights, &mut grads), 51);
    assert_eq!(grads.into_vecs(), expected);
}

#[test]
fn gradients_accumulate_into_the_table() {
    let weights: PosNegWeights<i32> = PosNegWeights::from_vecs(vec![2, 3, 5], vec![7, 11, 13]);
    let mut grads: PosNegWeights<i32> =
        PosNegWeights::from_vecs(vec![100, 200, 300], vec![400, 500, 600]);
    amc_backprop_naive::<i32, _, _>(&three(), &weights, &mut grads);
    assert_eq!(grads.into_vecs(), (vec![115, 217, 306], vec![403, 500, 600]));
}

#[test]
fn gradients_of_literals_that_the_table_does_not_cover_are_dropped() {
    let weights: PosNegWeights<i32> = PosNegWeights::from_vecs(vec![2, 3, 5], vec![7, 11, 13]);
    let mut grads: PosNegWeights<i32> = PosNegWeights::new(1);
    amc_backprop_naive::<i32, _, _>(&three(), &weights, &mut grads);
    assert_eq!(grads.into_vecs(), (vec![15], vec![3]));
}

fn gradient(
    rule: fn(&Circuit, &PosNegWeights<Real>, &mut PosNegWeights<Real>) -> Real,
    circuit: &Circuit,
    pos: &[f64],
    neg: &[f64],
) -> (f64, Vec<Real>, Vec<Real>) {
    let weights = PosNegWeights::from_vecs(reals(pos), reals(neg));
    let mut grads: PosNegWeights<Real> = PosNegWeights::new(pos.len());
    let value = rule(circuit, &weights, &mut grads);
    let (pos_grad, neg_grad) = grads.into_vecs();
    (value.0, pos_grad, neg_grad)
}

#[test]
fn the_rules_agree_with_the_naive_rule() {
    let pos = [0.3, 0.6, 0.25];
    let neg = [0.7, 0.4, 0.75];
    let circuit = three();
    let (value, pos_grad, neg_grad) =
        gradient(amc_backprop_naive::<Real, _, _>, &circuit, &pos, &neg);
    let expected_pos: Vec<f64> = pos_grad.iter().map(|g| g.0).collect();
    let expected_neg: Vec<f64> = neg_grad.iter().map(|g| g.0).collect();
    let rules: [fn(&Circuit, &PosNegWeights<Real>, &mut PosNegWeights<Real>) -> Real; 3] = [
        amc_backprop_alg1::<Real, _, _>,
        amc_backprop_cancel::<Real, _, _>,
        amc_backprop_cancel_order::<Real, _, _>,
    ];
    for rule in rules {
        let (v, p, n) = gradient(rule, &circuit, &pos, &neg);
        assert!(close(v, value));
        assert!(all_close(&p, &expected_pos));
        assert!(all_close(&n, &expected_neg));
    }
}

#[test]
fn the_rules_agree_where_a_weight_is_zero() {
    let pos = [0.0, 0.6, 0.25];
    let neg = [1.0, 0.4, 0.75];
    let circuit = three();
    let (_, pos_grad, neg_grad) = gradient(amc_backprop_naive::<Real, _, _>, &circuit, &pos, &neg);
    assert!(all_close(&pos_grad, &[0.15, 1.0, 0.0]));
    assert!(all_close(&neg_grad, &[0.6, 0.0, 0.0]));
    let rules: [fn(&Circuit, &PosNegWeights<Real>, &mut PosNegWeights<Real>) -> Real; 3] = [
        amc_backprop_alg1::<Real, _, _>,
        amc_backprop_cancel::<Real, _, _>,
        amc_backprop_cancel_order::<Real, _, _>,
    ];
    for rule in rules {
        let (_, p, n) = gradient(rule, &circuit, &pos, &neg);
        assert!(all_close(&p, &[0.15, 1.0, 0.0]));
        assert!(all_close(&n, &[0.6, 0.0, 0.0]));
    }
}

#[test]
fn gradient_matches_finite_differences() {
    let pos = [0.3, 0.6, 0.25];
    let neg = [0.7, 0.4, 0.75];
    let circuit = three();
    let (_, pos_grad, neg_grad) =
        gradient(amc_backprop_cancel_order::<Real, _, _>, &circuit, &pos, &neg);
    let h = 1e-6;
    let value = |pos: &[f64], neg: &[f64]| {
        amc1::<Real, _>(&circuit, &PosNegWeights::from_vecs(reals(pos), reals(neg))).0
    };
    for i in 0..3 {
        let mut up = pos;
        let mut down = pos;
        up[i] += h;
        down[i] -= h;
        let estimate = (value(&up, &neg) - value(&down, &neg)) / (2.0 * h);
        assert!((estimate - pos_grad[i].0).abs() < 1e-6);
        let mut up = neg;
        let mut down = neg;
        up[i] += h;
        down[i] -= h;
        let estimate = (value(&pos, &up) - value(&pos, &down)) / (2.0 * h);
        assert!((estimate - neg_grad[i].0).abs() < 1e-6);
    }
}

#[test]
fn single_literal_circuit() {
    let circuit = Circuit { nodes: vec![Node::Leaf(1)] };
    assert_eq!(circuit.mc(), 1);
    assert_eq!(circuit._amc::<Real>(vec![Real(0.3)]), Real(0.3));
    let (value, grad) = circuit._amc_grad::<Real>(vec![Real(0.3)]);
    assert_eq!(value, Real(0.3));
    assert_eq!(grad, vec![Real(1.0)]);
}

#[test]
fn tautology() {
    let circuit = Circuit { nodes: vec![Node::Leaf(1), Node::Leaf(-1), Node::Or(vec![0, 1])] };
    let (value, pos, neg) = circuit._amc_grad2::<Real>(reals(&[0.7]), reals(&[0.3]));
    assert_eq!(value, Real(1.0));
    assert_eq!(pos, reals(&[1.0]));
    assert_eq!(neg, reals(&[1.0]));
    assert_eq!(circuit._amc::<Real>(reals(&[0.7])), Real(1.0));
}

#[test]
fn positive_only_gradient_subtracts_for_negative_literals() {
    let circuit = Circuit { nodes: vec![Node::Leaf(1), Node::Leaf(-1), Node::Or(vec![0, 1])] };
    let (value, grad) = circuit._amc_grad::<Real>(reals(&[0.7]));
    assert_eq!(value, Real(1.0));
    assert_eq!(grad, reals(&[0.0]));
    let (value, grad) = xor()._amc_grad::<Real>(reals(&[0.3, 0.6]));
    assert!(close(value.0, 0.54));
    assert!(all_close(&grad, &[0.4 - 0.6, 0.7 - 0.3]));
}

#[test]
fn fuzzy_min_max() {
    let circuit = Circuit { nodes: vec![Node::Leaf(1), Node::Leaf(2), Node::And(vec![0, 1])] };
    let weights =
        PosNegWeights::from_vecs(vec![Fuzzy(0.6), Fuzzy(0.4)], vec![Fuzzy(0.2), Fuzzy(0.8)]);
    assert_eq!(amc1::<Fuzzy, _>(&circuit, &weights), Fuzzy(0.4));
    let mut grads: PosNegWeights<Fuzzy> = PosNegWeights::new(2);
    assert_eq!(amc_backprop_order::<Fuzzy, _, _>(&circuit, &weights, &mut grads), Fuzzy(0.4));
    assert_eq!(grads.into_vecs(), (vec![Fuzzy(0.4), Fuzzy(0.6)], vec![Fuzzy(0.0), Fuzzy(0.0)]));
    let mut grads: PosNegWeights<Fuzzy> = PosNegWeights::new(2);
    assert_eq!(amc_backprop_naive::<Fuzzy, _, _>(&circuit, &weights, &mut grads), Fuzzy(0.4));
    assert_eq!(grads.into_vecs(), (vec![Fuzzy(0.4), Fuzzy(0.6)], vec![Fuzzy(0.0), Fuzzy(0.0)]));
    let mut grads: PosNegWeights<Fuzzy> = PosNegWeights::new(2);
    assert_eq!(
        amc_backprop_cancel_order::<Fuzzy, _, _>(&circuit, &weights, &mut grads),
        Fuzzy(0.4)
    );
    assert_eq!(grads.into_vecs(), (vec![Fuzzy(0.0), Fuzzy(0.0)], vec![Fuzzy(0.0), Fuzzy(0.0)]));
}

#[test]
fn fuzzy_with_a_single_zero() {
    let circuit = Circuit { nodes: vec![Node::Leaf(1), Node::Leaf(2), Node::And(vec![0, 1])] };
    let weights =
        PosNegWeights::from_vecs(vec![Fuzzy(0.0), Fuzzy(0.4)], vec![Fuzzy(1.0), Fuzzy(0.6)]);
    let mut grads: PosNegWeights<Fuzzy> = PosNegWeights::new(2);
    assert_eq!(
        amc_backprop_cancel_order::<Fuzzy, _, _>(&circuit, &weights, &mut grads),
        Fuzzy(0.0)
    );
    assert_eq!(grads.into_vecs(), (vec![Fuzzy(0.4), Fuzzy(0.0)], vec![Fuzzy(0.0), Fuzzy(0.0)]));
}

#[test]
fn order_rule_with_two_children_of_the_value_of_the_conjunction() {
    let circuit = Circuit { nodes: vec![Node::Leaf(1), Node::Leaf(2), Node::And(vec![0, 1])] };
    let weights =
        PosNegWeights::from_vecs(vec![Fuzzy(0.5), Fuzzy(0.5)], vec![Fuzzy(0.0), Fuzzy(0.0)]);
    let mut grads: PosNegWeights<Fuzzy> = PosNegWeights::new(2);
    assert_eq!(amc_backprop_order::<Fuzzy, _, _>(&circuit, &weights, &mut grads), Fuzzy(0.5));
    assert_eq!(grads.into_vecs(), (vec![Fuzzy(0.5), Fuzzy(0.5)], vec![Fuzzy(0.0), Fuzzy(0.0)]));
}

#[test]
fn log_space_equivalence() {
    let pos = [0.3, 0.6, 0.25];
    let neg = [0.7, 0.4, 0.75];
    let logs = |values: &[f64]| -> Vec<Log> { values.iter().map(|v| Log(v.ln())).collect() };
    for circuit in [xor(), three()] {
        let real = amc1::<Real, _>(&circuit, &PosNegWeights::from_vecs(reals(&pos), reals(&neg)));
        let log = amc1::<Log, _>(&circuit, &PosNegWeights::from_vecs(logs(&pos), logs(&neg)));
        assert!(close(log.0, real.0.ln()));
    }
}

#[test]
fn log_sum_with_the_neutral_element_gives_the_other_argument() {
    for x in [0.0, -1.5, 3.25, f64::NEG_INFINITY] {
        assert_eq!(Log::zero().add(&Log(x)), Log(x));
        assert_eq!(Log(x).add(&Log::zero()), Log(x));
    }
}

#[test]
fn cancel_rules_in_the_boolean_semiring() {
    let t = BoolSemiring(true);
    let f = BoolSemiring(false);
    let circuit = Circuit { nodes: vec![Node::Leaf(1), Node::Leaf(2), Node::And(vec![0, 1])] };
    for (pos, neg) in [(vec![t, t], vec![f, f]), (vec![t, f], vec![f, t]), (vec![f, f], vec![t, t])]
    {
        let weights = PosNegWeights::from_vecs(pos.clone(), neg.clone());
        let mut naive: PosNegWeights<BoolSemiring> = PosNegWeights::new(2);
        let value = amc_backprop_naive::<BoolSemiring, _, _>(&circuit, &weights, &mut naive);
        let naive = naive.into_vecs();
        let mut grads: PosNegWeights<BoolSemiring> = PosNegWeights::new(2);
        assert_eq!(amc_backprop_cancel::<BoolSemiring, _, _>(&circuit, &weights, &mut grads), value);
        assert_eq!(grads.into_vecs(), naive);
        let mut grads: PosNegWeights<BoolSemiring> = PosNegWeights::new(2);
        assert_eq!(
            amc_backprop_cancel_order::<BoolSemiring, _, _>(&circuit, &weights, &mut grads),
            value
        );
        assert_eq!(grads.into_vecs(), naive);
        let mut grads: PosNegWeights<BoolSemiring> = PosNegWeights::new(2);
        assert_eq!(amc_backprop_alg1::<BoolSemiring, _, _>(&circuit, &weights, &mut grads), value);
        assert_eq!(grads.into_vecs(), naive);
    }
}
