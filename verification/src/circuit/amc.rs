//! Algebraic model counting: the value of a circuit in a semiring, and the
//! gradient of that value in the weights of the literals.
use vstd::prelude::*;
use crate::algebra::{Field, Semiring};
use crate::circuit::circuit::{positions, topological, Circuit, Gate, Node};
use crate::circuit::lit_var;
use crate::circuit::weights::{literal_index, Weights};

verus! {

/// The sum of the values at some positions, taken from zero in their order.
pub open spec fn sum_at<T: Semiring>(values: Seq<T>, children: Seq<int>) -> T
    decreases children.len(),
{
    if children.len() == 0 {
        T::zero_spec()
    } else {
        sum_at(values, children.drop_last()).add_spec(values[children.last()])
    }
}

/// The product of the values at some positions, taken from one in their order.
pub open spec fn product_at<T: Semiring>(values: Seq<T>, children: Seq<int>) -> T
    decreases children.len(),
{
    if children.len() == 0 {
        T::one_spec()
    } else {
        product_at(values, children.drop_last()).mul_spec(values[children.last()])
    }
}

/// The value of a literal: its weight, or one where the table does not cover it.
pub open spec fn leaf_value<T: Semiring, W: Weights<T>>(weights: W::V, lit: i32) -> T {
    match W::val_of(weights, lit as int) {
        Some(v) => v,
        None => T::one_spec(),
    }
}

/// The value of a gate, given the values of the gates before it.
pub open spec fn gate_value<T: Semiring, W: Weights<T>>(
    gate: Gate,
    values: Seq<T>,
    weights: W::V,
) -> T {
    match gate {
        Gate::Or(cs) => sum_at(values, cs),
        Gate::And(cs) => product_at(values, cs),
        Gate::Leaf(l) => leaf_value::<T, W>(weights, l),
    }
}

/// The values of the first `n` gates of a circuit.
pub open spec fn amc_values<T: Semiring, W: Weights<T>>(
    gates: Seq<Gate>,
    weights: W::V,
    n: int,
) -> Seq<T>
    decreases n,
{
    if n <= 0 {
        Seq::empty()
    } else {
        let before = amc_values::<T, W>(gates, weights, n - 1);
        before.push(gate_value::<T, W>(gates[n - 1], before, weights))
    }
}

/// The value of a circuit: that of its last gate.
pub open spec fn amc_value<T: Semiring, W: Weights<T>>(gates: Seq<Gate>, weights: W::V) -> T {
    amc_values::<T, W>(gates, weights, gates.len() as int).last()
}

/// The weight of every leaf of the circuit can be computed.
pub open spec fn leaves_defined<T: Semiring, W: Weights<T>>(
    gates: Seq<Gate>,
    weights: W::V,
) -> bool {
    forall|i: int|
        0 <= i < gates.len() ==> (#[trigger] gates[i] matches Gate::Leaf(l) ==> W::val_defined(
            weights,
            l as int,
        ))
}

/// A literal that the weights do not cover, and zero, which is no
/// literal, count as one.
pub proof fn lemma_unknown_literal_is_one<T: Semiring, W: Weights<T>>(weights: W::V, lit: i32)
    requires
        !(1 <= lit_var(lit as int) <= W::len_of(weights)),
    ensures
        W::val_of(weights, lit as int) is None,
        leaf_value::<T, W>(weights, lit) == T::one_spec(),
{
    W::covered(weights, lit as int);
}

/// A disjunction without children has the value zero, and a conjunction
/// without children has the value one.
pub proof fn lemma_empty_gates<T: Semiring, W: Weights<T>>(values: Seq<T>, weights: W::V)
    ensures
        gate_value::<T, W>(Gate::Or(Seq::empty()), values, weights) == T::zero_spec(),
        gate_value::<T, W>(Gate::And(Seq::empty()), values, weights) == T::one_spec(),
{
}

/// There are `n` values of the first `n` gates.
pub proof fn lemma_amc_values_len<T: Semiring, W: Weights<T>>(
    gates: Seq<Gate>,
    weights: W::V,
    n: int,
)
    requires
        0 <= n,
    ensures
        amc_values::<T, W>(gates, weights, n).len() == n,
    decreases n,
{
    if n > 0 {
        lemma_amc_values_len::<T, W>(gates, weights, n - 1);
    }
}

/// The values of the first gates do not depend on the gates behind them.
pub proof fn lemma_amc_values_prefix<T: Semiring, W: Weights<T>>(
    gates: Seq<Gate>,
    weights: W::V,
    m: int,
    n: int,
)
    requires
        0 <= m <= n,
    ensures
        amc_values::<T, W>(gates, weights, m) == amc_values::<T, W>(gates, weights, n).take(m),
    decreases n,
{
    lemma_amc_values_len::<T, W>(gates, weights, n);
    if m == n {
        assert(amc_values::<T, W>(gates, weights, n).take(n) =~= amc_values::<T, W>(
            gates,
            weights,
            n,
        ));
    } else {
        lemma_amc_values_prefix::<T, W>(gates, weights, m, n - 1);
        lemma_amc_values_len::<T, W>(gates, weights, n - 1);
        assert(amc_values::<T, W>(gates, weights, n).take(m) =~= amc_values::<T, W>(
            gates,
            weights,
            n - 1,
        ).take(m));
    }
}

/// The product of values at positions before `m` does not depend on the
/// values from `m` on.
pub proof fn lemma_product_at_prefix<T: Semiring>(values: Seq<T>, children: Seq<int>, m: int)
    requires
        0 <= m <= values.len(),
        forall|k: int| 0 <= k < children.len() ==> 0 <= #[trigger] children[k] < m,
    ensures
        product_at(values.take(m), children) == product_at(values, children),
    decreases children.len(),
{
    if children.len() > 0 {
        lemma_product_at_prefix(values, children.drop_last(), m);
        assert(0 <= children[children.len() - 1] < m);
    }
}

/// The sum of values at positions before `m` does not depend on the values
/// from `m` on.
pub proof fn lemma_sum_at_prefix<T: Semiring>(values: Seq<T>, children: Seq<int>, m: int)
    requires
        0 <= m <= values.len(),
        forall|k: int| 0 <= k < children.len() ==> 0 <= #[trigger] children[k] < m,
    ensures
        sum_at(values.take(m), children) == sum_at(values, children),
    decreases children.len(),
{
    if children.len() > 0 {
        lemma_sum_at_prefix(values, children.drop_last(), m);
        assert(0 <= children[children.len() - 1] < m);
    }
}

/// The value of each gate of a circuit in topological order is the value of
/// that gate over the values of all the gates.
pub proof fn lemma_amc_values_at<T: Semiring, W: Weights<T>>(
    gates: Seq<Gate>,
    weights: W::V,
    i: int,
)
    requires
        topological(gates),
        0 <= i < gates.len(),
    ensures
        amc_values::<T, W>(gates, weights, gates.len() as int)[i] == gate_value::<T, W>(
            gates[i],
            amc_values::<T, W>(gates, weights, gates.len() as int),
            weights,
        ),
{
    let n = gates.len() as int;
    let all = amc_values::<T, W>(gates, weights, n);
    lemma_amc_values_len::<T, W>(gates, weights, n);
    lemma_amc_values_prefix::<T, W>(gates, weights, i, n);
    lemma_amc_values_prefix::<T, W>(gates, weights, i + 1, n);
    lemma_amc_values_len::<T, W>(gates, weights, i);
    let before = amc_values::<T, W>(gates, weights, i);
    assert(all[i] == amc_values::<T, W>(gates, weights, i + 1)[i]);
    let cs = gates[i].children();
    assert forall|k: int| 0 <= k < cs.len() implies 0 <= #[trigger] cs[k] < i by {
        assert(0 <= gates[i].children()[k] < i);
    }
    match gates[i] {
        Gate::Or(_) => {
            lemma_sum_at_prefix(all, cs, i);
        },
        Gate::And(_) => {
            lemma_product_at_prefix(all, cs, i);
        },
        Gate::Leaf(_) => {},
    }
}

/// The sum of the values of some children.
fn sum_of<T: Semiring>(buf: &Vec<T>, children: &Vec<usize>) -> (r: T)
    requires
        forall|k: int| 0 <= k < children@.len() ==> children@[k] < buf@.len(),
    ensures
        r == sum_at(buf@, positions(children@)),
{
    let mut acc = T::zero();
    let mut k: usize = 0;
    assert(positions(children@).take(0) =~= Seq::<int>::empty());
    while k < children.len()
        invariant
            k <= children.len(),
            forall|k: int| 0 <= k < children@.len() ==> children@[k] < buf@.len(),
            acc == sum_at(buf@, positions(children@).take(k as int)),
        decreases children.len() - k,
    {
        assert(positions(children@).take(k + 1).drop_last() =~= positions(children@).take(
            k as int,
        ));
        acc = acc.add(&buf[children[k]]);
        k += 1;
    }
    assert(positions(children@).take(children@.len() as int) =~= positions(children@));
    acc
}

/// The product of the values of some children.
fn product_of<T: Semiring>(buf: &Vec<T>, children: &Vec<usize>) -> (r: T)
    requires
        forall|k: int| 0 <= k < children@.len() ==> children@[k] < buf@.len(),
    ensures
        r == product_at(buf@, positions(children@)),
{
    let mut acc = T::one();
    let mut k: usize = 0;
    assert(positions(children@).take(0) =~= Seq::<int>::empty());
    while k < children.len()
        invariant
            k <= children.len(),
            forall|k: int| 0 <= k < children@.len() ==> children@[k] < buf@.len(),
            acc == product_at(buf@, positions(children@).take(k as int)),
        decreases children.len() - k,
    {
        assert(positions(children@).take(k + 1).drop_last() =~= positions(children@).take(
            k as int,
        ));
        acc = acc.mul(&buf[children[k]]);
        k += 1;
    }
    assert(positions(children@).take(children@.len() as int) =~= positions(children@));
    acc
}

/// Algebraic model counting: the value of every gate of the circuit.
///
/// A disjunction is the sum and a conjunction the product of its children; a
/// literal has its weight, and the value one where the weights do not cover it.
pub fn amc<T: Semiring, W: Weights<T>>(circuit: &Circuit, weights: &W) -> (buf: Vec<T>)
    requires
        circuit.wf(),
        weights.inv(),
        leaves_defined::<T, W>(circuit@, weights@),
    ensures
        buf@ == amc_values::<T, W>(circuit@, weights@, circuit@.len() as int),
{
    let mut buf: Vec<T> = Vec::new();
    let mut i: usize = 0;
    while i < circuit.nodes.len()
        invariant
            i <= circuit.nodes.len(),
            circuit.wf(),
            weights.inv(),
            leaves_defined::<T, W>(circuit@, weights@),
            buf@ == amc_values::<T, W>(circuit@, weights@, i as int),
            buf@.len() == i,
        decreases circuit.nodes.len() - i,
    {
        let ghost gate = circuit@[i as int];
        let value = match &circuit.nodes[i] {
            Node::Or(children) => {
                assert forall|k: int| 0 <= k < children@.len() implies children@[k] < buf@.len() by {
                    assert(gate.children()[k] == children@[k]);
                }
                sum_of(&buf, children)
            },
            Node::And(children) => {
                assert forall|k: int| 0 <= k < children@.len() implies children@[k] < buf@.len() by {
                    assert(gate.children()[k] == children@[k]);
                }
                product_of(&buf, children)
            },
            Node::Leaf(lit) => {
                assert(gate == Gate::Leaf(*lit));
                match weights.val(*lit) {
                    Some(v) => v,
                    None => T::one(),
                }
            },
        };
        buf.push(value);
        i += 1;
    }
    buf
}

/// Algebraic model counting: the value of the circuit, which is that of its root.
pub fn amc1<T: Semiring, W: Weights<T>>(circuit: &Circuit, weights: &W) -> (r: T)
    requires
        circuit.wf(),
        circuit@.len() > 0,
        weights.inv(),
        leaves_defined::<T, W>(circuit@, weights@),
    ensures
        r == amc_value::<T, W>(circuit@, weights@),
{
    let mut buf = amc::<T, W>(circuit, weights);
    proof {
        lemma_amc_values_len::<T, W>(circuit@, weights@, circuit@.len() as int);
    }
    buf.pop().unwrap()
}

/// The gradient of every gate before the backward pass: one at the root,
/// zero elsewhere.
pub open spec fn initial_grads<T: Semiring>(n: int) -> Seq<T> {
    Seq::new(
        n as nat,
        |i: int|
            if i == n - 1 {
                T::one_spec()
            } else {
                T::zero_spec()
            },
    )
}

/// What a disjunction hands down: its gradient `g` is added to that of each child.
pub open spec fn spread_or<T: Semiring>(grads: Seq<T>, children: Seq<int>, g: T) -> Seq<T>
    decreases children.len(),
{
    if children.len() == 0 {
        grads
    } else {
        let before = spread_or(grads, children.drop_last(), g);
        before.update(children.last(), before[children.last()].add_spec(g))
    }
}

/// What a conjunction hands down, as a list of updates. An update `(j, c)`
/// adds `c * g` to the gradient at `j`, where `g` is the gradient of the
/// conjunction. The updates are applied in their order.
pub open spec fn apply_updates<T: Semiring>(grads: Seq<T>, updates: Seq<(int, T)>, g: T) -> Seq<
    T,
>
    decreases updates.len(),
{
    if updates.len() == 0 {
        grads
    } else {
        let before = apply_updates(grads, updates.drop_last(), g);
        let (j, c) = updates.last();
        before.update(j, c.mul_spec(g).add_spec(before[j]))
    }
}

/// The product of the values of the children other than the child `skip`.
pub open spec fn product_except<T: Semiring>(values: Seq<T>, children: Seq<int>, skip: int) -> T
    decreases children.len(),
{
    if children.len() == 0 {
        T::one_spec()
    } else if children.last() == skip {
        product_except(values, children.drop_last(), skip)
    } else {
        product_except(values, children.drop_last(), skip).mul_spec(values[children.last()])
    }
}

/// The updates of the naive rule: each child gets the product of the others.
pub open spec fn naive_updates<T: Semiring>(values: Seq<T>, children: Seq<int>) -> Seq<(int, T)> {
    Seq::new(children.len(), |p: int| (children[p], product_except(values, children, children[p])))
}

/// The table of gradients after the leaf `lit` with gradient `g` has been
/// visited: `g` is accumulated where the table covers the literal.
pub open spec fn leaf_update<T: Semiring, W: Weights<T>>(table: W::V, lit: i32, g: T) -> W::V {
    if 1 <= lit_var(lit as int) <= W::len_of(table) {
        W::added(table, lit as int, g)
    } else {
        table
    }
}

/// The backward pass over the gates from the last down to gate `k`: the
/// gradients of the gates and the table of gradients of the literals. What a
/// conjunction at `i` hands down is given by `rule(i)`.
pub open spec fn backward<T: Semiring, W: Weights<T>>(
    gates: Seq<Gate>,
    rule: spec_fn(int) -> Seq<(int, T)>,
    table: W::V,
    k: int,
) -> (Seq<T>, W::V)
    decreases gates.len() - k,
{
    if k >= gates.len() {
        (initial_grads(gates.len() as int), table)
    } else {
        let (grads, seen) = backward::<T, W>(gates, rule, table, k + 1);
        match gates[k] {
            Gate::Or(cs) => (spread_or(grads, cs, grads[k]), seen),
            Gate::And(cs) => (apply_updates(grads, rule(k), grads[k]), seen),
            Gate::Leaf(l) => (grads, leaf_update::<T, W>(seen, l, grads[k])),
        }
    }
}

/// Every leaf that the table covers can take any gradient.
pub open spec fn can_accumulate<T: Semiring, W: Weights<T>>(gates: Seq<Gate>, len: nat) -> bool {
    forall|i: int, lit: i32, table: W::V, g: T|
        0 <= i < gates.len() && #[trigger] gates[i] == Gate::Leaf(lit) && W::len_of(table) == len
            && 1 <= lit_var(lit as int) <= len ==> #[trigger] W::add_defined(table, lit as int, g)
}

/// Every update of every conjunction goes to a gate of the circuit.
pub open spec fn rule_in_range<T>(gates: Seq<Gate>, rule: spec_fn(int) -> Seq<(int, T)>) -> bool {
    forall|i: int, p: int|
        0 <= i < gates.len() && gates[i] is And && 0 <= p < rule(i).len() ==> 0 <= (
        #[trigger] rule(i)[p]).0 < gates.len()
}

/// The backward pass keeps one gradient per gate and the size of the table.
pub proof fn lemma_backward_len<T: Semiring, W: Weights<T>>(
    gates: Seq<Gate>,
    rule: spec_fn(int) -> Seq<(int, T)>,
    table: W::V,
    k: int,
)
    requires
        0 <= k <= gates.len(),
        topological(gates),
        rule_in_range(gates, rule),
    ensures
        backward::<T, W>(gates, rule, table, k).0.len() == gates.len(),
        W::len_of(backward::<T, W>(gates, rule, table, k).1) == W::len_of(table),
    decreases gates.len() - k,
{
    if k < gates.len() {
        lemma_backward_len::<T, W>(gates, rule, table, k + 1);
        let (grads, seen) = backward::<T, W>(gates, rule, table, k + 1);
        match gates[k] {
            Gate::Or(cs) => {
                assert forall|j: int| 0 <= j < cs.len() implies 0 <= #[trigger] cs[j]
                    < grads.len() by {
                    assert(gates[k].children()[j] == cs[j]);
                }
                lemma_spread_or_len(grads, cs, grads[k]);
            },
            Gate::And(cs) => {
                lemma_apply_updates_len(grads, rule(k), grads[k]);
            },
            Gate::Leaf(l) => {
                if 1 <= lit_var(l as int) <= W::len_of(seen) {
                    W::added_len(seen, l as int, grads[k]);
                }
            },
        }
    }
}

/// Handing down from a disjunction keeps the number of gradients.
pub proof fn lemma_spread_or_len<T: Semiring>(grads: Seq<T>, children: Seq<int>, g: T)
    requires
        forall|k: int| 0 <= k < children.len() ==> 0 <= #[trigger] children[k] < grads.len(),
    ensures
        spread_or(grads, children, g).len() == grads.len(),
    decreases children.len(),
{
    if children.len() > 0 {
        lemma_spread_or_len(grads, children.drop_last(), g);
    }
}

/// Applying updates keeps the number of gradients.
pub proof fn lemma_apply_updates_len<T: Semiring>(grads: Seq<T>, updates: Seq<(int, T)>, g: T)
    requires
        forall|k: int| 0 <= k < updates.len() ==> 0 <= (#[trigger] updates[k]).0 < grads.len(),
    ensures
        apply_updates(grads, updates, g).len() == grads.len(),
    decreases updates.len(),
{
    if updates.len() > 0 {
        lemma_apply_updates_len(grads, updates.drop_last(), g);
    }
}

/// The gradients before the backward pass.
fn start_grads<T: Semiring>(n: usize) -> (grads: Vec<T>)
    requires
        n > 0,
    ensures
        grads@ == initial_grads::<T>(n as int),
{
    let mut grads: Vec<T> = Vec::new();
    let mut i: usize = 0;
    while i < n
        invariant
            i <= n,
            grads@.len() == i,
            forall|k: int| 0 <= k < i ==> grads@[k] == initial_grads::<T>(n as int)[k],
        decreases n - i,
    {
        if i == n - 1 {
            grads.push(T::one());
        } else {
            grads.push(T::zero());
        }
        i += 1;
    }
    assert(grads@ =~= initial_grads::<T>(n as int));
    grads
}

/// Hands the gradient of the disjunction at `i` down to its children.
fn or_step<T: Semiring>(grad_buf: &mut Vec<T>, children: &Vec<usize>, i: usize)
    requires
        i < old(grad_buf)@.len(),
        forall|k: int| 0 <= k < children@.len() ==> children@[k] < i,
    ensures
        final(grad_buf)@ == spread_or(
            old(grad_buf)@,
            positions(children@),
            old(grad_buf)@[i as int],
        ),
{
    let g = grad_buf[i].duplicate();
    let ghost cs = positions(children@);
    let mut k: usize = 0;
    assert(cs.take(0) =~= Seq::<int>::empty());
    while k < children.len()
        invariant
            k <= children.len(),
            cs == positions(children@),
            i < grad_buf@.len(),
            grad_buf@.len() == old(grad_buf)@.len(),
            forall|k: int| 0 <= k < children@.len() ==> children@[k] < i,
            grad_buf@ == spread_or(old(grad_buf)@, cs.take(k as int), g),
        decreases children.len() - k,
    {
        assert(cs.take(k + 1).drop_last() =~= cs.take(k as int));
        let j = children[k];
        let sum = grad_buf[j].duplicate().add(&g);
        grad_buf.set(j, sum);
        k += 1;
    }
    assert(cs.take(cs.len() as int) =~= cs);
}

/// Adds `c * g` to the gradient at `j`.
fn update_grad<T: Semiring>(grad_buf: &mut Vec<T>, j: usize, c: T, g: &T)
    requires
        j < old(grad_buf)@.len(),
    ensures
        final(grad_buf)@ == old(grad_buf)@.update(
            j as int,
            c.mul_spec(*g).add_spec(old(grad_buf)@[j as int]),
        ),
{
    let sum = c.mul(g).add(&grad_buf[j]);
    grad_buf.set(j, sum);
}

/// Accumulates the gradient of a leaf into the table, where the table covers it.
fn leaf_step<T: Semiring, W: Weights<T>>(grad_weights: &mut W, lit: i32, g: &T)
    requires
        old(grad_weights).inv(),
        1 <= lit_var(lit as int) <= W::len_of(old(grad_weights)@) ==> W::add_defined(
            old(grad_weights)@,
            lit as int,
            *g,
        ),
    ensures
        final(grad_weights).inv(),
        final(grad_weights)@ == leaf_update::<T, W>(old(grad_weights)@, lit, *g),
{
    if lit != 0 {
        let ix = literal_index(lit);
        if ix < grad_weights.len() {
            grad_weights.add(lit, g);
        }
    }
}

/// The product of the values of the children other than the child `skip`.
fn product_of_others<T: Semiring>(buf: &Vec<T>, children: &Vec<usize>, skip: usize) -> (r: T)
    requires
        forall|k: int| 0 <= k < children@.len() ==> children@[k] < buf@.len(),
    ensures
        r == product_except(buf@, positions(children@), skip as int),
{
    let mut acc = T::one();
    let ghost cs = positions(children@);
    let mut k: usize = 0;
    assert(cs.take(0) =~= Seq::<int>::empty());
    while k < children.len()
        invariant
            k <= children.len(),
            cs == positions(children@),
            forall|k: int| 0 <= k < children@.len() ==> children@[k] < buf@.len(),
            acc == product_except(buf@, cs.take(k as int), skip as int),
        decreases children.len() - k,
    {
        assert(cs.take(k + 1).drop_last() =~= cs.take(k as int));
        if children[k] != skip {
            acc = acc.mul(&buf[children[k]]);
        }
        k += 1;
    }
    assert(cs.take(cs.len() as int) =~= cs);
    acc
}

/// What the conjunction at `i` hands down by the naive rule.
fn naive_and_step<T: Semiring>(
    grad_buf: &mut Vec<T>,
    buf: &Vec<T>,
    children: &Vec<usize>,
    i: usize,
)
    requires
        i < old(grad_buf)@.len(),
        old(grad_buf)@.len() == buf@.len(),
        forall|k: int| 0 <= k < children@.len() ==> children@[k] < i,
    ensures
        final(grad_buf)@ == apply_updates(
            old(grad_buf)@,
            naive_updates(buf@, positions(children@)),
            old(grad_buf)@[i as int],
        ),
{
    let g = grad_buf[i].duplicate();
    let ghost updates = naive_updates(buf@, positions(children@));
    let mut p: usize = 0;
    assert(updates.take(0) =~= Seq::<(int, T)>::empty());
    while p < children.len()
        invariant
            p <= children.len(),
            updates == naive_updates(buf@, positions(children@)),
            grad_buf@.len() == buf@.len(),
            i < buf@.len(),
            forall|k: int| 0 <= k < children@.len() ==> children@[k] < i,
            grad_buf@ == apply_updates(old(grad_buf)@, updates.take(p as int), g),
        decreases children.len() - p,
    {
        assert(updates.take(p + 1).drop_last() =~= updates.take(p as int));
        let j = children[p];
        let r = product_of_others(buf, children, j);
        update_grad(grad_buf, j, r, &g);
        p += 1;
    }
    assert(updates.take(updates.len() as int) =~= updates);
}

/// The rule of the naive backward pass.
pub open spec fn naive_rule<T: Semiring>(gates: Seq<Gate>, values: Seq<T>) -> spec_fn(int) -> Seq<
    (int, T),
> {
    |i: int| naive_updates(values, gates[i].children())
}

/// The gradient of the value of a circuit, by backpropagation. A conjunction
/// hands down to each child the product of the values of the other children,
/// which it computes anew for each child.
///
/// Returns the value of the circuit. The gradient of each literal that
/// `grad_weights` covers is accumulated into it.
pub fn amc_backprop_naive<T: Semiring, W: Weights<T>, G: Weights<T>>(
    circuit: &Circuit,
    weights: &W,
    grad_weights: &mut G,
) -> (r: T)
    requires
        circuit.wf(),
        circuit@.len() > 0,
        weights.inv(),
        leaves_defined::<T, W>(circuit@, weights@),
        old(grad_weights).inv(),
        can_accumulate::<T, G>(circuit@, G::len_of(old(grad_weights)@)),
    ensures
        r == amc_value::<T, W>(circuit@, weights@),
        final(grad_weights).inv(),
        final(grad_weights)@ == backward::<T, G>(
            circuit@,
            naive_rule(circuit@, amc_values::<T, W>(circuit@, weights@, circuit@.len() as int)),
            old(grad_weights)@,
            0,
        ).1,
{
    let mut buf = amc::<T, W>(circuit, weights);
    let n = circuit.nodes.len();
    let ghost gates = circuit@;
    let ghost values = buf@;
    let ghost rule = naive_rule(gates, values);
    let ghost table = grad_weights@;
    proof {
        lemma_amc_values_len::<T, W>(gates, weights@, n as int);
        lemma_naive_rule_in_range(gates, values);
    }
    let mut grad_buf: Vec<T> = start_grads(n);
    let mut i: usize = n;
    while i > 0
        invariant
            i <= n,
            n == circuit.nodes@.len(),
            gates == circuit@,
            topological(gates),
            values == buf@,
            buf@.len() == n,
            grad_buf@.len() == n,
            rule == naive_rule(gates, values),
            rule_in_range(gates, rule),
            grad_weights.inv(),
            G::len_of(grad_weights@) == G::len_of(table),
            can_accumulate::<T, G>(gates, G::len_of(table)),
            (grad_buf@, grad_weights@) == backward::<T, G>(gates, rule, table, i as int),
        decreases i,
    {
        i -= 1;
        let ghost gate = gates[i as int];
        proof {
            lemma_backward_len::<T, G>(gates, rule, table, i as int);
        }
        match &circuit.nodes[i] {
            Node::Or(children) => {
                assert forall|k: int| 0 <= k < children@.len() implies children@[k] < i by {
                    assert(gate.children()[k] == children@[k]);
                }
                or_step(&mut grad_buf, children, i);
            },
            Node::And(children) => {
                assert forall|k: int| 0 <= k < children@.len() implies children@[k] < i by {
                    assert(gate.children()[k] == children@[k]);
                }
                naive_and_step(&mut grad_buf, &buf, children, i);
            },
            Node::Leaf(lit) => {
                assert(gate == Gate::Leaf(*lit));
                leaf_step::<T, G>(grad_weights, *lit, &grad_buf[i]);
            },
        }
    }
    buf.pop().unwrap()
}

/// The updates of the naive rule go to children, which are gates of the circuit.
pub proof fn lemma_naive_rule_in_range<T: Semiring>(gates: Seq<Gate>, values: Seq<T>)
    requires
        topological(gates),
    ensures
        rule_in_range(gates, naive_rule(gates, values)),
{
    let rule = naive_rule(gates, values);
    assert forall|i: int, p: int|
        0 <= i < gates.len() && gates[i] is And && 0 <= p < rule(i).len() implies 0 <= (
    #[trigger] rule(i)[p]).0 < gates.len() by {
        assert(rule(i)[p].0 == gates[i].children()[p]);
    }
}

/// The product of the values of the children from the last down to position `p`.
pub open spec fn product_from_end<T: Semiring>(values: Seq<T>, children: Seq<int>, p: int) -> T
    decreases children.len() - p,
{
    if p >= children.len() {
        T::one_spec()
    } else {
        product_from_end(values, children, p + 1).mul_spec(values[children[p]])
    }
}

/// The updates of the one-pass rule, from the last child to the first: the
/// child at position `p` gets the product of the children before it times
/// the product of the children behind it.
pub open spec fn alg1_updates<T: Semiring>(values: Seq<T>, children: Seq<int>) -> Seq<(int, T)> {
    Seq::new(
        children.len(),
        |q: int|
            {
                let p = children.len() - 1 - q;
                (
                    children[p],
                    product_at(values, children.take(p)).mul_spec(
                        product_from_end(values, children, p + 1),
                    ),
                )
            },
    )
}

/// The rule of the one-pass backward pass.
pub open spec fn alg1_rule<T: Semiring>(gates: Seq<Gate>, values: Seq<T>) -> spec_fn(int) -> Seq<
    (int, T),
> {
    |i: int| alg1_updates(values, gates[i].children())
}

/// The updates of the one-pass rule go to children, which are gates of the circuit.
pub proof fn lemma_alg1_rule_in_range<T: Semiring>(gates: Seq<Gate>, values: Seq<T>)
    requires
        topological(gates),
    ensures
        rule_in_range(gates, alg1_rule(gates, values)),
{
    let rule = alg1_rule(gates, values);
    assert forall|i: int, p: int|
        0 <= i < gates.len() && gates[i] is And && 0 <= p < rule(i).len() implies 0 <= (
    #[trigger] rule(i)[p]).0 < gates.len() by {
        let cs = gates[i].children();
        assert(rule(i)[p].0 == cs[cs.len() - 1 - p]);
    }
}

/// What the conjunction at `i` hands down by the one-pass rule.
fn alg1_and_step<T: Semiring>(
    grad_buf: &mut Vec<T>,
    buf: &Vec<T>,
    children: &Vec<usize>,
    i: usize,
)
    requires
        i < old(grad_buf)@.len(),
        old(grad_buf)@.len() == buf@.len(),
        forall|k: int| 0 <= k < children@.len() ==> children@[k] < i,
    ensures
        final(grad_buf)@ == apply_updates(
            old(grad_buf)@,
            alg1_updates(buf@, positions(children@)),
            old(grad_buf)@[i as int],
        ),
{
    let g = grad_buf[i].duplicate();
    let ghost cs = positions(children@);
    let ghost updates = alg1_updates(buf@, cs);
    let len = children.len();
    let mut r: Vec<T> = Vec::new();
    let mut t = T::one();
    let mut p: usize = 0;
    assert(cs.take(0) =~= Seq::<int>::empty());
    while p < len
        invariant
            p <= len,
            len == children@.len(),
            cs == positions(children@),
            forall|k: int| 0 <= k < children@.len() ==> children@[k] < i,
            i < buf@.len(),
            r@.len() == p,
            forall|q: int| 0 <= q < p ==> r@[q] == product_at(buf@, cs.take(q)),
            t == product_at(buf@, cs.take(p as int)),
        decreases len - p,
    {
        assert(cs.take(p + 1).drop_last() =~= cs.take(p as int));
        r.push(t.duplicate());
        t = t.mul(&buf[children[p]]);
        p += 1;
    }
    t = T::one();
    assert(updates.take(0) =~= Seq::<(int, T)>::empty());
    while p > 0
        invariant
            p <= len,
            len == children@.len(),
            cs == positions(children@),
            updates == alg1_updates(buf@, cs),
            forall|k: int| 0 <= k < children@.len() ==> children@[k] < i,
            i < buf@.len(),
            grad_buf@.len() == buf@.len(),
            r@.len() == len,
            forall|q: int| 0 <= q < len ==> r@[q] == product_at(buf@, cs.take(q)),
            t == product_from_end(buf@, cs, p as int),
            grad_buf@ == apply_updates(old(grad_buf)@, updates.take(len - p), g),
        decreases p,
    {
        p -= 1;
        assert(updates.take(len - p).drop_last() =~= updates.take(len - p - 1));
        let j = children[p];
        let c = r[p].duplicate().mul(&t);
        update_grad(grad_buf, j, c, &g);
        t = t.mul(&buf[j]);
    }
    assert(updates.take(updates.len() as int) =~= updates);
}

/// The gradient of the value of a circuit, by backpropagation. A conjunction
/// hands down to each child the product of the values of the other children,
/// which it takes from the products of the children before and behind the
/// child, in one pass over the children each way.
///
/// Returns the value of the circuit. The gradient of each literal that
/// `grad_weights` covers is accumulated into it.
pub fn amc_backprop_alg1<T: Semiring, W: Weights<T>, G: Weights<T>>(
    circuit: &Circuit,
    weights: &W,
    grad_weights: &mut G,
) -> (r: T)
    requires
        circuit.wf(),
        circuit@.len() > 0,
        weights.inv(),
        leaves_defined::<T, W>(circuit@, weights@),
        old(grad_weights).inv(),
        can_accumulate::<T, G>(circuit@, G::len_of(old(grad_weights)@)),
    ensures
        r == amc_value::<T, W>(circuit@, weights@),
        final(grad_weights).inv(),
        final(grad_weights)@ == backward::<T, G>(
            circuit@,
            alg1_rule(circuit@, amc_values::<T, W>(circuit@, weights@, circuit@.len() as int)),
            old(grad_weights)@,
            0,
        ).1,
{
    let mut buf = amc::<T, W>(circuit, weights);
    let n = circuit.nodes.len();
    let ghost gates = circuit@;
    let ghost values = buf@;
    let ghost rule = alg1_rule(gates, values);
    let ghost table = grad_weights@;
    proof {
        lemma_amc_values_len::<T, W>(gates, weights@, n as int);
        lemma_alg1_rule_in_range(gates, values);
    }
    let mut grad_buf: Vec<T> = start_grads(n);
    let mut i: usize = n;
    while i > 0
        invariant
            i <= n,
            n == circuit.nodes@.len(),
            gates == circuit@,
            topological(gates),
            values == buf@,
            buf@.len() == n,
            grad_buf@.len() == n,
            rule == alg1_rule(gates, values),
            rule_in_range(gates, rule),
            grad_weights.inv(),
            G::len_of(grad_weights@) == G::len_of(table),
            can_accumulate::<T, G>(gates, G::len_of(table)),
            (grad_buf@, grad_weights@) == backward::<T, G>(gates, rule, table, i as int),
        decreases i,
    {
        i -= 1;
        let ghost gate = gates[i as int];
        proof {
            lemma_backward_len::<T, G>(gates, rule, table, i as int);
        }
        match &circuit.nodes[i] {
            Node::Or(children) => {
                assert forall|k: int| 0 <= k < children@.len() implies children@[k] < i by {
                    assert(gate.children()[k] == children@[k]);
                }
                or_step(&mut grad_buf, children, i);
            },
            Node::And(children) => {
                assert forall|k: int| 0 <= k < children@.len() implies children@[k] < i by {
                    assert(gate.children()[k] == children@[k]);
                }
                alg1_and_step(&mut grad_buf, &buf, children, i);
            },
            Node::Leaf(lit) => {
                assert(gate == Gate::Leaf(*lit));
                leaf_step::<T, G>(grad_weights, *lit, &grad_buf[i]);
            },
        }
    }
    buf.pop().unwrap()
}

/// Where the value of a conjunction has an inverse, it can be divided by
/// the value of each of its children.
pub open spec fn can_cancel<T: Field>(gates: Seq<Gate>, values: Seq<T>) -> bool {
    forall|i: int, k: int|
        0 <= i < gates.len() && gates[i] is And && values[i].has_inverse_spec() && 0 <= k
            < gates[i].children().len() ==> values[i].div_defined(
            values[#[trigger] gates[i].children()[k]],
        )
}

/// The updates of the cancelling rule: each child gets the value `whole` of
/// the conjunction divided by its own, or, where `whole` has no inverse, the
/// product of the other children.
pub open spec fn cancel_updates<T: Field>(values: Seq<T>, children: Seq<int>, whole: T) -> Seq<
    (int, T),
> {
    Seq::new(
        children.len(),
        |p: int|
            (
                children[p],
                if whole.has_inverse_spec() {
                    whole.div_spec(values[children[p]])
                } else {
                    product_except(values, children, children[p])
                },
            ),
    )
}

/// The rule of the cancelling backward pass.
pub open spec fn cancel_rule<T: Field>(gates: Seq<Gate>, values: Seq<T>) -> spec_fn(int) -> Seq<
    (int, T),
> {
    |i: int| cancel_updates(values, gates[i].children(), values[i])
}

/// The updates of the cancelling rule go to children, which are gates of the circuit.
pub proof fn lemma_cancel_rule_in_range<T: Field>(gates: Seq<Gate>, values: Seq<T>)
    requires
        topological(gates),
    ensures
        rule_in_range(gates, cancel_rule(gates, values)),
{
    let rule = cancel_rule(gates, values);
    assert forall|i: int, p: int|
        0 <= i < gates.len() && gates[i] is And && 0 <= p < rule(i).len() implies 0 <= (
    #[trigger] rule(i)[p]).0 < gates.len() by {
        assert(rule(i)[p].0 == gates[i].children()[p]);
    }
}

/// What the conjunction at `i` hands down by the cancelling rule.
fn cancel_and_step<T: Field>(
    grad_buf: &mut Vec<T>,
    buf: &Vec<T>,
    children: &Vec<usize>,
    i: usize,
)
    requires
        i < old(grad_buf)@.len(),
        old(grad_buf)@.len() == buf@.len(),
        forall|k: int| 0 <= k < children@.len() ==> children@[k] < i,
        forall|k: int|
            buf@[i as int].has_inverse_spec() && 0 <= k < children@.len() ==> buf@[i as int].div_defined(
                buf@[children@[k] as int],
            ),
    ensures
        final(grad_buf)@ == apply_updates(
            old(grad_buf)@,
            cancel_updates(buf@, positions(children@), buf@[i as int]),
            old(grad_buf)@[i as int],
        ),
{
    let g = grad_buf[i].duplicate();
    let ghost updates = cancel_updates(buf@, positions(children@), buf@[i as int]);
    let mut p: usize = 0;
    assert(updates.take(0) =~= Seq::<(int, T)>::empty());
    while p < children.len()
        invariant
            p <= children.len(),
            updates == cancel_updates(buf@, positions(children@), buf@[i as int]),
            grad_buf@.len() == buf@.len(),
            i < buf@.len(),
            forall|k: int| 0 <= k < children@.len() ==> children@[k] < i,
            forall|k: int|
                buf@[i as int].has_inverse_spec() && 0 <= k < children@.len() ==> buf@[i as int].div_defined(
                    buf@[children@[k] as int],
                ),
            grad_buf@ == apply_updates(old(grad_buf)@, updates.take(p as int), g),
        decreases children.len() - p,
    {
        assert(updates.take(p + 1).drop_last() =~= updates.take(p as int));
        let j = children[p];
        let residual = if buf[i].has_inverse() {
            buf[i].duplicate().div(&buf[j])
        } else {
            product_of_others(buf, children, j)
        };
        update_grad(grad_buf, j, residual, &g);
        p += 1;
    }
    assert(updates.take(updates.len() as int) =~= updates);
}

/// The gradient of the value of a circuit, by backpropagation. Where the
/// value of a conjunction has an inverse, the conjunction hands down to each
/// child its own value divided by that of the child; elsewhere, the product
/// of the values of the other children.
///
/// Returns the value of the circuit. The gradient of each literal that
/// `grad_weights` covers is accumulated into it.
pub fn amc_backprop_cancel<T: Field, W: Weights<T>, G: Weights<T>>(
    circuit: &Circuit,
    weights: &W,
    grad_weights: &mut G,
) -> (r: T)
    requires
        circuit.wf(),
        circuit@.len() > 0,
        weights.inv(),
        leaves_defined::<T, W>(circuit@, weights@),
        can_cancel(circuit@, amc_values::<T, W>(circuit@, weights@, circuit@.len() as int)),
        old(grad_weights).inv(),
        can_accumulate::<T, G>(circuit@, G::len_of(old(grad_weights)@)),
    ensures
        r == amc_value::<T, W>(circuit@, weights@),
        final(grad_weights).inv(),
        final(grad_weights)@ == backward::<T, G>(
            circuit@,
            cancel_rule(circuit@, amc_values::<T, W>(circuit@, weights@, circuit@.len() as int)),
            old(grad_weights)@,
            0,
        ).1,
{
    let mut buf = amc::<T, W>(circuit, weights);
    let n = circuit.nodes.len();
    let ghost gates = circuit@;
    let ghost values = buf@;
    let ghost rule = cancel_rule(gates, values);
    let ghost table = grad_weights@;
    proof {
        lemma_amc_values_len::<T, W>(gates, weights@, n as int);
        lemma_cancel_rule_in_range(gates, values);
    }
    let mut grad_buf: Vec<T> = start_grads(n);
    let mut i: usize = n;
    while i > 0
        invariant
            i <= n,
            n == circuit.nodes@.len(),
            gates == circuit@,
            topological(gates),
            values == buf@,
            buf@.len() == n,
            grad_buf@.len() == n,
            rule == cancel_rule(gates, values),
            rule_in_range(gates, rule),
            can_cancel(gates, values),
            grad_weights.inv(),
            G::len_of(grad_weights@) == G::len_of(table),
            can_accumulate::<T, G>(gates, G::len_of(table)),
            (grad_buf@, grad_weights@) == backward::<T, G>(gates, rule, table, i as int),
        decreases i,
    {
        i -= 1;
        let ghost gate = gates[i as int];
        proof {
            lemma_backward_len::<T, G>(gates, rule, table, i as int);
        }
        match &circuit.nodes[i] {
            Node::Or(children) => {
                assert forall|k: int| 0 <= k < children@.len() implies children@[k] < i by {
                    assert(gate.children()[k] == children@[k]);
                }
                or_step(&mut grad_buf, children, i);
            },
            Node::And(children) => {
                assert forall|k: int| 0 <= k < children@.len() implies children@[k] < i by {
                    assert(gate.children()[k] == children@[k]);
                }
                assert forall|k: int|
                    buf@[i as int].has_inverse_spec() && 0 <= k < children@.len() implies buf@[i as int].div_defined(
                    buf@[children@[k] as int],
                ) by {
                    assert(gate.children()[k] == children@[k]);
                }
                cancel_and_step(&mut grad_buf, &buf, children, i);
            },
            Node::Leaf(lit) => {
                assert(gate == Gate::Leaf(*lit));
                leaf_step::<T, G>(grad_weights, *lit, &grad_buf[i]);
            },
        }
    }
    buf.pop().unwrap()
}

/// The number of children whose value is zero.
pub open spec fn zero_count<T: Semiring>(values: Seq<T>, children: Seq<int>) -> nat
    decreases children.len(),
{
    if children.len() == 0 {
        0
    } else if values[children.last()] == T::zero_spec() {
        zero_count(values, children.drop_last()) + 1
    } else {
        zero_count(values, children.drop_last())
    }
}

/// The product of the values of the children whose value is not zero.
pub open spec fn product_nonzero<T: Semiring>(values: Seq<T>, children: Seq<int>) -> T
    decreases children.len(),
{
    if children.len() == 0 {
        T::one_spec()
    } else if values[children.last()] == T::zero_spec() {
        product_nonzero(values, children.drop_last())
    } else {
        product_nonzero(values, children.drop_last()).mul_spec(values[children.last()])
    }
}

/// The last child whose value is zero; 0 if there is none.
pub open spec fn last_zero<T: Semiring>(values: Seq<T>, children: Seq<int>) -> int
    decreases children.len(),
{
    if children.len() == 0 {
        0
    } else if values[children.last()] == T::zero_spec() {
        children.last()
    } else {
        last_zero(values, children.drop_last())
    }
}

/// The updates of the rule that cancels or looks for a single zero. Where the
/// value `whole` of the conjunction has an inverse, each child gets `whole`
/// divided by its own value. Elsewhere, if exactly one child has the value
/// zero, that child gets the product of the others, and no other child gets
/// anything.
pub open spec fn cancel_order_updates<T: Field>(
    values: Seq<T>,
    children: Seq<int>,
    whole: T,
) -> Seq<(int, T)> {
    if whole.has_inverse_spec() {
        Seq::new(children.len(), |p: int| (children[p], whole.div_spec(values[children[p]])))
    } else if zero_count(values, children) == 1 {
        seq![(last_zero(values, children), product_nonzero(values, children))]
    } else {
        Seq::empty()
    }
}

/// The rule of the backward pass that cancels or looks for a single zero.
pub open spec fn cancel_order_rule<T: Field>(gates: Seq<Gate>, values: Seq<T>) -> spec_fn(
    int,
) -> Seq<(int, T)> {
    |i: int| cancel_order_updates(values, gates[i].children(), values[i])
}

/// A child whose value is zero is counted in every longer list of children.
pub proof fn lemma_zero_count_grows<T: Semiring>(values: Seq<T>, children: Seq<int>, k: int)
    requires
        0 <= k <= children.len(),
    ensures
        zero_count(values, children.take(k)) <= zero_count(values, children),
    decreases children.len(),
{
    if k == children.len() {
        assert(children.take(k) =~= children);
    } else {
        lemma_zero_count_grows(values, children.drop_last(), k);
        assert(children.drop_last().take(k) =~= children.take(k));
    }
}

/// Where one child has the value zero, the last such child is a child.
pub proof fn lemma_last_zero_is_child<T: Semiring>(values: Seq<T>, children: Seq<int>)
    requires
        zero_count(values, children) >= 1,
    ensures
        exists|k: int| 0 <= k < children.len() && children[k] == last_zero(values, children),
    decreases children.len(),
{
    if values[children.last()] == T::zero_spec() {
        assert(children[children.len() - 1] == last_zero(values, children));
    } else {
        lemma_last_zero_is_child(values, children.drop_last());
        let k = choose|k: int|
            0 <= k < children.drop_last().len() && children.drop_last()[k] == last_zero(
                values,
                children.drop_last(),
            );
        assert(children[k] == last_zero(values, children));
    }
}

/// The updates of this rule go to children, which are gates of the circuit.
pub proof fn lemma_cancel_order_rule_in_range<T: Field>(gates: Seq<Gate>, values: Seq<T>)
    requires
        topological(gates),
    ensures
        rule_in_range(gates, cancel_order_rule(gates, values)),
{
    let rule = cancel_order_rule(gates, values);
    assert forall|i: int, p: int|
        0 <= i < gates.len() && gates[i] is And && 0 <= p < rule(i).len() implies 0 <= (
    #[trigger] rule(i)[p]).0 < gates.len() by {
        let cs = gates[i].children();
        if values[i].has_inverse_spec() {
            assert(rule(i)[p].0 == cs[p]);
        } else {
            lemma_last_zero_is_child(values, cs);
            let k = choose|k: int| 0 <= k < cs.len() && cs[k] == last_zero(values, cs);
            assert(rule(i)[p].0 == gates[i].children()[k]);
        }
    }
}

/// What the conjunction at `i` hands down by the rule that cancels or looks
/// for a single zero.
fn cancel_order_and_step<T: Field>(
    grad_buf: &mut Vec<T>,
    buf: &Vec<T>,
    children: &Vec<usize>,
    i: usize,
)
    requires
        i < old(grad_buf)@.len(),
        old(grad_buf)@.len() == buf@.len(),
        forall|k: int| 0 <= k < children@.len() ==> children@[k] < i,
        forall|k: int|
            buf@[i as int].has_inverse_spec() && 0 <= k < children@.len() ==> buf@[i as int].div_defined(
                buf@[children@[k] as int],
            ),
    ensures
        final(grad_buf)@ == apply_updates(
            old(grad_buf)@,
            cancel_order_updates(buf@, positions(children@), buf@[i as int]),
            old(grad_buf)@[i as int],
        ),
{
    let g = grad_buf[i].duplicate();
    let ghost cs = positions(children@);
    let ghost updates = cancel_order_updates(buf@, cs, buf@[i as int]);
    if buf[i].has_inverse() {
        let mut p: usize = 0;
        assert(updates.take(0) =~= Seq::<(int, T)>::empty());
        while p < children.len()
            invariant
                p <= children.len(),
                cs == positions(children@),
                updates == cancel_order_updates(buf@, cs, buf@[i as int]),
                buf@[i as int].has_inverse_spec(),
                grad_buf@.len() == buf@.len(),
                i < buf@.len(),
                forall|k: int| 0 <= k < children@.len() ==> children@[k] < i,
                forall|k: int|
                    buf@[i as int].has_inverse_spec() && 0 <= k < children@.len() ==> buf@[i as int].div_defined(
                        buf@[children@[k] as int],
                    ),
                grad_buf@ == apply_updates(old(grad_buf)@, updates.take(p as int), g),
            decreases children.len() - p,
        {
            assert(updates.take(p + 1).drop_last() =~= updates.take(p as int));
            let j = children[p];
            let residual = buf[i].duplicate().div(&buf[j]);
            update_grad(grad_buf, j, residual, &g);
            p += 1;
        }
        assert(updates.take(updates.len() as int) =~= updates);
    } else {
        let mut nb_zeros: usize = 0;
        let mut non_zero_prod = T::one();
        let mut last: usize = 0;
        let mut k: usize = 0;
        assert(cs.take(0) =~= Seq::<int>::empty());
        while k < children.len() && nb_zeros < 2
            invariant
                k <= children.len(),
                cs == positions(children@),
                i < buf@.len(),
                forall|k: int| 0 <= k < children@.len() ==> children@[k] < i,
                nb_zeros <= 2,
                nb_zeros == zero_count(buf@, cs.take(k as int)),
                non_zero_prod == product_nonzero(buf@, cs.take(k as int)),
                last == last_zero(buf@, cs.take(k as int)),
                last < i || last == 0,
            decreases children.len() - k,
        {
            assert(cs.take(k + 1).drop_last() =~= cs.take(k as int));
            let j = children[k];
            if buf[j].is_zero() {
                nb_zeros += 1;
                last = j;
            } else {
                non_zero_prod = non_zero_prod.mul(&buf[j]);
            }
            k += 1;
        }
        proof {
            lemma_zero_count_grows(buf@, cs, k as int);
            if k == children.len() {
                assert(cs.take(k as int) =~= cs);
            }
        }
        if nb_zeros == 1 {
            assert(updates.drop_last() =~= Seq::<(int, T)>::empty());
            assert(updates.last() == (last as int, non_zero_prod));
            assert(apply_updates(old(grad_buf)@, updates.drop_last(), g) == old(grad_buf)@);
            update_grad(grad_buf, last, non_zero_prod, &g);
        } else {
            assert(updates =~= Seq::<(int, T)>::empty());
        }
    }
}

/// The gradient of the value of a circuit, by backpropagation. Where the
/// value of a conjunction has an inverse, the conjunction hands down to each
/// child its own value divided by that of the child. Elsewhere it hands
/// down only if exactly one child has the value zero: to that child, the
/// product of the values of the others.
///
/// Returns the value of the circuit. The gradient of each literal that
/// `grad_weights` covers is accumulated into it.
pub fn amc_backprop_cancel_order<T: Field, W: Weights<T>, G: Weights<T>>(
    circuit: &Circuit,
    weights: &W,
    grad_weights: &mut G,
) -> (r: T)
    requires
        circuit.wf(),
        circuit@.len() > 0,
        weights.inv(),
        leaves_defined::<T, W>(circuit@, weights@),
        can_cancel(circuit@, amc_values::<T, W>(circuit@, weights@, circuit@.len() as int)),
        old(grad_weights).inv(),
        can_accumulate::<T, G>(circuit@, G::len_of(old(grad_weights)@)),
    ensures
        r == amc_value::<T, W>(circuit@, weights@),
        final(grad_weights).inv(),
        final(grad_weights)@ == backward::<T, G>(
            circuit@,
            cancel_order_rule(
                circuit@,
                amc_values::<T, W>(circuit@, weights@, circuit@.len() as int),
            ),
            old(grad_weights)@,
            0,
        ).1,
{
    let mut buf = amc::<T, W>(circuit, weights);
    let n = circuit.nodes.len();
    let ghost gates = circuit@;
    let ghost values = buf@;
    let ghost rule = cancel_order_rule(gates, values);
    let ghost table = grad_weights@;
    proof {
        lemma_amc_values_len::<T, W>(gates, weights@, n as int);
        lemma_cancel_order_rule_in_range(gates, values);
    }
    let mut grad_buf: Vec<T> = start_grads(n);
    let mut i: usize = n;
    while i > 0
        invariant
            i <= n,
            n == circuit.nodes@.len(),
            gates == circuit@,
            topological(gates),
            values == buf@,
            buf@.len() == n,
            grad_buf@.len() == n,
            rule == cancel_order_rule(gates, values),
            rule_in_range(gates, rule),
            can_cancel(gates, values),
            grad_weights.inv(),
            G::len_of(grad_weights@) == G::len_of(table),
            can_accumulate::<T, G>(gates, G::len_of(table)),
            (grad_buf@, grad_weights@) == backward::<T, G>(gates, rule, table, i as int),
        decreases i,
    {
        i -= 1;
        let ghost gate = gates[i as int];
        proof {
            lemma_backward_len::<T, G>(gates, rule, table, i as int);
        }
        match &circuit.nodes[i] {
            Node::Or(children) => {
                assert forall|k: int| 0 <= k < children@.len() implies children@[k] < i by {
                    assert(gate.children()[k] == children@[k]);
                }
                or_step(&mut grad_buf, children, i);
            },
            Node::And(children) => {
                assert forall|k: int| 0 <= k < children@.len() implies children@[k] < i by {
                    assert(gate.children()[k] == children@[k]);
                }
                assert forall|k: int|
                    buf@[i as int].has_inverse_spec() && 0 <= k < children@.len() implies buf@[i as int].div_defined(
                    buf@[children@[k] as int],
                ) by {
                    assert(gate.children()[k] == children@[k]);
                }
                cancel_order_and_step(&mut grad_buf, &buf, children, i);
            },
            Node::Leaf(lit) => {
                assert(gate == Gate::Leaf(*lit));
                leaf_step::<T, G>(grad_weights, *lit, &grad_buf[i]);
            },
        }
    }
    buf.pop().unwrap()
}

/// The number of children whose value equals `whole`.
pub open spec fn equal_count<T: Semiring>(values: Seq<T>, children: Seq<int>, whole: T) -> nat
    decreases children.len(),
{
    if children.len() == 0 {
        0
    } else if values[children.last()] == whole {
        equal_count(values, children.drop_last(), whole) + 1
    } else {
        equal_count(values, children.drop_last(), whole)
    }
}

/// The product of the values of the children whose value differs from `whole`.
pub open spec fn product_unequal<T: Semiring>(values: Seq<T>, children: Seq<int>, whole: T) -> T
    decreases children.len(),
{
    if children.len() == 0 {
        T::one_spec()
    } else if values[children.last()] == whole {
        product_unequal(values, children.drop_last(), whole)
    } else {
        product_unequal(values, children.drop_last(), whole).mul_spec(values[children.last()])
    }
}

/// The child that the search for children with the value `whole` ends at:
/// the second such child, or the only one, or 0 if there is none.
pub open spec fn last_equal<T: Semiring>(values: Seq<T>, children: Seq<int>, whole: T) -> int
    decreases children.len(),
{
    if children.len() == 0 {
        0
    } else if equal_count(values, children.drop_last(), whole) < 2 && values[children.last()]
        == whole {
        children.last()
    } else {
        last_equal(values, children.drop_last(), whole)
    }
}

/// An update with the coefficient `whole` for each child other than the child `skip`.
pub open spec fn order_rest<T: Semiring>(children: Seq<int>, skip: int, whole: T) -> Seq<(int, T)>
    decreases children.len(),
{
    if children.len() == 0 {
        Seq::empty()
    } else if children.last() == skip {
        order_rest(children.drop_last(), skip, whole)
    } else {
        order_rest(children.drop_last(), skip, whole).push((children.last(), whole))
    }
}

/// The updates of the rule of order. The child that the search for children
/// with the value `whole` of the conjunction ends at gets `whole` if there
/// are two such children, else the product of the children with another
/// value. Every other child gets `whole`.
pub open spec fn order_updates<T: Semiring>(values: Seq<T>, children: Seq<int>, whole: T) -> Seq<
    (int, T),
> {
    let chosen = last_equal(values, children, whole);
    let first = (
        chosen,
        if equal_count(values, children, whole) >= 2 {
            whole
        } else {
            product_unequal(values, children, whole)
        },
    );
    seq![first] + order_rest(children, chosen, whole)
}

/// The rule of the backward pass of order.
pub open spec fn order_rule<T: Semiring>(gates: Seq<Gate>, values: Seq<T>) -> spec_fn(int) -> Seq<
    (int, T),
> {
    |i: int| order_updates(values, gates[i].children(), values[i])
}

/// A child with the value `whole` is counted in every longer list of children.
pub proof fn lemma_equal_count_grows<T: Semiring>(
    values: Seq<T>,
    children: Seq<int>,
    whole: T,
    k: int,
)
    requires
        0 <= k <= children.len(),
    ensures
        equal_count(values, children.take(k), whole) <= equal_count(values, children, whole),
        equal_count(values, children.take(k), whole) >= 2 ==> last_equal(
            values,
            children.take(k),
            whole,
        ) == last_equal(values, children, whole),
    decreases children.len(),
{
    if k == children.len() {
        assert(children.take(k) =~= children);
    } else {
        lemma_equal_count_grows(values, children.drop_last(), whole, k);
        assert(children.drop_last().take(k) =~= children.take(k));
    }
}

/// The child that the search ends at is 0 or a child.
pub proof fn lemma_last_equal_in_range<T: Semiring>(
    values: Seq<T>,
    children: Seq<int>,
    whole: T,
    n: int,
)
    requires
        n > 0,
        forall|k: int| 0 <= k < children.len() ==> 0 <= #[trigger] children[k] < n,
    ensures
        0 <= last_equal(values, children, whole) < n,
    decreases children.len(),
{
    if children.len() > 0 {
        lemma_last_equal_in_range(values, children.drop_last(), whole, n);
    }
}

/// Every update for the other children goes to a child.
pub proof fn lemma_order_rest_in_range<T: Semiring>(
    children: Seq<int>,
    skip: int,
    whole: T,
    n: int,
)
    requires
        forall|k: int| 0 <= k < children.len() ==> 0 <= #[trigger] children[k] < n,
    ensures
        forall|p: int|
            0 <= p < order_rest(children, skip, whole).len() ==> 0 <= (#[trigger] order_rest(
                children,
                skip,
                whole,
            )[p]).0 < n,
    decreases children.len(),
{
    if children.len() > 0 {
        lemma_order_rest_in_range(children.drop_last(), skip, whole, n);
        let before = order_rest(children.drop_last(), skip, whole);
        let all = order_rest(children, skip, whole);
        assert forall|p: int| 0 <= p < all.len() implies 0 <= (#[trigger] all[p]).0 < n by {
            if p < before.len() {
                assert(all[p] == before[p]);
            } else {
                assert(all[p].0 == children[children.len() - 1]);
            }
        }
    }
}

/// The updates of the rule of order go to gates of the circuit.
pub proof fn lemma_order_rule_in_range<T: Semiring>(gates: Seq<Gate>, values: Seq<T>)
    requires
        topological(gates),
    ensures
        rule_in_range(gates, order_rule(gates, values)),
{
    let rule = order_rule(gates, values);
    assert forall|i: int, p: int|
        0 <= i < gates.len() && gates[i] is And && 0 <= p < rule(i).len() implies 0 <= (
    #[trigger] rule(i)[p]).0 < gates.len() by {
        let cs = gates[i].children();
        assert forall|k: int| 0 <= k < cs.len() implies 0 <= #[trigger] cs[k] < gates.len() by {
            assert(0 <= gates[i].children()[k] < i);
        }
        lemma_last_equal_in_range(values, cs, values[i], gates.len() as int);
        lemma_order_rest_in_range(cs, last_equal(values, cs, values[i]), values[i], gates.len() as int);
    }
}

/// What the conjunction at `i` hands down by the rule of order.
fn order_and_step<T: Semiring>(
    grad_buf: &mut Vec<T>,
    buf: &Vec<T>,
    children: &Vec<usize>,
    i: usize,
)
    requires
        i < old(grad_buf)@.len(),
        old(grad_buf)@.len() == buf@.len(),
        forall|k: int| 0 <= k < children@.len() ==> children@[k] < i,
    ensures
        final(grad_buf)@ == apply_updates(
            old(grad_buf)@,
            order_updates(buf@, positions(children@), buf@[i as int]),
            old(grad_buf)@[i as int],
        ),
{
    let g = grad_buf[i].duplicate();
    let ghost cs = positions(children@);
    let ghost whole = buf@[i as int];
    let ghost updates = order_updates(buf@, cs, whole);
    let mut nb_max: usize = 0;
    let mut non_max_prod = T::one();
    let mut last_max: usize = 0;
    let mut k: usize = 0;
    assert(cs.take(0) =~= Seq::<int>::empty());
    while k < children.len() && nb_max < 2
        invariant
            k <= children.len(),
            cs == positions(children@),
            whole == buf@[i as int],
            i < buf@.len(),
            forall|k: int| 0 <= k < children@.len() ==> children@[k] < i,
            nb_max <= 2,
            nb_max == equal_count(buf@, cs.take(k as int), whole),
            non_max_prod == product_unequal(buf@, cs.take(k as int), whole),
            last_max == last_equal(buf@, cs.take(k as int), whole),
            last_max < i || last_max == 0,
        decreases children.len() - k,
    {
        assert(cs.take(k + 1).drop_last() =~= cs.take(k as int));
        let j = children[k];
        if buf[j].equals(&buf[i]) {
            nb_max += 1;
            last_max = j;
        } else {
            non_max_prod = non_max_prod.mul(&buf[j]);
        }
        k += 1;
    }
    if nb_max >= 2 {
        non_max_prod = buf[i].duplicate();
    }
    proof {
        lemma_equal_count_grows(buf@, cs, whole, k as int);
        if k == children.len() {
            assert(cs.take(k as int) =~= cs);
        }
    }
    let ghost first = (last_max as int, non_max_prod);
    assert(updates == seq![first] + order_rest(cs, last_max as int, whole));
    assert(seq![first].drop_last() =~= Seq::<(int, T)>::empty());
    assert(seq![first].last() == first);
    assert(apply_updates(old(grad_buf)@, seq![first].drop_last(), g) == old(grad_buf)@);
    update_grad(grad_buf, last_max, non_max_prod, &g);
    assert(grad_buf@ == apply_updates(old(grad_buf)@, seq![first], g));
    let mut p: usize = 0;
    assert(seq![first] + order_rest(cs.take(0), last_max as int, whole) =~= seq![first]);
    while p < children.len()
        invariant
            p <= children.len(),
            cs == positions(children@),
            whole == buf@[i as int],
            i < buf@.len(),
            grad_buf@.len() == buf@.len(),
            forall|k: int| 0 <= k < children@.len() ==> children@[k] < i,
            grad_buf@ == apply_updates(
                old(grad_buf)@,
                seq![first] + order_rest(cs.take(p as int), last_max as int, whole),
                g,
            ),
        decreases children.len() - p,
    {
        assert(cs.take(p + 1).drop_last() =~= cs.take(p as int));
        let j = children[p];
        if j != last_max {
            let ghost before = order_rest(cs.take(p as int), last_max as int, whole);
            assert((seq![first] + before.push((j as int, whole))).drop_last() =~= seq![first]
                + before);
            update_grad(grad_buf, j, buf[i].duplicate(), &g);
        }
        p += 1;
    }
    assert(cs.take(cs.len() as int) =~= cs);
}

/// The gradient of the value of a circuit, by backpropagation, for
/// semirings whose product picks one of its factors. A conjunction looks for
/// children that have its own value. The child that this search ends at gets
/// the value of the conjunction if there are two such children, else the
/// product of the children with another value; every other child gets the
/// value of the conjunction.
///
/// Returns the value of the circuit. The gradient of each literal that
/// `grad_weights` covers is accumulated into it.
pub fn amc_backprop_order<T: Semiring, W: Weights<T>, G: Weights<T>>(
    circuit: &Circuit,
    weights: &W,
    grad_weights: &mut G,
) -> (r: T)
    requires
        circuit.wf(),
        circuit@.len() > 0,
        weights.inv(),
        leaves_defined::<T, W>(circuit@, weights@),
        old(grad_weights).inv(),
        can_accumulate::<T, G>(circuit@, G::len_of(old(grad_weights)@)),
    ensures
        r == amc_value::<T, W>(circuit@, weights@),
        final(grad_weights).inv(),
        final(grad_weights)@ == backward::<T, G>(
            circuit@,
            order_rule(circuit@, amc_values::<T, W>(circuit@, weights@, circuit@.len() as int)),
            old(grad_weights)@,
            0,
        ).1,
{
    let mut buf = amc::<T, W>(circuit, weights);
    let n = circuit.nodes.len();
    let ghost gates = circuit@;
    let ghost values = buf@;
    let ghost rule = order_rule(gates, values);
    let ghost table = grad_weights@;
    proof {
        lemma_amc_values_len::<T, W>(gates, weights@, n as int);
        lemma_order_rule_in_range(gates, values);
    }
    let mut grad_buf: Vec<T> = start_grads(n);
    let mut i: usize = n;
    while i > 0
        invariant
            i <= n,
            n == circuit.nodes@.len(),
            gates == circuit@,
            topological(gates),
            values == buf@,
            buf@.len() == n,
            grad_buf@.len() == n,
            rule == order_rule(gates, values),
            rule_in_range(gates, rule),
            grad_weights.inv(),
            G::len_of(grad_weights@) == G::len_of(table),
            can_accumulate::<T, G>(gates, G::len_of(table)),
            (grad_buf@, grad_weights@) == backward::<T, G>(gates, rule, table, i as int),
        decreases i,
    {
        i -= 1;
        let ghost gate = gates[i as int];
        proof {
            lemma_backward_len::<T, G>(gates, rule, table, i as int);
        }
        match &circuit.nodes[i] {
            Node::Or(children) => {
                assert forall|k: int| 0 <= k < children@.len() implies children@[k] < i by {
                    assert(gate.children()[k] == children@[k]);
                }
                or_step(&mut grad_buf, children, i);
            },
            Node::And(children) => {
                assert forall|k: int| 0 <= k < children@.len() implies children@[k] < i by {
                    assert(gate.children()[k] == children@[k]);
                }
                order_and_step(&mut grad_buf, &buf, children, i);
            },
            Node::Leaf(lit) => {
                assert(gate == Gate::Leaf(*lit));
                leaf_step::<T, G>(grad_weights, *lit, &grad_buf[i]);
            },
        }
    }
    buf.pop().unwrap()
}

} // verus!
